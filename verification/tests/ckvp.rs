use corekeys_protocol::ckvp::{encode, encode_to_vec, report_at, report_count, FrameError, Reassembler};
use corekeys_protocol::{MsgType, CKVP_MAX_MSG, REPORT_SIZE};

fn roundtrip(msg_type: MsgType, chan: u16, payload: &[u8]) {
    let mut reports: Vec<[u8; REPORT_SIZE]> = Vec::new();
    encode(msg_type, chan, payload, |r| reports.push(*r)).unwrap();

    let mut ra = Reassembler::new();
    let mut got: Option<(MsgType, Vec<u8>)> = None;
    for r in &reports {
        if let Some((ty, bytes)) = ra.push(r).unwrap() {
            got = Some((ty, bytes.to_vec()));
        }
    }
    let (ty, bytes) = got.expect("message never completed");
    assert_eq!(ty, msg_type);
    assert_eq!(bytes, payload);
}

#[test]
fn roundtrip_empty() {
    roundtrip(MsgType::PairConfirm, 7, &[]);
}

#[test]
fn roundtrip_single_start() {
    roundtrip(MsgType::PairResp, 1, &[0xAB; 40]); // fits in one START (<=59)
}

#[test]
fn roundtrip_exact_start_boundary() {
    roundtrip(MsgType::NoiseHs, 2, &[0xCD; 59]); // exactly one START
}

#[test]
fn roundtrip_multi_frame() {
    let payload: Vec<u8> = (0..1500u32).map(|i| (i % 251) as u8).collect();
    roundtrip(MsgType::NoiseMsg, 0x1234, &payload);
}

#[test]
fn roundtrip_max_len() {
    let payload = vec![0x5A; CKVP_MAX_MSG];
    roundtrip(MsgType::NoiseMsg, 9, &payload);
}

#[test]
fn rejects_too_long_encode_to_vec() {
    let payload = vec![0u8; CKVP_MAX_MSG + 1];
    let e = encode(MsgType::NoiseMsg, 0, &payload, |_| {}).unwrap_err();
    assert_eq!(e, FrameError::TooLong);
}

#[test]
fn rejects_declared_overlength_start() {
    let mut ra = Reassembler::new();
    let mut r = [0u8; REPORT_SIZE];
    r[0] = 0x80 | MsgType::NoiseMsg.to_u8();
    r[3..5].copy_from_slice(&((CKVP_MAX_MSG as u16) + 1).to_be_bytes());
    assert_eq!(ra.push(&r).unwrap_err(), FrameError::TooLong);
}

#[test]
fn cont_without_start_is_unexpected() {
    let mut ra = Reassembler::new();
    let r = [0u8; REPORT_SIZE]; // seq 0, no start
    assert_eq!(ra.push(&r).unwrap_err(), FrameError::Unexpected);
}

#[test]
fn interleaved_wrong_channel_is_rejected() {
    // Start a long message on chan 1, then a CONT on chan 2 must be rejected
    // rather than corrupting the reassembly.
    let payload = vec![0xEE; 200];
    let mut reports: Vec<[u8; REPORT_SIZE]> = Vec::new();
    encode(MsgType::NoiseMsg, 1, &payload, |r| reports.push(*r)).unwrap();
    let mut ra = Reassembler::new();
    assert!(ra.push(&reports[0]).unwrap().is_none()); // START on chan 1
    let mut evil = reports[1];
    evil[1..3].copy_from_slice(&2u16.to_be_bytes()); // same seq, chan 2
    assert_eq!(ra.push(&evil).unwrap_err(), FrameError::WrongChannel);
}

#[test]
fn bad_seq_resets() {
    let payload = vec![0x11; 200];
    let mut reports: Vec<[u8; REPORT_SIZE]> = Vec::new();
    encode(MsgType::NoiseMsg, 5, &payload, |r| reports.push(*r)).unwrap();
    let mut ra = Reassembler::new();
    ra.push(&reports[0]).unwrap();
    let mut bad = reports[1];
    bad[0] = 9; // wrong seq
    assert_eq!(ra.push(&bad).unwrap_err(), FrameError::BadSeq);
    assert!(ra.active_channel().is_none());
}

#[test]
fn encode_layout_of_start_and_cont_frames() {
    let payload: Vec<u8> = (0..100u32).map(|i| i as u8).collect();
    let reports = encode_to_vec(MsgType::PairInit, 0x0102, &payload).unwrap();
    assert_eq!(reports.len(), 2);
    let s = reports[0];
    assert_eq!(&s[..5], &[0x81, 0x01, 0x02, 0x00, 100]);
    assert_eq!(&s[5..], &payload[..59]);
    let c = reports[1];
    assert_eq!(&c[..3], &[0x00, 0x01, 0x02]);
    assert_eq!(&c[3..3 + 41], &payload[59..]);
    assert!(c[3 + 41..].iter().all(|&b| b == 0));
}

#[test]
fn encode_frame_count_and_sequence_numbers() {
    let payload = vec![7u8; 59 + 61 * 3 + 1];
    let reports = encode_to_vec(MsgType::NoiseMsg, 3, &payload).unwrap();
    assert_eq!(reports.len(), 5);
    for (k, r) in reports[1..].iter().enumerate() {
        assert_eq!(r[0] as usize, k);
    }
    let exact = vec![7u8; 59 + 61];
    assert_eq!(encode_to_vec(MsgType::NoiseMsg, 3, &exact).unwrap().len(), 2);
    assert_eq!(encode_to_vec(MsgType::NoiseMsg, 3, &[]).unwrap().len(), 1);
}

#[test]
fn encode_accepts_exactly_the_cap() {
    assert!(encode_to_vec(MsgType::NoiseMsg, 0, &vec![0u8; CKVP_MAX_MSG]).is_ok());
}

#[test]
fn start_with_unknown_type_is_bad_type_and_keeps_state() {
    let reports = encode_to_vec(MsgType::NoiseMsg, 4, &vec![1u8; 100]).unwrap();
    let mut ra = Reassembler::new();
    assert!(ra.push(&reports[0]).unwrap().is_none());
    let mut r = [0u8; REPORT_SIZE];
    r[0] = 0x80 | 0x3F;
    assert_eq!(ra.push(&r).unwrap_err(), FrameError::BadType);
    assert_eq!(ra.active_channel(), Some(4));
    let (ty, bytes) = ra.push(&reports[1]).unwrap().unwrap();
    assert_eq!(ty, MsgType::NoiseMsg);
    assert_eq!(bytes, &vec![1u8; 100][..]);
}

#[test]
fn wrong_channel_keeps_the_message_in_flight() {
    let payload: Vec<u8> = (0..150u32).map(|i| i as u8).collect();
    let reports = encode_to_vec(MsgType::NoiseHs, 1, &payload).unwrap();
    let mut ra = Reassembler::new();
    ra.push(&reports[0]).unwrap();
    let mut evil = reports[1];
    evil[2] = 2;
    assert_eq!(ra.push(&evil).unwrap_err(), FrameError::WrongChannel);
    assert!(ra.push(&reports[1]).unwrap().is_none());
    let (ty, bytes) = ra.push(&reports[2]).unwrap().unwrap();
    assert_eq!(ty, MsgType::NoiseHs);
    assert_eq!(bytes, &payload[..]);
}

#[test]
fn start_clobbers_a_message_in_flight() {
    let long = encode_to_vec(MsgType::NoiseMsg, 1, &vec![9u8; 300]).unwrap();
    let short = encode_to_vec(MsgType::PairOpen, 2, &[5u8; 48]).unwrap();
    let mut ra = Reassembler::new();
    ra.push(&long[0]).unwrap();
    ra.push(&long[1]).unwrap();
    let (ty, bytes) = ra.push(&short[0]).unwrap().unwrap();
    assert_eq!(ty, MsgType::PairOpen);
    assert_eq!(bytes, &[5u8; 48][..]);
    assert!(ra.active_channel().is_none());
}

#[test]
fn reset_discards_the_message_in_flight() {
    let reports = encode_to_vec(MsgType::NoiseMsg, 6, &vec![3u8; 100]).unwrap();
    let mut ra = Reassembler::default();
    ra.push(&reports[0]).unwrap();
    assert_eq!(ra.active_channel(), Some(6));
    ra.reset();
    assert!(ra.active_channel().is_none());
    assert_eq!(ra.push(&reports[1]).unwrap_err(), FrameError::Unexpected);
}

#[test]
fn cont_after_completion_is_unexpected() {
    let reports = encode_to_vec(MsgType::NoiseMsg, 6, &vec![3u8; 100]).unwrap();
    let mut ra = Reassembler::new();
    ra.push(&reports[0]).unwrap();
    assert!(ra.push(&reports[1]).unwrap().is_some());
    assert_eq!(ra.push(&reports[1]).unwrap_err(), FrameError::Unexpected);
}

#[test]
fn msg_type_codes_roundtrip() {
    let all = [
        MsgType::PairInit,
        MsgType::PairResp,
        MsgType::PairOpen,
        MsgType::PairConfirm,
        MsgType::NoiseHs,
        MsgType::NoiseMsg,
    ];
    let codes = [0x01u8, 0x02, 0x03, 0x04, 0x10, 0x11];
    for (t, c) in all.iter().zip(codes.iter()) {
        assert_eq!(t.to_u8(), *c);
        assert_eq!(MsgType::from_u8(*c), Some(*t));
    }
    for v in 0..=255u8 {
        if !codes.contains(&v) {
            assert_eq!(MsgType::from_u8(v), None);
        }
    }
}

#[test]
fn report_count_and_report_at_match_encode_to_vec() {
    for len in [0usize, 1, 58, 59, 60, 119, 120, 121, 1500, CKVP_MAX_MSG] {
        let payload: Vec<u8> = (0..len as u32).map(|i| (i % 253) as u8).collect();
        let reports = encode_to_vec(MsgType::NoiseHs, 0xBEEF, &payload).unwrap();
        assert_eq!(report_count(len), reports.len());
        for (k, r) in reports.iter().enumerate() {
            assert_eq!(&report_at(MsgType::NoiseHs, 0xBEEF, &payload, k), r);
        }
    }
    assert_eq!(report_count(CKVP_MAX_MSG), 34);
    assert_eq!(report_count(59 + 61), 2);
    assert_eq!(report_count(59 + 62), 3);
}

#[test]
fn reassembler_counts_cont_frames_in_next_seq() {
    // After one accepted CONT frame, only sequence number 1 is in order.
    let payload = vec![2u8; 59 + 61 * 3];
    let reports = encode_to_vec(MsgType::NoiseMsg, 8, &payload).unwrap();
    let mut ra = Reassembler::new();
    ra.push(&reports[0]).unwrap();
    ra.push(&reports[1]).unwrap();
    assert_eq!(reports[3][0], 2); // the frame after next, carrying sequence number 2
    assert_eq!(ra.push(&reports[3]).unwrap_err(), FrameError::BadSeq);
    assert!(ra.active_channel().is_none());
}

#[test]
fn encode_emits_what_encode_to_vec_returns() {
    let payload: Vec<u8> = (0..700u32).map(|i| (i * 7) as u8).collect();
    let mut emitted: Vec<[u8; REPORT_SIZE]> = Vec::new();
    encode(MsgType::PairInit, 0x4242, &payload, |r| emitted.push(*r)).unwrap();
    assert_eq!(emitted, encode_to_vec(MsgType::PairInit, 0x4242, &payload).unwrap());
    let mut calls = 0;
    let e = encode(MsgType::PairInit, 1, &vec![0u8; CKVP_MAX_MSG + 1], |_| calls += 1);
    assert_eq!(e, Err(FrameError::TooLong));
    assert_eq!(calls, 0);
    assert_eq!(encode_to_vec(MsgType::PairInit, 1, &vec![0u8; CKVP_MAX_MSG + 1]), Err(FrameError::TooLong));
}
