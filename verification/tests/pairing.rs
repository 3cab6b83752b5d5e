use corekeys_protocol::pairing::wire::{parse_init, parse_open, parse_resp};
use corekeys_protocol::pairing::{
    commit, commit_bytes, commit_matches, digest_eq, sas, sas_bytes, sas_from_digest, sas_string,
    SAS_DIGITS, SAS_MODULUS,
};
use corekeys_protocol::{KEY_LEN, L_COMMIT, L_SAS, PAIR_NONCE_LEN};

fn k(n: u8) -> [u8; KEY_LEN] {
    [n; KEY_LEN]
}
fn nn(n: u8) -> [u8; PAIR_NONCE_LEN] {
    [n; PAIR_NONCE_LEN]
}

#[test]
fn commit_roundtrip() {
    let c = commit(&k(1), &nn(2), b"felipe-mbp");
    assert!(commit_matches(&c, &k(1), &nn(2), b"felipe-mbp"));
}

#[test]
fn commit_rejects_swapped_key() {
    let c = commit(&k(1), &nn(2), b"felipe-mbp");
    assert!(!commit_matches(&c, &k(9), &nn(2), b"felipe-mbp"));
}

#[test]
fn commit_rejects_swapped_name() {
    let c = commit(&k(1), &nn(2), b"felipe-mbp");
    assert!(!commit_matches(&c, &k(1), &nn(2), b"attacker-box"));
}

#[test]
fn sas_in_range() {
    let v = sas(&k(3), &k(4), &nn(5), &nn(6), b"host");
    assert!(v < SAS_MODULUS);
}

#[test]
fn sas_is_deterministic() {
    let a = sas(&k(3), &k(4), &nn(5), &nn(6), b"host");
    let b = sas(&k(3), &k(4), &nn(5), &nn(6), b"host");
    assert_eq!(a, b);
}

#[test]
fn sas_changes_with_device_nonce() {
    // The core anti-grind property: a fresh D_nonce changes the SAS, so the
    // daemon (H) cannot precompute a target before D reveals its nonce.
    let base = sas(&k(3), &k(4), &nn(5), &nn(6), b"host");
    let diff = sas(&k(3), &k(4), &nn(7), &nn(6), b"host");
    assert_ne!(base, diff);
}

#[test]
fn sas_changes_with_daemon_key() {
    let base = sas(&k(3), &k(4), &nn(5), &nn(6), b"host");
    let evil = sas(&k(3), &k(0xEE), &nn(5), &nn(6), b"host");
    assert_ne!(base, evil);
}

#[test]
fn sas_string_is_padded() {
    assert_eq!(sas_string(42).len(), SAS_DIGITS as usize);
    assert_eq!(sas_string(42), "000042");
}

#[test]
fn sas_string_edges() {
    assert_eq!(sas_string(0), "000000");
    assert_eq!(sas_string(999_999), "999999");
    assert_eq!(sas_string(123_456), "123456");
    assert_eq!(sas_string(1_234_567), "1234567");
    assert_eq!(sas_string(u32::MAX), "4294967295");
}

#[test]
fn commit_is_sha256_of_the_labelled_input() {
    let c = commit(&k(1), &nn(2), b"felipe-mbp");
    let expected: [u8; 32] = [
        246, 161, 118, 76, 114, 56, 3, 22, 211, 2, 25, 84, 20, 54, 101, 95, 254, 88, 82, 114,
        154, 229, 12, 137, 105, 4, 202, 7, 41, 196, 74, 227,
    ];
    assert_eq!(c, expected);
}

#[test]
fn commit_bytes_layout() {
    let b = commit_bytes(&k(1), &nn(2), b"m");
    assert_eq!(&b[..L_COMMIT.len()], b"core-keys/pair/v1/commit");
    assert_eq!(b.len(), 24 + 32 + 16 + 1);
    assert_eq!(&b[24..56], &[1u8; 32]);
    assert_eq!(&b[56..72], &[2u8; 16]);
    assert_eq!(b[72], b'm');
}

#[test]
fn sas_bytes_layout() {
    let b = sas_bytes(&k(3), &k(4), &nn(5), &nn(6), b"host");
    assert_eq!(&b[..L_SAS.len()], b"core-keys/pair/v1/sas");
    assert_eq!(b.len(), 21 + 32 + 32 + 16 + 16 + 4);
    assert_eq!(&b[21..53], &[3u8; 32]);
    assert_eq!(&b[53..85], &[4u8; 32]);
    assert_eq!(&b[85..101], &[5u8; 16]);
    assert_eq!(&b[101..117], &[6u8; 16]);
    assert_eq!(&b[117..], b"host");
}

#[test]
fn sas_known_value() {
    assert_eq!(sas(&k(3), &k(4), &nn(5), &nn(6), b"host"), 749772);
}

#[test]
fn sas_from_digest_reduces_first_eight_bytes() {
    let mut d = [0xFFu8; 32];
    d[..8].copy_from_slice(&0x0000_0000_0012_D687u64.to_be_bytes()); // 1_234_567
    assert_eq!(sas_from_digest(&d), 234_567);
    let z = [0u8; 32];
    assert_eq!(sas_from_digest(&z), 0);
    let m = [0xFFu8; 32];
    assert_eq!(sas_from_digest(&m), (u64::MAX % 1_000_000) as u32);
}

#[test]
fn digest_eq_compares_every_byte() {
    let a = [7u8; 32];
    let mut b = a;
    assert!(digest_eq(&a, &b));
    b[31] = 8;
    assert!(!digest_eq(&a, &b));
    b[31] = 7;
    b[0] = 0;
    assert!(!digest_eq(&a, &b));
}

#[test]
fn parse_resp_and_open_split_key_and_nonce() {
    let mut msg = vec![0xAAu8; 32];
    msg.extend_from_slice(&[0xBB; 16]);
    let (key, nonce) = parse_resp(&msg).unwrap();
    assert_eq!(key, &[0xAA; 32][..]);
    assert_eq!(nonce, &[0xBB; 16][..]);
    let (key, nonce) = parse_open(&msg).unwrap();
    assert_eq!(key, &[0xAA; 32][..]);
    assert_eq!(nonce, &[0xBB; 16][..]);
    assert!(parse_resp(&msg[..47]).is_none());
    assert!(parse_open(&[0u8; 49]).is_none());
}

#[test]
fn parse_init_checks_name_length() {
    let mut msg = vec![0xCCu8; 32];
    msg.push(4);
    msg.extend_from_slice(b"host");
    let (c, name) = parse_init(&msg).unwrap();
    assert_eq!(c, &[0xCC; 32][..]);
    assert_eq!(name, b"host");

    // declared length overruns the message
    let mut short = msg.clone();
    short.pop();
    assert!(parse_init(&short).is_none());
    // name longer than the cap
    let mut long = vec![0u8; 32];
    long.push(33);
    long.extend_from_slice(&[b'a'; 33]);
    assert!(parse_init(&long).is_none());
    // empty name at the minimum length
    let mut empty = vec![0u8; 32];
    empty.push(0);
    assert_eq!(parse_init(&empty).unwrap().1.len(), 0);
    assert!(parse_init(&[0u8; 32]).is_none());
}
