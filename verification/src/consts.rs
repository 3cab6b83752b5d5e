//! Protocol constants and the message types of the vendor channel.
use vstd::prelude::*;

verus! {

/// One HID report on the vendor channel.
pub const REPORT_SIZE: usize = 64;

/// Cap on the total length that a START frame may declare; reassembly
/// rejects anything larger.
pub const CKVP_MAX_MSG: usize = 2048;

/// A half-open reassembly is discarded after this many milliseconds.
pub const CKVP_REASM_TIMEOUT_MS: u64 = 250;

/// Pairing nonce length (128-bit).
pub const PAIR_NONCE_LEN: usize = 16;

/// X25519 / Ed25519 public key length.
pub const KEY_LEN: usize = 32;

/// Per-operation request id length.
pub const REQ_ID_LEN: usize = 8;

/// Recent request ids kept for replay dedup.
pub const DEDUP_WINDOW: usize = 32;

/// Authorized-daemon list cap on the device.
pub const MAX_AUTH_DAEMONS: usize = 8;

/// Domain-separation label of the pairing commitment (ASCII `core-keys/pair/v1/commit`,
/// no trailing NUL).
pub const L_COMMIT: [u8; 24] = [
    0x63, 0x6f, 0x72, 0x65, 0x2d, 0x6b, 0x65, 0x79, 0x73, 0x2f, 0x70, 0x61, 0x69, 0x72, 0x2f, 0x76, 0x31, 0x2f, 0x63, 0x6f, 0x6d, 0x6d, 0x69, 0x74,
];

/// Domain-separation label of the short authentication string
/// (ASCII `core-keys/pair/v1/sas`).
pub const L_SAS: [u8; 21] = [
    0x63, 0x6f, 0x72, 0x65, 0x2d, 0x6b, 0x65, 0x79, 0x73, 0x2f, 0x70, 0x61, 0x69, 0x72, 0x2f, 0x76, 0x31, 0x2f, 0x73, 0x61, 0x73,
];

/// Message types of the vendor channel (`msg_type`, 0x00..0x3F). No other
/// plaintext type exists.
#[derive(Debug, Clone, Copy, PartialEq, Eq, Structural)]
pub enum MsgType {
    PairInit,
    PairResp,
    PairOpen,
    PairConfirm,
    NoiseHs,
    NoiseMsg,
}

impl MsgType {
    /// The wire code of a message type.
    pub open spec fn code(self) -> u8 {
        match self {
            MsgType::PairInit => 0x01,
            MsgType::PairResp => 0x02,
            MsgType::PairOpen => 0x03,
            MsgType::PairConfirm => 0x04,
            MsgType::NoiseHs => 0x10,
            MsgType::NoiseMsg => 0x11,
        }
    }

    /// The message type that a wire code names, if any.
    pub open spec fn of_code(v: u8) -> Option<MsgType> {
        if v == 0x01 {
            Some(MsgType::PairInit)
        } else if v == 0x02 {
            Some(MsgType::PairResp)
        } else if v == 0x03 {
            Some(MsgType::PairOpen)
        } else if v == 0x04 {
            Some(MsgType::PairConfirm)
        } else if v == 0x10 {
            Some(MsgType::NoiseHs)
        } else if v == 0x11 {
            Some(MsgType::NoiseMsg)
        } else {
            None
        }
    }

    /// The wire code of this message type.
    pub fn to_u8(self) -> (v: u8)
        ensures
            v == self.code(),
    {
        match self {
            MsgType::PairInit => 0x01,
            MsgType::PairResp => 0x02,
            MsgType::PairOpen => 0x03,
            MsgType::PairConfirm => 0x04,
            MsgType::NoiseHs => 0x10,
            MsgType::NoiseMsg => 0x11,
        }
    }

    /// Decodes a wire code; `None` for any code that names no message type.
    pub fn from_u8(v: u8) -> (r: Option<Self>)
        ensures
            r == Self::of_code(v),
    {
        match v {
            0x01 => Some(MsgType::PairInit),
            0x02 => Some(MsgType::PairResp),
            0x03 => Some(MsgType::PairOpen),
            0x04 => Some(MsgType::PairConfirm),
            0x10 => Some(MsgType::NoiseHs),
            0x11 => Some(MsgType::NoiseMsg),
            _ => None,
        }
    }
}

/// The wire codes of the message types; decoding the code of a message type
/// gives that type back, and every code that decodes is the code of what it
/// decodes to; every code is below 0x40, so no other value decodes.
pub proof fn lemma_msg_type_code_roundtrip(t: MsgType, v: u8)
    ensures
        MsgType::PairInit.code() == 0x01 && MsgType::PairResp.code() == 0x02,
        MsgType::PairOpen.code() == 0x03 && MsgType::PairConfirm.code() == 0x04,
        MsgType::NoiseHs.code() == 0x10 && MsgType::NoiseMsg.code() == 0x11,
        v >= 0x40 ==> MsgType::of_code(v) is None,
        MsgType::of_code(t.code()) == Some(t),
        t.code() < 0x40,
        MsgType::of_code(v) matches Some(u) ==> u.code() == v,
{
}

} // verus!
