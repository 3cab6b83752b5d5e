//! Shared wire logic for a split-key authenticator: the framing of messages
//! over fixed-size HID reports, the pairing commitment and short
//! authentication string, and the shape checks of the co-authorization
//! records.
pub mod ckvp;
pub mod consts;
pub mod pairing;
pub mod records;

pub use consts::{
    MsgType, CKVP_MAX_MSG, CKVP_REASM_TIMEOUT_MS, DEDUP_WINDOW, KEY_LEN, L_COMMIT, L_SAS,
    MAX_AUTH_DAEMONS, PAIR_NONCE_LEN, REPORT_SIZE, REQ_ID_LEN,
};
