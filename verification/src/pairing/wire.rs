//! Wire layouts of the plaintext pairing messages. Fixed-size fields first;
//! only PAIR_INIT is variable (trailing machine_name).
//!
//!   PAIR_INIT    commit(32) || name_len(u8) || machine_name(name_len)
//!   PAIR_RESP    d_pub(32)  || d_nonce(16)
//!   PAIR_OPEN    h_pub(32)  || h_nonce(16)
//!   PAIR_CONFIRM status(1)   (0 = ok / button pressed, nonzero = abort)
use vstd::prelude::*;

use crate::consts::{KEY_LEN, PAIR_NONCE_LEN};

verus! {

pub const COMMIT_LEN: usize = 32;

/// Display-width cap of the machine name.
pub const MACHINE_NAME_MAX: usize = 32;

pub const PAIR_CONFIRM_OK: u8 = 0;

/// Longest PAIR_INIT: commit + len byte + capped name.
pub const PAIR_INIT_MAX: usize = COMMIT_LEN + 1 + MACHINE_NAME_MAX;

pub const PAIR_RESP_LEN: usize = KEY_LEN + PAIR_NONCE_LEN;

pub const PAIR_OPEN_LEN: usize = KEY_LEN + PAIR_NONCE_LEN;

/// Splits `b` at `mid`.
fn split(b: &[u8], mid: usize) -> (r: (&[u8], &[u8]))
    requires
        mid <= b@.len(),
    ensures
        r.0@ == b@.take(mid as int),
        r.1@ == b@.skip(mid as int),
{
    let head = vstd::slice::slice_subrange(b, 0, mid);
    let tail = vstd::slice::slice_subrange(b, mid, b.len());
    assert(head@ =~= b@.take(mid as int));
    assert(tail@ =~= b@.skip(mid as int));
    (head, tail)
}

/// Parses PAIR_RESP into (d_pub, d_nonce). Returns `None` on a bad length.
pub fn parse_resp(b: &[u8]) -> (r: Option<(&[u8], &[u8])>)
    ensures
        r is Some <==> b@.len() == PAIR_RESP_LEN,
        r matches Some((d_pub, d_nonce)) ==> d_pub@ == b@.take(KEY_LEN as int) && d_nonce@ == b@.skip(
            KEY_LEN as int,
        ),
{
    if b.len() != PAIR_RESP_LEN {
        return None;
    }
    Some(split(b, KEY_LEN))
}

/// Parses PAIR_OPEN into (h_pub, h_nonce). Returns `None` on a bad length.
pub fn parse_open(b: &[u8]) -> (r: Option<(&[u8], &[u8])>)
    ensures
        r is Some <==> b@.len() == PAIR_OPEN_LEN,
        r matches Some((h_pub, h_nonce)) ==> h_pub@ == b@.take(KEY_LEN as int) && h_nonce@ == b@.skip(
            KEY_LEN as int,
        ),
{
    if b.len() != PAIR_OPEN_LEN {
        return None;
    }
    Some(split(b, KEY_LEN))
}

/// A well-formed PAIR_INIT: the commitment, a length byte no larger than the
/// cap, and exactly that many name bytes.
pub open spec fn is_pair_init(b: Seq<u8>) -> bool {
    &&& b.len() >= COMMIT_LEN + 1
    &&& b[COMMIT_LEN as int] <= MACHINE_NAME_MAX
    &&& b.len() == COMMIT_LEN + 1 + b[COMMIT_LEN as int]
}

/// Parses PAIR_INIT into (commit, machine_name). Returns `None` if malformed
/// or if the declared name length overruns the message or exceeds the cap.
pub fn parse_init(b: &[u8]) -> (r: Option<(&[u8], &[u8])>)
    ensures
        r is Some <==> is_pair_init(b@),
        r matches Some((c, name)) ==> c@ == b@.take(COMMIT_LEN as int) && name@ == b@.skip(
            COMMIT_LEN + 1,
        ),
{
    if b.len() < COMMIT_LEN + 1 {
        return None;
    }
    let name_len = b[COMMIT_LEN] as usize;
    if name_len > MACHINE_NAME_MAX || b.len() != COMMIT_LEN + 1 + name_len {
        return None;
    }
    let (c, rest) = split(b, COMMIT_LEN);
    let (_, name) = split(rest, 1);
    assert(name@ =~= b@.skip(COMMIT_LEN + 1));
    Some((c, name))
}

/// A well-formed PAIR_INIT is never longer than `PAIR_INIT_MAX`, and its two
/// fields with the length byte between them make up the whole message.
pub proof fn lemma_pair_init_layout(b: Seq<u8>)
    requires
        is_pair_init(b),
    ensures
        b.len() <= PAIR_INIT_MAX,
        b =~= b.take(COMMIT_LEN as int) + seq![b[COMMIT_LEN as int]] + b.skip(COMMIT_LEN + 1),
        b.skip(COMMIT_LEN + 1).len() == b[COMMIT_LEN as int],
{
}

/// Every PAIR_INIT that carries a 32-byte commitment and a machine name of at
/// most 32 bytes, with the name's length in the byte between them, is
/// accepted, and splits back into that commitment and that name.
pub proof fn lemma_pair_init_complete(c: Seq<u8>, name: Seq<u8>)
    requires
        c.len() == 32,
        name.len() <= 32,
    ensures
        is_pair_init(c + seq![name.len() as u8] + name),
        (c + seq![name.len() as u8] + name).take(COMMIT_LEN as int) == c,
        (c + seq![name.len() as u8] + name).skip(COMMIT_LEN + 1) == name,
{
    let m = c + seq![name.len() as u8] + name;
    assert(m[32] == name.len() as u8);
    assert(m.take(32) =~= c);
    assert(m.skip(33) =~= name);
}

/// Every PAIR_RESP / PAIR_OPEN made of a 32-byte key and a 16-byte nonce is
/// accepted, and splits back into that key and that nonce.
pub proof fn lemma_key_nonce_complete(key: Seq<u8>, nonce: Seq<u8>)
    requires
        key.len() == 32,
        nonce.len() == 16,
    ensures
        (key + nonce).len() == PAIR_RESP_LEN,
        (key + nonce).len() == PAIR_OPEN_LEN,
        (key + nonce).take(KEY_LEN as int) == key,
        (key + nonce).skip(KEY_LEN as int) == nonce,
{
    assert((key + nonce).take(32) =~= key);
    assert((key + nonce).skip(32) =~= nonce);
}

} // verus!
