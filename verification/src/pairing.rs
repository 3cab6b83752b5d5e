//! Pairing commitment and short authentication string.
//!
//! The commit-reveal ceremony makes the short authentication string depend on
//! a fresh device nonce revealed only after the daemon commits, so there is no
//! constant code an attacker can grind offline. These are the pure hashes; the
//! ceremony state machine and I/O live in the daemon / firmware.
use vstd::prelude::*;

use sha2::{Digest, Sha256};

use crate::consts::{KEY_LEN, L_COMMIT, L_SAS, PAIR_NONCE_LEN};

pub mod wire;

verus! {

/// Number of decimal digits shown to the user: a space of about 2^20 codes,
/// so about 2^-20 forgery probability per online pairing attempt.
pub const SAS_DIGITS: u32 = 6;

/// 10^SAS_DIGITS.
pub const SAS_MODULUS: u32 = 1_000_000;

/// The SHA-256 digest of a byte sequence.
pub uninterp spec fn sha256_digest(data: Seq<u8>) -> Seq<u8>;

/// Calls `sha2::Sha256::digest` (through the `Digest` trait of the `digest`
/// crate) on `data` and returns the 32-byte digest. Trusted: the result is the
/// SHA-256 digest of the bytes of `data`, named `sha256_digest`.
#[verifier::external_body]
fn sha256(data: &[u8]) -> (out: [u8; 32])
    ensures
        out@ == sha256_digest(data@),
{
    Sha256::digest(data).into()
}

/// Appends the bytes of `src` to `out`.
fn append_bytes(out: &mut Vec<u8>, src: &[u8])
    ensures
        final(out)@ == old(out)@ + src@,
{
    let mut i: usize = 0;
    let ghost orig = out@;
    while i < src.len()
        invariant
            i <= src@.len(),
            out@ == orig + src@.take(i as int),
        decreases src@.len() - i,
    {
        out.push(src[i]);
        i = i + 1;
        assert(orig + src@.take(i as int) =~= (orig + src@.take(i - 1)).push(src@[i - 1]));
    }
    assert(src@.take(src@.len() as int) =~= src@);
}

/// The bytes that the commitment hashes:
/// `L_COMMIT || H_pub || H_nonce || machine_name`.
pub open spec fn commit_input(h_pub: Seq<u8>, h_nonce: Seq<u8>, machine_name: Seq<u8>) -> Seq<u8> {
    L_COMMIT@ + h_pub + h_nonce + machine_name
}

/// The commitment to `H_pub`, `H_nonce` and the machine name.
pub open spec fn commit_value(h_pub: Seq<u8>, h_nonce: Seq<u8>, machine_name: Seq<u8>) -> Seq<u8> {
    sha256_digest(commit_input(h_pub, h_nonce, machine_name))
}

/// The bytes that the short authentication string hashes:
/// `L_SAS || D_pub || H_pub || D_nonce || H_nonce || machine_name`.
pub open spec fn sas_input(
    d_pub: Seq<u8>,
    h_pub: Seq<u8>,
    d_nonce: Seq<u8>,
    h_nonce: Seq<u8>,
    machine_name: Seq<u8>,
) -> Seq<u8> {
    L_SAS@ + d_pub + h_pub + d_nonce + h_nonce + machine_name
}

/// The big-endian value of a byte sequence.
pub open spec fn be_value(s: Seq<u8>) -> nat
    decreases s.len(),
{
    if s.len() == 0 {
        0
    } else {
        be_value(s.drop_last()) * 256 + (s.last() as nat)
    }
}

/// 256^n.
pub open spec fn pow256(n: nat) -> nat
    decreases n,
{
    if n == 0 {
        1
    } else {
        256 * pow256((n - 1) as nat)
    }
}

/// The short authentication string that a digest gives: its first 8 bytes
/// as a big-endian integer, reduced to `SAS_DIGITS` decimal digits.
pub open spec fn sas_of_digest(digest: Seq<u8>) -> nat {
    be_value(digest.take(8)) % (SAS_MODULUS as nat)
}

/// The commitment H sends in PAIR_INIT:
/// `SHA-256(L_COMMIT || H_pub || H_nonce || machine_name)`.
pub fn commit(h_pub: &[u8; KEY_LEN], h_nonce: &[u8; PAIR_NONCE_LEN], machine_name: &[u8]) -> (c: [u8; 32])
    ensures
        c@ == commit_value(h_pub@, h_nonce@, machine_name@),
{
    let input = commit_bytes(h_pub, h_nonce, machine_name);
    sha256(input.as_slice())
}

/// The bytes that `commit` hashes.
pub fn commit_bytes(h_pub: &[u8; KEY_LEN], h_nonce: &[u8; PAIR_NONCE_LEN], machine_name: &[u8]) -> (out: Vec<u8>)
    ensures
        out@ == commit_input(h_pub@, h_nonce@, machine_name@),
        out@.len() == 24 + KEY_LEN + PAIR_NONCE_LEN + machine_name@.len(),
        out@.take(24) == L_COMMIT@,
        out@.subrange(24, 56) == h_pub@,
        out@.subrange(56, 72) == h_nonce@,
        out@.skip(72) == machine_name@,
{
    let mut out: Vec<u8> = Vec::new();
    append_bytes(&mut out, L_COMMIT.as_slice());
    append_bytes(&mut out, h_pub.as_slice());
    append_bytes(&mut out, h_nonce.as_slice());
    append_bytes(&mut out, machine_name);
    proof {
        lemma_commit_input_layout(h_pub@, h_nonce@, machine_name@);
    }
    out
}

/// Compares two digests without an early exit: true exactly when they are equal.
pub fn digest_eq(got: &[u8; 32], expected: &[u8; 32]) -> (r: bool)
    ensures
        r == (got@ == expected@),
{
    let mut diff = 0u8;
    let mut i: usize = 0;
    while i < 32
        invariant
            i <= 32,
            (diff == 0) == (forall|j: int| 0 <= j < i ==> got@[j] == expected@[j]),
        decreases 32 - i,
    {
        let a = got[i];
        let b = expected[i];
        let d = diff;
        assert((d | (a ^ b)) == 0 <==> (d == 0 && a == b)) by (bit_vector);
        diff = diff | (got[i] ^ expected[i]);
        i = i + 1;
    }
    if diff == 0 {
        assert(got@ =~= expected@);
    }
    diff == 0
}

/// Whether `expected` is accepted as the commitment to `H_pub`, `H_nonce` and
/// the machine name.
pub open spec fn commit_accepts(expected: Seq<u8>, h_pub: Seq<u8>, h_nonce: Seq<u8>, machine_name: Seq<u8>) -> bool {
    expected == commit_value(h_pub, h_nonce, machine_name)
}

/// Verifies a received commitment: true exactly when `expected` is the
/// commitment to `H_pub`, `H_nonce` and the machine name.
pub fn commit_matches(
    expected: &[u8; 32],
    h_pub: &[u8; KEY_LEN],
    h_nonce: &[u8; PAIR_NONCE_LEN],
    machine_name: &[u8],
) -> (r: bool)
    ensures
        r == commit_accepts(expected@, h_pub@, h_nonce@, machine_name@),
        r == (expected@ == commit_value(h_pub@, h_nonce@, machine_name@)),
{
    let got = commit(h_pub, h_nonce, machine_name);
    digest_eq(&got, expected)
}

/// The bytes that `sas` hashes.
pub fn sas_bytes(
    d_pub: &[u8; KEY_LEN],
    h_pub: &[u8; KEY_LEN],
    d_nonce: &[u8; PAIR_NONCE_LEN],
    h_nonce: &[u8; PAIR_NONCE_LEN],
    machine_name: &[u8],
) -> (out: Vec<u8>)
    ensures
        out@ == sas_input(d_pub@, h_pub@, d_nonce@, h_nonce@, machine_name@),
        out@.len() == 21 + 2 * KEY_LEN + 2 * PAIR_NONCE_LEN + machine_name@.len(),
        out@.take(21) == L_SAS@,
        out@.subrange(21, 53) == d_pub@,
        out@.subrange(53, 85) == h_pub@,
        out@.subrange(85, 101) == d_nonce@,
        out@.subrange(101, 117) == h_nonce@,
        out@.skip(117) == machine_name@,
{
    let mut out: Vec<u8> = Vec::new();
    append_bytes(&mut out, L_SAS.as_slice());
    append_bytes(&mut out, d_pub.as_slice());
    append_bytes(&mut out, h_pub.as_slice());
    append_bytes(&mut out, d_nonce.as_slice());
    append_bytes(&mut out, h_nonce.as_slice());
    append_bytes(&mut out, machine_name);
    proof {
        lemma_sas_input_layout(d_pub@, h_pub@, d_nonce@, h_nonce@, machine_name@);
    }
    out
}

/// Reduces a digest to the short authentication string: its first 8 bytes as
/// a big-endian `u64`, modulo 10^`SAS_DIGITS`.
pub fn sas_from_digest(digest: &[u8; 32]) -> (v: u32)
    ensures
        v == sas_of_digest(digest@),
        v < SAS_MODULUS,
{
    let mut v: u64 = 0;
    let mut i: usize = 0;
    while i < 8
        invariant
            i <= 8,
            v == be_value(digest@.take(i as int)),
            v < pow256(i as nat),
        decreases 8 - i,
    {
        assert(digest@.take(i + 1).drop_last() =~= digest@.take(i as int));
        assert(pow256((i + 1) as nat) == 256 * pow256(i as nat));
        assert(pow256(8) == 0x1_0000_0000_0000_0000) by {
            reveal_with_fuel(pow256, 9);
        }
        if i < 7 {
            assert(pow256((i + 1) as nat) <= pow256(8)) by {
                lemma_pow256_monotone((i + 1) as nat, 8);
            }
        }
        v = v * 256 + digest[i] as u64;
        i = i + 1;
    }
    (v % (SAS_MODULUS as u64)) as u32
}

/// 256^n grows with n.
proof fn lemma_pow256_monotone(a: nat, b: nat)
    requires
        a <= b,
    ensures
        pow256(a) <= pow256(b),
    decreases b,
{
    if a < b {
        lemma_pow256_monotone(a, (b - 1) as nat);
    }
}

/// The short authentication string both sides display, as `SAS_DIGITS`
/// decimal digits (0..=999999). Derived from both statics and both nonces
/// plus the machine name, domain-separated.
pub fn sas(
    d_pub: &[u8; KEY_LEN],
    h_pub: &[u8; KEY_LEN],
    d_nonce: &[u8; PAIR_NONCE_LEN],
    h_nonce: &[u8; PAIR_NONCE_LEN],
    machine_name: &[u8],
) -> (v: u32)
    ensures
        v == sas_of_digest(sha256_digest(sas_input(d_pub@, h_pub@, d_nonce@, h_nonce@, machine_name@))),
        sha256_digest(sas_input(d_pub@, h_pub@, d_nonce@, h_nonce@, machine_name@)).len() == 32,
        v < SAS_MODULUS,
{
    let input = sas_bytes(d_pub, h_pub, d_nonce, h_nonce, machine_name);
    let digest = sha256(input.as_slice());
    sas_from_digest(&digest)
}

/// The decimal digit character of `d` (0..=9).
pub open spec fn digit_char(d: nat) -> char {
    (48 + d) as char
}

/// The decimal representation of `v`, padded on the left with `'0'` to at
/// least `width` characters.
pub open spec fn decimal_padded(v: nat, width: nat) -> Seq<char>
    decreases v, width,
{
    if v < 10 && width <= 1 {
        seq![digit_char(v)]
    } else {
        decimal_padded(
            v / 10,
            if width > 0 {
                (width - 1) as nat
            } else {
                0
            },
        ).push(digit_char(v % 10))
    }
}

/// 10^n.
pub open spec fn pow10(n: nat) -> nat
    decreases n,
{
    if n == 0 {
        1
    } else {
        10 * pow10((n - 1) as nat)
    }
}

/// Calls `String::push` of std. Trusted: it appends `c` to `s`.
#[verifier::external_body]
fn push_char(s: &mut String, c: char)
    ensures
        final(s)@ == old(s)@.push(c),
{
    s.push(c);
}

/// The character of a decimal digit.
fn digit(d: u32) -> (c: char)
    requires
        d < 10,
    ensures
        c == digit_char(d as nat),
{
    let b: u8 = (48 + d) as u8;
    b as char
}

/// Appends `v` in decimal, zero-padded to at least `width` digits, to `s`.
fn push_padded(s: &mut String, v: u32, width: u32)
    ensures
        final(s)@ == old(s)@ + decimal_padded(v as nat, width as nat),
    decreases v, width,
{
    if v < 10 && width <= 1 {
        push_char(s, digit(v));
    } else {
        let w = if width > 0 {
            width - 1
        } else {
            0
        };
        push_padded(s, v / 10, w);
        push_char(s, digit(v % 10));
    }
    assert(old(s)@ + decimal_padded(v as nat, width as nat) =~= final(s)@);
}

/// Renders the SAS as a zero-padded string of `SAS_DIGITS` digits, e.g.
/// `042315`. A value with more digits is rendered in full.
pub fn sas_string(value: u32) -> (s: String)
    ensures
        s@ == decimal_padded(value as nat, SAS_DIGITS as nat),
{
    let mut s = String::new();
    push_padded(&mut s, value, SAS_DIGITS);
    s
}

/// A value below 10^width takes exactly `width` characters once padded.
pub proof fn lemma_decimal_padded_len(v: nat, width: nat)
    requires
        width >= 1,
        v < pow10(width),
    ensures
        decimal_padded(v, width).len() == width,
    decreases width,
{
    if v < 10 && width <= 1 {
    } else {
        assert(width >= 2) by {
            if width == 1 {
                assert(pow10(1) == 10) by {
                    reveal_with_fuel(pow10, 2);
                }
            }
        }
        let w = (width - 1) as nat;
        assert(v / 10 < pow10(w)) by (nonlinear_arith)
            requires
                v < pow10(width),
                pow10(width) == 10 * pow10(w),
        ;
        lemma_decimal_padded_len(v / 10, w);
    }
}

/// Every short authentication string is displayed as exactly `SAS_DIGITS`
/// decimal digits.
pub proof fn lemma_sas_display_width(v: nat)
    requires
        v < SAS_MODULUS,
    ensures
        decimal_padded(v, SAS_DIGITS as nat).len() == SAS_DIGITS,
        forall|i: int|
            0 <= i < SAS_DIGITS ==> '0' <= #[trigger] decimal_padded(v, SAS_DIGITS as nat)[i] <= '9',
{
    assert(pow10(6) == 1_000_000) by {
        reveal_with_fuel(pow10, 7);
    }
    lemma_decimal_padded_len(v, 6);
    lemma_decimal_padded_digits(v, 6);
}

/// Every character of a padded decimal is a digit.
pub proof fn lemma_decimal_padded_digits(v: nat, width: nat)
    ensures
        forall|i: int|
            0 <= i < decimal_padded(v, width).len() ==> '0' <= #[trigger] decimal_padded(v, width)[i] <= '9',
    decreases v, width,
{
    assert('0' <= digit_char(v % 10) <= '9');
    if v < 10 && width <= 1 {
        assert(v % 10 == v);
    } else {
        let w = if width > 0 {
            (width - 1) as nat
        } else {
            0
        };
        lemma_decimal_padded_digits(v / 10, w);
        let prev = decimal_padded(v / 10, w);
        assert(decimal_padded(v, width) == prev.push(digit_char(v % 10)));
        assert forall|i: int| 0 <= i < decimal_padded(v, width).len() implies '0' <= #[trigger] decimal_padded(v, width)[i] <= '9' by {
            if i < prev.len() {
                assert(decimal_padded(v, width)[i] == prev[i]);
            }
        }
    }
}

/// A commitment always verifies against the values it was computed from:
/// `commit_matches(commit(x), x)` is true.
pub proof fn lemma_commit_roundtrip(h_pub: Seq<u8>, h_nonce: Seq<u8>, machine_name: Seq<u8>)
    ensures
        commit_accepts(commit_value(h_pub, h_nonce, machine_name), h_pub, h_nonce, machine_name),
{
}

/// The commitment hashes the label, then `H_pub`, then `H_nonce`, then the
/// machine name, each byte for byte in order and nothing else.
pub proof fn lemma_commit_input_layout(h_pub: Seq<u8>, h_nonce: Seq<u8>, machine_name: Seq<u8>)
    requires
        h_pub.len() == 32,
        h_nonce.len() == 16,
    ensures
        commit_input(h_pub, h_nonce, machine_name).len() == 72 + machine_name.len(),
        commit_input(h_pub, h_nonce, machine_name).take(24) == L_COMMIT@,
        commit_input(h_pub, h_nonce, machine_name).subrange(24, 56) == h_pub,
        commit_input(h_pub, h_nonce, machine_name).subrange(56, 72) == h_nonce,
        commit_input(h_pub, h_nonce, machine_name).skip(72) == machine_name,
{
    let m = commit_input(h_pub, h_nonce, machine_name);
    assert(L_COMMIT@.len() == 24);
    assert(m.take(24) =~= L_COMMIT@);
    assert(m.subrange(24, 56) =~= h_pub);
    assert(m.subrange(56, 72) =~= h_nonce);
    assert(m.skip(72) =~= machine_name);
}

/// The short authentication string hashes the label, then `D_pub`, `H_pub`,
/// `D_nonce`, `H_nonce` and the machine name, each byte for byte in this order
/// and nothing else.
pub proof fn lemma_sas_input_layout(
    d_pub: Seq<u8>,
    h_pub: Seq<u8>,
    d_nonce: Seq<u8>,
    h_nonce: Seq<u8>,
    machine_name: Seq<u8>,
)
    requires
        d_pub.len() == 32,
        h_pub.len() == 32,
        d_nonce.len() == 16,
        h_nonce.len() == 16,
    ensures
        sas_input(d_pub, h_pub, d_nonce, h_nonce, machine_name).len() == 117 + machine_name.len(),
        sas_input(d_pub, h_pub, d_nonce, h_nonce, machine_name).take(21) == L_SAS@,
        sas_input(d_pub, h_pub, d_nonce, h_nonce, machine_name).subrange(21, 53) == d_pub,
        sas_input(d_pub, h_pub, d_nonce, h_nonce, machine_name).subrange(53, 85) == h_pub,
        sas_input(d_pub, h_pub, d_nonce, h_nonce, machine_name).subrange(85, 101) == d_nonce,
        sas_input(d_pub, h_pub, d_nonce, h_nonce, machine_name).subrange(101, 117) == h_nonce,
        sas_input(d_pub, h_pub, d_nonce, h_nonce, machine_name).skip(117) == machine_name,
{
    let m = sas_input(d_pub, h_pub, d_nonce, h_nonce, machine_name);
    assert(L_SAS@.len() == 21);
    assert(m.take(21) =~= L_SAS@);
    assert(m.subrange(21, 53) =~= d_pub);
    assert(m.subrange(53, 85) =~= h_pub);
    assert(m.subrange(85, 101) =~= d_nonce);
    assert(m.subrange(101, 117) =~= h_nonce);
    assert(m.skip(117) =~= machine_name);
}

/// A received commitment is accepted exactly when all its bytes equal the
/// commitment, so at most one value is accepted for given inputs.
pub proof fn lemma_commit_accepts_exact(
    e1: Seq<u8>,
    e2: Seq<u8>,
    h_pub: Seq<u8>,
    h_nonce: Seq<u8>,
    machine_name: Seq<u8>,
)
    ensures
        commit_accepts(e1, h_pub, h_nonce, machine_name) <==> e1 == commit_value(h_pub, h_nonce, machine_name),
        commit_accepts(e1, h_pub, h_nonce, machine_name) && commit_accepts(e2, h_pub, h_nonce, machine_name) ==> e1 == e2,
{
}

/// The big-endian value of a non-empty byte sequence is its first byte times
/// 256^(n-1) plus the value of the rest.
pub proof fn lemma_be_value_first(s: Seq<u8>)
    requires
        s.len() > 0,
    ensures
        be_value(s) == (s[0] as nat) * pow256((s.len() - 1) as nat) + be_value(s.drop_first()),
    decreases s.len(),
{
    if s.len() == 1 {
        assert(be_value(s.drop_last()) == 0);
        assert(be_value(s.drop_first()) == 0);
        assert(s.last() == s[0]);
        assert(pow256(0) == 1);
        assert(be_value(s) == be_value(s.drop_last()) * 256 + (s.last() as nat));
    } else {
        let dl = s.drop_last();
        let df = s.drop_first();
        lemma_be_value_first(dl);
        assert(dl.drop_first() =~= df.drop_last());
        assert(dl[0] == s[0]);
        assert(df.last() == s.last());
        let n = (s.len() - 1) as nat;
        let a = s[0] as nat;
        let p = pow256((n - 1) as nat);
        assert(be_value(s) == be_value(dl) * 256 + (s.last() as nat));
        assert(be_value(df) == be_value(df.drop_last()) * 256 + (df.last() as nat));
        assert(be_value(dl) == a * p + be_value(df.drop_last()));
        assert(pow256(n) == 256 * p);
        assert(a * pow256(n) == (a * p) * 256) by (nonlinear_arith)
            requires
                pow256(n) == 256 * p,
        ;
    }
}

/// The short authentication string of a digest is its first eight bytes read
/// most significant first, modulo 10^6.
pub proof fn lemma_sas_of_digest_bytes(d: Seq<u8>)
    requires
        d.len() >= 8,
    ensures
        sas_of_digest(d) == ((d[0] as nat) * 0x100_0000_0000_0000 + (d[1] as nat) * 0x1_0000_0000_0000
            + (d[2] as nat) * 0x100_0000_0000 + (d[3] as nat) * 0x1_0000_0000 + (d[4] as nat)
            * 0x100_0000 + (d[5] as nat) * 0x1_0000 + (d[6] as nat) * 0x100 + (d[7] as nat))
            % 1_000_000,
{
    let t = d.take(8);
    reveal_with_fuel(be_value, 9);
    assert(t.drop_last() =~= d.take(7));
    assert(d.take(7).drop_last() =~= d.take(6));
    assert(d.take(6).drop_last() =~= d.take(5));
    assert(d.take(5).drop_last() =~= d.take(4));
    assert(d.take(4).drop_last() =~= d.take(3));
    assert(d.take(3).drop_last() =~= d.take(2));
    assert(d.take(2).drop_last() =~= d.take(1));
    assert(d.take(1).drop_last() =~= d.take(0));
}

/// The number that a string of decimal digits spells.
pub open spec fn digits_value(s: Seq<char>) -> nat
    decreases s.len(),
{
    if s.len() == 0 {
        0
    } else {
        digits_value(s.drop_last()) * 10 + ((s.last() as nat) - 48) as nat
    }
}

/// The padded decimal of `v` spells `v`: reading its digits back gives the
/// value that was rendered.
pub proof fn lemma_decimal_padded_value(v: nat, width: nat)
    ensures
        digits_value(decimal_padded(v, width)) == v,
    decreases v, width,
{
    let w = if width > 0 {
        (width - 1) as nat
    } else {
        0
    };
    if v < 10 && width <= 1 {
        let s = decimal_padded(v, width);
        assert(s.drop_last().len() == 0);
        assert(s.last() == digit_char(v));
        assert((digit_char(v) as nat) == 48 + v);
        assert(digits_value(s.drop_last()) == 0);
        assert(digits_value(s) == digits_value(s.drop_last()) * 10 + ((s.last() as nat) - 48) as nat);
    } else {
        lemma_decimal_padded_value(v / 10, w);
        let s = decimal_padded(v, width);
        let prev = decimal_padded(v / 10, w);
        assert(s.drop_last() =~= prev);
        assert(s.last() == digit_char(v % 10));
        assert((digit_char(v % 10) as nat) == 48 + v % 10);
        assert(digits_value(s) == digits_value(prev) * 10 + ((s.last() as nat) - 48) as nat);
        assert(v == (v / 10) * 10 + v % 10);
    }
}

} // verus!
