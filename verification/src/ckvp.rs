//! Framing of messages over 64-byte HID reports.
//!
//! START frame: byte0 = 0x80 | msg_type; byte1..2 = chan (BE u16);
//!              byte3..4 = total len (BE u16); byte5..63 = 59 payload bytes.
//! CONT  frame: byte0 = seq (0x00..0x7F); byte1..2 = chan (BE u16);
//!              byte3..63 = 61 payload bytes.
//!
//! One [`Reassembler`] tracks a single channel's in-flight message; the caller
//! allocates one slot per active `chan`.
use vstd::prelude::*;

use crate::consts::{MsgType, CKVP_MAX_MSG, REPORT_SIZE};

verus! {

/// Payload bytes carried by a START frame.
pub const START_PAYLOAD: usize = REPORT_SIZE - 5;

/// Payload bytes carried by a CONT frame.
pub const CONT_PAYLOAD: usize = REPORT_SIZE - 3;

/// Errors from framing an outgoing message or decoding an incoming report.
#[derive(Debug, Clone, Copy, PartialEq, Eq, Structural)]
pub enum FrameError {
    /// Declared length exceeds `CKVP_MAX_MSG`.
    TooLong,
    /// Unknown/forbidden msg_type on a START frame.
    BadType,
    /// A CONT frame arrived on a different channel than the active one.
    WrongChannel,
    /// Out-of-order sequence number.
    BadSeq,
    /// A CONT frame arrived with no START in progress.
    Unexpected,
    /// More payload arrived than the START declared.
    Overflow,
}

// ---------------------------------------------------------------------------
// The wire format, as sequences of bytes.
// ---------------------------------------------------------------------------

/// The smaller of what is available and what fits.
pub open spec fn chunk_len(avail: int, cap: int) -> int {
    if avail < cap {
        avail
    } else {
        cap
    }
}

/// `n` zero bytes.
pub open spec fn zeros(n: nat) -> Seq<u8> {
    Seq::new(n, |i: int| 0u8)
}

/// The big-endian value of two bytes.
pub open spec fn be16(hi: u8, lo: u8) -> nat {
    (hi as nat) * 256 + (lo as nat)
}

/// The START frame of a message of type code `ty` and payload `p` on `chan`.
pub open spec fn start_frame(ty: u8, chan: u16, p: Seq<u8>) -> Seq<u8> {
    let n = chunk_len(p.len() as int, START_PAYLOAD as int);
    seq![
        (0x80 + ty) as u8,
        (chan / 256) as u8,
        (chan % 256) as u8,
        (p.len() / 256) as u8,
        (p.len() % 256) as u8,
    ] + p.take(n) + zeros((START_PAYLOAD - n) as nat)
}

/// Where the payload of the `k`-th CONT frame (counting from 0) begins.
pub open spec fn cont_offset(k: nat) -> int {
    START_PAYLOAD + CONT_PAYLOAD * k
}

/// The `k`-th CONT frame (counting from 0) of payload `p` on `chan`.
pub open spec fn cont_frame(k: nat, chan: u16, p: Seq<u8>) -> Seq<u8> {
    let off = cont_offset(k);
    let n = chunk_len(p.len() - off, CONT_PAYLOAD as int);
    seq![(k % 128) as u8, (chan / 256) as u8, (chan % 256) as u8] + p.subrange(off, off + n)
        + zeros((CONT_PAYLOAD - n) as nat)
}

/// Consecutive CONT frames start `CONT_PAYLOAD` bytes apart.
proof fn lemma_cont_offset_next(k: nat)
    ensures
        cont_offset(k + 1) == cont_offset(k) + CONT_PAYLOAD,
{
}

/// How many CONT frames a payload of `len` bytes needs after its START frame.
pub open spec fn cont_count(len: nat) -> nat {
    if len <= START_PAYLOAD {
        0
    } else {
        ((len - START_PAYLOAD + CONT_PAYLOAD - 1) / (CONT_PAYLOAD as int)) as nat
    }
}

/// A CONT frame with index `k` is needed exactly when its payload offset lies
/// inside the payload.
pub proof fn lemma_cont_count(len: nat, k: nat)
    ensures
        k < cont_count(len) <==> cont_offset(k) < len,
{
    if len > START_PAYLOAD {
        let m = (len - START_PAYLOAD) as int;
        let c = (m + 60) / 61;
        assert(c * 61 <= m + 60 && m + 60 < c * 61 + 61) by (nonlinear_arith)
            requires
                c == (m + 60) / 61,
                m > 0,
        ;
        assert(k < c <==> 61 * k < m) by (nonlinear_arith)
            requires
                c * 61 <= m + 60,
                m + 60 < c * 61 + 61,
                k >= 0,
        ;
    }
}

/// The reports that carry a message: one START frame, then the CONT frames.
pub open spec fn frames(t: MsgType, chan: u16, p: Seq<u8>) -> Seq<Seq<u8>> {
    seq![start_frame(t.code(), chan, p)] + Seq::new(
        cont_count(p.len()),
        |k: int| cont_frame(k as nat, chan, p),
    )
}

/// The byte sequences of a list of reports.
pub open spec fn reports_view(v: Seq<[u8; REPORT_SIZE]>) -> Seq<Seq<u8>> {
    v.map_values(|r: [u8; REPORT_SIZE]| r@)
}

// ---------------------------------------------------------------------------
// The reassembly state machine.
// ---------------------------------------------------------------------------

/// The abstract state of a reassembler.
pub struct ReassemblyState {
    /// A message is in flight.
    pub active: bool,
    /// Channel of the last START frame.
    pub chan: u16,
    /// Type code of the last START frame.
    pub msg_type: u8,
    /// Total length declared by the last START frame.
    pub expected: nat,
    /// Payload received so far of the last message.
    pub received: Seq<u8>,
    /// Sequence number the next CONT frame must carry.
    pub next_seq: nat,
}

/// What one report yields: an error, nothing yet, or a complete message.
pub type Delivery = Result<Option<(MsgType, Seq<u8>)>, FrameError>;

/// The invariant of a reassembler's state.
pub open spec fn state_wf(s: ReassemblyState) -> bool {
    &&& s.received.len() <= s.expected <= CKVP_MAX_MSG
    &&& s.next_seq < 128
    &&& s.active ==> MsgType::of_code(s.msg_type) is Some
}

/// The state of a fresh reassembler.
pub open spec fn initial_state() -> ReassemblyState {
    ReassemblyState {
        active: false,
        chan: 0,
        msg_type: 0,
        expected: 0,
        received: Seq::empty(),
        next_seq: 0,
    }
}

/// The state after an in-flight message is discarded.
pub open spec fn reset_state(s: ReassemblyState) -> ReassemblyState {
    ReassemblyState {
        active: false,
        chan: s.chan,
        msg_type: s.msg_type,
        expected: s.expected,
        received: Seq::empty(),
        next_seq: 0,
    }
}

/// What feeding report `r` to a reassembler in state `s` does: the next state
/// and what the report yields.
pub open spec fn step(s: ReassemblyState, r: Seq<u8>) -> (ReassemblyState, Delivery) {
    let chan = be16(r[1], r[2]) as u16;
    if r[0] >= 0x80 {
        let ty = (r[0] - 0x80) as u8;
        match MsgType::of_code(ty) {
            None => (s, Err(FrameError::BadType)),
            Some(t) => {
                let len = be16(r[3], r[4]);
                if len > CKVP_MAX_MSG {
                    (s, Err(FrameError::TooLong))
                } else {
                    let n = chunk_len(len as int, START_PAYLOAD as int);
                    let got = r.subrange(5, 5 + n);
                    let done = n >= len;
                    (
                        ReassemblyState {
                            active: !done,
                            chan,
                            msg_type: ty,
                            expected: len,
                            received: got,
                            next_seq: 0,
                        },
                        if done {
                            Ok(Some((t, got)))
                        } else {
                            Ok(None)
                        },
                    )
                }
            },
        }
    } else if !s.active {
        (s, Err(FrameError::Unexpected))
    } else if chan != s.chan {
        (s, Err(FrameError::WrongChannel))
    } else if r[0] != s.next_seq {
        (reset_state(s), Err(FrameError::BadSeq))
    } else {
        let n = chunk_len(s.expected - s.received.len(), CONT_PAYLOAD as int);
        let received = s.received + r.subrange(3, 3 + n);
        let done = received.len() >= s.expected;
        (
            ReassemblyState {
                active: !done,
                chan: s.chan,
                msg_type: s.msg_type,
                expected: s.expected,
                received,
                next_seq: (s.next_seq + 1) % 128,
            },
            if done {
                Ok(Some((MsgType::of_code(s.msg_type).unwrap(), received)))
            } else {
                Ok(None)
            },
        )
    }
}

/// Feeding a list of reports, one after another: the final state and what
/// each report yielded.
pub open spec fn feed(s: ReassemblyState, reports: Seq<Seq<u8>>) -> (ReassemblyState, Seq<Delivery>)
    decreases reports.len(),
{
    if reports.len() == 0 {
        (s, Seq::empty())
    } else {
        let (mid, outs) = feed(s, reports.drop_last());
        let (end, out) = step(mid, reports.last());
        (end, outs.push(out))
    }
}

/// The abstract view of what one call of `push` returned.
pub open spec fn delivery_of(r: Result<Option<(MsgType, &[u8])>, FrameError>) -> Delivery {
    match r {
        Ok(Some((t, b))) => Ok(Some((t, b@))),
        Ok(None) => Ok(None),
        Err(e) => Err(e),
    }
}

// ---------------------------------------------------------------------------
// Laws of the framing.
// ---------------------------------------------------------------------------

/// Every report keeps the reassembler's state well-formed.
pub proof fn lemma_step_keeps_wf(s: ReassemblyState, r: Seq<u8>)
    requires
        state_wf(s),
        r.len() == REPORT_SIZE,
    ensures
        state_wf(step(s, r).0),
{
    let b3 = r[3];
    let b4 = r[4];
    assert(be16(b3, b4) <= 0xffff);
}

/// A valid START frame clobbers whatever was in flight: what it does does not
/// depend on the reassembler's state.
pub proof fn lemma_start_clobbers(s1: ReassemblyState, s2: ReassemblyState, r: Seq<u8>)
    requires
        r.len() == REPORT_SIZE,
        r[0] >= 0x80,
        MsgType::of_code((r[0] - 0x80) as u8) is Some,
        be16(r[3], r[4]) <= CKVP_MAX_MSG,
    ensures
        step(s1, r) == step(s2, r),
{
}

/// A rejected CONT frame leaves the state as it was, except that an
/// out-of-order one discards the message in flight.
pub proof fn lemma_cont_rejections(s: ReassemblyState, r: Seq<u8>)
    requires
        r.len() == REPORT_SIZE,
        r[0] < 0x80,
    ensures
        step(s, r).1 == Err::<Option<(MsgType, Seq<u8>)>, FrameError>(FrameError::Unexpected)
            ==> step(s, r).0 == s,
        step(s, r).1 == Err::<Option<(MsgType, Seq<u8>)>, FrameError>(FrameError::WrongChannel)
            ==> step(s, r).0 == s,
        step(s, r).1 == Err::<Option<(MsgType, Seq<u8>)>, FrameError>(FrameError::BadSeq) ==> !step(
            s,
            r,
        ).0.active && step(s, r).0.received.len() == 0,
        step(s, r).1 is Err ==> step(s, r).1 != Err::<Option<(MsgType, Seq<u8>)>, FrameError>(
            FrameError::Overflow,
        ),
{
}

/// A delivered message is exactly as long as its START frame declared, never
/// longer than `CKVP_MAX_MSG`, and completing it leaves nothing in flight.
pub proof fn lemma_delivery_bounds(s: ReassemblyState, r: Seq<u8>)
    requires
        state_wf(s),
        r.len() == REPORT_SIZE,
    ensures
        step(s, r).1 matches Ok(Some((_, b))) ==> {
            &&& b.len() == step(s, r).0.expected
            &&& b.len() <= CKVP_MAX_MSG
            &&& !step(s, r).0.active
        },
{
    let b3 = r[3];
    let b4 = r[4];
    assert(be16(b3, b4) <= 0xffff);
}

// ---------------------------------------------------------------------------
// Laws over histories of calls.
// ---------------------------------------------------------------------------

/// The invariant of every state a fresh reassembler can reach: while a message
/// is in flight, `next_seq` counts the CONT frames accepted since its START,
/// and exactly the START payload plus that many full CONT payloads have
/// arrived, fewer bytes than the START declared.
pub open spec fn reachable_inv(s: ReassemblyState) -> bool {
    &&& state_wf(s)
    &&& s.active ==> s.received.len() == cont_offset(s.next_seq) && s.received.len() < s.expected
}

/// A fresh reassembler satisfies the reachable-state invariant.
pub proof fn lemma_initial_reachable()
    ensures
        reachable_inv(initial_state()),
{
}

/// Discarding the message in flight keeps the reachable-state invariant.
pub proof fn lemma_reset_reachable(s: ReassemblyState)
    requires
        reachable_inv(s),
    ensures
        reachable_inv(reset_state(s)),
{
}

/// Every report keeps the reachable-state invariant.
pub proof fn lemma_step_reachable(s: ReassemblyState, r: Seq<u8>)
    requires
        reachable_inv(s),
        r.len() == REPORT_SIZE,
    ensures
        reachable_inv(step(s, r).0),
{
    lemma_step_keeps_wf(s, r);
    if r[0] < 0x80 && s.active {
        let k = s.next_seq;
        lemma_cont_offset_next(k);
        if cont_offset(k + 1) < s.expected {
            assert(k + 1 < 128);
        }
    }
}

/// What a CONT frame does, in the order in which the checks are made, to a
/// reassembler in a reachable state, with `k = next_seq` CONT frames accepted
/// since the START of the message in flight: nothing in flight gives
/// `Unexpected` and another channel `WrongChannel`, both leaving the state as
/// it was; a sequence number other than `k` gives `BadSeq` and discards the
/// message; otherwise the frame is accepted and the message completes, with
/// the START's type and exactly the declared length, iff
/// `59 + 61 * (k + 1) >= len`; if not, nothing is delivered and the count
/// goes up by one.
pub proof fn lemma_cont_outcome(s: ReassemblyState, r: Seq<u8>)
    requires
        reachable_inv(s),
        r.len() == REPORT_SIZE,
        r[0] < 0x80,
    ensures
        ({
            let (next, out) = step(s, r);
            let k = s.next_seq;
            &&& !s.active ==> out == Err::<Option<(MsgType, Seq<u8>)>, FrameError>(
                FrameError::Unexpected,
            ) && next == s
            &&& s.active && be16(r[1], r[2]) != s.chan ==> out == Err::<
                Option<(MsgType, Seq<u8>)>,
                FrameError,
            >(FrameError::WrongChannel) && next == s
            &&& s.active && be16(r[1], r[2]) == s.chan && r[0] != k ==> out == Err::<
                Option<(MsgType, Seq<u8>)>,
                FrameError,
            >(FrameError::BadSeq) && !next.active
            &&& s.active && be16(r[1], r[2]) == s.chan && r[0] == k && cont_offset(k + 1)
                >= s.expected ==> {
                &&& out matches Ok(Some((t, b)))
                &&& Some(t) == MsgType::of_code(s.msg_type)
                &&& b.len() == s.expected
                &&& !next.active
            }
            &&& s.active && be16(r[1], r[2]) == s.chan && r[0] == k && cont_offset(k + 1)
                < s.expected ==> {
                &&& out == Ok::<Option<(MsgType, Seq<u8>)>, FrameError>(None)
                &&& next.active
                &&& next.next_seq == k + 1
                &&& next.received.len() == cont_offset(k + 1)
            }
        }),
{
    let b1 = r[1];
    let b2 = r[2];
    assert(be16(b1, b2) <= 0xffff);
    if s.active {
        lemma_cont_offset_next(s.next_seq);
        if cont_offset(s.next_seq + 1) < s.expected {
            assert(s.next_seq + 1 < 128);
        }
    }
}

/// A call on a reassembler: feeding it a report, or discarding what is in
/// flight.
pub enum Call {
    Push(Seq<u8>),
    Reset,
}

/// What one call does: the next state, and for a push what it yields.
pub open spec fn apply(s: ReassemblyState, c: Call) -> (ReassemblyState, Option<Delivery>) {
    match c {
        Call::Push(r) => {
            let (next, out) = step(s, r);
            (next, Some(out))
        },
        Call::Reset => (reset_state(s), None),
    }
}

/// Making a list of calls, one after another: the final state and what each
/// call yielded.
pub open spec fn run(s: ReassemblyState, calls: Seq<Call>) -> (ReassemblyState, Seq<Option<Delivery>>)
    decreases calls.len(),
{
    if calls.len() == 0 {
        (s, Seq::empty())
    } else {
        let (mid, outs) = run(s, calls.drop_last());
        let (end, out) = apply(mid, calls.last());
        (end, outs.push(out))
    }
}

/// Whether a call that yielded `out` was a START frame on channel `chan` that
/// was accepted and left a message in flight.
pub open spec fn starts_flight(c: Call, out: Option<Delivery>, chan: u16) -> bool {
    &&& c matches Call::Push(r)
    &&& r[0] >= 0x80
    &&& be16(r[1], r[2]) as u16 == chan
    &&& out == Some(Ok::<Option<(MsgType, Seq<u8>)>, FrameError>(None))
}

/// Whether a call that yielded `out` ended or replaced the message in flight:
/// a reset, an out-of-order CONT frame, a completed message, or any accepted
/// START frame.
pub open spec fn ends_flight(c: Call, out: Option<Delivery>) -> bool {
    ||| c is Reset
    ||| out == Some(Err::<Option<(MsgType, Seq<u8>)>, FrameError>(FrameError::BadSeq))
    ||| out matches Some(Ok(Some(_)))
    ||| (c matches Call::Push(r) && r[0] >= 0x80 && out matches Some(Ok(_)))
}

/// Whether, in a history with the given yields, the last accepted START left
/// a message in flight on `chan` that nothing has ended since.
pub open spec fn in_flight_on(calls: Seq<Call>, outs: Seq<Option<Delivery>>, chan: u16) -> bool {
    exists|i: int|
        0 <= i < calls.len() && #[trigger] starts_flight(calls[i], outs[i], chan) && forall|j: int|
            i < j < calls.len() ==> !ends_flight(#[trigger] calls[j], outs[j])
}

/// What `active_channel` reports after any history of calls on a fresh
/// reassembler: `Some(c)` exactly when the last START frame that was accepted
/// was on channel `c`, did not complete its message at once, and no reset, no
/// out-of-order CONT frame, no completion and no later accepted START has
/// followed it; otherwise nothing is in flight.
pub proof fn lemma_active_channel_history(calls: Seq<Call>, chan: u16)
    requires
        forall|i: int| 0 <= i < calls.len() ==> (#[trigger] calls[i] matches Call::Push(r) ==> r.len() == REPORT_SIZE),
    ensures
        ({
            let (s, outs) = run(initial_state(), calls);
            &&& outs.len() == calls.len()
            &&& reachable_inv(s)
            &&& (s.active && s.chan == chan) <==> in_flight_on(calls, outs, chan)
        }),
    decreases calls.len(),
{
    let (s, outs) = run(initial_state(), calls);
    if calls.len() == 0 {
        lemma_initial_reachable();
    } else {
        let prev = calls.drop_last();
        assert forall|i: int| 0 <= i < prev.len() implies (#[trigger] prev[i] matches Call::Push(r) ==> r.len() == REPORT_SIZE) by {
            assert(prev[i] == calls[i]);
        }
        lemma_active_channel_history(prev, chan);
        let (mid, pouts) = run(initial_state(), prev);
        let c = calls.last();
        let (end, out) = apply(mid, c);
        assert(s == end && outs == pouts.push(out));
        let n = calls.len() - 1;
        assert(calls[n] == c);
        match c {
            Call::Push(r) => {
                lemma_step_reachable(mid, r);
                let b1 = r[1];
                let b2 = r[2];
                assert(be16(b1, b2) <= 0xffff);
            },
            Call::Reset => {
                lemma_reset_reachable(mid);
            },
        }
        if ends_flight(c, out) {
            // A START that was accepted ends any earlier flight and either
            // starts its own or completes at once; anything else that ends a
            // flight leaves nothing in flight.
            if in_flight_on(calls, outs, chan) {
                let i = choose|i: int|
                    0 <= i < calls.len() && #[trigger] starts_flight(calls[i], outs[i], chan)
                        && forall|j: int| i < j < calls.len() ==> !ends_flight(#[trigger] calls[j], outs[j]);
                if i < n {
                    assert(!ends_flight(calls[n], outs[n]));
                }
                assert(starts_flight(c, out, chan));
                assert(s.active && s.chan == chan);
            }
            if s.active && s.chan == chan {
                assert(starts_flight(calls[n], outs[n], chan));
                assert(in_flight_on(calls, outs, chan));
            }
        } else {
            // Nothing ended or replaced the flight, so the channel in flight
            // is what it was.
            assert(s.active == mid.active && s.chan == mid.chan);
            if in_flight_on(calls, outs, chan) {
                let i = choose|i: int|
                    0 <= i < calls.len() && #[trigger] starts_flight(calls[i], outs[i], chan)
                        && forall|j: int| i < j < calls.len() ==> !ends_flight(#[trigger] calls[j], outs[j]);
                assert(!starts_flight(c, out, chan));
                assert(i < n);
                assert(prev[i] == calls[i] && pouts[i] == outs[i]);
                assert forall|j: int| i < j < prev.len() implies !ends_flight(#[trigger] prev[j], pouts[j]) by {
                    assert(prev[j] == calls[j] && pouts[j] == outs[j]);
                }
                assert(in_flight_on(prev, pouts, chan));
            }
            if in_flight_on(prev, pouts, chan) {
                let i = choose|i: int|
                    0 <= i < prev.len() && #[trigger] starts_flight(prev[i], pouts[i], chan)
                        && forall|j: int| i < j < prev.len() ==> !ends_flight(#[trigger] prev[j], pouts[j]);
                assert(calls[i] == prev[i] && outs[i] == pouts[i]);
                assert(starts_flight(calls[i], outs[i], chan));
                assert forall|j: int| i < j < calls.len() implies !ends_flight(#[trigger] calls[j], outs[j]) by {
                    if j < n {
                        assert(prev[j] == calls[j] && pouts[j] == outs[j]);
                    }
                }
            }
        }
    }
}

/// The bytes of the START frame of a message decode back to its header.
pub proof fn lemma_start_frame_fields(t: MsgType, chan: u16, p: Seq<u8>)
    requires
        p.len() <= CKVP_MAX_MSG,
    ensures
        ({
            let r = start_frame(t.code(), chan, p);
            let n = chunk_len(p.len() as int, START_PAYLOAD as int);
            &&& r.len() == REPORT_SIZE
            &&& r[0] >= 0x80
            &&& (r[0] - 0x80) as u8 == t.code()
            &&& be16(r[1], r[2]) as u16 == chan
            &&& be16(r[3], r[4]) == p.len()
            &&& r.subrange(5, 5 + n) == p.take(n)
        }),
{
    crate::consts::lemma_msg_type_code_roundtrip(t, 0);
    let r = start_frame(t.code(), chan, p);
    let n = chunk_len(p.len() as int, START_PAYLOAD as int);
    assert(r[0] == (0x80 + t.code()) as u8);
    assert(r[1] == (chan / 256) as u8);
    assert(r[2] == (chan % 256) as u8);
    assert(r[3] == (p.len() / 256) as u8);
    assert(r[4] == (p.len() % 256) as u8);
    assert(r.subrange(5, 5 + n) =~= p.take(n));
}

/// The bytes of the `k`-th CONT frame of a message decode back to its header
/// and carry the next slice of the payload.
pub proof fn lemma_cont_frame_fields(k: nat, chan: u16, p: Seq<u8>)
    requires
        cont_offset(k) < p.len(),
    ensures
        ({
            let r = cont_frame(k, chan, p);
            let off = cont_offset(k);
            let n = chunk_len(p.len() - off, CONT_PAYLOAD as int);
            &&& r.len() == REPORT_SIZE
            &&& r[0] < 0x80
            &&& r[0] == k % 128
            &&& be16(r[1], r[2]) as u16 == chan
            &&& r.subrange(3, 3 + n) == p.subrange(off, off + n)
        }),
{
    let r = cont_frame(k, chan, p);
    let off = cont_offset(k);
    let n = chunk_len(p.len() - off, CONT_PAYLOAD as int);
    assert(r[0] == (k % 128) as u8);
    assert(r[1] == (chan / 256) as u8);
    assert(r[2] == (chan % 256) as u8);
    assert(r.subrange(3, 3 + n) =~= p.subrange(off, off + n));
}

/// The state of a reassembler part-way through a message: the START frame and
/// `j` CONT frames have arrived.
pub open spec fn mid_state(t: MsgType, chan: u16, p: Seq<u8>, j: nat) -> ReassemblyState {
    ReassemblyState {
        active: true,
        chan,
        msg_type: t.code(),
        expected: p.len(),
        received: p.take(cont_offset(j)),
        next_seq: j % 128,
    }
}

/// What the START frame of a message does to a reassembler in any state.
proof fn lemma_step_start(s: ReassemblyState, t: MsgType, chan: u16, p: Seq<u8>)
    requires
        p.len() <= CKVP_MAX_MSG,
    ensures
        ({
            let (st, out) = step(s, start_frame(t.code(), chan, p));
            &&& p.len() <= START_PAYLOAD ==> out == Ok::<_, FrameError>(Some((t, p))) && !st.active
            &&& p.len() > START_PAYLOAD ==> out == Ok::<_, FrameError>(None::<(MsgType, Seq<u8>)>)
                && st == mid_state(t, chan, p, 0)
        }),
{
    crate::consts::lemma_msg_type_code_roundtrip(t, 0);
    lemma_start_frame_fields(t, chan, p);
    let n = chunk_len(p.len() as int, START_PAYLOAD as int);
    if p.len() <= START_PAYLOAD {
        assert(p.take(n) =~= p);
    }
}

/// What the `j`-th CONT frame of a message does to a reassembler that holds
/// the frames before it.
proof fn lemma_step_cont(t: MsgType, chan: u16, p: Seq<u8>, j: nat)
    requires
        p.len() <= CKVP_MAX_MSG,
        cont_offset(j) < p.len(),
    ensures
        ({
            let (st, out) = step(mid_state(t, chan, p, j), cont_frame(j, chan, p));
            &&& cont_offset(j + 1) < p.len() ==> out == Ok::<_, FrameError>(None::<(MsgType, Seq<u8>)>)
                && st == mid_state(t, chan, p, j + 1)
            &&& cont_offset(j + 1) >= p.len() ==> out == Ok::<_, FrameError>(Some((t, p)))
                && !st.active
        }),
{
    crate::consts::lemma_msg_type_code_roundtrip(t, 0);
    lemma_cont_frame_fields(j, chan, p);
    let len = p.len();
    let off = cont_offset(j);
    let n = chunk_len(len - off, CONT_PAYLOAD as int);
    assert(p.take(off) + p.subrange(off, off + n) =~= p.take(off + n));
    assert(cont_offset(j + 1) == off + CONT_PAYLOAD);
    if cont_offset(j + 1) >= len {
        assert(p.take(off + n) =~= p);
    }
}

/// What a reassembler has done after the first `k` reports of a message.
#[verifier::rlimit(40)]
proof fn lemma_feed_progress(s: ReassemblyState, t: MsgType, chan: u16, p: Seq<u8>, k: nat)
    requires
        p.len() <= CKVP_MAX_MSG,
        1 <= k <= frames(t, chan, p).len(),
    ensures
        feed(s, frames(t, chan, p).take(k as int)).1.len() == k,
        forall|i: int|
            0 <= i < k && i + 1 < frames(t, chan, p).len() ==> #[trigger] feed(
                s,
                frames(t, chan, p).take(k as int),
            ).1[i] == Ok::<_, FrameError>(None::<(MsgType, Seq<u8>)>),
        k < frames(t, chan, p).len() ==> feed(s, frames(t, chan, p).take(k as int)).0 == mid_state(
            t,
            chan,
            p,
            (k - 1) as nat,
        ),
        k == frames(t, chan, p).len() ==> feed(s, frames(t, chan, p).take(k as int)).1[k - 1]
            == Ok::<_, FrameError>(Some((t, p))),
        k == frames(t, chan, p).len() ==> !feed(s, frames(t, chan, p).take(k as int)).0.active,
    decreases k,
{
    let fr = frames(t, chan, p);
    let len = p.len();
    assert(fr.len() == 1 + cont_count(len));
    let prefix = fr.take(k as int);
    let before = fr.take(k - 1);
    assert(prefix.drop_last() =~= before);
    assert(prefix.last() == fr[k - 1]);
    let (mid, outs) = feed(s, before);
    let (end, out) = step(mid, fr[k - 1]);
    assert(feed(s, prefix) == (end, outs.push(out)));
    if k == 1 {
        assert(before =~= Seq::<Seq<u8>>::empty());
        assert(mid == s && outs.len() == 0);
        assert(fr[0] == start_frame(t.code(), chan, p));
        lemma_cont_count(len, 0);
        lemma_step_start(s, t, chan, p);
    } else {
        lemma_feed_progress(s, t, chan, p, (k - 1) as nat);
        let j = (k - 2) as nat;
        assert(fr[k - 1] == cont_frame(j, chan, p));
        lemma_cont_count(len, j);
        lemma_cont_count(len, j + 1);
        assert(mid == mid_state(t, chan, p, j));
        lemma_step_cont(t, chan, p, j);
        assert forall|i: int| 0 <= i < k && i + 1 < fr.len() implies #[trigger] outs.push(out)[i]
            == Ok::<_, FrameError>(None::<(MsgType, Seq<u8>)>) by {
            if i < k - 1 {
                assert(outs.push(out)[i] == outs[i]);
            }
        }
    }
}

/// Reassembly undoes framing: feeding the reports of a message, in order, to a
/// reassembler in any state yields nothing for every report but the
/// last, yields the message itself for the last, and leaves nothing in flight.
pub proof fn lemma_frames_reassemble(s: ReassemblyState, t: MsgType, chan: u16, p: Seq<u8>)
    requires
        p.len() <= CKVP_MAX_MSG,
    ensures
        ({
            let fr = frames(t, chan, p);
            let (end, outs) = feed(s, fr);
            &&& outs.len() == fr.len()
            &&& forall|i: int| 0 <= i < outs.len() - 1 ==> outs[i] == Ok::<_, FrameError>(None::<(MsgType, Seq<u8>)>)
            &&& outs.last() == Ok::<_, FrameError>(Some((t, p)))
            &&& !end.active
        }),
{
    let fr = frames(t, chan, p);
    lemma_feed_progress(s, t, chan, p, fr.len());
    assert(fr.take(fr.len() as int) =~= fr);
}

/// The reports of a message are pairwise different: the START frame is the
/// only one with the top bit of its first byte set, and each CONT frame
/// carries its own sequence number.
pub proof fn lemma_frames_distinct(t: MsgType, chan: u16, p: Seq<u8>)
    requires
        p.len() <= CKVP_MAX_MSG,
    ensures
        forall|i: int, j: int|
            0 <= i < j < frames(t, chan, p).len() ==> #[trigger] frames(t, chan, p)[i] != #[trigger] frames(t, chan, p)[j],
{
    let fr = frames(t, chan, p);
    assert forall|i: int, j: int| 0 <= i < j < fr.len() implies #[trigger] fr[i] != #[trigger] fr[j] by {
        lemma_cont_count(p.len(), (j - 1) as nat);
        lemma_cont_frame_fields((j - 1) as nat, chan, p);
        assert(fr[j] == cont_frame((j - 1) as nat, chan, p));
        if i == 0 {
            lemma_start_frame_fields(t, chan, p);
            assert(fr[0] == start_frame(t.code(), chan, p));
            assert(fr[i][0] != fr[j][0]);
        } else {
            lemma_cont_count(p.len(), (i - 1) as nat);
            lemma_cont_frame_fields((i - 1) as nat, chan, p);
            assert(fr[i] == cont_frame((i - 1) as nat, chan, p));
            assert(j - 1 < 128);
            assert(fr[i][0] != fr[j][0]);
        }
    }
}

/// Every report of a message is one HID report long.
pub proof fn lemma_frames_report_size(t: MsgType, chan: u16, p: Seq<u8>)
    requires
        p.len() <= CKVP_MAX_MSG,
    ensures
        forall|i: int| 0 <= i < frames(t, chan, p).len() ==> (#[trigger] frames(t, chan, p)[i]).len() == REPORT_SIZE,
{
    let fr = frames(t, chan, p);
    assert forall|i: int| 0 <= i < fr.len() implies (#[trigger] fr[i]).len() == REPORT_SIZE by {
        if i == 0 {
            lemma_start_frame_fields(t, chan, p);
        } else {
            lemma_cont_count(p.len(), (i - 1) as nat);
            lemma_cont_frame_fields((i - 1) as nat, chan, p);
        }
    }
}

// ---------------------------------------------------------------------------
// Encoding.
// ---------------------------------------------------------------------------

/// Writes `src[from..from + n]` into `report` at `at`.
fn fill_report(report: &mut [u8; REPORT_SIZE], at: usize, src: &[u8], from: usize, n: usize)
    requires
        at + n <= REPORT_SIZE,
        from + n <= src.len(),
    ensures
        final(report)@ == old(report)@.take(at as int) + src@.subrange(from as int, from + n)
            + old(report)@.skip(at + n),
{
    let ghost orig = report@;
    let mut i: usize = 0;
    while i < n
        invariant
            i <= n,
            at + n <= REPORT_SIZE,
            from + n <= src.len(),
            report@.len() == REPORT_SIZE,
            orig.len() == REPORT_SIZE,
            forall|j: int| 0 <= j < at ==> report@[j] == orig[j],
            forall|j: int| at + i <= j < REPORT_SIZE ==> report@[j] == orig[j],
            forall|j: int| at <= j < at + i ==> #[trigger] report@[j] == src@[from + j - at],
        decreases n - i,
    {
        report[at + i] = src[from + i];
        i = i + 1;
    }
    assert(report@ =~= orig.take(at as int) + src@.subrange(from as int, from + n) + orig.skip(
        at + n,
    ));
}

/// How many reports carry a payload of `len` bytes: one START frame and
/// `cont_count(len)` CONT frames.
pub fn report_count(len: usize) -> (n: usize)
    ensures
        n == 1 + cont_count(len as nat),
{
    if len <= START_PAYLOAD {
        1
    } else {
        let rest = len - START_PAYLOAD;
        let q = rest / CONT_PAYLOAD;
        let extra: usize = if rest % CONT_PAYLOAD != 0 {
            1
        } else {
            0
        };
        assert(q + extra == (rest + CONT_PAYLOAD - 1) / (CONT_PAYLOAD as int)) by (nonlinear_arith)
            requires
                q == rest / 61,
                extra == (if rest % 61 != 0 {
                    1int
                } else {
                    0int
                }),
                CONT_PAYLOAD == 61,
                rest > 0,
        ;
        1 + q + extra
    }
}

/// The `k`-th report (counting from 0) of the message `payload` of type
/// `msg_type` on `chan`, built in place with no allocation.
pub fn report_at(msg_type: MsgType, chan: u16, payload: &[u8], k: usize) -> (report: [u8; REPORT_SIZE])
    requires
        payload@.len() <= CKVP_MAX_MSG,
        k < 1 + cont_count(payload@.len()),
    ensures
        report@ == frames(msg_type, chan, payload@)[k as int],
{
    let len = payload.len();
    let ghost p = payload@;
    let chan_hi = (chan / 256) as u8;
    let chan_lo = (chan % 256) as u8;
    let mut report = [0u8;64];
    if k == 0 {
        // START
        let code = msg_type.to_u8();
        proof {
            crate::consts::lemma_msg_type_code_roundtrip(msg_type, code);
            assert(0x80 | code == 0x80 + code) by (bit_vector)
                requires
                    code < 0x40,
            ;
        }
        report[0] = 0x80 | code;
        report[1] = chan_hi;
        report[2] = chan_lo;
        report[3] = (len / 256) as u8;
        report[4] = (len % 256) as u8;
        let n = if len < START_PAYLOAD {
            len
        } else {
            START_PAYLOAD
        };
        fill_report(&mut report, 5, payload, 0, n);
        assert(report@ =~= start_frame(code, chan, p));
    } else {
        // CONT
        let j = k - 1;
        proof {
            lemma_cont_count(len as nat, j as nat);
        }
        let off = START_PAYLOAD + CONT_PAYLOAD * j;
        let s = (j % 128) as u8;
        report[0] = s;
        report[1] = chan_hi;
        report[2] = chan_lo;
        let n = if len - off < CONT_PAYLOAD {
            len - off
        } else {
            CONT_PAYLOAD
        };
        fill_report(&mut report, 3, payload, off, n);
        assert(report@ =~= cont_frame(j as nat, chan, p));
    }
    report
}

/// Splits `payload` for `chan`/`msg_type` into 64-byte reports, invoking
/// `emit` for each, in order. Allocation-free. Fails with `TooLong`, emitting
/// nothing, if the payload exceeds the cap. `emit` need accept only the
/// reports of this message: nothing else is ever handed to it.
pub fn encode<F: FnMut(&[u8; REPORT_SIZE])>(
    msg_type: MsgType,
    chan: u16,
    payload: &[u8],
    mut emit: F,
) -> (res: Result<(), FrameError>)
    requires
        forall|r: &[u8; REPORT_SIZE]|
            #[trigger] frames(msg_type, chan, payload@).contains(r@) ==> call_requires(emit, (r,)),
    ensures
        res is Err <==> payload@.len() > CKVP_MAX_MSG,
        res matches Err(e) ==> e == FrameError::TooLong,
        res is Ok ==> forall|k: int, r: [u8; REPORT_SIZE]|
            #![trigger frames(msg_type, chan, payload@)[k], r@]
            0 <= k < frames(msg_type, chan, payload@).len() && r@ == frames(msg_type, chan, payload@)[k]
                ==> call_ensures(emit, (&r,), ()),
{
    if payload.len() > CKVP_MAX_MSG {
        return Err(FrameError::TooLong);
    }
    let ghost fr = frames(msg_type, chan, payload@);
    let ghost emit0 = emit;
    let count = report_count(payload.len());
    let mut k: usize = 0;
    while k < count
        invariant
            k <= count,
            emit == emit0,
            count == fr.len(),
            payload@.len() <= CKVP_MAX_MSG,
            fr == frames(msg_type, chan, payload@),
            forall|r: &[u8; REPORT_SIZE]| #[trigger] fr.contains(r@) ==> call_requires(emit, (r,)),
            forall|j: int, r: [u8; REPORT_SIZE]|
                #![trigger fr[j], r@]
                0 <= j < k && r@ == fr[j] ==> call_ensures(emit, (&r,), ()),
        decreases count - k,
    {
        let report = report_at(msg_type, chan, payload, k);
        assert(fr.contains(report@)) by {
            assert(fr[k as int] == report@);
        }
        emit(&report);
        assert forall|j: int, r: [u8; REPORT_SIZE]|
            #![trigger fr[j], r@]
            0 <= j < k + 1 && r@ == fr[j] implies call_ensures(emit, (&r,), ()) by {
            if j == k {
                assert(r =~= report);
            }
        }
        k = k + 1;
    }
    Ok(())
}

/// Splits `payload` for `chan`/`msg_type` into 64-byte reports and returns
/// them, in the order in which they are to be sent. Fails with `TooLong` if
/// the payload exceeds the cap.
pub fn encode_to_vec(msg_type: MsgType, chan: u16, payload: &[u8]) -> (res: Result<
    Vec<[u8; REPORT_SIZE]>,
    FrameError,
>)
    ensures
        res is Err <==> payload@.len() > CKVP_MAX_MSG,
        res matches Err(e) ==> e == FrameError::TooLong,
        res matches Ok(v) ==> reports_view(v@) == frames(msg_type, chan, payload@),
{
    if payload.len() > CKVP_MAX_MSG {
        return Err(FrameError::TooLong);
    }
    let ghost fr = frames(msg_type, chan, payload@);
    let count = report_count(payload.len());
    let mut reports: Vec<[u8; REPORT_SIZE]> = Vec::new();
    let mut k: usize = 0;
    while k < count
        invariant
            k <= count,
            count == fr.len(),
            payload@.len() <= CKVP_MAX_MSG,
            fr == frames(msg_type, chan, payload@),
            reports_view(reports@) == fr.take(k as int),
        decreases count - k,
    {
        let report = report_at(msg_type, chan, payload, k);
        let ghost before = reports@;
        reports.push(report);
        assert(reports_view(reports@) =~= reports_view(before).push(report@));
        assert(fr.take(k + 1) =~= fr.take(k as int).push(fr[k as int]));
        k = k + 1;
    }
    assert(fr.take(count as int) =~= fr);
    Ok(reports)
}

// ---------------------------------------------------------------------------
// Reassembly.
// ---------------------------------------------------------------------------

/// Reassembles one channel's message from a sequence of reports.
pub struct Reassembler {
    active: bool,
    chan: u16,
    msg_type: u8,
    expected: usize,
    off: usize,
    next_seq: u8,
    buf: [u8; CKVP_MAX_MSG],
}

impl View for Reassembler {
    type V = ReassemblyState;

    closed spec fn view(&self) -> ReassemblyState {
        ReassemblyState {
            active: self.active,
            chan: self.chan,
            msg_type: self.msg_type,
            expected: self.expected as nat,
            received: self.buf@.take(self.off as int),
            next_seq: self.next_seq as nat,
        }
    }
}

/// Writes `src[from..from + n]` into `buf` at `at`.
fn copy_into(buf: &mut [u8; CKVP_MAX_MSG], at: usize, src: &[u8; REPORT_SIZE], from: usize, n: usize)
    requires
        at + n <= CKVP_MAX_MSG,
        from + n <= REPORT_SIZE,
    ensures
        final(buf)@.take(at + n) == old(buf)@.take(at as int) + src@.subrange(
            from as int,
            from + n,
        ),
{
    let ghost orig = buf@;
    let mut i: usize = 0;
    while i < n
        invariant
            i <= n,
            at + n <= CKVP_MAX_MSG,
            from + n <= REPORT_SIZE,
            buf@.len() == CKVP_MAX_MSG,
            orig.len() == CKVP_MAX_MSG,
            forall|j: int| 0 <= j < at ==> buf@[j] == orig[j],
            forall|j: int| at <= j < at + i ==> #[trigger] buf@[j] == src@[from + j - at],
        decreases n - i,
    {
        buf[at + i] = src[from + i];
        i = i + 1;
    }
    assert(buf@.take(at + n) =~= orig.take(at as int) + src@.subrange(from as int, from + n));
}

impl Default for Reassembler {
    fn default() -> (r: Self)
        ensures
            r.wf(),
            r@ == initial_state(),
    {
        Self::new()
    }
}

impl Reassembler {
    /// The invariant of a reassembler: its fields describe a well-formed state.
    pub closed spec fn wf(&self) -> bool {
        &&& self.off <= self.expected <= CKVP_MAX_MSG
        &&& self.next_seq < 128
        &&& self.active ==> MsgType::of_code(self.msg_type) is Some
    }

    /// A well-formed reassembler has a well-formed abstract state.
    pub proof fn lemma_wf(&self)
        requires
            self.wf(),
        ensures
            state_wf(self@),
    {
    }

    /// A reassembler with nothing in flight.
    pub fn new() -> (r: Self)
        ensures
            r.wf(),
            r@ == initial_state(),
    {
        let r = Self {
            active: false,
            chan: 0,
            msg_type: 0,
            expected: 0,
            off: 0,
            next_seq: 0,
            buf: [0u8;2048],
        };
        assert(r@.received =~= Seq::<u8>::empty());
        r
    }

    /// Discards any in-flight message (call on timeout).
    pub fn reset(&mut self)
        requires
            old(self).wf(),
        ensures
            final(self).wf(),
            final(self)@ == reset_state(old(self)@),
    {
        self.active = false;
        self.off = 0;
        self.next_seq = 0;
        assert(self@.received =~= Seq::<u8>::empty());
    }

    /// The channel of the message in flight, if any.
    pub fn active_channel(&self) -> (r: Option<u16>)
        ensures
            r == (if self@.active {
                Some(self@.chan)
            } else {
                None
            }),
    {
        if self.active {
            Some(self.chan)
        } else {
            None
        }
    }

    /// Feeds one 64-byte report. On completion returns `Ok(Some((type, bytes)))`.
    pub fn push(&mut self, report: &[u8; REPORT_SIZE]) -> (res: Result<
        Option<(MsgType, &[u8])>,
        FrameError,
    >)
        requires
            old(self).wf(),
        ensures
            final(self).wf(),
            (final(self)@, delivery_of(res)) == step(old(self)@, report@),
    {
        let ghost r = report@;
        let b0 = report[0];
        let chan: u16 = (report[1] as u16) * 256 + (report[2] as u16);
        assert(chan == be16(r[1], r[2]) as u16);
        let is_start = report[0] & 0x80 != 0;
        assert((b0 & 0x80 != 0) == (b0 >= 0x80)) by (bit_vector);

        if is_start {
            let ty = report[0] & 0x7F;
            assert(b0 >= 0x80 ==> b0 & 0x7f == b0 - 0x80) by (bit_vector);
            let mtype = match MsgType::from_u8(ty) {
                Some(m) => m,
                None => {
                    return Err(FrameError::BadType);
                },
            };
            let len: usize = (report[3] as usize) * 256 + (report[4] as usize);
            if len > CKVP_MAX_MSG {
                return Err(FrameError::TooLong);
            }
            self.active = true;
            self.chan = chan;
            self.msg_type = ty;
            self.expected = len;
            self.off = 0;
            self.next_seq = 0;
            let n = if len < START_PAYLOAD {
                len
            } else {
                START_PAYLOAD
            };
            copy_into(&mut self.buf, 0, report, 5, n);
            self.off = n;
            assert(self@.received =~= r.subrange(5, 5 + n));
            return self.maybe_complete(mtype);
        }
        // CONT

        if !self.active {
            return Err(FrameError::Unexpected);
        }
        if chan != self.chan {
            return Err(FrameError::WrongChannel);
        }
        let seq = report[0] & 0x7F;
        assert(b0 < 0x80 ==> b0 & 0x7f == b0) by (bit_vector);
        if seq != self.next_seq {
            self.reset();
            return Err(FrameError::BadSeq);
        }
        let remaining = self.expected - self.off;
        let n = if CONT_PAYLOAD < remaining {
            CONT_PAYLOAD
        } else {
            remaining
        };
        if self.off + n > CKVP_MAX_MSG {
            self.reset();
            return Err(FrameError::Overflow);
        }
        let ghost before = self@;
        copy_into(&mut self.buf, self.off, report, 3, n);
        self.off = self.off + n;
        assert(self@.received =~= before.received + r.subrange(3, 3 + n));
        let ns = self.next_seq;
        assert(((ns + 1) as u8) & 0x7f == (ns + 1) % 128) by (bit_vector)
            requires
                ns < 128,
        ;
        self.next_seq = self.next_seq.wrapping_add(1) & 0x7F;
        let mtype = match MsgType::from_u8(self.msg_type) {
            Some(m) => m,
            None => {
                return Err(FrameError::BadType);
            },
        };
        self.maybe_complete(mtype)
    }

    /// Completes the message in flight once all its bytes have arrived.
    fn maybe_complete(&mut self, mtype: MsgType) -> (res: Result<
        Option<(MsgType, &[u8])>,
        FrameError,
    >)
        requires
            old(self).off <= old(self).expected <= CKVP_MAX_MSG,
        ensures
            old(self).off >= old(self).expected ==> {
                &&& final(self)@ == ReassemblyState { active: false, ..old(self)@ }
                &&& delivery_of(res) == Ok::<_, FrameError>(Some((mtype, old(self)@.received)))
            },
            old(self).off < old(self).expected ==> {
                &&& final(self)@ == old(self)@
                &&& res == Ok::<_, FrameError>(None::<(MsgType, &[u8])>)
            },
            final(self).off == old(self).off,
            final(self).expected == old(self).expected,
            final(self).next_seq == old(self).next_seq,
            final(self).msg_type == old(self).msg_type,
            final(self).active ==> old(self).active,
    {
        if self.off >= self.expected {
            self.active = false;
            let bytes = vstd::slice::slice_subrange(self.buf.as_slice(), 0, self.expected);
            Ok(Some((mtype, bytes)))
        } else {
            Ok(None)
        }
    }
}

} // verus!
