use vstd::prelude::*;

use crate::assembler::{
    crc_ok, frame_tail, lemma_chain_bytes_list, payload_kind_of, session_payload, Assembler,
};
use crate::crc::crc16_ccitt_false;
use crate::slicer::{
    frame_count_spec, frame_data, frame_of, frames_concat, lemma_frames_concat_prefix, min_nat,
    stream_of,
};
use crate::tailbyte::{
    decodes_tail, frame_kind, lemma_tail_byte_round_trip, tail_byte_bits, TailByte,
};
use crate::storage::{lemma_filled_count_bound, lemma_remove_list, list_bytes};
use crate::transfer::{
    key_bits, lemma_transfer_completes, state_after_frame, transition, State,
    TransferMachineOutput, TransfersMapKey,
};
use crate::types::{CanId, TransferId};

verus! {

/// The CRC check accepts every transfer of several frames that the slicer cuts: with the
/// data of all frames but the last stored, the CRC at the end of the last frame matches,
/// whether its two bytes both stand in the last frame or straddle the last two.
pub proof fn lemma_sliced_crc_ok(payload: Seq<u8>, id: TransferId, mtu: nat)
    requires
        mtu >= 2,
        payload.len() >= mtu,
    ensures
        ({
            let n = frame_count_spec(payload.len(), mtu, mtu);
            let stream = stream_of(payload, crc16_ccitt_false(payload), mtu);
            &&& n >= 2
            &&& (n - 1) * ((mtu - 1) as nat) < stream.len() <= n * ((mtu - 1) as nat)
            &&& crc_ok(
                frames_concat(stream, (mtu - 1) as nat, (n - 1) as nat),
                frame_of(payload, id, (n - 1) as nat, mtu),
            )
        }),
{
    let c = crc16_ccitt_false(payload);
    let stream = stream_of(payload, c, mtu);
    let m = (mtu - 1) as nat;
    let n = frame_count_spec(payload.len(), mtu, mtu);
    let s = stream.len();
    assert(s == payload.len() + 2);
    vstd::arithmetic::div_mod::lemma_fundamental_div_mod(s as int, m as int);
    let q = s / m;
    // The last frame starts before the end of the stream and reaches it.
    if s % m != 0 {
        assert(n == q + 1);
        assert((n - 1) * m == m * q) by (nonlinear_arith)
            requires
                n == q + 1,
        ;
        assert(n * m == m * q + m) by (nonlinear_arith)
            requires
                n == q + 1,
        ;
    } else {
        assert(n == q);
        assert((n - 1) * m == m * q - m) by (nonlinear_arith)
            requires
                n == q,
                q >= 1,
        ;
        assert(n * m == m * q) by (nonlinear_arith)
            requires
                n == q,
        ;
    }
    assert(n >= 2) by (nonlinear_arith)
        requires
            (n - 1) * m < s,
            n * m >= s,
            s > m,
            m >= 1,
    ;
    let k = (n - 1) as nat;
    assert(k * m < s && n * m >= s);
    assert((k + 1) * m == n * m);
    lemma_frames_concat_prefix(stream, m, k);
    let stored = frames_concat(stream, m, k);
    assert(stored == stream.subrange(0, (k * m) as int));
    let frame = frame_of(payload, id, k, mtu);
    assert(frame_data(stream, k, m) == stream.subrange((k * m) as int, s as int));
    let d = (s - k * m) as int;
    assert(frame.len() == d + 1);
    let hi = (c >> 8u16) as u8;
    let lo = (c & 0xffu16) as u8;
    assert(((hi as u16) << 8u16) | (lo as u16) == c) by (bit_vector)
        requires
            hi == (c >> 8u16) as u8,
            lo == (c & 0xffu16) as u8,
    ;
    assert(stream[s - 2] == hi && stream[s - 1] == lo);
    if d >= 2 {
        assert(stored + frame.subrange(0, d - 2) =~= payload);
        assert(frame[d - 2] == hi);
        assert(frame[d - 1] == lo);
    } else {
        assert(d == 1);
        assert(stored.drop_last() =~= payload);
        assert(stored.last() == hi);
        assert(frame[0] == lo);
    }
}

/// The frames that the slicer cuts from a payload complete the transfer in a session that
/// was idle: frame `i` drives the state machine as `lemma_transfer_completes` says, so that
/// every frame is stored and the last one is checked and ends in `Done`.
pub proof fn lemma_sliced_frames_complete(
    payload: Seq<u8>,
    id: TransferId,
    mtu: nat,
    i: nat,
    idle: State,
)
    requires
        mtu >= 2,
        id.spec_inner() <= 31,
        i < frame_count_spec(payload.len(), mtu, mtu),
        idle == State::Empty || idle == State::Done || idle == State::Failure,
    ensures
        ({
            let n = frame_count_spec(payload.len(), mtu, mtu);
            let frame = frame_of(payload, id, i, mtu);
            transition(
                if i == 0 {
                    idle
                } else {
                    state_after_frame((i - 1) as nat)
                },
                payload_kind_of(frame.len(), mtu),
                frame_tail(frame, mtu),
            ) == (if n <= 1 {
                (State::Done, TransferMachineOutput::Push)
            } else if i + 1 == n {
                (State::Done, TransferMachineOutput::CheckCrcAndPush)
            } else {
                (state_after_frame(i), TransferMachineOutput::Push)
            })
        }),
        frame_tail(frame_of(payload, id, i, mtu), mtu) == Some(
            TailByte { kind: frame_kind(i, frame_count_spec(payload.len(), mtu, mtu)), id },
        ),
        payload.len() >= mtu && i + 1 < frame_count_spec(payload.len(), mtu, mtu)
            ==> frame_of(payload, id, i, mtu).len() == mtu,
        payload.len() < mtu ==> frame_of(payload, id, i, mtu).len() == payload.len() + 1,
        frame_of(payload, id, i, mtu).drop_last() == frame_data(
            stream_of(payload, crc16_ccitt_false(payload), mtu),
            i,
            (mtu - 1) as nat,
        ),
{
    let n = frame_count_spec(payload.len(), mtu, mtu);
    let c = crc16_ccitt_false(payload);
    let stream = stream_of(payload, c, mtu);
    let m = (mtu - 1) as nat;
    let s = stream.len();
    let frame = frame_of(payload, id, i, mtu);
    let tail = TailByte { kind: frame_kind(i, n), id };
    lemma_tail_byte_round_trip(tail);
    let chosen = choose|t: TailByte| decodes_tail(frame.last(), t);
    assert(frame.last() == tail_byte_bits(tail));
    assert(chosen.id == id);
    assert(chosen == tail);
    let lo = min_nat(i * m, s);
    let hi = min_nat((i + 1) * m, s);
    assert((i + 1) * m == i * m + m) by (nonlinear_arith);
    assert(frame.len() == hi - lo + 1);
    if payload.len() >= mtu {
        assert(s == payload.len() + 2);
        vstd::arithmetic::div_mod::lemma_fundamental_div_mod(s as int, m as int);
        let q = s / m;
        if s % m != 0 {
            assert(n == q + 1);
            assert((n - 1) * m == m * q) by (nonlinear_arith)
                requires
                    n == q + 1,
            ;
        } else {
            assert(n == q);
            assert((n - 1) * m == m * q - m) by (nonlinear_arith)
                requires
                    n == q,
                    q >= 1,
            ;
        }
        if i + 1 < n {
            assert((i + 1) * m <= (n - 1) * m) by (nonlinear_arith)
                requires
                    i + 1 <= n - 1,
            ;
            assert(frame.len() == mtu);
        } else {
            assert(i * m == (n - 1) * m);
            assert(1 <= frame.len() <= mtu);
        }
    } else {
        assert(i == 0);
        assert(i * m == 0);
        assert(frame.len() == s + 1);
    }
    assert(frame_tail(frame, mtu) == Some(tail));
    assert(frame.drop_last() =~= frame_data(stream, i, m));
    lemma_transfer_completes(n, i, id, payload_kind_of(frame.len(), mtu), idle);
}

/// The key of the session that frames with identifier `id` go to.
pub open spec fn session_key(id: CanId) -> u32 {
    key_bits(TransfersMapKey { kind: id.transfer_kind, source: id.source_node_id })
}

/// A session in one of these states takes the first frame of a new transfer.
pub open spec fn is_idle(s: State) -> bool {
    s == State::Empty || s == State::Done || s == State::Failure
}

/// `states` are an assembler before and after each frame of the transfer of `payload` with
/// transfer id `tid`, fed in order under the identifier `id` at `times`, as `process_frame`
/// leaves it while the pool has room; the session of `id` was idle or absent, with room
/// for it, and the pool had room for every piece of the transfer.
pub open spec fn feeds<
    const MTU: usize,
    const MTU_M1: usize,
    const MAX_PIECES: usize,
    const MAX_TRANSFERS: usize,
    const TRANSFER_LIFETIME: u32,
>(
    states: Seq<Assembler<MTU, MTU_M1, MAX_PIECES, MAX_TRANSFERS, TRANSFER_LIFETIME>>,
    id: CanId,
    tid: TransferId,
    payload: Seq<u8>,
    times: Seq<u32>,
) -> bool {
    let n = frame_count_spec(payload.len(), MTU as nat, MTU as nat);
    let k = session_key(id);
    let s0 = states[0].sessions();
    &&& tid.spec_inner() <= 31
    &&& states.len() == n + 1
    &&& times.len() == n
    &&& forall|i: int| 0 <= i < states.len() ==> #[trigger] states[i].wf()
    &&& s0.contains_key(k) ==> is_idle(s0[k].transfer_machine.state)
    &&& !s0.contains_key(k) ==> s0.len() < MAX_TRANSFERS
    &&& states[0].used_pieces() + n <= MAX_PIECES
    &&& forall|i: int|
        0 <= i < n ==> #[trigger] states[i].accepts(
            states[i + 1],
            id,
            frame_of(payload, tid, i as nat, MTU as nat),
            times[i],
        )
}

proof fn lemma_payload_of_list<
    const MTU: usize,
    const MTU_M1: usize,
    const MAX_PIECES: usize,
    const MAX_TRANSFERS: usize,
    const TRANSFER_LIFETIME: u32,
>(a: Assembler<MTU, MTU_M1, MAX_PIECES, MAX_TRANSFERS, TRANSFER_LIFETIME>, k: u32)
    requires
        a.wf(),
        a.sessions().contains_key(k),
        a.sessions()[k].first_piece_idx is Some,
    ensures
        chain_bytes_of(a, k) == list_bytes(a.slots(), a.lists@[k]),
{
    let l = a.lists@[k];
    lemma_remove_list(a.slots(), l, l.len());
    lemma_filled_count_bound(a.slots());
    lemma_chain_bytes_list(a.slots(), l, MAX_PIECES as nat);
}

/// The bytes of every piece of session `k`, read by following the links.
pub open spec fn chain_bytes_of<
    const MTU: usize,
    const MTU_M1: usize,
    const MAX_PIECES: usize,
    const MAX_TRANSFERS: usize,
    const TRANSFER_LIFETIME: u32,
>(a: Assembler<MTU, MTU_M1, MAX_PIECES, MAX_TRANSFERS, TRANSFER_LIFETIME>, k: u32) -> Seq<u8> {
    crate::assembler::chain_bytes(
        a.slots(),
        a.sessions()[k].first_piece_idx.unwrap() as int,
        MAX_PIECES as nat,
    )
}

proof fn lemma_round_trip_step<
    const MTU: usize,
    const MTU_M1: usize,
    const MAX_PIECES: usize,
    const MAX_TRANSFERS: usize,
    const TRANSFER_LIFETIME: u32,
>(
    states: Seq<Assembler<MTU, MTU_M1, MAX_PIECES, MAX_TRANSFERS, TRANSFER_LIFETIME>>,
    id: CanId,
    tid: TransferId,
    payload: Seq<u8>,
    times: Seq<u32>,
    i: nat,
)
    requires
        feeds(states, id, tid, payload, times),
        1 <= i < states.len(),
    ensures
        ({
            let n = (states.len() - 1) as nat;
            let k = session_key(id);
            let a = states[i as int];
            let t = a.sessions()[k];
            let m = (MTU - 1) as nat;
            let stream = stream_of(payload, crc16_ccitt_false(payload), MTU as nat);
            let opened = states[0].session_for(id, times[0]);
            &&& a.sessions().contains_key(k)
            &&& a.sessions().remove(k) == states[0].sessions().remove(k)
            &&& t.key == opened.key
            &&& t.priority == opened.priority
            &&& a.used_pieces() <= states[0].used_pieces() + i
            &&& i < n ==> {
                &&& t.transfer_machine.state == state_after_frame((i - 1) as nat)
                &&& list_bytes(a.slots(), a.lists@[k]) == frames_concat(stream, m, i)
            }
            &&& i == n ==> {
                &&& t.transfer_machine.state == State::Done
                &&& session_payload(a.slots(), t, MAX_PIECES as nat) == payload
            }
        }),
    decreases i,
{
    let n = (states.len() - 1) as nat;
    let k = session_key(id);
    let m = (MTU - 1) as nat;
    let c = crc16_ccitt_false(payload);
    let stream = stream_of(payload, c, MTU as nat);
    let j = (i - 1) as nat;
    if i > 1 {
        lemma_round_trip_step(states, id, tid, payload, times, j);
    }
    let pre = states[j as int];
    let post = states[i as int];
    assert(pre.wf());
    assert(post.wf());
    let f = frame_of(payload, tid, j, MTU as nat);
    let now = times[j as int];
    assert(pre.accepts(post, id, f, now));
    let key = TransfersMapKey { kind: id.transfer_kind, source: id.source_node_id };
    assert(key_bits(key) == k);
    let s0 = pre.sessions();
    assert(s0.contains_key(k) || s0.len() < MAX_TRANSFERS);
    let prev = pre.session_for(id, now);
    let t = post.sessions()[k];
    assert(post.sessions() == s0.insert(k, t));
    assert(post.sessions().contains_key(k));
    assert(post.sessions().remove(k) =~= s0.remove(k));
    let pushed = choose|pushed: bool|
        #[trigger] crate::assembler::session_step(
            prev,
            t,
            pre.slots(),
            f,
            MTU as nat,
            MAX_PIECES as nat,
            pushed,
        ) && (!pushed ==> pre.used_pieces() == MAX_PIECES);
    assert(pushed);
    let idle = if j == 0 {
        prev.transfer_machine.state
    } else {
        State::Empty
    };
    lemma_sliced_frames_complete(payload, tid, MTU as nat, j, idle);
    let list = if s0.contains_key(k) {
        pre.lists@[k]
    } else {
        Seq::<int>::empty()
    };
    let before = list_bytes(pre.slots(), list);
    let after = list_bytes(post.slots(), post.lists@[k]);
    assert(crate::assembler::content_step(
        prev,
        t,
        before,
        after,
        f,
        MTU as nat,
        MTU_M1 as nat,
    ));
    let d = (f.len() - 1) as int;
    if payload.len() < MTU {
        // One frame: stored at once and done.
        assert(n == 1);
        assert(stream == payload);
        assert(f.drop_last() =~= payload);
        assert(t.last_piece_len == d);
        assert(after.subrange(0, d) == f.subrange(0, d));
        lemma_payload_of_list(post, k);
        assert(session_payload(post.slots(), t, MAX_PIECES as nat) =~= after.subrange(0, d));
        assert(f.subrange(0, d) =~= payload);
    } else {
        lemma_sliced_crc_ok(payload, tid, MTU as nat);
        assert(n >= 2);
        if i < n {
            // A full frame adds its data as one piece.
            assert(f.len() == MTU);
            assert(d == m);
            let base = if j == 0 {
                Seq::<u8>::empty()
            } else {
                before
            };
            assert(after.subrange(0, base.len() as int) == base);
            assert(after.subrange(base.len() as int, base.len() + d) == f.subrange(0, d));
            assert(f.subrange(0, d) =~= frame_data(stream, j, m));
            if j > 0 {
                assert(s0.contains_key(k));
                assert(before == frames_concat(stream, m, j));
            }
            assert(after =~= frames_concat(stream, m, j) + frame_data(stream, j, m));
        } else {
            // The last frame: its CRC matches and the CRC bytes are left out.
            assert(s0.contains_key(k));
            assert(before == frames_concat(stream, m, j));
            assert(prev == s0[k]);
            assert(prev.first_piece_idx is Some);
            lemma_payload_of_list(pre, k);
            assert(crc_ok(before, f));
            assert(t.transfer_machine.state == State::Done);
            lemma_frames_concat_prefix(stream, m, j);
            let s = stream.len();
            assert(j * m < s);
            assert(before == stream.subrange(0, (j * m) as int));
            assert((j + 1) * m == j * m + m) by (nonlinear_arith);
            assert(f.drop_last() == stream.subrange((j * m) as int, s as int));
            lemma_payload_of_list(post, k);
            if d >= 2 {
                assert(t.last_piece_len == d - 2);
                assert(after.subrange(0, before.len() as int) == before);
                assert(after.subrange(before.len() as int, before.len() + d - 2) == f.subrange(
                    0,
                    d - 2,
                ));
                assert(session_payload(post.slots(), t, MAX_PIECES as nat) =~= after.subrange(
                    0,
                    before.len() + d - 2,
                ));
                assert(after.subrange(0, before.len() + d - 2) =~= before + f.subrange(0, d - 2));
                assert(before + f.subrange(0, d - 2) =~= payload);
            } else {
                assert(d == 1);
                assert(after == before);
                assert(t.last_piece_len == m - 1);
                assert(session_payload(post.slots(), t, MAX_PIECES as nat) =~= before.subrange(
                    0,
                    before.len() - 1,
                ));
                assert(before.subrange(0, before.len() - 1) =~= payload);
            }
        }
    }
}

/// Round trip: the frames that the slicer cuts from `payload`, fed in order under `id` to an
/// assembler as `feeds` describes, leave the session of `id` done and holding exactly
/// `payload`, which `pop` hands out; every other session is as it was. A session opened by
/// the transfer carries the kind, source and priority of `id`.
pub proof fn lemma_round_trip<
    const MTU: usize,
    const MTU_M1: usize,
    const MAX_PIECES: usize,
    const MAX_TRANSFERS: usize,
    const TRANSFER_LIFETIME: u32,
>(
    states: Seq<Assembler<MTU, MTU_M1, MAX_PIECES, MAX_TRANSFERS, TRANSFER_LIFETIME>>,
    id: CanId,
    tid: TransferId,
    payload: Seq<u8>,
    times: Seq<u32>,
)
    requires
        feeds(states, id, tid, payload, times),
    ensures
        ({
            let k = session_key(id);
            let last = states.last();
            let t = last.sessions()[k];
            &&& last.sessions().contains_key(k)
            &&& t.transfer_machine.state == State::Done
            &&& session_payload(last.slots(), t, MAX_PIECES as nat) == payload
            &&& last.sessions().remove(k) == states[0].sessions().remove(k)
            &&& !states[0].sessions().contains_key(k) ==> {
                &&& t.key == TransfersMapKey { kind: id.transfer_kind, source: id.source_node_id }
                &&& t.priority == id.priority
            }
        }),
{
    let n = (states.len() - 1) as nat;
    assert(states[0].wf());
    if payload.len() >= MTU {
        lemma_sliced_crc_ok(payload, tid, MTU as nat);
    }
    assert(n >= 1);
    lemma_round_trip_step(states, id, tid, payload, times, n);
}

} // verus!
