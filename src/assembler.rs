use vstd::prelude::*;

use crate::crc::{crc16, crc16_ccitt_false};
use crate::storage::{
    disjoint, is_list, lemma_filled_count_bound, lemma_list_bytes_kept, lemma_list_bytes_push, lemma_list_extended, list_bytes, lemma_list_kept, lemma_remove_list, removal,
    touches_only, Piece, PiecesStorage,
};
use crate::table::{sessions_of, SessionTable, SESSION_CAPACITY};
use crate::tailbyte::{decodes_tail, Kind, TailByte};
use crate::transfer::{
    key_bits, transition, PayloadKind, State, Transfer, TransferMachine, TransferMachineOutput,
    TransfersMapKey,
};
use crate::types::{CanId, NodeId, Priority, TransferKind};

verus! {

/// Diagnostic counters; they wrap around.
#[derive(Copy, Clone, Debug)]
pub struct Counters {
    pub transfers_with_good_crc: usize,
    pub single_frame_transfers: usize,
    pub transfers_with_bad_crc: usize,
    pub dropped_frames: usize,
}

/// A completed transfer handed to the caller.
pub struct ReadyTransfer<'a> {
    pub source: NodeId,
    pub kind: TransferKind,
    pub priority: Priority,
    pub payload: &'a [u8],
}

/// The full bytes of every piece of the list that starts at `idx`, in order, following at
/// most `fuel` links.
pub open spec fn chain_bytes<const N: usize>(items: Seq<Piece<N>>, idx: int, fuel: nat) -> Seq<u8>
    decreases fuel,
{
    if fuel == 0 || !(0 <= idx < items.len()) || items[idx] is Empty {
        Seq::empty()
    } else if items[idx].next_idx() == idx {
        items[idx].data()
    } else {
        items[idx].data() + chain_bytes(items, items[idx].next_idx() as int, (fuel - 1) as nat)
    }
}

/// Following the links from the first slot of a list reads the bytes of the list.
pub proof fn lemma_chain_bytes_list<const N: usize>(items: Seq<Piece<N>>, list: Seq<int>, fuel: nat)
    requires
        is_list(items, list),
        fuel >= list.len(),
    ensures
        chain_bytes(items, list[0], fuel) == list_bytes(items, list),
    decreases list.len(),
{
    let rest = list.drop_first();
    if list.len() == 1 {
        assert(list.last() == list[0]);
        assert(rest =~= Seq::<int>::empty());
        assert(list_bytes(items, rest) == Seq::<u8>::empty());
        assert(list_bytes(items, list) =~= items[list[0]].data());
    } else {
        assert(items[list[0]].next_idx() == list[1]);
        assert(list[1] != list[0]);
        assert forall|j: int| 0 <= j < rest.len() implies 0 <= #[trigger] rest[j] < items.len()
            && items[rest[j]] is Filled by {
            assert(rest[j] == list[j + 1]);
        }
        assert forall|j: int| 0 <= j < rest.len() - 1 implies items[#[trigger] rest[j]].next_idx()
            == rest[j + 1] by {
            assert(rest[j] == list[j + 1]);
        }
        assert(rest.last() == list.last());
        assert(rest.no_duplicates());
        lemma_chain_bytes_list(items, rest, (fuel - 1) as nat);
    }
}

/// The payload of a session: its pieces, of which the last holds `last_piece_len` bytes.
pub open spec fn session_payload<const N: usize>(items: Seq<Piece<N>>, t: Transfer, fuel: nat) -> Seq<
    u8,
> {
    match t.first_piece_idx {
        None => Seq::empty(),
        Some(first) => {
            let b = chain_bytes(items, first as int, fuel);
            let cut = N - t.last_piece_len;
            if b.len() >= cut {
                b.subrange(0, b.len() - cut)
            } else {
                Seq::empty()
            }
        },
    }
}

/// The kind of a raw frame of `len` bytes, tail byte included.
pub open spec fn payload_kind_of(len: nat, mtu: nat) -> PayloadKind {
    if len == 0 || len > mtu {
        PayloadKind::Invalid
    } else if len == 1 {
        PayloadKind::Empty
    } else if len < mtu {
        PayloadKind::LessThanMTU
    } else {
        PayloadKind::ExactlyMTU
    }
}

/// The tail byte of a raw frame, when its length lets it have one.
pub open spec fn frame_tail(frame: Seq<u8>, mtu: nat) -> Option<TailByte> {
    if 1 <= frame.len() <= mtu {
        Some(choose|t: TailByte| decodes_tail(frame.last(), t))
    } else {
        None
    }
}

/// The CRC that ends a transfer matches: `stored` holds the bytes of the pieces received
/// before, `frame` the last frame with its tail byte. The CRC is the last two bytes of the
/// transfer, most significant first; with one data byte in the last frame, its first byte
/// ends the stored pieces.
pub open spec fn crc_ok(stored: Seq<u8>, frame: Seq<u8>) -> bool {
    let d = frame.len() - 1;
    if d >= 2 {
        crc16_ccitt_false(stored + frame.subrange(0, d - 2)) == ((frame[d - 2] as u16) << 8u16) | (
        frame[d - 1] as u16)
    } else if d == 1 && stored.len() > 0 {
        crc16_ccitt_false(stored.drop_last()) == ((stored.last() as u16) << 8u16) | (
        frame[0] as u16)
    } else {
        false
    }
}

/// How the bytes of a session's pieces change on `frame`, from `before` to `after`, when
/// the frame is stored: a start frame begins them anew, any other stored frame adds a piece
/// of `n` bytes whose first bytes are the frame's data, without the CRC on the last frame.
pub open spec fn content_step(
    t0: Transfer,
    t1: Transfer,
    before: Seq<u8>,
    after: Seq<u8>,
    frame: Seq<u8>,
    mtu: nat,
    n: nat,
) -> bool {
    let tail = frame_tail(frame, mtu);
    let (next, action) = transition(
        t0.transfer_machine.state,
        payload_kind_of(frame.len(), mtu),
        tail,
    );
    let d = frame.len() - 1;
    let starts = tail matches Some(b) && (b.kind == Kind::SingleFrame || b.kind
        == Kind::MultiFrame);
    let base = if starts {
        Seq::<u8>::empty()
    } else {
        before
    };
    &&& action == TransferMachineOutput::Push && t1.transfer_machine.state == next ==> {
        &&& after.len() == base.len() + n
        &&& after.subrange(0, base.len() as int) == base
        &&& after.subrange(base.len() as int, base.len() + d) == frame.subrange(0, d)
    }
    &&& action == TransferMachineOutput::CheckCrcAndPush && t1.transfer_machine.state
        == State::Done ==> if d >= 2 {
        &&& after.len() == before.len() + n
        &&& after.subrange(0, before.len() as int) == before
        &&& after.subrange(before.len() as int, before.len() + d - 2) == frame.subrange(0, d - 2)
        &&& t1.last_piece_len == d - 2
    } else {
        after == before && t1.last_piece_len == n - 1
    }
}

/// The session `t0` became `t1` on `frame`, with `items` the pool before; `pushed` tells
/// whether the pool had room for the frame's data.
pub open spec fn session_step<const N: usize>(
    t0: Transfer,
    t1: Transfer,
    items: Seq<Piece<N>>,
    frame: Seq<u8>,
    mtu: nat,
    max_pieces: nat,
    pushed: bool,
) -> bool {
    let tail = frame_tail(frame, mtu);
    let (next, action) = transition(
        t0.transfer_machine.state,
        payload_kind_of(frame.len(), mtu),
        tail,
    );
    let st = t1.transfer_machine.state;
    &&& t1.key == t0.key
    &&& t1.priority == t0.priority
    &&& t1.sequence_number == t0.sequence_number
    &&& t1.transfer_machine.transfer_id == (match tail {
        Some(b) => Some(b.id),
        None => t0.transfer_machine.transfer_id,
    })
    &&& action == TransferMachineOutput::Ignore ==> st == next && t1.first_piece_idx
        == t0.first_piece_idx && t1.last_piece_idx == t0.last_piece_idx && t1.last_piece_len
        == t0.last_piece_len
    &&& action == TransferMachineOutput::Drop ==> st == State::Failure && t1.first_piece_idx is None
    &&& action == TransferMachineOutput::Push ==> (pushed && st == next && t1.first_piece_idx is Some
        && t1.last_piece_len == frame.len() - 1) || (!pushed && st == State::Failure)
    &&& action == TransferMachineOutput::CheckCrcAndPush ==> {
        let ok = crc_ok(chain_bytes(items, t0.first_piece_idx.unwrap() as int, max_pieces), frame);
        &&& st == State::Done || st == State::Failure
        &&& st == State::Done ==> ok
        &&& ok && pushed ==> st == State::Done
        &&& !ok ==> st == State::Failure && t1.first_piece_idx is None
    }
}

/// The pieces of session `t` are the slots `list`, in order; it is empty when the session
/// has no pieces.
pub open spec fn session_list<const N: usize>(items: Seq<Piece<N>>, t: Transfer, list: Seq<int>) -> bool {
    &&& t.first_piece_idx is None <==> list.len() == 0
    &&& t.first_piece_idx matches Some(f) ==> {
        &&& is_list(items, list)
        &&& list[0] == f as int
        &&& t.last_piece_idx matches Some(l) && list.last() == l as int
    }
}

/// Every slot of `l2` is a slot of `list` or was empty in `old`.
pub open spec fn grown_from<const N: usize>(l2: Seq<int>, list: Seq<int>, old: Seq<Piece<N>>) -> bool {
    forall|i: int|
        #[trigger] l2.contains(i) ==> list.contains(i) || (0 <= i < old.len() && old[i] is Empty)
}

/// When one session's pieces change, and only its slots or empty ones are touched, every
/// other session keeps its list, and the session's new list shares no slot with theirs.
proof fn lemma_sessions_kept<const N: usize>(
    sessions: Map<u32, Transfer>,
    lists: Map<u32, Seq<int>>,
    old: Seq<Piece<N>>,
    new: Seq<Piece<N>>,
    k: u32,
    base: Seq<int>,
    l2: Seq<int>,
)
    requires
        forall|j: u32| #[trigger]
            sessions.contains_key(j) ==> lists.contains_key(j) && session_list(
                old,
                sessions[j],
                lists[j],
            ),
        forall|j1: u32, j2: u32|
            #[trigger] sessions.contains_key(j1) && #[trigger] sessions.contains_key(j2) && j1 != j2
                ==> disjoint(lists[j1], lists[j2]),
        base == (if sessions.contains_key(k) {
            lists[k]
        } else {
            Seq::<int>::empty()
        }),
        touches_only(old, new, base),
        grown_from(l2, base, old),
    ensures
        forall|j: u32| #[trigger]
            sessions.contains_key(j) && j != k ==> session_list(new, sessions[j], lists[j])
                && disjoint(l2, lists[j]) && disjoint(lists[j], l2) && list_bytes(new, lists[j])
                == list_bytes(old, lists[j]),
{
    assert forall|j: u32| #[trigger] sessions.contains_key(j) && j != k implies session_list(
        new,
        sessions[j],
        lists[j],
    ) && disjoint(l2, lists[j]) && disjoint(lists[j], l2) && list_bytes(new, lists[j])
        == list_bytes(old, lists[j]) by {
        let other = lists[j];
        assert(disjoint(base, other)) by {
            if sessions.contains_key(k) {
                assert(disjoint(lists[k], lists[j]));
            }
        }
        if sessions[j].first_piece_idx is Some {
            lemma_list_kept(old, new, base, other);
            lemma_list_bytes_kept(old, new, other);
            assert forall|i: int| #[trigger] other.contains(i) implies !l2.contains(i) by {
                let x = choose|x: int| 0 <= x < other.len() && other[x] == i;
                assert(old[other[x]] is Filled);
            }
        }
        assert forall|i: int| #[trigger] l2.contains(i) implies !other.contains(i) by {
            if other.contains(i) {
                let x = choose|x: int| 0 <= x < other.len() && other[x] == i;
                assert(old[other[x]] is Filled);
            }
        }
    }
}

/// Every slot filled in `new` is a slot of `l2`, or lies outside `list` and kept its piece.
pub open spec fn covered<const N: usize>(
    old: Seq<Piece<N>>,
    new: Seq<Piece<N>>,
    list: Seq<int>,
    l2: Seq<int>,
) -> bool {
    forall|i: int|
        0 <= i < new.len() && #[trigger] new[i] is Filled ==> l2.contains(i) || (!list.contains(i)
            && new[i] == old[i])
}

proof fn lemma_covered_compose<const N: usize>(
    a: Seq<Piece<N>>,
    b: Seq<Piece<N>>,
    c: Seq<Piece<N>>,
    l: Seq<int>,
    l2: Seq<int>,
)
    requires
        a.len() == b.len(),
        b.len() == c.len(),
        covered(a, b, l, Seq::<int>::empty()),
        covered(b, c, Seq::<int>::empty(), l2),
    ensures
        covered(a, c, l, l2),
{
    assert forall|i: int| 0 <= i < c.len() && #[trigger] c[i] is Filled implies l2.contains(i) || (
    !l.contains(i) && c[i] == a[i]) by {
        if !l2.contains(i) {
            assert(b[i] is Filled);
            assert(!Seq::<int>::empty().contains(i));
        }
    }
}

/// Every filled slot belongs to the list of some session.
#[verifier::opaque]
pub open spec fn owned<const N: usize>(
    items: Seq<Piece<N>>,
    sessions: Map<u32, Transfer>,
    lists: Map<u32, Seq<int>>,
) -> bool {
    forall|i: int|
        0 <= i < items.len() && #[trigger] items[i] is Filled ==> exists|j: u32|
            sessions.contains_key(j) && #[trigger] lists[j].contains(i)
}

/// When only session `k`'s pieces change, as `covered` says, every filled slot keeps an
/// owner.
proof fn lemma_owned_kept<const N: usize>(
    old: Seq<Piece<N>>,
    new: Seq<Piece<N>>,
    sessions: Map<u32, Transfer>,
    lists: Map<u32, Seq<int>>,
    new_sessions: Map<u32, Transfer>,
    new_lists: Map<u32, Seq<int>>,
    k: u32,
    base: Seq<int>,
    l2: Seq<int>,
)
    requires
        old.len() == new.len(),
        owned(old, sessions, lists),
        base == (if sessions.contains_key(k) {
            lists[k]
        } else {
            Seq::<int>::empty()
        }),
        covered(old, new, base, l2),
        forall|j: u32|
            #[trigger] sessions.contains_key(j) && j != k ==> new_sessions.contains_key(j)
                && new_lists[j] == lists[j],
        l2.len() > 0 ==> new_sessions.contains_key(k) && new_lists[k] == l2,
    ensures
        owned(new, new_sessions, new_lists),
{
    reveal(owned);
    assert forall|i: int| 0 <= i < new.len() && #[trigger] new[i] is Filled implies exists|j: u32|
        new_sessions.contains_key(j) && #[trigger] new_lists[j].contains(i) by {
        assert(l2.contains(i) || (!base.contains(i) && new[i] == old[i]));
        if l2.contains(i) {
            assert(new_lists[k].contains(i));
        } else {
            assert(old[i] is Filled);
            let j = choose|j: u32| sessions.contains_key(j) && #[trigger] lists[j].contains(i);
            assert(j != k);
            assert(new_sessions.contains_key(j));
            assert(new_lists[j].contains(i));
        }
    }
}

proof fn lemma_touches_compose<const N: usize>(
    a: Seq<Piece<N>>,
    b: Seq<Piece<N>>,
    c: Seq<Piece<N>>,
    l: Seq<int>,
    m: Seq<int>,
)
    requires
        touches_only(a, b, l),
        touches_only(b, c, m),
        forall|i: int| #[trigger] m.contains(i) ==> l.contains(i),
    ensures
        touches_only(a, c, l),
{
    assert forall|i: int| 0 <= i < a.len() && #[trigger] c[i] != a[i] implies l.contains(i)
        || a[i] is Empty by {
        if b[i] != a[i] {
        } else {
            assert(c[i] != b[i]);
        }
    }
}

proof fn lemma_grown_compose<const N: usize>(
    a: Seq<Piece<N>>,
    b: Seq<Piece<N>>,
    l: Seq<int>,
    mid: Seq<int>,
    l2: Seq<int>,
)
    requires
        touches_only(a, b, l),
        grown_from(mid, l, a),
        grown_from(l2, mid, b),
    ensures
        grown_from(l2, l, a),
{
    assert forall|i: int| #[trigger] l2.contains(i) implies l.contains(i) || (0 <= i < a.len()
        && a[i] is Empty) by {
        if mid.contains(i) {
        } else {
            assert(b[i] is Empty);
            if b[i] != a[i] {
            }
        }
    }
}

/// `x + 1`, wrapping around.
pub open spec fn inc(x: usize) -> usize {
    if x == usize::MAX {
        0
    } else {
        (x + 1) as usize
    }
}

/// How the counters change on a frame whose machine asked for `action` and left the
/// session in `st`; `pushed` tells whether the pool had room, `ok` whether the CRC matched.
pub open spec fn counters_step(
    c0: Counters,
    c1: Counters,
    action: TransferMachineOutput,
    st: State,
    pushed: bool,
    ok: bool,
) -> bool {
    match action {
        TransferMachineOutput::Ignore => c1 == c0,
        TransferMachineOutput::Drop => c1 == Counters { dropped_frames: inc(c0.dropped_frames), ..c0 },
        TransferMachineOutput::Push => if !pushed {
            c1 == Counters { dropped_frames: inc(c0.dropped_frames), ..c0 }
        } else if st == State::Done {
            c1 == Counters { single_frame_transfers: inc(c0.single_frame_transfers), ..c0 }
        } else {
            c1 == c0
        },
        TransferMachineOutput::CheckCrcAndPush => if !ok {
            c1 == Counters { transfers_with_bad_crc: inc(c0.transfers_with_bad_crc), ..c0 }
        } else if pushed {
            c1 == Counters { transfers_with_good_crc: inc(c0.transfers_with_good_crc), ..c0 }
        } else {
            c1 == Counters {
                transfers_with_good_crc: inc(c0.transfers_with_good_crc),
                dropped_frames: inc(c0.dropped_frames),
                ..c0
            }
        },
    }
}

/// `a` was sent before `b`: their wrapping difference is negative.
pub open spec fn older(a: i16, b: i16) -> bool {
    let d = a - b;
    (if d > i16::MAX {
        d - 0x1_0000
    } else if d < i16::MIN {
        d + 0x1_0000
    } else {
        d
    }) < 0
}

/// How far sequence number `s` lies after `base`, counting forward with wrap-around.
pub open spec fn seq_offset(s: i16, base: i16) -> int {
    if s >= base {
        s - base
    } else {
        s - base + 0x1_0000
    }
}

/// `s` lies less than half a turn after `base`.
pub open spec fn in_window(s: i16, base: i16) -> bool {
    seq_offset(s, base) < 0x8000
}

/// Within half a turn, "sent before" is the order of the offsets.
pub proof fn lemma_older_in_window(a: i16, b: i16, base: i16)
    requires
        in_window(a, base),
        in_window(b, base),
    ensures
        older(a, b) <==> seq_offset(a, base) < seq_offset(b, base),
{
}

/// Session `j` is completed and of priority `p`.
pub open spec fn ready_with(sessions: Map<u32, Transfer>, p: Priority, j: u32) -> bool {
    &&& sessions.contains_key(j)
    &&& sessions[j].transfer_machine.state == State::Done
    &&& sessions[j].priority == p
}

/// The completed sessions of priority `p` lie within half a turn after `base`.
pub open spec fn window_of(sessions: Map<u32, Transfer>, p: Priority, base: i16) -> bool {
    forall|j: u32| #[trigger] ready_with(sessions, p, j) ==> in_window(sessions[j].sequence_number, base)
}

/// No completed session of priority `p` was sent before sequence number `seq`.
pub open spec fn oldest_of(sessions: Map<u32, Transfer>, p: Priority, seq: i16) -> bool {
    forall|j: u32| #[trigger] ready_with(sessions, p, j) ==> !older(sessions[j].sequence_number, seq)
}

/// The completed sessions of priority `p` among the sessions of `keys[..n]`.
pub open spec fn ready_in(sessions: Map<u32, Transfer>, keys: Seq<u32>, n: int, p: Priority, j: int) -> bool {
    &&& 0 <= j < n
    &&& sessions[keys[j]].transfer_machine.state == State::Done
    &&& sessions[keys[j]].priority == p
}

pub open spec fn class_in_window(
    sessions: Map<u32, Transfer>,
    keys: Seq<u32>,
    n: int,
    p: Priority,
    base: i16,
) -> bool {
    forall|j: int| #[trigger] ready_in(sessions, keys, n, p, j) ==> in_window(
        sessions[keys[j]].sequence_number,
        base,
    )
}

pub open spec fn none_older(
    sessions: Map<u32, Transfer>,
    keys: Seq<u32>,
    n: int,
    p: Priority,
    seq: i16,
) -> bool {
    forall|j: int| #[trigger] ready_in(sessions, keys, n, p, j) ==> !older(
        sessions[keys[j]].sequence_number,
        seq,
    )
}

/// The list indices of `t` agree with each other and stay inside the pool.
pub open spec fn pieces_wf(t: Transfer, mtu_m1: nat, max_pieces: nat) -> bool {
    &&& t.first_piece_idx is Some <==> t.last_piece_idx is Some
    &&& t.first_piece_idx matches Some(i) ==> i < max_pieces
    &&& t.last_piece_idx matches Some(i) ==> i < max_pieces
    &&& t.last_piece_len <= mtu_m1
}

/// `pieces_wf`, and a session in the middle of a transfer has pieces.
pub open spec fn session_wf(t: Transfer, mtu_m1: nat, max_pieces: nat) -> bool {
    &&& pieces_wf(t, mtu_m1, max_pieces)
    &&& (t.transfer_machine.state == State::AssemblingT0 || t.transfer_machine.state
        == State::AssemblingT1) ==> t.first_piece_idx is Some
}

/// The session for `key` has timed out at `time_now`.
pub open spec fn outdated(t: Transfer, time_now: u32, lifetime: u32) -> bool {
    let d = time_now - t.last_changed_timestamp;
    (if d < 0 {
        d + 0x1_0000_0000
    } else {
        d
    }) > lifetime
}

proof fn lemma_remove_keeps_submap(m: Map<u32, Transfer>, whole: Map<u32, Transfer>, k: u32)
    requires
        m.submap_of(whole),
    ensures
        m.remove(k).submap_of(whole),
{
    assert forall|j: u32| #[trigger] m.remove(k).dom().contains(j) implies whole.dom().contains(j)
        && m.remove(k)[j] == whole[j] by {
        assert(m.dom().contains(j));
    }
}

/// Reassembles transfers from frames: one session per transfer kind and source node, a
/// shared pool of `MAX_PIECES` pieces of `MTU_M1` bytes, and a readout in priority order.
pub struct Assembler<
    const MTU: usize,
    const MTU_M1: usize,
    const MAX_PIECES: usize,
    const MAX_TRANSFERS: usize,
    const TRANSFER_LIFETIME: u32,
> {
    pub(crate) transfers: SessionTable,
    pub(crate) storage: PiecesStorage<MTU_M1, MAX_PIECES>,
    pub(crate) latest_sequence_number: i16,
    pub(crate) counters: Counters,
    /// The slots of each session's pieces, in order.
    pub(crate) lists: Ghost<Map<u32, Seq<int>>>,
}

impl<
    const MTU: usize,
    const MTU_M1: usize,
    const MAX_PIECES: usize,
    const MAX_TRANSFERS: usize,
    const TRANSFER_LIFETIME: u32,
> Assembler<MTU, MTU_M1, MAX_PIECES, MAX_TRANSFERS, TRANSFER_LIFETIME> {
    /// The sessions, keyed by `key_bits` of their key.
    pub open(crate) spec fn sessions(&self) -> Map<u32, Transfer> {
        sessions_of(self.transfers)
    }

    pub open(crate) spec fn slots(&self) -> Seq<Piece<MTU_M1>> {
        self.storage.slots()
    }

    /// The bytes of every piece of session `k`, in order.
    pub open(crate) spec fn pieces_of(&self, k: u32) -> Seq<u8> {
        list_bytes(self.slots(), self.lists@[k])
    }

    pub open(crate) spec fn used_pieces(&self) -> nat {
        self.storage.used_count()
    }

    /// Session `k` holds a completed transfer.
    pub open(crate) spec fn is_ready(&self, k: u32) -> bool {
        self.sessions().contains_key(k) && self.sessions()[k].transfer_machine.state == State::Done
    }

    /// Session `k` is the completed one to read out first: no completed session has a higher
    /// priority, and none of its priority was sent before it when their sequence numbers lie
    /// within half a turn.
    pub open(crate) spec fn read_first(&self, k: u32) -> bool {
        let t = self.sessions()[k];
        &&& self.is_ready(k)
        &&& forall|j: u32| #[trigger]
            self.is_ready(j) ==> !self.sessions()[j].priority.higher_than(t.priority)
        &&& forall|base: i16|
            #[trigger] window_of(self.sessions(), t.priority, base) ==> oldest_of(
                self.sessions(),
                t.priority,
                t.sequence_number,
            )
    }

    /// How many pieces session `k` holds.
    pub open(crate) spec fn list_len(&self, k: u32) -> nat {
        self.lists@[k].len()
    }

    /// Session `k`, which held pieces in `self`, is gone in `next`.
    pub open(crate) spec fn evicted_with_pieces(&self, next: Self, k: u32) -> bool {
        &&& self.sessions().contains_key(k)
        &&& !next.sessions().contains_key(k)
        &&& self.list_len(k) > 0
    }

    pub open(crate) spec fn latest_sequence(&self) -> i16 {
        self.latest_sequence_number
    }

    pub open(crate) spec fn counters_view(&self) -> Counters {
        self.counters
    }

    pub open(crate) spec fn wf(&self) -> bool {
        &&& MTU == MTU_M1 + 1
        &&& 1 <= MTU_M1 <= 255
        &&& MAX_TRANSFERS <= SESSION_CAPACITY
        &&& self.storage.wf()
        &&& self.sessions().dom().finite()
        &&& self.sessions().len() <= MAX_TRANSFERS
        &&& forall|k: u32| #[trigger]
            self.sessions().contains_key(k) ==> session_wf(
                self.sessions()[k],
                MTU_M1 as nat,
                MAX_PIECES as nat,
            ) && key_bits(self.sessions()[k].key) == k && self.lists@.contains_key(k)
                && session_list(self.slots(), self.sessions()[k], self.lists@[k])
        &&& forall|k1: u32, k2: u32|
            #[trigger] self.sessions().contains_key(k1) && #[trigger] self.sessions().contains_key(k2)
                && k1 != k2 ==> disjoint(self.lists@[k1], self.lists@[k2])
        &&& owned(self.slots(), self.sessions(), self.lists@)
    }

    pub fn new() -> (r: Self)
        requires
            MTU == MTU_M1 + 1,
            1 <= MTU_M1 <= 255,
            MAX_TRANSFERS <= SESSION_CAPACITY,
            MAX_PIECES <= u16::MAX,
        ensures
            r.wf(),
            r.sessions().is_empty(),
            r.used_pieces() == 0,
    {
        let r = Assembler {
            transfers: SessionTable::new(),
            storage: PiecesStorage::new(),
            latest_sequence_number: 0,
            counters: Counters {
                transfers_with_good_crc: 0,
                single_frame_transfers: 0,
                transfers_with_bad_crc: 0,
                dropped_frames: 0,
            },
            lists: Ghost(Map::empty()),
        };
        proof {
            reveal(owned);
        }
        r
    }

    pub fn counters(&self) -> (r: Counters)
        ensures
            r == self.counters_view(),
    {
        self.counters
    }

    /// How many sessions are open.
    pub fn transfers_len(&self) -> (r: usize)
        ensures
            r == self.sessions().len(),
    {
        self.transfers.len()
    }

    /// How many pieces are stored.
    pub fn pieces_len(&self) -> (r: usize)
        ensures
            r == self.used_pieces(),
    {
        self.storage.len()
    }

    /// `next` is `self` after the sweep of sessions that timed out at `now`.
    pub open(crate) spec fn swept(&self, next: Self, now: u32) -> bool {
        &&& next.wf()
        &&& next.sessions().submap_of(self.sessions())
        &&& forall|k: u32|
            self.sessions().contains_key(k) && !next.sessions().contains_key(k)
                ==> #[trigger] outdated(self.sessions()[k], now, TRANSFER_LIFETIME)
        &&& next.used_pieces() <= self.used_pieces()
        &&& next.latest_sequence_number == self.latest_sequence_number
        &&& next.counters == self.counters
    }

    /// The session that a frame from `id` at `now` goes to: the open one, or a fresh one.
    pub open(crate) spec fn session_for(&self, id: CanId, now: u32) -> Transfer {
        let key = TransfersMapKey { kind: id.transfer_kind, source: id.source_node_id };
        let k = key_bits(key);
        if self.sessions().contains_key(k) {
            self.sessions()[k]
        } else {
            Transfer {
                key,
                transfer_machine: TransferMachine { state: State::Empty, transfer_id: None },
                first_piece_idx: None,
                last_piece_idx: None,
                last_piece_len: 0,
                priority: id.priority,
                sequence_number: self.latest_sequence_number,
                last_changed_timestamp: now,
            }
        }
    }

    /// `next` is `self` after it took `frame` from `id` at `now`: the frame goes to the
    /// session of its transfer kind and source, opened for it if there is room, and drives
    /// that session alone; when no session can be opened the frame is counted as dropped.
    pub open(crate) spec fn accepts(&self, next: Self, id: CanId, frame: Seq<u8>, now: u32) -> bool {
        let key = TransfersMapKey { kind: id.transfer_kind, source: id.source_node_id };
        let k = key_bits(key);
        let s0 = self.sessions();
        if !s0.contains_key(k) && s0.len() >= MAX_TRANSFERS {
            &&& next.sessions() == s0
            &&& next.storage == self.storage
            &&& next.latest_sequence_number == self.latest_sequence_number
            &&& next.counters == Counters {
                dropped_frames: inc(self.counters.dropped_frames),
                ..self.counters
            }
        } else {
            let prev = self.session_for(id, now);
            let t = next.sessions()[k];
            let (_, action) = transition(
                prev.transfer_machine.state,
                payload_kind_of(frame.len(), MTU as nat),
                frame_tail(frame, MTU as nat),
            );
            let ok = crc_ok(
                chain_bytes(self.slots(), prev.first_piece_idx.unwrap() as int, MAX_PIECES as nat),
                frame,
            );
            let list = if s0.contains_key(k) {
                self.lists@[k]
            } else {
                Seq::<int>::empty()
            };
            &&& next.sessions() == s0.insert(k, t)
            &&& content_step(
                prev,
                t,
                list_bytes(self.slots(), list),
                list_bytes(next.slots(), next.lists@[k]),
                frame,
                MTU as nat,
                MTU_M1 as nat,
            )
            &&& t.last_changed_timestamp == now
            &&& exists|pushed: bool|
                #[trigger] session_step(
                    prev,
                    t,
                    self.slots(),
                    frame,
                    MTU as nat,
                    MAX_PIECES as nat,
                    pushed,
                ) && (!pushed ==> self.used_pieces() == MAX_PIECES) && counters_step(
                    self.counters,
                    next.counters,
                    action,
                    t.transfer_machine.state,
                    pushed,
                    ok,
                )
            &&& action == TransferMachineOutput::Drop ==> next.used_pieces() + list.len()
                == self.used_pieces()
            &&& next.used_pieces() <= self.used_pieces() + 1
            &&& forall|j: u32|
                s0.contains_key(j) && j != k ==> #[trigger] next.pieces_of(j) == self.pieces_of(j)
                    && next.lists@[j] == self.lists@[j]
            &&& next.latest_sequence_number == (if s0.contains_key(k) {
                self.latest_sequence_number
            } else if self.latest_sequence_number == i16::MAX {
                i16::MIN
            } else {
                (self.latest_sequence_number + 1) as i16
            })
        }
    }

    /// Feeds one frame, tail byte included, received with identifier `id` at `time_now`.
    /// When the pool is full, sessions that timed out are swept first.
    pub fn process_frame(&mut self, id: CanId, payload: &[u8], time_now: u32)
        requires
            old(self).wf(),
        ensures
            final(self).wf(),
            old(self).used_pieces() < MAX_PIECES ==> old(self).accepts(
                *final(self),
                id,
                payload@,
                time_now,
            ),
            old(self).used_pieces() >= MAX_PIECES ==> exists|mid: Self|
                old(self).swept(mid, time_now) && #[trigger] mid.accepts(
                    *final(self),
                    id,
                    payload@,
                    time_now,
                ),
    {
        let ghost start = *self;
        // Free space held by sessions that timed out.
        if self.storage.len() == MAX_PIECES {
            self.remove_outdated_transfers(time_now);
        }
        let ghost mid = *self;
        let key = TransfersMapKey::from_can_id(id);
        assert(key == TransfersMapKey { kind: id.transfer_kind, source: id.source_node_id });
        let kbits = key.to_bits();
        let mut transfer = match self.transfers.get(kbits) {
            Some(t) => t,
            None => {
                if self.transfers.len() >= MAX_TRANSFERS {
                    // No room for another session.
                    self.counters.dropped_frames = self.counters.dropped_frames.wrapping_add(1);
                    proof {
                        assert(mid.accepts(*self, id, payload@, time_now));
                    }
                    return ;
                }
                let t = Transfer::new(key, id.priority, self.latest_sequence_number, time_now);
                self.latest_sequence_number = self.latest_sequence_number.wrapping_add(1);
                t
            },
        };
        let ghost prev = transfer;
        transfer.last_changed_timestamp = time_now;
        let ghost stamped = transfer;
        let ghost base = if self.sessions().contains_key(kbits) {
            self.lists@[kbits]
        } else {
            Seq::<int>::empty()
        };
        let ghost sessions_before = self.sessions();
        let ghost slots_before = self.slots();
        let res = Self::drive_state_machine(
            &mut self.storage,
            &mut transfer,
            payload,
            &mut self.counters,
            Ghost(base),
        );
        let ghost l2 = choose|l2: Seq<int>|
            session_list(self.slots(), transfer, l2) && #[trigger] grown_from(l2, base, slots_before)
                && content_step(
                stamped,
                transfer,
                list_bytes(slots_before, base),
                list_bytes(self.slots(), l2),
                payload@,
                MTU as nat,
                MTU_M1 as nat,
            ) && covered(slots_before, self.slots(), base, l2);
        let ghost lists_before = self.lists@;
        proof {
            lemma_sessions_kept(
                sessions_before,
                self.lists@,
                slots_before,
                self.slots(),
                kbits,
                base,
                l2,
            );
        }
        self.lists = Ghost(self.lists@.insert(kbits, l2));
        // The table holds at most `MAX_TRANSFERS` sessions, below its capacity, so the
        // insert succeeds.
        let ok = self.transfers.insert(kbits, transfer);
        assert(ok);
        proof {
            lemma_owned_kept(
                slots_before,
                self.slots(),
                sessions_before,
                lists_before,
                self.sessions(),
                self.lists@,
                kbits,
                base,
                l2,
            );
            assert(self.sessions()[kbits] == transfer);
            assert(session_step(
                stamped,
                transfer,
                mid.slots(),
                payload@,
                MTU as nat,
                MAX_PIECES as nat,
                res is Ok,
            ));
            assert(session_step(
                prev,
                transfer,
                mid.slots(),
                payload@,
                MTU as nat,
                MAX_PIECES as nat,
                res is Ok,
            ));
            assert(prev == mid.session_for(id, time_now));
            assert(mid.accepts(*self, id, payload@, time_now));
        }
    }

    /// Frees the list of `transfer` and forgets it.
    fn drop_pieces(
        storage: &mut PiecesStorage<MTU_M1, MAX_PIECES>,
        transfer: &mut Transfer,
        list: Ghost<Seq<int>>,
    ) -> (r: u16)
        requires
            old(storage).wf(),
            pieces_wf(*old(transfer), MTU_M1 as nat, MAX_PIECES as nat),
            session_list(old(storage).slots(), *old(transfer), list@),
        ensures
            final(storage).wf(),
            touches_only(old(storage).slots(), final(storage).slots(), list@),
            r as nat + final(storage).used_count() == old(storage).used_count(),
            r == list@.len(),
            list@.len() == 0 ==> *final(storage) == *old(storage),
            forall|i: int|
                0 <= i < MAX_PIECES && #[trigger] final(storage).slots()[i] is Filled ==> !list@.contains(i)
                    && final(storage).slots()[i] == old(storage).slots()[i],
            *final(transfer) == (Transfer {
                first_piece_idx: None,
                last_piece_idx: None,
                ..*old(transfer)
            }),
    {
        let ghost before = storage.slots();
        let mut removed: u16 = 0;
        match transfer.first_piece_idx {
            Some(idx) => {
                proof {
                    lemma_remove_list(before, list@, list@.len());
                    lemma_remove_list(before, list@, storage.used_count() + 1);
                }
                let ghost fuel = storage.used_count() + 1;
                removed = storage.remove_all(idx);
                proof {
                    assert forall|i: int|
                        0 <= i < before.len() && #[trigger] storage.slots()[i] != before[i] implies list@.contains(
                        i,
                    ) || before[i] is Empty by {
                        assert(removal(before, idx as int, fuel).0[i] == storage.slots()[i]);
                    }
                    assert forall|i: int|
                        0 <= i < MAX_PIECES && #[trigger] storage.slots()[i] is Filled implies !list@.contains(
                        i,
                    ) && storage.slots()[i] == before[i] by {
                        assert(removal(before, idx as int, fuel).0[i] == storage.slots()[i]);
                    }
                }
            },
            None => {},
        }
        transfer.first_piece_idx = None;
        transfer.last_piece_idx = None;
        removed
    }

    /// Appends the full bytes of the list that starts at `first` to `out`.
    fn gather(storage: &PiecesStorage<MTU_M1, MAX_PIECES>, first: u16, out: &mut Vec<u8>)
        requires
            storage.wf(),
        ensures
            final(out)@ == old(out)@ + chain_bytes(
                storage.slots(),
                first as int,
                MAX_PIECES as nat,
            ),
    {
        let mut it = storage.traverse(first);
        let mut steps: usize = 0;
        let ghost start = old(out)@;
        while steps < MAX_PIECES
            invariant
                steps <= MAX_PIECES,
                it.slots() == storage.slots(),
                storage.slots().len() == MAX_PIECES,
                match it.position() {
                    Some(i) => out@ + chain_bytes(
                        storage.slots(),
                        i as int,
                        (MAX_PIECES - steps) as nat,
                    ) == start + chain_bytes(storage.slots(), first as int, MAX_PIECES as nat),
                    None => out@ == start + chain_bytes(
                        storage.slots(),
                        first as int,
                        MAX_PIECES as nat,
                    ),
                },
            ensures
                it.position() is None || steps == MAX_PIECES,
                match it.position() {
                    Some(i) => out@ + chain_bytes(
                        storage.slots(),
                        i as int,
                        (MAX_PIECES - steps) as nat,
                    ) == start + chain_bytes(storage.slots(), first as int, MAX_PIECES as nat),
                    None => out@ == start + chain_bytes(
                        storage.slots(),
                        first as int,
                        MAX_PIECES as nat,
                    ),
                },
            decreases MAX_PIECES - steps,
        {
            let ghost before = it.position();
            match it.next() {
                None => {
                    proof {
                        if let Some(i) = before {
                            assert(chain_bytes(
                                storage.slots(),
                                i as int,
                                (MAX_PIECES - steps) as nat,
                            ) =~= Seq::<u8>::empty());
                            assert(out@ =~= out@ + Seq::<u8>::empty());
                        }
                    }
                    break ;
                },
                Some((chunk, is_last)) => {
                    let ghost prev = out@;
                    let mut j: usize = 0;
                    while j < chunk.len()
                        invariant
                            j <= chunk@.len(),
                            out@ == prev + chunk@.subrange(0, j as int),
                        decreases chunk@.len() - j,
                    {
                        out.push(chunk[j]);
                        proof {
                            assert(chunk@.subrange(0, j + 1) =~= chunk@.subrange(0, j as int).push(
                                chunk[j as int],
                            ));
                        }
                        j = j + 1;
                    }
                    proof {
                        assert(chunk@.subrange(0, chunk@.len() as int) =~= chunk@);
                        let i = before.unwrap();
                        if is_last {
                            assert(chain_bytes(
                                storage.slots(),
                                i as int,
                                (MAX_PIECES - steps) as nat,
                            ) == chunk@);
                        } else {
                            assert((prev + chunk@) + chain_bytes(
                                storage.slots(),
                                it.position().unwrap() as int,
                                (MAX_PIECES - steps - 1) as nat,
                            ) =~= prev + (chunk@ + chain_bytes(
                                storage.slots(),
                                it.position().unwrap() as int,
                                (MAX_PIECES - steps - 1) as nat,
                            )));
                        }
                    }
                },
            }
            steps = steps + 1;
        }
        proof {
            if let Some(i) = it.position() {
                assert(chain_bytes(
                    storage.slots(),
                    i as int,
                    (MAX_PIECES - steps) as nat,
                ) =~= Seq::<u8>::empty());
                assert(out@ =~= out@ + Seq::<u8>::empty());
            }
        }
    }

    /// Stores `data` as the next piece of `transfer`, `len` bytes of which count.
    fn push_piece(
        storage: &mut PiecesStorage<MTU_M1, MAX_PIECES>,
        transfer: &mut Transfer,
        data: [u8; MTU_M1],
        len: u8,
        list: Ghost<Seq<int>>,
    ) -> (r: Result<(), ()>)
        requires
            old(storage).wf(),
            pieces_wf(*old(transfer), MTU_M1 as nat, MAX_PIECES as nat),
            session_list(old(storage).slots(), *old(transfer), list@),
            len <= MTU_M1,
        ensures
            final(storage).wf(),
            touches_only(old(storage).slots(), final(storage).slots(), list@),
            exists|l2: Seq<int>|
                session_list(final(storage).slots(), *final(transfer), l2) && #[trigger] grown_from(
                    l2,
                    list@,
                    old(storage).slots(),
                ) && list_bytes(final(storage).slots(), l2) == list_bytes(old(storage).slots(), list@)
                    + (if r is Ok {
                    data@
                } else {
                    Seq::<u8>::empty()
                }) && covered(old(storage).slots(), final(storage).slots(), list@, l2),
            r is Err ==> *final(transfer) == *old(transfer),
            r is Ok ==> final(storage).used_count() == old(storage).used_count() + 1,
            r is Err ==> old(storage).used_count() == MAX_PIECES && *final(storage) == *old(storage),
            pieces_wf(*final(transfer), MTU_M1 as nat, MAX_PIECES as nat),
            final(transfer).key == old(transfer).key,
            final(transfer).priority == old(transfer).priority,
            final(transfer).sequence_number == old(transfer).sequence_number,
            final(transfer).last_changed_timestamp == old(transfer).last_changed_timestamp,
            final(transfer).transfer_machine == old(transfer).transfer_machine,
            r is Ok ==> final(transfer).first_piece_idx is Some && final(transfer).last_piece_len
                == len,
    {
        let ghost before = storage.slots();
        proof {
            if list@.len() > 0 {
                assert(before[list@[list@.len() - 1]] is Filled);
            }
        }
        match transfer.last_piece_idx {
            Some(idx) => match storage.push_after(data, idx) {
                Ok(new_idx) => {
                    transfer.last_piece_idx = Some(new_idx);
                    transfer.last_piece_len = len;
                    proof {
                        lemma_list_extended(before, list@, new_idx as int, data);
                        let l2 = list@.push(new_idx as int);
                        lemma_list_bytes_push(storage.slots(), list@, new_idx as int);
                        assert forall|j: int| 0 <= j < list@.len() implies storage.slots()[
                            #[trigger] list@[j]].data() == before[list@[j]].data() by {
                            assert(list@[j] != new_idx as int);
                        }
                        lemma_list_bytes_kept(before, storage.slots(), list@);
                        assert(list_bytes(storage.slots(), l2) == list_bytes(before, list@) + data@);
                        assert(l2[0] == list@[0]);
                        assert(grown_from(l2, list@, before));
                        assert(l2.last() == new_idx as int);
                        assert(list@.last() == idx as int);
                        assert forall|i: int|
                            0 <= i < before.len() && #[trigger] storage.slots()[i] != before[i] implies list@.contains(
                            i,
                        ) || before[i] is Empty by {
                            if i != new_idx as int {
                                assert(i == idx as int);
                                assert(list@.contains(list@[list@.len() - 1]));
                            }
                        }
                        assert forall|i: int|
                            0 <= i < storage.slots().len() && #[trigger] storage.slots()[i] is Filled implies l2.contains(
                            i,
                        ) || (!list@.contains(i) && storage.slots()[i] == before[i]) by {
                            if i == new_idx as int {
                                assert(l2[list@.len() as int] == i);
                            } else if list@.contains(i) {
                                let x = choose|x: int| 0 <= x < list@.len() && list@[x] == i;
                                assert(l2[x] == i);
                            } else if i == idx as int {
                                assert(list@.contains(list@[list@.len() - 1]));
                            }
                        }
                    }
                    Ok(())
                },
                Err(_) => {
                    proof {
                        assert(grown_from(list@, list@, before));
                        assert(list_bytes(storage.slots(), list@) =~= list_bytes(before, list@)
                            + Seq::<u8>::empty());
                        assert(covered(before, storage.slots(), list@, list@));
                    }
                    Err(())
                },
            },
            None => match storage.push(data) {
                Ok(new_idx) => {
                    transfer.first_piece_idx = Some(new_idx);
                    transfer.last_piece_idx = Some(new_idx);
                    transfer.last_piece_len = len;
                    proof {
                        let l2 = seq![new_idx as int];
                        assert(l2.last() == new_idx as int);
                        assert(is_list(storage.slots(), l2));
                        assert(grown_from(l2, list@, before));
                        assert(list@.len() == 0);
                        assert(list_bytes(before, list@) == Seq::<u8>::empty());
                        lemma_list_bytes_push(storage.slots(), Seq::<int>::empty(), new_idx as int);
                        assert(Seq::<int>::empty().push(new_idx as int) =~= l2);
                        assert(list_bytes(storage.slots(), Seq::<int>::empty()) == Seq::<u8>::empty());
                        assert(list_bytes(storage.slots(), l2) =~= list_bytes(before, list@) + data@);
                        assert forall|i: int|
                            0 <= i < storage.slots().len() && #[trigger] storage.slots()[i] is Filled implies l2.contains(
                            i,
                        ) || (!list@.contains(i) && storage.slots()[i] == before[i]) by {
                            if i == new_idx as int {
                                assert(l2[0] == i);
                            }
                        }
                    }
                    Ok(())
                },
                Err(_) => {
                    proof {
                        assert(grown_from(list@, list@, before));
                        assert(list_bytes(storage.slots(), list@) =~= list_bytes(before, list@)
                            + Seq::<u8>::empty());
                        assert(covered(before, storage.slots(), list@, list@));
                    }
                    Err(())
                },
            },
        }
    }

    /// Drives the session `transfer` with one frame and acts on what its machine says.
    /// An `Err` means the pool had no room for the frame; the session has then failed.
    #[verifier::rlimit(80)]
    #[verifier::spinoff_prover]
    fn drive_state_machine(
        storage: &mut PiecesStorage<MTU_M1, MAX_PIECES>,
        transfer: &mut Transfer,
        payload: &[u8],
        counters: &mut Counters,
        list: Ghost<Seq<int>>,
    ) -> (r: Result<(), ()>)
        requires
            old(storage).wf(),
            session_wf(*old(transfer), MTU_M1 as nat, MAX_PIECES as nat),
            session_list(old(storage).slots(), *old(transfer), list@),
            MTU == MTU_M1 + 1,
            1 <= MTU_M1 <= 255,
        ensures
            final(storage).wf(),
            touches_only(old(storage).slots(), final(storage).slots(), list@),
            exists|l2: Seq<int>|
                session_list(final(storage).slots(), *final(transfer), l2) && #[trigger] grown_from(
                    l2,
                    list@,
                    old(storage).slots(),
                ) && content_step(
                    *old(transfer),
                    *final(transfer),
                    list_bytes(old(storage).slots(), list@),
                    list_bytes(final(storage).slots(), l2),
                    payload@,
                    MTU as nat,
                    MTU_M1 as nat,
                ) && covered(old(storage).slots(), final(storage).slots(), list@, l2),
            session_wf(*final(transfer), MTU_M1 as nat, MAX_PIECES as nat),
            final(transfer).last_changed_timestamp == old(transfer).last_changed_timestamp,
            session_step(
                *old(transfer),
                *final(transfer),
                old(storage).slots(),
                payload@,
                MTU as nat,
                MAX_PIECES as nat,
                r is Ok,
            ),
            r is Err ==> final(transfer).transfer_machine.state == State::Failure,
            r is Err ==> old(storage).used_count() == MAX_PIECES,
            r is Err ==> *final(storage) == *old(storage) && final(transfer).first_piece_idx == old(
                transfer,
            ).first_piece_idx && final(transfer).last_piece_idx == old(transfer).last_piece_idx,
            ({
                let (next, action) = transition(
                    old(transfer).transfer_machine.state,
                    payload_kind_of(payload@.len(), MTU as nat),
                    frame_tail(payload@, MTU as nat),
                );
                let ok = crc_ok(
                    chain_bytes(
                        old(storage).slots(),
                        old(transfer).first_piece_idx.unwrap() as int,
                        MAX_PIECES as nat,
                    ),
                    payload@,
                );
                &&& counters_step(
                    *old(counters),
                    *final(counters),
                    action,
                    final(transfer).transfer_machine.state,
                    r is Ok,
                    ok,
                )
                &&& action == TransferMachineOutput::Drop ==> final(storage).used_count()
                    + list@.len() == old(storage).used_count()
            }),
            final(storage).used_count() <= old(storage).used_count() + 1,
    {
        let len = payload.len();
        let mut data = [0u8; MTU_M1];
        let (payload_kind, tail_byte) = if len >= 1 && len <= MTU {
            let tail = TailByte::from_byte(payload[len - 1]);
            proof {
                let c = choose|t: TailByte| decodes_tail(payload@.last(), t);
                assert(tail.id == c.id);
            }
            let mut i: usize = 0;
            while i < len - 1
                invariant
                    len == payload@.len(),
                    1 <= len <= MTU,
                    MTU == MTU_M1 + 1,
                    i <= len - 1,
                    forall|j: int| 0 <= j < i ==> data@[j] == payload@[j],
                decreases len - 1 - i,
            {
                data[i] = payload[i];
                i = i + 1;
            }
            if len == 1 {
                (PayloadKind::Empty, Some(tail))
            } else if len < MTU {
                (PayloadKind::LessThanMTU, Some(tail))
            } else {
                (PayloadKind::ExactlyMTU, Some(tail))
            }
        } else {
            (PayloadKind::Invalid, None)
        };
        let starts = match tail_byte {
            Some(t) => t.kind == Kind::SingleFrame || t.kind == Kind::MultiFrame,
            None => false,
        };
        assert(len >= 1 && len <= MTU ==> forall|j: int| 0 <= j < len - 1 ==> data@[j] == payload@[j]);
        let ghost t_start = *transfer;
        let output = transfer.transfer_machine.advance(payload_kind, tail_byte);
        let ghost before = storage.slots();
        let ghost before_bytes = list_bytes(before, list@);
        proof {
            lemma_filled_count_bound(before);
        }
        assert(tail_byte == frame_tail(payload@, MTU as nat));
        let ghost empty_list = Seq::<int>::empty();
        proof {
            assert(grown_from(list@, list@, before));
            assert(grown_from(empty_list, list@, before));
            assert(touches_only(before, before, list@));
        }
        match output {
            TransferMachineOutput::Ignore => {
                proof {
                    assert(covered(before, storage.slots(), list@, list@));
                    assert(content_step(
                        t_start,
                        *transfer,
                        before_bytes,
                        list_bytes(storage.slots(), list@),
                        payload@,
                        MTU as nat,
                        MTU_M1 as nat,
                    ));
                }
                Ok(())
            },
            TransferMachineOutput::Drop => {
                Self::drop_pieces(storage, transfer, list);
                counters.dropped_frames = counters.dropped_frames.wrapping_add(1);
                proof {
                    assert(session_list(storage.slots(), *transfer, empty_list));
                    assert(covered(before, storage.slots(), list@, empty_list));
                    assert(content_step(
                        t_start,
                        *transfer,
                        before_bytes,
                        list_bytes(storage.slots(), empty_list),
                        payload@,
                        MTU as nat,
                        MTU_M1 as nat,
                    ));
                }
                Ok(())
            },
            TransferMachineOutput::Push => {
                let ghost mut mid_list = list@;
                if starts {
                    // A new transfer replaces whatever the session held, a completed but
                    // unread transfer included.
                    Self::drop_pieces(storage, transfer, list);
                    proof {
                        mid_list = empty_list;
                    }
                }
                let ghost mid = storage.slots();
                proof {
                    assert(session_list(mid, *transfer, mid_list));
                    assert(grown_from(mid_list, list@, before));
                    if starts {
                        assert(covered(before, mid, list@, mid_list));
                    }
                    if starts {
                        assert(list_bytes(mid, mid_list) == Seq::<u8>::empty());
                    }
                }
                let pushed = Self::push_piece(storage, transfer, data, (len - 1) as u8, Ghost(mid_list));
                proof {
                    let l2 = choose|l2: Seq<int>|
                        session_list(storage.slots(), *transfer, l2) && #[trigger] grown_from(
                            l2,
                            mid_list,
                            mid,
                        ) && list_bytes(storage.slots(), l2) == list_bytes(mid, mid_list) + (if pushed is Ok {
                            data@
                        } else {
                            Seq::<u8>::empty()
                        }) && covered(mid, storage.slots(), mid_list, l2);
                    if starts {
                        lemma_covered_compose(before, mid, storage.slots(), list@, l2);
                    }
                    assert(covered(before, storage.slots(), list@, l2));
                    lemma_touches_compose(before, mid, storage.slots(), list@, mid_list);
                    lemma_grown_compose(before, mid, list@, mid_list, l2);
                    let after = list_bytes(storage.slots(), l2);
                    let base = list_bytes(mid, mid_list);
                    if pushed is Ok {
                        assert(after.subrange(0, base.len() as int) =~= base);
                        assert(after.subrange(base.len() as int, base.len() + len - 1) =~= payload@.subrange(
                            0,
                            len - 1,
                        ));
                        assert(content_step(
                            t_start,
                            *transfer,
                            before_bytes,
                            after,
                            payload@,
                            MTU as nat,
                            MTU_M1 as nat,
                        ));
                    }
                }
                match pushed {
                    Ok(()) => {
                        if transfer.transfer_machine.state == State::Done {
                            counters.single_frame_transfers =
                            counters.single_frame_transfers.wrapping_add(1);
                        }
                        Ok(())
                    },
                    Err(()) => {
                        counters.dropped_frames = counters.dropped_frames.wrapping_add(1);
                        transfer.transfer_machine.fail();
                        proof {
                            assert(content_step(
                                t_start,
                                *transfer,
                                before_bytes,
                                list_bytes(storage.slots(), mid_list),
                                payload@,
                                MTU as nat,
                                MTU_M1 as nat,
                            ));
                        }
                        Err(())
                    },
                }
            },
            TransferMachineOutput::CheckCrcAndPush => {
                // The last two bytes of the transfer are its CRC, most significant first;
                // with one data byte in this frame, the first CRC byte ends the previous piece.
                // An end frame with no data byte at all never gets here: the state machine
                // drops it as a protocol error.
                let first = transfer.first_piece_idx.unwrap();
                let d = len - 1;
                let mut digest_input: Vec<u8> = Vec::new();
                Self::gather(storage, first, &mut digest_input);
                let ghost stored = digest_input@;
                let (hi, lo, kept, framed) = if d >= 2 {
                    let mut i: usize = 0;
                    while i < d - 2
                        invariant
                            d == len - 1,
                            2 <= d,
                            len == payload@.len(),
                            i <= d - 2,
                            digest_input@ == stored + payload@.subrange(0, i as int),
                        decreases d - 2 - i,
                    {
                        digest_input.push(payload[i]);
                        proof {
                            assert(payload@.subrange(0, i + 1) =~= payload@.subrange(
                                0,
                                i as int,
                            ).push(payload@[i as int]));
                        }
                        i = i + 1;
                    }
                    (payload[d - 2], payload[d - 1], Some((d - 2) as u8), true)
                } else {
                    match digest_input.pop() {
                        Some(b) => (b, payload[0], None, true),
                        // A list without bytes cannot end in a CRC byte.
                        None => (0u8, 0u8, None, false),
                    }
                };
                let computed = crc16(digest_input.as_slice());
                let expected = ((hi as u16) << 8u16) | (lo as u16);
                if !framed || computed != expected {
                    Self::drop_pieces(storage, transfer, list);
                    transfer.transfer_machine.fail();
                    proof {
                        assert(session_list(storage.slots(), *transfer, empty_list));
                    }
                    counters.transfers_with_bad_crc = counters.transfers_with_bad_crc.wrapping_add(
                        1,
                    );
                    return Ok(());
                }
                counters.transfers_with_good_crc = counters.transfers_with_good_crc.wrapping_add(1);
                let ghost crc_mid = storage.slots();
                proof {
                    assert(crc_mid == before);
                }
                match kept {
                    Some(n) => match Self::push_piece(storage, transfer, data, n, list) {
                        Ok(()) => {
                            proof {
                                let l2 = choose|l2: Seq<int>|
                                    session_list(storage.slots(), *transfer, l2)
                                        && #[trigger] grown_from(l2, list@, before) && list_bytes(
                                        storage.slots(),
                                        l2,
                                    ) == list_bytes(before, list@) + data@;
                                let after = list_bytes(storage.slots(), l2);
                                assert(after.subrange(0, before_bytes.len() as int) =~= before_bytes);
                                assert(after.subrange(
                                    before_bytes.len() as int,
                                    before_bytes.len() + d - 2,
                                ) =~= payload@.subrange(0, d - 2));
                                assert(content_step(
                                    t_start,
                                    *transfer,
                                    before_bytes,
                                    after,
                                    payload@,
                                    MTU as nat,
                                    MTU_M1 as nat,
                                ));
                            }
                            Ok(())
                        },
                        Err(()) => {
                            counters.dropped_frames = counters.dropped_frames.wrapping_add(1);
                            transfer.transfer_machine.fail();
                            Err(())
                        },
                    },
                    None => {
                        // The first CRC byte was the last byte of the previous piece.
                        transfer.last_piece_len = (MTU_M1 - 1) as u8;
                        proof {
                            assert(content_step(
                                t_start,
                                *transfer,
                                before_bytes,
                                list_bytes(storage.slots(), list@),
                                payload@,
                                MTU as nat,
                                MTU_M1 as nat,
                            ));
                            assert(session_list(storage.slots(), *transfer, list@));
                        }
                        Ok(())
                    },
                }
            },
        }
    }

    /// Evicts sessions that timed out at `time_now`, freeing their pieces; stops once at
    /// least one piece was freed, so that completed transfers stay readable where possible.
    pub fn remove_outdated_transfers(&mut self, time_now: u32)
        requires
            old(self).wf(),
        ensures
            final(self).wf(),
            final(self).sessions().submap_of(old(self).sessions()),
            forall|k: u32|
                old(self).sessions().contains_key(k) && !final(self).sessions().contains_key(k)
                    ==> #[trigger] outdated(old(self).sessions()[k], time_now, TRANSFER_LIFETIME),
            final(self).used_pieces() <= old(self).used_pieces(),
            final(self).latest_sequence() == old(self).latest_sequence(),
            final(self).counters_view() == old(self).counters_view(),
            forall|k: u32|
                #[trigger] final(self).sessions().contains_key(k) ==> final(self).pieces_of(k)
                    == old(self).pieces_of(k),
            forall|k1: u32, k2: u32|
                #[trigger] old(self).evicted_with_pieces(*final(self), k1)
                    && #[trigger] old(self).evicted_with_pieces(*final(self), k2) ==> k1 == k2,
            final(self).used_pieces() < old(self).used_pieces() || forall|k: u32|
                #[trigger] final(self).sessions().contains_key(k) ==> !outdated(
                    final(self).sessions()[k],
                    time_now,
                    TRANSFER_LIFETIME,
                ),
    {
        let keys = self.transfers.keys();
        let mut i: usize = 0;
        let ghost start = self.sessions();
        let ghost start_used = self.storage.used_count();
        let ghost start_latest = self.latest_sequence_number;
        let ghost start_counters = self.counters;
        let ghost start_self = *self;
        while i < keys.len()
            invariant_except_break
                forall|k: u32| #[trigger] start_self.evicted_with_pieces(*self, k) ==> false,
            invariant
                self.wf(),
                self.lists == start_self.lists,
                forall|k: u32|
                    #[trigger] self.sessions().contains_key(k) ==> self.pieces_of(k)
                        == start_self.pieces_of(k),
                self.latest_sequence_number == start_latest,
                self.counters == start_counters,
                keys@.no_duplicates(),
                forall|k: u32| #[trigger] keys@.contains(k) <==> start.contains_key(k),
                self.sessions().submap_of(start),
                forall|k: u32|
                    start.contains_key(k) && !self.sessions().contains_key(k) ==> #[trigger] outdated(
                        start[k],
                        time_now,
                        TRANSFER_LIFETIME,
                    ),
                self.storage.used_count() <= start_used,
                i <= keys@.len(),
                forall|j: int|
                    0 <= j < i && self.sessions().contains_key(#[trigger] keys@[j]) ==> !outdated(
                        self.sessions()[keys@[j]],
                        time_now,
                        TRANSFER_LIFETIME,
                    ),
            ensures
                self.storage.used_count() < start_used || i >= keys@.len(),
                forall|k1: u32, k2: u32|
                    #[trigger] start_self.evicted_with_pieces(*self, k1)
                        && #[trigger] start_self.evicted_with_pieces(*self, k2) ==> k1 == k2,
            decreases keys@.len() - i,
        {
            let ghost head = *self;
            let k = keys[i];
            assert(keys@.contains(k));
            match self.transfers.get(k) {
                Some(t) => {
                    if time_now.wrapping_sub(t.last_changed_timestamp) > TRANSFER_LIFETIME {
                        let ghost sessions_before = self.sessions();
                        let ghost slots_before = self.slots();
                        let ghost base = self.lists@[k];
                        let mut gone = t;
                        let removed = Self::drop_pieces(&mut self.storage, &mut gone, Ghost(base));
                        proof {
                            lemma_sessions_kept(
                                sessions_before,
                                self.lists@,
                                slots_before,
                                self.slots(),
                                k,
                                base,
                                Seq::<int>::empty(),
                            );
                        }
                        let ghost before = self.sessions();
                        assert(before.submap_of(start));
                        proof {
                            assert(covered(slots_before, self.slots(), base, Seq::<int>::empty()));
                        }
                        self.transfers.remove(k);
                        proof {
                            lemma_owned_kept(
                                slots_before,
                                self.slots(),
                                sessions_before,
                                self.lists@,
                                self.sessions(),
                                self.lists@,
                                k,
                                base,
                                Seq::<int>::empty(),
                            );
                            assert(self.sessions() =~= before.remove(k));
                            lemma_remove_keeps_submap(before, start, k);
                            assert(start_self.list_len(k) == removed);
                            assert forall|k1: u32, k2: u32|
                                #[trigger] start_self.evicted_with_pieces(*self, k1)
                                    && #[trigger] start_self.evicted_with_pieces(*self, k2)
                                    implies k1 == k2 by {
                                if k1 != k {
                                    assert(!before.contains_key(k1));
                                    assert(start_self.evicted_with_pieces(head, k1));
                                }
                                if k2 != k {
                                    assert(!before.contains_key(k2));
                                    assert(start_self.evicted_with_pieces(head, k2));
                                }
                            }
                            if removed == 0 {
                                assert forall|j: u32| #[trigger]
                                    start_self.evicted_with_pieces(*self, j) implies false by {
                                    if j != k {
                                        assert(!before.contains_key(j));
                                        assert(start_self.evicted_with_pieces(head, j));
                                    }
                                }
                            }
                        }
                        if removed >= 1 {
                            break ;
                        }
                    }
                },
                None => {},
            }
            i = i + 1;
        }
        proof {
            if self.storage.used_count() >= start_used {
                assert forall|k: u32| #[trigger] self.sessions().contains_key(k) implies !outdated(
                    self.sessions()[k],
                    time_now,
                    TRANSFER_LIFETIME,
                ) by {
                    assert(start.contains_key(k));
                    assert(keys@.contains(k));
                    let j = choose|j: int| 0 <= j < keys@.len() && keys@[j] == k;
                }
            }
        }
    }

    /// The key of the completed session to read out first, if any.
    fn highest_priority_ready_transfer(&self) -> (r: Option<u32>)
        requires
            self.wf(),
        ensures
            r is None <==> !exists|k: u32|
                self.sessions().contains_key(k) && #[trigger] self.sessions()[k].transfer_machine.state
                    == State::Done,
            r matches Some(k) ==> {
                &&& self.sessions().contains_key(k)
                &&& self.sessions()[k].transfer_machine.state == State::Done
                &&& forall|j: u32|
                    self.sessions().contains_key(j) && #[trigger] self.sessions()[j].transfer_machine.state
                        == State::Done ==> !self.sessions()[j].priority.higher_than(
                        self.sessions()[k].priority,
                    )
                &&& forall|base: i16|
                    #[trigger] window_of(self.sessions(), self.sessions()[k].priority, base)
                        ==> oldest_of(
                        self.sessions(),
                        self.sessions()[k].priority,
                        self.sessions()[k].sequence_number,
                    )
            },
    {
        let keys = self.transfers.keys();
        assert forall|j: int| 0 <= j < keys@.len() implies self.sessions().contains_key(
            #[trigger] keys@[j],
        ) by {
            assert(keys@.contains(keys@[j]));
        }
        let mut best: Option<(u32, Transfer)> = None;
        let ghost mut best_at: int = 0;
        let mut i: usize = 0;
        while i < keys.len()
            invariant
                self.wf(),
                i <= keys@.len(),
                forall|k: u32| #[trigger] keys@.contains(k) <==> self.sessions().contains_key(k),
                forall|j: int| 0 <= j < keys@.len() ==> self.sessions().contains_key(#[trigger] keys@[j]),
                match best {
                    None => forall|j: int|
                        0 <= j < i ==> #[trigger] self.sessions()[keys@[j]].transfer_machine.state
                            != State::Done,
                    Some((bk, bt)) => {
                        &&& self.sessions().contains_key(bk)
                        &&& self.sessions()[bk] == bt
                        &&& bt.transfer_machine.state == State::Done
                        &&& 0 <= best_at < i && keys@[best_at] == bk
                        &&& forall|base: i16|
                            #[trigger] class_in_window(
                                self.sessions(),
                                keys@,
                                i as int,
                                bt.priority,
                                base,
                            ) ==> none_older(
                                self.sessions(),
                                keys@,
                                i as int,
                                bt.priority,
                                bt.sequence_number,
                            )
                        &&& forall|j: int|
                            0 <= j < i && #[trigger] self.sessions()[keys@[j]].transfer_machine.state
                                == State::Done ==> !self.sessions()[keys@[j]].priority.higher_than(
                                bt.priority,
                            )
                    },
                },
            decreases keys@.len() - i,
        {
            let k = keys[i];
            assert(keys@.contains(k));
            let t = self.transfers.get(k).unwrap();
            let ghost old_best = best;
            let ghost old_best_at = best_at;
            let ghost sess = self.sessions();
            if t.transfer_machine.state == State::Done {
                best =
                match best {
                    None => Some((k, t)),
                    Some((bk, bt)) => {
                        let tp = t.priority.as_u8();
                        let bp = bt.priority.as_u8();
                        if tp < bp {
                            Some((k, t))
                        } else if tp == bp && t.sequence_number.wrapping_sub(bt.sequence_number)
                            < 0 {
                            Some((k, t))
                        } else {
                            Some((bk, bt))
                        }
                    },
                };
                proof {
                    if best != old_best {
                        best_at = i as int;
                    }
                }
            }
            proof {
                let n = (i + 1) as int;
                assert(sess[keys@[i as int]] == t);
                if let Some((bk, bt)) = best {
                    assert forall|base: i16| #[trigger]
                        class_in_window(sess, keys@, n, bt.priority, base) implies none_older(
                        sess,
                        keys@,
                        n,
                        bt.priority,
                        bt.sequence_number,
                    ) by {
                        assert(class_in_window(sess, keys@, i as int, bt.priority, base)) by {
                            assert forall|x: int| #[trigger]
                                ready_in(sess, keys@, i as int, bt.priority, x) implies in_window(
                                sess[keys@[x]].sequence_number,
                                base,
                            ) by {
                                assert(ready_in(sess, keys@, n, bt.priority, x));
                            }
                        }
                        assert forall|j: int| #[trigger]
                            ready_in(sess, keys@, n, bt.priority, j) implies !older(
                            sess[keys@[j]].sequence_number,
                            bt.sequence_number,
                        ) by {
                            match old_best {
                                None => {
                                    assert(j == i);
                                },
                                Some((_, ot)) => {
                                    if best == old_best {
                                        if j < i {
                                            assert(ready_in(sess, keys@, i as int, bt.priority, j));
                                        }
                                    } else if ot.priority == bt.priority {
                                        // The new best is older than the old one, which no
                                        // earlier session of its class precedes.
                                        assert(bt == t);
                                        assert(older(t.sequence_number, ot.sequence_number));
                                        assert(ready_in(sess, keys@, n, bt.priority, i as int));
                                        assert(ready_in(sess, keys@, n, bt.priority, old_best_at));
                                        lemma_older_in_window(
                                            t.sequence_number,
                                            ot.sequence_number,
                                            base,
                                        );
                                        if j < i {
                                            assert(ready_in(sess, keys@, i as int, bt.priority, j));
                                            assert(!older(
                                                sess[keys@[j]].sequence_number,
                                                ot.sequence_number,
                                            ));
                                            lemma_older_in_window(
                                                sess[keys@[j]].sequence_number,
                                                ot.sequence_number,
                                                base,
                                            );
                                            lemma_older_in_window(
                                                sess[keys@[j]].sequence_number,
                                                t.sequence_number,
                                                base,
                                            );
                                        }
                                    } else {
                                        // A higher priority: no earlier session shares it.
                                        assert(bt == t);
                                        if j < i {
                                            assert(!sess[keys@[j]].priority.higher_than(
                                                ot.priority,
                                            ));
                                        }
                                    }
                                },
                            }
                        }
                    }
                }
            }
            i = i + 1;
        }
        proof {
            if best is None {
                assert forall|k: u32|
                    self.sessions().contains_key(k) implies #[trigger] self.sessions()[k].transfer_machine.state
                        != State::Done by {
                    assert(keys@.contains(k));
                    let j = choose|j: int| 0 <= j < keys@.len() && keys@[j] == k;
                }
            } else {
                let bt = best.unwrap().1;
                let sess = self.sessions();
                let n = keys@.len() as int;
                assert forall|base: i16| #[trigger] window_of(sess, bt.priority, base) implies oldest_of(
                    sess,
                    bt.priority,
                    bt.sequence_number,
                ) by {
                    assert(class_in_window(sess, keys@, n, bt.priority, base)) by {
                        assert forall|x: int| #[trigger] ready_in(sess, keys@, n, bt.priority, x) implies in_window(
                            sess[keys@[x]].sequence_number,
                            base,
                        ) by {
                            assert(ready_with(sess, bt.priority, keys@[x]));
                        }
                    }
                    assert forall|j: u32| #[trigger] ready_with(sess, bt.priority, j) implies !older(
                        sess[j].sequence_number,
                        bt.sequence_number,
                    ) by {
                        assert(keys@.contains(j));
                        let x = choose|x: int| 0 <= x < keys@.len() && keys@[x] == j;
                        assert(ready_in(sess, keys@, n, bt.priority, x));
                    }
                }
                assert forall|k: u32|
                    self.sessions().contains_key(k) && #[trigger] self.sessions()[k].transfer_machine.state
                        == State::Done implies !self.sessions()[k].priority.higher_than(
                    bt.priority,
                ) by {
                    assert(keys@.contains(k));
                    let j = choose|j: int| 0 <= j < keys@.len() && keys@[j] == k;
                }
            }
        }
        match best {
            Some((k, _)) => Some(k),
            None => None,
        }
    }

    /// Reads out the completed transfer of the highest priority, the oldest among equals,
    /// into `assembly_buffer`, and forgets its session. A transfer longer than the buffer
    /// is discarded and counted as dropped.
    pub fn pop<'a>(&mut self, assembly_buffer: &'a mut [u8]) -> (r: Option<ReadyTransfer<'a>>)
        requires
            old(self).wf(),
        ensures
            final(self).wf(),
            forall|j: u32|
                #[trigger] final(self).sessions().contains_key(j) ==> final(self).pieces_of(j)
                    == old(self).pieces_of(j),
            final(self).latest_sequence() == old(self).latest_sequence(),
            !(exists|k: u32| #[trigger] old(self).is_ready(k)) ==> {
                &&& r is None
                &&& final(self).sessions() == old(self).sessions()
                &&& final(self).used_pieces() == old(self).used_pieces()
                &&& final(self).counters_view() == old(self).counters_view()
            },
            (exists|k: u32| #[trigger] old(self).is_ready(k)) ==> exists|k: u32|
                {
                    let t = old(self).sessions()[k];
                    let p = session_payload(old(self).slots(), t, MAX_PIECES as nat);
                    let c = old(self).counters_view();
                    &&& #[trigger] old(self).read_first(k)
                    &&& final(self).sessions() == old(self).sessions().remove(k)
                    &&& final(self).used_pieces() + old(self).list_len(k) == old(self).used_pieces()
                    &&& p.len() <= old(assembly_buffer)@.len() ==> {
                        &&& r matches Some(rt) && {
                            &&& rt.source == t.key.source
                            &&& rt.kind == t.key.kind
                            &&& rt.priority == t.priority
                            &&& rt.payload@ == p
                        }
                        &&& final(self).counters_view() == c
                    }
                    &&& p.len() > old(assembly_buffer)@.len() ==> {
                        &&& r is None
                        &&& final(self).counters_view() == Counters {
                            dropped_frames: inc(c.dropped_frames),
                            ..c
                        }
                    }
                },
    {
        let chosen = self.highest_priority_ready_transfer();
        proof {
            match chosen {
                None => {
                    assert forall|k: u32| !#[trigger] self.is_ready(k) by {
                        if self.is_ready(k) {
                            assert(self.sessions()[k].transfer_machine.state == State::Done);
                        }
                    }
                },
                Some(k) => {
                    assert(self.is_ready(k));
                    assert forall|j: u32| #[trigger] self.is_ready(j) implies !self.sessions()[
                        j].priority.higher_than(self.sessions()[k].priority) by {
                        assert(self.sessions()[j].transfer_machine.state == State::Done);
                    }
                    assert(self.read_first(k));
                },
            }
        }
        match chosen {
            None => None,
            Some(k) => {
                let t = self.transfers.get(k).unwrap();
                let mut bytes: Vec<u8> = Vec::new();
                let mut len: usize = 0;
                match t.first_piece_idx {
                    Some(first) => {
                        Self::gather(&self.storage, first, &mut bytes);
                        let cut = MTU_M1 - t.last_piece_len as usize;
                        if bytes.len() >= cut {
                            len = bytes.len() - cut;
                        }
                    },
                    None => {},
                }
                let ghost sessions_before = self.sessions();
                let ghost slots_before = self.slots();
                let ghost base = self.lists@[k];
                let mut gone = t;
                Self::drop_pieces(&mut self.storage, &mut gone, Ghost(base));
                proof {
                    lemma_sessions_kept(
                        sessions_before,
                        self.lists@,
                        slots_before,
                        self.slots(),
                        k,
                        base,
                        Seq::<int>::empty(),
                    );
                    assert(len == session_payload(slots_before, t, MAX_PIECES as nat).len());
                    assert(sessions_before[k] == t);
                    assert(covered(slots_before, self.slots(), base, Seq::<int>::empty()));
                }
                self.transfers.remove(k);
                proof {
                    lemma_owned_kept(
                        slots_before,
                        self.slots(),
                        sessions_before,
                        self.lists@,
                        self.sessions(),
                        self.lists@,
                        k,
                        base,
                        Seq::<int>::empty(),
                    );
                }
                if len > assembly_buffer.len() {
                    self.counters.dropped_frames = self.counters.dropped_frames.wrapping_add(1);
                    return None;
                }
                let mut i: usize = 0;
                while i < len
                    invariant
                        i <= len,
                        len <= bytes@.len(),
                        len <= assembly_buffer@.len(),
                        assembly_buffer@.len() == old(assembly_buffer)@.len(),
                        forall|j: int| 0 <= j < i ==> assembly_buffer@[j] == bytes@[j],
                    decreases len - i,
                {
                    assembly_buffer[i] = bytes[i];
                    i = i + 1;
                }
                let out: &'a [u8] = assembly_buffer;
                let payload = &out[0..len];
                Some(
                    ReadyTransfer {
                        source: t.key.source,
                        kind: t.key.kind,
                        priority: t.priority,
                        payload,
                    },
                )
            },
        }
    }
}

} // verus!
