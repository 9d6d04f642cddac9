use vstd::prelude::*;

verus! {

/// One slot of the pool: empty, or a frame's bytes and the index of the next piece of its
/// list (its own index for the last piece).
#[derive(Copy, Clone)]
pub enum Piece<const N: usize> {
    Empty,
    /// bytes, next
    Filled([u8; N], u16),
}

impl<const N: usize> Piece<N> {
    pub open spec fn next_idx(self) -> u16 {
        match self {
            Piece::Filled(_, n) => n,
            Piece::Empty => 0,
        }
    }

    pub open spec fn data(self) -> Seq<u8> {
        match self {
            Piece::Filled(d, _) => d@,
            Piece::Empty => Seq::empty(),
        }
    }
}

/// How many slots of `s` are filled.
pub open spec fn filled_count<const N: usize>(s: Seq<Piece<N>>) -> nat
    decreases s.len(),
{
    if s.len() == 0 {
        0
    } else {
        filled_count(s.drop_last()) + (if s.last() is Filled {
            1nat
        } else {
            0nat
        })
    }
}

pub proof fn lemma_filled_count_bound<const N: usize>(s: Seq<Piece<N>>)
    ensures
        filled_count(s) <= s.len(),
        filled_count(s) == s.len() <==> forall|i: int| 0 <= i < s.len() ==> s[i] is Filled,
    decreases s.len(),
{
    if s.len() > 0 {
        lemma_filled_count_bound(s.drop_last());
        if filled_count(s) == s.len() {
            assert forall|i: int| 0 <= i < s.len() implies s[i] is Filled by {
                if i < s.len() - 1 {
                    assert(s[i] == s.drop_last()[i]);
                }
            }
        }
        if forall|i: int| 0 <= i < s.len() ==> s[i] is Filled {
            assert forall|i: int| 0 <= i < s.drop_last().len() implies s.drop_last()[i] is Filled by {
                assert(s.drop_last()[i] == s[i]);
            }
        }
    }
}

proof fn lemma_filled_count_update<const N: usize>(s: Seq<Piece<N>>, i: int, p: Piece<N>)
    requires
        0 <= i < s.len(),
    ensures
        filled_count(s.update(i, p)) + (if s[i] is Filled {
            1int
        } else {
            0int
        }) == filled_count(s) + (if p is Filled {
            1int
        } else {
            0int
        }),
    decreases s.len(),
{
    let t = s.update(i, p);
    if i == s.len() - 1 {
        assert(t.drop_last() =~= s.drop_last());
    } else {
        assert(t.drop_last() =~= s.drop_last().update(i, p));
        lemma_filled_count_update(s.drop_last(), i, p);
    }
}

/// The slots after emptying, piece by piece, the list that starts at `idx`, and how many
/// pieces were emptied: the walk follows the links and stops at an empty slot or after a
/// piece that links to itself.
pub open spec fn removal<const N: usize>(items: Seq<Piece<N>>, idx: int, fuel: nat) -> (Seq<
    Piece<N>,
>, nat)
    decreases fuel,
{
    if fuel == 0 || !(0 <= idx < items.len()) || items[idx] is Empty {
        (items, 0)
    } else {
        let next = items[idx].next_idx() as int;
        let emptied = items.update(idx, Piece::Empty);
        if next == idx {
            (emptied, 1)
        } else {
            let (rest, n) = removal(emptied, next, (fuel - 1) as nat);
            (rest, n + 1)
        }
    }
}

/// `idxs` are the slots of one list, in order: all filled and distinct, each linked to the
/// next, and the last linked to itself.
pub open spec fn is_list<const N: usize>(items: Seq<Piece<N>>, idxs: Seq<int>) -> bool {
    &&& idxs.len() > 0
    &&& idxs.no_duplicates()
    &&& forall|j: int|
        0 <= j < idxs.len() ==> 0 <= #[trigger] idxs[j] < items.len() && items[idxs[j]] is Filled
    &&& forall|j: int|
        0 <= j < idxs.len() - 1 ==> items[#[trigger] idxs[j]].next_idx() == idxs[j + 1]
    &&& items[idxs.last()].next_idx() == idxs.last()
}

/// Removing a list frees exactly its pieces: the walk that starts at its first slot empties
/// its slots and no other, and counts as many pieces as the list has, which the pool's
/// count of filled slots covers.
pub proof fn lemma_remove_list<const N: usize>(items: Seq<Piece<N>>, idxs: Seq<int>, fuel: nat)
    requires
        is_list(items, idxs),
        fuel >= idxs.len(),
    ensures
        idxs.len() <= filled_count(items),
        removal(items, idxs[0], fuel).1 == idxs.len(),
        forall|i: int|
            0 <= i < items.len() ==> #[trigger] removal(items, idxs[0], fuel).0[i] == (if idxs.contains(
                i,
            ) {
                Piece::<N>::Empty
            } else {
                items[i]
            }),
    decreases idxs.len(),
{
    let first = idxs[0];
    let emptied = items.update(first, Piece::Empty);
    lemma_filled_count_update(items, first, Piece::Empty);
    if idxs.len() == 1 {
        assert(idxs.last() == first);
        assert forall|i: int| 0 <= i < items.len() implies #[trigger] emptied[i] == (if idxs.contains(
            i,
        ) {
            Piece::<N>::Empty
        } else {
            items[i]
        }) by {
            if idxs.contains(i) {
                assert(i == idxs[0]);
            }
        }
    } else {
        let rest = idxs.drop_first();
        assert(items[first].next_idx() == idxs[1]);
        assert forall|j: int| 0 <= j < rest.len() implies 0 <= #[trigger] rest[j] < emptied.len()
            && emptied[rest[j]] is Filled by {
            assert(rest[j] == idxs[j + 1]);
            assert(idxs[j + 1] != idxs[0]);
        }
        assert forall|j: int| 0 <= j < rest.len() - 1 implies emptied[#[trigger] rest[j]].next_idx()
            == rest[j + 1] by {
            assert(rest[j] == idxs[j + 1]);
            assert(idxs[j + 1] != idxs[0]);
        }
        assert(rest.last() == idxs.last());
        assert(idxs.last() != first);
        assert(rest.no_duplicates());
        lemma_remove_list(emptied, rest, (fuel - 1) as nat);
        assert forall|i: int| 0 <= i < items.len() implies #[trigger] removal(
            items,
            idxs[0],
            fuel,
        ).0[i] == (if idxs.contains(i) {
            Piece::<N>::Empty
        } else {
            items[i]
        }) by {
            assert(removal(items, idxs[0], fuel).0 == removal(emptied, rest[0], (fuel - 1) as nat).0);
            if idxs.contains(i) && i != first {
                let j = choose|j: int| 0 <= j < idxs.len() && idxs[j] == i;
                assert(rest[j - 1] == i);
                assert(rest.contains(i));
            }
            if rest.contains(i) {
                let j = choose|j: int| 0 <= j < rest.len() && rest[j] == i;
                assert(idxs[j + 1] == i);
            }
        }
    }
}

/// The bytes of the pieces in the slots `list`, one after the other.
pub open spec fn list_bytes<const N: usize>(items: Seq<Piece<N>>, list: Seq<int>) -> Seq<u8>
    decreases list.len(),
{
    if list.len() == 0 {
        Seq::empty()
    } else {
        items[list[0]].data() + list_bytes(items, list.drop_first())
    }
}

/// Appending a slot to a list appends its bytes.
pub proof fn lemma_list_bytes_push<const N: usize>(items: Seq<Piece<N>>, list: Seq<int>, e: int)
    ensures
        list_bytes(items, list.push(e)) == list_bytes(items, list) + items[e].data(),
    decreases list.len(),
{
    if list.len() == 0 {
        assert(list.push(e).drop_first() =~= Seq::<int>::empty());
        assert(list_bytes(items, Seq::<int>::empty()) == Seq::<u8>::empty());
        assert(list_bytes(items, list) == Seq::<u8>::empty());
        assert(list_bytes(items, list.push(e)) =~= items[e].data());
    } else {
        assert(list.push(e).drop_first() =~= list.drop_first().push(e));
        lemma_list_bytes_push(items, list.drop_first(), e);
        assert(list.push(e)[0] == list[0]);
        assert(list_bytes(items, list.push(e)) =~= list_bytes(items, list) + items[e].data());
    }
}

/// Bytes of slots that did not change stay the same.
pub proof fn lemma_list_bytes_kept<const N: usize>(
    old: Seq<Piece<N>>,
    new: Seq<Piece<N>>,
    list: Seq<int>,
)
    requires
        forall|j: int| 0 <= j < list.len() ==> new[#[trigger] list[j]].data() == old[list[j]].data(),
    ensures
        list_bytes(new, list) == list_bytes(old, list),
    decreases list.len(),
{
    if list.len() > 0 {
        assert(new[list[0]].data() == old[list[0]].data());
        assert forall|j: int| 0 <= j < list.drop_first().len() implies new[
            #[trigger] list.drop_first()[j]].data() == old[list.drop_first()[j]].data() by {
            assert(list.drop_first()[j] == list[j + 1]);
        }
        lemma_list_bytes_kept(old, new, list.drop_first());
    }
}

/// The lists `a` and `b` share no slot.
pub open spec fn disjoint(a: Seq<int>, b: Seq<int>) -> bool {
    forall|i: int| #[trigger] a.contains(i) ==> !b.contains(i)
}

/// From `old` to `new`, only slots of `list` and slots that were empty changed.
pub open spec fn touches_only<const N: usize>(
    old: Seq<Piece<N>>,
    new: Seq<Piece<N>>,
    list: Seq<int>,
) -> bool {
    &&& new.len() == old.len()
    &&& forall|i: int|
        0 <= i < old.len() && #[trigger] new[i] != old[i] ==> list.contains(i) || old[i] is Empty
}

/// A list whose slots did not change is still a list.
pub proof fn lemma_list_kept<const N: usize>(
    old: Seq<Piece<N>>,
    new: Seq<Piece<N>>,
    changed: Seq<int>,
    list: Seq<int>,
)
    requires
        is_list(old, list),
        touches_only(old, new, changed),
        disjoint(changed, list),
    ensures
        is_list(new, list),
        forall|j: int| 0 <= j < list.len() ==> new[#[trigger] list[j]] == old[list[j]],
{
    assert forall|j: int| 0 <= j < list.len() implies new[#[trigger] list[j]] == old[list[j]] by {
        assert(old[list[j]] is Filled);
        assert(list.contains(list[j]));
        if changed.contains(list[j]) {
            assert(!list.contains(list[j]));
        }
    }
    assert(new[list.last()] == old[list.last()]) by {
        assert(list[list.len() - 1] == list.last());
    }
}

/// Storing a piece in an empty slot `e` after the last piece of a list makes a longer list.
pub proof fn lemma_list_extended<const N: usize>(
    old: Seq<Piece<N>>,
    list: Seq<int>,
    e: int,
    data: [u8; N],
)
    requires
        is_list(old, list),
        0 <= e < old.len(),
        old[e] is Empty,
    ensures
        ({
            let last = list.last();
            let new = old.update(last, Piece::Filled(old[last]->Filled_0, e as u16)).update(
                e,
                Piece::Filled(data, e as u16),
            );
            e == e as u16 ==> is_list(new, list.push(e))
        }),
{
    let last = list.last();
    let new = old.update(last, Piece::Filled(old[last]->Filled_0, e as u16)).update(
        e,
        Piece::Filled(data, e as u16),
    );
    let l2 = list.push(e);
    if e == e as u16 {
        assert(!list.contains(e)) by {
            if list.contains(e) {
                let j = choose|j: int| 0 <= j < list.len() && list[j] == e;
                assert(old[list[j]] is Filled);
            }
        }
        assert(l2.no_duplicates()) by {
            assert forall|a: int, b: int| 0 <= a < l2.len() && 0 <= b < l2.len() && a != b implies l2[a]
                != l2[b] by {
                if a < list.len() && b < list.len() {
                    assert(l2[a] == list[a] && l2[b] == list[b]);
                } else if a < list.len() {
                    assert(list.contains(l2[a]));
                } else if b < list.len() {
                    assert(list.contains(l2[b]));
                }
            }
        }
        assert forall|j: int| 0 <= j < l2.len() implies 0 <= #[trigger] l2[j] < new.len()
            && new[l2[j]] is Filled by {
            if j < list.len() {
                assert(l2[j] == list[j]);
            }
        }
        assert forall|j: int| 0 <= j < l2.len() - 1 implies new[#[trigger] l2[j]].next_idx() == l2[j
            + 1] by {
            assert(l2[j] == list[j]);
            if j < list.len() - 1 {
                assert(list[j] != last) by {
                    assert(list[list.len() - 1] == last);
                }
                assert(list[j] != e);
                assert(l2[j + 1] == list[j + 1]);
            } else {
                assert(list[j] == last);
                assert(last != e);
            }
        }
    }
}

/// A pool of `MAX_PIECES` slots that holds lists of frame payloads of `N` bytes.
pub struct PiecesStorage<const N: usize, const MAX_PIECES: usize> {
    pub(crate) items: [Piece<N>; MAX_PIECES],
    pub(crate) used: u16,
}

impl<const N: usize, const MAX_PIECES: usize> PiecesStorage<N, MAX_PIECES> {
    pub open(crate) spec fn slots(&self) -> Seq<Piece<N>> {
        self.items@
    }

    pub open(crate) spec fn used_count(&self) -> nat {
        self.used as nat
    }

    /// The counter agrees with the slots, and every link stays inside the pool.
    pub open(crate) spec fn wf(&self) -> bool {
        &&& MAX_PIECES <= u16::MAX
        &&& self.used as nat == filled_count(self.items@)
        &&& forall|i: int|
            0 <= i < MAX_PIECES && #[trigger] self.items@[i] is Filled ==> (
            self.items@[i].next_idx() as int) < MAX_PIECES
    }

    pub fn new() -> (r: Self)
        requires
            MAX_PIECES <= u16::MAX,
        ensures
            r.wf(),
            r.used_count() == 0,
            forall|i: int| 0 <= i < MAX_PIECES ==> r.slots()[i] is Empty,
    {
        let r = PiecesStorage { items: [Piece::Empty;MAX_PIECES], used: 0 };
        proof {
            let s = r.items@;
            lemma_all_empty(s);
        }
        r
    }

    /// Stores `data` as a list of one piece.
    pub fn push(&mut self, data: [u8; N]) -> (r: Result<u16, [u8; N]>)
        requires
            old(self).wf(),
        ensures
            final(self).wf(),
            match r {
                Ok(i) => {
                    &&& i < MAX_PIECES
                    &&& old(self).slots()[i as int] is Empty
                    &&& forall|j: int| 0 <= j < i ==> old(self).slots()[j] is Filled
                    &&& final(self).slots() == old(self).slots().update(
                        i as int,
                        Piece::Filled(data, i),
                    )
                    &&& final(self).used_count() == old(self).used_count() + 1
                },
                Err(d) => {
                    &&& d == data
                    &&& *final(self) == *old(self)
                    &&& old(self).used_count() == MAX_PIECES
                },
            },
            r is Err <==> old(self).used_count() == MAX_PIECES,
    {
        match self.find_empty_slot() {
            None => {
                proof {
                    lemma_filled_count_bound(self.items@);
                }
                Err(data)
            },
            Some(i) => {
                proof {
                    lemma_filled_count_update(self.items@, i as int, Piece::Filled(data, i));
                    lemma_filled_count_bound(self.items@);
                }
                self.items[i as usize] = Piece::Filled(data, i);
                self.used = self.used + 1;
                Ok(i)
            },
        }
    }

    /// Stores `data` as a new last piece after the piece at `after_piece_idx`.
    pub fn push_after(&mut self, data: [u8; N], after_piece_idx: u16) -> (r: Result<
        u16,
        [u8; N],
    >)
        requires
            old(self).wf(),
            after_piece_idx < MAX_PIECES,
        ensures
            final(self).wf(),
            match r {
                Ok(i) => {
                    &&& i < MAX_PIECES
                    &&& i != after_piece_idx
                    &&& old(self).slots()[i as int] is Empty
                    &&& forall|j: int| 0 <= j < i ==> old(self).slots()[j] is Filled
                    &&& old(self).slots()[after_piece_idx as int] matches Piece::Filled(d, _)
                        && final(self).slots() == old(self).slots().update(
                        after_piece_idx as int,
                        Piece::Filled(d, i),
                    ).update(i as int, Piece::Filled(data, i))
                    &&& final(self).used_count() == old(self).used_count() + 1
                },
                Err(d) => {
                    &&& d == data
                    &&& *final(self) == *old(self)
                },
            },
            r is Err <==> (old(self).used_count() == MAX_PIECES
                || old(self).slots()[after_piece_idx as int] is Empty),
    {
        match self.find_empty_slot() {
            None => {
                proof {
                    lemma_filled_count_bound(self.items@);
                }
                Err(data)
            },
            Some(i) => {
                proof {
                    lemma_filled_count_bound(self.items@);
                }
                match self.items[after_piece_idx as usize] {
                    Piece::Empty => Err(data),
                    Piece::Filled(d, _) => {
                        proof {
                            lemma_filled_count_update(
                                self.items@,
                                after_piece_idx as int,
                                Piece::Filled(d, i),
                            );
                            let s1 = self.items@.update(after_piece_idx as int, Piece::Filled(d, i));
                            lemma_filled_count_update(s1, i as int, Piece::Filled(data, i));
                        }
                        self.items[after_piece_idx as usize] = Piece::Filled(d, i);
                        self.items[i as usize] = Piece::Filled(data, i);
                        self.used = self.used + 1;
                        Ok(i)
                    },
                }
            },
        }
    }

    /// Walks the list that starts at `first_piece_idx`.
    pub fn traverse(&self, first_piece_idx: u16) -> (r: PiecesIter<'_, N, MAX_PIECES>)
        ensures
            r.slots() == self.slots(),
            r.position() == Some(first_piece_idx),
    {
        PiecesIter { items: &self.items, idx: Some(first_piece_idx) }
    }

    /// The first empty slot, if there is one.
    pub fn find_empty_slot(&self) -> (r: Option<u16>)
        requires
            MAX_PIECES <= u16::MAX,
        ensures
            match r {
                Some(i) => {
                    &&& i < MAX_PIECES
                    &&& self.slots()[i as int] is Empty
                    &&& forall|j: int| 0 <= j < i ==> self.slots()[j] is Filled
                },
                None => forall|j: int| 0 <= j < MAX_PIECES ==> self.slots()[j] is Filled,
            },
    {
        let mut i: usize = 0;
        while i < MAX_PIECES
            invariant
                i <= MAX_PIECES,
                MAX_PIECES <= u16::MAX,
                forall|j: int| 0 <= j < i ==> self.slots()[j] is Filled,
            decreases MAX_PIECES - i,
        {
            match self.items[i] {
                Piece::Empty => {
                    return Some(i as u16);
                },
                Piece::Filled(_, _) => {},
            }
            i = i + 1;
        }
        None
    }

    /// Empties every piece of the list that starts at `first_piece_idx` and returns how many
    /// were removed. Stops at an empty slot or at a piece that links to itself.
    pub fn remove_all(&mut self, first_piece_idx: u16) -> (r: u16)
        requires
            old(self).wf(),
            first_piece_idx < MAX_PIECES,
        ensures
            final(self).wf(),
            r as nat + final(self).used_count() == old(self).used_count(),
            old(self).slots()[first_piece_idx as int] is Filled ==> r >= 1
                && final(self).slots()[first_piece_idx as int] is Empty,
            old(self).slots()[first_piece_idx as int] is Empty ==> r == 0
                && *final(self) == *old(self),
            forall|i: int|
                0 <= i < MAX_PIECES ==> #[trigger] final(self).slots()[i] == old(self).slots()[i]
                    || final(self).slots()[i] is Empty,
            removal(old(self).slots(), first_piece_idx as int, old(self).used_count() + 1) == (
            final(self).slots(),
            r as nat,
            ),
    {
        let mut idx = first_piece_idx;
        let mut removed: u16 = 0;
        let ghost start = *self;
        loop
            invariant
                self.wf(),
                idx < MAX_PIECES,
                first_piece_idx < MAX_PIECES,
                removed as nat + self.used_count() == start.used_count(),
                start.slots()[first_piece_idx as int] is Filled ==> (removed >= 1
                    && self.slots()[first_piece_idx as int] is Empty) || (removed == 0
                    && idx == first_piece_idx && *self == start),
                start.slots()[first_piece_idx as int] is Empty ==> removed == 0 && *self == start
                    && idx == first_piece_idx,
                forall|i: int|
                    0 <= i < MAX_PIECES ==> #[trigger] self.slots()[i] == start.slots()[i]
                        || self.slots()[i] is Empty,
                ({
                    let (f0, c0) = removal(
                        start.slots(),
                        first_piece_idx as int,
                        start.used_count() + 1,
                    );
                    let (f, c) = removal(self.slots(), idx as int, self.used_count() + 1);
                    f == f0 && c + removed == c0
                }),
            ensures
                start.slots()[first_piece_idx as int] is Filled ==> removed >= 1
                    && self.slots()[first_piece_idx as int] is Empty,
                removal(start.slots(), first_piece_idx as int, start.used_count() + 1) == (
                self.slots(),
                removed as nat,
                ),
            decreases self.used_count(),
        {
            match self.items[idx as usize] {
                Piece::Empty => {
                    break ;
                },
                Piece::Filled(_, next) => {
                    proof {
                        lemma_filled_count_update(self.items@, idx as int, Piece::Empty);
                        assert(self.items@[idx as int] is Filled);
                        lemma_filled_count_bound(self.items@);
                    }
                    self.items[idx as usize] = Piece::Empty;
                    self.used = self.used - 1;
                    removed = removed + 1;
                    if idx == next {
                        break ;
                    }
                    idx = next;
                },
            }
        }
        removed
    }

    pub fn len(&self) -> (r: usize)
        ensures
            r == self.used_count(),
    {
        self.used as usize
    }
}

proof fn lemma_all_empty<const N: usize>(s: Seq<Piece<N>>)
    requires
        forall|i: int| 0 <= i < s.len() ==> s[i] is Empty,
    ensures
        filled_count(s) == 0,
    decreases s.len(),
{
    if s.len() > 0 {
        assert forall|i: int| 0 <= i < s.drop_last().len() implies s.drop_last()[i] is Empty by {
            assert(s.drop_last()[i] == s[i]);
        }
        lemma_all_empty(s.drop_last());
    }
}

/// Hands out the pieces of one list: their bytes, and whether each is the last.
pub struct PiecesIter<'a, const N: usize, const MAX_PIECES: usize> {
    pub(crate) items: &'a [Piece<N>; MAX_PIECES],
    pub(crate) idx: Option<u16>,
}

impl<'a, const N: usize, const MAX_PIECES: usize> PiecesIter<'a, N, MAX_PIECES> {
    pub open(crate) spec fn slots(&self) -> Seq<Piece<N>> {
        self.items@
    }

    /// The slot of the next piece, or `None` once the list has ended.
    pub open(crate) spec fn position(&self) -> Option<u16> {
        self.idx
    }

    pub fn next(&mut self) -> (r: Option<(&'a [u8], bool)>)
        ensures
            final(self).slots() == old(self).slots(),
            match old(self).position() {
                Some(i) if i < MAX_PIECES && old(self).slots()[i as int] is Filled => {
                    let p = old(self).slots()[i as int];
                    &&& r matches Some((d, last)) && d@ == p.data() && last == (p.next_idx()
                        == i)
                    &&& final(self).position() == (if p.next_idx() == i {
                        None
                    } else {
                        Some(p.next_idx())
                    })
                },
                _ => r is None && final(self).position() is None,
            },
    {
        let items: &'a [Piece<N>; MAX_PIECES] = self.items;
        match self.idx {
            Some(idx) => {
                if (idx as usize) < MAX_PIECES {
                    match &items[idx as usize] {
                        Piece::Empty => {
                            self.idx = None;
                            None
                        },
                        Piece::Filled(data, next_idx) => {
                            let next = *next_idx;
                            let bytes: &'a [u8] = data.as_slice();
                            if idx == next {
                                self.idx = None;
                                Some((bytes, true))
                            } else {
                                self.idx = Some(next);
                                Some((bytes, false))
                            }
                        },
                    }
                } else {
                    self.idx = None;
                    None
                }
            },
            None => None,
        }
    }
}

} // verus!
