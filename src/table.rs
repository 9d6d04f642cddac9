use vstd::prelude::*;

use heapless::FnvIndexMap;

use crate::transfer::Transfer;

verus! {

/// How many sessions the table can hold.
pub const SESSION_CAPACITY: usize = 128;

/// The live sessions, keyed by `key_bits`, in a fixed-capacity hash map of heapless.
///
/// The map's capacity is a const generic of heapless and its hasher a type of hash32; a
/// name for what the map holds cannot be generic, so the map stands in a struct of its own
/// with a fixed capacity.
#[verifier::external_body]
pub struct SessionTable {
    map: FnvIndexMap<u32, Transfer, 128>,
}

/// The sessions that the table holds.
pub uninterp spec fn sessions_of(t: SessionTable) -> Map<u32, Transfer>;

pub open spec fn no_sessions() -> Map<u32, Transfer> {
    Map::empty()
}

impl SessionTable {
    /// Relies on `heapless::IndexMap::new`: a new map is empty.
    #[verifier::external_body]
    pub(crate) fn new() -> (r: SessionTable)
        ensures
            sessions_of(r) == no_sessions(),
    {
        SessionTable { map: FnvIndexMap::new() }
    }

    /// Relies on `heapless::IndexMap::len`: the number of entries, at most the capacity.
    #[verifier::external_body]
    pub(crate) fn len(&self) -> (r: usize)
        ensures
            r == sessions_of(*self).len(),
            r <= SESSION_CAPACITY,
    {
        self.map.len()
    }

    /// Relies on `heapless::IndexMap::get`: the value stored under `key`, if any.
    #[verifier::external_body]
    pub(crate) fn get(&self, key: u32) -> (r: Option<Transfer>)
        ensures
            r == (if sessions_of(*self).contains_key(key) {
                Some(sessions_of(*self)[key])
            } else {
                None
            }),
    {
        self.map.get(&key).copied()
    }

    /// Relies on `heapless::IndexMap::insert`: below capacity, or when `key` is present, the
    /// value is stored under `key` (replacing an earlier one); an `Err` leaves the map as it
    /// was and comes only when the map is full and `key` absent.
    #[verifier::external_body]
    pub(crate) fn insert(&mut self, key: u32, value: Transfer) -> (r: bool)
        ensures
            r ==> sessions_of(*final(self)) == sessions_of(*old(self)).insert(key, value),
            !r ==> sessions_of(*final(self)) == sessions_of(*old(self)),
            sessions_of(*old(self)).len() < SESSION_CAPACITY ==> r,
            sessions_of(*old(self)).contains_key(key) ==> r,
    {
        self.map.insert(key, value).is_ok()
    }

    /// Relies on `heapless::IndexMap::remove`: the entry under `key` is gone, the others stay.
    #[verifier::external_body]
    pub(crate) fn remove(&mut self, key: u32)
        ensures
            sessions_of(*final(self)) == sessions_of(*old(self)).remove(key),
    {
        self.map.remove(&key);
    }

    /// Relies on `heapless::IndexMap::keys`: every key once, in the map's order.
    #[verifier::external_body]
    pub(crate) fn keys(&self) -> (r: Vec<u32>)
        ensures
            r@.no_duplicates(),
            forall|k: u32| #[trigger] r@.contains(k) <==> sessions_of(*self).contains_key(k),
    {
        self.map.keys().copied().collect()
    }
}

} // verus!
