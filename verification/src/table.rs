//! Records held by address.

use std::collections::HashMap;
use vstd::prelude::*;

verus! {

broadcast use vstd::std_specs::hash::group_hash_axioms;

/// A record of type `V` for each of finitely many addresses.
pub struct Table<V> {
    map: HashMap<u64, V>,
}

impl<V> View for Table<V> {
    type V = Map<int, V>;

    closed spec fn view(&self) -> Map<int, V> {
        Map::new(
            |a: int| 0 <= a <= u64::MAX && self.map@.contains_key(a as u64),
            |a: int| self.map@[a as u64],
        )
    }
}

impl<V: Copy> Table<V> {
    /// A table without records.
    pub fn new() -> (t: Self)
        ensures
            t@ == Map::<int, V>::empty(),
    {
        let t = Table { map: HashMap::new() };
        assert(t@ =~= Map::<int, V>::empty());
        t
    }

    /// Whether there is a record at `addr`.
    pub fn contains(&self, addr: u64) -> (r: bool)
        ensures
            r == self@.contains_key(addr as int),
    {
        self.map.contains_key(&addr)
    }

    /// The record at `addr`.
    pub fn get(&self, addr: u64) -> (v: V)
        requires
            self@.contains_key(addr as int),
        ensures
            v == self@[addr as int],
    {
        *self.map.get(&addr).unwrap()
    }

    /// Makes `v` the record at `addr`.
    pub fn set(&mut self, addr: u64, v: V)
        ensures
            final(self)@ == old(self)@.insert(addr as int, v),
    {
        self.map.insert(addr, v);
        assert(self@ =~= old(self)@.insert(addr as int, v));
    }

    /// Drops the record at `addr`, if there is one.
    pub fn remove(&mut self, addr: u64)
        ensures
            final(self)@ == old(self)@.remove(addr as int),
    {
        self.map.remove(&addr);
        assert(self@ =~= old(self)@.remove(addr as int));
    }
}

} // verus!
