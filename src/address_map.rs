//! A small map from peer addresses to room IDs.
use vstd::prelude::*;

use crate::protocol::Address;

verus! {

/// A map from addresses to room IDs, kept as a vector of entries with unique keys.
pub struct AddressMap {
    entries: Vec<(Address, u32)>,
    contents: Ghost<Map<Address, u32>>,
}

impl View for AddressMap {
    type V = Map<Address, u32>;

    closed spec fn view(&self) -> Map<Address, u32> {
        self.contents@
    }
}

impl AddressMap {
    /// The entries match the map, and no key is repeated.
    pub closed spec fn wf(&self) -> bool {
        &&& forall|i: int|
            0 <= i < self.entries@.len() ==> {
                let e = #[trigger] self.entries@[i];
                self.contents@.contains_key(e.0) && self.contents@[e.0] == e.1
            }
        &&& forall|k: Address| #[trigger]
            self.contents@.contains_key(k) ==> exists|i: int|
                0 <= i < self.entries@.len() && (#[trigger] self.entries@[i]).0 == k
        &&& forall|i: int, j: int|
            0 <= i < j < self.entries@.len() ==> (#[trigger] self.entries@[i]).0 != (
            #[trigger] self.entries@[j]).0
    }

    pub fn new() -> (r: AddressMap)
        ensures
            r.wf(),
            r@ == Map::<Address, u32>::empty(),
    {
        AddressMap { entries: Vec::new(), contents: Ghost(Map::empty()) }
    }

    fn find(&self, k: Address) -> (r: Option<usize>)
        requires
            self.wf(),
        ensures
            match r {
                Some(i) => i < self.entries@.len() && self.entries@[i as int].0 == k,
                None => !self@.contains_key(k),
            },
    {
        let mut i: usize = 0;
        while i < self.entries.len()
            invariant
                i <= self.entries@.len(),
                forall|j: int| 0 <= j < i ==> (#[trigger] self.entries@[j]).0 != k,
            decreases self.entries@.len() - i,
        {
            if self.entries[i].0 == k {
                return Some(i);
            }
            i += 1;
        }
        None
    }

    /// The room ID stored for `k`, if any.
    pub fn get(&self, k: Address) -> (r: Option<u32>)
        requires
            self.wf(),
        ensures
            r == (if self@.contains_key(k) {
                Some(self@[k])
            } else {
                None::<u32>
            }),
    {
        match self.find(k) {
            Some(i) => Some(self.entries[i].1),
            None => None,
        }
    }

    /// Stores `v` for `k`, replacing what was stored before.
    pub fn insert(&mut self, k: Address, v: u32)
        requires
            old(self).wf(),
        ensures
            final(self).wf(),
            final(self)@ == old(self)@.insert(k, v),
    {
        let ghost m = self.contents@.insert(k, v);
        match self.find(k) {
            Some(i) => {
                self.entries.set(i, (k, v));
                self.contents = Ghost(m);
                assert forall|k2: Address| #[trigger] m.contains_key(k2) implies exists|j: int|
                    0 <= j < self.entries@.len() && (#[trigger] self.entries@[j]).0 == k2 by {
                    if k2 != k {
                        let j = choose|j: int|
                            0 <= j < old(self).entries@.len() && (#[trigger] old(
                                self,
                            ).entries@[j]).0 == k2;
                        assert(self.entries@[j].0 == k2);
                    } else {
                        assert(self.entries@[i as int].0 == k2);
                    }
                }
            },
            None => {
                self.entries.push((k, v));
                self.contents = Ghost(m);
                assert forall|k2: Address| #[trigger] m.contains_key(k2) implies exists|j: int|
                    0 <= j < self.entries@.len() && (#[trigger] self.entries@[j]).0 == k2 by {
                    if k2 != k {
                        let j = choose|j: int|
                            0 <= j < old(self).entries@.len() && (#[trigger] old(
                                self,
                            ).entries@[j]).0 == k2;
                        assert(self.entries@[j].0 == k2);
                    } else {
                        assert(self.entries@[old(self).entries@.len() as int].0 == k2);
                    }
                }
            },
        }
    }

    /// Removes the entry of `k`, returning the room ID that was stored for it.
    pub fn remove(&mut self, k: Address) -> (r: Option<u32>)
        requires
            old(self).wf(),
        ensures
            final(self).wf(),
            final(self)@ == old(self)@.remove(k),
            r == (if old(self)@.contains_key(k) {
                Some(old(self)@[k])
            } else {
                None::<u32>
            }),
    {
        match self.find(k) {
            Some(i) => {
                let ghost m = self.contents@.remove(k);
                let e = self.entries.remove(i);
                self.contents = Ghost(m);
                assert forall|j: int| 0 <= j < self.entries@.len() implies {
                    let e2 = #[trigger] self.entries@[j];
                    m.contains_key(e2.0) && m[e2.0] == e2.1
                } by {
                    if j < i {
                        assert(old(self).entries@[j] == self.entries@[j]);
                    } else {
                        assert(old(self).entries@[j + 1] == self.entries@[j]);
                    }
                }
                assert forall|k2: Address| #[trigger] m.contains_key(k2) implies exists|j: int|
                    0 <= j < self.entries@.len() && (#[trigger] self.entries@[j]).0 == k2 by {
                    let j = choose|j: int|
                        0 <= j < old(self).entries@.len() && (#[trigger] old(
                            self,
                        ).entries@[j]).0 == k2;
                    if j < i {
                        assert(self.entries@[j].0 == k2);
                    } else {
                        assert(self.entries@[j - 1].0 == k2);
                    }
                }
                assert forall|a: int, b: int| 0 <= a < b < self.entries@.len() implies (
                #[trigger] self.entries@[a]).0 != (#[trigger] self.entries@[b]).0 by {
                    let a0 = if a < i {
                        a
                    } else {
                        a + 1
                    };
                    let b0 = if b < i {
                        b
                    } else {
                        b + 1
                    };
                    assert(self.entries@[a] == old(self).entries@[a0]);
                    assert(self.entries@[b] == old(self).entries@[b0]);
                }
                Some(e.1)
            },
            None => {
                assert(self.contents@.remove(k) =~= self.contents@);
                None
            },
        }
    }
}

} // verus!
