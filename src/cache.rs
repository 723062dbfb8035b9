//! Materialized states, by block hash.
use vstd::prelude::*;
use crate::hash::HashVal;

verus! {

/// A map from block hash to the materialized state of that block. The state
/// type is a parameter of the tree, so the map is held here as a list of
/// distinct hashes with a ghost view: what an outside concurrent map holds
/// could only be named for one fixed state type.
pub struct StateCache<S> {
    entries: Vec<(HashVal, S)>,
    map: Ghost<Map<Seq<u8>, S>>,
}

impl<S> StateCache<S> {
    /// What the cache holds.
    pub closed spec fn view(&self) -> Map<Seq<u8>, S> {
        self.map@
    }

    /// The entries list the map: distinct hashes, each with its state.
    pub closed spec fn wf(&self) -> bool {
        &&& forall|i: int, j: int|
            0 <= i < j < self.entries@.len() ==> self.entries@[i].0@ != self.entries@[j].0@
        &&& forall|i: int|
            0 <= i < self.entries@.len() ==> #[trigger] self.map@.contains_key(
                self.entries@[i].0@,
            ) && self.map@[self.entries@[i].0@] == self.entries@[i].1
        &&& forall|k: Seq<u8>|
            #[trigger] self.map@.contains_key(k) ==> exists|i: int|
                0 <= i < self.entries@.len() && #[trigger] self.entries@[i].0@ == k
    }

    /// An empty cache.
    pub fn new() -> (r: StateCache<S>)
        ensures
            r.wf(),
            r.view() == Map::<Seq<u8>, S>::empty(),
    {
        StateCache { entries: Vec::new(), map: Ghost(Map::empty()) }
    }

    fn find(&self, hash: &HashVal) -> (r: Option<usize>)
        requires
            self.wf(),
        ensures
            match r {
                Some(i) => i < self.entries@.len() && self.entries@[i as int].0@ == hash@
                    && self.view().contains_key(hash@) && self.view()[hash@]
                    == self.entries@[i as int].1,
                None => !self.view().contains_key(hash@),
            },
    {
        let mut i: usize = 0;
        while i < self.entries.len()
            invariant
                self.wf(),
                0 <= i <= self.entries@.len(),
                forall|j: int| 0 <= j < i ==> self.entries@[j].0@ != hash@,
            decreases self.entries@.len() - i,
        {
            if self.entries[i].0.same(hash) {
                return Some(i);
            }
            i += 1;
        }
        None
    }

    /// The state cached for `hash`.
    pub fn get(&self, hash: &HashVal) -> (r: Option<&S>)
        requires
            self.wf(),
        ensures
            match r {
                Some(s) => self.view().contains_key(hash@) && *s == self.view()[hash@],
                None => !self.view().contains_key(hash@),
            },
    {
        match self.find(hash) {
            Some(i) => Some(&self.entries[i].1),
            None => None,
        }
    }

    /// Caches `state` for `hash`, replacing what was there.
    pub fn insert(&mut self, hash: HashVal, state: S)
        requires
            old(self).wf(),
        ensures
            final(self).wf(),
            final(self).view() == old(self).view().insert(hash@, state),
    {
        let ghost old_entries = self.entries@;
        let ghost map = self.map@;
        let ghost new_map = self.map@.insert(hash@, state);
        match self.find(&hash) {
            Some(i) => {
                self.entries.set(i, (hash, state));
                self.map = Ghost(new_map);
                assert forall|a: int, b: int|
                    0 <= a < b < self.entries@.len() implies self.entries@[a].0@
                    != self.entries@[b].0@ by {
                    assert(old_entries[a].0@ != old_entries[b].0@);
                }
                assert forall|a: int|
                    0 <= a < self.entries@.len() implies #[trigger] new_map.contains_key(
                    self.entries@[a].0@,
                ) && new_map[self.entries@[a].0@] == self.entries@[a].1 by {
                    if a != i {
                        assert(old_entries[a].0@ != old_entries[i as int].0@);
                        assert(map.contains_key(old_entries[a].0@));
                    }
                }
                assert forall|k2: Seq<u8>| #[trigger] new_map.contains_key(k2) implies exists|
                    j: int,
                | 0 <= j < self.entries@.len() && #[trigger] self.entries@[j].0@ == k2 by {
                    if k2 != hash@ {
                        let j = choose|j: int|
                            0 <= j < old_entries.len() && #[trigger] old_entries[j].0@ == k2;
                        assert(self.entries@[j].0@ == k2);
                    } else {
                        assert(self.entries@[i as int].0@ == k2);
                    }
                }
            },
            None => {
                self.entries.push((hash, state));
                self.map = Ghost(new_map);
                assert forall|a: int, b: int|
                    0 <= a < b < self.entries@.len() implies self.entries@[a].0@
                    != self.entries@[b].0@ by {
                    if b < old_entries.len() {
                        assert(old_entries[a].0@ != old_entries[b].0@);
                    } else {
                        assert(map.contains_key(old_entries[a].0@));
                    }
                }
                assert forall|a: int|
                    0 <= a < self.entries@.len() implies #[trigger] new_map.contains_key(
                    self.entries@[a].0@,
                ) && new_map[self.entries@[a].0@] == self.entries@[a].1 by {
                    if a < old_entries.len() {
                        assert(map.contains_key(old_entries[a].0@));
                    }
                }
                assert forall|k2: Seq<u8>| #[trigger] new_map.contains_key(k2) implies exists|
                    j: int,
                | 0 <= j < self.entries@.len() && #[trigger] self.entries@[j].0@ == k2 by {
                    if k2 != hash@ {
                        let j = choose|j: int|
                            0 <= j < old_entries.len() && #[trigger] old_entries[j].0@ == k2;
                        assert(self.entries@[j].0@ == k2);
                    } else {
                        assert(self.entries@[old_entries.len() as int].0@ == k2);
                    }
                }
            },
        }
    }

    /// Drops what is cached for `hash`.
    pub fn remove(&mut self, hash: &HashVal)
        requires
            old(self).wf(),
        ensures
            final(self).wf(),
            final(self).view() == old(self).view().remove(hash@),
    {
        let ghost old_entries = self.entries@;
        let ghost map = self.map@;
        let ghost new_map = self.map@.remove(hash@);
        match self.find(hash) {
            Some(i) => {
                self.entries.remove(i);
                self.map = Ghost(new_map);
                assert forall|a: int, b: int|
                    0 <= a < b < self.entries@.len() implies self.entries@[a].0@
                    != self.entries@[b].0@ by {
                    let a0 = if a < i { a } else { a + 1 };
                    let b0 = if b < i { b } else { b + 1 };
                    assert(old_entries[a0].0@ != old_entries[b0].0@);
                }
                assert forall|a: int|
                    0 <= a < self.entries@.len() implies #[trigger] new_map.contains_key(
                    self.entries@[a].0@,
                ) && new_map[self.entries@[a].0@] == self.entries@[a].1 by {
                    let a0 = if a < i { a } else { a + 1 };
                    assert(old_entries[a0].0@ != old_entries[i as int].0@);
                    assert(map.contains_key(old_entries[a0].0@));
                }
                assert forall|k2: Seq<u8>| #[trigger] new_map.contains_key(k2) implies exists|
                    j: int,
                | 0 <= j < self.entries@.len() && #[trigger] self.entries@[j].0@ == k2 by {
                    let j = choose|j: int|
                        0 <= j < old_entries.len() && #[trigger] old_entries[j].0@ == k2;
                    assert(j != i);
                    if j < i {
                        assert(self.entries@[j].0@ == k2);
                    } else {
                        assert(self.entries@[j - 1].0@ == k2);
                    }
                }
            },
            None => {
                assert(self.map@ =~= new_map);
            },
        }
    }
}

} // verus!
