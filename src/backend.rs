//! The ordered key-value store that holds the tree, and an in-memory one.
use vstd::prelude::*;
use vstd::slice::slice_to_vec;
use crate::bytes::{lex_between, lex_le_bytes};

verus! {

/// An ordered key-value store over byte strings.
pub trait DbBackend {
    /// What the store holds.
    spec fn contents(&self) -> Map<Seq<u8>, Seq<u8>>;

    /// The value stored under `key`.
    fn get(&self, key: &[u8]) -> (r: Option<Vec<u8>>)
        ensures
            match r {
                Some(v) => self.contents().contains_key(key@) && v@ == self.contents()[key@],
                None => !self.contents().contains_key(key@),
            },
    ;

    /// Stores `value` under `key`; the last write wins.
    fn insert(&mut self, key: &[u8], value: &[u8])
        ensures
            final(self).contents() == old(self).contents().insert(key@, value@),
    ;

    /// Removes whatever is stored under `key`.
    fn remove(&mut self, key: &[u8])
        ensures
            final(self).contents() == old(self).contents().remove(key@),
    ;

    /// Every stored key `k` with `lo <= k <= hi` in lexicographic order, each once.
    fn key_range(&self, lo: &[u8], hi: &[u8]) -> (r: Vec<Vec<u8>>)
        ensures
            forall|i: int|
                0 <= i < r@.len() ==> #[trigger] self.contents().contains_key(r@[i]@)
                    && lex_between(lo@, r@[i]@, hi@),
            forall|k: Seq<u8>|
                #[trigger] self.contents().contains_key(k) && lex_between(lo@, k, hi@) ==> exists|
                    i: int,
                | 0 <= i < r@.len() && #[trigger] r@[i]@ == k,
            forall|i: int, j: int| 0 <= i < j < r@.len() ==> r@[i]@ != r@[j]@,
    ;
}

/// Byte-wise equality of two byte strings.
pub fn bytes_eq(a: &[u8], b: &[u8]) -> (r: bool)
    ensures
        r == (a@ == b@),
{
    if a.len() != b.len() {
        return false;
    }
    let mut i: usize = 0;
    while i < a.len()
        invariant
            0 <= i <= a@.len(),
            a@.len() == b@.len(),
            forall|j: int| 0 <= j < i ==> a@[j] == b@[j],
        decreases a@.len() - i,
    {
        if a[i] != b[i] {
            return false;
        }
        i += 1;
    }
    assert(a@ =~= b@);
    true
}

/// A store held in memory as a list of distinct keys with their values.
pub struct InMemoryBackend {
    entries: Vec<(Vec<u8>, Vec<u8>)>,
    map: Ghost<Map<Seq<u8>, Seq<u8>>>,
}

impl InMemoryBackend {
    /// The entries list the map: distinct keys, each with its value.
    #[verifier::type_invariant]
    spec fn wf(&self) -> bool {
        &&& forall|i: int, j: int|
            0 <= i < j < self.entries@.len() ==> self.entries@[i].0@ != self.entries@[j].0@
        &&& forall|i: int|
            0 <= i < self.entries@.len() ==> #[trigger] self.map@.contains_key(
                self.entries@[i].0@,
            ) && self.map@[self.entries@[i].0@] == self.entries@[i].1@
        &&& forall|k: Seq<u8>|
            #[trigger] self.map@.contains_key(k) ==> exists|i: int|
                0 <= i < self.entries@.len() && #[trigger] self.entries@[i].0@ == k
    }

    /// The store of these entries, which list `map`.
    fn from_parts(entries: Vec<(Vec<u8>, Vec<u8>)>, map: Ghost<Map<Seq<u8>, Seq<u8>>>) -> (r: InMemoryBackend)
        requires
            forall|i: int, j: int|
                0 <= i < j < entries@.len() ==> entries@[i].0@ != entries@[j].0@,
            forall|i: int|
                0 <= i < entries@.len() ==> #[trigger] map@.contains_key(entries@[i].0@)
                    && map@[entries@[i].0@] == entries@[i].1@,
            forall|k: Seq<u8>|
                #[trigger] map@.contains_key(k) ==> exists|i: int|
                    0 <= i < entries@.len() && #[trigger] entries@[i].0@ == k,
        ensures
            r.map@ == map@,
    {
        let ghost nb = InMemoryBackend { entries, map };
        assert(nb.entries@ == entries@);
        assert(nb.map@ == map@);
        assert(nb.wf());
        InMemoryBackend { entries, map }
    }

    /// An empty store.
    pub fn new() -> (r: InMemoryBackend)
        ensures
            r.contents() == Map::<Seq<u8>, Seq<u8>>::empty(),
    {
        InMemoryBackend { entries: Vec::new(), map: Ghost(Map::empty()) }
    }

    /// The index of the entry under `key`.
    fn find(&self, key: &[u8]) -> (r: Option<usize>)
        ensures
            match r {
                Some(i) => i < self.entries@.len() && self.entries@[i as int].0@ == key@
                    && self.map@.contains_key(key@) && self.map@[key@] == self.entries@[i as int].1@,
                None => !self.map@.contains_key(key@),
            },
    {
        proof {
            use_type_invariant(self);
        }
        let mut i: usize = 0;
        while i < self.entries.len()
            invariant
                self.wf(),
                0 <= i <= self.entries@.len(),
                forall|j: int| 0 <= j < i ==> self.entries@[j].0@ != key@,
            decreases self.entries@.len() - i,
        {
            if bytes_eq(self.entries[i].0.as_slice(), key) {
                return Some(i);
            }
            i += 1;
        }
        None
    }
}

impl Default for InMemoryBackend {
    fn default() -> (r: InMemoryBackend)
        ensures
            r.contents() == Map::<Seq<u8>, Seq<u8>>::empty(),
    {
        InMemoryBackend::new()
    }
}

impl DbBackend for InMemoryBackend {
    closed spec fn contents(&self) -> Map<Seq<u8>, Seq<u8>> {
        self.map@
    }

    fn get(&self, key: &[u8]) -> (r: Option<Vec<u8>>) {
        match self.find(key) {
            Some(i) => Some(slice_to_vec(self.entries[i].1.as_slice())),
            None => None,
        }
    }

    fn insert(&mut self, key: &[u8], value: &[u8]) {
        let found = self.find(key);
        let mut taken = InMemoryBackend::new();
        std::mem::swap(self, &mut taken);
        proof {
            use_type_invariant(&taken);
        }
        let InMemoryBackend { mut entries, map } = taken;
        let ghost old_entries = entries@;
        let ghost new_map = map@.insert(key@, value@);
        let k = slice_to_vec(key);
        let v = slice_to_vec(value);
        match found {
            Some(i) => {
                entries.set(i, (k, v));
                assert forall|a: int, b: int|
                    0 <= a < b < entries@.len() implies entries@[a].0@ != entries@[b].0@ by {
                    assert(old_entries[a].0@ != old_entries[b].0@);
                }
                assert forall|a: int| 0 <= a < entries@.len() implies #[trigger] new_map.contains_key(
                    entries@[a].0@,
                ) && new_map[entries@[a].0@] == entries@[a].1@ by {
                    if a != i {
                        assert(old_entries[a].0@ != old_entries[i as int].0@);
                        assert(map@.contains_key(old_entries[a].0@));
                    }
                }
                assert forall|k2: Seq<u8>| #[trigger] new_map.contains_key(k2) implies exists|
                    j: int,
                | 0 <= j < entries@.len() && #[trigger] entries@[j].0@ == k2 by {
                    if k2 != key@ {
                        let j = choose|j: int|
                            0 <= j < old_entries.len() && #[trigger] old_entries[j].0@ == k2;
                        assert(entries@[j].0@ == k2);
                    } else {
                        assert(entries@[i as int].0@ == k2);
                    }
                }
            },
            None => {
                entries.push((k, v));
                assert forall|a: int, b: int|
                    0 <= a < b < entries@.len() implies entries@[a].0@ != entries@[b].0@ by {
                    if b < old_entries.len() {
                        assert(old_entries[a].0@ != old_entries[b].0@);
                    } else {
                        assert(map@.contains_key(old_entries[a].0@));
                    }
                }
                assert forall|a: int| 0 <= a < entries@.len() implies #[trigger] new_map.contains_key(
                    entries@[a].0@,
                ) && new_map[entries@[a].0@] == entries@[a].1@ by {
                    if a < old_entries.len() {
                        assert(map@.contains_key(old_entries[a].0@));
                    }
                }
                assert forall|k2: Seq<u8>| #[trigger] new_map.contains_key(k2) implies exists|
                    j: int,
                | 0 <= j < entries@.len() && #[trigger] entries@[j].0@ == k2 by {
                    if k2 != key@ {
                        let j = choose|j: int|
                            0 <= j < old_entries.len() && #[trigger] old_entries[j].0@ == k2;
                        assert(entries@[j].0@ == k2);
                    } else {
                        assert(entries@[old_entries.len() as int].0@ == k2);
                    }
                }
            },
        }
        *self = InMemoryBackend::from_parts(entries, Ghost(new_map));
    }

    fn remove(&mut self, key: &[u8]) {
        let found = self.find(key);
        match found {
            Some(i) => {
                let mut taken = InMemoryBackend::new();
                std::mem::swap(self, &mut taken);
                proof {
                    use_type_invariant(&taken);
                }
                let InMemoryBackend { mut entries, map } = taken;
                let ghost old_entries = entries@;
                let ghost new_map = map@.remove(key@);
                entries.remove(i);
                assert forall|a: int, b: int|
                    0 <= a < b < entries@.len() implies entries@[a].0@ != entries@[b].0@ by {
                    let a0 = if a < i { a } else { a + 1 };
                    let b0 = if b < i { b } else { b + 1 };
                    assert(old_entries[a0].0@ != old_entries[b0].0@);
                }
                assert forall|a: int| 0 <= a < entries@.len() implies #[trigger] new_map.contains_key(
                    entries@[a].0@,
                ) && new_map[entries@[a].0@] == entries@[a].1@ by {
                    let a0 = if a < i { a } else { a + 1 };
                    assert(old_entries[a0].0@ != old_entries[i as int].0@);
                    assert(map@.contains_key(old_entries[a0].0@));
                }
                assert forall|k2: Seq<u8>| #[trigger] new_map.contains_key(k2) implies exists|
                    j: int,
                | 0 <= j < entries@.len() && #[trigger] entries@[j].0@ == k2 by {
                    let j = choose|j: int|
                        0 <= j < old_entries.len() && #[trigger] old_entries[j].0@ == k2;
                    assert(j != i);
                    if j < i {
                        assert(entries@[j].0@ == k2);
                    } else {
                        assert(entries@[j - 1].0@ == k2);
                    }
                }
                *self = InMemoryBackend::from_parts(entries, Ghost(new_map));
            },
            None => {
                assert(self.map@ =~= self.map@.remove(key@));
            },
        }
    }

    fn key_range(&self, lo: &[u8], hi: &[u8]) -> (r: Vec<Vec<u8>>) {
        proof {
            use_type_invariant(self);
        }
        let mut r: Vec<Vec<u8>> = Vec::new();
        let ghost mut idx: Seq<int> = Seq::empty();
        let mut i: usize = 0;
        while i < self.entries.len()
            invariant
                self.wf(),
                0 <= i <= self.entries@.len(),
                r@.len() == idx.len(),
                forall|a: int|
                    0 <= a < idx.len() ==> 0 <= #[trigger] idx[a] < i && r@[a]@
                        == self.entries@[idx[a]].0@,
                forall|a: int, b: int| 0 <= a < b < idx.len() ==> idx[a] < idx[b],
                forall|a: int|
                    0 <= a < r@.len() ==> #[trigger] self.map@.contains_key(r@[a]@)
                        && lex_between(lo@, r@[a]@, hi@),
                forall|j: int|
                    0 <= j < i && lex_between(lo@, #[trigger] self.entries@[j].0@, hi@)
                        ==> exists|a: int| 0 <= a < r@.len() && r@[a]@ == self.entries@[j].0@,
            decreases self.entries@.len() - i,
        {
            let k = self.entries[i].0.as_slice();
            let ghost old_r = r@;
            if lex_le_bytes(lo, k) && lex_le_bytes(k, hi) {
                r.push(slice_to_vec(k));
                proof {
                    idx = idx.push(i as int);
                    assert(r@[r@.len() - 1]@ == self.entries@[i as int].0@);
                }
            }
            proof {
                assert forall|j: int|
                    0 <= j < i + 1 && lex_between(lo@, #[trigger] self.entries@[j].0@, hi@)
                        implies exists|a: int| 0 <= a < r@.len() && r@[a]@ == self.entries@[j].0@ by {
                    if j < i {
                        let a = choose|a: int| 0 <= a < old_r.len() && old_r[a]@ == self.entries@[j].0@;
                        assert(r@[a] == old_r[a]);
                    } else {
                        assert(r@[r@.len() - 1]@ == self.entries@[i as int].0@);
                    }
                }
            }
            i += 1;
        }
        assert forall|k: Seq<u8>|
            #[trigger] self.map@.contains_key(k) && lex_between(lo@, k, hi@) implies exists|
                a: int,
            | 0 <= a < r@.len() && #[trigger] r@[a]@ == k by {
            let j = choose|j: int| 0 <= j < self.entries@.len() && #[trigger] self.entries@[j].0@ == k;
            assert(lex_between(lo@, self.entries@[j].0@, hi@));
        }
        assert forall|a: int, b: int| 0 <= a < b < r@.len() implies r@[a]@ != r@[b]@ by {
            assert(idx[a] < idx[b]);
        }
        r
    }
}

} // verus!
