//! The block tree: every observed block, its children, the tips of competing
//! chains and pruning by genesis, kept in one ordered key-value backend.
use vstd::prelude::*;
use vstd::slice::slice_to_vec;
use crate::backend::DbBackend;
use crate::bytes::{be64, fill, u64_from_be_at, u64_to_be};
use crate::cache::StateCache;
use crate::hash::HashVal;
use crate::header::{header_hash, Header, ProposerAction};
use crate::keys::{
    hash_of_key, index_key, key_of, lemma_key_in_height_range, main_key, tip_key, INDEX_HEIGHT,
    TIP_HEIGHT,
};
use crate::layout::{
    index_of, layout_ok, lemma_put_index, lemma_put_main, lemma_put_tip, lemma_remove_index,
    lemma_remove_main, lemma_remove_tip, main_of, tips_of,
};
use crate::record::{record_bytes, record_fits, Record, RecordView};

verus! {

/// The three tables of a tree.
pub struct TreeView {
    /// The record of each block, by (height, hash).
    pub main: Map<(u64, Seq<u8>), RecordView>,
    /// The height of each block, by hash.
    pub index: Map<Seq<u8>, u64>,
    /// The hashes of the blocks without children.
    pub tips: Set<Seq<u8>>,
}

/// The tables held in a backend's contents.
pub open spec fn view_of(m: Map<Seq<u8>, Seq<u8>>) -> TreeView {
    TreeView { main: main_of(m), index: index_of(m), tips: tips_of(m) }
}

/// `r` lists `x` among its children.
pub open spec fn has_child(r: RecordView, x: Seq<u8>) -> bool {
    exists|j: int| 0 <= j < r.next.len() && #[trigger] r.next[j]@ == x
}

/// Each record sits under its own height and hash, with distinct children.
#[verifier::opaque]
pub open spec fn records_ok(v: TreeView) -> bool {
    forall|k: (u64, Seq<u8>)| #[trigger]
        v.main.contains_key(k) ==> {
            let r = v.main[k];
            &&& k.0 < TIP_HEIGHT
            &&& k.1.len() == 32
            &&& r.header.height == k.0
            &&& header_hash(r.header) == k.1
            &&& record_fits(r)
            &&& forall|i: int, j: int| 0 <= i < j < r.next.len() ==> r.next[i]@ != r.next[j]@
        }
}

/// The index maps exactly the hashes of the records to their heights.
#[verifier::opaque]
pub open spec fn index_ok(v: TreeView) -> bool {
    &&& forall|k: (u64, Seq<u8>)| #[trigger]
        v.main.contains_key(k) ==> v.index.contains_key(k.1) && v.index[k.1] == k.0
    &&& forall|x: Seq<u8>| #[trigger]
        v.index.contains_key(x) ==> v.main.contains_key((v.index[x], x))
}

/// The tips are exactly the records without children.
#[verifier::opaque]
pub open spec fn tips_ok(v: TreeView) -> bool {
    &&& forall|x: Seq<u8>| #[trigger]
        v.tips.contains(x) ==> v.index.contains_key(x) && v.main[(v.index[x], x)].next.len() == 0
    &&& forall|x: Seq<u8>| #[trigger]
        v.index.contains_key(x) && v.main[(v.index[x], x)].next.len() == 0 ==> v.tips.contains(x)
}

/// A record whose parent is present is among the parent's children.
#[verifier::opaque]
pub open spec fn parents_ok(v: TreeView) -> bool {
    forall|k: (u64, Seq<u8>)| #[trigger]
        v.main.contains_key(k) && k.0 >= 1 && v.main.contains_key(
            ((k.0 - 1) as u64, v.main[k].header.previous@),
        ) ==> has_child(v.main[((k.0 - 1) as u64, v.main[k].header.previous@)], k.1)
}

/// Each child listed by a record is present one height up and points back.
#[verifier::opaque]
pub open spec fn children_ok(v: TreeView) -> bool {
    forall|k: (u64, Seq<u8>), j: int|
        #![trigger v.main[k].next[j]]
        v.main.contains_key(k) && 0 <= j < v.main[k].next.len() ==> {
            let c = ((k.0 + 1) as u64, v.main[k].next[j]@);
            &&& k.0 + 1 < TIP_HEIGHT
            &&& v.main.contains_key(c)
            &&& v.main[c].header.previous@ == k.1
        }
}

/// The invariants of a tree.
pub open spec fn graph_ok(v: TreeView) -> bool {
    &&& records_ok(v)
    &&& index_ok(v)
    &&& tips_ok(v)
    &&& parents_ok(v)
    &&& children_ok(v)
}

/// Backend contents that hold a well-formed tree.
pub open spec fn contents_ok(m: Map<Seq<u8>, Seq<u8>>) -> bool {
    layout_ok(m) && graph_ok(view_of(m))
}

/// A block tree, stored on a particular backend, with a cache of
/// materialized states of type `S`.
pub struct BlockTree<B: DbBackend, S> {
    backend: B,
    cache: StateCache<S>,
}

/// A sealed state as the tree stores it: its header, its compact encoding,
/// the proposer's action, and the materialized state.
pub struct SealedState<S> {
    pub header: Header,
    pub partial_encoding: Vec<u8>,
    pub action: Option<ProposerAction>,
    pub state: S,
}

/// An error returned when applying a block.
#[derive(Debug)]
pub enum ApplyBlockErr<E> {
    /// No record of the parent, whose hash is given.
    ParentNotFound(HashVal),
    /// The validator refused the block.
    CannotValidate(E),
    /// The validated state's header differs from the block's.
    HeaderMismatch,
}

impl<B: DbBackend, S> BlockTree<B, S> {
    /// The tables of the tree.
    pub closed spec fn view(&self) -> TreeView {
        view_of(self.backend.contents())
    }

    /// The cached states, by block hash.
    pub closed spec fn cached(&self) -> Map<Seq<u8>, S> {
        self.cache.view()
    }

    /// The tree's invariants hold and the cache holds states of present
    /// blocks only.
    #[verifier::opaque]
    pub closed spec fn wf(&self) -> bool {
        &&& contents_ok(self.backend.contents())
        &&& self.cache.wf()
        &&& forall|x: Seq<u8>| #[trigger]
            self.cache.view().contains_key(x) ==> self.view().index.contains_key(x)
    }

    /// Creates a tree over a backend that holds a well-formed tree, with an
    /// empty cache. A store left by a crash is opened with `open` and tidied
    /// with `initial_tip_cleanup`.
    pub fn new(backend: B) -> (r: Self)
        requires
            contents_ok(backend.contents()),
        ensures
            r.wf(),
            r.view() == view_of(backend.contents()),
            r.cached() == Map::<Seq<u8>, S>::empty(),
    {
        proof {
            reveal(BlockTree::wf);
        }
        BlockTree { backend, cache: StateCache::new() }
    }

    /// The height recorded in the index for `hash`.
    fn index_get(&self, hash: &HashVal) -> (r: Option<u64>)
        requires
            layout_ok(self.backend.contents()),
        ensures
            r == (if self.view().index.contains_key(hash@) {
                Some(self.view().index[hash@])
            } else {
                None::<u64>
            }),
    {
        reveal(layout_ok);
        let k = index_key(hash);
        match self.backend.get(k.as_slice()) {
            Some(v) => {
                assert(v@.subrange(0, 8) =~= v@);
                Some(u64_from_be_at(v.as_slice(), 0))
            },
            None => None,
        }
    }

    /// The record under (height, hash).
    fn internal_get(&self, hash: &HashVal, height: u64) -> (r: Option<Record>)
        requires
            layout_ok(self.backend.contents()),
        ensures
            match r {
                Some(v) => self.view().main.contains_key((height, hash@)) && v@ == self.view().main[(
                    height,
                    hash@,
                )],
                None => !self.view().main.contains_key((height, hash@)),
            },
    {
        reveal(layout_ok);
        if height >= TIP_HEIGHT {
            return None;
        }
        let k = main_key(hash, height);
        match self.backend.get(k.as_slice()) {
            Some(v) => Record::decode(v.as_slice()),
            None => None,
        }
    }

    /// The record of `hash`, looked up at `height` or, without one, through
    /// the index.
    fn get_block(&self, hash: &HashVal, height: Option<u64>) -> (r: Option<Record>)
        requires
            contents_ok(self.backend.contents()),
        ensures
            match height {
                Some(h) => match r {
                    Some(v) => self.view().main.contains_key((h, hash@)) && v@ == self.view().main[(
                        h,
                        hash@,
                    )],
                    None => !self.view().main.contains_key((h, hash@)),
                },
                None => match r {
                    Some(v) => self.view().index.contains_key(hash@) && v@ == self.view().main[(
                        self.view().index[hash@],
                        hash@,
                    )],
                    None => !self.view().index.contains_key(hash@),
                },
            },
    {
        proof {
            reveal(index_ok);
        }
        let h = match height {
            Some(h) => h,
            None => match self.index_get(hash) {
                Some(h) => h,
                None => return None,
            },
        };
        self.internal_get(hash, h)
    }

    /// The hashes of every key written under `height`.
    fn all_under(&self, height: u64) -> (r: Vec<HashVal>)
        requires
            layout_ok(self.backend.contents()),
        ensures
            forall|i: int|
                0 <= i < r@.len() ==> #[trigger] self.backend.contents().contains_key(
                    key_of(height, r@[i]@),
                ),
            forall|x: Seq<u8>|
                x.len() == 32 && #[trigger] self.backend.contents().contains_key(key_of(height, x))
                    ==> exists|i: int| 0 <= i < r@.len() && #[trigger] r@[i]@ == x,
            forall|i: int, j: int| 0 <= i < j < r@.len() ==> r@[i]@ != r@[j]@,
    {
        let ghost m = self.backend.contents();
        reveal(layout_ok);
        let lo = main_key(&HashVal::filled(0), height);
        let hi = main_key(&HashVal::filled(0xff), height);
        assert(lo@ =~= key_of(height, fill(0, 32)));
        assert(hi@ =~= key_of(height, fill(0xff, 32)));
        let keys = self.backend.key_range(lo.as_slice(), hi.as_slice());
        let mut r: Vec<HashVal> = Vec::new();
        let mut i: usize = 0;
        while i < keys.len()
            invariant
                0 <= i <= keys@.len(),
                r@.len() == i,
                m == self.backend.contents(),
                layout_ok(m),
                lo@ == key_of(height, fill(0, 32)),
                hi@ == key_of(height, fill(0xff, 32)),
                forall|a: int|
                    0 <= a < keys@.len() ==> #[trigger] m.contains_key(keys@[a]@)
                        && crate::bytes::lex_between(lo@, keys@[a]@, hi@),
                forall|a: int| 0 <= a < i ==> #[trigger] keys@[a]@ == key_of(height, r@[a]@),
                forall|a: int, b: int| 0 <= a < b < keys@.len() ==> keys@[a]@ != keys@[b]@,
            decreases keys@.len() - i,
        {
            let k = keys[i].as_slice();
            assert(m.contains_key(keys@[i as int]@));
            reveal(layout_ok);
            proof {
                lemma_key_in_height_range(height, k@);
            }
            let x = hash_of_key(k);
            r.push(x);
            i += 1;
        }
        assert forall|x: Seq<u8>|
            x.len() == 32 && #[trigger] m.contains_key(key_of(height, x)) implies exists|i: int|
                0 <= i < r@.len() && #[trigger] r@[i]@ == x by {
            let k = key_of(height, x);
            crate::bytes::lemma_be64_round_trip(height);
            assert(k.skip(8) =~= x);
            lemma_key_in_height_range(height, k);
            let a = choose|a: int| 0 <= a < keys@.len() && #[trigger] keys@[a]@ == k;
            crate::keys::lemma_key_injective(height, r@[a]@, height, x);
        }
        assert forall|a: int, b: int| 0 <= a < b < r@.len() implies r@[a]@ != r@[b]@ by {
            assert(keys@[a]@ == key_of(height, r@[a]@));
            assert(keys@[b]@ == key_of(height, r@[b]@));
        }
        assert forall|a: int| 0 <= a < r@.len() implies #[trigger] m.contains_key(
            key_of(height, r@[a]@),
        ) by {
            assert(keys@[a]@ == key_of(height, r@[a]@));
        }
        r
    }
}

} // verus!

verus! {

/// A cursor, pointing to a block inside the tree. While it lives the tree
/// cannot change.
pub struct Cursor<'a, B: DbBackend, S> {
    tree: &'a BlockTree<B, S>,
    internal: Record,
}

impl<'a, B: DbBackend, S> Cursor<'a, B, S> {
    /// The tree the cursor points into.
    pub closed spec fn tree(&self) -> BlockTree<B, S> {
        *self.tree
    }

    /// The record the cursor holds.
    pub closed spec fn record(&self) -> RecordView {
        self.internal@
    }

    /// The hash of the block the cursor points to.
    pub open spec fn block_hash(&self) -> Seq<u8> {
        header_hash(self.record().header)
    }

    /// The cursor holds the record that the tree holds for its block.
    pub closed spec fn wf(&self) -> bool {
        &&& self.tree.wf()
        &&& self.tree.view().main.contains_key(
            (self.internal.header.height, header_hash(self.internal.header)),
        )
        &&& self.tree.view().main[(self.internal.header.height, header_hash(self.internal.header))]
            == self.internal@
    }

    /// The cached state of the block; `None` when it is not cached, in which
    /// case it is rebuilt from `partial_state`.
    pub fn to_state(&self) -> (r: Option<&'a S>)
        requires
            self.wf(),
        ensures
            match r {
                Some(s) => self.tree().cached().contains_key(self.block_hash()) && *s
                    == self.tree().cached()[self.block_hash()],
                None => !self.tree().cached().contains_key(self.block_hash()),
            },
    {
        proof {
            reveal(BlockTree::wf);
        }
        let h = self.internal.header.hash();
        let tree: &'a BlockTree<B, S> = self.tree;
        tree.cache.get(&h)
    }

    /// The compact encoding of the block's sealed state.
    pub fn partial_state(&self) -> (r: &[u8])
        ensures
            r@ == self.record().partial_state,
    {
        self.internal.partial_state.as_slice()
    }

    /// Extracts the header.
    pub fn header(&self) -> (r: Header)
        ensures
            r == self.record().header,
    {
        self.internal.header
    }

    /// Extracts the metadata.
    pub fn metadata(&self) -> (r: &[u8])
        ensures
            r@ == self.record().metadata,
    {
        self.internal.metadata.as_slice()
    }

    /// The cursors of the children, in the order the record lists them.
    pub fn children(&self) -> (r: Vec<Self>)
        requires
            self.wf(),
        ensures
            r@.len() == self.record().next.len(),
            forall|i: int|
                0 <= i < r@.len() ==> #[trigger] r@[i].wf() && r@[i].tree() == self.tree()
                    && r@[i].block_hash() == self.record().next[i]@ && r@[i].record().header.height
                    == self.record().header.height + 1,
    {
        proof {
            reveal(BlockTree::wf);
        }
        let ghost k = (self.internal.header.height, header_hash(self.internal.header));
        let tree: &'a BlockTree<B, S> = self.tree;
        let mut r: Vec<Self> = Vec::new();
        let mut i: usize = 0;
        while i < self.internal.next.len()
            invariant
                self.wf(),
                tree == self.tree,
                k == (self.internal.header.height, header_hash(self.internal.header)),
                0 <= i <= self.internal.next@.len(),
                r@.len() == i,
                forall|a: int|
                    #![trigger r@[a]]
                0 <= a < i ==> r@[a].wf() && r@[a].tree() == self.tree()
                        && r@[a].block_hash() == self.record().next[a]@
                        && r@[a].record().header.height == self.record().header.height + 1,
            decreases self.internal.next@.len() - i,
        {
            let c = &self.internal.next[i];
            proof {
                reveal(BlockTree::wf);
                reveal(records_ok);
                reveal(children_ok);
                assert(tree.view().main.contains_key(k));
                assert(tree.view().main[k].next[i as int] == *c);
            }
            match tree.get_block(c, Some(self.internal.header.height + 1)) {
                Some(rec) => {
                    r.push(Cursor { tree, internal: rec });
                },
                None => {},
            }
            i += 1;
        }
        r
    }

    /// The cursor of the parent, if the parent is present.
    pub fn parent(&self) -> (r: Option<Self>)
        requires
            self.wf(),
        ensures
            match r {
                Some(p) => p.wf() && p.tree() == self.tree() && p.block_hash()
                    == self.record().header.previous@ && self.tree().view().index.contains_key(
                    self.record().header.previous@,
                ),
                None => !self.tree().view().index.contains_key(self.record().header.previous@),
            },
    {
        let tree: &'a BlockTree<B, S> = self.tree;
        tree.get_cursor(&self.internal.header.previous)
    }
}

impl<B: DbBackend, S> BlockTree<B, S> {
    /// Obtains a cursor pointing to the block `hash`.
    pub fn get_cursor<'a>(&'a self, hash: &HashVal) -> (r: Option<Cursor<'a, B, S>>)
        requires
            self.wf(),
        ensures
            match r {
                Some(c) => self.view().index.contains_key(hash@) && c.wf() && c.tree() == *self
                    && c.block_hash() == hash@ && c.record() == self.view().main[(
                    self.view().index[hash@],
                    hash@,
                )],
                None => !self.view().index.contains_key(hash@),
            },
    {
        proof {
            reveal(BlockTree::wf);
            reveal(records_ok);
            reveal(index_ok);
        }
        match self.get_block(hash, None) {
            Some(internal) => Some(Cursor { tree: self, internal }),
            None => None,
        }
    }

    /// The cursors of the tips, each tip once.
    pub fn get_tips<'a>(&'a self) -> (r: Vec<Cursor<'a, B, S>>)
        requires
            self.wf(),
        ensures
            forall|i: int|
                0 <= i < r@.len() ==> #[trigger] r@[i].wf() && r@[i].tree() == *self
                    && self.view().tips.contains(r@[i].block_hash()),
            forall|x: Seq<u8>| #[trigger]
                self.view().tips.contains(x) ==> exists|i: int|
                    0 <= i < r@.len() && #[trigger] r@[i].block_hash() == x,
            forall|i: int, j: int| 0 <= i < j < r@.len() ==> r@[i].block_hash() != r@[j].block_hash(),
    {
        proof {
            reveal(BlockTree::wf);
        }
        let keys = self.all_under(TIP_HEIGHT);
        let ghost v = self.view();
        let mut r: Vec<Cursor<'a, B, S>> = Vec::new();
        let mut i: usize = 0;
        while i < keys.len()
            invariant
                self.wf(),
                v == self.view(),
                0 <= i <= keys@.len(),
                r@.len() == i,
                forall|a: int| 0 <= a < keys@.len() ==> #[trigger] v.tips.contains(keys@[a]@),
                forall|a: int|
                    #![trigger r@[a]]
                    0 <= a < i ==> r@[a].wf() && r@[a].tree() == *self
                        && r@[a].block_hash() == keys@[a]@,
            decreases keys@.len() - i,
        {
            let ghost x = keys@[i as int]@;
            assert(v.tips.contains(x));
            proof {
                reveal(BlockTree::wf);
                reveal(tips_ok);
            }
            match self.get_cursor(&keys[i]) {
                Some(c) => {
                    r.push(c);
                },
                None => {},
            }
            i += 1;
        }
        assert forall|x: Seq<u8>| #[trigger] v.tips.contains(x) implies exists|i: int|
            0 <= i < r@.len() && #[trigger] r@[i].block_hash() == x by {
            assert(self.backend.contents().contains_key(key_of(TIP_HEIGHT, x)));
            let a = choose|a: int| 0 <= a < keys@.len() && #[trigger] keys@[a]@ == x;
            assert(r@[a].block_hash() == x);
        }
        assert forall|a: int, b: int|
            0 <= a < b < r@.len() implies r@[a].block_hash() != r@[b].block_hash() by {
            assert(keys@[a]@ != keys@[b]@);
        }
        r
    }

    /// The cursors of all blocks at `height`, each once.
    pub fn get_at_height<'a>(&'a self, height: u64) -> (r: Vec<Cursor<'a, B, S>>)
        requires
            self.wf(),
        ensures
            forall|i: int|
                0 <= i < r@.len() ==> #[trigger] r@[i].wf() && r@[i].tree() == *self
                    && r@[i].record().header.height == height,
            forall|x: Seq<u8>|
                #[trigger] self.view().main.contains_key((height, x)) ==> exists|i: int|
                    0 <= i < r@.len() && #[trigger] r@[i].block_hash() == x,
            forall|i: int, j: int| 0 <= i < j < r@.len() ==> r@[i].block_hash() != r@[j].block_hash(),
    {
        proof {
            reveal(BlockTree::wf);
        }
        let mut r: Vec<Cursor<'a, B, S>> = Vec::new();
        if height >= TIP_HEIGHT {
            return r;
        }
        let keys = self.all_under(height);
        let ghost v = self.view();
        let mut i: usize = 0;
        while i < keys.len()
            invariant
                self.wf(),
                v == self.view(),
                height < TIP_HEIGHT,
                0 <= i <= keys@.len(),
                r@.len() == i,
                forall|a: int|
                    0 <= a < keys@.len() ==> #[trigger] v.main.contains_key((height, keys@[a]@)),
                forall|a: int|
                    #![trigger r@[a]]
                    0 <= a < i ==> r@[a].wf() && r@[a].tree() == *self
                        && r@[a].block_hash() == keys@[a]@ && r@[a].record().header.height
                        == height,
            decreases keys@.len() - i,
        {
            assert(v.main.contains_key((height, keys@[i as int]@)));
            proof {
                reveal(BlockTree::wf);
                reveal(records_ok);
            }
            match self.get_block(&keys[i], Some(height)) {
                Some(internal) => {
                    r.push(Cursor { tree: self, internal });
                },
                None => {},
            }
            i += 1;
        }
        assert forall|x: Seq<u8>| #[trigger] v.main.contains_key((height, x)) implies exists|i: int|
            0 <= i < r@.len() && #[trigger] r@[i].block_hash() == x by {
            assert(self.backend.contents().contains_key(key_of(height, x)));
            let a = choose|a: int| 0 <= a < keys@.len() && #[trigger] keys@[a]@ == x;
            assert(r@[a].block_hash() == x);
        }
        assert forall|a: int, b: int|
            0 <= a < b < r@.len() implies r@[a].block_hash() != r@[b].block_hash() by {
            assert(keys@[a]@ != keys@[b]@);
        }
        r
    }
}

} // verus!

verus! {

/// The parent key of a record at height `h` whose previous hash is `p`.
pub open spec fn parent_key(h: u64, p: Seq<u8>) -> (u64, Seq<u8>) {
    ((h - 1) as u64, p)
}

/// `r` with `x` added to its children.
pub open spec fn with_child(r: RecordView, x: HashVal) -> RecordView {
    RecordView { next: r.next.push(x), ..r }
}

/// The parent of a record at height `h` with previous hash `p` is present in `v`.
pub open spec fn parent_present(v: TreeView, h: u64, p: Seq<u8>) -> bool {
    h >= 1 && v.main.contains_key(parent_key(h, p))
}

/// `rec` may be added to `v` as the block `x`: it is absent, sits below the
/// sentinel heights, and lists as children exactly the records one height up
/// that point to it.
pub open spec fn insertable(v: TreeView, rec: RecordView, x: HashVal) -> bool {
    let h = rec.header.height;
    &&& !v.index.contains_key(x@)
    &&& h < TIP_HEIGHT
    &&& header_hash(rec.header) == x@
    &&& record_fits(rec)
    &&& forall|i: int, j: int| 0 <= i < j < rec.next.len() ==> rec.next[i]@ != rec.next[j]@
    &&& forall|j: int|
        0 <= j < rec.next.len() ==> h + 1 < TIP_HEIGHT && #[trigger] v.main.contains_key(
            ((h + 1) as u64, rec.next[j]@),
        ) && v.main[((h + 1) as u64, rec.next[j]@)].header.previous@ == x@
    &&& forall|y: Seq<u8>|
        h + 1 < TIP_HEIGHT && #[trigger] v.main.contains_key(((h + 1) as u64, y))
            && v.main[((h + 1) as u64, y)].header.previous@ == x@ ==> has_child(rec, y)
    &&& parent_present(v, h, rec.header.previous@) ==> v.main[parent_key(
        h,
        rec.header.previous@,
    )].next.len() < u64::MAX
}

/// The tables after adding `rec` as the block `x`, linked to its parent.
pub open spec fn inserted(v: TreeView, rec: RecordView, x: HashVal) -> TreeView {
    let h = rec.header.height;
    let p = rec.header.previous@;
    if parent_present(v, h, p) {
        TreeView {
            main: v.main.insert((h, x@), rec).insert(
                parent_key(h, p),
                with_child(v.main[parent_key(h, p)], x),
            ),
            index: v.index.insert(x@, h),
            tips: (if rec.next.len() == 0 {
                v.tips.insert(x@)
            } else {
                v.tips
            }).remove(p),
        }
    } else {
        TreeView {
            main: v.main.insert((h, x@), rec),
            index: v.index.insert(x@, h),
            tips: if rec.next.len() == 0 {
                v.tips.insert(x@)
            } else {
                v.tips
            },
        }
    }
}

proof fn lemma_insert_facts(v: TreeView, rec: RecordView, x: HashVal)
    requires
        graph_ok(v),
        insertable(v, rec, x),
    ensures
        x@.len() == 32,
        parent_present(v, rec.header.height, rec.header.previous@) ==> rec.header.previous@ != x@
            && !has_child(v.main[parent_key(rec.header.height, rec.header.previous@)], x@),
        !v.main.contains_key((rec.header.height, x@)),
{
    reveal(records_ok);
    reveal(index_ok);
    reveal(children_ok);
    let h = rec.header.height;
    let p = rec.header.previous@;
    if parent_present(v, h, p) {
        let pk = parent_key(h, p);
        if has_child(v.main[pk], x@) {
            let j = choose|j: int| 0 <= j < v.main[pk].next.len() && #[trigger] v.main[pk].next[j]@ == x@;
            assert(v.main[pk].next[j] == v.main[pk].next[j]);
            assert(v.main.contains_key(((pk.0 + 1) as u64, x@)));
        }
    }
}

proof fn lemma_insert_graph(v: TreeView, rec: RecordView, x: HashVal)
    requires
        graph_ok(v),
        insertable(v, rec, x),
    ensures
        graph_ok(inserted(v, rec, x)),
{
    lemma_insert_facts(v, rec, x);
    let v2 = inserted(v, rec, x);
    let h = rec.header.height;
    let p = rec.header.previous@;
    let pk = parent_key(h, p);
    let pp = parent_present(v, h, p);
    reveal(records_ok);
    reveal(index_ok);
    reveal(tips_ok);
    reveal(parents_ok);
    reveal(children_ok);
    assert(records_ok(v2)) by {
        assert forall|k: (u64, Seq<u8>)| #[trigger] v2.main.contains_key(k) implies {
            let r = v2.main[k];
            &&& k.0 < TIP_HEIGHT
            &&& k.1.len() == 32
            &&& r.header.height == k.0
            &&& header_hash(r.header) == k.1
            &&& record_fits(r)
            &&& forall|i: int, j: int| 0 <= i < j < r.next.len() ==> r.next[i]@ != r.next[j]@
        } by {
            if pp && k == pk {
                let r = v2.main[k];
                assert forall|i: int, j: int| 0 <= i < j < r.next.len() implies r.next[i]@
                    != r.next[j]@ by {
                    if j == r.next.len() - 1 {
                        assert(r.next[j] == x);
                        assert(v.main[pk].next[i] == r.next[i]);
                    } else {
                        assert(v.main[pk].next[i] == r.next[i]);
                        assert(v.main[pk].next[j] == r.next[j]);
                    }
                }
            }
        }
    }
    assert(index_ok(v2));
    assert(tips_ok(v2)) by {
        assert forall|y: Seq<u8>| #[trigger] v2.tips.contains(y) implies v2.index.contains_key(y)
            && v2.main[(v2.index[y], y)].next.len() == 0 by {
            if y != x@ {
                assert(v.tips.contains(y));
                assert(v.main.contains_key((v.index[y], y)));
            }
        }
        assert forall|y: Seq<u8>| #[trigger]
            v2.index.contains_key(y) && v2.main[(v2.index[y], y)].next.len() == 0 implies v2.tips.contains(
            y,
        ) by {
            if y != x@ {
                assert(v.main.contains_key((v.index[y], y)));
                if pp && (v.index[y], y) == pk {
                    assert(v2.main[pk].next.len() > 0);
                }
            }
        }
    }
    assert(parents_ok(v2)) by {
        assert forall|k: (u64, Seq<u8>)| #[trigger]
            v2.main.contains_key(k) && k.0 >= 1 && v2.main.contains_key(
                ((k.0 - 1) as u64, v2.main[k].header.previous@),
            ) implies has_child(v2.main[((k.0 - 1) as u64, v2.main[k].header.previous@)], k.1) by {
            let q = ((k.0 - 1) as u64, v2.main[k].header.previous@);
            if k == (h, x@) {
                assert(v2.main[q].next[v2.main[q].next.len() - 1] == x);
            } else if q == (h, x@) {
                assert(v.main.contains_key(k));
                assert(has_child(rec, k.1));
            } else {
                assert(v.main.contains_key(k));
                assert(v.main[k].header == v2.main[k].header);
                assert(v.main.contains_key(q));
                assert(has_child(v.main[q], k.1));
                if pp && q == pk {
                    let j = choose|j: int| 0 <= j < v.main[q].next.len() && #[trigger] v.main[q].next[j]@ == k.1;
                    assert(v2.main[q].next[j] == v.main[q].next[j]);
                }
            }
        }
    }
    assert(children_ok(v2)) by {
        assert forall|k: (u64, Seq<u8>), j: int|
            v2.main.contains_key(k) && 0 <= j < v2.main[k].next.len() implies {
            let c = ((k.0 + 1) as u64, #[trigger] v2.main[k].next[j]@);
            &&& k.0 + 1 < TIP_HEIGHT
            &&& v2.main.contains_key(c)
            &&& v2.main[c].header.previous@ == k.1
        } by {
            if k == (h, x@) {
                assert(v.main.contains_key(((h + 1) as u64, rec.next[j]@)));
            } else if pp && k == pk && j == v2.main[k].next.len() - 1 {
                assert(v2.main[k].next[j] == x);
            } else {
                assert(v.main.contains_key(k));
                assert(v2.main[k].next[j] == v.main[k].next[j]);
                let c = ((k.0 + 1) as u64, v.main[k].next[j]@);
                assert(v.main.contains_key(c));
                assert(c != (h, x@));
            }
        }
    }
}

} // verus!

verus! {

/// `v2` is `v` with the block `x` added, its record made of `header`,
/// `partial_state`, `action` and `metadata`.
pub open spec fn stored(
    v: TreeView,
    v2: TreeView,
    x: Seq<u8>,
    header: Header,
    partial_state: Seq<u8>,
    action: Option<ProposerAction>,
    metadata: Seq<u8>,
) -> bool {
    let rec = v2.main[(header.height, x)];
    &&& crate::hash::hash_from(x)@ == x
    &&& v2.main.contains_key((header.height, x))
    &&& rec.header == header
    &&& rec.partial_state == partial_state
    &&& rec.action == action
    &&& rec.metadata == metadata
    &&& insertable(v, rec, crate::hash::hash_from(x))
    &&& v2 == inserted(v, rec, crate::hash::hash_from(x))
}

impl<B: DbBackend, S> BlockTree<B, S> {
    /// The hashes of the records one height above `h` whose parent is `x`.
    fn children_of(&self, x: &HashVal, h: u64) -> (r: Vec<HashVal>)
        requires
            self.wf(),
            h < TIP_HEIGHT,
        ensures
            forall|i: int, j: int| 0 <= i < j < r@.len() ==> r@[i]@ != r@[j]@,
            forall|j: int|
                0 <= j < r@.len() ==> h + 1 < TIP_HEIGHT && #[trigger] self.view().main.contains_key(
                    ((h + 1) as u64, r@[j]@),
                ) && self.view().main[((h + 1) as u64, r@[j]@)].header.previous@ == x@,
            forall|y: Seq<u8>|
                h + 1 < TIP_HEIGHT && #[trigger] self.view().main.contains_key(((h + 1) as u64, y))
                    && self.view().main[((h + 1) as u64, y)].header.previous@ == x@ ==> exists|
                    j: int,
                | 0 <= j < r@.len() && #[trigger] r@[j]@ == y,
    {
        proof {
            reveal(BlockTree::wf);
        }
        let mut r: Vec<HashVal> = Vec::new();
        if h + 1 >= TIP_HEIGHT {
            return r;
        }
        let up = h + 1;
        let keys = self.all_under(up);
        let ghost v = self.view();
        let mut i: usize = 0;
        while i < keys.len()
            invariant
                contents_ok(self.backend.contents()),
                v == self.view(),
                up == h + 1,
                up < TIP_HEIGHT,
                0 <= i <= keys@.len(),
                forall|a: int|
                    0 <= a < keys@.len() ==> #[trigger] v.main.contains_key((up, keys@[a]@)),
                forall|a: int, b: int| 0 <= a < b < keys@.len() ==> keys@[a]@ != keys@[b]@,
                forall|a: int|
                    #![trigger r@[a]]
                    0 <= a < r@.len() ==> exists|b: int|
                        0 <= b < i && #[trigger] keys@[b] == r@[a],
                forall|a: int, b: int| 0 <= a < b < r@.len() ==> r@[a]@ != r@[b]@,
                forall|j: int|
                    0 <= j < r@.len() ==> #[trigger] v.main.contains_key((up, r@[j]@))
                        && v.main[(up, r@[j]@)].header.previous@ == x@,
                forall|b: int|
                    0 <= b < i && #[trigger] v.main[(up, keys@[b]@)].header.previous@ == x@
                        ==> exists|j: int| 0 <= j < r@.len() && r@[j]@ == keys@[b]@,
            decreases keys@.len() - i,
        {
            let ghost old_r = r@;
            assert(v.main.contains_key((up, keys@[i as int]@)));
            match self.get_block(&keys[i], Some(up)) {
                Some(rec) => {
                    if rec.header.previous.same(x) {
                        r.push(keys[i]);
                        proof {
                            assert(rec.header.previous == *x);
                            assert forall|j: int| 0 <= j < r@.len() implies #[trigger] v.main.contains_key((up, r@[j]@))
                                && v.main[(up, r@[j]@)].header.previous@ == x@ by {
                                if j < r@.len() - 1 {
                                    assert(r@[j] == old_r[j]);
                                } else {
                                    assert(r@[j] == keys@[i as int]);
                                }
                            }
                            assert forall|a: int, b: int| 0 <= a < b < r@.len() implies r@[a]@
                                != r@[b]@ by {
                                if b == r@.len() - 1 {
                                    let c = choose|c: int| 0 <= c < i && #[trigger] keys@[c] == r@[a];
                                    assert(old_r[a] == r@[a]);
                                    assert(keys@[c]@ != keys@[i as int]@);
                                }
                            }
                            assert forall|a: int| #![trigger r@[a]] 0 <= a < r@.len() implies exists|b: int|
                                0 <= b < i + 1 && #[trigger] keys@[b] == r@[a] by {
                                if a < r@.len() - 1 {
                                    assert(old_r[a] == r@[a]);
                                    let c = choose|c: int| 0 <= c < i && #[trigger] keys@[c] == old_r[a];
                                } else {
                                    assert(keys@[i as int] == r@[a]);
                                }
                            }
                        }
                    }
                },
                None => {},
            }
            proof {
                assert forall|j: int| 0 <= j < r@.len() implies #[trigger] v.main.contains_key((up, r@[j]@))
                    && v.main[(up, r@[j]@)].header.previous@ == x@ by {
                    if j < old_r.len() {
                        assert(r@[j] == old_r[j]);
                    }
                }
                assert forall|b: int|
                    0 <= b < i + 1 && #[trigger] v.main[(up, keys@[b]@)].header.previous@ == x@
                        implies exists|j: int| 0 <= j < r@.len() && r@[j]@ == keys@[b]@ by {
                    if b < i {
                        let j = choose|j: int| 0 <= j < old_r.len() && old_r[j]@ == keys@[b]@;
                        assert(r@[j] == old_r[j]);
                    } else {
                        assert(r@[r@.len() - 1]@ == keys@[b]@);
                    }
                }
            }
            i += 1;
        }
        proof {
            assert forall|y: Seq<u8>|
                h + 1 < TIP_HEIGHT && #[trigger] v.main.contains_key(((h + 1) as u64, y))
                    && v.main[((h + 1) as u64, y)].header.previous@ == x@ implies exists|j: int|
                    0 <= j < r@.len() && #[trigger] r@[j]@ == y by {
                assert(self.backend.contents().contains_key(key_of(up, y)));
                let b = choose|b: int| 0 <= b < keys@.len() && #[trigger] keys@[b]@ == y;
                assert(v.main[(up, keys@[b]@)].header.previous@ == x@);
                let j = choose|j: int| 0 <= j < r@.len() && r@[j]@ == keys@[b]@;
                assert(r@[j]@ == y);
            }
        }
        r
    }
}

} // verus!

verus! {

impl<B: DbBackend, S> BlockTree<B, S> {
    /// Writes a new block's record, its parent's updated record, its index
    /// entry and the tips, in that order.
    fn write_block(&mut self, x: &HashVal, rec: &Record, parent: &Option<Record>)
        requires
            layout_ok(old(self).backend.contents()),
            rec.header.height < TIP_HEIGHT,
            record_fits(rec@),
            match parent {
                Some(p) => parent_present(old(self).view(), rec.header.height, rec.header.previous@)
                    && p@ == with_child(
                    old(self).view().main[parent_key(rec.header.height, rec.header.previous@)],
                    *x,
                ) && record_fits(p@),
                None => !parent_present(
                    old(self).view(),
                    rec.header.height,
                    rec.header.previous@,
                ),
            },
        ensures
            layout_ok(final(self).backend.contents()),
            final(self).view() == inserted(old(self).view(), rec@, *x),
            final(self).cache == old(self).cache,
    {
        let ghost v = self.view();
        let h = rec.header.height;
        let previous = rec.header.previous;
        let ghost m0 = self.backend.contents();
        // the record itself
        let bytes = rec.encode();
        let mk = main_key(x, h);
        self.backend.insert(mk.as_slice(), bytes.as_slice());
        proof {
            lemma_put_main(m0, h, x@, rec@);
        }
        // the link from the parent
        match parent {
            Some(p) => {
                let ghost m1 = self.backend.contents();
                let pbytes = p.encode();
                let pkey = main_key(&previous, h - 1);
                self.backend.insert(pkey.as_slice(), pbytes.as_slice());
                proof {
                    lemma_put_main(m1, (h - 1) as u64, previous@, p@);
                }
            },
            None => {},
        }
        // the index
        let ghost m2 = self.backend.contents();
        let ik = index_key(x);
        let hv = u64_to_be(h);
        self.backend.insert(ik.as_slice(), hv.as_slice());
        proof {
            lemma_put_index(m2, x@, h);
        }
        // the tips
        if rec.next.len() == 0 {
            let ghost m3 = self.backend.contents();
            let tk = tip_key(x);
            self.backend.insert(tk.as_slice(), hv.as_slice());
            proof {
                lemma_put_tip(m3, x@, hv@);
            }
        }
        if parent.is_some() {
            let ghost m4 = self.backend.contents();
            let tk = tip_key(&previous);
            self.backend.remove(tk.as_slice());
            proof {
                lemma_remove_tip(m4, previous@);
            }
        }
        proof {
            let v2 = inserted(v, rec@, *x);
            assert(self.view().main =~= v2.main);
            assert(self.view().index =~= v2.index);
            assert(self.view().tips =~= v2.tips);
        }
    }

    /// Adds a new block, linked to its parent and to any records already
    /// present one height up that point to it, then caches its state.
    fn insert_block(&mut self, st: SealedState<S>, init_metadata: &[u8]) -> (x: HashVal)
        requires
            old(self).wf(),
            st.header.height < TIP_HEIGHT,
            !old(self).view().index.contains_key(header_hash(st.header)),
        ensures
            final(self).wf(),
            x@ == header_hash(st.header),
            stored(
                old(self).view(),
                final(self).view(),
                x@,
                st.header,
                st.partial_encoding@,
                st.action,
                init_metadata@,
            ),
            final(self).cached() == old(self).cached().insert(x@, st.state),
    {
        proof {
            reveal(BlockTree::wf);
        }
        let ghost v = self.view();
        let x = st.header.hash();
        let h = st.header.height;
        let previous = st.header.previous;
        let next = self.children_of(&x, h);
        let mut parent = if h >= 1 {
            self.get_block(&previous, Some(h - 1))
        } else {
            None
        };
        let ghost pk = parent_key(h, previous@);
        let ghost parent0 = parent;
        match &mut parent {
            Some(p) => {
                p.next.push(x);
                p.lengths_fit();
            },
            None => {},
        }
        let metadata = slice_to_vec(init_metadata);
        let rec = Record {
            header: st.header,
            partial_state: st.partial_encoding,
            action: st.action,
            next,
            metadata,
        };
        rec.lengths_fit();
        proof {
            crate::hash::lemma_hash_from_view(x);
            assert(parent_present(v, h, previous@) <==> parent is Some);
            if parent is Some {
                assert(parent0->Some_0@ == v.main[pk]);
                assert(parent->Some_0@ =~= with_child(v.main[pk], x));
                reveal(records_ok);
                assert(record_fits(v.main[pk]));
            }
            assert(insertable(v, rec@, x));
            lemma_insert_graph(v, rec@, x);
        }
        self.write_block(&x, &rec, &parent);
        self.cache.insert(x, st.state);
        x
    }

    /// Attempts to apply a block, given the outcome of validating it against
    /// its parent's state. A block already present is left as it is.
    pub fn apply_block<E>(
        &mut self,
        header: &Header,
        outcome: Result<SealedState<S>, E>,
        init_metadata: &[u8],
    ) -> (r: Result<(), ApplyBlockErr<E>>)
        requires
            old(self).wf(),
            header.height < TIP_HEIGHT,
        ensures
            final(self).wf(),
            ({
                let v = old(self).view();
                let x = header_hash(*header);
                if v.index.contains_key(x) {
                    r is Ok && final(self).view() == v && final(self).cached() == old(
                        self,
                    ).cached()
                } else if !parent_present(v, header.height, header.previous@) {
                    r == Err::<(), ApplyBlockErr<E>>(ApplyBlockErr::ParentNotFound(header.previous))
                        && final(self).view() == v && final(self).cached() == old(self).cached()
                } else {
                    match outcome {
                        Err(e) => r == Err::<(), ApplyBlockErr<E>>(ApplyBlockErr::CannotValidate(e))
                            && final(self).view() == v && final(self).cached() == old(
                            self,
                        ).cached(),
                        Ok(st) => if st.header != *header {
                            r == Err::<(), ApplyBlockErr<E>>(ApplyBlockErr::HeaderMismatch)
                                && final(self).view() == v && final(self).cached() == old(
                                self,
                            ).cached()
                        } else {
                            r is Ok && stored(
                                v,
                                final(self).view(),
                                x,
                                *header,
                                st.partial_encoding@,
                                st.action,
                                init_metadata@,
                            ) && final(self).cached() == old(self).cached().insert(x, st.state)
                        },
                    }
                }
            }),
    {
        proof {
            reveal(BlockTree::wf);
        }
        let x = header.hash();
        if self.index_get(&x).is_some() {
            return Ok(());
        }
        let h = header.height;
        if h == 0 {
            return Err(ApplyBlockErr::ParentNotFound(header.previous));
        }
        if self.get_block(&header.previous, Some(h - 1)).is_none() {
            return Err(ApplyBlockErr::ParentNotFound(header.previous));
        }
        let st = match outcome {
            Err(e) => return Err(ApplyBlockErr::CannotValidate(e)),
            Ok(st) => st,
        };
        if !st.header.same(header) {
            return Err(ApplyBlockErr::HeaderMismatch);
        }
        self.insert_block(st, init_metadata);
        Ok(())
    }
}

} // verus!

verus! {

/// The position of `x` among the children of `r`.
pub open spec fn child_pos(r: RecordView, x: Seq<u8>) -> int {
    choose|j: int| 0 <= j < r.next.len() && r.next[j]@ == x
}

/// `r` with the child at position `j` taken out.
pub open spec fn without_child(r: RecordView, j: int) -> RecordView {
    RecordView { next: r.next.remove(j), ..r }
}

/// The tables after removing the childless block `x`: its record, index
/// entry and tip go, its parent forgets it and becomes a tip when it has no
/// child left.
pub open spec fn removed_childless(v: TreeView, x: Seq<u8>) -> TreeView {
    let h = v.index[x];
    let p = v.main[(h, x)].header.previous@;
    if parent_present(v, h, p) {
        let pr = v.main[parent_key(h, p)];
        let pr2 = without_child(pr, child_pos(pr, x));
        TreeView {
            main: v.main.remove((h, x)).insert(parent_key(h, p), pr2),
            index: v.index.remove(x),
            tips: if pr2.next.len() == 0 {
                v.tips.remove(x).insert(p)
            } else {
                v.tips.remove(x)
            },
        }
    } else {
        TreeView { main: v.main.remove((h, x)), index: v.index.remove(x), tips: v.tips.remove(x) }
    }
}

/// The tables after removing the block `x`, whose parent is absent.
pub open spec fn removed_orphan(v: TreeView, x: Seq<u8>) -> TreeView {
    TreeView {
        main: v.main.remove((v.index[x], x)),
        index: v.index.remove(x),
        tips: v.tips.remove(x),
    }
}

/// The tables after removing the childless blocks `xs`, one after another.
pub open spec fn removed_all(v: TreeView, xs: Seq<Seq<u8>>) -> TreeView
    decreases xs.len(),
{
    if xs.len() == 0 {
        v
    } else {
        removed_childless(removed_all(v, xs.drop_last()), xs.last())
    }
}

proof fn lemma_childless_graph(v: TreeView, x: Seq<u8>)
    requires
        graph_ok(v),
        v.index.contains_key(x),
        v.main[(v.index[x], x)].next.len() == 0,
    ensures
        graph_ok(removed_childless(v, x)),
        parent_present(v, v.index[x], v.main[(v.index[x], x)].header.previous@) ==> {
            let pr = v.main[parent_key(v.index[x], v.main[(v.index[x], x)].header.previous@)];
            0 <= child_pos(pr, x) < pr.next.len() && pr.next[child_pos(pr, x)]@ == x
        },
{
    reveal(records_ok);
    reveal(index_ok);
    reveal(tips_ok);
    reveal(parents_ok);
    reveal(children_ok);
    let h = v.index[x];
    let xk = (h, x);
    let p = v.main[xk].header.previous@;
    let pk = parent_key(h, p);
    let pp = parent_present(v, h, p);
    let v2 = removed_childless(v, x);
    assert(v.main.contains_key(xk));
    if pp {
        assert(has_child(v.main[pk], x));
        let j = child_pos(v.main[pk], x);
        assert(0 <= j < v.main[pk].next.len() && v.main[pk].next[j]@ == x);
        assert(pk != xk);
    }
    // no record has x as its parent, as x has no children
    assert forall|k: (u64, Seq<u8>)|
        #[trigger] v.main.contains_key(k) && k.0 >= 1 && ((k.0 - 1) as u64, v.main[k].header.previous@)
            == xk implies false by {
        assert(has_child(v.main[xk], k.1));
        let j = choose|j: int| 0 <= j < v.main[xk].next.len() && #[trigger] v.main[xk].next[j]@ == k.1;
    }
    assert(records_ok(v2)) by {
        if pp {
            let pr = v.main[pk];
            let j = child_pos(pr, x);
            let pr2 = without_child(pr, j);
            assert forall|a: int, b: int| 0 <= a < b < pr2.next.len() implies pr2.next[a]@
                != pr2.next[b]@ by {
                let a0 = if a < j { a } else { a + 1 };
                let b0 = if b < j { b } else { b + 1 };
                assert(pr.next[a0]@ != pr.next[b0]@);
            }
        }
    }
    assert(index_ok(v2));
    assert(tips_ok(v2)) by {
        assert forall|y: Seq<u8>| #[trigger] v2.tips.contains(y) implies v2.index.contains_key(y)
            && v2.main[(v2.index[y], y)].next.len() == 0 by {
            if pp && y == p {
                assert(v.index.contains_key(p) && v.index[p] == pk.0);
            } else {
                assert(v.tips.contains(y));
                assert(v.main.contains_key((v.index[y], y)));
                if pp && (v.index[y], y) == pk {
                    assert(v.main[pk].next.len() > 0);
                }
            }
        }
        assert forall|y: Seq<u8>| #[trigger]
            v2.index.contains_key(y) && v2.main[(v2.index[y], y)].next.len() == 0 implies v2.tips.contains(
            y,
        ) by {
            assert(v.main.contains_key((v.index[y], y)));
            if pp && (v.index[y], y) == pk {
                assert(y == p);
            }
        }
    }
    assert(parents_ok(v2)) by {
        assert forall|k: (u64, Seq<u8>)| #[trigger]
            v2.main.contains_key(k) && k.0 >= 1 && v2.main.contains_key(
                ((k.0 - 1) as u64, v2.main[k].header.previous@),
            ) implies has_child(v2.main[((k.0 - 1) as u64, v2.main[k].header.previous@)], k.1) by {
            let q = ((k.0 - 1) as u64, v2.main[k].header.previous@);
            assert(v.main.contains_key(k));
            assert(v.main[k].header == v2.main[k].header);
            assert(v.main.contains_key(q));
            assert(has_child(v.main[q], k.1));
            if pp && q == pk {
                let pr = v.main[pk];
                let j = child_pos(pr, x);
                let i = choose|i: int| 0 <= i < pr.next.len() && #[trigger] pr.next[i]@ == k.1;
                assert(k != xk);
                assert(k.1 != x) by {
                    if k.1 == x {
                        assert(v.index[x] == k.0);
                    }
                }
                assert(i != j);
                let i2 = if i < j { i } else { i - 1 };
                assert(v2.main[q].next[i2] == pr.next[i]);
            }
        }
    }
    assert(children_ok(v2)) by {
        assert forall|k: (u64, Seq<u8>), j: int|
            v2.main.contains_key(k) && 0 <= j < v2.main[k].next.len() implies {
            let c = ((k.0 + 1) as u64, #[trigger] v2.main[k].next[j]@);
            &&& k.0 + 1 < TIP_HEIGHT
            &&& v2.main.contains_key(c)
            &&& v2.main[c].header.previous@ == k.1
        } by {
            assert(v.main.contains_key(k));
            if pp && k == pk {
                let pr = v.main[pk];
                let jx = child_pos(pr, x);
                let j0 = if j < jx { j } else { j + 1 };
                assert(v2.main[k].next[j] == pr.next[j0]);
                assert(pr.next[j0]@ != x);
                let c = ((k.0 + 1) as u64, pr.next[j0]@);
                assert(v.main.contains_key(c));
            } else {
                assert(v2.main[k].next[j] == v.main[k].next[j]);
                let c = ((k.0 + 1) as u64, v.main[k].next[j]@);
                assert(v.main.contains_key(c));
                if c == xk {
                    assert(v.main[xk].header.previous@ == k.1);
                    assert(k == pk);
                }
            }
        }
    }
}

} // verus!

verus! {

proof fn lemma_record_at(v: TreeView, k: (u64, Seq<u8>))
    requires
        records_ok(v),
        v.main.contains_key(k),
    ensures
        ({
            let r = v.main[k];
            &&& k.0 < TIP_HEIGHT
            &&& k.1.len() == 32
            &&& r.header.height == k.0
            &&& header_hash(r.header) == k.1
            &&& record_fits(r)
            &&& forall|i: int, j: int| 0 <= i < j < r.next.len() ==> r.next[i]@ != r.next[j]@
        }),
{
    reveal(records_ok);
}

proof fn lemma_index_at(v: TreeView, x: Seq<u8>)
    requires
        index_ok(v),
        v.index.contains_key(x),
    ensures
        v.main.contains_key((v.index[x], x)),
{
    reveal(index_ok);
}

/// The position of the child `hash` of `p`.
fn child_index(p: &Record, hash: &HashVal) -> (j: usize)
    requires
        0 <= child_pos(p@, hash@) < p@.next.len(),
        p@.next[child_pos(p@, hash@)]@ == hash@,
        forall|i: int, j: int| 0 <= i < j < p@.next.len() ==> p@.next[i]@ != p@.next[j]@,
    ensures
        j == child_pos(p@, hash@),
{
    let mut j: usize = 0;
    while j < p.next.len()
        invariant
            0 <= j <= p@.next.len(),
            0 <= child_pos(p@, hash@) < p@.next.len(),
            p@.next[child_pos(p@, hash@)]@ == hash@,
            forall|a: int| 0 <= a < j ==> p@.next[a]@ != hash@,
            forall|a: int, b: int| 0 <= a < b < p@.next.len() ==> p@.next[a]@ != p@.next[b]@,
        decreases p@.next.len() - j,
    {
        if p.next[j].same(hash) {
            proof {
                let c = child_pos(p@, hash@);
                if j as int != c {
                    assert(p@.next[j as int]@ != p@.next[c]@);
                }
            }
            return j;
        }
        j += 1;
    }
    j
}

proof fn lemma_orphan_graph(v: TreeView, x: Seq<u8>)
    requires
        graph_ok(v),
        v.index.contains_key(x),
        !parent_present(v, v.index[x], v.main[(v.index[x], x)].header.previous@),
    ensures
        graph_ok(removed_orphan(v, x)),
{
    reveal(records_ok);
    reveal(index_ok);
    reveal(tips_ok);
    reveal(parents_ok);
    reveal(children_ok);
    let xk = (v.index[x], x);
    let v2 = removed_orphan(v, x);
    assert(v.main.contains_key(xk));
    assert(tips_ok(v2)) by {
        assert forall|y: Seq<u8>| #[trigger] v2.tips.contains(y) implies v2.index.contains_key(y)
            && v2.main[(v2.index[y], y)].next.len() == 0 by {
            assert(v.tips.contains(y));
        }
        assert forall|y: Seq<u8>| #[trigger]
            v2.index.contains_key(y) && v2.main[(v2.index[y], y)].next.len() == 0 implies v2.tips.contains(
            y,
        ) by {
            assert(v.main.contains_key((v.index[y], y)));
        }
    }
    assert(parents_ok(v2)) by {
        assert forall|k: (u64, Seq<u8>)| #[trigger]
            v2.main.contains_key(k) && k.0 >= 1 && v2.main.contains_key(
                ((k.0 - 1) as u64, v2.main[k].header.previous@),
            ) implies has_child(v2.main[((k.0 - 1) as u64, v2.main[k].header.previous@)], k.1) by {
            assert(v.main.contains_key(k));
        }
    }
    assert(children_ok(v2)) by {
        assert forall|k: (u64, Seq<u8>), j: int|
            v2.main.contains_key(k) && 0 <= j < v2.main[k].next.len() implies {
            let c = ((k.0 + 1) as u64, #[trigger] v2.main[k].next[j]@);
            &&& k.0 + 1 < TIP_HEIGHT
            &&& v2.main.contains_key(c)
            &&& v2.main[c].header.previous@ == k.1
        } by {
            assert(v.main.contains_key(k));
            assert(v2.main[k].next[j] == v.main[k].next[j]);
            let c = ((k.0 + 1) as u64, v.main[k].next[j]@);
            assert(v.main.contains_key(c));
            if c == xk {
                assert(v.main[xk].header.previous@ == k.1);
                assert(parent_present(v, xk.0, k.1));
            }
        }
    }
}

impl<B: DbBackend, S> BlockTree<B, S> {
    /// Removes the tip, index entry and record of `hash`, writing the
    /// parent's updated record and making it a tip when it has no child left.
    fn write_removal(&mut self, hash: &HashVal, h: u64, previous: &HashVal, parent: &Option<Record>)
        requires
            layout_ok(old(self).backend.contents()),
            old(self).view().index.contains_key(hash@),
            old(self).view().index[hash@] == h,
            h < TIP_HEIGHT,
            old(self).view().main.contains_key((h, hash@)),
            old(self).view().main[(h, hash@)].header.previous == *previous,
            match parent {
                Some(p) => parent_present(old(self).view(), h, previous@) && p@ == without_child(
                    old(self).view().main[parent_key(h, previous@)],
                    child_pos(old(self).view().main[parent_key(h, previous@)], hash@),
                ) && record_fits(p@),
                None => !parent_present(old(self).view(), h, previous@),
            },
        ensures
            layout_ok(final(self).backend.contents()),
            final(self).view() == removed_childless(old(self).view(), hash@),
            final(self).cache == old(self).cache,
    {
        let ghost v = self.view();
        let ghost m0 = self.backend.contents();
        let tk = tip_key(hash);
        self.backend.remove(tk.as_slice());
        proof {
            lemma_remove_tip(m0, hash@);
        }
        let ghost m1 = self.backend.contents();
        let ik = index_key(hash);
        self.backend.remove(ik.as_slice());
        proof {
            lemma_remove_index(m1, hash@);
        }
        match &parent {
            Some(p) => {
                let ghost m2 = self.backend.contents();
                let pbytes = p.encode();
                let pkey = main_key(previous, h - 1);
                self.backend.insert(pkey.as_slice(), pbytes.as_slice());
                proof {
                    lemma_put_main(m2, (h - 1) as u64, previous@, p@);
                }
                if p.next.len() == 0 {
                    let ghost m3 = self.backend.contents();
                    let ptk = tip_key(previous);
                    let hv = u64_to_be(h - 1);
                    self.backend.insert(ptk.as_slice(), hv.as_slice());
                    proof {
                        lemma_put_tip(m3, previous@, hv@);
                    }
                }
            },
            None => {},
        }
        let ghost m4 = self.backend.contents();
        let mk = main_key(hash, h);
        self.backend.remove(mk.as_slice());
        proof {
            lemma_remove_main(m4, h, hash@);
            let v2 = removed_childless(v, hash@);
            assert(self.view().main =~= v2.main);
            assert(self.view().index =~= v2.index);
            assert(self.view().tips =~= v2.tips);
        }
    }

    /// Removes the block `hash`, which has no children: its tip, index entry
    /// and record go, its parent forgets it, and the parent becomes a tip
    /// when no child is left.
    fn remove_childless(&mut self, hash: &HashVal)
        requires
            old(self).wf(),
            old(self).view().index.contains_key(hash@),
            old(self).view().main[(old(self).view().index[hash@], hash@)].next.len() == 0,
        ensures
            final(self).wf(),
            final(self).view() == removed_childless(old(self).view(), hash@),
            final(self).cached() == old(self).cached().remove(hash@),
    {
        proof {
            reveal(BlockTree::wf);
            lemma_childless_graph(self.view(), hash@);
        }
        let ghost v = self.view();
        proof {
            lemma_index_at(v, hash@);
            lemma_record_at(v, (v.index[hash@], hash@));
        }
        let h = match self.index_get(hash) {
            Some(h) => h,
            None => return,
        };
        let current = match self.internal_get(hash, h) {
            Some(c) => c,
            None => return,
        };
        let previous = current.header.previous;
        let ghost pk = parent_key(h, previous@);
        let mut parent = if h >= 1 {
            self.internal_get(&previous, h - 1)
        } else {
            None
        };
        // forget the child
        match &mut parent {
            Some(p) => {
                let ghost p0 = p@;
                proof {
                    lemma_record_at(v, pk);
                }
                let j = child_index(p, hash);
                p.next.remove(j);
                assert(p@ =~= without_child(p0, child_pos(p0, hash@)));
            },
            None => {},
        }
        self.write_removal(hash, h, &previous, &parent);
        self.cache.remove(hash);
    }

    /// Removes the block `hash`, whose parent is absent: its tip, index entry
    /// and record go.
    fn remove_orphan(&mut self, hash: &HashVal)
        requires
            old(self).wf(),
            old(self).view().index.contains_key(hash@),
            !parent_present(
                old(self).view(),
                old(self).view().index[hash@],
                old(self).view().main[(old(self).view().index[hash@], hash@)].header.previous@,
            ),
        ensures
            final(self).wf(),
            final(self).view() == removed_orphan(old(self).view(), hash@),
            final(self).cached() == old(self).cached().remove(hash@),
    {
        proof {
            reveal(BlockTree::wf);
            lemma_orphan_graph(self.view(), hash@);
        }
        let ghost v = self.view();
        let h = match self.index_get(hash) {
            Some(h) => h,
            None => return,
        };
        proof {
            reveal(records_ok);
            reveal(index_ok);
            assert(v.main.contains_key((h, hash@)));
        }
        let ghost m0 = self.backend.contents();
        let tk = tip_key(hash);
        self.backend.remove(tk.as_slice());
        proof {
            lemma_remove_tip(m0, hash@);
        }
        let ghost m1 = self.backend.contents();
        let ik = index_key(hash);
        self.backend.remove(ik.as_slice());
        proof {
            lemma_remove_index(m1, hash@);
        }
        let ghost m2 = self.backend.contents();
        let mk = main_key(hash, h);
        self.backend.remove(mk.as_slice());
        proof {
            lemma_remove_main(m2, h, hash@);
            let v2 = removed_orphan(v, hash@);
            assert(self.view().main =~= v2.main);
            assert(self.view().index =~= v2.index);
            assert(self.view().tips =~= v2.tips);
        }
        self.cache.remove(hash);
    }
}

} // verus!

verus! {

/// The hashes of `hs`.
pub open spec fn hash_views(hs: Seq<HashVal>) -> Seq<Seq<u8>> {
    hs.map_values(|h: HashVal| h@)
}

/// No hash appears twice in `xs`.
pub open spec fn distinct_hashes(xs: Seq<Seq<u8>>) -> bool {
    forall|i: int, j: int| 0 <= i < j < xs.len() ==> xs[i] != xs[j]
}

impl<B: DbBackend, S> BlockTree<B, S> {
    /// Deletes all the tips: each is removed as a childless block, in some
    /// order, its parent becoming a tip when it has no child left.
    pub fn delete_tips(&mut self)
        requires
            old(self).wf(),
        ensures
            final(self).wf(),
            exists|ts: Seq<Seq<u8>>|
                ts.to_set() == old(self).view().tips && distinct_hashes(ts) && final(self).view()
                    == removed_all(old(self).view(), ts),
    {
        let ghost v0 = self.view();
        proof {
            reveal(BlockTree::wf);
        }
        let tips = self.all_under(TIP_HEIGHT);
        let ghost all = hash_views(tips@);
        proof {
            assert forall|a: int| 0 <= a < tips@.len() implies v0.tips.contains(#[trigger] all[a]) by {
                assert(self.backend.contents().contains_key(key_of(TIP_HEIGHT, tips@[a]@)));
            }
            assert(all.to_set() =~= v0.tips) by {
                assert forall|x: Seq<u8>| v0.tips.contains(x) implies #[trigger] all.to_set().contains(x) by {
                    assert(self.backend.contents().contains_key(key_of(TIP_HEIGHT, x)));
                    let a = choose|a: int| 0 <= a < tips@.len() && #[trigger] tips@[a]@ == x;
                    assert(all[a] == x);
                }
                assert forall|x: Seq<u8>| #[trigger] all.to_set().contains(x) implies v0.tips.contains(x) by {
                    let a = choose|a: int| 0 <= a < all.len() && all[a] == x;
                    assert(v0.tips.contains(all[a]));
                }
            }
            reveal(tips_ok);
            assert(all.take(0) =~= Seq::<Seq<u8>>::empty());
        }
        let mut i: usize = 0;
        while i < tips.len()
            invariant
                self.wf(),
                0 <= i <= tips@.len(),
                all == hash_views(tips@),
                distinct_hashes(all),
                self.view() == removed_all(v0, all.take(i as int)),
                forall|a: int|
                    i <= a < tips@.len() ==> #[trigger] self.view().index.contains_key(all[a])
                        && self.view().main[(self.view().index[all[a]], all[a])].next.len() == 0,
            decreases tips@.len() - i,
        {
            let ghost v = self.view();
            proof {
                reveal(BlockTree::wf);
                assert(all[i as int] == tips@[i as int]@);
                assert(v.index.contains_key(all[i as int]));
                assert(v.main[(v.index[all[i as int]], all[i as int])].next.len() == 0);
                lemma_childless_graph(v, all[i as int]);
            }
            self.remove_childless(&tips[i]);
            proof {
                let x = all[i as int];
                assert(all.take(i + 1).drop_last() =~= all.take(i as int));
                assert forall|a: int|
                    i + 1 <= a < tips@.len() implies #[trigger] self.view().index.contains_key(all[a])
                        && self.view().main[(self.view().index[all[a]], all[a])].next.len() == 0 by {
                    let t = all[a];
                    assert(t != x);
                    assert(v.index.contains_key(t));
                    assert(v.main[(v.index[t], t)].next.len() == 0);
                    let h = v.index[x];
                    let p = v.main[(h, x)].header.previous@;
                    let v2 = removed_childless(v, x);
                    assert(v2.index.contains_key(t) && v2.index[t] == v.index[t]);
                    if parent_present(v, h, p) {
                        if (v.index[t], t) == parent_key(h, p) {
                            assert(v.main[parent_key(h, p)].next.len() > 0);
                        } else {
                            assert((v.index[t], t) != (h, x));
                            assert(v2.main[(v.index[t], t)] == v.main[(v.index[t], t)]);
                        }
                    } else {
                        assert(v2.main[(v.index[t], t)] == v.main[(v.index[t], t)]);
                    }
                }
            }
            i += 1;
        }
        proof {
            assert(all.take(tips@.len() as int) =~= all);
        }
    }
}

/// Deleting the tips right after a block was applied on top of the only tip
/// gives back the tree as it was before, cache aside.
pub proof fn lemma_delete_tips_undoes_apply(
    v: TreeView,
    rec: RecordView,
    x: HashVal,
    ts: Seq<Seq<u8>>,
)
    requires
        graph_ok(v),
        insertable(v, rec, x),
        rec.next.len() == 0,
        parent_present(v, rec.header.height, rec.header.previous@),
        v.tips == set![rec.header.previous@],
        ts.to_set() == inserted(v, rec, x).tips,
        distinct_hashes(ts),
    ensures
        removed_all(inserted(v, rec, x), ts) == v,
{
    lemma_insert_facts(v, rec, x);
    reveal(tips_ok);
    reveal(index_ok);
    let h = rec.header.height;
    let p = rec.header.previous@;
    let pk = parent_key(h, p);
    let v2 = inserted(v, rec, x);
    assert(v2.tips =~= set![x@]);
    assert(ts.len() == 1) by {
        if ts.len() == 0 {
            assert(ts.to_set().contains(x@));
        }
        if ts.len() > 1 {
            assert(ts.to_set().contains(ts[0]));
            assert(ts.to_set().contains(ts[1]));
        }
    }
    assert(ts[0] == x@) by {
        assert(ts.to_set().contains(ts[0]));
    }
    assert(ts.drop_last() =~= Seq::<Seq<u8>>::empty());
    let pr = v2.main[pk];
    assert(pr == with_child(v.main[pk], x));
    let last = pr.next.len() - 1;
    assert(pr.next[last]@ == x@);
    assert(child_pos(pr, x@) == last) by {
        let c = child_pos(pr, x@);
        if c != last {
            assert(pr.next[c] == v.main[pk].next[c]);
            assert(has_child(v.main[pk], x@));
        }
    }
    assert(without_child(pr, last).next =~= v.main[pk].next);
    assert(without_child(pr, last) == v.main[pk]);
    assert(v.tips.contains(p));
    assert(v.main[(v.index[p], p)].next.len() == 0);
    lemma_index_at(v, p);
    reveal(records_ok);
    assert(v.index[p] == pk.0);
    let v3 = removed_childless(v2, x@);
    assert(v3.main =~= v.main);
    assert(v3.index =~= v.index);
    assert(v3.tips =~= v.tips);
    assert(v3 == v);
    assert(removed_all(v2, ts.drop_last()) == v2);
    assert(ts.last() == x@);
}

} // verus!

verus! {

/// The block `y` at height `h` descends from the block `g` at height `gh`:
/// following parents from `y` through present records reaches `g`.
pub open spec fn descends(v: TreeView, h: u64, y: Seq<u8>, gh: u64, g: Seq<u8>) -> bool
    decreases h,
{
    if h <= gh {
        h == gh && y == g && v.main.contains_key((gh, g))
    } else {
        v.main.contains_key((h, y)) && descends(
            v,
            (h - 1) as u64,
            v.main[(h, y)].header.previous@,
            gh,
            g,
        )
    }
}

/// A descendant at height `h` has an ancestor descending from `g` at every
/// height from `gh` up to `h`.
proof fn lemma_descends_through(v: TreeView, h: u64, y: Seq<u8>, gh: u64, g: Seq<u8>, k: u64)
    requires
        descends(v, h, y, gh, g),
        gh <= k <= h,
    ensures
        exists|z: Seq<u8>| #[trigger] descends(v, k, z, gh, g),
    decreases h,
{
    if k < h {
        lemma_descends_through(v, (h - 1) as u64, v.main[(h, y)].header.previous@, gh, g, k);
    }
}

/// Descent only looks at headers of present records, so it survives adding
/// records and changing children.
proof fn lemma_descends_grows(v: TreeView, v2: TreeView, h: u64, y: Seq<u8>, gh: u64, g: Seq<u8>)
    requires
        descends(v, h, y, gh, g),
        forall|k: (u64, Seq<u8>)| #[trigger]
            v.main.contains_key(k) ==> v2.main.contains_key(k) && v2.main[k].header
                == v.main[k].header,
    ensures
        descends(v2, h, y, gh, g),
    decreases h,
{
    if h > gh {
        assert(v.main.contains_key((h, y)));
        lemma_descends_grows(v, v2, (h - 1) as u64, v.main[(h, y)].header.previous@, gh, g);
    }
}

/// A descendant is a present record.
proof fn lemma_descends_present(v: TreeView, h: u64, y: Seq<u8>, gh: u64, g: Seq<u8>)
    requires
        descends(v, h, y, gh, g),
    ensures
        v.main.contains_key((h, y)),
{
}

/// The block `y` at height `h` descends from `g` at height `gh` along a
/// chain of parents none of which, `y` and `g` included, is in `skip`.
pub open spec fn descends_avoiding(
    v: TreeView,
    h: u64,
    y: Seq<u8>,
    gh: u64,
    g: Seq<u8>,
    skip: Seq<HashVal>,
) -> bool
    decreases h,
{
    !in_hashes(skip, y) && if h <= gh {
        h == gh && y == g && v.main.contains_key((gh, g))
    } else {
        v.main.contains_key((h, y)) && descends_avoiding(
            v,
            (h - 1) as u64,
            v.main[(h, y)].header.previous@,
            gh,
            g,
            skip,
        )
    }
}

/// Every record of `v` descends from the block `r` at height `rh`.
pub open spec fn one_root(v: TreeView, rh: u64, r: Seq<u8>) -> bool {
    forall|k: (u64, Seq<u8>)| #[trigger] v.main.contains_key(k) ==> descends(v, k.0, k.1, rh, r)
}

/// `y` is listed in `r` with the height `h` beside it in `hs`.
pub open spec fn listed(r: Seq<HashVal>, hs: Seq<u64>, y: Seq<u8>, h: u64) -> bool {
    exists|a: int| 0 <= a < r.len() && a < hs.len() && #[trigger] r[a]@ == y && hs[a] == h
}

proof fn lemma_avoiding_present(v: TreeView, h: u64, y: Seq<u8>, gh: u64, g: Seq<u8>, skip: Seq<HashVal>)
    requires
        descends_avoiding(v, h, y, gh, g, skip),
    ensures
        v.main.contains_key((h, y)),
        !in_hashes(skip, y),
{
}

proof fn lemma_avoiding_through(
    v: TreeView,
    h: u64,
    y: Seq<u8>,
    gh: u64,
    g: Seq<u8>,
    skip: Seq<HashVal>,
    k: u64,
)
    requires
        descends_avoiding(v, h, y, gh, g, skip),
        gh <= k <= h,
    ensures
        exists|z: Seq<u8>| #[trigger] descends_avoiding(v, k, z, gh, g, skip),
    decreases h,
{
    if k < h {
        lemma_avoiding_through(v, (h - 1) as u64, v.main[(h, y)].header.previous@, gh, g, skip, k);
    }
}

/// With nothing to skip, descending along a chain is descending.
proof fn lemma_avoiding_nothing(v: TreeView, h: u64, y: Seq<u8>, gh: u64, g: Seq<u8>, skip: Seq<HashVal>)
    requires
        skip.len() == 0,
    ensures
        descends(v, h, y, gh, g) <==> descends_avoiding(v, h, y, gh, g, skip),
    decreases h,
{
    if h > gh {
        lemma_avoiding_nothing(v, (h - 1) as u64, v.main[(h, y)].header.previous@, gh, g, skip);
    }
}

/// A descendant keeps descending when every descendant keeps its header.
proof fn lemma_descends_kept(v: TreeView, v2: TreeView, h: u64, y: Seq<u8>, gh: u64, g: Seq<u8>)
    requires
        descends(v, h, y, gh, g),
        forall|h2: u64, z: Seq<u8>| #[trigger]
            descends(v, h2, z, gh, g) ==> v2.main.contains_key((h2, z)) && v2.main[(h2, z)].header
                == v.main[(h2, z)].header,
    ensures
        descends(v2, h, y, gh, g),
    decreases h,
{
    if h > gh {
        lemma_descends_kept(v, v2, (h - 1) as u64, v.main[(h, y)].header.previous@, gh, g);
    } else {
        assert(descends(v, gh, g, gh, g));
    }
}

/// Walking one parent up from the base of a chain gives a longer chain.
proof fn lemma_descends_extend(v: TreeView, h: u64, y: Seq<u8>, gh: u64, g: Seq<u8>)
    requires
        descends(v, h, y, gh, g),
        gh >= 1,
        v.main.contains_key(((gh - 1) as u64, v.main[(gh, g)].header.previous@)),
    ensures
        descends(v, h, y, (gh - 1) as u64, v.main[(gh, g)].header.previous@),
    decreases h,
{
    let p = v.main[(gh, g)].header.previous@;
    if h > gh {
        lemma_descends_extend(v, (h - 1) as u64, v.main[(h, y)].header.previous@, gh, g);
    } else {
        assert(descends(v, (gh - 1) as u64, p, (gh - 1) as u64, p));
    }
}

/// A descendant of a block without parent, itself a descendant of `g`, is
/// `g`'s descendant; a block without parent that descends from `g` is `g`.
proof fn lemma_root_is_unique(v: TreeView, rh: u64, r: Seq<u8>, gh: u64, g: Seq<u8>)
    requires
        descends(v, rh, r, gh, g),
        !parent_present(v, rh, v.main[(rh, r)].header.previous@),
    ensures
        rh == gh && r == g,
{
    if rh > gh {
        lemma_descends_present(v, (rh - 1) as u64, v.main[(rh, r)].header.previous@, gh, g);
    }
}

/// A tree with a record has a tip.
proof fn lemma_has_tip(v: TreeView, k: (u64, Seq<u8>))
    requires
        graph_ok(v),
        v.main.contains_key(k),
    ensures
        exists|x: Seq<u8>| #[trigger] v.tips.contains(x),
    decreases TIP_HEIGHT - k.0,
{
    reveal(records_ok);
    reveal(index_ok);
    reveal(tips_ok);
    reveal(children_ok);
    if v.main[k].next.len() == 0 {
        assert(v.index.contains_key(k.1) && v.index[k.1] == k.0);
        assert(v.tips.contains(k.1));
    } else {
        assert(v.main[k].next[0] == v.main[k].next[0]);
        lemma_has_tip(v, ((k.0 + 1) as u64, v.main[k].next[0]@));
    }
}

/// A record adding leaves the other records' headers alone and adds one key.
proof fn lemma_inserted_keys(v: TreeView, rec: RecordView, x: HashVal)
    ensures
        forall|k: (u64, Seq<u8>)| #[trigger]
            inserted(v, rec, x).main.contains_key(k) <==> v.main.contains_key(k) || k == (
                rec.header.height,
                x@,
            ),
        forall|k: (u64, Seq<u8>)| #[trigger]
            v.main.contains_key(k) && k != (rec.header.height, x@) ==> inserted(v, rec, x).main[k].header
                == v.main[k].header,
{
}

/// A record descending from `r` but not from `g`, where `d` lists only
/// descendants of `g` (with their heights in `dh`), descends from `r` along
/// a chain avoiding `d`.
proof fn lemma_outside_avoids(
    v: TreeView,
    h: u64,
    y: Seq<u8>,
    rh: u64,
    r: Seq<u8>,
    gh: u64,
    g: Seq<u8>,
    d: Seq<HashVal>,
    dh: Seq<u64>,
)
    requires
        graph_ok(v),
        descends(v, h, y, rh, r),
        !descends(v, h, y, gh, g),
        d.len() == dh.len(),
        forall|a: int| 0 <= a < d.len() ==> descends(v, dh[a], #[trigger] d[a]@, gh, g),
    ensures
        descends_avoiding(v, h, y, rh, r, d),
    decreases h,
{
    lemma_descends_present(v, h, y, rh, r);
    if in_hashes(d, y) {
        let a = choose|a: int| 0 <= a < d.len() && #[trigger] d[a]@ == y;
        lemma_descends_present(v, dh[a], y, gh, g);
        lemma_key_unique(v, dh[a], h, y);
    }
    if h > rh {
        let p = v.main[(h, y)].header.previous@;
        lemma_outside_avoids(v, (h - 1) as u64, p, rh, r, gh, g, d, dh);
    }
}

/// Some of the first `i` entries of `hs` has the bytes `x`.
pub open spec fn gone(hs: Seq<HashVal>, i: int, x: Seq<u8>) -> bool {
    exists|a: int| 0 <= a < i && #[trigger] hs[a]@ == x
}

/// The descendants of `g` survive a pruning that removes only blocks
/// reached from `r` avoiding them.
proof fn lemma_kept_descendants(
    v1: TreeView,
    vf: TreeView,
    gh: u64,
    g: Seq<u8>,
    rh: u64,
    r: Seq<u8>,
    desc: Seq<HashVal>,
    dh: Seq<u64>,
    damned: Seq<HashVal>,
    hs: Seq<u64>,
)
    requires
        forall|h: u64, y: Seq<u8>| #[trigger]
            descends_avoiding(v1, h, y, gh, g, Seq::<HashVal>::empty()) ==> listed(desc, dh, y, h),
        damned.len() == hs.len(),
        forall|a: int|
            0 <= a < damned.len() ==> descends_avoiding(v1, hs[a], #[trigger] damned[a]@, rh, r, desc),
        forall|k: (u64, Seq<u8>)| #[trigger]
            vf.main.contains_key(k) <==> v1.main.contains_key(k) && !gone(damned, damned.len() as int, k.1),
        forall|k: (u64, Seq<u8>)| #[trigger] vf.main.contains_key(k) ==> vf.main[k] == v1.main[k],
    ensures
        forall|h: u64, y: Seq<u8>| #[trigger]
            descends(v1, h, y, gh, g) ==> vf.main.contains_key((h, y)) && vf.main[(h, y)]
                == v1.main[(h, y)],
{
    assert forall|h: u64, y: Seq<u8>| #[trigger]
        descends(v1, h, y, gh, g) implies vf.main.contains_key((h, y)) && vf.main[(h, y)]
            == v1.main[(h, y)] by {
        lemma_descends_present(v1, h, y, gh, g);
        lemma_avoiding_nothing(v1, h, y, gh, g, Seq::<HashVal>::empty());
        assert(listed(desc, dh, y, h));
        let w = choose|w: int| 0 <= w < desc.len() && w < dh.len() && #[trigger] desc[w]@ == y && dh[w] == h;
        assert(in_hashes(desc, y));
        assert(!gone(damned, damned.len() as int, y)) by {
            if gone(damned, damned.len() as int, y) {
                let a = choose|a: int| 0 <= a < damned.len() && #[trigger] damned[a]@ == y;
                lemma_avoiding_present(v1, hs[a], damned[a]@, rh, r, desc);
            }
        }
        assert(vf.main.contains_key((h, y)));
    }
}

/// After pruning, a tree that had one root has every record descending
/// from `g`.
proof fn lemma_one_root_pruned(
    v0: TreeView,
    v1: TreeView,
    vf: TreeView,
    gh: u64,
    g: Seq<u8>,
    rh: u64,
    r: Seq<u8>,
    desc: Seq<HashVal>,
    dh: Seq<u64>,
    damned: Seq<HashVal>,
    hs: Seq<u64>,
    rh0: u64,
    r0: Seq<u8>,
)
    requires
        graph_ok(v1),
        one_root(v0, rh0, r0),
        forall|k: (u64, Seq<u8>)| #[trigger]
            v0.main.contains_key(k) ==> v1.main.contains_key(k) && v1.main[k].header == v0.main[k].header,
        forall|k: (u64, Seq<u8>)| #[trigger]
            v1.main.contains_key(k) ==> v0.main.contains_key(k) || k == (gh, g),
        v1.main.contains_key((gh, g)),
        v0.main.contains_key((rh, r)),
        !parent_present(v0, rh, v0.main[(rh, r)].header.previous@),
        desc.len() == dh.len(),
        forall|a: int|
            0 <= a < desc.len() ==> descends_avoiding(v1, dh[a], #[trigger] desc[a]@, gh, g, Seq::<HashVal>::empty()),
        forall|h: u64, y: Seq<u8>| #[trigger]
            descends_avoiding(v1, h, y, gh, g, Seq::<HashVal>::empty()) ==> listed(desc, dh, y, h),
        damned.len() == hs.len(),
        forall|a: int|
            0 <= a < damned.len() ==> descends_avoiding(v1, hs[a], #[trigger] damned[a]@, rh, r, desc),
        forall|h: u64, y: Seq<u8>| #[trigger]
            descends_avoiding(v1, h, y, rh, r, desc) ==> listed(damned, hs, y, h),
        forall|k: (u64, Seq<u8>)| #[trigger]
            vf.main.contains_key(k) <==> v1.main.contains_key(k) && !gone(damned, damned.len() as int, k.1),
        forall|k: (u64, Seq<u8>)| #[trigger] vf.main.contains_key(k) ==> vf.main[k] == v1.main[k],
    ensures
        forall|k: (u64, Seq<u8>)| #[trigger] vf.main.contains_key(k) ==> descends(vf, k.0, k.1, gh, g),
{
    lemma_kept_descendants(v1, vf, gh, g, rh, r, desc, dh, damned, hs);
    assert(descends(v0, rh, r, rh0, r0));
    lemma_root_is_unique(v0, rh, r, rh0, r0);
    assert forall|k: (u64, Seq<u8>)| #[trigger] vf.main.contains_key(k) implies descends(vf, k.0, k.1, gh, g) by {
        if !descends(v1, k.0, k.1, gh, g) {
            if k == (gh, g) {
                assert(descends(v1, gh, g, gh, g));
            } else {
                assert(v0.main.contains_key(k));
                assert(descends(v0, k.0, k.1, rh, r));
                lemma_descends_grows(v0, v1, k.0, k.1, rh, r);
                assert forall|a: int| 0 <= a < desc.len() implies descends(v1, dh[a], #[trigger] desc[a]@, gh, g) by {
                    lemma_avoiding_nothing(v1, dh[a], desc[a]@, gh, g, Seq::<HashVal>::empty());
                }
                lemma_outside_avoids(v1, k.0, k.1, rh, r, gh, g, desc, dh);
                assert(listed(damned, hs, k.1, k.0));
                let a = choose|a: int| 0 <= a < damned.len() && a < hs.len() && #[trigger] damned[a]@ == k.1 && hs[a] == k.0;
                assert(gone(damned, damned.len() as int, k.1));
            }
        }
        lemma_descends_kept(v1, vf, k.0, k.1, gh, g);
    }
}

/// Some hash of `hs` has the bytes `x`.
pub open spec fn in_hashes(hs: Seq<HashVal>, x: Seq<u8>) -> bool {
    exists|j: int| 0 <= j < hs.len() && #[trigger] hs[j]@ == x
}

/// `hs` holds a hash whose bytes are `x`.
fn contains_hash(hs: &Vec<HashVal>, x: &HashVal) -> (r: bool)
    ensures
        r == in_hashes(hs@, x@),
{
    let mut i: usize = 0;
    while i < hs.len()
        invariant
            0 <= i <= hs@.len(),
            forall|a: int| 0 <= a < i ==> hs@[a]@ != x@,
        decreases hs@.len() - i,
    {
        if hs[i].same(x) {
            return true;
        }
        i += 1;
    }
    false
}

impl<B: DbBackend, S> BlockTree<B, S> {
    /// The block reached from `hash` at `height` by following parents for as
    /// long as they are present, with its height.
    fn walk_to_root(&self, hash: &HashVal, height: u64) -> (r: (HashVal, u64))
        requires
            self.wf(),
            self.view().main.contains_key((height, hash@)),
        ensures
            self.view().main.contains_key((r.1, r.0@)),
            !parent_present(self.view(), r.1, self.view().main[(r.1, r.0@)].header.previous@),
            descends(self.view(), height, hash@, r.1, r.0@),
    {
        proof {
            reveal(BlockTree::wf);
        }
        let ghost v = self.view();
        let mut cur = *hash;
        let mut h = height;
        loop
            invariant
                contents_ok(self.backend.contents()),
                v == self.view(),
                v.main.contains_key((h, cur@)),
                descends(v, height, hash@, h, cur@),
            decreases h,
        {
            let rec = match self.get_block(&cur, Some(h)) {
                Some(rec) => rec,
                None => return (cur, h),
            };
            if h == 0 {
                return (cur, h);
            }
            if self.get_block(&rec.header.previous, Some(h - 1)).is_none() {
                return (cur, h);
            }
            proof {
                lemma_descends_extend(v, height, hash@, h, cur@);
            }
            cur = rec.header.previous;
            h = h - 1;
        }
    }

    /// Every block reached from `start` at `height` by following children,
    /// leaving out, and not going past, the blocks in `skip`; with their
    /// heights, by ascending height.
    fn reach(&self, start: &HashVal, height: u64, skip: &Vec<HashVal>) -> (r: (Vec<HashVal>, Vec<u64>))
        requires
            self.wf(),
        ensures
            r.0@.len() == r.1@.len(),
            forall|a: int|
                0 <= a < r.0@.len() ==> descends_avoiding(
                    self.view(),
                    r.1@[a],
                    #[trigger] r.0@[a]@,
                    height,
                    start@,
                    skip@,
                ),
            forall|a: int, b: int| 0 <= a < b < r.1@.len() ==> r.1@[a] <= r.1@[b],
            forall|h: u64, y: Seq<u8>|
                #[trigger] descends_avoiding(self.view(), h, y, height, start@, skip@) ==> listed(
                    r.0@,
                    r.1@,
                    y,
                    h,
                ),
    {
        proof {
            reveal(BlockTree::wf);
        }
        let ghost v = self.view();
        let mut out: Vec<HashVal> = Vec::new();
        let mut hs: Vec<u64> = Vec::new();
        if height >= TIP_HEIGHT {
            proof {
                assert forall|h: u64, y: Seq<u8>|
                    #[trigger] descends_avoiding(v, h, y, height, start@, skip@) implies listed(
                        out@,
                        hs@,
                        y,
                        h,
                    ) by {
                    lemma_avoiding_through(v, h, y, height, start@, skip@, height);
                    let z = choose|z: Seq<u8>| #[trigger] descends_avoiding(v, height, z, height, start@, skip@);
                    lemma_avoiding_present(v, height, z, height, start@, skip@);
                    lemma_record_at(v, (height, z));
                }
            }
            return (out, hs);
        }
        let mut level: Vec<HashVal> = vec![*start];
        let mut lh = height;
        proof {
            assert(level@[0]@ == start@);
            assert forall|y: Seq<u8>| #[trigger] descends_avoiding(v, lh, y, height, start@, skip@) implies in_hashes(level@, y) by {
                assert(level@[0]@ == y);
            }
        }
        loop
            invariant
                contents_ok(self.backend.contents()),
                v == self.view(),
                graph_ok(v),
                height <= lh < TIP_HEIGHT,
                out@.len() == hs@.len(),
                forall|a: int|
                    0 <= a < out@.len() ==> descends_avoiding(v, hs@[a], #[trigger] out@[a]@, height, start@, skip@),
                forall|a: int, b: int| 0 <= a < b < hs@.len() ==> hs@[a] <= hs@[b],
                forall|a: int| 0 <= a < hs@.len() ==> #[trigger] hs@[a] < lh,
                forall|a: int|
                    0 <= a < level@.len() ==> if lh == height {
                        #[trigger] level@[a]@ == start@
                    } else {
                        v.main.contains_key((lh, level@[a]@)) && descends_avoiding(
                            v,
                            (lh - 1) as u64,
                            v.main[(lh, level@[a]@)].header.previous@,
                            height,
                            start@,
                            skip@,
                        )
                    },
                forall|y: Seq<u8>|
                    #[trigger] descends_avoiding(v, lh, y, height, start@, skip@) ==> in_hashes(level@, y),
                forall|h: u64, y: Seq<u8>|
                    h < lh && #[trigger] descends_avoiding(v, h, y, height, start@, skip@) ==> listed(
                        out@,
                        hs@,
                        y,
                        h,
                    ),
            decreases TIP_HEIGHT - lh,
        {
            let mut next: Vec<HashVal> = Vec::new();
            let ghost out0 = out@;
            let ghost hs0 = hs@;
            let mut i: usize = 0;
            while i < level.len()
                invariant
                    contents_ok(self.backend.contents()),
                    v == self.view(),
                    graph_ok(v),
                    height <= lh < TIP_HEIGHT,
                    0 <= i <= level@.len(),
                    forall|a: int|
                        0 <= a < level@.len() ==> if lh == height {
                            #[trigger] level@[a]@ == start@
                        } else {
                            v.main.contains_key((lh, level@[a]@)) && descends_avoiding(
                                v,
                                (lh - 1) as u64,
                                v.main[(lh, level@[a]@)].header.previous@,
                                height,
                                start@,
                                skip@,
                            )
                        },
                    out@.len() == hs@.len(),
                    out0.len() <= out@.len(),
                    forall|a: int| 0 <= a < out0.len() ==> out@[a] == out0[a] && hs@[a] == hs0[a],
                    forall|a: int| 0 <= a < out0.len() ==> #[trigger] hs0[a] < lh,
                    forall|a: int| out0.len() <= a < hs@.len() ==> #[trigger] hs@[a] == lh,
                    forall|a: int, b: int| 0 <= a < b < hs0.len() ==> hs0[a] <= hs0[b],
                    forall|a: int|
                        0 <= a < out@.len() ==> descends_avoiding(v, hs@[a], #[trigger] out@[a]@, height, start@, skip@),
                    next@.len() > 0 ==> lh + 1 < TIP_HEIGHT,
                    forall|c: int|
                        0 <= c < next@.len() ==> v.main.contains_key(((lh + 1) as u64, #[trigger] next@[c]@))
                            && descends_avoiding(
                            v,
                            lh,
                            v.main[((lh + 1) as u64, next@[c]@)].header.previous@,
                            height,
                            start@,
                            skip@,
                        ),
                    forall|a: int|
                        0 <= a < i && descends_avoiding(v, lh, #[trigger] level@[a]@, height, start@, skip@)
                            ==> listed(out@, hs@, level@[a]@, lh) && forall|j: int|
                            0 <= j < v.main[(lh, level@[a]@)].next.len() ==> in_hashes(
                                next@,
                                #[trigger] v.main[(lh, level@[a]@)].next[j]@,
                            ),
                decreases level@.len() - i,
            {
                let y = level[i];
                let ghost out1 = out@;
                let ghost hs1 = hs@;
                let ghost next1 = next@;
                if !contains_hash(skip, &y) {
                    match self.get_block(&y, Some(lh)) {
                        Some(rec) => {
                            proof {
                                assert(level@[i as int]@ == y@);
                                assert(descends_avoiding(v, lh, y@, height, start@, skip@));
                            }
                            out.push(y);
                            hs.push(lh);
                            let mut j: usize = 0;
                            while j < rec.next.len()
                                invariant
                                    0 <= j <= rec.next@.len(),
                                    graph_ok(v),
                                    lh < TIP_HEIGHT,
                                    v.main.contains_key((lh, y@)),
                                    rec@ == v.main[(lh, y@)],
                                    descends_avoiding(v, lh, y@, height, start@, skip@),
                                    next@.len() > 0 ==> lh + 1 < TIP_HEIGHT,
                                    next1.len() <= next@.len(),
                                    forall|c: int| 0 <= c < next1.len() ==> next@[c] == next1[c],
                                    forall|c: int|
                                        0 <= c < next@.len() ==> v.main.contains_key(((lh + 1) as u64, #[trigger] next@[c]@))
                                            && descends_avoiding(
                                            v,
                                            lh,
                                            v.main[((lh + 1) as u64, next@[c]@)].header.previous@,
                                            height,
                                            start@,
                                            skip@,
                                        ),
                                    forall|b: int|
                                        0 <= b < j ==> in_hashes(next@, #[trigger] rec@.next[b]@),
                                decreases rec.next@.len() - j,
                            {
                                proof {
                                    reveal(children_ok);
                                    assert(v.main[(lh, y@)].next[j as int] == rec.next[j as int]);
                                }
                                let ghost before = next@;
                                next.push(rec.next[j]);
                                proof {
                                    assert forall|b: int| 0 <= b < j + 1 implies in_hashes(
                                        next@,
                                        #[trigger] rec@.next[b]@,
                                    ) by {
                                        if b < j {
                                            let w = choose|w: int| 0 <= w < before.len() && #[trigger] before[w]@ == rec@.next[b]@;
                                            assert(next@[w] == before[w]);
                                        } else {
                                            assert(next@[before.len() as int] == rec.next[j as int]);
                                        }
                                    }
                                    assert forall|c: int|
                                        0 <= c < next@.len() implies v.main.contains_key(((lh + 1) as u64, #[trigger] next@[c]@))
                                            && descends_avoiding(
                                            v,
                                            lh,
                                            v.main[((lh + 1) as u64, next@[c]@)].header.previous@,
                                            height,
                                            start@,
                                            skip@,
                                        ) by {
                                        if c < before.len() {
                                            assert(next@[c] == before[c]);
                                        }
                                    }
                                }
                                j += 1;
                            }
                            proof {
                                assert(out@[out1.len() as int] == y);
                                assert(hs@[out1.len() as int] == lh);
                                assert(listed(out@, hs@, y@, lh));
                                assert forall|j: int|
                                    0 <= j < v.main[(lh, y@)].next.len() implies in_hashes(
                                        next@,
                                        #[trigger] v.main[(lh, y@)].next[j]@,
                                    ) by {
                                    assert(rec@.next[j] == v.main[(lh, y@)].next[j]);
                                }
                            }
                        },
                        None => {},
                    }
                }
                proof {
                    assert forall|a: int|
                        0 <= a < i + 1 && descends_avoiding(v, lh, #[trigger] level@[a]@, height, start@, skip@)
                            implies listed(out@, hs@, level@[a]@, lh) && forall|j: int|
                            0 <= j < v.main[(lh, level@[a]@)].next.len() ==> in_hashes(
                                next@,
                                #[trigger] v.main[(lh, level@[a]@)].next[j]@,
                            ) by {
                        if a < i {
                            let w = choose|w: int| 0 <= w < out1.len() && w < hs1.len() && #[trigger] out1[w]@ == level@[a]@ && hs1[w] == lh;
                            assert(out@[w] == out1[w] && hs@[w] == hs1[w]);
                            assert forall|j: int|
                                0 <= j < v.main[(lh, level@[a]@)].next.len() implies in_hashes(
                                    next@,
                                    #[trigger] v.main[(lh, level@[a]@)].next[j]@,
                                ) by {
                                let c = v.main[(lh, level@[a]@)].next[j]@;
                                let w2 = choose|w2: int| 0 <= w2 < next1.len() && #[trigger] next1[w2]@ == c;
                                assert(next@[w2] == next1[w2]);
                            }
                        } else {
                            lemma_avoiding_present(v, lh, y@, height, start@, skip@);
                        }
                    }
                }
                i += 1;
            }
            proof {
                reveal(parents_ok);
                assert forall|h: u64, y: Seq<u8>|
                    h < lh + 1 && #[trigger] descends_avoiding(v, h, y, height, start@, skip@) implies listed(
                        out@,
                        hs@,
                        y,
                        h,
                    ) by {
                    if h < lh {
                        let w = choose|w: int| 0 <= w < out0.len() && w < hs0.len() && #[trigger] out0[w]@ == y && hs0[w] == h;
                        assert(out@[w] == out0[w] && hs@[w] == hs0[w]);
                    } else {
                        let a = choose|a: int| 0 <= a < level@.len() && #[trigger] level@[a]@ == y;
                        assert(descends_avoiding(v, lh, level@[a]@, height, start@, skip@));
                    }
                }
                assert forall|z: Seq<u8>|
                    #[trigger] descends_avoiding(v, (lh + 1) as u64, z, height, start@, skip@) implies in_hashes(next@, z) by {
                    let p = v.main[((lh + 1) as u64, z)].header.previous@;
                    assert(descends_avoiding(v, lh, p, height, start@, skip@));
                    lemma_avoiding_present(v, lh, p, height, start@, skip@);
                    let a = choose|a: int| 0 <= a < level@.len() && #[trigger] level@[a]@ == p;
                    assert(descends_avoiding(v, lh, level@[a]@, height, start@, skip@));
                    assert(has_child(v.main[(lh, p)], z));
                    let j = choose|j: int| 0 <= j < v.main[(lh, p)].next.len() && #[trigger] v.main[(lh, p)].next[j]@ == z;
                    assert(in_hashes(next@, v.main[(lh, level@[a]@)].next[j]@));
                }
                assert forall|a: int, b: int| 0 <= a < b < hs@.len() implies hs@[a] <= hs@[b] by {
                    if b < out0.len() {
                        assert(hs@[a] == hs0[a] && hs@[b] == hs0[b]);
                    } else if a < out0.len() {
                        assert(hs@[a] == hs0[a]);
                        assert(hs0[a] < lh);
                    }
                }
                assert forall|a: int| 0 <= a < hs@.len() implies #[trigger] hs@[a] < lh + 1 by {
                    if a < out0.len() {
                        assert(hs@[a] == hs0[a]);
                        assert(hs0[a] < lh);
                    }
                }
            }
            if next.len() == 0 {
                proof {
                    assert forall|h: u64, y: Seq<u8>|
                        #[trigger] descends_avoiding(v, h, y, height, start@, skip@) implies listed(
                            out@,
                            hs@,
                            y,
                            h,
                        ) by {
                        if h >= lh + 1 {
                            lemma_avoiding_through(v, h, y, height, start@, skip@, (lh + 1) as u64);
                            let z = choose|z: Seq<u8>| #[trigger] descends_avoiding(v, (lh + 1) as u64, z, height, start@, skip@);
                            assert(in_hashes(next@, z));
                        }
                    }
                }
                return (out, hs);
            }
            level = next;
            lh = lh + 1;
        }
    }
}

} // verus!

verus! {

impl<B: DbBackend, S> BlockTree<B, S> {
    /// Removes the blocks `damned`, listed with their heights `hs` by
    /// ascending height, each of whose present parent is listed before it.
    fn remove_damned(&mut self, damned: &Vec<HashVal>, hs: &Vec<u64>)
        requires
            old(self).wf(),
            damned@.len() == hs@.len(),
            forall|a: int, b: int| 0 <= a < b < hs@.len() ==> hs@[a] <= hs@[b],
            forall|a: int|
                0 <= a < damned@.len() ==> old(self).view().main.contains_key(
                    (hs@[a], #[trigger] damned@[a]@),
                ),
            forall|a: int|
                0 <= a < damned@.len() && parent_present(
                    old(self).view(),
                    hs@[a],
                    old(self).view().main[(hs@[a], #[trigger] damned@[a]@)].header.previous@,
                ) ==> listed(
                    damned@,
                    hs@,
                    old(self).view().main[(hs@[a], damned@[a]@)].header.previous@,
                    (hs@[a] - 1) as u64,
                ),
        ensures
            final(self).wf(),
            forall|k: (u64, Seq<u8>)| #[trigger]
                final(self).view().main.contains_key(k) <==> old(self).view().main.contains_key(k)
                    && !gone(damned@, damned@.len() as int, k.1),
            forall|k: (u64, Seq<u8>)| #[trigger]
                final(self).view().main.contains_key(k) ==> final(self).view().main[k] == old(
                    self,
                ).view().main[k],
    {
        let ghost v1 = self.view();
        proof {
            reveal(BlockTree::wf);
        }
        let mut i: usize = 0;
        while i < damned.len()
            invariant
                self.wf(),
                graph_ok(v1),
                0 <= i <= damned@.len(),
                damned@.len() == hs@.len(),
                forall|a: int, b: int| 0 <= a < b < hs@.len() ==> hs@[a] <= hs@[b],
                forall|a: int|
                    0 <= a < damned@.len() ==> v1.main.contains_key((hs@[a], #[trigger] damned@[a]@)),
                forall|a: int|
                    0 <= a < damned@.len() && parent_present(
                        v1,
                        hs@[a],
                        v1.main[(hs@[a], #[trigger] damned@[a]@)].header.previous@,
                    ) ==> listed(
                        damned@,
                        hs@,
                        v1.main[(hs@[a], damned@[a]@)].header.previous@,
                        (hs@[a] - 1) as u64,
                    ),
                forall|k: (u64, Seq<u8>)| #[trigger]
                    self.view().main.contains_key(k) <==> v1.main.contains_key(k) && !gone(
                        damned@,
                        i as int,
                        k.1,
                    ),
                forall|k: (u64, Seq<u8>)| #[trigger]
                    self.view().main.contains_key(k) ==> self.view().main[k] == v1.main[k],
            decreases damned@.len() - i,
        {
            let d = &damned[i];
            let ghost y = d@;
            let ghost h = hs@[i as int];
            let ghost vi = self.view();
            proof {
                reveal(BlockTree::wf);
                reveal(index_ok);
                assert(v1.main.contains_key((h, damned@[i as int]@)));
            }
            let found = self.index_get(d);
            if found.is_none() {
                proof {
                    assert forall|k: (u64, Seq<u8>)| #[trigger]
                        self.view().main.contains_key(k) <==> v1.main.contains_key(k) && !gone(
                            damned@,
                            i + 1,
                            k.1,
                        ) by {
                        if gone(damned@, i + 1, k.1) && !gone(damned@, i as int, k.1) {
                            assert(k.1 == y);
                        }
                        if gone(damned@, i as int, k.1) {
                            let a = choose|a: int| 0 <= a < i && #[trigger] damned@[a]@ == k.1;
                            assert(damned@[a]@ == k.1);
                        }
                    }
                }
                i += 1;
                continue;
            }
            let h2 = found.unwrap();
            proof {
                assert(vi.main.contains_key((h2, y)));
                lemma_key_unique(v1, h2, h, y);
                assert(!gone(damned@, i as int, y));
            }
            let rec = match self.internal_get(d, h2) {
                Some(rec) => rec,
                None => {
                    i += 1;
                    continue;
                },
            };
            let ghost p = rec.header.previous@;
            if h2 >= 1 && self.internal_get(&rec.header.previous, h2 - 1).is_some() {
                proof {
                    assert(v1.main.contains_key(((h - 1) as u64, p)));
                    assert(parent_present(v1, hs@[i as int], v1.main[(hs@[i as int], damned@[i as int]@)].header.previous@));
                    let b = choose|b: int| 0 <= b < damned@.len() && b < hs@.len() && #[trigger] damned@[b]@ == p && hs@[b] == (h - 1) as u64;
                    if b >= i {
                        assert(hs@[i as int] <= hs@[b]);
                    }
                    assert(gone(damned@, i as int, p));
                }
                i += 1;
                continue;
            }
            proof {
                lemma_record_at(vi, (h, y));
            }
            self.remove_orphan(d);
            proof {
                assert forall|k: (u64, Seq<u8>)| #[trigger]
                    self.view().main.contains_key(k) <==> v1.main.contains_key(k) && !gone(
                        damned@,
                        i + 1,
                        k.1,
                    ) by {
                    if gone(damned@, i + 1, k.1) && !gone(damned@, i as int, k.1) {
                        assert(k.1 == y);
                        if v1.main.contains_key(k) {
                            lemma_key_unique(v1, k.0, h, y);
                        }
                    }
                    if gone(damned@, i as int, k.1) {
                        let a = choose|a: int| 0 <= a < i && #[trigger] damned@[a]@ == k.1;
                        assert(damned@[a]@ == k.1);
                    }
                    if k.1 == y {
                        assert(damned@[i as int]@ == k.1);
                    }
                }
            }
            i += 1;
        }
    }

    /// Sets the genesis block of the tree: inserts it when absent, then
    /// prunes every block reached from the current genesis (the root above
    /// the first tip) that does not descend from it, by ascending height.
    #[verifier::rlimit(100)]
    #[verifier::spinoff_prover]
    pub fn set_genesis(&mut self, state: SealedState<S>, init_metadata: &[u8])
        requires
            old(self).wf(),
            state.header.height < TIP_HEIGHT,
        ensures
            final(self).wf(),
            final(self).view().index.contains_key(header_hash(state.header)),
            !old(self).view().index.contains_key(header_hash(state.header)) ==> {
                let rec = final(self).view().main[(state.header.height, header_hash(state.header))];
                &&& final(self).view().index[header_hash(state.header)] == state.header.height
                &&& rec.header == state.header
                &&& rec.partial_state == state.partial_encoding@
                &&& rec.action == state.action
                &&& rec.metadata == init_metadata@
            },
            forall|k: (u64, Seq<u8>)| #[trigger]
                final(self).view().main.contains_key(k) ==> old(self).view().main.contains_key(k)
                    || k.1 == header_hash(state.header),
            old(self).view().index.contains_key(header_hash(state.header)) ==> forall|
                h: u64,
                y: Seq<u8>,
            |
                #[trigger] descends(
                    old(self).view(),
                    h,
                    y,
                    old(self).view().index[header_hash(state.header)],
                    header_hash(state.header),
                ) ==> final(self).view().main.contains_key((h, y)) && final(self).view().main[(
                    h,
                    y,
                )] == old(self).view().main[(h, y)],
            forall|rh: u64, r: Seq<u8>| #[trigger]
                one_root(old(self).view(), rh, r) ==> forall|k: (u64, Seq<u8>)| #[trigger]
                    final(self).view().main.contains_key(k) ==> descends(
                        final(self).view(),
                        k.0,
                        k.1,
                        final(self).view().index[header_hash(state.header)],
                        header_hash(state.header),
                    ),
            old(self).view().index.contains_key(header_hash(state.header)) && one_root(
                old(self).view(),
                old(self).view().index[header_hash(state.header)],
                header_hash(state.header),
            ) ==> final(self).view() == old(self).view() && final(self).cached() == old(
                self,
            ).cached(),
    {
        proof {
            reveal(BlockTree::wf);
        }
        let ghost v0 = self.view();
        let ghost st_header = state.header;
        let ghost st_partial = state.partial_encoding@;
        let ghost st_action = state.action;
        let g = state.header.hash();
        // the current genesis, above the first tip
        let tips = self.all_under(TIP_HEIGHT);
        let mut root: Option<(HashVal, u64)> = None;
        if tips.len() > 0 {
            proof {
                reveal(tips_ok);
                reveal(index_ok);
                assert(v0.tips.contains(tips@[0]@));
            }
            match self.index_get(&tips[0]) {
                Some(th) => {
                    root = Some(self.walk_to_root(&tips[0], th));
                },
                None => {},
            }
        }
        proof {
            if root is None {
                assert forall|k: (u64, Seq<u8>)| !v0.main.contains_key(k) by {
                    if v0.main.contains_key(k) {
                        lemma_has_tip(v0, k);
                        let x = choose|x: Seq<u8>| #[trigger] v0.tips.contains(x);
                        assert(self.backend.contents().contains_key(key_of(TIP_HEIGHT, x)));
                        reveal(tips_ok);
                        reveal(index_ok);
                    }
                }
            }
        }
        let was_present = self.index_get(&g).is_some();
        if !was_present {
            self.insert_block(state, init_metadata);
        }
        let ghost v1 = self.view();
        proof {
            reveal(BlockTree::wf);
            reveal(index_ok);
            if !was_present {
                let rec1 = v1.main[(st_header.height, g@)];
                lemma_insert_facts(v0, rec1, crate::hash::hash_from(g@));
                lemma_inserted_keys(v0, rec1, crate::hash::hash_from(g@));
            } else {
                assert(v1 == v0);
            }
            assert forall|k: (u64, Seq<u8>)| #[trigger]
                v0.main.contains_key(k) implies v1.main.contains_key(k) && v1.main[k].header == v0.main[k].header by {
                if !was_present {
                    assert(k != (st_header.height, g@));
                }
            }
        }
        let g_height = match self.index_get(&g) {
            Some(h) => h,
            None => return,
        };
        proof {
            reveal(index_ok);
            assert(v1.main.contains_key((g_height, g@)));
            if !was_present {
                assert(g_height == st_header.height);
            }
            assert forall|k: (u64, Seq<u8>)| #[trigger]
                v1.main.contains_key(k) implies v0.main.contains_key(k) || k == (g_height, g@) by {
                if !v0.main.contains_key(k) {
                    lemma_key_unique(v1, k.0, g_height, g@);
                }
            }
            assert(descends(v1, g_height, g@, g_height, g@));
        }
        let (r, rh) = match root {
            None => {
                proof {
                    assert forall|k: (u64, Seq<u8>)| #[trigger]
                        v1.main.contains_key(k) implies descends(v1, k.0, k.1, g_height, g@) by {
                        assert(k == (g_height, g@));
                    }
                }
                return;
            },
            Some(x) => x,
        };
        if r.same(&g) {
            proof {
                assert(was_present);
                assert(v1 == v0);
                assert forall|rh0: u64, r0: Seq<u8>| #[trigger]
                    one_root(v0, rh0, r0) implies forall|k: (u64, Seq<u8>)| #[trigger]
                        v1.main.contains_key(k) ==> descends(v1, k.0, k.1, g_height, g@) by {
                    assert(descends(v0, rh, r@, rh0, r0));
                    lemma_root_is_unique(v0, rh, r@, rh0, r0);
                    lemma_key_unique(v0, rh, g_height, g@);
                }
            }
            return;
        }
        proof {
            if was_present && one_root(v0, v0.index[g@], g@) {
                assert(descends(v0, rh, r@, v0.index[g@], g@));
                lemma_root_is_unique(v0, rh, r@, v0.index[g@], g@);
            }
        }
        let none: Vec<HashVal> = Vec::new();
        let (desc, dh) = self.reach(&g, g_height, &none);
        let (damned, hs) = self.reach(&r, rh, &desc);
        proof {
            assert(none@ =~= Seq::<HashVal>::empty());
            assert(v1.main.contains_key((rh, r@)));
            assert forall|a: int|
                0 <= a < damned@.len() && parent_present(
                    v1,
                    hs@[a],
                    v1.main[(hs@[a], #[trigger] damned@[a]@)].header.previous@,
                ) implies listed(
                    damned@,
                    hs@,
                    v1.main[(hs@[a], damned@[a]@)].header.previous@,
                    (hs@[a] - 1) as u64,
                ) by {
                let y = damned@[a]@;
                let h = hs@[a];
                let p = v1.main[(h, y)].header.previous@;
                assert(descends_avoiding(v1, h, y, rh, r@, desc@));
                if h <= rh {
                    assert(y == r@);
                    if v0.main.contains_key(((h - 1) as u64, p)) {
                        assert(v1.main[(rh, r@)].header == v0.main[(rh, r@)].header);
                    } else {
                        assert(((h - 1) as u64, p) == (g_height, g@));
                        assert(descends(v1, g_height, g@, g_height, g@));
                        assert(descends(v1, rh, r@, g_height, g@));
                        lemma_avoiding_nothing(v1, rh, r@, g_height, g@, none@);
                        assert(listed(desc@, dh@, r@, rh));
                        let w = choose|w: int| 0 <= w < desc@.len() && w < dh@.len() && #[trigger] desc@[w]@ == r@ && dh@[w] == rh;
                        assert(in_hashes(desc@, r@));
                    }
                } else {
                    assert(descends_avoiding(v1, (h - 1) as u64, p, rh, r@, desc@));
                }
            }
            assert forall|a: int| 0 <= a < damned@.len() implies v1.main.contains_key((hs@[a], #[trigger] damned@[a]@)) by {
                lemma_avoiding_present(v1, hs@[a], damned@[a]@, rh, r@, desc@);
            }
        }
        self.remove_damned(&damned, &hs);
        proof {
            let vf = self.view();
            reveal(BlockTree::wf);
            lemma_kept_descendants(v1, vf, g_height, g@, rh, r@, desc@, dh@, damned@, hs@);
            assert forall|rh0: u64, r0: Seq<u8>| #[trigger]
                one_root(v0, rh0, r0) implies forall|k: (u64, Seq<u8>)| #[trigger]
                    vf.main.contains_key(k) ==> descends(vf, k.0, k.1, vf.index[g@], g@) by {
                lemma_one_root_pruned(v0, v1, vf, g_height, g@, rh, r@, desc@, dh@, damned@, hs@, rh0, r0);
                lemma_index_at(vf, g@);
                lemma_key_unique(vf, vf.index[g@], g_height, g@);
            }
            assert(vf.main.contains_key((g_height, g@)));
            reveal(index_ok);
            lemma_key_unique(vf, vf.index[g@], g_height, g@);
        }
    }
}

} // verus!

verus! {

/// `r` with its metadata replaced.
pub open spec fn with_metadata(r: RecordView, metadata: Seq<u8>) -> RecordView {
    RecordView { metadata, ..r }
}

proof fn lemma_metadata_graph(v: TreeView, k: (u64, Seq<u8>), metadata: Seq<u8>)
    requires
        graph_ok(v),
        v.main.contains_key(k),
        metadata.len() <= u64::MAX,
    ensures
        graph_ok(
            TreeView { main: v.main.insert(k, with_metadata(v.main[k], metadata)), ..v },
        ),
{
    reveal(records_ok);
    reveal(index_ok);
    reveal(tips_ok);
    reveal(parents_ok);
    reveal(children_ok);
    let v2 = TreeView { main: v.main.insert(k, with_metadata(v.main[k], metadata)), ..v };
    assert(records_ok(v2));
    assert(index_ok(v2));
    assert(tips_ok(v2)) by {
        assert forall|y: Seq<u8>| #[trigger]
            v2.index.contains_key(y) && v2.main[(v2.index[y], y)].next.len() == 0 implies v2.tips.contains(
            y,
        ) by {
            assert(v.main.contains_key((v.index[y], y)));
        }
    }
    assert(parents_ok(v2)) by {
        assert forall|k2: (u64, Seq<u8>)| #[trigger]
            v2.main.contains_key(k2) && k2.0 >= 1 && v2.main.contains_key(
                ((k2.0 - 1) as u64, v2.main[k2].header.previous@),
            ) implies has_child(v2.main[((k2.0 - 1) as u64, v2.main[k2].header.previous@)], k2.1) by {
            let q = ((k2.0 - 1) as u64, v2.main[k2].header.previous@);
            assert(v.main.contains_key(k2));
            assert(has_child(v.main[q], k2.1));
            let j = choose|j: int| 0 <= j < v.main[q].next.len() && #[trigger] v.main[q].next[j]@ == k2.1;
            assert(v2.main[q].next[j] == v.main[q].next[j]);
        }
    }
    assert(children_ok(v2)) by {
        assert forall|k2: (u64, Seq<u8>), j: int|
            v2.main.contains_key(k2) && 0 <= j < v2.main[k2].next.len() implies {
            let c = ((k2.0 + 1) as u64, #[trigger] v2.main[k2].next[j]@);
            &&& k2.0 + 1 < TIP_HEIGHT
            &&& v2.main.contains_key(c)
            &&& v2.main[c].header.previous@ == k2.1
        } by {
            assert(v.main.contains_key(k2));
            assert(v2.main[k2].next[j] == v.main[k2].next[j]);
        }
    }
}

impl<B: DbBackend, S> BlockTree<B, S> {
    /// Rewrites the record of the block at `key` with new metadata.
    fn write_metadata(&mut self, rec: &Record, metadata: &[u8]) -> (r: Record)
        requires
            old(self).wf(),
            old(self).view().main.contains_key((rec.header.height, header_hash(rec.header))),
            old(self).view().main[(rec.header.height, header_hash(rec.header))] == rec@,
        ensures
            final(self).wf(),
            r@ == with_metadata(rec@, metadata@),
            final(self).view() == (TreeView {
                main: old(self).view().main.insert(
                    (rec.header.height, header_hash(rec.header)),
                    with_metadata(rec@, metadata@),
                ),
                ..old(self).view()
            }),
            final(self).cached() == old(self).cached(),
    {
        proof {
            reveal(BlockTree::wf);
        }
        let ghost v = self.view();
        let ghost k = (rec.header.height, header_hash(rec.header));
        let mut updated = rec.duplicate();
        updated.metadata = slice_to_vec(metadata);
        updated.lengths_fit();
        assert(updated@ =~= with_metadata(rec@, metadata@));
        let hash = rec.header.hash();
        proof {
            lemma_record_at(v, k);
            lemma_metadata_graph(v, k, metadata@);
        }
        let ghost m0 = self.backend.contents();
        let bytes = updated.encode();
        let mk = main_key(&hash, rec.header.height);
        self.backend.insert(mk.as_slice(), bytes.as_slice());
        proof {
            lemma_put_main(m0, k.0, k.1, updated@);
            assert(self.view() =~= (TreeView { main: v.main.insert(k, updated@), ..v }));
        }
        updated
    }
}

/// A mutable cursor, pointing to a block inside the tree. While it lives
/// nothing else can reach the tree.
pub struct CursorMut<'a, B: DbBackend, S> {
    tree: &'a mut BlockTree<B, S>,
    internal: Record,
}

impl<'a, B: DbBackend, S> CursorMut<'a, B, S> {
    /// The tree the cursor points into.
    pub closed spec fn tree(&self) -> BlockTree<B, S> {
        *self.tree
    }

    /// The record the cursor holds.
    pub closed spec fn record(&self) -> RecordView {
        self.internal@
    }

    /// The hash of the block the cursor points to.
    pub open spec fn block_hash(&self) -> Seq<u8> {
        header_hash(self.record().header)
    }

    /// The cursor holds the record that the tree holds for its block.
    pub closed spec fn wf(&self) -> bool {
        &&& self.tree.wf()
        &&& self.tree.view().main.contains_key(
            (self.internal.header.height, header_hash(self.internal.header)),
        )
        &&& self.tree.view().main[(self.internal.header.height, header_hash(self.internal.header))]
            == self.internal@
    }

    /// Extracts the header.
    pub fn header(&self) -> (r: Header)
        ensures
            r == self.record().header,
    {
        self.internal.header
    }

    /// Extracts the metadata.
    pub fn metadata(&self) -> (r: &[u8])
        ensures
            r@ == self.record().metadata,
    {
        self.internal.metadata.as_slice()
    }

    /// The cached state of the block; `None` when it is not cached.
    pub fn to_state(&self) -> (r: Option<&S>)
        requires
            self.wf(),
        ensures
            match r {
                Some(s) => self.tree().cached().contains_key(self.block_hash()) && *s
                    == self.tree().cached()[self.block_hash()],
                None => !self.tree().cached().contains_key(self.block_hash()),
            },
    {
        proof {
            reveal(BlockTree::wf);
        }
        let h = self.internal.header.hash();
        self.tree.cache.get(&h)
    }

    /// Sets the metadata, writing the record back to the tree.
    pub fn set_metadata(&mut self, metadata: &[u8])
        requires
            old(self).wf(),
        ensures
            final(self).wf(),
            final(self).record() == with_metadata(old(self).record(), metadata@),
            final(self).tree().view() == (TreeView {
                main: old(self).tree().view().main.insert(
                    (old(self).record().header.height, old(self).block_hash()),
                    with_metadata(old(self).record(), metadata@),
                ),
                ..old(self).tree().view()
            }),
            final(self).tree().cached() == old(self).tree().cached(),
    {
        let updated = self.tree.write_metadata(&self.internal, metadata);
        self.internal = updated;
    }

    /// Turns the cursor into a read-only one.
    pub fn downgrade(self) -> (r: Cursor<'a, B, S>)
        requires
            self.wf(),
        ensures
            r.wf(),
            r.record() == self.record(),
            r.tree() == self.tree(),
    {
        Cursor { tree: self.tree, internal: self.internal }
    }
}

impl<B: DbBackend, S> BlockTree<B, S> {
    /// Obtains a mutable cursor pointing to the block `hash`.
    pub fn get_cursor_mut<'a>(&'a mut self, hash: &HashVal) -> (r: Option<CursorMut<'a, B, S>>)
        requires
            old(self).wf(),
        ensures
            match r {
                Some(c) => old(self).view().index.contains_key(hash@) && c.wf() && c.tree()
                    == *old(self) && c.block_hash() == hash@ && c.record() == old(self).view().main[(
                    old(self).view().index[hash@],
                    hash@,
                )],
                None => !old(self).view().index.contains_key(hash@),
            },
    {
        proof {
            reveal(BlockTree::wf);
            reveal(records_ok);
            reveal(index_ok);
        }
        match self.get_block(hash, None) {
            Some(internal) => Some(CursorMut { tree: self, internal }),
            None => None,
        }
    }
}

} // verus!

verus! {

/// No two records share a block hash: a hash sits at one height only.
pub proof fn lemma_key_unique(v: TreeView, h1: u64, h2: u64, x: Seq<u8>)
    requires
        graph_ok(v),
        v.main.contains_key((h1, x)),
        v.main.contains_key((h2, x)),
    ensures
        h1 == h2,
{
    reveal(index_ok);
}

/// The index maps the hash of every record to the record's height, and each
/// indexed hash has its record under that height.
pub proof fn lemma_index_consistent(v: TreeView)
    requires
        graph_ok(v),
    ensures
        forall|k: (u64, Seq<u8>)| #[trigger]
            v.main.contains_key(k) ==> v.index.contains_key(k.1) && v.index[k.1] == k.0
                && v.main[k].header.height == k.0 && header_hash(v.main[k].header) == k.1,
        forall|x: Seq<u8>| #[trigger] v.index.contains_key(x) ==> v.main.contains_key((v.index[x], x)),
{
    reveal(index_ok);
    reveal(records_ok);
}

/// A hash is a tip exactly when its record exists and has no children.
pub proof fn lemma_tips_childless(v: TreeView)
    requires
        graph_ok(v),
    ensures
        forall|x: Seq<u8>|
            #[trigger] v.tips.contains(x) <==> v.index.contains_key(x) && v.main[(
                v.index[x],
                x,
            )].next.len() == 0,
{
    reveal(tips_ok);
    assert forall|x: Seq<u8>|
        #[trigger] v.tips.contains(x) <==> v.index.contains_key(x) && v.main[(
            v.index[x],
            x,
        )].next.len() == 0 by {
        if v.index.contains_key(x) && v.main[(v.index[x], x)].next.len() == 0 {
            assert(v.tips.contains(x));
        }
    }
}

/// A record whose parent is present one height down is among the parent's
/// children.
pub proof fn lemma_parent_lists_child(v: TreeView, k: (u64, Seq<u8>))
    requires
        graph_ok(v),
        v.main.contains_key(k),
        k.0 >= 1,
        v.main.contains_key(((k.0 - 1) as u64, v.main[k].header.previous@)),
    ensures
        has_child(v.main[((k.0 - 1) as u64, v.main[k].header.previous@)], k.1),
{
    reveal(parents_ok);
}

/// Storing a block with no records waiting for it one height up is a
/// function of the tree and the block; once stored, the block is indexed,
/// so applying it again leaves the tree as it is.
pub proof fn lemma_apply_deterministic(
    v: TreeView,
    v2a: TreeView,
    v2b: TreeView,
    x: Seq<u8>,
    header: Header,
    partial_state: Seq<u8>,
    action: Option<ProposerAction>,
    metadata: Seq<u8>,
)
    requires
        graph_ok(v),
        stored(v, v2a, x, header, partial_state, action, metadata),
        stored(v, v2b, x, header, partial_state, action, metadata),
        forall|y: Seq<u8>|
            #[trigger] v.main.contains_key(((header.height + 1) as u64, y)) ==> v.main[(
                (header.height + 1) as u64,
                y,
            )].header.previous@ != x,
    ensures
        v2a == v2b,
        v2a.index.contains_key(x),
{
    let ra = v2a.main[(header.height, x)];
    let rb = v2b.main[(header.height, x)];
    let xh = crate::hash::hash_from(x);
    assert(ra.next.len() == 0) by {
        if ra.next.len() > 0 {
            assert(v.main.contains_key(((header.height + 1) as u64, ra.next[0]@)));
        }
    }
    assert(rb.next.len() == 0) by {
        if rb.next.len() > 0 {
            assert(v.main.contains_key(((header.height + 1) as u64, rb.next[0]@)));
        }
    }
    assert(ra.next =~= rb.next);
    assert(ra == rb);
    lemma_insert_facts(v, ra, xh);
    assert(v2a.index.contains_key(xh@));
}

impl<B: DbBackend, S> BlockTree<B, S> {
    /// The tables of a well-formed tree meet the tree invariants.
    pub proof fn lemma_graph_ok(&self)
        requires
            self.wf(),
        ensures
            graph_ok(self.view()),
    {
        reveal(BlockTree::wf);
    }

    /// Every cached state belongs to a block present in the tree.
    pub proof fn lemma_cache_coherent(&self)
        requires
            self.wf(),
        ensures
            forall|x: Seq<u8>| #[trigger]
                self.cached().contains_key(x) ==> self.view().index.contains_key(x),
    {
        reveal(BlockTree::wf);
    }
}

} // verus!

verus! {

/// One block as the debugging graph shows it.
pub struct GraphNode {
    pub hash: HashVal,
    pub height: u64,
    pub is_tip: bool,
    /// The parent, when present one height down.
    pub parent: Option<HashVal>,
}

/// `n` shows a block of `v` truly: the block is present, flagged a tip
/// exactly when it is one, and given a parent exactly when its parent is
/// present one height down.
#[verifier::opaque]
pub open spec fn node_ok(v: TreeView, n: GraphNode) -> bool {
    &&& v.main.contains_key((n.height, n.hash@))
    &&& n.is_tip == v.tips.contains(n.hash@)
    &&& match n.parent {
        Some(p) => n.height >= 1 && v.main.contains_key(((n.height - 1) as u64, p@))
            && v.main[(n.height, n.hash@)].header.previous == p,
        None => !parent_present(v, n.height, v.main[(n.height, n.hash@)].header.previous@),
    }
}

impl<B: DbBackend, S> BlockTree<B, S> {
    /// The blocks met walking up from every tip, each once, with whether it
    /// is a tip and its parent edge.
    pub fn debug_graphviz(&self) -> (r: Vec<GraphNode>)
        requires
            self.wf(),
        ensures
            forall|i: int| 0 <= i < r@.len() ==> node_ok(self.view(), #[trigger] r@[i]),
            forall|x: Seq<u8>| #[trigger]
                self.view().tips.contains(x) ==> exists|i: int|
                    0 <= i < r@.len() && #[trigger] r@[i].hash@ == x,
            forall|i: int, j: int| 0 <= i < j < r@.len() ==> r@[i].hash@ != r@[j].hash@,
            forall|i: int|
                0 <= i < r@.len() && (#[trigger] r@[i]).parent is Some ==> exists|j: int|
                    0 <= j < r@.len() && r@[j].hash@ == r@[i].parent->Some_0@,
    {
        proof {
            reveal(BlockTree::wf);
        }
        let ghost v = self.view();
        let tips = self.all_under(TIP_HEIGHT);
        let mut out: Vec<GraphNode> = Vec::new();
        let mut seen: Vec<HashVal> = Vec::new();
        let mut t: usize = 0;
        while t < tips.len()
            invariant
                contents_ok(self.backend.contents()),
                v == self.view(),
                0 <= t <= tips@.len(),
                seen@.len() == out@.len(),
                forall|a: int| 0 <= a < out@.len() ==> #[trigger] seen@[a] == out@[a].hash,
                forall|a: int, b: int| 0 <= a < b < out@.len() ==> out@[a].hash@ != out@[b].hash@,
                forall|a: int| 0 <= a < tips@.len() ==> #[trigger] v.tips.contains(tips@[a]@),
                forall|a: int| 0 <= a < t ==> in_hashes(seen@, #[trigger] tips@[a]@),
                forall|i: int| 0 <= i < out@.len() ==> node_ok(v, #[trigger] out@[i]),
                forall|i: int|
                    0 <= i < out@.len() && (#[trigger] out@[i]).parent is Some ==> in_hashes(
                        seen@,
                        out@[i].parent->Some_0@,
                    ),
            decreases tips@.len() - t,
        {
            let ghost seen_before = seen@;
            let mut cur = tips[t];
            proof {
                reveal(tips_ok);
                reveal(index_ok);
                assert(v.tips.contains(tips@[t as int]@));
            }
            let mut h = match self.index_get(&cur) {
                Some(h) => h,
                None => {
                    t += 1;
                    continue;
                },
            };
            proof {
                reveal(tips_ok);
                reveal(index_ok);
                assert(v.tips.contains(tips@[t as int]@));
            }
            let ghost first = true;
            loop
                invariant
                    contents_ok(self.backend.contents()),
                    v == self.view(),
                    seen@.len() == out@.len(),
                    seen_before.len() <= seen@.len(),
                    forall|a: int| 0 <= a < seen_before.len() ==> seen@[a] == seen_before[a],
                    forall|a: int| 0 <= a < out@.len() ==> #[trigger] seen@[a] == out@[a].hash,
                    forall|a: int, b: int|
                        0 <= a < b < out@.len() ==> out@[a].hash@ != out@[b].hash@,
                    first ==> cur == tips@[t as int],
                    v.main.contains_key((h, cur@)),
                    !first ==> in_hashes(seen@, tips@[t as int]@),
                    forall|i: int| 0 <= i < out@.len() ==> node_ok(v, #[trigger] out@[i]),
                    forall|i: int|
                        0 <= i < out@.len() && (#[trigger] out@[i]).parent is Some ==> in_hashes(
                            seen@,
                            out@[i].parent->Some_0@,
                        ) || (!first && out@[i].parent->Some_0@ == cur@),
                ensures
                    forall|i: int|
                        0 <= i < out@.len() && (#[trigger] out@[i]).parent is Some ==> in_hashes(
                            seen@,
                            out@[i].parent->Some_0@,
                        ),
                    in_hashes(seen@, tips@[t as int]@),
                    seen@.len() == out@.len(),
                    forall|a: int| 0 <= a < seen_before.len() ==> seen@[a] == seen_before[a],
                    forall|a: int| 0 <= a < out@.len() ==> #[trigger] seen@[a] == out@[a].hash,
                    forall|a: int, b: int|
                        0 <= a < b < out@.len() ==> out@[a].hash@ != out@[b].hash@,
                    forall|i: int| 0 <= i < out@.len() ==> node_ok(v, #[trigger] out@[i]),
                decreases h,
            {
                if contains_hash(&seen, &cur) {
                    proof {
                        assert forall|i: int|
                            0 <= i < out@.len() && (#[trigger] out@[i]).parent is Some implies in_hashes(
                                seen@,
                                out@[i].parent->Some_0@,
                            ) by {}
                        if !first {
                            assert(in_hashes(seen@, tips@[t as int]@));
                        }
                    }
                    break;
                }
                let rec = match self.get_block(&cur, Some(h)) {
                    Some(rec) => rec,
                    None => break,
                };
                let is_tip = self.backend.get(tip_key(&cur).as_slice()).is_some();
                let parent = if h >= 1 && self.get_block(&rec.header.previous, Some(h - 1)).is_some() {
                    Some(rec.header.previous)
                } else {
                    None
                };
                let ghost old_seen = seen@;
                let ghost old_out = out@;
                proof {
                    reveal(node_ok);
                    reveal(layout_ok);
                    assert(v.main.contains_key((h, cur@)));
                    assert(node_ok(v, GraphNode { hash: cur, height: h, is_tip, parent }));
                }
                out.push(GraphNode { hash: cur, height: h, is_tip, parent });
                seen.push(cur);
                proof {
                    assert(seen@[seen@.len() - 1] == cur);
                    assert forall|a: int, b: int|
                        0 <= a < b < out@.len() implies out@[a].hash@ != out@[b].hash@ by {
                        if b == out@.len() - 1 {
                            assert(old_seen[a] == old_out[a].hash);
                        }
                    }
                    if first {
                        assert(seen@[seen@.len() - 1]@ == tips@[t as int]@);
                    } else {
                        let j = choose|j: int| 0 <= j < old_seen.len() && #[trigger] old_seen[j]@ == tips@[t as int]@;
                        assert(seen@[j] == old_seen[j]);
                    }
                    assert forall|a: int| 0 <= a < out@.len() implies #[trigger] seen@[a] == out@[a].hash by {
                        if a < old_out.len() {
                            assert(seen@[a] == old_seen[a]);
                        }
                    }
                    reveal(node_ok);
                    assert forall|i: int|
                        0 <= i < out@.len() && (#[trigger] out@[i]).parent is Some implies in_hashes(
                            seen@,
                            out@[i].parent->Some_0@,
                        ) || (parent is Some && out@[i].parent->Some_0@ == parent->Some_0@) by {
                        if i < old_out.len() {
                            assert(out@[i] == old_out[i]);
                            let q = out@[i].parent->Some_0@;
                            if in_hashes(old_seen, q) {
                                let j = choose|j: int| 0 <= j < old_seen.len() && #[trigger] old_seen[j]@ == q;
                                assert(seen@[j] == old_seen[j]);
                            } else {
                                assert(seen@[old_seen.len() as int] == cur);
                            }
                        }
                    }
                    if parent is Some {
                        assert(v.main.contains_key(((h - 1) as u64, parent->Some_0@)));
                    }
                }
                proof {
                    first = false;
                }
                match parent {
                    Some(p) => {
                        cur = p;
                        h = h - 1;
                    },
                    None => break,
                }
            }
            proof {
                assert forall|a: int| 0 <= a < t + 1 implies in_hashes(seen@, #[trigger] tips@[a]@) by {
                    if a < t {
                        let j = choose|j: int| 0 <= j < seen_before.len() && #[trigger] seen_before[j]@ == tips@[a]@;
                        assert(seen@[j] == seen_before[j]);
                    }
                }
            }
            t += 1;
        }
        proof {
            assert forall|i: int|
                0 <= i < out@.len() && (#[trigger] out@[i]).parent is Some implies exists|j: int|
                    0 <= j < out@.len() && out@[j].hash@ == out@[i].parent->Some_0@ by {
                let j = choose|j: int| 0 <= j < seen@.len() && #[trigger] seen@[j]@ == out@[i].parent->Some_0@;
                assert(seen@[j] == out@[j].hash);
            }
            assert forall|x: Seq<u8>| #[trigger] v.tips.contains(x) implies exists|i: int|
                0 <= i < out@.len() && #[trigger] out@[i].hash@ == x by {
                assert(self.backend.contents().contains_key(key_of(TIP_HEIGHT, x)));
                let a = choose|a: int| 0 <= a < tips@.len() && #[trigger] tips@[a]@ == x;
                assert(in_hashes(seen@, tips@[a]@));
                let j = choose|j: int| 0 <= j < seen@.len() && #[trigger] seen@[j]@ == tips@[a]@;
                assert(out@[j].hash@ == x);
            }
        }
        out
    }
}

} // verus!

verus! {

/// An empty store holds a (empty) well-formed tree.
pub proof fn lemma_empty_contents_ok()
    ensures
        contents_ok(Map::<Seq<u8>, Seq<u8>>::empty()),
{
    let m = Map::<Seq<u8>, Seq<u8>>::empty();
    reveal(layout_ok);
    reveal(records_ok);
    reveal(index_ok);
    reveal(tips_ok);
    reveal(parents_ok);
    reveal(children_ok);
    assert(view_of(m).main =~= Map::empty());
    assert(view_of(m).index =~= Map::empty());
    assert(view_of(m).tips =~= Set::empty());
}

} // verus!

verus! {

/// `a` comes strictly before `b` in lexicographic order.
pub open spec fn lex_lt(a: Seq<u8>, b: Seq<u8>) -> bool {
    crate::bytes::lex_le(a, b) && a != b
}

/// Tip `j` drops tip `i`: `j`'s history records `i`, and the two are not a
/// pair recording each other in which `i` has the smaller hash.
pub open spec fn drops(tips: Seq<HashVal>, seen: Seq<Vec<bool>>, i: int, j: int) -> bool {
    j != i && seen[i]@[j] && !(seen[j]@[i] && lex_lt(tips[i]@, tips[j]@))
}

/// One of the first `i` tips has the hash `x` and is stale.
pub open spec fn dropped_before(views: Seq<Seq<u8>>, tips: Seq<HashVal>, seen: Seq<Vec<bool>>, i: int, x: Seq<u8>) -> bool {
    exists|a: int| 0 <= a < i && #[trigger] views[a] == x && stale(tips, seen, a)
}

/// Some other tip drops tip `i`.
pub open spec fn stale(tips: Seq<HashVal>, seen: Seq<Vec<bool>>, i: int) -> bool {
    exists|j: int| 0 <= j < tips.len() && #[trigger] drops(tips, seen, i, j)
}

impl<B: DbBackend, S> BlockTree<B, S> {
    /// The backend's entries have the tree's layout.
    pub closed spec fn layout_holds(&self) -> bool {
        layout_ok(self.backend.contents())
    }

    /// Opens a tree over a backend whose entries have the tree's layout,
    /// such as one left by a crash, with an empty cache.
    pub fn open(backend: B) -> (r: Self)
        requires
            layout_ok(backend.contents()),
        ensures
            r.layout_holds(),
            r.view() == view_of(backend.contents()),
            r.cached() == Map::<Seq<u8>, S>::empty(),
    {
        BlockTree { backend, cache: StateCache::new() }
    }

    /// Drops from the tips table each tip whose header another tip's
    /// history records at its height (`seen[i][j]`: tip `j`'s history holds
    /// tip `i`); of two tips that would drop each other, the smaller hash
    /// stays.
    pub fn initial_tip_cleanup(&mut self, tips: &Vec<HashVal>, seen: &Vec<Vec<bool>>)
        requires
            old(self).layout_holds(),
            hash_views(tips@).to_set() == old(self).view().tips,
            distinct_hashes(hash_views(tips@)),
            seen@.len() == tips@.len(),
            forall|i: int| 0 <= i < seen@.len() ==> (#[trigger] seen@[i])@.len() == tips@.len(),
        ensures
            final(self).layout_holds(),
            final(self).view().main == old(self).view().main,
            final(self).view().index == old(self).view().index,
            forall|i: int|
                0 <= i < tips@.len() ==> (final(self).view().tips.contains(#[trigger] tips@[i]@)
                    <==> !stale(tips@, seen@, i)),
            forall|x: Seq<u8>| #[trigger]
                final(self).view().tips.contains(x) ==> old(self).view().tips.contains(x),
            final(self).cached() == old(self).cached(),
    {
        let ghost v0 = self.view();
        let ghost views = hash_views(tips@);
        let n = tips.len();
        let mut i: usize = 0;
        while i < n
            invariant
                n == tips@.len(),
                0 <= i <= n,
                views == hash_views(tips@),
                distinct_hashes(views),
                views.to_set() == v0.tips,
                seen@.len() == tips@.len(),
                forall|a: int| 0 <= a < seen@.len() ==> (#[trigger] seen@[a])@.len() == tips@.len(),
                layout_ok(self.backend.contents()),
                self.view().main == v0.main,
                self.view().index == v0.index,
                self.cache == old(self).cache,
                forall|x: Seq<u8>|
                    #[trigger] self.view().tips.contains(x) <==> v0.tips.contains(x) && !dropped_before(views, tips@, seen@, i as int, x),
            decreases n - i,
        {
            let mut dropped = false;
            let mut j: usize = 0;
            while j < n
                invariant
                    n == tips@.len(),
                    0 <= i < n,
                    0 <= j <= n,
                    seen@.len() == tips@.len(),
                    forall|a: int| 0 <= a < seen@.len() ==> (#[trigger] seen@[a])@.len() == tips@.len(),
                    dropped <==> exists|b: int| 0 <= b < j && #[trigger] drops(tips@, seen@, i as int, b),
                decreases n - j,
            {
                proof {
                    assert(seen@[i as int]@.len() == n && seen@[j as int]@.len() == n);
                }
                let mut d = false;
                if j != i && seen[i][j] {
                    let smaller = crate::bytes::lex_le_bytes(&tips[i].0, &tips[j].0)
                        && !tips[i].same(&tips[j]);
                    proof {
                        assert(tips@[i as int]@ == tips@[i as int].0@);
                        crate::hash::lemma_hash_view_injective(tips@[i as int], tips@[j as int]);
                    }
                    d = !(seen[j][i] && smaller);
                }
                proof {
                    assert(d == drops(tips@, seen@, i as int, j as int));
                }
                let ghost old_dropped = dropped;
                if d {
                    dropped = true;
                }
                proof {
                    if d {
                        assert(drops(tips@, seen@, i as int, j as int));
                    }
                    if old_dropped {
                        let b = choose|b: int| 0 <= b < j && #[trigger] drops(tips@, seen@, i as int, b);
                        assert(drops(tips@, seen@, i as int, b));
                    }
                    if exists|b: int| 0 <= b < j + 1 && #[trigger] drops(tips@, seen@, i as int, b) {
                        let b = choose|b: int| 0 <= b < j + 1 && #[trigger] drops(tips@, seen@, i as int, b);
                        if b < j {
                            assert(old_dropped);
                        }
                    }
                }
                j += 1;
            }
            let ghost before = self.view();
            if dropped {
                let ghost m = self.backend.contents();
                let tk = tip_key(&tips[i]);
                self.backend.remove(tk.as_slice());
                proof {
                    lemma_remove_tip(m, tips@[i as int]@);
                }
            }
            proof {
                assert(views[i as int] == tips@[i as int]@);
                assert(dropped == stale(tips@, seen@, i as int));
                assert forall|x: Seq<u8>|
                    #[trigger] dropped_before(views, tips@, seen@, i + 1, x)
                    <==> (dropped_before(views, tips@, seen@, i as int, x)
                        || (views[i as int] == x && dropped)) by {
                    if dropped_before(views, tips@, seen@, i + 1, x) {
                        let a = choose|a: int| 0 <= a < i + 1 && #[trigger] views[a] == x && stale(tips@, seen@, a);
                        if a < i {
                            assert(views[a] == x && stale(tips@, seen@, a));
                        }
                    }
                    if dropped_before(views, tips@, seen@, i as int, x) {
                        let a = choose|a: int| 0 <= a < i && #[trigger] views[a] == x && stale(tips@, seen@, a);
                        assert(views[a] == x && stale(tips@, seen@, a));
                    }
                    if views[i as int] == x && dropped {
                        assert(views[i as int] == x && stale(tips@, seen@, i as int));
                    }
                }
                if dropped {
                    assert(self.view().tips == before.tips.remove(views[i as int]));
                } else {
                    assert(self.view() == before);
                }
                assert forall|x: Seq<u8>|
                    #[trigger] self.view().tips.contains(x) <==> v0.tips.contains(x) && !dropped_before(views, tips@, seen@, i + 1, x) by {
                    assert(before.tips.contains(x) <==> v0.tips.contains(x) && !dropped_before(views, tips@, seen@, i as int, x));
                    assert(dropped_before(views, tips@, seen@, i + 1, x) <==> (dropped_before(views, tips@, seen@, i as int, x)
                        || (views[i as int] == x && dropped)));
                }
            }
            i += 1;
        }
        proof {
            assert forall|i: int|
                0 <= i < tips@.len() implies (self.view().tips.contains(#[trigger] tips@[i]@)
                    <==> !stale(tips@, seen@, i)) by {
                assert(views[i] == tips@[i]@);
                assert(views.to_set().contains(views[i]));
                if !stale(tips@, seen@, i) {
                    assert forall|a: int| 0 <= a < tips@.len() && #[trigger] views[a] == tips@[i]@ implies !stale(tips@, seen@, a) by {
                        if a != i {
                            assert(views[a] != views[i]);
                        }
                    }
                }
            }
        }
    }
}

} // verus!
