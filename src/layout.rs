//! How the three tables of the tree sit in one key-value map, and what
//! writing one entry does to each table.
use vstd::prelude::*;
use crate::bytes::{be64, from_be64, lemma_be64_round_trip};
use crate::keys::{key_of, lemma_key_injective, INDEX_HEIGHT, TIP_HEIGHT};
use crate::record::{parse_record, record_bytes, record_fits, lemma_record_round_trip, RecordView};

verus! {

/// The main table: the record of each block, by (height, hash).
pub open spec fn main_of(m: Map<Seq<u8>, Seq<u8>>) -> Map<(u64, Seq<u8>), RecordView> {
    Map::new(
        |k: (u64, Seq<u8>)| k.0 < TIP_HEIGHT && k.1.len() == 32 && m.contains_key(key_of(k.0, k.1)),
        |k: (u64, Seq<u8>)| parse_record(m[key_of(k.0, k.1)])->Some_0,
    )
}

/// The hash-to-height index.
pub open spec fn index_of(m: Map<Seq<u8>, Seq<u8>>) -> Map<Seq<u8>, u64> {
    Map::new(
        |x: Seq<u8>| x.len() == 32 && m.contains_key(key_of(INDEX_HEIGHT, x)),
        |x: Seq<u8>| from_be64(m[key_of(INDEX_HEIGHT, x)]),
    )
}

/// The tips table.
pub open spec fn tips_of(m: Map<Seq<u8>, Seq<u8>>) -> Set<Seq<u8>> {
    Set::new(|x: Seq<u8>| x.len() == 32 && m.contains_key(key_of(TIP_HEIGHT, x)))
}

/// Every key is 40 bytes, every record decodes and every index value is
/// eight bytes long.
#[verifier::opaque]
pub open spec fn layout_ok(m: Map<Seq<u8>, Seq<u8>>) -> bool {
    &&& forall|k: Seq<u8>| #[trigger] m.contains_key(k) ==> k.len() == 40
    &&& forall|h: u64, x: Seq<u8>|
        h < TIP_HEIGHT && x.len() == 32 && #[trigger] m.contains_key(key_of(h, x))
            ==> parse_record(m[key_of(h, x)]) is Some
    &&& forall|x: Seq<u8>|
        x.len() == 32 && #[trigger] m.contains_key(key_of(INDEX_HEIGHT, x)) ==> m[key_of(
            INDEX_HEIGHT,
            x,
        )].len() == 8
}

proof fn lemma_key_len(h: u64, x: Seq<u8>)
    requires
        x.len() == 32,
    ensures
        key_of(h, x).len() == 40,
{
    lemma_be64_round_trip(h);
}

/// Writing a record under a main key changes the main table only.
pub proof fn lemma_put_main(m: Map<Seq<u8>, Seq<u8>>, h: u64, x: Seq<u8>, r: RecordView)
    requires
        layout_ok(m),
        h < TIP_HEIGHT,
        x.len() == 32,
        record_fits(r),
    ensures
        layout_ok(m.insert(key_of(h, x), record_bytes(r))),
        main_of(m.insert(key_of(h, x), record_bytes(r))) == main_of(m).insert((h, x), r),
        index_of(m.insert(key_of(h, x), record_bytes(r))) == index_of(m),
        tips_of(m.insert(key_of(h, x), record_bytes(r))) == tips_of(m),
{
    reveal(layout_ok);
    let m2 = m.insert(key_of(h, x), record_bytes(r));
    lemma_key_len(h, x);
    lemma_record_round_trip(r);
    assert forall|h2: u64, x2: Seq<u8>| x2.len() == 32 implies (#[trigger] key_of(h2, x2) == key_of(h, x)
        <==> (h2 == h && x2 == x)) by {
        lemma_key_injective(h2, x2, h, x);
    }
    assert(main_of(m2) =~= main_of(m).insert((h, x), r));
    assert(index_of(m2) =~= index_of(m));
    assert(tips_of(m2) =~= tips_of(m));
}

/// Removing a main key changes the main table only.
pub proof fn lemma_remove_main(m: Map<Seq<u8>, Seq<u8>>, h: u64, x: Seq<u8>)
    requires
        layout_ok(m),
        h < TIP_HEIGHT,
        x.len() == 32,
    ensures
        layout_ok(m.remove(key_of(h, x))),
        main_of(m.remove(key_of(h, x))) == main_of(m).remove((h, x)),
        index_of(m.remove(key_of(h, x))) == index_of(m),
        tips_of(m.remove(key_of(h, x))) == tips_of(m),
{
    reveal(layout_ok);
    let m2 = m.remove(key_of(h, x));
    assert forall|h2: u64, x2: Seq<u8>| x2.len() == 32 implies (#[trigger] key_of(h2, x2) == key_of(h, x)
        <==> (h2 == h && x2 == x)) by {
        lemma_key_injective(h2, x2, h, x);
    }
    assert(main_of(m2) =~= main_of(m).remove((h, x)));
    assert(index_of(m2) =~= index_of(m));
    assert(tips_of(m2) =~= tips_of(m));
}

/// Writing an index entry changes the index only.
pub proof fn lemma_put_index(m: Map<Seq<u8>, Seq<u8>>, x: Seq<u8>, h: u64)
    requires
        layout_ok(m),
        x.len() == 32,
    ensures
        layout_ok(m.insert(key_of(INDEX_HEIGHT, x), be64(h))),
        main_of(m.insert(key_of(INDEX_HEIGHT, x), be64(h))) == main_of(m),
        index_of(m.insert(key_of(INDEX_HEIGHT, x), be64(h))) == index_of(m).insert(x, h),
        tips_of(m.insert(key_of(INDEX_HEIGHT, x), be64(h))) == tips_of(m),
{
    reveal(layout_ok);
    let m2 = m.insert(key_of(INDEX_HEIGHT, x), be64(h));
    lemma_key_len(INDEX_HEIGHT, x);
    lemma_be64_round_trip(h);
    assert forall|h2: u64, x2: Seq<u8>| x2.len() == 32 implies (#[trigger] key_of(h2, x2) == key_of(
        INDEX_HEIGHT,
        x,
    ) <==> (h2 == INDEX_HEIGHT && x2 == x)) by {
        lemma_key_injective(h2, x2, INDEX_HEIGHT, x);
    }
    assert(main_of(m2) =~= main_of(m));
    assert(index_of(m2) =~= index_of(m).insert(x, h));
    assert(tips_of(m2) =~= tips_of(m));
}

/// Removing an index entry changes the index only.
pub proof fn lemma_remove_index(m: Map<Seq<u8>, Seq<u8>>, x: Seq<u8>)
    requires
        layout_ok(m),
        x.len() == 32,
    ensures
        layout_ok(m.remove(key_of(INDEX_HEIGHT, x))),
        main_of(m.remove(key_of(INDEX_HEIGHT, x))) == main_of(m),
        index_of(m.remove(key_of(INDEX_HEIGHT, x))) == index_of(m).remove(x),
        tips_of(m.remove(key_of(INDEX_HEIGHT, x))) == tips_of(m),
{
    reveal(layout_ok);
    let m2 = m.remove(key_of(INDEX_HEIGHT, x));
    assert forall|h2: u64, x2: Seq<u8>| x2.len() == 32 implies (#[trigger] key_of(h2, x2) == key_of(
        INDEX_HEIGHT,
        x,
    ) <==> (h2 == INDEX_HEIGHT && x2 == x)) by {
        lemma_key_injective(h2, x2, INDEX_HEIGHT, x);
    }
    assert(main_of(m2) =~= main_of(m));
    assert(index_of(m2) =~= index_of(m).remove(x));
    assert(tips_of(m2) =~= tips_of(m));
}

/// Writing a tips entry changes the tips table only.
pub proof fn lemma_put_tip(m: Map<Seq<u8>, Seq<u8>>, x: Seq<u8>, v: Seq<u8>)
    requires
        layout_ok(m),
        x.len() == 32,
    ensures
        layout_ok(m.insert(key_of(TIP_HEIGHT, x), v)),
        main_of(m.insert(key_of(TIP_HEIGHT, x), v)) == main_of(m),
        index_of(m.insert(key_of(TIP_HEIGHT, x), v)) == index_of(m),
        tips_of(m.insert(key_of(TIP_HEIGHT, x), v)) == tips_of(m).insert(x),
{
    reveal(layout_ok);
    let m2 = m.insert(key_of(TIP_HEIGHT, x), v);
    lemma_key_len(TIP_HEIGHT, x);
    assert forall|h2: u64, x2: Seq<u8>| x2.len() == 32 implies (#[trigger] key_of(h2, x2) == key_of(
        TIP_HEIGHT,
        x,
    ) <==> (h2 == TIP_HEIGHT && x2 == x)) by {
        lemma_key_injective(h2, x2, TIP_HEIGHT, x);
    }
    assert(main_of(m2) =~= main_of(m));
    assert(index_of(m2) =~= index_of(m));
    assert(tips_of(m2) =~= tips_of(m).insert(x));
}

/// Removing a tips entry changes the tips table only.
pub proof fn lemma_remove_tip(m: Map<Seq<u8>, Seq<u8>>, x: Seq<u8>)
    requires
        layout_ok(m),
        x.len() == 32,
    ensures
        layout_ok(m.remove(key_of(TIP_HEIGHT, x))),
        main_of(m.remove(key_of(TIP_HEIGHT, x))) == main_of(m),
        index_of(m.remove(key_of(TIP_HEIGHT, x))) == index_of(m),
        tips_of(m.remove(key_of(TIP_HEIGHT, x))) == tips_of(m).remove(x),
{
    reveal(layout_ok);
    let m2 = m.remove(key_of(TIP_HEIGHT, x));
    assert forall|h2: u64, x2: Seq<u8>| x2.len() == 32 implies (#[trigger] key_of(h2, x2) == key_of(
        TIP_HEIGHT,
        x,
    ) <==> (h2 == TIP_HEIGHT && x2 == x)) by {
        lemma_key_injective(h2, x2, TIP_HEIGHT, x);
    }
    assert(main_of(m2) =~= main_of(m));
    assert(index_of(m2) =~= index_of(m));
    assert(tips_of(m2) =~= tips_of(m).remove(x));
}

} // verus!
