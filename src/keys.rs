//! The key layout: every key is a big-endian height followed by a block hash.
use vstd::prelude::*;
use crate::bytes::{be64, fill, lex_between, lemma_be64_injective, lemma_prefix_range, u64_to_be};
use crate::hash::HashVal;

verus! {

/// The synthetic height under which the tips table is kept.
pub const TIP_HEIGHT: u64 = 0xffff_ffff_ffff_fffe;

/// The synthetic height under which the hash-to-height index is kept.
pub const INDEX_HEIGHT: u64 = 0xffff_ffff_ffff_ffff;

/// The 40-byte key of `hash` under `height`.
pub open spec fn key_of(height: u64, hash: Seq<u8>) -> Seq<u8> {
    be64(height) + hash
}

/// Different (height, hash) pairs never share a key.
pub proof fn lemma_key_injective(h1: u64, x1: Seq<u8>, h2: u64, x2: Seq<u8>)
    requires
        x1.len() == 32,
        x2.len() == 32,
    ensures
        key_of(h1, x1) == key_of(h2, x2) <==> (h1 == h2 && x1 == x2),
{
    crate::bytes::lemma_be64_round_trip(h1);
    crate::bytes::lemma_be64_round_trip(h2);
    if key_of(h1, x1) == key_of(h2, x2) {
        assert(key_of(h1, x1).take(8) =~= be64(h1));
        assert(key_of(h2, x2).take(8) =~= be64(h2));
        assert(key_of(h1, x1).skip(8) =~= x1);
        assert(key_of(h2, x2).skip(8) =~= x2);
        lemma_be64_injective(h1, h2);
    }
}

/// A 40-byte key lies in the range scanned for `height` exactly when it was
/// written under that height.
pub proof fn lemma_key_in_height_range(height: u64, k: Seq<u8>)
    requires
        k.len() == 40,
    ensures
        lex_between(key_of(height, fill(0, 32)), k, key_of(height, fill(0xff, 32))) <==> k
            == key_of(height, k.skip(8)),
{
    crate::bytes::lemma_be64_round_trip(height);
    lemma_prefix_range(be64(height), 32, k);
    if k.take(8) == be64(height) {
        assert(k =~= key_of(height, k.skip(8)));
    }
    if k == key_of(height, k.skip(8)) {
        assert(k.take(8) =~= be64(height));
    }
}

/// The key of a block record in the main table.
pub fn main_key(hash: &HashVal, height: u64) -> (r: Vec<u8>)
    ensures
        r@ == key_of(height, hash@),
        r@.len() == 40,
{
    let mut r = u64_to_be(height);
    let mut i: usize = 0;
    while i < 32
        invariant
            0 <= i <= 32,
            r@ == be64(height) + hash@.take(i as int),
        decreases 32 - i,
    {
        r.push(hash.0[i]);
        i += 1;
        assert(r@ =~= be64(height) + hash@.take(i as int));
    }
    assert(hash@.take(32) =~= hash@);
    r
}

/// The key of a tips-table entry.
pub fn tip_key(hash: &HashVal) -> (r: Vec<u8>)
    ensures
        r@ == key_of(TIP_HEIGHT, hash@),
        r@.len() == 40,
{
    main_key(hash, TIP_HEIGHT)
}

/// The key of a hash-to-height index entry.
pub fn index_key(hash: &HashVal) -> (r: Vec<u8>)
    ensures
        r@ == key_of(INDEX_HEIGHT, hash@),
        r@.len() == 40,
{
    main_key(hash, INDEX_HEIGHT)
}

/// The block hash in the trailing 32 bytes of a key.
pub fn hash_of_key(k: &[u8]) -> (r: HashVal)
    requires
        k@.len() == 40,
    ensures
        r@ == k@.skip(8),
{
    let mut a = [0u8; 32];
    let mut i: usize = 0;
    while i < 32
        invariant
            0 <= i <= 32,
            k@.len() == 40,
            forall|j: int| 0 <= j < i ==> a@[j] == k@[j + 8],
        decreases 32 - i,
    {
        a[i] = k[i + 8];
        i += 1;
    }
    let r = HashVal(a);
    assert(r@ =~= k@.skip(8));
    r
}

} // verus!
