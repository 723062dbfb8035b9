//! Block hashes.
use vstd::prelude::*;

verus! {

/// A 32-byte hash value.
#[derive(Clone, Copy, Debug, Hash)]
pub struct HashVal(pub [u8; 32]);

impl View for HashVal {
    type V = Seq<u8>;

    open spec fn view(&self) -> Seq<u8> {
        self.0@
    }
}

impl HashVal {
    /// The hash with every byte set to `b`.
    pub fn filled(b: u8) -> (r: HashVal)
        ensures
            r@ == Seq::new(32, |_i: int| b),
    {
        let r = HashVal([b; 32]);
        assert(r@ =~= Seq::new(32, |_i: int| b));
        r
    }

    /// Byte-wise equality.
    pub fn same(&self, other: &HashVal) -> (r: bool)
        ensures
            r == (self@ == other@),
            r == (*self == *other),
    {
        let mut i: usize = 0;
        while i < 32
            invariant
                0 <= i <= 32,
                forall|j: int| 0 <= j < i ==> self@[j] == other@[j],
            decreases 32 - i,
        {
            if self.0[i] != other.0[i] {
                return false;
            }
            i += 1;
        }
        assert(self@ =~= other@);
        proof {
            lemma_hash_view_injective(*self, *other);
        }
        true
    }
}

impl PartialEq for HashVal {
    fn eq(&self, other: &HashVal) -> (r: bool) {
        self.same(other)
    }
}

impl Eq for HashVal {
}

impl vstd::std_specs::cmp::PartialEqSpecImpl for HashVal {
    open spec fn obeys_eq_spec() -> bool {
        true
    }

    open spec fn eq_spec(&self, other: &HashVal) -> bool {
        *self == *other
    }
}

/// Two hashes with the same bytes are the same hash.
pub proof fn lemma_hash_view_injective(a: HashVal, b: HashVal)
    ensures
        a@ == b@ <==> a == b,
{
    if a@ == b@ {
        assert(a.0 =~= b.0);
    }
}

/// What `tmelcrypt::hash_single` returns for a byte string (the BLAKE3 digest).
pub uninterp spec fn blake3_of(data: Seq<u8>) -> Seq<u8>;

/// Relies on `tmelcrypt::hash_single`: the 32-byte BLAKE3 digest of the bytes,
/// a function of the bytes alone.
#[verifier::external_body]
pub(crate) fn hash_single(data: &[u8]) -> (r: HashVal)
    ensures
        r@ == blake3_of(data@),
{
    HashVal(tmelcrypt::hash_single(data).0)
}

} // verus!

verus! {

/// The hash whose bytes are `s` (`s` being 32 bytes long).
pub open spec fn hash_from(s: Seq<u8>) -> HashVal {
    choose|x: HashVal| x@ == s
}

pub proof fn lemma_hash_from_view(x: HashVal)
    ensures
        hash_from(x@) == x,
{
    let y = hash_from(x@);
    assert(y@ == x@);
    lemma_hash_view_injective(x, y);
}

/// Reads the hash in the 32 bytes at `pos`.
pub fn read_hash_at(s: &[u8], pos: usize) -> (r: HashVal)
    requires
        pos + 32 <= s@.len(),
    ensures
        r@ == s@.subrange(pos as int, pos + 32),
        r == hash_from(s@.subrange(pos as int, pos + 32)),
{
    let mut a = [0u8; 32];
    let mut i: usize = 0;
    assert(s@.len() == s.len());
    while i < 32
        invariant
            0 <= i <= 32,
            pos + 32 <= s@.len(),
            s@.len() <= usize::MAX,
            forall|j: int| 0 <= j < i ==> a@[j] == s@[pos + j],
        decreases 32 - i,
    {
        a[i] = s[pos + i];
        i += 1;
    }
    let r = HashVal(a);
    assert(r@ =~= s@.subrange(pos as int, pos + 32));
    proof {
        lemma_hash_from_view(r);
    }
    r
}

/// Appends the bytes of `h` to `out`.
pub fn push_hash(out: &mut Vec<u8>, h: &HashVal)
    ensures
        final(out)@ == old(out)@ + h@,
{
    let mut i: usize = 0;
    while i < 32
        invariant
            0 <= i <= 32,
            out@ == old(out)@ + h@.take(i as int),
        decreases 32 - i,
    {
        out.push(h.0[i]);
        i += 1;
        assert(out@ =~= old(out)@ + h@.take(i as int));
    }
    assert(h@.take(32) =~= h@);
}

} // verus!
