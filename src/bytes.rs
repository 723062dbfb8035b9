//! Fixed-width big-endian integers and lexicographic order on byte strings.
use vstd::prelude::*;

verus! {

/// The eight big-endian bytes of `v`.
pub open spec fn be64(v: u64) -> Seq<u8> {
    seq![
        (v >> 56u64) as u8,
        (v >> 48u64) as u8,
        (v >> 40u64) as u8,
        (v >> 32u64) as u8,
        (v >> 24u64) as u8,
        (v >> 16u64) as u8,
        (v >> 8u64) as u8,
        v as u8,
    ]
}

/// The integer whose big-endian bytes are the first eight of `s`.
pub open spec fn from_be64(s: Seq<u8>) -> u64 {
    (s[0] as u64) << 56u64 | (s[1] as u64) << 48u64 | (s[2] as u64) << 40u64 | (s[3] as u64)
        << 32u64 | (s[4] as u64) << 24u64 | (s[5] as u64) << 16u64 | (s[6] as u64) << 8u64 | (
    s[7] as u64)
}

pub proof fn lemma_be64_round_trip(v: u64)
    ensures
        be64(v).len() == 8,
        from_be64(be64(v)) == v,
{
    let s = be64(v);
    let (b0, b1, b2, b3, b4, b5, b6, b7) = (s[0], s[1], s[2], s[3], s[4], s[5], s[6], s[7]);
    assert(b0 == (v >> 56u64) as u8 && b1 == (v >> 48u64) as u8 && b2 == (v >> 40u64) as u8 && b3
        == (v >> 32u64) as u8 && b4 == (v >> 24u64) as u8 && b5 == (v >> 16u64) as u8 && b6 == (v
        >> 8u64) as u8 && b7 == v as u8);
    assert(b0 == (v >> 56u64) as u8 && b1 == (v >> 48u64) as u8 && b2 == (v >> 40u64) as u8 && b3
        == (v >> 32u64) as u8 && b4 == (v >> 24u64) as u8 && b5 == (v >> 16u64) as u8 && b6 == (v
        >> 8u64) as u8 && b7 == v as u8 ==> (b0 as u64) << 56u64 | (b1 as u64) << 48u64 | (
    b2 as u64) << 40u64 | (b3 as u64) << 32u64 | (b4 as u64) << 24u64 | (b5 as u64) << 16u64 | (
    b6 as u64) << 8u64 | (b7 as u64) == v) by (bit_vector);
}

/// Equal big-endian encodings come from equal integers.
pub proof fn lemma_be64_injective(a: u64, b: u64)
    ensures
        be64(a) == be64(b) <==> a == b,
{
    if be64(a) == be64(b) {
        lemma_be64_round_trip(a);
        lemma_be64_round_trip(b);
    }
}

/// Writes the big-endian bytes of `v`.
pub fn u64_to_be(v: u64) -> (r: Vec<u8>)
    ensures
        r@ == be64(v),
{
    let r = vec![
        (v >> 56u64) as u8,
        (v >> 48u64) as u8,
        (v >> 40u64) as u8,
        (v >> 32u64) as u8,
        (v >> 24u64) as u8,
        (v >> 16u64) as u8,
        (v >> 8u64) as u8,
        v as u8,
    ];
    assert(r@ =~= be64(v));
    r
}

/// Reads a big-endian integer from the eight bytes at `pos`.
pub fn u64_from_be_at(s: &[u8], pos: usize) -> (r: u64)
    requires
        pos + 8 <= s@.len(),
    ensures
        r == from_be64(s@.subrange(pos as int, pos + 8)),
{
    (s[pos] as u64) << 56u64 | (s[pos + 1] as u64) << 48u64 | (s[pos + 2] as u64) << 40u64 | (s[pos
        + 3] as u64) << 32u64 | (s[pos + 4] as u64) << 24u64 | (s[pos + 5] as u64) << 16u64 | (s[pos
        + 6] as u64) << 8u64 | (s[pos + 7] as u64)
}

} // verus!

verus! {

/// Lexicographic order on byte strings, a proper prefix coming first.
pub open spec fn lex_le(a: Seq<u8>, b: Seq<u8>) -> bool
    decreases a.len(),
{
    if a.len() == 0 {
        true
    } else if b.len() == 0 {
        false
    } else if a[0] < b[0] {
        true
    } else if a[0] > b[0] {
        false
    } else {
        lex_le(a.drop_first(), b.drop_first())
    }
}

/// `lo <= k <= hi` in lexicographic order.
pub open spec fn lex_between(lo: Seq<u8>, k: Seq<u8>, hi: Seq<u8>) -> bool {
    lex_le(lo, k) && lex_le(k, hi)
}

/// `n` copies of the byte `b`.
pub open spec fn fill(b: u8, n: nat) -> Seq<u8> {
    Seq::new(n, |_i: int| b)
}

proof fn lemma_lex_skip_step(a: Seq<u8>, b: Seq<u8>, i: int)
    requires
        0 <= i < a.len(),
        i < b.len(),
        a[i] == b[i],
    ensures
        lex_le(a.skip(i), b.skip(i)) == lex_le(a.skip(i + 1), b.skip(i + 1)),
{
    assert(a.skip(i).drop_first() =~= a.skip(i + 1));
    assert(b.skip(i).drop_first() =~= b.skip(i + 1));
}

/// Compares two byte strings in lexicographic order.
pub fn lex_le_bytes(a: &[u8], b: &[u8]) -> (r: bool)
    ensures
        r == lex_le(a@, b@),
{
    let mut i: usize = 0;
    assert(a@.skip(0) =~= a@ && b@.skip(0) =~= b@);
    while i < a.len()
        invariant
            0 <= i <= a@.len(),
            i <= b@.len(),
            lex_le(a@, b@) == lex_le(a@.skip(i as int), b@.skip(i as int)),
        decreases a@.len() - i,
    {
        if i >= b.len() {
            return false;
        }
        if a[i] < b[i] {
            return true;
        }
        if a[i] > b[i] {
            return false;
        }
        proof {
            lemma_lex_skip_step(a@, b@, i as int);
        }
        i += 1;
    }
    true
}

proof fn lemma_fill_low(k: Seq<u8>)
    ensures
        lex_le(fill(0, k.len()), k),
        lex_le(k, fill(0xff, k.len())),
    decreases k.len(),
{
    if k.len() > 0 {
        let n = (k.len() - 1) as nat;
        assert(fill(0, k.len()).drop_first() =~= fill(0, n));
        assert(fill(0xff, k.len()).drop_first() =~= fill(0xff, n));
        lemma_fill_low(k.drop_first());
    }
}

/// With `k` as long as `p` followed by `m` bytes: `k` lies between `p` padded with
/// zeros and `p` padded with `0xff` exactly when `k` starts with `p`.
pub proof fn lemma_prefix_range(p: Seq<u8>, m: nat, k: Seq<u8>)
    requires
        k.len() == p.len() + m,
    ensures
        lex_between(p + fill(0, m), k, p + fill(0xff, m)) <==> k.take(p.len() as int) == p,
    decreases p.len(),
{
    if p.len() == 0 {
        assert(p + fill(0, m) =~= fill(0, k.len()));
        assert(p + fill(0xff, m) =~= fill(0xff, k.len()));
        assert(k.take(0) =~= p);
        lemma_fill_low(k);
    } else {
        let p_rest = p.drop_first();
        let k_rest = k.drop_first();
        assert((p + fill(0, m)).drop_first() =~= p_rest + fill(0, m));
        assert((p + fill(0xff, m)).drop_first() =~= p_rest + fill(0xff, m));
        lemma_prefix_range(p_rest, m, k_rest);
        if k.take(p.len() as int) == p {
            assert(k_rest.take(p_rest.len() as int) =~= k.take(p.len() as int).drop_first());
        }
        if k[0] == p[0] && k_rest.take(p_rest.len() as int) == p_rest {
            assert forall|i: int| 0 <= i < p.len() implies k.take(p.len() as int)[i] == p[i] by {
                if i > 0 {
                    assert(k_rest.take(p_rest.len() as int)[i - 1] == p_rest[i - 1]);
                }
            }
            assert(k.take(p.len() as int) =~= p);
        }
    }
}

} // verus!

verus! {

/// The sixteen big-endian bytes of `v`.
pub open spec fn be128(v: u128) -> Seq<u8> {
    be64((v >> 64u128) as u64) + be64(v as u64)
}

/// The integer whose big-endian bytes are the first sixteen of `s`.
pub open spec fn from_be128(s: Seq<u8>) -> u128 {
    (from_be64(s.take(8)) as u128) << 64u128 | (from_be64(s.subrange(8, 16)) as u128)
}

pub proof fn lemma_be128_round_trip(v: u128)
    ensures
        be128(v).len() == 16,
        from_be128(be128(v)) == v,
{
    let hi = (v >> 64u128) as u64;
    let lo = v as u64;
    lemma_be64_round_trip(hi);
    lemma_be64_round_trip(lo);
    assert(be128(v).take(8) =~= be64(hi));
    assert(be128(v).subrange(8, 16) =~= be64(lo));
    assert(((v >> 64u128) as u64 as u128) << 64u128 | (v as u64 as u128) == v) by (bit_vector);
}

/// Appends `b` to `out`.
pub fn push_slice(out: &mut Vec<u8>, b: &[u8])
    ensures
        final(out)@ == old(out)@ + b@,
{
    let mut i: usize = 0;
    while i < b.len()
        invariant
            0 <= i <= b@.len(),
            out@ == old(out)@ + b@.take(i as int),
        decreases b@.len() - i,
    {
        out.push(b[i]);
        i += 1;
        assert(out@ =~= old(out)@ + b@.take(i as int));
    }
    assert(b@.take(b@.len() as int) =~= b@);
}

/// Appends the big-endian bytes of `v` to `out`.
pub fn push_u64(out: &mut Vec<u8>, v: u64)
    ensures
        final(out)@ == old(out)@ + be64(v),
{
    let b = u64_to_be(v);
    push_slice(out, b.as_slice());
}

/// Appends the big-endian bytes of `v` to `out`.
pub fn push_u128(out: &mut Vec<u8>, v: u128)
    ensures
        final(out)@ == old(out)@ + be128(v),
{
    push_u64(out, (v >> 64u128) as u64);
    push_u64(out, v as u64);
    assert(out@ =~= old(out)@ + be128(v));
}

/// Reads a big-endian integer from the sixteen bytes at `pos`.
pub fn u128_from_be_at(s: &[u8], pos: usize) -> (r: u128)
    requires
        pos + 16 <= s@.len(),
    ensures
        r == from_be128(s@.subrange(pos as int, pos + 16)),
{
    let hi = u64_from_be_at(s, pos);
    assert(s@.len() == s.len());
    let lo = u64_from_be_at(s, pos + 8);
    proof {
        let t = s@.subrange(pos as int, pos + 16);
        assert(t.take(8) =~= s@.subrange(pos as int, pos + 8));
        assert(t.subrange(8, 16) =~= s@.subrange(pos + 8, pos + 16));
    }
    (hi as u128) << 64u128 | (lo as u128)
}

} // verus!
