//! Block headers and their fixed-width encoding.
use vstd::prelude::*;
use crate::bytes::{
    be128, be64, from_be128, from_be64, lemma_be128_round_trip, lemma_be64_round_trip, push_u128,
    push_u64, u128_from_be_at, u64_from_be_at,
};
use crate::hash::{
    blake3_of, hash_from, hash_single, lemma_hash_from_view, push_hash, read_hash_at, HashVal,
};

verus! {

/// The length of an encoded header.
pub const HEADER_LEN: usize = 249;

/// A block header: the height, the hash of the previous block and the
/// commitments of the state that the block seals.
#[derive(Clone, Copy, Debug)]
pub struct Header {
    pub network: u8,
    pub previous: HashVal,
    pub height: u64,
    pub history_hash: HashVal,
    pub coins_hash: HashVal,
    pub transactions_hash: HashVal,
    pub fee_pool: u128,
    pub fee_multiplier: u128,
    pub dosc_speed: u128,
    pub pools_hash: HashVal,
    pub stakes_hash: HashVal,
}

/// The economic action a staker attaches to the block it proposes.
#[derive(Clone, Copy, Debug)]
pub struct ProposerAction {
    pub fee_multiplier_delta: i8,
    pub reward_dest: HashVal,
}

/// The encoding of a header: its fields in order, integers big-endian. This
/// is the library's own fixed-width layout, written out in verified code
/// rather than produced by a serialization derive, so the block hashes it
/// gives are those of this layout.
pub open spec fn header_bytes(h: Header) -> Seq<u8> {
    seq![h.network] + h.previous@ + be64(h.height) + h.history_hash@ + h.coins_hash@
        + h.transactions_hash@ + be128(h.fee_pool) + be128(h.fee_multiplier) + be128(h.dosc_speed)
        + h.pools_hash@ + h.stakes_hash@
}

/// The header encoded in the first `HEADER_LEN` bytes of `s`.
pub open spec fn header_from(s: Seq<u8>) -> Header {
    Header {
        network: s[0],
        previous: hash_from(s.subrange(1, 33)),
        height: from_be64(s.subrange(33, 41)),
        history_hash: hash_from(s.subrange(41, 73)),
        coins_hash: hash_from(s.subrange(73, 105)),
        transactions_hash: hash_from(s.subrange(105, 137)),
        fee_pool: from_be128(s.subrange(137, 153)),
        fee_multiplier: from_be128(s.subrange(153, 169)),
        dosc_speed: from_be128(s.subrange(169, 185)),
        pools_hash: hash_from(s.subrange(185, 217)),
        stakes_hash: hash_from(s.subrange(217, 249)),
    }
}

/// The hash of a block: the digest of its encoded header.
pub open spec fn header_hash(h: Header) -> Seq<u8> {
    blake3_of(header_bytes(h))
}

pub proof fn lemma_header_round_trip(h: Header, rest: Seq<u8>)
    ensures
        header_bytes(h).len() == HEADER_LEN,
        header_from(header_bytes(h) + rest) == h,
{
    lemma_be64_round_trip(h.height);
    lemma_be128_round_trip(h.fee_pool);
    lemma_be128_round_trip(h.fee_multiplier);
    lemma_be128_round_trip(h.dosc_speed);
    lemma_hash_from_view(h.previous);
    lemma_hash_from_view(h.history_hash);
    lemma_hash_from_view(h.coins_hash);
    lemma_hash_from_view(h.transactions_hash);
    lemma_hash_from_view(h.pools_hash);
    lemma_hash_from_view(h.stakes_hash);
    let s = header_bytes(h) + rest;
    assert(s.subrange(1, 33) =~= h.previous@);
    assert(s.subrange(33, 41) =~= be64(h.height));
    assert(s.subrange(41, 73) =~= h.history_hash@);
    assert(s.subrange(73, 105) =~= h.coins_hash@);
    assert(s.subrange(105, 137) =~= h.transactions_hash@);
    assert(s.subrange(137, 153) =~= be128(h.fee_pool));
    assert(s.subrange(153, 169) =~= be128(h.fee_multiplier));
    assert(s.subrange(169, 185) =~= be128(h.dosc_speed));
    assert(s.subrange(185, 217) =~= h.pools_hash@);
    assert(s.subrange(217, 249) =~= h.stakes_hash@);
}

impl Header {
    /// Appends the encoding of the header to `out`.
    pub fn encode_into(&self, out: &mut Vec<u8>)
        ensures
            final(out)@ == old(out)@ + header_bytes(*self),
    {
        out.push(self.network);
        push_hash(out, &self.previous);
        push_u64(out, self.height);
        push_hash(out, &self.history_hash);
        push_hash(out, &self.coins_hash);
        push_hash(out, &self.transactions_hash);
        push_u128(out, self.fee_pool);
        push_u128(out, self.fee_multiplier);
        push_u128(out, self.dosc_speed);
        push_hash(out, &self.pools_hash);
        push_hash(out, &self.stakes_hash);
        assert(out@ =~= old(out)@ + header_bytes(*self));
    }

    /// The encoding of the header.
    pub fn to_bytes(&self) -> (r: Vec<u8>)
        ensures
            r@ == header_bytes(*self),
    {
        let mut out: Vec<u8> = Vec::new();
        self.encode_into(&mut out);
        assert(out@ =~= header_bytes(*self));
        out
    }

    /// Reads the header encoded at `pos`.
    pub fn decode_at(s: &[u8], pos: usize) -> (r: Header)
        requires
            pos + HEADER_LEN <= s@.len(),
        ensures
            r == header_from(s@.subrange(pos as int, pos + HEADER_LEN)),
    {
        assert(s@.len() == s.len());
        let t = Ghost(s@.subrange(pos as int, pos + HEADER_LEN));
        assert(t@.subrange(1, 33) =~= s@.subrange(pos + 1, pos + 33));
        assert(t@.subrange(33, 41) =~= s@.subrange(pos + 33, pos + 41));
        assert(t@.subrange(41, 73) =~= s@.subrange(pos + 41, pos + 73));
        assert(t@.subrange(73, 105) =~= s@.subrange(pos + 73, pos + 105));
        assert(t@.subrange(105, 137) =~= s@.subrange(pos + 105, pos + 137));
        assert(t@.subrange(137, 153) =~= s@.subrange(pos + 137, pos + 153));
        assert(t@.subrange(153, 169) =~= s@.subrange(pos + 153, pos + 169));
        assert(t@.subrange(169, 185) =~= s@.subrange(pos + 169, pos + 185));
        assert(t@.subrange(185, 217) =~= s@.subrange(pos + 185, pos + 217));
        assert(t@.subrange(217, 249) =~= s@.subrange(pos + 217, pos + 249));
        Header {
            network: s[pos],
            previous: read_hash_at(s, pos + 1),
            height: u64_from_be_at(s, pos + 33),
            history_hash: read_hash_at(s, pos + 41),
            coins_hash: read_hash_at(s, pos + 73),
            transactions_hash: read_hash_at(s, pos + 105),
            fee_pool: u128_from_be_at(s, pos + 137),
            fee_multiplier: u128_from_be_at(s, pos + 153),
            dosc_speed: u128_from_be_at(s, pos + 169),
            pools_hash: read_hash_at(s, pos + 185),
            stakes_hash: read_hash_at(s, pos + 217),
        }
    }

    /// The hash of the block this header belongs to.
    pub fn hash(&self) -> (r: HashVal)
        ensures
            r@ == header_hash(*self),
    {
        let b = self.to_bytes();
        hash_single(b.as_slice())
    }

    /// Field-wise equality.
    pub fn same(&self, o: &Header) -> (r: bool)
        ensures
            r == (*self == *o),
    {
        self.network == o.network && self.previous.same(&o.previous) && self.height == o.height
            && self.history_hash.same(&o.history_hash) && self.coins_hash.same(&o.coins_hash)
            && self.transactions_hash.same(&o.transactions_hash) && self.fee_pool == o.fee_pool
            && self.fee_multiplier == o.fee_multiplier && self.dosc_speed == o.dosc_speed
            && self.pools_hash.same(&o.pools_hash) && self.stakes_hash.same(&o.stakes_hash)
    }
}

impl PartialEq for Header {
    fn eq(&self, o: &Header) -> (r: bool) {
        self.same(o)
    }
}

impl Eq for Header {
}

impl vstd::std_specs::cmp::PartialEqSpecImpl for Header {
    open spec fn obeys_eq_spec() -> bool {
        true
    }

    open spec fn eq_spec(&self, o: &Header) -> bool {
        *self == *o
    }
}

} // verus!
