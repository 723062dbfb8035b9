//! The stored record of one block and its binary encoding.
use vstd::prelude::*;
use vstd::slice::{slice_subrange, slice_to_vec};
use crate::bytes::{be64, from_be64, lemma_be64_round_trip, push_slice, push_u64, u64_from_be_at};
use crate::hash::{hash_from, lemma_hash_from_view, push_hash, read_hash_at, HashVal};
use crate::header::{header_bytes, header_from, lemma_header_round_trip, Header, ProposerAction, HEADER_LEN};

verus! {

/// What is stored for one block: its header, the compact encoding of the state
/// it seals, the proposer's action, the hashes of its children, and opaque
/// metadata.
#[derive(Clone, Debug)]
pub struct Record {
    pub header: Header,
    pub partial_state: Vec<u8>,
    pub action: Option<ProposerAction>,
    pub next: Vec<HashVal>,
    pub metadata: Vec<u8>,
}

/// The mathematical value of a record.
pub struct RecordView {
    pub header: Header,
    pub partial_state: Seq<u8>,
    pub action: Option<ProposerAction>,
    pub next: Seq<HashVal>,
    pub metadata: Seq<u8>,
}

impl View for Record {
    type V = RecordView;

    open spec fn view(&self) -> RecordView {
        RecordView {
            header: self.header,
            partial_state: self.partial_state@,
            action: self.action,
            next: self.next@,
            metadata: self.metadata@,
        }
    }
}

/// A byte string preceded by its length.
pub open spec fn len_bytes(b: Seq<u8>) -> Seq<u8> {
    be64(b.len() as u64) + b
}

/// The bytes of the hashes, one after another.
pub open spec fn hash_concat(hs: Seq<HashVal>) -> Seq<u8>
    decreases hs.len(),
{
    if hs.len() == 0 {
        Seq::empty()
    } else {
        hash_concat(hs.drop_last()) + hs.last()@
    }
}

/// A list of hashes preceded by their number.
pub open spec fn hashes_bytes(hs: Seq<HashVal>) -> Seq<u8> {
    be64(hs.len() as u64) + hash_concat(hs)
}

/// An absent action is one zero byte; a present one is a one byte, the delta
/// and the reward address.
pub open spec fn action_bytes(a: Option<ProposerAction>) -> Seq<u8> {
    match a {
        None => seq![0u8],
        Some(a) => seq![1u8, a.fee_multiplier_delta as u8] + a.reward_dest@,
    }
}

/// The encoding of a record. This is the library's own layout: std's and
/// serde's derives cannot stand on verified types, so the layout is written
/// out here and proved to decode back; block hashes follow from it through
/// `header_bytes`.
pub open spec fn record_bytes(r: RecordView) -> Seq<u8> {
    header_bytes(r.header) + len_bytes(r.partial_state) + action_bytes(r.action) + hashes_bytes(
        r.next,
    ) + len_bytes(r.metadata)
}

/// A record's lengths fit the eight-byte length fields.
pub open spec fn record_fits(r: RecordView) -> bool {
    r.partial_state.len() <= u64::MAX && r.next.len() <= u64::MAX && r.metadata.len() <= u64::MAX
}

/// Reads a length-prefixed byte string off the front of `s`.
pub open spec fn parse_len_bytes(s: Seq<u8>) -> Option<(Seq<u8>, Seq<u8>)> {
    if s.len() >= 8 && from_be64(s.take(8)) <= s.len() - 8 {
        let n = from_be64(s.take(8)) as int;
        Some((s.subrange(8, 8 + n), s.skip(8 + n)))
    } else {
        None
    }
}

/// Reads a proposer action off the front of `s`.
pub open spec fn parse_action(s: Seq<u8>) -> Option<(Option<ProposerAction>, Seq<u8>)> {
    if s.len() >= 1 && s[0] == 0 {
        Some((None, s.skip(1)))
    } else if s.len() >= 34 && s[0] == 1 {
        Some(
            (
                Some(
                    ProposerAction {
                        fee_multiplier_delta: s[1] as i8,
                        reward_dest: hash_from(s.subrange(2, 34)),
                    },
                ),
                s.skip(34),
            ),
        )
    } else {
        None
    }
}

/// Reads a counted list of hashes off the front of `s`.
pub open spec fn parse_hashes(s: Seq<u8>) -> Option<(Seq<HashVal>, Seq<u8>)> {
    if s.len() >= 8 && 32 * from_be64(s.take(8)) <= s.len() - 8 {
        let n = from_be64(s.take(8)) as int;
        Some(
            (
                Seq::new(n as nat, |i: int| hash_from(s.subrange(8 + 32 * i, 8 + 32 * i + 32))),
                s.skip(8 + 32 * n),
            ),
        )
    } else {
        None
    }
}

/// The record that `s` encodes, if it encodes one and nothing more.
pub open spec fn parse_record(s: Seq<u8>) -> Option<RecordView> {
    if s.len() < HEADER_LEN {
        None
    } else {
        let header = header_from(s);
        match parse_len_bytes(s.skip(HEADER_LEN as int)) {
            None => None,
            Some((partial_state, r1)) => match parse_action(r1) {
                None => None,
                Some((action, r2)) => match parse_hashes(r2) {
                    None => None,
                    Some((next, r3)) => match parse_len_bytes(r3) {
                        None => None,
                        Some((metadata, r4)) => if r4.len() == 0 {
                            Some(RecordView { header, partial_state, action, next, metadata })
                        } else {
                            None
                        },
                    },
                },
            },
        }
    }
}

pub proof fn lemma_hash_concat_len(hs: Seq<HashVal>)
    ensures
        hash_concat(hs).len() == 32 * hs.len(),
    decreases hs.len(),
{
    if hs.len() > 0 {
        lemma_hash_concat_len(hs.drop_last());
    }
}

pub proof fn lemma_hash_concat_chunk(hs: Seq<HashVal>, i: int)
    requires
        0 <= i < hs.len(),
    ensures
        hash_concat(hs).subrange(32 * i, 32 * i + 32) == hs[i]@,
    decreases hs.len(),
{
    let init = hs.drop_last();
    lemma_hash_concat_len(init);
    if i == hs.len() - 1 {
        assert(hash_concat(hs).subrange(32 * i, 32 * i + 32) =~= hs[i]@);
    } else {
        lemma_hash_concat_chunk(init, i);
        assert(hash_concat(hs).subrange(32 * i, 32 * i + 32) =~= hash_concat(init).subrange(
            32 * i,
            32 * i + 32,
        ));
    }
}

proof fn lemma_len_bytes_round_trip(b: Seq<u8>, rest: Seq<u8>)
    requires
        b.len() <= u64::MAX,
    ensures
        parse_len_bytes(len_bytes(b) + rest) == Some((b, rest)),
{
    lemma_be64_round_trip(b.len() as u64);
    let s = len_bytes(b) + rest;
    assert(s.take(8) =~= be64(b.len() as u64));
    assert(s.subrange(8, 8 + b.len() as int) =~= b);
    assert(s.skip(8 + b.len() as int) =~= rest);
}

proof fn lemma_action_round_trip(a: Option<ProposerAction>, rest: Seq<u8>)
    ensures
        parse_action(action_bytes(a) + rest) == Some((a, rest)),
{
    let s = action_bytes(a) + rest;
    match a {
        None => {
            assert(s.skip(1) =~= rest);
        },
        Some(p) => {
            lemma_hash_from_view(p.reward_dest);
            assert(s.subrange(2, 34) =~= p.reward_dest@);
            assert(s.skip(34) =~= rest);
            let d = p.fee_multiplier_delta;
            assert(((d as u8) as i8) == d) by (bit_vector);
        },
    }
}

proof fn lemma_hashes_round_trip(hs: Seq<HashVal>, rest: Seq<u8>)
    requires
        hs.len() <= u64::MAX,
    ensures
        parse_hashes(hashes_bytes(hs) + rest) == Some((hs, rest)),
{
    lemma_be64_round_trip(hs.len() as u64);
    lemma_hash_concat_len(hs);
    let s = hashes_bytes(hs) + rest;
    let n = hs.len() as int;
    assert(s.take(8) =~= be64(hs.len() as u64));
    let parsed = Seq::new(n as nat, |i: int| hash_from(s.subrange(8 + 32 * i, 8 + 32 * i + 32)));
    assert forall|i: int| 0 <= i < n implies parsed[i] == hs[i] by {
        lemma_hash_concat_chunk(hs, i);
        assert(s.subrange(8 + 32 * i, 8 + 32 * i + 32) =~= hash_concat(hs).subrange(
            32 * i,
            32 * i + 32,
        ));
        lemma_hash_from_view(hs[i]);
    }
    assert(parsed =~= hs);
    assert(s.skip(8 + 32 * n) =~= rest);
}

/// Decoding the encoding of a record gives the record back.
#[verifier::rlimit(50)]
pub proof fn lemma_record_round_trip(r: RecordView)
    requires
        record_fits(r),
    ensures
        parse_record(record_bytes(r)) == Some(r),
{
    let s = record_bytes(r);
    let t4 = len_bytes(r.metadata);
    let t3 = hashes_bytes(r.next) + t4;
    let t2 = action_bytes(r.action) + t3;
    let t1 = len_bytes(r.partial_state) + t2;
    assert(s =~= header_bytes(r.header) + t1);
    lemma_header_round_trip(r.header, t1);
    assert(s.skip(HEADER_LEN as int) =~= t1);
    lemma_len_bytes_round_trip(r.partial_state, t2);
    lemma_action_round_trip(r.action, t3);
    lemma_hashes_round_trip(r.next, t4);
    assert(t4 =~= len_bytes(r.metadata) + Seq::<u8>::empty());
    lemma_len_bytes_round_trip(r.metadata, Seq::<u8>::empty());
    assert(parse_len_bytes(s.skip(HEADER_LEN as int)) == Some((r.partial_state, t2)));
    assert(parse_action(t2) == Some((r.action, t3)));
    assert(parse_hashes(t3) == Some((r.next, t4)));
    assert(parse_len_bytes(t4) == Some((r.metadata, Seq::<u8>::empty())));
}

} // verus!

verus! {

/// Appends a length-prefixed byte string to `out`.
fn push_len_bytes(out: &mut Vec<u8>, b: &[u8])
    ensures
        final(out)@ == old(out)@ + len_bytes(b@),
{
    push_u64(out, b.len() as u64);
    push_slice(out, b);
    assert(out@ =~= old(out)@ + len_bytes(b@));
}

/// Appends a counted list of hashes to `out`.
fn push_hashes(out: &mut Vec<u8>, hs: &Vec<HashVal>)
    ensures
        final(out)@ == old(out)@ + hashes_bytes(hs@),
{
    push_u64(out, hs.len() as u64);
    let ghost start = out@;
    let mut i: usize = 0;
    assert(hash_concat(hs@.take(0)) =~= Seq::<u8>::empty());
    assert(out@ =~= start + hash_concat(hs@.take(0)));
    while i < hs.len()
        invariant
            0 <= i <= hs@.len(),
            out@ == start + hash_concat(hs@.take(i as int)),
        decreases hs@.len() - i,
    {
        push_hash(out, &hs[i]);
        i += 1;
        assert(hs@.take(i as int).drop_last() =~= hs@.take(i - 1));
        assert(out@ =~= start + hash_concat(hs@.take(i as int)));
    }
    assert(hs@.take(hs@.len() as int) =~= hs@);
    assert(out@ =~= old(out)@ + hashes_bytes(hs@));
}

/// Copies `b[pos..pos + n]`.
fn copy_range(b: &[u8], pos: usize, n: usize) -> (r: Vec<u8>)
    requires
        pos + n <= b@.len(),
    ensures
        r@ == b@.subrange(pos as int, pos + n),
{
    assert(b@.len() == b.len());
    slice_to_vec(slice_subrange(b, pos, pos + n))
}

impl Record {
    /// The lengths of a record held in memory fit its eight-byte length
    /// fields, as a vector never holds more than `usize::MAX` items.
    pub fn lengths_fit(&self)
        ensures
            record_fits(self@),
    {
        let partial = self.partial_state.len();
        let children = self.next.len();
        let metadata = self.metadata.len();
        assert(partial as int <= u64::MAX && children as int <= u64::MAX && metadata as int <= u64::MAX);
    }

    /// A field-for-field copy.
    pub fn duplicate(&self) -> (r: Record)
        ensures
            r@ == self@,
    {
        Record {
            header: self.header,
            partial_state: slice_to_vec(self.partial_state.as_slice()),
            action: self.action,
            next: slice_to_vec(self.next.as_slice()),
            metadata: slice_to_vec(self.metadata.as_slice()),
        }
    }

    /// The encoding of the record.
    pub fn encode(&self) -> (r: Vec<u8>)
        ensures
            r@ == record_bytes(self@),
    {
        let mut out = self.header.to_bytes();
        push_len_bytes(&mut out, self.partial_state.as_slice());
        match self.action {
            None => {
                out.push(0u8);
            },
            Some(a) => {
                out.push(1u8);
                out.push(a.fee_multiplier_delta as u8);
                push_hash(&mut out, &a.reward_dest);
            },
        }
        push_hashes(&mut out, &self.next);
        push_len_bytes(&mut out, self.metadata.as_slice());
        assert(out@ =~= record_bytes(self@));
        out
    }

    /// The record that `s` encodes, if it encodes one.
    pub fn decode(s: &[u8]) -> (r: Option<Record>)
        ensures
            match r {
                Some(v) => parse_record(s@) == Some(v@),
                None => parse_record(s@) is None,
            },
    {
        let len = s.len();
        if len < HEADER_LEN {
            return None;
        }
        let header = Header::decode_at(s, 0);
        proof {
            // the header reads only its own bytes
            let t = s@.subrange(0, HEADER_LEN as int);
            assert(t.subrange(1, 33) =~= s@.subrange(1, 33));
            assert(t.subrange(33, 41) =~= s@.subrange(33, 41));
            assert(t.subrange(41, 73) =~= s@.subrange(41, 73));
            assert(t.subrange(73, 105) =~= s@.subrange(73, 105));
            assert(t.subrange(105, 137) =~= s@.subrange(105, 137));
            assert(t.subrange(137, 153) =~= s@.subrange(137, 153));
            assert(t.subrange(153, 169) =~= s@.subrange(153, 169));
            assert(t.subrange(169, 185) =~= s@.subrange(169, 185));
            assert(t.subrange(185, 217) =~= s@.subrange(185, 217));
            assert(t.subrange(217, 249) =~= s@.subrange(217, 249));
            assert(header == header_from(s@));
        }
        let (partial_state, at_action) = match read_len_bytes(s, HEADER_LEN) {
            None => return None,
            Some(x) => x,
        };
        let (action, at_children) = match read_action(s, at_action) {
            None => return None,
            Some(x) => x,
        };
        let (next, at_metadata) = match read_hashes(s, at_children) {
            None => return None,
            Some(x) => x,
        };
        let (metadata, at_end) = match read_len_bytes(s, at_metadata) {
            None => return None,
            Some(x) => x,
        };
        if at_end != len {
            return None;
        }
        Some(Record { header, partial_state, action, next, metadata })
    }
}

/// Reads a length-prefixed byte string at `pos`; returns it and the position after it.
fn read_len_bytes(s: &[u8], pos: usize) -> (r: Option<(Vec<u8>, usize)>)
    requires
        pos <= s@.len(),
    ensures
        match r {
            Some((v, p)) => pos <= p <= s@.len() && parse_len_bytes(s@.skip(pos as int)) == Some(
                (v@, s@.skip(p as int)),
            ),
            None => parse_len_bytes(s@.skip(pos as int)) is None,
        },
{
    let len = s.len();
    let ghost t = s@.skip(pos as int);
    if len - pos < 8 {
        return None;
    }
    let n = u64_from_be_at(s, pos);
    assert(t.take(8) =~= s@.subrange(pos as int, pos + 8));
    if n > (len - pos - 8) as u64 {
        return None;
    }
    let v = copy_range(s, pos + 8, n as usize);
    assert(v@ =~= t.subrange(8, 8 + n));
    let p = pos + 8 + n as usize;
    assert(s@.skip(p as int) =~= t.skip(8 + n));
    Some((v, p))
}

/// Reads a proposer action at `pos`; returns it and the position after it.
fn read_action(s: &[u8], pos: usize) -> (r: Option<(Option<ProposerAction>, usize)>)
    requires
        pos <= s@.len(),
    ensures
        match r {
            Some((a, p)) => pos <= p <= s@.len() && parse_action(s@.skip(pos as int)) == Some(
                (a, s@.skip(p as int)),
            ),
            None => parse_action(s@.skip(pos as int)) is None,
        },
{
    let len = s.len();
    let ghost t = s@.skip(pos as int);
    if len - pos < 1 {
        return None;
    }
    let tag = s[pos];
    if tag == 0 {
        assert(s@.skip(pos + 1) =~= t.skip(1));
        Some((None, pos + 1))
    } else if tag == 1 && len - pos >= 34 {
        let d = s[pos + 1];
        let dest = read_hash_at(s, pos + 2);
        assert(t.subrange(2, 34) =~= s@.subrange(pos + 2, pos + 34));
        assert(s@.skip(pos + 34) =~= t.skip(34));
        Some((Some(ProposerAction { fee_multiplier_delta: d as i8, reward_dest: dest }), pos + 34))
    } else {
        None
    }
}

/// Reads a counted list of hashes at `pos`; returns it and the position after it.
fn read_hashes(s: &[u8], pos: usize) -> (r: Option<(Vec<HashVal>, usize)>)
    requires
        pos <= s@.len(),
    ensures
        match r {
            Some((v, p)) => pos <= p <= s@.len() && parse_hashes(s@.skip(pos as int)) == Some(
                (v@, s@.skip(p as int)),
            ),
            None => parse_hashes(s@.skip(pos as int)) is None,
        },
{
    let len = s.len();
    let ghost t = s@.skip(pos as int);
    if len - pos < 8 {
        return None;
    }
    let count = u64_from_be_at(s, pos);
    assert(t.take(8) =~= s@.subrange(pos as int, pos + 8));
    if count > ((len - pos - 8) / 32) as u64 {
        return None;
    }
    let count = count as usize;
    let mut next: Vec<HashVal> = Vec::new();
    let mut i: usize = 0;
    let base = pos + 8;
    while i < count
        invariant
            0 <= i <= count,
            base + 32 * count <= s@.len(),
            s@.len() == len,
            base == pos + 8,
            t == s@.skip(pos as int),
            next@ =~= Seq::new(
                i as nat,
                |j: int| hash_from(t.subrange(8 + 32 * j, 8 + 32 * j + 32)),
            ),
        decreases count - i,
    {
        let h = read_hash_at(s, base + 32 * i);
        assert(t.subrange(8 + 32 * i, 8 + 32 * i + 32) =~= s@.subrange(
            base + 32 * i,
            base + 32 * i + 32,
        ));
        next.push(h);
        i += 1;
    }
    let p = base + 32 * count;
    assert(s@.skip(p as int) =~= t.skip(8 + 32 * count));
    Some((next, p))
}

} // verus!
