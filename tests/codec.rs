use blkdb::backend::{DbBackend, InMemoryBackend};
use blkdb::bytes::{lex_le_bytes, u64_from_be_at, u64_to_be};
use blkdb::hash::HashVal;
use blkdb::header::{Header, ProposerAction, HEADER_LEN};
use blkdb::keys::{hash_of_key, index_key, main_key, tip_key};
use blkdb::record::Record;

fn sample_header() -> Header {
    Header {
        network: 0xff,
        previous: HashVal([1; 32]),
        height: 0x0102_0304_0506_0708,
        history_hash: HashVal([2; 32]),
        coins_hash: HashVal([3; 32]),
        transactions_hash: HashVal([4; 32]),
        fee_pool: 1 << 100,
        fee_multiplier: 7,
        dosc_speed: u128::MAX,
        pools_hash: HashVal([5; 32]),
        stakes_hash: HashVal([6; 32]),
    }
}

#[test]
fn key_layout_is_big_endian_height_then_hash() {
    let h = HashVal([0xab; 32]);
    let k = main_key(&h, 258);
    assert_eq!(k.len(), 40);
    assert_eq!(&k[..8], &[0, 0, 0, 0, 0, 0, 1, 2]);
    assert_eq!(&k[8..], &[0xab; 32]);
    assert_eq!(&tip_key(&h)[..8], &[0xff, 0xff, 0xff, 0xff, 0xff, 0xff, 0xff, 0xfe]);
    assert_eq!(&index_key(&h)[..8], &[0xff; 8]);
    assert!(hash_of_key(&k) == h);
}

#[test]
fn key_order_follows_height_then_hash() {
    let a = main_key(&HashVal([0xff; 32]), 1);
    let b = main_key(&HashVal([0x00; 32]), 2);
    assert!(lex_le_bytes(&a, &b));
    assert!(!lex_le_bytes(&b, &a));
    assert!(lex_le_bytes(&[1, 2], &[1, 2, 0]));
    assert!(!lex_le_bytes(&[1, 2, 0], &[1, 2]));
    assert!(lex_le_bytes(&[], &[]));
}

#[test]
fn u64_round_trip() {
    let b = u64_to_be(0x1122_3344_5566_7788);
    assert_eq!(b, vec![0x11, 0x22, 0x33, 0x44, 0x55, 0x66, 0x77, 0x88]);
    assert_eq!(u64_from_be_at(&b, 0), 0x1122_3344_5566_7788);
}

#[test]
fn header_encoding_round_trip() {
    let h = sample_header();
    let b = h.to_bytes();
    assert_eq!(b.len(), HEADER_LEN);
    assert_eq!(b[0], 0xff);
    assert_eq!(&b[33..41], &[1, 2, 3, 4, 5, 6, 7, 8]);
    assert!(Header::decode_at(&b, 0) == h);
}

#[test]
fn header_hash_is_the_digest_of_the_encoding() {
    let h = sample_header();
    let d = h.hash();
    assert_eq!(d.0, tmelcrypt::hash_single(&h.to_bytes()).0);
    assert_ne!(d.0, [0u8; 32]);
    let mut other = h;
    other.height += 1;
    assert!(other.hash() != d);
}

#[test]
fn record_round_trip() {
    let r = Record {
        header: sample_header(),
        partial_state: vec![9, 8, 7],
        action: Some(ProposerAction { fee_multiplier_delta: -3, reward_dest: HashVal([7; 32]) }),
        next: vec![HashVal([8; 32]), HashVal([9; 32])],
        metadata: b"meta".to_vec(),
    };
    let bytes = r.encode();
    assert_eq!(bytes.len(), HEADER_LEN + 8 + 3 + 34 + 8 + 64 + 8 + 4);
    let back = Record::decode(&bytes).unwrap();
    assert!(back.header == r.header);
    assert_eq!(back.partial_state, r.partial_state);
    let a = back.action.unwrap();
    assert_eq!(a.fee_multiplier_delta, -3);
    assert!(a.reward_dest == HashVal([7; 32]));
    assert!(back.next == r.next);
    assert_eq!(back.metadata, r.metadata);
}

#[test]
fn record_decode_rejects_bad_bytes() {
    let r = Record {
        header: sample_header(),
        partial_state: vec![],
        action: None,
        next: vec![],
        metadata: vec![],
    };
    let mut bytes = r.encode();
    assert!(Record::decode(&bytes[..bytes.len() - 1]).is_none());
    bytes.push(0);
    assert!(Record::decode(&bytes).is_none());
    assert!(Record::decode(&[]).is_none());
}

#[test]
fn in_memory_backend() {
    let mut b = InMemoryBackend::new();
    assert!(b.get(b"k").is_none());
    b.insert(b"k", b"v1");
    b.insert(b"k", b"v2");
    assert_eq!(b.get(b"k"), Some(b"v2".to_vec()));
    b.insert(b"a", b"x");
    b.insert(b"z", b"y");
    let mut r = b.key_range(b"b", b"z");
    r.sort();
    assert_eq!(r, vec![b"k".to_vec(), b"z".to_vec()]);
    b.remove(b"k");
    assert!(b.get(b"k").is_none());
    assert_eq!(b.key_range(b"a", b"a"), vec![b"a".to_vec()]);
}
