use blkdb::hash::HashVal;
use blkdb::mempool::{Mempool, MempoolError, WEIGHT_LIMIT};

fn tx(i: u8) -> HashVal {
    HashVal([i; 32])
}

#[test]
fn weight_cap_stops_after_limit_is_reached() {
    // a transaction of this weight alone reaches the limit
    let mut m: Mempool<u64> = Mempool::new(0, 0, 5);
    let mut ok = 0;
    let mut full = 0;
    for i in 1..=11u8 {
        let next = *m.to_state() + 1;
        match m.apply_transaction::<()>(tx(i), 1_000_000_001, Ok(next)) {
            Ok(()) => ok += 1,
            Err(MempoolError::Full) => full += 1,
            Err(_) => panic!("unexpected error"),
        }
    }
    assert_eq!(ok, 1);
    assert_eq!(full, 10);
    let r = m.apply_transaction::<()>(tx(1), 1, Ok(0));
    assert!(matches!(r, Err(MempoolError::Full)));
    assert_eq!(MempoolError::<()>::Full.message(), "mempool is full, try again later");
}

#[test]
fn ten_transactions_fill_the_mempool() {
    let mut m: Mempool<u64> = Mempool::new(0, 0, 5);
    for i in 1..=10u8 {
        let next = *m.to_state() + 1;
        assert!(m.apply_transaction::<()>(tx(i), WEIGHT_LIMIT / 10, Ok(next)).is_ok());
    }
    assert_eq!(*m.to_state(), 10);
    let r = m.apply_transaction::<()>(tx(11), WEIGHT_LIMIT / 10, Ok(99));
    assert!(matches!(r, Err(MempoolError::Full)));
    assert_eq!(*m.to_state(), 10);
}

#[test]
fn duplicate_transaction() {
    let mut m: Mempool<u64> = Mempool::new(0, 0, 5);
    assert!(m.apply_transaction::<()>(tx(1), 10, Ok(1)).is_ok());
    let r = m.apply_transaction::<()>(tx(1), 10, Ok(2));
    assert!(matches!(r, Err(MempoolError::DuplicateTx)));
    assert_eq!(*m.to_state(), 1);
}

#[test]
fn failed_transaction_keeps_state_and_marks_hash() {
    let mut m: Mempool<u64> = Mempool::new(4, 4, 5);
    let r = m.apply_transaction::<&str>(tx(3), 10, Err("bad"));
    assert!(matches!(r, Err(MempoolError::State("bad"))));
    assert_eq!(*m.to_state(), 4);
    let r = m.apply_transaction::<&str>(tx(3), 10, Ok(5));
    assert!(matches!(r, Err(MempoolError::DuplicateTx)));
}

#[test]
fn rebase_onto_higher_state() {
    let mut m: Mempool<u64> = Mempool::new(0, 0, 5);
    assert!(m.apply_transaction::<()>(tx(1), 10, Ok(1)).is_ok());
    assert!(m.apply_transaction::<()>(tx(2), 10, Ok(2)).is_ok());
    m.rebase(6, true, 700, 700);
    assert_eq!(*m.to_state(), 700);
    // the hashes were cleared: the first transaction is taken again
    assert!(m.apply_transaction::<()>(tx(1), 10, Ok(701)).is_ok());
    assert!(m.lookup_recent_tx::<u64>(&tx(1)).is_none());
}

#[test]
fn rebase_onto_lower_state_does_nothing() {
    let mut m: Mempool<u64> = Mempool::new(0, 0, 5);
    assert!(m.apply_transaction::<()>(tx(1), 10, Ok(1)).is_ok());
    m.rebase(5, true, 700, 700);
    assert_eq!(*m.to_state(), 1);
    let r = m.apply_transaction::<()>(tx(1), 10, Ok(2));
    assert!(matches!(r, Err(MempoolError::DuplicateTx)));
}
