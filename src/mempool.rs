//! The mempool: a provisional state that accumulates transactions for the
//! next block, under a weight cap.
use vstd::prelude::*;
use crate::hash::HashVal;
use crate::tree::in_hashes;

verus! {

/// The total weight past which the mempool takes no more transactions.
pub const WEIGHT_LIMIT: u128 = 10_000_000;

/// Why a transaction was not taken.
#[derive(Debug)]
pub enum MempoolError<E> {
    /// The weight limit has been reached.
    Full,
    /// The transaction is already in the provisional state.
    DuplicateTx,
    /// Applying the transaction failed.
    State(E),
}

impl<E> MempoolError<E> {
    /// A short description of the error.
    pub fn message(&self) -> (r: &'static str)
        ensures
            (self is Full) ==> r@ == "mempool is full, try again later"@,
    {
        match self {
            MempoolError::Full => {
                proof {
                    reveal_strlit("mempool is full, try again later");
                }
                "mempool is full, try again later"
            },
            MempoolError::DuplicateTx => "duplicate transaction",
            MempoolError::State(_) => "transaction could not be applied",
        }
    }
}

/// A provisional state of type `S` used to form new blocks, with the hashes
/// of the transactions folded into it and their total weight.
pub struct Mempool<S> {
    provisional_state: S,
    last_rebase: S,
    provisional_height: u64,
    txx_in_state: Vec<HashVal>,
    next_weight: u128,
}

impl<S> Mempool<S> {
    /// The provisional state.
    pub closed spec fn state(&self) -> S {
        self.provisional_state
    }

    /// The state at the last rebase.
    pub closed spec fn base(&self) -> S {
        self.last_rebase
    }

    /// The height of the provisional state.
    pub closed spec fn height(&self) -> u64 {
        self.provisional_height
    }

    /// The hashes of the transactions in the provisional state.
    pub closed spec fn txx(&self) -> Set<Seq<u8>> {
        Set::new(|x: Seq<u8>| in_hashes(self.txx_in_state@, x))
    }

    /// The total weight of the transactions in the provisional state.
    pub closed spec fn weight(&self) -> u128 {
        self.next_weight
    }

    /// Creates a mempool over a provisional state at `height`; `base` is
    /// the same state, kept as the state of the last rebase.
    pub fn new(state: S, base: S, height: u64) -> (r: Self)
        ensures
            r.state() == state,
            r.base() == base,
            r.height() == height,
            r.txx() == Set::<Seq<u8>>::empty(),
            r.weight() == 0,
    {
        let r = Mempool {
            provisional_state: state,
            last_rebase: base,
            provisional_height: height,
            txx_in_state: Vec::new(),
            next_weight: 0,
        };
        assert(r.txx() =~= Set::<Seq<u8>>::empty());
        r
    }

    /// The provisional state, for block packaging.
    pub fn to_state(&self) -> (r: &S)
        ensures
            *r == self.state(),
    {
        &self.provisional_state
    }

    /// Takes the transaction `tx_hash` of weight `tx_weight`, given
    /// `applied`: the provisional state with the transaction applied, or the
    /// error applying it gave. A failed application leaves the hash marked
    /// and the weight as it was.
    pub fn apply_transaction<E>(&mut self, tx_hash: HashVal, tx_weight: u128, applied: Result<S, E>) -> (r: Result<(), MempoolError<E>>)
        requires
            tx_weight <= u128::MAX - WEIGHT_LIMIT,
        ensures
            final(self).height() == old(self).height(),
            final(self).base() == old(self).base(),
            if old(self).weight() >= WEIGHT_LIMIT {
                r is Err && r->Err_0 is Full && *final(self) == *old(self)
            } else if old(self).txx().contains(tx_hash@) {
                r is Err && r->Err_0 is DuplicateTx && *final(self) == *old(self)
            } else {
                &&& final(self).txx() == old(self).txx().insert(tx_hash@)
                &&& match applied {
                    Ok(s) => r is Ok && final(self).state() == s && final(self).weight() == old(
                        self,
                    ).weight() + tx_weight,
                    Err(e) => r == Err::<(), MempoolError<E>>(MempoolError::State(e))
                        && final(self).state() == old(self).state() && final(self).weight()
                        == old(self).weight(),
                }
            },
    {
        if self.next_weight >= WEIGHT_LIMIT {
            return Err(MempoolError::Full);
        }
        let mut i: usize = 0;
        while i < self.txx_in_state.len()
            invariant
                *self == *old(self),
                self.next_weight < WEIGHT_LIMIT,
                0 <= i <= self.txx_in_state@.len(),
                forall|a: int| 0 <= a < i ==> self.txx_in_state@[a]@ != tx_hash@,
            decreases self.txx_in_state@.len() - i,
        {
            if self.txx_in_state[i].same(&tx_hash) {
                assert(self.txx_in_state@[i as int]@ == tx_hash@);
                assert(self.txx().contains(tx_hash@));
                return Err(MempoolError::DuplicateTx);
            }
            i += 1;
        }
        let ghost old_txx = self.txx_in_state@;
        self.txx_in_state.push(tx_hash);
        proof {
            assert(self.txx() =~= old(self).txx().insert(tx_hash@)) by {
                assert forall|x: Seq<u8>| #[trigger] self.txx().contains(x) implies old(self).txx().insert(tx_hash@).contains(x) by {
                    let j = choose|j: int| 0 <= j < self.txx_in_state@.len() && #[trigger] self.txx_in_state@[j]@ == x;
                    if j < old_txx.len() {
                        assert(old_txx[j]@ == x);
                    }
                }
                assert forall|x: Seq<u8>| #[trigger] old(self).txx().insert(tx_hash@).contains(x) implies self.txx().contains(x) by {
                    if x == tx_hash@ {
                        assert(self.txx_in_state@[old_txx.len() as int]@ == x);
                    } else {
                        let j = choose|j: int| 0 <= j < old_txx.len() && #[trigger] old_txx[j]@ == x;
                        assert(self.txx_in_state@[j]@ == x);
                    }
                }
            }
        }
        match applied {
            Ok(s) => {
                self.provisional_state = s;
                self.next_weight = self.next_weight + tx_weight;
                Ok(())
            },
            Err(e) => Err(MempoolError::State(e)),
        }
    }

    /// Replaces the provisional state when a confirmed state above it
    /// arrives: `successor` is the empty state that follows the confirmed
    /// one. Transactions in the provisional state are dropped.
    pub fn rebase(&mut self, confirmed_height: u64, confirmed_is_empty: bool, successor: S, successor_copy: S)
        requires
            confirmed_height > old(self).height() ==> confirmed_is_empty,
            confirmed_height < u64::MAX,
        ensures
            if confirmed_height > old(self).height() {
                &&& final(self).state() == successor
                &&& final(self).base() == successor_copy
                &&& final(self).height() == confirmed_height + 1
                &&& final(self).txx() == Set::<Seq<u8>>::empty()
                &&& final(self).weight() == 0
            } else {
                *final(self) == *old(self)
            },
    {
        if confirmed_height > self.provisional_height {
            self.provisional_state = successor;
            self.last_rebase = successor_copy;
            self.provisional_height = confirmed_height + 1;
            self.txx_in_state = Vec::new();
            self.next_weight = 0;
            assert(self.txx() =~= Set::<Seq<u8>>::empty());
        }
    }

    /// Looks up a recent transaction; nothing is kept yet, so nothing is found.
    pub fn lookup_recent_tx<T>(&self, _hash: &HashVal) -> (r: Option<T>)
        ensures
            r is None,
    {
        None
    }
}

} // verus!
