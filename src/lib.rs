//! A fork-aware block database: every observed block stored as a flat record
//! in an ordered key-value backend, with tips, a hash index, pruning by
//! genesis, and a provisional mempool.
use vstd::prelude::*;

pub mod bytes;
pub mod hash;
pub mod keys;
pub mod header;
pub mod record;
pub mod backend;
pub mod layout;
pub mod cache;
pub mod tree;
pub mod mempool;
pub mod telemetry;
pub mod transaction;
pub mod wallet;

verus! {

} // verus!
