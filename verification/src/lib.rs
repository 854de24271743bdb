//! The decisions of a transaction pool: which transactions are let in, how the
//! recovery of their signers is split among workers, what is asked of the
//! deferred pool, and what is passed on to the network.
//!
//! The library does no work of its own on signatures, account state or the
//! deferred pool: it says what is to be done and is told what came of it.
//!
//! - `u256` and `types` hold what is known of numbers and transactions.
//! - `rules` says which transactions are refused, and with which words.
//! - `recovery` splits the recovery of signers and collects what comes of it;
//!   `recovery_laws` shows what the split makes no difference to.
//! - `pool` is the pool, and `insertion` takes new transactions into it step by
//!   step. `step_laws` says what each step comes to, `runs` is about several steps in a row, and `insertion_laws` says what
//!   comes of all of them and what is asked for along the way.
//! - `maps` joins maps that are keyed by hash.
//! - `snapshot_mpt` is what a storage engine provides for the tries of
//!   snapshots.

pub mod insertion;
pub mod insertion_laws;
pub mod maps;
pub mod pool;
pub mod recovery;
pub mod recovery_laws;
pub mod rules;
pub mod runs;
pub mod snapshot_mpt;
pub mod step_laws;
pub mod types;
pub mod u256;
