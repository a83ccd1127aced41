//! Transaction application and reversal for a currency ledger: unspent
//! outputs, per-script balances, transaction records and the issuer /
//! recipient indices, kept in lock-step.
//!
//! - `types`: hashes, scripts, transactions and their parts.
//! - `table`: a keyed table seen as a map.
//! - `script_hash`: script identities, memoized per batch.
//! - `index`: issuer / recipient indices and their batch accumulators.
//! - `ledger`: the tables, `apply_tx` and `revert_tx`.
//! - `laws`: what holds across operations (reversal, self-transfers,
//!   conservation of balances).
//! - `subscription`: pending transactions announced by pool events.
pub mod index;
pub mod laws;
pub mod ledger;
pub mod script_hash;
pub mod subscription;
pub mod table;
pub mod types;
