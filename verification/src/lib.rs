//! A registry of uniquely identified digital collectibles with transferable
//! ownership and an optional per-item marketplace listing.
//!
//! The registry is the state-transition core of a larger ledger system: the
//! host authenticates callers, supplies entropy and sequencing context, and
//! settles payments; this crate validates and applies the six operations
//! (mint, destroy, transfer, set-price, delist, buy) against one explicit
//! state value, atomically, and proves the registry's invariants hold across
//! every sequence of operations.

pub mod identifier;
pub mod laws;
pub mod ledger;
pub mod pallet;
pub mod types;
