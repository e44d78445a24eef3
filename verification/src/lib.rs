//! State-transition logic for two independent ledger registries: a claim
//! registry (assert, revoke and transfer ownership of a content fingerprint)
//! and a creature registry (mint, breed and transfer creatures with a genetic
//! payload, backed by a refundable collateral deposit).
//!
//! The surrounding ledger runtime authenticates callers, supplies the current
//! block height and the per-block randomness seed, and wraps every operation
//! in an all-or-nothing transaction. Those collaborators hand the registries
//! plain values; everything the registries decide is verified here.
pub mod balances;
pub mod kitties;
pub mod poe;

pub use kitties::crossover;
