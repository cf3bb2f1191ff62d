//! Cross-chain event confirmation engine.
//!
//! A batch of signed observations of foreign-chain events is merged into a
//! weighted vote tally.  An event whose cumulative validator voting power
//! strictly exceeds two thirds becomes confirmed and its side effects (asset
//! minting) are applied exactly once; events that stay unconfirmed past the
//! unbonding window are swept from storage.  All of it is deterministic:
//! given the same store state and the same batch, every node computes the
//! same final store and the same set of changed storage keys.

pub mod encoding;
pub mod engine;
pub mod keys;
pub mod laws;
pub mod migrations;
pub mod oracle;
pub mod power;
pub mod store;
pub mod types;
pub mod votes;
pub mod validity;
