//! An append-only, authenticated registry pair: a catalog of test
//! definitions keyed by caller-supplied identifiers, and a badge ledger that
//! issues sequential token ids and indexes issued badges by owner.

pub mod badge_nft;
pub mod test_registry;
