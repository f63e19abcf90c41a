//! Plain identifiers and amounts shared by the whole crate.
use vstd::prelude::*;

verus! {

/// An account on the ledger.
pub type AccountId = u64;

/// An asset held on the ledger.
pub type AssetId = u64;

/// An amount of some asset.
pub type Balance = u128;

/// A block height.
pub type BlockNumber = u64;

/// Identifier of a funding round.
pub type RoundId = u64;

/// Largest amount a round may sell or an investor may commit.
pub const MAX_AMOUNT: u128 = 0xffff_ffff_ffff_ffff;

} // verus!
