//! Token-sale ("funding round") allocation engine: round registry and
//! lifecycle, stake-weighted governance voting, bounded-capacity interest
//! admission with weighted random eviction, and vesting-based settlement.
pub mod admission;
pub mod ido;
pub mod ledger;
pub mod queries;
pub mod settlement;
pub mod types;
pub mod weights;
