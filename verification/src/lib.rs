//! Verified helpers of the Tellor oracle pallet's benchmarks: token amounts in base units,
//! ABI-encoded query data and reported values, the ids of queries, feeds and disputes, the
//! timestamps that tip claims name, and the decisions of the stake deposit step.

pub mod word;
pub mod abi;
pub mod encoder;
pub mod ids;
pub mod query;
pub mod amounts;
pub mod staking;
pub mod claims;
