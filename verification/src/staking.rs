//! The decisions of the benchmark setup step that deposits a reporter's stake.
//!
//! The step asks the runtime for a staking origin and, when it gets one, dispatches the
//! report of the deposit with it, then hands the origin back. The runtime calls are made by
//! the caller: it hands the staking origin it got to [`deposit_stake`], performs the report
//! that comes back, and hands that report's outcome to [`deposit_stake_reported`].

use vstd::prelude::*;

verus! {

/// Why a benchmark setup step fails: the setup cannot be weighed.
#[derive(Clone, Copy, Debug, PartialEq, Eq)]
pub enum BenchmarkError {
    Weightless,
}

/// What the stake deposit does once the runtime has been asked for the staking origin.
#[derive(Debug, PartialEq, Eq)]
pub enum DepositStakeStep<O, R, B, D> {
    /// Dispatch the report that `reporter` deposited `amount` from `address`, with `origin`;
    /// then hand the report's outcome, with this same origin, to [`deposit_stake_reported`].
    ReportStake { origin: O, reporter: R, amount: B, address: D },
    /// Finish with this error.
    Fail(BenchmarkError),
}

/// The first decision of the stake deposit, on what the staking origin gave: with an origin,
/// report the deposit of `amount` by `reporter` from `address` with that origin; without one,
/// fail as weightless.
pub fn deposit_stake<O, E, R, B, D>(
    staking_origin: Result<O, E>,
    reporter: R,
    amount: B,
    address: D,
) -> (step: DepositStakeStep<O, R, B, D>)
    ensures
        step == (match staking_origin {
            Ok(origin) => DepositStakeStep::ReportStake { origin, reporter, amount, address },
            Err(_) => DepositStakeStep::Fail(BenchmarkError::Weightless),
        }),
{
    match staking_origin {
        Ok(origin) => DepositStakeStep::ReportStake { origin, reporter, amount, address },
        Err(_) => DepositStakeStep::Fail(BenchmarkError::Weightless),
    }
}

/// The last decision of the stake deposit, on the outcome of the report dispatched with
/// `origin`: when it succeeded, the result is that origin, for the benchmark to call with;
/// when it failed, the result is the weightless error.
pub fn deposit_stake_reported<O, E>(origin: O, report: Result<(), E>) -> (result: Result<
    O,
    BenchmarkError,
>)
    ensures
        result == (match report {
            Ok(_) => Ok(origin),
            Err(_) => Err(BenchmarkError::Weightless),
        }),
{
    match report {
        Ok(_) => Ok(origin),
        Err(_) => Err(BenchmarkError::Weightless),
    }
}

} // verus!
