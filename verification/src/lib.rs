//! A verified per-account transaction ledger.
//!
//! The crate ingests normalized transaction records (deposits, withdrawals,
//! disputes, resolves, chargebacks), stores them per client, and replays each
//! client's history in arrival order to derive a closing balance of available
//! funds, held funds, their total, and a locked flag.
//!
//! Monetary amounts are fixed-point integers scaled by [`MONEY_SCALE`]: all
//! arithmetic is exact, and overflow of the fixed-point accumulators is
//! detected and reported as an error rather than wrapped.

use vstd::prelude::*;

pub mod balance;
pub mod laws;
pub mod ledger;
pub mod transaction;

verus! {

/// Fixed-point scale for monetary amounts: one currency unit is
/// `MONEY_SCALE` ticks, giving four exact decimal digits of fraction.
pub const MONEY_SCALE: i64 = 10000;

} // verus!
