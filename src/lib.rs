//! US Treasury par-yield-curve history: parsing of the published yearly CSV,
//! date resolution under the business-day fallback rule, and per-tenor lookup.
pub mod columns;
pub mod date;
pub mod error;
pub mod labels;
pub mod rate;
pub mod request;
pub mod text;
pub mod treasury_curve;

use vstd::prelude::*;

verus! {

/// The first year of published data.
pub const MIN_YEAR_AVAIL: i32 = 1990;

/// Days after the latest published curve for which it still answers.
pub const MAX_FORWARD_DAYS: i64 = 5;

} // verus!
