//! Transcript grade optimizer.
//!
//! Turns rows of table cells extracted from a university transcript into
//! structured course records, then searches over admissible "strike"
//! combinations (excluding a bounded credit volume of courses from the
//! weighted average) for the best attainable average grade.
//!
//! All quantities are exact fixed-point numbers in hundredths (centi-units):
//! a grade of 1.3 is 130, a credit volume of 7.5 is 750, a weight modifier
//! of 1.5 is 150. Averages are exact rationals.
use vstd::prelude::*;

pub mod average;
pub mod decimal;
pub mod extract;
pub mod laws;
pub mod records;
pub mod strike;
pub mod text;

verus! {

/// Upper bound (inclusive) on any single centi-unit quantity: 999.99.
pub const MAX_CENTI: u32 = 99999;

/// Upper bound on the number of records one computation accepts, so
/// that every sum and cross product fits its machine integer.
pub const MAX_RECORDS: usize = 1000000;

/// The credit volume that may be struck in total: 30.00 credits.
pub const STRIKE_CAP_CENTI: u32 = 3000;

} // verus!
