//! Constants shared by the solver and its callers.
use vstd::prelude::*;

verus! {

/// The sentinel cost: an entry equal to `INF` means "no direct edge", and a
/// table entry equal to `INF` means "unreachable". It is half of `i32::MAX`
/// (rounded down), so the sum of two values that do not exceed it still fits
/// in an `i32`.
pub const INF: i32 = 1_073_741_823;

} // verus!
