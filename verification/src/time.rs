//! Durations as whole nanoseconds.
//!
//! All scheduling arithmetic is done on nanosecond counts. This module holds
//! the only statement this library makes about `std::time::Duration`.

use std::time::Duration;
use vstd::prelude::*;

verus! {

/// The length of `d` in whole nanoseconds.
///
/// This names what `Duration::as_nanos` returns. Nothing else is claimed of
/// it: every contract that speaks of a duration speaks of this number.
pub uninterp spec fn nanos(d: Duration) -> nat;

/// `Duration::as_nanos`: the total number of whole nanoseconds in the
/// duration. It reads its argument and nothing else, so the same duration
/// always gives the same count, and that count is [`nanos`].
pub assume_specification[ Duration::as_nanos ](d: &Duration) -> (n: u128)
    ensures
        n == nanos(*d),
;

/// The length of `d` in whole nanoseconds.
pub fn nanos_of(d: Duration) -> (n: u128)
    ensures
        n == nanos(d),
{
    d.as_nanos()
}

} // verus!
