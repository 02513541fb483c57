//! Clock arithmetic of the timers: the ticks that elapsed between two
//! readings of a clock.

use vstd::prelude::*;

verus! {

/// The ticks from `previous` to `end`, saturating at `i64::MAX`: what a
/// duration timer reports.
pub fn elapsed_saturating(end: u128, previous: u128) -> (r: i64)
    requires
        previous <= end,
    ensures
        r == if end - previous <= i64::MAX {
            end - previous
        } else {
            i64::MAX as int
        },
{
    let ticks = end - previous;
    if ticks <= i64::MAX as u128 {
        ticks as i64
    } else {
        i64::MAX
    }
}

/// The ticks from `start` to `end`, cut to their lowest 64 bits as a
/// two's complement value: what a clock timer reports.
pub fn elapsed_wrapping(end: u128, start: u128) -> (r: i64)
    requires
        start <= end,
    ensures
        r == (end - start) as i64,
{
    let ticks = end - start;
    ticks as i64
}

} // verus!
