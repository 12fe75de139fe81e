//! Support for the progress display.

use vstd::prelude::*;

verus! {

/// How far along the conversion is, in whole percent: `pos * 100 /
/// duration`. The surrounding program prints this; the division itself is
/// exact integer arithmetic.
pub fn progress_percent(pos: usize, duration: usize) -> (r: usize)
    requires
        duration >= 1,
        pos * 100 <= usize::MAX,
    ensures
        r == pos * 100 / (duration as int),
{
    pos * 100 / duration
}

} // verus!
