//! The user-facing settings of the analyser: which screen is shown and
//! how many bars the spectrum has.

use vstd::prelude::*;

use crate::bins::clamp;

verus! {

/// The screen the analyser shows.
#[derive(Clone, Copy, Debug, PartialEq, Eq, Structural)]
pub enum AppView {
    SelectDevice,
    Visualizer,
}

/// The fewest bars the spectrum can be set to.
pub const MIN_BARS: i32 = 4;

/// The most bars the spectrum can be set to.
pub const MAX_BARS: i32 = 128;

/// The bar count after changing `current` by `delta`: the sum, taken as a
/// 32-bit signed number, kept within `MIN_BARS..=MAX_BARS`.
pub fn adjusted_bar_count(current: usize, delta: i32) -> (n: usize)
    requires
        i32::MIN <= (current as i32) + delta <= i32::MAX,
    ensures
        n == clamp((current as i32) + delta, MIN_BARS as int, MAX_BARS as int),
        MIN_BARS <= n <= MAX_BARS,
{
    let current = current as i32;
    let sum = current + delta;
    let new_val = if sum < MIN_BARS {
        MIN_BARS
    } else if sum > MAX_BARS {
        MAX_BARS
    } else {
        sum
    };
    new_val as usize
}

} // verus!
