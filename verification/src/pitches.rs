//! Index arithmetic of pitch schedules.
use vstd::prelude::*;

verus! {

/// The ticks whose pitches blend into the pitch flown at `tick` of a schedule
/// of `len` ticks when the schedule is shifted in time: the tick before (the
/// first tick stands for itself), `tick`, and the tick after (the last tick
/// stands for itself).
pub fn neighbour_ticks(tick: usize, len: usize) -> (r: (usize, usize, usize))
    requires
        tick < len,
    ensures
        r == (
            if tick == 0 {
                0
            } else {
                (tick - 1) as usize
            },
            tick,
            if tick + 1 < len {
                (tick + 1) as usize
            } else {
                (len - 1) as usize
            },
        ),
{
    let left = tick.saturating_sub(1);
    let right = if tick + 1 < len - 1 { tick + 1 } else { len - 1 };
    (left, tick, right)
}

} // verus!
