//! Heights of new nodes: a geometric distribution, capped.

use rand::Rng;
use vstd::prelude::*;

verus! {

/// The largest height a node can have, and the height of the header.
pub const MAX_LEVEL: usize = 32;

/// A draw is read through its low sixteen bits.
pub const DRAW_MASK: usize = 0xFFFF;

/// A draw promotes when its low sixteen bits are below this bound: one draw
/// in four.
pub const PROMOTE_BELOW: usize = 0x4000;

/// Whether a draw lifts the node one level higher.
pub open spec fn promotes_spec(draw: usize) -> bool {
    (draw & DRAW_MASK) < PROMOTE_BELOW
}

/// Decides whether a draw lifts the node one level higher.
pub fn promotes(draw: usize) -> (r: bool)
    ensures
        r == promotes_spec(draw),
{
    (draw & DRAW_MASK) < PROMOTE_BELOW
}

/// One draw from `rand`'s thread-local generator, `thread_rng().gen::<usize>()`.
/// Nothing is claimed of the value.
#[verifier::external_body]
fn draw() -> usize {
    rand::thread_rng().gen::<usize>()
}

/// A random height: 1, raised by one for each draw in a row that promotes,
/// and never above `MAX_LEVEL`.
pub fn random_level() -> (level: usize)
    ensures
        1 <= level <= MAX_LEVEL,
{
    let mut level: usize = 1;
    while level < MAX_LEVEL && promotes(draw())
        invariant
            1 <= level <= MAX_LEVEL,
        decreases MAX_LEVEL - level,
    {
        level += 1;
    }
    level
}

} // verus!
