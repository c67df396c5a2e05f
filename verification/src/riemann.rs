//! Where a Riemann rectangle samples its function.
use vstd::prelude::*;

verus! {

/// The point of each subinterval at which a Riemann rectangle takes its
/// height: its left end, its right end, or its midpoint.
#[derive(Clone, Copy, Debug, PartialEq, Eq, Structural)]
pub enum RiemannSample {
    Left,
    Right,
    Center,
}

/// Offset of the sample point inside a subinterval, in half widths.
pub open spec fn half_offset(s: RiemannSample) -> nat {
    match s {
        RiemannSample::Left => 0,
        RiemannSample::Right => 2,
        RiemannSample::Center => 1,
    }
}

impl RiemannSample {
    /// Where rectangle `i` samples, counted in half widths from the start
    /// of the range: `2i` at its left end, `2i + 2` at its right end,
    /// `2i + 1` at its midpoint.
    pub fn half_steps(self, i: u64) -> (h: u64)
        requires
            i < 0x7fff_ffff_ffff_ffff,
        ensures
            h == 2 * i + half_offset(self),
    {
        match self {
            RiemannSample::Left => 2 * i,
            RiemannSample::Right => 2 * i + 2,
            RiemannSample::Center => 2 * i + 1,
        }
    }
}

/// How many rectangles are drawn for a requested count: at least one.
pub fn rect_count(n: usize) -> (c: usize)
    ensures
        c == if n == 0 { 1 } else { n },
{
    if n == 0 {
        1
    } else {
        n
    }
}

} // verus!
