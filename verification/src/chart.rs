//! The discrete side of bar charts: which color each bar is filled with.
use vstd::prelude::*;

use crate::palette::{blue, gold, purple, red, rgb, teal, Rgba8};

verus! {

/// The colors bars cycle through when the chart is given none: blue,
/// teal, purple, red, gold.
pub open spec fn default_bar_palette() -> Seq<Rgba8> {
    seq![
        rgb(88, 196, 221),
        rgb(92, 208, 179),
        rgb(154, 114, 172),
        rgb(252, 98, 85),
        rgb(240, 172, 95),
    ]
}

/// The fill of each of `n` bars: the given colors (or the default
/// palette when none are given) repeated in order.
pub open spec fn bar_fills(n: nat, colors: Seq<Rgba8>) -> Seq<Rgba8> {
    let pal = if colors.len() == 0 {
        default_bar_palette()
    } else {
        colors
    };
    Seq::new(n, |i: int| pal[i % (pal.len() as int)])
}

/// `n` colors cycling through `pal`.
fn cycle(n: usize, pal: &[Rgba8]) -> (r: Vec<Rgba8>)
    requires
        pal@.len() > 0,
    ensures
        r@ == Seq::new(n as nat, |i: int| pal@[i % (pal@.len() as int)]),
{
    let mut out: Vec<Rgba8> = Vec::new();
    let mut i: usize = 0;
    while i < n
        invariant
            i <= n,
            pal@.len() > 0,
            out@.len() == i,
            forall|j: int| 0 <= j < i ==> #[trigger] out@[j] == pal@[j % (pal@.len() as int)],
        decreases n - i,
    {
        out.push(pal[i % pal.len()]);
        i = i + 1;
    }
    proof {
        assert(out@ =~= Seq::new(n as nat, |i: int| pal@[i % (pal@.len() as int)]));
    }
    out
}

/// The fill colors of `n` bars.
pub fn bar_colors(n: usize, colors: &[Rgba8]) -> (r: Vec<Rgba8>)
    ensures
        r@ == bar_fills(n as nat, colors@),
{
    if colors.len() == 0 {
        let pal = vec![blue(), teal(), purple(), red(), gold()];
        assert(pal@ =~= default_bar_palette());
        cycle(n, &pal)
    } else {
        cycle(n, colors)
    }
}

} // verus!
