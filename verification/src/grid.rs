//! Grid arrangement (Manim `arrange_in_grid`): how many columns, and which
//! neighbor each child is placed against. The placing itself moves real
//! coordinates and is done by the caller.
use vstd::prelude::*;

use crate::scene::NodeId;

verus! {

/// The smallest `r` with `r * r >= n` (the ceiling of the square root).
pub open spec fn is_ceil_sqrt(n: nat, r: nat) -> bool {
    r * r >= n && (r == 0 || (r - 1) * (r - 1) < n)
}

/// The ceiling of the square root of `n`.
pub fn ceil_sqrt(n: usize) -> (r: usize)
    ensures
        is_ceil_sqrt(n as nat, r as nat),
{
    let mut r: u64 = 0;
    while (r as u128) * (r as u128) < n as u128
        invariant
            r == 0 || (r - 1) * (r - 1) < n,
            r * r <= n + 2 * r + 1,
            r <= 0x1_0000_0000,
        decreases 0x1_0000_0001 - r,
    {
        proof {
            assert(r < 0x1_0000_0000) by (nonlinear_arith)
                requires
                    r * r < n,
                    n <= usize::MAX,
                    usize::MAX <= 0xffff_ffff_ffff_ffff,
                    r <= 0x1_0000_0000,
            ;
            assert((r + 1) * (r + 1) <= n + 2 * (r + 1) + 1) by (nonlinear_arith)
                requires
                    r * r < n,
            ;
        }
        r = r + 1;
    }
    proof {
        assert(r * r >= n);
        assert(r <= usize::MAX) by (nonlinear_arith)
            requires
                r == 0 || (r - 1) * (r - 1) < n,
                n <= usize::MAX,
        ;
    }
    r as usize
}

/// Columns of a grid of `n` children: the given column count, else
/// enough columns for the given row count (by default the ceiling of the
/// square root of `n`) — at least one either way.
pub open spec fn grid_cols(n: nat, rows: Option<usize>, cols: Option<usize>) -> nat {
    let c = match cols {
        Some(c) => c as nat,
        None => {
            let r = match rows {
                Some(r) => r as nat,
                None => choose|r: nat| is_ceil_sqrt(n, r),
            };
            let r1 = if r < 1 {
                1
            } else {
                r
            };
            ((n + r1 - 1) / (r1 as int)) as nat
        },
    };
    if c < 1 {
        1
    } else {
        c
    }
}

/// The ceiling square root is unique.
proof fn lemma_ceil_sqrt_unique(n: nat, a: nat, b: nat)
    requires
        is_ceil_sqrt(n, a),
        is_ceil_sqrt(n, b),
    ensures
        a == b,
{
    if a < b {
        assert((b - 1) * (b - 1) >= a * a) by (nonlinear_arith)
            requires
                a <= b - 1,
        ;
    }
    if b < a {
        assert((a - 1) * (a - 1) >= b * b) by (nonlinear_arith)
            requires
                b <= a - 1,
        ;
    }
}

/// See `grid_cols`.
pub fn grid_columns(n: usize, rows: Option<usize>, cols: Option<usize>) -> (c: usize)
    ensures
        c == grid_cols(n as nat, rows, cols),
{
    let c = match cols {
        Some(c) => c,
        None => {
            let r = match rows {
                Some(r) => r,
                None => {
                    let s = ceil_sqrt(n);
                    proof {
                        let t = choose|r: nat| is_ceil_sqrt(n as nat, r);
                        lemma_ceil_sqrt_unique(n as nat, s as nat, t);
                    }
                    s
                },
            };
            let r1 = if r < 1 {
                1
            } else {
                r
            };
            // n.div_ceil(r1), without overflow
            proof {
                assert(n % r1 != 0 ==> n / r1 < usize::MAX) by (nonlinear_arith)
                    requires
                        r1 >= 1,
                        n <= usize::MAX,
                ;
            }
            let q = n / r1 + if n % r1 == 0 {
                0
            } else {
                1
            };
            proof {
                assert(q == (n + r1 - 1) / (r1 as int)) by (nonlinear_arith)
                    requires
                        r1 >= 1,
                        q == n / r1 + if n % r1 == 0 {
                            0int
                        } else {
                            1int
                        },
                ;
            }
            q
        },
    };
    if c < 1 {
        1
    } else {
        c
    }
}

/// Where one grid child goes.
#[derive(Clone, Copy, Debug, PartialEq, Eq, Structural)]
pub enum GridStep {
    /// The first child stays where it is.
    Stay,
    /// Right of `prev`, top-aligned with `row_start` (the row's first).
    RightOf { prev: NodeId, row_start: NodeId },
    /// Below `above` (the first child of the previous row).
    Below { above: NodeId },
}

/// The step for child `i` of a grid with `cols` columns.
pub open spec fn grid_step(kids: Seq<NodeId>, cols: nat, i: int) -> GridStep {
    let col = i % (cols as int);
    if col > 0 {
        GridStep::RightOf { prev: kids[i - 1], row_start: kids[i - col] }
    } else if i > 0 {
        GridStep::Below { above: kids[i - cols] }
    } else {
        GridStep::Stay
    }
}

/// One step per child, in order (see `grid_step`).
pub fn grid_plan(kids: &[NodeId], cols: usize) -> (r: Vec<GridStep>)
    requires
        cols >= 1,
    ensures
        r@.len() == kids@.len(),
        forall|i: int| 0 <= i < kids@.len() ==> #[trigger] r@[i] == grid_step(kids@, cols as nat, i),
{
    let mut out: Vec<GridStep> = Vec::new();
    let mut i: usize = 0;
    while i < kids.len()
        invariant
            cols >= 1,
            i <= kids@.len(),
            out@.len() == i,
            forall|j: int| 0 <= j < i ==> #[trigger] out@[j] == grid_step(kids@, cols as nat, j),
        decreases kids@.len() - i,
    {
        let col = i % cols;
        proof {
            assert(col <= i && (col > 0 ==> i >= 1)) by (nonlinear_arith)
                requires
                    col == i % cols,
                    cols >= 1,
            ;
        }
        let step = if col > 0 {
            GridStep::RightOf { prev: kids[i - 1], row_start: kids[i - col] }
        } else if i > 0 {
            proof {
                assert(i >= cols) by (nonlinear_arith)
                    requires
                        i > 0,
                        i % cols == 0,
                        cols >= 1,
                ;
            }
            GridStep::Below { above: kids[i - cols] }
        } else {
            GridStep::Stay
        };
        out.push(step);
        i = i + 1;
    }
    out
}

} // verus!
