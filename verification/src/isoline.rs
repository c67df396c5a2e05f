//! The marching-squares table behind implicit curves: which sides of a
//! grid cell the curve `f(x, y) = 0` crosses, and how those crossings are
//! joined, from the signs of `f` at the cell's corners.
use vstd::prelude::*;

verus! {

/// A side of a grid cell.
#[derive(Clone, Copy, Debug, PartialEq, Eq, Structural)]
pub enum Side {
    South,
    East,
    North,
    West,
}

/// The cell's case number: one bit per negative corner (south-west 1,
/// south-east 2, north-east 4, north-west 8).
pub open spec fn corner_case(sw: bool, se: bool, ne: bool, nw: bool) -> nat {
    (if sw { 1nat } else { 0nat }) + (if se { 2nat } else { 0nat }) + (if ne { 4nat } else { 0nat })
        + (if nw { 8nat } else { 0nat })
}

/// The segments drawn in a cell of case `case`, each joining the crossing
/// points on two sides. The two saddle cases (5 and 10) are split by the
/// sign at the cell's centre (the mean of its corners).
pub open spec fn cell_pairs(case: nat, center_neg: bool) -> Seq<(Side, Side)> {
    if case == 1 || case == 14 {
        seq![(Side::West, Side::South)]
    } else if case == 2 || case == 13 {
        seq![(Side::South, Side::East)]
    } else if case == 3 || case == 12 {
        seq![(Side::West, Side::East)]
    } else if case == 4 || case == 11 {
        seq![(Side::East, Side::North)]
    } else if case == 6 || case == 9 {
        seq![(Side::South, Side::North)]
    } else if case == 7 || case == 8 {
        seq![(Side::West, Side::North)]
    } else if case == 5 {
        if center_neg {
            seq![(Side::West, Side::North), (Side::South, Side::East)]
        } else {
            seq![(Side::West, Side::South), (Side::East, Side::North)]
        }
    } else if case == 10 {
        if center_neg {
            seq![(Side::West, Side::South), (Side::East, Side::North)]
        } else {
            seq![(Side::West, Side::North), (Side::South, Side::East)]
        }
    } else {
        Seq::empty()
    }
}

/// The segments of a cell whose corners are negative as given (and whose
/// centre is negative when `center_neg`), in drawing order.
pub fn cell_segments(sw: bool, se: bool, ne: bool, nw: bool, center_neg: bool) -> (r: Vec<(Side, Side)>)
    ensures
        r@ == cell_pairs(corner_case(sw, se, ne, nw), center_neg),
{
    let case: u8 = (if sw { 1u8 } else { 0u8 }) + (if se { 2u8 } else { 0u8 }) + (if ne {
        4u8
    } else {
        0u8
    }) + (if nw { 8u8 } else { 0u8 });
    let mut out: Vec<(Side, Side)> = Vec::new();
    if case == 1 || case == 14 {
        out.push((Side::West, Side::South));
    } else if case == 2 || case == 13 {
        out.push((Side::South, Side::East));
    } else if case == 3 || case == 12 {
        out.push((Side::West, Side::East));
    } else if case == 4 || case == 11 {
        out.push((Side::East, Side::North));
    } else if case == 6 || case == 9 {
        out.push((Side::South, Side::North));
    } else if case == 7 || case == 8 {
        out.push((Side::West, Side::North));
    } else if case == 5 {
        if center_neg {
            out.push((Side::West, Side::North));
            out.push((Side::South, Side::East));
        } else {
            out.push((Side::West, Side::South));
            out.push((Side::East, Side::North));
        }
    } else if case == 10 {
        if center_neg {
            out.push((Side::West, Side::South));
            out.push((Side::East, Side::North));
        } else {
            out.push((Side::West, Side::North));
            out.push((Side::South, Side::East));
        }
    }
    proof {
        assert(out@ =~= cell_pairs(corner_case(sw, se, ne, nw), center_neg));
    }
    out
}

/// Whether the sign changes between the two corners of a side.
pub open spec fn crossed(s: Side, sw: bool, se: bool, ne: bool, nw: bool) -> bool {
    match s {
        Side::South => sw != se,
        Side::East => se != ne,
        Side::North => nw != ne,
        Side::West => sw != nw,
    }
}

/// How many segment ends lie on side `s`.
pub open spec fn ends_on(pairs: Seq<(Side, Side)>, s: Side) -> nat
    decreases pairs.len(),
{
    if pairs.len() == 0 {
        0
    } else {
        ends_on(pairs.drop_last(), s) + (if pairs.last().0 == s { 1nat } else { 0nat }) + (if pairs.last().1
            == s {
            1nat
        } else {
            0nat
        })
    }
}

/// The curve enters and leaves each cell where the sign changes, and only
/// there: every side whose corners differ in sign holds exactly one
/// segment end, every other side none.
pub proof fn law_segments_end_on_sign_changes(sw: bool, se: bool, ne: bool, nw: bool, center_neg: bool)
    ensures
        forall|s: Side|
            #[trigger] ends_on(cell_pairs(corner_case(sw, se, ne, nw), center_neg), s) == if crossed(
                s,
                sw,
                se,
                ne,
                nw,
            ) {
                1nat
            } else {
                0nat
            },
{
    let pairs = cell_pairs(corner_case(sw, se, ne, nw), center_neg);
    reveal_with_fuel(ends_on, 3);
    assert(pairs.len() <= 2);
    if pairs.len() == 2 {
        assert(pairs.drop_last().drop_last() =~= Seq::<(Side, Side)>::empty());
    } else if pairs.len() == 1 {
        assert(pairs.drop_last() =~= Seq::<(Side, Side)>::empty());
    }
    assert forall|s: Side| #[trigger]
        ends_on(pairs, s) == if crossed(s, sw, se, ne, nw) {
            1nat
        } else {
            0nat
        } by {}
}

} // verus!
