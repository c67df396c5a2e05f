//! Boolean path operations: which operation a name selects, and what the
//! result is when an operand has no area. The polygon clipping itself runs
//! on real coordinates outside this crate.
use vstd::prelude::*;

use crate::text::{
    all_ws, is_lit, lemma_trim_ignores_case, lemma_trim_padded, lower_seq, trim, trimmed_lower,
};

verus! {

#[derive(Clone, Copy, Debug, PartialEq, Eq, Structural)]
pub enum BooleanOp {
    Union,
    Intersection,
    Difference,
    Exclusion,
}

/// The operation a trimmed, lowercased name selects.
pub open spec fn boolean_op_named(k: Seq<char>) -> Option<BooleanOp> {
    if k == "union"@ || k == "or"@ {
        Some(BooleanOp::Union)
    } else if k == "intersection"@ || k == "and"@ {
        Some(BooleanOp::Intersection)
    } else if k == "difference"@ || k == "sub"@ {
        Some(BooleanOp::Difference)
    } else if k == "exclusion"@ || k == "xor"@ {
        Some(BooleanOp::Exclusion)
    } else {
        None
    }
}

impl BooleanOp {
    /// Parse an operation name (surrounding whitespace and ASCII case are
    /// ignored): `union`/`or`, `intersection`/`and`, `difference`/`sub`,
    /// `exclusion`/`xor`.
    pub fn parse(s: &str) -> (op: Option<Self>)
        ensures
            op == boolean_op_named(lower_seq(trim(s@))),
    {
        let k = trimmed_lower(s);
        if is_lit(&k, "union") || is_lit(&k, "or") {
            Some(BooleanOp::Union)
        } else if is_lit(&k, "intersection") || is_lit(&k, "and") {
            Some(BooleanOp::Intersection)
        } else if is_lit(&k, "difference") || is_lit(&k, "sub") {
            Some(BooleanOp::Difference)
        } else if is_lit(&k, "exclusion") || is_lit(&k, "xor") {
            Some(BooleanOp::Exclusion)
        } else {
            None
        }
    }
}

/// Case and surrounding whitespace never change which operation a name
/// selects: `parse` gives the same for `s`, for `s` padded with whitespace,
/// and for any `t` that equals `s` up to ASCII case.
pub proof fn law_parse_ignores_case_and_padding(
    s: Seq<char>,
    t: Seq<char>,
    w1: Seq<char>,
    w2: Seq<char>,
)
    requires
        all_ws(w1),
        all_ws(w2),
    ensures
        boolean_op_named(lower_seq(trim(w1 + s + w2))) == boolean_op_named(lower_seq(trim(s))),
        lower_seq(s) == lower_seq(t) ==> boolean_op_named(lower_seq(trim(t))) == boolean_op_named(
            lower_seq(trim(s)),
        ),
{
    lemma_trim_padded(w1, s, w2);
    if lower_seq(s) == lower_seq(t) {
        lemma_trim_ignores_case(s, t);
    }
}

/// What a boolean operation yields, given which operands have outlines.
#[derive(Clone, Copy, Debug, PartialEq, Eq, Structural)]
pub enum BooleanOutcome {
    /// No outline at all.
    Nothing,
    /// The first operand, as it is.
    First,
    /// The second operand, as it is.
    Second,
    /// Both have outlines: the polygon clipper decides.
    Clip,
}

/// The outcome of `op` when `a_empty` / `b_empty` tell which operands have
/// no closed contour: with no contours nothing comes out; against an empty
/// operand a union or exclusion keeps the other, a difference keeps the
/// first, an intersection keeps nothing.
pub open spec fn outcome(op: BooleanOp, a_empty: bool, b_empty: bool) -> BooleanOutcome {
    if a_empty && b_empty {
        BooleanOutcome::Nothing
    } else if a_empty {
        match op {
            BooleanOp::Union | BooleanOp::Exclusion => BooleanOutcome::Second,
            BooleanOp::Intersection | BooleanOp::Difference => BooleanOutcome::Nothing,
        }
    } else if b_empty {
        match op {
            BooleanOp::Union | BooleanOp::Exclusion | BooleanOp::Difference => BooleanOutcome::First,
            BooleanOp::Intersection => BooleanOutcome::Nothing,
        }
    } else {
        BooleanOutcome::Clip
    }
}

impl BooleanOp {
    /// What this operation yields for operands with or without contours.
    pub fn outcome(self, a_empty: bool, b_empty: bool) -> (r: BooleanOutcome)
        ensures
            r == outcome(self, a_empty, b_empty),
    {
        if a_empty && b_empty {
            BooleanOutcome::Nothing
        } else if a_empty {
            match self {
                BooleanOp::Union | BooleanOp::Exclusion => BooleanOutcome::Second,
                BooleanOp::Intersection | BooleanOp::Difference => BooleanOutcome::Nothing,
            }
        } else if b_empty {
            match self {
                BooleanOp::Union | BooleanOp::Exclusion | BooleanOp::Difference => BooleanOutcome::First,
                BooleanOp::Intersection => BooleanOutcome::Nothing,
            }
        } else {
            BooleanOutcome::Clip
        }
    }
}

/// Whether a point inside `a` (`in_a`) and/or inside `b` (`in_b`) lies in
/// the result of `op`: the set operation each name stands for.
pub open spec fn member(op: BooleanOp, in_a: bool, in_b: bool) -> bool {
    match op {
        BooleanOp::Union => in_a || in_b,
        BooleanOp::Intersection => in_a && in_b,
        BooleanOp::Difference => in_a && !in_b,
        BooleanOp::Exclusion => in_a != in_b,
    }
}

/// `First` and `Second` exchanged.
pub open spec fn swapped(o: BooleanOutcome) -> BooleanOutcome {
    match o {
        BooleanOutcome::First => BooleanOutcome::Second,
        BooleanOutcome::Second => BooleanOutcome::First,
        other => other,
    }
}

/// The shortcut outcomes are the set operations with an empty operand:
/// two empty operands give nothing; against an empty second operand the
/// result is the first operand exactly when a point of the first alone is
/// in the result (and nothing otherwise), and likewise for an empty first
/// operand; with both non-empty the clipper decides. Union, intersection
/// and exclusion do not care which operand comes first.
pub proof fn law_outcome_is_set_operation(op: BooleanOp, a_empty: bool, b_empty: bool)
    ensures
        outcome(op, true, true) == BooleanOutcome::Nothing,
        outcome(op, false, true) == if member(op, true, false) {
            BooleanOutcome::First
        } else {
            BooleanOutcome::Nothing
        },
        outcome(op, true, false) == if member(op, false, true) {
            BooleanOutcome::Second
        } else {
            BooleanOutcome::Nothing
        },
        outcome(op, false, false) == BooleanOutcome::Clip,
        (forall|x: bool, y: bool| member(op, x, y) == member(op, y, x)) ==> outcome(op, a_empty, b_empty)
            == swapped(outcome(op, b_empty, a_empty)),
{
    if forall|x: bool, y: bool| member(op, x, y) == member(op, y, x) {
        assert(op != BooleanOp::Difference) by {
            assert(member(op, true, false) == member(op, false, true));
        }
    }
}

} // verus!
