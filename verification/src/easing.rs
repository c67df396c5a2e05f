//! Easing curves, named as the authoring API spells them.
//!
//! The curves themselves are real-valued (`t in [0, 1]`); this module holds
//! the curve identities and the name parser.
use vstd::prelude::*;

use crate::text::{is_lit, lower, lower_seq, str_chars, to_lower};

verus! {

/// Which rate function an animation uses.
#[derive(Clone, Copy, Debug, PartialEq, Eq, Structural)]
pub enum Easing {
    Linear,
    /// Manim's default: smoothstep.
    Smooth,
    EaseInCubic,
    EaseOutCubic,
    EaseInOutCubic,
    /// Manim `there_and_back`: 0 to 1 to 0, smoothed. Used by Indicate.
    ThereAndBack,
}

impl Default for Easing {
    /// Manim's default rate function is smoothstep.
    fn default() -> (e: Self)
        ensures
            e == Easing::Smooth,
    {
        Easing::Smooth
    }
}

/// The easing a folded name selects.
pub open spec fn easing_named(k: Seq<char>) -> Option<Easing> {
    if k == "linear"@ {
        Some(Easing::Linear)
    } else if k == "smooth"@ {
        Some(Easing::Smooth)
    } else if k == "ease_in"@ || k == "ease_in_cubic"@ {
        Some(Easing::EaseInCubic)
    } else if k == "ease_out"@ || k == "ease_out_cubic"@ {
        Some(Easing::EaseOutCubic)
    } else if k == "ease_in_out"@ || k == "ease_in_out_cubic"@ {
        Some(Easing::EaseInOutCubic)
    } else if k == "there_and_back"@ {
        Some(Easing::ThereAndBack)
    } else if k == "rush_into"@ {
        Some(Easing::EaseInCubic)
    } else if k == "rush_from"@ {
        Some(Easing::EaseOutCubic)
    } else {
        None
    }
}

/// A char as `str::to_lowercase` folds it, as far as that can reach an
/// ASCII name: ASCII letters to lowercase, and the Kelvin sign (U+212A), the
/// one non-ASCII char whose lowercase is ASCII, to `k`. Every other char is
/// kept; its lowercase is not ASCII either, so neither matches a name.
pub open spec fn name_fold(c: char) -> char {
    if c == '\u{212A}' {
        'k'
    } else {
        lower(c)
    }
}

/// `name_fold` on every char.
pub open spec fn name_folded(s: Seq<char>) -> Seq<char> {
    s.map_values(|c: char| name_fold(c))
}

/// Parse an easing name, ignoring case as `str::to_lowercase` does (every
/// easing name is ASCII, so `name_fold` decides the same matches). `None`
/// for an unknown name.
pub fn parse_easing(s: &str) -> (e: Option<Easing>)
    ensures
        e == easing_named(name_folded(s@)),
{
    let v = str_chars(s);
    let mut k: Vec<char> = Vec::new();
    let mut i: usize = 0;
    while i < v.len()
        invariant
            i <= v.len(),
            k@ == name_folded(v@.subrange(0, i as int)),
        decreases v.len() - i,
    {
        let c = v[i];
        let f = if c == '\u{212A}' {
            'k'
        } else {
            to_lower(c)
        };
        k.push(f);
        proof {
            assert(name_folded(v@.subrange(0, i + 1)) =~= name_folded(v@.subrange(0, i as int)).push(
                name_fold(v@[i as int]),
            ));
        }
        i = i + 1;
    }
    proof {
        assert(v@.subrange(0, v@.len() as int) =~= v@);
    }
    if is_lit(&k, "linear") {
        Some(Easing::Linear)
    } else if is_lit(&k, "smooth") {
        Some(Easing::Smooth)
    } else if is_lit(&k, "ease_in") || is_lit(&k, "ease_in_cubic") {
        Some(Easing::EaseInCubic)
    } else if is_lit(&k, "ease_out") || is_lit(&k, "ease_out_cubic") {
        Some(Easing::EaseOutCubic)
    } else if is_lit(&k, "ease_in_out") || is_lit(&k, "ease_in_out_cubic") {
        Some(Easing::EaseInOutCubic)
    } else if is_lit(&k, "there_and_back") {
        Some(Easing::ThereAndBack)
    } else if is_lit(&k, "rush_into") {
        Some(Easing::EaseInCubic)
    } else if is_lit(&k, "rush_from") {
        Some(Easing::EaseOutCubic)
    } else {
        None
    }
}

/// The Manim name of each easing.
pub open spec fn easing_name(e: Easing) -> Seq<char> {
    match e {
        Easing::Linear => "linear"@,
        Easing::Smooth => "smooth"@,
        Easing::EaseInCubic => "ease_in_cubic"@,
        Easing::EaseOutCubic => "ease_out_cubic"@,
        Easing::EaseInOutCubic => "ease_in_out_cubic"@,
        Easing::ThereAndBack => "there_and_back"@,
    }
}

/// Lowercase ASCII names fold to themselves.
proof fn lemma_fold_plain(s: Seq<char>)
    requires
        forall|k: int| 0 <= k < s.len() ==> ('a' <= #[trigger] s[k] && s[k] <= 'z') || s[k] == '_',
    ensures
        name_folded(s) == s,
{
    assert(name_folded(s) =~= s);
}

/// Names equal up to ASCII case fold alike.
proof fn lemma_fold_ignores_case(s: Seq<char>, t: Seq<char>)
    requires
        lower_seq(s) == lower_seq(t),
    ensures
        name_folded(s) == name_folded(t),
{
    assert(s.len() == lower_seq(s).len() && t.len() == lower_seq(t).len());
    assert forall|k: int| 0 <= k < s.len() implies name_fold(#[trigger] s[k]) == name_fold(t[k]) by {
        assert(lower_seq(s)[k] == lower(s[k]));
        assert(lower_seq(t)[k] == lower(t[k]));
        if 'A' <= s[k] && s[k] <= 'Z' {
            assert((s[k] as u32) + 32 <= 0x7a);
        }
        if 'A' <= t[k] && t[k] <= 'Z' {
            assert((t[k] as u32) + 32 <= 0x7a);
        }
    }
    assert(name_folded(s) =~= name_folded(t));
}

/// Every easing is selected by its own name (so the default, `smooth`, is
/// reachable by name), the short names pick the cubic curves, and a name's
/// ASCII case never changes the easing it selects.
pub proof fn law_easing_names(e: Easing, s: Seq<char>, t: Seq<char>)
    ensures
        easing_named(name_folded(easing_name(e))) == Some(e),
        easing_named(name_folded("ease_in"@)) == Some(Easing::EaseInCubic),
        easing_named(name_folded("ease_out"@)) == Some(Easing::EaseOutCubic),
        easing_named(name_folded("ease_in_out"@)) == Some(Easing::EaseInOutCubic),
        easing_named(name_folded("rush_into"@)) == Some(Easing::EaseInCubic),
        easing_named(name_folded("rush_from"@)) == Some(Easing::EaseOutCubic),
        lower_seq(s) == lower_seq(t) ==> easing_named(name_folded(s)) == easing_named(
            name_folded(t),
        ),
{
    reveal_strlit("linear");
    reveal_strlit("smooth");
    reveal_strlit("ease_in");
    reveal_strlit("ease_in_cubic");
    reveal_strlit("ease_out");
    reveal_strlit("ease_out_cubic");
    reveal_strlit("ease_in_out");
    reveal_strlit("ease_in_out_cubic");
    reveal_strlit("there_and_back");
    reveal_strlit("rush_into");
    reveal_strlit("rush_from");
    lemma_fold_plain(easing_name(e));
    assert("smooth"@ != "linear"@) by {
        assert("smooth"@[0] != "linear"@[0]);
    }
    assert("rush_from"@ != "rush_into"@) by {
        assert("rush_from"@[5] != "rush_into"@[5]);
    }
    match e {
        Easing::Linear => {},
        Easing::Smooth => {},
        Easing::EaseInCubic => {},
        Easing::EaseOutCubic => {},
        Easing::EaseInOutCubic => {},
        Easing::ThereAndBack => {
            assert("there_and_back"@ != "ease_out_cubic"@) by {
                assert("there_and_back"@[0] != "ease_out_cubic"@[0]);
            }
        },
    }
    lemma_fold_plain("ease_in"@);
    lemma_fold_plain("ease_out"@);
    lemma_fold_plain("ease_in_out"@);
    lemma_fold_plain("rush_into"@);
    lemma_fold_plain("rush_from"@);
    if lower_seq(s) == lower_seq(t) {
        lemma_fold_ignores_case(s, t);
    }
}

} // verus!
