//! Pango attribute values rewritten as Typst arguments: colors and font
//! sizes.
use vstd::prelude::*;

use crate::palette::{color_key, named_chars, palette_color};
use crate::scan::digits_value;
use crate::tenths::{one_decimal_per_1024, push_one_decimal_per_1024};
use crate::text::{
    decimal, extend_all, extend_range, lower, lower_seq, lower_vec, push_decimal, str_chars, trim,
    trim_bounds,
};

verus! {

pub open spec fn is_ascii_alnum(c: char) -> bool {
    ('0' <= c && c <= '9') || ('a' <= c && c <= 'z') || ('A' <= c && c <= 'Z')
}

/// The ASCII letters and digits of `s`, in order.
pub open spec fn keep_alnum(s: Seq<char>) -> Seq<char>
    decreases s.len(),
{
    if s.len() == 0 {
        Seq::empty()
    } else if is_ascii_alnum(s.last()) {
        keep_alnum(s.drop_last()).push(s.last())
    } else {
        keep_alnum(s.drop_last())
    }
}

/// A Pango color as a Typst color expression: `#hex` becomes
/// `rgb("#hex")`, a palette name becomes `rgb(r, g, b)`, anything else is
/// passed on as a lowercased identifier of its ASCII letters and digits.
pub open spec fn color_to_typst(s: Seq<char>) -> Seq<char> {
    let t = trim(s);
    if t.len() > 0 && t[0] == '#' {
        "rgb(\""@ + t + "\")"@
    } else {
        match palette_color(color_key(t)) {
            Some(c) => "rgb("@ + decimal(c.r as nat) + ", "@ + decimal(c.g as nat) + ", "@ + decimal(
                c.b as nat,
            ) + ")"@,
            None => keep_alnum(lower_seq(t)),
        }
    }
}

fn push_lit(out: &mut Vec<char>, lit: &str)
    ensures
        final(out)@ == old(out)@ + lit@,
{
    let l = str_chars(lit);
    extend_all(out, &l);
}

/// Appends `color_to_typst(s)`.
pub fn push_color_to_typst(out: &mut Vec<char>, s: &[char])
    ensures
        final(out)@ == old(out)@ + color_to_typst(s@),
{
    let (lo, hi) = trim_bounds(s, 0, s.len());
    proof {
        assert(s@.subrange(0, s@.len() as int) =~= s@);
    }
    let t = &s[lo..hi];
    let ghost old_out = out@;
    if t.len() > 0 && t[0] == '#' {
        push_lit(out, "rgb(\"");
        extend_all(out, t);
        push_lit(out, "\")");
        proof {
            assert(out@ =~= old_out + color_to_typst(s@));
        }
        return;
    }
    match named_chars(t) {
        Some(c) => {
            push_lit(out, "rgb(");
            push_decimal(out, c.r as u64);
            push_lit(out, ", ");
            push_decimal(out, c.g as u64);
            push_lit(out, ", ");
            push_decimal(out, c.b as u64);
            push_lit(out, ")");
            proof {
                assert(out@ =~= old_out + color_to_typst(s@));
            }
        },
        None => {
            let l = lower_vec(t);
            let mut i: usize = 0;
            while i < l.len()
                invariant
                    i <= l.len(),
                    out@ == old_out + keep_alnum(l@.subrange(0, i as int)),
                decreases l.len() - i,
            {
                let c = l[i];
                proof {
                    assert(l@.subrange(0, i + 1).drop_last() =~= l@.subrange(0, i as int));
                }
                if ('0' <= c && c <= '9') || ('a' <= c && c <= 'z') || ('A' <= c && c <= 'Z') {
                    out.push(c);
                }
                i = i + 1;
            }
            proof {
                assert(l@.subrange(0, l@.len() as int) =~= l@);
            }
        },
    }
}

pub open spec fn all_digits(s: Seq<char>) -> bool {
    forall|i: int| 0 <= i < s.len() ==> '0' <= #[trigger] s[i] && s[i] <= '9'
}

proof fn lemma_all_digits_valid(s: Seq<char>)
    requires
        all_digits(s),
    ensures
        digits_value(s, 10) is Some,
    decreases s.len(),
{
    if s.len() > 0 {
        let t = s.drop_last();
        assert forall|i: int| 0 <= i < t.len() implies '0' <= #[trigger] t[i] && t[i] <= '9' by {
            assert(t[i] == s[i]);
        }
        lemma_all_digits_valid(t);
        assert('0' <= s[s.len() - 1] <= '9');
    }
}

/// A Pango font size as a Typst length: the named sizes map to `em`
/// factors, `<n>pt` passes through, a bare number counts 1024ths of a point
/// when above 64 (written with one decimal) and points otherwise, and
/// anything else becomes `1em`.
pub open spec fn pango_size_to_typst(size: Seq<char>) -> Seq<char> {
    let l = lower_seq(trim(size));
    if l == "xx-small"@ {
        "0.6em"@
    } else if l == "x-small"@ {
        "0.75em"@
    } else if l == "small"@ {
        "0.85em"@
    } else if l == "medium"@ {
        "1em"@
    } else if l == "large"@ {
        "1.2em"@
    } else if l == "x-large"@ {
        "1.4em"@
    } else if l == "xx-large"@ {
        "1.7em"@
    } else if l.len() >= 2 && l[l.len() - 2] == 'p' && l[l.len() - 1] == 't' {
        trim(l.subrange(0, l.len() - 2)) + "pt"@
    } else if all_digits(l) {
        let d = digits_value(l, 10)->0;
        if d > 64 {
            one_decimal_per_1024(d) + "pt"@
        } else {
            l + "pt"@
        }
    } else {
        "1em"@
    }
}

/// Appends `pango_size_to_typst(size)`.
pub fn push_pango_size(out: &mut Vec<char>, size: &[char])
    ensures
        final(out)@ == old(out)@ + pango_size_to_typst(size@),
{
    let (lo, hi) = trim_bounds(size, 0, size.len());
    proof {
        assert(size@.subrange(0, size@.len() as int) =~= size@);
    }
    let l = lower_vec(&size[lo..hi]);
    let ghost old_out = out@;
    if crate::text::is_lit(&l, "xx-small") {
        push_lit(out, "0.6em");
    } else if crate::text::is_lit(&l, "x-small") {
        push_lit(out, "0.75em");
    } else if crate::text::is_lit(&l, "small") {
        push_lit(out, "0.85em");
    } else if crate::text::is_lit(&l, "medium") {
        push_lit(out, "1em");
    } else if crate::text::is_lit(&l, "large") {
        push_lit(out, "1.2em");
    } else if crate::text::is_lit(&l, "x-large") {
        push_lit(out, "1.4em");
    } else if crate::text::is_lit(&l, "xx-large") {
        push_lit(out, "1.7em");
    } else if l.len() >= 2 && l[l.len() - 2] == 'p' && l[l.len() - 1] == 't' {
        let (a, b) = trim_bounds(&l, 0, l.len() - 2);
        extend_range(out, &l, a, b);
        push_lit(out, "pt");
    } else {
        let mut all = true;
        let mut i: usize = 0;
        while i < l.len()
            invariant
                i <= l.len(),
                all == (forall|j: int| 0 <= j < i ==> '0' <= #[trigger] l@[j] && l@[j] <= '9'),
            decreases l.len() - i,
        {
            if !('0' <= l[i] && l[i] <= '9') {
                all = false;
            }
            i = i + 1;
        }
        if all {
            proof {
                lemma_all_digits_valid(l@);
            }
            if exceeds_64(&l) {
                push_one_decimal_per_1024(out, &l);
                push_lit(out, "pt");
            } else {
                extend_all(out, &l);
                push_lit(out, "pt");
            }
        } else {
            push_lit(out, "1em");
        }
    }
}

/// Whether a digit string's value exceeds 64.
fn exceeds_64(l: &[char]) -> (b: bool)
    requires
        digits_value(l@, 10) is Some,
    ensures
        b == (digits_value(l@, 10)->0 > 64),
{
    // Compare with a running value capped just above the threshold.
    let mut acc: u32 = 0;
    let mut i: usize = 0;
    proof {
        assert(l@.subrange(0, 0) =~= Seq::<char>::empty());
    }
    while i < l.len()
        invariant
            i <= l.len(),
            digits_value(l@, 10) is Some,
            digits_value(l@.subrange(0, i as int), 10) is Some,
            acc <= 65,
            acc == (if digits_value(l@.subrange(0, i as int), 10)->0 > 64 {
                65
            } else {
                digits_value(l@.subrange(0, i as int), 10)->0
            }),
        decreases l.len() - i,
    {
        let ghost p = l@.subrange(0, i + 1);
        proof {
            assert(p.drop_last() =~= l@.subrange(0, i as int));
            lemma_prefix_value(l@, i + 1);
        }
        let d = (l[i] as u32) - ('0' as u32);
        let next = acc * 10 + d;
        acc = if next > 64 {
            65
        } else {
            next
        };
        i = i + 1;
    }
    proof {
        assert(l@.subrange(0, l@.len() as int) =~= l@);
    }
    acc > 64
}

proof fn lemma_prefix_value(s: Seq<char>, k: int)
    requires
        0 <= k <= s.len(),
        digits_value(s, 10) is Some,
    ensures
        digits_value(s.subrange(0, k), 10) is Some,
    decreases s.len(),
{
    if k < s.len() {
        assert(s.subrange(0, k) =~= s.drop_last().subrange(0, k));
        lemma_prefix_value(s.drop_last(), k);
    } else {
        assert(s.subrange(0, k) =~= s);
    }
}

} // verus!
