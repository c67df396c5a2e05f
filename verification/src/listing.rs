//! Line-oriented text pieces: the lines of a paragraph, how its lines are
//! flushed, the markers of a numbered list, and which bar labels a chart
//! draws.
use vstd::prelude::*;

use crate::tabular::joined;
use crate::tex_parts::views;
use crate::text::{decimal, is_lit, lower_seq, lower_vec, push_decimal, str_chars, string_from};

verus! {

/// The finished lines and the line under way after reading `s`.
pub open spec fn line_split(s: Seq<char>) -> (Seq<Seq<char>>, Seq<char>)
    decreases s.len(),
{
    if s.len() == 0 {
        (Seq::empty(), Seq::empty())
    } else {
        let (done, cur) = line_split(s.drop_last());
        if s.last() == '\n' {
            (done.push(cur), Seq::empty())
        } else {
            (done, cur.push(s.last()))
        }
    }
}

/// The pieces of `s` between newlines (`str::split('\n')`): never empty,
/// one more piece than there are newlines.
pub open spec fn lines(s: Seq<char>) -> Seq<Seq<char>> {
    line_split(s).0.push(line_split(s).1)
}

/// A line as laid out: an empty line becomes a single space.
pub open spec fn shown_line(l: Seq<char>) -> Seq<char> {
    if l.len() == 0 {
        " "@
    } else {
        l
    }
}

/// The lines of a paragraph, in order, each empty one replaced by a single
/// space so that it still takes its place.
pub fn paragraph_lines(source: &str) -> (r: Vec<String>)
    ensures
        views(r@) == lines(source@).map_values(|l: Seq<char>| shown_line(l)),
{
    let chars = str_chars(source);
    let ghost s = source@;
    let mut done: Vec<String> = Vec::new();
    let mut cur: Vec<char> = Vec::new();
    let mut i: usize = 0;
    while i < chars.len()
        invariant
            i <= chars.len(),
            chars@ == s,
            views(done@) == line_split(s.take(i as int)).0.map_values(|l: Seq<char>| shown_line(l)),
            cur@ == line_split(s.take(i as int)).1,
        decreases chars.len() - i,
    {
        proof {
            assert(s.take(i + 1).drop_last() =~= s.take(i as int));
        }
        let ghost prev = line_split(s.take(i as int));
        if chars[i] == '\n' {
            let line = if cur.len() == 0 {
                " ".to_string()
            } else {
                string_from(&cur)
            };
            assert(line@ == shown_line(cur@));
            proof {
                assert(s.take(i + 1).last() == '\n');
                assert(line_split(s.take(i + 1)) == (prev.0.push(prev.1), Seq::<char>::empty()));
            }
            let ghost old_done = done@;
            done.push(line);
            cur = Vec::new();
            proof {
                assert(views(done@) =~= views(old_done).push(shown_line(prev.1)));
                assert(prev.0.push(prev.1).map_values(|l: Seq<char>| shown_line(l)) =~= prev.0.map_values(
                    |l: Seq<char>| shown_line(l),
                ).push(shown_line(prev.1)));
                assert(views(done@) =~= line_split(s.take(i + 1)).0.map_values(
                    |l: Seq<char>| shown_line(l),
                ));
                assert(cur@ =~= line_split(s.take(i + 1)).1);
            }
        } else {
            cur.push(chars[i]);
        }
        i = i + 1;
    }
    let last = if cur.len() == 0 {
        " ".to_string()
    } else {
        string_from(&cur)
    };
    assert(last@ == shown_line(cur@));
    let ghost old_done = done@;
    done.push(last);
    proof {
        let fin = line_split(s.take(chars@.len() as int));
        assert(views(done@) =~= views(old_done).push(shown_line(fin.1)));
        assert(fin.0.push(fin.1).map_values(|l: Seq<char>| shown_line(l)) =~= fin.0.map_values(
            |l: Seq<char>| shown_line(l),
        ).push(shown_line(fin.1)));
        assert(s.take(chars@.len() as int) =~= s);
        assert(views(done@) =~= lines(s).map_values(|l: Seq<char>| shown_line(l)));
    }
    done
}

/// Splitting a text into lines loses nothing: joining the lines with
/// newlines gives the text back, and no line holds a newline.
pub proof fn law_lines_rejoin(s: Seq<char>)
    ensures
        joined(lines(s), "\n"@) == s,
        forall|k: int, j: int|
            0 <= k < lines(s).len() && 0 <= j < lines(s)[k].len() ==> #[trigger] lines(s)[k][j]
                != '\n',
    decreases s.len(),
{
    reveal_strlit("\n");
    if s.len() == 0 {
        assert(lines(s) =~= seq![Seq::<char>::empty()]);
    } else {
        let t = s.drop_last();
        law_lines_rejoin(t);
        let (d, c) = line_split(t);
        assert(lines(t) == d.push(c));
        assert(s =~= t.push(s.last()));
        if s.last() == '\n' {
            assert(lines(s) == d.push(c).push(Seq::<char>::empty()));
            assert(lines(s).drop_last() =~= d.push(c));
            assert(joined(lines(s), "\n"@) =~= t + "\n"@ + Seq::<char>::empty());
            assert forall|k: int, j: int|
                0 <= k < lines(s).len() && 0 <= j < lines(s)[k].len() implies #[trigger] lines(
                s,
            )[k][j] != '\n' by {
                assert(lines(s)[k] == lines(t)[k]);
            }
        } else {
            let x = s.last();
            assert(lines(s) == d.push(c.push(x)));
            assert(lines(s).drop_last() =~= d);
            if d.len() == 0 {
                assert(lines(t) =~= seq![c]);
                assert(lines(s) =~= seq![c.push(x)]);
            } else {
                assert(lines(t).drop_last() =~= d);
                assert(joined(lines(s), "\n"@) =~= joined(d, "\n"@) + "\n"@ + c.push(x));
                assert(joined(lines(t), "\n"@) =~= joined(d, "\n"@) + "\n"@ + c);
            }
            assert(joined(lines(s), "\n"@) =~= t.push(x));
            assert forall|k: int, j: int|
                0 <= k < lines(s).len() && 0 <= j < lines(s)[k].len() implies #[trigger] lines(
                s,
            )[k][j] != '\n' by {
                if k < d.len() {
                    assert(lines(s)[k] == lines(t)[k]);
                } else if j < c.len() {
                    assert(lines(s)[k][j] == lines(t)[k][j]);
                }
            }
        }
    }
}

/// The side a paragraph's lines are flushed to.
#[derive(Clone, Copy, Debug, PartialEq, Eq, Structural)]
pub enum Flush {
    Left,
    Right,
}

/// The side an alignment word names, in any ASCII case; other words keep
/// the lines centred.
pub open spec fn flush_named(s: Seq<char>) -> Option<Flush> {
    if lower_seq(s) == "left"@ {
        Some(Flush::Left)
    } else if lower_seq(s) == "right"@ {
        Some(Flush::Right)
    } else {
        None
    }
}

/// Reads a paragraph alignment (`"left"` or `"right"`, any ASCII case).
pub fn parse_flush(align: &str) -> (r: Option<Flush>)
    ensures
        r == flush_named(align@),
{
    let key = lower_vec(&str_chars(align));
    if is_lit(&key, "left") {
        Some(Flush::Left)
    } else if is_lit(&key, "right") {
        Some(Flush::Right)
    } else {
        None
    }
}

/// The marker of item `i` (from 0) of a numbered list: `"1."`, `"2."`, ...
pub fn numbered_marker(i: usize) -> (r: String)
    requires
        i < usize::MAX,
    ensures
        r@ == decimal((i + 1) as nat) + "."@,
{
    let mut out: Vec<char> = Vec::new();
    push_decimal(&mut out, (i + 1) as u64);
    out.push('.');
    proof {
        reveal_strlit(".");
        assert(out@ =~= decimal((i + 1) as nat) + "."@);
    }
    string_from(&out)
}

/// The labels a bar chart draws, in order: one per non-empty name, with
/// its index and whether a bar of that index exists to sit under.
pub open spec fn label_plan(names: Seq<Seq<char>>, bars: nat) -> Seq<(usize, bool)>
    decreases names.len(),
{
    if names.len() == 0 {
        Seq::empty()
    } else {
        let rest = label_plan(names.drop_last(), bars);
        let i = names.len() - 1;
        if names.last().len() == 0 {
            rest
        } else {
            rest.push((i as usize, i < bars))
        }
    }
}

/// Which names of a bar chart get a label, and which of those have a bar.
pub fn bar_label_plan(names: &[String], bars: usize) -> (r: Vec<(usize, bool)>)
    ensures
        r@ == label_plan(views(names@), bars as nat),
{
    let ghost all = views(names@);
    let mut out: Vec<(usize, bool)> = Vec::new();
    let mut i: usize = 0;
    while i < names.len()
        invariant
            i <= names.len(),
            all == views(names@),
            out@ == label_plan(all.take(i as int), bars as nat),
        decreases names.len() - i,
    {
        proof {
            assert(all.take(i + 1).drop_last() =~= all.take(i as int));
        }
        if !names[i].as_str().is_empty() {
            out.push((i, i < bars));
        }
        i = i + 1;
    }
    proof {
        assert(all.take(names@.len() as int) =~= all);
    }
    out
}

} // verus!
