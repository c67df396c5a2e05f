//! Authoring-time MathTex part splits (`{{...}}` markers and multi-string
//! sources). These run once when a formula is built; frames only ever see
//! the resulting named groups.
use vstd::prelude::*;

use crate::text::{str_chars, string_from_range, trim, trim_bounds};

verus! {

/// First index `k` with `s[k] == a && s[k + 1] == b` (`str::find` of a
/// two-char pattern).
pub open spec fn find_pair(s: Seq<char>, a: char, b: char) -> Option<int>
    decreases s.len(),
{
    if s.len() < 2 {
        None
    } else if s[0] == a && s[1] == b {
        Some(0)
    } else {
        match find_pair(s.drop_first(), a, b) {
            Some(k) => Some(k + 1),
            None => None,
        }
    }
}

pub open spec fn pair_at(s: Seq<char>, k: int, a: char, b: char) -> bool {
    0 <= k && k + 1 < s.len() && s[k] == a && s[k + 1] == b
}

pub proof fn lemma_find_pair(s: Seq<char>, a: char, b: char)
    ensures
        match find_pair(s, a, b) {
            Some(k) => pair_at(s, k, a, b) && forall|j: int| 0 <= j < k ==> !pair_at(s, j, a, b),
            None => forall|j: int| !pair_at(s, j, a, b),
        },
    decreases s.len(),
{
    if s.len() >= 2 && !(s[0] == a && s[1] == b) {
        let t = s.drop_first();
        lemma_find_pair(t, a, b);
        match find_pair(t, a, b) {
            Some(k) => {
                assert forall|j: int| 0 <= j < k + 1 implies !pair_at(s, j, a, b) by {
                    if j > 0 {
                        assert(!pair_at(t, j - 1, a, b));
                    }
                }
            },
            None => {
                assert forall|j: int| !pair_at(s, j, a, b) by {
                    if j > 0 {
                        assert(!pair_at(t, j - 1, a, b));
                    }
                }
            },
        }
    }
}

/// Search `v[from..]` for the pair; returns an absolute index.
pub fn find_pair_from(v: &[char], from: usize, a: char, b: char) -> (r: Option<usize>)
    requires
        from <= v.len(),
    ensures
        match find_pair(v@.subrange(from as int, v@.len() as int), a, b) {
            Some(k) => r == Some((from + k) as usize),
            None => r is None,
        },
{
    let ghost t = v@.subrange(from as int, v@.len() as int);
    proof {
        lemma_find_pair(t, a, b);
    }
    let mut i = from;
    while v.len() > 0 && i < v.len() - 1
        invariant
            from <= i <= v.len(),
            t == v@.subrange(from as int, v@.len() as int),
            forall|j: int| 0 <= j < i - from ==> !pair_at(t, j, a, b),
        decreases v.len() - i,
    {
        if v[i] == a && v[i + 1] == b {
            assert(pair_at(t, i - from, a, b));
            proof {
                lemma_find_pair(t, a, b);
                match find_pair(t, a, b) {
                    Some(k) => {
                        if k < i - from {
                            assert(!pair_at(t, k, a, b));
                        }
                    },
                    None => {
                    },
                }
            }
            return Some(i);
        }
        i = i + 1;
    }
    proof {
        assert forall|j: int| !pair_at(t, j, a, b) by {
            if 0 <= j < i - from {
            }
        }
    }
    None
}

/// The parts `split_double_brace_parts` produces from `rest`; `first` is
/// true while nothing has been emitted yet.
pub open spec fn brace_parts(rest: Seq<char>, first: bool) -> Seq<Seq<char>>
    decreases rest.len(),
{
    match find_pair(rest, '{', '{') {
        None => if first || rest.len() > 0 {
            seq![rest]
        } else {
            Seq::empty()
        },
        Some(start) => {
            proof {
                lemma_find_pair(rest, '{', '{');
            }
            let before = rest.subrange(0, start);
            let pre = if before.len() > 0 {
                seq![before]
            } else {
                Seq::<Seq<char>>::empty()
            };
            let after_open = rest.subrange(start + 2, rest.len() as int);
            match find_pair(after_open, '}', '}') {
                Some(end) => {
                    proof {
                        lemma_find_pair(after_open, '}', '}');
                    }
                    pre.push(after_open.subrange(0, end)) + brace_parts(
                    after_open.subrange(end + 2, after_open.len() as int),
                    false,
                )
                },
                None => pre.push(rest.subrange(start, rest.len() as int)),
            }
        },
    }
}

/// `rest` with every matched `{{` .. `}}` marker pair taken out (an
/// unmatched `{{` and everything after it stay as they are).
pub open spec fn unmarked(rest: Seq<char>) -> Seq<char>
    decreases rest.len(),
{
    match find_pair(rest, '{', '{') {
        None => rest,
        Some(start) => {
            proof {
                lemma_find_pair(rest, '{', '{');
            }
            let after_open = rest.subrange(start + 2, rest.len() as int);
            match find_pair(after_open, '}', '}') {
                Some(end) => {
                    proof {
                        lemma_find_pair(after_open, '}', '}');
                    }
                    rest.subrange(0, start) + after_open.subrange(0, end) + unmarked(
                        after_open.subrange(end + 2, after_open.len() as int),
                    )
                },
                None => rest,
            }
        },
    }
}

/// The parts run together.
pub open spec fn run_together(parts: Seq<Seq<char>>) -> Seq<char>
    decreases parts.len(),
{
    if parts.len() == 0 {
        Seq::empty()
    } else {
        parts[0] + run_together(parts.drop_first())
    }
}

proof fn lemma_run_together_append(a: Seq<Seq<char>>, b: Seq<Seq<char>>)
    ensures
        run_together(a + b) == run_together(a) + run_together(b),
    decreases a.len(),
{
    if a.len() == 0 {
        assert(a + b =~= b);
        assert(run_together(a) =~= Seq::<char>::empty());
        assert(run_together(a + b) =~= run_together(a) + run_together(b));
    } else {
        lemma_run_together_append(a.drop_first(), b);
        assert((a + b).drop_first() =~= a.drop_first() + b);
        assert(run_together(a + b) =~= run_together(a) + run_together(b));
    }
}

proof fn lemma_run_together_one(x: Seq<char>)
    ensures
        run_together(seq![x]) == x,
{
    let one = seq![x];
    assert(one.drop_first() =~= Seq::<Seq<char>>::empty());
    assert(run_together(one.drop_first()) == Seq::<char>::empty());
    assert(one[0] == x);
    assert(run_together(one) =~= x + Seq::<char>::empty());
    assert(x + Seq::<char>::empty() =~= x);
}

/// Splitting loses no text: the parts of a source, run together, are the
/// source with its matched `{{` .. `}}` markers taken out.
pub proof fn law_parts_keep_text(rest: Seq<char>, first: bool)
    ensures
        run_together(brace_parts(rest, first)) == unmarked(rest),
    decreases rest.len(),
{
    lemma_find_pair(rest, '{', '{');
    match find_pair(rest, '{', '{') {
        None => {
            if first || rest.len() > 0 {
                lemma_run_together_one(rest);
            } else {
                assert(rest =~= Seq::<char>::empty());
            }
        },
        Some(start) => {
            let before = rest.subrange(0, start);
            let pre = if before.len() > 0 {
                seq![before]
            } else {
                Seq::<Seq<char>>::empty()
            };
            assert(run_together(pre) == before) by {
                if before.len() > 0 {
                    lemma_run_together_one(before);
                } else {
                    assert(before =~= Seq::<char>::empty());
                }
            }
            let after_open = rest.subrange(start + 2, rest.len() as int);
            lemma_find_pair(after_open, '}', '}');
            match find_pair(after_open, '}', '}') {
                Some(end) => {
                    let tail = after_open.subrange(end + 2, after_open.len() as int);
                    law_parts_keep_text(tail, false);
                    let mid = after_open.subrange(0, end);
                    lemma_run_together_append(pre, seq![mid]);
                    lemma_run_together_one(mid);
                    lemma_run_together_append(pre.push(mid), brace_parts(tail, false));
                    assert(pre + seq![mid] =~= pre.push(mid));
                },
                None => {
                    let lit = rest.subrange(start, rest.len() as int);
                    lemma_run_together_append(pre, seq![lit]);
                    lemma_run_together_one(lit);
                    assert(pre + seq![lit] =~= pre.push(lit));
                    assert(before + lit =~= rest);
                },
            }
        },
    }
}

pub open spec fn views(v: Seq<String>) -> Seq<Seq<char>> {
    v.map_values(|s: String| s@)
}

/// Split one string on `{{...}}` markers.
/// `"a {{b}} c"` gives `["a ", "b", " c"]`, `"no braces"` gives
/// `["no braces"]`, `"{{only}}"` gives `["only"]`; an unmatched `{{` keeps
/// the remainder as one literal part.
#[verifier::rlimit(80)]
pub fn split_double_brace_parts(source: &str) -> (parts: Vec<String>)
    ensures
        views(parts@) == brace_parts(source@, true),
{
    let v = str_chars(source);
    let mut parts: Vec<String> = Vec::new();
    let mut pos: usize = 0;
    proof {
        assert(v@.subrange(0, v@.len() as int) =~= source@);
        assert(views(parts@) =~= Seq::<Seq<char>>::empty());
    }
    loop
        invariant
            pos <= v.len(),
            v@ == source@,
            views(parts@) + brace_parts(v@.subrange(pos as int, v@.len() as int), parts.len() == 0)
                == brace_parts(source@, true),
        decreases v.len() - pos,
    {
        let ghost rest = v@.subrange(pos as int, v@.len() as int);
        let ghost old_parts = parts@;
        proof {
            lemma_find_pair(rest, '{', '{');
        }
        match find_pair_from(&v, pos, '{', '{') {
            None => {
                if parts.len() == 0 || pos < v.len() {
                    parts.push(string_from_range(&v, pos, v.len()));
                    proof {
                        assert(views(parts@) =~= views(old_parts) + seq![rest]);
                    }
                } else {
                    proof {
                        assert(rest.len() == 0);
                        assert(brace_parts(rest, false) =~= Seq::<Seq<char>>::empty());
                        assert(views(parts@) =~= views(old_parts) + Seq::<Seq<char>>::empty());
                    }
                }
                return parts;
            },
            Some(start) => {
                let ghost k = start - pos;
                if start > pos {
                    parts.push(string_from_range(&v, pos, start));
                }
                let ghost pre = if start > pos {
                    seq![rest.subrange(0, k)]
                } else {
                    Seq::<Seq<char>>::empty()
                };
                proof {
                    assert(rest.subrange(0, k) =~= v@.subrange(pos as int, start as int));
                    assert(views(parts@) =~= views(old_parts) + pre);
                }
                let ghost after_open = rest.subrange(k + 2, rest.len() as int);
                proof {
                    assert(after_open =~= v@.subrange(start + 2, v@.len() as int));
                    lemma_find_pair(after_open, '}', '}');
                }
                match find_pair_from(&v, start + 2, '}', '}') {
                    Some(end) => {
                        let ghost e = end - (start + 2);
                        parts.push(string_from_range(&v, start + 2, end));
                        proof {
                            assert(after_open.subrange(0, e) =~= v@.subrange(
                                start + 2,
                                end as int,
                            ));
                            assert(after_open.subrange(e + 2, after_open.len() as int)
                                =~= v@.subrange(end + 2, v@.len() as int));
                            assert(views(parts@) =~= views(old_parts) + pre.push(
                                after_open.subrange(0, e),
                            ));
                            assert(views(parts@) + brace_parts(
                                v@.subrange(end + 2, v@.len() as int),
                                false,
                            ) =~= views(old_parts) + (pre.push(after_open.subrange(0, e))
                                + brace_parts(
                                after_open.subrange(e + 2, after_open.len() as int),
                                false,
                            )));
                        }
                        pos = end + 2;
                    },
                    None => {
                        parts.push(string_from_range(&v, start, v.len()));
                        proof {
                            assert(rest.subrange(k, rest.len() as int) =~= v@.subrange(
                                start as int,
                                v@.len() as int,
                            ));
                            assert(views(parts@) =~= views(old_parts) + pre.push(
                                rest.subrange(k, rest.len() as int),
                            ));
                        }
                        return parts;
                    },
                }
            },
        }
    }
}

/// Concatenation of the brace splits of every source.
pub open spec fn flat_parts(sources: Seq<Seq<char>>) -> Seq<Seq<char>>
    decreases sources.len(),
{
    if sources.len() == 0 {
        Seq::empty()
    } else {
        flat_parts(sources.drop_last()) + brace_parts(sources.last(), true)
    }
}

/// Flatten a list of sources, expanding `{{ }}` in each.
/// An empty list gives one empty part.
pub fn expand_tex_parts(sources: &[String]) -> (parts: Vec<String>)
    ensures
        views(parts@) == if sources@.len() == 0 {
            seq![Seq::<char>::empty()]
        } else {
            flat_parts(views(sources@))
        },
{
    if sources.len() == 0 {
        let mut out: Vec<String> = Vec::new();
        out.push(String::new());
        proof {
            assert(views(out@) =~= seq![Seq::<char>::empty()]);
        }
        return out;
    }
    let mut out: Vec<String> = Vec::new();
    let mut i: usize = 0;
    while i < sources.len()
        invariant
            i <= sources.len(),
            views(out@) == flat_parts(views(sources@).subrange(0, i as int)),
        decreases sources.len() - i,
    {
        let mut split = split_double_brace_parts(sources[i].as_str());
        let ghost before = out@;
        let ghost sp = split@;
        out.append(&mut split);
        proof {
            let s = views(sources@).subrange(0, i + 1);
            assert(s.drop_last() =~= views(sources@).subrange(0, i as int));
            assert(s.last() == sources@[i as int]@);
            assert(views(out@) =~= views(before) + views(sp));
        }
        i = i + 1;
    }
    proof {
        assert(views(sources@).subrange(0, sources@.len() as int) =~= views(sources@));
    }
    out
}

/// The parts that are not blank once trimmed, in order.
pub open spec fn nonblank(parts: Seq<Seq<char>>) -> Seq<Seq<char>>
    decreases parts.len(),
{
    if parts.len() == 0 {
        Seq::empty()
    } else {
        nonblank(parts.drop_last()) + if trim(parts.last()).len() > 0 {
            seq![parts.last()]
        } else {
            Seq::empty()
        }
    }
}

/// Whether a part is blank once trimmed.
fn is_blank(s: &String) -> (r: bool)
    ensures
        r == (trim(s@).len() == 0),
{
    let v = str_chars(s.as_str());
    let (lo, hi) = trim_bounds(&v, 0, v.len());
    proof {
        assert(v@.subrange(0, v@.len() as int) =~= v@);
    }
    lo == hi
}

/// Drop blank parts; when every part is blank, keep one empty part so the
/// formula still has a group to compile.
pub fn keep_tex_parts(parts: Vec<String>) -> (r: Vec<String>)
    ensures
        views(r@) == if nonblank(views(parts@)).len() > 0 {
            nonblank(views(parts@))
        } else {
            seq![Seq::<char>::empty()]
        },
{
    let mut out: Vec<String> = Vec::new();
    let mut i: usize = 0;
    while i < parts.len()
        invariant
            i <= parts.len(),
            views(out@) == nonblank(views(parts@).subrange(0, i as int)),
        decreases parts.len() - i,
    {
        let ghost before = out@;
        if !is_blank(&parts[i]) {
            out.push(parts[i].clone());
            proof {
                assert(views(out@) =~= views(before).push(parts@[i as int]@));
            }
        }
        proof {
            let p = views(parts@).subrange(0, i + 1);
            assert(p.drop_last() =~= views(parts@).subrange(0, i as int));
            assert(p.last() == parts@[i as int]@);
        }
        i = i + 1;
    }
    proof {
        assert(views(parts@).subrange(0, parts@.len() as int) =~= views(parts@));
    }
    if out.len() == 0 {
        let mut one: Vec<String> = Vec::new();
        one.push(String::new());
        proof {
            assert(views(one@) =~= seq![Seq::<char>::empty()]);
        }
        return one;
    }
    out
}

/// A source without a `{{` marker is one part: itself.
pub proof fn law_no_marker_one_part(s: Seq<char>)
    requires
        forall|k: int| !pair_at(s, k, '{', '{'),
    ensures
        brace_parts(s, true) == seq![s],
{
    lemma_find_pair(s, '{', '{');
    if find_pair(s, '{', '{') is Some {
        let k = find_pair(s, '{', '{')->0;
        assert(pair_at(s, k, '{', '{'));
    }
}

/// Kept parts are never empty as a list, and none is blank unless the
/// list is the single empty part.
pub proof fn law_kept_parts(parts: Seq<Seq<char>>)
    ensures
        ({
            let kept = if nonblank(parts).len() > 0 {
                nonblank(parts)
            } else {
                seq![Seq::<char>::empty()]
            };
            &&& kept.len() > 0
            &&& kept == seq![Seq::<char>::empty()] || forall|i: int|
                0 <= i < kept.len() ==> trim(#[trigger] kept[i]).len() > 0
        }),
{
    lemma_nonblank(parts);
}

/// Every part `nonblank` keeps is non-blank.
proof fn lemma_nonblank(parts: Seq<Seq<char>>)
    ensures
        forall|i: int| 0 <= i < nonblank(parts).len() ==> trim(#[trigger] nonblank(parts)[i]).len() > 0,
    decreases parts.len(),
{
    if parts.len() > 0 {
        lemma_nonblank(parts.drop_last());
        let prev = nonblank(parts.drop_last());
        assert forall|i: int| 0 <= i < nonblank(parts).len() implies trim(#[trigger] nonblank(parts)[i]).len() > 0 by {
            if i < prev.len() {
                assert(nonblank(parts)[i] == prev[i]);
            }
        }
    }
}

} // verus!
