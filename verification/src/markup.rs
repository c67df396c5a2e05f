//! Authoring-time Pango markup to Typst markup.
//!
//! ManimCE `MarkupText` is Pango. Formulas and text are compiled by Typst,
//! so a small tag subset is rewritten here, once, when text is authored.
//! Strings without `<` or `&` pass through unchanged, so native Typst
//! markup (`*bold*`) keeps working.
use vstd::prelude::*;

use crate::markup_style::{color_to_typst, pango_size_to_typst, push_color_to_typst, push_pango_size};
use crate::scan::{
    decode_entity, decode_entity_of, escape_plain, find_first, find_in, lemma_find_first,
    push_escaped, Class,
};
use crate::text::{
    eq_ignore_case, extend_all, lead_ws, lemma_lead_ws, lemma_trail_ws, lower_seq, lower_vec,
    seq_eq_ignore_case, slice_vec, str_chars, string_from, trail_ws, trim, trim_bounds, trim_start,
};

verus! {

/// A parsed tag, as plain sequences.
pub enum TagSpec {
    Open { name: Seq<char>, attrs: Seq<(Seq<char>, Seq<char>)>, self_closing: bool },
    Close { name: Seq<char> },
}

pub proof fn lemma_trim_len(s: Seq<char>)
    ensures
        trim_start(s).len() <= s.len(),
        trim(s).len() <= s.len(),
{
    lemma_lead_ws(s);
    lemma_trail_ws(trim_start(s));
}

/// A quoted or bare attribute value at the start of `v`, and what follows
/// it.
pub open spec fn attr_value(v: Seq<char>) -> (Seq<char>, Seq<char>) {
    if v.len() > 0 && (v[0] == '"' || v[0] == '\'') {
        let body = v.drop_first();
        match find_first(body, Class::Ch(v[0])) {
            Some(end) => (body.subrange(0, end), body.subrange(end + 1, body.len() as int)),
            None => (body, Seq::empty()),
        }
    } else {
        match find_first(v, Class::Ws) {
            Some(end) => (v.subrange(0, end), v.subrange(end, v.len() as int)),
            None => (v, Seq::empty()),
        }
    }
}

pub proof fn lemma_attr_value_len(v: Seq<char>)
    ensures
        attr_value(v).1.len() <= v.len(),
{
    if v.len() > 0 && (v[0] == '"' || v[0] == '\'') {
        lemma_find_first(v.drop_first(), Class::Ch(v[0]));
    } else {
        lemma_find_first(v, Class::Ws);
    }
}

/// `key=value` pairs of a tag, in order. Parsing stops at the first
/// segment without `=` or with an empty key.
pub open spec fn parse_attrs(src: Seq<char>) -> Seq<(Seq<char>, Seq<char>)>
    decreases src.len(),
{
    if src.len() == 0 {
        Seq::empty()
    } else {
        match find_first(src, Class::Ch('=')) {
            None => Seq::empty(),
            Some(eq) => {
                proof {
                    lemma_find_first(src, Class::Ch('='));
                }
                let key = trim(src.subrange(0, eq));
                if key.len() == 0 {
                    Seq::empty()
                } else {
                    let v = trim_start(src.subrange(eq + 1, src.len() as int));
                    let (val, rest) = attr_value(v);
                    proof {
                        lemma_trim_len(src.subrange(eq + 1, src.len() as int));
                        lemma_attr_value_len(v);
                        lemma_trim_len(rest);
                    }
                    seq![(key, val)] + parse_attrs(trim_start(rest))
                }
            },
        }
    }
}

/// Tag name (up to the first whitespace or `=`) and the trimmed rest.
pub open spec fn split_name_attrs(inside: Seq<char>) -> (Seq<char>, Seq<char>) {
    match find_first(inside, Class::WsEq) {
        Some(e) => (inside.subrange(0, e), trim(inside.subrange(e, inside.len() as int))),
        None => (inside, Seq::empty()),
    }
}

/// `s` without its trailing `/`s.
pub open spec fn strip_slashes(s: Seq<char>) -> Seq<char>
    decreases s.len(),
{
    if s.len() > 0 && s.last() == '/' {
        strip_slashes(s.drop_last())
    } else {
        s
    }
}

/// Parse a tag at the start of `s` (which begins with `<`): the tag and
/// the index just past its `>`. The tag runs to the first `>`.
pub open spec fn parse_tag(s: Seq<char>) -> Option<(TagSpec, int)> {
    let rest = s.drop_first();
    match find_first(rest, Class::Ch('>')) {
        None => None,
        Some(close) => {
            let inside = trim(rest.subrange(0, close));
            let after = close + 2;
            if inside.len() == 0 {
                None
            } else if inside[0] == '/' {
                Some((TagSpec::Close { name: trim(inside.drop_first()) }, after))
            } else {
                let self_closing = inside.last() == '/';
                let (name, attrs_src) = split_name_attrs(trim(strip_slashes(inside)));
                if name.len() == 0 {
                    None
                } else {
                    Some(
                        (
                            TagSpec::Open { name, attrs: parse_attrs(attrs_src), self_closing },
                            after,
                        ),
                    )
                }
            }
        },
    }
}

pub proof fn lemma_parse_tag_len(s: Seq<char>)
    requires
        s.len() > 0,
    ensures
        parse_tag(s) matches Some((_, a)) ==> 3 <= a <= s.len(),
{
    lemma_find_first(s.drop_first(), Class::Ch('>'));
    match find_first(s.drop_first(), Class::Ch('>')) {
        Some(close) => {
            lemma_trim_len(s.drop_first().subrange(0, close));
        },
        None => {},
    }
}

/// Where the element whose open tag was just consumed ends in `rest`:
/// nested same-name open tags deepen, same-name close tags shallow; at
/// depth 0 the result is (end of the inner text, index past the close tag).
pub open spec fn take_inner_from(rest: Seq<char>, name: Seq<char>, i: int, depth: int) -> Option<
    (int, int),
>
    decreases rest.len() - i,
{
    if i < 0 || i >= rest.len() {
        None
    } else if rest[i] == '<' && parse_tag(rest.subrange(i, rest.len() as int)) is Some {
        let (tag, a) = parse_tag(rest.subrange(i, rest.len() as int))->0;
        proof {
            lemma_parse_tag_len(rest.subrange(i, rest.len() as int));
        }
        match tag {
            TagSpec::Open { name: n, .. } => if eq_ignore_case(n, name) {
                take_inner_from(rest, name, i + a, depth + 1)
            } else {
                take_inner_from(rest, name, i + a, depth)
            },
            TagSpec::Close { name: n } => if eq_ignore_case(n, name) {
                if depth - 1 == 0 {
                    Some((i, i + a))
                } else {
                    take_inner_from(rest, name, i + a, depth - 1)
                }
            } else {
                take_inner_from(rest, name, i + a, depth)
            },
        }
    } else {
        take_inner_from(rest, name, i + 1, depth)
    }
}

pub open spec fn take_inner(rest: Seq<char>, name: Seq<char>) -> Option<(int, int)> {
    take_inner_from(rest, name, 0, 1)
}

pub proof fn lemma_take_inner_bounds(rest: Seq<char>, name: Seq<char>, i: int, depth: int)
    requires
        0 <= i,
    ensures
        take_inner_from(rest, name, i, depth) matches Some((e, t)) ==> i <= e && e + 3 <= t
            <= rest.len(),
    decreases rest.len() - i,
{
    if i < 0 || i >= rest.len() {
    } else if rest[i] == '<' && parse_tag(rest.subrange(i, rest.len() as int)) is Some {
        let (tag, a) = parse_tag(rest.subrange(i, rest.len() as int))->0;
        lemma_parse_tag_len(rest.subrange(i, rest.len() as int));
        match tag {
            TagSpec::Open { name: n, .. } => if eq_ignore_case(n, name) {
                lemma_take_inner_bounds(rest, name, i + a, depth + 1);
            } else {
                lemma_take_inner_bounds(rest, name, i + a, depth);
            },
            TagSpec::Close { name: n } => if eq_ignore_case(n, name) {
                if depth - 1 != 0 {
                    lemma_take_inner_bounds(rest, name, i + a, depth - 1);
                }
            } else {
                lemma_take_inner_bounds(rest, name, i + a, depth);
            },
        }
    } else {
        lemma_take_inner_bounds(rest, name, i + 1, depth);
    }
}

/// Value of the first attribute whose key matches, ignoring ASCII case.
pub open spec fn attr(attrs: Seq<(Seq<char>, Seq<char>)>, key: Seq<char>) -> Option<Seq<char>>
    decreases attrs.len(),
{
    if attrs.len() == 0 {
        None
    } else if eq_ignore_case(attrs[0].0, key) {
        Some(attrs[0].1)
    } else {
        attr(attrs.drop_first(), key)
    }
}

pub open spec fn or_else(a: Option<Seq<char>>, b: Option<Seq<char>>) -> Option<Seq<char>> {
    if a is Some {
        a
    } else {
        b
    }
}

/// `s` without `"` chars.
pub open spec fn drop_quotes(s: Seq<char>) -> Seq<char>
    decreases s.len(),
{
    if s.len() == 0 {
        Seq::empty()
    } else if s.last() == '"' {
        drop_quotes(s.drop_last())
    } else {
        drop_quotes(s.drop_last()).push(s.last())
    }
}

/// Items joined with `", "`.
pub open spec fn join_comma(items: Seq<Seq<char>>) -> Seq<char>
    decreases items.len(),
{
    if items.len() == 0 {
        Seq::empty()
    } else if items.len() == 1 {
        items[0]
    } else {
        join_comma(items.drop_last()) + ", "@ + items.last()
    }
}

/// `#text(...)` arguments a `<span>` asks for, in order: fill, size, font.
pub open spec fn span_args(attrs: Seq<(Seq<char>, Seq<char>)>) -> Seq<Seq<char>> {
    let fill = match or_else(
        or_else(attr(attrs, "foreground"@), attr(attrs, "fgcolor"@)),
        attr(attrs, "color"@),
    ) {
        Some(c) => seq!["fill: "@ + color_to_typst(c)],
        None => Seq::empty(),
    };
    let size = match attr(attrs, "size"@) {
        Some(sz) => seq!["size: "@ + pango_size_to_typst(sz)],
        None => Seq::empty(),
    };
    let font = match or_else(attr(attrs, "font_family"@), attr(attrs, "face"@)) {
        Some(f) => seq!["font: \""@ + drop_quotes(f) + "\""@],
        None => Seq::empty(),
    };
    fill + size + font
}

/// A `<span>` rewritten: underline and strikethrough wrap the body, other
/// attributes become `#text` arguments.
pub open spec fn wrap_span(attrs: Seq<(Seq<char>, Seq<char>)>, inner: Seq<char>) -> Seq<char> {
    let args = span_args(attrs);
    let b1 = if attr(attrs, "underline"@) is Some {
        "#underline["@ + inner + "]"@
    } else {
        inner
    };
    let b2 = match attr(attrs, "strikethrough"@) {
        Some(v) => if eq_ignore_case(v, "true"@) {
            "#strike["@ + b1 + "]"@
        } else {
            b1
        },
        None => b1,
    };
    if args.len() == 0 {
        b2
    } else {
        "#text("@ + join_comma(args) + ")["@ + b2 + "]"@
    }
}

/// An element rewritten by its (case-insensitive) tag name; unknown tags
/// keep only their converted content.
pub open spec fn wrap_tag(name: Seq<char>, attrs: Seq<(Seq<char>, Seq<char>)>, inner: Seq<char>) -> Seq<
    char,
> {
    let n = lower_seq(name);
    if n == "b"@ || n == "strong"@ {
        "#strong["@ + inner + "]"@
    } else if n == "i"@ || n == "em"@ {
        "#emph["@ + inner + "]"@
    } else if n == "u"@ {
        "#underline["@ + inner + "]"@
    } else if n == "s"@ || n == "strike"@ || n == "del"@ {
        "#strike["@ + inner + "]"@
    } else if n == "tt"@ || n == "code"@ {
        "#text(font: \"DejaVu Sans Mono\")["@ + inner + "]"@
    } else if n == "big"@ {
        "#text(size: 1.2em)["@ + inner + "]"@
    } else if n == "small"@ {
        "#text(size: 0.8em)["@ + inner + "]"@
    } else if n == "sup"@ {
        "#super["@ + inner + "]"@
    } else if n == "sub"@ {
        "#sub["@ + inner + "]"@
    } else if n == "span"@ {
        wrap_span(attrs, inner)
    } else if n == "gradient"@ {
        let from = match attr(attrs, "from"@) {
            Some(f) => f,
            None => "white"@,
        };
        "#text(fill: "@ + color_to_typst(from) + ")["@ + inner + "]"@
    } else {
        inner
    }
}

/// Typst output for `s[pos..]`.
pub open spec fn convert_from(s: Seq<char>, pos: int) -> Seq<char>
    decreases s.len(), s.len() - pos,
{
    if pos < 0 || pos >= s.len() {
        Seq::empty()
    } else if s[pos] == '<' {
        let t = s.subrange(pos, s.len() as int);
        proof {
            lemma_parse_tag_len(t);
        }
        match parse_tag(t) {
            Some((TagSpec::Close { .. }, a)) => convert_from(s, pos + a),
            Some((TagSpec::Open { name, attrs, self_closing }, a)) => if self_closing
                || eq_ignore_case(name, "br"@) {
                "#linebreak()"@ + convert_from(s, pos + a)
            } else {
                let after = s.subrange(pos + a, s.len() as int);
                proof {
                    lemma_take_inner_bounds(after, name, 0, 1);
                }
                match take_inner(after, name) {
                    Some((ie, ts)) => wrap_tag(name, attrs, convert_from(after.subrange(0, ie), 0))
                        + convert_from(s, pos + a + ts),
                    None => seq!['<'] + convert_from(s, pos + 1),
                }
            },
            None => seq!['<'] + convert_from(s, pos + 1),
        }
    } else if s[pos] == '&' {
        let t = s.subrange(pos, s.len() as int);
        proof {
            lemma_find_first(t, Class::Ch(';'));
        }
        match decode_entity(t) {
            Some((text, a)) => escape_plain(text) + convert_from(s, pos + a),
            None => seq!['&'] + convert_from(s, pos + 1),
        }
    } else {
        let t = s.subrange(pos, s.len() as int);
        proof {
            lemma_find_first(t, Class::LtAmp);
        }
        let end = match find_first(t, Class::LtAmp) {
            Some(e) => pos + e,
            None => s.len() as int,
        };
        escape_plain(s.subrange(pos, end)) + convert_from(s, end)
    }
}

/// Pango markup converted to Typst markup.
pub open spec fn convert_markup(s: Seq<char>) -> Seq<char> {
    convert_from(s, 0)
}

/// The whole rewrite: inputs without `<` and `&` are returned unchanged.
pub open spec fn pango_to_typst_spec(s: Seq<char>) -> Seq<char> {
    if !s.contains('<') && !s.contains('&') {
        s
    } else {
        convert_markup(s)
    }
}


// ---------------------------------------------------------------------------
// Executable rewriter

/// A parsed tag.
enum Tag {
    Open { name: Vec<char>, attrs: Vec<(Vec<char>, Vec<char>)>, self_closing: bool },
    Close { name: Vec<char> },
}

spec fn attrs_view(a: Seq<(Vec<char>, Vec<char>)>) -> Seq<(Seq<char>, Seq<char>)> {
    a.map_values(|p: (Vec<char>, Vec<char>)| (p.0@, p.1@))
}

spec fn tag_view(t: Tag) -> TagSpec {
    match t {
        Tag::Open { name, attrs, self_closing } => TagSpec::Open {
            name: name@,
            attrs: attrs_view(attrs@),
            self_closing,
        },
        Tag::Close { name } => TagSpec::Close { name: name@ },
    }
}

/// Value range `[a, b)` and start `c` of what follows, in `v`.
fn attr_value_of(v: &[char]) -> (r: (usize, usize, usize))
    ensures
        r.0 <= r.1 <= v@.len(),
        r.2 <= v@.len(),
        attr_value(v@) == (v@.subrange(r.0 as int, r.1 as int), v@.subrange(
            r.2 as int,
            v@.len() as int,
        )),
{
    let n = v.len();
    if n > 0 && (v[0] == '"' || v[0] == '\'') {
        let body = &v[1..n];
        proof {
            assert(body@ =~= v@.drop_first());
            lemma_find_first(body@, Class::Ch(v@[0]));
        }
        match find_in(body, Class::Ch(v[0])) {
            Some(end) => {
                proof {
                    assert(body@.subrange(0, end as int) =~= v@.subrange(1, end + 1));
                    assert(body@.subrange(end + 1, body@.len() as int) =~= v@.subrange(
                        end + 2,
                        n as int,
                    ));
                }
                (1, end + 1, end + 2)
            },
            None => {
                proof {
                    assert(v@.subrange(n as int, n as int) =~= Seq::<char>::empty());
                    assert(body@ =~= v@.subrange(1, n as int));
                }
                (1, n, n)
            },
        }
    } else {
        proof {
            lemma_find_first(v@, Class::Ws);
        }
        match find_in(v, Class::Ws) {
            Some(end) => (0, end, end),
            None => {
                proof {
                    assert(v@.subrange(n as int, n as int) =~= Seq::<char>::empty());
                    assert(v@.subrange(0, n as int) =~= v@);
                }
                (0, n, n)
            },
        }
    }
}

/// One `key=value` step of `parse_attrs` on `sub`: the pair and the index
/// in `sub` where the remaining attributes start.
fn attr_step(sub: &[char]) -> (r: Option<((Vec<char>, Vec<char>), usize)>)
    requires
        sub@.len() > 0,
    ensures
        match r {
            Some((kv, next)) => next <= sub@.len() && next > 0 && parse_attrs(sub@) == seq![
                (kv.0@, kv.1@),
            ] + parse_attrs(sub@.subrange(next as int, sub@.len() as int)),
            None => parse_attrs(sub@) == Seq::<(Seq<char>, Seq<char>)>::empty(),
        },
{
    let n = sub.len();
    proof {
        lemma_find_first(sub@, Class::Ch('='));
    }
    let eq = match find_in(sub, Class::Ch('=')) {
        Some(eq) => eq,
        None => {
            return None;
        },
    };
    let (klo, khi) = trim_bounds(sub, 0, eq);
    if klo == khi {
        proof {
            assert(trim(sub@.subrange(0, eq as int)).len() == 0);
        }
        return None;
    }
    let key = slice_vec(sub, klo, khi);
    let (vlo, _vhi) = trim_bounds(sub, eq + 1, n);
    let v = &sub[vlo..n];
    let ghost vs = trim_start(sub@.subrange(eq + 1, n as int));
    proof {
        assert(v@ =~= vs);
    }
    let (a, b, c) = attr_value_of(v);
    let val = slice_vec(v, a, b);
    let (rlo, _rhi) = trim_bounds(v, c, v.len());
    let next = vlo + rlo;
    proof {
        let rest = v@.subrange(c as int, v@.len() as int);
        assert(v@.subrange(rlo as int, v@.len() as int) =~= sub@.subrange(next as int, n as int));
        assert(trim_start(rest) =~= sub@.subrange(next as int, n as int));
        assert(key@ == trim(sub@.subrange(0, eq as int)));
        assert(val@ == attr_value(vs).0);
    }
    Some(((key, val), next))
}

fn parse_attrs_of(src: &[char]) -> (out: Vec<(Vec<char>, Vec<char>)>)
    ensures
        attrs_view(out@) == parse_attrs(src@),
{
    let n = src.len();
    let mut out: Vec<(Vec<char>, Vec<char>)> = Vec::new();
    let mut pos: usize = 0;
    proof {
        assert(src@.subrange(0, n as int) =~= src@);
        assert(attrs_view(out@) =~= Seq::<(Seq<char>, Seq<char>)>::empty());
    }
    while pos < n
        invariant
            pos <= n == src@.len(),
            attrs_view(out@) + parse_attrs(src@.subrange(pos as int, n as int)) == parse_attrs(
                src@,
            ),
        decreases n - pos,
    {
        let sub = &src[pos..n];
        let ghost before = out@;
        match attr_step(sub) {
            None => {
                proof {
                    assert(attrs_view(out@) + Seq::<(Seq<char>, Seq<char>)>::empty() =~= attrs_view(
                        out@,
                    ));
                }
                return out;
            },
            Some((kv, next)) => {
                let ghost kvv = (kv.0@, kv.1@);
                out.push(kv);
                proof {
                    assert(sub@.subrange(next as int, sub@.len() as int) =~= src@.subrange(
                        pos + next,
                        n as int,
                    ));
                    assert(attrs_view(out@) =~= attrs_view(before).push(kvv));
                    assert(attrs_view(out@) + parse_attrs(src@.subrange(pos + next, n as int))
                        =~= attrs_view(before) + (seq![kvv] + parse_attrs(
                        src@.subrange(pos + next, n as int),
                    )));
                }
                pos = pos + next;
            },
        }
    }
    proof {
        assert(parse_attrs(src@.subrange(pos as int, n as int)) =~= Seq::<
            (Seq<char>, Seq<char>),
        >::empty());
        assert(attrs_view(out@) + Seq::<(Seq<char>, Seq<char>)>::empty() =~= attrs_view(out@));
    }
    out
}

/// End of `s` once trailing `/`s are dropped.
fn strip_slashes_end(s: &[char]) -> (e: usize)
    ensures
        e <= s@.len(),
        s@.subrange(0, e as int) == strip_slashes(s@),
{
    let mut e = s.len();
    proof {
        assert(s@.subrange(0, e as int) =~= s@);
    }
    while e > 0 && s[e - 1] == '/'
        invariant
            e <= s@.len(),
            strip_slashes(s@.subrange(0, e as int)) == strip_slashes(s@),
        decreases e,
    {
        proof {
            assert(s@.subrange(0, e as int).drop_last() =~= s@.subrange(0, e - 1));
        }
        e = e - 1;
    }
    e
}

fn parse_tag_of(s: &[char]) -> (r: Option<(Tag, usize)>)
    requires
        s@.len() > 0,
    ensures
        match r {
            Some((t, a)) => parse_tag(s@) == Some((tag_view(t), a as int)),
            None => parse_tag(s@) is None,
        },
{
    let n = s.len();
    let rest = &s[1..n];
    proof {
        assert(rest@ =~= s@.drop_first());
        lemma_find_first(rest@, Class::Ch('>'));
    }
    let close = match find_in(rest, Class::Ch('>')) {
        Some(c) => c,
        None => {
            return None;
        },
    };
    let (ilo, ihi) = trim_bounds(rest, 0, close);
    let inside = &rest[ilo..ihi];
    let after = close + 2;
    if inside.len() == 0 {
        return None;
    }
    if inside[0] == '/' {
        let (nlo, nhi) = trim_bounds(inside, 1, inside.len());
        proof {
            assert(inside@.subrange(1, inside@.len() as int) =~= inside@.drop_first());
        }
        let name = slice_vec(inside, nlo, nhi);
        return Some((Tag::Close { name }, after));
    }
    let self_closing = inside[inside.len() - 1] == '/';
    let e = strip_slashes_end(inside);
    let (tlo, thi) = trim_bounds(inside, 0, e);
    let t = &inside[tlo..thi];
    proof {
        assert(t@ == trim(strip_slashes(inside@)));
        lemma_find_first(t@, Class::WsEq);
    }
    let (name_end, alo, ahi) = match find_in(t, Class::WsEq) {
        Some(e2) => {
            let (lo, hi) = trim_bounds(t, e2, t.len());
            (e2, lo, hi)
        },
        None => {
            proof {
                assert(t@.subrange(0, t@.len() as int) =~= t@);
                assert(t@.subrange(t@.len() as int, t@.len() as int) =~= Seq::<char>::empty());
            }
            (t.len(), t.len(), t.len())
        },
    };
    proof {
        assert(split_name_attrs(t@) == (t@.subrange(0, name_end as int), t@.subrange(
            alo as int,
            ahi as int,
        )));
    }
    if name_end == 0 {
        return None;
    }
    let name = slice_vec(t, 0, name_end);
    let attrs = parse_attrs_of(&t[alo..ahi]);
    Some((Tag::Open { name, attrs, self_closing }, after))
}

fn take_inner_of(rest: &[char], name: &[char]) -> (r: Option<(usize, usize)>)
    ensures
        match r {
            Some((e, t)) => take_inner(rest@, name@) == Some((e as int, t as int)),
            None => take_inner(rest@, name@) is None,
        },
{
    let n = rest.len();
    let mut i: usize = 0;
    let mut depth: usize = 1;
    while i < n
        invariant
            n == rest@.len(),
            i <= n,
            1 <= depth <= i + 1,
            take_inner_from(rest@, name@, i as int, depth as int) == take_inner(rest@, name@),
        decreases n - i,
    {
        if rest[i] == '<' {
            let sub = &rest[i..n];
            proof {
                assert(sub@ =~= rest@.subrange(i as int, n as int));
                lemma_parse_tag_len(sub@);
            }
            match parse_tag_of(sub) {
                Some((tag, a)) => {
                    match tag {
                        Tag::Open { name: tn, .. } => {
                            if seq_eq_ignore_case(&tn, name) {
                                depth = depth + 1;
                            }
                        },
                        Tag::Close { name: tn } => {
                            if seq_eq_ignore_case(&tn, name) {
                                if depth - 1 == 0 {
                                    return Some((i, i + a));
                                }
                                depth = depth - 1;
                            }
                        },
                    }
                    i = i + a;
                },
                None => {
                    i = i + 1;
                },
            }
        } else {
            i = i + 1;
        }
    }
    None
}

/// Index of the first attribute whose key matches `key` (ASCII case
/// ignored).
fn attr_index(attrs: &Vec<(Vec<char>, Vec<char>)>, key: &str) -> (r: Option<usize>)
    ensures
        match r {
            Some(i) => i < attrs@.len() && attr(attrs_view(attrs@), key@) == Some(
                attrs@[i as int].1@,
            ),
            None => attr(attrs_view(attrs@), key@) is None,
        },
{
    let k = str_chars(key);
    let ghost av = attrs_view(attrs@);
    let mut i: usize = 0;
    proof {
        assert(av.subrange(0, av.len() as int) =~= av);
    }
    while i < attrs.len()
        invariant
            i <= attrs@.len(),
            k@ == key@,
            av == attrs_view(attrs@),
            attr(av.subrange(i as int, av.len() as int), key@) == attr(av, key@),
        decreases attrs.len() - i,
    {
        let ghost sub = av.subrange(i as int, av.len() as int);
        if seq_eq_ignore_case(&attrs[i].0, &k) {
            proof {
                assert(sub[0] == (attrs@[i as int].0@, attrs@[i as int].1@));
            }
            return Some(i);
        }
        proof {
            assert(sub.drop_first() =~= av.subrange(i + 1, av.len() as int));
        }
        i = i + 1;
    }
    None
}


fn push_lit(out: &mut Vec<char>, lit: &str)
    ensures
        final(out)@ == old(out)@ + lit@,
{
    let l = str_chars(lit);
    extend_all(out, &l);
}

/// Index of the attribute `or_else(attr(k1), attr(k2))` picks.
fn attr_index2(attrs: &Vec<(Vec<char>, Vec<char>)>, k1: &str, k2: &str) -> (r: Option<usize>)
    ensures
        match r {
            Some(i) => i < attrs@.len() && or_else(
                attr(attrs_view(attrs@), k1@),
                attr(attrs_view(attrs@), k2@),
            ) == Some(attrs@[i as int].1@),
            None => or_else(attr(attrs_view(attrs@), k1@), attr(attrs_view(attrs@), k2@)) is None,
        },
{
    match attr_index(attrs, k1) {
        Some(i) => Some(i),
        None => attr_index(attrs, k2),
    }
}

/// `s` with `"` removed.
fn push_without_quotes(out: &mut Vec<char>, s: &[char])
    ensures
        final(out)@ == old(out)@ + drop_quotes(s@),
{
    let mut i: usize = 0;
    while i < s.len()
        invariant
            i <= s.len(),
            out@ == old(out)@ + drop_quotes(s@.subrange(0, i as int)),
        decreases s.len() - i,
    {
        proof {
            assert(s@.subrange(0, i + 1).drop_last() =~= s@.subrange(0, i as int));
        }
        if s[i] != '"' {
            out.push(s[i]);
        }
        i = i + 1;
    }
    proof {
        assert(s@.subrange(0, s@.len() as int) =~= s@);
    }
}

fn push_join_comma(out: &mut Vec<char>, items: &Vec<Vec<char>>)
    ensures
        final(out)@ == old(out)@ + join_comma(items@.map_values(|v: Vec<char>| v@)),
{
    let ghost iv = items@.map_values(|v: Vec<char>| v@);
    let mut i: usize = 0;
    proof {
        assert(iv.subrange(0, 0) =~= Seq::<Seq<char>>::empty());
    }
    while i < items.len()
        invariant
            i <= items@.len(),
            iv == items@.map_values(|v: Vec<char>| v@),
            out@ == old(out)@ + join_comma(iv.subrange(0, i as int)),
        decreases items.len() - i,
    {
        let ghost before = out@;
        let ghost p = iv.subrange(0, i + 1);
        proof {
            assert(p.drop_last() =~= iv.subrange(0, i as int));
            assert(p.last() == items@[i as int]@);
        }
        if i > 0 {
            push_lit(out, ", ");
        }
        extend_all(out, &items[i]);
        proof {
            if i == 0 {
                assert(p.len() == 1);
                assert(out@ =~= old(out)@ + join_comma(p));
            } else {
                assert(out@ =~= old(out)@ + join_comma(p));
            }
        }
        i = i + 1;
    }
    proof {
        assert(iv.subrange(0, iv.len() as int) =~= iv);
    }
}

fn span_args_of(attrs: &Vec<(Vec<char>, Vec<char>)>) -> (args: Vec<Vec<char>>)
    ensures
        args@.map_values(|v: Vec<char>| v@) == span_args(attrs_view(attrs@)),
{
    let ghost av = attrs_view(attrs@);
    let mut args: Vec<Vec<char>> = Vec::new();
    let ghost fill: Seq<Seq<char>>;
    let ghost size: Seq<Seq<char>>;
    let ghost font: Seq<Seq<char>>;
    match attr_index2(attrs, "foreground", "fgcolor") {
        Some(i) => {
            let mut a = str_chars("fill: ");
            push_color_to_typst(&mut a, &attrs[i].1);
            args.push(a);
            proof {
                fill = seq!["fill: "@ + color_to_typst(attrs@[i as int].1@)];
            }
        },
        None => match attr_index(attrs, "color") {
            Some(i) => {
                let mut a = str_chars("fill: ");
                push_color_to_typst(&mut a, &attrs[i].1);
                args.push(a);
                proof {
                    fill = seq!["fill: "@ + color_to_typst(attrs@[i as int].1@)];
                }
            },
            None => {
                proof {
                    fill = Seq::empty();
                }
            },
        },
    }
    let ghost n1 = args@;
    proof {
        assert(n1.map_values(|v: Vec<char>| v@) =~= fill);
    }
    match attr_index(attrs, "size") {
        Some(i) => {
            let mut a = str_chars("size: ");
            push_pango_size(&mut a, &attrs[i].1);
            args.push(a);
            proof {
                size = seq!["size: "@ + pango_size_to_typst(attrs@[i as int].1@)];
            }
        },
        None => {
            proof {
                size = Seq::empty();
            }
        },
    }
    let ghost n2 = args@;
    proof {
        assert(n2.map_values(|v: Vec<char>| v@) =~= fill + size);
    }
    match attr_index2(attrs, "font_family", "face") {
        Some(i) => {
            let mut a = str_chars("font: \"");
            push_without_quotes(&mut a, &attrs[i].1);
            push_lit(&mut a, "\"");
            args.push(a);
            proof {
                font = seq!["font: \""@ + drop_quotes(attrs@[i as int].1@) + "\""@];
            }
        },
        None => {
            proof {
                font = Seq::empty();
            }
        },
    }
    proof {
        assert(args@.map_values(|v: Vec<char>| v@) =~= fill + size + font);
    }
    args
}

fn push_wrap_span(out: &mut Vec<char>, attrs: &Vec<(Vec<char>, Vec<char>)>, inner: &[char])
    ensures
        final(out)@ == old(out)@ + wrap_span(attrs_view(attrs@), inner@),
{
    let args = span_args_of(attrs);
    let mut body: Vec<char> = Vec::new();
    extend_all(&mut body, inner);
    if attr_index(attrs, "underline").is_some() {
        let mut b: Vec<char> = str_chars("#underline[");
        extend_all(&mut b, &body);
        push_lit(&mut b, "]");
        body = b;
    }
    match attr_index(attrs, "strikethrough") {
        Some(i) => {
            let t = str_chars("true");
            if seq_eq_ignore_case(&attrs[i].1, &t) {
                let mut b: Vec<char> = str_chars("#strike[");
                extend_all(&mut b, &body);
                push_lit(&mut b, "]");
                body = b;
            }
        },
        None => {},
    }
    if args.len() == 0 {
        extend_all(out, &body);
    } else {
        push_lit(out, "#text(");
        push_join_comma(out, &args);
        push_lit(out, ")[");
        extend_all(out, &body);
        push_lit(out, "]");
    }
}

fn push_wrap_tag(
    out: &mut Vec<char>,
    name: &[char],
    attrs: &Vec<(Vec<char>, Vec<char>)>,
    inner: &[char],
)
    ensures
        final(out)@ == old(out)@ + wrap_tag(name@, attrs_view(attrs@), inner@),
{
    let n = lower_vec(name);
    let ghost nv = n@;
    if crate::text::is_lit(&n, "b") || crate::text::is_lit(&n, "strong") {
        push_lit(out, "#strong[");
        extend_all(out, inner);
        push_lit(out, "]");
    } else if crate::text::is_lit(&n, "i") || crate::text::is_lit(&n, "em") {
        push_lit(out, "#emph[");
        extend_all(out, inner);
        push_lit(out, "]");
    } else if crate::text::is_lit(&n, "u") {
        push_lit(out, "#underline[");
        extend_all(out, inner);
        push_lit(out, "]");
    } else if crate::text::is_lit(&n, "s") || crate::text::is_lit(&n, "strike")
        || crate::text::is_lit(&n, "del") {
        push_lit(out, "#strike[");
        extend_all(out, inner);
        push_lit(out, "]");
    } else if crate::text::is_lit(&n, "tt") || crate::text::is_lit(&n, "code") {
        push_lit(out, "#text(font: \"DejaVu Sans Mono\")[");
        extend_all(out, inner);
        push_lit(out, "]");
    } else if crate::text::is_lit(&n, "big") {
        push_lit(out, "#text(size: 1.2em)[");
        extend_all(out, inner);
        push_lit(out, "]");
    } else if crate::text::is_lit(&n, "small") {
        push_lit(out, "#text(size: 0.8em)[");
        extend_all(out, inner);
        push_lit(out, "]");
    } else if crate::text::is_lit(&n, "sup") {
        push_lit(out, "#super[");
        extend_all(out, inner);
        push_lit(out, "]");
    } else if crate::text::is_lit(&n, "sub") {
        push_lit(out, "#sub[");
        extend_all(out, inner);
        push_lit(out, "]");
    } else if crate::text::is_lit(&n, "span") {
        push_wrap_span(out, attrs, inner);
    } else if crate::text::is_lit(&n, "gradient") {
        push_lit(out, "#text(fill: ");
        match attr_index(attrs, "from") {
            Some(i) => push_color_to_typst(out, &attrs[i].1),
            None => {
                let w = str_chars("white");
                push_color_to_typst(out, &w);
            },
        }
        push_lit(out, ")[");
        extend_all(out, inner);
        push_lit(out, "]");
    } else {
        extend_all(out, inner);
    }
}

/// Typst output for the whole buffer.
fn convert_of(s: &[char]) -> (out: Vec<char>)
    ensures
        out@ == convert_from(s@, 0),
    decreases s@.len(),
{
    let n = s.len();
    let mut out: Vec<char> = Vec::new();
    let mut pos: usize = 0;
    proof {
        assert(out@ + convert_from(s@, 0) =~= convert_from(s@, 0));
    }
    while pos < n
        invariant
            n == s@.len(),
            pos <= n,
            out@ + convert_from(s@, pos as int) == convert_from(s@, 0),
        decreases n - pos,
    {
        let ghost before = out@;
        let t = &s[pos..n];
        proof {
            assert(t@ =~= s@.subrange(pos as int, n as int));
        }
        if s[pos] == '<' {
            proof {
                lemma_parse_tag_len(t@);
            }
            match parse_tag_of(t) {
                Some((Tag::Close { .. }, a)) => {
                    pos = pos + a;
                },
                Some((Tag::Open { name, attrs, self_closing }, a)) => {
                    let br = str_chars("br");
                    if self_closing || seq_eq_ignore_case(&name, &br) {
                        push_lit(&mut out, "#linebreak()");
                        proof {
                            assert(out@ + convert_from(s@, pos + a) =~= before + ("#linebreak()"@
                                + convert_from(s@, pos + a)));
                        }
                        pos = pos + a;
                    } else {
                        let after = &s[pos + a..n];
                        proof {
                            assert(after@ =~= s@.subrange(pos + a, n as int));
                            lemma_take_inner_bounds(after@, name@, 0, 1);
                        }
                        match take_inner_of(after, &name) {
                            Some((ie, ts)) => {
                                let part = &after[0..ie];
                                let inner = convert_of(part);
                                push_wrap_tag(&mut out, &name, &attrs, &inner);
                                proof {
                                    assert(out@ + convert_from(s@, pos + a + ts) =~= before + (
                                    wrap_tag(name@, attrs_view(attrs@), inner@) + convert_from(
                                        s@,
                                        pos + a + ts,
                                    )));
                                }
                                pos = pos + a + ts;
                            },
                            None => {
                                out.push('<');
                                proof {
                                    assert(out@ + convert_from(s@, pos + 1) =~= before + (seq![
                                        '<',
                                    ] + convert_from(s@, pos + 1)));
                                }
                                pos = pos + 1;
                            },
                        }
                    }
                },
                None => {
                    out.push('<');
                    proof {
                        assert(out@ + convert_from(s@, pos + 1) =~= before + (seq!['<']
                            + convert_from(s@, pos + 1)));
                    }
                    pos = pos + 1;
                },
            }
        } else if s[pos] == '&' {
            proof {
                lemma_find_first(t@, Class::Ch(';'));
            }
            match decode_entity_of(t) {
                Some((text, a)) => {
                    push_escaped(&mut out, &text);
                    proof {
                        assert(out@ + convert_from(s@, pos + a) =~= before + (escape_plain(text@)
                            + convert_from(s@, pos + a)));
                    }
                    pos = pos + a;
                },
                None => {
                    out.push('&');
                    proof {
                        assert(out@ + convert_from(s@, pos + 1) =~= before + (seq!['&']
                            + convert_from(s@, pos + 1)));
                    }
                    pos = pos + 1;
                },
            }
        } else {
            proof {
                lemma_find_first(t@, Class::LtAmp);
            }
            let end = match find_in(t, Class::LtAmp) {
                Some(e) => pos + e,
                None => n,
            };
            push_escaped(&mut out, &s[pos..end]);
            proof {
                assert(out@ + convert_from(s@, end as int) =~= before + (escape_plain(
                    s@.subrange(pos as int, end as int),
                ) + convert_from(s@, end as int)));
            }
            pos = end;
        }
    }
    proof {
        assert(out@ + Seq::<char>::empty() =~= out@);
    }
    out
}

/// Convert a Pango markup subset to Typst. Strings without `<` or `&` are
/// returned unchanged, so native Typst (`*bold*`) still works.
pub fn pango_to_typst(input: &str) -> (r: String)
    ensures
        r@ == pango_to_typst_spec(input@),
{
    let v = str_chars(input);
    proof {
        lemma_find_first(v@, Class::LtAmp);
    }
    match find_in(&v, Class::LtAmp) {
        None => {
            proof {
                assert(!input@.contains('<')) by {
                    if input@.contains('<') {
                        let k = choose|k: int| 0 <= k < input@.len() && input@[k] == '<';
                        assert(!crate::scan::in_class(v@[k], Class::LtAmp));
                    }
                }
                assert(!input@.contains('&')) by {
                    if input@.contains('&') {
                        let k = choose|k: int| 0 <= k < input@.len() && input@[k] == '&';
                        assert(!crate::scan::in_class(v@[k], Class::LtAmp));
                    }
                }
            }
            string_from(&v)
        },
        Some(k) => {
            proof {
                if v@[k as int] == '<' {
                    assert(input@.contains('<'));
                } else {
                    assert(input@.contains('&'));
                }
            }
            let out = convert_of(&v);
            string_from(&out)
        },
    }
}

/// Text without `<` or `&` passes through unchanged, so native Typst
/// markup (`*bold*`) still works.
pub proof fn law_plain_text_unchanged(s: Seq<char>)
    requires
        !s.contains('<'),
        !s.contains('&'),
    ensures
        pango_to_typst_spec(s) == s,
{
}

/// Lowercase ASCII letters are left as they are by `lower_seq`.
proof fn lemma_lower_plain(s: Seq<char>)
    requires
        forall|k: int| 0 <= k < s.len() ==> 'a' <= #[trigger] s[k] && s[k] <= 'z',
    ensures
        lower_seq(s) == s,
{
    assert(lower_seq(s) =~= s);
}

/// What each style tag becomes, whatever its attributes and content: bold
/// is `#strong`, italic `#emph`, underline `#underline`, strike-through
/// `#strike`, monospace a DejaVu Sans Mono `#text`, `big`/`small` scaled
/// text, `sup` a superscript `#super` and `sub` a subscript `#sub`, each
/// around the converted content; tag names are read regardless of case.
pub proof fn law_tag_wrappers(attrs: Seq<(Seq<char>, Seq<char>)>, t: Seq<char>)
    ensures
        wrap_tag("b"@, attrs, t) == "#strong["@ + t + "]"@,
        wrap_tag("strong"@, attrs, t) == "#strong["@ + t + "]"@,
        wrap_tag("i"@, attrs, t) == "#emph["@ + t + "]"@,
        wrap_tag("em"@, attrs, t) == "#emph["@ + t + "]"@,
        wrap_tag("u"@, attrs, t) == "#underline["@ + t + "]"@,
        wrap_tag("s"@, attrs, t) == "#strike["@ + t + "]"@,
        wrap_tag("strike"@, attrs, t) == "#strike["@ + t + "]"@,
        wrap_tag("del"@, attrs, t) == "#strike["@ + t + "]"@,
        wrap_tag("tt"@, attrs, t) == "#text(font: \"DejaVu Sans Mono\")["@ + t + "]"@,
        wrap_tag("code"@, attrs, t) == "#text(font: \"DejaVu Sans Mono\")["@ + t + "]"@,
        wrap_tag("big"@, attrs, t) == "#text(size: 1.2em)["@ + t + "]"@,
        wrap_tag("small"@, attrs, t) == "#text(size: 0.8em)["@ + t + "]"@,
        wrap_tag("sup"@, attrs, t) == "#super["@ + t + "]"@,
        wrap_tag("sub"@, attrs, t) == "#sub["@ + t + "]"@,
        wrap_tag("SUP"@, attrs, t) == wrap_tag("sup"@, attrs, t),
        wrap_tag("SUB"@, attrs, t) == wrap_tag("sub"@, attrs, t),
{
    reveal_strlit("b");
    reveal_strlit("strong");
    reveal_strlit("i");
    reveal_strlit("em");
    reveal_strlit("u");
    reveal_strlit("s");
    reveal_strlit("strike");
    reveal_strlit("del");
    reveal_strlit("tt");
    reveal_strlit("code");
    reveal_strlit("big");
    reveal_strlit("small");
    reveal_strlit("sup");
    reveal_strlit("sub");
    reveal_strlit("SUP");
    reveal_strlit("SUB");
    lemma_lower_plain("b"@);
    lemma_lower_plain("strong"@);
    lemma_lower_plain("i"@);
    lemma_lower_plain("em"@);
    lemma_lower_plain("u"@);
    lemma_lower_plain("s"@);
    lemma_lower_plain("strike"@);
    lemma_lower_plain("del"@);
    lemma_lower_plain("tt"@);
    lemma_lower_plain("code"@);
    lemma_lower_plain("big"@);
    lemma_lower_plain("small"@);
    lemma_lower_plain("sup"@);
    lemma_lower_plain("sub"@);
    assert("b"@.len() == 1);
    assert("strong"@.len() == 6);
    assert("i"@.len() == 1);
    assert("em"@.len() == 2);
    assert("u"@.len() == 1);
    assert("s"@.len() == 1);
    assert("strike"@.len() == 6);
    assert("del"@.len() == 3);
    assert("tt"@.len() == 2);
    assert("code"@.len() == 4);
    assert("big"@.len() == 3);
    assert("small"@.len() == 5);
    assert("sup"@.len() == 3);
    assert("sub"@.len() == 3);
    assert(lower_seq("SUP"@) =~= "sup"@);
    assert(lower_seq("SUB"@) =~= "sub"@);
    assert("i"@ != "b"@ && "u"@ != "b"@ && "u"@ != "i"@ && "s"@ != "b"@ && "s"@ != "i"@ && "s"@
        != "u"@) by {
        assert("i"@[0] != "b"@[0] && "u"@[0] != "b"@[0] && "u"@[0] != "i"@[0]);
        assert("s"@[0] != "b"@[0] && "s"@[0] != "i"@[0] && "s"@[0] != "u"@[0]);
    }
    assert("em"@ != "tt"@) by {
        assert("em"@[0] != "tt"@[0]);
    }
    assert("del"@ != "big"@ && "del"@ != "sup"@ && "del"@ != "sub"@ && "big"@ != "sup"@ && "big"@
        != "sub"@ && "sup"@ != "sub"@) by {
        assert("del"@[0] != "big"@[0] && "del"@[0] != "sup"@[0] && "del"@[0] != "sub"@[0]);
        assert("big"@[0] != "sup"@[0] && "big"@[0] != "sub"@[0] && "sup"@[2] != "sub"@[2]);
    }
    assert("strong"@ != "strike"@) by {
        assert("strong"@[3] != "strike"@[3]);
    }
    assert("code"@ != "span"@) by {
        reveal_strlit("span");
        assert("code"@[0] != "span"@[0]);
    }
    assert("small"@ != "span"@) by {
        reveal_strlit("span");
    }
}

} // verus!
