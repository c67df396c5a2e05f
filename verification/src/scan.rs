//! Scanning primitives for the markup rewriter: first-match search by
//! character class, Typst escaping, integer parsing, and entity decoding.
use vstd::prelude::*;

use crate::text::{extend_all, is_ws, is_whitespace, str_chars};

verus! {

/// A set of chars searched for.
#[derive(Clone, Copy)]
pub enum Class {
    /// One given char.
    Ch(char),
    /// `<` or `&`.
    LtAmp,
    /// Whitespace or `=`.
    WsEq,
    /// Whitespace.
    Ws,
}

pub open spec fn in_class(c: char, k: Class) -> bool {
    match k {
        Class::Ch(d) => c == d,
        Class::LtAmp => c == '<' || c == '&',
        Class::WsEq => is_ws(c) || c == '=',
        Class::Ws => is_ws(c),
    }
}

fn class_has(c: char, k: Class) -> (b: bool)
    ensures
        b == in_class(c, k),
{
    match k {
        Class::Ch(d) => c == d,
        Class::LtAmp => c == '<' || c == '&',
        Class::WsEq => is_whitespace(c) || c == '=',
        Class::Ws => is_whitespace(c),
    }
}

/// Index of the first char of `s` in the class (`str::find`).
pub open spec fn find_first(s: Seq<char>, k: Class) -> Option<int>
    decreases s.len(),
{
    if s.len() == 0 {
        None
    } else if in_class(s[0], k) {
        Some(0)
    } else {
        match find_first(s.drop_first(), k) {
            Some(i) => Some(i + 1),
            None => None,
        }
    }
}

pub proof fn lemma_find_first(s: Seq<char>, k: Class)
    ensures
        match find_first(s, k) {
            Some(i) => 0 <= i < s.len() && in_class(s[i], k) && forall|j: int|
                0 <= j < i ==> !in_class(#[trigger] s[j], k),
            None => forall|j: int| 0 <= j < s.len() ==> !in_class(#[trigger] s[j], k),
        },
    decreases s.len(),
{
    if s.len() > 0 && !in_class(s[0], k) {
        let t = s.drop_first();
        lemma_find_first(t, k);
        match find_first(t, k) {
            Some(i) => {
                assert forall|j: int| 0 <= j < i + 1 implies !in_class(#[trigger] s[j], k) by {
                    if j > 0 {
                        assert(s[j] == t[j - 1]);
                    }
                }
            },
            None => {
                assert forall|j: int| 0 <= j < s.len() implies !in_class(#[trigger] s[j], k) by {
                    if j > 0 {
                        assert(s[j] == t[j - 1]);
                    }
                }
            },
        }
    }
}

/// First index of a class member in `s`.
pub fn find_in(s: &[char], k: Class) -> (r: Option<usize>)
    ensures
        match r {
            Some(i) => find_first(s@, k) == Some(i as int),
            None => find_first(s@, k) is None,
        },
{
    proof {
        lemma_find_first(s@, k);
    }
    let mut i: usize = 0;
    while i < s.len()
        invariant
            i <= s.len(),
            forall|j: int| 0 <= j < i ==> !in_class(#[trigger] s@[j], k),
        decreases s.len() - i,
    {
        if class_has(s[i], k) {
            proof {
                lemma_find_first(s@, k);
                match find_first(s@, k) {
                    Some(m) => {
                        if m < i {
                            assert(!in_class(s@[m], k));
                        }
                        if m > i {
                            assert(!in_class(s@[i as int], k));
                        }
                    },
                    None => {
                        assert(!in_class(s@[i as int], k));
                    },
                }
            }
            return Some(i);
        }
        i = i + 1;
    }
    proof {
        lemma_find_first(s@, k);
        match find_first(s@, k) {
            Some(m) => {
                assert(!in_class(s@[m], k));
            },
            None => {},
        }
    }
    None
}

/// Chars Typst markup treats specially; they get a backslash.
pub open spec fn typst_special(c: char) -> bool {
    c == '#' || c == '$' || c == '*' || c == '_' || c == '`' || c == '@' || c == '\\' || c == '['
        || c == ']'
}

pub open spec fn escape_char(c: char) -> Seq<char> {
    if typst_special(c) {
        seq!['\\', c]
    } else {
        seq![c]
    }
}

/// Plain text made safe for Typst markup.
pub open spec fn escape_plain(s: Seq<char>) -> Seq<char>
    decreases s.len(),
{
    if s.len() == 0 {
        Seq::empty()
    } else {
        escape_plain(s.drop_last()) + escape_char(s.last())
    }
}

pub fn push_escaped(out: &mut Vec<char>, s: &[char])
    ensures
        final(out)@ == old(out)@ + escape_plain(s@),
{
    let mut i: usize = 0;
    while i < s.len()
        invariant
            i <= s.len(),
            out@ == old(out)@ + escape_plain(s@.subrange(0, i as int)),
        decreases s.len() - i,
    {
        let c = s[i];
        let ghost before = out@;
        if c == '#' || c == '$' || c == '*' || c == '_' || c == '`' || c == '@' || c == '\\' || c
            == '[' || c == ']' {
            out.push('\\');
            out.push(c);
        } else {
            out.push(c);
        }
        proof {
            let p = s@.subrange(0, i + 1);
            assert(p.drop_last() =~= s@.subrange(0, i as int));
            assert(p.last() == c);
            assert(out@ =~= before + escape_char(c));
        }
        i = i + 1;
    }
    proof {
        assert(s@.subrange(0, s@.len() as int) =~= s@);
    }
}

/// Digit value of `c` in base 10 or 16.
pub open spec fn digit_value(c: char, base: nat) -> Option<nat> {
    if '0' <= c && c <= '9' {
        Some((c as u32 - '0' as u32) as nat)
    } else if base == 16 && 'a' <= c && c <= 'f' {
        Some((c as u32 - 'a' as u32 + 10) as nat)
    } else if base == 16 && 'A' <= c && c <= 'F' {
        Some((c as u32 - 'A' as u32 + 10) as nat)
    } else {
        None
    }
}

fn digit_value_of(c: char, base: u32) -> (r: Option<u32>)
    requires
        base == 10 || base == 16,
    ensures
        match r {
            Some(d) => digit_value(c, base as nat) == Some(d as nat) && d < base,
            None => digit_value(c, base as nat) is None,
        },
{
    if '0' <= c && c <= '9' {
        Some(c as u32 - '0' as u32)
    } else if base == 16 && 'a' <= c && c <= 'f' {
        Some(c as u32 - 'a' as u32 + 10)
    } else if base == 16 && 'A' <= c && c <= 'F' {
        Some(c as u32 - 'A' as u32 + 10)
    } else {
        None
    }
}

/// Value of a string of digits (the empty string is 0); `None` when a
/// char is not a digit of the base.
pub open spec fn digits_value(s: Seq<char>, base: nat) -> Option<nat>
    decreases s.len(),
{
    if s.len() == 0 {
        Some(0)
    } else {
        match (digits_value(s.drop_last(), base), digit_value(s.last(), base)) {
            (Some(v), Some(d)) => Some(v * base + d),
            _ => None,
        }
    }
}

/// `u32::from_str_radix` for base 10 or 16: an optional `+`, then at least
/// one digit, with a value that fits in `u32`.
pub open spec fn parse_u32(s: Seq<char>, base: nat) -> Option<u32> {
    let d = if s.len() > 0 && s[0] == '+' {
        s.drop_first()
    } else {
        s
    };
    if d.len() == 0 {
        None
    } else {
        match digits_value(d, base) {
            Some(v) => if v <= u32::MAX {
                Some(v as u32)
            } else {
                None
            },
            None => None,
        }
    }
}

/// A prefix of a valid digit string is valid and no larger.
proof fn lemma_digits_prefix(s: Seq<char>, base: nat, k: int)
    requires
        0 <= k <= s.len(),
        base >= 1,
        digits_value(s, base) is Some,
    ensures
        digits_value(s.subrange(0, k), base) is Some,
        digits_value(s.subrange(0, k), base)->0 <= digits_value(s, base)->0,
    decreases s.len(),
{
    if k < s.len() {
        let t = s.drop_last();
        assert(s.subrange(0, k) =~= t.subrange(0, k));
        lemma_digits_prefix(t, base, k);
        let v = digits_value(t, base)->0;
        let d = digit_value(s.last(), base)->0;
        assert(v <= v * base + d) by (nonlinear_arith)
            requires
                base >= 1,
        ;
    } else {
        assert(s.subrange(0, k) =~= s);
    }
}

pub fn parse_u32_of(s: &[char], base: u32) -> (r: Option<u32>)
    requires
        base == 10 || base == 16,
    ensures
        r == parse_u32(s@, base as nat),
{
    let start: usize = if s.len() > 0 && s[0] == '+' {
        1
    } else {
        0
    };
    let ghost d = if s@.len() > 0 && s@[0] == '+' {
        s@.drop_first()
    } else {
        s@
    };
    proof {
        assert(d =~= s@.subrange(start as int, s@.len() as int));
    }
    if start == s.len() {
        return None;
    }
    let mut acc: u64 = 0;
    let mut i: usize = start;
    while i < s.len()
        invariant
            start <= i <= s.len(),
            start < s.len(),
            base == 10 || base == 16,
            d == (if s@.len() > 0 && s@[0] == '+' {
                s@.drop_first()
            } else {
                s@
            }),
            d =~= s@.subrange(start as int, s@.len() as int),
            digits_value(s@.subrange(start as int, i as int), base as nat) == Some(acc as nat),
            acc <= u32::MAX,
        decreases s.len() - i,
    {
        let ghost pre = s@.subrange(start as int, i as int);
        let ghost nxt = s@.subrange(start as int, i + 1);
        proof {
            assert(nxt.drop_last() =~= pre);
            assert(nxt.last() == s@[i as int]);
        }
        match digit_value_of(s[i], base) {
            None => {
                proof {
                    // an invalid digit makes the whole string invalid
                    if digits_value(d, base as nat) is Some {
                        lemma_digits_prefix(d, base as nat, i + 1 - start);
                        assert(d.subrange(0, i + 1 - start) =~= nxt);
                    }
                }
                return None;
            },
            Some(dv) => {
                assert(acc * (base as u64) <= 0xFFFF_FFFFu64 * 16) by (nonlinear_arith)
                    requires
                        acc <= 0xFFFF_FFFFu64,
                        base <= 16,
                ;
                let next: u64 = acc * (base as u64) + (dv as u64);
                if next > 0xFFFF_FFFF {
                    proof {
                        if digits_value(d, base as nat) is Some {
                            lemma_digits_prefix(d, base as nat, i + 1 - start);
                            assert(d.subrange(0, i + 1 - start) =~= nxt);
                        }
                    }
                    return None;
                }
                acc = next;
            },
        }
        i = i + 1;
    }
    proof {
        assert(s@.subrange(start as int, s@.len() as int) =~= d);
    }
    Some(acc as u32)
}

/// A Unicode scalar value (what `char::from_u32` accepts).
pub open spec fn is_scalar(n: u32) -> bool {
    n <= 0x10FFFF && !(0xD800 <= n && n <= 0xDFFF)
}

/// `char::from_u32`: the char with that code point, unless it is a
/// surrogate or past U+10FFFF.
#[verifier::external_body]
fn char_from_u32(n: u32) -> (c: Option<char>)
    ensures
        c == (if is_scalar(n) {
            Some(n as char)
        } else {
            None
        }),
{
    char::from_u32(n)
}

/// Text an XML/HTML entity body stands for.
pub open spec fn entity_text(body: Seq<char>) -> Option<Seq<char>> {
    if body == "lt"@ {
        Some(seq!['<'])
    } else if body == "gt"@ {
        Some(seq!['>'])
    } else if body == "amp"@ {
        Some(seq!['&'])
    } else if body == "quot"@ {
        Some(seq!['"'])
    } else if body == "apos"@ {
        Some(seq!['\''])
    } else if body == "nbsp"@ {
        Some(seq![' '])
    } else if body.len() > 0 && body[0] == '#' {
        let n = if body.len() > 2 && (body[1] == 'x' || body[1] == 'X') {
            parse_u32(body.subrange(2, body.len() as int), 16)
        } else {
            parse_u32(body.subrange(1, body.len() as int), 10)
        };
        match n {
            Some(n) => if is_scalar(n) {
                Some(seq![n as char])
            } else {
                None
            },
            None => None,
        }
    } else {
        None
    }
}

/// Decode an entity at the start of `s` (which begins with `&`): the text
/// and the index just past its `;`. The body runs to the first `;`.
pub open spec fn decode_entity(s: Seq<char>) -> Option<(Seq<char>, int)> {
    match find_first(s, Class::Ch(';')) {
        None => None,
        Some(end) => match entity_text(s.subrange(1, end)) {
            Some(t) => Some((t, end + 1)),
            None => None,
        },
    }
}

fn is_lit_range(s: &[char], from: usize, to: usize, lit: &str) -> (r: bool)
    requires
        from <= to <= s.len(),
    ensures
        r == (s@.subrange(from as int, to as int) == lit@),
{
    let l = str_chars(lit);
    if to - from != l.len() {
        return false;
    }
    let mut i: usize = 0;
    while i < l.len()
        invariant
            from <= to <= s.len(),
            to - from == l.len(),
            l@ == lit@,
            i <= l.len(),
            forall|j: int| 0 <= j < i ==> s@[from + j] == l@[j],
        decreases l.len() - i,
    {
        if s[from + i] != l[i] {
            assert(s@.subrange(from as int, to as int)[i as int] != lit@[i as int]);
            return false;
        }
        i = i + 1;
    }
    assert(s@.subrange(from as int, to as int) =~= lit@);
    true
}

fn entity_text_of(s: &[char], from: usize, to: usize) -> (r: Option<Vec<char>>)
    requires
        from <= to <= s.len(),
    ensures
        match r {
            Some(v) => entity_text(s@.subrange(from as int, to as int)) == Some(v@),
            None => entity_text(s@.subrange(from as int, to as int)) is None,
        },
{
    let ghost body = s@.subrange(from as int, to as int);
    if is_lit_range(s, from, to, "lt") {
        return Some(vec!['<']);
    } else if is_lit_range(s, from, to, "gt") {
        return Some(vec!['>']);
    } else if is_lit_range(s, from, to, "amp") {
        return Some(vec!['&']);
    } else if is_lit_range(s, from, to, "quot") {
        return Some(vec!['"']);
    } else if is_lit_range(s, from, to, "apos") {
        return Some(vec!['\'']);
    } else if is_lit_range(s, from, to, "nbsp") {
        return Some(vec![' ']);
    }
    if to > from && s[from] == '#' {
        let n = if to - from > 2 && (s[from + 1] == 'x' || s[from + 1] == 'X') {
            proof {
                assert(body.subrange(2, body.len() as int) =~= s@.subrange(from + 2, to as int));
            }
            parse_u32_of(&s[from + 2..to], 16)
        } else {
            proof {
                assert(body.subrange(1, body.len() as int) =~= s@.subrange(from + 1, to as int));
            }
            parse_u32_of(&s[from + 1..to], 10)
        };
        match n {
            Some(n) => match char_from_u32(n) {
                Some(c) => Some(vec![c]),
                None => None,
            },
            None => None,
        }
    } else {
        None
    }
}

/// Decode an entity at the start of `s` (which must begin with `&`).
pub fn decode_entity_of(s: &[char]) -> (r: Option<(Vec<char>, usize)>)
    requires
        s@.len() > 0,
        s@[0] == '&',
    ensures
        match r {
            Some((t, a)) => decode_entity(s@) == Some((t@, a as int)),
            None => decode_entity(s@) is None,
        },
{
    proof {
        lemma_find_first(s@, Class::Ch(';'));
    }
    match find_in(s, Class::Ch(';')) {
        None => None,
        Some(end) => {
            let len = s.len();
            proof {
                assert(end < len);
                assert(end >= 1);
            }
            match entity_text_of(s, 1, end) {
                Some(t) => Some((t, end + 1)),
                None => None,
            }
        },
    }
}

} // verus!
