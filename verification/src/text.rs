//! Character-level helpers shared by the markup and TeX-part rewriters.
//!
//! All text processing in this crate works on `Vec<char>` buffers whose view
//! is the `Seq<char>` of a `str`; these helpers convert in and out and state
//! the handful of character classes (`char::is_whitespace`, ASCII case) that
//! the rewriters rely on.
use vstd::prelude::*;

verus! {

/// Unicode `White_Space` property, which is what `char::is_whitespace`
/// and `str::trim` test.
pub open spec fn is_ws(c: char) -> bool {
    ||| ('\u{9}' <= c && c <= '\u{d}')
    ||| c == ' '
    ||| c == '\u{85}'
    ||| c == '\u{a0}'
    ||| c == '\u{1680}'
    ||| ('\u{2000}' <= c && c <= '\u{200a}')
    ||| c == '\u{2028}'
    ||| c == '\u{2029}'
    ||| c == '\u{202f}'
    ||| c == '\u{205f}'
    ||| c == '\u{3000}'
}

pub fn is_whitespace(c: char) -> (b: bool)
    ensures
        b == is_ws(c),
{
    ('\u{9}' <= c && c <= '\u{d}') || c == ' ' || c == '\u{85}' || c == '\u{a0}' || c
        == '\u{1680}' || ('\u{2000}' <= c && c <= '\u{200a}') || c == '\u{2028}' || c
        == '\u{2029}' || c == '\u{202f}' || c == '\u{205f}' || c == '\u{3000}'
}

/// ASCII lowercase of one char (`char::to_ascii_lowercase`).
pub open spec fn lower(c: char) -> char {
    if 'A' <= c && c <= 'Z' {
        ((c as u32) + 32) as char
    } else {
        c
    }
}

pub fn to_lower(c: char) -> (r: char)
    ensures
        r == lower(c),
{
    if 'A' <= c && c <= 'Z' {
        let u: u32 = (c as u32) + 32;
        assert(u <= 0x7f);
        (u as u8) as char
    } else {
        c
    }
}

pub open spec fn lower_seq(s: Seq<char>) -> Seq<char> {
    s.map_values(|c: char| lower(c))
}

/// `str::eq_ignore_ascii_case`.
pub open spec fn eq_ignore_case(a: Seq<char>, b: Seq<char>) -> bool {
    lower_seq(a) == lower_seq(b)
}

pub fn seq_eq_ignore_case(a: &[char], b: &[char]) -> (r: bool)
    ensures
        r == eq_ignore_case(a@, b@),
{
    if a.len() != b.len() {
        assert(lower_seq(a@).len() != lower_seq(b@).len());
        return false;
    }
    let mut i: usize = 0;
    while i < a.len()
        invariant
            a.len() == b.len(),
            i <= a.len(),
            forall|k: int| 0 <= k < i ==> lower(a@[k]) == lower(b@[k]),
        decreases a.len() - i,
    {
        if to_lower(a[i]) != to_lower(b[i]) {
            assert(lower_seq(a@)[i as int] != lower_seq(b@)[i as int]);
            return false;
        }
        i = i + 1;
    }
    assert(lower_seq(a@) =~= lower_seq(b@));
    true
}

/// Number of leading whitespace chars.
pub open spec fn lead_ws(s: Seq<char>) -> nat
    decreases s.len(),
{
    if s.len() > 0 && is_ws(s[0]) {
        1 + lead_ws(s.drop_first())
    } else {
        0
    }
}

/// Number of trailing whitespace chars.
pub open spec fn trail_ws(s: Seq<char>) -> nat
    decreases s.len(),
{
    if s.len() > 0 && is_ws(s.last()) {
        1 + trail_ws(s.drop_last())
    } else {
        0
    }
}

/// `str::trim_start`.
pub open spec fn trim_start(s: Seq<char>) -> Seq<char> {
    s.subrange(lead_ws(s) as int, s.len() as int)
}

/// `str::trim_end`.
pub open spec fn trim_end(s: Seq<char>) -> Seq<char> {
    s.subrange(0, s.len() - trail_ws(s))
}

/// `str::trim`.
pub open spec fn trim(s: Seq<char>) -> Seq<char> {
    trim_end(trim_start(s))
}

pub proof fn lemma_lead_ws(s: Seq<char>)
    ensures
        lead_ws(s) <= s.len(),
        forall|k: int| 0 <= k < lead_ws(s) ==> is_ws(#[trigger] s[k]),
        lead_ws(s) < s.len() ==> !is_ws(s[lead_ws(s) as int]),
    decreases s.len(),
{
    if s.len() > 0 && is_ws(s[0]) {
        lemma_lead_ws(s.drop_first());
        assert forall|k: int| 0 <= k < lead_ws(s) implies is_ws(#[trigger] s[k]) by {
            if k > 0 {
                assert(s[k] == s.drop_first()[k - 1]);
            }
        }
    }
}

pub proof fn lemma_trail_ws(s: Seq<char>)
    ensures
        trail_ws(s) <= s.len(),
        forall|k: int| s.len() - trail_ws(s) <= k < s.len() ==> is_ws(#[trigger] s[k]),
        trail_ws(s) < s.len() ==> !is_ws(s[s.len() - trail_ws(s) - 1]),
    decreases s.len(),
{
    if s.len() > 0 && is_ws(s.last()) {
        lemma_trail_ws(s.drop_last());
        assert forall|k: int| s.len() - trail_ws(s) <= k < s.len() implies is_ws(#[trigger] s[k]) by {
            if k < s.len() - 1 {
                assert(s[k] == s.drop_last()[k]);
            }
        }
    }
}

/// Every char of `w` is whitespace.
pub open spec fn all_ws(w: Seq<char>) -> bool {
    forall|k: int| 0 <= k < w.len() ==> is_ws(#[trigger] w[k])
}

/// Whitespace around a string does not change what `trim` gives.
pub proof fn lemma_trim_padded(w1: Seq<char>, s: Seq<char>, w2: Seq<char>)
    requires
        all_ws(w1),
        all_ws(w2),
    ensures
        trim(w1 + s + w2) == trim(s),
{
    let x = w1 + s + w2;
    lemma_lead_ws(s);
    let a = lead_ws(s) as int;
    if a == s.len() {
        assert forall|k: int| 0 <= k < x.len() implies is_ws(#[trigger] x[k]) by {
            if k < w1.len() {
                assert(x[k] == w1[k]);
            } else if k < w1.len() + s.len() {
                assert(x[k] == s[k - w1.len()]);
            } else {
                assert(x[k] == w2[k - w1.len() - s.len()]);
            }
        }
        lemma_lead_ws_unique(x, x.len() as int);
        assert(trim_start(x) =~= Seq::<char>::empty());
        assert(trim_start(s) =~= Seq::<char>::empty());
        assert(trim_end(Seq::<char>::empty()) =~= Seq::<char>::empty());
    } else {
        let n = w1.len() + a;
        assert forall|k: int| 0 <= k < n implies is_ws(#[trigger] x[k]) by {
            if k < w1.len() {
                assert(x[k] == w1[k]);
            } else {
                assert(x[k] == s[k - w1.len()]);
            }
        }
        assert(x[n] == s[a]);
        lemma_lead_ws_unique(x, n);
        let ts = trim_start(s);
        assert(trim_start(x) =~= ts + w2);
        lemma_trail_ws(ts);
        let b = trail_ws(ts) as int;
        assert(ts[0] == s[a]);
        assert(b < ts.len());
        let y = ts + w2;
        let m = b + w2.len();
        assert forall|k: int| y.len() - m <= k < y.len() implies is_ws(#[trigger] y[k]) by {
            if k < ts.len() {
                assert(y[k] == ts[k]);
            } else {
                assert(y[k] == w2[k - ts.len()]);
            }
        }
        assert(y[y.len() - m - 1] == ts[ts.len() - b - 1]);
        lemma_trail_ws_unique(y, m);
        assert(trim_end(y) =~= trim_end(ts));
    }
}

/// ASCII lowercasing keeps whitespace whitespace and everything else not.
proof fn lemma_lower_keeps_ws(c: char, d: char)
    requires
        lower(c) == lower(d),
    ensures
        is_ws(c) == is_ws(d),
{
    if 'A' <= c && c <= 'Z' {
        assert((c as u32) + 32 <= 0x7a);
        assert(!is_ws(lower(c)));
    }
    if 'A' <= d && d <= 'Z' {
        assert((d as u32) + 32 <= 0x7a);
        assert(!is_ws(lower(d)));
    }
}

/// Strings equal up to ASCII case trim to strings equal up to ASCII case.
pub proof fn lemma_trim_ignores_case(s: Seq<char>, t: Seq<char>)
    requires
        lower_seq(s) == lower_seq(t),
    ensures
        lower_seq(trim(s)) == lower_seq(trim(t)),
{
    assert(s.len() == lower_seq(s).len() && t.len() == lower_seq(t).len());
    assert forall|k: int| 0 <= k < s.len() implies is_ws(#[trigger] s[k]) == is_ws(t[k]) by {
        assert(lower_seq(s)[k] == lower(s[k]));
        assert(lower_seq(t)[k] == lower(t[k]));
        lemma_lower_keeps_ws(s[k], t[k]);
    }
    lemma_lead_ws(s);
    let a = lead_ws(s) as int;
    if a < s.len() {
        assert(!is_ws(t[a]));
    }
    assert forall|k: int| 0 <= k < a implies is_ws(#[trigger] t[k]) by {
        assert(is_ws(s[k]));
    }
    lemma_lead_ws_unique(t, a);
    let ts = trim_start(s);
    let tt = trim_start(t);
    assert(ts.len() == tt.len());
    assert forall|k: int| 0 <= k < ts.len() implies is_ws(#[trigger] ts[k]) == is_ws(tt[k]) by {
        assert(ts[k] == s[k + a]);
        assert(tt[k] == t[k + a]);
    }
    lemma_trail_ws(ts);
    let b = trail_ws(ts) as int;
    assert forall|k: int| ts.len() - b <= k < ts.len() implies is_ws(#[trigger] tt[k]) by {
        assert(is_ws(ts[k]));
    }
    if b < ts.len() {
        assert(!is_ws(tt[ts.len() - b - 1]));
    }
    lemma_trail_ws_unique(tt, b);
    assert forall|k: int| 0 <= k < trim(s).len() implies #[trigger] lower_seq(trim(s))[k] == lower_seq(
        trim(t),
    )[k] by {
        assert(trim(s)[k] == s[k + a]);
        assert(trim(t)[k] == t[k + a]);
        assert(lower_seq(s)[k + a] == lower(s[k + a]));
        assert(lower_seq(t)[k + a] == lower(t[k + a]));
        assert(lower_seq(s)[k + a] == lower_seq(t)[k + a]);
        assert(lower_seq(trim(s))[k] == lower(trim(s)[k]));
        assert(lower_seq(trim(t))[k] == lower(trim(t)[k]));
    }
    assert(lower_seq(trim(s)) =~= lower_seq(trim(t)));
}

/// Any count with the defining property is `lead_ws`.
pub proof fn lemma_lead_ws_unique(s: Seq<char>, n: int)
    requires
        0 <= n <= s.len(),
        forall|k: int| 0 <= k < n ==> is_ws(#[trigger] s[k]),
        n < s.len() ==> !is_ws(s[n]),
    ensures
        lead_ws(s) == n,
    decreases s.len(),
{
    if n > 0 {
        assert(is_ws(s[0]));
        assert forall|k: int| 0 <= k < n - 1 implies is_ws(#[trigger] s.drop_first()[k]) by {
            assert(s.drop_first()[k] == s[k + 1]);
        }
        if n - 1 < s.len() - 1 {
            assert(s.drop_first()[n - 1] == s[n]);
        }
        lemma_lead_ws_unique(s.drop_first(), n - 1);
    } else {
        if s.len() > 0 {
            assert(!is_ws(s[0]));
        }
    }
}

pub proof fn lemma_trail_ws_unique(s: Seq<char>, n: int)
    requires
        0 <= n <= s.len(),
        forall|k: int| s.len() - n <= k < s.len() ==> is_ws(#[trigger] s[k]),
        n < s.len() ==> !is_ws(s[s.len() - n - 1]),
    ensures
        trail_ws(s) == n,
    decreases s.len(),
{
    if n > 0 {
        assert(is_ws(s[s.len() - 1]));
        let t = s.drop_last();
        assert forall|k: int| t.len() - (n - 1) <= k < t.len() implies is_ws(#[trigger] t[k]) by {
            assert(t[k] == s[k]);
        }
        if n - 1 < t.len() {
            assert(t[t.len() - (n - 1) - 1] == s[s.len() - n - 1]);
        }
        lemma_trail_ws_unique(t, n - 1);
    } else {
        if s.len() > 0 {
            assert(!is_ws(s[s.len() - 1]));
        }
    }
}

/// Bounds `[lo, hi)` of `trim(s[from..to])`, as absolute indices.
pub fn trim_bounds(s: &[char], from: usize, to: usize) -> (r: (usize, usize))
    requires
        from <= to <= s.len(),
    ensures
        from <= r.0 <= r.1 <= to,
        s@.subrange(r.0 as int, r.1 as int) == trim(s@.subrange(from as int, to as int)),
        s@.subrange(r.0 as int, to as int) == trim_start(s@.subrange(from as int, to as int)),
{
    let ghost t = s@.subrange(from as int, to as int);
    let mut lo = from;
    while lo < to && is_whitespace(s[lo])
        invariant
            from <= lo <= to <= s.len(),
            t == s@.subrange(from as int, to as int),
            forall|k: int| from <= k < lo ==> is_ws(#[trigger] s@[k]),
        decreases to - lo,
    {
        lo = lo + 1;
    }
    proof {
        assert forall|k: int| 0 <= k < lo - from implies is_ws(#[trigger] t[k]) by {
            assert(t[k] == s@[from + k]);
        }
        if lo < to {
            assert(t[lo - from] == s@[lo as int]);
        }
        lemma_lead_ws_unique(t, lo - from);
        assert(trim_start(t) =~= s@.subrange(lo as int, to as int));
    }
    let ghost u = s@.subrange(lo as int, to as int);
    let mut hi = to;
    while hi > lo && is_whitespace(s[hi - 1])
        invariant
            from <= lo <= hi <= to <= s.len(),
            u == s@.subrange(lo as int, to as int),
            forall|k: int| hi <= k < to ==> is_ws(#[trigger] s@[k]),
        decreases hi - lo,
    {
        hi = hi - 1;
    }
    proof {
        let n = to - hi;
        assert forall|k: int| u.len() - n <= k < u.len() implies is_ws(#[trigger] u[k]) by {
            assert(u[k] == s@[lo + k]);
        }
        if n < u.len() {
            assert(u[u.len() - n - 1] == s@[hi - 1]);
        }
        lemma_trail_ws_unique(u, n as int);
        assert(trim_end(u) =~= s@.subrange(lo as int, hi as int));
    }
    (lo, hi)
}

/// The chars of a `str`, in order.
pub fn str_chars(s: &str) -> (v: Vec<char>)
    ensures
        v@ == s@,
{
    let mut v: Vec<char> = Vec::new();
    for c in it: s.chars()
        invariant
            v@ == it.seq().take(it.index() as int),
    {
        v.push(c);
    }
    proof {
        assert(v@ =~= s@);
    }
    v
}

/// Appends one char (`String::push`).
#[verifier::external_body]
fn push_char(s: &mut String, c: char)
    ensures
        final(s)@ == old(s)@.push(c),
{
    s.push(c);
}

/// A `String` holding exactly the given chars.
pub fn string_from(v: &[char]) -> (s: String)
    ensures
        s@ == v@,
{
    let mut s = String::new();
    let mut i: usize = 0;
    while i < v.len()
        invariant
            i <= v.len(),
            s@ == v@.subrange(0, i as int),
        decreases v.len() - i,
    {
        push_char(&mut s, v[i]);
        proof {
            assert(v@.subrange(0, i + 1) =~= v@.subrange(0, i as int).push(v@[i as int]));
        }
        i = i + 1;
    }
    proof {
        assert(v@.subrange(0, v.len() as int) =~= v@);
    }
    s
}

/// A `String` holding `v[from..to]`.
pub fn string_from_range(v: &[char], from: usize, to: usize) -> (s: String)
    requires
        from <= to <= v.len(),
    ensures
        s@ == v@.subrange(from as int, to as int),
{
    let mut s = String::new();
    let mut i: usize = from;
    while i < to
        invariant
            from <= i <= to <= v.len(),
            s@ == v@.subrange(from as int, i as int),
        decreases to - i,
    {
        push_char(&mut s, v[i]);
        proof {
            assert(v@.subrange(from as int, i + 1) =~= v@.subrange(from as int, i as int).push(
                v@[i as int],
            ));
        }
        i = i + 1;
    }
    s
}

/// Appends `v[from..to]` to a char buffer.
pub fn extend_range(out: &mut Vec<char>, v: &[char], from: usize, to: usize)
    requires
        from <= to <= v.len(),
    ensures
        final(out)@ == old(out)@ + v@.subrange(from as int, to as int),
{
    let mut i: usize = from;
    while i < to
        invariant
            from <= i <= to <= v.len(),
            out@ == old(out)@ + v@.subrange(from as int, i as int),
        decreases to - i,
    {
        out.push(v[i]);
        proof {
            assert(v@.subrange(from as int, i + 1) =~= v@.subrange(from as int, i as int).push(
                v@[i as int],
            ));
        }
        i = i + 1;
    }
}

/// Appends a whole buffer.
pub fn extend_all(out: &mut Vec<char>, v: &[char])
    ensures
        final(out)@ == old(out)@ + v@,
{
    extend_range(out, v, 0, v.len());
    proof {
        assert(v@.subrange(0, v@.len() as int) =~= v@);
    }
}

/// Decimal digits of a natural number, most significant first, no sign.
pub open spec fn decimal(n: nat) -> Seq<char>
    decreases n,
{
    if n < 10 {
        seq![digit_char(n)]
    } else {
        decimal(n / 10).push(digit_char(n % 10))
    }
}

pub open spec fn digit_char(d: nat) -> char {
    (('0' as u32) + d) as char
}

/// Appends the decimal rendering of `n` (as `format!("{n}")` does).
pub fn push_decimal(out: &mut Vec<char>, n: u64)
    ensures
        final(out)@ == old(out)@ + decimal(n as nat),
    decreases n,
{
    if n < 10 {
        let c = ((('0' as u32) + (n as u32)) as u8) as char;
        proof {
            assert(c == digit_char(n as nat));
        }
        out.push(c);
        proof {
            assert(old(out)@.push(c) =~= old(out)@ + decimal(n as nat));
        }
    } else {
        push_decimal(out, n / 10);
        let d = (n % 10) as u32;
        let c = ((('0' as u32) + d) as u8) as char;
        proof {
            assert(c == digit_char((n % 10) as nat));
        }
        out.push(c);
        proof {
            assert((old(out)@ + decimal((n / 10) as nat)).push(c) =~= old(out)@ + decimal(
                n as nat,
            ));
        }
    }
}


/// Element-wise equality of two char buffers.
pub fn chars_eq(a: &[char], b: &[char]) -> (r: bool)
    ensures
        r == (a@ == b@),
{
    if a.len() != b.len() {
        return false;
    }
    let mut i: usize = 0;
    while i < a.len()
        invariant
            a.len() == b.len(),
            i <= a.len(),
            forall|k: int| 0 <= k < i ==> a@[k] == b@[k],
        decreases a.len() - i,
    {
        if a[i] != b[i] {
            return false;
        }
        i = i + 1;
    }
    assert(a@ =~= b@);
    true
}

/// Whether a buffer holds exactly the chars of a literal.
pub fn is_lit(a: &[char], lit: &str) -> (r: bool)
    ensures
        r == (a@ == lit@),
{
    let b = str_chars(lit);
    chars_eq(a, &b)
}

/// ASCII-lowercased copy (`str::to_ascii_lowercase`).
pub fn lower_vec(v: &[char]) -> (r: Vec<char>)
    ensures
        r@ == lower_seq(v@),
{
    let mut out: Vec<char> = Vec::new();
    let mut i: usize = 0;
    while i < v.len()
        invariant
            i <= v.len(),
            out@ == lower_seq(v@.subrange(0, i as int)),
        decreases v.len() - i,
    {
        out.push(to_lower(v[i]));
        proof {
            assert(lower_seq(v@.subrange(0, i + 1)) =~= lower_seq(v@.subrange(0, i as int)).push(
                lower(v@[i as int]),
            ));
        }
        i = i + 1;
    }
    proof {
        assert(v@.subrange(0, v@.len() as int) =~= v@);
    }
    out
}

/// `s.trim().to_ascii_lowercase()` as chars: the lookup key used by the
/// keyword parsers.
pub fn trimmed_lower(s: &str) -> (r: Vec<char>)
    ensures
        r@ == lower_seq(trim(s@)),
{
    let v = str_chars(s);
    let (lo, hi) = trim_bounds(&v, 0, v.len());
    proof {
        assert(v@.subrange(0, v@.len() as int) =~= v@);
    }
    let t = slice_vec(&v, lo, hi);
    lower_vec(&t)
}

/// Copy of `v[from..to]`.
pub fn slice_vec(v: &[char], from: usize, to: usize) -> (r: Vec<char>)
    requires
        from <= to <= v.len(),
    ensures
        r@ == v@.subrange(from as int, to as int),
{
    let mut out: Vec<char> = Vec::new();
    extend_range(&mut out, v, from, to);
    proof {
        assert(Seq::<char>::empty() + v@.subrange(from as int, to as int) =~= v@.subrange(
            from as int,
            to as int,
        ));
    }
    out
}


/// `a` followed by `b`, as a `String`.
pub fn concat(a: &str, b: &str) -> (r: String)
    ensures
        r@ == a@ + b@,
{
    let mut v = str_chars(a);
    let w = str_chars(b);
    extend_all(&mut v, &w);
    string_from(&v)
}

/// `p` is a prefix of `s`.
pub open spec fn has_prefix(s: Seq<char>, p: Seq<char>) -> bool {
    p.len() <= s.len() && s.subrange(0, p.len() as int) == p
}

/// `t` occurs in `s` starting at index `i`.
pub open spec fn occurs_at(s: Seq<char>, t: Seq<char>, i: int) -> bool {
    0 <= i && i + t.len() <= s.len() && s.subrange(i, i + t.len()) == t
}

/// `t` occurs somewhere in `s` (`str::contains`; the empty pattern occurs
/// everywhere).
pub open spec fn contains_seq(s: Seq<char>, t: Seq<char>) -> bool {
    exists|i: int| occurs_at(s, t, i)
}

/// Whether `t` occurs in `s` at index `i`.
pub fn occurs_at_of(s: &[char], t: &[char], i: usize) -> (r: bool)
    ensures
        r == occurs_at(s@, t@, i as int),
{
    if i > s.len() || t.len() > s.len() - i {
        return false;
    }
    let mut k: usize = 0;
    while k < t.len()
        invariant
            i + t.len() <= s.len(),
            k <= t.len(),
            forall|j: int| 0 <= j < k ==> s@[i + j] == t@[j],
        decreases t.len() - k,
    {
        if s[i + k] != t[k] {
            proof {
                assert(s@.subrange(i as int, i + t.len())[k as int] != t@[k as int]);
            }
            return false;
        }
        k = k + 1;
    }
    proof {
        assert(s@.subrange(i as int, i + t.len()) =~= t@);
    }
    true
}

/// `p` is a prefix of `s` (`str::starts_with`).
pub fn starts_with_of(s: &[char], p: &[char]) -> (r: bool)
    ensures
        r == has_prefix(s@, p@),
{
    occurs_at_of(s, p, 0)
}

/// `t` occurs in `s` (`str::contains`).
pub fn contains_of(s: &[char], t: &[char]) -> (r: bool)
    ensures
        r == contains_seq(s@, t@),
{
    if t.len() > s.len() {
        proof {
            assert forall|i: int| !occurs_at(s@, t@, i) by {}
        }
        return false;
    }
    let last = s.len() - t.len();
    let mut i: usize = 0;
    while i <= last
        invariant
            last + t.len() == s.len(),
            i <= last + 1,
            forall|j: int| 0 <= j < i ==> !occurs_at(s@, t@, j),
        decreases last + 1 - i,
    {
        if occurs_at_of(s, t, i) {
            return true;
        }
        if i == last {
            proof {
                assert forall|j: int| !occurs_at(s@, t@, j) by {
                    if 0 <= j < i {
                    }
                }
            }
            return false;
        }
        i = i + 1;
    }
    false
}

} // verus!
