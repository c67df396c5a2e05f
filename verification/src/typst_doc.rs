//! Typst document text fed to the compiler: page setup around a body,
//! LaTeX bodies converted to Typst math by `mitex` (with a scope shim),
//! code listings as raw blocks, and the default glyph paint.
use vstd::prelude::*;

use crate::errors::TypstError;
use crate::palette::{Rgba8, rgb, white};
use crate::text::{
    contains_of, contains_seq, decimal, extend_all, is_lit, is_whitespace, is_ws, occurs_at,
    occurs_at_of, push_decimal, str_chars, string_from,
};

verus! {

/// Typst-scope shim for `mitex` output, following the `@preview/mitex`
/// package's standard spec: `mitex` emits identifiers such as `mitexsqrt`,
/// `pmatrix` or `mitexdisplay` that the package normally defines; the
/// compiler runs without the package, so the same surface is defined at
/// the document root. `\newcommand` and friends, the `array`
/// environment's column spec, and `\color[model]{..}` are not supported.
pub const MITEX_PRELUDE: &'static str = r#"
#let mitexdisplay = math.display
#let mitexinline = math.inline
#let mitexscript = math.script
#let mitexsscript = math.sscript
#let mitexbold(it) = math.bold(math.upright(it))
#let mitexupright = math.upright
#let mitexitalic = math.italic
#let mitexmathbf(it) = math.bold(math.upright(it))
#let mitexoverbrace(it) = math.limits(math.overbrace(it))
#let mitexunderbrace(it) = math.limits(math.underbrace(it))
#let mitexnot(it) = math.cancel(angle: 20deg, it)
#let mitexset(it) = $\{ #it \}$
#let textmath(it) = it
#let textmd(it) = it
#let textnormal(it) = it
#let textbf(it) = math.bold(it)
#let textit(it) = math.italic(it)
#let textrm(it) = math.upright(it)
#let textup(it) = math.upright(it)
#let textsf(it) = math.sans(it)
#let texttt(it) = math.mono(it)
#let matrix = math.mat.with(delim: none)
#let pmatrix = math.mat.with(delim: "(")
#let bmatrix = math.mat.with(delim: "[")
#let Bmatrix = math.mat.with(delim: "{")
#let vmatrix = math.mat.with(delim: "|")
#let Vmatrix = math.mat.with(delim: "||")
#let smallmatrix(..args) = math.inline(math.mat(delim: none, ..args))
#let rcases = math.cases.with(reverse: true)
#let aligned(..args) = if args.pos().len() > 0 {
  math.op(math.display(args.pos().sum()))
} else { math.zws }
#let alignedat(n, ..args) = math.op(args.pos().sum())
#let operatornamewithlimits(it) = math.op(limits: true, math.upright(it))
#let boxed(it) = box(stroke: 0.5pt, inset: 6pt, it)
#let mitexsqrt(..args) = {
  let pos = args.pos()
  if pos.len() == 1 {
    math.sqrt(pos.at(0))
  } else {
    let idx = pos.at(0)
    let cleaned = if idx.has("children") {
      idx.children.filter(it => it != [\[] and it != [\]]).sum()
    } else { idx }
    math.root(cleaned, pos.at(1))
  }
}
#let mitex-color-map = (
  "red": rgb(255, 0, 0), "green": rgb(0, 255, 0), "blue": rgb(0, 0, 255),
  "cyan": rgb(0, 255, 255), "magenta": rgb(255, 0, 255), "yellow": rgb(255, 255, 0),
  "black": rgb(0, 0, 0), "white": rgb(255, 255, 255), "gray": rgb(128, 128, 128),
  "lightgray": rgb(192, 192, 192), "darkgray": rgb(64, 64, 64), "brown": rgb(165, 42, 42),
  "orange": rgb(255, 165, 0), "pink": rgb(255, 182, 193), "purple": rgb(128, 0, 128),
  "teal": rgb(0, 128, 128), "olive": rgb(128, 128, 0),
)
#let mitex-tex-str(it) = if it.has("children") {
  it.children.filter(c => c != [ ] and c != [#math.zws]).map(c => c.text).sum()
} else { it.text }
#let mitexcolor(spec, ..rest) = {
  let c = mitex-color-map.at(lower(mitex-tex-str(spec)), default: none)
  if c != none { text(fill: c, rest.pos().sum()) } else { rest.pos().sum() }
}
#let colortext(spec, body) = {
  let c = mitex-color-map.at(lower(mitex-tex-str(spec)), default: none)
  if c != none { text(fill: c, body) } else { body }
}
#let mitexlabel(..args) = { }
"#;

/// How a source is written.
#[derive(Clone, Copy, PartialEq, Eq, Structural)]
pub enum Syntax {
    /// Native Typst math syntax.
    Typst,
    /// LaTeX math syntax, converted to Typst by `mitex`.
    Latex,
    /// Typst markup or plain text (not wrapped in `$ .. $`).
    Text,
}

/// The syntax a formula is declared in: `"latex"` or `"typst"`, exactly.
pub open spec fn syntax_named(s: Seq<char>) -> Option<Syntax> {
    if s == "latex"@ {
        Some(Syntax::Latex)
    } else if s == "typst"@ {
        Some(Syntax::Typst)
    } else {
        None
    }
}

/// Reads a formula's declared syntax; `None` for any other word.
pub fn formula_syntax(s: &str) -> (r: Option<Syntax>)
    ensures
        r == syntax_named(s@),
{
    let v = str_chars(s);
    if is_lit(&v, "latex") {
        Some(Syntax::Latex)
    } else if is_lit(&v, "typst") {
        Some(Syntax::Typst)
    } else {
        None
    }
}

/// What `mitex::convert_math` returns for a LaTeX math input: the Typst
/// math text, or mitex's error text.
pub uninterp spec fn mitex_math(input: Seq<char>) -> Result<Seq<char>, Seq<char>>;

/// Where the trivia after index `i` ends: whitespace, and `%` comments up
/// to the end of their line, are skipped (`in_comment`: `i` is inside a
/// comment).
pub open spec fn trivia_end(s: Seq<char>, i: int, in_comment: bool) -> int
    decreases s.len() - i,
{
    if i < 0 || i >= s.len() {
        i
    } else if in_comment {
        if s[i] == '\n' || s[i] == '\r' {
            trivia_end(s, i + 1, false)
        } else {
            trivia_end(s, i + 1, true)
        }
    } else if is_ws(s[i]) {
        trivia_end(s, i + 1, false)
    } else if s[i] == '%' {
        trivia_end(s, i + 1, true)
    } else {
        i
    }
}

/// A `{` at `j` closed by a `}` with no brace in between.
pub open spec fn simple_group_at(s: Seq<char>, j: int) -> bool {
    &&& 0 <= j < s.len()
    &&& s[j] == '{'
    &&& exists|e: int|
        j < e < s.len() && #[trigger] s[e] == '}' && forall|k: int|
            j < k < e ==> s[k] != '{' && s[k] != '}'
}

/// `\label` at `i`, not directly followed by a brace group without inner
/// braces.
pub open spec fn bare_label_at(s: Seq<char>, i: int) -> bool {
    occurs_at(s, "\\label"@, i) && !simple_group_at(s, i + 6)
}

/// `\begin` at `i`, then trivia, then `{figure`, `{table` or `{tabular`.
pub open spec fn float_env_at(s: Seq<char>, i: int) -> bool {
    &&& occurs_at(s, "\\begin"@, i)
    &&& {
        let j = trivia_end(s, i + 6, false);
        ||| occurs_at(s, "{figure"@, j)
        ||| occurs_at(s, "{table"@, j)
        ||| occurs_at(s, "{tabular"@, j)
    }
}

/// LaTeX that mitex panics or loops on rather than rejecting:
/// - a `\label` command whose argument is not a brace group written right
///   after it (the converter takes the argument with `expect` and cuts its
///   first and last byte off, which fails on a missing or one-char
///   argument); a `\label{...}` with no brace inside the group is kept;
/// - an `\includegraphics` command (its argument is taken with `expect`);
/// - a `figure`, `table` or `tabular` environment (a `\caption` or the column
///   argument taken with `expect`). The lexer reads an environment's name
///   right after the first `{` past `\begin` and its trivia; in the bundled
///   command spec these are the only environment names with `fig` or `tab`
///   in them;
/// - a macro declaration (`\newcommand`, `\renewcommand`, `\providecommand`,
///   `\DeclareRobustCommand`, `\newenvironment`, `\renewenvironment`, and
///   their starred forms): the lexer unwraps the token after a `#` in a
///   definition, and expands macros without a depth limit.
pub open spec fn tex_hazard(s: Seq<char>) -> bool {
    ||| (exists|i: int| #[trigger] bare_label_at(s, i))
    ||| contains_seq(s, "\\includegraphics"@)
    ||| (exists|i: int| #[trigger] float_env_at(s, i))
    ||| contains_seq(s, "\\newcommand"@)
    ||| contains_seq(s, "\\renewcommand"@)
    ||| contains_seq(s, "\\providecommand"@)
    ||| contains_seq(s, "\\DeclareRobustCommand"@)
    ||| contains_seq(s, "\\newenvironment"@)
    ||| contains_seq(s, "\\renewenvironment"@)
}

fn trivia_end_of(v: &[char], i: usize) -> (r: usize)
    ensures
        r == trivia_end(v@, i as int, false),
{
    let mut k = i;
    let mut c = false;
    while k < v.len()
        invariant
            trivia_end(v@, k as int, c) == trivia_end(v@, i as int, false),
        decreases v.len() - k,
    {
        if c {
            if v[k] == '\n' || v[k] == '\r' {
                c = false;
            }
            k = k + 1;
        } else if is_whitespace(v[k]) {
            k = k + 1;
        } else if v[k] == '%' {
            c = true;
            k = k + 1;
        } else {
            return k;
        }
    }
    k
}

fn simple_group_of(v: &[char], j: usize) -> (r: bool)
    ensures
        r == simple_group_at(v@, j as int),
{
    if j >= v.len() || v[j] != '{' {
        return false;
    }
    let mut e = j + 1;
    while e < v.len()
        invariant
            j < e <= v.len(),
            v@[j as int] == '{',
            forall|k: int| j < k < e ==> v@[k] != '{' && v@[k] != '}',
        decreases v.len() - e,
    {
        if v[e] == '}' {
            return true;
        }
        if v[e] == '{' {
            proof {
                assert forall|e2: int| j < e2 < v@.len() && #[trigger] v@[e2] == '}' implies !(forall|
                    k: int,
                | j < k < e2 ==> v@[k] != '{' && v@[k] != '}') by {
                    if e2 < e {
                    } else {
                        assert(j < e < e2);
                    }
                }
            }
            return false;
        }
        e = e + 1;
    }
    false
}

fn any_bare_label(v: &[char]) -> (r: bool)
    ensures
        r == exists|i: int| #[trigger] bare_label_at(v@, i),
{
    let pat = str_chars("\\label");
    proof {
        reveal_strlit("\\label");
    }
    let mut i: usize = 0;
    while i < v.len()
        invariant
            i <= v.len(),
            pat@ == "\\label"@,
            pat@.len() == 6,
            forall|k: int| 0 <= k < i ==> !#[trigger] bare_label_at(v@, k),
        decreases v.len() - i,
    {
        if occurs_at_of(v, &pat, i) {
            if !simple_group_of(v, i + 6) {
                assert(bare_label_at(v@, i as int));
                return true;
            }
        }
        i = i + 1;
    }
    proof {
        assert forall|k: int| !#[trigger] bare_label_at(v@, k) by {
            if k >= i {
                assert(!occurs_at(v@, "\\label"@, k));
            }
        }
    }
    false
}

fn any_float_env(v: &[char]) -> (r: bool)
    ensures
        r == exists|i: int| #[trigger] float_env_at(v@, i),
{
    let pat = str_chars("\\begin");
    let f = str_chars("{figure");
    let t = str_chars("{table");
    let tb = str_chars("{tabular");
    proof {
        reveal_strlit("\\begin");
    }
    let mut i: usize = 0;
    while i < v.len()
        invariant
            i <= v.len(),
            pat@ == "\\begin"@,
            pat@.len() == 6,
            f@ == "{figure"@,
            t@ == "{table"@,
            tb@ == "{tabular"@,
            forall|k: int| 0 <= k < i ==> !#[trigger] float_env_at(v@, k),
        decreases v.len() - i,
    {
        if occurs_at_of(v, &pat, i) {
            let j = trivia_end_of(v, i + 6);
            if occurs_at_of(v, &f, j) || occurs_at_of(v, &t, j) || occurs_at_of(v, &tb, j) {
                assert(float_env_at(v@, i as int));
                return true;
            }
        }
        i = i + 1;
    }
    proof {
        assert forall|k: int| !#[trigger] float_env_at(v@, k) by {
            if k >= i {
                assert(!occurs_at(v@, "\\begin"@, k));
            }
        }
    }
    false
}

/// Whether `source` is LaTeX that the library refuses before conversion.
pub fn is_tex_hazard(source: &str) -> (r: bool)
    ensures
        r == tex_hazard(source@),
{
    let v = str_chars(source);
    any_bare_label(&v) || contains_of(&v, &str_chars("\\includegraphics")) || any_float_env(&v)
        || contains_of(&v, &str_chars("\\newcommand"))
        || contains_of(&v, &str_chars("\\renewcommand"))
        || contains_of(&v, &str_chars("\\providecommand"))
        || contains_of(&v, &str_chars("\\DeclareRobustCommand"))
        || contains_of(&v, &str_chars("\\newenvironment"))
        || contains_of(&v, &str_chars("\\renewenvironment"))
}

/// The `TexConvert` message for LaTeX refused by `tex_hazard`.
pub const TEX_UNSUPPORTED: &'static str =
    "\\label without a brace group, \\includegraphics, figure, table and tabular environments and macro declarations are not supported in formulas";

/// `mitex::convert_math(input, None)`: LaTeX math to Typst math with the
/// default command spec. Trusted: the result is `mitex_math(input)` (the
/// conversion reads only its input and the crate's built-in spec). The
/// converter's own `expect`s and byte slices are all in the handling of
/// `\label` without a brace group, `\includegraphics`, figures and tables, and the lexer's
/// unchecked `unwrap` and unbounded expansion are in user macros; `requires`
/// leaves all of these out. The other `unwrap`s read in mitex's converter,
/// parser and lexer each follow a check that the value is there. Left
/// unsaid: the parser and converter recurse once per nested group, so input
/// nested deeper than the thread's stack allows aborts; that depth depends
/// on the machine.
#[verifier::external_body]
fn convert_math(input: &str) -> (r: Result<String, String>)
    requires
        !tex_hazard(input@),
    ensures
        match r {
            Ok(s) => mitex_math(input@) == Ok::<Seq<char>, Seq<char>>(s@),
            Err(e) => mitex_math(input@) == Err::<Seq<char>, Seq<char>>(e@),
        },
{
    mitex::convert_math(input, None)
}

/// Page setup shared by every compiled document: a page that hugs its
/// content, and the font size (`font_size` is the size's decimal text, in
/// pt).
pub open spec fn page_setup(font_size: Seq<char>) -> Seq<char> {
    "#set page(width: auto, height: auto, margin: 0pt)\n#set text(size: "@ + font_size
        + "pt)\n"@
}

/// A math document: page setup, a scope prelude, then `$ body $`.
pub open spec fn math_document(font_size: Seq<char>, prelude: Seq<char>, body: Seq<char>) -> Seq<
    char,
> {
    page_setup(font_size) + prelude + "$ "@ + body + " $"@
}

/// A text document: page setup, then the markup itself.
pub open spec fn text_document(font_size: Seq<char>, body: Seq<char>) -> Seq<char> {
    page_setup(font_size) + body
}

/// The document compiled for `source` written in `syntax`: Typst math and
/// LaTeX (after conversion, with `MITEX_PRELUDE`) go between `$ .. $`;
/// text goes in as is. A failed LaTeX conversion is `TexConvert` with
/// mitex's message; LaTeX that `tex_hazard` refuses is `TexConvert` with
/// `TEX_UNSUPPORTED`, without calling mitex.
pub fn typst_document(source: &str, syntax: Syntax, font_size: &str) -> (r: Result<String, TypstError>)
    ensures
        match syntax {
            Syntax::Typst => r matches Ok(d) && d@ == math_document(
                font_size@,
                Seq::empty(),
                source@,
            ),
            Syntax::Text => r matches Ok(d) && d@ == text_document(font_size@, source@),
            Syntax::Latex => if tex_hazard(source@) {
                r matches Err(TypstError::TexConvert(m)) && m@ == TEX_UNSUPPORTED@
            } else {
                match mitex_math(source@) {
                    Ok(body) => r matches Ok(d) && d@ == math_document(
                        font_size@,
                        MITEX_PRELUDE@,
                        body,
                    ),
                    Err(e) => r matches Err(TypstError::TexConvert(m)) && m@ == e,
                }
            },
        },
{
    let mut out: Vec<char> = Vec::new();
    extend_all(&mut out, &str_chars("#set page(width: auto, height: auto, margin: 0pt)\n#set text(size: "));
    extend_all(&mut out, &str_chars(font_size));
    extend_all(&mut out, &str_chars("pt)\n"));
    match syntax {
        Syntax::Text => {
            extend_all(&mut out, &str_chars(source));
        },
        Syntax::Typst => {
            extend_all(&mut out, &str_chars("$ "));
            extend_all(&mut out, &str_chars(source));
            extend_all(&mut out, &str_chars(" $"));
        },
        Syntax::Latex => {
            if is_tex_hazard(source) {
                return Err(TypstError::TexConvert(TEX_UNSUPPORTED.to_string()));
            }
            let body = match convert_math(source) {
                Ok(b) => b,
                Err(e) => {
                    return Err(TypstError::TexConvert(e));
                },
            };
            extend_all(&mut out, &str_chars(MITEX_PRELUDE));
            extend_all(&mut out, &str_chars("$ "));
            extend_all(&mut out, &str_chars(body.as_str()));
            extend_all(&mut out, &str_chars(" $"));
        },
    }
    proof {
        assert(out@ =~= match syntax {
            Syntax::Text => text_document(font_size@, source@),
            Syntax::Typst => math_document(font_size@, Seq::empty(), source@),
            Syntax::Latex => out@,
        });
    }
    Ok(string_from(&out))
}

/// Markup whose default text color is `c`: a `#set text(fill: rgb(r, g, b))`
/// rule (channels in decimal) on its own line, then `body`.
pub open spec fn filled_markup(body: Seq<char>, c: Rgba8) -> Seq<char> {
    "#set text(fill: rgb("@ + decimal(c.r as nat) + ", "@ + decimal(c.g as nat) + ", "@ + decimal(
        c.b as nat,
    ) + "))\n"@ + body
}

/// Bakes a default text color into markup, so spans that set their own
/// color keep it.
pub fn fill_markup(body: &str, c: Rgba8) -> (r: String)
    ensures
        r@ == filled_markup(body@, c),
{
    let mut out = str_chars("#set text(fill: rgb(");
    push_decimal(&mut out, c.r as u64);
    extend_all(&mut out, &str_chars(", "));
    push_decimal(&mut out, c.g as u64);
    extend_all(&mut out, &str_chars(", "));
    push_decimal(&mut out, c.b as u64);
    extend_all(&mut out, &str_chars("))\n"));
    extend_all(&mut out, &str_chars(body));
    string_from(&out)
}

/// The paint Typst's default black text is mapped to on dark scenes.
pub fn palette_white() -> (c: Rgba8)
    ensures
        c == rgb(255, 255, 255),
{
    white()
}

/// The fill of a compiled glyph: an explicit color wins; otherwise the
/// glyph's own fill, with pure black (Typst's default text color, any
/// alpha) mapped to opaque white; no fill stays no fill.
pub open spec fn glyph_fill_spec(explicit: Option<Rgba8>, glyph: Option<Rgba8>) -> Option<Rgba8> {
    match explicit {
        Some(e) => Some(e),
        None => match glyph {
            None => None,
            Some(c) => Some(
                if c.r == 0 && c.g == 0 && c.b == 0 {
                    rgb(255, 255, 255)
                } else {
                    c
                },
            ),
        },
    }
}

/// See `glyph_fill_spec`.
pub fn glyph_fill(explicit: Option<Rgba8>, glyph: Option<Rgba8>) -> (r: Option<Rgba8>)
    ensures
        r == glyph_fill_spec(explicit, glyph),
{
    match explicit {
        Some(e) => Some(e),
        None => match glyph {
            None => None,
            Some(c) => {
                if c.r == 0 && c.g == 0 && c.b == 0 {
                    Some(palette_white())
                } else {
                    Some(c)
                }
            },
        },
    }
}

/// One char inside a Typst string literal: backslash, quote, newline,
/// carriage return and tab are escaped.
pub open spec fn string_char(c: char) -> Seq<char> {
    if c == '\\' {
        seq!['\\', '\\']
    } else if c == '"' {
        seq!['\\', '"']
    } else if c == '\n' {
        seq!['\\', 'n']
    } else if c == '\r' {
        seq!['\\', 'r']
    } else if c == '\t' {
        seq!['\\', 't']
    } else {
        seq![c]
    }
}

/// `s` escaped for a Typst string literal.
pub open spec fn string_escaped(s: Seq<char>) -> Seq<char>
    decreases s.len(),
{
    if s.len() == 0 {
        Seq::empty()
    } else {
        string_escaped(s.drop_last()) + string_char(s.last())
    }
}

/// Escape `s` for use inside a Typst string literal.
pub fn escape_typst_string(s: &str) -> (r: String)
    ensures
        r@ == string_escaped(s@),
{
    let v = str_chars(s);
    let mut out: Vec<char> = Vec::new();
    let mut i: usize = 0;
    while i < v.len()
        invariant
            i <= v.len(),
            out@ == string_escaped(v@.subrange(0, i as int)),
        decreases v.len() - i,
    {
        let c = v[i];
        let ghost before = out@;
        if c == '\\' {
            out.push('\\');
            out.push('\\');
        } else if c == '"' {
            out.push('\\');
            out.push('"');
        } else if c == '\n' {
            out.push('\\');
            out.push('n');
        } else if c == '\r' {
            out.push('\\');
            out.push('r');
        } else if c == '\t' {
            out.push('\\');
            out.push('t');
        } else {
            out.push(c);
        }
        proof {
            let p = v@.subrange(0, i + 1);
            assert(p.drop_last() =~= v@.subrange(0, i as int));
            assert(p.last() == c);
            assert(out@ =~= before + string_char(c));
        }
        i = i + 1;
    }
    proof {
        assert(v@.subrange(0, v@.len() as int) =~= v@);
    }
    string_from(&out)
}

/// The Typst source of one digit-atlas char: `-` and `+` are escaped so
/// Typst does not read them as list markers.
pub open spec fn atlas_source(ch: char) -> Seq<char> {
    if ch == '-' || ch == '+' {
        seq!['\\', ch]
    } else {
        seq![ch]
    }
}

/// See `atlas_source`.
pub fn atlas_char_source(ch: char) -> (r: String)
    ensures
        r@ == atlas_source(ch),
{
    let mut out: Vec<char> = Vec::new();
    if ch == '-' || ch == '+' {
        out.push('\\');
    }
    out.push(ch);
    proof {
        assert(out@ =~= atlas_source(ch));
    }
    string_from(&out)
}

/// The markup of a static code listing: a raw block in DejaVu Sans Mono
/// (bundled with the Typst fonts) at `font_size` pt (its decimal text).
pub open spec fn code_markup_spec(source: Seq<char>, font_size: Seq<char>) -> Seq<char> {
    "#set par(leading: 0.65em)\n#set text(font: \"DejaVu Sans Mono\", size: "@ + font_size
        + "pt)\n#raw(block: true, \""@ + string_escaped(source) + "\")"@
}

/// See `code_markup_spec`.
pub fn code_markup(source: &str, font_size: &str) -> (r: String)
    ensures
        r@ == code_markup_spec(source@, font_size@),
{
    let escaped = escape_typst_string(source);
    let mut out: Vec<char> = Vec::new();
    extend_all(
        &mut out,
        &str_chars("#set par(leading: 0.65em)\n#set text(font: \"DejaVu Sans Mono\", size: "),
    );
    extend_all(&mut out, &str_chars(font_size));
    extend_all(&mut out, &str_chars("pt)\n#raw(block: true, \""));
    extend_all(&mut out, &str_chars(escaped.as_str()));
    extend_all(&mut out, &str_chars("\")"));
    string_from(&out)
}

} // verus!
