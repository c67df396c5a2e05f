use manim_rust::errors::TypstError;
use manim_rust::markup::pango_to_typst;
use manim_rust::tex_parts::{expand_tex_parts, keep_tex_parts, split_double_brace_parts};
use manim_rust::typst_doc::{
    atlas_char_source, code_markup, escape_typst_string, glyph_fill, palette_white,
    is_tex_hazard, typst_document, Syntax, MITEX_PRELUDE, TEX_UNSUPPORTED,
};
use manim_rust::palette::Rgba8;

#[test]
fn typst_passthrough_without_tags() {
    assert_eq!(pango_to_typst("*bold* _i_"), "*bold* _i_");
}

#[test]
fn bold_italic_and_color_span() {
    let t = pango_to_typst("<b>Bold</b> and <i>italic</i>");
    assert!(t.contains("#strong[Bold]"), "{t}");
    assert!(t.contains("#emph[italic]"), "{t}");
    let c = pango_to_typst(r#"<span foreground="blue">Blue</span>"#);
    assert!(c.contains("fill:"), "{c}");
    assert!(c.contains("Blue"), "{c}");
}

#[test]
fn entities_decode() {
    assert_eq!(pango_to_typst("A &amp; B"), "A & B");
    assert!(pango_to_typst("&#169;").contains("©"));
}

#[test]
fn split_examples() {
    assert_eq!(split_double_brace_parts("a {{b}} c"), vec!["a ", "b", " c"]);
    assert_eq!(split_double_brace_parts("no braces"), vec!["no braces"]);
    assert_eq!(split_double_brace_parts("{{only}}"), vec!["only"]);
}

#[test]
fn unmatched_brace_is_literal() {
    assert_eq!(split_double_brace_parts("foo {{bar"), vec!["foo ", "{{bar"]);
}

#[test]
fn expand_empty_is_one_blank() {
    assert_eq!(expand_tex_parts(&[]), vec![""]);
}

#[test]
fn split_empty_source_is_one_empty_part() {
    assert_eq!(split_double_brace_parts(""), vec![""]);
}

#[test]
fn split_adjacent_markers() {
    assert_eq!(split_double_brace_parts("{{a}}{{b}}"), vec!["a", "b"]);
    assert_eq!(split_double_brace_parts("x{{}}y"), vec!["x", "", "y"]);
}

#[test]
fn expand_flattens_sources_in_order() {
    let sources = vec!["a {{b}}".to_string(), "c".to_string()];
    assert_eq!(expand_tex_parts(&sources), vec!["a ", "b", "c"]);
}

#[test]
fn keep_drops_blank_parts() {
    let parts = vec![" ".to_string(), "x".to_string(), "\t\n".to_string(), "y ".to_string()];
    assert_eq!(keep_tex_parts(parts), vec!["x", "y "]);
}

#[test]
fn keep_all_blank_gives_one_empty_part() {
    let parts = vec!["  ".to_string(), "".to_string()];
    assert_eq!(keep_tex_parts(parts), vec![""]);
    assert_eq!(keep_tex_parts(Vec::new()), vec![""]);
}

#[test]
fn plain_text_is_unchanged_law_example() {
    let s = "x^2 + y_1 = #z";
    assert_eq!(pango_to_typst(s), s);
}

#[test]
fn line_break_tags() {
    assert_eq!(pango_to_typst("a<br/>b"), "a#linebreak()b");
}

#[test]
fn escape_typst_string_escapes_specials() {
    assert_eq!(escape_typst_string("a\"b\\c\nd\re\tf"), "a\\\"b\\\\c\\nd\\re\\tf");
    assert_eq!(escape_typst_string("plain"), "plain");
}

#[test]
fn atlas_sources_escape_list_markers() {
    assert_eq!(atlas_char_source('-'), "\\-");
    assert_eq!(atlas_char_source('+'), "\\+");
    assert_eq!(atlas_char_source('7'), "7");
    assert_eq!(atlas_char_source('.'), ".");
}

#[test]
fn code_markup_wraps_raw_block() {
    let m = code_markup("print(\"hi\")", "24");
    assert_eq!(
        m,
        "#set par(leading: 0.65em)\n#set text(font: \"DejaVu Sans Mono\", size: 24pt)\n#raw(block: true, \"print(\\\"hi\\\")\")"
    );
}

#[test]
fn typst_math_document() {
    let d = typst_document("e^(i pi)", Syntax::Typst, "48").ok().unwrap();
    assert_eq!(
        d,
        "#set page(width: auto, height: auto, margin: 0pt)\n#set text(size: 48pt)\n$ e^(i pi) $"
    );
}

#[test]
fn typst_text_document() {
    let d = typst_document("Hello *world*", Syntax::Text, "12.5").ok().unwrap();
    assert_eq!(
        d,
        "#set page(width: auto, height: auto, margin: 0pt)\n#set text(size: 12.5pt)\nHello *world*"
    );
}

#[test]
fn latex_document_goes_through_mitex() {
    let d = typst_document("\\frac{a}{b}", Syntax::Latex, "48").ok().unwrap();
    let converted = mitex::convert_math("\\frac{a}{b}", None).unwrap();
    let expected = format!(
        "#set page(width: auto, height: auto, margin: 0pt)\n#set text(size: 48pt)\n{MITEX_PRELUDE}$ {converted} $"
    );
    assert_eq!(d, expected);
    assert!(d.contains("mitexsqrt"));
    // the conversion changed the body (a wrapper that handed back its
    // input would leave `\frac` in place)
    assert!(!converted.contains("\\frac"), "{converted}");
}

#[test]
fn latex_conversion_error_is_tex_convert() {
    let bad = "\\begin{matrix} a";
    match mitex::convert_math(bad, None) {
        Ok(_) => {}
        Err(e) => match typst_document(bad, Syntax::Latex, "48") {
            Err(TypstError::TexConvert(m)) => assert_eq!(m, e),
            _ => panic!("expected a conversion error"),
        },
    }
}

#[test]
fn glyph_fill_maps_black_to_white() {
    let black = Rgba8 { r: 0, g: 0, b: 0, a: 128 };
    let red = Rgba8 { r: 255, g: 0, b: 0, a: 255 };
    assert_eq!(glyph_fill(None, Some(black)), Some(palette_white()));
    assert_eq!(glyph_fill(None, Some(red)), Some(red));
    assert_eq!(glyph_fill(Some(red), Some(black)), Some(red));
    assert_eq!(glyph_fill(Some(black), None), Some(black));
    assert_eq!(glyph_fill(None, None), None);
    assert_eq!(palette_white(), Rgba8 { r: 255, g: 255, b: 255, a: 255 });
}

#[test]
fn typst_error_messages() {
    assert_eq!(TypstError::Compile("x".into()).message(), "typst compile failed: x");
    assert_eq!(TypstError::EmptyDocument.message(), "typst produced no pages");
    assert_eq!(TypstError::TexConvert("y".into()).message(), "mitex conversion failed: y");
}

#[test]
fn split_parts_run_together_lose_only_markers() {
    for (source, bare) in [
        ("a {{b}} c", "a b c"),
        ("{{a}}{{b}}", "ab"),
        ("x{{}}y", "xy"),
        ("foo {{bar", "foo {{bar"),
        ("no braces", "no braces"),
    ] {
        assert_eq!(split_double_brace_parts(source).concat(), bare);
    }
}

#[test]
fn latex_that_mitex_cannot_take_is_refused_first() {
    for bad in [
        "\\label",
        "a \\label x",
        "\\label{",
        "\\label{a{b}}",
        "\\begin {table} a \\end{table}",
        "\\begin\n{figure} a \\end{figure}",
        "\\includegraphics",
        "\\begin{tabular} a \\end{tabular}",
        "\\begin{figure}\\caption\\end{figure}",
        "\\newcommand{\\x}{\\x}\\x",
    ] {
        assert!(is_tex_hazard(bad), "{bad}");
        match typst_document(bad, Syntax::Latex, "48") {
            Err(TypstError::TexConvert(m)) => assert_eq!(m, TEX_UNSUPPORTED),
            _ => panic!("expected a refusal for {bad}"),
        }
    }
    assert!(!is_tex_hazard("\\frac{1}{2} + \\begin{pmatrix} a \\end{pmatrix}"));
    // What mitex converts is passed on to it.
    for good in ["x \\label{eq1} = 1", "\\label{} y", "\\label{\u{e9}} z", "\\text{table}", "\\mathrm{figure}"] {
        assert!(!is_tex_hazard(good), "{good}");
        let converted = mitex::convert_math(good, None);
        assert!(converted.is_ok(), "{good}");
        match typst_document(good, Syntax::Latex, "48") {
            Ok(doc) => assert!(doc.contains(&converted.unwrap()), "{good}"),
            Err(_) => panic!("expected {good} to convert"),
        }
    }
    // Typst and text sources are not LaTeX and pass through.
    assert!(typst_document("\\label", Syntax::Text, "48").is_ok());
}
