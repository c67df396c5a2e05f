use manim_rust::boolean::{BooleanOp, BooleanOutcome};
use manim_rust::direction::{parse_direction, Dir};
use manim_rust::easing::{parse_easing, Easing};
use manim_rust::errors::{GpuError, SvgError};
use manim_rust::palette::{named, parse_color, yellow, Rgba8};

#[test]
fn parse_aliases() {
    assert_eq!(BooleanOp::parse("xor"), Some(BooleanOp::Exclusion));
    assert_eq!(BooleanOp::parse("union"), Some(BooleanOp::Union));
    assert_eq!(BooleanOp::parse("or"), Some(BooleanOp::Union));
    assert_eq!(BooleanOp::parse("and"), Some(BooleanOp::Intersection));
    assert_eq!(BooleanOp::parse("sub"), Some(BooleanOp::Difference));
}

#[test]
fn boolean_parse_trims_and_ignores_case() {
    assert_eq!(BooleanOp::parse("  Intersection "), Some(BooleanOp::Intersection));
    assert_eq!(BooleanOp::parse("DIFFERENCE"), Some(BooleanOp::Difference));
    assert_eq!(BooleanOp::parse("minus"), None);
}

#[test]
fn named_yellow_stays_pure_for_compat() {
    let y = named("yellow").unwrap();
    assert_eq!((y.r, y.g, y.b), (255, 255, 0));
    let yc = named("YELLOW_C").unwrap();
    assert_eq!((yc.r, yc.g, yc.b), (0xF7, 0xD9, 0x6F));
}

#[test]
fn named_colors_ignore_case_spaces_and_dashes() {
    assert_eq!(named(" Blue-D "), named("blue_d"));
    assert_eq!(named("blue_d"), Some(Rgba8 { r: 41, g: 171, b: 202, a: 255 }));
    assert_eq!(named("BLUE"), Some(Rgba8 { r: 88, g: 196, b: 221, a: 255 }));
    assert_eq!(named("not-a-color"), None);
    assert_eq!(yellow(), named("yellow").unwrap());
}

#[test]
fn parse_color_names_then_hex() {
    assert_eq!(parse_color("gold"), Some(Rgba8 { r: 240, g: 172, b: 95, a: 255 }));
    assert_eq!(parse_color("#58c4dd"), Some(Rgba8 { r: 0x58, g: 0xc4, b: 0xdd, a: 255 }));
    assert_eq!(parse_color("58C4DD"), Some(Rgba8 { r: 0x58, g: 0xc4, b: 0xdd, a: 255 }));
    assert_eq!(parse_color("#58c4d"), None);
    assert_eq!(parse_color("#zzzzzz"), None);
}

#[test]
fn easing_names() {
    assert_eq!(parse_easing("Linear"), Some(Easing::Linear));
    assert_eq!(parse_easing("rush_into"), Some(Easing::EaseInCubic));
    assert_eq!(parse_easing("ease_in_out"), Some(Easing::EaseInOutCubic));
    assert_eq!(parse_easing("bounce"), None);
    assert_eq!(Easing::default(), Easing::Smooth);
}

#[test]
fn direction_names() {
    assert_eq!(parse_direction("UP"), Some(Dir { x: 0, y: 1 }));
    assert_eq!(parse_direction("down_left"), Some(Dir { x: -1, y: -1 }));
    assert_eq!(parse_direction("center"), Some(Dir { x: 0, y: 0 }));
    assert_eq!(parse_direction("north"), None);
}

#[test]
fn svg_and_gpu_error_messages() {
    assert_eq!(SvgError::Parse("bad".into()).message(), "svg parse error: bad");
    assert_eq!(SvgError::Empty.message(), "svg contained no visible paths or images");
    assert_eq!(GpuError::NoAdapter("none".into()).message(), "no suitable GPU adapter: none");
    assert_eq!(GpuError::NoDevice("lost".into()).message(), "failed to create GPU device: lost");
}

#[test]
fn boolean_with_empty_operands() {
    assert_eq!(BooleanOp::Union.outcome(true, true), BooleanOutcome::Nothing);
    assert_eq!(BooleanOp::Union.outcome(true, false), BooleanOutcome::Second);
    assert_eq!(BooleanOp::Exclusion.outcome(true, false), BooleanOutcome::Second);
    assert_eq!(BooleanOp::Difference.outcome(true, false), BooleanOutcome::Nothing);
    assert_eq!(BooleanOp::Intersection.outcome(true, false), BooleanOutcome::Nothing);
    assert_eq!(BooleanOp::Difference.outcome(false, true), BooleanOutcome::First);
    assert_eq!(BooleanOp::Union.outcome(false, true), BooleanOutcome::First);
    assert_eq!(BooleanOp::Intersection.outcome(false, true), BooleanOutcome::Nothing);
    assert_eq!(BooleanOp::Intersection.outcome(false, false), BooleanOutcome::Clip);
}

#[test]
fn boolean_names_ignore_case_and_padding() {
    for name in ["union", "Or", "intersection", "AND", "difference", "sub", "exclusion", "xor", "nope"] {
        let plain = BooleanOp::parse(name);
        assert_eq!(BooleanOp::parse(&name.to_ascii_uppercase()), plain, "{name}");
        assert_eq!(BooleanOp::parse(&format!(" \t{name}\n")), plain, "{name}");
    }
    assert_eq!(BooleanOp::parse("  XOR "), Some(BooleanOp::Exclusion));
}

#[test]
fn easing_names_fold_like_unicode_lowercase() {
    assert_eq!(parse_easing("there_and_bac\u{212A}"), Some(Easing::ThereAndBack));
    assert_eq!(parse_easing("THERE_AND_BACK"), Some(Easing::ThereAndBack));
    assert_eq!(parse_easing("l\u{130}near"), None);
}
