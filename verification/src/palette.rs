//! Manim's named color palette and hex color parsing.
//!
//! Colors are plain RGBA bytes here; the renderer converts them to its own
//! paint type at the edge.
use vstd::prelude::*;

use crate::text::{is_lit, lower_seq, lower_vec, str_chars, trim, trim_bounds};

verus! {

/// An sRGB color as four bytes.
#[derive(Clone, Copy, Debug, PartialEq, Eq, Structural)]
pub struct Rgba8 {
    pub r: u8,
    pub g: u8,
    pub b: u8,
    pub a: u8,
}

/// Opaque color from three channel bytes.
pub open spec fn rgb(r: u8, g: u8, b: u8) -> Rgba8 {
    Rgba8 { r, g, b, a: 255 }
}

pub fn opaque(r: u8, g: u8, b: u8) -> (c: Rgba8)
    ensures
        c == rgb(r, g, b),
{
    Rgba8 { r, g, b, a: 255 }
}

pub fn white() -> (c: Rgba8)
    ensures
        c == rgb(255, 255, 255),
{
    opaque(255, 255, 255)
}

pub fn black() -> (c: Rgba8)
    ensures
        c == rgb(0, 0, 0),
{
    opaque(0, 0, 0)
}

pub fn blue() -> (c: Rgba8)
    ensures
        c == rgb(88, 196, 221),
{
    opaque(88, 196, 221)
}

pub fn green() -> (c: Rgba8)
    ensures
        c == rgb(131, 193, 103),
{
    opaque(131, 193, 103)
}

pub fn yellow() -> (c: Rgba8)
    ensures
        c == rgb(255, 255, 0),
{
    opaque(255, 255, 0)
}

pub fn red() -> (c: Rgba8)
    ensures
        c == rgb(252, 98, 85),
{
    opaque(252, 98, 85)
}

pub fn gray() -> (c: Rgba8)
    ensures
        c == rgb(136, 136, 136),
{
    opaque(136, 136, 136)
}

pub fn teal() -> (c: Rgba8)
    ensures
        c == rgb(92, 208, 179),
{
    opaque(92, 208, 179)
}

pub fn orange() -> (c: Rgba8)
    ensures
        c == rgb(255, 134, 47),
{
    opaque(255, 134, 47)
}

pub fn purple() -> (c: Rgba8)
    ensures
        c == rgb(154, 114, 172),
{
    opaque(154, 114, 172)
}

pub fn pink() -> (c: Rgba8)
    ensures
        c == rgb(209, 71, 189),
{
    opaque(209, 71, 189)
}

pub fn gold() -> (c: Rgba8)
    ensures
        c == rgb(240, 172, 95),
{
    opaque(240, 172, 95)
}

pub fn maroon() -> (c: Rgba8)
    ensures
        c == rgb(197, 95, 115),
{
    opaque(197, 95, 115)
}

pub fn blue_d() -> (c: Rgba8)
    ensures
        c == rgb(41, 171, 202),
{
    opaque(41, 171, 202)
}

pub fn grey() -> (c: Rgba8)
    ensures
        c == rgb(136, 136, 136),
{
    opaque(136, 136, 136)
}

pub fn pure_yellow() -> (c: Rgba8)
    ensures
        c == rgb(255, 255, 0),
{
    opaque(255, 255, 0)
}

pub open spec fn palette_part_0(k: Seq<char>) -> Option<Rgba8> {
    if k == "white"@ {
        Some(rgb(255, 255, 255))
    } else if k == "black"@ {
        Some(rgb(0, 0, 0))
    } else if k == "blue"@ || k == "blue_c"@ {
        Some(rgb(88, 196, 221))
    } else if k == "blue_a"@ {
        Some(rgb(199, 233, 241))
    } else if k == "blue_b"@ {
        Some(rgb(156, 220, 235))
    } else if k == "blue_d"@ {
        Some(rgb(41, 171, 202))
    } else if k == "blue_e"@ || k == "dark_blue"@ {
        Some(rgb(35, 107, 142))
    } else if k == "teal"@ || k == "teal_c"@ {
        Some(rgb(92, 208, 179))
    } else if k == "teal_a"@ {
        Some(rgb(172, 234, 215))
    } else if k == "teal_b"@ {
        Some(rgb(118, 221, 192))
    } else {
        None
    }
}

fn palette_lookup_0(k: &[char]) -> (c: Option<Rgba8>)
    ensures
        c == palette_part_0(k@),
{
    if is_lit(k, "white") {
        Some(opaque(255, 255, 255))
    } else if is_lit(k, "black") {
        Some(opaque(0, 0, 0))
    } else if is_lit(k, "blue") || is_lit(k, "blue_c") {
        Some(opaque(88, 196, 221))
    } else if is_lit(k, "blue_a") {
        Some(opaque(199, 233, 241))
    } else if is_lit(k, "blue_b") {
        Some(opaque(156, 220, 235))
    } else if is_lit(k, "blue_d") {
        Some(opaque(41, 171, 202))
    } else if is_lit(k, "blue_e") || is_lit(k, "dark_blue") {
        Some(opaque(35, 107, 142))
    } else if is_lit(k, "teal") || is_lit(k, "teal_c") {
        Some(opaque(92, 208, 179))
    } else if is_lit(k, "teal_a") {
        Some(opaque(172, 234, 215))
    } else if is_lit(k, "teal_b") {
        Some(opaque(118, 221, 192))
    } else {
        None
    }
}

pub open spec fn palette_part_1(k: Seq<char>) -> Option<Rgba8> {
    if k == "teal_d"@ {
        Some(rgb(85, 193, 167))
    } else if k == "teal_e"@ {
        Some(rgb(73, 168, 143))
    } else if k == "green"@ || k == "green_c"@ {
        Some(rgb(131, 193, 103))
    } else if k == "green_a"@ {
        Some(rgb(201, 226, 174))
    } else if k == "green_b"@ {
        Some(rgb(166, 207, 140))
    } else if k == "green_d"@ {
        Some(rgb(119, 176, 93))
    } else if k == "green_e"@ {
        Some(rgb(105, 156, 82))
    } else if k == "yellow"@ || k == "pure_yellow"@ {
        Some(rgb(255, 255, 0))
    } else if k == "yellow_a"@ {
        Some(rgb(255, 241, 182))
    } else if k == "yellow_b"@ {
        Some(rgb(255, 234, 148))
    } else {
        None
    }
}

fn palette_lookup_1(k: &[char]) -> (c: Option<Rgba8>)
    ensures
        c == palette_part_1(k@),
{
    if is_lit(k, "teal_d") {
        Some(opaque(85, 193, 167))
    } else if is_lit(k, "teal_e") {
        Some(opaque(73, 168, 143))
    } else if is_lit(k, "green") || is_lit(k, "green_c") {
        Some(opaque(131, 193, 103))
    } else if is_lit(k, "green_a") {
        Some(opaque(201, 226, 174))
    } else if is_lit(k, "green_b") {
        Some(opaque(166, 207, 140))
    } else if is_lit(k, "green_d") {
        Some(opaque(119, 176, 93))
    } else if is_lit(k, "green_e") {
        Some(opaque(105, 156, 82))
    } else if is_lit(k, "yellow") || is_lit(k, "pure_yellow") {
        Some(opaque(255, 255, 0))
    } else if is_lit(k, "yellow_a") {
        Some(opaque(255, 241, 182))
    } else if is_lit(k, "yellow_b") {
        Some(opaque(255, 234, 148))
    } else {
        None
    }
}

pub open spec fn palette_part_2(k: Seq<char>) -> Option<Rgba8> {
    if k == "yellow_c"@ {
        Some(rgb(247, 217, 111))
    } else if k == "yellow_d"@ {
        Some(rgb(244, 211, 69))
    } else if k == "yellow_e"@ {
        Some(rgb(232, 193, 28))
    } else if k == "gold"@ || k == "gold_c"@ {
        Some(rgb(240, 172, 95))
    } else if k == "gold_a"@ {
        Some(rgb(247, 199, 151))
    } else if k == "gold_b"@ {
        Some(rgb(249, 183, 117))
    } else if k == "gold_d"@ {
        Some(rgb(225, 161, 88))
    } else if k == "gold_e"@ {
        Some(rgb(199, 141, 70))
    } else if k == "red"@ || k == "red_c"@ {
        Some(rgb(252, 98, 85))
    } else if k == "red_a"@ {
        Some(rgb(247, 161, 163))
    } else {
        None
    }
}

fn palette_lookup_2(k: &[char]) -> (c: Option<Rgba8>)
    ensures
        c == palette_part_2(k@),
{
    if is_lit(k, "yellow_c") {
        Some(opaque(247, 217, 111))
    } else if is_lit(k, "yellow_d") {
        Some(opaque(244, 211, 69))
    } else if is_lit(k, "yellow_e") {
        Some(opaque(232, 193, 28))
    } else if is_lit(k, "gold") || is_lit(k, "gold_c") {
        Some(opaque(240, 172, 95))
    } else if is_lit(k, "gold_a") {
        Some(opaque(247, 199, 151))
    } else if is_lit(k, "gold_b") {
        Some(opaque(249, 183, 117))
    } else if is_lit(k, "gold_d") {
        Some(opaque(225, 161, 88))
    } else if is_lit(k, "gold_e") {
        Some(opaque(199, 141, 70))
    } else if is_lit(k, "red") || is_lit(k, "red_c") {
        Some(opaque(252, 98, 85))
    } else if is_lit(k, "red_a") {
        Some(opaque(247, 161, 163))
    } else {
        None
    }
}

pub open spec fn palette_part_3(k: Seq<char>) -> Option<Rgba8> {
    if k == "red_b"@ {
        Some(rgb(255, 128, 128))
    } else if k == "red_d"@ {
        Some(rgb(230, 90, 76))
    } else if k == "red_e"@ {
        Some(rgb(207, 80, 68))
    } else if k == "maroon"@ || k == "maroon_c"@ {
        Some(rgb(197, 95, 115))
    } else if k == "maroon_a"@ {
        Some(rgb(236, 171, 193))
    } else if k == "maroon_b"@ {
        Some(rgb(236, 146, 171))
    } else if k == "maroon_d"@ {
        Some(rgb(162, 77, 97))
    } else if k == "maroon_e"@ {
        Some(rgb(148, 66, 79))
    } else if k == "purple"@ || k == "purple_c"@ {
        Some(rgb(154, 114, 172))
    } else if k == "purple_a"@ {
        Some(rgb(202, 163, 232))
    } else {
        None
    }
}

fn palette_lookup_3(k: &[char]) -> (c: Option<Rgba8>)
    ensures
        c == palette_part_3(k@),
{
    if is_lit(k, "red_b") {
        Some(opaque(255, 128, 128))
    } else if is_lit(k, "red_d") {
        Some(opaque(230, 90, 76))
    } else if is_lit(k, "red_e") {
        Some(opaque(207, 80, 68))
    } else if is_lit(k, "maroon") || is_lit(k, "maroon_c") {
        Some(opaque(197, 95, 115))
    } else if is_lit(k, "maroon_a") {
        Some(opaque(236, 171, 193))
    } else if is_lit(k, "maroon_b") {
        Some(opaque(236, 146, 171))
    } else if is_lit(k, "maroon_d") {
        Some(opaque(162, 77, 97))
    } else if is_lit(k, "maroon_e") {
        Some(opaque(148, 66, 79))
    } else if is_lit(k, "purple") || is_lit(k, "purple_c") {
        Some(opaque(154, 114, 172))
    } else if is_lit(k, "purple_a") {
        Some(opaque(202, 163, 232))
    } else {
        None
    }
}

pub open spec fn palette_part_4(k: Seq<char>) -> Option<Rgba8> {
    if k == "purple_b"@ {
        Some(rgb(177, 137, 198))
    } else if k == "purple_d"@ {
        Some(rgb(113, 85, 130))
    } else if k == "purple_e"@ {
        Some(rgb(100, 65, 114))
    } else if k == "pink"@ {
        Some(rgb(209, 71, 189))
    } else if k == "light_pink"@ {
        Some(rgb(220, 117, 205))
    } else if k == "orange"@ {
        Some(rgb(255, 134, 47))
    } else if k == "light_brown"@ {
        Some(rgb(205, 133, 63))
    } else if k == "dark_brown"@ {
        Some(rgb(139, 69, 19))
    } else if k == "gray_brown"@ || k == "grey_brown"@ {
        Some(rgb(115, 99, 87))
    } else if k == "gray"@ || k == "grey"@ || k == "gray_c"@ || k == "grey_c"@ {
        Some(rgb(136, 136, 136))
    } else {
        None
    }
}

fn palette_lookup_4(k: &[char]) -> (c: Option<Rgba8>)
    ensures
        c == palette_part_4(k@),
{
    if is_lit(k, "purple_b") {
        Some(opaque(177, 137, 198))
    } else if is_lit(k, "purple_d") {
        Some(opaque(113, 85, 130))
    } else if is_lit(k, "purple_e") {
        Some(opaque(100, 65, 114))
    } else if is_lit(k, "pink") {
        Some(opaque(209, 71, 189))
    } else if is_lit(k, "light_pink") {
        Some(opaque(220, 117, 205))
    } else if is_lit(k, "orange") {
        Some(opaque(255, 134, 47))
    } else if is_lit(k, "light_brown") {
        Some(opaque(205, 133, 63))
    } else if is_lit(k, "dark_brown") {
        Some(opaque(139, 69, 19))
    } else if is_lit(k, "gray_brown") || is_lit(k, "grey_brown") {
        Some(opaque(115, 99, 87))
    } else if is_lit(k, "gray") || is_lit(k, "grey") || is_lit(k, "gray_c") || is_lit(k, "grey_c") {
        Some(opaque(136, 136, 136))
    } else {
        None
    }
}

pub open spec fn palette_part_5(k: Seq<char>) -> Option<Rgba8> {
    if k == "gray_a"@ || k == "grey_a"@ || k == "lighter_gray"@ || k == "lighter_grey"@ {
        Some(rgb(221, 221, 221))
    } else if k == "gray_b"@ || k == "grey_b"@ || k == "light_gray"@ || k == "light_grey"@ {
        Some(rgb(187, 187, 187))
    } else if k == "gray_d"@ || k == "grey_d"@ || k == "dark_gray"@ || k == "dark_grey"@ {
        Some(rgb(68, 68, 68))
    } else if k == "gray_e"@ || k == "grey_e"@ || k == "darker_gray"@ || k == "darker_grey"@ {
        Some(rgb(34, 34, 34))
    } else if k == "pure_red"@ {
        Some(rgb(255, 0, 0))
    } else if k == "pure_green"@ {
        Some(rgb(0, 255, 0))
    } else if k == "pure_blue"@ {
        Some(rgb(0, 0, 255))
    } else if k == "pure_cyan"@ {
        Some(rgb(0, 255, 255))
    } else if k == "pure_magenta"@ {
        Some(rgb(255, 0, 255))
    } else if k == "logo_white"@ {
        Some(rgb(236, 231, 226))
    } else {
        None
    }
}

fn palette_lookup_5(k: &[char]) -> (c: Option<Rgba8>)
    ensures
        c == palette_part_5(k@),
{
    if is_lit(k, "gray_a") || is_lit(k, "grey_a") || is_lit(k, "lighter_gray") || is_lit(k, "lighter_grey") {
        Some(opaque(221, 221, 221))
    } else if is_lit(k, "gray_b") || is_lit(k, "grey_b") || is_lit(k, "light_gray") || is_lit(k, "light_grey") {
        Some(opaque(187, 187, 187))
    } else if is_lit(k, "gray_d") || is_lit(k, "grey_d") || is_lit(k, "dark_gray") || is_lit(k, "dark_grey") {
        Some(opaque(68, 68, 68))
    } else if is_lit(k, "gray_e") || is_lit(k, "grey_e") || is_lit(k, "darker_gray") || is_lit(k, "darker_grey") {
        Some(opaque(34, 34, 34))
    } else if is_lit(k, "pure_red") {
        Some(opaque(255, 0, 0))
    } else if is_lit(k, "pure_green") {
        Some(opaque(0, 255, 0))
    } else if is_lit(k, "pure_blue") {
        Some(opaque(0, 0, 255))
    } else if is_lit(k, "pure_cyan") {
        Some(opaque(0, 255, 255))
    } else if is_lit(k, "pure_magenta") {
        Some(opaque(255, 0, 255))
    } else if is_lit(k, "logo_white") {
        Some(opaque(236, 231, 226))
    } else {
        None
    }
}

pub open spec fn palette_part_6(k: Seq<char>) -> Option<Rgba8> {
    if k == "logo_green"@ {
        Some(rgb(135, 194, 165))
    } else if k == "logo_blue"@ {
        Some(rgb(82, 88, 147))
    } else if k == "logo_red"@ {
        Some(rgb(224, 122, 95))
    } else if k == "logo_black"@ {
        Some(rgb(52, 52, 52))
    } else {
        None
    }
}

fn palette_lookup_6(k: &[char]) -> (c: Option<Rgba8>)
    ensures
        c == palette_part_6(k@),
{
    if is_lit(k, "logo_green") {
        Some(opaque(135, 194, 165))
    } else if is_lit(k, "logo_blue") {
        Some(opaque(82, 88, 147))
    } else if is_lit(k, "logo_red") {
        Some(opaque(224, 122, 95))
    } else if is_lit(k, "logo_black") {
        Some(opaque(52, 52, 52))
    } else {
        None
    }
}

/// Color for a normalized key (lowercase, `_` separators), if Manim names it.
pub open spec fn palette_color(k: Seq<char>) -> Option<Rgba8> {
    if palette_part_0(k) is Some {
        palette_part_0(k)
    } else if palette_part_1(k) is Some {
        palette_part_1(k)
    } else if palette_part_2(k) is Some {
        palette_part_2(k)
    } else if palette_part_3(k) is Some {
        palette_part_3(k)
    } else if palette_part_4(k) is Some {
        palette_part_4(k)
    } else if palette_part_5(k) is Some {
        palette_part_5(k)
    } else {
        palette_part_6(k)
    }
}

fn palette_lookup(k: &[char]) -> (c: Option<Rgba8>)
    ensures
        c == palette_color(k@),
{
    let c = palette_lookup_0(k);
    if c.is_some() {
        return c;
    }
    let c = palette_lookup_1(k);
    if c.is_some() {
        return c;
    }
    let c = palette_lookup_2(k);
    if c.is_some() {
        return c;
    }
    let c = palette_lookup_3(k);
    if c.is_some() {
        return c;
    }
    let c = palette_lookup_4(k);
    if c.is_some() {
        return c;
    }
    let c = palette_lookup_5(k);
    if c.is_some() {
        return c;
    }
    palette_lookup_6(k)
}

/// `-` becomes `_`.
pub open spec fn dash_to_underscore(k: Seq<char>) -> Seq<char> {
    k.map_values(|c: char| if c == '-' { '_' } else { c })
}

/// Lookup key of a color name: trimmed, ASCII-lowercased, dashes as
/// underscores.
pub open spec fn color_key(s: Seq<char>) -> Seq<char> {
    dash_to_underscore(lower_seq(trim(s)))
}

/// ManimCE color names (case-insensitive, `-` or `_` separators).
/// `yellow` stays pure `#FFFF00`; CE's `YELLOW` is `yellow_c`.
pub fn named(s: &str) -> (c: Option<Rgba8>)
    ensures
        c == palette_color(color_key(s@)),
{
    named_chars(&str_chars(s))
}

/// [`named`] on a char buffer.
pub fn named_chars(s: &[char]) -> (c: Option<Rgba8>)
    ensures
        c == palette_color(color_key(s@)),
{
    let (lo, hi) = trim_bounds(s, 0, s.len());
    proof {
        assert(s@.subrange(0, s@.len() as int) =~= s@);
    }
    let mut k = lower_vec(&s[lo..hi]);
    let ghost k0 = k@;
    let mut i: usize = 0;
    while i < k.len()
        invariant
            i <= k.len(),
            k.len() == k0.len(),
            forall|j: int| 0 <= j < i ==> k@[j] == (if k0[j] == '-' { '_' } else { k0[j] }),
            forall|j: int| i <= j < k.len() ==> k@[j] == k0[j],
        decreases k.len() - i,
    {
        if k[i] == '-' {
            k.set(i, '_');
        }
        i = i + 1;
    }
    proof {
        assert(k@ =~= dash_to_underscore(k0));
    }
    palette_lookup(&k)
}

/// Value of one hex digit.
pub open spec fn hex_digit(c: char) -> Option<u8> {
    if '0' <= c && c <= '9' {
        Some(((c as u32) - ('0' as u32)) as u8)
    } else if 'a' <= c && c <= 'f' {
        Some(((c as u32) - ('a' as u32) + 10) as u8)
    } else if 'A' <= c && c <= 'F' {
        Some(((c as u32) - ('A' as u32) + 10) as u8)
    } else {
        None
    }
}

fn hex_digit_of(c: char) -> (r: Option<u8>)
    ensures
        r == hex_digit(c),
{
    if '0' <= c && c <= '9' {
        Some(((c as u32) - ('0' as u32)) as u8)
    } else if 'a' <= c && c <= 'f' {
        Some(((c as u32) - ('a' as u32) + 10) as u8)
    } else if 'A' <= c && c <= 'F' {
        Some(((c as u32) - ('A' as u32) + 10) as u8)
    } else {
        None
    }
}

/// `u8::from_str_radix` on a two-char string in base 16: an optional `+`
/// followed by hex digits.
pub open spec fn hex_byte(a: char, b: char) -> Option<u8> {
    match (hex_digit(a), hex_digit(b)) {
        (Some(x), Some(y)) => Some((x * 16 + y) as u8),
        (None, Some(y)) => if a == '+' {
            Some(y)
        } else {
            None
        },
        _ => None,
    }
}

fn hex_byte_of(a: char, b: char) -> (r: Option<u8>)
    ensures
        r == hex_byte(a, b),
{
    match (hex_digit_of(a), hex_digit_of(b)) {
        (Some(x), Some(y)) => Some(x * 16 + y),
        (None, Some(y)) => if a == '+' {
            Some(y)
        } else {
            None
        },
        _ => None,
    }
}

/// Six-hex-digit color (`rrggbb`), opaque.
pub open spec fn hex_rgb(h: Seq<char>) -> Option<Rgba8> {
    if h.len() == 6 {
        match (hex_byte(h[0], h[1]), hex_byte(h[2], h[3]), hex_byte(h[4], h[5])) {
            (Some(r), Some(g), Some(b)) => Some(rgb(r, g, b)),
            _ => None,
        }
    } else {
        None
    }
}

/// One leading `#` removed.
pub open spec fn strip_hash(s: Seq<char>) -> Seq<char> {
    if s.len() > 0 && s[0] == '#' {
        s.drop_first()
    } else {
        s
    }
}

/// Bytes of the UTF-8 encoding of one char.
pub open spec fn utf8_width(c: char) -> nat {
    if (c as u32) < 0x80 {
        1
    } else if (c as u32) < 0x800 {
        2
    } else if (c as u32) < 0x10000 {
        3
    } else {
        4
    }
}

/// Bytes of the UTF-8 encoding of a string.
pub open spec fn utf8_len(s: Seq<char>) -> nat
    decreases s.len(),
{
    if s.len() == 0 {
        0
    } else {
        utf8_len(s.drop_last()) + utf8_width(s.last())
    }
}

/// Byte offset `b` falls between two chars.
pub open spec fn is_boundary(s: Seq<char>, b: nat) -> bool {
    exists|k: int| 0 <= k <= s.len() && utf8_len(#[trigger] s.subrange(0, k)) == b
}

/// Slicing a six-byte string at bytes 2 and 4 panics when one of them
/// falls inside a multi-byte char.
pub open spec fn hex_slices_panic(h: Seq<char>) -> bool {
    utf8_len(h) == 6 && !(is_boundary(h, 2) && is_boundary(h, 4))
}

/// A color name or a `#rrggbb` / `rrggbb` hex string.
pub open spec fn color_of(s: Seq<char>) -> Option<Rgba8> {
    match palette_color(color_key(s)) {
        Some(c) => Some(c),
        None => hex_rgb(strip_hash(s)),
    }
}

/// Parse a color as the authoring API accepts it: a Manim palette name
/// first, else six hex digits with an optional leading `#`. `None` means
/// the string is neither.
pub fn parse_color(s: &str) -> (c: Option<Rgba8>)
    requires
        palette_color(color_key(s@)) is None ==> !hex_slices_panic(strip_hash(s@)),
    ensures
        c == color_of(s@),
{
    let n = named(s);
    if n.is_some() {
        return n;
    }
    let v = str_chars(s);
    let start: usize = if v.len() > 0 && v[0] == '#' {
        1
    } else {
        0
    };
    proof {
        if start == 1 {
            assert(v@.subrange(1, v@.len() as int) =~= strip_hash(s@));
        } else {
            assert(v@.subrange(0, v@.len() as int) =~= strip_hash(s@));
        }
    }
    if v.len() - start != 6 {
        return None;
    }
    let r = hex_byte_of(v[start], v[start + 1]);
    let g = hex_byte_of(v[start + 2], v[start + 3]);
    let b = hex_byte_of(v[start + 4], v[start + 5]);
    match (r, g, b) {
        (Some(r), Some(g), Some(b)) => Some(opaque(r, g, b)),
        _ => None,
    }
}

/// Color names ignore surrounding whitespace and ASCII case: two names
/// that agree once trimmed and lowercased name the same color.
pub proof fn law_named_ignores_case(a: Seq<char>, b: Seq<char>)
    requires
        lower_seq(trim(a)) == lower_seq(trim(b)),
    ensures
        palette_color(color_key(a)) == palette_color(color_key(b)),
{
}

/// The sixteen lowercase hex digits, in order of value.
pub open spec fn hex_lower() -> Seq<char> {
    "0123456789abcdef"@
}

/// The sixteen uppercase hex digits, in order of value.
pub open spec fn hex_upper() -> Seq<char> {
    "0123456789ABCDEF"@
}

/// The two lowercase hex digits of `x`.
pub open spec fn hex_pair(x: u8) -> Seq<char> {
    seq![hex_lower()[(x / 16) as int], hex_lower()[(x % 16) as int]]
}

/// Hex digits read back as their value in either case, and nothing else
/// is a hex digit; so every byte written as two hex digits reads back,
/// and every `#rrggbb` (or `rrggbb`) written from a color reads back as
/// that color.
pub proof fn law_hex_round_trip(c: char, r: u8, g: u8, b: u8)
    ensures
        forall|n: int|
            0 <= n < 16 ==> hex_digit(#[trigger] hex_lower()[n]) == Some(n as u8) && hex_digit(
                hex_upper()[n],
            ) == Some(n as u8),
        hex_digit(c) matches Some(d) ==> d < 16 && (c == hex_lower()[d as int] || c
            == hex_upper()[d as int]),
        hex_byte(hex_pair(r)[0], hex_pair(r)[1]) == Some(r),
        hex_rgb(hex_pair(r) + hex_pair(g) + hex_pair(b)) == Some(rgb(r, g, b)),
        strip_hash(seq!['#'] + hex_pair(r) + hex_pair(g) + hex_pair(b)) == hex_pair(r) + hex_pair(g)
            + hex_pair(b),
{
    reveal_strlit("0123456789abcdef");
    reveal_strlit("0123456789ABCDEF");
    let lo = hex_lower();
    let up = hex_upper();
    assert forall|n: int| 0 <= n < 16 implies hex_digit(#[trigger] lo[n]) == Some(n as u8)
        && hex_digit(up[n]) == Some(n as u8) by {
        if n == 0 {
            assert(lo[0] == '0' && up[0] == '0');
        } else if n == 1 {
            assert(lo[1] == '1' && up[1] == '1');
        } else if n == 2 {
            assert(lo[2] == '2' && up[2] == '2');
        } else if n == 3 {
            assert(lo[3] == '3' && up[3] == '3');
        } else if n == 4 {
            assert(lo[4] == '4' && up[4] == '4');
        } else if n == 5 {
            assert(lo[5] == '5' && up[5] == '5');
        } else if n == 6 {
            assert(lo[6] == '6' && up[6] == '6');
        } else if n == 7 {
            assert(lo[7] == '7' && up[7] == '7');
        } else if n == 8 {
            assert(lo[8] == '8' && up[8] == '8');
        } else if n == 9 {
            assert(lo[9] == '9' && up[9] == '9');
        } else if n == 10 {
            assert(lo[10] == 'a' && up[10] == 'A');
        } else if n == 11 {
            assert(lo[11] == 'b' && up[11] == 'B');
        } else if n == 12 {
            assert(lo[12] == 'c' && up[12] == 'C');
        } else if n == 13 {
            assert(lo[13] == 'd' && up[13] == 'D');
        } else if n == 14 {
            assert(lo[14] == 'e' && up[14] == 'E');
        } else if n == 15 {
            assert(lo[15] == 'f' && up[15] == 'F');
        }
    }
    if hex_digit(c) is Some {
        let d = hex_digit(c).unwrap();
        if d == 0 {
            assert(lo[0] == '0' && up[0] == '0');
        } else if d == 1 {
            assert(lo[1] == '1' && up[1] == '1');
        } else if d == 2 {
            assert(lo[2] == '2' && up[2] == '2');
        } else if d == 3 {
            assert(lo[3] == '3' && up[3] == '3');
        } else if d == 4 {
            assert(lo[4] == '4' && up[4] == '4');
        } else if d == 5 {
            assert(lo[5] == '5' && up[5] == '5');
        } else if d == 6 {
            assert(lo[6] == '6' && up[6] == '6');
        } else if d == 7 {
            assert(lo[7] == '7' && up[7] == '7');
        } else if d == 8 {
            assert(lo[8] == '8' && up[8] == '8');
        } else if d == 9 {
            assert(lo[9] == '9' && up[9] == '9');
        } else if d == 10 {
            assert(lo[10] == 'a' && up[10] == 'A');
        } else if d == 11 {
            assert(lo[11] == 'b' && up[11] == 'B');
        } else if d == 12 {
            assert(lo[12] == 'c' && up[12] == 'C');
        } else if d == 13 {
            assert(lo[13] == 'd' && up[13] == 'D');
        } else if d == 14 {
            assert(lo[14] == 'e' && up[14] == 'E');
        } else if d == 15 {
            assert(lo[15] == 'f' && up[15] == 'F');
        }
    }
    assert forall|x: u8| #[trigger] hex_byte(hex_pair(x)[0], hex_pair(x)[1]) == Some(x) by {
        let hi = x / 16;
        let lw = x % 16;
        assert(hex_digit(lo[hi as int]) == Some(hi as u8));
        assert(hex_digit(lo[lw as int]) == Some(lw as u8));
        assert(hi * 16 + lw == x);
    }
    let h = hex_pair(r) + hex_pair(g) + hex_pair(b);
    assert(h[0] == hex_pair(r)[0] && h[1] == hex_pair(r)[1]);
    assert(h[2] == hex_pair(g)[0] && h[3] == hex_pair(g)[1]);
    assert(h[4] == hex_pair(b)[0] && h[5] == hex_pair(b)[1]);
    assert(hex_byte(h[0], h[1]) == Some(r));
    assert(hex_byte(h[2], h[3]) == Some(g));
    assert(hex_byte(h[4], h[5]) == Some(b));
    assert((seq!['#'] + h).drop_first() =~= h);
    assert(seq!['#'] + hex_pair(r) + hex_pair(g) + hex_pair(b) =~= seq!['#'] + h);
}

} // verus!
