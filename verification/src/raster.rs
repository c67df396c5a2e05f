//! Authoring-time raster images (Manim `ImageMobject`): pixels are decoded
//! once into a flat RGBA8 buffer and validated here; the renderer only
//! samples that buffer.
use vstd::prelude::*;

use crate::errors::RasterError;
use crate::text::{decimal, extend_all, push_decimal, str_chars, string_from};

verus! {

/// Tightly packed, row-major RGBA8 pixels with straight alpha.
pub struct RgbaImage {
    pub width: u32,
    pub height: u32,
    pub data: Vec<u8>,
}

/// The byte count of a `width` x `height` RGBA8 image.
pub open spec fn rgba_len(width: u32, height: u32) -> int {
    width * height * 4
}

/// The message for a buffer of the wrong size.
pub open spec fn size_message(width: u32, height: u32, len: nat) -> Seq<char> {
    "expected "@ + decimal(rgba_len(width, height) as nat) + " RGBA bytes for "@ + decimal(
        width as nat,
    ) + "x"@ + decimal(height as nat) + ", got "@ + decimal(len)
}

/// Build an RGBA8 image from tightly packed pixels: `Empty` when a side is
/// zero, `Decode` (with the expected and actual sizes) when the buffer is
/// not exactly `width * height * 4` bytes.
pub fn raster_from_rgba(width: u32, height: u32, rgba: Vec<u8>) -> (r: Result<RgbaImage, RasterError>)
    requires
        rgba_len(width, height) <= usize::MAX,
    ensures
        match r {
            Ok(img) => width > 0 && height > 0 && rgba@.len() == rgba_len(width, height)
                && img.width == width && img.height == height && img.data@ == rgba@,
            Err(RasterError::Empty) => width == 0 || height == 0,
            Err(RasterError::Decode(m)) => width > 0 && height > 0 && rgba@.len() != rgba_len(
                width,
                height,
            ) && m@ == size_message(width, height, rgba@.len()),
        },
{
    if width == 0 || height == 0 {
        return Err(RasterError::Empty);
    }
    let w = width as usize;
    let h = height as usize;
    assert(w * h <= w * h * 4) by (nonlinear_arith)
        requires
            w * h >= 0,
    ;
    let expected = w * h * 4;
    if rgba.len() != expected {
        let mut out: Vec<char> = Vec::new();
        extend_all(&mut out, &str_chars("expected "));
        push_decimal(&mut out, expected as u64);
        extend_all(&mut out, &str_chars(" RGBA bytes for "));
        push_decimal(&mut out, width as u64);
        extend_all(&mut out, &str_chars("x"));
        push_decimal(&mut out, height as u64);
        extend_all(&mut out, &str_chars(", got "));
        push_decimal(&mut out, rgba.len() as u64);
        let m = string_from(&out);
        return Err(RasterError::Decode(m));
    }
    Ok(RgbaImage { width, height, data: rgba })
}

/// The pixel bytes of a decoded image, as `(width, height, rgba)`, or the
/// decoder's error text.
pub uninterp spec fn decoded_rgba8(bytes: Seq<u8>) -> Result<(u32, u32, Seq<u8>), Seq<char>>;

/// `image::load_from_memory(bytes)` converted with `to_rgba8`, as
/// `(width, height, into_raw())`, or the error's `to_string()`.
/// Trusted: the result is `decoded_rgba8(bytes)`, and an image buffer's
/// data holds at least `width * height * 4` bytes (every `ImageBuffer`
/// constructor checks that).
#[verifier::external_body]
fn decode_rgba8(bytes: &[u8]) -> (r: Result<(u32, u32, Vec<u8>), String>)
    ensures
        match r {
            Ok((w, h, px)) => decoded_rgba8(bytes@) == Ok::<(u32, u32, Seq<u8>), Seq<char>>(
                (w, h, px@),
            ) && rgba_len(w, h) <= px@.len(),
            Err(e) => decoded_rgba8(bytes@) == Err::<(u32, u32, Seq<u8>), Seq<char>>(e@),
        },
{
    match image::load_from_memory(bytes) {
        Ok(img) => {
            let rgba = img.to_rgba8();
            let (w, h) = rgba.dimensions();
            Ok((w, h, rgba.into_raw()))
        },
        Err(e) => Err(e.to_string()),
    }
}

/// Decode PNG, JPEG, GIF or WebP bytes once at authoring time: a decoder
/// failure is a `Decode` error with its text; decoded pixels are validated
/// as by `raster_from_rgba`.
pub fn raster_from_bytes(bytes: &[u8]) -> (r: Result<RgbaImage, RasterError>)
    ensures
        match decoded_rgba8(bytes@) {
            Err(e) => r matches Err(RasterError::Decode(m)) && m@ == e,
            Ok((w, h, px)) => match r {
                Ok(img) => w > 0 && h > 0 && px.len() == rgba_len(w, h) && img.width == w
                    && img.height == h && img.data@ == px,
                Err(RasterError::Empty) => w == 0 || h == 0,
                Err(RasterError::Decode(m)) => w > 0 && h > 0 && px.len() != rgba_len(w, h)
                    && m@ == size_message(w, h, px.len()),
            },
        },
{
    match decode_rgba8(bytes) {
        Err(e) => Err(RasterError::Decode(e)),
        Ok((w, h, px)) => {
            assert(px@.len() == px.len());
            raster_from_rgba(w, h, px)
        },
    }
}

/// Byte `k` of pixel `(x, y)` of a checkerboard of colors `a` and `b`.
pub open spec fn checker_byte(x: int, y: int, k: int, a: [u8; 4], b: [u8; 4]) -> u8 {
    if (x + y) % 2 == 0 {
        a@[k]
    } else {
        b@[k]
    }
}

/// An `nx` by `ny` checkerboard, one pixel per cell, starting with `a` at
/// the top-left. Useful for goldens.
pub fn checkerboard(nx: u32, ny: u32, a: [u8; 4], b: [u8; 4]) -> (img: RgbaImage)
    requires
        nx > 0,
        ny > 0,
        rgba_len(nx, ny) <= usize::MAX,
    ensures
        img.width == nx,
        img.height == ny,
        img.data@.len() == rgba_len(nx, ny),
        forall|x: int, y: int, k: int|
            0 <= x < nx && 0 <= y < ny && 0 <= k < 4 ==> #[trigger] img.data@[(y * nx + x) * 4 + k]
                == checker_byte(x, y, k, a, b),
{
    let mut px: Vec<u8> = Vec::new();
    let mut y: u32 = 0;
    while y < ny
        invariant
            nx > 0,
            y <= ny,
            rgba_len(nx, ny) <= usize::MAX,
            px@.len() == y * nx * 4,
            forall|x0: int, y0: int, k: int|
                0 <= x0 < nx && 0 <= y0 < y && 0 <= k < 4 ==> #[trigger] px@[(y0 * nx + x0) * 4
                    + k] == checker_byte(x0, y0, k, a, b),
        decreases ny - y,
    {
        let mut x: u32 = 0;
        while x < nx
            invariant
                nx > 0,
                y < ny,
                x <= nx,
                rgba_len(nx, ny) <= usize::MAX,
                px@.len() == (y * nx + x) * 4,
                forall|x0: int, y0: int, k: int|
                    0 <= x0 < nx && 0 <= y0 < ny && 0 <= k < 4 && (y0 < y || (y0 == y && x0 < x))
                        ==> #[trigger] px@[(y0 * nx + x0) * 4 + k] == checker_byte(x0, y0, k, a, b),
            decreases nx - x,
        {
            proof {
                lemma_pixel_fits(nx, ny, x, y);
            }
            // same parity as `x + y`, without the overflow
            let even = (x % 2 + y % 2) % 2 == 0;
            proof {
                assert(even == ((x + y) % 2 == 0)) by (nonlinear_arith)
                    requires
                        even == ((x % 2 + y % 2) % 2 == 0),
                ;
            }
            let c = if even {
                a
            } else {
                b
            };
            let ghost before = px@;
            px.push(c[0]);
            px.push(c[1]);
            px.push(c[2]);
            px.push(c[3]);
            proof {
                let base = (y * nx + x) * 4;
                assert forall|x0: int, y0: int, k: int|
                    0 <= x0 < nx && 0 <= y0 < ny && 0 <= k < 4 && (y0 < y || (y0 == y && x0 < x
                        + 1)) implies #[trigger] px@[(y0 * nx + x0) * 4 + k] == checker_byte(
                    x0,
                    y0,
                    k,
                    a,
                    b,
                ) by {
                    if y0 == y && x0 == x {
                        assert(px@[base + k] == c@[k]);
                    } else {
                        lemma_earlier_pixel(nx, x0, y0, x as int, y as int, k);
                        assert(px@[(y0 * nx + x0) * 4 + k] == before[(y0 * nx + x0) * 4 + k]);
                    }
                }
                assert((y * nx + x + 1) * 4 == (y * nx + x) * 4 + 4) by (nonlinear_arith);
            }
            x = x + 1;
        }
        proof {
            assert((y * nx + nx) * 4 == (y + 1) * nx * 4) by (nonlinear_arith);
        }
        y = y + 1;
    }
    proof {
        assert(ny * nx * 4 == rgba_len(nx, ny)) by (nonlinear_arith);
    }
    RgbaImage { width: nx, height: ny, data: px }
}

/// Pixel `(x, y)` of an `nx` by `ny` image ends within the buffer.
proof fn lemma_pixel_fits(nx: u32, ny: u32, x: u32, y: u32)
    requires
        x < nx,
        y < ny,
    ensures
        (y * nx + x) * 4 + 4 <= rgba_len(nx, ny),
{
    assert((y * nx + x) * 4 + 4 <= nx * ny * 4) by (nonlinear_arith)
        requires
            x < nx,
            y < ny,
    ;
}

/// A pixel before `(x, y)` in row-major order starts earlier.
proof fn lemma_earlier_pixel(nx: u32, x0: int, y0: int, x: int, y: int, k: int)
    requires
        0 <= x0 < nx,
        0 <= x < nx,
        0 <= y0,
        0 <= k < 4,
        y0 < y || (y0 == y && x0 < x),
    ensures
        (y0 * nx + x0) * 4 + k < (y * nx + x) * 4,
{
    assert((y0 * nx + x0) * 4 + k < (y * nx + x) * 4) by (nonlinear_arith)
        requires
            0 <= x0 < nx,
            0 <= x < nx,
            0 <= y0,
            0 <= k < 4,
            y0 < y || (y0 == y && x0 < x),
    ;
}

} // verus!
