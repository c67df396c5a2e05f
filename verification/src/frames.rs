//! Frame bookkeeping of the renderer: when a frame can be reused, how wide
//! a padded readback row is, and how the padding is stripped.
use vstd::prelude::*;

verus! {

/// What to do for the next frame.
#[derive(Clone, Copy, Debug, PartialEq, Eq, Structural)]
pub enum FrameAction {
    /// Hand out the previous frame's pixels again.
    Reuse,
    /// Draw the scene (and then clear its dirty flags).
    Render,
}

/// A frame is reused exactly when one was drawn before, no node is dirty
/// and the camera has not moved since; otherwise the scene is drawn.
pub open spec fn frame_action_for(any_dirty: bool, camera_changed: bool, has_previous: bool) -> FrameAction {
    if !any_dirty && !camera_changed && has_previous {
        FrameAction::Reuse
    } else {
        FrameAction::Render
    }
}

/// Decides whether the next frame is drawn or the previous one reused.
pub fn frame_action(any_dirty: bool, camera_changed: bool, has_previous: bool) -> (a: FrameAction)
    ensures
        a == frame_action_for(any_dirty, camera_changed, has_previous),
{
    if !any_dirty && !camera_changed && has_previous {
        FrameAction::Reuse
    } else {
        FrameAction::Render
    }
}

/// Bytes per readback row: a `width`-pixel RGBA row rounded up to the
/// 256-byte alignment copies need.
pub open spec fn padded_row(width: nat) -> nat {
    ((4 * width + 255) / 256 * 256) as nat
}

/// The padded row size of a `width`-pixel image.
pub fn padded_bytes_per_row(width: u32) -> (r: u32)
    requires
        4 * width + 255 <= u32::MAX,
    ensures
        r == padded_row(width as nat),
        r % 256 == 0,
        4 * width <= r < 4 * width + 256,
{
    let row: u32 = width * 4;
    let r = (row + 255) / 256 * 256;
    assert(r == padded_row(width as nat));
    r
}

/// Copies the first `row` bytes of each of `height` rows laid out every
/// `stride` bytes, dropping the padding after each row.
pub fn strip_row_padding(padded: &[u8], row: usize, height: usize, stride: usize) -> (out: Vec<u8>)
    requires
        row <= stride,
        height == 0 || (height - 1) * stride + row <= padded@.len(),
    ensures
        out@.len() == height * row,
        forall|y: int, x: int|
            0 <= y < height && 0 <= x < row ==> #[trigger] out@[y * row + x] == padded@[y * stride + x],
{
    let n: usize = padded.len();
    let mut out: Vec<u8> = Vec::new();
    let mut y: usize = 0;
    while y < height
        invariant
            n == padded@.len(),
            y <= height,
            row <= stride,
            height == 0 || (height - 1) * stride + row <= padded@.len(),
            out@.len() == y * row,
            forall|yy: int, x: int|
                0 <= yy < y && 0 <= x < row ==> #[trigger] out@[yy * row + x] == padded@[yy * stride + x],
        decreases height - y,
    {
        assert(y * stride + row <= padded@.len()) by (nonlinear_arith)
            requires
                y < height,
                (height - 1) * stride + row <= padded@.len(),
        ;
        assert(y * row <= y * stride) by (nonlinear_arith)
            requires
                row <= stride,
        ;
        let start: usize = y * stride;
        let ghost before = out@;
        let mut x: usize = 0;
        while x < row
            invariant
                n == padded@.len(),
                x <= row,
                start == y * stride,
                start + row <= padded@.len(),
                out@.len() == y * row + x,
                out@.subrange(0, (y * row) as int) == before,
                forall|xx: int| 0 <= xx < x ==> #[trigger] out@[y * row + xx] == padded@[start + xx],
            decreases row - x,
        {
            out.push(padded[start + x]);
            proof {
                assert(out@.subrange(0, (y * row) as int) =~= before);
            }
            x = x + 1;
        }
        proof {
            assert((y + 1) * row == y * row + row) by (nonlinear_arith);
            assert forall|yy: int, xx: int| 0 <= yy < y + 1 && 0 <= xx < row implies #[trigger] out@[yy
                * row + xx] == padded@[yy * stride + xx] by {
                if yy < y {
                    assert(yy * row + xx < y * row) by (nonlinear_arith)
                        requires
                            yy < y,
                            xx < row,
                    ;
                    assert(out@[yy * row + xx] == before[yy * row + xx]);
                } else {
                    assert(yy == y);
                }
            }
        }
        y = y + 1;
    }
    out
}

} // verus!
