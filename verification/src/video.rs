//! The encoder command line for mp4 output: raw RGBA frames on stdin,
//! H.264 out.
use vstd::prelude::*;

use crate::tex_parts::views;
use crate::text::{decimal, push_decimal, str_chars, string_from};

verus! {

/// `ffmpeg`'s arguments, before the output path, for `width` by `height`
/// RGBA frames at `fps` frames per second read from stdin and written as
/// H.264 (yuv420p, CRF 18, fast start), overwriting the output.
pub open spec fn ffmpeg_arg_list(width: u32, height: u32, fps: u32) -> Seq<Seq<char>> {
    seq![
        "-y"@,
        "-f"@,
        "rawvideo"@,
        "-pix_fmt"@,
        "rgba"@,
        "-s"@,
        decimal(width as nat) + "x"@ + decimal(height as nat),
        "-r"@,
        decimal(fps as nat),
        "-i"@,
        "-"@,
        "-an"@,
        "-c:v"@,
        "libx264"@,
        "-pix_fmt"@,
        "yuv420p"@,
        "-crf"@,
        "18"@,
        "-movflags"@,
        "+faststart"@,
    ]
}

/// The decimal text of `n`.
fn decimal_string(n: u64) -> (r: String)
    ensures
        r@ == decimal(n as nat),
{
    let mut v: Vec<char> = Vec::new();
    push_decimal(&mut v, n);
    assert(v@ =~= decimal(n as nat));
    string_from(&v)
}

/// The encoder's arguments (the output path goes last, after these).
pub fn ffmpeg_args(width: u32, height: u32, fps: u32) -> (r: Vec<String>)
    ensures
        views(r@) == ffmpeg_arg_list(width, height, fps),
{
    let mut size = str_chars("");
    push_decimal(&mut size, width as u64);
    size.push('x');
    push_decimal(&mut size, height as u64);
    proof {
        reveal_strlit("");
        reveal_strlit("x");
        assert(size@ =~= decimal(width as nat) + "x"@ + decimal(height as nat));
    }
    let r = vec![
        "-y".to_string(),
        "-f".to_string(),
        "rawvideo".to_string(),
        "-pix_fmt".to_string(),
        "rgba".to_string(),
        "-s".to_string(),
        string_from(&size),
        "-r".to_string(),
        decimal_string(fps as u64),
        "-i".to_string(),
        "-".to_string(),
        "-an".to_string(),
        "-c:v".to_string(),
        "libx264".to_string(),
        "-pix_fmt".to_string(),
        "yuv420p".to_string(),
        "-crf".to_string(),
        "18".to_string(),
        "-movflags".to_string(),
        "+faststart".to_string(),
    ];
    assert(views(r@) =~= ffmpeg_arg_list(width, height, fps));
    r
}

} // verus!
