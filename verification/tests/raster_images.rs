use manim_rust::errors::RasterError;
use manim_rust::raster::{checkerboard, raster_from_bytes, raster_from_rgba};
use manim_rust::frames::{frame_action, padded_bytes_per_row, strip_row_padding, FrameAction};

#[test]
fn empty_rgba_errors() {
    assert!(raster_from_rgba(0, 4, vec![]).is_err());
    assert!(raster_from_rgba(2, 2, vec![1, 2, 3]).is_err());
}

#[test]
fn rgba_size_errors_say_what_was_expected() {
    match raster_from_rgba(0, 4, vec![]) {
        Err(RasterError::Empty) => {}
        _ => panic!("expected Empty"),
    }
    match raster_from_rgba(2, 2, vec![1, 2, 3]) {
        Err(e) => assert_eq!(e.message(), "image decode error: expected 16 RGBA bytes for 2x2, got 3"),
        Ok(_) => panic!("expected a size error"),
    }
    assert_eq!(RasterError::Empty.message(), "image is empty");
}

#[test]
fn rgba_of_the_right_size_is_kept() {
    let img = raster_from_rgba(1, 2, vec![1, 2, 3, 4, 5, 6, 7, 8]).ok().unwrap();
    assert_eq!((img.width, img.height), (1, 2));
    assert_eq!(img.data, vec![1, 2, 3, 4, 5, 6, 7, 8]);
}

#[test]
fn png_roundtrip_decodes() {
    let mut png = Vec::new();
    {
        let img = image::RgbaImage::from_pixel(2, 2, image::Rgba([10, 20, 30, 255]));
        img.write_to(&mut std::io::Cursor::new(&mut png), image::ImageFormat::Png)
            .unwrap();
    }
    let data = raster_from_bytes(&png).ok().unwrap();
    assert_eq!((data.width, data.height), (2, 2));
    assert_eq!(data.data[0], 10);
    assert_eq!(data.data.len(), 16);
}

#[test]
fn undecodable_bytes_are_a_decode_error() {
    match raster_from_bytes(&[1, 2, 3, 4]) {
        Err(RasterError::Decode(m)) => assert!(!m.is_empty()),
        _ => panic!("expected a decode error"),
    }
}

#[test]
fn checkerboard_alternates_from_the_top_left() {
    let a = [255, 255, 0, 255];
    let b = [88, 196, 221, 255];
    let img = checkerboard(3, 2, a, b);
    assert_eq!((img.width, img.height), (3, 2));
    assert_eq!(img.data.len(), 24);
    let px = |x: usize, y: usize| -> [u8; 4] {
        let i = (y * 3 + x) * 4;
        [img.data[i], img.data[i + 1], img.data[i + 2], img.data[i + 3]]
    };
    assert_eq!(px(0, 0), a);
    assert_eq!(px(1, 0), b);
    assert_eq!(px(2, 0), a);
    assert_eq!(px(0, 1), b);
    assert_eq!(px(1, 1), a);
    assert_eq!(px(2, 1), b);
}

#[test]
fn ffmpeg_command_line() {
    let args = manim_rust::video::ffmpeg_args(1920, 1080, 60);
    let want = [
        "-y", "-f", "rawvideo", "-pix_fmt", "rgba", "-s", "1920x1080", "-r", "60", "-i", "-", "-an",
        "-c:v", "libx264", "-pix_fmt", "yuv420p", "-crf", "18", "-movflags", "+faststart",
    ];
    assert_eq!(args, want.iter().map(|s| s.to_string()).collect::<Vec<_>>());
}

#[test]
fn frames_are_reused_only_when_nothing_changed() {
    assert_eq!(frame_action(false, false, true), FrameAction::Reuse);
    assert_eq!(frame_action(true, false, true), FrameAction::Render);
    assert_eq!(frame_action(false, true, true), FrameAction::Render);
    assert_eq!(frame_action(false, false, false), FrameAction::Render);
}

#[test]
fn readback_rows_are_aligned_and_unpadded() {
    assert_eq!(padded_bytes_per_row(1920), 7680);
    assert_eq!(padded_bytes_per_row(100), 512);
    assert_eq!(padded_bytes_per_row(64), 256);
    assert_eq!(padded_bytes_per_row(0), 0);
    let padded = [1u8, 2, 3, 0, 0, 4, 5, 6, 0, 0, 7, 8, 9];
    assert_eq!(strip_row_padding(&padded, 3, 3, 5), vec![1, 2, 3, 4, 5, 6, 7, 8, 9]);
    assert!(strip_row_padding(&padded, 3, 0, 5).is_empty());
}
