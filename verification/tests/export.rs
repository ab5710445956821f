use trim_dead_area::decoder::VideoFrame;
use trim_dead_area::double::Double;
use trim_dead_area::export::{bw_pixels, bw_png, can_convert, frame_file_name, save_failure};
use trim_dead_area::text::{append_decimal, append_padded};

fn frame(rgba: Vec<u8>, width: u32, height: u32) -> VideoFrame {
    VideoFrame {
        rgba,
        width,
        height,
        pts_secs: Double::from_bits(0),
        duration_secs: None,
    }
}

#[test]
fn pixels_become_their_luma() {
    let rgba = vec![
        255, 0, 0, 255, 0, 255, 0, 255, 0, 0, 255, 255, 255, 255, 255, 0, 0, 0, 0, 255, 128, 128,
        128, 9,
    ];
    assert_eq!(bw_pixels(&frame(rgba, 3, 2)), vec![76, 150, 29, 255, 0, 128]);
}

#[test]
fn the_last_alpha_is_not_needed() {
    assert!(can_convert(&frame(vec![1, 2, 3], 1, 1)));
    assert!(!can_convert(&frame(vec![1, 2], 1, 1)));
    assert!(can_convert(&frame(vec![], 0, 9)));
    assert_eq!(bw_pixels(&frame(vec![10, 10, 10], 1, 1)), vec![10]);
    assert_eq!(bw_pixels(&frame(vec![], 5, 0)), Vec::<u8>::new());
}

#[test]
fn frames_are_numbered_with_six_digits() {
    assert_eq!(frame_file_name(0), "frame_000000.png");
    assert_eq!(frame_file_name(7), "frame_000007.png");
    assert_eq!(frame_file_name(42), "frame_000042.png");
    assert_eq!(frame_file_name(999_999), "frame_999999.png");
    assert_eq!(frame_file_name(1_000_000), "frame_1000000.png");
    assert_eq!(
        frame_file_name(u64::MAX),
        "frame_18446744073709551615.png"
    );
}

#[test]
fn numbers_are_written_as_the_formatter_does() {
    let mut n: u64 = 1;
    for k in 0..64u64 {
        n = n.wrapping_mul(6364136223846793005).wrapping_add(k) >> (k % 50);
        let mut plain = String::from("a");
        append_decimal(&mut plain, n);
        assert_eq!(plain, format!("a{n}"));
        let mut padded = String::new();
        append_padded(&mut padded, n);
        assert_eq!(padded, format!("{n:06}"));
    }
}

#[test]
fn different_frames_have_different_files() {
    let names: Vec<String> = (0..2000u64).map(|k| frame_file_name(k * 997)).collect();
    for i in 0..names.len() {
        for j in 0..i {
            assert_ne!(names[i], names[j]);
        }
    }
}

#[test]
fn saved_frames_read_back_as_their_luma() {
    let mut rgba = Vec::new();
    for i in 0..7 * 5u32 {
        rgba.extend_from_slice(&[(i * 7) as u8, (i * 3) as u8, (200 - i) as u8, 255]);
    }
    let f = frame(rgba, 7, 5);
    let bytes = bw_png(&f).unwrap();
    assert_eq!(&bytes[..8], &[0x89, b'P', b'N', b'G', 13, 10, 26, 10]);
    let back = image::load_from_memory(&bytes).unwrap().to_luma8();
    assert_eq!(back.dimensions(), (7, 5));
    assert_eq!(back.into_raw(), bw_pixels(&f));
    // The same frame gives the same file.
    assert_eq!(bw_png(&f), Ok(bytes));
}

#[test]
fn a_frame_without_pixels_cannot_be_saved() {
    assert!(bw_png(&frame(vec![], 0, 5)).is_err());
}

#[test]
fn a_failure_names_the_frame() {
    assert_eq!(
        save_failure(42, "disk full"),
        "Failed to save frame 42: disk full"
    );
}
