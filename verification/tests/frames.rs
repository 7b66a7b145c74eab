use webview_capture::frames::frame_path;

#[test]
fn frame_paths_are_zero_padded_to_four_digits() {
    assert_eq!(frame_path("out", 0), "out/f0000.png");
    assert_eq!(frame_path("out", 7), "out/f0007.png");
    assert_eq!(frame_path("out", 42), "out/f0042.png");
    assert_eq!(frame_path("out", 599), "out/f0599.png");
    assert_eq!(frame_path("/tmp/rec", 9999), "/tmp/rec/f9999.png");
}

#[test]
fn frame_paths_grow_past_four_digits() {
    assert_eq!(frame_path("d", 10000), "d/f10000.png");
    assert_eq!(frame_path("d", 12345), "d/f12345.png");
    assert_eq!(frame_path("d", u32::MAX), "d/f4294967295.png");
}

#[test]
fn frame_paths_match_std_formatting() {
    for i in [0u32, 1, 9, 10, 99, 100, 999, 1000, 1234, 65535, 100000] {
        assert_eq!(frame_path("dir", i), format!("dir/f{i:04}.png"));
    }
}

#[test]
fn distinct_frames_have_distinct_paths() {
    let a = frame_path("dir", 1);
    let b = frame_path("dir", 10);
    let c = frame_path("dir", 100);
    assert_ne!(a, b);
    assert_ne!(b, c);
    assert_ne!(a, c);
}
