use webview_capture::analysis::{Fraction, PixelRect};
use webview_capture::error::Error;
use webview_capture::luma::LumaImage;
use webview_capture::scan::{FrameScan, ScanAction, ScanEvent, ScanKind};

fn png(w: u32, h: u32, px: &[u8]) -> Vec<u8> {
    let buf = image::GrayImage::from_raw(w, h, px.to_vec()).unwrap();
    let mut out = std::io::Cursor::new(Vec::new());
    buf.write_to(&mut out, image::ImageFormat::Png).unwrap();
    out.into_inner()
}

fn expect_probe(a: ScanAction) -> String {
    match a {
        ScanAction::Probe(p) => p,
        _ => panic!("expected a probe"),
    }
}

fn step(scan: &mut FrameScan, e: ScanEvent) -> ScanAction {
    assert!(scan.accepts(&e));
    scan.step(e)
}

fn whole(w: u32, h: u32) -> PixelRect {
    PixelRect { x0: 0, y0: 0, x1: w, y1: h }
}

#[test]
fn means_of_two_frames_then_stop_at_the_missing_one() {
    let (mut scan, a) = FrameScan::new("rec".to_string(), ScanKind::Means);
    assert_eq!(expect_probe(a), "rec/f0000.png");
    let a = step(&mut scan, ScanEvent::Frame(Some(Ok(png(2, 1, &[10, 30])))));
    assert!(matches!(a, ScanAction::Locate { width: 2, height: 1 }));
    // corners beyond the frame are cut back to it
    let a = step(
        &mut scan,
        ScanEvent::Corners(vec![whole(5, 5), PixelRect { x0: 1, y0: 0, x1: 9, y1: 1 }]),
    );
    assert_eq!(expect_probe(a), "rec/f0001.png");
    step(&mut scan, ScanEvent::Frame(Some(Ok(png(2, 1, &[0, 0])))));
    let a = step(&mut scan, ScanEvent::Corners(vec![whole(2, 1), whole(0, 0)]));
    assert_eq!(expect_probe(a), "rec/f0002.png");
    match step(&mut scan, ScanEvent::Frame(None)) {
        ScanAction::Finish(Ok(rows)) => assert_eq!(
            rows,
            vec![
                vec![Fraction { num: 40, den: 2 }, Fraction { num: 30, den: 1 }],
                vec![Fraction { num: 0, den: 2 }, Fraction { num: 0, den: 0 }],
            ]
        ),
        _ => panic!("expected the rows"),
    }
}

#[test]
fn no_frames_gives_no_rows() {
    let (mut scan, _) = FrameScan::new("empty".to_string(), ScanKind::Means);
    assert!(matches!(step(&mut scan, ScanEvent::Frame(None)), ScanAction::Finish(Ok(rows)) if rows.is_empty()));
}

#[test]
fn changes_start_at_zero_and_follow_the_frames() {
    let (mut scan, _) = FrameScan::new("d".to_string(), ScanKind::Changes(30));
    step(&mut scan, ScanEvent::Frame(Some(Ok(png(2, 1, &[0, 0])))));
    step(&mut scan, ScanEvent::Corners(vec![whole(2, 1)]));
    step(&mut scan, ScanEvent::Frame(Some(Ok(png(2, 1, &[0, 200])))));
    step(&mut scan, ScanEvent::Corners(vec![whole(2, 1)]));
    // a frame of another size counts as fully changed
    let a = step(&mut scan, ScanEvent::Frame(Some(Ok(png(1, 1, &[5])))));
    assert!(matches!(a, ScanAction::Locate { width: 1, height: 1 }));
    let a = step(&mut scan, ScanEvent::Corners(vec![whole(1, 1)]));
    assert_eq!(expect_probe(a), "d/f0003.png");
    match step(&mut scan, ScanEvent::Frame(None)) {
        ScanAction::Finish(Ok(rows)) => assert_eq!(
            rows,
            vec![
                vec![Fraction { num: 0, den: 1 }],
                vec![Fraction { num: 1, den: 2 }],
                vec![Fraction { num: 1, den: 1 }],
            ]
        ),
        _ => panic!("expected the rows"),
    }
}

#[test]
fn unreadable_frame_ends_the_scan_with_its_path() {
    let (mut scan, _) = FrameScan::new("d".to_string(), ScanKind::Means);
    step(&mut scan, ScanEvent::Frame(Some(Ok(png(1, 1, &[1])))));
    step(&mut scan, ScanEvent::Corners(vec![]));
    match step(&mut scan, ScanEvent::Frame(Some(Err("permission denied".to_string())))) {
        ScanAction::Finish(Err(Error::Capture(m))) => assert_eq!(m, "d/f0001.png: permission denied"),
        _ => panic!("expected the failure"),
    }
}

#[test]
fn undecodable_frame_ends_the_scan_with_its_path() {
    let (mut scan, _) = FrameScan::new("d".to_string(), ScanKind::Changes(30));
    match step(&mut scan, ScanEvent::Frame(Some(Ok(b"\x89PNG broken".to_vec())))) {
        ScanAction::Finish(Err(e)) => {
            let expected =
                image::load_from_memory_with_format(b"\x89PNG broken", image::ImageFormat::Png)
                    .err()
                    .unwrap();
            assert_eq!(e.message(), format!("d/f0000.png: {expected}"));
        }
        _ => panic!("expected the failure"),
    }
}

#[test]
fn scan_repeats_the_pending_action_on_an_unexpected_report() {
    let (mut scan, _) = FrameScan::new("d".to_string(), ScanKind::Means);
    assert_eq!(expect_probe(step(&mut scan, ScanEvent::Corners(vec![]))), "d/f0000.png");
    step(&mut scan, ScanEvent::Frame(Some(Ok(png(3, 2, &[0; 6])))));
    assert!(matches!(
        step(&mut scan, ScanEvent::Frame(None)),
        ScanAction::Locate { width: 3, height: 2 }
    ));
}

fn run_means(frames: &[Vec<u8>], w: u32, h: u32) -> Vec<Vec<Fraction>> {
    let (mut scan, _) = FrameScan::new("d".to_string(), ScanKind::Means);
    for f in frames {
        step(&mut scan, ScanEvent::Frame(Some(Ok(f.clone()))));
        step(&mut scan, ScanEvent::Corners(vec![whole(w, h)]));
    }
    match step(&mut scan, ScanEvent::Frame(None)) {
        ScanAction::Finish(Ok(rows)) => rows,
        _ => panic!("expected the rows"),
    }
}

#[test]
fn a_later_frame_keeps_the_earlier_rows() {
    let a = png(2, 1, &[10, 20]);
    let b = png(2, 1, &[30, 50]);
    let one = run_means(&[a.clone()], 2, 1);
    let two = run_means(&[a, b], 2, 1);
    assert_eq!(two.len(), 2);
    assert_eq!(two[..1], one[..]);
    assert_eq!(two[1], vec![Fraction { num: 80, den: 2 }]);
}

#[test]
fn frame_without_extension_does_not_decode() {
    assert!(LumaImage::decode("frame", &png(1, 1, &[0])).is_err());
}
