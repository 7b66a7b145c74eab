use webview_capture::error::Error;
use webview_capture::region::{select_rect, RegionAction, RegionEvent, RegionSession};

#[test]
fn all_or_no_coordinates_select_a_rect() {
    assert!(matches!(
        select_rect(Some(1.0), Some(2.0), Some(3.0), Some(4.0)),
        Ok(Some((x, y, w, h))) if x == 1.0 && y == 2.0 && w == 3.0 && h == 4.0
    ));
    assert!(matches!(select_rect::<f64>(None, None, None, None), Ok(None)));
}

#[test]
fn some_coordinates_are_refused() {
    match select_rect(Some(1.0), None, Some(3.0), Some(4.0)) {
        Err(Error::Capture(m)) => assert_eq!(m, "rect 는 x/y/w/h 전부 또는 전부 생략"),
        _ => panic!("expected the refusal"),
    }
    assert!(select_rect(None, None, None, Some(1.0)).is_err());
    assert!(select_rect(Some(0.0), Some(0.0), Some(0.0), None).is_err());
}

#[test]
fn region_snapshot_returns_base64_png_after_disarm() {
    let (mut s, a) = RegionSession::new();
    assert!(matches!(a, RegionAction::Arm));
    assert!(matches!(s.step(RegionEvent::Armed(Ok(()))), RegionAction::Grab));
    assert!(matches!(s.step(RegionEvent::Grabbed(Ok(b"hello".to_vec()))), RegionAction::Disarm));
    match s.step(RegionEvent::Disarmed) {
        RegionAction::Finish(Ok(b64)) => assert_eq!(b64, "aGVsbG8="),
        _ => panic!("expected the encoded bytes"),
    }
}

#[test]
fn base64_of_png_signature() {
    let (mut s, _) = RegionSession::new();
    s.step(RegionEvent::Armed(Ok(())));
    s.step(RegionEvent::Grabbed(Ok(vec![0x89, b'P', b'N', b'G', 0x0d, 0x0a, 0x1a, 0x0a])));
    match s.step(RegionEvent::Disarmed) {
        RegionAction::Finish(Ok(b64)) => assert_eq!(b64, "iVBORw0KGgo="),
        _ => panic!("expected the encoded bytes"),
    }
}

#[test]
fn region_grab_failure_is_reported_after_disarm() {
    let (mut s, _) = RegionSession::new();
    s.step(RegionEvent::Armed(Ok(())));
    assert!(matches!(
        s.step(RegionEvent::Grabbed(Err("bad crop".to_string()))),
        RegionAction::Disarm
    ));
    match s.step(RegionEvent::Disarmed) {
        RegionAction::Finish(Err(e)) => assert_eq!(e.message(), "bad crop"),
        _ => panic!("expected the failure"),
    }
}

#[test]
fn region_arming_failure_still_disarms() {
    let (mut s, _) = RegionSession::new();
    assert!(matches!(s.step(RegionEvent::Armed(Err("occluded".to_string()))), RegionAction::Disarm));
    match s.step(RegionEvent::Disarmed) {
        RegionAction::Finish(Err(Error::Capture(m))) => assert_eq!(m, "occluded"),
        _ => panic!("expected the failure"),
    }
}

fn encode_via_session(bytes: &[u8]) -> String {
    let (mut s, _) = RegionSession::new();
    s.step(RegionEvent::Armed(Ok(())));
    s.step(RegionEvent::Grabbed(Ok(bytes.to_vec())));
    match s.step(RegionEvent::Disarmed) {
        RegionAction::Finish(Ok(b64)) => b64,
        _ => panic!("expected the encoded bytes"),
    }
}

#[test]
fn base64_of_every_group_length() {
    assert_eq!(encode_via_session(b""), "");
    assert_eq!(encode_via_session(b"f"), "Zg==");
    assert_eq!(encode_via_session(b"fo"), "Zm8=");
    assert_eq!(encode_via_session(b"foo"), "Zm9v");
    assert_eq!(encode_via_session(b"foob"), "Zm9vYg==");
    assert_eq!(encode_via_session(b"foobar"), "Zm9vYmFy");
    assert_eq!(encode_via_session(&[0xff, 0xfe, 0xfd, 0x00, 0x3e, 0x3f]), "//79AD4/");
}

#[test]
fn different_bytes_give_different_base64() {
    assert_ne!(encode_via_session(&[0, 1, 2]), encode_via_session(&[0, 1, 3]));
    assert_ne!(encode_via_session(&[7]), encode_via_session(&[7, 0]));
}
