use webview_capture::error::Error;
use webview_capture::session::{Action, CaptureSession, Event, MAX_FRAMES};

fn ok() -> Result<(), String> {
    Ok(())
}

fn expect_capture(a: Action) -> String {
    match a {
        Action::Capture(p) => p,
        _ => panic!("expected a capture"),
    }
}

#[test]
fn record_three_frames_runs_arm_capture_pause_disarm_finish() {
    let (mut s, a) = CaptureSession::frames("rec".to_string(), 3, 25);
    assert!(matches!(a, Action::Arm));
    assert_eq!(expect_capture(s.step(Event::Armed(ok()))), "rec/f0000.png");
    assert!(matches!(s.step(Event::Captured(ok())), Action::Pause(25)));
    assert_eq!(expect_capture(s.step(Event::Paused)), "rec/f0001.png");
    assert!(matches!(s.step(Event::Captured(ok())), Action::Pause(25)));
    assert_eq!(expect_capture(s.step(Event::Paused)), "rec/f0002.png");
    // no pause after the last frame
    assert!(matches!(s.step(Event::Captured(ok())), Action::Disarm));
    assert!(matches!(s.step(Event::Disarmed), Action::Finish(Ok(3))));
}

#[test]
fn record_is_capped_at_max_frames() {
    let (mut s, _) = CaptureSession::frames("d".to_string(), 100_000, 0);
    let mut a = s.step(Event::Armed(ok()));
    let mut captures = 0u32;
    let mut last = String::new();
    loop {
        a = match a {
            Action::Capture(p) => {
                captures += 1;
                last = p;
                s.step(Event::Captured(ok()))
            }
            Action::Pause(_) => s.step(Event::Paused),
            Action::Disarm => s.step(Event::Disarmed),
            Action::Finish(r) => {
                assert!(matches!(r, Ok(n) if n == MAX_FRAMES));
                break;
            }
            Action::Arm => panic!("armed twice"),
        };
    }
    assert_eq!(captures, 600);
    assert_eq!(last, "d/f0599.png");
}

#[test]
fn record_of_zero_frames_still_disarms() {
    let (mut s, _) = CaptureSession::frames("d".to_string(), 0, 10);
    assert!(matches!(s.step(Event::Armed(ok())), Action::Disarm));
    assert!(matches!(s.step(Event::Disarmed), Action::Finish(Ok(0))));
}

#[test]
fn failed_arming_disarms_then_reports_the_failure() {
    let (mut s, _) = CaptureSession::frames("d".to_string(), 5, 10);
    assert!(matches!(s.step(Event::Armed(Err("no window".to_string()))), Action::Disarm));
    match s.step(Event::Disarmed) {
        Action::Finish(Err(Error::Capture(m))) => assert_eq!(m, "no window"),
        _ => panic!("expected the arming failure"),
    }
}

#[test]
fn failed_snapshot_arming_disarms_and_never_captures() {
    let (mut s, _) = CaptureSession::single("x.png".to_string());
    assert!(matches!(s.step(Event::Armed(Err("join".to_string()))), Action::Disarm));
    // a late capture report is not taken once the session is disarming
    assert!(matches!(s.step(Event::Captured(Ok(()))), Action::Disarm));
    assert!(matches!(s.step(Event::Disarmed), Action::Finish(Err(_))));
}

#[test]
fn failed_capture_stops_recording_and_disarms() {
    let (mut s, _) = CaptureSession::frames("d".to_string(), 5, 10);
    s.step(Event::Armed(ok()));
    assert!(matches!(s.step(Event::Captured(ok())), Action::Pause(10)));
    assert_eq!(expect_capture(s.step(Event::Paused)), "d/f0001.png");
    assert!(matches!(s.step(Event::Captured(Err("boom".to_string()))), Action::Disarm));
    match s.step(Event::Disarmed) {
        Action::Finish(Err(e)) => assert_eq!(e.message(), "boom"),
        _ => panic!("expected the capture failure"),
    }
}

#[test]
fn snapshot_captures_once_into_its_path() {
    let (mut s, a) = CaptureSession::single("/tmp/shot.png".to_string());
    assert!(matches!(a, Action::Arm));
    assert_eq!(expect_capture(s.step(Event::Armed(ok()))), "/tmp/shot.png");
    assert!(matches!(s.step(Event::Captured(ok())), Action::Disarm));
    assert!(matches!(s.step(Event::Disarmed), Action::Finish(Ok(1))));
}

#[test]
fn snapshot_failure_is_reported_after_disarm() {
    let (mut s, _) = CaptureSession::single("x.png".to_string());
    s.step(Event::Armed(ok()));
    assert!(matches!(s.step(Event::Captured(Err("denied".to_string()))), Action::Disarm));
    match s.step(Event::Disarmed) {
        Action::Finish(Err(Error::Capture(m))) => assert_eq!(m, "denied"),
        _ => panic!("expected the failure"),
    }
}

#[test]
fn an_unexpected_report_repeats_the_pending_action() {
    let (mut s, _) = CaptureSession::frames("d".to_string(), 2, 5);
    assert!(matches!(s.step(Event::Paused), Action::Arm));
    assert_eq!(expect_capture(s.step(Event::Armed(ok()))), "d/f0000.png");
    assert_eq!(expect_capture(s.step(Event::Disarmed)), "d/f0000.png");
    assert!(matches!(s.step(Event::Captured(ok())), Action::Pause(5)));
    assert!(matches!(s.step(Event::Captured(ok())), Action::Pause(5)));
    assert_eq!(expect_capture(s.step(Event::Paused)), "d/f0001.png");
    assert!(matches!(s.step(Event::Captured(ok())), Action::Disarm));
    assert!(matches!(s.step(Event::Disarmed), Action::Finish(Ok(2))));
    // a finished session keeps its result
    assert!(matches!(s.step(Event::Paused), Action::Finish(Ok(2))));
}
