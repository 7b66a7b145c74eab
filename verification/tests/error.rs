use webview_capture::error::Error;

#[test]
fn io_errors_convert_into_the_io_variant() {
    let e: Error = std::io::Error::new(std::io::ErrorKind::NotFound, "gone").into();
    assert!(matches!(e, Error::Io(_)));
    assert_eq!(e.message(), "gone");
}

#[test]
fn capture_errors_carry_their_message() {
    assert_eq!(Error::Capture("webview missing".to_string()).message(), "webview missing");
}
