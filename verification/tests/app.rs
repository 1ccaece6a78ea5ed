use spout::app::{
    format_clean_status, interpret_response, limit_error_body, read_limited_body, upload_url,
};
use spout::sanitize::SanitizeStatus;

#[test]
fn large_response_fails() {
    let body = vec![b'a'; 10 * 1024 * 1024 + 1];
    let err = read_limited_body(body, 10 * 1024 * 1024).unwrap_err();
    assert_eq!(err.message(), "response exceeds 10 MB limit");
}

#[test]
fn error_body_is_trimmed() {
    let body = "a".repeat(5000);
    let limited = limit_error_body(&body);
    assert_eq!(limited.len(), 4099);
    assert!(limited.ends_with("..."));
}

#[test]
fn clean_status_is_consistent() {
    assert_eq!(format_clean_status(SanitizeStatus::Cleaned("png")), "cleaned");
    assert_eq!(format_clean_status(SanitizeStatus::Kept("png")), "kept");
    assert_eq!(format_clean_status(SanitizeStatus::Unknown), "unsupported");
    assert_eq!(format_clean_status(SanitizeStatus::Disabled), "off");
}

#[test]
fn body_at_the_limit_is_read() {
    let body = vec![b'a'; 1024];
    assert_eq!(read_limited_body(body.clone(), 1024).unwrap(), body);
}

#[test]
fn error_body_is_cut_at_a_character_boundary() {
    let short = "é".repeat(2048);
    assert_eq!(limit_error_body(&short), short);
    let body = format!("a{}", "é".repeat(2048));
    let limited = limit_error_body(&body);
    assert_eq!(limited, format!("a{}...", "é".repeat(2047)));
    assert_eq!(limited.len(), 4098);
}

#[test]
fn filename_is_encoded_into_every_placeholder() {
    assert_eq!(
        upload_url("https://h.test/u?f={filename}&g={filename}", "a b.png"),
        "https://h.test/u?f=a%20b.png&g=a%20b.png"
    );
    assert_eq!(upload_url("https://h.test/", "x.png"), "https://h.test/");
}

#[test]
fn failed_uploads_report_the_body() {
    let err = interpret_response(false, "404 Not Found".to_string(), b"  nope \n", ".", false)
        .unwrap_err();
    assert_eq!(err.message(), "upload failed (404 Not Found) -- nope");
}

#[test]
fn responses_are_checked_unless_yolo() {
    let ok = interpret_response(true, "200 OK".to_string(), b"https://x.test/a.png\n", ".", false);
    assert_eq!(ok.unwrap(), "https://x.test/a.png");
    let err = interpret_response(true, "200 OK".to_string(), b"file:///etc/passwd", ".", false)
        .unwrap_err();
    assert_eq!(err.message(), "unexpected scheme in response url: file");
    let ok = interpret_response(true, "200 OK".to_string(), b"file:///etc/passwd", ".", true);
    assert_eq!(ok.unwrap(), "file:///etc/passwd");
    let json = br#"{"link":"https://x.test/b"}"#;
    assert_eq!(
        interpret_response(true, "201 Created".to_string(), json, "link", false).unwrap(),
        "https://x.test/b"
    );
    let lossy = interpret_response(true, "200 OK".to_string(), b"ab\xffcd", ".", true).unwrap();
    assert_eq!(lossy, "ab\u{fffd}cd");
}
