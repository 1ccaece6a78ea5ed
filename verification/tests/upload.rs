use std::sync::atomic::{AtomicUsize, Ordering};
use std::sync::Arc;

use spout::config::{FilenameConfig, KeyValue, Profile};
use spout::upload::{
    check_input_size, filename_from_random, generate_filename, plan_request, strip_extension,
    validate_filename, CountingReader, HttpMethod, UploadBody, MAX_UPLOAD,
};

fn profile(method: &str, format: &str, fields: Vec<KeyValue>) -> Profile {
    Profile {
        name: "p".to_string(),
        url: "https://h.test/".to_string(),
        method: method.to_string(),
        format: format.to_string(),
        path: ".".to_string(),
        strip_meta: None,
        filename: None,
        file_field: "file".to_string(),
        headers: vec![],
        fields,
    }
}

#[test]
fn name_override_keeps_or_replaces_extension() {
    assert_eq!(generate_filename(None, None, Some("shot.jpg")).unwrap(), "shot.jpg");
    assert_eq!(generate_filename(None, Some(".png"), Some("shot.jpg")).unwrap(), "shot.png");
    assert_eq!(generate_filename(None, Some("..."), Some("shot.jpg")).unwrap(), "shot.jpg");
    assert_eq!(generate_filename(None, Some("gz"), Some("a.tar.x")).unwrap(), "a.tar.gz");
    assert_eq!(generate_filename(None, Some("png"), Some(".hidden")).unwrap(), ".hidden.png");
}

#[test]
fn generated_names_use_prefix_random_and_extension() {
    let cfg = FilenameConfig {
        prefix: Some("spout_".to_string()),
        random: Some(3),
        extension: Some("..webp".to_string()),
    };
    assert_eq!(filename_from_random(Some(&cfg), None, None, &[0xab, 0x0f]), "spout_ab0.webp");
    assert_eq!(filename_from_random(Some(&cfg), Some("mp4"), None, &[0x12, 0x34]), "spout_123.mp4");
    assert_eq!(filename_from_random(None, None, None, &[]), "ss.png");
    let random = generate_filename(Some(&cfg), None, None).unwrap();
    assert_eq!(random.len(), "spout_".len() + 3 + ".webp".len());
    assert!(random[6..9].chars().all(|c| c.is_ascii_hexdigit() && !c.is_ascii_uppercase()));
}

#[test]
fn strips_only_a_real_extension() {
    assert_eq!(strip_extension("a.b.c"), "a.b");
    assert_eq!(strip_extension("noext"), "noext");
    assert_eq!(strip_extension(".profile"), ".profile");
}

#[test]
fn dangerous_filenames_are_refused() {
    assert!(validate_filename("ok-name_1.png").is_ok());
    for bad in ["a/b", "a\\b", "a\rb", "a\nb", "a\0b", "..png", "x%2Fy", "x%2fy"] {
        let err = validate_filename(bad).unwrap_err();
        assert_eq!(err.message(), format!("dangerous characters in filename: {}", bad));
    }
    assert!(validate_filename("a.b.c").is_ok());
    assert!(validate_filename("%2e").is_ok());
}

#[test]
fn input_is_capped_unless_yolo() {
    let big = vec![0u8; MAX_UPLOAD as usize + 1];
    let err = check_input_size(big.clone(), false).unwrap_err();
    assert_eq!(err.message(), "input exceeds 100 MB limit");
    assert_eq!(check_input_size(big, true).unwrap().len(), MAX_UPLOAD as usize + 1);
    assert_eq!(check_input_size(vec![1, 2], false).unwrap(), vec![1, 2]);
}

#[test]
fn counting_reader_adds_to_the_tally() {
    let tally = Arc::new(AtomicUsize::new(0));
    let mut reader = CountingReader::new(vec![1u8, 2, 3], tally.clone());
    assert_eq!(reader.inner_mut().len(), 3);
    reader.record(3);
    reader.record(2);
    assert_eq!(tally.load(Ordering::Relaxed), 5);
}

#[test]
fn request_plans_follow_the_profile() {
    let plan = plan_request(&profile("post", "multipart", vec![]), "a.png").unwrap();
    assert_eq!(plan.method, HttpMethod::Post);
    match plan.body {
        UploadBody::Multipart { mime } => assert_eq!(mime, "image/png"),
        UploadBody::Binary => panic!("expected multipart"),
    }
    let plan = plan_request(&profile("PUT", "binary", vec![]), "a.unknownext").unwrap();
    assert_eq!(plan.method, HttpMethod::Put);
    assert!(matches!(plan.body, UploadBody::Binary));
    let plan = plan_request(&profile("POST", "multipart", vec![]), "noext").unwrap();
    match plan.body {
        UploadBody::Multipart { mime } => assert_eq!(mime, "application/octet-stream"),
        UploadBody::Binary => panic!("expected multipart"),
    }

    let field = KeyValue { key: "k".to_string(), value: "v".to_string() };
    let err = plan_request(&profile("POST", "binary", vec![field]), "a.png").unwrap_err();
    assert_eq!(err.message(), "fields are not supported for binary format uploads");
    let err = plan_request(&profile("get", "binary", vec![]), "a.png").unwrap_err();
    assert_eq!(err.message(), "unsupported http method: GET");
    let err = plan_request(&profile("POST", "Binary", vec![]), "a.png").unwrap_err();
    assert_eq!(err.message(), "unsupported upload format: Binary");
}
