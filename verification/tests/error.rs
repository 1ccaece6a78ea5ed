use spout::error::{decimal_string, SpoutError};

#[test]
fn messages_read_as_documented() {
    assert_eq!(SpoutError::NoInputData.message(), "no input data -- usage: <cmd> | spout [profile]");
    assert_eq!(
        SpoutError::ConfigExists("/c".to_string()).message(),
        "config exists at /c -- use -G to overwrite"
    );
    assert_eq!(
        SpoutError::ConfigNotFound("/c".to_string()).message(),
        "config not found at /c -- run: spout -g"
    );
    assert_eq!(SpoutError::ResponseTooLargeLimit(0).message(), "response exceeds 0 MB limit");
    assert_eq!(
        SpoutError::ClipboardSpawn("xsel".to_string(), "not found".to_string()).message(),
        "failed to spawn clipboard binary 'xsel': not found"
    );
    assert_eq!(SpoutError::Io("disk full".to_string()).message(), "disk full");
}

#[test]
fn decimal_rendering() {
    assert_eq!(decimal_string(0), "0");
    assert_eq!(decimal_string(7), "7");
    assert_eq!(decimal_string(10), "10");
    assert_eq!(decimal_string(u64::MAX), u64::MAX.to_string());
}
