use spout::sanitize::{sanitize_media, SanitizeStatus};

fn contains(haystack: &[u8], needle: &[u8]) -> bool {
    haystack.windows(needle.len()).any(|w| w == needle)
}

fn find_chunk(bytes: &[u8], chunk: &[u8; 4]) -> Option<usize> {
    bytes.windows(4).position(|w| w == chunk)
}

fn png_bytes(chunks: &[(&[u8; 4], &[u8])]) -> Vec<u8> {
    let mut out = b"\x89PNG\r\n\x1a\n".to_vec();
    for (kind, data) in chunks {
        out.extend_from_slice(&(data.len() as u32).to_be_bytes());
        out.extend_from_slice(*kind);
        out.extend_from_slice(data);
        out.extend_from_slice(&0u32.to_be_bytes());
    }
    out
}

fn jpeg_bytes(segments: &[(u8, &[u8])]) -> Vec<u8> {
    let mut out = vec![0xFF, 0xD8];
    for (marker, payload) in segments {
        out.push(0xFF);
        out.push(*marker);
        out.extend_from_slice(&((payload.len() + 2) as u16).to_be_bytes());
        out.extend_from_slice(payload);
    }
    out.extend_from_slice(&[0xFF, 0xDA, 0x00, 0x02, 0x11, 0x22, 0x33, 0xFF, 0xD9]);
    out
}

fn webp_bytes(chunks: &[(&[u8; 4], &[u8])]) -> Vec<u8> {
    let mut body = b"WEBP".to_vec();
    for (kind, data) in chunks {
        body.extend_from_slice(*kind);
        body.extend_from_slice(&(data.len() as u32).to_le_bytes());
        body.extend_from_slice(data);
        if data.len() % 2 == 1 {
            body.push(0);
        }
    }

    let mut out = b"RIFF".to_vec();
    out.extend_from_slice(&(body.len() as u32).to_le_bytes());
    out.extend_from_slice(&body);
    out
}

#[test]
fn strips_png_metadata_and_icc() {
    let png = png_bytes(&[
        (b"IHDR", b"head"),
        (b"tEXt", b"text"),
        (b"iCCP", b"icc"),
        (b"tIME", b"time"),
        (b"IDAT", b"data"),
        (b"IEND", b""),
    ]);

    let sanitized = sanitize_media(png, true).unwrap();

    assert_eq!(sanitized.status, SanitizeStatus::Cleaned("png"));
    assert!(!contains(&sanitized.bytes, b"tEXt"));
    assert!(!contains(&sanitized.bytes, b"iCCP"));
    assert!(!contains(&sanitized.bytes, b"tIME"));
    assert!(contains(&sanitized.bytes, b"IHDR"));
    assert!(contains(&sanitized.bytes, b"IDAT"));
}

#[test]
fn keeps_png_without_metadata() {
    let png = png_bytes(&[(b"IHDR", b"head"), (b"IDAT", b"data"), (b"IEND", b"")]);

    let sanitized = sanitize_media(png.clone(), true).unwrap();

    assert_eq!(sanitized.status, SanitizeStatus::Kept("png"));
    assert_eq!(sanitized.bytes, png);
}

#[test]
fn strips_jpeg_metadata_and_icc() {
    let jpeg = jpeg_bytes(&[
        (0xE1, b"Exif\0\0meta"),
        (0xE2, b"ICC_PROFILE\0\x01\x01icc"),
        (0xED, b"iptc"),
        (0xFE, b"comment"),
        (0xE2, b"NOT_ICC"),
    ]);

    let sanitized = sanitize_media(jpeg, true).unwrap();

    assert_eq!(sanitized.status, SanitizeStatus::Cleaned("jpeg"));
    assert!(!contains(&sanitized.bytes, b"Exif\0\0"));
    assert!(!contains(&sanitized.bytes, b"ICC_PROFILE\0"));
    assert!(!contains(&sanitized.bytes, b"comment"));
    assert!(contains(&sanitized.bytes, b"NOT_ICC"));
}

#[test]
fn strips_webp_metadata_and_icc() {
    let webp = webp_bytes(&[
        (b"VP8X", &[0x2C, 0, 0, 0, 1, 0, 0, 1, 0, 0]),
        (b"ICCP", b"icc"),
        (b"EXIF", b"meta"),
        (b"XMP ", b"xmp"),
        (b"VP8 ", b"data"),
    ]);

    let sanitized = sanitize_media(webp, true).unwrap();

    assert_eq!(sanitized.status, SanitizeStatus::Cleaned("webp"));
    assert!(!contains(&sanitized.bytes, b"ICCP"));
    assert!(!contains(&sanitized.bytes, b"EXIF"));
    assert!(!contains(&sanitized.bytes, b"XMP "));
    let vp8x = find_chunk(&sanitized.bytes, b"VP8X").unwrap();
    assert_eq!(sanitized.bytes[vp8x + 8] & 0x2C, 0);
}

#[test]
fn malformed_known_format_fails() {
    let png = b"\x89PNG\r\n\x1a\nbroken".to_vec();
    let err = sanitize_media(png, true).unwrap_err();
    assert_eq!(err.message(), "failed to strip metadata from png");
}

#[test]
fn strip_meta_false_skips_cleaning() {
    let png = png_bytes(&[(b"IHDR", b"head"), (b"tEXt", b"text"), (b"IEND", b"")]);
    let sanitized = sanitize_media(png.clone(), false).unwrap();
    assert_eq!(sanitized.status, SanitizeStatus::Disabled);
    assert_eq!(sanitized.bytes, png);
}

#[test]
fn stripping_twice_keeps_the_first_result() {
    let png = png_bytes(&[(b"IHDR", b"head"), (b"eXIf", b"exif"), (b"IEND", b"")]);
    let once = sanitize_media(png, true).unwrap();
    let twice = sanitize_media(once.bytes.clone(), true).unwrap();
    assert_eq!(twice.status, SanitizeStatus::Kept("png"));
    assert_eq!(twice.bytes, once.bytes);

    let jpeg = jpeg_bytes(&[(0xE1, b"Exif\0\0meta"), (0xDB, b"table")]);
    let once = sanitize_media(jpeg, true).unwrap();
    let twice = sanitize_media(once.bytes.clone(), true).unwrap();
    assert_eq!(twice.status, SanitizeStatus::Kept("jpeg"));
    assert_eq!(twice.bytes, once.bytes);

    let webp = webp_bytes(&[(b"VP8X", &[0x2C, 0, 0, 0, 1, 0, 0, 1, 0, 0]), (b"EXIF", b"m")]);
    let once = sanitize_media(webp, true).unwrap();
    let twice = sanitize_media(once.bytes.clone(), true).unwrap();
    assert_eq!(twice.status, SanitizeStatus::Kept("webp"));
    assert_eq!(twice.bytes, once.bytes);
}

#[test]
fn png_data_after_iend_is_kept() {
    let mut png = png_bytes(&[(b"IHDR", b"head"), (b"tEXt", b"t"), (b"IEND", b"")]);
    png.extend_from_slice(b"trailer");
    let sanitized = sanitize_media(png, true).unwrap();
    let expected = {
        let mut e = png_bytes(&[(b"IHDR", b"head"), (b"IEND", b"")]);
        e.extend_from_slice(b"trailer");
        e
    };
    assert_eq!(sanitized.bytes, expected);
}

#[test]
fn png_without_iend_fails() {
    let png = png_bytes(&[(b"IHDR", b"head"), (b"IDAT", b"data")]);
    assert!(sanitize_media(png, true).is_err());
}

#[test]
fn jpeg_fill_and_standalone_markers_are_kept() {
    // SOI, fill byte, RST0, a comment, then SOS with scan data and EOI.
    let jpeg = vec![
        0xFF, 0xD8, 0xFF, 0xFF, 0xD0, 0xFF, 0xFE, 0x00, 0x04, b'h', b'i', 0xFF, 0xDA, 0x00,
        0x02, 0x55, 0xFF, 0xD9,
    ];
    let sanitized = sanitize_media(jpeg, true).unwrap();
    assert_eq!(
        sanitized.bytes,
        vec![0xFF, 0xD8, 0xFF, 0xFF, 0xD0, 0xFF, 0xDA, 0x00, 0x02, 0x55, 0xFF, 0xD9]
    );
    assert_eq!(sanitized.status, SanitizeStatus::Cleaned("jpeg"));
}

#[test]
fn jpeg_bad_segment_length_fails() {
    let jpeg = vec![0xFF, 0xD8, 0xFF, 0xE0, 0x00, 0x01, 0x00];
    let err = sanitize_media(jpeg, true).unwrap_err();
    assert_eq!(err.message(), "failed to strip metadata from jpeg");
    let jpeg = vec![0xFF, 0xD8, 0x00, 0x00];
    assert!(sanitize_media(jpeg, true).is_err());
}

#[test]
fn webp_with_wrong_riff_size_fails() {
    let mut webp = webp_bytes(&[(b"VP8 ", b"data")]);
    webp.push(0);
    let err = sanitize_media(webp, true).unwrap_err();
    assert_eq!(err.message(), "failed to strip metadata from webp");
}

#[test]
fn webp_size_field_is_rewritten() {
    let webp = webp_bytes(&[(b"VP8 ", b"data"), (b"XMP ", b"abc")]);
    let sanitized = sanitize_media(webp, true).unwrap();
    assert_eq!(sanitized.bytes, webp_bytes(&[(b"VP8 ", b"data")]));
}

#[test]
fn unknown_input_passes_unchanged() {
    let data = b"plain text, not an image".to_vec();
    let sanitized = sanitize_media(data.clone(), true).unwrap();
    assert_eq!(sanitized.status, SanitizeStatus::Unknown);
    assert_eq!(sanitized.bytes, data);
    // Two bytes of a JPEG start are too short to be taken for JPEG.
    let short = vec![0xFF, 0xD8, 0xFF];
    assert_eq!(sanitize_media(short, true).unwrap().status, SanitizeStatus::Unknown);
}
