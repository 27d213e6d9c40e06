use c2pa_vtt::{extract_manifest, Error};

const SAMPLE: &str = "WEBVTT\n\nNOTE -----BEGIN C2PA MANIFEST----- https://example.com/m.c2pa -----END C2PA MANIFEST-----\n\n00:00:00.000 --> 00:00:05.000\nHello world\n";

#[test]
fn extract_reference_and_range() {
    let r = extract_manifest(SAMPLE).unwrap();
    assert_eq!(r.reference, "https://example.com/m.c2pa");
    assert_eq!(r.offset, "WEBVTT\n\n".len());
    let expected_line =
        "NOTE -----BEGIN C2PA MANIFEST----- https://example.com/m.c2pa -----END C2PA MANIFEST-----\n";
    assert_eq!(r.length, expected_line.len());
    assert_eq!(&SAMPLE[r.offset..r.offset + r.length], expected_line);
}

#[test]
fn extract_not_vtt() {
    assert!(matches!(extract_manifest("not a vtt file"), Err(Error::NotVtt)));
}

#[test]
fn accepts_bom_and_header_text() {
    let vtt = "\u{feff}WEBVTT - Title\n\nNOTE -----BEGIN C2PA MANIFEST----- urn:x -----END C2PA MANIFEST-----\n";
    assert_eq!(extract_manifest(vtt).unwrap().reference, "urn:x");
}

#[test]
fn no_manifest() {
    let plain = "WEBVTT\n\n00:00:00.000 --> 00:00:05.000\nHello\n";
    assert!(matches!(extract_manifest(plain), Err(Error::NotFound)));
}

#[test]
fn empty_reference() {
    let vtt = "WEBVTT\n\nNOTE -----BEGIN C2PA MANIFEST-----  -----END C2PA MANIFEST-----\n";
    assert!(matches!(extract_manifest(vtt), Err(Error::EmptyReference)));
}

#[test]
fn multiple_manifests() {
    let vtt = "WEBVTT\n\nNOTE -----BEGIN C2PA MANIFEST----- https://a -----END C2PA MANIFEST-----\n\nNOTE -----BEGIN C2PA MANIFEST----- https://b -----END C2PA MANIFEST-----\n";
    assert!(matches!(extract_manifest(vtt), Err(Error::MultipleManifests)));
}

#[test]
fn ignores_delimiter_in_cue_text() {
    let vtt = "WEBVTT\n\n00:00:00.000 --> 00:00:05.000\n-----BEGIN C2PA MANIFEST----- nope -----END C2PA MANIFEST-----\n";
    assert!(matches!(extract_manifest(vtt), Err(Error::NotFound)));
}

#[test]
fn crlf_length_includes_terminator() {
    let vtt = "WEBVTT\r\n\r\nNOTE -----BEGIN C2PA MANIFEST----- urn:x -----END C2PA MANIFEST-----\r\n\r\n";
    let r = extract_manifest(vtt).unwrap();
    assert!(vtt[r.offset..r.offset + r.length].ends_with("\r\n"));
}

#[test]
fn signature_must_be_followed_by_a_separator() {
    assert!(matches!(extract_manifest("WEBVTTX\n"), Err(Error::NotVtt)));
    assert!(matches!(extract_manifest(""), Err(Error::NotVtt)));
    assert!(matches!(extract_manifest("WEBVTT"), Err(Error::NotFound)));
    assert!(matches!(extract_manifest("WEBVTT\tx\n"), Err(Error::NotFound)));
    assert!(matches!(extract_manifest(" WEBVTT\n"), Err(Error::NotVtt)));
}

#[test]
fn unterminated_delimiter_is_not_found() {
    let vtt = "WEBVTT\n\nNOTE -----BEGIN C2PA MANIFEST----- urn:x\n";
    assert!(matches!(extract_manifest(vtt), Err(Error::NotFound)));
}

#[test]
fn reference_is_trimmed_of_unicode_white_space() {
    let vtt = "WEBVTT\n\n  NOTE\u{a0} -----BEGIN C2PA MANIFEST-----\u{2003}urn:y\u{3000}-----END C2PA MANIFEST-----";
    let r = extract_manifest(vtt).unwrap();
    assert_eq!(r.reference, "urn:y");
    assert_eq!(r.offset, 8);
    assert_eq!(r.offset + r.length, vtt.len());
}

#[test]
fn block_without_note_keyword_is_ignored() {
    let vtt = "WEBVTT\n\nNOTES -----BEGIN C2PA MANIFEST----- urn:x -----END C2PA MANIFEST-----\n";
    assert!(matches!(extract_manifest(vtt), Err(Error::NotFound)));
}

#[test]
fn block_spread_over_two_lines_is_not_recognised() {
    let vtt = "WEBVTT\n\nNOTE -----BEGIN C2PA MANIFEST-----\nurn:x -----END C2PA MANIFEST-----\n";
    assert!(matches!(extract_manifest(vtt), Err(Error::NotFound)));
    let crlf = "WEBVTT\r\n\r\nNOTE -----BEGIN C2PA MANIFEST----- urn:x\r\n-----END C2PA MANIFEST-----\r\n";
    assert!(matches!(extract_manifest(crlf), Err(Error::NotFound)));
}

#[test]
fn unclosed_delimiter_in_cue_text_is_ignored() {
    let vtt = "WEBVTT\n\nNOTE -----BEGIN C2PA MANIFEST----- urn:x -----END C2PA MANIFEST-----\n\n00:00:00.000 --> 00:00:01.000\n-----BEGIN C2PA MANIFEST-----\n";
    let r = extract_manifest(vtt).unwrap();
    assert_eq!(r.reference, "urn:x");
    assert_eq!(r.offset, 8);
    assert_eq!(r.length, 69);
}

#[test]
fn opening_delimiter_in_cue_text_before_the_block_is_ignored() {
    let vtt = "WEBVTT\n\n00:00:00.000 --> 00:00:01.000\nsee -----BEGIN C2PA MANIFEST-----\n\nNOTE -----BEGIN C2PA MANIFEST----- urn:z -----END C2PA MANIFEST-----\n";
    let r = extract_manifest(vtt).unwrap();
    assert_eq!(r.reference, "urn:z");
    assert_eq!(r.offset, 73);
    assert_eq!(r.offset + r.length, vtt.len());
}
