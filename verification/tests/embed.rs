use c2pa_vtt::{embed_manifest, extract_manifest, remove_manifest, Error, ManifestRef};

#[test]
fn embed_after_header_not_before() {
    let plain = "WEBVTT\n\n00:00:00.000 --> 00:00:05.000\nHello\n";
    let signed = embed_manifest(plain, ManifestRef::Url("https://example.com/m.c2pa")).unwrap();
    assert!(signed.starts_with("WEBVTT\n"));
    assert!(signed.contains("NOTE -----BEGIN C2PA MANIFEST-----"));
    let sig = signed.find("WEBVTT").unwrap();
    let note = signed.find("NOTE").unwrap();
    assert!(sig < note);
}

#[test]
fn embed_extract_symmetric() {
    let plain = "WEBVTT\n\n00:00:00.000 --> 00:00:05.000\nHello\n";
    let signed = embed_manifest(plain, ManifestRef::Url("urn:uuid:abc")).unwrap();
    assert_eq!(extract_manifest(&signed).unwrap().reference, "urn:uuid:abc");
}

#[test]
fn embed_preserves_crlf() {
    let plain = "WEBVTT\r\n\r\n00:00:00.000 --> 00:00:05.000\r\nHi\r\n";
    let signed = embed_manifest(plain, ManifestRef::Url("urn:x")).unwrap();
    assert!(signed.starts_with("WEBVTT\r\n\r\nNOTE "));
    assert!(!signed.contains('\n') || signed.contains("\r\n"));
    assert_eq!(extract_manifest(&signed).unwrap().reference, "urn:x");
}

#[test]
fn embed_data_uri() {
    let plain = "WEBVTT\n";
    let signed = embed_manifest(plain, ManifestRef::Embedded(b"store-bytes")).unwrap();
    assert!(signed.contains("data:application/c2pa;base64,"));
    assert!(extract_manifest(&signed)
        .unwrap()
        .reference
        .starts_with("data:application/c2pa;base64,"));
}

#[test]
fn remove_restores_no_manifest() {
    let plain = "WEBVTT\n\n00:00:00.000 --> 00:00:05.000\nHello\n";
    let signed = embed_manifest(plain, ManifestRef::Url("urn:x")).unwrap();
    let cleaned = remove_manifest(&signed).unwrap();
    assert!(matches!(extract_manifest(&cleaned), Err(Error::NotFound)));
    assert!(cleaned.contains("00:00:00.000"));
    assert!(cleaned.starts_with("WEBVTT"));
}

#[test]
fn embed_twice_is_rejected() {
    let plain = "WEBVTT\n\n00:00:00.000 --> 00:00:05.000\nHello\n";
    let once = embed_manifest(plain, ManifestRef::Url("urn:a")).unwrap();
    assert!(matches!(
        embed_manifest(&once, ManifestRef::Url("urn:b")),
        Err(Error::AlreadyEmbedded)
    ));
}

#[test]
fn embed_rejects_bare_cr() {
    assert!(matches!(
        embed_manifest("WEBVTT\rbody", ManifestRef::Url("urn:x")),
        Err(Error::BareCarriageReturn)
    ));
}

#[test]
fn embed_not_vtt() {
    assert!(matches!(
        embed_manifest("hello", ManifestRef::Url("urn:x")),
        Err(Error::NotVtt)
    ));
}

/// Removing a manifest restores the file byte for byte.
#[test]
fn remove_is_the_exact_inverse_of_embed() {
    for original in [
        "WEBVTT\n\n00:00:00.000 --> 00:00:05.000\nHello\n",
        "WEBVTT\r\n\r\n00:00:00.000 --> 00:00:05.000\r\nHello\r\n",
        "WEBVTT - With A Title\n\n00:00:00.000 --> 00:00:01.000\nHi\n",
        "\u{feff}WEBVTT\n\n00:00:00.000 --> 00:00:01.000\nHi\n",
    ] {
        for manifest in [
            ManifestRef::Url("https://example.com/m.c2pa"),
            ManifestRef::Embedded(b"manifest-store-bytes"),
        ] {
            let signed = embed_manifest(original, manifest).unwrap();
            assert_ne!(signed, original, "embedding changed nothing");
            assert_eq!(
                remove_manifest(&signed).unwrap(),
                original,
                "round trip lost or gained bytes for {original:?}"
            );
        }
    }
}

/// A hand-written file with no blank line after the block must not lose the
/// first line of the body.
#[test]
fn removal_does_not_eat_the_body_when_there_is_no_separator() {
    let vtt = "WEBVTT\n\nNOTE -----BEGIN C2PA MANIFEST----- urn:x -----END C2PA MANIFEST-----\n00:00:00.000 --> 00:00:01.000\nHi\n";
    assert_eq!(
        remove_manifest(vtt).unwrap(),
        "WEBVTT\n\n00:00:00.000 --> 00:00:01.000\nHi\n"
    );
}

#[test]
fn embed_exact_output() {
    let signed = embed_manifest("WEBVTT\n", ManifestRef::Url("urn:x")).unwrap();
    assert_eq!(
        signed,
        "WEBVTT\n\nNOTE -----BEGIN C2PA MANIFEST----- urn:x -----END C2PA MANIFEST-----\n"
    );
    let signed = embed_manifest("WEBVTT", ManifestRef::Embedded(b"foo")).unwrap();
    assert_eq!(
        signed,
        "WEBVTT\n\nNOTE -----BEGIN C2PA MANIFEST----- data:application/c2pa;base64,Zm9v -----END C2PA MANIFEST-----\n"
    );
}

#[test]
fn embed_normalises_blank_lines_after_the_signature() {
    let signed = embed_manifest("WEBVTT\r\n\r\n\r\ncue\r\n", ManifestRef::Url("u:v")).unwrap();
    assert_eq!(
        signed,
        "WEBVTT\r\n\r\nNOTE -----BEGIN C2PA MANIFEST----- u:v -----END C2PA MANIFEST-----\r\n\r\ncue\r\n"
    );
    assert_eq!(remove_manifest(&signed).unwrap(), "WEBVTT\r\n\r\ncue\r\n");
}

#[test]
fn embed_reports_empty_reference_of_existing_block() {
    let vtt = "WEBVTT\n\nNOTE -----BEGIN C2PA MANIFEST-----  -----END C2PA MANIFEST-----\n";
    assert!(matches!(
        embed_manifest(vtt, ManifestRef::Url("urn:x")),
        Err(Error::EmptyReference)
    ));
}

#[test]
fn embed_over_multiple_blocks_is_already_embedded() {
    let vtt = "WEBVTT\n\nNOTE -----BEGIN C2PA MANIFEST----- a:b -----END C2PA MANIFEST-----\nNOTE -----BEGIN C2PA MANIFEST----- c:d -----END C2PA MANIFEST-----\n";
    assert!(matches!(
        embed_manifest(vtt, ManifestRef::Url("urn:x")),
        Err(Error::AlreadyEmbedded)
    ));
}

#[test]
fn remove_without_block_is_an_error() {
    assert!(matches!(remove_manifest("WEBVTT\n\ncue\n"), Err(Error::NotFound)));
    assert!(matches!(remove_manifest("text"), Err(Error::NotVtt)));
}

#[test]
fn remove_block_at_end_of_file_without_terminator() {
    let vtt = "WEBVTT\n\nNOTE -----BEGIN C2PA MANIFEST----- urn:x -----END C2PA MANIFEST-----";
    assert_eq!(remove_manifest(vtt).unwrap(), "WEBVTT\n\n");
}

#[test]
fn removal_drops_the_block_line_and_one_line_break() {
    let vtt = "WEBVTT\r\n\r\nNOTE -----BEGIN C2PA MANIFEST----- urn:x -----END C2PA MANIFEST-----\r\n\r\n\r\n00:00:00.000 --> 00:00:01.000\r\nHi\r\n";
    assert_eq!(
        c2pa_vtt::remove_manifest(vtt).unwrap(),
        "WEBVTT\r\n\r\n\r\n00:00:00.000 --> 00:00:01.000\r\nHi\r\n"
    );
}

#[test]
fn text_that_is_not_webvtt_is_refused_before_line_endings_are_checked() {
    for text in ["hi\rthere", "", "not a caption file", "\rWEBVTT\n", "x\nWEBVTT\n"] {
        assert!(matches!(embed_manifest(text, ManifestRef::Url("urn:x")), Err(Error::NotVtt)));
    }
    assert!(matches!(
        embed_manifest("WEBVTT\r\nx\ry\r\n", ManifestRef::Url("urn:x")),
        Err(Error::BareCarriageReturn)
    ));
}
