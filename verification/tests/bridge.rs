use c2pa_vtt::{embed_manifest, extract_manifest_source, Error, ManifestRef, ManifestSource};

#[test]
fn resolves_url() {
    let vtt = embed_manifest("WEBVTT\n", ManifestRef::Url("https://example.com/m.c2pa")).unwrap();
    assert_eq!(
        extract_manifest_source(&vtt).unwrap(),
        ManifestSource::Url("https://example.com/m.c2pa".to_string())
    );
}

#[test]
fn resolves_embedded_data_uri() {
    let store = b"\x00\x01store-bytes\xff";
    let vtt = embed_manifest("WEBVTT\n", ManifestRef::Embedded(store)).unwrap();
    assert_eq!(
        extract_manifest_source(&vtt).unwrap(),
        ManifestSource::Embedded(store.to_vec())
    );
}

#[test]
fn malformed_data_uri_is_rejected() {
    let vtt = "WEBVTT\n\nNOTE -----BEGIN C2PA MANIFEST----- data:application/c2pa;base64,@@@ -----END C2PA MANIFEST-----\n";
    assert!(matches!(
        extract_manifest_source(vtt),
        Err(Error::MalformedReference(_))
    ));
}

#[test]
fn malformed_data_uri_carries_the_decoder_message() {
    let vtt = "WEBVTT\n\nNOTE -----BEGIN C2PA MANIFEST----- data:application/c2pa;base64,Zg= -----END C2PA MANIFEST-----\n";
    match extract_manifest_source(vtt) {
        Err(Error::MalformedReference(m)) => {
            assert_eq!(m, "base64 input length is not a multiple of 4")
        }
        other => panic!("expected a malformed reference, got {other:?}"),
    }
}

#[test]
fn source_errors_follow_extraction() {
    assert!(matches!(extract_manifest_source("WEBVTT\n"), Err(Error::NotFound)));
    assert!(matches!(extract_manifest_source("x"), Err(Error::NotVtt)));
}

#[test]
fn empty_data_uri_payload_is_an_empty_store() {
    let vtt = "WEBVTT\n\nNOTE -----BEGIN C2PA MANIFEST----- data:application/c2pa;base64, -----END C2PA MANIFEST-----\n";
    assert_eq!(extract_manifest_source(vtt).unwrap(), ManifestSource::Embedded(vec![]));
}

#[test]
fn decoded_payload_becomes_the_source() {
    assert_eq!(
        c2pa_vtt::bridge::source_of_decoded(Ok(vec![0u8, 1, 255])).unwrap(),
        ManifestSource::Embedded(vec![0u8, 1, 255])
    );
    assert!(matches!(
        c2pa_vtt::bridge::source_of_decoded(Err("bad symbol".to_string())),
        Err(Error::MalformedReference(m)) if m == "bad symbol"
    ));
}

#[test]
fn validate_rejects_a_store_that_is_not_jumbf() {
    let vtt = embed_manifest("WEBVTT\n", ManifestRef::Url("urn:x")).unwrap();
    assert!(c2pa_vtt::bridge::validate(&vtt, b"not a manifest store").is_err());
}

#[test]
fn misplaced_padding_in_an_inline_store_is_malformed() {
    let vtt = "WEBVTT\n\nNOTE -----BEGIN C2PA MANIFEST----- data:application/c2pa;base64,Zg=A -----END C2PA MANIFEST-----\n";
    assert!(matches!(
        extract_manifest_source(vtt),
        Err(Error::MalformedReference(m)) if m == "base64 input has malformed padding"
    ));
    let ok = "WEBVTT\n\nNOTE -----BEGIN C2PA MANIFEST----- data:application/c2pa;base64,Zm8= -----END C2PA MANIFEST-----\n";
    assert_eq!(extract_manifest_source(ok).unwrap(), ManifestSource::Embedded(b"fo".to_vec()));
}

#[test]
fn decoder_messages_have_their_stated_forms() {
    let source = |payload: &str| {
        let vtt = format!(
            "WEBVTT\n\nNOTE -----BEGIN C2PA MANIFEST----- data:application/c2pa;base64,{payload} -----END C2PA MANIFEST-----\n"
        );
        match extract_manifest_source(&vtt) {
            Err(Error::MalformedReference(m)) => m,
            other => panic!("expected a malformed reference, got {other:?}"),
        }
    };
    assert_eq!(source("Zg="), "base64 input length is not a multiple of 4");
    assert_eq!(source("Z-9v"), "base64 input has invalid character 0x2d");
    assert_eq!(source("Zg==Zg=="), "base64 input has malformed padding");
}
