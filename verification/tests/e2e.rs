//! End-to-end generate/verify over WebVTT files with multiple cues, author
//! comments (single- and multi-line), STYLE and REGION blocks.

use c2pa_vtt::{
    compute_data_hash, data_hash_exclusion, embed_manifest, extract_manifest,
    extract_manifest_source, remove_manifest, verify_data_hash, Error, HashAlg, ManifestRef,
    ManifestSource,
};

const CAPTIONS: &str = "WEBVTT - Example captions\n\nNOTE\nThis is an ordinary multi-line author comment.\nIt spans two lines.\n\nNOTE A short single-line author comment.\n\nSTYLE\n::cue {\n  color: white;\n}\n\nREGION\nid:speaker\nwidth:40%\nlines:3\n\n1\n00:00:01.000 --> 00:00:04.000 region:speaker\n<b>Welcome</b> to the show.\n\n2\n00:00:04.500 --> 00:00:08.000\nA second caption.\n\n3\n00:00:08.000 --> 00:00:12.000\nThe final caption.\n";
const MINIMAL: &str = "WEBVTT\n\n00:00:00.000 --> 00:00:01.000\nHi\n";

#[test]
fn generate_then_verify_reference_symmetric() {
    for original in [CAPTIONS, MINIMAL] {
        assert!(matches!(extract_manifest(original), Err(Error::NotFound)));

        let reference = "https://cdn.example.com/manifests/abc123.c2pa";
        let signed = embed_manifest(original, ManifestRef::Url(reference)).unwrap();

        assert!(signed.starts_with("WEBVTT"));
        assert!(signed.find("WEBVTT").unwrap() < signed.find("NOTE -----BEGIN").unwrap());

        let extracted = extract_manifest(&signed).unwrap();
        assert_eq!(extracted.reference, reference);
        assert_eq!(
            extract_manifest_source(&signed).unwrap(),
            ManifestSource::Url(reference.to_string())
        );

        let ex = data_hash_exclusion(&signed).unwrap();
        let excluded = &signed[ex.start..ex.start + ex.length];
        assert!(excluded.ends_with('\n'));
        assert_eq!(
            excluded.trim(),
            "NOTE -----BEGIN C2PA MANIFEST----- https://cdn.example.com/manifests/abc123.c2pa -----END C2PA MANIFEST-----"
        );

        let cleaned = remove_manifest(&signed).unwrap();
        assert!(matches!(extract_manifest(&cleaned), Err(Error::NotFound)));
        assert!(!cleaned.contains("BEGIN C2PA MANIFEST"));
    }
}

#[test]
fn styling_and_comments_survive_round_trip() {
    let signed = embed_manifest(CAPTIONS, ManifestRef::Url("urn:uuid:1")).unwrap();
    assert!(signed.contains("This is an ordinary multi-line author comment."));
    assert!(signed.contains("NOTE A short single-line author comment."));
    assert!(signed.contains("STYLE"));
    assert!(signed.contains("REGION"));
    assert!(signed.contains("id:speaker"));
    assert!(signed.contains("<b>Welcome</b> to the show."));
    assert!(signed.contains("00:00:08.000 --> 00:00:12.000"));
}

#[test]
fn embedded_data_uri_round_trip() {
    let store = b"\x00JUMBF-manifest-store-bytes\xff\xfe";
    let signed = embed_manifest(MINIMAL, ManifestRef::Embedded(store)).unwrap();
    match extract_manifest_source(&signed).unwrap() {
        ManifestSource::Embedded(bytes) => assert_eq!(bytes, store),
        other => panic!("expected embedded store, got {other:?}"),
    }
}

#[test]
fn hard_binding_detects_tampering() {
    let signed = embed_manifest(CAPTIONS, ManifestRef::Url("urn:uuid:2")).unwrap();

    for alg in [HashAlg::Sha256, HashAlg::Sha384, HashAlg::Sha512] {
        let hash = compute_data_hash(&signed, alg).unwrap();
        assert!(verify_data_hash(&signed, alg, &hash).unwrap());

        let tampered = signed.replace("The final caption.", "The altered caption.");
        assert!(!verify_data_hash(&tampered, alg, &hash).unwrap());

        let re_referenced = remove_manifest(&signed).unwrap();
        let re_signed =
            embed_manifest(&re_referenced, ManifestRef::Url("urn:uuid:different")).unwrap();
        assert!(verify_data_hash(&re_signed, alg, &hash).unwrap());
    }
}

#[test]
fn non_vtt_input_is_rejected() {
    assert!(matches!(
        embed_manifest("<html></html>", ManifestRef::Url("urn:x")),
        Err(Error::NotVtt)
    ));
    assert!(matches!(extract_manifest("plain text"), Err(Error::NotVtt)));
}

#[test]
fn captions_round_trip_exactly() {
    for manifest in [ManifestRef::Url("urn:uuid:3"), ManifestRef::Embedded(b"store")] {
        let signed = embed_manifest(CAPTIONS, manifest).unwrap();
        assert_eq!(remove_manifest(&signed).unwrap(), CAPTIONS);
    }
}
