use c2pa_vtt::{
    compute_data_hash, data_hash_exclusion, embed_manifest, verify_data_hash, Error, Exclusion,
    HashAlg, ManifestRef,
};
use sha2::{Digest, Sha256, Sha384, Sha512};

const PLAIN: &str = "WEBVTT\n\n00:00:00.000 --> 00:00:05.000\nHello world\n";

#[test]
fn exclusion_covers_note_line() {
    let signed = embed_manifest(PLAIN, ManifestRef::Url("urn:x")).unwrap();
    let ex = data_hash_exclusion(&signed).unwrap();
    let excluded = &signed[ex.start..ex.start + ex.length];
    assert!(excluded.starts_with("NOTE -----BEGIN C2PA MANIFEST-----"));
    assert!(excluded.trim_end().ends_with("-----END C2PA MANIFEST-----"));
}

#[test]
fn alg_identifiers() {
    assert_eq!(HashAlg::Sha256.c2pa_id(), "sha256");
    assert_eq!(HashAlg::Sha384.c2pa_id(), "sha384");
    assert_eq!(HashAlg::Sha512.c2pa_id(), "sha512");
}

#[test]
fn hash_is_independent_of_reference() {
    let a = embed_manifest(PLAIN, ManifestRef::Url("urn:a")).unwrap();
    let b = embed_manifest(PLAIN, ManifestRef::Url("urn:completely-different-and-longer")).unwrap();
    let ha = compute_data_hash(&a, HashAlg::Sha256).unwrap();
    let hb = compute_data_hash(&b, HashAlg::Sha256).unwrap();
    assert_eq!(ha, hb);
}

#[test]
fn verify_round_trip_and_tamper() {
    let signed = embed_manifest(PLAIN, ManifestRef::Url("urn:x")).unwrap();
    let hash = compute_data_hash(&signed, HashAlg::Sha256).unwrap();
    assert!(verify_data_hash(&signed, HashAlg::Sha256, &hash).unwrap());
    let tampered = signed.replace("Hello world", "Goodbye world");
    assert!(!verify_data_hash(&tampered, HashAlg::Sha256, &hash).unwrap());
}

#[test]
fn hash_covers_exactly_the_non_excluded_bytes() {
    let signed =
        "WEBVTT\n\nNOTE -----BEGIN C2PA MANIFEST----- urn:x -----END C2PA MANIFEST-----\n";
    let h = compute_data_hash(signed, HashAlg::Sha256).unwrap();
    let mut d = Sha256::new();
    d.update(b"WEBVTT\n\n");
    assert_eq!(h, d.finalize().to_vec());
}

#[test]
fn each_algorithm_hashes_the_covered_bytes() {
    let signed = "WEBVTT\n\nNOTE -----BEGIN C2PA MANIFEST----- urn:x -----END C2PA MANIFEST-----\ncue\n";
    let covered = b"WEBVTT\n\ncue\n";
    assert_eq!(
        compute_data_hash(signed, HashAlg::Sha256).unwrap(),
        Sha256::digest(covered).to_vec()
    );
    assert_eq!(
        compute_data_hash(signed, HashAlg::Sha384).unwrap(),
        Sha384::digest(covered).to_vec()
    );
    assert_eq!(
        compute_data_hash(signed, HashAlg::Sha512).unwrap(),
        Sha512::digest(covered).to_vec()
    );
}

#[test]
fn exclusion_exact_values() {
    let signed = "WEBVTT\n\nNOTE -----BEGIN C2PA MANIFEST----- urn:x -----END C2PA MANIFEST-----\r\ncue\r\n";
    let ex = data_hash_exclusion(signed).unwrap();
    assert_eq!(ex, Exclusion { start: 8, length: 70 });
}

#[test]
fn binding_errors_follow_extraction() {
    assert!(matches!(data_hash_exclusion("WEBVTT\n"), Err(Error::NotFound)));
    assert!(matches!(compute_data_hash("nope", HashAlg::Sha256), Err(Error::NotVtt)));
    assert!(matches!(
        verify_data_hash("WEBVTT\n", HashAlg::Sha512, &[]),
        Err(Error::NotFound)
    ));
}

#[test]
fn verify_rejects_wrong_length_and_other_algorithm() {
    let signed = embed_manifest(PLAIN, ManifestRef::Url("urn:x")).unwrap();
    let h256 = compute_data_hash(&signed, HashAlg::Sha256).unwrap();
    assert_eq!(h256.len(), 32);
    assert!(!verify_data_hash(&signed, HashAlg::Sha384, &h256).unwrap());
    assert!(!verify_data_hash(&signed, HashAlg::Sha256, &h256[..31]).unwrap());
}

#[test]
fn algorithm_names_parse_back() {
    assert_eq!(HashAlg::from_c2pa_id("sha256"), Some(HashAlg::Sha256));
    assert_eq!(HashAlg::from_c2pa_id("sha384"), Some(HashAlg::Sha384));
    assert_eq!(HashAlg::from_c2pa_id("sha512"), Some(HashAlg::Sha512));
    for alg in [HashAlg::Sha256, HashAlg::Sha384, HashAlg::Sha512] {
        assert_eq!(HashAlg::from_c2pa_id(alg.c2pa_id()), Some(alg));
    }
    assert_eq!(HashAlg::from_c2pa_id("md5"), None);
    assert_eq!(HashAlg::from_c2pa_id("SHA256"), None);
    assert_eq!(HashAlg::from_c2pa_id("sha2566"), None);
    assert_eq!(HashAlg::from_c2pa_id(""), None);
}

#[test]
fn re_referencing_after_removal_keeps_the_hash() {
    let first = embed_manifest(PLAIN, ManifestRef::Url("urn:first")).unwrap();
    let hash = compute_data_hash(&first, HashAlg::Sha384).unwrap();
    let unsigned = c2pa_vtt::remove_manifest(&first).unwrap();
    assert_eq!(unsigned, PLAIN);
    let second = embed_manifest(&unsigned, ManifestRef::Embedded(b"store")).unwrap();
    assert_ne!(first, second);
    assert_eq!(compute_data_hash(&second, HashAlg::Sha384).unwrap(), hash);
    assert!(verify_data_hash(&second, HashAlg::Sha384, &hash).unwrap());
}
