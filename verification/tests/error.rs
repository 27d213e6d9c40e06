use c2pa_vtt::Error;

fn all() -> Vec<Error> {
    vec![
        Error::NotVtt,
        Error::NotFound,
        Error::MultipleManifests,
        Error::AlreadyEmbedded,
        Error::BareCarriageReturn,
        Error::EmptyReference,
        Error::MalformedReference("x".into()),
        Error::ExclusionOutOfRange,
    ]
}

/// Guards against inventing a code.
#[test]
fn every_code_is_a_registered_identifier() {
    for e in all() {
        if let Some(code) = e.code() {
            assert_eq!(code, "assertion.dataHash.malformed", "{e:?} invented a code");
        }
    }
}

#[test]
fn no_vtt_specific_code_is_emitted() {
    for e in all() {
        if let Some(code) = e.code() {
            assert!(!code.starts_with("manifest."), "{e:?} emits {code}");
        }
    }
}

#[test]
fn locating_outcomes_carry_no_code() {
    for e in [Error::NotFound, Error::MultipleManifests] {
        assert_eq!(e.code(), None, "{e:?} must not report a status code");
        assert!(e.is_no_manifest_located(), "{e:?} must classify as unsigned");
    }
    assert!(!Error::NotVtt.is_no_manifest_located());
}

#[test]
fn only_the_range_error_has_a_code() {
    assert_eq!(Error::ExclusionOutOfRange.code(), Some("assertion.dataHash.malformed"));
    let with_code = all().iter().filter(|e| e.code().is_some()).count();
    assert_eq!(with_code, 1);
}

#[test]
fn error_messages() {
    assert_eq!(Error::NotVtt.message(), "file does not start with WEBVTT header");
    assert_eq!(Error::NotFound.message(), "no manifest NOTE block found");
    assert_eq!(Error::MultipleManifests.message(), "multiple manifest NOTE blocks found");
    assert_eq!(
        Error::AlreadyEmbedded.message(),
        "a manifest NOTE block is already present"
    );
    assert_eq!(
        Error::BareCarriageReturn.message(),
        "bare CR line endings are not supported; use LF or CRLF"
    );
    assert_eq!(Error::EmptyReference.message(), "empty manifest reference");
    assert_eq!(
        Error::MalformedReference("bad".into()).message(),
        "malformed manifest reference: bad"
    );
    assert_eq!(
        Error::ExclusionOutOfRange.message(),
        "hard-binding exclusion range extends beyond end of asset"
    );
}
