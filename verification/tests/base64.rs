use c2pa_vtt::base64::{decode, encode};

#[test]
fn known_vectors() {
    assert_eq!(encode(b""), "");
    assert_eq!(encode(b"f"), "Zg==");
    assert_eq!(encode(b"fo"), "Zm8=");
    assert_eq!(encode(b"foo"), "Zm9v");
    assert_eq!(encode(b"foob"), "Zm9vYg==");
    assert_eq!(encode(b"fooba"), "Zm9vYmE=");
    assert_eq!(encode(b"foobar"), "Zm9vYmFy");
}

#[test]
fn round_trip() {
    for v in [
        &b""[..],
        b"f",
        b"fo",
        b"foo",
        b"foobar",
        &[0u8, 1, 2, 3, 255, 254, 253],
    ] {
        assert_eq!(decode(&encode(v)).unwrap(), v);
    }
}

#[test]
fn rejects_malformed() {
    assert!(decode("Zg=").is_err());
    assert!(decode("Zg!=").is_err());
}

#[test]
fn decode_error_messages() {
    assert_eq!(decode("Zg="), Err("length is not a multiple of 4"));
    assert_eq!(decode("Zg!="), Err("invalid base64 character"));
    assert_eq!(decode("=AAA"), Err("invalid base64 character"));
}

#[test]
fn decode_trims_surrounding_white_space() {
    assert_eq!(decode("  Zm9v\n").unwrap(), b"foo".to_vec());
    assert_eq!(decode("\u{a0}Zg==\u{3000}").unwrap(), b"f".to_vec());
}

#[test]
fn decode_full_byte_range() {
    let data: Vec<u8> = (0u16..=255).map(|b| b as u8).collect();
    assert_eq!(decode(&encode(&data)).unwrap(), data);
}

#[test]
fn padding_only_ends_the_last_group() {
    assert_eq!(decode("Zg=A"), Err("invalid base64 character"));
    assert_eq!(decode("Zg==Zg=="), Err("invalid base64 character"));
    assert_eq!(decode("Zm8=Zm9v"), Err("invalid base64 character"));
    assert_eq!(decode("Zm9vZg==").unwrap(), b"foof".to_vec());
    assert_eq!(decode("").unwrap(), Vec::<u8>::new());
}
