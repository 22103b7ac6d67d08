use algorithms::encode::base64::Base64Encoder;

#[test]
fn base64_init() {
    let source = "Hello Base64!".to_string();
    let target = "SGVsbG8gQmFzZTY0IQ==".to_string();

    assert_eq!(Base64Encoder::encode(source.as_bytes()), target);
    assert_eq!(Base64Encoder::decode(&target), source.as_bytes());
}

#[test]
fn base64_known_texts() {
    let cases: [(&str, &str); 7] = [
        ("", ""),
        ("f", "Zg=="),
        ("fo", "Zm8="),
        ("foo", "Zm9v"),
        ("foob", "Zm9vYg=="),
        ("fooba", "Zm9vYmE="),
        ("foobar", "Zm9vYmFy"),
    ];
    for (plain, text) in cases {
        assert_eq!(Base64Encoder::encode(plain.as_bytes()), text);
        assert_eq!(Base64Encoder::encode_bytes(plain.as_bytes()), text.as_bytes());
        assert!(Base64Encoder::can_decode(text));
        assert_eq!(Base64Encoder::decode(text), plain.as_bytes());
        assert_eq!(Base64Encoder::decode_bytes(text.as_bytes()), plain.as_bytes());
    }
}

#[test]
fn base64_uses_every_symbol() {
    let bytes = [0x00, 0x10, 0x83, 0x10, 0x51, 0x87, 0xfb, 0xff, 0xbf, 0xff, 0xfe];
    let text = Base64Encoder::encode(&bytes);
    assert_eq!(text, "ABCDEFGH+/+///4=");
    assert_eq!(Base64Encoder::decode(&text), bytes);
}

#[test]
fn base64_round_trip_of_all_bytes() {
    let bytes: Vec<u8> = (0..=255u8).collect();
    for len in [0, 1, 2, 3, 4, 5, 254, 255, 256] {
        let part = &bytes[..len];
        let text = Base64Encoder::encode(part);
        assert_eq!(text.len(), (len + 2) / 3 * 4);
        assert!(text.is_ascii());
        assert!(Base64Encoder::can_decode(&text));
        assert_eq!(Base64Encoder::decode(&text), part);
    }
}

#[test]
fn base64_decode_passes_over_what_is_no_symbol() {
    assert_eq!(Base64Encoder::decode("Zm9v\nYmFy"), b"foobar");
    assert_eq!(Base64Encoder::decode(" Z g = = "), b"f");
    // fewer than four values and no filling: nothing comes out
    assert_eq!(Base64Encoder::decode("Zg"), Vec::<u8>::new());
    // three `=`: only the full groups count
    assert_eq!(Base64Encoder::decode("Zm9v==="), b"foo");
}

#[test]
fn base64_filling_without_values_cannot_be_decoded() {
    assert!(!Base64Encoder::can_decode("="));
    assert!(!Base64Encoder::can_decode("Zg="));
    assert!(!Base64Encoder::can_decode("Z=="));
    assert!(Base64Encoder::can_decode("Zg=="));
    assert!(Base64Encoder::can_decode("==="));
    assert!(Base64Encoder::can_decode(""));
}
