use quantam_fs::net::profiles::{decode_base64, encode_base64, is_client_id, normalize_name, MAX_NAME_CHARS};

#[test]
fn base64_is_standard_and_requires_padding() {
    assert_eq!(encode_base64(b"Aaryaman"), "QWFyeWFtYW4=");
    assert_eq!(decode_base64("QWFyeWFtYW4=").unwrap(), b"Aaryaman");
    assert_eq!(encode_base64(b"A"), "QQ==");
    assert_eq!(decode_base64("QQ==").unwrap(), b"A");
    assert_eq!(encode_base64(b"AB"), "QUI=");
    assert_eq!(decode_base64("QUI=").unwrap(), b"AB");
    assert!(decode_base64("QQ").is_none());
    assert!(decode_base64("QR==").is_none());
    assert!(decode_base64("QWFy=").is_none());
    assert!(decode_base64("****").is_none());
}

#[test]
fn names_are_bounded_and_free_of_control_characters() {
    assert_eq!(normalize_name("  Ada  ").as_deref(), Some("Ada"));
    assert_eq!(normalize_name("   "), None);
    assert_eq!(normalize_name("bad\nname"), None);
    assert!(normalize_name(&"a".repeat(MAX_NAME_CHARS)).is_some());
    assert_eq!(normalize_name(&"a".repeat(MAX_NAME_CHARS + 1)), None);
}

#[test]
fn base64_round_trips_every_tail_length_and_refuses_empty() {
    for len in 1..10u8 {
        let bytes: Vec<u8> = (0..len).map(|i| i.wrapping_mul(37).wrapping_add(200)).collect();
        let text = encode_base64(&bytes);
        assert_eq!(text.len() % 4, 0);
        assert_eq!(decode_base64(&text).unwrap(), bytes);
    }
    assert_eq!(encode_base64(&[0xfb, 0xff]), "+/8=");
    assert_eq!(encode_base64(b""), "");
    assert!(decode_base64("").is_none());
    assert!(decode_base64("====").is_none());
    assert!(decode_base64("QQ==QQ==").is_none());
    assert!(decode_base64("QQ=A").is_none());
}

#[test]
fn client_ids_are_32_lowercase_hex_digits() {
    assert!(is_client_id("0123456789abcdef0123456789abcdef"));
    assert!(!is_client_id("0123456789ABCDEF0123456789abcdef"));
    assert!(!is_client_id("0123456789abcdef0123456789abcde"));
    assert!(!is_client_id("0123456789abcdef0123456789abcdeg"));
    assert!(normalize_name("Zoë").is_some());
    assert_eq!(normalize_name("tab\there"), None);
}
