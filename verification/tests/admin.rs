use quantam_fs::net::admin::{
    constant_time_eq, hex, is_read_only, one_line, parse_hex32, parse_peer, parse_vault, short,
};

#[test]
fn hex_round_trips_and_rejects_uppercase() {
    let bytes = [0xab; 32];
    assert_eq!(hex(&bytes).len(), 64);
    assert_eq!(parse_hex32(&hex(&bytes)).unwrap(), bytes);
    assert!(parse_hex32(&hex(&bytes).to_uppercase()).is_err());
    assert!(parse_hex32("abcd").is_err());
}

#[test]
fn error_text_stays_on_one_line() {
    assert_eq!(one_line("bad\ninput\r"), "bad input ");
}

#[test]
fn hex_is_lowercase_and_short_keeps_twelve_digits() {
    let mut bytes = [0u8; 32];
    bytes[1] = 0x0f;
    bytes[2] = 0xa5;
    bytes[31] = 0xff;
    let text = hex(&bytes);
    assert_eq!(&text[..6], "000fa5");
    assert_eq!(&text[62..], "ff");
    assert_eq!(short(&[0x12; 32]), "121212121212");
    assert!(parse_hex32(&"g".repeat(64)).is_err());
    assert_eq!(parse_peer(&"01".repeat(32)).unwrap().0, [1; 32]);
    assert_eq!(parse_vault(&"02".repeat(32)).unwrap().0, [2; 32]);
}

#[test]
fn tokens_compare_by_content_and_commands_by_name() {
    assert!(constant_time_eq(b"secret", b"secret"));
    assert!(!constant_time_eq(b"secret", b"secreT"));
    assert!(!constant_time_eq(b"secret", b"secre"));
    assert!(is_read_only("STATUS"));
    assert!(is_read_only("PING"));
    assert!(!is_read_only("status"));
    assert!(!is_read_only("KICK"));
}
