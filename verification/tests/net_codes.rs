use quantam_fs::net::{JoinCode, VaultId};

#[test]
fn join_code_uses_canonical_uppercase_unpadded_base32() {
    let code = JoinCode([0xff; 16]);
    assert_eq!(code.to_string(), "77777777777777777777777774");
    assert!(JoinCode::from_str(&code.to_string()).unwrap() == code);
    assert!(JoinCode::from_str("77777777777777777777777777").is_err());
    assert!(JoinCode::from_str("7777777777777777777777777=").is_err());
    assert!(JoinCode::from_str("aaaaaaaaaaaaaaaaaaaaaaaaaa").is_err());
    assert_eq!(code.debug_text(), "JoinCode(<redacted>)");
}

#[test]
fn vault_id_uses_canonical_uppercase_unpadded_base32() {
    let vault = VaultId([0xff; 32]);
    assert_eq!(
        vault.to_string(),
        "777777777777777777777777777777777777777777777777777Q"
    );
    assert!(VaultId::from_str(&vault.to_string()).unwrap() == vault);
    assert!(VaultId::from_str("7777777777777777777777777777777777777777777777777777").is_err());
    assert_eq!(vault.debug_text(), "VaultId(<redacted>)");
}

#[test]
fn base32_text_of_zero_bytes_and_of_a_known_pattern() {
    assert_eq!(JoinCode([0; 16]).to_string(), "AAAAAAAAAAAAAAAAAAAAAAAAAA");
    let mut bytes = [0u8; 16];
    bytes[0] = 0x08;
    assert_eq!(JoinCode(bytes).to_string(), "BAAAAAAAAAAAAAAAAAAAAAAAAA");
    assert!(JoinCode::from_str("BAAAAAAAAAAAAAAAAAAAAAAAAA").unwrap() == JoinCode(bytes));
    assert!(JoinCode::from_str("AAAA").is_err());
    assert!(VaultId::from_str("").is_err());
}

#[test]
fn generated_codes_read_back() {
    let code = JoinCode::generate().unwrap();
    assert!(JoinCode::from_str(&code.to_string()).unwrap() == code);
    let vault = VaultId::generate().unwrap();
    assert!(VaultId::from_str(&vault.to_string()).unwrap() == vault);
}
