use quantam_fs::error::Result;
use quantam_fs::net::short_code::{generate, normalize, SHORT_LEN};
use sha2::Digest;

const ALPHABET: &[u8; 32] = b"ABCDEFGHIJKLMNOPQRSTUVWXYZ234567";

#[test]
fn derivation_is_deterministic_and_normalizing() -> Result<()> {
    assert!(quantam_fs::net::short_code::derive("ABC234")? == quantam_fs::net::short_code::derive("ABC234")?);
    assert!(quantam_fs::net::short_code::derive("ABC234")? == quantam_fs::net::short_code::derive("  abc234 ")?);
    assert!(quantam_fs::net::short_code::derive("ABC234")? != quantam_fs::net::short_code::derive("ABC235")?);
    Ok(())
}

#[test]
fn normalize_accepts_only_six_alphabet_characters() {
    assert_eq!(normalize("abc234").as_deref(), Some("ABC234"));
    assert_eq!(normalize("\tZZ7777\n").as_deref(), Some("ZZ7777"));
    assert!(normalize("ABC23").is_none());
    assert!(normalize("ABC2345").is_none());
    assert!(normalize("ABC201").is_none());
    assert!(normalize("ABC-23").is_none());
    assert!(normalize("ÄBC234").is_none());
    assert!(quantam_fs::net::short_code::derive("ABC201").is_err());
}

#[test]
fn generated_codes_are_canonical() -> Result<()> {
    for _ in 0..32 {
        let short = generate()?;
        assert_eq!(short.len(), SHORT_LEN);
        assert!(short.bytes().all(|byte| ALPHABET.contains(&byte)));
        assert_eq!(normalize(&short).as_deref(), Some(short.as_str()));
        quantam_fs::net::short_code::derive(&short)?;
    }
    Ok(())
}

#[test]
fn derived_code_is_the_prefix_of_a_domain_separated_digest() -> Result<()> {
    let mut input = b"qfs/v1/short-code/".to_vec();
    input.extend_from_slice(b"ABC234");
    let digest = sha2::Sha256::digest(&input);
    let code = quantam_fs::net::short_code::derive("abc234")?;
    assert_eq!(&code.0[..], &digest[..16]);
    Ok(())
}
