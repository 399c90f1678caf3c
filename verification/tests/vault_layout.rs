use quantam_fs::error::Error;
use quantam_fs::net::VaultId;
use quantam_fs::store::vaults::{
    admit_vault, migration_entry, move_step, parse_hex_vault_id, sort_vaults, vault_directory_name, MoveStep,
};

#[test]
fn vault_directories_are_named_by_hex_id_and_parse_back() {
    let id = VaultId([0x4a; 32]);
    let name = vault_directory_name(&id);
    assert_eq!(name, "4a".repeat(32));
    assert_eq!(parse_hex_vault_id(&name).unwrap(), id);
    assert!(matches!(parse_hex_vault_id(&"4A".repeat(32)), Err(Error::InvalidInput(_))));
    assert!(matches!(parse_hex_vault_id("4a4a"), Err(Error::InvalidInput(_))));
}

#[test]
fn discovery_refuses_mismatched_and_duplicate_vaults() {
    let a = VaultId([1; 32]);
    let b = VaultId([2; 32]);
    assert_eq!(admit_vault(&[], &vault_directory_name(&a), a).unwrap(), a);
    assert!(matches!(admit_vault(&[], &vault_directory_name(&a), b), Err(Error::State(_))));
    assert!(matches!(admit_vault(&[b, a], &vault_directory_name(&a), a), Err(Error::State(_))));
    assert!(matches!(admit_vault(&[], "not-a-vault", a), Err(Error::InvalidInput(_))));
}

#[test]
fn discovered_vaults_come_out_in_id_order() {
    let found = vec![
        (VaultId([9; 32]), "nine"),
        (VaultId([1; 32]), "one"),
        (VaultId([5; 32]), "five"),
    ];
    let sorted = sort_vaults(found);
    assert_eq!(
        sorted,
        vec![(VaultId([1; 32]), "one"), (VaultId([5; 32]), "five"), (VaultId([9; 32]), "nine")]
    );
    assert!(sort_vaults::<u8>(Vec::new()).is_empty());
}

#[test]
fn migration_moves_each_entry_once() {
    assert_eq!(move_step(true, false).unwrap(), MoveStep::Rename);
    assert_eq!(move_step(false, true).unwrap(), MoveStep::AlreadyMoved);
    assert!(matches!(move_step(true, true), Err(Error::State(_))));
    assert!(matches!(move_step(false, false), Err(Error::State(_))));
    assert_eq!(migration_entry(0), Some("replica.bin"));
    assert_eq!(migration_entry(1), Some("chunks"));
    assert_eq!(migration_entry(2), Some("vault"));
    assert_eq!(migration_entry(3), None);
}
