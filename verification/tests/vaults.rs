use quantam_fs::error::Error;
use quantam_fs::ids::{Epoch, PeerId};
use quantam_fs::net::vaults::VaultSet;
use quantam_fs::net::VaultId;

fn peer(b: u8) -> PeerId {
    PeerId([b; 32])
}

fn vault(b: u8) -> VaultId {
    VaultId([b; 32])
}

#[test]
fn new_set_hosts_nothing_and_binds_nobody() {
    let set = VaultSet::new(peer(1));
    assert!(set.vaults().is_empty());
    assert_eq!(set.bound_vault(peer(2)), None);
    assert!(set.check_binding(peer(2), vault(9)).is_ok());
}

#[test]
fn from_vault_binds_members_with_sessions() {
    let set = VaultSet::from_vault(peer(1), vault(5), &[(peer(2), true), (peer(3), false)]);
    assert_eq!(set.vaults(), vec![vault(5)]);
    assert_eq!(set.bound_vault(peer(2)), Some(vault(5)));
    assert_eq!(set.bound_vault(peer(3)), None);
    assert!(!set.has_confirmed_pair(peer(2), Some(Epoch(1))));
}

#[test]
fn insert_keeps_vaults_sorted_and_binds_members() {
    let mut set = VaultSet::new(peer(1));
    set.insert(vault(7), peer(1), &[(peer(2), true), (peer(1), true)]).unwrap();
    set.insert(vault(3), peer(1), &[(peer(4), true)]).unwrap();
    assert_eq!(set.vaults(), vec![vault(3), vault(7)]);
    assert_eq!(set.get(vault(7)), Some(vault(7)));
    assert_eq!(set.get(vault(8)), None);
    assert_eq!(set.bound_vault(peer(2)), Some(vault(7)));
    assert_eq!(set.bound_vault(peer(4)), Some(vault(3)));
    assert_eq!(set.bound_vault(peer(1)), None);
}

#[test]
fn insert_refuses_a_foreign_host_and_a_duplicate() {
    let mut set = VaultSet::new(peer(1));
    assert!(matches!(set.insert(vault(7), peer(9), &[]), Err(Error::InvalidInput(_))));
    set.insert(vault(7), peer(1), &[]).unwrap();
    assert!(matches!(set.insert(vault(7), peer(1), &[]), Err(Error::InvalidInput(_))));
    assert_eq!(set.vaults(), vec![vault(7)]);
}

#[test]
fn insert_refuses_a_member_bound_elsewhere_and_changes_nothing() {
    let mut set = VaultSet::new(peer(1));
    set.insert(vault(7), peer(1), &[(peer(2), true)]).unwrap();
    let r = set.insert(vault(8), peer(1), &[(peer(3), true), (peer(2), true)]);
    match r {
        Err(Error::VaultSessionConflict { peer_id, bound, requested }) => {
            assert_eq!(peer_id, peer(2));
            assert_eq!(bound, vault(7));
            assert_eq!(requested, vault(8));
        }
        other => panic!("unexpected {:?}", other),
    }
    assert_eq!(set.vaults(), vec![vault(7)]);
    assert_eq!(set.bound_vault(peer(3)), None);
    // a member without a current session does not conflict
    set.insert(vault(8), peer(1), &[(peer(2), false)]).unwrap();
    assert_eq!(set.bound_vault(peer(2)), Some(vault(7)));
}

#[test]
fn bind_confirms_and_conflicts() {
    let mut set = VaultSet::new(peer(1));
    set.bind(peer(2), vault(7), Epoch(4)).unwrap();
    assert_eq!(set.bound_vault(peer(2)), Some(vault(7)));
    assert!(set.has_confirmed_pair(peer(2), Some(Epoch(4))));
    assert!(!set.has_confirmed_pair(peer(2), Some(Epoch(5))));
    assert!(!set.has_confirmed_pair(peer(2), None));
    assert!(matches!(
        set.bind(peer(2), vault(8), Epoch(4)),
        Err(Error::VaultSessionConflict { .. })
    ));
    assert!(matches!(
        set.check_binding(peer(2), vault(8)),
        Err(Error::VaultSessionConflict { .. })
    ));
    assert!(set.check_binding(peer(2), vault(7)).is_ok());
}

#[test]
fn unbind_releases_only_the_matching_vault() {
    let mut set = VaultSet::new(peer(1));
    set.bind(peer(2), vault(7), Epoch(1)).unwrap();
    set.bind(peer(3), vault(7), Epoch(1)).unwrap();
    set.unbind(peer(2), vault(8));
    assert_eq!(set.bound_vault(peer(2)), Some(vault(7)));
    set.unbind(peer(2), vault(7));
    assert_eq!(set.bound_vault(peer(2)), None);
    assert_eq!(set.bound_vault(peer(3)), Some(vault(7)));
    set.bind(peer(2), vault(8), Epoch(2)).unwrap();
    assert_eq!(set.bound_vault(peer(2)), Some(vault(8)));
}
