use quantam_fs::net::profiles::ProfileStore;

#[test]
fn staged_put_sets_and_replaces_names() {
    let store = ProfileStore::new();
    assert_eq!(store.get("0123456789abcdef0123456789abcdef"), None);
    let store = store.staged_put("0123456789abcdef0123456789abcdef", "Ada", 5);
    let store = store.staged_put("fedcba9876543210fedcba9876543210", "Grace", 6);
    assert_eq!(store.get("0123456789abcdef0123456789abcdef"), Some("Ada"));
    let renamed = store.staged_put("0123456789abcdef0123456789abcdef", "Ada L.", 7);
    assert_eq!(renamed.get("0123456789abcdef0123456789abcdef"), Some("Ada L."));
    assert_eq!(renamed.get("fedcba9876543210fedcba9876543210"), Some("Grace"));
    // the staged store leaves the one it came from unchanged
    assert_eq!(store.get("0123456789abcdef0123456789abcdef"), Some("Ada"));
}
