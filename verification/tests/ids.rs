use quantam_fs::ids::{ChunkId, FileId, PeerId};

#[test]
fn peer_ids_use_unsigned_byte_ordering() {
    let low = PeerId([0x7f; 32]);
    let high = PeerId([0x80; 32]);
    assert!(low < high);

    let mut prefix = [0u8; 32];
    prefix[31] = 1;
    assert!(PeerId([0u8; 32]) < PeerId(prefix));
}

#[test]
fn identifiers_have_redacted_debug_output() {
    assert_eq!(PeerId([0xab; 32]).debug_text(), "PeerId(<redacted>)");
}

#[test]
fn less_than_agrees_with_the_byte_order() {
    let low = PeerId([0x7f; 32]);
    let high = PeerId([0x80; 32]);
    assert!(low.less_than(&high));
    assert!(!high.less_than(&low));
    assert!(!low.less_than(&low));
    assert!(FileId([1; 32]).less_than(&FileId([2; 32])));
    assert!(!ChunkId([3; 32]).less_than(&ChunkId([3; 32])));
    assert_eq!(FileId([0; 32]).debug_text(), "FileId(<redacted>)");
    assert_eq!(ChunkId([0; 32]).debug_text(), "ChunkId(<redacted>)");
}
