use quantam_fs::ids::{ChunkId, FileId, PeerId};
use quantam_fs::protocol::locate::{HaveQuery, HaveReply};
use quantam_fs::sync::locate::{holders_from, live_member_candidates};

fn query() -> HaveQuery {
    HaveQuery::new(FileId([1; 32]), vec![ChunkId([2; 32]), ChunkId([3; 32])]).unwrap()
}

#[test]
fn a_live_host_is_the_only_holder() {
    let q = query();
    let peers = [PeerId([4; 32])];
    let replies = [Some(HaveReply::new(&q, vec![0b01]).unwrap())];
    assert_eq!(holders_from(true, PeerId([9; 32]), &peers, &replies, &[true], &q), vec![PeerId([9; 32])]);
}

#[test]
fn responders_holding_a_chunk_are_holders_in_order() {
    let q = query();
    let peers = [PeerId([4; 32]), PeerId([5; 32]), PeerId([6; 32]), PeerId([7; 32]), PeerId([8; 32])];
    let mut forged = HaveReply::new(&q, vec![0b11]).unwrap();
    forged.file_id = FileId([0; 32]);
    let replies = [
        Some(HaveReply::new(&q, vec![0b10]).unwrap()),
        Some(HaveReply::new(&q, vec![0b00]).unwrap()),
        None,
        Some(forged),
        Some(HaveReply::new(&q, vec![0b01]).unwrap()),
    ];
    assert_eq!(
        holders_from(false, PeerId([9; 32]), &peers, &replies, &[true; 5], &q),
        vec![PeerId([4; 32]), PeerId([8; 32])]
    );
}

#[test]
fn no_candidates_no_holders() {
    let q = query();
    assert!(holders_from(false, PeerId([9; 32]), &[], &[], &[], &q).is_empty());
}

#[test]
fn responders_that_dropped_after_answering_are_skipped() {
    let q = query();
    let peers = [PeerId([4; 32]), PeerId([5; 32])];
    let replies = [
        Some(HaveReply::new(&q, vec![0b01]).unwrap()),
        Some(HaveReply::new(&q, vec![0b01]).unwrap()),
    ];
    assert_eq!(holders_from(false, PeerId([9; 32]), &peers, &replies, &[false, true], &q), vec![PeerId([5; 32])]);
}

#[test]
fn candidates_are_live_members_but_host_and_self() {
    let members = [PeerId([1; 32]), PeerId([2; 32]), PeerId([3; 32]), PeerId([4; 32]), PeerId([5; 32])];
    let live = [true, true, true, false, true];
    // PeerId([2]) is the host, PeerId([3]) this member, PeerId([4]) has no live session
    assert_eq!(
        live_member_candidates(&members, &live, PeerId([2; 32]), PeerId([3; 32])),
        vec![PeerId([1; 32]), PeerId([5; 32])]
    );
}
