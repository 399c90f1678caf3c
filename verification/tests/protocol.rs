use quantam_fs::error::{Error, Result};
use quantam_fs::ids::{ChunkId, FileId, SeqNum};
use quantam_fs::protocol::locate::{HaveQuery, HaveReply};
use quantam_fs::protocol::packet::ReplayWindowState;
use quantam_fs::protocol::pull::{PullRequest, MAX_PULL_CHUNK_IDS};

#[test]
fn window_accepts_holes_and_rejects_replays_and_old_boundary() {
    let mut window = ReplayWindowState::default();
    assert!(window.accept(SeqNum(2_000)).is_ok());
    assert!(window.accept(SeqNum(1_998)).is_ok());
    assert!(matches!(
        window.check(SeqNum(1_998)),
        Err(Error::ReplayRejected)
    ));
    assert!(window.accept(SeqNum(977)).is_ok());
    assert!(matches!(window.check(SeqNum(976)), Err(Error::ReplayRejected)));
}

#[test]
fn large_jump_discards_old_window_without_overflow() {
    let mut window = ReplayWindowState::default();
    assert!(window.accept(SeqNum(0)).is_ok());
    assert!(window.accept(SeqNum(u64::MAX)).is_ok());
    assert!(matches!(window.check(SeqNum(0)), Err(Error::ReplayRejected)));
}

#[test]
fn accepted_sequence_is_never_accepted_again() {
    let mut window = ReplayWindowState::default();
    assert!(window.check(SeqNum(5)).is_ok());
    assert!(window.accept(SeqNum(5)).is_ok());
    assert!(matches!(window.accept(SeqNum(5)), Err(Error::ReplayRejected)));
    assert!(window.accept(SeqNum(6)).is_ok());
    assert!(matches!(window.check(SeqNum(5)), Err(Error::ReplayRejected)));
}

#[test]
fn accepts_at_most_32_chunk_ids() {
    assert!(PullRequest::new(vec![ChunkId([0; 32]); MAX_PULL_CHUNK_IDS]).is_ok());
}

#[test]
fn rejects_more_than_32_chunk_ids() {
    assert!(PullRequest::new(vec![ChunkId([0; 32]); MAX_PULL_CHUNK_IDS + 1]).is_err());
}

#[test]
fn query_bounds_and_reply_correlation_are_strict() -> Result<()> {
    let file = FileId([1; 32]);
    assert!(HaveQuery::new(file, Vec::new()).is_err());
    assert!(HaveQuery::new(file, vec![ChunkId([0; 32]); 33]).is_err());
    let query = HaveQuery::new(file, vec![ChunkId([2; 32]), ChunkId([3; 32])])?;
    let reply = HaveReply::new(&query, vec![0b10])?;
    assert!(!reply.has(0));
    assert!(reply.has(1));
    assert!(!reply.has(2));

    let mut wrong = reply.clone();
    wrong.file_id = FileId([4; 32]);
    assert!(wrong.validate(&query).is_err());
    let mut wrong = reply.clone();
    wrong.chunk_ids.swap(0, 1);
    assert!(wrong.validate(&query).is_err());
    let mut wrong = reply;
    wrong.have_bitset.push(0);
    assert!(wrong.validate(&query).is_err());
    Ok(())
}

#[test]
fn reply_rejects_a_bitset_of_the_wrong_size() {
    let query = HaveQuery::new(FileId([1; 32]), vec![ChunkId([2; 32])]).unwrap();
    assert!(HaveReply::new(&query, Vec::new()).is_err());
    assert!(HaveReply::new(&query, vec![0, 0]).is_err());
    let reply = HaveReply::new(&query, vec![1]).unwrap();
    assert!(reply.validate(&query).is_ok());
    assert!(reply.has(0));
}
