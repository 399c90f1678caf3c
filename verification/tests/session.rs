use quantam_fs::crypto::wrap::WrapMessage;
use quantam_fs::encoding::frames::encode_wrap_ack;
use quantam_fs::encoding::identity::encode_wrap;
use quantam_fs::error::Error;
use quantam_fs::ids::{Epoch, PeerId};
use quantam_fs::net::frame::{Frame, WRAP_ACK_KIND, WRAP_KIND};
use quantam_fs::net::session::{
    after_unwrap, candidate_opening, handshake_step, incoming_floor, initial_wrap, keeps_pair,
    preserved_step, CandidateOpening, HandshakeStep, OpeningWrap, PreservedStep, UnwrapStep,
};

const LOW: PeerId = PeerId([1; 32]);
const HIGH: PeerId = PeerId([2; 32]);

fn wrap(epoch: u64) -> WrapMessage {
    WrapMessage {
        kem_ct: vec![1, 2, 3],
        wrap_ct: vec![4, 5],
        epoch: Epoch(epoch),
        min_id: LOW,
        max_id: HIGH,
        signature: vec![9; 4],
    }
}

fn wrap_frame(epoch: u64) -> Frame {
    Frame { kind: WRAP_KIND, payload: encode_wrap(&wrap(epoch)).unwrap() }
}

fn ack_frame(epoch: u64, retry: bool) -> Frame {
    Frame { kind: WRAP_ACK_KIND, payload: encode_wrap_ack(Epoch(epoch), retry).to_vec() }
}

#[test]
fn smaller_id_opens_a_new_epoch_and_larger_waits() {
    assert_eq!(initial_wrap(&LOW, &HIGH, Epoch(0), Epoch(0), None, false), OpeningWrap::Create { floor: Epoch(0) });
    assert_eq!(initial_wrap(&HIGH, &LOW, Epoch(0), Epoch(0), None, false), OpeningWrap::Wait);
    assert_eq!(initial_wrap(&LOW, &HIGH, Epoch(3), Epoch(5), None, true), OpeningWrap::Create { floor: Epoch(5) });
}

#[test]
fn cached_wrap_at_the_floor_is_resent() {
    let cached = Some((HIGH, Epoch(4)));
    assert_eq!(initial_wrap(&HIGH, &LOW, Epoch(4), Epoch(4), cached, true), OpeningWrap::RetryCached);
    // behind the peer and the larger id: wait
    assert_eq!(initial_wrap(&HIGH, &LOW, Epoch(4), Epoch(3), Some((HIGH, Epoch(4))), true), OpeningWrap::RetryCached);
    assert_eq!(initial_wrap(&HIGH, &LOW, Epoch(3), Epoch(4), Some((HIGH, Epoch(4))), true), OpeningWrap::Wait);
    // agreed live pair: the smaller id does not rotate
    assert_eq!(initial_wrap(&LOW, &HIGH, Epoch(4), Epoch(4), Some((HIGH, Epoch(4))), true), OpeningWrap::Wait);
}

#[test]
fn candidate_opening_follows_cache_then_order_then_epochs() {
    assert_eq!(candidate_opening(&HIGH, &LOW, Epoch(2), Epoch(2), Epoch(2), Some(HIGH)), CandidateOpening::RetryCached);
    assert_eq!(candidate_opening(&HIGH, &LOW, Epoch(2), Epoch(2), Epoch(2), Some(LOW)), CandidateOpening::Wait);
    assert_eq!(candidate_opening(&LOW, &HIGH, Epoch(2), Epoch(2), Epoch(2), None), CandidateOpening::Create);
    assert_eq!(candidate_opening(&HIGH, &LOW, Epoch(3), Epoch(2), Epoch(2), None), CandidateOpening::Create);
    assert_eq!(candidate_opening(&HIGH, &LOW, Epoch(3), Epoch(4), Epoch(2), None), CandidateOpening::Wait);
}

#[test]
fn handshake_frames_are_classified() {
    assert!(matches!(handshake_step(&wrap_frame(3), Some(Epoch(5)), false), Ok(HandshakeStep::Stale(_))));
    match handshake_step(&wrap_frame(5), Some(Epoch(5)), false) {
        Ok(HandshakeStep::Open(m)) => assert_eq!(m, wrap(5)),
        _ => panic!("expected a wrap to open"),
    }
    assert!(matches!(handshake_step(&ack_frame(5, true), None, true), Ok(HandshakeStep::RetryAck)));
    assert!(matches!(
        handshake_step(&ack_frame(5, false), Some(Epoch(5)), false),
        Ok(HandshakeStep::Acknowledged(Epoch(5)))
    ));
    assert!(matches!(handshake_step(&ack_frame(4, false), Some(Epoch(5)), false), Err(Error::State(_))));
    assert!(matches!(handshake_step(&ack_frame(4, false), None, false), Err(Error::KeyUnavailable)));
    assert!(matches!(
        handshake_step(&Frame { kind: 12, payload: Vec::new() }, None, false),
        Err(Error::State(_))
    ));
    assert!(matches!(
        handshake_step(&Frame { kind: WRAP_KIND, payload: vec![0] }, None, false),
        Err(Error::InvalidInput(_))
    ));
}

#[test]
fn unwrap_outcomes_decide_the_reply() {
    assert_eq!(after_unwrap(Epoch(6), Ok(Epoch(6)), false).unwrap(), UnwrapStep::Established(Epoch(6)));
    assert_eq!(after_unwrap(Epoch(6), Ok(Epoch(6)), true).unwrap(), UnwrapStep::AckRetry(Epoch(6)));
    assert_eq!(
        after_unwrap(Epoch(6), Err(Error::EpochConflict { retry_epoch: Epoch(7) }), false).unwrap(),
        UnwrapStep::ReadOn
    );
    assert!(matches!(after_unwrap(Epoch(6), Err(Error::AuthenticationFailed), false), Err(Error::AuthenticationFailed)));
}

#[test]
fn kept_pair_accepts_only_the_cached_wrap_or_its_ack() {
    assert!(keeps_pair(Epoch(4), Epoch(4), Epoch(4)));
    assert!(!keeps_pair(Epoch(4), Epoch(5), Epoch(4)));
    let cached = wrap(4);
    assert_eq!(preserved_step(&wrap_frame(4), false, &cached, Epoch(4)).unwrap(), PreservedStep::OpenCached);
    assert!(matches!(preserved_step(&wrap_frame(5), false, &cached, Epoch(4)), Err(Error::State(_))));
    assert_eq!(preserved_step(&ack_frame(4, false), true, &cached, Epoch(4)).unwrap(), PreservedStep::Confirmed);
    assert!(matches!(preserved_step(&ack_frame(4, true), true, &cached, Epoch(4)), Err(Error::State(_))));
    assert!(matches!(preserved_step(&wrap_frame(4), true, &cached, Epoch(4)), Err(Error::State(_))));
}

#[test]
fn incoming_wrap_raises_the_floor_below_its_epoch() {
    let message = wrap(9);
    assert_eq!(incoming_floor(false, &HIGH, &LOW, &message, Epoch(3)), Some(Epoch(8)));
    assert_eq!(incoming_floor(false, &HIGH, &LOW, &message, Epoch(8)), None);
    assert_eq!(incoming_floor(true, &HIGH, &LOW, &message, Epoch(3)), None);
    assert_eq!(incoming_floor(false, &LOW, &HIGH, &message, Epoch(3)), None);
    assert_eq!(incoming_floor(false, &HIGH, &LOW, &wrap(0), Epoch(0)), None);
}
