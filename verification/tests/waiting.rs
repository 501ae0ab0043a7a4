use xdp_compatibility::{
    deadline_passed, endpoint_query, Ipv4Addr, RecvEvent, RecvResult, RecvSession, RecvStep,
};

fn answer(request: &[u8]) -> Vec<u8> {
    let mut response = request.to_vec();
    response[2] = 0x81;
    response[3] = 0x80;
    response[7] = 1;
    response
}

fn request() -> Vec<u8> {
    endpoint_query(0x2001, Ipv4Addr::new(8, 8, 8, 8))
}

#[test]
fn answer_ends_the_wait_with_a_match() {
    let request = request();
    let answer = answer(&request);
    let mut session = RecvSession::new(&request, 0x2001);
    let step = session.step(RecvEvent::Packet(&answer));
    assert!(matches!(step, RecvStep::Finish(RecvResult::Match)));
    assert_eq!(step.result(), Some(RecvResult::Match));
}

#[test]
fn silence_until_the_deadline_is_a_timeout() {
    let request = request();
    let mut session = RecvSession::new(&request, 0x2001);
    let step = session.step(RecvEvent::NoPacket);
    assert!(matches!(step, RecvStep::Retry));
    assert_eq!(step.result(), None);
    let step = session.step(RecvEvent::Expired);
    assert_eq!(step.result(), Some(RecvResult::Timeout));
}

#[test]
fn other_packets_are_skipped_and_make_the_deadline_a_mismatch() {
    let request = request();
    let mut other = answer(&request);
    other[1] = 2;
    let mut session = RecvSession::new(&request, 0x2001);
    for _ in 0..3 {
        let step = session.step(RecvEvent::Packet(&other));
        assert!(matches!(step, RecvStep::Skip));
        assert_eq!(step.result(), None);
        assert!(matches!(session.step(RecvEvent::NoPacket), RecvStep::Retry));
    }
    let step = session.step(RecvEvent::Expired);
    assert!(matches!(step, RecvStep::Finish(RecvResult::Mismatch)));
}

#[test]
fn answer_is_still_accepted_after_other_packets() {
    let request = request();
    let answer = answer(&request);
    let mut other = answer.clone();
    other[0] = 0;
    let mut session = RecvSession::new(&request, 0x2001);
    assert_eq!(session.step(RecvEvent::Packet(&other)).result(), None);
    assert_eq!(
        session.step(RecvEvent::Packet(&answer)).result(),
        Some(RecvResult::Match)
    );
}

#[test]
fn faulty_answer_ends_the_wait_with_its_reason() {
    let request = request();
    let mut faulty = answer(&request);
    faulty[3] = 0x82;
    let mut session = RecvSession::new(&request, 0x2001);
    let step = session.step(RecvEvent::Packet(&faulty));
    assert!(matches!(step, RecvStep::Reject("rcode is non-zero")));
    assert_eq!(step.result(), Some(RecvResult::Mismatch));
}

#[test]
fn short_packet_ends_the_wait() {
    let request = request();
    let mut session = RecvSession::new(&request, 0x2001);
    let step = session.step(RecvEvent::Packet(&[]));
    assert!(matches!(step, RecvStep::Reject("packet too short")));
}

#[test]
fn deadline_passes_strictly_after_the_timeout() {
    assert!(!deadline_passed(0, 0));
    assert!(deadline_passed(1, 0));
    assert!(!deadline_passed(1_000_000_000, 1000));
    assert!(deadline_passed(1_000_000_001, 1000));
    assert!(!deadline_passed(u64::MAX as u128 * 1_000_000, u64::MAX));
    assert!(deadline_passed(u64::MAX as u128 * 1_000_000 + 1, u64::MAX));
}

#[test]
fn only_a_match_exits_with_zero() {
    assert_eq!(RecvResult::Match.exit_code(), 0);
    assert_eq!(RecvResult::Mismatch.exit_code(), 1);
    assert_eq!(RecvResult::Timeout.exit_code(), 1);
}
