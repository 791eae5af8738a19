use auto_claw::handshake::{signal_step, SignalAction};
use auto_claw::signal::{
    candidate_event, decode_signal, needs_new_enemy, parse_candidate, remote_index,
    signal_bytes, signal_well_formed, CandidateParts, Signal,
};

#[test]
fn decodes_each_kind() {
    assert_eq!(decode_signal(&vec![0, 3, 2, 1, 0]), Signal::AssignId(3, vec![2, 1, 0]));
    assert_eq!(decode_signal(&vec![1, 4, 9, b'o']), Signal::Offer(4, vec![b'o']));
    assert_eq!(decode_signal(&vec![2, 4, 9, b'a', b'b']), Signal::Answer(4, vec![b'a', b'b']));
    assert_eq!(decode_signal(&vec![3, 4, 9, b'c']), Signal::LocalCandidate(9, vec![b'c']));
    assert_eq!(decode_signal(&vec![4, 4, 9, b'c']), Signal::RemoteCandidate(4, Some(vec![b'c'])));
    assert_eq!(decode_signal(&vec![4, 4]), Signal::RemoteCandidate(4, None));
    assert_eq!(decode_signal(&vec![255, 2, 1]), Signal::Close(2, 1));
    assert_eq!(decode_signal(&vec![7]), Signal::Unrecognized);
}

#[test]
fn too_short_messages() {
    assert!(!signal_well_formed(&vec![]));
    assert!(!signal_well_formed(&vec![0]));
    assert!(!signal_well_formed(&vec![1, 2]));
    assert!(!signal_well_formed(&vec![255, 2]));
    assert!(signal_well_formed(&vec![0, 1]));
    assert!(signal_well_formed(&vec![9]));
}

#[test]
fn builds_messages() {
    assert_eq!(signal_bytes(2, 1, 0, &vec![b'x', b'y']), vec![2, 1, 0, b'x', b'y']);
}

#[test]
fn candidate_round_trip() {
    let ev = candidate_event(1, 2, &b"0".to_vec(), 258, &b"candidate:1".to_vec());
    let mut expected = vec![3, 1, 2, b'0', b';', 2, 1, b','];
    expected.extend_from_slice(b"candidate:1");
    assert_eq!(ev, expected);
    let parts = parse_candidate(&ev[3..].to_vec()).unwrap();
    assert_eq!(
        parts,
        CandidateParts { mid: b"0".to_vec(), m_line_index: 258, candidate: b"candidate:1".to_vec() }
    );
}

#[test]
fn malformed_candidates() {
    assert_eq!(parse_candidate(&b"abc".to_vec()), None);
    assert_eq!(parse_candidate(&b"a;bc".to_vec()), None);
    assert_eq!(parse_candidate(&b"a,b;c".to_vec()), None);
    assert_eq!(parse_candidate(&vec![b'a', b';', 7, b',', b'c']), None);
    assert_eq!(
        parse_candidate(&vec![b'a', b';', 7, 0, 9, b',', b'c']),
        Some(CandidateParts { mid: vec![b'a'], m_line_index: 7, candidate: vec![b'c'] })
    );
}

#[test]
fn remote_indices() {
    assert_eq!(remote_index(3, 3), None);
    assert_eq!(remote_index(5, 3), Some(4));
    assert_eq!(remote_index(1, 3), Some(1));
    assert!(needs_new_enemy(0, 0));
    assert!(!needs_new_enemy(2, 1));
    assert!(needs_new_enemy(256, 0));
}

#[test]
fn step_assign_id_offers() {
    let (id, action) = signal_step(255, decode_signal(&vec![0, 2, 1, 0]), false);
    assert_eq!(id, 2);
    assert_eq!(action, SignalAction::OfferTo(vec![1, 0]));
}

#[test]
fn step_offer_and_answer() {
    let (id, action) = signal_step(0, decode_signal(&vec![1, 2, 0, b's']), false);
    assert_eq!(id, 0);
    assert_eq!(action, SignalAction::AnswerOffer(2, vec![b's']));
    let (_, action) = signal_step(2, decode_signal(&vec![2, 0, 2, b'a']), true);
    assert_eq!(action, SignalAction::AcceptAnswer(0, vec![b'a']));
}

#[test]
fn step_own_candidate_waits_until_stable() {
    let msg = vec![3, 1, 2, b'c'];
    let (_, action) = signal_step(1, decode_signal(&msg), false);
    assert_eq!(action, SignalAction::Requeue);
    let (_, action) = signal_step(1, decode_signal(&msg), true);
    assert_eq!(action, SignalAction::Send(vec![4, 1, 2, b'c']));
}

#[test]
fn step_candidate_from_other_client() {
    let ev = candidate_event(1, 2, &b"m".to_vec(), 3, &b"cand".to_vec());
    let (_, forward) = signal_step(1, decode_signal(&ev), true);
    let sent = match forward {
        SignalAction::Send(bytes) => bytes,
        other => panic!("{:?}", other),
    };
    let (id, action) = signal_step(2, decode_signal(&sent), true);
    assert_eq!(id, 2);
    assert_eq!(
        action,
        SignalAction::AddCandidate(
            1,
            CandidateParts { mid: b"m".to_vec(), m_line_index: 3, candidate: b"cand".to_vec() }
        )
    );
    let (_, later) = signal_step(2, decode_signal(&sent), false);
    assert_eq!(later, SignalAction::Requeue);
}

#[test]
fn step_close_and_unknown() {
    let (id, action) = signal_step(3, decode_signal(&vec![255, 1, 2]), false);
    assert_eq!(id, 2);
    assert_eq!(action, SignalAction::ClosePeer(1));
    let (id, action) = signal_step(3, decode_signal(&vec![42, 1]), false);
    assert_eq!(id, 3);
    assert_eq!(action, SignalAction::Ignore);
}
