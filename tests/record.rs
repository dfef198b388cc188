use roastr_core::coordinator::{SignStep, ThresholdSigningCoordinator};
use roastr_core::federation::{FederationDescriptor, GuardianPeer};
use roastr_core::record::{decode_session, encode_session};
use roastr_core::session::{SessionState, SigningSession};
use roastr_core::share::SignatureShare;
use roastr_core::store::SigningError;

fn fed(n: u16, t: u64) -> FederationDescriptor {
    FederationDescriptor {
        federation_id: vec![1],
        guardians: (0..n).map(|p| GuardianPeer { peer_id: p, public_share: vec![p as u8 + 1] }).collect(),
        threshold: t,
        group_public_key: vec![2],
    }
}

fn sh(p: u16) -> SignatureShare {
    SignatureShare::new(p, vec![0x40 + p as u8])
}

fn same(a: &SigningSession, b: &SigningSession) {
    assert_eq!(a.event_id, b.event_id);
    assert_eq!(a.content, b.content);
    assert_eq!(a.created_at, b.created_at);
    assert_eq!(a.threshold, b.threshold);
    assert_eq!(a.shares.len(), b.shares.len());
    for (x, y) in a.shares.iter().zip(b.shares.iter()) {
        assert_eq!(x.peer_id, y.peer_id);
        assert_eq!(x.share_bytes, y.share_bytes);
    }
    assert_eq!(a.warned, b.warned);
    assert_eq!(a.excluded, b.excluded);
    assert_eq!(a.state, b.state);
    assert_eq!(a.signature, b.signature);
}

#[test]
fn empty_session_record_layout() {
    let s = SigningSession::new(vec![0xee], vec![0xc0, 0xc1], 0x0102, 1);
    let bytes = encode_session(&s);
    let mut expected: Vec<u8> = Vec::new();
    expected.extend_from_slice(&[1, 0, 0, 0, 0, 0, 0, 0, 0xee]);
    expected.extend_from_slice(&[2, 0, 0, 0, 0, 0, 0, 0, 0xc0, 0xc1]);
    expected.extend_from_slice(&[0x02, 0x01, 0, 0, 0, 0, 0, 0]);
    expected.extend_from_slice(&[1, 0, 0, 0, 0, 0, 0, 0]);
    expected.extend_from_slice(&[0; 8]);
    expected.extend_from_slice(&[0; 8]);
    expected.extend_from_slice(&[0; 8]);
    expected.push(0);
    expected.push(0);
    assert_eq!(bytes, expected);
}

#[test]
fn share_record_layout() {
    let mut s = SigningSession::new(vec![], vec![], 0, 2);
    s.record_share(SignatureShare::new(0x0203, vec![0xab]), true).unwrap();
    let bytes = encode_session(&s);
    // after ids, content, created_at and threshold: count, peer id, framed bytes
    let tail = &bytes[32..];
    assert_eq!(&tail[..8], &[1, 0, 0, 0, 0, 0, 0, 0]);
    assert_eq!(&tail[8..10], &[0x03, 0x02]);
    assert_eq!(&tail[10..19], &[1, 0, 0, 0, 0, 0, 0, 0, 0xab]);
}

#[test]
fn session_record_round_trip() {
    let mut s = SigningSession::new(vec![7; 32], b"content".to_vec(), 99, 2);
    let _ = s.record_share(SignatureShare::new(4, vec![1, 2]), false);
    let _ = s.record_share(SignatureShare::new(4, vec![1, 2]), false);
    let _ = s.record_share(SignatureShare::new(6, vec![1]), false);
    s.record_share(sh(3), true).unwrap();
    s.record_share(sh(1), true).unwrap();
    s.complete_aggregation(vec![0x51, 0x6e], true).unwrap();
    let bytes = encode_session(&s);
    let back = decode_session(&bytes).unwrap();
    same(&s, &back);
    assert_eq!(back.state, SessionState::Aggregated);
    assert_eq!(back.excluded, vec![4]);
    assert_eq!(back.warned, vec![4, 6]);
}

#[test]
fn decode_rejects_malformed_records() {
    let mut s = SigningSession::new(vec![1], vec![2], 3, 2);
    s.record_share(sh(0), true).unwrap();
    s.record_share(sh(5), true).unwrap();
    let good = encode_session(&s);
    assert!(decode_session(&good).is_some());
    let mut trailing = good.clone();
    trailing.push(0);
    assert!(decode_session(&trailing).is_none());
    assert!(decode_session(&good[..good.len() - 1].to_vec()).is_none());
    assert!(decode_session(&Vec::new()).is_none());
    // state byte: unknown code
    let state_at = good.len() - 2;
    let mut bad_state = good.clone();
    bad_state[state_at] = 9;
    assert!(decode_session(&bad_state).is_none());
    // a pending state with threshold many shares is not well formed
    let mut pending = good.clone();
    pending[state_at] = 0;
    assert!(decode_session(&pending).is_none());
    // aggregated state without a signature is not well formed
    let mut unsigned = good.clone();
    unsigned[state_at] = 2;
    assert!(decode_session(&unsigned).is_none());
    // shares out of peer order
    let mut swapped = good.clone();
    let first_peer = 9 + 9 + 8 + 8 + 8;
    swapped[first_peer] = 7;
    assert!(decode_session(&swapped).is_none());
}

#[test]
fn resume_after_restart_asks_only_missing_guardians() {
    let mut first = ThresholdSigningCoordinator::new(fed(5, 3)).unwrap();
    let id = first.create_note(b"resume me".to_vec(), 42);
    first.record_share(&id, sh(0), true).unwrap();
    first.record_share(&id, sh(3), true).unwrap();
    let record = first.session_record(&id).unwrap();
    drop(first);

    let mut second = ThresholdSigningCoordinator::new(fed(5, 3)).unwrap();
    assert_eq!(second.restore_session(&record), Ok(()));
    match second.sign_note(&id) {
        Ok(SignStep::Solicit(peers)) => assert_eq!(peers, vec![1, 2, 4]),
        other => panic!("unexpected {:?}", other),
    }
    assert_eq!(second.record_share(&id, sh(4), true), Ok(SessionState::ThresholdReached));
    match second.sign_note(&id) {
        Ok(SignStep::Aggregate(v)) => {
            assert_eq!(v.iter().map(|s| s.peer_id).collect::<Vec<_>>(), vec![0, 3, 4])
        }
        other => panic!("unexpected {:?}", other),
    }
    assert_eq!(second.record_share(&id, sh(0), true), Err(SigningError::Share(
        roastr_core::session::ShareError::DuplicatePeer
    )));
}

#[test]
fn restore_refusals() {
    let mut c = ThresholdSigningCoordinator::new(fed(3, 2)).unwrap();
    assert_eq!(c.restore_session(&vec![1, 2, 3]), Err(SigningError::CorruptRecord));
    let other = SigningSession::new(vec![5], vec![], 0, 3);
    assert_eq!(c.restore_session(&encode_session(&other)), Err(SigningError::ThresholdMismatch));
    let id = c.create_note(b"x".to_vec(), 0);
    let rec = c.session_record(&id).unwrap();
    assert_eq!(c.restore_session(&rec), Err(SigningError::AlreadyExists));
    assert_eq!(c.store.sessions.len(), 1);
    assert_eq!(c.session_record(&vec![0]), Err(SigningError::UnknownSession));
}
