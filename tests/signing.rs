use roastr_core::coordinator::{SignStep, ThresholdSigningCoordinator};
use roastr_core::federation::{join_plan, ConfigError, FederationDescriptor, GuardianPeer, JoinPlan};
use roastr_core::locked::{after_try_lock, LockMode, LockStep};
use roastr_core::session::{
    AggregationError, BroadcastError, SessionState, ShareError, SigningSession,
};
use roastr_core::share::SignatureShare;
use roastr_core::store::{SigningError, SigningSessionStore};

fn federation(n: u16, t: u64) -> FederationDescriptor {
    FederationDescriptor {
        federation_id: vec![0xfe, 0xd0],
        guardians: (0..n)
            .map(|p| GuardianPeer { peer_id: p, public_share: vec![p as u8 + 1, 0x02] })
            .collect(),
        threshold: t,
        group_public_key: vec![0x03, 0x99],
    }
}

fn coordinator(n: u16, t: u64) -> ThresholdSigningCoordinator {
    ThresholdSigningCoordinator::new(federation(n, t)).unwrap()
}

fn share(p: u16) -> SignatureShare {
    SignatureShare::new(p, vec![0xa0 + p as u8, 0x11])
}

fn peer_ids(v: &[SignatureShare]) -> Vec<u16> {
    v.iter().map(|s| s.peer_id).collect()
}

fn solicited(c: &mut ThresholdSigningCoordinator, id: &Vec<u8>) -> Vec<u16> {
    match c.sign_note(id) {
        Ok(SignStep::Solicit(peers)) => peers,
        other => panic!("expected a solicitation, got {:?}", other),
    }
}

fn to_aggregate(c: &mut ThresholdSigningCoordinator, id: &Vec<u8>) -> Vec<SignatureShare> {
    match c.sign_note(id) {
        Ok(SignStep::Aggregate(v)) => v,
        other => panic!("expected shares to aggregate, got {:?}", other),
    }
}

#[test]
fn it_works() {}

#[test]
fn create_note_id_is_sha256_of_content() {
    let mut c = coordinator(3, 2);
    let id = c.create_note(b"abc".to_vec(), 10);
    let expected: Vec<u8> = vec![
        0xba, 0x78, 0x16, 0xbf, 0x8f, 0x01, 0xcf, 0xea, 0x41, 0x41, 0x40, 0xde, 0x5d, 0xae, 0x22,
        0x23, 0xb0, 0x03, 0x61, 0xa3, 0x96, 0x17, 0x7a, 0x9c, 0xb4, 0x10, 0xff, 0x61, 0xf2, 0x00,
        0x15, 0xad,
    ];
    assert_eq!(id, expected);
    assert_eq!(c.store.sessions.len(), 1);
    assert_eq!(c.store.sessions[0].content, b"abc".to_vec());
    assert_eq!(c.store.sessions[0].state, SessionState::Pending);
}

#[test]
fn create_note_twice_keeps_one_session() {
    let mut c = coordinator(3, 2);
    let a = c.create_note(b"hello".to_vec(), 1);
    c.record_share(&a, share(0), true).unwrap();
    let b = c.create_note(b"hello".to_vec(), 2);
    assert_eq!(a, b);
    assert_eq!(c.store.sessions.len(), 1);
    assert_eq!(c.store.sessions[0].created_at, 1);
    assert_eq!(c.store.sessions[0].shares.len(), 1);
    let other = c.create_note(b"world".to_vec(), 3);
    assert_ne!(a, other);
    assert_eq!(c.store.sessions.len(), 2);
}

#[test]
fn five_guardians_threshold_three_two_unreachable() {
    let mut c = coordinator(5, 3);
    let id = c.create_note(b"note".to_vec(), 0);
    assert_eq!(solicited(&mut c, &id), vec![0, 1, 2, 3, 4]);
    // guardians 2 and 4 never answer
    assert_eq!(c.record_share(&id, share(3), true), Ok(SessionState::Pending));
    assert_eq!(c.record_share(&id, share(0), true), Ok(SessionState::Pending));
    assert_eq!(solicited(&mut c, &id), vec![1, 2, 4]);
    assert_eq!(c.record_share(&id, share(1), true), Ok(SessionState::ThresholdReached));
    let chosen = to_aggregate(&mut c, &id);
    assert_eq!(peer_ids(&chosen), vec![0, 1, 3]);
    assert_eq!(c.complete_aggregation(&id, vec![0x5e, 0x16], true), Ok(()));
    assert_eq!(c.store.sessions[0].state, SessionState::Aggregated);
    assert!(matches!(c.sign_note(&id), Ok(SignStep::Done)));
}

#[test]
fn invalid_shares_are_not_counted() {
    let mut c = coordinator(5, 3);
    let id = c.create_note(b"mixed".to_vec(), 0);
    for p in [1u16, 3] {
        let bad = SignatureShare::new(p, vec![0xff]);
        assert_eq!(
            c.record_share(&id, bad, false),
            Err(SigningError::Share(ShareError::InvalidShare))
        );
    }
    assert_eq!(c.store.sessions[0].shares.len(), 0);
    assert_eq!(c.record_share(&id, share(0), true), Ok(SessionState::Pending));
    assert_eq!(c.record_share(&id, share(2), true), Ok(SessionState::Pending));
    assert_eq!(c.record_share(&id, share(4), true), Ok(SessionState::ThresholdReached));
    assert_eq!(peer_ids(&to_aggregate(&mut c, &id)), vec![0, 2, 4]);
    assert_eq!(c.complete_aggregation(&id, vec![1, 2, 3], true), Ok(()));
    assert_eq!(c.store.sessions[0].state, SessionState::Aggregated);
}

#[test]
fn second_invalid_share_excludes_peer() {
    let mut s = SigningSession::new(vec![1], vec![2], 0, 2);
    let bad = || SignatureShare::new(5, vec![0]);
    assert_eq!(s.record_share(bad(), false), Err(ShareError::InvalidShare));
    assert_eq!(s.warned, vec![5]);
    assert!(s.excluded.is_empty());
    assert!(s.needs_share_from(5));
    assert_eq!(s.record_share(bad(), false), Err(ShareError::InvalidShare));
    assert_eq!(s.excluded, vec![5]);
    assert!(!s.needs_share_from(5));
    assert_eq!(s.record_share(share(5), true), Err(ShareError::ExcludedPeer));
    assert!(s.shares.is_empty());
}

#[test]
fn duplicate_share_is_refused() {
    let mut s = SigningSession::new(vec![1], vec![2], 0, 3);
    assert_eq!(s.record_share(share(2), true), Ok(SessionState::Pending));
    assert_eq!(
        s.record_share(SignatureShare::new(2, vec![0x77]), true),
        Err(ShareError::DuplicatePeer)
    );
    assert_eq!(s.shares.len(), 1);
    assert_eq!(s.shares[0].share_bytes, vec![0xa2, 0x11]);
}

#[test]
fn resumed_session_solicits_only_missing_guardians() {
    let mut c = coordinator(4, 3);
    let id = c.create_note(b"resume".to_vec(), 0);
    c.record_share(&id, share(1), true).unwrap();
    c.record_share(&id, share(3), true).unwrap();
    // a later call, as after a restart, asks only the guardians still missing
    assert_eq!(solicited(&mut c, &id), vec![0, 2]);
    assert_eq!(c.record_share(&id, share(2), true), Ok(SessionState::ThresholdReached));
    assert_eq!(peer_ids(&to_aggregate(&mut c, &id)), vec![1, 2, 3]);
}

#[test]
fn arrival_order_does_not_change_selection() {
    let orders: [[u16; 4]; 3] = [[0, 1, 2, 3], [3, 2, 1, 0], [2, 0, 3, 1]];
    let mut picked: Vec<Vec<SignatureShare>> = Vec::new();
    for order in orders {
        let mut s = SigningSession::new(vec![9], vec![8], 0, 3);
        for p in order {
            let _ = s.record_share(share(p), true);
        }
        assert_eq!(peer_ids(&s.shares), vec![0, 1, 2, 3]);
        picked.push(s.aggregation_shares().unwrap());
    }
    for v in &picked {
        assert_eq!(peer_ids(v), vec![0, 1, 2]);
        let bytes: Vec<Vec<u8>> = v.iter().map(|s| s.share_bytes.clone()).collect();
        assert_eq!(bytes, vec![vec![0xa0, 0x11], vec![0xa1, 0x11], vec![0xa2, 0x11]]);
    }
}

#[test]
fn aggregation_completes_at_most_once() {
    let mut c = coordinator(3, 2);
    let id = c.create_note(b"once".to_vec(), 0);
    assert_eq!(
        c.complete_aggregation(&id, vec![1], true),
        Err(SigningError::Aggregation(AggregationError::NotReady))
    );
    c.record_share(&id, share(0), true).unwrap();
    c.record_share(&id, share(1), true).unwrap();
    assert_eq!(c.complete_aggregation(&id, vec![1], true), Ok(()));
    assert_eq!(
        c.complete_aggregation(&id, vec![2], true),
        Err(SigningError::Aggregation(AggregationError::AlreadyAggregated))
    );
    assert_eq!(c.store.sessions[0].signature, Some(vec![1]));
    // a late in-flight share still fills an open slot without re-aggregating
    assert_eq!(c.record_share(&id, share(2), true), Ok(SessionState::Aggregated));
    assert_eq!(c.store.sessions[0].signature, Some(vec![1]));
}

#[test]
fn failed_aggregation_verification_fails_session() {
    let mut c = coordinator(3, 2);
    let id = c.create_note(b"bad".to_vec(), 0);
    c.record_share(&id, share(0), true).unwrap();
    c.record_share(&id, share(2), true).unwrap();
    assert_eq!(
        c.complete_aggregation(&id, vec![0], false),
        Err(SigningError::Aggregation(AggregationError::VerificationFailed))
    );
    assert_eq!(c.store.sessions[0].state, SessionState::Failed);
    assert!(c.store.sessions[0].signature.is_none());
    assert!(matches!(c.sign_note(&id), Err(SigningError::SessionFailed)));
    assert_eq!(
        c.record_share(&id, share(1), true),
        Err(SigningError::Share(ShareError::SessionFailed))
    );
    // creating the note again replaces the failed session with a fresh one
    let again = c.create_note(b"bad".to_vec(), 7);
    assert_eq!(again, id);
    assert_eq!(c.store.sessions.len(), 1);
    assert_eq!(c.store.sessions[0].state, SessionState::Pending);
    assert_eq!(c.store.sessions[0].created_at, 7);
    assert!(c.store.sessions[0].shares.is_empty());
}

#[test]
fn quorum_lost_to_exclusions_fails_session() {
    let mut c = coordinator(3, 3);
    let id = c.create_note(b"quorum".to_vec(), 0);
    c.record_share(&id, share(0), true).unwrap();
    for _ in 0..2 {
        let _ = c.record_share(&id, SignatureShare::new(1, vec![0]), false);
    }
    assert!(matches!(c.sign_note(&id), Err(SigningError::QuorumUnreachable)));
    assert_eq!(c.store.sessions[0].state, SessionState::Failed);
}

#[test]
fn broadcast_flow() {
    let mut c = coordinator(2, 1);
    let id = c.create_note(b"publish me".to_vec(), 0);
    assert_eq!(
        c.broadcast_note(&id),
        Err(SigningError::Broadcast(BroadcastError::NotAggregated))
    );
    assert_eq!(c.record_share(&id, share(1), true), Ok(SessionState::ThresholdReached));
    c.complete_aggregation(&id, vec![0xaa, 0xbb], true).unwrap();
    assert_eq!(c.broadcast_note(&id), Ok((b"publish me".to_vec(), vec![0xaa, 0xbb])));
    assert_eq!(
        c.complete_broadcast(&id, false),
        Err(SigningError::Broadcast(BroadcastError::PublishFailed))
    );
    assert_eq!(c.store.sessions[0].state, SessionState::Aggregated);
    assert_eq!(c.complete_broadcast(&id, true), Ok(()));
    assert_eq!(c.store.sessions[0].state, SessionState::Broadcast);
    assert_eq!(c.complete_broadcast(&id, true), Ok(()));
    assert_eq!(c.broadcast_note(&id), Ok((b"publish me".to_vec(), vec![0xaa, 0xbb])));
}

#[test]
fn unknown_session_and_unknown_peer() {
    let mut c = coordinator(3, 2);
    let missing = vec![1u8, 2, 3];
    assert!(matches!(c.sign_note(&missing), Err(SigningError::UnknownSession)));
    assert_eq!(c.record_share(&missing, share(0), true), Err(SigningError::UnknownSession));
    assert!(matches!(c.get_signing_sessions(&missing), Err(SigningError::UnknownSession)));
    let id = c.create_note(vec![], 0);
    assert_eq!(c.record_share(&id, share(7), true), Err(SigningError::UnknownPeer));
    assert!(c.get_signing_sessions(&id).unwrap().is_empty());
    c.record_share(&id, share(2), true).unwrap();
    assert_eq!(peer_ids(&c.get_signing_sessions(&id).unwrap()), vec![2]);
}

#[test]
fn store_create_refuses_live_duplicate() {
    let mut st = SigningSessionStore::new();
    assert_eq!(st.create(vec![1], vec![], 0, 1), Ok(0));
    assert_eq!(st.create(vec![2], vec![], 0, 1), Ok(1));
    assert_eq!(st.create(vec![1], vec![5], 3, 1), Err(SigningError::AlreadyExists));
    assert_eq!(st.find(&vec![2]), Some(1));
    assert_eq!(st.find(&vec![3]), None);
    assert_eq!(st.get(&vec![1]).unwrap().created_at, 0);
}

#[test]
fn federation_validation() {
    assert!(federation(4, 4).validate().is_ok());
    assert_eq!(federation(4, 0).validate(), Err(ConfigError::ThresholdOutOfRange));
    assert_eq!(federation(4, 5).validate(), Err(ConfigError::ThresholdOutOfRange));
    let mut f = federation(3, 2);
    f.guardians[2].peer_id = 1;
    assert_eq!(f.validate(), Err(ConfigError::GuardiansOutOfOrder));
    let mut g = federation(3, 2);
    g.guardians[1].public_share.clear();
    assert_eq!(g.validate(), Err(ConfigError::MalformedPublicShare));
    assert!(ThresholdSigningCoordinator::new(federation(2, 3)).is_err());
    assert_eq!(federation(3, 2).guardian_index(2), Some(2));
    assert_eq!(federation(3, 2).guardian_index(3), None);
}

#[test]
fn join_prefers_local_state() {
    assert_eq!(join_plan(true), JoinPlan::OpenExisting);
    assert_eq!(join_plan(false), JoinPlan::DownloadAndJoin);
}

#[test]
fn lock_policy() {
    assert_eq!(after_try_lock(LockMode::Blocking, true), LockStep::Acquired);
    assert_eq!(after_try_lock(LockMode::NonBlocking, true), LockStep::Acquired);
    assert_eq!(after_try_lock(LockMode::Blocking, false), LockStep::Wait);
    assert_eq!(after_try_lock(LockMode::NonBlocking, false), LockStep::Busy);
}
