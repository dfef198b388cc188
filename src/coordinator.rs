//! The threshold-signing coordinator: it decides, for each note, which
//! guardians to ask for shares, when to aggregate and what to publish. The
//! caller performs the requests, the cryptography and the publication, and
//! hands each outcome back.

use vstd::prelude::*;
use crate::digest::{sha256, sha256_of};
use crate::federation::{ConfigError, FederationDescriptor};
use crate::record::{decode_session, parse_record, session_model};
use crate::session::{SessionState, SigningSession};
use crate::share::{SignatureShare, copy_prefix, has_peer, selected, share_model, shares_model};
use crate::store::{SigningError, SigningSessionStore, lift_aggregation, lift_broadcast, lift_share};

verus! {

/// What `sign_note` asks the caller to do next.
#[derive(Debug)]
pub enum SignStep {
    /// Request a share from each of these guardians, verify each reply
    /// against the guardian's public share, and record it.
    Solicit(Vec<u16>),
    /// Combine these shares, verify the result under the group key, and hand
    /// it back with `complete_aggregation`.
    Aggregate(Vec<SignatureShare>),
    /// The note already holds its aggregated signature.
    Done,
}

/// Coordinates the signing sessions of one federation.
#[derive(Debug)]
pub struct ThresholdSigningCoordinator {
    pub federation: FederationDescriptor,
    pub store: SigningSessionStore,
}

impl ThresholdSigningCoordinator {
    /// A consistent federation, a well-formed store, and every session made
    /// under the federation's threshold.
    pub open spec fn wf(&self) -> bool {
        &&& self.federation.wf()
        &&& self.store.wf()
        &&& forall|k: int|
            0 <= k < self.store.sessions@.len() ==> #[trigger] self.store.sessions@[k].threshold
                == self.federation.threshold
    }

    /// The guardians that session `s` still asks for a share, in directory
    /// order: those with no share in it that are not excluded, while it is
    /// below threshold.
    pub open spec fn is_solicitation(
        fed: FederationDescriptor,
        s: SigningSession,
        peers: Seq<u16>,
    ) -> bool {
        &&& forall|a: int, b: int| 0 <= a < b < peers.len() ==> peers[a] < peers[b]
        &&& forall|p: u16| peers.contains(p) <==> (fed.has_guardian(p) && s.wants_share_from(p))
    }

    /// A coordinator with no sessions, for a federation whose configuration
    /// is consistent.
    pub fn new(federation: FederationDescriptor) -> (r: Result<ThresholdSigningCoordinator, ConfigError>)
        ensures
            r.is_ok() <==> federation.wf(),
            r.is_err() ==> r == Err::<ThresholdSigningCoordinator, ConfigError>(
                federation.validate_error(),
            ),
            r.is_ok() ==> r.unwrap().wf() && r.unwrap().federation == federation
                && r.unwrap().store.sessions@.len() == 0,
    {
        match federation.validate() {
            Err(e) => Err(e),
            Ok(()) => Ok(ThresholdSigningCoordinator { federation, store: SigningSessionStore::new() }),
        }
    }

    /// How creating the note for `content` takes `a` to `b` and gives `id`:
    /// the id is the content's SHA-256 digest; a live session for it is left
    /// alone, and otherwise a fresh one takes the place of a failed one or
    /// joins the end of the store.
    pub open spec fn note_created(
        a: ThresholdSigningCoordinator,
        b: ThresholdSigningCoordinator,
        content: Seq<u8>,
        created_at: u64,
        id: Seq<u8>,
    ) -> bool {
        &&& id == sha256_of(content)
        &&& b.federation == a.federation
        &&& b.store.has_live_session(id)
        &&& a.store.has_live_session(id) ==> b == a
        &&& !a.store.has_live_session(id) ==> SigningSessionStore::is_fresh(
            b.store.session(id),
            id,
            content,
            created_at,
            a.federation.threshold,
        )
        &&& !a.store.has_live_session(id) && a.store.has_session(id)
            ==> SigningSessionStore::only_changed_at(&a.store, &b.store, a.store.index_of(id))
        &&& !a.store.has_session(id) ==> b.store.sessions@.drop_last() == a.store.sessions@
    }

    /// Creating a note is deterministic and idempotent: the same content
    /// gives the same event id, and creating it a second time changes
    /// nothing, so no second session is opened.
    pub proof fn lemma_create_note_idempotent(
        a: ThresholdSigningCoordinator,
        b: ThresholdSigningCoordinator,
        c: ThresholdSigningCoordinator,
        content: Seq<u8>,
        t1: u64,
        t2: u64,
        id1: Seq<u8>,
        id2: Seq<u8>,
    )
        requires
            Self::note_created(a, b, content, t1, id1),
            Self::note_created(b, c, content, t2, id2),
        ensures
            id1 == id2,
            c == b,
    {
    }

    /// The guardians asked for shares are exactly those of the federation
    /// that have not supplied a verified share and are still trusted, so a
    /// resumed session never asks again a guardian whose share it holds.
    pub proof fn lemma_solicits_only_missing(
        fed: FederationDescriptor,
        s: SigningSession,
        peers: Seq<u16>,
        p: u16,
    )
        requires
            Self::is_solicitation(fed, s, peers),
            s.state == SessionState::Pending,
        ensures
            peers.contains(p) ==> !has_peer(s.share_list(), p),
            peers.contains(p) ==> fed.has_guardian(p),
            fed.has_guardian(p) && !has_peer(s.share_list(), p) && !s.excluded@.contains(p)
                ==> peers.contains(p),
    {
    }

    /// Creates the note for `content`: its event id is the SHA-256 digest of
    /// the content, and a session opens for it unless a live one exists, in
    /// which case nothing changes.
    pub fn create_note(&mut self, content: Vec<u8>, created_at: u64) -> (r: Vec<u8>)
        requires
            old(self).wf(),
        ensures
            final(self).wf(),
            Self::note_created(*old(self), *final(self), content@, created_at, r@),
    {
        let id = sha256(&content);
        let key = id.clone();
        assert(key@ =~= id@);
        let t = self.federation.threshold;
        let res = self.store.create(key, content, created_at, t);
        proof {
            if !old(self).store.has_live_session(id@) {
                let i = res.unwrap() as int;
                assert forall|k: int| 0 <= k < self.store.sessions@.len() implies #[trigger] self.store.sessions@[k].threshold
                    == self.federation.threshold by {
                    if k != i {
                        if old(self).store.has_session(id@) {
                            assert(self.store.sessions@[k] == old(self).store.sessions@[k]);
                        } else {
                            assert(self.store.sessions@[k] == self.store.sessions@.drop_last()[k]);
                        }
                    }
                }
            }
        }
        id
    }

    /// The guardians that the session at `i` still asks for a share.
    fn pending_peers(&self, i: usize) -> (r: Vec<u16>)
        requires
            self.wf(),
            i < self.store.sessions@.len(),
        ensures
            Self::is_solicitation(self.federation, self.store.sessions@[i as int], r@),
            r@.len() <= self.federation.guardians@.len(),
    {
        let ghost s = self.store.sessions@[i as int];
        assert(s.wf());
        let n = self.federation.guardians.len();
        let mut r: Vec<u16> = Vec::new();
        let mut j: usize = 0;
        while j < n
            invariant
                self.wf(),
                i < self.store.sessions@.len(),
                s == self.store.sessions@[i as int],
                s.wf(),
                n == self.federation.guardians@.len(),
                j <= n,
                r@.len() <= j,
                forall|a: int, b: int| 0 <= a < b < r@.len() ==> r@[a] < r@[b],
                forall|a: int| 0 <= a < r@.len() ==> self.federation.has_guardian(#[trigger] r@[a]) && s.wants_share_from(r@[a]),
                forall|a: int, k: int| 0 <= a < r@.len() && j <= k < n ==> r@[a] < self.federation.guardians@[k].peer_id,
                forall|k: int| 0 <= k < j ==> #[trigger] s.wants_share_from(self.federation.guardians@[k].peer_id) ==> r@.contains(self.federation.guardians@[k].peer_id),
            decreases n - j,
        {
            let p = self.federation.guardians[j].peer_id;
            if self.store.sessions[i].needs_share_from(p) {
                let ghost before = r@;
                r.push(p);
                proof {
                    assert(self.federation.has_guardian(p));
                    assert forall|k: int| 0 <= k < j + 1 && #[trigger] s.wants_share_from(self.federation.guardians@[k].peer_id) implies r@.contains(self.federation.guardians@[k].peer_id) by {
                        if k < j {
                            let x = choose|x: int| 0 <= x < before.len() && before[x] == self.federation.guardians@[k].peer_id;
                            assert(r@[x] == before[x]);
                        } else {
                            assert(r@[before.len() as int] == p);
                        }
                    }
                    assert forall|a: int, k: int| 0 <= a < r@.len() && j + 1 <= k < n implies r@[a] < self.federation.guardians@[k].peer_id by {
                        if a < before.len() {
                            assert(before[a] < self.federation.guardians@[k].peer_id);
                        } else {
                            assert(self.federation.guardians@[j as int].peer_id < self.federation.guardians@[k].peer_id);
                        }
                    }
                }
            } else {
                proof {
                    assert forall|a: int, k: int| 0 <= a < r@.len() && j + 1 <= k < n implies r@[a] < self.federation.guardians@[k].peer_id by {
                        assert(r@[a] < self.federation.guardians@[j as int].peer_id);
                        assert(self.federation.guardians@[j as int].peer_id < self.federation.guardians@[k].peer_id);
                    }
                }
            }
            j = j + 1;
        }
        proof {
            assert forall|p: u16| r@.contains(p) <==> (self.federation.has_guardian(p) && s.wants_share_from(p)) by {
                if r@.contains(p) {
                    let x = choose|x: int| 0 <= x < r@.len() && r@[x] == p;
                    assert(self.federation.has_guardian(r@[x]));
                }
                if self.federation.has_guardian(p) && s.wants_share_from(p) {
                    let k = choose|k: int| 0 <= k < self.federation.guardians@.len() && self.federation.guardians@[k].peer_id == p;
                    assert(s.wants_share_from(self.federation.guardians@[k].peer_id));
                }
            }
        }
        r
    }

    /// The guardians that session `s` still asks for a share.
    pub open spec fn solicitable(fed: FederationDescriptor, s: SigningSession) -> Set<u16> {
        Set::new(|p: u16| fed.has_guardian(p) && s.wants_share_from(p))
    }

    /// A pending session can still reach its threshold: its shares and the
    /// guardians it may still ask are together at least the threshold.
    pub open spec fn quorum_reachable(fed: FederationDescriptor, s: SigningSession) -> bool {
        s.shares@.len() + Self::solicitable(fed, s).len() >= s.threshold
    }

    proof fn lemma_solicitation_count(fed: FederationDescriptor, s: SigningSession, peers: Seq<u16>)
        requires
            Self::is_solicitation(fed, s, peers),
        ensures
            peers.len() == Self::solicitable(fed, s).len(),
    {
        assert(peers.to_set() =~= Self::solicitable(fed, s));
        assert(peers.no_duplicates()) by {
            assert forall|a: int, b: int| 0 <= a < peers.len() && 0 <= b < peers.len() && a != b implies peers[a] != peers[b] by {
                if a < b {
                    assert(peers[a] < peers[b]);
                } else {
                    assert(peers[b] < peers[a]);
                }
            }
        }
        peers.unique_seq_to_set();
    }

    /// Decides the next step for the note `event_id`. A pending session asks
    /// the guardians it still needs, or fails for good when too few remain
    /// trusted to reach the threshold; a session at threshold hands out the
    /// first threshold shares in peer order for aggregation; an aggregated
    /// or broadcast one is done. Only the failing case changes anything.
    pub fn sign_note(&mut self, event_id: &Vec<u8>) -> (r: Result<SignStep, SigningError>)
        requires
            old(self).wf(),
        ensures
            final(self).wf(),
            final(self).federation == old(self).federation,
            !old(self).store.has_session(event_id@) ==> r == Err::<SignStep, SigningError>(
                SigningError::UnknownSession,
            ) && *final(self) == *old(self),
            old(self).store.has_session(event_id@) ==> {
                let s = old(self).store.session(event_id@);
                let i = old(self).store.index_of(event_id@);
                &&& s.state == SessionState::Failed ==> r == Err::<SignStep, SigningError>(
                    SigningError::SessionFailed,
                ) && *final(self) == *old(self)
                &&& SigningSession::has_signature_state(s.state) ==> (r matches Ok(SignStep::Done))
                    && *final(self) == *old(self)
                &&& s.state == SessionState::ThresholdReached ==> *final(self) == *old(self) && (
                match r {
                    Ok(SignStep::Aggregate(v)) => shares_model(v@) == selected(
                        s.share_list(),
                        s.threshold as nat,
                    ),
                    _ => false,
                })
                &&& s.state == SessionState::Pending && Self::quorum_reachable(old(self).federation, s)
                    ==> *final(self) == *old(self) && (match r {
                    Ok(SignStep::Solicit(peers)) => Self::is_solicitation(
                        old(self).federation,
                        s,
                        peers@,
                    ),
                    _ => false,
                })
                &&& s.state == SessionState::Pending && !Self::quorum_reachable(old(self).federation, s)
                    ==> r == Err::<SignStep, SigningError>(SigningError::QuorumUnreachable)
                    && SigningSessionStore::only_changed_at(&old(self).store, &final(self).store, i)
                    && final(self).store.sessions@[i] == (SigningSession {
                    state: SessionState::Failed,
                    ..s
                })
            },
    {
        let i = match self.store.find(event_id) {
            None => return Err(SigningError::UnknownSession),
            Some(i) => i,
        };
        assert(self.store.sessions@[i as int].wf());
        match self.store.sessions[i].state {
            SessionState::Failed => Err(SigningError::SessionFailed),
            SessionState::Aggregated | SessionState::Broadcast => Ok(SignStep::Done),
            SessionState::ThresholdReached => {
                let v = self.store.sessions[i].aggregation_shares().unwrap();
                Ok(SignStep::Aggregate(v))
            },
            SessionState::Pending => {
                let peers = self.pending_peers(i);
                proof {
                    Self::lemma_solicitation_count(
                        self.federation,
                        self.store.sessions@[i as int],
                        peers@,
                    );
                }
                let have = self.store.sessions[i].shares.len() as u128;
                let can = peers.len() as u128;
                if have + can >= self.store.sessions[i].threshold as u128 {
                    Ok(SignStep::Solicit(peers))
                } else {
                    let ghost before = self.store;
                    self.store.abandon_at(i);
                    proof {
                        assert forall|k: int| 0 <= k < self.store.sessions@.len() implies #[trigger] self.store.sessions@[k].threshold
                            == self.federation.threshold by {
                            if k != i {
                                assert(self.store.sessions@[k] == before.sessions@[k]);
                            }
                        }
                    }
                    Err(SigningError::QuorumUnreachable)
                }
            },
        }
    }

    /// Records a guardian's share for the note `event_id`; `valid` is the
    /// outcome of verifying it against that guardian's public share. A share
    /// from a peer outside the federation is refused with `UnknownPeer`.
    pub fn record_share(&mut self, event_id: &Vec<u8>, share: SignatureShare, valid: bool) -> (r:
        Result<SessionState, SigningError>)
        requires
            old(self).wf(),
        ensures
            final(self).wf(),
            final(self).federation == old(self).federation,
            !old(self).federation.has_guardian(share.peer_id) ==> r == Err::<
                SessionState,
                SigningError,
            >(SigningError::UnknownPeer) && *final(self) == *old(self),
            old(self).federation.has_guardian(share.peer_id) && !old(self).store.has_session(
                event_id@,
            ) ==> r == Err::<SessionState, SigningError>(SigningError::UnknownSession)
                && *final(self) == *old(self),
            old(self).federation.has_guardian(share.peer_id) && old(self).store.has_session(
                event_id@,
            ) ==> {
                let i = old(self).store.index_of(event_id@);
                &&& SigningSessionStore::only_changed_at(&old(self).store, &final(self).store, i)
                &&& final(self).store.index_of(event_id@) == i
                &&& r == lift_share(
                    SigningSession::share_outcome(old(self).store.sessions@[i], share.peer_id, valid),
                )
                &&& SigningSession::recorded(
                    old(self).store.sessions@[i],
                    final(self).store.sessions@[i],
                    share_model(share),
                    valid,
                )
            },
    {
        if self.federation.guardian_index(share.peer_id).is_none() {
            return Err(SigningError::UnknownPeer);
        }
        let ghost before = self.store;
        let r = self.store.record_share(event_id, share, valid);
        proof {
            if before.has_session(event_id@) {
                let i = before.index_of(event_id@);
                assert forall|k: int| 0 <= k < self.store.sessions@.len() implies #[trigger] self.store.sessions@[k].threshold
                    == self.federation.threshold by {
                    if k != i {
                        assert(self.store.sessions@[k] == before.sessions@[k]);
                    } else {
                        assert(before.sessions@[k].threshold == self.federation.threshold);
                    }
                }
            }
        }
        r
    }

    /// Hands back the aggregated signature for the note `event_id` and
    /// whether it verified under the group key. Only a session at threshold
    /// takes it, so aggregation completes at most once per session.
    pub fn complete_aggregation(&mut self, event_id: &Vec<u8>, signature: Vec<u8>, verified: bool)
        -> (r: Result<(), SigningError>)
        requires
            old(self).wf(),
        ensures
            final(self).wf(),
            final(self).federation == old(self).federation,
            !old(self).store.has_session(event_id@) ==> r == Err::<(), SigningError>(
                SigningError::UnknownSession,
            ) && *final(self) == *old(self),
            old(self).store.has_session(event_id@) ==> {
                let i = old(self).store.index_of(event_id@);
                &&& SigningSessionStore::only_changed_at(&old(self).store, &final(self).store, i)
                &&& final(self).store.index_of(event_id@) == i
                &&& r == lift_aggregation(
                    SigningSession::aggregation_outcome(old(self).store.sessions@[i], verified),
                )
                &&& SigningSession::aggregated(
                    old(self).store.sessions@[i],
                    final(self).store.sessions@[i],
                    signature,
                    verified,
                )
            },
    {
        let ghost before = self.store;
        let r = self.store.complete_aggregation(event_id, signature, verified);
        proof {
            if before.has_session(event_id@) {
                let i = before.index_of(event_id@);
                assert forall|k: int| 0 <= k < self.store.sessions@.len() implies #[trigger] self.store.sessions@[k].threshold
                    == self.federation.threshold by {
                    if k != i {
                        assert(self.store.sessions@[k] == before.sessions@[k]);
                    } else {
                        assert(before.sessions@[k].threshold == self.federation.threshold);
                    }
                }
            }
        }
        r
    }

    /// What to publish for the note `event_id`: its content and aggregated
    /// signature, once there is one. A note already broadcast gives the same
    /// result again.
    pub fn broadcast_note(&self, event_id: &Vec<u8>) -> (r: Result<(Vec<u8>, Vec<u8>), SigningError>)
        requires
            self.wf(),
        ensures
            !self.store.has_session(event_id@) ==> r == Err::<(Vec<u8>, Vec<u8>), SigningError>(
                SigningError::UnknownSession,
            ),
            self.store.has_session(event_id@) ==> {
                let s = self.store.session(event_id@);
                &&& !SigningSession::has_signature_state(s.state) ==> r == Err::<
                    (Vec<u8>, Vec<u8>),
                    SigningError,
                >(SigningError::Broadcast(crate::session::BroadcastError::NotAggregated))
                &&& SigningSession::has_signature_state(s.state) ==> r.is_ok()
                    && r.unwrap().0@ == s.content@ && r.unwrap().1@ == s.signature.unwrap()@
            },
    {
        let i = match self.store.find(event_id) {
            None => return Err(SigningError::UnknownSession),
            Some(i) => i,
        };
        let s = &self.store.sessions[i];
        assert(s.wf());
        match &s.signature {
            None => Err(SigningError::Broadcast(crate::session::BroadcastError::NotAggregated)),
            Some(sig) => {
                let c = s.content.clone();
                let g = sig.clone();
                assert(c@ =~= s.content@);
                assert(g@ =~= sig@);
                Ok((c, g))
            },
        }
    }

    /// Hands back the outcome of publishing the note `event_id`. A failed
    /// publication leaves the session aggregated, to be retried without
    /// aggregating again.
    pub fn complete_broadcast(&mut self, event_id: &Vec<u8>, published: bool) -> (r: Result<
        (),
        SigningError,
    >)
        requires
            old(self).wf(),
        ensures
            final(self).wf(),
            final(self).federation == old(self).federation,
            !old(self).store.has_session(event_id@) ==> r == Err::<(), SigningError>(
                SigningError::UnknownSession,
            ) && *final(self) == *old(self),
            old(self).store.has_session(event_id@) ==> {
                let i = old(self).store.index_of(event_id@);
                &&& SigningSessionStore::only_changed_at(&old(self).store, &final(self).store, i)
                &&& final(self).store.index_of(event_id@) == i
                &&& r == lift_broadcast(
                    SigningSession::broadcast_outcome(old(self).store.sessions@[i], published),
                )
                &&& SigningSession::broadcasted(
                    old(self).store.sessions@[i],
                    final(self).store.sessions@[i],
                    published,
                )
            },
    {
        let ghost before = self.store;
        let r = self.store.complete_broadcast(event_id, published);
        proof {
            if before.has_session(event_id@) {
                let i = before.index_of(event_id@);
                assert forall|k: int| 0 <= k < self.store.sessions@.len() implies #[trigger] self.store.sessions@[k].threshold
                    == self.federation.threshold by {
                    if k != i {
                        assert(self.store.sessions@[k] == before.sessions@[k]);
                    } else {
                        assert(before.sessions@[k].threshold == self.federation.threshold);
                    }
                }
            }
        }
        r
    }

    /// The verified shares recorded for the note `event_id`, in ascending
    /// peer order.
    pub fn get_signing_sessions(&self, event_id: &Vec<u8>) -> (r: Result<Vec<SignatureShare>, SigningError>)
        requires
            self.wf(),
        ensures
            !self.store.has_session(event_id@) ==> r == Err::<Vec<SignatureShare>, SigningError>(
                SigningError::UnknownSession,
            ),
            self.store.has_session(event_id@) ==> r.is_ok() && shares_model(r.unwrap()@)
                == self.store.session(event_id@).share_list(),
    {
        let i = match self.store.find(event_id) {
            None => return Err(SigningError::UnknownSession),
            Some(i) => i,
        };
        let s = &self.store.sessions[i];
        let n = s.shares.len();
        let v = copy_prefix(&s.shares, n);
        assert(s.share_list().take(n as int) =~= s.share_list());
        Ok(v)
    }

    /// Reloads a session from its persisted record, as after a restart.
    /// Refused with `CorruptRecord` when the bytes are not the record of a
    /// well-formed session, with `ThresholdMismatch` when it was made under
    /// another threshold, and with `AlreadyExists` when its event already has
    /// a session; otherwise it joins the end of the store unchanged.
    pub fn restore_session(&mut self, record: &Vec<u8>) -> (r: Result<(), SigningError>)
        requires
            old(self).wf(),
        ensures
            final(self).wf(),
            final(self).federation == old(self).federation,
            match parse_record(record@) {
                None => r == Err::<(), SigningError>(SigningError::CorruptRecord) && *final(self)
                    == *old(self),
                Some(m) => if m.threshold != old(self).federation.threshold {
                    r == Err::<(), SigningError>(SigningError::ThresholdMismatch) && *final(self)
                        == *old(self)
                } else if old(self).store.has_session(m.event_id) {
                    r == Err::<(), SigningError>(SigningError::AlreadyExists) && *final(self)
                        == *old(self)
                } else {
                    &&& r == Ok::<(), SigningError>(())
                    &&& final(self).store.sessions@.drop_last() == old(self).store.sessions@
                    &&& session_model(final(self).store.sessions@.last()) == m
                },
            },
    {
        let s = match decode_session(record) {
            None => return Err(SigningError::CorruptRecord),
            Some(s) => s,
        };
        if s.threshold != self.federation.threshold {
            return Err(SigningError::ThresholdMismatch);
        }
        let ghost before = self.store;
        let ghost sg = s;
        match self.store.insert_session(s) {
            Err(e) => Err(e),
            Ok(_) => {
                proof {
                    assert(self.store.sessions@.drop_last() =~= before.sessions@);
                    assert forall|k: int| 0 <= k < self.store.sessions@.len() implies #[trigger] self.store.sessions@[k].threshold
                        == self.federation.threshold by {
                        if k < before.sessions@.len() {
                            assert(self.store.sessions@[k] == before.sessions@[k]);
                        }
                    }
                }
                Ok(())
            },
        }
    }

    /// The persisted record of the session for `event_id`.
    pub fn session_record(&self, event_id: &Vec<u8>) -> (r: Result<Vec<u8>, SigningError>)
        requires
            self.wf(),
        ensures
            !self.store.has_session(event_id@) ==> r == Err::<Vec<u8>, SigningError>(
                SigningError::UnknownSession,
            ),
            self.store.has_session(event_id@) ==> r.is_ok() && r.unwrap()@
                == crate::record::record_bytes(session_model(self.store.session(event_id@))),
    {
        let i = match self.store.find(event_id) {
            None => return Err(SigningError::UnknownSession),
            Some(i) => i,
        };
        Ok(crate::record::encode_session(&self.store.sessions[i]))
    }
}

} // verus!
