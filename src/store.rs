//! The session store: one signing session per event id, each updated only
//! through the session's own transitions.

use vstd::prelude::*;
use crate::session::{
    SigningSession, SessionState, ShareError, AggregationError, BroadcastError,
};
use crate::share::{SignatureShare, share_model};

verus! {

/// Why a store or coordinator operation did not go through.
#[derive(Debug, Clone, Copy, PartialEq, Eq, Structural)]
pub enum SigningError {
    /// No session exists for the event id.
    UnknownSession,
    /// A live session already exists for the event id.
    AlreadyExists,
    /// The share's peer is not a guardian of the federation.
    UnknownPeer,
    /// A persisted record does not hold a well-formed session.
    CorruptRecord,
    /// A persisted session was made under another threshold.
    ThresholdMismatch,
    /// The session has failed and cannot complete.
    SessionFailed,
    /// Too few guardians remain trusted for the threshold to be reached;
    /// the session has failed for good.
    QuorumUnreachable,
    Share(ShareError),
    Aggregation(AggregationError),
    Broadcast(BroadcastError),
}

/// A session's share outcome as the store reports it.
pub open spec fn lift_share(o: Result<SessionState, ShareError>) -> Result<SessionState, SigningError> {
    match o {
        Ok(s) => Ok(s),
        Err(e) => Err(SigningError::Share(e)),
    }
}

/// A session's aggregation outcome as the store reports it.
pub open spec fn lift_aggregation(o: Result<(), AggregationError>) -> Result<(), SigningError> {
    match o {
        Ok(()) => Ok(()),
        Err(e) => Err(SigningError::Aggregation(e)),
    }
}

/// A session's publication outcome as the store reports it.
pub open spec fn lift_broadcast(o: Result<(), BroadcastError>) -> Result<(), SigningError> {
    match o {
        Ok(()) => Ok(()),
        Err(e) => Err(SigningError::Broadcast(e)),
    }
}

/// Whether two byte strings are equal.
pub fn bytes_eq(a: &Vec<u8>, b: &Vec<u8>) -> (r: bool)
    ensures
        r == (a@ == b@),
{
    if a.len() != b.len() {
        return false;
    }
    let mut i: usize = 0;
    while i < a.len()
        invariant
            i <= a@.len(),
            a@.len() == b@.len(),
            forall|k: int| 0 <= k < i ==> a@[k] == b@[k],
        decreases a@.len() - i,
    {
        if a[i] != b[i] {
            return false;
        }
        i = i + 1;
    }
    assert(a@ =~= b@);
    true
}

/// Signing sessions, at most one per event id.
#[derive(Debug)]
pub struct SigningSessionStore {
    pub sessions: Vec<SigningSession>,
}

impl SigningSessionStore {
    /// Every session is well formed, and no two share an event id.
    pub open spec fn wf(&self) -> bool {
        &&& forall|i: int| 0 <= i < self.sessions@.len() ==> #[trigger] self.sessions@[i].wf()
        &&& forall|i: int, j: int|
            0 <= i < j < self.sessions@.len() ==> self.sessions@[i].event_id@
                != self.sessions@[j].event_id@
    }

    /// Some session belongs to event `id`.
    pub open spec fn has_session(&self, id: Seq<u8>) -> bool {
        exists|i: int| 0 <= i < self.sessions@.len() && self.sessions@[i].event_id@ == id
    }

    /// The position of the session for `id`.
    pub open spec fn index_of(&self, id: Seq<u8>) -> int {
        choose|i: int| 0 <= i < self.sessions@.len() && self.sessions@[i].event_id@ == id
    }

    /// The session for `id`.
    pub open spec fn session(&self, id: Seq<u8>) -> SigningSession {
        self.sessions@[self.index_of(id)]
    }

    /// A session for `id` exists and has not failed.
    pub open spec fn has_live_session(&self, id: Seq<u8>) -> bool {
        self.has_session(id) && self.session(id).state != SessionState::Failed
    }

    /// `b` is `a` with only the session at `i` replaced.
    pub open spec fn only_changed_at(a: &SigningSessionStore, b: &SigningSessionStore, i: int) -> bool {
        &&& 0 <= i < a.sessions@.len()
        &&& b.sessions@ == a.sessions@.update(i, b.sessions@[i])
    }

    /// With unique ids, the session found at `i` is the one `index_of` names.
    pub proof fn lemma_index_of(&self, id: Seq<u8>, i: int)
        requires
            self.wf(),
            0 <= i < self.sessions@.len(),
            self.sessions@[i].event_id@ == id,
        ensures
            self.has_session(id),
            self.index_of(id) == i,
    {
        let j = self.index_of(id);
        assert(self.sessions@[j].event_id@ == id);
        if i < j {
        } else if j < i {
        }
    }

    /// An empty store.
    pub fn new() -> (r: SigningSessionStore)
        ensures
            r.wf(),
            r.sessions@.len() == 0,
    {
        SigningSessionStore { sessions: Vec::new() }
    }

    /// The position of the session for `id`, if there is one.
    pub fn find(&self, id: &Vec<u8>) -> (r: Option<usize>)
        requires
            self.wf(),
        ensures
            r.is_some() <==> self.has_session(id@),
            r.is_some() ==> r.unwrap() == self.index_of(id@),
    {
        let mut i: usize = 0;
        while i < self.sessions.len()
            invariant
                i <= self.sessions@.len(),
                self.wf(),
                forall|k: int| 0 <= k < i ==> self.sessions@[k].event_id@ != id@,
            decreases self.sessions@.len() - i,
        {
            if bytes_eq(&self.sessions[i].event_id, id) {
                proof {
                    self.lemma_index_of(id@, i as int);
                }
                return Some(i);
            }
            i = i + 1;
        }
        None
    }

    /// Opens a session for `event_id`, refused with `AlreadyExists` while a
    /// live one exists; a failed one is replaced. Returns where it stands.
    pub fn create(&mut self, event_id: Vec<u8>, content: Vec<u8>, created_at: u64, threshold: u64)
        -> (r: Result<usize, SigningError>)
        requires
            old(self).wf(),
            threshold >= 1,
        ensures
            final(self).wf(),
            old(self).has_live_session(event_id@) ==> r == Err::<usize, SigningError>(
                SigningError::AlreadyExists,
            ) && *final(self) == *old(self),
            !old(self).has_live_session(event_id@) ==> {
                &&& r.is_ok()
                &&& r.unwrap() == final(self).index_of(event_id@)
                &&& final(self).has_session(event_id@)
                &&& old(self).has_session(event_id@) ==> r.unwrap() == old(self).index_of(
                    event_id@,
                ) && Self::only_changed_at(old(self), final(self), r.unwrap() as int)
                &&& !old(self).has_session(event_id@) ==> r.unwrap() == old(self).sessions@.len()
                    && final(self).sessions@.drop_last() == old(self).sessions@
                &&& Self::is_fresh(
                    final(self).session(event_id@),
                    event_id@,
                    content@,
                    created_at,
                    threshold,
                )
            },
    {
        let found = self.find(&event_id);
        match found {
            Some(i) => {
                if self.sessions[i].state != SessionState::Failed {
                    return Err(SigningError::AlreadyExists);
                }
                let ghost id = event_id@;
                let s = SigningSession::new(event_id, content, created_at, threshold);
                self.sessions.set(i, s);
                proof {
                    assert forall|a: int, b: int|
                        0 <= a < b < self.sessions@.len() implies self.sessions@[a].event_id@
                        != self.sessions@[b].event_id@ by {
                        assert(old(self).sessions@[a].event_id@ != old(self).sessions@[b].event_id@);
                    }
                    assert forall|k: int| 0 <= k < self.sessions@.len() implies #[trigger] self.sessions@[k].wf() by {
                        if k != i {
                            assert(old(self).sessions@[k].wf());
                        }
                    }
                    self.lemma_index_of(id, i as int);
                }
                Ok(i)
            },
            None => {
                let ghost id = event_id@;
                let n = self.sessions.len();
                let s = SigningSession::new(event_id, content, created_at, threshold);
                self.sessions.push(s);
                proof {
                    assert forall|a: int, b: int|
                        0 <= a < b < self.sessions@.len() implies self.sessions@[a].event_id@
                        != self.sessions@[b].event_id@ by {
                        if b < n {
                            assert(old(self).sessions@[a].event_id@ != old(self).sessions@[b].event_id@);
                        } else {
                            assert(old(self).sessions@[a].event_id@ != id);
                        }
                    }
                    assert forall|k: int| 0 <= k < self.sessions@.len() implies #[trigger] self.sessions@[k].wf() by {
                        if k < n {
                            assert(old(self).sessions@[k].wf());
                        }
                    }
                    self.lemma_index_of(id, n as int);
                    assert(self.sessions@.drop_last() =~= old(self).sessions@);
                }
                Ok(n)
            },
        }
    }

    /// A session as `SigningSession::new` makes it.
    pub open spec fn is_fresh(
        s: SigningSession,
        event_id: Seq<u8>,
        content: Seq<u8>,
        created_at: u64,
        threshold: u64,
    ) -> bool {
        &&& s.event_id@ == event_id
        &&& s.content@ == content
        &&& s.created_at == created_at
        &&& s.threshold == threshold
        &&& s.shares@.len() == 0
        &&& s.warned@.len() == 0
        &&& s.excluded@.len() == 0
        &&& s.state == SessionState::Pending
        &&& s.signature.is_none()
    }

    /// Replacing one session by a well-formed one with the same event id
    /// keeps the store well formed.
    pub proof fn lemma_replace(a: &SigningSessionStore, b: &SigningSessionStore, i: int)
        requires
            a.wf(),
            Self::only_changed_at(a, b, i),
            b.sessions@[i].wf(),
            b.sessions@[i].event_id@ == a.sessions@[i].event_id@,
        ensures
            b.wf(),
            b.index_of(a.sessions@[i].event_id@) == i,
    {
        assert forall|x: int, y: int|
            0 <= x < y < b.sessions@.len() implies b.sessions@[x].event_id@
            != b.sessions@[y].event_id@ by {
            assert(a.sessions@[x].event_id@ != a.sessions@[y].event_id@);
        }
        assert forall|k: int| 0 <= k < b.sessions@.len() implies #[trigger] b.sessions@[k].wf() by {
            if k != i {
                assert(a.sessions@[k].wf());
            }
        }
        b.lemma_index_of(a.sessions@[i].event_id@, i);
    }

    /// The session for `id`.
    pub fn get(&self, id: &Vec<u8>) -> (r: Result<&SigningSession, SigningError>)
        requires
            self.wf(),
        ensures
            !self.has_session(id@) ==> r == Err::<&SigningSession, SigningError>(
                SigningError::UnknownSession,
            ),
            self.has_session(id@) ==> r == Ok::<&SigningSession, SigningError>(
                &self.session(id@),
            ),
    {
        match self.find(id) {
            None => Err(SigningError::UnknownSession),
            Some(i) => Ok(&self.sessions[i]),
        }
    }

    /// Records a share for the session of `id`, as
    /// `SigningSession::record_share` does.
    pub fn record_share(&mut self, id: &Vec<u8>, share: SignatureShare, valid: bool) -> (r: Result<
        SessionState,
        SigningError,
    >)
        requires
            old(self).wf(),
        ensures
            final(self).wf(),
            !old(self).has_session(id@) ==> r == Err::<SessionState, SigningError>(
                SigningError::UnknownSession,
            ) && *final(self) == *old(self),
            old(self).has_session(id@) ==> {
                let i = old(self).index_of(id@);
                &&& Self::only_changed_at(old(self), final(self), i)
                &&& final(self).index_of(id@) == i
                &&& r == lift_share(
                    SigningSession::share_outcome(old(self).sessions@[i], share.peer_id, valid),
                )
                &&& SigningSession::recorded(
                    old(self).sessions@[i],
                    final(self).sessions@[i],
                    share_model(share),
                    valid,
                )
            },
    {
        match self.find(id) {
            None => Err(SigningError::UnknownSession),
            Some(i) => {
                assert(self.sessions@[i as int].wf());
                let o = self.sessions[i].record_share(share, valid);
                proof {
                    Self::lemma_replace(old(self), self, i as int);
                }
                match o {
                    Ok(st) => Ok(st),
                    Err(e) => Err(SigningError::Share(e)),
                }
            },
        }
    }

    /// Hands the outcome of aggregation to the session of `id`, as
    /// `SigningSession::complete_aggregation` does.
    pub fn complete_aggregation(&mut self, id: &Vec<u8>, signature: Vec<u8>, verified: bool) -> (r:
        Result<(), SigningError>)
        requires
            old(self).wf(),
        ensures
            final(self).wf(),
            !old(self).has_session(id@) ==> r == Err::<(), SigningError>(
                SigningError::UnknownSession,
            ) && *final(self) == *old(self),
            old(self).has_session(id@) ==> {
                let i = old(self).index_of(id@);
                &&& Self::only_changed_at(old(self), final(self), i)
                &&& final(self).index_of(id@) == i
                &&& r == lift_aggregation(
                    SigningSession::aggregation_outcome(old(self).sessions@[i], verified),
                )
                &&& SigningSession::aggregated(
                    old(self).sessions@[i],
                    final(self).sessions@[i],
                    signature,
                    verified,
                )
            },
    {
        match self.find(id) {
            None => Err(SigningError::UnknownSession),
            Some(i) => {
                assert(self.sessions@[i as int].wf());
                let o = self.sessions[i].complete_aggregation(signature, verified);
                proof {
                    Self::lemma_replace(old(self), self, i as int);
                }
                match o {
                    Ok(()) => Ok(()),
                    Err(e) => Err(SigningError::Aggregation(e)),
                }
            },
        }
    }

    /// Hands the outcome of publication to the session of `id`, as
    /// `SigningSession::complete_broadcast` does.
    pub fn complete_broadcast(&mut self, id: &Vec<u8>, published: bool) -> (r: Result<
        (),
        SigningError,
    >)
        requires
            old(self).wf(),
        ensures
            final(self).wf(),
            !old(self).has_session(id@) ==> r == Err::<(), SigningError>(
                SigningError::UnknownSession,
            ) && *final(self) == *old(self),
            old(self).has_session(id@) ==> {
                let i = old(self).index_of(id@);
                &&& Self::only_changed_at(old(self), final(self), i)
                &&& final(self).index_of(id@) == i
                &&& r == lift_broadcast(
                    SigningSession::broadcast_outcome(old(self).sessions@[i], published),
                )
                &&& SigningSession::broadcasted(
                    old(self).sessions@[i],
                    final(self).sessions@[i],
                    published,
                )
            },
    {
        match self.find(id) {
            None => Err(SigningError::UnknownSession),
            Some(i) => {
                assert(self.sessions@[i as int].wf());
                let o = self.sessions[i].complete_broadcast(published);
                proof {
                    Self::lemma_replace(old(self), self, i as int);
                }
                match o {
                    Ok(()) => Ok(()),
                    Err(e) => Err(SigningError::Broadcast(e)),
                }
            },
        }
    }

    /// Gives up the session at position `i`, as `SigningSession::abandon` does.
    pub fn abandon_at(&mut self, i: usize) -> (r: bool)
        requires
            old(self).wf(),
            i < old(self).sessions@.len(),
        ensures
            final(self).wf(),
            Self::only_changed_at(old(self), final(self), i as int),
            r == (old(self).sessions@[i as int].state == SessionState::Pending),
            SigningSession::abandoned(old(self).sessions@[i as int], final(self).sessions@[i as int]),
    {
        assert(self.sessions@[i as int].wf());
        let r = self.sessions[i].abandon();
        proof {
            Self::lemma_replace(old(self), self, i as int);
        }
        r
    }

    /// Adds a session for an event id that has none, as when sessions are
    /// reloaded after a restart; refused with `AlreadyExists` otherwise.
    pub fn insert_session(&mut self, s: SigningSession) -> (r: Result<usize, SigningError>)
        requires
            old(self).wf(),
            s.wf(),
        ensures
            final(self).wf(),
            old(self).has_session(s.event_id@) ==> r == Err::<usize, SigningError>(
                SigningError::AlreadyExists,
            ) && *final(self) == *old(self),
            !old(self).has_session(s.event_id@) ==> r == Ok::<usize, SigningError>(
                old(self).sessions@.len() as usize,
            ) && final(self).sessions@ == old(self).sessions@.push(s),
    {
        if self.find(&s.event_id).is_some() {
            return Err(SigningError::AlreadyExists);
        }
        let n = self.sessions.len();
        let ghost id = s.event_id@;
        self.sessions.push(s);
        proof {
            assert forall|a: int, b: int|
                0 <= a < b < self.sessions@.len() implies self.sessions@[a].event_id@
                != self.sessions@[b].event_id@ by {
                if b < n {
                    assert(old(self).sessions@[a].event_id@ != old(self).sessions@[b].event_id@);
                } else {
                    assert(old(self).sessions@[a].event_id@ != id);
                }
            }
            assert forall|k: int| 0 <= k < self.sessions@.len() implies #[trigger] self.sessions@[k].wf() by {
                if k < n {
                    assert(old(self).sessions@[k].wf());
                }
            }
        }
        Ok(n)
    }
}

} // verus!
