//! The signing session of one event: the verified shares collected so far,
//! the peers whose shares failed verification, and the lifecycle
//! `Pending -> ThresholdReached -> Aggregated -> Broadcast`, or `Failed`.

use vstd::prelude::*;
use crate::share::{
    lemma_ascending_determined,
    SignatureShare, share_model, shares_model, ascending, has_peer, selected, contains_peer,
    holds_peer, insert_share, copy_prefix,
};

verus! {

/// Where a session stands in its lifecycle.
#[derive(Debug, Clone, Copy, PartialEq, Eq, Structural)]
pub enum SessionState {
    /// Fewer than threshold verified shares so far.
    Pending,
    /// At least threshold verified shares; aggregation may run.
    ThresholdReached,
    /// The aggregated signature is verified and stored.
    Aggregated,
    /// The aggregated signature was published.
    Broadcast,
    /// The session cannot complete.
    Failed,
}

/// Why a share was not recorded.
#[derive(Debug, Clone, Copy, PartialEq, Eq, Structural)]
pub enum ShareError {
    /// The session has failed and takes no more shares.
    SessionFailed,
    /// The peer sent invalid shares twice and is no longer trusted.
    ExcludedPeer,
    /// The peer already supplied a share for this event.
    DuplicatePeer,
    /// The share did not verify against the peer's public share.
    InvalidShare,
}

/// Why an aggregation result was not taken.
#[derive(Debug, Clone, Copy, PartialEq, Eq, Structural)]
pub enum AggregationError {
    /// Fewer than threshold shares are present.
    NotReady,
    /// The session already holds an aggregated signature.
    AlreadyAggregated,
    /// The session has failed.
    SessionFailed,
    /// The aggregated signature did not verify under the group key.
    VerificationFailed,
}

/// Why a publication result was not taken.
#[derive(Debug, Clone, Copy, PartialEq, Eq, Structural)]
pub enum BroadcastError {
    /// There is no aggregated signature to publish.
    NotAggregated,
    /// Publication failed; the session stays aggregated for a later retry.
    PublishFailed,
}

/// The signing progress of one event.
#[derive(Debug)]
pub struct SigningSession {
    pub event_id: Vec<u8>,
    pub content: Vec<u8>,
    pub created_at: u64,
    /// Number of verified shares that aggregation needs.
    pub threshold: u64,
    /// Verified shares, ascending by peer id.
    pub shares: Vec<SignatureShare>,
    /// Peers that sent one invalid share.
    pub warned: Vec<u16>,
    /// Peers that sent two invalid shares.
    pub excluded: Vec<u16>,
    pub state: SessionState,
    /// The aggregated signature, once there is one.
    pub signature: Option<Vec<u8>>,
}

impl SigningSession {
    /// The verified shares, in ascending peer order.
    pub open spec fn share_list(&self) -> Seq<(u16, Seq<u8>)> {
        shares_model(self.shares@)
    }

    /// The states in which the session holds its aggregated signature.
    pub open spec fn has_signature_state(s: SessionState) -> bool {
        s == SessionState::Aggregated || s == SessionState::Broadcast
    }

    /// A positive threshold, shares ascending by peer, a state that agrees
    /// with the share count, and a signature exactly once aggregated.
    pub open spec fn wf(&self) -> bool {
        &&& self.threshold >= 1
        &&& ascending(self.share_list())
        &&& self.state == SessionState::Pending ==> self.shares@.len() < self.threshold
        &&& (self.state == SessionState::ThresholdReached || Self::has_signature_state(self.state))
            ==> self.shares@.len() >= self.threshold
        &&& self.signature.is_some() <==> Self::has_signature_state(self.state)
    }

    /// Whether this session still asks peer `p` for a share.
    pub open spec fn wants_share_from(&self, p: u16) -> bool {
        &&& self.state == SessionState::Pending
        &&& !has_peer(self.share_list(), p)
        &&& !self.excluded@.contains(p)
    }

    /// The state after a share is added to a list of `n` shares.
    pub open spec fn state_after_share(s: SessionState, n: nat, t: nat) -> SessionState {
        if s == SessionState::Pending && n >= t {
            SessionState::ThresholdReached
        } else {
            s
        }
    }

    /// The same session with only its share list, strikes and state moved on.
    pub open spec fn same_record(a: &SigningSession, b: &SigningSession) -> bool {
        &&& a.event_id@ == b.event_id@
        &&& a.content@ == b.content@
        &&& a.created_at == b.created_at
        &&& a.threshold == b.threshold
    }

    /// A fresh session with no shares.
    pub fn new(event_id: Vec<u8>, content: Vec<u8>, created_at: u64, threshold: u64) -> (r:
        SigningSession)
        requires
            threshold >= 1,
        ensures
            r.wf(),
            r.event_id@ == event_id@,
            r.content@ == content@,
            r.created_at == created_at,
            r.threshold == threshold,
            r.shares@.len() == 0,
            r.warned@.len() == 0,
            r.excluded@.len() == 0,
            r.state == SessionState::Pending,
            r.signature.is_none(),
    {
        SigningSession {
            event_id,
            content,
            created_at,
            threshold,
            shares: Vec::new(),
            warned: Vec::new(),
            excluded: Vec::new(),
            state: SessionState::Pending,
            signature: None,
        }
    }

    /// Whether the session still asks peer `p` for a share: it is below
    /// threshold, has no share from `p`, and `p` is not excluded.
    pub fn needs_share_from(&self, p: u16) -> (r: bool)
        requires
            self.wf(),
        ensures
            r == self.wants_share_from(p),
    {
        self.state == SessionState::Pending && !holds_peer(&self.shares, p) && !contains_peer(
            &self.excluded,
            p,
        )
    }

    /// What recording a share from `p` that verified as `valid` returns.
    pub open spec fn share_outcome(s: SigningSession, p: u16, valid: bool) -> Result<
        SessionState,
        ShareError,
    > {
        if s.state == SessionState::Failed {
            Err(ShareError::SessionFailed)
        } else if s.excluded@.contains(p) {
            Err(ShareError::ExcludedPeer)
        } else if has_peer(s.share_list(), p) {
            Err(ShareError::DuplicatePeer)
        } else if !valid {
            Err(ShareError::InvalidShare)
        } else {
            Ok(Self::state_after_share(s.state, s.shares@.len() + 1, s.threshold as nat))
        }
    }

    /// How recording `share` that verified as `valid` takes `a` to `b`: a
    /// counted share joins the list; an invalid one gives its peer a strike,
    /// and a second strike excludes it; otherwise nothing changes.
    pub open spec fn recorded(
        a: SigningSession,
        b: SigningSession,
        share: (u16, Seq<u8>),
        valid: bool,
    ) -> bool {
        let p = share.0;
        &&& Self::same_record(&b, &a)
        &&& match Self::share_outcome(a, p, valid) {
            Ok(st) => {
                &&& b.state == st
                &&& b.shares@.len() == a.shares@.len() + 1
                &&& forall|x: (u16, Seq<u8>)|
                    b.share_list().contains(x) <==> (a.share_list().contains(x) || x == share)
                &&& b.warned@ == a.warned@
                &&& b.excluded@ == a.excluded@
                &&& b.signature == a.signature
            },
            Err(ShareError::InvalidShare) => {
                &&& b.shares@ == a.shares@
                &&& b.state == a.state
                &&& b.signature == a.signature
                &&& b.warned@ == (if a.warned@.contains(p) {
                    a.warned@
                } else {
                    a.warned@.push(p)
                })
                &&& b.excluded@ == (if a.warned@.contains(p) {
                    a.excluded@.push(p)
                } else {
                    a.excluded@
                })
            },
            Err(_) => b == a,
        }
    }

    /// Records a share whose verification against its peer's public share
    /// gave `valid`. A share is counted only when it verified, its peer is not
    /// excluded and has no share yet, and the session has not failed.
    pub fn record_share(&mut self, share: SignatureShare, valid: bool) -> (r: Result<
        SessionState,
        ShareError,
    >)
        requires
            old(self).wf(),
        ensures
            final(self).wf(),
            r == Self::share_outcome(*old(self), share.peer_id, valid),
            Self::recorded(*old(self), *final(self), share_model(share), valid),
    {
        if self.state == SessionState::Failed {
            return Err(ShareError::SessionFailed);
        }
        let p = share.peer_id;
        if contains_peer(&self.excluded, p) {
            return Err(ShareError::ExcludedPeer);
        }
        if holds_peer(&self.shares, p) {
            return Err(ShareError::DuplicatePeer);
        }
        if !valid {
            if contains_peer(&self.warned, p) {
                self.excluded.push(p);
            } else {
                self.warned.push(p);
            }
            return Err(ShareError::InvalidShare);
        }
        insert_share(&mut self.shares, share);
        if self.state == SessionState::Pending && self.shares.len() as u64 >= self.threshold {
            self.state = SessionState::ThresholdReached;
        }
        Ok(self.state)
    }

    /// The shares to aggregate: the first threshold shares in ascending peer
    /// order, offered only while the threshold is reached and no signature
    /// is stored.
    pub fn aggregation_shares(&self) -> (r: Option<Vec<SignatureShare>>)
        requires
            self.wf(),
        ensures
            r.is_some() <==> self.state == SessionState::ThresholdReached,
            r.is_some() ==> shares_model(r.unwrap()@) == selected(
                self.share_list(),
                self.threshold as nat,
            ),
            r.is_some() ==> r.unwrap()@.len() == self.threshold,
    {
        if self.state == SessionState::ThresholdReached {
            let n: usize = self.shares.len();
            assert(self.threshold <= n);
            let t: usize = self.threshold as usize;
            let v = copy_prefix(&self.shares, t);
            assert(shares_model(v@).len() == v@.len());
            assert(self.share_list().take(t as int).len() == t);
            Some(v)
        } else {
            None
        }
    }

    /// What handing in an aggregated signature that verified as `verified` returns.
    pub open spec fn aggregation_outcome(s: SigningSession, verified: bool) -> Result<
        (),
        AggregationError,
    > {
        match s.state {
            SessionState::Pending => Err(AggregationError::NotReady),
            SessionState::Aggregated | SessionState::Broadcast => Err(
                AggregationError::AlreadyAggregated,
            ),
            SessionState::Failed => Err(AggregationError::SessionFailed),
            SessionState::ThresholdReached => if verified {
                Ok(())
            } else {
                Err(AggregationError::VerificationFailed)
            },
        }
    }

    /// How handing in `signature` takes `a` to `b`: a session at threshold
    /// becomes `Aggregated` holding it when it verified and `Failed`
    /// otherwise; any other session is left as it was.
    pub open spec fn aggregated(
        a: SigningSession,
        b: SigningSession,
        signature: Vec<u8>,
        verified: bool,
    ) -> bool {
        if a.state == SessionState::ThresholdReached {
            if verified {
                b == SigningSession {
                    state: SessionState::Aggregated,
                    signature: Some(signature),
                    ..a
                }
            } else {
                b == SigningSession { state: SessionState::Failed, ..a }
            }
        } else {
            b == a
        }
    }

    /// Takes the outcome of aggregation: `signature`, and whether it verified
    /// under the group key.
    pub fn complete_aggregation(&mut self, signature: Vec<u8>, verified: bool) -> (r: Result<
        (),
        AggregationError,
    >)
        requires
            old(self).wf(),
        ensures
            final(self).wf(),
            r == Self::aggregation_outcome(*old(self), verified),
            Self::aggregated(*old(self), *final(self), signature, verified),
    {
        match self.state {
            SessionState::Pending => Err(AggregationError::NotReady),
            SessionState::Aggregated | SessionState::Broadcast => Err(
                AggregationError::AlreadyAggregated,
            ),
            SessionState::Failed => Err(AggregationError::SessionFailed),
            SessionState::ThresholdReached => {
                if verified {
                    self.signature = Some(signature);
                    self.state = SessionState::Aggregated;
                    Ok(())
                } else {
                    self.state = SessionState::Failed;
                    Err(AggregationError::VerificationFailed)
                }
            },
        }
    }

    /// What handing in a publication attempt that succeeded as `published` returns.
    pub open spec fn broadcast_outcome(s: SigningSession, published: bool) -> Result<
        (),
        BroadcastError,
    > {
        match s.state {
            SessionState::Aggregated => if published {
                Ok(())
            } else {
                Err(BroadcastError::PublishFailed)
            },
            SessionState::Broadcast => Ok(()),
            _ => Err(BroadcastError::NotAggregated),
        }
    }

    /// How a publication attempt takes `a` to `b`: an aggregated session
    /// becomes `Broadcast` when it was published; otherwise nothing changes,
    /// so a failed publication can be retried without aggregating again.
    pub open spec fn broadcasted(a: SigningSession, b: SigningSession, published: bool) -> bool {
        if a.state == SessionState::Aggregated && published {
            b == SigningSession { state: SessionState::Broadcast, ..a }
        } else {
            b == a
        }
    }

    /// Takes the outcome of publishing the aggregated signature.
    pub fn complete_broadcast(&mut self, published: bool) -> (r: Result<(), BroadcastError>)
        requires
            old(self).wf(),
        ensures
            final(self).wf(),
            r == Self::broadcast_outcome(*old(self), published),
            Self::broadcasted(*old(self), *final(self), published),
    {
        match self.state {
            SessionState::Aggregated => {
                if published {
                    self.state = SessionState::Broadcast;
                    Ok(())
                } else {
                    Err(BroadcastError::PublishFailed)
                }
            },
            SessionState::Broadcast => Ok(()),
            _ => Err(BroadcastError::NotAggregated),
        }
    }

    /// How giving up takes `a` to `b`: only a pending session fails.
    pub open spec fn abandoned(a: SigningSession, b: SigningSession) -> bool {
        if a.state == SessionState::Pending {
            b == SigningSession { state: SessionState::Failed, ..a }
        } else {
            b == a
        }
    }

    /// Gives up a session that can no longer reach its threshold; tells
    /// whether it failed.
    pub fn abandon(&mut self) -> (r: bool)
        requires
            old(self).wf(),
        ensures
            final(self).wf(),
            r == (old(self).state == SessionState::Pending),
            Self::abandoned(*old(self), *final(self)),
    {
        if self.state == SessionState::Pending {
            self.state = SessionState::Failed;
            true
        } else {
            false
        }
    }

    /// A session reaches its threshold on the share that brings it to
    /// threshold many verified shares.
    pub proof fn lemma_threshold_reached(
        a: SigningSession,
        b: SigningSession,
        share: (u16, Seq<u8>),
    )
        requires
            a.wf(),
            a.state == SessionState::Pending,
            Self::recorded(a, b, share, true),
            Self::share_outcome(a, share.0, true) is Ok,
            b.shares@.len() >= a.threshold,
        ensures
            b.state == SessionState::ThresholdReached,
    {
    }

    /// Aggregation never completes with fewer than threshold verified shares,
    /// and a session holds a newly aggregated signature only when it verified
    /// under the group key.
    pub proof fn lemma_aggregation_needs_threshold(
        a: SigningSession,
        b: SigningSession,
        signature: Vec<u8>,
        verified: bool,
    )
        requires
            a.wf(),
            Self::aggregated(a, b, signature, verified),
            b.state == SessionState::Aggregated,
        ensures
            b.shares@.len() >= b.threshold,
            b.share_list() == a.share_list(),
            a.state != SessionState::Aggregated ==> verified && b.signature == Some(signature),
    {
    }

    /// An invalid share is never counted: the share list stays as it was.
    pub proof fn lemma_invalid_share_not_counted(
        a: SigningSession,
        b: SigningSession,
        share: (u16, Seq<u8>),
    )
        requires
            Self::recorded(a, b, share, false),
        ensures
            b.shares@ == a.shares@,
            b.state == a.state,
    {
    }

    /// The order in which two shares arrive does not matter: recording `x`
    /// then `y`, or `y` then `x`, gives the same share list, and so the same
    /// shares for aggregation.
    pub proof fn lemma_arrival_order(
        s0: SigningSession,
        s1: SigningSession,
        s2: SigningSession,
        t1: SigningSession,
        t2: SigningSession,
        x: (u16, Seq<u8>),
        y: (u16, Seq<u8>),
    )
        requires
            s0.wf(),
            s1.wf(),
            s2.wf(),
            t1.wf(),
            t2.wf(),
            Self::recorded(s0, s1, x, true),
            Self::recorded(s1, s2, y, true),
            Self::recorded(s0, t1, y, true),
            Self::recorded(t1, t2, x, true),
            Self::share_outcome(s0, x.0, true) is Ok,
            Self::share_outcome(s1, y.0, true) is Ok,
            Self::share_outcome(s0, y.0, true) is Ok,
            Self::share_outcome(t1, x.0, true) is Ok,
        ensures
            s2.share_list() == t2.share_list(),
            selected(s2.share_list(), s2.threshold as nat) == selected(
                t2.share_list(),
                t2.threshold as nat,
            ),
    {
        assert forall|z: (u16, Seq<u8>)| s2.share_list().contains(z) <==> t2.share_list().contains(
            z,
        ) by {}
        lemma_ascending_determined(s2.share_list(), t2.share_list());
    }

    /// Once a session holds an aggregated signature, a second hand-in of an
    /// aggregation result never replaces it: a session yields at most one
    /// aggregated signature.
    pub proof fn lemma_aggregation_once(
        a: SigningSession,
        b: SigningSession,
        c: SigningSession,
        sig1: Vec<u8>,
        ok1: bool,
        sig2: Vec<u8>,
        ok2: bool,
    )
        requires
            Self::aggregated(a, b, sig1, ok1),
            Self::aggregated(b, c, sig2, ok2),
        ensures
            c == b,
    {
    }
}

} // verus!
