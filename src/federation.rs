//! The federation directory: its guardians, threshold and group key; the
//! admin's peer id as typed in; and the choice between reopening a joined
//! federation and joining afresh.

use vstd::prelude::*;
use vstd::string::StringSliceAdditionalSpecFns;

verus! {

/// One guardian of the federation.
#[derive(Debug)]
pub struct GuardianPeer {
    pub peer_id: u16,
    /// The key against which this guardian's signature shares verify.
    pub public_share: Vec<u8>,
}

/// A federation's public configuration.
#[derive(Debug)]
pub struct FederationDescriptor {
    pub federation_id: Vec<u8>,
    /// Guardians in ascending peer order.
    pub guardians: Vec<GuardianPeer>,
    /// Number of valid shares needed for a signature.
    pub threshold: u64,
    pub group_public_key: Vec<u8>,
}

/// Why a federation configuration was refused.
#[derive(Debug, Clone, Copy, PartialEq, Eq, Structural)]
pub enum ConfigError {
    /// The threshold is zero or above the number of guardians.
    ThresholdOutOfRange,
    /// Guardian peer ids are not strictly ascending, so some repeat.
    GuardiansOutOfOrder,
    /// Some guardian has an empty public share.
    MalformedPublicShare,
}

/// What to do when asked to join a federation.
#[derive(Debug, Clone, Copy, PartialEq, Eq, Structural)]
pub enum JoinPlan {
    /// Local state already holds the federation: reopen it from there.
    OpenExisting,
    /// Fetch the configuration through the invite and join.
    DownloadAndJoin,
}

/// Local state takes precedence: a client that is already initialized
/// reopens its stored federation rather than fetching the configuration again.
pub fn join_plan(is_initialized: bool) -> (r: JoinPlan)
    ensures
        r == (if is_initialized {
            JoinPlan::OpenExisting
        } else {
            JoinPlan::DownloadAndJoin
        }),
{
    if is_initialized {
        JoinPlan::OpenExisting
    } else {
        JoinPlan::DownloadAndJoin
    }
}

/// Why an admin join request was refused.
#[derive(Debug, Clone, Copy, PartialEq, Eq, Structural)]
pub enum JoinError {
    /// The admin peer id is not a decimal number in `0..=65535`.
    InvalidPeerId,
}

/// An admin join request, checked: whose credentials, and how to join.
#[derive(Debug, Clone, Copy, PartialEq, Eq, Structural)]
pub struct AdminJoin {
    pub peer_id: u16,
    pub plan: JoinPlan,
}

/// The bytes are all ASCII digits.
pub open spec fn all_digits(b: Seq<u8>) -> bool {
    forall|i: int| 0 <= i < b.len() ==> 48 <= #[trigger] b[i] <= 57
}

/// The number that the ASCII digits `b` write in decimal.
pub open spec fn decimal_value(b: Seq<u8>) -> nat
    decreases b.len(),
{
    if b.len() == 0 {
        0
    } else {
        decimal_value(b.drop_last()) * 10 + (b.last() - 48) as nat
    }
}

/// The peer id that the text `b` writes: an optional `+`, then one or more
/// decimal digits, with a value that fits in a `u16`.
pub open spec fn peer_id_of(b: Seq<u8>) -> Option<u16> {
    let d = if b.len() > 0 && b[0] == 43 {
        b.drop_first()
    } else {
        b
    };
    if d.len() > 0 && all_digits(d) && decimal_value(d) <= 65535 {
        Some(decimal_value(d) as u16)
    } else {
        None
    }
}

proof fn lemma_decimal_grows(b: Seq<u8>, k: int)
    requires
        0 <= k <= b.len(),
        all_digits(b),
    ensures
        decimal_value(b.take(k)) <= decimal_value(b),
    decreases b.len() - k,
{
    if k < b.len() {
        lemma_decimal_grows(b, k + 1);
        assert(b.take(k + 1).drop_last() =~= b.take(k));
        assert(b.take(k + 1).last() == b[k]);
    } else {
        assert(b.take(k) =~= b);
    }
}

/// Reads a peer id written in decimal, as `u16::from_str` does.
pub fn parse_peer_id(s: &str) -> (r: Option<u16>)
    ensures
        r == peer_id_of(s.spec_bytes()),
{
    let b = s.as_bytes();
    let n = b.len();
    let mut i: usize = 0;
    if n > 0 && b[0] == 43u8 {
        i = 1;
    }
    let start = i;
    let ghost d = if b@.len() > 0 && b@[0] == 43 {
        b@.drop_first()
    } else {
        b@
    };
    assert(d =~= b@.skip(start as int));
    if start == n {
        return None;
    }
    let mut value: u32 = 0;
    while i < n
        invariant
            start <= i <= n,
            n == b@.len(),
            b@ == s.spec_bytes(),
            d == (if b@.len() > 0 && b@[0] == 43 {
                b@.drop_first()
            } else {
                b@
            }),
            d =~= b@.skip(start as int),
            all_digits(d.take(i - start)),
            value == decimal_value(d.take(i - start)),
            value <= 65535,
        decreases n - i,
    {
        let c = b[i];
        if c < 48u8 || c > 57u8 {
            assert(d[i - start] == c);
            assert(!(48 <= d[i - start] <= 57));
            return None;
        }
        assert(d.take(i - start + 1).drop_last() =~= d.take(i - start));
        assert(d.take(i - start + 1).last() == c);
        let next: u32 = value * 10 + (c - 48u8) as u32;
        assert(decimal_value(d.take(i - start + 1)) == next);
        if next > 65535 {
            proof {
                assert(all_digits(d.take(i - start + 1)));
                if all_digits(d) {
                    lemma_decimal_grows(d, i - start + 1);
                }
            }
            return None;
        }
        value = next;
        i = i + 1;
    }
    assert(d.take(n - start) =~= d);
    Some(value as u16)
}

/// Checks an admin join request: the admin's peer id must parse, and a
/// client whose local state already holds the federation reopens it.
pub fn prepare_admin_join(peer_id: &str, is_initialized: bool) -> (r: Result<AdminJoin, JoinError>)
    ensures
        match peer_id_of(peer_id.spec_bytes()) {
            None => r == Err::<AdminJoin, JoinError>(JoinError::InvalidPeerId),
            Some(p) => r == Ok::<AdminJoin, JoinError>(
                AdminJoin {
                    peer_id: p,
                    plan: if is_initialized {
                        JoinPlan::OpenExisting
                    } else {
                        JoinPlan::DownloadAndJoin
                    },
                },
            ),
        },
{
    match parse_peer_id(peer_id) {
        None => Err(JoinError::InvalidPeerId),
        Some(p) => Ok(AdminJoin { peer_id: p, plan: join_plan(is_initialized) }),
    }
}

impl FederationDescriptor {
    /// `1 <= t <= n`.
    pub open spec fn threshold_in_range(&self) -> bool {
        1 <= self.threshold <= self.guardians@.len()
    }

    /// Guardian peer ids strictly increase along the directory.
    pub open spec fn ids_ascending(&self) -> bool {
        forall|i: int, j: int|
            0 <= i < j < self.guardians@.len() ==> self.guardians@[i].peer_id
                < self.guardians@[j].peer_id
    }

    /// Every guardian has a non-empty public share.
    pub open spec fn shares_well_formed(&self) -> bool {
        forall|i: int| 0 <= i < self.guardians@.len() ==> self.guardians@[i].public_share@.len() > 0
    }

    /// A consistent configuration: `1 <= t <= n`, each guardian listed once in
    /// ascending order, and each with a public share.
    pub open spec fn wf(&self) -> bool {
        &&& self.threshold_in_range()
        &&& self.ids_ascending()
        &&& self.shares_well_formed()
    }

    /// Peer `p` is a guardian of this federation.
    pub open spec fn has_guardian(&self, p: u16) -> bool {
        exists|i: int| 0 <= i < self.guardians@.len() && self.guardians@[i].peer_id == p
    }

    /// The error that `validate` reports for an inconsistent configuration.
    pub open spec fn validate_error(&self) -> ConfigError {
        if !self.threshold_in_range() {
            ConfigError::ThresholdOutOfRange
        } else if !self.ids_ascending() {
            ConfigError::GuardiansOutOfOrder
        } else {
            ConfigError::MalformedPublicShare
        }
    }

    /// Checks a received configuration for internal consistency.
    pub fn validate(&self) -> (r: Result<(), ConfigError>)
        ensures
            r.is_ok() <==> self.wf(),
            r.is_err() ==> r == Err::<(), ConfigError>(self.validate_error()),
            !self.threshold_in_range() ==> r == Err::<(), ConfigError>(
                ConfigError::ThresholdOutOfRange,
            ),
            self.threshold_in_range() && !self.ids_ascending() ==> r == Err::<(), ConfigError>(
                ConfigError::GuardiansOutOfOrder,
            ),
            self.threshold_in_range() && self.ids_ascending() && !self.shares_well_formed() ==> r
                == Err::<(), ConfigError>(ConfigError::MalformedPublicShare),
    {
        let n: usize = self.guardians.len();
        if self.threshold < 1 || self.threshold > n as u64 {
            return Err(ConfigError::ThresholdOutOfRange);
        }
        let mut i: usize = 1;
        while i < n
            invariant
                1 <= i <= n,
                n == self.guardians@.len(),
                self.threshold_in_range(),
                forall|a: int, b: int|
                    0 <= a < b < i && b < n ==> self.guardians@[a].peer_id
                        < self.guardians@[b].peer_id,
            decreases n - i,
        {
            if self.guardians[i - 1].peer_id >= self.guardians[i].peer_id {
                return Err(ConfigError::GuardiansOutOfOrder);
            }
            i = i + 1;
        }
        let mut k: usize = 0;
        while k < n
            invariant
                k <= n,
                n == self.guardians@.len(),
                self.threshold_in_range(),
                self.ids_ascending(),
                forall|a: int| 0 <= a < k ==> self.guardians@[a].public_share@.len() > 0,
            decreases n - k,
        {
            if self.guardians[k].public_share.len() == 0 {
                return Err(ConfigError::MalformedPublicShare);
            }
            k = k + 1;
        }
        Ok(())
    }

    /// Number of guardians.
    pub fn total(&self) -> (r: usize)
        ensures
            r == self.guardians@.len(),
    {
        self.guardians.len()
    }

    /// The index of guardian `p` in the directory, if it is one.
    pub fn guardian_index(&self, p: u16) -> (r: Option<usize>)
        ensures
            r.is_some() <==> self.has_guardian(p),
            r.is_some() ==> r.unwrap() < self.guardians@.len() && self.guardians@[r.unwrap() as int].peer_id
                == p,
    {
        let mut i: usize = 0;
        while i < self.guardians.len()
            invariant
                i <= self.guardians@.len(),
                forall|k: int| 0 <= k < i ==> self.guardians@[k].peer_id != p,
            decreases self.guardians@.len() - i,
        {
            if self.guardians[i].peer_id == p {
                return Some(i);
            }
            i = i + 1;
        }
        None
    }
}

} // verus!
