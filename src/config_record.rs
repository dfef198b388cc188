//! The persisted form of the federation configuration, read back when a
//! client that already joined restarts.
//!
//! Layout, integers little-endian: the federation id as a `u64` length and
//! the bytes; the threshold as `u64`; the guardian count, then per guardian
//! its `u16` peer id and its length-prefixed public share; and the
//! length-prefixed group public key.

use vstd::prelude::*;
use crate::federation::{ConfigError, FederationDescriptor, GuardianPeer};
use crate::record::{
    framed, le_u64, shares_bytes, take_framed, take_shares, take_u64, all_fit, push_u64,
    push_framed, read_u64, read_framed, read_shares, lemma_u64_round_trip,
    lemma_framed_round_trip, lemma_shares_round_trip, lemma_assoc,
};
use crate::share::{ascending, shares_model, SignatureShare};

verus! {

/// Why a stored configuration could not be reopened.
#[derive(Debug, Clone, Copy, PartialEq, Eq, Structural)]
pub enum OpenError {
    /// No configuration is stored: the client has not joined yet.
    NotInitialized,
    /// The stored bytes are not a configuration record.
    CorruptRecord,
    /// The stored configuration is not consistent.
    Config(ConfigError),
}

/// The guardian directory as peer ids and public shares.
pub open spec fn guardians_model(v: Seq<GuardianPeer>) -> Seq<(u16, Seq<u8>)> {
    v.map_values(|g: GuardianPeer| (g.peer_id, g.public_share@))
}

/// What a persisted configuration holds.
pub struct FederationModel {
    pub federation_id: Seq<u8>,
    pub threshold: u64,
    pub guardians: Seq<(u16, Seq<u8>)>,
    pub group_public_key: Seq<u8>,
}

/// What configuration `f` holds.
pub open spec fn federation_model(f: FederationDescriptor) -> FederationModel {
    FederationModel {
        federation_id: f.federation_id@,
        threshold: f.threshold,
        guardians: guardians_model(f.guardians@),
        group_public_key: f.group_public_key@,
    }
}

/// The consistency of `FederationDescriptor` on what it holds.
pub open spec fn federation_model_wf(m: FederationModel) -> bool {
    &&& 1 <= m.threshold <= m.guardians.len()
    &&& ascending(m.guardians)
    &&& forall|i: int| 0 <= i < m.guardians.len() ==> #[trigger] m.guardians[i].1.len() > 0
}

/// Every length in the configuration fits in the record's `u64` fields.
pub open spec fn federation_model_fits(m: FederationModel) -> bool {
    &&& m.federation_id.len() <= u64::MAX
    &&& m.guardians.len() <= u64::MAX
    &&& all_fit(m.guardians)
    &&& m.group_public_key.len() <= u64::MAX
}

/// The record of a configuration.
pub open spec fn federation_bytes(m: FederationModel) -> Seq<u8> {
    framed(m.federation_id) + (le_u64(m.threshold) + (le_u64(m.guardians.len() as u64) + (
    shares_bytes(m.guardians) + framed(m.group_public_key))))
}

/// Reads a whole configuration record; nothing may follow it.
pub open spec fn parse_federation(b: Seq<u8>) -> Option<FederationModel> {
    match take_framed(b) {
        None => None,
        Some((federation_id, b1)) => match take_u64(b1) {
            None => None,
            Some((threshold, b2)) => match take_u64(b2) {
                None => None,
                Some((n, b3)) => match take_shares(b3, n as nat) {
                    None => None,
                    Some((guardians, b4)) => match take_framed(b4) {
                        None => None,
                        Some((group_public_key, b5)) => if b5.len() == 0 {
                            Some(
                                FederationModel {
                                    federation_id,
                                    threshold,
                                    guardians,
                                    group_public_key,
                                },
                            )
                        } else {
                            None
                        },
                    },
                },
            },
        },
    }
}

/// A configuration read back from its record is the same configuration.
pub proof fn lemma_federation_round_trip(m: FederationModel)
    requires
        federation_model_fits(m),
    ensures
        parse_federation(federation_bytes(m)) == Some(m),
{
    let e: Seq<u8> = Seq::empty();
    let t4 = framed(m.group_public_key);
    let t3 = shares_bytes(m.guardians) + t4;
    let t2 = le_u64(m.guardians.len() as u64) + t3;
    let t1 = le_u64(m.threshold) + t2;
    assert(federation_bytes(m) == framed(m.federation_id) + t1);
    lemma_framed_round_trip(m.federation_id, t1);
    lemma_u64_round_trip(m.threshold, t2);
    lemma_u64_round_trip(m.guardians.len() as u64, t3);
    lemma_shares_round_trip(m.guardians, t4);
    assert(t4 + e =~= t4);
    lemma_framed_round_trip(m.group_public_key, e);
    assert((m.guardians.len() as u64) as nat == m.guardians.len());
}

/// A consistent configuration survives being stored: its record reads back
/// as the same configuration.
pub proof fn lemma_descriptor_round_trip(f: FederationDescriptor)
    ensures
        parse_federation(federation_bytes(federation_model(f))) == Some(federation_model(f)),
{
    let m = federation_model(f);
    assert(f.federation_id.len() == f.federation_id@.len());
    assert(f.guardians.len() == f.guardians@.len());
    assert(f.group_public_key.len() == f.group_public_key@.len());
    assert(usize::MAX <= u64::MAX);
    assert forall|i: int| 0 <= i < m.guardians.len() implies #[trigger] m.guardians[i].1.len()
        <= u64::MAX by {
        assert(m.guardians[i].1 == f.guardians@[i].public_share@);
        assert(f.guardians@[i].public_share.len() == f.guardians@[i].public_share@.len());
    }
    lemma_federation_round_trip(m);
}

proof fn lemma_wf_model(f: FederationDescriptor)
    ensures
        f.wf() <==> federation_model_wf(federation_model(f)),
{
    let m = federation_model(f);
    assert forall|i: int| 0 <= i < f.guardians@.len() implies #[trigger] m.guardians[i] == (
    f.guardians@[i].peer_id, f.guardians@[i].public_share@) by {}
    if f.wf() {
        assert forall|i: int, j: int| 0 <= i < j < m.guardians.len() implies m.guardians[i].0
            < m.guardians[j].0 by {
            assert(m.guardians[i] == (f.guardians@[i].peer_id, f.guardians@[i].public_share@));
            assert(m.guardians[j] == (f.guardians@[j].peer_id, f.guardians@[j].public_share@));
        }
        assert forall|i: int| 0 <= i < m.guardians.len() implies #[trigger] m.guardians[i].1.len() > 0 by {
            assert(m.guardians[i] == (f.guardians@[i].peer_id, f.guardians@[i].public_share@));
        }
    }
    if federation_model_wf(m) {
        assert forall|i: int, j: int| 0 <= i < j < f.guardians@.len() implies f.guardians@[i].peer_id
            < f.guardians@[j].peer_id by {
            assert(m.guardians[i] == (f.guardians@[i].peer_id, f.guardians@[i].public_share@));
            assert(m.guardians[j] == (f.guardians@[j].peer_id, f.guardians@[j].public_share@));
        }
        assert forall|i: int| 0 <= i < f.guardians@.len() implies f.guardians@[i].public_share@.len() > 0 by {
            assert(m.guardians[i] == (f.guardians@[i].peer_id, f.guardians@[i].public_share@));
            assert(m.guardians[i].1.len() > 0);
        }
    }
}

fn push_guardians(out: &mut Vec<u8>, v: &Vec<GuardianPeer>)
    ensures
        final(out)@ == old(out)@ + shares_bytes(guardians_model(v@)),
{
    let ghost m = guardians_model(v@);
    assert(m.skip(0) =~= m);
    let mut i: usize = 0;
    while i < v.len()
        invariant
            i <= v@.len(),
            m == guardians_model(v@),
            out@ + shares_bytes(m.skip(i as int)) == old(out)@ + shares_bytes(m),
        decreases v@.len() - i,
    {
        let ghost before = out@;
        assert(m.skip(i as int).drop_first() =~= m.skip(i + 1));
        assert(m.skip(i as int)[0] == (v@[i as int].peer_id, v@[i as int].public_share@));
        crate::record::push_u16(out, v[i].peer_id);
        push_framed(out, &v[i].public_share);
        proof {
            let x = m[i as int];
            lemma_assoc(before, crate::record::le_u16(x.0), framed(x.1));
            lemma_assoc(
                before + crate::record::le_u16(x.0),
                framed(x.1),
                shares_bytes(m.skip(i + 1)),
            );
            lemma_assoc(before, crate::record::le_u16(x.0), framed(x.1) + shares_bytes(m.skip(i + 1)));
        }
        i = i + 1;
    }
    assert(m.skip(i as int) =~= Seq::<(u16, Seq<u8>)>::empty());
    assert(out@ + Seq::<u8>::empty() =~= out@);
}

/// The record of configuration `f`.
pub fn encode_federation(f: &FederationDescriptor) -> (r: Vec<u8>)
    ensures
        r@ == federation_bytes(federation_model(*f)),
{
    let ghost m = federation_model(*f);
    let ghost t4 = framed(m.group_public_key);
    let ghost t3 = shares_bytes(m.guardians) + t4;
    let ghost t2 = le_u64(m.guardians.len() as u64) + t3;
    let ghost t1 = le_u64(m.threshold) + t2;
    let mut out: Vec<u8> = Vec::new();
    push_framed(&mut out, &f.federation_id);
    assert(out@ =~= framed(m.federation_id));
    let ghost o = out@;
    push_u64(&mut out, f.threshold);
    proof { lemma_assoc(o, le_u64(m.threshold), t2); }
    let ghost o = out@;
    assert(f.guardians.len() as u64 == m.guardians.len() as u64);
    push_u64(&mut out, f.guardians.len() as u64);
    proof { lemma_assoc(o, le_u64(m.guardians.len() as u64), t3); }
    let ghost o = out@;
    push_guardians(&mut out, &f.guardians);
    proof { lemma_assoc(o, shares_bytes(m.guardians), t4); }
    push_framed(&mut out, &f.group_public_key);
    assert(out@ =~= federation_bytes(m));
    out
}

fn guardians_from(v: &Vec<SignatureShare>) -> (r: Vec<GuardianPeer>)
    ensures
        guardians_model(r@) == shares_model(v@),
{
    let mut r: Vec<GuardianPeer> = Vec::new();
    let mut i: usize = 0;
    while i < v.len()
        invariant
            i <= v@.len(),
            guardians_model(r@) =~= shares_model(v@).take(i as int),
        decreases v@.len() - i,
    {
        let bytes = v[i].share_bytes.clone();
        assert(bytes@ =~= v@[i as int].share_bytes@);
        let g = GuardianPeer { peer_id: v[i].peer_id, public_share: bytes };
        let ghost before = r@;
        r.push(g);
        assert(r@ =~= before.push(g));
        assert(guardians_model(r@) =~= guardians_model(before).push((g.peer_id, g.public_share@)));
        assert(shares_model(v@).take(i + 1) =~= shares_model(v@).take(i as int).push(
            shares_model(v@)[i as int],
        ));
        i = i + 1;
    }
    assert(shares_model(v@).take(v@.len() as int) =~= shares_model(v@));
    r
}

/// Reads a configuration back from its record. Bytes that are not a whole
/// configuration record, with nothing after it, give `None`.
#[verifier::rlimit(30)]
pub fn decode_federation(b: &Vec<u8>) -> (r: Option<FederationDescriptor>)
    ensures
        match parse_federation(b@) {
            None => r.is_none(),
            Some(m) => r.is_some() && federation_model(r.unwrap()) == m,
        },
{
    assert(b@.skip(0) =~= b@);
    let (federation_id, at1) = match read_framed(b, 0) {
        None => return None,
        Some(v) => v,
    };
    let (threshold, at2) = match read_u64(b, at1) {
        None => return None,
        Some(v) => v,
    };
    let (n, at3) = match read_u64(b, at2) {
        None => return None,
        Some(v) => v,
    };
    let (shares, at4) = match read_shares(b, at3, n) {
        None => return None,
        Some(v) => v,
    };
    let (group_public_key, at5) = match read_framed(b, at4) {
        None => return None,
        Some(v) => v,
    };
    if at5 != b.len() {
        return None;
    }
    let guardians = guardians_from(&shares);
    let f = FederationDescriptor { federation_id, guardians, threshold, group_public_key };
    assert(federation_model(f) == FederationModel {
        federation_id: f.federation_id@,
        threshold,
        guardians: shares_model(shares@),
        group_public_key: f.group_public_key@,
    });
    Some(f)
}

/// Reopens the configuration stored by an earlier join: `NotInitialized`
/// when nothing is stored, `CorruptRecord` when the bytes are not a
/// configuration record, and the consistency error when the configuration
/// it holds is not consistent.
pub fn open_existing(stored: Option<Vec<u8>>) -> (r: Result<FederationDescriptor, OpenError>)
    ensures
        match stored {
            None => r == Err::<FederationDescriptor, OpenError>(OpenError::NotInitialized),
            Some(b) => match parse_federation(b@) {
                None => r == Err::<FederationDescriptor, OpenError>(OpenError::CorruptRecord),
                Some(m) => if federation_model_wf(m) {
                    r.is_ok() && r.unwrap().wf() && federation_model(r.unwrap()) == m
                } else {
                    r is Err && r->Err_0 is Config
                },
            },
        },
{
    let b = match stored {
        None => return Err(OpenError::NotInitialized),
        Some(b) => b,
    };
    let f = match decode_federation(&b) {
        None => return Err(OpenError::CorruptRecord),
        Some(f) => f,
    };
    proof {
        lemma_wf_model(f);
    }
    match f.validate() {
        Err(e) => Err(OpenError::Config(e)),
        Ok(()) => Ok(f),
    }
}

} // verus!
