//! The persisted form of a signing session: a byte record that decodes back
//! to the same session, so that a session survives a restart.
//!
//! Layout, integers little-endian: event id and content, each as a `u64`
//! length and the bytes; `created_at` and `threshold` as `u64`; the share
//! count, then per share its `u16` peer id and its length-prefixed bytes;
//! the count and `u16` ids of the warned peers, then of the excluded peers;
//! one state byte; and `0`, or `1` and the length-prefixed signature.

use vstd::prelude::*;
use crate::session::{SessionState, SigningSession};
use crate::share::{SignatureShare, ascending, share_model, shares_model};

verus! {

/// Little-endian bytes of a `u64`.
pub open spec fn le_u64(x: u64) -> Seq<u8> {
    seq![
        (x & 0xff) as u8,
        ((x >> 8) & 0xff) as u8,
        ((x >> 16) & 0xff) as u8,
        ((x >> 24) & 0xff) as u8,
        ((x >> 32) & 0xff) as u8,
        ((x >> 40) & 0xff) as u8,
        ((x >> 48) & 0xff) as u8,
        ((x >> 56) & 0xff) as u8,
    ]
}

/// The `u64` whose little-endian bytes begin `b`.
pub open spec fn u64_of_le(b: Seq<u8>) -> u64 {
    (b[0] as u64) | ((b[1] as u64) << 8) | ((b[2] as u64) << 16) | ((b[3] as u64) << 24) | ((
    b[4] as u64) << 32) | ((b[5] as u64) << 40) | ((b[6] as u64) << 48) | ((b[7] as u64) << 56)
}

/// Little-endian bytes of a `u16`.
pub open spec fn le_u16(x: u16) -> Seq<u8> {
    seq![(x & 0xff) as u8, ((x >> 8) & 0xff) as u8]
}

/// The `u16` whose little-endian bytes begin `b`.
pub open spec fn u16_of_le(b: Seq<u8>) -> u16 {
    (b[0] as u16) | ((b[1] as u16) << 8)
}

/// A byte string preceded by its length.
pub open spec fn framed(b: Seq<u8>) -> Seq<u8> {
    le_u64(b.len() as u64) + b
}

/// Reads a `u64`, giving it and what follows.
pub open spec fn take_u64(b: Seq<u8>) -> Option<(u64, Seq<u8>)> {
    if b.len() >= 8 {
        Some((u64_of_le(b), b.skip(8)))
    } else {
        None
    }
}

/// Reads a `u16`, giving it and what follows.
pub open spec fn take_u16(b: Seq<u8>) -> Option<(u16, Seq<u8>)> {
    if b.len() >= 2 {
        Some((u16_of_le(b), b.skip(2)))
    } else {
        None
    }
}

/// Reads a length-prefixed byte string, giving it and what follows.
pub open spec fn take_framed(b: Seq<u8>) -> Option<(Seq<u8>, Seq<u8>)> {
    match take_u64(b) {
        Some((n, r)) => if n <= r.len() {
            Some((r.take(n as int), r.skip(n as int)))
        } else {
            None
        },
        None => None,
    }
}

pub(crate) proof fn lemma_u64_round_trip(x: u64, rest: Seq<u8>)
    ensures
        take_u64(le_u64(x) + rest) == Some((x, rest)),
{
    let b = le_u64(x) + rest;
    assert(b.skip(8) =~= rest);
    let b0 = x & 0xff;
    let b1 = (x >> 8) & 0xff;
    let b2 = (x >> 16) & 0xff;
    let b3 = (x >> 24) & 0xff;
    let b4 = (x >> 32) & 0xff;
    let b5 = (x >> 40) & 0xff;
    let b6 = (x >> 48) & 0xff;
    let b7 = (x >> 56) & 0xff;
    assert(b0 < 256 && b1 < 256 && b2 < 256 && b3 < 256 && b4 < 256 && b5 < 256 && b6 < 256 && b7
        < 256) by (bit_vector)
        requires
            b0 == x & 0xff,
            b1 == (x >> 8) & 0xff,
            b2 == (x >> 16) & 0xff,
            b3 == (x >> 24) & 0xff,
            b4 == (x >> 32) & 0xff,
            b5 == (x >> 40) & 0xff,
            b6 == (x >> 48) & 0xff,
            b7 == (x >> 56) & 0xff,
    ;
    assert(b[0] as u64 == b0 && b[1] as u64 == b1 && b[2] as u64 == b2 && b[3] as u64 == b3);
    assert(b[4] as u64 == b4 && b[5] as u64 == b5 && b[6] as u64 == b6 && b[7] as u64 == b7);
    assert(b0 | (b1 << 8) | (b2 << 16) | (b3 << 24) | (b4 << 32) | (b5 << 40) | (b6 << 48) | (b7
        << 56) == x) by (bit_vector)
        requires
            b0 == x & 0xff,
            b1 == (x >> 8) & 0xff,
            b2 == (x >> 16) & 0xff,
            b3 == (x >> 24) & 0xff,
            b4 == (x >> 32) & 0xff,
            b5 == (x >> 40) & 0xff,
            b6 == (x >> 48) & 0xff,
            b7 == (x >> 56) & 0xff,
    ;
}

proof fn lemma_u16_round_trip(x: u16, rest: Seq<u8>)
    ensures
        take_u16(le_u16(x) + rest) == Some((x, rest)),
{
    let b = le_u16(x) + rest;
    assert(b.skip(2) =~= rest);
    let b0 = x & 0xff;
    let b1 = (x >> 8) & 0xff;
    assert(b0 < 256 && b1 < 256) by (bit_vector)
        requires
            b0 == x & 0xff,
            b1 == (x >> 8) & 0xff,
    ;
    assert(b[0] as u16 == b0 && b[1] as u16 == b1);
    assert(b0 | (b1 << 8) == x) by (bit_vector)
        requires
            b0 == x & 0xff,
            b1 == (x >> 8) & 0xff,
    ;
}

pub(crate) proof fn lemma_framed_round_trip(x: Seq<u8>, rest: Seq<u8>)
    requires
        x.len() <= u64::MAX,
    ensures
        take_framed(framed(x) + rest) == Some((x, rest)),
{
    let b = framed(x) + rest;
    assert(b =~= le_u64(x.len() as u64) + (x + rest));
    lemma_u64_round_trip(x.len() as u64, x + rest);
    assert((x + rest).take(x.len() as int) =~= x);
    assert((x + rest).skip(x.len() as int) =~= rest);
}

/// Shares, each as its peer id and its length-prefixed bytes.
pub open spec fn shares_bytes(s: Seq<(u16, Seq<u8>)>) -> Seq<u8>
    decreases s.len(),
{
    if s.len() == 0 {
        Seq::empty()
    } else {
        le_u16(s[0].0) + (framed(s[0].1) + shares_bytes(s.drop_first()))
    }
}

/// Reads `n` shares, giving them and what follows.
pub open spec fn take_shares(b: Seq<u8>, n: nat) -> Option<(Seq<(u16, Seq<u8>)>, Seq<u8>)>
    decreases n,
{
    if n == 0 {
        Some((Seq::empty(), b))
    } else {
        match take_u16(b) {
            None => None,
            Some((p, r1)) => match take_framed(r1) {
                None => None,
                Some((x, r2)) => match take_shares(r2, (n - 1) as nat) {
                    None => None,
                    Some((xs, r3)) => Some((seq![(p, x)] + xs, r3)),
                },
            },
        }
    }
}

/// Peer ids, each as a `u16`.
pub open spec fn peers_bytes(s: Seq<u16>) -> Seq<u8>
    decreases s.len(),
{
    if s.len() == 0 {
        Seq::empty()
    } else {
        le_u16(s[0]) + peers_bytes(s.drop_first())
    }
}

/// Reads `n` peer ids, giving them and what follows.
pub open spec fn take_peers(b: Seq<u8>, n: nat) -> Option<(Seq<u16>, Seq<u8>)>
    decreases n,
{
    if n == 0 {
        Some((Seq::empty(), b))
    } else {
        match take_u16(b) {
            None => None,
            Some((p, r1)) => match take_peers(r1, (n - 1) as nat) {
                None => None,
                Some((ps, r2)) => Some((seq![p] + ps, r2)),
            },
        }
    }
}

/// Every share's bytes have a length that fits in a `u64`.
pub open spec fn all_fit(s: Seq<(u16, Seq<u8>)>) -> bool {
    forall|i: int| 0 <= i < s.len() ==> #[trigger] s[i].1.len() <= u64::MAX
}

proof fn lemma_all_fit_rest(s: Seq<(u16, Seq<u8>)>)
    requires
        all_fit(s),
        s.len() > 0,
    ensures
        all_fit(s.drop_first()),
        s[0].1.len() <= u64::MAX,
{
    let t = s.drop_first();
    assert forall|i: int| 0 <= i < t.len() implies #[trigger] t[i].1.len() <= u64::MAX by {
        assert(t[i] == s[i + 1]);
    }
}

proof fn lemma_shares_unfold(s: Seq<(u16, Seq<u8>)>, rest: Seq<u8>)
    requires
        s.len() > 0,
    ensures
        shares_bytes(s) + rest == le_u16(s[0].0) + (framed(s[0].1) + (shares_bytes(s.drop_first())
            + rest)),
{
    let x = le_u16(s[0].0);
    let y = framed(s[0].1);
    let z = shares_bytes(s.drop_first());
    assert(shares_bytes(s) == x + (y + z));
    assert((x + (y + z)) + rest =~= x + (y + (z + rest)));
}

pub(crate) proof fn lemma_shares_round_trip(s: Seq<(u16, Seq<u8>)>, rest: Seq<u8>)
    requires
        all_fit(s),
    ensures
        take_shares(shares_bytes(s) + rest, s.len()) == Some((s, rest)),
    decreases s.len(),
{
    if s.len() > 0 {
        let t = s.drop_first();
        lemma_all_fit_rest(s);
        lemma_shares_round_trip(t, rest);
        let r2 = shares_bytes(t) + rest;
        let r1 = framed(s[0].1) + r2;
        let b = shares_bytes(s) + rest;
        lemma_shares_unfold(s, rest);
        lemma_u16_round_trip(s[0].0, r1);
        lemma_framed_round_trip(s[0].1, r2);
        assert(seq![(s[0].0, s[0].1)] + t =~= s);
    }
}

proof fn lemma_peers_round_trip(s: Seq<u16>, rest: Seq<u8>)
    ensures
        take_peers(peers_bytes(s) + rest, s.len()) == Some((s, rest)),
    decreases s.len(),
{
    if s.len() > 0 {
        let t = s.drop_first();
        lemma_peers_round_trip(t, rest);
        let b = peers_bytes(s) + rest;
        assert(b =~= le_u16(s[0]) + (peers_bytes(t) + rest));
        lemma_u16_round_trip(s[0], peers_bytes(t) + rest);
        assert(seq![s[0]] + t =~= s);
    }
}

/// The code of a state in the record.
pub open spec fn state_code(st: SessionState) -> u8 {
    match st {
        SessionState::Pending => 0,
        SessionState::ThresholdReached => 1,
        SessionState::Aggregated => 2,
        SessionState::Broadcast => 3,
        SessionState::Failed => 4,
    }
}

/// The state with a given code.
pub open spec fn state_of_code(c: u8) -> Option<SessionState> {
    if c == 0 {
        Some(SessionState::Pending)
    } else if c == 1 {
        Some(SessionState::ThresholdReached)
    } else if c == 2 {
        Some(SessionState::Aggregated)
    } else if c == 3 {
        Some(SessionState::Broadcast)
    } else if c == 4 {
        Some(SessionState::Failed)
    } else {
        None
    }
}

/// An optional signature: `0`, or `1` and the length-prefixed bytes.
pub open spec fn signature_bytes(g: Option<Seq<u8>>) -> Seq<u8> {
    match g {
        None => seq![0u8],
        Some(x) => seq![1u8] + framed(x),
    }
}

/// Reads an optional signature, giving it and what follows.
pub open spec fn take_signature(b: Seq<u8>) -> Option<(Option<Seq<u8>>, Seq<u8>)> {
    if b.len() == 0 {
        None
    } else if b[0] == 0 {
        Some((None, b.skip(1)))
    } else if b[0] == 1 {
        match take_framed(b.skip(1)) {
            None => None,
            Some((x, r)) => Some((Some(x), r)),
        }
    } else {
        None
    }
}

/// What a persisted session holds.
pub struct SessionModel {
    pub event_id: Seq<u8>,
    pub content: Seq<u8>,
    pub created_at: u64,
    pub threshold: u64,
    pub shares: Seq<(u16, Seq<u8>)>,
    pub warned: Seq<u16>,
    pub excluded: Seq<u16>,
    pub state: SessionState,
    pub signature: Option<Seq<u8>>,
}

/// The bytes of an optional byte vector.
pub open spec fn opt_bytes(o: Option<Vec<u8>>) -> Option<Seq<u8>> {
    match o {
        None => None,
        Some(g) => Some(g@),
    }
}

/// What session `s` holds.
pub open spec fn session_model(s: SigningSession) -> SessionModel {
    SessionModel {
        event_id: s.event_id@,
        content: s.content@,
        created_at: s.created_at,
        threshold: s.threshold,
        shares: s.share_list(),
        warned: s.warned@,
        excluded: s.excluded@,
        state: s.state,
        signature: opt_bytes(s.signature),
    }
}

/// The well-formedness of `SigningSession` on what it holds.
pub open spec fn model_wf(m: SessionModel) -> bool {
    &&& m.threshold >= 1
    &&& ascending(m.shares)
    &&& m.state == SessionState::Pending ==> m.shares.len() < m.threshold
    &&& (m.state == SessionState::ThresholdReached || SigningSession::has_signature_state(m.state))
        ==> m.shares.len() >= m.threshold
    &&& m.signature.is_some() <==> SigningSession::has_signature_state(m.state)
}

/// Every length in the session fits in the record's `u64` fields.
pub open spec fn model_fits(m: SessionModel) -> bool {
    &&& m.event_id.len() <= u64::MAX
    &&& m.content.len() <= u64::MAX
    &&& m.shares.len() <= u64::MAX
    &&& m.warned.len() <= u64::MAX
    &&& m.excluded.len() <= u64::MAX
    &&& all_fit(m.shares)
    &&& m.signature matches Some(g) ==> g.len() <= u64::MAX
}

/// The record of a session.
pub open spec fn record_bytes(m: SessionModel) -> Seq<u8> {
    framed(m.event_id) + (framed(m.content) + (le_u64(m.created_at) + (le_u64(m.threshold) + (
    le_u64(m.shares.len() as u64) + (shares_bytes(m.shares) + (le_u64(m.warned.len() as u64) + (
    peers_bytes(m.warned) + (le_u64(m.excluded.len() as u64) + (peers_bytes(m.excluded) + (seq![
        state_code(m.state),
    ] + signature_bytes(m.signature)))))))))))
}

/// Reads a whole record; nothing may follow it, and the session it holds
/// must be well formed.
pub open spec fn parse_record(b: Seq<u8>) -> Option<SessionModel> {
    match take_framed(b) {
        None => None,
        Some((event_id, b1)) => match take_framed(b1) {
            None => None,
            Some((content, b2)) => match take_u64(b2) {
                None => None,
                Some((created_at, b3)) => match take_u64(b3) {
                    None => None,
                    Some((threshold, b4)) => match take_u64(b4) {
                        None => None,
                        Some((ns, b5)) => match take_shares(b5, ns as nat) {
                            None => None,
                            Some((shares, b6)) => match take_u64(b6) {
                                None => None,
                                Some((nw, b7)) => match take_peers(b7, nw as nat) {
                                    None => None,
                                    Some((warned, b8)) => match take_u64(b8) {
                                        None => None,
                                        Some((ne, b9)) => match take_peers(b9, ne as nat) {
                                            None => None,
                                            Some((excluded, b10)) => parse_tail(
                                                b10,
                                                event_id,
                                                content,
                                                created_at,
                                                threshold,
                                                shares,
                                                warned,
                                                excluded,
                                            ),
                                        },
                                    },
                                },
                            },
                        },
                    },
                },
            },
        },
    }
}

/// Reads the state and signature that end a record, and checks the session.
pub open spec fn parse_tail(
    b: Seq<u8>,
    event_id: Seq<u8>,
    content: Seq<u8>,
    created_at: u64,
    threshold: u64,
    shares: Seq<(u16, Seq<u8>)>,
    warned: Seq<u16>,
    excluded: Seq<u16>,
) -> Option<SessionModel> {
    if b.len() == 0 {
        None
    } else {
        match state_of_code(b[0]) {
            None => None,
            Some(state) => match take_signature(b.skip(1)) {
                None => None,
                Some((signature, rest)) => {
                    let m = SessionModel {
                        event_id,
                        content,
                        created_at,
                        threshold,
                        shares,
                        warned,
                        excluded,
                        state,
                        signature,
                    };
                    if rest.len() == 0 && model_wf(m) {
                        Some(m)
                    } else {
                        None
                    }
                },
            },
        }
    }
}

proof fn lemma_tail_round_trip(m: SessionModel)
    requires
        model_wf(m),
        model_fits(m),
    ensures
        parse_tail(
            seq![state_code(m.state)] + signature_bytes(m.signature),
            m.event_id,
            m.content,
            m.created_at,
            m.threshold,
            m.shares,
            m.warned,
            m.excluded,
        ) == Some(m),
{
    let e: Seq<u8> = Seq::empty();
    let t11 = seq![state_code(m.state)] + signature_bytes(m.signature);
    assert(t11[0] == state_code(m.state));
    assert(state_of_code(state_code(m.state)) == Some(m.state));
    assert(t11.skip(1) =~= signature_bytes(m.signature));
    match m.signature {
        None => {
            assert(signature_bytes(m.signature).skip(1) =~= e);
        },
        Some(g) => {
            assert(signature_bytes(m.signature).skip(1) =~= framed(g) + e);
            lemma_framed_round_trip(g, e);
        },
    }
}

/// A well-formed session read back from its record is the same session:
/// persisting a session and loading it after a restart loses nothing.
#[verifier::rlimit(50)]
pub proof fn lemma_record_round_trip(m: SessionModel)
    requires
        model_wf(m),
        model_fits(m),
    ensures
        parse_record(record_bytes(m)) == Some(m),
{
    let t11 = seq![state_code(m.state)] + signature_bytes(m.signature);
    let t10 = peers_bytes(m.excluded) + t11;
    let t9 = le_u64(m.excluded.len() as u64) + t10;
    let t8 = peers_bytes(m.warned) + t9;
    let t7 = le_u64(m.warned.len() as u64) + t8;
    let t6 = shares_bytes(m.shares) + t7;
    let t5 = le_u64(m.shares.len() as u64) + t6;
    let t4 = le_u64(m.threshold) + t5;
    let t3 = le_u64(m.created_at) + t4;
    let t2 = framed(m.content) + t3;
    let b = record_bytes(m);
    assert(b == framed(m.event_id) + t2);
    lemma_framed_round_trip(m.event_id, t2);
    lemma_framed_round_trip(m.content, t3);
    lemma_u64_round_trip(m.created_at, t4);
    lemma_u64_round_trip(m.threshold, t5);
    lemma_u64_round_trip(m.shares.len() as u64, t6);
    lemma_shares_round_trip(m.shares, t7);
    lemma_u64_round_trip(m.warned.len() as u64, t8);
    lemma_peers_round_trip(m.warned, t9);
    lemma_u64_round_trip(m.excluded.len() as u64, t10);
    lemma_peers_round_trip(m.excluded, t11);
    lemma_tail_round_trip(m);
    assert((m.shares.len() as u64) as nat == m.shares.len());
    assert((m.warned.len() as u64) as nat == m.warned.len());
    assert((m.excluded.len() as u64) as nat == m.excluded.len());
    assert(take_framed(b) == Some((m.event_id, t2)));
    assert(take_framed(t2) == Some((m.content, t3)));
    assert(take_u64(t3) == Some((m.created_at, t4)));
    assert(take_u64(t4) == Some((m.threshold, t5)));
    assert(take_u64(t5) == Some((m.shares.len() as u64, t6)));
    assert(take_shares(t6, m.shares.len()) == Some((m.shares, t7)));
    assert(take_u64(t7) == Some((m.warned.len() as u64, t8)));
    assert(take_peers(t8, m.warned.len()) == Some((m.warned, t9)));
    assert(take_u64(t9) == Some((m.excluded.len() as u64, t10)));
    assert(take_peers(t10, m.excluded.len()) == Some((m.excluded, t11)));
}

pub(crate) proof fn lemma_assoc(a: Seq<u8>, b: Seq<u8>, c: Seq<u8>)
    ensures
        (a + b) + c == a + (b + c),
{
    assert((a + b) + c =~= a + (b + c));
}

pub(crate) fn push_u64(out: &mut Vec<u8>, x: u64)
    ensures
        final(out)@ == old(out)@ + le_u64(x),
{
    out.push((x & 0xff) as u8);
    out.push(((x >> 8) & 0xff) as u8);
    out.push(((x >> 16) & 0xff) as u8);
    out.push(((x >> 24) & 0xff) as u8);
    out.push(((x >> 32) & 0xff) as u8);
    out.push(((x >> 40) & 0xff) as u8);
    out.push(((x >> 48) & 0xff) as u8);
    out.push(((x >> 56) & 0xff) as u8);
    assert(out@ =~= old(out)@ + le_u64(x));
}

pub(crate) fn push_u16(out: &mut Vec<u8>, x: u16)
    ensures
        final(out)@ == old(out)@ + le_u16(x),
{
    out.push((x & 0xff) as u8);
    out.push(((x >> 8) & 0xff) as u8);
    assert(out@ =~= old(out)@ + le_u16(x));
}

pub(crate) fn push_framed(out: &mut Vec<u8>, b: &Vec<u8>)
    ensures
        final(out)@ == old(out)@ + framed(b@),
{
    push_u64(out, b.len() as u64);
    let ghost mid = out@;
    let mut i: usize = 0;
    while i < b.len()
        invariant
            i <= b@.len(),
            out@ == mid + b@.take(i as int),
        decreases b@.len() - i,
    {
        out.push(b[i]);
        assert(b@.take(i + 1) =~= b@.take(i as int).push(b@[i as int]));
        i = i + 1;
    }
    assert(b@.take(b@.len() as int) =~= b@);
    proof {
        lemma_assoc(old(out)@, le_u64(b@.len() as u64), b@);
    }
}

fn push_shares(out: &mut Vec<u8>, v: &Vec<SignatureShare>)
    ensures
        final(out)@ == old(out)@ + shares_bytes(shares_model(v@)),
{
    let ghost m = shares_model(v@);
    assert(m.skip(0) =~= m);
    let mut i: usize = 0;
    while i < v.len()
        invariant
            i <= v@.len(),
            m == shares_model(v@),
            out@ + shares_bytes(m.skip(i as int)) == old(out)@ + shares_bytes(m),
        decreases v@.len() - i,
    {
        let ghost before = out@;
        assert(m.skip(i as int).drop_first() =~= m.skip(i + 1));
        assert(m.skip(i as int)[0] == share_model(v@[i as int]));
        push_u16(out, v[i].peer_id);
        push_framed(out, &v[i].share_bytes);
        proof {
            let x = m[i as int];
            lemma_assoc(before, le_u16(x.0), framed(x.1));
            lemma_assoc(before + le_u16(x.0), framed(x.1), shares_bytes(m.skip(i + 1)));
            lemma_assoc(before, le_u16(x.0), framed(x.1) + shares_bytes(m.skip(i + 1)));
        }
        i = i + 1;
    }
    assert(m.skip(i as int) =~= Seq::<(u16, Seq<u8>)>::empty());
    assert(out@ + Seq::<u8>::empty() =~= out@);
}

fn push_peers(out: &mut Vec<u8>, v: &Vec<u16>)
    ensures
        final(out)@ == old(out)@ + peers_bytes(v@),
{
    assert(v@.skip(0) =~= v@);
    let mut i: usize = 0;
    while i < v.len()
        invariant
            i <= v@.len(),
            out@ + peers_bytes(v@.skip(i as int)) == old(out)@ + peers_bytes(v@),
        decreases v@.len() - i,
    {
        let ghost before = out@;
        assert(v@.skip(i as int).drop_first() =~= v@.skip(i + 1));
        push_u16(out, v[i]);
        proof {
            lemma_assoc(before, le_u16(v@[i as int]), peers_bytes(v@.skip(i + 1)));
        }
        i = i + 1;
    }
    assert(v@.skip(i as int) =~= Seq::<u16>::empty());
    assert(out@ + Seq::<u8>::empty() =~= out@);
}

fn code_of_state(st: SessionState) -> (r: u8)
    ensures
        r == state_code(st),
{
    match st {
        SessionState::Pending => 0,
        SessionState::ThresholdReached => 1,
        SessionState::Aggregated => 2,
        SessionState::Broadcast => 3,
        SessionState::Failed => 4,
    }
}

/// The record of session `s`.
#[verifier::rlimit(40)]
pub fn encode_session(s: &SigningSession) -> (r: Vec<u8>)
    ensures
        r@ == record_bytes(session_model(*s)),
{
    let ghost m = session_model(*s);
    let ghost t12 = signature_bytes(m.signature);
    let ghost t11 = seq![state_code(m.state)] + t12;
    let ghost t10 = peers_bytes(m.excluded) + t11;
    let ghost t9 = le_u64(m.excluded.len() as u64) + t10;
    let ghost t8 = peers_bytes(m.warned) + t9;
    let ghost t7 = le_u64(m.warned.len() as u64) + t8;
    let ghost t6 = shares_bytes(m.shares) + t7;
    let ghost t5 = le_u64(m.shares.len() as u64) + t6;
    let ghost t4 = le_u64(m.threshold) + t5;
    let ghost t3 = le_u64(m.created_at) + t4;
    let ghost t2 = framed(m.content) + t3;
    let ghost whole = record_bytes(m);
    assert(whole == framed(m.event_id) + t2);
    let mut out: Vec<u8> = Vec::new();
    push_framed(&mut out, &s.event_id);
    assert(out@ =~= framed(m.event_id));
    let ghost o = out@;
    push_framed(&mut out, &s.content);
    proof { lemma_assoc(o, framed(m.content), t3); }
    let ghost o = out@;
    push_u64(&mut out, s.created_at);
    proof { lemma_assoc(o, le_u64(m.created_at), t4); }
    let ghost o = out@;
    push_u64(&mut out, s.threshold);
    proof { lemma_assoc(o, le_u64(m.threshold), t5); }
    let ghost o = out@;
    push_u64(&mut out, s.shares.len() as u64);
    proof { lemma_assoc(o, le_u64(m.shares.len() as u64), t6); }
    let ghost o = out@;
    push_shares(&mut out, &s.shares);
    proof { lemma_assoc(o, shares_bytes(m.shares), t7); }
    let ghost o = out@;
    push_u64(&mut out, s.warned.len() as u64);
    proof { lemma_assoc(o, le_u64(m.warned.len() as u64), t8); }
    let ghost o = out@;
    push_peers(&mut out, &s.warned);
    proof { lemma_assoc(o, peers_bytes(m.warned), t9); }
    let ghost o = out@;
    push_u64(&mut out, s.excluded.len() as u64);
    proof { lemma_assoc(o, le_u64(m.excluded.len() as u64), t10); }
    let ghost o = out@;
    push_peers(&mut out, &s.excluded);
    proof { lemma_assoc(o, peers_bytes(m.excluded), t11); }
    let ghost o = out@;
    out.push(code_of_state(s.state));
    assert(out@ == o + seq![state_code(m.state)]);
    proof { lemma_assoc(o, seq![state_code(m.state)], t12); }
    let ghost o = out@;
    assert(o + t12 == whole);
    match &s.signature {
        None => {
            out.push(0u8);
            assert(out@ =~= o + t12);
        },
        Some(g) => {
            out.push(1u8);
            let ghost o1 = out@;
            push_framed(&mut out, g);
            assert(out@ =~= o + t12);
        },
    }
    out
}

pub(crate) fn read_u64(b: &Vec<u8>, pos: usize) -> (r: Option<(u64, usize)>)
    requires
        pos <= b@.len(),
    ensures
        match take_u64(b@.skip(pos as int)) {
            None => r.is_none(),
            Some((x, rest)) => r.is_some() && r.unwrap().0 == x && r.unwrap().1 == pos + 8 && pos + 8
                <= b@.len() && b@.skip(pos + 8) == rest,
        },
{
    if b.len() - pos < 8 {
        return None;
    }
    let x = (b[pos] as u64) | ((b[pos + 1] as u64) << 8) | ((b[pos + 2] as u64) << 16) | ((b[pos
        + 3] as u64) << 24) | ((b[pos + 4] as u64) << 32) | ((b[pos + 5] as u64) << 40) | ((b[pos
        + 6] as u64) << 48) | ((b[pos + 7] as u64) << 56);
    let ghost c = b@.skip(pos as int);
    assert(c[0] == b@[pos as int] && c[1] == b@[pos + 1] && c[2] == b@[pos + 2] && c[3] == b@[pos
        + 3]);
    assert(c[4] == b@[pos + 4] && c[5] == b@[pos + 5] && c[6] == b@[pos + 6] && c[7] == b@[pos
        + 7]);
    assert(c.skip(8) =~= b@.skip(pos + 8));
    Some((x, pos + 8))
}

fn read_u16(b: &Vec<u8>, pos: usize) -> (r: Option<(u16, usize)>)
    requires
        pos <= b@.len(),
    ensures
        match take_u16(b@.skip(pos as int)) {
            None => r.is_none(),
            Some((x, rest)) => r.is_some() && r.unwrap().0 == x && r.unwrap().1 == pos + 2 && pos + 2
                <= b@.len() && b@.skip(pos + 2) == rest,
        },
{
    if b.len() - pos < 2 {
        return None;
    }
    let x = (b[pos] as u16) | ((b[pos + 1] as u16) << 8);
    let ghost c = b@.skip(pos as int);
    assert(c[0] == b@[pos as int] && c[1] == b@[pos + 1]);
    assert(c.skip(2) =~= b@.skip(pos + 2));
    Some((x, pos + 2))
}

pub(crate) fn read_framed(b: &Vec<u8>, pos: usize) -> (r: Option<(Vec<u8>, usize)>)
    requires
        pos <= b@.len(),
    ensures
        match take_framed(b@.skip(pos as int)) {
            None => r.is_none(),
            Some((x, rest)) => r.is_some() && r.unwrap().0@ == x && pos <= r.unwrap().1 <= b@.len()
                && b@.skip(r.unwrap().1 as int) == rest,
        },
{
    let (n, p) = match read_u64(b, pos) {
        None => return None,
        Some(v) => v,
    };
    if n > (b.len() - p) as u64 {
        return None;
    }
    let end: usize = p + n as usize;
    let mut v: Vec<u8> = Vec::new();
    let mut i: usize = p;
    while i < end
        invariant
            p <= i <= end <= b@.len(),
            v@ == b@.subrange(p as int, i as int),
        decreases end - i,
    {
        v.push(b[i]);
        assert(b@.subrange(p as int, i + 1) =~= b@.subrange(p as int, i as int).push(b@[i as int]));
        i = i + 1;
    }
    assert(b@.skip(p as int).take(n as int) =~= b@.subrange(p as int, end as int));
    assert(b@.skip(p as int).skip(n as int) =~= b@.skip(end as int));
    Some((v, end))
}

proof fn lemma_take_shares_unfold(c: Seq<u8>, n: nat)
    requires
        n > 0,
    ensures
        take_shares(c, n) == match take_u16(c) {
            None => None,
            Some((pp, r1)) => match take_framed(r1) {
                None => None,
                Some((x, r2)) => match take_shares(r2, (n - 1) as nat) {
                    None => None,
                    Some((xs, r3)) => Some((seq![(pp, x)] + xs, r3)),
                },
            },
        },
{
}

proof fn lemma_take_peers_unfold(c: Seq<u8>, n: nat)
    requires
        n > 0,
    ensures
        take_peers(c, n) == match take_u16(c) {
            None => None,
            Some((pp, r1)) => match take_peers(r1, (n - 1) as nat) {
                None => None,
                Some((ps, r2)) => Some((seq![pp] + ps, r2)),
            },
        },
{
}

pub(crate) fn read_shares(b: &Vec<u8>, pos: usize, n: u64) -> (r: Option<(Vec<SignatureShare>, usize)>)
    requires
        pos <= b@.len(),
    ensures
        match take_shares(b@.skip(pos as int), n as nat) {
            None => r.is_none(),
            Some((xs, rest)) => r.is_some() && shares_model(r.unwrap().0@) == xs && r.unwrap().1
                <= b@.len() && b@.skip(r.unwrap().1 as int) == rest,
        },
{
    let mut out: Vec<SignatureShare> = Vec::new();
    let mut p: usize = pos;
    let mut k: u64 = 0;
    assert(shares_model(out@) + Seq::<(u16, Seq<u8>)>::empty() =~= Seq::<(u16, Seq<u8>)>::empty());
    assert(forall|xs: Seq<(u16, Seq<u8>)>| shares_model(out@) + xs =~= xs);
    while k < n
        invariant
            pos <= p <= b@.len(),
            k <= n,
            take_shares(b@.skip(pos as int), n as nat) == match take_shares(
                b@.skip(p as int),
                (n - k) as nat,
            ) {
                None => None,
                Some((xs, rest)) => Some((shares_model(out@) + xs, rest)),
            },
        decreases n - k,
    {
        let ghost c = b@.skip(p as int);
        let ghost m = (n - k - 1) as nat;
        proof {
            lemma_take_shares_unfold(c, (n - k) as nat);
        }
        let (peer, at1) = match read_u16(b, p) {
            None => return None,
            Some(v) => v,
        };
        let (x, at2) = match read_framed(b, at1) {
            None => return None,
            Some(v) => v,
        };
        let ghost before = shares_model(out@);
        let sh = SignatureShare { peer_id: peer, share_bytes: x };
        out.push(sh);
        proof {
            assert(shares_model(out@) =~= before.push((peer, sh.share_bytes@)));
            match take_shares(b@.skip(at2 as int), m) {
                None => {},
                Some((xs, rest)) => {
                    assert(before + (seq![(peer, sh.share_bytes@)] + xs) =~= shares_model(out@) + xs);
                },
            }
        }
        p = at2;
        k = k + 1;
    }
    assert(shares_model(out@) + Seq::<(u16, Seq<u8>)>::empty() =~= shares_model(out@));
    Some((out, p))
}

fn read_peers(b: &Vec<u8>, pos: usize, n: u64) -> (r: Option<(Vec<u16>, usize)>)
    requires
        pos <= b@.len(),
    ensures
        match take_peers(b@.skip(pos as int), n as nat) {
            None => r.is_none(),
            Some((xs, rest)) => r.is_some() && r.unwrap().0@ == xs && r.unwrap().1 <= b@.len()
                && b@.skip(r.unwrap().1 as int) == rest,
        },
{
    let mut out: Vec<u16> = Vec::new();
    let mut p: usize = pos;
    let mut k: u64 = 0;
    assert(forall|xs: Seq<u16>| out@ + xs =~= xs);
    while k < n
        invariant
            pos <= p <= b@.len(),
            k <= n,
            take_peers(b@.skip(pos as int), n as nat) == match take_peers(
                b@.skip(p as int),
                (n - k) as nat,
            ) {
                None => None,
                Some((xs, rest)) => Some((out@ + xs, rest)),
            },
        decreases n - k,
    {
        let ghost c = b@.skip(p as int);
        let ghost m = (n - k - 1) as nat;
        proof {
            lemma_take_peers_unfold(c, (n - k) as nat);
        }
        let (peer, at1) = match read_u16(b, p) {
            None => return None,
            Some(v) => v,
        };
        let ghost before = out@;
        out.push(peer);
        proof {
            match take_peers(b@.skip(at1 as int), m) {
                None => {},
                Some((xs, rest)) => {
                    assert(before + (seq![peer] + xs) =~= out@ + xs);
                },
            }
        }
        p = at1;
        k = k + 1;
    }
    assert(out@ + Seq::<u16>::empty() =~= out@);
    Some((out, p))
}

fn read_signature(b: &Vec<u8>, pos: usize) -> (r: Option<(Option<Vec<u8>>, usize)>)
    requires
        pos <= b@.len(),
    ensures
        match take_signature(b@.skip(pos as int)) {
            None => r.is_none(),
            Some((g, rest)) => r.is_some() && r.unwrap().1 <= b@.len() && b@.skip(
                r.unwrap().1 as int,
            ) == rest && match (g, r.unwrap().0) {
                (None, None) => true,
                (Some(x), Some(v)) => v@ == x,
                _ => false,
            },
        },
{
    if pos == b.len() {
        return None;
    }
    let ghost c = b@.skip(pos as int);
    assert(c[0] == b@[pos as int]);
    assert(c.skip(1) =~= b@.skip(pos + 1));
    let tag = b[pos];
    if tag == 0 {
        Some((None, pos + 1))
    } else if tag == 1 {
        match read_framed(b, pos + 1) {
            None => None,
            Some((v, p)) => Some((Some(v), p)),
        }
    } else {
        None
    }
}

fn state_from_code(c: u8) -> (r: Option<SessionState>)
    ensures
        r == state_of_code(c),
{
    if c == 0 {
        Some(SessionState::Pending)
    } else if c == 1 {
        Some(SessionState::ThresholdReached)
    } else if c == 2 {
        Some(SessionState::Aggregated)
    } else if c == 3 {
        Some(SessionState::Broadcast)
    } else if c == 4 {
        Some(SessionState::Failed)
    } else {
        None
    }
}

fn shares_ascending(v: &Vec<SignatureShare>) -> (r: bool)
    ensures
        r == ascending(shares_model(v@)),
{
    let n = v.len();
    if n == 0 {
        return true;
    }
    let mut i: usize = 1;
    while i < n
        invariant
            1 <= i <= n,
            n == v@.len(),
            forall|a: int, c: int|
                0 <= a < c < i ==> shares_model(v@)[a].0 < shares_model(v@)[c].0,
        decreases n - i,
    {
        assert(shares_model(v@)[i - 1].0 == v@[i - 1].peer_id);
        assert(shares_model(v@)[i as int].0 == v@[i as int].peer_id);
        if v[i - 1].peer_id >= v[i].peer_id {
            return false;
        }
        assert forall|a: int, c: int| 0 <= a < c < i + 1 implies shares_model(v@)[a].0
            < shares_model(v@)[c].0 by {
            if c == i && a < i - 1 {
                assert(shares_model(v@)[a].0 < shares_model(v@)[i - 1].0);
            }
        }
        i = i + 1;
    }
    true
}

/// Reads a session back from its record. Bytes that are not the record of
/// a well-formed session, in full and with nothing after it, give `None`.
#[verifier::rlimit(60)]
pub fn decode_session(b: &Vec<u8>) -> (r: Option<SigningSession>)
    ensures
        match parse_record(b@) {
            None => r.is_none(),
            Some(m) => r.is_some() && r.unwrap().wf() && session_model(r.unwrap()) == m,
        },
{
    assert(b@.skip(0) =~= b@);
    let (event_id, at1) = match read_framed(b, 0) {
        None => return None,
        Some(v) => v,
    };
    let (content, at2) = match read_framed(b, at1) {
        None => return None,
        Some(v) => v,
    };
    let (created_at, at3) = match read_u64(b, at2) {
        None => return None,
        Some(v) => v,
    };
    let (threshold, at4) = match read_u64(b, at3) {
        None => return None,
        Some(v) => v,
    };
    let (ns, at5) = match read_u64(b, at4) {
        None => return None,
        Some(v) => v,
    };
    let (shares, at6) = match read_shares(b, at5, ns) {
        None => return None,
        Some(v) => v,
    };
    let (nw, at7) = match read_u64(b, at6) {
        None => return None,
        Some(v) => v,
    };
    let (warned, at8) = match read_peers(b, at7, nw) {
        None => return None,
        Some(v) => v,
    };
    let (ne, at9) = match read_u64(b, at8) {
        None => return None,
        Some(v) => v,
    };
    let (excluded, at10) = match read_peers(b, at9, ne) {
        None => return None,
        Some(v) => v,
    };
    let ghost t10 = b@.skip(at10 as int);
    if at10 == b.len() {
        return None;
    }
    assert(t10[0] == b@[at10 as int]);
    assert(t10.skip(1) =~= b@.skip(at10 + 1));
    let state = match state_from_code(b[at10]) {
        None => return None,
        Some(st) => st,
    };
    let (signature, at11) = match read_signature(b, at10 + 1) {
        None => return None,
        Some(v) => v,
    };
    let has_signature = signature.is_some();
    let ghost sig_model = opt_bytes(signature);
    let ghost m = SessionModel {
        event_id: event_id@,
        content: content@,
        created_at,
        threshold,
        shares: shares_model(shares@),
        warned: warned@,
        excluded: excluded@,
        state,
        signature: sig_model,
    };
    assert(parse_tail(
        t10,
        event_id@,
        content@,
        created_at,
        threshold,
        shares_model(shares@),
        warned@,
        excluded@,
    ) == if b@.skip(at11 as int).len() == 0 && model_wf(m) {
        Some(m)
    } else {
        None
    });
    assert(parse_record(b@) == parse_tail(
        t10,
        event_id@,
        content@,
        created_at,
        threshold,
        shares_model(shares@),
        warned@,
        excluded@,
    ));
    if at11 != b.len() {
        return None;
    }
    let n = shares.len();
    let ok = threshold >= 1 && shares_ascending(&shares) && (state != SessionState::Pending || (n
        as u64) < threshold) && (!(state == SessionState::ThresholdReached || state
        == SessionState::Aggregated || state == SessionState::Broadcast) || (n as u64)
        >= threshold) && (has_signature == (state == SessionState::Aggregated || state
        == SessionState::Broadcast));
    if !ok {
        return None;
    }
    let s = SigningSession {
        event_id,
        content,
        created_at,
        threshold,
        shares,
        warned,
        excluded,
        state,
        signature,
    };
    assert(session_model(s) == m);
    Some(s)
}

/// A well-formed session survives being persisted: its record reads back
/// as the same session, so `decode_session` of what `encode_session` wrote
/// gives it back after a restart.
pub proof fn lemma_session_round_trip(s: SigningSession)
    requires
        s.wf(),
    ensures
        parse_record(record_bytes(session_model(s))) == Some(session_model(s)),
{
    let m = session_model(s);
    assert(s.event_id.len() == s.event_id@.len());
    assert(s.content.len() == s.content@.len());
    assert(s.shares.len() == s.shares@.len());
    assert(s.warned.len() == s.warned@.len());
    assert(s.excluded.len() == s.excluded@.len());
    assert(usize::MAX <= u64::MAX);
    assert forall|i: int| 0 <= i < m.shares.len() implies #[trigger] m.shares[i].1.len() <= u64::MAX by {
        assert(m.shares[i].1 == s.shares@[i].share_bytes@);
        assert(s.shares@[i].share_bytes.len() == s.shares@[i].share_bytes@.len());
    }
    match s.signature {
        None => {},
        Some(g) => {
            assert(g.len() == g@.len());
        },
    }
    lemma_record_round_trip(m);
}

} // verus!
