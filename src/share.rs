//! Signature shares and the ascending-by-peer share list of a session.

use vstd::prelude::*;

verus! {

/// A guardian's identifier, unique within its federation.
pub type PeerId = u16;

/// A guardian's partial signature over one event.
#[derive(Debug)]
pub struct SignatureShare {
    pub peer_id: u16,
    pub share_bytes: Vec<u8>,
}

/// What a share stands for: the peer that produced it and its bytes.
pub open spec fn share_model(s: SignatureShare) -> (u16, Seq<u8>) {
    (s.peer_id, s.share_bytes@)
}

/// The model of a list of shares.
pub open spec fn shares_model(v: Seq<SignatureShare>) -> Seq<(u16, Seq<u8>)> {
    v.map_values(|s: SignatureShare| share_model(s))
}

/// Peer ids strictly increase along the list, so each peer appears once.
pub open spec fn ascending(s: Seq<(u16, Seq<u8>)>) -> bool {
    forall|i: int, j: int| 0 <= i < j < s.len() ==> s[i].0 < s[j].0
}

/// Some share of the list comes from peer `p`.
pub open spec fn has_peer(s: Seq<(u16, Seq<u8>)>, p: u16) -> bool {
    exists|i: int| 0 <= i < s.len() && s[i].0 == p
}

/// The shares that aggregation uses: the first `t` in ascending peer order.
pub open spec fn selected(s: Seq<(u16, Seq<u8>)>, t: nat) -> Seq<(u16, Seq<u8>)> {
    s.take(t as int)
}

impl SignatureShare {
    /// A share from `peer_id` with the given bytes.
    pub fn new(peer_id: u16, share_bytes: Vec<u8>) -> (r: SignatureShare)
        ensures
            r.peer_id == peer_id,
            r.share_bytes@ == share_bytes@,
    {
        SignatureShare { peer_id, share_bytes }
    }

    /// A copy with the same peer and the same bytes.
    pub fn duplicate(&self) -> (r: SignatureShare)
        ensures
            share_model(r) == share_model(*self),
    {
        let b = self.share_bytes.clone();
        assert(b@ =~= self.share_bytes@);
        SignatureShare { peer_id: self.peer_id, share_bytes: b }
    }
}

/// Copies the first `t` shares of `v`.
pub fn copy_prefix(v: &Vec<SignatureShare>, t: usize) -> (r: Vec<SignatureShare>)
    requires
        t <= v@.len(),
    ensures
        shares_model(r@) == selected(shares_model(v@), t as nat),
{
    let mut r: Vec<SignatureShare> = Vec::new();
    let mut i: usize = 0;
    while i < t
        invariant
            i <= t <= v@.len(),
            shares_model(r@) =~= shares_model(v@).take(i as int),
        decreases t - i,
    {
        let s = v[i].duplicate();
        let ghost before = r@;
        r.push(s);
        assert(r@ =~= before.push(s));
        assert(shares_model(r@) =~= shares_model(before).push(share_model(s)));
        assert(shares_model(v@).take(i + 1) =~= shares_model(v@).take(i as int).push(
            share_model(v@[i as int]),
        ));
        i = i + 1;
    }
    assert(shares_model(r@) =~= shares_model(v@).take(t as int));
    r
}

/// Where `p` belongs in an ascending list: the number of shares from peers
/// below `p`.
pub fn insertion_point(v: &Vec<SignatureShare>, p: u16) -> (r: usize)
    requires
        ascending(shares_model(v@)),
    ensures
        r <= v@.len(),
        forall|i: int| 0 <= i < r ==> #[trigger] v@[i].peer_id < p,
        forall|i: int| r <= i < v@.len() ==> #[trigger] v@[i].peer_id >= p,
{
    let mut i: usize = 0;
    while i < v.len() && v[i].peer_id < p
        invariant
            i <= v@.len(),
            ascending(shares_model(v@)),
            forall|k: int| 0 <= k < i ==> #[trigger] v@[k].peer_id < p,
        decreases v@.len() - i,
    {
        i = i + 1;
    }
    proof {
        if i < v@.len() {
            assert forall|k: int| i <= k < v@.len() implies #[trigger] v@[k].peer_id >= p by {
                if k > i {
                    assert(shares_model(v@)[i as int].0 < shares_model(v@)[k].0);
                }
            }
        }
    }
    i
}

/// Whether the list of peer ids holds `p`.
pub fn contains_peer(v: &Vec<u16>, p: u16) -> (r: bool)
    ensures
        r == v@.contains(p),
{
    let mut i: usize = 0;
    while i < v.len()
        invariant
            i <= v@.len(),
            forall|k: int| 0 <= k < i ==> v@[k] != p,
        decreases v@.len() - i,
    {
        if v[i] == p {
            assert(v@[i as int] == p);
            return true;
        }
        i = i + 1;
    }
    false
}

/// Whether an ascending share list holds a share from `p`.
pub fn holds_peer(v: &Vec<SignatureShare>, p: u16) -> (r: bool)
    requires
        ascending(shares_model(v@)),
    ensures
        r == has_peer(shares_model(v@), p),
{
    let i = insertion_point(v, p);
    if i < v.len() && v[i].peer_id == p {
        assert(shares_model(v@)[i as int].0 == p);
        true
    } else {
        assert forall|k: int| 0 <= k < v@.len() implies shares_model(v@)[k].0 != p by {
            assert(v@[k].peer_id == shares_model(v@)[k].0);
            if k > i {
                assert(shares_model(v@)[i as int].0 < shares_model(v@)[k].0);
            }
        }
        false
    }
}

/// Puts a share from a peer not yet in the list at its place in peer order.
pub fn insert_share(v: &mut Vec<SignatureShare>, s: SignatureShare)
    requires
        ascending(shares_model(old(v)@)),
        !has_peer(shares_model(old(v)@), s.peer_id),
    ensures
        ascending(shares_model(final(v)@)),
        final(v)@.len() == old(v)@.len() + 1,
        forall|x: (u16, Seq<u8>)|
            shares_model(final(v)@).contains(x) <==> (shares_model(old(v)@).contains(x) || x
                == share_model(s)),
{
    let i = insertion_point(v, s.peer_id);
    let ghost m0 = shares_model(v@);
    let ghost sm = share_model(s);
    v.insert(i, s);
    proof {
        let m1 = shares_model(v@);
        assert(m1 =~= m0.insert(i as int, sm));
        assert forall|k: int| 0 <= k < m0.len() implies #[trigger] m0[k].0 != sm.0 by {
            if m0[k].0 == sm.0 {
                assert(has_peer(m0, sm.0));
            }
        }
        assert forall|a: int, b: int| 0 <= a < b < m1.len() implies m1[a].0 < m1[b].0 by {
            if b < i {
            } else if a > i {
                assert(m1[a] == m0[a - 1]);
                assert(m1[b] == m0[b - 1]);
            } else if a == i {
                assert(m1[b] == m0[b - 1]);
                assert(m0[b - 1].0 != sm.0);
            } else if b == i {
                assert(m1[a] == m0[a]);
            } else {
                assert(m1[a] == m0[a]);
                assert(m1[b] == m0[b - 1]);
            }
        }
        assert forall|x: (u16, Seq<u8>)| m1.contains(x) <==> (m0.contains(x) || x == sm) by {
            if m1.contains(x) {
                let k = choose|k: int| 0 <= k < m1.len() && m1[k] == x;
                if k < i {
                    assert(m0[k] == x);
                } else if k > i {
                    assert(m0[k - 1] == x);
                }
            }
            if m0.contains(x) {
                let k = choose|k: int| 0 <= k < m0.len() && m0[k] == x;
                if k < i {
                    assert(m1[k] == x);
                } else {
                    assert(m1[k + 1] == x);
                }
            }
            if x == sm {
                assert(m1[i as int] == x);
            }
        }
    }
}

/// Two ascending lists that hold the same shares are the same list.
pub proof fn lemma_ascending_determined(a: Seq<(u16, Seq<u8>)>, b: Seq<(u16, Seq<u8>)>)
    requires
        ascending(a),
        ascending(b),
        forall|x: (u16, Seq<u8>)| a.contains(x) <==> b.contains(x),
    ensures
        a == b,
    decreases a.len(),
{
    if a.len() == 0 {
        if b.len() > 0 {
            assert(b.contains(b[0]));
        }
        assert(a =~= b);
    } else if b.len() == 0 {
        assert(a.contains(a[0]));
    } else {
        assert(a.contains(a[0]));
        assert(b.contains(b[0]));
        let j = choose|j: int| 0 <= j < b.len() && b[j] == a[0];
        let k = choose|k: int| 0 <= k < a.len() && a[k] == b[0];
        assert(j == 0) by {
            if j > 0 {
                assert(b[0].0 < b[j].0);
                if k > 0 {
                    assert(a[0].0 < a[k].0);
                }
            }
        }
        let a1 = a.drop_first();
        let b1 = b.drop_first();
        assert forall|x: (u16, Seq<u8>)| a1.contains(x) <==> b1.contains(x) by {
            if a1.contains(x) {
                let i = choose|i: int| 0 <= i < a1.len() && a1[i] == x;
                assert(a[i + 1] == x);
                assert(a[0].0 < a[i + 1].0);
                assert(a.contains(x));
                let m = choose|m: int| 0 <= m < b.len() && b[m] == x;
                assert(m != 0);
                assert(b1[m - 1] == x);
            }
            if b1.contains(x) {
                let i = choose|i: int| 0 <= i < b1.len() && b1[i] == x;
                assert(b[i + 1] == x);
                assert(b[0].0 < b[i + 1].0);
                assert(b.contains(x));
                let m = choose|m: int| 0 <= m < a.len() && a[m] == x;
                assert(m != 0);
                assert(a1[m - 1] == x);
            }
        }
        lemma_ascending_determined(a1, b1);
        assert(a =~= b1.insert(0, a[0]));
        assert(b =~= b1.insert(0, b[0]));
    }
}

/// The shares chosen for aggregation depend only on which shares a session
/// holds, never on the order in which they arrived: two ascending lists with
/// the same shares select the same first `t`.
pub proof fn lemma_selection_independent_of_arrival(
    a: Seq<(u16, Seq<u8>)>,
    b: Seq<(u16, Seq<u8>)>,
    t: nat,
)
    requires
        ascending(a),
        ascending(b),
        forall|x: (u16, Seq<u8>)| a.contains(x) <==> b.contains(x),
    ensures
        selected(a, t) == selected(b, t),
{
    lemma_ascending_determined(a, b);
}

} // verus!
