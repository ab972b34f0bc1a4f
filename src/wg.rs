//! Planning the changes that take the interface from one peer map to another.

use crate::ip::{Ipv4Net, Ipv6Net};
use crate::model::{self, key_index, keys_distinct, Endpoint, Key, PeerView, Secret};
use vstd::prelude::*;

verus! {

/// What to do with a peer's preshared key.
#[derive(Clone, Copy, PartialEq, Eq)]
pub enum PskChange {
    Keep,
    Replace(Secret),
    Clear,
}

/// The settings to send for one added or changed peer.
pub struct PeerUpdate {
    pub key: Key,
    pub keepalive: u32,
    /// Sent only when it changed and is set.
    pub endpoint: Option<Endpoint>,
    pub psk: PskChange,
    pub ipv4: Vec<Ipv4Net>,
    pub ipv6: Vec<Ipv6Net>,
}

pub struct UpdateView {
    pub key: Key,
    pub keepalive: u32,
    pub endpoint: Option<Endpoint>,
    pub psk: PskChange,
    pub ipv4: Seq<Ipv4Net>,
    pub ipv6: Seq<Ipv6Net>,
}

impl View for PeerUpdate {
    type V = UpdateView;

    open spec fn view(&self) -> UpdateView {
        UpdateView {
            key: self.key,
            keepalive: self.keepalive,
            endpoint: self.endpoint,
            psk: self.psk,
            ipv4: self.ipv4@,
            ipv6: self.ipv6@,
        }
    }
}

/// The update that entry `(k, p)` of the new map needs against `old`, if any.
pub open spec fn update_for(old: Seq<(Key, PeerView)>, k: Key, p: PeerView) -> Option<UpdateView> {
    let o = key_index(old, k);
    if o matches Some(i) && old[i].1 == p {
        None
    } else {
        let (oe, opsk) = match o {
            Some(i) => (old[i].1.endpoint, old[i].1.psk),
            None => (None, None),
        };
        Some(
            UpdateView {
                key: k,
                keepalive: p.keepalive,
                endpoint: if oe != p.endpoint {
                    p.endpoint
                } else {
                    None
                },
                psk: if opsk != p.psk {
                    match p.psk {
                        Some(s) => PskChange::Replace(s),
                        None => PskChange::Clear,
                    }
                } else {
                    PskChange::Keep
                },
                ipv4: p.ipv4,
                ipv6: p.ipv6,
            },
        )
    }
}

/// The updates for the entries of `new`, in its order.
pub open spec fn updates_of(old: Seq<(Key, PeerView)>, new: Seq<(Key, PeerView)>) -> Seq<
    UpdateView,
>
    decreases new.len(),
{
    if new.len() == 0 {
        Seq::empty()
    } else {
        let r = updates_of(old, new.drop_last());
        match update_for(old, new.last().0, new.last().1) {
            Some(u) => r.push(u),
            None => r,
        }
    }
}

/// The keys of `old` that `new` lacks, in the order of `old`.
pub open spec fn removals_of(old: Seq<(Key, PeerView)>, new: Seq<(Key, PeerView)>) -> Seq<Key>
    decreases old.len(),
{
    if old.len() == 0 {
        Seq::empty()
    } else {
        let r = removals_of(old.drop_last(), new);
        if key_index(new, old.last().0) is None {
            r.push(old.last().0)
        } else {
            r
        }
    }
}

/// The changes to send to the interface.
pub struct Diff {
    pub updates: Vec<PeerUpdate>,
    pub removals: Vec<Key>,
}

impl Diff {
    /// Nothing needs to be sent.
    pub fn is_empty(&self) -> (r: bool)
        ensures
            r == (self.updates@.len() == 0 && self.removals@.len() == 0),
    {
        self.updates.len() == 0 && self.removals.len() == 0
    }
}

proof fn lemma_key_index_at<V>(s: Seq<(Key, V)>, i: int, k: Key)
    requires
        keys_distinct(s),
        0 <= i < s.len(),
        s[i].0 == k,
    ensures
        key_index(s, k) == Some(i),
{
    let j = choose|j: int| 0 <= j < s.len() && (#[trigger] s[j]).0 == k;
}

fn clone_v4(v: &Vec<Ipv4Net>) -> (r: Vec<Ipv4Net>)
    ensures
        r@ == v@,
{
    let mut r: Vec<Ipv4Net> = Vec::new();
    let mut i: usize = 0;
    while i < v.len()
        invariant
            i <= v.len(),
            r@ == v@.take(i as int),
        decreases v.len() - i,
    {
        r.push(v[i]);
        i += 1;
        assert(r@ =~= v@.take(i as int));
    }
    assert(v@.take(v.len() as int) =~= v@);
    r
}

fn clone_v6(v: &Vec<Ipv6Net>) -> (r: Vec<Ipv6Net>)
    ensures
        r@ == v@,
{
    let mut r: Vec<Ipv6Net> = Vec::new();
    let mut i: usize = 0;
    while i < v.len()
        invariant
            i <= v.len(),
            r@ == v@.take(i as int),
        decreases v.len() - i,
    {
        r.push(v[i]);
        i += 1;
        assert(r@ =~= v@.take(i as int));
    }
    assert(v@.take(v.len() as int) =~= v@);
    r
}

/// The changes that take the interface from `old` to `new`: one update per
/// entry of `new` that is absent from `old` or differs from it, and one
/// removal per key of `old` that `new` lacks.
pub fn plan_diff(old: &model::Config, new: &model::Config) -> (r: Diff)
    requires
        old.wf(),
    ensures
        r.updates@.map_values(|u: PeerUpdate| u@) == updates_of(old@, new@),
        r.removals@ == removals_of(old@, new@),
{
    let mut updates: Vec<PeerUpdate> = Vec::new();
    let mut i: usize = 0;
    while i < new.peers.len()
        invariant
            i <= new.peers@.len(),
            old.wf(),
            updates@.map_values(|u: PeerUpdate| u@) == updates_of(old@, new@.take(i as int)),
        decreases new.peers@.len() - i,
    {
        let (k, p) = (&new.peers[i].0, &new.peers[i].1);
        let ghost u0 = updates@.map_values(|u: PeerUpdate| u@);
        proof {
            assert(new@.take(i + 1).drop_last() =~= new@.take(i as int));
            assert(new@.take(i + 1).last() == new@[i as int]);
        }
        let o = old.find(k);
        let mut skip = false;
        let mut old_endpoint: Option<Endpoint> = None;
        let mut old_psk: Option<Secret> = None;
        match o {
            Some(j) => {
                proof {
                    lemma_key_index_at(old@, j as int, *k);
                }
                let op = &old.peers[j].1;
                if op.same(p) {
                    skip = true;
                } else {
                    old_endpoint = op.endpoint;
                    old_psk = op.psk;
                }
            },
            None => {},
        }
        if !skip {
            let endpoint = match (&old_endpoint, &p.endpoint) {
                (Some(a), Some(b)) => if *a == *b {
                    None
                } else {
                    Some(*b)
                },
                (None, Some(b)) => Some(*b),
                _ => None,
            };
            let same_psk = match (&old_psk, &p.psk) {
                (Some(a), Some(b)) => a.same(b),
                (None, None) => true,
                _ => false,
            };
            let psk = if same_psk {
                PskChange::Keep
            } else {
                match p.psk {
                    Some(s) => PskChange::Replace(s),
                    None => PskChange::Clear,
                }
            };
            let u = PeerUpdate {
                key: *k,
                keepalive: p.keepalive,
                endpoint,
                psk,
                ipv4: clone_v4(&p.ipv4),
                ipv6: clone_v6(&p.ipv6),
            };
            updates.push(u);
            proof {
                assert(updates@.map_values(|u: PeerUpdate| u@) =~= u0.push(u@));
            }
        }
        i += 1;
    }
    proof {
        assert(new@.take(new@.len() as int) =~= new@);
    }
    let mut removals: Vec<Key> = Vec::new();
    let mut i: usize = 0;
    while i < old.peers.len()
        invariant
            i <= old.peers@.len(),
            removals@ == removals_of(old@.take(i as int), new@),
        decreases old.peers@.len() - i,
    {
        proof {
            assert(old@.take(i + 1).drop_last() =~= old@.take(i as int));
            assert(old@.take(i + 1).last() == old@[i as int]);
        }
        let k = &old.peers[i].0;
        if new.find(k).is_none() {
            removals.push(*k);
        } else {
            proof {
                let j = choose|j: int| 0 <= j < new@.len() && new@[j].0 == *k;
                assert(exists|j: int| 0 <= j < new@.len() && (#[trigger] new@[j]).0 == *k);
            }
        }
        i += 1;
    }
    proof {
        assert(old@.take(old@.len() as int) =~= old@);
    }
    Diff { updates, removals }
}

/// Comparing a peer map with itself yields no change to send.
pub proof fn lemma_diff_of_same_is_empty(c: Seq<(Key, PeerView)>)
    requires
        keys_distinct(c),
    ensures
        updates_of(c, c).len() == 0,
        removals_of(c, c).len() == 0,
{
    lemma_updates_prefix_empty(c, c.len() as int);
    assert(c.take(c.len() as int) =~= c);
    lemma_removals_prefix_empty(c, c.len() as int);
}

proof fn lemma_updates_prefix_empty(c: Seq<(Key, PeerView)>, n: int)
    requires
        keys_distinct(c),
        0 <= n <= c.len(),
    ensures
        updates_of(c, c.take(n)).len() == 0,
    decreases n,
{
    if n > 0 {
        lemma_updates_prefix_empty(c, n - 1);
        assert(c.take(n).drop_last() =~= c.take(n - 1));
        lemma_key_index_at(c, n - 1, c[n - 1].0);
    }
}

proof fn lemma_removals_prefix_empty(c: Seq<(Key, PeerView)>, n: int)
    requires
        0 <= n <= c.len(),
    ensures
        removals_of(c.take(n), c).len() == 0,
    decreases n,
{
    if n > 0 {
        lemma_removals_prefix_empty(c, n - 1);
        assert(c.take(n).drop_last() =~= c.take(n - 1));
        assert(c.take(n).last() == c[n - 1]);
        assert(exists|j: int| 0 <= j < c.len() && (#[trigger] c[j]).0 == c[n - 1].0);
    }
}

} // verus!
