//! Merging the views of all sources into one conflict-free peer map.

use crate::config::{self, GlobalConfig};
use crate::ip::{v4_holds, v6_holds, Ipv4Net, Ipv6Net};
use crate::model::{self, base64_text_of, key_index, keys_distinct, Endpoint, Key, PeerView, Secret};
use crate::proto;
use vstd::prelude::*;

verus! {

/// Why the builder rejected or trimmed a peer.
#[derive(Clone, Copy, PartialEq, Eq, Debug, Structural)]
pub enum Reason {
    PeerSourceNotAllowed,
    LocalRoadWarrior,
    RoadWarriorsNotAllowed,
    UnknownBase,
    DuplicateKey,
    SomeIpsRemoved,
    AllIpsRemoved,
}

/// The words that describe each reason.
pub open spec fn reason_text(r: Reason) -> Seq<char> {
    match r {
        Reason::PeerSourceNotAllowed => "peer source not allowed"@,
        Reason::LocalRoadWarrior => "the local peer cannot be a road warrior"@,
        Reason::RoadWarriorsNotAllowed => "road warriors from this source not allowed"@,
        Reason::UnknownBase => "unknown base peer"@,
        Reason::DuplicateKey => "duplicate public key"@,
        Reason::SomeIpsRemoved => "some IPs removed"@,
        Reason::AllIpsRemoved => "all IPs removed"@,
    }
}

impl Reason {
    pub fn message(&self) -> (r: &'static str)
        ensures
            r@ == reason_text(*self),
    {
        match self {
            Reason::PeerSourceNotAllowed => "peer source not allowed",
            Reason::LocalRoadWarrior => "the local peer cannot be a road warrior",
            Reason::RoadWarriorsNotAllowed => "road warriors from this source not allowed",
            Reason::UnknownBase => "unknown base peer",
            Reason::DuplicateKey => "duplicate public key",
            Reason::SomeIpsRemoved => "some IPs removed",
            Reason::AllIpsRemoved => "all IPs removed",
        }
    }
}

/// A problem with one peer of one source. An important one means the peer
/// was dropped; another means it was only trimmed.
pub struct Error {
    pub src: String,
    pub peer: Key,
    pub important: bool,
    pub err: Reason,
}

pub struct ErrorView {
    pub src: Seq<char>,
    pub peer: Key,
    pub important: bool,
    pub err: Reason,
}

impl View for Error {
    type V = ErrorView;

    open spec fn view(&self) -> ErrorView {
        ErrorView { src: self.src@, peer: self.peer, important: self.important, err: self.err }
    }
}

pub open spec fn error_of(src: &config::Source, peer: Key, important: bool, err: Reason) -> ErrorView {
    ErrorView { src: src.name@, peer, important, err }
}

impl Error {
    fn new(err: Reason, src: &config::Source, peer: Key, important: bool) -> (r: Error)
        ensures
            r@ == error_of(src, peer, important, err),
    {
        Error { src: src.name.clone(), peer, important, err }
    }

    pub fn important(&self) -> (r: bool)
        ensures
            r == self.important,
    {
        self.important
    }

    /// `invalid peer [source]/[key]: reason`, or `misconfigured peer ...`
    /// for an error that is not important.
    pub fn to_text(&self) -> (r: String)
        ensures
            r@ == (if self.important {
                "invalid peer"@
            } else {
                "misconfigured peer"@
            }) + " ["@ + self.src@ + "]/["@ + base64_text_of(self.peer.0@) + "]: "@ + reason_text(
                self.err,
            ),
    {
        let mut r = String::from_str(if self.important {
            "invalid peer"
        } else {
            "misconfigured peer"
        });
        r.append(" [");
        r.append(self.src.as_str());
        r.append("]/[");
        r.append(self.peer.to_base64().as_str());
        r.append("]: ");
        r.append(self.err.message());
        r
    }
}

/// How a peer is reached: endpoint, preshared key and keepalive.
#[derive(Clone, Copy)]
pub struct Contact {
    pub endpoint: Option<Endpoint>,
    pub psk: Option<Secret>,
    pub keepalive: u32,
}

/// The contact of the peer `pk` published by `src` with keepalive `raw`, after
/// the operator's override for `pk`; nothing when the override names another source.
pub open spec fn contact_of(gc: &GlobalConfig, src: &config::Source, pk: Key, raw: u32) -> Option<
    Contact,
> {
    let base = Contact { endpoint: None, psk: src.psk, keepalive: gc.spec_fix_keepalive(raw) };
    match key_index(gc.peers@, pk) {
        None => Some(base),
        Some(i) => {
            let pc = gc.peers@[i].1;
            if pc.source matches Some(s) && s@ != src.name@ {
                None
            } else {
                Some(
                    Contact {
                        endpoint: pc.endpoint,
                        psk: if pc.psk is Some {
                            pc.psk
                        } else {
                            base.psk
                        },
                        keepalive: match pc.keepalive {
                            Some(k) => k,
                            None => base.keepalive,
                        },
                    },
                )
            }
        },
    }
}

/// The prefixes of `s` that `allowed` holds, in order.
pub open spec fn kept4(s: Seq<Ipv4Net>, allowed: Seq<Ipv4Net>) -> Seq<Ipv4Net>
    decreases s.len(),
{
    if s.len() == 0 {
        Seq::empty()
    } else if v4_holds(allowed, s.last()) {
        kept4(s.drop_last(), allowed).push(s.last())
    } else {
        kept4(s.drop_last(), allowed)
    }
}

pub open spec fn kept6(s: Seq<Ipv6Net>, allowed: Seq<Ipv6Net>) -> Seq<Ipv6Net>
    decreases s.len(),
{
    if s.len() == 0 {
        Seq::empty()
    } else if v6_holds(allowed, s.last()) {
        kept6(s.drop_last(), allowed).push(s.last())
    } else {
        kept6(s.drop_last(), allowed)
    }
}

/// The peer map and the errors so far.
pub type BuildView = (Seq<(Key, PeerView)>, Seq<ErrorView>);

/// Adds `pk` with contact `c`, or reports a duplicate; also gives the
/// position of the entry for `pk`.
pub open spec fn insert_step(st: BuildView, src: &config::Source, pk: Key, c: Contact) -> (
    BuildView,
    int,
) {
    match key_index(st.0, pk) {
        Some(i) => ((st.0, st.1.push(error_of(src, pk, true, Reason::DuplicateKey))), i),
        None => (
            (
                st.0.push(
                    (
                        pk,
                        PeerView {
                            endpoint: c.endpoint,
                            psk: c.psk,
                            keepalive: c.keepalive,
                            ipv4: Seq::empty(),
                            ipv6: Seq::empty(),
                        },
                    ),
                ),
                st.1,
            ),
            st.0.len() as int,
        ),
    }
}

/// Appends to entry `i` the prefixes of `p` that `src` allows, and reports
/// any that it does not.
pub open spec fn merge_step(st: BuildView, i: int, src: &config::Source, p: &proto::Peer) -> BuildView {
    let k4 = kept4(p.ipv4@, src.ipv4@);
    let k6 = kept6(p.ipv6@, src.ipv6@);
    let e = st.0[i].1;
    let added = k4.len() + k6.len() > 0;
    let removed = k4.len() < p.ipv4@.len() || k6.len() < p.ipv6@.len();
    let peers = st.0.update(
        i,
        (st.0[i].0, PeerView { ipv4: e.ipv4 + k4, ipv6: e.ipv6 + k6, ..e }),
    );
    if removed {
        (
            peers,
            st.1.push(
                error_of(
                    src,
                    p.public_key,
                    !added,
                    if added {
                        Reason::SomeIpsRemoved
                    } else {
                        Reason::AllIpsRemoved
                    },
                ),
            ),
        )
    } else {
        (peers, st.1)
    }
}

/// The effect of one server of `src` on the build.
pub open spec fn server_step(
    st: BuildView,
    local: Key,
    gc: &GlobalConfig,
    src: &config::Source,
    srv: &proto::Server,
) -> BuildView {
    let pk = srv.peer.public_key;
    match contact_of(gc, src, pk, srv.keepalive) {
        None => (st.0, st.1.push(error_of(src, pk, true, Reason::PeerSourceNotAllowed))),
        Some(c0) => {
            let c = if c0.endpoint is None {
                Contact { endpoint: Some(srv.endpoint), ..c0 }
            } else {
                c0
            };
            if pk == local {
                st
            } else {
                let (st1, i) = insert_step(st, src, pk, c);
                merge_step(st1, i, src, &srv.peer)
            }
        },
    }
}

/// The effect of one road warrior of `src` on the build.
pub open spec fn road_warrior_step(
    st: BuildView,
    local: Key,
    gc: &GlobalConfig,
    src: &config::Source,
    rw: &proto::RoadWarrior,
) -> BuildView {
    let pk = rw.peer.public_key;
    match contact_of(gc, src, pk, 0) {
        None => (st.0, st.1.push(error_of(src, pk, true, Reason::PeerSourceNotAllowed))),
        Some(c) => if pk == local {
            (st.0, st.1.push(error_of(src, pk, true, Reason::LocalRoadWarrior)))
        } else if rw.base == local {
            if !src.allow_road_warriors {
                (st.0, st.1.push(error_of(src, pk, true, Reason::RoadWarriorsNotAllowed)))
            } else {
                let (st1, i) = insert_step(st, src, pk, c);
                merge_step(st1, i, src, &rw.peer)
            }
        } else {
            match key_index(st.0, rw.base) {
                None => (st.0, st.1.push(error_of(src, pk, true, Reason::UnknownBase))),
                Some(i) => merge_step(st, i, src, &rw.peer),
            }
        },
    }
}

proof fn lemma_key_index_at<V>(s: Seq<(Key, V)>, i: int, k: Key)
    requires
        keys_distinct(s),
        0 <= i < s.len(),
        s[i].0 == k,
    ensures
        key_index(s, k) == Some(i),
{
    let j = choose|j: int| 0 <= j < s.len() && (#[trigger] s[j]).0 == k;
}

fn peer_contact(gc: &GlobalConfig, src: &config::Source, pk: &Key, raw: u32) -> (r: Option<
    Contact,
>)
    requires
        gc.wf(),
    ensures
        r == contact_of(gc, src, *pk, raw),
{
    let mut r = Contact { endpoint: None, psk: src.psk, keepalive: gc.fix_keepalive(raw) };
    match gc.find_override(pk) {
        None => {
            proof {
                if exists|i: int| 0 <= i < gc.peers@.len() && (#[trigger] gc.peers@[i]).0 == *pk {
                    let i = choose|i: int| 0 <= i < gc.peers@.len() && (#[trigger] gc.peers@[i]).0 == *pk;
                }
            }
        },
        Some(i) => {
            proof {
                lemma_key_index_at(gc.peers@, i as int, *pk);
            }
            let pc = &gc.peers[i].1;
            if let Some(want) = &pc.source {
                if *want != src.name {
                    return None;
                }
            }
            r.endpoint = pc.endpoint;
            if pc.psk.is_some() {
                r.psk = pc.psk;
            }
            if let Some(k) = pc.keepalive {
                r.keepalive = k;
            }
        },
    }
    Some(r)
}

/// Collects peers from server and road-warrior entries of the sources.
pub struct ConfigBuilder<'a> {
    pub c: model::Config,
    pub err: Vec<Error>,
    pub public_key: Key,
    pub gc: &'a GlobalConfig,
}

impl<'a> ConfigBuilder<'a> {
    pub open spec fn view(&self) -> BuildView {
        (self.c@, self.err@.map_values(|e: Error| e@))
    }

    pub open spec fn wf(&self) -> bool {
        self.c.wf() && self.gc.wf()
    }

    pub fn new(public_key: Key, gc: &'a GlobalConfig) -> (r: Self)
        requires
            gc.wf(),
        ensures
            r.view().0.len() == 0,
            r.view().1.len() == 0,
            r.public_key == public_key,
            r.gc == gc,
            r.wf(),
    {
        let r = ConfigBuilder { c: model::Config::empty(), err: Vec::new(), public_key, gc };
        assert(r.view().1 =~= Seq::<ErrorView>::empty());
        r
    }

    /// The peer map and the errors met.
    pub fn build(self) -> (r: (model::Config, Vec<Error>))
        ensures
            r.0@ == self.view().0,
            r.1@.map_values(|e: Error| e@) == self.view().1,
    {
        (self.c, self.err)
    }

    fn push_error(&mut self, e: Error)
        ensures
            final(self).view() == (old(self).view().0, old(self).view().1.push(e@)),
            final(self).public_key == old(self).public_key,
            final(self).gc == old(self).gc,
            final(self).c == old(self).c,
    {
        self.err.push(e);
        assert(self.view().1 =~= old(self).view().1.push(e@));
    }

    fn insert_peer(&mut self, src: &config::Source, pk: Key, c: Contact) -> (r: usize)
        requires
            old(self).wf(),
        ensures
            final(self).wf(),
            (final(self).view(), r as int) == insert_step(old(self).view(), src, pk, c),
            final(self).public_key == old(self).public_key,
            final(self).gc == old(self).gc,
    {
        match self.c.find(&pk) {
            Some(i) => {
                proof {
                    lemma_key_index_at(self.c@, i as int, pk);
                }
                self.push_error(Error::new(Reason::DuplicateKey, src, pk, true));
                i
            },
            None => {
                let n = self.c.peers.len();
                let ghost old_c = self.c@;
                self.c.peers.push(
                    (
                        pk,
                        model::Peer {
                            endpoint: c.endpoint,
                            psk: c.psk,
                            keepalive: c.keepalive,
                            ipv4: Vec::new(),
                            ipv6: Vec::new(),
                        },
                    ),
                );
                proof {
                    let v = PeerView {
                        endpoint: c.endpoint,
                        psk: c.psk,
                        keepalive: c.keepalive,
                        ipv4: Seq::empty(),
                        ipv6: Seq::empty(),
                    };
                    assert(self.c@[n as int].1 =~= v);
                    assert(self.c@ =~= old_c.push((pk, v)));
                    assert forall|a: int, b: int|
                        0 <= a < self.c@.len() && 0 <= b < self.c@.len() && a != b implies (
                    #[trigger] self.c@[a]).0 != (#[trigger] self.c@[b]).0 by {
                        if a == n {
                            assert(old_c[b].0 != pk);
                        } else if b == n {
                            assert(old_c[a].0 != pk);
                        } else {
                            assert(old_c[a] == self.c@[a] && old_c[b] == self.c@[b]);
                        }
                    }
                }
                n
            },
        }
    }

    /// Appends to entry `idx` the prefixes of `p` that `src` allows.
    fn add_peer(&mut self, idx: usize, src: &config::Source, p: &proto::Peer)
        requires
            old(self).wf(),
            src.wf(),
            p.wf(),
            idx < old(self).view().0.len(),
        ensures
            final(self).wf(),
            final(self).view() == merge_step(old(self).view(), idx as int, src, p),
            final(self).public_key == old(self).public_key,
            final(self).gc == old(self).gc,
    {
        let ghost st = self.view();
        let (k, mut ent) = self.c.peers.remove(idx);
        let ghost e0 = ent@;
        let n4 = ent.ipv4.len();
        let n6 = ent.ipv6.len();
        let mut i: usize = 0;
        while i < p.ipv4.len()
            invariant
                i <= p.ipv4@.len(),
                src.wf(),
                p.wf(),
                ent.ipv4@ == e0.ipv4 + kept4(p.ipv4@.take(i as int), src.ipv4@),
                ent.ipv6@ == e0.ipv6,
                ent.endpoint == e0.endpoint,
                ent.psk == e0.psk,
                ent.keepalive == e0.keepalive,
            decreases p.ipv4@.len() - i,
        {
            let n = p.ipv4[i];
            proof {
                assert(p.ipv4@.take(i + 1).drop_last() =~= p.ipv4@.take(i as int));
                assert(p.ipv4@.take(i + 1).last() == n);
            }
            if src.ipv4.contains(&n) {
                ent.ipv4.push(n);
                assert(ent.ipv4@ =~= e0.ipv4 + kept4(p.ipv4@.take(i + 1), src.ipv4@));
            }
            i += 1;
        }
        proof {
            assert(p.ipv4@.take(p.ipv4@.len() as int) =~= p.ipv4@);
        }
        let mut j: usize = 0;
        while j < p.ipv6.len()
            invariant
                j <= p.ipv6@.len(),
                src.wf(),
                p.wf(),
                ent.ipv4@ == e0.ipv4 + kept4(p.ipv4@, src.ipv4@),
                ent.ipv6@ == e0.ipv6 + kept6(p.ipv6@.take(j as int), src.ipv6@),
                ent.endpoint == e0.endpoint,
                ent.psk == e0.psk,
                ent.keepalive == e0.keepalive,
            decreases p.ipv6@.len() - j,
        {
            let n = p.ipv6[j];
            proof {
                assert(p.ipv6@.take(j + 1).drop_last() =~= p.ipv6@.take(j as int));
                assert(p.ipv6@.take(j + 1).last() == n);
            }
            if src.ipv6.contains(&n) {
                ent.ipv6.push(n);
                assert(ent.ipv6@ =~= e0.ipv6 + kept6(p.ipv6@.take(j + 1), src.ipv6@));
            }
            j += 1;
        }
        proof {
            assert(p.ipv4@.take(p.ipv4@.len() as int) =~= p.ipv4@);
            assert(p.ipv6@.take(p.ipv6@.len() as int) =~= p.ipv6@);
            lemma_kept4_len(p.ipv4@, src.ipv4@);
            lemma_kept6_len(p.ipv6@, src.ipv6@);
        }
        let added = ent.ipv4.len() > n4 || ent.ipv6.len() > n6;
        let removed = ent.ipv4.len() - n4 < p.ipv4.len() || ent.ipv6.len() - n6 < p.ipv6.len();
        let ghost before = self.c@;
        self.c.peers.insert(idx, (k, ent));
        proof {
            let e1 = PeerView {
                ipv4: e0.ipv4 + kept4(p.ipv4@, src.ipv4@),
                ipv6: e0.ipv6 + kept6(p.ipv6@, src.ipv6@),
                ..e0
            };
            assert(self.c@ =~= st.0.update(idx as int, (k, e1)));
            assert forall|a: int, b: int|
                0 <= a < self.c@.len() && 0 <= b < self.c@.len() && a != b implies (
            #[trigger] self.c@[a]).0 != (#[trigger] self.c@[b]).0 by {
                assert(self.c@[a].0 == st.0[a].0 && self.c@[b].0 == st.0[b].0);
            }
        }
        if removed {
            let r = if added {
                Reason::SomeIpsRemoved
            } else {
                Reason::AllIpsRemoved
            };
            self.push_error(Error::new(r, src, p.public_key, !added));
        }
    }

    /// Adds a server of `src`, unless it is the local peer.
    pub fn add_server(&mut self, src: &config::Source, p: &proto::Server)
        requires
            old(self).wf(),
            src.wf(),
            p.peer.wf(),
        ensures
            final(self).wf(),
            final(self).view() == server_step(
                old(self).view(),
                old(self).public_key,
                old(self).gc,
                src,
                p,
            ),
            final(self).public_key == old(self).public_key,
            final(self).gc == old(self).gc,
    {
        let gc = self.gc;
        let pk = p.peer.public_key;
        let mut contact = match peer_contact(gc, src, &pk, p.keepalive) {
            Some(v) => v,
            None => {
                self.push_error(Error::new(Reason::PeerSourceNotAllowed, src, pk, true));
                return;
            },
        };
        if contact.endpoint.is_none() {
            contact.endpoint = Some(p.endpoint);
        }
        if pk.same(&self.public_key) {
            return;
        }
        let i = self.insert_peer(src, pk, contact);
        self.add_peer(i, src, &p.peer);
    }

    /// Adds a road warrior of `src`: as a peer of its own when its base is the
    /// local peer, else by extending its base peer.
    pub fn add_road_warrior(&mut self, src: &config::Source, p: &proto::RoadWarrior)
        requires
            old(self).wf(),
            src.wf(),
            p.peer.wf(),
        ensures
            final(self).wf(),
            final(self).view() == road_warrior_step(
                old(self).view(),
                old(self).public_key,
                old(self).gc,
                src,
                p,
            ),
            final(self).public_key == old(self).public_key,
            final(self).gc == old(self).gc,
    {
        let pk = p.peer.public_key;
        let contact = match peer_contact(self.gc, src, &pk, 0) {
            Some(v) => v,
            None => {
                self.push_error(Error::new(Reason::PeerSourceNotAllowed, src, pk, true));
                return;
            },
        };
        if pk.same(&self.public_key) {
            self.push_error(Error::new(Reason::LocalRoadWarrior, src, pk, true));
            return;
        }
        if p.base.same(&self.public_key) {
            if !src.allow_road_warriors {
                self.push_error(Error::new(Reason::RoadWarriorsNotAllowed, src, pk, true));
                return;
            }
            let i = self.insert_peer(src, pk, contact);
            self.add_peer(i, src, &p.peer);
            return;
        }
        match self.c.find(&p.base) {
            Some(i) => {
                proof {
                    lemma_key_index_at(self.c@, i as int, p.base);
                }
                self.add_peer(i, src, &p.peer);
            },
            None => {
                self.push_error(Error::new(Reason::UnknownBase, src, pk, true));
            },
        }
    }
}

proof fn lemma_kept4_len(s: Seq<Ipv4Net>, allowed: Seq<Ipv4Net>)
    ensures
        kept4(s, allowed).len() <= s.len(),
    decreases s.len(),
{
    if s.len() > 0 {
        lemma_kept4_len(s.drop_last(), allowed);
    }
}

proof fn lemma_kept6_len(s: Seq<Ipv6Net>, allowed: Seq<Ipv6Net>)
    ensures
        kept6(s, allowed).len() <= s.len(),
    decreases s.len(),
{
    if s.len() > 0 {
        lemma_kept6_len(s.drop_last(), allowed);
    }
}

} // verus!
