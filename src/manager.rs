//! Per-source state, the whole build over all sources, and the scheduling
//! rules of the refresh loop.

use crate::builder::{
    contact_of, kept4, kept6, merge_step, road_warrior_step, server_step, BuildView, ConfigBuilder, Error,
    ErrorView,
};
use crate::config::{self, clamp_keepalive, GlobalConfig};
use crate::ip::{v4_holds, v6_holds};
use crate::model::{self, key_index, Key, PeerView};
use crate::proto::{self, Timestamp};
use vstd::prelude::*;

verus! {

/// Runtime state of one source: its settings, the last document fetched,
/// when to fetch next and the current retry delay (monotonic nanoseconds).
pub struct Slot {
    pub config: config::Source,
    pub data: proto::Source,
    pub next_update: u64,
    pub backoff: Option<u64>,
}

impl Slot {
    pub open spec fn wf(&self) -> bool {
        self.config.wf() && self.data.wf()
    }
}

/// The view of `data` in force at `now`: the next one once its time has come.
pub open spec fn active_view(data: proto::Source, now: Timestamp) -> proto::SourceConfig {
    match data.next {
        Some((t, v)) => if t.not_later(now) {
            v
        } else {
            data.config
        },
        None => data.config,
    }
}

pub open spec fn servers_pass(
    st: BuildView,
    local: Key,
    gc: &GlobalConfig,
    src: &config::Source,
    list: Seq<proto::Server>,
) -> BuildView
    decreases list.len(),
{
    if list.len() == 0 {
        st
    } else {
        server_step(servers_pass(st, local, gc, src, list.drop_last()), local, gc, src, &list.last())
    }
}

pub open spec fn road_warriors_pass(
    st: BuildView,
    local: Key,
    gc: &GlobalConfig,
    src: &config::Source,
    list: Seq<proto::RoadWarrior>,
) -> BuildView
    decreases list.len(),
{
    if list.len() == 0 {
        st
    } else {
        road_warrior_step(
            road_warriors_pass(st, local, gc, src, list.drop_last()),
            local,
            gc,
            src,
            &list.last(),
        )
    }
}

/// All servers of all sources, in order.
pub open spec fn pass_servers(
    st: BuildView,
    local: Key,
    gc: &GlobalConfig,
    slots: Seq<Slot>,
    now: Timestamp,
) -> BuildView
    decreases slots.len(),
{
    if slots.len() == 0 {
        st
    } else {
        let s = slots.last();
        servers_pass(
            pass_servers(st, local, gc, slots.drop_last(), now),
            local,
            gc,
            &s.config,
            active_view(s.data, now).servers@,
        )
    }
}

/// All road warriors of all sources, in order.
pub open spec fn pass_road_warriors(
    st: BuildView,
    local: Key,
    gc: &GlobalConfig,
    slots: Seq<Slot>,
    now: Timestamp,
) -> BuildView
    decreases slots.len(),
{
    if slots.len() == 0 {
        st
    } else {
        let s = slots.last();
        road_warriors_pass(
            pass_road_warriors(st, local, gc, slots.drop_last(), now),
            local,
            gc,
            &s.config,
            active_view(s.data, now).road_warriors@,
        )
    }
}

/// The peer map and errors built from all sources at `now`: servers first,
/// so that every road warrior finds its base whatever the source order.
pub open spec fn build_of(local: Key, gc: &GlobalConfig, slots: Seq<Slot>, now: Timestamp) -> BuildView {
    pass_road_warriors(
        pass_servers((Seq::empty(), Seq::empty()), local, gc, slots, now),
        local,
        gc,
        slots,
        now,
    )
}

/// The earliest activation time among next views still to come at `now`.
pub open spec fn next_activation(slots: Seq<Slot>, now: Timestamp) -> Option<Timestamp>
    decreases slots.len(),
{
    if slots.len() == 0 {
        None
    } else {
        let rest = next_activation(slots.drop_last(), now);
        match slots.last().data.next {
            Some((t, _)) => if !t.not_later(now) {
                match rest {
                    Some(u) => if u.not_later(t) {
                        Some(u)
                    } else {
                        Some(t)
                    },
                    None => Some(t),
                }
            } else {
                rest
            },
            None => rest,
        }
    }
}

fn select_view<'b>(data: &'b proto::Source, now: &Timestamp) -> (r: &'b proto::SourceConfig)
    ensures
        *r == active_view(*data, *now),
{
    match &data.next {
        Some((t, v)) => if t.not_after(now) {
            v
        } else {
            &data.config
        },
        None => &data.config,
    }
}

/// Builds the desired peer map from the views of all sources in force at
/// `now`, and gives the earliest later activation time.
pub fn make_config(public_key: Key, gc: &GlobalConfig, slots: &Vec<Slot>, now: Timestamp) -> (r: (
    model::Config,
    Vec<Error>,
    Option<Timestamp>,
))
    requires
        gc.wf(),
        forall|i: int| 0 <= i < slots@.len() ==> (#[trigger] slots@[i]).wf(),
    ensures
        r.0.wf(),
        r.0@ == build_of(public_key, gc, slots@, now).0,
        r.1@.map_values(|e: Error| e@) == build_of(public_key, gc, slots@, now).1,
        r.2 == next_activation(slots@, now),
{
    let mut b = ConfigBuilder::new(public_key, gc);
    let mut t_cfg: Option<Timestamp> = None;
    proof {
        assert(b.view() =~= (Seq::<(Key, PeerView)>::empty(), Seq::<ErrorView>::empty()));
    }
    let mut i: usize = 0;
    while i < slots.len()
        invariant
            i <= slots@.len(),
            b.wf(),
            b.public_key == public_key,
            b.gc == gc,
            forall|k: int| 0 <= k < slots@.len() ==> (#[trigger] slots@[k]).wf(),
            b.view() == pass_servers(
                (Seq::empty(), Seq::empty()),
                public_key,
                gc,
                slots@.take(i as int),
                now,
            ),
            t_cfg == next_activation(slots@.take(i as int), now),
        decreases slots@.len() - i,
    {
        let s = &slots[i];
        let view = select_view(&s.data, &now);
        let ghost st0 = b.view();
        let mut j: usize = 0;
        while j < view.servers.len()
            invariant
                j <= view.servers@.len(),
                b.wf(),
                b.public_key == public_key,
                b.gc == gc,
                s.wf(),
                *view == active_view(s.data, now),
                b.view() == servers_pass(st0, public_key, gc, &s.config, view.servers@.take(j as int)),
            decreases view.servers@.len() - j,
        {
            proof {
                assert(view.servers@.take(j + 1).drop_last() =~= view.servers@.take(j as int));
                assert(view.servers@[j as int].peer.wf());
            }
            b.add_server(&s.config, &view.servers[j]);
            j += 1;
        }
        if let Some((t, _)) = &s.data.next {
            if !t.not_after(&now) {
                t_cfg = match t_cfg {
                    Some(u) => if u.not_after(t) {
                        Some(u)
                    } else {
                        Some(*t)
                    },
                    None => Some(*t),
                };
            }
        }
        proof {
            assert(view.servers@.take(view.servers@.len() as int) =~= view.servers@);
            assert(slots@.take(i + 1).drop_last() =~= slots@.take(i as int));
            assert(slots@.take(i + 1).last() == slots@[i as int]);
        }
        i += 1;
    }
    proof {
        assert(slots@.take(slots@.len() as int) =~= slots@);
    }
    let ghost mid = b.view();
    let mut i: usize = 0;
    while i < slots.len()
        invariant
            i <= slots@.len(),
            b.wf(),
            b.public_key == public_key,
            b.gc == gc,
            forall|k: int| 0 <= k < slots@.len() ==> (#[trigger] slots@[k]).wf(),
            b.view() == pass_road_warriors(mid, public_key, gc, slots@.take(i as int), now),
        decreases slots@.len() - i,
    {
        let s = &slots[i];
        let view = select_view(&s.data, &now);
        let ghost st0 = b.view();
        let mut j: usize = 0;
        while j < view.road_warriors.len()
            invariant
                j <= view.road_warriors@.len(),
                b.wf(),
                b.public_key == public_key,
                b.gc == gc,
                s.wf(),
                *view == active_view(s.data, now),
                b.view() == road_warriors_pass(
                    st0,
                    public_key,
                    gc,
                    &s.config,
                    view.road_warriors@.take(j as int),
                ),
            decreases view.road_warriors@.len() - j,
        {
            proof {
                assert(view.road_warriors@.take(j + 1).drop_last() =~= view.road_warriors@.take(
                    j as int,
                ));
                assert(view.road_warriors@[j as int].peer.wf());
            }
            b.add_road_warrior(&s.config, &view.road_warriors[j]);
            j += 1;
        }
        proof {
            assert(view.road_warriors@.take(view.road_warriors@.len() as int)
                =~= view.road_warriors@);
            assert(slots@.take(i + 1).drop_last() =~= slots@.take(i as int));
            assert(slots@.take(i + 1).last() == slots@[i as int]);
        }
        i += 1;
    }
    proof {
        assert(slots@.take(slots@.len() as int) =~= slots@);
    }
    let (c, errs) = b.build();
    (c, errs, t_cfg)
}


/// No entry of `peers` has the key `k`.
pub open spec fn lacks_key(peers: Seq<(Key, PeerView)>, k: Key) -> bool {
    forall|i: int| 0 <= i < peers.len() ==> (#[trigger] peers[i]).0 != k
}

/// Every prefix of every entry is held by the prefix set of one of the sources.
pub open spec fn prefixes_allowed(peers: Seq<(Key, PeerView)>, slots: Seq<Slot>) -> bool {
    &&& forall|i: int, k: int|
        0 <= i < peers.len() && 0 <= k < peers[i].1.ipv4.len() ==> exists|s: int|
            0 <= s < slots.len() && v4_holds(slots[s].config.ipv4@, #[trigger] peers[i].1.ipv4[k])
    &&& forall|i: int, k: int|
        0 <= i < peers.len() && 0 <= k < peers[i].1.ipv6.len() ==> exists|s: int|
            0 <= s < slots.len() && v6_holds(slots[s].config.ipv6@, #[trigger] peers[i].1.ipv6[k])
}

proof fn lemma_kept4_held(s4: Seq<crate::ip::Ipv4Net>, a4: Seq<crate::ip::Ipv4Net>)
    ensures
        forall|k: int| 0 <= k < kept4(s4, a4).len() ==> v4_holds(a4, #[trigger] kept4(s4, a4)[k]),
    decreases s4.len(),
{
    if s4.len() > 0 {
        lemma_kept4_held(s4.drop_last(), a4);
        let r = kept4(s4.drop_last(), a4);
        assert forall|k: int| 0 <= k < kept4(s4, a4).len() implies v4_holds(a4, #[trigger] kept4(s4, a4)[k]) by {
            if k < r.len() {
                assert(kept4(s4, a4)[k] == r[k]);
            }
        }
    }
}

proof fn lemma_kept6_held(s6: Seq<crate::ip::Ipv6Net>, a6: Seq<crate::ip::Ipv6Net>)
    ensures
        forall|k: int| 0 <= k < kept6(s6, a6).len() ==> v6_holds(a6, #[trigger] kept6(s6, a6)[k]),
    decreases s6.len(),
{
    if s6.len() > 0 {
        lemma_kept6_held(s6.drop_last(), a6);
        let r = kept6(s6.drop_last(), a6);
        assert forall|k: int| 0 <= k < kept6(s6, a6).len() implies v6_holds(a6, #[trigger] kept6(s6, a6)[k]) by {
            if k < r.len() {
                assert(kept6(s6, a6)[k] == r[k]);
            }
        }
    }
}

proof fn lemma_merge_keeps(st: BuildView, i: int, slots: Seq<Slot>, s: int, p: &proto::Peer, local: Key)
    requires
        0 <= i < st.0.len(),
        0 <= s < slots.len(),
        prefixes_allowed(st.0, slots),
        lacks_key(st.0, local),
    ensures
        prefixes_allowed(merge_step(st, i, &slots[s].config, p).0, slots),
        lacks_key(merge_step(st, i, &slots[s].config, p).0, local),
        merge_step(st, i, &slots[s].config, p).0.len() == st.0.len(),
{
    let src = &slots[s].config;
    let r = merge_step(st, i, src, p).0;
    lemma_kept4_held(p.ipv4@, src.ipv4@);
    lemma_kept6_held(p.ipv6@, src.ipv6@);
    let e = st.0[i].1;
    assert forall|a: int, k: int| 0 <= a < r.len() && 0 <= k < r[a].1.ipv4.len() implies exists|t: int|
        0 <= t < slots.len() && v4_holds(slots[t].config.ipv4@, #[trigger] r[a].1.ipv4[k]) by {
        if a == i && k >= e.ipv4.len() {
            assert(r[a].1.ipv4[k] == kept4(p.ipv4@, src.ipv4@)[k - e.ipv4.len()]);
        } else if a == i {
            assert(r[a].1.ipv4[k] == st.0[a].1.ipv4[k]);
        } else {
            assert(r[a] == st.0[a]);
        }
    }
    assert forall|a: int, k: int| 0 <= a < r.len() && 0 <= k < r[a].1.ipv6.len() implies exists|t: int|
        0 <= t < slots.len() && v6_holds(slots[t].config.ipv6@, #[trigger] r[a].1.ipv6[k]) by {
        if a == i && k >= e.ipv6.len() {
            assert(r[a].1.ipv6[k] == kept6(p.ipv6@, src.ipv6@)[k - e.ipv6.len()]);
        } else if a == i {
            assert(r[a].1.ipv6[k] == st.0[a].1.ipv6[k]);
        } else {
            assert(r[a] == st.0[a]);
        }
    }
    assert forall|a: int| 0 <= a < r.len() implies (#[trigger] r[a]).0 != local by {
        assert(r[a].0 == st.0[a].0);
    }
}

proof fn lemma_insert_keeps(st: BuildView, slots: Seq<Slot>, s: int, pk: Key, c: crate::builder::Contact, local: Key)
    requires
        0 <= s < slots.len(),
        prefixes_allowed(st.0, slots),
        lacks_key(st.0, local),
        pk != local,
    ensures
        prefixes_allowed(crate::builder::insert_step(st, &slots[s].config, pk, c).0.0, slots),
        lacks_key(crate::builder::insert_step(st, &slots[s].config, pk, c).0.0, local),
        0 <= crate::builder::insert_step(st, &slots[s].config, pk, c).1 < crate::builder::insert_step(st, &slots[s].config, pk, c).0.0.len(),
{
    let r = crate::builder::insert_step(st, &slots[s].config, pk, c).0.0;
    if key_index(st.0, pk) is Some {
        let j = choose|j: int| 0 <= j < st.0.len() && (#[trigger] st.0[j]).0 == pk;
    } else {
        assert forall|a: int, k: int| 0 <= a < r.len() && 0 <= k < r[a].1.ipv4.len() implies exists|t: int|
            0 <= t < slots.len() && v4_holds(slots[t].config.ipv4@, #[trigger] r[a].1.ipv4[k]) by {
            assert(r[a] == st.0[a]);
        }
        assert forall|a: int, k: int| 0 <= a < r.len() && 0 <= k < r[a].1.ipv6.len() implies exists|t: int|
            0 <= t < slots.len() && v6_holds(slots[t].config.ipv6@, #[trigger] r[a].1.ipv6[k]) by {
            assert(r[a] == st.0[a]);
        }
        assert forall|a: int| 0 <= a < r.len() implies (#[trigger] r[a]).0 != local by {
            if a < st.0.len() {
                assert(r[a] == st.0[a]);
            }
        }
    }
}

proof fn lemma_server_step_keeps(st: BuildView, local: Key, gc: &GlobalConfig, slots: Seq<Slot>, s: int, srv: &proto::Server)
    requires
        0 <= s < slots.len(),
        prefixes_allowed(st.0, slots),
        lacks_key(st.0, local),
    ensures
        prefixes_allowed(server_step(st, local, gc, &slots[s].config, srv).0, slots),
        lacks_key(server_step(st, local, gc, &slots[s].config, srv).0, local),
{
    let src = &slots[s].config;
    let pk = srv.peer.public_key;
    if let Some(c0) = crate::builder::contact_of(gc, src, pk, srv.keepalive) {
        if pk != local {
            let c = if c0.endpoint is None {
                crate::builder::Contact { endpoint: Some(srv.endpoint), ..c0 }
            } else {
                c0
            };
            lemma_insert_keeps(st, slots, s, pk, c, local);
            let (st1, i) = crate::builder::insert_step(st, src, pk, c);
            lemma_merge_keeps(st1, i, slots, s, &srv.peer, local);
        }
    }
}

proof fn lemma_road_warrior_step_keeps(st: BuildView, local: Key, gc: &GlobalConfig, slots: Seq<Slot>, s: int, rw: &proto::RoadWarrior)
    requires
        0 <= s < slots.len(),
        prefixes_allowed(st.0, slots),
        lacks_key(st.0, local),
    ensures
        prefixes_allowed(road_warrior_step(st, local, gc, &slots[s].config, rw).0, slots),
        lacks_key(road_warrior_step(st, local, gc, &slots[s].config, rw).0, local),
{
    let src = &slots[s].config;
    let pk = rw.peer.public_key;
    if let Some(c) = crate::builder::contact_of(gc, src, pk, 0) {
        if pk != local {
            if rw.base == local {
                if src.allow_road_warriors {
                    lemma_insert_keeps(st, slots, s, pk, c, local);
                    let (st1, i) = crate::builder::insert_step(st, src, pk, c);
                    lemma_merge_keeps(st1, i, slots, s, &rw.peer, local);
                }
            } else if let Some(i) = key_index(st.0, rw.base) {
                let j = choose|j: int| 0 <= j < st.0.len() && (#[trigger] st.0[j]).0 == rw.base;
                lemma_merge_keeps(st, i, slots, s, &rw.peer, local);
            }
        }
    }
}

proof fn lemma_passes_keep(st: BuildView, local: Key, gc: &GlobalConfig, all: Seq<Slot>, n: int, now: Timestamp)
    requires
        0 <= n <= all.len(),
        prefixes_allowed(st.0, all),
        lacks_key(st.0, local),
    ensures
        prefixes_allowed(pass_servers(st, local, gc, all.take(n), now).0, all),
        lacks_key(pass_servers(st, local, gc, all.take(n), now).0, local),
        prefixes_allowed(pass_road_warriors(st, local, gc, all.take(n), now).0, all),
        lacks_key(pass_road_warriors(st, local, gc, all.take(n), now).0, local),
    decreases n,
{
    if n > 0 {
        lemma_passes_keep(st, local, gc, all, n - 1, now);
        assert(all.take(n).drop_last() =~= all.take(n - 1));
        assert(all.take(n).last() == all[n - 1]);
        let v = active_view(all[n - 1].data, now);
        lemma_servers_list_keeps(pass_servers(st, local, gc, all.take(n - 1), now), local, gc, all, n - 1, v.servers@);
        lemma_road_warriors_list_keeps(pass_road_warriors(st, local, gc, all.take(n - 1), now), local, gc, all, n - 1, v.road_warriors@);
    }
}

proof fn lemma_servers_list_keeps(st: BuildView, local: Key, gc: &GlobalConfig, all: Seq<Slot>, s: int, list: Seq<proto::Server>)
    requires
        0 <= s < all.len(),
        prefixes_allowed(st.0, all),
        lacks_key(st.0, local),
    ensures
        prefixes_allowed(servers_pass(st, local, gc, &all[s].config, list).0, all),
        lacks_key(servers_pass(st, local, gc, &all[s].config, list).0, local),
    decreases list.len(),
{
    if list.len() > 0 {
        lemma_servers_list_keeps(st, local, gc, all, s, list.drop_last());
        lemma_server_step_keeps(servers_pass(st, local, gc, &all[s].config, list.drop_last()), local, gc, all, s, &list.last());
    }
}

proof fn lemma_road_warriors_list_keeps(st: BuildView, local: Key, gc: &GlobalConfig, all: Seq<Slot>, s: int, list: Seq<proto::RoadWarrior>)
    requires
        0 <= s < all.len(),
        prefixes_allowed(st.0, all),
        lacks_key(st.0, local),
    ensures
        prefixes_allowed(road_warriors_pass(st, local, gc, &all[s].config, list).0, all),
        lacks_key(road_warriors_pass(st, local, gc, &all[s].config, list).0, local),
    decreases list.len(),
{
    if list.len() > 0 {
        lemma_road_warriors_list_keeps(st, local, gc, all, s, list.drop_last());
        lemma_road_warrior_step_keeps(road_warriors_pass(st, local, gc, &all[s].config, list.drop_last()), local, gc, all, s, &list.last());
    }
}

/// The built peer map never holds the local key, and every prefix of every
/// entry is held by the allowed prefixes of one of the sources.
pub proof fn lemma_build_safe(local: Key, gc: &GlobalConfig, slots: Seq<Slot>, now: Timestamp)
    ensures
        lacks_key(build_of(local, gc, slots, now).0, local),
        prefixes_allowed(build_of(local, gc, slots, now).0, slots),
{
    let st0: BuildView = (Seq::empty(), Seq::empty());
    assert(slots.take(slots.len() as int) =~= slots);
    lemma_passes_keep(st0, local, gc, slots, slots.len() as int, now);
    let mid = pass_servers(st0, local, gc, slots, now);
    lemma_passes_keep(mid, local, gc, slots, slots.len() as int, now);
}

/// A road warrior that claims the local key is dropped with exactly one
/// important error, and the peer map is unchanged.
pub proof fn lemma_local_road_warrior(st: BuildView, local: Key, gc: &GlobalConfig, src: &config::Source, rw: &proto::RoadWarrior)
    requires
        rw.peer.public_key == local,
    ensures
        road_warrior_step(st, local, gc, src, rw).0 == st.0,
        road_warrior_step(st, local, gc, src, rw).1.len() == st.1.len() + 1,
        road_warrior_step(st, local, gc, src, rw).1.last().important,
        road_warrior_step(st, local, gc, src, rw).1.drop_last() == st.1,
{
    let r = road_warrior_step(st, local, gc, src, rw);
    assert(r.1.drop_last() =~= st.1);
}

/// A new server peer that the operator does not override gets the keepalive
/// it asked for, clamped to the operator's bounds.
pub proof fn lemma_server_keepalive(st: BuildView, local: Key, gc: &GlobalConfig, src: &config::Source, srv: &proto::Server)
    requires
        srv.peer.public_key != local,
        lacks_key(st.0, srv.peer.public_key),
        forall|i: int| 0 <= i < gc.peers@.len() ==> (#[trigger] gc.peers@[i]).0 != srv.peer.public_key,
    ensures
        server_step(st, local, gc, src, srv).0.last().0 == srv.peer.public_key,
        server_step(st, local, gc, src, srv).0.last().1.keepalive == clamp_keepalive(
            gc.min_keepalive,
            gc.max_keepalive,
            srv.keepalive,
        ),
{
    assert(key_index(gc.peers@, srv.peer.public_key) is None);
    assert(key_index(st.0, srv.peer.public_key) is None);
}

/// `a + b`, or the largest `u64` when that overflows.
pub open spec fn sat_add(a: u64, b: u64) -> u64 {
    if a + b > u64::MAX {
        u64::MAX
    } else {
        (a + b) as u64
    }
}

fn saturating_add(a: u64, b: u64) -> (r: u64)
    ensures
        r == sat_add(a, b),
{
    if a > u64::MAX - b {
        u64::MAX
    } else {
        a + b
    }
}

pub open spec fn min_int(a: int, b: int) -> int {
    if a <= b {
        a
    } else {
        b
    }
}

/// First retry delay after a failure: ten seconds, or a tenth of the refresh
/// period if that is shorter (nanoseconds).
pub open spec fn first_backoff(refresh: u64) -> u64 {
    min_int(10_000_000_000, (refresh / 10) as int) as u64
}

/// The delay after `b`: a third longer, but at most a third of the refresh period.
pub open spec fn next_backoff(b: u64, refresh: u64) -> u64 {
    min_int(b + b / 3, (refresh / 3) as int) as u64
}

/// Fetch timing shared by all sources.
pub struct Updater {
    pub config: config::UpdaterConfig,
}

impl Updater {
    pub fn new(config: config::UpdaterConfig) -> (r: Updater)
        ensures
            r.config.refresh_sec == config.refresh_sec,
            r.config.cache_directory == config.cache_directory,
    {
        Updater { config }
    }

    /// The refresh period in nanoseconds.
    pub fn refresh_time(&self) -> (r: u64)
        ensures
            r == self.config.refresh_sec * 1_000_000_000,
    {
        self.config.refresh_sec as u64 * 1_000_000_000
    }
}

impl Slot {
    /// A source that has fetched nothing yet and is due at `now`.
    pub fn new(config: config::Source, now: u64) -> (r: Slot)
        ensures
            r.config == config,
            r.data.config.servers@.len() == 0,
            r.data.config.road_warriors@.len() == 0,
            r.data.next is None,
            r.next_update == now,
            r.backoff is None,
    {
        Slot { config, data: proto::Source::empty(), next_update: now, backoff: None }
    }

    pub fn is_due(&self, now: u64) -> (r: bool)
        ensures
            r == (now >= self.next_update),
    {
        now >= self.next_update
    }

    /// A fetch finished at `now` with `doc`: keep it, and fetch again after
    /// one refresh period.
    pub fn fetched(&mut self, doc: proto::Source, now: u64, refresh: u64)
        ensures
            final(self).config == old(self).config,
            final(self).data == doc,
            final(self).backoff is None,
            final(self).next_update == sat_add(now, refresh),
    {
        self.data = doc;
        self.backoff = None;
        self.next_update = saturating_add(now, refresh);
    }

    /// A fetch failed at `now`: keep the last document, retry after the
    /// current delay and lengthen the delay. Gives the delay.
    pub fn fetch_failed(&mut self, now: u64, refresh: u64) -> (b: u64)
        ensures
            b == match old(self).backoff {
                Some(x) => x,
                None => first_backoff(refresh),
            },
            final(self).config == old(self).config,
            final(self).data == old(self).data,
            final(self).next_update == sat_add(now, b),
            final(self).backoff == Some(next_backoff(b, refresh)),
    {
        let b = match self.backoff {
            Some(x) => x,
            None => if refresh / 10 < 10_000_000_000 {
                refresh / 10
            } else {
                10_000_000_000
            },
        };
        self.next_update = saturating_add(now, b);
        let cap = refresh / 3;
        self.backoff = Some(
            if b >= cap {
                cap
            } else {
                let n = b + b / 3;
                if n < cap {
                    n
                } else {
                    cap
                }
            },
        );
        b
    }
}

/// The earliest time at which some source is due, and at latest one refresh
/// period after `now`.
pub open spec fn refresh_deadline_of(now: u64, refresh: u64, slots: Seq<Slot>) -> u64
    decreases slots.len(),
{
    if slots.len() == 0 {
        sat_add(now, refresh)
    } else {
        min_int(refresh_deadline_of(now, refresh, slots.drop_last()) as int, slots.last().next_update as int) as u64
    }
}

pub fn refresh_deadline(now: u64, refresh: u64, slots: &Vec<Slot>) -> (r: u64)
    ensures
        r == refresh_deadline_of(now, refresh, slots@),
{
    let mut t = saturating_add(now, refresh);
    let mut i: usize = 0;
    while i < slots.len()
        invariant
            i <= slots@.len(),
            t == refresh_deadline_of(now, refresh, slots@.take(i as int)),
        decreases slots@.len() - i,
    {
        proof {
            assert(slots@.take(i + 1).drop_last() =~= slots@.take(i as int));
        }
        if slots[i].next_update < t {
            t = slots[i].next_update;
        }
        i += 1;
    }
    proof {
        assert(slots@.take(slots@.len() as int) =~= slots@);
    }
    t
}

/// Nanoseconds since the epoch.
pub open spec fn nanos_of(t: Timestamp) -> int {
    t.secs * 1_000_000_000 + t.nanos
}

/// How long to wait for the next activation when none is pending (2^20 s).
pub open spec fn idle_wait() -> int {
    1_048_576_000_000_000
}

/// When the loop should wake next (monotonic nanoseconds): at the next
/// activation if that comes before the refresh deadline, else at the refresh
/// deadline, but never before `now_m`.
pub open spec fn next_wake_of(now_m: u64, now_s: Timestamp, t_refresh: u64, t_cfg: Option<Timestamp>) -> u64 {
    let wait = match t_cfg {
        Some(t) => if nanos_of(t) > nanos_of(now_s) {
            nanos_of(t) - nanos_of(now_s)
        } else {
            0
        },
        None => idle_wait(),
    };
    let tc = if now_m + wait > u64::MAX {
        u64::MAX
    } else {
        (now_m + wait) as u64
    };
    if tc < t_refresh {
        tc
    } else if t_refresh > now_m {
        t_refresh
    } else {
        now_m
    }
}

pub fn next_wake(now_m: u64, now_s: Timestamp, t_refresh: u64, t_cfg: Option<Timestamp>) -> (r: u64)
    ensures
        r == next_wake_of(now_m, now_s, t_refresh, t_cfg),
        r >= now_m,
{
    let wait: i128 = match t_cfg {
        Some(t) => {
            let a = t.secs as i128 * 1_000_000_000 + t.nanos as i128;
            let b = now_s.secs as i128 * 1_000_000_000 + now_s.nanos as i128;
            if a > b {
                a - b
            } else {
                0
            }
        },
        None => 1_048_576_000_000_000,
    };
    let tc: u64 = if now_m as i128 + wait > u64::MAX as i128 {
        u64::MAX
    } else {
        (now_m as i128 + wait) as u64
    };
    if tc < t_refresh {
        tc
    } else if t_refresh > now_m {
        t_refresh
    } else {
        now_m
    }
}

/// The applied map must change when the new one differs from it.
pub fn needs_apply(current: &model::Config, new: &model::Config) -> (r: bool)
    requires
        current.wf(),
        new.wf(),
    ensures
        r == !model::same_map(current@, new@),
{
    !current.same(new)
}

/// With no change of sources or clock, a second build gives the map that
/// was just applied, so the second tick applies nothing.
pub proof fn lemma_second_tick_applies_nothing(
    local: Key,
    gc: &GlobalConfig,
    slots: Seq<Slot>,
    now: Timestamp,
    applied: Seq<(Key, PeerView)>,
)
    requires
        applied == build_of(local, gc, slots, now).0,
    ensures
        model::same_map(applied, build_of(local, gc, slots, now).0),
{
    assert forall|i: int| 0 <= i < applied.len() implies applied.contains(#[trigger] applied[i]) by {}
}

/// `s` with each line break replaced by `; `.
pub open spec fn fold_newlines(s: Seq<char>) -> Seq<char>
    decreases s.len(),
{
    if s.len() == 0 {
        Seq::empty()
    } else if s.last() == '\n' {
        fold_newlines(s.drop_last()) + seq![';', ' ']
    } else {
        fold_newlines(s.drop_last()).push(s.last())
    }
}

/// Relies on `str::replace`: every `\n` becomes `; `, the rest is kept.
#[verifier::external_body]
fn replace_newlines(s: &str) -> (r: String)
    ensures
        r@ == fold_newlines(s@),
{
    s.replace('\n', "; ")
}

/// The message of a failed fetch, from what the HTTP client wrote to stderr.
pub fn fetch_error_message(stderr: &str) -> (r: String)
    ensures
        r@ == fold_newlines(stderr@),
{
    replace_newlines(stderr)
}

impl Updater {
    /// Where the document of the source `name` is cached, if caching is on.
    pub fn cache_path(&self, name: &str) -> (r: Option<String>)
        ensures
            match r {
                Some(p) => self.config.cache_directory matches Some(d) && p@ == d@ + seq!['/'] + name@,
                None => self.config.cache_directory is None,
            },
    {
        match &self.config.cache_directory {
            Some(d) => {
                let mut p = d.clone();
                p.append("/");
                p.append(name);
                proof {
                    reveal_strlit("/");
                }
                Some(p)
            },
            None => None,
        }
    }
}

/// What startup does next for one source.
#[derive(Clone, Copy, PartialEq, Eq, Debug, Structural)]
pub enum StartStep {
    Fetch,
    LoadCache,
    Ready,
    Fail,
}

/// What startup has done so far for one source.
#[derive(Clone, Copy, PartialEq, Eq, Debug, Structural)]
pub struct StartState {
    pub required: bool,
    pub fetches: u32,
    pub fetched: bool,
    pub cache_tried: bool,
    pub cache_loaded: bool,
}

/// Startup fetches once; on failure it tries the cache; a source that is
/// still empty is accepted unless it is required, and a required one gets
/// two more fetches before startup fails.
pub open spec fn start_step_of(s: StartState) -> StartStep {
    if s.fetched {
        StartStep::Ready
    } else if s.fetches == 0 {
        StartStep::Fetch
    } else if !s.cache_tried {
        StartStep::LoadCache
    } else if s.cache_loaded || !s.required {
        StartStep::Ready
    } else if s.fetches < 3 {
        StartStep::Fetch
    } else {
        StartStep::Fail
    }
}

impl StartState {
    pub fn new(required: bool) -> (r: StartState)
        ensures
            r == (StartState {
                required,
                fetches: 0,
                fetched: false,
                cache_tried: false,
                cache_loaded: false,
            }),
    {
        StartState { required, fetches: 0, fetched: false, cache_tried: false, cache_loaded: false }
    }

    pub fn next_step(&self) -> (r: StartStep)
        ensures
            r == start_step_of(*self),
            r == StartStep::Fetch ==> self.fetches < 3,
    {
        if self.fetched {
            StartStep::Ready
        } else if self.fetches == 0 {
            StartStep::Fetch
        } else if !self.cache_tried {
            StartStep::LoadCache
        } else if self.cache_loaded || !self.required {
            StartStep::Ready
        } else if self.fetches < 3 {
            StartStep::Fetch
        } else {
            StartStep::Fail
        }
    }

    /// Records the outcome of a fetch.
    pub fn fetch_done(&mut self, ok: bool)
        requires
            old(self).fetches < 3,
        ensures
            *final(self) == (StartState { fetches: (old(self).fetches + 1) as u32, fetched: ok, ..*old(self) }),
    {
        self.fetches = self.fetches + 1;
        self.fetched = ok;
    }

    /// Records the outcome of reading the cache.
    pub fn cache_done(&mut self, loaded: bool)
        ensures
            *final(self) == (StartState { cache_tried: true, cache_loaded: loaded, ..*old(self) }),
    {
        self.cache_tried = true;
        self.cache_loaded = loaded;
    }
}

/// The contact exists and has keepalive `ka`.
pub open spec fn gives_keepalive(c: Option<crate::builder::Contact>, ka: u32) -> bool {
    match c {
        Some(c) => c.keepalive == ka,
        None => false,
    }
}

/// Server `j` or road warrior `j` of the view of `slot` in force at `now` has
/// key `k` and gets, by the operator's rules, the keepalive `ka`.
pub open spec fn peer_explains(
    k: Key,
    ka: u32,
    gc: &GlobalConfig,
    slot: Slot,
    now: Timestamp,
    j: int,
) -> bool {
    let v = active_view(slot.data, now);
    ||| (0 <= j < v.servers@.len() && v.servers@[j].peer.public_key == k && gives_keepalive(
        contact_of(gc, &slot.config, k, v.servers@[j].keepalive),
        ka,
    ))
    ||| (0 <= j < v.road_warriors@.len() && v.road_warriors@[j].peer.public_key == k
        && gives_keepalive(contact_of(gc, &slot.config, k, 0), ka))
}

/// Some server or road warrior with key `k` in a view in force at `now` gets,
/// by the operator's rules, the keepalive `ka`.
pub open spec fn keepalive_explained(
    k: Key,
    ka: u32,
    gc: &GlobalConfig,
    slots: Seq<Slot>,
    now: Timestamp,
) -> bool {
    exists|s: int, j: int|
        0 <= s < slots.len() && #[trigger] peer_explains(k, ka, gc, slots[s], now, j)
}

/// Every entry's keepalive is explained by a peer of some view in force.
pub open spec fn keepalives_explained(
    peers: Seq<(Key, PeerView)>,
    gc: &GlobalConfig,
    slots: Seq<Slot>,
    now: Timestamp,
) -> bool {
    forall|i: int|
        0 <= i < peers.len() ==> keepalive_explained(
            (#[trigger] peers[i]).0,
            peers[i].1.keepalive,
            gc,
            slots,
            now,
        )
}

/// `b` keeps the keys and keepalives of the entries of `a`, and may add more.
pub open spec fn extends_keepalives(a: Seq<(Key, PeerView)>, b: Seq<(Key, PeerView)>) -> bool {
    &&& a.len() <= b.len()
    &&& forall|i: int|
        0 <= i < a.len() ==> (#[trigger] b[i]).0 == a[i].0 && b[i].1.keepalive == a[i].1.keepalive
}

proof fn lemma_merge_extends(st: BuildView, i: int, src: &config::Source, p: &proto::Peer)
    requires
        0 <= i < st.0.len(),
    ensures
        extends_keepalives(st.0, merge_step(st, i, src, p).0),
        merge_step(st, i, src, p).0.len() == st.0.len(),
{
}

proof fn lemma_server_explained(
    st: BuildView,
    local: Key,
    gc: &GlobalConfig,
    slots: Seq<Slot>,
    now: Timestamp,
    s: int,
    j: int,
)
    requires
        0 <= s < slots.len(),
        0 <= j < active_view(slots[s].data, now).servers@.len(),
        keepalives_explained(st.0, gc, slots, now),
    ensures
        keepalives_explained(
            server_step(st, local, gc, &slots[s].config, &active_view(slots[s].data, now).servers@[j]).0,
            gc,
            slots,
            now,
        ),
{
    let v = active_view(slots[s].data, now);
    let srv = v.servers@[j];
    let src = &slots[s].config;
    let pk = srv.peer.public_key;
    let r = server_step(st, local, gc, src, &srv).0;
    if let Some(c0) = contact_of(gc, src, pk, srv.keepalive) {
        if pk != local {
            let c = if c0.endpoint is None {
                crate::builder::Contact { endpoint: Some(srv.endpoint), ..c0 }
            } else {
                c0
            };
            let (st1, i) = crate::builder::insert_step(st, src, pk, c);
            if key_index(st.0, pk) is Some {
                let w = choose|w: int| 0 <= w < st.0.len() && (#[trigger] st.0[w]).0 == pk;
            }
            lemma_merge_extends(st1, i, src, &srv.peer);
            assert forall|a: int| 0 <= a < r.len() implies keepalive_explained(
                (#[trigger] r[a]).0,
                r[a].1.keepalive,
                gc,
                slots,
                now,
            ) by {
                if a < st.0.len() {
                    assert(st1.0[a] == st.0[a]);
                    assert(keepalive_explained(st.0[a].0, st.0[a].1.keepalive, gc, slots, now));
                } else {
                    assert(r[a].0 == pk && r[a].1.keepalive == c0.keepalive);
                    assert(peer_explains(pk, c0.keepalive, gc, slots[s], now, j));
                }
            }
        }
    }
}

proof fn lemma_road_warrior_explained(
    st: BuildView,
    local: Key,
    gc: &GlobalConfig,
    slots: Seq<Slot>,
    now: Timestamp,
    s: int,
    j: int,
)
    requires
        0 <= s < slots.len(),
        0 <= j < active_view(slots[s].data, now).road_warriors@.len(),
        keepalives_explained(st.0, gc, slots, now),
    ensures
        keepalives_explained(
            road_warrior_step(
                st,
                local,
                gc,
                &slots[s].config,
                &active_view(slots[s].data, now).road_warriors@[j],
            ).0,
            gc,
            slots,
            now,
        ),
{
    let v = active_view(slots[s].data, now);
    let rw = v.road_warriors@[j];
    let src = &slots[s].config;
    let pk = rw.peer.public_key;
    let r = road_warrior_step(st, local, gc, src, &rw).0;
    if let Some(c) = contact_of(gc, src, pk, 0) {
        if pk != local {
            if rw.base == local {
                if src.allow_road_warriors {
                    let (st1, i) = crate::builder::insert_step(st, src, pk, c);
                    if key_index(st.0, pk) is Some {
                        let w = choose|w: int| 0 <= w < st.0.len() && (#[trigger] st.0[w]).0 == pk;
                    }
                    lemma_merge_extends(st1, i, src, &rw.peer);
                    assert forall|a: int| 0 <= a < r.len() implies keepalive_explained(
                        (#[trigger] r[a]).0,
                        r[a].1.keepalive,
                        gc,
                        slots,
                        now,
                    ) by {
                        if a < st.0.len() {
                            assert(st1.0[a] == st.0[a]);
                            assert(keepalive_explained(st.0[a].0, st.0[a].1.keepalive, gc, slots, now));
                        } else {
                            assert(r[a].0 == pk && r[a].1.keepalive == c.keepalive);
                            assert(peer_explains(pk, c.keepalive, gc, slots[s], now, j));
                        }
                    }
                }
            } else if let Some(i) = key_index(st.0, rw.base) {
                let w = choose|w: int| 0 <= w < st.0.len() && (#[trigger] st.0[w]).0 == rw.base;
                lemma_merge_extends(st, i, src, &rw.peer);
                assert forall|a: int| 0 <= a < r.len() implies keepalive_explained(
                    (#[trigger] r[a]).0,
                    r[a].1.keepalive,
                    gc,
                    slots,
                    now,
                ) by {
                    assert(keepalive_explained(st.0[a].0, st.0[a].1.keepalive, gc, slots, now));
                }
            }
        }
    }
}

proof fn lemma_servers_explained(
    st: BuildView,
    local: Key,
    gc: &GlobalConfig,
    slots: Seq<Slot>,
    now: Timestamp,
    s: int,
    m: int,
)
    requires
        0 <= s < slots.len(),
        0 <= m <= active_view(slots[s].data, now).servers@.len(),
        keepalives_explained(st.0, gc, slots, now),
    ensures
        keepalives_explained(
            servers_pass(st, local, gc, &slots[s].config, active_view(slots[s].data, now).servers@.take(m)).0,
            gc,
            slots,
            now,
        ),
    decreases m,
{
    let full = active_view(slots[s].data, now).servers@;
    if m > 0 {
        lemma_servers_explained(st, local, gc, slots, now, s, m - 1);
        assert(full.take(m).drop_last() =~= full.take(m - 1));
        assert(full.take(m).last() == full[m - 1]);
        lemma_server_explained(
            servers_pass(st, local, gc, &slots[s].config, full.take(m - 1)),
            local,
            gc,
            slots,
            now,
            s,
            m - 1,
        );
    } else {
        assert(full.take(0) =~= Seq::<proto::Server>::empty());
    }
}

proof fn lemma_road_warriors_explained(
    st: BuildView,
    local: Key,
    gc: &GlobalConfig,
    slots: Seq<Slot>,
    now: Timestamp,
    s: int,
    m: int,
)
    requires
        0 <= s < slots.len(),
        0 <= m <= active_view(slots[s].data, now).road_warriors@.len(),
        keepalives_explained(st.0, gc, slots, now),
    ensures
        keepalives_explained(
            road_warriors_pass(
                st,
                local,
                gc,
                &slots[s].config,
                active_view(slots[s].data, now).road_warriors@.take(m),
            ).0,
            gc,
            slots,
            now,
        ),
    decreases m,
{
    let full = active_view(slots[s].data, now).road_warriors@;
    if m > 0 {
        lemma_road_warriors_explained(st, local, gc, slots, now, s, m - 1);
        assert(full.take(m).drop_last() =~= full.take(m - 1));
        assert(full.take(m).last() == full[m - 1]);
        lemma_road_warrior_explained(
            road_warriors_pass(st, local, gc, &slots[s].config, full.take(m - 1)),
            local,
            gc,
            slots,
            now,
            s,
            m - 1,
        );
    } else {
        assert(full.take(0) =~= Seq::<proto::RoadWarrior>::empty());
    }
}

proof fn lemma_passes_explained(
    st: BuildView,
    local: Key,
    gc: &GlobalConfig,
    all: Seq<Slot>,
    n: int,
    now: Timestamp,
)
    requires
        0 <= n <= all.len(),
        keepalives_explained(st.0, gc, all, now),
    ensures
        keepalives_explained(pass_servers(st, local, gc, all.take(n), now).0, gc, all, now),
        keepalives_explained(pass_road_warriors(st, local, gc, all.take(n), now).0, gc, all, now),
    decreases n,
{
    if n > 0 {
        lemma_passes_explained(st, local, gc, all, n - 1, now);
        assert(all.take(n).drop_last() =~= all.take(n - 1));
        assert(all.take(n).last() == all[n - 1]);
        let v = active_view(all[n - 1].data, now);
        assert(v.servers@.take(v.servers@.len() as int) =~= v.servers@);
        assert(v.road_warriors@.take(v.road_warriors@.len() as int) =~= v.road_warriors@);
        lemma_servers_explained(
            pass_servers(st, local, gc, all.take(n - 1), now),
            local,
            gc,
            all,
            now,
            n - 1,
            v.servers@.len() as int,
        );
        lemma_road_warriors_explained(
            pass_road_warriors(st, local, gc, all.take(n - 1), now),
            local,
            gc,
            all,
            now,
            n - 1,
            v.road_warriors@.len() as int,
        );
    }
}

/// Every built entry's keepalive is what the operator's rules give for a
/// peer with that key in a view in force: the operator's value for the key if
/// there is one, else the requested value clamped to the bounds (road
/// warriors request 0).
pub proof fn lemma_build_keepalives(local: Key, gc: &GlobalConfig, slots: Seq<Slot>, now: Timestamp)
    ensures
        keepalives_explained(build_of(local, gc, slots, now).0, gc, slots, now),
{
    let st0: BuildView = (Seq::empty(), Seq::empty());
    assert(slots.take(slots.len() as int) =~= slots);
    lemma_passes_explained(st0, local, gc, slots, slots.len() as int, now);
    let mid = pass_servers(st0, local, gc, slots, now);
    lemma_passes_explained(mid, local, gc, slots, slots.len() as int, now);
}

} // verus!
