use wg_meshconf::builder::{ConfigBuilder, Reason};
use wg_meshconf::config::{self, GlobalConfig};
use wg_meshconf::ip::{Ipv4Net, Ipv4Set, Ipv6Set};
use wg_meshconf::manager::{make_config, needs_apply, Slot};
use wg_meshconf::model::{Endpoint, Key, Secret};
use wg_meshconf::proto::{self, Timestamp};
use wg_meshconf::wg::{plan_diff, PskChange};

fn net(s: &str) -> Ipv4Net {
    Ipv4Net::parse(s).unwrap()
}

fn key(b: u8) -> Key {
    Key([b; 32])
}

fn source(name: &str, allowed: &[&str]) -> config::Source {
    config::Source {
        name: name.to_string(),
        url: format!("https://example.org/{}", name),
        psk: None,
        ipv4: Ipv4Set::from_vec(allowed.iter().map(|s| net(s)).collect()),
        ipv6: Ipv6Set::new(),
        required: false,
        allow_road_warriors: true,
    }
}

fn server(k: Key, ips: &[&str], endpoint: Endpoint, keepalive: u32) -> proto::Server {
    proto::Server {
        peer: proto::Peer {
            public_key: k,
            ipv4: ips.iter().map(|s| net(s)).collect(),
            ipv6: vec![],
        },
        endpoint,
        keepalive,
    }
}

fn road_warrior(k: Key, ips: &[&str], base: Key) -> proto::RoadWarrior {
    proto::RoadWarrior {
        peer: proto::Peer {
            public_key: k,
            ipv4: ips.iter().map(|s| net(s)).collect(),
            ipv6: vec![],
        },
        base,
    }
}

fn slot(src: config::Source, servers: Vec<proto::Server>, rws: Vec<proto::RoadWarrior>) -> Slot {
    let mut s = Slot::new(src, 0);
    s.data.config.servers = servers;
    s.data.config.road_warriors = rws;
    s
}

fn e1() -> Endpoint {
    Endpoint::from_ipv4(0xcb00_7101, 51820)
}

const LOCAL: u8 = 0xee;

#[test]
fn cold_start_single_server() {
    let gc = GlobalConfig::default();
    let slots = vec![slot(
        source("s1", &["10.0.0.0/24"]),
        vec![server(key(1), &["10.0.0.1/32"], e1(), 0)],
        vec![],
    )];
    let now = Timestamp { secs: 1_600_000_000, nanos: 0 };
    let (cfg, errs, next) = make_config(key(LOCAL), &gc, &slots, now);
    assert!(errs.is_empty());
    assert!(next.is_none());
    assert_eq!(cfg.peers.len(), 1);
    let (k, p) = &cfg.peers[0];
    assert_eq!(*k, key(1));
    assert_eq!(p.endpoint, Some(e1()));
    assert_eq!(p.keepalive, 0);
    assert_eq!(p.ipv4, vec![net("10.0.0.1/32")]);

    let diff = plan_diff(&wg_meshconf::model::Config::empty(), &cfg);
    assert_eq!(diff.removals.len(), 0);
    assert_eq!(diff.updates.len(), 1);
    let u = &diff.updates[0];
    assert_eq!(u.key, key(1));
    assert_eq!(u.endpoint, Some(e1()));
    assert!(u.psk == PskChange::Keep);
    assert_eq!(u.ipv4, vec![net("10.0.0.1/32")]);
}

#[test]
fn keepalive_is_clamped() {
    let gc = GlobalConfig { min_keepalive: 10, max_keepalive: 25, peers: vec![] };
    assert_eq!(gc.fix_keepalive(0), 25);
    assert_eq!(gc.fix_keepalive(30), 25);
    assert_eq!(gc.fix_keepalive(3), 10);
    assert_eq!(gc.fix_keepalive(17), 17);
    let gc = GlobalConfig::default();
    assert_eq!(gc.fix_keepalive(0), 0);
    assert_eq!(gc.fix_keepalive(3), 10);
    assert_eq!(gc.fix_keepalive(5000), 5000);

    let gc = GlobalConfig { min_keepalive: 10, max_keepalive: 10, peers: vec![] };
    let slots = vec![slot(
        source("s1", &["10.0.0.0/24"]),
        vec![server(key(1), &["10.0.0.1/32"], e1(), 0)],
        vec![],
    )];
    let (cfg, _, _) = make_config(key(LOCAL), &gc, &slots, Timestamp { secs: 0, nanos: 0 });
    assert_eq!(cfg.peers[0].1.keepalive, 10);
}

#[test]
fn duplicate_key_across_sources() {
    let gc = GlobalConfig::default();
    let slots = vec![
        slot(source("a", &["10.0.0.0/24"]), vec![server(key(7), &["10.0.0.1/32"], e1(), 0)], vec![]),
        slot(source("b", &["10.0.0.0/24"]), vec![server(key(7), &[], e1(), 0)], vec![]),
    ];
    let (cfg, errs, _) = make_config(key(LOCAL), &gc, &slots, Timestamp { secs: 0, nanos: 0 });
    assert_eq!(cfg.peers.len(), 1);
    assert_eq!(cfg.peers[0].1.ipv4, vec![net("10.0.0.1/32")]);
    assert_eq!(errs.len(), 1);
    assert!(errs[0].important());
    assert!(errs[0].err == Reason::DuplicateKey);
    assert_eq!(errs[0].err.message(), "duplicate public key");
    assert_eq!(errs[0].peer, key(7));
    assert_eq!(errs[0].src, "b");
}

#[test]
fn road_warrior_extends_base_from_other_source() {
    let gc = GlobalConfig::default();
    let slots = vec![
        slot(source("b", &["10.0.0.0/24"]), vec![], vec![road_warrior(key(2), &["10.0.0.7/32"], key(1))]),
        slot(source("a", &["10.0.0.0/24"]), vec![server(key(1), &["10.0.0.1/32"], e1(), 0)], vec![]),
    ];
    let (cfg, errs, _) = make_config(key(LOCAL), &gc, &slots, Timestamp { secs: 0, nanos: 0 });
    assert!(errs.is_empty());
    assert_eq!(cfg.peers.len(), 1);
    assert_eq!(cfg.peers[0].0, key(1));
    assert_eq!(cfg.peers[0].1.ipv4, vec![net("10.0.0.1/32"), net("10.0.0.7/32")]);
}

#[test]
fn prefixes_outside_source_are_dropped() {
    let gc = GlobalConfig::default();
    let mut b = ConfigBuilder::new(key(LOCAL), &gc);
    let src = source("a", &["10.0.0.0/24"]);
    b.add_server(&src, &server(key(3), &["10.0.0.1/32", "10.9.9.9/32"], e1(), 0));
    let (cfg, errs) = b.build();
    assert_eq!(cfg.peers[0].1.ipv4, vec![net("10.0.0.1/32")]);
    assert_eq!(errs.len(), 1);
    assert!(!errs[0].important());
    assert!(errs[0].err == Reason::SomeIpsRemoved);

    let mut b = ConfigBuilder::new(key(LOCAL), &gc);
    b.add_server(&src, &server(key(3), &["10.9.9.9/32"], e1(), 0));
    let (cfg, errs) = b.build();
    assert!(cfg.peers[0].1.ipv4.is_empty());
    assert!(errs[0].important());
    assert!(errs[0].err == Reason::AllIpsRemoved);
}

#[test]
fn local_key_is_never_a_peer() {
    let gc = GlobalConfig::default();
    let src = source("a", &["10.0.0.0/24"]);
    let mut b = ConfigBuilder::new(key(LOCAL), &gc);
    b.add_server(&src, &server(key(LOCAL), &["10.0.0.1/32"], e1(), 0));
    b.add_road_warrior(&src, &road_warrior(key(LOCAL), &["10.0.0.2/32"], key(LOCAL)));
    let (cfg, errs) = b.build();
    assert!(cfg.peers.is_empty());
    assert_eq!(errs.len(), 1);
    assert!(errs[0].important());
    assert!(errs[0].err == Reason::LocalRoadWarrior);
}

#[test]
fn road_warrior_rules() {
    let gc = GlobalConfig::default();
    let mut src = source("a", &["10.0.0.0/24"]);
    let mut b = ConfigBuilder::new(key(LOCAL), &gc);
    b.add_road_warrior(&src, &road_warrior(key(4), &["10.0.0.4/32"], key(LOCAL)));
    b.add_road_warrior(&src, &road_warrior(key(5), &["10.0.0.5/32"], key(9)));
    src.allow_road_warriors = false;
    b.add_road_warrior(&src, &road_warrior(key(6), &["10.0.0.6/32"], key(LOCAL)));
    let (cfg, errs) = b.build();
    assert_eq!(cfg.peers.len(), 1);
    assert_eq!(cfg.peers[0].0, key(4));
    assert_eq!(cfg.peers[0].1.endpoint, None);
    assert_eq!(errs.len(), 2);
    assert!(errs[0].err == Reason::UnknownBase);
    assert!(errs[1].err == Reason::RoadWarriorsNotAllowed);
}

#[test]
fn operator_overrides() {
    let psk = Secret(key(0x55));
    let over = config::Peer {
        source: Some("a".to_string()),
        endpoint: Some(Endpoint::from_ipv4(0x0a00_0001, 1)),
        psk: Some(psk),
        keepalive: Some(42),
    };
    let gc = GlobalConfig { min_keepalive: 10, max_keepalive: 0, peers: vec![(key(1), over)] };
    let mut b = ConfigBuilder::new(key(LOCAL), &gc);
    b.add_server(&source("b", &["10.0.0.0/24"]), &server(key(1), &["10.0.0.1/32"], e1(), 0));
    b.add_server(&source("a", &["10.0.0.0/24"]), &server(key(1), &["10.0.0.1/32"], e1(), 0));
    let (cfg, errs) = b.build();
    assert_eq!(errs.len(), 1);
    assert!(errs[0].err == Reason::PeerSourceNotAllowed);
    assert_eq!(cfg.peers.len(), 1);
    let p = &cfg.peers[0].1;
    assert_eq!(p.endpoint, Some(Endpoint::from_ipv4(0x0a00_0001, 1)));
    assert!(p.psk == Some(psk));
    assert_eq!(p.keepalive, 42);
}

#[test]
fn next_view_takes_over_at_its_time() {
    let gc = GlobalConfig::default();
    let e2 = Endpoint::from_ipv4(0xcb00_7102, 51820);
    let t = Timestamp { secs: 1005, nanos: 0 };
    let mut s = slot(
        source("s1", &["10.0.0.0/24"]),
        vec![server(key(1), &["10.0.0.1/32"], e1(), 0)],
        vec![],
    );
    s.data.next = Some((
        t,
        proto::SourceConfig { servers: vec![server(key(1), &["10.0.0.1/32"], e2, 0)], road_warriors: vec![] },
    ));
    let slots = vec![s];
    let before = Timestamp { secs: 1000, nanos: 0 };
    let (c1, _, next) = make_config(key(LOCAL), &gc, &slots, before);
    assert_eq!(c1.peers[0].1.endpoint, Some(e1()));
    assert_eq!(next, Some(t));
    let wake = wg_meshconf::manager::next_wake(7, before, u64::MAX, next);
    assert_eq!(wake, 7 + 5_000_000_000);

    let (c2, _, next) = make_config(key(LOCAL), &gc, &slots, t);
    assert_eq!(c2.peers[0].1.endpoint, Some(e2));
    assert_eq!(next, None);
    assert!(needs_apply(&c1, &c2));
    let diff = plan_diff(&c1, &c2);
    assert_eq!(diff.updates.len(), 1);
    assert_eq!(diff.updates[0].endpoint, Some(e2));
}

#[test]
fn same_config_needs_nothing() {
    let gc = GlobalConfig::default();
    let slots = vec![slot(
        source("s1", &["10.0.0.0/24"]),
        vec![server(key(1), &["10.0.0.1/32"], e1(), 0), server(key(2), &["10.0.0.2/32"], e1(), 0)],
        vec![],
    )];
    let now = Timestamp { secs: 0, nanos: 0 };
    let (c1, _, _) = make_config(key(LOCAL), &gc, &slots, now);
    let (c2, _, _) = make_config(key(LOCAL), &gc, &slots, now);
    assert!(!needs_apply(&c1, &c2));
    let diff = plan_diff(&c1, &c2);
    assert!(diff.is_empty());
}

#[test]
fn diff_removes_and_changes_psk() {
    let gc = GlobalConfig::default();
    let mut src = source("s1", &["10.0.0.0/24"]);
    let old_slots = vec![slot(
        source("s1", &["10.0.0.0/24"]),
        vec![server(key(1), &["10.0.0.1/32"], e1(), 0), server(key(2), &["10.0.0.2/32"], e1(), 0)],
        vec![],
    )];
    src.psk = Some(Secret(key(0x77)));
    let new_slots = vec![slot(src, vec![server(key(1), &["10.0.0.1/32"], e1(), 0)], vec![])];
    let now = Timestamp { secs: 0, nanos: 0 };
    let (old, _, _) = make_config(key(LOCAL), &gc, &old_slots, now);
    let (new, _, _) = make_config(key(LOCAL), &gc, &new_slots, now);
    let diff = plan_diff(&old, &new);
    assert_eq!(diff.removals, vec![key(2)]);
    assert_eq!(diff.updates.len(), 1);
    assert_eq!(diff.updates[0].endpoint, None);
    assert!(diff.updates[0].psk == PskChange::Replace(Secret(key(0x77))));
    let back = plan_diff(&new, &old);
    assert!(back.updates.iter().any(|u| u.key == key(1) && u.psk == PskChange::Clear));
}
