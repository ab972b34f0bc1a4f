use std::str::FromStr;
use wg_meshconf::ip::{parse_ipv4_addr, pfx_split, Ipv4Net, Ipv4Set, Ipv6Net, Ipv6Set};

fn net(s: &str) -> Ipv4Net {
    Ipv4Net::from_str(s).unwrap()
}

fn disp_set(s: &Ipv4Set) -> String {
    s.iter()
        .iter()
        .map(Ipv4Net::to_text)
        .collect::<Vec<_>>()
        .join(",")
}

#[test]
fn test_pfx_split() {
    assert_eq!(pfx_split("asdf/0").unwrap(), ("asdf", 0));
    assert_eq!(pfx_split("asdf/123").unwrap(), ("asdf", 123));
    assert_eq!(pfx_split("asdf/0123").unwrap(), ("asdf", 123));
    assert_eq!(pfx_split("/1").unwrap(), ("", 1));
    assert_eq!(pfx_split("abc/2").unwrap(), ("abc", 2));

    assert!(pfx_split("no_slash").is_err());
    assert!(pfx_split("asdf/abc").is_err());
    assert!(pfx_split("asdf/0abc").is_err());
    assert!(pfx_split("asdf/0x123").is_err());
    assert!(pfx_split("asdf/12345").is_err());
}

#[test]
fn test_net_parse() {
    assert_eq!(
        Ipv4Net::from_str("192.0.2.5/32").unwrap(),
        Ipv4Net {
            address: parse_ipv4_addr("192.0.2.5").unwrap(),
            prefix_len: 32,
        }
    );

    assert!(Ipv4Net::from_str("error").is_err());

    assert!(Ipv4Net::from_str("192.0.2.128/32").is_ok());
    assert!(Ipv4Net::from_str("192.0.2.128/25").is_ok());
    assert!(Ipv4Net::from_str("192.0.2.128/24").is_err());
    assert!(Ipv4Net::from_str("192.0.2.128").is_err());
}

#[test]
fn test_set_insert() {
    let mut s = Ipv4Set::default();
    assert_eq!(disp_set(&s), "");

    s.insert(net("192.0.2.7/32"));
    assert_eq!(disp_set(&s), "192.0.2.7/32");

    s.insert(net("192.0.2.5/32"));
    assert_eq!(disp_set(&s), "192.0.2.5/32,192.0.2.7/32");

    s.insert(net("192.0.2.6/32"));
    assert_eq!(disp_set(&s), "192.0.2.5/32,192.0.2.6/31");

    let mut s1 = s.clone();
    s1.insert(net("192.0.2.0/30"));
    assert_eq!(disp_set(&s1), "192.0.2.0/30,192.0.2.5/32,192.0.2.6/31");

    s.insert(net("192.0.2.4/32"));
    assert_eq!(disp_set(&s), "192.0.2.4/30");

    s1.insert(net("192.0.2.4/32"));
    assert_eq!(disp_set(&s1), "192.0.2.0/29");

    s.insert(net("0.0.0.0/0"));
    assert_eq!(disp_set(&s), "0.0.0.0/0");
}

#[test]
fn test_set_from_slice() {
    fn s(v: &[&str]) -> String {
        disp_set(&Ipv4Set::from_vec(
            v.iter().cloned().map(Ipv4Net::from_str).map(Result::unwrap).collect::<Vec<_>>(),
        ))
    }

    assert_eq!(s(&[]), "");
    assert_eq!(s(&["192.0.2.7/32"]), "192.0.2.7/32");
    assert_eq!(s(&["192.0.2.7/32", "192.0.2.7/32"]), "192.0.2.7/32");
    assert_eq!(
        s(&["192.0.2.7/32", "192.0.2.5/32"]),
        "192.0.2.5/32,192.0.2.7/32"
    );
    assert_eq!(
        s(&["192.0.2.7/32", "192.0.2.5/32", "192.0.2.6/32"]),
        "192.0.2.5/32,192.0.2.6/31"
    );
    assert_eq!(
        s(&[
            "192.0.2.7/32",
            "192.0.2.5/32",
            "192.0.2.6/32",
            "192.0.2.4/32"
        ]),
        "192.0.2.4/30"
    );
    assert_eq!(
        s(&["192.0.2.7/32", "192.0.2.6/32", "192.0.2.5/32", "0.0.0.0/0"]),
        "0.0.0.0/0"
    );
}

#[test]
fn ipv4_net_text() {
    assert_eq!(net("192.0.2.0/28").to_text(), "192.0.2.0/28");
    assert_eq!(net("10.255.0.0/16").to_text(), "10.255.0.0/16");
}

#[test]
fn ipv4_address_reading() {
    assert_eq!(parse_ipv4_addr("192.0.2.1"), Some(0xc000_0201));
    assert_eq!(parse_ipv4_addr("0.0.0.0"), Some(0));
    assert_eq!(parse_ipv4_addr("255.255.255.255"), Some(0xffff_ffff));
    assert_eq!(parse_ipv4_addr("256.0.0.1"), None);
    assert_eq!(parse_ipv4_addr("1.2.3"), None);
    assert_eq!(parse_ipv4_addr("1.2.3.4.5"), None);
    assert_eq!(parse_ipv4_addr("01.2.3.4"), None);
    assert_eq!(parse_ipv4_addr("1..3.4"), None);
}

#[test]
fn prefix_validity() {
    assert!(Ipv4Net { address: 0xc000_0280, prefix_len: 25 }.is_valid());
    assert!(!Ipv4Net { address: 0xc000_0280, prefix_len: 24 }.is_valid());
    assert!(!Ipv4Net { address: 0, prefix_len: 33 }.is_valid());
    assert!(Ipv6Net { address: 1, prefix_len: 128 }.is_valid());
    assert!(!Ipv6Net { address: 1, prefix_len: 127 }.is_valid());
    assert!(Ipv6Net { address: 0x2001_0db8u128 << 96, prefix_len: 32 }.is_valid());
    assert!(!Ipv6Net { address: 0, prefix_len: 129 }.is_valid());
}

#[test]
fn set_contains_members_and_only_covered() {
    let s = Ipv4Set::from_vec(vec![net("10.0.0.0/24"), net("192.0.2.8/29")]);
    for n in s.iter() {
        assert!(s.contains(n));
    }
    assert!(s.contains(&net("10.0.0.7/32")));
    assert!(s.contains(&net("192.0.2.12/30")));
    assert!(!s.contains(&net("10.0.1.0/32")));
    assert!(!s.contains(&net("10.0.0.0/23")));
    assert!(!s.contains(&net("192.0.2.0/32")));
}

#[test]
fn set_is_sorted_without_overlap() {
    let mut s = Ipv4Set::new();
    for t in ["10.0.0.9/32", "10.0.0.0/29", "10.0.0.3/32", "9.0.0.0/8", "10.0.0.8/32"] {
        s.insert(net(t));
    }
    assert_eq!(disp_set(&s), "9.0.0.0/8,10.0.0.0/29,10.0.0.8/31");
    let v = s.iter();
    for i in 1..v.len() {
        assert!((v[i - 1].address, v[i - 1].prefix_len) < (v[i].address, v[i].prefix_len));
        assert!(!v[i - 1].contains(&v[i]));
    }
}

#[test]
fn default_route_absorbs_everything() {
    let mut s = Ipv4Set::from_vec(vec![net("10.0.0.0/8"), net("192.0.2.1/32")]);
    s.insert(net("0.0.0.0/0"));
    assert_eq!(disp_set(&s), "0.0.0.0/0");
}

#[test]
fn ipv6_siblings_join() {
    let mut s = Ipv6Set::new();
    s.insert(Ipv6Net { address: 4, prefix_len: 127 });
    s.insert(Ipv6Net { address: 6, prefix_len: 127 });
    assert_eq!(s.iter(), &[Ipv6Net { address: 4, prefix_len: 126 }]);
    assert!(s.contains(&Ipv6Net { address: 7, prefix_len: 128 }));
    assert!(!s.contains(&Ipv6Net { address: 8, prefix_len: 128 }));
}
