use wg_meshconf::bin::{
    i64_from_be, i64_to_be, u16_from_be, u16_to_be, u32_from_be, u32_to_be, u64_from_be, u64_to_be,
};
use wg_meshconf::config::{default_max_keepalive, default_min_keepalive, default_refresh_sec, UpdaterConfig};
use wg_meshconf::builder::{Error, Reason};
use wg_meshconf::ip::{Ipv4Net, Ipv6Net};
use wg_meshconf::manager::{
    fetch_error_message, next_wake, refresh_deadline, Slot, StartState, StartStep, Updater,
};
use wg_meshconf::model::{Endpoint, Key, KeyParseError, Secret};
use wg_meshconf::proto::Timestamp;

#[test]
fn big_endian_encodings() {
    assert_eq!(u64_to_be(0x0102_0304_0506_0708), [1, 2, 3, 4, 5, 6, 7, 8]);
    assert_eq!(u64_from_be([1, 2, 3, 4, 5, 6, 7, 8]), 0x0102_0304_0506_0708);
    assert_eq!(i64_to_be(-2), [0xff, 0xff, 0xff, 0xff, 0xff, 0xff, 0xff, 0xfe]);
    assert_eq!(i64_from_be([0xff, 0xff, 0xff, 0xff, 0xff, 0xff, 0xff, 0xfe]), -2);
    assert_eq!(u32_to_be(0xdead_beef), [0xde, 0xad, 0xbe, 0xef]);
    assert_eq!(u32_from_be([0xde, 0xad, 0xbe, 0xef]), 0xdead_beef);
    assert_eq!(u16_to_be(51820), [0xca, 0x6c]);
    assert_eq!(u16_from_be([0xca, 0x6c]), 51820);
}

#[test]
fn timestamp_round_trips_through_binary() {
    let t = Timestamp::parse_rfc3339("2019-10-11T12:13:14.123456789Z").unwrap();
    assert_eq!(t, Timestamp { secs: 1_570_795_994, nanos: 123_456_789 });
    let b = t.to_binary();
    assert_eq!(Timestamp::from_binary(b), t);
    assert_eq!(t.to_rfc3339().unwrap(), "2019-10-11T12:13:14.123456789Z");
    let early = Timestamp { secs: -5, nanos: 7 };
    assert_eq!(Timestamp::from_binary(early.to_binary()), early);
    assert!(Timestamp::parse_rfc3339("yesterday").is_none());
    let shifted = Timestamp::parse_rfc3339("2019-10-11T14:13:14.5+02:00").unwrap();
    assert_eq!(shifted, Timestamp { secs: 1_570_795_994, nanos: 500_000_000 });
}

#[test]
fn key_text_forms() {
    let text = "AAECAwQFBgcICQoLDA0ODxAREhMUFRYXGBkaGxwdHh8=";
    let k = Key::from_base64(text.as_bytes()).unwrap();
    let mut want = [0u8; 32];
    for (i, b) in want.iter_mut().enumerate() {
        *b = i as u8;
    }
    assert_eq!(k, Key(want));
    assert_eq!(k.to_base64(), text);
    assert_eq!(Key::from_base64(b"AAEC"), Err(KeyParseError::InvalidLength));
    assert_eq!(Key::from_base64(b"not base64!"), Err(KeyParseError::Invalid));
}

#[test]
fn secret_file_contents() {
    let text = "AAECAwQFBgcICQoLDA0ODxAREhMUFRYXGBkaGxwdHh8=";
    let with_nl = format!("{}\n", text).into_bytes();
    let s = Secret::from_file_contents(with_nl).unwrap().unwrap();
    assert_eq!(s.0.to_base64(), text);
    assert!(Secret::from_file_contents(b"\n".to_vec()).unwrap().is_none());
    assert!(Secret::from_file_contents(vec![]).unwrap().is_none());
    assert!(Secret::from_file_contents(b"xyz\n".to_vec()).is_err());
}

#[test]
fn endpoint_ipv4_mapping() {
    let e = Endpoint::from_ipv4(0xcb00_7101, 51820);
    assert_eq!(e.ipv4_address(), Some(0xcb00_7101));
    assert_eq!(e.ipv6_address(), 0xffff_cb00_7101);
    assert_eq!(e.port(), 51820);
    let v6 = Endpoint::new(1, 443);
    assert_eq!(v6.ipv4_address(), None);
}

#[test]
fn defaults() {
    assert_eq!(default_min_keepalive(), 10);
    assert_eq!(default_max_keepalive(), 0);
    assert_eq!(default_refresh_sec(), 1200);
    let u = Updater::new(UpdaterConfig::default());
    assert_eq!(u.refresh_time(), 1_200_000_000_000);
    assert_eq!(u.cache_path("s1"), None);
    let u = Updater::new(UpdaterConfig { cache_directory: Some("/var/cache/x".to_string()), refresh_sec: 60 });
    assert_eq!(u.cache_path("s1"), Some("/var/cache/x/s1".to_string()));
}

fn empty_source() -> wg_meshconf::config::Source {
    wg_meshconf::config::Source {
        name: "s1".to_string(),
        url: "u".to_string(),
        psk: None,
        ipv4: wg_meshconf::ip::Ipv4Set::new(),
        ipv6: wg_meshconf::ip::Ipv6Set::new(),
        required: false,
        allow_road_warriors: true,
    }
}

#[test]
fn backoff_grows_to_a_third_of_refresh() {
    let refresh = 1_200_000_000_000u64;
    let mut s = Slot::new(empty_source(), 0);
    assert!(s.is_due(0));
    let b = s.fetch_failed(100, refresh);
    assert_eq!(b, 10_000_000_000);
    assert_eq!(s.next_update, 10_000_000_100);
    assert_eq!(s.backoff, Some(13_333_333_333));
    let b = s.fetch_failed(200, refresh);
    assert_eq!(b, 13_333_333_333);
    for _ in 0..40 {
        s.fetch_failed(300, refresh);
    }
    assert_eq!(s.backoff, Some(400_000_000_000));
    s.fetched(wg_meshconf::proto::Source::empty(), 1000, refresh);
    assert_eq!(s.backoff, None);
    assert_eq!(s.next_update, 1000 + refresh);
    assert!(!s.is_due(999 + refresh));

    let mut short = Slot::new(empty_source(), 0);
    assert_eq!(short.fetch_failed(0, 60_000_000_000), 6_000_000_000);
}

#[test]
fn wake_time_rules() {
    let now_s = Timestamp { secs: 100, nanos: 0 };
    assert_eq!(next_wake(50, now_s, 80, None), 80);
    assert_eq!(next_wake(50, now_s, 40, None), 50);
    assert_eq!(next_wake(50, now_s, 1000, Some(Timestamp { secs: 99, nanos: 0 })), 50);
    assert_eq!(next_wake(50, now_s, u64::MAX, Some(Timestamp { secs: 100, nanos: 30 })), 80);
    let slots = vec![Slot::new(empty_source(), 70), Slot::new(empty_source(), 60)];
    assert_eq!(refresh_deadline(10, 100, &slots), 60);
    assert_eq!(refresh_deadline(10, 20, &slots), 30);
}

#[test]
fn fetch_errors_fold_lines() {
    assert_eq!(fetch_error_message("curl: (6) no host\nmore\n"), "curl: (6) no host; more; ");
}

#[test]
fn startup_order() {
    let mut st = StartState::new(true);
    assert_eq!(st.next_step(), StartStep::Fetch);
    st.fetch_done(false);
    assert_eq!(st.next_step(), StartStep::LoadCache);
    st.cache_done(false);
    assert_eq!(st.next_step(), StartStep::Fetch);
    st.fetch_done(false);
    assert_eq!(st.next_step(), StartStep::Fetch);
    st.fetch_done(false);
    assert_eq!(st.next_step(), StartStep::Fail);

    let mut cached = StartState::new(true);
    cached.fetch_done(false);
    cached.cache_done(true);
    assert_eq!(cached.next_step(), StartStep::Ready);

    let mut optional = StartState::new(false);
    optional.fetch_done(false);
    optional.cache_done(false);
    assert_eq!(optional.next_step(), StartStep::Ready);

    let mut ok = StartState::new(true);
    ok.fetch_done(true);
    assert_eq!(ok.next_step(), StartStep::Ready);
}

#[test]
fn compact_forms() {
    let n = Ipv4Net::parse("192.0.2.128/25").unwrap();
    assert_eq!(n.to_binary(), [192, 0, 2, 128, 25]);
    assert_eq!(Ipv4Net::from_binary([192, 0, 2, 128, 25]), Ok(n));
    assert!(Ipv4Net::from_binary([192, 0, 2, 128, 24]).is_err());
    let m = Ipv6Net { address: 0x2001_0db8u128 << 96, prefix_len: 32 };
    let b = m.to_binary();
    assert_eq!(b[..4], [0x20, 0x01, 0x0d, 0xb8]);
    assert_eq!(b[16], 32);
    assert_eq!(Ipv6Net::from_binary(b), Ok(m));
    let e = Endpoint::from_ipv4(0xcb00_7101, 51820);
    let eb = e.to_binary();
    assert_eq!(eb[10..], [0xff, 0xff, 203, 0, 113, 1, 0xca, 0x6c]);
    assert_eq!(Endpoint::from_binary(eb), e);
}

#[test]
fn error_text() {
    let e = Error { src: "b".to_string(), peer: Key([0; 32]), important: true, err: Reason::DuplicateKey };
    assert_eq!(
        e.to_text(),
        "invalid peer [b]/[AAAAAAAAAAAAAAAAAAAAAAAAAAAAAAAAAAAAAAAAAAA=]: duplicate public key"
    );
    let w = Error { src: "a".to_string(), peer: Key([0; 32]), important: false, err: Reason::SomeIpsRemoved };
    assert!(w.to_text().starts_with("misconfigured peer [a]/["));
}
