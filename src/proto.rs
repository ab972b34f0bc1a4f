//! The document a source publishes: servers, road warriors, and an
//! optional next configuration with its activation time.

use crate::bin::{be_bytes_u32, be_bytes_u64, i64_from_be, i64_to_be, u32_from_be, u32_to_be};
use crate::ip::{Ipv4Net, Ipv6Net};
use crate::model::{Endpoint, Key};
use vstd::prelude::*;

verus! {

/// A peer as a source describes it.
pub struct Peer {
    pub public_key: Key,
    pub ipv4: Vec<Ipv4Net>,
    pub ipv6: Vec<Ipv6Net>,
}

impl Peer {
    /// Every prefix is valid.
    pub open spec fn wf(&self) -> bool {
        &&& forall|i: int| 0 <= i < self.ipv4@.len() ==> (#[trigger] self.ipv4@[i]).spec_valid()
        &&& forall|i: int| 0 <= i < self.ipv6@.len() ==> (#[trigger] self.ipv6@[i]).spec_valid()
    }
}

/// A peer with a fixed endpoint.
pub struct Server {
    pub peer: Peer,
    pub endpoint: Endpoint,
    pub keepalive: u32,
}

/// A peer reached through a base peer.
pub struct RoadWarrior {
    pub peer: Peer,
    pub base: Key,
}

/// The peers of one view of a source.
pub struct SourceConfig {
    pub servers: Vec<Server>,
    pub road_warriors: Vec<RoadWarrior>,
}

impl SourceConfig {
    /// Every peer is well formed.
    pub open spec fn wf(&self) -> bool {
        &&& forall|i: int| 0 <= i < self.servers@.len() ==> (#[trigger] self.servers@[i]).peer.wf()
        &&& forall|i: int|
            0 <= i < self.road_warriors@.len() ==> (#[trigger] self.road_warriors@[i]).peer.wf()
    }

    pub fn empty() -> (r: SourceConfig)
        ensures
            r.servers@.len() == 0,
            r.road_warriors@.len() == 0,
            r.wf(),
    {
        SourceConfig { servers: Vec::new(), road_warriors: Vec::new() }
    }
}

/// A wall-clock instant: seconds since the Unix epoch and nanoseconds.
#[derive(Clone, Copy, PartialEq, Eq, PartialOrd, Ord, Hash, Debug, Structural)]
pub struct Timestamp {
    pub secs: i64,
    pub nanos: u32,
}

pub uninterp spec fn rfc3339_reading_of(s: Seq<char>) -> Option<(i64, u32)>;

pub uninterp spec fn rfc3339_text_of(secs: i64, nanos: u32) -> Option<Seq<char>>;

/// Relies on `chrono::DateTime::parse_from_rfc3339`: the instant that `s`
/// names, as seconds and nanoseconds since the epoch.
#[verifier::external_body]
fn parse_rfc3339(s: &str) -> (r: Option<(i64, u32)>)
    ensures
        r == rfc3339_reading_of(s@),
{
    match chrono::DateTime::parse_from_rfc3339(s) {
        Ok(t) => Some((t.timestamp(), t.timestamp_subsec_nanos())),
        Err(_) => None,
    }
}

/// Relies on `chrono::Utc::timestamp_opt` and `to_rfc3339_opts` with
/// nanosecond precision and a `Z` suffix; nothing when the instant is out of range.
#[verifier::external_body]
fn format_rfc3339(secs: i64, nanos: u32) -> (r: Option<String>)
    ensures
        match r {
            Some(t) => rfc3339_text_of(secs, nanos) == Some(t@),
            None => rfc3339_text_of(secs, nanos) is None,
        },
{
    match <chrono::Utc as chrono::TimeZone>::timestamp_opt(&chrono::Utc, secs, nanos).single() {
        Some(t) => Some(t.to_rfc3339_opts(chrono::SecondsFormat::Nanos, true)),
        None => None,
    }
}

impl Timestamp {
    /// Ordered by seconds, then nanoseconds.
    pub open spec fn not_later(self, o: Timestamp) -> bool {
        self.secs < o.secs || (self.secs == o.secs && self.nanos <= o.nanos)
    }

    pub fn not_after(&self, o: &Timestamp) -> (r: bool)
        ensures
            r == self.not_later(*o),
    {
        self.secs < o.secs || (self.secs == o.secs && self.nanos <= o.nanos)
    }

    /// Reads an RFC 3339 time.
    pub fn parse_rfc3339(s: &str) -> (r: Option<Timestamp>)
        ensures
            match r {
                Some(t) => rfc3339_reading_of(s@) == Some((t.secs, t.nanos)),
                None => rfc3339_reading_of(s@) is None,
            },
    {
        match parse_rfc3339(s) {
            Some((secs, nanos)) => Some(Timestamp { secs, nanos }),
            None => None,
        }
    }

    /// Writes the time in RFC 3339 form, with nanoseconds, in UTC.
    pub fn to_rfc3339(&self) -> (r: Option<String>)
        ensures
            match r {
                Some(t) => rfc3339_text_of(self.secs, self.nanos) == Some(t@),
                None => rfc3339_text_of(self.secs, self.nanos) is None,
            },
    {
        format_rfc3339(self.secs, self.nanos)
    }

    /// The 12-byte form: seconds, then nanoseconds, both big-endian.
    pub fn to_binary(&self) -> (r: [u8; 12])
        ensures
            r@ == be_bytes_u64(#[verifier::truncate] (self.secs as u64)) + be_bytes_u32(self.nanos),
    {
        let s = i64_to_be(self.secs);
        let n = u32_to_be(self.nanos);
        let r = [s[0], s[1], s[2], s[3], s[4], s[5], s[6], s[7], n[0], n[1], n[2], n[3]];
        assert(r@ =~= s@ + n@);
        r
    }

    /// Reads the 12-byte form.
    pub fn from_binary(b: [u8; 12]) -> (r: Timestamp)
        ensures
            be_bytes_u64(#[verifier::truncate] (r.secs as u64)) + be_bytes_u32(r.nanos) == b@,
    {
        let secs = i64_from_be([b[0], b[1], b[2], b[3], b[4], b[5], b[6], b[7]]);
        let nanos = u32_from_be([b[8], b[9], b[10], b[11]]);
        let r = Timestamp { secs, nanos };
        proof {
            let s8 = be_bytes_u64(#[verifier::truncate] (secs as u64));
            let n4 = be_bytes_u32(nanos);
            assert(s8 + n4 =~= b@);
        }
        r
    }
}

/// The binary form of a time determines it: reading back what was written
/// gives the same seconds and nanoseconds.
pub proof fn lemma_binary_round_trip(t: Timestamp, u: Timestamp)
    requires
        be_bytes_u64(#[verifier::truncate] (t.secs as u64)) + be_bytes_u32(t.nanos) == be_bytes_u64(
            #[verifier::truncate] (u.secs as u64),
        ) + be_bytes_u32(u.nanos),
    ensures
        t == u,
{
    let a = be_bytes_u64(#[verifier::truncate] (t.secs as u64)) + be_bytes_u32(t.nanos);
    let b = be_bytes_u64(#[verifier::truncate] (u.secs as u64)) + be_bytes_u32(u.nanos);
    assert(be_bytes_u64(#[verifier::truncate] (t.secs as u64)) =~= a.take(8));
    assert(be_bytes_u64(#[verifier::truncate] (u.secs as u64)) =~= b.take(8));
    assert(be_bytes_u32(t.nanos) =~= a.skip(8));
    assert(be_bytes_u32(u.nanos) =~= b.skip(8));
    crate::bin::lemma_u64_be_round_trip(
        #[verifier::truncate] (t.secs as u64),
        #[verifier::truncate] (u.secs as u64),
    );
    crate::bin::lemma_u32_be_round_trip(t.nanos, u.nanos);
    let ts = t.secs;
    let us = u.secs;
    assert(ts == us) by (bit_vector)
        requires
            (#[verifier::truncate] (ts as u64)) == (#[verifier::truncate] (us as u64)),
    ;
}

/// What a source publishes: the current view, and possibly a next view with
/// the time at which it takes over.
pub struct Source {
    pub config: SourceConfig,
    pub next: Option<(Timestamp, SourceConfig)>,
}

impl Source {
    /// Every view is well formed.
    pub open spec fn wf(&self) -> bool {
        &&& self.config.wf()
        &&& self.next matches Some((_, n)) ==> n.wf()
    }

    pub fn empty() -> (r: Source)
        ensures
            r.config.servers@.len() == 0,
            r.config.road_warriors@.len() == 0,
            r.next is None,
            r.wf(),
    {
        Source { config: SourceConfig::empty(), next: None }
    }
}

} // verus!
