//! Operator configuration: sources, per-peer overrides and timing.

use crate::ip::{Ipv4Set, Ipv6Set};
use crate::model::{keys_distinct, Endpoint, Key, Secret};
use vstd::prelude::*;

verus! {

/// One source of peers and the prefixes its peers may claim.
pub struct Source {
    pub name: String,
    pub url: String,
    pub psk: Option<Secret>,
    pub ipv4: Ipv4Set,
    pub ipv6: Ipv6Set,
    pub required: bool,
    pub allow_road_warriors: bool,
}

impl Source {
    /// Both prefix sets are in canonical form.
    pub open spec fn wf(&self) -> bool {
        self.ipv4.wf() && self.ipv6.wf()
    }
}

/// Operator settings for one peer, keyed by its public key.
pub struct Peer {
    /// Only this source may publish the peer.
    pub source: Option<String>,
    pub endpoint: Option<Endpoint>,
    pub psk: Option<Secret>,
    pub keepalive: Option<u32>,
}

pub fn default_min_keepalive() -> (r: u32)
    ensures
        r == 10,
{
    10
}

pub fn default_max_keepalive() -> (r: u32)
    ensures
        r == 0,
{
    0
}

pub fn default_refresh_sec() -> (r: u32)
    ensures
        r == 1200,
{
    1200
}

/// The keepalive that a peer asking for `k` gets: a nonzero maximum caps it
/// (and replaces 0), then a nonzero result is raised to the minimum.
pub open spec fn clamp_keepalive(min: u32, max: u32, k: u32) -> u32 {
    let k1 = if max != 0 && (k == 0 || k > max) {
        max
    } else {
        k
    };
    if k1 != 0 && k1 < min {
        min
    } else {
        k1
    }
}

/// Keepalive bounds and per-peer overrides.
pub struct GlobalConfig {
    pub min_keepalive: u32,
    pub max_keepalive: u32,
    pub peers: Vec<(Key, Peer)>,
}

impl Default for GlobalConfig {
    fn default() -> (r: GlobalConfig)
        ensures
            r.min_keepalive == 10,
            r.max_keepalive == 0,
            r.peers@.len() == 0,
    {
        GlobalConfig {
            min_keepalive: default_min_keepalive(),
            max_keepalive: default_max_keepalive(),
            peers: Vec::new(),
        }
    }
}

impl GlobalConfig {
    /// Each key has at most one override.
    pub open spec fn wf(&self) -> bool {
        keys_distinct(self.peers@)
    }

    pub open spec fn spec_fix_keepalive(&self, k: u32) -> u32 {
        clamp_keepalive(self.min_keepalive, self.max_keepalive, k)
    }

    pub fn fix_keepalive(&self, k: u32) -> (r: u32)
        ensures
            r == self.spec_fix_keepalive(k),
    {
        let mut k = k;
        if self.max_keepalive != 0 && (k == 0 || k > self.max_keepalive) {
            k = self.max_keepalive;
        }
        if k != 0 && k < self.min_keepalive {
            k = self.min_keepalive;
        }
        k
    }

    /// Position of the override for `k`.
    pub fn find_override(&self, k: &Key) -> (r: Option<usize>)
        ensures
            match r {
                Some(i) => i < self.peers@.len() && self.peers@[i as int].0 == *k,
                None => forall|i: int| 0 <= i < self.peers@.len() ==> (#[trigger] self.peers@[i]).0 != *k,
            },
    {
        let mut i: usize = 0;
        while i < self.peers.len()
            invariant
                i <= self.peers.len(),
                forall|j: int| 0 <= j < i ==> (#[trigger] self.peers@[j]).0 != *k,
            decreases self.peers.len() - i,
        {
            if self.peers[i].0.same(k) {
                return Some(i);
            }
            i += 1;
        }
        None
    }
}

/// Where fetched documents are cached, and how often sources are refreshed.
pub struct UpdaterConfig {
    pub cache_directory: Option<String>,
    /// Seconds between regular updates.
    pub refresh_sec: u32,
}

impl Default for UpdaterConfig {
    fn default() -> (r: UpdaterConfig)
        ensures
            r.cache_directory is None,
            r.refresh_sec == 1200,
    {
        UpdaterConfig { cache_directory: None, refresh_sec: default_refresh_sec() }
    }
}

/// The whole operator configuration.
pub struct Config {
    pub runtime_directory: Option<String>,
    pub global: GlobalConfig,
    pub updater: UpdaterConfig,
    pub sources: Vec<Source>,
}

impl Default for Config {
    fn default() -> (r: Config)
        ensures
            r.runtime_directory is None,
            r.global.min_keepalive == 10,
            r.global.max_keepalive == 0,
            r.global.peers@.len() == 0,
            r.updater.cache_directory is None,
            r.updater.refresh_sec == 1200,
            r.sources@.len() == 0,
    {
        Config {
            runtime_directory: None,
            global: GlobalConfig::default(),
            updater: UpdaterConfig::default(),
            sources: Vec::new(),
        }
    }
}

} // verus!
