//! Keys, secrets, endpoints and the desired peer state of the interface.

use crate::bin::{be_bytes_u16, u16_from_be, u16_to_be};
use crate::ip::{be_bytes_u128, u128_from_be, u128_to_be, Ipv4Net, Ipv6Net};
use vstd::prelude::*;

verus! {

pub uninterp spec fn base64_decoding_of(s: Seq<u8>) -> Option<Seq<u8>>;

pub uninterp spec fn base64_text_of(b: Seq<u8>) -> Seq<char>;

/// Relies on `base64::decode_config` with the standard padded alphabet: the
/// bytes that `s` encodes, or nothing when `s` is not valid base64.
#[verifier::external_body]
fn base64_decode(s: &[u8]) -> (r: Option<Vec<u8>>)
    requires
        s@.len() + 3 <= usize::MAX,
    ensures
        match r {
            Some(v) => base64_decoding_of(s@) == Some(v@),
            None => base64_decoding_of(s@) is None,
        },
{
    base64::decode_config(s, base64::STANDARD).ok()
}

/// Relies on `base64::encode_config` with the standard padded alphabet.
#[verifier::external_body]
fn base64_encode(b: &[u8; 32]) -> (r: String)
    ensures
        r@ == base64_text_of(b@),
{
    base64::encode_config(b, base64::STANDARD)
}

/// A 32-byte WireGuard public key.
#[derive(Clone, Copy, PartialEq, Eq, PartialOrd, Ord, Hash, Debug)]
pub struct Key(pub [u8; 32]);

/// Why a key text was rejected.
#[derive(Clone, Copy, PartialEq, Eq, Debug, Structural)]
pub enum KeyParseError {
    /// The text is not valid base64.
    Invalid,
    /// The text does not encode exactly 32 bytes.
    InvalidLength,
}

/// What `Key::from_base64` gives for the text `s`.
pub open spec fn key_reading(s: Seq<u8>) -> Result<Seq<u8>, KeyParseError> {
    match base64_decoding_of(s) {
        None => Err(KeyParseError::Invalid),
        Some(b) => if b.len() == 32 {
            Ok(b)
        } else {
            Err(KeyParseError::InvalidLength)
        },
    }
}

impl Key {
    pub fn from_base64(s: &[u8]) -> (r: Result<Key, KeyParseError>)
        requires
            s@.len() + 3 <= usize::MAX,
        ensures
            match r {
                Ok(k) => key_reading(s@) == Ok::<Seq<u8>, KeyParseError>(k.0@),
                Err(e) => key_reading(s@) == Err::<Seq<u8>, KeyParseError>(e),
            },
    {
        let v = match base64_decode(s) {
            Some(v) => v,
            None => {
                return Err(KeyParseError::Invalid);
            },
        };
        if v.len() != 32 {
            return Err(KeyParseError::InvalidLength);
        }
        let mut k = [0u8; 32];
        let mut i: usize = 0;
        while i < 32
            invariant
                i <= 32,
                v@.len() == 32,
                forall|j: int| 0 <= j < i ==> k@[j] == v@[j],
            decreases 32 - i,
        {
            k[i] = v[i];
            i += 1;
        }
        assert(k@ =~= v@);
        Ok(Key(k))
    }

    /// The standard base64 text of the key.
    pub fn to_base64(&self) -> (r: String)
        ensures
            r@ == base64_text_of(self.0@),
    {
        base64_encode(&self.0)
    }

    /// The two keys hold the same bytes.
    pub fn same(&self, o: &Key) -> (r: bool)
        ensures
            r == (*self == *o),
    {
        let mut i: usize = 0;
        while i < 32
            invariant
                i <= 32,
                forall|j: int| 0 <= j < i ==> self.0@[j] == o.0@[j],
            decreases 32 - i,
        {
            if self.0[i] != o.0[i] {
                return false;
            }
            i += 1;
        }
        proof {
            vstd::array::axiom_array_ext_equal(self.0, o.0);
            assert(self.0@ =~= o.0@);
        }
        true
    }
}

/// A preshared key. It has no printed form; only `to_base64` reveals it.
#[derive(Clone, Copy, PartialEq, Eq)]
pub struct Secret(pub Key);

/// What a secret file holding `data` gives: one trailing newline is dropped,
/// empty means no secret, and the rest must be a key in base64.
pub open spec fn secret_reading(data: Seq<u8>) -> Result<Option<Seq<u8>>, KeyParseError> {
    let d = if data.len() > 0 && data.last() == 10 {
        data.drop_last()
    } else {
        data
    };
    if d.len() == 0 {
        Ok(None)
    } else {
        match key_reading(d) {
            Ok(k) => Ok(Some(k)),
            Err(e) => Err(e),
        }
    }
}

impl Secret {
    /// Reads a secret from the contents of its file.
    pub fn from_file_contents(data: Vec<u8>) -> (r: Result<Option<Secret>, KeyParseError>)
        requires
            data@.len() + 3 <= usize::MAX,
        ensures
            match r {
                Ok(Some(s)) => secret_reading(data@) == Ok::<Option<Seq<u8>>, KeyParseError>(
                    Some(s.0.0@),
                ),
                Ok(None) => secret_reading(data@) == Ok::<Option<Seq<u8>>, KeyParseError>(None),
                Err(e) => secret_reading(data@) == Err::<Option<Seq<u8>>, KeyParseError>(e),
            },
    {
        let mut data = data;
        let n = data.len();
        if n > 0 && data[n - 1] == 10 {
            data.pop();
        }
        if data.len() == 0 {
            return Ok(None);
        }
        match Key::from_base64(data.as_slice()) {
            Ok(k) => Ok(Some(Secret(k))),
            Err(e) => Err(e),
        }
    }

    /// The two secrets hold the same bytes.
    pub fn same(&self, o: &Secret) -> (r: bool)
        ensures
            r == (*self == *o),
    {
        self.0.same(&o.0)
    }
}

/// An IPv6 address and a port; IPv4 addresses are held in their IPv4-mapped form.
#[derive(Clone, Copy, PartialEq, Eq, PartialOrd, Ord, Hash, Debug, Structural)]
pub struct Endpoint {
    address: u128,
    port: u16,
}

/// The IPv4-mapped IPv6 form of an IPv4 address.
pub open spec fn ipv4_mapped(a: u32) -> u128 {
    (0xffff * 0x1_0000_0000 + a as nat) as u128
}

impl Endpoint {
    pub closed spec fn spec_address(&self) -> u128 {
        self.address
    }

    pub closed spec fn spec_port(&self) -> u16 {
        self.port
    }

    pub fn new(address: u128, port: u16) -> (r: Endpoint)
        ensures
            r.spec_address() == address,
            r.spec_port() == port,
    {
        Endpoint { address, port }
    }

    pub fn from_ipv4(address: u32, port: u16) -> (r: Endpoint)
        ensures
            r.spec_address() == ipv4_mapped(address),
            r.spec_port() == port,
    {
        Endpoint { address: 0xffff_0000_0000u128 + address as u128, port }
    }

    pub fn ipv6_address(&self) -> (r: u128)
        ensures
            r == self.spec_address(),
    {
        self.address
    }

    /// The IPv4 address, when the address is IPv4-mapped.
    pub fn ipv4_address(&self) -> (r: Option<u32>)
        ensures
            r matches Some(a) ==> self.spec_address() == ipv4_mapped(a),
            r is None ==> forall|a: u32| self.spec_address() != ipv4_mapped(a),
    {
        if self.address / 0x1_0000_0000u128 == 0xffff {
            Some((self.address % 0x1_0000_0000u128) as u32)
        } else {
            None
        }
    }

    pub fn port(&self) -> (r: u16)
        ensures
            r == self.spec_port(),
    {
        self.port
    }

    /// The compact form: sixteen address bytes, then the port, big-endian.
    pub fn to_binary(&self) -> (r: [u8; 18])
        ensures
            r@ == be_bytes_u128(self.spec_address()) + be_bytes_u16(self.spec_port()),
    {
        let a = u128_to_be(self.address);
        let p = u16_to_be(self.port);
        let r = [
            a[0], a[1], a[2], a[3], a[4], a[5], a[6], a[7], a[8], a[9], a[10], a[11], a[12], a[13],
            a[14], a[15], p[0], p[1],
        ];
        assert(r@ =~= a@ + p@);
        r
    }

    /// Reads the compact form.
    pub fn from_binary(b: [u8; 18]) -> (r: Endpoint)
        ensures
            be_bytes_u128(r.spec_address()) + be_bytes_u16(r.spec_port()) == b@,
    {
        let address = u128_from_be(
            [b[0], b[1], b[2], b[3], b[4], b[5], b[6], b[7], b[8], b[9], b[10], b[11], b[12], b[13], b[14], b[15]],
        );
        let port = u16_from_be([b[16], b[17]]);
        let r = Endpoint { address, port };
        assert(be_bytes_u128(address) + be_bytes_u16(port) =~= b@);
        r
    }
}

/// The mathematical content of a peer entry.
pub struct PeerView {
    pub endpoint: Option<Endpoint>,
    pub psk: Option<Secret>,
    pub keepalive: u32,
    pub ipv4: Seq<Ipv4Net>,
    pub ipv6: Seq<Ipv6Net>,
}

/// The desired state of one peer of the interface.
#[derive(Clone, PartialEq, Eq)]
pub struct Peer {
    pub endpoint: Option<Endpoint>,
    pub psk: Option<Secret>,
    pub keepalive: u32,
    pub ipv4: Vec<Ipv4Net>,
    pub ipv6: Vec<Ipv6Net>,
}

impl View for Peer {
    type V = PeerView;

    open spec fn view(&self) -> PeerView {
        PeerView {
            endpoint: self.endpoint,
            psk: self.psk,
            keepalive: self.keepalive,
            ipv4: self.ipv4@,
            ipv6: self.ipv6@,
        }
    }
}

fn same_endpoint(a: &Option<Endpoint>, b: &Option<Endpoint>) -> (r: bool)
    ensures
        r == (*a == *b),
{
    match (a, b) {
        (Some(x), Some(y)) => *x == *y,
        (None, None) => true,
        _ => false,
    }
}

fn same_psk(a: &Option<Secret>, b: &Option<Secret>) -> (r: bool)
    ensures
        r == (*a == *b),
{
    match (a, b) {
        (Some(x), Some(y)) => x.same(y),
        (None, None) => true,
        _ => false,
    }
}

fn same_v4(a: &Vec<Ipv4Net>, b: &Vec<Ipv4Net>) -> (r: bool)
    ensures
        r == (a@ == b@),
{
    if a.len() != b.len() {
        return false;
    }
    let mut i: usize = 0;
    while i < a.len()
        invariant
            i <= a.len() == b.len(),
            forall|j: int| 0 <= j < i ==> a@[j] == b@[j],
        decreases a.len() - i,
    {
        if a[i] != b[i] {
            return false;
        }
        i += 1;
    }
    assert(a@ =~= b@);
    true
}

fn same_v6(a: &Vec<Ipv6Net>, b: &Vec<Ipv6Net>) -> (r: bool)
    ensures
        r == (a@ == b@),
{
    if a.len() != b.len() {
        return false;
    }
    let mut i: usize = 0;
    while i < a.len()
        invariant
            i <= a.len() == b.len(),
            forall|j: int| 0 <= j < i ==> a@[j] == b@[j],
        decreases a.len() - i,
    {
        if a[i] != b[i] {
            return false;
        }
        i += 1;
    }
    assert(a@ =~= b@);
    true
}

impl Peer {
    /// The two entries are equal in every field.
    pub fn same(&self, o: &Peer) -> (r: bool)
        ensures
            r == (self@ == o@),
    {
        let r = same_endpoint(&self.endpoint, &o.endpoint) && same_psk(&self.psk, &o.psk)
            && self.keepalive == o.keepalive && same_v4(&self.ipv4, &o.ipv4) && same_v6(
            &self.ipv6,
            &o.ipv6,
        );
        proof {
            if !r {
                if self.ipv4@ != o.ipv4@ {
                    assert(self@.ipv4 != o@.ipv4);
                }
                if self.ipv6@ != o.ipv6@ {
                    assert(self@.ipv6 != o@.ipv6);
                }
            }
        }
        r
    }
}

/// The index of the entry for `k` in `s`, if there is one.
pub open spec fn key_index<V>(s: Seq<(Key, V)>, k: Key) -> Option<int> {
    if exists|i: int| 0 <= i < s.len() && (#[trigger] s[i]).0 == k {
        Some(choose|i: int| 0 <= i < s.len() && (#[trigger] s[i]).0 == k)
    } else {
        None
    }
}

/// No key occurs twice in `s`.
pub open spec fn keys_distinct<V>(s: Seq<(Key, V)>) -> bool {
    forall|i: int, j: int| 0 <= i < s.len() && 0 <= j < s.len() && i != j ==> (#[trigger] s[i]).0 != (#[trigger] s[j]).0
}

/// Two entry lists with distinct keys hold the same key-to-value map.
pub open spec fn same_map<V>(a: Seq<(Key, V)>, b: Seq<(Key, V)>) -> bool {
    &&& a.len() == b.len()
    &&& forall|i: int| 0 <= i < a.len() ==> b.contains(#[trigger] a[i])
}

/// The desired state of the interface: one entry per peer public key.
#[derive(Clone, PartialEq, Eq)]
pub struct Config {
    pub peers: Vec<(Key, Peer)>,
}

impl View for Config {
    type V = Seq<(Key, PeerView)>;

    open spec fn view(&self) -> Seq<(Key, PeerView)> {
        self.peers@.map_values(|e: (Key, Peer)| (e.0, e.1@))
    }
}

impl Config {
    /// Each key has one entry.
    pub open spec fn wf(&self) -> bool {
        keys_distinct(self@)
    }

    pub fn empty() -> (r: Config)
        ensures
            r@ == Seq::<(Key, PeerView)>::empty(),
            r.wf(),
    {
        let r = Config { peers: Vec::new() };
        assert(r@ =~= Seq::<(Key, PeerView)>::empty());
        r
    }

    /// Position of the entry for `k`.
    pub fn find(&self, k: &Key) -> (r: Option<usize>)
        ensures
            match r {
                Some(i) => i < self@.len() && self@[i as int].0 == *k,
                None => key_index(self@, *k) is None,
            },
    {
        let mut i: usize = 0;
        while i < self.peers.len()
            invariant
                i <= self.peers.len(),
                forall|j: int| 0 <= j < i ==> (#[trigger] self@[j]).0 != *k,
            decreases self.peers.len() - i,
        {
            if self.peers[i].0.same(k) {
                return Some(i);
            }
            i += 1;
        }
        None
    }

    /// Both configurations map the same keys to the same entries, whatever
    /// their order.
    pub fn same(&self, o: &Config) -> (r: bool)
        requires
            self.wf(),
            o.wf(),
        ensures
            r == same_map(self@, o@),
    {
        if self.peers.len() != o.peers.len() {
            return false;
        }
        let mut i: usize = 0;
        while i < self.peers.len()
            invariant
                i <= self.peers.len() == o.peers.len(),
                o.wf(),
                forall|j: int| 0 <= j < i ==> o@.contains(#[trigger] self@[j]),
            decreases self.peers.len() - i,
        {
            let ent = &self.peers[i];
            match o.find(&ent.0) {
                None => {
                    proof {
                        if o@.contains(self@[i as int]) {
                            let j = choose|j: int| 0 <= j < o@.len() && o@[j] == self@[i as int];
                            assert(o@[j].0 == ent.0);
                        }
                    }
                    return false;
                },
                Some(j) => {
                    if !o.peers[j].1.same(&ent.1) {
                        proof {
                            if o@.contains(self@[i as int]) {
                                let m = choose|m: int| 0 <= m < o@.len() && o@[m] == self@[i as int];
                                assert(o@[m].0 == o@[j as int].0);
                            }
                        }
                        return false;
                    }
                    proof {
                        assert(o@[j as int] == self@[i as int]);
                    }
                },
            }
            i += 1;
        }
        true
    }
}

} // verus!
