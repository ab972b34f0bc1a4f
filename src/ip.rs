//! IP prefixes and canonical prefix sets.

use vstd::arithmetic::div_mod::lemma_div_denominator;
use vstd::arithmetic::power2::{lemma_pow2_adds, lemma_pow2_pos, pow2};
use crate::bin::{be_bytes_u32, be_bytes_u64, u32_from_be, u32_to_be, u64_from_be, u64_to_be};
use vstd::bits::lemma_u128_shr_is_div;
use vstd::prelude::*;

verus! {

/// A text that is not a valid address or prefix.
#[derive(Clone, Copy, PartialEq, Eq, Debug)]
pub struct NetParseError;

pub open spec fn is_digit(c: char) -> bool {
    '0' <= c && c <= '9'
}

/// Value of a string of decimal digits.
pub open spec fn digits_value(d: Seq<char>) -> int
    decreases d.len(),
{
    if d.len() == 0 {
        0
    } else {
        digits_value(d.drop_last()) * 10 + (d.last() as int - '0' as int)
    }
}

/// `s` without a leading `+`.
pub open spec fn unsigned_part(s: Seq<char>) -> Seq<char> {
    if s.len() > 0 && s[0] == '+' {
        s.drop_first()
    } else {
        s
    }
}

/// What reads as a `u8`: an optional `+`, then one or more digits worth at most 255.
pub open spec fn u8_reading(s: Seq<char>) -> Option<u8> {
    let d = unsigned_part(s);
    if d.len() > 0 && (forall|i: int| 0 <= i < d.len() ==> is_digit(#[trigger] d[i]))
        && digits_value(d) <= 255 {
        Some(digits_value(d) as u8)
    } else {
        None
    }
}

/// Decimal text of `v`, without leading zeros.
pub open spec fn decimal_text(v: nat) -> Seq<char>
    decreases v,
{
    if v < 10 {
        seq![(v + '0' as nat) as char]
    } else {
        decimal_text(v / 10).push(((v % 10) + '0' as nat) as char)
    }
}

proof fn lemma_digits_prefix(d: Seq<char>, k: int)
    requires
        0 <= k <= d.len(),
        forall|i: int| 0 <= i < d.len() ==> is_digit(#[trigger] d[i]),
    ensures
        0 <= digits_value(d.take(k)) <= digits_value(d),
    decreases d.len(),
{
    if d.len() > 0 {
        if k == d.len() {
            assert(d.take(k) =~= d);
            lemma_digits_prefix(d.drop_last(), k - 1);
            assert(d.drop_last().take(k - 1) =~= d.drop_last());
        } else {
            lemma_digits_prefix(d.drop_last(), k);
            assert(d.drop_last().take(k) =~= d.take(k));
            lemma_digits_prefix(d.drop_last(), d.len() - 1);
            assert(d.drop_last().take(d.len() - 1) =~= d.drop_last());
        }
    }
}

/// Reads a `u8` in decimal, as `u8::from_str` does.
pub fn parse_u8(s: &str) -> (r: Option<u8>)
    ensures
        r == u8_reading(s@),
{
    let n = s.unicode_len();
    let mut start: usize = 0;
    if n > 0 && s.get_char(0) == '+' {
        start = 1;
    }
    let ghost d = unsigned_part(s@);
    assert(d =~= s@.subrange(start as int, n as int));
    if start == n {
        return None;
    }
    let mut v: u32 = 0;
    let mut i: usize = start;
    while i < n
        invariant
            start <= i <= n,
            n == s@.len(),
            d =~= s@.subrange(start as int, n as int),
            d == unsigned_part(s@),
            forall|k: int| 0 <= k < i - start ==> is_digit(#[trigger] d[k]),
            v as int == digits_value(d.take(i - start)),
            v <= 255,
        decreases n - i,
    {
        let c = s.get_char(i);
        assert(d[i - start] == c);
        if !('0' <= c && c <= '9') {
            proof {
                assert(!is_digit(d[i - start]));
            }
            return None;
        }
        proof {
            assert(d.take(i - start + 1).drop_last() =~= d.take(i - start));
            assert(d.take(i - start + 1).last() == c);
        }
        v = v * 10 + (c as u32 - '0' as u32);
        i += 1;
        assert(v as int == digits_value(d.take(i - start)));
        if v > 255 {
            proof {
                if forall|k: int| 0 <= k < d.len() ==> is_digit(#[trigger] d[k]) {
                    lemma_digits_prefix(d, i - start);
                    assert(digits_value(d) > 255);
                }
            }
            return None;
        }
    }
    assert(d.take(i - start) =~= d);
    Some(v as u8)
}

/// Splits `addr/len` at the first `/` and reads the length.
pub fn pfx_split(s: &str) -> (r: Result<(&str, u8), NetParseError>)
    ensures
        match r {
            Ok((a, p)) => {
                &&& a@.len() < s@.len()
                &&& s@[a@.len() as int] == '/'
                &&& a@ == s@.take(a@.len() as int)
                &&& !a@.contains('/')
                &&& u8_reading(s@.skip(a@.len() as int + 1)) == Some(p)
            },
            Err(_) => forall|i: int|
                0 <= i < s@.len() && s@[i] == '/' && !s@.take(i).contains('/') ==> u8_reading(
                    #[trigger] s@.skip(i + 1),
                ) is None,
        },
{
    let n = s.unicode_len();
    let mut i: usize = 0;
    while i < n && s.get_char(i) != '/'
        invariant
            i <= n,
            n == s@.len(),
            forall|k: int| 0 <= k < i ==> s@[k] != '/',
        decreases n - i,
    {
        i += 1;
    }
    if i == n {
        return Err(NetParseError);
    }
    let addr = s.substring_char(0, i);
    let rest = s.substring_char(i + 1, n);
    proof {
        assert(rest@ =~= s@.skip(i + 1));
        assert(!addr@.contains('/'));
    }
    match parse_u8(rest) {
        Some(p) => Ok((addr, p)),
        None => {
            proof {
                assert forall|j: int|
                    0 <= j < s@.len() && s@[j] == '/' && !s@.take(j).contains('/') implies u8_reading(
                    #[trigger] s@.skip(j + 1),
                ) is None by {
                    if j > i {
                        assert(s@.take(j)[i as int] == '/');
                    }
                    if j < i {
                        assert(s@[j] != '/');
                    }
                }
            }
            Err(NetParseError)
        },
    }
}

/// Relies on std's `Display` for `u8`: the decimal digits of the value.
#[verifier::external_body]
fn u8_text(v: u8) -> (r: String)
    ensures
        r@ == decimal_text(v as nat),
{
    v.to_string()
}

/// A dotted-quad field: one to three digits, no leading zero, at most 255.
pub open spec fn octet_reading(d: Seq<char>) -> Option<u8> {
    if 1 <= d.len() <= 3 && (forall|i: int| 0 <= i < d.len() ==> is_digit(#[trigger] d[i])) && (
    d.len() == 1 || d[0] != '0') && digits_value(d) <= 255 {
        Some(digits_value(d) as u8)
    } else {
        None
    }
}

/// `s` has dots exactly at `d1 < d2 < d3`.
pub open spec fn dots_at(s: Seq<char>, d1: int, d2: int, d3: int) -> bool {
    &&& 0 <= d1 < d2 < d3 < s.len()
    &&& s[d1] == '.' && s[d2] == '.' && s[d3] == '.'
    &&& forall|i: int| 0 <= i < s.len() && #[trigger] s[i] == '.' ==> i == d1 || i == d2 || i == d3
}

/// The address that the dotted quad `s` denotes, if `s` is one.
pub open spec fn ipv4_reading(s: Seq<char>) -> Option<u32> {
    if exists|d1: int, d2: int, d3: int| dots_at(s, d1, d2, d3) {
        let (d1, d2, d3) = choose|d1: int, d2: int, d3: int| dots_at(s, d1, d2, d3);
        match (
            octet_reading(s.subrange(0, d1)),
            octet_reading(s.subrange(d1 + 1, d2)),
            octet_reading(s.subrange(d2 + 1, d3)),
            octet_reading(s.subrange(d3 + 1, s.len() as int)),
        ) {
            (Some(a), Some(b), Some(c), Some(d)) => Some(
                (a as nat * 0x1000000 + b as nat * 0x10000 + c as nat * 0x100 + d as nat) as u32,
            ),
            _ => None,
        }
    } else {
        None
    }
}

fn parse_octet(s: &str) -> (r: Option<u8>)
    ensures
        r == octet_reading(s@),
{
    let n = s.unicode_len();
    if n == 0 || n > 3 {
        return None;
    }
    if n > 1 && s.get_char(0) == '0' {
        return None;
    }
    let mut v: u32 = 0;
    let mut i: usize = 0;
    while i < n
        invariant
            i <= n <= 3,
            n == s@.len(),
            forall|k: int| 0 <= k < i ==> is_digit(#[trigger] s@[k]),
            v as int == digits_value(s@.take(i as int)),
            i == 0 ==> v == 0,
            i <= 1 ==> v < 10,
            i <= 2 ==> v < 100,
            v < 1000,
        decreases n - i,
    {
        let c = s.get_char(i);
        if !('0' <= c && c <= '9') {
            return None;
        }
        proof {
            assert(s@.take(i + 1).drop_last() =~= s@.take(i as int));
            assert(s@.take(i + 1).last() == c);
        }
        v = v * 10 + (c as u32 - '0' as u32);
        i += 1;
    }
    assert(s@.take(n as int) =~= s@);
    if v > 255 {
        return None;
    }
    Some(v as u8)
}

/// Reads a dotted quad, such as `192.0.2.1`.
pub fn parse_ipv4_addr(s: &str) -> (r: Option<u32>)
    ensures
        r == ipv4_reading(s@),
{
    let n = s.unicode_len();
    let mut dots: Vec<usize> = Vec::new();
    let mut i: usize = 0;
    while i < n
        invariant
            i <= n,
            n == s@.len(),
            dots.len() <= 3,
            forall|k: int| 0 <= k < dots.len() ==> #[trigger] dots@[k] < i && s@[dots@[k] as int] == '.',
            forall|a: int, b: int| 0 <= a < b < dots.len() ==> #[trigger] dots@[a] < #[trigger] dots@[b],
            forall|j: int| 0 <= j < i && #[trigger] s@[j] == '.' ==> exists|k: int| 0 <= k < dots.len() && dots@[k] == j,
        decreases n - i,
    {
        if s.get_char(i) == '.' {
            if dots.len() == 3 {
                proof {
                    if exists|d1: int, d2: int, d3: int| dots_at(s@, d1, d2, d3) {
                        let (d1, d2, d3) = choose|d1: int, d2: int, d3: int| dots_at(s@, d1, d2, d3);
                        let d = dots@;
                        assert(s@[d[0] as int] == '.' && s@[d[1] as int] == '.' && s@[d[2] as int] == '.' && s@[i as int] == '.');
                        assert(d[0] < d[1] && d[1] < d[2]);
                    }
                }
                return None;
            }
            let ghost d0 = dots@;
            dots.push(i);
            proof {
                assert forall|j: int| 0 <= j < i + 1 && #[trigger] s@[j] == '.' implies exists|k: int| 0 <= k < dots.len() && dots@[k] == j by {
                    if j < i {
                        let k = choose|k: int| 0 <= k < d0.len() && d0[k] == j;
                        assert(dots@[k] == j);
                    } else {
                        assert(dots@[d0.len() as int] == j);
                    }
                }
            }
        }
        i += 1;
    }
    if dots.len() != 3 {
        proof {
            if dots.len() < 3 {
                assert(i == n);
                if exists|d1: int, d2: int, d3: int| dots_at(s@, d1, d2, d3) {
                    let (d1, d2, d3) = choose|d1: int, d2: int, d3: int| dots_at(s@, d1, d2, d3);
                    assert(s@[d1] == '.' && s@[d2] == '.' && s@[d3] == '.');
                    let k1 = choose|k: int| 0 <= k < dots.len() && dots@[k] == d1;
                    let k2 = choose|k: int| 0 <= k < dots.len() && dots@[k] == d2;
                    let k3 = choose|k: int| 0 <= k < dots.len() && dots@[k] == d3;
                    assert(k1 != k2 && k2 != k3 && k1 != k3);
                }
            }
        }
        return None;
    }
    let (d1, d2, d3) = (dots[0], dots[1], dots[2]);
    proof {
        assert(dots@[0] < dots@[1] && dots@[1] < dots@[2]);
        assert forall|j: int| 0 <= j < s@.len() && #[trigger] s@[j] == '.' implies j == d1 || j == d2 || j == d3 by {
            let k = choose|k: int| 0 <= k < dots.len() && dots@[k] == j;
        }
        assert(dots_at(s@, d1 as int, d2 as int, d3 as int));
        let (e1, e2, e3) = choose|e1: int, e2: int, e3: int| dots_at(s@, e1, e2, e3);
        assert(s@[e1] == '.' && s@[e2] == '.' && s@[e3] == '.');
        assert(e1 == d1 && e2 == d2 && e3 == d3);
    }
    let a = parse_octet(s.substring_char(0, d1));
    let b = parse_octet(s.substring_char(d1 + 1, d2));
    let c = parse_octet(s.substring_char(d2 + 1, d3));
    let d = parse_octet(s.substring_char(d3 + 1, n));
    match (a, b, c, d) {
        (Some(a), Some(b), Some(c), Some(d)) => Some(
            (a as u32) * 0x1000000 + (b as u32) * 0x10000 + (c as u32) * 0x100 + d as u32,
        ),
        _ => None,
    }
}

/// The dotted-quad text of `a`.
pub open spec fn ipv4_text(a: u32) -> Seq<char> {
    decimal_text(a as nat / 0x1000000) + seq!['.'] + decimal_text((a as nat / 0x10000) % 0x100)
        + seq!['.'] + decimal_text((a as nat / 0x100) % 0x100) + seq!['.'] + decimal_text(
        a as nat % 0x100,
    )
}

/// Writes `a` as a dotted quad.
pub fn ipv4_addr_text(a: u32) -> (r: String)
    ensures
        r@ == ipv4_text(a),
{
    let mut r = u8_text((a / 0x1000000) as u8);
    r.append(".");
    r.append(u8_text(((a / 0x10000) % 0x100) as u8).as_str());
    r.append(".");
    r.append(u8_text(((a / 0x100) % 0x100) as u8).as_str());
    r.append(".");
    r.append(u8_text((a % 0x100) as u8).as_str());
    proof {
        reveal_strlit(".");
    }
    r
}
/// An IPv4 prefix: an address and the number of leading bits that are fixed.
#[derive(Clone, Copy, PartialEq, Eq, PartialOrd, Ord, Hash, Debug, Structural)]
pub struct Ipv4Net {
    pub address: u32,
    pub prefix_len: u8,
}

/// Host bits of `a` below a prefix of length `l` are all zero.
pub open spec fn v4_valid(a: u32, l: u32) -> bool {
    l <= 32 && (l == 32 || a & (u32::MAX >> l) == 0)
}

/// The prefix `(a, la)` holds the prefix `(b, lb)`.
pub open spec fn v4_covers(a: u32, la: u32, b: u32, lb: u32) -> bool {
    if la > lb {
        false
    } else if la == lb {
        a == b
    } else if la == 0 {
        true
    } else {
        a >> (32 - la) as u32 == b >> (32 - la) as u32
    }
}

/// The address `x` lies in the prefix `(a, l)`.
pub open spec fn v4_has(a: u32, l: u32, x: u32) -> bool {
    l == 0 || x >> (32 - l) as u32 == a >> (32 - l) as u32
}

/// `(a, l)` and `(b, l)` differ in exactly the last fixed bit.
pub open spec fn v4_siblings(a: u32, la: u32, b: u32, lb: u32) -> bool {
    la == lb && la != 0 && la <= 32 && a ^ b == (1 as u32) << (32 - la) as u32
}

proof fn v4_lemma_covers_has(a: u32, la: u32, b: u32, lb: u32, x: u32)
    by (bit_vector)
    requires
        v4_valid(a, la),
        v4_valid(b, lb),
        v4_covers(a, la, b, lb),
        v4_has(b, lb, x),
    ensures
        v4_has(a, la, x),
{
}

proof fn v4_lemma_covers_trans(a: u32, la: u32, b: u32, lb: u32, c: u32, lc: u32)
    by (bit_vector)
    requires
        v4_valid(a, la),
        v4_valid(b, lb),
        v4_valid(c, lc),
        v4_covers(a, la, b, lb),
        v4_covers(b, lb, c, lc),
    ensures
        v4_covers(a, la, c, lc),
{
}

proof fn v4_lemma_siblings_sym(a: u32, la: u32, b: u32, lb: u32)
    by (bit_vector)
    requires
        v4_siblings(a, la, b, lb),
    ensures
        v4_siblings(b, lb, a, la),
{
}

proof fn v4_lemma_merge(a: u32, b: u32, l: u32, x: u32)
    by (bit_vector)
    requires
        v4_valid(a, l),
        v4_valid(b, l),
        v4_siblings(a, l, b, l),
        a < b,
    ensures
        v4_valid(a, (l - 1) as u32),
        v4_covers(a, (l - 1) as u32, a, l),
        v4_covers(a, (l - 1) as u32, b, l),
        v4_has(a, (l - 1) as u32, x) <==> v4_has(a, l, x) || v4_has(b, l, x),
{
}

#[verifier::rlimit(100)]
proof fn v4_lemma_covers_order(a: u32, la: u32, b: u32, lb: u32)
    by (bit_vector)
    requires
        v4_valid(a, la),
        v4_valid(b, lb),
        v4_covers(a, la, b, lb),
    ensures
        a < b || (a == b && la <= lb),
{
}

#[verifier::rlimit(100)]
proof fn v4_lemma_covers_between(a: u32, la: u32, b: u32, lb: u32, c: u32, lc: u32)
    by (bit_vector)
    requires
        v4_valid(a, la),
        v4_valid(b, lb),
        v4_valid(c, lc),
        v4_covers(a, la, c, lc),
        a < b || (a == b && la <= lb),
        b < c || (b == c && lb <= lc),
    ensures
        v4_covers(a, la, b, lb),
{
}

impl Ipv4Net {
    /// Host bits are zero and the length fits the address.
    pub open spec fn spec_valid(self) -> bool {
        v4_valid(self.address, self.prefix_len as u32)
    }

    /// Every address of `o` is an address of `self`.
    pub open spec fn covers(self, o: Ipv4Net) -> bool {
        v4_covers(self.address, self.prefix_len as u32, o.address, o.prefix_len as u32)
    }

    /// The address `x` lies in this prefix.
    pub open spec fn has_addr(self, x: u32) -> bool {
        v4_has(self.address, self.prefix_len as u32, x)
    }

    /// The two prefixes have the same length and differ in the last fixed bit.
    pub open spec fn is_sibling(self, o: Ipv4Net) -> bool {
        v4_siblings(self.address, self.prefix_len as u32, o.address, o.prefix_len as u32)
    }

    /// Order by address, then by prefix length.
    pub open spec fn precedes(self, o: Ipv4Net) -> bool {
        self.address < o.address || (self.address == o.address && self.prefix_len < o.prefix_len)
    }

    pub fn is_valid(&self) -> (r: bool)
        ensures
            r == self.spec_valid(),
    {
        let pfx = self.prefix_len;
        if pfx > 32 {
            return false;
        }
        if pfx == 32 {
            return true;
        }
        self.address & (u32::MAX >> pfx as u32) == 0
    }

    pub fn contains(&self, other: &Ipv4Net) -> (r: bool)
        requires
            self.prefix_len <= 32,
        ensures
            r == self.covers(*other),
    {
        if self.prefix_len > other.prefix_len {
            return false;
        }
        if self.prefix_len == other.prefix_len {
            return self.address == other.address;
        }
        if self.prefix_len == 0 {
            return true;
        }
        let shift = (32 - self.prefix_len) as u32;
        self.address >> shift == other.address >> shift
    }

    fn siblings(a: Ipv4Net, b: Ipv4Net) -> (r: bool)
        ensures
            r == a.is_sibling(b),
    {
        let pfx = a.prefix_len;
        if b.prefix_len != pfx || pfx == 0 || pfx > 32 {
            return false;
        }
        a.address ^ b.address == (1 as u32) << (32 - pfx) as u32
    }

    fn less(&self, o: &Ipv4Net) -> (r: bool)
        ensures
            r == self.precedes(*o),
    {
        self.address < o.address || (self.address == o.address && self.prefix_len < o.prefix_len)
    }
}


/// Valid, strictly sorted, and free of prefixes that hold one another or are siblings.
pub open spec fn v4_canonical(s: Seq<Ipv4Net>) -> bool {
    &&& forall|i: int| 0 <= i < s.len() ==> (#[trigger] s[i]).spec_valid()
    &&& forall|i: int, j: int|
        0 <= i < j < s.len() ==> (#[trigger] s[i]).precedes(#[trigger] s[j])
    &&& forall|a: Ipv4Net, b: Ipv4Net|
        #[trigger] s.contains(a) && #[trigger] s.contains(b) && a != b ==> !a.covers(b)
            && !a.is_sibling(b)
}

/// Some prefix of `s` holds the address `x`.
pub open spec fn v4_seq_has(s: Seq<Ipv4Net>, x: u32) -> bool {
    exists|n: Ipv4Net| #[trigger] s.contains(n) && n.has_addr(x)
}

/// The elements of `v` that `net` does not hold, in their order.
fn v4_without_covered(v: &Vec<Ipv4Net>, net: Ipv4Net) -> (r: Vec<Ipv4Net>)
    requires
        v4_canonical(v@),
        net.spec_valid(),
    ensures
        v4_canonical(r@),
        forall|e: Ipv4Net|
            #![trigger r@.contains(e)]
            #![trigger v@.contains(e)]
            r@.contains(e) <==> (v@.contains(e) && !net.covers(e)),
{
    let mut r: Vec<Ipv4Net> = Vec::new();
    let ghost mut idx: Seq<int> = Seq::empty();
    let mut i: usize = 0;
    while i < v.len()
        invariant
            i <= v.len(),
            v4_canonical(v@),
            net.spec_valid(),
            idx.len() == r.len(),
            forall|k: int| 0 <= k < r.len() ==> 0 <= #[trigger] idx[k] < i && v@[idx[k]] == r@[k],
            forall|a: int, b: int| 0 <= a < b < r.len() ==> #[trigger] idx[a] < #[trigger] idx[b],
            forall|k: int| 0 <= k < r.len() ==> !net.covers(#[trigger] r@[k]),
            forall|j: int| 0 <= j < i && !net.covers(#[trigger] v@[j]) ==> r@.contains(v@[j]),
        decreases v.len() - i,
    {
        let e = v[i];
        if !net.contains(&e) {
            let ghost r0 = r@;
            r.push(e);
            proof {
                idx = idx.push(i as int);
                assert forall|j: int| 0 <= j < i && !net.covers(#[trigger] v@[j]) implies r@.contains(v@[j]) by {
                    assert(r0.contains(v@[j]));
                    let k = choose|k: int| 0 <= k < r0.len() && r0[k] == v@[j];
                    assert(r@[k] == v@[j]);
                }
                assert(r@[r0.len() as int] == v@[i as int]);
            }
        }
        i += 1;
    }
    proof {
        assert forall|a: int, b: int| 0 <= a < b < r@.len() implies (#[trigger] r@[a]).precedes(
            #[trigger] r@[b],
        ) by {
            assert(v@[idx[a]].precedes(v@[idx[b]]));
        }
        assert forall|k: int| 0 <= k < r@.len() implies (#[trigger] r@[k]).spec_valid() by {
            assert(v@[idx[k]].spec_valid());
        }
        assert forall|e: Ipv4Net| r@.contains(e) <==> (v@.contains(e) && !net.covers(e)) by {
            if r@.contains(e) {
                let k = choose|k: int| 0 <= k < r@.len() && r@[k] == e;
                assert(v@[idx[k]] == e);
            }
            if v@.contains(e) && !net.covers(e) {
                let j = choose|j: int| 0 <= j < v@.len() && v@[j] == e;
                assert(r@.contains(v@[j]));
            }
        }
    }
    r
}

/// Index of an element of `v` that is a sibling of `net`, if there is one.
fn v4_find_sibling(v: &Vec<Ipv4Net>, net: Ipv4Net) -> (r: Option<usize>)
    ensures
        match r {
            Some(k) => k < v.len() && net.is_sibling(v@[k as int]),
            None => forall|e: Ipv4Net| v@.contains(e) ==> !net.is_sibling(e),
        },
{
    let mut i: usize = 0;
    while i < v.len()
        invariant
            i <= v.len(),
            forall|k: int| 0 <= k < i ==> !net.is_sibling(#[trigger] v@[k]),
        decreases v.len() - i,
    {
        if Ipv4Net::siblings(net, v[i]) {
            return Some(i);
        }
        i += 1;
    }
    None
}

/// Puts `net` into `v` at its place in the order.
fn v4_insert_sorted(v: &mut Vec<Ipv4Net>, net: Ipv4Net)
    requires
        v4_canonical(old(v)@),
        net.spec_valid(),
        forall|e: Ipv4Net|
            #[trigger] old(v)@.contains(e) ==> !e.covers(net) && !net.covers(e) && !e.is_sibling(
                net,
            ) && !net.is_sibling(e),
    ensures
        v4_canonical(final(v)@),
        forall|e: Ipv4Net|
            #![trigger final(v)@.contains(e)]
            #![trigger old(v)@.contains(e)]
            final(v)@.contains(e) <==> (old(v)@.contains(e) || e == net),
{
    let mut pos: usize = 0;
    while pos < v.len() && !net.less(&v[pos])
        invariant
            pos <= v.len(),
            forall|k: int| 0 <= k < pos ==> (#[trigger] v@[k]).precedes(net),
            v4_canonical(v@),
            forall|e: Ipv4Net| #[trigger] v@.contains(e) ==> !net.covers(e),
        decreases v.len() - pos,
    {
        proof {
            assert(v@.contains(v@[pos as int]));
        }
        pos += 1;
    }
    let ghost s0 = v@;
    v.insert(pos, net);
    proof {
        let s = v@;
        assert(s =~= s0.insert(pos as int, net));
        assert forall|i: int, j: int| 0 <= i < j < s.len() implies (#[trigger] s[i]).precedes(
            #[trigger] s[j],
        ) by {
            if j < pos {
                assert(s0[i].precedes(s0[j]));
            } else if j == pos {
            } else if i < pos {
                assert(s0[i].precedes(net));
                if j - 1 > pos {
                    assert(s0[pos as int].precedes(s0[j - 1]));
                }
            } else if i == pos {
                if j - 1 > pos {
                    assert(s0[pos as int].precedes(s0[j - 1]));
                }
            } else {
                assert(s0[i - 1].precedes(s0[j - 1]));
            }
        }
        assert forall|e: Ipv4Net| s.contains(e) <==> (s0.contains(e) || e == net) by {
            if s.contains(e) {
                let k = choose|k: int| 0 <= k < s.len() && s[k] == e;
                if k < pos {
                    assert(s0[k] == e);
                } else if k > pos {
                    assert(s0[k - 1] == e);
                }
            }
            if s0.contains(e) {
                let k = choose|k: int| 0 <= k < s0.len() && s0[k] == e;
                if k < pos {
                    assert(s[k] == e);
                } else {
                    assert(s[k + 1] == e);
                }
            }
            if e == net {
                assert(s[pos as int] == e);
            }
        }
        assert forall|k: int| 0 <= k < s.len() implies (#[trigger] s[k]).spec_valid() by {
            assert(s.contains(s[k]));
            if s0.contains(s[k]) {
                let j = choose|j: int| 0 <= j < s0.len() && s0[j] == s[k];
            }
        }
    }
}

/// A set of IPv4 prefixes, kept sorted and in canonical form: no element
/// holds another, and no two elements are siblings.
#[derive(Clone, Debug, PartialEq, Eq, Hash)]
pub struct Ipv4Set {
    nets: Vec<Ipv4Net>,
}

impl View for Ipv4Set {
    type V = Seq<Ipv4Net>;

    closed spec fn view(&self) -> Seq<Ipv4Net> {
        self.nets@
    }
}

impl Default for Ipv4Set {
    fn default() -> (r: Self)
        ensures
            r@ == Seq::<Ipv4Net>::empty(),
    {
        Ipv4Set::new()
    }
}

impl Ipv4Set {
    /// The set is in canonical form.
    pub open spec fn wf(&self) -> bool {
        v4_canonical(self@)
    }

    /// Some element holds the address `x`.
    pub open spec fn has_addr(&self, x: u32) -> bool {
        v4_seq_has(self@, x)
    }

    pub fn new() -> (r: Self)
        ensures
            r@ == Seq::<Ipv4Net>::empty(),
            r.wf(),
    {
        Ipv4Set { nets: Vec::new() }
    }

    /// The elements, in increasing order.
    pub fn iter(&self) -> (r: &[Ipv4Net])
        ensures
            r@ == self@,
    {
        self.nets.as_slice()
    }

    /// Some element holds `net`: the greatest element not above `net`, found
    /// by binary search, holds it.
    pub fn contains(&self, net: &Ipv4Net) -> (r: bool)
        requires
            self.wf(),
            net.spec_valid(),
        ensures
            r == v4_holds(self@, *net),
    {
        let mut lo: usize = 0;
        let mut hi: usize = self.nets.len();
        while lo < hi
            invariant
                0 <= lo <= hi <= self@.len(),
                self.wf(),
                forall|k: int| 0 <= k < lo ==> !net.precedes(#[trigger] self@[k]),
                forall|k: int| hi <= k < self@.len() ==> net.precedes(#[trigger] self@[k]),
            decreases hi - lo,
        {
            let mid = lo + (hi - lo) / 2;
            if net.less(&self.nets[mid]) {
                proof {
                    assert forall|k: int| mid <= k < self@.len() implies net.precedes(#[trigger] self@[k]) by {
                        if k > mid {
                            assert(self@[mid as int].precedes(self@[k]));
                        }
                    }
                }
                hi = mid;
            } else {
                proof {
                    assert forall|k: int| 0 <= k < mid + 1 implies !net.precedes(#[trigger] self@[k]) by {
                        if k < mid {
                            assert(self@[k].precedes(self@[mid as int]));
                        }
                    }
                }
                lo = mid + 1;
            }
        }
        if lo == 0 {
            proof {
                if v4_holds(self@, *net) {
                    let k = choose|k: int| 0 <= k < self@.len() && (#[trigger] self@[k]).covers(*net);
                    let e = self@[k];
                    v4_lemma_covers_order(e.address, e.prefix_len as u32, net.address, net.prefix_len as u32);
                }
            }
            return false;
        }
        let g = lo - 1;
        let r = self.nets[g].contains(net);
        proof {
            if v4_holds(self@, *net) && !r {
                let k = choose|k: int| 0 <= k < self@.len() && (#[trigger] self@[k]).covers(*net);
                let e = self@[k];
                let f = self@[g as int];
                v4_lemma_covers_order(e.address, e.prefix_len as u32, net.address, net.prefix_len as u32);
                assert(k <= g);
                if k < g {
                    assert(e.precedes(f));
                    v4_lemma_covers_between(
                        e.address,
                        e.prefix_len as u32,
                        f.address,
                        f.prefix_len as u32,
                        net.address,
                        net.prefix_len as u32,
                    );
                    assert(self@.contains(e) && self@.contains(f));
                }
            }
        }
        r
    }

    /// The canonical set that holds exactly the addresses of `nets`.
    pub fn from_vec(nets: Vec<Ipv4Net>) -> (r: Self)
        requires
            forall|i: int| 0 <= i < nets.len() ==> (#[trigger] nets@[i]).spec_valid(),
        ensures
            r.wf(),
            forall|x: u32|
                r.has_addr(x) <==> exists|i: int|
                    0 <= i < nets.len() && (#[trigger] nets@[i]).has_addr(x),
    {
        let mut r = Ipv4Set::new();
        let mut i: usize = 0;
        while i < nets.len()
            invariant
                i <= nets.len(),
                r.wf(),
                forall|k: int| 0 <= k < nets.len() ==> (#[trigger] nets@[k]).spec_valid(),
                forall|x: u32|
                    r.has_addr(x) <==> exists|k: int|
                        0 <= k < i && (#[trigger] nets@[k]).has_addr(x),
            decreases nets.len() - i,
        {
            let ghost r0 = r;
            r.insert(nets[i]);
            proof {
                assert forall|x: u32| r.has_addr(x) <==> exists|k: int|
                    0 <= k < i + 1 && (#[trigger] nets@[k]).has_addr(x) by {
                    assert(r.has_addr(x) <==> (r0.has_addr(x) || nets@[i as int].has_addr(x)));
                    assert(r0.has_addr(x) <==> exists|k: int| 0 <= k < i && (#[trigger] nets@[k]).has_addr(x));
                    if r.has_addr(x) {
                        if r0.has_addr(x) {
                            let k = choose|k: int| 0 <= k < i && (#[trigger] nets@[k]).has_addr(x);
                            assert(0 <= k < i + 1 && nets@[k].has_addr(x));
                        } else {
                            assert(nets@[i as int].has_addr(x));
                        }
                    }
                    if exists|k: int| 0 <= k < i + 1 && (#[trigger] nets@[k]).has_addr(x) {
                        let k = choose|k: int| 0 <= k < i + 1 && (#[trigger] nets@[k]).has_addr(x);
                        if k < i {
                            assert(r0.has_addr(x));
                        }
                    }
                }
            }
            i += 1;
        }
        r
    }

    /// Adds `net`, absorbing the elements it holds and joining siblings.
    pub fn insert(&mut self, net: Ipv4Net)
        requires
            old(self).wf(),
            net.spec_valid(),
        ensures
            final(self).wf(),
            forall|x: u32|
                #![trigger final(self).has_addr(x)]
                final(self).has_addr(x) <==> (old(self).has_addr(x) || net.has_addr(x)),
            (forall|i: int| 0 <= i < old(self)@.len() ==> net.covers(#[trigger] old(self)@[i]))
                ==> final(self)@ == seq![net],
    {
        let ghost s0 = self@;
        let ghost all_held = forall|i: int| 0 <= i < s0.len() ==> net.covers(#[trigger] s0[i]);
        let mut i: usize = 0;
        while i < self.nets.len()
            invariant
                i <= self.nets@.len(),
                self@ == s0,
                self.wf(),
                net.spec_valid(),
                all_held == (forall|i: int| 0 <= i < s0.len() ==> net.covers(#[trigger] s0[i])),
                forall|k: int| 0 <= k < i ==> !(#[trigger] self@[k]).covers(net),
            decreases self.nets@.len() - i,
        {
            if self.nets[i].contains(&net) {
                proof {
                    let e = s0[i as int];
                    assert(s0.contains(e));
                    assert forall|x: u32| net.has_addr(x) implies self.has_addr(x) by {
                        v4_lemma_covers_has(
                            e.address,
                            e.prefix_len as u32,
                            net.address,
                            net.prefix_len as u32,
                            x,
                        );
                    }
                    if all_held {
                        assert(net.covers(e));
                        assert(e == net);
                        assert forall|k: int| 0 <= k < s0.len() implies #[trigger] s0[k] == e by {
                            assert(s0.contains(s0[k]));
                            assert(net.covers(s0[k]));
                        }
                        if s0.len() > 1 {
                            let k: int = if i == 0 { 1 } else { 0 };
                            assert(s0[k] == e);
                            if k < i {
                                assert(s0[k].precedes(s0[i as int]));
                            } else {
                                assert(s0[i as int].precedes(s0[k]));
                            }
                        }
                        assert(s0 =~= seq![net]);
                    }
                }
                return;
            }
            i += 1;
        }
        let mut cur = net;
        let mut nets = v4_without_covered(&self.nets, cur);
        proof {
            if all_held {
                if nets@.len() > 0 {
                    assert(nets@.contains(nets@[0]));
                }
            }
            assert forall|e: Ipv4Net| nets@.contains(e) implies !e.covers(cur) by {
                if nets@.contains(e) {
                    let k = choose|k: int| 0 <= k < s0.len() && s0[k] == e;
                }
            }
            assert forall|x: u32| v4_seq_has(nets@, x) || cur.has_addr(x) <==> v4_seq_has(
                s0,
                x,
            ) || net.has_addr(x) by {
                if v4_seq_has(s0, x) && !net.has_addr(x) {
                    let n = choose|n: Ipv4Net| #[trigger] s0.contains(n) && n.has_addr(x);
                    if net.covers(n) {
                        v4_lemma_covers_has(
                            net.address,
                            net.prefix_len as u32,
                            n.address,
                            n.prefix_len as u32,
                            x,
                        );
                    }
                    assert(nets@.contains(n));
                }
            }
        }
        let mut done = false;
        while !done
            invariant
                v4_canonical(nets@),
                cur.spec_valid(),
                forall|e: Ipv4Net|
                    #[trigger] nets@.contains(e) ==> !e.covers(cur) && !cur.covers(e),
                forall|x: u32|
                    v4_seq_has(nets@, x) || cur.has_addr(x) <==> v4_seq_has(s0, x)
                        || net.has_addr(x),
                all_held ==> nets@.len() == 0 && cur == net,
                net.spec_valid(),
                done ==> forall|e: Ipv4Net| #[trigger] nets@.contains(e) ==> !cur.is_sibling(e),
            decreases cur.prefix_len * 2 + if done {
                0int
            } else {
                1int
            },
        {
            match v4_find_sibling(&nets, cur) {
                None => {
                    done = true;
                },
                Some(k) => {
                    let ghost n0 = nets@;
                    let sib = nets.remove(k);
                    let lo = if cur.address < sib.address {
                        cur
                    } else {
                        sib
                    };
                    let hi = if cur.address < sib.address {
                        sib
                    } else {
                        cur
                    };
                    let parent = Ipv4Net { address: lo.address, prefix_len: cur.prefix_len - 1 };
                    proof {
                        assert(n0.contains(sib));
                        if cur.address >= sib.address {
                            v4_lemma_siblings_sym(
                                cur.address,
                                cur.prefix_len as u32,
                                sib.address,
                                sib.prefix_len as u32,
                            );
                        }
                        assert forall|x: u32|
                            parent.has_addr(x) <==> cur.has_addr(x) || sib.has_addr(x) by {
                            v4_lemma_merge(lo.address, hi.address, lo.prefix_len as u32, x);
                        }
                        v4_lemma_merge(lo.address, hi.address, lo.prefix_len as u32, 0);
                        assert forall|e: Ipv4Net| #[trigger] nets@.contains(e) implies n0.contains(e)
                            && e != sib by {
                            let j = choose|j: int| 0 <= j < nets@.len() && nets@[j] == e;
                            if j < k {
                                assert(n0[j] == e);
                                assert(n0[j].precedes(n0[k as int]));
                            } else {
                                assert(n0[j + 1] == e);
                                assert(n0[k as int].precedes(n0[j + 1]));
                            }
                        }
                        assert forall|e: Ipv4Net| #[trigger] n0.contains(e) && e != sib implies nets@.contains(e) by {
                            let j = choose|j: int| 0 <= j < n0.len() && n0[j] == e;
                            if j < k {
                                assert(nets@[j] == e);
                            } else {
                                assert(j != k);
                                assert(nets@[j - 1] == e);
                            }
                        }
                        assert forall|i: int, j: int| 0 <= i < j < nets@.len() implies (
                        #[trigger] nets@[i]).precedes(#[trigger] nets@[j]) by {
                            let ii = if i < k { i } else { i + 1 };
                            let jj = if j < k { j } else { j + 1 };
                            assert(n0[ii].precedes(n0[jj]));
                        }
                        assert forall|i: int| 0 <= i < nets@.len() implies (
                        #[trigger] nets@[i]).spec_valid() by {
                            let ii = if i < k { i } else { i + 1 };
                            assert(n0[ii] == nets@[i]);
                        }
                        assert forall|e: Ipv4Net| #[trigger] nets@.contains(e) implies !e.covers(
                            parent,
                        ) by {
                            if e.covers(parent) {
                                v4_lemma_covers_trans(
                                    e.address,
                                    e.prefix_len as u32,
                                    parent.address,
                                    parent.prefix_len as u32,
                                    sib.address,
                                    sib.prefix_len as u32,
                                );
                                let j = choose|j: int| 0 <= j < n0.len() && n0[j] == e;
                                assert(n0.contains(e));
                            }
                        }
                        assert forall|x: u32|
                            v4_seq_has(nets@, x) || parent.has_addr(x) <==> v4_seq_has(
                                n0,
                                x,
                            ) || cur.has_addr(x) by {
                            if v4_seq_has(n0, x) {
                                let n = choose|n: Ipv4Net| #[trigger] n0.contains(n) && n.has_addr(x);
                                if n != sib {
                                    assert(nets@.contains(n));
                                }
                            }
                            if v4_seq_has(nets@, x) {
                                let n = choose|n: Ipv4Net| #[trigger] nets@.contains(n) && n.has_addr(
                                    x,
                                );
                                assert(n0.contains(n));
                            }
                        }
                    }
                    let ghost n1 = nets@;
                    cur = parent;
                    nets = v4_without_covered(&nets, cur);
                    proof {
                        assert forall|e: Ipv4Net| #[trigger] nets@.contains(e) implies !e.covers(cur)
                            && !cur.covers(e) by {
                            assert(n1.contains(e));
                        }
                        assert forall|x: u32|
                            v4_seq_has(nets@, x) || cur.has_addr(x) <==> v4_seq_has(n1, x)
                                || cur.has_addr(x) by {
                            if v4_seq_has(n1, x) && !cur.has_addr(x) {
                                let n = choose|n: Ipv4Net| #[trigger] n1.contains(n) && n.has_addr(x);
                                if cur.covers(n) {
                                    v4_lemma_covers_has(
                                        cur.address,
                                        cur.prefix_len as u32,
                                        n.address,
                                        n.prefix_len as u32,
                                        x,
                                    );
                                }
                                assert(nets@.contains(n));
                            }
                            if v4_seq_has(nets@, x) {
                                let n = choose|n: Ipv4Net| #[trigger] nets@.contains(n) && n.has_addr(
                                    x,
                                );
                                assert(n1.contains(n));
                            }
                        }
                    }
                },
            }
        }
        proof {
            assert forall|e: Ipv4Net| #[trigger] nets@.contains(e) implies !e.is_sibling(cur) by {
                if e.is_sibling(cur) {
                    v4_lemma_siblings_sym(
                        e.address,
                        e.prefix_len as u32,
                        cur.address,
                        cur.prefix_len as u32,
                    );
                }
            }
        }
        let ghost n2 = nets@;
        v4_insert_sorted(&mut nets, cur);
        self.nets = nets;
        proof {
            assert forall|x: u32| self.has_addr(x) <==> v4_seq_has(n2, x) || cur.has_addr(x) by {
                if self.has_addr(x) {
                    let n = choose|n: Ipv4Net| #[trigger] self@.contains(n) && n.has_addr(x);
                    if n != cur {
                        assert(n2.contains(n));
                    }
                }
                if v4_seq_has(n2, x) {
                    let n = choose|n: Ipv4Net| #[trigger] n2.contains(n) && n.has_addr(x);
                    assert(self@.contains(n));
                }
                if cur.has_addr(x) {
                    assert(self@.contains(cur));
                }
            }
            if all_held {
                assert(self@.contains(cur));
                let j = choose|j: int| 0 <= j < self@.len() && self@[j] == cur;
                assert forall|k: int| 0 <= k < self@.len() implies #[trigger] self@[k] == self@[j] by {
                    assert(self@.contains(self@[k]));
                    if k != j {
                        assert(self@[k] != self@[j] && !n2.contains(self@[k]));
                    }
                }
                if self@.len() > 1 {
                    let k: int = if j == 0 { 1 } else { 0 };
                    assert(self@[k] == self@[j]);
                    if k < j {
                        assert(self@[k].precedes(self@[j]));
                    } else {
                        assert(self@[j].precedes(self@[k]));
                    }
                }
                assert(self@ =~= seq![net]);
            }
        }
    }
}

/// Some element of `s` holds `n`.
pub open spec fn v4_holds(s: Seq<Ipv4Net>, n: Ipv4Net) -> bool {
    exists|j: int| 0 <= j < s.len() && (#[trigger] s[j]).covers(n)
}

/// Every element of a set is held by the set.
pub proof fn v4_lemma_members_contained(s: Seq<Ipv4Net>)
    ensures
        forall|i: int| 0 <= i < s.len() ==> v4_holds(s, #[trigger] s[i]),
{
    assert forall|i: int| 0 <= i < s.len() implies v4_holds(s, #[trigger] s[i]) by {
        assert(s[i].covers(s[i]));
    }
}

proof fn v4_lemma_zero_valid(a: u32)
    by (bit_vector)
    requires
        a & (u32::MAX >> 0) == 0,
    ensures
        a == 0,
{
}

/// The default route holds every valid prefix, so inserting it into any set
/// leaves it alone in the set.
pub proof fn v4_lemma_default_route_holds_all(n: Ipv4Net)
    requires
        n.spec_valid(),
    ensures
        (Ipv4Net { address: 0, prefix_len: 0 }).covers(n),
{
    if n.prefix_len == 0 {
        v4_lemma_zero_valid(n.address);
    }
}

/// What `parse` gives for the text `s`.
pub open spec fn ipv4_net_reading(s: Seq<char>) -> Option<Ipv4Net> {
    let i = choose|i: int| 0 <= i < s.len() && s[i] == '/' && !s.take(i).contains('/');
    if exists|i: int| 0 <= i < s.len() && s[i] == '/' && !s.take(i).contains('/') {
        match (ipv4_reading(s.take(i)), u8_reading(s.skip(i + 1))) {
            (Some(a), Some(l)) => if (Ipv4Net { address: a, prefix_len: l }).spec_valid() {
                Some(Ipv4Net { address: a, prefix_len: l })
            } else {
                None
            },
            _ => None,
        }
    } else {
        None
    }
}

impl Ipv4Net {
    /// Reads `address/len`; the host bits must be zero.
    pub fn parse(s: &str) -> (r: Result<Ipv4Net, NetParseError>)
        ensures
            r matches Ok(n) ==> ipv4_net_reading(s@) == Some(n),
            r is Err ==> ipv4_net_reading(s@) is None,
    {
        let (addr, pfx) = match pfx_split(s) {
            Ok(v) => v,
            Err(e) => {
                return Err(e);
            },
        };
        proof {
            let i = addr@.len() as int;
            assert(s@.take(i) == addr@);
            let j = choose|j: int| 0 <= j < s@.len() && s@[j] == '/' && !s@.take(j).contains('/');
            if j < i {
                assert(addr@[j] == '/');
            }
            if j > i {
                assert(s@.take(j)[i] == '/');
            }
        }
        let address = match parse_ipv4_addr(addr) {
            Some(a) => a,
            None => {
                return Err(NetParseError);
            },
        };
        let r = Ipv4Net { address, prefix_len: pfx };
        if !r.is_valid() {
            return Err(NetParseError);
        }
        Ok(r)
    }

    /// The text `address/len`.
    pub fn to_text(&self) -> (r: String)
        ensures
            r@ == ipv4_text(self.address) + seq!['/'] + decimal_text(self.prefix_len as nat),
    {
        let mut r = ipv4_addr_text(self.address);
        r.append("/");
        let l = u8_text(self.prefix_len);
        r.append(l.as_str());
        proof {
            reveal_strlit("/");
        }
        r
    }
}

impl std::str::FromStr for Ipv4Net {
    type Err = NetParseError;

    fn from_str(s: &str) -> Result<Ipv4Net, NetParseError> {
        Ipv4Net::parse(s)
    }
}

/// An IPv6 prefix: an address and the number of leading bits that are fixed.
#[derive(Clone, Copy, PartialEq, Eq, PartialOrd, Ord, Hash, Debug, Structural)]
pub struct Ipv6Net {
    pub address: u128,
    pub prefix_len: u8,
}

/// Host bits of `a` below a prefix of length `l` are all zero.
pub open spec fn v6_valid(a: u128, l: u128) -> bool {
    l <= 128 && (l == 128 || a & (u128::MAX >> l) == 0)
}

/// The prefix `(a, la)` holds the prefix `(b, lb)`.
pub open spec fn v6_covers(a: u128, la: u128, b: u128, lb: u128) -> bool {
    if la > lb {
        false
    } else if la == lb {
        a == b
    } else if la == 0 {
        true
    } else {
        a >> (128 - la) as u128 == b >> (128 - la) as u128
    }
}

/// The address `x` lies in the prefix `(a, l)`.
pub open spec fn v6_has(a: u128, l: u128, x: u128) -> bool {
    l == 0 || x >> (128 - l) as u128 == a >> (128 - l) as u128
}

/// `(a, l)` and `(b, l)` differ in exactly the last fixed bit.
pub open spec fn v6_siblings(a: u128, la: u128, b: u128, lb: u128) -> bool {
    la == lb && la != 0 && la <= 128 && a ^ b == (1 as u128) << (128 - la) as u128
}

proof fn v6_lemma_shr_shr(x: u128, s1: u128, s2: u128)
    requires
        s2 <= s1 < 128,
    ensures
        (x >> s2) >> (s1 - s2) as u128 == x >> s1,
{
    let d = (s1 - s2) as u128;
    lemma_u128_shr_is_div(x, s2);
    lemma_u128_shr_is_div(x >> s2, d);
    lemma_u128_shr_is_div(x, s1);
    lemma_pow2_pos(s2 as nat);
    lemma_pow2_pos(d as nat);
    lemma_pow2_adds(s2 as nat, d as nat);
    lemma_div_denominator(x as int, pow2(s2 as nat) as int, pow2(d as nat) as int);
}

#[verifier::rlimit(100)]
proof fn v6_lemma_low_bit_clear(a: u128, b: u128, s: u128)
    by (bit_vector)
    requires
        s < 128,
        a ^ b == (1 as u128) << s,
        a < b,
    ensures
        a & ((1 as u128) << s) == 0,
{
}

#[verifier::rlimit(100)]
proof fn v6_lemma_parent_valid(a: u128, b: u128, l: u128)
    by (bit_vector)
    requires
        1 <= l <= 128,
        l == 128 || a & (u128::MAX >> l) == 0,
        a ^ b == (1 as u128) << (128 - l) as u128,
        a < b,
    ensures
        a & (u128::MAX >> (l - 1) as u128) == 0,
{
}

#[verifier::rlimit(100)]
proof fn v6_lemma_parent_shr(a: u128, b: u128, s: u128)
    by (bit_vector)
    requires
        s < 128,
        a ^ b == (1 as u128) << s,
        a & ((1 as u128) << s) == 0,
    ensures
        a >> (s + 1) as u128 == b >> (s + 1) as u128,
{
}

#[verifier::rlimit(100)]
proof fn v6_lemma_halves(a: u128, b: u128, s: u128, x: u128)
    by (bit_vector)
    requires
        s < 127,
        a ^ b == (1 as u128) << s,
    ensures
        (x >> (s + 1) as u128 == a >> (s + 1) as u128) <==> (x >> s == a >> s || x >> s == b
            >> s),
{
}

#[verifier::rlimit(100)]
proof fn v6_lemma_top_halves(a: u128, b: u128, x: u128)
    by (bit_vector)
    requires
        a ^ b == (1 as u128) << 127u128,
    ensures
        x >> 127u128 == a >> 127u128 || x >> 127u128 == b >> 127u128,
{
}

proof fn v6_lemma_covers_has(a: u128, la: u128, b: u128, lb: u128, x: u128)
    requires
        v6_valid(a, la),
        v6_valid(b, lb),
        v6_covers(a, la, b, lb),
        v6_has(b, lb, x),
    ensures
        v6_has(a, la, x),
{
    if la != 0 && la != lb {
        v6_lemma_shr_shr(x, (128 - la) as u128, (128 - lb) as u128);
        v6_lemma_shr_shr(b, (128 - la) as u128, (128 - lb) as u128);
    }
}

proof fn v6_lemma_covers_trans(a: u128, la: u128, b: u128, lb: u128, c: u128, lc: u128)
    requires
        v6_valid(a, la),
        v6_valid(b, lb),
        v6_valid(c, lc),
        v6_covers(a, la, b, lb),
        v6_covers(b, lb, c, lc),
    ensures
        v6_covers(a, la, c, lc),
{
    if la != 0 && la != lb && lb != lc {
        v6_lemma_shr_shr(c, (128 - la) as u128, (128 - lb) as u128);
        v6_lemma_shr_shr(b, (128 - la) as u128, (128 - lb) as u128);
    }
}

#[verifier::rlimit(100)]
proof fn v6_lemma_siblings_sym(a: u128, la: u128, b: u128, lb: u128)
    by (bit_vector)
    requires
        v6_siblings(a, la, b, lb),
    ensures
        v6_siblings(b, lb, a, la),
{
}

proof fn v6_lemma_merge(a: u128, b: u128, l: u128, x: u128)
    requires
        v6_valid(a, l),
        v6_valid(b, l),
        v6_siblings(a, l, b, l),
        a < b,
    ensures
        v6_valid(a, (l - 1) as u128),
        v6_covers(a, (l - 1) as u128, a, l),
        v6_covers(a, (l - 1) as u128, b, l),
        v6_has(a, (l - 1) as u128, x) <==> v6_has(a, l, x) || v6_has(b, l, x),
{
    let s = (128 - l) as u128;
    v6_lemma_parent_valid(a, b, l);
    v6_lemma_low_bit_clear(a, b, s);
    v6_lemma_parent_shr(a, b, s);
    if l == 1 {
        v6_lemma_top_halves(a, b, x);
    } else {
        v6_lemma_halves(a, b, s, x);
    }
}

#[verifier::rlimit(100)]
proof fn v6_lemma_covers_order(a: u128, la: u128, b: u128, lb: u128)
    by (bit_vector)
    requires
        v6_valid(a, la),
        v6_valid(b, lb),
        v6_covers(a, la, b, lb),
    ensures
        a < b || (a == b && la <= lb),
{
}

#[verifier::rlimit(100)]
proof fn v6_lemma_covers_between(a: u128, la: u128, b: u128, lb: u128, c: u128, lc: u128)
    by (bit_vector)
    requires
        v6_valid(a, la),
        v6_valid(b, lb),
        v6_valid(c, lc),
        v6_covers(a, la, c, lc),
        a < b || (a == b && la <= lb),
        b < c || (b == c && lb <= lc),
    ensures
        v6_covers(a, la, b, lb),
{
}

impl Ipv6Net {
    /// Host bits are zero and the length fits the address.
    pub open spec fn spec_valid(self) -> bool {
        v6_valid(self.address, self.prefix_len as u128)
    }

    /// Every address of `o` is an address of `self`.
    pub open spec fn covers(self, o: Ipv6Net) -> bool {
        v6_covers(self.address, self.prefix_len as u128, o.address, o.prefix_len as u128)
    }

    /// The address `x` lies in this prefix.
    pub open spec fn has_addr(self, x: u128) -> bool {
        v6_has(self.address, self.prefix_len as u128, x)
    }

    /// The two prefixes have the same length and differ in the last fixed bit.
    pub open spec fn is_sibling(self, o: Ipv6Net) -> bool {
        v6_siblings(self.address, self.prefix_len as u128, o.address, o.prefix_len as u128)
    }

    /// Order by address, then by prefix length.
    pub open spec fn precedes(self, o: Ipv6Net) -> bool {
        self.address < o.address || (self.address == o.address && self.prefix_len < o.prefix_len)
    }

    pub fn is_valid(&self) -> (r: bool)
        ensures
            r == self.spec_valid(),
    {
        let pfx = self.prefix_len;
        if pfx > 128 {
            return false;
        }
        if pfx == 128 {
            return true;
        }
        self.address & (u128::MAX >> pfx as u128) == 0
    }

    pub fn contains(&self, other: &Ipv6Net) -> (r: bool)
        requires
            self.prefix_len <= 128,
        ensures
            r == self.covers(*other),
    {
        if self.prefix_len > other.prefix_len {
            return false;
        }
        if self.prefix_len == other.prefix_len {
            return self.address == other.address;
        }
        if self.prefix_len == 0 {
            return true;
        }
        let shift = (128 - self.prefix_len) as u128;
        self.address >> shift == other.address >> shift
    }

    fn siblings(a: Ipv6Net, b: Ipv6Net) -> (r: bool)
        ensures
            r == a.is_sibling(b),
    {
        let pfx = a.prefix_len;
        if b.prefix_len != pfx || pfx == 0 || pfx > 128 {
            return false;
        }
        a.address ^ b.address == (1 as u128) << (128 - pfx) as u128
    }

    fn less(&self, o: &Ipv6Net) -> (r: bool)
        ensures
            r == self.precedes(*o),
    {
        self.address < o.address || (self.address == o.address && self.prefix_len < o.prefix_len)
    }
}


/// Valid, strictly sorted, and free of prefixes that hold one another or are siblings.
pub open spec fn v6_canonical(s: Seq<Ipv6Net>) -> bool {
    &&& forall|i: int| 0 <= i < s.len() ==> (#[trigger] s[i]).spec_valid()
    &&& forall|i: int, j: int|
        0 <= i < j < s.len() ==> (#[trigger] s[i]).precedes(#[trigger] s[j])
    &&& forall|a: Ipv6Net, b: Ipv6Net|
        #[trigger] s.contains(a) && #[trigger] s.contains(b) && a != b ==> !a.covers(b)
            && !a.is_sibling(b)
}

/// Some prefix of `s` holds the address `x`.
pub open spec fn v6_seq_has(s: Seq<Ipv6Net>, x: u128) -> bool {
    exists|n: Ipv6Net| #[trigger] s.contains(n) && n.has_addr(x)
}

/// The elements of `v` that `net` does not hold, in their order.
fn v6_without_covered(v: &Vec<Ipv6Net>, net: Ipv6Net) -> (r: Vec<Ipv6Net>)
    requires
        v6_canonical(v@),
        net.spec_valid(),
    ensures
        v6_canonical(r@),
        forall|e: Ipv6Net|
            #![trigger r@.contains(e)]
            #![trigger v@.contains(e)]
            r@.contains(e) <==> (v@.contains(e) && !net.covers(e)),
{
    let mut r: Vec<Ipv6Net> = Vec::new();
    let ghost mut idx: Seq<int> = Seq::empty();
    let mut i: usize = 0;
    while i < v.len()
        invariant
            i <= v.len(),
            v6_canonical(v@),
            net.spec_valid(),
            idx.len() == r.len(),
            forall|k: int| 0 <= k < r.len() ==> 0 <= #[trigger] idx[k] < i && v@[idx[k]] == r@[k],
            forall|a: int, b: int| 0 <= a < b < r.len() ==> #[trigger] idx[a] < #[trigger] idx[b],
            forall|k: int| 0 <= k < r.len() ==> !net.covers(#[trigger] r@[k]),
            forall|j: int| 0 <= j < i && !net.covers(#[trigger] v@[j]) ==> r@.contains(v@[j]),
        decreases v.len() - i,
    {
        let e = v[i];
        if !net.contains(&e) {
            let ghost r0 = r@;
            r.push(e);
            proof {
                idx = idx.push(i as int);
                assert forall|j: int| 0 <= j < i && !net.covers(#[trigger] v@[j]) implies r@.contains(v@[j]) by {
                    assert(r0.contains(v@[j]));
                    let k = choose|k: int| 0 <= k < r0.len() && r0[k] == v@[j];
                    assert(r@[k] == v@[j]);
                }
                assert(r@[r0.len() as int] == v@[i as int]);
            }
        }
        i += 1;
    }
    proof {
        assert forall|a: int, b: int| 0 <= a < b < r@.len() implies (#[trigger] r@[a]).precedes(
            #[trigger] r@[b],
        ) by {
            assert(v@[idx[a]].precedes(v@[idx[b]]));
        }
        assert forall|k: int| 0 <= k < r@.len() implies (#[trigger] r@[k]).spec_valid() by {
            assert(v@[idx[k]].spec_valid());
        }
        assert forall|e: Ipv6Net| r@.contains(e) <==> (v@.contains(e) && !net.covers(e)) by {
            if r@.contains(e) {
                let k = choose|k: int| 0 <= k < r@.len() && r@[k] == e;
                assert(v@[idx[k]] == e);
            }
            if v@.contains(e) && !net.covers(e) {
                let j = choose|j: int| 0 <= j < v@.len() && v@[j] == e;
                assert(r@.contains(v@[j]));
            }
        }
    }
    r
}

/// Index of an element of `v` that is a sibling of `net`, if there is one.
fn v6_find_sibling(v: &Vec<Ipv6Net>, net: Ipv6Net) -> (r: Option<usize>)
    ensures
        match r {
            Some(k) => k < v.len() && net.is_sibling(v@[k as int]),
            None => forall|e: Ipv6Net| v@.contains(e) ==> !net.is_sibling(e),
        },
{
    let mut i: usize = 0;
    while i < v.len()
        invariant
            i <= v.len(),
            forall|k: int| 0 <= k < i ==> !net.is_sibling(#[trigger] v@[k]),
        decreases v.len() - i,
    {
        if Ipv6Net::siblings(net, v[i]) {
            return Some(i);
        }
        i += 1;
    }
    None
}

/// Puts `net` into `v` at its place in the order.
fn v6_insert_sorted(v: &mut Vec<Ipv6Net>, net: Ipv6Net)
    requires
        v6_canonical(old(v)@),
        net.spec_valid(),
        forall|e: Ipv6Net|
            #[trigger] old(v)@.contains(e) ==> !e.covers(net) && !net.covers(e) && !e.is_sibling(
                net,
            ) && !net.is_sibling(e),
    ensures
        v6_canonical(final(v)@),
        forall|e: Ipv6Net|
            #![trigger final(v)@.contains(e)]
            #![trigger old(v)@.contains(e)]
            final(v)@.contains(e) <==> (old(v)@.contains(e) || e == net),
{
    let mut pos: usize = 0;
    while pos < v.len() && !net.less(&v[pos])
        invariant
            pos <= v.len(),
            forall|k: int| 0 <= k < pos ==> (#[trigger] v@[k]).precedes(net),
            v6_canonical(v@),
            forall|e: Ipv6Net| #[trigger] v@.contains(e) ==> !net.covers(e),
        decreases v.len() - pos,
    {
        proof {
            assert(v@.contains(v@[pos as int]));
        }
        pos += 1;
    }
    let ghost s0 = v@;
    v.insert(pos, net);
    proof {
        let s = v@;
        assert(s =~= s0.insert(pos as int, net));
        assert forall|i: int, j: int| 0 <= i < j < s.len() implies (#[trigger] s[i]).precedes(
            #[trigger] s[j],
        ) by {
            if j < pos {
                assert(s0[i].precedes(s0[j]));
            } else if j == pos {
            } else if i < pos {
                assert(s0[i].precedes(net));
                if j - 1 > pos {
                    assert(s0[pos as int].precedes(s0[j - 1]));
                }
            } else if i == pos {
                if j - 1 > pos {
                    assert(s0[pos as int].precedes(s0[j - 1]));
                }
            } else {
                assert(s0[i - 1].precedes(s0[j - 1]));
            }
        }
        assert forall|e: Ipv6Net| s.contains(e) <==> (s0.contains(e) || e == net) by {
            if s.contains(e) {
                let k = choose|k: int| 0 <= k < s.len() && s[k] == e;
                if k < pos {
                    assert(s0[k] == e);
                } else if k > pos {
                    assert(s0[k - 1] == e);
                }
            }
            if s0.contains(e) {
                let k = choose|k: int| 0 <= k < s0.len() && s0[k] == e;
                if k < pos {
                    assert(s[k] == e);
                } else {
                    assert(s[k + 1] == e);
                }
            }
            if e == net {
                assert(s[pos as int] == e);
            }
        }
        assert forall|k: int| 0 <= k < s.len() implies (#[trigger] s[k]).spec_valid() by {
            assert(s.contains(s[k]));
            if s0.contains(s[k]) {
                let j = choose|j: int| 0 <= j < s0.len() && s0[j] == s[k];
            }
        }
    }
}

/// A set of IPv6 prefixes, kept sorted and in canonical form: no element
/// holds another, and no two elements are siblings.
#[derive(Clone, Debug, PartialEq, Eq, Hash)]
pub struct Ipv6Set {
    nets: Vec<Ipv6Net>,
}

impl View for Ipv6Set {
    type V = Seq<Ipv6Net>;

    closed spec fn view(&self) -> Seq<Ipv6Net> {
        self.nets@
    }
}

impl Default for Ipv6Set {
    fn default() -> (r: Self)
        ensures
            r@ == Seq::<Ipv6Net>::empty(),
    {
        Ipv6Set::new()
    }
}

impl Ipv6Set {
    /// The set is in canonical form.
    pub open spec fn wf(&self) -> bool {
        v6_canonical(self@)
    }

    /// Some element holds the address `x`.
    pub open spec fn has_addr(&self, x: u128) -> bool {
        v6_seq_has(self@, x)
    }

    pub fn new() -> (r: Self)
        ensures
            r@ == Seq::<Ipv6Net>::empty(),
            r.wf(),
    {
        Ipv6Set { nets: Vec::new() }
    }

    /// The elements, in increasing order.
    pub fn iter(&self) -> (r: &[Ipv6Net])
        ensures
            r@ == self@,
    {
        self.nets.as_slice()
    }

    /// Some element holds `net`: the greatest element not above `net`, found
    /// by binary search, holds it.
    pub fn contains(&self, net: &Ipv6Net) -> (r: bool)
        requires
            self.wf(),
            net.spec_valid(),
        ensures
            r == v6_holds(self@, *net),
    {
        let mut lo: usize = 0;
        let mut hi: usize = self.nets.len();
        while lo < hi
            invariant
                0 <= lo <= hi <= self@.len(),
                self.wf(),
                forall|k: int| 0 <= k < lo ==> !net.precedes(#[trigger] self@[k]),
                forall|k: int| hi <= k < self@.len() ==> net.precedes(#[trigger] self@[k]),
            decreases hi - lo,
        {
            let mid = lo + (hi - lo) / 2;
            if net.less(&self.nets[mid]) {
                proof {
                    assert forall|k: int| mid <= k < self@.len() implies net.precedes(#[trigger] self@[k]) by {
                        if k > mid {
                            assert(self@[mid as int].precedes(self@[k]));
                        }
                    }
                }
                hi = mid;
            } else {
                proof {
                    assert forall|k: int| 0 <= k < mid + 1 implies !net.precedes(#[trigger] self@[k]) by {
                        if k < mid {
                            assert(self@[k].precedes(self@[mid as int]));
                        }
                    }
                }
                lo = mid + 1;
            }
        }
        if lo == 0 {
            proof {
                if v6_holds(self@, *net) {
                    let k = choose|k: int| 0 <= k < self@.len() && (#[trigger] self@[k]).covers(*net);
                    let e = self@[k];
                    v6_lemma_covers_order(e.address, e.prefix_len as u128, net.address, net.prefix_len as u128);
                }
            }
            return false;
        }
        let g = lo - 1;
        let r = self.nets[g].contains(net);
        proof {
            if v6_holds(self@, *net) && !r {
                let k = choose|k: int| 0 <= k < self@.len() && (#[trigger] self@[k]).covers(*net);
                let e = self@[k];
                let f = self@[g as int];
                v6_lemma_covers_order(e.address, e.prefix_len as u128, net.address, net.prefix_len as u128);
                assert(k <= g);
                if k < g {
                    assert(e.precedes(f));
                    v6_lemma_covers_between(
                        e.address,
                        e.prefix_len as u128,
                        f.address,
                        f.prefix_len as u128,
                        net.address,
                        net.prefix_len as u128,
                    );
                    assert(self@.contains(e) && self@.contains(f));
                }
            }
        }
        r
    }

    /// The canonical set that holds exactly the addresses of `nets`.
    pub fn from_vec(nets: Vec<Ipv6Net>) -> (r: Self)
        requires
            forall|i: int| 0 <= i < nets.len() ==> (#[trigger] nets@[i]).spec_valid(),
        ensures
            r.wf(),
            forall|x: u128|
                r.has_addr(x) <==> exists|i: int|
                    0 <= i < nets.len() && (#[trigger] nets@[i]).has_addr(x),
    {
        let mut r = Ipv6Set::new();
        let mut i: usize = 0;
        while i < nets.len()
            invariant
                i <= nets.len(),
                r.wf(),
                forall|k: int| 0 <= k < nets.len() ==> (#[trigger] nets@[k]).spec_valid(),
                forall|x: u128|
                    r.has_addr(x) <==> exists|k: int|
                        0 <= k < i && (#[trigger] nets@[k]).has_addr(x),
            decreases nets.len() - i,
        {
            let ghost r0 = r;
            r.insert(nets[i]);
            proof {
                assert forall|x: u128| r.has_addr(x) <==> exists|k: int|
                    0 <= k < i + 1 && (#[trigger] nets@[k]).has_addr(x) by {
                    assert(r.has_addr(x) <==> (r0.has_addr(x) || nets@[i as int].has_addr(x)));
                    assert(r0.has_addr(x) <==> exists|k: int| 0 <= k < i && (#[trigger] nets@[k]).has_addr(x));
                    if r.has_addr(x) {
                        if r0.has_addr(x) {
                            let k = choose|k: int| 0 <= k < i && (#[trigger] nets@[k]).has_addr(x);
                            assert(0 <= k < i + 1 && nets@[k].has_addr(x));
                        } else {
                            assert(nets@[i as int].has_addr(x));
                        }
                    }
                    if exists|k: int| 0 <= k < i + 1 && (#[trigger] nets@[k]).has_addr(x) {
                        let k = choose|k: int| 0 <= k < i + 1 && (#[trigger] nets@[k]).has_addr(x);
                        if k < i {
                            assert(r0.has_addr(x));
                        }
                    }
                }
            }
            i += 1;
        }
        r
    }

    /// Adds `net`, absorbing the elements it holds and joining siblings.
    pub fn insert(&mut self, net: Ipv6Net)
        requires
            old(self).wf(),
            net.spec_valid(),
        ensures
            final(self).wf(),
            forall|x: u128|
                #![trigger final(self).has_addr(x)]
                final(self).has_addr(x) <==> (old(self).has_addr(x) || net.has_addr(x)),
            (forall|i: int| 0 <= i < old(self)@.len() ==> net.covers(#[trigger] old(self)@[i]))
                ==> final(self)@ == seq![net],
    {
        let ghost s0 = self@;
        let ghost all_held = forall|i: int| 0 <= i < s0.len() ==> net.covers(#[trigger] s0[i]);
        let mut i: usize = 0;
        while i < self.nets.len()
            invariant
                i <= self.nets@.len(),
                self@ == s0,
                self.wf(),
                net.spec_valid(),
                all_held == (forall|i: int| 0 <= i < s0.len() ==> net.covers(#[trigger] s0[i])),
                forall|k: int| 0 <= k < i ==> !(#[trigger] self@[k]).covers(net),
            decreases self.nets@.len() - i,
        {
            if self.nets[i].contains(&net) {
                proof {
                    let e = s0[i as int];
                    assert(s0.contains(e));
                    assert forall|x: u128| net.has_addr(x) implies self.has_addr(x) by {
                        v6_lemma_covers_has(
                            e.address,
                            e.prefix_len as u128,
                            net.address,
                            net.prefix_len as u128,
                            x,
                        );
                    }
                    if all_held {
                        assert(net.covers(e));
                        assert(e == net);
                        assert forall|k: int| 0 <= k < s0.len() implies #[trigger] s0[k] == e by {
                            assert(s0.contains(s0[k]));
                            assert(net.covers(s0[k]));
                        }
                        if s0.len() > 1 {
                            let k: int = if i == 0 { 1 } else { 0 };
                            assert(s0[k] == e);
                            if k < i {
                                assert(s0[k].precedes(s0[i as int]));
                            } else {
                                assert(s0[i as int].precedes(s0[k]));
                            }
                        }
                        assert(s0 =~= seq![net]);
                    }
                }
                return;
            }
            i += 1;
        }
        let mut cur = net;
        let mut nets = v6_without_covered(&self.nets, cur);
        proof {
            if all_held {
                if nets@.len() > 0 {
                    assert(nets@.contains(nets@[0]));
                }
            }
            assert forall|e: Ipv6Net| nets@.contains(e) implies !e.covers(cur) by {
                if nets@.contains(e) {
                    let k = choose|k: int| 0 <= k < s0.len() && s0[k] == e;
                }
            }
            assert forall|x: u128| v6_seq_has(nets@, x) || cur.has_addr(x) <==> v6_seq_has(
                s0,
                x,
            ) || net.has_addr(x) by {
                if v6_seq_has(s0, x) && !net.has_addr(x) {
                    let n = choose|n: Ipv6Net| #[trigger] s0.contains(n) && n.has_addr(x);
                    if net.covers(n) {
                        v6_lemma_covers_has(
                            net.address,
                            net.prefix_len as u128,
                            n.address,
                            n.prefix_len as u128,
                            x,
                        );
                    }
                    assert(nets@.contains(n));
                }
            }
        }
        let mut done = false;
        while !done
            invariant
                v6_canonical(nets@),
                cur.spec_valid(),
                forall|e: Ipv6Net|
                    #[trigger] nets@.contains(e) ==> !e.covers(cur) && !cur.covers(e),
                forall|x: u128|
                    v6_seq_has(nets@, x) || cur.has_addr(x) <==> v6_seq_has(s0, x)
                        || net.has_addr(x),
                all_held ==> nets@.len() == 0 && cur == net,
                net.spec_valid(),
                done ==> forall|e: Ipv6Net| #[trigger] nets@.contains(e) ==> !cur.is_sibling(e),
            decreases cur.prefix_len * 2 + if done {
                0int
            } else {
                1int
            },
        {
            match v6_find_sibling(&nets, cur) {
                None => {
                    done = true;
                },
                Some(k) => {
                    let ghost n0 = nets@;
                    let sib = nets.remove(k);
                    let lo = if cur.address < sib.address {
                        cur
                    } else {
                        sib
                    };
                    let hi = if cur.address < sib.address {
                        sib
                    } else {
                        cur
                    };
                    let parent = Ipv6Net { address: lo.address, prefix_len: cur.prefix_len - 1 };
                    proof {
                        assert(n0.contains(sib));
                        if cur.address >= sib.address {
                            v6_lemma_siblings_sym(
                                cur.address,
                                cur.prefix_len as u128,
                                sib.address,
                                sib.prefix_len as u128,
                            );
                        }
                        assert forall|x: u128|
                            parent.has_addr(x) <==> cur.has_addr(x) || sib.has_addr(x) by {
                            v6_lemma_merge(lo.address, hi.address, lo.prefix_len as u128, x);
                        }
                        v6_lemma_merge(lo.address, hi.address, lo.prefix_len as u128, 0);
                        assert forall|e: Ipv6Net| #[trigger] nets@.contains(e) implies n0.contains(e)
                            && e != sib by {
                            let j = choose|j: int| 0 <= j < nets@.len() && nets@[j] == e;
                            if j < k {
                                assert(n0[j] == e);
                                assert(n0[j].precedes(n0[k as int]));
                            } else {
                                assert(n0[j + 1] == e);
                                assert(n0[k as int].precedes(n0[j + 1]));
                            }
                        }
                        assert forall|e: Ipv6Net| #[trigger] n0.contains(e) && e != sib implies nets@.contains(e) by {
                            let j = choose|j: int| 0 <= j < n0.len() && n0[j] == e;
                            if j < k {
                                assert(nets@[j] == e);
                            } else {
                                assert(j != k);
                                assert(nets@[j - 1] == e);
                            }
                        }
                        assert forall|i: int, j: int| 0 <= i < j < nets@.len() implies (
                        #[trigger] nets@[i]).precedes(#[trigger] nets@[j]) by {
                            let ii = if i < k { i } else { i + 1 };
                            let jj = if j < k { j } else { j + 1 };
                            assert(n0[ii].precedes(n0[jj]));
                        }
                        assert forall|i: int| 0 <= i < nets@.len() implies (
                        #[trigger] nets@[i]).spec_valid() by {
                            let ii = if i < k { i } else { i + 1 };
                            assert(n0[ii] == nets@[i]);
                        }
                        assert forall|e: Ipv6Net| #[trigger] nets@.contains(e) implies !e.covers(
                            parent,
                        ) by {
                            if e.covers(parent) {
                                v6_lemma_covers_trans(
                                    e.address,
                                    e.prefix_len as u128,
                                    parent.address,
                                    parent.prefix_len as u128,
                                    sib.address,
                                    sib.prefix_len as u128,
                                );
                                let j = choose|j: int| 0 <= j < n0.len() && n0[j] == e;
                                assert(n0.contains(e));
                            }
                        }
                        assert forall|x: u128|
                            v6_seq_has(nets@, x) || parent.has_addr(x) <==> v6_seq_has(
                                n0,
                                x,
                            ) || cur.has_addr(x) by {
                            if v6_seq_has(n0, x) {
                                let n = choose|n: Ipv6Net| #[trigger] n0.contains(n) && n.has_addr(x);
                                if n != sib {
                                    assert(nets@.contains(n));
                                }
                            }
                            if v6_seq_has(nets@, x) {
                                let n = choose|n: Ipv6Net| #[trigger] nets@.contains(n) && n.has_addr(
                                    x,
                                );
                                assert(n0.contains(n));
                            }
                        }
                    }
                    let ghost n1 = nets@;
                    cur = parent;
                    nets = v6_without_covered(&nets, cur);
                    proof {
                        assert forall|e: Ipv6Net| #[trigger] nets@.contains(e) implies !e.covers(cur)
                            && !cur.covers(e) by {
                            assert(n1.contains(e));
                        }
                        assert forall|x: u128|
                            v6_seq_has(nets@, x) || cur.has_addr(x) <==> v6_seq_has(n1, x)
                                || cur.has_addr(x) by {
                            if v6_seq_has(n1, x) && !cur.has_addr(x) {
                                let n = choose|n: Ipv6Net| #[trigger] n1.contains(n) && n.has_addr(x);
                                if cur.covers(n) {
                                    v6_lemma_covers_has(
                                        cur.address,
                                        cur.prefix_len as u128,
                                        n.address,
                                        n.prefix_len as u128,
                                        x,
                                    );
                                }
                                assert(nets@.contains(n));
                            }
                            if v6_seq_has(nets@, x) {
                                let n = choose|n: Ipv6Net| #[trigger] nets@.contains(n) && n.has_addr(
                                    x,
                                );
                                assert(n1.contains(n));
                            }
                        }
                    }
                },
            }
        }
        proof {
            assert forall|e: Ipv6Net| #[trigger] nets@.contains(e) implies !e.is_sibling(cur) by {
                if e.is_sibling(cur) {
                    v6_lemma_siblings_sym(
                        e.address,
                        e.prefix_len as u128,
                        cur.address,
                        cur.prefix_len as u128,
                    );
                }
            }
        }
        let ghost n2 = nets@;
        v6_insert_sorted(&mut nets, cur);
        self.nets = nets;
        proof {
            assert forall|x: u128| self.has_addr(x) <==> v6_seq_has(n2, x) || cur.has_addr(x) by {
                if self.has_addr(x) {
                    let n = choose|n: Ipv6Net| #[trigger] self@.contains(n) && n.has_addr(x);
                    if n != cur {
                        assert(n2.contains(n));
                    }
                }
                if v6_seq_has(n2, x) {
                    let n = choose|n: Ipv6Net| #[trigger] n2.contains(n) && n.has_addr(x);
                    assert(self@.contains(n));
                }
                if cur.has_addr(x) {
                    assert(self@.contains(cur));
                }
            }
            if all_held {
                assert(self@.contains(cur));
                let j = choose|j: int| 0 <= j < self@.len() && self@[j] == cur;
                assert forall|k: int| 0 <= k < self@.len() implies #[trigger] self@[k] == self@[j] by {
                    assert(self@.contains(self@[k]));
                    if k != j {
                        assert(self@[k] != self@[j] && !n2.contains(self@[k]));
                    }
                }
                if self@.len() > 1 {
                    let k: int = if j == 0 { 1 } else { 0 };
                    assert(self@[k] == self@[j]);
                    if k < j {
                        assert(self@[k].precedes(self@[j]));
                    } else {
                        assert(self@[j].precedes(self@[k]));
                    }
                }
                assert(self@ =~= seq![net]);
            }
        }
    }
}

/// Some element of `s` holds `n`.
pub open spec fn v6_holds(s: Seq<Ipv6Net>, n: Ipv6Net) -> bool {
    exists|j: int| 0 <= j < s.len() && (#[trigger] s[j]).covers(n)
}

/// Every element of a set is held by the set.
pub proof fn v6_lemma_members_contained(s: Seq<Ipv6Net>)
    ensures
        forall|i: int| 0 <= i < s.len() ==> v6_holds(s, #[trigger] s[i]),
{
    assert forall|i: int| 0 <= i < s.len() implies v6_holds(s, #[trigger] s[i]) by {
        assert(s[i].covers(s[i]));
    }
}

proof fn v6_lemma_zero_valid(a: u128)
    by (bit_vector)
    requires
        a & (u128::MAX >> 0) == 0,
    ensures
        a == 0,
{
}

/// The default route holds every valid prefix, so inserting it into any set
/// leaves it alone in the set.
pub proof fn v6_lemma_default_route_holds_all(n: Ipv6Net)
    requires
        n.spec_valid(),
    ensures
        (Ipv6Net { address: 0, prefix_len: 0 }).covers(n),
{
    if n.prefix_len == 0 {
        v6_lemma_zero_valid(n.address);
    }
}

/// The sixteen bytes of `v`, most significant first.
pub open spec fn be_bytes_u128(v: u128) -> Seq<u8> {
    be_bytes_u64((v >> 64u128) as u64) + be_bytes_u64(v as u64)
}

/// Writes a 128-bit integer as sixteen big-endian bytes.
pub fn u128_to_be(v: u128) -> (r: [u8; 16])
    ensures
        r@ == be_bytes_u128(v),
{
    let h = u64_to_be((v >> 64u128) as u64);
    let l = u64_to_be(v as u64);
    let r = [h[0], h[1], h[2], h[3], h[4], h[5], h[6], h[7], l[0], l[1], l[2], l[3], l[4], l[5], l[6], l[7]];
    assert(r@ =~= h@ + l@);
    r
}

/// Reads sixteen big-endian bytes.
pub fn u128_from_be(b: [u8; 16]) -> (r: u128)
    ensures
        be_bytes_u128(r) == b@,
{
    let h = u64_from_be([b[0], b[1], b[2], b[3], b[4], b[5], b[6], b[7]]);
    let l = u64_from_be([b[8], b[9], b[10], b[11], b[12], b[13], b[14], b[15]]);
    let r = ((h as u128) << 64u128) | (l as u128);
    assert((r >> 64u128) as u64 == h && r as u64 == l) by (bit_vector)
        requires
            r == ((h as u128) << 64u128) | (l as u128),
    ;
    assert(be_bytes_u128(r) =~= b@);
    r
}

impl Ipv4Net {
    /// The compact form: the address bytes, then the prefix length.
    pub fn to_binary(&self) -> (r: [u8; 5])
        ensures
            r@ == be_bytes_u32(self.address) + seq![self.prefix_len],
    {
        let a = u32_to_be(self.address);
        let r = [a[0], a[1], a[2], a[3], self.prefix_len];
        assert(r@ =~= a@ + seq![self.prefix_len]);
        r
    }

    /// Reads the compact form; the prefix must be valid.
    pub fn from_binary(b: [u8; 5]) -> (r: Result<Ipv4Net, NetParseError>)
        ensures
            match r {
                Ok(n) => be_bytes_u32(n.address) + seq![n.prefix_len] == b@ && n.spec_valid(),
                Err(_) => forall|n: Ipv4Net|
                    be_bytes_u32(n.address) + seq![n.prefix_len] == b@ ==> !n.spec_valid(),
            },
    {
        let address = u32_from_be([b[0], b[1], b[2], b[3]]);
        let n = Ipv4Net { address, prefix_len: b[4] };
        assert(be_bytes_u32(address) + seq![b[4]] =~= b@);
        proof {
            assert forall|m: Ipv4Net| be_bytes_u32(m.address) + seq![m.prefix_len] == b@ implies m == n by {
                assert(be_bytes_u32(m.address) =~= (be_bytes_u32(m.address) + seq![m.prefix_len]).take(4));
                assert(be_bytes_u32(address) =~= b@.take(4));
                crate::bin::lemma_u32_be_round_trip(m.address, address);
                assert((be_bytes_u32(m.address) + seq![m.prefix_len])[4] == m.prefix_len);
            }
        }
        if !n.is_valid() {
            return Err(NetParseError);
        }
        Ok(n)
    }
}

impl Ipv6Net {
    /// The compact form: the address bytes, then the prefix length.
    pub fn to_binary(&self) -> (r: [u8; 17])
        ensures
            r@ == be_bytes_u128(self.address) + seq![self.prefix_len],
    {
        let a = u128_to_be(self.address);
        let r = [
            a[0], a[1], a[2], a[3], a[4], a[5], a[6], a[7], a[8], a[9], a[10], a[11], a[12], a[13],
            a[14], a[15], self.prefix_len,
        ];
        assert(r@ =~= a@ + seq![self.prefix_len]);
        r
    }
}

/// Decoding the big-endian bytes of a 128-bit integer gives the integer back.
pub proof fn lemma_u128_be_round_trip(v: u128, w: u128)
    requires
        be_bytes_u128(v) == be_bytes_u128(w),
    ensures
        v == w,
{
    assert(be_bytes_u64((v >> 64u128) as u64) =~= be_bytes_u128(v).take(8));
    assert(be_bytes_u64((w >> 64u128) as u64) =~= be_bytes_u128(w).take(8));
    assert(be_bytes_u64(v as u64) =~= be_bytes_u128(v).skip(8));
    assert(be_bytes_u64(w as u64) =~= be_bytes_u128(w).skip(8));
    crate::bin::lemma_u64_be_round_trip((v >> 64u128) as u64, (w >> 64u128) as u64);
    crate::bin::lemma_u64_be_round_trip(v as u64, w as u64);
    assert(v == w) by (bit_vector)
        requires
            (v >> 64u128) as u64 == (w >> 64u128) as u64,
            v as u64 == w as u64,
    ;
}

impl Ipv6Net {
    /// Reads the compact form; the prefix must be valid.
    pub fn from_binary(b: [u8; 17]) -> (r: Result<Ipv6Net, NetParseError>)
        ensures
            match r {
                Ok(n) => be_bytes_u128(n.address) + seq![n.prefix_len] == b@ && n.spec_valid(),
                Err(_) => forall|n: Ipv6Net|
                    be_bytes_u128(n.address) + seq![n.prefix_len] == b@ ==> !n.spec_valid(),
            },
    {
        let address = u128_from_be(
            [b[0], b[1], b[2], b[3], b[4], b[5], b[6], b[7], b[8], b[9], b[10], b[11], b[12], b[13], b[14], b[15]],
        );
        let n = Ipv6Net { address, prefix_len: b[16] };
        assert(be_bytes_u128(address) + seq![b[16]] =~= b@);
        proof {
            assert forall|m: Ipv6Net| be_bytes_u128(m.address) + seq![m.prefix_len] == b@ implies m == n by {
                assert(be_bytes_u128(m.address) =~= (be_bytes_u128(m.address) + seq![m.prefix_len]).take(16));
                assert(be_bytes_u128(address) =~= b@.take(16));
                lemma_u128_be_round_trip(m.address, address);
                assert((be_bytes_u128(m.address) + seq![m.prefix_len])[16] == m.prefix_len);
            }
        }
        if !n.is_valid() {
            return Err(NetParseError);
        }
        Ok(n)
    }
}

} // verus!
