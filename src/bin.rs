//! Fixed-width big-endian integer encodings.

use vstd::prelude::*;

verus! {

/// The eight bytes of `v`, most significant first.
pub open spec fn be_bytes_u64(v: u64) -> Seq<u8> {
    seq![
        (v >> 56u64) as u8,
        (v >> 48u64) as u8,
        (v >> 40u64) as u8,
        (v >> 32u64) as u8,
        (v >> 24u64) as u8,
        (v >> 16u64) as u8,
        (v >> 8u64) as u8,
        v as u8,
    ]
}

/// The four bytes of `v`, most significant first.
pub open spec fn be_bytes_u32(v: u32) -> Seq<u8> {
    seq![(v >> 24u32) as u8, (v >> 16u32) as u8, (v >> 8u32) as u8, v as u8]
}

/// The two bytes of `v`, most significant first.
pub open spec fn be_bytes_u16(v: u16) -> Seq<u8> {
    seq![(v >> 8u16) as u8, v as u8]
}

pub fn i64_to_be(v: i64) -> (r: [u8; 8])
    ensures
        r@ == be_bytes_u64(#[verifier::truncate] (v as u64)),
{
    u64_to_be(#[verifier::truncate] (v as u64))
}

pub fn i64_from_be(v: [u8; 8]) -> (r: i64)
    ensures
        be_bytes_u64(#[verifier::truncate] (r as u64)) == v@,
{
    let u = u64_from_be(v);
    let r = #[verifier::truncate] (u as i64);
    assert((#[verifier::truncate] (r as u64)) == u) by (bit_vector)
        requires
            r == #[verifier::truncate] (u as i64),
    ;
    r
}

pub fn u64_to_be(v: u64) -> (r: [u8; 8])
    ensures
        r@ == be_bytes_u64(v),
{
    let r = [
        (v >> 56u64) as u8,
        (v >> 48u64) as u8,
        (v >> 40u64) as u8,
        (v >> 32u64) as u8,
        (v >> 24u64) as u8,
        (v >> 16u64) as u8,
        (v >> 8u64) as u8,
        v as u8,
    ];
    assert(r@ =~= be_bytes_u64(v));
    r
}

pub fn u64_from_be(v: [u8; 8]) -> (r: u64)
    ensures
        be_bytes_u64(r) == v@,
{
    let (b0, b1, b2, b3, b4, b5, b6, b7) = (v[0], v[1], v[2], v[3], v[4], v[5], v[6], v[7]);
    let r = ((b0 as u64) << 56u64) | ((b1 as u64) << 48u64) | ((b2 as u64) << 40u64) | ((
    b3 as u64) << 32u64) | ((b4 as u64) << 24u64) | ((b5 as u64) << 16u64) | ((b6 as u64)
        << 8u64) | (b7 as u64);
    assert(
        (r >> 56u64) as u8 == b0 && (r >> 48u64) as u8 == b1 && (r >> 40u64) as u8 == b2 && (r
            >> 32u64) as u8 == b3 && (r >> 24u64) as u8 == b4 && (r >> 16u64) as u8 == b5 && (r
            >> 8u64) as u8 == b6 && r as u8 == b7
    ) by (bit_vector)
        requires
            r == ((b0 as u64) << 56u64) | ((b1 as u64) << 48u64) | ((b2 as u64) << 40u64) | ((
            b3 as u64) << 32u64) | ((b4 as u64) << 24u64) | ((b5 as u64) << 16u64) | ((
            b6 as u64) << 8u64) | (b7 as u64),
    ;
    assert(be_bytes_u64(r) =~= v@);
    r
}

pub fn u32_to_be(v: u32) -> (r: [u8; 4])
    ensures
        r@ == be_bytes_u32(v),
{
    let r = [(v >> 24u32) as u8, (v >> 16u32) as u8, (v >> 8u32) as u8, v as u8];
    assert(r@ =~= be_bytes_u32(v));
    r
}

pub fn u32_from_be(v: [u8; 4]) -> (r: u32)
    ensures
        be_bytes_u32(r) == v@,
{
    let (b0, b1, b2, b3) = (v[0], v[1], v[2], v[3]);
    let r = ((b0 as u32) << 24u32) | ((b1 as u32) << 16u32) | ((b2 as u32) << 8u32) | (
    b3 as u32);
    assert((r >> 24u32) as u8 == b0 && (r >> 16u32) as u8 == b1 && (r >> 8u32) as u8 == b2
        && r as u8 == b3) by (bit_vector)
        requires
            r == ((b0 as u32) << 24u32) | ((b1 as u32) << 16u32) | ((b2 as u32) << 8u32) | (
            b3 as u32),
    ;
    assert(be_bytes_u32(r) =~= v@);
    r
}

pub fn u16_to_be(v: u16) -> (r: [u8; 2])
    ensures
        r@ == be_bytes_u16(v),
{
    let r = [(v >> 8u16) as u8, v as u8];
    assert(r@ =~= be_bytes_u16(v));
    r
}

pub fn u16_from_be(v: [u8; 2]) -> (r: u16)
    ensures
        be_bytes_u16(r) == v@,
{
    let (b0, b1) = (v[0], v[1]);
    let r = ((b0 as u16) << 8u16) | (b1 as u16);
    assert((r >> 8u16) as u8 == b0 && r as u8 == b1) by (bit_vector)
        requires
            r == ((b0 as u16) << 8u16) | (b1 as u16),
    ;
    assert(be_bytes_u16(r) =~= v@);
    r
}

/// Decoding the big-endian bytes of a 64-bit integer gives the integer back.
pub proof fn lemma_u64_be_round_trip(v: u64, w: u64)
    requires
        be_bytes_u64(v) == be_bytes_u64(w),
    ensures
        v == w,
{
    let (b0, b1, b2, b3, b4, b5, b6, b7) = (
        be_bytes_u64(v)[0],
        be_bytes_u64(v)[1],
        be_bytes_u64(v)[2],
        be_bytes_u64(v)[3],
        be_bytes_u64(v)[4],
        be_bytes_u64(v)[5],
        be_bytes_u64(v)[6],
        be_bytes_u64(v)[7],
    );
    assert(be_bytes_u64(w)[0] == b0 && be_bytes_u64(w)[1] == b1 && be_bytes_u64(w)[2] == b2
        && be_bytes_u64(w)[3] == b3 && be_bytes_u64(w)[4] == b4 && be_bytes_u64(w)[5] == b5
        && be_bytes_u64(w)[6] == b6 && be_bytes_u64(w)[7] == b7);
    assert(v == w) by (bit_vector)
        requires
            (v >> 56u64) as u8 == (w >> 56u64) as u8,
            (v >> 48u64) as u8 == (w >> 48u64) as u8,
            (v >> 40u64) as u8 == (w >> 40u64) as u8,
            (v >> 32u64) as u8 == (w >> 32u64) as u8,
            (v >> 24u64) as u8 == (w >> 24u64) as u8,
            (v >> 16u64) as u8 == (w >> 16u64) as u8,
            (v >> 8u64) as u8 == (w >> 8u64) as u8,
            v as u8 == w as u8,
    ;
}

/// Decoding the big-endian bytes of a 32-bit integer gives the integer back.
pub proof fn lemma_u32_be_round_trip(v: u32, w: u32)
    requires
        be_bytes_u32(v) == be_bytes_u32(w),
    ensures
        v == w,
{
    assert(be_bytes_u32(v)[0] == be_bytes_u32(w)[0] && be_bytes_u32(v)[1] == be_bytes_u32(w)[1]
        && be_bytes_u32(v)[2] == be_bytes_u32(w)[2] && be_bytes_u32(v)[3] == be_bytes_u32(w)[3]);
    assert(v == w) by (bit_vector)
        requires
            (v >> 24u32) as u8 == (w >> 24u32) as u8,
            (v >> 16u32) as u8 == (w >> 16u32) as u8,
            (v >> 8u32) as u8 == (w >> 8u32) as u8,
            v as u8 == w as u8,
    ;
}

} // verus!
