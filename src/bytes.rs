//! Big-endian fixed-width integers, as every multi-byte integer of the TSM
//! file and of the manifest records is written.

use vstd::prelude::*;

verus! {

/// The eight big-endian bytes of `x`.
pub open spec fn be64(x: u64) -> Seq<u8> {
    seq![
        (x >> 56u64) as u8,
        (x >> 48u64) as u8,
        (x >> 40u64) as u8,
        (x >> 32u64) as u8,
        (x >> 24u64) as u8,
        (x >> 16u64) as u8,
        (x >> 8u64) as u8,
        x as u8,
    ]
}

/// The value of eight big-endian bytes.
pub open spec fn u64_of(s: Seq<u8>) -> u64 {
    ((s[0] as u64) << 56u64) | ((s[1] as u64) << 48u64) | ((s[2] as u64) << 40u64) | ((
    s[3] as u64) << 32u64) | ((s[4] as u64) << 24u64) | ((s[5] as u64) << 16u64) | ((
    s[6] as u64) << 8u64) | (s[7] as u64)
}

/// The four big-endian bytes of `x`.
pub open spec fn be32(x: u32) -> Seq<u8> {
    seq![(x >> 24u32) as u8, (x >> 16u32) as u8, (x >> 8u32) as u8, x as u8]
}

/// The value of four big-endian bytes.
pub open spec fn u32_of(s: Seq<u8>) -> u32 {
    ((s[0] as u32) << 24u32) | ((s[1] as u32) << 16u32) | ((s[2] as u32) << 8u32) | (
    s[3] as u32)
}

/// The two big-endian bytes of `x`.
pub open spec fn be16(x: u16) -> Seq<u8> {
    seq![(x >> 8u16) as u8, x as u8]
}

/// The value of two big-endian bytes.
pub open spec fn u16_of(s: Seq<u8>) -> u16 {
    ((s[0] as u16) << 8u16) | (s[1] as u16)
}

/// A signed timestamp is written as the bytes of its two's complement.
pub open spec fn be_i64(x: i64) -> Seq<u8> {
    be64(#[verifier::truncate] (x as u64))
}

pub open spec fn i64_of(s: Seq<u8>) -> i64 {
    #[verifier::truncate] (u64_of(s) as i64)
}

/// A flag is one byte, 0 or 1.
pub open spec fn bool_byte(b: bool) -> u8 {
    if b { 1 } else { 0 }
}

pub proof fn lemma_u64_round_trip(x: u64)
    ensures
        u64_of(be64(x)) == x,
        be64(x).len() == 8,
{
    let b0 = (x >> 56u64) as u8;
    let b1 = (x >> 48u64) as u8;
    let b2 = (x >> 40u64) as u8;
    let b3 = (x >> 32u64) as u8;
    let b4 = (x >> 24u64) as u8;
    let b5 = (x >> 16u64) as u8;
    let b6 = (x >> 8u64) as u8;
    let b7 = x as u8;
    assert(((b0 as u64) << 56u64) | ((b1 as u64) << 48u64) | ((b2 as u64) << 40u64) | ((
    b3 as u64) << 32u64) | ((b4 as u64) << 24u64) | ((b5 as u64) << 16u64) | ((b6 as u64)
        << 8u64) | (b7 as u64) == x) by (bit_vector)
        requires
            b0 == (x >> 56u64) as u8,
            b1 == (x >> 48u64) as u8,
            b2 == (x >> 40u64) as u8,
            b3 == (x >> 32u64) as u8,
            b4 == (x >> 24u64) as u8,
            b5 == (x >> 16u64) as u8,
            b6 == (x >> 8u64) as u8,
            b7 == x as u8,
    ;
}

pub proof fn lemma_u64_bytes_round_trip(s: Seq<u8>)
    requires
        s.len() == 8,
    ensures
        be64(u64_of(s)) == s,
{
    let (b0, b1, b2, b3, b4, b5, b6, b7) = (s[0], s[1], s[2], s[3], s[4], s[5], s[6], s[7]);
    let x = u64_of(s);
    assert((x >> 56u64) as u8 == b0 && (x >> 48u64) as u8 == b1 && (x >> 40u64) as u8 == b2
        && (x >> 32u64) as u8 == b3 && (x >> 24u64) as u8 == b4 && (x >> 16u64) as u8 == b5
        && (x >> 8u64) as u8 == b6 && x as u8 == b7) by (bit_vector)
        requires
            x == ((b0 as u64) << 56u64) | ((b1 as u64) << 48u64) | ((b2 as u64) << 40u64) | ((
            b3 as u64) << 32u64) | ((b4 as u64) << 24u64) | ((b5 as u64) << 16u64) | ((
            b6 as u64) << 8u64) | (b7 as u64),
    ;
    assert(be64(x) =~= s);
}

pub proof fn lemma_u32_round_trip(x: u32)
    ensures
        u32_of(be32(x)) == x,
        be32(x).len() == 4,
{
    let b0 = (x >> 24u32) as u8;
    let b1 = (x >> 16u32) as u8;
    let b2 = (x >> 8u32) as u8;
    let b3 = x as u8;
    assert(((b0 as u32) << 24u32) | ((b1 as u32) << 16u32) | ((b2 as u32) << 8u32) | (
    b3 as u32) == x) by (bit_vector)
        requires
            b0 == (x >> 24u32) as u8,
            b1 == (x >> 16u32) as u8,
            b2 == (x >> 8u32) as u8,
            b3 == x as u8,
    ;
}

pub proof fn lemma_u16_round_trip(x: u16)
    ensures
        u16_of(be16(x)) == x,
        be16(x).len() == 2,
{
    let b0 = (x >> 8u16) as u8;
    let b1 = x as u8;
    assert(((b0 as u16) << 8u16) | (b1 as u16) == x) by (bit_vector)
        requires
            b0 == (x >> 8u16) as u8,
            b1 == x as u8,
    ;
}

pub proof fn lemma_i64_round_trip(x: i64)
    ensures
        i64_of(be_i64(x)) == x,
        be_i64(x).len() == 8,
{
    let u = #[verifier::truncate] (x as u64);
    lemma_u64_round_trip(u);
    assert(#[verifier::truncate] (u as i64) == x) by (bit_vector)
        requires
            u == #[verifier::truncate] (x as u64),
    ;
}

pub proof fn lemma_u32_bytes_round_trip(s: Seq<u8>)
    requires
        s.len() == 4,
    ensures
        be32(u32_of(s)) == s,
{
    let (b0, b1, b2, b3) = (s[0], s[1], s[2], s[3]);
    let x = u32_of(s);
    assert((x >> 24u32) as u8 == b0 && (x >> 16u32) as u8 == b1 && (x >> 8u32) as u8 == b2
        && x as u8 == b3) by (bit_vector)
        requires
            x == ((b0 as u32) << 24u32) | ((b1 as u32) << 16u32) | ((b2 as u32) << 8u32) | (
            b3 as u32),
    ;
    assert(be32(x) =~= s);
}

pub proof fn lemma_u16_bytes_round_trip(s: Seq<u8>)
    requires
        s.len() == 2,
    ensures
        be16(u16_of(s)) == s,
{
    let (b0, b1) = (s[0], s[1]);
    let x = u16_of(s);
    assert((x >> 8u16) as u8 == b0 && x as u8 == b1) by (bit_vector)
        requires
            x == ((b0 as u16) << 8u16) | (b1 as u16),
    ;
    assert(be16(x) =~= s);
}

pub proof fn lemma_i64_bytes_round_trip(s: Seq<u8>)
    requires
        s.len() == 8,
    ensures
        be_i64(i64_of(s)) == s,
{
    let u = u64_of(s);
    lemma_u64_bytes_round_trip(s);
    assert(#[verifier::truncate] ((#[verifier::truncate] (u as i64)) as u64) == u) by (bit_vector);
}

/// Appends the big-endian bytes of `x`.
pub fn put_u64(buf: &mut Vec<u8>, x: u64)
    ensures
        final(buf)@ == old(buf)@ + be64(x),
{
    buf.push((x >> 56u64) as u8);
    buf.push((x >> 48u64) as u8);
    buf.push((x >> 40u64) as u8);
    buf.push((x >> 32u64) as u8);
    buf.push((x >> 24u64) as u8);
    buf.push((x >> 16u64) as u8);
    buf.push((x >> 8u64) as u8);
    buf.push(x as u8);
    assert(final(buf)@ =~= old(buf)@ + be64(x));
}

pub fn put_u32(buf: &mut Vec<u8>, x: u32)
    ensures
        final(buf)@ == old(buf)@ + be32(x),
{
    buf.push((x >> 24u32) as u8);
    buf.push((x >> 16u32) as u8);
    buf.push((x >> 8u32) as u8);
    buf.push(x as u8);
    assert(final(buf)@ =~= old(buf)@ + be32(x));
}

pub fn put_u16(buf: &mut Vec<u8>, x: u16)
    ensures
        final(buf)@ == old(buf)@ + be16(x),
{
    buf.push((x >> 8u16) as u8);
    buf.push(x as u8);
    assert(final(buf)@ =~= old(buf)@ + be16(x));
}

pub fn put_i64(buf: &mut Vec<u8>, x: i64)
    ensures
        final(buf)@ == old(buf)@ + be_i64(x),
{
    put_u64(buf, #[verifier::truncate] (x as u64));
}

pub fn put_bool(buf: &mut Vec<u8>, b: bool)
    ensures
        final(buf)@ == old(buf)@.push(bool_byte(b)),
{
    buf.push(if b { 1u8 } else { 0u8 });
}

/// Reads eight big-endian bytes at `pos`.
pub fn get_u64(b: &[u8], pos: usize) -> (r: u64)
    requires
        pos + 8 <= b@.len(),
    ensures
        r == u64_of(b@.subrange(pos as int, pos + 8)),
{
    ((b[pos] as u64) << 56u64) | ((b[pos + 1] as u64) << 48u64) | ((b[pos + 2] as u64) << 40u64)
        | ((b[pos + 3] as u64) << 32u64) | ((b[pos + 4] as u64) << 24u64) | ((b[pos + 5] as u64)
        << 16u64) | ((b[pos + 6] as u64) << 8u64) | (b[pos + 7] as u64)
}

pub fn get_u32(b: &[u8], pos: usize) -> (r: u32)
    requires
        pos + 4 <= b@.len(),
    ensures
        r == u32_of(b@.subrange(pos as int, pos + 4)),
{
    ((b[pos] as u32) << 24u32) | ((b[pos + 1] as u32) << 16u32) | ((b[pos + 2] as u32) << 8u32)
        | (b[pos + 3] as u32)
}

pub fn get_u16(b: &[u8], pos: usize) -> (r: u16)
    requires
        pos + 2 <= b@.len(),
    ensures
        r == u16_of(b@.subrange(pos as int, pos + 2)),
{
    ((b[pos] as u16) << 8u16) | (b[pos + 1] as u16)
}

pub fn get_i64(b: &[u8], pos: usize) -> (r: i64)
    requires
        pos + 8 <= b@.len(),
    ensures
        r == i64_of(b@.subrange(pos as int, pos + 8)),
{
    #[verifier::truncate] (get_u64(b, pos) as i64)
}

} // verus!
