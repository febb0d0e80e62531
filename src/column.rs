//! The byte form of a block's two columns: each timestamp and each value as
//! eight big-endian bytes.

use vstd::prelude::*;
use crate::bytes::{be64, be_i64, get_i64, get_u64, i64_of, lemma_i64_round_trip, lemma_u64_round_trip, put_i64, put_u64, u64_of};

verus! {

pub open spec fn enc_ts(s: Seq<i64>) -> Seq<u8>
    decreases s.len(),
{
    if s.len() == 0 {
        Seq::empty()
    } else {
        enc_ts(s.drop_last()) + be_i64(s.last())
    }
}

pub open spec fn enc_vals(s: Seq<u64>) -> Seq<u8>
    decreases s.len(),
{
    if s.len() == 0 {
        Seq::empty()
    } else {
        enc_vals(s.drop_last()) + be64(s.last())
    }
}

pub proof fn lemma_enc_ts(s: Seq<i64>)
    ensures
        enc_ts(s).len() == 8 * s.len(),
        forall|k: int| 0 <= k < s.len() ==> enc_ts(s).subrange(8 * k, 8 * k + 8) == be_i64(#[trigger] s[k]),
    decreases s.len(),
{
    if s.len() > 0 {
        let p = s.drop_last();
        lemma_enc_ts(p);
        lemma_i64_round_trip(s.last());
        assert forall|k: int| 0 <= k < s.len() implies enc_ts(s).subrange(8 * k, 8 * k + 8) == be_i64(#[trigger] s[k]) by {
            if k < p.len() {
                assert(enc_ts(s).subrange(8 * k, 8 * k + 8) =~= enc_ts(p).subrange(8 * k, 8 * k + 8));
                assert(p[k] == s[k]);
            } else {
                assert(enc_ts(s).subrange(8 * k, 8 * k + 8) =~= be_i64(s.last()));
            }
        }
    }
}

pub proof fn lemma_enc_vals(s: Seq<u64>)
    ensures
        enc_vals(s).len() == 8 * s.len(),
        forall|k: int| 0 <= k < s.len() ==> enc_vals(s).subrange(8 * k, 8 * k + 8) == be64(#[trigger] s[k]),
    decreases s.len(),
{
    if s.len() > 0 {
        let p = s.drop_last();
        lemma_enc_vals(p);
        lemma_u64_round_trip(s.last());
        assert forall|k: int| 0 <= k < s.len() implies enc_vals(s).subrange(8 * k, 8 * k + 8) == be64(#[trigger] s[k]) by {
            if k < p.len() {
                assert(enc_vals(s).subrange(8 * k, 8 * k + 8) =~= enc_vals(p).subrange(8 * k, 8 * k + 8));
                assert(p[k] == s[k]);
            } else {
                assert(enc_vals(s).subrange(8 * k, 8 * k + 8) =~= be64(s.last()));
            }
        }
    }
}

/// The timestamps read back from `n` groups of eight bytes at `start`.
pub open spec fn dec_ts(b: Seq<u8>, start: int, n: int) -> Seq<i64> {
    Seq::new(n as nat, |k: int| i64_of(b.subrange(start + 8 * k, start + 8 * k + 8)))
}

pub open spec fn dec_vals(b: Seq<u8>, start: int, n: int) -> Seq<u64> {
    Seq::new(n as nat, |k: int| u64_of(b.subrange(start + 8 * k, start + 8 * k + 8)))
}

/// Reading back what was written gives the column that was written.
pub proof fn lemma_ts_round_trip(b: Seq<u8>, start: int, s: Seq<i64>)
    requires
        0 <= start,
        start + 8 * s.len() <= b.len(),
        b.subrange(start, start + 8 * s.len()) == enc_ts(s),
    ensures
        dec_ts(b, start, s.len() as int) == s,
{
    lemma_enc_ts(s);
    assert forall|k: int| 0 <= k < s.len() implies dec_ts(b, start, s.len() as int)[k] == s[k] by {
        assert(b.subrange(start + 8 * k, start + 8 * k + 8) =~= enc_ts(s).subrange(8 * k, 8 * k + 8));
        lemma_i64_round_trip(s[k]);
    }
    assert(dec_ts(b, start, s.len() as int) =~= s);
}

pub proof fn lemma_vals_round_trip(b: Seq<u8>, start: int, s: Seq<u64>)
    requires
        0 <= start,
        start + 8 * s.len() <= b.len(),
        b.subrange(start, start + 8 * s.len()) == enc_vals(s),
    ensures
        dec_vals(b, start, s.len() as int) == s,
{
    lemma_enc_vals(s);
    assert forall|k: int| 0 <= k < s.len() implies dec_vals(b, start, s.len() as int)[k] == s[k] by {
        assert(b.subrange(start + 8 * k, start + 8 * k + 8) =~= enc_vals(s).subrange(8 * k, 8 * k + 8));
        lemma_u64_round_trip(s[k]);
    }
    assert(dec_vals(b, start, s.len() as int) =~= s);
}

pub fn encode_ts(ts: &Vec<i64>) -> (r: Vec<u8>)
    ensures
        r@ == enc_ts(ts@),
{
    let mut r: Vec<u8> = Vec::new();
    let mut i: usize = 0;
    while i < ts.len()
        invariant
            i <= ts@.len(),
            r@ == enc_ts(ts@.subrange(0, i as int)),
        decreases ts@.len() - i,
    {
        proof {
            assert(ts@.subrange(0, i + 1).drop_last() =~= ts@.subrange(0, i as int));
        }
        put_i64(&mut r, ts[i]);
        i += 1;
    }
    assert(ts@.subrange(0, ts@.len() as int) =~= ts@);
    r
}

pub fn encode_vals(val: &Vec<u64>) -> (r: Vec<u8>)
    ensures
        r@ == enc_vals(val@),
{
    let mut r: Vec<u8> = Vec::new();
    let mut i: usize = 0;
    while i < val.len()
        invariant
            i <= val@.len(),
            r@ == enc_vals(val@.subrange(0, i as int)),
        decreases val@.len() - i,
    {
        proof {
            assert(val@.subrange(0, i + 1).drop_last() =~= val@.subrange(0, i as int));
        }
        put_u64(&mut r, val[i]);
        i += 1;
    }
    assert(val@.subrange(0, val@.len() as int) =~= val@);
    r
}

pub fn decode_ts(b: &[u8], start: usize, n: usize) -> (r: Vec<i64>)
    requires
        start + 8 * n <= b@.len(),
    ensures
        r@ == dec_ts(b@, start as int, n as int),
{
    let mut r: Vec<i64> = Vec::new();
    let mut k: usize = 0;
    let mut pos: usize = start;
    let ghost len = b.len();
    while k < n
        invariant
            k <= n,
            start + 8 * n <= b@.len(),
            b@.len() == len,
            len <= usize::MAX,
            pos == start + 8 * k,
            r@ == dec_ts(b@, start as int, k as int),
        decreases n - k,
    {
        let x = get_i64(b, pos);
        r.push(x);
        k += 1;
        pos += 8;
        assert(r@ =~= dec_ts(b@, start as int, k as int));
    }
    r
}

pub fn decode_vals(b: &[u8], start: usize, n: usize) -> (r: Vec<u64>)
    requires
        start + 8 * n <= b@.len(),
    ensures
        r@ == dec_vals(b@, start as int, n as int),
{
    let mut r: Vec<u64> = Vec::new();
    let mut k: usize = 0;
    let mut pos: usize = start;
    let ghost len = b.len();
    while k < n
        invariant
            k <= n,
            start + 8 * n <= b@.len(),
            b@.len() == len,
            len <= usize::MAX,
            pos == start + 8 * k,
            r@ == dec_vals(b@, start as int, k as int),
        decreases n - k,
    {
        let x = get_u64(b, pos);
        r.push(x);
        k += 1;
        pos += 8;
        assert(r@ =~= dec_vals(b@, start as int, k as int));
    }
    r
}

} // verus!
