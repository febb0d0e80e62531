//! Reading a TSM file image: its header, footer and index, and each block
//! with both of its CRCs checked.

use vstd::prelude::*;
use crate::block::{strictly_ascending, DataBlock};
use crate::bloom::{BloomFilter, BLOOM_FILTER_BYTES};
use crate::bytes::{be16, be32, be64, be_i64, get_i64, get_u16, get_u32, get_u64, lemma_i64_bytes_round_trip, lemma_i64_round_trip, lemma_u16_bytes_round_trip, lemma_u16_round_trip, lemma_u32_bytes_round_trip, lemma_u32_round_trip, lemma_u64_bytes_round_trip, lemma_u64_round_trip, u16_of, u32_of, u64_of};
use crate::column::{dec_ts, dec_vals, decode_ts, decode_vals, enc_ts, enc_vals, lemma_enc_ts, lemma_enc_vals, lemma_ts_round_trip, lemma_vals_round_trip};
use crate::tsm::{block_at, blocks_of, holds_block, entry_at, TsmWriter, MAX_BLOCK_VALUES, MAX_TSM_BYTES, block_bytes, crc32, crc32_of, enc_block_entries, enc_block_entry, enc_index, enc_index_entry, header_bytes, index_view, index_wf, BlockEntry, BlockMeta, IndexEntry, IndexView, HEADER_LEN, MAX_BLOCKS_PER_FIELD, TSM_MAGIC, TSM_VERSION};

verus! {

/// The footer: the bloom filter, then the index offset.
pub const FOOTER_LEN: usize = 72;

#[derive(Clone, Copy, Debug, PartialEq, Eq, Structural)]
pub enum ReadTsmError {
    /// A stored CRC differs from the CRC of the bytes it covers.
    CrcMismatch,
    /// The bytes are present but do not form what the format requires.
    Decode,
    /// The bytes end before what the format requires.
    UnexpectedEof,
}

/// The index offset that the footer of `b` holds.
pub open spec fn index_offset_of(b: Seq<u8>) -> u64 {
    u64_of(b.subrange(b.len() - 8, b.len() as int))
}

/// `b` is a TSM file whose index is `idx`.
pub open spec fn file_well_formed(b: Seq<u8>, idx: Seq<IndexView>) -> bool {
    &&& b.len() >= HEADER_LEN + FOOTER_LEN
    &&& b.subrange(0, 5) == header_bytes()
    &&& HEADER_LEN <= index_offset_of(b) <= b.len() - FOOTER_LEN
    &&& b.subrange(index_offset_of(b) as int, b.len() - FOOTER_LEN) == enc_index(idx)
    &&& index_wf(idx)
}

pub proof fn lemma_enc_index_concat(a: Seq<IndexView>, b: Seq<IndexView>)
    ensures
        enc_index(a + b) == enc_index(a) + enc_index(b),
    decreases b.len(),
{
    if b.len() == 0 {
        assert(a + b =~= a);
        assert(enc_index(a) + enc_index(b) =~= enc_index(a));
    } else {
        lemma_enc_index_concat(a, b.drop_last());
        assert((a + b).drop_last() =~= a + b.drop_last());
        assert(enc_index(a + b) =~= enc_index(a) + enc_index(b));
    }
}

proof fn lemma_enc_index_front(t: Seq<IndexView>)
    requires
        t.len() > 0,
    ensures
        enc_index(t) == enc_index_entry(t[0]) + enc_index(t.drop_first()),
{
    lemma_enc_index_concat(seq![t[0]], t.drop_first());
    assert(seq![t[0]] + t.drop_first() =~= t);
    let one = seq![t[0]];
    assert(one.drop_last() =~= Seq::<IndexView>::empty());
    assert(one.last() == t[0]);
    assert(enc_index(one.drop_last()) =~= Seq::<u8>::empty());
    assert(enc_index(one) =~= enc_index_entry(t[0]));
}

pub proof fn lemma_enc_block_entries(s: Seq<BlockEntry>)
    ensures
        enc_block_entries(s).len() == 44 * s.len(),
        forall|k: int| 0 <= k < s.len() ==> enc_block_entries(s).subrange(44 * k, 44 * k + 44) == enc_block_entry(#[trigger] s[k]),
    decreases s.len(),
{
    if s.len() > 0 {
        let p = s.drop_last();
        lemma_enc_block_entries(p);
        assert forall|k: int| 0 <= k < s.len() implies enc_block_entries(s).subrange(44 * k, 44 * k + 44) == enc_block_entry(#[trigger] s[k]) by {
            if k < p.len() {
                assert(enc_block_entries(s).subrange(44 * k, 44 * k + 44) =~= enc_block_entries(p).subrange(44 * k, 44 * k + 44));
                assert(p[k] == s[k]);
            } else {
                assert(enc_block_entries(s).subrange(44 * k, 44 * k + 44) =~= enc_block_entry(s.last()));
            }
        }
    }
}

proof fn lemma_block_entry_injective(e1: BlockEntry, e2: BlockEntry)
    requires
        enc_block_entry(e1) == enc_block_entry(e2),
    ensures
        e1 == e2,
{
    let x = enc_block_entry(e1);
    let y = enc_block_entry(e2);
    assert(x.subrange(0, 8) =~= be_i64(e1.min_ts));
    assert(y.subrange(0, 8) =~= be_i64(e2.min_ts));
    assert(x.subrange(8, 16) =~= be_i64(e1.max_ts));
    assert(y.subrange(8, 16) =~= be_i64(e2.max_ts));
    assert(x.subrange(16, 20) =~= be32(e1.count));
    assert(y.subrange(16, 20) =~= be32(e2.count));
    assert(x.subrange(20, 28) =~= be64(e1.offset));
    assert(y.subrange(20, 28) =~= be64(e2.offset));
    assert(x.subrange(28, 36) =~= be64(e1.size));
    assert(y.subrange(28, 36) =~= be64(e2.size));
    assert(x.subrange(36, 44) =~= be64(e1.val_offset));
    assert(y.subrange(36, 44) =~= be64(e2.val_offset));
    lemma_i64_round_trip(e1.min_ts);
    lemma_i64_round_trip(e2.min_ts);
    lemma_i64_round_trip(e1.max_ts);
    lemma_i64_round_trip(e2.max_ts);
    lemma_u32_round_trip(e1.count);
    lemma_u32_round_trip(e2.count);
    lemma_u64_round_trip(e1.offset);
    lemma_u64_round_trip(e2.offset);
    lemma_u64_round_trip(e1.size);
    lemma_u64_round_trip(e2.size);
    lemma_u64_round_trip(e1.val_offset);
    lemma_u64_round_trip(e2.val_offset);
}

proof fn lemma_block_entries_injective(xs: Seq<BlockEntry>, ys: Seq<BlockEntry>)
    requires
        xs.len() == ys.len(),
        enc_block_entries(xs) == enc_block_entries(ys),
    ensures
        xs == ys,
{
    lemma_enc_block_entries(xs);
    lemma_enc_block_entries(ys);
    assert forall|k: int| 0 <= k < xs.len() implies xs[k] == ys[k] by {
        lemma_block_entry_injective(xs[k], ys[k]);
    }
    assert(xs =~= ys);
}

proof fn lemma_entry_shape(x: IndexView)
    ensures
        enc_index_entry(x).len() == 11 + 44 * x.2.len(),
        enc_index_entry(x).subrange(0, 8) == be64(x.0),
        enc_index_entry(x)[8] == x.1,
        enc_index_entry(x).subrange(9, 11) == be16(x.2.len() as u16),
        enc_index_entry(x).subrange(11, 11 + 44 * x.2.len() as int) == enc_block_entries(x.2),
{
    lemma_enc_block_entries(x.2);
    let s = enc_index_entry(x);
    assert(s.subrange(0, 8) =~= be64(x.0));
    assert(s.subrange(9, 11) =~= be16(x.2.len() as u16));
    assert(s.subrange(11, 11 + 44 * x.2.len() as int) =~= enc_block_entries(x.2));
}

proof fn lemma_enc_index_empty(t: Seq<IndexView>)
    requires
        enc_index(t).len() == 0,
    ensures
        t.len() == 0,
{
    if t.len() > 0 {
        lemma_enc_index_front(t);
        lemma_entry_shape(t[0]);
    }
}

/// Two entries whose encodings both start `s` are the same entry.
proof fn lemma_same_first_entry(x: IndexView, y: IndexView, s: Seq<u8>)
    requires
        x.2.len() <= MAX_BLOCKS_PER_FIELD,
        y.2.len() <= MAX_BLOCKS_PER_FIELD,
        enc_index_entry(x).len() <= s.len(),
        enc_index_entry(y).len() <= s.len(),
        s.subrange(0, enc_index_entry(x).len() as int) == enc_index_entry(x),
        s.subrange(0, enc_index_entry(y).len() as int) == enc_index_entry(y),
    ensures
        x == y,
{
    lemma_entry_shape(x);
    lemma_entry_shape(y);
    let hx = enc_index_entry(x);
    let hy = enc_index_entry(y);
    assert(s.subrange(0, 8) =~= hx.subrange(0, 8));
    assert(s.subrange(0, 8) =~= hy.subrange(0, 8));
    lemma_u64_round_trip(x.0);
    lemma_u64_round_trip(y.0);
    assert(s[8] == hx[8] && s[8] == hy[8]);
    assert(s.subrange(9, 11) =~= hx.subrange(9, 11));
    assert(s.subrange(9, 11) =~= hy.subrange(9, 11));
    lemma_u16_round_trip(x.2.len() as u16);
    lemma_u16_round_trip(y.2.len() as u16);
    assert(x.2.len() == y.2.len());
    let n: int = 44 * x.2.len() as int;
    assert(s.subrange(11, 11 + n) =~= hx.subrange(11, 11 + n));
    assert(s.subrange(11, 11 + n) =~= hy.subrange(11, 11 + n));
    lemma_block_entries_injective(x.2, y.2);
}

/// Where the encoding of `p` followed by `rest` is the encoding of `t`, `p`
/// is the start of `t` and `rest` encodes the remainder.
#[verifier::rlimit(40)]
#[verifier::spinoff_prover]
pub proof fn lemma_index_prefix(p: Seq<IndexView>, rest: Seq<u8>, t: Seq<IndexView>)
    requires
        enc_index(p) + rest == enc_index(t),
        forall|i: int| 0 <= i < p.len() ==> (#[trigger] p[i]).2.len() <= MAX_BLOCKS_PER_FIELD,
        forall|i: int| 0 <= i < t.len() ==> (#[trigger] t[i]).2.len() <= MAX_BLOCKS_PER_FIELD,
    ensures
        p.len() <= t.len(),
        p == t.subrange(0, p.len() as int),
        rest == enc_index(t.subrange(p.len() as int, t.len() as int)),
    decreases p.len(),
{
    if p.len() == 0 {
        assert(enc_index(p) + rest =~= rest);
        assert(t.subrange(0, 0) =~= p);
        assert(t.subrange(0, t.len() as int) =~= t);
    } else {
        let pr = p.drop_first();
        let hp = enc_index_entry(p[0]);
        let ep = enc_index(pr);
        lemma_enc_index_front(p);
        lemma_entry_shape(p[0]);
        let s = enc_index(t);
        assert(s == hp + ep + rest);
        if t.len() == 0 {
            assert(s.len() == 0);
            assert(false);
        }
        let tr = t.drop_first();
        let ht = enc_index_entry(t[0]);
        let et = enc_index(tr);
        lemma_enc_index_front(t);
        lemma_entry_shape(t[0]);
        assert(s == ht + et);
        assert((hp + ep + rest).subrange(0, hp.len() as int) =~= hp);
        assert((ht + et).subrange(0, ht.len() as int) =~= ht);
        lemma_same_first_entry(p[0], t[0], s);
        assert((hp + ep + rest).subrange(hp.len() as int, s.len() as int) =~= ep + rest);
        assert((ht + et).subrange(ht.len() as int, s.len() as int) =~= et);
        assert forall|i: int| 0 <= i < pr.len() implies (#[trigger] pr[i]).2.len() <= MAX_BLOCKS_PER_FIELD by {
            assert(pr[i] == p[i + 1]);
        }
        assert forall|i: int| 0 <= i < tr.len() implies (#[trigger] tr[i]).2.len() <= MAX_BLOCKS_PER_FIELD by {
            assert(tr[i] == t[i + 1]);
        }
        lemma_index_prefix(pr, rest, tr);
        assert forall|k: int| 0 <= k < p.len() implies p[k] == t.subrange(0, p.len() as int)[k] by {
            if k > 0 {
                assert(p[k] == pr[k - 1]);
                assert(tr.subrange(0, pr.len() as int)[k - 1] == tr[k - 1]);
                assert(t[k] == tr[k - 1]);
            }
        }
        assert(p =~= t.subrange(0, p.len() as int));
        assert(tr.subrange(pr.len() as int, tr.len() as int) =~= t.subrange(p.len() as int, t.len() as int));
    }
}

/// A file image has one index at most.
pub proof fn lemma_index_unique(b: Seq<u8>, t1: Seq<IndexView>, t2: Seq<IndexView>)
    requires
        file_well_formed(b, t1),
        file_well_formed(b, t2),
    ensures
        t1 == t2,
{
    assert(enc_index(t1) + Seq::<u8>::empty() =~= enc_index(t2));
    lemma_index_prefix(t1, Seq::<u8>::empty(), t2);
    lemma_enc_index_empty(t2.subrange(t1.len() as int, t2.len() as int));
    assert(t1 =~= t2);
}

fn parse_block_entry(b: &[u8], pos: usize) -> (r: BlockEntry)
    requires
        pos + 44 <= b@.len(),
    ensures
        b@.subrange(pos as int, pos + 44) == enc_block_entry(r),
{
    let _n = b.len();
    let r = BlockEntry {
        min_ts: get_i64(b, pos),
        max_ts: get_i64(b, pos + 8),
        count: get_u32(b, pos + 16),
        offset: get_u64(b, pos + 20),
        size: get_u64(b, pos + 28),
        val_offset: get_u64(b, pos + 36),
    };
    proof {
        let s = b@;
        let q = pos as int;
        lemma_i64_bytes_round_trip(s.subrange(q, q + 8));
        lemma_i64_bytes_round_trip(s.subrange(q + 8, q + 16));
        lemma_u32_bytes_round_trip(s.subrange(q + 16, q + 20));
        lemma_u64_bytes_round_trip(s.subrange(q + 20, q + 28));
        lemma_u64_bytes_round_trip(s.subrange(q + 28, q + 36));
        lemma_u64_bytes_round_trip(s.subrange(q + 36, q + 44));
        assert(s.subrange(q, q + 44) =~= enc_block_entry(r));
    }
    r
}

/// The bytes of `b` at `pos`, not past `end`, encode the index entry `x`.
pub open spec fn entry_here(b: Seq<u8>, pos: int, end: int, x: IndexView) -> bool {
    &&& x.2.len() <= MAX_BLOCKS_PER_FIELD
    &&& pos + enc_index_entry(x).len() <= end
    &&& b.subrange(pos, pos + enc_index_entry(x).len()) == enc_index_entry(x)
}

proof fn lemma_entry_here(b: Seq<u8>, pos: int, end: int, x: IndexView)
    requires
        0 <= pos <= end <= b.len(),
        entry_here(b, pos, end, x),
    ensures
        x.0 == u64_of(b.subrange(pos, pos + 8)),
        x.1 == b[pos + 8],
        x.2.len() == u16_of(b.subrange(pos + 9, pos + 11)) as nat,
        pos + 11 + 44 * x.2.len() <= end,
        b.subrange(pos + 11, pos + 11 + 44 * x.2.len()) == enc_block_entries(x.2),
        enc_index_entry(x).len() == 11 + 44 * x.2.len(),
{
    lemma_entry_shape(x);
    let e = enc_index_entry(x);
    let sub = b.subrange(pos, pos + e.len());
    assert(b.subrange(pos, pos + 8) =~= sub.subrange(0, 8));
    assert(b.subrange(pos + 9, pos + 11) =~= sub.subrange(9, 11));
    assert(b[pos + 8] == sub[8]);
    assert(b.subrange(pos + 11, pos + 11 + 44 * x.2.len()) =~= sub.subrange(11, 11 + 44 * x.2.len() as int));
    lemma_u64_round_trip(x.0);
    lemma_u16_round_trip(x.2.len() as u16);
}

/// Reads one index entry at `pos`, not past `end`.
#[verifier::rlimit(40)]
#[verifier::spinoff_prover]
fn parse_index_entry(b: &[u8], pos: usize, end: usize) -> (r: Option<(IndexEntry, usize)>)
    requires
        pos <= end <= b@.len(),
    ensures
        r matches Some((e, p)) ==> pos < p <= end && b@.subrange(pos as int, p as int) == enc_index_entry(e@) && e@.2.len() <= MAX_BLOCKS_PER_FIELD,
        forall|x: IndexView| #[trigger] entry_here(b@, pos as int, end as int, x) ==> (r matches Some((e, p)) && e@ == x && p == pos + enc_index_entry(x).len()),
{
    if end - pos < 11 {
        proof {
            assert forall|x: IndexView| #[trigger] entry_here(b@, pos as int, end as int, x) implies false by {
                lemma_entry_here(b@, pos as int, end as int, x);
            }
        }
        return None;
    }
    let field_id = get_u64(b, pos);
    let field_type = b[pos + 8];
    let cnt = get_u16(b, pos + 9);
    let start = pos + 11;
    let need: usize = 44 * (cnt as usize);
    if end - start < need {
        proof {
            assert forall|x: IndexView| #[trigger] entry_here(b@, pos as int, end as int, x) implies false by {
                lemma_entry_here(b@, pos as int, end as int, x);
            }
        }
        return None;
    }
    let mut blocks: Vec<BlockEntry> = Vec::new();
    let mut q: usize = start;
    let mut k: usize = 0;
    proof {
        assert(b@.subrange(start as int, q as int) =~= Seq::<u8>::empty());
        assert(blocks@ =~= Seq::<BlockEntry>::empty());
    }
    while k < cnt as usize
        invariant
            k <= cnt,
            start <= q <= end <= b@.len(),
            q == start + 44 * k,
            start + 44 * (cnt as int) <= end,
            blocks@.len() == k,
            b@.subrange(start as int, q as int) == enc_block_entries(blocks@),
        decreases cnt - k,
    {
        let e = parse_block_entry(b, q);
        let ghost before = blocks@;
        blocks.push(e);
        proof {
            assert(blocks@.drop_last() =~= before);
            assert(b@.subrange(start as int, q + 44) =~= b@.subrange(start as int, q as int) + b@.subrange(q as int, q + 44));
        }
        q = q + 44;
        k = k + 1;
    }
    let e = IndexEntry { field_id, field_type, blocks };
    proof {
        lemma_entry_shape(e@);
        lemma_u16_bytes_round_trip(b@.subrange(pos + 9, pos + 11));
        lemma_u64_bytes_round_trip(b@.subrange(pos as int, pos + 8));
        let s = b@.subrange(pos as int, q as int);
        assert(s =~= b@.subrange(pos as int, pos + 8) + seq![field_type] + b@.subrange(pos + 9, pos + 11) + b@.subrange(start as int, q as int));
        assert(s =~= enc_index_entry(e@));
        assert forall|x: IndexView| #[trigger] entry_here(b@, pos as int, end as int, x) implies e@ == x && q == pos + enc_index_entry(x).len() by {
            lemma_entry_here(b@, pos as int, end as int, x);
            lemma_block_entries_injective(blocks@, x.2);
        }
    }
    Some((e, q))
}

/// The bytes of `b` from `start` to `end` encode the index `t`.
pub open spec fn region_holds(b: Seq<u8>, start: int, end: int, t: Seq<IndexView>) -> bool {
    &&& index_wf(t)
    &&& b.subrange(start, end) == enc_index(t)
}

/// `iv` is what was read of `t` up to `pos`.
pub open spec fn read_so_far(b: Seq<u8>, pos: int, end: int, t: Seq<IndexView>, iv: Seq<IndexView>) -> bool {
    &&& iv.len() <= t.len()
    &&& iv == t.subrange(0, iv.len() as int)
    &&& b.subrange(pos, end) == enc_index(t.subrange(iv.len() as int, t.len() as int))
}

proof fn lemma_parse_step(b: Seq<u8>, pos: int, end: int, t: Seq<IndexView>, iv: Seq<IndexView>)
    requires
        0 <= pos < end <= b.len(),
        index_wf(t),
        read_so_far(b, pos, end, t, iv),
    ensures
        iv.len() < t.len(),
        entry_here(b, pos, end, t[iv.len() as int]),
        b.subrange(pos + enc_index_entry(t[iv.len() as int]).len(), end) == enc_index(t.subrange(iv.len() + 1 as int, t.len() as int)),
        iv.len() > 0 ==> iv.last().0 < t[iv.len() as int].0,
{
    let i = iv.len() as int;
    let rest = t.subrange(i, t.len() as int);
    if rest.len() == 0 {
        assert(enc_index(rest) =~= Seq::<u8>::empty());
        assert(false);
    }
    lemma_enc_index_front(rest);
    lemma_entry_shape(rest[0]);
    assert(rest[0] == t[i]);
    let h = enc_index_entry(t[i]);
    let tail = enc_index(rest.drop_first());
    let r = b.subrange(pos, end);
    assert(r == h + tail);
    assert(pos + h.len() <= end);
    assert(b.subrange(pos, pos + h.len()) =~= r.subrange(0, h.len() as int));
    assert(r.subrange(0, h.len() as int) =~= h);
    assert(rest.drop_first() =~= t.subrange(i + 1, t.len() as int));
    assert(b.subrange(pos + h.len(), end) =~= r.subrange(h.len() as int, r.len() as int));
    if i > 0 {
        assert(iv.last() == t[i - 1]);
    }
}

proof fn lemma_parse_done(b: Seq<u8>, end: int, t: Seq<IndexView>, iv: Seq<IndexView>)
    requires
        0 <= end <= b.len(),
        read_so_far(b, end, end, t, iv),
    ensures
        iv == t,
{
    let rest = t.subrange(iv.len() as int, t.len() as int);
    assert(b.subrange(end, end) =~= Seq::<u8>::empty());
    lemma_enc_index_empty(rest);
    assert(t =~= t.subrange(0, iv.len() as int));
}

/// Reads the index that lies from `start` to `end`: succeeds exactly where
/// those bytes encode an index whose field ids ascend.
fn parse_index(b: &[u8], start: usize, end: usize) -> (r: Option<Vec<IndexEntry>>)
    requires
        start <= end <= b@.len(),
    ensures
        r matches Some(idx) ==> region_holds(b@, start as int, end as int, index_view(idx@)),
        forall|t: Seq<IndexView>| #[trigger] region_holds(b@, start as int, end as int, t) ==> (r matches Some(idx) && index_view(idx@) == t),
{
    let mut index: Vec<IndexEntry> = Vec::new();
    let mut pos: usize = start;
    proof {
        assert(b@.subrange(start as int, pos as int) =~= Seq::<u8>::empty());
        assert(index_view(index@) =~= Seq::<IndexView>::empty());
        assert forall|t: Seq<IndexView>| #[trigger] region_holds(b@, start as int, end as int, t) implies read_so_far(b@, pos as int, end as int, t, index_view(index@)) by {
            assert(t.subrange(0, 0) =~= index_view(index@));
            assert(t.subrange(0, t.len() as int) =~= t);
        }
    }
    while pos < end
        invariant
            start <= pos <= end <= b@.len(),
            index_wf(index_view(index@)),
            b@.subrange(start as int, pos as int) == enc_index(index_view(index@)),
            forall|t: Seq<IndexView>| #[trigger] region_holds(b@, start as int, end as int, t) ==> read_so_far(b@, pos as int, end as int, t, index_view(index@)),
        decreases end - pos,
    {
        let ghost iv = index_view(index@);
        proof {
            assert forall|t: Seq<IndexView>| #[trigger] region_holds(b@, start as int, end as int, t) implies entry_here(b@, pos as int, end as int, t[iv.len() as int]) by {
                lemma_parse_step(b@, pos as int, end as int, t, iv);
            }
        }
        let parsed = parse_index_entry(b, pos, end);
        match parsed {
            None => {
                return None;
            },
            Some((e, p)) => {
                let n = index.len();
                if n > 0 && index[n - 1].field_id >= e.field_id {
                    proof {
                        assert forall|t: Seq<IndexView>| #[trigger] region_holds(b@, start as int, end as int, t) implies false by {
                            lemma_parse_step(b@, pos as int, end as int, t, iv);
                            assert(iv.last() == index@[n - 1]@);
                        }
                    }
                    return None;
                }
                let ghost ev = e@;
                index.push(e);
                proof {
                    let niv = index_view(index@);
                    assert(niv =~= iv.push(ev));
                    assert(niv.drop_last() =~= iv);
                    if n > 0 {
                        assert(iv.last() == index@[n - 1]@);
                    }
                    assert(b@.subrange(start as int, p as int) =~= b@.subrange(start as int, pos as int) + b@.subrange(pos as int, p as int));
                    assert forall|t: Seq<IndexView>| #[trigger] region_holds(b@, start as int, end as int, t) implies read_so_far(b@, p as int, end as int, t, niv) by {
                        lemma_parse_step(b@, pos as int, end as int, t, iv);
                        assert(niv =~= t.subrange(0, niv.len() as int));
                    }
                }
                pos = p;
            },
        }
    }
    proof {
        assert forall|t: Seq<IndexView>| #[trigger] region_holds(b@, start as int, end as int, t) implies index_view(index@) == t by {
            lemma_parse_done(b@, end as int, t, index_view(index@));
        }
    }
    Some(index)
}

/// A TSM file image opened for reading.
pub struct TsmReader {
    bytes: Vec<u8>,
    index: Vec<IndexEntry>,
    bloom: BloomFilter,
}

impl TsmReader {
    pub closed spec fn image(&self) -> Seq<u8> {
        self.bytes@
    }

    pub closed spec fn index(&self) -> Seq<IndexView> {
        index_view(self.index@)
    }

    pub closed spec fn bloom(&self) -> BloomFilter {
        self.bloom
    }

    pub closed spec fn wf(&self) -> bool {
        &&& file_well_formed(self.bytes@, index_view(self.index@))
        &&& self.bloom.wf()
    }

    /// What `wf` gives: the image is a well-formed file with this index.
    pub proof fn lemma_wf(&self)
        requires
            self.wf(),
        ensures
            file_well_formed(self.image(), self.index()),
            index_wf(self.index()),
            self.bloom().wf(),
    {
    }

    /// Opens a file image: checks its header, reads its footer and its index.
    /// Succeeds exactly on the images of well-formed files.
    pub fn open(bytes: Vec<u8>) -> (r: Result<TsmReader, ReadTsmError>)
        ensures
            r matches Ok(rd) ==> rd.wf() && rd.image() == bytes@ && rd.bloom().bits() == bytes@.subrange(bytes@.len() - FOOTER_LEN, bytes@.len() - 8),
            (exists|t: Seq<IndexView>| file_well_formed(bytes@, t)) ==> r is Ok,
    {
        let len = bytes.len();
        if len < HEADER_LEN as usize + FOOTER_LEN {
            return Err(ReadTsmError::UnexpectedEof);
        }
        let b = bytes.as_slice();
        let magic = get_u32(b, 0);
        if magic != TSM_MAGIC || b[4] != TSM_VERSION {
            proof {
                assert forall|t: Seq<IndexView>| !file_well_formed(bytes@, t) by {
                    if file_well_formed(bytes@, t) {
                        assert(bytes@.subrange(0, 4) =~= bytes@.subrange(0, 5).subrange(0, 4));
                        assert(header_bytes().subrange(0, 4) =~= be32(TSM_MAGIC));
                        lemma_u32_round_trip(TSM_MAGIC);
                        assert(bytes@[4] == bytes@.subrange(0, 5)[4]);
                    }
                }
            }
            return Err(ReadTsmError::Decode);
        }
        let index_offset = get_u64(b, len - 8);
        let end = len - FOOTER_LEN;
        if index_offset < HEADER_LEN || index_offset > end as u64 {
            return Err(ReadTsmError::Decode);
        }
        let start = index_offset as usize;
        let parsed = parse_index(b, start, end);
        proof {
            assert(b@ == bytes@);
            assert(index_offset == index_offset_of(bytes@));
            assert forall|t: Seq<IndexView>| file_well_formed(bytes@, t) implies #[trigger] region_holds(b@, start as int, end as int, t) by {}
            if exists|t: Seq<IndexView>| file_well_formed(bytes@, t) {
                let t = choose|t: Seq<IndexView>| file_well_formed(bytes@, t);
                assert(region_holds(b@, start as int, end as int, t));
            }
        }
        let index = match parsed {
            None => {
                return Err(ReadTsmError::UnexpectedEof);
            },
            Some(index) => index,
        };
        proof {
            let iv = index_view(index@);
            lemma_u32_bytes_round_trip(bytes@.subrange(0, 4));
            assert(bytes@.subrange(0, 4) =~= be32(magic));
            assert(bytes@.subrange(0, 5) =~= header_bytes());
            assert(file_well_formed(bytes@, iv));
        }
        let mut bloom_bytes: Vec<u8> = Vec::new();
        let mut k: usize = end;
        while k < len - 8
            invariant
                b@ == bytes@,
                len == bytes@.len(),
                end == len - FOOTER_LEN,
                end <= k <= len - 8,
                bloom_bytes@ == bytes@.subrange(end as int, k as int),
            decreases len - 8 - k,
        {
            bloom_bytes.push(b[k]);
            k += 1;
            proof {
                assert(bloom_bytes@ =~= bytes@.subrange(end as int, k as int));
            }
        }
        let bloom = BloomFilter::from_bytes(bloom_bytes);
        Ok(TsmReader { bytes, index, bloom })
    }
}

/// The block that `meta` points at lies inside `b`, with room for both CRCs.
pub open spec fn block_in_bounds(b: Seq<u8>, meta: BlockMeta) -> bool {
    &&& meta.offset + meta.size <= b.len()
    &&& meta.offset + 4 <= meta.val_offset
    &&& meta.val_offset + 4 <= meta.offset + meta.size
}

/// Both columns hold exactly `count` values of eight bytes.
pub open spec fn block_sizes_match(meta: BlockMeta) -> bool {
    &&& meta.val_offset - meta.offset - 4 == 8 * meta.count
    &&& meta.offset + meta.size - meta.val_offset - 4 == 8 * meta.count
}

/// Both stored CRCs are those of the bytes they cover.
pub open spec fn block_crcs_match(b: Seq<u8>, meta: BlockMeta) -> bool {
    let o = meta.offset as int;
    let v = meta.val_offset as int;
    let e = (meta.offset + meta.size) as int;
    &&& u32_of(b.subrange(o, o + 4)) == crc32_of(b.subrange(o + 4, v))
    &&& u32_of(b.subrange(v, v + 4)) == crc32_of(b.subrange(v + 4, e))
}

pub open spec fn block_ts(b: Seq<u8>, meta: BlockMeta) -> Seq<i64> {
    dec_ts(b, meta.offset + 4, meta.count as int)
}

pub open spec fn block_vals(b: Seq<u8>, meta: BlockMeta) -> Seq<u64> {
    dec_vals(b, meta.val_offset + 4, meta.count as int)
}

/// What reading the block that `meta` points at in `b` gives.
pub open spec fn read_outcome(b: Seq<u8>, meta: BlockMeta, r: Result<DataBlock, ReadTsmError>) -> bool {
    &&& (!block_in_bounds(b, meta) ==> r == Err::<DataBlock, ReadTsmError>(ReadTsmError::UnexpectedEof))
    &&& (block_in_bounds(b, meta) && !block_sizes_match(meta) ==> r == Err::<DataBlock, ReadTsmError>(ReadTsmError::Decode))
    &&& (block_in_bounds(b, meta) && block_sizes_match(meta) && !block_crcs_match(b, meta) ==> r == Err::<DataBlock, ReadTsmError>(ReadTsmError::CrcMismatch))
    &&& (block_in_bounds(b, meta) && block_sizes_match(meta) && block_crcs_match(b, meta) ==> {
            let ts = block_ts(b, meta);
            &&& !strictly_ascending(ts) ==> r == Err::<DataBlock, ReadTsmError>(ReadTsmError::Decode)
            &&& strictly_ascending(ts) ==> (r matches Ok(blk) && blk.wf() && blk.field_type == meta.field_type && blk.ts@ == ts && blk.val@ == block_vals(b, meta))
        })
}

/// Reads the block that `meta` points at in `b`: fails with `UnexpectedEof`
/// where it does not lie inside `b`, with `Decode` where its columns are
/// not `count` values long, with `CrcMismatch` where a stored CRC is not
/// that of its bytes, and with `Decode` where its timestamps do not ascend.
pub fn read_block(b: &[u8], meta: &BlockMeta) -> (r: Result<DataBlock, ReadTsmError>)
    ensures
        read_outcome(b@, *meta, r),
{
    let len = b.len() as u64;
    if meta.offset > len || meta.size > len - meta.offset || meta.val_offset < meta.offset
        || meta.val_offset - meta.offset < 4 || meta.val_offset > meta.offset + meta.size
        || meta.offset + meta.size - meta.val_offset < 4 {
        return Err(ReadTsmError::UnexpectedEof);
    }
    let o = meta.offset as usize;
    let v = meta.val_offset as usize;
    let e = (meta.offset + meta.size) as usize;
    let n = meta.count as u64;
    if (v - o - 4) as u64 != 8 * n || (e - v - 4) as u64 != 8 * n {
        return Err(ReadTsmError::Decode);
    }
    let ts_crc = get_u32(b, o);
    let val_crc = get_u32(b, v);
    let ts_bytes = slice_of(b, o + 4, v);
    let val_bytes = slice_of(b, v + 4, e);
    if crc32(ts_bytes.as_slice()) != ts_crc || crc32(val_bytes.as_slice()) != val_crc {
        return Err(ReadTsmError::CrcMismatch);
    }
    let ts = decode_ts(b, o + 4, meta.count as usize);
    let val = decode_vals(b, v + 4, meta.count as usize);
    if !is_strictly_ascending(&ts) {
        return Err(ReadTsmError::Decode);
    }
    Ok(DataBlock { field_type: meta.field_type, ts, val })
}

/// Whether the timestamps strictly ascend.
pub fn is_strictly_ascending(ts: &Vec<i64>) -> (r: bool)
    ensures
        r == strictly_ascending(ts@),
{
    let mut i: usize = 1;
    while i < ts.len()
        invariant
            1 <= i,
            ts@.len() >= 1 ==> i <= ts@.len(),
            forall|p: int, q: int| 0 <= p < q < i && q < ts@.len() ==> ts@[p] < ts@[q],
        decreases ts@.len() - i,
    {
        if ts[i - 1] >= ts[i] {
            return false;
        }
        proof {
            assert forall|p: int, q: int| 0 <= p < q < i + 1 && q < ts@.len() implies ts@[p] < ts@[q] by {
                if q == i && p < i - 1 {
                    assert(ts@[p] < ts@[i - 1]);
                }
            }
        }
        i += 1;
    }
    true
}

/// The bytes of `b` from `from` to `to`.
fn slice_of(b: &[u8], from: usize, to: usize) -> (r: Vec<u8>)
    requires
        from <= to <= b@.len(),
    ensures
        r@ == b@.subrange(from as int, to as int),
{
    let mut r: Vec<u8> = Vec::new();
    let mut k: usize = from;
    while k < to
        invariant
            from <= k <= to <= b@.len(),
            r@ == b@.subrange(from as int, k as int),
        decreases to - k,
    {
        r.push(b[k]);
        k += 1;
        proof {
            assert(r@ =~= b@.subrange(from as int, k as int));
        }
    }
    r
}

impl TsmReader {
    /// The entries of the index, per field id ascending.
    pub fn index_entries(&self) -> (r: &Vec<IndexEntry>)
        ensures
            index_view(r@) == self.index(),
    {
        &self.index
    }

    pub fn bloom_filter(&self) -> (r: BloomFilter)
        ensures
            r.bits() == self.bloom().bits(),
    {
        self.bloom.copy()
    }

    /// The meta of each block of entry `i`, in stored order.
    pub fn block_metas(&self, i: usize) -> (r: Vec<BlockMeta>)
        requires
            i < self.index().len(),
        ensures
            r@.len() == self.index()[i as int].2.len(),
            forall|k: int| 0 <= k < r@.len() ==> {
                &&& (#[trigger] r@[k]).field_id == self.index()[i as int].0
                &&& r@[k].field_type == self.index()[i as int].1
                &&& r@[k].entry() == self.index()[i as int].2[k]
            },
    {
        let e = &self.index[i];
        assert(self.index()[i as int] == e@);
        let mut r: Vec<BlockMeta> = Vec::new();
        let mut k: usize = 0;
        while k < e.blocks.len()
            invariant
                k <= e.blocks@.len(),
                r@.len() == k,
                forall|q: int| 0 <= q < k ==> {
                    &&& (#[trigger] r@[q]).field_id == e.field_id
                    &&& r@[q].field_type == e.field_type
                    &&& r@[q].entry() == e.blocks@[q]
                },
            decreases e.blocks@.len() - k,
        {
            let be = e.blocks[k];
            r.push(BlockMeta {
                field_id: e.field_id,
                field_type: e.field_type,
                min_ts: be.min_ts,
                max_ts: be.max_ts,
                count: be.count,
                offset: be.offset,
                size: be.size,
                val_offset: be.val_offset,
            });
            k += 1;
        }
        r
    }

    /// Reads the block that `meta` points at, as [`read_block`] does on the image.
    pub fn get_data_block(&self, meta: &BlockMeta) -> (r: Result<DataBlock, ReadTsmError>)
        ensures
            read_outcome(self.image(), *meta, r),
    {
        read_block(self.bytes.as_slice(), meta)
    }
}

/// A block written as `block_bytes(ts, val)` at the offset its entry
/// records reads back as the same columns, both CRCs matching.
#[verifier::rlimit(40)]
#[verifier::spinoff_prover]
pub proof fn lemma_block_read_back(b: Seq<u8>, meta: BlockMeta, ts: Seq<i64>, val: Seq<u64>)
    requires
        0 < ts.len() <= MAX_BLOCK_VALUES,
        ts.len() == val.len(),
        meta.entry() == entry_at(ts, meta.offset),
        meta.offset + 8 + 16 * ts.len() <= b.len() <= MAX_TSM_BYTES,
        b.subrange(meta.offset as int, meta.offset + meta.size) == block_bytes(ts, val),
    ensures
        block_in_bounds(b, meta),
        block_sizes_match(meta),
        block_crcs_match(b, meta),
        block_ts(b, meta) == ts,
        block_vals(b, meta) == val,
{
    let n = ts.len() as int;
    let o = meta.offset as int;
    let v = meta.val_offset as int;
    let e = o + meta.size;
    lemma_enc_ts(ts);
    lemma_enc_vals(val);
    assert(v == o + 4 + 8 * n);
    assert(e == o + 8 + 16 * n);
    let whole = b.subrange(o, e);
    let c1 = be32(crc32_of(enc_ts(ts)));
    let c2 = be32(crc32_of(enc_vals(val)));
    assert(whole == c1 + enc_ts(ts) + c2 + enc_vals(val));
    assert(b.subrange(o, o + 4) =~= whole.subrange(0, 4));
    assert(whole.subrange(0, 4) =~= c1);
    assert(b.subrange(o + 4, v) =~= whole.subrange(4, 4 + 8 * n));
    assert(whole.subrange(4, 4 + 8 * n) =~= enc_ts(ts));
    assert(b.subrange(v, v + 4) =~= whole.subrange(4 + 8 * n, 8 + 8 * n));
    assert(whole.subrange(4 + 8 * n, 8 + 8 * n) =~= c2);
    assert(b.subrange(v + 4, e) =~= whole.subrange(8 + 8 * n, 8 + 16 * n));
    assert(whole.subrange(8 + 8 * n, 8 + 16 * n) =~= enc_vals(val));
    lemma_u32_round_trip(crc32_of(enc_ts(ts)));
    lemma_u32_round_trip(crc32_of(enc_vals(val)));
    lemma_ts_round_trip(b, o + 4, ts);
    lemma_vals_round_trip(b, v + 4, val);
}

/// The image of a writer after `write_index` is a well-formed file whose
/// index is the writer's index.
pub proof fn lemma_written_file(w: TsmWriter, image: Seq<u8>)
    requires
        w.wf(),
        image == w.image() + enc_index(w.index()) + w.bloom().bits() + be64(w.image().len() as u64),
    ensures
        file_well_formed(image, w.index()),
{
    w.lemma_wf();
    let len = w.image().len();
    let ei = enc_index(w.index());
    let bl = w.bloom().bits();
    assert(bl.len() == BLOOM_FILTER_BYTES);
    lemma_u64_round_trip(len as u64);
    assert(image.subrange(image.len() - 8, image.len() as int) =~= be64(len as u64));
    assert(image.subrange(0, 5) =~= w.image().subrange(0, 5));
    assert(image.subrange(len as int, image.len() - FOOTER_LEN) =~= ei);
}

/// Reading back a written file gives the index that was written: per field
/// id, the blocks in the order they were written.
pub proof fn lemma_read_back_index(w: TsmWriter, rd: TsmReader)
    requires
        w.wf(),
        rd.wf(),
        rd.image() == w.image() + enc_index(w.index()) + w.bloom().bits() + be64(w.image().len() as u64),
    ensures
        rd.index() == w.index(),
{
    lemma_written_file(w, rd.image());
    lemma_index_unique(rd.image(), rd.index(), w.index());
}

/// The block at entry `e` of field `fid` in `img` reads whole, and its
/// points are `pts`.
pub open spec fn entry_reads_as(img: Seq<u8>, fid: u64, e: BlockEntry, pts: Map<i64, u64>) -> bool {
    let m = BlockMeta {
        field_id: fid,
        field_type: 0,
        min_ts: e.min_ts,
        max_ts: e.max_ts,
        count: e.count,
        offset: e.offset,
        size: e.size,
        val_offset: e.val_offset,
    };
    &&& block_in_bounds(img, m)
    &&& block_sizes_match(m)
    &&& block_crcs_match(img, m)
    &&& strictly_ascending(block_ts(img, m))
    &&& crate::block::points(block_ts(img, m), block_vals(img, m)) == pts
}

/// Every block that `write_block` wrote reads back from the writer's image,
/// at an entry its index keeps for the block's field, with the same points;
/// also after `write_index` and `finish`.
pub proof fn lemma_written_reads_back(w: TsmWriter, j: int)
    requires
        w.wf(),
        0 <= j < w.written().len(),
    ensures
        exists|k: int| 0 <= k < blocks_of(w.index(), w.written()[j].0).len()
            && #[trigger] entry_reads_as(w.image(), w.written()[j].0, blocks_of(w.index(), w.written()[j].0)[k], w.written()[j].1),
{
    w.lemma_wf();
    let fid = w.written()[j].0;
    let pts = w.written()[j].1;
    assert(holds_block(w.image(), w.index(), fid, pts));
    let es = blocks_of(w.index(), fid);
    let (k, ts, val) = choose|k: int, ts: Seq<i64>, val: Seq<u64>| #[trigger] block_at(w.image(), es, k, ts, val) && crate::block::points(ts, val) == pts;
    let e = es[k];
    let m = BlockMeta {
        field_id: fid,
        field_type: 0,
        min_ts: e.min_ts,
        max_ts: e.max_ts,
        count: e.count,
        offset: e.offset,
        size: e.size,
        val_offset: e.val_offset,
    };
    assert(m.entry() == e);
    lemma_block_read_back(w.image(), m, ts, val);
    assert(entry_reads_as(w.image(), fid, es[k], pts));
}

} // verus!
