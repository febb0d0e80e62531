//! The byte form of manifest records: every integer big-endian, each flag
//! one byte (0 or 1), each list and the owner name after an eight-byte
//! length; and the framing of a run of records, each after a four-byte
//! length.

use vstd::prelude::*;
use vstd::utf8::{decode_utf8, encode_utf8, valid_utf8};
use crate::bytes::{be32, be64, be_i64, bool_byte, get_i64, get_u32, get_u64, lemma_i64_bytes_round_trip, lemma_i64_round_trip, lemma_u32_bytes_round_trip, lemma_u32_round_trip, lemma_u64_bytes_round_trip, lemma_u64_round_trip, put_bool, put_i64, put_u32, put_u64, u32_of};
use crate::summary::{empty_edit, CompactMeta, EditView, VersionEdit};

verus! {

broadcast use {vstd::utf8::encode_utf8_valid_utf8, vstd::utf8::encode_utf8_decode_utf8, vstd::utf8::decode_utf8_encode_utf8};

/// Bytes of one file summary.
pub const META_BYTES: usize = 57;

/// Why bytes are not a record.
#[derive(Clone, Copy, Debug, PartialEq, Eq, Structural)]
pub enum CodecError {
    /// The bytes end before the record does.
    Truncated,
    /// A flag byte is neither 0 nor 1.
    BadFlag,
    /// The owner name is not UTF-8.
    BadName,
    /// Bytes are left after the record.
    TrailingBytes,
    /// A record is longer than a four-byte length can frame.
    TooLong,
    /// A frame does not carry the data version and type of a manifest record.
    BadTag,
}

pub open spec fn enc_meta(m: CompactMeta) -> Seq<u8> {
    be64(m.file_id) + be64(m.file_size) + be32(m.tsf_id) + be32(m.level) + be_i64(m.min_ts) + be_i64(m.max_ts)
        + be64(m.high_seq) + be64(m.low_seq) + seq![bool_byte(m.is_delta)]
}

pub open spec fn enc_metas(s: Seq<CompactMeta>) -> Seq<u8>
    decreases s.len(),
{
    if s.len() == 0 {
        Seq::empty()
    } else {
        enc_metas(s.drop_last()) + enc_meta(s.last())
    }
}

/// The first bytes of a record: both flags with their numbers, the level
/// bound and the count of files added.
pub open spec fn enc_head(v: EditView) -> Seq<u8> {
    seq![bool_byte(v.has_seq_no)] + be64(v.seq_no) + seq![bool_byte(v.has_file_id)] + be64(v.file_id)
        + be_i64(v.max_level_ts) + be64(v.add_files.len() as u64)
}

/// The bytes after the lists: the vnode flags, its id and the name length.
pub open spec fn enc_tail(v: EditView) -> Seq<u8> {
    seq![bool_byte(v.del_tsf)] + seq![bool_byte(v.add_tsf)] + be32(v.tsf_id) + be64(encode_utf8(v.tsf_name).len() as u64)
}

/// The bytes of a record.
#[verifier::opaque]
pub open spec fn enc_edit(v: EditView) -> Seq<u8> {
    enc_head(v) + enc_metas(v.add_files) + be64(v.del_files.len() as u64) + enc_metas(v.del_files) + enc_tail(v)
        + encode_utf8(v.tsf_name)
}

/// A record whose lists and name have lengths that eight bytes can hold.
pub open spec fn edit_fits(v: EditView) -> bool {
    &&& v.add_files.len() <= u64::MAX
    &&& v.del_files.len() <= u64::MAX
    &&& encode_utf8(v.tsf_name).len() <= u64::MAX
}

proof fn lemma_enc_metas(s: Seq<CompactMeta>)
    ensures
        enc_metas(s).len() == 57 * s.len(),
        forall|k: int| 0 <= k < s.len() ==> enc_metas(s).subrange(57 * k, 57 * k + 57) == enc_meta(#[trigger] s[k]),
    decreases s.len(),
{
    if s.len() > 0 {
        let p = s.drop_last();
        lemma_enc_metas(p);
        assert forall|k: int| 0 <= k < s.len() implies enc_metas(s).subrange(57 * k, 57 * k + 57) == enc_meta(#[trigger] s[k]) by {
            if k < p.len() {
                assert(enc_metas(s).subrange(57 * k, 57 * k + 57) =~= enc_metas(p).subrange(57 * k, 57 * k + 57));
                assert(p[k] == s[k]);
            } else {
                assert(enc_metas(s).subrange(57 * k, 57 * k + 57) =~= enc_meta(s.last()));
            }
        }
    }
}

proof fn lemma_meta_injective(a: CompactMeta, b: CompactMeta)
    requires
        enc_meta(a) == enc_meta(b),
    ensures
        a == b,
{
    let x = enc_meta(a);
    let y = enc_meta(b);
    assert(x.subrange(0, 8) =~= be64(a.file_id) && y.subrange(0, 8) =~= be64(b.file_id));
    assert(x.subrange(8, 16) =~= be64(a.file_size) && y.subrange(8, 16) =~= be64(b.file_size));
    assert(x.subrange(16, 20) =~= be32(a.tsf_id) && y.subrange(16, 20) =~= be32(b.tsf_id));
    assert(x.subrange(20, 24) =~= be32(a.level) && y.subrange(20, 24) =~= be32(b.level));
    assert(x.subrange(24, 32) =~= be_i64(a.min_ts) && y.subrange(24, 32) =~= be_i64(b.min_ts));
    assert(x.subrange(32, 40) =~= be_i64(a.max_ts) && y.subrange(32, 40) =~= be_i64(b.max_ts));
    assert(x.subrange(40, 48) =~= be64(a.high_seq) && y.subrange(40, 48) =~= be64(b.high_seq));
    assert(x.subrange(48, 56) =~= be64(a.low_seq) && y.subrange(48, 56) =~= be64(b.low_seq));
    assert(x[56] == bool_byte(a.is_delta) && y[56] == bool_byte(b.is_delta));
    lemma_u64_round_trip(a.file_id);
    lemma_u64_round_trip(b.file_id);
    lemma_u64_round_trip(a.file_size);
    lemma_u64_round_trip(b.file_size);
    lemma_u32_round_trip(a.tsf_id);
    lemma_u32_round_trip(b.tsf_id);
    lemma_u32_round_trip(a.level);
    lemma_u32_round_trip(b.level);
    lemma_i64_round_trip(a.min_ts);
    lemma_i64_round_trip(b.min_ts);
    lemma_i64_round_trip(a.max_ts);
    lemma_i64_round_trip(b.max_ts);
    lemma_u64_round_trip(a.high_seq);
    lemma_u64_round_trip(b.high_seq);
    lemma_u64_round_trip(a.low_seq);
    lemma_u64_round_trip(b.low_seq);
}

proof fn lemma_metas_injective(a: Seq<CompactMeta>, b: Seq<CompactMeta>)
    requires
        a.len() == b.len(),
        enc_metas(a) == enc_metas(b),
    ensures
        a == b,
{
    lemma_enc_metas(a);
    lemma_enc_metas(b);
    assert forall|k: int| 0 <= k < a.len() implies a[k] == b[k] by {
        lemma_meta_injective(a[k], b[k]);
    }
    assert(a =~= b);
}

fn put_meta(buf: &mut Vec<u8>, m: &CompactMeta)
    ensures
        final(buf)@ == old(buf)@ + enc_meta(*m),
{
    let ghost before = buf@;
    put_u64(buf, m.file_id);
    put_u64(buf, m.file_size);
    put_u32(buf, m.tsf_id);
    put_u32(buf, m.level);
    put_i64(buf, m.min_ts);
    put_i64(buf, m.max_ts);
    put_u64(buf, m.high_seq);
    put_u64(buf, m.low_seq);
    put_bool(buf, m.is_delta);
    assert(buf@ =~= before + enc_meta(*m));
}

fn put_metas(buf: &mut Vec<u8>, s: &Vec<CompactMeta>)
    ensures
        final(buf)@ == old(buf)@ + be64(s@.len() as u64) + enc_metas(s@),
{
    put_u64(buf, s.len() as u64);
    let ghost head = buf@;
    let mut i: usize = 0;
    while i < s.len()
        invariant
            i <= s@.len(),
            buf@ == head + enc_metas(s@.subrange(0, i as int)),
        decreases s@.len() - i,
    {
        proof {
            assert(s@.subrange(0, i + 1).drop_last() =~= s@.subrange(0, i as int));
        }
        put_meta(buf, &s[i]);
        i += 1;
        proof {
            assert(buf@ =~= head + enc_metas(s@.subrange(0, i as int)));
        }
    }
    assert(s@.subrange(0, s@.len() as int) =~= s@);
}

fn parse_meta(b: &[u8], pos: usize) -> (r: Option<CompactMeta>)
    requires
        pos + 57 <= b@.len(),
    ensures
        r matches Some(m) ==> b@.subrange(pos as int, pos + 57) == enc_meta(m),
        r is None ==> b@[pos + 56] > 1,
{
    let _n = b.len();
    let flag = b[pos + 56];
    if flag > 1 {
        return None;
    }
    let m = CompactMeta {
        file_id: get_u64(b, pos),
        file_size: get_u64(b, pos + 8),
        tsf_id: get_u32(b, pos + 16),
        level: get_u32(b, pos + 20),
        min_ts: get_i64(b, pos + 24),
        max_ts: get_i64(b, pos + 32),
        high_seq: get_u64(b, pos + 40),
        low_seq: get_u64(b, pos + 48),
        is_delta: flag == 1,
    };
    proof {
        let s = b@;
        let q = pos as int;
        lemma_u64_bytes_round_trip(s.subrange(q, q + 8));
        lemma_u64_bytes_round_trip(s.subrange(q + 8, q + 16));
        lemma_u32_bytes_round_trip(s.subrange(q + 16, q + 20));
        lemma_u32_bytes_round_trip(s.subrange(q + 20, q + 24));
        lemma_i64_bytes_round_trip(s.subrange(q + 24, q + 32));
        lemma_i64_bytes_round_trip(s.subrange(q + 32, q + 40));
        lemma_u64_bytes_round_trip(s.subrange(q + 40, q + 48));
        lemma_u64_bytes_round_trip(s.subrange(q + 48, q + 56));
        assert(s.subrange(q, q + 57) =~= enc_meta(m));
    }
    Some(m)
}

/// Reads `n` file summaries at `pos`.
fn parse_metas(b: &[u8], pos: usize, n: usize) -> (r: Option<Vec<CompactMeta>>)
    requires
        pos + 57 * n <= b@.len(),
    ensures
        r matches Some(s) ==> s@.len() == n && b@.subrange(pos as int, pos + 57 * n) == enc_metas(s@),
        forall|s: Seq<CompactMeta>| s.len() == n && #[trigger] b@.subrange(pos as int, pos + 57 * n) == enc_metas(s) ==> (r matches Some(x) && x@ == s),
{
    let blen = b.len();
    let mut out: Vec<CompactMeta> = Vec::new();
    let mut q: usize = pos;
    let mut k: usize = 0;
    proof {
        assert(b@.subrange(pos as int, q as int) =~= enc_metas(out@));
    }
    while k < n
        invariant
            k <= n,
            q == pos + 57 * k,
            pos + 57 * n <= b@.len(),
            b@.len() == blen,
            out@.len() == k,
            b@.subrange(pos as int, q as int) == enc_metas(out@),
        decreases n - k,
    {
        let m = parse_meta(b, q);
        match m {
            None => {
                proof {
                    assert forall|s: Seq<CompactMeta>| s.len() == n && #[trigger] b@.subrange(pos as int, pos + 57 * n) == enc_metas(s) implies false by {
                        lemma_enc_metas(s);
                        let w = b@.subrange(pos as int, pos + 57 * n);
                        assert(b@[q + 56] == w[57 * k + 56]);
                        assert(w.subrange(57 * k, 57 * k + 57)[56] == w[57 * k + 56]);
                        assert(enc_meta(s[k as int])[56] == bool_byte(s[k as int].is_delta));
                    }
                }
                return None;
            },
            Some(m) => {
                let ghost before = out@;
                out.push(m);
                proof {
                    assert(out@.drop_last() =~= before);
                    assert(b@.subrange(pos as int, q + 57) =~= b@.subrange(pos as int, q as int) + b@.subrange(q as int, q + 57));
                }
                q = q + 57;
                k = k + 1;
            },
        }
    }
    proof {
        assert forall|s: Seq<CompactMeta>| s.len() == n && #[trigger] b@.subrange(pos as int, pos + 57 * n) == enc_metas(s) implies out@ == s by {
            lemma_metas_injective(out@, s);
        }
    }
    Some(out)
}

/// Relies on `String::from_utf8`: it succeeds exactly on valid UTF-8, and
/// then holds the characters those bytes encode.
#[verifier::external_body]
fn string_from_utf8(bytes: Vec<u8>) -> (r: Option<String>)
    ensures
        r is Some <==> valid_utf8(bytes@),
        r matches Some(s) ==> s@ == decode_utf8(bytes@),
{
    String::from_utf8(bytes).ok()
}

proof fn lemma_split(x: Seq<u8>, y: Seq<u8>)
    ensures
        (x + y).subrange(0, x.len() as int) == x,
        (x + y).subrange(x.len() as int, (x.len() + y.len()) as int) == y,
{
    assert((x + y).subrange(0, x.len() as int) =~= x);
    assert((x + y).subrange(x.len() as int, (x.len() + y.len()) as int) =~= y);
}

/// Where each part of a record's bytes lies.
#[verifier::opaque]
pub open spec fn edit_layout(b: Seq<u8>, v: EditView) -> bool {
    let a = v.add_files.len() as int;
    let d = v.del_files.len() as int;
    let nb = encode_utf8(v.tsf_name);
    let dels_at = 34 + 57 * a;
    let tail_pos = dels_at + 8 + 57 * d;
    &&& b.len() == tail_pos + 14 + nb.len()
    &&& b.subrange(0, 34) == enc_head(v)
    &&& b.subrange(34, dels_at) == enc_metas(v.add_files)
    &&& b.subrange(dels_at, dels_at + 8) == be64(d as u64)
    &&& b.subrange(dels_at + 8, tail_pos) == enc_metas(v.del_files)
    &&& b.subrange(tail_pos, tail_pos + 14) == enc_tail(v)
    &&& b.subrange(tail_pos + 14, b.len() as int) == nb
}

proof fn lemma_layout_parts(b: Seq<u8>, v: EditView)
    requires
        edit_layout(b, v),
    ensures
        ({
            let a = v.add_files.len() as int;
            let d = v.del_files.len() as int;
            let nb = encode_utf8(v.tsf_name);
            let dels_at = 34 + 57 * a;
            let tail_pos = dels_at + 8 + 57 * d;
            &&& b.len() == tail_pos + 14 + nb.len()
            &&& b.subrange(0, 34) == enc_head(v)
            &&& b.subrange(34, dels_at) == enc_metas(v.add_files)
            &&& b.subrange(dels_at, dels_at + 8) == be64(d as u64)
            &&& b.subrange(dels_at + 8, tail_pos) == enc_metas(v.del_files)
            &&& b.subrange(tail_pos, tail_pos + 14) == enc_tail(v)
            &&& b.subrange(tail_pos + 14, b.len() as int) == nb
        }),
{
    reveal(edit_layout);
    lemma_enc_metas(v.add_files);
    lemma_enc_metas(v.del_files);
}

proof fn lemma_layout_from_parts(b: Seq<u8>, v: EditView)
    requires
        ({
            let a = v.add_files.len() as int;
            let d = v.del_files.len() as int;
            let nb = encode_utf8(v.tsf_name);
            let dels_at = 34 + 57 * a;
            let tail_pos = dels_at + 8 + 57 * d;
            &&& b.len() == tail_pos + 14 + nb.len()
            &&& b.subrange(0, 34) == enc_head(v)
            &&& b.subrange(34, dels_at) == enc_metas(v.add_files)
            &&& b.subrange(dels_at, dels_at + 8) == be64(d as u64)
            &&& b.subrange(dels_at + 8, tail_pos) == enc_metas(v.del_files)
            &&& b.subrange(tail_pos, tail_pos + 14) == enc_tail(v)
            &&& b.subrange(tail_pos + 14, b.len() as int) == nb
        }),
    ensures
        edit_layout(b, v),
{
    reveal(edit_layout);
}

proof fn lemma_edit_shape(v: EditView)
    ensures
        edit_layout(enc_edit(v), v),
{
    reveal(edit_layout);
    reveal(enc_edit);
    lemma_enc_metas(v.add_files);
    lemma_enc_metas(v.del_files);
    let h = enc_head(v);
    let adds = enc_metas(v.add_files);
    let c = be64(v.del_files.len() as u64);
    let dels = enc_metas(v.del_files);
    let t = enc_tail(v);
    let nb = encode_utf8(v.tsf_name);
    let upto_adds = h + adds;
    let upto_count = upto_adds + c;
    let upto_dels = upto_count + dels;
    let upto_tail = upto_dels + t;
    let whole = upto_tail + nb;
    lemma_split(upto_tail, nb);
    lemma_split(upto_dels, t);
    lemma_split(upto_count, dels);
    lemma_split(upto_adds, c);
    lemma_split(h, adds);
    let e = enc_edit(v);
    assert(e == whole);
    assert(e.subrange(0, 34) =~= upto_adds.subrange(0, 34));
    assert(e.subrange(34, upto_adds.len() as int) =~= upto_adds.subrange(34, upto_adds.len() as int));
    assert(e.subrange(upto_adds.len() as int, upto_count.len() as int) =~= upto_count.subrange(upto_adds.len() as int, upto_count.len() as int));
    assert(e.subrange(upto_count.len() as int, upto_dels.len() as int) =~= upto_dels.subrange(upto_count.len() as int, upto_dels.len() as int));
    assert(e.subrange(upto_dels.len() as int, upto_tail.len() as int) =~= upto_tail.subrange(upto_dels.len() as int, upto_tail.len() as int));
}

/// The head's fields come back from its bytes.
proof fn lemma_head_injective(v: EditView, w: EditView)
    requires
        enc_head(v) == enc_head(w),
    ensures
        v.has_seq_no == w.has_seq_no,
        v.seq_no == w.seq_no,
        v.has_file_id == w.has_file_id,
        v.file_id == w.file_id,
        v.max_level_ts == w.max_level_ts,
        v.add_files.len() as u64 == w.add_files.len() as u64,
{
    let x = enc_head(v);
    let y = enc_head(w);
    assert(x.subrange(1, 9) =~= be64(v.seq_no) && y.subrange(1, 9) =~= be64(w.seq_no));
    assert(x.subrange(10, 18) =~= be64(v.file_id) && y.subrange(10, 18) =~= be64(w.file_id));
    assert(x.subrange(18, 26) =~= be_i64(v.max_level_ts) && y.subrange(18, 26) =~= be_i64(w.max_level_ts));
    assert(x.subrange(26, 34) =~= be64(v.add_files.len() as u64) && y.subrange(26, 34) =~= be64(w.add_files.len() as u64));
    assert(x[0] == bool_byte(v.has_seq_no) && y[0] == bool_byte(w.has_seq_no));
    assert(x[9] == bool_byte(v.has_file_id) && y[9] == bool_byte(w.has_file_id));
    lemma_u64_round_trip(v.seq_no);
    lemma_u64_round_trip(w.seq_no);
    lemma_u64_round_trip(v.file_id);
    lemma_u64_round_trip(w.file_id);
    lemma_i64_round_trip(v.max_level_ts);
    lemma_i64_round_trip(w.max_level_ts);
    lemma_u64_round_trip(v.add_files.len() as u64);
    lemma_u64_round_trip(w.add_files.len() as u64);
}

proof fn lemma_tail_injective(v: EditView, w: EditView)
    requires
        enc_tail(v) == enc_tail(w),
    ensures
        v.del_tsf == w.del_tsf,
        v.add_tsf == w.add_tsf,
        v.tsf_id == w.tsf_id,
        encode_utf8(v.tsf_name).len() as u64 == encode_utf8(w.tsf_name).len() as u64,
{
    let x = enc_tail(v);
    let y = enc_tail(w);
    assert(x.subrange(2, 6) =~= be32(v.tsf_id) && y.subrange(2, 6) =~= be32(w.tsf_id));
    assert(x.subrange(6, 14) =~= be64(encode_utf8(v.tsf_name).len() as u64) && y.subrange(6, 14) =~= be64(encode_utf8(w.tsf_name).len() as u64));
    assert(x[0] == bool_byte(v.del_tsf) && y[0] == bool_byte(w.del_tsf));
    assert(x[1] == bool_byte(v.add_tsf) && y[1] == bool_byte(w.add_tsf));
    lemma_u32_round_trip(v.tsf_id);
    lemma_u32_round_trip(w.tsf_id);
    lemma_u64_round_trip(encode_utf8(v.tsf_name).len() as u64);
    lemma_u64_round_trip(encode_utf8(w.tsf_name).len() as u64);
}

/// Copies the bytes of `b` from `from` to `to` after `buf`.
fn append_range(buf: &mut Vec<u8>, b: &[u8], from: usize, to: usize)
    requires
        from <= to <= b@.len(),
    ensures
        final(buf)@ == old(buf)@ + b@.subrange(from as int, to as int),
{
    let ghost head = buf@;
    let mut k: usize = from;
    while k < to
        invariant
            from <= k <= to <= b@.len(),
            buf@ == head + b@.subrange(from as int, k as int),
        decreases to - k,
    {
        buf.push(b[k]);
        k += 1;
        proof {
            assert(buf@ =~= head + b@.subrange(from as int, k as int));
        }
    }
}

impl VersionEdit {
    /// The bytes of this record.
    #[verifier::rlimit(30)]
    #[verifier::spinoff_prover]
    pub fn encode(&self) -> (r: Result<Vec<u8>, CodecError>)
        ensures
            r matches Ok(b) && b@ == enc_edit(self@),
    {
        let mut buf: Vec<u8> = Vec::new();
        put_bool(&mut buf, self.has_seq_no);
        put_u64(&mut buf, self.seq_no);
        put_bool(&mut buf, self.has_file_id);
        put_u64(&mut buf, self.file_id);
        put_i64(&mut buf, self.max_level_ts);
        put_metas(&mut buf, &self.add_files);
        put_metas(&mut buf, &self.del_files);
        put_bool(&mut buf, self.del_tsf);
        put_bool(&mut buf, self.add_tsf);
        put_u32(&mut buf, self.tsf_id);
        let name = self.tsf_name.as_str().as_bytes();
        put_u64(&mut buf, name.len() as u64);
        append_range(&mut buf, name, 0, name.len());
        proof {
            assert(name@.subrange(0, name@.len() as int) =~= name@);
            reveal(enc_edit);
            assert(buf@ =~= enc_edit(self@));
        }
        Ok(buf)
    }

    /// Reads a record: succeeds exactly on the bytes of a record, and gives
    /// that record.
    pub fn decode(buf: &[u8]) -> (r: Result<VersionEdit, CodecError>)
        ensures
            r matches Ok(e) ==> enc_edit(e@) == buf@,
            forall|v: EditView| edit_fits(v) && buf@ == #[trigger] enc_edit(v) ==> (r matches Ok(e) && e@ == v),
    {
        let r = decode_parts(buf);
        proof {
            assert forall|v: EditView| edit_fits(v) && buf@ == #[trigger] enc_edit(v) implies (r matches Ok(e) && e@ == v) by {
                lemma_edit_shape(v);
            }
            if r is Ok {
                let e = r->Ok_0;
                lemma_edit_shape(e@);
                lemma_layout_parts(buf@, e@);
                lemma_layout_parts(enc_edit(e@), e@);
                let b = buf@;
                let x = enc_edit(e@);
                assert(x.len() == b.len());
                let a = e@.add_files.len() as int;
                let d = e@.del_files.len() as int;
                let dels_at = 34 + 57 * a;
                let tail_pos = dels_at + 8 + 57 * d;
                assert forall|i: int| 0 <= i < b.len() implies x[i] == b[i] by {
                    if i < 34 {
                        assert(x.subrange(0, 34)[i] == b.subrange(0, 34)[i]);
                    } else if i < dels_at {
                        assert(x.subrange(34, dels_at)[i - 34] == b.subrange(34, dels_at)[i - 34]);
                    } else if i < dels_at + 8 {
                        assert(x.subrange(dels_at, dels_at + 8)[i - dels_at] == b.subrange(dels_at, dels_at + 8)[i - dels_at]);
                    } else if i < tail_pos {
                        assert(x.subrange(dels_at + 8, tail_pos)[i - dels_at - 8] == b.subrange(dels_at + 8, tail_pos)[i - dels_at - 8]);
                    } else if i < tail_pos + 14 {
                        assert(x.subrange(tail_pos, tail_pos + 14)[i - tail_pos] == b.subrange(tail_pos, tail_pos + 14)[i - tail_pos]);
                    } else {
                        assert(x.subrange(tail_pos + 14, x.len() as int)[i - tail_pos - 14] == b.subrange(tail_pos + 14, b.len() as int)[i - tail_pos - 14]);
                    }
                }
                assert(x =~= b);
            }
        }
        r
    }
}

/// The parts of a record before its tail, as read.
struct Front {
    has_seq_no: bool,
    seq_no: u64,
    has_file_id: bool,
    file_id: u64,
    max_level_ts: i64,
    adds: Vec<CompactMeta>,
    dels: Vec<CompactMeta>,
    tail_at: usize,
}

/// `f` holds the parts of `v` before its tail.
spec fn front_matches(f: Front, v: EditView) -> bool {
    &&& f.has_seq_no == v.has_seq_no
    &&& f.seq_no == v.seq_no
    &&& f.has_file_id == v.has_file_id
    &&& f.file_id == v.file_id
    &&& f.max_level_ts == v.max_level_ts
    &&& f.adds@ == v.add_files
    &&& f.dels@ == v.del_files
}

/// The bytes of `b` before `f.tail_at` are the parts `f` holds, and the
/// tail's fixed bytes follow.
spec fn front_laid_out(b: Seq<u8>, f: Front) -> bool {
    let a = f.adds@.len() as int;
    let d = f.dels@.len() as int;
    let dels_at = 34 + 57 * a;
    let tail_pos = dels_at + 8 + 57 * d;
    let v = EditView {
        has_seq_no: f.has_seq_no,
        seq_no: f.seq_no,
        has_file_id: f.has_file_id,
        file_id: f.file_id,
        max_level_ts: f.max_level_ts,
        add_files: f.adds@,
        del_files: f.dels@,
        del_tsf: false,
        add_tsf: false,
        tsf_id: 0,
        tsf_name: Seq::empty(),
    };
    &&& f.tail_at == tail_pos
    &&& tail_pos + 14 <= b.len()
    &&& b.subrange(0, 34) == enc_head(v)
    &&& b.subrange(34, dels_at) == enc_metas(v.add_files)
    &&& b.subrange(dels_at, dels_at + 8) == be64(d as u64)
    &&& b.subrange(dels_at + 8, tail_pos) == enc_metas(v.del_files)
}

#[verifier::rlimit(60)]
#[verifier::spinoff_prover]
fn decode_front(buf: &[u8]) -> (r: Result<Front, CodecError>)
    ensures
        r matches Ok(f) ==> front_laid_out(buf@, f),
        forall|v: EditView| edit_fits(v) && #[trigger] edit_layout(buf@, v) ==> (r matches Ok(f) && front_matches(f, v)),
{
    let len = buf.len();
    if len < 48 {
        proof {
            assert forall|v: EditView| edit_fits(v) && #[trigger] edit_layout(buf@, v) implies false by {
                lemma_layout_parts(buf@, v);
            }
        }
        return Err(CodecError::Truncated);
    }
    let f1 = buf[0];
    let f2 = buf[9];
    if f1 > 1 || f2 > 1 {
        proof {
            assert forall|v: EditView| edit_fits(v) && #[trigger] edit_layout(buf@, v) implies false by {
                lemma_layout_parts(buf@, v);
                assert(buf@[0] == buf@.subrange(0, 34)[0] && buf@[9] == buf@.subrange(0, 34)[9]);
                assert(enc_head(v)[0] == bool_byte(v.has_seq_no) && enc_head(v)[9] == bool_byte(v.has_file_id));
            }
        }
        return Err(CodecError::BadFlag);
    }
    let seq_no = get_u64(buf, 1);
    let file_id = get_u64(buf, 10);
    let max_level_ts = get_i64(buf, 18);
    let na = get_u64(buf, 26);
    let rem = len - 34;
    let ghost head = EditView {
        has_seq_no: f1 == 1,
        seq_no,
        has_file_id: f2 == 1,
        file_id,
        max_level_ts,
        add_files: Seq::new(na as nat, |i: int| CompactMeta::spec_default()),
        del_files: Seq::empty(),
        del_tsf: false,
        add_tsf: false,
        tsf_id: 0,
        tsf_name: Seq::empty(),
    };
    proof {
        let b = buf@;
        lemma_u64_bytes_round_trip(b.subrange(1, 9));
        lemma_u64_bytes_round_trip(b.subrange(10, 18));
        lemma_i64_bytes_round_trip(b.subrange(18, 26));
        lemma_u64_bytes_round_trip(b.subrange(26, 34));
        assert(b.subrange(0, 34) =~= enc_head(head));
        assert forall|v: EditView| edit_fits(v) && #[trigger] edit_layout(buf@, v) implies
            v.has_seq_no == (f1 == 1) && v.has_file_id == (f2 == 1) && v.seq_no == seq_no && v.file_id == file_id
            && v.max_level_ts == max_level_ts && v.add_files.len() == na as int by {
            lemma_layout_parts(buf@, v);
            lemma_head_injective(v, head);
        }
    }
    if na > (rem / 57) as u64 {
        proof {
            assert forall|v: EditView| edit_fits(v) && #[trigger] edit_layout(buf@, v) implies false by {
                lemma_layout_parts(buf@, v);
                let a = v.add_files.len() as int;
                assert(a <= rem as int / 57) by (nonlinear_arith)
                    requires
                        57 * a <= rem as int,
                        0 <= a,
                ;
            }
        }
        return Err(CodecError::Truncated);
    }
    let a = na as usize;
    proof {
        assert(57 * (a as int) <= rem as int) by (nonlinear_arith)
            requires
                a as int <= rem as int / 57,
                0 <= a,
        ;
    }
    let dels_at = 34 + 57 * a;
    let adds = match parse_metas(buf, 34, a) {
        None => {
            proof {
                assert forall|v: EditView| edit_fits(v) && #[trigger] edit_layout(buf@, v) implies false by {
                    lemma_layout_parts(buf@, v);
                    assert(buf@.subrange(34, 34 + 57 * a) == enc_metas(v.add_files));
                }
            }
            return Err(CodecError::BadFlag);
        },
        Some(adds) => adds,
    };
    proof {
        assert forall|v: EditView| edit_fits(v) && #[trigger] edit_layout(buf@, v) implies v.add_files == adds@ by {
            lemma_layout_parts(buf@, v);
            assert(buf@.subrange(34, 34 + 57 * a) == enc_metas(v.add_files));
        }
    }
    if len - dels_at < 22 {
        proof {
            assert forall|v: EditView| edit_fits(v) && #[trigger] edit_layout(buf@, v) implies false by {
                lemma_layout_parts(buf@, v);
            }
        }
        return Err(CodecError::Truncated);
    }
    let nd = get_u64(buf, dels_at);
    proof {
        lemma_u64_bytes_round_trip(buf@.subrange(dels_at as int, dels_at + 8));
        assert forall|v: EditView| edit_fits(v) && #[trigger] edit_layout(buf@, v) implies v.del_files.len() == nd as int by {
            lemma_layout_parts(buf@, v);
            lemma_u64_round_trip(v.del_files.len() as u64);
        }
    }
    let rem2 = len - dels_at - 22;
    if nd > (rem2 / 57) as u64 {
        proof {
            assert forall|v: EditView| edit_fits(v) && #[trigger] edit_layout(buf@, v) implies false by {
                lemma_layout_parts(buf@, v);
                let d = v.del_files.len() as int;
                assert(d <= rem2 as int / 57) by (nonlinear_arith)
                    requires
                        57 * d <= rem2 as int,
                        0 <= d,
                ;
            }
        }
        return Err(CodecError::Truncated);
    }
    let d = nd as usize;
    proof {
        assert(57 * (d as int) <= rem2 as int) by (nonlinear_arith)
            requires
                d as int <= rem2 as int / 57,
                0 <= d,
        ;
    }
    let tail_pos = dels_at + 8 + 57 * d;
    let dels = match parse_metas(buf, dels_at + 8, d) {
        None => {
            proof {
                assert forall|v: EditView| edit_fits(v) && #[trigger] edit_layout(buf@, v) implies false by {
                    lemma_layout_parts(buf@, v);
                    assert(buf@.subrange(dels_at + 8, dels_at + 8 + 57 * d) == enc_metas(v.del_files));
                }
            }
            return Err(CodecError::BadFlag);
        },
        Some(dels) => dels,
    };
    proof {
        assert forall|v: EditView| edit_fits(v) && #[trigger] edit_layout(buf@, v) implies v.del_files == dels@ by {
            lemma_layout_parts(buf@, v);
            assert(buf@.subrange(dels_at + 8, dels_at + 8 + 57 * d) == enc_metas(v.del_files));
        }
    }
    let f = Front { has_seq_no: f1 == 1, seq_no, has_file_id: f2 == 1, file_id, max_level_ts, adds, dels, tail_at: tail_pos };
    proof {
        let b = buf@;
        assert(b.subrange(0, 34) =~= enc_head(EditView {
            has_seq_no: f.has_seq_no,
            seq_no: f.seq_no,
            has_file_id: f.has_file_id,
            file_id: f.file_id,
            max_level_ts: f.max_level_ts,
            add_files: f.adds@,
            del_files: f.dels@,
            del_tsf: false,
            add_tsf: false,
            tsf_id: 0,
            tsf_name: Seq::empty(),
        }));
    }
    Ok(f)
}

/// `b` from `at` on is the tail of `v` and its name.
spec fn tail_laid_out(b: Seq<u8>, at: int, v: EditView) -> bool {
    let nb = encode_utf8(v.tsf_name);
    &&& b.len() == at + 14 + nb.len()
    &&& b.subrange(at, at + 14) == enc_tail(v)
    &&& b.subrange(at + 14, b.len() as int) == nb
}

/// Reads the tail at `at` and the name after it, to the end of `buf`.
#[verifier::rlimit(40)]
#[verifier::spinoff_prover]
fn decode_tail(buf: &[u8], at: usize) -> (r: Result<(bool, bool, u32, String), CodecError>)
    requires
        at + 14 <= buf@.len(),
    ensures
        r matches Ok((dt, ad, id, name)) ==> tail_laid_out(buf@, at as int, EditView { del_tsf: dt, add_tsf: ad, tsf_id: id, tsf_name: name@, ..empty_edit(0) }),
        forall|v: EditView| #[trigger] tail_laid_out(buf@, at as int, v) ==> (r matches Ok((dt, ad, id, name)) && dt == v.del_tsf && ad == v.add_tsf && id == v.tsf_id && name@ == v.tsf_name),
{
    let len = buf.len();
    let g1 = buf[at];
    let g2 = buf[at + 1];
    if g1 > 1 || g2 > 1 {
        proof {
            assert forall|v: EditView| #[trigger] tail_laid_out(buf@, at as int, v) implies false by {
                assert(buf@[at as int] == buf@.subrange(at as int, at + 14)[0]);
                assert(buf@[at + 1] == buf@.subrange(at as int, at + 14)[1]);
                assert(enc_tail(v)[0] == bool_byte(v.del_tsf) && enc_tail(v)[1] == bool_byte(v.add_tsf));
            }
        }
        return Err(CodecError::BadFlag);
    }
    let tsf_id = get_u32(buf, at + 2);
    let nl = get_u64(buf, at + 6);
    let rem = len - at - 14;
    proof {
        let b = buf@;
        lemma_u32_bytes_round_trip(b.subrange(at + 2, at + 6));
        lemma_u64_bytes_round_trip(b.subrange(at + 6, at + 14));
    }
    if nl != rem as u64 {
        proof {
            assert forall|v: EditView| #[trigger] tail_laid_out(buf@, at as int, v) implies false by {
                let nb = encode_utf8(v.tsf_name);
                lemma_u64_round_trip(nb.len() as u64);
                assert(enc_tail(v).subrange(6, 14) =~= be64(nb.len() as u64));
                assert(buf@.subrange(at + 6, at + 14) =~= buf@.subrange(at as int, at + 14).subrange(6, 14));
            }
        }
        if nl > rem as u64 {
            return Err(CodecError::Truncated);
        }
        return Err(CodecError::TrailingBytes);
    }
    let mut name_bytes: Vec<u8> = Vec::new();
    append_range(&mut name_bytes, buf, at + 14, len);
    let ghost nb = name_bytes@;
    let name = match string_from_utf8(name_bytes) {
        None => {
            return Err(CodecError::BadName);
        },
        Some(s) => s,
    };
    proof {
        let w = EditView { del_tsf: g1 == 1, add_tsf: g2 == 1, tsf_id, tsf_name: name@, ..empty_edit(0) };
        assert(encode_utf8(name@) == nb);
        assert(buf@.subrange(at as int, at + 14) =~= enc_tail(w));
        assert forall|v: EditView| #[trigger] tail_laid_out(buf@, at as int, v) implies (g1 == 1) == v.del_tsf && (g2 == 1) == v.add_tsf && tsf_id == v.tsf_id && name@ == v.tsf_name by {
            lemma_tail_injective(v, w);
            assert(decode_utf8(encode_utf8(v.tsf_name)) == v.tsf_name);
        }
    }
    Ok((g1 == 1, g2 == 1, tsf_id, name))
}

/// Reads a record part by part: on success the bytes are laid out as the
/// record's, part by part.
fn decode_parts(buf: &[u8]) -> (r: Result<VersionEdit, CodecError>)
    ensures
        r matches Ok(e) ==> edit_layout(buf@, e@),
        forall|v: EditView| edit_fits(v) && #[trigger] edit_layout(buf@, v) ==> (r matches Ok(e) && e@ == v),
{
    let f = match decode_front(buf) {
        Err(e) => {
            return Err(e);
        },
        Ok(f) => f,
    };
    let at = f.tail_at;
    proof {
        assert forall|v: EditView| edit_fits(v) && #[trigger] edit_layout(buf@, v) implies tail_laid_out(buf@, at as int, v) by {
            lemma_layout_parts(buf@, v);
        }
    }
    let t = decode_tail(buf, at);
    match t {
        Err(e) => {
            return Err(e);
        },
        Ok((del_tsf, add_tsf, tsf_id, tsf_name)) => {
            let e = VersionEdit {
                has_seq_no: f.has_seq_no,
                seq_no: f.seq_no,
                has_file_id: f.has_file_id,
                file_id: f.file_id,
                max_level_ts: f.max_level_ts,
                add_files: f.adds,
                del_files: f.dels,
                del_tsf,
                add_tsf,
                tsf_id,
                tsf_name,
            };
            proof {
                let b = buf@;
                let w = EditView { del_tsf, add_tsf, tsf_id, tsf_name: e@.tsf_name, ..empty_edit(0) };
                assert(enc_tail(w) == enc_tail(e@));
                assert(enc_head(e@) =~= b.subrange(0, 34));
                lemma_layout_from_parts(b, e@);
            }
            Ok(e)
        },
    }
}

/// Two records with the same bytes are the same record: reading back the
/// bytes of a record can only give that record.
pub proof fn lemma_edit_injective(v: EditView, w: EditView)
    requires
        enc_edit(v) == enc_edit(w),
        edit_fits(v),
        edit_fits(w),
    ensures
        v == w,
{
    lemma_edit_shape(v);
    lemma_edit_shape(w);
    let b = enc_edit(v);
    lemma_layout_parts(b, v);
    lemma_layout_parts(b, w);
    lemma_head_injective(v, w);
    let a = v.add_files.len() as int;
    lemma_enc_metas(v.add_files);
    lemma_enc_metas(w.add_files);
    lemma_metas_injective(v.add_files, w.add_files);
    let dels_at = 34 + 57 * a;
    lemma_u64_round_trip(v.del_files.len() as u64);
    lemma_u64_round_trip(w.del_files.len() as u64);
    lemma_metas_injective(v.del_files, w.del_files);
    let tail_pos = dels_at + 8 + 57 * v.del_files.len();
    lemma_tail_injective(v, w);
    assert(encode_utf8(v.tsf_name) == encode_utf8(w.tsf_name));
    assert(decode_utf8(encode_utf8(v.tsf_name)) == v.tsf_name);
    assert(decode_utf8(encode_utf8(w.tsf_name)) == w.tsf_name);
}

/// A framed record: its length in four bytes, then its bytes.
pub open spec fn enc_frame(v: EditView) -> Seq<u8> {
    be32(enc_edit(v).len() as u32) + enc_edit(v)
}

/// The bytes of a run of records, each framed.
pub open spec fn enc_vec(vs: Seq<EditView>) -> Seq<u8>
    decreases vs.len(),
{
    if vs.len() == 0 {
        Seq::empty()
    } else {
        enc_vec(vs.drop_last()) + enc_frame(vs.last())
    }
}

/// A record that a frame can hold.
pub open spec fn frame_fits(v: EditView) -> bool {
    edit_fits(v) && enc_edit(v).len() <= u32::MAX
}

proof fn lemma_enc_vec_concat(a: Seq<EditView>, b: Seq<EditView>)
    ensures
        enc_vec(a + b) == enc_vec(a) + enc_vec(b),
    decreases b.len(),
{
    if b.len() == 0 {
        assert(a + b =~= a);
        assert(enc_vec(a) + enc_vec(b) =~= enc_vec(a));
    } else {
        lemma_enc_vec_concat(a, b.drop_last());
        assert((a + b).drop_last() =~= a + b.drop_last());
        assert(enc_vec(a + b) =~= enc_vec(a) + enc_vec(b));
    }
}

proof fn lemma_enc_vec_front(t: Seq<EditView>)
    requires
        t.len() > 0,
    ensures
        enc_vec(t) == enc_frame(t[0]) + enc_vec(t.drop_first()),
{
    lemma_enc_vec_concat(seq![t[0]], t.drop_first());
    assert(seq![t[0]] + t.drop_first() =~= t);
    let one = seq![t[0]];
    assert(one.drop_last() =~= Seq::<EditView>::empty());
    assert(enc_vec(one.drop_last()) =~= Seq::<u8>::empty());
    assert(enc_vec(one) =~= enc_frame(t[0]));
}

impl VersionEdit {
    /// The bytes of a run of records, each after its length in four bytes.
    /// Fails with `TooLong` where a record's bytes do not fit a frame.
    pub fn encode_vec(data: &Vec<VersionEdit>) -> (r: Result<Vec<u8>, CodecError>)
        ensures
            r matches Ok(b) ==> b@ == enc_vec(crate::summary::edits_view(data@)),
            r is Ok <==> forall|k: int| 0 <= k < data@.len() ==> enc_edit(#[trigger] data@[k]@).len() <= u32::MAX,
    {
        let ghost vs = crate::summary::edits_view(data@);
        let mut buf: Vec<u8> = Vec::new();
        let mut i: usize = 0;
        while i < data.len()
            invariant
                i <= data@.len(),
                vs == crate::summary::edits_view(data@),
                buf@ == enc_vec(vs.subrange(0, i as int)),
                forall|k: int| 0 <= k < i ==> enc_edit(#[trigger] data@[k]@).len() <= u32::MAX,
            decreases data@.len() - i,
        {
            let b = match data[i].encode() {
                Ok(b) => b,
                Err(e) => {
                    return Err(e);
                },
            };
            if b.len() > 0xffff_ffff {
                return Err(CodecError::TooLong);
            }
            proof {
                assert(vs.subrange(0, i + 1).drop_last() =~= vs.subrange(0, i as int));
                assert(vs[i as int] == data@[i as int]@);
            }
            put_u32(&mut buf, b.len() as u32);
            append_range(&mut buf, b.as_slice(), 0, b.len());
            proof {
                assert(b@.subrange(0, b@.len() as int) =~= b@);
                assert(buf@ =~= enc_vec(vs.subrange(0, i + 1)));
            }
            i += 1;
        }
        proof {
            assert(vs.subrange(0, data@.len() as int) =~= vs);
        }
        Ok(buf)
    }

    /// Reads a run of framed records, stopping at a frame that the bytes do
    /// not hold whole; fails where a whole frame is not a record. Reading
    /// the bytes of a run gives the run.
    #[verifier::rlimit(40)]
    #[verifier::spinoff_prover]
    pub fn decode_vec(buf: &[u8]) -> (r: Result<Vec<VersionEdit>, CodecError>)
        ensures
            r matches Ok(list) ==> enc_vec(crate::summary::edits_view(list@)).len() <= buf@.len()
                && buf@.subrange(0, enc_vec(crate::summary::edits_view(list@)).len() as int) == enc_vec(crate::summary::edits_view(list@)),
            forall|t: Seq<EditView>| #[trigger] run_then_partial(buf@, t) ==> (r matches Ok(list) && crate::summary::edits_view(list@) == t),
    {
        let len = buf.len();
        let mut list: Vec<VersionEdit> = Vec::new();
        let mut pos: usize = 0;
        proof {
            assert forall|t: Seq<EditView>| #[trigger] run_then_partial(buf@, t) implies read_frames(run_bytes(buf@, t), pos as int, t, crate::summary::edits_view(list@)) by {
                let pre = run_bytes(buf@, t);
                assert(pre.subrange(0, pre.len() as int) =~= pre);
                assert(t.subrange(0, t.len() as int) =~= t);
                assert(crate::summary::edits_view(list@) =~= t.subrange(0, 0));
            }
            assert(buf@.subrange(0, 0) =~= enc_vec(crate::summary::edits_view(list@)));
        }
        while pos < len
            invariant
                pos <= len,
                len == buf@.len(),
                buf@.subrange(0, pos as int) == enc_vec(crate::summary::edits_view(list@)),
                forall|t: Seq<EditView>| #[trigger] run_then_partial(buf@, t) ==> read_frames(run_bytes(buf@, t), pos as int, t, crate::summary::edits_view(list@)),
            decreases len - pos,
        {
            let ghost lv = crate::summary::edits_view(list@);
            if len - pos < 4 {
                proof {
                    assert forall|t: Seq<EditView>| #[trigger] run_then_partial(buf@, t) implies lv == t by {
                        lemma_partial_case(buf@, pos as int, t, lv);
                    }
                }
                return Ok(list);
            }
            let n_bytes = get_u32(buf, pos);
            if (len - pos - 4) < n_bytes as usize {
                proof {
                    assert forall|t: Seq<EditView>| #[trigger] run_then_partial(buf@, t) implies lv == t by {
                        lemma_partial_case(buf@, pos as int, t, lv);
                        if lv.len() < t.len() {
                            lemma_frame_len(buf@, pos as int, t[lv.len() as int]);
                        }
                    }
                }
                return Ok(list);
            }
            let start = pos + 4;
            let end = start + n_bytes as usize;
            proof {
                assert forall|t: Seq<EditView>| #[trigger] run_then_partial(buf@, t) implies lv.len() < t.len() && n_bytes as int == enc_edit(t[lv.len() as int]).len() by {
                    lemma_partial_case(buf@, pos as int, t, lv);
                    if lv.len() == t.len() {
                        assert(buf@.subrange(pos as int, pos + 4) =~= buf@.subrange(pos as int, len as int).subrange(0, 4));
                    } else {
                        lemma_frame_len(buf@, pos as int, t[lv.len() as int]);
                    }
                }
            }
            let mut frame: Vec<u8> = Vec::new();
            append_range(&mut frame, buf, start, end);
            proof {
                assert forall|t: Seq<EditView>| #[trigger] run_then_partial(buf@, t) implies frame@ == enc_edit(t[lv.len() as int]) && edit_fits(t[lv.len() as int]) by {
                    lemma_partial_case(buf@, pos as int, t, lv);
                    lemma_frame_body(buf@, pos as int, t[lv.len() as int]);
                }
            }
            let ve = match VersionEdit::decode(frame.as_slice()) {
                Ok(ve) => ve,
                Err(e) => {
                    return Err(e);
                },
            };
            let ghost before = list@;
            let ghost vv = ve@;
            list.push(ve);
            proof {
                assert(crate::summary::edits_view(list@) =~= lv.push(list@[before.len() as int]@));
                assert(list@[before.len() as int]@ == vv);
                assert(frame@ == buf@.subrange(start as int, end as int));
                assert(enc_edit(vv) == frame@);
                lemma_u32_bytes_round_trip(buf@.subrange(pos as int, pos + 4));
                assert(be32(enc_edit(vv).len() as u32) == buf@.subrange(pos as int, pos + 4));
                assert(crate::summary::edits_view(list@).drop_last() =~= lv);
                assert(buf@.subrange(0, end as int) =~= buf@.subrange(0, pos as int) + buf@.subrange(pos as int, pos + 4) + buf@.subrange(start as int, end as int));
                assert(buf@.subrange(0, end as int) =~= enc_vec(crate::summary::edits_view(list@)));
                assert forall|t: Seq<EditView>| #[trigger] run_then_partial(buf@, t) implies read_frames(run_bytes(buf@, t), end as int, t, crate::summary::edits_view(list@)) by {
                    lemma_partial_case(buf@, pos as int, t, lv);
                    lemma_vec_step(run_bytes(buf@, t), pos as int, t, lv);
                    assert(crate::summary::edits_view(list@) =~= t.subrange(0, lv.len() + 1 as int));
                }
            }
            pos = end;
        }
        proof {
            assert forall|t: Seq<EditView>| #[trigger] run_then_partial(buf@, t) implies crate::summary::edits_view(list@) == t by {
                lemma_partial_case(buf@, pos as int, t, crate::summary::edits_view(list@));
            }
        }
        Ok(list)
    }
}

/// After the frames of `t` come at most the first bytes of one more frame:
/// fewer than its length's four, or fewer than that length says.
pub open spec fn partial_frame(tail: Seq<u8>) -> bool {
    tail.len() < 4 || u32_of(tail.subrange(0, 4)) > tail.len() - 4
}

/// `b` is the bytes of the run `t`, each record fitting its frame, and then
/// at most an incomplete frame.
pub open spec fn run_then_partial(b: Seq<u8>, t: Seq<EditView>) -> bool {
    &&& forall|k: int| 0 <= k < t.len() ==> frame_fits(#[trigger] t[k])
    &&& enc_vec(t).len() <= b.len()
    &&& b.subrange(0, enc_vec(t).len() as int) == enc_vec(t)
    &&& partial_frame(b.subrange(enc_vec(t).len() as int, b.len() as int))
}

/// The bytes of `b` that hold the frames of `t`.
pub open spec fn run_bytes(b: Seq<u8>, t: Seq<EditView>) -> Seq<u8> {
    b.subrange(0, enc_vec(t).len() as int)
}

/// Reading at `pos`: either every frame of `t` is read and an incomplete
/// frame at most follows, or the next frame of `t` lies whole at `pos`.
proof fn lemma_partial_case(b: Seq<u8>, pos: int, t: Seq<EditView>, lv: Seq<EditView>)
    requires
        0 <= pos <= b.len(),
        run_then_partial(b, t),
        read_frames(run_bytes(b, t), pos, t, lv),
    ensures
        lv.len() == t.len() ==> lv == t && partial_frame(b.subrange(pos, b.len() as int)),
        lv.len() < t.len() ==> {
            let n = enc_edit(t[lv.len() as int]).len();
            &&& frame_fits(t[lv.len() as int])
            &&& pos + 4 + n <= enc_vec(t).len()
            &&& b.subrange(pos, pos + 4 + n) == enc_frame(t[lv.len() as int])
        },
        lv.len() <= t.len(),
{
    let e = enc_vec(t).len() as int;
    let pre = run_bytes(b, t);
    assert(pre == enc_vec(t));
    assert(run_of(pre, t));
    if lv.len() == t.len() {
        let rest = t.subrange(lv.len() as int, t.len() as int);
        assert(rest =~= Seq::<EditView>::empty());
        assert(enc_vec(rest) =~= Seq::<u8>::empty());
        assert(pos == e);
        assert(lv =~= t);
    } else {
        let rest = t.subrange(lv.len() as int, t.len() as int);
        lemma_enc_vec_front(rest);
        assert(enc_vec(rest).len() >= 4);
        assert(pos < pre.len());
        lemma_vec_step(pre, pos, t, lv);
        let n = enc_edit(t[lv.len() as int]).len();
        assert(b.subrange(pos, pos + 4 + n) =~= pre.subrange(pos, pos + 4 + n));
    }
}

/// `b` is the bytes of the run `t`, each record fitting its frame.
pub open spec fn run_of(b: Seq<u8>, t: Seq<EditView>) -> bool {
    &&& forall|k: int| 0 <= k < t.len() ==> frame_fits(#[trigger] t[k])
    &&& b == enc_vec(t)
}

/// `lv` is what was read of the run `t`, and the bytes from `pos` on are
/// the frames of the rest.
spec fn read_frames(b: Seq<u8>, pos: int, t: Seq<EditView>, lv: Seq<EditView>) -> bool {
    &&& 0 <= pos <= b.len()
    &&& lv.len() <= t.len()
    &&& lv == t.subrange(0, lv.len() as int)
    &&& b.subrange(pos, b.len() as int) == enc_vec(t.subrange(lv.len() as int, t.len() as int))
}

#[verifier::spinoff_prover]
proof fn lemma_vec_step(b: Seq<u8>, pos: int, t: Seq<EditView>, lv: Seq<EditView>)
    requires
        pos < b.len(),
        run_of(b, t),
        read_frames(b, pos, t, lv),
    ensures
        lv.len() < t.len(),
        frame_fits(t[lv.len() as int]),
        pos + 4 + enc_edit(t[lv.len() as int]).len() <= b.len(),
        b.subrange(pos, pos + 4 + enc_edit(t[lv.len() as int]).len()) == enc_frame(t[lv.len() as int]),
        b.subrange(pos + 4 + enc_edit(t[lv.len() as int]).len(), b.len() as int) == enc_vec(t.subrange(lv.len() + 1 as int, t.len() as int)),
        t.subrange(0, lv.len() + 1 as int) == lv.push(t[lv.len() as int]),
{
    let n = lv.len() as int;
    let rest = t.subrange(n, t.len() as int);
    if rest.len() == 0 {
        assert(enc_vec(rest) =~= Seq::<u8>::empty());
        assert(false);
    }
    lemma_enc_vec_front(rest);
    assert(rest[0] == t[n]);
    assert(rest.drop_first() =~= t.subrange(n + 1, t.len() as int));
    let fr = enc_frame(t[n]);
    let tl = enc_vec(rest.drop_first());
    let w = b.subrange(pos, b.len() as int);
    assert(w == fr + tl);
    assert(w.len() == b.len() - pos);
    assert(fr.len() <= w.len());
    assert(pos + fr.len() <= b.len());
    assert(b.subrange(pos, pos + fr.len()) =~= w.subrange(0, fr.len() as int));
    assert(w.subrange(0, fr.len() as int) =~= fr);
    assert(b.subrange(pos + fr.len(), b.len() as int) =~= w.subrange(fr.len() as int, w.len() as int));
    assert(w.subrange(fr.len() as int, w.len() as int) =~= tl);
    assert(t.subrange(0, n + 1) =~= lv.push(t[n]));
}

proof fn lemma_frame_len(b: Seq<u8>, pos: int, v: EditView)
    requires
        0 <= pos,
        frame_fits(v),
        pos + 4 + enc_edit(v).len() <= b.len(),
        b.subrange(pos, pos + 4 + enc_edit(v).len()) == enc_frame(v),
    ensures
        u32_of(b.subrange(pos, pos + 4)) as int == enc_edit(v).len(),
{
    let fr = enc_frame(v);
    assert(b.subrange(pos, pos + 4) =~= fr.subrange(0, 4));
    assert(fr.subrange(0, 4) =~= be32(enc_edit(v).len() as u32));
    lemma_u32_round_trip(enc_edit(v).len() as u32);
}

proof fn lemma_frame_body(b: Seq<u8>, pos: int, v: EditView)
    requires
        0 <= pos,
        frame_fits(v),
        pos + 4 + enc_edit(v).len() <= b.len(),
        b.subrange(pos, pos + 4 + enc_edit(v).len()) == enc_frame(v),
    ensures
        b.subrange(pos + 4, pos + 4 + enc_edit(v).len()) == enc_edit(v),
        edit_fits(v),
{
    let fr = enc_frame(v);
    assert(b.subrange(pos + 4, pos + 4 + enc_edit(v).len()) =~= fr.subrange(4, fr.len() as int));
    assert(fr.subrange(4, fr.len() as int) =~= enc_edit(v));
}


/// The data version of a framed record.
pub const RECORD_VERSION: u8 = 1;

/// The data type of a framed record: a manifest record.
pub const RECORD_TYPE_SUMMARY: u8 = 1;

/// A framed record: its data version and data type, a byte each, its
/// length in four bytes, then its bytes.
pub open spec fn enc_log_frame(v: EditView) -> Seq<u8> {
    seq![RECORD_VERSION, RECORD_TYPE_SUMMARY] + be32(enc_edit(v).len() as u32) + enc_edit(v)
}

/// The bytes of a run of records, each framed.
pub open spec fn enc_log(vs: Seq<EditView>) -> Seq<u8>
    decreases vs.len(),
{
    if vs.len() == 0 {
        Seq::empty()
    } else {
        enc_log(vs.drop_last()) + enc_log_frame(vs.last())
    }
}


proof fn lemma_enc_log_concat(a: Seq<EditView>, b: Seq<EditView>)
    ensures
        enc_log(a + b) == enc_log(a) + enc_log(b),
    decreases b.len(),
{
    if b.len() == 0 {
        assert(a + b =~= a);
        assert(enc_log(a) + enc_log(b) =~= enc_log(a));
    } else {
        lemma_enc_log_concat(a, b.drop_last());
        assert((a + b).drop_last() =~= a + b.drop_last());
        assert(enc_log(a + b) =~= enc_log(a) + enc_log(b));
    }
}

proof fn lemma_enc_log_front(t: Seq<EditView>)
    requires
        t.len() > 0,
    ensures
        enc_log(t) == enc_log_frame(t[0]) + enc_log(t.drop_first()),
{
    lemma_enc_log_concat(seq![t[0]], t.drop_first());
    assert(seq![t[0]] + t.drop_first() =~= t);
    let one = seq![t[0]];
    assert(one.drop_last() =~= Seq::<EditView>::empty());
    assert(enc_log(one.drop_last()) =~= Seq::<u8>::empty());
    assert(enc_log(one) =~= enc_log_frame(t[0]));
}

impl VersionEdit {
    /// The bytes of summary log records: each record after its data
    /// version, its data type and its length in four bytes. Fails with
    /// `TooLong` where a record's bytes do not fit a frame.
    pub fn encode_log(data: &Vec<VersionEdit>) -> (r: Result<Vec<u8>, CodecError>)
        ensures
            r matches Ok(b) ==> b@ == enc_log(crate::summary::edits_view(data@)),
            r is Ok <==> forall|k: int| 0 <= k < data@.len() ==> enc_edit(#[trigger] data@[k]@).len() <= u32::MAX,
    {
        let ghost vs = crate::summary::edits_view(data@);
        let mut buf: Vec<u8> = Vec::new();
        let mut i: usize = 0;
        while i < data.len()
            invariant
                i <= data@.len(),
                vs == crate::summary::edits_view(data@),
                buf@ == enc_log(vs.subrange(0, i as int)),
                forall|k: int| 0 <= k < i ==> enc_edit(#[trigger] data@[k]@).len() <= u32::MAX,
            decreases data@.len() - i,
        {
            let b = match data[i].encode() {
                Ok(b) => b,
                Err(e) => {
                    return Err(e);
                },
            };
            if b.len() > 0xffff_ffff {
                return Err(CodecError::TooLong);
            }
            proof {
                assert(vs.subrange(0, i + 1).drop_last() =~= vs.subrange(0, i as int));
                assert(vs[i as int] == data@[i as int]@);
            }
            buf.push(RECORD_VERSION);
            buf.push(RECORD_TYPE_SUMMARY);
            put_u32(&mut buf, b.len() as u32);
            append_range(&mut buf, b.as_slice(), 0, b.len());
            proof {
                assert(b@.subrange(0, b@.len() as int) =~= b@);
                assert(buf@ =~= enc_log(vs.subrange(0, i + 1)));
            }
            i += 1;
        }
        proof {
            assert(vs.subrange(0, data@.len() as int) =~= vs);
        }
        Ok(buf)
    }

    /// Reads summary log records, stopping at a record that the bytes do
    /// not hold whole (a log cut short by a crash); fails where a whole
    /// record has another data version or type, or is not a record.
    /// Reading the bytes of written records gives those records.
    #[verifier::rlimit(40)]
    #[verifier::spinoff_prover]
    pub fn decode_log(buf: &[u8]) -> (r: Result<Vec<VersionEdit>, CodecError>)
        ensures
            r matches Ok(list) ==> enc_log(crate::summary::edits_view(list@)).len() <= buf@.len()
                && buf@.subrange(0, enc_log(crate::summary::edits_view(list@)).len() as int) == enc_log(crate::summary::edits_view(list@)),
            forall|t: Seq<EditView>| #[trigger] log_then_partial(buf@, t) ==> (r matches Ok(list) && crate::summary::edits_view(list@) == t),
    {
        let len = buf.len();
        let mut list: Vec<VersionEdit> = Vec::new();
        let mut pos: usize = 0;
        proof {
            assert forall|t: Seq<EditView>| #[trigger] log_then_partial(buf@, t) implies read_log_frames(log_bytes(buf@, t), pos as int, t, crate::summary::edits_view(list@)) by {
                let pre = log_bytes(buf@, t);
                assert(pre.subrange(0, pre.len() as int) =~= pre);
                assert(t.subrange(0, t.len() as int) =~= t);
                assert(crate::summary::edits_view(list@) =~= t.subrange(0, 0));
            }
            assert(buf@.subrange(0, 0) =~= enc_log(crate::summary::edits_view(list@)));
        }
        while pos < len
            invariant
                pos <= len,
                len == buf@.len(),
                buf@.subrange(0, pos as int) == enc_log(crate::summary::edits_view(list@)),
                forall|t: Seq<EditView>| #[trigger] log_then_partial(buf@, t) ==> read_log_frames(log_bytes(buf@, t), pos as int, t, crate::summary::edits_view(list@)),
            decreases len - pos,
        {
            let ghost lv = crate::summary::edits_view(list@);
            if len - pos < 6 {
                proof {
                    assert forall|t: Seq<EditView>| #[trigger] log_then_partial(buf@, t) implies lv == t by {
                        lemma_log_partial_case(buf@, pos as int, t, lv);
                    }
                }
                return Ok(list);
            }
            let n_bytes = get_u32(buf, pos + 2);
            if (len - pos - 6) < n_bytes as usize {
                proof {
                    assert forall|t: Seq<EditView>| #[trigger] log_then_partial(buf@, t) implies lv == t by {
                        lemma_log_partial_case(buf@, pos as int, t, lv);
                        if lv.len() < t.len() {
                            lemma_log_frame_len(buf@, pos as int, t[lv.len() as int]);
                        }
                    }
                }
                return Ok(list);
            }
            let start = pos + 6;
            let end = start + n_bytes as usize;
            proof {
                assert forall|t: Seq<EditView>| #[trigger] log_then_partial(buf@, t) implies lv.len() < t.len() && n_bytes as int == enc_edit(t[lv.len() as int]).len() by {
                    lemma_log_partial_case(buf@, pos as int, t, lv);
                    if lv.len() == t.len() {
                        assert(buf@.subrange(pos + 2, pos + 6) =~= buf@.subrange(pos as int, len as int).subrange(2, 6));
                    } else {
                        lemma_log_frame_len(buf@, pos as int, t[lv.len() as int]);
                    }
                }
            }
            if buf[pos] != RECORD_VERSION || buf[pos + 1] != RECORD_TYPE_SUMMARY {
                proof {
                    assert forall|t: Seq<EditView>| #[trigger] log_then_partial(buf@, t) implies false by {
                        lemma_log_partial_case(buf@, pos as int, t, lv);
                        let fr = enc_log_frame(t[lv.len() as int]);
                        assert(buf@[pos as int] == buf@.subrange(pos as int, pos + fr.len())[0]);
                        assert(buf@[pos + 1] == buf@.subrange(pos as int, pos + fr.len())[1]);
                    }
                }
                return Err(CodecError::BadTag);
            }
            let mut frame: Vec<u8> = Vec::new();
            append_range(&mut frame, buf, start, end);
            proof {
                assert forall|t: Seq<EditView>| #[trigger] log_then_partial(buf@, t) implies frame@ == enc_edit(t[lv.len() as int]) && edit_fits(t[lv.len() as int]) by {
                    lemma_log_partial_case(buf@, pos as int, t, lv);
                    lemma_log_frame_body(buf@, pos as int, t[lv.len() as int]);
                }
            }
            let ve = match VersionEdit::decode(frame.as_slice()) {
                Ok(ve) => ve,
                Err(e) => {
                    return Err(e);
                },
            };
            let ghost before = list@;
            let ghost vv = ve@;
            list.push(ve);
            proof {
                assert(crate::summary::edits_view(list@) =~= lv.push(list@[before.len() as int]@));
                assert(list@[before.len() as int]@ == vv);
                assert(frame@ == buf@.subrange(start as int, end as int));
                assert(enc_edit(vv) == frame@);
                lemma_u32_bytes_round_trip(buf@.subrange(pos + 2, pos + 6));
                assert(be32(enc_edit(vv).len() as u32) == buf@.subrange(pos + 2, pos + 6));
                assert(crate::summary::edits_view(list@).drop_last() =~= lv);
                assert(buf@.subrange(0, end as int) =~= buf@.subrange(0, pos as int) + seq![RECORD_VERSION, RECORD_TYPE_SUMMARY] + buf@.subrange(pos + 2, pos + 6) + buf@.subrange(start as int, end as int));
                assert(buf@.subrange(0, end as int) =~= enc_log(crate::summary::edits_view(list@)));
                assert forall|t: Seq<EditView>| #[trigger] log_then_partial(buf@, t) implies read_log_frames(log_bytes(buf@, t), end as int, t, crate::summary::edits_view(list@)) by {
                    lemma_log_partial_case(buf@, pos as int, t, lv);
                    lemma_log_step(log_bytes(buf@, t), pos as int, t, lv);
                    assert(crate::summary::edits_view(list@) =~= t.subrange(0, lv.len() + 1 as int));
                }
            }
            pos = end;
        }
        proof {
            assert forall|t: Seq<EditView>| #[trigger] log_then_partial(buf@, t) implies crate::summary::edits_view(list@) == t by {
                lemma_log_partial_case(buf@, pos as int, t, crate::summary::edits_view(list@));
            }
        }
        Ok(list)
    }
}

/// After the frames of `t` come at most the first bytes of one more frame:
/// fewer than its length's four, or fewer than that length says.
pub open spec fn partial_log_frame(tail: Seq<u8>) -> bool {
    tail.len() < 6 || u32_of(tail.subrange(2, 6)) > tail.len() - 6
}

/// `b` is the bytes of the run `t`, each record fitting its frame, and then
/// at most an incomplete frame.
pub open spec fn log_then_partial(b: Seq<u8>, t: Seq<EditView>) -> bool {
    &&& forall|k: int| 0 <= k < t.len() ==> frame_fits(#[trigger] t[k])
    &&& enc_log(t).len() <= b.len()
    &&& b.subrange(0, enc_log(t).len() as int) == enc_log(t)
    &&& partial_log_frame(b.subrange(enc_log(t).len() as int, b.len() as int))
}

/// The bytes of `b` that hold the frames of `t`.
pub open spec fn log_bytes(b: Seq<u8>, t: Seq<EditView>) -> Seq<u8> {
    b.subrange(0, enc_log(t).len() as int)
}

/// Reading at `pos`: either every frame of `t` is read and an incomplete
/// frame at most follows, or the next frame of `t` lies whole at `pos`.
proof fn lemma_log_partial_case(b: Seq<u8>, pos: int, t: Seq<EditView>, lv: Seq<EditView>)
    requires
        0 <= pos <= b.len(),
        log_then_partial(b, t),
        read_log_frames(log_bytes(b, t), pos, t, lv),
    ensures
        lv.len() == t.len() ==> lv == t && partial_log_frame(b.subrange(pos, b.len() as int)),
        lv.len() < t.len() ==> {
            let n = enc_edit(t[lv.len() as int]).len();
            &&& frame_fits(t[lv.len() as int])
            &&& pos + 6 + n <= enc_log(t).len()
            &&& b.subrange(pos, pos + 6 + n) == enc_log_frame(t[lv.len() as int])
        },
        lv.len() <= t.len(),
{
    let e = enc_log(t).len() as int;
    let pre = log_bytes(b, t);
    assert(pre == enc_log(t));
    assert(log_of(pre, t));
    if lv.len() == t.len() {
        let rest = t.subrange(lv.len() as int, t.len() as int);
        assert(rest =~= Seq::<EditView>::empty());
        assert(enc_log(rest) =~= Seq::<u8>::empty());
        assert(pos == e);
        assert(lv =~= t);
    } else {
        let rest = t.subrange(lv.len() as int, t.len() as int);
        lemma_enc_log_front(rest);
        assert(enc_log(rest).len() >= 6);
        assert(pos < pre.len());
        lemma_log_step(pre, pos, t, lv);
        let n = enc_edit(t[lv.len() as int]).len();
        assert(b.subrange(pos, pos + 6 + n) =~= pre.subrange(pos, pos + 6 + n));
    }
}

/// `b` is the bytes of the run `t`, each record fitting its frame.
pub open spec fn log_of(b: Seq<u8>, t: Seq<EditView>) -> bool {
    &&& forall|k: int| 0 <= k < t.len() ==> frame_fits(#[trigger] t[k])
    &&& b == enc_log(t)
}

/// `lv` is what was read of the run `t`, and the bytes from `pos` on are
/// the frames of the rest.
spec fn read_log_frames(b: Seq<u8>, pos: int, t: Seq<EditView>, lv: Seq<EditView>) -> bool {
    &&& 0 <= pos <= b.len()
    &&& lv.len() <= t.len()
    &&& lv == t.subrange(0, lv.len() as int)
    &&& b.subrange(pos, b.len() as int) == enc_log(t.subrange(lv.len() as int, t.len() as int))
}

#[verifier::spinoff_prover]
proof fn lemma_log_step(b: Seq<u8>, pos: int, t: Seq<EditView>, lv: Seq<EditView>)
    requires
        pos < b.len(),
        log_of(b, t),
        read_log_frames(b, pos, t, lv),
    ensures
        lv.len() < t.len(),
        frame_fits(t[lv.len() as int]),
        pos + 6 + enc_edit(t[lv.len() as int]).len() <= b.len(),
        b.subrange(pos, pos + 6 + enc_edit(t[lv.len() as int]).len()) == enc_log_frame(t[lv.len() as int]),
        b.subrange(pos + 6 + enc_edit(t[lv.len() as int]).len(), b.len() as int) == enc_log(t.subrange(lv.len() + 1 as int, t.len() as int)),
        t.subrange(0, lv.len() + 1 as int) == lv.push(t[lv.len() as int]),
{
    let n = lv.len() as int;
    let rest = t.subrange(n, t.len() as int);
    if rest.len() == 0 {
        assert(enc_log(rest) =~= Seq::<u8>::empty());
        assert(false);
    }
    lemma_enc_log_front(rest);
    assert(rest[0] == t[n]);
    assert(rest.drop_first() =~= t.subrange(n + 1, t.len() as int));
    let fr = enc_log_frame(t[n]);
    let tl = enc_log(rest.drop_first());
    let w = b.subrange(pos, b.len() as int);
    assert(w == fr + tl);
    assert(w.len() == b.len() - pos);
    assert(fr.len() <= w.len());
    assert(pos + fr.len() <= b.len());
    assert(b.subrange(pos, pos + fr.len()) =~= w.subrange(0, fr.len() as int));
    assert(w.subrange(0, fr.len() as int) =~= fr);
    assert(b.subrange(pos + fr.len(), b.len() as int) =~= w.subrange(fr.len() as int, w.len() as int));
    assert(w.subrange(fr.len() as int, w.len() as int) =~= tl);
    assert(t.subrange(0, n + 1) =~= lv.push(t[n]));
}

proof fn lemma_log_frame_len(b: Seq<u8>, pos: int, v: EditView)
    requires
        0 <= pos,
        frame_fits(v),
        pos + 6 + enc_edit(v).len() <= b.len(),
        b.subrange(pos, pos + 6 + enc_edit(v).len()) == enc_log_frame(v),
    ensures
        u32_of(b.subrange(pos + 2, pos + 6)) as int == enc_edit(v).len(),
{
    let fr = enc_log_frame(v);
    assert(b.subrange(pos + 2, pos + 6) =~= fr.subrange(2, 6));
    assert(fr.subrange(2, 6) =~= be32(enc_edit(v).len() as u32));
    lemma_u32_round_trip(enc_edit(v).len() as u32);
}

proof fn lemma_log_frame_body(b: Seq<u8>, pos: int, v: EditView)
    requires
        0 <= pos,
        frame_fits(v),
        pos + 6 + enc_edit(v).len() <= b.len(),
        b.subrange(pos, pos + 6 + enc_edit(v).len()) == enc_log_frame(v),
    ensures
        b.subrange(pos + 6, pos + 6 + enc_edit(v).len()) == enc_edit(v),
        edit_fits(v),
{
    let fr = enc_log_frame(v);
    assert(b.subrange(pos + 6, pos + 6 + enc_edit(v).len()) =~= fr.subrange(6, fr.len() as int));
    assert(fr.subrange(6, fr.len() as int) =~= enc_edit(v));
}

} // verus!
