//! The TSM file: header, blocks, index and footer, written by [`TsmWriter`]
//! into an in-memory image of the file and read back by [`TsmReader`].
//!
//! Header: 4 bytes of magic and 1 byte of version. Each block: the CRC-32 of
//! its timestamp bytes, those bytes, the CRC-32 of its value bytes, those
//! bytes. Index, per field id ascending: field id (8), field type (1), block
//! count (2), then per block min_ts (8), max_ts (8), count (4), offset (8),
//! size (8), val_offset (8). Footer: the bloom filter and the index offset
//! (8). Every integer is big-endian.

use vstd::prelude::*;
use crate::block::{points, strictly_ascending, DataBlock};
use crate::bloom::BloomFilter;
use crate::bytes::{be16, be32, be64, be_i64, put_u16, put_u32, put_u64, put_i64};
use crate::column::{enc_ts, enc_vals, encode_ts, encode_vals, lemma_enc_ts, lemma_enc_vals};

verus! {

pub const TSM_MAGIC: u32 = 0x01346613;

pub const TSM_VERSION: u8 = 1;

pub const HEADER_LEN: u64 = 5;

pub const INDEX_META_SIZE: u64 = 11;

pub const BLOCK_META_SIZE: u64 = 44;

/// A file image never grows past this many bytes.
pub const MAX_TSM_BYTES: u64 = 0x4000_0000_0000_0000;

/// The bytes of a block of one value.
pub const MIN_BLOCK_BYTES: usize = 24;

/// Most blocks of one field in one file: the index holds the count in two bytes.
pub const MAX_BLOCKS_PER_FIELD: usize = 65535;

/// Most values in one block: the index holds the count in four bytes.
pub const MAX_BLOCK_VALUES: usize = 0xffff_ffff;

/// The CRC-32 (IEEE) checksum of some bytes.
pub uninterp spec fn crc32_of(data: Seq<u8>) -> u32;

/// Relies on `crc32fast::hash`: the CRC-32 checksum of the bytes, which
/// depends on them alone.
#[verifier::external_body]
pub(crate) fn crc32(data: &[u8]) -> (r: u32)
    ensures
        r == crc32_of(data@),
{
    crc32fast::hash(data)
}

/// Where one block lies in a file, and what it spans.
#[derive(Clone, Copy, Debug, PartialEq, Eq, Structural)]
pub struct BlockEntry {
    pub min_ts: i64,
    pub max_ts: i64,
    pub count: u32,
    pub offset: u64,
    pub size: u64,
    pub val_offset: u64,
}

/// A block's entry together with its field: what the index tells of a block.
#[derive(Clone, Copy, Debug, PartialEq, Eq, Structural)]
pub struct BlockMeta {
    pub field_id: u64,
    pub field_type: u8,
    pub min_ts: i64,
    pub max_ts: i64,
    pub count: u32,
    pub offset: u64,
    pub size: u64,
    pub val_offset: u64,
}

impl BlockMeta {
    pub open spec fn entry(&self) -> BlockEntry {
        BlockEntry {
            min_ts: self.min_ts,
            max_ts: self.max_ts,
            count: self.count,
            offset: self.offset,
            size: self.size,
            val_offset: self.val_offset,
        }
    }

    pub fn field_id(&self) -> (r: u64)
        ensures
            r == self.field_id,
    {
        self.field_id
    }

    pub fn min_ts(&self) -> (r: i64)
        ensures
            r == self.min_ts,
    {
        self.min_ts
    }

    pub fn max_ts(&self) -> (r: i64)
        ensures
            r == self.max_ts,
    {
        self.max_ts
    }
}

/// The blocks of one field in one file, in the order they were written.
pub struct IndexEntry {
    pub field_id: u64,
    pub field_type: u8,
    pub blocks: Vec<BlockEntry>,
}

/// An index entry as a value: field id, field type and block entries.
pub type IndexView = (u64, u8, Seq<BlockEntry>);

impl View for IndexEntry {
    type V = IndexView;

    open spec fn view(&self) -> IndexView {
        (self.field_id, self.field_type, self.blocks@)
    }
}

pub open spec fn index_view(v: Seq<IndexEntry>) -> Seq<IndexView> {
    v.map_values(|e: IndexEntry| e@)
}

/// Field ids strictly ascend, and no field has more blocks than the index can count.
pub open spec fn index_wf(idx: Seq<IndexView>) -> bool {
    &&& forall|i: int, j: int| 0 <= i < j < idx.len() ==> idx[i].0 < idx[j].0
    &&& forall|i: int| 0 <= i < idx.len() ==> (#[trigger] idx[i]).2.len() <= MAX_BLOCKS_PER_FIELD
}

/// The index once one more block of field `fid` is recorded: appended to the
/// field's blocks, or in a new entry at the field's place in the order.
pub open spec fn index_insert(idx: Seq<IndexView>, fid: u64, ft: u8, be: BlockEntry) -> Seq<IndexView>
    decreases idx.len(),
{
    if idx.len() == 0 {
        seq![(fid, ft, seq![be])]
    } else if idx[0].0 == fid {
        idx.update(0, (fid, idx[0].1, idx[0].2.push(be)))
    } else if idx[0].0 > fid {
        seq![(fid, ft, seq![be])] + idx
    } else {
        seq![idx[0]] + index_insert(idx.drop_first(), fid, ft, be)
    }
}

/// The blocks that the index holds for `fid`, none if it has no entry.
pub open spec fn blocks_of(idx: Seq<IndexView>, fid: u64) -> Seq<BlockEntry>
    decreases idx.len(),
{
    if idx.len() == 0 {
        Seq::empty()
    } else if idx[0].0 == fid {
        idx[0].2
    } else {
        blocks_of(idx.drop_first(), fid)
    }
}

/// Field ids of an index strictly ascend.
pub proof fn lemma_index_sorted(idx: Seq<IndexView>, i: int, j: int)
    requires
        index_wf(idx),
        0 <= i < j < idx.len(),
    ensures
        idx[i].0 < idx[j].0,
{
}

proof fn lemma_index_insert_at(idx: Seq<IndexView>, fid: u64, ft: u8, be: BlockEntry, p: int)
    requires
        index_wf(idx),
        0 <= p <= idx.len(),
        forall|k: int| 0 <= k < p ==> idx[k].0 < fid,
        p < idx.len() ==> idx[p].0 >= fid,
    ensures
        index_insert(idx, fid, ft, be) == if p < idx.len() && idx[p].0 == fid {
            idx.update(p, (fid, idx[p].1, idx[p].2.push(be)))
        } else {
            idx.insert(p, (fid, ft, seq![be]))
        },
    decreases p,
{
    if p == 0 {
        if idx.len() > 0 && idx[0].0 != fid {
            assert(seq![(fid, ft, seq![be])] + idx =~= idx.insert(0, (fid, ft, seq![be])));
        }
    } else {
        let rest = idx.drop_first();
        assert forall|i: int| 0 <= i < rest.len() implies (#[trigger] rest[i]).2.len() <= MAX_BLOCKS_PER_FIELD by {
            assert(rest[i] == idx[i + 1]);
        }
        lemma_index_insert_at(rest, fid, ft, be, p - 1);
        if p < idx.len() && idx[p].0 == fid {
            assert(seq![idx[0]] + rest.update(p - 1, (fid, idx[p].1, idx[p].2.push(be))) =~= idx.update(p, (fid, idx[p].1, idx[p].2.push(be))));
        } else {
            assert(seq![idx[0]] + rest.insert(p - 1, (fid, ft, seq![be])) =~= idx.insert(p, (fid, ft, seq![be])));
        }
    }
}

fn put_block_entry(buf: &mut Vec<u8>, e: &BlockEntry)
    ensures
        final(buf)@ == old(buf)@ + enc_block_entry(*e),
{
    let ghost before = buf@;
    put_i64(buf, e.min_ts);
    put_i64(buf, e.max_ts);
    put_u32(buf, e.count);
    put_u64(buf, e.offset);
    put_u64(buf, e.size);
    put_u64(buf, e.val_offset);
    assert(buf@ =~= before + enc_block_entry(*e));
}

/// The bytes of the index.
fn encode_index(index: &Vec<IndexEntry>) -> (r: Vec<u8>)
    requires
        index_wf(index_view(index@)),
    ensures
        r@ == enc_index(index_view(index@)),
{
    let ghost iv = index_view(index@);
    let mut r: Vec<u8> = Vec::new();
    let mut i: usize = 0;
    while i < index.len()
        invariant
            i <= index@.len(),
            iv == index_view(index@),
            index_wf(iv),
            r@ == enc_index(iv.subrange(0, i as int)),
        decreases index@.len() - i,
    {
        let e = &index[i];
        let ghost before = r@;
        put_u64(&mut r, e.field_id);
        r.push(e.field_type);
        assert(iv[i as int] == e@);
        assert(e.blocks@.len() <= MAX_BLOCKS_PER_FIELD);
        put_u16(&mut r, e.blocks.len() as u16);
        let ghost head = r@;
        let mut j: usize = 0;
        while j < e.blocks.len()
            invariant
                j <= e.blocks@.len(),
                r@ == head + enc_block_entries(e.blocks@.subrange(0, j as int)),
            decreases e.blocks@.len() - j,
        {
            proof {
                assert(e.blocks@.subrange(0, j + 1).drop_last() =~= e.blocks@.subrange(0, j as int));
            }
            put_block_entry(&mut r, &e.blocks[j]);
            j += 1;
            proof {
                assert(r@ =~= head + enc_block_entries(e.blocks@.subrange(0, j as int)));
            }
        }
        proof {
            assert(e.blocks@.subrange(0, e.blocks@.len() as int) =~= e.blocks@);
            assert(iv.subrange(0, i + 1).drop_last() =~= iv.subrange(0, i as int));
            assert(r@ =~= before + enc_index_entry(iv[i as int]));
        }
        i += 1;
    }
    assert(iv.subrange(0, index@.len() as int) =~= iv);
    r
}

/// The first place whose field id is not below `fid`.
fn field_position(index: &Vec<IndexEntry>, fid: u64) -> (p: usize)
    requires
        index_wf(index_view(index@)),
    ensures
        p <= index@.len(),
        forall|k: int| 0 <= k < p ==> index@[k].field_id < fid,
        p < index@.len() ==> index@[p as int].field_id >= fid,
{
    let mut p: usize = 0;
    while p < index.len() && index[p].field_id < fid
        invariant
            p <= index@.len(),
            index_wf(index_view(index@)),
            forall|k: int| 0 <= k < p ==> index@[k].field_id < fid,
        decreases index@.len() - p,
    {
        p += 1;
    }
    p
}

pub open spec fn enc_block_entry(e: BlockEntry) -> Seq<u8> {
    be_i64(e.min_ts) + be_i64(e.max_ts) + be32(e.count) + be64(e.offset) + be64(e.size) + be64(e.val_offset)
}

pub open spec fn enc_block_entries(s: Seq<BlockEntry>) -> Seq<u8>
    decreases s.len(),
{
    if s.len() == 0 {
        Seq::empty()
    } else {
        enc_block_entries(s.drop_last()) + enc_block_entry(s.last())
    }
}

pub open spec fn enc_index_entry(e: IndexView) -> Seq<u8> {
    be64(e.0) + seq![e.1] + be16(e.2.len() as u16) + enc_block_entries(e.2)
}

/// The bytes of the index: each entry in order.
pub open spec fn enc_index(idx: Seq<IndexView>) -> Seq<u8>
    decreases idx.len(),
{
    if idx.len() == 0 {
        Seq::empty()
    } else {
        enc_index(idx.drop_last()) + enc_index_entry(idx.last())
    }
}

/// The bytes of one block: CRC of the timestamp bytes, the timestamp bytes,
/// CRC of the value bytes, the value bytes.
pub open spec fn block_bytes(ts: Seq<i64>, val: Seq<u64>) -> Seq<u8> {
    be32(crc32_of(enc_ts(ts))) + enc_ts(ts) + be32(crc32_of(enc_vals(val))) + enc_vals(val)
}

pub open spec fn header_bytes() -> Seq<u8> {
    be32(TSM_MAGIC) + seq![TSM_VERSION]
}

/// Why a block or an index cannot be encoded.
#[derive(Clone, Copy, Debug, PartialEq, Eq, Structural)]
pub enum EncodeError {
    /// The block holds more values than a count of four bytes can say.
    TooManyValues,
    /// The field already has as many blocks as a count of two bytes can say.
    TooManyBlocks,
    /// The file would grow past its largest size.
    FileTooLarge,
    /// A raw block is shorter than the smallest block, or its offsets do not
    /// lie inside its bytes.
    BadRawBlock,
}

#[derive(Clone, Copy, Debug, PartialEq, Eq, Structural)]
pub struct MaxFileSizeExceedError {
    pub max_file_size: u64,
    pub block_index: usize,
}

#[derive(Debug)]
pub enum WriteTsmError {
    /// Writing the image to storage failed.
    IO { msg: String },
    Encode { reason: EncodeError },
    MaxFileSizeExceed { detail: MaxFileSizeExceedError },
    Finished { path: String },
}


/// Writes a TSM file image: header, then blocks as they come, then the index
/// and the footer. The image is kept in memory; storing it (as `<path>.tmp`,
/// renamed to `<path>` once finished) is the caller's part.
pub struct TsmWriter {
    path: String,
    finished: bool,
    buf: Vec<u8>,
    sequence: u64,
    is_delta: bool,
    min_ts: i64,
    max_ts: i64,
    max_size: u64,
    index: Vec<IndexEntry>,
    bloom: BloomFilter,
    block_count: usize,
    merged: Ghost<Seq<(u64, Map<i64, u64>)>>,
}

impl TsmWriter {
    pub closed spec fn wf(&self) -> bool {
        &&& index_wf(index_view(self.index@))
        &&& self.bloom.wf()
        &&& self.buf@.len() <= MAX_TSM_BYTES
        &&& 24 * self.block_count + 5 <= self.buf@.len()
        &&& self.buf@.subrange(0, 5) == header_bytes()
        &&& forall|f: u64| blocks_of(index_view(self.index@), f).len() > 0 ==> self.bloom.may_contain(f)
        &&& bounds_cover(index_view(self.index@), self.min_ts, self.max_ts)
        &&& bounds_attained(index_view(self.index@), self.min_ts, self.max_ts)
        &&& forall|j: int| 0 <= j < self.merged@.len() ==> #[trigger] holds_block(self.buf@, index_view(self.index@), self.merged@[j].0, self.merged@[j].1)
    }

    /// The bytes written so far.
    pub closed spec fn image(&self) -> Seq<u8> {
        self.buf@
    }

    /// The index so far: per field id ascending, its blocks in write order.
    pub closed spec fn index(&self) -> Seq<IndexView> {
        index_view(self.index@)
    }

    pub closed spec fn bloom(&self) -> BloomFilter {
        self.bloom
    }

    /// What `wf` gives a reader of the file.
    pub proof fn lemma_wf(&self)
        requires
            self.wf(),
        ensures
            index_wf(self.index()),
            self.bloom().wf(),
            self.image().len() <= MAX_TSM_BYTES,
            self.image().len() >= HEADER_LEN,
            self.image().subrange(0, 5) == header_bytes(),
            forall|f: u64| blocks_of(self.index(), f).len() > 0 ==> #[trigger] self.bloom().may_contain(f),
            forall|j: int| 0 <= j < self.written().len() ==> #[trigger] holds_block(self.image(), self.index(), self.written()[j].0, self.written()[j].1),
    {
    }

    /// The writer's bounds are those of the blocks written: its least
    /// timestamp is the least of the blocks' least, its greatest the
    /// greatest of their greatest; with no block, `i64::MAX` and `i64::MIN`.
    pub proof fn lemma_bounds_cover_blocks(&self)
        requires
            self.wf(),
        ensures
            bounds_cover(self.index(), self.spec_min_ts(), self.spec_max_ts()),
            bounds_attained(self.index(), self.spec_min_ts(), self.spec_max_ts()),
    {
    }

    pub closed spec fn is_finished(&self) -> bool {
        self.finished
    }

    pub closed spec fn path_name(&self) -> Seq<char> {
        self.path@
    }

    pub closed spec fn spec_min_ts(&self) -> i64 {
        self.min_ts
    }

    pub closed spec fn spec_max_ts(&self) -> i64 {
        self.max_ts
    }

    pub closed spec fn spec_max_size(&self) -> u64 {
        self.max_size
    }

    pub closed spec fn spec_sequence(&self) -> u64 {
        self.sequence
    }

    pub closed spec fn spec_is_delta(&self) -> bool {
        self.is_delta
    }

    /// The blocks that `write_block` wrote, in order: each field id with
    /// the block's points.
    pub closed spec fn written(&self) -> Seq<(u64, Map<i64, u64>)> {
        self.merged@
    }

    /// How many blocks were written.
    pub closed spec fn blocks_written(&self) -> nat {
        self.block_count as nat
    }

    /// Everything but the image, the index, the bounds and the block count is as in `old`.
    pub open spec fn same_setup(&self, old: &TsmWriter) -> bool {
        &&& self.path_name() == old.path_name()
        &&& self.spec_sequence() == old.spec_sequence()
        &&& self.spec_is_delta() == old.spec_is_delta()
        &&& self.spec_max_size() == old.spec_max_size()
        &&& self.is_finished() == old.is_finished()
    }

    /// A writer for the file at `path`, holding the header. A `max_size` of 0
    /// sets no bound on the file's size.
    pub fn open(path: String, sequence: u64, is_delta: bool, max_size: u64) -> (r: TsmWriter)
        ensures
            r.wf(),
            r.image() == header_bytes(),
            r.index() == Seq::<IndexView>::empty(),
            !r.is_finished(),
            r.path_name() == path@,
            r.spec_sequence() == sequence,
            r.spec_is_delta() == is_delta,
            r.spec_max_size() == max_size,
            r.spec_min_ts() == i64::MAX,
            r.spec_max_ts() == i64::MIN,
            r.blocks_written() == 0,
            r.written() == Seq::<(u64, Map<i64, u64>)>::empty(),
    {
        let mut buf: Vec<u8> = Vec::new();
        put_u32(&mut buf, TSM_MAGIC);
        buf.push(TSM_VERSION);
        let index: Vec<IndexEntry> = Vec::new();
        proof {
            assert(buf@ =~= header_bytes());
            assert(buf@.subrange(0, 5) =~= header_bytes());
            assert(index_view(index@) =~= Seq::<IndexView>::empty());
        }
        TsmWriter {
            path,
            finished: false,
            buf,
            sequence,
            is_delta,
            min_ts: i64::MAX,
            max_ts: i64::MIN,
            max_size,
            index,
            bloom: BloomFilter::new(),
            block_count: 0,
            merged: Ghost(Seq::empty()),
        }
    }

    pub fn finished(&self) -> (r: bool)
        ensures
            r == self.is_finished(),
    {
        self.finished
    }

    /// Where the file is: `<path>.tmp` while it is written, `<path>` once
    /// finished.
    pub fn path(&self) -> (r: String)
        ensures
            self.is_finished() ==> r@ == self.path_name(),
            !self.is_finished() ==> r@ == self.path_name() + ".tmp"@,
    {
        if self.finished {
            self.path.clone()
        } else {
            let mut t = self.path.clone();
            t.append(".tmp");
            t
        }
    }

    /// The final path of the file.
    pub fn final_path(&self) -> (r: String)
        ensures
            r@ == self.path_name(),
    {
        self.path.clone()
    }

    pub fn sequence(&self) -> (r: u64)
        ensures
            r == self.spec_sequence(),
    {
        self.sequence
    }

    pub fn is_delta(&self) -> (r: bool)
        ensures
            r == self.spec_is_delta(),
    {
        self.is_delta
    }

    /// The least timestamp of the blocks written, `i64::MAX` before any.
    pub fn min_ts(&self) -> (r: i64)
        ensures
            r == self.spec_min_ts(),
    {
        self.min_ts
    }

    /// The greatest timestamp of the blocks written, `i64::MIN` before any.
    pub fn max_ts(&self) -> (r: i64)
        ensures
            r == self.spec_max_ts(),
    {
        self.max_ts
    }

    /// The size of the file so far.
    pub fn size(&self) -> (r: u64)
        ensures
            r == self.image().len(),
    {
        self.buf.len() as u64
    }

    /// The image written so far.
    pub fn bytes(&self) -> (r: &Vec<u8>)
        ensures
            r@ == self.image(),
    {
        &self.buf
    }

    pub fn bloom_filter_cloned(&self) -> (r: BloomFilter)
        requires
            self.wf(),
        ensures
            r.wf(),
            r.bits() == self.bloom().bits(),
    {
        self.bloom.copy()
    }

    /// Nothing that the contracts speak of changed.
    pub open spec fn unchanged(&self, old: &TsmWriter) -> bool {
        &&& self.same_setup(old)
        &&& self.image() == old.image()
        &&& self.index() == old.index()
        &&& self.spec_min_ts() == old.spec_min_ts()
        &&& self.spec_max_ts() == old.spec_max_ts()
        &&& self.blocks_written() == old.blocks_written()
        &&& self.bloom().bits() == old.bloom().bits()
        &&& self.written() == old.written()
    }

    /// How many blocks of `fid` the index holds.
    fn field_block_count(&self, fid: u64) -> (r: (usize, usize))
        requires
            self.wf(),
        ensures
            r.0 <= self.index@.len(),
            forall|k: int| 0 <= k < r.0 ==> self.index@[k].field_id < fid,
            r.0 < self.index@.len() ==> self.index@[r.0 as int].field_id >= fid,
            r.1 == blocks_of(self.index(), fid).len(),
            r.0 < self.index@.len() && self.index@[r.0 as int].field_id == fid ==> self.index@[r.0 as int].blocks@.len() == r.1,
    {
        let p = field_position(&self.index, fid);
        proof {
            lemma_blocks_of_at(self.index(), fid, p as int);
        }
        if p < self.index.len() && self.index[p].field_id == fid {
            (p, self.index[p].blocks.len())
        } else {
            (p, 0)
        }
    }

    /// Appends one block of `field_id` and records it in the index. Fails,
    /// changing nothing, once finished; on a block of more than
    /// `MAX_BLOCK_VALUES` values; on a field that has `MAX_BLOCKS_PER_FIELD`
    /// blocks; when the file would grow past `MAX_TSM_BYTES`; and, where
    /// `max_size` is not 0, when it would grow past `max_size`, naming the
    /// index of the block not written. An empty block writes nothing.
    pub fn write_block(&mut self, field_id: u64, block: &DataBlock) -> (r: Result<usize, WriteTsmError>)
        requires
            old(self).wf(),
            block.wf(),
        ensures
            final(self).wf(),
            final(self).same_setup(old(self)),
            r is Err ==> final(self).unchanged(old(self)),
            old(self).is_finished() ==> (r matches Err(WriteTsmError::Finished { path }) && path@ == old(self).path_name()),
            !old(self).is_finished() && block.ts@.len() == 0 ==> r == Ok::<usize, WriteTsmError>(0) && final(self).unchanged(old(self)),
            !old(self).is_finished() && block.ts@.len() > 0 ==> {
                let n = block_bytes(block.ts@, block.val@).len();
                let len = old(self).image().len();
                &&& block.ts@.len() > MAX_BLOCK_VALUES ==> (r matches Err(WriteTsmError::Encode { reason }) && reason == EncodeError::TooManyValues)
                &&& block.ts@.len() <= MAX_BLOCK_VALUES && blocks_of(old(self).index(), field_id).len() >= MAX_BLOCKS_PER_FIELD ==> (r matches Err(WriteTsmError::Encode { reason }) && reason == EncodeError::TooManyBlocks)
                &&& block.ts@.len() <= MAX_BLOCK_VALUES && blocks_of(old(self).index(), field_id).len() < MAX_BLOCKS_PER_FIELD && (len + n > MAX_TSM_BYTES || n > usize::MAX) ==> (r matches Err(WriteTsmError::Encode { reason }) && reason == EncodeError::FileTooLarge)
                &&& block.ts@.len() <= MAX_BLOCK_VALUES && blocks_of(old(self).index(), field_id).len() < MAX_BLOCKS_PER_FIELD && len + n <= MAX_TSM_BYTES && n <= usize::MAX && old(self).spec_max_size() > 0 && len + n > old(self).spec_max_size() ==> (r matches Err(WriteTsmError::MaxFileSizeExceed { detail }) && detail.max_file_size == old(self).spec_max_size() && detail.block_index == old(self).blocks_written())
                &&& block.ts@.len() <= MAX_BLOCK_VALUES && blocks_of(old(self).index(), field_id).len() < MAX_BLOCKS_PER_FIELD && len + n <= MAX_TSM_BYTES && n <= usize::MAX && (old(self).spec_max_size() == 0 || len + n <= old(self).spec_max_size()) ==> {
                    &&& r == Ok::<usize, WriteTsmError>(n as usize)
                    &&& final(self).image() == old(self).image() + block_bytes(block.ts@, block.val@)
                    &&& final(self).index() == index_insert(old(self).index(), field_id, block.field_type, entry_at(block.ts@, len as u64))
                    &&& final(self).written() == old(self).written().push((field_id, block.points()))
                    &&& final(self).spec_min_ts() == min_i64(old(self).spec_min_ts(), block.ts@[0])
                    &&& final(self).spec_max_ts() == max_i64(old(self).spec_max_ts(), block.ts@.last())
                    &&& final(self).blocks_written() == old(self).blocks_written() + 1
                }
            },
    {
        if self.finished {
            return Err(WriteTsmError::Finished { path: self.path.clone() });
        }
        let n = block.ts.len();
        if n == 0 {
            return Ok(0);
        }
        if n > MAX_BLOCK_VALUES {
            return Err(WriteTsmError::Encode { reason: EncodeError::TooManyValues });
        }
        let (p, cnt) = self.field_block_count(field_id);
        if cnt >= MAX_BLOCKS_PER_FIELD {
            return Err(WriteTsmError::Encode { reason: EncodeError::TooManyBlocks });
        }
        let ts_buf = encode_ts(&block.ts);
        let val_buf = encode_vals(&block.val);
        proof {
            lemma_enc_ts(block.ts@);
            lemma_enc_vals(block.val@);
        }
        let size: u64 = 8 + 16 * (n as u64);
        let len = self.buf.len() as u64;
        if size > MAX_TSM_BYTES - len || size > usize::MAX as u64 {
            return Err(WriteTsmError::Encode { reason: EncodeError::FileTooLarge });
        }
        if self.max_size > 0 && len + size > self.max_size {
            return Err(WriteTsmError::MaxFileSizeExceed {
                detail: MaxFileSizeExceedError { max_file_size: self.max_size, block_index: self.block_count },
            });
        }
        let ghost before = self.buf@;
        let ts_crc = crc32(ts_buf.as_slice());
        let val_crc = crc32(val_buf.as_slice());
        put_u32(&mut self.buf, ts_crc);
        let mut tsb = ts_buf;
        self.buf.append(&mut tsb);
        put_u32(&mut self.buf, val_crc);
        let mut valb = val_buf;
        self.buf.append(&mut valb);
        proof {
            assert(self.buf@ =~= before + block_bytes(block.ts@, block.val@));
            assert(self.buf@.subrange(0, 5) =~= before.subrange(0, 5));
            assert(self.buf@.subrange(0, before.len() as int) =~= before);
            assert forall|j: int| 0 <= j < self.merged@.len() implies #[trigger] holds_block(self.buf@, index_view(self.index@), self.merged@[j].0, self.merged@[j].1) by {
                lemma_holds_block_grow(before, index_view(self.index@), self.buf@, index_view(self.index@), self.merged@[j].0, self.merged@[j].1);
            }
        }
        let entry = BlockEntry {
            min_ts: block.ts[0],
            max_ts: block.ts[n - 1],
            count: n as u32,
            offset: len,
            size,
            val_offset: len + 4 + 8 * (n as u64),
        };
        self.insert_block_meta(field_id, block.field_type, entry, p);
        self.block_count = self.block_count + 1;
        let ghost old_merged = self.merged@;
        self.merged = Ghost(self.merged@.push((field_id, block.points())));
        proof {
            let ni = index_view(self.index@);
            let es = blocks_of(ni, field_id);
            let oi = old(self).index();
            lemma_blocks_of_insert(oi, field_id, block.field_type, entry, field_id);
            let k = blocks_of(oi, field_id).len() as int;
            assert(es[k] == entry);
            assert(self.buf@.subrange(len as int, len + size) == block_bytes(block.ts@, block.val@)) by {
                assert(self.buf@.subrange(len as int, len + size) =~= (before + block_bytes(block.ts@, block.val@)).subrange(len as int, len + size));
            }
            assert(block_at(self.buf@, es, k, block.ts@, block.val@));
            assert forall|j: int| 0 <= j < self.merged@.len() implies #[trigger] holds_block(self.buf@, ni, self.merged@[j].0, self.merged@[j].1) by {
                if j < old_merged.len() {
                    assert(self.merged@[j] == old_merged[j]);
                }
            }
        }
        Ok(size as usize)
    }

    /// Appends a block already encoded by another file, described by `meta`,
    /// and records it in the index at its new offset. Fails as `write_block`
    /// does, and with `BadRawBlock` where `meta`'s value offset does not lie
    /// inside `raw` after its offset, or `raw` is shorter than the smallest
    /// block.
    pub fn write_raw(&mut self, meta: &BlockMeta, raw: &Vec<u8>) -> (r: Result<usize, WriteTsmError>)
        requires
            old(self).wf(),
        ensures
            final(self).wf(),
            final(self).same_setup(old(self)),
            r is Err ==> final(self).unchanged(old(self)),
            old(self).is_finished() ==> (r matches Err(WriteTsmError::Finished { path }) && path@ == old(self).path_name()),
            !old(self).is_finished() ==> {
                let n = raw@.len();
                let len = old(self).image().len();
                let ts_len = meta.val_offset - meta.offset;
                let bad = n < MIN_BLOCK_BYTES || meta.val_offset < meta.offset || ts_len > n;
                let full = blocks_of(old(self).index(), meta.field_id).len() >= MAX_BLOCKS_PER_FIELD;
                let large = len + n > MAX_TSM_BYTES;
                let over = old(self).spec_max_size() > 0 && len + n > old(self).spec_max_size();
                &&& bad ==> (r matches Err(WriteTsmError::Encode { reason }) && reason == EncodeError::BadRawBlock)
                &&& !bad && full ==> (r matches Err(WriteTsmError::Encode { reason }) && reason == EncodeError::TooManyBlocks)
                &&& !bad && !full && large ==> (r matches Err(WriteTsmError::Encode { reason }) && reason == EncodeError::FileTooLarge)
                &&& !bad && !full && !large && over ==> (r matches Err(WriteTsmError::MaxFileSizeExceed { detail }) && detail.max_file_size == old(self).spec_max_size() && detail.block_index == old(self).blocks_written())
                &&& !bad && !full && !large && !over ==> {
                    &&& r == Ok::<usize, WriteTsmError>(n as usize)
                    &&& final(self).image() == old(self).image() + raw@
                    &&& final(self).written() == old(self).written()
                    &&& final(self).index() == index_insert(old(self).index(), meta.field_id, meta.field_type, BlockEntry {
                        min_ts: meta.min_ts,
                        max_ts: meta.max_ts,
                        count: meta.count,
                        offset: len as u64,
                        size: n as u64,
                        val_offset: (len + ts_len) as u64,
                    })
                    &&& final(self).spec_min_ts() == min_i64(old(self).spec_min_ts(), meta.min_ts)
                    &&& final(self).spec_max_ts() == max_i64(old(self).spec_max_ts(), meta.max_ts)
                    &&& final(self).blocks_written() == old(self).blocks_written() + 1
                }
            },
    {
        if self.finished {
            return Err(WriteTsmError::Finished { path: self.path.clone() });
        }
        let n = raw.len();
        if n < MIN_BLOCK_BYTES || meta.val_offset < meta.offset || meta.val_offset - meta.offset > n as u64 {
            return Err(WriteTsmError::Encode { reason: EncodeError::BadRawBlock });
        }
        let ts_len = meta.val_offset - meta.offset;
        let (p, cnt) = self.field_block_count(meta.field_id);
        if cnt >= MAX_BLOCKS_PER_FIELD {
            return Err(WriteTsmError::Encode { reason: EncodeError::TooManyBlocks });
        }
        let len = self.buf.len() as u64;
        if n as u64 > MAX_TSM_BYTES - len {
            return Err(WriteTsmError::Encode { reason: EncodeError::FileTooLarge });
        }
        if self.max_size > 0 && len + n as u64 > self.max_size {
            return Err(WriteTsmError::MaxFileSizeExceed {
                detail: MaxFileSizeExceedError { max_file_size: self.max_size, block_index: self.block_count },
            });
        }
        let mut copy = raw.clone();
        proof {
            assert(copy@ =~= raw@);
        }
        let ghost before = self.buf@;
        self.buf.append(&mut copy);
        proof {
            assert(self.buf@.subrange(0, 5) =~= before.subrange(0, 5));
            assert(self.buf@.subrange(0, before.len() as int) =~= before);
            assert forall|j: int| 0 <= j < self.merged@.len() implies #[trigger] holds_block(self.buf@, index_view(self.index@), self.merged@[j].0, self.merged@[j].1) by {
                lemma_holds_block_grow(before, index_view(self.index@), self.buf@, index_view(self.index@), self.merged@[j].0, self.merged@[j].1);
            }
        }
        let entry = BlockEntry {
            min_ts: meta.min_ts,
            max_ts: meta.max_ts,
            count: meta.count,
            offset: len,
            size: n as u64,
            val_offset: len + ts_len,
        };
        self.insert_block_meta(meta.field_id, meta.field_type, entry, p);
        self.block_count = self.block_count + 1;
        Ok(n)
    }

    /// Appends the index and the footer: the bloom filter and the offset at
    /// which the index starts.
    pub fn write_index(&mut self) -> (r: Result<usize, WriteTsmError>)
        requires
            old(self).wf(),
        ensures
            final(self).wf(),
            final(self).same_setup(old(self)),
            r is Err ==> final(self).unchanged(old(self)),
            old(self).is_finished() ==> (r matches Err(WriteTsmError::Finished { path }) && path@ == old(self).path_name()),
            !old(self).is_finished() ==> {
                let tail = enc_index(old(self).index()) + old(self).bloom().bits() + be64(old(self).image().len() as u64);
                &&& old(self).image().len() + tail.len() > MAX_TSM_BYTES ==> (r matches Err(WriteTsmError::Encode { reason }) && reason == EncodeError::FileTooLarge)
                &&& old(self).image().len() + tail.len() <= MAX_TSM_BYTES ==> {
                    &&& r == Ok::<usize, WriteTsmError>(tail.len() as usize)
                    &&& final(self).image() == old(self).image() + tail
                    &&& final(self).index() == old(self).index()
                    &&& final(self).spec_min_ts() == old(self).spec_min_ts()
                    &&& final(self).spec_max_ts() == old(self).spec_max_ts()
                    &&& final(self).blocks_written() == old(self).blocks_written()
                    &&& final(self).written() == old(self).written()
                }
            },
    {
        if self.finished {
            return Err(WriteTsmError::Finished { path: self.path.clone() });
        }
        let index_offset = self.buf.len() as u64;
        let mut tail = encode_index(&self.index);
        let bloom = self.bloom.bytes();
        let mut k: usize = 0;
        let ghost idx_bytes = tail@;
        while k < bloom.len()
            invariant
                k <= bloom@.len(),
                tail@ == idx_bytes + bloom@.subrange(0, k as int),
            decreases bloom@.len() - k,
        {
            tail.push(bloom[k]);
            k += 1;
            proof {
                assert(tail@ =~= idx_bytes + bloom@.subrange(0, k as int));
            }
        }
        proof {
            assert(bloom@.subrange(0, bloom@.len() as int) =~= bloom@);
        }
        put_u64(&mut tail, index_offset);
        if tail.len() as u64 > MAX_TSM_BYTES - index_offset {
            return Err(WriteTsmError::Encode { reason: EncodeError::FileTooLarge });
        }
        let n = tail.len();
        let ghost before = self.buf@;
        self.buf.append(&mut tail);
        proof {
            assert(self.buf@.subrange(0, 5) =~= before.subrange(0, 5));
            assert(self.buf@.subrange(0, before.len() as int) =~= before);
            assert forall|j: int| 0 <= j < self.merged@.len() implies #[trigger] holds_block(self.buf@, index_view(self.index@), self.merged@[j].0, self.merged@[j].1) by {
                lemma_holds_block_grow(before, index_view(self.index@), self.buf@, index_view(self.index@), self.merged@[j].0, self.merged@[j].1);
            }
        }
        Ok(n)
    }

    /// Marks the file complete; every later write fails.
    pub fn finish(&mut self) -> (r: Result<(), WriteTsmError>)
        requires
            old(self).wf(),
        ensures
            final(self).wf(),
            final(self).is_finished(),
            final(self).image() == old(self).image(),
            final(self).index() == old(self).index(),
            final(self).path_name() == old(self).path_name(),
            final(self).spec_sequence() == old(self).spec_sequence(),
            final(self).spec_min_ts() == old(self).spec_min_ts(),
            final(self).spec_max_ts() == old(self).spec_max_ts(),
            final(self).written() == old(self).written(),
            old(self).is_finished() ==> (r matches Err(WriteTsmError::Finished { path }) && path@ == old(self).path_name()),
            !old(self).is_finished() ==> r is Ok,
    {
        if self.finished {
            return Err(WriteTsmError::Finished { path: self.path.clone() });
        }
        self.finished = true;
        Ok(())
    }

    /// Records one more block of `fid` in the index and the bloom filter.
    fn insert_block_meta(&mut self, fid: u64, ft: u8, be: BlockEntry, p: usize)
        requires
            old(self).wf(),
            p <= old(self).index@.len(),
            forall|k: int| 0 <= k < p ==> old(self).index@[k].field_id < fid,
            p < old(self).index@.len() ==> old(self).index@[p as int].field_id >= fid,
            p < old(self).index@.len() && old(self).index@[p as int].field_id == fid ==> old(self).index@[p as int].blocks@.len() < MAX_BLOCKS_PER_FIELD,
        ensures
            final(self).wf(),
            final(self).index() == index_insert(old(self).index(), fid, ft, be),
            final(self).buf == old(self).buf,
            final(self).path == old(self).path,
            final(self).finished == old(self).finished,
            final(self).sequence == old(self).sequence,
            final(self).is_delta == old(self).is_delta,
            final(self).min_ts == min_i64(old(self).min_ts, be.min_ts),
            final(self).max_ts == max_i64(old(self).max_ts, be.max_ts),
            final(self).max_size == old(self).max_size,
            final(self).block_count == old(self).block_count,
            final(self).merged == old(self).merged,
    {
        let ghost idx = index_view(self.index@);
        let ghost lo0 = self.min_ts;
        let ghost hi0 = self.max_ts;
        if be.min_ts < self.min_ts {
            self.min_ts = be.min_ts;
        }
        if be.max_ts > self.max_ts {
            self.max_ts = be.max_ts;
        }
        proof {
            lemma_index_insert_at(idx, fid, ft, be, p as int);
        }
        if p < self.index.len() && self.index[p].field_id == fid {
            let mut e = self.index.remove(p);
            e.blocks.push(be);
            self.index.insert(p, e);
            proof {
                assert(index_view(self.index@) =~= idx.update(p as int, (fid, idx[p as int].1, idx[p as int].2.push(be))));
            }
        } else {
            let e = IndexEntry { field_id: fid, field_type: ft, blocks: vec![be] };
            self.index.insert(p, e);
            proof {
                assert(e@.2 =~= seq![be]);
                assert(index_view(self.index@) =~= idx.insert(p as int, (fid, ft, seq![be])));
            }
        }
        self.bloom.insert(fid);
        proof {
            let ni = index_view(self.index@);
            assert forall|f: u64| blocks_of(ni, f).len() > 0 implies self.bloom.may_contain(f) by {
                lemma_blocks_of_insert(idx, fid, ft, be, f);
            }
            lemma_blocks_of_insert(idx, fid, ft, be, fid);
            let kn = blocks_of(idx, fid).len() as int;
            assert(blocks_of(ni, fid)[kn] == be);
            assert(blocks_of(ni, fid).len() > 0);
            assert(has_block(ni));
            if has_block(idx) {
                let (f1, k1) = choose|f: u64, k: int| 0 <= k < blocks_of(idx, f).len() && (#[trigger] blocks_of(idx, f)[k]).min_ts == lo0;
                lemma_blocks_of_insert(idx, fid, ft, be, f1);
                assert(blocks_of(ni, f1)[k1] == blocks_of(idx, f1)[k1]);
                let (f2, k2) = choose|f: u64, k: int| 0 <= k < blocks_of(idx, f).len() && (#[trigger] blocks_of(idx, f)[k]).max_ts == hi0;
                lemma_blocks_of_insert(idx, fid, ft, be, f2);
                assert(blocks_of(ni, f2)[k2] == blocks_of(idx, f2)[k2]);
            }
            assert(min_attained(ni, self.min_ts));
            assert(max_attained(ni, self.max_ts));
            assert forall|j: int| 0 <= j < self.merged@.len() implies #[trigger] holds_block(self.buf@, ni, self.merged@[j].0, self.merged@[j].1) by {
                let f = self.merged@[j].0;
                lemma_blocks_of_insert(idx, fid, ft, be, f);
                assert forall|k: int| 0 <= k < blocks_of(idx, f).len() implies blocks_of(ni, f)[k] == blocks_of(idx, f)[k] by {}
                assert(self.buf@.subrange(0, self.buf@.len() as int) =~= self.buf@);
                lemma_holds_block_grow(self.buf@, idx, self.buf@, ni, f, self.merged@[j].1);
            }
            assert forall|f: u64, k: int| 0 <= k < blocks_of(ni, f).len() implies self.min_ts <= (#[trigger] blocks_of(ni, f)[k]).min_ts && blocks_of(ni, f)[k].max_ts <= self.max_ts by {
                lemma_blocks_of_insert(idx, fid, ft, be, f);
                if f == fid && k == blocks_of(idx, f).len() {
                } else {
                    assert(blocks_of(ni, f)[k] == blocks_of(idx, f)[k]);
                }
            }
        }
    }
}

proof fn lemma_blocks_of_at(idx: Seq<IndexView>, fid: u64, p: int)
    requires
        forall|i: int, j: int| 0 <= i < j < idx.len() ==> idx[i].0 < idx[j].0,
        0 <= p <= idx.len(),
        forall|k: int| 0 <= k < p ==> idx[k].0 < fid,
        p < idx.len() ==> idx[p].0 >= fid,
    ensures
        blocks_of(idx, fid) == if p < idx.len() && idx[p].0 == fid {
            idx[p].2
        } else {
            Seq::<BlockEntry>::empty()
        },
    decreases p,
{
    if p == 0 {
        if idx.len() > 0 && idx[0].0 != fid {
            lemma_blocks_of_absent(idx, fid);
        }
    } else {
        let r = idx.drop_first();
        assert forall|i: int, j: int| 0 <= i < j < r.len() implies r[i].0 < r[j].0 by {
            assert(r[i] == idx[i + 1] && r[j] == idx[j + 1]);
        }
        lemma_blocks_of_at(r, fid, p - 1);
    }
}

/// Every block of the index lies within `lo ..= hi`.
pub open spec fn bounds_cover(idx: Seq<IndexView>, lo: i64, hi: i64) -> bool {
    forall|f: u64, k: int| 0 <= k < blocks_of(idx, f).len() ==> lo <= (#[trigger] blocks_of(idx, f)[k]).min_ts && blocks_of(idx, f)[k].max_ts <= hi
}

/// The image holds, at an entry the index keeps for `fid`, the bytes of a
/// block whose points are `pts`, and the entry describes that block.
pub open spec fn holds_block(img: Seq<u8>, idx: Seq<IndexView>, fid: u64, pts: Map<i64, u64>) -> bool {
    exists|k: int, ts: Seq<i64>, val: Seq<u64>| #[trigger] block_at(img, blocks_of(idx, fid), k, ts, val) && points(ts, val) == pts
}

/// Entry `k` of `es` holds the block of columns `ts` and `val` in `img`.
pub open spec fn block_at(img: Seq<u8>, es: Seq<BlockEntry>, k: int, ts: Seq<i64>, val: Seq<u64>) -> bool {
    &&& 0 <= k < es.len()
    &&& 0 < ts.len() <= MAX_BLOCK_VALUES
    &&& ts.len() == val.len()
    &&& strictly_ascending(ts)
    &&& es[k] == entry_at(ts, es[k].offset)
    &&& es[k].offset + es[k].size <= img.len()
    &&& img.subrange(es[k].offset as int, es[k].offset + es[k].size) == block_bytes(ts, val)
}

/// A block held stays held as the image grows and the index keeps its entries.
proof fn lemma_holds_block_grow(img: Seq<u8>, idx: Seq<IndexView>, img2: Seq<u8>, idx2: Seq<IndexView>, fid: u64, pts: Map<i64, u64>)
    requires
        holds_block(img, idx, fid, pts),
        img.len() <= img2.len(),
        img2.subrange(0, img.len() as int) == img,
        blocks_of(idx, fid).len() <= blocks_of(idx2, fid).len(),
        forall|k: int| 0 <= k < blocks_of(idx, fid).len() ==> blocks_of(idx2, fid)[k] == blocks_of(idx, fid)[k],
    ensures
        holds_block(img2, idx2, fid, pts),
{
    let (k, ts, val) = choose|k: int, ts: Seq<i64>, val: Seq<u64>| #[trigger] block_at(img, blocks_of(idx, fid), k, ts, val) && points(ts, val) == pts;
    let e = blocks_of(idx, fid)[k];
    assert(img2.subrange(e.offset as int, e.offset + e.size) =~= img.subrange(e.offset as int, e.offset + e.size));
    assert(block_at(img2, blocks_of(idx2, fid), k, ts, val));
}

/// The index holds some block.
pub open spec fn has_block(idx: Seq<IndexView>) -> bool {
    exists|f: u64| #[trigger] blocks_of(idx, f).len() > 0
}

/// Some block of the index starts at `lo`.
pub open spec fn min_attained(idx: Seq<IndexView>, lo: i64) -> bool {
    exists|f: u64, k: int| 0 <= k < blocks_of(idx, f).len() && (#[trigger] blocks_of(idx, f)[k]).min_ts == lo
}

/// Some block of the index ends at `hi`.
pub open spec fn max_attained(idx: Seq<IndexView>, hi: i64) -> bool {
    exists|f: u64, k: int| 0 <= k < blocks_of(idx, f).len() && (#[trigger] blocks_of(idx, f)[k]).max_ts == hi
}

/// With no block the bounds are `i64::MAX` and `i64::MIN`; with blocks,
/// some block starts at `lo` and some block ends at `hi`.
pub open spec fn bounds_attained(idx: Seq<IndexView>, lo: i64, hi: i64) -> bool {
    &&& !has_block(idx) ==> lo == i64::MAX && hi == i64::MIN
    &&& has_block(idx) ==> min_attained(idx, lo) && max_attained(idx, hi)
}

/// The entry a block gets when written at `offset`.
pub open spec fn entry_at(ts: Seq<i64>, offset: u64) -> BlockEntry {
    BlockEntry {
        min_ts: ts[0],
        max_ts: ts.last(),
        count: ts.len() as u32,
        offset,
        size: (8 + 16 * ts.len()) as u64,
        val_offset: (offset + 4 + 8 * ts.len()) as u64,
    }
}

pub open spec fn min_i64(a: i64, b: i64) -> i64 {
    if a <= b { a } else { b }
}

pub open spec fn max_i64(a: i64, b: i64) -> i64 {
    if a >= b { a } else { b }
}

pub proof fn lemma_blocks_of_insert(idx: Seq<IndexView>, fid: u64, ft: u8, be: BlockEntry, f: u64)
    requires
        forall|i: int, j: int| 0 <= i < j < idx.len() ==> idx[i].0 < idx[j].0,
    ensures
        blocks_of(index_insert(idx, fid, ft, be), f) == if f == fid {
            blocks_of(idx, f).push(be)
        } else {
            blocks_of(idx, f)
        },
    decreases idx.len(),
{
    if idx.len() == 0 {
        assert(blocks_of(seq![(fid, ft, seq![be])], f) == if f == fid { seq![be] } else { blocks_of(seq![(fid, ft, seq![be])].drop_first(), f) });
        assert(seq![be] =~= Seq::<BlockEntry>::empty().push(be));
    } else if idx[0].0 == fid {
        let n = idx.update(0, (fid, idx[0].1, idx[0].2.push(be)));
        assert(n.drop_first() =~= idx.drop_first());
    } else if idx[0].0 > fid {
        let n = seq![(fid, ft, seq![be])] + idx;
        assert(n.drop_first() =~= idx);
        if f == fid {
            assert(seq![be] =~= Seq::<BlockEntry>::empty().push(be));
            lemma_blocks_of_absent(idx, fid);
        }
    } else {
        let n = seq![idx[0]] + index_insert(idx.drop_first(), fid, ft, be);
        let r = idx.drop_first();
        assert(n.drop_first() =~= index_insert(r, fid, ft, be));
        assert forall|i: int, j: int| 0 <= i < j < r.len() implies r[i].0 < r[j].0 by {
            assert(r[i] == idx[i + 1] && r[j] == idx[j + 1]);
        }
        lemma_blocks_of_insert(r, fid, ft, be, f);
    }
}

proof fn lemma_blocks_of_absent(idx: Seq<IndexView>, fid: u64)
    requires
        idx.len() > 0 ==> idx[0].0 > fid,
        forall|i: int, j: int| 0 <= i < j < idx.len() ==> idx[i].0 < idx[j].0,
    ensures
        blocks_of(idx, fid) == Seq::<BlockEntry>::empty(),
    decreases idx.len(),
{
    if idx.len() > 0 {
        let r = idx.drop_first();
        assert forall|i: int, j: int| 0 <= i < j < r.len() implies r[i].0 < r[j].0 by {
            assert(r[i] == idx[i + 1] && r[j] == idx[j + 1]);
        }
        if r.len() > 0 {
            assert(r[0] == idx[1]);
        }
        lemma_blocks_of_absent(r, fid);
    }
}

} // verus!
