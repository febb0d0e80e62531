//! Compaction: the merge of the TSM files of one level, field id by field
//! id, into new files of the next level, and the manifest records that
//! follow from it.

use vstd::prelude::*;
use crate::block::{merge_blocks, merged_points, strictly_ascending, DataBlock};
use crate::reader::{entry_reads_as, lemma_written_reads_back, block_crcs_match, block_in_bounds, block_sizes_match, block_ts, read_outcome, ReadTsmError, TsmReader};
use crate::summary::{CompactMeta, VersionEdit};
use crate::tsm::{blocks_of, entry_at, lemma_blocks_of_insert, BlockMeta, EncodeError, TsmWriter, WriteTsmError, MAX_BLOCK_VALUES};
use crate::column::{lemma_enc_ts, lemma_enc_vals};

verus! {

/// Whether the time range `r1` overlaps the time range `r2`, both given as
/// (min_ts, max_ts).
pub fn overlaps_tuples(r1: (i64, i64), r2: (i64, i64)) -> (r: bool)
    ensures
        r == (r1.0 <= r2.1 && r1.1 >= r2.0),
{
    r1.0 <= r2.1 && r1.1 >= r2.0
}

/// What the merge yields: a merged block of a field, or a block copied as
/// it was encoded.
pub enum CompactingBlock {
    DataBlock { field_id: u64, data_block: DataBlock },
    Raw { meta: BlockMeta, raw: Vec<u8> },
}

/// The monotonic counters of a node.
pub struct GlobalContext {
    pub last_seq: u64,
    pub file_id: u64,
}

impl GlobalContext {
    pub fn new() -> (r: GlobalContext)
        ensures
            r.last_seq == 0,
            r.file_id == 0,
    {
        GlobalContext { last_seq: 0, file_id: 0 }
    }

    pub fn set_file_id(&mut self, id: u64)
        ensures
            final(self).file_id == id,
            final(self).last_seq == old(self).last_seq,
    {
        self.file_id = id;
    }

    /// Hands out the next file id; `None` once every id is taken.
    pub fn file_id_next(&mut self) -> (r: Option<u64>)
        ensures
            old(self).file_id < u64::MAX ==> r == Some(old(self).file_id) && final(self).file_id == old(self).file_id + 1,
            old(self).file_id == u64::MAX ==> r is None && final(self).file_id == old(self).file_id,
            final(self).last_seq == old(self).last_seq,
    {
        if self.file_id == u64::MAX {
            return None;
        }
        let id = self.file_id;
        self.file_id = id + 1;
        Some(id)
    }
}

/// The metas of the blocks of entry `c` of `r`'s index.
pub open spec fn entry_metas(r: TsmReader, c: int) -> Seq<BlockMeta> {
    let e = r.index()[c];
    Seq::new(e.2.len(), |k: int| BlockMeta {
        field_id: e.0,
        field_type: e.1,
        min_ts: e.2[k].min_ts,
        max_ts: e.2[k].max_ts,
        count: e.2[k].count,
        offset: e.2[k].offset,
        size: e.2[k].size,
        val_offset: e.2[k].val_offset,
    })
}

/// `bs` are the blocks that `metas` point at in `r`, each read whole.
pub open spec fn reads_as(r: TsmReader, metas: Seq<BlockMeta>, bs: Seq<DataBlock>) -> bool {
    &&& bs.len() == metas.len()
    &&& forall|k: int| 0 <= k < bs.len() ==> #[trigger] read_outcome(r.image(), metas[k], Ok::<DataBlock, ReadTsmError>(bs[k]))
}

/// Whether reader `r` at cursor `c` takes part in the turn of `fid`.
pub open spec fn takes_part(r: TsmReader, c: usize, fid: u64) -> bool {
    c < r.index().len() && r.index()[c as int].0 == fid
}

/// `bs` are the blocks of the turn of `fid`: reader by reader, the blocks
/// of each reader that takes part, in stored order.
pub open spec fn turn_reads(rs: Seq<TsmReader>, cs: Seq<usize>, fid: u64, bs: Seq<DataBlock>) -> bool
    decreases rs.len(),
{
    if rs.len() == 0 || cs.len() != rs.len() {
        rs.len() == 0 && cs.len() == 0 && bs.len() == 0
    } else {
        let i = rs.len() - 1;
        if takes_part(rs[i], cs[i], fid) {
            let n = rs[i].index()[cs[i] as int].2.len() as int;
            &&& n <= bs.len()
            &&& turn_reads(rs.drop_last(), cs.drop_last(), fid, bs.subrange(0, bs.len() - n))
            &&& reads_as(rs[i], entry_metas(rs[i], cs[i] as int), bs.subrange(bs.len() - n, bs.len() as int))
        } else {
            turn_reads(rs.drop_last(), cs.drop_last(), fid, bs)
        }
    }
}

/// `blk` is the merge of the blocks of the turn of `fid` over `rs` at
/// cursors `cs`.
pub open spec fn turn_of(rs: Seq<TsmReader>, cs: Seq<usize>, fid: u64, blk: DataBlock) -> bool {
    exists|bs: Seq<DataBlock>| #[trigger] turn_reads(rs, cs, fid, bs) && blk.points() == merged_points(bs)
}

/// The block that `m` points at in `img` reads whole.
pub open spec fn reads_ok(img: Seq<u8>, m: BlockMeta) -> bool {
    &&& block_in_bounds(img, m)
    &&& block_sizes_match(m)
    &&& block_crcs_match(img, m)
    &&& strictly_ascending(block_ts(img, m))
}

/// Every block of the turn of `fid` at cursors `cs` reads whole.
pub open spec fn turn_all_ok(rs: Seq<TsmReader>, cs: Seq<usize>, fid: u64) -> bool {
    forall|i: int, k: int| 0 <= i < rs.len() && takes_part(rs[i], cs[i], fid) && 0 <= k < entry_metas(rs[i], cs[i] as int).len()
        ==> #[trigger] reads_ok(rs[i].image(), entry_metas(rs[i], cs[i] as int)[k])
}

/// Reading some block of the turn of `fid` at cursors `cs` fails with `e`.
pub open spec fn turn_fails_with(rs: Seq<TsmReader>, cs: Seq<usize>, fid: u64, e: ReadTsmError) -> bool {
    exists|i: int, k: int| 0 <= i < rs.len() && takes_part(rs[i], cs[i], fid) && 0 <= k < entry_metas(rs[i], cs[i] as int).len()
        && #[trigger] read_outcome(rs[i].image(), entry_metas(rs[i], cs[i] as int)[k], Err::<DataBlock, ReadTsmError>(e))
}

/// Reading some block of some input fails with `e`.
pub open spec fn input_fails_with(rs: Seq<TsmReader>, e: ReadTsmError) -> bool {
    exists|i: int, c: int, k: int| 0 <= i < rs.len() && 0 <= c < rs[i].index().len() && 0 <= k < rs[i].index()[c].2.len()
        && #[trigger] read_outcome(rs[i].image(), entry_metas(rs[i], c)[k], Err::<DataBlock, ReadTsmError>(e))
}

/// `fid` is the least field id among the next entries at cursors `cs`.
pub open spec fn is_least(rs: Seq<TsmReader>, cs: Seq<usize>, fid: u64) -> bool {
    &&& exists|i: int| 0 <= i < rs.len() && #[trigger] takes_part(rs[i], cs[i], fid)
    &&& forall|i: int| 0 <= i < rs.len() && cs[i] < (#[trigger] rs[i]).index().len() ==> fid <= rs[i].index()[cs[i] as int].0
}

/// The least next field id at cursors `cs`, where some reader has one left.
pub open spec fn least_of(rs: Seq<TsmReader>, cs: Seq<usize>) -> u64 {
    choose|f: u64| is_least(rs, cs, f)
}

proof fn lemma_least_unique(rs: Seq<TsmReader>, cs: Seq<usize>, f: u64, g: u64)
    requires
        is_least(rs, cs, f),
    ensures
        is_least(rs, cs, least_of(rs, cs)),
        is_least(rs, cs, g) ==> f == g,
        least_of(rs, cs) == f,
{
    let l = least_of(rs, cs);
    assert(is_least(rs, cs, l));
    let i = choose|i: int| 0 <= i < rs.len() && #[trigger] takes_part(rs[i], cs[i], f);
    let j = choose|j: int| 0 <= j < rs.len() && #[trigger] takes_part(rs[j], cs[j], l);
    assert(l <= f && f <= l);
    if is_least(rs, cs, g) {
        let k = choose|k: int| 0 <= k < rs.len() && #[trigger] takes_part(rs[k], cs[k], g);
        assert(g <= f && f <= g);
    }
}

/// Every reader is past its last entry.
pub open spec fn all_done(rs: Seq<TsmReader>, cs: Seq<usize>) -> bool {
    forall|i: int| 0 <= i < rs.len() ==> cs[i] == (#[trigger] rs[i]).index().len()
}

/// The cursors once the turn of `fid` is taken: each reader whose next
/// entry has `fid` moves one entry; the others stay.
pub open spec fn advanced(rs: Seq<TsmReader>, cs: Seq<usize>, fid: u64) -> Seq<usize> {
    Seq::new(cs.len(), |i: int| if i < rs.len() && takes_part(rs[i], cs[i], fid) { (cs[i] + 1) as usize } else { cs[i] })
}

/// Merges the files of one level field id by field id. Each turn takes the
/// least field id among the readers' next index entries; every reader whose
/// next entry has that field id takes part and moves past it; the blocks of
/// the turn, in reader order and, within a reader, in stored order, merge
/// into one block, where on equal timestamps the later reader wins.
pub struct CompactIterator {
    readers: Vec<TsmReader>,
    cursors: Vec<usize>,
    last_fid: Option<u64>,
}

impl CompactIterator {
    pub closed spec fn wf(&self) -> bool {
        &&& self.readers@.len() == self.cursors@.len()
        &&& forall|i: int| 0 <= i < self.readers@.len() ==> (#[trigger] self.readers@[i]).wf()
        &&& forall|i: int| 0 <= i < self.readers@.len() ==> self.cursors@[i] <= (#[trigger] self.readers@[i]).index().len()
        &&& forall|i: int| 0 <= i < self.readers@.len() && self.cursors@[i] < (#[trigger] self.readers@[i]).index().len()
            ==> (self.last_fid matches Some(f) ==> f < self.readers@[i].index()[self.cursors@[i] as int].0)
    }

    pub closed spec fn readers(&self) -> Seq<TsmReader> {
        self.readers@
    }

    /// Per reader, the place of its next index entry.
    pub closed spec fn cursors(&self) -> Seq<usize> {
        self.cursors@
    }

    /// What `wf` gives: one cursor per reader, none past its reader's index.
    pub proof fn lemma_wf(&self)
        requires
            self.wf(),
        ensures
            self.cursors().len() == self.readers().len(),
            forall|i: int| 0 <= i < self.readers().len() ==> self.cursors()[i] <= (#[trigger] self.readers()[i]).index().len(),
    {
    }

    /// The field id of the last turn.
    pub closed spec fn last_field(&self) -> Option<u64> {
        self.last_fid
    }

    /// How many index entries are left to merge.
    pub closed spec fn remaining(&self) -> nat {
        remaining_entries(self.readers@, self.cursors@)
    }

    pub fn new(readers: Vec<TsmReader>) -> (r: CompactIterator)
        requires
            forall|i: int| 0 <= i < readers@.len() ==> (#[trigger] readers@[i]).wf(),
        ensures
            r.wf(),
            r.last_field() is None,
            r.readers() == readers@,
            r.cursors() == Seq::new(readers@.len(), |i: int| 0usize),
    {
        let n = readers.len();
        let cursors = vec![0usize; n];
        assert(cursors@ =~= Seq::new(readers@.len(), |i: int| 0usize));
        CompactIterator { readers, cursors, last_fid: None }
    }

    /// The least field id among the readers' next entries, if any is left.
    fn least_field_id(&self) -> (r: Option<u64>)
        requires
            self.wf(),
        ensures
            r is None ==> forall|i: int| 0 <= i < self.readers@.len() ==> self.cursors@[i] == (#[trigger] self.readers@[i]).index().len(),
            r matches Some(f) ==> exists|i: int| 0 <= i < self.readers@.len() && self.cursors@[i] < (#[trigger] self.readers@[i]).index().len() && self.readers@[i].index()[self.cursors@[i] as int].0 == f,
            r matches Some(f) ==> forall|i: int| 0 <= i < self.readers@.len() && self.cursors@[i] < (#[trigger] self.readers@[i]).index().len() ==> f <= self.readers@[i].index()[self.cursors@[i] as int].0,
    {
        let mut best: Option<u64> = None;
        let mut i: usize = 0;
        while i < self.readers.len()
            invariant
                self.wf(),
                i <= self.readers@.len(),
                best is None ==> forall|k: int| 0 <= k < i ==> self.cursors@[k] == (#[trigger] self.readers@[k]).index().len(),
                best matches Some(f) ==> exists|k: int| 0 <= k < i && self.cursors@[k] < (#[trigger] self.readers@[k]).index().len() && self.readers@[k].index()[self.cursors@[k] as int].0 == f,
                best matches Some(f) ==> forall|k: int| 0 <= k < i && self.cursors@[k] < (#[trigger] self.readers@[k]).index().len() ==> f <= self.readers@[k].index()[self.cursors@[k] as int].0,
            decreases self.readers@.len() - i,
        {
            let entries = self.readers[i].index_entries();
            let c = self.cursors[i];
            proof {
                assert(self.readers@[i as int].index().len() == entries@.len());
            }
            if c < entries.len() {
                let f = entries[c].field_id;
                proof {
                    assert(self.readers@[i as int].index()[c as int].0 == f);
                }
                best = match best {
                    Some(b) => if f < b { Some(f) } else { Some(b) },
                    None => Some(f),
                };
            }
            i += 1;
        }
        best
    }

    /// Reads the blocks of the turn of field id `fid`: the blocks of each
    /// reader whose next entry has that field id, in reader order.
    fn read_turn(&self, fid: u64) -> (r: Result<Vec<DataBlock>, ReadTsmError>)
        requires
            self.wf(),
        ensures
            r matches Ok(bs) ==> forall|k: int| 0 <= k < bs@.len() ==> (#[trigger] bs@[k]).wf(),
            r matches Ok(bs) ==> turn_reads(self.readers@, self.cursors@, fid, bs@),
            r is Ok <==> turn_all_ok(self.readers@, self.cursors@, fid),
            r matches Err(e) ==> turn_fails_with(self.readers@, self.cursors@, fid, e),
    {
        let mut blocks: Vec<DataBlock> = Vec::new();
        let mut i: usize = 0;
        let ghost rs = self.readers@;
        let ghost cs = self.cursors@;
        proof {
            assert(rs.subrange(0, 0).len() == 0 && cs.subrange(0, 0).len() == 0);
        }
        while i < self.readers.len()
            invariant
                self.wf(),
                rs == self.readers@,
                cs == self.cursors@,
                i <= self.readers@.len(),
                forall|k: int| 0 <= k < blocks@.len() ==> (#[trigger] blocks@[k]).wf(),
                turn_reads(rs.subrange(0, i as int), cs.subrange(0, i as int), fid, blocks@),
                forall|j: int, k: int| 0 <= j < i && takes_part(rs[j], cs[j], fid) && 0 <= k < entry_metas(rs[j], cs[j] as int).len()
                    ==> #[trigger] reads_ok(rs[j].image(), entry_metas(rs[j], cs[j] as int)[k]),
            decreases self.readers@.len() - i,
        {
            let entries = self.readers[i].index_entries();
            let c = self.cursors[i];
            let ghost base = blocks@;
            proof {
                assert(rs.subrange(0, i + 1).drop_last() =~= rs.subrange(0, i as int));
                assert(cs.subrange(0, i + 1).drop_last() =~= cs.subrange(0, i as int));
                assert(rs[i as int].index().len() == entries@.len());
            }
            if c < entries.len() && entries[c].field_id == fid {
                let metas = self.readers[i].block_metas(c);
                let ghost em = entry_metas(rs[i as int], c as int);
                proof {
                    assert(rs[i as int].index()[c as int] == entries@[c as int]@);
                    assert(metas@ =~= em);
                    assert(takes_part(rs[i as int], cs[i as int], fid));
                }
                let mut k: usize = 0;
                while k < metas.len()
                    invariant
                        self.wf(),
                        rs == self.readers@,
                        i < self.readers@.len(),
                        k <= metas@.len(),
                        metas@ == em,
                        blocks@.len() == base.len() + k,
                        blocks@.subrange(0, base.len() as int) == base,
                        reads_as(rs[i as int], em.subrange(0, k as int), blocks@.subrange(base.len() as int, blocks@.len() as int)),
                        forall|q: int| 0 <= q < blocks@.len() ==> (#[trigger] blocks@[q]).wf(),
                        i < rs.len(),
                        cs == self.cursors@,
                        takes_part(rs[i as int], cs[i as int], fid),
                        em == entry_metas(rs[i as int], cs[i as int] as int),
                        forall|q: int| 0 <= q < k ==> #[trigger] reads_ok(rs[i as int].image(), em[q]),
                        forall|j: int, q: int| 0 <= j < i && takes_part(rs[j], cs[j], fid) && 0 <= q < entry_metas(rs[j], cs[j] as int).len()
                            ==> #[trigger] reads_ok(rs[j].image(), entry_metas(rs[j], cs[j] as int)[q]),
                    decreases metas@.len() - k,
                {
                    let b = self.readers[i].get_data_block(&metas[k]);
                    match b {
                        Ok(blk) => {
                            let ghost before = blocks@;
                            blocks.push(blk);
                            proof {
                                assert(blocks@.subrange(0, base.len() as int) =~= before.subrange(0, base.len() as int));
                                let part = blocks@.subrange(base.len() as int, blocks@.len() as int);
                                let prev = before.subrange(base.len() as int, before.len() as int);
                                assert forall|q: int| 0 <= q < part.len() implies #[trigger] read_outcome(rs[i as int].image(), em.subrange(0, k + 1)[q], Ok::<DataBlock, ReadTsmError>(part[q])) by {
                                    if q < k {
                                        assert(part[q] == prev[q]);
                                        assert(em.subrange(0, k + 1)[q] == em.subrange(0, k as int)[q]);
                                    } else {
                                        assert(part[q] == blk);
                                    }
                                }
                            }
                        },
                        Err(e) => {
                            proof {
                                assert(!reads_ok(rs[i as int].image(), em[k as int]));
                                assert(takes_part(rs[i as int], cs[i as int], fid));
                                assert(read_outcome(rs[i as int].image(), em[k as int], Err::<DataBlock, ReadTsmError>(e)));
                            }
                            return Err(e);
                        },
                    }
                    proof {
                        assert(reads_ok(rs[i as int].image(), em[k as int]));
                    }
                    k += 1;
                }
                proof {
                    assert(em.subrange(0, metas@.len() as int) =~= em);
                    let n = em.len() as int;
                    assert(blocks@.subrange(0, blocks@.len() - n) =~= base);
                    assert(takes_part(rs[i as int], cs[i as int], fid));
                    assert forall|j: int, q: int| 0 <= j < i + 1 && takes_part(rs[j], cs[j], fid) && 0 <= q < entry_metas(rs[j], cs[j] as int).len()
                        implies #[trigger] reads_ok(rs[j].image(), entry_metas(rs[j], cs[j] as int)[q]) by {
                        if j == i {
                            assert(em.len() == metas@.len());
                        }
                    }
                }
            } else {
                proof {
                    assert(!takes_part(rs[i as int], cs[i as int], fid));
                }
            }
            i += 1;
        }
        proof {
            assert(rs.subrange(0, rs.len() as int) =~= rs);
            assert(cs.subrange(0, cs.len() as int) =~= cs);
        }
        Ok(blocks)
    }

    /// Moves every reader whose next entry has field id `fid` past it.
    fn advance(&mut self, fid: u64)
        requires
            old(self).wf(),
            exists|i: int| 0 <= i < old(self).readers@.len() && old(self).cursors@[i] < (#[trigger] old(self).readers@[i]).index().len() && old(self).readers@[i].index()[old(self).cursors@[i] as int].0 == fid,
            forall|i: int| 0 <= i < old(self).readers@.len() && old(self).cursors@[i] < (#[trigger] old(self).readers@[i]).index().len() ==> fid <= old(self).readers@[i].index()[old(self).cursors@[i] as int].0,
        ensures
            final(self).wf(),
            final(self).last_field() == Some(fid),
            final(self).remaining() < old(self).remaining(),
            final(self).readers() == old(self).readers(),
            final(self).cursors() == advanced(old(self).readers(), old(self).cursors(), fid),
    {
        let ghost rs = self.readers@;
        let ghost cs0 = self.cursors@;
        let mut i: usize = 0;
        let mut moved = false;
        while i < self.readers.len()
            invariant
                self.readers@ == rs,
                rs.len() == self.cursors@.len(),
                rs.len() == cs0.len(),
                forall|k: int| 0 <= k < rs.len() ==> (#[trigger] rs[k]).wf(),
                i <= rs.len(),
                forall|k: int| 0 <= k < rs.len() ==> cs0[k] <= (#[trigger] rs[k]).index().len(),
                forall|k: int| 0 <= k < rs.len() ==> self.cursors@[k] <= (#[trigger] rs[k]).index().len(),
                forall|k: int| i <= k < rs.len() ==> self.cursors@[k] == cs0[k],
                forall|k: int| 0 <= k < i && cs0[k] < (#[trigger] rs[k]).index().len() && rs[k].index()[cs0[k] as int].0 == fid ==> self.cursors@[k] == cs0[k] + 1,
                forall|k: int| 0 <= k < i && !(cs0[k] < (#[trigger] rs[k]).index().len() && rs[k].index()[cs0[k] as int].0 == fid) ==> self.cursors@[k] == cs0[k],
                forall|k: int| 0 <= k < rs.len() && cs0[k] < (#[trigger] rs[k]).index().len() ==> fid <= rs[k].index()[cs0[k] as int].0,
                exists|k: int| 0 <= k < rs.len() && cs0[k] < (#[trigger] rs[k]).index().len() && rs[k].index()[cs0[k] as int].0 == fid,
                remaining_entries(rs, self.cursors@) <= remaining_entries(rs, cs0),
                moved ==> remaining_entries(rs, self.cursors@) < remaining_entries(rs, cs0),
                !moved ==> forall|k: int| 0 <= k < i ==> !(cs0[k] < (#[trigger] rs[k]).index().len() && rs[k].index()[cs0[k] as int].0 == fid),
            decreases rs.len() - i,
        {
            let entries = self.readers[i].index_entries();
            let c = self.cursors[i];
            proof {
                assert(rs[i as int].index().len() == entries@.len());
            }
            if c < entries.len() && entries[c].field_id == fid {
                proof {
                    lemma_remaining_step(rs, self.cursors@, i as int);
                }
                self.cursors.set(i, c + 1);
                moved = true;
            }
            i += 1;
        }
        proof {
            if !moved {
                let k = choose|k: int| 0 <= k < rs.len() && cs0[k] < (#[trigger] rs[k]).index().len() && rs[k].index()[cs0[k] as int].0 == fid;
                assert(false);
            }
            assert forall|k: int| 0 <= k < rs.len() && self.cursors@[k] < (#[trigger] rs[k]).index().len() implies fid < rs[k].index()[self.cursors@[k] as int].0 by {
                if cs0[k] < rs[k].index().len() && rs[k].index()[cs0[k] as int].0 == fid {
                    rs[k].lemma_wf();
                    crate::tsm::lemma_index_sorted(rs[k].index(), cs0[k] as int, self.cursors@[k] as int);
                }
            }
            assert(self.cursors@ =~= advanced(rs, cs0, fid));
        }
        self.last_fid = Some(fid);
    }

    /// The next turn: `None` once every reader is past its last entry.
    /// Otherwise the turn of the least next field id: where every block of
    /// the turn reads whole, their merge (empty where the turn has no
    /// blocks), and exactly the readers at that field id move one entry;
    /// where one does not, its error, and nothing moves.
    pub fn next(&mut self) -> (r: Option<Result<CompactingBlock, ReadTsmError>>)
        requires
            old(self).wf(),
        ensures
            final(self).wf(),
            final(self).readers() == old(self).readers(),
            r is None <==> all_done(old(self).readers(), old(self).cursors()),
            r is None ==> final(self).cursors() == old(self).cursors() && final(self).last_field() == old(self).last_field(),
            r is Some ==> is_least(old(self).readers(), old(self).cursors(), least_of(old(self).readers(), old(self).cursors())),
            r is Some ==> (turn_all_ok(old(self).readers(), old(self).cursors(), least_of(old(self).readers(), old(self).cursors())) <==> r matches Some(Ok(_))),
            r matches Some(Err(_)) ==> final(self).cursors() == old(self).cursors() && final(self).last_field() == old(self).last_field(),
            r matches Some(Err(e)) ==> turn_fails_with(old(self).readers(), old(self).cursors(), least_of(old(self).readers(), old(self).cursors()), e),
            r matches Some(Ok(b)) ==> (b matches CompactingBlock::DataBlock { field_id, data_block }
                && field_id == least_of(old(self).readers(), old(self).cursors()) && data_block.wf()
                && turn_of(old(self).readers(), old(self).cursors(), field_id, data_block)
                && final(self).cursors() == advanced(old(self).readers(), old(self).cursors(), field_id)
                && final(self).last_field() == Some(field_id)
                && (old(self).last_field() matches Some(p) ==> p < field_id)
                && final(self).remaining() < old(self).remaining()),
    {
        let fid = match self.least_field_id() {
            None => {
                return None;
            },
            Some(f) => f,
        };
        proof {
            let i = choose|i: int| 0 <= i < self.readers@.len() && self.cursors@[i] < (#[trigger] self.readers@[i]).index().len() && self.readers@[i].index()[self.cursors@[i] as int].0 == fid;
            assert(takes_part(self.readers@[i], self.cursors@[i], fid));
            assert(is_least(self.readers@, self.cursors@, fid));
            lemma_least_unique(self.readers@, self.cursors@, fid, least_of(self.readers@, self.cursors@));
        }
        let blocks = match self.read_turn(fid) {
            Ok(bs) => bs,
            Err(e) => {
                return Some(Err(e));
            },
        };
        let ghost cs = self.cursors@;
        self.advance(fid);
        let merged = if blocks.len() > 0 {
            merge_blocks(&blocks)
        } else {
            let m = DataBlock { field_type: 0, ts: Vec::new(), val: Vec::new() };
            proof {
                assert(m.points() =~= merged_points(blocks@));
            }
            m
        };
        proof {
            assert(turn_reads(old(self).readers(), cs, fid, blocks@));
            assert(turn_of(old(self).readers(), cs, fid, merged));
        }
        Some(Ok(CompactingBlock::DataBlock { field_id: fid, data_block: merged }))
    }
}

proof fn lemma_remaining_step(rs: Seq<TsmReader>, cs: Seq<usize>, i: int)
    requires
        rs.len() == cs.len(),
        0 <= i < rs.len(),
        cs[i] < rs[i].index().len(),
        cs[i] < usize::MAX,
        forall|k: int| 0 <= k < rs.len() ==> cs[k] <= (#[trigger] rs[k]).index().len(),
    ensures
        remaining_entries(rs, cs.update(i, (cs[i] + 1) as usize)) + 1 == remaining_entries(rs, cs),
    decreases rs.len(),
{
    let n = rs.len() - 1;
    let cu = cs.update(i, (cs[i] + 1) as usize);
    if i < n {
        assert(cu.drop_last() =~= cs.drop_last().update(i, (cs[i] + 1) as usize));
        assert forall|k: int| 0 <= k < rs.drop_last().len() implies cs.drop_last()[k] <= (#[trigger] rs.drop_last()[k]).index().len() by {
            assert(rs.drop_last()[k] == rs[k]);
        }
        lemma_remaining_step(rs.drop_last(), cs.drop_last(), i);
        assert(cu[n] == cs[n]);
        assert(cu.len() == cs.len());
    } else {
        assert(cu.drop_last() =~= cs.drop_last());
        assert(cu[n] == cs[n] + 1);
        assert(cu.len() == cs.len());
    }
}

proof fn lemma_remaining_zero(rs: Seq<TsmReader>, cs: Seq<usize>)
    requires
        rs.len() == cs.len(),
        forall|i: int| 0 <= i < rs.len() ==> cs[i] == (#[trigger] rs[i]).index().len(),
    ensures
        remaining_entries(rs, cs) == 0,
    decreases rs.len(),
{
    if rs.len() > 0 {
        assert forall|i: int| 0 <= i < rs.drop_last().len() implies cs.drop_last()[i] == (#[trigger] rs.drop_last()[i]).index().len() by {
            assert(rs.drop_last()[i] == rs[i]);
        }
        lemma_remaining_zero(rs.drop_last(), cs.drop_last());
    }
}

pub open spec fn remaining_entries(rs: Seq<TsmReader>, cs: Seq<usize>) -> nat
    decreases rs.len(),
{
    if rs.len() == 0 || cs.len() < rs.len() {
        0
    } else {
        let i = rs.len() - 1;
        remaining_entries(rs.drop_last(), cs.drop_last()) + (if cs[i] <= rs[i].index().len() { (rs[i].index().len() - cs[i]) as nat } else { 0 })
    }
}

/// Why a compaction stopped.
#[derive(Debug)]
pub enum CompactError {
    /// An input block could not be read.
    Read { read_error: ReadTsmError },
    /// An output block could not be encoded: a size limit of the format.
    Write { write_error: WriteTsmError },
    /// Every file id is taken.
    NoFileIds,
    /// A merged block does not fit an empty file of the largest size.
    BlockTooLarge,
}

/// One input file: its summary and its reader.
pub struct CompactFile {
    pub meta: CompactMeta,
    pub reader: TsmReader,
}

/// A compaction to run: the files of one level, older first, and where the
/// merged data goes. Delta files are not compacted here.
pub struct CompactReq {
    pub files: Vec<CompactFile>,
    pub tsf_id: u32,
    pub out_level: u32,
    pub max_level_ts: i64,
    pub max_file_size: u64,
}

/// One turn of a compaction: the cursors it started at, its field id and
/// the points of its merged block.
pub struct Turn {
    pub cursors: Seq<usize>,
    pub field_id: u64,
    pub points: Map<i64, u64>,
}

/// The files a compaction wrote, the records that add them and delete its
/// inputs, and the turns it took.
pub struct CompactOutput {
    pub edits: Vec<VersionEdit>,
    pub files: Vec<TsmWriter>,
    pub turns: Ghost<Seq<Turn>>,
}

/// `pts` are the points of the merge of the turn of `fid` at cursors `cs`.
pub open spec fn turn_points(rs: Seq<TsmReader>, cs: Seq<usize>, fid: u64, pts: Map<i64, u64>) -> bool {
    exists|bs: Seq<DataBlock>| #[trigger] turn_reads(rs, cs, fid, bs) && pts == merged_points(bs)
}

/// The readers of the files that are not delta files, in order.
pub open spec fn kept_readers(fs: Seq<CompactFile>) -> Seq<TsmReader>
    decreases fs.len(),
{
    if fs.len() == 0 {
        Seq::empty()
    } else if fs.last().meta.is_delta {
        kept_readers(fs.drop_last())
    } else {
        kept_readers(fs.drop_last()).push(fs.last().reader)
    }
}

/// The summaries of the files that are not delta files, in order.
pub open spec fn kept_metas(fs: Seq<CompactFile>) -> Seq<CompactMeta>
    decreases fs.len(),
{
    if fs.len() == 0 {
        Seq::empty()
    } else if fs.last().meta.is_delta {
        kept_metas(fs.drop_last())
    } else {
        kept_metas(fs.drop_last()).push(fs.last().meta)
    }
}

/// Every block of every file reads whole.
pub open spec fn all_reads_ok(rs: Seq<TsmReader>) -> bool {
    forall|i: int, c: int, k: int| 0 <= i < rs.len() && 0 <= c < rs[i].index().len() && 0 <= k < rs[i].index()[c].2.len()
        ==> #[trigger] reads_ok(rs[i].image(), entry_metas(rs[i], c)[k])
}

/// The turns follow one another from the first cursors to the last: each
/// takes the least field id where it starts and merges that turn's blocks;
/// the next starts where it leaves off; after the last every reader is done.
pub open spec fn turns_cover(rs: Seq<TsmReader>, turns: Seq<Turn>) -> bool {
    &&& forall|j: int| 0 <= j < turns.len() ==> is_least(rs, (#[trigger] turns[j]).cursors, turns[j].field_id)
    &&& forall|j: int| 0 <= j < turns.len() ==> turn_points(rs, (#[trigger] turns[j]).cursors, turns[j].field_id, turns[j].points)
    &&& forall|j: int| 0 <= j < turns.len() - 1 ==> (#[trigger] turns[j + 1]).cursors == advanced(rs, turns[j].cursors, turns[j].field_id)
    &&& turns.len() > 0 ==> turns[0].cursors == Seq::new(rs.len(), |i: int| 0usize)
    &&& turns.len() == 0 ==> all_done(rs, Seq::new(rs.len(), |i: int| 0usize))
    &&& turns.len() > 0 ==> all_done(rs, advanced(rs, turns.last().cursors, turns.last().field_id))
}

/// The non-empty turns as written: field id and points.
pub open spec fn written_of(turns: Seq<Turn>) -> Seq<(u64, Map<i64, u64>)>
    decreases turns.len(),
{
    if turns.len() == 0 {
        Seq::empty()
    } else if turns.last().points == Map::<i64, u64>::empty() {
        written_of(turns.drop_last())
    } else {
        written_of(turns.drop_last()).push((turns.last().field_id, turns.last().points))
    }
}

/// What the files hold, file after file.
pub open spec fn files_written(fs: Seq<TsmWriter>) -> Seq<(u64, Map<i64, u64>)>
    decreases fs.len(),
{
    if fs.len() == 0 {
        Seq::empty()
    } else {
        files_written(fs.drop_last()) + fs.last().written()
    }
}

/// The summary of a written file at `level`.
pub open spec fn output_meta(w: TsmWriter, tsf_id: u32, level: u32) -> CompactMeta {
    CompactMeta {
        file_id: w.spec_sequence(),
        file_size: w.image().len() as u64,
        tsf_id,
        level,
        min_ts: w.spec_min_ts(),
        max_ts: w.spec_max_ts(),
        high_seq: 0,
        low_seq: 0,
        is_delta: false,
    }
}

/// Completes a file: writes its index and footer, and marks it finished.
fn seal(w: &mut TsmWriter) -> (r: Result<(), CompactError>)
    requires
        old(w).wf(),
        !old(w).is_finished(),
    ensures
        final(w).wf(),
        r is Ok ==> final(w).is_finished(),
        r matches Err(e) ==> (e matches CompactError::Write { write_error } && write_error matches WriteTsmError::Encode { reason } && reason == EncodeError::FileTooLarge),
        final(w).spec_sequence() == old(w).spec_sequence(),
        final(w).written() == old(w).written(),
{
    match w.write_index() {
        Ok(_) => {},
        Err(e) => {
            return Err(CompactError::Write { write_error: e });
        },
    }
    match w.finish() {
        Ok(()) => Ok(()),
        Err(e) => Err(CompactError::Write { write_error: e }),
    }
}

/// The record that adds a compacted file.
fn add_record(w: &TsmWriter, tsf_id: u32, level: u32, max_level_ts: i64) -> (r: VersionEdit)
    ensures
        r@.add_files == seq![output_meta(*w, tsf_id, level)],
        r@.del_files == Seq::<CompactMeta>::empty(),
        r@.tsf_id == tsf_id,
        r@.max_level_ts == max_level_ts,
        !r@.add_tsf && !r@.del_tsf,
{
    let meta = CompactMeta {
        file_id: w.sequence(),
        file_size: w.size(),
        tsf_id,
        level,
        min_ts: w.min_ts(),
        max_ts: w.max_ts(),
        high_seq: 0,
        low_seq: 0,
        is_delta: false,
    };
    let mut e = VersionEdit::new(tsf_id);
    e.add_file(meta, max_level_ts);
    proof {
        assert(e@.add_files =~= seq![output_meta(*w, tsf_id, level)]);
    }
    e
}

proof fn lemma_files_written_push(fs: Seq<TsmWriter>, w: TsmWriter)
    ensures
        files_written(fs.push(w)) == files_written(fs) + w.written(),
{
    assert(fs.push(w).drop_last() =~= fs);
}

/// The output files so far are finished, numbered from `start`, and each
/// has its record adding it.
pub open spec fn outputs_ok(files: Seq<TsmWriter>, edits: Seq<VersionEdit>, start: u64, tsf_id: u32, out_level: u32, max_level_ts: i64) -> bool {
    &&& edits.len() == files.len()
    &&& forall|k: int| 0 <= k < files.len() ==> (#[trigger] files[k]).is_finished() && files[k].wf()
        && files[k].spec_sequence() == start + k
        && edits[k]@.add_files == seq![output_meta(files[k], tsf_id, out_level)]
        && edits[k]@.tsf_id == tsf_id
        && edits[k]@.max_level_ts == max_level_ts
        && edits[k]@.del_files.len() == 0
}

/// Writes a merged block to the current output file; where that file would
/// grow past `max_file_size`, finishes it with its record and writes the
/// block to a new file with the next id.
#[verifier::rlimit(40)]
#[verifier::spinoff_prover]
fn emit_block(
    writer: &mut TsmWriter,
    files: &mut Vec<TsmWriter>,
    edits: &mut Vec<VersionEdit>,
    ctx: &mut GlobalContext,
    field_id: u64,
    block: &DataBlock,
    tsf_id: u32,
    out_level: u32,
    max_level_ts: i64,
    max_file_size: u64,
    start: Ghost<u64>,
) -> (r: Result<(), CompactError>)
    requires
        old(writer).wf(),
        !old(writer).is_finished(),
        old(writer).spec_max_size() == max_file_size,
        old(writer).spec_sequence() == start@ + old(files)@.len(),
        old(ctx).file_id == start@ + old(files)@.len() + 1,
        outputs_ok(old(files)@, old(edits)@, start@, tsf_id, out_level, max_level_ts),
        block.wf(),
        block.ts@.len() > 0,
        blocks_of(old(writer).index(), field_id).len() == 0,
    ensures
        final(ctx).last_seq == old(ctx).last_seq,
        r is Ok ==> {
            &&& final(writer).wf()
            &&& !final(writer).is_finished()
            &&& final(writer).spec_max_size() == max_file_size
            &&& final(writer).spec_sequence() == start@ + final(files)@.len()
            &&& final(ctx).file_id == start@ + final(files)@.len() + 1
            &&& outputs_ok(final(files)@, final(edits)@, start@, tsf_id, out_level, max_level_ts)
            &&& files_written(final(files)@) + final(writer).written() == files_written(old(files)@) + old(writer).written().push((field_id, block.points()))
            &&& forall|f: u64| blocks_of(final(writer).index(), f).len() > 0 ==> blocks_of(old(writer).index(), f).len() > 0 || f == field_id
        },
        r matches Err(CompactError::Write { write_error }) ==> (write_error matches WriteTsmError::Encode { reason }
            && ((reason == EncodeError::TooManyValues && block.ts@.len() > MAX_BLOCK_VALUES) || reason == EncodeError::FileTooLarge)),
        r matches Err(CompactError::BlockTooLarge) ==> max_file_size > 0 && 5 + 8 + 16 * block.ts@.len() > max_file_size,
        r matches Err(CompactError::NoFileIds) ==> final(ctx).file_id == u64::MAX && max_file_size > 0,
        !(r matches Err(CompactError::Read { .. })),
{
    proof {
        lemma_enc_ts(block.ts@);
        lemma_enc_vals(block.val@);
    }
    match writer.write_block(field_id, block) {
        Ok(_) => {
            proof {
                old(writer).lemma_wf();
                let oi = old(writer).index();
                assert forall|f: u64| blocks_of(writer.index(), f).len() > 0 implies blocks_of(oi, f).len() > 0 || f == field_id by {
                    lemma_blocks_of_insert(oi, field_id, block.field_type, entry_at(block.ts@, old(writer).image().len() as u64), f);
                }
                assert(files_written(files@) + writer.written() =~= files_written(old(files)@) + old(writer).written().push((field_id, block.points())));
            }
            Ok(())
        },
        Err(WriteTsmError::MaxFileSizeExceed { .. }) => {
            seal(writer)?;
            let e = add_record(writer, tsf_id, out_level, max_level_ts);
            let id = match ctx.file_id_next() {
                Some(id) => id,
                None => {
                    return Err(CompactError::NoFileIds);
                },
            };
            let fresh = TsmWriter::open(String::new(), id, false, max_file_size);
            let ghost fs_before = files@;
            let ghost es_before = edits@;
            let ghost done = *writer;
            let ghost ev = e@;
            edits.push(e);
            let mut done_writer = fresh;
            std::mem::swap(writer, &mut done_writer);
            files.push(done_writer);
            proof {
                lemma_files_written_push(fs_before, done);
                assert forall|k: int| 0 <= k < files@.len() implies (#[trigger] files@[k]).is_finished() && files@[k].wf()
                    && files@[k].spec_sequence() == start@ + k
                    && edits@[k]@.add_files == seq![output_meta(files@[k], tsf_id, out_level)]
                    && edits@[k]@.tsf_id == tsf_id
                    && edits@[k]@.max_level_ts == max_level_ts
                    && edits@[k]@.del_files.len() == 0 by {
                    if k < fs_before.len() {
                        assert(files@[k] == fs_before[k]);
                        assert(edits@[k] == es_before[k]);
                    } else {
                        assert(files@[k] == done);
                        assert(edits@[k]@ == ev);
                    }
                }
                assert(blocks_of(writer.index(), field_id).len() == 0);
            }
            let ghost w0 = *writer;
            match writer.write_block(field_id, block) {
                Ok(_) => {
                    proof {
                        w0.lemma_wf();
                        assert forall|f: u64| blocks_of(writer.index(), f).len() > 0 implies blocks_of(old(writer).index(), f).len() > 0 || f == field_id by {
                            lemma_blocks_of_insert(w0.index(), field_id, block.field_type, entry_at(block.ts@, 5), f);
                        }
                        assert(files_written(files@) + writer.written() =~= files_written(old(files)@) + old(writer).written().push((field_id, block.points())));
                    }
                    Ok(())
                },
                Err(WriteTsmError::MaxFileSizeExceed { .. }) => {
                    return Err(CompactError::BlockTooLarge);
                },
                Err(e) => {
                    return Err(CompactError::Write { write_error: e });
                },
            }
        },
        Err(e) => {
            return Err(CompactError::Write { write_error: e });
        },
    }
}

/// Splits the input files: the readers and summaries of those that are
/// not delta files, in order.
fn keep_non_delta(files: Vec<CompactFile>) -> (r: (Vec<TsmReader>, Vec<CompactMeta>))
    ensures
        r.0@ == kept_readers(files@),
        r.1@ == kept_metas(files@),
{
    let ghost fs = files@;
    let ghost n = fs.len();
    let mut readers: Vec<TsmReader> = Vec::new();
    let mut metas: Vec<CompactMeta> = Vec::new();
    let mut files = files;
    let total = files.len();
    let mut i: usize = 0;
    proof {
        assert(fs.subrange(0, 0) =~= Seq::<CompactFile>::empty());
        assert(fs.subrange(0, n as int) =~= fs);
    }
    while files.len() > 0
        invariant
            files@ == fs.subrange(i as int, n as int),
            n == fs.len(),
            n == total,
            i <= n,
            readers@ == kept_readers(fs.subrange(0, i as int)),
            metas@ == kept_metas(fs.subrange(0, i as int)),
        decreases files@.len(),
    {
        let f = files.remove(0);
        proof {
            assert(i < n);
            assert(fs.subrange(0, i + 1).drop_last() =~= fs.subrange(0, i as int));
            assert(fs.subrange(0, i + 1).last() == fs[i as int]);
            assert(files@ =~= fs.subrange(i + 1, n as int));
        }
        if !f.meta.is_delta {
            metas.push(f.meta);
            readers.push(f.reader);
        }
        i += 1;
    }
    proof {
        assert(fs.subrange(0, n as int) =~= fs);
    }
    (readers, metas)
}

/// Merges the input files that are not delta files into files of
/// `out_level`, turn by turn, starting a new file where one would grow past
/// `max_file_size`; file ids come from `ctx` in order. Each output file gets
/// one record that adds it; the last record also deletes the merged
/// inputs. With no file to merge nothing is written and no id is taken.
#[verifier::rlimit(60)]
#[verifier::spinoff_prover]
pub fn run_compaction_job(req: CompactReq, ctx: &mut GlobalContext) -> (r: Result<CompactOutput, CompactError>)
    requires
        forall|i: int| 0 <= i < req.files@.len() ==> (#[trigger] req.files@[i]).reader.wf(),
    ensures
        final(ctx).last_seq == old(ctx).last_seq,
        kept_readers(req.files@).len() == 0 ==> (r matches Ok(out) && out.edits@.len() == 0 && out.files@.len() == 0) && *final(ctx) == *old(ctx),
        all_reads_ok(kept_readers(req.files@)) ==> !(r matches Err(CompactError::Read { .. })),
        req.max_file_size == 0 ==> !(r matches Err(CompactError::BlockTooLarge)),
        req.max_file_size == 0 && old(ctx).file_id < u64::MAX ==> !(r matches Err(CompactError::NoFileIds)),
        r matches Err(CompactError::Write { write_error }) ==> write_error is Encode,
        r is Ok ==> all_reads_ok(kept_readers(req.files@)),
        r matches Err(CompactError::Read { read_error }) ==> input_fails_with(kept_readers(req.files@), read_error),
        r matches Err(CompactError::Write { write_error }) ==> (write_error matches WriteTsmError::Encode { reason }
            && (reason == EncodeError::FileTooLarge || (reason == EncodeError::TooManyValues
                && exists|cs: Seq<usize>, fid: u64, pts: Map<i64, u64>| #[trigger] turn_points(kept_readers(req.files@), cs, fid, pts) && pts.dom().len() > MAX_BLOCK_VALUES))),
        r matches Err(CompactError::BlockTooLarge) ==> req.max_file_size > 0
            && exists|cs: Seq<usize>, fid: u64, pts: Map<i64, u64>| #[trigger] turn_points(kept_readers(req.files@), cs, fid, pts) && 13 + 16 * pts.dom().len() > req.max_file_size,
        r matches Err(CompactError::NoFileIds) ==> final(ctx).file_id == u64::MAX,
        all_reads_ok(kept_readers(req.files@)) && req.max_file_size == 0 && old(ctx).file_id < u64::MAX
            ==> (r is Ok || (r matches Err(CompactError::Write { write_error }) && write_error is Encode)),
        all_reads_ok(kept_readers(req.files@)) && req.max_file_size == 0 && old(ctx).file_id < u64::MAX
            && (forall|cs: Seq<usize>, fid: u64, pts: Map<i64, u64>| #[trigger] turn_points(kept_readers(req.files@), cs, fid, pts) ==> pts.dom().len() <= MAX_BLOCK_VALUES)
            ==> (r is Ok || (r matches Err(CompactError::Write { write_error }) && (write_error matches WriteTsmError::Encode { reason } && reason == EncodeError::FileTooLarge))),
        r matches Ok(out) ==> {
            let rs = kept_readers(req.files@);
            let ins = kept_metas(req.files@);
            &&& out.edits@.len() == out.files@.len()
            &&& rs.len() > 0 ==> out.edits@.len() > 0
            &&& turns_cover(rs, out.turns@)
            &&& forall|a: int, b: int| 0 <= a < b < out.turns@.len() ==> (#[trigger] out.turns@[a]).field_id < (#[trigger] out.turns@[b]).field_id
            &&& files_written(out.files@) == written_of(out.turns@)
            &&& final(ctx).file_id == old(ctx).file_id + out.files@.len()
            &&& forall|k: int| 0 <= k < out.files@.len() ==> (#[trigger] out.files@[k]).is_finished() && out.files@[k].wf()
                && out.files@[k].spec_sequence() == old(ctx).file_id + k
                && out.edits@[k]@.add_files == seq![output_meta(out.files@[k], req.tsf_id, req.out_level)]
                && out.edits@[k]@.tsf_id == req.tsf_id
                && out.edits@[k]@.max_level_ts == req.max_level_ts
            &&& forall|k: int| 0 <= k < out.edits@.len() - 1 ==> (#[trigger] out.edits@[k])@.del_files.len() == 0
            &&& out.edits@.len() > 0 ==> out.edits@.last()@.del_files.len() == ins.len()
                && forall|k: int| 0 <= k < ins.len() ==> (#[trigger] out.edits@.last()@.del_files[k]).file_id == ins[k].file_id
                    && out.edits@.last()@.del_files[k].level == ins[k].level
                    && out.edits@.last()@.del_files[k].is_delta == ins[k].is_delta
        },
{
    let ghost fs0 = req.files@;
    let CompactReq { files: inputs, tsf_id, out_level, max_level_ts, max_file_size } = req;
    proof {
        lemma_kept_wf(inputs@);
    }
    let (readers, metas) = keep_non_delta(inputs);
    let ghost rs = readers@;
    let ghost start_id = ctx.file_id;
    assert(max_file_size == req.max_file_size && tsf_id == req.tsf_id && out_level == req.out_level && max_level_ts == req.max_level_ts);
    let mut edits: Vec<VersionEdit> = Vec::new();
    let mut files: Vec<TsmWriter> = Vec::new();
    if readers.len() == 0 {
        return Ok(CompactOutput { edits, files, turns: Ghost(Seq::empty()) });
    }
    let mut iter = CompactIterator::new(readers);
    let first = match ctx.file_id_next() {
        Some(id) => id,
        None => {
            return Err(CompactError::NoFileIds);
        },
    };
    let mut writer = TsmWriter::open(String::new(), first, false, max_file_size);
    let ghost mut turns: Seq<Turn> = Seq::empty();
    loop
        invariant
            iter.wf(),
            iter.readers() == rs,
            rs == kept_readers(fs0),
            fs0 == req.files@,
            metas@ == kept_metas(fs0),
            max_file_size == req.max_file_size,
            tsf_id == req.tsf_id,
            out_level == req.out_level,
            max_level_ts == req.max_level_ts,
            start_id == old(ctx).file_id,
            rs.len() > 0,
            forall|i: int| 0 <= i < rs.len() ==> (#[trigger] rs[i]).wf(),
            turns.len() == 0 ==> iter.cursors() == Seq::new(rs.len(), |i: int| 0usize),
            turns.len() > 0 ==> iter.cursors() == advanced(rs, turns.last().cursors, turns.last().field_id),
            turns.len() > 0 ==> (iter.last_field() == Some(turns.last().field_id)),
            turns.len() == 0 ==> iter.last_field() is None,
            forall|j: int| 0 <= j < turns.len() ==> is_least(rs, (#[trigger] turns[j]).cursors, turns[j].field_id),
            forall|j: int| 0 <= j < turns.len() ==> turn_points(rs, (#[trigger] turns[j]).cursors, turns[j].field_id, turns[j].points),
            forall|j: int| 0 <= j < turns.len() - 1 ==> (#[trigger] turns[j + 1]).cursors == advanced(rs, turns[j].cursors, turns[j].field_id),
            turns.len() > 0 ==> turns[0].cursors == Seq::new(rs.len(), |i: int| 0usize),
            forall|a: int, b: int| 0 <= a < b < turns.len() ==> (#[trigger] turns[a]).field_id < (#[trigger] turns[b]).field_id,
            files_written(files@) + writer.written() == written_of(turns),
            writer.wf(),
            !writer.is_finished(),
            writer.spec_max_size() == max_file_size,
            writer.spec_sequence() == start_id + files@.len(),
            ctx.file_id == start_id + files@.len() + 1,
            ctx.last_seq == old(ctx).last_seq,
            outputs_ok(files@, edits@, start_id, tsf_id, out_level, max_level_ts),
            forall|f: u64| blocks_of(writer.index(), f).len() > 0 ==> turns.len() > 0 && f <= turns.last().field_id,
            forall|i: int, c: int, k: int| 0 <= i < rs.len() && 0 <= c < iter.cursors()[i] && 0 <= k < rs[i].index()[c].2.len()
                ==> #[trigger] reads_ok(rs[i].image(), entry_metas(rs[i], c)[k]),
        ensures
            all_done(rs, iter.cursors()),
        decreases iter.remaining(),
    {
        let ghost cur = iter.cursors();
        proof {
            iter.lemma_wf();
        }
        let next = iter.next();
        let (field_id, block) = match next {
            None => {
                break;
            },
            Some(Err(e)) => {
                proof {
                    let f = least_of(rs, cur);
                    let (i, k) = choose|i: int, k: int| 0 <= i < rs.len() && takes_part(rs[i], cur[i], f) && 0 <= k < entry_metas(rs[i], cur[i] as int).len()
                        && #[trigger] read_outcome(rs[i].image(), entry_metas(rs[i], cur[i] as int)[k], Err::<DataBlock, ReadTsmError>(e));
                    assert(read_outcome(rs[i].image(), entry_metas(rs[i], cur[i] as int)[k], Err::<DataBlock, ReadTsmError>(e)));
                    assert(input_fails_with(rs, e));
                }
                return Err(CompactError::Read { read_error: e });
            },
            Some(Ok(CompactingBlock::DataBlock { field_id, data_block })) => (field_id, data_block),
            Some(Ok(CompactingBlock::Raw { .. })) => {
                proof {
                    assert(false);
                }
                return Err(CompactError::BlockTooLarge);
            },
        };
        let ghost t = Turn { cursors: cur, field_id, points: block.points() };
        let ghost old_turns = turns;
        proof {
            turns = turns.push(t);
            assert(turns.drop_last() =~= old_turns);
            crate::block::lemma_points_dom(block.ts@, block.val@, 0);
            if block.ts@.len() == 0 {
                assert(block.points() =~= Map::<i64, u64>::empty());
            } else {
                crate::block::lemma_points_dom(block.ts@, block.val@, block.ts@[0]);
                assert(block.ts@.contains(block.ts@[0]));
                assert(block.points() != Map::<i64, u64>::empty());
            }
            assert forall|j: int| 0 <= j < turns.len() - 1 implies (#[trigger] turns[j + 1]).cursors == advanced(rs, turns[j].cursors, turns[j].field_id) by {
                if j + 1 < old_turns.len() {
                    assert(turns[j + 1] == old_turns[j + 1]);
                }
            }
            assert forall|a: int, b: int| 0 <= a < b < turns.len() implies (#[trigger] turns[a]).field_id < (#[trigger] turns[b]).field_id by {
                if b < old_turns.len() {
                    assert(turns[a] == old_turns[a] && turns[b] == old_turns[b]);
                } else if a < old_turns.len() - 1 {
                    assert(turns[a] == old_turns[a]);
                    assert(old_turns[a].field_id < old_turns[old_turns.len() - 1].field_id);
                } else {
                    assert(turns[a] == old_turns.last());
                }
            }
        }
        if block.ts.len() > 0 {
            proof {
                if blocks_of(writer.index(), field_id).len() > 0 {
                    assert(old_turns.len() > 0);
                    assert(field_id <= old_turns.last().field_id);
                }
            }
            let ghost wi = writer.index();
            let emitted = emit_block(&mut writer, &mut files, &mut edits, ctx, field_id, &block, tsf_id, out_level, max_level_ts, max_file_size, Ghost(start_id));
            match emitted {
                Ok(()) => {},
                Err(e) => {
                    proof {
                        crate::block::lemma_points_len(block.ts@, block.val@);
                        assert(turn_points(rs, cur, field_id, block.points()));
                    }
                    return Err(e);
                },
            }
            proof {
                assert forall|f: u64| blocks_of(writer.index(), f).len() > 0 implies turns.len() > 0 && f <= turns.last().field_id by {
                    if blocks_of(wi, f).len() > 0 {
                        assert(f <= old_turns.last().field_id);
                        assert(old_turns.last() == turns[turns.len() - 2]);
                    }
                }
            }
        } else {
            proof {
                assert forall|f: u64| blocks_of(writer.index(), f).len() > 0 implies turns.len() > 0 && f <= turns.last().field_id by {
                    assert(old_turns.last() == turns[turns.len() - 2]);
                }
            }
        }
        proof {
            let nc = iter.cursors();
            assert forall|i: int, c: int, k: int| 0 <= i < rs.len() && 0 <= c < nc[i] && 0 <= k < rs[i].index()[c].2.len()
                implies #[trigger] reads_ok(rs[i].image(), entry_metas(rs[i], c)[k]) by {
                if c >= cur[i] {
                    assert(takes_part(rs[i], cur[i], field_id));
                }
            }
        }
    }
    proof {
        iter.lemma_wf();
        assert forall|i: int, c: int, k: int| 0 <= i < rs.len() && 0 <= c < rs[i].index().len() && 0 <= k < rs[i].index()[c].2.len()
            implies #[trigger] reads_ok(rs[i].image(), entry_metas(rs[i], c)[k]) by {
            assert(iter.cursors()[i] == rs[i].index().len());
        }
    }
    seal(&mut writer)?;
    let mut last = add_record(&writer, tsf_id, out_level, max_level_ts);
    let mut k: usize = 0;
    while k < metas.len()
        invariant
            k <= metas@.len(),
            last@.add_files == seq![output_meta(writer, tsf_id, out_level)],
            last@.tsf_id == tsf_id,
            last@.max_level_ts == max_level_ts,
            last@.del_files.len() == k,
            forall|q: int| 0 <= q < k ==> (#[trigger] last@.del_files[q]).file_id == metas@[q].file_id
                && last@.del_files[q].level == metas@[q].level && last@.del_files[q].is_delta == metas@[q].is_delta,
        decreases metas@.len() - k,
    {
        let m = metas[k];
        last.del_file(m.level, m.file_id, m.is_delta);
        k += 1;
    }
    let ghost e0 = edits@;
    let ghost f0 = files@;
    let ghost lv = last@;
    let ghost w = writer;
    edits.push(last);
    files.push(writer);
    proof {
        lemma_files_written_push(f0, w);
        assert forall|k: int| 0 <= k < files@.len() implies (#[trigger] files@[k]).is_finished() && files@[k].wf()
            && files@[k].spec_sequence() == start_id + k
            && edits@[k]@.add_files == seq![output_meta(files@[k], tsf_id, out_level)]
            && edits@[k]@.tsf_id == tsf_id
            && edits@[k]@.max_level_ts == max_level_ts by {
            if k < f0.len() {
                assert(files@[k] == f0[k]);
                assert(edits@[k] == e0[k]);
            } else {
                assert(files@[k] == w);
                assert(edits@[k]@ == lv);
            }
        }
        assert forall|k: int| 0 <= k < edits@.len() - 1 implies (#[trigger] edits@[k])@.del_files.len() == 0 by {
            assert(edits@[k] == e0[k]);
            assert(files@[k] == f0[k]);
        }
        assert(edits@.last()@ == lv);
    }
    Ok(CompactOutput { edits, files, turns: Ghost(turns) })
}

proof fn lemma_kept_wf(fs: Seq<CompactFile>)
    requires
        forall|i: int| 0 <= i < fs.len() ==> (#[trigger] fs[i]).reader.wf(),
    ensures
        forall|i: int| 0 <= i < kept_readers(fs).len() ==> (#[trigger] kept_readers(fs)[i]).wf(),
    decreases fs.len(),
{
    if fs.len() > 0 {
        let p = fs.drop_last();
        if fs.last().meta.is_delta {
            assert(kept_readers(fs) == kept_readers(p));
        }
        assert forall|i: int| 0 <= i < p.len() implies (#[trigger] p[i]).reader.wf() by {
            assert(p[i] == fs[i]);
        }
        lemma_kept_wf(p);
        assert(fs.last() == fs[fs.len() - 1]);
        if !fs.last().meta.is_delta {
            let kp = kept_readers(p);
            assert forall|i: int| 0 <= i < kept_readers(fs).len() implies (#[trigger] kept_readers(fs)[i]).wf() by {
                if i < kp.len() {
                    assert(kept_readers(fs)[i] == kp[i]);
                }
            }
        }
    }
}

/// Each block that the files hold, file after file, is one that some file
/// wrote.
proof fn lemma_files_written_index(fs: Seq<TsmWriter>, j: int)
    requires
        0 <= j < files_written(fs).len(),
    ensures
        exists|k: int, m: int| 0 <= k < fs.len() && 0 <= m < fs[k].written().len() && #[trigger] fs[k].written()[m] == files_written(fs)[j],
    decreases fs.len(),
{
    let p = fs.drop_last();
    let w = fs.last();
    if j < files_written(p).len() {
        lemma_files_written_index(p, j);
        let (k, m) = choose|k: int, m: int| 0 <= k < p.len() && 0 <= m < p[k].written().len() && #[trigger] p[k].written()[m] == files_written(p)[j];
        assert(fs[k] == p[k]);
        assert(files_written(fs)[j] == files_written(p)[j]);
    } else {
        let m = j - files_written(p).len();
        assert(fs[fs.len() - 1] == w);
        assert(files_written(fs)[j] == w.written()[m]);
    }
}

/// Every merged block that a compaction wrote reads back from one of its
/// output files, at an entry that file's index keeps for the block's field,
/// with the merged points.
pub proof fn lemma_compaction_reads_back(files: Seq<TsmWriter>, turns: Seq<Turn>, j: int)
    requires
        forall|k: int| 0 <= k < files.len() ==> (#[trigger] files[k]).wf(),
        files_written(files) == written_of(turns),
        0 <= j < written_of(turns).len(),
    ensures
        exists|k: int, q: int| 0 <= k < files.len() && 0 <= q < blocks_of(files[k].index(), written_of(turns)[j].0).len()
            && #[trigger] entry_reads_as(files[k].image(), written_of(turns)[j].0, blocks_of(files[k].index(), written_of(turns)[j].0)[q], written_of(turns)[j].1),
{
    lemma_files_written_index(files, j);
    let (k, m) = choose|k: int, m: int| 0 <= k < files.len() && 0 <= m < files[k].written().len() && #[trigger] files[k].written()[m] == files_written(files)[j];
    lemma_written_reads_back(files[k], m);
    let fid = written_of(turns)[j].0;
    let q = choose|q: int| 0 <= q < blocks_of(files[k].index(), files[k].written()[m].0).len()
        && #[trigger] entry_reads_as(files[k].image(), files[k].written()[m].0, blocks_of(files[k].index(), files[k].written()[m].0)[q], files[k].written()[m].1);
    assert(entry_reads_as(files[k].image(), fid, blocks_of(files[k].index(), fid)[q], written_of(turns)[j].1));
}

} // verus!
