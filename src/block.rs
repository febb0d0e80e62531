//! Data blocks: a column of strictly ascending timestamps with one value
//! column aligned to it, and the merge of blocks of one field.

use vstd::prelude::*;

verus! {

/// Values of a float field, held as their IEEE-754 bit pattern.
pub const FIELD_TYPE_FLOAT: u8 = 0;

/// Values of a signed integer field, held as their two's complement bits.
pub const FIELD_TYPE_INTEGER: u8 = 1;

/// Values of an unsigned integer field.
pub const FIELD_TYPE_UNSIGNED: u8 = 2;

/// Values of a boolean field, held as 0 or 1.
pub const FIELD_TYPE_BOOLEAN: u8 = 3;

/// One block of a field: aligned timestamp and value columns, and the tag of
/// the value type. Each value is held as its 64-bit pattern.
pub struct DataBlock {
    pub field_type: u8,
    pub ts: Vec<i64>,
    pub val: Vec<u64>,
}

pub open spec fn strictly_ascending(s: Seq<i64>) -> bool {
    forall|i: int, j: int| 0 <= i < j < s.len() ==> s[i] < s[j]
}

/// The points of aligned columns: each timestamp with its value.
pub open spec fn points(ts: Seq<i64>, val: Seq<u64>) -> Map<i64, u64>
    decreases ts.len(),
{
    if ts.len() == 0 {
        Map::empty()
    } else {
        points(ts.drop_last(), val).insert(ts.last(), val[ts.len() - 1])
    }
}

impl DataBlock {
    /// The columns are aligned and the timestamps strictly ascending.
    pub open spec fn wf(&self) -> bool {
        &&& self.ts@.len() == self.val@.len()
        &&& strictly_ascending(self.ts@)
    }

    /// What a block holds: its value at each of its timestamps.
    pub open spec fn points(&self) -> Map<i64, u64> {
        points(self.ts@, self.val@)
    }

    pub fn new(field_type: u8, ts: Vec<i64>, val: Vec<u64>) -> (r: DataBlock)
        ensures
            r.field_type == field_type,
            r.ts@ == ts@,
            r.val@ == val@,
    {
        DataBlock { field_type, ts, val }
    }

    pub fn len(&self) -> (r: usize)
        ensures
            r == self.ts@.len(),
    {
        self.ts.len()
    }

    pub fn is_empty(&self) -> (r: bool)
        ensures
            r == (self.ts@.len() == 0),
    {
        self.ts.len() == 0
    }

    /// The first and the last timestamp, `None` for an empty block.
    pub fn time_range(&self) -> (r: Option<(i64, i64)>)
        ensures
            self.ts@.len() == 0 ==> r is None,
            self.ts@.len() > 0 ==> r == Some((self.ts@[0], self.ts@.last())),
    {
        if self.ts.len() == 0 {
            None
        } else {
            Some((self.ts[0], self.ts[self.ts.len() - 1]))
        }
    }

    /// A copy with the same field type and columns.
    pub fn copy(&self) -> (r: DataBlock)
        ensures
            r.field_type == self.field_type,
            r.ts@ == self.ts@,
            r.val@ == self.val@,
    {
        let ts = self.ts.clone();
        let val = self.val.clone();
        assert(ts@ =~= self.ts@);
        assert(val@ =~= self.val@);
        DataBlock { field_type: self.field_type, ts, val }
    }

    /// Two blocks are equal when their type and both columns are.
    pub fn same_as(&self, other: &DataBlock) -> (r: bool)
        ensures
            r == (self.field_type == other.field_type && self.ts@ == other.ts@ && self.val@
                == other.val@),
    {
        if self.field_type != other.field_type || self.ts.len() != other.ts.len()
            || self.val.len() != other.val.len() {
            return false;
        }
        let mut i: usize = 0;
        while i < self.ts.len()
            invariant
                i <= self.ts@.len(),
                self.ts@.len() == other.ts@.len(),
                forall|k: int| 0 <= k < i ==> self.ts@[k] == other.ts@[k],
            decreases self.ts@.len() - i,
        {
            if self.ts[i] != other.ts[i] {
                return false;
            }
            i += 1;
        }
        assert(self.ts@ =~= other.ts@);
        let mut j: usize = 0;
        while j < self.val.len()
            invariant
                j <= self.val@.len(),
                self.val@.len() == other.val@.len(),
                forall|k: int| 0 <= k < j ==> self.val@[k] == other.val@[k],
            decreases self.val@.len() - j,
        {
            if self.val[j] != other.val[j] {
                return false;
            }
            j += 1;
        }
        assert(self.val@ =~= other.val@);
        true
    }
}

pub proof fn lemma_points_dom(ts: Seq<i64>, val: Seq<u64>, t: i64)
    ensures
        points(ts, val).dom().contains(t) <==> ts.contains(t),
    decreases ts.len(),
{
    if ts.len() > 0 {
        lemma_points_dom(ts.drop_last(), val, t);
        if ts.drop_last().contains(t) {
            let k = choose|k: int| 0 <= k < ts.drop_last().len() && ts.drop_last()[k] == t;
            assert(ts[k] == t);
        }
        if ts.contains(t) && t != ts.last() {
            let k = choose|k: int| 0 <= k < ts.len() && ts[k] == t;
            assert(ts.drop_last()[k] == t);
        }
    }
}

proof fn lemma_points_push(ts: Seq<i64>, val: Seq<u64>, t: i64, v: u64)
    requires
        ts.len() == val.len(),
    ensures
        points(ts.push(t), val.push(v)) == points(ts, val).insert(t, v),
{
    lemma_points_prefix_val(ts, val, val.push(v));
    assert(ts.push(t).drop_last() =~= ts);
}

/// Only the first `ts.len()` values count.
proof fn lemma_points_prefix_val(ts: Seq<i64>, v1: Seq<u64>, v2: Seq<u64>)
    requires
        ts.len() <= v1.len(),
        ts.len() <= v2.len(),
        forall|k: int| 0 <= k < ts.len() ==> v1[k] == v2[k],
    ensures
        points(ts, v1) == points(ts, v2),
    decreases ts.len(),
{
    if ts.len() > 0 {
        lemma_points_prefix_val(ts.drop_last(), v1, v2);
    }
}

proof fn lemma_points_step(ts: Seq<i64>, val: Seq<u64>, i: int)
    requires
        0 <= i < ts.len(),
        ts.len() == val.len(),
    ensures
        points(ts.subrange(0, i + 1), val.subrange(0, i + 1)) == points(
            ts.subrange(0, i),
            val.subrange(0, i),
        ).insert(ts[i], val[i]),
{
    assert(ts.subrange(0, i + 1) =~= ts.subrange(0, i).push(ts[i]));
    assert(val.subrange(0, i + 1) =~= val.subrange(0, i).push(val[i]));
    lemma_points_push(ts.subrange(0, i), val.subrange(0, i), ts[i], val[i]);
}

/// Merges two blocks of one field: the timestamps of both, each once, in
/// ascending order; where both hold a timestamp, `newer` gives the value.
pub fn merge_two(older: &DataBlock, newer: &DataBlock) -> (r: DataBlock)
    requires
        older.wf(),
        newer.wf(),
    ensures
        r.wf(),
        r.field_type == older.field_type,
        r.points() == older.points().union_prefer_right(newer.points()),
{
    let a = &older.ts;
    let b = &newer.ts;
    let mut ts: Vec<i64> = Vec::new();
    let mut val: Vec<u64> = Vec::new();
    let mut i: usize = 0;
    let mut j: usize = 0;
    proof {
        assert(a@.subrange(0, 0) =~= Seq::<i64>::empty());
        assert(b@.subrange(0, 0) =~= Seq::<i64>::empty());
        assert(older.val@.subrange(0, 0) =~= Seq::<u64>::empty());
        assert(newer.val@.subrange(0, 0) =~= Seq::<u64>::empty());
        assert(points(ts@, val@) =~= points(a@.subrange(0, 0), older.val@.subrange(0, 0)).union_prefer_right(points(b@.subrange(0, 0), newer.val@.subrange(0, 0))));
    }
    while i < a.len() || j < b.len()
        invariant
            older.wf(),
            newer.wf(),
            a == &older.ts,
            b == &newer.ts,
            i <= a@.len(),
            j <= b@.len(),
            ts@.len() == val@.len(),
            strictly_ascending(ts@),
            points(ts@, val@) == points(a@.subrange(0, i as int), older.val@.subrange(0, i as int)).union_prefer_right(points(b@.subrange(0, j as int), newer.val@.subrange(0, j as int))),
            ts@.len() > 0 && i < a@.len() ==> ts@.last() < a@[i as int],
            ts@.len() > 0 && j < b@.len() ==> ts@.last() < b@[j as int],
            i > 0 ==> ts@.len() > 0 && a@[i - 1] <= ts@.last(),
            j > 0 ==> ts@.len() > 0 && b@[j - 1] <= ts@.last(),
        decreases a@.len() - i + b@.len() - j,
    {
        let ghost old_ts = ts@;
        let ghost old_val = val@;
        let ghost pa = points(a@.subrange(0, i as int), older.val@.subrange(0, i as int));
        let ghost pb = points(b@.subrange(0, j as int), newer.val@.subrange(0, j as int));
        if j >= b.len() || (i < a.len() && a[i] < b[j]) {
            let t = a[i];
            let v = older.val[i];
            proof {
                lemma_points_step(a@, older.val@, i as int);
                lemma_points_dom(b@.subrange(0, j as int), newer.val@.subrange(0, j as int), t);
                if b@.subrange(0, j as int).contains(t) {
                    let k = choose|k: int| 0 <= k < j && b@.subrange(0, j as int)[k] == t;
                    assert(b@[k] <= b@[j - 1]);
                }
                lemma_points_push(old_ts, old_val, t, v);
                assert(points(old_ts.push(t), old_val.push(v)) =~= pa.insert(t, v).union_prefer_right(pb));
            }
            ts.push(t);
            val.push(v);
            i += 1;
        } else {
            let t = b[j];
            let v = newer.val[j];
            let ghost same = i < a@.len() && a@[i as int] == t;
            proof {
                lemma_points_step(b@, newer.val@, j as int);
                lemma_points_push(old_ts, old_val, t, v);
                if same {
                    lemma_points_step(a@, older.val@, i as int);
                    assert(points(old_ts.push(t), old_val.push(v)) =~= pa.insert(t, older.val@[i as int]).union_prefer_right(pb.insert(t, v)));
                } else {
                    assert(points(old_ts.push(t), old_val.push(v)) =~= pa.union_prefer_right(pb.insert(t, v)));
                }
            }
            if i < a.len() && a[i] == t {
                i += 1;
            }
            ts.push(t);
            val.push(v);
            j += 1;
        }
    }
    proof {
        assert(a@.subrange(0, a@.len() as int) =~= a@);
        assert(b@.subrange(0, b@.len() as int) =~= b@);
        assert(older.val@.subrange(0, a@.len() as int) =~= older.val@);
        assert(newer.val@.subrange(0, b@.len() as int) =~= newer.val@);
    }
    DataBlock { field_type: older.field_type, ts, val }
}

/// What a list of blocks of one field holds once merged: each block's
/// points, where a later block's value replaces an earlier one's.
pub open spec fn merged_points(bs: Seq<DataBlock>) -> Map<i64, u64>
    decreases bs.len(),
{
    if bs.len() == 0 {
        Map::empty()
    } else {
        merged_points(bs.drop_last()).union_prefer_right(bs.last().points())
    }
}

/// Merges the blocks of one field into one block, whose timestamps are those
/// of all the blocks, each once, ascending; on equal timestamps the later
/// block in the list gives the value. The field type is the first block's.
pub fn merge_blocks(blocks: &Vec<DataBlock>) -> (r: DataBlock)
    requires
        blocks@.len() > 0,
        forall|k: int| 0 <= k < blocks@.len() ==> (#[trigger] blocks@[k]).wf(),
    ensures
        r.wf(),
        r.field_type == blocks@[0].field_type,
        r.points() == merged_points(blocks@),
{
    let mut acc = DataBlock { field_type: blocks[0].field_type, ts: Vec::new(), val: Vec::new() };
    let mut k: usize = 0;
    proof {
        assert(blocks@.subrange(0, 0) =~= Seq::<DataBlock>::empty());
    }
    while k < blocks.len()
        invariant
            k <= blocks@.len(),
            forall|q: int| 0 <= q < blocks@.len() ==> (#[trigger] blocks@[q]).wf(),
            acc.wf(),
            acc.field_type == blocks@[0].field_type,
            acc.points() == merged_points(blocks@.subrange(0, k as int)),
        decreases blocks@.len() - k,
    {
        let next = merge_two(&acc, &blocks[k]);
        proof {
            assert(blocks@.subrange(0, k + 1).drop_last() =~= blocks@.subrange(0, k as int));
        }
        acc = next;
        k += 1;
    }
    proof {
        assert(blocks@.subrange(0, blocks@.len() as int) =~= blocks@);
    }
    acc
}

/// A merge keeps every timestamp of its inputs and adds none: `t` is in
/// the merged block exactly when some input block holds it; and where a
/// timestamp is held by the last block, that block's value is kept.
pub proof fn lemma_merge_keeps_timestamps(bs: Seq<DataBlock>, t: i64)
    ensures
        merged_points(bs).dom().contains(t) <==> exists|k: int| 0 <= k < bs.len() && (#[trigger] bs[k]).ts@.contains(t),
        bs.len() > 0 && bs.last().ts@.contains(t) ==> merged_points(bs)[t] == bs.last().points()[t],
    decreases bs.len(),
{
    if bs.len() > 0 {
        let p = bs.drop_last();
        lemma_merge_keeps_timestamps(p, t);
        lemma_points_dom(bs.last().ts@, bs.last().val@, t);
        if exists|k: int| 0 <= k < bs.len() && (#[trigger] bs[k]).ts@.contains(t) {
            let k = choose|k: int| 0 <= k < bs.len() && (#[trigger] bs[k]).ts@.contains(t);
            if k < p.len() {
                assert(p[k] == bs[k]);
            }
        }
        if exists|k: int| 0 <= k < p.len() && (#[trigger] p[k]).ts@.contains(t) {
            let k = choose|k: int| 0 <= k < p.len() && (#[trigger] p[k]).ts@.contains(t);
            assert(bs[k] == p[k]);
        }
        if bs.last().ts@.contains(t) {
            assert(bs[bs.len() - 1] == bs.last());
        }
    }
}

/// A block holds as many points as timestamps.
pub proof fn lemma_points_len(ts: Seq<i64>, val: Seq<u64>)
    requires
        strictly_ascending(ts),
    ensures
        points(ts, val).dom().len() == ts.len(),
        points(ts, val).dom().finite(),
    decreases ts.len(),
{
    if ts.len() > 0 {
        let p = ts.drop_last();
        assert(strictly_ascending(p));
        lemma_points_len(p, val);
        lemma_points_dom(p, val, ts.last());
        if p.contains(ts.last()) {
            let k = choose|k: int| 0 <= k < p.len() && p[k] == ts.last();
            assert(ts[k] < ts[ts.len() - 1]);
        }
    }
}

} // verus!
