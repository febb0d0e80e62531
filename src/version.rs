//! Versions: the live files of each vnode, rebuilt by replaying manifest
//! records in log order, and the records that rebuild them from scratch.

use vstd::prelude::*;
use crate::bloom::BloomFilter;
use crate::summary::{edits_view, empty_edit, CompactMeta, EditView, VersionEdit};

verus! {

/// The files of a list, keyed by file id; a later entry replaces an earlier one.
pub open spec fn apply_adds(m: Map<u64, CompactMeta>, adds: Seq<CompactMeta>) -> Map<u64, CompactMeta>
    decreases adds.len(),
{
    if adds.len() == 0 {
        m
    } else {
        apply_adds(m, adds.drop_last()).insert(adds.last().file_id, adds.last())
    }
}

pub open spec fn apply_dels(m: Map<u64, CompactMeta>, dels: Seq<CompactMeta>) -> Map<u64, CompactMeta>
    decreases dels.len(),
{
    if dels.len() == 0 {
        m
    } else {
        apply_dels(m, dels.drop_last()).remove(dels.last().file_id)
    }
}

pub open spec fn files_map(s: Seq<CompactMeta>) -> Map<u64, CompactMeta> {
    apply_adds(Map::empty(), s)
}

pub open spec fn max_u64(a: u64, b: u64) -> u64 {
    if a >= b { a } else { b }
}

pub open spec fn max_ts(a: i64, b: i64) -> i64 {
    if a >= b { a } else { b }
}

/// A vnode's version as a value.
pub struct VersionView {
    pub tsf_id: u32,
    pub owner: Seq<char>,
    pub last_seq: u64,
    pub max_level_ts: i64,
    pub files: Map<u64, CompactMeta>,
    pub kept_seq_no: Option<u64>,
    pub kept_file_id: Option<u64>,
}

/// The larger of `o` and `x` where a record sets `x`; `o` where it does not.
pub open spec fn bump(o: Option<u64>, has: bool, x: u64) -> Option<u64> {
    if has {
        match o {
            Some(p) => Some(max_u64(p, x)),
            None => Some(x),
        }
    } else {
        o
    }
}

/// The larger of two optional numbers.
pub open spec fn max_opt(a: Option<u64>, b: Option<u64>) -> Option<u64> {
    match (a, b) {
        (Some(x), Some(y)) => Some(max_u64(x, y)),
        (Some(x), None) => Some(x),
        (None, _) => b,
    }
}

/// A sequence number that the kept records set is at most the version's.
pub open spec fn seq_consistent(v: VersionView) -> bool {
    v.kept_seq_no matches Some(x) ==> x <= v.last_seq
}

/// The version of a vnode just created.
pub open spec fn fresh_version(tsf_id: u32, owner: Seq<char>) -> VersionView {
    VersionView { tsf_id, owner, last_seq: 0, max_level_ts: i64::MIN, files: Map::empty(), kept_seq_no: None, kept_file_id: None }
}

/// A version once a file record applies: its deleted files go, then its
/// added files come; the sequence and the level bound take the larger, and
/// so do the sequence number and file id that the kept records set.
pub open spec fn apply_edit(v: VersionView, e: EditView) -> VersionView {
    VersionView {
        files: apply_adds(apply_dels(v.files, e.del_files), e.add_files),
        last_seq: max_u64(v.last_seq, e.seq_no),
        max_level_ts: max_ts(v.max_level_ts, e.max_level_ts),
        kept_seq_no: bump(v.kept_seq_no, e.has_seq_no, e.seq_no),
        kept_file_id: bump(v.kept_file_id, e.has_file_id, e.file_id),
        ..v
    }
}

/// The versions once one record applies: a vnode added starts afresh, a
/// vnode deleted goes, and a file record applies to its vnode if it lives.
pub open spec fn step(st: Map<u32, VersionView>, e: EditView) -> Map<u32, VersionView> {
    if e.add_tsf {
        st.insert(e.tsf_id, fresh_version(e.tsf_id, e.tsf_name))
    } else if e.del_tsf {
        st.remove(e.tsf_id)
    } else if st.contains_key(e.tsf_id) {
        st.insert(e.tsf_id, apply_edit(st[e.tsf_id], e))
    } else {
        st
    }
}

/// The versions that a log of records leaves.
pub open spec fn replay(edits: Seq<EditView>) -> Map<u32, VersionView>
    decreases edits.len(),
{
    if edits.len() == 0 {
        Map::empty()
    } else {
        step(replay(edits.drop_last()), edits.last())
    }
}

/// The versions once the records apply, in order, to the versions `st`.
pub open spec fn replay_from(st: Map<u32, VersionView>, edits: Seq<EditView>) -> Map<u32, VersionView>
    decreases edits.len(),
{
    if edits.len() == 0 {
        st
    } else {
        step(replay_from(st, edits.drop_last()), edits.last())
    }
}

/// Replaying a log is applying it to no versions at all.
pub proof fn lemma_replay_is_replay_from_empty(edits: Seq<EditView>)
    ensures
        replay(edits) == replay_from(Map::empty(), edits),
    decreases edits.len(),
{
    if edits.len() > 0 {
        lemma_replay_is_replay_from_empty(edits.drop_last());
    }
}

/// The live state of one vnode.
pub struct Version {
    pub tsf_id: u32,
    pub owner: String,
    pub last_seq: u64,
    pub max_level_ts: i64,
    pub files: Vec<CompactMeta>,
    /// The largest sequence number that the vnode's kept records set.
    pub kept_seq_no: Option<u64>,
    /// The largest file id that the vnode's kept records set.
    pub kept_file_id: Option<u64>,
}

impl View for Version {
    type V = VersionView;

    open spec fn view(&self) -> VersionView {
        VersionView {
            tsf_id: self.tsf_id,
            owner: self.owner@,
            last_seq: self.last_seq,
            max_level_ts: self.max_level_ts,
            files: files_map(self.files@),
            kept_seq_no: self.kept_seq_no,
            kept_file_id: self.kept_file_id,
        }
    }
}

/// The versions of a list, keyed by vnode id; a later one replaces an earlier one.
pub open spec fn set_view(s: Seq<Version>) -> Map<u32, VersionView>
    decreases s.len(),
{
    if s.len() == 0 {
        Map::empty()
    } else {
        set_view(s.drop_last()).insert(s.last().tsf_id, s.last()@)
    }
}

proof fn lemma_apply_adds_push(m: Map<u64, CompactMeta>, s: Seq<CompactMeta>, x: CompactMeta)
    ensures
        apply_adds(m, s.push(x)) == apply_adds(m, s).insert(x.file_id, x),
{
    assert(s.push(x).drop_last() =~= s);
}

/// Keeps the files whose id is not `id`.
fn without_file(files: &Vec<CompactMeta>, id: u64) -> (r: Vec<CompactMeta>)
    ensures
        files_map(r@) == files_map(files@).remove(id),
{
    let mut r: Vec<CompactMeta> = Vec::new();
    let mut i: usize = 0;
    while i < files.len()
        invariant
            i <= files@.len(),
            files_map(r@) == files_map(files@.subrange(0, i as int)).remove(id),
        decreases files@.len() - i,
    {
        let f = files[i];
        proof {
            assert(files@.subrange(0, i + 1) =~= files@.subrange(0, i as int).push(f));
            lemma_apply_adds_push(Map::empty(), files@.subrange(0, i as int), f);
        }
        if f.file_id != id {
            proof {
                lemma_apply_adds_push(Map::empty(), r@, f);
                assert(files_map(r@.push(f)) =~= files_map(files@.subrange(0, i + 1)).remove(id));
            }
            r.push(f);
        } else {
            proof {
                assert(files_map(r@) =~= files_map(files@.subrange(0, i + 1)).remove(id));
            }
        }
        i += 1;
    }
    proof {
        assert(files@.subrange(0, files@.len() as int) =~= files@);
    }
    r
}

impl Version {
    pub fn new(tsf_id: u32, owner: String) -> (r: Version)
        ensures
            r@ == fresh_version(tsf_id, owner@),
    {
        let r = Version { tsf_id, owner, last_seq: 0, max_level_ts: i64::MIN, files: Vec::new(), kept_seq_no: None, kept_file_id: None };
        proof {
            assert(files_map(r.files@) =~= Map::<u64, CompactMeta>::empty());
        }
        r
    }

    pub fn copy(&self) -> (r: Version)
        ensures
            r@ == self@,
            r.tsf_id == self.tsf_id,
            r.files@ == self.files@,
    {
        let files = self.files.clone();
        proof {
            assert(files@ =~= self.files@);
        }
        Version {
            tsf_id: self.tsf_id,
            owner: self.owner.clone(),
            last_seq: self.last_seq,
            max_level_ts: self.max_level_ts,
            files,
            kept_seq_no: self.kept_seq_no,
            kept_file_id: self.kept_file_id,
        }
    }

    /// Applies a file record: its deleted files go, then its added files
    /// come, each replacing a file of the same id.
    pub fn apply(&mut self, e: &VersionEdit)
        ensures
            final(self)@ == apply_edit(old(self)@, e@),
            final(self).tsf_id == old(self).tsf_id,
    {
        let mut k: usize = 0;
        let ghost start = files_map(self.files@);
        while k < e.del_files.len()
            invariant
                k <= e.del_files@.len(),
                files_map(self.files@) == apply_dels(start, e.del_files@.subrange(0, k as int)),
                start == files_map(old(self).files@),
                self.tsf_id == old(self).tsf_id,
                self.owner == old(self).owner,
                self.last_seq == old(self).last_seq,
                self.max_level_ts == old(self).max_level_ts,
                self.kept_seq_no == old(self).kept_seq_no,
                self.kept_file_id == old(self).kept_file_id,
            decreases e.del_files@.len() - k,
        {
            proof {
                assert(e.del_files@.subrange(0, k + 1).drop_last() =~= e.del_files@.subrange(0, k as int));
            }
            self.files = without_file(&self.files, e.del_files[k].file_id);
            k += 1;
        }
        proof {
            assert(e.del_files@.subrange(0, e.del_files@.len() as int) =~= e.del_files@);
        }
        let ghost mid = files_map(self.files@);
        let mut j: usize = 0;
        while j < e.add_files.len()
            invariant
                j <= e.add_files@.len(),
                files_map(self.files@) == apply_adds(mid, e.add_files@.subrange(0, j as int)),
                mid == apply_dels(files_map(old(self).files@), e.del_files@),
                self.tsf_id == old(self).tsf_id,
                self.owner == old(self).owner,
                self.last_seq == old(self).last_seq,
                self.max_level_ts == old(self).max_level_ts,
                self.kept_seq_no == old(self).kept_seq_no,
                self.kept_file_id == old(self).kept_file_id,
            decreases e.add_files@.len() - j,
        {
            let f = e.add_files[j];
            let mut kept = without_file(&self.files, f.file_id);
            proof {
                assert(e.add_files@.subrange(0, j + 1).drop_last() =~= e.add_files@.subrange(0, j as int));
                lemma_apply_adds_push(Map::empty(), kept@, f);
                assert(files_map(kept@.push(f)) =~= apply_adds(mid, e.add_files@.subrange(0, j + 1)));
            }
            kept.push(f);
            self.files = kept;
            j += 1;
        }
        proof {
            assert(e.add_files@.subrange(0, e.add_files@.len() as int) =~= e.add_files@);
        }
        if e.seq_no > self.last_seq {
            self.last_seq = e.seq_no;
        }
        if e.max_level_ts > self.max_level_ts {
            self.max_level_ts = e.max_level_ts;
        }
        if e.has_seq_no {
            self.kept_seq_no = match self.kept_seq_no {
                Some(p) => Some(if p >= e.seq_no { p } else { e.seq_no }),
                None => Some(e.seq_no),
            };
        }
        if e.has_file_id {
            self.kept_file_id = match self.kept_file_id {
                Some(p) => Some(if p >= e.file_id { p } else { e.file_id }),
                None => Some(e.file_id),
            };
        }
    }

    /// The files of each level, levels 0 to 4 in order. A file of a level
    /// above 4 is in no list.
    pub fn levels_info(&self) -> (r: Vec<Vec<CompactMeta>>)
        ensures
            r@.len() == 5,
            forall|l: int, m: CompactMeta| 0 <= l < 5 && #[trigger] r@[l]@.contains(m) ==> m.level < 5,
            forall|l: int, k: int| 0 <= l < 5 && 0 <= k < r@[l]@.len() ==> (#[trigger] r@[l]@[k]).level == l && self.files@.contains(r@[l]@[k]),
            forall|k: int| 0 <= k < self.files@.len() && (#[trigger] self.files@[k]).level < 5 ==> r@[self.files@[k].level as int]@.contains(self.files@[k]),
    {
        let mut r: Vec<Vec<CompactMeta>> = Vec::new();
        let mut l: u32 = 0;
        while l < 5
            invariant
                l <= 5,
                r@.len() == l,
                forall|q: int, k: int| 0 <= q < l && 0 <= k < r@[q]@.len() ==> (#[trigger] r@[q]@[k]).level == q && self.files@.contains(r@[q]@[k]),
                forall|k: int| 0 <= k < self.files@.len() && (#[trigger] self.files@[k]).level < l ==> r@[self.files@[k].level as int]@.contains(self.files@[k]),
            decreases 5 - l,
        {
            let files = self.level_files(l);
            let ghost before = r@;
            r.push(files);
            proof {
                assert forall|q: int, k: int| 0 <= q < l + 1 && 0 <= k < r@[q]@.len() implies (#[trigger] r@[q]@[k]).level == q && self.files@.contains(r@[q]@[k]) by {
                    if q < l {
                        assert(r@[q] == before[q]);
                    }
                }
                assert forall|k: int| 0 <= k < self.files@.len() && (#[trigger] self.files@[k]).level < l + 1 implies r@[self.files@[k].level as int]@.contains(self.files@[k]) by {
                    let q = self.files@[k].level as int;
                    if q < l {
                        assert(r@[q] == before[q]);
                    }
                }
            }
            l += 1;
        }
        r
    }

    /// The files at `level`.
    pub fn level_files(&self, level: u32) -> (r: Vec<CompactMeta>)
        ensures
            forall|k: int| 0 <= k < r@.len() ==> (#[trigger] r@[k]).level == level && self.files@.contains(r@[k]),
            forall|k: int| 0 <= k < self.files@.len() && (#[trigger] self.files@[k]).level == level ==> r@.contains(self.files@[k]),
    {
        let mut r: Vec<CompactMeta> = Vec::new();
        let mut i: usize = 0;
        while i < self.files.len()
            invariant
                i <= self.files@.len(),
                forall|k: int| 0 <= k < r@.len() ==> (#[trigger] r@[k]).level == level && self.files@.contains(r@[k]),
                forall|k: int| 0 <= k < i && (#[trigger] self.files@[k]).level == level ==> r@.contains(self.files@[k]),
            decreases self.files@.len() - i,
        {
            let f = self.files[i];
            if f.level == level {
                let ghost before = r@;
                r.push(f);
                proof {
                    assert(r@[r@.len() - 1] == f);
                    assert forall|k: int| 0 <= k < r@.len() implies (#[trigger] r@[k]).level == level && self.files@.contains(r@[k]) by {
                        if k < before.len() {
                            assert(r@[k] == before[k]);
                        } else {
                            assert(self.files@[i as int] == f);
                        }
                    }
                    assert forall|k: int| 0 <= k < i + 1 && (#[trigger] self.files@[k]).level == level implies r@.contains(self.files@[k]) by {
                        if k < i {
                            let q = choose|q: int| 0 <= q < before.len() && before[q] == self.files@[k];
                            assert(r@[q] == before[q]);
                        } else {
                            assert(r@[r@.len() - 1] == self.files@[k]);
                        }
                    }
                }
            }
            i += 1;
        }
        r
    }
}

/// Vnode ids are unique in the list.
pub open spec fn ids_unique(s: Seq<Version>) -> bool {
    forall|i: int, j: int| 0 <= i < j < s.len() ==> s[i].tsf_id != s[j].tsf_id
}

proof fn lemma_set_view_len(s: Seq<Version>)
    requires
        ids_unique(s),
    ensures
        set_view(s).dom().len() == s.len(),
        set_view(s).dom().finite(),
    decreases s.len(),
{
    if s.len() > 0 {
        let p = s.drop_last();
        assert(ids_unique(p)) by {
            assert forall|i: int, j: int| 0 <= i < j < p.len() implies p[i].tsf_id != p[j].tsf_id by {
                assert(p[i] == s[i] && p[j] == s[j]);
            }
        }
        lemma_set_view_len(p);
        assert forall|k: int| 0 <= k < p.len() implies p[k].tsf_id != s.last().tsf_id by {
            assert(p[k] == s[k]);
        }
        lemma_set_view_absent(p, s.last().tsf_id);
    }
}

/// The value at the last version of `id` in the list.
proof fn lemma_set_view_last(s: Seq<Version>, j: int)
    requires
        0 <= j < s.len(),
        forall|k: int| j < k < s.len() ==> s[k].tsf_id != s[j].tsf_id,
    ensures
        set_view(s).contains_key(s[j].tsf_id),
        set_view(s)[s[j].tsf_id] == s[j]@,
    decreases s.len(),
{
    if j < s.len() - 1 {
        let p = s.drop_last();
        assert(p[j] == s[j]);
        lemma_set_view_last(p, j);
    }
}

proof fn lemma_set_view_absent(s: Seq<Version>, id: u32)
    requires
        forall|k: int| 0 <= k < s.len() ==> s[k].tsf_id != id,
    ensures
        !set_view(s).contains_key(id),
    decreases s.len(),
{
    if s.len() > 0 {
        let p = s.drop_last();
        assert forall|k: int| 0 <= k < p.len() implies p[k].tsf_id != id by {
            assert(p[k] == s[k]);
        }
        lemma_set_view_absent(p, id);
    }
}

/// The versions of all vnodes, one per vnode.
pub struct VersionSet {
    versions: Vec<Version>,
}

impl VersionSet {
    pub closed spec fn versions(&self) -> Seq<Version> {
        self.versions@
    }

    /// The version of each vnode, by vnode id.
    pub open spec fn view_map(&self) -> Map<u32, VersionView> {
        set_view(self.versions())
    }

    pub open spec fn wf(&self) -> bool {
        ids_unique(self.versions())
    }

    pub fn empty() -> (r: VersionSet)
        ensures
            r.wf(),
            r.view_map() == Map::<u32, VersionView>::empty(),
    {
        VersionSet { versions: Vec::new() }
    }

    pub fn versions_list(&self) -> (r: &Vec<Version>)
        ensures
            r@ == self.versions(),
    {
        &self.versions
    }

    /// How many vnodes there are.
    pub fn tsf_num(&self) -> (r: usize)
        requires
            self.wf(),
        ensures
            r == self.view_map().dom().len(),
    {
        proof {
            lemma_set_view_len(self.versions@);
        }
        self.versions.len()
    }

    /// Where the version of `id` lies, if any.
    pub fn find(&self, id: u32) -> (r: Option<usize>)
        ensures
            r is None ==> !self.view_map().contains_key(id),
            r matches Some(j) ==> j < self.versions().len() && self.versions()[j as int].tsf_id == id && self.view_map().contains_key(id) && self.view_map()[id] == self.versions()[j as int]@,
    {
        let mut i: usize = self.versions.len();
        while i > 0
            invariant
                i <= self.versions@.len(),
                forall|k: int| i <= k < self.versions@.len() ==> self.versions@[k].tsf_id != id,
            decreases i,
        {
            if self.versions[i - 1].tsf_id == id {
                proof {
                    lemma_set_view_last(self.versions@, i - 1);
                }
                return Some(i - 1);
            }
            i -= 1;
        }
        proof {
            lemma_set_view_absent(self.versions@, id);
        }
        None
    }

    /// Removes the version of `id`.
    fn remove(&mut self, id: u32)
        requires
            old(self).wf(),
        ensures
            final(self).wf(),
            final(self).view_map() == old(self).view_map().remove(id),
            forall|k: int| 0 <= k < final(self).versions().len() ==> (#[trigger] final(self).versions()[k]).tsf_id != id,
    {
        let mut r: Vec<Version> = Vec::new();
        let ghost s = self.versions@;
        let mut i: usize = 0;
        while i < self.versions.len()
            invariant
                i <= self.versions@.len(),
                self.versions@ == s,
                s == old(self).versions@,
                ids_unique(s),
                set_view(r@) == set_view(s.subrange(0, i as int)).remove(id),
                forall|k: int| 0 <= k < r@.len() ==> (#[trigger] r@[k]).tsf_id != id,
                forall|k: int, j: int| 0 <= k < r@.len() && i <= j < s.len() ==> (#[trigger] r@[k]).tsf_id != (#[trigger] s[j]).tsf_id,
                ids_unique(r@),
            decreases self.versions@.len() - i,
        {
            let v = self.versions[i].copy();
            proof {
                assert(s.subrange(0, i + 1).drop_last() =~= s.subrange(0, i as int));
            }
            if v.tsf_id != id {
                let ghost before = r@;
                proof {
                    assert forall|k: int| 0 <= k < before.len() implies before[k].tsf_id != v.tsf_id by {
                        assert(s[i as int].tsf_id == v.tsf_id);
                    }
                }
                r.push(v);
                proof {
                    assert(r@.drop_last() =~= before);
                    assert(set_view(r@) =~= set_view(s.subrange(0, i + 1)).remove(id));
                    assert forall|k: int, j: int| 0 <= k < r@.len() && i + 1 <= j < s.len() implies (#[trigger] r@[k]).tsf_id != (#[trigger] s[j]).tsf_id by {
                        if k < before.len() {
                            assert(r@[k] == before[k]);
                        } else {
                            assert(s[i as int].tsf_id == v.tsf_id);
                        }
                    }
                }
            } else {
                proof {
                    assert(set_view(r@) =~= set_view(s.subrange(0, i + 1)).remove(id));
                }
            }
            i += 1;
        }
        proof {
            assert(s.subrange(0, s.len() as int) =~= s);
        }
        self.versions = r;
    }

    /// Sets the version of its vnode, replacing any it had.
    fn put(&mut self, v: Version)
        requires
            old(self).wf(),
        ensures
            final(self).wf(),
            final(self).view_map() == old(self).view_map().insert(v.tsf_id, v@),
    {
        let id = v.tsf_id;
        self.remove(id);
        let ghost before = self.versions@;
        self.versions.push(v);
        proof {
            assert(self.versions@.drop_last() =~= before);
            assert(self.view_map() =~= old(self).view_map().insert(id, v@));
        }
    }
}

impl VersionSet {
    /// Applies records in order: a vnode added starts afresh, a vnode
    /// deleted goes, a file record applies to its vnode where it lives.
    pub fn apply_version_edits(&mut self, edits: &Vec<VersionEdit>)
        requires
            old(self).wf(),
        ensures
            final(self).wf(),
            final(self).view_map() == replay_from(old(self).view_map(), edits_view(edits@)),
    {
        let ghost ev = edits_view(edits@);
        let ghost st = self.view_map();
        let mut i: usize = 0;
        while i < edits.len()
            invariant
                i <= edits@.len(),
                ev == edits_view(edits@),
                self.wf(),
                self.view_map() == replay_from(st, ev.subrange(0, i as int)),
            decreases edits@.len() - i,
        {
            let e = &edits[i];
            proof {
                assert(ev.subrange(0, i + 1).drop_last() =~= ev.subrange(0, i as int));
                assert(ev[i as int] == e@);
            }
            if e.add_tsf {
                self.put(Version::new(e.tsf_id, e.tsf_name.clone()));
            } else if e.del_tsf {
                self.remove(e.tsf_id);
            } else {
                match self.find(e.tsf_id) {
                    Some(j) => {
                        let mut v = self.versions[j].copy();
                        v.apply(e);
                        self.put(v);
                    },
                    None => {},
                }
            }
            i += 1;
        }
        proof {
            assert(ev.subrange(0, edits@.len() as int) =~= ev);
        }
    }
}

/// What recovering a log gives: the versions, and the next sequence number
/// and file id to hand out.
pub struct Recovered {
    pub versions: VersionSet,
    pub last_seq: u64,
    pub next_file_id: u64,
}

/// One more than the largest number, or 0 where there is none; the largest
/// `u64` stays.
pub open spec fn next_after(m: Option<u64>) -> u64 {
    match m {
        Some(x) => if x < u64::MAX { (x + 1) as u64 } else { u64::MAX },
        None => 0,
    }
}

/// The largest sequence number that the kept records of the versions set.
pub open spec fn versions_seq(vs: Seq<Version>) -> Option<u64>
    decreases vs.len(),
{
    if vs.len() == 0 {
        None
    } else {
        max_opt(versions_seq(vs.drop_last()), vs.last().kept_seq_no)
    }
}

/// The largest file id that the kept records of the versions set.
pub open spec fn versions_file_id(vs: Seq<Version>) -> Option<u64>
    decreases vs.len(),
{
    if vs.len() == 0 {
        None
    } else {
        max_opt(versions_file_id(vs.drop_last()), vs.last().kept_file_id)
    }
}

/// Rebuilds the versions from a log of records, in log order: a vnode added
/// starts afresh, a vnode deleted goes, a file record applies to its vnode
/// where it lives. The next sequence number and file id follow the largest
/// that the records kept for the surviving vnodes set.
pub fn recover(edits: &Vec<VersionEdit>) -> (r: Recovered)
    ensures
        r.versions.wf(),
        r.versions.view_map() == replay(edits_view(edits@)),
        r.last_seq == next_after(versions_seq(r.versions.versions())),
        r.next_file_id == next_after(versions_file_id(r.versions.versions())),
{
    let mut set = VersionSet::empty();
    set.apply_version_edits(edits);
    proof {
        lemma_replay_is_replay_from_empty(edits_view(edits@));
    }
    let vs = set.versions_list();
    let mut seq: Option<u64> = None;
    let mut fid: Option<u64> = None;
    let mut i: usize = 0;
    while i < vs.len()
        invariant
            i <= vs@.len(),
            seq == versions_seq(vs@.subrange(0, i as int)),
            fid == versions_file_id(vs@.subrange(0, i as int)),
        decreases vs@.len() - i,
    {
        proof {
            assert(vs@.subrange(0, i + 1).drop_last() =~= vs@.subrange(0, i as int));
        }
        let v = &vs[i];
        seq = match (seq, v.kept_seq_no) {
            (Some(a), Some(b)) => Some(if a >= b { a } else { b }),
            (Some(a), None) => Some(a),
            (None, b) => b,
        };
        fid = match (fid, v.kept_file_id) {
            (Some(a), Some(b)) => Some(if a >= b { a } else { b }),
            (Some(a), None) => Some(a),
            (None, b) => b,
        };
        i += 1;
    }
    proof {
        assert(vs@.subrange(0, vs@.len() as int) =~= vs@);
    }
    let last_seq = match seq {
        Some(x) => if x < u64::MAX { x + 1 } else { u64::MAX },
        None => 0,
    };
    let next_file_id = match fid {
        Some(x) => if x < u64::MAX { x + 1 } else { u64::MAX },
        None => 0,
    };
    Recovered { versions: set, last_seq, next_file_id }
}

/// The largest file id of a list, 0 for none.
pub open spec fn max_id(s: Seq<CompactMeta>) -> u64
    decreases s.len(),
{
    if s.len() == 0 {
        0
    } else {
        max_u64(max_id(s.drop_last()), s.last().file_id)
    }
}

/// The record that re-creates a version's vnode.
pub open spec fn snapshot_add(v: Version) -> EditView {
    EditView { add_tsf: true, tsf_name: v.owner@, ..empty_edit(v.tsf_id) }
}

/// The record that brings back a version's files, sequence, level bound
/// and kept file id.
pub open spec fn snapshot_files(v: Version) -> EditView {
    EditView {
        has_seq_no: false,
        seq_no: v.last_seq,
        has_file_id: v.kept_file_id is Some,
        file_id: match v.kept_file_id { Some(x) => x, None => 0 },
        max_level_ts: v.max_level_ts,
        add_files: v.files@,
        ..empty_edit(v.tsf_id)
    }
}

/// The record that brings back a version's kept sequence number.
pub open spec fn snapshot_seq(v: Version) -> EditView {
    EditView {
        has_seq_no: v.kept_seq_no is Some,
        seq_no: match v.kept_seq_no { Some(x) => x, None => 0 },
        ..empty_edit(v.tsf_id)
    }
}

/// The records that rebuild a list of versions from scratch.
pub open spec fn snapshot_of(vs: Seq<Version>) -> Seq<EditView>
    decreases vs.len(),
{
    if vs.len() == 0 {
        Seq::empty()
    } else {
        snapshot_of(vs.drop_last()).push(snapshot_add(vs.last())).push(snapshot_files(vs.last())).push(snapshot_seq(vs.last()))
    }
}

/// Replaying a snapshot rebuilds the versions it was taken of: recovering
/// a log, writing its snapshot and recovering that gives the same versions.
pub proof fn lemma_snapshot_replay(vs: Seq<Version>)
    requires
        forall|k: int| 0 <= k < vs.len() ==> seq_consistent(#[trigger] vs[k]@),
    ensures
        replay(snapshot_of(vs)) == set_view(vs),
    decreases vs.len(),
{
    if vs.len() > 0 {
        let p = vs.drop_last();
        let v = vs.last();
        assert forall|k: int| 0 <= k < p.len() implies seq_consistent(#[trigger] p[k]@) by {
            assert(p[k] == vs[k]);
        }
        assert(seq_consistent(vs[vs.len() - 1]@));
        lemma_snapshot_replay(p);
        let earlier = snapshot_of(p);
        let with_add = earlier.push(snapshot_add(v));
        let with_files = with_add.push(snapshot_files(v));
        let with_seq = with_files.push(snapshot_seq(v));
        assert(with_seq.drop_last() == with_files);
        assert(with_files.drop_last() == with_add);
        assert(with_add.drop_last() == earlier);
        let after_add = replay(with_add);
        assert(after_add == replay(earlier).insert(v.tsf_id, fresh_version(v.tsf_id, v.owner@)));
        let a = apply_edit(fresh_version(v.tsf_id, v.owner@), snapshot_files(v));
        assert(apply_dels(Map::<u64, CompactMeta>::empty(), Seq::<CompactMeta>::empty()) == Map::<u64, CompactMeta>::empty());
        assert(replay(with_files) == after_add.insert(v.tsf_id, a));
        let b = apply_edit(a, snapshot_seq(v));
        assert(b.files == a.files);
        assert(b == v@);
        assert(replay(with_seq) == replay(with_files).insert(v.tsf_id, b));
        assert(replay(with_seq) =~= set_view(vs));
    }
}

/// Every version that a log leaves has a kept sequence number at most its own.
pub proof fn lemma_replay_consistent(edits: Seq<EditView>)
    ensures
        forall|id: u32| #[trigger] replay(edits).contains_key(id) ==> seq_consistent(replay(edits)[id]),
    decreases edits.len(),
{
    if edits.len() > 0 {
        let prev = replay(edits.drop_last());
        let e = edits.last();
        lemma_replay_consistent(edits.drop_last());
        assert(replay(edits) == step(prev, e));
        assert forall|id: u32| #[trigger] replay(edits).contains_key(id) implies seq_consistent(replay(edits)[id]) by {
            if !e.add_tsf && !e.del_tsf && prev.contains_key(e.tsf_id) && id == e.tsf_id {
                let v = prev[id];
                assert(seq_consistent(v));
                let w = apply_edit(v, e);
                assert(replay(edits)[id] == w);
            } else if !e.add_tsf && !e.del_tsf && prev.contains_key(e.tsf_id) {
                assert(replay(edits)[id] == prev[id]);
            } else if e.add_tsf && id != e.tsf_id {
                assert(replay(edits)[id] == prev[id]);
            } else if !e.add_tsf && e.del_tsf {
                assert(replay(edits)[id] == prev[id]);
            }
        }
    }
}

impl VersionSet {
    /// The records that rebuild every version from scratch: per version, the
    /// record adding its vnode, the record adding all its files, and the
    /// record bringing back its kept sequence number.
    pub fn snapshot(&self) -> (r: Vec<VersionEdit>)
        ensures
            edits_view(r@) == snapshot_of(self.versions()),
    {
        let mut out: Vec<VersionEdit> = Vec::new();
        let mut i: usize = 0;
        while i < self.versions.len()
            invariant
                i <= self.versions@.len(),
                edits_view(out@) == snapshot_of(self.versions@.subrange(0, i as int)),
            decreases self.versions@.len() - i,
        {
            let v = &self.versions[i];
            let add = VersionEdit::new_add_vnode(v.tsf_id, v.owner.clone());
            let files = v.files.clone();
            proof {
                assert(files@ =~= v.files@);
            }
            let mut fe = VersionEdit::new(v.tsf_id);
            fe.seq_no = v.last_seq;
            match v.kept_file_id {
                Some(x) => {
                    fe.has_file_id = true;
                    fe.file_id = x;
                },
                None => {},
            }
            fe.max_level_ts = v.max_level_ts;
            fe.add_files = files;
            let mut se = VersionEdit::new(v.tsf_id);
            match v.kept_seq_no {
                Some(x) => {
                    se.has_seq_no = true;
                    se.seq_no = x;
                },
                None => {},
            }
            let ghost before = out@;
            out.push(add);
            out.push(fe);
            out.push(se);
            proof {
                let vs = self.versions@;
                assert(vs.subrange(0, i + 1).drop_last() =~= vs.subrange(0, i as int));
                assert(vs[i as int] == *v);
                assert(edits_view(out@) =~= edits_view(before).push(snapshot_add(*v)).push(snapshot_files(*v)).push(snapshot_seq(*v)));
            }
            i += 1;
        }
        proof {
            assert(self.versions@.subrange(0, self.versions@.len() as int) =~= self.versions@);
        }
        out
    }
}

/// Recovering the snapshot of recovered versions gives those versions again.
pub proof fn lemma_recover_snapshot(log: Seq<EditView>, set: VersionSet, snap: Seq<EditView>)
    requires
        set.wf(),
        set.view_map() == replay(log),
        snap == snapshot_of(set.versions()),
    ensures
        replay(snap) == replay(log),
{
    let vs = set.versions();
    lemma_replay_consistent(log);
    assert forall|k: int| 0 <= k < vs.len() implies seq_consistent(#[trigger] vs[k]@) by {
        assert forall|q: int| k < q < vs.len() implies vs[q].tsf_id != vs[k].tsf_id by {}
        lemma_set_view_last(vs, k);
    }
    lemma_snapshot_replay(vs);
}

/// The most write requests a batch holds before it is applied.
pub const MAX_BATCH_SIZE: usize = 64;

/// Gathers the records of write requests and applies them together: the
/// caller writes the returned records to the log, then answers every
/// request of the batch.
pub struct SummaryProcessor {
    versions: VersionSet,
    edits: Vec<VersionEdit>,
    file_metas: Vec<FileMeta>,
    requests: usize,
}

/// The bloom filter of a file that a request adds.
pub struct FileMeta {
    pub file_id: u64,
    pub bloom: BloomFilter,
}

/// File metas as values: each file id with its filter's bits.
pub open spec fn metas_view(s: Seq<FileMeta>) -> Seq<(u64, Seq<u8>)> {
    s.map_values(|m: FileMeta| (m.file_id, m.bloom.bits()))
}

impl SummaryProcessor {
    pub closed spec fn versions(&self) -> VersionSet {
        self.versions
    }

    /// The records waiting, in the order they came.
    pub closed spec fn pending(&self) -> Seq<EditView> {
        edits_view(self.edits@)
    }

    pub closed spec fn requests(&self) -> nat {
        self.requests as nat
    }

    /// The file metas waiting, in the order they came.
    pub closed spec fn pending_metas(&self) -> Seq<(u64, Seq<u8>)> {
        metas_view(self.file_metas@)
    }

    pub open spec fn wf(&self) -> bool {
        self.versions().wf()
    }

    pub fn new(versions: VersionSet) -> (r: SummaryProcessor)
        requires
            versions.wf(),
        ensures
            r.wf(),
            r.versions() == versions,
            r.pending() == Seq::<EditView>::empty(),
            r.pending_metas() == Seq::<(u64, Seq<u8>)>::empty(),
            r.requests() == 0,
    {
        let r = SummaryProcessor { versions, edits: Vec::new(), file_metas: Vec::new(), requests: 0 };
        proof {
            assert(edits_view(r.edits@) =~= Seq::<EditView>::empty());
            assert(metas_view(r.file_metas@) =~= Seq::<(u64, Seq<u8>)>::empty());
        }
        r
    }

    /// Adds one request to the batch: its records, and the file metas of the
    /// files it adds (none for a vnode request).
    pub fn batch(&mut self, edits: Vec<VersionEdit>, file_metas: Vec<FileMeta>)
        requires
            old(self).wf(),
        ensures
            final(self).wf(),
            final(self).versions() == old(self).versions(),
            final(self).pending() == old(self).pending() + edits_view(edits@),
            final(self).pending_metas() == old(self).pending_metas() + metas_view(file_metas@),
            final(self).requests() == if old(self).requests() < usize::MAX { old(self).requests() + 1 } else { old(self).requests() },
    {
        let mut edits = edits;
        let ghost added = edits_view(edits@);
        let ghost before = self.edits@;
        self.edits.append(&mut edits);
        proof {
            assert(edits_view(self.edits@) =~= edits_view(before) + added);
        }
        let mut metas = file_metas;
        let ghost added_metas = metas_view(metas@);
        let ghost metas_before = self.file_metas@;
        self.file_metas.append(&mut metas);
        proof {
            assert(metas_view(self.file_metas@) =~= metas_view(metas_before) + added_metas);
        }
        if self.requests < usize::MAX {
            self.requests = self.requests + 1;
        }
    }

    /// Whether the batch holds as many requests as it may.
    pub fn is_full(&self) -> (r: bool)
        ensures
            r == (self.requests() >= MAX_BATCH_SIZE),
    {
        self.requests >= MAX_BATCH_SIZE
    }

    /// Takes the batch: its records, in order, for the caller to write to
    /// the log, and its file metas. The versions stay as they were; the
    /// batch is then empty.
    pub fn take_batch(&mut self) -> (r: (Vec<VersionEdit>, Vec<FileMeta>))
        requires
            old(self).wf(),
        ensures
            final(self).wf(),
            edits_view(r.0@) == old(self).pending(),
            metas_view(r.1@) == old(self).pending_metas(),
            final(self).versions() == old(self).versions(),
            final(self).pending() == Seq::<EditView>::empty(),
            final(self).pending_metas() == Seq::<(u64, Seq<u8>)>::empty(),
            final(self).requests() == 0,
    {
        let mut taken: Vec<VersionEdit> = Vec::new();
        std::mem::swap(&mut taken, &mut self.edits);
        let mut metas: Vec<FileMeta> = Vec::new();
        std::mem::swap(&mut metas, &mut self.file_metas);
        self.requests = 0;
        proof {
            assert(edits_view(self.edits@) =~= Seq::<EditView>::empty());
            assert(metas_view(self.file_metas@) =~= Seq::<(u64, Seq<u8>)>::empty());
        }
        (taken, metas)
    }

    /// Publishes the versions that a taken batch makes, once its records
    /// are written and synced; where the write failed, no version changes.
    pub fn apply(&mut self, edits: &Vec<VersionEdit>, written: bool)
        requires
            old(self).wf(),
        ensures
            final(self).wf(),
            written ==> final(self).versions().view_map() == replay_from(old(self).versions().view_map(), edits_view(edits@)),
            !written ==> final(self).versions() == old(self).versions(),
            final(self).pending() == old(self).pending(),
            final(self).pending_metas() == old(self).pending_metas(),
            final(self).requests() == old(self).requests(),
    {
        if written {
            self.versions.apply_version_edits(edits);
        }
    }

    pub fn summary(&self) -> (r: &VersionSet)
        ensures
            *r == self.versions(),
    {
        &self.versions
    }
}

/// The log is rolled into a snapshot once it reaches its largest size.
pub fn needs_roll(file_size: u64, max_summary_size: u64) -> (r: bool)
    ensures
        r == (file_size >= max_summary_size),
{
    file_size >= max_summary_size
}

} // verus!
