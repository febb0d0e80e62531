//! Manifest records: the file summaries and the edits that the summary log
//! holds, from which each vnode's version is rebuilt.

use vstd::prelude::*;

verus! {

/// What the manifest records of one file.
#[derive(Clone, Copy, Debug, PartialEq, Eq, Structural)]
pub struct CompactMeta {
    pub file_id: u64,
    pub file_size: u64,
    pub tsf_id: u32,
    pub level: u32,
    pub min_ts: i64,
    pub max_ts: i64,
    pub high_seq: u64,
    pub low_seq: u64,
    pub is_delta: bool,
}

impl CompactMeta {
    /// An empty summary: no file, an empty time range.
    pub open spec fn spec_default() -> CompactMeta {
        CompactMeta {
            file_id: 0,
            file_size: 0,
            tsf_id: 0,
            level: 0,
            min_ts: i64::MAX,
            max_ts: i64::MIN,
            high_seq: 0,
            low_seq: 0,
            is_delta: false,
        }
    }

    pub fn new() -> (r: CompactMeta)
        ensures
            r == CompactMeta::spec_default(),
    {
        CompactMeta {
            file_id: 0,
            file_size: 0,
            tsf_id: 0,
            level: 0,
            min_ts: i64::MAX,
            max_ts: i64::MIN,
            high_seq: 0,
            low_seq: 0,
            is_delta: false,
        }
    }
}

impl Default for CompactMeta {
    fn default() -> (r: CompactMeta)
        ensures
            r == CompactMeta::spec_default(),
    {
        CompactMeta::new()
    }
}

/// Builds the summaries of the files of one vnode.
pub struct CompactMetaBuilder {
    pub ts_family_id: u32,
}

impl CompactMetaBuilder {
    pub fn new(ts_family_id: u32) -> (r: CompactMetaBuilder)
        ensures
            r.ts_family_id == ts_family_id,
    {
        CompactMetaBuilder { ts_family_id }
    }

    pub fn build_tsm(&self, file_id: u64, file_size: u64, level: u32, min_ts: i64, max_ts: i64) -> (r: CompactMeta)
        ensures
            r == (CompactMeta {
                file_id,
                file_size,
                tsf_id: self.ts_family_id,
                level,
                min_ts,
                max_ts,
                high_seq: 0,
                low_seq: 0,
                is_delta: false,
            }),
    {
        CompactMeta { file_id, file_size, tsf_id: self.ts_family_id, level, min_ts, max_ts, high_seq: 0, low_seq: 0, is_delta: false }
    }

    pub fn build_delta(&self, file_id: u64, file_size: u64, level: u32, min_ts: i64, max_ts: i64) -> (r: CompactMeta)
        ensures
            r == (CompactMeta {
                file_id,
                file_size,
                tsf_id: self.ts_family_id,
                level,
                min_ts,
                max_ts,
                high_seq: 0,
                low_seq: 0,
                is_delta: true,
            }),
    {
        CompactMeta { file_id, file_size, tsf_id: self.ts_family_id, level, min_ts, max_ts, high_seq: 0, low_seq: 0, is_delta: true }
    }
}

/// One manifest record: a vnode added or deleted, or files added to and
/// deleted from a vnode.
#[derive(Debug)]
pub struct VersionEdit {
    pub has_seq_no: bool,
    pub seq_no: u64,
    pub has_file_id: bool,
    pub file_id: u64,
    pub max_level_ts: i64,
    pub add_files: Vec<CompactMeta>,
    pub del_files: Vec<CompactMeta>,
    pub del_tsf: bool,
    pub add_tsf: bool,
    pub tsf_id: u32,
    pub tsf_name: String,
}

/// A manifest record as a value.
pub struct EditView {
    pub has_seq_no: bool,
    pub seq_no: u64,
    pub has_file_id: bool,
    pub file_id: u64,
    pub max_level_ts: i64,
    pub add_files: Seq<CompactMeta>,
    pub del_files: Seq<CompactMeta>,
    pub del_tsf: bool,
    pub add_tsf: bool,
    pub tsf_id: u32,
    pub tsf_name: Seq<char>,
}

impl View for VersionEdit {
    type V = EditView;

    open spec fn view(&self) -> EditView {
        EditView {
            has_seq_no: self.has_seq_no,
            seq_no: self.seq_no,
            has_file_id: self.has_file_id,
            file_id: self.file_id,
            max_level_ts: self.max_level_ts,
            add_files: self.add_files@,
            del_files: self.del_files@,
            del_tsf: self.del_tsf,
            add_tsf: self.add_tsf,
            tsf_id: self.tsf_id,
            tsf_name: self.tsf_name@,
        }
    }
}

/// The record that changes nothing, for vnode `tsf_id`.
pub open spec fn empty_edit(tsf_id: u32) -> EditView {
    EditView {
        has_seq_no: false,
        seq_no: 0,
        has_file_id: false,
        file_id: 0,
        max_level_ts: i64::MIN,
        add_files: Seq::empty(),
        del_files: Seq::empty(),
        del_tsf: false,
        add_tsf: false,
        tsf_id,
        tsf_name: Seq::empty(),
    }
}

pub open spec fn edits_view(v: Seq<VersionEdit>) -> Seq<EditView> {
    v.map_values(|e: VersionEdit| e@)
}

impl VersionEdit {
    pub fn new(vnode_id: u32) -> (r: VersionEdit)
        ensures
            r@ == empty_edit(vnode_id),
    {
        VersionEdit {
            has_seq_no: false,
            seq_no: 0,
            has_file_id: false,
            file_id: 0,
            max_level_ts: i64::MIN,
            add_files: Vec::new(),
            del_files: Vec::new(),
            del_tsf: false,
            add_tsf: false,
            tsf_id: vnode_id,
            tsf_name: String::new(),
        }
    }

    /// The record that creates vnode `vnode_id` owned by `owner`.
    pub fn new_add_vnode(vnode_id: u32, owner: String) -> (r: VersionEdit)
        ensures
            r@ == (EditView { add_tsf: true, tsf_name: owner@, ..empty_edit(vnode_id) }),
    {
        let mut e = VersionEdit::new(vnode_id);
        e.add_tsf = true;
        e.tsf_name = owner;
        e
    }

    /// The record that deletes vnode `vnode_id`.
    pub fn new_del_vnode(vnode_id: u32) -> (r: VersionEdit)
        ensures
            r@ == (EditView { del_tsf: true, ..empty_edit(vnode_id) }),
    {
        let mut e = VersionEdit::new(vnode_id);
        e.del_tsf = true;
        e
    }

    /// Records a file added: a flushed file (non-zero `high_seq`) sets the
    /// sequence number; the file id becomes the largest added so far.
    pub fn add_file(&mut self, compact_meta: CompactMeta, max_level_ts: i64)
        ensures
            final(self)@ == (EditView {
                has_seq_no: if compact_meta.high_seq != 0 { true } else { old(self).has_seq_no },
                seq_no: if compact_meta.high_seq != 0 { compact_meta.high_seq } else { old(self).seq_no },
                has_file_id: true,
                file_id: if old(self).file_id >= compact_meta.file_id { old(self).file_id } else { compact_meta.file_id },
                max_level_ts,
                tsf_id: compact_meta.tsf_id,
                add_files: old(self).add_files@.push(compact_meta),
                ..old(self)@
            }),
    {
        if compact_meta.high_seq != 0 {
            self.has_seq_no = true;
            self.seq_no = compact_meta.high_seq;
        }
        self.has_file_id = true;
        if compact_meta.file_id > self.file_id {
            self.file_id = compact_meta.file_id;
        }
        self.max_level_ts = max_level_ts;
        self.tsf_id = compact_meta.tsf_id;
        self.add_files.push(compact_meta);
    }

    /// Records a file deleted.
    pub fn del_file(&mut self, level: u32, file_id: u64, is_delta: bool)
        ensures
            final(self)@ == (EditView {
                del_files: old(self).del_files@.push(CompactMeta { file_id, level, is_delta, ..CompactMeta::spec_default() }),
                ..old(self)@
            }),
    {
        let mut m = CompactMeta::new();
        m.file_id = file_id;
        m.level = level;
        m.is_delta = is_delta;
        self.del_files.push(m);
    }

    /// A copy with the same fields.
    pub fn copy(&self) -> (r: VersionEdit)
        ensures
            r@ == self@,
    {
        let add_files = self.add_files.clone();
        let del_files = self.del_files.clone();
        proof {
            assert(add_files@ =~= self.add_files@);
            assert(del_files@ =~= self.del_files@);
        }
        VersionEdit {
            has_seq_no: self.has_seq_no,
            seq_no: self.seq_no,
            has_file_id: self.has_file_id,
            file_id: self.file_id,
            max_level_ts: self.max_level_ts,
            add_files,
            del_files,
            del_tsf: self.del_tsf,
            add_tsf: self.add_tsf,
            tsf_id: self.tsf_id,
            tsf_name: self.tsf_name.clone(),
        }
    }

    /// Whether two records hold the same fields.
    pub fn same_as(&self, other: &VersionEdit) -> (r: bool)
        ensures
            r == (self@ == other@),
    {
        let r = self.has_seq_no == other.has_seq_no && self.seq_no == other.seq_no
            && self.has_file_id == other.has_file_id && self.file_id == other.file_id
            && self.max_level_ts == other.max_level_ts && self.del_tsf == other.del_tsf
            && self.add_tsf == other.add_tsf && self.tsf_id == other.tsf_id
            && same_metas(&self.add_files, &other.add_files) && same_metas(&self.del_files, &other.del_files)
            && self.tsf_name == other.tsf_name;
        r
    }
}

impl Default for VersionEdit {
    fn default() -> (r: VersionEdit)
        ensures
            r@ == empty_edit(0),
    {
        VersionEdit::new(0)
    }
}

fn same_metas(a: &Vec<CompactMeta>, b: &Vec<CompactMeta>) -> (r: bool)
    ensures
        r == (a@ == b@),
{
    if a.len() != b.len() {
        return false;
    }
    let mut i: usize = 0;
    while i < a.len()
        invariant
            i <= a@.len(),
            a@.len() == b@.len(),
            forall|k: int| 0 <= k < i ==> a@[k] == b@[k],
        decreases a@.len() - i,
    {
        if a[i] != b[i] {
            return false;
        }
        i += 1;
    }
    assert(a@ =~= b@);
    true
}

} // verus!
