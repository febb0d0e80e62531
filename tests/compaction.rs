use tskv::block::{DataBlock, FIELD_TYPE_INTEGER};
use tskv::compact::{overlaps_tuples, run_compaction_job, CompactFile, CompactIterator, CompactReq, CompactingBlock, GlobalContext};
use tskv::reader::TsmReader;
use tskv::summary::CompactMeta;
use tskv::tsm::TsmWriter;

fn blk(ts: Vec<i64>, val: Vec<i64>) -> DataBlock {
    DataBlock::new(FIELD_TYPE_INTEGER, ts, val.into_iter().map(|v| v as u64).collect())
}

/// Writes one file per map, with file ids 1, 2, ...; gives the next file id,
/// the readers and the summaries.
fn as_files(readers: Vec<TsmReader>, metas: Vec<CompactMeta>) -> Vec<CompactFile> {
    readers.into_iter().zip(metas).map(|(reader, meta)| CompactFile { meta, reader }).collect()
}

fn write_data_blocks_to_column_file(data: Vec<Vec<(u64, DataBlock)>>) -> (u64, Vec<TsmReader>, Vec<CompactMeta>) {
    let mut readers = Vec::new();
    let mut metas = Vec::new();
    let mut file_seq = 0;
    for (i, d) in data.iter().enumerate() {
        file_seq = i as u64 + 1;
        let mut writer = TsmWriter::open(format!("_{:06}.tsm", file_seq), file_seq, false, 0);
        for (fid, b) in d.iter() {
            writer.write_block(*fid, b).unwrap();
        }
        writer.write_index().unwrap();
        writer.finish().unwrap();
        let mut m = CompactMeta::new();
        m.file_id = file_seq;
        m.level = 1;
        m.file_size = writer.size();
        m.min_ts = writer.min_ts();
        m.max_ts = writer.max_ts();
        metas.push(m);
        readers.push(TsmReader::open(writer.bytes().clone()).unwrap());
    }
    (file_seq + 1, readers, metas)
}

fn read_data_block_from_column_file(reader: &TsmReader) -> Vec<(u64, DataBlock)> {
    let mut data = Vec::new();
    for (i, e) in reader.index_entries().iter().enumerate() {
        for m in reader.block_metas(i) {
            data.push((e.field_id, reader.get_data_block(&m).unwrap()));
        }
    }
    data
}

fn check_column_file(reader: &TsmReader, expected: Vec<(u64, DataBlock)>) {
    let data = read_data_block_from_column_file(reader);
    for (k, v) in expected.iter() {
        let got = data.iter().find(|(f, _)| f == k).map(|(_, b)| b).unwrap();
        assert!(v.same_as(got), "field {}", k);
    }
}

fn compact(data: Vec<Vec<(u64, DataBlock)>>) -> (u64, TsmReader) {
    let (next_file_id, readers, metas) = write_data_blocks_to_column_file(data);
    let mut kernel = GlobalContext::new();
    kernel.set_file_id(next_file_id);
    let req = CompactReq { files: as_files(readers, metas), tsf_id: 1, out_level: 2, max_level_ts: 1000, max_file_size: 0 };
    let out = run_compaction_job(req, &mut kernel).unwrap();
    assert_eq!(out.files.len(), 1);
    assert_eq!(out.edits.len(), 1);
    let f = &out.files[0];
    let reader = TsmReader::open(f.bytes().clone()).unwrap();
    (f.sequence(), reader)
}

fn one_to_nine() -> Vec<(u64, DataBlock)> {
    (1..4).map(|f| (f, blk((1..10).collect(), (1..10).collect()))).collect()
}

#[test]
fn test_compaction_fast() {
    let (seq, reader) = compact(vec![
        vec![(1, blk(vec![1, 2, 3], vec![1, 2, 3])), (2, blk(vec![1, 2, 3], vec![1, 2, 3])), (3, blk(vec![1, 2, 3], vec![1, 2, 3]))],
        vec![(1, blk(vec![4, 5, 6], vec![4, 5, 6])), (2, blk(vec![4, 5, 6], vec![4, 5, 6])), (3, blk(vec![4, 5, 6], vec![4, 5, 6]))],
        vec![(1, blk(vec![7, 8, 9], vec![7, 8, 9])), (2, blk(vec![7, 8, 9], vec![7, 8, 9])), (3, blk(vec![7, 8, 9], vec![7, 8, 9]))],
    ]);
    assert_eq!(seq, 4);
    check_column_file(&reader, one_to_nine());
}

#[test]
fn test_compaction_1() {
    let (seq, reader) = compact(vec![
        vec![(1, blk(vec![4, 5, 6], vec![4, 5, 6])), (2, blk(vec![4, 5, 6], vec![4, 5, 6])), (3, blk(vec![4, 5, 6], vec![4, 5, 6]))],
        vec![(1, blk(vec![1, 2, 3], vec![1, 2, 3])), (2, blk(vec![1, 2, 3], vec![1, 2, 3])), (3, blk(vec![1, 2, 3], vec![1, 2, 3]))],
        vec![(1, blk(vec![7, 8, 9], vec![7, 8, 9])), (2, blk(vec![7, 8, 9], vec![7, 8, 9])), (3, blk(vec![7, 8, 9], vec![7, 8, 9]))],
    ]);
    assert_eq!(seq, 4);
    check_column_file(&reader, one_to_nine());
}

#[test]
fn test_compaction_2() {
    let (seq, reader) = compact(vec![
        vec![(1, blk(vec![1, 2, 3, 4], vec![1, 2, 3, 5])), (2, blk(vec![1, 2, 3, 4], vec![1, 2, 3, 5])), (3, blk(vec![1, 2, 3], vec![1, 2, 3]))],
        vec![(1, blk(vec![4, 5, 6], vec![4, 5, 6])), (2, blk(vec![4, 5, 6], vec![4, 5, 6])), (3, blk(vec![4, 5, 6, 7], vec![4, 5, 6, 8]))],
        vec![(1, blk(vec![7, 8, 9], vec![7, 8, 9])), (2, blk(vec![7, 8, 9], vec![7, 8, 9])), (3, blk(vec![7, 8, 9], vec![7, 8, 9]))],
    ]);
    assert_eq!(seq, 4);
    check_column_file(&reader, one_to_nine());
}

#[test]
fn field_owned_by_one_reader_is_kept() {
    let (_, reader) = compact(vec![
        vec![(1, blk(vec![1], vec![1])), (5, blk(vec![2], vec![2]))],
        vec![(2, blk(vec![3], vec![3])), (5, blk(vec![4], vec![4]))],
    ]);
    let data = read_data_block_from_column_file(&reader);
    let ids: Vec<u64> = data.iter().map(|(f, _)| *f).collect();
    assert_eq!(ids, vec![1, 2, 5]);
    assert_eq!(data[2].1.ts, vec![2, 4]);
}

#[test]
fn iterator_yields_ascending_field_ids_then_none() {
    let (_, readers, _) = write_data_blocks_to_column_file(vec![
        vec![(3, blk(vec![1], vec![1]))],
        vec![(1, blk(vec![1], vec![1])), (3, blk(vec![2], vec![2]))],
    ]);
    let mut it = CompactIterator::new(readers);
    let mut seen = Vec::new();
    while let Some(r) = it.next() {
        match r.unwrap() {
            CompactingBlock::DataBlock { field_id, .. } => seen.push(field_id),
            CompactingBlock::Raw { .. } => panic!("no raw blocks"),
        }
    }
    assert_eq!(seen, vec![1, 3]);
}

#[test]
fn rolls_to_a_new_file_at_the_size_bound() {
    let (next, readers, metas) = write_data_blocks_to_column_file(vec![
        vec![(1, blk(vec![1, 2], vec![1, 2])), (2, blk(vec![1, 2], vec![1, 2]))],
    ]);
    let mut ctx = GlobalContext::new();
    ctx.set_file_id(next);
    let req = CompactReq { files: as_files(readers, metas), tsf_id: 7, out_level: 2, max_level_ts: 5, max_file_size: 5 + 40 };
    let out = run_compaction_job(req, &mut ctx).unwrap();
    assert_eq!(out.files.len(), 2);
    assert_eq!(out.files[0].sequence(), 2);
    assert_eq!(out.files[1].sequence(), 3);
    assert_eq!(out.edits[0].add_files[0].file_id, 2);
    assert_eq!(out.edits[0].add_files[0].level, 2);
    assert!(out.edits[0].del_files.is_empty());
    assert_eq!(out.edits[1].del_files.len(), 1);
    assert_eq!(out.edits[1].del_files[0].file_id, 1);
    assert_eq!(ctx.file_id, 4);
}

#[test]
fn no_readers_no_edits() {
    let mut ctx = GlobalContext::new();
    let req = CompactReq { files: vec![], tsf_id: 1, out_level: 2, max_level_ts: 0, max_file_size: 0 };
    let out = run_compaction_job(req, &mut ctx).unwrap();
    assert!(out.edits.is_empty());
    assert!(out.files.is_empty());
    assert_eq!(ctx.file_id, 0);
}

#[test]
fn delta_inputs_are_not_compacted() {
    let (next, readers, mut metas) = write_data_blocks_to_column_file(vec![
        vec![(1, blk(vec![1], vec![1]))],
        vec![(1, blk(vec![2], vec![2]))],
    ]);
    metas[1].is_delta = true;
    let mut ctx = GlobalContext::new();
    ctx.set_file_id(next);
    let req = CompactReq { files: as_files(readers, metas), tsf_id: 1, out_level: 2, max_level_ts: 9, max_file_size: 0 };
    let out = run_compaction_job(req, &mut ctx).unwrap();
    assert_eq!(out.edits.len(), 1);
    assert_eq!(out.edits[0].max_level_ts, 9);
    assert_eq!(out.edits[0].del_files.len(), 1);
    assert_eq!(out.edits[0].del_files[0].file_id, 1);
    assert_eq!(out.edits[0].del_files[0].level, 1);
    let reader = TsmReader::open(out.files[0].bytes().clone()).unwrap();
    let data = read_data_block_from_column_file(&reader);
    assert_eq!(data.len(), 1);
    assert_eq!(data[0].1.ts, vec![1]);
}

#[test]
fn only_delta_inputs_take_no_file_id() {
    let (_, readers, mut metas) = write_data_blocks_to_column_file(vec![vec![(1, blk(vec![1], vec![1]))]]);
    metas[0].is_delta = true;
    let mut ctx = GlobalContext::new();
    ctx.set_file_id(7);
    let req = CompactReq { files: as_files(readers, metas), tsf_id: 1, out_level: 2, max_level_ts: 0, max_file_size: 0 };
    let out = run_compaction_job(req, &mut ctx).unwrap();
    assert!(out.edits.is_empty());
    assert_eq!(ctx.file_id, 7);
}

#[test]
fn file_ids_run_out() {
    let mut ctx = GlobalContext::new();
    ctx.set_file_id(u64::MAX);
    assert_eq!(ctx.file_id_next(), None);
    ctx.set_file_id(9);
    assert_eq!(ctx.file_id_next(), Some(9));
    assert_eq!(ctx.file_id, 10);
}

#[test]
fn overlap_predicate() {
    assert!(overlaps_tuples((1, 4), (4, 6)));
    assert!(overlaps_tuples((4, 6), (1, 4)));
    assert!(!overlaps_tuples((1, 3), (4, 6)));
    assert!(overlaps_tuples((1, 10), (3, 4)));
}
