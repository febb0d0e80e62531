use tskv::block::{merge_blocks, DataBlock, FIELD_TYPE_INTEGER, FIELD_TYPE_UNSIGNED};
use tskv::bloom::BloomFilter;
use tskv::reader::{read_block, ReadTsmError, TsmReader};
use tskv::tsm::{EncodeError, TsmWriter, WriteTsmError};

fn i64_block(ts: Vec<i64>, val: Vec<i64>) -> DataBlock {
    DataBlock::new(FIELD_TYPE_INTEGER, ts, val.into_iter().map(|v| v as u64).collect())
}

fn write_file(seq: u64, data: &[(u64, Vec<DataBlock>)]) -> TsmWriter {
    let mut w = TsmWriter::open(format!("/tmp/test/tsm_writer/_{:06}.tsm", seq), seq, false, 0);
    for (fid, blocks) in data {
        for b in blocks {
            w.write_block(*fid, b).unwrap();
        }
    }
    w.write_index().unwrap();
    w.finish().unwrap();
    w
}

fn read_and_check(reader: &TsmReader, data: &[(u64, Vec<DataBlock>)]) {
    let entries = reader.index_entries();
    for (fid, blocks) in data {
        let i = entries.iter().position(|e| e.field_id == *fid).expect("field in index");
        let metas = reader.block_metas(i);
        assert_eq!(metas.len(), blocks.len());
        for (m, b) in metas.iter().zip(blocks.iter()) {
            let got = reader.get_data_block(m).unwrap();
            assert!(got.same_as(b));
        }
    }
}

#[test]
fn test_tsm_write_fast() {
    let data = vec![
        (1u64, vec![DataBlock::new(FIELD_TYPE_UNSIGNED, vec![2, 3, 4], vec![12, 13, 15])]),
        (2u64, vec![DataBlock::new(FIELD_TYPE_UNSIGNED, vec![2, 3, 4], vec![101, 102, 103])]),
    ];
    let w = write_file(0, &data);
    let reader = TsmReader::open(w.bytes().clone()).unwrap();
    read_and_check(&reader, &data);
}

#[test]
fn test_tsm_write_1() {
    let mut ts_1: Vec<i64> = Vec::new();
    let mut val_1: Vec<i64> = Vec::new();
    for i in 1..1001 {
        ts_1.push(i as i64);
        val_1.push(i as i64);
    }
    let mut ts_2: Vec<i64> = Vec::new();
    let mut val_2: Vec<i64> = Vec::new();
    for i in 1001..2001 {
        ts_2.push(i as i64);
        val_2.push(i as i64);
    }
    let data = vec![(1u64, vec![i64_block(ts_1, val_1), i64_block(ts_2, val_2)])];
    let w = write_file(1, &data);
    let reader = TsmReader::open(w.bytes().clone()).unwrap();
    read_and_check(&reader, &data);
}

#[test]
fn index_is_in_ascending_field_order_whatever_the_write_order() {
    let data = vec![
        (9u64, vec![i64_block(vec![1, 2], vec![1, 2])]),
        (3u64, vec![i64_block(vec![5], vec![7])]),
        (9u64, vec![i64_block(vec![3, 4], vec![3, 4])]),
    ];
    let w = write_file(2, &data);
    let reader = TsmReader::open(w.bytes().clone()).unwrap();
    let ids: Vec<u64> = reader.index_entries().iter().map(|e| e.field_id).collect();
    assert_eq!(ids, vec![3, 9]);
    let metas = reader.block_metas(1);
    assert_eq!(metas.len(), 2);
    assert_eq!(metas[0].min_ts, 1);
    assert_eq!(metas[1].min_ts, 3);
}

#[test]
fn header_and_block_layout() {
    let mut w = TsmWriter::open("f".to_string(), 7, false, 0);
    assert_eq!(w.bytes(), &vec![0x01, 0x34, 0x66, 0x13, 0x01]);
    let n = w.write_block(5, &i64_block(vec![1, 2], vec![10, 20])).unwrap();
    assert_eq!(n, 8 + 16 * 2);
    assert_eq!(w.size(), 5 + 40);
    let bytes = w.bytes();
    let ts_bytes = &bytes[9..25];
    assert_eq!(ts_bytes, &[0, 0, 0, 0, 0, 0, 0, 1, 0, 0, 0, 0, 0, 0, 0, 2]);
    let crc = u32::from_be_bytes([bytes[5], bytes[6], bytes[7], bytes[8]]);
    assert_eq!(crc, crc32fast::hash(ts_bytes));
    assert_ne!(crc, 0);
}

#[test]
fn writer_tracks_min_and_max_ts() {
    let mut w = TsmWriter::open("f".to_string(), 1, false, 0);
    assert_eq!(w.min_ts(), i64::MAX);
    assert_eq!(w.max_ts(), i64::MIN);
    w.write_block(1, &i64_block(vec![5, 9], vec![0, 0])).unwrap();
    w.write_block(2, &i64_block(vec![-3, 4], vec![0, 0])).unwrap();
    w.write_block(1, &i64_block(vec![10, 12], vec![0, 0])).unwrap();
    assert_eq!(w.min_ts(), -3);
    assert_eq!(w.max_ts(), 12);
}

#[test]
fn empty_block_writes_nothing() {
    let mut w = TsmWriter::open("f".to_string(), 1, false, 0);
    assert_eq!(w.write_block(1, &i64_block(vec![], vec![])).unwrap(), 0);
    assert_eq!(w.size(), 5);
}

#[test]
fn writes_after_finish_fail() {
    let mut w = TsmWriter::open("data/_000001.tsm".to_string(), 1, false, 0);
    w.finish().unwrap();
    assert!(w.finished());
    match w.write_block(1, &i64_block(vec![1], vec![1])) {
        Err(WriteTsmError::Finished { path }) => assert_eq!(path, "data/_000001.tsm"),
        other => panic!("unexpected {:?}", other),
    }
    assert!(matches!(w.write_index(), Err(WriteTsmError::Finished { .. })));
    assert!(matches!(w.finish(), Err(WriteTsmError::Finished { .. })));
}

#[test]
fn max_file_size_names_the_block_not_written() {
    let mut w = TsmWriter::open("f".to_string(), 1, false, 5 + 24 + 24);
    w.write_block(1, &i64_block(vec![1], vec![1])).unwrap();
    w.write_block(1, &i64_block(vec![2], vec![1])).unwrap();
    match w.write_block(1, &i64_block(vec![3], vec![1])) {
        Err(WriteTsmError::MaxFileSizeExceed { detail }) => {
            assert_eq!(detail.max_file_size, 53);
            assert_eq!(detail.block_index, 2);
        }
        other => panic!("unexpected {:?}", other),
    }
    assert_eq!(w.size(), 53);
}

#[test]
fn short_raw_block_is_refused() {
    let mut src = TsmWriter::open("a".to_string(), 1, false, 0);
    src.write_block(4, &i64_block(vec![1, 2, 3], vec![7, 8, 9])).unwrap();
    src.write_index().unwrap();
    let reader = TsmReader::open(src.bytes().clone()).unwrap();
    let meta = reader.block_metas(0)[0];
    let raw: Vec<u8> = src.bytes()[meta.offset as usize..(meta.offset + meta.size) as usize].to_vec();
    let mut dst = TsmWriter::open("b".to_string(), 2, false, 0);
    assert!(matches!(dst.write_raw(&meta, &vec![1, 2, 3]), Err(WriteTsmError::Encode { reason: EncodeError::BadRawBlock })));
    assert_eq!(dst.write_raw(&meta, &raw).unwrap(), raw.len());
    dst.write_index().unwrap();
    let copy = TsmReader::open(dst.bytes().clone()).unwrap();
    let copied_meta = copy.block_metas(0)[0];
    assert_eq!(copied_meta.offset, 5);
    let blk = copy.get_data_block(&copied_meta).unwrap();
    assert!(blk.same_as(&i64_block(vec![1, 2, 3], vec![7, 8, 9])));
}

#[test]
fn flipping_a_byte_of_a_block_is_a_crc_mismatch() {
    let w = write_file(3, &[(1u64, vec![i64_block(vec![1, 2, 3], vec![4, 5, 6])])]);
    let reader = TsmReader::open(w.bytes().clone()).unwrap();
    let meta = reader.block_metas(0)[0];
    let start = meta.offset as usize;
    let end = (meta.offset + meta.size) as usize;
    for pos in start..end {
        if pos < start + 4 || (pos >= meta.val_offset as usize && pos < meta.val_offset as usize + 4) {
            continue;
        }
        let mut bytes = w.bytes().clone();
        bytes[pos] ^= 0x40;
        assert_eq!(read_block(&bytes, &meta).err(), Some(ReadTsmError::CrcMismatch));
    }
}

#[test]
fn broken_images_are_refused() {
    assert_eq!(TsmReader::open(vec![1, 2, 3]).err(), Some(ReadTsmError::UnexpectedEof));
    let w = write_file(4, &[(1u64, vec![i64_block(vec![1], vec![1])])]);
    let mut bad_magic = w.bytes().clone();
    bad_magic[0] = 9;
    assert_eq!(TsmReader::open(bad_magic).err(), Some(ReadTsmError::Decode));
    let mut bad_offset = w.bytes().clone();
    let n = bad_offset.len();
    bad_offset[n - 1] = 0xff;
    bad_offset[n - 2] = 0xff;
    assert!(TsmReader::open(bad_offset).is_err());
}

#[test]
fn bloom_filter_holds_every_field_written() {
    let w = write_file(5, &[(1u64, vec![i64_block(vec![1], vec![1])]), (700u64, vec![i64_block(vec![1], vec![1])])]);
    let reader = TsmReader::open(w.bytes().clone()).unwrap();
    let bloom = reader.bloom_filter();
    assert!(bloom.contains(1));
    assert!(bloom.contains(700));
    assert!(!BloomFilter::new().contains(1));
}

#[test]
fn merge_prefers_the_later_block() {
    let a = i64_block(vec![1, 2, 3, 4], vec![1, 2, 3, 5]);
    let b = i64_block(vec![4, 5, 6], vec![4, 5, 6]);
    let m = merge_blocks(&vec![a, b]);
    assert_eq!(m.ts, vec![1, 2, 3, 4, 5, 6]);
    assert_eq!(m.val, vec![1, 2, 3, 4, 5, 6]);
}

#[test]
fn path_names_the_tmp_file_until_finished() {
    let mut w = TsmWriter::open("data/_000003.tsm".to_string(), 3, false, 0);
    assert_eq!(w.path(), "data/_000003.tsm.tmp");
    w.finish().unwrap();
    assert_eq!(w.path(), "data/_000003.tsm");
    assert_eq!(w.final_path(), "data/_000003.tsm");
}

#[test]
fn failed_write_keeps_the_bloom_filter() {
    let mut w = TsmWriter::open("f".to_string(), 1, false, 5 + 24);
    w.write_block(1, &i64_block(vec![1], vec![1])).unwrap();
    let before = w.bloom_filter_cloned();
    assert!(w.write_block(42, &i64_block(vec![2], vec![2])).is_err());
    assert_eq!(w.bloom_filter_cloned().bytes(), before.bytes());
    assert!(before.contains(1));
}
