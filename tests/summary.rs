use tskv::edit_codec::CodecError;
use tskv::summary::{CompactMeta, CompactMetaBuilder, VersionEdit};
use tskv::bloom::BloomFilter;
use tskv::version::{FileMeta, needs_roll, recover, SummaryProcessor, VersionSet, MAX_BATCH_SIZE};
use tskv::vnode_mgr::{copy_step, CopyAction, CopyEvent, CopyState, check_chunk, check_md5, decode_summary_response, make_owner, relative_file_name, CoordinatorError, VnodeAllInfo, VnodeManager};

#[test]
fn test_version_edit() {
    let mut ve = VersionEdit::new(0);
    let mut add_file_100 = CompactMeta::new();
    add_file_100.file_id = 100;
    ve.add_file(add_file_100, 100_000_000);
    let mut del_file_101 = CompactMeta::new();
    del_file_101.file_id = 101;
    ve.del_files.push(del_file_101);

    let ve_buf = ve.encode().unwrap();
    let ve2 = VersionEdit::decode(&ve_buf).unwrap();
    assert!(ve2.same_as(&ve));

    let ves = vec![ve, ve2];
    let ves_buf = VersionEdit::encode_vec(&ves).unwrap();
    let ves_2 = VersionEdit::decode_vec(&ves_buf).unwrap();
    assert_eq!(ves.len(), ves_2.len());
    for (a, b) in ves.iter().zip(ves_2.iter()) {
        assert!(a.same_as(b));
    }
}

#[test]
fn record_bytes_round_trip_with_a_name() {
    let e = VersionEdit::new_add_vnode(100, make_owner("cnosdb", "hello"));
    assert_eq!(e.tsf_name, "cnosdb.hello");
    let b = e.encode().unwrap();
    assert_eq!(b.len(), 34 + 8 + 14 + 12);
    let d = VersionEdit::decode(&b).unwrap();
    assert!(d.same_as(&e));
    assert!(d.add_tsf);
}

#[test]
fn bad_record_bytes_are_refused() {
    let e = VersionEdit::new_del_vnode(3);
    let b = e.encode().unwrap();
    assert_eq!(VersionEdit::decode(&b[..b.len() - 1]).err(), Some(CodecError::Truncated));
    let mut flag = b.clone();
    flag[0] = 7;
    assert_eq!(VersionEdit::decode(&flag).err(), Some(CodecError::BadFlag));
    let mut longer = b.clone();
    longer.push(0);
    assert_eq!(VersionEdit::decode(&longer).err(), Some(CodecError::TrailingBytes));
    let named = VersionEdit::new_add_vnode(1, "ab".to_string()).encode().unwrap();
    let mut bad_name = named.clone();
    let n = bad_name.len();
    bad_name[n - 1] = 0xff;
    assert_eq!(VersionEdit::decode(&bad_name).err(), Some(CodecError::BadName));
}

#[test]
fn decode_vec_stops_at_a_partial_frame() {
    let ves = vec![VersionEdit::new_add_vnode(1, "t.d".to_string()), VersionEdit::new_del_vnode(1)];
    let mut buf = VersionEdit::encode_vec(&ves).unwrap();
    buf.extend_from_slice(&[0, 0, 0]);
    let back = VersionEdit::decode_vec(&buf).unwrap();
    assert_eq!(back.len(), 2);
}

#[test]
fn add_file_tracks_ids_and_sequence() {
    let b = CompactMetaBuilder::new(9);
    let mut e = VersionEdit::new(9);
    e.add_file(b.build_tsm(5, 100, 1, 0, 10), 77);
    let mut flushed = b.build_delta(3, 10, 0, 1, 2);
    flushed.high_seq = 42;
    e.add_file(flushed, 78);
    assert!(e.has_file_id);
    assert_eq!(e.file_id, 5);
    assert!(e.has_seq_no);
    assert_eq!(e.seq_no, 42);
    assert_eq!(e.max_level_ts, 78);
    assert!(e.add_files[1].is_delta);
    e.del_file(1, 5, false);
    assert_eq!(e.del_files[0].file_id, 5);
    assert_eq!(e.del_files[0].min_ts, i64::MAX);
}

fn file_edit(tsf_id: u32, adds: &[u64], dels: &[u64], seq: u64) -> VersionEdit {
    let mut e = VersionEdit::new(tsf_id);
    for id in adds {
        let mut m = CompactMeta::new();
        m.file_id = *id;
        m.tsf_id = tsf_id;
        m.level = 1;
        e.add_file(m, 0);
    }
    for id in dels {
        e.del_file(1, *id, false);
    }
    e.has_seq_no = true;
    e.seq_no = seq;
    e
}

#[test]
fn test_summary() {
    // A vnode added, then deleted.
    let log = vec![VersionEdit::new_add_vnode(100, "cnosdb.hello".to_string())];
    assert_eq!(recover(&log).versions.tsf_num(), 1);
    let mut log = log;
    log.push(VersionEdit::new_del_vnode(100));
    assert_eq!(recover(&log).versions.tsf_num(), 0);

    // Forty vnodes added, the first twenty deleted a hundred times over.
    let mut edits = Vec::new();
    for i in 0..40u32 {
        edits.push(VersionEdit::new_add_vnode(i, make_owner("cnosdb", "test")));
    }
    for _ in 0..100 {
        for i in 0..20u32 {
            edits.push(VersionEdit::new_del_vnode(i));
        }
    }
    let rec = recover(&edits);
    assert_eq!(rec.versions.tsf_num(), 20);
    let mut ids: Vec<u32> = rec.versions.versions_list().iter().map(|v| v.tsf_id).collect();
    ids.sort();
    assert_eq!(ids, (20..40).collect::<Vec<u32>>());
}

#[test]
fn recovery_replays_file_edits_in_order() {
    let log = vec![
        VersionEdit::new_add_vnode(7, "t.db".to_string()),
        file_edit(7, &[1, 2, 3], &[], 5),
        file_edit(7, &[4], &[1, 2], 9),
        file_edit(8, &[50], &[], 100),
    ];
    let rec = recover(&log);
    let vs = rec.versions.versions_list();
    assert_eq!(vs.len(), 1);
    let mut ids: Vec<u64> = vs[0].files.iter().map(|f| f.file_id).collect();
    ids.sort();
    assert_eq!(ids, vec![3, 4]);
    assert_eq!(vs[0].last_seq, 9);
    // Vnode 8 never lived: its record counts for nothing.
    assert_eq!(rec.last_seq, 10);
    assert_eq!(rec.next_file_id, 5);
    assert_eq!(vs[0].level_files(1).len(), 2);
    assert_eq!(vs[0].level_files(0).len(), 0);
}

#[test]
fn snapshot_recovers_to_the_same_versions() {
    let log = vec![
        VersionEdit::new_add_vnode(1, "a.b".to_string()),
        VersionEdit::new_add_vnode(2, "a.c".to_string()),
        file_edit(1, &[10, 11], &[], 3),
        file_edit(2, &[20], &[], 4),
        file_edit(1, &[12], &[10], 6),
        VersionEdit::new_del_vnode(2),
    ];
    let first = recover(&log);
    let snap = first.versions.snapshot();
    let bytes = VersionEdit::encode_vec(&snap).unwrap();
    let again = recover(&VersionEdit::decode_vec(&bytes).unwrap());
    let a = first.versions.versions_list();
    let b = again.versions.versions_list();
    assert_eq!(a.len(), b.len());
    assert_eq!(a[0].tsf_id, b[0].tsf_id);
    assert_eq!(a[0].owner, b[0].owner);
    assert_eq!(a[0].last_seq, b[0].last_seq);
    assert_eq!(a[0].max_level_ts, b[0].max_level_ts);
    let mut fa: Vec<u64> = a[0].files.iter().map(|f| f.file_id).collect();
    let mut fb: Vec<u64> = b[0].files.iter().map(|f| f.file_id).collect();
    fa.sort();
    fb.sort();
    assert_eq!(fa, fb);
    assert_eq!(fa, vec![11, 12]);
}

#[test]
fn md5_mismatch_is_a_common_error() {
    match check_md5(&"aaa".to_string(), &"bbb".to_string()) {
        Err(CoordinatorError::CommonError { msg }) => assert_eq!(msg, "download file md5 not match "),
        other => panic!("unexpected {:?}", other),
    }
    assert!(check_md5(&"x".to_string(), &"x".to_string()).is_ok());
}

#[test]
fn chunks_and_summaries_with_a_failed_status_are_refused() {
    assert!(check_chunk(0, &vec![1]).is_ok());
    assert!(matches!(check_chunk(3, &b"boom".to_vec()), Err(CoordinatorError::GRPCRequest { .. })));
    assert!(matches!(decode_summary_response(1, &vec![]), Err(CoordinatorError::GRPCRequest { .. })));
    assert!(matches!(decode_summary_response(0, &vec![1, 2]), Err(CoordinatorError::Decode { .. })));
    let e = VersionEdit::new_add_vnode(4, "t.d".to_string());
    let got = decode_summary_response(0, &e.encode().unwrap()).unwrap();
    assert!(got.same_as(&e));
}

#[test]
fn relative_names_and_replicas() {
    assert_eq!(relative_file_name("/data/v1", "/data/v1/tsm/_000001.tsm"), Some("tsm/_000001.tsm".to_string()));
    assert_eq!(relative_file_name("/data/v1", "/other/x"), None);
    let m = VnodeManager::new(3);
    assert_eq!(m.get_node_id(), 3);
    let add = m.added_replica(12);
    assert_eq!((add[0].id, add[0].node_id), (12, 3));
    let info = VnodeAllInfo { tenant: "t".to_string(), db_name: "d".to_string(), vnode_id: 5, node_id: 8, bucket_id: 1, repl_set_id: 2 };
    let del = m.dropped_replica(&info);
    assert_eq!((del[0].id, del[0].node_id), (5, 8));
    let rel = m.files_to_fetch("/p", &vec!["/p/a".to_string(), "/p/b/c".to_string()]).unwrap();
    assert_eq!(rel, vec!["a".to_string(), "b/c".to_string()]);
    assert!(m.files_to_fetch("/p", &vec!["/q/a".to_string()]).is_err());
}

#[test]
fn processor_applies_a_batch_in_order() {
    let mut p = SummaryProcessor::new(VersionSet::empty());
    p.batch(vec![VersionEdit::new_add_vnode(1, "t.a".to_string())], vec![]);
    let mut bloom = BloomFilter::new();
    bloom.insert(9);
    p.batch(vec![file_edit(1, &[5, 6], &[], 2), file_edit(1, &[], &[5], 3)], vec![FileMeta { file_id: 6, bloom }]);
    assert!(!p.is_full());
    let (written, metas) = p.take_batch();
    assert_eq!(metas.len(), 1);
    assert_eq!(metas[0].file_id, 6);
    assert!(metas[0].bloom.contains(9));
    assert_eq!(written.len(), 3);
    assert!(written[0].add_tsf);
    assert_eq!(p.summary().versions_list().len(), 0);
    p.apply(&written, false);
    assert_eq!(p.summary().versions_list().len(), 0);
    p.apply(&written, true);
    let vs = p.summary().versions_list();
    assert_eq!(vs.len(), 1);
    let ids: Vec<u64> = vs[0].files.iter().map(|f| f.file_id).collect();
    assert_eq!(ids, vec![6]);
    assert!(p.take_batch().0.is_empty());
    for _ in 0..MAX_BATCH_SIZE {
        p.batch(vec![], vec![]);
    }
    assert!(p.is_full());
    assert!(needs_roll(10, 10));
    assert!(!needs_roll(9, 10));
}

#[test]
fn copy_walks_through_files_then_registers_then_applies() {
    let (s, a) = copy_step(CopyState::Start, CopyEvent::Listed { count: 2 });
    assert_eq!(a, CopyAction::FetchFile { index: 0 });
    let (s, a) = copy_step(s, CopyEvent::FileFetched { md5_ok: true });
    assert_eq!(a, CopyAction::FetchFile { index: 1 });
    let (s, a) = copy_step(s, CopyEvent::FileFetched { md5_ok: true });
    assert_eq!((s, a), (CopyState::Registering, CopyAction::AddReplica));
    let (s, a) = copy_step(s, CopyEvent::ReplicaAdded);
    assert_eq!(a, CopyAction::FetchAndApplySummary);
    let (s, a) = copy_step(s, CopyEvent::SummaryApplied);
    assert_eq!((s, a), (CopyState::Done, CopyAction::Finish));
}

#[test]
fn md5_mismatch_while_copying_removes_the_directory() {
    let (s, _) = copy_step(CopyState::Start, CopyEvent::Listed { count: 1 });
    let (s, a) = copy_step(s, CopyEvent::FileFetched { md5_ok: false });
    assert_eq!((s, a), (CopyState::Failed, CopyAction::RemoveDirAndFail));
    let (_, a) = copy_step(CopyState::Applying, CopyEvent::CallFailed);
    assert_eq!(a, CopyAction::Fail);
}

#[test]
fn decode_vec_of_nothing_is_empty() {
    assert_eq!(VersionEdit::decode_vec(&[]).unwrap().len(), 0);
    let one = VersionEdit::encode_vec(&vec![VersionEdit::new_del_vnode(5)]).unwrap();
    let mut buf = one.clone();
    buf.extend_from_slice(&[0, 0, 0, 200, 1, 2]);
    let back = VersionEdit::decode_vec(&buf).unwrap();
    assert_eq!(back.len(), 1);
    assert!(back[0].del_tsf);
}

#[test]
fn files_to_fetch_refuses_a_name_outside_the_directory() {
    let m = VnodeManager::new(1);
    assert!(m.files_to_fetch("/p", &vec!["/p/a".to_string(), "/pa/b".to_string()]).is_err());
    assert_eq!(make_owner("t", "d"), "t.d");
}

#[test]
fn frames_carry_version_and_type() {
    let buf = VersionEdit::encode_log(&vec![VersionEdit::new_del_vnode(5)]).unwrap();
    assert_eq!(&buf[0..2], &[1, 1]);
    let n = u32::from_be_bytes([buf[2], buf[3], buf[4], buf[5]]) as usize;
    assert_eq!(buf.len(), 6 + n);
    let mut bad = buf.clone();
    bad[1] = 9;
    assert_eq!(VersionEdit::decode_log(&bad).err(), Some(CodecError::BadTag));
    assert_eq!(VersionEdit::decode_log(&buf).unwrap().len(), 1);
    let plain = VersionEdit::encode_vec(&vec![VersionEdit::new_del_vnode(5)]).unwrap();
    assert_eq!(&plain[0..4], &((plain.len() - 4) as u32).to_be_bytes());
    let mut cut = plain.clone();
    cut.extend_from_slice(&[0xff, 0xff, 0, 0, 0, 0]);
    assert_eq!(VersionEdit::decode_vec(&cut).unwrap().len(), 1);
}

#[test]
fn versions_list_files_by_level() {
    let log = vec![VersionEdit::new_add_vnode(3, "a.b".to_string()), file_edit(3, &[1, 2], &[], 1)];
    let rec = recover(&log);
    let levels = rec.versions.versions_list()[0].levels_info();
    assert_eq!(levels.len(), 5);
    assert_eq!(levels[1].len(), 2);
    assert!(levels[0].is_empty());
}

#[test]
fn counters_come_from_surviving_vnodes_only() {
    let log = vec![VersionEdit::new_add_vnode(1, "a.b".to_string()), file_edit(1, &[7], &[], 5), VersionEdit::new_del_vnode(1)];
    let rec = recover(&log);
    assert_eq!(rec.last_seq, 0);
    assert_eq!(rec.next_file_id, 0);
}

#[test]
fn recover_after_roll_keeps_file_and_next_id() {
    let mut e = VersionEdit::new(10);
    let mut m = CompactMeta::new();
    m.file_id = 15;
    m.level = 1;
    m.tsf_id = 10;
    e.add_file(m, 1);
    let log = vec![VersionEdit::new_add_vnode(10, "cnosdb.test".to_string()), e];
    let first = recover(&log);
    let rolled = VersionEdit::encode_log(&first.versions.snapshot()).unwrap();
    let again = recover(&VersionEdit::decode_log(&rolled).unwrap());
    let vs = again.versions.versions_list();
    assert_eq!(vs.len(), 1);
    assert_eq!(vs[0].tsf_id, 10);
    let level1 = vs[0].levels_info()[1].clone();
    assert_eq!(level1.len(), 1);
    assert_eq!(level1[0].file_id, 15);
    assert_eq!(again.next_file_id, 16);
    assert_eq!(first.next_file_id, 16);
}
