//! Key encoding, file naming, and the whole-blob slot backend.

use automerge_persistent::keys;
use automerge_persistent::fscache::UnstageOutcome;
use automerge_persistent::StoredSizes;
use automerge_persistent::fscache;
use automerge_persistent::fscache::FsPersisterCache;
use automerge_persistent::LocalStoragePersister;
use automerge_persistent::Persister;

#[test]
fn sequence_numbers_encode_big_endian() {
    assert_eq!(keys::be_bytes(1), vec![0, 0, 0, 0, 0, 0, 0, 1]);
    assert_eq!(keys::be_bytes(0x0102030405060708), vec![1, 2, 3, 4, 5, 6, 7, 8]);
    assert_eq!(keys::be_bytes(u64::MAX), vec![255; 8]);
}

#[test]
fn change_keys_concatenate_prefix_actor_and_sequence() {
    let k = keys::change_key(b"ns", b"actor", 2);
    let mut expected = b"ns".to_vec();
    expected.extend_from_slice(b"actor");
    expected.extend_from_slice(&[0, 0, 0, 0, 0, 0, 0, 2]);
    assert_eq!(k, expected);
    assert_eq!(keys::peer_key(b"ns", b"peer"), b"nspeer".to_vec());
}

#[test]
fn file_names_spell_hex() {
    assert_eq!(fscache::change_file_name(b"\x61\x31", 1), "6131-0000000000000001");
    assert_eq!(fscache::peer_file_name(&[0xde, 0xad]), "dead");
    assert_eq!(fscache::peer_id_of_name("dead").unwrap(), vec![0xde, 0xad]);
    assert!(fscache::peer_id_of_name("not-hex!").is_err());
}

#[test]
fn cache_serves_reads_before_the_disk() {
    let mut c = FsPersisterCache::new();
    assert_eq!(c.get_document(), None);
    c.set_document(vec![1, 2]);
    assert_eq!(c.get_document(), Some(vec![1, 2]));
    assert_eq!(c.insert_change(b"a".to_vec(), 1, vec![5]), None);
    assert_eq!(c.insert_change(b"a".to_vec(), 1, vec![6, 7]), Some(vec![5]));
    assert_eq!(c.remove_change(b"a", 1), Some(vec![6, 7]));
    assert_eq!(c.remove_change(b"a", 1), None);
    c.set_sync_state(b"p".to_vec(), vec![9]);
    assert_eq!(c.get_sync_state(b"p"), Some(vec![9]));
    assert_eq!(c.get_sync_state(b"q"), None);
}

#[test]
fn drain_hands_back_everything_and_empties_the_cache() {
    let mut c = FsPersisterCache::new();
    c.insert_change(b"a".to_vec(), 1, vec![1]);
    c.insert_change(b"b".to_vec(), 2, vec![2, 2]);
    c.set_document(vec![3]);
    c.set_sync_state(b"p".to_vec(), vec![4]);
    let (mut records, doc, pairs) = c.drain();
    records.sort();
    assert_eq!(records, vec![(b"a".to_vec(), 1, vec![1]), (b"b".to_vec(), 2, vec![2, 2])]);
    assert_eq!(doc, Some(vec![3]));
    assert_eq!(pairs, vec![(b"p".to_vec(), vec![4])]);
    let (records2, doc2, pairs2) = c.drain();
    assert!(records2.is_empty() && doc2.is_none() && pairs2.is_empty());
}

#[test]
fn empty_file_contents_read_as_absent() {
    assert_eq!(fscache::normalize_stored(vec![]), None);
    assert_eq!(fscache::normalize_stored(vec![0]), Some(vec![0]));
}

#[test]
fn local_storage_blobs_round_trip() {
    let mut p = LocalStoragePersister::new(None, None, None).unwrap();
    p.insert_changes(vec![
        (b"a1".to_vec(), 1, vec![1, 2, 3]),
        (b"a1".to_vec(), 2, vec![4, 5]),
    ])
    .unwrap();
    p.set_sync_state(b"peer".to_vec(), vec![7, 8]).unwrap();
    p.set_document(vec![9]).unwrap();
    let changes_blob = p.changes_blob().unwrap();
    let sync_blob = p.sync_states_blob().unwrap();
    let doc_blob = p.document_blob().unwrap();

    // reload from the serialized slots, as the embedding application would
    let q = LocalStoragePersister::new(Some(changes_blob), Some(sync_blob), doc_blob).unwrap();
    let mut got = q.get_changes().unwrap();
    got.sort();
    assert_eq!(got, vec![vec![1, 2, 3], vec![4, 5]]);
    assert_eq!(q.get_document().unwrap(), Some(vec![9]));
    assert_eq!(q.get_sync_state(b"peer").unwrap(), Some(vec![7, 8]));
    let s = q.sizes();
    assert_eq!((s.changes, s.document, s.sync_states), (5, 1, 2));
}

#[test]
fn local_storage_accounting_matches_the_memory_backend() {
    let mut p = LocalStoragePersister::new(None, None, None).unwrap();
    p.insert_changes(vec![(b"a1".to_vec(), 1, vec![1, 2, 3])]).unwrap();
    p.insert_changes(vec![(b"a1".to_vec(), 1, vec![7])]).unwrap();
    assert_eq!(p.sizes().changes, 1);
    let before = p.sizes();
    p.remove_changes(vec![(b"missing".to_vec(), 4)]).unwrap();
    assert_eq!(p.sizes(), before);
    assert_eq!(p.get_document().unwrap(), None);
    p.set_document(vec![]).unwrap();
    assert_eq!(p.get_document().unwrap(), None);
}

#[test]
fn accounted_cache_mutators_keep_the_counters_exact() {
    let mut c = FsPersisterCache::new();
    let mut sizes = StoredSizes::default();
    assert!(c.insert_change_accounted(&mut sizes, b"a".to_vec(), 1, vec![1, 2, 3]));
    assert_eq!(sizes.changes, 3);
    // overwriting moves the counter by exactly the difference
    assert!(c.insert_change_accounted(&mut sizes, b"a".to_vec(), 1, vec![7]));
    assert_eq!(sizes.changes, 1);
    assert!(matches!(
        c.remove_change_accounted(&mut sizes, b"a", 1),
        UnstageOutcome::Removed
    ));
    assert_eq!(sizes.changes, 0);
    assert!(matches!(
        c.remove_change_accounted(&mut sizes, b"a", 1),
        UnstageOutcome::NotStaged
    ));
    c.set_document_accounted(&mut sizes, vec![9, 9]);
    assert_eq!(sizes.document, 2);
    c.set_document_accounted(&mut sizes, vec![1]);
    assert_eq!(sizes.document, 1);
    assert!(c.set_sync_state_accounted(&mut sizes, b"p".to_vec(), vec![4, 4]));
    assert!(c.set_sync_state_accounted(&mut sizes, b"p".to_vec(), vec![4]));
    assert_eq!(sizes.sync_states, 1);
    assert!(matches!(
        c.remove_sync_state_accounted(&mut sizes, b"p"),
        UnstageOutcome::Removed
    ));
    assert_eq!(sizes.sync_states, 0);
}

#[test]
fn staged_contents_are_readable_without_draining() {
    let mut c = FsPersisterCache::new();
    c.insert_change(b"a".to_vec(), 1, vec![5]);
    c.set_sync_state(b"p".to_vec(), vec![6]);
    assert_eq!(c.staged_records(), vec![(b"a".to_vec(), 1, vec![5])]);
    assert_eq!(c.staged_peer_ids(), vec![b"p".to_vec()]);
    // reading did not drain anything
    assert_eq!(c.staged_records(), vec![(b"a".to_vec(), 1, vec![5])]);
}

#[test]
fn contains_change_reports_exact_presence() {
    let mut p = LocalStoragePersister::new(None, None, None).unwrap();
    assert!(!p.contains_change(b"a1", 1));
    p.insert_changes(vec![(b"a1".to_vec(), 1, vec![1])]).unwrap();
    assert!(p.contains_change(b"a1", 1));
    assert!(!p.contains_change(b"a1", 2));
    p.remove_changes(vec![(b"a1".to_vec(), 1)]).unwrap();
    assert!(!p.contains_change(b"a1", 1));
}

#[test]
fn healed_sizes_sum_exactly_what_was_scanned() {
    let changes = vec![vec![1, 2, 3], vec![4]];
    let syncs = vec![vec![5, 6]];
    let s = fscache::healed_sizes(&changes, &Some(vec![7, 8, 9]), &syncs).unwrap();
    assert_eq!((s.changes, s.document, s.sync_states), (4, 3, 2));
    let s = fscache::healed_sizes(&Vec::new(), &None, &Vec::new()).unwrap();
    assert_eq!((s.changes, s.document, s.sync_states), (0, 0, 0));
}

#[test]
fn batch_total_sums_the_carried_bytes() {
    let batch = vec![
        (b"a".to_vec(), 1, vec![1, 2, 3]),
        (b"b".to_vec(), 2, vec![4]),
    ];
    assert_eq!(automerge_persistent::autocommit::batch_total(&batch), Some(4));
    assert_eq!(automerge_persistent::autocommit::batch_total(&Vec::new()), Some(0));
}
