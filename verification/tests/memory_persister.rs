//! The in-memory backend against the persister contract.

use automerge_persistent::MemoryPersister;
use automerge_persistent::Persister;

fn sorted(mut v: Vec<Vec<u8>>) -> Vec<Vec<u8>> {
    v.sort();
    v
}

#[test]
fn insert_then_read_back_exactly() {
    let mut p = MemoryPersister::new();
    p.insert_changes(vec![
        (b"a1".to_vec(), 1, vec![1, 2, 3]),
        (b"a1".to_vec(), 2, vec![4, 5]),
        (b"b2".to_vec(), 1, vec![6]),
    ])
    .unwrap();
    let got = sorted(p.get_changes().unwrap());
    assert_eq!(got, sorted(vec![vec![1, 2, 3], vec![4, 5], vec![6]]));
}

#[test]
fn concrete_change_accounting_scenario() {
    let mut p = MemoryPersister::new();
    p.insert_changes(vec![
        (b"a1".to_vec(), 1, vec![1, 2, 3]),
        (b"a1".to_vec(), 2, vec![4, 5]),
    ])
    .unwrap();
    let got = sorted(p.get_changes().unwrap());
    assert_eq!(got, sorted(vec![vec![1, 2, 3], vec![4, 5]]));
    assert_eq!(p.sizes().changes, 5);
    p.remove_changes(vec![(b"a1".to_vec(), 1)]).unwrap();
    assert_eq!(p.sizes().changes, 2);
    assert_eq!(p.get_changes().unwrap(), vec![vec![4, 5]]);
}

#[test]
fn overwrite_updates_sizes_by_difference() {
    let mut p = MemoryPersister::new();
    p.insert_changes(vec![(b"a1".to_vec(), 1, vec![1, 2, 3])]).unwrap();
    assert_eq!(p.sizes().changes, 3);
    // same key, new bytes: replaced, not double-counted
    p.insert_changes(vec![(b"a1".to_vec(), 1, vec![7])]).unwrap();
    assert_eq!(p.sizes().changes, 1);
    assert_eq!(p.get_changes().unwrap(), vec![vec![7]]);
}

#[test]
fn removing_missing_keys_is_a_silent_no_op() {
    let mut p = MemoryPersister::new();
    p.insert_changes(vec![(b"a1".to_vec(), 1, vec![1, 2, 3])]).unwrap();
    let before = p.sizes();
    p.remove_changes(vec![(b"nope".to_vec(), 9)]).unwrap();
    p.remove_sync_states(&[b"ghost".to_vec()]).unwrap();
    let after = p.sizes();
    assert_eq!(before, after);
    assert_eq!(p.get_changes().unwrap(), vec![vec![1, 2, 3]]);
}

#[test]
fn document_slot_is_replaced_not_summed() {
    let mut p = MemoryPersister::new();
    p.set_document(vec![9, 9, 9]).unwrap();
    assert_eq!(p.sizes().document, 3);
    p.set_document(vec![1]).unwrap();
    assert_eq!(p.sizes().document, 1);
    assert_eq!(p.get_document().unwrap(), Some(vec![1]));
}

#[test]
fn empty_document_reads_as_absent() {
    let mut p = MemoryPersister::new();
    assert_eq!(p.get_document().unwrap(), None);
    p.set_document(vec![]).unwrap();
    assert_eq!(p.get_document().unwrap(), None);
}

#[test]
fn sync_states_are_isolated_per_peer() {
    let mut p = MemoryPersister::new();
    p.set_sync_state(b"peer-a".to_vec(), vec![10, 11]).unwrap();
    assert_eq!(p.get_sync_state(b"peer-a").unwrap(), Some(vec![10, 11]));
    assert_eq!(p.get_sync_state(b"peer-b").unwrap(), None);
    p.set_sync_state(b"peer-b".to_vec(), vec![12]).unwrap();
    assert_eq!(p.get_sync_state(b"peer-a").unwrap(), Some(vec![10, 11]));
    let peers = sorted(p.get_peer_ids().unwrap());
    assert_eq!(peers, sorted(vec![b"peer-a".to_vec(), b"peer-b".to_vec()]));
    assert_eq!(p.sizes().sync_states, 3);
    p.remove_sync_states(&[b"peer-a".to_vec()]).unwrap();
    assert_eq!(p.get_sync_state(b"peer-a").unwrap(), None);
    assert_eq!(p.get_sync_state(b"peer-b").unwrap(), Some(vec![12]));
    assert_eq!(p.get_peer_ids().unwrap(), vec![b"peer-b".to_vec()]);
    assert_eq!(p.sizes().sync_states, 1);
}

#[test]
fn flush_is_a_no_op_that_reports_zero_bytes() {
    let mut p = MemoryPersister::new();
    p.insert_changes(vec![(b"a1".to_vec(), 1, vec![1])]).unwrap();
    assert_eq!(p.flush().unwrap(), 0);
    assert_eq!(p.get_changes().unwrap(), vec![vec![1]]);
}

#[test]
fn default_is_an_empty_store() {
    let p = MemoryPersister::default();
    assert_eq!(p.get_changes().unwrap(), Vec::<Vec<u8>>::new());
    assert_eq!(p.get_document().unwrap(), None);
    assert_eq!(p.get_peer_ids().unwrap(), Vec::<Vec<u8>>::new());
    let s = p.sizes();
    assert_eq!((s.changes, s.document, s.sync_states), (0, 0, 0));
}
