//! The persistent document wrapper over a real CRDT engine.

use automerge::transaction::Transactable;
use automerge::ReadDoc;
use automerge_persistent::MemoryPersister;
use automerge_persistent::PersistentAutoCommit;
use automerge_persistent::Persister;

fn read_str(doc: &automerge::AutoCommit, key: &str) -> Option<String> {
    doc.get(automerge::ROOT, key)
        .unwrap()
        .and_then(|(v, _)| v.to_str().map(|s| s.to_owned()))
}

#[test]
fn mutations_survive_a_reload() {
    let persister = MemoryPersister::new();
    let mut doc = PersistentAutoCommit::load(persister).unwrap();
    doc.transact(|d| d.put(automerge::ROOT, "greeting", "hello")).unwrap();
    // the transaction is still open: flushing closes it and persists it
    doc.flush().unwrap();
    let persister = doc.close().unwrap();
    assert!(persister.sizes().changes > 0);

    let reloaded = PersistentAutoCommit::load(persister).unwrap();
    assert_eq!(read_str(reloaded.document(), "greeting"), Some("hello".to_owned()));
}

#[test]
fn sync_carries_changes_between_documents() {
    let mut left = PersistentAutoCommit::load(MemoryPersister::new()).unwrap();
    let mut right = PersistentAutoCommit::load(MemoryPersister::new()).unwrap();
    left.transact(|d| d.put(automerge::ROOT, "who", "left")).unwrap();

    // run the protocol to quiescence in both directions
    let mut progressed = true;
    while progressed {
        progressed = false;
        if let Some(m) = left.generate_sync_message(b"right".to_vec()).unwrap() {
            right.receive_sync_message(b"left".to_vec(), m).unwrap();
            progressed = true;
        }
        if let Some(m) = right.generate_sync_message(b"left".to_vec()).unwrap() {
            left.receive_sync_message(b"right".to_vec(), m).unwrap();
            progressed = true;
        }
    }
    assert_eq!(read_str(right.document(), "who"), Some("left".to_owned()));

    // every generate call persisted a cursor for exactly that peer
    assert_eq!(left.persister().get_peer_ids().unwrap(), vec![b"right".to_vec()]);
    assert_eq!(right.persister().get_peer_ids().unwrap(), vec![b"left".to_vec()]);

    // the receiving side persisted the received changes themselves
    assert!(right.persister().sizes().changes > 0);
}

#[test]
fn reset_sync_state_forgets_exactly_that_peer() {
    let mut doc = PersistentAutoCommit::load(MemoryPersister::new()).unwrap();
    doc.transact(|d| d.put(automerge::ROOT, "k", "v")).unwrap();
    doc.generate_sync_message(b"a".to_vec()).unwrap();
    doc.generate_sync_message(b"b".to_vec()).unwrap();
    let mut peers = doc.persister().get_peer_ids().unwrap();
    peers.sort();
    assert_eq!(peers, vec![b"a".to_vec(), b"b".to_vec()]);
    doc.reset_sync_state(b"a").unwrap();
    assert_eq!(doc.persister().get_peer_ids().unwrap(), vec![b"b".to_vec()]);
}

#[test]
fn compact_folds_changes_into_the_snapshot() {
    let mut doc = PersistentAutoCommit::load(MemoryPersister::new()).unwrap();
    doc.transact(|d| d.put(automerge::ROOT, "k", "v1")).unwrap();
    doc.flush().unwrap();
    doc.transact(|d| d.put(automerge::ROOT, "k", "v2")).unwrap();
    doc.flush().unwrap();
    assert!(doc.persister().sizes().changes > 0);
    assert_eq!(doc.persister().sizes().document, 0);

    doc.generate_sync_message(b"stale".to_vec()).unwrap();
    doc.compact(&[b"stale".to_vec()]).unwrap();
    assert_eq!(doc.persister().sizes().changes, 0);
    assert!(doc.persister().sizes().document > 0);
    assert_eq!(doc.persister().get_sync_state(b"stale").unwrap(), None);

    let persister = doc.close().unwrap();
    let reloaded = PersistentAutoCommit::load(persister).unwrap();
    assert_eq!(read_str(reloaded.document(), "k"), Some("v2".to_owned()));
}

#[test]
fn snapshot_with_redundant_changes_reloads_to_the_same_state() {
    // compaction writes the snapshot before it removes the folded changes;
    // simulate a crash right after that first step: both the snapshot and
    // all the old changes are still in storage
    let mut source = automerge::AutoCommit::new();
    source.put(automerge::ROOT, "k", "v").unwrap();
    source.commit();
    source.put(automerge::ROOT, "k2", "w").unwrap();
    source.commit();
    let snapshot = source.save();
    let mut p = MemoryPersister::new();
    let records: Vec<(Vec<u8>, u64, Vec<u8>)> = source
        .get_changes(&[])
        .into_iter()
        .map(|c| (c.actor_id().to_bytes().to_vec(), c.seq(), c.raw_bytes().to_vec()))
        .collect();
    p.insert_changes(records).unwrap();
    p.set_document(snapshot).unwrap();
    // changes were never removed; reload must tolerate the redundancy
    let mut reloaded = PersistentAutoCommit::load(p).unwrap();
    assert_eq!(read_str(reloaded.document(), "k"), Some("v".to_owned()));
    assert_eq!(read_str(reloaded.document(), "k2"), Some("w".to_owned()));
    assert_eq!(reloaded.document_mut().get_heads(), source.get_heads());
}

#[test]
fn externally_supplied_changes_are_applied_and_persisted() {
    let mut source = automerge::AutoCommit::new();
    source.put(automerge::ROOT, "k", "v").unwrap();
    source.commit();
    let changes: Vec<automerge::Change> = source.get_changes(&[]);
    let expected: Vec<Vec<u8>> = changes.iter().map(|c| c.raw_bytes().to_vec()).collect();

    let mut doc = PersistentAutoCommit::load(MemoryPersister::new()).unwrap();
    doc.apply_changes(changes).unwrap();
    assert_eq!(read_str(doc.document(), "k"), Some("v".to_owned()));
    // exactly the supplied records were persisted
    let mut stored = doc.persister().get_changes().unwrap();
    stored.sort();
    let mut expected = expected;
    expected.sort();
    assert_eq!(stored, expected);
}

#[test]
fn close_transaction_advances_the_watermark() {
    let mut doc = PersistentAutoCommit::load(MemoryPersister::new()).unwrap();
    doc.transact(|d| d.put(automerge::ROOT, "k", "v")).unwrap();
    doc.close_transaction().unwrap();
    let after_first = doc.persister().sizes().changes;
    assert!(after_first > 0);
    // nothing new happened: closing again writes nothing further
    doc.close_transaction().unwrap();
    assert_eq!(doc.persister().sizes().changes, after_first);
}
