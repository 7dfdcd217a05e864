//! The eagerly-persisting document wrapper over a real CRDT engine.

use automerge::transaction::Transactable;
use automerge::ReadDoc;
use automerge_persistent::MemoryPersister;
use automerge_persistent::PersistentAutomerge;
use automerge_persistent::Persister;

fn read_str(doc: &automerge::Automerge, key: &str) -> Option<String> {
    doc.get(automerge::ROOT, key)
        .unwrap()
        .and_then(|(v, _)| v.to_str().map(|s| s.to_owned()))
}

#[test]
fn a_transaction_is_persisted_before_it_returns() {
    let mut doc = PersistentAutomerge::load(MemoryPersister::new()).unwrap();
    doc.transact(|d| d.transact(|tx| tx.put(automerge::ROOT, "k", "v"))).unwrap();
    // no flush needed: the records are already with the persister
    assert!(doc.persister().sizes().changes > 0);
    let persister = doc.close().unwrap();
    let reloaded = PersistentAutomerge::load(persister).unwrap();
    assert_eq!(read_str(reloaded.document(), "k"), Some("v".to_owned()));
}

#[test]
fn a_failed_transaction_persists_nothing() {
    let mut doc = PersistentAutomerge::load(MemoryPersister::new()).unwrap();
    let r: Result<(), _> = doc.transact(|_| Err::<(), &str>("caller says no"));
    assert!(r.is_err());
    assert_eq!(doc.persister().sizes().changes, 0);
}

#[test]
fn sync_and_compact_work_eagerly() {
    let mut left = PersistentAutomerge::load(MemoryPersister::new()).unwrap();
    let mut right = PersistentAutomerge::load(MemoryPersister::new()).unwrap();
    left.transact(|d| d.transact(|tx| tx.put(automerge::ROOT, "who", "left"))).unwrap();

    let mut progressed = true;
    while progressed {
        progressed = false;
        if let Some(m) = left.generate_sync_message(b"right".to_vec()).unwrap() {
            right.receive_sync_message(b"left".to_vec(), m).unwrap();
            progressed = true;
        }
        if let Some(m) = right.generate_sync_message(b"left".to_vec()).unwrap() {
            left.receive_sync_message(b"right".to_vec(), m).unwrap();
            progressed = true;
        }
    }
    assert_eq!(read_str(right.document(), "who"), Some("left".to_owned()));

    right.compact(&[b"left".to_vec()]).unwrap();
    assert_eq!(right.persister().sizes().changes, 0);
    assert_eq!(right.persister().get_sync_state(b"left").unwrap(), None);
    let reloaded = PersistentAutomerge::load(right.close().unwrap()).unwrap();
    assert_eq!(read_str(reloaded.document(), "who"), Some("left".to_owned()));
}

#[test]
fn reset_sync_state_removes_exactly_one_peer() {
    let mut doc = PersistentAutomerge::load(MemoryPersister::new()).unwrap();
    doc.generate_sync_message(b"a".to_vec()).unwrap();
    doc.generate_sync_message(b"b".to_vec()).unwrap();
    doc.reset_sync_state(b"b").unwrap();
    assert_eq!(doc.persister().get_peer_ids().unwrap(), vec![b"a".to_vec()]);
}
