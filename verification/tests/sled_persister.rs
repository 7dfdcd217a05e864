//! The embedded ordered key-value backend against the persister contract.

use automerge::transaction::Transactable;
use automerge::ReadDoc;
use automerge_persistent::PersistentAutoCommit;
use automerge_persistent::Persister;
use automerge_persistent::SledPersister;

fn open_persister(db: &sled::Db, prefix: &[u8]) -> SledPersister {
    let changes = db.open_tree("changes").unwrap();
    let documents = db.open_tree("documents").unwrap();
    let syncs = db.open_tree("sync-states").unwrap();
    SledPersister::new(changes, documents, syncs, prefix.to_vec()).unwrap()
}

fn sorted(mut v: Vec<Vec<u8>>) -> Vec<Vec<u8>> {
    v.sort();
    v
}

#[test]
fn round_trip_through_the_tree() {
    let db = sled::Config::new().temporary(true).open().unwrap();
    let mut p = open_persister(&db, b"ns");
    p.insert_changes(vec![
        (b"a1".to_vec(), 1, vec![1, 2, 3]),
        (b"a2".to_vec(), 7, vec![4, 5]),
    ])
    .unwrap();
    p.set_document(vec![42, 43]).unwrap();
    p.set_sync_state(b"peer".to_vec(), vec![9]).unwrap();
    assert_eq!(sorted(p.get_changes().unwrap()), sorted(vec![vec![1, 2, 3], vec![4, 5]]));
    assert_eq!(p.get_document().unwrap(), Some(vec![42, 43]));
    assert_eq!(p.get_sync_state(b"peer").unwrap(), Some(vec![9]));
}

#[test]
fn sizes_self_heal_across_reopen() {
    let db = sled::Config::new().temporary(true).open().unwrap();
    {
        let mut p = open_persister(&db, b"ns");
        p.insert_changes(vec![
            (b"a1".to_vec(), 1, vec![1, 2, 3]),
            (b"a1".to_vec(), 2, vec![4, 5, 6, 7]),
        ])
        .unwrap();
        p.set_document(vec![1, 2]).unwrap();
        p.set_sync_state(b"peer".to_vec(), vec![5, 5, 5]).unwrap();
        p.flush().unwrap();
        assert_eq!(p.sizes().changes, 7);
    }
    // a fresh persister over the same trees recomputes every counter by
    // scanning, without any persisted counter
    let p = open_persister(&db, b"ns");
    let s = p.sizes();
    assert_eq!(s.changes, 7);
    assert_eq!(s.document, 2);
    assert_eq!(s.sync_states, 3);
}

#[test]
fn overwrite_and_idempotent_delete_accounting() {
    let db = sled::Config::new().temporary(true).open().unwrap();
    let mut p = open_persister(&db, b"");
    p.insert_changes(vec![(b"a1".to_vec(), 1, vec![1, 2, 3])]).unwrap();
    p.insert_changes(vec![(b"a1".to_vec(), 1, vec![8, 9])]).unwrap();
    assert_eq!(p.sizes().changes, 2);
    let before = p.sizes();
    p.remove_changes(vec![(b"zz".to_vec(), 3)]).unwrap();
    assert_eq!(p.sizes(), before);
    p.remove_changes(vec![(b"a1".to_vec(), 1)]).unwrap();
    assert_eq!(p.sizes().changes, 0);
    assert_eq!(p.get_changes().unwrap(), Vec::<Vec<u8>>::new());
}

#[test]
fn empty_stored_document_reads_as_absent() {
    let db = sled::Config::new().temporary(true).open().unwrap();
    let mut p = open_persister(&db, b"ns");
    assert_eq!(p.get_document().unwrap(), None);
    p.set_document(vec![]).unwrap();
    assert_eq!(p.get_document().unwrap(), None);
}

#[test]
fn namespaces_do_not_see_each_other() {
    let db = sled::Config::new().temporary(true).open().unwrap();
    {
        let mut p1 = open_persister(&db, b"one!");
        p1.insert_changes(vec![(b"a".to_vec(), 1, vec![1])]).unwrap();
        p1.set_sync_state(b"peer-a".to_vec(), vec![7]).unwrap();
    }
    let p2 = open_persister(&db, b"two!");
    assert_eq!(p2.get_changes().unwrap(), Vec::<Vec<u8>>::new());
    assert_eq!(p2.get_peer_ids().unwrap(), Vec::<Vec<u8>>::new());
    assert_eq!(p2.sizes().changes, 0);
}

#[test]
fn a_document_persists_through_the_tree() {
    let db = sled::Config::new().temporary(true).open().unwrap();
    {
        let persister = open_persister(&db, b"doc-1");
        let mut doc = PersistentAutoCommit::load(persister).unwrap();
        doc.transact(|d| d.put(automerge::ROOT, "title", "notes")).unwrap();
        doc.flush().unwrap();
        doc.close().unwrap();
    }
    let reloaded = PersistentAutoCommit::load(open_persister(&db, b"doc-1")).unwrap();
    let got = reloaded
        .document()
        .get(automerge::ROOT, "title")
        .unwrap()
        .and_then(|(v, _)| v.to_str().map(|s| s.to_owned()));
    assert_eq!(got, Some("notes".to_owned()));
}

#[test]
fn a_foreign_short_key_is_rejected_at_open() {
    let db = sled::Config::new().temporary(true).open().unwrap();
    let changes = db.open_tree("changes").unwrap();
    // a key under this namespace that is too short to carry a sequence
    // number cannot have been written by this layer
    changes.insert(b"ns-x", b"junk".as_slice()).unwrap();
    let documents = db.open_tree("documents").unwrap();
    let syncs = db.open_tree("sync-states").unwrap();
    let r = SledPersister::new(changes, documents, syncs, b"ns".to_vec());
    assert!(r.is_err());
}

#[test]
fn peer_ids_come_back_without_the_namespace() {
    let db = sled::Config::new().temporary(true).open().unwrap();
    let mut p = open_persister(&db, b"pre");
    p.set_sync_state(b"peer-a".to_vec(), vec![1]).unwrap();
    p.set_sync_state(b"peer-b".to_vec(), vec![2, 3]).unwrap();
    let peers = sorted(p.get_peer_ids().unwrap());
    assert_eq!(peers, sorted(vec![b"peer-a".to_vec(), b"peer-b".to_vec()]));
    assert_eq!(p.get_sync_state(b"peer-b").unwrap(), Some(vec![2, 3]));
}
