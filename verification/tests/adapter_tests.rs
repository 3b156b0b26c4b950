//! Adapter lifecycle: hydration, the released-store policy, and the
//! automatic flush threshold.

use collab_persist::adapter::{DiskPlugin, PersistenceConfig, StoreHandle};
use collab_persist::engine::DocStore;
use collab_persist::memdoc::MemDoc;
use collab_persist::PersistError;

#[test]
fn hydration_of_missing_document_is_empty_and_creates_nothing() {
    let handle = StoreHandle::new(DocStore::new());
    let mut plugin = DiskPlugin::new(1, b"nope", PersistenceConfig::new());
    let mut doc = MemDoc::new();
    plugin.initialize(&handle, &mut doc).unwrap();
    assert!(doc.is_empty());
    assert_eq!(handle.store_ref().document_count(), 0);
}

#[test]
fn released_store_fails_reads_and_drops_writes_silently() {
    let mut handle = StoreHandle::new(DocStore::new());
    let mut plugin = DiskPlugin::new(1, b"d", PersistenceConfig::new());
    let mut doc = MemDoc::new();
    plugin.initialize(&handle, &mut doc).unwrap();

    handle.release();
    assert!(!handle.available());

    // a write after release is dropped, not an error
    let delta = doc.insert(b"k", b"v");
    assert_eq!(plugin.did_receive_update(&mut handle, delta.as_slice()), Ok(None));
    assert_eq!(plugin.flush(&mut handle), Ok(()));
    assert_eq!(plugin.delete(&mut handle), Ok(()));

    // hydration after release fails explicitly
    let mut plugin2 = DiskPlugin::new(1, b"d", PersistenceConfig::new());
    let mut doc2 = MemDoc::new();
    assert_eq!(
        plugin2.initialize(&handle, &mut doc2),
        Err(PersistError::StoreUnavailable)
    );
}

#[test]
fn auto_flush_threshold_folds_the_log() {
    let mut handle = StoreHandle::new(DocStore::new());
    let config = PersistenceConfig { snapshot_every_n_updates: Some(3) };
    let mut plugin = DiskPlugin::new(1, b"d", config);
    let mut doc = MemDoc::new();
    plugin.initialize(&handle, &mut doc).unwrap();

    for (i, pending_after) in [(0u32, 1), (1, 2), (2, 0), (3, 1), (4, 2), (5, 0)] {
        let delta = doc.insert(i.to_string().as_bytes(), b"v");
        plugin.did_receive_update(&mut handle, delta.as_slice()).unwrap();
        assert_eq!(
            handle.store_ref().count_pending_updates(1, b"d"),
            pending_after
        );
    }

    // everything survives in the replay despite the folds
    let mut plugin2 = DiskPlugin::new(1, b"d", PersistenceConfig::new());
    let mut doc2 = MemDoc::new();
    plugin2.initialize(&handle, &mut doc2).unwrap();
    assert_eq!(doc2.entry_count(), 6);
}

#[test]
fn close_keeps_data_exactly_as_committed() {
    let mut handle = StoreHandle::new(DocStore::new());
    let mut plugin = DiskPlugin::new(1, b"d", PersistenceConfig::new());
    let mut doc = MemDoc::new();
    plugin.initialize(&handle, &mut doc).unwrap();
    let delta = doc.insert(b"k", b"v");
    plugin.did_receive_update(&mut handle, delta.as_slice()).unwrap();
    let rows_before = handle.store_ref().row_count();
    plugin.close();
    assert_eq!(handle.store_ref().row_count(), rows_before);
    assert_eq!(handle.store_ref().count_pending_updates(1, b"d"), 1);
}

#[test]
fn delete_while_attached_only_removes_the_persisted_image() {
    let mut handle = StoreHandle::new(DocStore::new());
    let mut plugin = DiskPlugin::new(1, b"d", PersistenceConfig::new());
    let mut doc = MemDoc::new();
    plugin.initialize(&handle, &mut doc).unwrap();
    let delta = doc.insert(b"k", b"v");
    plugin.did_receive_update(&mut handle, delta.as_slice()).unwrap();

    plugin.delete(&mut handle).unwrap();
    // the in-memory document is untouched, the stored image is gone
    assert_eq!(doc.get(b"k"), Some(b"v".to_vec()));
    assert_eq!(handle.store_ref().document_count(), 0);
    assert_eq!(handle.store_ref().count_pending_updates(1, b"d"), 0);
}

#[test]
fn corrupt_stored_payload_fails_hydration() {
    let mut handle = StoreHandle::new(DocStore::new());
    {
        // write a payload that is no well-formed assignment straight through
        // the engine, as a foreign writer would
        let mut plugin = DiskPlugin::new(1, b"d", PersistenceConfig::new());
        let mut doc = MemDoc::new();
        plugin.initialize(&handle, &mut doc).unwrap();
        plugin.did_receive_update(&mut handle, b"\xff").unwrap();
    }
    let mut plugin = DiskPlugin::new(1, b"d", PersistenceConfig::new());
    let mut doc = MemDoc::new();
    assert_eq!(
        plugin.initialize(&handle, &mut doc),
        Err(PersistError::DecodeError)
    );
    assert!(doc.is_empty());
}
