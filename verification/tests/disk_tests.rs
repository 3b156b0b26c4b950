//! End-to-end sessions: a live document mirrored to a store through its
//! disk plugin, closed, and restored from what was persisted.

use collab_persist::adapter::{DiskPlugin, PersistenceConfig, StoreHandle};
use collab_persist::engine::DocStore;
use collab_persist::memdoc::MemDoc;

fn attach(uid: u64, doc_id: &str, handle: &StoreHandle) -> (DiskPlugin, MemDoc) {
    let mut plugin = DiskPlugin::new(uid, doc_id.as_bytes(), PersistenceConfig::new());
    let mut doc = MemDoc::new();
    plugin.initialize(handle, &mut doc).unwrap();
    (plugin, doc)
}

fn insert_kv(
    plugin: &mut DiskPlugin,
    handle: &mut StoreHandle,
    doc: &mut MemDoc,
    key: &str,
    value: &str,
) {
    let delta = doc.insert(key.as_bytes(), value.as_bytes());
    plugin.did_receive_update(handle, delta.as_slice()).unwrap();
}

fn get_str(doc: &MemDoc, key: &str) -> Option<String> {
    doc.get(key.as_bytes()).map(|v| String::from_utf8(v).unwrap())
}

#[test]
fn insert_single_change_and_restore_from_disk() {
    let doc_id = "1".to_string();
    let uid: u64 = 1;
    let mut handle = StoreHandle::new(DocStore::new());

    let (mut plugin, mut doc) = attach(uid, &doc_id, &handle);
    insert_kv(&mut plugin, &mut handle, &mut doc, "1", "a");
    plugin.close();
    drop(doc);

    let (_plugin2, doc2) = attach(uid, &doc_id, &handle);
    assert_eq!(get_str(&doc2, "1"), Some("a".to_string()));
}

#[test]
fn flush_test() {
    let doc_id = "1".to_string();
    let uid: u64 = 1;
    let mut handle = StoreHandle::new(DocStore::new());
    let (mut plugin, mut doc) = attach(uid, &doc_id, &handle);

    for i in 0..100 {
        insert_kv(&mut plugin, &mut handle, &mut doc, &i.to_string(), &i.to_string());
    }
    let before_flush_value: Vec<Option<String>> =
        (0..100).map(|i| get_str(&doc, &i.to_string())).collect();

    let before_flush_updates = handle
        .store_ref()
        .read_log(uid, doc_id.as_bytes());
    plugin.flush(&mut handle).unwrap();
    let after_flush_updates = handle
        .store_ref()
        .read_log(uid, doc_id.as_bytes());

    // the document restored from the flushed store equals the pre-flush one
    let (_p2, doc2) = attach(uid, &doc_id, &handle);
    let after_flush_value: Vec<Option<String>> =
        (0..100).map(|i| get_str(&doc2, &i.to_string())).collect();

    assert_eq!(before_flush_updates.len(), 100);
    assert_eq!(after_flush_updates.len(), 0);
    assert_eq!(before_flush_value, after_flush_value);
}

#[test]
fn insert_multiple_changes_and_restore_from_disk() {
    let doc_id = "1".to_string();
    let uid: u64 = 1;
    let mut handle = StoreHandle::new(DocStore::new());

    let (mut plugin, mut doc) = attach(uid, &doc_id, &handle);
    insert_kv(&mut plugin, &mut handle, &mut doc, "1", "a");
    insert_kv(&mut plugin, &mut handle, &mut doc, "2", "b");
    insert_kv(&mut plugin, &mut handle, &mut doc, "3", "c");
    insert_kv(&mut plugin, &mut handle, &mut doc, "4", "d");
    assert_eq!(
        handle
            .store_ref()
            .count_pending_updates(uid, doc_id.as_bytes()),
        4
    );
    plugin.close();
    drop(doc);

    let (_plugin2, doc2) = attach(uid, &doc_id, &handle);
    assert_eq!(get_str(&doc2, "1"), Some("a".to_string()));
    assert_eq!(get_str(&doc2, "2"), Some("b".to_string()));
    assert_eq!(get_str(&doc2, "3"), Some("c".to_string()));
    assert_eq!(get_str(&doc2, "4"), Some("d".to_string()));
}

#[test]
fn insert_multiple_docs() {
    let uid: u64 = 1;
    let mut handle = StoreHandle::new(DocStore::new());
    for id in ["1", "2", "3", "4", "5", "6"] {
        let mut plugin = DiskPlugin::new(uid, id.as_bytes(), PersistenceConfig::new());
        let mut doc = MemDoc::new();
        plugin.initialize(&handle, &mut doc).unwrap();
        plugin.create(&mut handle).unwrap();
    }
    assert_eq!(handle.store_ref().document_count(), 6);
}
