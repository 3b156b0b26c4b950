//! The update log and flush engine observed through its public operations.

use collab_persist::engine::DocStore;
use collab_persist::memdoc::MemDoc;
use collab_persist::PersistError;

const UID: u64 = 7;

fn doc_id() -> &'static [u8] {
    b"doc-a"
}

#[test]
fn append_assigns_consecutive_sequence_numbers() {
    let mut store = DocStore::new();
    for i in 0..5u64 {
        let seq = store.append_update(UID, doc_id(), format!("p{}", i).as_bytes());
        assert_eq!(seq, i);
    }
    assert_eq!(store.count_pending_updates(UID, doc_id()), 5);
}

#[test]
fn read_log_is_strictly_ascending_in_append_order() {
    let mut store = DocStore::new();
    store.append_update(UID, doc_id(), b"alpha");
    store.append_update(UID, doc_id(), b"beta");
    store.append_update(UID, doc_id(), b"gamma");
    let log = store.read_log(UID, doc_id());
    assert_eq!(log.len(), 3);
    assert_eq!(log[0], (0, b"alpha".to_vec()));
    assert_eq!(log[1], (1, b"beta".to_vec()));
    assert_eq!(log[2], (2, b"gamma".to_vec()));
    for w in log.windows(2) {
        assert!(w[0].0 < w[1].0);
    }
}

#[test]
fn flush_never_changes_the_replay() {
    let mut store = DocStore::new();
    store.append_update(UID, doc_id(), b"one");
    store.append_update(UID, doc_id(), b"two");
    store.flush(UID, doc_id());
    store.append_update(UID, doc_id(), b"three");
    let before = store.replay_chunks(UID, doc_id());
    store.flush(UID, doc_id());
    let after = store.replay_chunks(UID, doc_id());
    assert_eq!(before, after);
    assert_eq!(
        after,
        vec![b"one".to_vec(), b"two".to_vec(), b"three".to_vec()]
    );
    assert_eq!(store.count_pending_updates(UID, doc_id()), 0);
}

#[test]
fn flush_of_flushed_document_is_idempotent() {
    let mut store = DocStore::new();
    store.append_update(UID, doc_id(), b"x");
    store.flush(UID, doc_id());
    let rows_after_first = store.row_count();
    let replay_after_first = store.replay_chunks(UID, doc_id());
    store.flush(UID, doc_id());
    assert_eq!(store.row_count(), rows_after_first);
    assert_eq!(store.replay_chunks(UID, doc_id()), replay_after_first);
    assert_eq!(store.count_pending_updates(UID, doc_id()), 0);
}

#[test]
fn sequence_numbering_continues_across_flushes() {
    let mut store = DocStore::new();
    assert_eq!(store.append_update(UID, doc_id(), b"a"), 0);
    assert_eq!(store.append_update(UID, doc_id(), b"b"), 1);
    store.flush(UID, doc_id());
    assert_eq!(store.append_update(UID, doc_id(), b"c"), 2);
    let log = store.read_log(UID, doc_id());
    assert_eq!(log, vec![(2, b"c".to_vec())]);
}

#[test]
fn documents_are_isolated() {
    let mut store = DocStore::new();
    store.append_update(UID, b"doc-a", b"a0");
    store.append_update(UID, b"doc-b", b"b0");
    store.append_update(99, b"doc-a", b"other-owner");
    let b_before = store.replay_chunks(UID, b"doc-b");
    let other_before = store.replay_chunks(99, b"doc-a");

    store.append_update(UID, b"doc-a", b"a1");
    store.flush(UID, b"doc-a");
    store.delete(UID, b"doc-a");

    assert_eq!(store.replay_chunks(UID, b"doc-b"), b_before);
    assert_eq!(store.replay_chunks(99, b"doc-a"), other_before);
    assert_eq!(store.read_log(UID, b"doc-b").len(), 1);
}

#[test]
fn list_documents_counts_each_once() {
    let mut store = DocStore::new();
    // snapshot only
    store.create(UID, b"created");
    // log only
    store.append_update(UID, b"logged", b"u");
    // snapshot and log
    store.append_update(UID, b"both", b"u");
    store.flush(UID, b"both");
    store.append_update(UID, b"both", b"v");
    let docs = store.list_documents();
    assert_eq!(docs.len(), 3);
    assert_eq!(store.document_count(), 3);
    for d in &docs {
        assert_eq!(d.0, UID);
    }
    let mut names: Vec<Vec<u8>> = docs.into_iter().map(|d| d.1).collect();
    names.sort();
    assert_eq!(names, vec![b"both".to_vec(), b"created".to_vec(), b"logged".to_vec()]);
}

#[test]
fn deleted_document_is_gone_and_restarts_at_zero() {
    let mut store = DocStore::new();
    store.append_update(UID, doc_id(), b"a");
    store.flush(UID, doc_id());
    store.append_update(UID, doc_id(), b"b");
    assert_eq!(store.document_count(), 1);

    store.delete(UID, doc_id());
    assert_eq!(store.document_count(), 0);
    assert!(store.replay_chunks(UID, doc_id()).is_empty());
    assert_eq!(store.count_pending_updates(UID, doc_id()), 0);
    // a fresh session starts numbering again at zero
    assert_eq!(store.append_update(UID, doc_id(), b"fresh"), 0);
}

#[test]
fn create_is_visible_but_empty() {
    let mut store = DocStore::new();
    store.create(UID, doc_id());
    assert_eq!(store.document_count(), 1);
    assert!(store.replay_chunks(UID, doc_id()).is_empty());
    assert_eq!(store.count_pending_updates(UID, doc_id()), 0);
    // creating again changes nothing
    let rows = store.row_count();
    store.create(UID, doc_id());
    assert_eq!(store.row_count(), rows);
}

#[test]
fn decoded_log_reads_assignments() {
    let mut store = DocStore::new();
    let mut doc = MemDoc::new();
    let d0 = doc.insert(b"k1", b"v1");
    let d1 = doc.insert(b"k2", b"v2");
    store.append_update(UID, doc_id(), &d0);
    store.append_update(UID, doc_id(), &d1);
    let es = store.read_log_decoded(UID, doc_id()).unwrap();
    assert_eq!(
        es,
        vec![
            (0, b"k1".to_vec(), b"v1".to_vec()),
            (1, b"k2".to_vec(), b"v2".to_vec()),
        ]
    );
    // one malformed payload fails the decoded read as a whole
    store.append_update(UID, doc_id(), b"junk");
    assert_eq!(store.read_log_decoded(UID, doc_id()), Err(PersistError::DecodeError));
}

#[test]
fn corrupt_update_payload_surfaces_decode_error() {
    let mut store = DocStore::new();
    // an opaque payload that is not a well-formed document assignment
    store.append_update(UID, doc_id(), b"\x01\x02\x03");
    let chunks = store.replay_chunks(UID, doc_id());
    let mut doc = MemDoc::new();
    assert_eq!(doc.apply_chunks(&chunks), Err(PersistError::DecodeError));
    assert_eq!(doc.entry_count(), 0);
}
