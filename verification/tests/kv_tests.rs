//! The ordered byte-keyed store, its transactions, and the codecs.

use collab_persist::bytekey::{key_cmp, push_u64_be, read_u64_be, starts_with};
use collab_persist::frames::{append_frame, decode_frames};
use collab_persist::kv::{KvStore, WriteTxn};
use collab_persist::memdoc::MemDoc;
use collab_persist::PersistError;

#[test]
fn key_cmp_is_lexicographic() {
    assert_eq!(key_cmp(b"abc", b"abd"), -1);
    assert_eq!(key_cmp(b"abd", b"abc"), 1);
    assert_eq!(key_cmp(b"abc", b"abc"), 0);
    // a proper prefix sorts before its extension
    assert_eq!(key_cmp(b"ab", b"abc"), -1);
    assert_eq!(key_cmp(b"", b"a"), -1);
}

#[test]
fn starts_with_checks_initial_segment() {
    assert!(starts_with(b"abc", b"ab"));
    assert!(starts_with(b"abc", b""));
    assert!(!starts_with(b"abc", b"b"));
    assert!(!starts_with(b"ab", b"abc"));
}

#[test]
fn big_endian_u64_roundtrip_and_order() {
    let mut a: Vec<u8> = Vec::new();
    push_u64_be(&mut a, 0x0102030405060708);
    assert_eq!(a, vec![1, 2, 3, 4, 5, 6, 7, 8]);
    assert_eq!(read_u64_be(a.as_slice(), 0), 0x0102030405060708);
    let mut b: Vec<u8> = Vec::new();
    push_u64_be(&mut b, 0x0102030405060709);
    assert_eq!(key_cmp(a.as_slice(), b.as_slice()), -1);
}

#[test]
fn commit_applies_the_whole_batch_and_abort_nothing() {
    let mut store = KvStore::new();
    let mut txn = WriteTxn::new();
    txn.put(b"b".to_vec(), b"2".to_vec());
    txn.put(b"a".to_vec(), b"1".to_vec());
    txn.put(b"c".to_vec(), b"3".to_vec());
    store.commit(txn);
    assert_eq!(store.get(b"a"), Some(&b"1".to_vec()));
    assert_eq!(store.get(b"b"), Some(&b"2".to_vec()));
    assert_eq!(store.get(b"c"), Some(&b"3".to_vec()));
    assert_eq!(store.get(b"d"), None);

    let mut aborted = WriteTxn::new();
    aborted.put(b"d".to_vec(), b"4".to_vec());
    aborted.delete(b"a".to_vec());
    aborted.abort();
    assert_eq!(store.get(b"a"), Some(&b"1".to_vec()));
    assert_eq!(store.get(b"d"), None);

    let mut second = WriteTxn::new();
    second.put(b"a".to_vec(), b"9".to_vec());
    second.delete(b"b".to_vec());
    store.commit(second);
    assert_eq!(store.get(b"a"), Some(&b"9".to_vec()));
    assert_eq!(store.get(b"b"), None);
    assert_eq!(store.row_count(), 2);
}

#[test]
fn scan_prefix_returns_only_the_range_in_key_order() {
    let mut store = KvStore::new();
    let mut txn = WriteTxn::new();
    txn.put(b"a/2".to_vec(), b"v2".to_vec());
    txn.put(b"a/1".to_vec(), b"v1".to_vec());
    txn.put(b"b/1".to_vec(), b"w1".to_vec());
    store.commit(txn);
    let rows = store.scan_prefix(b"a/");
    assert_eq!(rows.len(), 2);
    assert_eq!(rows[0], (b"a/1".to_vec(), b"v1".to_vec()));
    assert_eq!(rows[1], (b"a/2".to_vec(), b"v2".to_vec()));
}

#[test]
fn delete_prefix_removes_exactly_the_range() {
    let mut store = KvStore::new();
    let mut txn = WriteTxn::new();
    txn.put(b"a/1".to_vec(), b"v".to_vec());
    txn.put(b"a/2".to_vec(), b"v".to_vec());
    txn.put(b"b/1".to_vec(), b"w".to_vec());
    store.commit(txn);
    let mut wipe = WriteTxn::new();
    wipe.delete_prefix(b"a/".to_vec());
    store.commit(wipe);
    assert_eq!(store.row_count(), 1);
    assert_eq!(store.get(b"b/1"), Some(&b"w".to_vec()));
}

#[test]
fn frame_stream_roundtrip() {
    let mut stream: Vec<u8> = Vec::new();
    append_frame(&mut stream, b"hello");
    append_frame(&mut stream, b"");
    append_frame(&mut stream, b"world!");
    let chunks = decode_frames(stream.as_slice()).unwrap();
    assert_eq!(chunks, vec![b"hello".to_vec(), b"".to_vec(), b"world!".to_vec()]);
    // one frame is eight length bytes plus the payload
    assert_eq!(stream.len(), 8 + 5 + 8 + 0 + 8 + 6);
}

#[test]
fn truncated_frame_stream_is_a_decode_error() {
    let mut stream: Vec<u8> = Vec::new();
    append_frame(&mut stream, b"hello");
    stream.pop();
    assert_eq!(decode_frames(stream.as_slice()), Err(PersistError::DecodeError));
    assert_eq!(decode_frames(b"\x00\x01"), Err(PersistError::DecodeError));
}

#[test]
fn memdoc_delta_is_length_prefixed_key_then_value() {
    let mut doc = MemDoc::new();
    let delta = doc.insert(b"k1", b"val");
    assert_eq!(delta, vec![0, 0, 0, 0, 0, 0, 0, 2, b'k', b'1', b'v', b'a', b'l']);
}

#[test]
fn memdoc_get_returns_the_last_write() {
    let mut doc = MemDoc::new();
    doc.insert(b"k", b"first");
    doc.insert(b"other", b"x");
    doc.insert(b"k", b"second");
    assert_eq!(doc.get(b"k"), Some(b"second".to_vec()));
    assert_eq!(doc.get(b"other"), Some(b"x".to_vec()));
    assert_eq!(doc.get(b"missing"), None);
    assert_eq!(doc.entry_count(), 3);
}
