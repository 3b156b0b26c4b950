//! Update log and flush (compaction) engine.
//!
//! A [`DocStore`] holds every document of one store instance inside a single
//! ordered key-value store.  Each document owns at most one snapshot row and
//! an append-only run of log rows with consecutive sequence numbers.  The
//! observable state of a document is its *replay*: the chunks consolidated in
//! the snapshot followed by the pending log payloads, in order.  A flush
//! folds the pending log into the snapshot inside one atomic transaction and
//! never changes the replay.

use vstd::prelude::*;
use crate::PersistError;
use crate::bytekey::is_prefix_of;
use crate::bytekey::lex_lt;
use crate::bytekey::read_u64_be;
use crate::bytekey::u64_be;
use crate::bytekey::u64_from_be;
use crate::frames::append_frame;
use crate::frames::decode_frames;
use crate::frames::frames_of;
use crate::frames::lemma_frames_concat;
use crate::frames::lemma_frames_enc_push;
use crate::frames::lemma_frames_roundtrip;
use crate::frames::valid_frames;
use crate::frames::frames_enc;
use crate::frames::chunks_fit;
use crate::keyspace::doc_prefix;
use crate::keyspace::doc_prefix_bytes;
use crate::keyspace::lemma_doc_key_prefixes;
use crate::keyspace::lemma_doc_prefix_unique;
use crate::keyspace::lemma_key_distinct;
use crate::keyspace::lemma_log_key_order;
use crate::keyspace::lemma_log_prefix_owner;
use crate::keyspace::check_oid_fits;
use crate::keyspace::log_key;
use crate::keyspace::log_key_bytes;
use crate::keyspace::log_prefix;
use crate::keyspace::log_prefix_bytes;
use crate::keyspace::oid_fits;
use crate::keyspace::parse_doc_key;
use crate::keyspace::parse_doc_key_bytes;
use crate::keyspace::snapshot_key;
use crate::keyspace::snapshot_key_bytes;
use crate::kv::KvStore;
use crate::kv::RowSeq;
use crate::kv::WriteTxn;
use crate::kv::apply_op;
use crate::kv::apply_ops;
use crate::kv::has_prefix_pred;
use crate::kv::keys_sorted;
use crate::kv::kv_insert;
use crate::kv::kv_lookup;
use crate::kv::lemma_insert_lookup;
use crate::kv::lemma_insert_matching_push;
use crate::kv::lemma_insert_matching_same;
use crate::kv::lemma_matching_contains;
use crate::kv::lemma_matching_lookup;
use crate::kv::lemma_matching_nested;
use crate::kv::lemma_matching_none;
use crate::kv::lemma_matching_pred;
use crate::kv::not_prefix_pred;
use crate::kv::rows_matching;
use crate::kv::rows_with_prefix;
use crate::kv::rows_without_prefix;

verus! {

/// The log rows of document `(uid, oid)`, in ascending key order.
pub open spec fn doc_log_rows(rows: RowSeq, uid: u64, oid: Seq<u8>) -> RowSeq {
    rows_with_prefix(rows, log_prefix(uid, oid))
}

/// The document's snapshot row value, if one exists.
pub open spec fn doc_snapshot_value(rows: RowSeq, uid: u64, oid: Seq<u8>) -> Option<Seq<u8>> {
    kv_lookup(rows, snapshot_key(uid, oid))
}

/// The sequence number that the snapshot row records as the next to assign:
/// one past the last folded update, zero for a snapshot that folded nothing.
pub open spec fn snap_base(v: Seq<u8>) -> u64 {
    u64_from_be(v.take(8))
}

/// The first sequence number of the pending log.
pub open spec fn doc_base(rows: RowSeq, uid: u64, oid: Seq<u8>) -> u64 {
    match doc_snapshot_value(rows, uid, oid) {
        None => 0,
        Some(v) => snap_base(v),
    }
}

/// How many updates are pending in the log.
pub open spec fn doc_log_len(rows: RowSeq, uid: u64, oid: Seq<u8>) -> nat {
    doc_log_rows(rows, uid, oid).len()
}

/// The pending log payloads, in sequence order.
pub open spec fn doc_log_payloads(rows: RowSeq, uid: u64, oid: Seq<u8>) -> Seq<Seq<u8>> {
    doc_log_rows(rows, uid, oid).map_values(|r: (Seq<u8>, Seq<u8>)| r.1)
}

/// The sequence number the next appended update receives.
pub open spec fn doc_next_seq(rows: RowSeq, uid: u64, oid: Seq<u8>) -> int {
    doc_base(rows, uid, oid) + doc_log_len(rows, uid, oid)
}

/// The chunks consolidated in the snapshot, in order.
pub open spec fn doc_snapshot_chunks(rows: RowSeq, uid: u64, oid: Seq<u8>) -> Seq<Seq<u8>> {
    match doc_snapshot_value(rows, uid, oid) {
        None => Seq::empty(),
        Some(v) => frames_of(v.skip(8)),
    }
}

/// The observable state of a document: snapshot chunks, then pending log
/// payloads.  Replaying these chunks in order reconstructs the document.
pub open spec fn doc_replay(rows: RowSeq, uid: u64, oid: Seq<u8>) -> Seq<Seq<u8>> {
    doc_snapshot_chunks(rows, uid, oid) + doc_log_payloads(rows, uid, oid)
}

/// Whether the document owns any row at all.
pub open spec fn doc_present(rows: RowSeq, uid: u64, oid: Seq<u8>) -> bool {
    doc_snapshot_value(rows, uid, oid) is Some || doc_log_len(rows, uid, oid) > 0
}

/// Shape of the log row at position `i` of the document's log: it carries
/// the sequence number `base + i` in its key, and its payload length fits a
/// frame header.
pub open spec fn log_row_ok(rows: RowSeq, uid: u64, oid: Seq<u8>, i: int) -> bool {
    let base = doc_base(rows, uid, oid) as int;
    let logs = doc_log_rows(rows, uid, oid);
    &&& base + i <= u64::MAX
    &&& logs[i].0 == log_key(uid, oid, (base + i) as u64)
    &&& logs[i].1.len() <= u64::MAX
}

/// Shape of one document's rows: the snapshot value carries its base and a
/// valid frame stream, and the log keys hold consecutive sequence numbers
/// starting at the base.
pub open spec fn doc_wf(rows: RowSeq, uid: u64, oid: Seq<u8>) -> bool {
    &&& match doc_snapshot_value(rows, uid, oid) {
        None => true,
        Some(v) => v.len() >= 8 && valid_frames(v.skip(8)),
    }
    &&& forall|i: int|
        0 <= i < doc_log_len(rows, uid, oid) ==> #[trigger] log_row_ok(rows, uid, oid, i)
}

/// Every document in the store is well shaped.
pub open spec fn store_wf(rows: RowSeq) -> bool {
    &&& keys_sorted(rows)
    &&& forall|uid: u64, oid: Seq<u8>| oid_fits(oid) ==> #[trigger] doc_wf(rows, uid, oid)
}

/// Two documents are the same.
pub open spec fn same_doc(u1: u64, o1: Seq<u8>, u2: u64, o2: Seq<u8>) -> bool {
    u1 == u2 && o1 == o2
}

/// An empty store satisfies every document's shape.
pub proof fn lemma_store_wf_empty()
    ensures
        store_wf(Seq::<(Seq<u8>, Seq<u8>)>::empty()),
{
    let rows = Seq::<(Seq<u8>, Seq<u8>)>::empty();
    assert forall|uid: u64, oid: Seq<u8>| oid_fits(oid) implies #[trigger] doc_wf(
        rows,
        uid,
        oid,
    ) by {
        assert(doc_log_rows(rows, uid, oid) =~= rows);
        assert(kv_lookup(rows, snapshot_key(uid, oid)) is None);
    }
}

/// The frame-stream part of the snapshot value: what the snapshot has
/// consolidated, before decoding.
pub open spec fn snap_tail(rows: RowSeq, uid: u64, oid: Seq<u8>) -> Seq<u8> {
    match doc_snapshot_value(rows, uid, oid) {
        None => Seq::empty(),
        Some(v) => v.skip(8),
    }
}

/// The whole store after one document's log is folded into its snapshot:
/// an empty log leaves the store untouched; otherwise the new snapshot row
/// records the next sequence number and carries the old frame stream
/// followed by one frame per pending payload, and exactly the folded log
/// rows are gone.
pub open spec fn compacted_rows(rows: RowSeq, uid: u64, oid: Seq<u8>) -> RowSeq {
    if doc_log_len(rows, uid, oid) == 0 {
        rows
    } else {
        rows_without_prefix(
            kv_insert(
                rows,
                snapshot_key(uid, oid),
                u64_be(doc_next_seq(rows, uid, oid) as u64) + snap_tail(rows, uid, oid)
                    + frames_enc(doc_log_payloads(rows, uid, oid)),
            ),
            log_prefix(uid, oid),
        )
    }
}

/// After compaction the document's pending log is empty.
pub proof fn lemma_compacted_log_empty(rows: RowSeq, uid: u64, oid: Seq<u8>)
    ensures
        doc_log_len(compacted_rows(rows, uid, oid), uid, oid) == 0,
{
    if doc_log_len(rows, uid, oid) == 0 {
        assert(compacted_rows(rows, uid, oid) == rows);
    } else {
        let lpre = log_prefix(uid, oid);
        let ins = kv_insert(
            rows,
            snapshot_key(uid, oid),
            u64_be(doc_next_seq(rows, uid, oid) as u64) + snap_tail(rows, uid, oid) + frames_enc(
                doc_log_payloads(rows, uid, oid),
            ),
        );
        let r2 = rows_without_prefix(ins, lpre);
        lemma_matching_pred(ins, not_prefix_pred(lpre));
        assert forall|t: int|
            0 <= t < r2.len() implies !(has_prefix_pred(lpre)((#[trigger] r2[t]).0)) by {
            assert(not_prefix_pred(lpre)(r2[t].0));
        }
        lemma_matching_none(r2, has_prefix_pred(lpre));
        assert(doc_log_rows(r2, uid, oid) =~= Seq::<(Seq<u8>, Seq<u8>)>::empty());
    }
}

/// Flushing an already-flushed document — no intervening updates, so its
/// log is empty — changes nothing: snapshot, log length and every row stay
/// exactly as they were.  Compaction is idempotent.
pub proof fn lemma_flush_idempotent(rows: RowSeq, uid: u64, oid: Seq<u8>)
    ensures
        compacted_rows(compacted_rows(rows, uid, oid), uid, oid) == compacted_rows(
            rows,
            uid,
            oid,
        ),
{
    lemma_compacted_log_empty(rows, uid, oid);
}

/// Flush never changes the observable state: the replay of snapshot and
/// pending log — the full update sequence a hydration sees — is the same
/// before and after compaction.
pub proof fn lemma_flush_preserves_replay(rows: RowSeq, uid: u64, oid: Seq<u8>)
    requires
        store_wf(rows),
        doc_next_seq(rows, uid, oid) <= u64::MAX,
        oid_fits(oid),
    ensures
        doc_replay(compacted_rows(rows, uid, oid), uid, oid) == doc_replay(rows, uid, oid),
{
    assert(doc_wf(rows, uid, oid));
    lemma_compaction_replay(rows, uid, oid);
}

/// The row-level argument behind [`lemma_flush_preserves_replay`], carried
/// out from one document's shape alone.
proof fn lemma_compaction_replay(rows: RowSeq, uid: u64, oid: Seq<u8>)
    requires
        doc_wf(rows, uid, oid),
        doc_next_seq(rows, uid, oid) <= u64::MAX,
        oid_fits(oid),
    ensures
        doc_replay(compacted_rows(rows, uid, oid), uid, oid) == doc_replay(rows, uid, oid),
{
    if doc_log_len(rows, uid, oid) == 0 {
    } else {
        let k = snapshot_key(uid, oid);
        let lpre = log_prefix(uid, oid);
        let logs = doc_log_rows(rows, uid, oid);
        let pls = doc_log_payloads(rows, uid, oid);
        let tail = snap_tail(rows, uid, oid);
        let nb = doc_next_seq(rows, uid, oid) as u64;
        let valview = u64_be(nb) + tail + frames_enc(pls);
        let ins = kv_insert(rows, k, valview);
        let r2 = rows_without_prefix(ins, lpre);
        assert(r2 == compacted_rows(rows, uid, oid));
        lemma_doc_key_prefixes(uid, oid, 0);
        let npfx = not_prefix_pred(lpre);
        assert(npfx(k));
        lemma_matching_lookup(ins, npfx, k);
        lemma_insert_lookup(rows, k, valview, k);
        assert(doc_snapshot_value(r2, uid, oid) == Some(valview));
        lemma_compacted_log_empty(rows, uid, oid);
        assert(doc_log_len(r2, uid, oid) == 0);
        assert(valid_frames(tail)) by {
            if doc_snapshot_value(rows, uid, oid) is None {
                assert(tail.len() == 0);
            }
        }
        assert(chunks_fit(pls)) by {
            assert forall|t: int| 0 <= t < pls.len() implies #[trigger] pls[t].len()
                <= u64::MAX by {
                assert(log_row_ok(rows, uid, oid, t));
                assert(pls[t] == logs[t].1);
            }
        }
        crate::frames::lemma_consolidated_stream(u64_be(nb), tail, pls);
        assert(valview == u64_be(nb) + tail + frames_enc(pls));
        assert(doc_snapshot_chunks(r2, uid, oid) == frames_of(tail) + pls);
        assert(doc_snapshot_chunks(rows, uid, oid) == frames_of(tail)) by {
            if doc_snapshot_value(rows, uid, oid) is None {
                assert(tail.len() == 0);
                assert(frames_of(tail) =~= Seq::<Seq<u8>>::empty());
                assert(doc_snapshot_chunks(rows, uid, oid) =~= frames_of(tail));
            }
        }
        assert(doc_log_payloads(r2, uid, oid) =~= Seq::<Seq<u8>>::empty());
        assert(doc_replay(r2, uid, oid) =~= doc_replay(rows, uid, oid));
    }
}

/// Inserting a row keyed outside another document leaves that document's
/// view untouched.
proof fn lemma_other_doc_insert(rows: RowSeq, k: Seq<u8>, v: Seq<u8>, u2: u64, o2: Seq<u8>)
    requires
        !is_prefix_of(log_prefix(u2, o2), k),
        k != snapshot_key(u2, o2),
    ensures
        doc_log_rows(kv_insert(rows, k, v), u2, o2) == doc_log_rows(rows, u2, o2),
        doc_snapshot_value(kv_insert(rows, k, v), u2, o2) == doc_snapshot_value(rows, u2, o2),
{
    let p = has_prefix_pred(log_prefix(u2, o2));
    assert(!p(k));
    lemma_insert_matching_same(rows, k, v, p);
    lemma_insert_lookup(rows, k, v, snapshot_key(u2, o2));
}

/// Removing a key range that cannot hold another document's rows leaves that
/// document's view untouched.
proof fn lemma_other_doc_remove_prefix(rows: RowSeq, pfx: Seq<u8>, u2: u64, o2: Seq<u8>)
    requires
        forall|x: Seq<u8>| is_prefix_of(log_prefix(u2, o2), x) ==> !(#[trigger] is_prefix_of(
            pfx,
            x,
        )),
        !is_prefix_of(pfx, snapshot_key(u2, o2)),
    ensures
        doc_log_rows(rows_without_prefix(rows, pfx), u2, o2) == doc_log_rows(rows, u2, o2),
        doc_snapshot_value(rows_without_prefix(rows, pfx), u2, o2) == doc_snapshot_value(
            rows,
            u2,
            o2,
        ),
{
    let p = not_prefix_pred(pfx);
    let q = has_prefix_pred(log_prefix(u2, o2));
    assert(forall|x: Seq<u8>| #[trigger] q(x) ==> p(x));
    lemma_matching_nested(rows, p, q);
    assert(p(snapshot_key(u2, o2)));
    lemma_matching_lookup(rows, p, snapshot_key(u2, o2));
}

/// No key can carry two distinct documents' log prefixes, and one document's
/// keys never fall inside another document's prefix range.
proof fn lemma_doc_ranges_disjoint(u1: u64, o1: Seq<u8>, u2: u64, o2: Seq<u8>)
    requires
        oid_fits(o1),
        oid_fits(o2),
        !same_doc(u1, o1, u2, o2),
    ensures
        forall|x: Seq<u8>| is_prefix_of(log_prefix(u2, o2), x) ==> !(#[trigger] is_prefix_of(
            doc_prefix(u1, o1),
            x,
        )),
        forall|x: Seq<u8>| is_prefix_of(log_prefix(u2, o2), x) ==> !(#[trigger] is_prefix_of(
            log_prefix(u1, o1),
            x,
        )),
        !is_prefix_of(doc_prefix(u1, o1), snapshot_key(u2, o2)),
        !is_prefix_of(log_prefix(u1, o1), snapshot_key(u2, o2)),
        !is_prefix_of(log_prefix(u1, o1), log_key(u2, o2, 0)),
{
    lemma_doc_key_prefixes(u1, o1, 0);
    lemma_doc_key_prefixes(u2, o2, 0);
    assert forall|x: Seq<u8>| is_prefix_of(log_prefix(u2, o2), x) implies !(
    #[trigger] is_prefix_of(doc_prefix(u1, o1), x)) by {
        if is_prefix_of(doc_prefix(u1, o1), x) {
            lemma_log_prefix_owner(u2, o2, u1, o1, x);
        }
    }
    assert forall|x: Seq<u8>| is_prefix_of(log_prefix(u2, o2), x) implies !(
    #[trigger] is_prefix_of(log_prefix(u1, o1), x)) by {
        if is_prefix_of(log_prefix(u1, o1), x) {
            crate::bytekey::lemma_prefix_trans(doc_prefix(u1, o1), log_prefix(u1, o1), x);
            lemma_log_prefix_owner(u2, o2, u1, o1, x);
        }
    }
    if is_prefix_of(doc_prefix(u1, o1), snapshot_key(u2, o2)) {
        lemma_doc_prefix_unique(u1, o1, u2, o2, snapshot_key(u2, o2));
    }
    if is_prefix_of(log_prefix(u1, o1), snapshot_key(u2, o2)) {
        crate::bytekey::lemma_prefix_trans(
            doc_prefix(u1, o1),
            log_prefix(u1, o1),
            snapshot_key(u2, o2),
        );
        lemma_doc_prefix_unique(u1, o1, u2, o2, snapshot_key(u2, o2));
    }
    if is_prefix_of(log_prefix(u1, o1), log_key(u2, o2, 0)) {
        lemma_log_prefix_owner(u1, o1, u2, o2, log_key(u2, o2, 0));
    }
}

/// A document's shape depends only on its own rows: equal views give equal
/// well-formedness.
proof fn lemma_doc_wf_same_views(rows1: RowSeq, rows2: RowSeq, uid: u64, oid: Seq<u8>)
    requires
        doc_wf(rows1, uid, oid),
        doc_log_rows(rows2, uid, oid) == doc_log_rows(rows1, uid, oid),
        doc_snapshot_value(rows2, uid, oid) == doc_snapshot_value(rows1, uid, oid),
    ensures
        doc_wf(rows2, uid, oid),
{
    assert(doc_base(rows2, uid, oid) == doc_base(rows1, uid, oid));
    assert forall|i: int| 0 <= i < doc_log_len(rows2, uid, oid) implies #[trigger] log_row_ok(
        rows2,
        uid,
        oid,
        i,
    ) by {
        assert(log_row_ok(rows1, uid, oid, i));
    }
}

/// The distinct documents that own at least one row, in order of their
/// first row in the key space, each listed once.
pub open spec fn doc_list(rows: RowSeq) -> Seq<(u64, Seq<u8>)>
    decreases rows.len(),
{
    if rows.len() == 0 {
        Seq::empty()
    } else {
        let rest = doc_list(rows.drop_last());
        match parse_doc_key(rows.last().0) {
            None => rest,
            Some(d) => if rest.contains(d) {
                rest
            } else {
                rest.push(d)
            },
        }
    }
}

/// The document list never repeats an entry.
pub proof fn lemma_doc_list_distinct(rows: RowSeq)
    ensures
        forall|i: int, j: int|
            0 <= i < j < doc_list(rows).len() ==> doc_list(rows)[i] != doc_list(rows)[j],
    decreases rows.len(),
{
    if rows.len() > 0 {
        lemma_doc_list_distinct(rows.drop_last());
        let rest = doc_list(rows.drop_last());
        let l = doc_list(rows);
        assert forall|i: int, j: int| 0 <= i < j < l.len() implies l[i] != l[j] by {
            if j < rest.len() {
                assert(rest[i] != rest[j]);
            } else {
                match parse_doc_key(rows.last().0) {
                    None => {
                        assert(rest[i] != rest[j]);
                    },
                    Some(d) => {
                        if rest.contains(d) {
                            assert(rest[i] != rest[j]);
                        } else {
                            assert(l[j] == d);
                            assert(l[i] == rest[i]);
                            assert(!rest.contains(d));
                        }
                    },
                }
            }
        }
    }
}

/// An entry is listed exactly when some row's key parses to it.
pub proof fn lemma_doc_list_complete(rows: RowSeq)
    ensures
        forall|i: int|
            0 <= i < rows.len() && parse_doc_key((#[trigger] rows[i]).0) is Some ==> doc_list(
                rows,
            ).contains(parse_doc_key(rows[i].0)->Some_0),
        forall|d: (u64, Seq<u8>)|
            doc_list(rows).contains(d) ==> exists|i: int|
                0 <= i < rows.len() && parse_doc_key((#[trigger] rows[i]).0) == Some(d),
    decreases rows.len(),
{
    if rows.len() > 0 {
        lemma_doc_list_complete(rows.drop_last());
        let rest = doc_list(rows.drop_last());
        let l = doc_list(rows);
        assert forall|i: int|
            0 <= i < rows.len() && parse_doc_key((#[trigger] rows[i]).0) is Some implies l.contains(
            parse_doc_key(rows[i].0)->Some_0,
        ) by {
            if i < rows.len() - 1 {
                assert(rows.drop_last()[i] == rows[i]);
                let d = parse_doc_key(rows[i].0)->Some_0;
                assert(rest.contains(d));
                let t = choose|t: int| 0 <= t < rest.len() && rest[t] == d;
                assert(l[t] == d);
            } else {
                let d = parse_doc_key(rows[i].0)->Some_0;
                if rest.contains(d) {
                    let t = choose|t: int| 0 <= t < rest.len() && rest[t] == d;
                    assert(l[t] == d);
                } else {
                    assert(l[l.len() - 1] == d);
                }
            }
        }
        assert forall|d: (u64, Seq<u8>)| l.contains(d) implies exists|i: int|
            0 <= i < rows.len() && parse_doc_key((#[trigger] rows[i]).0) == Some(d) by {
            let t = choose|t: int| 0 <= t < l.len() && l[t] == d;
            if t < rest.len() && rest[t] == d {
                assert(rest.contains(d));
                let i = choose|i: int|
                    0 <= i < rows.drop_last().len() && parse_doc_key(
                        (#[trigger] rows.drop_last()[i]).0,
                    ) == Some(d);
                assert(parse_doc_key(rows[i].0) == Some(d));
            } else {
                assert(parse_doc_key(rows[rows.len() - 1].0) == Some(d));
            }
        }
    }
}

/// The persistent home of every document of one store instance.
pub struct DocStore {
    kv: KvStore,
}

impl View for DocStore {
    type V = RowSeq;

    closed spec fn view(&self) -> RowSeq {
        self.kv@
    }
}

impl DocStore {
    /// The store invariant: sorted keys and well-shaped documents.
    pub closed spec fn wf(self) -> bool {
        &&& self.kv.wf()
        &&& store_wf(self@)
    }

    /// What the store invariant says of the visible rows.
    pub proof fn lemma_wf_rows(self)
        requires
            self.wf(),
        ensures
            store_wf(self@),
            keys_sorted(self@),
    {
    }

    /// A fresh store holding no document.
    pub fn new() -> (s: Self)
        ensures
            s.wf(),
            s@ == Seq::<(Seq<u8>, Seq<u8>)>::empty(),
    {
        let kv = KvStore::new();
        proof {
            lemma_store_wf_empty();
        }
        DocStore { kv }
    }

    /// How many rows of any kind the store holds.
    pub fn row_count(&self) -> (n: usize)
        ensures
            n == self@.len(),
    {
        self.kv.row_count()
    }

    /// The number of unflushed log rows of the document.
    pub fn count_pending_updates(&self, uid: u64, oid: &[u8]) -> (n: usize)
        requires
            self.wf(),
        ensures
            n == doc_log_len(self@, uid, oid@),
    {
        let lp = log_prefix_bytes(uid, oid);
        let rows = self.kv.scan_prefix(lp.as_slice());
        proof {
            assert(rows@.map_values(|r: (Vec<u8>, Vec<u8>)| (r.0@, r.1@)).len() == rows@.len());
        }
        rows.len()
    }

    /// The pending log of the document: `(sequence, payload)` pairs in
    /// strictly ascending, gap-free sequence order — the order the payloads
    /// were appended in.
    pub fn read_log(&self, uid: u64, oid: &[u8]) -> (out: Vec<(u64, Vec<u8>)>)
        requires
            self.wf(),
        ensures
            out@.len() == doc_log_len(self@, uid, oid@),
            forall|i: int|
                0 <= i < out@.len() ==> (#[trigger] out@[i]).0 == doc_base(self@, uid, oid@) + i
                    && out@[i].1@ == doc_log_payloads(self@, uid, oid@)[i],
            forall|i: int, j: int| 0 <= i < j < out@.len() ==> out@[i].0 < out@[j].0,
    {
        let ghost rows = self@;
        let ghost logs = doc_log_rows(rows, uid, oid@);
        check_oid_fits(oid);
        proof {
            assert(doc_wf(rows, uid, oid@));
        }
        let lp = log_prefix_bytes(uid, oid);
        let scanned = self.kv.scan_prefix(lp.as_slice());
        let ghost scanned_view = scanned@.map_values(|r: (Vec<u8>, Vec<u8>)| (r.0@, r.1@));
        proof {
            assert(scanned_view == logs);
            assert(scanned_view.len() == scanned@.len());
        }
        let base = self.doc_base_exec(uid, oid);
        let mut out: Vec<(u64, Vec<u8>)> = Vec::new();
        let mut i: usize = 0;
        while i < scanned.len()
            invariant
                0 <= i <= scanned@.len(),
                scanned_view == scanned@.map_values(|r: (Vec<u8>, Vec<u8>)| (r.0@, r.1@)),
                scanned_view == logs,
                logs == doc_log_rows(self@, uid, oid@),
                base == doc_base(self@, uid, oid@),
                doc_wf(self@, uid, oid@),
                out@.len() == i,
                forall|j: int|
                    0 <= j < i ==> (#[trigger] out@[j]).0 == base + j && out@[j].1@ == logs[j].1,
            decreases scanned@.len() - i,
        {
            proof {
                assert(scanned_view[i as int] == (scanned@[i as int].0@, scanned@[i as int].1@));
                assert(log_row_ok(self@, uid, oid@, i as int));
                assert(logs[i as int].0 == log_key(uid, oid@, (base + i) as u64));
            }
            let key = &scanned[i].0;
            assert(key@.len() == log_prefix(uid, oid@).len() + 8);
            let s = read_u64_be(key.as_slice(), key.len() - 8);
            proof {
                let n = log_prefix(uid, oid@).len() as int;
                assert(key@.subrange(n, n + 8) =~= u64_be((base + i) as u64)) by {
                    assert(forall|t: int|
                        0 <= t < 8 ==> #[trigger] u64_be((base + i) as u64)[t] == (log_prefix(
                            uid,
                            oid@,
                        ) + u64_be((base + i) as u64))[n + t]);
                }
                crate::bytekey::lemma_u64_be_roundtrip((base + i) as u64);
            }
            let payload = crate::kv::bytes_of(scanned[i].1.as_slice());
            out.push((s, payload));
            i += 1;
        }
        proof {
            assert(doc_log_payloads(self@, uid, oid@) == logs.map_values(
                |r: (Seq<u8>, Seq<u8>)| r.1,
            ));
        }
        out
    }

    /// The pending log with each payload decoded as a document assignment:
    /// `(sequence, key, value)` triples in append order.  One payload that is
    /// no well-formed assignment fails the whole read with a decode error —
    /// nothing is silently dropped.
    pub fn read_log_decoded(&self, uid: u64, oid: &[u8]) -> (r: Result<
        Vec<(u64, Vec<u8>, Vec<u8>)>,
        PersistError,
    >)
        requires
            self.wf(),
        ensures
            match r {
                Ok(es) => es@.len() == doc_log_len(self@, uid, oid@) && forall|i: int|
                    0 <= i < es@.len() ==> (#[trigger] es@[i]).0 == doc_base(self@, uid, oid@) + i
                        && crate::memdoc::entry_dec(doc_log_payloads(self@, uid, oid@)[i])
                        == Some((es@[i].1@, es@[i].2@)),
                Err(e) => e == PersistError::DecodeError && exists|i: int|
                    0 <= i < doc_log_len(self@, uid, oid@) && crate::memdoc::entry_dec(
                        #[trigger] doc_log_payloads(self@, uid, oid@)[i],
                    ) is None,
            },
    {
        let raw = self.read_log(uid, oid);
        let mut out: Vec<(u64, Vec<u8>, Vec<u8>)> = Vec::new();
        let mut i: usize = 0;
        while i < raw.len()
            invariant
                0 <= i <= raw@.len(),
                self.wf(),
                raw@.len() == doc_log_len(self@, uid, oid@),
                forall|j: int|
                    0 <= j < raw@.len() ==> (#[trigger] raw@[j]).0 == doc_base(self@, uid, oid@)
                        + j && raw@[j].1@ == doc_log_payloads(self@, uid, oid@)[j],
                out@.len() == i,
                forall|j: int|
                    0 <= j < i ==> (#[trigger] out@[j]).0 == doc_base(self@, uid, oid@) + j
                        && crate::memdoc::entry_dec(doc_log_payloads(self@, uid, oid@)[j])
                        == Some((out@[j].1@, out@[j].2@)),
            decreases raw@.len() - i,
        {
            match crate::memdoc::MemDoc::parse_entry(raw[i].1.as_slice()) {
                None => {
                    return Err(PersistError::DecodeError);
                },
                Some(e) => {
                    out.push((raw[i].0, e.0, e.1));
                },
            }
            i += 1;
        }
        Ok(out)
    }

    /// The base sequence number of the pending log, read off the snapshot.
    fn doc_base_exec(&self, uid: u64, oid: &[u8]) -> (base: u64)
        requires
            self.wf(),
        ensures
            base == doc_base(self@, uid, oid@),
    {
        check_oid_fits(oid);
        proof {
            assert(doc_wf(self@, uid, oid@));
        }
        let sk = snapshot_key_bytes(uid, oid);
        match self.kv.get(sk.as_slice()) {
            None => 0,
            Some(v) => {
                assert(v@.len() >= 8);
                let b = read_u64_be(v.as_slice(), 0);
                assert(v@.subrange(0, 8) =~= v@.take(8));
                b
            },
        }
    }

    /// Create the document: write its empty snapshot row, so that it is
    /// listed, unless it already owns rows — then nothing changes.  Either
    /// way the replay stays what it was and sequence numbering is untouched.
    pub fn create(&mut self, uid: u64, oid: &[u8])
        requires
            old(self).wf(),
        ensures
            final(self).wf(),
            doc_present(final(self)@, uid, oid@),
            doc_present(old(self)@, uid, oid@) ==> final(self)@ == old(self)@,
            doc_replay(final(self)@, uid, oid@) == doc_replay(old(self)@, uid, oid@),
            doc_next_seq(final(self)@, uid, oid@) == doc_next_seq(old(self)@, uid, oid@),
            doc_log_rows(final(self)@, uid, oid@) == doc_log_rows(old(self)@, uid, oid@),
            forall|u2: u64, o2: Seq<u8>|
                oid_fits(o2) && !same_doc(uid, oid@, u2, o2) ==> doc_log_rows(final(self)@, u2, o2)
                    == doc_log_rows(old(self)@, u2, o2) && doc_snapshot_value(
                    final(self)@,
                    u2,
                    o2,
                ) == doc_snapshot_value(old(self)@, u2, o2),
    {
        check_oid_fits(oid);
        proof {
            assert(doc_wf(self@, uid, oid@));
        }
        let ghost rows = self@;
        let sk = snapshot_key_bytes(uid, oid);
        let present = match self.kv.get(sk.as_slice()) {
            Some(_) => true,
            None => self.count_pending_updates(uid, oid) > 0,
        };
        if present {
            return ;
        }
        let mut val: Vec<u8> = Vec::new();
        crate::bytekey::push_u64_be(&mut val, 0);
        assert(val@ =~= u64_be(0));
        let mut txn = WriteTxn::new();
        txn.put(sk, val);
        let ghost theop = txn@[0];
        let ghost ops = txn@;
        self.kv.commit(txn);
        proof {
            let k = snapshot_key(uid, oid@);
            let rows2 = self@;
            assert(ops.drop_last() =~= Seq::<crate::kv::KvOp>::empty());
            assert(apply_ops(rows, Seq::<crate::kv::KvOp>::empty()) == rows);
            assert(ops.last() == theop);
            assert(rows2 == apply_op(rows, theop));
            assert(rows2 == kv_insert(rows, k, u64_be(0)));
            lemma_insert_lookup(rows, k, u64_be(0), k);
            assert(doc_snapshot_value(rows2, uid, oid@) == Some(u64_be(0)));
            lemma_doc_key_prefixes(uid, oid@, 0);
            lemma_insert_matching_same(rows, k, u64_be(0), has_prefix_pred(log_prefix(uid, oid@)));
            assert(doc_log_rows(rows2, uid, oid@) == doc_log_rows(rows, uid, oid@));
            crate::bytekey::lemma_u64_be_roundtrip(0);
            assert(u64_be(0).take(8) =~= u64_be(0));
            assert(doc_base(rows2, uid, oid@) == 0);
            assert(doc_base(rows, uid, oid@) == 0);
            assert(u64_be(0).skip(8) =~= Seq::<u8>::empty());
            assert(doc_snapshot_chunks(rows2, uid, oid@) =~= Seq::<Seq<u8>>::empty());
            assert(doc_snapshot_chunks(rows, uid, oid@) =~= Seq::<Seq<u8>>::empty());
            assert(doc_replay(rows2, uid, oid@) == doc_replay(rows, uid, oid@));
            assert forall|u2: u64, o2: Seq<u8>|
                oid_fits(o2) && !same_doc(uid, oid@, u2, o2) implies doc_log_rows(rows2, u2, o2)
                == doc_log_rows(rows, u2, o2) && doc_snapshot_value(rows2, u2, o2)
                == doc_snapshot_value(rows, u2, o2) by {
                lemma_doc_ranges_disjoint(u2, o2, uid, oid@);
                lemma_key_distinct(u2, o2, uid, oid@, 0, 0);
                lemma_other_doc_insert(rows, k, u64_be(0), u2, o2);
            }
            assert forall|u2: u64, o2: Seq<u8>| oid_fits(o2) implies #[trigger] doc_wf(
                rows2,
                u2,
                o2,
            ) by {
                assert(doc_wf(rows, u2, o2));
                if same_doc(uid, oid@, u2, o2) {
                    assert(valid_frames(u64_be(0).skip(8)));
                } else {
                    lemma_doc_wf_same_views(rows, rows2, u2, o2);
                }
            }
        }
    }

    /// Append one opaque update payload to the document's log.  The payload
    /// receives the next sequence number; appends on one document are
    /// strictly ordered and gap-free, and no other document moves.
    pub fn append_update(&mut self, uid: u64, oid: &[u8], payload: &[u8]) -> (seqno: u64)
        requires
            old(self).wf(),
            doc_next_seq(old(self)@, uid, oid@) <= u64::MAX,
        ensures
            final(self).wf(),
            seqno == doc_next_seq(old(self)@, uid, oid@),
            doc_log_rows(final(self)@, uid, oid@) == doc_log_rows(old(self)@, uid, oid@).push(
                (log_key(uid, oid@, seqno), payload@),
            ),
            doc_log_payloads(final(self)@, uid, oid@) == doc_log_payloads(
                old(self)@,
                uid,
                oid@,
            ).push(payload@),
            doc_snapshot_value(final(self)@, uid, oid@) == doc_snapshot_value(
                old(self)@,
                uid,
                oid@,
            ),
            doc_next_seq(final(self)@, uid, oid@) == doc_next_seq(old(self)@, uid, oid@) + 1,
            doc_replay(final(self)@, uid, oid@) == doc_replay(old(self)@, uid, oid@).push(
                payload@,
            ),
            forall|u2: u64, o2: Seq<u8>|
                oid_fits(o2) && !same_doc(uid, oid@, u2, o2) ==> doc_log_rows(final(self)@, u2, o2)
                    == doc_log_rows(old(self)@, u2, o2) && doc_snapshot_value(
                    final(self)@,
                    u2,
                    o2,
                ) == doc_snapshot_value(old(self)@, u2, o2),
    {
        check_oid_fits(oid);
        proof {
            assert(doc_wf(self@, uid, oid@));
        }
        let ghost rows = self@;
        let ghost logs = doc_log_rows(rows, uid, oid@);
        let base = self.doc_base_exec(uid, oid);
        let count = self.count_pending_updates(uid, oid);
        let seqno = base + (count as u64);
        let key = log_key_bytes(uid, oid, seqno);
        let ghost k = log_key(uid, oid@, seqno);
        let val = crate::kv::bytes_of(payload);
        let plen = payload.len();
        assert(payload@.len() == plen);
        let mut txn = WriteTxn::new();
        txn.put(key, val);
        let ghost theop = txn@[0];
        let ghost ops = txn@;
        self.kv.commit(txn);
        proof {
            let rows2 = self@;
            assert(ops.drop_last() =~= Seq::<crate::kv::KvOp>::empty());
            assert(apply_ops(rows, Seq::<crate::kv::KvOp>::empty()) == rows);
            assert(ops.last() == theop);
            assert(rows2 == apply_op(rows, theop));
            assert(rows2 == kv_insert(rows, k, payload@));
            lemma_doc_key_prefixes(uid, oid@, seqno);
            let p = has_prefix_pred(log_prefix(uid, oid@));
            assert(p(k));
            assert forall|i: int|
                0 <= i < rows.len() && p((#[trigger] rows[i]).0) implies lex_lt(
                rows[i].0,
                k,
            ) by {
                lemma_matching_contains(rows, p, i);
                let j = choose|j: int| 0 <= j < logs.len() && logs[j] == rows[i];
                assert(log_row_ok(rows, uid, oid@, j));
                assert(logs[j].0 == log_key(uid, oid@, (base + j) as u64));
                lemma_log_key_order(uid, oid@, (base + j) as u64, seqno);
            }
            lemma_insert_matching_push(rows, k, payload@, p);
            assert(doc_log_rows(rows2, uid, oid@) == logs.push((k, payload@)));
            lemma_key_distinct(uid, oid@, uid, oid@, seqno, seqno);
            lemma_insert_lookup(rows, k, payload@, snapshot_key(uid, oid@));
            assert(doc_snapshot_value(rows2, uid, oid@) == doc_snapshot_value(rows, uid, oid@));
            assert(doc_log_payloads(rows2, uid, oid@) =~= doc_log_payloads(rows, uid, oid@).push(
                payload@,
            ));
            assert(doc_replay(rows2, uid, oid@) =~= doc_replay(rows, uid, oid@).push(payload@));
            assert forall|u2: u64, o2: Seq<u8>|
                oid_fits(o2) && !same_doc(uid, oid@, u2, o2) implies doc_log_rows(rows2, u2, o2)
                == doc_log_rows(rows, u2, o2) && doc_snapshot_value(rows2, u2, o2)
                == doc_snapshot_value(rows, u2, o2) by {
                lemma_doc_ranges_disjoint(u2, o2, uid, oid@);
                lemma_key_distinct(u2, o2, uid, oid@, 0, seqno);
                assert(!is_prefix_of(log_prefix(u2, o2), k));
                lemma_other_doc_insert(rows, k, payload@, u2, o2);
            }
            assert forall|u2: u64, o2: Seq<u8>| oid_fits(o2) implies #[trigger] doc_wf(
                rows2,
                u2,
                o2,
            ) by {
                assert(doc_wf(rows, u2, o2));
                if same_doc(uid, oid@, u2, o2) {
                    let logs2 = doc_log_rows(rows2, uid, oid@);
                    let b2 = doc_base(rows2, uid, oid@) as int;
                    assert(b2 == base);
                    assert forall|i: int| 0 <= i < doc_log_len(rows2, uid, oid@) implies
                        #[trigger] log_row_ok(rows2, uid, oid@, i) by {
                        if i < logs.len() {
                            assert(log_row_ok(rows, uid, oid@, i));
                            assert(logs2[i] == logs[i]);
                        } else {
                            assert(logs2[i] == (k, payload@));
                            assert(payload@.len() <= u64::MAX);
                        }
                    }
                } else {
                    lemma_doc_wf_same_views(rows, rows2, u2, o2);
                }
            }
        }
        seqno
    }

    /// Fold the pending log into the snapshot: one write transaction puts
    /// the new consolidated snapshot row and deletes exactly the folded log
    /// rows, committing both together.  The replay — the observable document
    /// state — never changes, sequence numbering continues where it was, and
    /// a flush of an empty log leaves the store untouched.
    pub fn flush(&mut self, uid: u64, oid: &[u8])
        requires
            old(self).wf(),
            doc_next_seq(old(self)@, uid, oid@) <= u64::MAX,
        ensures
            final(self).wf(),
            final(self)@ == compacted_rows(old(self)@, uid, oid@),
            doc_log_len(old(self)@, uid, oid@) == 0 ==> final(self)@ == old(self)@,
            doc_log_len(final(self)@, uid, oid@) == 0,
            doc_replay(final(self)@, uid, oid@) == doc_replay(old(self)@, uid, oid@),
            doc_next_seq(final(self)@, uid, oid@) == doc_next_seq(old(self)@, uid, oid@),
            doc_log_len(old(self)@, uid, oid@) > 0 ==> doc_snapshot_value(final(self)@, uid, oid@)
                == Some(
                u64_be(doc_next_seq(old(self)@, uid, oid@) as u64) + snap_tail(
                    old(self)@,
                    uid,
                    oid@,
                ) + frames_enc(doc_log_payloads(old(self)@, uid, oid@)),
            ),
            forall|u2: u64, o2: Seq<u8>|
                oid_fits(o2) && !same_doc(uid, oid@, u2, o2) ==> doc_log_rows(final(self)@, u2, o2)
                    == doc_log_rows(old(self)@, u2, o2) && doc_snapshot_value(
                    final(self)@,
                    u2,
                    o2,
                ) == doc_snapshot_value(old(self)@, u2, o2),
    {
        check_oid_fits(oid);
        proof {
            assert(doc_wf(self@, uid, oid@));
        }
        let ghost rows = self@;
        let ghost logs = doc_log_rows(rows, uid, oid@);
        let ghost pls = doc_log_payloads(rows, uid, oid@);
        let ghost tail = snap_tail(rows, uid, oid@);
        let lp = log_prefix_bytes(uid, oid);
        let scanned = self.kv.scan_prefix(lp.as_slice());
        let ghost scanned_view = scanned@.map_values(|r: (Vec<u8>, Vec<u8>)| (r.0@, r.1@));
        proof {
            assert(scanned_view == logs);
            assert(scanned_view.len() == scanned@.len());
        }
        if scanned.len() == 0 {
            return ;
        }
        let base = self.doc_base_exec(uid, oid);
        let nb = base + (scanned.len() as u64);
        let mut val: Vec<u8> = Vec::new();
        crate::bytekey::push_u64_be(&mut val, nb);
        let sk = snapshot_key_bytes(uid, oid);
        match self.kv.get(sk.as_slice()) {
            None => {
                assert(tail =~= Seq::<u8>::empty());
                assert(val@ =~= u64_be(nb) + tail);
            },
            Some(v) => {
                assert(doc_snapshot_value(rows, uid, oid@) == Some(v@));
                assert(v@.len() >= 8);
                let vlen = v.len();
                let mut j: usize = 8;
                while j < vlen
                    invariant
                        8 <= j <= v@.len(),
                        vlen == v@.len(),
                        val@ == u64_be(nb) + v@.subrange(8, j as int),
                    decreases v@.len() - j,
                {
                    val.push(v[j]);
                    assert(val@ =~= u64_be(nb) + v@.subrange(8, j + 1));
                    j += 1;
                }
                assert(v@.subrange(8, v@.len() as int) =~= v@.skip(8));
                assert(val@ == u64_be(nb) + tail);
            },
        }
        let mut i: usize = 0;
        while i < scanned.len()
            invariant
                0 <= i <= scanned@.len(),
                scanned_view == scanned@.map_values(|r: (Vec<u8>, Vec<u8>)| (r.0@, r.1@)),
                scanned_view == logs,
                pls == logs.map_values(|r: (Seq<u8>, Seq<u8>)| r.1),
                val@ == u64_be(nb) + tail + frames_enc(pls.take(i as int)),
            decreases scanned@.len() - i,
        {
            proof {
                assert(scanned_view[i as int] == (scanned@[i as int].0@, scanned@[i as int].1@));
                assert(pls[i as int] == logs[i as int].1);
            }
            append_frame(&mut val, scanned[i].1.as_slice());
            proof {
                lemma_frames_enc_push(pls.take(i as int), pls[i as int]);
                assert(pls.take(i + 1) =~= pls.take(i as int).push(pls[i as int]));
                assert(val@ =~= u64_be(nb) + tail + frames_enc(pls.take(i + 1)));
            }
            i += 1;
        }
        assert(pls.take(pls.len() as int) =~= pls);
        let ghost valview = u64_be(nb) + tail + frames_enc(pls);
        assert(val@ == valview);
        let sk2 = snapshot_key_bytes(uid, oid);
        let mut txn = WriteTxn::new();
        txn.put(sk2, val);
        txn.delete_prefix(lp);
        let ghost ops = txn@;
        self.kv.commit(txn);
        proof {
            let k = snapshot_key(uid, oid@);
            let lpre = log_prefix(uid, oid@);
            let rows1 = kv_insert(rows, k, valview);
            let rows2 = self@;
            assert(ops.len() == 2);
            assert(ops.drop_last().drop_last() =~= Seq::<crate::kv::KvOp>::empty());
            assert(apply_ops(rows, Seq::<crate::kv::KvOp>::empty()) == rows);
            assert(ops.drop_last().last() == ops[0]);
            assert(ops.last() == ops[1]);
            assert(apply_ops(rows, ops.drop_last()) == rows1);
            assert(rows2 == rows_without_prefix(rows1, lpre));
            lemma_doc_key_prefixes(uid, oid@, 0);
            let npfx = not_prefix_pred(lpre);
            assert(npfx(k));
            lemma_matching_lookup(rows1, npfx, k);
            lemma_insert_lookup(rows, k, valview, k);
            assert(doc_snapshot_value(rows2, uid, oid@) == Some(valview));
            lemma_matching_pred(rows1, npfx);
            assert forall|t: int|
                0 <= t < rows2.len() implies !(has_prefix_pred(lpre)((#[trigger] rows2[t]).0)) by {
                assert(npfx(rows2[t].0));
            }
            lemma_matching_none(rows2, has_prefix_pred(lpre));
            assert(doc_log_rows(rows2, uid, oid@) =~= Seq::<(Seq<u8>, Seq<u8>)>::empty());
            assert(doc_log_len(rows2, uid, oid@) == 0);
            assert(valview.take(8) =~= u64_be(nb));
            crate::bytekey::lemma_u64_be_roundtrip(nb);
            assert(doc_base(rows2, uid, oid@) == nb);
            assert(doc_next_seq(rows2, uid, oid@) == doc_next_seq(rows, uid, oid@));
            // the replay is preserved: the new snapshot's frame stream is the
            // old stream followed by one frame per folded payload
            assert(valid_frames(tail)) by {
                if doc_snapshot_value(rows, uid, oid@) is None {
                    assert(tail.len() == 0);
                }
            }
            assert(chunks_fit(pls)) by {
                assert forall|t: int| 0 <= t < pls.len() implies #[trigger] pls[t].len()
                    <= u64::MAX by {
                    assert(log_row_ok(rows, uid, oid@, t));
                    assert(pls[t] == logs[t].1);
                }
            }
            lemma_frames_roundtrip(pls);
            lemma_frames_concat(tail, frames_enc(pls));
            assert(valview.skip(8) =~= tail + frames_enc(pls));
            assert(doc_snapshot_chunks(rows2, uid, oid@) == frames_of(tail) + pls);
            assert(doc_snapshot_chunks(rows, uid, oid@) == frames_of(tail)) by {
                if doc_snapshot_value(rows, uid, oid@) is None {
                    assert(tail.len() == 0);
                    assert(frames_of(tail) =~= Seq::<Seq<u8>>::empty());
                    assert(doc_snapshot_chunks(rows, uid, oid@) =~= frames_of(tail));
                }
            }
            assert(doc_log_payloads(rows2, uid, oid@) =~= Seq::<Seq<u8>>::empty());
            assert(doc_replay(rows2, uid, oid@) =~= doc_replay(rows, uid, oid@));
            assert(rows2 == compacted_rows(rows, uid, oid@));
            assert forall|u2: u64, o2: Seq<u8>|
                oid_fits(o2) && !same_doc(uid, oid@, u2, o2) implies doc_log_rows(rows2, u2, o2)
                == doc_log_rows(rows, u2, o2) && doc_snapshot_value(rows2, u2, o2)
                == doc_snapshot_value(rows, u2, o2) by {
                lemma_doc_ranges_disjoint(uid, oid@, u2, o2);
                lemma_doc_ranges_disjoint(u2, o2, uid, oid@);
                lemma_key_distinct(uid, oid@, u2, o2, 0, 0);
                assert(k != snapshot_key(u2, o2)) by {
                    lemma_key_distinct(u2, o2, uid, oid@, 0, 0);
                }
                lemma_other_doc_insert(rows, k, valview, u2, o2);
                lemma_other_doc_remove_prefix(rows1, lpre, u2, o2);
            }
            assert forall|u2: u64, o2: Seq<u8>| oid_fits(o2) implies #[trigger] doc_wf(
                rows2,
                u2,
                o2,
            ) by {
                assert(doc_wf(rows, u2, o2));
                if same_doc(uid, oid@, u2, o2) {
                    assert(doc_log_len(rows2, uid, oid@) == 0);
                } else {
                    lemma_doc_wf_same_views(rows, rows2, u2, o2);
                }
            }
        }
    }

    /// Remove every row of the document — snapshot and log — in one
    /// transaction.  Afterwards the document is absent, its replay is empty,
    /// sequence numbering restarts at zero, and every other document is
    /// untouched.
    pub fn delete(&mut self, uid: u64, oid: &[u8])
        requires
            old(self).wf(),
        ensures
            final(self).wf(),
            !doc_present(final(self)@, uid, oid@),
            doc_snapshot_value(final(self)@, uid, oid@) is None,
            doc_log_len(final(self)@, uid, oid@) == 0,
            doc_next_seq(final(self)@, uid, oid@) == 0,
            doc_replay(final(self)@, uid, oid@) == Seq::<Seq<u8>>::empty(),
            forall|u2: u64, o2: Seq<u8>|
                oid_fits(o2) && !same_doc(uid, oid@, u2, o2) ==> doc_log_rows(final(self)@, u2, o2)
                    == doc_log_rows(old(self)@, u2, o2) && doc_snapshot_value(
                    final(self)@,
                    u2,
                    o2,
                ) == doc_snapshot_value(old(self)@, u2, o2),
    {
        check_oid_fits(oid);
        proof {
            assert(doc_wf(self@, uid, oid@));
        }
        let ghost rows = self@;
        let dp = doc_prefix_bytes(uid, oid);
        let mut txn = WriteTxn::new();
        txn.delete_prefix(dp);
        let ghost ops = txn@;
        self.kv.commit(txn);
        proof {
            let dpre = doc_prefix(uid, oid@);
            let rows2 = self@;
            assert(ops.drop_last() =~= Seq::<crate::kv::KvOp>::empty());
            assert(apply_ops(rows, Seq::<crate::kv::KvOp>::empty()) == rows);
            assert(ops.last() == ops[0]);
            assert(rows2 == rows_without_prefix(rows, dpre));
            lemma_doc_key_prefixes(uid, oid@, 0);
            let npfx = not_prefix_pred(dpre);
            assert(!npfx(snapshot_key(uid, oid@)));
            lemma_matching_lookup(rows, npfx, snapshot_key(uid, oid@));
            assert(doc_snapshot_value(rows2, uid, oid@) is None);
            lemma_matching_pred(rows, npfx);
            assert forall|t: int|
                0 <= t < rows2.len() implies !(has_prefix_pred(log_prefix(uid, oid@))((
            #[trigger] rows2[t]).0)) by {
                assert(npfx(rows2[t].0));
                if is_prefix_of(log_prefix(uid, oid@), rows2[t].0) {
                    crate::bytekey::lemma_prefix_trans(
                        dpre,
                        log_prefix(uid, oid@),
                        rows2[t].0,
                    );
                }
            }
            lemma_matching_none(rows2, has_prefix_pred(log_prefix(uid, oid@)));
            assert(doc_log_rows(rows2, uid, oid@) =~= Seq::<(Seq<u8>, Seq<u8>)>::empty());
            assert(doc_replay(rows2, uid, oid@) =~= Seq::<Seq<u8>>::empty());
            assert forall|u2: u64, o2: Seq<u8>|
                oid_fits(o2) && !same_doc(uid, oid@, u2, o2) implies doc_log_rows(rows2, u2, o2)
                == doc_log_rows(rows, u2, o2) && doc_snapshot_value(rows2, u2, o2)
                == doc_snapshot_value(rows, u2, o2) by {
                lemma_doc_ranges_disjoint(uid, oid@, u2, o2);
                lemma_doc_ranges_disjoint(u2, o2, uid, oid@);
                assert forall|x: Seq<u8>|
                    is_prefix_of(log_prefix(u2, o2), x) implies !(#[trigger] is_prefix_of(
                    dpre,
                    x,
                )) by {
                    if is_prefix_of(dpre, x) {
                        crate::bytekey::lemma_prefix_trans(
                            doc_prefix(u2, o2),
                            log_prefix(u2, o2),
                            x,
                        );
                        lemma_doc_prefix_unique(uid, oid@, u2, o2, x);
                    }
                }
                assert(!is_prefix_of(dpre, snapshot_key(u2, o2))) by {
                    if is_prefix_of(dpre, snapshot_key(u2, o2)) {
                        lemma_doc_prefix_unique(uid, oid@, u2, o2, snapshot_key(u2, o2));
                    }
                }
                lemma_other_doc_remove_prefix(rows, dpre, u2, o2);
            }
            assert forall|u2: u64, o2: Seq<u8>| oid_fits(o2) implies #[trigger] doc_wf(
                rows2,
                u2,
                o2,
            ) by {
                assert(doc_wf(rows, u2, o2));
                if same_doc(uid, oid@, u2, o2) {
                    assert(doc_log_len(rows2, uid, oid@) == 0);
                } else {
                    lemma_doc_wf_same_views(rows, rows2, u2, o2);
                }
            }
        }
    }

    /// The chunks that reconstruct the document, in replay order: the
    /// snapshot's consolidated chunks, then the pending log payloads.  A
    /// document with no rows replays to nothing.
    pub fn replay_chunks(&self, uid: u64, oid: &[u8]) -> (out: Vec<Vec<u8>>)
        requires
            self.wf(),
        ensures
            out@.map_values(|c: Vec<u8>| c@) == doc_replay(self@, uid, oid@),
    {
        check_oid_fits(oid);
        proof {
            assert(doc_wf(self@, uid, oid@));
        }
        let ghost rows = self@;
        let ghost chunks = doc_snapshot_chunks(rows, uid, oid@);
        let ghost pls = doc_log_payloads(rows, uid, oid@);
        let sk = snapshot_key_bytes(uid, oid);
        let mut out: Vec<Vec<u8>>;
        match self.kv.get(sk.as_slice()) {
            None => {
                out = Vec::new();
                assert(out@.map_values(|c: Vec<u8>| c@) =~= chunks);
            },
            Some(v) => {
                assert(doc_snapshot_value(rows, uid, oid@) == Some(v@));
                assert(v@.len() >= 8 && valid_frames(v@.skip(8)));
                let vlen = v.len();
                let mut t: Vec<u8> = Vec::new();
                let mut j: usize = 8;
                while j < vlen
                    invariant
                        8 <= j <= v@.len(),
                        vlen == v@.len(),
                        t@ == v@.subrange(8, j as int),
                    decreases v@.len() - j,
                {
                    t.push(v[j]);
                    assert(t@ =~= v@.subrange(8, j + 1));
                    j += 1;
                }
                assert(t@ =~= v@.skip(8));
                match decode_frames(t.as_slice()) {
                    Ok(cs) => {
                        out = cs;
                        assert(out@.map_values(|c: Vec<u8>| c@) == chunks);
                    },
                    Err(_) => {
                        assert(false);
                        out = Vec::new();
                    },
                }
            },
        }
        let lp = log_prefix_bytes(uid, oid);
        let scanned = self.kv.scan_prefix(lp.as_slice());
        let ghost scanned_view = scanned@.map_values(|r: (Vec<u8>, Vec<u8>)| (r.0@, r.1@));
        proof {
            assert(scanned_view == doc_log_rows(rows, uid, oid@));
            assert(scanned_view.len() == scanned@.len());
        }
        let mut i: usize = 0;
        while i < scanned.len()
            invariant
                0 <= i <= scanned@.len(),
                scanned_view == scanned@.map_values(|r: (Vec<u8>, Vec<u8>)| (r.0@, r.1@)),
                scanned_view == doc_log_rows(rows, uid, oid@),
                pls == doc_log_payloads(rows, uid, oid@),
                chunks == doc_snapshot_chunks(rows, uid, oid@),
                out@.map_values(|c: Vec<u8>| c@) == chunks + pls.take(i as int),
            decreases scanned@.len() - i,
        {
            let ghost sofar = out@.map_values(|c: Vec<u8>| c@);
            proof {
                assert(scanned_view[i as int] == (scanned@[i as int].0@, scanned@[i as int].1@));
                assert(pls[i as int] == doc_log_rows(rows, uid, oid@)[i as int].1);
            }
            let payload = crate::kv::bytes_of(scanned[i].1.as_slice());
            out.push(payload);
            proof {
                assert(out@.map_values(|c: Vec<u8>| c@) =~= sofar.push(pls[i as int]));
                assert(sofar.push(pls[i as int]) =~= chunks + pls.take(i + 1));
            }
            i += 1;
        }
        proof {
            assert(pls.take(pls.len() as int) =~= pls);
            assert(chunks + pls == doc_replay(rows, uid, oid@));
        }
        out
    }

    /// Every document that owns at least one row — snapshot only, log only,
    /// or both — listed exactly once, without loading any payload.
    pub fn list_documents(&self) -> (out: Vec<(u64, Vec<u8>)>)
        requires
            self.wf(),
        ensures
            out@.map_values(|d: (u64, Vec<u8>)| (d.0, d.1@)) == doc_list(self@),
            forall|i: int, j: int| 0 <= i < j < out@.len() ==> (out@[i].0, out@[i].1@) != (
            out@[j].0, out@[j].1@),
            forall|i: int|
                0 <= i < self@.len() && parse_doc_key((#[trigger] self@[i]).0) is Some
                    ==> doc_list(self@).contains(parse_doc_key(self@[i].0)->Some_0),
            forall|d: (u64, Seq<u8>)|
                doc_list(self@).contains(d) ==> exists|i: int|
                    0 <= i < self@.len() && parse_doc_key((#[trigger] self@[i]).0) == Some(d),
    {
        let ghost rows = self@;
        proof {
            lemma_doc_list_complete(rows);
        }
        let empty: Vec<u8> = Vec::new();
        let all = self.kv.scan_prefix(empty.as_slice());
        let ghost all_view = all@.map_values(|r: (Vec<u8>, Vec<u8>)| (r.0@, r.1@));
        proof {
            let p = has_prefix_pred(Seq::<u8>::empty());
            assert(forall|x: Seq<u8>| #[trigger] p(x) <==> is_prefix_of(Seq::<u8>::empty(), x));
            assert forall|i: int| 0 <= i < rows.len() implies p((#[trigger] rows[i]).0) by {
                assert(rows[i].0.subrange(0, 0) =~= Seq::<u8>::empty());
            }
            crate::kv::lemma_matching_all(rows, p);
            assert(all_view == rows);
            assert(all_view.len() == all@.len());
        }
        let mut out: Vec<(u64, Vec<u8>)> = Vec::new();
        let mut i: usize = 0;
        assert(rows.take(0) =~= Seq::<(Seq<u8>, Seq<u8>)>::empty());
        assert(out@.map_values(|d: (u64, Vec<u8>)| (d.0, d.1@)) =~= doc_list(rows.take(0)));
        while i < all.len()
            invariant
                0 <= i <= all@.len(),
                all_view == all@.map_values(|r: (Vec<u8>, Vec<u8>)| (r.0@, r.1@)),
                all_view == rows,
                out@.map_values(|d: (u64, Vec<u8>)| (d.0, d.1@)) == doc_list(rows.take(i as int)),
            decreases all@.len() - i,
        {
            let ghost sofar = out@.map_values(|d: (u64, Vec<u8>)| (d.0, d.1@));
            proof {
                assert(all_view[i as int] == (all@[i as int].0@, all@[i as int].1@));
                let t = rows.take(i + 1);
                assert(t.drop_last() =~= rows.take(i as int));
                assert(t.last() == rows[i as int]);
            }
            match parse_doc_key_bytes(all[i].0.as_slice()) {
                None => {
                    assert(parse_doc_key(rows[i as int].0) is None);
                },
                Some(d) => {
                    let ghost dd = (d.0, d.1@);
                    assert(parse_doc_key(rows[i as int].0) == Some(dd));
                    let mut found = false;
                    let mut j: usize = 0;
                    let outlen = out.len();
                    while j < outlen
                        invariant
                            0 <= j <= out@.len(),
                            outlen == out@.len(),
                            sofar == out@.map_values(|e: (u64, Vec<u8>)| (e.0, e.1@)),
                            dd == (d.0, d.1@),
                            found <==> exists|t: int|
                                0 <= t < j && (#[trigger] sofar[t]) == dd,
                        decreases out@.len() - j,
                    {
                        assert(sofar[j as int] == (out@[j as int].0, out@[j as int].1@));
                        if out[j].0 == d.0 && crate::bytekey::key_cmp(
                            out[j].1.as_slice(),
                            d.1.as_slice(),
                        ) == 0 {
                            found = true;
                            assert(sofar[j as int] == dd);
                        }
                        j += 1;
                    }
                    assert(found <==> sofar.contains(dd)) by {
                        if sofar.contains(dd) {
                            let t = choose|t: int| 0 <= t < sofar.len() && sofar[t] == dd;
                            assert(0 <= t < outlen && sofar[t] == dd);
                        }
                    }
                    if !found {
                        out.push(d);
                        assert(out@.map_values(|e: (u64, Vec<u8>)| (e.0, e.1@)) =~= sofar.push(
                            dd,
                        ));
                    }
                },
            }
            i += 1;
        }
        assert(rows.take(rows.len() as int) =~= rows);
        proof {
            lemma_doc_list_distinct(rows);
            let outv = out@.map_values(|d: (u64, Vec<u8>)| (d.0, d.1@));
            assert forall|i2: int, j2: int| 0 <= i2 < j2 < out@.len() implies (
            out@[i2].0, out@[i2].1@) != (out@[j2].0, out@[j2].1@) by {
                assert(outv[i2] == (out@[i2].0, out@[i2].1@));
                assert(outv[j2] == (out@[j2].0, out@[j2].1@));
            }
        }
        out
    }

    /// How many distinct documents the store holds.
    pub fn document_count(&self) -> (n: usize)
        requires
            self.wf(),
        ensures
            n == doc_list(self@).len(),
    {
        let docs = self.list_documents();
        proof {
            assert(docs@.map_values(|d: (u64, Vec<u8>)| (d.0, d.1@)).len() == docs@.len());
        }
        docs.len()
    }
}

} // verus!
