//! Persistence adapter: the disk plugin of one live document.
//!
//! A [`DiskPlugin`] attaches to exactly one in-memory document.  On
//! initialization it hydrates the document from the stored snapshot and log;
//! on every local mutation it appends the opaque delta; it exposes flush,
//! close and delete.  The plugin reaches the store only through a
//! [`StoreHandle`], which models the non-owning reference of the design:
//! once the handle is released — the last strong holder of the store is
//! gone — writes are silently dropped and hydration fails explicitly with
//! `StoreUnavailable`.  Closing the plugin deletes and flushes nothing: the
//! stored rows stay exactly as last committed.

use vstd::prelude::*;
use crate::PersistError;
use crate::engine::DocStore;
use crate::engine::doc_log_len;
use crate::engine::doc_log_rows;
use crate::engine::doc_next_seq;
use crate::engine::doc_replay;
use crate::engine::doc_snapshot_value;
use crate::engine::same_doc;
use crate::keyspace::oid_fits;
use crate::kv::RowSeq;
use crate::memdoc::MemDoc;
use crate::memdoc::decode_entries;

verus! {

/// Recognized persistence policy knobs.  A caller that carries options this
/// layer does not know simply has no field to put them in: unrecognized
/// options are ignored, never errors.
pub struct PersistenceConfig {
    /// Fold the log into the snapshot automatically once this many updates
    /// are pending.  `None` leaves flushing entirely to explicit calls.
    pub snapshot_every_n_updates: Option<u64>,
}

impl PersistenceConfig {
    /// The default policy: no automatic flush.
    pub fn new() -> (c: Self)
        ensures
            c.snapshot_every_n_updates is None,
    {
        PersistenceConfig { snapshot_every_n_updates: None }
    }
}

/// A handle standing for the shared, reference-counted store: many adapters
/// hold it, none owns the store's lifetime.  `release` models the drop of
/// the last strong holder; after it every write through the handle is
/// silently dropped and every read fails explicitly.
pub struct StoreHandle {
    store: DocStore,
    released: bool,
}

impl StoreHandle {
    /// Whether the store behind the handle is still alive.
    pub closed spec fn is_available(self) -> bool {
        !self.released
    }

    /// The rows of the store behind the handle.
    pub closed spec fn rows(self) -> RowSeq {
        self.store@
    }

    /// The store behind the handle keeps its invariant.
    pub closed spec fn wf(self) -> bool {
        self.store.wf()
    }

    /// Wrap a store in a live handle.
    pub fn new(store: DocStore) -> (h: Self)
        requires
            store.wf(),
        ensures
            h.wf(),
            h.is_available(),
            h.rows() == store@,
    {
        StoreHandle { store, released: false }
    }

    /// Drop the last strong holder of the store: whatever is stored stays
    /// committed, but no adapter can reach it any more.
    pub fn release(&mut self)
        ensures
            final(self).wf() == old(self).wf(),
            !final(self).is_available(),
            final(self).rows() == old(self).rows(),
    {
        self.released = true;
    }

    /// Whether the store is still reachable.
    pub fn available(&self) -> (b: bool)
        ensures
            b == self.is_available(),
    {
        !self.released
    }

    /// Read access to the store behind the handle.
    pub fn store_ref(&self) -> (s: &DocStore)
        requires
            self.is_available(),
        ensures
            s@ == self.rows(),
            self.wf() ==> s.wf(),
    {
        &self.store
    }
}

/// The persistence adapter of one document: it mirrors that document's
/// mutations into the store and hydrates new sessions from what is stored.
pub struct DiskPlugin {
    uid: u64,
    object_id: Vec<u8>,
    attached: bool,
    config: PersistenceConfig,
}

impl DiskPlugin {
    /// The owner id this plugin persists under.
    pub closed spec fn uid_of(self) -> u64 {
        self.uid
    }

    /// The object id this plugin persists under.
    pub closed spec fn object_of(self) -> Seq<u8> {
        self.object_id@
    }

    /// Whether the plugin is attached to its document.
    pub closed spec fn is_attached(self) -> bool {
        self.attached
    }

    /// The automatic-flush threshold, if one is configured.
    pub closed spec fn auto_flush_threshold(self) -> Option<u64> {
        self.config.snapshot_every_n_updates
    }

    /// A detached plugin for the document `(uid, object_id)`.
    pub fn new(uid: u64, object_id: &[u8], config: PersistenceConfig) -> (p: Self)
        ensures
            p.uid_of() == uid,
            p.object_of() == object_id@,
            !p.is_attached(),
            p.auto_flush_threshold() == config.snapshot_every_n_updates,
    {
        DiskPlugin { uid, object_id: crate::kv::bytes_of(object_id), attached: false, config }
    }

    /// Create the document in the store, so that it is enumerated even
    /// before its first mutation; a document that already owns rows is left
    /// exactly as it is.  On a released store the write is silently dropped.
    pub fn create(&mut self, h: &mut StoreHandle) -> (r: Result<(), PersistError>)
        requires
            old(h).wf(),
        ensures
            final(h).wf(),
            *final(self) == *old(self),
            r is Ok,
            final(h).is_available() == old(h).is_available(),
            !old(h).is_available() ==> final(h).rows() == old(h).rows(),
            old(h).is_available() ==> {
                let uid = old(self).uid_of();
                let oid = old(self).object_of();
                &&& crate::engine::doc_present(final(h).rows(), uid, oid)
                &&& doc_replay(final(h).rows(), uid, oid) == doc_replay(old(h).rows(), uid, oid)
                &&& doc_next_seq(final(h).rows(), uid, oid) == doc_next_seq(old(h).rows(), uid, oid)
                &&& forall|u2: u64, o2: Seq<u8>|
                    oid_fits(o2) && !same_doc(uid, oid, u2, o2) ==> doc_log_rows(
                        final(h).rows(),
                        u2,
                        o2,
                    ) == doc_log_rows(old(h).rows(), u2, o2) && doc_snapshot_value(
                        final(h).rows(),
                        u2,
                        o2,
                    ) == doc_snapshot_value(old(h).rows(), u2, o2)
            },
    {
        if h.released {
            return Ok(());
        }
        h.store.create(self.uid, self.object_id.as_slice());
        Ok(())
    }

    /// Attach and hydrate: replay the stored snapshot and log into the
    /// caller's empty document.  A document with no stored rows hydrates to
    /// an empty document and creates nothing.  A released store fails
    /// explicitly, and a stored payload that does not decode is fatal for
    /// the hydration — never silently dropped.
    pub fn initialize(&mut self, h: &StoreHandle, doc: &mut MemDoc) -> (r: Result<
        (),
        PersistError,
    >)
        requires
            h.wf(),
            old(doc)@.len() == 0,
        ensures
            final(self).uid_of() == old(self).uid_of(),
            final(self).object_of() == old(self).object_of(),
            final(self).auto_flush_threshold() == old(self).auto_flush_threshold(),
            !h.is_available() ==> r == Err::<(), PersistError>(PersistError::StoreUnavailable)
                && !final(self).is_attached() && final(doc)@ == old(doc)@,
            h.is_available() ==> match decode_entries(
                doc_replay(h.rows(), old(self).uid_of(), old(self).object_of()),
            ) {
                Some(es) => r is Ok && final(doc)@ == es && final(self).is_attached(),
                None => r == Err::<(), PersistError>(PersistError::DecodeError)
                    && !final(self).is_attached() && final(doc)@ == old(doc)@,
            },
    {
        if h.released {
            self.attached = false;
            return Err(PersistError::StoreUnavailable);
        }
        let chunks = h.store.replay_chunks(self.uid, self.object_id.as_slice());
        match doc.apply_chunks(&chunks) {
            Ok(()) => {
                self.attached = true;
                Ok(())
            },
            Err(e) => {
                self.attached = false;
                Err(e)
            },
        }
    }

    /// The mutation hook: persist one opaque delta emitted by the document
    /// engine.  The delta receives the next sequence number; if the
    /// configured threshold is reached, the log is folded into the snapshot
    /// right away.  Either way the replay afterwards is the old replay plus
    /// this delta.  On a released store the write is silently dropped.
    pub fn did_receive_update(&mut self, h: &mut StoreHandle, payload: &[u8]) -> (r: Result<
        Option<u64>,
        PersistError,
    >)
        requires
            old(h).wf(),
            old(self).is_attached(),
            doc_next_seq(old(h).rows(), old(self).uid_of(), old(self).object_of()) + 1
                <= u64::MAX,
        ensures
            final(h).wf(),
            *final(self) == *old(self),
            final(h).is_available() == old(h).is_available(),
            !old(h).is_available() ==> r == Ok::<Option<u64>, PersistError>(None) && final(h).rows()
                == old(h).rows(),
            old(h).is_available() ==> {
                let uid = old(self).uid_of();
                let oid = old(self).object_of();
                &&& r == Ok::<Option<u64>, PersistError>(
                    Some(doc_next_seq(old(h).rows(), uid, oid) as u64),
                )
                &&& doc_replay(final(h).rows(), uid, oid) == doc_replay(
                    old(h).rows(),
                    uid,
                    oid,
                ).push(payload@)
                &&& doc_next_seq(final(h).rows(), uid, oid) == doc_next_seq(old(h).rows(), uid, oid)
                    + 1
                &&& match old(self).auto_flush_threshold() {
                    None => doc_log_len(final(h).rows(), uid, oid) == doc_log_len(
                        old(h).rows(),
                        uid,
                        oid,
                    ) + 1,
                    Some(n) => if doc_log_len(old(h).rows(), uid, oid) + 1 >= n {
                        doc_log_len(final(h).rows(), uid, oid) == 0
                    } else {
                        doc_log_len(final(h).rows(), uid, oid) == doc_log_len(
                            old(h).rows(),
                            uid,
                            oid,
                        ) + 1
                    },
                }
                &&& forall|u2: u64, o2: Seq<u8>|
                    oid_fits(o2) && !same_doc(uid, oid, u2, o2) ==> doc_log_rows(
                        final(h).rows(),
                        u2,
                        o2,
                    ) == doc_log_rows(old(h).rows(), u2, o2) && doc_snapshot_value(
                        final(h).rows(),
                        u2,
                        o2,
                    ) == doc_snapshot_value(old(h).rows(), u2, o2)
            },
    {
        if h.released {
            return Ok(None);
        }
        let seq = h.store.append_update(self.uid, self.object_id.as_slice(), payload);
        match self.config.snapshot_every_n_updates {
            None => {},
            Some(n) => {
                let pending = h.store.count_pending_updates(self.uid, self.object_id.as_slice());
                if n <= pending as u64 {
                    h.store.flush(self.uid, self.object_id.as_slice());
                }
            },
        }
        Ok(Some(seq))
    }

    /// Fold this document's pending log into its snapshot.  On a released
    /// store the write is silently dropped.
    pub fn flush(&mut self, h: &mut StoreHandle) -> (r: Result<(), PersistError>)
        requires
            old(h).wf(),
            doc_next_seq(old(h).rows(), old(self).uid_of(), old(self).object_of()) <= u64::MAX,
        ensures
            final(h).wf(),
            *final(self) == *old(self),
            r is Ok,
            !old(h).is_available() ==> final(h).rows() == old(h).rows(),
            final(h).is_available() == old(h).is_available(),
            old(h).is_available() ==> {
                let uid = old(self).uid_of();
                let oid = old(self).object_of();
                &&& doc_log_len(final(h).rows(), uid, oid) == 0
                &&& doc_replay(final(h).rows(), uid, oid) == doc_replay(old(h).rows(), uid, oid)
                &&& doc_next_seq(final(h).rows(), uid, oid) == doc_next_seq(old(h).rows(), uid, oid)
                &&& doc_log_len(old(h).rows(), uid, oid) == 0 ==> final(h).rows() == old(h).rows()
            },
    {
        if h.released {
            return Ok(());
        }
        h.store.flush(self.uid, self.object_id.as_slice());
        Ok(())
    }

    /// Detach from the document.  Nothing is deleted and nothing is flushed:
    /// the stored rows remain exactly as last committed.
    pub fn close(&mut self)
        ensures
            !final(self).is_attached(),
            final(self).uid_of() == old(self).uid_of(),
            final(self).object_of() == old(self).object_of(),
            final(self).auto_flush_threshold() == old(self).auto_flush_threshold(),
    {
        self.attached = false;
    }

    /// Remove the document's persisted image — snapshot and log — in one
    /// transaction.  Valid whether attached or not; the in-memory document
    /// itself is untouched.  On a released store the write is silently
    /// dropped.
    pub fn delete(&mut self, h: &mut StoreHandle) -> (r: Result<(), PersistError>)
        requires
            old(h).wf(),
        ensures
            final(h).wf(),
            *final(self) == *old(self),
            r is Ok,
            final(h).is_available() == old(h).is_available(),
            !old(h).is_available() ==> final(h).rows() == old(h).rows(),
            old(h).is_available() ==> {
                let uid = old(self).uid_of();
                let oid = old(self).object_of();
                &&& doc_replay(final(h).rows(), uid, oid) == Seq::<Seq<u8>>::empty()
                &&& doc_log_len(final(h).rows(), uid, oid) == 0
                &&& doc_next_seq(final(h).rows(), uid, oid) == 0
                &&& doc_snapshot_value(final(h).rows(), uid, oid) is None
                &&& forall|u2: u64, o2: Seq<u8>|
                    oid_fits(o2) && !same_doc(uid, oid, u2, o2) ==> doc_log_rows(
                        final(h).rows(),
                        u2,
                        o2,
                    ) == doc_log_rows(old(h).rows(), u2, o2) && doc_snapshot_value(
                        final(h).rows(),
                        u2,
                        o2,
                    ) == doc_snapshot_value(old(h).rows(), u2, o2)
            },
    {
        if h.released {
            return Ok(());
        }
        h.store.delete(self.uid, self.object_id.as_slice());
        Ok(())
    }
}

} // verus!
