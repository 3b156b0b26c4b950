//! Order-preserving key encoding for the document key space.
//!
//! Every row of a document identified by `(owner, object)` lives under the
//! document prefix: the owner id as eight big-endian bytes, the object id's
//! length as eight big-endian bytes, then the object id bytes.  The length
//! field makes distinct documents' prefixes prefix-free, so a prefix
//! range-scan of one document can never return another document's rows.
//! After the prefix comes a kind byte — snapshot before log — and, for log
//! rows, the sequence number as eight big-endian bytes, so lexicographic key
//! order within a document is the snapshot first, then the log in ascending
//! numeric sequence order.

use vstd::prelude::*;
use crate::bytekey::is_prefix_of;
use crate::bytekey::lemma_lex_concat;
use crate::bytekey::lemma_u64_be_injective;
use crate::bytekey::lemma_u64_be_order;
use crate::bytekey::lemma_u64_be_roundtrip;
use crate::bytekey::lex_lt;
use crate::bytekey::push_u64_be;
use crate::bytekey::read_u64_be;
use crate::bytekey::u64_be;
use crate::bytekey::u64_from_be;

verus! {

/// Kind byte of the snapshot row: sorts before every log row.
pub const KIND_SNAPSHOT: u8 = 1;

/// Kind byte of a log row.
pub const KIND_LOG: u8 = 2;

/// The byte prefix shared by every row of document `(uid, oid)`.
pub open spec fn doc_prefix(uid: u64, oid: Seq<u8>) -> Seq<u8> {
    u64_be(uid) + u64_be(oid.len() as u64) + oid
}

/// The key of the document's snapshot row.
pub open spec fn snapshot_key(uid: u64, oid: Seq<u8>) -> Seq<u8> {
    doc_prefix(uid, oid) + seq![KIND_SNAPSHOT]
}

/// The byte prefix shared by every log row of the document.
pub open spec fn log_prefix(uid: u64, oid: Seq<u8>) -> Seq<u8> {
    doc_prefix(uid, oid) + seq![KIND_LOG]
}

/// The key of the log row carrying sequence number `seqno`.
pub open spec fn log_key(uid: u64, oid: Seq<u8>, seqno: u64) -> Seq<u8> {
    log_prefix(uid, oid) + u64_be(seqno)
}

/// An object id short enough for its length to be encoded.
pub open spec fn oid_fits(oid: Seq<u8>) -> bool {
    oid.len() <= u64::MAX
}

/// The document a key belongs to, read back off the key bytes.
pub open spec fn parse_doc_key(k: Seq<u8>) -> Option<(u64, Seq<u8>)> {
    if k.len() >= 16 {
        let ol = u64_from_be(k.subrange(8, 16)) as int;
        if 16 + ol <= k.len() {
            Some((u64_from_be(k.take(8)), k.subrange(16, 16 + ol)))
        } else {
            None
        }
    } else {
        None
    }
}

/// A key that starts with a document's prefix parses back to that document.
pub proof fn lemma_parse_doc_key(uid: u64, oid: Seq<u8>, k: Seq<u8>)
    requires
        oid_fits(oid),
        is_prefix_of(doc_prefix(uid, oid), k),
    ensures
        parse_doc_key(k) == Some((uid, oid)),
{
    let p = doc_prefix(uid, oid);
    assert(k.len() >= p.len() == 16 + oid.len());
    assert(k.subrange(0, p.len() as int) == p);
    assert(k.take(8) =~= u64_be(uid)) by {
        assert(forall|i: int|
            0 <= i < 8 ==> k.subrange(0, p.len() as int)[i] == #[trigger] k[i]);
    }
    assert(k.subrange(8, 16) =~= u64_be(oid.len() as u64)) by {
        assert(forall|i: int|
            8 <= i < 16 ==> k.subrange(0, p.len() as int)[i] == #[trigger] k[i]);
    }
    lemma_u64_be_roundtrip(uid);
    lemma_u64_be_roundtrip(oid.len() as u64);
    let ol = u64_from_be(k.subrange(8, 16)) as int;
    assert(ol == oid.len());
    assert(k.subrange(16, 16 + ol) =~= oid) by {
        assert(forall|i: int|
            16 <= i < 16 + ol ==> k.subrange(0, p.len() as int)[i] == #[trigger] k[i]);
    }
}

/// Two documents' prefixes never sit on one key: the key space partitions.
pub proof fn lemma_doc_prefix_unique(u1: u64, o1: Seq<u8>, u2: u64, o2: Seq<u8>, k: Seq<u8>)
    requires
        oid_fits(o1),
        oid_fits(o2),
        is_prefix_of(doc_prefix(u1, o1), k),
        is_prefix_of(doc_prefix(u2, o2), k),
    ensures
        u1 == u2,
        o1 == o2,
{
    lemma_parse_doc_key(u1, o1, k);
    lemma_parse_doc_key(u2, o2, k);
}

/// Each document key carries the document prefix.
pub proof fn lemma_doc_key_prefixes(uid: u64, oid: Seq<u8>, seqno: u64)
    ensures
        is_prefix_of(doc_prefix(uid, oid), snapshot_key(uid, oid)),
        is_prefix_of(doc_prefix(uid, oid), log_prefix(uid, oid)),
        is_prefix_of(doc_prefix(uid, oid), log_key(uid, oid, seqno)),
        is_prefix_of(log_prefix(uid, oid), log_key(uid, oid, seqno)),
        !is_prefix_of(log_prefix(uid, oid), snapshot_key(uid, oid)),
{
    let d = doc_prefix(uid, oid);
    assert(snapshot_key(uid, oid).subrange(0, d.len() as int) =~= d);
    assert(log_prefix(uid, oid).subrange(0, d.len() as int) =~= d);
    assert(log_key(uid, oid, seqno).subrange(0, d.len() as int) =~= d);
    assert(log_key(uid, oid, seqno).subrange(0, d.len() as int + 1) =~= log_prefix(uid, oid));
    assert(!is_prefix_of(log_prefix(uid, oid), snapshot_key(uid, oid))) by {
        let s = snapshot_key(uid, oid);
        if is_prefix_of(log_prefix(uid, oid), s) {
            assert(s.subrange(0, d.len() as int + 1)[d.len() as int] == log_prefix(uid, oid)[d.len() as int]);
            assert(s[d.len() as int] == KIND_SNAPSHOT);
        }
    }
}

/// Log keys of one document sort exactly as their sequence numbers.
pub proof fn lemma_log_key_order(uid: u64, oid: Seq<u8>, s1: u64, s2: u64)
    ensures
        lex_lt(log_key(uid, oid, s1), log_key(uid, oid, s2)) <==> s1 < s2,
{
    lemma_lex_concat(log_prefix(uid, oid), u64_be(s1), u64_be(s2));
    lemma_u64_be_order(s1, s2);
}

/// The snapshot row sorts before every log row of its document.
pub proof fn lemma_snapshot_before_log(uid: u64, oid: Seq<u8>, seqno: u64)
    ensures
        lex_lt(snapshot_key(uid, oid), log_key(uid, oid, seqno)),
{
    let d = doc_prefix(uid, oid);
    let a = seq![KIND_SNAPSHOT];
    let b = seq![KIND_LOG] + u64_be(seqno);
    assert(lex_lt(a, b)) by {
        assert(a[0] == KIND_SNAPSHOT && b[0] == KIND_LOG);
    }
    lemma_lex_concat(d, a, b);
    assert(snapshot_key(uid, oid) == d + a);
    assert(log_key(uid, oid, seqno) =~= d + b);
}

/// A key carrying one document's log prefix belongs to that document.
pub proof fn lemma_log_prefix_owner(u1: u64, o1: Seq<u8>, u2: u64, o2: Seq<u8>, k: Seq<u8>)
    requires
        oid_fits(o1),
        oid_fits(o2),
        is_prefix_of(log_prefix(u1, o1), k),
        is_prefix_of(doc_prefix(u2, o2), k),
    ensures
        u1 == u2,
        o1 == o2,
{
    let d1 = doc_prefix(u1, o1);
    let lp = log_prefix(u1, o1);
    assert(is_prefix_of(d1, lp)) by {
        assert(lp.subrange(0, d1.len() as int) =~= d1);
    }
    assert(is_prefix_of(d1, k)) by {
        assert(k.subrange(0, d1.len() as int) =~= k.subrange(0, lp.len() as int).subrange(
            0,
            d1.len() as int,
        ));
    }
    lemma_doc_prefix_unique(u1, o1, u2, o2, k);
}

/// Snapshot and log keys are pairwise distinct across the whole key space.
pub proof fn lemma_key_distinct(u1: u64, o1: Seq<u8>, u2: u64, o2: Seq<u8>, s1: u64, s2: u64)
    requires
        oid_fits(o1),
        oid_fits(o2),
    ensures
        snapshot_key(u1, o1) != log_key(u2, o2, s2),
        snapshot_key(u1, o1) == snapshot_key(u2, o2) ==> u1 == u2 && o1 == o2,
        log_key(u1, o1, s1) == log_key(u2, o2, s2) ==> u1 == u2 && o1 == o2 && s1 == s2,
{
    lemma_doc_key_prefixes(u1, o1, s1);
    lemma_doc_key_prefixes(u2, o2, s2);
    if snapshot_key(u1, o1) == log_key(u2, o2, s2) {
        let k = snapshot_key(u1, o1);
        lemma_doc_prefix_unique(u1, o1, u2, o2, k);
        assert(k.len() == doc_prefix(u1, o1).len() + 1);
        assert(log_key(u2, o2, s2).len() == doc_prefix(u2, o2).len() + 9);
        assert(false);
    }
    if snapshot_key(u1, o1) == snapshot_key(u2, o2) {
        lemma_doc_prefix_unique(u1, o1, u2, o2, snapshot_key(u1, o1));
    }
    if log_key(u1, o1, s1) == log_key(u2, o2, s2) {
        let k = log_key(u1, o1, s1);
        lemma_doc_prefix_unique(u1, o1, u2, o2, k);
        let n = log_prefix(u1, o1).len() as int;
        assert(u64_be(s1) =~= u64_be(s2)) by {
            assert(forall|i: int|
                0 <= i < 8 ==> #[trigger] u64_be(s1)[i] == (log_prefix(u1, o1) + u64_be(s1))[n
                    + i]);
            assert(forall|i: int|
                0 <= i < 8 ==> #[trigger] u64_be(s2)[i] == (log_prefix(u2, o2) + u64_be(s2))[n
                    + i]);
        }
        lemma_u64_be_injective(s1, s2);
    }
}

/// Any object id that fits in memory has an encodable length.
pub fn check_oid_fits(oid: &[u8]) -> (r: bool)
    ensures
        r,
        oid_fits(oid@),
{
    let n = oid.len();
    assert(oid@.len() == n);
    assert(n <= u64::MAX);
    true
}

/// Build the document prefix bytes.
pub fn doc_prefix_bytes(uid: u64, oid: &[u8]) -> (out: Vec<u8>)
    ensures
        out@ == doc_prefix(uid, oid@),
{
    let mut out: Vec<u8> = Vec::new();
    push_u64_be(&mut out, uid);
    push_u64_be(&mut out, oid.len() as u64);
    let mut i: usize = 0;
    while i < oid.len()
        invariant
            0 <= i <= oid@.len(),
            out@ == u64_be(uid) + u64_be(oid@.len() as u64) + oid@.take(i as int),
        decreases oid@.len() - i,
    {
        out.push(oid[i]);
        assert(out@ =~= u64_be(uid) + u64_be(oid@.len() as u64) + oid@.take(i + 1));
        i += 1;
    }
    assert(out@ =~= doc_prefix(uid, oid@)) by {
        assert(oid@.take(oid@.len() as int) =~= oid@);
    }
    out
}

/// Build the snapshot row key.
pub fn snapshot_key_bytes(uid: u64, oid: &[u8]) -> (out: Vec<u8>)
    ensures
        out@ == snapshot_key(uid, oid@),
{
    let mut out = doc_prefix_bytes(uid, oid);
    out.push(KIND_SNAPSHOT);
    assert(out@ =~= snapshot_key(uid, oid@));
    out
}

/// Build the log key prefix shared by the document's log rows.
pub fn log_prefix_bytes(uid: u64, oid: &[u8]) -> (out: Vec<u8>)
    ensures
        out@ == log_prefix(uid, oid@),
{
    let mut out = doc_prefix_bytes(uid, oid);
    out.push(KIND_LOG);
    assert(out@ =~= log_prefix(uid, oid@));
    out
}

/// Build the key of the log row carrying `seqno`.
pub fn log_key_bytes(uid: u64, oid: &[u8], seqno: u64) -> (out: Vec<u8>)
    ensures
        out@ == log_key(uid, oid@, seqno),
{
    let mut out = log_prefix_bytes(uid, oid);
    push_u64_be(&mut out, seqno);
    out
}

/// Read the document id off a key, if the key is long enough to carry one.
pub fn parse_doc_key_bytes(k: &[u8]) -> (r: Option<(u64, Vec<u8>)>)
    ensures
        match r {
            Some(d) => parse_doc_key(k@) == Some((d.0, d.1@)),
            None => parse_doc_key(k@) is None,
        },
{
    if k.len() < 16 {
        return None;
    }
    let uid = read_u64_be(k, 0);
    let ol = read_u64_be(k, 8);
    assert(k@.subrange(0, 8) =~= k@.take(8));
    if ol > (k.len() - 16) as u64 {
        return None;
    }
    let oln = ol as usize;
    let mut oid: Vec<u8> = Vec::new();
    let mut i: usize = 0;
    while i < oln
        invariant
            0 <= i <= oln,
            16 + oln <= k@.len(),
            k@.len() <= usize::MAX,
            oid@ == k@.subrange(16, 16 + i as int),
        decreases oln - i,
    {
        oid.push(k[16 + i]);
        assert(oid@ =~= k@.subrange(16, 16 + i + 1));
        i += 1;
    }
    Some((uid, oid))
}

} // verus!
