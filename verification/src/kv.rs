//! Ordered, byte-keyed transactional store.
//!
//! The store holds rows `(key, value)` sorted by strict lexicographic key
//! order, so a prefix range-scan returns one document's rows contiguously and
//! in creation order.  Readers work on `&KvStore` and always see a committed
//! state.  Writers batch puts and deletes in a [`WriteTxn`] and apply them in
//! one atomic [`KvStore::commit`]; dropping the transaction instead
//! ([`WriteTxn::abort`]) applies nothing.

use vstd::prelude::*;
use crate::bytekey::is_prefix_of;
use crate::bytekey::key_cmp;
use crate::bytekey::lemma_lex_asym;
use crate::bytekey::lemma_lex_irrefl;
use crate::bytekey::lemma_lex_total;
use crate::bytekey::lemma_lex_trans;
use crate::bytekey::lex_lt;
use crate::bytekey::starts_with;

verus! {

/// The mathematical content of a store: its rows in key order.
pub type RowSeq = Seq<(Seq<u8>, Seq<u8>)>;

/// Keys are strictly increasing, hence also unique.
pub open spec fn keys_sorted(rows: RowSeq) -> bool {
    forall|i: int, j: int|
        0 <= i < j < rows.len() ==> lex_lt(rows[i].0, rows[j].0)
}

/// The value stored under `k`, if any.
pub open spec fn kv_lookup(rows: RowSeq, k: Seq<u8>) -> Option<Seq<u8>>
    decreases rows.len(),
{
    if rows.len() == 0 {
        None
    } else if rows.last().0 == k {
        Some(rows.last().1)
    } else {
        kv_lookup(rows.drop_last(), k)
    }
}

/// The rows after storing `v` under `k`: an existing row with key `k` is
/// replaced, otherwise a new row enters at its sorted position.
pub open spec fn kv_insert(rows: RowSeq, k: Seq<u8>, v: Seq<u8>) -> RowSeq
    decreases rows.len(),
{
    if rows.len() == 0 {
        seq![(k, v)]
    } else if lex_lt(rows.last().0, k) {
        rows.push((k, v))
    } else if rows.last().0 == k {
        rows.drop_last().push((k, v))
    } else {
        kv_insert(rows.drop_last(), k, v).push(rows.last())
    }
}

/// The rows whose key satisfies `p`, keeping their order.
pub open spec fn rows_matching(rows: RowSeq, p: spec_fn(Seq<u8>) -> bool) -> RowSeq
    decreases rows.len(),
{
    if rows.len() == 0 {
        Seq::empty()
    } else if p(rows.last().0) {
        rows_matching(rows.drop_last(), p).push(rows.last())
    } else {
        rows_matching(rows.drop_last(), p)
    }
}

/// The predicate accepting every key but `k`.
pub open spec fn not_key_pred(k: Seq<u8>) -> spec_fn(Seq<u8>) -> bool {
    |x: Seq<u8>| x != k
}

/// The predicate accepting the keys that start with `pfx`.
pub open spec fn has_prefix_pred(pfx: Seq<u8>) -> spec_fn(Seq<u8>) -> bool {
    |x: Seq<u8>| is_prefix_of(pfx, x)
}

/// The predicate accepting the keys that do not start with `pfx`.
pub open spec fn not_prefix_pred(pfx: Seq<u8>) -> spec_fn(Seq<u8>) -> bool {
    |x: Seq<u8>| !is_prefix_of(pfx, x)
}

/// The rows left after the row keyed `k` (if any) is removed.
pub open spec fn rows_without_key(rows: RowSeq, k: Seq<u8>) -> RowSeq {
    rows_matching(rows, not_key_pred(k))
}

/// The rows left after every row whose key starts with `pfx` is removed.
pub open spec fn rows_without_prefix(rows: RowSeq, pfx: Seq<u8>) -> RowSeq {
    rows_matching(rows, not_prefix_pred(pfx))
}

/// The rows whose key starts with `pfx`, in key order.
pub open spec fn rows_with_prefix(rows: RowSeq, pfx: Seq<u8>) -> RowSeq {
    rows_matching(rows, has_prefix_pred(pfx))
}

/// Every row of `rows_matching(rows, p)` is a row of `rows`.
pub proof fn lemma_matching_membership(rows: RowSeq, p: spec_fn(Seq<u8>) -> bool)
    ensures
        forall|i: int|
            0 <= i < rows_matching(rows, p).len() ==> exists|j: int|
                0 <= j < rows.len() && rows[j] == #[trigger] rows_matching(rows, p)[i],
    decreases rows.len(),
{
    if rows.len() > 0 {
        lemma_matching_membership(rows.drop_last(), p);
        let m = rows_matching(rows, p);
        let md = rows_matching(rows.drop_last(), p);
        assert forall|i: int| 0 <= i < m.len() implies exists|j: int|
            0 <= j < rows.len() && rows[j] == #[trigger] m[i] by {
            if p(rows.last().0) && i == m.len() - 1 {
                assert(rows[rows.len() - 1] == m[i]);
            } else {
                assert(md[i] == m[i]);
                let j = choose|j: int| 0 <= j < rows.drop_last().len() && rows.drop_last()[j] == md[i];
                assert(rows[j] == m[i]);
            }
        }
    }
}

/// Every row kept by a filter satisfies it.
pub proof fn lemma_matching_pred(rows: RowSeq, p: spec_fn(Seq<u8>) -> bool)
    ensures
        forall|i: int|
            0 <= i < rows_matching(rows, p).len() ==> p(#[trigger] rows_matching(rows, p)[i].0),
    decreases rows.len(),
{
    if rows.len() > 0 {
        lemma_matching_pred(rows.drop_last(), p);
        let m = rows_matching(rows, p);
        let md = rows_matching(rows.drop_last(), p);
        assert forall|i: int| 0 <= i < m.len() implies p(m[i].0) by {
            if p(rows.last().0) && i == m.len() - 1 {
            } else {
                assert(m[i] == md[i]);
            }
        }
    }
}

/// A row whose key a filter accepts is kept by the filter.
pub proof fn lemma_matching_contains(rows: RowSeq, p: spec_fn(Seq<u8>) -> bool, i: int)
    requires
        0 <= i < rows.len(),
        p(rows[i].0),
    ensures
        exists|j: int|
            0 <= j < rows_matching(rows, p).len() && #[trigger] rows_matching(rows, p)[j]
                == rows[i],
    decreases rows.len(),
{
    let m = rows_matching(rows, p);
    if i == rows.len() - 1 {
        assert(m[m.len() - 1] == rows[i]);
    } else {
        lemma_matching_contains(rows.drop_last(), p, i);
        let md = rows_matching(rows.drop_last(), p);
        let j = choose|j: int| 0 <= j < md.len() && md[j] == rows.drop_last()[i];
        assert(m[j] == rows[i]);
    }
}

/// Filtering by `q` after a weaker filter `p` is filtering by `q` alone.
pub proof fn lemma_matching_nested(
    rows: RowSeq,
    p: spec_fn(Seq<u8>) -> bool,
    q: spec_fn(Seq<u8>) -> bool,
)
    requires
        forall|x: Seq<u8>| #[trigger] q(x) ==> p(x),
    ensures
        rows_matching(rows_matching(rows, p), q) == rows_matching(rows, q),
    decreases rows.len(),
{
    if rows.len() == 0 {
        assert(rows_matching(rows_matching(rows, p), q) =~= rows_matching(rows, q));
    } else {
        lemma_matching_nested(rows.drop_last(), p, q);
        let md = rows_matching(rows.drop_last(), p);
        if p(rows.last().0) {
            assert(rows_matching(rows, p) == md.push(rows.last()));
            assert(md.push(rows.last()).drop_last() =~= md);
            assert(md.push(rows.last()).last() == rows.last());
        } else {
            assert(!q(rows[rows.len() - 1].0));
        }
    }
}

/// Filtering preserves sortedness.
pub proof fn lemma_matching_sorted(rows: RowSeq, p: spec_fn(Seq<u8>) -> bool)
    requires
        keys_sorted(rows),
    ensures
        keys_sorted(rows_matching(rows, p)),
    decreases rows.len(),
{
    if rows.len() > 0 {
        assert(keys_sorted(rows.drop_last())) by {
            assert(forall|i: int, j: int|
                0 <= i < j < rows.drop_last().len() ==> rows.drop_last()[i] == rows[i]
                    && rows.drop_last()[j] == rows[j]);
        }
        lemma_matching_sorted(rows.drop_last(), p);
        if p(rows.last().0) {
            let md = rows_matching(rows.drop_last(), p);
            lemma_matching_membership(rows.drop_last(), p);
            assert forall|i: int, j: int|
                0 <= i < j < md.push(rows.last()).len() implies lex_lt(
                md.push(rows.last())[i].0,
                md.push(rows.last())[j].0,
            ) by {
                if j < md.len() {
                    assert(lex_lt(md[i].0, md[j].0));
                } else {
                    let jj = choose|jj: int|
                        0 <= jj < rows.drop_last().len() && rows.drop_last()[jj] == md[i];
                    assert(rows[jj] == md[i]);
                    assert(lex_lt(rows[jj].0, rows.last().0));
                }
            }
        }
    }
}

/// If every key satisfies `p`, filtering by `p` changes nothing.
pub proof fn lemma_matching_all(rows: RowSeq, p: spec_fn(Seq<u8>) -> bool)
    requires
        forall|i: int| 0 <= i < rows.len() ==> p(#[trigger] rows[i].0),
    ensures
        rows_matching(rows, p) == rows,
    decreases rows.len(),
{
    if rows.len() == 0 {
        assert(rows_matching(rows, p) =~= rows);
    } else {
        assert(forall|i: int|
            0 <= i < rows.drop_last().len() ==> p(#[trigger] rows.drop_last()[i].0));
        lemma_matching_all(rows.drop_last(), p);
        assert(p(rows[rows.len() - 1].0));
        assert(rows_matching(rows, p) =~= rows);
    }
}

/// If no key satisfies `p`, filtering by `p` leaves nothing.
pub proof fn lemma_matching_none(rows: RowSeq, p: spec_fn(Seq<u8>) -> bool)
    requires
        forall|i: int| 0 <= i < rows.len() ==> !p(#[trigger] rows[i].0),
    ensures
        rows_matching(rows, p) == Seq::<(Seq<u8>, Seq<u8>)>::empty(),
    decreases rows.len(),
{
    if rows.len() > 0 {
        assert(forall|i: int|
            0 <= i < rows.drop_last().len() ==> !p(#[trigger] rows.drop_last()[i].0));
        lemma_matching_none(rows.drop_last(), p);
        assert(!p(rows[rows.len() - 1].0));
    }
}

/// Looking a key up after a filter: a key that passes the filter keeps its
/// value, a key that fails it is gone.
pub proof fn lemma_matching_lookup(rows: RowSeq, p: spec_fn(Seq<u8>) -> bool, k: Seq<u8>)
    ensures
        p(k) ==> kv_lookup(rows_matching(rows, p), k) == kv_lookup(rows, k),
        !p(k) ==> kv_lookup(rows_matching(rows, p), k) is None,
    decreases rows.len(),
{
    if rows.len() > 0 {
        lemma_matching_lookup(rows.drop_last(), p, k);
        let md = rows_matching(rows.drop_last(), p);
        if p(rows.last().0) {
            assert(rows_matching(rows, p) == md.push(rows.last()));
            assert(md.push(rows.last()).drop_last() =~= md);
            assert(md.push(rows.last()).last() == rows.last());
        }
    }
}

/// `kv_insert` with a fresh key that sorts after every key accepted by `p`
/// appends the new row to the filtered view.
pub proof fn lemma_insert_matching_push(
    rows: RowSeq,
    k: Seq<u8>,
    v: Seq<u8>,
    p: spec_fn(Seq<u8>) -> bool,
)
    requires
        keys_sorted(rows),
        p(k),
        forall|i: int| 0 <= i < rows.len() && p(#[trigger] rows[i].0) ==> lex_lt(rows[i].0, k),
    ensures
        rows_matching(kv_insert(rows, k, v), p) == rows_matching(rows, p).push((k, v)),
    decreases rows.len(),
{
    if rows.len() == 0 {
        let one = seq![(k, v)];
        assert(one.drop_last() =~= Seq::<(Seq<u8>, Seq<u8>)>::empty());
        assert(one.last() == (k, v));
        assert(rows_matching(Seq::<(Seq<u8>, Seq<u8>)>::empty(), p) =~= Seq::<(
            Seq<u8>,
            Seq<u8>,
        )>::empty());
        assert(rows_matching(one, p) =~= rows_matching(rows, p).push((k, v)));
    } else if lex_lt(rows.last().0, k) {
        let pushed = rows.push((k, v));
        assert(pushed.drop_last() =~= rows);
        assert(pushed.last() == (k, v));
        assert(rows_matching(pushed, p) == rows_matching(rows, p).push((k, v)));
    } else if rows.last().0 == k {
        assert(p(rows[rows.len() - 1].0));
        assert(lex_lt(k, k));
        lemma_lex_irrefl(k);
        assert(false);
    } else {
        assert(keys_sorted(rows.drop_last())) by {
            assert(forall|i: int, j: int|
                0 <= i < j < rows.drop_last().len() ==> rows.drop_last()[i] == rows[i]
                    && rows.drop_last()[j] == rows[j]);
        }
        assert(forall|i: int|
            0 <= i < rows.drop_last().len() && p(#[trigger] rows.drop_last()[i].0) ==> lex_lt(
                rows.drop_last()[i].0,
                k,
            ));
        lemma_insert_matching_push(rows.drop_last(), k, v, p);
        let ins = kv_insert(rows.drop_last(), k, v);
        assert(kv_insert(rows, k, v) == ins.push(rows.last()));
        assert(ins.push(rows.last()).drop_last() =~= ins);
        assert(ins.push(rows.last()).last() == rows.last());
        if p(rows.last().0) {
            // then rows.last().0 sorts before k, yet k sorts no later than it
            assert(lex_lt(rows[rows.len() - 1].0, k));
            lemma_lex_total(rows.last().0, k);
            lemma_lex_asym(rows.last().0, k);
            assert(false);
        }
        assert(rows_matching(ins.push(rows.last()), p) == rows_matching(ins, p));
    }
}

/// `kv_insert` with a key rejected by `p` leaves the filtered view unchanged.
pub proof fn lemma_insert_matching_same(
    rows: RowSeq,
    k: Seq<u8>,
    v: Seq<u8>,
    p: spec_fn(Seq<u8>) -> bool,
)
    requires
        !p(k),
    ensures
        rows_matching(kv_insert(rows, k, v), p) == rows_matching(rows, p),
    decreases rows.len(),
{
    if rows.len() == 0 {
        let one = seq![(k, v)];
        assert(one.drop_last() =~= Seq::<(Seq<u8>, Seq<u8>)>::empty());
        assert(one.last() == (k, v));
        assert(rows_matching(Seq::<(Seq<u8>, Seq<u8>)>::empty(), p) =~= Seq::<(
            Seq<u8>,
            Seq<u8>,
        )>::empty());
        assert(rows_matching(one, p) =~= rows_matching(rows, p));
    } else if lex_lt(rows.last().0, k) {
        let pushed = rows.push((k, v));
        assert(pushed.drop_last() =~= rows);
        assert(pushed.last() == (k, v));
    } else if rows.last().0 == k {
        let repl = rows.drop_last().push((k, v));
        assert(repl.drop_last() =~= rows.drop_last());
        assert(repl.last() == (k, v));
        assert(!p(rows.last().0));
    } else {
        lemma_insert_matching_same(rows.drop_last(), k, v, p);
        let ins = kv_insert(rows.drop_last(), k, v);
        assert(kv_insert(rows, k, v) == ins.push(rows.last()));
        assert(ins.push(rows.last()).drop_last() =~= ins);
        assert(ins.push(rows.last()).last() == rows.last());
    }
}

/// Looking up the freshly inserted key finds the new value; every other key
/// is untouched.
pub proof fn lemma_insert_lookup(rows: RowSeq, k: Seq<u8>, v: Seq<u8>, k2: Seq<u8>)
    ensures
        kv_lookup(kv_insert(rows, k, v), k) == Some(v),
        k2 != k ==> kv_lookup(kv_insert(rows, k, v), k2) == kv_lookup(rows, k2),
    decreases rows.len(),
{
    if rows.len() == 0 {
        let one = seq![(k, v)];
        assert(one.drop_last() =~= Seq::<(Seq<u8>, Seq<u8>)>::empty());
        assert(one.last() == (k, v));
        assert(kv_lookup(one, k) == Some(v));
        if k2 != k {
            assert(kv_lookup(Seq::<(Seq<u8>, Seq<u8>)>::empty(), k2) is None);
            assert(kv_lookup(one, k2) is None);
        }
    } else if lex_lt(rows.last().0, k) {
        let pushed = rows.push((k, v));
        assert(pushed.drop_last() =~= rows);
        assert(pushed.last() == (k, v));
        lemma_lex_irrefl(k);
    } else if rows.last().0 == k {
        let repl = rows.drop_last().push((k, v));
        assert(repl.drop_last() =~= rows.drop_last());
        assert(repl.last() == (k, v));
    } else {
        lemma_insert_lookup(rows.drop_last(), k, v, k2);
        let ins = kv_insert(rows.drop_last(), k, v);
        assert(kv_insert(rows, k, v) == ins.push(rows.last()));
        assert(ins.push(rows.last()).drop_last() =~= ins);
        assert(ins.push(rows.last()).last() == rows.last());
    }
}

/// Inserting a key that sorts strictly after keys `rows[0..i]` and not after
/// `rows[i..]` is a positional insertion (or a replacement when equal).
pub proof fn lemma_insert_at(rows: RowSeq, k: Seq<u8>, v: Seq<u8>, i: int)
    requires
        keys_sorted(rows),
        0 <= i <= rows.len(),
        forall|j: int| 0 <= j < i ==> lex_lt(#[trigger] rows[j].0, k),
        i < rows.len() ==> !lex_lt(rows[i].0, k),
    ensures
        i < rows.len() && rows[i].0 == k ==> kv_insert(rows, k, v) == rows.update(i, (k, v)),
        (i == rows.len() || rows[i].0 != k) ==> kv_insert(rows, k, v) == rows.insert(i, (k, v)),
    decreases rows.len(),
{
    if rows.len() == 0 {
        assert(kv_insert(rows, k, v) =~= rows.insert(0, (k, v)));
    } else if lex_lt(rows.last().0, k) {
        // k sorts after the last key, so i must be rows.len()
        if i < rows.len() {
            if i == rows.len() - 1 {
                assert(false);
            } else {
                assert(lex_lt(rows[i].0, rows[rows.len() - 1].0));
                lemma_lex_trans(rows[i].0, rows[rows.len() - 1].0, k);
                assert(false);
            }
        }
        assert(kv_insert(rows, k, v) =~= rows.insert(i, (k, v)));
    } else if rows.last().0 == k {
        // the last key equals k, so i points at it
        lemma_lex_irrefl(k);
        assert(i != rows.len());
        if i < rows.len() - 1 {
            assert(lex_lt(rows[i].0, rows[rows.len() - 1].0));
            assert(lex_lt(rows[i].0, k));
            assert(!lex_lt(rows[i].0, k));
            assert(false);
        }
        assert(i == rows.len() - 1);
        assert(kv_insert(rows, k, v) =~= rows.update(i, (k, v)));
    } else {
        lemma_lex_total(rows.last().0, k);
        assert(lex_lt(k, rows[rows.len() - 1].0));
        if i == rows.len() {
            lemma_lex_asym(k, rows[rows.len() - 1].0);
            assert(false);
        }
        assert(keys_sorted(rows.drop_last())) by {
            assert(forall|ii: int, jj: int|
                0 <= ii < jj < rows.drop_last().len() ==> rows.drop_last()[ii] == rows[ii]
                    && rows.drop_last()[jj] == rows[jj]);
        }
        if i == rows.len() - 1 {
            // impossible: rows[i] is the last row, whose key sorts after k
            assert(!lex_lt(rows[i].0, k));
            assert(i < rows.len() && rows[i].0 != k);
            lemma_insert_at(rows.drop_last(), k, v, i);
            assert(kv_insert(rows.drop_last(), k, v) == rows.drop_last().insert(i, (k, v)));
            assert(kv_insert(rows, k, v) =~= rows.insert(i, (k, v)));
        } else {
            assert(forall|j: int| 0 <= j < i ==> lex_lt(#[trigger] rows.drop_last()[j].0, k));
            if rows[i].0 == k {
                lemma_insert_at(rows.drop_last(), k, v, i);
                assert(kv_insert(rows.drop_last(), k, v) == rows.drop_last().update(i, (k, v)));
                assert(kv_insert(rows, k, v) =~= rows.update(i, (k, v)));
            } else {
                lemma_insert_at(rows.drop_last(), k, v, i);
                assert(kv_insert(rows.drop_last(), k, v) == rows.drop_last().insert(i, (k, v)));
                assert(kv_insert(rows, k, v) =~= rows.insert(i, (k, v)));
            }
        }
    }
}

/// Inserting preserves sortedness.
pub proof fn lemma_insert_sorted(rows: RowSeq, k: Seq<u8>, v: Seq<u8>)
    requires
        keys_sorted(rows),
    ensures
        keys_sorted(kv_insert(rows, k, v)),
{
    let i = first_key_not_below(rows, k, 0);
    lemma_first_key_not_below(rows, k, 0);
    lemma_insert_at(rows, k, v, i);
    if i < rows.len() && rows[i].0 == k {
        let upd = rows.update(i, (k, v));
        assert forall|a: int, b: int| 0 <= a < b < upd.len() implies lex_lt(upd[a].0, upd[b].0) by {
            assert(lex_lt(rows[a].0, rows[b].0));
        }
    } else {
        let ins = rows.insert(i, (k, v));
        assert forall|a: int, b: int| 0 <= a < b < ins.len() implies lex_lt(ins[a].0, ins[b].0) by {
            if a < i && b == i {
            } else if a == i && b > i {
                assert(ins[b] == rows[b - 1]);
                assert(!lex_lt(rows[i].0, k));
                lemma_lex_total(rows[i as int].0, k);
                if b - 1 == i {
                } else {
                    assert(lex_lt(rows[i as int].0, rows[b - 1].0));
                    lemma_lex_trans(k, rows[i as int].0, rows[b - 1].0);
                }
            } else if a < i && b > i {
                assert(ins[a] == rows[a] && ins[b] == rows[b - 1]);
                if b - 1 == a {
                    assert(false);
                } else {
                    assert(lex_lt(rows[a].0, rows[b - 1].0));
                }
            } else if a > i && b > i {
                assert(ins[a] == rows[a - 1] && ins[b] == rows[b - 1]);
                assert(lex_lt(rows[a - 1].0, rows[b - 1].0));
            } else {
                assert(a < i && b < i);
                assert(lex_lt(rows[a].0, rows[b].0));
            }
        }
    }
}

/// The first position whose key does not sort strictly before `k`.
pub open spec fn first_key_not_below(rows: RowSeq, k: Seq<u8>, from: int) -> int
    recommends
        0 <= from <= rows.len(),
    decreases rows.len() - from,
{
    if from >= rows.len() {
        rows.len() as int
    } else if lex_lt(rows[from].0, k) {
        first_key_not_below(rows, k, from + 1)
    } else {
        from
    }
}

pub proof fn lemma_first_key_not_below(rows: RowSeq, k: Seq<u8>, from: int)
    requires
        0 <= from <= rows.len(),
        forall|j: int| 0 <= j < from ==> lex_lt(#[trigger] rows[j].0, k),
    ensures
        from <= first_key_not_below(rows, k, from) <= rows.len(),
        forall|j: int|
            0 <= j < first_key_not_below(rows, k, from) ==> lex_lt(#[trigger] rows[j].0, k),
        first_key_not_below(rows, k, from) < rows.len() ==> !lex_lt(
            rows[first_key_not_below(rows, k, from)].0,
            k,
        ),
    decreases rows.len() - from,
{
    if from < rows.len() && lex_lt(rows[from].0, k) {
        lemma_first_key_not_below(rows, k, from + 1);
    }
}

/// A key present at a sorted position is the one `kv_lookup` finds.
pub proof fn lemma_lookup_present(rows: RowSeq, k: Seq<u8>, i: int)
    requires
        keys_sorted(rows),
        0 <= i < rows.len(),
        rows[i].0 == k,
    ensures
        kv_lookup(rows, k) == Some(rows[i].1),
    decreases rows.len(),
{
    if i == rows.len() - 1 {
    } else {
        assert(lex_lt(rows[i].0, rows[rows.len() - 1].0));
        lemma_lex_irrefl(k);
        assert(rows.last().0 != k);
        assert(keys_sorted(rows.drop_last())) by {
            assert(forall|ii: int, jj: int|
                0 <= ii < jj < rows.drop_last().len() ==> rows.drop_last()[ii] == rows[ii]
                    && rows.drop_last()[jj] == rows[jj]);
        }
        lemma_lookup_present(rows.drop_last(), k, i);
    }
}

/// A key matching no row is absent.
pub proof fn lemma_lookup_absent(rows: RowSeq, k: Seq<u8>)
    requires
        forall|i: int| 0 <= i < rows.len() ==> #[trigger] rows[i].0 != k,
    ensures
        kv_lookup(rows, k) is None,
    decreases rows.len(),
{
    if rows.len() > 0 {
        assert(rows[rows.len() - 1].0 != k);
        assert(forall|i: int|
            0 <= i < rows.drop_last().len() ==> #[trigger] rows.drop_last()[i].0 != k);
        lemma_lookup_absent(rows.drop_last(), k);
    }
}

/// One buffered mutation of a write transaction.
pub enum KvOp {
    Put(Vec<u8>, Vec<u8>),
    Delete(Vec<u8>),
    DeletePrefix(Vec<u8>),
}

/// The rows after one buffered mutation.
pub open spec fn apply_op(rows: RowSeq, op: KvOp) -> RowSeq {
    match op {
        KvOp::Put(k, v) => kv_insert(rows, k@, v@),
        KvOp::Delete(k) => rows_without_key(rows, k@),
        KvOp::DeletePrefix(p) => rows_without_prefix(rows, p@),
    }
}

/// The rows after a whole batch, applied in order.
pub open spec fn apply_ops(rows: RowSeq, ops: Seq<KvOp>) -> RowSeq
    decreases ops.len(),
{
    if ops.len() == 0 {
        rows
    } else {
        apply_op(apply_ops(rows, ops.drop_last()), ops.last())
    }
}

/// Removing the row at a sorted position holding key `k` is exactly the
/// filter that drops `k`.
pub proof fn lemma_remove_matching_at(rows: RowSeq, k: Seq<u8>, i: int)
    requires
        keys_sorted(rows),
        0 <= i < rows.len(),
        rows[i].0 == k,
    ensures
        rows_without_key(rows, k) == rows.remove(i),
    decreases rows.len(),
{
    let p = not_key_pred(k);
    assert(forall|x: Seq<u8>| #[trigger] p(x) <==> x != k);
    assert(keys_sorted(rows.drop_last())) by {
        assert(forall|ii: int, jj: int|
            0 <= ii < jj < rows.drop_last().len() ==> rows.drop_last()[ii] == rows[ii]
                && rows.drop_last()[jj] == rows[jj]);
    }
    if i == rows.len() - 1 {
        assert(!p(rows.last().0));
        assert(forall|j: int| 0 <= j < rows.drop_last().len() ==> p(
            #[trigger] rows.drop_last()[j].0,
        )) by {
            assert forall|j: int| 0 <= j < rows.drop_last().len() implies p(
                rows.drop_last()[j].0,
            ) by {
                assert(lex_lt(rows[j].0, rows[i].0));
                if rows[j].0 == k {
                    lemma_lex_irrefl(k);
                }
            }
        }
        lemma_matching_all(rows.drop_last(), p);
        assert(rows_matching(rows, p) =~= rows.remove(i));
    } else {
        assert(p(rows.last().0)) by {
            assert(lex_lt(rows[i].0, rows[rows.len() - 1].0));
            if rows[rows.len() - 1].0 == k {
                lemma_lex_irrefl(k);
            }
        }
        lemma_remove_matching_at(rows.drop_last(), k, i);
        assert(rows_matching(rows, p) == rows.drop_last().remove(i).push(rows.last()));
        assert(rows.drop_last().remove(i).push(rows.last()) =~= rows.remove(i));
    }
}

/// Copy a byte slice into a fresh vector.
pub fn bytes_of(s: &[u8]) -> (out: Vec<u8>)
    ensures
        out@ == s@,
{
    let mut out: Vec<u8> = Vec::new();
    let mut i: usize = 0;
    while i < s.len()
        invariant
            0 <= i <= s@.len(),
            out@ == s@.take(i as int),
        decreases s@.len() - i,
    {
        out.push(s[i]);
        assert(out@ =~= s@.take(i + 1));
        i += 1;
    }
    assert(s@.take(s@.len() as int) =~= s@);
    out
}

/// A batch of buffered row mutations; nothing is visible in the store until
/// the batch commits, and aborting discards it whole.
pub struct WriteTxn {
    ops: Vec<KvOp>,
}

impl View for WriteTxn {
    type V = Seq<KvOp>;

    closed spec fn view(&self) -> Seq<KvOp> {
        self.ops@
    }
}

impl WriteTxn {
    /// Open a write transaction with no buffered mutation.
    pub fn new() -> (txn: Self)
        ensures
            txn@ == Seq::<KvOp>::empty(),
    {
        WriteTxn { ops: Vec::new() }
    }

    /// Buffer storing `value` under `key`.
    pub fn put(&mut self, key: Vec<u8>, value: Vec<u8>)
        ensures
            final(self)@ == old(self)@.push(KvOp::Put(key, value)),
    {
        self.ops.push(KvOp::Put(key, value));
    }

    /// Buffer removing the row under `key`.
    pub fn delete(&mut self, key: Vec<u8>)
        ensures
            final(self)@ == old(self)@.push(KvOp::Delete(key)),
    {
        self.ops.push(KvOp::Delete(key));
    }

    /// Buffer removing every row whose key starts with `prefix`.
    pub fn delete_prefix(&mut self, prefix: Vec<u8>)
        ensures
            final(self)@ == old(self)@.push(KvOp::DeletePrefix(prefix)),
    {
        self.ops.push(KvOp::DeletePrefix(prefix));
    }

    /// Discard the transaction; no buffered mutation reaches any store.
    pub fn abort(self) {
    }
}

/// An embedded, ordered, byte-keyed store with atomic batch commits.
pub struct KvStore {
    rows: Vec<(Vec<u8>, Vec<u8>)>,
}

impl View for KvStore {
    type V = RowSeq;

    closed spec fn view(&self) -> RowSeq {
        self.rows@.map_values(|r: (Vec<u8>, Vec<u8>)| (r.0@, r.1@))
    }
}

impl KvStore {
    /// Keys are held in strictly increasing order.
    pub open spec fn wf(self) -> bool {
        keys_sorted(self@)
    }

    /// An empty store.
    pub fn new() -> (s: Self)
        ensures
            s@ == Seq::<(Seq<u8>, Seq<u8>)>::empty(),
            s.wf(),
    {
        let s = KvStore { rows: Vec::new() };
        assert(s@ =~= Seq::<(Seq<u8>, Seq<u8>)>::empty());
        s
    }

    /// How many rows the store holds.
    pub fn row_count(&self) -> (n: usize)
        ensures
            n == self@.len(),
    {
        self.rows.len()
    }

    /// Read the value stored under `key`, if any.  Reads see only committed
    /// state: a consistent snapshot in this sequential model.
    pub fn get(&self, key: &[u8]) -> (r: Option<&Vec<u8>>)
        requires
            self.wf(),
        ensures
            match r {
                Some(v) => kv_lookup(self@, key@) == Some(v@),
                None => kv_lookup(self@, key@) is None,
            },
    {
        let mut i: usize = 0;
        while i < self.rows.len()
            invariant
                0 <= i <= self@.len(),
                self@.len() == self.rows@.len(),
                self.wf(),
                forall|j: int| 0 <= j < i ==> #[trigger] self@[j].0 != key@,
            decreases self@.len() - i,
        {
            assert(self@[i as int].0 == self.rows@[i as int].0@);
            if key_cmp(self.rows[i].0.as_slice(), key) == 0 {
                proof {
                    lemma_lookup_present(self@, key@, i as int);
                }
                return Some(&self.rows[i].1);
            }
            i += 1;
        }
        proof {
            lemma_lookup_absent(self@, key@);
        }
        None
    }

    /// All rows whose key starts with `prefix`, in key order.
    pub fn scan_prefix(&self, prefix: &[u8]) -> (out: Vec<(Vec<u8>, Vec<u8>)>)
        requires
            self.wf(),
        ensures
            out@.map_values(|r: (Vec<u8>, Vec<u8>)| (r.0@, r.1@)) == rows_with_prefix(
                self@,
                prefix@,
            ),
    {
        let ghost pp = prefix@;
        let ghost p = has_prefix_pred(pp);
        assert(forall|x: Seq<u8>| #[trigger] p(x) <==> is_prefix_of(pp, x));
        let mut out: Vec<(Vec<u8>, Vec<u8>)> = Vec::new();
        let mut i: usize = 0;
        while i < self.rows.len()
            invariant
                0 <= i <= self@.len(),
                self@.len() == self.rows@.len(),
                self.wf(),
                pp == prefix@,
                p == has_prefix_pred(pp),
                out@.map_values(|r: (Vec<u8>, Vec<u8>)| (r.0@, r.1@)) == rows_matching(
                    self@.take(i as int),
                    p,
                ),
            decreases self@.len() - i,
        {
            assert(forall|x: Seq<u8>| #[trigger] p(x) <==> is_prefix_of(pp, x));
            let ghost pre = out@.map_values(|r: (Vec<u8>, Vec<u8>)| (r.0@, r.1@));
            assert(self@[i as int] == (self.rows@[i as int].0@, self.rows@[i as int].1@));
            if starts_with(self.rows[i].0.as_slice(), prefix) {
                let kc = bytes_of(self.rows[i].0.as_slice());
                let vc = bytes_of(self.rows[i].1.as_slice());
                out.push((kc, vc));
                assert(out@.map_values(|r: (Vec<u8>, Vec<u8>)| (r.0@, r.1@)) =~= pre.push(
                    self@[i as int],
                ));
            }
            proof {
                let t = self@.take(i + 1);
                assert(t.drop_last() =~= self@.take(i as int));
                assert(t.last() == self@[i as int]);
                if p(self@[i as int].0) {
                    assert(rows_matching(t, p) == rows_matching(self@.take(i as int), p).push(
                        self@[i as int],
                    ));
                } else {
                    assert(rows_matching(t, p) == rows_matching(self@.take(i as int), p));
                }
            }
            i += 1;
        }
        assert(self@.take(self@.len() as int) =~= self@);
        out
    }

    /// Apply every buffered mutation of `txn` in order, atomically: the store
    /// moves from its old rows to `apply_ops` of the batch in this one call,
    /// and no intermediate state is ever observable through `&KvStore` reads.
    pub fn commit(&mut self, txn: WriteTxn)
        requires
            old(self).wf(),
        ensures
            final(self)@ == apply_ops(old(self)@, txn@),
            final(self).wf(),
    {
        let n = txn.ops.len();
        let mut idx: usize = 0;
        while idx < n
            invariant
                0 <= idx <= n,
                n == txn.ops@.len(),
                self@ == apply_ops(old(self)@, txn.ops@.take(idx as int)),
                self.wf(),
            decreases n - idx,
        {
            let ghost pre = self@;
            match &txn.ops[idx] {
                KvOp::Put(k, v) => {
                    let kc = bytes_of(k.as_slice());
                    let vc = bytes_of(v.as_slice());
                    self.put_row(kc, vc);
                    assert(apply_op(pre, txn.ops@[idx as int]) == kv_insert(pre, k@, v@));
                },
                KvOp::Delete(k) => {
                    self.delete_row(k.as_slice());
                    assert(apply_op(pre, txn.ops@[idx as int]) == rows_without_key(pre, k@));
                },
                KvOp::DeletePrefix(p) => {
                    self.delete_prefix_rows(p.as_slice());
                    assert(apply_op(pre, txn.ops@[idx as int]) == rows_without_prefix(
                        pre,
                        p@,
                    ));
                },
            }
            proof {
                let t = txn.ops@.take(idx + 1);
                assert(t.drop_last() =~= txn.ops@.take(idx as int));
                assert(t.last() == txn.ops@[idx as int]);
            }
            idx += 1;
        }
        assert(txn.ops@.take(n as int) =~= txn.ops@);
    }

    /// Store `value` under `key`, replacing any existing row.
    fn put_row(&mut self, key: Vec<u8>, value: Vec<u8>)
        requires
            old(self).wf(),
        ensures
            final(self)@ == kv_insert(old(self)@, key@, value@),
            final(self).wf(),
    {
        let mut i: usize = 0;
        while i < self.rows.len() && key_cmp(self.rows[i].0.as_slice(), key.as_slice()) == -1
            invariant
                0 <= i <= self@.len(),
                self@.len() == self.rows@.len(),
                self.wf(),
                forall|j: int| 0 <= j < i ==> lex_lt(#[trigger] self@[j].0, key@),
            decreases self@.len() - i,
        {
            assert(self@[i as int].0 == self.rows@[i as int].0@);
            i += 1;
        }
        let ghost pre = self@;
        proof {
            lemma_insert_at(pre, key@, value@, i as int);
            if (i as int) < pre.len() {
                assert(pre[i as int].0 == self.rows@[i as int].0@);
            }
        }
        if i < self.rows.len() && key_cmp(self.rows[i].0.as_slice(), key.as_slice()) == 0 {
            self.rows.remove(i);
            self.rows.insert(i, (key, value));
            assert(self@ =~= pre.update(i as int, (key@, value@)));
        } else {
            self.rows.insert(i, (key, value));
            assert(self@ =~= pre.insert(i as int, (key@, value@)));
        }
        proof {
            lemma_insert_sorted(pre, key@, value@);
        }
    }

    /// Remove the row under `key`, if any.
    fn delete_row(&mut self, key: &[u8])
        requires
            old(self).wf(),
        ensures
            final(self)@ == rows_without_key(old(self)@, key@),
            final(self).wf(),
    {
        let ghost kk = key@;
        let ghost pre = self@;
        let mut i: usize = 0;
        while i < self.rows.len()
            invariant
                0 <= i <= self@.len(),
                self@.len() == self.rows@.len(),
                self.wf(),
                kk == key@,
                pre == old(self)@,
                self@ == pre,
                forall|j: int| 0 <= j < i ==> #[trigger] self@[j].0 != key@,
            decreases self@.len() - i,
        {
            assert(self@[i as int].0 == self.rows@[i as int].0@);
            if key_cmp(self.rows[i].0.as_slice(), key) == 0 {
                proof {
                    lemma_remove_matching_at(pre, kk, i as int);
                    lemma_matching_sorted(pre, not_key_pred(kk));
                }
                self.rows.remove(i);
                assert(self@ =~= pre.remove(i as int));
                return;
            }
            i += 1;
        }
        proof {
            let p = not_key_pred(kk);
            assert(forall|x: Seq<u8>| #[trigger] p(x) <==> x != kk);
            lemma_matching_all(pre, p);
        }
    }

    /// Remove every row whose key starts with `prefix`.
    fn delete_prefix_rows(&mut self, prefix: &[u8])
        requires
            old(self).wf(),
        ensures
            final(self)@ == rows_without_prefix(old(self)@, prefix@),
            final(self).wf(),
    {
        let ghost pp = prefix@;
        let ghost p = not_prefix_pred(pp);
        let ghost pre = self@;
        assert(forall|x: Seq<u8>| #[trigger] p(x) <==> !is_prefix_of(pp, x));
        let mut out: Vec<(Vec<u8>, Vec<u8>)> = Vec::new();
        let mut i: usize = 0;
        while i < self.rows.len()
            invariant
                0 <= i <= self@.len(),
                self@.len() == self.rows@.len(),
                self.wf(),
                pp == prefix@,
                p == not_prefix_pred(pp),
                pre == old(self)@,
                self@ == pre,
                out@.map_values(|r: (Vec<u8>, Vec<u8>)| (r.0@, r.1@)) == rows_matching(
                    pre.take(i as int),
                    p,
                ),
            decreases self@.len() - i,
        {
            assert(forall|x: Seq<u8>| #[trigger] p(x) <==> !is_prefix_of(pp, x));
            let ghost sofar = out@.map_values(|r: (Vec<u8>, Vec<u8>)| (r.0@, r.1@));
            assert(self@[i as int] == (self.rows@[i as int].0@, self.rows@[i as int].1@));
            if !starts_with(self.rows[i].0.as_slice(), prefix) {
                let kc = bytes_of(self.rows[i].0.as_slice());
                let vc = bytes_of(self.rows[i].1.as_slice());
                out.push((kc, vc));
                assert(out@.map_values(|r: (Vec<u8>, Vec<u8>)| (r.0@, r.1@)) =~= sofar.push(
                    pre[i as int],
                ));
            }
            proof {
                let t = pre.take(i + 1);
                assert(t.drop_last() =~= pre.take(i as int));
                assert(t.last() == pre[i as int]);
                if p(pre[i as int].0) {
                    assert(rows_matching(t, p) == rows_matching(pre.take(i as int), p).push(
                        pre[i as int],
                    ));
                } else {
                    assert(rows_matching(t, p) == rows_matching(pre.take(i as int), p));
                }
            }
            i += 1;
        }
        assert(pre.take(pre.len() as int) =~= pre);
        self.rows = out;
        proof {
            lemma_matching_sorted(pre, p);
        }
    }
}

} // verus!
