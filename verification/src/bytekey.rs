//! Byte-string ordering and fixed-width integer encoding.
//!
//! Store keys are byte strings compared lexicographically.  Sequence numbers
//! are embedded in keys as eight big-endian bytes, so that the lexicographic
//! order of encoded keys agrees with the numeric order of sequence numbers.

use vstd::prelude::*;

verus! {

/// Strict lexicographic order on byte strings: a proper prefix sorts before
/// every extension of it, and otherwise the first differing byte decides.
pub open spec fn lex_lt(a: Seq<u8>, b: Seq<u8>) -> bool
    decreases a.len(),
{
    if b.len() == 0 {
        false
    } else if a.len() == 0 {
        true
    } else if a[0] < b[0] {
        true
    } else if a[0] > b[0] {
        false
    } else {
        lex_lt(a.drop_first(), b.drop_first())
    }
}

/// `p` is an initial segment of `k`.
pub open spec fn is_prefix_of(p: Seq<u8>, k: Seq<u8>) -> bool {
    p.len() <= k.len() && k.subrange(0, p.len() as int) == p
}

pub proof fn lemma_lex_irrefl(a: Seq<u8>)
    ensures
        !lex_lt(a, a),
    decreases a.len(),
{
    if a.len() > 0 {
        lemma_lex_irrefl(a.drop_first());
    }
}

pub proof fn lemma_lex_asym(a: Seq<u8>, b: Seq<u8>)
    requires
        lex_lt(a, b),
    ensures
        !lex_lt(b, a),
    decreases a.len(),
{
    if a.len() > 0 && b.len() > 0 && a[0] == b[0] {
        lemma_lex_asym(a.drop_first(), b.drop_first());
    }
}

pub proof fn lemma_lex_total(a: Seq<u8>, b: Seq<u8>)
    ensures
        lex_lt(a, b) || lex_lt(b, a) || a == b,
    decreases a.len(),
{
    if a.len() > 0 && b.len() > 0 && a[0] == b[0] {
        lemma_lex_total(a.drop_first(), b.drop_first());
        if !lex_lt(a, b) && !lex_lt(b, a) {
            assert(a.drop_first() == b.drop_first());
            assert(a =~= b) by {
                assert(a.len() == b.len());
                assert forall|i: int| 0 <= i < a.len() implies a[i] == b[i] by {
                    if i > 0 {
                        assert(a.drop_first()[i - 1] == b.drop_first()[i - 1]);
                    }
                }
            }
        }
    } else if a.len() == 0 && b.len() == 0 {
        assert(a =~= b);
    }
}

pub proof fn lemma_lex_trans(a: Seq<u8>, b: Seq<u8>, c: Seq<u8>)
    requires
        lex_lt(a, b),
        lex_lt(b, c),
    ensures
        lex_lt(a, c),
    decreases a.len(),
{
    if a.len() > 0 && b.len() > 0 && c.len() > 0 && a[0] == b[0] && b[0] == c[0] {
        lemma_lex_trans(a.drop_first(), b.drop_first(), c.drop_first());
    }
}

/// Prepending a common segment to both sides leaves the order unchanged.
pub proof fn lemma_lex_concat(p: Seq<u8>, a: Seq<u8>, b: Seq<u8>)
    ensures
        lex_lt(p + a, p + b) <==> lex_lt(a, b),
    decreases p.len(),
{
    if p.len() == 0 {
        assert(p + a =~= a);
        assert(p + b =~= b);
    } else {
        lemma_lex_concat(p.drop_first(), a, b);
        assert((p + a).drop_first() =~= p.drop_first() + a);
        assert((p + b).drop_first() =~= p.drop_first() + b);
        assert((p + a)[0] == p[0]);
        assert((p + b)[0] == p[0]);
        assert((p + a).len() > 0);
        assert((p + b).len() > 0);
    }
}

/// Prefixes chain: a prefix of a prefix of `k` is a prefix of `k`.
pub proof fn lemma_prefix_trans(a: Seq<u8>, b: Seq<u8>, c: Seq<u8>)
    requires
        is_prefix_of(a, b),
        is_prefix_of(b, c),
    ensures
        is_prefix_of(a, c),
{
    assert(c.subrange(0, a.len() as int) =~= b.subrange(0, a.len() as int));
}

/// Compare the suffixes of `a` and `b` that start at `i`.
fn cmp_from(a: &[u8], b: &[u8], i: usize) -> (o: i8)
    requires
        i <= a@.len(),
        i <= b@.len(),
    ensures
        (o == -1i8) <==> lex_lt(a@.skip(i as int), b@.skip(i as int)),
        (o == 1i8) <==> lex_lt(b@.skip(i as int), a@.skip(i as int)),
        (o == 0i8) <==> a@.skip(i as int) == b@.skip(i as int),
    decreases a@.len() - i,
{
    let ghost sa = a@.skip(i as int);
    let ghost sb = b@.skip(i as int);
    if i == a.len() && i == b.len() {
        assert(sa =~= sb);
        0
    } else if i == a.len() {
        assert(sa.len() == 0 && sb.len() > 0);
        assert(sa != sb);
        -1
    } else if i == b.len() {
        assert(sb.len() == 0 && sa.len() > 0);
        assert(sa != sb);
        1
    } else {
        let x = a[i];
        let y = b[i];
        assert(sa[0] == x && sb[0] == y);
        if x < y {
            assert(lex_lt(sa, sb));
            assert(!lex_lt(sb, sa));
            assert(sa != sb);
            -1
        } else if y < x {
            assert(lex_lt(sb, sa));
            assert(!lex_lt(sa, sb));
            assert(sa != sb);
            1
        } else {
            let o = cmp_from(a, b, i + 1);
            assert(sa.drop_first() =~= a@.skip(i + 1));
            assert(sb.drop_first() =~= b@.skip(i + 1));
            assert(lex_lt(sa, sb) == lex_lt(sa.drop_first(), sb.drop_first()));
            assert(lex_lt(sb, sa) == lex_lt(sb.drop_first(), sa.drop_first()));
            if o == 0 {
                assert(sa.drop_first() == sb.drop_first());
                assert(sa =~= sb) by {
                    assert(sa.len() == sb.len());
                    assert forall|j: int| 0 <= j < sa.len() implies sa[j] == sb[j] by {
                        if j > 0 {
                            assert(sa.drop_first()[j - 1] == sb.drop_first()[j - 1]);
                        }
                    }
                }
            } else {
                assert(sa != sb) by {
                    if sa == sb {
                        assert(sa.drop_first() == sb.drop_first());
                    }
                }
            }
            o
        }
    }
}

/// Three-way lexicographic comparison: `-1` when `a` sorts first, `1` when
/// `b` sorts first, `0` when the byte strings are equal.
pub fn key_cmp(a: &[u8], b: &[u8]) -> (o: i8)
    ensures
        (o == -1i8) <==> lex_lt(a@, b@),
        (o == 1i8) <==> lex_lt(b@, a@),
        (o == 0i8) <==> a@ == b@,
{
    let o = cmp_from(a, b, 0);
    assert(a@.skip(0) =~= a@);
    assert(b@.skip(0) =~= b@);
    o
}

/// Whether `k` starts with `p`.
pub fn starts_with(k: &[u8], p: &[u8]) -> (r: bool)
    ensures
        r == is_prefix_of(p@, k@),
{
    if p.len() > k.len() {
        return false;
    }
    let mut i: usize = 0;
    while i < p.len()
        invariant
            0 <= i <= p@.len(),
            p@.len() <= k@.len(),
            forall|j: int| 0 <= j < i ==> k@[j] == p@[j],
        decreases p@.len() - i,
    {
        if k[i] != p[i] {
            assert(k@.subrange(0, p@.len() as int) != p@) by {
                assert(k@.subrange(0, p@.len() as int)[i as int] == k@[i as int]);
            }
            return false;
        }
        i += 1;
    }
    assert(k@.subrange(0, p@.len() as int) =~= p@);
    true
}

/// The eight big-endian bytes of `x`.
pub open spec fn u64_be(x: u64) -> Seq<u8> {
    seq![
        (x >> 56) as u8,
        (x >> 48) as u8,
        (x >> 40) as u8,
        (x >> 32) as u8,
        (x >> 24) as u8,
        (x >> 16) as u8,
        (x >> 8) as u8,
        x as u8,
    ]
}

/// The value read back from eight big-endian bytes.
pub open spec fn u64_from_be(s: Seq<u8>) -> u64
    recommends
        s.len() == 8,
{
    ((s[0] as u64) << 56) | ((s[1] as u64) << 48) | ((s[2] as u64) << 40) | ((s[3] as u64) << 32)
        | ((s[4] as u64) << 24) | ((s[5] as u64) << 16) | ((s[6] as u64) << 8) | (s[7] as u64)
}

pub proof fn lemma_u64_be_roundtrip(x: u64)
    ensures
        u64_from_be(u64_be(x)) == x,
{
    assert((((x >> 56) as u8) as u64) << 56 | (((x >> 48) as u8) as u64) << 48
        | (((x >> 40) as u8) as u64) << 40 | (((x >> 32) as u8) as u64) << 32
        | (((x >> 24) as u8) as u64) << 24 | (((x >> 16) as u8) as u64) << 16
        | (((x >> 8) as u8) as u64) << 8 | ((x as u8) as u64) == x) by (bit_vector);
}

pub proof fn lemma_u64_be_injective(x: u64, y: u64)
    requires
        u64_be(x) == u64_be(y),
    ensures
        x == y,
{
    lemma_u64_be_roundtrip(x);
    lemma_u64_be_roundtrip(y);
}

/// Big-endian encoding preserves numeric order under lexicographic
/// comparison of the encoded bytes.
pub proof fn lemma_u64_be_order(x: u64, y: u64)
    ensures
        lex_lt(u64_be(x), u64_be(y)) <==> x < y,
{
    if x < y {
        lemma_u64_be_order_one(x, y);
    } else if y < x {
        lemma_u64_be_order_one(y, x);
        lemma_lex_asym(u64_be(y), u64_be(x));
    } else {
        lemma_lex_irrefl(u64_be(x));
    }
}

proof fn lemma_u64_be_order_one(x: u64, y: u64)
    requires
        x < y,
    ensures
        lex_lt(u64_be(x), u64_be(y)),
{
    let a = u64_be(x);
    let b = u64_be(y);
    assert(x < y ==> {
        let a0 = (x >> 56) as u8;
        let a1 = (x >> 48) as u8;
        let a2 = (x >> 40) as u8;
        let a3 = (x >> 32) as u8;
        let a4 = (x >> 24) as u8;
        let a5 = (x >> 16) as u8;
        let a6 = (x >> 8) as u8;
        let a7 = x as u8;
        let b0 = (y >> 56) as u8;
        let b1 = (y >> 48) as u8;
        let b2 = (y >> 40) as u8;
        let b3 = (y >> 32) as u8;
        let b4 = (y >> 24) as u8;
        let b5 = (y >> 16) as u8;
        let b6 = (y >> 8) as u8;
        let b7 = y as u8;
        ||| a0 < b0
        ||| a0 == b0 && a1 < b1
        ||| a0 == b0 && a1 == b1 && a2 < b2
        ||| a0 == b0 && a1 == b1 && a2 == b2 && a3 < b3
        ||| a0 == b0 && a1 == b1 && a2 == b2 && a3 == b3 && a4 < b4
        ||| a0 == b0 && a1 == b1 && a2 == b2 && a3 == b3 && a4 == b4 && a5 < b5
        ||| a0 == b0 && a1 == b1 && a2 == b2 && a3 == b3 && a4 == b4 && a5 == b5 && a6 < b6
        ||| a0 == b0 && a1 == b1 && a2 == b2 && a3 == b3 && a4 == b4 && a5 == b5 && a6 == b6 && a7
            < b7
    }) by (bit_vector);
    assert(exists|i: int|
        0 <= i < 8 && a[i] < b[i] && (forall|j: int| 0 <= j < i ==> a[j] == b[j])) by {
        if a[0] < b[0] {
            assert(0 <= 0 < 8 && a[0] < b[0] && (forall|j: int| 0 <= j < 0 ==> a[j] == b[j]));
        } else if a[1] < b[1] {
            assert(0 <= 1 < 8 && a[1] < b[1] && (forall|j: int| 0 <= j < 1 ==> a[j] == b[j]));
        } else if a[2] < b[2] {
            assert(0 <= 2 < 8 && a[2] < b[2] && (forall|j: int| 0 <= j < 2 ==> a[j] == b[j]));
        } else if a[3] < b[3] {
            assert(0 <= 3 < 8 && a[3] < b[3] && (forall|j: int| 0 <= j < 3 ==> a[j] == b[j]));
        } else if a[4] < b[4] {
            assert(0 <= 4 < 8 && a[4] < b[4] && (forall|j: int| 0 <= j < 4 ==> a[j] == b[j]));
        } else if a[5] < b[5] {
            assert(0 <= 5 < 8 && a[5] < b[5] && (forall|j: int| 0 <= j < 5 ==> a[j] == b[j]));
        } else if a[6] < b[6] {
            assert(0 <= 6 < 8 && a[6] < b[6] && (forall|j: int| 0 <= j < 6 ==> a[j] == b[j]));
        } else {
            assert(0 <= 7 < 8 && a[7] < b[7] && (forall|j: int| 0 <= j < 7 ==> a[j] == b[j]));
        }
    }
    lemma_lex_fixed_step(a, b, 8);
}

/// Generic step for fixed-width byte strings: if some position `i` holds the
/// first difference and `a[i] < b[i]`, then `a` sorts before `b`.
proof fn lemma_lex_fixed_step(a: Seq<u8>, b: Seq<u8>, n: int)
    requires
        a.len() == n,
        b.len() == n,
        exists|i: int|
            0 <= i < n && a[i] < b[i] && (forall|j: int| 0 <= j < i ==> a[j] == b[j]),
    ensures
        lex_lt(a, b),
    decreases n,
{
    let i = choose|i: int|
        0 <= i < n && a[i] < b[i] && (forall|j: int| 0 <= j < i ==> a[j] == b[j]);
    if i == 0 {
        assert(lex_lt(a, b));
    } else {
        let a1 = a.drop_first();
        let b1 = b.drop_first();
        assert(a1[i - 1] < b1[i - 1]);
        assert(forall|j: int| 0 <= j < i - 1 ==> a1[j] == b1[j]);
        lemma_lex_fixed_step(a1, b1, n - 1);
        assert(a[0] == b[0]);
    }
}

/// Append the eight big-endian bytes of `x` to `out`.
pub fn push_u64_be(out: &mut Vec<u8>, x: u64)
    ensures
        final(out)@ == old(out)@ + u64_be(x),
{
    out.push((x >> 56) as u8);
    out.push((x >> 48) as u8);
    out.push((x >> 40) as u8);
    out.push((x >> 32) as u8);
    out.push((x >> 24) as u8);
    out.push((x >> 16) as u8);
    out.push((x >> 8) as u8);
    out.push(x as u8);
    assert(out@ =~= old(out)@ + u64_be(x));
}

/// Read the eight big-endian bytes of `s` that start at `at`.
pub fn read_u64_be(s: &[u8], at: usize) -> (x: u64)
    requires
        at + 8 <= s@.len(),
    ensures
        x == u64_from_be(s@.subrange(at as int, at as int + 8)),
{
    let x = ((s[at] as u64) << 56) | ((s[at + 1] as u64) << 48) | ((s[at + 2] as u64) << 40) | ((
    s[at + 3] as u64) << 32) | ((s[at + 4] as u64) << 24) | ((s[at + 5] as u64) << 16) | ((s[at
        + 6] as u64) << 8) | (s[at + 7] as u64);
    let ghost w = s@.subrange(at as int, at as int + 8);
    assert(w[0] == s@[at as int] && w[1] == s@[at as int + 1] && w[2] == s@[at as int + 2] && w[3]
        == s@[at as int + 3] && w[4] == s@[at as int + 4] && w[5] == s@[at as int + 5] && w[6]
        == s@[at as int + 6] && w[7] == s@[at as int + 7]);
    x
}

} // verus!
