//! A minimal in-memory key-value document.
//!
//! The persistence core stores opaque payload chunks; this document gives
//! those chunks one concrete meaning so that a whole session can be built
//! and replayed: each chunk encodes one `key := value` assignment, the
//! document state is the ordered list of applied assignments, and a read
//! returns the last value written under a key.  Replaying a document's
//! chunks in order reconstructs exactly the state whose mutations produced
//! them.

use vstd::prelude::*;
use crate::PersistError;
use crate::bytekey::key_cmp;
use crate::bytekey::read_u64_be;
use crate::bytekey::u64_be;
use crate::bytekey::u64_from_be;
use crate::bytekey::lemma_u64_be_roundtrip;
use crate::bytekey::push_u64_be;

verus! {

/// One assignment as an opaque chunk: the key's length, the key, the value.
pub open spec fn entry_enc(k: Seq<u8>, v: Seq<u8>) -> Seq<u8> {
    u64_be(k.len() as u64) + k + v
}

/// The assignment a chunk encodes, if the chunk is well formed.
pub open spec fn entry_dec(s: Seq<u8>) -> Option<(Seq<u8>, Seq<u8>)> {
    if s.len() >= 8 {
        let n = u64_from_be(s.take(8)) as int;
        if 8 + n <= s.len() {
            Some((s.subrange(8, 8 + n), s.skip(8 + n)))
        } else {
            None
        }
    } else {
        None
    }
}

/// Encoding then decoding an assignment gives it back.
pub proof fn lemma_entry_roundtrip(k: Seq<u8>, v: Seq<u8>)
    requires
        k.len() <= u64::MAX,
    ensures
        entry_dec(entry_enc(k, v)) == Some((k, v)),
{
    let s = entry_enc(k, v);
    assert(s.take(8) =~= u64_be(k.len() as u64));
    lemma_u64_be_roundtrip(k.len() as u64);
    assert(s.subrange(8, 8 + k.len() as int) =~= k);
    assert(s.skip(8 + k.len() as int) =~= v);
}

/// The assignments of a chunk sequence, if every chunk is well formed.
pub open spec fn decode_entries(chunks: Seq<Seq<u8>>) -> Option<Seq<(Seq<u8>, Seq<u8>)>>
    decreases chunks.len(),
{
    if chunks.len() == 0 {
        Some(Seq::empty())
    } else {
        match (decode_entries(chunks.drop_last()), entry_dec(chunks.last())) {
            (Some(es), Some(e)) => Some(es.push(e)),
            _ => None,
        }
    }
}

/// The last value assigned to `k`, if any.
pub open spec fn lww_get(entries: Seq<(Seq<u8>, Seq<u8>)>, k: Seq<u8>) -> Option<Seq<u8>>
    decreases entries.len(),
{
    if entries.len() == 0 {
        None
    } else if entries.last().0 == k {
        Some(entries.last().1)
    } else {
        lww_get(entries.drop_last(), k)
    }
}

/// If nothing at or after position `i` assigns to `k`, the last assignment
/// lies in the first `i` entries.
proof fn lemma_lww_prefix(entries: Seq<(Seq<u8>, Seq<u8>)>, k: Seq<u8>, i: int)
    requires
        0 <= i <= entries.len(),
        forall|j: int| i <= j < entries.len() ==> (#[trigger] entries[j]).0 != k,
    ensures
        lww_get(entries, k) == lww_get(entries.take(i), k),
    decreases entries.len() - i,
{
    if i < entries.len() {
        assert(entries.take(entries.len() as int) =~= entries);
        lemma_lww_prefix(entries, k, i + 1);
        let t = entries.take(i + 1);
        assert(t.drop_last() =~= entries.take(i));
        assert(t.last() == entries[i]);
    } else {
        assert(entries.take(i) =~= entries);
    }
}

/// An in-memory document: the ordered list of applied assignments.
pub struct MemDoc {
    entries: Vec<(Vec<u8>, Vec<u8>)>,
}

impl View for MemDoc {
    type V = Seq<(Seq<u8>, Seq<u8>)>;

    closed spec fn view(&self) -> Seq<(Seq<u8>, Seq<u8>)> {
        self.entries@.map_values(|e: (Vec<u8>, Vec<u8>)| (e.0@, e.1@))
    }
}

impl MemDoc {
    /// An empty document with no assignment applied.
    pub fn new() -> (d: Self)
        ensures
            d@ == Seq::<(Seq<u8>, Seq<u8>)>::empty(),
    {
        let d = MemDoc { entries: Vec::new() };
        assert(d@ =~= Seq::<(Seq<u8>, Seq<u8>)>::empty());
        d
    }

    /// Whether any assignment was applied.
    pub fn is_empty(&self) -> (b: bool)
        ensures
            b == (self@.len() == 0),
    {
        self.entries.is_empty()
    }

    /// How many assignments were applied.
    pub fn entry_count(&self) -> (n: usize)
        ensures
            n == self@.len(),
    {
        self.entries.len()
    }

    /// Apply `key := value` locally and hand back the opaque delta that a
    /// persistence adapter appends for this mutation.
    pub fn insert(&mut self, key: &[u8], value: &[u8]) -> (delta: Vec<u8>)
        ensures
            final(self)@ == old(self)@.push((key@, value@)),
            delta@ == entry_enc(key@, value@),
            entry_dec(delta@) == Some((key@, value@)),
    {
        let klen = key.len();
        assert(key@.len() == klen);
        let mut delta: Vec<u8> = Vec::new();
        push_u64_be(&mut delta, klen as u64);
        let kc = crate::kv::bytes_of(key);
        let vc = crate::kv::bytes_of(value);
        let mut i: usize = 0;
        while i < key.len()
            invariant
                0 <= i <= key@.len(),
                delta@ == u64_be(key@.len() as u64) + key@.take(i as int),
            decreases key@.len() - i,
        {
            delta.push(key[i]);
            assert(delta@ =~= u64_be(key@.len() as u64) + key@.take(i + 1));
            i += 1;
        }
        assert(key@.take(key@.len() as int) =~= key@);
        let mut j: usize = 0;
        while j < value.len()
            invariant
                0 <= j <= value@.len(),
                delta@ == u64_be(key@.len() as u64) + key@ + value@.take(j as int),
            decreases value@.len() - j,
        {
            delta.push(value[j]);
            assert(delta@ =~= u64_be(key@.len() as u64) + key@ + value@.take(j + 1));
            j += 1;
        }
        assert(value@.take(value@.len() as int) =~= value@);
        assert(delta@ == entry_enc(key@, value@));
        let ghost pre = self@;
        self.entries.push((kc, vc));
        assert(self@ =~= pre.push((key@, value@)));
        proof {
            lemma_entry_roundtrip(key@, value@);
        }
        delta
    }

    /// The last value assigned to `key`, if any.
    pub fn get(&self, key: &[u8]) -> (r: Option<Vec<u8>>)
        ensures
            match r {
                Some(v) => lww_get(self@, key@) == Some(v@),
                None => lww_get(self@, key@) is None,
            },
    {
        let mut idx: usize = self.entries.len();
        assert(self@.len() == self.entries@.len());
        while idx > 0
            invariant
                0 <= idx <= self@.len(),
                self@.len() == self.entries@.len(),
                forall|j: int| idx <= j < self@.len() ==> (#[trigger] self@[j]).0 != key@,
            decreases idx,
        {
            idx -= 1;
            assert(self@[idx as int] == (self.entries@[idx as int].0@, self.entries@[idx as int].1@));
            if key_cmp(self.entries[idx].0.as_slice(), key) == 0 {
                proof {
                    lemma_lww_prefix(self@, key@, idx + 1);
                    let t = self@.take(idx + 1);
                    assert(t.drop_last() =~= self@.take(idx as int));
                    assert(t.last() == self@[idx as int]);
                }
                return Some(crate::kv::bytes_of(self.entries[idx].1.as_slice()));
            }
        }
        proof {
            lemma_lww_prefix(self@, key@, 0);
            assert(self@.take(0) =~= Seq::<(Seq<u8>, Seq<u8>)>::empty());
        }
        None
    }

    /// Parse one chunk as an assignment.
    pub fn parse_entry(chunk: &[u8]) -> (r: Option<(Vec<u8>, Vec<u8>)>)
        ensures
            match r {
                Some(e) => entry_dec(chunk@) == Some((e.0@, e.1@)),
                None => entry_dec(chunk@) is None,
            },
    {
        if chunk.len() < 8 {
            return None;
        }
        let n = read_u64_be(chunk, 0);
        assert(chunk@.subrange(0, 8) =~= chunk@.take(8));
        if n > (chunk.len() - 8) as u64 {
            return None;
        }
        let nn = n as usize;
        let mut k: Vec<u8> = Vec::new();
        let mut i: usize = 0;
        while i < nn
            invariant
                0 <= i <= nn,
                8 + nn <= chunk@.len(),
                chunk@.len() <= usize::MAX,
                k@ == chunk@.subrange(8, 8 + i as int),
            decreases nn - i,
        {
            k.push(chunk[8 + i]);
            assert(k@ =~= chunk@.subrange(8, 8 + i + 1));
            i += 1;
        }
        let mut v: Vec<u8> = Vec::new();
        let mut j: usize = 8 + nn;
        let clen = chunk.len();
        while j < clen
            invariant
                8 + nn <= j <= chunk@.len(),
                clen == chunk@.len(),
                v@ == chunk@.subrange(8 + nn as int, j as int),
            decreases chunk@.len() - j,
        {
            v.push(chunk[j]);
            assert(v@ =~= chunk@.subrange(8 + nn as int, j + 1));
            j += 1;
        }
        assert(v@ =~= chunk@.skip(8 + nn as int));
        Some((k, v))
    }

    /// Replay a whole chunk sequence into the document.  Either every chunk
    /// decodes and all assignments apply in order, or nothing is applied and
    /// the decode error surfaces — history is never silently truncated.
    pub fn apply_chunks(&mut self, chunks: &Vec<Vec<u8>>) -> (r: Result<(), PersistError>)
        ensures
            match r {
                Ok(()) => decode_entries(chunks@.map_values(|c: Vec<u8>| c@)) is Some
                    && final(self)@ == old(self)@ + decode_entries(
                    chunks@.map_values(|c: Vec<u8>| c@),
                )->Some_0,
                Err(e) => e == PersistError::DecodeError && decode_entries(
                    chunks@.map_values(|c: Vec<u8>| c@),
                ) is None && final(self)@ == old(self)@,
            },
    {
        let ghost cs = chunks@.map_values(|c: Vec<u8>| c@);
        let mut parsed: Vec<(Vec<u8>, Vec<u8>)> = Vec::new();
        let mut i: usize = 0;
        assert(cs.take(0) =~= Seq::<Seq<u8>>::empty());
        assert(parsed@.map_values(|e: (Vec<u8>, Vec<u8>)| (e.0@, e.1@)) =~= Seq::<(
            Seq<u8>,
            Seq<u8>,
        )>::empty());
        while i < chunks.len()
            invariant
                0 <= i <= chunks@.len(),
                cs == chunks@.map_values(|c: Vec<u8>| c@),
                decode_entries(cs.take(i as int)) == Some(
                    parsed@.map_values(|e: (Vec<u8>, Vec<u8>)| (e.0@, e.1@)),
                ),
            decreases chunks@.len() - i,
        {
            let ghost sofar = parsed@.map_values(|e: (Vec<u8>, Vec<u8>)| (e.0@, e.1@));
            assert(cs[i as int] == chunks@[i as int]@);
            proof {
                let t = cs.take(i + 1);
                assert(t.drop_last() =~= cs.take(i as int));
                assert(t.last() == cs[i as int]);
            }
            match Self::parse_entry(chunks[i].as_slice()) {
                None => {
                    proof {
                        lemma_decode_entries_bad_tail(cs, i as int);
                    }
                    return Err(PersistError::DecodeError);
                },
                Some(e) => {
                    parsed.push(e);
                    assert(parsed@.map_values(|e2: (Vec<u8>, Vec<u8>)| (e2.0@, e2.1@))
                        =~= sofar.push((e.0@, e.1@)));
                },
            }
            i += 1;
        }
        assert(cs.take(cs.len() as int) =~= cs);
        let ghost decoded = decode_entries(cs)->Some_0;
        let ghost pre = self@;
        let n = parsed.len();
        let mut t: usize = 0;
        while t < n
            invariant
                0 <= t <= n,
                n == parsed@.len(),
                decoded == parsed@.map_values(|e: (Vec<u8>, Vec<u8>)| (e.0@, e.1@)),
                self@ == pre + decoded.take(t as int),
            decreases n - t,
        {
            assert(decoded[t as int] == (parsed@[t as int].0@, parsed@[t as int].1@));
            let kc = crate::kv::bytes_of(parsed[t].0.as_slice());
            let vc = crate::kv::bytes_of(parsed[t].1.as_slice());
            let ghost mid = self@;
            self.entries.push((kc, vc));
            assert(self@ =~= mid.push(decoded[t as int]));
            assert(mid.push(decoded[t as int]) =~= pre + decoded.take(t + 1));
            t += 1;
        }
        assert(decoded.take(decoded.len() as int) =~= decoded);
        Ok(())
    }
}

/// If some chunk fails to decode, the whole sequence fails.
proof fn lemma_decode_entries_bad_tail(cs: Seq<Seq<u8>>, i: int)
    requires
        0 <= i < cs.len(),
        entry_dec(cs[i]) is None,
    ensures
        decode_entries(cs) is None,
    decreases cs.len(),
{
    if cs.len() > 0 {
        if i == cs.len() - 1 {
        } else {
            assert(cs.drop_last()[i] == cs[i]);
            lemma_decode_entries_bad_tail(cs.drop_last(), i);
        }
    }
}

} // verus!
