//! Self-describing framing of opaque payload chunks.
//!
//! A snapshot consolidates many update payloads into one value.  So that no
//! payload boundary is lost, the consolidated bytes are a *frame stream*:
//! zero or more frames, each an eight-byte big-endian length followed by that
//! many payload bytes.  Decoding recovers exactly the chunks that were
//! encoded, and concatenating two valid streams concatenates their chunks.

use vstd::prelude::*;
use crate::PersistError;
use crate::bytekey::lemma_u64_be_roundtrip;
use crate::bytekey::push_u64_be;
use crate::bytekey::read_u64_be;
use crate::bytekey::u64_be;
use crate::bytekey::u64_from_be;

verus! {

/// Whether `s` is a well-formed frame stream.
pub open spec fn valid_frames(s: Seq<u8>) -> bool
    decreases s.len(),
{
    if s.len() == 0 {
        true
    } else if s.len() < 8 {
        false
    } else {
        let n = u64_from_be(s.take(8)) as int;
        &&& 8 + n <= s.len()
        &&& valid_frames(s.skip(8 + n))
    }
}

/// The payload chunks of a frame stream, in order.
pub open spec fn frames_of(s: Seq<u8>) -> Seq<Seq<u8>>
    decreases s.len(),
{
    if s.len() < 8 {
        Seq::empty()
    } else {
        let n = u64_from_be(s.take(8)) as int;
        if 8 + n <= s.len() {
            seq![s.subrange(8, 8 + n)] + frames_of(s.skip(8 + n))
        } else {
            Seq::empty()
        }
    }
}

/// One chunk as a frame: its length, then its bytes.
pub open spec fn frame_enc(c: Seq<u8>) -> Seq<u8> {
    u64_be(c.len() as u64) + c
}

/// A list of chunks as one frame stream.
pub open spec fn frames_enc(cs: Seq<Seq<u8>>) -> Seq<u8>
    decreases cs.len(),
{
    if cs.len() == 0 {
        Seq::empty()
    } else {
        frame_enc(cs[0]) + frames_enc(cs.drop_first())
    }
}

/// Every chunk's length fits in a frame header.
pub open spec fn chunks_fit(cs: Seq<Seq<u8>>) -> bool {
    forall|i: int| 0 <= i < cs.len() ==> #[trigger] cs[i].len() <= u64::MAX
}

/// Shape of one frame followed by a rest: the header, body and tail can be
/// read back off the concatenation.
proof fn lemma_frame_step(c: Seq<u8>, rest: Seq<u8>)
    requires
        c.len() <= u64::MAX,
    ensures
        (frame_enc(c) + rest).len() == 8 + c.len() + rest.len(),
        (frame_enc(c) + rest).take(8) == u64_be(c.len() as u64),
        (frame_enc(c) + rest).subrange(8, 8 + c.len() as int) == c,
        (frame_enc(c) + rest).skip(8 + c.len() as int) == rest,
        u64_from_be((frame_enc(c) + rest).take(8)) == c.len(),
{
    let s = frame_enc(c) + rest;
    assert(s.take(8) =~= u64_be(c.len() as u64));
    assert(s.subrange(8, 8 + c.len() as int) =~= c);
    assert(s.skip(8 + c.len() as int) =~= rest);
    lemma_u64_be_roundtrip(c.len() as u64);
}

/// Encoding then decoding gives the chunks back.
pub proof fn lemma_frames_roundtrip(cs: Seq<Seq<u8>>)
    requires
        chunks_fit(cs),
    ensures
        valid_frames(frames_enc(cs)),
        frames_of(frames_enc(cs)) == cs,
    decreases cs.len(),
{
    if cs.len() == 0 {
        assert(frames_of(frames_enc(cs)) =~= cs);
    } else {
        let c = cs[0];
        assert(c.len() <= u64::MAX);
        let rest = frames_enc(cs.drop_first());
        let s = frames_enc(cs);
        assert(forall|i: int|
            0 <= i < cs.drop_first().len() ==> #[trigger] cs.drop_first()[i].len() <= u64::MAX);
        lemma_frames_roundtrip(cs.drop_first());
        assert(s == frame_enc(c) + rest);
        lemma_frame_step(c, rest);
        let n = u64_from_be(s.take(8)) as int;
        assert(n == c.len());
        assert(valid_frames(s));
        assert(frames_of(s) == seq![c] + frames_of(rest));
        assert(seq![c] + cs.drop_first() =~= cs);
    }
}

/// Appending one chunk to a list appends one frame to its encoding.
pub proof fn lemma_frames_enc_push(cs: Seq<Seq<u8>>, c: Seq<u8>)
    ensures
        frames_enc(cs.push(c)) == frames_enc(cs) + frame_enc(c),
    decreases cs.len(),
{
    if cs.len() == 0 {
        assert(cs.push(c)[0] == c);
        assert(cs.push(c).drop_first() =~= Seq::<Seq<u8>>::empty());
        assert(frames_enc(Seq::<Seq<u8>>::empty()) == Seq::<u8>::empty());
        assert(frames_enc(cs.push(c)) == frame_enc(c) + Seq::<u8>::empty());
        assert(frame_enc(c) + Seq::<u8>::empty() =~= Seq::<u8>::empty() + frame_enc(c));
    } else {
        assert(cs.push(c).drop_first() =~= cs.drop_first().push(c));
        lemma_frames_enc_push(cs.drop_first(), c);
        assert(cs.push(c)[0] == cs[0]);
        assert(frames_enc(cs.push(c)) == frame_enc(cs[0]) + (frames_enc(cs.drop_first())
            + frame_enc(c)));
        assert(frame_enc(cs[0]) + (frames_enc(cs.drop_first()) + frame_enc(c)) =~= (frame_enc(
            cs[0],
        ) + frames_enc(cs.drop_first())) + frame_enc(c));
    }
}

/// Concatenating two valid streams concatenates their chunks.
pub proof fn lemma_frames_concat(a: Seq<u8>, b: Seq<u8>)
    requires
        valid_frames(a),
        valid_frames(b),
    ensures
        valid_frames(a + b),
        frames_of(a + b) == frames_of(a) + frames_of(b),
    decreases a.len(),
{
    if a.len() == 0 {
        assert(a + b =~= b);
        assert(frames_of(a) =~= Seq::<Seq<u8>>::empty());
        assert(frames_of(a) + frames_of(b) =~= frames_of(b));
    } else {
        let n = u64_from_be(a.take(8)) as int;
        let s = a + b;
        assert(s.take(8) =~= a.take(8));
        assert(s.len() == a.len() + b.len());
        assert(s.subrange(8, 8 + n) =~= a.subrange(8, 8 + n));
        assert(s.skip(8 + n) =~= a.skip(8 + n) + b);
        lemma_frames_concat(a.skip(8 + n), b);
        assert(frames_of(s) == seq![a.subrange(8, 8 + n)] + (frames_of(a.skip(8 + n)) + frames_of(
            b,
        )));
        assert(frames_of(a) == seq![a.subrange(8, 8 + n)] + frames_of(a.skip(8 + n)));
        assert(seq![a.subrange(8, 8 + n)] + (frames_of(a.skip(8 + n)) + frames_of(b)) =~= (seq![
            a.subrange(8, 8 + n),
        ] + frames_of(a.skip(8 + n))) + frames_of(b));
    }
}

/// A consolidated snapshot stream: after the eight header bytes, the old
/// stream followed by one frame per folded payload decodes to the old
/// chunks followed by the payloads.
pub proof fn lemma_consolidated_stream(hdr: Seq<u8>, tail: Seq<u8>, pls: Seq<Seq<u8>>)
    requires
        hdr.len() == 8,
        valid_frames(tail),
        chunks_fit(pls),
    ensures
        valid_frames((hdr + tail + frames_enc(pls)).skip(8)),
        frames_of((hdr + tail + frames_enc(pls)).skip(8)) == frames_of(tail) + pls,
{
    let e = frames_enc(pls);
    lemma_frames_roundtrip(pls);
    assert((hdr + tail + e).skip(8) =~= tail + e) by {
        assert forall|i: int| 0 <= i < (hdr + tail + e).skip(8).len() implies (hdr + tail
            + e).skip(8)[i] == (tail + e)[i] by {
            assert((hdr + tail + e).skip(8)[i] == (hdr + tail + e)[8 + i]);
        }
    }
    lemma_frames_concat(tail, e);
}

/// Append `chunk` to `out` as one frame.
pub fn append_frame(out: &mut Vec<u8>, chunk: &[u8])
    ensures
        final(out)@ == old(out)@ + frame_enc(chunk@),
{
    push_u64_be(out, chunk.len() as u64);
    let mut i: usize = 0;
    while i < chunk.len()
        invariant
            0 <= i <= chunk@.len(),
            out@ == old(out)@ + u64_be(chunk@.len() as u64) + chunk@.take(i as int),
        decreases chunk@.len() - i,
    {
        out.push(chunk[i]);
        assert(out@ =~= old(out)@ + u64_be(chunk@.len() as u64) + chunk@.take(i + 1));
        i += 1;
    }
    assert(out@ =~= old(out)@ + frame_enc(chunk@)) by {
        assert(chunk@.take(chunk@.len() as int) =~= chunk@);
    }
}

/// Split a frame stream into its payload chunks; a malformed stream is a
/// decode error, and nothing is ever silently dropped or truncated.
pub fn decode_frames(s: &[u8]) -> (r: Result<Vec<Vec<u8>>, PersistError>)
    ensures
        match r {
            Ok(cs) => valid_frames(s@) && cs@.map_values(|c: Vec<u8>| c@) == frames_of(s@),
            Err(e) => e == PersistError::DecodeError && !valid_frames(s@),
        },
{
    let mut out: Vec<Vec<u8>> = Vec::new();
    let mut idx: usize = 0;
    assert(s@.skip(0) =~= s@);
    assert(out@.map_values(|c: Vec<u8>| c@) =~= Seq::<Seq<u8>>::empty());
    while idx < s.len()
        invariant
            0 <= idx <= s@.len(),
            valid_frames(s@) <==> valid_frames(s@.skip(idx as int)),
            valid_frames(s@.skip(idx as int)) ==> frames_of(s@) == out@.map_values(
                |c: Vec<u8>| c@,
            ) + frames_of(s@.skip(idx as int)),
        decreases s@.len() - idx,
    {
        let ghost tail = s@.skip(idx as int);
        if s.len() - idx < 8 {
            assert(!valid_frames(tail)) by {
                assert(tail.len() == s@.len() - idx);
            }
            return Err(PersistError::DecodeError);
        }
        let n = read_u64_be(s, idx);
        assert(tail.take(8) =~= s@.subrange(idx as int, idx as int + 8));
        let remaining = s.len() - idx - 8;
        if n > remaining as u64 {
            assert(!valid_frames(tail)) by {
                assert(8 + u64_from_be(tail.take(8)) > tail.len());
            }
            return Err(PersistError::DecodeError);
        }
        let nn = n as usize;
        assert(nn == n);
        let mut chunk: Vec<u8> = Vec::new();
        let mut j: usize = 0;
        while j < nn
            invariant
                0 <= j <= nn,
                idx + 8 + nn <= s@.len(),
                s@.len() <= usize::MAX,
                chunk@ == s@.subrange(idx as int + 8, idx as int + 8 + j as int),
            decreases nn - j,
        {
            chunk.push(s[idx + 8 + j]);
            assert(chunk@ =~= s@.subrange(idx as int + 8, idx as int + 8 + j + 1));
            j += 1;
        }
        let ghost sofar = out@.map_values(|c: Vec<u8>| c@);
        out.push(chunk);
        assert(out@.map_values(|c: Vec<u8>| c@) =~= sofar.push(
            s@.subrange(idx as int + 8, idx as int + 8 + nn as int),
        ));
        let ghost oldidx = idx as int;
        idx = idx + 8 + nn;
        proof {
            let newtail = s@.skip(idx as int);
            assert(newtail =~= tail.skip(8 + nn as int));
            assert(tail.subrange(8, 8 + nn as int) =~= s@.subrange(oldidx + 8, oldidx + 8 + nn as int));
            assert(valid_frames(tail) <==> valid_frames(newtail));
            if valid_frames(newtail) {
                assert(frames_of(tail) == seq![tail.subrange(8, 8 + nn as int)] + frames_of(
                    newtail,
                ));
                assert(sofar.push(tail.subrange(8, 8 + nn as int)) + frames_of(newtail) =~= sofar
                    + (seq![tail.subrange(8, 8 + nn as int)] + frames_of(newtail)));
            }
        }
    }
    assert(s@.skip(s@.len() as int) =~= Seq::<u8>::empty());
    assert(valid_frames(s@));
    assert(frames_of(s@.skip(idx as int)) =~= Seq::<Seq<u8>>::empty());
    assert(frames_of(s@) =~= out@.map_values(|c: Vec<u8>| c@));
    Ok(out)
}

} // verus!
