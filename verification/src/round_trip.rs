//! Proofs that the wire format of [`crate::compression`] is lossless: the
//! decoder is a left inverse of the encoder, and the encoder's boundary
//! policies (run threshold, segment splitting, literal flushing) produce
//! exactly the segments the format promises.

use vstd::prelude::*;

use crate::compression::{
    decode_all, encode_all, encode_from, literal_flush, prepend_decoded, repeat_byte,
    run_len_at, run_segments, lemma_run_len_at_bounds, lemma_run_len_at_exact, DecodeError,
    ESCAPE, MAX_SEGMENT_SIZE, RUN_THRESHOLD,
};

verus! {

/// Decoding distributes over appending: after a stream that decodes
/// cleanly, the rest of the bytes decode on their own, and the outputs
/// concatenate.
pub proof fn lemma_decode_append(a: Seq<u8>, b: Seq<u8>)
    requires
        decode_all(a) is Ok,
    ensures
        decode_all(a + b) == prepend_decoded(decode_all(a)->Ok_0, decode_all(b)),
    decreases a.len(),
{
    let ab = a + b;
    if a.len() == 0 {
        assert(ab =~= b);
        if decode_all(b) is Ok {
            assert(decode_all(a)->Ok_0 + decode_all(b)->Ok_0 =~= decode_all(b)->Ok_0);
        }
    } else if a[0] == ESCAPE {
        // a decodes cleanly, so it holds a full Run Segment.
        assert(a.len() >= 3);
        let a2 = a.subrange(3, a.len() as int);
        assert(decode_all(a2) is Ok);
        lemma_decode_append(a2, b);
        assert(ab.subrange(3, ab.len() as int) =~= a2 + b);
        assert(ab[0] == a[0] && ab[1] == a[1] && ab[2] == a[2]);
        let head = repeat_byte(a[1], a[2] as int);
        if decode_all(b) is Ok {
            assert(head + (decode_all(a2)->Ok_0 + decode_all(b)->Ok_0) =~= (head + decode_all(
                a2,
            )->Ok_0) + decode_all(b)->Ok_0);
        }
    } else {
        let n = a[0] as int;
        assert(a.len() >= 1 + n);
        let a2 = a.subrange(1 + n, a.len() as int);
        assert(decode_all(a2) is Ok);
        lemma_decode_append(a2, b);
        assert(ab.subrange(1 + n, ab.len() as int) =~= a2 + b);
        assert(ab[0] == a[0]);
        assert(ab.len() >= 1 + n);
        let head = ab.subrange(1, 1 + n);
        assert(head =~= a.subrange(1, 1 + n));
        if decode_all(b) is Ok {
            assert(head + (decode_all(a2)->Ok_0 + decode_all(b)->Ok_0) =~= (head + decode_all(
                a2,
            )->Ok_0) + decode_all(b)->Ok_0);
        }
    }
}

/// Flushing a pending literal buffer emits bytes that decode to exactly
/// that buffer.
pub proof fn lemma_decode_literal_flush(p: Seq<u8>)
    requires
        p.len() <= MAX_SEGMENT_SIZE,
    ensures
        decode_all(literal_flush(p)) == Ok::<Seq<u8>, DecodeError>(p),
{
    let s = literal_flush(p);
    assert(decode_all(Seq::<u8>::empty()) == Ok::<Seq<u8>, DecodeError>(Seq::empty()));
    if p.len() == 0 {
        assert(s =~= Seq::<u8>::empty());
        assert(decode_all(s)->Ok_0 =~= p);
    } else {
        let n = p.len() as int;
        assert(s == seq![p.len() as u8] + p);
        assert(s.len() == 1 + n);
        assert(s[0] == p.len() as u8);
        assert(1 <= p.len() <= 255);
        assert(s[0] as int == n);
        assert(s[0] != ESCAPE);
        assert(s.subrange(1 + n, s.len() as int) =~= Seq::<u8>::empty());
        assert(decode_all(s.subrange(1 + n, s.len() as int)) == Ok::<Seq<u8>, DecodeError>(
            Seq::empty(),
        ));
        assert(s.subrange(1, 1 + n) =~= p);
        assert(decode_all(s) == Ok::<Seq<u8>, DecodeError>(p + Seq::<u8>::empty()));
        assert(p + Seq::<u8>::empty() =~= p);
    }
}

/// The Run Segments written for a run of `l` copies of `v` decode to
/// exactly that run, however the run was split.
pub proof fn lemma_decode_run_segments(v: u8, l: int)
    requires
        1 <= l,
    ensures
        decode_all(run_segments(v, l)) == Ok::<Seq<u8>, DecodeError>(repeat_byte(v, l)),
    decreases l,
{
    if l > MAX_SEGMENT_SIZE as int {
        let seg = seq![ESCAPE, v, MAX_SEGMENT_SIZE as u8];
        lemma_decode_run_segments(v, l - MAX_SEGMENT_SIZE as int);
        assert(decode_all(seg) == Ok::<Seq<u8>, DecodeError>(
            repeat_byte(v, MAX_SEGMENT_SIZE as int),
        )) by {
            assert(seg.len() == 3 && seg[0] == ESCAPE && seg[1] == v && seg[2]
                == MAX_SEGMENT_SIZE as u8);
            assert(seg[2] as int == MAX_SEGMENT_SIZE as int);
            assert(seg.subrange(3, 3) =~= Seq::<u8>::empty());
            assert(decode_all(seg.subrange(3, 3)) == Ok::<Seq<u8>, DecodeError>(Seq::empty()));
            assert(repeat_byte(v, MAX_SEGMENT_SIZE as int) + Seq::<u8>::empty() =~= repeat_byte(
                v,
                MAX_SEGMENT_SIZE as int,
            ));
        }
        lemma_decode_append(seg, run_segments(v, l - MAX_SEGMENT_SIZE as int));
        assert(run_segments(v, l) == seg + run_segments(v, l - MAX_SEGMENT_SIZE as int));
        assert(decode_all(run_segments(v, l)) == Ok::<Seq<u8>, DecodeError>(
            repeat_byte(v, MAX_SEGMENT_SIZE as int) + repeat_byte(v, l - MAX_SEGMENT_SIZE as int),
        ));
        assert(repeat_byte(v, MAX_SEGMENT_SIZE as int) + repeat_byte(v, l - MAX_SEGMENT_SIZE as int)
            =~= repeat_byte(v, l));
    } else {
        let seg = run_segments(v, l);
        assert(seg == seq![ESCAPE, v, l as u8]);
        assert(seg.len() == 3 && seg[0] == ESCAPE && seg[1] == v && seg[2] == l as u8);
        assert(seg[2] as int == l);
        assert(seg.subrange(3, 3) =~= Seq::<u8>::empty());
        assert(decode_all(seg.subrange(3, 3)) == Ok::<Seq<u8>, DecodeError>(Seq::empty()));
        assert(repeat_byte(v, l) + Seq::<u8>::empty() =~= repeat_byte(v, l));
    }
}

/// The heart of the round trip: from any cursor position, the bytes the
/// encoder emits for the rest of the chunk are whole segments that decode
/// to the pending bytes it started with followed by the rest of the chunk,
/// short of the literal bytes left pending at the end. The pending buffer
/// also never outgrows one Literal Segment.
pub proof fn lemma_encode_from_decodes(pending: Seq<u8>, chunk: Seq<u8>, i: int)
    requires
        0 <= i <= chunk.len(),
        pending.len() <= MAX_SEGMENT_SIZE,
    ensures
        encode_from(pending, chunk, i).1.len() <= MAX_SEGMENT_SIZE,
        decode_all(encode_from(pending, chunk, i).0) is Ok,
        decode_all(encode_from(pending, chunk, i).0)->Ok_0 + encode_from(pending, chunk, i).1
            == pending + chunk.subrange(i, chunk.len() as int),
    decreases chunk.len() - i,
{
    let r = encode_from(pending, chunk, i);
    if i >= chunk.len() {
        assert(r == (Seq::<u8>::empty(), pending));
        assert(decode_all(Seq::<u8>::empty()) == Ok::<Seq<u8>, DecodeError>(Seq::empty()));
        assert(Seq::<u8>::empty() + pending =~= pending);
        assert(pending + chunk.subrange(i, chunk.len() as int) =~= pending);
    } else {
        lemma_run_len_at_bounds(chunk, i);
        let l = run_len_at(chunk, i);
        let v = chunk[i];
        let run = chunk.subrange(i, i + l);
        assert(run =~= repeat_byte(v, l));
        if l >= RUN_THRESHOLD as int {
            let rest = encode_from(Seq::empty(), chunk, i + l);
            lemma_encode_from_decodes(Seq::empty(), chunk, i + l);
            lemma_decode_literal_flush(pending);
            lemma_decode_run_segments(v, l);
            let segs = run_segments(v, l);
            lemma_decode_append(segs, rest.0);
            lemma_decode_append(literal_flush(pending), segs + rest.0);
            assert(r.0 =~= literal_flush(pending) + (segs + rest.0));
            let d_rest = decode_all(rest.0)->Ok_0;
            assert(decode_all(r.0)->Ok_0 =~= pending + (repeat_byte(v, l) + d_rest));
            assert(d_rest + rest.1 =~= chunk.subrange(i + l, chunk.len() as int));
            assert((pending + (repeat_byte(v, l) + d_rest)) + rest.1 =~= pending + (repeat_byte(
                v,
                l,
            ) + (d_rest + rest.1)));
            assert(repeat_byte(v, l) + (d_rest + rest.1) =~= chunk.subrange(
                i,
                chunk.len() as int,
            ));
        } else if pending.len() + l > MAX_SEGMENT_SIZE as int {
            let rest = encode_from(run, chunk, i + l);
            lemma_encode_from_decodes(run, chunk, i + l);
            lemma_decode_literal_flush(pending);
            lemma_decode_append(literal_flush(pending), rest.0);
            assert(r.0 =~= literal_flush(pending) + rest.0);
            let d_rest = decode_all(rest.0)->Ok_0;
            assert(d_rest + rest.1 =~= run + chunk.subrange(i + l, chunk.len() as int));
            assert((pending + d_rest) + rest.1 =~= pending + (d_rest + rest.1));
            assert(run + chunk.subrange(i + l, chunk.len() as int) =~= chunk.subrange(
                i,
                chunk.len() as int,
            ));
        } else {
            lemma_encode_from_decodes(pending + run, chunk, i + l);
            assert((pending + run) + chunk.subrange(i + l, chunk.len() as int) =~= pending
                + chunk.subrange(i, chunk.len() as int));
        }
    }
}

/// Corollary with the final flush appended: the emitted bytes followed by a
/// flush of the pending literal bytes decode to the pending bytes the
/// encoder started with followed by the rest of the chunk.
pub proof fn lemma_encode_from_round_trip(pending: Seq<u8>, chunk: Seq<u8>, i: int)
    requires
        0 <= i <= chunk.len(),
        pending.len() <= MAX_SEGMENT_SIZE,
    ensures
        encode_from(pending, chunk, i).1.len() <= MAX_SEGMENT_SIZE,
        decode_all(encode_from(pending, chunk, i).0 + literal_flush(encode_from(pending, chunk, i).1))
            == Ok::<Seq<u8>, DecodeError>(pending + chunk.subrange(i, chunk.len() as int)),
{
    let r = encode_from(pending, chunk, i);
    lemma_encode_from_decodes(pending, chunk, i);
    lemma_decode_literal_flush(r.1);
    lemma_decode_append(r.0, literal_flush(r.1));
    assert(decode_all(r.0)->Ok_0 + r.1 =~= pending + chunk.subrange(i, chunk.len() as int));
}

/// The encoder's fold over successive buffers: what pushing each buffer in
/// turn emits, and the literal bytes left pending at the end.
pub open spec fn encode_fold(chunks: Seq<Seq<u8>>, pending: Seq<u8>) -> (Seq<u8>, Seq<u8>)
    decreases chunks.len(),
{
    if chunks.len() == 0 {
        (Seq::empty(), pending)
    } else {
        let first = encode_from(pending, chunks[0], 0);
        let rest = encode_fold(chunks.subrange(1, chunks.len() as int), first.1);
        (first.0 + rest.0, rest.1)
    }
}

/// The complete encoding of a stream delivered as successive buffers:
/// push each buffer, then flush what is still pending.
pub open spec fn encode_chunks(chunks: Seq<Seq<u8>>) -> Seq<u8> {
    let r = encode_fold(chunks, Seq::empty());
    r.0 + literal_flush(r.1)
}

/// The stream's own bytes: the buffers, concatenated in order.
pub open spec fn concat_chunks(chunks: Seq<Seq<u8>>) -> Seq<u8>
    decreases chunks.len(),
{
    if chunks.len() == 0 {
        Seq::empty()
    } else {
        chunks[0] + concat_chunks(chunks.subrange(1, chunks.len() as int))
    }
}

/// Folding buffers through the encoder emits whole segments that decode to
/// the starting pending bytes followed by every buffer's bytes, short of
/// the literal bytes pending at the end.
proof fn lemma_encode_fold_decodes(chunks: Seq<Seq<u8>>, pending: Seq<u8>)
    requires
        pending.len() <= MAX_SEGMENT_SIZE,
    ensures
        encode_fold(chunks, pending).1.len() <= MAX_SEGMENT_SIZE,
        decode_all(encode_fold(chunks, pending).0) is Ok,
        decode_all(encode_fold(chunks, pending).0)->Ok_0 + encode_fold(chunks, pending).1
            == pending + concat_chunks(chunks),
    decreases chunks.len(),
{
    if chunks.len() == 0 {
        assert(decode_all(Seq::<u8>::empty()) == Ok::<Seq<u8>, DecodeError>(Seq::empty()));
        assert(Seq::<u8>::empty() + pending =~= pending + concat_chunks(chunks));
    } else {
        let tail = chunks.subrange(1, chunks.len() as int);
        let first = encode_from(pending, chunks[0], 0);
        lemma_encode_from_decodes(pending, chunks[0], 0);
        assert(chunks[0].subrange(0, chunks[0].len() as int) =~= chunks[0]);
        let rest = encode_fold(tail, first.1);
        lemma_encode_fold_decodes(tail, first.1);
        lemma_decode_append(first.0, rest.0);
        let d1 = decode_all(first.0)->Ok_0;
        let d2 = decode_all(rest.0)->Ok_0;
        assert((d1 + d2) + rest.1 =~= d1 + (d2 + rest.1));
        assert(d1 + (first.1 + concat_chunks(tail)) =~= (d1 + first.1) + concat_chunks(tail));
        assert((pending + chunks[0]) + concat_chunks(tail) =~= pending + (chunks[0]
            + concat_chunks(tail)));
    }
}

/// The round trip for a stream encoded buffer by buffer: however the input
/// was cut into buffers, decoding what the encoder emitted reproduces the
/// concatenated input exactly. Runs are never merged across buffers, so
/// the emitted segments depend on the cut, but what they decode to does
/// not.
pub proof fn lemma_chunked_round_trip(chunks: Seq<Seq<u8>>)
    ensures
        decode_all(encode_chunks(chunks)) == Ok::<Seq<u8>, DecodeError>(concat_chunks(chunks)),
{
    let r = encode_fold(chunks, Seq::empty());
    lemma_encode_fold_decodes(chunks, Seq::empty());
    lemma_decode_literal_flush(r.1);
    lemma_decode_append(r.0, literal_flush(r.1));
    assert(Seq::<u8>::empty() + concat_chunks(chunks) =~= concat_chunks(chunks));
    assert(decode_all(r.0)->Ok_0 + r.1 =~= concat_chunks(chunks));
}

/// The decoder is a left inverse of the encoder: every finite byte
/// sequence, the empty one included, is reproduced exactly by decoding its
/// encoding.
pub proof fn lemma_compress_expand_identity(input: Seq<u8>)
    ensures
        decode_all(encode_all(input)) == Ok::<Seq<u8>, DecodeError>(input),
{
    lemma_encode_from_round_trip(Seq::empty(), input, 0);
    assert(Seq::<u8>::empty() + input.subrange(0, input.len() as int) =~= input);
}

/// The run threshold is a sharp boundary: a run one byte short of the
/// threshold is encoded as a Literal Segment, and a run of exactly the
/// threshold length as a single Run Segment.
pub proof fn lemma_threshold_boundary(v: u8)
    ensures
        encode_all(repeat_byte(v, RUN_THRESHOLD as int - 1)) == seq![(RUN_THRESHOLD - 1) as u8]
            + repeat_byte(v, RUN_THRESHOLD as int - 1),
        encode_all(repeat_byte(v, RUN_THRESHOLD as int)) == seq![ESCAPE, v, RUN_THRESHOLD as u8],
{
    let t = RUN_THRESHOLD as int;
    // A run of threshold - 1 bytes is folded into the literal buffer.
    let s4 = repeat_byte(v, t - 1);
    lemma_run_len_at_exact(s4, 0, t - 1);
    assert(s4.subrange(0, t - 1) =~= s4);
    assert(Seq::<u8>::empty() + s4 =~= s4);
    assert(encode_from(Seq::<u8>::empty() + s4.subrange(0, t - 1), s4, t - 1) == (
        Seq::<u8>::empty(),
        s4,
    ));
    assert(encode_from(Seq::empty(), s4, 0) == (Seq::<u8>::empty(), s4));
    assert(encode_all(s4) =~= seq![(RUN_THRESHOLD - 1) as u8] + s4);
    // A run of exactly threshold bytes becomes one Run Segment.
    let s5 = repeat_byte(v, t);
    lemma_run_len_at_exact(s5, 0, t);
    assert(s5[0] == v);
    let rest = encode_from(Seq::empty(), s5, t);
    assert(rest == (Seq::<u8>::empty(), Seq::<u8>::empty()));
    assert(run_segments(v, t) == seq![ESCAPE, v, t as u8]);
    assert(encode_from(Seq::empty(), s5, 0).0 =~= run_segments(v, t));
    assert(encode_from(Seq::empty(), s5, 0).1 =~= Seq::<u8>::empty());
    assert(encode_all(s5) =~= seq![ESCAPE, v, RUN_THRESHOLD as u8]);
}

/// The one-byte count field is a sharp boundary: a run of exactly 256
/// identical bytes is split into one Run Segment of length 255 and one of
/// length 1.
pub proof fn lemma_segment_split_boundary(v: u8)
    ensures
        encode_all(repeat_byte(v, MAX_SEGMENT_SIZE as int + 1)) == seq![
            ESCAPE,
            v,
            MAX_SEGMENT_SIZE as u8,
            ESCAPE,
            v,
            1u8,
        ],
{
    let m = MAX_SEGMENT_SIZE as int;
    let s = repeat_byte(v, m + 1);
    lemma_run_len_at_exact(s, 0, m + 1);
    assert(s[0] == v);
    let rest = encode_from(Seq::empty(), s, m + 1);
    assert(rest == (Seq::<u8>::empty(), Seq::<u8>::empty()));
    assert(run_segments(v, 1) == seq![ESCAPE, v, 1u8]);
    assert(run_segments(v, m + 1) == seq![ESCAPE, v, MAX_SEGMENT_SIZE as u8] + run_segments(v, 1));
    assert(encode_all(s) =~= seq![ESCAPE, v, MAX_SEGMENT_SIZE as u8, ESCAPE, v, 1u8]);
}

/// The literal flush is a sharp boundary: with a full pending literal
/// buffer, one more non-run byte yields two Literal Segments, never one
/// overflowing segment.
pub proof fn lemma_literal_flush_boundary(p: Seq<u8>, w: u8)
    requires
        p.len() == MAX_SEGMENT_SIZE,
    ensures
        encode_from(p, seq![w], 0).0 + literal_flush(encode_from(p, seq![w], 0).1) == seq![
            MAX_SEGMENT_SIZE as u8,
        ] + p + seq![1u8, w],
{
    let c = seq![w];
    lemma_run_len_at_exact(c, 0, 1);
    assert(c.subrange(0, 1) =~= c);
    assert(encode_from(c.subrange(0, 1), c, 1) == (Seq::<u8>::empty(), c.subrange(0, 1)));
    assert(encode_from(p, c, 0).0 =~= literal_flush(p));
    assert(encode_from(p, c, 0).1 =~= c);
    assert(literal_flush(c) =~= seq![1u8, w]);
    assert(literal_flush(p) + seq![1u8, w] =~= (seq![MAX_SEGMENT_SIZE as u8] + p) + seq![1u8, w]);
}

/// A stream cut off right after an escape marker is malformed, and so is
/// one cut off after the marker and the repeated value: the decoder
/// reports the truncation rather than ignoring the partial segment.
pub proof fn lemma_truncated_run_segment(s: Seq<u8>, v: u8)
    requires
        decode_all(s) is Ok,
    ensures
        decode_all(s + seq![ESCAPE]) == Err::<Seq<u8>, DecodeError>(DecodeError::TruncatedRunValue),
        decode_all(s + seq![ESCAPE, v]) == Err::<Seq<u8>, DecodeError>(
            DecodeError::TruncatedRunLength,
        ),
{
    lemma_decode_append(s, seq![ESCAPE]);
    assert(decode_all(seq![ESCAPE]) == Err::<Seq<u8>, DecodeError>(DecodeError::TruncatedRunValue));
    lemma_decode_append(s, seq![ESCAPE, v]);
    assert(decode_all(seq![ESCAPE, v]) == Err::<Seq<u8>, DecodeError>(
        DecodeError::TruncatedRunLength,
    ));
}

} // verus!
