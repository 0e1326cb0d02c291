//! The adjacent-redundancy codec.
//!
//! The wire format is a sequence of self-describing segments:
//!
//! - a Literal Segment is a length byte in `1..=255` followed by that many
//!   raw bytes, copied verbatim;
//! - a Run Segment is the escape marker `0`, the repeated byte value, and a
//!   run length in `1..=255`.
//!
//! Zero-length Literal Segments are never written, so a `0` at a segment
//! boundary always introduces a Run Segment and the framing is unambiguous.
//!
//! The encoder scans each input buffer for runs of identical bytes. A run of
//! at least [`RUN_THRESHOLD`] bytes becomes one or more Run Segments (runs
//! longer than [`MAX_SEGMENT_SIZE`] are split); shorter runs are folded into
//! a pending literal buffer that is flushed as a Literal Segment whenever it
//! would overflow, whenever a Run Segment is about to be written, and at
//! end of stream. Runs are never merged across input buffers, by design:
//! the encoder stays stateless across buffer boundaries except for the
//! pending literal bytes.

use vstd::prelude::*;

verus! {

/// Minimum run length at which the encoder prefers a Run Segment over
/// folding the run's bytes into the pending literal buffer.
pub const RUN_THRESHOLD: usize = 5;

/// The reserved byte value that introduces a Run Segment.
pub const ESCAPE: u8 = 0;

/// Largest value the one-byte length and count fields can hold; caps both a
/// Literal Segment's byte count and a Run Segment's run length.
pub const MAX_SEGMENT_SIZE: usize = 255;

/// `n` copies of the byte `v`.
pub open spec fn repeat_byte(v: u8, n: int) -> Seq<u8> {
    Seq::new(n as nat, |k: int| v)
}

/// Length of the maximal run of bytes equal to `s[i]` that starts at `i`
/// (zero outside the sequence).
pub open spec fn run_len_at(s: Seq<u8>, i: int) -> int
    decreases s.len() - i,
{
    if 0 <= i && i < s.len() {
        if i + 1 < s.len() && s[i + 1] == s[i] {
            1 + run_len_at(s, i + 1)
        } else {
            1
        }
    } else {
        0
    }
}

/// A run inside the sequence has length at least 1, stays inside the
/// sequence, and consists of bytes equal to its first byte.
pub proof fn lemma_run_len_at_bounds(s: Seq<u8>, i: int)
    requires
        0 <= i < s.len(),
    ensures
        1 <= run_len_at(s, i) <= s.len() - i,
        forall|k: int| i <= k < i + run_len_at(s, i) ==> s[k] == s[i],
    decreases s.len() - i,
{
    if i + 1 < s.len() && s[i + 1] == s[i] {
        lemma_run_len_at_bounds(s, i + 1);
        assert forall|k: int| i <= k < i + run_len_at(s, i) implies s[k] == s[i] by {
            if i + 1 <= k < i + 1 + run_len_at(s, i + 1) {
                assert(s[k] == s[i + 1]);
            }
        }
    }
}

/// A stretch of equal bytes that ends at the end of the sequence or at a
/// differing byte is exactly the run the scanner reports.
pub proof fn lemma_run_len_at_exact(s: Seq<u8>, i: int, j: int)
    requires
        0 <= i < j <= s.len(),
        forall|k: int| i <= k < j ==> s[k] == s[i],
        j == s.len() || s[j] != s[i],
    ensures
        run_len_at(s, i) == j - i,
    decreases j - i,
{
    if i + 1 < j {
        assert(s[i + 1] == s[i]);
        assert forall|k: int| i + 1 <= k < j implies #[trigger] s[k] == s[i + 1] by {
            assert(s[k] == s[i]);
        }
        lemma_run_len_at_exact(s, i + 1, j);
    }
}

/// The Literal Segment that flushing a pending literal buffer emits:
/// nothing when the buffer is empty, else its length byte and its bytes.
pub open spec fn literal_flush(pending: Seq<u8>) -> Seq<u8>
    recommends
        pending.len() <= MAX_SEGMENT_SIZE,
{
    if pending.len() == 0 {
        Seq::empty()
    } else {
        seq![pending.len() as u8] + pending
    }
}

/// The Run Segments that encode a run of `l` copies of `v`: full segments
/// of length [`MAX_SEGMENT_SIZE`] while the remainder exceeds it, then one
/// final segment with the remainder.
pub open spec fn run_segments(v: u8, l: int) -> Seq<u8>
    recommends
        1 <= l,
    decreases l,
{
    if l > MAX_SEGMENT_SIZE as int {
        seq![ESCAPE, v, MAX_SEGMENT_SIZE as u8] + run_segments(v, l - MAX_SEGMENT_SIZE as int)
    } else {
        seq![ESCAPE, v, l as u8]
    }
}

/// One encoding step for each run from cursor `i` to the end of `chunk`,
/// starting with the pending literal bytes `pending`. Returns the emitted
/// bytes and the pending literal bytes left when the chunk is exhausted.
pub open spec fn encode_from(pending: Seq<u8>, chunk: Seq<u8>, i: int) -> (Seq<u8>, Seq<u8>)
    recommends
        0 <= i <= chunk.len(),
        pending.len() <= MAX_SEGMENT_SIZE,
    decreases chunk.len() - i,
    via encode_from_decreases
{
    if i < 0 || i >= chunk.len() {
        (Seq::empty(), pending)
    } else {
        let l = run_len_at(chunk, i);
        if l >= RUN_THRESHOLD as int {
            let rest = encode_from(Seq::empty(), chunk, i + l);
            (literal_flush(pending) + run_segments(chunk[i], l) + rest.0, rest.1)
        } else if pending.len() + l > MAX_SEGMENT_SIZE as int {
            let rest = encode_from(chunk.subrange(i, i + l), chunk, i + l);
            (literal_flush(pending) + rest.0, rest.1)
        } else {
            encode_from(pending + chunk.subrange(i, i + l), chunk, i + l)
        }
    }
}

#[via_fn]
proof fn encode_from_decreases(pending: Seq<u8>, chunk: Seq<u8>, i: int) {
    if 0 <= i && i < chunk.len() {
        lemma_run_len_at_bounds(chunk, i);
    }
}

/// The complete encoding of `input` taken as a single buffer: encode every
/// run, then flush whatever literal bytes are still pending.
pub open spec fn encode_all(input: Seq<u8>) -> Seq<u8> {
    let r = encode_from(Seq::empty(), input, 0);
    r.0 + literal_flush(r.1)
}

/// The ways an encoded stream can end in the middle of a segment; all of
/// them mark the stream as malformed (truncated or corrupt).
#[derive(Clone, Copy, Debug, PartialEq, Eq, Structural)]
pub enum DecodeError {
    /// End of stream right after an escape marker, where the repeated byte
    /// value was expected.
    TruncatedRunValue,
    /// End of stream after an escape marker and value, where the run length
    /// was expected.
    TruncatedRunLength,
    /// End of stream inside a Literal Segment's declared payload.
    TruncatedLiteral,
}

/// Prepends already-decoded bytes to the outcome of decoding the rest of a
/// stream; an error in the rest is the whole stream's error.
pub open spec fn prepend_decoded(p: Seq<u8>, r: Result<Seq<u8>, DecodeError>) -> Result<
    Seq<u8>,
    DecodeError,
> {
    match r {
        Ok(rest) => Ok(p + rest),
        Err(e) => Err(e),
    }
}

/// The meaning of an encoded stream: the bytes it decodes to, or the error
/// that marks it malformed. One segment is read per step; end of stream at
/// a segment boundary is success, end of stream inside a segment is an
/// error.
pub open spec fn decode_all(s: Seq<u8>) -> Result<Seq<u8>, DecodeError>
    decreases s.len(),
{
    if s.len() == 0 {
        Ok(Seq::empty())
    } else if s[0] == ESCAPE {
        if s.len() == 1 {
            Err(DecodeError::TruncatedRunValue)
        } else if s.len() == 2 {
            Err(DecodeError::TruncatedRunLength)
        } else {
            prepend_decoded(repeat_byte(s[1], s[2] as int), decode_all(s.subrange(3, s.len() as int)))
        }
    } else {
        let n = s[0] as int;
        if s.len() < 1 + n {
            Err(DecodeError::TruncatedLiteral)
        } else {
            prepend_decoded(s.subrange(1, 1 + n), decode_all(s.subrange(1 + n, s.len() as int)))
        }
    }
}

/// Count of consecutive bytes equal to `buf[start]` starting at `start`,
/// without reading past the end of the buffer.
pub fn scan_run(buf: &Vec<u8>, start: usize) -> (count: usize)
    requires
        start < buf.len(),
    ensures
        count == run_len_at(buf@, start as int),
        1 <= count <= buf.len() - start,
{
    let b = buf[start];
    let mut j = start + 1;
    while j < buf.len() && buf[j] == b
        invariant
            start < j <= buf.len(),
            buf@[start as int] == b,
            forall|k: int| start <= k < j ==> buf@[k] == b,
        decreases buf.len() - j,
    {
        j = j + 1;
    }
    proof {
        lemma_run_len_at_exact(buf@, start as int, j as int);
    }
    j - start
}

/// The streaming encoder: holds the pending literal bytes between buffers.
/// Feed buffers with [`Encoder::push_chunk`]; end the stream with
/// [`Encoder::finish`].
pub struct Encoder {
    pending: Vec<u8>,
}

impl View for Encoder {
    type V = Seq<u8>;

    closed spec fn view(&self) -> Seq<u8> {
        self.pending@
    }
}

impl Encoder {
    /// The pending literal buffer never outgrows one Literal Segment.
    pub open spec fn wf(&self) -> bool {
        self@.len() <= MAX_SEGMENT_SIZE
    }

    /// A fresh encoder with no pending literal bytes.
    pub fn new() -> (e: Encoder)
        ensures
            e.wf(),
            e@ == Seq::<u8>::empty(),
    {
        Encoder { pending: Vec::new() }
    }

    /// Flushes the pending literal buffer as one Literal Segment appended
    /// to `out` (nothing when no bytes are pending). Call at end of stream;
    /// the encoder itself flushes before every Run Segment and before the
    /// pending buffer would overflow.
    pub fn finish(&mut self, out: &mut Vec<u8>)
        requires
            old(self).wf(),
        ensures
            final(self).wf(),
            final(self)@ == Seq::<u8>::empty(),
            final(out)@ == old(out)@ + literal_flush(old(self)@),
    {
        if self.pending.len() > 0 {
            let len_byte = self.pending.len() as u8;
            out.push(len_byte);
            out.append(&mut self.pending);
        }
    }

    /// Encodes one input buffer, appending the emitted segments to `out`
    /// and carrying unflushed literal bytes over to the next buffer.
    pub fn push_chunk(&mut self, chunk: &Vec<u8>, out: &mut Vec<u8>)
        requires
            old(self).wf(),
        ensures
            final(self).wf(),
            final(out)@ == old(out)@ + encode_from(old(self)@, chunk@, 0).0,
            final(self)@ == encode_from(old(self)@, chunk@, 0).1,
    {
        let ghost pend0 = self@;
        let ghost out0 = out@;
        let ghost mut emitted: Seq<u8> = Seq::empty();
        proof {
            assert(out0 + emitted =~= out0);
            assert(emitted + encode_from(pend0, chunk@, 0).0 =~= encode_from(pend0, chunk@, 0).0);
        }
        let mut i: usize = 0;
        while i < chunk.len()
            invariant
                i <= chunk.len(),
                self.wf(),
                out@ == out0 + emitted,
                encode_from(pend0, chunk@, 0).0 == emitted + encode_from(self@, chunk@, i as int).0,
                encode_from(pend0, chunk@, 0).1 == encode_from(self@, chunk@, i as int).1,
            decreases chunk.len() - i,
        {
            let ghost pend_iter = self@;
            let ghost emitted_iter = emitted;
            let ghost i0 = i as int;
            let l = scan_run(chunk, i);
            let ghost l0 = l as int;
            if l >= RUN_THRESHOLD {
                let ghost rest = encode_from(Seq::empty(), chunk@, i0 + l0);
                proof {
                    assert(encode_from(pend_iter, chunk@, i0) == (
                        literal_flush(pend_iter) + run_segments(chunk@[i0], l0) + rest.0,
                        rest.1,
                    ));
                }
                self.finish(out);
                proof {
                    emitted = emitted + literal_flush(pend_iter);
                }
                let v = chunk[i];
                let ghost mut run_done: Seq<u8> = Seq::empty();
                proof {
                    assert(run_done + run_segments(v, l0) =~= run_segments(v, l0));
                }
                let mut rem = l;
                while rem > MAX_SEGMENT_SIZE
                    invariant
                        1 <= rem <= l,
                        self@ == Seq::<u8>::empty(),
                        out@ == out0 + emitted + run_done,
                        run_segments(v, l0) == run_done + run_segments(v, rem as int),
                    decreases rem,
                {
                    out.push(ESCAPE);
                    out.push(v);
                    out.push(MAX_SEGMENT_SIZE as u8);
                    rem = rem - MAX_SEGMENT_SIZE;
                    proof {
                        assert(run_segments(v, rem as int + MAX_SEGMENT_SIZE as int) == seq![
                            ESCAPE,
                            v,
                            MAX_SEGMENT_SIZE as u8,
                        ] + run_segments(v, rem as int));
                        let step = seq![ESCAPE, v, MAX_SEGMENT_SIZE as u8];
                        assert(out@ =~= out0 + emitted + (run_done + step));
                        assert(run_done + (step + run_segments(v, rem as int)) =~= (run_done + step)
                            + run_segments(v, rem as int));
                        run_done = run_done + step;
                    }
                }
                out.push(ESCAPE);
                out.push(v);
                out.push(rem as u8);
                i = i + l;
                proof {
                    assert(run_segments(v, rem as int) == seq![ESCAPE, v, rem as u8]);
                    let tail_seg = seq![ESCAPE, v, rem as u8];
                    assert(out@ =~= out0 + (emitted + (run_done + tail_seg)));
                    emitted = emitted + (run_done + tail_seg);
                    // The whole run branch emitted exactly the flushed literal
                    // and the run's segments.
                    assert(emitted =~= emitted_iter + (literal_flush(pend_iter) + run_segments(
                        v,
                        l0,
                    )));
                    assert(emitted_iter + (literal_flush(pend_iter) + run_segments(v, l0) + rest.0)
                        =~= emitted + rest.0);
                    assert(self@ =~= Seq::<u8>::empty());
                }
            } else {
                let ghost rest_pending = if pend_iter.len() + l0 > MAX_SEGMENT_SIZE as int {
                    chunk@.subrange(i0, i0 + l0)
                } else {
                    pend_iter + chunk@.subrange(i0, i0 + l0)
                };
                if self.pending.len() + l > MAX_SEGMENT_SIZE {
                    self.finish(out);
                    proof {
                        emitted = emitted + literal_flush(pend_iter);
                    }
                }
                let ghost pend_mid = self@;
                let mut k: usize = 0;
                proof {
                    assert(pend_mid + chunk@.subrange(i0, i0) =~= pend_mid);
                }
                while k < l
                    invariant
                        k <= l,
                        i0 + l0 <= chunk.len(),
                        i == i0,
                        l == l0,
                        pend_mid.len() + l0 <= MAX_SEGMENT_SIZE,
                        self@ == pend_mid + chunk@.subrange(i0, i0 + k as int),
                        out@ == out0 + emitted,
                    decreases l - k,
                {
                    self.pending.push(chunk[i + k]);
                    k = k + 1;
                    proof {
                        assert(chunk@.subrange(i0, i0 + k as int) =~= chunk@.subrange(
                            i0,
                            i0 + k as int - 1,
                        ) + seq![chunk@[i0 + k - 1]]);
                        assert(pend_mid + chunk@.subrange(i0, i0 + k as int) =~= (pend_mid
                            + chunk@.subrange(i0, i0 + k as int - 1)) + seq![chunk@[i0 + k - 1]]);
                    }
                }
                i = i + l;
                proof {
                    assert(self@ =~= rest_pending);
                    if pend_iter.len() + l0 > MAX_SEGMENT_SIZE as int {
                        assert(encode_from(pend_iter, chunk@, i0) == (
                            literal_flush(pend_iter) + encode_from(rest_pending, chunk@, i0 + l0).0,
                            encode_from(rest_pending, chunk@, i0 + l0).1,
                        ));
                        assert(emitted_iter + (literal_flush(pend_iter) + encode_from(
                            rest_pending,
                            chunk@,
                            i0 + l0,
                        ).0) =~= emitted + encode_from(rest_pending, chunk@, i0 + l0).0);
                    } else {
                        assert(encode_from(pend_iter, chunk@, i0) == encode_from(
                            rest_pending,
                            chunk@,
                            i0 + l0,
                        ));
                    }
                }
            }
        }
        proof {
            assert(encode_from(self@, chunk@, i as int) == (Seq::<u8>::empty(), self@));
            assert(emitted + Seq::<u8>::empty() =~= emitted);
        }
    }
}

/// Encodes `input` taken as one buffer, flushing at end of stream.
pub fn compress(input: &Vec<u8>) -> (out: Vec<u8>)
    ensures
        out@ == encode_all(input@),
{
    let mut enc = Encoder::new();
    let mut out: Vec<u8> = Vec::new();
    enc.push_chunk(input, &mut out);
    enc.finish(&mut out);
    proof {
        assert(Seq::<u8>::empty() + encode_from(Seq::empty(), input@, 0).0 =~= encode_from(
            Seq::empty(),
            input@,
            0,
        ).0);
        assert((Seq::<u8>::empty() + encode_from(Seq::empty(), input@, 0).0) + literal_flush(
            encode_from(Seq::empty(), input@, 0).1,
        ) =~= encode_all(input@));
    }
    out
}

/// Appends `n` copies of `v` to `out`.
fn push_repeated(out: &mut Vec<u8>, v: u8, n: usize)
    ensures
        final(out)@ == old(out)@ + repeat_byte(v, n as int),
{
    let mut k: usize = 0;
    while k < n
        invariant
            k <= n,
            out@ == old(out)@ + repeat_byte(v, k as int),
        decreases n - k,
    {
        out.push(v);
        k = k + 1;
        proof {
            assert(repeat_byte(v, k as int) =~= repeat_byte(v, k as int - 1) + seq![v]);
            assert(old(out)@ + repeat_byte(v, k as int) =~= (old(out)@ + repeat_byte(
                v,
                k as int - 1,
            )) + seq![v]);
        }
    }
    proof {
        assert(old(out)@ + repeat_byte(v, 0) =~= old(out)@);
    }
}

/// Decodes an encoded stream back to the original bytes, or reports where
/// a truncated stream ran out: the decoder reads exactly one segment at a
/// time and never reads past a declared segment boundary.
pub fn expand(input: &Vec<u8>) -> (r: Result<Vec<u8>, DecodeError>)
    ensures
        match r {
            Ok(out) => decode_all(input@) == Ok::<Seq<u8>, DecodeError>(out@),
            Err(e) => decode_all(input@) == Err::<Seq<u8>, DecodeError>(e),
        },
{
    let ghost whole = input@;
    let mut out: Vec<u8> = Vec::new();
    let mut pos: usize = 0;
    proof {
        assert(whole.subrange(0, whole.len() as int) =~= whole);
        assert(Seq::<u8>::empty() + decode_all(whole)->Ok_0 =~= decode_all(whole)->Ok_0);
    }
    while pos < input.len()
        invariant
            pos <= input.len(),
            whole == input@,
            decode_all(whole) == prepend_decoded(
                out@,
                decode_all(whole.subrange(pos as int, whole.len() as int)),
            ),
        decreases input.len() - pos,
    {
        let ghost tail = whole.subrange(pos as int, whole.len() as int);
        let ghost out_iter = out@;
        let h = input[pos];
        if h == ESCAPE {
            if input.len() - pos < 3 {
                if input.len() - pos == 1 {
                    proof {
                        assert(decode_all(tail) == Err::<Seq<u8>, DecodeError>(
                            DecodeError::TruncatedRunValue,
                        ));
                    }
                    return Err(DecodeError::TruncatedRunValue);
                } else {
                    proof {
                        assert(decode_all(tail) == Err::<Seq<u8>, DecodeError>(
                            DecodeError::TruncatedRunLength,
                        ));
                    }
                    return Err(DecodeError::TruncatedRunLength);
                }
            }
            let v = input[pos + 1];
            let c = input[pos + 2];
            push_repeated(&mut out, v, c as usize);
            pos = pos + 3;
            proof {
                let newtail = whole.subrange(pos as int, whole.len() as int);
                assert(tail.subrange(3, tail.len() as int) =~= newtail);
                assert(tail[1] == v && tail[2] == c);
                assert(decode_all(tail) == prepend_decoded(
                    repeat_byte(v, c as int),
                    decode_all(newtail),
                ));
                if decode_all(newtail) is Ok {
                    assert(out_iter + (repeat_byte(v, c as int) + decode_all(newtail)->Ok_0) =~= out@
                        + decode_all(newtail)->Ok_0);
                }
            }
        } else {
            let n = h as usize;
            if input.len() - (pos + 1) < n {
                proof {
                    assert(tail[0] != ESCAPE);
                    assert(decode_all(tail) == Err::<Seq<u8>, DecodeError>(
                        DecodeError::TruncatedLiteral,
                    ));
                }
                return Err(DecodeError::TruncatedLiteral);
            }
            let mut k: usize = 0;
            proof {
                assert(out@ + whole.subrange(pos as int + 1, pos as int + 1) =~= out@);
            }
            while k < n
                invariant
                    k <= n,
                    pos + 1 + n <= input.len(),
                    whole == input@,
                    out@ == out_iter + whole.subrange(pos as int + 1, pos as int + 1 + k as int),
                decreases n - k,
            {
                out.push(input[pos + 1 + k]);
                k = k + 1;
                proof {
                    assert(whole.subrange(pos as int + 1, pos as int + 1 + k as int) =~=
                        whole.subrange(pos as int + 1, pos as int + k as int) + seq![
                        whole[pos as int + k],
                    ]);
                    assert(out_iter + whole.subrange(pos as int + 1, pos as int + 1 + k as int) =~= (
                    out_iter + whole.subrange(pos as int + 1, pos as int + k as int)) + seq![
                        whole[pos as int + k],
                    ]);
                }
            }
            pos = pos + 1 + n;
            proof {
                let newtail = whole.subrange(pos as int, whole.len() as int);
                let lit = tail.subrange(1, 1 + n as int);
                assert(tail[0] == h && h != ESCAPE);
                assert(tail.len() >= 1 + n as int);
                assert(tail.subrange(1 + n as int, tail.len() as int) =~= newtail);
                assert(decode_all(tail) == prepend_decoded(lit, decode_all(newtail)));
                assert(lit =~= whole.subrange(
                    pos as int - n as int,
                    pos as int,
                ));
                assert(out@ =~= out_iter + lit);
                if decode_all(newtail) is Ok {
                    assert(out_iter + (lit + decode_all(newtail)->Ok_0) =~= out@ + decode_all(
                        newtail,
                    )->Ok_0);
                }
            }
        }
    }
    proof {
        assert(whole.subrange(pos as int, whole.len() as int) =~= Seq::<u8>::empty());
        assert(decode_all(Seq::<u8>::empty()) == Ok::<Seq<u8>, DecodeError>(Seq::empty()));
        assert(out@ + Seq::<u8>::empty() =~= out@);
    }
    Ok(out)
}

} // verus!
