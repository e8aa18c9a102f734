//! Decoding undoes encoding.
use vstd::prelude::*;

use crate::dec::{
    feed_results, feed_spec, feed_state, law_feed_restarts, lemma_feed_results_append, lemma_payloads_append,
    lemma_stream_push_bounds, lemma_stream_push_parsed, lemma_stream_push_trace, payloads, DecodeResult, decode_spec, lemma_stream_push_append, lemma_stream_push_run, splice, stream_feed,
    stream_push, xor_bytes, zeros, DecodeError, DecoderState, StreamView,
};
use crate::enc::{
    cobs_encode, encode_blocks, ends_in_full_run, first_zero, lemma_encode_blocks_nonzero,
    lemma_encoding_has_no_zero,
    lemma_encoding_length, lemma_first_zero, lemma_full_run_end, lemma_push,
};

verus! {

/// The encoding piece by piece: a full run is written as `0xFF` and its 254
/// bytes, followed by the encoding of the rest if there is a rest; a piece
/// cut by a zero is written as its length plus one and its bytes, followed by
/// the encoding of what follows the zero; the last piece otherwise.
proof fn lemma_cobs_encode_unfold(src: Seq<u8>)
    ensures
        ({
            let run = first_zero(src);
            let c = cobs_encode(src);
            &&& run >= 254 && src.len() == 254 ==> c == seq![0xFFu8] + src
            &&& run >= 254 && src.len() > 254 ==> c == seq![0xFFu8] + src.take(254) + cobs_encode(
                src.skip(254),
            )
            &&& run < 254 && run == src.len() ==> c == seq![(run + 1) as u8] + src
            &&& run < 254 && run < src.len() ==> c == seq![(run + 1) as u8] + src.take(run as int)
                + cobs_encode(src.skip(run + 1int))
            &&& run <= src.len()
            &&& forall|i: int| 0 <= i < run ==> src[i] != 0
            &&& run < src.len() ==> src[run as int] == 0
            &&& c.len() >= 1
        }),
{
    let run = first_zero(src);
    lemma_first_zero(src);
    lemma_encoding_length(src);
    lemma_full_run_end(src);
    if run >= 254 {
        let t = src.skip(254);
        let h = seq![0xFFu8] + src.take(254);
        if src.len() == 254 {
            assert(t =~= Seq::<u8>::empty());
            assert(encode_blocks(t) =~= seq![1u8]);
            assert(src.take(254) =~= src);
            assert((h + seq![1u8]).drop_last() =~= h);
        } else {
            lemma_push(t, 0);
            let et = encode_blocks(t);
            if ends_in_full_run(t) {
                assert((h + et).drop_last() =~= h + et.drop_last());
            }
        }
    } else if run < src.len() {
        let t = src.skip(run + 1int);
        let h = seq![(run + 1) as u8] + src.take(run as int);
        lemma_push(t, 0);
        let et = encode_blocks(t);
        if ends_in_full_run(t) {
            assert((h + et).drop_last() =~= h + et.drop_last());
        }
    }
}

/// The decoder is between two pieces of a frame: at the start of a frame,
/// after a piece that a zero follows, or after a full run.
pub open spec fn between_pieces(s: DecoderState) -> bool {
    s == DecoderState::Idle || s == DecoderState::Grab(0) || s == DecoderState::GrabChain(0)
}

/// The zero that a decoder between pieces still has to write before the
/// next piece.
pub open spec fn pending_zero(s: DecoderState) -> Seq<u8> {
    if s == DecoderState::Grab(0) {
        seq![0u8]
    } else {
        seq![]
    }
}

/// Where the output of a decoder between pieces continues: a new frame
/// starts at the front of the buffer.
pub open spec fn output_base(v: StreamView) -> int {
    if v.state == DecoderState::Idle {
        0
    } else {
        v.idx as int
    }
}

proof fn lemma_header(v: StreamView, c: u8)
    requires
        between_pieces(v.state),
        c != 0,
        output_base(v) + pending_zero(v.state).len() <= v.dest.len(),
        v.dest.len() <= usize::MAX,
    ensures
        stream_push(v, seq![c]) == (
            Ok::<Option<(usize, usize)>, DecodeError>(None),
            StreamView {
                idx: (output_base(v) + pending_zero(v.state).len()) as usize,
                state: if c == 0xFF {
                    DecoderState::GrabChain(0xFE)
                } else {
                    DecoderState::Grab((c - 1) as u8)
                },
                dest: splice(v.dest, output_base(v), pending_zero(v.state)),
            },
        ),
{
    let s = seq![c];
    let (r1, v1) = stream_feed(v, c);
    assert(s.drop_first() =~= Seq::<u8>::empty());
    assert(stream_push(v1, s.drop_first()) == (Ok::<Option<(usize, usize)>, DecodeError>(None), v1));
    if v.state == DecoderState::Grab(0) {
        assert(v1.dest =~= splice(v.dest, output_base(v), pending_zero(v.state)));
    } else {
        assert(v1.dest =~= splice(v.dest, output_base(v), pending_zero(v.state)));
    }
}

/// Feeding the encoding of a message to a decoder between pieces writes the
/// message (after the pending zero) and leaves the decoder between pieces.
#[verifier::spinoff_prover]
#[verifier::rlimit(60)]
proof fn lemma_frame(src: Seq<u8>, v: StreamView)
    requires
        between_pieces(v.state),
        output_base(v) + pending_zero(v.state).len() + src.len() <= v.dest.len(),
        v.dest.len() <= usize::MAX,
        cobs_encode(src).len() <= usize::MAX,
    ensures
        stream_push(v, cobs_encode(src)) == (
            Ok::<Option<(usize, usize)>, DecodeError>(None),
            StreamView {
                idx: (output_base(v) + pending_zero(v.state).len() + src.len()) as usize,
                state: if ends_in_full_run(src) {
                    DecoderState::GrabChain(0)
                } else {
                    DecoderState::Grab(0)
                },
                dest: splice(v.dest, output_base(v), pending_zero(v.state) + src),
            },
        ),
    decreases src.len(),
{
    lemma_cobs_encode_unfold(src);
    lemma_full_run_end(src);
    let run = first_zero(src);
    let c = cobs_encode(src);
    let base = output_base(v);
    let pend = pending_zero(v.state);
    let code: u8 = if run >= 254 {
        0xFFu8
    } else {
        (run + 1) as u8
    };
    let dlen: int = if run >= 254 {
        254
    } else {
        run as int
    };
    let data = src.take(dlen);
    lemma_header(v, code);
    let v1 = stream_push(v, seq![code]).1;
    assert(data.len() == dlen);
    assert forall|i: int| 0 <= i < data.len() implies data[i] != 0 by {
        assert(data[i] == src[i]);
    }
    if run >= 254 {
        assert(v1.state == DecoderState::GrabChain(data.len() as u8));
    } else {
        assert(v1.state == DecoderState::Grab(data.len() as u8));
    }
    lemma_stream_push_run(v1, data, run >= 254);
    lemma_stream_push_append(v, seq![code], data);
    let v2 = stream_push(v1, data).1;
    let head = seq![code] + data;
    assert(stream_push(v, head) == (Ok::<Option<(usize, usize)>, DecodeError>(None), v2));
    if run >= 254 && src.len() == 254 {
        assert(c =~= head);
        assert(data =~= src);
        assert(v2.dest =~= splice(v.dest, base, pend + src));
    } else if run < 254 && run == src.len() {
        assert(c =~= head);
        assert(data =~= src);
        assert(v2.dest =~= splice(v.dest, base, pend + src));
    } else {
        let t = if run >= 254 {
            src.skip(254)
        } else {
            src.skip(run + 1int)
        };
        assert(c =~= head + cobs_encode(t));
        lemma_frame(t, v2);
        lemma_stream_push_append(v, head, cobs_encode(t));
        let pend2 = pending_zero(v2.state);
        assert(output_base(v2) == v2.idx);
        assert(data + pend2 + t =~= src) by {
            if run < 254 {
                assert(src.take(run as int) + seq![0u8] + src.skip(run + 1int) =~= src);
            } else {
                assert(src.take(254) + src.skip(254) =~= src);
            }
        }
        assert(splice(v2.dest, v2.idx as int, pend2 + t) =~= splice(v.dest, base, pend + src));
        if run < 254 {
            assert(ends_in_full_run(src) == ends_in_full_run(t));
        }
    }
}

/// Streaming decoding undoes encoding: a decoder at the start of a frame that
/// is fed the encoding of a message and the terminating zero reports the whole
/// message, having parsed all of it, and has written the message to the front
/// of its output buffer; it is then back at the start of a frame.
pub proof fn law_stream_roundtrip(src: Seq<u8>, v: StreamView)
    requires
        v.state == DecoderState::Idle,
        src.len() <= v.dest.len() <= usize::MAX,
        cobs_encode(src).len() + 1 <= usize::MAX,
    ensures
        stream_push(v, cobs_encode(src) + seq![0u8]) == (
            Ok::<Option<(usize, usize)>, DecodeError>(
                Some((src.len() as usize, (cobs_encode(src).len() + 1) as usize)),
            ),
            StreamView {
                idx: src.len() as usize,
                state: DecoderState::Idle,
                dest: splice(v.dest, 0, src),
            },
        ),
{
    let c = cobs_encode(src);
    lemma_frame(src, v);
    assert(pending_zero(v.state) + src =~= src);
    let v2 = stream_push(v, c).1;
    lemma_stream_push_append(v, c, seq![0u8]);
    let z = seq![0u8];
    assert(z.drop_first() =~= Seq::<u8>::empty());
    let (r3, v3) = stream_feed(v2, 0);
    assert(r3 == Ok::<Option<usize>, DecodeError>(Some(v2.idx)));
    assert(stream_push(v2, z) == (
        Ok::<Option<(usize, usize)>, DecodeError>(Some((v2.idx, 1usize))),
        v3,
    ));
}

/// Zero bytes before a frame are ignored by a decoder at the start of a frame.
pub proof fn law_stream_skips_leading_zero(v: StreamView, data: Seq<u8>)
    requires
        v.state == DecoderState::Idle,
        data.len() + 1 <= usize::MAX,
    ensures
        stream_push(v, seq![0u8] + data) == (
            crate::dec::shift_parsed(stream_push(v, data).0, 1),
            stream_push(v, data).1,
        ),
{
    let z = seq![0u8];
    assert(z.drop_first() =~= Seq::<u8>::empty());
    let (r1, v1) = stream_feed(v, 0);
    assert(v1 == v);
    assert(r1 == Ok::<Option<usize>, DecodeError>(None));
    assert(stream_push(v1, z.drop_first()) == (Ok::<Option<(usize, usize)>, DecodeError>(None), v));
    assert(stream_push(v, z) == (Ok::<Option<(usize, usize)>, DecodeError>(None), v));
    lemma_stream_push_append(v, z, data);
}

/// `decode` undoes encoding, whether the encoding is followed by the
/// terminating zero or not: it reports the whole message and the bytes parsed,
/// and writes the message to the front of `dest`, which it leaves otherwise
/// unchanged.
pub proof fn law_decode_roundtrip(src: Seq<u8>, dest: Seq<u8>)
    requires
        src.len() <= dest.len() <= usize::MAX,
        cobs_encode(src).len() <= usize::MAX,
    ensures
        decode_spec(cobs_encode(src), dest) == (
            Ok::<(usize, usize), DecodeError>((src.len() as usize, cobs_encode(src).len() as usize)),
            splice(dest, 0, src),
        ),
        cobs_encode(src).len() + 1 <= usize::MAX ==> decode_spec(
            cobs_encode(src) + seq![0u8],
            dest,
        ) == (
            Ok::<(usize, usize), DecodeError>(
                (src.len() as usize, (cobs_encode(src).len() + 1) as usize),
            ),
            splice(dest, 0, src),
        ),
{
    let c = cobs_encode(src);
    let start = StreamView { idx: 0, state: DecoderState::Idle, dest };
    lemma_cobs_encode_unfold(src);
    if c.len() + 1 <= usize::MAX {
        law_stream_roundtrip(src, start);
    }
    lemma_frame(src, start);
    assert(pending_zero(start.state) + src =~= src);
    lemma_encoding_has_no_zero(src);
    assert(c.last() != 0);
    let v2 = stream_push(start, c).1;
    let z = seq![0u8];
    assert(z.drop_first() =~= Seq::<u8>::empty());
    let (r3, v3) = stream_feed(v2, 0);
    assert(stream_push(v2, z) == (
        Ok::<Option<(usize, usize)>, DecodeError>(Some((v2.idx, 1usize))),
        v3,
    ));
}

/// Decoding the encoding of a message in place gives back the message at the
/// front of the buffer, having parsed the whole encoding.
pub proof fn law_decode_in_place_roundtrip(src: Seq<u8>)
    requires
        cobs_encode(src).len() <= usize::MAX,
    ensures
        decode_spec(cobs_encode(src), cobs_encode(src)) == (
            Ok::<(usize, usize), DecodeError>((src.len() as usize, cobs_encode(src).len() as usize)),
            splice(cobs_encode(src), 0, src),
        ),
{
    lemma_encoding_length(src);
    law_decode_roundtrip(src, cobs_encode(src));
}

/// `decode_vec` gives back what `encode_vec` encoded, with or without the
/// terminating zero after the encoding.
pub proof fn law_vec_roundtrip(src: Seq<u8>)
    requires
        cobs_encode(src).len() <= usize::MAX,
    ensures
        ({
            let c = cobs_encode(src);
            let (r, out) = decode_spec(c, zeros(c.len()));
            r == Ok::<(usize, usize), DecodeError>((src.len() as usize, c.len() as usize))
                && out.take(src.len() as int) == src
        }),
        cobs_encode(src).len() + 1 <= usize::MAX ==> ({
            let c = cobs_encode(src) + seq![0u8];
            let (r, out) = decode_spec(c, zeros(c.len()));
            r == Ok::<(usize, usize), DecodeError>(
                (src.len() as usize, (cobs_encode(src).len() + 1) as usize),
            ) && out.take(src.len() as int) == src
        }),
{
    lemma_encoding_length(src);
    let c = cobs_encode(src);
    law_decode_roundtrip(src, zeros(c.len()));
    assert(splice(zeros(c.len()), 0, src).take(src.len() as int) =~= src);
    if c.len() + 1 <= usize::MAX {
        law_decode_roundtrip(src, zeros(c.len() + 1));
        assert(splice(zeros(c.len() + 1), 0, src).take(src.len() as int) =~= src);
    }
}

/// `decode_vec_with_sentinel` gives back what `encode_vec_with_sentinel`
/// encoded with the same sentinel.
pub proof fn law_vec_roundtrip_with_sentinel(src: Seq<u8>, sentinel: u8)
    requires
        cobs_encode(src).len() <= usize::MAX,
    ensures
        ({
            let c = cobs_encode(src).map_values(|b: u8| b ^ sentinel);
            let (r, out) = decode_spec(xor_bytes(c, sentinel), zeros(c.len()));
            r == Ok::<(usize, usize), DecodeError>((src.len() as usize, c.len() as usize))
                && out.take(src.len() as int) == src
        }),
{
    lemma_encoding_length(src);
    let e = cobs_encode(src);
    let c = e.map_values(|b: u8| b ^ sentinel);
    assert forall|i: int| 0 <= i < e.len() implies #[trigger] (e[i] ^ sentinel) ^ sentinel == e[i] by {
        let x = e[i];
        assert((x ^ sentinel) ^ sentinel == x) by (bit_vector);
    }
    assert(xor_bytes(c, sentinel) =~= e);
    law_decode_roundtrip(src, zeros(c.len()));
    assert(splice(zeros(c.len()), 0, src).take(src.len() as int) =~= src);
}

/// Once a push runs into an error, more bytes after it change nothing.
proof fn lemma_stream_push_err(v: StreamView, a: Seq<u8>, b: Seq<u8>)
    requires
        stream_push(v, a).0 is Err,
    ensures
        stream_push(v, a + b).0 == stream_push(v, a).0,
    decreases a.len(),
{
    assert(a.len() > 0);
    let (r1, v1) = stream_feed(v, a[0]);
    assert((a + b)[0] == a[0]);
    assert((a + b).drop_first() =~= a.drop_first() + b);
    if r1 == Ok::<Option<usize>, DecodeError>(None) {
        lemma_stream_push_err(v1, a.drop_first(), b);
    }
}

/// Data bytes that run past the end of the output buffer end in
/// `TargetBufTooSmall`.
proof fn lemma_run_overflow(v: StreamView, d: Seq<u8>, chain: bool)
    requires
        v.state == (if chain {
            DecoderState::GrabChain(d.len() as u8)
        } else {
            DecoderState::Grab(d.len() as u8)
        }),
        d.len() <= 254,
        forall|i: int| 0 <= i < d.len() ==> d[i] != 0,
        v.idx <= v.dest.len(),
        v.idx + d.len() > v.dest.len(),
        v.dest.len() <= usize::MAX,
    ensures
        stream_push(v, d).0 == Err::<Option<(usize, usize)>, DecodeError>(
            DecodeError::TargetBufTooSmall,
        ),
    decreases d.len(),
{
    let (r1, v1) = stream_feed(v, d[0]);
    if v.idx < v.dest.len() {
        lemma_run_overflow(v1, d.drop_first(), chain);
    }
}

/// Feeding the encoding of a message to a decoder between pieces whose
/// output buffer cannot hold the message ends in `TargetBufTooSmall`.
#[verifier::spinoff_prover]
#[verifier::rlimit(60)]
proof fn lemma_frame_overflow(src: Seq<u8>, v: StreamView)
    requires
        between_pieces(v.state),
        v.idx <= v.dest.len(),
        output_base(v) + pending_zero(v.state).len() + src.len() > v.dest.len(),
        v.dest.len() <= usize::MAX,
        cobs_encode(src).len() <= usize::MAX,
    ensures
        stream_push(v, cobs_encode(src)).0 == Err::<Option<(usize, usize)>, DecodeError>(
            DecodeError::TargetBufTooSmall,
        ),
    decreases src.len(),
{
    lemma_cobs_encode_unfold(src);
    let run = first_zero(src);
    let c = cobs_encode(src);
    let base = output_base(v);
    let pend = pending_zero(v.state);
    let code: u8 = if run >= 254 {
        0xFFu8
    } else {
        (run + 1) as u8
    };
    let dlen: int = if run >= 254 {
        254
    } else {
        run as int
    };
    let data = src.take(dlen);
    let head = seq![code] + data;
    assert(data.len() == dlen);
    let rest: Seq<u8> = if run >= 254 && src.len() == 254 || run < 254 && run == src.len() {
        Seq::<u8>::empty()
    } else if run >= 254 {
        cobs_encode(src.skip(254))
    } else {
        cobs_encode(src.skip(run + 1int))
    };
    assert(c =~= head + rest);
    if base + pend.len() > v.dest.len() {
        // The zero that precedes the next piece does not fit
        assert(head[0] == code);
        assert(stream_push(v, head).0 == Err::<Option<(usize, usize)>, DecodeError>(
            DecodeError::TargetBufTooSmall,
        ));
        lemma_stream_push_err(v, head, rest);
    } else {
        lemma_header(v, code);
        let v1 = stream_push(v, seq![code]).1;
        assert forall|i: int| 0 <= i < data.len() implies data[i] != 0 by {
            assert(data[i] == src[i]);
        }
        if run >= 254 {
            assert(v1.state == DecoderState::GrabChain(data.len() as u8));
        } else {
            assert(v1.state == DecoderState::Grab(data.len() as u8));
        }
        if v1.idx + data.len() > v1.dest.len() {
            lemma_run_overflow(v1, data, run >= 254);
            lemma_stream_push_err(v1, data, Seq::<u8>::empty());
            assert(data + Seq::<u8>::empty() =~= data);
            lemma_stream_push_append(v, seq![code], data);
            lemma_stream_push_err(v, head, rest);
        } else {
            lemma_stream_push_run(v1, data, run >= 254);
            lemma_stream_push_append(v, seq![code], data);
            let v2 = stream_push(v1, data).1;
            assert(stream_push(v, head) == (Ok::<Option<(usize, usize)>, DecodeError>(None), v2));
            let t = if run >= 254 {
                src.skip(254)
            } else {
                src.skip(run + 1int)
            };
            assert(src.len() == data.len() + pending_zero(v2.state).len() + t.len()) by {
                if run < 254 && run < src.len() {
                    assert(v2.state == DecoderState::Grab(0));
                }
            }
            lemma_frame_overflow(t, v2);
            lemma_stream_push_append(v, head, rest);
        }
    }
}

/// A decoder reports `TargetBufTooSmall` exactly when its output buffer is
/// shorter than the message: decoding the encoding of a message into a
/// shorter buffer, with or without the terminating zero, gives that error
/// (the roundtrip laws give the message back otherwise).
pub proof fn law_decode_too_small(src: Seq<u8>, dest: Seq<u8>)
    requires
        dest.len() < src.len(),
        cobs_encode(src).len() <= usize::MAX,
    ensures
        decode_spec(cobs_encode(src), dest).0 == Err::<(usize, usize), DecodeError>(
            DecodeError::TargetBufTooSmall,
        ),
        decode_spec(cobs_encode(src) + seq![0u8], dest).0 == Err::<(usize, usize), DecodeError>(
            DecodeError::TargetBufTooSmall,
        ),
{
    lemma_encoding_length(src);
    let c = cobs_encode(src);
    let start = StreamView { idx: 0, state: DecoderState::Idle, dest };
    lemma_frame_overflow(src, start);
    lemma_stream_push_err(start, c, seq![0u8]);
}

/// The decoder after feeding `data` one byte at a time, whatever each byte
/// reports.
pub open spec fn feed_each(v: StreamView, data: Seq<u8>) -> StreamView
    decreases data.len(),
{
    if data.len() == 0 {
        v
    } else {
        feed_each(stream_feed(v, data[0]).1, data.drop_first())
    }
}

/// A push that completes no frame and raises no error is feeding its bytes
/// one at a time, each of which reports `Ok(None)`.
proof fn lemma_push_bytewise(v: StreamView, a: Seq<u8>)
    requires
        stream_push(v, a).0 == Ok::<Option<(usize, usize)>, DecodeError>(None),
    ensures
        stream_push(v, a).1 == feed_each(v, a),
        forall|i: int|
            0 <= i < a.len() ==> #[trigger] stream_feed(feed_each(v, a.take(i)), a[i]).0
                == Ok::<Option<usize>, DecodeError>(None),
    decreases a.len(),
{
    if a.len() > 0 {
        let (r1, v1) = stream_feed(v, a[0]);
        let t = a.drop_first();
        lemma_push_bytewise(v1, t);
        assert forall|i: int| 0 <= i < a.len() implies #[trigger] stream_feed(
            feed_each(v, a.take(i)),
            a[i],
        ).0 == Ok::<Option<usize>, DecodeError>(None) by {
            if i == 0 {
                assert(a.take(0) =~= Seq::<u8>::empty());
                assert(feed_each(v, a.take(0)) == v);
                assert(r1 == Ok::<Option<usize>, DecodeError>(None));
            } else {
                let ai = a.take(i);
                assert(ai.drop_first() =~= t.take(i - 1));
                assert(ai[0] == a[0]);
                assert(a[i] == t[i - 1]);
                assert(feed_each(v, ai) == feed_each(v1, t.take(i - 1)));
                assert(stream_feed(feed_each(v1, t.take(i - 1)), t[i - 1]).0 == Ok::<
                    Option<usize>,
                    DecodeError,
                >(None));
            }
        }
    }
}

/// Fed the encoding of a message one byte at a time, a decoder at the start
/// of a frame reports `Ok(None)` for every byte, and the terminating zero then
/// reports the whole message, written at the front of its buffer; the decoder
/// is then at the start of a frame again, ready for the next one.
pub proof fn law_frame_bytewise(src: Seq<u8>, v: StreamView)
    requires
        v.state == DecoderState::Idle,
        src.len() <= v.dest.len() <= usize::MAX,
        cobs_encode(src).len() <= usize::MAX,
    ensures
        forall|i: int|
            0 <= i < cobs_encode(src).len() ==> #[trigger] stream_feed(
                feed_each(v, cobs_encode(src).take(i)),
                cobs_encode(src)[i],
            ).0 == Ok::<Option<usize>, DecodeError>(None),
        stream_feed(feed_each(v, cobs_encode(src)), 0) == (
            Ok::<Option<usize>, DecodeError>(Some(src.len() as usize)),
            StreamView {
                idx: src.len() as usize,
                state: DecoderState::Idle,
                dest: splice(v.dest, 0, src),
            },
        ),
{
    lemma_frame(src, v);
    assert(pending_zero(v.state) + src =~= src);
    lemma_push_bytewise(v, cobs_encode(src));
}

/// The block structure that the `EncoderState` protocol builds (which after a
/// final full run still has the empty last piece) holds no zero byte, and it
/// also decodes to the message.
pub proof fn law_encode_blocks_decodes(p: Seq<u8>, dest: Seq<u8>)
    requires
        p.len() <= dest.len() <= usize::MAX,
        encode_blocks(p).len() <= usize::MAX,
    ensures
        forall|i: int| 0 <= i < encode_blocks(p).len() ==> #[trigger] encode_blocks(p)[i] != 0,
        decode_spec(encode_blocks(p), dest) == (
            Ok::<(usize, usize), DecodeError>((p.len() as usize, encode_blocks(p).len() as usize)),
            splice(dest, 0, p),
        ),
{
    let e = encode_blocks(p);
    let c = cobs_encode(p);
    lemma_encode_blocks_nonzero(p);
    lemma_push(p, 0);
    lemma_full_run_end(p);
    lemma_encoding_length(p);
    if !ends_in_full_run(p) {
        law_decode_roundtrip(p, dest);
    } else {
        let start = StreamView { idx: 0, state: DecoderState::Idle, dest };
        lemma_frame(p, start);
        assert(pending_zero(start.state) + p =~= p);
        let v2 = stream_push(start, c).1;
        assert(e.last() == 1u8);
        assert(e =~= c + seq![1u8]);
        let one = seq![1u8];
        assert(one.drop_first() =~= Seq::<u8>::empty());
        assert(v2.state == DecoderState::GrabChain(0));
        assert(one[0] == 1u8);
        let (r3, v3) = stream_feed(v2, 1);
        assert(r3 == Ok::<Option<usize>, DecodeError>(None));
        assert(stream_push(v3, one.drop_first()) == (Ok::<Option<(usize, usize)>, DecodeError>(None), v3));
        assert(stream_push(v2, one) == (Ok::<Option<(usize, usize)>, DecodeError>(None), v3));
        lemma_stream_push_append(start, c, one);
        let z = seq![0u8];
        assert(z.drop_first() =~= Seq::<u8>::empty());
        assert(z[0] == 0u8);
        let (r4, v4) = stream_feed(v3, 0);
        assert(stream_push(v3, z) == (
            Ok::<Option<(usize, usize)>, DecodeError>(Some((v3.idx, 1usize))),
            v4,
        ));
    }
}


/// The state machine alone, fed the encoding of a message and then the
/// terminating zero from the idle state: the first byte starts a frame, no
/// byte before the terminator reports an error or a complete frame, the
/// terminator completes it and returns the machine to idle, and the
/// `DataContinue` payloads are exactly the message.
pub proof fn law_feed_frame(src: Seq<u8>)
    requires
        cobs_encode(src).len() <= usize::MAX,
    ensures
        ({
            let c = cobs_encode(src);
            let rs = feed_results(DecoderState::Idle, c + seq![0u8]);
            &&& rs.len() == c.len() + 1
            &&& rs[0] == Ok::<DecodeResult, DecodeError>(DecodeResult::DataStart)
            &&& forall|i: int|
                0 < i < c.len() ==> (#[trigger] rs[i] matches Ok(DecodeResult::NoData) || rs[i] matches Ok(
                    DecodeResult::DataContinue(_),
                ))
            &&& rs[c.len() as int] == Ok::<DecodeResult, DecodeError>(DecodeResult::DataComplete)
            &&& payloads(rs) == src
            &&& feed_state(DecoderState::Idle, c + seq![0u8]) == DecoderState::Idle
        }),
{
    let c = cobs_encode(src);
    lemma_encoding_length(src);
    lemma_encoding_has_no_zero(src);
    let dest = zeros(src.len());
    let start = StreamView { idx: 0, state: DecoderState::Idle, dest };
    lemma_frame(src, start);
    assert(pending_zero(start.state) + src =~= src);
    let w = stream_push(start, c).1;
    assert(c.len() > 0);
    assert(c[0] != 0);
    let (r1, v1) = stream_feed(start, c[0]);
    let fs = feed_spec(DecoderState::Idle, c[0]);
    assert(fs.0 == Ok::<DecodeResult, DecodeError>(DecodeResult::DataStart));
    assert(v1.idx == 0 && v1.dest == dest && v1.state == fs.1);
    let t = c.drop_first();
    let (r3, v3) = stream_push(v1, t);
    assert(r3 == Ok::<Option<(usize, usize)>, DecodeError>(None));
    assert(v3 == w);
    lemma_stream_push_trace(v1, t);
    let rt = feed_results(fs.1, t);
    let pt = payloads(rt);
    assert(pt.len() == src.len());
    assert forall|j: int| 0 <= j < src.len() implies pt[j] == src[j] by {
        assert(w.dest[j] == splice(dest, 0, pt)[j]);
        assert(w.dest[j] == splice(dest, 0, src)[j]);
    }
    assert(pt =~= src);
    // The whole sequence of reports
    let z = seq![0u8];
    lemma_feed_results_append(DecoderState::Idle, c, z);
    assert(feed_results(DecoderState::Idle, c) == seq![fs.0] + rt);
    assert(feed_state(DecoderState::Idle, c) == w.state);
    assert(z[0] == 0u8);
    assert(z.drop_first() =~= Seq::<u8>::empty());
    assert(w.state == DecoderState::Grab(0) || w.state == DecoderState::GrabChain(0));
    assert(feed_spec(w.state, 0u8) == (
        Ok::<DecodeResult, DecodeError>(DecodeResult::DataComplete),
        DecoderState::Idle,
    ));
    assert(feed_results(DecoderState::Idle, z.drop_first()) =~= Seq::<
        Result<DecodeResult, DecodeError>,
    >::empty());
    assert(feed_state(DecoderState::Idle, z.drop_first()) == DecoderState::Idle);
    let last = feed_results(w.state, z);
    assert(last =~= seq![Ok::<DecodeResult, DecodeError>(DecodeResult::DataComplete)]);
    assert(feed_state(w.state, z) == DecoderState::Idle);
    let rs = feed_results(DecoderState::Idle, c + z);
    assert(rs == (seq![fs.0] + rt) + last);
    assert forall|i: int| 0 < i < c.len() implies (#[trigger] rs[i] matches Ok(
        DecodeResult::NoData,
    ) || rs[i] matches Ok(DecodeResult::DataContinue(_))) by {
        assert(rs[i] == rt[i - 1]);
    }
    lemma_payloads_append(seq![fs.0] + rt, last);
    lemma_payloads_append(seq![fs.0], rt);
    assert(seq![fs.0].drop_first() =~= Seq::<Result<DecodeResult, DecodeError>>::empty());
    assert(payloads(Seq::<Result<DecodeResult, DecodeError>>::empty()) =~= Seq::<u8>::empty());
    assert(seq![fs.0][0] == fs.0);
    assert(payloads(seq![fs.0]) =~= Seq::<u8>::empty());
    assert(last.drop_first() =~= Seq::<Result<DecodeResult, DecodeError>>::empty());
    assert(payloads(last) =~= Seq::<u8>::empty());
    assert(payloads(rs) =~= src);
}


/// `first_zero` of a sequence that starts with non-zero bytes.
proof fn lemma_first_zero_concat(d: Seq<u8>, t: Seq<u8>)
    requires
        forall|i: int| 0 <= i < d.len() ==> d[i] != 0,
    ensures
        first_zero(d + t) == d.len() + first_zero(t),
    decreases d.len(),
{
    if d.len() == 0 {
        assert(d + t =~= t);
    } else {
        assert((d + t)[0] == d[0]);
        assert((d + t).drop_first() =~= d.drop_first() + t);
        lemma_first_zero_concat(d.drop_first(), t);
    }
}

/// The length of the encoding of a message that starts with a piece of
/// non-zero bytes `d`, by what follows the piece.
proof fn lemma_encoded_len_piece(d: Seq<u8>, t: Seq<u8>)
    requires
        d.len() <= 254,
        forall|i: int| 0 <= i < d.len() ==> d[i] != 0,
    ensures
        d.len() < 254 && t.len() > 0 && t[0] == 0 ==> cobs_encode(d + t).len() == d.len() + 1
            + cobs_encode(t.skip(1)).len(),
        d.len() < 254 && t.len() > 0 && t[0] == 0 ==> cobs_encode(t).len() == 1 + cobs_encode(
            t.skip(1),
        ).len(),
        t.len() == 0 ==> cobs_encode(d + t).len() == d.len() + 1,
        d.len() == 254 && t.len() > 0 ==> cobs_encode(d + t).len() == 255 + cobs_encode(t).len(),
{
    let s = d + t;
    lemma_first_zero_concat(d, t);
    lemma_cobs_encode_unfold(s);
    if t.len() > 0 && t[0] == 0 {
        assert(first_zero(t) == 0);
        lemma_cobs_encode_unfold(t);
        if d.len() < 254 {
            assert(s.skip(d.len() + 1int) =~= t.skip(1));
        }
    }
    if d.len() == 254 && t.len() > 0 {
        assert(s.skip(254) =~= t);
    }
    lemma_first_zero(t);
}

/// A push that ends without error and without a frame also ends so on any
/// prefix of its bytes.
proof fn lemma_push_prefix(v: StreamView, a: Seq<u8>, b: Seq<u8>)
    requires
        stream_push(v, a + b).0 == Ok::<Option<(usize, usize)>, DecodeError>(None),
    ensures
        stream_push(v, a).0 == Ok::<Option<(usize, usize)>, DecodeError>(None),
    decreases a.len(),
{
    if a.len() > 0 {
        assert((a + b)[0] == a[0]);
        assert((a + b).drop_first() =~= a.drop_first() + b);
        let (r1, v1) = stream_feed(v, a[0]);
        lemma_push_prefix(v1, a.drop_first(), b);
    }
}

/// Feeding non-zero bytes completes no frame.
proof fn lemma_push_nonzero_no_frame(v: StreamView, x: Seq<u8>)
    requires
        forall|i: int| 0 <= i < x.len() ==> x[i] != 0,
    ensures
        !(stream_push(v, x).0 is Ok && stream_push(v, x).0->Ok_0 is Some),
    decreases x.len(),
{
    if x.len() > 0 {
        let (r1, v1) = stream_feed(v, x[0]);
        assert forall|i: int| 0 <= i < x.drop_first().len() implies x.drop_first()[i] != 0 by {
            assert(x.drop_first()[i] == x[i + 1]);
        }
        lemma_push_nonzero_no_frame(v1, x.drop_first());
    }
}

/// Feeding `d.len() <= m` non-zero data bytes to a decoder that expects `m`
/// more bytes of a piece, without error, writes them and leaves it expecting
/// the rest of the piece.
proof fn lemma_stream_push_run_prefix(v: StreamView, d: Seq<u8>, m: u8, chain: bool)
    requires
        v.state == (if chain {
            DecoderState::GrabChain(m)
        } else {
            DecoderState::Grab(m)
        }),
        d.len() <= m,
        forall|i: int| 0 <= i < d.len() ==> d[i] != 0,
        v.idx <= v.dest.len() <= usize::MAX,
        stream_push(v, d).0 == Ok::<Option<(usize, usize)>, DecodeError>(None),
    ensures
        stream_push(v, d).1 == (StreamView {
            idx: (v.idx + d.len()) as usize,
            state: if chain {
                DecoderState::GrabChain((m - d.len()) as u8)
            } else {
                DecoderState::Grab((m - d.len()) as u8)
            },
            dest: splice(v.dest, v.idx as int, d),
        }),
        v.idx + d.len() <= v.dest.len(),
    decreases d.len(),
{
    if d.len() == 0 {
        assert(splice(v.dest, v.idx as int, d) =~= v.dest);
    } else {
        let (r1, v1) = stream_feed(v, d[0]);
        assert(r1 == Ok::<Option<usize>, DecodeError>(None));
        assert(v.idx < v.dest.len());
        assert(v1.idx == v.idx + 1);
        assert(v1.dest == v.dest.update(v.idx as int, d[0]));
        let t = d.drop_first();
        lemma_stream_push_run_prefix(v1, t, (m - 1) as u8, chain);
        assert(splice(v1.dest, v1.idx as int, t) =~= splice(v.dest, v.idx as int, d));
    }
}


/// The length of the encoding of a region written by one piece (after a
/// pending zero `pz`, with data bytes `d`) and what follows it (`r2`, whose
/// encoding is bounded by `n2`, or by `n2 + 1` when it starts with the zero
/// that closes the piece).
proof fn lemma_region_cost(pz: Seq<u8>, d: Seq<u8>, r2: Seq<u8>, n2: nat, chain: bool)
    requires
        pz == Seq::<u8>::empty() || pz == seq![0u8],
        forall|i: int| 0 <= i < d.len() ==> d[i] != 0,
        chain ==> d.len() == 254,
        !chain ==> d.len() < 254,
        !chain && r2.len() > 0 ==> r2[0] == 0 && cobs_encode(r2).len() <= n2 + 1,
        chain && r2.len() > 0 ==> cobs_encode(r2).len() <= n2,
    ensures
        cobs_encode(pz + (d + r2)).len() <= pz.len() + 1 + d.len() + n2,
{
    let t = d + r2;
    lemma_encoded_len_piece(d, r2);
    if r2.len() == 0 {
        assert(t =~= d + Seq::<u8>::empty());
    }
    if pz.len() > 0 {
        let region = pz + t;
        assert(region =~= seq![0u8] + t);
        lemma_encoded_len_piece(Seq::<u8>::empty(), region);
        assert(Seq::<u8>::empty() + region =~= region);
        assert(region.skip(1) =~= t);
    } else {
        assert(pz + t =~= t);
    }
}

/// A decoder between pieces, fed a header byte, has room for its pending zero.
proof fn lemma_header_room(v: StreamView, x: Seq<u8>)
    requires
        between_pieces(v.state),
        x.len() > 0,
        stream_push(v, x).0 == Ok::<Option<(usize, usize)>, DecodeError>(None),
    ensures
        output_base(v) + pending_zero(v.state).len() <= v.dest.len() || v.idx > v.dest.len(),
{
    let (r1, v1) = stream_feed(v, x[0]);
    assert(r1 == Ok::<Option<usize>, DecodeError>(None));
}

/// A decoder between pieces that is fed non-zero bytes `x` and can then
/// complete a frame has written a region (after its output base) whose
/// encoding is no longer than `x` with the pending zero: the bytes before the
/// base stay, and a pending zero is written first.
#[verifier::spinoff_prover]
#[verifier::rlimit(40)]
proof fn lemma_decoded_region_bound(v: StreamView, x: Seq<u8>)
    requires
        between_pieces(v.state),
        v.idx <= v.dest.len() <= usize::MAX,
        0 < x.len() <= usize::MAX,
        forall|i: int| 0 <= i < x.len() ==> x[i] != 0,
        stream_push(v, x).0 == Ok::<Option<(usize, usize)>, DecodeError>(None),
        stream_push(v, x).1.state == DecoderState::Grab(0) || stream_push(v, x).1.state
            == DecoderState::GrabChain(0),
    ensures
        ({
            let w = stream_push(v, x).1;
            let b = output_base(v);
            let pz = pending_zero(v.state);
            &&& b + pz.len() <= w.idx <= w.dest.len()
            &&& w.dest.len() == v.dest.len()
            &&& (v.state == DecoderState::Grab(0) ==> w.dest[v.idx as int] == 0)
            &&& forall|j: int| 0 <= j < b ==> #[trigger] w.dest[j] == v.dest[j]
            &&& cobs_encode(w.dest.subrange(b, w.idx as int)).len() <= x.len() + pz.len()
        }),
    decreases x.len(),
{
    let h = x[0];
    let b = output_base(v);
    let pz = pending_zero(v.state);
    let w = stream_push(v, x).1;
    let hs = seq![h];
    let rest = x.drop_first();
    assert(x =~= hs + rest);
    lemma_header_room(v, x);
    lemma_header(v, h);
    let v1 = stream_push(v, hs).1;
    lemma_stream_push_append(v, hs, rest);
    assert(stream_push(v1, rest).1 == w);
    assert(stream_push(v1, rest).0 == Ok::<Option<(usize, usize)>, DecodeError>(None));
    let chain = h == 0xFFu8;
    let m: u8 = if chain {
        0xFEu8
    } else {
        (h - 1) as u8
    };
    let k = m as nat;
    assert forall|i: int| 0 <= i < rest.len() implies rest[i] != 0 by {
        assert(rest[i] == x[i + 1]);
    }
    if rest.len() < k {
        lemma_stream_push_run_prefix(v1, rest, m, chain);
        assert(false);
    } else {
        let d = rest.take(k as int);
        let x2 = rest.skip(k as int);
        assert(rest =~= d + x2);
        assert forall|i: int| 0 <= i < x2.len() implies x2[i] != 0 by {
            assert(x2[i] == rest[i + k]);
        }
        lemma_push_prefix(v1, d, x2);
        lemma_stream_push_run_prefix(v1, d, m, chain);
        let v2 = stream_push(v1, d).1;
        lemma_stream_push_append(v1, d, x2);
        assert(stream_push(v2, x2).1 == w);
        assert(stream_push(v2, x2).0 == Ok::<Option<(usize, usize)>, DecodeError>(None));
        let region = w.dest.subrange(b, w.idx as int);
        if x2.len() == 0 {
            assert(w == v2);
            assert(region =~= pz + (d + Seq::<u8>::empty()));
            lemma_region_cost(pz, d, Seq::<u8>::empty(), 0, chain);
        } else {
            lemma_decoded_region_bound(v2, x2);
            let b2 = v2.idx as int;
            let region2 = w.dest.subrange(b2, w.idx as int);
            assert forall|j: int| b <= j < b2 implies #[trigger] w.dest[j] == (pz + d)[j - b] by {
                assert(w.dest[j] == v2.dest[j]);
            }
            assert(region =~= pz + (d + region2));
            if !chain {
                assert(region2[0] == w.dest[b2]);
            }
            lemma_region_cost(pz, d, region2, x2.len(), chain);
            assert forall|j: int| 0 <= j < b implies #[trigger] w.dest[j] == v.dest[j] by {
                assert(w.dest[j] == v2.dest[j]);
            }
            if v.state == DecoderState::Grab(0) {
                assert(w.dest[v.idx as int] == v2.dest[v.idx as int]);
            }
        }
    }
}

/// The encoding is the shortest: no zero-free byte sequence that decodes to
/// a message is shorter than the message's encoding.
pub proof fn law_encoding_is_shortest(e: Seq<u8>, dest: Seq<u8>)
    requires
        forall|i: int| 0 <= i < e.len() ==> e[i] != 0,
        e.len() <= usize::MAX,
        dest.len() <= usize::MAX,
        decode_spec(e, dest).0 is Ok,
    ensures
        cobs_encode(
            decode_spec(e, dest).1.take(decode_spec(e, dest).0->Ok_0.0 as int),
        ).len() <= e.len(),
{
    let start = StreamView { idx: 0, state: DecoderState::Idle, dest };
    lemma_push_nonzero_no_frame(start, e);
    let (r, w) = stream_push(start, e);
    assert(r == Ok::<Option<(usize, usize)>, DecodeError>(None));
    assert(e.last() != 0);
    let z = seq![0u8];
    assert(z[0] == 0u8);
    assert(z.drop_first() =~= Seq::<u8>::empty());
    let (r4, w4) = stream_feed(w, 0u8);
    assert(e.len() > 0);
    assert(stream_push(w4, z.drop_first()) == (Ok::<Option<(usize, usize)>, DecodeError>(None), w4));
    assert(stream_push(w, z).0 is Ok && stream_push(w, z).0->Ok_0 is Some);
    assert(r4 is Ok && r4->Ok_0 is Some);
    assert(feed_spec(w.state, 0u8).0 matches Ok(DecodeResult::DataComplete));
    law_feed_restarts(w.state, 0u8);
    assert(w.state == DecoderState::Grab(0) || w.state == DecoderState::GrabChain(0));
    lemma_stream_push_bounds(start, e);
    lemma_decoded_region_bound(start, e);
    assert(decode_spec(e, dest).0->Ok_0.0 == w.idx);
    assert(decode_spec(e, dest).1 == w.dest);
    assert(w.dest.subrange(0, w.idx as int) =~= w.dest.take(w.idx as int));
}


/// A decoding result with `k` more bytes parsed.
pub open spec fn shift_report(r: Result<(usize, usize), DecodeError>, k: nat) -> Result<
    (usize, usize),
    DecodeError,
> {
    match r {
        Ok((f, p)) => Ok((f, (p + k) as usize)),
        Err(e) => Err(e),
    }
}

/// A zero before a non-empty input is a terminator that the idle decoder
/// ignores: decoding gives what decoding the input gives, with one more byte
/// parsed, and the same output.
pub proof fn law_decode_skips_leading_zero(s: Seq<u8>, d: Seq<u8>)
    requires
        0 < s.len(),
        s.len() + 1 <= usize::MAX,
    ensures
        decode_spec(seq![0u8] + s, d) == (
            shift_report(decode_spec(s, d).0, 1),
            decode_spec(s, d).1,
        ),
{
    let x = seq![0u8] + s;
    assert(x[0] == 0u8);
    assert(x.drop_first() =~= s);
    assert(x.last() == s.last());
    let start = StreamView { idx: 0, state: DecoderState::Idle, dest: d };
    let (r1, v1) = stream_feed(start, 0u8);
    assert(r1 == Ok::<Option<usize>, DecodeError>(None));
    assert(v1 == start);
    lemma_stream_push_parsed(start, s);
    let (r, v) = stream_push(start, s);
    assert(stream_push(start, x) == (crate::dec::shift_parsed(r, 1), v));
}

/// Decoding stops at the first complete frame: zeros before a frame are
/// skipped, and whatever follows its terminating zero is left unread. The
/// message is written at the front of the output, and the parsed size counts
/// the zeros, the encoding and its terminator.
pub proof fn law_decode_first_frame(z: Seq<u8>, m: Seq<u8>, t: Seq<u8>, d: Seq<u8>)
    requires
        forall|i: int| 0 <= i < z.len() ==> z[i] == 0,
        m.len() <= d.len() <= usize::MAX,
        z.len() + cobs_encode(m).len() + 1 + t.len() <= usize::MAX,
    ensures
        decode_spec(z + cobs_encode(m) + seq![0u8] + t, d) == (
            Ok::<(usize, usize), DecodeError>(
                (m.len() as usize, (z.len() + cobs_encode(m).len() + 1) as usize),
            ),
            splice(d, 0, m),
        ),
    decreases z.len(),
{
    let c = cobs_encode(m);
    let zt = seq![0u8] + t;
    let x = z + c + seq![0u8] + t;
    if z.len() == 0 {
        assert(x =~= c + zt);
        let start = StreamView { idx: 0, state: DecoderState::Idle, dest: d };
        lemma_encoding_length(m);
        lemma_frame(m, start);
        assert(pending_zero(start.state) + m =~= m);
        let w = stream_push(start, c).1;
        lemma_stream_push_append(start, c, zt);
        assert(zt[0] == 0u8);
        let (r4, w4) = stream_feed(w, 0u8);
        assert(r4 == Ok::<Option<usize>, DecodeError>(Some(w.idx)));
        assert(w4.dest == w.dest);
        assert(stream_push(w, zt) == (
            Ok::<Option<(usize, usize)>, DecodeError>(Some((w.idx, 1usize))),
            w4,
        ));
        assert(x.len() > 0);
    } else {
        let z2 = z.drop_first();
        let rest = z2 + c + seq![0u8] + t;
        assert(x =~= seq![0u8] + rest);
        assert forall|i: int| 0 <= i < z2.len() implies z2[i] == 0 by {
            assert(z2[i] == z[i + 1]);
        }
        law_decode_first_frame(z2, m, t, d);
        law_decode_skips_leading_zero(rest, d);
    }
}

/// A message of `n` non-zero bytes.
pub open spec fn nonzero_message(n: nat) -> Seq<u8> {
    Seq::new(n, |i: int| 1u8)
}

proof fn lemma_nonzero_encoding_len(n: nat)
    ensures
        cobs_encode(nonzero_message(n)).len() == crate::spec_max_encoding_length(n),
    decreases n,
{
    let s = nonzero_message(n);
    lemma_cobs_encode_unfold(s);
    lemma_first_zero(s);
    assert(first_zero(s) == n) by {
        if first_zero(s) < n {
            assert(s[first_zero(s) as int] == 1u8);
        }
    }
    if n > 254 {
        assert(s.skip(254) =~= nonzero_message((n - 254) as nat));
        lemma_nonzero_encoding_len((n - 254) as nat);
    }
}

/// The maximum encoding length is what it says: no message of `n` bytes has
/// a longer encoding, and a message of `n` non-zero bytes has an encoding of
/// exactly that length. The overhead is `n / 254` rounded up.
pub proof fn law_max_encoding_length(n: nat)
    ensures
        forall|src: Seq<u8>|
            src.len() == n ==> #[trigger] cobs_encode(src).len()
                <= crate::spec_max_encoding_length(n),
        cobs_encode(nonzero_message(n)).len() == crate::spec_max_encoding_length(n),
        crate::spec_max_encoding_overhead(n) * 254 >= n,
        n > 0 ==> (crate::spec_max_encoding_overhead(n) - 1) * 254 < n,
{
    assert forall|src: Seq<u8>| src.len() == n implies #[trigger] cobs_encode(src).len()
        <= crate::spec_max_encoding_length(n) by {
        lemma_encoding_length(src);
    }
    lemma_nonzero_encoding_len(n);
}

} // verus!
