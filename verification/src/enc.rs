use vstd::prelude::*;

verus! {

// ---------------------------------------------------------------------------
// The encoding, as a function on byte sequences
// ---------------------------------------------------------------------------

/// Index of the first zero byte of `s`, or `s.len()` when `s` holds no zero.
pub open spec fn first_zero(s: Seq<u8>) -> nat
    decreases s.len(),
{
    if s.len() == 0 {
        0
    } else if s[0] == 0 {
        0
    } else {
        1 + first_zero(s.drop_first())
    }
}

/// The COBS block structure. The message is cut at every zero byte and after
/// every run of 254 non-zero bytes. A piece cut by a zero byte is written as
/// its length plus one followed by its bytes (the zero itself is implied); a
/// run of 254 non-zero bytes is written as `0xFF` followed by the 254 bytes
/// (no zero implied). The last piece is always written, so this sequence ends
/// in the empty piece `0x01` when the message is empty, ends in a zero, or
/// ends in a full run.
pub open spec fn encode_blocks(src: Seq<u8>) -> Seq<u8>
    decreases src.len(),
{
    let run = first_zero(src);
    if run >= 254 {
        if src.len() >= 254 {
            seq![0xFFu8] + src.take(254) + encode_blocks(src.skip(254))
        } else {
            seq![]
        }
    } else if run >= src.len() {
        seq![(run + 1) as u8] + src
    } else {
        seq![(run + 1) as u8] + src.take(run as int) + encode_blocks(src.skip(run + 1int))
    }
}

/// Whether the message is non-empty and its last piece is a full run of 254
/// non-zero bytes (so that no zero follows it).
pub open spec fn ends_in_full_run(src: Seq<u8>) -> bool
    decreases src.len(),
{
    let run = first_zero(src);
    if run >= 254 {
        if src.len() > 254 {
            ends_in_full_run(src.skip(254))
        } else {
            true
        }
    } else if run >= src.len() {
        false
    } else {
        ends_in_full_run(src.skip(run + 1int))
    }
}

/// Number of source bytes in the last, still open, piece of the message.
pub open spec fn open_run(src: Seq<u8>) -> nat
    decreases src.len(),
{
    let run = first_zero(src);
    if run >= 254 {
        if src.len() >= 254 {
            open_run(src.skip(254))
        } else {
            0
        }
    } else if run >= src.len() {
        run
    } else {
        open_run(src.skip(run + 1int))
    }
}

/// The encoding that this crate produces: the COBS block structure, except
/// that a message ending in a full run of 254 non-zero bytes does not get
/// the empty final piece. The sentinel that ends a frame is not included.
pub open spec fn cobs_encode(src: Seq<u8>) -> Seq<u8> {
    if ends_in_full_run(src) {
        encode_blocks(src).drop_last()
    } else {
        encode_blocks(src)
    }
}

/// Number of leading bytes of `encode_blocks(src)` that the streaming encoder
/// has stored once `src` has been pushed: all of them but the code byte of
/// the open piece, when that piece is empty and so sits at the end.
pub open spec fn stream_extent(src: Seq<u8>) -> nat {
    if open_run(src) == 0 {
        (encode_blocks(src).len() - 1) as nat
    } else {
        encode_blocks(src).len()
    }
}

/// Whether encoding `src` into a buffer of `len` bytes succeeds: every byte
/// that the encoder writes while pushing `src` must fit.
pub open spec fn encoding_fits(src: Seq<u8>, len: nat) -> bool {
    stream_extent(src) <= len
}

/// Index of the code byte of the open piece in `encode_blocks(src)`.
pub open spec fn open_code_index(src: Seq<u8>) -> int {
    encode_blocks(src).len() - open_run(src) - 1
}

// ---------------------------------------------------------------------------
// Lemmas about the encoding
// ---------------------------------------------------------------------------

/// Bytes before `first_zero(s)` are non-zero, and the byte there is zero.
pub proof fn lemma_first_zero(s: Seq<u8>)
    ensures
        first_zero(s) <= s.len(),
        forall|i: int| 0 <= i < first_zero(s) ==> s[i] != 0,
        first_zero(s) < s.len() ==> s[first_zero(s) as int] == 0,
    decreases s.len(),
{
    if s.len() > 0 && s[0] != 0 {
        lemma_first_zero(s.drop_first());
        assert forall|i: int| 0 <= i < first_zero(s) implies s[i] != 0 by {
            if i > 0 {
                assert(s[i] == s.drop_first()[i - 1]);
            }
        }
    }
}

/// `first_zero` of a sequence with one more byte at its end.
pub proof fn lemma_first_zero_push(s: Seq<u8>, b: u8)
    ensures
        first_zero(s) < s.len() ==> first_zero(s.push(b)) == first_zero(s),
        first_zero(s) >= s.len() && b == 0 ==> first_zero(s.push(b)) == s.len(),
        first_zero(s) >= s.len() && b != 0 ==> first_zero(s.push(b)) == s.len() + 1,
    decreases s.len(),
{
    lemma_first_zero(s);
    if s.len() == 0 {
        assert(s.push(b).drop_first() =~= Seq::<u8>::empty());
        assert(first_zero(s.push(b).drop_first()) == 0);
    } else {
        assert(s.push(b).drop_first() =~= s.drop_first().push(b));
        if s[0] != 0 {
            lemma_first_zero_push(s.drop_first(), b);
        }
    }
}

/// What pushing one more source byte `b` after `p` does to the encoding.
pub open spec fn push_effect(p: Seq<u8>, b: u8) -> bool {
    let e = encode_blocks(p);
    let k = open_run(p);
    let q = p.push(b);
    &&& k < 254
    &&& e.len() >= k + 1
    &&& e[open_code_index(p)] == k + 1
    &&& b == 0 ==> {
        &&& encode_blocks(q) == e.push(1)
        &&& open_run(q) == 0
        &&& !ends_in_full_run(q)
    }
    &&& b != 0 && k < 253 ==> {
        &&& encode_blocks(q) == e.update(open_code_index(p), (k + 2) as u8).push(b)
        &&& open_run(q) == k + 1
        &&& !ends_in_full_run(q)
    }
    &&& b != 0 && k == 253 ==> {
        &&& encode_blocks(q) == e.update(open_code_index(p), 0xFFu8).push(b).push(1)
        &&& open_run(q) == 0
        &&& ends_in_full_run(q)
    }
}

/// Carries `push_effect` from the rest `r` of a message to the whole message
/// `h`-encoded-piece followed by `r`.
proof fn lemma_push_effect_shift(p: Seq<u8>, r: Seq<u8>, h: Seq<u8>, b: u8)
    requires
        push_effect(r, b),
        encode_blocks(p) == h + encode_blocks(r),
        encode_blocks(p.push(b)) == h + encode_blocks(r.push(b)),
        open_run(p) == open_run(r),
        open_run(p.push(b)) == open_run(r.push(b)),
        ends_in_full_run(p.push(b)) == ends_in_full_run(r.push(b)),
    ensures
        push_effect(p, b),
{
    let er = encode_blocks(r);
    let k = open_run(r);
    assert((h + er)[h.len() + open_code_index(r)] == er[open_code_index(r)]);
    assert(open_code_index(p) == h.len() + open_code_index(r));
    if b == 0 {
        assert(h + er.push(1) =~= (h + er).push(1));
    } else if k < 253 {
        assert(h + er.update(open_code_index(r), (k + 2) as u8).push(b) =~= (h + er).update(
            h.len() + open_code_index(r),
            (k + 2) as u8,
        ).push(b));
    } else {
        assert(h + er.update(open_code_index(r), 0xFFu8).push(b).push(1) =~= (h + er).update(
            h.len() + open_code_index(r),
            0xFFu8,
        ).push(b).push(1));
    }
}

proof fn lemma_encode_empty()
    ensures
        encode_blocks(Seq::<u8>::empty()) == seq![1u8],
        open_run(Seq::<u8>::empty()) == 0,
        !ends_in_full_run(Seq::<u8>::empty()),
{
    assert(encode_blocks(Seq::<u8>::empty()) =~= seq![1u8]);
}

/// The effect on the encoding of pushing one more source byte.
pub proof fn lemma_push(p: Seq<u8>, b: u8)
    ensures
        push_effect(p, b),
    decreases p.len(),
{
    let run = first_zero(p);
    let q = p.push(b);
    lemma_first_zero(p);
    lemma_first_zero_push(p, b);
    if run >= 254 {
        let r = p.skip(254);
        assert(q.take(254) =~= p.take(254));
        assert(q.skip(254) =~= r.push(b));
        lemma_push(r, b);
        let h = seq![0xFFu8] + p.take(254);
        assert(encode_blocks(p) == h + encode_blocks(r));
        assert(encode_blocks(q) == h + encode_blocks(r.push(b)));
        lemma_push_effect_shift(p, r, h, b);
    } else if run >= p.len() {
        lemma_encode_empty();
        let e = seq![(run + 1) as u8] + p;
        assert(encode_blocks(p) == e);
        assert(open_code_index(p) == 0);
        if b == 0 {
            assert(q.take(run as int) =~= p);
            assert(q.skip(run + 1int) =~= Seq::<u8>::empty());
            assert(encode_blocks(q) =~= e.push(1));
        } else if run + 1 >= 254 {
            assert(q.take(254) =~= q);
            assert(q.skip(254) =~= Seq::<u8>::empty());
            assert(encode_blocks(q) =~= e.update(0, 0xFFu8).push(b).push(1));
        } else {
            assert(encode_blocks(q) =~= e.update(0, (run + 2) as u8).push(b));
        }
    } else {
        let r = p.skip(run + 1int);
        assert(q.take(run as int) =~= p.take(run as int));
        assert(q.skip(run + 1int) =~= r.push(b));
        lemma_push(r, b);
        let h = seq![(run + 1) as u8] + p.take(run as int);
        assert(encode_blocks(p) == h + encode_blocks(r));
        assert(encode_blocks(q) == h + encode_blocks(r.push(b)));
        lemma_push_effect_shift(p, r, h, b);
    }
}

/// A message that ends in a full run ends in a non-zero byte.
pub proof fn lemma_full_run_end(p: Seq<u8>)
    ensures
        ends_in_full_run(p) ==> open_run(p) == 0 && p.len() > 0 && p.last() != 0,
    decreases p.len(),
{
    let run = first_zero(p);
    lemma_first_zero(p);
    if run >= 254 {
        if p.len() > 254 {
            lemma_full_run_end(p.skip(254));
            if ends_in_full_run(p) {
                assert(p.last() == p.skip(254).last());
            }
        } else {
            assert(p.last() == p[253]);
            lemma_encode_empty();
            assert(p.skip(254) =~= Seq::<u8>::empty());
        }
    } else if run < p.len() {
        lemma_full_run_end(p.skip(run + 1int));
        if ends_in_full_run(p) {
            assert(p.last() == p.skip(run + 1int).last());
        }
    }
}

/// `stream_extent` never shrinks when a byte is pushed.
proof fn lemma_stream_extent_push(p: Seq<u8>, b: u8)
    ensures
        stream_extent(p) <= stream_extent(p.push(b)),
        encode_blocks(p).len() <= encode_blocks(p.push(b)).len(),
{
    lemma_push(p, b);
}

/// Pushing more bytes only changes the encoding at the open code byte and
/// after its end; the open piece either stays or a later one opens.
pub proof fn lemma_extend(q: Seq<u8>, r: Seq<u8>)
    ensures
        encode_blocks(q).len() <= encode_blocks(q + r).len(),
        stream_extent(q) <= stream_extent(q + r),
        open_code_index(q + r) == open_code_index(q) || open_code_index(q + r) >= encode_blocks(
            q,
        ).len(),
        forall|i: int|
            0 <= i < encode_blocks(q).len() && i != open_code_index(q) ==> #[trigger] encode_blocks(
                q + r,
            )[i] == encode_blocks(q)[i],
    decreases r.len(),
{
    if r.len() == 0 {
        assert(q + r =~= q);
    } else {
        let r0 = r.drop_last();
        let b = r.last();
        lemma_extend(q, r0);
        assert(q + r =~= (q + r0).push(b));
        let m = q + r0;
        lemma_push(m, b);
        lemma_stream_extent_push(m, b);
        let em = encode_blocks(m);
        let en = encode_blocks(m.push(b));
        assert forall|i: int|
            0 <= i < encode_blocks(q).len() && i != open_code_index(q) implies #[trigger] encode_blocks(
            q + r,
        )[i] == encode_blocks(q)[i] by {
            assert(en[i] == em[i]);
        }
    }
}

/// The encoding is one-to-one.
#[verifier::rlimit(40)]
pub proof fn lemma_encode_blocks_injective(p: Seq<u8>, q: Seq<u8>)
    requires
        encode_blocks(p) == encode_blocks(q),
    ensures
        p == q,
    decreases p.len(),
{
    let run = first_zero(p);
    let runq = first_zero(q);
    lemma_first_zero(p);
    lemma_first_zero(q);
    let e = encode_blocks(p);
    if run >= 254 {
        let tail = encode_blocks(p.skip(254));
        assert(e == seq![0xFFu8] + p.take(254) + tail);
        if runq < 254 {
            assert(e[0] == (runq + 1) as u8);
        }
        let tailq = encode_blocks(q.skip(254));
        assert(e == seq![0xFFu8] + q.take(254) + tailq);
        assert(p.take(254) =~= e.subrange(1, 255));
        assert(q.take(254) =~= e.subrange(1, 255));
        assert(tail =~= e.skip(255));
        assert(tailq =~= e.skip(255));
        lemma_encode_blocks_injective(p.skip(254), q.skip(254));
        assert(p =~= p.take(254) + p.skip(254));
        assert(q =~= q.take(254) + q.skip(254));
    } else {
        assert(e[0] == (run + 1) as u8);
        if runq >= 254 {
            assert(e[0] == 0xFFu8);
        }
        assert(runq == run);
        if run >= p.len() {
            assert(e =~= seq![(run + 1) as u8] + p);
            if runq < q.len() {
                let tq = encode_blocks(q.skip(run + 1int));
                lemma_push(q.skip(run + 1int), 0);
                assert(e.len() == run + 1 + tq.len());
            }
            assert(e =~= seq![(run + 1) as u8] + q);
            assert(p =~= e.skip(1));
            assert(q =~= e.skip(1));
        } else {
            let tp = encode_blocks(p.skip(run + 1int));
            lemma_push(p.skip(run + 1int), 0);
            assert(e == seq![(run + 1) as u8] + p.take(run as int) + tp);
            if runq >= q.len() {
                assert(e =~= seq![(run + 1) as u8] + q);
                assert(e.len() == run + 1 + tp.len());
            }
            let tq = encode_blocks(q.skip(run + 1int));
            assert(e == seq![(run + 1) as u8] + q.take(run as int) + tq);
            assert(p.take(run as int) =~= e.subrange(1, run + 1int));
            assert(q.take(run as int) =~= e.subrange(1, run + 1int));
            assert(tp =~= e.skip(run + 1int));
            assert(tq =~= e.skip(run + 1int));
            lemma_encode_blocks_injective(p.skip(run + 1int), q.skip(run + 1int));
            assert(p =~= p.take(run as int).push(0) + p.skip(run + 1int));
            assert(q =~= q.take(run as int).push(0) + q.skip(run + 1int));
        }
    }
}

// ---------------------------------------------------------------------------
// The streaming encoder state machine
// ---------------------------------------------------------------------------

/// The [`EncoderState`] is used to track the current state of a
/// streaming encoder. This struct does not contain the output buffer
/// (or a reference to one), and can be used when streaming the encoded
/// output to a custom data type
///
/// **IMPORTANT NOTE**: When implementing a custom streaming encoder,
/// the [`EncoderState`] state machine assumes that the output buffer
/// **ALREADY** contains a single placeholder byte, and no other bytes.
/// This placeholder byte will be later modified with the first distance
/// to the next header/zero byte.
#[derive(Clone, Copy, Debug)]
pub struct EncoderState {
    code_idx: usize,
    num_bt_sent: u8,
    offset_idx: u8,
    full_run_closed: bool,
}

/// [`PushResult`] is used to represent the changes to an (encoded)
/// output data buffer when an unencoded byte is pushed into [`EncoderState`].
pub enum PushResult {
    /// The returned byte should be placed at the current end of the data buffer
    AddSingle(u8),
    /// The byte at the given index should be replaced with the given byte.
    /// Additionally, a placeholder byte should be inserted at the current
    /// end of the output buffer to be later modified
    ModifyFromStartAndSkip((usize, u8)),
    /// The byte at the given index should be replaced with the given byte.
    /// Then, the last u8 in this tuple should be inserted at the end of the
    /// current output buffer. Finally, a placeholder byte should be inserted at
    /// the current end of the output buffer to be later modified
    ModifyFromStartAndPushAndSkip((usize, u8, u8)),
}

/// One step of the encoder state machine: pushing `data` in state `s`
/// returns `r` and moves to `s2`. A zero closes the open piece with its code
/// and opens an empty one; a non-zero byte extends the open piece, and the
/// 254th one closes it as a full run with the code `0xFF`.
pub open spec fn push_step(s: EncoderState, data: u8, r: PushResult, s2: EncoderState) -> bool {
    &&& data == 0 ==> {
        &&& r == PushResult::ModifyFromStartAndSkip((s.code_index(), s.block_code()))
        &&& s2.code_index() == s.code_index() + s.block_code()
        &&& s2.block_code() == 1
        &&& !s2.after_full_run()
    }
    &&& data != 0 && s.block_code() < 254 ==> {
        &&& r == PushResult::AddSingle(data)
        &&& s2.code_index() == s.code_index()
        &&& s2.block_code() == s.block_code() + 1
        &&& !s2.after_full_run()
    }
    &&& data != 0 && s.block_code() == 254 ==> {
        &&& r == PushResult::ModifyFromStartAndPushAndSkip((s.code_index(), 0xFFu8, data))
        &&& s2.code_index() == s.code_index() + 255
        &&& s2.block_code() == 1
        &&& s2.after_full_run()
    }
}

impl EncoderState {
    #[verifier::type_invariant]
    spec fn inv(&self) -> bool {
        &&& self.num_bt_sent == self.offset_idx
        &&& 1 <= self.num_bt_sent <= 254
        &&& self.full_run_closed ==> self.num_bt_sent == 1
    }

    /// Index, in the output, of the code byte of the open piece.
    pub closed spec fn code_index(&self) -> usize {
        self.code_idx
    }

    /// The code byte that the open piece has so far: one more than its length.
    pub closed spec fn block_code(&self) -> u8 {
        self.num_bt_sent
    }

    /// Whether the last byte pushed completed a full run of 254 non-zero bytes.
    pub closed spec fn after_full_run(&self) -> bool {
        self.full_run_closed
    }

    /// Push a single unencoded byte into the encoder state machine
    pub fn push(&mut self, data: u8) -> (r: PushResult)
        requires
            data == 0 ==> old(self).code_index() + old(self).block_code() <= usize::MAX,
            data != 0 && old(self).block_code() == 254 ==> old(self).code_index() + 255
                <= usize::MAX,
        ensures
            push_step(*old(self), data, r, *final(self)),
    {
        proof {
            use_type_invariant(&*self);
        }
        if data == 0 {
            let ret = PushResult::ModifyFromStartAndSkip((self.code_idx, self.num_bt_sent));
            *self = EncoderState {
                code_idx: self.code_idx + self.offset_idx as usize,
                num_bt_sent: 1,
                offset_idx: 1,
                full_run_closed: false,
            };
            ret
        } else {
            let num = self.num_bt_sent + 1;
            let offset = self.offset_idx + 1;
            if 0xFF == num {
                let ret = PushResult::ModifyFromStartAndPushAndSkip((self.code_idx, num, data));
                *self = EncoderState {
                    code_idx: self.code_idx + offset as usize,
                    num_bt_sent: 1,
                    offset_idx: 1,
                    full_run_closed: true,
                };
                ret
            } else {
                *self = EncoderState {
                    code_idx: self.code_idx,
                    num_bt_sent: num,
                    offset_idx: offset,
                    full_run_closed: false,
                };
                PushResult::AddSingle(data)
            }
        }
    }

    /// Finalize the encoding process for a single message.
    /// The byte at the given index should be replaced with the given value,
    /// and the sentinel value (typically 0u8) must be inserted at the current
    /// end of the output buffer, serving as a framing byte.
    pub fn finalize(self) -> (r: (usize, u8))
        ensures
            r == (self.code_index(), self.block_code()),
    {
        (self.code_idx, self.num_bt_sent)
    }
}

impl Default for EncoderState {
    /// Create a default initial state representation for a COBS encoder
    fn default() -> (s: Self)
        ensures
            s.code_index() == 0,
            s.block_code() == 1,
            !s.after_full_run(),
    {
        EncoderState { code_idx: 0, num_bt_sent: 1, offset_idx: 1, full_run_closed: false }
    }
}

/// The state machine tracks the message `p`: its code index and code are
/// those of the open piece of `encode_blocks(p)`.
pub open spec fn state_tracks(s: EncoderState, p: Seq<u8>) -> bool {
    &&& s.code_index() == open_code_index(p)
    &&& s.block_code() == open_run(p) + 1
    &&& s.after_full_run() == ends_in_full_run(p)
}

/// An output buffer written by the state machine's protocol holds the
/// encoding of `p`, but for the code byte of the open piece (a placeholder).
pub open spec fn buffer_tracks(buf: Seq<u8>, p: Seq<u8>) -> bool {
    let e = encode_blocks(p);
    &&& buf.len() == e.len()
    &&& forall|i: int| 0 <= i < e.len() && i != open_code_index(p) ==> #[trigger] buf[i] == e[i]
}

/// Carrying out a `PushResult` on an output buffer, as its documentation
/// says; a placeholder byte is written as zero.
pub open spec fn apply_push(buf: Seq<u8>, r: PushResult) -> Seq<u8> {
    match r {
        PushResult::AddSingle(b) => buf.push(b),
        PushResult::ModifyFromStartAndSkip((i, b)) => buf.update(i as int, b).push(0),
        PushResult::ModifyFromStartAndPushAndSkip((i, b, n)) => buf.update(i as int, b).push(
            n,
        ).push(0),
    }
}

/// A fresh state machine and an output buffer holding one placeholder byte
/// track the empty message.
pub proof fn law_encoder_state_start(s: EncoderState, placeholder: u8)
    requires
        s.code_index() == 0,
        s.block_code() == 1,
        !s.after_full_run(),
    ensures
        state_tracks(s, Seq::<u8>::empty()),
        buffer_tracks(seq![placeholder], Seq::<u8>::empty()),
{
    lemma_encode_empty();
}

/// Following the state machine's protocol for each pushed byte keeps the
/// output buffer holding the encoding of everything pushed so far.
pub proof fn law_encoder_state_protocol(
    s: EncoderState,
    p: Seq<u8>,
    buf: Seq<u8>,
    data: u8,
    r: PushResult,
    s2: EncoderState,
)
    requires
        state_tracks(s, p),
        buffer_tracks(buf, p),
        push_step(s, data, r, s2),
    ensures
        state_tracks(s2, p.push(data)),
        buffer_tracks(apply_push(buf, r), p.push(data)),
{
    lemma_push(p, data);
    let e = encode_blocks(p);
    let q = p.push(data);
    let e2 = encode_blocks(q);
    let b2 = apply_push(buf, r);
    assert forall|i: int| 0 <= i < e2.len() && i != open_code_index(q) implies #[trigger] b2[i]
        == e2[i] by {
        if i < e.len() && i != open_code_index(p) {
            assert(buf[i] == e[i]);
        }
    }
}

/// Finishing: writing the code that `EncoderState::finalize` returns at the
/// index it returns gives the block structure of the message (to which the
/// sentinel is then appended).
pub proof fn law_encoder_state_finish(s: EncoderState, p: Seq<u8>, buf: Seq<u8>)
    requires
        state_tracks(s, p),
        buffer_tracks(buf, p),
    ensures
        buf.update(s.code_index() as int, s.block_code()) == encode_blocks(p),
{
    lemma_push(p, 0);
    let e = encode_blocks(p);
    assert forall|i: int| 0 <= i < e.len() implies #[trigger] buf.update(
        s.code_index() as int,
        s.block_code(),
    )[i] == e[i] by {
        if i != open_code_index(p) {
            assert(buf[i] == e[i]);
        }
    }
    assert(buf.update(s.code_index() as int, s.block_code()) =~= e);
}

// ---------------------------------------------------------------------------
// The streaming encoder over an output slice
// ---------------------------------------------------------------------------

/// The [`CobsEncoder`] type is used to encode a stream of bytes to a
/// given mutable output slice. This is often useful when heap data
/// structures are not available, or when not all message bytes are
/// received at a single point in time.
#[derive(Debug)]
pub struct CobsEncoder<'a> {
    /// The output buffer.
    pub dest: &'a mut [u8],
    /// Index of the next byte to write in `dest`.
    pub dest_idx: usize,
    /// The state of the encoding state machine.
    pub state: EncoderState,
}

impl<'a> CobsEncoder<'a> {
    /// The encoder has been fed the message `p`: the output holds every byte
    /// of `encode_blocks(p)` but the code byte of the open piece, and the state
    /// machine tracks that piece.
    pub open spec fn holds(&self, p: Seq<u8>) -> bool {
        let e = encode_blocks(p);
        &&& self.dest_idx == e.len()
        &&& self.state.code_index() == open_code_index(p)
        &&& self.state.block_code() == open_run(p) + 1
        &&& self.state.after_full_run() == ends_in_full_run(p)
        &&& stream_extent(p) <= self.dest@.len()
        &&& self.dest@.len() < usize::MAX
        &&& forall|i: int|
            0 <= i < e.len() && i < self.dest@.len() && i != open_code_index(p)
                ==> #[trigger] self.dest@[i] == e[i]
    }

    /// The encoder holds some message.
    pub open spec fn wf(&self) -> bool {
        exists|p: Seq<u8>| self.holds(p)
    }

    /// An encoder holds at most one message.
    pub proof fn lemma_holds_unique(&self, p: Seq<u8>, q: Seq<u8>)
        requires
            self.holds(p),
            self.holds(q),
        ensures
            p == q,
    {
        let ep = encode_blocks(p);
        let eq = encode_blocks(q);
        lemma_push(p, 0);
        lemma_push(q, 0);
        assert forall|i: int| 0 <= i < ep.len() implies ep[i] == eq[i] by {
            if i != open_code_index(p) {
                assert(self.dest@[i] == ep[i]);
                assert(self.dest@[i] == eq[i]);
            }
        }
        assert(ep =~= eq);
        lemma_encode_blocks_injective(p, q);
    }

    /// Create a new streaming Cobs Encoder
    pub fn new(out_buf: &'a mut [u8]) -> (enc: CobsEncoder<'a>)
        ensures
            enc.dest@ == old(out_buf)@,
            final(enc.dest)@ == final(out_buf)@,
            enc.dest_idx == 1,
            state_tracks(enc.state, Seq::<u8>::empty()),
            old(out_buf)@.len() < usize::MAX ==> enc.holds(Seq::<u8>::empty()),
    {
        proof {
            lemma_encode_empty();
        }
        CobsEncoder { dest: out_buf, dest_idx: 1, state: EncoderState::default() }
    }

    /// Push a slice of data to be encoded
    pub fn push(&mut self, data: &[u8]) -> (r: Result<(), ()>)
        requires
            old(self).wf(),
        ensures
            final(self).dest@.len() == old(self).dest@.len(),
            final(final(self).dest)@ == final(old(self).dest)@,
            forall|p: Seq<u8>| #[trigger]
                old(self).holds(p) ==> {
                    let q = p + data@;
                    &&& (r is Ok <==> encoding_fits(q, old(self).dest@.len() as nat))
                    &&& r is Ok ==> final(self).holds(q)
                    &&& r is Ok ==> final(self).dest@ == encoder_buffer(old(self).dest@, q)
                    &&& forall|i: int|
                        0 <= i < old(self).dest@.len() ==> #[trigger] final(self).dest@[i]
                            == old(self).dest@[i] || (i < encode_blocks(q).len() && i
                            != open_code_index(q) && final(self).dest@[i] == encode_blocks(q)[i])
                },
    {
        let ghost p0 = choose|p: Seq<u8>| old(self).holds(p);
        let ghost orig = self.dest@;
        let ghost q_all = p0 + data@;
        let mut i: usize = 0;
        while i < data.len()
            invariant
                0 <= i <= data@.len(),
                self.holds(p0 + data@.take(i as int)),
                self.dest@.len() == orig.len(),
                final(self.dest)@ == final(old(self).dest)@,
                old(self).holds(p0),
                orig == old(self).dest@,
                q_all == p0 + data@,
                forall|j: int|
                    0 <= j < orig.len() && (j >= encode_blocks(p0 + data@.take(i as int)).len()
                        || j == open_code_index(p0 + data@.take(i as int))) ==> #[trigger] self.dest@[j]
                        == orig[j],
            decreases data@.len() - i,
        {
            let x = data[i];
            let ghost q = p0 + data@.take(i as int);
            let ghost e = encode_blocks(q);
            let ghost before = self.dest@;
            assert(p0 + data@.take(i + 1) =~= q.push(x));
            proof {
                lemma_push(q, x);
                lemma_extend(q.push(x), data@.skip(i + 1));
                assert(q.push(x) + data@.skip(i + 1) =~= q_all);
                lemma_extend(q, data@.skip(i as int));
                assert(q + data@.skip(i as int) =~= q_all);
                use_type_invariant(&self.state);
            }
            let step_ok: bool = match self.state.push(x) {
                PushResult::AddSingle(y) => {
                    if self.dest_idx < self.dest.len() {
                        self.dest[self.dest_idx] = y;
                        true
                    } else {
                        false
                    }
                },
                PushResult::ModifyFromStartAndSkip((idx, mval)) => {
                    if idx < self.dest.len() {
                        self.dest[idx] = mval;
                        true
                    } else {
                        false
                    }
                },
                PushResult::ModifyFromStartAndPushAndSkip((idx, mval, nval1)) => {
                    if idx < self.dest.len() {
                        self.dest[idx] = mval;
                        if self.dest_idx < self.dest.len() {
                            self.dest[self.dest_idx] = nval1;
                            self.dest_idx = self.dest_idx + 1;
                            true
                        } else {
                            false
                        }
                    } else {
                        false
                    }
                },
            };
            if !step_ok {
                proof {
                    let q2 = q.push(x);
                    let e2 = encode_blocks(q2);
                    let ea = encode_blocks(q_all);
                    assert(stream_extent(q2) > orig.len());
                    assert forall|j: int| 0 <= j < orig.len() implies #[trigger] self.dest@[j]
                        == orig[j] || (j < ea.len() && j != open_code_index(q_all)
                        && self.dest@[j] == ea[j]) by {
                        if self.dest@[j] != orig[j] {
                            if j < e.len() && j != open_code_index(q) {
                                assert(before[j] == e[j]);
                            } else {
                                assert(j == open_code_index(q));
                                assert(e2[j] == 0xFFu8);
                            }
                        }
                    }
                    assert forall|p: Seq<u8>| #[trigger] old(self).holds(p) implies p == p0 by {
                        old(self).lemma_holds_unique(p, p0);
                    }
                }
                return Err(());
            }
            // All branches above require advancing the pointer at least once
            self.dest_idx = self.dest_idx + 1;
            i = i + 1;
            proof {
                let q2 = q.push(x);
                let e2 = encode_blocks(q2);
                assert forall|j: int|
                    0 <= j < e2.len() && j < self.dest@.len() && j != open_code_index(q2)
                        implies #[trigger] self.dest@[j] == e2[j] by {
                    if j < e.len() && j != open_code_index(q) {
                        assert(before[j] == e[j]);
                    }
                }
            }
        }
        proof {
            assert(data@.take(i as int) =~= data@);
            assert forall|p: Seq<u8>| #[trigger] old(self).holds(p) implies p == p0 by {
                old(self).lemma_holds_unique(p, p0);
            }
        }
        Ok(())
    }

    /// Complete encoding of the output message. Does NOT terminate
    /// the message with the sentinel value
    pub fn finalize(self) -> (r: Result<usize, ()>)
        ensures
            r == if self.state.after_full_run() && self.dest_idx > 0 {
                Ok::<usize, ()>((self.dest_idx - 1) as usize)
            } else {
                Ok::<usize, ()>(self.dest_idx)
            },
            final(self.dest)@ == if (self.state.after_full_run() && self.dest_idx > 0)
                || self.state.code_index() >= old(self.dest)@.len() {
                old(self.dest)@
            } else {
                old(self.dest)@.update(self.state.code_index() as int, self.state.block_code())
            },
            forall|p: Seq<u8>| #[trigger]
                self.holds(p) ==> {
                    &&& r == Ok::<usize, ()>(cobs_encode(p).len() as usize)
                    &&& final(self.dest)@ == finish_buffer(old(self.dest)@, p)
                },
    {
        let mut enc = self;
        proof {
            lemma_encode_empty();
            let p = choose|p: Seq<u8>| enc.holds(p);
            lemma_push(p, 0);
            lemma_full_run_end(p);
            lemma_encoding_length(p);
        }
        let full = enc.state.full_run_closed;
        // Get the last index that needs to be fixed
        let (idx, mval) = enc.state.finalize();
        if full && enc.dest_idx > 0 {
            // The message ended with a full run: no empty piece follows it
            return Ok(enc.dest_idx - 1);
        }
        // If the current code index is outside of the destination slice,
        // we do not need to write it out
        if idx < enc.dest.len() {
            enc.dest[idx] = mval;
        }
        Ok(enc.dest_idx)
    }
}

/// The output buffer, first holding `d`, of an encoder that has been fed
/// `p`: every byte of `encode_blocks(p)` that fits, but the code byte of the
/// open piece, is written; the other bytes are those of `d`.
pub open spec fn encoder_buffer(d: Seq<u8>, p: Seq<u8>) -> Seq<u8> {
    let e = encode_blocks(p);
    Seq::new(
        d.len(),
        |i: int|
            if i < e.len() && i != open_code_index(p) {
                e[i]
            } else {
                d[i]
            },
    )
}

/// The output buffer `buf` of an encoder that holds `p`, once finalized: the
/// code byte of the open piece is written, if it fits, unless the message
/// ended with a full run.
pub open spec fn finish_buffer(buf: Seq<u8>, p: Seq<u8>) -> Seq<u8> {
    if ends_in_full_run(p) || open_code_index(p) >= buf.len() {
        buf
    } else {
        buf.update(open_code_index(p), (open_run(p) + 1) as u8)
    }
}

/// How a message is cut into the slices pushed into an encoder does not
/// matter: pushing `a` and then `b` succeeds exactly when pushing `a + b` at
/// once does, and leaves the same output buffer.
pub proof fn law_encoder_chunks(d: Seq<u8>, p: Seq<u8>, a: Seq<u8>, b: Seq<u8>)
    ensures
        encoding_fits(p + a + b, d.len()) ==> encoding_fits(p + a, d.len()),
        (p + a) + b == p + (a + b),
        encoder_buffer(encoder_buffer(d, p + a), (p + a) + b) == encoder_buffer(d, p + (a + b)),
{
    lemma_extend(p + a, b);
    assert((p + a) + b =~= p + (a + b));
    let q = p + a;
    let r = q + b;
    let eq = encode_blocks(q);
    let er = encode_blocks(r);
    assert forall|i: int| 0 <= i < d.len() implies #[trigger] encoder_buffer(
        encoder_buffer(d, q),
        r,
    )[i] == encoder_buffer(d, r)[i] by {
        if i < eq.len() && i != open_code_index(q) {
            assert(er[i] == eq[i]);
        }
    }
    assert(encoder_buffer(encoder_buffer(d, q), r) =~= encoder_buffer(d, r));
}

/// A finalized encoder's output buffer is the buffer that `encode` leaves:
/// the encoding of the message at its front, the rest unchanged.
pub proof fn law_encoder_matches_encode(d: Seq<u8>, p: Seq<u8>)
    requires
        cobs_encode(p).len() <= d.len(),
    ensures
        finish_buffer(encoder_buffer(d, p), p) == Seq::new(
            d.len(),
            |i: int|
                if i < cobs_encode(p).len() {
                    cobs_encode(p)[i]
                } else {
                    d[i]
                },
        ),
{
    lemma_push(p, 0);
    lemma_full_run_end(p);
    lemma_encoding_length(p);
    let e = encode_blocks(p);
    let c = cobs_encode(p);
    let lhs = finish_buffer(encoder_buffer(d, p), p);
    assert forall|i: int| 0 <= i < d.len() implies #[trigger] lhs[i] == (if i < c.len() {
        c[i]
    } else {
        d[i]
    }) by {
        if i < c.len() {
            assert(c[i] == e[i]);
        }
    }
    assert(lhs =~= Seq::new(
        d.len(),
        |i: int|
            if i < c.len() {
                c[i]
            } else {
                d[i]
            },
    ));
}

// ---------------------------------------------------------------------------
// Properties of the encoding
// ---------------------------------------------------------------------------

/// Number of full runs of 254 non-zero bytes that the block structure writes
/// with the code byte `0xFF`.
spec fn full_runs(src: Seq<u8>) -> nat
    decreases src.len(),
{
    let run = first_zero(src);
    if run >= 254 {
        if src.len() >= 254 {
            1 + full_runs(src.skip(254))
        } else {
            0
        }
    } else if run >= src.len() {
        0
    } else {
        full_runs(src.skip(run + 1int))
    }
}

proof fn lemma_encode_blocks_len(src: Seq<u8>)
    ensures
        encode_blocks(src).len() == src.len() + 1 + full_runs(src),
        254 * full_runs(src) <= src.len(),
        254 * full_runs(src) == src.len() && src.len() > 0 ==> ends_in_full_run(src),
    decreases src.len(),
{
    let run = first_zero(src);
    lemma_first_zero(src);
    if run >= 254 {
        lemma_encode_blocks_len(src.skip(254));
        if src.len() == 254 {
            assert(src.skip(254).len() == 0);
        }
    } else if run < src.len() {
        lemma_encode_blocks_len(src.skip(run + 1int));
    }
}

/// The encoded message never holds a zero byte.
pub(crate) proof fn lemma_encode_blocks_nonzero(src: Seq<u8>)
    ensures
        forall|i: int| 0 <= i < encode_blocks(src).len() ==> #[trigger] encode_blocks(src)[i] != 0,
    decreases src.len(),
{
    let run = first_zero(src);
    lemma_first_zero(src);
    let e = encode_blocks(src);
    if run >= 254 {
        let t = src.skip(254);
        lemma_encode_blocks_nonzero(t);
        let h = seq![0xFFu8] + src.take(254);
        assert forall|i: int| 0 <= i < e.len() implies #[trigger] e[i] != 0 by {
            if i >= 255 {
                assert(e[i] == encode_blocks(t)[i - 255]);
            } else if i >= 1 {
                assert(e[i] == src[i - 1]);
            }
        }
    } else if run >= src.len() {
        assert forall|i: int| 0 <= i < e.len() implies #[trigger] e[i] != 0 by {
            if i >= 1 {
                assert(e[i] == src[i - 1]);
            }
        }
    } else {
        let t = src.skip(run + 1int);
        lemma_encode_blocks_nonzero(t);
        assert forall|i: int| 0 <= i < e.len() implies #[trigger] e[i] != 0 by {
            if i >= run + 1 {
                assert(e[i] == encode_blocks(t)[i - run - 1]);
            } else if i >= 1 {
                assert(e[i] == src[i - 1]);
            }
        }
    }
}

/// The encoding of a message never holds the sentinel value zero, so the
/// sentinel can mark the end of the frame.
pub proof fn lemma_encoding_has_no_zero(src: Seq<u8>)
    ensures
        forall|i: int| 0 <= i < cobs_encode(src).len() ==> #[trigger] cobs_encode(src)[i] != 0,
{
    lemma_encode_blocks_nonzero(src);
    lemma_push(src, 0);
    let e = encode_blocks(src);
    assert forall|i: int| 0 <= i < cobs_encode(src).len() implies #[trigger] cobs_encode(src)[i]
        != 0 by {
        assert(cobs_encode(src)[i] == e[i]);
    }
}

/// The encoding of a message is never longer than `max_encoding_length`
/// of its length, and is at least one byte longer than the message, except
/// when the message ends in a full run.
pub proof fn lemma_encoding_length(src: Seq<u8>)
    ensures
        cobs_encode(src).len() <= crate::spec_max_encoding_length(src.len()),
        cobs_encode(src).len() >= src.len(),
        !ends_in_full_run(src) ==> cobs_encode(src).len() >= src.len() + 1,
        stream_extent(src) <= cobs_encode(src).len(),
        cobs_encode(src).len() <= stream_extent(src) + 1,
{
    lemma_encode_blocks_len(src);
    lemma_push(src, 0);
    lemma_full_run_end(src);
    let n = src.len();
    let f = full_runs(src);
    if !ends_in_full_run(src) && f >= 1 {
        assert(254 * f < n);
        assert((n + 253) / 254 >= f + 1) by (nonlinear_arith)
            requires
                254 * f < n,
        ;
    }
    if ends_in_full_run(src) {
        assert(f >= 1) by {
            if f == 0 {
                lemma_encoding_full_run_count(src);
            }
        }
        assert((n + 253) / 254 >= f) by (nonlinear_arith)
            requires
                254 * f <= n,
        ;
    }
}

/// A message ending in a full run has at least one full run.
proof fn lemma_encoding_full_run_count(src: Seq<u8>)
    ensures
        ends_in_full_run(src) ==> full_runs(src) >= 1,
    decreases src.len(),
{
    let run = first_zero(src);
    lemma_first_zero(src);
    if run < 254 && run < src.len() {
        lemma_encoding_full_run_count(src.skip(run + 1int));
    }
}

/// With a chosen sentinel, the encoding (each byte XOR-ed with the sentinel)
/// never holds the sentinel.
pub proof fn lemma_encoding_avoids_sentinel(src: Seq<u8>, sentinel: u8)
    ensures
        forall|i: int|
            0 <= i < cobs_encode(src).len() ==> #[trigger] (cobs_encode(src)[i] ^ sentinel)
                != sentinel,
{
    lemma_encoding_has_no_zero(src);
    assert forall|i: int| 0 <= i < cobs_encode(src).len() implies #[trigger] (cobs_encode(src)[i]
        ^ sentinel) != sentinel by {
        let x = cobs_encode(src)[i];
        assert(x != 0);
        assert(x != 0 ==> x ^ sentinel != sentinel) by (bit_vector);
    }
}

// ---------------------------------------------------------------------------
// Encoding functions
// ---------------------------------------------------------------------------

/// Encodes the `source` buffer into the `dest` buffer.
///
/// This function uses the typical sentinel value of 0. It returns the number of bytes
/// written to in the `dest` buffer.
///
/// The `dest` buffer must be large enough for the encoded message. You can
/// calculate the size the `dest` buffer needs to be with the
/// `max_encoding_length` function.
pub fn encode(source: &[u8], dest: &mut [u8]) -> (size: usize)
    requires
        cobs_encode(source@).len() <= old(dest)@.len(),
        old(dest)@.len() < usize::MAX,
    ensures
        size == cobs_encode(source@).len(),
        final(dest)@.len() == old(dest)@.len(),
        forall|i: int|
            0 <= i < old(dest)@.len() ==> #[trigger] final(dest)@[i] == if i < size {
                cobs_encode(source@)[i]
            } else {
                old(dest)@[i]
            },
{
    let ghost orig = dest@;
    proof {
        lemma_encoding_length(source@);
    }
    let mut enc = CobsEncoder::new(dest);
    proof {
        assert(Seq::<u8>::empty() + source@ =~= source@);
    }
    let pushed = enc.push(source);
    proof {
        assert(enc.holds(Seq::<u8>::empty() + source@));
    }
    let ghost mid = enc.dest@;
    let ghost state = enc.state;
    let r = enc.finalize();
    proof {
        lemma_push(source@, 0);
        lemma_full_run_end(source@);
        lemma_encoding_length(source@);
        let e = encode_blocks(source@);
        let ci = open_code_index(source@);
        assert forall|i: int| 0 <= i < orig.len() implies #[trigger] final(dest)@[i] == if i
            < cobs_encode(source@).len() {
            cobs_encode(source@)[i]
        } else {
            orig[i]
        } by {
            if i < cobs_encode(source@).len() {
                assert(cobs_encode(source@)[i] == e[i]);
                if i != ci {
                    assert(mid[i] == e[i]);
                }
            } else {
                assert(mid[i] == orig[i] || (i < e.len() && i != ci && mid[i] == e[i]));
            }
        }
    }
    r.unwrap()
}

/// Attempts to encode the `source` buffer into the `dest` buffer.
///
/// This function uses the typical sentinel value of 0. It returns the number of bytes
/// written to in the `dest` buffer.
///
/// If the destination buffer does not have enough room, an error will be returned
pub fn try_encode(source: &[u8], dest: &mut [u8]) -> (r: Result<usize, ()>)
    requires
        old(dest)@.len() < usize::MAX,
    ensures
        final(dest)@.len() == old(dest)@.len(),
        r is Ok <==> cobs_encode(source@).len() <= old(dest)@.len(),
        r matches Ok(size) ==> {
            &&& size == cobs_encode(source@).len()
            &&& forall|i: int|
                0 <= i < old(dest)@.len() ==> #[trigger] final(dest)@[i] == if i < size {
                    cobs_encode(source@)[i]
                } else {
                    old(dest)@[i]
                }
        },
        r is Err ==> forall|i: int|
            0 <= i < old(dest)@.len() ==> #[trigger] final(dest)@[i] == old(dest)@[i] || (i
                < encode_blocks(source@).len() && final(dest)@[i] == encode_blocks(source@)[i]),
{
    let ghost orig = dest@;
    proof {
        lemma_encoding_length(source@);
    }
    let room = dest.len();
    let mut enc = CobsEncoder::new(dest);
    proof {
        assert(Seq::<u8>::empty() + source@ =~= source@);
    }
    let pushed = enc.push(source);
    if pushed.is_err() {
        return Err(());
    }
    proof {
        assert(enc.holds(Seq::<u8>::empty() + source@));
    }
    let ghost mid = enc.dest@;
    let r = enc.finalize();
    proof {
        lemma_push(source@, 0);
        lemma_full_run_end(source@);
        lemma_encoding_length(source@);
        let e = encode_blocks(source@);
        let ci = open_code_index(source@);
        assert forall|i: int| 0 <= i < orig.len() implies #[trigger] final(dest)@[i] == if i
            < cobs_encode(source@).len() {
            cobs_encode(source@)[i]
        } else {
            orig[i]
        } by {
            if i < cobs_encode(source@).len() {
                assert(cobs_encode(source@)[i] == e[i]);
                if i != ci {
                    assert(mid[i] == e[i]);
                }
            } else {
                assert(mid[i] == orig[i] || (i < e.len() && i != ci && mid[i] == e[i]));
            }
        }
    }
    match r {
        Ok(size) => if size <= room {
            Ok(size)
        } else {
            // The encoder skips the last code byte when it does not fit
            Err(())
        },
        Err(()) => Err(()),
    }
}

/// Encodes the `source` buffer into the `dest` buffer using an
/// arbitrary sentinel value.
///
/// This is done by first encoding the message with the typical sentinel value
/// of 0, then XOR-ing each byte of the encoded message with the chosen sentinel
/// value. This will ensure that the sentinel value doesn't show up in the encoded
/// message. See the paper "Consistent Overhead Byte Stuffing" for details.
pub fn encode_with_sentinel(source: &[u8], dest: &mut [u8], sentinel: u8) -> (size: usize)
    requires
        cobs_encode(source@).len() <= old(dest)@.len(),
        old(dest)@.len() < usize::MAX,
    ensures
        size == cobs_encode(source@).len(),
        final(dest)@.len() == old(dest)@.len(),
        forall|i: int|
            0 <= i < old(dest)@.len() ==> #[trigger] final(dest)@[i] == if i < size {
                cobs_encode(source@)[i] ^ sentinel
            } else {
                old(dest)@[i]
            },
{
    proof {
        lemma_encoding_length(source@);
    }
    let ghost orig = dest@;
    let encoded_size = encode(source, dest);
    let ghost plain = dest@;
    let mut i: usize = 0;
    while i < encoded_size
        invariant
            encoded_size == cobs_encode(source@).len(),
            encoded_size <= dest@.len(),
            dest@.len() == orig.len(),
            0 <= i <= encoded_size,
            forall|j: int|
                0 <= j < orig.len() ==> #[trigger] plain[j] == if j < encoded_size {
                    cobs_encode(source@)[j]
                } else {
                    orig[j]
                },
            forall|j: int|
                0 <= j < dest@.len() ==> #[trigger] dest@[j] == if j < i {
                    plain[j] ^ sentinel
                } else {
                    plain[j]
                },
        decreases encoded_size - i,
    {
        let x = dest[i];
        dest[i] = x ^ sentinel;
        i = i + 1;
    }
    encoded_size
}

/// Encodes the `source` buffer into a vector.
pub fn encode_vec(source: &[u8]) -> (encoded: Vec<u8>)
    requires
        crate::spec_max_encoding_length(source@.len()) < usize::MAX,
    ensures
        encoded@ == cobs_encode(source@),
{
    proof {
        lemma_encoding_length(source@);
    }
    let mut encoded = vec![0u8; crate::max_encoding_length(source.len())];
    let encoded_len = encode(source, encoded.as_mut_slice());
    encoded.truncate(encoded_len);
    proof {
        assert(encoded@ =~= cobs_encode(source@));
    }
    encoded
}

/// Encodes the `source` buffer into a vector with an arbitrary sentinel value.
pub fn encode_vec_with_sentinel(source: &[u8], sentinel: u8) -> (encoded: Vec<u8>)
    requires
        crate::spec_max_encoding_length(source@.len()) < usize::MAX,
    ensures
        encoded@ == cobs_encode(source@).map_values(|b: u8| b ^ sentinel),
{
    proof {
        lemma_encoding_length(source@);
    }
    let mut encoded = vec![0u8; crate::max_encoding_length(source.len())];
    let encoded_len = encode_with_sentinel(source, encoded.as_mut_slice(), sentinel);
    encoded.truncate(encoded_len);
    proof {
        assert(encoded@ =~= cobs_encode(source@).map_values(|b: u8| b ^ sentinel));
    }
    encoded
}

} // verus!
