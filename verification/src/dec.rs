use vstd::prelude::*;

verus! {

/// The [`DecoderState`] is used to track the current state of a
/// streaming decoder. This struct does not contain the output buffer
/// (or a reference to one), and can be used when streaming the decoded
/// output to a custom data type.
#[derive(Debug)]
pub enum DecoderState {
    /// State machine has not received any non-zero bytes
    Idle,
    /// 1-254 bytes, can be header or 00
    Grab(u8),
    /// 255 bytes, will be a header next
    GrabChain(u8),
}

impl Default for DecoderState {
    fn default() -> (s: Self)
        ensures
            s == DecoderState::Idle,
    {
        DecoderState::Idle
    }
}

/// [`DecodeResult`] represents the possible non-error outcomes of
/// pushing an encoded data byte into the [`DecoderState`] state machine
#[derive(Debug)]
pub enum DecodeResult {
    /// The given input byte did not prompt an output byte, either because the
    /// state machine is still idle, or we have just processed a header byte.
    /// More data is needed to complete the message.
    NoData,
    /// Received start of a new frame.
    DataStart,
    /// We have received a complete and well-encoded COBS message. The
    /// contents of the associated output buffer may now be used
    DataComplete,
    /// The following byte should be appended to the current end of the decoded
    /// output buffer.
    /// More data is needed to complete the message.
    DataContinue(u8),
}

/// Errors of the decoding functions.
#[derive(Debug, PartialEq, Eq)]
pub enum DecodeError {
    /// The input frame was empty.
    EmptyFrame,
    /// The frame had an invalid format.
    InvalidFrame {
        /// Number of bytes written to the decoded buffer.
        decoded_bytes: usize,
    },
    /// The target buffer was too small for the decoded frame.
    TargetBufTooSmall,
}

/// What feeding the byte `data` to the state machine in state `s` reports,
/// and the state it moves to.
pub open spec fn feed_spec(s: DecoderState, data: u8) -> (
    Result<DecodeResult, DecodeError>,
    DecoderState,
) {
    match s {
        // Idle: a terminator is ignored; any other byte is the header of a
        // frame: 0xFF announces 254 data bytes without a zero after them, any
        // other n announces n - 1 data bytes followed by a zero (or the end)
        DecoderState::Idle => if data == 0 {
            (Ok(DecodeResult::NoData), DecoderState::Idle)
        } else if data == 0xFF {
            (Ok(DecodeResult::DataStart), DecoderState::GrabChain(0xFE))
        } else {
            (Ok(DecodeResult::DataStart), DecoderState::Grab((data - 1) as u8))
        },
        DecoderState::Grab(i) => if i == 0 {
            // End of a run that is followed by a zero: either the frame ends
            // here, or the zero is written and this byte is the next header
            if data == 0 {
                (Ok(DecodeResult::DataComplete), DecoderState::Idle)
            } else if data == 0xFF {
                (Ok(DecodeResult::DataContinue(0)), DecoderState::GrabChain(0xFE))
            } else {
                (Ok(DecodeResult::DataContinue(0)), DecoderState::Grab((data - 1) as u8))
            }
        } else if data == 0 {
            // The frame ended early
            (Err(DecodeError::InvalidFrame { decoded_bytes: 0 }), DecoderState::Idle)
        } else {
            (Ok(DecodeResult::DataContinue(data)), DecoderState::Grab((i - 1) as u8))
        },
        DecoderState::GrabChain(i) => if i == 0 {
            // End of a full run: no zero follows it
            if data == 0 {
                (Ok(DecodeResult::DataComplete), DecoderState::Idle)
            } else if data == 0xFF {
                (Ok(DecodeResult::NoData), DecoderState::GrabChain(0xFE))
            } else {
                (Ok(DecodeResult::NoData), DecoderState::Grab((data - 1) as u8))
            }
        } else if data == 0 {
            (Err(DecodeError::InvalidFrame { decoded_bytes: 0 }), DecoderState::Idle)
        } else {
            (Ok(DecodeResult::DataContinue(data)), DecoderState::GrabChain((i - 1) as u8))
        },
    }
}

impl DecoderState {
    /// Feed a single encoded byte into the state machine. If the input was
    /// unexpected, such as an early end of a framed message segment, an Error will
    /// be returned, and the current associated output buffer contents should be discarded.
    ///
    /// If a complete message is indicated, the decoding state machine will automatically
    /// reset itself to the Idle state, and may be used to begin decoding another message.
    ///
    /// NOTE: Sentinel value must be included in the input to this function for the
    /// decoding to complete
    pub fn feed(&mut self, data: u8) -> (r: Result<DecodeResult, DecodeError>)
        ensures
            (r, *final(self)) == feed_spec(*old(self), data),
    {
        let (ret, state) = match *self {
            DecoderState::Idle => {
                if data == 0x00 {
                    (Ok(DecodeResult::NoData), DecoderState::Idle)
                } else if data == 0xFF {
                    (Ok(DecodeResult::DataStart), DecoderState::GrabChain(0xFE))
                } else {
                    (Ok(DecodeResult::DataStart), DecoderState::Grab(data - 1))
                }
            },
            DecoderState::Grab(i) => {
                if i == 0 {
                    if data == 0x00 {
                        (Ok(DecodeResult::DataComplete), DecoderState::Idle)
                    } else if data == 0xFF {
                        (Ok(DecodeResult::DataContinue(0)), DecoderState::GrabChain(0xFE))
                    } else {
                        (Ok(DecodeResult::DataContinue(0)), DecoderState::Grab(data - 1))
                    }
                } else if data == 0 {
                    (Err(DecodeError::InvalidFrame { decoded_bytes: 0 }), DecoderState::Idle)
                } else {
                    (Ok(DecodeResult::DataContinue(data)), DecoderState::Grab(i - 1))
                }
            },
            DecoderState::GrabChain(i) => {
                if i == 0 {
                    if data == 0x00 {
                        (Ok(DecodeResult::DataComplete), DecoderState::Idle)
                    } else if data == 0xFF {
                        (Ok(DecodeResult::NoData), DecoderState::GrabChain(0xFE))
                    } else {
                        (Ok(DecodeResult::NoData), DecoderState::Grab(data - 1))
                    }
                } else if data == 0 {
                    (Err(DecodeError::InvalidFrame { decoded_bytes: 0 }), DecoderState::Idle)
                } else {
                    (Ok(DecodeResult::DataContinue(data)), DecoderState::GrabChain(i - 1))
                }
            },
        };
        *self = state;
        ret
    }
}

/// A report of the source and destination bytes used during in-place decoding
#[derive(Debug, Copy, Clone, PartialEq, Eq)]
pub struct DecodeReport {
    parsed_size: usize,
    frame_size: usize,
}

impl View for DecodeReport {
    /// The decoded frame size and the number of source bytes parsed.
    type V = (usize, usize);

    closed spec fn view(&self) -> (usize, usize) {
        (self.frame_size, self.parsed_size)
    }
}

impl DecodeReport {
    /// A report of a decoded frame of `frame_size` bytes, for which
    /// `parsed_size` source bytes were parsed.
    pub fn new(frame_size: usize, parsed_size: usize) -> (r: DecodeReport)
        ensures
            r@ == (frame_size, parsed_size),
    {
        DecodeReport { parsed_size, frame_size }
    }

    /// The number of source bytes parsed.
    #[inline]
    pub fn parsed_size(&self) -> (n: usize)
        ensures
            n == self@.1,
    {
        self.parsed_size
    }

    /// The decoded frame size.
    #[inline]
    pub fn frame_size(&self) -> (n: usize)
        ensures
            n == self@.0,
    {
        self.frame_size
    }
}

/// The result of a decoding function, with each report taken by its view.
pub open spec fn report_view(r: Result<DecodeReport, DecodeError>) -> Result<
    (usize, usize),
    DecodeError,
> {
    match r {
        Ok(rep) => Ok(rep@),
        Err(e) => Err(e),
    }
}

/// The result of a `push`, with the report taken by its view.
pub open spec fn push_view(r: Result<Option<DecodeReport>, DecodeError>) -> Result<
    Option<(usize, usize)>,
    DecodeError,
> {
    match r {
        Ok(Some(rep)) => Ok(Some(rep@)),
        Ok(None) => Ok(None),
        Err(e) => Err(e),
    }
}

/// The streaming decoder over an output buffer at a given point: the index of
/// the next output byte, the state machine, and the output buffer.
pub struct StreamView {
    pub idx: usize,
    pub state: DecoderState,
    pub dest: Seq<u8>,
}

/// Feeding one byte to a streaming decoder: what it returns
/// (`Ok(None)`: more data needed, `Ok(Some(n))`: a frame of `n` bytes is
/// complete) and the decoder afterwards.
pub open spec fn stream_feed(v: StreamView, data: u8) -> (Result<Option<usize>, DecodeError>, StreamView) {
    let (res, st) = feed_spec(v.state, data);
    match res {
        Err(_) => (
            Err(DecodeError::InvalidFrame { decoded_bytes: v.idx }),
            StreamView { idx: v.idx, state: st, dest: v.dest },
        ),
        Ok(DecodeResult::NoData) => (Ok(None), StreamView { idx: v.idx, state: st, dest: v.dest }),
        Ok(DecodeResult::DataStart) => (Ok(None), StreamView { idx: 0, state: st, dest: v.dest }),
        Ok(DecodeResult::DataContinue(n)) => if v.idx < v.dest.len() {
            (
                Ok(None),
                StreamView {
                    idx: (v.idx + 1) as usize,
                    state: st,
                    dest: v.dest.update(v.idx as int, n),
                },
            )
        } else {
            (Err(DecodeError::TargetBufTooSmall), StreamView { idx: v.idx, state: st, dest: v.dest })
        },
        Ok(DecodeResult::DataComplete) => (
            Ok(Some(v.idx)),
            StreamView { idx: v.idx, state: st, dest: v.dest },
        ),
    }
}

/// Adds `k` consumed bytes to the parsed size of a completed frame.
pub open spec fn shift_parsed(
    r: Result<Option<(usize, usize)>, DecodeError>,
    k: nat,
) -> Result<Option<(usize, usize)>, DecodeError> {
    match r {
        Ok(Some((f, p))) => Ok(Some((f, (p + k) as usize))),
        _ => r,
    }
}

/// Pushing a slice of bytes into a streaming decoder: the bytes are fed one
/// at a time until a frame is complete (reported with its size and the
/// number of bytes of `data` consumed) or an error occurs.
pub open spec fn stream_push(v: StreamView, data: Seq<u8>) -> (
    Result<Option<(usize, usize)>, DecodeError>,
    StreamView,
)
    decreases data.len(),
{
    if data.len() == 0 {
        (Ok(None), v)
    } else {
        let (r, v2) = stream_feed(v, data[0]);
        match r {
            Err(e) => (Err(e), v2),
            Ok(Some(n)) => (Ok(Some((n, 1usize))), v2),
            Ok(None) => {
                let (r3, v3) = stream_push(v2, data.drop_first());
                (shift_parsed(r3, 1), v3)
            },
        }
    }
}

/// The parsed size of a completed frame counts consumed bytes of `data`.
pub proof fn lemma_stream_push_parsed(v: StreamView, data: Seq<u8>)
    requires
        data.len() <= usize::MAX,
    ensures
        stream_push(v, data).0 matches Ok(Some((f, p))) ==> 1 <= p <= data.len(),
    decreases data.len(),
{
    if data.len() > 0 {
        let (r, v2) = stream_feed(v, data[0]);
        lemma_stream_push_parsed(v2, data.drop_first());
    }
}

/// Writes `data` at index `idx` of the output, if it is in range.
fn add(to: &mut [u8], idx: usize, data: u8) -> (r: Result<(), DecodeError>)
    ensures
        r is Ok <==> idx < old(to)@.len(),
        r is Ok ==> final(to)@ == old(to)@.update(idx as int, data) && idx + 1 <= usize::MAX,
        r is Err ==> r == Err::<(), DecodeError>(DecodeError::TargetBufTooSmall) && final(to)@
            == old(to)@,
{
    if idx < to.len() {
        to[idx] = data;
        Ok(())
    } else {
        Err(DecodeError::TargetBufTooSmall)
    }
}

/// The decoding state shared by the streaming decoders: the output index and
/// the state machine.
#[derive(Debug)]
pub struct CobsDecoderInner {
    /// Index of next byte to write in `dest`
    dest_idx: usize,
    /// Decoder state as an enum
    state: DecoderState,
}

impl Default for CobsDecoderInner {
    fn default() -> (d: Self)
        ensures
            d.index() == 0,
            d.machine() == DecoderState::Idle,
    {
        CobsDecoderInner::new()
    }
}

impl CobsDecoderInner {
    /// Index of the next byte to write in the output.
    pub closed spec fn index(&self) -> usize {
        self.dest_idx
    }

    /// The state machine.
    pub closed spec fn machine(&self) -> DecoderState {
        self.state
    }

    /// This decoder together with the output buffer `dest`.
    pub open spec fn with_dest(&self, dest: Seq<u8>) -> StreamView {
        StreamView { idx: self.index(), state: self.machine(), dest }
    }

    fn new() -> (d: Self)
        ensures
            d.index() == 0,
            d.machine() == DecoderState::Idle,
    {
        Self { dest_idx: 0, state: DecoderState::Idle }
    }

    /// Feed a single byte into the streaming CobsDecoder. Return values mean:
    ///
    /// * Ok(None) - State machine okay, more data needed
    /// * Ok(Some(N)) - A message of N bytes was successfully decoded
    /// * Err([DecodeError]) - Message decoding failed
    ///
    /// NOTE: Sentinel value must be included in the input to this function for the
    /// decoding to complete
    fn feed(&mut self, dest: &mut [u8], data: u8) -> (r: Result<Option<usize>, DecodeError>)
        ensures
            (r, final(self).with_dest(final(dest)@)) == stream_feed(
                old(self).with_dest(old(dest)@),
                data,
            ),
    {
        match self.state.feed(data) {
            Err(_) => Err(DecodeError::InvalidFrame { decoded_bytes: self.dest_idx }),
            Ok(DecodeResult::NoData) => Ok(None),
            Ok(DecodeResult::DataStart) => {
                self.dest_idx = 0;
                Ok(None)
            },
            Ok(DecodeResult::DataContinue(n)) => {
                match self::add(dest, self.dest_idx, n) {
                    Ok(()) => {},
                    Err(e) => {
                        return Err(e);
                    },
                }
                self.dest_idx = self.dest_idx + 1;
                Ok(None)
            },
            Ok(DecodeResult::DataComplete) => Ok(Some(self.dest_idx)),
        }
    }

    /// Push a slice of bytes into the streaming CobsDecoder. Return values mean:
    ///
    /// * Ok(None) - State machine okay, more data needed
    /// * Ok(Some([DecodeReport]))) - A message was successfully decoded. The parse size of the
    ///   report specifies the consumed bytes of the passed data chunk.
    /// * Err([DecodeError]) - Message decoding failed
    ///
    /// If the decoder is used for continuous decoding, the user must take care of feeding any
    /// undecoded bytes of the input data back into the decoder. This can be done by
    /// [Self::push]ing the undecoded bytes (the last X bytes of the input with X being the length
    /// of the input minus the parsed length) into the decoder after a frame was decoded.
    ///
    /// NOTE: Sentinel value must be included in the input to this function for the
    /// decoding to complete
    pub fn push(&mut self, dest: &mut [u8], data: &[u8]) -> (r: Result<
        Option<DecodeReport>,
        DecodeError,
    >)
        ensures
            (push_view(r), final(self).with_dest(final(dest)@)) == stream_push(
                old(self).with_dest(old(dest)@),
                data@,
            ),
    {
        let ghost v0 = old(self).with_dest(old(dest)@);
        let mut consumed_idx: usize = 0;
        let data_len = data.len();
        proof {
            assert(data@.skip(0) =~= data@);
            lemma_stream_push_parsed(v0, data@);
        }
        while consumed_idx < data.len()
            invariant
                0 <= consumed_idx <= data@.len(),
                v0 == old(self).with_dest(old(dest)@),
                ({
                    let (r, v) = stream_push(self.with_dest(dest@), data@.skip(consumed_idx as int));
                    stream_push(v0, data@) == (shift_parsed(r, consumed_idx as nat), v)
                }),
            decreases data@.len() - consumed_idx,
        {
            let byte = data[consumed_idx];
            let ghost rest = data@.skip(consumed_idx as int);
            let ghost vi = self.with_dest(dest@);
            proof {
                assert(rest[0] == byte);
                assert(rest.drop_first() =~= data@.skip(consumed_idx + 1));
                lemma_stream_push_parsed(stream_feed(vi, byte).1, rest.drop_first());
            }
            let opt_decoded_bytes = self.feed(dest, byte);
            match opt_decoded_bytes {
                Err(e) => {
                    return Err(e);
                },
                Ok(Some(decoded_bytes_ct)) => {
                    // convert from index to number of bytes consumed
                    return Ok(Some(DecodeReport::new(decoded_bytes_ct, consumed_idx + 1)));
                },
                Ok(None) => {},
            }
            consumed_idx = consumed_idx + 1;
        }
        proof {
            assert(data@.skip(consumed_idx as int) =~= Seq::<u8>::empty());
        }
        Ok(None)
    }
}

/// The [`CobsDecoder`] type is used to decode a stream of bytes to a
/// given mutable output slice. This is often useful when heap data
/// structures are not available, or when not all message bytes are
/// received at a single point in time.
#[derive(Debug)]
pub struct CobsDecoder<'a> {
    /// Destination slice for decoded message
    pub dest: &'a mut [u8],
    /// The decoding state.
    pub inner: CobsDecoderInner,
}

impl<'a> CobsDecoder<'a> {
    /// This decoder at its current point.
    pub open spec fn stream(&self) -> StreamView {
        self.inner.with_dest(self.dest@)
    }

    /// The contents of the output buffer.
    pub open spec fn buffer(&self) -> Seq<u8> {
        self.dest@
    }

    /// Create a new streaming Cobs Decoder. Provide the output buffer
    /// for the decoded message to be placed in
    pub fn new(dest: &'a mut [u8]) -> (d: CobsDecoder<'a>)
        ensures
            d.dest@ == old(dest)@,
            final(d.dest)@ == final(dest)@,
            d.inner.index() == 0,
            d.inner.machine() == DecoderState::Idle,
    {
        CobsDecoder { dest, inner: CobsDecoderInner::new() }
    }

    /// Feed a single byte into the streaming decoder. Return values mean:
    ///
    /// * Ok(None) - State machine okay, more data needed
    /// * Ok(Some(N)) - A message of N bytes was successfully decoded
    /// * Err([DecodeError]) - Message decoding failed
    ///
    /// NOTE: Sentinel value must be included in the input to this function for the
    /// decoding to complete
    pub fn feed(&mut self, data: u8) -> (r: Result<Option<usize>, DecodeError>)
        ensures
            (r, final(self).stream()) == stream_feed(old(self).stream(), data),
            final(final(self).dest)@ == final(old(self).dest)@,
    {
        self.inner.feed(self.dest, data)
    }

    /// Push a slice of bytes into the streaming CobsDecoder. Return values mean:
    ///
    /// * Ok(None) - State machine okay, more data needed
    /// * Ok(Some([DecodeReport]))) - A message was successfully decoded. The parse size of the
    ///   report specifies the consumed bytes of the passed data chunk.
    /// * Err([DecodeError]) - Message decoding failed
    ///
    /// If the decoder is used for continuous decoding, the user must take care of feeding any
    /// undecoded bytes of the input data back into the decoder. This can be done by
    /// [Self::push]ing the undecoded bytes (the last X bytes of the input with X being the length
    /// of the input minus the parsed length) into the decoder after a frame was decoded.
    ///
    /// NOTE: Sentinel value must be included in the input to this function for the
    /// decoding to complete
    pub fn push(&mut self, data: &[u8]) -> (r: Result<Option<DecodeReport>, DecodeError>)
        ensures
            (push_view(r), final(self).stream()) == stream_push(old(self).stream(), data@),
            final(final(self).dest)@ == final(old(self).dest)@,
    {
        self.inner.push(self.dest, data)
    }

    /// Destination buffer which contains decoded frames.
    #[inline]
    pub fn dest(&self) -> (d: &[u8])
        ensures
            d@ == self.buffer(),
    {
        self.dest
    }

    /// Destination buffer which contains decoded frames.
    ///
    /// This allows using the buffer for other purposes than decoding after a frame was found.
    /// Changing the buffer in any other state might corrupt a frame which might currently be
    /// decoded.
    #[inline]
    pub fn dest_mut(&mut self) -> (d: &mut [u8])
        ensures
            d@ == old(self).dest@,
            final(self).dest@ == final(d)@,
            final(self).inner == old(self).inner,
            final(final(self).dest)@ == final(old(self).dest)@,
    {
        self.dest
    }
}

/// The [`CobsDecoderOwned`] type is used to decode a stream of bytes to a given mutable output
/// slice. It owns the decoding buffer.
///
/// This structure allocates the buffer once at construction but does not perform
/// runtime allocations. This simplifies keeping a streaming decoder structure as a field
/// of a structure because it does not require a lifetime.
#[derive(Debug)]
pub struct CobsDecoderOwned {
    /// Destination slice for decoded message
    dest: Vec<u8>,
    inner: CobsDecoderInner,
}

impl CobsDecoderOwned {
    /// The decoding buffer.
    pub closed spec fn buffer(&self) -> Seq<u8> {
        self.dest@
    }

    /// The decoding state.
    pub closed spec fn decoder(&self) -> CobsDecoderInner {
        self.inner
    }

    /// This decoder at its current point.
    pub open spec fn stream(&self) -> StreamView {
        self.decoder().with_dest(self.buffer())
    }

    /// Create a new streaming Cobs Decoder. Provide the output buffer
    /// for the decoded message to be placed in
    pub fn new(dest_buf_size: usize) -> (d: Self)
        ensures
            d.buffer() == Seq::new(dest_buf_size as nat, |i: int| 0u8),
            d.decoder().index() == 0,
            d.decoder().machine() == DecoderState::Idle,
    {
        let d = Self { dest: vec![0u8; dest_buf_size], inner: CobsDecoderInner::new() };
        proof {
            assert(d.dest@ =~= Seq::new(dest_buf_size as nat, |i: int| 0u8));
        }
        d
    }

    /// Feed a single byte into the streaming decoder. Return values mean:
    ///
    /// * Ok(None) - State machine okay, more data needed
    /// * Ok(Some(N)) - A message of N bytes was successfully decoded
    /// * Err([DecodeError]) - Message decoding failed
    ///
    /// NOTE: Sentinel value must be included in the input to this function for the
    /// decoding to complete
    pub fn feed(&mut self, data: u8) -> (r: Result<Option<usize>, DecodeError>)
        ensures
            (r, final(self).stream()) == stream_feed(old(self).stream(), data),
    {
        self.inner.feed(self.dest.as_mut_slice(), data)
    }

    /// Push a slice of bytes into the streaming CobsDecoder. Return values mean:
    ///
    /// * Ok(None) - State machine okay, more data needed
    /// * Ok(Some([DecodeReport]))) - A message was successfully decoded. The parse size of the
    ///   report specifies the consumed bytes of the passed data chunk.
    /// * Err([DecodeError]) - Message decoding failed
    ///
    /// If the decoder is used for continuous decoding, the user must take care of feeding any
    /// undecoded bytes of the input data back into the decoder. This can be done by
    /// [Self::push]ing the undecoded bytes (the last X bytes of the input with X being the length
    /// of the input minus the parsed length) into the decoder after a frame was decoded.
    ///
    /// NOTE: Sentinel value must be included in the input to this function for the
    /// decoding to complete
    pub fn push(&mut self, data: &[u8]) -> (r: Result<Option<DecodeReport>, DecodeError>)
        ensures
            (push_view(r), final(self).stream()) == stream_push(old(self).stream(), data@),
    {
        self.inner.push(self.dest.as_mut_slice(), data)
    }

    /// Destination buffer which contains decoded frames.
    #[inline]
    pub fn dest(&self) -> (d: &[u8])
        ensures
            d@ == self.buffer(),
    {
        self.dest.as_slice()
    }

    /// Destination buffer which contains decoded frames.
    ///
    /// This allows using the buffer for other purposes than decoding after a frame was found.
    /// Changing the buffer in any other state might corrupt a frame which might currently be
    /// decoded.
    #[inline]
    pub fn dest_mut(&mut self) -> (d: &mut [u8])
        ensures
            d@ == old(self).buffer(),
            final(self).buffer() == final(d)@,
            final(self).decoder() == old(self).decoder(),
    {
        self.dest.as_mut_slice()
    }

    /// Reset the decoding state machine.
    #[inline]
    pub fn reset(&mut self)
        ensures
            final(self).buffer() == old(self).buffer(),
            final(self).decoder().index() == 0,
            final(self).decoder().machine() == DecoderState::Idle,
    {
        self.inner = CobsDecoderInner::default();
    }
}

/// The [`CobsDecoderHeapless`] type is used to decode a stream of bytes to a given mutable output
/// slice. It owns its decoding buffer of `N` bytes.
///
/// The buffer is a fixed-size array held inline, so that the decoder needs no
/// lifetime and no heap; its contents are the decoder's `buffer()`.
#[derive(Debug)]
pub struct CobsDecoderHeapless<const N: usize> {
    /// Destination slice for decoded message
    dest: [u8; N],
    inner: CobsDecoderInner,
}

impl<const N: usize> Default for CobsDecoderHeapless<N> {
    fn default() -> (d: Self)
        ensures
            d.buffer() == Seq::new(N as nat, |i: int| 0u8),
            d.decoder().index() == 0,
            d.decoder().machine() == DecoderState::Idle,
    {
        Self::new()
    }
}

impl<const N: usize> CobsDecoderHeapless<N> {
    /// The decoding buffer, of `N` bytes.
    pub closed spec fn buffer(&self) -> Seq<u8> {
        self.dest@
    }

    /// The decoding state.
    pub closed spec fn decoder(&self) -> CobsDecoderInner {
        self.inner
    }

    /// This decoder at its current point.
    pub open spec fn stream(&self) -> StreamView {
        self.decoder().with_dest(self.buffer())
    }

    /// This constructor internally creates the decoding buffer, zero-filled.
    pub fn new() -> (d: Self)
        ensures
            d.buffer() == Seq::new(N as nat, |i: int| 0u8),
            d.decoder().index() == 0,
            d.decoder().machine() == DecoderState::Idle,
    {
        let d = Self { dest: [0u8; N], inner: CobsDecoderInner::new() };
        proof {
            assert(d.dest@ =~= Seq::new(N as nat, |i: int| 0u8));
        }
        d
    }

    /// Feed a single byte into the streaming decoder. Return values mean:
    ///
    /// * Ok(None) - State machine okay, more data needed
    /// * Ok(Some(N)) - A message of N bytes was successfully decoded
    /// * Err([DecodeError]) - Message decoding failed
    ///
    /// NOTE: Sentinel value must be included in the input to this function for the
    /// decoding to complete
    pub fn feed(&mut self, data: u8) -> (r: Result<Option<usize>, DecodeError>)
        ensures
            (r, final(self).stream()) == stream_feed(old(self).stream(), data),
    {
        self.inner.feed(&mut self.dest, data)
    }

    /// Push a slice of bytes into the streaming CobsDecoder. Return values mean:
    ///
    /// * Ok(None) - State machine okay, more data needed
    /// * Ok(Some([DecodeReport]))) - A message was successfully decoded. The parse size of the
    ///   report specifies the consumed bytes of the passed data chunk.
    /// * Err([DecodeError]) - Message decoding failed
    ///
    /// If the decoder is used for continuous decoding, the user must take care of feeding any
    /// undecoded bytes of the input data back into the decoder. This can be done by
    /// [Self::push]ing the undecoded bytes (the last X bytes of the input with X being the length
    /// of the input minus the parsed length) into the decoder after a frame was decoded.
    ///
    /// NOTE: Sentinel value must be included in the input to this function for the
    /// decoding to complete
    pub fn push(&mut self, data: &[u8]) -> (r: Result<Option<DecodeReport>, DecodeError>)
        ensures
            (push_view(r), final(self).stream()) == stream_push(old(self).stream(), data@),
    {
        self.inner.push(&mut self.dest, data)
    }

    /// Destination buffer which contains decoded frames.
    #[inline]
    pub fn dest(&self) -> (d: &[u8])
        ensures
            d@ == self.buffer(),
    {
        self.dest.as_slice()
    }

    /// Destination buffer which contains decoded frames.
    ///
    /// This allows using the buffer for other purposes than decoding after a frame was found.
    /// Changing the buffer in any other state might corrupt a frame which might currently be
    /// decoded.
    #[inline]
    pub fn dest_mut(&mut self) -> (d: &mut [u8])
        ensures
            d@ == old(self).buffer(),
            final(self).buffer() == final(d)@,
            final(self).decoder() == old(self).decoder(),
    {
        &mut self.dest
    }

    /// Reset the decoding state machine.
    #[inline]
    pub fn reset(&mut self)
        ensures
            final(self).buffer() == old(self).buffer(),
            final(self).decoder().index() == 0,
            final(self).decoder().machine() == DecoderState::Idle,
    {
        self.inner = CobsDecoderInner::default();
    }
}

/// Former name of [`DecodeReport`].
pub type DecodingResult = DecodeReport;

/// The state machine starts over after every complete frame and after every
/// error, so that a stream of frames can be decoded one after another.
pub proof fn law_feed_restarts(s: DecoderState, data: u8)
    ensures
        feed_spec(s, data).0 matches Ok(DecodeResult::DataComplete) ==> feed_spec(s, data).1
            == DecoderState::Idle,
        feed_spec(s, data).0 is Err ==> feed_spec(s, data).1 == DecoderState::Idle,
        feed_spec(s, data).0 matches Ok(DecodeResult::DataComplete) <==> data == 0 && (s
            == DecoderState::Grab(0) || s == DecoderState::GrabChain(0)),
        feed_spec(s, data).0 is Err <==> data == 0 && s != DecoderState::Idle && s
            != DecoderState::Grab(0) && s != DecoderState::GrabChain(0),
{
}

/// What `decode` returns for `source` (the decoded frame size and the
/// number of source bytes parsed), and the output buffer afterwards: the
/// bytes are pushed into a fresh streaming decoder, and if they end without a
/// complete frame and without a terminating zero, a terminating zero is
/// pushed as well.
pub open spec fn decode_spec(source: Seq<u8>, dest: Seq<u8>) -> (
    Result<(usize, usize), DecodeError>,
    Seq<u8>,
) {
    if source.len() == 0 {
        (Err(DecodeError::EmptyFrame), dest)
    } else {
        let start = StreamView { idx: 0, state: DecoderState::Idle, dest };
        let (r, v) = stream_push(start, source);
        match r {
            Err(e) => (Err(e), v.dest),
            Ok(Some(rep)) => (Ok(rep), v.dest),
            Ok(None) => if source.last() != 0 {
                let (r2, v2) = stream_push(v, seq![0u8]);
                match r2 {
                    Err(e) => (Err(e), v2.dest),
                    Ok(Some((frame, _))) => (Ok((frame, source.len() as usize)), v2.dest),
                    Ok(None) => (Err(DecodeError::InvalidFrame { decoded_bytes: v2.idx }), v2.dest),
                }
            } else {
                (Err(DecodeError::InvalidFrame { decoded_bytes: v.idx }), v.dest)
            },
        }
    }
}

/// Decodes the `source` buffer into the `dest` buffer.
///
/// This function uses the typical sentinel value of 0.
pub fn decode(source: &[u8], dest: &mut [u8]) -> (r: Result<DecodeReport, DecodeError>)
    ensures
        (report_view(r), final(dest)@) == decode_spec(source@, old(dest)@),
{
    if source.len() == 0 {
        return Err(DecodeError::EmptyFrame);
    }
    let mut dec = CobsDecoder::new(dest);
    // Did we decode a message, using some or all of the buffer?
    match dec.push(source) {
        Err(e) => {
            return Err(e);
        },
        Ok(Some(result)) => {
            return Ok(result);
        },
        Ok(None) => {},
    }
    // If we consumed the entire buffer, but did NOT get a message,
    // AND the message did not end with a zero, try providing one to
    // complete the decoding.
    if source[source.len() - 1] != 0 {
        // Explicitly push sentinel of zero
        let zero: [u8; 1] = [0];
        proof {
            assert(zero@ =~= seq![0u8]);
        }
        match dec.push(&zero) {
            Err(e) => {
                return Err(e);
            },
            Ok(Some(result)) => {
                return Ok(DecodeReport::new(result.frame_size(), source.len()));
            },
            Ok(None) => {},
        }
    }
    // Nope, no early message, no missing terminator, just failed to decode
    Err(DecodeError::InvalidFrame { decoded_bytes: dec.inner.dest_idx })
}

/// A streaming decoder never writes past its output buffer: the output keeps
/// its length, and the index (and so any frame size) stays within it.
pub proof fn lemma_stream_push_bounds(v: StreamView, data: Seq<u8>)
    requires
        v.idx <= v.dest.len(),
    ensures
        stream_push(v, data).1.idx <= stream_push(v, data).1.dest.len(),
        stream_push(v, data).1.dest.len() == v.dest.len(),
        stream_push(v, data).0 matches Ok(Some((f, p))) ==> f <= v.dest.len() && f == stream_push(
            v,
            data,
        ).1.idx,
        stream_push(v, data).0 matches Err(DecodeError::InvalidFrame { decoded_bytes: n })
            ==> n <= v.dest.len(),
    decreases data.len(),
{
    if data.len() > 0 {
        let (r, v2) = stream_feed(v, data[0]);
        lemma_stream_push_bounds(v2, data.drop_first());
    }
}

/// What a streaming decoder reports, and the index and state it reaches,
/// depend on its output buffer only through the buffer's length (or not at
/// all, while the bytes fed cannot overrun either buffer); and the decoded
/// bytes of the current frame are the same.
pub proof fn law_stream_push_dest(v1: StreamView, v2: StreamView, data: Seq<u8>)
    requires
        v1.idx == v2.idx,
        v1.state == v2.state,
        v1.dest.len() == v2.dest.len() || (v1.idx + data.len() <= v1.dest.len() && v1.idx
            + data.len() <= v2.dest.len()),
    ensures
        stream_push(v1, data).0 == stream_push(v2, data).0,
        stream_push(v1, data).1.idx == stream_push(v2, data).1.idx,
        stream_push(v1, data).1.state == stream_push(v2, data).1.state,
        stream_push(v1, data).1.idx <= v1.idx + data.len(),
        (forall|j: int| 0 <= j < v1.idx ==> v1.dest[j] == v2.dest[j]) ==> forall|j: int|
            0 <= j < stream_push(v1, data).1.idx ==> #[trigger] stream_push(v1, data).1.dest[j]
                == stream_push(v2, data).1.dest[j],
    decreases data.len(),
{
    if data.len() > 0 {
        let (r1, w1) = stream_feed(v1, data[0]);
        let (r2, w2) = stream_feed(v2, data[0]);
        law_stream_push_dest(w1, w2, data.drop_first());
        if forall|j: int| 0 <= j < v1.idx ==> v1.dest[j] == v2.dest[j] {
            assert forall|j: int| 0 <= j < w1.idx implies w1.dest[j] == w2.dest[j] by {
                if j < v1.idx {
                    assert(v1.dest[j] == v2.dest[j]);
                }
            }
        }
    }
}

/// Feeding a zero byte writes nothing, and what it reports depends only on
/// the index and the state.
proof fn lemma_feed_zero(v1: StreamView, v2: StreamView)
    requires
        v1.idx == v2.idx,
        v1.state == v2.state,
    ensures
        stream_push(v1, seq![0u8]).0 == stream_push(v2, seq![0u8]).0,
        stream_push(v1, seq![0u8]).1.idx == v1.idx,
        stream_push(v2, seq![0u8]).1.idx == v2.idx,
        stream_push(v1, seq![0u8]).1.dest == v1.dest,
        stream_push(v2, seq![0u8]).1.dest == v2.dest,
{
    let z = seq![0u8];
    assert(z.len() == 1 && z[0] == 0);
    assert(z.drop_first() =~= Seq::<u8>::empty());
    let (r1, w1) = stream_feed(v1, 0u8);
    let (r2, w2) = stream_feed(v2, 0u8);
    assert(w1.idx == v1.idx && w1.dest == v1.dest && w1.state == w2.state);
    assert(w2.idx == v2.idx && w2.dest == v2.dest);
    assert(r1 == r2);
    assert(stream_push(w1, z.drop_first()) == (Ok::<Option<(usize, usize)>, DecodeError>(None), w1));
    assert(stream_push(w2, z.drop_first()) == (Ok::<Option<(usize, usize)>, DecodeError>(None), w2));
}

/// Decoding in place gives what `decode` gives into a separate buffer at least
/// as long: the same result (frame size and parsed size, or the same error),
/// and the same decoded bytes.
pub proof fn law_decode_in_place_is_decode(buf: Seq<u8>, d: Seq<u8>)
    requires
        buf.len() <= d.len() <= usize::MAX,
    ensures
        decode_spec(buf, buf).0 == decode_spec(buf, d).0,
        decode_spec(buf, d).0 matches Ok((n, _)) ==> forall|j: int|
            0 <= j < n ==> #[trigger] decode_spec(buf, buf).1[j] == decode_spec(buf, d).1[j],
{
    if buf.len() > 0 {
        let s1 = StreamView { idx: 0, state: DecoderState::Idle, dest: buf };
        let s2 = StreamView { idx: 0, state: DecoderState::Idle, dest: d };
        law_stream_push_dest(s1, s2, buf);
        lemma_stream_push_bounds(s1, buf);
        let w1 = stream_push(s1, buf).1;
        let w2 = stream_push(s2, buf).1;
        lemma_feed_zero(w1, w2);
        lemma_stream_push_bounds(w1, seq![0u8]);
        assert(forall|j: int| 0 <= j < w1.idx ==> #[trigger] w1.dest[j] == w2.dest[j]);
    }
}

/// A decoding result with the report reduced to the frame size.
pub open spec fn frame_size_of(r: Result<(usize, usize), DecodeError>) -> Result<usize, DecodeError> {
    match r {
        Ok((frame, _)) => Ok(frame),
        Err(e) => Err(e),
    }
}

/// Decodes a message in-place.
///
/// This is the same function as [decode], but provides a report
/// of both the number of source bytes consumed as well as the size of the
/// destination used.
///
/// The message is decoded as `decode` decodes it into a separate buffer, while
/// the decoded bytes overwrite the encoded ones, which have been read by then
/// (see `law_decode_in_place_is_decode`).
pub fn decode_in_place_report(buf: &mut [u8]) -> (r: Result<DecodeReport, DecodeError>)
    ensures
        (report_view(r), final(buf)@) == decode_spec(old(buf)@, old(buf)@),
{
    let ghost orig = buf@;
    let len = buf.len();
    if len == 0 {
        return Err(DecodeError::EmptyFrame);
    }
    let last = buf[len - 1];
    let mut inner = CobsDecoderInner::new();
    let ghost v0 = StreamView { idx: 0, state: DecoderState::Idle, dest: orig };
    proof {
        assert(orig.skip(0) =~= orig);
        lemma_stream_push_parsed(v0, orig);
    }
    let mut i: usize = 0;
    while i < len
        invariant
            len == orig.len(),
            orig == old(buf)@,
            last == orig[len - 1],
            buf@.len() == len,
            0 <= i <= len,
            inner.index() <= i,
            forall|j: int| i <= j < len ==> #[trigger] buf@[j] == orig[j],
            v0 == (StreamView { idx: 0, state: DecoderState::Idle, dest: orig }),
            ({
                let (r, v) = stream_push(inner.with_dest(buf@), orig.skip(i as int));
                stream_push(v0, orig) == (shift_parsed(r, i as nat), v)
            }),
        decreases len - i,
    {
        // The byte is read before the decoded bytes reach its index
        let byte = buf[i];
        let ghost rest = orig.skip(i as int);
        let ghost vi = inner.with_dest(buf@);
        proof {
            assert(rest[0] == byte);
            assert(rest.drop_first() =~= orig.skip(i + 1));
            lemma_stream_push_parsed(stream_feed(vi, byte).1, rest.drop_first());
        }
        match inner.feed(buf, byte) {
            Err(e) => {
                return Err(e);
            },
            Ok(Some(decoded_bytes_ct)) => {
                return Ok(DecodeReport::new(decoded_bytes_ct, i + 1));
            },
            Ok(None) => {},
        }
        i = i + 1;
    }
    proof {
        assert(orig.skip(i as int) =~= Seq::<u8>::empty());
        assert(seq![0u8].drop_first() =~= Seq::<u8>::empty());
    }
    // No complete frame: if the input did not end with a zero, provide one
    if last != 0 {
        match inner.feed(buf, 0) {
            Err(e) => {
                return Err(e);
            },
            Ok(Some(decoded_bytes_ct)) => {
                return Ok(DecodeReport::new(decoded_bytes_ct, len));
            },
            Ok(None) => {},
        }
    }
    Err(DecodeError::InvalidFrame { decoded_bytes: inner.dest_idx })
}

/// Decodes a message in-place.
///
/// This is the same function as [decode], but replaces the encoded message
/// with the decoded message instead of writing to another buffer.
///
/// The returned `usize` is the number of bytes used for the DECODED value,
/// NOT the number of source bytes consumed during decoding.
pub fn decode_in_place(buff: &mut [u8]) -> (r: Result<usize, DecodeError>)
    ensures
        (r, final(buff)@) == (
            frame_size_of(decode_spec(old(buff)@, old(buff)@).0),
            decode_spec(old(buff)@, old(buff)@).1,
        ),
{
    match decode_in_place_report(buff) {
        Ok(res) => Ok(res.frame_size()),
        Err(e) => Err(e),
    }
}

/// Each byte of `s` XOR-ed with `sentinel`.
pub open spec fn xor_bytes(s: Seq<u8>, sentinel: u8) -> Seq<u8> {
    s.map_values(|b: u8| b ^ sentinel)
}

/// Decodes the `source` buffer into the `dest` buffer using an arbitrary sentinel value.
///
/// This is done by XOR-ing each byte of the source message with the chosen sentinel value,
/// which transforms the message into the same message encoded with a sentinel value of 0.
/// Then the regular decoding transformation is performed.
///
/// The returned `usize` is the number of bytes used for the DECODED value,
/// NOT the number of source bytes consumed during decoding.
pub fn decode_with_sentinel(source: &[u8], dest: &mut [u8], sentinel: u8) -> (r: Result<
    usize,
    DecodeError,
>)
    ensures
        (r, final(dest)@) == (
            frame_size_of(decode_spec(xor_bytes(source@, sentinel), old(dest)@).0),
            decode_spec(xor_bytes(source@, sentinel), old(dest)@).1,
        ),
{
    let ghost src = xor_bytes(source@, sentinel);
    let len = source.len();
    if len == 0 {
        return Err(DecodeError::EmptyFrame);
    }
    let mut inner = CobsDecoderInner::new();
    let ghost v0 = StreamView { idx: 0, state: DecoderState::Idle, dest: dest@ };
    proof {
        assert(src.skip(0) =~= src);
        lemma_stream_push_parsed(v0, src);
    }
    let mut i: usize = 0;
    while i < len
        invariant
            len == source@.len(),
            src == xor_bytes(source@, sentinel),
            v0 == (StreamView { idx: 0, state: DecoderState::Idle, dest: old(dest)@ }),
            0 <= i <= len,
            ({
                let (r, v) = stream_push(inner.with_dest(dest@), src.skip(i as int));
                stream_push(v0, src) == (shift_parsed(r, i as nat), v)
            }),
        decreases len - i,
    {
        let byte = source[i] ^ sentinel;
        let ghost rest = src.skip(i as int);
        let ghost vi = inner.with_dest(dest@);
        proof {
            assert(rest[0] == byte);
            assert(rest.drop_first() =~= src.skip(i + 1));
            lemma_stream_push_parsed(stream_feed(vi, byte).1, rest.drop_first());
        }
        match inner.feed(dest, byte) {
            Err(e) => {
                return Err(e);
            },
            Ok(Some(decoded_bytes_ct)) => {
                return Ok(decoded_bytes_ct);
            },
            Ok(None) => {},
        }
        i = i + 1;
    }
    proof {
        assert(src.skip(i as int) =~= Seq::<u8>::empty());
        assert(seq![0u8].drop_first() =~= Seq::<u8>::empty());
        assert(src.last() == source@[len - 1] ^ sentinel);
    }
    // No complete frame: if the input did not end with a zero, provide one
    if source[len - 1] ^ sentinel != 0 {
        match inner.feed(dest, 0) {
            Err(e) => {
                return Err(e);
            },
            Ok(Some(decoded_bytes_ct)) => {
                return Ok(decoded_bytes_ct);
            },
            Ok(None) => {},
        }
    }
    Err(DecodeError::InvalidFrame { decoded_bytes: inner.dest_idx })
}

/// Decodes a message in-place using an arbitrary sentinel value.
///
/// The returned `usize` is the number of bytes used for the DECODED value,
/// NOT the number of source bytes consumed during decoding.
pub fn decode_in_place_with_sentinel(buff: &mut [u8], sentinel: u8) -> (r: Result<
    usize,
    DecodeError,
>)
    ensures
        (r, final(buff)@) == (
            frame_size_of(
                decode_spec(xor_bytes(old(buff)@, sentinel), xor_bytes(old(buff)@, sentinel)).0,
            ),
            decode_spec(xor_bytes(old(buff)@, sentinel), xor_bytes(old(buff)@, sentinel)).1,
        ),
{
    let ghost orig = buff@;
    let mut i: usize = 0;
    while i < buff.len()
        invariant
            0 <= i <= buff@.len(),
            buff@.len() == orig.len(),
            orig == old(buff)@,
            forall|j: int|
                0 <= j < buff@.len() ==> #[trigger] buff@[j] == if j < i {
                    orig[j] ^ sentinel
                } else {
                    orig[j]
                },
        decreases buff@.len() - i,
    {
        let x = buff[i];
        buff[i] = x ^ sentinel;
        i = i + 1;
    }
    proof {
        assert(buff@ =~= xor_bytes(orig, sentinel));
    }
    decode_in_place(buff)
}

/// A buffer of `n` zero bytes.
pub open spec fn zeros(n: nat) -> Seq<u8> {
    Seq::new(n, |i: int| 0u8)
}

/// Decodes the `source` buffer into a vector.
pub fn decode_vec(source: &[u8]) -> (r: Result<Vec<u8>, DecodeError>)
    ensures
        match decode_spec(source@, zeros(source@.len())) {
            (Ok((frame, _)), out) => r matches Ok(v) && v@ == out.take(frame as int),
            (Err(e), _) => r == Err::<Vec<u8>, DecodeError>(e),
        },
{
    let mut decoded = vec![0u8; source.len()];
    proof {
        assert(decoded@ =~= zeros(source@.len()));
        lemma_decode_spec_bounds(source@, decoded@);
    }
    let result = match decode(source, decoded.as_mut_slice()) {
        Ok(result) => result,
        Err(e) => {
            return Err(e);
        },
    };
    decoded.truncate(result.frame_size());
    Ok(decoded)
}

/// Decodes the `source` buffer into a vector with an arbitrary sentinel value.
pub fn decode_vec_with_sentinel(source: &[u8], sentinel: u8) -> (r: Result<Vec<u8>, DecodeError>)
    ensures
        match decode_spec(xor_bytes(source@, sentinel), zeros(source@.len())) {
            (Ok((frame, _)), out) => r matches Ok(v) && v@ == out.take(frame as int),
            (Err(e), _) => r == Err::<Vec<u8>, DecodeError>(e),
        },
{
    let mut decoded = vec![0u8; source.len()];
    proof {
        assert(decoded@ =~= zeros(source@.len()));
        lemma_decode_spec_bounds(xor_bytes(source@, sentinel), decoded@);
    }
    let n = match decode_with_sentinel(source, decoded.as_mut_slice(), sentinel) {
        Ok(n) => n,
        Err(e) => {
            return Err(e);
        },
    };
    decoded.truncate(n);
    Ok(decoded)
}

/// `decode` keeps the output buffer's length and reports a frame that fits.
pub proof fn lemma_decode_spec_bounds(source: Seq<u8>, dest: Seq<u8>)
    ensures
        decode_spec(source, dest).1.len() == dest.len(),
        decode_spec(source, dest).0 matches Ok((f, p)) ==> f <= dest.len(),
{
    if source.len() > 0 {
        let start = StreamView { idx: 0, state: DecoderState::Idle, dest };
        lemma_stream_push_bounds(start, source);
        lemma_stream_push_bounds(stream_push(start, source).1, seq![0u8]);
    }
}

/// `dest` with the bytes of `data` written from index `at` on (as far as
/// `dest` reaches).
pub open spec fn splice(dest: Seq<u8>, at: int, data: Seq<u8>) -> Seq<u8> {
    Seq::new(
        dest.len(),
        |j: int|
            if at <= j < at + data.len() {
                data[j - at]
            } else {
                dest[j]
            },
    )
}

/// Pushing two slices one after the other, when the first completes no frame
/// and raises no error, is pushing their concatenation.
pub proof fn lemma_stream_push_append(v: StreamView, a: Seq<u8>, b: Seq<u8>)
    requires
        stream_push(v, a).0 == Ok::<Option<(usize, usize)>, DecodeError>(None),
        a.len() + b.len() <= usize::MAX,
    ensures
        ({
            let v2 = stream_push(v, a).1;
            stream_push(v, a + b) == (shift_parsed(stream_push(v2, b).0, a.len()), stream_push(
                v2,
                b,
            ).1)
        }),
    decreases a.len(),
{
    let v2 = stream_push(v, a).1;
    lemma_stream_push_parsed(v2, b);
    if a.len() == 0 {
        assert(a + b =~= b);
        let r = stream_push(v2, b).0;
        match r {
            Ok(Some((f, p))) => {
                assert((p + 0) as usize == p);
            },
            _ => {},
        }
    } else {
        let (r1, v1) = stream_feed(v, a[0]);
        assert((a + b)[0] == a[0]);
        assert((a + b).drop_first() =~= a.drop_first() + b);
        lemma_stream_push_append(v1, a.drop_first(), b);
        let r = stream_push(v2, b).0;
        match r {
            Ok(Some((f, p))) => {
                assert(((p + (a.len() - 1)) as usize + 1) as usize == (p + a.len()) as usize);
            },
            _ => {},
        }
    }
}

/// Feeding `k` non-zero data bytes to a decoder that expects `k` more bytes
/// of a piece writes them to the output and leaves it at the end of the piece.
pub proof fn lemma_stream_push_run(v: StreamView, d: Seq<u8>, chain: bool)
    requires
        v.state == (if chain {
            DecoderState::GrabChain(d.len() as u8)
        } else {
            DecoderState::Grab(d.len() as u8)
        }),
        d.len() <= 254,
        forall|i: int| 0 <= i < d.len() ==> d[i] != 0,
        v.idx + d.len() <= v.dest.len(),
        v.dest.len() <= usize::MAX,
    ensures
        stream_push(v, d) == (
            Ok::<Option<(usize, usize)>, DecodeError>(None),
            StreamView {
                idx: (v.idx + d.len()) as usize,
                state: if chain {
                    DecoderState::GrabChain(0)
                } else {
                    DecoderState::Grab(0)
                },
                dest: splice(v.dest, v.idx as int, d),
            },
        ),
    decreases d.len(),
{
    if d.len() == 0 {
        assert(splice(v.dest, v.idx as int, d) =~= v.dest);
    } else {
        let (r1, v1) = stream_feed(v, d[0]);
        assert(v1.idx == v.idx + 1);
        assert(v1.dest == v.dest.update(v.idx as int, d[0]));
        let t = d.drop_first();
        lemma_stream_push_run(v1, t, chain);
        assert(splice(v1.dest, v1.idx as int, t) =~= splice(v.dest, v.idx as int, d));
    }
}


/// What the state machine reports for each byte of `data`, fed in order from
/// state `s`.
pub open spec fn feed_results(s: DecoderState, data: Seq<u8>) -> Seq<
    Result<DecodeResult, DecodeError>,
>
    decreases data.len(),
{
    if data.len() == 0 {
        seq![]
    } else {
        seq![feed_spec(s, data[0]).0] + feed_results(feed_spec(s, data[0]).1, data.drop_first())
    }
}

/// The state the state machine reaches from `s` after the bytes of `data`.
pub open spec fn feed_state(s: DecoderState, data: Seq<u8>) -> DecoderState
    decreases data.len(),
{
    if data.len() == 0 {
        s
    } else {
        feed_state(feed_spec(s, data[0]).1, data.drop_first())
    }
}

/// The output bytes of a sequence of reports: the payloads of its
/// `DataContinue` reports, in order.
pub open spec fn payloads(rs: Seq<Result<DecodeResult, DecodeError>>) -> Seq<u8>
    decreases rs.len(),
{
    if rs.len() == 0 {
        seq![]
    } else {
        match rs[0] {
            Ok(DecodeResult::DataContinue(b)) => seq![b] + payloads(rs.drop_first()),
            _ => payloads(rs.drop_first()),
        }
    }
}

/// Feeding `a` and then `b` reports what feeding `a + b` reports.
pub proof fn lemma_feed_results_append(s: DecoderState, a: Seq<u8>, b: Seq<u8>)
    ensures
        feed_results(s, a + b) == feed_results(s, a) + feed_results(feed_state(s, a), b),
        feed_state(s, a + b) == feed_state(feed_state(s, a), b),
    decreases a.len(),
{
    if a.len() == 0 {
        assert(a + b =~= b);
        assert(feed_results(s, a) + feed_results(s, b) =~= feed_results(s, b));
    } else {
        let s1 = feed_spec(s, a[0]).1;
        assert((a + b)[0] == a[0]);
        assert((a + b).drop_first() =~= a.drop_first() + b);
        lemma_feed_results_append(s1, a.drop_first(), b);
        assert(feed_results(s, a + b) =~= feed_results(s, a) + feed_results(feed_state(s, a), b));
    }
}

/// The payloads of two sequences of reports one after the other.
pub proof fn lemma_payloads_append(
    a: Seq<Result<DecodeResult, DecodeError>>,
    b: Seq<Result<DecodeResult, DecodeError>>,
)
    ensures
        payloads(a + b) == payloads(a) + payloads(b),
    decreases a.len(),
{
    if a.len() == 0 {
        assert(a + b =~= b);
        assert(payloads(a) + payloads(b) =~= payloads(b));
    } else {
        assert((a + b)[0] == a[0]);
        assert((a + b).drop_first() =~= a.drop_first() + b);
        lemma_payloads_append(a.drop_first(), b);
        match a[0] {
            Ok(DecodeResult::DataContinue(x)) => {
                assert(seq![x] + (payloads(a.drop_first()) + payloads(b)) =~= (seq![x]
                    + payloads(a.drop_first())) + payloads(b));
            },
            _ => {},
        }
    }
}

/// Inside a frame, a streaming decoder that reports no frame and no error
/// runs the state machine: each byte reports `NoData` or `DataContinue`, the
/// machine never leaves the frame, and the payloads are written in order
/// from the decoder's index on.
pub proof fn lemma_stream_push_trace(v: StreamView, d: Seq<u8>)
    requires
        v.state != DecoderState::Idle,
        v.dest.len() <= usize::MAX,
        stream_push(v, d).0 == Ok::<Option<(usize, usize)>, DecodeError>(None),
    ensures
        feed_results(v.state, d).len() == d.len(),
        forall|i: int|
            0 <= i < d.len() ==> (#[trigger] feed_results(v.state, d)[i] matches Ok(
                DecodeResult::NoData,
            ) || feed_results(v.state, d)[i] matches Ok(DecodeResult::DataContinue(_))),
        feed_state(v.state, d) != DecoderState::Idle,
        stream_push(v, d).1.state == feed_state(v.state, d),
        stream_push(v, d).1.idx == v.idx + payloads(feed_results(v.state, d)).len(),
        stream_push(v, d).1.dest == splice(v.dest, v.idx as int, payloads(feed_results(v.state, d))),
    decreases d.len(),
{
    if d.len() == 0 {
        assert(splice(v.dest, v.idx as int, Seq::<u8>::empty()) =~= v.dest);
    } else {
        let (r1, v1) = stream_feed(v, d[0]);
        let fs = feed_spec(v.state, d[0]);
        let t = d.drop_first();
        assert(r1 == Ok::<Option<usize>, DecodeError>(None));
        assert(v1.state == fs.1);
        assert(fs.1 != DecoderState::Idle);
        lemma_stream_push_trace(v1, t);
        let rs = feed_results(v.state, d);
        let rt = feed_results(fs.1, t);
        assert(rs == seq![fs.0] + rt);
        assert(rs.drop_first() =~= rt);
        assert(rs[0] == fs.0);
        assert forall|i: int| 0 <= i < d.len() implies (#[trigger] rs[i] matches Ok(
            DecodeResult::NoData,
        ) || rs[i] matches Ok(DecodeResult::DataContinue(_))) by {
            if i > 0 {
                assert(rs[i] == rt[i - 1]);
            }
        }
        match fs.0 {
            Ok(DecodeResult::DataContinue(b)) => {
                assert(v.idx < v.dest.len());
                assert(v1.idx == v.idx + 1);
                assert(v1.dest == v.dest.update(v.idx as int, b));
                assert(payloads(rs) == seq![b] + payloads(rt));
                assert(splice(v1.dest, v1.idx as int, payloads(rt)) =~= splice(
                    v.dest,
                    v.idx as int,
                    seq![b] + payloads(rt),
                ));
            },
            _ => {
                assert(v1.idx == v.idx && v1.dest == v.dest);
                assert(payloads(rs) == payloads(rt));
            },
        }
    }
}

} // verus!
