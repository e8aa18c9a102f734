# cobs

Consistent Overhead Byte Stuffing (COBS), verified with Verus.

COBS transforms a message into an encoding in which one byte value, the
sentinel (usually zero), never occurs, so that the sentinel can mark frame
boundaries on a serial channel.

- `src/enc.rs`: the encoding as a function on byte sequences
  (`cobs_encode`), the streaming encoder state machine (`EncoderState`),
  the streaming encoder over an output slice (`CobsEncoder`) and the encoding
  functions, with the laws on the encoding (no zero byte, length bound,
  sentinel avoidance, the state machine's buffer protocol).
- `src/dec.rs`: the decoder state machine (`DecoderState`), the streaming
  decoders (`CobsDecoder`, `CobsDecoderOwned`, `CobsDecoderHeapless`), the
  in-place decoder and the decoding functions, each specified by a function
  on byte sequences (`stream_push`, `decode_spec`); decoding in place is
  `decode_spec` with the source as its own output buffer.
- `src/roundtrip.rs`: decoding undoes encoding, for the streaming, the
  buffer-to-buffer, the in-place and the vector functions; a too-small
  output buffer gives `TargetBufTooSmall`; a frame fed byte by byte, to a
  streaming decoder and to the state machine alone; no zero-free input that
  decodes to a message is shorter than the message's encoding.
- `app/`: copies of the error and report types with `Display`,
  `std::error::Error`, serde and defmt support.
