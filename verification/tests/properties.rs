use cobs::{
    decode, decode_in_place, decode_in_place_report, decode_in_place_with_sentinel, decode_vec,
    decode_vec_with_sentinel, decode_with_sentinel, encode, encode_vec, encode_vec_with_sentinel,
    encode_with_sentinel, max_encoding_length, try_encode, CobsDecoder, CobsDecoderHeapless,
    CobsDecoderOwned, CobsEncoder, DecodeError, DecodeReport, DecodeResult, DecoderState,
    EncoderState, PushResult,
};

#[test]
fn encoder_state_push_results() {
    let mut st = EncoderState::default();
    assert!(matches!(st.push(5), PushResult::AddSingle(5)));
    assert!(matches!(st.push(0), PushResult::ModifyFromStartAndSkip((0, 2))));
    assert_eq!(st.finalize(), (2, 1));
    let mut st = EncoderState::default();
    for i in 0..253usize {
        assert!(matches!(st.push(1), PushResult::AddSingle(1)), "byte {}", i);
    }
    assert!(matches!(st.push(7), PushResult::ModifyFromStartAndPushAndSkip((0, 0xFF, 7))));
    assert_eq!(st.finalize(), (255, 1));
}

#[test]
fn encoder_state_protocol_buffer_decodes() {
    for msg in [vec![0x42u8; 254], vec![1, 0, 2, 0], vec![0u8; 3], vec![9u8; 300]] {
        let mut st = EncoderState::default();
        let mut out: Vec<u8> = vec![0];
        for b in msg.iter() {
            match st.push(*b) {
                PushResult::AddSingle(y) => out.push(y),
                PushResult::ModifyFromStartAndSkip((i, v)) => {
                    out[i] = v;
                    out.push(0);
                }
                PushResult::ModifyFromStartAndPushAndSkip((i, v, y)) => {
                    out[i] = v;
                    out.push(y);
                    out.push(0);
                }
            }
        }
        let (i, v) = st.finalize();
        out[i] = v;
        assert!(out.iter().all(|b| *b != 0));
        assert_eq!(decode_vec(&out).unwrap(), msg);
    }
    // After a final full run the protocol leaves an empty last piece.
    let mut st = EncoderState::default();
    let mut out: Vec<u8> = vec![0];
    for _ in 0..254 {
        match st.push(0x42) {
            PushResult::AddSingle(y) => out.push(y),
            PushResult::ModifyFromStartAndSkip((i, v)) => {
                out[i] = v;
                out.push(0);
            }
            PushResult::ModifyFromStartAndPushAndSkip((i, v, y)) => {
                out[i] = v;
                out.push(y);
                out.push(0);
            }
        }
    }
    let (i, v) = st.finalize();
    out[i] = v;
    assert_eq!(out.len(), 256);
    assert_eq!(out[0], 0xFF);
    assert_eq!(out[255], 1);
}

#[test]
fn decoder_state_feed_results() {
    let mut st = DecoderState::default();
    assert!(matches!(st.feed(0), Ok(DecodeResult::NoData)));
    assert!(matches!(st.feed(2), Ok(DecodeResult::DataStart)));
    assert!(matches!(st.feed(9), Ok(DecodeResult::DataContinue(9))));
    assert!(matches!(st.feed(1), Ok(DecodeResult::DataContinue(0))));
    assert!(matches!(st.feed(0), Ok(DecodeResult::DataComplete)));
    assert!(matches!(st, DecoderState::Idle));
    assert!(matches!(st.feed(3), Ok(DecodeResult::DataStart)));
    assert!(matches!(
        st.feed(0),
        Err(DecodeError::InvalidFrame { decoded_bytes: 0 })
    ));
    assert!(matches!(st, DecoderState::Idle));
    assert!(matches!(st.feed(0xFF), Ok(DecodeResult::DataStart)));
    assert!(matches!(st, DecoderState::GrabChain(0xFE)));
}

#[test]
fn decoder_state_reports_a_whole_frame() {
    let messages: [Vec<u8>; 4] = [vec![], vec![0, 0], vec![7, 0, 8, 9], vec![0x33; 300]];
    for msg in messages {
        let mut framed = encode_vec(&msg);
        framed.push(0);
        let mut st = DecoderState::default();
        let mut payload = Vec::new();
        for (i, b) in framed.iter().enumerate() {
            match st.feed(*b) {
                Ok(DecodeResult::DataStart) => assert_eq!(i, 0),
                Ok(DecodeResult::DataContinue(x)) => {
                    assert!(i > 0);
                    payload.push(x);
                }
                Ok(DecodeResult::NoData) => assert!(i > 0),
                Ok(DecodeResult::DataComplete) => assert_eq!(i, framed.len() - 1),
                Err(e) => panic!("unexpected error {:?}", e),
            }
        }
        assert_eq!(payload, msg);
        assert!(matches!(st, DecoderState::Idle));
    }
}

#[test]
fn longer_encodings_of_a_message() {
    // A full run followed by an empty piece decodes to the same message as
    // the full run alone, and is longer than the library's encoding.
    let msg = vec![0x11u8; 254];
    let encoded = encode_vec(&msg);
    assert_eq!(encoded.len(), 255);
    let mut longer = encoded.clone();
    longer.push(1);
    assert_eq!(decode_vec(&longer).unwrap(), msg);
    assert!(encoded.len() < longer.len());
    // The encoding of [1, 2] is [3, 1, 2]; no two-byte zero-free input
    // decodes to it.
    assert_eq!(encode_vec(&[1, 2]), vec![3, 1, 2]);
    for a in 1..=255u8 {
        for b in 1..=255u8 {
            if let Ok(v) = decode_vec(&[a, b]) {
                assert_ne!(v, vec![1, 2]);
            }
        }
    }
}

#[test]
fn encoding_never_holds_the_sentinel() {
    for sentinel in [0u8, 1, 0x7F, 0xFF] {
        let source: Vec<u8> = (0..600usize).map(|x: usize| (x % 7) as u8).collect();
        let encoded = encode_vec_with_sentinel(&source, sentinel);
        assert!(encoded.iter().all(|b| *b != sentinel));
        assert_eq!(decode_vec_with_sentinel(&encoded, sentinel).unwrap(), source);
    }
}

#[test]
fn encoded_length_within_bound() {
    for n in [0usize, 1, 253, 254, 255, 507, 508, 509, 1000] {
        let nonzero: Vec<u8> = vec![0x42; n];
        let zeros: Vec<u8> = vec![0; n];
        assert!(encode_vec(&nonzero).len() <= max_encoding_length(n));
        assert!(encode_vec(&zeros).len() <= max_encoding_length(n));
    }
    assert_eq!(encode_vec(&vec![0x42; 508]).len(), 510);
    assert_eq!(encode_vec(&vec![0; 3]), vec![1, 1, 1, 1]);
}

#[test]
fn decode_without_terminator_uses_implicit_sentinel() {
    let mut dest = [0xAAu8; 8];
    let report = decode(&[3, 10, 11, 2, 12], &mut dest).unwrap();
    assert_eq!(report.frame_size(), 4);
    assert_eq!(report.parsed_size(), 5);
    assert_eq!(dest, [10, 11, 0, 12, 0xAA, 0xAA, 0xAA, 0xAA]);
}

#[test]
fn decode_only_terminators_is_invalid() {
    let mut dest = [0u8; 4];
    assert_eq!(
        decode(&[0, 0], &mut dest),
        Err(DecodeError::InvalidFrame { decoded_bytes: 0 })
    );
}

#[test]
fn decode_in_place_errors_and_leftovers() {
    let mut buf = [3u8, 1, 2, 9, 4, 4];
    let mut dest = [0u8; 6];
    assert_eq!(
        decode(&buf.clone(), &mut dest),
        Err(DecodeError::InvalidFrame { decoded_bytes: 5 })
    );
    assert_eq!(
        decode_in_place(&mut buf),
        Err(DecodeError::InvalidFrame { decoded_bytes: 5 })
    );
    assert_eq!(buf, [1, 2, 0, 4, 4, 4]);
    let mut empty: [u8; 0] = [];
    assert_eq!(decode_in_place_report(&mut empty), Err(DecodeError::EmptyFrame));
    let mut framed = [2u8, 7, 0, 5];
    let report = decode_in_place_report(&mut framed).unwrap();
    assert_eq!(report, DecodeReport::new(1, 3));
    assert_eq!(framed, [7, 7, 0, 5]);
    // A leading zero is no frame, in place as into another buffer.
    let mut zero = [0u8];
    assert_eq!(
        decode_in_place(&mut zero),
        Err(DecodeError::InvalidFrame { decoded_bytes: 0 })
    );
    assert_eq!(
        decode(&[0], &mut [0u8; 4]),
        Err(DecodeError::InvalidFrame { decoded_bytes: 0 })
    );
}

#[test]
fn decode_in_place_matches_decode() {
    let inputs: [&[u8]; 6] = [
        &[1],
        &[2, 5, 0],
        &[3, 10, 11, 2, 12],
        &[1, 1, 1, 0, 9],
        &[5, 1, 2],
        &[0, 2, 3],
    ];
    for input in inputs {
        let mut dest = vec![0u8; input.len()];
        let expected = decode(input, &mut dest);
        let mut buf = input.to_vec();
        let got = decode_in_place_report(&mut buf);
        assert_eq!(got, expected);
        if let Ok(report) = got {
            assert_eq!(&buf[..report.frame_size()], &dest[..report.frame_size()]);
        }
    }
}

#[test]
fn decode_with_sentinel_reads_source_only() {
    let mut dest = [9u8, 9, 9];
    assert_eq!(decode_with_sentinel(&[2, 5], &mut dest, 0), Ok(1));
    assert_eq!(dest[0], 5);
    let mut dest = [7u8; 4];
    assert_eq!(decode_with_sentinel(&[], &mut dest, 0x33), Err(DecodeError::EmptyFrame));
    let mut dest = [0u8; 2];
    assert_eq!(
        decode(&[3, 1, 2, 0], &mut dest[..1]),
        Err(DecodeError::TargetBufTooSmall)
    );
    assert_eq!(
        decode_with_sentinel(&[3 ^ 0x40, 1 ^ 0x40, 2 ^ 0x40], &mut dest, 0x40),
        Ok(2)
    );
    assert_eq!(dest, [1, 2]);
}

#[test]
fn decode_in_place_with_sentinel_roundtrip() {
    let source = [0u8, 0x11, 0x22, 0];
    let mut buf = [0u8; 16];
    let n: usize = encode_with_sentinel(&source, &mut buf, 0x22);
    assert_eq!(n, 5);
    let mut encoded = buf[..n].to_vec();
    let m: usize = decode_in_place_with_sentinel(&mut encoded, 0x22).unwrap();
    assert_eq!(&encoded[..m], &source);
    let mut dest = [0u8; 6];
    assert_eq!(decode_with_sentinel(&buf[..n], &mut dest, 0x22), Ok(4));
    assert_eq!(&dest[..4], &source);
}

#[test]
fn try_encode_reports_small_buffers() {
    let mut small = [0u8; 2];
    assert_eq!(try_encode(&[1, 2], &mut small), Err(()));
    let mut exact = [0u8; 3];
    assert_eq!(try_encode(&[1, 2], &mut exact), Ok(3));
    assert_eq!(exact, [3, 1, 2]);
    // The encoding of [0] is [1, 1]: one byte of room is not enough.
    let mut short = [9u8; 1];
    assert_eq!(try_encode(&[0], &mut short), Err(()));
    let mut two = [9u8; 2];
    assert_eq!(try_encode(&[0], &mut two), Ok(2));
    assert_eq!(two, [1, 1]);
    let mut none: [u8; 0] = [];
    assert_eq!(try_encode(&[], &mut none), Err(()));
    let mut one = [9u8; 1];
    assert_eq!(try_encode(&[], &mut one), Ok(1));
    assert_eq!(one, [1]);
}

#[test]
fn encoder_streams_in_pieces() {
    let source: Vec<u8> = (0..700usize).map(|x: usize| (x % 255) as u8).collect();
    let mut whole = vec![0u8; max_encoding_length(source.len())];
    let n: usize = encode(&source, &mut whole);
    let mut pieces = vec![0u8; max_encoding_length(source.len())];
    let mut enc = CobsEncoder::new(&mut pieces);
    for chunk in source.chunks(3) {
        enc.push(chunk).unwrap();
    }
    let m: usize = enc.finalize().unwrap();
    assert_eq!(n, m);
    assert_eq!(whole, pieces);
    assert_eq!(decode_vec(&whole[..n]).unwrap(), source);
}

#[test]
fn encoder_finalize_skips_code_byte_that_does_not_fit() {
    // [5, 0] encodes to [2, 5, 1]: the last code byte lies past a 2-byte buffer.
    let mut buf = [9u8; 2];
    let mut enc = CobsEncoder::new(&mut buf);
    assert_eq!(enc.push(&[5, 0]), Ok(()));
    assert_eq!(enc.finalize(), Ok(3));
    assert_eq!(buf, [2, 5]);
    let mut buf = [9u8; 2];
    assert_eq!(try_encode(&[5, 0], &mut buf), Err(()));
}

#[test]
fn owned_decoder_reset_and_errors() {
    let mut dec = CobsDecoderOwned::new(2);
    assert_eq!(dec.push(&[4, 1, 2, 3]), Err(DecodeError::TargetBufTooSmall));
    dec.reset();
    assert_eq!(dec.push(&[3, 1, 2, 0]).unwrap().unwrap(), DecodeReport::new(2, 4));
    assert_eq!(dec.dest(), &[1, 2]);
    let mut heapless = CobsDecoderHeapless::<4>::default();
    assert_eq!(heapless.push(&[0, 2, 5]), Ok(None));
    assert_eq!(heapless.feed(0), Ok(Some(1)));
    heapless.reset();
    assert_eq!(heapless.dest(), &[5, 0, 0, 0]);
}

#[test]
fn streaming_decoder_frame_after_error() {
    let mut out = [0u8; 8];
    let mut dec = CobsDecoder::new(&mut out);
    assert_eq!(
        dec.push(&[3, 1, 0]),
        Err(DecodeError::InvalidFrame { decoded_bytes: 1 })
    );
    let report = dec.push(&[0, 0, 2, 9, 0, 7]).unwrap().unwrap();
    assert_eq!(report.frame_size(), 1);
    assert_eq!(report.parsed_size(), 5);
    dec.dest_mut()[1] = 0x55;
    assert_eq!(&dec.dest()[..2], &[9, 0x55]);
}
