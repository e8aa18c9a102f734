use cobs::{
    decode, decode_in_place, decode_vec, encode, encode_vec, CobsDecoder, CobsDecoderHeapless,
    CobsDecoderOwned, DecodeError,
};

fn encode_vec_including_sentinels(data: &[u8]) -> Vec<u8> {
    let mut framed: Vec<u8> = vec![0];
    framed.extend_from_slice(&encode_vec(data));
    framed.push(0);
    framed
}

#[test]
fn decode_malformed() {
    let malformed_buf: [u8; 32] = [
        68, 69, 65, 68, 66, 69, 69, 70, 0, 0, 0, 0, 0, 0, 0, 0, 0, 0, 0, 0, 0, 0, 0, 0, 0, 0, 0,
        0, 0, 0, 0, 0,
    ];
    let mut dest_buf: [u8; 32] = [0; 32];
    if let Err(DecodeError::InvalidFrame { decoded_bytes }) = decode(&malformed_buf, &mut dest_buf)
    {
        assert_eq!(decoded_bytes, 7);
    } else {
        panic!("decoding worked when it should not have");
    }
}

#[test]
fn decode_empty() {
    assert!(matches!(decode_vec(&[]).unwrap_err(), DecodeError::EmptyFrame));
    assert!(matches!(decode_in_place(&mut []).unwrap_err(), DecodeError::EmptyFrame));
    assert!(matches!(decode(&[], &mut [0; 256]).unwrap_err(), DecodeError::EmptyFrame));
}

#[test]
fn decode_target_buf_too_small() {
    let encoded = &[3, 10, 11, 2, 12];
    let expected_decoded_len: usize = 4;
    for i in 0..expected_decoded_len - 1 {
        let mut dest: Vec<u8> = vec![0; i];
        let result = decode(encoded, &mut dest);
        assert_eq!(result, Err(DecodeError::TargetBufTooSmall));
    }
}

fn continuous_decoding(decoder: &mut CobsDecoder, expected_data: &[u8], encoded_frame: &[u8]) {
    for _ in 0..10 {
        for byte in encoded_frame.iter().take(encoded_frame.len() - 1) {
            decoder.feed(*byte).unwrap();
        }
        if let Ok(Some(sz_msg)) = decoder.feed(encoded_frame[encoded_frame.len() - 1]) {
            assert_eq!(sz_msg, expected_data.len());
            assert_eq!(expected_data, &decoder.dest()[0..sz_msg]);
        } else {
            panic!("decoding call did not yield expected frame");
        }
    }
}

fn continuous_decoding_heapless(
    decoder: &mut CobsDecoderHeapless<32>,
    expected_data: &[u8],
    encoded_frame: &[u8],
) {
    for _ in 0..10 {
        for byte in encoded_frame.iter().take(encoded_frame.len() - 1) {
            decoder.feed(*byte).unwrap();
        }
        if let Ok(Some(sz_msg)) = decoder.feed(encoded_frame[encoded_frame.len() - 1]) {
            assert_eq!(sz_msg, expected_data.len());
            assert_eq!(expected_data, &decoder.dest()[0..sz_msg]);
        } else {
            panic!("decoding call did not yield expected frame");
        }
    }
}

fn continuous_decoding_owned(
    decoder: &mut CobsDecoderOwned,
    expected_data: &[u8],
    encoded_frame: &[u8],
) {
    for _ in 0..10 {
        for byte in encoded_frame.iter().take(encoded_frame.len() - 1) {
            decoder.feed(*byte).unwrap();
        }
        if let Ok(Some(sz_msg)) = decoder.feed(encoded_frame[encoded_frame.len() - 1]) {
            assert_eq!(sz_msg, expected_data.len());
            assert_eq!(expected_data, &decoder.dest()[0..sz_msg]);
        } else {
            panic!("decoding call did not yield expected frame");
        }
    }
}

#[test]
fn dec_stream_continously() {
    let mut dest: [u8; 16] = [0; 16];
    let data = b"hello world";
    let mut encoded_data: [u8; 16] = [0; 16];
    let mut encoded_len: usize = encode(data, &mut encoded_data);
    // Sentinel byte at end.
    encoded_data[encoded_len] = 0x00;
    encoded_len += 1;
    // Stream continously using only `push`. The decoding buffer should not overflow.
    let mut decoder = CobsDecoder::new(&mut dest);
    continuous_decoding(&mut decoder, data, &encoded_data[0..encoded_len]);
}

#[test]
fn stream_continously_owned() {
    let data = b"hello world";
    let mut encoded_data: [u8; 16] = [0; 16];
    let mut encoded_len: usize = encode(data, &mut encoded_data);
    // Sentinel byte at end.
    encoded_data[encoded_len] = 0x00;
    encoded_len += 1;
    // Stream continously using only `push`. The decoding buffer should not overflow.
    let mut decoder = CobsDecoderOwned::new(32);
    continuous_decoding_owned(&mut decoder, data, &encoded_data[0..encoded_len]);
}

#[test]
fn stream_continously_heapless() {
    let data = b"hello world";
    let mut encoded_data: [u8; 16] = [0; 16];
    let mut encoded_len: usize = encode(data, &mut encoded_data);
    // Sentinel byte at end.
    encoded_data[encoded_len] = 0x00;
    encoded_len += 1;
    // Stream continously using only `push`. The decoding buffer should not overflow.
    let mut decoder = CobsDecoderHeapless::new();
    continuous_decoding_heapless(&mut decoder, data, &encoded_data[0..encoded_len]);
}

#[test]
fn dec_stream_continously_2() {
    let mut dest: [u8; 16] = [0; 16];
    let data = b"hello world";
    let mut encoded_data: [u8; 16] = [0; 16];
    let mut encoded_len: usize = encode(data, &mut encoded_data[1..]);
    // Sentinel byte at start and end.
    encoded_data[0] = 0x00;
    encoded_data[encoded_len + 1] = 0x00;
    encoded_len += 2;
    // Stream continously using only `push`. The decoding buffer should not overflow.
    let mut decoder = CobsDecoder::new(&mut dest);
    continuous_decoding(&mut decoder, data, &encoded_data[0..encoded_len]);
}

#[test]
fn stream_continously_2_owned() {
    let data = b"hello world";
    let mut encoded_data: [u8; 16] = [0; 16];
    let mut encoded_len: usize = encode(data, &mut encoded_data[1..]);
    // Sentinel byte at start and end.
    encoded_data[0] = 0x00;
    encoded_data[encoded_len + 1] = 0x00;
    encoded_len += 2;
    // Stream continously using only `push`. The decoding buffer should not overflow.
    let mut decoder = CobsDecoderOwned::new(32);
    continuous_decoding_owned(&mut decoder, data, &encoded_data[0..encoded_len]);
}

#[test]
fn test_owned_decoder_push_function() {
    let data = b"hello world";
    let encoded_data = encode_vec_including_sentinels(data);
    let mut decoder = CobsDecoderOwned::new(32);
    let report = decoder.push(&encoded_data).unwrap().unwrap();
    assert_eq!(report.parsed_size(), encoded_data.len());
    assert_eq!(report.frame_size(), data.len());
    assert_eq!(&decoder.dest()[0..report.frame_size()], data);
    assert_eq!(&decoder.dest_mut()[0..report.frame_size()], data);
}

#[test]
fn test_decoder_push_function() {
    let mut dest_buf: [u8; 32] = [0; 32];
    let data = b"hello world";
    let encoded_data = encode_vec_including_sentinels(data);
    let mut decoder = CobsDecoder::new(&mut dest_buf);
    let report = decoder.push(&encoded_data).unwrap().unwrap();
    assert_eq!(report.parsed_size(), encoded_data.len());
    assert_eq!(report.frame_size(), data.len());
    assert_eq!(&decoder.dest()[0..report.frame_size()], data);
    assert_eq!(&decoder.dest_mut()[0..report.frame_size()], data);
}

#[test]
fn test_decoder_heapless_push_function() {
    let data = b"hello world";
    let encoded_data = encode_vec_including_sentinels(data);
    let mut decoder = CobsDecoderHeapless::<32>::new();
    let report = decoder.push(&encoded_data).unwrap().unwrap();
    assert_eq!(report.parsed_size(), encoded_data.len());
    assert_eq!(report.frame_size(), data.len());
    assert_eq!(&decoder.dest()[0..report.frame_size()], data);
    assert_eq!(&decoder.dest_mut()[0..report.frame_size()], data);
}
