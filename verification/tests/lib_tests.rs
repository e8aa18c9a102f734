use cobs::{max_encoding_length, max_encoding_overhead};

#[test]
fn test_buf_len() {
    let encoded_buf: Vec<u8> = vec![0; max_encoding_length(5)];
    assert_eq!(encoded_buf.len(), 6);
}

#[test]
fn test_overhead_empty() {
    assert_eq!(max_encoding_overhead(0), 0);
}

#[test]
fn test_overhead_one() {
    assert_eq!(max_encoding_overhead(1), 1);
}

#[test]
fn test_overhead_larger() {
    assert_eq!(max_encoding_overhead(253), 1);
    assert_eq!(max_encoding_overhead(254), 1);
}

#[test]
fn test_overhead_two() {
    assert_eq!(max_encoding_overhead(255), 2);
}

#[test]
fn overhead_and_length_of_large_inputs() {
    assert_eq!(max_encoding_overhead(usize::MAX), usize::MAX / 254 + 1);
    assert_eq!(max_encoding_overhead(508), 2);
    assert_eq!(max_encoding_overhead(509), 3);
    assert_eq!(max_encoding_length(1), 2);
    assert_eq!(max_encoding_length(762), 765);
}
