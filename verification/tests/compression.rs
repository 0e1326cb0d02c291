use sfw_tools::compression::{compress, expand, DecodeError, Encoder};

#[test]
fn test_run_at_threshold_encodes_as_run_segment() {
    let input = b"aaaaa".to_vec();
    let encoded = compress(&input);
    assert_eq!(encoded, vec![0x00, 0x61, 0x05]);
    assert_eq!(expand(&encoded), Ok(input));
}

#[test]
fn test_no_run_encodes_as_literal_segment() {
    let input = b"ab".to_vec();
    let encoded = compress(&input);
    assert_eq!(encoded, vec![0x02, 0x61, 0x62]);
    assert_eq!(expand(&encoded), Ok(input));
}

#[test]
fn test_empty_input_encodes_to_empty_stream() {
    let input: Vec<u8> = vec![];
    let encoded = compress(&input);
    assert_eq!(encoded, Vec::<u8>::new());
    assert_eq!(expand(&encoded), Ok(vec![]));
}

#[test]
fn test_run_below_threshold_stays_literal() {
    let input = b"aaaa".to_vec();
    let encoded = compress(&input);
    assert_eq!(encoded, vec![0x04, 0x61, 0x61, 0x61, 0x61]);
    assert_eq!(expand(&encoded), Ok(input));
}

#[test]
fn test_run_of_256_splits_into_two_run_segments() {
    let input = vec![0x61u8; 256];
    let encoded = compress(&input);
    assert_eq!(encoded, vec![0x00, 0x61, 0xff, 0x00, 0x61, 0x01]);
    assert_eq!(expand(&encoded), Ok(input));
}

#[test]
fn test_full_literal_buffer_flushes_into_two_segments() {
    // 256 bytes with no run at all: the literal buffer fills to 255 bytes
    // and the last byte starts a second Literal Segment.
    let input = (0..256usize)
        .map(|i| if i % 2 == 0 { 0x61u8 } else { 0x62u8 })
        .collect::<Vec<u8>>();
    let encoded = compress(&input);
    let mut expected = vec![0xffu8];
    expected.extend_from_slice(&input[..255]);
    expected.push(0x01);
    expected.push(input[255]);
    assert_eq!(encoded, expected);
    assert_eq!(expand(&encoded), Ok(input));
}

#[test]
fn test_truncated_after_escape_is_malformed() {
    assert_eq!(expand(&vec![0x00]), Err(DecodeError::TruncatedRunValue));
}

#[test]
fn test_truncated_after_run_value_is_malformed() {
    assert_eq!(expand(&vec![0x00, 0x61]), Err(DecodeError::TruncatedRunLength));
}

#[test]
fn test_truncated_literal_payload_is_malformed() {
    assert_eq!(expand(&vec![0x03, 0x61, 0x62]), Err(DecodeError::TruncatedLiteral));
}

#[test]
fn test_valid_stream_then_truncated_run_is_malformed() {
    // A stream that decodes cleanly, then an escape marker with nothing
    // after it.
    let mut encoded = compress(&b"hello".to_vec());
    encoded.push(0x00);
    assert_eq!(expand(&encoded), Err(DecodeError::TruncatedRunValue));
}

#[test]
fn test_runs_are_not_merged_across_chunks() {
    let mut enc = Encoder::new();
    let mut out: Vec<u8> = Vec::new();
    enc.push_chunk(&vec![0x61u8; 6], &mut out);
    enc.push_chunk(&vec![0x61u8; 6], &mut out);
    enc.finish(&mut out);
    assert_eq!(out, vec![0x00, 0x61, 0x06, 0x00, 0x61, 0x06]);
    assert_eq!(expand(&out), Ok(vec![0x61u8; 12]));
}

#[test]
fn test_pending_literal_carries_across_chunks() {
    let mut enc = Encoder::new();
    let mut out: Vec<u8> = Vec::new();
    enc.push_chunk(&b"ab".to_vec(), &mut out);
    enc.push_chunk(&b"cd".to_vec(), &mut out);
    enc.finish(&mut out);
    assert_eq!(out, vec![0x04, 0x61, 0x62, 0x63, 0x64]);
    assert_eq!(expand(&out), Ok(b"abcd".to_vec()));
}

#[test]
fn test_mixed_input_round_trips() {
    let mut input = Vec::new();
    input.extend_from_slice(b"header");
    input.extend(vec![0u8; 300]);
    input.extend_from_slice(b"mid");
    input.extend(vec![0xffu8; 5]);
    input.extend_from_slice(b"tail");
    let encoded = compress(&input);
    assert_eq!(expand(&encoded), Ok(input));
}

#[test]
fn test_streamed_encoding_round_trips() {
    // Feed the encoder through the chunked byte source, the way a file is
    // streamed: the decode of everything emitted is the original input.
    let input = (0..10_000usize)
        .map(|i| if i % 971 < 400 { 0x2au8 } else { (i % 251) as u8 })
        .collect::<Vec<u8>>();
    let mut source = sfw_tools::bytes_iter::BytesIter::new(input.clone(), 255);
    let mut enc = Encoder::new();
    let mut encoded: Vec<u8> = Vec::new();
    while let Some(chunk) = source.next_chunk() {
        enc.push_chunk(&chunk, &mut encoded);
    }
    enc.finish(&mut encoded);
    assert_eq!(expand(&encoded), Ok(input));
}

#[test]
fn test_decoder_accepts_zero_count_run_segment() {
    // Never produced by the encoder, but the state machine reads the
    // segment and writes nothing.
    assert_eq!(expand(&vec![0x00, 0x61, 0x00]), Ok(vec![]));
}
