use rspack_cache::format::{append_bytes, decode_shard, encode_shard, find_byte, FormatError};

fn rec(key: &str, value: &str) -> (Vec<u8>, Vec<u8>) {
    (key.as_bytes().to_vec(), value.as_bytes().to_vec())
}

#[test]
fn encode_single_record() {
    let bytes = encode_shard(&vec![rec("a.js", "content1")]);
    assert_eq!(bytes, b"4 8\na.jscontent1".to_vec());
}

#[test]
fn encode_two_records_in_order() {
    let bytes = encode_shard(&vec![rec("a.js", "content1"), rec("b.js", "content2")]);
    assert_eq!(bytes, b"4 8 4 8\na.jscontent1b.jscontent2".to_vec());
}

#[test]
fn encode_empty_key_and_value() {
    let bytes = encode_shard(&vec![rec("", ""), rec("k", "")]);
    assert_eq!(bytes, b"0 0 1 0\nk".to_vec());
}

#[test]
fn encode_long_value_has_multi_digit_length() {
    let value = vec![7u8; 1234];
    let bytes = encode_shard(&vec![(b"key".to_vec(), value.clone())]);
    let mut expected = b"3 1234\nkey".to_vec();
    expected.extend_from_slice(&value);
    assert_eq!(bytes, expected);
}

#[test]
fn encode_no_records_is_a_bare_newline() {
    assert_eq!(encode_shard(&Vec::new()), b"\n".to_vec());
}

#[test]
fn decode_single_record() {
    let records = decode_shard(b"4 8\na.jscontent1");
    assert_eq!(records, Ok(vec![rec("a.js", "content1")]));
}

#[test]
fn decode_keeps_file_order() {
    let records = decode_shard(b"1 1 1 1 1 1\nz9a1m5");
    assert_eq!(records, Ok(vec![rec("z", "9"), rec("a", "1"), rec("m", "5")]));
}

#[test]
fn decode_binary_payload_with_newlines_and_spaces() {
    let key = vec![0u8, 10, 32, 255];
    let value = vec![10u8, 10, 0];
    let bytes = encode_shard(&vec![(key.clone(), value.clone())]);
    assert_eq!(decode_shard(&bytes), Ok(vec![(key, value)]));
}

#[test]
fn round_trip_many_records() {
    let mut records = Vec::new();
    for i in 0..40usize {
        records.push((format!("key-{}", i).into_bytes(), vec![i as u8; i * 7]));
    }
    let bytes = encode_shard(&records);
    assert_eq!(decode_shard(&bytes), Ok(records));
}

#[test]
fn decode_accepts_plus_sign_and_leading_zeros() {
    assert_eq!(decode_shard(b"+1 002\nkvv"), Ok(vec![rec("k", "vv")]));
}

#[test]
fn decode_leaves_trailing_bytes_aside() {
    assert_eq!(decode_shard(b"1 1\nkvEXTRA"), Ok(vec![rec("k", "v")]));
}

#[test]
fn decode_duplicate_keys_are_kept_in_order() {
    assert_eq!(decode_shard(b"1 1 1 1\nkakb"), Ok(vec![rec("k", "a"), rec("k", "b")]));
}

#[test]
fn decode_without_newline_is_missing_header() {
    assert_eq!(decode_shard(b""), Err(FormatError::MissingHeader));
    assert_eq!(decode_shard(b"4 8"), Err(FormatError::MissingHeader));
}

#[test]
fn decode_empty_header_is_malformed() {
    assert_eq!(decode_shard(b"\n"), Err(FormatError::MalformedHeader));
    assert_eq!(decode_shard(b"\nabc"), Err(FormatError::MalformedHeader));
}

#[test]
fn decode_odd_number_of_lengths_is_malformed() {
    assert_eq!(decode_shard(b"4\nabcd"), Err(FormatError::MalformedHeader));
    assert_eq!(decode_shard(b"1 1 1\nabc"), Err(FormatError::MalformedHeader));
}

#[test]
fn decode_bad_fields_are_malformed() {
    assert_eq!(decode_shard(b"4 x\nabcd"), Err(FormatError::MalformedHeader));
    assert_eq!(decode_shard(b"4  8\na.jscontent1"), Err(FormatError::MalformedHeader));
    assert_eq!(decode_shard(b" 4 8\na.jscontent1"), Err(FormatError::MalformedHeader));
    assert_eq!(decode_shard(b"4 8 \na.jscontent1"), Err(FormatError::MalformedHeader));
    assert_eq!(decode_shard(b"-1 1\nab"), Err(FormatError::MalformedHeader));
    assert_eq!(decode_shard(b"+ 1\nab"), Err(FormatError::MalformedHeader));
    assert_eq!(decode_shard(b"1 1\r\nab"), Err(FormatError::MalformedHeader));
}

#[test]
fn decode_length_beyond_usize_is_malformed() {
    assert_eq!(
        decode_shard(b"99999999999999999999999999 1\nab"),
        Err(FormatError::MalformedHeader)
    );
}

#[test]
fn decode_overrun_is_an_error() {
    assert_eq!(decode_shard(b"4 9\na.jscontent1"), Err(FormatError::Overrun));
    assert_eq!(decode_shard(b"4 8 1 1\na.jscontent1x"), Err(FormatError::Overrun));
    assert_eq!(decode_shard(b"1 1\n"), Err(FormatError::Overrun));
}

#[test]
fn decode_largest_length_overruns_without_wrapping() {
    let header = format!("{} {}\nab", usize::MAX, usize::MAX);
    assert_eq!(decode_shard(header.as_bytes()), Err(FormatError::Overrun));
}

#[test]
fn find_byte_gives_first_occurrence_or_end() {
    let bytes = b"ab cd ef";
    assert_eq!(find_byte(bytes, 0, bytes.len(), b' '), 2);
    assert_eq!(find_byte(bytes, 3, bytes.len(), b' '), 5);
    assert_eq!(find_byte(bytes, 6, bytes.len(), b' '), 8);
    assert_eq!(find_byte(bytes, 0, 2, b' '), 2);
    assert_eq!(find_byte(bytes, 4, 4, b' '), 4);
}

#[test]
fn append_bytes_appends() {
    let mut out = b"ab".to_vec();
    append_bytes(&mut out, b"cd");
    append_bytes(&mut out, b"");
    assert_eq!(out, b"abcd".to_vec());
}
