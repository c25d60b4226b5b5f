use dns_features::parse_log::hex::decode_byte_escapes;
use dns_features::parse_log::{parse_log_line, with_timestamp, ParseLineError};

fn seconds(field: &[u8]) -> f64 {
    std::str::from_utf8(field).unwrap().parse::<f64>().unwrap()
}

#[test]
fn test_parse_log_line() {
    let (ts, q) = parse_log_line(b"0	a\n", b'\t').unwrap();
    assert_eq!(seconds(&ts), 0.);
    assert_eq!(q, vec![b'a']);
}

#[test]
fn test_parse_log_line_no_linefeed() {
    assert!(parse_log_line(b"0	a", b'\t').is_err());
}

#[test]
fn test_parse_log_line_rn() {
    let (ts, q) = parse_log_line(b"0	a\r\n", b'\t').unwrap();
    assert_eq!(seconds(&ts), 0.);
    assert_eq!(q, vec![b'a']);
}

#[test]
fn test_parse_log_line_byte_encoded_r() {
    let (ts, q) = parse_log_line(b"0	a\\x0d\n", b'\t').unwrap();
    assert_eq!(seconds(&ts), 0.);
    assert_eq!(q, vec![b'a', b'\r']);
}

#[test]
fn test_parse_log_line_byte_encoded_n() {
    let (ts, q) = parse_log_line(b"0	a\\x0a\n", b'\t').unwrap();
    assert_eq!(seconds(&ts), 0.);
    assert_eq!(q, vec![b'a', b'\n']);
}

#[test]
fn test_parse_log_line_hex() {
    let (ts, q) = parse_log_line(b"0	a\\xff\n", b'\t').unwrap();
    assert_eq!(seconds(&ts), 0.);
    assert_eq!(q, vec![b'a', 255]);
}

#[test]
fn test_parse_log_line_hex_accent() {
    let (ts, q) = parse_log_line(b"0	ex\xc3\xa4mple.com\n", b'\t').unwrap();
    assert_eq!(seconds(&ts), 0.);
    assert_eq!(q, vec![b'e', b'x', b'\xc3', b'\xa4', b'm', b'p', b'l', b'e', b'.', b'c', b'o', b'm']);
}

#[test]
fn line_without_separator() {
    assert_eq!(parse_log_line(b"0 a\n", b'\t'), Err(ParseLineError::SepNotFound));
    assert_eq!(parse_log_line(b"", b'\t'), Err(ParseLineError::SepNotFound));
}

#[test]
fn line_without_query() {
    assert_eq!(parse_log_line(b"0\t", b'\t'), Err(ParseLineError::InvalidQuery));
    assert_eq!(parse_log_line(b"0\ta.b", b'\t'), Err(ParseLineError::InvalidQuery));
    assert_eq!(parse_log_line(b"0\ta.b\r", b'\t'), Err(ParseLineError::InvalidQuery));
}

#[test]
fn line_splits_at_first_separator() {
    let (ts, q) = parse_log_line(b"12.5\ta\tb\n", b'\t').unwrap();
    assert_eq!(ts, b"12.5".to_vec());
    assert_eq!(q, b"a\tb".to_vec());
}

#[test]
fn line_with_empty_fields() {
    let (ts, q) = parse_log_line(b"\t\n", b'\t').unwrap();
    assert_eq!(ts, Vec::<u8>::new());
    assert_eq!(q, Vec::<u8>::new());
    let (_, q) = parse_log_line(b"1\t\r\n", b'\t').unwrap();
    assert_eq!(q, Vec::<u8>::new());
}

#[test]
fn only_one_carriage_return_is_taken_off() {
    let (_, q) = parse_log_line(b"1\ta\r\r\n", b'\t').unwrap();
    assert_eq!(q, b"a\r".to_vec());
}

#[test]
fn timestamp_decides_last() {
    let fields = parse_log_line(b"x\ta\n", b'\t').unwrap();
    assert_eq!(with_timestamp(fields.clone(), None), Err(ParseLineError::InvalidTimestamp));
    assert_eq!(with_timestamp(fields, Some(7)), Ok((7, b"a".to_vec())));
}

#[test]
fn malformed_escapes_are_kept() {
    assert_eq!(decode_byte_escapes(br"\a").unwrap(), br"\a".to_vec());
    assert_eq!(decode_byte_escapes(br"a\").unwrap(), br"a\".to_vec());
    assert_eq!(decode_byte_escapes(br"\\x41").unwrap(), br"\\x41".to_vec());
    assert_eq!(decode_byte_escapes(br"\x4").unwrap(), br"\x4".to_vec());
    assert_eq!(decode_byte_escapes(br"\x4g\x41").unwrap(), br"\x4gA".to_vec());
    assert_eq!(decode_byte_escapes(br"\X41").unwrap(), br"\X41".to_vec());
}

#[test]
fn escapes_between_plain_bytes() {
    assert_eq!(decode_byte_escapes(br"a\x2eb\x00").unwrap(), vec![b'a', b'.', b'b', 0]);
    assert_eq!(decode_byte_escapes(br"\xfF").unwrap(), vec![255]);
}

#[test]
fn decoding_never_lengthens() {
    for input in [&br"\x41\x42"[..], &br"\\\\"[..], &b"plain"[..], &br"\xZZ\x"[..]] {
        assert!(decode_byte_escapes(input).unwrap().len() <= input.len());
    }
}
