use lsm_engine::codec::{chars_of, decode, encode, is_single_line, DecodeError, Record};
use lsm_engine::decimal::{push_decimal, read_u32};
use lsm_engine::segment::{encode_segment, find, parse_segment};

fn record(key: u32, value: &str) -> Record {
    Record { key, value: value.to_string() }
}

#[test]
fn encode_writes_key_delimiter_value_newline() {
    assert_eq!(encode(1, "data 1"), "1::data 1\n");
    assert_eq!(encode(0, ""), "0::\n");
    assert_eq!(encode(u32::MAX, "x"), "4294967295::x\n");
    assert_eq!(encode(1200, "a b"), "1200::a b\n");
}

#[test]
fn decode_reads_back_what_encode_wrote() {
    for key in [0u32, 1, 9, 10, 99, 100, 65535, 1_000_000, u32::MAX] {
        for value in ["", "a", "data 2-2", ":", "a:b", "::", "a::b::c", "\u{e9}t\u{e9}", " "] {
            let line = encode(key, value);
            assert_eq!(decode(&line), Ok(record(key, value)));
        }
    }
}

#[test]
fn decode_takes_a_line_with_or_without_its_break() {
    assert_eq!(decode("7::seven\n"), Ok(record(7, "seven")));
    assert_eq!(decode("7::seven"), Ok(record(7, "seven")));
    assert_eq!(decode("7::\n"), Ok(record(7, "")));
    assert_eq!(decode("7::"), Ok(record(7, "")));
    assert_eq!(decode("7::seven\n\n"), Ok(record(7, "seven\n")));
}

#[test]
fn decode_splits_at_the_first_delimiter() {
    assert_eq!(decode("1::a::b"), Ok(record(1, "a::b")));
    assert_eq!(decode("1:::a"), Ok(record(1, ":a")));
    assert_eq!(decode("1::::"), Ok(record(1, "::")));
}

#[test]
fn decode_rejects_a_line_without_delimiter() {
    assert_eq!(decode(""), Err(DecodeError::MissingDelimiter));
    assert_eq!(decode("\n"), Err(DecodeError::MissingDelimiter));
    assert_eq!(decode("12"), Err(DecodeError::MissingDelimiter));
    assert_eq!(decode("12:abc"), Err(DecodeError::MissingDelimiter));
    assert_eq!(decode("12:\n:"), Err(DecodeError::MissingDelimiter));
    assert_eq!(decode(":"), Err(DecodeError::MissingDelimiter));
}

#[test]
fn decode_rejects_a_key_that_is_no_number() {
    assert_eq!(decode("::abc"), Err(DecodeError::InvalidKey));
    assert_eq!(decode("x::abc"), Err(DecodeError::InvalidKey));
    assert_eq!(decode("-1::abc"), Err(DecodeError::InvalidKey));
    assert_eq!(decode("1 ::abc"), Err(DecodeError::InvalidKey));
    assert_eq!(decode(" 1::abc"), Err(DecodeError::InvalidKey));
    assert_eq!(decode("1_0::abc"), Err(DecodeError::InvalidKey));
    assert_eq!(decode("4294967296::abc"), Err(DecodeError::InvalidKey));
    assert_eq!(decode("99999999999999999999999::abc"), Err(DecodeError::InvalidKey));
    assert_eq!(decode("+::abc"), Err(DecodeError::InvalidKey));
    assert_eq!(decode("++1::abc"), Err(DecodeError::InvalidKey));
    assert_eq!(decode("\u{663}::abc"), Err(DecodeError::InvalidKey));
}

#[test]
fn decode_reads_keys_as_the_standard_parser_does() {
    for text in ["0", "007", "+5", "4294967295", "+4294967295", "0000000000000000000042"] {
        let line = format!("{}::v", text);
        assert_eq!(decode(&line).map(|r| r.key).ok(), text.parse::<u32>().ok());
        assert!(decode(&line).is_ok());
    }
    for text in ["", "+", "-0", "4294967296", "1e3", "0x10", " 1", "1 "] {
        let line = format!("{}::v", text);
        assert!(text.parse::<u32>().is_err());
        assert_eq!(decode(&line), Err(DecodeError::InvalidKey));
    }
}

#[test]
fn read_u32_reads_a_range_of_characters() {
    let chars = chars_of("ab123cd");
    assert_eq!(read_u32(&chars, 2, 5), Some(123));
    assert_eq!(read_u32(&chars, 2, 4), Some(12));
    assert_eq!(read_u32(&chars, 2, 2), None);
    assert_eq!(read_u32(&chars, 1, 5), None);
    assert_eq!(read_u32(&chars, 2, 6), None);
}

#[test]
fn push_decimal_appends_digits() {
    let mut s = String::from("n=");
    push_decimal(&mut s, 0);
    assert_eq!(s, "n=0");
    push_decimal(&mut s, 907);
    assert_eq!(s, "n=0907");
    push_decimal(&mut s, u64::MAX);
    assert_eq!(s, "n=090718446744073709551615");
}

#[test]
fn is_single_line_finds_line_breaks() {
    assert!(is_single_line(""));
    assert!(is_single_line("data 1"));
    assert!(is_single_line("a\rb"));
    assert!(!is_single_line("\n"));
    assert!(!is_single_line("a\nb"));
    assert!(!is_single_line("ab\n"));
}

#[test]
fn parse_segment_reads_every_line() {
    let records = parse_segment("1::a\n2::b\n10::c\n").unwrap();
    assert_eq!(records, vec![record(1, "a"), record(2, "b"), record(10, "c")]);
    assert_eq!(parse_segment("").unwrap(), Vec::<Record>::new());
    // the last line may lack its break
    assert_eq!(parse_segment("1::a\n2::b").unwrap(), vec![record(1, "a"), record(2, "b")]);
    // a carriage return belongs to the value
    assert_eq!(parse_segment("1::a\r\n").unwrap(), vec![record(1, "a\r")]);
}

#[test]
fn parse_segment_reports_the_first_bad_line() {
    assert_eq!(parse_segment("1::a\n\n2::b\n"), Err(DecodeError::MissingDelimiter));
    assert_eq!(parse_segment("1::a\nx::b\nnothing\n"), Err(DecodeError::InvalidKey));
    assert_eq!(parse_segment("1::a\nnothing\nx::b\n"), Err(DecodeError::MissingDelimiter));
    assert_eq!(parse_segment("\n"), Err(DecodeError::MissingDelimiter));
}

#[test]
fn encode_segment_and_parse_segment_are_inverse() {
    let records = vec![record(3, "three"), record(30, ""), record(300, "a::b")];
    let text = encode_segment(&records);
    assert_eq!(text, "3::three\n30::\n300::a::b\n");
    assert_eq!(parse_segment(&text).unwrap(), records);
    assert_eq!(encode_segment(&Vec::new()), "");
}

#[test]
fn find_returns_the_last_match() {
    let records = vec![record(1, "a"), record(2, "b-1"), record(2, "b-2"), record(3, "c")];
    assert_eq!(find(&records, 1), Some("a".to_string()));
    assert_eq!(find(&records, 2), Some("b-2".to_string()));
    assert_eq!(find(&records, 3), Some("c".to_string()));
    assert_eq!(find(&records, 4), None);
    assert_eq!(find(&Vec::new(), 1), None);
}

#[test]
fn most_simple_test_get_set() {
    let mut log = String::new();
    log.push_str(&encode(1, "data 1"));
    log.push_str(&encode(2, "data 2-1"));
    log.push_str(&encode(2, "data 2-2"));
    assert_eq!(log, "1::data 1\n2::data 2-1\n2::data 2-2\n");

    let records = parse_segment(&log).unwrap();
    assert_eq!(find(&records, 1).unwrap(), "data 1".to_string());
    assert_eq!(find(&records, 2).unwrap(), "data 2-2".to_string());
    assert_eq!(find(&records, 3), None);
}
