use onebarrier::durable::{encode_record, parse_log};
use onebarrier::engine::Engine;
use onebarrier::memcache::{split_spaces, MemcacheProtocol};
use onebarrier::state::KvStore;
use onebarrier::text::{
    chars_of, decimal_bytes, decimal_string, find_from, nat_string, parse_int_text, parse_int_text_untrimmed,
    parse_usize_text, split_ws, trim_crlf_end_str, trim_end_str, trim_str,
};

#[test]
fn split_ws_uses_unicode_whitespace() {
    let words = split_ws("  a\u{3000}bc\t\u{85}d  ");
    assert_eq!(words, vec!["a".to_string(), "bc".to_string(), "d".to_string()]);
    assert!(split_ws(" \u{2003} ").is_empty());
    assert_eq!(split_ws("ключ значение"), vec!["ключ".to_string(), "значение".to_string()]);
}

#[test]
fn trims_and_finds() {
    assert_eq!(trim_str("\u{a0} x y \n"), "x y");
    assert_eq!(trim_end_str("  x  "), "  x");
    assert_eq!(trim_crlf_end_str("line\r\n\n"), "line");
    assert_eq!(trim_crlf_end_str("line \r"), "line ");
    let cs = chars_of("a:b:c");
    assert_eq!(cs, vec!['a', ':', 'b', ':', 'c']);
    assert_eq!(find_from(&cs, ':', 0), Some(1));
    assert_eq!(find_from(&cs, ':', 2), Some(3));
    assert_eq!(find_from(&cs, ':', 4), None);
    assert_eq!(split_spaces(b"  a  b c "), vec![b"a".to_vec(), b"b".to_vec(), b"c".to_vec()]);
}

#[test]
fn integer_text_both_ways() {
    assert_eq!(parse_int_text(b" -42 "), Some(-42));
    assert_eq!(parse_int_text(b"+7"), Some(7));
    assert_eq!(parse_int_text(b"9223372036854775808"), None);
    assert_eq!(parse_int_text(&[0xff, b'1']), None);
    assert_eq!(parse_int_text_untrimmed(b" 1"), None);
    assert_eq!(parse_usize_text(b"+15"), Some(15));
    assert_eq!(parse_usize_text(b"-1"), None);
    assert_eq!(decimal_bytes(i64::MIN), b"-9223372036854775808");
    assert_eq!(decimal_string(-305), "-305");
    assert_eq!(nat_string(u64::MAX), "18446744073709551615");
    assert_eq!(parse_int_text(&decimal_bytes(123456789)), Some(123456789));
}

#[test]
fn invalid_utf8_keys_go_through_lossy_text() {
    let mut e = Engine::<KvStore>::create(100);
    let (mut clock, mut global, mut seq) = (1u64, 1u64, 0u64);
    let set = MemcacheProtocol::parse(b"set k\xff 0 0 1");
    let (r, _) = MemcacheProtocol::execute(&mut e, &set, b"v", 1, &mut seq, &mut clock, &mut global);
    assert_eq!(r, b"STORED\r\n");
    let get = MemcacheProtocol::parse(b"get k\xff");
    let (r, _) = MemcacheProtocol::execute(&mut e, &get, b"", 1, &mut seq, &mut clock, &mut global);
    assert_eq!(r, "VALUE k\u{fffd} 0 1\r\nv\r\nEND\r\n".as_bytes());
    assert_eq!(e.state().get_bytes("k\u{fffd}"), Some(&b"v"[..]));
}

#[test]
fn log_records_round_trip_and_torn_tail_is_dropped() {
    let mut raw = encode_record(7, b"abc");
    raw.extend_from_slice(&encode_record(9, b""));
    let full = raw.len();
    raw.extend_from_slice(&encode_record(11, b"xyz")[..14]);
    assert_eq!(parse_log(&raw), vec![(7, b"abc".to_vec()), (9, Vec::new())]);
    assert_eq!(parse_log(&raw[..full]), vec![(7, b"abc".to_vec()), (9, Vec::new())]);
    assert_eq!(&encode_record(7, b"abc")[..12], &[7, 0, 0, 0, 0, 0, 0, 0, 3, 0, 0, 0]);
}

#[test]
fn integer_parsing_agrees_with_std() {
    let cases = [
        "0", "7", "-7", "+7", "", "+", "-", "--1", "+-1", "12a", " 1", "1 ", "9223372036854775807",
        "9223372036854775808", "-9223372036854775808", "-9223372036854775809", "+9223372036854775807",
        "18446744073709551615", "18446744073709551616", "000123", "-0", "١٢",
    ];
    for s in cases {
        assert_eq!(parse_int_text_untrimmed(s.as_bytes()), s.parse::<i64>().ok(), "i64 {s:?}");
        assert_eq!(parse_usize_text(s.as_bytes()), s.parse::<usize>().ok(), "usize {s:?}");
    }
}
