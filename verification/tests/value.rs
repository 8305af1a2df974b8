use stfg::error::Error;
use stfg::util::{decode_base64, parse_string_literal};
use stfg::value::{parse_int, value_from_string, value_to_string, Real, Value};

fn real_value(x: f64) -> Value {
    Value::Real(Real { bits: x.to_bits(), text: x.to_string() })
}

fn read_real(s: &str) -> Option<Real> {
    match s.parse::<f64>() {
        Ok(x) => Some(Real { bits: x.to_bits(), text: x.to_string() }),
        Err(_) => None,
    }
}

fn no_reals(_: &str) -> Option<Real> {
    None
}

#[test]
fn value_roundtrip() {
    for v1 in vec![
        Value::Null,
        Value::Integer(0),
        Value::Integer(1),
        Value::Integer(-1),
        Value::Integer(i64::MAX),
        Value::Integer(i64::MIN),
        real_value(1.0),
        real_value(1.5),
        real_value(0.0),
        real_value(-1.0),
        real_value(-1.5),
        real_value(123.456789),
        real_value(-123.456789),
        Value::Text(String::new()),
        Value::Text(String::from("Hello, world!")),
        Value::Text(String::from("\"This is a string.\"")),
        Value::Text(String::from("This is a string.\nAnd this is a newline.")),
        Value::Text(String::from("Bunch of escapes: \", \', \\, \n, \t, \r...")),
        Value::Blob(vec![]),
        Value::Blob(b"Hello, world!".to_vec()),
        Value::Blob(b"\"This is a string.\"".to_vec()),
        Value::Blob(b"This is a string.\nAnd this is a newline.".to_vec()),
        Value::Blob(b"Bunch of escapes: \", \', \\, \n, \t, \r...".to_vec()),
    ] {
        let s1 = value_to_string(&v1);
        let v2 = value_from_string(&s1, &read_real).unwrap();
        let s2 = value_to_string(&v2);
        let v3 = value_from_string(&s2, &read_real).unwrap();

        assert_eq!(s1, s2);
        assert_eq!(v1, v2);
        assert_eq!(v2, v3);
    }
}

#[test]
fn boundary_values_round_trip() {
    for v in vec![
        Value::Null,
        Value::Integer(0),
        Value::Integer(1),
        Value::Integer(-1),
        Value::Integer(i64::MIN),
        Value::Integer(i64::MAX),
        real_value(0.0),
        real_value(1.0),
        real_value(-1.0),
        real_value(1.5),
        real_value(-1.5),
        real_value(1.0e300),
        real_value(-1.0e300),
        real_value(1.0e-300),
        real_value(f64::MAX),
        real_value(f64::MIN_POSITIVE),
        Value::Text(String::new()),
        Value::Text(String::from("\"")),
        Value::Text(String::from("\\")),
        Value::Text(String::from("\n")),
        Value::Text(String::from("\r")),
        Value::Text(String::from("\t")),
        Value::Text(String::from("\0")),
        Value::Text(String::from("\\n is not a line feed")),
        Value::Text(String::from("한글 and 🦀 and é")),
        Value::Blob(vec![]),
        Value::Blob(b"\"\\\n\r\t\0".to_vec()),
        Value::Blob((0u8..=255).collect()),
    ] {
        let token = value_to_string(&v);
        let back = value_from_string(&token, &read_real);
        assert_eq!(back, Some(v.clone()));
        assert_eq!(value_to_string(&back.unwrap()), token);
    }
}

#[test]
fn null_is_written_as_the_word() {
    assert_eq!(value_to_string(&Value::Null), "null");
    assert_eq!(value_from_string("null", &read_real), Some(Value::Null));
    assert_eq!(value_from_string("nul", &read_real), None);
    assert_eq!(value_from_string("nulls", &read_real), None);
    assert_eq!(value_from_string("n", &read_real), None);
}

#[test]
fn integers_are_written_in_decimal() {
    assert_eq!(value_to_string(&Value::Integer(0)), "0");
    assert_eq!(value_to_string(&Value::Integer(42)), "42");
    assert_eq!(value_to_string(&Value::Integer(-7)), "-7");
    assert_eq!(value_to_string(&Value::Integer(i64::MAX)), "9223372036854775807");
    assert_eq!(value_to_string(&Value::Integer(i64::MIN)), "-9223372036854775808");
    assert!(!value_to_string(&Value::Integer(1234567890)).contains('.'));
}

#[test]
fn integers_are_read_from_decimal() {
    assert_eq!(parse_int(b"0"), Some(0));
    assert_eq!(parse_int(b"007"), Some(7));
    assert_eq!(parse_int(b"-0"), Some(0));
    assert_eq!(parse_int(b"-12"), Some(-12));
    assert_eq!(parse_int(b"9223372036854775807"), Some(i64::MAX));
    assert_eq!(parse_int(b"-9223372036854775808"), Some(i64::MIN));
    assert_eq!(parse_int(b"9223372036854775808"), None);
    assert_eq!(parse_int(b"-9223372036854775809"), None);
    assert_eq!(parse_int(b"99999999999999999999999999"), None);
    assert_eq!(parse_int(b""), None);
    assert_eq!(parse_int(b"-"), None);
    assert_eq!(parse_int(b"1.5"), None);
    assert_eq!(parse_int(b"12a"), None);
    assert_eq!(parse_int(b"--1"), None);
}

#[test]
fn reals_always_have_a_decimal_point() {
    assert_eq!(value_to_string(&real_value(1.0)), "1.0");
    assert_eq!(value_to_string(&real_value(-1.0)), "-1.0");
    assert_eq!(value_to_string(&real_value(1.5)), "1.5");
    assert_eq!(value_to_string(&real_value(0.0)), "0.0");
    assert_eq!(value_to_string(&real_value(-0.0)), "-0.0");
    assert_eq!(value_to_string(&real_value(1.0e21)), "1000000000000000000000.0");
    let written = Real { bits: 7, text: String::from("12") };
    assert_eq!(value_to_string(&Value::Real(written)), "12.0");
    let pointed = Real { bits: 7, text: String::from("1.25") };
    assert_eq!(value_to_string(&Value::Real(pointed)), "1.25");
}

#[test]
fn a_number_that_is_no_integer_goes_to_the_reader_of_reals() {
    assert_eq!(value_from_string("1.5", &read_real), Some(real_value(1.5)));
    assert_eq!(value_from_string("-0.0", &read_real), Some(real_value(-0.0)));
    assert_eq!(value_from_string("1e3", &read_real), Some(real_value(1000.0)));
    assert_eq!(
        value_from_string("9223372036854775808", &read_real),
        Some(real_value(9223372036854775808.0))
    );
    assert_eq!(value_from_string("1.5", &no_reals), None);
    assert_eq!(value_from_string("-", &read_real), None);
    assert_eq!(value_from_string("1abc", &read_real), None);
    assert_eq!(value_from_string("12", &no_reals), Some(Value::Integer(12)));
}

#[test]
fn a_real_that_is_not_finite_does_not_come_back() {
    let token = value_to_string(&real_value(f64::INFINITY));
    assert_eq!(token, "inf.0");
    assert_eq!(value_from_string(&token, &read_real), None);
}

#[test]
fn text_with_quotes_and_a_line_feed() {
    let v = Value::Text(String::from("He said \"hi\"\nok"));
    let token = value_to_string(&v);
    assert_eq!(token, "\"He said \\\"hi\\\"\\nok\"");
    assert_eq!(value_from_string(&token, &read_real), Some(v));
}

#[test]
fn text_escapes_are_exactly_six() {
    let v = Value::Text(String::from("\0\n\r\t\"\\'\u{7f}\u{1b}é"));
    assert_eq!(value_to_string(&v), "\"\\0\\n\\r\\t\\\"\\\\'\u{7f}\u{1b}é\"");
}

#[test]
fn blobs_are_written_in_base64_behind_a_prefix() {
    assert_eq!(value_to_string(&Value::Blob(vec![])), "b");
    assert_eq!(value_to_string(&Value::Blob(vec![0x00, 0xFF])), "bAP8=");
    assert_eq!(value_to_string(&Value::Blob(b"null".to_vec())), "bbnVsbA==");
    assert_eq!(value_from_string("b", &read_real), Some(Value::Blob(vec![])));
    assert_eq!(value_from_string("bAP8=", &read_real), Some(Value::Blob(vec![0x00, 0xFF])));
    assert_eq!(value_from_string("bbnVsbA==", &read_real), Some(Value::Blob(b"null".to_vec())));
}

#[test]
fn blobs_that_are_not_base64_are_refused() {
    assert_eq!(value_from_string("bAP8", &read_real), None);
    assert_eq!(value_from_string("b!!!!", &read_real), None);
    assert_eq!(value_from_string("bAP8=\n", &read_real), None);
    assert_eq!(value_from_string("b한글", &read_real), None);
}

#[test]
fn decode_base64_tells_bytes_from_errors() {
    assert_eq!(decode_base64("AP8="), Ok(vec![0x00, 0xFF]));
    assert_eq!(decode_base64(""), Ok(vec![]));
    assert!(matches!(decode_base64("AP8"), Err(Error::Base64DecodeError(_))));
    assert!(matches!(decode_base64("****"), Err(Error::Base64DecodeError(_))));
}

#[test]
fn tokens_that_start_with_anything_else_are_refused() {
    assert_eq!(value_from_string("", &read_real), None);
    assert_eq!(value_from_string("x", &read_real), None);
    assert_eq!(value_from_string("+1", &read_real), None);
    assert_eq!(value_from_string(".5", &read_real), None);
    assert_eq!(value_from_string(" 1", &read_real), None);
    assert_eq!(value_from_string("NULL", &read_real), None);
    assert_eq!(value_from_string("inf", &read_real), None);
}

#[test]
fn a_text_token_must_end_with_its_closing_quote() {
    assert_eq!(value_from_string("\"ab\"", &read_real), Some(Value::Text(String::from("ab"))));
    assert_eq!(value_from_string("\"\"", &read_real), Some(Value::Text(String::new())));
    assert_eq!(value_from_string("\"ab\"c", &read_real), None);
    assert_eq!(value_from_string("\"ab", &read_real), None);
    assert_eq!(value_from_string("\"", &read_real), None);
    assert_eq!(value_from_string("\"ab\\\"", &read_real), None);
    assert_eq!(value_from_string("\"a\"b\"", &read_real), None);
}

#[test]
fn string_literal_reader_resolves_escapes() {
    assert_eq!(
        parse_string_literal(b"\"a\\nb\\rc\\td\\0e\\\"f\\\\g\\xh\""),
        Some((String::from("a\nb\rc\td\0e\"f\\gxh"), 23))
    );
    assert_eq!(parse_string_literal(b"\"abc\"=1"), Some((String::from("abc"), 4)));
    assert_eq!(parse_string_literal(b"\"\""), Some((String::new(), 1)));
}

#[test]
fn string_literal_reader_reports_index_zero_without_closing_quote() {
    assert_eq!(parse_string_literal(b"\"abc"), Some((String::from("abc"), 0)));
    assert_eq!(parse_string_literal(b"\""), Some((String::new(), 0)));
    assert_eq!(parse_string_literal(b"\"abc\\"), Some((String::from("abc"), 0)));
}

#[test]
fn string_literal_reader_wants_a_quote_and_utf8() {
    assert_eq!(parse_string_literal(b""), None);
    assert_eq!(parse_string_literal(b"abc\""), None);
    assert_eq!(parse_string_literal(b"\"\xff\""), None);
    assert_eq!(parse_string_literal(b"\"\xc3\""), None);
    assert_eq!(parse_string_literal("\"é\"".as_bytes()), Some((String::from("é"), 3)));
}

#[test]
fn every_value_of_ordinary_size_can_be_written() {
    assert!(Value::Null.is_writable());
    assert!(Value::Integer(1).is_writable());
    assert!(Value::Blob(vec![0; 1000]).is_writable());
    assert!(Value::Text(String::from("x")).is_writable());
}
