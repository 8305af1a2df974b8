use std::collections::hash_map::DefaultHasher;
use std::hash::Hasher;
use stfg::error::Error;
use stfg::record::{parse_line, read_records, write_records, Record, RecordId};
use stfg::value::{Real, Value};

fn parse_real(s: &str) -> Option<Real> {
    match s.parse::<f64>() {
        Ok(x) => Some(Real { bits: x.to_bits(), text: x.to_string() }),
        Err(_) => None,
    }
}

fn real_of(x: f64) -> Value {
    Value::Real(Real { bits: x.to_bits(), text: x.to_string() })
}

fn corrupted(message: &str) -> Error {
    Error::CorruptedDataFile(String::from(message))
}

fn field(name: &str, value: Value) -> (String, Value) {
    (String::from(name), value)
}

#[test]
fn hash_feeds_tags_and_bytes_to_the_default_hasher() {
    let mut hasher = DefaultHasher::new();
    hasher.write(b"0");
    hasher.write(b"1");
    hasher.write(&(-5i64).to_le_bytes());
    hasher.write(b"2");
    hasher.write(&1.5f64.to_le_bytes());
    hasher.write(b"3");
    hasher.write("héllo".as_bytes());
    hasher.write(b"4");
    hasher.write(&[0u8, 255, 7]);
    let expected = hasher.finish();
    let id = RecordId::hash(&[
        Value::Null,
        Value::Integer(-5),
        real_of(1.5),
        Value::Text(String::from("héllo")),
        Value::Blob(vec![0, 255, 7]),
    ]);
    assert_eq!(id, RecordId(expected));
}

#[test]
fn hash_of_nothing_is_the_hash_of_the_fresh_hasher() {
    assert_eq!(RecordId::hash(&[]), RecordId(DefaultHasher::new().finish()));
}

#[test]
fn hash_tells_the_storage_classes_apart() {
    let integer = RecordId::hash(&[Value::Integer(0)]);
    let real = RecordId::hash(&[real_of(0.0)]);
    let text = RecordId::hash(&[Value::Text(String::new())]);
    let blob = RecordId::hash(&[Value::Blob(vec![])]);
    let null = RecordId::hash(&[Value::Null]);
    assert_ne!(integer, real);
    assert_ne!(text, blob);
    assert_ne!(null, text);
    assert_ne!(null, blob);
}

#[test]
fn hash_depends_on_the_bits_of_a_real_not_on_its_text() {
    let a = Value::Real(Real { bits: 1.5f64.to_bits(), text: String::from("1.5") });
    let b = Value::Real(Real { bits: 1.5f64.to_bits(), text: String::from("one and a half") });
    assert_eq!(RecordId::hash(&[a]), RecordId::hash(&[b]));
}

#[test]
fn hash_is_the_same_every_time() {
    let values = vec![Value::Integer(1), Value::Text(String::from("hi"))];
    assert_eq!(RecordId::hash(&values), RecordId::hash(&values));
}

#[test]
fn prefix_is_the_top_nine_bits() {
    assert_eq!(RecordId(0).prefix(), 0);
    assert_eq!(RecordId(u64::MAX).prefix(), 511);
    assert_eq!(RecordId(1 << 55).prefix(), 1);
    assert_eq!(RecordId((1 << 55) - 1).prefix(), 0);
    assert_eq!(RecordId(0x8000_0000_0000_0000).prefix(), 256);
    assert_eq!(RecordId(0xABCD_EF01_2345_6789).prefix(), 0xABCD_EF01_2345_6789u64 >> 55);
}

#[test]
fn records_are_written_block_by_block() {
    let records = vec![
        Record {
            id: RecordId(0x1f),
            fields: vec![field("x", Value::Integer(1)), field("y", Value::Text(String::from("hi")))],
        },
        Record { id: RecordId(u64::MAX), fields: vec![] },
    ];
    assert_eq!(
        write_records(&records),
        "000000000000001f\n\"x\"=1\n\"y\"=\"hi\"\n\nffffffffffffffff\n\n"
    );
}

#[test]
fn no_records_make_an_empty_file() {
    assert_eq!(write_records(&[]), "");
    assert_eq!(read_records("", &parse_real), Ok(vec![]));
}

#[test]
fn column_names_are_written_as_literals() {
    let records = vec![Record {
        id: RecordId(1),
        fields: vec![field("a \"b\"\n=c", Value::Null)],
    }];
    let text = write_records(&records);
    assert_eq!(text, "0000000000000001\n\"a \\\"b\\\"\\n=c\"=null\n\n");
    assert_eq!(read_records(&text, &parse_real), Ok(records));
}

#[test]
fn written_records_are_read_back() {
    let records = vec![
        Record {
            id: RecordId(3),
            fields: vec![
                field("n", Value::Null),
                field("i", Value::Integer(i64::MIN)),
                field("r", real_of(-2.5)),
                field("t", Value::Text(String::from("line\nbreak \"quoted\" \\ 🦀"))),
                field("b", Value::Blob(vec![10, 13, 0, 255])),
            ],
        },
        Record { id: RecordId(3), fields: vec![] },
        Record { id: RecordId(0xfedc_ba98_7654_3210), fields: vec![field("", real_of(1.0))] },
    ];
    let text = write_records(&records);
    assert_eq!(read_records(&text, &parse_real), Ok(records.clone()));
    assert_eq!(write_records(&read_records(&text, &parse_real).unwrap()), text);
}

#[test]
fn the_last_record_may_lack_its_blank_line() {
    let expected = vec![
        Record { id: RecordId(1), fields: vec![field("x", Value::Integer(1))] },
        Record { id: RecordId(2), fields: vec![field("x", Value::Integer(2))] },
    ];
    let with = "0000000000000001\n\"x\"=1\n\n0000000000000002\n\"x\"=2\n\n";
    let without = "0000000000000001\n\"x\"=1\n\n0000000000000002\n\"x\"=2\n";
    let unfinished = "0000000000000001\n\"x\"=1\n\n0000000000000002\n\"x\"=2";
    assert_eq!(read_records(with, &parse_real), Ok(expected.clone()));
    assert_eq!(read_records(without, &parse_real), Ok(expected.clone()));
    assert_eq!(read_records(unfinished, &parse_real), Ok(expected));
}

#[test]
fn a_carriage_return_before_the_line_feed_belongs_to_the_line_ending() {
    let text = "0000000000000001\r\n\"x\"=1\r\n\r\n";
    assert_eq!(
        read_records(text, &parse_real),
        Ok(vec![Record { id: RecordId(1), fields: vec![field("x", Value::Integer(1))] }])
    );
}

#[test]
fn an_id_must_not_appear_twice_in_one_record() {
    let text = "0000000000000001\n0000000000000002\n";
    assert_eq!(read_records(text, &parse_real), Err(corrupted("id appears twice")));
}

#[test]
fn an_id_has_sixteen_lower_case_hex_digits() {
    assert_eq!(
        read_records("abc\n", &parse_real),
        Err(corrupted("failed to parse id: abc"))
    );
    assert_eq!(
        read_records("00000000000000001\n", &parse_real),
        Err(corrupted("failed to parse id: 00000000000000001"))
    );
    assert_eq!(
        read_records("000000000000000G\n", &parse_real),
        Err(corrupted("failed to parse id: 000000000000000G"))
    );
    assert_eq!(
        read_records("00000000000000AB\n", &parse_real),
        Err(corrupted("failed to parse id: 00000000000000AB"))
    );
    assert_eq!(
        read_records("00000000000000ab\n", &parse_real),
        Ok(vec![Record { id: RecordId(0xab), fields: vec![] }])
    );
}

#[test]
fn a_blank_line_needs_an_open_record() {
    assert_eq!(read_records("\n", &parse_real), Err(corrupted("a record without an id")));
    assert_eq!(
        read_records("0000000000000001\n\n\n", &parse_real),
        Err(corrupted("a record without an id"))
    );
}

#[test]
fn a_field_needs_an_open_record() {
    assert_eq!(read_records("\"x\"=1\n", &parse_real), Err(corrupted("a field without an id")));
    assert_eq!(
        read_records("0000000000000001\n\n\"x\"=1\n", &parse_real),
        Err(corrupted("a field without an id"))
    );
}

#[test]
fn a_line_must_start_like_an_id_or_a_field() {
    assert_eq!(read_records("x=1\n", &parse_real), Err(corrupted("expected an id, got x")));
    assert_eq!(
        read_records("0000000000000001\n=1\n", &parse_real),
        Err(corrupted("expected a field name, got = (at id 0000000000000001)"))
    );
    assert_eq!(
        read_records("A000000000000001\n", &parse_real),
        Err(corrupted("expected an id, got A"))
    );
}

#[test]
fn reading_stops_at_the_first_error() {
    let text = "0000000000000001\n\"x\"=?\nthis line is never looked at\n";
    assert_eq!(read_records(text, &parse_real), Err(corrupted("failed to parse value: ?")));
}

#[test]
fn a_field_line_is_name_equals_value() {
    assert_eq!(parse_line(b"\"x\"=1", &parse_real), Ok(field("x", Value::Integer(1))));
    assert_eq!(
        parse_line(b"\"a=b\"=\"c=d\"", &parse_real),
        Ok(field("a=b", Value::Text(String::from("c=d"))))
    );
    assert_eq!(parse_line(b"\"\"=null", &parse_real), Ok(field("", Value::Null)));
    assert_eq!(parse_line(b"\"r\"=2.5", &parse_real), Ok(field("r", real_of(2.5))));
    assert_eq!(parse_line(b"\"b\"=bAP8=", &parse_real), Ok(field("b", Value::Blob(vec![0, 255]))));
}

#[test]
fn a_field_line_with_a_bad_name() {
    assert_eq!(
        parse_line(b"x=1", &parse_real),
        Err(corrupted("failed to parse data: x=1"))
    );
    assert_eq!(
        parse_line(b"\"x=1", &parse_real),
        Err(corrupted("failed to parse data: \"x=1"))
    );
    assert_eq!(
        parse_line(b"\"\xff\"=1", &parse_real),
        Err(corrupted("failed to parse data: \"\u{fffd}\"=1"))
    );
    assert_eq!(parse_line(b"", &parse_real), Err(corrupted("failed to parse data: ")));
}

#[test]
fn a_field_line_without_its_equals_sign() {
    assert_eq!(parse_line(b"\"x\"", &parse_real), Err(corrupted("expected '=', got nothing")));
    assert_eq!(parse_line(b"\"x\":1", &parse_real), Err(corrupted("expected '=', got :")));
    assert_eq!(
        parse_line(b"\"x\"\xff1", &parse_real),
        Err(corrupted("expected '=', got \u{fffd}"))
    );
}

#[test]
fn a_field_line_with_a_bad_value() {
    assert_eq!(parse_line(b"\"x\"=\xff", &parse_real), Err(corrupted("corrupted value")));
    assert_eq!(parse_line(b"\"x\"=", &parse_real), Err(corrupted("failed to parse value: ")));
    assert_eq!(
        parse_line(b"\"x\"=nil", &parse_real),
        Err(corrupted("failed to parse value: nil"))
    );
    assert_eq!(
        parse_line(b"\"x\"=\"open", &parse_real),
        Err(corrupted("failed to parse value: \"open"))
    );
    assert_eq!(
        parse_line(b"\"x\"=b%%%", &parse_real),
        Err(corrupted("failed to parse value: b%%%"))
    );
}

#[test]
fn records_of_ordinary_size_can_be_written() {
    let record = Record {
        id: RecordId(1),
        fields: vec![field("a", Value::Blob(vec![1, 2, 3])), field("b", Value::Null)],
    };
    assert!(record.is_writable());
}
