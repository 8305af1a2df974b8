use stfg::db::{SqlView, DB};
use stfg::error::Error;
use stfg::record::{read_records, write_records, Record, RecordId};
use stfg::schema::{build_schema, table_of, ColumnEntry, SchemaEntry};
use stfg::table::Table;
use stfg::to_git::{
    bucket_file_name, merge_bucket, root_files, table_files, Buckets, Flush, BUCKET_COUNT,
    FLUSH_THRESHOLD,
};
use stfg::value::{Real, Value};

fn as_real(s: &str) -> Option<Real> {
    match s.parse::<f64>() {
        Ok(x) => Some(Real { bits: x.to_bits(), text: x.to_string() }),
        Err(_) => None,
    }
}

fn keyed_table() -> Table {
    table_of(
        "t",
        &vec![
            ColumnEntry { name: String::from("x"), pk: 1 },
            ColumnEntry { name: String::from("y"), pk: 0 },
        ],
    )
}

fn keyless_table() -> Table {
    table_of(
        "t",
        &vec![
            ColumnEntry { name: String::from("a"), pk: 0 },
            ColumnEntry { name: String::from("b"), pk: 0 },
        ],
    )
}

fn text(s: &str) -> Value {
    Value::Text(String::from(s))
}

fn numbered(id: u64, n: i64) -> Record {
    Record { id: RecordId(id), fields: vec![(String::from("n"), Value::Integer(n))] }
}

fn ids(records: &[Record]) -> Vec<u64> {
    records.iter().map(|r| r.id.0).collect()
}

#[test]
fn a_row_with_a_primary_key_is_filed_under_the_hash_of_the_key() {
    let record = keyed_table().record(vec![Value::Integer(1), text("hi")]);
    let id = RecordId::hash(&[Value::Integer(1)]);
    assert_eq!(record.id, id);
    assert_eq!(
        record.fields,
        vec![(String::from("x"), Value::Integer(1)), (String::from("y"), text("hi"))]
    );
    let file = merge_bucket(None, vec![record], &as_real).unwrap();
    assert_eq!(file, format!("{:016x}\n\"x\"=1\n\"y\"=\"hi\"\n\n", id.0));
    assert_eq!(bucket_file_name(id.prefix()), format!("{:03o}", id.0 >> 55));
}

#[test]
fn a_change_to_another_column_keeps_identifier_and_bucket() {
    let table = keyed_table();
    let before = table.record(vec![Value::Integer(1), text("hi")]);
    let after = table.record(vec![Value::Integer(1), text("hello")]);
    assert_eq!(before.id, after.id);
    assert_eq!(bucket_file_name(before.id.prefix()), bucket_file_name(after.id.prefix()));
    let old = merge_bucket(None, vec![before], &as_real).unwrap();
    let new = merge_bucket(None, vec![after], &as_real).unwrap();
    let old_lines: Vec<&str> = old.split('\n').collect();
    let new_lines: Vec<&str> = new.split('\n').collect();
    assert_eq!(old_lines.len(), new_lines.len());
    assert_eq!(old_lines[0], new_lines[0]);
    assert_eq!(old_lines[1], "\"x\"=1");
    assert_eq!(new_lines[1], "\"x\"=1");
    assert_eq!(old_lines[2], "\"y\"=\"hi\"");
    assert_eq!(new_lines[2], "\"y\"=\"hello\"");
    assert_eq!(old_lines[3..], new_lines[3..]);
}

#[test]
fn a_change_to_the_key_changes_the_identifier() {
    let table = keyed_table();
    let one = table.record(vec![Value::Integer(1), text("hi")]);
    let two = table.record(vec![Value::Integer(2), text("hi")]);
    assert_ne!(one.id, two.id);
}

#[test]
fn rows_without_a_primary_key_are_filed_under_the_hash_of_all_values() {
    let table = keyless_table();
    let first = table.record(vec![Value::Integer(1), Value::Integer(2)]);
    let second = table.record(vec![Value::Integer(2), Value::Integer(1)]);
    assert_eq!(first.id, RecordId::hash(&[Value::Integer(1), Value::Integer(2)]));
    assert_eq!(second.id, RecordId::hash(&[Value::Integer(2), Value::Integer(1)]));
    assert_ne!(first.id, second.id);
    let mut buckets = Buckets::new();
    assert!(buckets.add(first.clone()).is_none());
    assert!(buckets.add(second.clone()).is_none());
    let mut written: Vec<Record> = Vec::new();
    for flush in buckets.finish() {
        let file = merge_bucket(None, flush.records, &as_real).unwrap();
        written.extend(read_records(&file, &as_real).unwrap());
    }
    assert_eq!(written.len(), 2);
    assert!(written.contains(&first));
    assert!(written.contains(&second));
}

#[test]
fn bucket_files_are_named_in_three_octal_digits() {
    assert_eq!(bucket_file_name(0), "000");
    assert_eq!(bucket_file_name(7), "007");
    assert_eq!(bucket_file_name(8), "010");
    assert_eq!(bucket_file_name(64), "100");
    assert_eq!(bucket_file_name(0o123), "123");
    assert_eq!(bucket_file_name(511), "777");
    for prefix in 0..512u64 {
        let name = bucket_file_name(prefix);
        assert_eq!(name.len(), 3);
        assert_eq!(u64::from_str_radix(&name, 8), Ok(prefix));
    }
}

#[test]
fn a_bucket_is_handed_out_when_it_is_full() {
    assert_eq!(FLUSH_THRESHOLD, 1024);
    assert_eq!(BUCKET_COUNT, 512);
    let mut buckets = Buckets::new();
    let base: u64 = 5 << 55;
    for n in 0..1023u64 {
        assert!(buckets.add(numbered(base + n, n as i64)).is_none());
    }
    assert!(buckets.add(numbered(7 << 55, 0)).is_none());
    let flush = buckets.add(numbered(base + 1023, 1023)).unwrap();
    assert_eq!(flush.prefix, 5);
    assert_eq!(flush.records.len(), 1024);
    assert_eq!(ids(&flush.records), (0..1024u64).map(|n| base + n).collect::<Vec<u64>>());
    assert!(buckets.add(numbered(base, 0)).is_none());
    let rest = buckets.finish();
    assert_eq!(
        rest,
        vec![
            Flush { prefix: 5, records: vec![numbered(base, 0)] },
            Flush { prefix: 7, records: vec![numbered(7 << 55, 0)] },
        ]
    );
}

#[test]
fn what_is_left_comes_out_by_bucket_in_ascending_order() {
    let mut buckets = Buckets::new();
    for id in [u64::MAX, 0, 3 << 55, 1, (3 << 55) + 9] {
        assert!(buckets.add(numbered(id, 0)).is_none());
    }
    let rest = buckets.finish();
    assert_eq!(rest.iter().map(|f| f.prefix).collect::<Vec<u64>>(), vec![0, 3, 511]);
    assert_eq!(ids(&rest[0].records), vec![0, 1]);
    assert_eq!(ids(&rest[1].records), vec![3 << 55, (3 << 55) + 9]);
    assert_eq!(ids(&rest[2].records), vec![u64::MAX]);
    for flush in rest.iter() {
        for record in flush.records.iter() {
            assert_eq!(record.id.prefix(), flush.prefix);
        }
    }
    assert_eq!(Buckets::new().finish(), vec![]);
}

#[test]
fn a_bucket_file_holds_its_records_in_order_of_identifier() {
    let file = merge_bucket(
        None,
        vec![numbered(30, 0), numbered(10, 1), numbered(20, 2), numbered(5, 3)],
        &as_real,
    )
    .unwrap();
    let records = read_records(&file, &as_real).unwrap();
    assert_eq!(ids(&records), vec![5, 10, 20, 30]);
    for pair in records.windows(2) {
        assert!(pair[0].id < pair[1].id);
    }
}

#[test]
fn records_of_one_identifier_keep_the_order_they_came_in() {
    let held = write_records(&[numbered(1, 100), numbered(2, 200), numbered(2, 201)]);
    let file = merge_bucket(
        Some(&held),
        vec![numbered(2, 202), numbered(1, 101), numbered(0, 0)],
        &as_real,
    )
    .unwrap();
    assert_eq!(
        read_records(&file, &as_real).unwrap(),
        vec![
            numbered(0, 0),
            numbered(1, 100),
            numbered(1, 101),
            numbered(2, 200),
            numbered(2, 201),
            numbered(2, 202),
        ]
    );
}

#[test]
fn flushing_in_parts_gives_the_file_of_one_flush() {
    let all: Vec<Record> = [9u64, 3, 7, 3, 1, 8, 2, 9, 4].iter().enumerate()
        .map(|(n, id)| numbered(*id, n as i64)).collect();
    let at_once = merge_bucket(None, all.clone(), &as_real).unwrap();
    let first = merge_bucket(None, all[..4].to_vec(), &as_real).unwrap();
    let second = merge_bucket(Some(&first), all[4..6].to_vec(), &as_real).unwrap();
    let third = merge_bucket(Some(&second), all[6..].to_vec(), &as_real).unwrap();
    assert_eq!(third, at_once);
    assert_eq!(merge_bucket(Some(&third), vec![], &as_real).unwrap(), at_once);
}

#[test]
fn exporting_twice_gives_the_same_files() {
    let table = keyless_table();
    let rows = vec![
        vec![Value::Integer(1), text("a")],
        vec![Value::Null, Value::Blob(vec![1, 2, 3])],
        vec![text("x"), Value::Integer(-1)],
    ];
    let mut files: Vec<Vec<(String, String)>> = Vec::new();
    for _ in 0..2 {
        let mut buckets = Buckets::new();
        for row in rows.iter() {
            assert!(buckets.add(table.record(row.clone())).is_none());
        }
        let mut out = Vec::new();
        for flush in buckets.finish() {
            let name = bucket_file_name(flush.prefix);
            out.push((name, merge_bucket(None, flush.records, &as_real).unwrap()));
        }
        files.push(out);
    }
    assert_eq!(files[0], files[1]);
}

#[test]
fn a_corrupted_file_stops_the_flush() {
    assert_eq!(
        merge_bucket(Some("not a bucket file\n"), vec![numbered(1, 1)], &as_real),
        Err(Error::CorruptedDataFile(String::from("expected an id, got n")))
    );
}

#[test]
fn a_table_directory_has_three_files_of_sql() {
    let db = build_schema(
        vec![keyed_table()],
        &vec![],
        &vec![
            SchemaEntry {
                kind: String::from("table"),
                name: String::from("t"),
                table_name: String::from("t"),
                sql: Some(String::from("CREATE TABLE t(x INTEGER PRIMARY KEY, y TEXT)")),
            },
            SchemaEntry {
                kind: String::from("index"),
                name: String::from("i"),
                table_name: String::from("t"),
                sql: Some(String::from("CREATE INDEX i ON t(y)")),
            },
        ],
    )
    .unwrap();
    assert_eq!(
        table_files(&db.tables[0]),
        vec![
            (String::from("table.sql"), String::from("CREATE TABLE t(x INTEGER PRIMARY KEY, y TEXT)")),
            (String::from("index.sql"), String::from("CREATE INDEX i ON t(y);")),
            (String::from("trigger.sql"), String::new()),
        ]
    );
}

#[test]
fn an_empty_database_is_marked_by_an_empty_file() {
    let db = build_schema(vec![], &vec![], &vec![]).unwrap();
    assert_eq!(db.tables.len(), 0);
    assert_eq!(root_files(&db), vec![(String::from(".empty"), String::new())]);
}

#[test]
fn the_views_are_written_with_blank_lines_between_them() {
    let view = |name: &str, sql: &str| SqlView {
        name: String::from(name),
        create_view_sql: String::from(sql),
    };
    let db = DB {
        tables: vec![keyed_table()],
        views: vec![view("a", "CREATE VIEW a AS SELECT 1;"), view("b", "CREATE VIEW b AS SELECT 2;")],
    };
    assert_eq!(
        root_files(&db),
        vec![(
            String::from("view.sql"),
            String::from("CREATE VIEW a AS SELECT 1;\n\nCREATE VIEW b AS SELECT 2;")
        )]
    );
    let none = DB { tables: vec![keyed_table()], views: vec![] };
    assert_eq!(root_files(&none), vec![(String::from("view.sql"), String::new())]);
}
