use stfg::db::{SqlView, DB};
use stfg::error::Error;
use stfg::schema::{
    build_schema, candidate_tables, table_of, Candidates, ColumnEntry, SchemaEntry, TableEntry,
};
use stfg::table::Table;

fn listed(name: &str, kind: &str) -> TableEntry {
    TableEntry { name: String::from(name), kind: String::from(kind) }
}

fn column(name: &str, pk: u64) -> ColumnEntry {
    ColumnEntry { name: String::from(name), pk }
}

fn entry(kind: &str, name: &str, table_name: &str, sql: Option<&str>) -> SchemaEntry {
    SchemaEntry {
        kind: String::from(kind),
        name: String::from(name),
        table_name: String::from(table_name),
        sql: sql.map(String::from),
    }
}

fn edge_case(message: &str) -> Error {
    Error::EdgeCase(String::from(message))
}

fn names(tables: &[Table]) -> Vec<&str> {
    tables.iter().map(|t| t.name.as_str()).collect()
}

#[test]
fn tables_and_virtual_tables_are_candidates() {
    let list = vec![
        listed("b", "table"),
        listed("fts", "virtual"),
        listed("fts_data", "shadow"),
        listed("a", "table"),
        listed("fts_idx", "shadow"),
    ];
    assert_eq!(
        candidate_tables(&list),
        Ok(Candidates {
            tables: vec![String::from("b"), String::from("fts"), String::from("a")],
            shadows: vec![String::from("fts_data"), String::from("fts_idx")],
        })
    );
    assert_eq!(candidate_tables(&vec![]), Ok(Candidates { tables: vec![], shadows: vec![] }));
}

#[test]
fn an_unknown_kind_of_table_is_an_edge_case() {
    let list = vec![listed("a", "table"), listed("v", "view"), listed("w", "other")];
    assert_eq!(candidate_tables(&list), Err(edge_case("A type of table is `view`.")));
}

#[test]
fn a_table_is_described_by_its_columns() {
    let t = table_of("my table", &vec![column("id", 1), column("name", 0)]);
    assert_eq!(
        t,
        Table {
            escaped_name: String::from("my$20$table"),
            name: String::from("my table"),
            create_table_sql: String::new(),
            create_index_sql: String::new(),
            create_trigger_sql: String::new(),
            columns: vec![String::from("id"), String::from("name")],
            primary_key: Some(String::from("id")),
        }
    );
}

#[test]
fn the_first_column_of_a_composite_key_is_the_key() {
    let t = table_of("t", &vec![column("a", 0), column("b", 2), column("c", 1), column("d", 0)]);
    assert_eq!(t.primary_key, Some(String::from("b")));
    assert_eq!(t.columns.len(), 4);
}

#[test]
fn a_table_without_key_columns_has_no_key() {
    assert_eq!(table_of("t", &vec![column("a", 0), column("b", 0)]).primary_key, None);
    assert_eq!(table_of("t", &vec![]).primary_key, None);
    assert_eq!(table_of("t", &vec![]).columns, Vec::<String>::new());
}

#[test]
fn the_schema_gathers_what_each_table_owns() {
    let tables = vec![
        table_of("users", &vec![column("id", 1), column("name", 0)]),
        table_of("logs", &vec![column("line", 0)]),
    ];
    let entries = vec![
        entry("table", "users", "users", Some("CREATE TABLE users(id INTEGER PRIMARY KEY, name)")),
        entry("index", "sqlite_autoindex_users_1", "users", None),
        entry("index", "z_index", "users", Some("CREATE INDEX z_index ON users(name)")),
        entry("index", "a_index", "users", Some("CREATE INDEX a_index ON users(id);")),
        entry("trigger", "trg", "users", Some("CREATE TRIGGER trg AFTER INSERT ON users BEGIN SELECT 1; END")),
        entry("table", "logs", "logs", Some("CREATE TABLE logs(line)")),
        entry("view", "v2", "v2", Some("CREATE VIEW v2 AS SELECT 2")),
        entry("view", "v1", "v1", Some("CREATE VIEW v1 AS SELECT 1;")),
    ];
    let db = build_schema(tables, &vec![], &entries).unwrap();
    assert_eq!(names(&db.tables), vec!["logs", "users"]);
    assert_eq!(db.tables[0].create_table_sql, "CREATE TABLE logs(line)");
    assert_eq!(db.tables[0].create_index_sql, "");
    assert_eq!(db.tables[0].create_trigger_sql, "");
    assert_eq!(
        db.tables[1].create_table_sql,
        "CREATE TABLE users(id INTEGER PRIMARY KEY, name)"
    );
    assert_eq!(
        db.tables[1].create_index_sql,
        "CREATE INDEX a_index ON users(id);\n\nCREATE INDEX z_index ON users(name);"
    );
    assert_eq!(
        db.tables[1].create_trigger_sql,
        "CREATE TRIGGER trg AFTER INSERT ON users BEGIN SELECT 1; END;"
    );
    assert_eq!(db.tables[1].primary_key, Some(String::from("id")));
    assert_eq!(db.tables[1].escaped_name, "users");
    assert_eq!(
        db.views,
        vec![
            SqlView {
                name: String::from("v1"),
                create_view_sql: String::from("CREATE VIEW v1 AS SELECT 1;"),
            },
            SqlView {
                name: String::from("v2"),
                create_view_sql: String::from("CREATE VIEW v2 AS SELECT 2;"),
            },
        ]
    );
}

#[test]
fn an_empty_catalog_gives_an_empty_schema() {
    assert_eq!(build_schema(vec![], &vec![], &vec![]), Ok(DB { tables: vec![], views: vec![] }));
}

#[test]
fn tables_without_a_create_statement_are_left_out() {
    let tables = vec![
        table_of("sqlite_schema", &vec![column("type", 0)]),
        table_of("t", &vec![column("x", 0)]),
    ];
    let entries = vec![entry("table", "t", "t", Some("CREATE TABLE t(x)"))];
    let db = build_schema(tables, &vec![], &entries).unwrap();
    assert_eq!(names(&db.tables), vec!["t"]);
}

#[test]
fn the_sequence_counter_is_left_out() {
    let tables = vec![
        table_of("sqlite_sequence", &vec![column("name", 0), column("seq", 0)]),
        table_of("t", &vec![column("x", 1)]),
    ];
    let entries = vec![
        entry("table", "t", "t", Some("CREATE TABLE t(x INTEGER PRIMARY KEY AUTOINCREMENT)")),
        entry("table", "sqlite_sequence", "sqlite_sequence", Some("CREATE TABLE sqlite_sequence(name,seq)")),
    ];
    let db = build_schema(tables, &vec![], &entries).unwrap();
    assert_eq!(names(&db.tables), vec!["t"]);
}

#[test]
fn a_table_that_only_looks_like_the_sequence_counter_is_kept() {
    let tables = vec![
        table_of("sqlite_sequence", &vec![column("name", 0), column("seq", 0), column("more", 0)]),
        table_of("sequence", &vec![column("name", 0), column("seq", 0)]),
    ];
    let entries = vec![
        entry("table", "sqlite_sequence", "sqlite_sequence", Some("CREATE TABLE a")),
        entry("table", "sequence", "sequence", Some("CREATE TABLE b")),
    ];
    let db = build_schema(tables, &vec![], &entries).unwrap();
    assert_eq!(names(&db.tables), vec!["sequence", "sqlite_sequence"]);
}

#[test]
fn what_shadow_tables_own_is_passed_over() {
    let tables = vec![table_of("fts", &vec![column("body", 0)])];
    let shadows = vec![String::from("fts_data")];
    let entries = vec![
        entry("table", "fts", "fts", Some("CREATE VIRTUAL TABLE fts USING fts5(body)")),
        entry("table", "fts_data", "fts_data", Some("CREATE TABLE 'fts_data'(id, block)")),
        entry("strange", "fts_thing", "fts_data", Some("whatever")),
    ];
    let db = build_schema(tables, &shadows, &entries).unwrap();
    assert_eq!(names(&db.tables), vec!["fts"]);
    assert_eq!(db.tables[0].create_table_sql, "CREATE VIRTUAL TABLE fts USING fts5(body)");
}

#[test]
fn tables_come_out_in_order_of_their_bytes() {
    let tables = vec![
        table_of("b", &vec![]),
        table_of("a", &vec![]),
        table_of("B", &vec![]),
        table_of("ab", &vec![]),
        table_of("é", &vec![]),
        table_of("", &vec![]),
    ];
    let entries = vec![
        entry("table", "b", "b", Some("1")),
        entry("table", "a", "a", Some("2")),
        entry("table", "B", "B", Some("3")),
        entry("table", "ab", "ab", Some("4")),
        entry("table", "é", "é", Some("5")),
        entry("table", "", "", Some("6")),
    ];
    let db = build_schema(tables, &vec![], &entries).unwrap();
    assert_eq!(names(&db.tables), vec!["", "B", "a", "ab", "b", "é"]);
}

#[test]
fn two_tables_of_one_name_are_an_edge_case() {
    let tables = vec![table_of("t", &vec![]), table_of("u", &vec![]), table_of("t", &vec![])];
    assert_eq!(build_schema(tables, &vec![], &vec![]), Err(edge_case("table name collision")));
}

#[test]
fn an_unknown_kind_of_entry_is_an_edge_case() {
    let tables = vec![table_of("t", &vec![])];
    let entries = vec![
        entry("table", "t", "t", Some("CREATE TABLE t(x)")),
        entry("cursor", "skipped", "t", None),
        entry("sequence", "s", "t", Some("CREATE SEQUENCE s")),
        entry("other", "o", "t", Some("x")),
    ];
    assert_eq!(
        build_schema(tables, &vec![], &entries),
        Err(edge_case("A type of a create script is `sequence`."))
    );
}

#[test]
fn an_entry_of_a_missing_table_is_an_edge_case() {
    let tables = vec![table_of("t", &vec![])];
    let entries = vec![
        entry("table", "t", "t", Some("CREATE TABLE t(x)")),
        entry("index", "i", "gone", Some("CREATE INDEX i ON gone(x)")),
    ];
    assert_eq!(
        build_schema(tables, &vec![], &entries),
        Err(edge_case("There's a schema for table gone, but there's no such table."))
    );
}

#[test]
fn a_table_needs_exactly_one_create_statement() {
    let entries = vec![
        entry("table", "t", "t", Some("CREATE TABLE t(x)")),
        entry("table", "t2", "t", Some("CREATE TABLE t(y)")),
    ];
    assert_eq!(
        build_schema(vec![table_of("t", &vec![])], &vec![], &entries),
        Err(edge_case("Expected exactly 1 `CREATE TABLE`, but found 2 in t"))
    );
    let entries = vec![entry("index", "i", "t", Some("CREATE INDEX i ON t(x)"))];
    assert_eq!(
        build_schema(vec![table_of("t", &vec![])], &vec![], &entries),
        Err(edge_case("Expected exactly 1 `CREATE TABLE`, but found 0 in t"))
    );
}

#[test]
fn the_first_fault_in_catalog_order_is_reported() {
    let entries = vec![
        entry("index", "i", "t", Some("CREATE INDEX i ON t(x)")),
        entry("index", "j", "gone", Some("CREATE INDEX j ON gone(x)")),
    ];
    assert_eq!(
        build_schema(vec![table_of("t", &vec![])], &vec![], &entries),
        Err(edge_case("Expected exactly 1 `CREATE TABLE`, but found 0 in t"))
    );
}
