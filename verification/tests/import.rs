use stfg::db::DB;
use stfg::error::Error;
use stfg::from_git::{has_statements, is_bucket_file_name, single_table};
use stfg::schema::{table_of, ColumnEntry};

#[test]
fn a_blank_file_of_sql_has_nothing_to_run() {
    assert!(!has_statements(""));
    assert!(!has_statements("   "));
    assert!(!has_statements(" \n\t\r\n "));
    assert!(has_statements("CREATE INDEX i ON t(x);"));
    assert!(has_statements("\n;\n"));
}

#[test]
fn bucket_files_have_names_of_three_bytes() {
    assert!(is_bucket_file_name("000"));
    assert!(is_bucket_file_name("777"));
    assert!(is_bucket_file_name("abc"));
    assert!(is_bucket_file_name("한"));
    assert!(!is_bucket_file_name("table.sql"));
    assert!(!is_bucket_file_name("index.sql"));
    assert!(!is_bucket_file_name("trigger.sql"));
    assert!(!is_bucket_file_name("00"));
    assert!(!is_bucket_file_name("0000"));
    assert!(!is_bucket_file_name(""));
}

#[test]
fn the_schema_of_a_table_file_has_one_table() {
    let table = table_of("t", &vec![ColumnEntry { name: String::from("x"), pk: 1 }]);
    let db = DB { tables: vec![table.clone()], views: vec![] };
    assert_eq!(single_table(db), Ok(table.clone()));
    let none = DB { tables: vec![], views: vec![] };
    assert_eq!(
        single_table(none),
        Err(Error::CorruptedDataFile(String::from(
            "expected exactly 1 `CREATE TABLE` statement from `table.sql`, but got 0"
        )))
    );
    let two = DB { tables: vec![table.clone(), table], views: vec![] };
    assert_eq!(
        single_table(two),
        Err(Error::CorruptedDataFile(String::from(
            "expected exactly 1 `CREATE TABLE` statement from `table.sql`, but got 2"
        )))
    );
}
