use stfg::table::{escape_path, Table};

fn table(name: &str, columns: &[&str]) -> Table {
    Table {
        escaped_name: escape_path(name),
        name: String::from(name),
        create_table_sql: String::new(),
        create_index_sql: String::new(),
        create_trigger_sql: String::new(),
        columns: columns.iter().map(|c| String::from(*c)).collect(),
        primary_key: None,
    }
}

#[test]
fn plain_names_stay_as_they_are() {
    assert_eq!(escape_path("users"), "users");
    assert_eq!(escape_path("Az09_-."), "Az09_-.");
    assert_eq!(escape_path("가힣"), "가힣");
    assert_eq!(escape_path(""), "");
}

#[test]
fn other_characters_are_spelled_in_hex_between_dollars() {
    assert_eq!(escape_path("a b"), "a$20$b");
    assert_eq!(escape_path("a/b"), "a$2f$b");
    assert_eq!(escape_path("\""), "$22$");
    assert_eq!(escape_path("$"), "$24$");
    assert_eq!(escape_path("é"), "$c3a9$");
    assert_eq!(escape_path("€"), "$e282ac$");
    assert_eq!(escape_path("🦀"), "$f09fa680$");
    assert_eq!(escape_path("\0"), "$00$");
    assert_eq!(escape_path("\u{7f}"), "$7f$");
    assert_eq!(escape_path("각"), "각");
    assert_eq!(escape_path("\u{ABFF}"), "$eaafbf$");
    assert_eq!(escape_path("\u{D7A4}"), "$ed9ea4$");
}

#[test]
fn escaped_names_hold_only_safe_characters() {
    for name in ["plain", "with space", "sl/ash", "qu\"ote", "back\\slash", "🦀 emoji", "한글",
        "tab\there", "dollar$sign", "..", "a\nb", "ÀÿĀ", "\u{10FFFF}"]
    {
        for c in escape_path(name).chars() {
            let plain = c.is_ascii_alphanumeric() || ('가'..='힣').contains(&c) || c == '_'
                || c == '-' || c == '.';
            assert!(plain || c == '$');
        }
    }
}

#[test]
fn different_names_get_different_escaped_names() {
    let names = ["a", "A", "a b", "a$20$b", "a/b", "a\"b", "a'b", "a b ", " a b", "🦀", "🦁",
        "a🦀", "$", "$$", "$24$", "", " ", "  ", "é", "e\u{301}", "/", "\\", "20", "$20", "한", "글"];
    for (i, a) in names.iter().enumerate() {
        for (j, b) in names.iter().enumerate() {
            if i != j {
                assert_ne!(escape_path(a), escape_path(b));
            }
        }
    }
}

#[test]
fn select_statement_quotes_columns_and_table() {
    assert_eq!(table("t", &["x", "y"]).record_stmt(), "SELECT \"x\", \"y\" FROM 't';");
    assert_eq!(table("t", &["x"]).record_stmt(), "SELECT \"x\" FROM 't';");
    assert_eq!(table("t", &[]).record_stmt(), "SELECT  FROM 't';");
    assert_eq!(
        table("it's", &["a \"b\"", "c'd"]).record_stmt(),
        "SELECT \"a \"\"b\"\"\", \"c'd\" FROM 'it''s';"
    );
}

#[test]
fn insert_statement_numbers_its_placeholders() {
    assert_eq!(
        table("t", &["x", "y"]).insert_stmt(),
        "INSERT INTO 't' ('x', 'y') VALUES (?1, ?2)"
    );
    assert_eq!(table("t", &["x"]).insert_stmt(), "INSERT INTO 't' ('x') VALUES (?1)");
    assert_eq!(table("t", &[]).insert_stmt(), "INSERT INTO 't' () VALUES ()");
    assert_eq!(
        table("it's", &["a \"b\"", "c'd"]).insert_stmt(),
        "INSERT INTO 'it''s' ('a \"b\"', 'c''d') VALUES (?1, ?2)"
    );
    let many: Vec<String> = (0..12).map(|i| format!("c{i}")).collect();
    let names: Vec<&str> = many.iter().map(|s| s.as_str()).collect();
    assert!(table("t", &names).insert_stmt().ends_with("?9, ?10, ?11, ?12)"));
}
