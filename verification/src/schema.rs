//! The schema extractor: from the rows of the database's catalog to the
//! tables and views of a [`DB`].
//!
//! The caller runs the three catalog queries and hands over their rows. What
//! is done with them is decided here.

use vstd::prelude::*;
use vstd::utf8::encode_utf8;
use crate::db::{
    lemma_name_orders, name_le, table_models, table_name_le, view_models, view_name_le, SqlView,
    SqlViewModel, DB, DBModel,
};
use crate::error::{message, Error, ErrorModel};
use crate::order::{
    lemma_filter_first, lemma_filter_none, lemma_filter_sorted, lemma_filter_take,
    lemma_filter_within, lemma_stable_sort_maps, lemma_stable_sort_permutes,
    lemma_stable_sort_sorted, rank_order, sort_by_rank, stable_sort, Ranked,
};
use crate::table::{escape, escape_path, joined, texts, Table, TableModel};
use crate::text::{
    bytes_le, decimal, lemma_lex_le_total, lemma_lex_le_transitive, push_decimal, same_text,
};

verus! {

/// One row of the table list: an object's name and how the engine
/// classifies it.
#[derive(Clone, Debug, PartialEq, Eq)]
pub struct TableEntry {
    pub name: String,
    pub kind: String,
}

pub struct TableEntryModel {
    pub name: Seq<char>,
    pub kind: Seq<char>,
}

impl View for TableEntry {
    type V = TableEntryModel;

    open spec fn view(&self) -> TableEntryModel {
        TableEntryModel { name: self.name@, kind: self.kind@ }
    }
}

/// One row of a table's column list: the column's name, and its place in the
/// primary key, counted from one, or zero where it is no part of it.
#[derive(Clone, Debug, PartialEq, Eq)]
pub struct ColumnEntry {
    pub name: String,
    pub pk: u64,
}

pub struct ColumnEntryModel {
    pub name: Seq<char>,
    pub pk: u64,
}

impl View for ColumnEntry {
    type V = ColumnEntryModel;

    open spec fn view(&self) -> ColumnEntryModel {
        ColumnEntryModel { name: self.name@, pk: self.pk }
    }
}

/// The tables to extract, and the shadow tables to pass over.
#[derive(Clone, Debug, PartialEq, Eq)]
pub struct Candidates {
    pub tables: Vec<String>,
    pub shadows: Vec<String>,
}

pub struct CandidatesModel {
    pub tables: Seq<Seq<char>>,
    pub shadows: Seq<Seq<char>>,
}

impl View for Candidates {
    type V = CandidatesModel;

    open spec fn view(&self) -> CandidatesModel {
        CandidatesModel { tables: texts(self.tables@), shadows: texts(self.shadows@) }
    }
}

pub open spec fn table_entry_models(v: Seq<TableEntry>) -> Seq<TableEntryModel> {
    v.map_values(|e: TableEntry| e@)
}

pub open spec fn column_models(v: Seq<ColumnEntry>) -> Seq<ColumnEntryModel> {
    v.map_values(|c: ColumnEntry| c@)
}

/// Ordinary and virtual tables are extracted.
pub open spec fn is_candidate_kind(kind: Seq<char>) -> bool {
    kind == "table"@ || kind == "virtual"@
}

pub open spec fn is_shadow_kind(kind: Seq<char>) -> bool {
    kind == "shadow"@
}

/// The names of the listed objects whose kind is picked, in the order of the
/// list.
pub open spec fn names_of_kind(
    list: Seq<TableEntryModel>,
    pick: spec_fn(Seq<char>) -> bool,
) -> Seq<Seq<char>>
    decreases list.len(),
{
    if list.len() == 0 {
        Seq::empty()
    } else {
        let front = names_of_kind(list.drop_last(), pick);
        if pick(list.last().kind) {
            front.push(list.last().name)
        } else {
            front
        }
    }
}

/// The kind of the first listed object that is neither a table, nor virtual,
/// nor a shadow table.
pub open spec fn first_unknown_kind(list: Seq<TableEntryModel>) -> Option<Seq<char>>
    decreases list.len(),
{
    if list.len() == 0 {
        None
    } else {
        match first_unknown_kind(list.drop_last()) {
            Some(kind) => Some(kind),
            None => if is_candidate_kind(list.last().kind) || is_shadow_kind(list.last().kind) {
                None
            } else {
                Some(list.last().kind)
            },
        }
    }
}

/// What the table list yields: the candidates, or the first kind of object
/// that is not known.
pub open spec fn candidates_of(list: Seq<TableEntryModel>) -> Result<CandidatesModel, ErrorModel> {
    match first_unknown_kind(list) {
        Some(kind) => Err(ErrorModel::EdgeCase("A type of table is `"@ + kind + "`."@)),
        None => Ok(
            CandidatesModel {
                tables: names_of_kind(list, |k: Seq<char>| is_candidate_kind(k)),
                shadows: names_of_kind(list, |k: Seq<char>| is_shadow_kind(k)),
            },
        ),
    }
}

/// Sorts the objects of the table list into tables to extract and shadow
/// tables to pass over. An object of any other kind is an edge case.
pub fn candidate_tables(list: &Vec<TableEntry>) -> (r: Result<Candidates, Error>)
    ensures
        r matches Ok(c) ==> candidates_of(table_entry_models(list@)) == Ok::<
            CandidatesModel,
            ErrorModel,
        >(c@),
        r matches Err(e) ==> candidates_of(table_entry_models(list@)) == Err::<
            CandidatesModel,
            ErrorModel,
        >(e@),
{
    let ghost models = table_entry_models(list@);
    let ghost pick_table = |k: Seq<char>| is_candidate_kind(k);
    let ghost pick_shadow = |k: Seq<char>| is_shadow_kind(k);
    let mut tables: Vec<String> = Vec::new();
    let mut shadows: Vec<String> = Vec::new();
    let mut i: usize = 0;
    while i < list.len()
        invariant
            i <= list.len(),
            models == table_entry_models(list@),
            pick_table == |k: Seq<char>| is_candidate_kind(k),
            pick_shadow == |k: Seq<char>| is_shadow_kind(k),
            first_unknown_kind(models.take(i as int)) is None,
            texts(tables@) == names_of_kind(models.take(i as int), pick_table),
            texts(shadows@) == names_of_kind(models.take(i as int), pick_shadow),
        decreases list.len() - i,
    {
        let entry = &list[i];
        proof {
            assert(models.take(i + 1).drop_last() =~= models.take(i as int));
            assert(models.take(i + 1).last() == entry@);
        }
        let kind = entry.kind.as_str();
        if same_text(kind, "table") || same_text(kind, "virtual") {
            let ghost before = tables@;
            tables.push(entry.name.clone());
            proof {
                reveal_strlit("table");
                reveal_strlit("virtual");
                reveal_strlit("shadow");
                assert("table"@.len() == 5 && "virtual"@.len() == 7 && "shadow"@.len() == 6);
                assert(!is_shadow_kind(entry.kind@));
                assert(texts(tables@) =~= texts(before).push(entry.name@));
            }
        } else if same_text(kind, "shadow") {
            let ghost before = shadows@;
            shadows.push(entry.name.clone());
            assert(texts(shadows@) =~= texts(before).push(entry.name@));
        } else {
            proof {
                lemma_first_unknown_kind_stays(models, i as int);
            }
            return Err(Error::EdgeCase(message("A type of table is `", kind, "`.")));
        }
        i = i + 1;
    }
    assert(models.take(list.len() as int) =~= models);
    Ok(Candidates { tables, shadows })
}

/// Once an unknown kind is found, it stays the first whatever follows.
proof fn lemma_first_unknown_kind_stays(list: Seq<TableEntryModel>, i: int)
    requires
        0 <= i < list.len(),
        first_unknown_kind(list.take(i + 1)) is Some,
    ensures
        first_unknown_kind(list) == first_unknown_kind(list.take(i + 1)),
    decreases list.len() - i,
{
    if i + 1 < list.len() {
        assert(list.take(i + 2).drop_last() =~= list.take(i + 1));
        lemma_first_unknown_kind_stays(list, i + 1);
    } else {
        assert(list.take(i + 1) =~= list);
    }
}

/// The names of the columns, in declaration order.
pub open spec fn column_names(columns: Seq<ColumnEntryModel>) -> Seq<Seq<char>> {
    columns.map_values(|c: ColumnEntryModel| c.name)
}

/// The first column that is part of the primary key.
pub open spec fn first_key(columns: Seq<ColumnEntryModel>) -> Option<Seq<char>>
    decreases columns.len(),
{
    if columns.len() == 0 {
        None
    } else {
        match first_key(columns.drop_last()) {
            Some(name) => Some(name),
            None => if columns.last().pk != 0 {
                Some(columns.last().name)
            } else {
                None
            },
        }
    }
}

/// A table as its column list describes it, before any SQL is known of it.
pub open spec fn candidate_table(name: Seq<char>, columns: Seq<ColumnEntryModel>) -> TableModel {
    TableModel {
        escaped_name: escape(name),
        name,
        create_table_sql: Seq::empty(),
        create_index_sql: Seq::empty(),
        create_trigger_sql: Seq::empty(),
        columns: column_names(columns),
        primary_key: first_key(columns),
    }
}

/// The key that is found is the name of a column.
pub proof fn lemma_first_key_is_column(columns: Seq<ColumnEntryModel>)
    ensures
        first_key(columns) matches Some(name) ==> column_names(columns).contains(name),
    decreases columns.len(),
{
    if columns.len() > 0 {
        let front = columns.drop_last();
        lemma_first_key_is_column(front);
        match first_key(front) {
            Some(name) => {
                let i = choose|i: int| 0 <= i < front.len() && column_names(front)[i] == name;
                assert(column_names(columns)[i] == name);
            },
            None => {
                if columns.last().pk != 0 {
                    assert(column_names(columns)[columns.len() - 1] == columns.last().name);
                }
            },
        }
    }
}

/// Describes a table from its name and its column list: the columns in
/// declaration order, and as primary key the first column that is part of
/// one. The SQL of the table is filled in by [`build_schema`].
pub fn table_of(name: &str, columns: &Vec<ColumnEntry>) -> (t: Table)
    ensures
        t@ == candidate_table(name@, column_models(columns@)),
        t@.wf(),
{
    let ghost models = column_models(columns@);
    let mut names: Vec<String> = Vec::new();
    let mut key: Option<String> = None;
    let mut i: usize = 0;
    while i < columns.len()
        invariant
            i <= columns.len(),
            models == column_models(columns@),
            texts(names@) == column_names(models.take(i as int)),
            match key {
                Some(k) => first_key(models.take(i as int)) == Some(k@),
                None => first_key(models.take(i as int)) is None,
            },
        decreases columns.len() - i,
    {
        let column = &columns[i];
        proof {
            assert(models.take(i + 1).drop_last() =~= models.take(i as int));
            assert(models.take(i + 1).last() == column@);
        }
        if key.is_none() && column.pk != 0 {
            key = Some(column.name.clone());
        }
        let ghost before = names@;
        names.push(column.name.clone());
        proof {
            assert(texts(names@) =~= texts(before).push(column.name@));
            assert(column_names(models.take(i + 1)) =~= column_names(models.take(i as int)).push(
                column@.name,
            ));
        }
        i = i + 1;
    }
    proof {
        assert(models.take(columns.len() as int) =~= models);
        lemma_first_key_is_column(models);
    }
    let t = Table {
        escaped_name: escape_path(name),
        name: String::from_str(name),
        create_table_sql: String::new(),
        create_index_sql: String::new(),
        create_trigger_sql: String::new(),
        columns: names,
        primary_key: key,
    };
    assert(t@.columns =~= column_names(models));
    t
}

/// One row of the schema catalog: an object's kind and name, the table that
/// owns it, and the SQL that creates it, where the engine keeps any.
#[derive(Clone, Debug, PartialEq, Eq)]
pub struct SchemaEntry {
    pub kind: String,
    pub name: String,
    pub table_name: String,
    pub sql: Option<String>,
}

pub struct SchemaEntryModel {
    pub kind: Seq<char>,
    pub name: Seq<char>,
    pub table_name: Seq<char>,
    pub sql: Option<Seq<char>>,
}

impl View for SchemaEntry {
    type V = SchemaEntryModel;

    open spec fn view(&self) -> SchemaEntryModel {
        SchemaEntryModel {
            kind: self.kind@,
            name: self.name@,
            table_name: self.table_name@,
            sql: match self.sql {
                Some(sql) => Some(sql@),
                None => None,
            },
        }
    }
}

pub open spec fn schema_entry_models(v: Seq<SchemaEntry>) -> Seq<SchemaEntryModel> {
    v.map_values(|e: SchemaEntry| e@)
}

impl Ranked for SchemaEntry {
    open spec fn rank_le(&self, other: &Self) -> bool {
        name_le(self.name@, other.name@)
    }

    fn precedes(&self, other: &Self) -> (r: bool) {
        bytes_le(self.name.as_str().as_bytes(), other.name.as_str().as_bytes())
    }

    proof fn lemma_rank_total(a: &Self, b: &Self) {
        lemma_lex_le_total(encode_utf8(a.name@), encode_utf8(b.name@));
    }

    proof fn lemma_rank_transitive(a: &Self, b: &Self, c: &Self) {
        lemma_lex_le_transitive(encode_utf8(a.name@), encode_utf8(b.name@), encode_utf8(c.name@));
    }
}

pub open spec fn entry_name_le() -> spec_fn(SchemaEntryModel, SchemaEntryModel) -> bool {
    |a: SchemaEntryModel, b: SchemaEntryModel| name_le(a.name, b.name)
}

/// Tables, indexes and triggers belong to a table.
pub open spec fn is_owned_kind(kind: Seq<char>) -> bool {
    kind == "table"@ || kind == "index"@ || kind == "trigger"@
}

pub open spec fn is_view_kind(kind: Seq<char>) -> bool {
    kind == "view"@
}

/// An entry counts where it has SQL and is not owned by a shadow table.
pub open spec fn is_relevant(e: SchemaEntryModel, shadows: Seq<Seq<char>>) -> bool {
    e.sql is Some && !shadows.contains(e.table_name)
}

/// The statement closed by a semicolon: one is added where none ends it.
pub open spec fn terminated(sql: Seq<char>) -> Seq<char> {
    if sql.len() > 0 && sql.last() == ';' {
        sql
    } else {
        sql.push(';')
    }
}

/// The kind of the first entry that counts and is neither owned by a table
/// nor a view.
pub open spec fn first_unknown_entry(
    entries: Seq<SchemaEntryModel>,
    shadows: Seq<Seq<char>>,
) -> Option<Seq<char>>
    decreases entries.len(),
{
    if entries.len() == 0 {
        None
    } else {
        match first_unknown_entry(entries.drop_last(), shadows) {
            Some(kind) => Some(kind),
            None => {
                let e = entries.last();
                if is_relevant(e, shadows) && !is_owned_kind(e.kind) && !is_view_kind(e.kind) {
                    Some(e.kind)
                } else {
                    None
                }
            },
        }
    }
}

/// The entries that belong to tables, in catalog order.
pub open spec fn owned_of(
    entries: Seq<SchemaEntryModel>,
    shadows: Seq<Seq<char>>,
) -> Seq<SchemaEntryModel> {
    entries.filter(|e: SchemaEntryModel| is_relevant(e, shadows) && is_owned_kind(e.kind))
}

pub open spec fn view_of(e: SchemaEntryModel) -> SqlViewModel {
    SqlViewModel { name: e.name, create_view_sql: terminated(e.sql->0) }
}

/// The views, in catalog order.
pub open spec fn views_of(
    entries: Seq<SchemaEntryModel>,
    shadows: Seq<Seq<char>>,
) -> Seq<SqlViewModel> {
    entries.filter(
        |e: SchemaEntryModel| is_relevant(e, shadows) && is_view_kind(e.kind),
    ).map_values(|e: SchemaEntryModel| view_of(e))
}

/// Two of the tables bear one name.
pub open spec fn names_collide(tables: Seq<TableModel>) -> bool {
    exists|i: int, j: int| 0 <= i < j < tables.len() && tables[i].name == tables[j].name
}

pub open spec fn has_table(tables: Seq<TableModel>, name: Seq<char>) -> bool {
    exists|i: int| 0 <= i < tables.len() && tables[i].name == name
}

/// How many `CREATE TABLE` statements the table of that name owns.
pub open spec fn table_statements(owned: Seq<SchemaEntryModel>, name: Seq<char>) -> nat {
    owned.filter(|e: SchemaEntryModel| e.table_name == name && e.kind == "table"@).len()
}

/// What is wrong with the entries that the table of that name owns: there is
/// no such table, or it has not exactly one `CREATE TABLE` statement.
pub open spec fn group_fault(
    owned: Seq<SchemaEntryModel>,
    tables: Seq<TableModel>,
    name: Seq<char>,
) -> Option<ErrorModel> {
    if !has_table(tables, name) {
        Some(
            ErrorModel::EdgeCase(
                "There's a schema for table "@ + name + ", but there's no such table."@,
            ),
        )
    } else if table_statements(owned, name) != 1 {
        Some(
            ErrorModel::EdgeCase(
                "Expected exactly 1 `CREATE TABLE`, but found "@ + decimal(
                    table_statements(owned, name),
                ) + " in "@ + name,
            ),
        )
    } else {
        None
    }
}

/// The fault of the first of the first `upto` owned entries whose table has
/// one.
pub open spec fn first_fault(
    owned: Seq<SchemaEntryModel>,
    tables: Seq<TableModel>,
    upto: int,
) -> Option<ErrorModel>
    decreases upto,
{
    if upto <= 0 {
        None
    } else {
        match first_fault(owned, tables, upto - 1) {
            Some(e) => Some(e),
            None => group_fault(owned, tables, owned[upto - 1].table_name),
        }
    }
}

/// The entries that the table of that name owns, in ascending order of
/// object name.
pub open spec fn group_of(owned: Seq<SchemaEntryModel>, name: Seq<char>) -> Seq<SchemaEntryModel> {
    stable_sort(owned.filter(|e: SchemaEntryModel| e.table_name == name), entry_name_le())
}

pub open spec fn of_kind(group: Seq<SchemaEntryModel>, kind: Seq<char>) -> Seq<SchemaEntryModel> {
    group.filter(|e: SchemaEntryModel| e.kind == kind)
}

/// The statements of one kind, each closed by a semicolon, with a blank line
/// between two.
pub open spec fn statements(group: Seq<SchemaEntryModel>, kind: Seq<char>) -> Seq<char> {
    joined(of_kind(group, kind).map_values(|e: SchemaEntryModel| terminated(e.sql->0)), "\n\n"@)
}

/// The `CREATE TABLE` statement of the group as stored, or nothing where the
/// group has none.
pub open spec fn create_table_of(group: Seq<SchemaEntryModel>) -> Seq<char> {
    let found = of_kind(group, "table"@);
    if found.len() == 0 {
        Seq::empty()
    } else {
        found[0].sql->0
    }
}

/// The table with the SQL that it owns.
pub open spec fn filled(t: TableModel, owned: Seq<SchemaEntryModel>) -> TableModel {
    let group = group_of(owned, t.name);
    TableModel {
        create_table_sql: create_table_of(group),
        create_index_sql: statements(group, "index"@),
        create_trigger_sql: statements(group, "trigger"@),
        ..t
    }
}

/// Whether the table belongs in the schema: it has a `CREATE TABLE`
/// statement, and it is not the engine's sequence counter, which is known by
/// its name and its two columns.
pub open spec fn is_kept(t: TableModel) -> bool {
    &&& t.create_table_sql.len() > 0
    &&& !(t.name == "sqlite_sequence"@ && t.columns == seq!["name"@, "seq"@])
}

/// The schema that the catalog rows describe, or what stands in its way.
///
/// A name borne by two tables comes first, then the first entry of unknown
/// kind, then the first owned entry whose table is missing or has not exactly
/// one `CREATE TABLE` statement. Otherwise the tables are filled with their
/// SQL, put in order of name, and kept where they belong in the schema; the
/// views are put in order of name.
pub open spec fn schema_of(
    tables: Seq<TableModel>,
    shadows: Seq<Seq<char>>,
    entries: Seq<SchemaEntryModel>,
) -> Result<DBModel, ErrorModel> {
    let owned = owned_of(entries, shadows);
    if names_collide(tables) {
        Err(ErrorModel::EdgeCase("table name collision"@))
    } else if first_unknown_entry(entries, shadows) is Some {
        Err(
            ErrorModel::EdgeCase(
                "A type of a create script is `"@ + first_unknown_entry(entries, shadows)->0
                    + "`."@,
            ),
        )
    } else if first_fault(owned, tables, owned.len() as int) is Some {
        Err(first_fault(owned, tables, owned.len() as int)->0)
    } else {
        Ok(
            DBModel {
                tables: stable_sort(
                    tables.map_values(|t: TableModel| filled(t, owned)),
                    table_name_le(),
                ).filter(|t: TableModel| is_kept(t)),
                views: stable_sort(views_of(entries, shadows), view_name_le()),
            },
        )
    }
}

/// The three kinds of owned entries and the kind of views are four
/// different words.
proof fn lemma_kinds_differ()
    ensures
        "table"@ != "index"@,
        "table"@ != "trigger"@,
        "index"@ != "trigger"@,
        !is_owned_kind("view"@),
{
    reveal_strlit("table");
    reveal_strlit("index");
    reveal_strlit("trigger");
    reveal_strlit("view");
    assert("table"@.len() == 5 && "index"@.len() == 5 && "trigger"@.len() == 7 && "view"@.len()
        == 4);
    assert("table"@[0] == 't' && "index"@[0] == 'i');
}

fn contains_text(list: &Vec<String>, name: &str) -> (r: bool)
    ensures
        r == texts(list@).contains(name@),
{
    let mut i: usize = 0;
    while i < list.len()
        invariant
            i <= list.len(),
            forall|k: int| 0 <= k < i ==> texts(list@)[k] != name@,
        decreases list.len() - i,
    {
        if same_text(list[i].as_str(), name) {
            assert(texts(list@)[i as int] == name@);
            return true;
        }
        i = i + 1;
    }
    false
}

fn knows_table(tables: &Vec<Table>, name: &str) -> (r: bool)
    ensures
        r == has_table(table_models(tables@), name@),
{
    let mut i: usize = 0;
    while i < tables.len()
        invariant
            i <= tables.len(),
            forall|k: int| 0 <= k < i ==> table_models(tables@)[k].name != name@,
        decreases tables.len() - i,
    {
        if same_text(tables[i].name.as_str(), name) {
            assert(table_models(tables@)[i as int].name == name@);
            return true;
        }
        i = i + 1;
    }
    false
}

fn has_collision(tables: &Vec<Table>) -> (r: bool)
    ensures
        r == names_collide(table_models(tables@)),
{
    let ghost models = table_models(tables@);
    let mut j: usize = 0;
    while j < tables.len()
        invariant
            j <= tables.len(),
            models == table_models(tables@),
            forall|a: int, b: int| 0 <= a < b < j ==> models[a].name != models[b].name,
        decreases tables.len() - j,
    {
        let mut i: usize = 0;
        while i < j
            invariant
                i <= j < tables.len(),
                models == table_models(tables@),
                forall|a: int| 0 <= a < i ==> models[a].name != models[j as int].name,
            decreases j - i,
        {
            if same_text(tables[i].name.as_str(), tables[j].name.as_str()) {
                assert(models[i as int].name == models[j as int].name);
                return true;
            }
            i = i + 1;
        }
        j = j + 1;
    }
    false
}

fn copy_entry(e: &SchemaEntry) -> (r: SchemaEntry)
    ensures
        r@ == e@,
{
    SchemaEntry {
        kind: e.kind.clone(),
        name: e.name.clone(),
        table_name: e.table_name.clone(),
        sql: match &e.sql {
            Some(sql) => Some(sql.clone()),
            None => None,
        },
    }
}

/// The statement with a semicolon at its end.
fn close_statement(sql: &str) -> (r: String)
    ensures
        r@ == terminated(sql@),
{
    let mut out = String::new();
    let mut closed = false;
    for c in it: sql.chars()
        invariant
            it.seq() == sql@,
            out@ == sql@.take(it.index()),
            closed == (out@.len() > 0 && out@.last() == ';'),
    {
        let ghost i = it.index();
        out.push(c);
        closed = c == ';';
        assert(out@ =~= sql@.take(i + 1));
    }
    assert(sql@.take(sql@.len() as int) =~= sql@);
    if !closed {
        out.push(';');
    }
    out
}

/// Once an unknown kind is found, it stays the first whatever follows.
proof fn lemma_first_unknown_entry_stays(
    entries: Seq<SchemaEntryModel>,
    shadows: Seq<Seq<char>>,
    i: int,
)
    requires
        0 <= i < entries.len(),
        first_unknown_entry(entries.take(i + 1), shadows) is Some,
    ensures
        first_unknown_entry(entries, shadows) == first_unknown_entry(entries.take(i + 1), shadows),
    decreases entries.len() - i,
{
    if i + 1 < entries.len() {
        assert(entries.take(i + 2).drop_last() =~= entries.take(i + 1));
        lemma_first_unknown_entry_stays(entries, shadows, i + 1);
    } else {
        assert(entries.take(i + 1) =~= entries);
    }
}

/// Walks the catalog: parts the views from the entries that tables own, and
/// stops at the first entry of a kind that is not known.
fn scan_entries(entries: &Vec<SchemaEntry>, shadows: &Vec<String>) -> (r: Result<
    (Vec<SqlView>, Vec<SchemaEntry>),
    Error,
>)
    ensures
        match r {
            Ok((views, owned)) => {
                &&& first_unknown_entry(schema_entry_models(entries@), texts(shadows@)) is None
                &&& view_models(views@) == views_of(
                    schema_entry_models(entries@),
                    texts(shadows@),
                )
                &&& schema_entry_models(owned@) == owned_of(
                    schema_entry_models(entries@),
                    texts(shadows@),
                )
            },
            Err(e) => {
                &&& first_unknown_entry(schema_entry_models(entries@), texts(shadows@)) is Some
                &&& e@ == ErrorModel::EdgeCase(
                    "A type of a create script is `"@ + first_unknown_entry(
                        schema_entry_models(entries@),
                        texts(shadows@),
                    )->0 + "`."@,
                )
            },
        },
{
    let ghost models = schema_entry_models(entries@);
    let ghost hidden = texts(shadows@);
    let ghost is_view = |e: SchemaEntryModel| is_relevant(e, hidden) && is_view_kind(e.kind);
    let ghost is_owned = |e: SchemaEntryModel| is_relevant(e, hidden) && is_owned_kind(e.kind);
    let ghost to_view = |e: SchemaEntryModel| view_of(e);
    let mut views: Vec<SqlView> = Vec::new();
    let mut owned: Vec<SchemaEntry> = Vec::new();
    let mut i: usize = 0;
    proof {
        lemma_kinds_differ();
        reveal(Seq::filter);
        assert(models.take(0).filter(is_view).map_values(to_view) =~= Seq::empty());
    }
    while i < entries.len()
        invariant
            i <= entries.len(),
            models == schema_entry_models(entries@),
            hidden == texts(shadows@),
            is_view == |e: SchemaEntryModel| is_relevant(e, hidden) && is_view_kind(e.kind),
            is_owned == |e: SchemaEntryModel| is_relevant(e, hidden) && is_owned_kind(e.kind),
            to_view == |e: SchemaEntryModel| view_of(e),
            !is_owned_kind("view"@),
            first_unknown_entry(models.take(i as int), hidden) is None,
            view_models(views@) == models.take(i as int).filter(is_view).map_values(to_view),
            schema_entry_models(owned@) == models.take(i as int).filter(is_owned),
        decreases entries.len() - i,
    {
        let entry = &entries[i];
        proof {
            assert(models.take(i + 1).drop_last() =~= models.take(i as int));
            assert(models.take(i + 1).last() == entry@);
            lemma_filter_take(models, is_view, i as int);
            lemma_filter_take(models, is_owned, i as int);
        }
        match &entry.sql {
            None => {},
            Some(sql) => {
                if !contains_text(shadows, entry.table_name.as_str()) {
                    let kind = entry.kind.as_str();
                    if same_text(kind, "table") || same_text(kind, "index") || same_text(
                        kind,
                        "trigger",
                    ) {
                        let ghost before = owned@;
                        owned.push(copy_entry(entry));
                        assert(schema_entry_models(owned@) =~= schema_entry_models(before).push(
                            entry@,
                        ));
                    } else if same_text(kind, "view") {
                        let ghost before = views@;
                        let ghost picked = models.take(i as int).filter(is_view);
                        views.push(
                            SqlView {
                                name: entry.name.clone(),
                                create_view_sql: close_statement(sql.as_str()),
                            },
                        );
                        assert(view_models(views@) =~= view_models(before).push(view_of(entry@)));
                        assert(picked.push(entry@).map_values(to_view) =~= picked.map_values(
                            to_view,
                        ).push(view_of(entry@)));
                    } else {
                        proof {
                            lemma_first_unknown_entry_stays(models, hidden, i as int);
                        }
                        return Err(
                            Error::EdgeCase(message("A type of a create script is `", kind, "`.")),
                        );
                    }
                }
            },
        }
        i = i + 1;
    }
    assert(models.take(entries.len() as int) =~= models);
    Ok((views, owned))
}

fn count_table_statements(owned: &Vec<SchemaEntry>, name: &str) -> (n: usize)
    ensures
        n == table_statements(schema_entry_models(owned@), name@),
{
    let ghost models = schema_entry_models(owned@);
    let ghost counts = |e: SchemaEntryModel| e.table_name == name@ && e.kind == "table"@;
    let mut n: usize = 0;
    let mut i: usize = 0;
    proof {
        lemma_filter_none(models, counts);
    }
    while i < owned.len()
        invariant
            i <= owned.len(),
            n <= i,
            models == schema_entry_models(owned@),
            counts == |e: SchemaEntryModel| e.table_name == name@ && e.kind == "table"@,
            n == models.take(i as int).filter(counts).len(),
        decreases owned.len() - i,
    {
        proof {
            lemma_filter_take(models, counts, i as int);
        }
        if same_text(owned[i].table_name.as_str(), name) && same_text(
            owned[i].kind.as_str(),
            "table",
        ) {
            n = n + 1;
        }
        i = i + 1;
    }
    assert(models.take(owned.len() as int) =~= models);
    n
}

/// Once a fault is found, it stays the first however far the search goes.
proof fn lemma_first_fault_stays(
    owned: Seq<SchemaEntryModel>,
    tables: Seq<TableModel>,
    i: int,
    upto: int,
)
    requires
        0 < i <= upto,
        first_fault(owned, tables, i) is Some,
    ensures
        first_fault(owned, tables, upto) == first_fault(owned, tables, i),
    decreases upto - i,
{
    if i < upto {
        lemma_first_fault_stays(owned, tables, i, upto - 1);
    }
}

/// Looks at the table of every owned entry, and stops at the first one that
/// is missing or has not exactly one `CREATE TABLE` statement.
fn check_groups(owned: &Vec<SchemaEntry>, tables: &Vec<Table>) -> (r: Result<(), Error>)
    ensures
        match r {
            Ok(_) => first_fault(
                schema_entry_models(owned@),
                table_models(tables@),
                owned@.len() as int,
            ) is None,
            Err(e) => first_fault(
                schema_entry_models(owned@),
                table_models(tables@),
                owned@.len() as int,
            ) == Some(e@),
        },
{
    let ghost models = schema_entry_models(owned@);
    let ghost known = table_models(tables@);
    let mut i: usize = 0;
    while i < owned.len()
        invariant
            i <= owned.len(),
            models == schema_entry_models(owned@),
            known == table_models(tables@),
            first_fault(models, known, i as int) is None,
        decreases owned.len() - i,
    {
        let name = owned[i].table_name.as_str();
        assert(models[i as int].table_name == name@);
        if !knows_table(tables, name) {
            proof {
                lemma_first_fault_stays(models, known, i + 1, owned.len() as int);
            }
            return Err(
                Error::EdgeCase(
                    message("There's a schema for table ", name, ", but there's no such table."),
                ),
            );
        }
        let n = count_table_statements(owned, name);
        if n != 1 {
            proof {
                lemma_first_fault_stays(models, known, i + 1, owned.len() as int);
            }
            let mut text = String::from_str("Expected exactly 1 `CREATE TABLE`, but found ");
            push_decimal(&mut text, n as u64);
            text.append(" in ");
            text.append(name);
            return Err(Error::EdgeCase(text));
        }
        i = i + 1;
    }
    Ok(())
}

/// The entries that the table of that name owns, in order of object name.
fn collect_group(owned: &Vec<SchemaEntry>, name: &str) -> (group: Vec<SchemaEntry>)
    ensures
        schema_entry_models(group@) == group_of(schema_entry_models(owned@), name@),
{
    let ghost models = schema_entry_models(owned@);
    let ghost belongs = |e: SchemaEntryModel| e.table_name == name@;
    let mut group: Vec<SchemaEntry> = Vec::new();
    let mut i: usize = 0;
    proof {
        lemma_filter_none(models, belongs);
    }
    while i < owned.len()
        invariant
            i <= owned.len(),
            models == schema_entry_models(owned@),
            belongs == |e: SchemaEntryModel| e.table_name == name@,
            schema_entry_models(group@) == models.take(i as int).filter(belongs),
        decreases owned.len() - i,
    {
        proof {
            lemma_filter_take(models, belongs, i as int);
        }
        if same_text(owned[i].table_name.as_str(), name) {
            let ghost before = group@;
            group.push(copy_entry(&owned[i]));
            assert(schema_entry_models(group@) =~= schema_entry_models(before).push(
                models[i as int],
            ));
        }
        i = i + 1;
    }
    let ghost unsorted = group@;
    sort_by_rank(&mut group);
    proof {
        assert(models.take(owned.len() as int) =~= models);
        lemma_stable_sort_maps(
            unsorted,
            |e: SchemaEntry| e@,
            rank_order::<SchemaEntry>(),
            entry_name_le(),
        );
    }
    group
}

/// The group's statements of one kind, closed and set apart by blank lines.
fn join_statements(group: &Vec<SchemaEntry>, kind: &str) -> (r: String)
    requires
        forall|k: int| 0 <= k < group@.len() ==> group@[k].sql is Some,
    ensures
        r@ == statements(schema_entry_models(group@), kind@),
{
    let ghost models = schema_entry_models(group@);
    let ghost picks = |e: SchemaEntryModel| e.kind == kind@;
    let ghost close = |e: SchemaEntryModel| terminated(e.sql->0);
    let mut out = String::new();
    let mut some = false;
    let mut i: usize = 0;
    proof {
        lemma_filter_none(models, picks);
        assert(models.take(0).filter(picks).map_values(close) =~= Seq::empty());
    }
    while i < group.len()
        invariant
            i <= group.len(),
            forall|k: int| 0 <= k < group@.len() ==> group@[k].sql is Some,
            models == schema_entry_models(group@),
            picks == |e: SchemaEntryModel| e.kind == kind@,
            close == |e: SchemaEntryModel| terminated(e.sql->0),
            some == (models.take(i as int).filter(picks).len() > 0),
            out@ == joined(models.take(i as int).filter(picks).map_values(close), "\n\n"@),
        decreases group.len() - i,
    {
        proof {
            lemma_filter_take(models, picks, i as int);
        }
        if same_text(group[i].kind.as_str(), kind) {
            let ghost picked = models.take(i as int).filter(picks);
            let ghost parts = picked.map_values(close);
            if some {
                out.append("\n\n");
            }
            match &group[i].sql {
                Some(sql) => {
                    let closed = close_statement(sql.as_str());
                    out.append(closed.as_str());
                },
                None => {},
            }
            some = true;
            proof {
                let more = picked.push(models[i as int]).map_values(close);
                assert(more =~= parts.push(terminated(models[i as int].sql->0)));
                assert(more.drop_last() =~= parts);
            }
        }
        i = i + 1;
    }
    assert(models.take(group.len() as int) =~= models);
    out
}

/// The `CREATE TABLE` statement of the group, as stored.
fn find_create_table(group: &Vec<SchemaEntry>) -> (r: String)
    requires
        forall|k: int| 0 <= k < group@.len() ==> group@[k].sql is Some,
    ensures
        r@ == create_table_of(schema_entry_models(group@)),
{
    let ghost models = schema_entry_models(group@);
    let ghost picks = |e: SchemaEntryModel| e.kind == "table"@;
    let mut i: usize = 0;
    proof {
        lemma_filter_none(models, picks);
    }
    while i < group.len()
        invariant
            i <= group.len(),
            forall|k: int| 0 <= k < group@.len() ==> group@[k].sql is Some,
            models == schema_entry_models(group@),
            picks == |e: SchemaEntryModel| e.kind == "table"@,
            models.take(i as int).filter(picks).len() == 0,
        decreases group.len() - i,
    {
        proof {
            lemma_filter_take(models, picks, i as int);
        }
        if same_text(group[i].kind.as_str(), "table") {
            proof {
                lemma_filter_first(models, picks, i as int, group.len() as int);
                assert(models.take(group.len() as int) =~= models);
            }
            match &group[i].sql {
                Some(sql) => {
                    return sql.clone();
                },
                None => {
                    return String::new();
                },
            }
        }
        i = i + 1;
    }
    assert(models.take(group.len() as int) =~= models);
    String::new()
}

/// Gives the table the SQL that it owns.
fn fill_table(t: Table, owned: &Vec<SchemaEntry>) -> (r: Table)
    requires
        forall|k: int| 0 <= k < owned@.len() ==> owned@[k].sql is Some,
    ensures
        r@ == filled(t@, schema_entry_models(owned@)),
{
    let group = collect_group(owned, t.name.as_str());
    proof {
        lemma_group_has_sql(schema_entry_models(owned@), t.name@);
        assert forall|k: int| 0 <= k < group@.len() implies group@[k].sql is Some by {
            assert(schema_entry_models(group@)[k].sql is Some);
        }
    }
    let create_table_sql = find_create_table(&group);
    let create_index_sql = join_statements(&group, "index");
    let create_trigger_sql = join_statements(&group, "trigger");
    Table {
        escaped_name: t.escaped_name,
        name: t.name,
        create_table_sql,
        create_index_sql,
        create_trigger_sql,
        columns: t.columns,
        primary_key: t.primary_key,
    }
}

/// Every entry of a group is an entry of what it was taken from.
proof fn lemma_group_has_sql(owned: Seq<SchemaEntryModel>, name: Seq<char>)
    requires
        forall|k: int| 0 <= k < owned.len() ==> owned[k].sql is Some,
    ensures
        forall|k: int| 0 <= k < group_of(owned, name).len() ==> group_of(owned, name)[k].sql is Some,
{
    let belongs = |e: SchemaEntryModel| e.table_name == name;
    let picked = owned.filter(belongs);
    let group = group_of(owned, name);
    lemma_stable_sort_permutes(picked, entry_name_le());
    assert forall|k: int| 0 <= k < group.len() implies group[k].sql is Some by {
        broadcast use vstd::seq_lib::group_to_multiset_ensures;

        assert(group.contains(group[k]));
        assert(group.to_multiset().count(group[k]) > 0);
        assert(picked.to_multiset().count(group[k]) > 0);
        assert(picked.contains(group[k]));
        lemma_filter_within(owned, belongs);
        assert(owned.contains(group[k]));
    }
}

/// Whether the escaped name of every table belongs to its name, and its
/// primary key to its columns.
pub open spec fn tables_wf(tables: Seq<TableModel>) -> bool {
    forall|i: int| 0 <= i < tables.len() ==> (#[trigger] tables[i]).wf()
}

/// The tables of the schema are the given tables with their SQL: where those
/// were well formed, these are, and every one of them has a statement that
/// creates it.
pub proof fn lemma_schema_tables(
    tables: Seq<TableModel>,
    shadows: Seq<Seq<char>>,
    entries: Seq<SchemaEntryModel>,
)
    requires
        schema_of(tables, shadows, entries) is Ok,
    ensures
        tables_wf(tables) ==> tables_wf(schema_of(tables, shadows, entries)->Ok_0.tables),
        forall|j: int|
            0 <= j < schema_of(tables, shadows, entries)->Ok_0.tables.len() ==> is_kept(
                #[trigger] schema_of(tables, shadows, entries)->Ok_0.tables[j],
            ),
{
    broadcast use vstd::seq_lib::group_to_multiset_ensures;

    let owned = owned_of(entries, shadows);
    let full = tables.map_values(|t: TableModel| filled(t, owned));
    let ordered = stable_sort(full, table_name_le());
    let keep = |t: TableModel| is_kept(t);
    let out = ordered.filter(keep);
    assert(schema_of(tables, shadows, entries)->Ok_0.tables == out);
    lemma_filter_within(ordered, keep);
    lemma_stable_sort_permutes(full, table_name_le());
    assert forall|j: int| 0 <= j < out.len() implies is_kept(#[trigger] out[j]) && (tables_wf(
        tables,
    ) ==> out[j].wf()) by {
        assert(out.contains(out[j]));
        assert(ordered.contains(out[j]));
        assert(ordered.to_multiset().count(out[j]) > 0);
        assert(full.contains(out[j]));
        let k = choose|k: int| 0 <= k < full.len() && full[k] == out[j];
        assert(full[k] == filled(tables[k], owned));
        if tables_wf(tables) {
            assert(tables[k].wf());
        }
    }
}

fn keeps(t: &Table) -> (r: bool)
    ensures
        r == is_kept(t@),
{
    if t.create_table_sql.as_str().is_empty() {
        return false;
    }
    if same_text(t.name.as_str(), "sqlite_sequence") && t.columns.len() == 2 {
        if same_text(t.columns[0].as_str(), "name") && same_text(t.columns[1].as_str(), "seq") {
            assert(t@.columns =~= seq!["name"@, "seq"@]);
            return false;
        }
        assert(t@.columns[0] == t.columns@[0]@ && t@.columns[1] == t.columns@[1]@);
    }
    assert(seq!["name"@, "seq"@].len() == 2);
    true
}

/// Builds the schema from the tables that [`table_of`] described and the
/// rows of the schema catalog.
///
/// Entries without SQL and entries owned by a shadow table are passed over.
/// A view is kept with its statement closed by a semicolon. Every other
/// entry must be a table, an index or a trigger, and goes to the table that
/// owns it: its `CREATE TABLE` statement is stored as it is, its indexes and
/// triggers in order of their names. Tables without a `CREATE TABLE`
/// statement and the engine's sequence counter are left out. Tables and views
/// come out in ascending order of name.
pub fn build_schema(tables: Vec<Table>, shadows: &Vec<String>, entries: &Vec<SchemaEntry>) -> (r:
    Result<DB, Error>)
    ensures
        r matches Ok(db) ==> schema_of(
            table_models(tables@),
            texts(shadows@),
            schema_entry_models(entries@),
        ) == Ok::<DBModel, ErrorModel>(db@) && db@.wf(),
        r matches Ok(db) ==> (tables_wf(table_models(tables@)) ==> tables_wf(db@.tables)),
        r matches Err(e) ==> schema_of(
            table_models(tables@),
            texts(shadows@),
            schema_entry_models(entries@),
        ) == Err::<DBModel, ErrorModel>(e@),
{
    let ghost given = table_models(tables@);
    if has_collision(&tables) {
        return Err(Error::EdgeCase(String::from_str("table name collision")));
    }
    let (views, owned) = match scan_entries(entries, shadows) {
        Ok(parts) => parts,
        Err(e) => {
            return Err(e);
        },
    };
    match check_groups(&owned, &tables) {
        Ok(_) => {},
        Err(e) => {
            return Err(e);
        },
    }
    let ghost statements = schema_entry_models(owned@);
    let ghost fill = |t: TableModel| filled(t, statements);
    proof {
        let all = schema_entry_models(entries@);
        let hidden = texts(shadows@);
        lemma_filter_within(
            all,
            |e: SchemaEntryModel| is_relevant(e, hidden) && is_owned_kind(e.kind),
        );
        assert forall|k: int| 0 <= k < owned@.len() implies owned@[k].sql is Some by {
            assert(statements.contains(statements[k]));
        }
    }
    let mut full: Vec<Table> = Vec::new();
    for t in it: tables
        invariant
            it.seq() == tables@,
            given == table_models(tables@),
            statements == schema_entry_models(owned@),
            fill == |t: TableModel| filled(t, statements),
            forall|k: int| 0 <= k < owned@.len() ==> owned@[k].sql is Some,
            table_models(full@) == given.take(it.index()).map_values(fill),
    {
        let ghost i = it.index();
        let ghost before = full@;
        full.push(fill_table(t, &owned));
        assert(table_models(full@) =~= table_models(before).push(filled(given[i], statements)));
        assert(given.take(i + 1).map_values(fill) =~= given.take(i).map_values(fill).push(
            filled(given[i], statements),
        ));
    }
    let ghost unsorted = full@;
    sort_by_rank(&mut full);
    let ghost ordered = table_models(full@);
    let ghost keep = |t: TableModel| is_kept(t);
    proof {
        assert(given.take(tables@.len() as int) =~= given);
        lemma_stable_sort_maps(
            unsorted,
            |t: Table| t@,
            rank_order::<Table>(),
            table_name_le(),
        );
        lemma_name_orders();
        lemma_stable_sort_sorted(given.map_values(fill), table_name_le());
        lemma_filter_sorted(ordered, keep, table_name_le());
        lemma_filter_none(ordered, keep);
    }
    let mut kept: Vec<Table> = Vec::new();
    for t in it: full
        invariant
            it.seq() == full@,
            ordered == table_models(full@),
            keep == |t: TableModel| is_kept(t),
            table_models(kept@) == ordered.take(it.index()).filter(keep),
    {
        let ghost i = it.index();
        proof {
            lemma_filter_take(ordered, keep, i);
        }
        if keeps(&t) {
            let ghost before = kept@;
            kept.push(t);
            assert(table_models(kept@) =~= table_models(before).push(ordered[i]));
        }
    }
    let mut views = views;
    let ghost unsorted_views = views@;
    sort_by_rank(&mut views);
    proof {
        assert(ordered.take(full@.len() as int) =~= ordered);
        lemma_stable_sort_maps(
            unsorted_views,
            |w: SqlView| w@,
            rank_order::<SqlView>(),
            view_name_le(),
        );
        lemma_stable_sort_sorted(view_models(unsorted_views), view_name_le());
    }
    proof {
        lemma_schema_tables(given, texts(shadows@), schema_entry_models(entries@));
    }
    Ok(DB { tables: kept, views })
}

} // verus!
