//! The schema of a database: its tables and its views.

use vstd::prelude::*;
use vstd::utf8::encode_utf8;
use crate::order::{sorted, total, transitive, Ranked};
use crate::table::{Table, TableModel};
use crate::text::{bytes_le, lemma_lex_le_total, lemma_lex_le_transitive, lex_le};

verus! {

/// A view of the database: its name and the statement that creates it. A
/// view owns no rows.
#[derive(Clone, Debug, PartialEq, Eq)]
pub struct SqlView {
    pub name: String,
    /// The `CREATE VIEW` statement, closed by a semicolon.
    pub create_view_sql: String,
}

/// The mathematical content of a [`SqlView`].
pub struct SqlViewModel {
    pub name: Seq<char>,
    pub create_view_sql: Seq<char>,
}

impl View for SqlView {
    type V = SqlViewModel;

    open spec fn view(&self) -> SqlViewModel {
        SqlViewModel { name: self.name@, create_view_sql: self.create_view_sql@ }
    }
}

/// Tables and views, each kind in ascending order of name.
#[derive(Clone, Debug, PartialEq, Eq)]
pub struct DB {
    pub tables: Vec<Table>,
    pub views: Vec<SqlView>,
}

/// The mathematical content of a [`DB`].
pub struct DBModel {
    pub tables: Seq<TableModel>,
    pub views: Seq<SqlViewModel>,
}

pub open spec fn table_models(v: Seq<Table>) -> Seq<TableModel> {
    v.map_values(|t: Table| t@)
}

pub open spec fn view_models(v: Seq<SqlView>) -> Seq<SqlViewModel> {
    v.map_values(|w: SqlView| w@)
}

impl View for DB {
    type V = DBModel;

    open spec fn view(&self) -> DBModel {
        DBModel { tables: table_models(self.tables@), views: view_models(self.views@) }
    }
}

/// The order of names: that of their UTF-8 bytes.
pub open spec fn name_le(a: Seq<char>, b: Seq<char>) -> bool {
    lex_le(encode_utf8(a), encode_utf8(b))
}

pub open spec fn table_name_le() -> spec_fn(TableModel, TableModel) -> bool {
    |a: TableModel, b: TableModel| name_le(a.name, b.name)
}

pub open spec fn view_name_le() -> spec_fn(SqlViewModel, SqlViewModel) -> bool {
    |a: SqlViewModel, b: SqlViewModel| name_le(a.name, b.name)
}

/// Names are ordered totally, and so are tables and views by their names.
pub proof fn lemma_name_orders()
    ensures
        total(table_name_le()),
        transitive(table_name_le()),
        total(view_name_le()),
        transitive(view_name_le()),
{
    let tle = table_name_le();
    assert forall|a: TableModel, b: TableModel| #[trigger] tle(a, b) || #[trigger] tle(b, a) by {
        lemma_lex_le_total(encode_utf8(a.name), encode_utf8(b.name));
    }
    assert forall|a: TableModel, b: TableModel, c: TableModel| #[trigger]
        tle(a, b) && #[trigger] tle(b, c) implies tle(a, c) by {
        lemma_lex_le_transitive(encode_utf8(a.name), encode_utf8(b.name), encode_utf8(c.name));
    }
    let vle = view_name_le();
    assert forall|a: SqlViewModel, b: SqlViewModel| #[trigger] vle(a, b) || #[trigger] vle(
        b,
        a,
    ) by {
        lemma_lex_le_total(encode_utf8(a.name), encode_utf8(b.name));
    }
    assert forall|a: SqlViewModel, b: SqlViewModel, c: SqlViewModel| #[trigger]
        vle(a, b) && #[trigger] vle(b, c) implies vle(a, c) by {
        lemma_lex_le_transitive(encode_utf8(a.name), encode_utf8(b.name), encode_utf8(c.name));
    }
}

impl DBModel {
    /// Tables and views stand in ascending order of name.
    pub open spec fn wf(self) -> bool {
        &&& sorted(self.tables, table_name_le())
        &&& sorted(self.views, view_name_le())
    }
}

impl Ranked for Table {
    open spec fn rank_le(&self, other: &Self) -> bool {
        name_le(self.name@, other.name@)
    }

    fn precedes(&self, other: &Self) -> (r: bool) {
        bytes_le(self.name.as_str().as_bytes(), other.name.as_str().as_bytes())
    }

    proof fn lemma_rank_total(a: &Self, b: &Self) {
        lemma_lex_le_total(encode_utf8(a.name@), encode_utf8(b.name@));
    }

    proof fn lemma_rank_transitive(a: &Self, b: &Self, c: &Self) {
        lemma_lex_le_transitive(encode_utf8(a.name@), encode_utf8(b.name@), encode_utf8(c.name@));
    }
}

impl Ranked for SqlView {
    open spec fn rank_le(&self, other: &Self) -> bool {
        name_le(self.name@, other.name@)
    }

    fn precedes(&self, other: &Self) -> (r: bool) {
        bytes_le(self.name.as_str().as_bytes(), other.name.as_str().as_bytes())
    }

    proof fn lemma_rank_total(a: &Self, b: &Self) {
        lemma_lex_le_total(encode_utf8(a.name@), encode_utf8(b.name@));
    }

    proof fn lemma_rank_transitive(a: &Self, b: &Self, c: &Self) {
        lemma_lex_le_transitive(encode_utf8(a.name@), encode_utf8(b.name@), encode_utf8(c.name@));
    }
}

} // verus!
