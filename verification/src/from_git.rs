//! The importer: what it decides between reading the directory layout and
//! filling the database.

use vstd::prelude::*;
use vstd::utf8::encode_utf8;
use crate::db::{DB, DBModel};
use crate::error::{Error, ErrorModel};
use crate::table::{Table, TableModel};
use crate::text::{decimal, push_decimal};

verus! {

/// The text without the white space at its ends, as `str::trim` leaves it.
pub uninterp spec fn trimmed(s: Seq<char>) -> Seq<char>;

/// `str::trim` cuts the white space off both ends of a text.
#[verifier::external_body]
fn trim(s: &str) -> (r: &str)
    ensures
        r@ == trimmed(s@),
{
    s.trim()
}

/// Whether a file of SQL holds anything to run: it does unless it is blank.
pub fn has_statements(sql: &str) -> (r: bool)
    ensures
        r == (trimmed(sql@).len() > 0),
{
    !trim(sql).is_empty()
}

/// Whether a file of a table's directory is a bucket file: its name has three
/// bytes. The files of SQL have longer names.
pub fn is_bucket_file_name(name: &str) -> (r: bool)
    ensures
        r == (encode_utf8(name@).len() == 3),
{
    name.as_bytes().len() == 3
}

/// The one table that the schema of a `table.sql` must describe.
pub open spec fn single_table_of(db: DBModel) -> Result<TableModel, ErrorModel> {
    if db.tables.len() == 1 {
        Ok(db.tables[0])
    } else {
        Err(
            ErrorModel::CorruptedDataFile(
                "expected exactly 1 `CREATE TABLE` statement from `table.sql`, but got "@
                    + decimal(db.tables.len()),
            ),
        )
    }
}

/// Takes the table out of the schema that the `table.sql` of a table's
/// directory gave. A schema with no table or with several means that the file
/// is corrupted.
pub fn single_table(db: DB) -> (r: Result<Table, Error>)
    ensures
        match r {
            Ok(t) => single_table_of(db@) == Ok::<TableModel, ErrorModel>(t@),
            Err(e) => single_table_of(db@) == Err::<TableModel, ErrorModel>(e@),
        },
{
    let mut tables = db.tables;
    if tables.len() == 1 {
        match tables.pop() {
            Some(t) => {
                return Ok(t);
            },
            None => {},
        }
    }
    let mut text = String::from_str(
        "expected exactly 1 `CREATE TABLE` statement from `table.sql`, but got ",
    );
    push_decimal(&mut text, tables.len() as u64);
    Err(Error::CorruptedDataFile(text))
}

} // verus!
