//! A codec between the rows and schema of an SQLite database and a directory
//! of plain-text files that an ordinary version-control tool can track.
//!
//! The library holds the parts that compute: the value and record formats,
//! record identifiers, bucket bookkeeping and the assembly of a schema from
//! catalog rows. Reading the database and touching the file system is left to
//! the caller, which hands the library plain values and gets plain values back.

pub mod command;
pub mod db;
pub mod error;
pub mod from_git;
pub mod order;
pub mod record;
pub mod rereading;
pub mod roundtrip;
pub mod schema;
pub mod table;
pub mod text;
pub mod to_git;
pub mod util;
pub mod value;

pub use db::DB;
pub use error::Error;
pub use record::{Record, RecordId};
pub use table::Table;
pub use value::Value;
