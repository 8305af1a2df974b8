//! The exporter: from the rows of a table to the text of its bucket files.
//!
//! The caller reads the rows and writes the files. Here a row becomes a
//! record, records gather in buckets by the prefix of their identifiers, a
//! bucket that is full is handed out to be written, and what is written joins
//! what the file holds already.

use std::collections::hash_map::DefaultHasher;
use std::hash::Hasher;
use vstd::prelude::*;
use crate::db::{SqlViewModel, DB, DBModel};
use crate::error::{Error, ErrorModel};
use crate::order::{
    lemma_stable_sort_maps, lemma_stable_sort_permutes, lemma_stable_sort_resumes,
    lemma_stable_sort_sorted, rank_order, sort_by_rank, sorted, stable_sort, total, transitive,
};
use crate::rereading::{faithful_fields, faithful_records, lemma_records_read_back};
use crate::record::{
    hash_of, hash_value, hash_writes, id_le, read_records, record_models, records_of,
    records_text, value_models, write_records, Record, RecordId, RecordModel,
};
use crate::table::{joined, Table, TableModel};
use crate::text::{fixed_digits, push_fixed, same_text};
use crate::value::{reads_reals, real_reading, Real, Value, ValueModel};

verus! {

/// How many records a bucket gathers before it is written.
pub const FLUSH_THRESHOLD: usize = 1024;

/// How many buckets a table has: one for every prefix of nine bits.
pub const BUCKET_COUNT: usize = 512;

/// Whether the column at `i` takes part in the identity of a row: every
/// column where the table has no primary key, else the primary key alone.
pub open spec fn identifies(table: TableModel, i: int) -> bool {
    match table.primary_key {
        Some(key) => 0 <= i < table.columns.len() && table.columns[i] == key,
        None => true,
    }
}

/// The values that tell a row from every other row of its table, in column
/// order.
pub open spec fn identity_of(table: TableModel, values: Seq<ValueModel>) -> Seq<ValueModel>
    decreases values.len(),
{
    if values.len() == 0 {
        Seq::empty()
    } else {
        let front = identity_of(table, values.drop_last());
        if identifies(table, values.len() - 1) {
            front.push(values.last())
        } else {
            front
        }
    }
}

/// The values of a row by column.
pub open spec fn fields_of(table: TableModel, values: Seq<ValueModel>) -> Seq<
    (Seq<char>, ValueModel),
> {
    Seq::new(values.len(), |i: int| (table.columns[i], values[i]))
}

/// The record that a row of the table becomes.
pub open spec fn record_of(table: TableModel, values: Seq<ValueModel>) -> RecordModel {
    RecordModel { id: hash_of(identity_of(table, values)), fields: fields_of(table, values) }
}

impl Table {
    /// Makes a record of a row: the values by column, under the identifier
    /// that the hash of the row's identity gives.
    pub fn record(&self, values: Vec<Value>) -> (r: Record)
        requires
            values@.len() == self@.columns.len(),
        ensures
            r@ == record_of(self@, value_models(values@)),
    {
        let ghost models = value_models(values@);
        let mut hasher = DefaultHasher::new();
        let mut i: usize = 0;
        while i < values.len()
            invariant
                i <= values.len(),
                values@.len() == self@.columns.len(),
                models == value_models(values@),
                hasher@ == hash_writes(identity_of(self@, models.take(i as int))),
            decreases values.len() - i,
        {
            proof {
                assert(models.take(i + 1).drop_last() =~= models.take(i as int));
                assert(models.take(i + 1).last() == values@[i as int]@);
                assert(self@.columns[i as int] == self.columns@[i as int]@);
                let front = identity_of(self@, models.take(i as int));
                assert(front.push(models[i as int]).drop_last() =~= front);
            }
            let takes_part = match &self.primary_key {
                Some(key) => same_text(self.columns[i].as_str(), key.as_str()),
                None => true,
            };
            if takes_part {
                hash_value(&mut hasher, &values[i]);
            }
            i = i + 1;
        }
        let id = RecordId(hasher.finish());
        let mut fields: Vec<(String, Value)> = Vec::new();
        for value in it: values
            invariant
                it.seq() == values@,
                values@.len() == self@.columns.len(),
                models == value_models(values@),
                fields@.len() == it.index(),
                forall|k: int|
                    0 <= k < it.index() ==> (#[trigger] fields@[k]).0@ == self@.columns[k]
                        && fields@[k].1@ == models[k],
        {
            let ghost k = it.index();
            assert(self@.columns[k] == self.columns@[k]@);
            let name = self.columns[fields.len()].clone();
            fields.push((name, value));
        }
        let r = Record { id, fields };
        proof {
            assert(models.take(values@.len() as int) =~= models);
            assert(r@.fields =~= fields_of(self@, models));
        }
        r
    }
}

/// The name of the file of a bucket: its prefix in three octal digits.
pub open spec fn bucket_name(prefix: u64) -> Seq<char> {
    fixed_digits(prefix as nat, 8, 3)
}

pub fn bucket_file_name(prefix: u64) -> (r: String)
    requires
        prefix < 512,
    ensures
        r@ == bucket_name(prefix),
{
    let mut out = String::new();
    push_fixed(&mut out, prefix, 8, 3);
    assert(out@ =~= bucket_name(prefix));
    out
}

/// The records of one bucket that are due to be written.
#[derive(Clone, Debug, PartialEq, Eq)]
pub struct Flush {
    pub prefix: u64,
    pub records: Vec<Record>,
}

pub struct FlushModel {
    pub prefix: u64,
    pub records: Seq<RecordModel>,
}

impl View for Flush {
    type V = FlushModel;

    open spec fn view(&self) -> FlushModel {
        FlushModel { prefix: self.prefix, records: record_models(self.records@) }
    }
}

pub open spec fn flush_models(v: Seq<Flush>) -> Seq<FlushModel> {
    v.map_values(|f: Flush| f@)
}

/// The records of a table that wait to be written, by bucket.
#[derive(Clone, Debug)]
pub struct Buckets {
    slots: Vec<Vec<Record>>,
}

/// What buckets hold at any time: there is one for every prefix, none is
/// full, and every record lies in the bucket of its prefix.
pub open spec fn buckets_wf(slots: Seq<Seq<RecordModel>>) -> bool {
    &&& slots.len() == BUCKET_COUNT
    &&& forall|p: int| 0 <= p < slots.len() ==> (#[trigger] slots[p]).len() < FLUSH_THRESHOLD
    &&& forall|p: int, i: int|
        0 <= p < slots.len() && 0 <= i < slots[p].len() ==> (#[trigger] slots[p][i]).id >> 55 == p
}

/// The buckets that hold something, among the first `upto`, in ascending
/// order of prefix.
pub open spec fn pending(slots: Seq<Seq<RecordModel>>, upto: int) -> Seq<FlushModel>
    decreases upto,
{
    if upto <= 0 {
        Seq::empty()
    } else {
        let front = pending(slots, upto - 1);
        if slots[upto - 1].len() > 0 {
            front.push(FlushModel { prefix: (upto - 1) as u64, records: slots[upto - 1] })
        } else {
            front
        }
    }
}

impl View for Buckets {
    type V = Seq<Seq<RecordModel>>;

    closed spec fn view(&self) -> Seq<Seq<RecordModel>> {
        self.slots@.map_values(|slot: Vec<Record>| record_models(slot@))
    }
}

impl Buckets {
    pub open spec fn wf(&self) -> bool {
        buckets_wf(self@)
    }

    /// Buckets that hold nothing yet.
    pub fn new() -> (r: Buckets)
        ensures
            r.wf(),
            forall|p: int| 0 <= p < BUCKET_COUNT ==> (#[trigger] r@[p]).len() == 0,
    {
        let mut slots: Vec<Vec<Record>> = Vec::new();
        let mut p: usize = 0;
        while p < BUCKET_COUNT
            invariant
                p <= BUCKET_COUNT,
                slots@.len() == p,
                forall|k: int| 0 <= k < p ==> (#[trigger] slots@[k])@.len() == 0,
            decreases BUCKET_COUNT - p,
        {
            slots.push(Vec::new());
            p = p + 1;
        }
        Buckets { slots }
    }

    /// Puts a record into the bucket of its prefix. Where that makes the
    /// bucket full, its records are handed out to be written, and the bucket
    /// starts anew.
    pub fn add(&mut self, record: Record) -> (r: Option<Flush>)
        requires
            old(self).wf(),
        ensures
            final(self).wf(),
            r matches Some(flush) ==> flush.prefix < BUCKET_COUNT && in_bucket(
                flush@.records,
                flush.prefix,
            ),
            ({
                let p = (record@.id >> 55) as int;
                let grown = old(self)@[p].push(record@);
                match r {
                    None => grown.len() < FLUSH_THRESHOLD && final(self)@ == old(self)@.update(
                        p,
                        grown,
                    ),
                    Some(flush) => {
                        &&& grown.len() == FLUSH_THRESHOLD
                        &&& flush@ == (FlushModel { prefix: p as u64, records: grown })
                        &&& final(self)@ == old(self)@.update(p, Seq::empty())
                    },
                }
            }),
    {
        let prefix = record.id.prefix();
        let p: usize = prefix as usize;
        let ghost before = self.slots@;
        let ghost held = record_models(self.slots@[p as int]@);
        assert(self@[p as int] == held);
        self.slots[p].push(record);
        proof {
            assert(record_models(self.slots@[p as int]@) =~= held.push(record@));
            assert(self@ =~= old(self)@.update(p as int, held.push(record@)));
        }
        if self.slots[p].len() >= FLUSH_THRESHOLD {
            let mut records: Vec<Record> = Vec::new();
            core::mem::swap(&mut records, &mut self.slots[p]);
            proof {
                assert(record_models(self.slots@[p as int]@) =~= Seq::empty());
                assert(self@ =~= old(self)@.update(p as int, Seq::empty()));
            }
            Some(Flush { prefix, records })
        } else {
            None
        }
    }

    /// Hands out what is left: the buckets that hold something, in ascending
    /// order of prefix.
    pub fn finish(self) -> (r: Vec<Flush>)
        requires
            self.wf(),
        ensures
            flush_models(r@) == pending(self@, BUCKET_COUNT as int),
            forall|k: int|
                0 <= k < r@.len() ==> (#[trigger] r@[k]).prefix < BUCKET_COUNT && in_bucket(
                    r@[k]@.records,
                    r@[k].prefix,
                ),
    {
        let ghost held = self@;
        let mut out: Vec<Flush> = Vec::new();
        let mut p: usize = 0;
        for slot in it: self.slots
            invariant
                it.seq() == self.slots@,
                held == self@,
                held.len() == BUCKET_COUNT,
                p == it.index(),
                buckets_wf(held),
                flush_models(out@) == pending(held, it.index()),
                forall|k: int|
                    0 <= k < out@.len() ==> (#[trigger] out@[k]).prefix < BUCKET_COUNT
                        && in_bucket(out@[k]@.records, out@[k].prefix),
        {
            let ghost k = it.index();
            assert(held[k] == record_models(slot@));
            if slot.len() > 0 {
                let ghost before = out@;
                let flush = Flush { prefix: p as u64, records: slot };
                out.push(flush);
                assert(flush_models(out@) =~= flush_models(before).push(flush@));
            }
            p = p + 1;
        }
        out
    }
}

/// What a bucket file holds once new records have joined the records that it
/// held: all of them in ascending order of identifier, and where two have the
/// same identifier, the one that came first before the other.
pub open spec fn merged(held: Seq<RecordModel>, new: Seq<RecordModel>) -> Seq<RecordModel> {
    stable_sort(held + new, id_le())
}

/// The text of a bucket file after a flush, or what is wrong with the text
/// that the file held before.
pub open spec fn flushed_text(
    held: Option<Seq<char>>,
    new: Seq<RecordModel>,
    reals: spec_fn(Seq<char>) -> Option<crate::value::RealModel>,
) -> Result<Seq<char>, ErrorModel> {
    match held {
        None => Ok(records_text(merged(Seq::empty(), new))),
        Some(text) => match records_of(text, reals) {
            Ok(records) => Ok(records_text(merged(records, new))),
            Err(e) => Err(e),
        },
    }
}

/// Writes a bucket: the records join those that the file holds already, if
/// there is one, and all of them are written in ascending order of
/// identifier.
pub fn merge_bucket<F: Fn(&str) -> Option<Real>>(
    held: Option<&str>,
    records: Vec<Record>,
    read_real: &F,
) -> (r: Result<String, Error>)
    requires
        reads_reals(read_real),
        forall|i: int| 0 <= i < records@.len() ==> (#[trigger] records@[i])@.writable(),
    ensures
        match r {
            Ok(text) => flushed_text(
                match held {
                    Some(t) => Some(t@),
                    None => None,
                },
                record_models(records@),
                real_reading(read_real),
            ) == Ok::<Seq<char>, ErrorModel>(text@),
            Err(e) => flushed_text(
                match held {
                    Some(t) => Some(t@),
                    None => None,
                },
                record_models(records@),
                real_reading(read_real),
            ) == Err::<Seq<char>, ErrorModel>(e@),
        },
{
    let mut all: Vec<Record> = match held {
        Some(text) => match read_records(text, read_real) {
            Ok(found) => found,
            Err(e) => {
                return Err(e);
            },
        },
        None => Vec::new(),
    };
    let ghost found = all@;
    let ghost given = records@;
    let mut records = records;
    all.append(&mut records);
    let ghost unsorted = all@;
    proof {
        assert(record_models(unsorted) =~= record_models(found) + record_models(given));
    }
    sort_by_rank(&mut all);
    proof {
        lemma_stable_sort_maps(unsorted, |r: Record| r@, rank_order::<Record>(), id_le());
        lemma_stable_sort_permutes(unsorted, rank_order::<Record>());
        assert forall|i: int| 0 <= i < all@.len() implies (#[trigger] all@[i])@.writable() by {
            broadcast use vstd::seq_lib::group_to_multiset_ensures;

            assert(all@.contains(all@[i]));
            assert(all@.to_multiset().count(all@[i]) > 0);
            assert(unsorted.contains(all@[i]));
            let k = choose|k: int| 0 <= k < unsorted.len() && unsorted[k] == all@[i];
            if k < found.len() {
                assert(found[k]@.writable());
            } else {
                assert(given[k - found.len()]@.writable());
            }
        }
    }
    Ok(write_records(all.as_slice()))
}

/// The SQL files of a table's directory, by name: the statement that creates
/// the table, then its indexes, then its triggers.
pub open spec fn table_files_of(t: TableModel) -> Seq<(Seq<char>, Seq<char>)> {
    seq![
        ("table.sql"@, t.create_table_sql),
        ("index.sql"@, t.create_index_sql),
        ("trigger.sql"@, t.create_trigger_sql),
    ]
}

pub open spec fn file_models(v: Seq<(String, String)>) -> Seq<(Seq<char>, Seq<char>)> {
    v.map_values(|f: (String, String)| (f.0@, f.1@))
}

pub fn table_files(t: &Table) -> (r: Vec<(String, String)>)
    ensures
        file_models(r@) == table_files_of(t@),
{
    let mut out: Vec<(String, String)> = Vec::new();
    out.push((String::from_str("table.sql"), t.create_table_sql.clone()));
    out.push((String::from_str("index.sql"), t.create_index_sql.clone()));
    out.push((String::from_str("trigger.sql"), t.create_trigger_sql.clone()));
    assert(file_models(out@) =~= table_files_of(t@));
    out
}

/// The statements of the views, with a blank line between two.
pub open spec fn views_text(views: Seq<SqlViewModel>) -> Seq<char> {
    joined(views.map_values(|v: SqlViewModel| v.create_view_sql), "\n\n"@)
}

/// The files at the root of the layout, by name: a marker without content
/// where the schema has no tables, else the statements of the views.
pub open spec fn root_files_of(db: DBModel) -> Seq<(Seq<char>, Seq<char>)> {
    if db.tables.len() == 0 {
        seq![(".empty"@, Seq::empty())]
    } else {
        seq![("view.sql"@, views_text(db.views))]
    }
}

pub fn root_files(db: &DB) -> (r: Vec<(String, String)>)
    ensures
        file_models(r@) == root_files_of(db@),
{
    let mut out: Vec<(String, String)> = Vec::new();
    if db.tables.len() == 0 {
        out.push((String::from_str(".empty"), String::new()));
        assert(file_models(out@) =~= root_files_of(db@));
        return out;
    }
    let ghost parts = db@.views.map_values(|v: SqlViewModel| v.create_view_sql);
    let mut text = String::new();
    let mut i: usize = 0;
    while i < db.views.len()
        invariant
            i <= db.views.len(),
            parts == db@.views.map_values(|v: SqlViewModel| v.create_view_sql),
            text@ == joined(parts.take(i as int), "\n\n"@),
        decreases db.views.len() - i,
    {
        if i > 0 {
            text.append("\n\n");
        }
        text.append(db.views[i].create_view_sql.as_str());
        proof {
            assert(parts.take(i + 1).drop_last() =~= parts.take(i as int));
            assert(parts[i as int] == db.views@[i as int]@.create_view_sql);
        }
        i = i + 1;
    }
    assert(parts.take(db.views.len() as int) =~= parts);
    out.push((String::from_str("view.sql"), text));
    assert(file_models(out@) =~= root_files_of(db@));
    out
}

/// Rows that agree in the columns that identify them get the same
/// identifier, and so the same bucket. In a table with a primary key, a
/// change to any other column leaves the identifier as it is.
pub proof fn lemma_id_stable(table: TableModel, a: Seq<ValueModel>, b: Seq<ValueModel>)
    requires
        a.len() == b.len(),
        forall|i: int| 0 <= i < a.len() && identifies(table, i) ==> a[i] == b[i],
    ensures
        identity_of(table, a) == identity_of(table, b),
        record_of(table, a).id == record_of(table, b).id,
        record_of(table, a).id >> 55 == record_of(table, b).id >> 55,
    decreases a.len(),
{
    if a.len() > 0 {
        lemma_id_stable(table, a.drop_last(), b.drop_last());
    }
}

/// The number that a name spells in octal digits.
pub open spec fn octal_number(name: Seq<char>) -> nat
    decreases name.len(),
{
    if name.len() == 0 {
        0
    } else {
        octal_number(name.drop_last()) * 8 + (name.last() as u32 - '0' as u32) as nat
    }
}

/// The name of a bucket's file spells the bucket's prefix.
pub proof fn lemma_bucket_name(prefix: u64)
    requires
        prefix < 512,
    ensures
        bucket_name(prefix).len() == 3,
        octal_number(bucket_name(prefix)) == prefix,
{
    let n = prefix as nat;
    let name = bucket_name(prefix);
    reveal_with_fuel(fixed_digits, 4);
    let d2 = crate::text::digit_char((n / 64) % 8);
    let d1 = crate::text::digit_char((n / 8) % 8);
    let d0 = crate::text::digit_char(n % 8);
    assert(name =~= seq![d2, d1, d0]);
    assert('0' as u32 == 48);
    assert(d2 as u32 == 48 + (n / 64) % 8);
    assert(d1 as u32 == 48 + (n / 8) % 8);
    assert(d0 as u32 == 48 + n % 8);
    assert(name.drop_last() =~= seq![d2, d1]);
    assert(name.drop_last().drop_last() =~= seq![d2]);
    assert(name.drop_last().drop_last().drop_last() =~= Seq::<char>::empty());
    reveal_with_fuel(octal_number, 4);
}

/// Whether all the records lie in the bucket of that prefix.
pub open spec fn in_bucket(records: Seq<RecordModel>, prefix: u64) -> bool {
    forall|i: int| 0 <= i < records.len() ==> (#[trigger] records[i]).id >> 55 == prefix
}

/// Whether no two of the records have the same identifier.
pub open spec fn distinct_ids(records: Seq<RecordModel>) -> bool {
    forall|i: int, j: int|
        0 <= i < j < records.len() ==> (#[trigger] records[i]).id != (#[trigger] records[j]).id
}

/// Whether the identifiers rise from each record to the next.
pub open spec fn strictly_ascending(records: Seq<RecordModel>) -> bool {
    forall|i: int, j: int|
        0 <= i < j < records.len() ==> (#[trigger] records[i]).id < (#[trigger] records[j]).id
}

pub proof fn lemma_id_order()
    ensures
        total(id_le()),
        transitive(id_le()),
{
}

/// What is merged is what was there: every record of the merged bucket is
/// one of those held or one of the new ones, and the other way round.
pub proof fn lemma_merged_members(held: Seq<RecordModel>, new: Seq<RecordModel>)
    ensures
        merged(held, new).len() == held.len() + new.len(),
        forall|r: RecordModel| #[trigger]
            merged(held, new).contains(r) <==> held.contains(r) || new.contains(r),
{
    broadcast use vstd::seq_lib::group_to_multiset_ensures;

    let all = held + new;
    let m = merged(held, new);
    lemma_stable_sort_permutes(all, id_le());
    crate::order::lemma_stable_sort_len(all, id_le());
    assert forall|r: RecordModel| #[trigger] m.contains(r) <==> held.contains(r) || new.contains(
        r,
    ) by {
        assert(m.contains(r) <==> m.to_multiset().count(r) > 0);
        assert(all.contains(r) <==> all.to_multiset().count(r) > 0);
        if all.contains(r) {
            let k = choose|k: int| 0 <= k < all.len() && all[k] == r;
            if k < held.len() {
                assert(held[k] == r);
            } else {
                assert(new[k - held.len()] == r);
            }
        }
        if held.contains(r) {
            let k = choose|k: int| 0 <= k < held.len() && held[k] == r;
            assert(all[k] == r);
        }
        if new.contains(r) {
            let k = choose|k: int| 0 <= k < new.len() && new[k] == r;
            assert(all[held.len() + k] == r);
        }
    }
}

/// The records of a bucket file stand in ascending order of identifier, and
/// every one of them has the prefix that the file's name spells. Where no two
/// records share an identifier, the order is strict.
pub proof fn lemma_bucket_file(held: Seq<RecordModel>, new: Seq<RecordModel>, prefix: u64)
    requires
        prefix < 512,
        in_bucket(held, prefix),
        in_bucket(new, prefix),
    ensures
        sorted(merged(held, new), id_le()),
        in_bucket(merged(held, new), prefix),
        octal_number(bucket_name(prefix)) == prefix,
        distinct_ids(held + new) ==> strictly_ascending(merged(held, new)),
{
    let all = held + new;
    let m = merged(held, new);
    lemma_id_order();
    lemma_stable_sort_sorted(all, id_le());
    lemma_merged_members(held, new);
    lemma_bucket_name(prefix);
    assert forall|i: int| 0 <= i < m.len() implies (#[trigger] m[i]).id >> 55 == prefix by {
        assert(m.contains(m[i]));
        if held.contains(m[i]) {
            let k = choose|k: int| 0 <= k < held.len() && held[k] == m[i];
            assert(held[k].id >> 55 == prefix);
        } else {
            let k = choose|k: int| 0 <= k < new.len() && new[k] == m[i];
            assert(new[k].id >> 55 == prefix);
        }
    }
    if distinct_ids(all) {
        lemma_distinct_sorted(all);
    }
}

/// Sorting records whose identifiers differ puts them in strict order.
proof fn lemma_distinct_sorted(all: Seq<RecordModel>)
    requires
        distinct_ids(all),
    ensures
        strictly_ascending(stable_sort(all, id_le())),
        distinct_ids(stable_sort(all, id_le())),
    decreases all.len(),
{
    let le = id_le();
    lemma_id_order();
    lemma_stable_sort_sorted(all, le);
    if all.len() > 0 {
        let front = all.drop_last();
        let x = all.last();
        assert(distinct_ids(front)) by {
            assert forall|i: int, j: int| 0 <= i < j < front.len() implies (#[trigger] front[i]).id
                != (#[trigger] front[j]).id by {
                assert(all[i].id != all[j].id);
            }
        }
        lemma_distinct_sorted(front);
        let done = stable_sort(front, le);
        let p = crate::order::insert_point(done, x, le) as int;
        crate::order::lemma_insert_point(done, x, le);
        lemma_stable_sort_permutes(front, le);
        let m = stable_sort(all, le);
        assert(m == done.insert(p, x));
        assert forall|k: int| 0 <= k < done.len() implies (#[trigger] done[k]).id != x.id by {
            broadcast use vstd::seq_lib::group_to_multiset_ensures;

            assert(done.contains(done[k]));
            assert(done.to_multiset().count(done[k]) > 0);
            assert(front.contains(done[k]));
            let a = choose|a: int| 0 <= a < front.len() && front[a] == done[k];
            assert(all[a].id != all[all.len() - 1].id);
        }
        assert forall|i: int, j: int| 0 <= i < j < m.len() implies (#[trigger] m[i]).id < (
        #[trigger] m[j]).id by {
            assert(le(m[i], m[j]));
            if i == p {
                assert(m[j] == done[j - 1]);
            } else if j == p {
                assert(m[i] == done[i]);
            } else if i < p && j < p {
                assert(done[i].id < done[j].id);
            } else if i < p && j > p {
                assert(done[i].id < done[j - 1].id);
            } else {
                assert(done[i - 1].id < done[j - 1].id);
            }
        }
    }
}

/// A bucket that is written in two goes holds what it would hold had it been
/// written in one.
pub proof fn lemma_flush_in_parts(
    held: Seq<RecordModel>,
    first: Seq<RecordModel>,
    second: Seq<RecordModel>,
)
    ensures
        merged(merged(held, first), second) == merged(held, first + second),
{
    lemma_id_order();
    lemma_stable_sort_resumes(held + first, second, id_le());
    assert(held + first + second =~= held + (first + second));
}

/// A file that was flushed to before holds, after another flush, what it
/// would hold had all the records been flushed at once: the text of all of
/// them in order of identifier. This holds where every value comes back from
/// its line.
pub proof fn lemma_flushes_compose(
    held: Seq<RecordModel>,
    first: Seq<RecordModel>,
    second: Seq<RecordModel>,
    reals: spec_fn(Seq<char>) -> Option<crate::value::RealModel>,
)
    requires
        faithful_records(held, reals),
        faithful_records(first, reals),
    ensures
        flushed_text(Some(records_text(merged(held, first))), second, reals) == Ok::<
            Seq<char>,
            ErrorModel,
        >(records_text(merged(held, first + second))),
{
    let m = merged(held, first);
    lemma_merged_members(held, first);
    assert forall|i: int| 0 <= i < m.len() implies faithful_fields(
        (#[trigger] m[i]).fields,
        reals,
    ) by {
        assert(m.contains(m[i]));
        if held.contains(m[i]) {
            let k = choose|k: int| 0 <= k < held.len() && held[k] == m[i];
            assert(faithful_fields(held[k].fields, reals));
        } else {
            let k = choose|k: int| 0 <= k < first.len() && first[k] == m[i];
            assert(faithful_fields(first[k].fields, reals));
        }
    }
    lemma_records_read_back(m, reals);
    lemma_flush_in_parts(held, first, second);
}

/// Records in strict order are told by what they are: two such sequences of
/// the same records are the same sequence.
proof fn lemma_strict_order_unique(x: Seq<RecordModel>, y: Seq<RecordModel>)
    requires
        strictly_ascending(x),
        strictly_ascending(y),
        x.to_multiset() == y.to_multiset(),
    ensures
        x == y,
    decreases x.len(),
{
    broadcast use vstd::seq_lib::group_to_multiset_ensures;

    assert(x.len() == x.to_multiset().len());
    assert(y.len() == y.to_multiset().len());
    if x.len() == 0 {
        assert(x =~= y);
    } else {
        let n = x.len() as int;
        let last = x[n - 1];
        assert(x.contains(last));
        assert(y.to_multiset().count(last) > 0);
        assert(y.contains(last));
        let k = choose|k: int| 0 <= k < y.len() && y[k] == last;
        let other = y[n - 1];
        assert(y.contains(other));
        assert(x.to_multiset().count(other) > 0);
        assert(x.contains(other));
        let j = choose|j: int| 0 <= j < x.len() && x[j] == other;
        if k < n - 1 {
            assert(y[k].id < y[n - 1].id);
            if j < n - 1 {
                assert(x[j].id < x[n - 1].id);
            }
        }
        assert(y[n - 1] == last);
        assert(x.remove(n - 1) =~= x.drop_last());
        assert(y.remove(n - 1) =~= y.drop_last());
        assert(x.drop_last().to_multiset() =~= y.drop_last().to_multiset());
        assert(strictly_ascending(x.drop_last())) by {
            assert forall|i: int, j: int| 0 <= i < j < x.drop_last().len() implies (
            #[trigger] x.drop_last()[i]).id < (#[trigger] x.drop_last()[j]).id by {
                assert(x[i].id < x[j].id);
            }
        }
        assert(strictly_ascending(y.drop_last())) by {
            assert forall|i: int, j: int| 0 <= i < j < y.drop_last().len() implies (
            #[trigger] y.drop_last()[i]).id < (#[trigger] y.drop_last()[j]).id by {
                assert(y[i].id < y[j].id);
            }
        }
        lemma_strict_order_unique(x.drop_last(), y.drop_last());
        assert(x =~= x.drop_last().push(last));
        assert(y =~= y.drop_last().push(last));
    }
}

/// The same records in another order have as few identifiers in common.
proof fn lemma_distinct_ids_permuted(a: Seq<RecordModel>, b: Seq<RecordModel>)
    requires
        a.to_multiset() == b.to_multiset(),
        distinct_ids(a),
    ensures
        distinct_ids(b),
{
    broadcast use vstd::seq_lib::group_to_multiset_ensures;

    assert(a.no_duplicates()) by {
        assert forall|i: int, j: int| 0 <= i < a.len() && 0 <= j < a.len() && i != j implies a[i]
            != a[j] by {
            if i < j {
                assert(a[i].id != a[j].id);
            } else {
                assert(a[j].id != a[i].id);
            }
        }
    }
    a.lemma_multiset_has_no_duplicates();
    b.lemma_multiset_has_no_duplicates_conv();
    assert forall|i: int, j: int| 0 <= i < j < b.len() implies (#[trigger] b[i]).id != (
    #[trigger] b[j]).id by {
        assert(b[i] != b[j]);
        assert(b.contains(b[i]) && b.contains(b[j]));
        assert(a.to_multiset().count(b[i]) > 0 && a.to_multiset().count(b[j]) > 0);
        assert(a.contains(b[i]) && a.contains(b[j]));
        let p = choose|p: int| 0 <= p < a.len() && a[p] == b[i];
        let q = choose|q: int| 0 <= q < a.len() && a[q] == b[j];
        if p < q {
            assert(a[p].id != a[q].id);
        } else {
            assert(a[q].id != a[p].id);
        }
    }
}

/// The order in which the rows of a table arrive does not show in its bucket
/// files, where no two records share an identifier: the same records in any
/// order are written as the same file.
pub proof fn lemma_row_order_is_immaterial(a: Seq<RecordModel>, b: Seq<RecordModel>)
    requires
        a.to_multiset() == b.to_multiset(),
        distinct_ids(a),
    ensures
        merged(Seq::empty(), a) == merged(Seq::empty(), b),
        records_text(merged(Seq::empty(), a)) == records_text(merged(Seq::empty(), b)),
{
    let none = Seq::<RecordModel>::empty();
    assert(none + a =~= a);
    assert(none + b =~= b);
    lemma_distinct_ids_permuted(a, b);
    lemma_distinct_sorted(a);
    lemma_distinct_sorted(b);
    lemma_stable_sort_permutes(a, id_le());
    lemma_stable_sort_permutes(b, id_le());
    lemma_strict_order_unique(stable_sort(a, id_le()), stable_sort(b, id_le()));
}

} // verus!
