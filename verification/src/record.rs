//! Records, the identifiers that place them, and the text of a bucket file.

use std::collections::hash_map::DefaultHasher;
use std::hash::Hasher;
use vstd::bytes::{spec_u64_to_le_bytes, u64_to_le_bytes};
use vstd::prelude::*;
use vstd::std_specs::hash::DefaultHasherAdditionalSpecFns;
use vstd::slice::{slice_subrange, slice_to_vec};
use vstd::utf8::{decode_utf8, encode_utf8, valid_utf8};
use crate::error::{Error, ErrorModel};
use crate::order::Ranked;
use crate::text::{digit_value, fixed_digits, lossy_string, lossy_text, push_fixed, utf8_string};
use crate::util::{literal_at, parse_string_literal, CARRIAGE_RETURN, LINE_FEED, QUOTE};
use crate::rereading::{
    blobs_read_back, lemma_faithful_records, lemma_records_read_back, reals_read_back,
};
use crate::value::{
    blob_reads_back, decoding, encoding, literal, push_literal, reads_reals, real_reading,
    value_from_string, write_value, Real, RealModel, Value, ValueModel,
};

verus! {

/// The identifier of a record: a hash of the values that tell the record from
/// every other one of its table. It depends on those values alone, so a
/// record keeps its place when any other field changes.
#[derive(Clone, Copy, Debug, Eq, Hash, Ord, PartialEq, PartialOrd)]
pub struct RecordId(pub u64);

/// One row: its identifier, and its values by column, in the order of the
/// table's columns.
#[derive(Clone, Debug, PartialEq, Eq)]
pub struct Record {
    pub id: RecordId,
    pub fields: Vec<(String, Value)>,
}

/// The mathematical content of a [`Record`].
pub struct RecordModel {
    pub id: u64,
    pub fields: Seq<(Seq<char>, ValueModel)>,
}

pub open spec fn field_models(v: Seq<(String, Value)>) -> Seq<(Seq<char>, ValueModel)> {
    v.map_values(|f: (String, Value)| (f.0@, f.1@))
}

impl View for Record {
    type V = RecordModel;

    open spec fn view(&self) -> RecordModel {
        RecordModel { id: self.id.0, fields: field_models(self.fields@) }
    }
}

pub open spec fn record_models(v: Seq<Record>) -> Seq<RecordModel> {
    v.map_values(|r: Record| r@)
}

pub open spec fn value_models(v: Seq<Value>) -> Seq<ValueModel> {
    v.map_values(|x: Value| x@)
}

impl RecordModel {
    /// Whether every value of the record can be written.
    pub open spec fn writable(self) -> bool {
        forall|i: int| 0 <= i < self.fields.len() ==> (#[trigger] self.fields[i]).1.writable()
    }
}

impl Record {
    /// Whether every value of the record can be written.
    pub fn is_writable(&self) -> (r: bool)
        ensures
            r == self@.writable(),
    {
        let mut i: usize = 0;
        while i < self.fields.len()
            invariant
                i <= self.fields.len(),
                forall|k: int| 0 <= k < i ==> (#[trigger] self@.fields[k]).1.writable(),
            decreases self.fields.len() - i,
        {
            assert(self@.fields[i as int] == (self.fields@[i as int].0@, self.fields@[i as int].1@));
            if !self.fields[i].1.is_writable() {
                return false;
            }
            i = i + 1;
        }
        true
    }
}

/// The byte that tells the storage class of a value to the hash: the digits
/// `0` to `4` in ASCII.
pub open spec fn hash_tag(v: ValueModel) -> u8 {
    match v {
        ValueModel::Null => 48,
        ValueModel::Integer(_) => 49,
        ValueModel::Real(_) => 50,
        ValueModel::Text(_) => 51,
        ValueModel::Blob(_) => 52,
    }
}

/// The bytes of a value that go into the hash behind its tag: the eight
/// bytes of an integer or of a real's bit pattern, low byte first; the UTF-8
/// bytes of a text; the bytes of a blob.
pub open spec fn hash_image(v: ValueModel) -> Seq<u8> {
    match v {
        ValueModel::Null => Seq::empty(),
        ValueModel::Integer(n) => spec_u64_to_le_bytes(n as u64),
        ValueModel::Real(r) => spec_u64_to_le_bytes(r.bits),
        ValueModel::Text(s) => encode_utf8(s),
        ValueModel::Blob(b) => b,
    }
}

/// What is written to the hasher for the values, one value after the other.
pub open spec fn hash_writes(values: Seq<ValueModel>) -> Seq<Seq<u8>>
    decreases values.len(),
{
    if values.len() == 0 {
        Seq::empty()
    } else {
        hash_writes(values.drop_last()) + value_writes(values.last())
    }
}

/// The identifier of the record that the values tell apart.
pub open spec fn hash_of(values: Seq<ValueModel>) -> u64 {
    DefaultHasher::spec_finish(hash_writes(values))
}

/// What is written to the hasher for one value: its tag, and behind the tag
/// its bytes unless it is null.
pub open spec fn value_writes(v: ValueModel) -> Seq<Seq<u8>> {
    if v is Null {
        seq![seq![hash_tag(v)]]
    } else {
        seq![seq![hash_tag(v)], hash_image(v)]
    }
}

/// Feeds one value to the hasher.
pub(crate) fn hash_value(hasher: &mut DefaultHasher, value: &Value)
    ensures
        final(hasher)@ == old(hasher)@ + value_writes(value@),
{
    match value {
        Value::Null => {
            let tag: Vec<u8> = vec![48u8];
            assert(tag@ =~= seq![48u8]);
            hasher.write(tag.as_slice());
        },
        Value::Integer(n) => {
            let tag: Vec<u8> = vec![49u8];
            assert(tag@ =~= seq![49u8]);
            hasher.write(tag.as_slice());
            let image = u64_to_le_bytes(#[verifier::truncate] (*n as u64));
            hasher.write(image.as_slice());
        },
        Value::Real(number) => {
            let tag: Vec<u8> = vec![50u8];
            assert(tag@ =~= seq![50u8]);
            hasher.write(tag.as_slice());
            let image = u64_to_le_bytes(number.bits);
            hasher.write(image.as_slice());
        },
        Value::Text(s) => {
            let tag: Vec<u8> = vec![51u8];
            assert(tag@ =~= seq![51u8]);
            hasher.write(tag.as_slice());
            hasher.write(s.as_str().as_bytes());
        },
        Value::Blob(bytes) => {
            let tag: Vec<u8> = vec![52u8];
            assert(tag@ =~= seq![52u8]);
            hasher.write(tag.as_slice());
            hasher.write(bytes.as_slice());
        },
    }
    assert(hasher@ =~= old(hasher)@ + value_writes(value@));
}

impl RecordId {
    /// Hashes the values that identify a record. The hash is that of the
    /// standard library's default hasher in its initial state, fed with the
    /// tag and the bytes of each value in turn.
    pub fn hash(data: &[Value]) -> (id: RecordId)
        ensures
            id.0 == hash_of(value_models(data@)),
    {
        let ghost models = value_models(data@);
        let mut hasher = DefaultHasher::new();
        let mut i: usize = 0;
        while i < data.len()
            invariant
                i <= data.len(),
                models == value_models(data@),
                hasher@ == hash_writes(models.take(i as int)),
            decreases data.len() - i,
        {
            proof {
                assert(models.take(i + 1).drop_last() =~= models.take(i as int));
                assert(models.take(i + 1).last() == data@[i as int]@);
            }
            hash_value(&mut hasher, &data[i]);
            i = i + 1;
        }
        assert(models.take(data.len() as int) =~= models);
        RecordId(hasher.finish())
    }

    /// The bucket of the record: the top nine bits of its identifier, a
    /// number below 512.
    pub fn prefix(&self) -> (p: u64)
        ensures
            p == self.0 >> 55,
            p < 512,
    {
        let id: u64 = self.0;
        assert(id >> 55 < 512) by (bit_vector);
        id >> 55
    }
}

impl Ranked for Record {
    open spec fn rank_le(&self, other: &Self) -> bool {
        self.id.0 <= other.id.0
    }

    fn precedes(&self, other: &Self) -> (r: bool) {
        self.id.0 <= other.id.0
    }

    proof fn lemma_rank_total(a: &Self, b: &Self) {
    }

    proof fn lemma_rank_transitive(a: &Self, b: &Self, c: &Self) {
    }
}

/// The order of records: that of their identifiers.
pub open spec fn id_le() -> spec_fn(RecordModel, RecordModel) -> bool {
    |a: RecordModel, b: RecordModel| a.id <= b.id
}

/// The line of one field: the column's name as a literal, `=`, and the
/// value's token.
pub open spec fn field_line(name: Seq<char>, v: ValueModel) -> Seq<char> {
    literal(name) + seq!['='] + encoding(v) + seq!['\n']
}

pub open spec fn field_lines(fields: Seq<(Seq<char>, ValueModel)>) -> Seq<char>
    decreases fields.len(),
{
    if fields.len() == 0 {
        Seq::empty()
    } else {
        field_lines(fields.drop_last()) + field_line(fields.last().0, fields.last().1)
    }
}

/// The identifier in sixteen lower-case hexadecimal digits.
pub open spec fn id_text(id: u64) -> Seq<char> {
    fixed_digits(id as nat, 16, 16)
}

/// The block of one record: the line of its identifier, the lines of its
/// fields, and a blank line.
pub open spec fn record_text(r: RecordModel) -> Seq<char> {
    id_text(r.id) + seq!['\n'] + field_lines(r.fields) + seq!['\n']
}

/// The text of a bucket file: the blocks of its records one after another.
pub open spec fn records_text(records: Seq<RecordModel>) -> Seq<char>
    decreases records.len(),
{
    if records.len() == 0 {
        Seq::empty()
    } else {
        records_text(records.drop_last()) + record_text(records.last())
    }
}

/// Appends the block of a record.
fn push_record(out: &mut String, record: &Record)
    requires
        record@.writable(),
    ensures
        final(out)@ == old(out)@ + record_text(record@),
        forall|j: int|
            0 <= j < record@.fields.len() ==> (
            #[trigger] record@.fields[j].1 matches ValueModel::Blob(b) ==> blob_reads_back(b)),
{
    let ghost fields = record@.fields;
    push_fixed(out, record.id.0, 16, 16);
    out.push('\n');
    let ghost head = out@;
    let mut i: usize = 0;
    while i < record.fields.len()
        invariant
            i <= record.fields.len(),
            fields == record@.fields,
            record@.writable(),
            out@ == head + field_lines(fields.take(i as int)),
            forall|j: int|
                0 <= j < i ==> (#[trigger] fields[j].1 matches ValueModel::Blob(b)
                    ==> blob_reads_back(b)),
        decreases record.fields.len() - i,
    {
        let field = &record.fields[i];
        proof {
            assert(fields.take(i + 1).drop_last() =~= fields.take(i as int));
            assert(fields[i as int] == (field.0@, field.1@));
            assert(fields[i as int].1.writable());
        }
        push_literal(out, field.0.as_str());
        out.push('=');
        let token = write_value(&field.1);
        out.append(token.as_str());
        out.push('\n');
        assert(out@ =~= head + field_lines(fields.take(i + 1)));
        i = i + 1;
    }
    out.push('\n');
    proof {
        assert(fields.take(record.fields.len() as int) =~= fields);
        assert(out@ =~= old(out)@ + record_text(record@));
    }
}

/// Writes the records as the text of a bucket file, in the order given: for
/// each record its identifier in sixteen hexadecimal digits, a line for each
/// field, and a blank line.
///
/// Reading the text gives the records back, where every real number among
/// them comes back from its token.
pub fn write_records(records: &[Record]) -> (r: String)
    requires
        forall|i: int| 0 <= i < records@.len() ==> (#[trigger] records@[i])@.writable(),
    ensures
        r@ == records_text(record_models(records@)),
        forall|reals: spec_fn(Seq<char>) -> Option<RealModel>|
            reals_read_back(record_models(records@), reals) ==> #[trigger] records_of(r@, reals)
                == Ok::<Seq<RecordModel>, ErrorModel>(record_models(records@)),
{
    let ghost models = record_models(records@);
    let mut out = String::new();
    let mut i: usize = 0;
    while i < records.len()
        invariant
            i <= records.len(),
            models == record_models(records@),
            forall|i: int| 0 <= i < records@.len() ==> (#[trigger] records@[i])@.writable(),
            out@ == records_text(models.take(i as int)),
            blobs_read_back(models.take(i as int)),
        decreases records.len() - i,
    {
        proof {
            assert(models.take(i + 1).drop_last() =~= models.take(i as int));
            assert(models.take(i + 1).last() == records@[i as int]@);
        }
        push_record(&mut out, &records[i]);
        proof {
            let more = models.take(i + 1);
            assert forall|a: int, j: int|
                0 <= a < more.len() && 0 <= j < more[a].fields.len() implies (
            #[trigger] more[a].fields[j].1 matches ValueModel::Blob(b) ==> blob_reads_back(
                b,
            )) by {
                if a < i {
                    assert(more[a] == models.take(i as int)[a]);
                    assert(models.take(
                        i as int,
                    )[a].fields[j].1 matches ValueModel::Blob(b) ==> blob_reads_back(b));
                }
            }
        }
        i = i + 1;
    }
    proof {
        assert(models.take(records.len() as int) =~= models);
        assert forall|reals: spec_fn(Seq<char>) -> Option<RealModel>|
            reals_read_back(models, reals) implies #[trigger] records_of(out@, reals) == Ok::<
            Seq<RecordModel>,
            ErrorModel,
        >(models) by {
            lemma_faithful_records(models, reals);
            lemma_records_read_back(models, reals);
        }
    }
    out
}

pub const EQUALS: u8 = 61;

/// The field that a line holds, or what is wrong with the line.
///
/// The line starts with the column's name as a literal, closed by a quote; an
/// `=` follows; the rest is the value's token.
pub open spec fn field_of(
    line: Seq<u8>,
    reals: spec_fn(Seq<char>) -> Option<RealModel>,
) -> Result<(Seq<char>, ValueModel), ErrorModel> {
    match literal_at(line) {
        None => Err(ErrorModel::CorruptedDataFile("failed to parse data: "@ + lossy_text(line))),
        Some((name, end)) => {
            let token = line.skip(end + 2);
            if end == 0 {
                Err(ErrorModel::CorruptedDataFile("failed to parse data: "@ + lossy_text(line)))
            } else if end + 1 >= line.len() {
                Err(ErrorModel::CorruptedDataFile("expected '=', got nothing"@))
            } else if line[end + 1] != EQUALS {
                Err(
                    ErrorModel::CorruptedDataFile(
                        "expected '=', got "@ + lossy_text(seq![line[end + 1]]),
                    ),
                )
            } else if !valid_utf8(token) {
                Err(ErrorModel::CorruptedDataFile("corrupted value"@))
            } else {
                match decoding(decode_utf8(token), reals) {
                    Some(v) => Ok((name, v)),
                    None => Err(
                        ErrorModel::CorruptedDataFile(
                            "failed to parse value: "@ + decode_utf8(token),
                        ),
                    ),
                }
            }
        },
    }
}

fn corrupted(head: &str, about: &[u8]) -> (e: Error)
    ensures
        e@ == ErrorModel::CorruptedDataFile(head@ + lossy_text(about@)),
{
    let mut text = String::from_str(head);
    let shown = lossy_string(about);
    text.append(shown.as_str());
    Error::CorruptedDataFile(text)
}

fn corrupted_by(head: &str, byte: u8) -> (e: Error)
    ensures
        e@ == ErrorModel::CorruptedDataFile(head@ + lossy_text(seq![byte])),
{
    let about: Vec<u8> = vec![byte];
    assert(about@ =~= seq![byte]);
    corrupted(head, about.as_slice())
}

/// Reads the line of one field: the column's name and the value.
pub fn parse_line<F: Fn(&str) -> Option<Real>>(s: &[u8], read_real: &F) -> (r: Result<
    (String, Value),
    Error,
>)
    requires
        reads_reals(read_real),
    ensures
        match r {
            Ok((name, value)) => field_of(s@, real_reading(read_real)) == Ok::<
                (Seq<char>, ValueModel),
                ErrorModel,
            >((name@, value@)) && value@.writable(),
            Err(e) => field_of(s@, real_reading(read_real)) == Err::<
                (Seq<char>, ValueModel),
                ErrorModel,
            >(e@),
        },
{
    let (name, end) = match parse_string_literal(s) {
        Some(found) => found,
        None => {
            return Err(corrupted("failed to parse data: ", s));
        },
    };
    if end == 0 {
        return Err(corrupted("failed to parse data: ", s));
    }
    let n: usize = s.len();
    if end + 1 >= n {
        return Err(Error::CorruptedDataFile(String::from_str("expected '=', got nothing")));
    }
    if s[end + 1] != EQUALS {
        return Err(corrupted_by("expected '=', got ", s[end + 1]));
    }
    let token = slice_to_vec(slice_subrange(s, end + 2, n));
    assert(token@ =~= s@.skip(end + 2));
    let text = match utf8_string(token) {
        Some(text) => text,
        None => {
            return Err(Error::CorruptedDataFile(String::from_str("corrupted value")));
        },
    };
    match value_from_string(text.as_str(), read_real) {
        Some(value) => Ok((name, value)),
        None => {
            let mut message = String::from_str("failed to parse value: ");
            message.append(text.as_str());
            Err(Error::CorruptedDataFile(message))
        },
    }
}

/// The number that hexadecimal digits spell.
pub open spec fn hex_value(s: Seq<u8>) -> nat
    decreases s.len(),
{
    if s.len() == 0 {
        0
    } else {
        hex_value(s.drop_last()) * 16 + match digit_value(s.last()) {
            Some(d) => d,
            None => 0,
        }
    }
}

pub open spec fn all_hex(s: Seq<u8>) -> bool {
    forall|i: int| 0 <= i < s.len() ==> digit_value(#[trigger] s[i]) is Some
}

/// The identifier that a line spells: sixteen hexadecimal digits in lower
/// case.
pub open spec fn id_of(line: Seq<u8>) -> Option<u64> {
    if line.len() == 16 && all_hex(line) {
        Some(hex_value(line) as u64)
    } else {
        None
    }
}

/// Sixteen to the power of `n`.
pub open spec fn pow16(n: nat) -> nat
    decreases n,
{
    if n == 0 {
        1
    } else {
        16 * pow16((n - 1) as nat)
    }
}

pub proof fn lemma_hex_value_bound(s: Seq<u8>)
    requires
        all_hex(s),
    ensures
        hex_value(s) < pow16(s.len()),
    decreases s.len(),
{
    if s.len() > 0 {
        assert(all_hex(s.drop_last())) by {
            assert forall|i: int| 0 <= i < s.drop_last().len() implies digit_value(
                #[trigger] s.drop_last()[i],
            ) is Some by {
                assert(digit_value(s[i]) is Some);
            }
        }
        lemma_hex_value_bound(s.drop_last());
        assert(digit_value(s[s.len() - 1]) is Some);
    }
}

fn parse_id(line: &[u8]) -> (r: Option<u64>)
    ensures
        r == id_of(line@),
{
    if line.len() != 16 {
        return None;
    }
    let mut acc: u64 = 0;
    let mut i: usize = 0;
    while i < 16
        invariant
            i <= 16,
            line.len() == 16,
            all_hex(line@.take(i as int)),
            acc == hex_value(line@.take(i as int)),
        decreases 16 - i,
    {
        let b = line[i];
        proof {
            assert(line@.take(i + 1).drop_last() =~= line@.take(i as int));
            assert(line@.take(i + 1).last() == b);
            lemma_hex_value_bound(line@.take(i as int));
            assert(pow16(15) == 0x1000_0000_0000_0000) by {
                reveal_with_fuel(pow16, 16);
            }
            lemma_pow16_grows(i as nat, 15);
        }
        let d: u64 = if b >= 48 && b <= 57 {
            (b - 48) as u64
        } else if b >= 97 && b <= 102 {
            (b - 87) as u64
        } else {
            assert(digit_value(line@[i as int]) is None);
            return None;
        };
        acc = acc * 16 + d;
        proof {
            assert forall|k: int| 0 <= k < i + 1 implies digit_value(
                #[trigger] line@.take(i + 1)[k],
            ) is Some by {
                if k < i {
                    assert(digit_value(line@.take(i as int)[k]) is Some);
                }
            }
        }
        i = i + 1;
    }
    assert(line@.take(16) =~= line@);
    Some(acc)
}

proof fn lemma_pow16_grows(a: nat, b: nat)
    requires
        a <= b,
    ensures
        pow16(a) <= pow16(b),
    decreases b,
{
    if a < b {
        lemma_pow16_grows(a, (b - 1) as nat);
    }
}

/// What the reader holds between two lines: the records that are complete,
/// and the identifier and the fields of the record that is open, if one is.
pub struct ReaderModel {
    pub records: Seq<RecordModel>,
    pub id: Option<u64>,
    pub fields: Seq<(Seq<char>, ValueModel)>,
}

impl ReaderModel {
    pub open spec fn start() -> ReaderModel {
        ReaderModel { records: Seq::empty(), id: None, fields: Seq::empty() }
    }

    /// Whether every value that the reader holds can be written.
    pub open spec fn writable(self) -> bool {
        &&& forall|i: int| 0 <= i < self.records.len() ==> (#[trigger] self.records[i]).writable()
        &&& forall|i: int| 0 <= i < self.fields.len() ==> (#[trigger] self.fields[i]).1.writable()
    }

    /// The records read, the open one included.
    pub open spec fn finished(self) -> Seq<RecordModel> {
        match self.id {
            Some(id) => self.records.push(RecordModel { id, fields: self.fields }),
            None => self.records,
        }
    }
}

fn wrong(message: &str) -> (e: Error)
    ensures
        e@ == ErrorModel::CorruptedDataFile(message@),
{
    Error::CorruptedDataFile(String::from_str(message))
}

/// What a line does to the reader.
///
/// A blank line closes the open record. A line that starts with a quote is a
/// field of the open record. A line that starts with a hexadecimal digit
/// opens a record and must be its identifier. Any other line is an error, and
/// so is a blank line or a field where no record is open, and an identifier
/// where one is.
pub open spec fn read_line(
    state: ReaderModel,
    line: Seq<u8>,
    reals: spec_fn(Seq<char>) -> Option<RealModel>,
) -> Result<ReaderModel, ErrorModel> {
    if line.len() == 0 {
        match state.id {
            Some(id) => Ok(
                ReaderModel {
                    records: state.records.push(RecordModel { id, fields: state.fields }),
                    id: None,
                    fields: Seq::empty(),
                },
            ),
            None => Err(ErrorModel::CorruptedDataFile("a record without an id"@)),
        }
    } else if line[0] == QUOTE {
        match state.id {
            Some(_) => match field_of(line, reals) {
                Ok(field) => Ok(ReaderModel { fields: state.fields.push(field), ..state }),
                Err(e) => Err(e),
            },
            None => Err(ErrorModel::CorruptedDataFile("a field without an id"@)),
        }
    } else if digit_value(line[0]) is Some {
        match id_of(line) {
            Some(id) => match state.id {
                Some(_) => Err(ErrorModel::CorruptedDataFile("id appears twice"@)),
                None => Ok(ReaderModel { id: Some(id), ..state }),
            },
            None => Err(ErrorModel::CorruptedDataFile("failed to parse id: "@ + lossy_text(line))),
        }
    } else {
        match state.id {
            Some(id) => Err(
                ErrorModel::CorruptedDataFile(
                    "expected a field name, got "@ + lossy_text(seq![line[0]]) + " (at id "@
                        + id_text(id) + ")"@,
                ),
            ),
            None => Err(
                ErrorModel::CorruptedDataFile("expected an id, got "@ + lossy_text(seq![line[0]])),
            ),
        }
    }
}

/// What the lines do to the reader, one after another, up to the first error.
pub open spec fn read_lines(
    lines: Seq<Seq<u8>>,
    reals: spec_fn(Seq<char>) -> Option<RealModel>,
) -> Result<ReaderModel, ErrorModel>
    decreases lines.len(),
{
    if lines.len() == 0 {
        Ok(ReaderModel::start())
    } else {
        match read_lines(lines.drop_last(), reals) {
            Ok(state) => read_line(state, lines.last(), reals),
            Err(e) => Err(e),
        }
    }
}

/// Where the first line feed stands, or how many bytes there are if there is
/// none.
pub open spec fn first_line_feed(bytes: Seq<u8>) -> int
    decreases bytes.len(),
{
    if bytes.len() == 0 || bytes[0] == LINE_FEED {
        0
    } else {
        1 + first_line_feed(bytes.drop_first())
    }
}

/// A line without the carriage return that may close it.
pub open spec fn without_return(line: Seq<u8>) -> Seq<u8> {
    if line.len() > 0 && line.last() == CARRIAGE_RETURN {
        line.drop_last()
    } else {
        line
    }
}

/// The lines of a text. A line ends with a line feed, or with a carriage
/// return and a line feed; the last line may end with the text.
pub open spec fn lines_of(bytes: Seq<u8>) -> Seq<Seq<u8>>
    decreases bytes.len(),
{
    let k = first_line_feed(bytes);
    if bytes.len() == 0 {
        Seq::empty()
    } else if k < 0 || k >= bytes.len() {
        seq![bytes]
    } else {
        seq![without_return(bytes.take(k))] + lines_of(bytes.skip(k + 1))
    }
}

/// The records that the text of a bucket file holds, or the first thing that
/// is wrong with it.
pub open spec fn records_of(
    text: Seq<char>,
    reals: spec_fn(Seq<char>) -> Option<RealModel>,
) -> Result<Seq<RecordModel>, ErrorModel> {
    match read_lines(lines_of(encode_utf8(text)), reals) {
        Ok(state) => Ok(state.finished()),
        Err(e) => Err(e),
    }
}

/// The first line feed is where a line feed stands with none before it.
pub proof fn lemma_first_line_feed(bytes: Seq<u8>, k: int)
    requires
        0 <= k <= bytes.len(),
        forall|j: int| 0 <= j < k ==> bytes[j] != LINE_FEED,
        k < bytes.len() ==> bytes[k] == LINE_FEED,
    ensures
        first_line_feed(bytes) == k,
    decreases k,
{
    if k > 0 {
        lemma_first_line_feed(bytes.drop_first(), k - 1);
    }
}

struct Reader {
    records: Vec<Record>,
    id: Option<u64>,
    fields: Vec<(String, Value)>,
}

impl View for Reader {
    type V = ReaderModel;

    closed spec fn view(&self) -> ReaderModel {
        ReaderModel {
            records: record_models(self.records@),
            id: self.id,
            fields: field_models(self.fields@),
        }
    }
}

impl Reader {
    fn close(&mut self, id: u64)
        ensures
            final(self)@ == (ReaderModel {
                records: old(self)@.records.push(RecordModel { id, fields: old(self)@.fields }),
                id: None,
                fields: Seq::empty(),
            }),
            old(self)@.writable() ==> final(self)@.writable(),
    {
        let mut fields: Vec<(String, Value)> = Vec::new();
        core::mem::swap(&mut fields, &mut self.fields);
        let ghost before = self.records@;
        let record = Record { id: RecordId(id), fields };
        self.records.push(record);
        self.id = None;
        assert(record_models(self.records@) =~= record_models(before).push(record@));
        assert(field_models(self.fields@) =~= Seq::empty());
        assert(old(self)@.writable() ==> record@.writable());
    }

    fn feed<F: Fn(&str) -> Option<Real>>(&mut self, line: &[u8], read_real: &F) -> (r: Result<
        (),
        Error,
    >)
        requires
            reads_reals(read_real),
            old(self)@.writable(),
        ensures
            final(self)@.writable(),
            match r {
                Ok(_) => read_line(old(self)@, line@, real_reading(read_real)) == Ok::<
                    ReaderModel,
                    ErrorModel,
                >(final(self)@),
                Err(e) => read_line(old(self)@, line@, real_reading(read_real)) == Err::<
                    ReaderModel,
                    ErrorModel,
                >(e@),
            },
    {
        if line.len() == 0 {
            match self.id {
                Some(id) => {
                    self.close(id);
                    Ok(())
                },
                None => Err(wrong("a record without an id")),
            }
        } else if line[0] == QUOTE {
            if self.id.is_none() {
                return Err(wrong("a field without an id"));
            }
            match parse_line(line, read_real) {
                Ok(field) => {
                    let ghost before = self.fields@;
                    self.fields.push(field);
                    assert(field_models(self.fields@) =~= field_models(before).push(
                        (field.0@, field.1@),
                    ));
                    Ok(())
                },
                Err(e) => Err(e),
            }
        } else if (line[0] >= 48 && line[0] <= 57) || (line[0] >= 97 && line[0] <= 102) {
            match parse_id(line) {
                Some(id) => {
                    if self.id.is_some() {
                        return Err(wrong("id appears twice"));
                    }
                    self.id = Some(id);
                    Ok(())
                },
                None => Err(corrupted("failed to parse id: ", line)),
            }
        } else {
            let shown: Vec<u8> = vec![line[0]];
            assert(shown@ =~= seq![line@[0]]);
            match self.id {
                Some(id) => {
                    let mut text = String::from_str("expected a field name, got ");
                    let byte = lossy_string(shown.as_slice());
                    text.append(byte.as_str());
                    text.append(" (at id ");
                    push_fixed(&mut text, id, 16, 16);
                    text.append(")");
                    Err(Error::CorruptedDataFile(text))
                },
                None => Err(corrupted("expected an id, got ", shown.as_slice())),
            }
        }
    }
}

/// Reads the text of a bucket file.
///
/// Every record starts with the line of its identifier, goes on with the
/// lines of its fields and ends with a blank line, which the last record may
/// lack. Real numbers are read by `read_real`.
pub fn read_records<F: Fn(&str) -> Option<Real>>(text: &str, read_real: &F) -> (r: Result<
    Vec<Record>,
    Error,
>)
    requires
        reads_reals(read_real),
    ensures
        match r {
            Ok(records) => {
                &&& records_of(text@, real_reading(read_real)) == Ok::<
                    Seq<RecordModel>,
                    ErrorModel,
                >(record_models(records@))
                &&& forall|i: int|
                    0 <= i < records@.len() ==> (#[trigger] records@[i])@.writable()
            },
            Err(e) => records_of(text@, real_reading(read_real)) == Err::<
                Seq<RecordModel>,
                ErrorModel,
            >(e@),
        },
{
    let bytes = text.as_bytes();
    let n: usize = bytes.len();
    let ghost reals = real_reading(read_real);
    let ghost done: Seq<Seq<u8>> = Seq::empty();
    let mut reader = Reader { records: Vec::new(), id: None, fields: Vec::new() };
    let mut start: usize = 0;
    proof {
        assert(reader@ == ReaderModel::start()) by {
            assert(record_models(reader.records@) =~= Seq::empty());
            assert(field_models(reader.fields@) =~= Seq::empty());
        }
        assert(bytes@.skip(0) =~= bytes@);
    }
    while start < n
        invariant
            start <= n,
            n == bytes@.len(),
            bytes@ == encode_utf8(text@),
            reads_reals(read_real),
            reals == real_reading(read_real),
            lines_of(bytes@) == done + lines_of(bytes@.skip(start as int)),
            read_lines(done, reals) == Ok::<ReaderModel, ErrorModel>(reader@),
            reader@.writable(),
        decreases n - start,
    {
        let ghost rest = bytes@.skip(start as int);
        let mut end: usize = start;
        while end < n && bytes[end] != LINE_FEED
            invariant
                start <= end <= n,
                n == bytes@.len(),
                forall|j: int| start <= j < end ==> bytes@[j] != LINE_FEED,
            decreases n - end,
        {
            end = end + 1;
        }
        let mut stop: usize = end;
        if end < n && stop > start && bytes[stop - 1] == CARRIAGE_RETURN {
            stop = stop - 1;
        }
        let line = slice_subrange(bytes, start, stop);
        proof {
            lemma_first_line_feed(rest, end - start);
            assert(rest.take(end - start) =~= bytes@.subrange(start as int, end as int));
            if end < n {
                assert(rest.skip(end - start + 1) =~= bytes@.skip(end + 1));
                assert(line@ =~= without_return(rest.take(end - start)));
            } else {
                assert(line@ =~= rest);
                assert(lines_of(bytes@.skip(n as int)) =~= Seq::empty());
            }
            assert(lines_of(rest) =~= seq![line@] + lines_of(
                bytes@.skip(if end < n { end + 1 } else { n as int }),
            ));
            assert(done.push(line@).drop_last() =~= done);
            assert(done + lines_of(rest) =~= done.push(line@) + lines_of(
                bytes@.skip(if end < n { end + 1 } else { n as int }),
            ));
        }
        let ghost more = lines_of(bytes@.skip(if end < n { end + 1 } else { n as int }));
        let ghost state = reader@;
        match reader.feed(line, read_real) {
            Ok(_) => {},
            Err(e) => {
                proof {
                    assert(read_line(state, line@, reals) == Err::<ReaderModel, ErrorModel>(e@));
                    assert(read_lines(done.push(line@), reals) == Err::<ReaderModel, ErrorModel>(
                        e@,
                    ));
                    lemma_read_lines_fails(done.push(line@), more, reals);
                    assert(lines_of(bytes@) == done.push(line@) + more);
                }
                return Err(e);
            },
        }
        proof {
            done = done.push(line@);
        }
        start = if end < n {
            end + 1
        } else {
            n
        };
    }
    proof {
        assert(lines_of(bytes@.skip(n as int)) =~= Seq::empty());
        assert(done + Seq::<Seq<u8>>::empty() =~= done);
    }
    match reader.id {
        Some(id) => {
            reader.close(id);
        },
        None => {},
    }
    proof {
        assert forall|i: int| 0 <= i < reader.records@.len() implies (
        #[trigger] reader.records@[i])@.writable() by {
            assert(reader@.records[i].writable());
        }
    }
    Ok(reader.records)
}

/// Once a line fails, the lines behind it change nothing.
proof fn lemma_read_lines_fails(
    lines: Seq<Seq<u8>>,
    more: Seq<Seq<u8>>,
    reals: spec_fn(Seq<char>) -> Option<RealModel>,
)
    requires
        read_lines(lines, reals) is Err,
    ensures
        read_lines(lines + more, reals) == read_lines(lines, reals),
    decreases more.len(),
{
    if more.len() == 0 {
        assert(lines + more =~= lines);
    } else {
        lemma_read_lines_fails(lines, more.drop_last(), reals);
        assert((lines + more).drop_last() =~= lines + more.drop_last());
    }
}

} // verus!
