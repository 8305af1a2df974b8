//! A bucket file is read back as the records that were written to it: the
//! proof.

use vstd::prelude::*;
use vstd::utf8::*;
use crate::error::ErrorModel;
use crate::record::{
    all_hex, field_line, field_lines, field_of, first_line_feed, hex_value, id_of, id_text,
    lemma_first_line_feed, lines_of, pow16, read_line, read_lines, record_text, records_of,
    records_text, without_return, ReaderModel, RecordModel, EQUALS,
};
use crate::roundtrip::{lemma_ascii_code, lemma_scan_escaped, lemma_value_reads_back, reads_back};
use crate::text::{
    decimal, digit_char, digit_value, fixed_digits, lemma_scalar_bytes, lemma_utf8_concat,
    lemma_utf8_push,
};
use crate::util::{
    is_base64_char, literal_at, CARRIAGE_RETURN, LINE_FEED, QUOTE,
};
use crate::value::{
    blob_reads_back, encoding, escaped, escaped_char, literal, real_token, RealModel,
    ValueModel,
};

verus! {

/// No byte is a line feed or a carriage return.
pub open spec fn clean_bytes(b: Seq<u8>) -> bool {
    forall|i: int| 0 <= i < b.len() ==> #[trigger] b[i] != LINE_FEED && b[i] != CARRIAGE_RETURN
}

/// No character is a line feed or a carriage return.
pub open spec fn clean_text(s: Seq<char>) -> bool {
    forall|i: int| 0 <= i < s.len() ==> #[trigger] s[i] != '\n' && s[i] != '\r'
}

proof fn lemma_clean_utf8(s: Seq<char>)
    requires
        clean_text(s),
    ensures
        clean_bytes(encode_utf8(s)),
    decreases s.len(),
{
    if s.len() > 0 {
        let c = s[0];
        let rest = s.drop_first();
        assert forall|i: int| 0 <= i < rest.len() implies #[trigger] rest[i] != '\n' && rest[i]
            != '\r' by {
            assert(rest[i] == s[i + 1]);
        }
        lemma_clean_utf8(rest);
        lemma_scalar_bytes(c);
        let head = encode_scalar(c as u32);
        assert('\n' as u32 == 10 && '\r' as u32 == 13);
        assert(s[0] != '\n' && s[0] != '\r');
        assert forall|i: int| 0 <= i < encode_utf8(s).len() implies #[trigger] encode_utf8(s)[i]
            != LINE_FEED && encode_utf8(s)[i] != CARRIAGE_RETURN by {
            if i < head.len() {
                assert(encode_utf8(s)[i] == head[i]);
                if (c as u32) < 128 {
                    lemma_ascii_code(c);
                }
            } else {
                assert(encode_utf8(s)[i] == encode_utf8(rest)[i - head.len()]);
            }
        }
    }
}

proof fn lemma_clean_concat(a: Seq<char>, b: Seq<char>)
    requires
        clean_text(a),
        clean_text(b),
    ensures
        clean_text(a + b),
{
    assert forall|i: int| 0 <= i < (a + b).len() implies #[trigger] (a + b)[i] != '\n' && (a
        + b)[i] != '\r' by {
        if i < a.len() {
            assert((a + b)[i] == a[i]);
        } else {
            assert((a + b)[i] == b[i - a.len()]);
        }
    }
}

proof fn lemma_escaped_clean(s: Seq<char>)
    ensures
        clean_text(escaped(s)),
        clean_text(literal(s)),
    decreases s.len(),
{
    if s.len() > 0 {
        lemma_escaped_clean(s.drop_last());
        lemma_clean_concat(escaped(s.drop_last()), escaped_char(s.last()));
    }
    lemma_clean_concat(seq!['"'], escaped(s));
    lemma_clean_concat(seq!['"'] + escaped(s), seq!['"']);
}

proof fn lemma_digit_clean(d: nat)
    requires
        d < 16,
    ensures
        digit_char(d) != '\n',
        digit_char(d) != '\r',
        (digit_char(d) as u32) < 128,
        digit_value(digit_char(d) as u8) == Some(d),
{
    assert('\n' as u32 == 10 && '\r' as u32 == 13);
    if d < 10 {
        assert(digit_char(d) as u32 == 48 + d);
    } else {
        assert(digit_char(d) as u32 == 87 + d);
    }
}

proof fn lemma_decimal_clean(m: nat)
    ensures
        clean_text(decimal(m)),
    decreases m,
{
    lemma_digit_clean(m % 10);
    if m >= 10 {
        lemma_decimal_clean(m / 10);
        lemma_clean_concat(decimal(m / 10), seq![digit_char(m % 10)]);
        assert(decimal(m) =~= decimal(m / 10) + seq![digit_char(m % 10)]);
    }
}

/// Whether a value comes back from the line that it is written to: of a
/// real number and of a blob this rests on code outside the library.
pub open spec fn faithful(v: ValueModel, reals: spec_fn(Seq<char>) -> Option<RealModel>) -> bool {
    match v {
        ValueModel::Real(r) => reads_back(r, reals) && clean_text(real_token(r.text)),
        ValueModel::Blob(b) => blob_reads_back(b),
        _ => true,
    }
}

proof fn lemma_token_clean(v: ValueModel, reals: spec_fn(Seq<char>) -> Option<RealModel>)
    requires
        faithful(v, reals),
    ensures
        clean_text(encoding(v)),
{
    assert('\n' as u32 == 10 && '\r' as u32 == 13);
    match v {
        ValueModel::Null => {},
        ValueModel::Integer(n) => {
            if n < 0 {
                lemma_decimal_clean((-(n as int)) as nat);
                lemma_clean_concat(seq!['-'], decimal((-(n as int)) as nat));
            } else {
                lemma_decimal_clean(n as nat);
            }
        },
        ValueModel::Real(r) => {},
        ValueModel::Text(s) => {
            lemma_escaped_clean(s);
        },
        ValueModel::Blob(b) => {
            let t = crate::util::base64_text(b);
            assert forall|i: int| 0 <= i < t.len() implies #[trigger] t[i] != '\n' && t[i]
                != '\r' by {
                assert(is_base64_char(t[i]));
            }
            lemma_clean_concat(seq!['b'], t);
        },
    }
}

/// Sixteen hexadecimal digits spell the number that they were made of.
proof fn lemma_hex_reads_back(n: nat, width: nat)
    requires
        n < pow16(width),
    ensures
        encode_utf8(fixed_digits(n, 16, width)).len() == width,
        all_hex(encode_utf8(fixed_digits(n, 16, width))),
        hex_value(encode_utf8(fixed_digits(n, 16, width))) == n,
        clean_text(fixed_digits(n, 16, width)),
    decreases width,
{
    let t = fixed_digits(n, 16, width);
    if width == 0 {
        assert(encode_utf8(t) =~= Seq::<u8>::empty());
    } else {
        let front = fixed_digits(n / 16, 16, (width - 1) as nat);
        let d = digit_char(n % 16);
        lemma_hex_reads_back(n / 16, (width - 1) as nat);
        lemma_digit_clean(n % 16);
        lemma_scalar_bytes(d);
        lemma_utf8_push(front, d);
        let bytes = encode_utf8(t);
        assert(bytes =~= encode_utf8(front).push(d as u8));
        assert(bytes.drop_last() =~= encode_utf8(front));
        assert forall|i: int| 0 <= i < bytes.len() implies digit_value(#[trigger] bytes[i])
            is Some by {
            if i < encode_utf8(front).len() {
                assert(bytes[i] == encode_utf8(front)[i]);
            }
        }
        lemma_clean_concat(front, seq![d]);
        assert(t =~= front + seq![d]);
    }
}

/// The line of an identifier is read as the identifier.
proof fn lemma_id_reads_back(id: u64)
    ensures
        id_of(encode_utf8(id_text(id))) == Some(id),
        encode_utf8(id_text(id)).len() == 16,
        digit_value(encode_utf8(id_text(id))[0]) is Some,
        encode_utf8(id_text(id))[0] != QUOTE,
        clean_bytes(encode_utf8(id_text(id))),
{
    assert(pow16(16) == 0x1_0000_0000_0000_0000) by {
        reveal_with_fuel(pow16, 17);
    }
    lemma_hex_reads_back(id as nat, 16);
    lemma_clean_utf8(id_text(id));
    let bytes = encode_utf8(id_text(id));
    assert(digit_value(bytes[0]) is Some);
}

/// The bytes of the line of a field, without the line feed.
pub open spec fn field_bytes(name: Seq<char>, v: ValueModel) -> Seq<u8> {
    encode_utf8(literal(name)) + seq![EQUALS] + encode_utf8(encoding(v))
}

/// The line of a field is read as the field.
proof fn lemma_field_reads_back(
    name: Seq<char>,
    v: ValueModel,
    reals: spec_fn(Seq<char>) -> Option<RealModel>,
)
    requires
        faithful(v, reals),
    ensures
        field_of(field_bytes(name, v), reals) == Ok::<(Seq<char>, ValueModel), ErrorModel>(
            (name, v),
        ),
        field_bytes(name, v).len() > 0,
        field_bytes(name, v)[0] == QUOTE,
        clean_bytes(field_bytes(name, v)),
{
    let line = field_bytes(name, v);
    let quoted = encode_utf8(literal(name));
    let inner = encode_utf8(escaped(name));
    let token = encode_utf8(encoding(v));
    crate::roundtrip::lemma_literal_reads_back(name);
    lemma_utf8_concat(seq!['"'] + escaped(name), seq!['"']);
    lemma_utf8_concat(seq!['"'], escaped(name));
    lemma_utf8_push(Seq::<char>::empty(), '"');
    lemma_scalar_bytes('"');
    assert(Seq::<char>::empty().push('"') =~= seq!['"']);
    assert(encode_utf8(Seq::<char>::empty()) =~= Seq::<u8>::empty());
    assert(encode_utf8(seq!['"']) =~= seq![QUOTE]);
    assert(quoted =~= seq![QUOTE] + inner + seq![QUOTE]);
    assert(line.subrange(1, 1 + inner.len() as int) =~= inner);
    assert(line[1 + inner.len() as int] == QUOTE);
    lemma_scan_escaped(line, 1, name);
    let end = 1 + inner.len() as int;
    encode_utf8_valid_utf8(name);
    encode_utf8_decode_utf8(name);
    assert(literal_at(line) == Some((name, end)));
    assert(line[end + 1] == EQUALS);
    assert(line.skip(end + 2) =~= token);
    encode_utf8_valid_utf8(encoding(v));
    encode_utf8_decode_utf8(encoding(v));
    match v {
        ValueModel::Blob(b) => {
            lemma_value_reads_back(v, reals);
        },
        _ => {
            lemma_value_reads_back(v, reals);
        },
    }
    lemma_escaped_clean(name);
    lemma_clean_utf8(literal(name));
    lemma_token_clean(v, reals);
    lemma_clean_utf8(encoding(v));
    assert forall|i: int| 0 <= i < line.len() implies #[trigger] line[i] != LINE_FEED && line[i]
        != CARRIAGE_RETURN by {
        if i < quoted.len() {
            assert(line[i] == quoted[i]);
        } else if i == quoted.len() {
        } else {
            assert(line[i] == token[i - quoted.len() - 1]);
        }
    }
}

/// A text is complete where it is empty or ends with a line feed.
pub open spec fn complete(b: Seq<u8>) -> bool {
    b.len() == 0 || b.last() == LINE_FEED
}

proof fn lemma_first_line_feed_found(bytes: Seq<u8>)
    ensures
        0 <= first_line_feed(bytes) <= bytes.len(),
        forall|j: int| 0 <= j < first_line_feed(bytes) ==> bytes[j] != LINE_FEED,
        first_line_feed(bytes) < bytes.len() ==> bytes[first_line_feed(bytes)] == LINE_FEED,
    decreases bytes.len(),
{
    if bytes.len() > 0 && bytes[0] != LINE_FEED {
        let rest = bytes.drop_first();
        lemma_first_line_feed_found(rest);
        assert forall|j: int| 0 <= j < first_line_feed(bytes) implies bytes[j] != LINE_FEED by {
            if j > 0 {
                assert(bytes[j] == rest[j - 1]);
            }
        }
    }
}

/// A clean line and its line feed behind a complete text add one line.
proof fn lemma_lines_push(done: Seq<u8>, line: Seq<u8>)
    requires
        complete(done),
        clean_bytes(line),
    ensures
        lines_of(done + line + seq![LINE_FEED]) == lines_of(done).push(line),
        complete(done + line + seq![LINE_FEED]),
    decreases done.len(),
{
    let more = line + seq![LINE_FEED];
    let all = done + line + seq![LINE_FEED];
    assert(all =~= done + more);
    if done.len() == 0 {
        assert(all =~= more);
        assert forall|j: int| 0 <= j < line.len() implies more[j] != LINE_FEED by {
            assert(more[j] == line[j]);
        }
        lemma_first_line_feed(more, line.len() as int);
        assert(more.take(line.len() as int) =~= line);
        assert(more.skip(line.len() as int + 1) =~= Seq::<u8>::empty());
        assert(lines_of(Seq::<u8>::empty()) =~= Seq::<Seq<u8>>::empty());
        assert(lines_of(more) =~= seq![line]);
        assert(lines_of(done) =~= Seq::<Seq<u8>>::empty());
    } else {
        lemma_first_line_feed_found(done);
        let k = first_line_feed(done);
        assert(k < done.len()) by {
            if k >= done.len() {
                assert(done[done.len() - 1] != LINE_FEED);
            }
        }
        assert forall|j: int| 0 <= j < k implies all[j] != LINE_FEED by {
            assert(all[j] == done[j]);
        }
        assert(all[k] == done[k]);
        lemma_first_line_feed(all, k);
        let rest = done.skip(k + 1);
        assert(complete(rest)) by {
            if rest.len() > 0 {
                assert(rest.last() == done.last());
            }
        }
        lemma_lines_push(rest, line);
        assert(all.take(k) =~= done.take(k));
        assert(all.skip(k + 1) =~= rest + line + seq![LINE_FEED]);
        assert(lines_of(all) =~= seq![without_return(done.take(k))] + lines_of(rest).push(line));
        assert(lines_of(done) =~= seq![without_return(done.take(k))] + lines_of(rest));
        assert(lines_of(all) =~= lines_of(done).push(line));
    }
}

/// The lines of the fields of a record.
pub open spec fn fields_lines(fields: Seq<(Seq<char>, ValueModel)>) -> Seq<Seq<u8>> {
    Seq::new(fields.len(), |i: int| field_bytes(fields[i].0, fields[i].1))
}

/// The lines of a record: its identifier, its fields, and a blank line.
pub open spec fn record_lines(r: RecordModel) -> Seq<Seq<u8>> {
    seq![encode_utf8(id_text(r.id))] + fields_lines(r.fields) + seq![Seq::<u8>::empty()]
}

/// The lines of the records, one record after the other.
pub open spec fn all_lines(records: Seq<RecordModel>) -> Seq<Seq<u8>>
    decreases records.len(),
{
    if records.len() == 0 {
        Seq::empty()
    } else {
        all_lines(records.drop_last()) + record_lines(records.last())
    }
}

/// Whether every value of the fields comes back from its line.
pub open spec fn faithful_fields(
    fields: Seq<(Seq<char>, ValueModel)>,
    reals: spec_fn(Seq<char>) -> Option<RealModel>,
) -> bool {
    forall|i: int| 0 <= i < fields.len() ==> faithful((#[trigger] fields[i]).1, reals)
}

/// Whether every value of the records comes back from its line.
pub open spec fn faithful_records(
    records: Seq<RecordModel>,
    reals: spec_fn(Seq<char>) -> Option<RealModel>,
) -> bool {
    forall|i: int| 0 <= i < records.len() ==> faithful_fields((#[trigger] records[i]).fields, reals)
}

proof fn lemma_line_feed_byte()
    ensures
        encode_utf8(seq!['\n']) == seq![LINE_FEED],
        encode_utf8(seq!['=']) == seq![EQUALS],
{
    lemma_utf8_push(Seq::<char>::empty(), '\n');
    lemma_utf8_push(Seq::<char>::empty(), '=');
    lemma_scalar_bytes('\n');
    lemma_scalar_bytes('=');
    assert(Seq::<char>::empty().push('\n') =~= seq!['\n']);
    assert(Seq::<char>::empty().push('=') =~= seq!['=']);
    assert(encode_utf8(Seq::<char>::empty()) =~= Seq::<u8>::empty());
    assert('\n' as u8 == 10 && '=' as u8 == 61);
}

/// The text of the fields adds the lines of the fields.
proof fn lemma_field_lines_split(
    done: Seq<u8>,
    fields: Seq<(Seq<char>, ValueModel)>,
    reals: spec_fn(Seq<char>) -> Option<RealModel>,
)
    requires
        complete(done),
        faithful_fields(fields, reals),
    ensures
        lines_of(done + encode_utf8(field_lines(fields))) == lines_of(done) + fields_lines(fields),
        complete(done + encode_utf8(field_lines(fields))),
    decreases fields.len(),
{
    if fields.len() == 0 {
        assert(encode_utf8(field_lines(fields)) =~= Seq::<u8>::empty());
        assert(done + encode_utf8(field_lines(fields)) =~= done);
        assert(lines_of(done) + fields_lines(fields) =~= lines_of(done));
    } else {
        let front = fields.drop_last();
        let (name, v) = fields.last();
        assert(faithful_fields(front, reals)) by {
            assert forall|i: int| 0 <= i < front.len() implies faithful(
                (#[trigger] front[i]).1,
                reals,
            ) by {
                assert(faithful(fields[i].1, reals));
            }
        }
        assert(faithful(fields[fields.len() - 1].1, reals));
        lemma_field_lines_split(done, front, reals);
        lemma_field_reads_back(name, v, reals);
        lemma_line_feed_byte();
        let line = field_bytes(name, v);
        lemma_utf8_concat(field_lines(front), field_line(name, v));
        lemma_utf8_concat(literal(name) + seq!['='] + encoding(v), seq!['\n']);
        lemma_utf8_concat(literal(name) + seq!['='], encoding(v));
        lemma_utf8_concat(literal(name), seq!['=']);
        assert(encode_utf8(field_line(name, v)) =~= line + seq![LINE_FEED]);
        let before = done + encode_utf8(field_lines(front));
        lemma_lines_push(before, line);
        assert(done + encode_utf8(field_lines(fields)) =~= before + line + seq![LINE_FEED]);
        assert(fields_lines(fields) =~= fields_lines(front).push(line));
        assert(lines_of(before).push(line) =~= lines_of(done) + fields_lines(fields));
    }
}

/// The text of a record adds the lines of the record.
proof fn lemma_record_lines_split(
    done: Seq<u8>,
    r: RecordModel,
    reals: spec_fn(Seq<char>) -> Option<RealModel>,
)
    requires
        complete(done),
        faithful_fields(r.fields, reals),
    ensures
        lines_of(done + encode_utf8(record_text(r))) == lines_of(done) + record_lines(r),
        complete(done + encode_utf8(record_text(r))),
{
    let id_line = encode_utf8(id_text(r.id));
    lemma_id_reads_back(r.id);
    lemma_line_feed_byte();
    lemma_utf8_concat(id_text(r.id) + seq!['\n'] + field_lines(r.fields), seq!['\n']);
    lemma_utf8_concat(id_text(r.id) + seq!['\n'], field_lines(r.fields));
    lemma_utf8_concat(id_text(r.id), seq!['\n']);
    let after_id = done + id_line + seq![LINE_FEED];
    lemma_lines_push(done, id_line);
    lemma_field_lines_split(after_id, r.fields, reals);
    let after_fields = after_id + encode_utf8(field_lines(r.fields));
    let blank = Seq::<u8>::empty();
    assert(clean_bytes(blank));
    lemma_lines_push(after_fields, blank);
    assert(done + encode_utf8(record_text(r)) =~= after_fields + blank + seq![LINE_FEED]);
    assert(lines_of(after_fields).push(blank) =~= lines_of(done) + record_lines(r));
}

/// The text of the records has the lines of the records.
proof fn lemma_records_lines(
    records: Seq<RecordModel>,
    reals: spec_fn(Seq<char>) -> Option<RealModel>,
)
    requires
        faithful_records(records, reals),
    ensures
        lines_of(encode_utf8(records_text(records))) == all_lines(records),
        complete(encode_utf8(records_text(records))),
    decreases records.len(),
{
    if records.len() == 0 {
        assert(encode_utf8(records_text(records)) =~= Seq::<u8>::empty());
    } else {
        let front = records.drop_last();
        assert(faithful_records(front, reals)) by {
            assert forall|i: int| 0 <= i < front.len() implies faithful_fields(
                (#[trigger] front[i]).fields,
                reals,
            ) by {
                assert(faithful_fields(records[i].fields, reals));
            }
        }
        assert(faithful_fields(records[records.len() - 1].fields, reals));
        lemma_records_lines(front, reals);
        lemma_utf8_concat(records_text(front), record_text(records.last()));
        lemma_record_lines_split(encode_utf8(records_text(front)), records.last(), reals);
    }
}

/// What lines do to the reader from a given state on.
pub open spec fn read_from(
    state: ReaderModel,
    lines: Seq<Seq<u8>>,
    reals: spec_fn(Seq<char>) -> Option<RealModel>,
) -> Result<ReaderModel, ErrorModel>
    decreases lines.len(),
{
    if lines.len() == 0 {
        Ok(state)
    } else {
        match read_from(state, lines.drop_last(), reals) {
            Ok(s) => read_line(s, lines.last(), reals),
            Err(e) => Err(e),
        }
    }
}

proof fn lemma_read_from_start(lines: Seq<Seq<u8>>, reals: spec_fn(Seq<char>) -> Option<RealModel>)
    ensures
        read_lines(lines, reals) == read_from(ReaderModel::start(), lines, reals),
    decreases lines.len(),
{
    if lines.len() > 0 {
        lemma_read_from_start(lines.drop_last(), reals);
    }
}

proof fn lemma_read_from_concat(
    state: ReaderModel,
    a: Seq<Seq<u8>>,
    b: Seq<Seq<u8>>,
    reals: spec_fn(Seq<char>) -> Option<RealModel>,
)
    ensures
        read_from(state, a + b, reals) == match read_from(state, a, reals) {
            Ok(s) => read_from(s, b, reals),
            Err(e) => Err(e),
        },
    decreases b.len(),
{
    if b.len() == 0 {
        assert(a + b =~= a);
    } else {
        lemma_read_from_concat(state, a, b.drop_last(), reals);
        assert((a + b).drop_last() =~= a + b.drop_last());
    }
}

/// The lines of fields are read as the fields, behind those already read.
proof fn lemma_fields_read(
    state: ReaderModel,
    fields: Seq<(Seq<char>, ValueModel)>,
    reals: spec_fn(Seq<char>) -> Option<RealModel>,
)
    requires
        state.id is Some,
        faithful_fields(fields, reals),
    ensures
        read_from(state, fields_lines(fields), reals) == Ok::<ReaderModel, ErrorModel>(
            ReaderModel { fields: state.fields + fields, ..state },
        ),
    decreases fields.len(),
{
    if fields.len() == 0 {
        assert(state.fields + fields =~= state.fields);
    } else {
        let front = fields.drop_last();
        let (name, v) = fields.last();
        assert(faithful_fields(front, reals)) by {
            assert forall|i: int| 0 <= i < front.len() implies faithful(
                (#[trigger] front[i]).1,
                reals,
            ) by {
                assert(faithful(fields[i].1, reals));
            }
        }
        assert(faithful(fields[fields.len() - 1].1, reals));
        lemma_fields_read(state, front, reals);
        lemma_field_reads_back(name, v, reals);
        assert(fields_lines(fields).drop_last() =~= fields_lines(front));
        assert(fields_lines(fields).last() == field_bytes(name, v));
        assert((state.fields + front).push((name, v)) =~= state.fields + fields);
    }
}

/// The lines of a record are read as the record.
proof fn lemma_record_read(
    done: Seq<RecordModel>,
    r: RecordModel,
    reals: spec_fn(Seq<char>) -> Option<RealModel>,
)
    requires
        faithful_fields(r.fields, reals),
    ensures
        read_from(
            ReaderModel { records: done, id: None, fields: Seq::empty() },
            record_lines(r),
            reals,
        ) == Ok::<ReaderModel, ErrorModel>(
            ReaderModel { records: done.push(r), id: None, fields: Seq::empty() },
        ),
{
    let state = ReaderModel { records: done, id: None, fields: Seq::<(Seq<char>, ValueModel)>::empty() };
    let id_line = encode_utf8(id_text(r.id));
    let opened = ReaderModel { id: Some(r.id), ..state };
    lemma_id_reads_back(r.id);
    assert(read_line(state, id_line, reals) == Ok::<ReaderModel, ErrorModel>(opened));
    let first = seq![id_line];
    assert(first.drop_last() =~= Seq::<Seq<u8>>::empty());
    assert(read_from(state, first, reals) == Ok::<ReaderModel, ErrorModel>(opened)) by {
        reveal_with_fuel(read_from, 2);
    }
    lemma_fields_read(opened, r.fields, reals);
    let filled = ReaderModel { fields: r.fields, ..opened };
    assert(opened.fields + r.fields =~= r.fields);
    lemma_read_from_concat(state, first, fields_lines(r.fields), reals);
    let blank = seq![Seq::<u8>::empty()];
    assert(blank.drop_last() =~= Seq::<Seq<u8>>::empty());
    assert(read_from(filled, blank, reals) == read_line(filled, Seq::<u8>::empty(), reals)) by {
        reveal_with_fuel(read_from, 2);
    }
    lemma_read_from_concat(state, first + fields_lines(r.fields), blank, reals);
}

/// The lines of the records are read as the records.
proof fn lemma_all_read(
    records: Seq<RecordModel>,
    reals: spec_fn(Seq<char>) -> Option<RealModel>,
)
    requires
        faithful_records(records, reals),
    ensures
        read_from(ReaderModel::start(), all_lines(records), reals) == Ok::<
            ReaderModel,
            ErrorModel,
        >(ReaderModel { records, id: None, fields: Seq::empty() }),
    decreases records.len(),
{
    if records.len() == 0 {
        assert(records =~= Seq::<RecordModel>::empty());
    } else {
        let front = records.drop_last();
        assert(faithful_records(front, reals)) by {
            assert forall|i: int| 0 <= i < front.len() implies faithful_fields(
                (#[trigger] front[i]).fields,
                reals,
            ) by {
                assert(faithful_fields(records[i].fields, reals));
            }
        }
        assert(faithful_fields(records[records.len() - 1].fields, reals));
        lemma_all_read(front, reals);
        lemma_record_read(front, records.last(), reals);
        lemma_read_from_concat(
            ReaderModel::start(),
            all_lines(front),
            record_lines(records.last()),
            reals,
        );
        assert(front.push(records.last()) =~= records);
    }
}

/// Whether the base-64 engine gives back every blob of the records.
pub open spec fn blobs_read_back(records: Seq<RecordModel>) -> bool {
    forall|i: int, j: int|
        0 <= i < records.len() && 0 <= j < records[i].fields.len() ==> (
        #[trigger] records[i].fields[j].1 matches ValueModel::Blob(b) ==> blob_reads_back(b))
}

/// Whether every real number of the records comes back from its token: the
/// token has no line break, starts with a digit or a minus sign, and is read
/// by `reals` as that number.
pub open spec fn reals_read_back(
    records: Seq<RecordModel>,
    reals: spec_fn(Seq<char>) -> Option<RealModel>,
) -> bool {
    forall|i: int, j: int|
        0 <= i < records.len() && 0 <= j < records[i].fields.len() ==> (
        #[trigger] records[i].fields[j].1 matches ValueModel::Real(r) ==> reads_back(r, reals)
            && clean_text(real_token(r.text)))
}

pub proof fn lemma_faithful_records(
    records: Seq<RecordModel>,
    reals: spec_fn(Seq<char>) -> Option<RealModel>,
)
    requires
        blobs_read_back(records),
        reals_read_back(records, reals),
    ensures
        faithful_records(records, reals),
{
    assert forall|i: int| 0 <= i < records.len() implies faithful_fields(
        (#[trigger] records[i]).fields,
        reals,
    ) by {
        assert forall|j: int| 0 <= j < records[i].fields.len() implies faithful(
            (#[trigger] records[i].fields[j]).1,
            reals,
        ) by {
            let v = records[i].fields[j].1;
            assert(v matches ValueModel::Blob(b) ==> blob_reads_back(b));
            assert(v matches ValueModel::Real(r) ==> reads_back(r, reals) && clean_text(
                real_token(r.text),
            ));
        }
    }
}

/// Reading the text of a bucket file gives back the records that were written
/// to it, in their order.
///
/// This holds where every value comes back from its line. Nulls, integers
/// and texts always do. A blob does where the base-64 engine keeps to its
/// alphabet and undoes its own encoding. A real number does where its token
/// has no line break, starts with a digit or a minus sign, and is read by
/// `reals` as that number.
pub proof fn lemma_records_read_back(
    records: Seq<RecordModel>,
    reals: spec_fn(Seq<char>) -> Option<RealModel>,
)
    requires
        faithful_records(records, reals),
    ensures
        records_of(records_text(records), reals) == Ok::<Seq<RecordModel>, ErrorModel>(records),
{
    lemma_records_lines(records, reals);
    lemma_all_read(records, reals);
    lemma_read_from_start(all_lines(records), reals);
}

} // verus!
