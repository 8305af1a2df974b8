//! A table of the database as the codec sees it, the statements that read and
//! fill it, and the directory name that stands for it.

use vstd::prelude::*;
use vstd::utf8::*;
use crate::text::{
    decimal, digit_char, fixed_digits, lemma_scalar_bytes, lemma_utf8_injective, lemma_utf8_push,
    push_decimal, push_fixed,
};

verus! {

/// One table: its name, the columns in declaration order, and the SQL that
/// recreates it.
#[derive(Clone, Debug, PartialEq, Eq)]
pub struct Table {
    /// The name made safe for use as a directory name.
    pub escaped_name: String,
    pub name: String,
    /// The `CREATE TABLE` statement as the database stores it.
    pub create_table_sql: String,
    /// The table's `CREATE INDEX` statements, each closed by a semicolon,
    /// with a blank line between two.
    pub create_index_sql: String,
    /// The table's `CREATE TRIGGER` statements, laid out like the indexes.
    pub create_trigger_sql: String,
    pub columns: Vec<String>,
    /// The column that identifies a row, if one is declared.
    pub primary_key: Option<String>,
}

/// The mathematical content of a [`Table`].
pub struct TableModel {
    pub escaped_name: Seq<char>,
    pub name: Seq<char>,
    pub create_table_sql: Seq<char>,
    pub create_index_sql: Seq<char>,
    pub create_trigger_sql: Seq<char>,
    pub columns: Seq<Seq<char>>,
    pub primary_key: Option<Seq<char>>,
}

/// The character sequences that a vector of strings holds.
pub open spec fn texts(v: Seq<String>) -> Seq<Seq<char>> {
    Seq::new(v.len(), |i: int| v[i]@)
}

impl View for Table {
    type V = TableModel;

    open spec fn view(&self) -> TableModel {
        TableModel {
            escaped_name: self.escaped_name@,
            name: self.name@,
            create_table_sql: self.create_table_sql@,
            create_index_sql: self.create_index_sql@,
            create_trigger_sql: self.create_trigger_sql@,
            columns: texts(self.columns@),
            primary_key: match self.primary_key {
                Some(pk) => Some(pk@),
                None => None,
            },
        }
    }
}

impl TableModel {
    /// The escaped name belongs to the name, and the primary key is one of
    /// the columns.
    pub open spec fn wf(self) -> bool {
        &&& self.escaped_name == escape(self.name)
        &&& self.primary_key matches Some(pk) ==> self.columns.contains(pk)
    }
}

/// Characters that a file name keeps as they are: ASCII letters and digits,
/// Hangul syllables, and `_`, `-`, `.`.
pub open spec fn is_plain(c: char) -> bool {
    ||| '0' <= c <= '9'
    ||| 'a' <= c <= 'z'
    ||| 'A' <= c <= 'Z'
    ||| '\u{AC00}' <= c <= '\u{D7A3}'
    ||| c == '_'
    ||| c == '-'
    ||| c == '.'
}

/// Each byte as two lower-case hexadecimal digits.
pub open spec fn hex_bytes(b: Seq<u8>) -> Seq<char>
    decreases b.len(),
{
    if b.len() == 0 {
        Seq::empty()
    } else {
        hex_bytes(b.drop_last()) + fixed_digits(b.last() as nat, 16, 2)
    }
}

/// What one character of a name becomes: itself where it is plain, else its
/// UTF-8 bytes in hexadecimal between two `$`.
pub open spec fn escape_char(c: char) -> Seq<char> {
    if is_plain(c) {
        seq![c]
    } else {
        seq!['$'] + hex_bytes(encode_scalar(c as u32)) + seq!['$']
    }
}

/// The file-name-safe form of a name.
pub open spec fn escape(name: Seq<char>) -> Seq<char>
    decreases name.len(),
{
    if name.len() == 0 {
        Seq::empty()
    } else {
        escape(name.drop_last()) + escape_char(name.last())
    }
}

/// Whether every character is plain or `$`.
pub open spec fn path_safe(s: Seq<char>) -> bool {
    forall|i: int| 0 <= i < s.len() ==> is_plain(#[trigger] s[i]) || s[i] == '$'
}

proof fn lemma_digit_char_plain(d: nat)
    requires
        d < 16,
    ensures
        is_plain(digit_char(d)),
        digit_char(d) != '$',
{
}

proof fn lemma_hex_bytes_safe(b: Seq<u8>)
    ensures
        path_safe(hex_bytes(b)),
        hex_bytes(b).len() == 2 * b.len(),
    decreases b.len(),
{
    if b.len() > 0 {
        lemma_hex_bytes_safe(b.drop_last());
        let d = fixed_digits(b.last() as nat, 16, 2);
        reveal_with_fuel(fixed_digits, 3);
        let n = b.last() as nat;
        assert(d =~= seq![digit_char((n / 16) % 16), digit_char(n % 16)]);
        lemma_digit_char_plain((n / 16) % 16);
        lemma_digit_char_plain(n % 16);
    }
}

/// The escaped form of any name holds only plain characters and `$`.
pub proof fn lemma_escape_safe(name: Seq<char>)
    ensures
        path_safe(escape(name)),
    decreases name.len(),
{
    if name.len() > 0 {
        lemma_escape_safe(name.drop_last());
        let c = name.last();
        if !is_plain(c) {
            lemma_hex_bytes_safe(encode_scalar(c as u32));
        }
    }
}

/// The escaped form of a name starts with what its first character becomes.
proof fn lemma_escape_front(name: Seq<char>)
    requires
        name.len() > 0,
    ensures
        escape(name) == escape_char(name[0]) + escape(name.drop_first()),
    decreases name.len(),
{
    if name.len() == 1 {
        assert(name.drop_last() =~= Seq::<char>::empty());
        assert(name.drop_first() =~= Seq::<char>::empty());
        assert(escape(name) =~= escape_char(name[0]) + escape(name.drop_first()));
    } else {
        lemma_escape_front(name.drop_last());
        assert(name.drop_first().drop_last() =~= name.drop_last().drop_first());
        assert(escape(name) =~= escape_char(name[0]) + escape(name.drop_first()));
    }
}

/// The two digits of a byte tell the byte.
proof fn lemma_hex_pair(a: u8, b: u8)
    requires
        fixed_digits(a as nat, 16, 2) == fixed_digits(b as nat, 16, 2),
    ensures
        a == b,
{
    reveal_with_fuel(fixed_digits, 3);
    let x = a as nat;
    let y = b as nat;
    let da = fixed_digits(x, 16, 2);
    let db = fixed_digits(y, 16, 2);
    assert(da =~= seq![digit_char((x / 16) % 16), digit_char(x % 16)]);
    assert(db =~= seq![digit_char((y / 16) % 16), digit_char(y % 16)]);
    assert(da[0] == db[0] && da[1] == db[1]);
    lemma_digit_char_injective((x / 16) % 16, (y / 16) % 16);
    lemma_digit_char_injective(x % 16, y % 16);
}

proof fn lemma_digit_char_injective(a: nat, b: nat)
    requires
        a < 16,
        b < 16,
        digit_char(a) == digit_char(b),
    ensures
        a == b,
{
    assert(digit_char(a) as u32 == if a < 10 {
        48 + a
    } else {
        87 + a
    });
    assert(digit_char(b) as u32 == if b < 10 {
        48 + b
    } else {
        87 + b
    });
}

/// The digits of bytes tell the bytes.
proof fn lemma_hex_bytes_injective(a: Seq<u8>, b: Seq<u8>)
    requires
        hex_bytes(a) == hex_bytes(b),
    ensures
        a == b,
    decreases a.len(),
{
    lemma_hex_bytes_safe(a);
    lemma_hex_bytes_safe(b);
    assert(a.len() == b.len());
    if a.len() > 0 {
        let fa = hex_bytes(a.drop_last());
        let fb = hex_bytes(b.drop_last());
        let da = fixed_digits(a.last() as nat, 16, 2);
        let db = fixed_digits(b.last() as nat, 16, 2);
        lemma_hex_bytes_safe(a.drop_last());
        lemma_hex_bytes_safe(b.drop_last());
        assert(fa.len() == fb.len());
        assert(fa =~= hex_bytes(a).subrange(0, fa.len() as int));
        assert(fb =~= hex_bytes(b).subrange(0, fb.len() as int));
        assert(da =~= hex_bytes(a).subrange(fa.len() as int, hex_bytes(a).len() as int));
        assert(db =~= hex_bytes(b).subrange(fb.len() as int, hex_bytes(b).len() as int));
        lemma_hex_bytes_injective(a.drop_last(), b.drop_last());
        lemma_hex_pair(a.last(), b.last());
        assert(a =~= a.drop_last().push(a.last()));
        assert(b =~= b.drop_last().push(b.last()));
    } else {
        assert(a =~= b);
    }
}

/// No digit of bytes is a dollar sign.
proof fn lemma_hex_bytes_no_dollar(b: Seq<u8>)
    ensures
        forall|i: int| 0 <= i < hex_bytes(b).len() ==> #[trigger] hex_bytes(b)[i] != '$',
    decreases b.len(),
{
    if b.len() > 0 {
        lemma_hex_bytes_no_dollar(b.drop_last());
        lemma_hex_bytes_safe(b.drop_last());
        reveal_with_fuel(fixed_digits, 3);
        let n = b.last() as nat;
        let d = fixed_digits(n, 16, 2);
        assert(d =~= seq![digit_char((n / 16) % 16), digit_char(n % 16)]);
        lemma_digit_char_plain((n / 16) % 16);
        lemma_digit_char_plain(n % 16);
        assert forall|i: int| 0 <= i < hex_bytes(b).len() implies #[trigger] hex_bytes(b)[i]
            != '$' by {
            let front = hex_bytes(b.drop_last());
            if i < front.len() {
                assert(hex_bytes(b)[i] == front[i]);
            } else {
                assert(hex_bytes(b)[i] == d[i - front.len()]);
            }
        }
    }
}

/// Two characters that are spelled by the same bytes are the same.
proof fn lemma_scalar_injective(a: char, b: char)
    requires
        encode_scalar(a as u32) == encode_scalar(b as u32),
    ensures
        a == b,
{
    lemma_utf8_push(Seq::<char>::empty(), a);
    lemma_utf8_push(Seq::<char>::empty(), b);
    lemma_utf8_injective(Seq::<char>::empty().push(a), Seq::<char>::empty().push(b));
    assert(Seq::<char>::empty().push(a)[0] == a);
    assert(Seq::<char>::empty().push(b)[0] == b);
}

/// Different names have different escaped forms.
pub proof fn lemma_escape_injective(a: Seq<char>, b: Seq<char>)
    requires
        escape(a) == escape(b),
    ensures
        a == b,
    decreases a.len(),
{
    if a.len() == 0 {
        if b.len() > 0 {
            lemma_escape_front(b);
            assert(escape_char(b[0]).len() > 0);
            assert(escape(b).len() > 0);
        }
        assert(a =~= b);
    } else {
        lemma_escape_front(a);
        let ea = escape_char(a[0]);
        assert(ea.len() > 0);
        assert(escape(a).len() > 0);
        if b.len() == 0 {
            assert(escape(b).len() == 0);
        } else {
            lemma_escape_front(b);
            let eb = escape_char(b[0]);
            let ta = escape(a.drop_first());
            let tb = escape(b.drop_first());
            assert(escape(a)[0] == ea[0]);
            assert(escape(b)[0] == eb[0]);
            if is_plain(a[0]) {
                assert(ea[0] != '$');
                assert(is_plain(b[0]));
                assert(a[0] == b[0]);
                assert(ta =~= escape(a).subrange(1, escape(a).len() as int));
                assert(tb =~= escape(b).subrange(1, escape(b).len() as int));
            } else {
                assert(ea[0] == '$');
                assert(!is_plain(b[0]));
                let ba = encode_scalar(a[0] as u32);
                let bb = encode_scalar(b[0] as u32);
                let ha = hex_bytes(ba);
                let hb = hex_bytes(bb);
                lemma_hex_bytes_no_dollar(ba);
                lemma_hex_bytes_no_dollar(bb);
                lemma_hex_bytes_safe(ba);
                lemma_hex_bytes_safe(bb);
                let whole = escape(a);
                let na = ha.len() as int;
                let nb = hb.len() as int;
                assert(ea.len() == na + 2 && eb.len() == nb + 2);
                assert(ea[na + 1] == '$' && eb[nb + 1] == '$');
                assert(whole[na + 1] == ea[na + 1]);
                assert(escape(b)[nb + 1] == eb[nb + 1]);
                if na < nb {
                    assert(whole[na + 1] == eb[na + 1]);
                    assert(eb[na + 1] == hb[na]);
                } else if nb < na {
                    assert(whole[nb + 1] == ea[nb + 1]);
                    assert(ea[nb + 1] == ha[nb]);
                }
                assert(ha.len() == hb.len());
                assert(ha =~= whole.subrange(1, 1 + ha.len() as int)) by {
                    assert forall|i: int| 0 <= i < ha.len() implies ha[i] == whole[1 + i] by {
                        assert(whole[1 + i] == ea[1 + i]);
                    }
                }
                assert(hb =~= whole.subrange(1, 1 + hb.len() as int)) by {
                    assert forall|i: int| 0 <= i < hb.len() implies hb[i] == whole[1 + i] by {
                        assert(escape(b)[1 + i] == eb[1 + i]);
                    }
                }
                lemma_hex_bytes_injective(ba, bb);
                lemma_scalar_injective(a[0], b[0]);
                assert(ta =~= whole.subrange(ea.len() as int, whole.len() as int));
                assert(tb =~= whole.subrange(eb.len() as int, whole.len() as int));
            }
            lemma_escape_injective(a.drop_first(), b.drop_first());
            assert(a =~= seq![a[0]] + a.drop_first());
            assert(b =~= seq![b[0]] + b.drop_first());
        }
    }
}

fn plain(c: char) -> (r: bool)
    ensures
        r == is_plain(c),
{
    (c >= '0' && c <= '9') || (c >= 'a' && c <= 'z') || (c >= 'A' && c <= 'Z') || (c >= '\u{AC00}'
        && c <= '\u{D7A3}') || c == '_' || c == '-' || c == '.'
}

fn push_hex_byte(out: &mut String, b: u8, Ghost(done): Ghost<Seq<u8>>)
    ensures
        final(out)@ == old(out)@ + fixed_digits(b as nat, 16, 2),
        hex_bytes(done.push(b)) == hex_bytes(done) + fixed_digits(b as nat, 16, 2),
{
    push_fixed(out, b as u64, 16, 2);
    assert(done.push(b).drop_last() =~= done);
}

/// Appends what `c` becomes in a file name.
fn push_escaped_char(out: &mut String, c: char)
    ensures
        final(out)@ == old(out)@ + escape_char(c),
{
    if plain(c) {
        out.push(c);
        assert(out@ =~= old(out)@ + escape_char(c));
        return ;
    }
    out.push('$');
    let x: u32 = c as u32;
    let ghost e = Seq::<u8>::empty();
    assert(hex_bytes(e) =~= Seq::<char>::empty());
    if x <= 0x7F {
        let b1: u8 = (x & 0x7F) as u8;
        push_hex_byte(out, b1, Ghost(e));
        assert(encode_scalar(x) =~= e.push(b1));
    } else if x <= 0x7FF {
        assert(((x >> 6) & 0x1F) <= 0x1F && (x & 0x3F) <= 0x3F) by (bit_vector);
        let b1: u8 = 0xC0 | ((x >> 6) & 0x1F) as u8;
        let b2: u8 = 0x80 | (x & 0x3F) as u8;
        push_hex_byte(out, b1, Ghost(e));
        push_hex_byte(out, b2, Ghost(e.push(b1)));
        assert(encode_scalar(x) =~= e.push(b1).push(b2));
    } else if x <= 0xFFFF {
        assert(((x >> 12) & 0x0F) <= 0x0F && ((x >> 6) & 0x3F) <= 0x3F && (x & 0x3F) <= 0x3F)
            by (bit_vector);
        let b1: u8 = 0xE0 | ((x >> 12) & 0x0F) as u8;
        let b2: u8 = 0x80 | ((x >> 6) & 0x3F) as u8;
        let b3: u8 = 0x80 | (x & 0x3F) as u8;
        push_hex_byte(out, b1, Ghost(e));
        push_hex_byte(out, b2, Ghost(e.push(b1)));
        push_hex_byte(out, b3, Ghost(e.push(b1).push(b2)));
        assert(encode_scalar(x) =~= e.push(b1).push(b2).push(b3));
    } else {
        assert(((x >> 18) & 0x7) <= 0x7 && ((x >> 12) & 0x3F) <= 0x3F && ((x >> 6) & 0x3F) <= 0x3F
            && (x & 0x3F) <= 0x3F) by (bit_vector);
        let b1: u8 = 0xF0 | ((x >> 18) & 0x7) as u8;
        let b2: u8 = 0x80 | ((x >> 12) & 0x3F) as u8;
        let b3: u8 = 0x80 | ((x >> 6) & 0x3F) as u8;
        let b4: u8 = 0x80 | (x & 0x3F) as u8;
        push_hex_byte(out, b1, Ghost(e));
        push_hex_byte(out, b2, Ghost(e.push(b1)));
        push_hex_byte(out, b3, Ghost(e.push(b1).push(b2)));
        push_hex_byte(out, b4, Ghost(e.push(b1).push(b2).push(b3)));
        assert(encode_scalar(x) =~= e.push(b1).push(b2).push(b3).push(b4));
    }
    out.push('$');
    assert(out@ =~= old(out)@ + escape_char(c));
}

/// Turns a table name into a string that is safe as a file name: plain
/// characters stay, every other one is spelled out as its UTF-8 bytes in
/// hexadecimal between two `$`.
pub fn escape_path(s: &str) -> (r: String)
    ensures
        r@ == escape(s@),
        path_safe(r@),
{
    let mut out = String::new();
    for c in it: s.chars()
        invariant
            it.seq() == s@,
            out@ == escape(s@.take(it.index())),
    {
        let ghost i = it.index();
        push_escaped_char(&mut out, c);
        assert(s@.take(i + 1).drop_last() =~= s@.take(i));
    }
    proof {
        assert(s@.take(s@.len() as int) =~= s@);
        lemma_escape_safe(s@);
    }
    out
}

/// `s` with every `q` written twice.
pub open spec fn doubled(s: Seq<char>, q: char) -> Seq<char>
    decreases s.len(),
{
    if s.len() == 0 {
        Seq::empty()
    } else {
        doubled(s.drop_last(), q) + (if s.last() == q {
            seq![q, q]
        } else {
            seq![s.last()]
        })
    }
}

/// `s` between two `q`, with every `q` inside it written twice: an SQL
/// identifier or string in quotes.
pub open spec fn quoted(s: Seq<char>, q: char) -> Seq<char> {
    seq![q] + doubled(s, q) + seq![q]
}

/// The parts one after another with `sep` between two of them.
pub open spec fn joined(parts: Seq<Seq<char>>, sep: Seq<char>) -> Seq<char>
    decreases parts.len(),
{
    if parts.len() == 0 {
        Seq::empty()
    } else if parts.len() == 1 {
        parts[0]
    } else {
        joined(parts.drop_last(), sep) + sep + parts.last()
    }
}

/// The `n`-th placeholder of a prepared statement, counted from one.
pub open spec fn placeholder(n: nat) -> Seq<char> {
    seq!['?'] + decimal(n)
}

impl TableModel {
    /// The columns, each in quotes `q`.
    pub open spec fn quoted_columns(self, q: char) -> Seq<Seq<char>> {
        Seq::new(self.columns.len(), |i: int| quoted(self.columns[i], q))
    }

    pub open spec fn placeholders(self) -> Seq<Seq<char>> {
        Seq::new(self.columns.len(), |i: int| placeholder((i + 1) as nat))
    }

    /// The statement that reads every row, column by column.
    pub open spec fn record_stmt(self) -> Seq<char> {
        "SELECT "@ + joined(self.quoted_columns('"'), ", "@) + " FROM "@ + quoted(self.name, '\'')
            + ";"@
    }

    /// The statement that inserts one row, with one placeholder per column.
    pub open spec fn insert_stmt(self) -> Seq<char> {
        "INSERT INTO "@ + quoted(self.name, '\'') + " ("@ + joined(
            self.quoted_columns('\''),
            ", "@,
        ) + ") VALUES ("@ + joined(self.placeholders(), ", "@) + ")"@
    }
}

/// Appends `s` in quotes `q`.
fn push_quoted(out: &mut String, s: &str, q: char)
    ensures
        final(out)@ == old(out)@ + quoted(s@, q),
{
    out.push(q);
    for c in it: s.chars()
        invariant
            it.seq() == s@,
            out@ == old(out)@.push(q) + doubled(s@.take(it.index()), q),
    {
        let ghost i = it.index();
        if c == q {
            out.push(q);
        }
        out.push(c);
        assert(s@.take(i + 1).drop_last() =~= s@.take(i));
        assert(out@ =~= old(out)@.push(q) + doubled(s@.take(i + 1), q));
    }
    out.push(q);
    assert(s@.take(s@.len() as int) =~= s@);
    assert(out@ =~= old(out)@ + quoted(s@, q));
}

/// What joining one part more adds.
proof fn lemma_joined_step(parts: Seq<Seq<char>>, sep: Seq<char>, i: int)
    requires
        0 <= i < parts.len(),
    ensures
        joined(parts.take(i + 1), sep) == if i == 0 {
            parts[0]
        } else {
            joined(parts.take(i), sep) + sep + parts[i]
        },
{
    assert(parts.take(i + 1).drop_last() =~= parts.take(i));
}

impl Table {
    /// Appends the columns in quotes `q`, with `, ` between two of them.
    fn push_columns(&self, out: &mut String, q: char)
        ensures
            final(out)@ == old(out)@ + joined(self@.quoted_columns(q), ", "@),
    {
        let ghost parts = self@.quoted_columns(q);
        let mut i: usize = 0;
        while i < self.columns.len()
            invariant
                i <= self.columns.len(),
                parts == self@.quoted_columns(q),
                out@ == old(out)@ + joined(parts.take(i as int), ", "@),
            decreases self.columns.len() - i,
        {
            let ghost before = out@;
            if i > 0 {
                out.append(", ");
            }
            push_quoted(out, self.columns[i].as_str(), q);
            proof {
                lemma_joined_step(parts, ", "@, i as int);
                assert(out@ =~= old(out)@ + joined(parts.take(i + 1), ", "@));
            }
            i = i + 1;
        }
        assert(parts.take(parts.len() as int) =~= parts);
    }

    /// The `SELECT` statement that reads every row of the table: the columns
    /// in double quotes in declaration order, the table in single quotes.
    pub fn record_stmt(&self) -> (r: String)
        ensures
            r@ == self@.record_stmt(),
    {
        let mut out = String::from_str("SELECT ");
        self.push_columns(&mut out, '"');
        out.append(" FROM ");
        push_quoted(&mut out, self.name.as_str(), '\'');
        out.append(";");
        out
    }

    /// The `INSERT` statement that fills one row of the table: table and
    /// columns in single quotes, and the placeholders `?1`, `?2`, and so on.
    pub fn insert_stmt(&self) -> (r: String)
        ensures
            r@ == self@.insert_stmt(),
    {
        let mut out = String::from_str("INSERT INTO ");
        push_quoted(&mut out, self.name.as_str(), '\'');
        out.append(" (");
        self.push_columns(&mut out, '\'');
        out.append(") VALUES (");
        let ghost parts = self@.placeholders();
        let ghost head = out@;
        let mut i: usize = 0;
        while i < self.columns.len()
            invariant
                i <= self.columns.len(),
                parts == self@.placeholders(),
                out@ == head + joined(parts.take(i as int), ", "@),
            decreases self.columns.len() - i,
        {
            if i > 0 {
                out.append(", ");
            }
            out.push('?');
            push_decimal(&mut out, (i + 1) as u64);
            proof {
                lemma_joined_step(parts, ", "@, i as int);
                assert(out@ =~= head + joined(parts.take(i + 1), ", "@));
            }
            i = i + 1;
        }
        assert(parts.take(parts.len() as int) =~= parts);
        out.append(")");
        out
    }
}

} // verus!
