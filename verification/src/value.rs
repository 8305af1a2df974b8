//! The five storage classes, and the text token that stands for a value of
//! each.

use vstd::prelude::*;
use vstd::utf8::*;
use crate::roundtrip::{lemma_value_reads_back, reads_back};
use crate::text::{decimal, push_decimal, same_text};
use crate::util::{
    base64_bytes, base64_fits, base64_text, decode_base64, encode_base64, literal_at,
    parse_string_literal, DIGIT_0, LOWER_N, QUOTE,
};

verus! {

/// A real number as the codec needs it: the bit pattern of its IEEE-754
/// binary64 form, by which it is hashed and compared, and its decimal
/// rendering, by which it is written.
///
/// The library neither renders nor reads floating-point numbers. Whoever
/// makes a `Real` supplies both parts.
#[derive(Clone, Debug, PartialEq, Eq)]
pub struct Real {
    pub bits: u64,
    pub text: String,
}

/// The mathematical content of a [`Real`].
pub struct RealModel {
    pub bits: u64,
    pub text: Seq<char>,
}

impl View for Real {
    type V = RealModel;

    open spec fn view(&self) -> RealModel {
        RealModel { bits: self.bits, text: self.text@ }
    }
}

/// A value of one of the five storage classes.
#[derive(Clone, Debug, PartialEq, Eq)]
pub enum Value {
    Null,
    Integer(i64),
    Real(Real),
    Text(String),
    Blob(Vec<u8>),
}

/// The mathematical content of a [`Value`].
pub enum ValueModel {
    Null,
    Integer(i64),
    Real(RealModel),
    Text(Seq<char>),
    Blob(Seq<u8>),
}

impl View for Value {
    type V = ValueModel;

    open spec fn view(&self) -> ValueModel {
        match self {
            Value::Null => ValueModel::Null,
            Value::Integer(n) => ValueModel::Integer(*n),
            Value::Real(r) => ValueModel::Real(r@),
            Value::Text(s) => ValueModel::Text(s@),
            Value::Blob(b) => ValueModel::Blob(b@),
        }
    }
}

impl ValueModel {
    /// Whether the value can be written: a blob must be short enough for its
    /// base-64 text to have a length that the machine can hold.
    pub open spec fn writable(self) -> bool {
        self matches ValueModel::Blob(b) ==> base64_fits(b.len())
    }
}

impl Value {
    /// Whether the value can be written: every value can but a blob so long
    /// that its base-64 text would have a length that the machine cannot
    /// hold.
    pub fn is_writable(&self) -> (r: bool)
        ensures
            r == self@.writable(),
    {
        match self {
            Value::Blob(bytes) => {
                let n: usize = bytes.len();
                let groups: usize = n / 3 + if n % 3 != 0 {
                    1
                } else {
                    0
                };
                groups <= usize::MAX / 4
            },
            _ => true,
        }
    }
}

/// What a character of a text becomes between the quotes: a backslash and a
/// letter for NUL, line feed, carriage return and tab, a backslash and itself
/// for the quote and the backslash, and itself otherwise.
pub open spec fn escaped_char(c: char) -> Seq<char> {
    if c == '\n' {
        seq!['\\', 'n']
    } else if c == '\r' {
        seq!['\\', 'r']
    } else if c == '\t' {
        seq!['\\', 't']
    } else if c == '\0' {
        seq!['\\', '0']
    } else if c == '"' || c == '\\' {
        seq!['\\', c]
    } else {
        seq![c]
    }
}

/// The text with every character escaped.
pub open spec fn escaped(s: Seq<char>) -> Seq<char>
    decreases s.len(),
{
    if s.len() == 0 {
        Seq::empty()
    } else {
        escaped(s.drop_last()) + escaped_char(s.last())
    }
}

/// The text as a literal: escaped, between double quotes.
pub open spec fn literal(s: Seq<char>) -> Seq<char> {
    seq!['"'] + escaped(s) + seq!['"']
}

/// The decimal form of an integer, with a minus sign where it is negative.
pub open spec fn int_text(n: int) -> Seq<char> {
    if n < 0 {
        seq!['-'] + decimal((-n) as nat)
    } else {
        decimal(n as nat)
    }
}

/// The token of a real number: its decimal rendering, with `.0` behind it
/// where the rendering has no decimal point.
pub open spec fn real_token(text: Seq<char>) -> Seq<char> {
    if text.contains('.') {
        text
    } else {
        text + seq!['.', '0']
    }
}

/// What the base-64 engine does with a blob: its text is made of the
/// characters of the alphabet, and decodes to the blob.
pub open spec fn blob_reads_back(b: Seq<u8>) -> bool {
    &&& base64_bytes(base64_text(b)) == Some(b)
    &&& forall|i: int|
        0 <= i < base64_text(b).len() ==> crate::util::is_base64_char(#[trigger] base64_text(b)[i])
}

/// The token that stands for a value.
pub open spec fn encoding(v: ValueModel) -> Seq<char> {
    match v {
        ValueModel::Null => seq!['n', 'u', 'l', 'l'],
        ValueModel::Integer(n) => int_text(n as int),
        ValueModel::Real(r) => real_token(r.text),
        ValueModel::Text(s) => literal(s),
        ValueModel::Blob(b) => seq!['b'] + base64_text(b),
    }
}

/// Appends the text as a literal.
pub fn push_literal(out: &mut String, s: &str)
    ensures
        final(out)@ == old(out)@ + literal(s@),
{
    out.push('"');
    for c in it: s.chars()
        invariant
            it.seq() == s@,
            out@ == old(out)@.push('"') + escaped(s@.take(it.index())),
    {
        let ghost i = it.index();
        if c == '\n' {
            out.push('\\');
            out.push('n');
        } else if c == '\r' {
            out.push('\\');
            out.push('r');
        } else if c == '\t' {
            out.push('\\');
            out.push('t');
        } else if c == '\0' {
            out.push('\\');
            out.push('0');
        } else if c == '"' || c == '\\' {
            out.push('\\');
            out.push(c);
        } else {
            out.push(c);
        }
        assert(s@.take(i + 1).drop_last() =~= s@.take(i));
        assert(out@ =~= old(out)@.push('"') + escaped(s@.take(i + 1)));
    }
    out.push('"');
    assert(s@.take(s@.len() as int) =~= s@);
    assert(out@ =~= old(out)@ + literal(s@));
}

/// Appends the decimal form of an integer.
pub fn push_int(out: &mut String, n: i64)
    ensures
        final(out)@ == old(out)@ + int_text(n as int),
{
    if n < 0 {
        out.push('-');
        let magnitude: u64 = if n == i64::MIN {
            9223372036854775808u64
        } else {
            (-n) as u64
        };
        push_decimal(out, magnitude);
        assert(out@ =~= old(out)@ + int_text(n as int));
    } else {
        push_decimal(out, n as u64);
    }
}

/// Whether the text holds a decimal point.
fn has_point(s: &str) -> (r: bool)
    ensures
        r == s@.contains('.'),
{
    for c in it: s.chars()
        invariant
            it.seq() == s@,
            !s@.take(it.index()).contains('.'),
    {
        let ghost i = it.index();
        if c == '.' {
            assert(s@[i] == '.');
            return true;
        }
        assert(s@.take(i + 1) =~= s@.take(i).push(c));
        assert forall|k: int| 0 <= k < i + 1 implies #[trigger] s@.take(i + 1)[k] != '.' by {
            if k < i {
                assert(s@.take(i).contains(s@.take(i)[k]));
            }
        }
    }
    assert(s@.take(s@.len() as int) =~= s@);
    false
}

/// Writes a value as its token: `null`, a decimal integer, a decimal real
/// with a decimal point, a quoted literal, or `b` and base-64.
///
/// Reading the token gives the value back. Of a real number this holds where
/// its token starts like a number and is read as that number.
pub fn value_to_string(v: &Value) -> (r: String)
    requires
        v@.writable(),
    ensures
        r@ == encoding(v@),
        forall|reals: spec_fn(Seq<char>) -> Option<RealModel>|
            (v@ matches ValueModel::Real(x) ==> reads_back(x, reals)) ==> #[trigger] decoding(
                r@,
                reals,
            ) == Some(v@),
{
    let out = write_value(v);
    proof {
        assert forall|reals: spec_fn(Seq<char>) -> Option<RealModel>|
            (v@ matches ValueModel::Real(x) ==> reads_back(x, reals)) implies #[trigger] decoding(
            out@,
            reals,
        ) == Some(v@) by {
            lemma_value_reads_back(v@, reals);
        }
    }
    out
}

/// Writes the token, and learns of a blob what the base-64 engine does with
/// it.
pub(crate) fn write_value(v: &Value) -> (r: String)
    requires
        v@.writable(),
    ensures
        r@ == encoding(v@),
        v@ matches ValueModel::Blob(b) ==> blob_reads_back(b),
{
    match v {
        Value::Null => {
            let mut out = String::new();
            out.push('n');
            out.push('u');
            out.push('l');
            out.push('l');
            assert(out@ =~= seq!['n', 'u', 'l', 'l']);
            out
        },
        Value::Integer(n) => {
            let mut out = String::new();
            push_int(&mut out, *n);
            assert(out@ =~= int_text(*n as int));
            out
        },
        Value::Real(number) => {
            let mut out = number.text.clone();
            if !has_point(number.text.as_str()) {
                out.push('.');
                out.push('0');
                assert(out@ =~= number.text@ + seq!['.', '0']);
            }
            out
        },
        Value::Text(s) => {
            let mut out = String::new();
            push_literal(&mut out, s.as_str());
            assert(out@ =~= literal(s@));
            out
        },
        Value::Blob(bytes) => {
            let mut out = String::new();
            out.push('b');
            let text = encode_base64(bytes.as_slice());
            out.append(text.as_str());
            assert(out@ =~= seq!['b'] + base64_text(bytes@));
            out
        },
    }
}

pub const MINUS: u8 = 45;

pub const LOWER_B: u8 = 98;

pub const DIGIT_9: u8 = 57;

pub open spec fn is_digit(b: u8) -> bool {
    DIGIT_0 <= b <= DIGIT_9
}

pub open spec fn all_digits(s: Seq<u8>) -> bool {
    forall|i: int| 0 <= i < s.len() ==> is_digit(#[trigger] s[i])
}

/// The number that decimal digits spell.
pub open spec fn digits_value(s: Seq<u8>) -> nat
    decreases s.len(),
{
    if s.len() == 0 {
        0
    } else {
        digits_value(s.drop_last()) * 10 + (s.last() - DIGIT_0) as nat
    }
}

/// The integer that a token spells: decimal digits, at least one, behind an
/// optional minus sign, as far as the number fits in 64 bits.
pub open spec fn int_of(token: Seq<u8>) -> Option<int> {
    let negative = token.len() > 0 && token[0] == MINUS;
    let digits = if negative {
        token.skip(1)
    } else {
        token
    };
    let value = if negative {
        -(digits_value(digits) as int)
    } else {
        digits_value(digits) as int
    };
    if digits.len() > 0 && all_digits(digits) && i64::MIN <= value <= i64::MAX {
        Some(value)
    } else {
        None
    }
}

/// Longer digit strings spell larger numbers.
proof fn lemma_digits_value_grows(s: Seq<u8>, k: int)
    requires
        0 <= k <= s.len(),
    ensures
        digits_value(s.take(k)) <= digits_value(s),
    decreases s.len() - k,
{
    if k < s.len() {
        lemma_digits_value_grows(s, k + 1);
        assert(s.take(k + 1).drop_last() =~= s.take(k));
    } else {
        assert(s.take(k) =~= s);
    }
}

/// Reads the digits of `token` from position `from` on.
fn parse_digits(token: &[u8], from: usize, limit: u64) -> (r: Option<u64>)
    requires
        from <= token.len(),
        limit <= 9223372036854775808,
    ensures
        match r {
            Some(n) => {
                &&& from < token.len()
                &&& all_digits(token@.skip(from as int))
                &&& n == digits_value(token@.skip(from as int))
                &&& n <= limit
            },
            None => {
                ||| from == token.len()
                ||| !all_digits(token@.skip(from as int))
                ||| digits_value(token@.skip(from as int)) > limit
            },
        },
{
    if from == token.len() {
        return None;
    }
    let ghost digits = token@.skip(from as int);
    let mut acc: u64 = 0;
    let mut i: usize = from;
    while i < token.len()
        invariant
            from <= i <= token.len(),
            limit <= 9223372036854775808,
            digits == token@.skip(from as int),
            all_digits(digits.take(i - from)),
            acc == digits_value(digits.take(i - from)),
            acc <= limit,
        decreases token.len() - i,
    {
        let b = token[i];
        proof {
            assert(digits.take(i - from + 1).drop_last() =~= digits.take(i - from));
            assert(digits[i - from] == b);
        }
        if b < DIGIT_0 || b > DIGIT_9 {
            return None;
        }
        let d: u64 = (b - DIGIT_0) as u64;
        if acc > 922337203685477580 {
            proof {
                lemma_digits_value_grows(digits, i - from + 1);
            }
            return None;
        }
        let next: u64 = acc * 10 + d;
        if next > limit {
            proof {
                lemma_digits_value_grows(digits, i - from + 1);
            }
            return None;
        }
        acc = next;
        i = i + 1;
    }
    assert(digits.take(token.len() - from) =~= digits);
    Some(acc)
}

/// Reads a token as a decimal integer of 64 bits.
pub fn parse_int(token: &[u8]) -> (r: Option<i64>)
    ensures
        match r {
            Some(n) => int_of(token@) == Some(n as int),
            None => int_of(token@) is None,
        },
{
    if token.len() > 0 && token[0] == MINUS {
        match parse_digits(token, 1, 9223372036854775808) {
            Some(n) => {
                if n == 9223372036854775808 {
                    Some(i64::MIN)
                } else {
                    Some(-(n as i64))
                }
            },
            None => None,
        }
    } else {
        assert(token@.skip(0) =~= token@);
        match parse_digits(token, 0, 9223372036854775807) {
            Some(n) => Some(n as i64),
            None => None,
        }
    }
}

pub open spec fn real_model_of(r: Option<Real>) -> Option<RealModel> {
    match r {
        Some(x) => Some(x@),
        None => None,
    }
}

/// What is asked of a function that reads real numbers: it takes any text,
/// and what it returns depends on the text alone.
pub open spec fn reads_reals<F: Fn(&str) -> Option<Real>>(f: &F) -> bool {
    &&& forall|t: &str| #[trigger] f.requires((t,))
    &&& forall|t1: &str, t2: &str, r1: Option<Real>, r2: Option<Real>|
        t1@ == t2@ && #[trigger] f.ensures((t1,), r1) && #[trigger] f.ensures((t2,), r2)
            ==> real_model_of(r1) == real_model_of(r2)
}

/// Whether `f` may return `m` for the text `t`.
pub open spec fn may_read<F: Fn(&str) -> Option<Real>>(
    f: &F,
    t: Seq<char>,
    m: Option<RealModel>,
) -> bool {
    exists|s: &str, r: Option<Real>|
        s@ == t && #[trigger] f.ensures((s,), r) && real_model_of(r) == m
}

/// The function from texts to real numbers that `f` computes.
pub open spec fn real_reading<F: Fn(&str) -> Option<Real>>(f: &F) -> spec_fn(Seq<char>) -> Option<
    RealModel,
> {
    |t: Seq<char>| choose|m: Option<RealModel>| may_read(f, t, m)
}

/// The value that a token stands for, where it stands for one.
///
/// The first byte decides: `n` must begin `null`; a digit or a minus sign
/// begins an integer or, where the token is no integer of 64 bits, whatever
/// real number `reals` finds in it; a quote begins a literal that must end
/// with the token; `b` begins a blob in base-64.
pub open spec fn decoding(
    s: Seq<char>,
    reals: spec_fn(Seq<char>) -> Option<RealModel>,
) -> Option<ValueModel> {
    let bytes = encode_utf8(s);
    if bytes.len() == 0 {
        None
    } else if bytes[0] == LOWER_N {
        if s == seq!['n', 'u', 'l', 'l'] {
            Some(ValueModel::Null)
        } else {
            None
        }
    } else if is_digit(bytes[0]) || bytes[0] == MINUS {
        match int_of(bytes) {
            Some(n) => Some(ValueModel::Integer(n as i64)),
            None => match reals(s) {
                Some(r) => Some(ValueModel::Real(r)),
                None => None,
            },
        }
    } else if bytes[0] == QUOTE {
        match literal_at(bytes) {
            Some((text, end)) => if 0 < end && end == bytes.len() - 1 {
                Some(ValueModel::Text(text))
            } else {
                None
            },
            None => None,
        }
    } else if bytes[0] == LOWER_B {
        match base64_bytes(s.skip(1)) {
            Some(b) => Some(ValueModel::Blob(b)),
            None => None,
        }
    } else {
        None
    }
}

/// Where a text starts with an ASCII byte, that byte is its first character,
/// and the rest of the bytes is the rest of the text.
pub proof fn lemma_ascii_head(s: Seq<char>)
    requires
        encode_utf8(s).len() > 0,
        encode_utf8(s)[0] < 128,
    ensures
        s.len() > 0,
        s[0] as u32 == encode_utf8(s)[0] as u32,
        encode_utf8(s.drop_first()) == encode_utf8(s).skip(1),
        is_char_boundary(encode_utf8(s), 1),
{
    let bytes = encode_utf8(s);
    encode_utf8_valid_utf8(s);
    assert(s.len() > 0);
    let c = s[0] as u32;
    char_is_scalar(s[0]);
    assert(bytes == encode_scalar(c) + encode_utf8(s.drop_first()));
    if has_width_1_encoding(c) {
        assert((c & 0x7F) as u8 == c) by (bit_vector)
            requires
                c <= 0x7F,
        ;
    } else if has_width_2_encoding(c) {
        assert(0xC0u8 | ((c >> 6) & 0x1F) as u8 >= 128) by (bit_vector);
    } else if has_width_3_encoding(c) {
        assert(0xE0u8 | ((c >> 12) & 0x0F) as u8 >= 128) by (bit_vector);
    } else {
        assert(0xF0u8 | ((c >> 18) & 0x7) as u8 >= 128) by (bit_vector);
    }
    assert(encode_scalar(c).len() == 1);
    assert(bytes.skip(1) =~= encode_utf8(s.drop_first()));
    assert(pop_first_scalar(bytes) =~= bytes.skip(1));
    reveal_with_fuel(is_char_boundary, 2);
}

/// A text has no more characters than bytes.
pub proof fn lemma_utf8_len(s: Seq<char>)
    ensures
        s.len() <= encode_utf8(s).len(),
    decreases s.len(),
{
    if s.len() > 0 {
        lemma_utf8_len(s.drop_first());
    }
}

/// Reads a token as a value. Numbers that are no integers of 64 bits are
/// handed to `read_real`, which may take or refuse them.
pub fn value_from_string<F: Fn(&str) -> Option<Real>>(s: &str, read_real: &F) -> (r: Option<Value>)
    requires
        reads_reals(read_real),
    ensures
        match r {
            Some(v) => decoding(s@, real_reading(read_real)) == Some(v@) && v@.writable(),
            None => decoding(s@, real_reading(read_real)) is None,
        },
{
    let bytes = s.as_bytes();
    if bytes.len() == 0 {
        return None;
    }
    let first = bytes[0];
    if first == LOWER_N {
        proof {
            reveal_strlit("null");
            assert("null"@ =~= seq!['n', 'u', 'l', 'l']);
        }
        if same_text(s, "null") {
            Some(Value::Null)
        } else {
            None
        }
    } else if (first >= DIGIT_0 && first <= DIGIT_9) || first == MINUS {
        match parse_int(bytes) {
            Some(n) => Some(Value::Integer(n)),
            None => {
                let read = read_real(s);
                proof {
                    assert(may_read(read_real, s@, real_model_of(read)));
                }
                match read {
                    Some(number) => Some(Value::Real(number)),
                    None => None,
                }
            },
        }
    } else if first == QUOTE {
        match parse_string_literal(bytes) {
            Some((text, end)) => {
                if 0 < end && end == bytes.len() - 1 {
                    Some(Value::Text(text))
                } else {
                    None
                }
            },
            None => None,
        }
    } else if first == LOWER_B {
        proof {
            lemma_ascii_head(s@);
        }
        let (_, rest) = s.split_at(1);
        proof {
            assert(encode_utf8(s@).subrange(1, encode_utf8(s@).len() as int) =~= encode_utf8(
                s@,
            ).skip(1));
            crate::text::lemma_utf8_injective(rest@, s@.drop_first());
            assert(s@.drop_first() =~= s@.skip(1));
        }
        proof {
            lemma_utf8_len(rest@);
            assert(encode_utf8(rest@).len() == bytes@.len() - 1);
        }
        match decode_base64(rest) {
            Ok(blob) => Some(Value::Blob(blob)),
            Err(_) => None,
        }
    } else {
        None
    }
}

} // verus!
