//! Reading gives back what was written: the proofs.

use vstd::prelude::*;
use vstd::utf8::*;
use crate::text::{decimal, digit_char, lemma_scalar_bytes, lemma_utf8_concat, lemma_utf8_push};
use crate::value::lemma_utf8_len;
use crate::util::{
    base64_bytes, base64_text, literal_at, scan_literal, unescaped, BACKSLASH, QUOTE,
};
use crate::value::{
    all_digits, decoding, digits_value, encoding, escaped, escaped_char, int_of, int_text,
    is_digit, literal, real_token, RealModel, ValueModel, MINUS,
};

verus! {

/// The escaped form of a text starts with the escaped form of its first
/// character.
proof fn lemma_escaped_front(s: Seq<char>)
    requires
        s.len() > 0,
    ensures
        escaped(s) == escaped_char(s[0]) + escaped(s.drop_first()),
    decreases s.len(),
{
    if s.len() == 1 {
        assert(s.drop_last() =~= Seq::<char>::empty());
        assert(s.drop_first() =~= Seq::<char>::empty());
        assert(escaped(s) =~= escaped_char(s[0]) + escaped(s.drop_first()));
    } else {
        lemma_escaped_front(s.drop_last());
        assert(s.drop_first().drop_last() =~= s.drop_last().drop_first());
        assert(escaped(s) =~= escaped_char(s[0]) + escaped(s.drop_first()));
    }
}

/// The byte of an ASCII character is its code, so it is a quote, a backslash
/// or a line break only where the character is.
pub proof fn lemma_ascii_code(c: char)
    requires
        (c as u32) < 128,
    ensures
        (c as u8) as u32 == c as u32,
        c as u8 == QUOTE <==> c == '"',
        c as u8 == BACKSLASH <==> c == '\\',
        c as u8 == 10 <==> c == '\n',
        c as u8 == 13 <==> c == '\r',
{
    assert('"' as u32 == 34 && '\\' as u32 == 92 && '\n' as u32 == 10 && '\r' as u32 == 13);
}

/// Bytes that are neither quote nor backslash are read as they are.
proof fn lemma_scan_run(bytes: Seq<u8>, at: int, k: int)
    requires
        0 <= at,
        0 <= k,
        at + k <= bytes.len(),
        forall|j: int| at <= j < at + k ==> bytes[j] != QUOTE && bytes[j] != BACKSLASH,
    ensures
        scan_literal(bytes, at) == (
            bytes.subrange(at, at + k) + scan_literal(bytes, at + k).0,
            scan_literal(bytes, at + k).1,
        ),
    decreases k,
{
    if k == 0 {
        assert(bytes.subrange(at, at) + scan_literal(bytes, at).0 =~= scan_literal(bytes, at).0);
    } else {
        lemma_scan_run(bytes, at + 1, k - 1);
        assert(seq![bytes[at]] + (bytes.subrange(at + 1, at + k) + scan_literal(bytes, at + k).0)
            =~= bytes.subrange(at, at + k) + scan_literal(bytes, at + k).0);
    }
}

/// Reading the escaped form of a text up to the quote behind it yields the
/// text and the place of the quote.
pub proof fn lemma_scan_escaped(bytes: Seq<u8>, at: int, s: Seq<char>)
    requires
        0 <= at,
        at + encode_utf8(escaped(s)).len() < bytes.len(),
        bytes.subrange(at, at + encode_utf8(escaped(s)).len()) == encode_utf8(escaped(s)),
        bytes[at + encode_utf8(escaped(s)).len()] == QUOTE,
    ensures
        scan_literal(bytes, at) == (encode_utf8(s), at + encode_utf8(escaped(s)).len()),
    decreases s.len(),
{
    let whole = encode_utf8(escaped(s));
    if s.len() == 0 {
        assert(encode_utf8(s) =~= Seq::<u8>::empty());
    } else {
        let c = s[0];
        let rest = s.drop_first();
        let head = encode_utf8(escaped_char(c));
        let tail = encode_utf8(escaped(rest));
        lemma_escaped_front(s);
        lemma_utf8_concat(escaped_char(c), escaped(rest));
        assert(whole == head + tail);
        let next = at + head.len();
        assert(bytes.subrange(next, next + tail.len()) =~= tail) by {
            assert(bytes.subrange(next, next + tail.len()) =~= whole.subrange(
                head.len() as int,
                whole.len() as int,
            ));
        }
        assert(bytes.subrange(at, at + head.len()) =~= head) by {
            assert(bytes.subrange(at, at + head.len()) =~= whole.subrange(0, head.len() as int));
        }
        lemma_scan_escaped(bytes, next, rest);
        lemma_scalar_bytes(c);
        assert(encode_utf8(s) == encode_scalar(c as u32) + encode_utf8(rest));
        if c == '\n' || c == '\r' || c == '\t' || c == '\0' || c == '"' || c == '\\' {
            let x = escaped_char(c)[1];
            assert(escaped_char(c) =~= seq!['\\'].push(x));
            lemma_utf8_push(seq!['\\'], x);
            lemma_utf8_push(Seq::<char>::empty(), '\\');
            lemma_scalar_bytes('\\');
            lemma_scalar_bytes(x);
            assert(Seq::<char>::empty().push('\\') =~= seq!['\\']);
            assert(encode_utf8(Seq::<char>::empty()) =~= Seq::<u8>::empty());
            assert(head =~= seq![BACKSLASH, x as u8]);
            assert(bytes[at] == head[0]);
            assert(bytes[at + 1] == head[1]);
            assert(unescaped(x as u8) == c as u8);
            assert(seq![unescaped(bytes[at + 1])] + encode_utf8(rest) =~= encode_utf8(s));
        } else if (c as u32) < 128 {
            assert(escaped_char(c) =~= Seq::<char>::empty().push(c));
            lemma_utf8_push(Seq::<char>::empty(), c);
            assert(encode_utf8(Seq::<char>::empty()) =~= Seq::<u8>::empty());
            assert(head =~= seq![c as u8]);
            assert(bytes[at] == head[0]);
            assert(seq![bytes[at]] + encode_utf8(rest) =~= encode_utf8(s));
            lemma_ascii_code(c);
        } else {
            assert(escaped_char(c) =~= Seq::<char>::empty().push(c));
            lemma_utf8_push(Seq::<char>::empty(), c);
            assert(encode_utf8(Seq::<char>::empty()) =~= Seq::<u8>::empty());
            assert(head =~= encode_scalar(c as u32));
            assert forall|j: int| at <= j < at + head.len() implies bytes[j] != QUOTE && bytes[j]
                != BACKSLASH by {
                assert(bytes[j] == head[j - at]);
            }
            lemma_scan_run(bytes, at, head.len() as int);
        }
    }
}

/// A literal is read back as the text that it was made of, and ends where
/// its bytes end.
pub proof fn lemma_literal_reads_back(s: Seq<char>)
    ensures
        literal_at(encode_utf8(literal(s))) == Some(
            (s, encode_utf8(literal(s)).len() - 1),
        ),
        encode_utf8(literal(s)).len() >= 2,
        encode_utf8(literal(s))[0] == QUOTE,
{
    let inner = encode_utf8(escaped(s));
    let bytes = encode_utf8(literal(s));
    lemma_utf8_concat(seq!['"'] + escaped(s), seq!['"']);
    lemma_utf8_concat(seq!['"'], escaped(s));
    lemma_utf8_push(Seq::<char>::empty(), '"');
    lemma_scalar_bytes('"');
    assert(Seq::<char>::empty().push('"') =~= seq!['"']);
    assert(encode_utf8(Seq::<char>::empty()) =~= Seq::<u8>::empty());
    assert(encode_utf8(seq!['"']) =~= seq![QUOTE]);
    assert(bytes =~= seq![QUOTE] + inner + seq![QUOTE]);
    assert(bytes.subrange(1, 1 + inner.len() as int) =~= inner);
    lemma_scan_escaped(bytes, 1, s);
    encode_utf8_valid_utf8(s);
    encode_utf8_decode_utf8(s);
}

/// The decimal form of a number is made of digits, and the digits spell the
/// number.
proof fn lemma_decimal_reads_back(m: nat)
    ensures
        is_ascii_chars(decimal(m)),
        decimal(m).len() >= 1,
        encode_utf8(decimal(m)).len() == decimal(m).len(),
        all_digits(encode_utf8(decimal(m))),
        digits_value(encode_utf8(decimal(m))) == m,
    decreases m,
{
    let t = decimal(m);
    let d = digit_char(m % 10);
    lemma_scalar_bytes(d);
    assert(d as u8 == 48 + m % 10);
    if m < 10 {
        assert(t =~= Seq::<char>::empty().push(d));
        lemma_utf8_push(Seq::<char>::empty(), d);
        assert(encode_utf8(Seq::<char>::empty()) =~= Seq::<u8>::empty());
        assert(encode_utf8(t) =~= seq![d as u8]);
        assert(encode_utf8(t).drop_last() =~= Seq::<u8>::empty());
        assert(digits_value(Seq::<u8>::empty()) == 0);
        assert(encode_utf8(t).last() == d as u8);
    } else {
        let front = decimal(m / 10);
        lemma_decimal_reads_back(m / 10);
        lemma_utf8_push(front, d);
        assert(encode_utf8(t) =~= encode_utf8(front).push(d as u8));
        assert(encode_utf8(t).drop_last() =~= encode_utf8(front));
        assert(encode_utf8(t).last() == d as u8);
        assert forall|i: int| 0 <= i < t.len() implies '\0' <= #[trigger] t[i] <= '\u{7f}' by {
            if i < front.len() {
                assert(t[i] == front[i]);
            }
        }
        assert forall|i: int| 0 <= i < encode_utf8(t).len() implies is_digit(
            #[trigger] encode_utf8(t)[i],
        ) by {
            if i < encode_utf8(front).len() {
                assert(encode_utf8(t)[i] == encode_utf8(front)[i]);
            }
        }
    }
}

/// The decimal form of an integer of 64 bits is read back as the integer.
pub proof fn lemma_int_reads_back(n: i64)
    ensures
        int_of(encode_utf8(int_text(n as int))) == Some(n as int),
        encode_utf8(int_text(n as int)).len() > 0,
        is_digit(encode_utf8(int_text(n as int))[0]) || encode_utf8(int_text(n as int))[0]
            == MINUS,
{
    if n < 0 {
        let m = (-(n as int)) as nat;
        lemma_decimal_reads_back(m);
        lemma_utf8_concat(seq!['-'], decimal(m));
        lemma_utf8_push(Seq::<char>::empty(), '-');
        lemma_scalar_bytes('-');
        assert(Seq::<char>::empty().push('-') =~= seq!['-']);
        assert(encode_utf8(Seq::<char>::empty()) =~= Seq::<u8>::empty());
        let bytes = encode_utf8(int_text(n as int));
        assert(bytes =~= seq![MINUS] + encode_utf8(decimal(m)));
        assert(bytes.skip(1) =~= encode_utf8(decimal(m)));
    } else {
        lemma_decimal_reads_back(n as nat);
        let bytes = encode_utf8(int_text(n as int));
        assert(is_digit(bytes[0]));
    }
}

/// The first byte of a text that starts with an ASCII character.
proof fn lemma_first_byte(s: Seq<char>)
    requires
        s.len() > 0,
        (s[0] as u32) < 128,
    ensures
        encode_utf8(s).len() > 0,
        encode_utf8(s)[0] == s[0] as u8,
{
    lemma_scalar_bytes(s[0]);
}

/// Where a text holds a decimal point behind its first character, its bytes
/// hold one behind the first byte.
proof fn lemma_point_in_bytes(s: Seq<char>, j: int)
    requires
        1 <= j < s.len(),
        s[j] == '.',
    ensures
        exists|p: int| 1 <= p < encode_utf8(s).len() && encode_utf8(s)[p] == 46,
{
    let front = s.take(j);
    let back = s.skip(j + 1);
    assert(s =~= front.push('.') + back);
    lemma_utf8_concat(front.push('.'), back);
    lemma_utf8_push(front, '.');
    lemma_scalar_bytes('.');
    lemma_utf8_len(front);
    let p = encode_utf8(front).len() as int;
    assert(encode_utf8(s)[p] == 46);
}

/// Whether a real number comes back from its token: the token starts like a
/// number, and `reals` reads it as that real number.
pub open spec fn reads_back(r: RealModel, reals: spec_fn(Seq<char>) -> Option<RealModel>) -> bool {
    let token = real_token(r.text);
    &&& ('0' <= token[0] <= '9' || token[0] == '-')
    &&& reals(token) == Some(r)
}

/// Decoding the token of a value gives the value back, and so encoding what
/// was decoded gives the token back.
///
/// This holds of every null, integer and text. It holds of a blob where
/// base-64 decoding undoes base-64 encoding, and of a real number where its
/// token starts with a digit or a minus sign and `reals` reads the token as
/// that number: the library proves neither, since both rest on code outside
/// of it.
pub proof fn lemma_value_reads_back(
    v: ValueModel,
    reals: spec_fn(Seq<char>) -> Option<RealModel>,
)
    requires
        v matches ValueModel::Real(r) ==> reads_back(r, reals),
        v matches ValueModel::Blob(b) ==> base64_bytes(base64_text(b)) == Some(b),
    ensures
        decoding(encoding(v), reals) == Some(v),
        decoding(encoding(v), reals) matches Some(w) && encoding(w) == encoding(v),
{
    let s = encoding(v);
    let bytes = encode_utf8(s);
    match v {
        ValueModel::Null => {
            lemma_first_byte(s);
        },
        ValueModel::Integer(n) => {
            lemma_int_reads_back(n);
        },
        ValueModel::Real(r) => {
            lemma_first_byte(s);
            assert('0' as u32 == 48 && '9' as u32 == 57 && '-' as u32 == 45);
            assert(is_digit(bytes[0]) || bytes[0] == MINUS);
            assert(s.contains('.')) by {
                if !r.text.contains('.') {
                    assert(s[r.text.len() as int] == '.');
                }
            }
            let j = choose|j: int| 0 <= j < s.len() && s[j] == '.';
            lemma_point_in_bytes(s, j);
            let p = choose|p: int| 1 <= p < bytes.len() && bytes[p] == 46;
            if bytes[0] == MINUS {
                assert(bytes.skip(1)[p - 1] == 46);
                assert(!is_digit(bytes.skip(1)[p - 1]));
            } else {
                assert(!is_digit(bytes[p]));
            }
            assert(int_of(bytes) is None);
        },
        ValueModel::Text(t) => {
            lemma_literal_reads_back(t);
        },
        ValueModel::Blob(b) => {
            lemma_first_byte(s);
            assert(s.skip(1) =~= base64_text(b));
        },
    }
}

} // verus!
