//! Small building blocks for text: byte-wise comparison, numbers rendered in
//! a fixed or natural width, and the conversions between bytes and strings.

use vstd::prelude::*;
use vstd::utf8::*;

verus! {

/// `String::push` appends one character.
pub assume_specification[ String::push ](s: &mut String, ch: char)
    ensures
        final(s)@ == old(s)@.push(ch),
;

/// `String::from_utf8` succeeds exactly on well-formed UTF-8 and then yields
/// the characters that the bytes encode.
#[verifier::external_body]
pub(crate) fn utf8_string(bytes: Vec<u8>) -> (r: Option<String>)
    ensures
        r is Some <==> valid_utf8(bytes@),
        r matches Some(s) ==> s@ == decode_utf8(bytes@),
{
    String::from_utf8(bytes).ok()
}

/// What `String::from_utf8_lossy` makes of a byte sequence.
pub uninterp spec fn lossy_text(bytes: Seq<u8>) -> Seq<char>;

/// `String::from_utf8_lossy` turns bytes into text and puts U+FFFD in the
/// place of what is not UTF-8. Well-formed UTF-8 comes out as the characters
/// that it encodes.
#[verifier::external_body]
pub(crate) fn lossy_string(bytes: &[u8]) -> (r: String)
    ensures
        r@ == lossy_text(bytes@),
        valid_utf8(bytes@) ==> r@ == decode_utf8(bytes@),
{
    String::from_utf8_lossy(bytes).into_owned()
}

/// Two strings with the same UTF-8 image hold the same characters.
pub proof fn lemma_utf8_injective(a: Seq<char>, b: Seq<char>)
    requires
        encode_utf8(a) == encode_utf8(b),
    ensures
        a == b,
{
    encode_utf8_decode_utf8(a);
    encode_utf8_decode_utf8(b);
}

/// The UTF-8 image of two texts in a row is the image of the one and then
/// the image of the other.
pub proof fn lemma_utf8_concat(a: Seq<char>, b: Seq<char>)
    ensures
        encode_utf8(a + b) == encode_utf8(a) + encode_utf8(b),
    decreases a.len(),
{
    if a.len() == 0 {
        assert(a + b =~= b);
        assert(encode_utf8(a) + encode_utf8(b) =~= encode_utf8(b));
    } else {
        lemma_utf8_concat(a.drop_first(), b);
        assert((a + b).drop_first() =~= a.drop_first() + b);
        assert(encode_utf8(a + b) =~= encode_utf8(a) + encode_utf8(b));
    }
}

/// The UTF-8 image of a text with a character more at its end.
pub proof fn lemma_utf8_push(a: Seq<char>, c: char)
    ensures
        encode_utf8(a.push(c)) == encode_utf8(a) + encode_scalar(c as u32),
{
    lemma_utf8_concat(a, seq![c]);
    assert(a.push(c) =~= a + seq![c]);
    assert(seq![c].drop_first() =~= Seq::<char>::empty());
    assert(encode_utf8(seq![c]) =~= encode_scalar(c as u32)) by {
        reveal_with_fuel(encode_utf8, 2);
    }
}

/// An ASCII character is encoded as the one byte of its code; any other
/// character as two to four bytes, none of them ASCII.
pub proof fn lemma_scalar_bytes(c: char)
    ensures
        (c as u32) < 128 ==> encode_scalar(c as u32) == seq![c as u8],
        (c as u32) >= 128 ==> 2 <= encode_scalar(c as u32).len() <= 4 && forall|i: int|
            0 <= i < encode_scalar(c as u32).len() ==> #[trigger] encode_scalar(c as u32)[i]
                >= 128,
        1 <= encode_scalar(c as u32).len() <= 4,
{
    let x = c as u32;
    char_is_scalar(c);
    if has_width_1_encoding(x) {
        assert((x & 0x7F) as u8 == x as u8) by (bit_vector)
            requires
                x <= 0x7F,
        ;
        assert(encode_scalar(x) =~= seq![c as u8]);
    } else if has_width_2_encoding(x) {
        assert(0xC0u8 | ((x >> 6) & 0x1F) as u8 >= 128 && 0x80u8 | (x & 0x3F) as u8 >= 128)
            by (bit_vector);
    } else if has_width_3_encoding(x) {
        assert(0xE0u8 | ((x >> 12) & 0x0F) as u8 >= 128 && 0x80u8 | ((x >> 6) & 0x3F) as u8 >= 128
            && 0x80u8 | (x & 0x3F) as u8 >= 128) by (bit_vector);
    } else {
        assert(0xF0u8 | ((x >> 18) & 0x7) as u8 >= 128 && 0x80u8 | ((x >> 12) & 0x3F) as u8 >= 128
            && 0x80u8 | ((x >> 6) & 0x3F) as u8 >= 128 && 0x80u8 | (x & 0x3F) as u8 >= 128)
            by (bit_vector);
    }
}

/// Whether two byte slices hold the same bytes.
pub fn same_bytes(a: &[u8], b: &[u8]) -> (r: bool)
    ensures
        r == (a@ == b@),
{
    if a.len() != b.len() {
        return false;
    }
    let mut i: usize = 0;
    while i < a.len()
        invariant
            a.len() == b.len(),
            i <= a.len(),
            forall|k: int| 0 <= k < i ==> a@[k] == b@[k],
        decreases a.len() - i,
    {
        if a[i] != b[i] {
            return false;
        }
        i = i + 1;
    }
    assert(a@ =~= b@);
    true
}

/// Whether two strings hold the same characters.
pub fn same_text(a: &str, b: &str) -> (r: bool)
    ensures
        r == (a@ == b@),
{
    let r = same_bytes(a.as_bytes(), b.as_bytes());
    proof {
        if r {
            lemma_utf8_injective(a@, b@);
        }
    }
    r
}

/// Lexicographic order on byte sequences: the order of `str` and `String`.
pub open spec fn lex_le(a: Seq<u8>, b: Seq<u8>) -> bool
    decreases a.len(),
{
    if a.len() == 0 {
        true
    } else if b.len() == 0 {
        false
    } else if a[0] != b[0] {
        a[0] < b[0]
    } else {
        lex_le(a.drop_first(), b.drop_first())
    }
}

pub proof fn lemma_lex_le_total(a: Seq<u8>, b: Seq<u8>)
    ensures
        lex_le(a, b) || lex_le(b, a),
    decreases a.len(),
{
    if a.len() > 0 && b.len() > 0 && a[0] == b[0] {
        lemma_lex_le_total(a.drop_first(), b.drop_first());
    }
}

pub proof fn lemma_lex_le_transitive(a: Seq<u8>, b: Seq<u8>, c: Seq<u8>)
    requires
        lex_le(a, b),
        lex_le(b, c),
    ensures
        lex_le(a, c),
    decreases a.len(),
{
    if a.len() > 0 && b.len() > 0 && c.len() > 0 && a[0] == b[0] && b[0] == c[0] {
        lemma_lex_le_transitive(a.drop_first(), b.drop_first(), c.drop_first());
    }
}

proof fn lemma_lex_le_skip(a: Seq<u8>, b: Seq<u8>, i: int)
    requires
        0 <= i <= a.len(),
        i <= b.len(),
        forall|k: int| 0 <= k < i ==> a[k] == b[k],
    ensures
        lex_le(a, b) == lex_le(a.skip(i), b.skip(i)),
    decreases i,
{
    if i > 0 {
        assert(a.drop_first().skip(i - 1) =~= a.skip(i));
        assert(b.drop_first().skip(i - 1) =~= b.skip(i));
        lemma_lex_le_skip(a.drop_first(), b.drop_first(), i - 1);
    } else {
        assert(a.skip(0) =~= a);
        assert(b.skip(0) =~= b);
    }
}

/// Whether `a` comes no later than `b` in lexicographic order.
pub fn bytes_le(a: &[u8], b: &[u8]) -> (r: bool)
    ensures
        r == lex_le(a@, b@),
{
    let mut i: usize = 0;
    while i < a.len() && i < b.len()
        invariant
            i <= a.len(),
            i <= b.len(),
            forall|k: int| 0 <= k < i ==> a@[k] == b@[k],
        decreases a.len() - i,
    {
        if a[i] != b[i] {
            proof {
                lemma_lex_le_skip(a@, b@, i as int);
            }
            return a[i] < b[i];
        }
        i = i + 1;
    }
    proof {
        lemma_lex_le_skip(a@, b@, i as int);
    }
    i >= a.len()
}

/// The character that stands for the digit `d` in bases up to sixteen, with
/// lower-case letters from ten on.
pub open spec fn digit_char(d: nat) -> char
    recommends
        d < 16,
{
    if d < 10 {
        (48 + d) as char
    } else {
        (87 + d) as char
    }
}

/// The digit that an ASCII byte stands for: decimal digits and the lower-case
/// letters `a` to `f`. Any other byte stands for none.
pub open spec fn digit_value(b: u8) -> Option<nat> {
    if 48 <= b <= 57 {
        Some((b - 48) as nat)
    } else if 97 <= b <= 102 {
        Some((b - 87) as nat)
    } else {
        None
    }
}

/// `n` in the given base, in exactly `width` digits, most significant first.
/// Digits beyond the width are cut off.
pub open spec fn fixed_digits(n: nat, base: nat, width: nat) -> Seq<char>
    decreases width,
{
    if width == 0 {
        Seq::empty()
    } else {
        fixed_digits(n / base, base, (width - 1) as nat).push(digit_char(n % base))
    }
}

/// `n` in decimal, in as many digits as it needs.
pub open spec fn decimal(n: nat) -> Seq<char>
    decreases n,
{
    if n < 10 {
        seq![digit_char(n)]
    } else {
        decimal(n / 10).push(digit_char(n % 10))
    }
}

pub fn digit_of(d: u8) -> (c: char)
    requires
        d < 16,
    ensures
        c == digit_char(d as nat),
{
    if d < 10 {
        (48u8 + d) as char
    } else {
        (87u8 + d) as char
    }
}

/// Appends `n` in the given base in exactly `width` digits.
pub fn push_fixed(out: &mut String, n: u64, base: u64, width: usize)
    requires
        2 <= base <= 16,
    ensures
        final(out)@ == old(out)@ + fixed_digits(n as nat, base as nat, width as nat),
    decreases width,
{
    if width > 0 {
        push_fixed(out, n / base, base, width - 1);
        let d: u64 = n % base;
        out.push(digit_of(d as u8));
        assert(out@ =~= old(out)@ + fixed_digits(n as nat, base as nat, width as nat));
    } else {
        assert(out@ =~= old(out)@ + fixed_digits(n as nat, base as nat, width as nat));
    }
}

/// Appends `n` in decimal.
pub fn push_decimal(out: &mut String, n: u64)
    ensures
        final(out)@ == old(out)@ + decimal(n as nat),
    decreases n,
{
    if n >= 10 {
        push_decimal(out, n / 10);
    }
    let d: u64 = n % 10;
    out.push(digit_of(d as u8));
    assert(out@ =~= old(out)@ + decimal(n as nat));
}

} // verus!
