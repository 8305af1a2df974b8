//! Base-64 for blobs, and the reader of quoted string literals.

use vstd::prelude::*;
use vstd::utf8::{decode_utf8, valid_utf8};
use base64::Engine;
use crate::error::Error;
use crate::text::utf8_string;

verus! {

/// The standard base-64 text of a byte sequence, with padding.
pub uninterp spec fn base64_text(bytes: Seq<u8>) -> Seq<char>;

/// The bytes that a text stands for in standard base-64 with canonical
/// padding, where it stands for any.
pub uninterp spec fn base64_bytes(text: Seq<char>) -> Option<Seq<u8>>;

/// How long the padded base-64 text of `n` bytes is: four characters for
/// every three bytes or part of three.
pub open spec fn base64_len(n: nat) -> nat {
    ((n + 2) / 3) * 4
}

/// Whether the base-64 text of `n` bytes has a length that the machine can
/// hold.
pub open spec fn base64_fits(n: nat) -> bool {
    base64_len(n) <= usize::MAX
}

/// The characters of the standard alphabet, and the padding character.
pub open spec fn is_base64_char(c: char) -> bool {
    ||| 'A' <= c <= 'Z'
    ||| 'a' <= c <= 'z'
    ||| '0' <= c <= '9'
    ||| c == '+'
    ||| c == '/'
    ||| c == '='
}

/// `encode` of the engine `BASE64_STANDARD` of the crate `base64`. The text is
/// made of the characters of the standard alphabet and of `=`, with which the
/// engine pads, and the same engine decodes the text to the bytes it was made
/// from. The engine panics where the length of the text overflows, which the
/// precondition rules out.
#[verifier::external_body]
pub(crate) fn encode_base64(bytes: &[u8]) -> (r: String)
    requires
        base64_fits(bytes@.len()),
    ensures
        r@ == base64_text(bytes@),
        forall|i: int| 0 <= i < r@.len() ==> is_base64_char(#[trigger] r@[i]),
        base64_bytes(r@) == Some(bytes@),
{
    base64::prelude::BASE64_STANDARD.encode(bytes)
}

/// `decode` of the engine `BASE64_STANDARD` of the crate `base64`. The engine
/// asks for canonical padding, so a text that it accepts is as long as the
/// padded text of the bytes that it yields.
#[verifier::external_body]
fn base64_decode(s: &str) -> (r: Result<Vec<u8>, base64::DecodeError>)
    ensures
        match r {
            Ok(v) => base64_bytes(s@) == Some(v@) && s@.len() == base64_len(v@.len()),
            Err(_) => base64_bytes(s@) is None,
        },
{
    base64::prelude::BASE64_STANDARD.decode(s)
}

/// Decodes standard base-64 with canonical padding.
pub fn decode_base64(s: &str) -> (r: Result<Vec<u8>, Error>)
    ensures
        match r {
            Ok(v) => base64_bytes(s@) == Some(v@) && s@.len() == base64_len(v@.len()),
            Err(e) => base64_bytes(s@) is None && e is Base64DecodeError,
        },
{
    match base64_decode(s) {
        Ok(v) => Ok(v),
        Err(e) => Err(Error::Base64DecodeError(e)),
    }
}

/// The ASCII codes that the formats speak of.
pub const QUOTE: u8 = 34;

pub const BACKSLASH: u8 = 92;

pub const LINE_FEED: u8 = 10;

pub const CARRIAGE_RETURN: u8 = 13;

pub const TAB: u8 = 9;

pub const NUL: u8 = 0;

pub const LOWER_N: u8 = 110;

pub const LOWER_R: u8 = 114;

pub const LOWER_T: u8 = 116;

pub const DIGIT_0: u8 = 48;

/// What a byte stands for behind a backslash: `n`, `r`, `t` and `0` stand for
/// line feed, carriage return, tab and NUL, any other byte for itself.
pub open spec fn unescaped(b: u8) -> u8 {
    if b == LOWER_N {
        LINE_FEED
    } else if b == LOWER_R {
        CARRIAGE_RETURN
    } else if b == LOWER_T {
        TAB
    } else if b == DIGIT_0 {
        NUL
    } else {
        b
    }
}

/// Reads a literal's bytes from position `at` on: the bytes that it holds,
/// and the position of the quote that closes it, or 0 where the bytes end
/// before one is found.
pub open spec fn scan_literal(bytes: Seq<u8>, at: int) -> (Seq<u8>, int)
    decreases bytes.len() - at,
{
    if at < 0 || at >= bytes.len() {
        (Seq::empty(), 0)
    } else if bytes[at] == QUOTE {
        (Seq::empty(), at)
    } else if bytes[at] == BACKSLASH {
        if at + 1 >= bytes.len() {
            (Seq::empty(), 0)
        } else {
            let rest = scan_literal(bytes, at + 2);
            (seq![unescaped(bytes[at + 1])] + rest.0, rest.1)
        }
    } else {
        let rest = scan_literal(bytes, at + 1);
        (seq![bytes[at]] + rest.0, rest.1)
    }
}

/// What a quoted literal at the start of `bytes` holds, and where it ends.
///
/// There is none where the bytes do not start with a quote, or where what
/// stands between the quotes is not UTF-8 once the escapes are resolved. The
/// second part is the position of the closing quote, or 0 where there is
/// none; bytes behind the closing quote are not looked at.
pub open spec fn literal_at(bytes: Seq<u8>) -> Option<(Seq<char>, int)> {
    if bytes.len() == 0 || bytes[0] != QUOTE {
        None
    } else {
        let found = scan_literal(bytes, 1);
        if valid_utf8(found.0) {
            Some((decode_utf8(found.0), found.1))
        } else {
            None
        }
    }
}

/// Reads the quoted, backslash-escaped literal that `bytes` starts with.
///
/// Returns the text between the quotes and the index of the closing quote.
/// The index is 0 where the bytes end before a closing quote: the caller has
/// to tell that case by it.
pub fn parse_string_literal(bytes: &[u8]) -> (r: Option<(String, usize)>)
    ensures
        match r {
            Some((s, end)) => literal_at(bytes@) == Some((s@, end as int)) && end < bytes@.len(),
            None => literal_at(bytes@) is None,
        },
{
    if bytes.len() == 0 || bytes[0] != QUOTE {
        return None;
    }
    let mut buffer: Vec<u8> = Vec::new();
    let mut ended_at: usize = 0;
    let mut i: usize = 1;
    while i < bytes.len()
        invariant_except_break
            ended_at == 0,
            scan_literal(bytes@, 1) == (buffer@ + scan_literal(bytes@, i as int).0, scan_literal(
                bytes@,
                i as int,
            ).1),
        invariant
            1 <= i <= bytes.len(),
            ended_at < bytes.len(),
        ensures
            scan_literal(bytes@, 1) == (buffer@, ended_at as int),
        decreases bytes.len() - i,
    {
        let b = bytes[i];
        if b == QUOTE {
            ended_at = i;
            assert(buffer@ + Seq::<u8>::empty() =~= buffer@);
            break ;
        } else if b == BACKSLASH {
            if i + 1 < bytes.len() {
                let ghost before = buffer@;
                let e = bytes[i + 1];
                buffer.push(
                    if e == LOWER_N {
                        LINE_FEED
                    } else if e == LOWER_R {
                        CARRIAGE_RETURN
                    } else if e == LOWER_T {
                        TAB
                    } else if e == DIGIT_0 {
                        NUL
                    } else {
                        e
                    },
                );
                assert(before + (seq![unescaped(e)] + scan_literal(bytes@, i + 2).0) =~= buffer@
                    + scan_literal(bytes@, i + 2).0);
                i = i + 2;
            } else {
                assert(buffer@ + Seq::<u8>::empty() =~= buffer@);
                i = i + 1;
            }
        } else {
            let ghost before = buffer@;
            buffer.push(b);
            assert(before + (seq![b] + scan_literal(bytes@, i + 1).0) =~= buffer@ + scan_literal(
                bytes@,
                i + 1,
            ).0);
            i = i + 1;
        }
    }
    match utf8_string(buffer) {
        Some(s) => Some((s, ended_at)),
        None => None,
    }
}

} // verus!
