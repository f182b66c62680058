//! SentencePiece byte-fallback pieces: a vocabulary entry `<0xHH>` stands for the raw byte
//! `0xHH`.

use vstd::prelude::*;

use crate::text::to_chars;

verus! {

/// The value of an ASCII hexadecimal digit (either case).
pub open spec fn hex_digit_value(c: char) -> Option<u8> {
    if '0' <= c <= '9' {
        Some((c as u32 - '0' as u32) as u8)
    } else if 'a' <= c <= 'f' {
        Some((c as u32 - 'a' as u32 + 10) as u8)
    } else if 'A' <= c <= 'F' {
        Some((c as u32 - 'A' as u32 + 10) as u8)
    } else {
        None
    }
}

/// The byte written by two characters in base 16, the way `u8::from_str_radix(_, 16)` reads
/// them: two hexadecimal digits, or a `+` sign followed by one.
pub open spec fn hex_pair(a: char, b: char) -> Option<u8> {
    match (hex_digit_value(a), hex_digit_value(b)) {
        (Some(x), Some(y)) => Some((16 * x + y) as u8),
        (None, Some(y)) => {
            if a == '+' {
                Some(y)
            } else {
                None
            }
        },
        _ => None,
    }
}

/// The byte a piece stands for: exactly `<0x`, two more characters read as [`hex_pair`],
/// then `>`.
pub open spec fn byte_token_value(t: Seq<char>) -> Option<u8> {
    if t.len() == 6 && t[0] == '<' && t[1] == '0' && t[2] == 'x' && t[5] == '>' {
        hex_pair(t[3], t[4])
    } else {
        None
    }
}

fn hex_digit(c: char) -> (r: Option<u8>)
    ensures
        r == hex_digit_value(c),
{
    if '0' <= c && c <= '9' {
        Some((c as u32 - '0' as u32) as u8)
    } else if 'a' <= c && c <= 'f' {
        Some((c as u32 - 'a' as u32 + 10) as u8)
    } else if 'A' <= c && c <= 'F' {
        Some((c as u32 - 'A' as u32 + 10) as u8)
    } else {
        None
    }
}

/// Parse a byte-fallback piece `<0xHH>` into its byte; anything else is `None`.
pub fn parse_byte_token(token: &str) -> (r: Option<u8>)
    ensures
        r == byte_token_value(token@),
{
    let t = to_chars(token);
    if !(t.len() == 6 && t[0] == '<' && t[1] == '0' && t[2] == 'x' && t[5] == '>') {
        return None;
    }
    match (hex_digit(t[3]), hex_digit(t[4])) {
        (Some(x), Some(y)) => Some(16 * x + y),
        (None, Some(y)) => {
            if t[3] == '+' {
                Some(y)
            } else {
                None
            }
        },
        _ => None,
    }
}

} // verus!
