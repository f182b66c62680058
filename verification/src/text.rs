//! Character and string helpers shared by the parsers and renderers.

use vstd::prelude::*;

verus! {

/// `String::push` appends one character; this states that fact about the std method.
pub assume_specification[ std::string::String::push ](s: &mut std::string::String, ch: char)
    ensures
        final(s)@ == old(s)@.push(ch),
;

/// `str == str` compares the two strings character by character.
pub assume_specification[ <str as PartialEq>::eq ](a: &str, b: &str) -> (r: bool)
    ensures
        r == (a@ == b@),
;

/// `char::from_u32` gives the character with that code point, and `None` for surrogates and
/// values above U+10FFFF.
pub assume_specification[ core::char::from_u32 ](i: u32) -> (r: Option<char>)
    ensures
        r is Some <==> (i < 0xD800 || (0xE000 <= i && i <= 0x10FFFF)),
        r matches Some(c) ==> c as u32 == i,
;

/// Whether two strings hold the same characters.
pub fn str_eq(a: &str, b: &str) -> (r: bool)
    ensures
        r == (a@ == b@),
{
    *a == *b
}

/// The Unicode `White_Space` property (PropList.txt), which `char::is_whitespace` tests.
pub open spec fn is_ws(c: char) -> bool {
    let v = c as u32;
    ||| 0x09 <= v <= 0x0D
    ||| v == 0x20
    ||| v == 0x85
    ||| v == 0xA0
    ||| v == 0x1680
    ||| 0x2000 <= v <= 0x200A
    ||| v == 0x2028
    ||| v == 0x2029
    ||| v == 0x202F
    ||| v == 0x205F
    ||| v == 0x3000
}

/// Whether `c` has the Unicode `White_Space` property (the same test as `char::is_whitespace`).
pub fn is_whitespace(c: char) -> (r: bool)
    ensures
        r == is_ws(c),
{
    let v = c as u32;
    (0x09 <= v && v <= 0x0D) || v == 0x20 || v == 0x85 || v == 0xA0 || v == 0x1680 || (0x2000
        <= v && v <= 0x200A) || v == 0x2028 || v == 0x2029 || v == 0x202F || v == 0x205F || v
        == 0x3000
}

/// What `char::is_alphabetic` answers for a character (the Unicode `Alphabetic` property).
pub uninterp spec fn char_alphabetic(c: char) -> bool;

/// What `char::is_numeric` answers for a character (general categories Nd, Nl and No).
pub uninterp spec fn char_numeric(c: char) -> bool;

/// Calls `char::is_alphabetic`; its answer is named `char_alphabetic`. Among ASCII
/// characters the Unicode `Alphabetic` property holds of the letters `A`-`Z` and `a`-`z`
/// alone, and no `White_Space` character has it.
#[verifier::external_body]
pub(crate) fn is_alphabetic(c: char) -> (r: bool)
    ensures
        r == char_alphabetic(c),
        (c as u32) < 128 ==> (r <==> ('a' <= c <= 'z' || 'A' <= c <= 'Z')),
        r ==> !is_ws(c),
{
    c.is_alphabetic()
}

/// Calls `char::is_numeric`; its answer is named `char_numeric`. Among ASCII characters
/// the numeric general categories hold of the digits `0`-`9` alone, and no `White_Space`
/// character is numeric.
#[verifier::external_body]
pub(crate) fn is_numeric(c: char) -> (r: bool)
    ensures
        r == char_numeric(c),
        (c as u32) < 128 ==> (r <==> '0' <= c <= '9'),
        r ==> !is_ws(c),
{
    c.is_numeric()
}

/// `char::to_ascii_lowercase`: ASCII upper-case letters map to lower case, all else is kept.
pub open spec fn ascii_lower(c: char) -> char {
    if 'A' <= c <= 'Z' {
        ((c as u32) + 32) as char
    } else {
        c
    }
}

/// Lower-cases an ASCII letter and keeps every other character.
pub fn to_ascii_lowercase(c: char) -> (r: char)
    ensures
        r == ascii_lower(c),
{
    if 'A' <= c && c <= 'Z' {
        match c {
            'A' => 'a', 'B' => 'b', 'C' => 'c', 'D' => 'd', 'E' => 'e', 'F' => 'f', 'G' => 'g',
            'H' => 'h', 'I' => 'i', 'J' => 'j', 'K' => 'k', 'L' => 'l', 'M' => 'm', 'N' => 'n',
            'O' => 'o', 'P' => 'p', 'Q' => 'q', 'R' => 'r', 'S' => 's', 'T' => 't', 'U' => 'u',
            'V' => 'v', 'W' => 'w', 'X' => 'x', 'Y' => 'y', _ => 'z',
        }
    } else {
        c
    }
}

/// The first index at or after `i` that does not hold a whitespace character.
pub open spec fn ws_end(c: Seq<char>, i: int) -> int
    decreases c.len() - i,
{
    if 0 <= i < c.len() && is_ws(c[i]) {
        ws_end(c, i + 1)
    } else {
        i
    }
}

/// The start of the whitespace run that ends at `hi` (not going below `lo`).
pub open spec fn ws_start_back(c: Seq<char>, lo: int, hi: int) -> int
    decreases hi - lo,
{
    if lo < hi && is_ws(c[hi - 1]) {
        ws_start_back(c, lo, hi - 1)
    } else {
        hi
    }
}

/// `str::trim`: the text without its leading and trailing whitespace.
pub open spec fn trim(s: Seq<char>) -> Seq<char> {
    let lo = ws_end(s, 0);
    s.subrange(lo, ws_start_back(s, lo, s.len() as int))
}

pub proof fn lemma_ws_end_bounds(c: Seq<char>, i: int)
    requires
        0 <= i <= c.len(),
    ensures
        i <= ws_end(c, i) <= c.len(),
        ws_end(c, i) < c.len() ==> !is_ws(c[ws_end(c, i)]),
        forall|k: int| i <= k < ws_end(c, i) ==> is_ws(#[trigger] c[k]),
    decreases c.len() - i,
{
    if i < c.len() && is_ws(c[i]) {
        lemma_ws_end_bounds(c, i + 1);
    }
}

pub proof fn lemma_ws_start_back_bounds(c: Seq<char>, lo: int, hi: int)
    requires
        0 <= lo <= hi <= c.len(),
    ensures
        lo <= ws_start_back(c, lo, hi) <= hi,
    decreases hi - lo,
{
    if lo < hi && is_ws(c[hi - 1]) {
        lemma_ws_start_back_bounds(c, lo, hi - 1);
    }
}

/// The characters of a string slice.
pub fn to_chars(s: &str) -> (v: Vec<char>)
    ensures
        v@ == s@,
{
    let mut v: Vec<char> = Vec::new();
    for c in it: s.chars()
        invariant
            v@ == it.seq().take(it.index() as int),
    {
        v.push(c);
    }
    v
}

/// A string holding `c[lo..hi]`.
pub fn string_of(c: &[char], lo: usize, hi: usize) -> (s: String)
    requires
        lo <= hi <= c@.len(),
    ensures
        s@ == c@.subrange(lo as int, hi as int),
{
    let mut s = String::new();
    let mut i: usize = lo;
    while i < hi
        invariant
            lo <= i <= hi <= c@.len(),
            s@ == c@.subrange(lo as int, i as int),
        decreases hi - i,
    {
        s.push(c[i]);
        i += 1;
        assert(s@ == c@.subrange(lo as int, i as int));
    }
    s
}

/// A string holding `c[lo..hi]` with leading and trailing whitespace removed.
pub fn trimmed_string_of(c: &[char], lo: usize, hi: usize) -> (s: String)
    requires
        lo <= hi <= c@.len(),
    ensures
        s@ == trim(c@.subrange(lo as int, hi as int)),
{
    let ghost w = c@.subrange(lo as int, hi as int);
    let mut a: usize = lo;
    while a < hi && is_whitespace(c[a])
        invariant
            lo <= a <= hi <= c@.len(),
            w == c@.subrange(lo as int, hi as int),
            ws_end(w, (a - lo) as int) == ws_end(w, 0),
        decreases hi - a,
    {
        a += 1;
    }
    assert(ws_end(w, (a - lo) as int) == (a - lo));
    let mut b: usize = hi;
    while b > a && is_whitespace(c[b - 1])
        invariant
            lo <= a <= b <= hi <= c@.len(),
            w == c@.subrange(lo as int, hi as int),
            ws_start_back(w, (a - lo) as int, (b - lo) as int) == ws_start_back(
                w,
                (a - lo) as int,
                (hi - lo) as int,
            ),
        decreases b - a,
    {
        b -= 1;
    }
    let s = string_of(c, a, b);
    assert(s@ =~= trim(w));
    s
}

/// The decimal digit character for `d` (`0 <= d < 10`).
pub open spec fn digit_char(d: int) -> char {
    (48 + d) as char
}

/// `n` written in decimal (`{}` formatting of an unsigned integer).
pub open spec fn decimal(n: nat) -> Seq<char>
    decreases n,
{
    if n < 10 {
        seq![digit_char(n as int)]
    } else {
        decimal(n / 10).push(digit_char((n % 10) as int))
    }
}

fn digit(d: u64) -> (c: char)
    requires
        d < 10,
    ensures
        c == digit_char(d as int),
{
    match d {
        0 => '0',
        1 => '1',
        2 => '2',
        3 => '3',
        4 => '4',
        5 => '5',
        6 => '6',
        7 => '7',
        8 => '8',
        _ => '9',
    }
}

/// Appends `n` in decimal to `out`.
pub fn push_decimal(out: &mut String, n: u64)
    ensures
        final(out)@ == old(out)@ + decimal(n as nat),
    decreases n,
{
    if n >= 10 {
        push_decimal(out, n / 10);
    }
    out.push(digit(n % 10));
    assert(final(out)@ =~= old(out)@ + decimal(n as nat));
}

} // verus!
