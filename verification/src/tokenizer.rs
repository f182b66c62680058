//! Byte-level BPE tokenizer pieces: the special-token ids of the LFM2 vocabulary, the GPT-2
//! byte→char table, and the LFM2 (Llama-3-style) pre-tokenizer, hand-rolled as an
//! ordered-alternation scanner over chars.

use vstd::prelude::*;

pub use crate::bpe::{special_tokens, Tokenizer, TokenizerError};

use crate::text::{
    ascii_lower, char_alphabetic, char_numeric, is_alphabetic, is_numeric, is_whitespace, is_ws,
    lemma_ws_end_bounds, string_of, to_ascii_lowercase, to_chars, ws_end,
};

verus! {

pub const TOKEN_PAD: u32 = 124_893;
pub const TOKEN_BOS: u32 = 124_894;
pub const TOKEN_ENDOFTEXT: u32 = 124_895;
pub const TOKEN_FIM_PRE: u32 = 124_896;
pub const TOKEN_FIM_MID: u32 = 124_897;
pub const TOKEN_FIM_SUF: u32 = 124_898;
pub const TOKEN_IM_START: u32 = 124_899;
/// `<|im_end|>`, which is also the end-of-sequence token.
pub const TOKEN_IM_END: u32 = 124_900;
pub const TOKEN_EOS: u32 = 124_900;
pub const TOKEN_THINK: u32 = 124_901;
pub const TOKEN_THINK_END: u32 = 124_902;
pub const TOKEN_TOOL_LIST_START: u32 = 124_903;
pub const TOKEN_TOOL_LIST_END: u32 = 124_904;
pub const TOKEN_TOOL_CALL_START: u32 = 124_905;
pub const TOKEN_TOOL_CALL_END: u32 = 124_906;

// ---------------------------------------------------------------------------------------------
// GPT-2 byte table
// ---------------------------------------------------------------------------------------------

/// Bytes that GPT-2's `bytes_to_unicode` maps to the character with the same code point:
/// `!`..=`~`, 0xA1..=0xAC and 0xAE..=0xFF.
pub open spec fn is_printable_byte(b: int) -> bool {
    (0x21 <= b <= 0x7E) || (0xA1 <= b <= 0xAC) || (0xAE <= b <= 0xFF)
}

/// The code point GPT-2's `bytes_to_unicode` gives byte `b`: the byte itself when printable,
/// else U+0100 plus the number of non-printable bytes below `b`.
pub open spec fn byte_code(b: int) -> int {
    if is_printable_byte(b) {
        b
    } else if b <= 0x20 {
        256 + b
    } else if b <= 0xA0 {
        256 + 33 + (b - 0x7F)
    } else {
        323int
    }
}

/// GPT-2 `bytes_to_unicode`: a reversible map from each byte to a printable char.
pub fn byte_to_unicode() -> (table: [char; 256])
    ensures
        forall|b: int| 0 <= b < 256 ==> #[trigger] table@[b] as u32 == byte_code(b),
{
    let mut table = ['\0'; 256];
    let mut used = [false; 256];
    let ranges: [(u8, u8); 3] = [(0x21u8, 0x7Eu8), (0xA1u8, 0xACu8), (0xAEu8, 0xFFu8)];
    let mut r: usize = 0;
    while r < 3
        invariant
            0 <= r <= 3,
            ranges@ == seq![(0x21u8, 0x7Eu8), (0xA1u8, 0xACu8), (0xAEu8, 0xFFu8)],
            forall|b: int|
                0 <= b < 256 ==> (#[trigger] used@[b] <==> (is_printable_byte(b) && (b <= 0x7E
                    && r >= 1 || 0xA1 <= b <= 0xAC && r >= 2 || 0xAE <= b && r >= 3))),
            forall|b: int| 0 <= b < 256 && #[trigger] used@[b] ==> table@[b] as u32 == b,
        decreases 3 - r,
    {
        let (lo, hi) = ranges[r];
        let mut b: u32 = lo as u32;
        while b <= hi as u32
            invariant
                0 <= r < 3,
                ranges@ == seq![(0x21u8, 0x7Eu8), (0xA1u8, 0xACu8), (0xAEu8, 0xFFu8)],
                (lo, hi) == ranges@[r as int],
                lo <= b <= hi as int + 1,
                forall|x: int|
                    0 <= x < 256 ==> (#[trigger] used@[x] <==> (is_printable_byte(x) && (x
                        <= 0x7E && r >= 1 || 0xA1 <= x <= 0xAC && r >= 2 || 0xAE <= x && r >= 3)
                        || lo <= x < b)),
                forall|x: int| 0 <= x < 256 && #[trigger] used@[x] ==> table@[x] as u32 == x,
            decreases hi as int + 1 - b,
        {
            table[b as usize] = core::char::from_u32(b).unwrap();
            used[b as usize] = true;
            b += 1;
        }
        r += 1;
    }
    let mut n: u32 = 0;
    let mut b: usize = 0;
    while b < 256
        invariant
            0 <= b <= 256,
            n == b - (if b <= 0x21 {
                0
            } else if b <= 0x7F {
                b - 0x21
            } else if b <= 0xA1 {
                0x7F - 0x21
            } else if b <= 0xAD {
                0x7F - 0x21 + b - 0xA1
            } else if b <= 0xAE {
                0x7F - 0x21 + 0xAD - 0xA1
            } else {
                0x7F - 0x21 + 0xAD - 0xA1 + b - 0xAE
            }),
            forall|x: int| 0 <= x < 256 ==> (#[trigger] used@[x] <==> is_printable_byte(x)),
            forall|x: int| 0 <= x < b ==> #[trigger] table@[x] as u32 == byte_code(x),
            forall|x: int| b <= x < 256 && #[trigger] used@[x] ==> table@[x] as u32 == x,
        decreases 256 - b,
    {
        if !used[b] {
            table[b] = core::char::from_u32(256 + n).unwrap();
            n += 1;
        }
        b += 1;
    }
    table
}

// ---------------------------------------------------------------------------------------------
// Pre-tokenizer (LFM2 / Llama-3 regex, hand-rolled)
// ---------------------------------------------------------------------------------------------

/// `\p{L}`, tested with `char::is_alphabetic`: among ASCII characters, the letters.
pub open spec fn is_letter(c: char) -> bool {
    if (c as u32) < 128 {
        ('a' <= c <= 'z') || ('A' <= c <= 'Z')
    } else {
        char_alphabetic(c) && !is_ws(c)
    }
}

/// `\p{N}`, tested with `char::is_numeric`: among ASCII characters, the digits.
pub open spec fn is_number(c: char) -> bool {
    if (c as u32) < 128 {
        '0' <= c <= '9'
    } else {
        char_numeric(c) && !is_ws(c)
    }
}

/// `'(?i:[sdmt]|ll|ve|re)` at `i`: the length of the contraction suffix, if one starts there.
pub open spec fn contraction_len(c: Seq<char>, i: int) -> Option<int> {
    if !(0 <= i < c.len() && c[i] == '\'') || i + 1 >= c.len() {
        None
    } else {
        let c1 = ascii_lower(c[i + 1]);
        if c1 == 's' || c1 == 'd' || c1 == 'm' || c1 == 't' {
            Some(2)
        } else if i + 2 >= c.len() {
            None
        } else {
            let c2 = ascii_lower(c[i + 2]);
            if (c1 == 'l' && c2 == 'l') || (c1 == 'v' && c2 == 'e') || (c1 == 'r' && c2 == 'e') {
                Some(3)
            } else {
                None
            }
        }
    }
}

/// The end of the run of letters that starts at `j`.
pub open spec fn letter_run_end(c: Seq<char>, j: int) -> int
    decreases c.len() - j,
{
    if 0 <= j < c.len() && is_letter(c[j]) {
        letter_run_end(c, j + 1)
    } else {
        j
    }
}

/// `[^\r\n\p{L}\p{N}]?\p{L}+` at `i` (`i` inside `c`): letters, with an optional single
/// non-letter/digit prefix.
pub open spec fn letters_len(c: Seq<char>, i: int) -> Option<int> {
    let cur = c[i];
    let prefixable = cur != '\r' && cur != '\n' && !is_letter(cur) && !is_number(cur);
    let j = if prefixable && i + 1 < c.len() && is_letter(c[i + 1]) {
        i + 1
    } else {
        i
    };
    let e = letter_run_end(c, j);
    if e > j {
        Some(e - i)
    } else {
        None
    }
}

/// `\p{N}{1,3}` at `i`: one to three digits.
pub open spec fn numbers_len(c: Seq<char>, i: int) -> Option<int> {
    if !(0 <= i < c.len() && is_number(c[i])) {
        None
    } else if !(i + 1 < c.len() && is_number(c[i + 1])) {
        Some(1)
    } else if !(i + 2 < c.len() && is_number(c[i + 2])) {
        Some(2)
    } else {
        Some(3)
    }
}

/// Punctuation and symbols: neither whitespace, a letter nor a digit.
pub open spec fn is_punct(c: char) -> bool {
    !is_ws(c) && !is_letter(c) && !is_number(c)
}

/// The end of the run of punctuation that starts at `j`.
pub open spec fn punct_run_end(c: Seq<char>, j: int) -> int
    decreases c.len() - j,
{
    if 0 <= j < c.len() && is_punct(c[j]) {
        punct_run_end(c, j + 1)
    } else {
        j
    }
}

/// The end of the run of `\r`/`\n` that starts at `j`.
pub open spec fn newline_run_end(c: Seq<char>, j: int) -> int
    decreases c.len() - j,
{
    if 0 <= j < c.len() && (c[j] == '\r' || c[j] == '\n') {
        newline_run_end(c, j + 1)
    } else {
        j
    }
}

/// ` ?[^\s\p{L}\p{N}]+[\r\n]*` at `i` (`i` inside `c`): punctuation/symbols with an optional
/// leading space and trailing line breaks.
pub open spec fn punct_len(c: Seq<char>, i: int) -> Option<int> {
    let j = if c[i] == ' ' && i + 1 < c.len() && is_punct(c[i + 1]) {
        i + 1
    } else {
        i
    };
    let e = punct_run_end(c, j);
    if e == j {
        None
    } else {
        Some(newline_run_end(c, e) - i)
    }
}

/// The last line break in `c[i..j]`, if any.
pub open spec fn last_newline(c: Seq<char>, i: int, j: int) -> Option<int>
    decreases j - i,
{
    if j <= i {
        None
    } else if c[j - 1] == '\r' || c[j - 1] == '\n' {
        Some(j - 1)
    } else {
        last_newline(c, i, j - 1)
    }
}

/// `\s*[\r\n]` at `i`: a whitespace run ending at (and including) its last line break.
pub open spec fn newline_ws_len(c: Seq<char>, i: int) -> Option<int> {
    match last_newline(c, i, ws_end(c, i)) {
        Some(p) => Some(p + 1 - i),
        None => None,
    }
}

/// `\s+(?!\S)` at `i`: a whitespace run not immediately followed by a non-space (at the end of
/// the text the whole run; before a non-space, all but its last character).
pub open spec fn trailing_ws_len(c: Seq<char>, i: int) -> Option<int> {
    let j = ws_end(c, i);
    if j == i {
        None
    } else if j >= c.len() {
        Some(j - i)
    } else if j - 1 > i {
        Some(j - 1 - i)
    } else {
        None
    }
}

/// `\s+` at `i`: any whitespace run.
pub open spec fn ws_len(c: Seq<char>, i: int) -> Option<int> {
    let j = ws_end(c, i);
    if j > i {
        Some(j - i)
    } else {
        None
    }
}

/// The length of the piece that starts at `i`: the first alternative that matches, in the
/// pattern's order, or one character when none does.
pub open spec fn piece_len(c: Seq<char>, i: int) -> int {
    match contraction_len(c, i) {
        Some(n) => n,
        None => match letters_len(c, i) {
            Some(n) => n,
            None => match numbers_len(c, i) {
                Some(n) => n,
                None => match punct_len(c, i) {
                    Some(n) => n,
                    None => match newline_ws_len(c, i) {
                        Some(n) => n,
                        None => match trailing_ws_len(c, i) {
                            Some(n) => n,
                            None => match ws_len(c, i) {
                                Some(n) => n,
                                None => 1,
                            },
                        },
                    },
                },
            },
        },
    }
}

/// The pieces of `c[i..]`, scanned left to right.
pub open spec fn pieces_from(c: Seq<char>, i: int) -> Seq<Seq<char>>
    decreases c.len() - i,
    via pieces_from_decreases
{
    if i < 0 || i >= c.len() {
        Seq::empty()
    } else {
        let n = piece_len(c, i);
        seq![c.subrange(i, i + n)] + pieces_from(c, i + n)
    }
}

/// The pre-tokenizer pieces of `text`.
pub open spec fn pretokens(text: Seq<char>) -> Seq<Seq<char>> {
    pieces_from(text, 0)
}

pub proof fn lemma_run_ends(c: Seq<char>, j: int)
    requires
        0 <= j <= c.len(),
    ensures
        j <= letter_run_end(c, j) <= c.len(),
        j <= punct_run_end(c, j) <= c.len(),
        j <= newline_run_end(c, j) <= c.len(),
    decreases c.len() - j,
{
    if j < c.len() {
        lemma_run_ends(c, j + 1);
    }
}

pub proof fn lemma_last_newline(c: Seq<char>, i: int, j: int)
    requires
        0 <= i,
        j <= c.len(),
    ensures
        last_newline(c, i, j) matches Some(p) ==> i <= p < j,
    decreases j - i,
{
    if j > i && !(c[j - 1] == '\r' || c[j - 1] == '\n') {
        lemma_last_newline(c, i, j - 1);
    }
}

/// Every piece is at least one character long and stays inside the text.
pub proof fn lemma_piece_len_bounds(c: Seq<char>, i: int)
    requires
        0 <= i < c.len(),
    ensures
        1 <= piece_len(c, i) <= c.len() - i,
{
    lemma_run_ends(c, i);
    lemma_run_ends(c, i + 1);
    lemma_ws_end_bounds(c, i);
    let pj = if c[i] == ' ' && i + 1 < c.len() && is_punct(c[i + 1]) {
        i + 1
    } else {
        i
    };
    lemma_run_ends(c, punct_run_end(c, pj));
    lemma_last_newline(c, i, ws_end(c, i));
}

#[via_fn]
proof fn pieces_from_decreases(c: Seq<char>, i: int) {
    if 0 <= i < c.len() {
        lemma_piece_len_bounds(c, i);
    }
}

/// An optional length as a mathematical integer.
pub open spec fn opt_int(r: Option<usize>) -> Option<int> {
    match r {
        Some(n) => Some(n as int),
        None => None,
    }
}

/// The strings as plain text.
pub open spec fn strings_view(v: Seq<String>) -> Seq<Seq<char>> {
    v.map_values(|s: String| s@)
}

/// Split `text` into pieces using the LFM2 pre-tokenizer pattern. At each position the
/// alternatives are tried in order; the first that matches consumes its span.
pub fn pretokenize(text: &str) -> (pieces: Vec<String>)
    ensures
        strings_view(pieces@) == pretokens(text@),
{
    let c = to_chars(text);
    let n = c.len();
    let mut pieces: Vec<String> = Vec::new();
    let mut i: usize = 0;
    assert(strings_view(pieces@) =~= Seq::<Seq<char>>::empty());
    while i < n
        invariant
            n == c@.len(),
            c@ == text@,
            i <= n,
            strings_view(pieces@) + pieces_from(c@, i as int) == pretokens(text@),
        decreases n - i,
    {
        proof {
            lemma_piece_len_bounds(c@, i as int);
        }
        let len = match match_contraction(&c, i) {
            Some(k) => k,
            None => match match_letters(&c, i) {
                Some(k) => k,
                None => match match_numbers(&c, i) {
                    Some(k) => k,
                    None => match match_punct(&c, i) {
                        Some(k) => k,
                        None => match match_newline_run(&c, i) {
                            Some(k) => k,
                            None => match match_trailing_ws(&c, i) {
                                Some(k) => k,
                                None => match match_ws(&c, i) {
                                    Some(k) => k,
                                    None => 1,
                                },
                            },
                        },
                    },
                },
            },
        };
        assert(len as int == piece_len(c@, i as int));
        let ghost before = strings_view(pieces@);
        let piece = string_of(c.as_slice(), i, i + len);
        pieces.push(piece);
        assert(strings_view(pieces@) =~= before.push(c@.subrange(i as int, i + len)));
        assert(pieces_from(c@, i as int) == seq![c@.subrange(i as int, i + len)] + pieces_from(
            c@,
            i + len,
        ));
        assert(strings_view(pieces@) + pieces_from(c@, i + len) =~= before + pieces_from(
            c@,
            i as int,
        ));
        i += len;
    }
    assert(strings_view(pieces@) + pieces_from(c@, i as int) =~= strings_view(pieces@));
    pieces
}

/// `'(?i:[sdmt]|ll|ve|re)` — contraction suffixes.
fn match_contraction(c: &[char], i: usize) -> (r: Option<usize>)
    requires
        i < c@.len(),
    ensures
        opt_int(r) == contraction_len(c@, i as int),
{
    if c[i] != '\'' {
        return None;
    }
    if i + 1 >= c.len() {
        return None;
    }
    let c1 = to_ascii_lowercase(c[i + 1]);
    if c1 == 's' || c1 == 'd' || c1 == 'm' || c1 == 't' {
        return Some(2);
    }
    if i + 2 >= c.len() {
        return None;
    }
    let c2 = to_ascii_lowercase(c[i + 2]);
    if (c1 == 'l' && c2 == 'l') || (c1 == 'v' && c2 == 'e') || (c1 == 'r' && c2 == 'e') {
        return Some(3);
    }
    None
}

/// `[^\r\n\p{L}\p{N}]?\p{L}+` — letters, with an optional single non-letter/digit prefix.
fn match_letters(c: &[char], i: usize) -> (r: Option<usize>)
    requires
        i < c@.len(),
    ensures
        opt_int(r) == letters_len(c@, i as int),
{
    let mut j = i;
    let cur = c[i];
    let prefixable = cur != '\r' && cur != '\n' && !is_alphabetic(cur) && !is_numeric(cur);
    if prefixable && i + 1 < c.len() && is_alphabetic(c[i + 1]) {
        j += 1;
    }
    let letters_start = j;
    while j < c.len() && is_alphabetic(c[j])
        invariant
            letters_start <= j <= c@.len(),
            letter_run_end(c@, j as int) == letter_run_end(c@, letters_start as int),
        decreases c@.len() - j,
    {
        j += 1;
    }
    if j > letters_start {
        Some(j - i)
    } else {
        None
    }
}

/// `\p{N}{1,3}` — one to three digits.
fn match_numbers(c: &[char], i: usize) -> (r: Option<usize>)
    requires
        i < c@.len(),
    ensures
        opt_int(r) == numbers_len(c@, i as int),
{
    let mut j = i;
    while j - i < 3 && j < c.len() && is_numeric(c[j])
        invariant
            i <= j <= i + 3,
            j <= c@.len(),
            forall|k: int| i <= k < j ==> is_number(#[trigger] c@[k]),
        decreases i + 3 - j,
    {
        j += 1;
    }
    if j > i {
        Some(j - i)
    } else {
        None
    }
}

fn is_punct_char(ch: char) -> (r: bool)
    ensures
        r == is_punct(ch),
{
    !is_whitespace(ch) && !is_alphabetic(ch) && !is_numeric(ch)
}

/// ` ?[^\s\p{L}\p{N}]+[\r\n]*` — punctuation/symbols with an optional leading space.
fn match_punct(c: &[char], i: usize) -> (r: Option<usize>)
    requires
        i < c@.len(),
    ensures
        opt_int(r) == punct_len(c@, i as int),
{
    let mut j = i;
    if c[i] == ' ' && i + 1 < c.len() && is_punct_char(c[i + 1]) {
        j += 1;
    }
    let punct_start = j;
    while j < c.len() && is_punct_char(c[j])
        invariant
            punct_start <= j <= c@.len(),
            punct_run_end(c@, j as int) == punct_run_end(c@, punct_start as int),
        decreases c@.len() - j,
    {
        j += 1;
    }
    if j == punct_start {
        return None;
    }
    let ghost e = j;
    while j < c.len() && (c[j] == '\r' || c[j] == '\n')
        invariant
            e <= j <= c@.len(),
            newline_run_end(c@, j as int) == newline_run_end(c@, e as int),
        decreases c@.len() - j,
    {
        j += 1;
    }
    Some(j - i)
}

/// The end of the whitespace run that starts at `i`.
fn ws_run_end(c: &[char], i: usize) -> (j: usize)
    requires
        i <= c@.len(),
    ensures
        j == ws_end(c@, i as int),
        i <= j <= c@.len(),
{
    let mut j = i;
    while j < c.len() && is_whitespace(c[j])
        invariant
            i <= j <= c@.len(),
            ws_end(c@, j as int) == ws_end(c@, i as int),
        decreases c@.len() - j,
    {
        j += 1;
    }
    j
}

/// `\s*[\r\n]` — a whitespace run ending at (and including) its last newline.
fn match_newline_run(c: &[char], i: usize) -> (r: Option<usize>)
    requires
        i < c@.len(),
    ensures
        opt_int(r) == newline_ws_len(c@, i as int),
{
    let j = ws_run_end(c, i);
    let mut p = j;
    while p > i && !(c[p - 1] == '\r' || c[p - 1] == '\n')
        invariant
            i <= p <= j <= c@.len(),
            last_newline(c@, i as int, p as int) == last_newline(c@, i as int, j as int),
        decreases p - i,
    {
        p -= 1;
    }
    if p > i {
        Some(p - i)
    } else {
        None
    }
}

/// `\s+(?!\S)` — a whitespace run not immediately followed by a non-space.
fn match_trailing_ws(c: &[char], i: usize) -> (r: Option<usize>)
    requires
        i < c@.len(),
    ensures
        opt_int(r) == trailing_ws_len(c@, i as int),
{
    let j = ws_run_end(c, i);
    if j == i {
        return None;
    }
    if j >= c.len() {
        Some(j - i)
    } else if j - 1 > i {
        Some(j - 1 - i)
    } else {
        None
    }
}

/// `\s+` — any whitespace run.
fn match_ws(c: &[char], i: usize) -> (r: Option<usize>)
    requires
        i < c@.len(),
    ensures
        opt_int(r) == ws_len(c@, i as int),
{
    let j = ws_run_end(c, i);
    if j > i {
        Some(j - i)
    } else {
        None
    }
}

// ---------------------------------------------------------------------------------------------
// Laws
// ---------------------------------------------------------------------------------------------

/// All the pieces of `ps`, one after another.
pub open spec fn concat_pieces(ps: Seq<Seq<char>>) -> Seq<char>
    decreases ps.len(),
{
    if ps.len() == 0 {
        Seq::empty()
    } else {
        ps[0] + concat_pieces(ps.drop_first())
    }
}

proof fn lemma_pieces_from_cover(c: Seq<char>, i: int)
    requires
        0 <= i <= c.len(),
    ensures
        concat_pieces(pieces_from(c, i)) == c.subrange(i, c.len() as int),
        forall|k: int|
            0 <= k < pieces_from(c, i).len() ==> #[trigger] pieces_from(c, i)[k].len() > 0,
    decreases c.len() - i,
{
    if i < c.len() {
        lemma_piece_len_bounds(c, i);
        let n = piece_len(c, i);
        lemma_pieces_from_cover(c, i + n);
        let ps = pieces_from(c, i);
        assert(ps.drop_first() =~= pieces_from(c, i + n));
        assert(c.subrange(i, i + n) + c.subrange(i + n, c.len() as int) =~= c.subrange(
            i,
            c.len() as int,
        ));
        assert forall|k: int| 0 <= k < ps.len() implies #[trigger] ps[k].len() > 0 by {
            if k > 0 {
                assert(ps[k] == pieces_from(c, i + n)[k - 1]);
            }
        }
    } else {
        assert(c.subrange(i, c.len() as int) =~= Seq::<char>::empty());
    }
}

/// The pre-tokenizer loses nothing and adds nothing: its pieces, in order, spell the text
/// back, and no piece is empty.
pub proof fn lemma_pretokens_spell_the_text(text: Seq<char>)
    ensures
        concat_pieces(pretokens(text)) == text,
        forall|k: int| 0 <= k < pretokens(text).len() ==> #[trigger] pretokens(text)[k].len() > 0,
{
    lemma_pieces_from_cover(text, 0);
    assert(text.subrange(0, text.len() as int) =~= text);
}

/// A run of letters that is not empty ends in a letter.
proof fn lemma_letter_run_last(c: Seq<char>, j: int)
    requires
        0 <= j,
        letter_run_end(c, j) > j,
    ensures
        is_letter(c[letter_run_end(c, j) - 1]),
    decreases c.len() - j,
{
    if letter_run_end(c, j + 1) > j + 1 {
        lemma_letter_run_last(c, j + 1);
    }
}

/// A run of line breaks that is not empty ends in a line break; an empty one stands before
/// something that is not a line break (or at the end).
proof fn lemma_newline_run_last(c: Seq<char>, j: int)
    requires
        0 <= j,
    ensures
        newline_run_end(c, j) > j ==> (c[newline_run_end(c, j) - 1] == '\r' || c[newline_run_end(
            c,
            j,
        ) - 1] == '\n'),
        newline_run_end(c, j) == j ==> !(j < c.len() && (c[j] == '\r' || c[j] == '\n')),
    decreases c.len() - j,
{
    if 0 <= j < c.len() && (c[j] == '\r' || c[j] == '\n') {
        lemma_newline_run_last(c, j + 1);
        lemma_run_ends(c, j + 1);
    }
}

proof fn lemma_last_newline_is_newline(c: Seq<char>, i: int, j: int)
    requires
        0 <= i,
        j <= c.len(),
    ensures
        last_newline(c, i, j) matches Some(p) ==> (c[p] == '\r' || c[p] == '\n'),
    decreases j - i,
{
    if j > i && !(c[j - 1] == '\r' || c[j - 1] == '\n') {
        lemma_last_newline_is_newline(c, i, j - 1);
    }
}

/// A piece that ends in punctuation is never followed by a line break: the line breaks right
/// after punctuation belong to its piece.
proof fn lemma_punct_piece_end(c: Seq<char>, i: int)
    requires
        0 <= i < c.len(),
    ensures
        ({
            let e = i + piece_len(c, i);
            is_punct(c[e - 1]) ==> !(e < c.len() && (c[e] == '\r' || c[e] == '\n'))
        }),
{
    lemma_piece_len_bounds(c, i);
    lemma_ws_end_bounds(c, i);
    lemma_run_ends(c, i);
    let e = i + piece_len(c, i);
    match contraction_len(c, i) {
        Some(n) => {
            let x = c[i + n - 1];
            assert('a' <= ascii_lower(x) <= 'z');
            if 'A' <= x <= 'Z' {
            } else {
                assert(ascii_lower(x) == x);
            }
            assert(is_letter(x));
            assert(!is_punct(c[e - 1]));
        },
        None => match letters_len(c, i) {
            Some(n) => {
                let cur = c[i];
                let prefixable = cur != '\r' && cur != '\n' && !is_letter(cur) && !is_number(cur);
                let j = if prefixable && i + 1 < c.len() && is_letter(c[i + 1]) {
                    i + 1
                } else {
                    i
                };
                lemma_letter_run_last(c, j);
                assert(!is_punct(c[e - 1]));
            },
            None => match numbers_len(c, i) {
                Some(n) => {
                    assert(is_number(c[e - 1]));
                },
                None => match punct_len(c, i) {
                    Some(n) => {
                        let j = if c[i] == ' ' && i + 1 < c.len() && is_punct(c[i + 1]) {
                            i + 1
                        } else {
                            i
                        };
                        let pe = punct_run_end(c, j);
                        lemma_run_ends(c, j);
                        lemma_run_ends(c, pe);
                        lemma_newline_run_last(c, pe);
                        assert(e == newline_run_end(c, pe));
                        if newline_run_end(c, pe) > pe {
                            assert(is_ws(c[e - 1]));
                        } else {
                            assert(!(e < c.len() && (c[e] == '\r' || c[e] == '\n')));
                        }
                    },
                    None => match newline_ws_len(c, i) {
                        Some(n) => {
                            lemma_last_newline_is_newline(c, i, ws_end(c, i));
                            assert(is_ws(c[e - 1]));
                        },
                        None => match trailing_ws_len(c, i) {
                            Some(n) => {
                                assert(is_ws(c[e - 1]));
                            },
                            None => match ws_len(c, i) {
                                Some(n) => {
                                    assert(is_ws(c[e - 1]));
                                },
                                None => {
                                    if is_punct(c[i]) {
                                        lemma_run_ends(c, i + 1);
                                        assert(punct_run_end(c, i) > i);
                                    }
                                    assert(e == i + 1);
                                    assert(!is_punct(c[e - 1]));
                                },
                            },
                        },
                    },
                },
            },
        },
    }
}

proof fn lemma_pieces_punct_then_no_newline(c: Seq<char>, i: int)
    requires
        0 <= i <= c.len(),
    ensures
        forall|k: int|
            0 <= k && k + 1 < pieces_from(c, i).len() && is_punct(
                #[trigger] pieces_from(c, i)[k].last(),
            ) ==> pieces_from(c, i)[k + 1][0] != '\r' && pieces_from(c, i)[k + 1][0] != '\n',
    decreases c.len() - i,
{
    if i < c.len() {
        lemma_piece_len_bounds(c, i);
        let n = piece_len(c, i);
        lemma_pieces_punct_then_no_newline(c, i + n);
        lemma_punct_piece_end(c, i);
        let ps = pieces_from(c, i);
        let rest = pieces_from(c, i + n);
        assert(ps.drop_first() =~= rest);
        assert forall|k: int|
            0 <= k && k + 1 < ps.len() && is_punct(#[trigger] ps[k].last()) implies ps[k + 1][0]
            != '\r' && ps[k + 1][0] != '\n' by {
            if k == 0 {
                assert(ps[0] == c.subrange(i, i + n));
                assert(ps[0].last() == c[i + n - 1]);
                lemma_piece_len_bounds(c, i + n);
                assert(rest[0] == c.subrange(i + n, i + n + piece_len(c, i + n)));
                assert(ps[1] == rest[0]);
                assert(ps[1][0] == c[i + n]);
            } else {
                assert(ps[k] == rest[k - 1]);
                assert(ps[k + 1] == rest[k]);
            }
        }
    }
}

/// Punctuation keeps the line breaks that follow it: in the pieces of any text, a piece that
/// ends in punctuation is never followed by a piece that starts with `\r` or `\n` (the
/// pieces of `a!\nb` are `a`, `!\n`, `b`).
pub proof fn lemma_punctuation_keeps_line_breaks(text: Seq<char>)
    ensures
        forall|k: int|
            0 <= k && k + 1 < pretokens(text).len() && is_punct(#[trigger] pretokens(text)[k].last())
                ==> pretokens(text)[k + 1][0] != '\r' && pretokens(text)[k + 1][0] != '\n',
{
    lemma_pieces_punct_then_no_newline(text, 0);
}

proof fn lemma_number_piece(c: Seq<char>, i: int)
    requires
        0 <= i < c.len(),
        is_number(c[i]),
        !is_letter(c[i]),
    ensures
        ({
            let n = piece_len(c, i);
            &&& 1 <= n <= 3
            &&& forall|k: int| i <= k < i + n ==> #[trigger] is_number(c[k])
            &&& n < 3 && i + n < c.len() ==> !is_number(c[i + n])
        }),
{
    lemma_piece_len_bounds(c, i);
    assert(contraction_len(c, i) is None);
    let cur = c[i];
    assert(!(cur != '\r' && cur != '\n' && !is_letter(cur) && !is_number(cur)));
    assert(letter_run_end(c, i) == i);
    assert(letters_len(c, i) is None);
    assert(numbers_len(c, i) is Some);
}

proof fn lemma_pieces_numbers(c: Seq<char>, i: int)
    requires
        0 <= i <= c.len(),
    ensures
        forall|k: int|
            0 <= k < pieces_from(c, i).len() && is_number(#[trigger] pieces_from(c, i)[k][0])
                && !is_letter(pieces_from(c, i)[k][0]) ==> {
                let p = pieces_from(c, i)[k];
                &&& p.len() <= 3
                &&& forall|m: int| 0 <= m < p.len() ==> #[trigger] is_number(p[m])
                &&& p.len() < 3 && k + 1 < pieces_from(c, i).len() ==> !is_number(
                    pieces_from(c, i)[k + 1][0],
                )
            },
    decreases c.len() - i,
{
    if i < c.len() {
        lemma_piece_len_bounds(c, i);
        let n = piece_len(c, i);
        lemma_pieces_numbers(c, i + n);
        let ps = pieces_from(c, i);
        let rest = pieces_from(c, i + n);
        assert(ps.drop_first() =~= rest);
        assert forall|k: int|
            0 <= k < ps.len() && is_number(#[trigger] ps[k][0]) && !is_letter(ps[k][0]) implies {
                let p = ps[k];
                &&& p.len() <= 3
                &&& forall|m: int| 0 <= m < p.len() ==> #[trigger] is_number(p[m])
                &&& p.len() < 3 && k + 1 < ps.len() ==> !is_number(ps[k + 1][0])
            } by {
            if k == 0 {
                assert(ps[0] == c.subrange(i, i + n));
                assert(ps[0][0] == c[i]);
                lemma_number_piece(c, i);
                assert forall|m: int| 0 <= m < ps[0].len() implies #[trigger] is_number(ps[0][m]) by {
                    assert(ps[0][m] == c[i + m]);
                }
                if k + 1 < ps.len() {
                    lemma_piece_len_bounds(c, i + n);
                    assert(ps[1] == rest[0]);
                    assert(rest[0] == c.subrange(i + n, i + n + piece_len(c, i + n)));
                    assert(ps[1][0] == c[i + n]);
                }
            } else {
                assert(ps[k] == rest[k - 1]);
                if k + 1 < ps.len() {
                    assert(ps[k + 1] == rest[k]);
                }
            }
        }
    }
}

/// Numbers are split into groups of at most three digits, left to right: a piece that starts
/// with a digit (a numeric character that is not also alphabetic) holds one to three numeric
/// characters and nothing else, and a group shorter than three is never followed by another
/// one (the pieces of `12345` are `123`, `45`).
pub proof fn lemma_numbers_in_threes(text: Seq<char>)
    ensures
        forall|k: int|
            0 <= k < pretokens(text).len() && is_number(#[trigger] pretokens(text)[k][0])
                && !is_letter(pretokens(text)[k][0]) ==> {
                let p = pretokens(text)[k];
                &&& p.len() <= 3
                &&& forall|m: int| 0 <= m < p.len() ==> #[trigger] is_number(p[m])
                &&& p.len() < 3 && k + 1 < pretokens(text).len() ==> !is_number(
                    pretokens(text)[k + 1][0],
                )
            },
{
    lemma_pieces_numbers(text, 0);
}

/// The byte table is reversible: distinct bytes map to distinct characters.
pub proof fn lemma_byte_table_is_reversible(a: int, b: int)
    requires
        0 <= a < 256,
        0 <= b < 256,
        byte_code(a) == byte_code(b),
    ensures
        a == b,
{
}

} // verus!
