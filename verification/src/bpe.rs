//! Byte-level BPE: the vocabulary and merge ranks of the LFM2 tokenizer, encoding text to
//! token ids (special tokens atomic, everything else pre-tokenized, byte-mapped and merged)
//! and decoding ids back to text.

use vstd::prelude::*;
use vstd::utf8::{decode_utf8, encode_utf8, valid_utf8};

use crate::gguf::{meta_as_str_array, meta_as_u32, meta_as_u32_array, GgufFile, Meta};
use crate::index::{PairIndex, StrIndex};
use crate::text::to_chars;
use crate::tokenizer::{
    byte_code, byte_to_unicode, pretokenize, pretokens, strings_view, TOKEN_BOS, TOKEN_ENDOFTEXT,
    TOKEN_EOS, TOKEN_FIM_MID, TOKEN_FIM_PRE, TOKEN_FIM_SUF, TOKEN_IM_END, TOKEN_IM_START, TOKEN_PAD,
    TOKEN_THINK, TOKEN_THINK_END, TOKEN_TOOL_CALL_END, TOKEN_TOOL_CALL_START, TOKEN_TOOL_LIST_END,
    TOKEN_TOOL_LIST_START,
};
use crate::tui::{find_from, find_marker};
use crate::text::string_of;

verus! {

// ---------------------------------------------------------------------------------------------
// Byte characters
// ---------------------------------------------------------------------------------------------

/// The character the GPT-2 byte table gives byte `b`.
pub open spec fn byte_char(b: u8) -> char {
    (byte_code(b as int) as u32) as char
}

/// A character is the character of its code.
proof fn lemma_char_code(c: char, n: u32)
    requires
        c as u32 == n,
    ensures
        n as char == c,
{
}

/// Distinct bytes have distinct byte characters.
proof fn lemma_byte_char_injective(a: u8, b: u8)
    requires
        byte_char(a) == byte_char(b),
    ensures
        a == b,
{
    let na = byte_code(a as int) as u32;
    let nb = byte_code(b as int) as u32;
    assert(0 <= byte_code(a as int) < 512 && 0 <= byte_code(b as int) < 512);
    lemma_small_code(na);
    lemma_small_code(nb);
    crate::tokenizer::lemma_byte_table_is_reversible(a as int, b as int);
}

/// A code point below the surrogates is the code of its character.
proof fn lemma_small_code(n: u32)
    requires
        n < 0xD800,
    ensures
        (n as char) as u32 == n,
{
}

/// The characters of `c` from `start` on.
fn chars_from(c: &Vec<char>, start: usize) -> (r: Vec<char>)
    requires
        start <= c@.len(),
    ensures
        r@ == c@.subrange(start as int, c@.len() as int),
{
    let mut r: Vec<char> = Vec::new();
    let mut i: usize = start;
    while i < c.len()
        invariant
            start <= i <= c@.len(),
            r@ == c@.subrange(start as int, i as int),
        decreases c@.len() - i,
    {
        r.push(c[i]);
        i += 1;
        assert(r@ =~= c@.subrange(start as int, i as int));
    }
    r
}

/// The UTF-8 bytes of one character.
pub open spec fn encode_scalar_of(c: char) -> Seq<u8> {
    encode_utf8(seq![c])
}

/// The byte characters standing for the UTF-8 encoding of `s`.
pub open spec fn byte_chars(s: Seq<char>) -> Seq<char> {
    encode_utf8(s).map_values(|b: u8| byte_char(b))
}

/// The byte a character stands for in the byte table, if any.
pub open spec fn char_byte(c: char) -> Option<u8> {
    if exists|b: u8| byte_char(b) == c {
        Some(choose|b: u8| byte_char(b) == c)
    } else {
        None
    }
}

// ---------------------------------------------------------------------------------------------
// BPE merging
// ---------------------------------------------------------------------------------------------

/// Merge ranks: a pair of adjacent symbols and the priority of merging them (lower first).
pub type Ranks = Map<(Seq<char>, Seq<char>), u32>;

/// The adjacent pair with the lowest rank among those starting at `i` or later, given the
/// best `(index, rank)` found before `i`; on equal ranks the leftmost pair wins.
pub open spec fn best_pair_from(syms: Seq<Seq<char>>, ranks: Ranks, i: int, best: Option<(int, u32)>) -> Option<(int, u32)>
    decreases syms.len() - i,
{
    if i < 0 || i + 1 >= syms.len() {
        best
    } else {
        let key = (syms[i], syms[i + 1]);
        let nb = if ranks.contains_key(key) && (best is None || ranks[key] < best.unwrap().1) {
            Some((i, ranks[key]))
        } else {
            best
        };
        best_pair_from(syms, ranks, i + 1, nb)
    }
}

/// `syms` with the pair at `i` joined into one symbol.
pub open spec fn merge_at(syms: Seq<Seq<char>>, i: int) -> Seq<Seq<char>> {
    syms.subrange(0, i) + seq![syms[i] + syms[i + 1]] + syms.subrange(i + 2, syms.len() as int)
}

/// Greedy BPE: join the lowest-ranked adjacent pair until no adjacent pair has a rank.
pub open spec fn bpe_merge(syms: Seq<Seq<char>>, ranks: Ranks) -> Seq<Seq<char>>
    decreases syms.len(),
{
    match best_pair_from(syms, ranks, 0, None) {
        None => syms,
        Some((i, _)) => {
            if 0 <= i && i + 1 < syms.len() {
                bpe_merge(merge_at(syms, i), ranks)
            } else {
                syms
            }
        },
    }
}

/// Each character of `w` as a symbol of its own.
pub open spec fn singletons(w: Seq<char>) -> Seq<Seq<char>> {
    Seq::new(w.len(), |i: int| seq![w[i]])
}

/// The symbols BPE makes of a byte-character word.
pub open spec fn bpe_word(w: Seq<char>, ranks: Ranks) -> Seq<Seq<char>> {
    bpe_merge(singletons(w), ranks)
}

/// The ids of one symbol: its own id, or else the ids of those of its characters that are
/// in the vocabulary.
pub open spec fn symbol_ids(sym: Seq<char>, ids: Map<Seq<char>, u32>) -> Seq<u32> {
    if ids.contains_key(sym) {
        seq![ids[sym]]
    } else {
        char_ids(sym, ids)
    }
}

/// The ids of the characters of `sym` that are tokens of their own.
pub open spec fn char_ids(sym: Seq<char>, ids: Map<Seq<char>, u32>) -> Seq<u32>
    decreases sym.len(),
{
    if sym.len() == 0 {
        Seq::empty()
    } else {
        let last = seq![sym.last()];
        char_ids(sym.drop_last(), ids) + if ids.contains_key(last) {
            seq![ids[last]]
        } else {
            Seq::empty()
        }
    }
}

/// The ids of a sequence of symbols.
pub open spec fn symbols_ids(syms: Seq<Seq<char>>, ids: Map<Seq<char>, u32>) -> Seq<u32>
    decreases syms.len(),
{
    if syms.len() == 0 {
        Seq::empty()
    } else {
        symbols_ids(syms.drop_last(), ids) + symbol_ids(syms.last(), ids)
    }
}

/// The ids of a span with no special token: each pre-token is byte-mapped, merged and
/// looked up.
pub open spec fn pieces_ids(pieces: Seq<Seq<char>>, ids: Map<Seq<char>, u32>, ranks: Ranks) -> Seq<u32>
    decreases pieces.len(),
{
    if pieces.len() == 0 {
        Seq::empty()
    } else {
        pieces_ids(pieces.drop_last(), ids, ranks) + symbols_ids(
            bpe_word(byte_chars(pieces.last()), ranks),
            ids,
        )
    }
}

/// The ids of a span of text that holds no special token.
pub open spec fn chunk_ids(text: Seq<char>, ids: Map<Seq<char>, u32>, ranks: Ranks) -> Seq<u32> {
    pieces_ids(pretokens(text), ids, ranks)
}

// ---------------------------------------------------------------------------------------------
// Special tokens
// ---------------------------------------------------------------------------------------------

/// The earliest special-token occurrence in `rest` among `specials[k..]`, given the best
/// `(position, length, id)` found among the earlier ones: an earlier position wins, then a
/// longer literal, then the earlier special.
pub open spec fn hit_from(
    rest: Seq<char>,
    specials: Seq<(Seq<char>, u32)>,
    k: int,
    best: Option<(int, int, u32)>,
) -> Option<(int, int, u32)>
    decreases specials.len() - k,
{
    if k < 0 || k >= specials.len() {
        best
    } else {
        let (s, id) = specials[k];
        let nb = match find_from(rest, s, 0) {
            None => best,
            Some(pos) => {
                let cand = (pos, s.len() as int, id);
                match best {
                    None => Some(cand),
                    Some(b) => {
                        if cand.0 < b.0 || (cand.0 == b.0 && cand.1 > b.1) {
                            Some(cand)
                        } else {
                            best
                        }
                    },
                }
            },
        };
        hit_from(rest, specials, k + 1, nb)
    }
}

/// The ids of `rest`: each earliest special-token occurrence becomes its id, and the spans
/// between them go through byte-level BPE.
pub open spec fn encode_rest(rest: Seq<char>, v: Vocab) -> Seq<u32>
    decreases rest.len(),
{
    if rest.len() == 0 {
        Seq::empty()
    } else {
        match hit_from(rest, v.specials, 0, None) {
            None => chunk_ids(rest, v.ids, v.ranks),
            Some((pos, len, id)) => {
                if 0 <= pos && 0 < len && pos + len <= rest.len() {
                    chunk_ids(rest.subrange(0, pos), v.ids, v.ranks) + seq![id] + encode_rest(
                        rest.subrange(pos + len, rest.len() as int),
                        v,
                    )
                } else {
                    Seq::empty()
                }
            },
        }
    }
}

/// The ids of `text`, after the BOS id when `add_bos`.
pub open spec fn encode_spec(text: Seq<char>, add_bos: bool, v: Vocab) -> Seq<u32> {
    (if add_bos {
        seq![v.bos]
    } else {
        Seq::empty()
    }) + encode_rest(text, v)
}

// ---------------------------------------------------------------------------------------------
// Decoding
// ---------------------------------------------------------------------------------------------

/// The bytes a token's characters stand for (characters outside the byte table are dropped).
pub open spec fn token_bytes(t: Seq<char>) -> Seq<u8>
    decreases t.len(),
{
    if t.len() == 0 {
        Seq::empty()
    } else {
        token_bytes(t.drop_last()) + match char_byte(t.last()) {
            Some(b) => seq![b],
            None => Seq::empty(),
        }
    }
}

/// The bytes of a sequence of ids (ids outside the vocabulary are dropped).
pub open spec fn ids_bytes(ids: Seq<u32>, tokens: Seq<Seq<char>>) -> Seq<u8>
    decreases ids.len(),
{
    if ids.len() == 0 {
        Seq::empty()
    } else {
        ids_bytes(ids.drop_last(), tokens) + if ids.last() < tokens.len() {
            token_bytes(tokens[ids.last() as int])
        } else {
            Seq::empty()
        }
    }
}

/// The text `String::from_utf8_lossy` makes of `bytes`.
pub uninterp spec fn utf8_lossy(bytes: Seq<u8>) -> Seq<char>;

/// Calls `String::from_utf8_lossy`: the text of the bytes, with each invalid sequence
/// replaced by U+FFFD; bytes that are valid UTF-8 are decoded unchanged.
#[verifier::external_body]
fn from_utf8_lossy(bytes: &[u8]) -> (s: String)
    ensures
        s@ == utf8_lossy(bytes@),
        valid_utf8(bytes@) ==> s@ == decode_utf8(bytes@),
{
    String::from_utf8_lossy(bytes).into_owned()
}

/// Vocabulary entries as a map: a later entry for the same text replaces an earlier one.
pub open spec fn vocab_map(v: Seq<(Seq<char>, u32)>) -> Map<Seq<char>, u32>
    decreases v.len(),
{
    if v.len() == 0 {
        Map::empty()
    } else {
        vocab_map(v.drop_last()).insert(v.last().0, v.last().1)
    }
}

/// Merge rules in priority order as ranks: rule `k` has rank `k`; a later rule for the same
/// pair replaces an earlier one.
pub open spec fn rank_map(m: Seq<(Seq<char>, Seq<char>)>) -> Ranks
    decreases m.len(),
{
    if m.len() == 0 {
        Map::empty()
    } else {
        rank_map(m.drop_last()).insert(m.last(), (m.len() - 1) as u32)
    }
}

/// Which `(position, length, id)` an exec search result stands for.
pub open spec fn found_hit(h: Option<(usize, usize, u32)>) -> Option<(int, int, u32)> {
    match h {
        Some((p, l, id)) => Some((p as int, l as int, id)),
        None => None,
    }
}

/// Every special token has some text.
pub open spec fn specials_nonempty(sp: Seq<(Seq<char>, u32)>) -> bool {
    forall|k: int| 0 <= k < sp.len() ==> (#[trigger] sp[k]).0.len() > 0
}

// ---------------------------------------------------------------------------------------------
// Loading from GGUF metadata
// ---------------------------------------------------------------------------------------------

/// `token_type` of a control token.
pub const TOKEN_TYPE_CONTROL: u32 = 3;

/// `token_type` of a user-defined token.
pub const TOKEN_TYPE_USER_DEFINED: u32 = 4;

/// The named control tokens paired with their literal vocab strings.
pub open spec fn special_table() -> Seq<(Seq<char>, u32)> {
    seq![
        ("<|pad|>"@, TOKEN_PAD),
        ("<|startoftext|>"@, TOKEN_BOS),
        ("<|endoftext|>"@, TOKEN_ENDOFTEXT),
        ("<|fim_pre|>"@, TOKEN_FIM_PRE),
        ("<|fim_mid|>"@, TOKEN_FIM_MID),
        ("<|fim_suf|>"@, TOKEN_FIM_SUF),
        ("<|im_start|>"@, TOKEN_IM_START),
        ("<|im_end|>"@, TOKEN_IM_END),
        ("<think>"@, TOKEN_THINK),
        ("</think>"@, TOKEN_THINK_END),
        ("<|tool_list_start|>"@, TOKEN_TOOL_LIST_START),
        ("<|tool_list_end|>"@, TOKEN_TOOL_LIST_END),
        ("<|tool_call_start|>"@, TOKEN_TOOL_CALL_START),
        ("<|tool_call_end|>"@, TOKEN_TOOL_CALL_END),
    ]
}

/// The named control tokens paired with their literal vocab strings. A loaded vocabulary is
/// checked against these ids, so a mismatched or updated file fails loudly.
pub fn special_tokens() -> (r: Vec<(&'static str, u32)>)
    ensures
        r@.map_values(|e: (&'static str, u32)| (e.0@, e.1)) == special_table(),
{
    let mut r: Vec<(&'static str, u32)> = Vec::new();
    r.push(("<|pad|>", TOKEN_PAD));
    r.push(("<|startoftext|>", TOKEN_BOS));
    r.push(("<|endoftext|>", TOKEN_ENDOFTEXT));
    r.push(("<|fim_pre|>", TOKEN_FIM_PRE));
    r.push(("<|fim_mid|>", TOKEN_FIM_MID));
    r.push(("<|fim_suf|>", TOKEN_FIM_SUF));
    r.push(("<|im_start|>", TOKEN_IM_START));
    r.push(("<|im_end|>", TOKEN_IM_END));
    r.push(("<think>", TOKEN_THINK));
    r.push(("</think>", TOKEN_THINK_END));
    r.push(("<|tool_list_start|>", TOKEN_TOOL_LIST_START));
    r.push(("<|tool_list_end|>", TOKEN_TOOL_LIST_END));
    r.push(("<|tool_call_start|>", TOKEN_TOOL_CALL_START));
    r.push(("<|tool_call_end|>", TOKEN_TOOL_CALL_END));
    assert(r@.map_values(|e: (&'static str, u32)| (e.0@, e.1)) =~= special_table());
    r
}

/// Why a vocabulary could not be loaded.
#[derive(Debug)]
pub enum TokenizerError {
    UnsupportedModel { model: String },
    MissingTokens,
    MissingMerges,
    /// A named control token's id holds other text (or no token).
    SpecialMismatch { id: u32, expected: String, got: Option<String> },
}

/// A loading failure as plain values.
pub enum TokenizerFailure {
    UnsupportedModel(Seq<char>),
    MissingTokens,
    MissingMerges,
    SpecialMismatch(u32, Seq<char>, Option<Seq<char>>),
}

impl View for TokenizerError {
    type V = TokenizerFailure;

    open spec fn view(&self) -> TokenizerFailure {
        match self {
            TokenizerError::UnsupportedModel { model } => TokenizerFailure::UnsupportedModel(model@),
            TokenizerError::MissingTokens => TokenizerFailure::MissingTokens,
            TokenizerError::MissingMerges => TokenizerFailure::MissingMerges,
            TokenizerError::SpecialMismatch { id, expected, got } => TokenizerFailure::SpecialMismatch(
                *id,
                expected@,
                match got {
                    Some(g) => Some(g@),
                    None => None,
                },
            ),
        }
    }
}

/// The position of the first space in `m`, if any.
pub open spec fn first_space(m: Seq<char>, i: int) -> Option<int>
    decreases m.len() - i,
{
    if i < 0 || i >= m.len() {
        None
    } else if m[i] == ' ' {
        Some(i)
    } else {
        first_space(m, i + 1)
    }
}

/// A merge rule `"A B"` split at its first space (byte-encoded symbols never contain a
/// literal space, so the first space separates the pair).
pub open spec fn split_merge(m: Seq<char>) -> Option<(Seq<char>, Seq<char>)> {
    match first_space(m, 0) {
        Some(i) => Some((m.subrange(0, i), m.subrange(i + 1, m.len() as int))),
        None => None,
    }
}

/// The merge rules as ranks: rule `k` has rank `k`; rules without a space are skipped; a later
/// rule for the same pair replaces an earlier one.
pub open spec fn merge_ranks(ms: Seq<Seq<char>>) -> Ranks
    decreases ms.len(),
{
    if ms.len() == 0 {
        Map::empty()
    } else {
        let r = merge_ranks(ms.drop_last());
        match split_merge(ms.last()) {
            Some(pair) => r.insert(pair, (ms.len() - 1) as u32),
            None => r,
        }
    }
}

/// Each token text with its id (its position).
pub open spec fn token_entries(tokens: Seq<Seq<char>>) -> Seq<(Seq<char>, u32)> {
    Seq::new(tokens.len(), |i: int| (tokens[i], i as u32))
}

/// The first named control token whose id does not hold its literal.
pub open spec fn special_mismatch(tokens: Seq<Seq<char>>, table: Seq<(Seq<char>, u32)>) -> Option<TokenizerFailure>
    decreases table.len(),
{
    if table.len() == 0 {
        None
    } else {
        let (lit, id) = table[0];
        let got = if id < tokens.len() {
            Some(tokens[id as int])
        } else {
            None
        };
        if got != Some(lit) {
            Some(TokenizerFailure::SpecialMismatch(id, lit, got))
        } else {
            special_mismatch(tokens, table.drop_first())
        }
    }
}

/// The tokens typed control or user-defined, in id order.
pub open spec fn typed_specials(types: Seq<u32>, tokens: Seq<Seq<char>>) -> Seq<(Seq<char>, u32)>
    decreases types.len(),
{
    if types.len() == 0 {
        Seq::empty()
    } else {
        let id = types.len() - 1;
        let ty = types.last();
        typed_specials(types.drop_last(), tokens) + if (ty == TOKEN_TYPE_CONTROL || ty
            == TOKEN_TYPE_USER_DEFINED) && id < tokens.len() {
            seq![(tokens[id], id as u32)]
        } else {
            Seq::empty()
        }
    }
}

/// The UTF-8 length of a special's text, by which specials are ordered.
pub open spec fn special_len(e: (Seq<char>, u32)) -> int {
    encode_utf8(e.0).len() as int
}

/// The first position in `s` holding a special with a shorter text than `k` bytes.
pub open spec fn first_shorter(s: Seq<(Seq<char>, u32)>, k: int, i: int) -> int
    decreases s.len() - i,
{
    if i < 0 || i >= s.len() {
        s.len() as int
    } else if special_len(s[i]) < k {
        i
    } else {
        first_shorter(s, k, i + 1)
    }
}

/// The specials stably sorted by decreasing text length, so that the longest match wins.
pub open spec fn sort_specials(s: Seq<(Seq<char>, u32)>) -> Seq<(Seq<char>, u32)>
    decreases s.len(),
{
    if s.len() == 0 {
        Seq::empty()
    } else {
        let sorted = sort_specials(s.drop_last());
        let x = s.last();
        let p = first_shorter(sorted, special_len(x), 0);
        sorted.insert(p, x)
    }
}

/// The string array stored under `key`, if any.
pub open spec fn str_array_of(g: GgufFile, key: Seq<char>) -> Option<Seq<Seq<char>>> {
    match g.meta_get(key) {
        Some(m) => meta_as_str_array(m),
        None => None,
    }
}

/// The integer array stored under `key`, if any.
pub open spec fn u32_array_of(g: GgufFile, key: Seq<char>) -> Option<Seq<u32>> {
    match g.meta_get(key) {
        Some(m) => meta_as_u32_array(m),
        None => None,
    }
}

/// The integer stored under `key`, or `default`.
pub open spec fn u32_or(g: GgufFile, key: Seq<char>, default: u32) -> u32 {
    match g.meta_get(key) {
        Some(m) => match meta_as_u32(m) {
            Some(v) => v,
            None => default,
        },
        None => default,
    }
}

/// The string stored under `key`, or the empty string.
pub open spec fn str_or_empty(g: GgufFile, key: Seq<char>) -> Seq<char> {
    match g.meta_get(key) {
        Some(Meta::Str(m)) => m,
        _ => Seq::empty(),
    }
}

/// What a file's `tokenizer.ggml.*` metadata makes of a vocabulary, with the named control
/// tokens checked against the file when `check_specials`.
pub open spec fn vocab_from_with(g: GgufFile, check_specials: bool) -> Result<Vocab, TokenizerFailure> {
    let model = str_or_empty(g, "tokenizer.ggml.model"@);
    if model != "gpt2"@ {
        Err(TokenizerFailure::UnsupportedModel(model))
    } else {
        match str_array_of(g, "tokenizer.ggml.tokens"@) {
            None => Err(TokenizerFailure::MissingTokens),
            Some(tokens) => match str_array_of(g, "tokenizer.ggml.merges"@) {
                None => Err(TokenizerFailure::MissingMerges),
                Some(merges) => match (if check_specials {
                    special_mismatch(tokens, special_table())
                } else {
                    None
                }) {
                    Some(f) => Err(f),
                    None => {
                        let typed = match u32_array_of(g, "tokenizer.ggml.token_type"@) {
                            Some(types) => typed_specials(types, tokens),
                            None => Seq::empty(),
                        };
                        Ok(
                            Vocab {
                                tokens,
                                ids: vocab_map(token_entries(tokens)),
                                ranks: merge_ranks(merges),
                                specials: sort_specials(typed),
                                bos: u32_or(g, "tokenizer.ggml.bos_token_id"@, TOKEN_BOS),
                                eos: u32_or(g, "tokenizer.ggml.eos_token_id"@, TOKEN_EOS),
                            },
                        )
                    },
                },
            },
        }
    }
}

/// What a file's `tokenizer.ggml.*` metadata makes of a vocabulary, the named control tokens
/// checked against the file.
pub open spec fn vocab_from(g: GgufFile) -> Result<Vocab, TokenizerFailure> {
    vocab_from_with(g, true)
}

// ---------------------------------------------------------------------------------------------
// The tokenizer
// ---------------------------------------------------------------------------------------------

/// A byte-level BPE tokenizer.
pub struct Tokenizer {
    id_to_token: Vec<String>,
    token_to_id: StrIndex,
    /// (left, right) byte-char symbol pair → merge rank (lower = merged first).
    merge_rank: PairIndex,
    /// Control/user-defined tokens as `(literal, id)`, longest literal first. These are
    /// atomic: `encode` emits the id directly instead of BPE-ing the literal text.
    specials: Vec<(String, u32)>,
    byte_encoder: [char; 256],
    pub bos: u32,
    pub eos: u32,
}

/// A tokenizer as plain values.
pub struct Vocab {
    /// The token text of each id.
    pub tokens: Seq<Seq<char>>,
    /// The id of each token text.
    pub ids: Map<Seq<char>, u32>,
    pub ranks: Ranks,
    pub specials: Seq<(Seq<char>, u32)>,
    pub bos: u32,
    pub eos: u32,
}

/// Special tokens as plain values.
pub open spec fn specials_view(s: Seq<(String, u32)>) -> Seq<(Seq<char>, u32)> {
    s.map_values(|e: (String, u32)| (e.0@, e.1))
}

impl View for Tokenizer {
    type V = Vocab;

    closed spec fn view(&self) -> Vocab {
        Vocab {
            tokens: strings_view(self.id_to_token@),
            ids: self.token_to_id@,
            ranks: self.merge_rank@,
            specials: specials_view(self.specials@),
            bos: self.bos,
            eos: self.eos,
        }
    }
}

/// Which `(index, rank)` an exec search result stands for.
pub open spec fn found_pair(b: Option<(usize, u32)>) -> Option<(int, u32)> {
    match b {
        Some((i, r)) => Some((i as int, r)),
        None => None,
    }
}

proof fn lemma_best_pair_bounds(syms: Seq<Seq<char>>, ranks: Ranks, i: int, best: Option<(int, u32)>)
    requires
        i >= 0,
        best matches Some((j, _)) ==> 0 <= j && j + 1 < syms.len(),
    ensures
        best_pair_from(syms, ranks, i, best) matches Some((j, _)) ==> 0 <= j && j + 1 < syms.len(),
    decreases syms.len() - i,
{
    if i + 1 < syms.len() {
        let key = (syms[i], syms[i + 1]);
        let nb = if ranks.contains_key(key) && (best is None || ranks[key] < best.unwrap().1) {
            Some((i, ranks[key]))
        } else {
            best
        };
        lemma_best_pair_bounds(syms, ranks, i + 1, nb);
    }
}

impl Tokenizer {
    /// The indexes are consistent and the byte table is GPT-2's.
    pub closed spec fn wf(&self) -> bool {
        &&& self.token_to_id.wf()
        &&& self.merge_rank.wf()
        &&& forall|b: int| 0 <= b < 256 ==> #[trigger] self.byte_encoder@[b] as u32 == byte_code(b)
    }

    /// The byte characters of `s`'s UTF-8 encoding.
    fn byte_map(&self, s: &str) -> (r: Vec<char>)
        requires
            self.wf(),
        ensures
            r@ == byte_chars(s@),
    {
        let bytes = s.as_bytes();
        let mut r: Vec<char> = Vec::new();
        let mut i: usize = 0;
        while i < bytes.len()
            invariant
                self.wf(),
                bytes@ == encode_utf8(s@),
                i <= bytes@.len(),
                r@ == bytes@.take(i as int).map_values(|b: u8| byte_char(b)),
            decreases bytes@.len() - i,
        {
            let b = bytes[i];
            let c = self.byte_encoder[b as usize];
            proof {
                let n: u32 = byte_code(b as int) as u32;
                assert(self.byte_encoder@[b as int] as u32 == byte_code(b as int));
                assert(0 <= byte_code(b as int) < 512);
                assert(c as u32 == n);
                lemma_char_code(c, n);
            }
            r.push(c);
            i += 1;
            assert(r@ =~= bytes@.take(i as int).map_values(|b: u8| byte_char(b)));
        }
        assert(bytes@.take(i as int) =~= bytes@);
        r
    }

    /// Appends the ids of one symbol.
    fn push_symbol_ids(&self, sym: &String, ids: &mut Vec<u32>)
        requires
            self.wf(),
        ensures
            final(ids)@ == old(ids)@ + symbol_ids(sym@, self@.ids),
    {
        match self.token_to_id.get(sym.as_str()) {
            Some(id) => {
                ids.push(id);
            },
            None => {
                // Fallback (the vocabulary normally holds every single byte character).
                let cs = to_chars(sym.as_str());
                let mut i: usize = 0;
                while i < cs.len()
                    invariant
                        self.wf(),
                        cs@ == sym@,
                        i <= cs@.len(),
                        ids@ == old(ids)@ + char_ids(cs@.take(i as int), self@.ids),
                    decreases cs@.len() - i,
                {
                    let mut one = String::new();
                    one.push(cs[i]);
                    assert(one@ =~= seq![cs@[i as int]]);
                    let ghost before = ids@;
                    match self.token_to_id.get(one.as_str()) {
                        Some(id) => ids.push(id),
                        None => {},
                    }
                    assert(cs@.take(i + 1 as int).drop_last() =~= cs@.take(i as int));
                    i += 1;
                    assert(ids@ =~= old(ids)@ + char_ids(cs@.take(i as int), self@.ids));
                }
                assert(cs@.take(i as int) =~= sym@);
            },
        }
    }

    /// Byte-level BPE-encode a span known to contain no special tokens, appending ids.
    fn bpe_chunk(&self, text: &str, ids: &mut Vec<u32>)
        requires
            self.wf(),
        ensures
            final(ids)@ == old(ids)@ + chunk_ids(text@, self@.ids, self@.ranks),
    {
        let pieces = pretokenize(text);
        let ghost ps = strings_view(pieces@);
        let mut k: usize = 0;
        assert(ps.take(0) =~= Seq::<Seq<char>>::empty());
        assert(old(ids)@ + Seq::<u32>::empty() =~= old(ids)@);
        while k < pieces.len()
            invariant
                self.wf(),
                ps == strings_view(pieces@),
                ps == pretokens(text@),
                k <= pieces@.len(),
                ids@ == old(ids)@ + pieces_ids(ps.take(k as int), self@.ids, self@.ranks),
            decreases pieces@.len() - k,
        {
            let mapped = self.byte_map(pieces[k].as_str());
            let syms = self.bpe(&mapped);
            let ghost before = ids@;
            let mut j: usize = 0;
            let ghost sv = strings_view(syms@);
            assert(sv.take(0) =~= Seq::<Seq<char>>::empty());
            assert(before + Seq::<u32>::empty() =~= before);
            while j < syms.len()
                invariant
                    self.wf(),
                    sv == strings_view(syms@),
                    j <= syms@.len(),
                    ids@ == before + symbols_ids(sv.take(j as int), self@.ids),
                decreases syms@.len() - j,
            {
                let ghost mid = ids@;
                self.push_symbol_ids(&syms[j], ids);
                assert(sv.take(j + 1 as int).drop_last() =~= sv.take(j as int));
                j += 1;
                assert(ids@ =~= before + symbols_ids(sv.take(j as int), self@.ids));
            }
            assert(sv.take(j as int) =~= sv);
            assert(ps.take(k + 1 as int).drop_last() =~= ps.take(k as int));
            k += 1;
            assert(ids@ =~= old(ids)@ + pieces_ids(ps.take(k as int), self@.ids, self@.ranks));
        }
        assert(ps.take(k as int) =~= ps);
    }

    /// A tokenizer from its parts: the token text of each id, the `(text, id)` vocabulary
    /// entries (a later entry for the same text wins), the merge rules in priority order, the
    /// atomic special tokens in search order, and the BOS/EOS ids.
    pub fn from_parts(
        id_to_token: Vec<String>,
        vocab: Vec<(String, u32)>,
        merges: Vec<(String, String)>,
        specials: Vec<(String, u32)>,
        bos: u32,
        eos: u32,
    ) -> (t: Tokenizer)
        ensures
            t.wf(),
            t@ == (Vocab {
                tokens: strings_view(id_to_token@),
                ids: vocab_map(specials_view(vocab@)),
                ranks: rank_map(merges@.map_values(|m: (String, String)| (m.0@, m.1@))),
                specials: specials_view(specials@),
                bos,
                eos,
            }),
    {
        let mut token_to_id = StrIndex::new();
        let mut i: usize = 0;
        let ghost vv = specials_view(vocab@);
        while i < vocab.len()
            invariant
                i <= vocab@.len(),
                vv == specials_view(vocab@),
                token_to_id.wf(),
                token_to_id@ == vocab_map(vv.take(i as int)),
            decreases vocab@.len() - i,
        {
            token_to_id.insert(vocab[i].0.clone(), vocab[i].1);
            assert(vv.take(i + 1 as int).drop_last() =~= vv.take(i as int));
            i += 1;
        }
        assert(vv.take(i as int) =~= vv);
        let mut merge_rank = PairIndex::new();
        let ghost mv = merges@.map_values(|m: (String, String)| (m.0@, m.1@));
        let mut k: usize = 0;
        while k < merges.len()
            invariant
                k <= merges@.len(),
                mv == merges@.map_values(|m: (String, String)| (m.0@, m.1@)),
                merge_rank.wf(),
                merge_rank@ == rank_map(mv.take(k as int)),
            decreases merges@.len() - k,
        {
            merge_rank.insert(merges[k].0.clone(), merges[k].1.clone(), #[verifier::truncate] (k as u32));
            assert(mv.take(k + 1 as int).drop_last() =~= mv.take(k as int));
            k += 1;
        }
        assert(mv.take(k as int) =~= mv);
        Tokenizer {
            id_to_token,
            token_to_id,
            merge_rank,
            specials,
            byte_encoder: byte_to_unicode(),
            bos,
            eos,
        }
    }

    /// The number of token ids.
    pub fn vocab_size(&self) -> (n: usize)
        ensures
            n == self@.tokens.len(),
    {
        self.id_to_token.len()
    }

    /// Whether every special token has some text (encoding searches for each of them).
    pub fn has_nonempty_specials(&self) -> (r: bool)
        ensures
            r == specials_nonempty(self@.specials),
    {
        let mut k: usize = 0;
        while k < self.specials.len()
            invariant
                k <= self.specials@.len(),
                forall|j: int| 0 <= j < k ==> (#[trigger] self@.specials[j]).0.len() > 0,
            decreases self.specials@.len() - k,
        {
            if self.specials[k].0.as_str().is_empty() {
                assert(self@.specials[k as int].0.len() == 0);
                return false;
            }
            k += 1;
        }
        true
    }

    /// The earliest special-token occurrence in `rest`.
    fn find_hit(&self, rest: &Vec<char>) -> (r: Option<(usize, usize, u32)>)
        requires
            specials_nonempty(self@.specials),
        ensures
            found_hit(r) == hit_from(rest@, self@.specials, 0, None),
            r matches Some((p, l, _)) ==> 0 < l && p + l <= rest@.len(),
    {
        let ghost sp = self@.specials;
        let mut best: Option<(usize, usize, u32)> = None;
        let mut k: usize = 0;
        while k < self.specials.len()
            invariant
                sp == self@.specials,
                specials_nonempty(sp),
                k <= sp.len(),
                hit_from(rest@, sp, 0, None) == hit_from(rest@, sp, k as int, found_hit(best)),
                best matches Some((p, l, _)) ==> 0 < l && p + l <= rest@.len(),
            decreases sp.len() - k,
        {
            let sc = to_chars(self.specials[k].0.as_str());
            let id = self.specials[k].1;
            assert(sp[k as int].0.len() > 0);
            match find_marker(rest, &sc) {
                None => {},
                Some(pos) => {
                    let cand = (pos, sc.len(), id);
                    let take = match best {
                        None => true,
                        Some((bp, bl, _)) => pos < bp || (pos == bp && sc.len() > bl),
                    };
                    if take {
                        best = Some(cand);
                    }
                },
            }
            k += 1;
        }
        best
    }

    /// Encode text to token ids, optionally prepending BOS. Any special-token literal in
    /// `text` is emitted as its single id; the spans between them go through byte-level BPE.
    pub fn encode(&self, text: &str, add_bos: bool) -> (ids: Vec<u32>)
        requires
            self.wf(),
            specials_nonempty(self@.specials),
        ensures
            ids@ == encode_spec(text@, add_bos, self@),
    {
        let c = to_chars(text);
        let n = c.len();
        let mut ids: Vec<u32> = Vec::new();
        if add_bos {
            ids.push(self.bos);
        }
        let mut start: usize = 0;
        assert(c@.subrange(0, n as int) =~= text@);
        while start < n
            invariant
                self.wf(),
                specials_nonempty(self@.specials),
                n == c@.len(),
                c@ == text@,
                start <= n,
                ids@ + encode_rest(c@.subrange(start as int, n as int), self@) == encode_spec(text@, add_bos, self@),
            decreases n - start,
        {
            let rest = chars_from(&c, start);
            let ghost r = rest@;
            match self.find_hit(&rest) {
                None => {
                    let span = string_of(rest.as_slice(), 0, rest.len());
                    assert(span@ =~= r);
                    let ghost before = ids@;
                    self.bpe_chunk(span.as_str(), &mut ids);
                    start = n;
                    assert(ids@ + encode_rest(c@.subrange(start as int, n as int), self@) =~= before + encode_rest(r, self@));
                },
                Some((pos, len, id)) => {
                    let span = string_of(rest.as_slice(), 0, pos);
                    let ghost before = ids@;
                    self.bpe_chunk(span.as_str(), &mut ids);
                    ids.push(id);
                    let ghost next = r.subrange(pos + len, r.len() as int);
                    assert(c@.subrange(start + pos + len, n as int) =~= next);
                    start = start + pos + len;
                    assert(ids@ + encode_rest(next, self@) =~= before + encode_rest(r, self@));
                },
            }
        }
        assert(c@.subrange(start as int, n as int) =~= Seq::<char>::empty());
        assert(ids@ + Seq::<u32>::empty() =~= ids@);
        ids
    }

    /// The byte a byte-table character stands for.
    fn char_to_byte(&self, c: char) -> (r: Option<u8>)
        requires
            self.wf(),
        ensures
            r == char_byte(c),
    {
        let mut b: usize = 0;
        while b < 256
            invariant
                self.wf(),
                b <= 256,
                forall|x: u8| x < b ==> byte_char(x) != c,
            decreases 256 - b,
        {
            if self.byte_encoder[b] == c {
                proof {
                    let bb = b as u8;
                    lemma_char_code(c, byte_code(b as int) as u32);
                    assert(byte_char(bb) == c);
                    let w = choose|x: u8| byte_char(x) == c;
                    lemma_byte_char_injective(w, bb);
                }
                return Some(b as u8);
            }
            proof {
                let bb = b as u8;
                let t = self.byte_encoder@[b as int];
                lemma_char_code(t, byte_code(b as int) as u32);
            }
            b += 1;
        }
        None
    }

    /// Decode token ids back to text: each token's byte characters become bytes (other
    /// characters, and ids outside the vocabulary, are dropped), read as UTF-8 with invalid
    /// sequences replaced.
    pub fn decode(&self, ids: &[u32]) -> (s: String)
        requires
            self.wf(),
        ensures
            s@ == utf8_lossy(ids_bytes(ids@, self@.tokens)),
            valid_utf8(ids_bytes(ids@, self@.tokens)) ==> s@ == decode_utf8(ids_bytes(ids@, self@.tokens)),
    {
        let mut bytes: Vec<u8> = Vec::new();
        let mut i: usize = 0;
        while i < ids.len()
            invariant
                self.wf(),
                i <= ids@.len(),
                bytes@ == ids_bytes(ids@.take(i as int), self@.tokens),
            decreases ids@.len() - i,
        {
            let id = ids[i];
            let ghost before = bytes@;
            if (id as usize) < self.id_to_token.len() {
                let tok = to_chars(self.id_to_token[id as usize].as_str());
                let mut j: usize = 0;
                while j < tok.len()
                    invariant
                        self.wf(),
                        j <= tok@.len(),
                        bytes@ == before + token_bytes(tok@.take(j as int)),
                    decreases tok@.len() - j,
                {
                    match self.char_to_byte(tok[j]) {
                        Some(b) => bytes.push(b),
                        None => {},
                    }
                    assert(tok@.take(j + 1 as int).drop_last() =~= tok@.take(j as int));
                    j += 1;
                    assert(bytes@ =~= before + token_bytes(tok@.take(j as int)));
                }
                assert(tok@.take(j as int) =~= tok@);
            }
            assert(ids@.take(i + 1 as int).drop_last() =~= ids@.take(i as int));
            i += 1;
            assert(bytes@ =~= ids_bytes(ids@.take(i as int), self@.tokens));
        }
        assert(ids@.take(i as int) =~= ids@);
        from_utf8_lossy(bytes.as_slice())
    }

    /// Build from a loaded GGUF's `tokenizer.ggml.*` metadata, checking that each named
    /// control token sits at its id.
    pub fn from_gguf(g: &GgufFile) -> (r: Result<Tokenizer, TokenizerError>)
        ensures
            match (r, vocab_from(*g)) {
                (Ok(t), Ok(v)) => t.wf() && t@ == v,
                (Err(e), Err(f)) => e@ == f,
                _ => false,
            },
    {
        Self::load(g, true)
    }

    /// Build from a loaded GGUF's `tokenizer.ggml.*` metadata without checking the named
    /// control tokens (for vocabularies that place them elsewhere).
    pub fn from_gguf_relaxed(g: &GgufFile) -> (r: Result<Tokenizer, TokenizerError>)
        ensures
            match (r, vocab_from_with(*g, false)) {
                (Ok(t), Ok(v)) => t.wf() && t@ == v,
                (Err(e), Err(f)) => e@ == f,
                _ => false,
            },
    {
        Self::load(g, false)
    }

    fn load(g: &GgufFile, check_specials: bool) -> (r: Result<Tokenizer, TokenizerError>)
        ensures
            match (r, vocab_from_with(*g, check_specials)) {
                (Ok(t), Ok(v)) => t.wf() && t@ == v,
                (Err(e), Err(f)) => e@ == f,
                _ => false,
            },
    {
        let model = match g.get_str("tokenizer.ggml.model") {
            Some(m) => m,
            None => {
                proof {
                    reveal_strlit("");
                }
                ""
            },
        };
        assert(str_or_empty(*g, "tokenizer.ggml.model"@) == model@);
        if !crate::text::str_eq(model, "gpt2") {
            let e = TokenizerError::UnsupportedModel { model: model.to_owned() };
            assert(e@ == TokenizerFailure::UnsupportedModel(model@));
            assert(vocab_from_with(*g, check_specials) == Err::<Vocab, TokenizerFailure>(TokenizerFailure::UnsupportedModel(model@)));
            return Err(e);
        }
        let id_to_token = match g.get_str_array("tokenizer.ggml.tokens") {
            Some(t) => t,
            None => return Err(TokenizerError::MissingTokens),
        };
        let merges = match g.get_str_array("tokenizer.ggml.merges") {
            Some(m) => m,
            None => return Err(TokenizerError::MissingMerges),
        };
        let ghost tokens = strings_view(id_to_token@);
        let ghost ms = strings_view(merges@);
        assert(str_array_of(*g, "tokenizer.ggml.tokens"@) == Some(tokens));
        assert(str_array_of(*g, "tokenizer.ggml.merges"@) == Some(ms));

        let mut token_to_id = StrIndex::new();
        let mut i: usize = 0;
        while i < id_to_token.len()
            invariant
                tokens == strings_view(id_to_token@),
                i <= id_to_token@.len(),
                token_to_id.wf(),
                token_to_id@ == vocab_map(token_entries(tokens).take(i as int)),
            decreases id_to_token@.len() - i,
        {
            token_to_id.insert(id_to_token[i].clone(), #[verifier::truncate] (i as u32));
            assert(token_entries(tokens).take(i + 1 as int).drop_last() =~= token_entries(tokens).take(i as int));
            i += 1;
        }
        assert(token_entries(tokens).take(i as int) =~= token_entries(tokens));

        let mut merge_rank = PairIndex::new();
        let mut rank: usize = 0;
        while rank < merges.len()
            invariant
                ms == strings_view(merges@),
                rank <= merges@.len(),
                merge_rank.wf(),
                merge_rank@ == merge_ranks(ms.take(rank as int)),
            decreases merges@.len() - rank,
        {
            match split_merge_exec(&merges[rank]) {
                Some((a, b)) => merge_rank.insert(a, b, #[verifier::truncate] (rank as u32)),
                None => {},
            }
            assert(ms.take(rank + 1 as int).drop_last() =~= ms.take(rank as int));
            rank += 1;
        }
        assert(ms.take(rank as int) =~= ms);

        // Validate the named control tokens against the file before trusting their ids.
        if check_specials {
            let table = special_tokens();
            let ghost tv = table@.map_values(|e: (&'static str, u32)| (e.0@, e.1));
            let mut k: usize = 0;
            assert(tv.skip(0) =~= tv);
            while k < table.len()
                invariant
                    tv == table@.map_values(|e: (&'static str, u32)| (e.0@, e.1)),
                    tv == special_table(),
                    tokens == strings_view(id_to_token@),
                    k <= table@.len(),
                    special_mismatch(tokens, special_table()) == special_mismatch(tokens, tv.skip(k as int)),
                    str_array_of(*g, "tokenizer.ggml.tokens"@) == Some(tokens),
                    str_array_of(*g, "tokenizer.ggml.merges"@) == Some(ms),
                    str_or_empty(*g, "tokenizer.ggml.model"@) == "gpt2"@,
                    check_specials,
                decreases table@.len() - k,
            {
                let (lit, id) = table[k];
                assert(tv.skip(k as int)[0] == (lit@, id));
                assert(tv.skip(k as int).drop_first() =~= tv.skip(k + 1 as int));
                let ok = (id as usize) < id_to_token.len() && crate::text::str_eq(id_to_token[id as usize].as_str(), lit);
                if !ok {
                    let got = if (id as usize) < id_to_token.len() {
                        Some(id_to_token[id as usize].clone())
                    } else {
                        None
                    };
                    let e = TokenizerError::SpecialMismatch { id, expected: lit.to_owned(), got };
                    proof {
                        let f = e@;
                        assert(special_mismatch(tokens, tv.skip(k as int)) == Some(f));
                        assert(str_array_of(*g, "tokenizer.ggml.tokens"@) == Some(tokens));
                        assert(str_array_of(*g, "tokenizer.ggml.merges"@) == Some(ms));
                        assert(special_mismatch(tokens, special_table()) == Some(f));
                        assert((if check_specials {
                            special_mismatch(tokens, special_table())
                        } else {
                            None
                        }) == Some(f));
                        assert(vocab_from_with(*g, check_specials) == Err::<Vocab, TokenizerFailure>(f));
                    }
                    return Err(e);
                }
                k += 1;
            }
        }

        // Every control/user-defined token is atomic on encode, longest literal first.
        let mut typed: Vec<(String, u32)> = Vec::new();
        match g.get_u32_array("tokenizer.ggml.token_type") {
            Some(types) => {
                let mut id: usize = 0;
                while id < types.len()
                    invariant
                        tokens == strings_view(id_to_token@),
                        id <= types@.len(),
                        specials_view(typed@) == typed_specials(types@.take(id as int), tokens),
                    decreases types@.len() - id,
                {
                    let ty = types[id];
                    let ghost before = specials_view(typed@);
                    if (ty == TOKEN_TYPE_CONTROL || ty == TOKEN_TYPE_USER_DEFINED) && id < id_to_token.len() {
                        typed.push((id_to_token[id].clone(), #[verifier::truncate] (id as u32)));
                    }
                    assert(types@.take(id + 1 as int).drop_last() =~= types@.take(id as int));
                    id += 1;
                    assert(specials_view(typed@) =~= typed_specials(types@.take(id as int), tokens));
                }
                assert(types@.take(id as int) =~= types@);
            },
            None => {
                assert(specials_view(typed@) =~= Seq::<(Seq<char>, u32)>::empty());
            },
        }
        let specials = sort_specials_exec(&typed);

        let bos = match g.get_u32("tokenizer.ggml.bos_token_id") {
            Some(b) => b,
            None => TOKEN_BOS,
        };
        let eos = match g.get_u32("tokenizer.ggml.eos_token_id") {
            Some(e) => e,
            None => TOKEN_EOS,
        };
        Ok(
            Tokenizer {
                id_to_token,
                token_to_id,
                merge_rank,
                specials,
                byte_encoder: byte_to_unicode(),
                bos,
                eos,
            },
        )
    }

    /// Greedy BPE merge of a byte-char word into subword symbols.
    fn bpe(&self, word: &Vec<char>) -> (r: Vec<String>)
        requires
            self.wf(),
        ensures
            strings_view(r@) == bpe_word(word@, self@.ranks),
    {
        let ghost ranks = self@.ranks;
        let mut symbols: Vec<String> = Vec::new();
        let mut k: usize = 0;
        while k < word.len()
            invariant
                k <= word@.len(),
                strings_view(symbols@) == singletons(word@).take(k as int),
            decreases word@.len() - k,
        {
            let ghost prev = strings_view(symbols@);
            let mut one = String::new();
            one.push(word[k]);
            assert(one@ =~= seq![word@[k as int]]);
            symbols.push(one);
            assert(strings_view(symbols@) =~= prev.push(seq![word@[k as int]]));
            assert(singletons(word@).take(k + 1 as int) =~= singletons(word@).take(k as int).push(
                seq![word@[k as int]],
            ));
            k += 1;
        }
        assert(singletons(word@).take(k as int) =~= singletons(word@));
        loop
            invariant
                self.wf(),
                ranks == self@.ranks,
                bpe_merge(strings_view(symbols@), ranks) == bpe_word(word@, ranks),
            decreases symbols@.len(),
        {
            let ghost syms = strings_view(symbols@);
            let n = symbols.len();
            let mut best: Option<(usize, u32)> = None;
            let mut i: usize = 0;
            let last: usize = if n == 0 {
                0
            } else {
                n - 1
            };
            while i < last
                invariant
                    self.wf(),
                    ranks == self@.ranks,
                    n == symbols@.len(),
                    last == (if n == 0 {
                        0
                    } else {
                        n - 1
                    }),
                    syms == strings_view(symbols@),
                    i <= last,
                    best matches Some((j, _)) ==> j + 1 < n,
                    best_pair_from(syms, ranks, 0, None) == best_pair_from(syms, ranks, i as int, found_pair(best)),
                decreases n - i,
            {
                match self.merge_rank.get(symbols[i].as_str(), symbols[i + 1].as_str()) {
                    Some(r) => {
                        let better = match best {
                            None => true,
                            Some((_, br)) => r < br,
                        };
                        if better {
                            best = Some((i, r));
                        }
                    },
                    None => {},
                }
                i += 1;
            }
            match best {
                None => {
                    return symbols;
                },
                Some((j, _)) => {
                    let right = symbols.remove(j + 1);
                    let mut merged = symbols[j].clone();
                    merged.append(right.as_str());
                    symbols.set(j, merged);
                    assert(strings_view(symbols@) =~= merge_at(syms, j as int));
                },
            }
        }
    }
}

/// A merge rule split at its first space.
fn split_merge_exec(m: &String) -> (r: Option<(String, String)>)
    ensures
        match r {
            Some((a, b)) => split_merge(m@) == Some((a@, b@)),
            None => split_merge(m@) is None,
        },
{
    let c = to_chars(m.as_str());
    let mut i: usize = 0;
    while i < c.len() && c[i] != ' '
        invariant
            c@ == m@,
            i <= c@.len(),
            first_space(m@, 0) == first_space(m@, i as int),
        decreases c@.len() - i,
    {
        i += 1;
    }
    if i == c.len() {
        return None;
    }
    Some((string_of(c.as_slice(), 0, i), string_of(c.as_slice(), i + 1, c.len())))
}

/// The specials stably sorted by decreasing UTF-8 length of their text.
fn sort_specials_exec(items: &Vec<(String, u32)>) -> (r: Vec<(String, u32)>)
    ensures
        specials_view(r@) == sort_specials(specials_view(items@)),
{
    let ghost iv = specials_view(items@);
    let mut sorted: Vec<(String, u32)> = Vec::new();
    let mut k: usize = 0;
    assert(iv.take(0) =~= Seq::<(Seq<char>, u32)>::empty());
    while k < items.len()
        invariant
            iv == specials_view(items@),
            k <= items@.len(),
            specials_view(sorted@) == sort_specials(iv.take(k as int)),
        decreases items@.len() - k,
    {
        let text = items[k].0.clone();
        let id = items[k].1;
        let key = text.as_str().as_bytes().len();
        let ghost sv = specials_view(sorted@);
        let mut p: usize = 0;
        let mut stop = false;
        while p < sorted.len() && !stop
            invariant
                sv == specials_view(sorted@),
                p <= sorted@.len(),
                key == encode_utf8(text@).len(),
                stop ==> p < sorted@.len() && special_len(sv[p as int]) < key,
                first_shorter(sv, key as int, 0) == first_shorter(sv, key as int, p as int),
            decreases sorted@.len() - p + (if stop { 0int } else { 1int }),
        {
            if sorted[p].0.as_str().as_bytes().len() < key {
                stop = true;
            } else {
                p += 1;
            }
        }
        let ghost x = (text@, id);
        assert(first_shorter(sv, key as int, 0) == p);
        sorted.insert(p, (text, id));
        assert(iv.take(k + 1 as int).drop_last() =~= iv.take(k as int));
        assert(iv.take(k + 1 as int).last() == x);
        assert(specials_view(sorted@) =~= sv.insert(p as int, x));
        k += 1;
    }
    assert(iv.take(k as int) =~= iv);
    sorted
}

// ---------------------------------------------------------------------------------------------
// Laws
// ---------------------------------------------------------------------------------------------

/// The symbols written one after another.
pub open spec fn concat_symbols(syms: Seq<Seq<char>>) -> Seq<char>
    decreases syms.len(),
{
    if syms.len() == 0 {
        Seq::empty()
    } else {
        concat_symbols(syms.drop_last()) + syms.last()
    }
}

pub(crate) proof fn lemma_concat_symbols_append(a: Seq<Seq<char>>, b: Seq<Seq<char>>)
    ensures
        concat_symbols(a + b) == concat_symbols(a) + concat_symbols(b),
    decreases b.len(),
{
    if b.len() == 0 {
        assert(a + b =~= a);
        assert(concat_symbols(a) + Seq::<char>::empty() =~= concat_symbols(a));
    } else {
        assert((a + b).drop_last() =~= a + b.drop_last());
        lemma_concat_symbols_append(a, b.drop_last());
        assert(concat_symbols(a) + concat_symbols(b.drop_last()) + b.last() =~= concat_symbols(a)
            + (concat_symbols(b.drop_last()) + b.last()));
    }
}

pub(crate) proof fn lemma_merge_keeps_text(syms: Seq<Seq<char>>, i: int)
    requires
        0 <= i && i + 1 < syms.len(),
    ensures
        concat_symbols(merge_at(syms, i)) == concat_symbols(syms),
{
    let pre = syms.subrange(0, i);
    let post = syms.subrange(i + 2, syms.len() as int);
    let pair = seq![syms[i], syms[i + 1]];
    assert(syms =~= pre + pair + post);
    lemma_concat_symbols_append(pre + pair, post);
    lemma_concat_symbols_append(pre, pair);
    lemma_concat_symbols_append(pre + seq![syms[i] + syms[i + 1]], post);
    lemma_concat_symbols_append(pre, seq![syms[i] + syms[i + 1]]);
    assert(pair.drop_last() =~= seq![syms[i]]);
    assert(seq![syms[i]].drop_last() =~= Seq::<Seq<char>>::empty());
    assert(seq![syms[i] + syms[i + 1]].drop_last() =~= Seq::<Seq<char>>::empty());
    reveal_with_fuel(concat_symbols, 3);
    assert(Seq::<char>::empty() + syms[i] =~= syms[i]);
    assert(Seq::<char>::empty() + (syms[i] + syms[i + 1]) =~= syms[i] + syms[i + 1]);
    assert(concat_symbols(pair) =~= syms[i] + syms[i + 1]);
    assert(concat_symbols(seq![syms[i] + syms[i + 1]]) =~= syms[i] + syms[i + 1]);
}

proof fn lemma_bpe_merge_keeps_text(syms: Seq<Seq<char>>, ranks: Ranks)
    ensures
        concat_symbols(bpe_merge(syms, ranks)) == concat_symbols(syms),
    decreases syms.len(),
{
    match best_pair_from(syms, ranks, 0, None) {
        None => {},
        Some((i, _)) => {
            if 0 <= i && i + 1 < syms.len() {
                lemma_merge_keeps_text(syms, i);
                lemma_bpe_merge_keeps_text(merge_at(syms, i), ranks);
            }
        },
    }
}

pub(crate) proof fn lemma_singletons_spell(w: Seq<char>)
    ensures
        concat_symbols(singletons(w)) == w,
    decreases w.len(),
{
    if w.len() > 0 {
        assert(singletons(w).drop_last() =~= singletons(w.drop_last()));
        lemma_singletons_spell(w.drop_last());
        assert(w.drop_last() + seq![w.last()] =~= w);
    } else {
        assert(singletons(w) =~= Seq::<Seq<char>>::empty());
    }
}

/// BPE only decides where a word is cut: its symbols, written one after another, are the
/// word, whatever the merge ranks.
pub proof fn lemma_bpe_keeps_text(w: Seq<char>, ranks: Ranks)
    ensures
        concat_symbols(bpe_word(w, ranks)) == w,
{
    lemma_bpe_merge_keeps_text(singletons(w), ranks);
    lemma_singletons_spell(w);
}

/// Whether the specials are ordered by non-increasing text length.
pub open spec fn longest_first(s: Seq<(Seq<char>, u32)>) -> bool {
    forall|i: int, j: int| 0 <= i < j < s.len() ==> special_len(s[i]) >= special_len(s[j])
}

proof fn lemma_first_shorter(s: Seq<(Seq<char>, u32)>, k: int, i: int)
    requires
        0 <= i <= s.len(),
        forall|j: int| 0 <= j < i ==> special_len(s[j]) >= k,
    ensures
        i <= first_shorter(s, k, i) <= s.len(),
        forall|j: int| 0 <= j < first_shorter(s, k, i) ==> special_len(s[j]) >= k,
        first_shorter(s, k, i) < s.len() ==> special_len(s[first_shorter(s, k, i)]) < k,
    decreases s.len() - i,
{
    if i < s.len() && special_len(s[i]) >= k {
        lemma_first_shorter(s, k, i + 1);
    }
}

/// The specials are searched longest literal first: sorting orders them by non-increasing
/// text length and keeps every one of them.
pub proof fn lemma_sort_specials(s: Seq<(Seq<char>, u32)>)
    ensures
        longest_first(sort_specials(s)),
        sort_specials(s).to_multiset() == s.to_multiset(),
    decreases s.len(),
{
    broadcast use vstd::seq_lib::group_to_multiset_ensures;
    if s.len() > 0 {
        let sorted = sort_specials(s.drop_last());
        lemma_sort_specials(s.drop_last());
        let x = s.last();
        let k = special_len(x);
        lemma_first_shorter(sorted, k, 0);
        let p = first_shorter(sorted, k, 0);
        let r = sorted.insert(p, x);
        assert forall|i: int, j: int| 0 <= i < j < r.len() implies special_len(r[i]) >= special_len(r[j]) by {
            if j < p {
            } else if j == p {
            } else if i < p {
                assert(r[j] == sorted[j - 1]);
                if p < sorted.len() {
                    assert(special_len(sorted[j - 1]) <= special_len(sorted[p]));
                }
            } else if i == p {
                assert(r[j] == sorted[j - 1]);
            } else {
                assert(r[i] == sorted[i - 1] && r[j] == sorted[j - 1]);
            }
        }
        assert(s =~= s.drop_last().push(x));
        vstd::seq_lib::to_multiset_insert(sorted, p, x);
    }
}

/// A vocabulary in which every token text's id leads back to that text and every byte
/// character is a token of its own.
pub open spec fn byte_complete(v: Vocab) -> bool {
    &&& forall|t: Seq<char>|
        #[trigger] v.ids.contains_key(t) ==> v.ids[t] < v.tokens.len() && v.tokens[v.ids[t] as int]
            == t
    &&& forall|b: u8| #[trigger] v.ids.contains_key(seq![byte_char(b)])
}

/// Every special token's id holds text whose byte characters spell the special's UTF-8
/// bytes (true of specials written in printable ASCII).
pub open spec fn specials_spell_themselves(v: Vocab) -> bool {
    forall|k: int|
        0 <= k < v.specials.len() ==> {
            let (s, id) = #[trigger] v.specials[k];
            id < v.tokens.len() && token_bytes(v.tokens[id as int]) == encode_utf8(s)
        }
}

proof fn lemma_encode_utf8_append(a: Seq<char>, b: Seq<char>)
    ensures
        encode_utf8(a + b) == encode_utf8(a) + encode_utf8(b),
    decreases a.len(),
{
    if a.len() == 0 {
        assert(a + b =~= b);
        assert(Seq::<u8>::empty() + encode_utf8(b) =~= encode_utf8(b));
    } else {
        assert((a + b).drop_first() =~= a.drop_first() + b);
        assert((a + b)[0] == a[0]);
        lemma_encode_utf8_append(a.drop_first(), b);
        let e = crate::bpe::encode_scalar_of(a[0]);
        assert(e + encode_utf8(a.drop_first()) + encode_utf8(b) =~= e + (encode_utf8(a.drop_first())
            + encode_utf8(b)));
    }
}

proof fn lemma_ids_bytes_append(a: Seq<u32>, b: Seq<u32>, tokens: Seq<Seq<char>>)
    ensures
        ids_bytes(a + b, tokens) == ids_bytes(a, tokens) + ids_bytes(b, tokens),
    decreases b.len(),
{
    if b.len() == 0 {
        assert(a + b =~= a);
        assert(ids_bytes(a, tokens) + Seq::<u8>::empty() =~= ids_bytes(a, tokens));
    } else {
        assert((a + b).drop_last() =~= a + b.drop_last());
        lemma_ids_bytes_append(a, b.drop_last(), tokens);
        let last = if b.last() < tokens.len() {
            token_bytes(tokens[b.last() as int])
        } else {
            Seq::empty()
        };
        assert(ids_bytes(a, tokens) + ids_bytes(b.drop_last(), tokens) + last =~= ids_bytes(a, tokens)
            + (ids_bytes(b.drop_last(), tokens) + last));
    }
}

proof fn lemma_token_bytes_append(a: Seq<char>, b: Seq<char>)
    ensures
        token_bytes(a + b) == token_bytes(a) + token_bytes(b),
    decreases b.len(),
{
    if b.len() == 0 {
        assert(a + b =~= a);
        assert(token_bytes(a) + Seq::<u8>::empty() =~= token_bytes(a));
    } else {
        assert((a + b).drop_last() =~= a + b.drop_last());
        lemma_token_bytes_append(a, b.drop_last());
        let last = match char_byte(b.last()) {
            Some(x) => seq![x],
            None => Seq::empty(),
        };
        assert(token_bytes(a) + token_bytes(b.drop_last()) + last =~= token_bytes(a) + (token_bytes(
            b.drop_last(),
        ) + last));
    }
}

proof fn lemma_char_byte_of(b: u8)
    ensures
        char_byte(byte_char(b)) == Some(b),
{
    let w = choose|x: u8| byte_char(x) == byte_char(b);
    lemma_byte_char_injective(w, b);
}

/// The byte characters of some bytes stand for those bytes.
proof fn lemma_token_bytes_of_byte_chars(bs: Seq<u8>)
    ensures
        token_bytes(bs.map_values(|b: u8| byte_char(b))) == bs,
    decreases bs.len(),
{
    if bs.len() > 0 {
        let m = bs.map_values(|b: u8| byte_char(b));
        assert(m.drop_last() =~= bs.drop_last().map_values(|b: u8| byte_char(b)));
        lemma_token_bytes_of_byte_chars(bs.drop_last());
        lemma_char_byte_of(bs.last());
        assert(bs.drop_last() + seq![bs.last()] =~= bs);
    } else {
        assert(bs.map_values(|b: u8| byte_char(b)) =~= Seq::<char>::empty());
    }
}

proof fn lemma_one_id_bytes(id: u32, tokens: Seq<Seq<char>>)
    ensures
        ids_bytes(seq![id], tokens) == if id < tokens.len() {
            token_bytes(tokens[id as int])
        } else {
            Seq::empty()
        },
{
    assert(seq![id].drop_last() =~= Seq::<u32>::empty());
    reveal_with_fuel(ids_bytes, 2);
    if id < tokens.len() {
        assert(Seq::<u8>::empty() + token_bytes(tokens[id as int]) =~= token_bytes(tokens[id as int]));
    }
    assert(Seq::<u8>::empty() + Seq::<u8>::empty() =~= Seq::<u8>::empty());
}

proof fn lemma_char_ids_bytes(sym: Seq<char>, v: Vocab)
    requires
        byte_complete(v),
    ensures
        ids_bytes(char_ids(sym, v.ids), v.tokens) == token_bytes(sym),
    decreases sym.len(),
{
    if sym.len() > 0 {
        lemma_char_ids_bytes(sym.drop_last(), v);
        let c = sym.last();
        let one = seq![c];
        let part = if v.ids.contains_key(one) {
            seq![v.ids[one]]
        } else {
            Seq::empty()
        };
        lemma_ids_bytes_append(char_ids(sym.drop_last(), v.ids), part, v.tokens);
        assert(one.drop_last() =~= Seq::<char>::empty());
        if v.ids.contains_key(one) {
            lemma_one_id_bytes(v.ids[one], v.tokens);
            reveal_with_fuel(token_bytes, 2);
            assert(Seq::<u8>::empty() + match char_byte(c) {
                Some(x) => seq![x],
                None => Seq::<u8>::empty(),
            } =~= match char_byte(c) {
                Some(x) => seq![x],
                None => Seq::<u8>::empty(),
            });
            assert(token_bytes(one) =~= match char_byte(c) {
                Some(x) => seq![x],
                None => Seq::<u8>::empty(),
            });
        } else {
            assert(ids_bytes(Seq::<u32>::empty(), v.tokens) == Seq::<u8>::empty());
            assert(char_byte(c) is None) by {
                if exists|b: u8| byte_char(b) == c {
                    let b = choose|b: u8| byte_char(b) == c;
                    assert(v.ids.contains_key(seq![byte_char(b)]));
                    assert(seq![byte_char(b)] =~= one);
                }
            }
        }
        assert(sym.drop_last() + one =~= sym);
        lemma_token_bytes_append(sym.drop_last(), one);
        assert(ids_bytes(part, v.tokens) == token_bytes(one));
    } else {
        assert(ids_bytes(Seq::<u32>::empty(), v.tokens) == Seq::<u8>::empty());
    }
}

proof fn lemma_symbols_ids_bytes(syms: Seq<Seq<char>>, v: Vocab)
    requires
        byte_complete(v),
    ensures
        ids_bytes(symbols_ids(syms, v.ids), v.tokens) == token_bytes(concat_symbols(syms)),
    decreases syms.len(),
{
    if syms.len() > 0 {
        lemma_symbols_ids_bytes(syms.drop_last(), v);
        let sym = syms.last();
        lemma_ids_bytes_append(symbols_ids(syms.drop_last(), v.ids), symbol_ids(sym, v.ids), v.tokens);
        lemma_token_bytes_append(concat_symbols(syms.drop_last()), sym);
        if v.ids.contains_key(sym) {
            lemma_one_id_bytes(v.ids[sym], v.tokens);
        } else {
            lemma_char_ids_bytes(sym, v);
        }
    } else {
        assert(ids_bytes(Seq::<u32>::empty(), v.tokens) == Seq::<u8>::empty());
        assert(token_bytes(Seq::<char>::empty()) == Seq::<u8>::empty());
    }
}

proof fn lemma_concat_pieces_push(ps: Seq<Seq<char>>)
    ensures
        crate::tokenizer::concat_pieces(ps) == concat_symbols(ps),
    decreases ps.len(),
{
    if ps.len() > 0 {
        lemma_concat_pieces_push(ps.drop_first());
        if ps.len() == 1 {
            assert(ps.drop_first() =~= Seq::<Seq<char>>::empty());
            assert(ps.drop_last() =~= Seq::<Seq<char>>::empty());
            assert(ps[0] + Seq::<char>::empty() =~= ps[0]);
            assert(Seq::<char>::empty() + ps[0] =~= ps[0]);
        } else {
            let t = ps.drop_first();
            lemma_concat_pieces_push(ps.drop_last());
            lemma_concat_pieces_push(t.drop_last());
            assert(ps.drop_last().drop_first() =~= t.drop_last());
            assert(ps.drop_last()[0] == ps[0]);
            assert(t.last() == ps.last());
            assert(ps[0] + (concat_symbols(t.drop_last()) + t.last()) =~= (ps[0] + concat_symbols(
                t.drop_last(),
            )) + ps.last());
        }
    }
}

proof fn lemma_pieces_ids_bytes(ps: Seq<Seq<char>>, v: Vocab)
    requires
        byte_complete(v),
    ensures
        ids_bytes(pieces_ids(ps, v.ids, v.ranks), v.tokens) == encode_utf8(concat_symbols(ps)),
    decreases ps.len(),
{
    if ps.len() > 0 {
        lemma_pieces_ids_bytes(ps.drop_last(), v);
        let p = ps.last();
        let syms = bpe_word(byte_chars(p), v.ranks);
        lemma_ids_bytes_append(pieces_ids(ps.drop_last(), v.ids, v.ranks), symbols_ids(syms, v.ids), v.tokens);
        lemma_symbols_ids_bytes(syms, v);
        lemma_bpe_keeps_text(byte_chars(p), v.ranks);
        lemma_token_bytes_of_byte_chars(encode_utf8(p));
        lemma_encode_utf8_append(concat_symbols(ps.drop_last()), p);
    } else {
        assert(ids_bytes(Seq::<u32>::empty(), v.tokens) == Seq::<u8>::empty());
    }
}

proof fn lemma_chunk_ids_bytes(text: Seq<char>, v: Vocab)
    requires
        byte_complete(v),
    ensures
        ids_bytes(chunk_ids(text, v.ids, v.ranks), v.tokens) == encode_utf8(text),
{
    crate::tokenizer::lemma_pretokens_spell_the_text(text);
    lemma_concat_pieces_push(pretokens(text));
    lemma_pieces_ids_bytes(pretokens(text), v);
}

proof fn lemma_find_from_matches(t: Seq<char>, m: Seq<char>, i: int)
    requires
        find_from(t, m, i) is Some,
    ensures
        ({
            let p = find_from(t, m, i).unwrap();
            0 <= p && p + m.len() <= t.len() && t.subrange(p, p + m.len()) == m
        }),
    decreases t.len() + 1 - i,
{
    if !(i < 0 || i + m.len() > t.len()) && t.subrange(i, i + m.len()) != m {
        lemma_find_from_matches(t, m, i + 1);
    }
}

proof fn lemma_hit_is_special(rest: Seq<char>, sp: Seq<(Seq<char>, u32)>, k: int, best: Option<(int, int, u32)>)
    requires
        0 <= k,
        best matches Some((p, l, id)) ==> exists|j: int|
            0 <= j < sp.len() && #[trigger] sp[j].1 == id && sp[j].0.len() == l && 0 <= p && p + l <= rest.len()
                && rest.subrange(p, p + l) == sp[j].0,
    ensures
        hit_from(rest, sp, k, best) matches Some((p, l, id)) ==> exists|j: int|
            0 <= j < sp.len() && #[trigger] sp[j].1 == id && sp[j].0.len() == l && 0 <= p && p + l <= rest.len()
                && rest.subrange(p, p + l) == sp[j].0,
    decreases sp.len() - k,
{
    if k < sp.len() {
        let (s, id) = sp[k];
        match find_from(rest, s, 0) {
            None => {
                lemma_hit_is_special(rest, sp, k + 1, best);
            },
            Some(pos) => {
                lemma_find_from_matches(rest, s, 0);
                let cand = (pos, s.len() as int, id);
                let nb = match best {
                    None => Some(cand),
                    Some(b) => {
                        if cand.0 < b.0 || (cand.0 == b.0 && cand.1 > b.1) {
                            Some(cand)
                        } else {
                            best
                        }
                    },
                };
                assert(nb matches Some((p, l, i)) ==> exists|j: int|
                    0 <= j < sp.len() && #[trigger] sp[j].1 == i && sp[j].0.len() == l && 0 <= p && p + l
                        <= rest.len() && rest.subrange(p, p + l) == sp[j].0) by {
                    if nb == Some(cand) {
                        assert(sp[k].1 == id);
                    }
                }
                lemma_hit_is_special(rest, sp, k + 1, nb);
            },
        }
    }
}

proof fn lemma_encode_rest_bytes(rest: Seq<char>, v: Vocab)
    requires
        byte_complete(v),
        specials_spell_themselves(v),
        specials_nonempty(v.specials),
    ensures
        ids_bytes(encode_rest(rest, v), v.tokens) == encode_utf8(rest),
    decreases rest.len(),
{
    if rest.len() == 0 {
        assert(ids_bytes(Seq::<u32>::empty(), v.tokens) == Seq::<u8>::empty());
    } else {
        match hit_from(rest, v.specials, 0, None) {
            None => {
                lemma_chunk_ids_bytes(rest, v);
            },
            Some((pos, len, id)) => {
                lemma_hit_is_special(rest, v.specials, 0, None);
                if 0 <= pos && 0 < len && pos + len <= rest.len() {
                    let j = choose|j: int|
                        0 <= j < v.specials.len() && #[trigger] v.specials[j].1 == id
                            && v.specials[j].0.len() == len && 0 <= pos && pos + len <= rest.len()
                            && rest.subrange(pos, pos + len) == v.specials[j].0;
                    let s = v.specials[j].0;
                    assert(id < v.tokens.len() && token_bytes(v.tokens[id as int]) == encode_utf8(s));
                    let pre = rest.subrange(0, pos);
                    let post = rest.subrange(pos + len, rest.len() as int);
                    lemma_chunk_ids_bytes(pre, v);
                    lemma_encode_rest_bytes(post, v);
                    lemma_one_id_bytes(id, v.tokens);
                    let a = chunk_ids(pre, v.ids, v.ranks);
                    let b = encode_rest(post, v);
                    lemma_ids_bytes_append(a + seq![id], b, v.tokens);
                    lemma_ids_bytes_append(a, seq![id], v.tokens);
                    assert(rest =~= pre + s + post);
                    lemma_encode_utf8_append(pre + s, post);
                    lemma_encode_utf8_append(pre, s);
                } else {
                    let j = choose|j: int|
                        0 <= j < v.specials.len() && #[trigger] v.specials[j].1 == id
                            && v.specials[j].0.len() == len && 0 <= pos && pos + len <= rest.len()
                            && rest.subrange(pos, pos + len) == v.specials[j].0;
                    assert(v.specials[j].0.len() > 0);
                }
            },
        }
    }
}

/// Decoding undoes encoding: when every token text's id leads back to it, every byte
/// character is a token, and each special token's text spells its own bytes, the ids of a
/// text decode to exactly the text's UTF-8 bytes, which are valid and read back as the text.
pub proof fn lemma_decode_inverts_encode(text: Seq<char>, v: Vocab)
    requires
        byte_complete(v),
        specials_spell_themselves(v),
        specials_nonempty(v.specials),
    ensures
        ids_bytes(encode_spec(text, false, v), v.tokens) == encode_utf8(text),
        valid_utf8(ids_bytes(encode_spec(text, false, v), v.tokens)),
        decode_utf8(ids_bytes(encode_spec(text, false, v), v.tokens)) == text,
{
    lemma_encode_rest_bytes(text, v);
    assert(encode_spec(text, false, v) =~= encode_rest(text, v));
    vstd::utf8::encode_utf8_valid_utf8(text);
    vstd::utf8::encode_utf8_decode_utf8(text);
}

/// No special token's literal occurs anywhere in `text`.
pub open spec fn no_special_literal(text: Seq<char>, specials: Seq<(Seq<char>, u32)>) -> bool {
    forall|k: int, p: int|
        #![trigger specials[k], text.subrange(p, p + specials[k].0.len())]
        0 <= k < specials.len() && 0 <= p && p + specials[k].0.len() <= text.len() ==> text.subrange(
            p,
            p + specials[k].0.len(),
        ) != specials[k].0
}

/// Decoding undoes encoding on text that holds no special token's literal: when every token
/// text's id leads back to it and every byte character is a token, the ids of such a text
/// decode to exactly its UTF-8 bytes, which read back as the text.
pub proof fn lemma_decode_inverts_encode_plain(text: Seq<char>, v: Vocab)
    requires
        byte_complete(v),
        no_special_literal(text, v.specials),
    ensures
        ids_bytes(encode_spec(text, false, v), v.tokens) == encode_utf8(text),
        valid_utf8(ids_bytes(encode_spec(text, false, v), v.tokens)),
        decode_utf8(ids_bytes(encode_spec(text, false, v), v.tokens)) == text,
{
    assert(encode_spec(text, false, v) =~= encode_rest(text, v));
    if text.len() == 0 {
        assert(ids_bytes(Seq::<u32>::empty(), v.tokens) == Seq::<u8>::empty());
        assert(encode_utf8(text) =~= Seq::<u8>::empty());
    } else {
        lemma_hit_is_special(text, v.specials, 0, None);
        match hit_from(text, v.specials, 0, None) {
            None => {},
            Some((pos, len, id)) => {
                let j = choose|j: int|
                    0 <= j < v.specials.len() && #[trigger] v.specials[j].1 == id
                        && v.specials[j].0.len() == len && 0 <= pos && pos + len <= text.len()
                        && text.subrange(pos, pos + len) == v.specials[j].0;
                assert(text.subrange(pos, pos + v.specials[j].0.len()) != v.specials[j].0);
            },
        }
        lemma_chunk_ids_bytes(text, v);
    }
    vstd::utf8::encode_utf8_valid_utf8(text);
    vstd::utf8::encode_utf8_decode_utf8(text);
}

/// The rank of the adjacent pair at `j` of `syms`, if that pair is ranked.
pub open spec fn pair_rank(syms: Seq<Seq<char>>, ranks: Ranks, j: int) -> Option<u32> {
    if 0 <= j && j + 1 < syms.len() && ranks.contains_key((syms[j], syms[j + 1])) {
        Some(ranks[(syms[j], syms[j + 1])])
    } else {
        None
    }
}

/// The pair at `i` is the one BPE merges next: it is ranked, no pair has a lower rank, and
/// every pair to its left has a higher one (the leftmost of the lowest-ranked pairs).
pub open spec fn leftmost_lowest(syms: Seq<Seq<char>>, ranks: Ranks, i: int) -> bool {
    &&& pair_rank(syms, ranks, i) is Some
    &&& forall|j: int|
        #[trigger] pair_rank(syms, ranks, j) matches Some(r) ==> pair_rank(syms, ranks, i).unwrap()
            <= r && (j < i ==> pair_rank(syms, ranks, i).unwrap() < r)
}

/// What the scan has chosen among the pairs before `k`.
spec fn scan_chose(syms: Seq<Seq<char>>, ranks: Ranks, k: int, best: Option<(int, u32)>) -> bool {
    match best {
        None => forall|j: int| j < k ==> #[trigger] pair_rank(syms, ranks, j) is None,
        Some((b, r)) => {
            &&& 0 <= b < k
            &&& pair_rank(syms, ranks, b) == Some(r)
            &&& forall|j: int|
                j < k ==> (#[trigger] pair_rank(syms, ranks, j) matches Some(rj) ==> r <= rj && (j
                    < b ==> r < rj))
        },
    }
}

proof fn lemma_scan_chooses(syms: Seq<Seq<char>>, ranks: Ranks, k: int, best: Option<(int, u32)>)
    requires
        0 <= k,
        scan_chose(syms, ranks, k, best),
    ensures
        scan_chose(syms, ranks, syms.len() as int, best_pair_from(syms, ranks, k, best)),
    decreases syms.len() - k,
{
    if k + 1 >= syms.len() {
        assert forall|j: int| k <= j < syms.len() implies #[trigger] pair_rank(syms, ranks, j) is None by {}
        match best {
            None => {
                assert forall|j: int| j < syms.len() implies #[trigger] pair_rank(syms, ranks, j) is None by {
                    if j < k {
                    }
                }
            },
            Some((b, r)) => {
                assert forall|j: int| j < syms.len() implies (#[trigger] pair_rank(syms, ranks, j) matches Some(
                    rj,
                ) ==> r <= rj && (j < b ==> r < rj)) by {
                    if j < k {
                    }
                }
            },
        }
    } else {
        let key = (syms[k], syms[k + 1]);
        let nb = if ranks.contains_key(key) && (best is None || ranks[key] < best.unwrap().1) {
            Some((k, ranks[key]))
        } else {
            best
        };
        assert(scan_chose(syms, ranks, k + 1, nb)) by {
            match nb {
                None => {
                    assert forall|j: int| j < k + 1 implies #[trigger] pair_rank(syms, ranks, j) is None by {
                        if j < k {
                        }
                    }
                },
                Some((b, r)) => {
                    assert forall|j: int|
                        j < k + 1 implies (#[trigger] pair_rank(syms, ranks, j) matches Some(rj) ==> r
                        <= rj && (j < b ==> r < rj)) by {
                        if j < k {
                        }
                    }
                },
            }
        }
        lemma_scan_chooses(syms, ranks, k + 1, nb);
    }
}

/// BPE merges the leftmost of the lowest-ranked adjacent pairs first: when no adjacent pair is
/// ranked the symbols stay as they are, and otherwise merging the pair at `i` that is the
/// leftmost lowest-ranked one and going on gives the result. (Of `a a a` with the single merge
/// `a a`, the first two join: `aa a`.)
pub proof fn lemma_bpe_merges_leftmost_lowest(syms: Seq<Seq<char>>, ranks: Ranks, i: int)
    ensures
        (forall|j: int| #[trigger] pair_rank(syms, ranks, j) is None) ==> bpe_merge(syms, ranks)
            == syms,
        leftmost_lowest(syms, ranks, i) ==> bpe_merge(syms, ranks) == bpe_merge(
            merge_at(syms, i),
            ranks,
        ),
{
    assert(scan_chose(syms, ranks, 0, None)) by {
        assert forall|j: int| j < 0 implies #[trigger] pair_rank(syms, ranks, j) is None by {}
    }
    lemma_scan_chooses(syms, ranks, 0, None);
    let found = best_pair_from(syms, ranks, 0, None);
    if (forall|j: int| #[trigger] pair_rank(syms, ranks, j) is None) {
        if let Some((b, r)) = found {
            assert(pair_rank(syms, ranks, b) == Some(r));
        }
    }
    if leftmost_lowest(syms, ranks, i) {
        match found {
            None => {
                assert(pair_rank(syms, ranks, i) is None);
            },
            Some((b, r)) => {
                let ri = pair_rank(syms, ranks, i).unwrap();
                assert(pair_rank(syms, ranks, b) == Some(r));
                assert(i < syms.len());
                assert(r <= ri && (i < b ==> r < ri));
                assert(ri <= r && (b < i ==> ri < r));
                assert(b == i);
            },
        }
    }
}

} // verus!
