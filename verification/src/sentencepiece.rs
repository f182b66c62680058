//! SentencePiece tokenization for EmbeddingGemma, rebuilt from `tokenizer.ggml.*` metadata.
//!
//! Spaces become U+2581, the text is split into characters, and the adjacent pair whose
//! joined piece scores highest (the leftmost one on a tie) is merged, again and again, until no
//! joined pair is a piece of the vocabulary. A final piece outside the vocabulary falls back
//! to the byte tokens of its UTF-8 encoding.

use vstd::prelude::*;
use vstd::utf8::encode_utf8;

use crate::bpe::{concat_symbols, lemma_merge_keeps_text, lemma_singletons_spell, merge_at, singletons, str_array_of, str_or_empty, token_entries, u32_array_of, u32_or, vocab_map};
use crate::byte_token::{byte_token_value, parse_byte_token};
use crate::gguf::{meta_as_f32_bits_array, GgufFile, Meta};
use crate::index::StrIndex;
use crate::text::to_chars;
use crate::tokenizer::strings_view;

verus! {

/// The GGUF token type of a byte-fallback piece `<0xHH>`.
pub const TOKEN_TYPE_BYTE: u32 = 6;

/// The character SentencePiece writes in place of a space.
pub const ESCAPED_SPACE: char = '\u{2581}';

/// `c`, with a space written as [`ESCAPED_SPACE`].
pub open spec fn escape_char(c: char) -> char {
    if c == ' ' {
        ESCAPED_SPACE
    } else {
        c
    }
}

/// `s` with every space written as [`ESCAPED_SPACE`].
pub open spec fn escape_spaces(s: Seq<char>) -> Seq<char> {
    s.map_values(|c: char| escape_char(c))
}

/// `c`, with [`ESCAPED_SPACE`] written as a space.
pub open spec fn unescape_char(c: char) -> char {
    if c == ESCAPED_SPACE {
        ' '
    } else {
        c
    }
}

/// `s` with every [`ESCAPED_SPACE`] written as a space.
pub open spec fn unescape_spaces(s: Seq<char>) -> Seq<char> {
    s.map_values(|c: char| unescape_char(c))
}

/// Where a 32-bit float, given by its bit pattern, stands in the IEEE-754 total order
/// (the order of `f32::total_cmp`): a larger key is a larger float.
pub open spec fn score_key(bits: u32) -> int {
    if bits < 0x8000_0000 {
        bits as int
    } else {
        0x7fff_ffff - bits as int
    }
}

/// The total-order key of a float's bit pattern.
pub fn total_order_key(bits: u32) -> (k: i64)
    ensures
        k == score_key(bits),
{
    if bits < 0x8000_0000 {
        bits as i64
    } else {
        0x7fff_ffff - bits as i64
    }
}

/// A SentencePiece vocabulary as plain values.
pub struct SpmVocab {
    /// The piece of each id.
    pub tokens: Seq<Seq<char>>,
    /// The id of each piece.
    pub ids: Map<Seq<char>, u32>,
    /// The score of each id, as a total-order key.
    pub scores: Seq<int>,
    /// The id standing for each byte when a piece falls back to bytes.
    pub byte_ids: Seq<u32>,
    pub bos: u32,
    pub eos: u32,
    pub add_bos: bool,
    pub add_eos: bool,
}

/// The score of a piece of the vocabulary.
pub open spec fn piece_score(v: SpmVocab, p: Seq<char>) -> int {
    v.scores[v.ids[p] as int]
}

/// The adjacent pair whose joined piece scores highest among those starting at `i` or later,
/// given the best `(index, score)` found before `i`; on equal scores the leftmost pair wins.
pub open spec fn best_merge_from(syms: Seq<Seq<char>>, v: SpmVocab, i: int, best: Option<(int, int)>) -> Option<(int, int)>
    decreases syms.len() - i,
{
    if i < 0 || i + 1 >= syms.len() {
        best
    } else {
        let p = syms[i] + syms[i + 1];
        let nb = if v.ids.contains_key(p) && (best is None || piece_score(v, p) > best.unwrap().1) {
            Some((i, piece_score(v, p)))
        } else {
            best
        };
        best_merge_from(syms, v, i + 1, nb)
    }
}

/// Merge the best-scoring adjacent pair until no joined pair is a piece.
pub open spec fn spm_merge(syms: Seq<Seq<char>>, v: SpmVocab) -> Seq<Seq<char>>
    decreases syms.len(),
{
    match best_merge_from(syms, v, 0, None) {
        None => syms,
        Some((i, _)) => {
            if 0 <= i && i + 1 < syms.len() {
                spm_merge(merge_at(syms, i), v)
            } else {
                syms
            }
        },
    }
}

/// The ids of one final piece: its own id, or else the byte ids of its UTF-8 encoding.
pub open spec fn piece_ids(p: Seq<char>, v: SpmVocab) -> Seq<u32> {
    if v.ids.contains_key(p) {
        seq![v.ids[p]]
    } else {
        encode_utf8(p).map_values(|b: u8| v.byte_ids[b as int])
    }
}

/// The ids of a sequence of final pieces.
pub open spec fn pieces_ids(ps: Seq<Seq<char>>, v: SpmVocab) -> Seq<u32>
    decreases ps.len(),
{
    if ps.len() == 0 {
        Seq::empty()
    } else {
        pieces_ids(ps.drop_last(), v) + piece_ids(ps.last(), v)
    }
}

/// The pieces SentencePiece makes of `text`.
pub open spec fn spm_pieces(text: Seq<char>, v: SpmVocab) -> Seq<Seq<char>> {
    spm_merge(singletons(escape_spaces(text)), v)
}

/// The ids of `text`: BOS when the model adds it, the ids of its pieces, then EOS when the
/// model adds it.
pub open spec fn spm_encode(text: Seq<char>, v: SpmVocab) -> Seq<u32> {
    (if v.add_bos {
        seq![v.bos]
    } else {
        Seq::empty()
    }) + pieces_ids(spm_pieces(text, v), v) + (if v.add_eos {
        seq![v.eos]
    } else {
        Seq::empty()
    })
}

/// Which special token an id was given for.
#[derive(Clone, Copy, Debug, PartialEq, Eq, Structural)]
pub enum SpecialRole {
    Unknown,
    Bos,
    Eos,
}

/// Why a file's metadata does not make a SentencePiece tokenizer.
#[derive(Debug)]
pub enum SentencePieceError {
    /// `tokenizer.ggml.model` is not `llama` (the empty string when it is absent).
    UnsupportedModel { model: String },
    MissingTokens,
    MissingScores,
    MissingTokenTypes,
    /// The piece, score and token-type arrays differ in length.
    LengthMismatch { tokens: usize, scores: usize, types: usize },
    /// More pieces than `u32` ids can name.
    TooManyTokens,
    /// A special-token id at or past the vocabulary size.
    OutOfVocabulary { role: SpecialRole, id: u32, vocab_size: usize },
}

/// [`SentencePieceError`] as plain values.
pub enum SpmFailure {
    UnsupportedModel(Seq<char>),
    MissingTokens,
    MissingScores,
    MissingTokenTypes,
    LengthMismatch(int, int, int),
    TooManyTokens,
    OutOfVocabulary(SpecialRole, u32, int),
}

impl View for SentencePieceError {
    type V = SpmFailure;

    open spec fn view(&self) -> SpmFailure {
        match self {
            SentencePieceError::UnsupportedModel { model } => SpmFailure::UnsupportedModel(model@),
            SentencePieceError::MissingTokens => SpmFailure::MissingTokens,
            SentencePieceError::MissingScores => SpmFailure::MissingScores,
            SentencePieceError::MissingTokenTypes => SpmFailure::MissingTokenTypes,
            SentencePieceError::LengthMismatch { tokens, scores, types } => SpmFailure::LengthMismatch(
                *tokens as int,
                *scores as int,
                *types as int,
            ),
            SentencePieceError::TooManyTokens => SpmFailure::TooManyTokens,
            SentencePieceError::OutOfVocabulary { role, id, vocab_size } => SpmFailure::OutOfVocabulary(
                *role,
                *id,
                *vocab_size as int,
            ),
        }
    }
}

/// The float array stored under `key`, as bit patterns, if any.
pub open spec fn f32_bits_array_of(g: GgufFile, key: Seq<char>) -> Option<Seq<u32>> {
    match g.meta_get(key) {
        Some(m) => meta_as_f32_bits_array(m),
        None => None,
    }
}

/// The boolean stored under `key`, or `default`.
pub open spec fn bool_or(g: GgufFile, key: Seq<char>, default: bool) -> bool {
    match g.meta_get(key) {
        Some(Meta::Bool(b)) => b,
        _ => default,
    }
}

/// The fallback id of byte `b` among the first `n` pieces: the last byte-typed piece that
/// spells `<0xHH>` for it, or `unknown` if there is none.
pub open spec fn byte_id_upto(b: int, tokens: Seq<Seq<char>>, types: Seq<u32>, n: int, unknown: u32) -> u32
    decreases n,
{
    if n <= 0 {
        unknown
    } else if types[n - 1] == TOKEN_TYPE_BYTE && byte_token_value(tokens[n - 1]) == Some(b as u8) && 0 <= b < 256 {
        (n - 1) as u32
    } else {
        byte_id_upto(b, tokens, types, n - 1, unknown)
    }
}

/// What a file's `tokenizer.ggml.*` metadata makes of a SentencePiece vocabulary.
pub open spec fn spm_from(g: GgufFile) -> Result<SpmVocab, SpmFailure> {
    let model = str_or_empty(g, "tokenizer.ggml.model"@);
    if model != "llama"@ {
        Err(SpmFailure::UnsupportedModel(model))
    } else {
        match str_array_of(g, "tokenizer.ggml.tokens"@) {
            None => Err(SpmFailure::MissingTokens),
            Some(tokens) => match f32_bits_array_of(g, "tokenizer.ggml.scores"@) {
                None => Err(SpmFailure::MissingScores),
                Some(scores) => match u32_array_of(g, "tokenizer.ggml.token_type"@) {
                    None => Err(SpmFailure::MissingTokenTypes),
                    Some(types) => {
                        let n = tokens.len() as int;
                        let unknown = u32_or(g, "tokenizer.ggml.unknown_token_id"@, 3);
                        let bos = u32_or(g, "tokenizer.ggml.bos_token_id"@, 2);
                        let eos = u32_or(g, "tokenizer.ggml.eos_token_id"@, 1);
                        if n != scores.len() || n != types.len() {
                            Err(SpmFailure::LengthMismatch(n, scores.len() as int, types.len() as int))
                        } else if n > u32::MAX {
                            Err(SpmFailure::TooManyTokens)
                        } else if unknown >= n {
                            Err(SpmFailure::OutOfVocabulary(SpecialRole::Unknown, unknown, n))
                        } else if bos >= n {
                            Err(SpmFailure::OutOfVocabulary(SpecialRole::Bos, bos, n))
                        } else if eos >= n {
                            Err(SpmFailure::OutOfVocabulary(SpecialRole::Eos, eos, n))
                        } else {
                            Ok(
                                SpmVocab {
                                    tokens,
                                    ids: vocab_map(token_entries(tokens)),
                                    scores: scores.map_values(|b: u32| score_key(b)),
                                    byte_ids: Seq::new(256, |b: int| byte_id_upto(b, tokens, types, n, unknown)),
                                    bos,
                                    eos,
                                    add_bos: bool_or(g, "tokenizer.ggml.add_bos_token"@, true),
                                    add_eos: bool_or(g, "tokenizer.ggml.add_eos_token"@, true),
                                },
                            )
                        }
                    },
                },
            },
        }
    }
}

/// A SentencePiece tokenizer.
pub struct Tokenizer {
    tokens: Vec<String>,
    token_to_id: StrIndex,
    /// The score of each id, as a total-order key.
    scores: Vec<i64>,
    /// The id of each byte's fallback piece (the unknown-token id where there is none).
    byte_to_id: Vec<u32>,
    bos: u32,
    eos: u32,
    add_bos: bool,
    add_eos: bool,
}

impl View for Tokenizer {
    type V = SpmVocab;

    closed spec fn view(&self) -> SpmVocab {
        SpmVocab {
            tokens: strings_view(self.tokens@),
            ids: self.token_to_id@,
            scores: self.scores@.map_values(|k: i64| k as int),
            byte_ids: self.byte_to_id@,
            bos: self.bos,
            eos: self.eos,
            add_bos: self.add_bos,
            add_eos: self.add_eos,
        }
    }
}

/// Which `(index, score)` an exec search result stands for.
pub open spec fn found_merge(b: Option<(usize, i64)>) -> Option<(int, int)> {
    match b {
        Some((i, k)) => Some((i as int, k as int)),
        None => None,
    }
}

proof fn lemma_best_merge_bounds(syms: Seq<Seq<char>>, v: SpmVocab, i: int, best: Option<(int, int)>)
    requires
        i >= 0,
        best matches Some((j, _)) ==> 0 <= j && j + 1 < syms.len(),
    ensures
        best_merge_from(syms, v, i, best) matches Some((j, _)) ==> 0 <= j && j + 1 < syms.len(),
    decreases syms.len() - i,
{
    if i + 1 < syms.len() {
        let p = syms[i] + syms[i + 1];
        let nb = if v.ids.contains_key(p) && (best is None || piece_score(v, p) > best.unwrap().1) {
            Some((i, piece_score(v, p)))
        } else {
            best
        };
        lemma_best_merge_bounds(syms, v, i + 1, nb);
    }
}

impl Tokenizer {
    /// The piece index is consistent, every byte has a fallback id, and every piece's id has
    /// a score.
    pub closed spec fn wf(&self) -> bool {
        &&& self.token_to_id.wf()
        &&& self.byte_to_id@.len() == 256
        &&& forall|p: Seq<char>|
            #[trigger] self.token_to_id@.contains_key(p) ==> (self.token_to_id@[p] as int) < self.scores@.len()
    }

    /// The characters of `text` split into one-character pieces, spaces escaped.
    fn escaped_symbols(text: &str) -> (r: Vec<String>)
        ensures
            strings_view(r@) == singletons(escape_spaces(text@)),
    {
        let c = to_chars(text);
        let ghost w = escape_spaces(text@);
        let mut r: Vec<String> = Vec::new();
        let mut i: usize = 0;
        while i < c.len()
            invariant
                c@ == text@,
                w == escape_spaces(text@),
                i <= c@.len(),
                strings_view(r@) == singletons(w).take(i as int),
            decreases c@.len() - i,
        {
            let ghost prev = strings_view(r@);
            let ch = if c[i] == ' ' {
                ESCAPED_SPACE
            } else {
                c[i]
            };
            assert(ch == w[i as int]);
            let mut one = String::new();
            one.push(ch);
            assert(one@ =~= seq![w[i as int]]);
            r.push(one);
            assert(strings_view(r@) =~= prev.push(seq![w[i as int]]));
            assert(singletons(w).take(i + 1 as int) =~= singletons(w).take(i as int).push(seq![w[i as int]]));
            i += 1;
        }
        assert(singletons(w).take(i as int) =~= singletons(w));
        r
    }

    /// Merge the best-scoring adjacent pair until no joined pair is a piece.
    fn merge_pieces(&self, initial: Vec<String>) -> (r: Vec<String>)
        requires
            self.wf(),
        ensures
            strings_view(r@) == spm_merge(strings_view(initial@), self@),
    {
        let ghost v = self@;
        let ghost start = strings_view(initial@);
        let mut symbols = initial;
        loop
            invariant
                self.wf(),
                v == self@,
                start == strings_view(initial@),
                spm_merge(strings_view(symbols@), v) == spm_merge(start, v),
            decreases symbols@.len(),
        {
            let ghost syms = strings_view(symbols@);
            let n = symbols.len();
            let last: usize = if n == 0 {
                0
            } else {
                n - 1
            };
            let mut best: Option<(usize, i64)> = None;
            let mut i: usize = 0;
            while i < last
                invariant
                    self.wf(),
                    v == self@,
                    n == symbols@.len(),
                    last == (if n == 0 {
                        0
                    } else {
                        n - 1
                    }),
                    syms == strings_view(symbols@),
                    i <= last,
                    best matches Some((j, _)) ==> j + 1 < n,
                    best_merge_from(syms, v, 0, None) == best_merge_from(syms, v, i as int, found_merge(best)),
                decreases n - i,
            {
                let mut joined = symbols[i].clone();
                joined.append(symbols[i + 1].as_str());
                assert(joined@ == syms[i as int] + syms[i + 1]);
                match self.token_to_id.get(joined.as_str()) {
                    Some(id) => {
                        let key = self.scores[id as usize];
                        assert(key as int == piece_score(v, joined@));
                        let better = match best {
                            None => true,
                            Some((_, bk)) => key > bk,
                        };
                        if better {
                            best = Some((i, key));
                        }
                    },
                    None => {},
                }
                i += 1;
            }
            match best {
                None => {
                    assert(best_merge_from(syms, v, i as int, None) == None::<(int, int)>);
                    assert(spm_merge(syms, v) == syms);
                    return symbols;
                },
                Some((j, _)) => {
                    let right = symbols.remove(j + 1);
                    let mut merged = symbols[j].clone();
                    merged.append(right.as_str());
                    symbols.set(j, merged);
                    assert(strings_view(symbols@) =~= merge_at(syms, j as int));
                },
            }
        }
    }

    /// Appends the ids of one final piece.
    fn push_piece_ids(&self, piece: &String, out: &mut Vec<u32>)
        requires
            self.wf(),
        ensures
            final(out)@ == old(out)@ + piece_ids(piece@, self@),
    {
        match self.token_to_id.get(piece.as_str()) {
            Some(id) => {
                out.push(id);
            },
            None => {
                let bytes = piece.as_str().as_bytes();
                let ghost fallback = encode_utf8(piece@).map_values(|b: u8| self@.byte_ids[b as int]);
                let mut i: usize = 0;
                while i < bytes.len()
                    invariant
                        self.wf(),
                        bytes@ == encode_utf8(piece@),
                        fallback == encode_utf8(piece@).map_values(|b: u8| self@.byte_ids[b as int]),
                        i <= bytes@.len(),
                        out@ == old(out)@ + fallback.take(i as int),
                    decreases bytes@.len() - i,
                {
                    out.push(self.byte_to_id[bytes[i] as usize]);
                    i += 1;
                    assert(out@ =~= old(out)@ + fallback.take(i as int));
                }
                assert(fallback.take(i as int) =~= fallback);
            },
        }
    }

    /// The piece index of `tokens`: each piece maps to its id, a later id for the same piece
    /// replacing an earlier one.
    fn index_tokens(tokens: &Vec<String>) -> (r: StrIndex)
        requires
            tokens@.len() <= u32::MAX,
        ensures
            r.wf(),
            r@ == vocab_map(token_entries(strings_view(tokens@))),
            forall|p: Seq<char>| #[trigger] r@.contains_key(p) ==> (r@[p] as int) < tokens@.len(),
    {
        let ghost tv = strings_view(tokens@);
        let mut index = StrIndex::new();
        let mut i: usize = 0;
        while i < tokens.len()
            invariant
                tv == strings_view(tokens@),
                tokens@.len() <= u32::MAX,
                i <= tokens@.len(),
                index.wf(),
                index@ == vocab_map(token_entries(tv).take(i as int)),
                forall|p: Seq<char>| #[trigger] index@.contains_key(p) ==> (index@[p] as int) < i,
            decreases tokens@.len() - i,
        {
            index.insert(tokens[i].clone(), i as u32);
            assert(token_entries(tv).take(i + 1 as int).drop_last() =~= token_entries(tv).take(i as int));
            i += 1;
        }
        assert(token_entries(tv).take(i as int) =~= token_entries(tv));
        index
    }

    /// The total-order keys of float scores given by their bit patterns.
    fn score_keys(bits: &Vec<u32>) -> (r: Vec<i64>)
        ensures
            r@.map_values(|k: i64| k as int) == bits@.map_values(|b: u32| score_key(b)),
    {
        let mut r: Vec<i64> = Vec::new();
        let mut i: usize = 0;
        while i < bits.len()
            invariant
                i <= bits@.len(),
                r@.len() == i,
                forall|j: int| 0 <= j < i ==> r@[j] as int == score_key(#[trigger] bits@[j]),
            decreases bits@.len() - i,
        {
            r.push(total_order_key(bits[i]));
            i += 1;
        }
        assert(r@.map_values(|k: i64| k as int) =~= bits@.map_values(|b: u32| score_key(b)));
        r
    }

    /// A tokenizer from its parts: the piece of each id, the score of each id as a float bit
    /// pattern, the fallback id of each byte, the BOS/EOS ids, and whether encoding adds
    /// them. A piece given twice maps to its later id.
    pub fn from_parts(
        tokens: Vec<String>,
        score_bits: Vec<u32>,
        byte_to_id: Vec<u32>,
        bos: u32,
        eos: u32,
        add_bos: bool,
        add_eos: bool,
    ) -> (t: Tokenizer)
        requires
            tokens@.len() <= u32::MAX,
            score_bits@.len() == tokens@.len(),
            byte_to_id@.len() == 256,
        ensures
            t.wf(),
            t@ == (SpmVocab {
                tokens: strings_view(tokens@),
                ids: vocab_map(token_entries(strings_view(tokens@))),
                scores: score_bits@.map_values(|b: u32| score_key(b)),
                byte_ids: byte_to_id@,
                bos,
                eos,
                add_bos,
                add_eos,
            }),
    {
        let token_to_id = Self::index_tokens(&tokens);
        let scores = Self::score_keys(&score_bits);
        assert(scores@.len() == score_bits@.len()) by {
            assert(scores@.map_values(|k: i64| k as int).len() == score_bits@.map_values(|b: u32| score_key(b)).len());
        }
        Tokenizer { tokens, token_to_id, scores, byte_to_id, bos, eos, add_bos, add_eos }
    }

    /// Build from a loaded GGUF's `tokenizer.ggml.*` metadata.
    pub fn from_gguf(g: &GgufFile) -> (r: Result<Tokenizer, SentencePieceError>)
        ensures
            match (r, spm_from(*g)) {
                (Ok(t), Ok(v)) => t.wf() && t@ == v,
                (Err(e), Err(f)) => e@ == f,
                _ => false,
            },
    {
        let model = match g.get_str("tokenizer.ggml.model") {
            Some(m) => m,
            None => {
                proof {
                    reveal_strlit("");
                }
                ""
            },
        };
        assert(str_or_empty(*g, "tokenizer.ggml.model"@) == model@);
        if !crate::text::str_eq(model, "llama") {
            let e = SentencePieceError::UnsupportedModel { model: model.to_owned() };
            assert(spm_from(*g) == Err::<SpmVocab, SpmFailure>(SpmFailure::UnsupportedModel(model@)));
            return Err(e);
        }
        let tokens = match g.get_str_array("tokenizer.ggml.tokens") {
            Some(t) => t,
            None => return Err(SentencePieceError::MissingTokens),
        };
        let score_bits = match g.get_f32_bits_array("tokenizer.ggml.scores") {
            Some(s) => s,
            None => return Err(SentencePieceError::MissingScores),
        };
        let types = match g.get_u32_array("tokenizer.ggml.token_type") {
            Some(t) => t,
            None => return Err(SentencePieceError::MissingTokenTypes),
        };
        let ghost tv = strings_view(tokens@);
        assert(str_array_of(*g, "tokenizer.ggml.tokens"@) == Some(tv));
        assert(f32_bits_array_of(*g, "tokenizer.ggml.scores"@) == Some(score_bits@));
        assert(u32_array_of(*g, "tokenizer.ggml.token_type"@) == Some(types@));
        let n = tokens.len();
        let unknown = match g.get_u32("tokenizer.ggml.unknown_token_id") {
            Some(x) => x,
            None => 3,
        };
        let bos = match g.get_u32("tokenizer.ggml.bos_token_id") {
            Some(x) => x,
            None => 2,
        };
        let eos = match g.get_u32("tokenizer.ggml.eos_token_id") {
            Some(x) => x,
            None => 1,
        };
        assert(u32_or(*g, "tokenizer.ggml.unknown_token_id"@, 3) == unknown);
        assert(u32_or(*g, "tokenizer.ggml.bos_token_id"@, 2) == bos);
        assert(u32_or(*g, "tokenizer.ggml.eos_token_id"@, 1) == eos);
        if n != score_bits.len() || n != types.len() {
            return Err(SentencePieceError::LengthMismatch { tokens: n, scores: score_bits.len(), types: types.len() });
        }
        if n as u64 > 0xffff_ffffu64 {
            return Err(SentencePieceError::TooManyTokens);
        }
        if unknown as usize >= n {
            return Err(SentencePieceError::OutOfVocabulary { role: SpecialRole::Unknown, id: unknown, vocab_size: n });
        }
        if bos as usize >= n {
            return Err(SentencePieceError::OutOfVocabulary { role: SpecialRole::Bos, id: bos, vocab_size: n });
        }
        if eos as usize >= n {
            return Err(SentencePieceError::OutOfVocabulary { role: SpecialRole::Eos, id: eos, vocab_size: n });
        }

        let mut byte_to_id: Vec<u32> = Vec::new();
        let mut b: usize = 0;
        while b < 256
            invariant
                b <= 256,
                byte_to_id@.len() == b,
                forall|j: int| 0 <= j < b ==> #[trigger] byte_to_id@[j] == unknown,
            decreases 256 - b,
        {
            byte_to_id.push(unknown);
            b += 1;
        }
        let mut id: usize = 0;
        while id < n
            invariant
                tv == strings_view(tokens@),
                n == tokens@.len(),
                n == types@.len(),
                n <= u32::MAX,
                id <= n,
                byte_to_id@.len() == 256,
                forall|j: int| 0 <= j < 256 ==> #[trigger] byte_to_id@[j] == byte_id_upto(j, tv, types@, id as int, unknown),
            decreases n - id,
        {
            let ghost before = byte_to_id@;
            if types[id] == TOKEN_TYPE_BYTE {
                match parse_byte_token(tokens[id].as_str()) {
                    Some(x) => {
                        byte_to_id.set(x as usize, id as u32);
                    },
                    None => {},
                }
            }
            id += 1;
            assert forall|j: int| 0 <= j < 256 implies #[trigger] byte_to_id@[j] == byte_id_upto(j, tv, types@, id as int, unknown) by {
                assert(before[j] == byte_id_upto(j, tv, types@, id - 1, unknown));
            }
        }

        let token_to_id = Self::index_tokens(&tokens);
        let scores = Self::score_keys(&score_bits);
        assert(scores@.len() == score_bits@.len()) by {
            assert(scores@.map_values(|k: i64| k as int).len() == score_bits@.map_values(|b: u32| score_key(b)).len());
        }
        let add_bos = match g.get_bool("tokenizer.ggml.add_bos_token") {
            Some(x) => x,
            None => true,
        };
        let add_eos = match g.get_bool("tokenizer.ggml.add_eos_token") {
            Some(x) => x,
            None => true,
        };
        assert(bool_or(*g, "tokenizer.ggml.add_bos_token"@, true) == add_bos);
        assert(bool_or(*g, "tokenizer.ggml.add_eos_token"@, true) == add_eos);
        let t = Tokenizer { tokens, token_to_id, scores, byte_to_id, bos, eos, add_bos, add_eos };
        assert(t@.byte_ids =~= Seq::new(256, |j: int| byte_id_upto(j, tv, types@, n as int, unknown)));
        Ok(t)
    }

    /// Return a legible token piece: U+2581 is rendered as a regular space.
    pub fn token_piece(&self, id: u32) -> (r: Option<String>)
        ensures
            match r {
                Some(s) => (id as int) < self@.tokens.len() && s@ == unescape_spaces(self@.tokens[id as int]),
                None => (id as int) >= self@.tokens.len(),
            },
    {
        if id as usize >= self.tokens.len() {
            return None;
        }
        let c = to_chars(self.tokens[id as usize].as_str());
        let ghost piece = c@;
        let mut s = String::new();
        let mut i: usize = 0;
        while i < c.len()
            invariant
                piece == c@,
                i <= c@.len(),
                s@ == unescape_spaces(piece.take(i as int)),
            decreases c@.len() - i,
        {
            let ch = if c[i] == ESCAPED_SPACE {
                ' '
            } else {
                c[i]
            };
            s.push(ch);
            i += 1;
            assert(s@ =~= unescape_spaces(piece.take(i as int)));
        }
        assert(piece.take(i as int) =~= piece);
        Some(s)
    }

    /// The BOS id.
    pub fn bos_id(&self) -> (r: u32)
        ensures
            r == self@.bos,
    {
        self.bos
    }

    /// The EOS id.
    pub fn eos_id(&self) -> (r: u32)
        ensures
            r == self@.eos,
    {
        self.eos
    }

    /// Whether encoding appends EOS.
    pub fn adds_eos(&self) -> (r: bool)
        ensures
            r == self@.add_eos,
    {
        self.add_eos
    }

    /// The number of pieces.
    pub fn vocab_size(&self) -> (n: usize)
        ensures
            n == self@.tokens.len(),
    {
        self.tokens.len()
    }

    /// Encode one input using EmbeddingGemma's model-declared BOS/EOS policy.
    pub fn encode(&self, text: &str) -> (ids: Vec<u32>)
        requires
            self.wf(),
        ensures
            ids@ == spm_encode(text@, self@),
    {
        let ghost v = self@;
        let mut out: Vec<u32> = Vec::new();
        if self.add_bos {
            out.push(self.bos);
        }
        let ghost head = out@;
        let symbols = Self::escaped_symbols(text);
        let pieces = self.merge_pieces(symbols);
        let ghost ps = strings_view(pieces@);
        let mut k: usize = 0;
        assert(ps.take(0) =~= Seq::<Seq<char>>::empty());
        assert(head + Seq::<u32>::empty() =~= head);
        while k < pieces.len()
            invariant
                self.wf(),
                v == self@,
                ps == strings_view(pieces@),
                ps == spm_pieces(text@, v),
                k <= pieces@.len(),
                out@ == head + pieces_ids(ps.take(k as int), v),
            decreases pieces@.len() - k,
        {
            self.push_piece_ids(&pieces[k], &mut out);
            assert(ps.take(k + 1 as int).drop_last() =~= ps.take(k as int));
            k += 1;
            assert(out@ =~= head + pieces_ids(ps.take(k as int), v));
        }
        assert(ps.take(k as int) =~= ps);
        if self.add_eos {
            out.push(self.eos);
        }
        proof {
            if self.add_bos {
                assert(head =~= seq![self.bos]);
            } else {
                assert(head =~= Seq::<u32>::empty());
            }
        }
        assert(out@ =~= spm_encode(text@, v));
        out
    }
}

} // verus!

verus! {

// ---------------------------------------------------------------------------------------------
// Laws
// ---------------------------------------------------------------------------------------------

proof fn lemma_spm_merge_keeps_text(syms: Seq<Seq<char>>, v: SpmVocab)
    ensures
        concat_symbols(spm_merge(syms, v)) == concat_symbols(syms),
    decreases syms.len(),
{
    match best_merge_from(syms, v, 0, None) {
        None => {},
        Some((i, _)) => {
            if 0 <= i && i + 1 < syms.len() {
                lemma_merge_keeps_text(syms, i);
                lemma_spm_merge_keeps_text(merge_at(syms, i), v);
            }
        },
    }
}

/// Merging only decides where the text is cut: the pieces of `text`, written one after
/// another, are `text` with its spaces escaped, whatever the vocabulary.
pub proof fn lemma_pieces_spell_the_text(text: Seq<char>, v: SpmVocab)
    ensures
        concat_symbols(spm_pieces(text, v)) == escape_spaces(text),
{
    lemma_spm_merge_keeps_text(singletons(escape_spaces(text)), v);
    lemma_singletons_spell(escape_spaces(text));
}

/// Rendering a piece legibly undoes the escaping of spaces, on text that holds no U+2581.
pub proof fn lemma_unescape_inverts_escape(s: Seq<char>)
    requires
        !s.contains(ESCAPED_SPACE),
    ensures
        unescape_spaces(escape_spaces(s)) == s,
{
    assert forall|i: int| 0 <= i < s.len() implies unescape_spaces(escape_spaces(s))[i] == s[i] by {
        assert(s[i] != ESCAPED_SPACE);
    }
    assert(unescape_spaces(escape_spaces(s)) =~= s);
}

/// No pair at `i` or later joins into a piece exactly when the search from `i`, having found
/// nothing before, finds nothing.
proof fn lemma_best_merge_none(syms: Seq<Seq<char>>, v: SpmVocab, i: int, best: Option<(int, int)>)
    requires
        i >= 0,
    ensures
        best is Some ==> best_merge_from(syms, v, i, best) is Some,
        best is None ==> (best_merge_from(syms, v, i, best) is None <==> forall|j: int|
            i <= j && j + 1 < syms.len() ==> !v.ids.contains_key(#[trigger] syms[j] + syms[j + 1])),
    decreases syms.len() - i,
{
    if i + 1 < syms.len() {
        let p = syms[i] + syms[i + 1];
        let nb = if v.ids.contains_key(p) && (best is None || piece_score(v, p) > best.unwrap().1) {
            Some((i, piece_score(v, p)))
        } else {
            best
        };
        lemma_best_merge_none(syms, v, i + 1, nb);
        if best is None && !v.ids.contains_key(p) {
            assert forall|j: int| i + 1 <= j && j + 1 < syms.len() && !v.ids.contains_key(#[trigger] syms[j] + syms[j + 1]) implies
                i <= j && j + 1 < syms.len() && !v.ids.contains_key(syms[j] + syms[j + 1]) by {}
        }
    }
}

proof fn lemma_spm_merge_is_maximal(syms: Seq<Seq<char>>, v: SpmVocab)
    ensures
        forall|j: int|
            0 <= j && j + 1 < spm_merge(syms, v).len() ==> !v.ids.contains_key(
                #[trigger] spm_merge(syms, v)[j] + spm_merge(syms, v)[j + 1],
            ),
    decreases syms.len(),
{
    lemma_best_merge_none(syms, v, 0, None);
    lemma_best_merge_bounds(syms, v, 0, None);
    match best_merge_from(syms, v, 0, None) {
        None => {
            assert(spm_merge(syms, v) == syms);
            assert forall|j: int| 0 <= j && j + 1 < syms.len() implies !v.ids.contains_key(
                #[trigger] syms[j] + syms[j + 1],
            ) by {}
        },
        Some((i, _)) => {
            assert(spm_merge(syms, v) == spm_merge(merge_at(syms, i), v));
            lemma_spm_merge_is_maximal(merge_at(syms, i), v);
        },
    }
}

/// Merging runs until it is stuck: no two adjacent pieces of `text` join into a piece of the
/// vocabulary.
pub proof fn lemma_pieces_are_maximal(text: Seq<char>, v: SpmVocab)
    ensures
        forall|j: int|
            0 <= j && j + 1 < spm_pieces(text, v).len() ==> !v.ids.contains_key(
                #[trigger] spm_pieces(text, v)[j] + spm_pieces(text, v)[j + 1],
            ),
{
    lemma_spm_merge_is_maximal(singletons(escape_spaces(text)), v);
}

} // verus!
