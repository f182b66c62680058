//! The LFM2.5-ColBERT-350M encoder profile: its constants, its tensor contract and the check
//! that a loaded file matches them.
//!
//! This is intentionally separate from the generative `lfm2moe` model: it is a non-causal
//! `lfm2` encoder with centered short convolutions, a dense 128-dimensional token projection,
//! and ColBERT MaxSim scoring.

use vstd::prelude::*;

use crate::config::{
    architecture_failure, expect_architecture, expect_u32, or_else, u32_failure, MetadataError,
    MetadataFailure,
};
use crate::gguf::{meta_as_u32_array, GgufFile, Meta};
use crate::model::{entries_view, layer_name, push_entry, Entry};
use crate::bpe::{encode_spec, specials_nonempty, Tokenizer};
use crate::text::{decimal, push_decimal};

verus! {

/// GGUF architecture name for this encoder family.
pub const ARCH: &'static str = "lfm2";

pub const PROFILE_NAME: &'static str = "lfm2.5-colbert-350m-cpu";

pub const HIDDEN: usize = 1024;

pub const OUTPUT_DIM: usize = 128;

pub const N_LAYERS: usize = 16;

pub const VOCAB: usize = 64402;

pub const N_HEADS: usize = 16;

pub const N_KV_HEADS: usize = 8;

pub const HEAD_DIM: usize = HIDDEN / N_HEADS;

pub const KV_DIM: usize = N_KV_HEADS * HEAD_DIM;

pub const FF: usize = 4608;

pub const CONV_L_CACHE: usize = 3;

pub const QUERY_LENGTH: usize = 32;

pub const DOCUMENT_LENGTH: usize = 512;

pub const PAD_TOKEN_ID: u32 = 7;

/// The six grouped-query attention layers in the released 350M model; the others are
/// non-causal, centered short-convolution layers.
pub const ATTENTION_LAYERS: [usize; 6] = [2, 5, 8, 10, 12, 14];

/// Whether layer `l` is one of [`ATTENTION_LAYERS`].
pub open spec fn attention_layer(l: int) -> bool {
    exists|i: int| 0 <= i < 6 && ATTENTION_LAYERS@[i] == l
}

/// Whether layer `layer` uses attention (vs. the short convolution).
pub fn is_attention(layer: usize) -> (r: bool)
    ensures
        r == attention_layer(layer as int),
{
    let mut i: usize = 0;
    while i < 6
        invariant
            i <= 6,
            forall|j: int| 0 <= j < i ==> ATTENTION_LAYERS@[j] != layer,
        decreases 6 - i,
    {
        if ATTENTION_LAYERS[i] == layer {
            return true;
        }
        i += 1;
    }
    false
}

/// `"blk.{layer}.{suffix}"` — a per-layer tensor name.
pub fn name(layer: usize, suffix: &str) -> (s: String)
    ensures
        s@ == layer_name(layer as nat, "."@ + suffix@),
{
    crate::model::name(layer, suffix)
}

/// The tensors of encoder layer `i`: the two norms, the attention or short-conv operator,
/// and the dense FFN.
pub open spec fn colbert_layer(i: nat) -> Seq<Entry> {
    let h = HIDDEN as u64;
    let kv = KV_DIM as u64;
    let norms = seq![
        (layer_name(i, ".attn_norm.weight"@), seq![h]),
        (layer_name(i, ".ffn_norm.weight"@), seq![h]),
    ];
    let op = if attention_layer(i as int) {
        seq![
            (layer_name(i, ".attn_q.weight"@), seq![h, h]),
            (layer_name(i, ".attn_k.weight"@), seq![h, kv]),
            (layer_name(i, ".attn_v.weight"@), seq![h, kv]),
            (layer_name(i, ".attn_output.weight"@), seq![h, h]),
            (layer_name(i, ".attn_q_norm.weight"@), seq![HEAD_DIM as u64]),
            (layer_name(i, ".attn_k_norm.weight"@), seq![HEAD_DIM as u64]),
        ]
    } else {
        seq![
            (layer_name(i, ".shortconv.in_proj.weight"@), seq![h, (3 * h) as u64]),
            (layer_name(i, ".shortconv.conv.weight"@), seq![CONV_L_CACHE as u64, h]),
            (layer_name(i, ".shortconv.out_proj.weight"@), seq![h, h]),
        ]
    };
    let ffn = seq![
        (layer_name(i, ".ffn_gate.weight"@), seq![h, FF as u64]),
        (layer_name(i, ".ffn_up.weight"@), seq![h, FF as u64]),
        (layer_name(i, ".ffn_down.weight"@), seq![FF as u64, h]),
    ];
    norms + op + ffn
}

/// The tensors of layers `0..n`, in order.
pub open spec fn colbert_layers(n: nat) -> Seq<Entry>
    decreases n,
{
    if n == 0 {
        Seq::empty()
    } else {
        colbert_layers((n - 1) as nat) + colbert_layer((n - 1) as nat)
    }
}

/// The full tensor contract of the published 350M GGUF profile.
pub open spec fn colbert_tensors() -> Seq<Entry> {
    seq![
        ("dense_2.weight"@, seq![HIDDEN as u64, OUTPUT_DIM as u64]),
        ("token_embd.weight"@, seq![HIDDEN as u64, VOCAB as u64]),
        ("token_embd_norm.weight"@, seq![HIDDEN as u64]),
    ] + colbert_layers(N_LAYERS as nat)
}

fn push_layer(v: &mut Vec<(String, Vec<u64>)>, i: usize)
    requires
        i < N_LAYERS,
    ensures
        entries_view(final(v)@) == entries_view(old(v)@) + colbert_layer(i as nat),
{
    let h = HIDDEN as u64;
    let mut p = String::new();
    p.append("blk.");
    push_decimal(&mut p, i as u64);
    assert(p@ =~= "blk."@ + decimal(i as nat));
    let ghost v0 = entries_view(v@);
    push_entry(v, &p, ".attn_norm.weight", vec![h]);
    push_entry(v, &p, ".ffn_norm.weight", vec![h]);
    if is_attention(i) {
        let kv = KV_DIM as u64;
        push_entry(v, &p, ".attn_q.weight", vec![h, h]);
        push_entry(v, &p, ".attn_k.weight", vec![h, kv]);
        push_entry(v, &p, ".attn_v.weight", vec![h, kv]);
        push_entry(v, &p, ".attn_output.weight", vec![h, h]);
        push_entry(v, &p, ".attn_q_norm.weight", vec![HEAD_DIM as u64]);
        push_entry(v, &p, ".attn_k_norm.weight", vec![HEAD_DIM as u64]);
    } else {
        push_entry(v, &p, ".shortconv.in_proj.weight", vec![h, 3 * h]);
        push_entry(v, &p, ".shortconv.conv.weight", vec![CONV_L_CACHE as u64, h]);
        push_entry(v, &p, ".shortconv.out_proj.weight", vec![h, h]);
    }
    push_entry(v, &p, ".ffn_gate.weight", vec![h, FF as u64]);
    push_entry(v, &p, ".ffn_up.weight", vec![h, FF as u64]);
    push_entry(v, &p, ".ffn_down.weight", vec![FF as u64, h]);
    assert(entries_view(v@) =~~= v0 + colbert_layer(i as nat));
}

/// Full tensor contract for the published 350M GGUF profile.
pub fn expected_tensors() -> (v: Vec<(String, Vec<u64>)>)
    ensures
        entries_view(v@) == colbert_tensors(),
{
    let h = HIDDEN as u64;
    let mut v: Vec<(String, Vec<u64>)> = Vec::new();
    let e = String::new();
    assert(e@ + "dense_2.weight"@ =~= "dense_2.weight"@);
    assert(e@ + "token_embd.weight"@ =~= "token_embd.weight"@);
    assert(e@ + "token_embd_norm.weight"@ =~= "token_embd_norm.weight"@);
    push_entry(&mut v, &e, "dense_2.weight", vec![h, OUTPUT_DIM as u64]);
    push_entry(&mut v, &e, "token_embd.weight", vec![h, VOCAB as u64]);
    push_entry(&mut v, &e, "token_embd_norm.weight", vec![h]);
    let ghost head = entries_view(v@);
    assert(head =~~= seq![
        ("dense_2.weight"@, seq![HIDDEN as u64, OUTPUT_DIM as u64]),
        ("token_embd.weight"@, seq![HIDDEN as u64, VOCAB as u64]),
        ("token_embd_norm.weight"@, seq![HIDDEN as u64]),
    ]);
    let mut i: usize = 0;
    while i < N_LAYERS
        invariant
            i <= N_LAYERS,
            entries_view(v@) == head + colbert_layers(i as nat),
        decreases N_LAYERS - i,
    {
        push_layer(&mut v, i);
        i += 1;
        assert(entries_view(v@) =~= head + colbert_layers(i as nat));
    }
    v
}

/// The architecture check and the integer hyperparameters read before the floating-point
/// entries, in order; the first failure wins.
pub open spec fn head_failure(g: GgufFile) -> Option<MetadataFailure> {
    or_else(
        architecture_failure(g, ARCH@),
        or_else(
            u32_failure(g, "lfm2.block_count"@, N_LAYERS as u32),
            or_else(
                u32_failure(g, "lfm2.context_length"@, 128000),
                or_else(
                    u32_failure(g, "lfm2.embedding_length"@, HIDDEN as u32),
                    or_else(
                        u32_failure(g, "lfm2.embedding_length_out"@, OUTPUT_DIM as u32),
                        or_else(
                            u32_failure(g, "lfm2.feed_forward_length"@, FF as u32),
                            or_else(
                                u32_failure(g, "lfm2.attention.head_count"@, N_HEADS as u32),
                                or_else(
                                    u32_failure(g, "lfm2.vocab_size"@, VOCAB as u32),
                                    u32_failure(g, "lfm2.shortconv.l_cache"@, CONV_L_CACHE as u32),
                                ),
                            ),
                        ),
                    ),
                ),
            ),
        ),
    )
}

/// The per-layer kv-head count: [`N_KV_HEADS`] on attention layers, 0 elsewhere.
pub open spec fn expected_kv_heads(l: int) -> u32 {
    if attention_layer(l) {
        N_KV_HEADS as u32
    } else {
        0
    }
}

/// The first layer from `i` on whose kv-head count differs from the schedule.
pub open spec fn schedule_mismatch(kv: Seq<u32>, i: int) -> Option<MetadataFailure>
    decreases kv.len() - i,
{
    if i < 0 || i >= kv.len() {
        None
    } else if kv[i] != expected_kv_heads(i) {
        Some(MetadataFailure::Schedule(i, kv[i], expected_kv_heads(i)))
    } else {
        schedule_mismatch(kv, i + 1)
    }
}

/// The checks after the floating-point entries, in order: non-causal attention, the special
/// token ids, then the per-layer kv-head schedule.
pub open spec fn tail_failure(g: GgufFile) -> Option<MetadataFailure> {
    let causal = if g.meta_get("lfm2.attention.causal"@) == Some(Meta::Bool(false)) {
        None
    } else {
        Some(MetadataFailure::CausalAttention)
    };
    let schedule = match g.meta_get("lfm2.attention.head_count_kv"@) {
        Some(m) => match meta_as_u32_array(m) {
            Some(kv) => {
                if kv.len() != N_LAYERS {
                    Some(MetadataFailure::KvHeadsLength(kv.len() as int))
                } else {
                    schedule_mismatch(kv, 0)
                }
            },
            None => Some(MetadataFailure::MissingKvHeads),
        },
        None => Some(MetadataFailure::MissingKvHeads),
    };
    or_else(
        causal,
        or_else(
            u32_failure(g, "tokenizer.ggml.bos_token_id"@, 1),
            or_else(u32_failure(g, "tokenizer.ggml.padding_token_id"@, PAD_TOKEN_ID), schedule),
        ),
    )
}

/// Checks the architecture name and the integer hyperparameters.
pub fn validate_head(g: &GgufFile) -> (r: Result<(), MetadataError>)
    ensures
        match r {
            Ok(()) => head_failure(*g) is None,
            Err(e) => head_failure(*g) == Some(e@),
        },
{
    expect_architecture(g, ARCH)?;
    expect_u32(g, "lfm2.block_count", N_LAYERS as u32)?;
    expect_u32(g, "lfm2.context_length", 128000)?;
    expect_u32(g, "lfm2.embedding_length", HIDDEN as u32)?;
    expect_u32(g, "lfm2.embedding_length_out", OUTPUT_DIM as u32)?;
    expect_u32(g, "lfm2.feed_forward_length", FF as u32)?;
    expect_u32(g, "lfm2.attention.head_count", N_HEADS as u32)?;
    expect_u32(g, "lfm2.vocab_size", VOCAB as u32)?;
    expect_u32(g, "lfm2.shortconv.l_cache", CONV_L_CACHE as u32)?;
    Ok(())
}

/// Checks that attention is non-causal, the special token ids, and the kv-head schedule.
pub fn validate_tail(g: &GgufFile) -> (r: Result<(), MetadataError>)
    ensures
        match r {
            Ok(()) => tail_failure(*g) is None,
            Err(e) => tail_failure(*g) == Some(e@),
        },
{
    match g.get_bool("lfm2.attention.causal") {
        Some(false) => {},
        _ => return Err(MetadataError::CausalAttention),
    }
    expect_u32(g, "tokenizer.ggml.bos_token_id", 1)?;
    expect_u32(g, "tokenizer.ggml.padding_token_id", PAD_TOKEN_ID)?;
    let kv = match g.get_u32_array("lfm2.attention.head_count_kv") {
        Some(kv) => kv,
        None => return Err(MetadataError::MissingKvHeads),
    };
    if kv.len() != N_LAYERS {
        return Err(MetadataError::KvHeadsLength { len: kv.len() });
    }
    let mut i: usize = 0;
    while i < kv.len()
        invariant
            i <= kv@.len(),
            tail_failure(*g) == schedule_mismatch(kv@, i as int),
        decreases kv@.len() - i,
    {
        let want: u32 = if is_attention(i) {
            N_KV_HEADS as u32
        } else {
            0
        };
        if kv[i] != want {
            return Err(MetadataError::Schedule { layer: i, got: kv[i], expected: want });
        }
        i += 1;
    }
    Ok(())
}

// ---------------------------------------------------------------------------------------------
// Encoder inputs
// ---------------------------------------------------------------------------------------------

/// `ids` cut or padded with `pad` to exactly `n` ids.
pub open spec fn fixed_length(ids: Seq<u32>, n: int, pad: u32) -> Seq<u32> {
    if ids.len() >= n {
        ids.take(n)
    } else {
        ids + Seq::new((n - ids.len()) as nat, |i: int| pad)
    }
}

/// `ids` cut to at most `n` ids.
pub open spec fn at_most(ids: Seq<u32>, n: int) -> Seq<u32> {
    if ids.len() > n {
        ids.take(n)
    } else {
        ids
    }
}

/// The model input of a query: `[Q] ` and the text, with BOS, cut or padded to
/// `QUERY_LENGTH` ids.
pub fn query_ids(tok: &Tokenizer, text: &str, pad_id: u32) -> (r: Vec<u32>)
    requires
        tok.wf(),
        specials_nonempty(tok@.specials),
    ensures
        r@ == fixed_length(encode_spec("[Q] "@ + text@, true, tok@), QUERY_LENGTH as int, pad_id),
{
    let mut input = String::from_str("[Q] ");
    input.append(text);
    let mut ids = tok.encode(input.as_str(), true);
    let ghost enc = ids@;
    ids.truncate(QUERY_LENGTH);
    while ids.len() < QUERY_LENGTH
        invariant
            ids@.len() <= QUERY_LENGTH,
            enc.len() < QUERY_LENGTH ==> ids@ == enc + Seq::new((ids@.len() - enc.len()) as nat, |i: int| pad_id),
            enc.len() >= QUERY_LENGTH ==> ids@ == enc.take(QUERY_LENGTH as int),
            enc.len() < QUERY_LENGTH ==> ids@.len() >= enc.len(),
        decreases QUERY_LENGTH - ids@.len(),
    {
        let ghost before = ids@;
        ids.push(pad_id);
        assert(ids@ =~= enc + Seq::new((ids@.len() - enc.len()) as nat, |i: int| pad_id));
    }
    proof {
        if enc.len() >= QUERY_LENGTH {
            assert(ids@ =~= enc.take(QUERY_LENGTH as int));
        }
    }
    ids
}

/// The model input of a document: `[D] ` and the text, with BOS, cut to at most
/// `DOCUMENT_LENGTH` ids.
pub fn document_ids(tok: &Tokenizer, text: &str) -> (r: Vec<u32>)
    requires
        tok.wf(),
        specials_nonempty(tok@.specials),
    ensures
        r@ == at_most(encode_spec("[D] "@ + text@, true, tok@), DOCUMENT_LENGTH as int),
{
    let mut input = String::from_str("[D] ");
    input.append(text);
    let mut ids = tok.encode(input.as_str(), true);
    let ghost enc = ids@;
    ids.truncate(DOCUMENT_LENGTH);
    proof {
        if enc.len() > DOCUMENT_LENGTH {
            assert(ids@ =~= enc.take(DOCUMENT_LENGTH as int));
        } else {
            assert(ids@ =~= enc);
        }
    }
    ids
}

/// The punctuation whose document vectors are dropped.
pub open spec fn skip_words() -> Seq<Seq<char>> {
    seq![
        "!"@, "\""@, "#"@, "$"@, "%"@, "&"@, "'"@, "("@, ")"@, "*"@, "+"@, ","@, "-"@, "."@, "/"@, ":"@,
        ";"@, "<"@, "="@, ">"@, "?"@, "@"@, "["@, "\\"@, "]"@, "^"@, "_"@, "`"@, "{"@, "|"@, "}"@, "~"@,
    ]
}

/// The punctuation whose document vectors are dropped.
pub fn skip_word_list() -> (r: Vec<&'static str>)
    ensures
        r@.map_values(|w: &'static str| w@) == skip_words(),
{
    let mut r: Vec<&'static str> = Vec::new();
    r.push("!");
    r.push("\"");
    r.push("#");
    r.push("$");
    r.push("%");
    r.push("&");
    r.push("'");
    r.push("(");
    r.push(")");
    r.push("*");
    r.push("+");
    r.push(",");
    r.push("-");
    r.push(".");
    r.push("/");
    r.push(":");
    r.push(";");
    r.push("<");
    r.push("=");
    r.push(">");
    r.push("?");
    r.push("@");
    r.push("[");
    r.push("\\");
    r.push("]");
    r.push("^");
    r.push("_");
    r.push("`");
    r.push("{");
    r.push("|");
    r.push("}");
    r.push("~");
    assert(r@.map_values(|w: &'static str| w@) =~= skip_words());
    r
}

/// A character is the character of its code.
proof fn lemma_char_of_code(c: char, n: u32)
    requires
        c as u32 == n,
    ensures
        n as char == c,
{
}

/// ASCII punctuation: the printable ASCII characters that are neither letters, digits nor the
/// space (`!` to `/`, `:` to `@`, `[` to `` ` ``, `{` to `~`).
pub open spec fn is_ascii_punctuation(c: char) -> bool {
    let v = c as u32;
    (33 <= v <= 47) || (58 <= v <= 64) || (91 <= v <= 96) || (123 <= v <= 126)
}

/// The skip words are the 32 ASCII punctuation characters, each once: every one is a single
/// ASCII punctuation character, no two are the same, and every ASCII punctuation character is
/// one of them (so `?` is dropped as well as `!`).
pub proof fn lemma_skip_words_are_ascii_punctuation()
    ensures
        skip_words().len() == 32,
        forall|i: int|
            0 <= i < 32 ==> (#[trigger] skip_words()[i]).len() == 1 && is_ascii_punctuation(
                skip_words()[i][0],
            ),
        forall|i: int, j: int| 0 <= i < j < 32 ==> #[trigger] skip_words()[i] != #[trigger] skip_words()[j],
        forall|c: char| is_ascii_punctuation(c) ==> #[trigger] skip_words().contains(seq![c]),
{
    reveal_strlit("!");
    reveal_strlit("\"");
    reveal_strlit("#");
    reveal_strlit("$");
    reveal_strlit("%");
    reveal_strlit("&");
    reveal_strlit("'");
    reveal_strlit("(");
    reveal_strlit(")");
    reveal_strlit("*");
    reveal_strlit("+");
    reveal_strlit(",");
    reveal_strlit("-");
    reveal_strlit(".");
    reveal_strlit("/");
    reveal_strlit(":");
    reveal_strlit(";");
    reveal_strlit("<");
    reveal_strlit("=");
    reveal_strlit(">");
    reveal_strlit("?");
    reveal_strlit("@");
    reveal_strlit("[");
    reveal_strlit("\\");
    reveal_strlit("]");
    reveal_strlit("^");
    reveal_strlit("_");
    reveal_strlit("`");
    reveal_strlit("{");
    reveal_strlit("|");
    reveal_strlit("}");
    reveal_strlit("~");
    let w = skip_words();
    let code = |k: int|
        if k < 15 {
            33 + k
        } else if k < 22 {
            58 + (k - 15)
        } else if k < 28 {
            91 + (k - 22)
        } else {
            123 + (k - 28)
        };
    assert forall|i: int| 0 <= i < 32 implies #[trigger] w[i] =~= seq![(code(i) as u32) as char] by {
        assert(w[i].len() == 1);
    }
    assert forall|i: int| 0 <= i < 32 implies (#[trigger] w[i]).len() == 1 && is_ascii_punctuation(
        w[i][0],
    ) by {
        assert(w[i] =~= seq![(code(i) as u32) as char]);
    }
    assert forall|i: int, j: int| 0 <= i < j < 32 implies #[trigger] w[i] != #[trigger] w[j] by {
        assert(w[i] =~= seq![(code(i) as u32) as char]);
        assert(w[j] =~= seq![(code(j) as u32) as char]);
        assert(w[i][0] != w[j][0]);
    }
    assert forall|c: char| is_ascii_punctuation(c) implies #[trigger] w.contains(seq![c]) by {
        let v = c as u32 as int;
        let k = if v <= 47 {
            v - 33
        } else if v <= 64 {
            v - 58 + 15
        } else if v <= 96 {
            v - 91 + 22
        } else {
            v - 123 + 28
        };
        assert(w[k] =~= seq![(code(k) as u32) as char]);
        assert(code(k) == v);
        lemma_char_of_code(c, code(k) as u32);
        assert(w[k] =~= seq![c]);
    }
}

/// The ids of the words one after another, each encoded without BOS.
pub open spec fn words_ids(words: Seq<Seq<char>>, v: crate::bpe::Vocab) -> Seq<u32>
    decreases words.len(),
{
    if words.len() == 0 {
        Seq::empty()
    } else {
        words_ids(words.drop_last(), v) + encode_spec(words.last(), false, v)
    }
}

/// The ids whose document vectors are dropped: the punctuation words, each encoded without
/// BOS.
pub fn skiplist_ids(tok: &Tokenizer) -> (r: Vec<u32>)
    requires
        tok.wf(),
        specials_nonempty(tok@.specials),
    ensures
        r@ == words_ids(skip_words(), tok@),
{
    let words = skip_word_list();
    let ghost wv = words@.map_values(|w: &'static str| w@);
    let mut out: Vec<u32> = Vec::new();
    let mut i: usize = 0;
    assert(wv.take(0) =~= Seq::<Seq<char>>::empty());
    while i < words.len()
        invariant
            tok.wf(),
            specials_nonempty(tok@.specials),
            wv == words@.map_values(|w: &'static str| w@),
            i <= words@.len(),
            out@ == words_ids(wv.take(i as int), tok@),
        decreases words@.len() - i,
    {
        let mut ids = tok.encode(words[i], false);
        out.append(&mut ids);
        assert(wv.take(i + 1 as int).drop_last() =~= wv.take(i as int));
        i += 1;
    }
    assert(wv.take(i as int) =~= wv);
    out
}

/// The positions of `ids` that are kept: those whose id is not in `skip`.
pub open spec fn kept_positions(ids: Seq<u32>, skip: Seq<u32>) -> Seq<int>
    decreases ids.len(),
{
    if ids.len() == 0 {
        Seq::empty()
    } else {
        kept_positions(ids.drop_last(), skip) + if skip.contains(ids.last()) {
            Seq::empty()
        } else {
            seq![ids.len() - 1]
        }
    }
}

/// The rows of a document whose token is not in the skip list.
pub fn kept_rows(ids: &[u32], skip: &[u32]) -> (r: Vec<usize>)
    ensures
        r@.map_values(|i: usize| i as int) == kept_positions(ids@, skip@),
{
    let mut out: Vec<usize> = Vec::new();
    let mut i: usize = 0;
    assert(out@.map_values(|i: usize| i as int) =~= kept_positions(ids@.take(0), skip@));
    while i < ids.len()
        invariant
            i <= ids@.len(),
            out@.map_values(|i: usize| i as int) == kept_positions(ids@.take(i as int), skip@),
        decreases ids@.len() - i,
    {
        let id = ids[i];
        let mut found = false;
        let mut j: usize = 0;
        while j < skip.len() && !found
            invariant
                j <= skip@.len(),
                found ==> skip@.contains(id),
                !found ==> forall|k: int| 0 <= k < j ==> skip@[k] != id,
            decreases skip@.len() - j + (if found { 0int } else { 1int }),
        {
            if skip[j] == id {
                found = true;
            } else {
                j += 1;
            }
        }
        let ghost before = out@.map_values(|i: usize| i as int);
        assert(ids@.take(i + 1 as int).drop_last() =~= ids@.take(i as int));
        if !found {
            out.push(i);
            assert(out@.map_values(|i: usize| i as int) =~= before.push(i as int));
        }
        i += 1;
    }
    assert(ids@.take(i as int) =~= ids@);
    out
}

} // verus!
