//! The EmbeddingGemma-300M encoder profile: its constants, its tensor contract, its
//! local/global attention schedule and the check that a loaded file matches it.

use vstd::prelude::*;

use crate::config::{expect_u32, or_else, u32_failure, MetadataError, MetadataFailure};
use crate::gguf::{GgufFile, Meta};
use crate::model::{entries_view, layer_name, push_entry, Entry};
use crate::text::{decimal, push_decimal};

verus! {

pub const ARCHITECTURE: &'static str = "gemma-embedding";

pub const CONTEXT_LENGTH: usize = 2048;

pub const HIDDEN: usize = 768;

pub const N_LAYERS: usize = 24;

pub const N_HEADS: usize = 3;

pub const N_KV_HEADS: usize = 1;

pub const HEAD_DIM: usize = 256;

pub const KV_DIM: usize = 256;

pub const FEED_FORWARD: usize = 1152;

pub const DENSE_HIDDEN: usize = 3072;

pub const VOCAB: usize = 262144;

pub const SLIDING_WINDOW: usize = 512;

/// The Matryoshka output widths, widest first.
pub const EMBEDDING_DIMENSIONS: [usize; 4] = [768, 512, 256, 128];

/// Bound on packed inference scratch space while amortizing each matrix read across short
/// texts.
pub const BATCH_TOKEN_BUDGET: usize = 512;

/// `"blk.{layer}.{suffix}"` — a per-layer tensor name.
pub fn name(layer: usize, suffix: &str) -> (s: String)
    ensures
        s@ == layer_name(layer as nat, "."@ + suffix@),
{
    crate::model::name(layer, suffix)
}

/// Five of every six layers attend within a sliding window; every sixth attends globally.
pub fn is_local_attention(layer: usize) -> (r: bool)
    ensures
        r == (layer % 6 < 5),
{
    layer % 6 < 5
}

/// The half-open range of positions that position `position` attends to among `n_tokens`:
/// all of them for a global layer, else the window of [`SLIDING_WINDOW`] / 2 positions on
/// either side, clipped to the sequence.
pub open spec fn attention_span_spec(position: int, n_tokens: int, local: bool) -> (int, int) {
    if !local {
        (0, n_tokens)
    } else {
        let half = (SLIDING_WINDOW / 2) as int;
        (
            if position >= half {
                position - half
            } else {
                0
            },
            if position + half + 1 <= n_tokens {
                position + half + 1
            } else {
                n_tokens
            },
        )
    }
}

/// The positions `position` attends to, as a half-open range.
pub fn attention_span(position: usize, n_tokens: usize, local: bool) -> (r: (usize, usize))
    requires
        position + SLIDING_WINDOW / 2 + 1 <= usize::MAX,
    ensures
        (r.0 as int, r.1 as int) == attention_span_spec(position as int, n_tokens as int, local),
{
    if !local {
        return (0, n_tokens);
    }
    let half_window = SLIDING_WINDOW / 2;
    let lo = position.saturating_sub(half_window);
    let end = position + half_window + 1;
    let hi = if end < n_tokens {
        end
    } else {
        n_tokens
    };
    (lo, hi)
}

/// The local window is symmetric: `j` is in the window of `i` exactly when `i` is in the
/// window of `j` (for positions inside the sequence), and the window pattern repeats every
/// six layers.
pub proof fn lemma_local_window_is_symmetric(i: int, j: int, n: int, layer: nat)
    requires
        0 <= i < n,
        0 <= j < n,
    ensures
        ({
            let (a, b) = attention_span_spec(i, n, true);
            let (c, d) = attention_span_spec(j, n, true);
            (a <= j < b) <==> (c <= i < d)
        }),
        (layer % 6 < 5) == ((layer + 6) % 6 < 5),
{
}

/// The tensors of layer `i`.
pub open spec fn gemma_layer(i: nat) -> Seq<Entry> {
    let hidden = HIDDEN as u64;
    let head = HEAD_DIM as u64;
    let ff = FEED_FORWARD as u64;
    seq![
        (layer_name(i, ".attn_k.weight"@), seq![hidden, head]),
        (layer_name(i, ".attn_k_norm.weight"@), seq![head]),
        (layer_name(i, ".attn_norm.weight"@), seq![hidden]),
        (layer_name(i, ".attn_output.weight"@), seq![hidden, hidden]),
        (layer_name(i, ".attn_q.weight"@), seq![hidden, hidden]),
        (layer_name(i, ".attn_q_norm.weight"@), seq![head]),
        (layer_name(i, ".attn_v.weight"@), seq![hidden, head]),
        (layer_name(i, ".ffn_down.weight"@), seq![ff, hidden]),
        (layer_name(i, ".ffn_gate.weight"@), seq![hidden, ff]),
        (layer_name(i, ".ffn_norm.weight"@), seq![hidden]),
        (layer_name(i, ".ffn_up.weight"@), seq![hidden, ff]),
        (layer_name(i, ".post_attention_norm.weight"@), seq![hidden]),
        (layer_name(i, ".post_ffw_norm.weight"@), seq![hidden]),
    ]
}

/// The tensors of layers `0..n`, in order.
pub open spec fn gemma_layers(n: nat) -> Seq<Entry>
    decreases n,
{
    if n == 0 {
        Seq::empty()
    } else {
        gemma_layers((n - 1) as nat) + gemma_layer((n - 1) as nat)
    }
}

/// The full tensor contract of the encoder.
pub open spec fn gemma_tensors() -> Seq<Entry> {
    seq![
        ("dense_2.weight"@, seq![HIDDEN as u64, DENSE_HIDDEN as u64]),
        ("dense_3.weight"@, seq![DENSE_HIDDEN as u64, HIDDEN as u64]),
        ("output_norm.weight"@, seq![HIDDEN as u64]),
        ("token_embd.weight"@, seq![HIDDEN as u64, VOCAB as u64]),
    ] + gemma_layers(N_LAYERS as nat)
}

fn push_layer(v: &mut Vec<(String, Vec<u64>)>, i: usize)
    requires
        i < N_LAYERS,
    ensures
        entries_view(final(v)@) == entries_view(old(v)@) + gemma_layer(i as nat),
{
    let hidden = HIDDEN as u64;
    let head = HEAD_DIM as u64;
    let ff = FEED_FORWARD as u64;
    let mut p = String::new();
    p.append("blk.");
    push_decimal(&mut p, i as u64);
    assert(p@ =~= "blk."@ + decimal(i as nat));
    let ghost v0 = entries_view(v@);
    push_entry(v, &p, ".attn_k.weight", vec![hidden, head]);
    push_entry(v, &p, ".attn_k_norm.weight", vec![head]);
    push_entry(v, &p, ".attn_norm.weight", vec![hidden]);
    push_entry(v, &p, ".attn_output.weight", vec![hidden, hidden]);
    push_entry(v, &p, ".attn_q.weight", vec![hidden, hidden]);
    push_entry(v, &p, ".attn_q_norm.weight", vec![head]);
    push_entry(v, &p, ".attn_v.weight", vec![hidden, head]);
    push_entry(v, &p, ".ffn_down.weight", vec![ff, hidden]);
    push_entry(v, &p, ".ffn_gate.weight", vec![hidden, ff]);
    push_entry(v, &p, ".ffn_norm.weight", vec![hidden]);
    push_entry(v, &p, ".ffn_up.weight", vec![hidden, ff]);
    push_entry(v, &p, ".post_attention_norm.weight", vec![hidden]);
    push_entry(v, &p, ".post_ffw_norm.weight", vec![hidden]);
    assert(entries_view(v@) =~~= v0 + gemma_layer(i as nat));
}

/// The full list of `(name, shape)` the encoder depends on.
pub fn expected_tensors() -> (v: Vec<(String, Vec<u64>)>)
    ensures
        entries_view(v@) == gemma_tensors(),
{
    let hidden = HIDDEN as u64;
    let mut v: Vec<(String, Vec<u64>)> = Vec::new();
    let e = String::new();
    assert(e@ + "dense_2.weight"@ =~= "dense_2.weight"@);
    assert(e@ + "dense_3.weight"@ =~= "dense_3.weight"@);
    assert(e@ + "output_norm.weight"@ =~= "output_norm.weight"@);
    assert(e@ + "token_embd.weight"@ =~= "token_embd.weight"@);
    push_entry(&mut v, &e, "dense_2.weight", vec![hidden, DENSE_HIDDEN as u64]);
    push_entry(&mut v, &e, "dense_3.weight", vec![DENSE_HIDDEN as u64, hidden]);
    push_entry(&mut v, &e, "output_norm.weight", vec![hidden]);
    push_entry(&mut v, &e, "token_embd.weight", vec![hidden, VOCAB as u64]);
    let ghost head = entries_view(v@);
    assert(head =~~= seq![
        ("dense_2.weight"@, seq![HIDDEN as u64, DENSE_HIDDEN as u64]),
        ("dense_3.weight"@, seq![DENSE_HIDDEN as u64, HIDDEN as u64]),
        ("output_norm.weight"@, seq![HIDDEN as u64]),
        ("token_embd.weight"@, seq![HIDDEN as u64, VOCAB as u64]),
    ]);
    let mut i: usize = 0;
    while i < N_LAYERS
        invariant
            i <= N_LAYERS,
            entries_view(v@) == head + gemma_layers(i as nat),
        decreases N_LAYERS - i,
    {
        push_layer(&mut v, i);
        i += 1;
        assert(entries_view(v@) =~= head + gemma_layers(i as nat));
    }
    v
}

/// The check that `key` holds the string `want`.
pub open spec fn str_failure(g: GgufFile, key: Seq<char>, want: Seq<char>) -> Option<MetadataFailure> {
    match g.meta_get(key) {
        Some(Meta::Str(a)) => {
            if a == want {
                None
            } else {
                Some(MetadataFailure::StrMismatch(key, want, a))
            }
        },
        _ => Some(MetadataFailure::MissingKey(key)),
    }
}

/// Checks that `key` holds the string `want`.
pub fn expect_str(g: &GgufFile, key: &str, want: &str) -> (r: Result<(), MetadataError>)
    ensures
        match r {
            Ok(()) => str_failure(*g, key@, want@) is None,
            Err(e) => str_failure(*g, key@, want@) == Some(e@),
        },
{
    match g.get_str(key) {
        None => Err(MetadataError::MissingKey { key: key.to_owned() }),
        Some(a) => {
            if crate::text::str_eq(a, want) {
                Ok(())
            } else {
                Err(
                    MetadataError::StrMismatch {
                        key: key.to_owned(),
                        expected: want.to_owned(),
                        got: a.to_owned(),
                    },
                )
            }
        },
    }
}

/// The architecture and integer checks, in order; the first failure wins.
pub open spec fn metadata_failure(g: GgufFile) -> Option<MetadataFailure> {
    or_else(
        str_failure(g, "general.architecture"@, ARCHITECTURE@),
        or_else(
            u32_failure(g, "gemma-embedding.block_count"@, N_LAYERS as u32),
            or_else(
                u32_failure(g, "gemma-embedding.context_length"@, CONTEXT_LENGTH as u32),
                or_else(
                    u32_failure(g, "gemma-embedding.embedding_length"@, HIDDEN as u32),
                    or_else(
                        u32_failure(g, "gemma-embedding.feed_forward_length"@, FEED_FORWARD as u32),
                        or_else(
                            u32_failure(g, "gemma-embedding.attention.head_count"@, N_HEADS as u32),
                            or_else(
                                u32_failure(
                                    g,
                                    "gemma-embedding.attention.head_count_kv"@,
                                    N_KV_HEADS as u32,
                                ),
                                or_else(
                                    u32_failure(
                                        g,
                                        "gemma-embedding.attention.key_length"@,
                                        HEAD_DIM as u32,
                                    ),
                                    or_else(
                                        u32_failure(
                                            g,
                                            "gemma-embedding.attention.value_length"@,
                                            HEAD_DIM as u32,
                                        ),
                                        or_else(
                                            u32_failure(
                                                g,
                                                "gemma-embedding.attention.sliding_window"@,
                                                SLIDING_WINDOW as u32,
                                            ),
                                            or_else(
                                                u32_failure(
                                                    g,
                                                    "gemma-embedding.dense_2_feat_in"@,
                                                    HIDDEN as u32,
                                                ),
                                                or_else(
                                                    u32_failure(
                                                        g,
                                                        "gemma-embedding.dense_2_feat_out"@,
                                                        DENSE_HIDDEN as u32,
                                                    ),
                                                    or_else(
                                                        u32_failure(
                                                            g,
                                                            "gemma-embedding.dense_3_feat_in"@,
                                                            DENSE_HIDDEN as u32,
                                                        ),
                                                        or_else(
                                                            u32_failure(
                                                                g,
                                                                "gemma-embedding.dense_3_feat_out"@,
                                                                HIDDEN as u32,
                                                            ),
                                                            u32_failure(
                                                                g,
                                                                "gemma-embedding.pooling_type"@,
                                                                1,
                                                            ),
                                                        ),
                                                    ),
                                                ),
                                            ),
                                        ),
                                    ),
                                ),
                            ),
                        ),
                    ),
                ),
            ),
        ),
    )
}

/// Checks the architecture name and the integer hyperparameters (mean pooling included);
/// the three floating-point entries that follow them are compared by the caller.
pub fn validate_metadata(g: &GgufFile) -> (r: Result<(), MetadataError>)
    ensures
        match r {
            Ok(()) => metadata_failure(*g) is None,
            Err(e) => metadata_failure(*g) == Some(e@),
        },
{
    expect_str(g, "general.architecture", ARCHITECTURE)?;
    expect_u32(g, "gemma-embedding.block_count", N_LAYERS as u32)?;
    expect_u32(g, "gemma-embedding.context_length", CONTEXT_LENGTH as u32)?;
    expect_u32(g, "gemma-embedding.embedding_length", HIDDEN as u32)?;
    expect_u32(g, "gemma-embedding.feed_forward_length", FEED_FORWARD as u32)?;
    expect_u32(g, "gemma-embedding.attention.head_count", N_HEADS as u32)?;
    expect_u32(g, "gemma-embedding.attention.head_count_kv", N_KV_HEADS as u32)?;
    expect_u32(g, "gemma-embedding.attention.key_length", HEAD_DIM as u32)?;
    expect_u32(g, "gemma-embedding.attention.value_length", HEAD_DIM as u32)?;
    expect_u32(g, "gemma-embedding.attention.sliding_window", SLIDING_WINDOW as u32)?;
    expect_u32(g, "gemma-embedding.dense_2_feat_in", HIDDEN as u32)?;
    expect_u32(g, "gemma-embedding.dense_2_feat_out", DENSE_HIDDEN as u32)?;
    expect_u32(g, "gemma-embedding.dense_3_feat_in", DENSE_HIDDEN as u32)?;
    expect_u32(g, "gemma-embedding.dense_3_feat_out", HIDDEN as u32)?;
    expect_u32(g, "gemma-embedding.pooling_type", 1)?;
    Ok(())
}

} // verus!
