//! Hardcoded architecture for LFM2.5-8B-A1B (Q4_K_M).
//!
//! The forward pass treats these as compile-time constants instead of parsing config at
//! runtime. [`validate_header`] and [`validate_schedule`] are cheap startup checks that the
//! loaded file actually matches, so that a wrong or updated file fails loudly instead of
//! silently producing garbage. (The two floating-point entries, `rope.freq_base` and
//! `attention.layer_norm_rms_epsilon`, are compared by the caller between the two checks.)

use vstd::prelude::*;

use crate::gguf::{meta_as_u32, meta_as_u32_array, GgufFile, Meta};

verus! {

pub const ARCH: &'static str = "lfm2moe";

/// `embedding_length`
pub const HIDDEN: usize = 2048;

/// `block_count`
pub const N_LAYERS: usize = 24;

pub const VOCAB: usize = 128000;

/// `attention.head_count`
pub const N_HEADS: usize = 32;

/// `attention.head_count_kv` on attention layers
pub const N_KV_HEADS: usize = 8;

pub const HEAD_DIM: usize = HIDDEN / N_HEADS;

pub const KV_DIM: usize = N_KV_HEADS * HEAD_DIM;

/// `feed_forward_length` (the leading dense layers)
pub const DENSE_FF: usize = 7168;

/// `expert_feed_forward_length`
pub const MOE_FF: usize = 1792;

/// `expert_count`
pub const N_EXPERTS: usize = 32;

/// `expert_used_count` (top-k)
pub const N_EXPERTS_USED: usize = 4;

/// `leading_dense_block_count`
pub const N_DENSE_LAYERS: usize = 2;

/// The short-convolution kernel size.
pub const CONV_L_CACHE: usize = 3;

/// 0-indexed layers using grouped-query attention; all others use the gated short conv.
pub const ATTENTION_LAYERS: [usize; 6] = [2, 6, 10, 14, 18, 21];

/// Whether layer `l` is one of [`ATTENTION_LAYERS`].
pub open spec fn attention_layer(l: int) -> bool {
    exists|i: int| 0 <= i < 6 && ATTENTION_LAYERS@[i] == l
}

/// Whether layer `layer`'s operator is attention (vs. the gated short convolution).
pub fn is_attention(layer: usize) -> (r: bool)
    ensures
        r == attention_layer(layer as int),
{
    let mut i: usize = 0;
    while i < 6
        invariant
            i <= 6,
            forall|j: int| 0 <= j < i ==> ATTENTION_LAYERS@[j] != layer,
        decreases 6 - i,
    {
        if ATTENTION_LAYERS[i] == layer {
            return true;
        }
        i += 1;
    }
    false
}

/// Whether layer `layer`'s FFN is a dense SwiGLU MLP (vs. the sparse MoE).
pub fn is_dense_ffn(layer: usize) -> (r: bool)
    ensures
        r == (layer < N_DENSE_LAYERS),
{
    layer < N_DENSE_LAYERS
}

/// The attention layers are listed in increasing order and all lie below [`N_LAYERS`], so
/// exactly six of the model's layers use attention.
pub proof fn lemma_attention_layers_in_range()
    ensures
        forall|i: int, j: int| 0 <= i < j < 6 ==> ATTENTION_LAYERS@[i] < ATTENTION_LAYERS@[j],
        forall|i: int| 0 <= i < 6 ==> ATTENTION_LAYERS@[i] < N_LAYERS,
        forall|l: int| attention_layer(l) ==> N_DENSE_LAYERS <= l < N_LAYERS,
{
    assert(ATTENTION_LAYERS@ =~= seq![2usize, 6, 10, 14, 18, 21]);
}

/// The attention layers, listed.
pub proof fn lemma_attention_layer_iff(l: int)
    ensures
        attention_layer(l) <==> (l == 2 || l == 6 || l == 10 || l == 14 || l == 18 || l == 21),
{
    assert(ATTENTION_LAYERS@ =~= seq![2usize, 6, 10, 14, 18, 21]);
    if l == 2 || l == 6 || l == 10 || l == 14 || l == 18 || l == 21 {
        let i: int = if l == 2 {
            0
        } else if l == 6 {
            1
        } else if l == 10 {
            2
        } else if l == 14 {
            3
        } else if l == 18 {
            4
        } else {
            5
        };
        assert(ATTENTION_LAYERS@[i] == l);
    }
}

/// The per-layer `head_count_kv` the file must carry: [`N_KV_HEADS`] on attention layers and
/// 0 on convolution layers.
pub open spec fn expected_kv_heads(l: int) -> u32 {
    if attention_layer(l) {
        N_KV_HEADS as u32
    } else {
        0
    }
}

/// Why a file's metadata does not match the hardcoded architecture.
#[derive(Debug)]
pub enum MetadataError {
    MissingArchitecture,
    WrongArchitecture { got: String },
    /// The key is absent or does not hold an integer.
    MissingKey { key: String },
    Mismatch { key: String, expected: u32, got: u32 },
    /// The per-layer kv-head entry is absent or not an integer array.
    MissingKvHeads,
    KvHeadsLength { len: usize },
    Schedule { layer: usize, got: u32, expected: u32 },
    /// The encoder's attention is marked causal (or not marked at all).
    CausalAttention,
    /// The key holds another string.
    StrMismatch { key: String, expected: String, got: String },
}

/// A metadata mismatch as plain values.
pub enum MetadataFailure {
    MissingArchitecture,
    WrongArchitecture(Seq<char>),
    MissingKey(Seq<char>),
    Mismatch(Seq<char>, u32, u32),
    MissingKvHeads,
    KvHeadsLength(int),
    Schedule(int, u32, u32),
    CausalAttention,
    StrMismatch(Seq<char>, Seq<char>, Seq<char>),
}

impl View for MetadataError {
    type V = MetadataFailure;

    open spec fn view(&self) -> MetadataFailure {
        match self {
            MetadataError::MissingArchitecture => MetadataFailure::MissingArchitecture,
            MetadataError::WrongArchitecture { got } => MetadataFailure::WrongArchitecture(got@),
            MetadataError::MissingKey { key } => MetadataFailure::MissingKey(key@),
            MetadataError::Mismatch { key, expected, got } => MetadataFailure::Mismatch(
                key@,
                *expected,
                *got,
            ),
            MetadataError::MissingKvHeads => MetadataFailure::MissingKvHeads,
            MetadataError::KvHeadsLength { len } => MetadataFailure::KvHeadsLength(*len as int),
            MetadataError::Schedule { layer, got, expected } => MetadataFailure::Schedule(
                *layer as int,
                *got,
                *expected,
            ),
            MetadataError::CausalAttention => MetadataFailure::CausalAttention,
            MetadataError::StrMismatch { key, expected, got } => MetadataFailure::StrMismatch(
                key@,
                expected@,
                got@,
            ),
        }
    }
}

/// `a` when it is a failure, else `b`.
pub open spec fn or_else(a: Option<MetadataFailure>, b: Option<MetadataFailure>) -> Option<
    MetadataFailure,
> {
    if a is Some {
        a
    } else {
        b
    }
}

/// The architecture check: `general.architecture` must be the string `want`.
pub open spec fn architecture_failure(g: GgufFile, want: Seq<char>) -> Option<MetadataFailure> {
    match g.meta_get("general.architecture"@) {
        Some(Meta::Str(a)) => {
            if a == want {
                None
            } else {
                Some(MetadataFailure::WrongArchitecture(a))
            }
        },
        _ => Some(MetadataFailure::MissingArchitecture),
    }
}

/// The check that `key` holds the integer `want`.
pub open spec fn u32_failure(g: GgufFile, key: Seq<char>, want: u32) -> Option<MetadataFailure> {
    match g.meta_get(key) {
        Some(m) => match meta_as_u32(m) {
            Some(v) => {
                if v == want {
                    None
                } else {
                    Some(MetadataFailure::Mismatch(key, want, v))
                }
            },
            None => Some(MetadataFailure::MissingKey(key)),
        },
        None => Some(MetadataFailure::MissingKey(key)),
    }
}

/// The architecture and integer checks, in order; the first failure wins.
pub open spec fn header_failure(g: GgufFile) -> Option<MetadataFailure> {
    or_else(
        architecture_failure(g, ARCH@),
        or_else(
            u32_failure(g, "lfm2moe.block_count"@, N_LAYERS as u32),
            or_else(
                u32_failure(g, "lfm2moe.embedding_length"@, HIDDEN as u32),
                or_else(
                    u32_failure(g, "lfm2moe.vocab_size"@, VOCAB as u32),
                    or_else(
                        u32_failure(g, "lfm2moe.attention.head_count"@, N_HEADS as u32),
                        or_else(
                            u32_failure(g, "lfm2moe.expert_count"@, N_EXPERTS as u32),
                            or_else(
                                u32_failure(g, "lfm2moe.expert_used_count"@, N_EXPERTS_USED as u32),
                                or_else(
                                    u32_failure(g, "lfm2moe.feed_forward_length"@, DENSE_FF as u32),
                                    or_else(
                                        u32_failure(
                                            g,
                                            "lfm2moe.expert_feed_forward_length"@,
                                            MOE_FF as u32,
                                        ),
                                        or_else(
                                            u32_failure(
                                                g,
                                                "lfm2moe.leading_dense_block_count"@,
                                                N_DENSE_LAYERS as u32,
                                            ),
                                            u32_failure(
                                                g,
                                                "lfm2moe.shortconv.l_cache"@,
                                                CONV_L_CACHE as u32,
                                            ),
                                        ),
                                    ),
                                ),
                            ),
                        ),
                    ),
                ),
            ),
        ),
    )
}

/// The first layer from `i` on whose kv-head count differs from the schedule.
pub open spec fn schedule_mismatch(kv: Seq<u32>, i: int) -> Option<MetadataFailure>
    decreases kv.len() - i,
{
    if i < 0 || i >= kv.len() {
        None
    } else if kv[i] != expected_kv_heads(i) {
        Some(MetadataFailure::Schedule(i, kv[i], expected_kv_heads(i)))
    } else {
        schedule_mismatch(kv, i + 1)
    }
}

/// The schedule check: `attention.head_count_kv` must be an integer array with one entry per
/// layer, each equal to [`expected_kv_heads`].
pub open spec fn schedule_failure(g: GgufFile) -> Option<MetadataFailure> {
    match g.meta_get("lfm2moe.attention.head_count_kv"@) {
        Some(m) => match meta_as_u32_array(m) {
            Some(kv) => {
                if kv.len() != N_LAYERS {
                    Some(MetadataFailure::KvHeadsLength(kv.len() as int))
                } else {
                    schedule_mismatch(kv, 0)
                }
            },
            None => Some(MetadataFailure::MissingKvHeads),
        },
        None => Some(MetadataFailure::MissingKvHeads),
    }
}

/// Checks that `general.architecture` is `want`.
pub fn expect_architecture(g: &GgufFile, want: &str) -> (r: Result<(), MetadataError>)
    ensures
        match r {
            Ok(()) => architecture_failure(*g, want@) is None,
            Err(e) => architecture_failure(*g, want@) == Some(e@),
        },
{
    match g.architecture() {
        None => Err(MetadataError::MissingArchitecture),
        Some(a) => {
            if crate::text::str_eq(a, want) {
                Ok(())
            } else {
                Err(MetadataError::WrongArchitecture { got: a.to_owned() })
            }
        },
    }
}

/// Checks that `key` holds the integer `want` (any integer type, converted to `u32`).
pub fn expect_u32(g: &GgufFile, key: &str, want: u32) -> (r: Result<(), MetadataError>)
    ensures
        match r {
            Ok(()) => u32_failure(*g, key@, want) is None,
            Err(e) => u32_failure(*g, key@, want) == Some(e@),
        },
{
    match g.get_u32(key) {
        None => Err(MetadataError::MissingKey { key: key.to_owned() }),
        Some(got) => {
            if got == want {
                Ok(())
            } else {
                Err(MetadataError::Mismatch { key: key.to_owned(), expected: want, got })
            }
        },
    }
}

/// Checks the architecture name and the integer hyperparameters against the constants.
pub fn validate_header(g: &GgufFile) -> (r: Result<(), MetadataError>)
    ensures
        match r {
            Ok(()) => header_failure(*g) is None,
            Err(e) => header_failure(*g) == Some(e@),
        },
{
    expect_architecture(g, ARCH)?;
    expect_u32(g, "lfm2moe.block_count", N_LAYERS as u32)?;
    expect_u32(g, "lfm2moe.embedding_length", HIDDEN as u32)?;
    expect_u32(g, "lfm2moe.vocab_size", VOCAB as u32)?;
    expect_u32(g, "lfm2moe.attention.head_count", N_HEADS as u32)?;
    expect_u32(g, "lfm2moe.expert_count", N_EXPERTS as u32)?;
    expect_u32(g, "lfm2moe.expert_used_count", N_EXPERTS_USED as u32)?;
    expect_u32(g, "lfm2moe.feed_forward_length", DENSE_FF as u32)?;
    expect_u32(g, "lfm2moe.expert_feed_forward_length", MOE_FF as u32)?;
    expect_u32(g, "lfm2moe.leading_dense_block_count", N_DENSE_LAYERS as u32)?;
    expect_u32(g, "lfm2moe.shortconv.l_cache", CONV_L_CACHE as u32)?;
    Ok(())
}

/// Checks the per-layer kv-head array, which encodes the conv/attention schedule, against
/// [`ATTENTION_LAYERS`].
pub fn validate_schedule(g: &GgufFile) -> (r: Result<(), MetadataError>)
    ensures
        match r {
            Ok(()) => schedule_failure(*g) is None,
            Err(e) => schedule_failure(*g) == Some(e@),
        },
{
    let kv = match g.get_u32_array("lfm2moe.attention.head_count_kv") {
        Some(kv) => kv,
        None => return Err(MetadataError::MissingKvHeads),
    };
    if kv.len() != N_LAYERS {
        return Err(MetadataError::KvHeadsLength { len: kv.len() });
    }
    let mut i: usize = 0;
    while i < kv.len()
        invariant
            i <= kv@.len(),
            schedule_failure(*g) == schedule_mismatch(kv@, i as int),
        decreases kv@.len() - i,
    {
        let want: u32 = if is_attention(i) {
            N_KV_HEADS as u32
        } else {
            0
        };
        if kv[i] != want {
            return Err(MetadataError::Schedule { layer: i, got: kv[i], expected: want });
        }
        i += 1;
    }
    Ok(())
}

/// A file passes the schedule check exactly when its per-layer kv-head array is the
/// schedule [`expected_kv_heads`] for all [`N_LAYERS`] layers.
pub proof fn lemma_schedule_accepts_exactly_the_schedule(g: GgufFile)
    ensures
        schedule_failure(g) is None <==> (g.meta_get("lfm2moe.attention.head_count_kv"@) matches Some(
            m,
        ) && meta_as_u32_array(m) == Some(
            Seq::new(N_LAYERS as nat, |l: int| expected_kv_heads(l)),
        )),
{
    let want = Seq::new(N_LAYERS as nat, |l: int| expected_kv_heads(l));
    match g.meta_get("lfm2moe.attention.head_count_kv"@) {
        Some(m) => match meta_as_u32_array(m) {
            Some(kv) => {
                if kv.len() == N_LAYERS {
                    lemma_schedule_mismatch_none(kv, 0);
                    if schedule_mismatch(kv, 0) is None {
                        assert(kv =~= want);
                    }
                }
            },
            None => {},
        },
        None => {},
    }
}

/// No mismatch from `i` on exactly when every later entry follows the schedule.
proof fn lemma_schedule_mismatch_none(kv: Seq<u32>, i: int)
    requires
        0 <= i <= kv.len(),
    ensures
        schedule_mismatch(kv, i) is None <==> forall|j: int|
            i <= j < kv.len() ==> kv[j] == expected_kv_heads(j),
    decreases kv.len() - i,
{
    if i < kv.len() {
        lemma_schedule_mismatch_none(kv, i + 1);
    }
}

} // verus!
