//! The tensor contract of the LFM2.5-8B-A1B forward pass, and the per-weight helpers of the
//! loader that depend only on tensor types and shapes.

use vstd::prelude::*;

use crate::config::{
    attention_layer, CONV_L_CACHE, DENSE_FF, HEAD_DIM, HIDDEN, KV_DIM, MOE_FF, N_DENSE_LAYERS,
    N_EXPERTS, N_LAYERS, VOCAB,
};
use crate::bpe::{token_entries, vocab_map};
use crate::dequant::supports;
use crate::gguf::{TensorInfo, TensorModel};
use crate::index::StrIndex;
use crate::tensor::{block_of, GgmlType};
use crate::text::{decimal, push_decimal};
use crate::tokenizer::strings_view;

verus! {

/// A tensor name and its shape, as plain values.
pub type Entry = (Seq<char>, Seq<u64>);

/// `"blk.{layer}"` followed by `rest`: a per-layer tensor name.
pub open spec fn layer_name(layer: nat, rest: Seq<char>) -> Seq<char> {
    "blk."@ + decimal(layer) + rest
}

/// `"blk.{layer}.{suffix}"` — a per-layer tensor name.
pub fn name(layer: usize, suffix: &str) -> (s: String)
    ensures
        s@ == layer_name(layer as nat, "."@ + suffix@),
{
    let mut s = String::new();
    s.append("blk.");
    push_decimal(&mut s, layer as u64);
    s.append(".");
    s.append(suffix);
    assert(s@ =~= layer_name(layer as nat, "."@ + suffix@));
    s
}

/// Whether a weight type takes the integer dot product against Q8-quantized activations
/// (so a shared input is quantized once up front). The K-quants do; F32/F16 don't.
pub fn is_q8_int(dtype: GgmlType) -> (r: bool)
    ensures
        r == (dtype == GgmlType::Q4_K || dtype == GgmlType::Q6_K),
{
    match dtype {
        GgmlType::Q4_K | GgmlType::Q6_K => true,
        _ => false,
    }
}

/// The byte size of one expert's `[n_in, n_out]` slice of a stacked
/// `[n_in, n_out, n_experts]` weight of the given type.
pub open spec fn expert_bytes_spec(dtype: GgmlType, n_in: int, n_out: int) -> int {
    let (e, b) = block_of(dtype).unwrap();
    n_out * (n_in / (e as int)) * (b as int)
}

/// Byte size of one expert's `[n_in, n_out]` weight matrix within a stacked
/// `[n_in, n_out, n_experts]` tensor of the given type.
pub fn expert_bytes(dtype: GgmlType, n_in: usize, n_out: usize) -> (r: usize)
    requires
        block_of(dtype) is Some,
        expert_bytes_spec(dtype, n_in as int, n_out as int) <= usize::MAX,
    ensures
        r == expert_bytes_spec(dtype, n_in as int, n_out as int),
{
    let (blk_elems, blk_bytes) = match dtype.block() {
        Some(b) => b,
        None => (1, 1),
    };
    let e = blk_elems as usize;
    let b = blk_bytes as usize;
    let per_row = n_in / e;
    proof {
        let x = n_out as int;
        let y = per_row as int;
        let z = b as int;
        assert(x * y <= x * y * z || x * y == 0) by (nonlinear_arith)
            requires
                x >= 0,
                y >= 0,
                z >= 1,
        ;
        assert(x * y <= usize::MAX) by (nonlinear_arith)
            requires
                x * y * z <= usize::MAX,
                x >= 0,
                y >= 0,
                z >= 1,
        ;
    }
    n_out * per_row * b
}

/// Names and shapes as plain values.
pub open spec fn entries_view(v: Seq<(String, Vec<u64>)>) -> Seq<Entry> {
    v.map_values(|e: (String, Vec<u64>)| (e.0@, e.1@))
}

/// The tensors of layer `i`: the two norms; the attention or short-conv operator; the dense
/// or mixture-of-experts FFN.
pub open spec fn lfm_layer(i: nat) -> Seq<Entry> {
    let h = HIDDEN as u64;
    let kv = KV_DIM as u64;
    let ff = MOE_FF as u64;
    let e = N_EXPERTS as u64;
    let norms = seq![
        (layer_name(i, ".attn_norm.weight"@), seq![h]),
        (layer_name(i, ".ffn_norm.weight"@), seq![h]),
    ];
    let op = if attention_layer(i as int) {
        seq![
            (layer_name(i, ".attn_q.weight"@), seq![h, h]),
            (layer_name(i, ".attn_k.weight"@), seq![h, kv]),
            (layer_name(i, ".attn_v.weight"@), seq![h, kv]),
            (layer_name(i, ".attn_output.weight"@), seq![h, h]),
            (layer_name(i, ".attn_q_norm.weight"@), seq![HEAD_DIM as u64]),
            (layer_name(i, ".attn_k_norm.weight"@), seq![HEAD_DIM as u64]),
        ]
    } else {
        seq![
            (layer_name(i, ".shortconv.in_proj.weight"@), seq![h, (3 * h) as u64]),
            (layer_name(i, ".shortconv.conv.weight"@), seq![CONV_L_CACHE as u64, h]),
            (layer_name(i, ".shortconv.out_proj.weight"@), seq![h, h]),
        ]
    };
    let ffn = if i < N_DENSE_LAYERS {
        seq![
            (layer_name(i, ".ffn_gate.weight"@), seq![h, DENSE_FF as u64]),
            (layer_name(i, ".ffn_up.weight"@), seq![h, DENSE_FF as u64]),
            (layer_name(i, ".ffn_down.weight"@), seq![DENSE_FF as u64, h]),
        ]
    } else {
        seq![
            (layer_name(i, ".ffn_gate_inp.weight"@), seq![h, e]),
            (layer_name(i, ".exp_probs_b.bias"@), seq![e]),
            (layer_name(i, ".ffn_gate_exps.weight"@), seq![h, ff, e]),
            (layer_name(i, ".ffn_up_exps.weight"@), seq![h, ff, e]),
            (layer_name(i, ".ffn_down_exps.weight"@), seq![ff, h, e]),
        ]
    };
    norms + op + ffn
}

/// The tensors of layers `0..n`, in order.
pub open spec fn lfm_layers(n: nat) -> Seq<Entry>
    decreases n,
{
    if n == 0 {
        Seq::empty()
    } else {
        lfm_layers((n - 1) as nat) + lfm_layer((n - 1) as nat)
    }
}

/// The full list of `(name, shape)` the forward pass depends on. GGUF dims are `[in, out]`
/// for a `y = W·x` weight.
pub open spec fn lfm_tensors() -> Seq<Entry> {
    seq![
        ("token_embd.weight"@, seq![HIDDEN as u64, VOCAB as u64]),
        ("token_embd_norm.weight"@, seq![HIDDEN as u64]),
    ] + lfm_layers(N_LAYERS as nat)
}

/// Appends `(prefix + rest, shape)`.
pub(crate) fn push_entry(v: &mut Vec<(String, Vec<u64>)>, prefix: &String, rest: &str, shape: Vec<u64>)
    ensures
        entries_view(final(v)@) == entries_view(old(v)@).push((prefix@ + rest@, shape@)),
{
    let mut n = prefix.clone();
    n.append(rest);
    v.push((n, shape));
    assert(entries_view(final(v)@) =~= entries_view(old(v)@).push((prefix@ + rest@, shape@)));
}

/// The tensors of one layer, appended in order.
fn push_layer(v: &mut Vec<(String, Vec<u64>)>, i: usize)
    requires
        i < N_LAYERS,
    ensures
        entries_view(final(v)@) == entries_view(old(v)@) + lfm_layer(i as nat),
{
    let h = HIDDEN as u64;
    let mut p = String::new();
    p.append("blk.");
    push_decimal(&mut p, i as u64);
    assert(p@ =~= "blk."@ + decimal(i as nat));
    let ghost v0 = entries_view(v@);
    push_entry(v, &p, ".attn_norm.weight", vec![h]);
    push_entry(v, &p, ".ffn_norm.weight", vec![h]);
    let ghost v1 = entries_view(v@);
    if crate::config::is_attention(i) {
        let kv = KV_DIM as u64;
        push_entry(v, &p, ".attn_q.weight", vec![h, h]);
        push_entry(v, &p, ".attn_k.weight", vec![h, kv]);
        push_entry(v, &p, ".attn_v.weight", vec![h, kv]);
        push_entry(v, &p, ".attn_output.weight", vec![h, h]);
        push_entry(v, &p, ".attn_q_norm.weight", vec![HEAD_DIM as u64]);
        push_entry(v, &p, ".attn_k_norm.weight", vec![HEAD_DIM as u64]);
    } else {
        push_entry(v, &p, ".shortconv.in_proj.weight", vec![h, 3 * h]);
        push_entry(v, &p, ".shortconv.conv.weight", vec![CONV_L_CACHE as u64, h]);
        push_entry(v, &p, ".shortconv.out_proj.weight", vec![h, h]);
    }
    let ghost v2 = entries_view(v@);
    if crate::config::is_dense_ffn(i) {
        push_entry(v, &p, ".ffn_gate.weight", vec![h, DENSE_FF as u64]);
        push_entry(v, &p, ".ffn_up.weight", vec![h, DENSE_FF as u64]);
        push_entry(v, &p, ".ffn_down.weight", vec![DENSE_FF as u64, h]);
    } else {
        let ff = MOE_FF as u64;
        let e = N_EXPERTS as u64;
        push_entry(v, &p, ".ffn_gate_inp.weight", vec![h, e]);
        push_entry(v, &p, ".exp_probs_b.bias", vec![e]);
        push_entry(v, &p, ".ffn_gate_exps.weight", vec![h, ff, e]);
        push_entry(v, &p, ".ffn_up_exps.weight", vec![h, ff, e]);
        push_entry(v, &p, ".ffn_down_exps.weight", vec![ff, h, e]);
    }
    assert(entries_view(v@) =~~= v0 + lfm_layer(i as nat));
}

/// The full list of `(name, shape)` the forward pass depends on, derived from the hardcoded
/// schedule. GGUF dims are `[in, out]` for a `y = W·x` weight.
pub fn expected_tensors() -> (v: Vec<(String, Vec<u64>)>)
    ensures
        entries_view(v@) == lfm_tensors(),
{
    let h = HIDDEN as u64;
    let mut v: Vec<(String, Vec<u64>)> = Vec::new();
    let e = String::new();
    assert(e@ + "token_embd.weight"@ =~= "token_embd.weight"@);
    assert(e@ + "token_embd_norm.weight"@ =~= "token_embd_norm.weight"@);
    push_entry(&mut v, &e, "token_embd.weight", vec![h, VOCAB as u64]);
    push_entry(&mut v, &e, "token_embd_norm.weight", vec![h]);
    let ghost head = entries_view(v@);
    assert(head =~~= seq![
        ("token_embd.weight"@, seq![HIDDEN as u64, VOCAB as u64]),
        ("token_embd_norm.weight"@, seq![HIDDEN as u64]),
    ]);
    let mut i: usize = 0;
    while i < N_LAYERS
        invariant
            i <= N_LAYERS,
            entries_view(v@) == head + lfm_layers(i as nat),
        decreases N_LAYERS - i,
    {
        push_layer(&mut v, i);
        i += 1;
        assert(entries_view(v@) =~= head + lfm_layers(i as nat));
    }
    v
}

/// How many tensors layer `i` has: two norms, six attention or three short-conv weights, and
/// three dense or five mixture-of-experts FFN weights.
spec fn layer_count(i: int) -> int {
    2 + (if i == 2 || i == 6 || i == 10 || i == 14 || i == 18 || i == 21 {
        6int
    } else {
        3int
    }) + (if i < 2 {
        3int
    } else {
        5int
    })
}

spec fn layers_count(n: nat) -> int
    decreases n,
{
    if n == 0 {
        0
    } else {
        layers_count((n - 1) as nat) + layer_count(n - 1)
    }
}

proof fn lemma_layers_len(n: nat)
    ensures
        lfm_layers(n).len() == layers_count(n),
    decreases n,
{
    if n > 0 {
        lemma_layers_len((n - 1) as nat);
        crate::config::lemma_attention_layer_iff(n - 1);
    }
}

/// The forward pass depends on exactly 256 tensors, the number in the published file.
pub proof fn lemma_tensor_count()
    ensures
        lfm_tensors().len() == 256,
{
    lemma_layers_len(N_LAYERS as nat);
    reveal_with_fuel(layers_count, 25);
    assert(layers_count(24) == 254);
}

// ---------------------------------------------------------------------------------------------
// Checking a file's tensors against a contract
// ---------------------------------------------------------------------------------------------

/// The names of a tensor table, in order.
pub open spec fn tensor_names(ts: Seq<TensorInfo>) -> Seq<Seq<char>> {
    ts.map_values(|t: TensorInfo| t.name@)
}

/// Tensor names to their positions in a tensor table: a name given twice means its last
/// tensor.
pub struct TensorIndex {
    names: StrIndex,
}

impl View for TensorIndex {
    type V = Map<Seq<char>, u32>;

    closed spec fn view(&self) -> Map<Seq<char>, u32> {
        self.names@
    }
}

impl TensorIndex {
    /// The index is consistent.
    pub closed spec fn wf(&self) -> bool {
        self.names.wf()
    }

    /// Index the names of `tensors`.
    pub fn new(tensors: &[TensorInfo]) -> (r: TensorIndex)
        requires
            tensors@.len() <= u32::MAX,
        ensures
            r.wf(),
            r@ == vocab_map(token_entries(tensor_names(tensors@))),
    {
        let ghost names = tensor_names(tensors@);
        let mut index = StrIndex::new();
        let mut i: usize = 0;
        while i < tensors.len()
            invariant
                names == tensor_names(tensors@),
                tensors@.len() <= u32::MAX,
                i <= tensors@.len(),
                index.wf(),
                index@ == vocab_map(token_entries(names).take(i as int)),
            decreases tensors@.len() - i,
        {
            index.insert(tensors[i].name.clone(), i as u32);
            assert(token_entries(names).take(i + 1 as int).drop_last() =~= token_entries(names).take(i as int));
            i += 1;
        }
        assert(token_entries(names).take(i as int) =~= token_entries(names));
        TensorIndex { names: index }
    }

    /// Index the names of `tensors`, refusing a name given twice (the first repeated name
    /// in table order).
    pub fn new_unique(tensors: &[TensorInfo]) -> (r: Result<TensorIndex, DuplicateTensorName>)
        requires
            tensors@.len() <= u32::MAX,
        ensures
            match r {
                Ok(ix) => ix.wf() && ix@ == vocab_map(token_entries(tensor_names(tensors@)))
                    && first_repeat(tensor_names(tensors@), 0) is None,
                Err(e) => first_repeat(tensor_names(tensors@), 0) == Some(e.name@),
            },
    {
        let ghost names = tensor_names(tensors@);
        let mut index = StrIndex::new();
        let mut i: usize = 0;
        while i < tensors.len()
            invariant
                names == tensor_names(tensors@),
                tensors@.len() <= u32::MAX,
                i <= tensors@.len(),
                index.wf(),
                index@ == vocab_map(token_entries(names).take(i as int)),
                first_repeat(names, 0) == first_repeat(names, i as int),
                forall|n: Seq<char>| #[trigger] index@.contains_key(n) <==> names.take(i as int).contains(n),
            decreases tensors@.len() - i,
        {
            let name = &tensors[i].name;
            assert(names[i as int] == name@);
            if index.get(name.as_str()).is_some() {
                assert(names.take(i as int).contains(name@));
                return Err(DuplicateTensorName { name: name.clone() });
            }
            index.insert(name.clone(), i as u32);
            assert(token_entries(names).take(i + 1 as int).drop_last() =~= token_entries(names).take(i as int));
            let ghost prev = names.take(i as int);
            assert(names.take(i + 1 as int) =~= prev.push(name@));
            proof {
                assert forall|n: Seq<char>| #[trigger] index@.contains_key(n) <==> prev.push(name@).contains(n) by {
                    if prev.contains(n) {
                        let k = choose|k: int| 0 <= k < prev.len() && prev[k] == n;
                        assert(prev.push(name@)[k] == n);
                    }
                    if prev.push(name@).contains(n) {
                        let k = choose|k: int| 0 <= k < prev.len() + 1 && prev.push(name@)[k] == n;
                        if k < prev.len() {
                            assert(prev[k] == n);
                        }
                    }
                    if n == name@ {
                        assert(prev.push(name@)[prev.len() as int] == n);
                    }
                }
            }
            i += 1;
        }
        assert(token_entries(names).take(i as int) =~= token_entries(names));
        Ok(TensorIndex { names: index })
    }

    /// The position of the (last) tensor named `name`, if any.
    pub fn get(&self, name: &str) -> (r: Option<usize>)
        requires
            self.wf(),
        ensures
            match r {
                Some(i) => self@.contains_key(name@) && i == self@[name@],
                None => !self@.contains_key(name@),
            },
    {
        match self.names.get(name) {
            Some(i) => Some(i as usize),
            None => None,
        }
    }
}

/// The first name of `names` from `i` on that an earlier entry already gives.
pub open spec fn first_repeat(names: Seq<Seq<char>>, i: int) -> Option<Seq<char>>
    decreases names.len() - i,
{
    if i < 0 || i >= names.len() {
        None
    } else if names.take(i).contains(names[i]) {
        Some(names[i])
    } else {
        first_repeat(names, i + 1)
    }
}

/// A tensor name given twice.
#[derive(Debug)]
pub struct DuplicateTensorName {
    pub name: String,
}

/// Why a file's tensors do not meet a contract.
#[derive(Debug)]
pub enum TensorCheckError {
    /// No tensor has this name.
    Missing { name: String },
    /// The tensor has other dimensions than the contract's.
    Shape { name: String, got: Vec<u64>, expected: Vec<u64> },
    /// The tensor's type cannot be dequantized on the CPU.
    Unsupported { name: String, dtype: GgmlType },
}

/// [`TensorCheckError`] as plain values.
pub enum TensorCheckFailure {
    Missing(Seq<char>),
    Shape(Seq<char>, Seq<u64>, Seq<u64>),
    Unsupported(Seq<char>, GgmlType),
}

impl View for TensorCheckError {
    type V = TensorCheckFailure;

    open spec fn view(&self) -> TensorCheckFailure {
        match self {
            TensorCheckError::Missing { name } => TensorCheckFailure::Missing(name@),
            TensorCheckError::Shape { name, got, expected } => TensorCheckFailure::Shape(name@, got@, expected@),
            TensorCheckError::Unsupported { name, dtype } => TensorCheckFailure::Unsupported(name@, *dtype),
        }
    }
}

/// Whether the CPU kernels dequantize `dtype`.
pub open spec fn dtype_supported(dtype: GgmlType) -> bool {
    dtype == GgmlType::F32 || dtype == GgmlType::F16 || dtype == GgmlType::Q4_K || dtype == GgmlType::Q6_K
}

/// The first contract entry from `i` on that the tensors `ts` (indexed by `by_name`) break:
/// a missing name, other dimensions, or (when `require_supported`) a type the CPU kernels
/// do not handle.
pub open spec fn check_from(
    ts: Seq<TensorModel>,
    by_name: Map<Seq<char>, u32>,
    expected: Seq<Entry>,
    i: int,
    require_supported: bool,
) -> Result<(), TensorCheckFailure>
    decreases expected.len() - i,
{
    if i < 0 || i >= expected.len() {
        Ok(())
    } else {
        let (n, shape) = expected[i];
        if !by_name.contains_key(n) {
            Err(TensorCheckFailure::Missing(n))
        } else {
            let t = ts[by_name[n] as int];
            if t.1 != shape {
                Err(TensorCheckFailure::Shape(n, t.1, shape))
            } else if require_supported && !dtype_supported(t.2) {
                Err(TensorCheckFailure::Unsupported(n, t.2))
            } else {
                check_from(ts, by_name, expected, i + 1, require_supported)
            }
        }
    }
}

/// What checking the tensor table `ts` against the contract `expected` finds.
pub open spec fn check_spec(ts: Seq<TensorModel>, expected: Seq<Entry>, require_supported: bool) -> Result<(), TensorCheckFailure> {
    check_from(
        ts,
        vocab_map(token_entries(ts.map_values(|t: TensorModel| t.0))),
        expected,
        0,
        require_supported,
    )
}

/// Whether two dimension lists are equal.
fn dims_equal(a: &Vec<u64>, b: &Vec<u64>) -> (r: bool)
    ensures
        r == (a@ == b@),
{
    if a.len() != b.len() {
        return false;
    }
    let mut i: usize = 0;
    while i < a.len()
        invariant
            a@.len() == b@.len(),
            i <= a@.len(),
            forall|j: int| 0 <= j < i ==> a@[j] == b@[j],
        decreases a@.len() - i,
    {
        if a[i] != b[i] {
            return false;
        }
        i += 1;
    }
    assert(a@ =~= b@);
    true
}

/// Check that every tensor of the contract `expected` is present with its shape (and, when
/// `require_supported`, of a type the CPU kernels dequantize), stopping at the first that is
/// not.
pub fn check_tensors(tensors: &[TensorInfo], expected: &[(String, Vec<u64>)], require_supported: bool) -> (r: Result<
    (),
    TensorCheckError,
>)
    requires
        tensors@.len() <= u32::MAX,
    ensures
        match (r, check_spec(tensors@.map_values(|t: TensorInfo| t@), expected@.map_values(|e: (String, Vec<u64>)| (e.0@, e.1@)), require_supported)) {
            (Ok(()), Ok(())) => true,
            (Err(e), Err(f)) => e@ == f,
            _ => false,
        },
{
    let ghost ts = tensors@.map_values(|t: TensorInfo| t@);
    let ghost ev = expected@.map_values(|e: (String, Vec<u64>)| (e.0@, e.1@));
    let index = TensorIndex::new(tensors);
    assert(tensor_names(tensors@) =~= ts.map_values(|t: TensorModel| t.0));
    let ghost m = index@;
    proof {
        assert forall|n: Seq<char>| #[trigger] m.contains_key(n) implies (m[n] as int) < tensors@.len() by {
            lemma_vocab_map_ids(token_entries(tensor_names(tensors@)), n);
        }
    }
    let mut i: usize = 0;
    while i < expected.len()
        invariant
            index.wf(),
            m == index@,
            ts == tensors@.map_values(|t: TensorInfo| t@),
            ev == expected@.map_values(|e: (String, Vec<u64>)| (e.0@, e.1@)),
            m == vocab_map(token_entries(ts.map_values(|t: TensorModel| t.0))),
            forall|n: Seq<char>| #[trigger] m.contains_key(n) ==> (m[n] as int) < tensors@.len(),
            i <= expected@.len(),
            check_spec(ts, ev, require_supported) == check_from(ts, m, ev, i as int, require_supported),
        decreases expected@.len() - i,
    {
        let (n, shape) = (&expected[i].0, &expected[i].1);
        assert(ev[i as int] == (n@, shape@));
        match index.get(n.as_str()) {
            None => {
                return Err(TensorCheckError::Missing { name: n.clone() });
            },
            Some(k) => {
                let t = &tensors[k];
                assert(ts[k as int] == t@);
                if !dims_equal(&t.dims, shape) {
                    return Err(
                        TensorCheckError::Shape { name: n.clone(), got: t.dims.clone(), expected: shape.clone() },
                    );
                }
                if require_supported && !supports(t.ggml_type) {
                    return Err(TensorCheckError::Unsupported { name: n.clone(), dtype: t.ggml_type });
                }
            },
        }
        i += 1;
    }
    Ok(())
}

/// Every id a vocabulary map gives is the id of one of its entries; with the entries of a
/// table, it is below the table's length.
proof fn lemma_vocab_map_ids(v: Seq<(Seq<char>, u32)>, n: Seq<char>)
    requires
        forall|j: int| 0 <= j < v.len() ==> (#[trigger] v[j]).1 as int == j,
    ensures
        vocab_map(v).contains_key(n) ==> (vocab_map(v)[n] as int) < v.len(),
    decreases v.len(),
{
    if v.len() > 0 {
        lemma_vocab_map_ids(v.drop_last(), n);
    }
}

} // verus!
