//! The inputs of EmbeddingGemma: fitting a tokenized text into the context (with or without
//! truncation, keeping the EOS slot), and packing several tokenized texts into one encoder
//! batch, with the offsets that keep each sequence's attention to itself.

use vstd::prelude::*;

use crate::gemma::{BATCH_TOKEN_BUDGET, CONTEXT_LENGTH, EMBEDDING_DIMENSIONS, VOCAB};
use crate::sentencepiece::{spm_encode, Tokenizer};

verus! {

/// The text's token ids, `ids`, fitted into the context: unchanged when they fit; else, with
/// truncation, the first `CONTEXT_LENGTH` ids with the last replaced by EOS when the model
/// adds EOS (and `true` for truncated); without truncation, the error's token count.
pub open spec fn fit_context_spec(ids: Seq<u32>, truncate: bool, adds_eos: bool, eos: u32) -> Result<(Seq<u32>, bool), int> {
    if ids.len() <= CONTEXT_LENGTH {
        Ok((ids, false))
    } else if !truncate {
        Err(ids.len() as int)
    } else {
        let t = ids.take(CONTEXT_LENGTH as int);
        Ok((
            if adds_eos {
                t.update(CONTEXT_LENGTH - 1, eos)
            } else {
                t
            },
            true,
        ))
    }
}

/// The input holds more tokens (BOS and EOS included) than the context.
#[derive(Debug, PartialEq, Eq)]
pub struct TooLong {
    pub tokens: usize,
}

/// Tokenize one raw, already task-formatted input, BOS and EOS included, fitted into the
/// context (see [`fit_context_spec`]).
pub fn tokenize(tok: &Tokenizer, text: &str, truncate: bool) -> (r: Result<(Vec<u32>, bool), TooLong>)
    requires
        tok.wf(),
    ensures
        match (r, fit_context_spec(spm_encode(text@, tok@), truncate, tok@.add_eos, tok@.eos)) {
            (Ok((ids, t)), Ok((want, wt))) => ids@ == want && t == wt,
            (Err(e), Err(n)) => e.tokens == n,
            _ => false,
        },
{
    let mut ids = tok.encode(text);
    let was_truncated = ids.len() > CONTEXT_LENGTH;
    if was_truncated {
        if !truncate {
            return Err(TooLong { tokens: ids.len() });
        }
        ids.truncate(CONTEXT_LENGTH);
        if tok.adds_eos() {
            let last = ids.len() - 1;
            ids.set(last, tok.eos_id());
        }
    }
    Ok((ids, was_truncated))
}

/// Why a batch of tokenized inputs cannot be encoded.
#[derive(Debug, PartialEq, Eq)]
pub enum BatchError {
    /// Not one of the Matryoshka output widths.
    UnsupportedDimension { dimensions: usize },
    /// Several inputs hold more tokens together than the packing budget.
    OverBudget { total: usize },
    /// Input `sequence` (counted from 1) is empty or longer than the context.
    BadLength { sequence: usize, len: usize },
    /// Input `sequence` (counted from 1) holds an id outside the vocabulary; `token` is the
    /// first such id.
    OutOfVocabulary { sequence: usize, token: u32 },
}

/// A packed batch: every input's ids one after another, and the offset where each input
/// starts (with the total length last).
pub struct PackedBatch {
    pub ids: Vec<u32>,
    pub offsets: Vec<usize>,
}

/// The total number of ids of the inputs.
pub open spec fn total_len(inputs: Seq<Seq<u32>>) -> int
    decreases inputs.len(),
{
    if inputs.len() == 0 {
        0
    } else {
        total_len(inputs.drop_last()) + inputs.last().len()
    }
}

/// Whether `d` is one of the Matryoshka output widths.
pub open spec fn supported_dimension(d: usize) -> bool {
    d == 768 || d == 512 || d == 256 || d == 128
}

/// The first id of `s` outside the vocabulary, if any.
pub open spec fn first_out_of_vocab(s: Seq<u32>) -> Option<u32>
    decreases s.len(),
{
    if s.len() == 0 {
        None
    } else {
        match first_out_of_vocab(s.drop_last()) {
            Some(t) => Some(t),
            None => if s.last() >= VOCAB {
                Some(s.last())
            } else {
                None
            },
        }
    }
}

/// The first input (counted from 1) from `k` on that cannot be packed, and why.
pub open spec fn bad_input_from(inputs: Seq<Seq<u32>>, k: int) -> Option<BatchError>
    decreases inputs.len() - k,
{
    if k < 0 || k >= inputs.len() {
        None
    } else {
        let one = inputs[k];
        if one.len() == 0 || one.len() > CONTEXT_LENGTH {
            Some(BatchError::BadLength { sequence: (k + 1) as usize, len: one.len() as usize })
        } else {
            match first_out_of_vocab(one) {
                Some(t) => Some(BatchError::OutOfVocabulary { sequence: (k + 1) as usize, token: t }),
                None => bad_input_from(inputs, k + 1),
            }
        }
    }
}

/// The ids of the inputs one after another.
pub open spec fn concat_ids(inputs: Seq<Seq<u32>>) -> Seq<u32>
    decreases inputs.len(),
{
    if inputs.len() == 0 {
        Seq::empty()
    } else {
        concat_ids(inputs.drop_last()) + inputs.last()
    }
}

/// What packing `inputs` for output width `dimensions` gives: the first failure in the
/// order width, budget (only for several inputs), then each input in turn; else the
/// concatenated ids, with input `k` starting at offset `k` and the total length last.
pub open spec fn pack_spec(inputs: Seq<Seq<u32>>, dimensions: usize) -> Result<(Seq<u32>, Seq<int>), BatchError> {
    if !supported_dimension(dimensions) {
        Err(BatchError::UnsupportedDimension { dimensions })
    } else if inputs.len() > 1 && total_len(inputs) > BATCH_TOKEN_BUDGET {
        Err(BatchError::OverBudget { total: total_len(inputs) as usize })
    } else {
        match bad_input_from(inputs, 0) {
            Some(e) => Err(e),
            None => Ok(
                (concat_ids(inputs), Seq::new((inputs.len() + 1) as nat, |k: int| total_len(inputs.take(k)))),
            ),
        }
    }
}

/// The ids of the inputs, each as plain values.
pub open spec fn inputs_view(inputs: Seq<Vec<u32>>) -> Seq<Seq<u32>> {
    inputs.map_values(|v: Vec<u32>| v@)
}

/// Whether `d` is one of the Matryoshka output widths.
fn is_supported_dimension(d: usize) -> (r: bool)
    ensures
        r == supported_dimension(d),
{
    let mut i: usize = 0;
    while i < 4
        invariant
            i <= 4,
            forall|j: int| 0 <= j < i ==> EMBEDDING_DIMENSIONS[j] != d,
        decreases 4 - i,
    {
        if EMBEDDING_DIMENSIONS[i] == d {
            return true;
        }
        i += 1;
    }
    false
}

proof fn lemma_total_len_take(inputs: Seq<Seq<u32>>, k: int)
    requires
        0 <= k < inputs.len(),
    ensures
        total_len(inputs.take(k + 1)) == total_len(inputs.take(k)) + inputs[k].len(),
        concat_ids(inputs.take(k + 1)) == concat_ids(inputs.take(k)) + inputs[k],
{
    assert(inputs.take(k + 1).drop_last() =~= inputs.take(k));
}

proof fn lemma_total_len_bound(inputs: Seq<Seq<u32>>, k: int)
    requires
        0 <= k <= inputs.len(),
    ensures
        0 <= total_len(inputs.take(k)) <= total_len(inputs),
    decreases inputs.len() - k,
{
    lemma_total_len_nonneg(inputs.take(k));
    if k < inputs.len() {
        lemma_total_len_take(inputs, k);
        lemma_total_len_bound(inputs, k + 1);
    } else {
        assert(inputs.take(k) =~= inputs);
    }
}

proof fn lemma_total_len_nonneg(inputs: Seq<Seq<u32>>)
    ensures
        total_len(inputs) >= 0,
    decreases inputs.len(),
{
    if inputs.len() > 0 {
        lemma_total_len_nonneg(inputs.drop_last());
    }
}

/// The first id of `s` outside the vocabulary, if any.
fn find_out_of_vocab(s: &Vec<u32>) -> (r: Option<u32>)
    ensures
        r == first_out_of_vocab(s@),
{
    let mut i: usize = 0;
    while i < s.len()
        invariant
            i <= s@.len(),
            first_out_of_vocab(s@.take(i as int)) is None,
        decreases s@.len() - i,
    {
        assert(s@.take(i + 1 as int).drop_last() =~= s@.take(i as int));
        if s[i] as usize >= VOCAB {
            proof {
                lemma_first_out_of_vocab_prefix(s@, i as int + 1);
            }
            return Some(s[i]);
        }
        i += 1;
    }
    assert(s@.take(i as int) =~= s@);
    None
}

/// Once a prefix holds an id outside the vocabulary, the whole sequence gives that id.
proof fn lemma_first_out_of_vocab_prefix(s: Seq<u32>, k: int)
    requires
        0 <= k <= s.len(),
        first_out_of_vocab(s.take(k)) is Some,
    ensures
        first_out_of_vocab(s) == first_out_of_vocab(s.take(k)),
    decreases s.len() - k,
{
    if k < s.len() {
        assert(s.take(k + 1).drop_last() =~= s.take(k));
        lemma_first_out_of_vocab_prefix(s, k + 1);
    } else {
        assert(s.take(k) =~= s);
    }
}

/// Pack independent, unpadded tokenized inputs for one encoder pass with output width
/// `dimensions` (see [`pack_spec`]).
pub fn pack_batch(inputs: &[Vec<u32>], dimensions: usize) -> (r: Result<PackedBatch, BatchError>)
    requires
        total_len(inputs_view(inputs@)) <= usize::MAX,
    ensures
        match (r, pack_spec(inputs_view(inputs@), dimensions)) {
            (Ok(b), Ok((ids, offsets))) => b.ids@ == ids && b.offsets@.map_values(|o: usize| o as int) == offsets,
            (Err(e), Err(f)) => e == f,
            _ => false,
        },
{
    let ghost iv = inputs_view(inputs@);
    if !is_supported_dimension(dimensions) {
        return Err(BatchError::UnsupportedDimension { dimensions });
    }
    let mut total: usize = 0;
    let mut k: usize = 0;
    while k < inputs.len()
        invariant
            iv == inputs_view(inputs@),
            total_len(iv) <= usize::MAX,
            k <= inputs@.len(),
            total == total_len(iv.take(k as int)),
        decreases inputs@.len() - k,
    {
        proof {
            lemma_total_len_take(iv, k as int);
            lemma_total_len_bound(iv, k as int + 1);
        }
        total = total + inputs[k].len();
        k += 1;
    }
    assert(iv.take(k as int) =~= iv);
    if inputs.len() > 1 && total > BATCH_TOKEN_BUDGET {
        return Err(BatchError::OverBudget { total });
    }
    let mut ids: Vec<u32> = Vec::new();
    let mut offsets: Vec<usize> = Vec::new();
    offsets.push(0);
    let mut s: usize = 0;
    assert(iv.take(0) =~= Seq::<Seq<u32>>::empty());
    while s < inputs.len()
        invariant
            iv == inputs_view(inputs@),
            total_len(iv) <= usize::MAX,
            supported_dimension(dimensions),
            !(iv.len() > 1 && total_len(iv) > BATCH_TOKEN_BUDGET),
            s <= inputs@.len(),
            bad_input_from(iv, 0) == bad_input_from(iv, s as int),
            ids@ == concat_ids(iv.take(s as int)),
            ids@.len() == total_len(iv.take(s as int)),
            offsets@.len() == s + 1,
            forall|j: int| 0 <= j <= s ==> #[trigger] offsets@[j] as int == total_len(iv.take(j)),
        decreases inputs@.len() - s,
    {
        let one = &inputs[s];
        assert(iv[s as int] == one@);
        if one.len() == 0 || one.len() > CONTEXT_LENGTH {
            let e = BatchError::BadLength { sequence: s + 1, len: one.len() };
            assert(bad_input_from(iv, s as int) == Some(e));
            return Err(e);
        }
        match find_out_of_vocab(one) {
            Some(token) => {
                let e = BatchError::OutOfVocabulary { sequence: s + 1, token };
                assert(bad_input_from(iv, s as int) == Some(e));
                return Err(e);
            },
            None => {},
        }
        proof {
            lemma_total_len_take(iv, s as int);
            lemma_total_len_bound(iv, s as int + 1);
        }
        let mut i: usize = 0;
        let ghost before = ids@;
        while i < one.len()
            invariant
                ids@ == before + one@.take(i as int),
                i <= one@.len(),
            decreases one@.len() - i,
        {
            ids.push(one[i]);
            i += 1;
            assert(ids@ =~= before + one@.take(i as int));
        }
        assert(one@.take(i as int) =~= one@);
        offsets.push(ids.len());
        s += 1;
    }
    assert(iv.take(s as int) =~= iv);
    assert(offsets@.map_values(|o: usize| o as int) =~= Seq::new((iv.len() + 1) as nat, |k: int| total_len(iv.take(k))));
    Ok(PackedBatch { ids, offsets })
}

// ---------------------------------------------------------------------------------------------
// Laws
// ---------------------------------------------------------------------------------------------

/// A truncated input keeps exactly the context's worth of ids and, when the model adds EOS,
/// still ends with it; an input that fits is left as it is.
pub proof fn lemma_fitted_input_fits(ids: Seq<u32>, truncate: bool, adds_eos: bool, eos: u32)
    ensures
        match fit_context_spec(ids, truncate, adds_eos, eos) {
            Ok((out, t)) => {
                &&& out.len() <= CONTEXT_LENGTH
                &&& t == (ids.len() > CONTEXT_LENGTH)
                &&& !t ==> out == ids
                &&& t ==> out.take(CONTEXT_LENGTH - 1) == ids.take(CONTEXT_LENGTH - 1)
                &&& t && adds_eos ==> out.last() == eos
            },
            Err(n) => !truncate && n == ids.len() && n > CONTEXT_LENGTH,
        },
{
    if ids.len() > CONTEXT_LENGTH && truncate {
        let t = ids.take(CONTEXT_LENGTH as int);
        if adds_eos {
            assert(t.update(CONTEXT_LENGTH - 1, eos).take(CONTEXT_LENGTH - 1) =~= ids.take(CONTEXT_LENGTH - 1));
        } else {
            assert(t.take(CONTEXT_LENGTH - 1) =~= ids.take(CONTEXT_LENGTH - 1));
        }
    }
}

/// Packing keeps every input intact and apart: input `k` is exactly the packed ids between
/// its offset and the next.
pub proof fn lemma_packing_keeps_inputs_apart(inputs: Seq<Seq<u32>>, dimensions: usize, k: int)
    requires
        pack_spec(inputs, dimensions) is Ok,
        0 <= k < inputs.len(),
    ensures
        ({
            let (ids, offsets) = pack_spec(inputs, dimensions).unwrap();
            ids.subrange(offsets[k], offsets[k + 1]) == inputs[k]
        }),
{
    let (ids, offsets) = pack_spec(inputs, dimensions).unwrap();
    let pre = inputs.take(k);
    let rest = inputs.skip(k + 1);
    assert(inputs =~= pre + seq![inputs[k]] + rest);
    lemma_concat_append(pre + seq![inputs[k]], rest);
    lemma_concat_append(pre, seq![inputs[k]]);
    assert(seq![inputs[k]].drop_last() =~= Seq::<Seq<u32>>::empty());
    assert(concat_ids(Seq::<Seq<u32>>::empty()) == Seq::<u32>::empty());
    assert(Seq::<u32>::empty() + inputs[k] =~= inputs[k]);
    assert(concat_ids(seq![inputs[k]]) =~= inputs[k]);
    lemma_total_len_take(inputs, k);
    lemma_concat_len(pre);
    assert(ids =~= concat_ids(pre) + inputs[k] + concat_ids(rest));
    assert(offsets[k] == total_len(pre));
    assert(offsets[k + 1] == total_len(inputs.take(k + 1)));
    assert(ids.subrange(offsets[k], offsets[k + 1]) =~= inputs[k]);
}

proof fn lemma_concat_len(inputs: Seq<Seq<u32>>)
    ensures
        concat_ids(inputs).len() == total_len(inputs),
    decreases inputs.len(),
{
    if inputs.len() > 0 {
        lemma_concat_len(inputs.drop_last());
    }
}

/// Packing two runs of inputs packs the first, then the second.
proof fn lemma_concat_append(a: Seq<Seq<u32>>, b: Seq<Seq<u32>>)
    ensures
        concat_ids(a + b) == concat_ids(a) + concat_ids(b),
    decreases b.len(),
{
    if b.len() == 0 {
        assert(a + b =~= a);
        assert(concat_ids(a) + Seq::<u32>::empty() =~= concat_ids(a));
    } else {
        assert((a + b).drop_last() =~= a + b.drop_last());
        lemma_concat_append(a, b.drop_last());
        assert(concat_ids(a) + concat_ids(b.drop_last()) + b.last() =~= concat_ids(a) + (concat_ids(b.drop_last())
            + b.last()));
    }
}

/// An input that can be packed: between one id and a context's worth, every id in the
/// vocabulary.
pub open spec fn packable(one: Seq<u32>) -> bool {
    &&& 1 <= one.len() <= CONTEXT_LENGTH
    &&& forall|i: int| 0 <= i < one.len() ==> one[i] < VOCAB
}

proof fn lemma_first_out_of_vocab_none(s: Seq<u32>)
    ensures
        first_out_of_vocab(s) is None <==> forall|i: int| 0 <= i < s.len() ==> s[i] < VOCAB,
    decreases s.len(),
{
    if s.len() > 0 {
        lemma_first_out_of_vocab_none(s.drop_last());
        if first_out_of_vocab(s.drop_last()) is None && s.last() < VOCAB {
            assert forall|i: int| 0 <= i < s.len() implies s[i] < VOCAB by {
                if i < s.len() - 1 {
                    assert(s[i] == s.drop_last()[i]);
                }
            }
        }
        if first_out_of_vocab(s.drop_last()) is Some {
            let i = choose|i: int| 0 <= i < s.drop_last().len() && !(s.drop_last()[i] < VOCAB);
            assert(s[i] == s.drop_last()[i]);
        }
    }
}

proof fn lemma_bad_input_from_none(inputs: Seq<Seq<u32>>, k: int)
    requires
        0 <= k <= inputs.len(),
    ensures
        bad_input_from(inputs, k) is None <==> forall|j: int| k <= j < inputs.len() ==> packable(
            #[trigger] inputs[j],
        ),
    decreases inputs.len() - k,
{
    if k < inputs.len() {
        lemma_bad_input_from_none(inputs, k + 1);
        lemma_first_out_of_vocab_none(inputs[k]);
    }
}

/// Packing fails exactly when the width is not one of the supported ones, or several inputs
/// exceed the token budget, or some input is empty, longer than the context, or holds an id
/// outside the vocabulary; an empty batch at a supported width packs to nothing.
pub proof fn lemma_pack_succeeds_iff(inputs: Seq<Seq<u32>>, dimensions: usize)
    ensures
        pack_spec(inputs, dimensions) is Err <==> {
            ||| !supported_dimension(dimensions)
            ||| (inputs.len() > 1 && total_len(inputs) > BATCH_TOKEN_BUDGET)
            ||| exists|k: int| 0 <= k < inputs.len() && !packable(#[trigger] inputs[k])
        },
        supported_dimension(dimensions) && inputs.len() == 0 ==> pack_spec(inputs, dimensions)
            == Ok::<(Seq<u32>, Seq<int>), BatchError>((Seq::<u32>::empty(), seq![0int])),
{
    lemma_bad_input_from_none(inputs, 0);
    if supported_dimension(dimensions) && inputs.len() == 0 {
        assert(bad_input_from(inputs, 0) is None);
        assert(concat_ids(inputs) =~= Seq::<u32>::empty());
        assert(Seq::new((inputs.len() + 1) as nat, |k: int| total_len(inputs.take(k))) =~= seq![
            total_len(inputs.take(0)),
        ]);
        assert(inputs.take(0) =~= Seq::<Seq<u32>>::empty());
    }
}

} // verus!
