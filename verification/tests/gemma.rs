use bebelm::config::MetadataError;
use bebelm::gemma::{
    attention_span, expected_tensors, is_local_attention, name, validate_metadata,
    EMBEDDING_DIMENSIONS, HEAD_DIM, HIDDEN, KV_DIM, N_HEADS, N_KV_HEADS,
};
use bebelm::gguf::GgufFile;

#[test]
fn architecture_dimensions_are_consistent() {
    assert_eq!(N_HEADS * HEAD_DIM, HIDDEN);
    assert_eq!(N_KV_HEADS * HEAD_DIM, KV_DIM);
    assert_eq!(expected_tensors().len(), 316);
}

#[test]
fn local_attention_is_symmetric_and_periodic() {
    assert_eq!(attention_span(0, 1000, true), (0, 257));
    assert_eq!(attention_span(500, 1000, true), (244, 757));
    assert_eq!(attention_span(999, 1000, true), (743, 1000));
    assert_eq!(attention_span(500, 1000, false), (0, 1000));
    assert!(is_local_attention(0) && is_local_attention(4));
    assert!(!is_local_attention(5));
    assert!(is_local_attention(6));
}

#[test]
fn matryoshka_dimensions_are_explicit() {
    assert_eq!(EMBEDDING_DIMENSIONS, [768, 512, 256, 128]);
}

#[test]
fn gemma_names_and_metadata() {
    assert_eq!(name(0, "attn_q.weight"), "blk.0.attn_q.weight");
    assert_eq!(expected_tensors()[3].0, "token_embd.weight");
    let mut buf = Vec::new();
    buf.extend_from_slice(b"GGUF");
    buf.extend_from_slice(&3u32.to_le_bytes());
    buf.extend_from_slice(&0u64.to_le_bytes());
    buf.extend_from_slice(&1u64.to_le_bytes());
    let key = "general.architecture";
    buf.extend_from_slice(&(key.len() as u64).to_le_bytes());
    buf.extend_from_slice(key.as_bytes());
    buf.extend_from_slice(&8u32.to_le_bytes());
    buf.extend_from_slice(&5u64.to_le_bytes());
    buf.extend_from_slice(b"gemma");
    let g = GgufFile::from_bytes(buf).unwrap();
    assert!(matches!(
        validate_metadata(&g),
        Err(MetadataError::StrMismatch { got, .. }) if got == "gemma"
    ));
}

use bebelm::gemma_inputs::{pack_batch, tokenize, BatchError, TooLong};
use bebelm::sentencepiece::Tokenizer as PieceTokenizer;

fn letters(add_eos: bool) -> PieceTokenizer {
    let tokens: Vec<String> = ["<pad>", "<eos>", "<bos>", "<unk>", "a"].iter().map(|s| s.to_string()).collect();
    PieceTokenizer::from_parts(tokens, vec![0.0f32.to_bits(); 5], vec![3; 256], 2, 1, true, add_eos)
}

#[test]
fn long_inputs_are_refused_or_truncated_keeping_eos() {
    let text = "a".repeat(3000);
    assert_eq!(tokenize(&letters(true), &text, false), Err(TooLong { tokens: 3002 }));
    let (ids, truncated) = tokenize(&letters(true), &text, true).unwrap();
    assert!(truncated);
    assert_eq!(ids.len(), 2048);
    assert_eq!(ids[0], 2);
    assert_eq!(ids[2047], 1);
    let (ids, _) = tokenize(&letters(false), &text, true).unwrap();
    assert_eq!(ids[2047], 4);
    assert_eq!(tokenize(&letters(true), "aa", false), Ok((vec![2, 4, 4, 1], false)));
}

#[test]
fn batches_pack_inputs_with_offsets() {
    let b = pack_batch(&[vec![2, 5, 1], vec![2, 1]], 256).unwrap();
    assert_eq!(b.ids, [2, 5, 1, 2, 1]);
    assert_eq!(b.offsets, [0, 3, 5]);
    let b = pack_batch(&[], 768).unwrap();
    assert!(b.ids.is_empty());
    assert_eq!(b.offsets, [0]);
    assert_eq!(pack_batch(&[vec![1]], 100).err(), Some(BatchError::UnsupportedDimension { dimensions: 100 }));
    assert_eq!(
        pack_batch(&[vec![1; 300], vec![1; 300]], 128).err(),
        Some(BatchError::OverBudget { total: 600 })
    );
    // A single input may exceed the packing budget.
    assert!(pack_batch(&[vec![1; 600]], 128).is_ok());
    assert_eq!(pack_batch(&[vec![1], vec![]], 512).err(), Some(BatchError::BadLength { sequence: 2, len: 0 }));
    assert_eq!(pack_batch(&[vec![1; 2049]], 512).err(), Some(BatchError::BadLength { sequence: 1, len: 2049 }));
    assert_eq!(
        pack_batch(&[vec![1, 262_144, 262_145]], 512).err(),
        Some(BatchError::OutOfVocabulary { sequence: 1, token: 262_144 })
    );
}
