use bebelm::colbert::{expected_tensors, is_attention, name, validate_head, validate_tail, N_LAYERS};
use bebelm::config::MetadataError;
use bebelm::gguf::GgufFile;

#[test]
fn tensor_contract_matches_published_file() {
    assert_eq!(expected_tensors().len(), 149);
}

#[test]
fn colbert_schedule_and_names() {
    assert!(is_attention(5) && is_attention(14) && !is_attention(3) && !is_attention(15));
    assert_eq!(name(3, "ffn_up.weight"), "blk.3.ffn_up.weight");
    let list = expected_tensors();
    assert_eq!(list[0], ("dense_2.weight".to_string(), vec![1024, 128]));
    assert!(list.contains(&("blk.15.ffn_down.weight".to_string(), vec![4608, 1024])));
    assert_eq!(N_LAYERS, 16);
}

fn push_str(buf: &mut Vec<u8>, s: &str) {
    buf.extend_from_slice(&(s.len() as u64).to_le_bytes());
    buf.extend_from_slice(s.as_bytes());
}

#[test]
fn colbert_checks_report_the_first_failure() {
    let mut body = Vec::new();
    push_str(&mut body, "general.architecture");
    body.extend_from_slice(&8u32.to_le_bytes());
    push_str(&mut body, "lfm2");
    push_str(&mut body, "lfm2.attention.causal");
    body.extend_from_slice(&7u32.to_le_bytes());
    body.push(1);
    let mut buf = Vec::new();
    buf.extend_from_slice(b"GGUF");
    buf.extend_from_slice(&3u32.to_le_bytes());
    buf.extend_from_slice(&0u64.to_le_bytes());
    buf.extend_from_slice(&2u64.to_le_bytes());
    buf.extend_from_slice(&body);
    let g = GgufFile::from_bytes(buf).unwrap();
    assert!(matches!(
        validate_head(&g),
        Err(MetadataError::MissingKey { key }) if key == "lfm2.block_count"
    ));
    assert!(matches!(validate_tail(&g), Err(MetadataError::CausalAttention)));
}

use bebelm::colbert::{document_ids, kept_rows, query_ids, skiplist_ids, DOCUMENT_LENGTH, QUERY_LENGTH};
use bebelm::tokenizer::{byte_to_unicode, Tokenizer};

/// Byte-level vocabulary (id == byte value), no merges, BOS 1.
fn bytes_tokenizer() -> Tokenizer {
    let enc = byte_to_unicode();
    let vocab: Vec<(String, u32)> = (0u32..256).map(|b| (enc[b as usize].to_string(), b)).collect();
    Tokenizer::from_parts(Vec::new(), vocab, Vec::new(), Vec::new(), 1, 2)
}

#[test]
fn queries_are_padded_and_documents_cut() {
    let tok = bytes_tokenizer();
    let q = query_ids(&tok, "hi", 7);
    assert_eq!(q.len(), QUERY_LENGTH);
    let mut want = vec![1u32];
    want.extend("[Q] hi".bytes().map(u32::from));
    want.resize(QUERY_LENGTH, 7);
    assert_eq!(q, want);
    let long = "x".repeat(100);
    let q = query_ids(&tok, &long, 7);
    assert_eq!(q.len(), QUERY_LENGTH);
    assert_eq!(q[QUERY_LENGTH - 1], b'x' as u32);
    let d = document_ids(&tok, "ok");
    assert_eq!(d, [1, b'[' as u32, b'D' as u32, b']' as u32, b' ' as u32, b'o' as u32, b'k' as u32]);
    assert_eq!(document_ids(&tok, &"y".repeat(1000)).len(), DOCUMENT_LENGTH);
}

#[test]
fn punctuation_rows_are_skipped() {
    let tok = bytes_tokenizer();
    let skip = skiplist_ids(&tok);
    assert_eq!(skip.len(), 32);
    assert!(skip.contains(&(b'!' as u32)) && skip.contains(&(b'\\' as u32)) && skip.contains(&(b'~' as u32)));
    assert!(!skip.contains(&(b'a' as u32)));
    let ids = [1, b'a' as u32, b',' as u32, b'b' as u32, b'.' as u32];
    assert_eq!(kept_rows(&ids, &skip), vec![0, 1, 3]);
}
