use bebelm::gguf::GgufFile;
use bebelm::sentencepiece::{total_order_key, SentencePieceError, SpecialRole, Tokenizer};

fn pieces(list: &[&str]) -> Vec<String> {
    list.iter().map(|s| s.to_string()).collect()
}

fn bits(scores: &[f32]) -> Vec<u32> {
    scores.iter().map(|s| s.to_bits()).collect()
}

fn tokenizer() -> Tokenizer {
    let tokens = pieces(&["<pad>", "<eos>", "<bos>", "<unk>", "a", "b", "c", "ab", "bc", "abc", "▁", "▁a"]);
    let scores = [-1000.0, -1000.0, -1000.0, -1000.0, -5.0, -5.0, -5.0, -2.0, -3.0, -1.0, -2.0, -1.0];
    Tokenizer::from_parts(tokens, bits(&scores), vec![3; 256], 2, 1, true, true)
}

#[test]
fn highest_scoring_merges_win() {
    assert_eq!(tokenizer().encode("abc"), vec![2, 9, 1]);
}

#[test]
fn spaces_are_sentencepiece_markers() {
    assert_eq!(tokenizer().encode(" a"), vec![2, 11, 1]);
}

#[test]
fn empty_input_still_gets_model_specials() {
    assert_eq!(tokenizer().encode(""), vec![2, 1]);
}

#[test]
fn equal_scores_merge_leftmost_first() {
    let tok = Tokenizer::from_parts(pieces(&["a", "aa"]), bits(&[-1.0, -1.0]), vec![0; 256], 0, 0, false, false);
    // "aaa": both pairs join to "aa"; the left one merges, and "aa"+"a" is no piece.
    assert_eq!(tok.encode("aaa"), vec![1, 0]);
    assert_eq!(tok.encode("aaaa"), vec![1, 1]);
}

#[test]
fn unknown_pieces_fall_back_to_byte_ids() {
    let mut byte_to_id = vec![3u32; 256];
    byte_to_id[0xC3] = 4;
    byte_to_id[0xA9] = 5;
    let tok = Tokenizer::from_parts(
        pieces(&["<pad>", "<eos>", "<bos>", "<unk>", "<0xC3>", "<0xA9>", "▁", "x"]),
        bits(&[0.0; 8]),
        byte_to_id,
        2,
        1,
        false,
        true,
    );
    assert_eq!(tok.encode("é x"), vec![4, 5, 6, 7, 1]);
    // A byte without a fallback piece maps to the unknown id.
    assert_eq!(tok.encode("y"), vec![3, 1]);
}

#[test]
fn token_piece_renders_escaped_spaces() {
    let tok = tokenizer();
    assert_eq!(tok.token_piece(11).as_deref(), Some(" a"));
    assert_eq!(tok.token_piece(9).as_deref(), Some("abc"));
    assert_eq!(tok.token_piece(12), None);
    assert_eq!(tok.bos_id(), 2);
    assert_eq!(tok.eos_id(), 1);
    assert!(tok.adds_eos());
    assert_eq!(tok.vocab_size(), 12);
}

#[test]
fn total_order_keys_follow_float_order() {
    assert_eq!(total_order_key(0.0f32.to_bits()), 0);
    assert_eq!(total_order_key(1.0f32.to_bits()), 0x3f80_0000);
    assert_eq!(total_order_key((-0.0f32).to_bits()), -1);
    assert_eq!(total_order_key((-2.0f32).to_bits()), 0x7fff_ffff - 0xc000_0000i64);
    let values = [f32::NEG_INFINITY, -1000.0, -5.0, -2.0, -0.0, 0.0, 0.5, 3.0, f32::INFINITY];
    for w in values.windows(2) {
        assert!(total_order_key(w[0].to_bits()) < total_order_key(w[1].to_bits()));
    }
}

#[test]
fn pieces_spell_the_escaped_text() {
    let tok = tokenizer();
    for text in ["abc abc", " ab c", "cab", "a b c"] {
        let rendered: String = tok
            .encode(text)
            .iter()
            .filter(|&&id| id != 1 && id != 2)
            .map(|&id| tok.token_piece(id).unwrap())
            .collect();
        assert_eq!(rendered, text);
    }
}

fn push_str(buf: &mut Vec<u8>, s: &str) {
    buf.extend_from_slice(&(s.len() as u64).to_le_bytes());
    buf.extend_from_slice(s.as_bytes());
}

fn kv_str(buf: &mut Vec<u8>, key: &str, val: &str) {
    push_str(buf, key);
    buf.extend_from_slice(&8u32.to_le_bytes());
    push_str(buf, val);
}

fn kv_u32(buf: &mut Vec<u8>, key: &str, val: u32) {
    push_str(buf, key);
    buf.extend_from_slice(&4u32.to_le_bytes());
    buf.extend_from_slice(&val.to_le_bytes());
}

fn kv_bool(buf: &mut Vec<u8>, key: &str, val: bool) {
    push_str(buf, key);
    buf.extend_from_slice(&7u32.to_le_bytes());
    buf.push(val as u8);
}

fn kv_str_array(buf: &mut Vec<u8>, key: &str, vals: &[String]) {
    push_str(buf, key);
    buf.extend_from_slice(&9u32.to_le_bytes());
    buf.extend_from_slice(&8u32.to_le_bytes());
    buf.extend_from_slice(&(vals.len() as u64).to_le_bytes());
    for v in vals {
        push_str(buf, v);
    }
}

fn kv_u32_array(buf: &mut Vec<u8>, key: &str, vals: &[u32]) {
    push_str(buf, key);
    buf.extend_from_slice(&9u32.to_le_bytes());
    buf.extend_from_slice(&4u32.to_le_bytes());
    buf.extend_from_slice(&(vals.len() as u64).to_le_bytes());
    for v in vals {
        buf.extend_from_slice(&v.to_le_bytes());
    }
}

fn kv_f32_array(buf: &mut Vec<u8>, key: &str, vals: &[f32]) {
    push_str(buf, key);
    buf.extend_from_slice(&9u32.to_le_bytes());
    buf.extend_from_slice(&6u32.to_le_bytes());
    buf.extend_from_slice(&(vals.len() as u64).to_le_bytes());
    for v in vals {
        buf.extend_from_slice(&v.to_le_bytes());
    }
}

fn gguf(kvs: &[u8], n: u64) -> GgufFile {
    let mut buf = Vec::new();
    buf.extend_from_slice(b"GGUF");
    buf.extend_from_slice(&3u32.to_le_bytes());
    buf.extend_from_slice(&0u64.to_le_bytes());
    buf.extend_from_slice(&n.to_le_bytes());
    buf.extend_from_slice(kvs);
    GgufFile::from_bytes(buf).unwrap()
}

fn vocab_kvs(tokens: &[String], scores: &[f32], types: &[u32]) -> Vec<u8> {
    let mut kvs = Vec::new();
    kv_str(&mut kvs, "tokenizer.ggml.model", "llama");
    kv_str_array(&mut kvs, "tokenizer.ggml.tokens", tokens);
    kv_f32_array(&mut kvs, "tokenizer.ggml.scores", scores);
    kv_u32_array(&mut kvs, "tokenizer.ggml.token_type", types);
    kvs
}

#[test]
fn from_gguf_reads_pieces_scores_and_byte_fallback() {
    let tokens = pieces(&["<pad>", "<eos>", "<bos>", "<unk>", "<0xC3>", "<0xA9>", "▁", "x", "▁x"]);
    let scores = [0.0, 0.0, 0.0, 0.0, 0.0, 0.0, -1.0, -1.0, -0.5];
    let types = [3, 3, 3, 2, 6, 6, 1, 1, 1];
    let kvs = vocab_kvs(&tokens, &scores, &types);
    let tok = Tokenizer::from_gguf(&gguf(&kvs, 4)).unwrap();
    assert_eq!(tok.vocab_size(), 9);
    assert_eq!(tok.bos_id(), 2);
    assert_eq!(tok.eos_id(), 1);
    assert!(tok.adds_eos());
    // "é x" → "é▁x": é has no piece and falls back to its bytes; "▁x" merges.
    assert_eq!(tok.encode("é x"), vec![2, 4, 5, 8, 1]);
    // A byte with no `<0xHH>` piece falls back to the unknown id.
    assert_eq!(tok.encode("y"), vec![2, 3, 1]);

    let mut kvs = vocab_kvs(&tokens, &scores, &types);
    kv_bool(&mut kvs, "tokenizer.ggml.add_bos_token", false);
    kv_bool(&mut kvs, "tokenizer.ggml.add_eos_token", false);
    kv_u32(&mut kvs, "tokenizer.ggml.unknown_token_id", 0);
    let tok = Tokenizer::from_gguf(&gguf(&kvs, 7)).unwrap();
    assert!(!tok.adds_eos());
    assert_eq!(tok.encode("xy"), vec![7, 0]);
}

#[test]
fn from_gguf_reports_each_failure() {
    let mut kvs = Vec::new();
    kv_str(&mut kvs, "tokenizer.ggml.model", "gpt2");
    assert!(matches!(
        Tokenizer::from_gguf(&gguf(&kvs, 1)),
        Err(SentencePieceError::UnsupportedModel { model }) if model == "gpt2"
    ));
    assert!(matches!(
        Tokenizer::from_gguf(&gguf(&[], 0)),
        Err(SentencePieceError::UnsupportedModel { model }) if model.is_empty()
    ));

    let mut kvs = Vec::new();
    kv_str(&mut kvs, "tokenizer.ggml.model", "llama");
    assert!(matches!(Tokenizer::from_gguf(&gguf(&kvs, 1)), Err(SentencePieceError::MissingTokens)));
    let tokens = pieces(&["<pad>", "<eos>", "<bos>", "<unk>"]);
    kv_str_array(&mut kvs, "tokenizer.ggml.tokens", &tokens);
    assert!(matches!(Tokenizer::from_gguf(&gguf(&kvs, 2)), Err(SentencePieceError::MissingScores)));
    kv_f32_array(&mut kvs, "tokenizer.ggml.scores", &[0.0; 3]);
    assert!(matches!(Tokenizer::from_gguf(&gguf(&kvs, 3)), Err(SentencePieceError::MissingTokenTypes)));
    kv_u32_array(&mut kvs, "tokenizer.ggml.token_type", &[1; 4]);
    assert!(matches!(
        Tokenizer::from_gguf(&gguf(&kvs, 4)),
        Err(SentencePieceError::LengthMismatch { tokens: 4, scores: 3, types: 4 })
    ));

    let kvs = vocab_kvs(&tokens[..3], &[0.0; 3], &[1; 3]);
    assert!(matches!(
        Tokenizer::from_gguf(&gguf(&kvs, 4)),
        Err(SentencePieceError::OutOfVocabulary { role: SpecialRole::Unknown, id: 3, vocab_size: 3 })
    ));
    let mut kvs = vocab_kvs(&tokens, &[0.0; 4], &[1; 4]);
    kv_u32(&mut kvs, "tokenizer.ggml.bos_token_id", 9);
    assert!(matches!(
        Tokenizer::from_gguf(&gguf(&kvs, 5)),
        Err(SentencePieceError::OutOfVocabulary { role: SpecialRole::Bos, id: 9, vocab_size: 4 })
    ));
    let mut kvs = vocab_kvs(&tokens, &[0.0; 4], &[1; 4]);
    kv_u32(&mut kvs, "tokenizer.ggml.eos_token_id", 4);
    assert!(matches!(
        Tokenizer::from_gguf(&gguf(&kvs, 5)),
        Err(SentencePieceError::OutOfVocabulary { role: SpecialRole::Eos, id: 4, vocab_size: 4 })
    ));
}
