use bebelm::tokenizer::{
    byte_to_unicode, pretokenize, TOKEN_BOS, TOKEN_EOS, TOKEN_IM_END, TOKEN_PAD, TOKEN_THINK,
};

fn pt(s: &str) -> Vec<String> {
    pretokenize(s)
}

#[test]
fn byte_table_is_reversible() {
    let enc = byte_to_unicode();
    let mut seen = std::collections::HashSet::new();
    for (b, &ch) in enc.iter().enumerate() {
        assert!(seen.insert(ch), "byte {b} char not unique");
    }
}

#[test]
fn pretokenize_words_and_spaces() {
    assert_eq!(pt("The capital of France is"), ["The", " capital", " of", " France", " is"]);
    assert_eq!(pt("Hello world"), ["Hello", " world"]);
    assert_eq!(pt("  hi"), [" ", " hi"]);
}

#[test]
fn pretokenize_contractions_numbers_punct() {
    assert_eq!(pt("I'm"), ["I", "'m"]);
    assert_eq!(pt("don't"), ["don", "'t"]);
    assert_eq!(pt("abc123"), ["abc", "123"]);
    assert_eq!(pt("1234"), ["123", "4"]);
    assert_eq!(pt("hello!"), ["hello", "!"]);
    assert_eq!(pt("a, b"), ["a", ",", " b"]);
}

#[test]
fn pretokenize_newlines_and_trailing_space() {
    assert_eq!(pt("a\nb"), ["a", "\n", "b"]);
    assert_eq!(pt("hi\n\n"), ["hi", "\n\n"]);
    assert_eq!(pt("hi "), ["hi", " "]);
}

#[test]
fn byte_table_known_entries() {
    let enc = byte_to_unicode();
    assert_eq!(enc[b'A' as usize], 'A');
    assert_eq!(enc[b' ' as usize], '\u{120}');
    assert_eq!(enc[0], '\u{100}');
    assert_eq!(enc[0x7F], '\u{121}');
    assert_eq!(enc[0xAD], '\u{143}');
    assert_eq!(enc[0xFF], '\u{FF}');
}

#[test]
fn pretokens_spell_the_text_back() {
    for s in ["", "  spaced  out\n\n x", "It's 12345 o'clock!!\r\n", "café ☕ 'LL"] {
        let pieces = pt(s);
        assert!(pieces.iter().all(|p| !p.is_empty()));
        assert_eq!(pieces.concat(), s);
    }
}

#[test]
fn contractions_are_case_insensitive() {
    assert_eq!(pt("WE'LL"), ["WE", "'LL"]);
    assert_eq!(pt("they'Ve"), ["they", "'Ve"]);
}

#[test]
fn eos_is_im_end() {
    assert_eq!(TOKEN_EOS, TOKEN_IM_END);
}

use bebelm::gguf::GgufFile;
use bebelm::tokenizer::{special_tokens, Tokenizer, TokenizerError};

/// A minimal tokenizer with no merges, a byte-char vocab (id == byte value), and two special
/// tokens — enough to exercise `encode`'s special-token splitting.
fn toy() -> Tokenizer {
    let byte_encoder = byte_to_unicode();
    let vocab: Vec<(String, u32)> =
        (0u32..256).map(|b| (byte_encoder[b as usize].to_string(), b)).collect();
    Tokenizer::from_parts(
        Vec::new(),
        vocab,
        Vec::new(),
        vec![("<|im_start|>".to_string(), 1000), ("<|im_end|>".to_string(), 1001)],
        2,
        1001,
    )
}

#[test]
fn encode_emits_special_token_ids() {
    let ids = toy().encode("hi<|im_start|>x<|im_end|>", false);
    assert_eq!(ids, [b'h' as u32, b'i' as u32, 1000, b'x' as u32, 1001]);
}

#[test]
fn encode_adjacent_specials_have_no_gap() {
    assert_eq!(toy().encode("<|im_start|><|im_end|>", false), [1000, 1001]);
}

#[test]
fn encode_plaintext_has_no_special_ids() {
    let ids = toy().encode("hello", false);
    assert_eq!(ids, "hello".bytes().map(u32::from).collect::<Vec<_>>());
}

/// A tokenizer with a full byte-char vocab (id == byte value), the given merge rules (in
/// priority order, rank 0 = highest), and any extra whole-token strings appended.
fn toy_bpe(merges: &[(&str, &str)], extra: &[&str]) -> Tokenizer {
    let byte_encoder = byte_to_unicode();
    let mut id_to_token: Vec<String> = (0..256).map(|b| byte_encoder[b].to_string()).collect();
    id_to_token.extend(extra.iter().map(|s| s.to_string()));
    let vocab: Vec<(String, u32)> =
        id_to_token.iter().enumerate().map(|(i, t)| (t.clone(), i as u32)).collect();
    let merges: Vec<(String, String)> =
        merges.iter().map(|(a, b)| (a.to_string(), b.to_string())).collect();
    Tokenizer::from_parts(id_to_token, vocab, merges, Vec::new(), 2, 1001)
}

#[test]
fn bpe_merges_lowest_rank_pair_first() {
    let tok = toy_bpe(&[("b", "c"), ("a", "b")], &["bc", "ab"]);
    assert_eq!(tok.encode("abc", false), [b'a' as u32, 256]);
}

#[test]
fn bpe_applies_chained_merges() {
    let tok = toy_bpe(&[("a", "b"), ("ab", "c")], &["ab", "abc"]);
    assert_eq!(tok.encode("abc", false), [257]);
}

#[test]
fn encode_decode_roundtrips_plain_text() {
    let tok = toy_bpe(&[], &[]);
    for s in ["hello world", "café ☕", "a\nb\tc", "  spaced  "] {
        let ids = tok.encode(s, false);
        assert_eq!(tok.decode(&ids), s, "roundtrip {s:?}");
    }
}

#[test]
fn encode_prepends_bos_and_decode_skips_unknown_ids() {
    let tok = toy_bpe(&[("h", "i")], &["hi"]);
    assert_eq!(tok.encode("hi", true), [2, 256]);
    assert_eq!(tok.decode(&[256, 99_999, b'!' as u32]), "hi!");
    assert_eq!(tok.vocab_size(), 257);
}

#[test]
fn longest_special_wins_at_the_same_position() {
    let tok = Tokenizer::from_parts(
        Vec::new(),
        (0u32..256).map(|b| (byte_to_unicode()[b as usize].to_string(), b)).collect(),
        Vec::new(),
        vec![("<a>".to_string(), 500), ("<a><b>".to_string(), 501)],
        2,
        3,
    );
    assert_eq!(tok.encode("x<a><b>", false), [b'x' as u32, 501]);
    assert_eq!(tok.encode("<a>", false), [500]);
}

fn push_str(buf: &mut Vec<u8>, s: &str) {
    buf.extend_from_slice(&(s.len() as u64).to_le_bytes());
    buf.extend_from_slice(s.as_bytes());
}

fn kv_str(buf: &mut Vec<u8>, key: &str, val: &str) {
    push_str(buf, key);
    buf.extend_from_slice(&8u32.to_le_bytes());
    push_str(buf, val);
}

fn kv_str_array(buf: &mut Vec<u8>, key: &str, vals: &[String]) {
    push_str(buf, key);
    buf.extend_from_slice(&9u32.to_le_bytes());
    buf.extend_from_slice(&8u32.to_le_bytes());
    buf.extend_from_slice(&(vals.len() as u64).to_le_bytes());
    for v in vals {
        push_str(buf, v);
    }
}

fn kv_u32_array(buf: &mut Vec<u8>, key: &str, vals: &[u32]) {
    push_str(buf, key);
    buf.extend_from_slice(&9u32.to_le_bytes());
    buf.extend_from_slice(&4u32.to_le_bytes());
    buf.extend_from_slice(&(vals.len() as u64).to_le_bytes());
    for v in vals {
        buf.extend_from_slice(&v.to_le_bytes());
    }
}

fn gguf(kvs: &[u8], n: u64) -> GgufFile {
    let mut buf = Vec::new();
    buf.extend_from_slice(b"GGUF");
    buf.extend_from_slice(&3u32.to_le_bytes());
    buf.extend_from_slice(&0u64.to_le_bytes());
    buf.extend_from_slice(&n.to_le_bytes());
    buf.extend_from_slice(kvs);
    GgufFile::from_bytes(buf).unwrap()
}

/// A vocabulary with the byte characters first and the named control tokens at their ids.
fn full_vocab() -> Vec<String> {
    let enc = byte_to_unicode();
    let specials = special_tokens();
    let top = specials.iter().map(|&(_, id)| id).max().unwrap() as usize;
    let mut tokens: Vec<String> = (0..=top).map(|i| format!("<unused{i}>")).collect();
    for b in 0..256 {
        tokens[b] = enc[b].to_string();
    }
    tokens[256] = "hi".to_string();
    for &(lit, id) in &specials {
        tokens[id as usize] = lit.to_string();
    }
    tokens
}

#[test]
fn from_gguf_reads_the_vocabulary() {
    let tokens = full_vocab();
    let mut types = vec![1u32; tokens.len()];
    for &(_, id) in &special_tokens() {
        types[id as usize] = 3;
    }
    let mut kvs = Vec::new();
    kv_str(&mut kvs, "tokenizer.ggml.model", "gpt2");
    kv_str_array(&mut kvs, "tokenizer.ggml.tokens", &tokens);
    kv_str_array(&mut kvs, "tokenizer.ggml.merges", &["h i".to_string()]);
    kv_u32_array(&mut kvs, "tokenizer.ggml.token_type", &types);
    let tok = Tokenizer::from_gguf(&gguf(&kvs, 4)).unwrap();
    assert_eq!(tok.vocab_size(), tokens.len());
    assert_eq!(tok.bos, TOKEN_BOS);
    assert_eq!(tok.eos, TOKEN_EOS);
    assert_eq!(tok.encode("hi<think>", true), [TOKEN_BOS, 256, TOKEN_THINK]);
    assert_eq!(tok.decode(&[256, TOKEN_THINK, b'!' as u32]), "hi<think>!");
}

#[test]
fn from_gguf_rejects_other_models_and_missing_parts() {
    let mut kvs = Vec::new();
    kv_str(&mut kvs, "tokenizer.ggml.model", "llama");
    assert!(matches!(
        Tokenizer::from_gguf(&gguf(&kvs, 1)),
        Err(TokenizerError::UnsupportedModel { model }) if model == "llama"
    ));
    assert!(matches!(
        Tokenizer::from_gguf(&gguf(&[], 0)),
        Err(TokenizerError::UnsupportedModel { model }) if model.is_empty()
    ));
    let mut kvs = Vec::new();
    kv_str(&mut kvs, "tokenizer.ggml.model", "gpt2");
    assert!(matches!(Tokenizer::from_gguf(&gguf(&kvs, 1)), Err(TokenizerError::MissingTokens)));
    kv_str_array(&mut kvs, "tokenizer.ggml.tokens", &["a".to_string()]);
    assert!(matches!(Tokenizer::from_gguf(&gguf(&kvs, 2)), Err(TokenizerError::MissingMerges)));
    kv_str_array(&mut kvs, "tokenizer.ggml.merges", &[]);
    assert!(matches!(
        Tokenizer::from_gguf(&gguf(&kvs, 3)),
        Err(TokenizerError::SpecialMismatch { id: TOKEN_PAD, got: None, .. })
    ));
}

#[test]
fn relaxed_loading_skips_the_named_control_tokens() {
    let enc = byte_to_unicode();
    let tokens: Vec<String> = (0..256).map(|b| enc[b].to_string()).collect();
    let mut kvs = Vec::new();
    kv_str(&mut kvs, "tokenizer.ggml.model", "gpt2");
    kv_str_array(&mut kvs, "tokenizer.ggml.tokens", &tokens);
    kv_str_array(&mut kvs, "tokenizer.ggml.merges", &[]);
    let g = gguf(&kvs, 3);
    assert!(matches!(Tokenizer::from_gguf(&g), Err(TokenizerError::SpecialMismatch { .. })));
    let tok = Tokenizer::from_gguf_relaxed(&g).unwrap();
    assert_eq!(tok.vocab_size(), 256);
    assert_eq!(tok.encode("ab", false), [b'a' as u32, b'b' as u32]);
}
