use bebelm::model::{expected_tensors, expert_bytes, is_q8_int, name};
use bebelm::tensor::GgmlType;

#[test]
fn expected_tensor_count_matches_file() {
    assert_eq!(expected_tensors().len(), 256);
}

#[test]
fn expected_tensors_have_unique_names() {
    let mut names: Vec<&String> = Vec::new();
    let list = expected_tensors();
    for (n, _) in &list {
        names.push(n);
    }
    names.sort();
    let before = names.len();
    names.dedup();
    assert_eq!(before, names.len(), "duplicate tensor names generated");
}

#[test]
fn expected_tensors_follow_the_schedule() {
    let list = expected_tensors();
    assert_eq!(list[0], ("token_embd.weight".to_string(), vec![2048, 128000]));
    assert_eq!(list[1], ("token_embd_norm.weight".to_string(), vec![2048]));
    assert_eq!(list[2], ("blk.0.attn_norm.weight".to_string(), vec![2048]));
    assert!(list.contains(&("blk.2.attn_k.weight".to_string(), vec![2048, 512])));
    assert!(list.contains(&("blk.0.shortconv.in_proj.weight".to_string(), vec![2048, 6144])));
    assert!(list.contains(&("blk.23.ffn_down_exps.weight".to_string(), vec![1792, 2048, 32])));
    assert!(!list.iter().any(|(n, _)| n == "blk.0.ffn_gate_exps.weight"));
}

#[test]
fn layer_names_and_weight_helpers() {
    assert_eq!(name(12, "attn_q.weight"), "blk.12.attn_q.weight");
    assert!(is_q8_int(GgmlType::Q4_K) && is_q8_int(GgmlType::Q6_K));
    assert!(!is_q8_int(GgmlType::F32) && !is_q8_int(GgmlType::Q8_0));
    // 2048 inputs in Q4_K blocks of 256 elements / 144 bytes, 1792 outputs.
    assert_eq!(expert_bytes(GgmlType::Q4_K, 2048, 1792), 1792 * 8 * 144);
    assert_eq!(expert_bytes(GgmlType::F32, 3, 2), 24);
}

use bebelm::gguf::TensorInfo;
use bebelm::model::{check_tensors, TensorCheckError, TensorIndex};

fn tensor(name: &str, dims: &[u64], ggml_type: GgmlType) -> TensorInfo {
    TensorInfo { name: name.to_string(), dims: dims.to_vec(), ggml_type, offset: 0, data_start: 0, data_len: 0 }
}

fn contract(list: &[(&str, &[u64])]) -> Vec<(String, Vec<u64>)> {
    list.iter().map(|(n, d)| (n.to_string(), d.to_vec())).collect()
}

#[test]
fn tensor_check_reports_the_first_broken_entry() {
    let tensors = vec![
        tensor("a", &[4, 2], GgmlType::F32),
        tensor("b", &[8], GgmlType::Q8_0),
        tensor("c", &[3], GgmlType::Q4_K),
    ];
    assert!(check_tensors(&tensors, &contract(&[("a", &[4, 2]), ("c", &[3])]), true).is_ok());
    assert!(matches!(
        check_tensors(&tensors, &contract(&[("a", &[4, 2]), ("z", &[1])]), true),
        Err(TensorCheckError::Missing { name }) if name == "z"
    ));
    assert!(matches!(
        check_tensors(&tensors, &contract(&[("a", &[2, 4]), ("z", &[1])]), true),
        Err(TensorCheckError::Shape { name, got, expected }) if name == "a" && got == [4, 2] && expected == [2, 4]
    ));
    assert!(matches!(
        check_tensors(&tensors, &contract(&[("b", &[8])]), true),
        Err(TensorCheckError::Unsupported { name, dtype: GgmlType::Q8_0 }) if name == "b"
    ));
    assert!(check_tensors(&tensors, &contract(&[("b", &[8])]), false).is_ok());
}

#[test]
fn tensor_index_finds_the_last_tensor_of_a_name() {
    let tensors = vec![tensor("w", &[1], GgmlType::F32), tensor("x", &[2], GgmlType::F32), tensor("w", &[3], GgmlType::F32)];
    let index = TensorIndex::new(&tensors);
    assert_eq!(index.get("w"), Some(2));
    assert_eq!(index.get("x"), Some(1));
    assert_eq!(index.get("y"), None);
    assert!(check_tensors(&tensors, &contract(&[("w", &[3])]), true).is_ok());
}

#[test]
fn unique_index_refuses_a_repeated_name() {
    let tensors = vec![tensor("w", &[1], GgmlType::F32), tensor("x", &[2], GgmlType::F32), tensor("w", &[3], GgmlType::F32)];
    let err = TensorIndex::new_unique(&tensors).err().unwrap();
    assert_eq!(err.name, "w");
    let ok = TensorIndex::new_unique(&tensors[..2]).unwrap();
    assert_eq!(ok.get("x"), Some(1));
}
