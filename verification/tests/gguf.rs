use bebelm::gguf::{GgufError, GgufFile, MetaValue, ValueType};
use bebelm::tensor::GgmlType;

fn push_str(buf: &mut Vec<u8>, s: &str) {
    buf.extend_from_slice(&(s.len() as u64).to_le_bytes());
    buf.extend_from_slice(s.as_bytes());
}

/// Build a small but structurally complete GGUF in memory.
fn build_sample() -> Vec<u8> {
    let mut buf = Vec::new();
    buf.extend_from_slice(b"GGUF");
    buf.extend_from_slice(&3u32.to_le_bytes()); // version
    buf.extend_from_slice(&2u64.to_le_bytes()); // tensor_count
    buf.extend_from_slice(&3u64.to_le_bytes()); // kv_count

    push_str(&mut buf, "general.architecture");
    buf.extend_from_slice(&(ValueType::String as u32).to_le_bytes());
    push_str(&mut buf, "lfm2_moe");

    push_str(&mut buf, "lfm2_moe.block_count");
    buf.extend_from_slice(&(ValueType::U32 as u32).to_le_bytes());
    buf.extend_from_slice(&24u32.to_le_bytes());

    push_str(&mut buf, "tokenizer.ggml.tokens");
    buf.extend_from_slice(&(ValueType::Array as u32).to_le_bytes());
    buf.extend_from_slice(&(ValueType::String as u32).to_le_bytes()); // elem type
    buf.extend_from_slice(&2u64.to_le_bytes()); // len
    push_str(&mut buf, "<bos>");
    push_str(&mut buf, "hello");

    // tensor 0: "a" F32 shape [4], offset 0
    push_str(&mut buf, "a");
    buf.extend_from_slice(&1u32.to_le_bytes());
    buf.extend_from_slice(&4u64.to_le_bytes());
    buf.extend_from_slice(&0u32.to_le_bytes());
    buf.extend_from_slice(&0u64.to_le_bytes());

    // tensor 1: "b" F32 shape [2,3], offset 16
    push_str(&mut buf, "b");
    buf.extend_from_slice(&2u32.to_le_bytes());
    buf.extend_from_slice(&2u64.to_le_bytes());
    buf.extend_from_slice(&3u64.to_le_bytes());
    buf.extend_from_slice(&0u32.to_le_bytes());
    buf.extend_from_slice(&16u64.to_le_bytes());

    while buf.len() % 32 != 0 {
        buf.push(0);
    }
    for v in [1.0f32, 2.0, 3.0, 4.0] {
        buf.extend_from_slice(&v.to_le_bytes());
    }
    for v in [10.0f32, 11.0, 12.0, 13.0, 14.0, 15.0] {
        buf.extend_from_slice(&v.to_le_bytes());
    }
    buf
}

/// A header with `tensor_count` tensors and `kv_count` kvs, then `body`, padded to 32 bytes.
fn header(tensor_count: u64, kv_count: u64, body: &[u8]) -> Vec<u8> {
    let mut buf = Vec::new();
    buf.extend_from_slice(b"GGUF");
    buf.extend_from_slice(&3u32.to_le_bytes());
    buf.extend_from_slice(&tensor_count.to_le_bytes());
    buf.extend_from_slice(&kv_count.to_le_bytes());
    buf.extend_from_slice(body);
    while buf.len() % 32 != 0 {
        buf.push(0);
    }
    buf
}

#[test]
fn parses_header_and_metadata() {
    let g = GgufFile::from_bytes(build_sample()).unwrap();
    assert_eq!(g.version, 3);
    assert_eq!(g.alignment, 32);
    assert_eq!(g.architecture(), Some("lfm2_moe"));
    assert_eq!(g.get_u32("lfm2_moe.block_count"), Some(24));

    match g.get("tokenizer.ggml.tokens") {
        Some(MetaValue::Array { items, .. }) => assert_eq!(items.len(), 2),
        other => panic!("expected token array, got {other:?}"),
    }
}

#[test]
fn parses_tensors_and_data() {
    let g = GgufFile::from_bytes(build_sample()).unwrap();
    assert_eq!(g.tensors.len(), 2);

    let a = &g.tensors[0];
    assert_eq!(a.name, "a");
    assert_eq!(a.dims, vec![4]);
    assert_eq!(a.ggml_type, GgmlType::F32);
    assert_eq!(a.n_elements(), 4);
    assert_eq!(a.data_len, 16);

    let b = &g.tensors[1];
    assert_eq!(b.name, "b");
    assert_eq!(b.dims, vec![2, 3]);
    assert_eq!(b.n_elements(), 6);

    let bytes = g.tensor_data(a);
    let vals: Vec<f32> = bytes
        .chunks_exact(4)
        .map(|c| f32::from_le_bytes(c.try_into().unwrap()))
        .collect();
    assert_eq!(vals, vec![1.0, 2.0, 3.0, 4.0]);

    let bb = g.tensor_data(b);
    let first = f32::from_le_bytes(bb[0..4].try_into().unwrap());
    assert_eq!(first, 10.0);
}

#[test]
fn rejects_bad_magic() {
    let mut buf = build_sample();
    buf[0] = b'X';
    assert!(matches!(GgufFile::from_bytes(buf), Err(GgufError::BadMagic(_))));
}

#[test]
fn rejects_truncated_file() {
    let mut buf = build_sample();
    buf.truncate(10);
    assert!(GgufFile::from_bytes(buf).is_err());
}

#[test]
fn rejects_unsupported_version() {
    let mut buf = build_sample();
    buf[4..8].copy_from_slice(&5u32.to_le_bytes());
    assert!(matches!(GgufFile::from_bytes(buf), Err(GgufError::UnsupportedVersion(5))));
}

#[test]
fn rejects_unknown_value_type() {
    let mut body = Vec::new();
    push_str(&mut body, "weird");
    body.extend_from_slice(&99u32.to_le_bytes());
    assert!(matches!(
        GgufFile::from_bytes(header(0, 1, &body)),
        Err(GgufError::UnknownValueType(99))
    ));
}

#[test]
fn rejects_unknown_tensor_type() {
    let mut body = Vec::new();
    push_str(&mut body, "weird");
    body.extend_from_slice(&1u32.to_le_bytes());
    body.extend_from_slice(&1u64.to_le_bytes());
    body.extend_from_slice(&1000u32.to_le_bytes());
    body.extend_from_slice(&0u64.to_le_bytes());
    assert!(matches!(
        GgufFile::from_bytes(header(1, 0, &body)),
        Err(GgufError::UnknownTensorType { .. })
    ));
}

#[test]
fn rejects_tensor_out_of_bounds() {
    let mut body = Vec::new();
    push_str(&mut body, "big");
    body.extend_from_slice(&1u32.to_le_bytes());
    body.extend_from_slice(&1024u64.to_le_bytes());
    body.extend_from_slice(&0u32.to_le_bytes());
    body.extend_from_slice(&0u64.to_le_bytes());
    assert!(matches!(
        GgufFile::from_bytes(header(1, 0, &body)),
        Err(GgufError::TensorOutOfBounds { .. })
    ));
}

#[test]
fn reads_custom_alignment() {
    let mut body = Vec::new();
    push_str(&mut body, "general.alignment");
    body.extend_from_slice(&(ValueType::U32 as u32).to_le_bytes());
    body.extend_from_slice(&8u32.to_le_bytes());
    let g = GgufFile::from_bytes(header(0, 1, &body)).unwrap();
    assert_eq!(g.alignment, 8);
}

/// The floating-point value of an `F32`/`F64` entry, as the application layer reads it.
fn f32_of(g: &GgufFile, key: &str) -> Option<f32> {
    match g.get(key)? {
        MetaValue::F32(bits) => Some(f32::from_bits(*bits)),
        MetaValue::F64(bits) => Some(f64::from_bits(*bits) as f32),
        _ => None,
    }
}

#[test]
fn accessors_widen_integer_and_float_types() {
    let mut body = Vec::new();
    push_str(&mut body, "k.u8");
    body.extend_from_slice(&(ValueType::U8 as u32).to_le_bytes());
    body.push(7);

    push_str(&mut body, "k.i64");
    body.extend_from_slice(&(ValueType::I64 as u32).to_le_bytes());
    body.extend_from_slice(&123i64.to_le_bytes());

    push_str(&mut body, "k.f64");
    body.extend_from_slice(&(ValueType::F64 as u32).to_le_bytes());
    body.extend_from_slice(&2.5f64.to_bits().to_le_bytes());

    push_str(&mut body, "k.i16arr");
    body.extend_from_slice(&(ValueType::Array as u32).to_le_bytes());
    body.extend_from_slice(&(ValueType::I16 as u32).to_le_bytes());
    body.extend_from_slice(&3u64.to_le_bytes());
    for v in [10i16, 0, 8] {
        body.extend_from_slice(&v.to_le_bytes());
    }

    let g = GgufFile::from_bytes(header(0, 4, &body)).unwrap();
    assert_eq!(g.get_u32("k.u8"), Some(7));
    assert_eq!(g.get_u32("k.i64"), Some(123));
    assert_eq!(f32_of(&g, "k.f64"), Some(2.5));
    assert_eq!(g.get_u32_array("k.i16arr"), Some(vec![10, 0, 8]));
}

#[test]
fn later_duplicate_key_wins() {
    let mut body = Vec::new();
    push_str(&mut body, "k");
    body.extend_from_slice(&(ValueType::U32 as u32).to_le_bytes());
    body.extend_from_slice(&1u32.to_le_bytes());
    push_str(&mut body, "k");
    body.extend_from_slice(&(ValueType::U32 as u32).to_le_bytes());
    body.extend_from_slice(&2u32.to_le_bytes());
    let g = GgufFile::from_bytes(header(0, 2, &body)).unwrap();
    assert_eq!(g.get_u32("k"), Some(2));
    assert_eq!(g.metadata.len(), 2);
}

#[test]
fn integers_outside_u32_are_not_read() {
    let mut body = Vec::new();
    push_str(&mut body, "neg");
    body.extend_from_slice(&(ValueType::I8 as u32).to_le_bytes());
    body.push(0xff);
    push_str(&mut body, "big");
    body.extend_from_slice(&(ValueType::U64 as u32).to_le_bytes());
    body.extend_from_slice(&0x1_0000_0005u64.to_le_bytes());
    push_str(&mut body, "fits");
    body.extend_from_slice(&(ValueType::U64 as u32).to_le_bytes());
    body.extend_from_slice(&0xffff_ffffu64.to_le_bytes());
    let g = GgufFile::from_bytes(header(0, 3, &body)).unwrap();
    // The value is widened, never changed: what `u32` cannot hold is not read.
    assert_eq!(g.get_u32("neg"), None);
    assert_eq!(g.get_u32("big"), None);
    assert_eq!(g.get_u32("fits"), Some(u32::MAX));
    assert_eq!(g.get_u32("missing"), None);
}

#[test]
fn string_arrays_and_strings() {
    let g = GgufFile::from_bytes(build_sample()).unwrap();
    assert_eq!(
        g.get_str_array("tokenizer.ggml.tokens"),
        Some(vec!["<bos>".to_string(), "hello".to_string()])
    );
    assert_eq!(g.get_str_array("lfm2_moe.block_count"), None);
    assert_eq!(g.get_str("lfm2_moe.block_count"), None);
    assert_eq!(g.get_u32_array("tokenizer.ggml.tokens"), None);
    assert_eq!(g.get_u32("general.architecture"), None);
}

#[test]
fn data_section_follows_table_on_alignment_boundary() {
    let g = GgufFile::from_bytes(build_sample()).unwrap();
    assert_eq!(g.data_offset % 32, 0);
    assert_eq!(g.tensors[1].data_start, g.data_offset + 16);
    assert_eq!(g.tensors[1].data_len, 24);
}

#[test]
fn reports_eof_position() {
    let buf = b"GGUF\x03\x00".to_vec();
    match GgufFile::from_bytes(buf) {
        Err(GgufError::UnexpectedEof { needed, pos, len }) => {
            assert_eq!((needed, pos, len), (4, 4, 6));
        }
        _ => panic!("expected end of file"),
    }
}

#[test]
fn rejects_invalid_utf8_key() {
    let mut body = Vec::new();
    body.extend_from_slice(&2u64.to_le_bytes());
    body.extend_from_slice(&[0xff, 0xfe]);
    body.extend_from_slice(&(ValueType::U8 as u32).to_le_bytes());
    body.push(1);
    assert!(matches!(GgufFile::from_bytes(header(0, 1, &body)), Err(GgufError::InvalidUtf8)));
}

#[test]
fn zero_alignment_leaves_data_unpadded() {
    let mut body = Vec::new();
    push_str(&mut body, "general.alignment");
    body.extend_from_slice(&(ValueType::U64 as u32).to_le_bytes());
    body.extend_from_slice(&0u64.to_le_bytes());
    let len_before_padding = 24 + 8 + 17 + 4 + 8;
    let g = GgufFile::from_bytes(header(0, 1, &body)).unwrap();
    assert_eq!(g.alignment, 0);
    assert_eq!(g.data_offset, len_before_padding);
}

#[test]
fn array_elements_convert_with_as() {
    let mut body = Vec::new();
    push_str(&mut body, "k.arr");
    body.extend_from_slice(&(ValueType::Array as u32).to_le_bytes());
    body.extend_from_slice(&(ValueType::I64 as u32).to_le_bytes());
    body.extend_from_slice(&2u64.to_le_bytes());
    body.extend_from_slice(&(-1i64).to_le_bytes());
    body.extend_from_slice(&0x1_0000_0005i64.to_le_bytes());
    let g = GgufFile::from_bytes(header(0, 1, &body)).unwrap();
    assert_eq!(g.get_u32_array("k.arr"), Some(vec![u32::MAX, 5]));
}

#[test]
fn parse_mapped_reads_the_same_file_without_keeping_its_bytes() {
    let bytes = build_sample();
    let owned = GgufFile::from_bytes(bytes.clone()).unwrap();
    let mapped = GgufFile::parse_mapped(&bytes).unwrap();
    assert_eq!(mapped.version, owned.version);
    assert_eq!(mapped.alignment, owned.alignment);
    assert_eq!(mapped.data_offset, owned.data_offset);
    assert_eq!(mapped.metadata.len(), owned.metadata.len());
    assert_eq!(mapped.tensors.len(), owned.tensors.len());
    for (a, b) in mapped.tensors.iter().zip(&owned.tensors) {
        assert_eq!(a.name, b.name);
        assert_eq!((a.data_start, a.data_len), (b.data_start, b.data_len));
        let start = a.data_start as usize;
        assert_eq!(&bytes[start..start + a.data_len as usize], owned.tensor_data(b));
    }
    assert!(mapped.backing.is_empty());
    assert!(matches!(GgufFile::parse_mapped(b"GGUX"), Err(GgufError::BadMagic(_))));
}
