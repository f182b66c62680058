use bebelm::tensor::GgmlType;

#[test]
fn known_block_sizes() {
    assert_eq!(GgmlType::Q4_K.block(), Some((256, 144)));
    assert_eq!(GgmlType::Q6_K.block(), Some((256, 210)));
    assert_eq!(GgmlType::Q8_0.block(), Some((32, 34)));
    assert_eq!(GgmlType::F32.block(), Some((1, 4)));
    assert_eq!(GgmlType::Other(99).block(), None);
}

#[test]
fn byte_size_math() {
    // 2048x2048 Q4_K matrix: 4_194_304 elems / 256 * 144
    assert_eq!(GgmlType::Q4_K.byte_size(2048 * 2048), Some(2_359_296));
    assert_eq!(GgmlType::F32.byte_size(10), Some(40));
    // not a whole number of blocks -> None
    assert_eq!(GgmlType::Q4_K.byte_size(100), None);
}

#[test]
fn type_roundtrip_names() {
    assert_eq!(GgmlType::from_u32(12), GgmlType::Q4_K);
    assert_eq!(GgmlType::from_u32(14), GgmlType::Q6_K);
    assert_eq!(GgmlType::from_u32(30), GgmlType::BF16);
    assert_eq!(GgmlType::Q4_K.name(), "Q4_K");
    assert_eq!(GgmlType::Other(123).name(), "Other(123)");
}

#[test]
fn unmodeled_discriminants_are_kept() {
    assert_eq!(GgmlType::from_u32(4), GgmlType::Other(4));
    assert_eq!(GgmlType::from_u32(29), GgmlType::Other(29));
    assert_eq!(GgmlType::Other(4).byte_size(4), None);
    assert_eq!(GgmlType::Other(0).name(), "Other(0)");
}

#[test]
fn byte_size_of_each_block_family() {
    assert_eq!(GgmlType::Q8_0.byte_size(64), Some(68));
    assert_eq!(GgmlType::Q6_K.byte_size(512), Some(420));
    assert_eq!(GgmlType::F16.byte_size(3), Some(6));
    assert_eq!(GgmlType::Q8_0.byte_size(33), None);
    assert_eq!(GgmlType::F32.byte_size(0), Some(0));
}
