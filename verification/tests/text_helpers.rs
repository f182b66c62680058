use bebelm::byte_token::parse_byte_token;
use bebelm::chatml::{system_turn, tool_turn, user_turn, ASSISTANT_OPEN};
use bebelm::dequant::{f16_to_f32_bits, get_scale_min_k4, supports};
use bebelm::tensor::GgmlType;

#[test]
fn byte_token_parser_is_strict() {
    assert_eq!(parse_byte_token("<0xAF>"), Some(0xaf));
    assert_eq!(parse_byte_token("<0x0>"), None);
    assert_eq!(parse_byte_token("AF"), None);
}

#[test]
fn byte_token_accepts_what_from_str_radix_accepts() {
    assert_eq!(parse_byte_token("<0x0a>"), Some(10));
    assert_eq!(parse_byte_token("<0x+F>"), Some(15));
    assert_eq!(parse_byte_token("<0x-1>"), None);
    assert_eq!(parse_byte_token("<0xG0>"), None);
    assert_eq!(parse_byte_token("<0xFF>x"), None);
}

#[test]
fn chatml_turns() {
    assert_eq!(system_turn("be brief"), "<|im_start|>system\nbe brief<|im_end|>\n");
    assert_eq!(user_turn("hi"), "<|im_start|>user\nhi<|im_end|>\n");
    assert_eq!(tool_turn("42"), "<|im_start|>tool\n42<|im_end|>\n");
    assert_eq!(ASSISTANT_OPEN, "<|im_start|>assistant\n");
}

#[test]
fn f16_known_values() {
    let f = |h: u16| f32::from_bits(f16_to_f32_bits(h));
    assert_eq!(f(0x0000), 0.0);
    assert_eq!(f(0x8000), -0.0);
    assert!(f(0x8000).is_sign_negative());
    assert_eq!(f(0x3c00), 1.0);
    assert_eq!(f(0x4000), 2.0);
    assert_eq!(f(0xc000), -2.0);
    assert_eq!(f(0x7c00), f32::INFINITY);
    assert_eq!(f(0xfc00), f32::NEG_INFINITY);
    assert!(f(0x7e00).is_nan());
    assert_eq!(f(0x0001), 2f32.powi(-24));
    assert_eq!(f(0x03ff), 1023.0 * 2f32.powi(-24));
    assert_eq!(f(0x3555), 0.333_251_95);
}

#[test]
fn q4_k_scales_unpack() {
    let scales: [u8; 12] = [0xff, 1, 2, 3, 0x45, 5, 6, 7, 0xab, 9, 10, 11];
    assert_eq!(get_scale_min_k4(0, &scales), (63, 5));
    assert_eq!(get_scale_min_k4(1, &scales), (1, 5));
    // sub-block 4: low nibble of byte 8 | top bits of byte 0; high nibble of 8 | top of 4.
    assert_eq!(get_scale_min_k4(4, &scales), (0x0b | (3 << 4), 0x0a | (1 << 4)));
}

#[test]
fn dequantizable_types() {
    assert!(supports(GgmlType::F32) && supports(GgmlType::F16));
    assert!(supports(GgmlType::Q4_K) && supports(GgmlType::Q6_K));
    assert!(!supports(GgmlType::Q8_0) && !supports(GgmlType::Other(7)));
}
