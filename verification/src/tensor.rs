//! GGML dtype enum and per-type block sizing.
//!
//! GGML stores quantized tensors in fixed-size "blocks": a group of `block_elems` weights
//! packed into `block_bytes` of storage. Non-quantized types are treated as 1-element blocks.
//! The byte size of a tensor is therefore `(n_elements / block_elems) * block_bytes`.

use vstd::prelude::*;

use crate::text::{decimal, push_decimal};

verus! {

/// A GGML tensor data type: the types we expect plus a catch-all that carries the raw enum
/// value, so the loader can report (rather than crash on) anything new.
#[allow(non_camel_case_types)]
#[derive(Clone, Copy, Debug, PartialEq, Eq, Structural)]
pub enum GgmlType {
    F32,
    F16,
    Q4_0,
    Q4_1,
    Q5_0,
    Q5_1,
    Q8_0,
    Q8_1,
    Q2_K,
    Q3_K,
    Q4_K,
    Q5_K,
    Q6_K,
    Q8_K,
    I8,
    I16,
    I32,
    I64,
    F64,
    BF16,
    /// Any ggml type we don't model yet; carries the raw enum discriminant.
    Other(u32),
}

/// The type an on-disk ggml type value stands for.
pub open spec fn ggml_type_of(v: u32) -> GgmlType {
    match v {
        0 => GgmlType::F32,
        1 => GgmlType::F16,
        2 => GgmlType::Q4_0,
        3 => GgmlType::Q4_1,
        6 => GgmlType::Q5_0,
        7 => GgmlType::Q5_1,
        8 => GgmlType::Q8_0,
        9 => GgmlType::Q8_1,
        10 => GgmlType::Q2_K,
        11 => GgmlType::Q3_K,
        12 => GgmlType::Q4_K,
        13 => GgmlType::Q5_K,
        14 => GgmlType::Q6_K,
        15 => GgmlType::Q8_K,
        24 => GgmlType::I8,
        25 => GgmlType::I16,
        26 => GgmlType::I32,
        27 => GgmlType::I64,
        28 => GgmlType::F64,
        30 => GgmlType::BF16,
        other => GgmlType::Other(other),
    }
}

/// `(elements per block, bytes per block)`, or `None` for types we don't model.
pub open spec fn block_of(t: GgmlType) -> Option<(u64, u64)> {
    match t {
        GgmlType::F32 => Some((1, 4)),
        GgmlType::F16 => Some((1, 2)),
        GgmlType::BF16 => Some((1, 2)),
        GgmlType::F64 => Some((1, 8)),
        GgmlType::I8 => Some((1, 1)),
        GgmlType::I16 => Some((1, 2)),
        GgmlType::I32 => Some((1, 4)),
        GgmlType::I64 => Some((1, 8)),
        GgmlType::Q4_0 => Some((32, 18)),
        GgmlType::Q4_1 => Some((32, 20)),
        GgmlType::Q5_0 => Some((32, 22)),
        GgmlType::Q5_1 => Some((32, 24)),
        GgmlType::Q8_0 => Some((32, 34)),
        GgmlType::Q8_1 => Some((32, 36)),
        GgmlType::Q2_K => Some((256, 84)),
        GgmlType::Q3_K => Some((256, 110)),
        GgmlType::Q4_K => Some((256, 144)),
        GgmlType::Q5_K => Some((256, 176)),
        GgmlType::Q6_K => Some((256, 210)),
        GgmlType::Q8_K => Some((256, 292)),
        GgmlType::Other(_) => None,
    }
}

/// The byte size of `n` elements of type `t`: `None` if the type is unmodeled or `n` is not a
/// whole number of blocks.
pub open spec fn byte_size_of(t: GgmlType, n: int) -> Option<int> {
    match block_of(t) {
        None => None,
        Some((e, b)) => {
            if n % (e as int) != 0 {
                None
            } else {
                Some((n / (e as int)) * (b as int))
            }
        },
    }
}

/// The name a type is displayed with, such as `Q4_K` or `Other(123)`.
pub open spec fn ggml_type_name(t: GgmlType) -> Seq<char> {
    match t {
        GgmlType::F32 => "F32"@,
        GgmlType::F16 => "F16"@,
        GgmlType::Q4_0 => "Q4_0"@,
        GgmlType::Q4_1 => "Q4_1"@,
        GgmlType::Q5_0 => "Q5_0"@,
        GgmlType::Q5_1 => "Q5_1"@,
        GgmlType::Q8_0 => "Q8_0"@,
        GgmlType::Q8_1 => "Q8_1"@,
        GgmlType::Q2_K => "Q2_K"@,
        GgmlType::Q3_K => "Q3_K"@,
        GgmlType::Q4_K => "Q4_K"@,
        GgmlType::Q5_K => "Q5_K"@,
        GgmlType::Q6_K => "Q6_K"@,
        GgmlType::Q8_K => "Q8_K"@,
        GgmlType::I8 => "I8"@,
        GgmlType::I16 => "I16"@,
        GgmlType::I32 => "I32"@,
        GgmlType::I64 => "I64"@,
        GgmlType::F64 => "F64"@,
        GgmlType::BF16 => "BF16"@,
        GgmlType::Other(v) => "Other("@ + decimal(v as nat) + ")"@,
    }
}

impl GgmlType {
    /// Map the on-disk ggml type enum value to a [`GgmlType`].
    pub fn from_u32(v: u32) -> (t: Self)
        ensures
            t == ggml_type_of(v),
    {
        match v {
            0 => Self::F32,
            1 => Self::F16,
            2 => Self::Q4_0,
            3 => Self::Q4_1,
            6 => Self::Q5_0,
            7 => Self::Q5_1,
            8 => Self::Q8_0,
            9 => Self::Q8_1,
            10 => Self::Q2_K,
            11 => Self::Q3_K,
            12 => Self::Q4_K,
            13 => Self::Q5_K,
            14 => Self::Q6_K,
            15 => Self::Q8_K,
            24 => Self::I8,
            25 => Self::I16,
            26 => Self::I32,
            27 => Self::I64,
            28 => Self::F64,
            30 => Self::BF16,
            other => Self::Other(other),
        }
    }

    /// `(elements per block, bytes per block)`, or `None` for types we don't model.
    pub fn block(self) -> (r: Option<(u64, u64)>)
        ensures
            r == block_of(self),
    {
        match self {
            Self::F32 => Some((1, 4)),
            Self::F16 => Some((1, 2)),
            Self::BF16 => Some((1, 2)),
            Self::F64 => Some((1, 8)),
            Self::I8 => Some((1, 1)),
            Self::I16 => Some((1, 2)),
            Self::I32 => Some((1, 4)),
            Self::I64 => Some((1, 8)),
            Self::Q4_0 => Some((32, 18)),
            Self::Q4_1 => Some((32, 20)),
            Self::Q5_0 => Some((32, 22)),
            Self::Q5_1 => Some((32, 24)),
            Self::Q8_0 => Some((32, 34)),
            Self::Q8_1 => Some((32, 36)),
            Self::Q2_K => Some((256, 84)),
            Self::Q3_K => Some((256, 110)),
            Self::Q4_K => Some((256, 144)),
            Self::Q5_K => Some((256, 176)),
            Self::Q6_K => Some((256, 210)),
            Self::Q8_K => Some((256, 292)),
            Self::Other(_) => None,
        }
    }

    /// Byte size of a tensor holding `n_elements` of this type: `None` if the type is
    /// unmodeled, or if `n_elements` is not a whole number of blocks.
    pub fn byte_size(self, n_elements: u64) -> (r: Option<u64>)
        requires
            byte_size_of(self, n_elements as int) matches Some(s) ==> s <= u64::MAX,
        ensures
            r matches Some(s) ==> byte_size_of(self, n_elements as int) == Some(s as int),
            r is None ==> byte_size_of(self, n_elements as int) is None,
    {
        let (blk_elems, blk_bytes) = match self.block() {
            Some(b) => b,
            None => return None,
        };
        if !n_elements.is_multiple_of(blk_elems) {
            return None;
        }
        Some((n_elements / blk_elems) * blk_bytes)
    }

    /// The type's display name, such as `Q4_K` or `Other(123)`.
    pub fn name(&self) -> (s: String)
        ensures
            s@ == ggml_type_name(*self),
    {
        let mut s = String::new();
        match self {
            Self::F32 => s.append("F32"),
            Self::F16 => s.append("F16"),
            Self::Q4_0 => s.append("Q4_0"),
            Self::Q4_1 => s.append("Q4_1"),
            Self::Q5_0 => s.append("Q5_0"),
            Self::Q5_1 => s.append("Q5_1"),
            Self::Q8_0 => s.append("Q8_0"),
            Self::Q8_1 => s.append("Q8_1"),
            Self::Q2_K => s.append("Q2_K"),
            Self::Q3_K => s.append("Q3_K"),
            Self::Q4_K => s.append("Q4_K"),
            Self::Q5_K => s.append("Q5_K"),
            Self::Q6_K => s.append("Q6_K"),
            Self::Q8_K => s.append("Q8_K"),
            Self::I8 => s.append("I8"),
            Self::I16 => s.append("I16"),
            Self::I32 => s.append("I32"),
            Self::I64 => s.append("I64"),
            Self::F64 => s.append("F64"),
            Self::BF16 => s.append("BF16"),
            Self::Other(v) => {
                s.append("Other(");
                push_decimal(&mut s, *v as u64);
                s.append(")");
            },
        }
        assert(s@ =~= ggml_type_name(*self));
        s
    }
}

} // verus!
