//! The integer side of dequantization: which weight types can be expanded, the packed
//! sub-block scales of a Q4_K block, and the half-precision to single-precision conversion
//! done on bit patterns.
//!
//! Block byte layouts (little-endian), field order as on disk:
//!
//! ```text
//! block_q4_K (144 B): d:f16  dmin:f16  scales:u8[12]  qs:u8[128]
//! block_q6_K (210 B): ql:u8[128]  qh:u8[64]  scales:i8[16]  d:f16
//! ```

use vstd::prelude::*;

use crate::tensor::{block_of, GgmlType};
use vstd::arithmetic::power2::{
    lemma2_to64, lemma_pow2_adds, lemma_pow2_unfold, pow2,
};

verus! {

/// Whether dequantization handles this type; every type it handles has a block layout.
pub fn supports(dtype: GgmlType) -> (r: bool)
    ensures
        r == (dtype == GgmlType::F32 || dtype == GgmlType::F16 || dtype == GgmlType::Q4_K
            || dtype == GgmlType::Q6_K),
        r ==> block_of(dtype) is Some,
{
    match dtype {
        GgmlType::F32 | GgmlType::F16 | GgmlType::Q4_K | GgmlType::Q6_K => true,
        _ => false,
    }
}

/// The 6-bit scale and min of sub-block `j` in the packed 12-byte `scales` of a Q4_K block:
/// sub-blocks 0..4 keep theirs in the low six bits of bytes `j` and `j + 4`; sub-blocks 4..8
/// combine the nibbles of byte `j + 4` with the top two bits of bytes `j - 4` and `j`.
pub open spec fn scale_min_k4(j: int, s: Seq<u8>) -> (u8, u8) {
    if j < 4 {
        (s[j] & 63, s[j + 4] & 63)
    } else {
        ((s[j + 4] & 0x0f) | ((s[j - 4] >> 6) << 4), (s[j + 4] >> 4) | ((s[j] >> 6) << 4))
    }
}

/// Unpack the 6-bit sub-block scale and min for sub-block `j` from the packed 12-byte
/// `scales` array of a Q4_K block.
pub fn get_scale_min_k4(j: usize, scales: &[u8]) -> (r: (u8, u8))
    requires
        j < 8,
        scales@.len() >= 12,
    ensures
        r == scale_min_k4(j as int, scales@),
        r.0 < 64 && r.1 < 64,
{
    if j < 4 {
        let a = scales[j];
        let b = scales[j + 4];
        assert(a & 63 < 64) by (bit_vector);
        assert(b & 63 < 64) by (bit_vector);
        (a & 63, b & 63)
    } else {
        let lo = scales[j + 4];
        let hi1 = scales[j - 4];
        let hi2 = scales[j];
        assert((lo & 0x0f) | ((hi1 >> 6) << 4) < 64) by (bit_vector);
        assert((lo >> 4) | ((hi2 >> 6) << 4) < 64) by (bit_vector);
        ((lo & 0x0f) | ((hi1 >> 6) << 4), (lo >> 4) | ((hi2 >> 6) << 4))
    }
}

/// The single-precision bit pattern `bits` encodes the same number as the half-precision
/// bit pattern `h`: the same sign; zero for zero; for a subnormal half `m * 2^-24`, a normal
/// single `(2^23 + M) * 2^(E - 150)` of equal value; for a normal half, the exponent rebiased
/// from 15 to 127 and the mantissa widened from 10 to 23 bits; infinities and NaNs keep their
/// mantissa bits.
pub open spec fn f16_bits_as_f32(h: u16, bits: u32) -> bool {
    let sign = (h >> 15) as u32;
    let exp = ((h >> 10) & 0x1f) as int;
    let mant = (h & 0x3ff) as int;
    let e32 = ((bits >> 23) & 0xff) as nat;
    let m32 = (bits & 0x7f_ffff) as int;
    &&& bits >> 31 == sign
    &&& exp == 0 && mant == 0 ==> e32 == 0 && m32 == 0
    &&& exp == 0 && mant != 0 ==> 0 < e32 < 255 && (pow2(23) + m32) * pow2(e32) == mant * pow2(126)
    &&& 0 < exp < 31 ==> e32 == exp + 112 && m32 == mant * 8192
    &&& exp == 31 ==> e32 == 255 && m32 == mant * 8192
}

/// Convert an IEEE-754 half-precision bit pattern to the single-precision bit pattern of the
/// same value (exact, subnormals, infinities and NaNs included).
pub fn f16_to_f32_bits(h: u16) -> (bits: u32)
    ensures
        f16_bits_as_f32(h, bits),
{
    let sign: u32 = ((h as u32) & 0x8000) << 16;
    let exp: u16 = (h >> 10) & 0x1f;
    let mant: u32 = (h & 0x03ff) as u32;
    assert(sign >> 31 == (h >> 15) as u32 && sign & 0x7fff_ffff == 0) by (bit_vector)
        requires
            sign == ((h as u32) & 0x8000) << 16,
    ;
    assert(mant < 1024) by (bit_vector)
        requires
            mant == (h & 0x03ff) as u32,
    ;
    assert(exp < 32) by (bit_vector)
        requires
            exp == (h >> 10) & 0x1f,
    ;
    if exp == 0 {
        if mant == 0 {
            assert((sign >> 23) & 0xff == 0 && sign & 0x7f_ffff == 0) by (bit_vector)
                requires
                    sign & 0x7fff_ffff == 0,
            ;
            sign
        } else {
            // Subnormal: shift the mantissa up until its leading bit reaches bit 10.
            let mut e: u32 = 0;
            let mut m: u32 = mant << 1;
            assert(m == mant * 2) by (bit_vector)
                requires
                    m == mant << 1,
                    mant < 1024,
            ;
            proof {
                lemma2_to64();
            }
            while m & 0x0400 == 0
                invariant
                    1 <= mant < 1024,
                    e <= 9,
                    m == mant * pow2((e + 1) as nat),
                    m < 2048,
                decreases 10 - e,
            {
                assert(m < 1024) by (bit_vector)
                    requires
                        m & 0x0400 == 0,
                        m < 2048,
                ;
                let ghost e0 = e as nat;
                proof {
                    lemma2_to64();
                    if e == 9 {
                        assert(mant * pow2(10) >= pow2(10)) by (nonlinear_arith)
                            requires
                                mant >= 1,
                                pow2(10) > 0,
                        ;
                    }
                    lemma_pow2_unfold(e0 + 2);
                    assert(mant * pow2(e0 + 2) == 2 * (mant * pow2(e0 + 1))) by (nonlinear_arith)
                        requires
                            pow2(e0 + 2) == 2 * pow2(e0 + 1),
                    ;
                }
                let m2 = m << 1;
                assert(m2 == m * 2) by (bit_vector)
                    requires
                        m2 == m << 1,
                        m < 1024,
                ;
                m = m2;
                e += 1;
            }
            assert(m >= 1024) by (bit_vector)
                requires
                    m & 0x0400 != 0,
                    m < 2048,
            ;
            let mant32: u32 = (m & 0x03ff) << 13;
            let eb: u32 = 112 - e;
            let exp32: u32 = eb << 23;
            let bits = sign | exp32 | mant32;
            assert(mant32 == (m - 1024) * 8192) by (bit_vector)
                requires
                    mant32 == (m & 0x03ff) << 13,
                    1024 <= m < 2048,
            ;
            assert(bits >> 31 == sign >> 31 && (bits >> 23) & 0xff == 112 - e && bits & 0x7f_ffff
                == mant32) by (bit_vector)
                requires
                    bits == sign | exp32 | mant32,
                    exp32 == eb << 23,
                    eb == 112 - e,
                    e <= 9,
                    sign & 0x7fff_ffff == 0,
                    mant32 == (m - 1024) * 8192,
                    1024 <= m < 2048,
            ;
            proof {
                let ee = e as nat;
                lemma_pow2_adds(ee + 1, 13);
                lemma_pow2_adds(ee + 14, (112 - ee) as nat);
                assert((ee + 1) + 13 == ee + 14);
                assert((ee + 14) + (112 - ee) == 126);
                assert(pow2(23) + mant32 == m * 8192);
                assert(m * 8192 == mant * pow2(ee + 14)) by (nonlinear_arith)
                    requires
                        m == mant * pow2(ee + 1),
                        pow2(ee + 14) == pow2(ee + 1) * pow2(13),
                        pow2(13) == 8192,
                ;
                assert(mant * pow2(ee + 14) * pow2((112 - ee) as nat) == mant * pow2(126)) by (nonlinear_arith)
                    requires
                        pow2(126) == pow2(ee + 14) * pow2((112 - ee) as nat),
                ;
            }
            bits
        }
    } else if exp == 0x1f {
        let bits = sign | 0x7f80_0000 | (mant << 13);
        assert(bits >> 31 == sign >> 31 && (bits >> 23) & 0xff == 255 && bits & 0x7f_ffff == mant
            * 8192) by (bit_vector)
            requires
                bits == sign | 0x7f80_0000 | (mant << 13),
                sign & 0x7fff_ffff == 0,
                mant < 1024,
        ;
        bits
    } else {
        // Normal: rebias the exponent (15 -> 127) and widen the mantissa (10 -> 23 bits).
        let ex = exp as u32;
        let eb: u32 = ex + 112;
        let exp32: u32 = eb << 23;
        let bits = sign | exp32 | (mant << 13);
        assert(bits >> 31 == sign >> 31 && (bits >> 23) & 0xff == ex + 112 && bits & 0x7f_ffff
            == mant * 8192) by (bit_vector)
            requires
                bits == sign | exp32 | (mant << 13),
                exp32 == eb << 23,
                eb == ex + 112,
                1 <= ex < 31,
                sign & 0x7fff_ffff == 0,
                mant < 1024,
        ;
        bits
    }
}

} // verus!
