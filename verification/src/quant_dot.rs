//! Exact integer dot products of K-quant weight blocks against int8 activations.
//!
//! A Q6_K block holds 256 six-bit weights (`q − 32`, split into a low nibble in `ql` and two
//! high bits in `qh`) in 16 sub-blocks of 16, each with a signed 8-bit scale; a Q4_K block
//! holds 256 four-bit weights in 8 sub-blocks of 32. The weighted sub-block dot
//! `Σ_s sc_s·⟨w_s, x_s⟩` is computed exactly in `i32`, either straight from the packed block
//! or from weights unpacked once into int8 (which amortizes the unpacking over many
//! activation vectors): both give the same integer.

use vstd::prelude::*;

verus! {

/// The values of an int8 sequence as integers.
pub open spec fn i8s(s: Seq<i8>) -> Seq<int> {
    s.map_values(|v: i8| v as int)
}

/// The values of an i32 sequence as integers.
pub open spec fn i32s(s: Seq<i32>) -> Seq<int> {
    s.map_values(|v: i32| v as int)
}

/// `Σ_{i<n} w[lo+i]·x[lo+i]`.
pub open spec fn block_dot(w: Seq<int>, x: Seq<int>, lo: int, n: int) -> int
    decreases n,
{
    if n <= 0 {
        0
    } else {
        block_dot(w, x, lo, n - 1) + w[lo + n - 1] * x[lo + n - 1]
    }
}

/// `Σ_{s<nsub} sc[s]·⟨w_s, x_s⟩` over sub-blocks of `group` consecutive entries.
pub open spec fn weighted_sum(w: Seq<int>, x: Seq<int>, sc: Seq<int>, group: int, nsub: int) -> int
    decreases nsub,
{
    if nsub <= 0 {
        0
    } else {
        weighted_sum(w, x, sc, group, nsub - 1) + sc[nsub - 1] * block_dot(w, x, (nsub - 1) * group, group)
    }
}

/// The 4-bit value in the low or high half of a byte.
pub open spec fn nibble(b: u8, high: bool) -> int {
    if high {
        b as int / 16
    } else {
        b as int % 16
    }
}

/// Q6_K weight `o` (in output order) of a block: the low nibble from `ql`, two high bits
/// from `qh`, recentered by 32.
pub open spec fn q6k_weight(block: Seq<u8>, o: int) -> int {
    let n = o / 128;
    let r = o % 128;
    let g = r / 32;
    let li = r % 32;
    let ql_off: int = if g % 2 == 1 {
        32
    } else {
        0
    };
    let low = nibble(block[n * 64 + ql_off + li], g >= 2);
    let div: int = if g == 0 {
        1
    } else if g == 1 {
        4
    } else if g == 2 {
        16
    } else {
        64
    };
    let hi = (block[128 + n * 32 + li] as int / div) % 4;
    low + 16 * hi - 32
}

/// The 256 weights of a Q6_K block, in output order.
pub open spec fn q6k_weights(block: Seq<u8>) -> Seq<int> {
    Seq::new(256, |o: int| q6k_weight(block, o))
}

/// The 16 sub-block scales of a Q6_K block (signed bytes).
pub open spec fn q6k_scales(block: Seq<u8>) -> Seq<int> {
    Seq::new(16, |k: int| (block[192 + k] as i8) as int)
}

/// The exact weighted dot of a Q6_K block against 256 int8 activations.
pub open spec fn q6k_idot_spec(block: Seq<u8>, qx: Seq<i8>) -> int {
    weighted_sum(q6k_weights(block), i8s(qx), q6k_scales(block), 16, 16)
}

/// Q4_K weight `o` of the 128 packed bytes `qs`: sub-block `2c` is the low nibbles of the
/// 32-byte chunk `c`, sub-block `2c + 1` its high nibbles.
pub open spec fn q4k_weight(qs: Seq<u8>, o: int) -> int {
    nibble(qs[32 * (o / 64) + o % 32], (o / 32) % 2 == 1)
}

/// The 256 weights of a Q4_K block's packed bytes, in sub-block order.
pub open spec fn q4k_weights(qs: Seq<u8>) -> Seq<int> {
    Seq::new(256, |o: int| q4k_weight(qs, o))
}

/// The exact weighted dot of a Q4_K block's packed weights against 256 int8 activations,
/// with the 8 sub-block scales `sc`.
pub open spec fn q4k_sd_spec(qs: Seq<u8>, sc: Seq<i32>, qx: Seq<i8>) -> int {
    weighted_sum(q4k_weights(qs), i8s(qx), i32s(sc), 32, 8)
}

/// Whether every entry of `s[lo..lo+n]` lies in `[-b, b]`.
pub open spec fn bounded(s: Seq<int>, lo: int, n: int, b: int) -> bool {
    forall|i: int| lo <= i < lo + n ==> -b <= #[trigger] s[i] <= b
}

proof fn lemma_product_bound(a: int, b: int, ba: int, bb: int)
    requires
        -ba <= a <= ba,
        -bb <= b <= bb,
        0 <= ba,
        0 <= bb,
    ensures
        -(ba * bb) <= a * b <= ba * bb,
{
    assert(-(ba * bb) <= a * b <= ba * bb) by (nonlinear_arith)
        requires
            -ba <= a <= ba,
            -bb <= b <= bb,
            0 <= ba,
            0 <= bb,
    ;
}

/// A dot of `n` bounded products is bounded by `n` times the product of the bounds.
proof fn lemma_block_dot_bound(w: Seq<int>, x: Seq<int>, lo: int, n: int, bw: int, bx: int)
    requires
        0 <= n,
        0 <= bw,
        0 <= bx,
        bounded(w, lo, n, bw),
        bounded(x, lo, n, bx),
    ensures
        -(n * (bw * bx)) <= block_dot(w, x, lo, n) <= n * (bw * bx),
    decreases n,
{
    if n > 0 {
        lemma_block_dot_bound(w, x, lo, n - 1, bw, bx);
        assert(-bw <= w[lo + n - 1] <= bw);
        assert(-bx <= x[lo + n - 1] <= bx);
        lemma_product_bound(w[lo + n - 1], x[lo + n - 1], bw, bx);
        assert((n - 1) * (bw * bx) + bw * bx == n * (bw * bx)) by (nonlinear_arith);
    }
}

/// A weighted sum of `nsub` bounded sub-block dots is bounded.
proof fn lemma_weighted_sum_bound(w: Seq<int>, x: Seq<int>, sc: Seq<int>, group: int, nsub: int, bw: int, bx: int, bs: int)
    requires
        0 <= nsub,
        0 <= group,
        0 <= bw,
        0 <= bx,
        0 <= bs,
        bounded(w, 0, group * nsub, bw),
        bounded(x, 0, group * nsub, bx),
        bounded(sc, 0, nsub, bs),
    ensures
        -(nsub * (bs * (group * (bw * bx)))) <= weighted_sum(w, x, sc, group, nsub) <= nsub * (bs * (group * (bw * bx))),
    decreases nsub,
{
    if nsub > 0 {
        assert(group * (nsub - 1) <= group * nsub) by (nonlinear_arith)
            requires
                0 <= group,
                0 < nsub,
        ;
        assert((nsub - 1) * group + group == group * nsub) by (nonlinear_arith);
        lemma_weighted_sum_bound(w, x, sc, group, nsub - 1, bw, bx, bs);
        let lo = (nsub - 1) * group;
        assert(0 <= lo) by (nonlinear_arith)
            requires
                0 <= group,
                0 < nsub,
                lo == (nsub - 1) * group,
        ;
        assert(bounded(w, lo, group, bw));
        assert(bounded(x, lo, group, bx));
        lemma_block_dot_bound(w, x, lo, group, bw, bx);
        assert(0 <= group * (bw * bx)) by (nonlinear_arith)
            requires
                0 <= group,
                0 <= bw,
                0 <= bx,
        ;
        lemma_product_bound(sc[nsub - 1], block_dot(w, x, lo, group), bs, group * (bw * bx));
        assert((nsub - 1) * (bs * (group * (bw * bx))) + bs * (group * (bw * bx)) == nsub * (bs * (group * (
        bw * bx)))) by (nonlinear_arith);
    }
}

/// `Σ_s sc[s]·⟨wq_s, qx_s⟩` over `nsub` sub-blocks of `group` int8 weights and activations.
/// The weights lie within ±32, the scales within ±128, and at most 256 weights are dotted, so
/// every partial sum fits in `i32`.
pub fn weighted_subblock_dot(wq: &[i8], qx: &[i8], sc: &[i32], group: usize, nsub: usize) -> (r: i32)
    requires
        group * nsub <= 256,
        group * nsub <= wq@.len(),
        group * nsub <= qx@.len(),
        nsub <= sc@.len(),
        bounded(i8s(wq@), 0, group * nsub, 32),
        bounded(i32s(sc@), 0, nsub as int, 128),
    ensures
        r == weighted_sum(i8s(wq@), i8s(qx@), i32s(sc@), group as int, nsub as int),
{
    let ghost w = i8s(wq@);
    let ghost x = i8s(qx@);
    let ghost s = i32s(sc@);
    proof {
        assert(bounded(x, 0, group * nsub, 128));
    }
    let mut acc: i32 = 0;
    let mut k: usize = 0;
    while k < nsub
        invariant
            w == i8s(wq@),
            x == i8s(qx@),
            s == i32s(sc@),
            group * nsub <= 256,
            group * nsub <= wq@.len(),
            group * nsub <= qx@.len(),
            nsub <= sc@.len(),
            bounded(w, 0, group * nsub, 32),
            bounded(x, 0, group * nsub, 128),
            bounded(s, 0, nsub as int, 128),
            k <= nsub,
            acc == weighted_sum(w, x, s, group as int, k as int),
        decreases nsub - k,
    {
        proof {
            assert(group * k + group <= group * nsub) by (nonlinear_arith)
                requires
                    k < nsub,
            ;
            assert(k * group == group * k) by (nonlinear_arith);
        }
        let base = k * group;
        let mut sub: i32 = 0;
        let mut i: usize = 0;
        while i < group
            invariant
                w == i8s(wq@),
                x == i8s(qx@),
                group * nsub <= 256,
                base + group <= group * nsub,
                group * nsub <= wq@.len(),
                group * nsub <= qx@.len(),
                bounded(w, 0, group * nsub, 32),
                bounded(x, 0, group * nsub, 128),
                i <= group,
                sub == block_dot(w, x, base as int, i as int),
            decreases group - i,
        {
            proof {
                assert(bounded(w, base as int, i as int, 32));
                assert(bounded(x, base as int, i as int, 128));
                lemma_block_dot_bound(w, x, base as int, i as int, 32, 128);
                lemma_product_bound(w[base + i], x[base + i], 32, 128);
                assert(i * (32 * 128) <= 256 * 4096) by (nonlinear_arith)
                    requires
                        i <= group,
                        group * nsub <= 256,
                        base + group <= group * nsub,
                ;
            }
            sub = sub + (wq[base + i] as i32) * (qx[base + i] as i32);
            i += 1;
        }
        proof {
            assert(bounded(w, base as int, group as int, 32));
            assert(bounded(x, base as int, group as int, 128));
            lemma_block_dot_bound(w, x, base as int, group as int, 32, 128);
            lemma_weighted_sum_bound(w, x, s, group as int, k as int, 32, 128, 128);
            assert(group * k <= group * nsub) by (nonlinear_arith)
                requires
                    k < nsub,
            ;
            assert(bounded(w, 0, group * k, 32));
            assert(bounded(x, 0, group * k, 128));
            assert(bounded(s, 0, k as int, 128));
            assert(group * 4096 <= 256 * 4096) by (nonlinear_arith)
                requires
                    group * nsub <= 256,
                    k < nsub,
            ;
            lemma_product_bound(s[k as int], sub as int, 128, group * (32 * 128));
            assert(k * (128 * (group * (32 * 128))) + 128 * (group * (32 * 128)) <= 256 * 128 * 4096) by (nonlinear_arith)
                requires
                    group * nsub <= 256,
                    k < nsub,
            ;
            assert(k * group == base);
        }
        acc = acc + sc[k] * sub;
        k += 1;
    }
    acc
}

} // verus!

verus! {

proof fn lemma_q6k_weight_bounds(block: Seq<u8>, o: int)
    requires
        0 <= o < 256,
        block.len() >= 208,
    ensures
        -32 <= q6k_weight(block, o) <= 31,
{
}

/// Q6_K weight `o` of `block`, unpacked from its nibble and high bits.
fn q6k_weight_at(block: &[u8], o: usize) -> (w: i8)
    requires
        block@.len() >= 208,
        o < 256,
    ensures
        w as int == q6k_weight(block@, o as int),
{
    let n = o / 128;
    let r = o % 128;
    let g = r / 32;
    let li = r % 32;
    let ql_off: usize = if g % 2 == 1 {
        32
    } else {
        0
    };
    let b = block[n * 64 + ql_off + li];
    let q = block[128 + n * 32 + li];
    let low: u8 = if g >= 2 {
        b >> 4u8
    } else {
        b & 0x0f
    };
    let shift: u8 = (2 * g) as u8;
    let hi: u8 = (q >> shift) & 3;
    proof {
        assert(b >> 4u8 == b / 16) by (bit_vector);
        assert(b & 0x0f == b % 16) by (bit_vector);
        assert((q >> 0u8) & 3 == q % 4) by (bit_vector);
        assert((q >> 2u8) & 3 == (q / 4) % 4) by (bit_vector);
        assert((q >> 4u8) & 3 == (q / 16) % 4) by (bit_vector);
        assert((q >> 6u8) & 3 == (q / 64) % 4) by (bit_vector);
        assert(low < 16);
        assert(hi < 4);
    }
    let packed: u8 = low | (hi << 4u8);
    proof {
        assert(low < 16 && hi < 4 ==> low | (hi << 4u8) == low + 16 * hi) by (bit_vector);
    }
    (packed as i32 - 32) as i8
}

/// Unpack a Q6_K block into its 256 recentered weights (output order) and its 16 sub-block
/// scales.
pub fn unpack_q6k_block(block: &[u8]) -> (r: (Vec<i8>, Vec<i32>))
    requires
        block@.len() >= 208,
    ensures
        r.0@.len() == 256,
        r.1@.len() == 16,
        i8s(r.0@) == q6k_weights(block@),
        i32s(r.1@) == q6k_scales(block@),
{
    let mut wq: Vec<i8> = Vec::new();
    let mut o: usize = 0;
    while o < 256
        invariant
            block@.len() >= 208,
            o <= 256,
            wq@.len() == o,
            forall|j: int| 0 <= j < o ==> #[trigger] wq@[j] as int == q6k_weight(block@, j),
        decreases 256 - o,
    {
        wq.push(q6k_weight_at(block, o));
        o += 1;
    }
    let mut sc: Vec<i32> = Vec::new();
    let mut k: usize = 0;
    while k < 16
        invariant
            block@.len() >= 208,
            k <= 16,
            sc@.len() == k,
            forall|j: int| 0 <= j < k ==> #[trigger] sc@[j] as int == (block@[192 + j] as i8) as int,
        decreases 16 - k,
    {
        sc.push(block[192 + k] as i8 as i32);
        k += 1;
    }
    assert(i8s(wq@) =~= q6k_weights(block@));
    assert(i32s(sc@) =~= q6k_scales(block@));
    (wq, sc)
}

/// The exact weighted dot of a Q6_K block against 256 int8 activations, unpacking each
/// weight straight into the dot.
#[verifier::spinoff_prover]
pub fn q6k_block_idot(block: &[u8], qx: &[i8]) -> (r: i32)
    requires
        block@.len() >= 208,
        qx@.len() >= 256,
    ensures
        r == q6k_idot_spec(block@, qx@),
{
    let ghost w = q6k_weights(block@);
    let ghost x = i8s(qx@);
    let ghost s = q6k_scales(block@);
    proof {
        assert forall|o: int| 0 <= o < 256 implies -32 <= #[trigger] w[o] <= 32 by {
            lemma_q6k_weight_bounds(block@, o);
        }
        assert(bounded(w, 0, 256, 32));
        assert(bounded(x, 0, 256, 128));
        assert(bounded(s, 0, 16, 128));
    }
    let mut acc: i32 = 0;
    let mut k: usize = 0;
    while k < 16
        invariant
            block@.len() >= 208,
            qx@.len() >= 256,
            w == q6k_weights(block@),
            x == i8s(qx@),
            s == q6k_scales(block@),
            bounded(w, 0, 256, 32),
            bounded(x, 0, 256, 128),
            bounded(s, 0, 16, 128),
            k <= 16,
            acc == weighted_sum(w, x, s, 16, k as int),
        decreases 16 - k,
    {
        let base = k * 16;
        let mut sub: i32 = 0;
        let mut i: usize = 0;
        while i < 16
            invariant
                block@.len() >= 208,
                qx@.len() >= 256,
                w == q6k_weights(block@),
                x == i8s(qx@),
                bounded(w, 0, 256, 32),
                bounded(x, 0, 256, 128),
                base == k * 16,
                k < 16,
                i <= 16,
                sub == block_dot(w, x, base as int, i as int),
            decreases 16 - i,
        {
            proof {
                assert(bounded(w, base as int, i as int, 32));
                assert(bounded(x, base as int, i as int, 128));
                lemma_block_dot_bound(w, x, base as int, i as int, 32, 128);
                lemma_product_bound(w[base + i], x[base + i], 32, 128);
            }
            let wv = q6k_weight_at(block, base + i);
            sub = sub + (wv as i32) * (qx[base + i] as i32);
            i += 1;
        }
        proof {
            assert(bounded(w, base as int, 16, 32));
            assert(bounded(x, base as int, 16, 128));
            lemma_block_dot_bound(w, x, base as int, 16, 32, 128);
            assert(bounded(w, 0, 16 * k, 32));
            assert(bounded(x, 0, 16 * k, 128));
            assert(bounded(s, 0, k as int, 128));
            lemma_weighted_sum_bound(w, x, s, 16, k as int, 32, 128, 128);
            lemma_product_bound(s[k as int], sub as int, 128, 16 * (32 * 128) as int);
        }
        let scale = block[192 + k] as i8 as i32;
        assert(scale as int == s[k as int]);
        assert(-8388608 <= scale * sub <= 8388608);
        assert(-(k * 8388608) <= acc <= k * 8388608);
        assert(k * 8388608 <= 15 * 8388608);
        acc = acc + scale * sub;
        k += 1;
    }
    acc
}

/// Unpack a Q4_K block's 128 packed bytes into its 256 four-bit weights, sub-block by
/// sub-block.
pub fn unpack_q4k_block(qs: &[u8]) -> (r: Vec<i8>)
    requires
        qs@.len() >= 128,
    ensures
        r@.len() == 256,
        i8s(r@) == q4k_weights(qs@),
{
    let mut nib: Vec<i8> = Vec::new();
    let mut o: usize = 0;
    while o < 256
        invariant
            qs@.len() >= 128,
            o <= 256,
            nib@.len() == o,
            forall|j: int| 0 <= j < o ==> #[trigger] nib@[j] as int == q4k_weight(qs@, j),
        decreases 256 - o,
    {
        let b = qs[32 * (o / 64) + o % 32];
        let v: u8 = if (o / 32) % 2 == 1 {
            b >> 4u8
        } else {
            b & 0x0f
        };
        proof {
            assert(b >> 4u8 == b / 16) by (bit_vector);
            assert(b & 0x0f == b % 16) by (bit_vector);
        }
        nib.push(v as i8);
        o += 1;
    }
    assert(i8s(nib@) =~= q4k_weights(qs@));
    nib
}

/// The exact weighted dot of a Q4_K block's packed weights against 256 int8 activations:
/// sub-block `2c` is the low nibbles of chunk `c` and `2c + 1` its high nibbles, each dotted
/// against its 32 activations and scaled by its sub-block scale.
pub fn q4k_block_sd(qs: &[u8], sc: &[i32], qx: &[i8]) -> (r: i32)
    requires
        qs@.len() >= 128,
        sc@.len() >= 8,
        qx@.len() >= 256,
        bounded(i32s(sc@), 0, 8, 128),
    ensures
        r == q4k_sd_spec(qs@, sc@, qx@),
{
    let ghost w = q4k_weights(qs@);
    let ghost x = i8s(qx@);
    let ghost s = i32s(sc@);
    proof {
        assert(bounded(w, 0, 256, 32));
        assert(bounded(x, 0, 256, 128));
    }
    let mut acc: i32 = 0;
    let mut k: usize = 0;
    while k < 8
        invariant
            qs@.len() >= 128,
            sc@.len() >= 8,
            qx@.len() >= 256,
            w == q4k_weights(qs@),
            x == i8s(qx@),
            s == i32s(sc@),
            bounded(w, 0, 256, 32),
            bounded(x, 0, 256, 128),
            bounded(s, 0, 8, 128),
            k <= 8,
            acc == weighted_sum(w, x, s, 32, k as int),
        decreases 8 - k,
    {
        let base = k * 32;
        let chunk = 32 * (k / 2);
        let high = k % 2 == 1;
        let mut sub: i32 = 0;
        let mut i: usize = 0;
        while i < 32
            invariant
                qs@.len() >= 128,
                qx@.len() >= 256,
                w == q4k_weights(qs@),
                x == i8s(qx@),
                bounded(w, 0, 256, 32),
                bounded(x, 0, 256, 128),
                base == k * 32,
                chunk == 32 * (k / 2),
                high == (k % 2 == 1),
                k < 8,
                i <= 32,
                sub == block_dot(w, x, base as int, i as int),
            decreases 32 - i,
        {
            proof {
                assert(bounded(w, base as int, i as int, 32));
                assert(bounded(x, base as int, i as int, 128));
                lemma_block_dot_bound(w, x, base as int, i as int, 32, 128);
                lemma_product_bound(w[base + i], x[base + i], 32, 128);
            }
            let b = qs[chunk + i];
            let v: u8 = if high {
                b >> 4u8
            } else {
                b & 0x0f
            };
            proof {
                assert(b >> 4u8 == b / 16) by (bit_vector);
                assert(b & 0x0f == b % 16) by (bit_vector);
                let o = base + i;
                assert(o / 64 == k / 2);
                assert(o % 32 == i);
                assert((o / 32) % 2 == k % 2);
                assert(v as int == w[o as int]);
            }
            sub = sub + (v as i32) * (qx[base + i] as i32);
            i += 1;
        }
        proof {
            assert(bounded(w, base as int, 32, 32));
            assert(bounded(x, base as int, 32, 128));
            lemma_block_dot_bound(w, x, base as int, 32, 32, 128);
            assert(bounded(w, 0, 32 * k, 32));
            assert(bounded(x, 0, 32 * k, 128));
            assert(bounded(s, 0, k as int, 128));
            lemma_weighted_sum_bound(w, x, s, 32, k as int, 32, 128, 128);
            lemma_product_bound(s[k as int], sub as int, 128, 32 * (32 * 128) as int);
            assert(sc@[k as int] as int == s[k as int]);
            assert(k * (128 * (32 * (32 * 128))) <= 7 * (128 * (32 * (32 * 128)))) by (nonlinear_arith)
                requires
                    k < 8,
            ;
        }
        acc = acc + sc[k] * sub;
        k += 1;
    }
    acc
}

// ---------------------------------------------------------------------------------------------
// Laws
// ---------------------------------------------------------------------------------------------

/// Unpacking a Q6_K block once and taking the weighted sub-block dot gives exactly the fused
/// dot straight from the packed block.
pub proof fn lemma_q6k_unpacked_dot_matches_fused(block: Seq<u8>, qx: Seq<i8>, wq: Seq<i8>, sc: Seq<i32>)
    requires
        i8s(wq) == q6k_weights(block),
        i32s(sc) == q6k_scales(block),
    ensures
        weighted_sum(i8s(wq), i8s(qx), i32s(sc), 16, 16) == q6k_idot_spec(block, qx),
{
}

/// Unpacking a Q4_K block's nibbles once and taking the weighted sub-block dot gives exactly
/// the dot straight from the packed bytes.
pub proof fn lemma_q4k_unpacked_dot_matches_packed(qs: Seq<u8>, qx: Seq<i8>, nib: Seq<i8>, sc: Seq<i32>)
    requires
        i8s(nib) == q4k_weights(qs),
    ensures
        weighted_sum(i8s(nib), i8s(qx), i32s(sc), 32, 8) == q4k_sd_spec(qs, sc, qx),
{
}

} // verus!
