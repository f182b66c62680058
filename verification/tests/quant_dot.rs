use bebelm::dequant::get_scale_min_k4;
use bebelm::quant_dot::{q4k_block_sd, q6k_block_idot, unpack_q4k_block, unpack_q6k_block, weighted_subblock_dot};

/// Deterministic pseudo-random bytes.
fn bytes(n: usize, seed: u32) -> Vec<u8> {
    let mut s = seed.wrapping_mul(2_654_435_761).wrapping_add(12345);
    (0..n)
        .map(|_| {
            s = s.wrapping_mul(1_103_515_245).wrapping_add(12345);
            (s >> 16) as u8
        })
        .collect()
}

fn activations(seed: i32) -> Vec<i8> {
    (0..256).map(|i: i32| (((i * 37 + seed * 11) % 255) - 127) as i8).collect()
}

/// The Q6_K unpack written group by group, the way the block layout is documented.
fn q6k_reference(block: &[u8]) -> ([i32; 256], [i32; 16]) {
    const GROUPS: [(usize, bool, u32); 4] = [(0, false, 0), (32, false, 2), (0, true, 4), (32, true, 6)];
    let mut wq = [0i32; 256];
    let mut sc = [0i32; 16];
    let mut k = 0;
    for n in 0..2 {
        let ql = &block[n * 64..n * 64 + 64];
        let qh = &block[128 + n * 32..128 + n * 32 + 32];
        for (g, &(ql_off, high, shift)) in GROUPS.iter().enumerate() {
            for sub in 0..2 {
                sc[k] = block[192 + n * 8 + 2 * g + sub] as i8 as i32;
                for i in 0..16 {
                    let li = sub * 16 + i;
                    let low = if high { (ql[ql_off + li] >> 4) as i32 } else { (ql[ql_off + li] & 0x0f) as i32 };
                    let hi = ((qh[li] >> shift) & 3) as i32;
                    wq[k * 16 + i] = (low | (hi << 4)) - 32;
                }
                k += 1;
            }
        }
    }
    (wq, sc)
}

#[test]
fn q6k_fused_dot_matches_unpacked_and_reference() {
    for seed in 0..6 {
        let block = bytes(210, seed);
        let qx = activations(seed as i32);
        let (wq, sc) = unpack_q6k_block(&block);
        let (rw, rs) = q6k_reference(&block);
        assert_eq!(wq.iter().map(|&w| w as i32).collect::<Vec<_>>(), rw.to_vec());
        assert_eq!(sc, rs.to_vec());
        let mut want = 0i64;
        for s in 0..16 {
            let d: i64 = (0..16).map(|i| rw[s * 16 + i] as i64 * qx[s * 16 + i] as i64).sum();
            want += rs[s] as i64 * d;
        }
        let fused = q6k_block_idot(&block, &qx);
        assert_eq!(fused as i64, want, "seed {seed}");
        assert_eq!(weighted_subblock_dot(&wq, &qx, &sc, 16, 16), fused, "seed {seed}");
    }
}

#[test]
fn q6k_extremes_stay_exact() {
    // All weights −32, all scales −128, all activations −128: the largest magnitude there is.
    let mut block = vec![0u8; 210];
    for b in &mut block[192..208] {
        *b = 0x80;
    }
    let qx = vec![-128i8; 256];
    assert_eq!(q6k_block_idot(&block, &qx), -128 * 16 * 16 * (-32 * -128));
}

#[test]
fn q4k_packed_dot_matches_unpacked_nibbles() {
    for seed in 0..6 {
        let block = bytes(144, seed + 100);
        let qs = &block[16..144];
        let scales = &block[4..16];
        let sc: Vec<i32> = (0..8).map(|j| get_scale_min_k4(j, scales).0 as i32).collect();
        let qx = activations(seed as i32 + 3);
        let nib = unpack_q4k_block(qs);
        for c in 0..4 {
            for i in 0..32 {
                assert_eq!(nib[2 * c * 32 + i], (qs[c * 32 + i] & 0x0f) as i8);
                assert_eq!(nib[(2 * c + 1) * 32 + i], (qs[c * 32 + i] >> 4) as i8);
            }
        }
        let mut want = 0i64;
        for s in 0..8 {
            let d: i64 = (0..32).map(|i| nib[s * 32 + i] as i64 * qx[s * 32 + i] as i64).sum();
            want += sc[s] as i64 * d;
        }
        let sd = q4k_block_sd(qs, &sc, &qx);
        assert_eq!(sd as i64, want, "seed {seed}");
        assert_eq!(weighted_subblock_dot(&nib, &qx, &sc, 32, 8), sd, "seed {seed}");
    }
}

/// A Q6_K weight matrix of `n_out` rows (each one 256-weight block), bytes varied by row.
fn q6k_matrix(n_out: usize, seed: usize) -> Vec<u8> {
    let mut w = Vec::with_capacity(n_out * 210);
    for r in 0..n_out {
        let mut block = vec![0u8; 210];
        block[208..210].copy_from_slice(&0x3c00u16.to_le_bytes());
        for (i, b) in block[0..128].iter_mut().enumerate() {
            *b = ((r + seed) * 5 + i * 53 + 17) as u8;
        }
        for (i, b) in block[128..192].iter_mut().enumerate() {
            *b = ((r + seed) * 11 + i * 97 + 5) as u8;
        }
        for (j, b) in block[192..208].iter_mut().enumerate() {
            *b = ((r + seed).wrapping_mul(29).wrapping_add(j * 13 + 3)) as u8;
        }
        w.extend_from_slice(&block);
    }
    w
}

/// A Q4_K weight matrix of `n_out` rows (each one 256-weight block), bytes varied by row.
fn q4k_matrix(n_out: usize, seed: usize) -> Vec<u8> {
    let mut w = Vec::with_capacity(n_out * 144);
    for r in 0..n_out {
        let mut block = vec![0u8; 144];
        block[0..2].copy_from_slice(&0x3c00u16.to_le_bytes());
        block[2..4].copy_from_slice(&0x3400u16.to_le_bytes());
        for (j, b) in block[4..16].iter_mut().enumerate() {
            *b = ((r + seed) * 7 + j * 17 + 5) as u8;
        }
        for (i, b) in block[16..144].iter_mut().enumerate() {
            *b = ((r + seed) * 3 + i * 37 + 11) as u8;
        }
        w.extend_from_slice(&block);
    }
    w
}

/// Symmetric int8 quantization of one 256-value block (round to nearest, scale by the
/// largest magnitude), as the activations handed to the integer kernels are made.
fn quantize_block_q8(x: &[f32]) -> Vec<i8> {
    let amax = x.iter().fold(0.0f32, |a, &v| a.max(v.abs()));
    let inv = if amax > 0.0 { 127.0 / amax } else { 0.0 };
    x.iter().map(|&v| (v * inv).round().clamp(-127.0, 127.0) as i8).collect()
}

#[test]
fn q6k_block_idot_portable_matches_buffered() {
    for seed in 0..4 {
        let block = &q6k_matrix(1, seed * 7)[..210];
        let x: Vec<f32> = (0..256).map(|i| ((i * 13 + seed) % 17) as f32 * 0.05 - 0.4).collect();
        let q8 = quantize_block_q8(&x);
        let (wq, sc) = unpack_q6k_block(block);
        let want = weighted_subblock_dot(&wq, &q8, &sc, 16, 16);
        assert_eq!(q6k_block_idot(block, &q8), want, "seed {seed}");
    }
}

#[test]
fn q6k_block_idot_vnni_matches_portable() {
    // The fused kernel must equal the block-by-block scalar reference exactly.
    for seed in 0..4 {
        let block = &q6k_matrix(1, seed * 7)[..210];
        let x: Vec<f32> = (0..256).map(|i| ((i * 13 + seed) % 17) as f32 * 0.05 - 0.4).collect();
        let q8 = quantize_block_q8(&x);
        let (rw, rs) = q6k_reference(block);
        let mut want = 0i64;
        for s in 0..16 {
            let d: i64 = (0..16).map(|i| rw[s * 16 + i] as i64 * q8[s * 16 + i] as i64).sum();
            want += rs[s] as i64 * d;
        }
        assert_eq!(q6k_block_idot(block, &q8) as i64, want, "seed {seed}");
    }
}

#[test]
fn q4k_block_sd_vnni_matches_portable() {
    for seed in 0..4 {
        let block = &q4k_matrix(1, seed * 5)[..144];
        let x: Vec<f32> = (0..256).map(|i| ((i * 7 + seed) % 19) as f32 * 0.04 - 0.3).collect();
        let q8 = quantize_block_q8(&x);
        let qs = &block[16..144];
        let scales = &block[4..16];
        let mut sc = [0i32; 8];
        for (j, s) in sc.iter_mut().enumerate() {
            *s = get_scale_min_k4(j, scales).0 as i32;
        }
        let mut want = 0i64;
        for c in 0..4 {
            for (i, &byte) in qs[c * 32..c * 32 + 32].iter().enumerate() {
                want += sc[2 * c] as i64 * (byte & 0x0f) as i64 * q8[2 * c * 32 + i] as i64;
                want += sc[2 * c + 1] as i64 * (byte >> 4) as i64 * q8[(2 * c + 1) * 32 + i] as i64;
            }
        }
        let sd = q4k_block_sd(qs, &sc, &q8);
        assert_eq!(sd as i64, want, "block sd, seed {seed}");

        let mut nib = [0i8; 256];
        for c in 0..4 {
            for (i, &byte) in qs[c * 32..c * 32 + 32].iter().enumerate() {
                nib[2 * c * 32 + i] = (byte & 0x0f) as i8;
                nib[(2 * c + 1) * 32 + i] = (byte >> 4) as i8;
            }
        }
        assert_eq!(weighted_subblock_dot(&nib, &q8, &sc, 32, 8), sd, "unpacked nibbles, seed {seed}");
    }
}
