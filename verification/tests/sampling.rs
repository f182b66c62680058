use bebelm::sampling::{top_k_candidates, PresenceStamps, XorShift64Star, DEFAULT_SEED};

/// xorshift64* as usually written.
fn reference(state: &mut u64) -> u64 {
    let mut x = *state;
    x ^= x >> 12;
    x ^= x << 25;
    x ^= x >> 27;
    *state = x;
    x.wrapping_mul(0x2545F491_4F6CDD1D)
}

#[test]
fn xorshift_matches_the_reference_sequence() {
    for seed in [0u64, 1, 12345, DEFAULT_SEED] {
        let mut g = XorShift64Star::new(seed);
        let mut s = seed | 1;
        for _ in 0..100 {
            assert_eq!(g.next_u64(), reference(&mut s));
        }
        let mut s2 = s;
        let want = (reference(&mut s2) >> 40) as u32;
        let got = g.next_u24();
        assert_eq!(got, want);
        assert!(got < 1 << 24);
    }
}

#[test]
fn presence_penalizes_each_token_once() {
    let mut stamps = PresenceStamps::new();
    assert_eq!(stamps.fresh_tokens(&[0, 0, 3, 1, 3, 0], 4), vec![0, 3, 1]);
    // A later call starts afresh: stamps from the earlier call do not hide tokens.
    assert_eq!(stamps.fresh_tokens(&[3, 3], 4), vec![3]);
    assert_eq!(stamps.fresh_tokens(&[], 4), Vec::<u32>::new());
    stamps.reset();
    assert_eq!(stamps.fresh_tokens(&[2, 1, 2], 3), vec![2, 1]);
}

fn bits(logits: &[f32]) -> Vec<u32> {
    logits.iter().map(|l| l.to_bits()).collect()
}

#[test]
fn top_k_keeps_the_largest_logits_largest_first() {
    let logits = [0.5f32, 3.0, -1.0, 2.5, 3.0, 0.0];
    // Equal logits keep their index order.
    assert_eq!(top_k_candidates(&bits(&logits), 3), vec![1, 4, 3]);
    assert_eq!(top_k_candidates(&bits(&logits), 1), vec![1]);
    assert_eq!(top_k_candidates(&bits(&logits), 5), vec![1, 4, 3, 0, 5]);
}

#[test]
fn top_k_zero_or_at_least_all_keeps_every_index_in_order() {
    let logits = [0.5f32, 3.0, -1.0];
    assert_eq!(top_k_candidates(&bits(&logits), 0), vec![0, 1, 2]);
    assert_eq!(top_k_candidates(&bits(&logits), 3), vec![0, 1, 2]);
    assert_eq!(top_k_candidates(&bits(&logits), 80), vec![0, 1, 2]);
    assert!(top_k_candidates(&[], 4).is_empty());
}

#[test]
fn top_k_follows_the_total_order_of_floats() {
    // -0.0 < 0.0, every negative below both, and NaN above every number.
    let logits = [-0.0f32, 0.0, -5.0, f32::NAN, f32::INFINITY, -f32::INFINITY];
    assert_eq!(top_k_candidates(&bits(&logits), 4), vec![3, 4, 1, 0]);
    let negatives = [-3.0f32, -1.0, -2.0, -0.5];
    assert_eq!(top_k_candidates(&bits(&negatives), 2), vec![3, 1]);
}

#[test]
fn top_k_matches_a_full_sort() {
    let logits: Vec<f32> = (0..300).map(|i: i32| (((i * 7919) % 211) as f32 - 100.0) * 0.25).collect();
    let mut order: Vec<usize> = (0..logits.len()).collect();
    order.sort_by(|&a, &b| logits[b].total_cmp(&logits[a]).then(a.cmp(&b)));
    for k in [1usize, 2, 17, 80, 299] {
        assert_eq!(top_k_candidates(&bits(&logits), k), order[..k].to_vec(), "k = {k}");
    }
}
