use bebelm::cache::{trim_context, Cache};
use bebelm::config::{CONV_L_CACHE, HIDDEN, KV_DIM, N_LAYERS};

#[test]
fn evict_front_slides_attention_layers() {
    let mut c: Cache<f32> = Cache::new(0.0);
    // Two attention layers accumulate 3 positions of KV; conv layers stay empty.
    c.k[2] = vec![1.0; 3 * KV_DIM];
    c.v[2] = vec![2.0; 3 * KV_DIM];
    c.k[6] = vec![1.0; 3 * KV_DIM];
    c.v[6] = vec![2.0; 3 * KV_DIM];
    assert_eq!(c.kv_len(), 3);

    c.evict_front(1);
    assert_eq!(c.kv_len(), 2);
    assert_eq!(c.k[2].len(), 2 * KV_DIM);
    assert_eq!(c.v[6].len(), 2 * KV_DIM);
    // Empty (conv-layer) buffers are untouched.
    assert!(c.k[0].is_empty());
}

#[test]
fn new_cache_is_empty_with_filled_conv_state() {
    let c: Cache<f32> = Cache::new(0.0);
    assert_eq!(c.k.len(), N_LAYERS);
    assert_eq!(c.v.len(), N_LAYERS);
    assert_eq!(c.conv.len(), N_LAYERS);
    assert!(c.k.iter().all(|k| k.is_empty()));
    assert!(c.conv.iter().all(|s| s.len() == HIDDEN * (CONV_L_CACHE - 1) && s.iter().all(|&x| x == 0.0)));
    assert_eq!(c.pos, 0);
    assert_eq!(c.kv_len(), 0);
}

#[test]
fn evict_front_drops_the_oldest_positions() {
    let mut c: Cache<u32> = Cache::new(0);
    c.k[2] = (0..3 * KV_DIM as u32).collect();
    c.v[2] = (100..100 + 3 * KV_DIM as u32).collect();
    c.pos = 3;
    c.evict_front(2);
    assert_eq!(c.k[2], (2 * KV_DIM as u32..3 * KV_DIM as u32).collect::<Vec<u32>>());
    assert_eq!(c.v[2], (100 + 2 * KV_DIM as u32..100 + 3 * KV_DIM as u32).collect::<Vec<u32>>());
    assert_eq!(c.pos, 3);
}

#[test]
fn evict_front_leaves_layers_holding_fewer_positions() {
    let mut c: Cache<u32> = Cache::new(0);
    c.k[2] = vec![1; 3 * KV_DIM];
    c.v[2] = vec![2; 3 * KV_DIM];
    c.k[6] = vec![1; KV_DIM];
    c.v[6] = vec![2; KV_DIM];
    c.evict_front(2);
    assert_eq!(c.k[2].len(), KV_DIM);
    assert_eq!(c.k[6].len(), KV_DIM);
    assert_eq!(c.v[6].len(), KV_DIM);
}

#[test]
fn trim_context_caps_the_window() {
    let mut c: Cache<f32> = Cache::new(0.0);
    for layer in [2, 6, 10] {
        c.k[layer] = vec![1.0; 5 * KV_DIM];
        c.v[layer] = vec![2.0; 5 * KV_DIM];
    }
    c.pos = 5;
    trim_context(&mut c, 8);
    assert_eq!(c.kv_len(), 5);
    trim_context(&mut c, 3);
    assert_eq!(c.kv_len(), 3);
    assert_eq!(c.v[10].len(), 3 * KV_DIM);
    assert_eq!(c.pos, 5);
    trim_context(&mut c, 0);
    assert_eq!(c.kv_len(), 0);
}
