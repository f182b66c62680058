//! Decode-time state: a KV cache (attention layers) and a conv-state cache (conv layers).
//!
//! Indexed by absolute layer number (0..N_LAYERS); only the relevant slots are used per
//! layer type. The KV buffers grow by one position (`KV_DIM` values) per token; the conv
//! state is fixed at the last `CONV_L_CACHE - 1` columns of Bx. The buffers are generic in
//! the value they hold: the forward pass stores `f32` activations in them.

use vstd::prelude::*;

use crate::config::{CONV_L_CACHE, HIDDEN, KV_DIM, N_LAYERS};

verus! {

/// The decode-time state of one conversation.
pub struct Cache<T> {
    /// Per attention layer: appended key history (`KV_DIM` values per position).
    pub k: Vec<Vec<T>>,
    /// Per attention layer: appended value history.
    pub v: Vec<Vec<T>>,
    /// Per conv layer: the last `CONV_L_CACHE - 1` columns of Bx (oldest first), `HIDDEN` each.
    pub conv: Vec<Vec<T>>,
    /// Number of tokens processed so far (the next token's position).
    pub pos: usize,
}

/// The contents of each layer's buffer.
pub open spec fn layers_view<T>(layers: Seq<Vec<T>>) -> Seq<Seq<T>> {
    Seq::new(layers.len(), |i: int| layers[i]@)
}

/// The length of the longest buffer (0 when there is none).
pub open spec fn max_len<T>(layers: Seq<Seq<T>>) -> nat
    decreases layers.len(),
{
    if layers.len() == 0 {
        0
    } else {
        let rest = max_len(layers.drop_last());
        if layers.last().len() > rest {
            layers.last().len()
        } else {
            rest
        }
    }
}

/// The number of positions in the KV window: the longest key buffer, in positions.
pub open spec fn kv_positions<T>(k: Seq<Seq<T>>) -> nat {
    max_len(k) / (KV_DIM as nat)
}

/// A layer's buffer once its oldest `drop` values are gone, which happens only when the
/// layer's key buffer (of length `key_len`) holds at least `drop` values.
pub open spec fn evict_layer<T>(layer: Seq<T>, key_len: nat, drop: nat) -> Seq<T> {
    if key_len >= drop {
        layer.subrange(drop as int, layer.len() as int)
    } else {
        layer
    }
}

/// The buffers `layers` after eviction, where `keys` are the key buffers that decide for
/// each layer and only the first `paired` layers (those with both a key and a value buffer)
/// are touched.
pub open spec fn evicted<T>(layers: Seq<Seq<T>>, keys: Seq<Seq<T>>, paired: nat, drop: nat) -> Seq<
    Seq<T>,
> {
    Seq::new(
        layers.len(),
        |i: int|
            if i < paired {
                evict_layer(layers[i], keys[i].len(), drop)
            } else {
                layers[i]
            },
    )
}

/// The number of layers holding both a key and a value buffer.
pub open spec fn paired_layers<T>(c: Cache<T>) -> nat {
    if c.k@.len() < c.v@.len() {
        c.k@.len()
    } else {
        c.v@.len()
    }
}

/// Dropping `n` positions can be done: every paired layer whose key buffer holds them has a
/// value buffer that holds them too, and `n` positions are a count of values `usize` can hold.
pub open spec fn can_evict<T>(c: Cache<T>, n: nat) -> bool {
    &&& n * KV_DIM <= usize::MAX
    &&& forall|i: int|
        0 <= i < paired_layers(c) && c.k@[i]@.len() >= n * KV_DIM ==> c.v@[i]@.len() >= n
            * KV_DIM
}

/// Every key buffer holds either nothing or exactly `p` positions (conv layers keep no KV
/// history; the attention layers grow together).
pub open spec fn uniform_window<T>(k: Seq<Seq<T>>, p: nat) -> bool {
    forall|i: int| 0 <= i < k.len() ==> #[trigger] k[i].len() == 0 || k[i].len() == p * KV_DIM
}

/// The positions to drop so that at most `max_context` remain.
pub open spec fn overflow(kv_len: nat, max_context: nat) -> nat {
    if kv_len > max_context {
        (kv_len - max_context) as nat
    } else {
        0
    }
}

proof fn lemma_max_len_bounds<T>(layers: Seq<Seq<T>>)
    ensures
        forall|i: int| 0 <= i < layers.len() ==> #[trigger] layers[i].len() <= max_len(layers),
        layers.len() == 0 ==> max_len(layers) == 0,
        layers.len() > 0 ==> exists|i: int| 0 <= i < layers.len() && layers[i].len() == max_len(layers),
    decreases layers.len(),
{
    if layers.len() > 0 {
        let rest = layers.drop_last();
        lemma_max_len_bounds(rest);
        assert forall|i: int| 0 <= i < layers.len() implies #[trigger] layers[i].len() <= max_len(
            layers,
        ) by {
            if i < rest.len() {
                assert(rest[i] == layers[i]);
            }
        }
        let last = layers.len() - 1;
        if layers.last().len() > max_len(rest) || rest.len() == 0 {
            assert(layers[last].len() == max_len(layers));
        } else {
            let j = choose|j: int| 0 <= j < rest.len() && rest[j].len() == max_len(rest);
            assert(layers[j] == rest[j]);
            assert(layers[j].len() == max_len(layers));
        }
    }
}

/// `max_len` is the largest length: at least every buffer's, and met by one of them.
proof fn lemma_max_len_is<T>(layers: Seq<Seq<T>>, m: nat)
    requires
        forall|i: int| 0 <= i < layers.len() ==> #[trigger] layers[i].len() <= m,
        layers.len() == 0 ==> m == 0,
        layers.len() > 0 ==> exists|i: int| 0 <= i < layers.len() && layers[i].len() == m,
    ensures
        max_len(layers) == m,
{
    lemma_max_len_bounds(layers);
    if layers.len() > 0 {
        let i = choose|i: int| 0 <= i < layers.len() && layers[i].len() == m;
        let j = choose|j: int| 0 <= j < layers.len() && layers[j].len() == max_len(layers);
        assert(layers[i].len() <= max_len(layers));
        assert(layers[j].len() <= m);
    }
}

/// The values of `v` from index `from` on.
fn tail_of<T: Copy>(v: &Vec<T>, from: usize) -> (r: Vec<T>)
    requires
        from <= v@.len(),
    ensures
        r@ == v@.subrange(from as int, v@.len() as int),
{
    let mut r: Vec<T> = Vec::new();
    let mut j: usize = from;
    while j < v.len()
        invariant
            from <= j <= v@.len(),
            r@ == v@.subrange(from as int, j as int),
        decreases v@.len() - j,
    {
        r.push(v[j]);
        j = j + 1;
    }
    r
}

impl<T: Copy> Cache<T> {
    /// An empty cache: no KV history on any layer, every conv state filled with `fill`, at
    /// position 0.
    pub fn new(fill: T) -> (c: Self)
        ensures
            c.k@.len() == N_LAYERS,
            c.v@.len() == N_LAYERS,
            c.conv@.len() == N_LAYERS,
            forall|i: int| 0 <= i < N_LAYERS ==> #[trigger] c.k@[i]@.len() == 0,
            forall|i: int| 0 <= i < N_LAYERS ==> #[trigger] c.v@[i]@.len() == 0,
            forall|i: int|
                0 <= i < N_LAYERS ==> #[trigger] c.conv@[i]@ == Seq::new(
                    (HIDDEN * (CONV_L_CACHE - 1)) as nat,
                    |j: int| fill,
                ),
            c.pos == 0,
    {
        let width: usize = HIDDEN * (CONV_L_CACHE - 1);
        let mut k: Vec<Vec<T>> = Vec::new();
        let mut v: Vec<Vec<T>> = Vec::new();
        let mut conv: Vec<Vec<T>> = Vec::new();
        let mut layer: usize = 0;
        while layer < N_LAYERS
            invariant
                width == HIDDEN * (CONV_L_CACHE - 1),
                layer <= N_LAYERS,
                k@.len() == layer,
                v@.len() == layer,
                conv@.len() == layer,
                forall|i: int| 0 <= i < layer ==> #[trigger] k@[i]@.len() == 0,
                forall|i: int| 0 <= i < layer ==> #[trigger] v@[i]@.len() == 0,
                forall|i: int|
                    0 <= i < layer ==> #[trigger] conv@[i]@ == Seq::new(width as nat, |j: int| fill),
            decreases N_LAYERS - layer,
        {
            let mut state: Vec<T> = Vec::new();
            let mut j: usize = 0;
            while j < width
                invariant
                    j <= width,
                    state@ == Seq::new(j as nat, |x: int| fill),
                decreases width - j,
            {
                state.push(fill);
                j = j + 1;
            }
            k.push(Vec::new());
            v.push(Vec::new());
            conv.push(state);
            layer = layer + 1;
        }
        Cache { k, v, conv, pos: 0 }
    }

    /// Number of positions currently held in the KV attention window. Conv layers keep no KV
    /// history, so this is the longest layer's key buffer.
    pub fn kv_len(&self) -> (r: usize)
        ensures
            r == kv_positions(layers_view(self.k@)),
    {
        let ghost keys = layers_view(self.k@);
        let mut m: usize = 0;
        let mut i: usize = 0;
        while i < self.k.len()
            invariant
                keys == layers_view(self.k@),
                i <= self.k@.len(),
                m == max_len(keys.subrange(0, i as int)),
            decreases self.k@.len() - i,
        {
            proof {
                let prefix = keys.subrange(0, i as int + 1);
                assert(prefix.drop_last() =~= keys.subrange(0, i as int));
                assert(prefix.last() == self.k@[i as int]@);
            }
            if self.k[i].len() > m {
                m = self.k[i].len();
            }
            i = i + 1;
        }
        proof {
            assert(keys.subrange(0, keys.len() as int) =~= keys);
        }
        m / KV_DIM
    }

    /// Drop the oldest `n` positions from every attention layer's KV history: a sliding
    /// window so decoding can continue past a context cap. A layer whose key buffer holds
    /// fewer than `n` positions (a conv layer's empty one) is left as it is. `pos` (the absolute
    /// RoPE position) is left untouched: RoPE attention depends only on the query-key offset,
    /// which stays in-window.
    pub fn evict_front(&mut self, n: usize)
        requires
            can_evict(*old(self), n as nat),
        ensures
            layers_view(final(self).k@) == evicted(
                layers_view(old(self).k@),
                layers_view(old(self).k@),
                paired_layers(*old(self)),
                (n * KV_DIM) as nat,
            ),
            layers_view(final(self).v@) == evicted(
                layers_view(old(self).v@),
                layers_view(old(self).k@),
                paired_layers(*old(self)),
                (n * KV_DIM) as nat,
            ),
            final(self).conv@ == old(self).conv@,
            final(self).pos == old(self).pos,
    {
        let drop: usize = n * KV_DIM;
        let ghost k0 = layers_view(self.k@);
        let ghost v0 = layers_view(self.v@);
        let ghost paired = paired_layers(*self);
        let m: usize = if self.k.len() < self.v.len() {
            self.k.len()
        } else {
            self.v.len()
        };
        let mut i: usize = 0;
        while i < m
            invariant
                m == paired,
                paired <= k0.len(),
                paired <= v0.len(),
                drop == n * KV_DIM,
                i <= m,
                k0.len() == self.k@.len(),
                v0.len() == self.v@.len(),
                forall|j: int|
                    0 <= j < paired && k0[j].len() >= drop ==> v0[j].len() >= drop,
                forall|j: int|
                    0 <= j < self.k@.len() ==> #[trigger] self.k@[j]@ == (if j < i {
                        evict_layer(k0[j], k0[j].len(), drop as nat)
                    } else {
                        k0[j]
                    }),
                forall|j: int|
                    0 <= j < self.v@.len() ==> #[trigger] self.v@[j]@ == (if j < i {
                        evict_layer(v0[j], k0[j].len(), drop as nat)
                    } else {
                        v0[j]
                    }),
                self.conv@ == old(self).conv@,
                self.pos == old(self).pos,
            decreases m - i,
        {
            assert(self.k@[i as int]@ == k0[i as int]);
            assert(self.v@[i as int]@ == v0[i as int]);
            if self.k[i].len() >= drop {
                let kt = tail_of(&self.k[i], drop);
                let vt = tail_of(&self.v[i], drop);
                self.k.set(i, kt);
                self.v.set(i, vt);
            }
            i = i + 1;
        }
        proof {
            assert(layers_view(self.k@) =~= evicted(k0, k0, paired, drop as nat));
            assert(layers_view(self.v@) =~= evicted(v0, k0, paired, drop as nat));
        }
    }
}

/// Evict the oldest positions so that at most `max_context` remain in the KV window,
/// dropping the oldest context so decoding continues. `cache.pos` (the absolute RoPE
/// position) is left untouched.
pub fn trim_context<T: Copy>(cache: &mut Cache<T>, max_context: usize)
    requires
        can_evict(
            *old(cache),
            overflow(kv_positions(layers_view(old(cache).k@)), max_context as nat),
        ),
    ensures
        ({
            let d = (overflow(kv_positions(layers_view(old(cache).k@)), max_context as nat)
                * KV_DIM) as nat;
            &&& layers_view(final(cache).k@) == evicted(
                layers_view(old(cache).k@),
                layers_view(old(cache).k@),
                paired_layers(*old(cache)),
                d,
            )
            &&& layers_view(final(cache).v@) == evicted(
                layers_view(old(cache).v@),
                layers_view(old(cache).k@),
                paired_layers(*old(cache)),
                d,
            )
        }),
        final(cache).conv@ == old(cache).conv@,
        final(cache).pos == old(cache).pos,
{
    let len = cache.kv_len();
    if len > max_context {
        cache.evict_front(len - max_context);
    } else {
        proof {
            let k0 = layers_view(cache.k@);
            let v0 = layers_view(cache.v@);
            let p = paired_layers(*cache);
            assert forall|i: int| 0 <= i < k0.len() implies #[trigger] evicted(k0, k0, p, 0)[i]
                == k0[i] by {
                assert(k0[i].subrange(0, k0[i].len() as int) =~= k0[i]);
            }
            assert forall|i: int| 0 <= i < v0.len() implies #[trigger] evicted(v0, k0, p, 0)[i]
                == v0[i] by {
                assert(v0[i].subrange(0, v0[i].len() as int) =~= v0[i]);
            }
            assert(evicted(k0, k0, p, 0) =~= k0);
            assert(evicted(v0, k0, p, 0) =~= v0);
        }
    }
}

/// Evicting `n` positions from a window in which every key buffer holds either nothing or
/// the same `p >= n` positions, and every key buffer has its value buffer beside it, leaves a
/// window of `p - n` positions.
pub proof fn lemma_evict_slides_window<T>(c: Cache<T>, n: nat, p: nat)
    requires
        uniform_window(layers_view(c.k@), p),
        kv_positions(layers_view(c.k@)) == p,
        n <= p,
        c.k@.len() <= c.v@.len(),
    ensures
        kv_positions(
            evicted(layers_view(c.k@), layers_view(c.k@), paired_layers(c), (n * KV_DIM) as nat),
        ) == p - n,
{
    let k0 = layers_view(c.k@);
    let d = (n * KV_DIM) as nat;
    let k1 = evicted(k0, k0, paired_layers(c), d);
    let m: nat = ((p - n) * KV_DIM) as nat;
    assert(KV_DIM == 512);
    lemma_max_len_bounds(k0);
    assert forall|i: int| 0 <= i < k1.len() implies #[trigger] k1[i].len() == 0 || k1[i].len()
        == m by {
        assert(k0[i].len() == 0 || k0[i].len() == p * KV_DIM);
        if k0[i].len() == p * KV_DIM {
            assert(p * 512 >= n * 512) by (nonlinear_arith)
                requires
                    p >= n,
            ;
            assert(p * 512 - n * 512 == (p - n) * 512) by (nonlinear_arith);
        }
    }
    if k1.len() > 0 {
        if p > 0 {
            let j = choose|j: int| 0 <= j < k0.len() && k0[j].len() == max_len(k0);
            assert(max_len(k0) / 512 == p);
            assert(k0[j].len() == 0 || k0[j].len() == p * KV_DIM);
            assert(k0[j].len() == p * KV_DIM);
            assert(p * 512 >= n * 512) by (nonlinear_arith)
                requires
                    p >= n,
            ;
            assert(p * 512 - n * 512 == (p - n) * 512) by (nonlinear_arith);
            assert(k1[j].len() == m);
        } else {
            assert(k1[0].len() == 0 || k1[0].len() == m);
        }
    }
    lemma_max_len_is(k1, m);
    assert(((p - n) * 512) / 512 == p - n) by (nonlinear_arith)
        requires
            p >= n,
    ;
}

/// Trimming a window of `p` positions, laid out as in [`lemma_evict_slides_window`], to
/// `max_context` leaves `min(p, max_context)` positions: never more than the cap, and nothing
/// is dropped from a window within it.
pub proof fn lemma_trim_caps_window<T>(c: Cache<T>, max_context: nat, p: nat)
    requires
        uniform_window(layers_view(c.k@), p),
        kv_positions(layers_view(c.k@)) == p,
        c.k@.len() <= c.v@.len(),
    ensures
        kv_positions(
            evicted(
                layers_view(c.k@),
                layers_view(c.k@),
                paired_layers(c),
                (overflow(p, max_context) * KV_DIM) as nat,
            ),
        ) == if p > max_context {
            max_context
        } else {
            p
        },
{
    lemma_evict_slides_window(c, overflow(p, max_context), p);
}

} // verus!
