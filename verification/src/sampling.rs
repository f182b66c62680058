//! The integer side of sampling: the xorshift64* generator that draws the random numbers, the
//! choice of the top-k candidates (by the total order of the logits' bit patterns), and the
//! presence bookkeeping of the repetition penalty (each distinct token of the history is
//! penalized once, however often it occurs).

use vstd::prelude::*;

use crate::sentencepiece::{score_key, total_order_key};

verus! {

/// The default seed of the recommended sampler.
pub const DEFAULT_SEED: u64 = 0x853C_49E6_748F_EA9B;

/// One xorshift step of the state: shift right 12, left 25, right 27, each xored in.
pub open spec fn xorshift_step(x: u64) -> u64 {
    let a = x ^ (x >> 12u64);
    let b = a ^ ((a << 25u64) & 0xffff_ffff_ffff_ffff);
    b ^ (b >> 27u64)
}

/// The output of xorshift64* for a new state: the state times the multiplier, modulo 2^64.
pub open spec fn xorshift_output(x: u64) -> u64 {
    ((x as int * 0x2545F491_4F6CDD1D) % 0x1_0000_0000_0000_0000) as u64
}

/// An xorshift64* generator.
pub struct XorShift64Star {
    state: u64,
}

impl View for XorShift64Star {
    type V = u64;

    closed spec fn view(&self) -> u64 {
        self.state
    }
}

impl XorShift64Star {
    /// A generator seeded with `seed` (made odd, so the state is never zero).
    pub fn new(seed: u64) -> (g: Self)
        ensures
            g@ == seed | 1,
    {
        XorShift64Star { state: seed | 1 }
    }

    /// The next 64 random bits.
    pub fn next_u64(&mut self) -> (r: u64)
        ensures
            final(self)@ == xorshift_step(old(self)@),
            r == xorshift_output(final(self)@),
    {
        let mut x = self.state;
        x = x ^ (x >> 12u64);
        x = x ^ (x << 25u64);
        x = x ^ (x >> 27u64);
        proof {
            let s = self.state;
            let a = s ^ (s >> 12u64);
            assert(a << 25u64 == (a << 25u64) & 0xffff_ffff_ffff_ffff) by (bit_vector);
        }
        self.state = x;
        let p: u128 = (x as u128) * (0x2545F491_4F6CDD1Du128);
        (p % 0x1_0000_0000_0000_0000u128) as u64
    }

    /// The top 24 bits of the next draw: a uniform integer in `[0, 2^24)`.
    pub fn next_u24(&mut self) -> (r: u32)
        ensures
            final(self)@ == xorshift_step(old(self)@),
            r as int == xorshift_output(final(self)@) as int / 0x100_0000_0000,
            r < 0x100_0000,
    {
        let x = self.next_u64();
        let r = x >> 40u64;
        proof {
            assert(x >> 40u64 == x / 0x100_0000_0000) by (bit_vector);
            assert(x >> 40u64 < 0x100_0000) by (bit_vector);
        }
        r as u32
    }
}

/// The distinct tokens of `h`, each at its first occurrence.
pub open spec fn first_occurrences(h: Seq<u32>) -> Seq<u32>
    decreases h.len(),
{
    if h.len() == 0 {
        Seq::empty()
    } else {
        first_occurrences(h.drop_last()) + if h.drop_last().contains(h.last()) {
            Seq::empty()
        } else {
            seq![h.last()]
        }
    }
}

/// The stamps of the presence penalty: the call in which each token was last penalized.
pub struct PresenceStamps {
    last_pass: Vec<u64>,
    pass: u64,
}

impl PresenceStamps {
    /// No stamp is ahead of the current call.
    pub closed spec fn wf(&self) -> bool {
        forall|i: int| 0 <= i < self.last_pass@.len() ==> #[trigger] self.last_pass@[i] <= self.pass
    }

    /// The number of calls so far.
    pub closed spec fn calls(&self) -> u64 {
        self.pass
    }

    /// No call yet.
    pub fn new() -> (s: Self)
        ensures
            s.wf(),
            s.calls() == 0,
    {
        PresenceStamps { last_pass: Vec::new(), pass: 0 }
    }

    /// Forget every stamp.
    pub fn reset(&mut self)
        ensures
            final(self).wf(),
            final(self).calls() == 0,
    {
        self.pass = 0;
        self.last_pass.clear();
    }

    /// The tokens of `history` to penalize in this call: each distinct token once, at its
    /// first occurrence. Tokens are ids below `vocab`.
    pub fn fresh_tokens(&mut self, history: &[u32], vocab: usize) -> (r: Vec<u32>)
        requires
            old(self).wf(),
            old(self).calls() < u64::MAX,
            forall|i: int| 0 <= i < history@.len() ==> (#[trigger] history@[i] as int) < vocab,
        ensures
            final(self).wf(),
            final(self).calls() == old(self).calls() + 1,
            r@ == first_occurrences(history@),
    {
        self.pass = self.pass + 1;
        let pass = self.pass;
        while self.last_pass.len() < vocab
            invariant
                forall|i: int| 0 <= i < self.last_pass@.len() ==> #[trigger] self.last_pass@[i] < pass,
                self.pass == pass,
                pass >= 1,
            decreases vocab - self.last_pass@.len(),
        {
            self.last_pass.push(0);
        }
        let mut out: Vec<u32> = Vec::new();
        let mut j: usize = 0;
        while j < history.len()
            invariant
                self.pass == pass,
                pass >= 1,
                self.last_pass@.len() >= vocab,
                forall|i: int| 0 <= i < history@.len() ==> (#[trigger] history@[i] as int) < vocab,
                j <= history@.len(),
                forall|i: int| 0 <= i < self.last_pass@.len() ==> #[trigger] self.last_pass@[i] <= pass,
                forall|t: u32|
                    (t as int) < self.last_pass@.len() ==> (#[trigger] self.last_pass@[t as int] == pass <==> history@.take(
                        j as int,
                    ).contains(t)),
                out@ == first_occurrences(history@.take(j as int)),
            decreases history@.len() - j,
        {
            let tok = history[j];
            let ghost seen = history@.take(j as int);
            assert(history@.take(j + 1 as int).drop_last() =~= seen);
            assert(history@.take(j + 1 as int).last() == tok);
            if self.last_pass[tok as usize] != pass {
                assert(!seen.contains(tok));
                self.last_pass.set(tok as usize, pass);
                out.push(tok);
            } else {
                assert(seen.contains(tok));
            }
            j += 1;
            assert forall|t: u32| (t as int) < self.last_pass@.len() implies (#[trigger] self.last_pass@[t as int] == pass
                <==> history@.take(j as int).contains(t)) by {
                let now = history@.take(j as int);
                assert(now =~= seen.push(tok));
                if t == tok {
                    assert(now[j - 1] == tok);
                } else {
                    if seen.contains(t) {
                        let k = choose|k: int| 0 <= k < seen.len() && seen[k] == t;
                        assert(now[k] == t);
                    }
                    if now.contains(t) {
                        let k = choose|k: int| 0 <= k < now.len() && now[k] == t;
                        assert(k < j - 1);
                        assert(seen[k] == t);
                    }
                }
            }
        }
        assert(history@.take(j as int) =~= history@);
        out
    }
}

/// Presence, not count: however often a token occurs, it is penalized once, and every token
/// of the history is penalized.
pub proof fn lemma_each_token_penalized_once(h: Seq<u32>)
    ensures
        forall|a: int, b: int| 0 <= a < b < first_occurrences(h).len() ==> first_occurrences(h)[a] != first_occurrences(h)[b],
        forall|t: u32| #[trigger] h.contains(t) <==> first_occurrences(h).contains(t),
    decreases h.len(),
{
    if h.len() > 0 {
        let p = h.drop_last();
        lemma_each_token_penalized_once(p);
        let fp = first_occurrences(p);
        let fh = first_occurrences(h);
        assert forall|t: u32| #[trigger] h.contains(t) <==> fh.contains(t) by {
            if h.contains(t) {
                let k = choose|k: int| 0 <= k < h.len() && h[k] == t;
                if k < h.len() - 1 {
                    assert(p[k] == t);
                    assert(p.contains(t));
                    let m = choose|m: int| 0 <= m < fp.len() && fp[m] == t;
                    assert(fh[m] == t);
                } else if !p.contains(t) {
                    assert(fh[fp.len() as int] == t);
                } else {
                    assert(fp.contains(t));
                    let m = choose|m: int| 0 <= m < fp.len() && fp[m] == t;
                    assert(fh[m] == t);
                }
            }
            if fh.contains(t) {
                let m = choose|m: int| 0 <= m < fh.len() && fh[m] == t;
                if m < fp.len() {
                    assert(fp[m] == t);
                    assert(p.contains(t));
                    let k = choose|k: int| 0 <= k < p.len() && p[k] == t;
                    assert(h[k] == t);
                } else {
                    assert(h[h.len() - 1] == t);
                }
            }
        }
        assert forall|a: int, b: int| 0 <= a < b < fh.len() implies fh[a] != fh[b] by {
            if b >= fp.len() {
                assert(fh[b] == h.last());
                assert(!p.contains(h.last()));
                assert(fp[a] == fh[a]);
                if fh[a] == h.last() {
                    assert(fp.contains(h.last()));
                }
            } else {
                assert(fh[a] == fp[a] && fh[b] == fp[b]);
            }
        }
    }
}

/// The number of candidates top-k keeps out of `n` logits: all of them when `top_k` is 0 or
/// at least `n`.
pub open spec fn top_k_count(n: nat, top_k: nat) -> nat {
    if top_k == 0 || top_k > n {
        n
    } else {
        top_k
    }
}

/// Candidate `a` ranks before candidate `b`: its logit (a float given by its bit pattern) is
/// larger in the IEEE-754 total order, or the two are equal and `a` comes first.
pub open spec fn ranks_before(bits: Seq<u32>, a: int, b: int) -> bool {
    ||| score_key(bits[a]) > score_key(bits[b])
    ||| (score_key(bits[a]) == score_key(bits[b]) && a < b)
}

/// `c` lists distinct logit indices in ranking order.
pub open spec fn in_rank_order(bits: Seq<u32>, c: Seq<usize>) -> bool {
    &&& forall|i: int| 0 <= i < c.len() ==> #[trigger] c[i] < bits.len()
    &&& forall|i: int, j: int|
        0 <= i < j < c.len() ==> ranks_before(bits, #[trigger] c[i] as int, #[trigger] c[j] as int)
}

/// `c` is what top-k keeps of the logits `bits`: `top_k_count` indices; all of them in order
/// when every logit is kept; otherwise the kept ones in ranking order, every index left out
/// ranking after all of them.
pub open spec fn top_k_chosen(bits: Seq<u32>, top_k: nat, c: Seq<usize>) -> bool {
    &&& c.len() == top_k_count(bits.len(), top_k)
    &&& top_k_count(bits.len(), top_k) == bits.len() ==> c == Seq::new(
        bits.len(),
        |i: int| i as usize,
    )
    &&& top_k_count(bits.len(), top_k) < bits.len() ==> {
        &&& in_rank_order(bits, c)
        &&& forall|i: int, x: int|
            0 <= i < c.len() && 0 <= x < bits.len() && !c.contains(x as usize) ==> ranks_before(
                bits,
                c[i] as int,
                x,
            )
    }
}

/// The candidates of top-k sampling over logits given by their bit patterns. When `top_k`
/// keeps every logit, they are all the indices in order. Otherwise they are the `top_k`
/// indices of the largest logits in the order of `f32::total_cmp`, largest first, an equal
/// logit at a smaller index first; every index left out ranks after all of them.
pub fn top_k_candidates(bits: &[u32], top_k: usize) -> (c: Vec<usize>)
    ensures
        top_k_chosen(bits@, top_k as nat, c@),
{
    let n = bits.len();
    if top_k == 0 || top_k >= n {
        let mut all: Vec<usize> = Vec::new();
        let mut i: usize = 0;
        while i < n
            invariant
                n == bits@.len(),
                i <= n,
                all@ == Seq::new(i as nat, |j: int| j as usize),
            decreases n - i,
        {
            all.push(i);
            i = i + 1;
        }
        return all;
    }
    let k = top_k;
    let mut keys: Vec<i64> = Vec::new();
    let mut i: usize = 0;
    while i < n
        invariant
            n == bits@.len(),
            i <= n,
            keys@.len() == i,
            forall|j: int| 0 <= j < i ==> keys@[j] as int == score_key(#[trigger] bits@[j]),
        decreases n - i,
    {
        keys.push(total_order_key(bits[i]));
        i = i + 1;
    }
    let mut buf: Vec<usize> = Vec::new();
    let mut x: usize = 0;
    while x < n
        invariant
            n == bits@.len(),
            0 < k < n,
            keys@.len() == n,
            forall|j: int| 0 <= j < n ==> keys@[j] as int == score_key(#[trigger] bits@[j]),
            x <= n,
            buf@.len() == if x < k {
                x
            } else {
                k
            },
            in_rank_order(bits@, buf@),
            forall|i: int| 0 <= i < buf@.len() ==> #[trigger] buf@[i] < x,
            x < k ==> forall|y: int| 0 <= y < x ==> buf@.contains(#[trigger] (y as usize)),
            forall|i: int, y: int|
                0 <= i < buf@.len() && 0 <= y < x && !buf@.contains(y as usize) ==> ranks_before(
                    bits@,
                    buf@[i] as int,
                    y,
                ),
        decreases n - x,
    {
        let kx = keys[x];
        let full = buf.len() == k;
        let mut take_it = !full;
        if full {
            let last = buf[buf.len() - 1];
            take_it = kx > keys[last];
        }
        if take_it {
            // The first position whose candidate `x` ranks before.
            let mut p: usize = 0;
            while p < buf.len() && keys[buf[p]] >= kx
                invariant
                    n == bits@.len(),
                    keys@.len() == n,
                    forall|j: int| 0 <= j < n ==> keys@[j] as int == score_key(#[trigger] bits@[j]),
                    kx as int == score_key(bits@[x as int]),
                    x < n,
                    in_rank_order(bits@, buf@),
                    forall|i: int| 0 <= i < buf@.len() ==> #[trigger] buf@[i] < x,
                    p <= buf@.len(),
                    forall|i: int| 0 <= i < p ==> ranks_before(bits@, #[trigger] buf@[i] as int, x as int),
                decreases buf@.len() - p,
            {
                p = p + 1;
            }
            let ghost old_buf = buf@;
            if full {
                buf.pop();
            }
            let ghost kept = buf@;
            proof {
                if p == old_buf.len() && full {
                    // `x` is taken only when it ranks before the last candidate.
                    assert(ranks_before(bits@, old_buf.last() as int, x as int));
                    assert(false);
                }
            }
            buf.insert(p, x);
            proof {
                assert(kept =~= if full { old_buf.drop_last() } else { old_buf });
                assert forall|i: int| 0 <= i < buf@.len() implies #[trigger] buf@[i] < x + 1 by {
                    if i < p {
                        assert(buf@[i] == kept[i]);
                    } else if i > p {
                        assert(buf@[i] == kept[i - 1]);
                    }
                }
                assert forall|i: int, j: int|
                    0 <= i < j < buf@.len() implies ranks_before(
                    bits@,
                    #[trigger] buf@[i] as int,
                    #[trigger] buf@[j] as int,
                ) by {
                    if j < p {
                        assert(buf@[i] == kept[i] && buf@[j] == kept[j]);
                    } else if j == p {
                        assert(buf@[i] == kept[i]);
                    } else if i == p {
                        assert(buf@[j] == kept[j - 1]);
                        assert(!ranks_before(bits@, kept[p as int] as int, x as int));
                        assert(ranks_before(bits@, kept[p as int] as int, kept[j - 1] as int) || p
                            == j - 1);
                    } else if i < p {
                        assert(buf@[i] == kept[i] && buf@[j] == kept[j - 1]);
                    } else {
                        assert(buf@[i] == kept[i - 1] && buf@[j] == kept[j - 1]);
                    }
                }
                if !full {
                    assert forall|y: int| 0 <= y < x + 1 implies buf@.contains(
                        #[trigger] (y as usize),
                    ) by {
                        if y == x {
                            assert(buf@[p as int] == x);
                        } else {
                            assert(old_buf.contains(y as usize));
                            let t = choose|t: int| 0 <= t < old_buf.len() && old_buf[t] == y as usize;
                            if t < p {
                                assert(buf@[t] == y as usize);
                            } else {
                                assert(buf@[t + 1] == y as usize);
                            }
                        }
                    }
                }
                assert forall|i: int, y: int|
                    0 <= i < buf@.len() && 0 <= y < x + 1 && !buf@.contains(y as usize)
                        implies ranks_before(bits@, buf@[i] as int, y) by {
                    assert(buf@[p as int] == x);
                    assert(y != x);
                    // Where `y` stood before this step.
                    let e = old_buf.last();
                    if full && y == e as int {
                        // The evicted candidate ranks after every other one, and after `x`.
                        assert(ranks_before(bits@, x as int, e as int));
                        if i < p {
                            assert(buf@[i] == old_buf[i]);
                            assert(old_buf[i] != e);
                            assert(ranks_before(bits@, old_buf[i] as int, e as int));
                        } else if i > p {
                            assert(buf@[i] == old_buf[i - 1]);
                            assert(ranks_before(bits@, old_buf[i - 1] as int, e as int));
                        }
                    } else {
                        assert(!old_buf.contains(y as usize)) by {
                            if old_buf.contains(y as usize) {
                                let t = choose|t: int| 0 <= t < old_buf.len() && old_buf[t] == y as usize;
                                if full && t == old_buf.len() - 1 {
                                } else {
                                    assert(kept[t] == y as usize);
                                    if t < p {
                                        assert(buf@[t] == y as usize);
                                    } else {
                                        assert(buf@[t + 1] == y as usize);
                                    }
                                }
                            }
                        }
                        if full {
                            assert(ranks_before(bits@, e as int, y));
                            assert(ranks_before(bits@, x as int, e as int));
                        }
                        if i < p {
                            assert(buf@[i] == kept[i]);
                        } else if i > p {
                            assert(buf@[i] == kept[i - 1]);
                        } else if !full {
                            assert(old_buf.contains(y as usize));
                        }
                    }
                }
            }
        } else {
            proof {
                let e = buf@.last();
                assert(ranks_before(bits@, e as int, x as int));
                assert forall|i: int, y: int|
                    0 <= i < buf@.len() && 0 <= y < x + 1 && !buf@.contains(y as usize)
                        implies ranks_before(bits@, buf@[i] as int, y) by {
                    if y == x && i < buf@.len() - 1 {
                        assert(ranks_before(bits@, buf@[i] as int, e as int));
                    }
                }
            }
        }
        x = x + 1;
    }
    buf
}

/// The indices of the logits larger than the one at `x0` (in the total order of floats).
pub open spec fn larger_logits(bits: Seq<u32>, x0: int) -> Set<int> {
    Set::new(|x: int| 0 <= x < bits.len() && score_key(bits[x]) > score_key(bits[x0]))
}

/// Every top-k candidate is one of the `k` highest logits: fewer logits than there are
/// candidates are larger than it, and the candidate at place `i` of a selection has at most
/// `i` larger logits (so the first has none: it is a largest logit).
pub proof fn lemma_candidates_are_top(bits: Seq<u32>, top_k: nat, c: Seq<usize>, i: int)
    requires
        top_k_chosen(bits, top_k, c),
        bits.len() <= usize::MAX,
        0 <= i < c.len(),
    ensures
        larger_logits(bits, c[i] as int).finite(),
        larger_logits(bits, c[i] as int).len() < c.len(),
        top_k_count(bits.len(), top_k) < bits.len() ==> larger_logits(bits, c[i] as int).len() <= i,
{
    let n = bits.len();
    let l = larger_logits(bits, c[i] as int);
    if top_k_count(n, top_k) == n {
        let all = vstd::set_lib::set_int_range(0, n as int);
        vstd::set_lib::lemma_int_range(0, n as int);
        assert(c[i] as int == i);
        let r = all.remove(i);
        assert(l.subset_of(r));
        vstd::set_lib::lemma_len_subset(l, r);
    } else {
        let before = c.take(i).map_values(|u: usize| u as int);
        let t = before.to_set();
        assert forall|x: int| l.contains(x) implies t.contains(x) by {
            assert((x as usize) as int == x);
            if !c.contains(x as usize) {
                assert(ranks_before(bits, c[i] as int, x));
            } else {
                let j = choose|j: int| 0 <= j < c.len() && c[j] == x as usize;
                if j > i {
                    assert(ranks_before(bits, c[i] as int, c[j] as int));
                }
                assert(j != i);
                assert(j < i);
                assert(before[j] == x);
            }
        }
        vstd::seq_lib::seq_to_set_is_finite(before);
        before.lemma_cardinality_of_set();
        vstd::set_lib::lemma_len_subset(l, t);
    }
}

} // verus!
