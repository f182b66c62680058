//! Hash indexes from strings (and pairs of strings) to ids, for vocabulary and merge-rank
//! lookups. Keys are hashed with FNV-1a over their characters and kept in buckets that are
//! searched by exact comparison, so a lookup answers exactly what was last inserted.

use std::collections::HashMap;

use vstd::prelude::*;
use vstd::std_specs::hash::{axiom_random_state_builds_valid_hashers, axiom_u64_obeys_hash_table_key_model};

use crate::text::{str_eq, to_chars};

verus! {

broadcast use axiom_u64_obeys_hash_table_key_model, axiom_random_state_builds_valid_hashers;

/// The FNV-1a offset basis.
pub const FNV_OFFSET: u64 = 0xcbf2_9ce4_8422_2325;

/// The FNV-1a prime.
pub const FNV_PRIME: u64 = 0x100_0000_01b3;

/// One FNV-1a step: mix `x` into `h`.
pub open spec fn fnv_step(h: u64, x: u64) -> u64 {
    (((h ^ x) as int * FNV_PRIME as int) % 0x1_0000_0000_0000_0000) as u64
}

/// The FNV-1a hash of `s`'s characters, continuing from `h`.
pub open spec fn fnv_chars(h: u64, s: Seq<char>) -> u64
    decreases s.len(),
{
    if s.len() == 0 {
        h
    } else {
        fnv_step(fnv_chars(h, s.drop_last()), s.last() as u32 as u64)
    }
}

/// The hash of a key.
pub open spec fn str_hash(s: Seq<char>) -> u64 {
    fnv_chars(FNV_OFFSET, s)
}

/// The hash of a pair of keys: the first, a separator, then the second.
pub open spec fn pair_hash(a: Seq<char>, b: Seq<char>) -> u64 {
    fnv_chars(fnv_step(fnv_chars(FNV_OFFSET, a), 0x1_0000_0000), b)
}

fn fnv_step_exec(h: u64, x: u64) -> (r: u64)
    ensures
        r == fnv_step(h, x),
{
    let p: u128 = ((h ^ x) as u128) * (FNV_PRIME as u128);
    (p % 0x1_0000_0000_0000_0000u128) as u64
}

fn fnv_chars_exec(h: u64, s: &str) -> (r: u64)
    ensures
        r == fnv_chars(h, s@),
{
    let c = to_chars(s);
    let mut acc = h;
    let mut i: usize = 0;
    while i < c.len()
        invariant
            c@ == s@,
            i <= c@.len(),
            acc == fnv_chars(h, c@.take(i as int)),
        decreases c@.len() - i,
    {
        assert(c@.take(i + 1 as int).drop_last() =~= c@.take(i as int));
        acc = fnv_step_exec(acc, c[i] as u32 as u64);
        i += 1;
    }
    assert(c@.take(i as int) =~= s@);
    acc
}

/// Every entry of bucket `b` hashes to `h` and holds its key's value in `m`, and no key
/// appears twice.
pub open spec fn bucket_ok(b: Seq<(String, u32)>, h: u64, m: Map<Seq<char>, u32>) -> bool {
    &&& forall|j: int|
        0 <= j < b.len() ==> {
            let e = #[trigger] b[j];
            &&& str_hash(e.0@) == h
            &&& m.contains_key(e.0@)
            &&& m[e.0@] == e.1
        }
    &&& forall|j1: int, j2: int|
        0 <= j1 < b.len() && 0 <= j2 < b.len() && j1 != j2 ==> #[trigger] b[j1].0@ != #[trigger] b[j2].0@
}

/// Whether bucket `b` has an entry for `s`.
pub open spec fn bucket_has(b: Seq<(String, u32)>, s: Seq<char>) -> bool {
    exists|j: int| 0 <= j < b.len() && #[trigger] b[j].0@ == s
}

/// A map from strings to ids.
pub struct StrIndex {
    buckets: HashMap<u64, Vec<(String, u32)>>,
    entries: Ghost<Map<Seq<char>, u32>>,
}

impl View for StrIndex {
    type V = Map<Seq<char>, u32>;

    closed spec fn view(&self) -> Map<Seq<char>, u32> {
        self.entries@
    }
}

impl StrIndex {
    /// Every bucket entry is a key of the map under its own hash, with the map's value, and
    /// no key appears twice in a bucket; every key of the map has an entry in its bucket.
    pub closed spec fn wf(&self) -> bool {
        &&& forall|h: u64|
            #![trigger self.buckets@.contains_key(h)]
            self.buckets@.contains_key(h) ==> bucket_ok(self.buckets@[h]@, h, self.entries@)
        &&& forall|s: Seq<char>|
            #![trigger self.entries@.contains_key(s)]
            self.entries@.contains_key(s) ==> self.buckets@.contains_key(str_hash(s))
                && bucket_has(self.buckets@[str_hash(s)]@, s)
    }

    /// An empty index.
    pub fn new() -> (r: Self)
        ensures
            r.wf(),
            r@ == Map::<Seq<char>, u32>::empty(),
    {
        StrIndex { buckets: HashMap::new(), entries: Ghost(Map::empty()) }
    }

    /// Maps `key` to `value`, replacing any earlier value.
    pub fn insert(&mut self, key: String, value: u32)
        requires
            old(self).wf(),
        ensures
            final(self).wf(),
            final(self)@ == old(self)@.insert(key@, value),
    {
        let h = fnv_chars_exec(FNV_OFFSET, key.as_str());
        let ghost k = key@;
        let ghost old_entries = self.entries@;
        let ghost old_buckets = self.buckets@;
        let mut bucket = match self.buckets.remove(&h) {
            Some(b) => b,
            None => Vec::new(),
        };
        let ghost before = bucket@;
        assert(old_buckets.contains_key(h) ==> before == old_buckets[h]@);
        assert(!old_buckets.contains_key(h) ==> before == Seq::<(String, u32)>::empty());
        let mut i: usize = 0;
        let mut found = false;
        while i < bucket.len() && !found
            invariant
                bucket@ == before,
                i <= bucket@.len(),
                k == key@,
                found ==> i < bucket@.len() && bucket@[i as int].0@ == k,
                forall|j: int| 0 <= j < i ==> bucket@[j].0@ != k,
            decreases bucket@.len() - i + (if found { 0int } else { 1int }),
        {
            if str_eq(bucket[i].0.as_str(), key.as_str()) {
                found = true;
            } else {
                i += 1;
            }
        }
        if found {
            bucket.set(i, (key, value));
        } else {
            bucket.push((key, value));
        }
        let ghost after = bucket@;
        self.buckets.insert(h, bucket);
        proof {
            let m = old_entries.insert(k, value);
            self.entries@ = m;
            if old_buckets.contains_key(h) {
                assert(bucket_ok(before, h, old_entries));
            }
            assert(bucket_ok(after, h, m)) by {
                assert forall|j: int| 0 <= j < after.len() implies {
                    let e = #[trigger] after[j];
                    &&& str_hash(e.0@) == h
                    &&& m.contains_key(e.0@)
                    &&& m[e.0@] == e.1
                } by {
                    if j != i {
                        assert(after[j] == before[j]);
                        assert(before[j].0@ != k) by {
                            if j > i {
                                assert(before[j].0@ != before[i as int].0@);
                            }
                        }
                    }
                }
                assert forall|j1: int, j2: int| 0 <= j1 < after.len() && 0 <= j2 < after.len() && j1 != j2 implies #[trigger] after[j1].0@ != #[trigger] after[j2].0@ by {
                    if j1 != i && j2 != i {
                        assert(after[j1] == before[j1] && after[j2] == before[j2]);
                    } else if j1 == i {
                        assert(after[j2] == before[j2]);
                        if j2 > i {
                            assert(before[j2].0@ != before[i as int].0@);
                        }
                    } else {
                        assert(after[j1] == before[j1]);
                        if j1 > i {
                            assert(before[j1].0@ != before[i as int].0@);
                        }
                    }
                }
            }
            assert forall|h2: u64| #[trigger] self.buckets@.contains_key(h2) implies bucket_ok(self.buckets@[h2]@, h2, m) by {
                if h2 != h {
                    let b2 = old_buckets[h2]@;
                    assert(bucket_ok(b2, h2, old_entries));
                    assert forall|j: int| 0 <= j < b2.len() implies b2[j].0@ != k by {
                        assert(str_hash(b2[j].0@) == h2);
                    }
                }
            }
            assert forall|s2: Seq<char>| #[trigger] m.contains_key(s2) implies self.buckets@.contains_key(str_hash(s2))
                && bucket_has(self.buckets@[str_hash(s2)]@, s2) by {
                if s2 == k {
                    assert(after[i as int].0@ == k);
                } else {
                    assert(old_entries.contains_key(s2));
                    let hs = str_hash(s2);
                    assert(bucket_has(old_buckets[hs]@, s2));
                    if hs == h {
                        let j = choose|j: int| 0 <= j < before.len() && #[trigger] before[j].0@ == s2;
                        assert(j != i || !found);
                        assert(after[j] == before[j]);
                    }
                }
            }
        }
    }

    /// The id mapped to `key`, if any.
    pub fn get(&self, key: &str) -> (r: Option<u32>)
        requires
            self.wf(),
        ensures
            match r {
                Some(v) => self@.contains_key(key@) && self@[key@] == v,
                None => !self@.contains_key(key@),
            },
    {
        let h = fnv_chars_exec(FNV_OFFSET, key);
        match self.buckets.get(&h) {
            None => None,
            Some(bucket) => {
                let mut i: usize = 0;
                while i < bucket.len()
                    invariant
                        self.wf(),
                        self.buckets@.contains_key(h),
                        h == str_hash(key@),
                        *bucket == self.buckets@[h],
                        i <= bucket@.len(),
                        forall|j: int| 0 <= j < i ==> bucket@[j].0@ != key@,
                    decreases bucket@.len() - i,
                {
                    if str_eq(bucket[i].0.as_str(), key) {
                        return Some(bucket[i].1);
                    }
                    i += 1;
                }
                None
            },
        }
    }
}

/// Every entry of pair bucket `b` hashes to `h` and holds its key's value in `m`, and no key
/// appears twice.
pub open spec fn pair_bucket_ok(b: Seq<(String, String, u32)>, h: u64, m: Map<(Seq<char>, Seq<char>), u32>) -> bool {
    &&& forall|j: int|
        0 <= j < b.len() ==> {
            let e = #[trigger] b[j];
            &&& pair_hash(e.0@, e.1@) == h
            &&& m.contains_key((e.0@, e.1@))
            &&& m[(e.0@, e.1@)] == e.2
        }
    &&& forall|j1: int, j2: int|
        0 <= j1 < b.len() && 0 <= j2 < b.len() && j1 != j2 ==> (#[trigger] b[j1].0@, b[j1].1@) != (#[trigger] b[j2].0@, b[j2].1@)
}

/// Whether pair bucket `b` has an entry for `s`.
pub open spec fn pair_bucket_has(b: Seq<(String, String, u32)>, s: (Seq<char>, Seq<char>)) -> bool {
    exists|j: int| 0 <= j < b.len() && (#[trigger] b[j].0@, b[j].1@) == s
}

/// A map from pairs of strings to ids.
pub struct PairIndex {
    buckets: HashMap<u64, Vec<(String, String, u32)>>,
    entries: Ghost<Map<(Seq<char>, Seq<char>), u32>>,
}

impl View for PairIndex {
    type V = Map<(Seq<char>, Seq<char>), u32>;

    closed spec fn view(&self) -> Map<(Seq<char>, Seq<char>), u32> {
        self.entries@
    }
}

impl PairIndex {
    /// Every bucket entry is a key of the map under its own hash, with the map's value, and
    /// no key appears twice in a bucket; every key of the map has an entry in its bucket.
    pub closed spec fn wf(&self) -> bool {
        &&& forall|h: u64|
            #![trigger self.buckets@.contains_key(h)]
            self.buckets@.contains_key(h) ==> pair_bucket_ok(self.buckets@[h]@, h, self.entries@)
        &&& forall|s: (Seq<char>, Seq<char>)|
            #![trigger self.entries@.contains_key(s)]
            self.entries@.contains_key(s) ==> self.buckets@.contains_key(pair_hash(s.0, s.1))
                && pair_bucket_has(self.buckets@[pair_hash(s.0, s.1)]@, s)
    }

    /// An empty index.
    pub fn new() -> (r: Self)
        ensures
            r.wf(),
            r@ == Map::<(Seq<char>, Seq<char>), u32>::empty(),
    {
        PairIndex { buckets: HashMap::new(), entries: Ghost(Map::empty()) }
    }

    /// Maps the pair `(a, b)` to `value`, replacing any earlier value.
    pub fn insert(&mut self, a: String, b: String, value: u32)
        requires
            old(self).wf(),
        ensures
            final(self).wf(),
            final(self)@ == old(self)@.insert((a@, b@), value),
    {
        let h = pair_hash_exec(a.as_str(), b.as_str());
        let ghost k = (a@, b@);
        let ghost old_entries = self.entries@;
        let ghost old_buckets = self.buckets@;
        let mut bucket = match self.buckets.remove(&h) {
            Some(bk) => bk,
            None => Vec::new(),
        };
        let ghost before = bucket@;
        assert(old_buckets.contains_key(h) ==> before == old_buckets[h]@);
        assert(!old_buckets.contains_key(h) ==> before == Seq::<(String, String, u32)>::empty());
        let mut i: usize = 0;
        let mut found = false;
        while i < bucket.len() && !found
            invariant
                bucket@ == before,
                i <= bucket@.len(),
                k == (a@, b@),
                found ==> i < bucket@.len() && pair_key(bucket@[i as int]) == k,
                forall|j: int| 0 <= j < i ==> pair_key(bucket@[j]) != k,
            decreases bucket@.len() - i + (if found { 0int } else { 1int }),
        {
            if str_eq(bucket[i].0.as_str(), a.as_str()) && str_eq(bucket[i].1.as_str(), b.as_str()) {
                found = true;
            } else {
                i += 1;
            }
        }
        if found {
            bucket.set(i, (a, b, value));
        } else {
            bucket.push((a, b, value));
        }
        let ghost after = bucket@;
        self.buckets.insert(h, bucket);
        proof {
            let m = old_entries.insert(k, value);
            self.entries@ = m;
            if old_buckets.contains_key(h) {
                assert(pair_bucket_ok(before, h, old_entries));
            }
            assert(pair_bucket_ok(after, h, m)) by {
                assert forall|j: int| 0 <= j < after.len() implies {
                    let e = #[trigger] after[j];
                    &&& pair_hash(e.0@, e.1@) == h
                    &&& m.contains_key((e.0@, e.1@))
                    &&& m[(e.0@, e.1@)] == e.2
                } by {
                    if j != i {
                        assert(after[j] == before[j]);
                        assert(pair_key(before[j]) != k) by {
                            if j > i {
                                assert(pair_key(before[j]) != pair_key(before[i as int]));
                            }
                        }
                    }
                }
                assert forall|j1: int, j2: int| 0 <= j1 < after.len() && 0 <= j2 < after.len() && j1 != j2 implies (#[trigger] after[j1].0@, after[j1].1@) != (#[trigger] after[j2].0@, after[j2].1@) by {
                    if j1 != i && j2 != i {
                        assert(after[j1] == before[j1] && after[j2] == before[j2]);
                    } else if j1 == i {
                        assert(after[j2] == before[j2]);
                        if j2 > i {
                            assert(pair_key(before[j2]) != pair_key(before[i as int]));
                        }
                    } else {
                        assert(after[j1] == before[j1]);
                        if j1 > i {
                            assert(pair_key(before[j1]) != pair_key(before[i as int]));
                        }
                    }
                }
            }
            assert forall|h2: u64| #[trigger] self.buckets@.contains_key(h2) implies pair_bucket_ok(self.buckets@[h2]@, h2, m) by {
                if h2 != h {
                    let b2 = old_buckets[h2]@;
                    assert(pair_bucket_ok(b2, h2, old_entries));
                    assert forall|j: int| 0 <= j < b2.len() implies pair_key(b2[j]) != k by {
                        assert(pair_hash(b2[j].0@, b2[j].1@) == h2);
                    }
                }
            }
            assert forall|s2: (Seq<char>, Seq<char>)| #[trigger] m.contains_key(s2) implies self.buckets@.contains_key(pair_hash(s2.0, s2.1))
                && pair_bucket_has(self.buckets@[pair_hash(s2.0, s2.1)]@, s2) by {
                if s2 == k {
                    assert(pair_key(after[i as int]) == k);
                } else {
                    assert(old_entries.contains_key(s2));
                    let hs = pair_hash(s2.0, s2.1);
                    assert(pair_bucket_has(old_buckets[hs]@, s2));
                    if hs == h {
                        let j = choose|j: int| 0 <= j < before.len() && (#[trigger] before[j].0@, before[j].1@) == s2;
                        assert(j != i || !found);
                        assert(after[j] == before[j]);
                    }
                }
            }
        }
    }

    /// The id mapped to the pair `(a, b)`, if any.
    pub fn get(&self, a: &str, b: &str) -> (r: Option<u32>)
        requires
            self.wf(),
        ensures
            match r {
                Some(v) => self@.contains_key((a@, b@)) && self@[(a@, b@)] == v,
                None => !self@.contains_key((a@, b@)),
            },
    {
        let h = pair_hash_exec(a, b);
        match self.buckets.get(&h) {
            None => None,
            Some(bucket) => {
                let mut i: usize = 0;
                while i < bucket.len()
                    invariant
                        self.wf(),
                        self.buckets@.contains_key(h),
                        h == pair_hash(a@, b@),
                        *bucket == self.buckets@[h],
                        i <= bucket@.len(),
                        forall|j: int| 0 <= j < i ==> pair_key(bucket@[j]) != (a@, b@),
                    decreases bucket@.len() - i,
                {
                    if str_eq(bucket[i].0.as_str(), a) && str_eq(bucket[i].1.as_str(), b) {
                        return Some(bucket[i].2);
                    }
                    i += 1;
                }
                None
            },
        }
    }
}

/// The key of a pair-bucket entry.
pub open spec fn pair_key(e: (String, String, u32)) -> (Seq<char>, Seq<char>) {
    (e.0@, e.1@)
}

fn pair_hash_exec(a: &str, b: &str) -> (r: u64)
    ensures
        r == pair_hash(a@, b@),
{
    let ha = fnv_chars_exec(FNV_OFFSET, a);
    let hs = fnv_step_exec(ha, 0x1_0000_0000);
    fnv_chars_exec(hs, b)
}

} // verus!
