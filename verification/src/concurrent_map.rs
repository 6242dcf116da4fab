//! A hash map from byte-string keys split into shards by key hash.
//!
//! Each key lives in the shard picked by the low bits of its hash, so that
//! shards can be handled independently. Within a shard no key occurs twice.

use crate::protocol::{default_hash_of, hash_bytes};
use vstd::prelude::*;

verus! {

/// The number of shards of [`ConcurrentHashMap::new`]; a power of two.
pub const DEFAULT_SHARD_COUNT: usize = 256;

/// `n` is a power of two.
pub open spec fn is_pow2(n: usize) -> bool {
    n > 0 && n & sub1(n) == 0
}

/// `n - 1`, wrapping at zero.
pub open spec fn sub1(n: usize) -> usize {
    (n - 1) as usize
}

/// The shard that holds `key` when there are `mask + 1` shards.
pub open spec fn shard_of(key: Seq<u8>, mask: usize) -> int {
    ((default_hash_of(key) as usize) & mask) as int
}

/// An index as an integer.
#[verifier::inline]
pub open spec fn ix(i: usize) -> int {
    i as int
}

/// The length of a sequence as an integer.
#[verifier::inline]
pub open spec fn len_of<A>(s: Seq<A>) -> int {
    s.len() as int
}

/// The keys of a shard's entries, in order.
pub open spec fn keys_of<V>(entries: Seq<(Vec<u8>, V)>) -> Seq<Seq<u8>> {
    entries.map_values(|e: (Vec<u8>, V)| e.0@)
}

/// The byte strings of a sequence of keys.
pub open spec fn key_views(s: Seq<Vec<u8>>) -> Seq<Seq<u8>> {
    s.map_values(|v: Vec<u8>| v@)
}

/// The smaller of `n` and `usize::MAX`.
pub open spec fn capped(n: nat) -> usize {
    if n <= usize::MAX {
        n as usize
    } else {
        usize::MAX
    }
}

/// The number of entries in the first `n` shards.
pub open spec fn entries_upto<V>(shards: Seq<Vec<(Vec<u8>, V)>>, n: int) -> nat
    decreases n,
{
    if n <= 0 {
        0
    } else {
        entries_upto(shards, n - 1) + shards[n - 1]@.len()
    }
}

/// A map from byte strings to values, split into a power-of-two number of
/// shards by key hash.
pub struct ConcurrentHashMap<V> {
    shards: Vec<Vec<(Vec<u8>, V)>>,
    shard_mask: usize,
    map: Ghost<Map<Seq<u8>, V>>,
}

impl<V> View for ConcurrentHashMap<V> {
    type V = Map<Seq<u8>, V>;

    /// The stored values by key.
    closed spec fn view(&self) -> Map<Seq<u8>, V> {
        self.map@
    }
}

/// Every key's shard is one of the `mask + 1` shards.
proof fn lemma_shard_range(key: Seq<u8>, mask: usize)
    ensures
        0 <= shard_of(key, mask) <= mask,
{
    lemma_mask_bound(default_hash_of(key) as usize, mask);
}

/// A value's bits masked by `mask` are no larger than `mask`.
proof fn lemma_mask_bound(h: usize, mask: usize)
    ensures
        h & mask <= mask,
{
    assert(h & mask <= mask) by (bit_vector);
}

/// Whether two byte strings are equal.
fn bytes_eq(a: &[u8], b: &[u8]) -> (r: bool)
    ensures
        r == (a@ == b@),
{
    if a.len() != b.len() {
        return false;
    }
    let mut i: usize = 0;
    while i < a.len()
        invariant
            i <= a.len(),
            a.len() == b.len(),
            forall|j: int| 0 <= j < i ==> a@[j] == b@[j],
        decreases a.len() - i,
    {
        if a[i] != b[i] {
            return false;
        }
        i += 1;
    }
    assert(a@ =~= b@);
    true
}

impl<V> ConcurrentHashMap<V> {
    /// The number of shards.
    pub closed spec fn shard_total(&self) -> nat {
        self.shards@.len()
    }

    /// The mask that picks a key's shard out of its hash.
    pub closed spec fn mask(&self) -> usize {
        self.shard_mask
    }

    /// The map is well formed: a power-of-two number of shards, each key in
    /// the shard its hash picks, no key twice in a shard, and the shards hold
    /// exactly the entries of the map.
    pub closed spec fn wf(&self) -> bool {
        &&& self.shards@.len() == self.shard_mask + 1
        &&& is_pow2((self.shard_mask + 1) as usize)
        &&& self.map@.dom().finite()
        &&& forall|i: int, j: int|
            0 <= i < self.shards@.len() && 0 <= j < self.shards@[i]@.len() ==> shard_of(
                #[trigger] self.shards@[i]@[j].0@,
                self.shard_mask,
            ) == i
        &&& forall|i: int| 0 <= i < self.shards@.len() ==> keys_of(#[trigger] self.shards@[i]@).no_duplicates()
        &&& forall|i: int, j: int|
            0 <= i < self.shards@.len() && 0 <= j < self.shards@[i]@.len() ==> self.map@.contains_key(
                #[trigger] self.shards@[i]@[j].0@,
            ) && self.map@[self.shards@[i]@[j].0@] == self.shards@[i]@[j].1
        &&& forall|k: Seq<u8>|
            #[trigger] self.map@.contains_key(k) ==> keys_of(
                self.shards@[shard_of(k, self.shard_mask)]@,
            ).contains(k)
    }

    /// A well-formed map holds finitely many entries.
    pub proof fn lemma_finite(&self)
        requires
            self.wf(),
        ensures
            self@.dom().finite(),
    {
    }

    /// The keys of the map held by shard `i`.
    pub open spec fn shard_keys(&self, i: int) -> Set<Seq<u8>> {
        self@.dom().filter(|k: Seq<u8>| shard_of(k, self.mask()) == i)
    }

    /// The index of the shard that holds `key`.
    fn shard_idx(&self, key: &[u8]) -> (r: usize)
        requires
            self.wf(),
        ensures
            r == shard_of(key@, self.mask()),
            r < self.shard_total(),
    {
        let h = hash_bytes(key) as usize;
        proof {
            lemma_mask_bound(h, self.shard_mask);
        }
        h & self.shard_mask
    }

    /// The position of `key` in shard `i`, if it is there.
    fn find(&self, i: usize, key: &[u8]) -> (r: Option<usize>)
        requires
            self.wf(),
            i < self.shard_total(),
        ensures
            match r {
                Some(j) => j < self.shards@[i as int]@.len() && self.shards@[i as int]@[j as int].0@
                    == key@,
                None => !keys_of(self.shards@[i as int]@).contains(key@),
            },
    {
        let shard = &self.shards[i];
        let mut j: usize = 0;
        while j < shard.len()
            invariant
                j <= shard@.len(),
                shard == self.shards@[i as int],
                forall|m: int| 0 <= m < j ==> shard@[m].0@ != key@,
            decreases shard@.len() - j,
        {
            if bytes_eq(shard[j].0.as_slice(), key) {
                return Some(j);
            }
            j += 1;
        }
        proof {
            if keys_of(shard@).contains(key@) {
                let m = choose|m: int| 0 <= m < keys_of(shard@).len() && keys_of(shard@)[m] == key@;
                assert(shard@[m].0@ == key@);
            }
        }
        None
    }

    /// A map with [`DEFAULT_SHARD_COUNT`] shards.
    #[must_use]
    pub fn new() -> (m: Self)
        ensures
            m.wf(),
            m@ == Map::<Seq<u8>, V>::empty(),
            m.shard_total() == DEFAULT_SHARD_COUNT,
    {
        assert(256usize & 255usize == 0) by (bit_vector);
        Self::with_shard_count(DEFAULT_SHARD_COUNT)
    }

    /// A map with `shard_count` shards, which must be a power of two.
    #[must_use]
    pub fn with_shard_count(shard_count: usize) -> (m: Self)
        requires
            is_pow2(shard_count),
        ensures
            m.wf(),
            m@ == Map::<Seq<u8>, V>::empty(),
            m.shard_total() == shard_count,
    {
        Self::with_capacity(shard_count, 0)
    }

    /// A map with `shard_count` shards, which must be a power of two, each
    /// with room for `capacity_per_shard` entries.
    #[must_use]
    pub fn with_capacity(shard_count: usize, capacity_per_shard: usize) -> (m: Self)
        requires
            is_pow2(shard_count),
        ensures
            m.wf(),
            m@ == Map::<Seq<u8>, V>::empty(),
            m.shard_total() == shard_count,
    {
        let mut shards: Vec<Vec<(Vec<u8>, V)>> = Vec::new();
        let mut i: usize = 0;
        while i < shard_count
            invariant
                i <= shard_count,
                shards@.len() == i,
                forall|j: int| 0 <= j < i ==> (#[trigger] shards@[j])@.len() == 0,
            decreases shard_count - i,
        {
            shards.push(Vec::with_capacity(capacity_per_shard));
            i += 1;
        }
        let m = ConcurrentHashMap { shards, shard_mask: shard_count - 1, map: Ghost(Map::empty()) };
        proof {
            assert forall|j: int| 0 <= j < m.shards@.len() implies keys_of(
                #[trigger] m.shards@[j]@,
            ).no_duplicates() by {
                assert(keys_of(m.shards@[j]@).len() == 0);
            }
            assert forall|k: Seq<u8>| #[trigger] m.map@.contains_key(k) implies keys_of(
                m.shards@[shard_of(k, m.shard_mask)]@,
            ).contains(k) by {}
        }
        m
    }

    /// The value stored under `key`, cloned.
    pub fn get(&self, key: &[u8]) -> (r: Option<V>) where V: Clone
        requires
            self.wf(),
        ensures
            r.is_some() == self@.contains_key(key@),
            r.is_some() ==> cloned(self@[key@], r.unwrap()),
    {
        let i = self.shard_idx(key);
        proof {
            self.lemma_lookup(key@);
        }
        match self.find(i, key) {
            Some(j) => Some(self.shards[i][j].1.clone()),
            None => None,
        }
    }

    /// A reference to the value stored under `key`.
    pub fn get_ref(&self, key: &[u8]) -> (r: Option<&V>)
        requires
            self.wf(),
        ensures
            r.is_some() == self@.contains_key(key@),
            r.is_some() ==> *r.unwrap() == self@[key@],
    {
        let i = self.shard_idx(key);
        proof {
            self.lemma_lookup(key@);
        }
        match self.find(i, key) {
            Some(j) => Some(&self.shards[i][j].1),
            None => None,
        }
    }

    /// `f` applied to the value stored under `key`, without cloning it.
    pub fn get_with<R, F: FnOnce(&V) -> R>(&self, key: &[u8], f: F) -> (r: Option<R>)
        requires
            self.wf(),
            forall|v: &V| call_requires(f, (v,)),
        ensures
            r.is_some() == self@.contains_key(key@),
            r.is_some() ==> call_ensures(f, (&self@[key@],), r.unwrap()),
    {
        let i = self.shard_idx(key);
        proof {
            self.lemma_lookup(key@);
        }
        match self.find(i, key) {
            Some(j) => Some(f(&self.shards[i][j].1)),
            None => None,
        }
    }

    /// Whether a value is stored under `key`.
    pub fn contains_key(&self, key: &[u8]) -> (r: bool)
        requires
            self.wf(),
        ensures
            r == self@.contains_key(key@),
    {
        let i = self.shard_idx(key);
        proof {
            self.lemma_lookup(key@);
        }
        self.find(i, key).is_some()
    }

    /// Stores `value` under `key`; returns the value it replaces, if any.
    pub fn insert(&mut self, key: Vec<u8>, value: V) -> (r: Option<V>)
        requires
            old(self).wf(),
        ensures
            final(self).wf(),
            final(self).shard_total() == old(self).shard_total(),
            final(self).mask() == old(self).mask(),
            final(self)@ == old(self)@.insert(key@, value),
            final(self)@.len() == old(self)@.len() + if old(self)@.contains_key(key@) {
                0int
            } else {
                1int
            },
            r == if old(self)@.contains_key(key@) {
                Some(old(self)@[key@])
            } else {
                None::<V>
            },
    {
        let ghost k = key@;
        let ghost gv = value;
        let ghost m0 = self.map@;
        let ghost sh0 = self.shards@;
        let i = self.shard_idx(key.as_slice());
        proof {
            self.lemma_lookup(k);
        }
        match self.find(i, key.as_slice()) {
            Some(j) => {
                let mut v = value;
                std::mem::swap(&mut self.shards[i][j].1, &mut v);
                self.map = Ghost(m0.insert(k, gv));
                proof {
                    assert(keys_of(self.shards@[ix(i)]@) =~= keys_of(sh0[ix(i)]@));
                    assert forall|a: int, b: int|
                        0 <= a < self.shards@.len() && 0 <= b < self.shards@[a]@.len() implies self.map@.contains_key(
                        #[trigger] self.shards@[a]@[b].0@,
                    ) && self.map@[self.shards@[a]@[b].0@] == self.shards@[a]@[b].1 by {
                        if a == ix(i) && b == ix(j) {
                        } else if self.shards@[a]@[b].0@ == k {
                            assert(a == ix(i));
                            assert(keys_of(sh0[a]@)[b] == keys_of(sh0[a]@)[ix(j)]);
                        }
                    }
                    assert(self.map@.dom() =~= m0.dom());
                    assert forall|a: int, b: int|
                        0 <= a < self.shards@.len() && 0 <= b < self.shards@[a]@.len() implies shard_of(
                        #[trigger] self.shards@[a]@[b].0@,
                        self.shard_mask,
                    ) == a by {
                        assert(self.shards@[a]@[b].0 == sh0[a]@[b].0);
                    }
                    assert forall|a: int| 0 <= a < self.shards@.len() implies keys_of(
                        #[trigger] self.shards@[a]@,
                    ).no_duplicates() by {
                        assert(keys_of(self.shards@[a]@) =~= keys_of(sh0[a]@));
                    }
                    assert forall|k2: Seq<u8>| #[trigger] self.map@.contains_key(k2) implies keys_of(
                        self.shards@[shard_of(k2, self.shard_mask)]@,
                    ).contains(k2) by {
                        lemma_shard_range(k2, self.shard_mask);
                        let c = shard_of(k2, self.shard_mask);
                        assert(keys_of(self.shards@[c]@) =~= keys_of(sh0[c]@));
                    }
                }
                Some(v)
            },
            None => {
                self.shards[i].push((key, value));
                self.map = Ghost(m0.insert(k, gv));
                proof {
                    assert(keys_of(self.shards@[ix(i)]@) =~= keys_of(sh0[ix(i)]@).push(k));
                    assert forall|a: int, b: int|
                        0 <= a < self.shards@.len() && 0 <= b < self.shards@[a]@.len() implies shard_of(
                        #[trigger] self.shards@[a]@[b].0@,
                        self.shard_mask,
                    ) == a by {
                        if a != ix(i) || b < sh0[a]@.len() {
                            assert(self.shards@[a]@[b] == sh0[a]@[b]);
                        }
                    }
                    assert forall|a: int| 0 <= a < self.shards@.len() implies keys_of(
                        #[trigger] self.shards@[a]@,
                    ).no_duplicates() by {
                        if a != ix(i) {
                            assert(self.shards@[a] == sh0[a]);
                        }
                    }
                    assert forall|a: int, b: int|
                        0 <= a < self.shards@.len() && 0 <= b < self.shards@[a]@.len() implies self.map@.contains_key(
                        #[trigger] self.shards@[a]@[b].0@,
                    ) && self.map@[self.shards@[a]@[b].0@] == self.shards@[a]@[b].1 by {
                        if a != ix(i) || b < sh0[a]@.len() {
                            assert(self.shards@[a]@[b] == sh0[a]@[b]);
                            if sh0[a]@[b].0@ == k {
                                assert(a == ix(i));
                                assert(keys_of(sh0[a]@)[b] == k);
                            }
                        }
                    }
                    assert forall|k2: Seq<u8>| #[trigger] self.map@.contains_key(k2) implies keys_of(
                        self.shards@[shard_of(k2, self.shard_mask)]@,
                    ).contains(k2) by {
                        if k2 == k {
                            let n = len_of(keys_of(sh0[ix(i)]@));
                            assert(keys_of(self.shards@[ix(i)]@)[n] == k);
                        } else {
                            lemma_shard_range(k2, self.shard_mask);
                            let c = shard_of(k2, self.shard_mask);
                            assert(keys_of(sh0[c]@).contains(k2));
                            if c == ix(i) {
                                let w = choose|w: int| 0 <= w < keys_of(sh0[c]@).len() && keys_of(sh0[c]@)[w] == k2;
                                assert(keys_of(self.shards@[c]@)[w] == k2);
                            }
                        }
                    }
                }
                None
            },
        }
    }

    /// Removes the value stored under `key` and returns it, if any.
    pub fn remove(&mut self, key: &[u8]) -> (r: Option<V>)
        requires
            old(self).wf(),
        ensures
            final(self).wf(),
            final(self).shard_total() == old(self).shard_total(),
            final(self).mask() == old(self).mask(),
            final(self)@ == old(self)@.remove(key@),
            final(self)@.len() == old(self)@.len() - if old(self)@.contains_key(key@) {
                1int
            } else {
                0int
            },
            r == if old(self)@.contains_key(key@) {
                Some(old(self)@[key@])
            } else {
                None::<V>
            },
    {
        let i = self.shard_idx(key);
        proof {
            self.lemma_lookup(key@);
        }
        match self.find(i, key) {
            Some(j) => {
                let e = self.remove_at(i, j);
                Some(e.1)
            },
            None => {
                proof {
                    assert(self.map@ =~= old(self).map@.remove(key@));
                }
                None
            },
        }
    }

    /// Removes entry `j` of shard `i` and returns it.
    fn remove_at(&mut self, i: usize, j: usize) -> (e: (Vec<u8>, V))
        requires
            old(self).wf(),
            i < old(self).shards@.len(),
            j < old(self).shards@[i as int]@.len(),
        ensures
            final(self).wf(),
            final(self).shard_total() == old(self).shard_total(),
            final(self).mask() == old(self).mask(),
            e == old(self).shards@[i as int]@[j as int],
            old(self)@.contains_key(e.0@),
            old(self)@[e.0@] == e.1,
            final(self)@ == old(self)@.remove(e.0@),
            final(self).shards@[i as int]@ == old(self).shards@[i as int]@.remove(j as int),
            forall|a: int| 0 <= a < final(self).shards@.len() && a != i ==> final(self).shards@[a] == old(self).shards@[a],
    {
        let ghost m0 = self.map@;
        let ghost sh0 = self.shards@;
        let ghost k = sh0[i as int]@[j as int].0@;
        let e = self.shards[i].remove(j);
        self.map = Ghost(m0.remove(k));
        proof {
            let o = sh0[i as int]@;
            assert(keys_of(o)[j as int] == k);
            assert(keys_of(self.shards@[i as int]@) =~= keys_of(o).remove(j as int));
            assert forall|a: int, b: int|
                0 <= a < self.shards@.len() && 0 <= b < self.shards@[a]@.len() implies self.map@.contains_key(
                #[trigger] self.shards@[a]@[b].0@,
            ) && self.map@[self.shards@[a]@[b].0@] == self.shards@[a]@[b].1 by {
                if a == i as int {
                    let b0 = if b < j { b } else { b + 1 };
                    assert(self.shards@[a]@[b] == o[b0]);
                    assert(keys_of(o)[b0] != keys_of(o)[j as int]);
                }
            }
            assert forall|k2: Seq<u8>| #[trigger] self.map@.contains_key(k2) implies keys_of(
                self.shards@[shard_of(k2, self.shard_mask)]@,
            ).contains(k2) by {
                lemma_shard_range(k2, self.shard_mask);
                let c = shard_of(k2, self.shard_mask);
                assert(keys_of(sh0[c]@).contains(k2));
                if c == i as int {
                    let w = choose|w: int| 0 <= w < keys_of(o).len() && keys_of(o)[w] == k2;
                    assert(w != j);
                    let w2 = if w < j { w } else { w - 1 };
                    assert(keys_of(self.shards@[c]@)[w2] == k2);
                }
            }
        }
        e
    }

    /// Applies `f` to the value stored under `key`, in place; returns
    /// whether there was one.
    pub fn update<F: FnOnce(&mut V)>(&mut self, key: &[u8], f: F) -> (r: bool)
        requires
            old(self).wf(),
            forall|x: &mut V| call_requires(f, (x,)),
        ensures
            final(self).wf(),
            final(self).shard_total() == old(self).shard_total(),
            final(self).mask() == old(self).mask(),
            r == old(self)@.contains_key(key@),
            !r ==> final(self)@ == old(self)@,
            r ==> exists|x: &mut V|
                *x == old(self)@[key@] && call_ensures(f, (x,), ()) && final(self)@ == old(
                    self,
                )@.insert(key@, *final(x)),
    {
        let ghost k = key@;
        let ghost m0 = self.map@;
        let ghost sh0 = self.shards@;
        let i = self.shard_idx(key);
        proof {
            self.lemma_lookup(k);
        }
        match self.find(i, key) {
            Some(j) => {
                let x = &mut self.shards[i][j].1;
                let ghost x0 = x;
                f(x);
                let ghost nv = self.shards@[ix(i)]@[ix(j)].1;
                self.map = Ghost(m0.insert(k, nv));
                proof {
                    assert(keys_of(self.shards@[ix(i)]@) =~= keys_of(sh0[ix(i)]@));
                    assert forall|a: int, b: int|
                        0 <= a < self.shards@.len() && 0 <= b < self.shards@[a]@.len() implies self.map@.contains_key(
                        #[trigger] self.shards@[a]@[b].0@,
                    ) && self.map@[self.shards@[a]@[b].0@] == self.shards@[a]@[b].1 by {
                        if a == ix(i) && b == ix(j) {
                        } else if self.shards@[a]@[b].0@ == k {
                            assert(a == ix(i));
                            assert(keys_of(sh0[a]@)[b] == keys_of(sh0[a]@)[ix(j)]);
                        }
                    }
                    assert(self.map@.dom() =~= m0.dom());
                    assert(self.shards@.len() == sh0.len());
                    assert forall|a: int, b: int|
                        0 <= a < self.shards@.len() && 0 <= b < self.shards@[a]@.len() implies shard_of(
                        #[trigger] self.shards@[a]@[b].0@,
                        self.shard_mask,
                    ) == a by {
                        assert(self.shards@[a]@[b].0 == sh0[a]@[b].0);
                    }
                    assert forall|a: int| 0 <= a < self.shards@.len() implies keys_of(
                        #[trigger] self.shards@[a]@,
                    ).no_duplicates() by {
                        assert(keys_of(self.shards@[a]@) =~= keys_of(sh0[a]@));
                    }
                    assert forall|k2: Seq<u8>| #[trigger] self.map@.contains_key(k2) implies keys_of(
                        self.shards@[shard_of(k2, self.shard_mask)]@,
                    ).contains(k2) by {
                        lemma_shard_range(k2, self.shard_mask);
                        let c = shard_of(k2, self.shard_mask);
                        assert(keys_of(self.shards@[c]@) =~= keys_of(sh0[c]@));
                    }
                }
                true
            },
            None => false,
        }
    }

    /// The keys of shard `i` are exactly the keys its entries hold, one per entry.
    proof fn lemma_shard_keys(&self, i: int)
        requires
            self.wf(),
            0 <= i < self.shard_total(),
        ensures
            self.shard_keys(i) == keys_of(self.shards@[i]@).to_set(),
            self.shard_keys(i).finite(),
            self.shard_keys(i).len() == self.shards@[i]@.len(),
    {
        let ks = keys_of(self.shards@[i]@);
        assert forall|k: Seq<u8>| self.shard_keys(i).contains(k) <==> ks.to_set().contains(k) by {
            if ks.contains(k) {
                let j = choose|j: int| 0 <= j < ks.len() && ks[j] == k;
                assert(self.shards@[i]@[j].0@ == k);
            }
        }
        assert(self.shard_keys(i) =~= ks.to_set());
        ks.unique_seq_to_set();
    }

    /// The keys held by the first `n` shards number as many as their entries.
    proof fn lemma_count_upto(&self, n: int)
        requires
            self.wf(),
            0 <= n <= self.shard_total(),
        ensures
            self@.dom().filter(|k: Seq<u8>| shard_of(k, self.mask()) < n).finite(),
            self@.dom().filter(|k: Seq<u8>| shard_of(k, self.mask()) < n).len() == entries_upto(
                self.shards@,
                n,
            ),
        decreases n,
    {
        let f = self@.dom().filter(|k: Seq<u8>| shard_of(k, self.mask()) < n);
        if n == 0 {
            assert forall|k: Seq<u8>| !f.contains(k) by {
                lemma_shard_range(k, self.shard_mask);
            }
            assert(f =~= Set::empty());
        } else {
            self.lemma_count_upto(n - 1);
            self.lemma_shard_keys(n - 1);
            let g = self@.dom().filter(|k: Seq<u8>| shard_of(k, self.mask()) < n - 1);
            let h = self.shard_keys(n - 1);
            assert(f =~= g + h);
            assert(g.disjoint(h));
            vstd::set_lib::lemma_set_disjoint_lens(g, h);
        }
    }

    /// All keys of the map number as many as the entries of all shards.
    proof fn lemma_count(&self)
        requires
            self.wf(),
        ensures
            self@.len() == entries_upto(self.shards@, self.shard_total() as int),
    {
        self.lemma_count_upto(self.shard_total() as int);
        let f = self@.dom().filter(|k: Seq<u8>| shard_of(k, self.mask()) < self.shard_total());
        assert forall|k: Seq<u8>| f.contains(k) <==> self@.dom().contains(k) by {
            lemma_shard_range(k, self.shard_mask);
        }
        assert(f =~= self@.dom());
    }

    /// The number of entries, or `usize::MAX` if there are more.
    pub fn len(&self) -> (r: usize)
        requires
            self.wf(),
        ensures
            r == capped(self@.len()),
    {
        proof {
            self.lemma_count();
        }
        let mut total: usize = 0;
        let mut i: usize = 0;
        while i < self.shards.len()
            invariant
                i <= self.shards@.len(),
                total == capped(entries_upto(self.shards@, i as int)),
            decreases self.shards@.len() - i,
        {
            let n = self.shards[i].len();
            total = if total > usize::MAX - n {
                usize::MAX
            } else {
                total + n
            };
            i += 1;
        }
        total
    }

    /// Whether the map holds no entry.
    pub fn is_empty(&self) -> (r: bool)
        requires
            self.wf(),
        ensures
            r == (self@.len() == 0),
    {
        let mut i: usize = 0;
        while i < self.shards.len()
            invariant
                self.wf(),
                i <= self.shards@.len(),
                forall|a: int| 0 <= a < i ==> (#[trigger] self.shards@[a])@.len() == 0,
            decreases self.shards@.len() - i,
        {
            if !self.shards[i].is_empty() {
                proof {
                    let k = self.shards@[i as int]@[0].0@;
                    assert(self@.contains_key(k));
                    vstd::set_lib::lemma_set_empty_equivalency_len(self@.dom());
                }
                return false;
            }
            i += 1;
        }
        proof {
            assert forall|k: Seq<u8>| !self@.dom().contains(k) by {
                if self@.contains_key(k) {
                    self.lemma_lookup(k);
                    let c = shard_of(k, self.shard_mask);
                    assert(keys_of(self.shards@[c]@).len() == 0);
                }
            }
            assert(self@.dom() =~= Set::empty());
        }
        true
    }

    /// Removes every entry.
    pub fn clear(&mut self)
        requires
            old(self).wf(),
        ensures
            final(self).wf(),
            final(self)@ == Map::<Seq<u8>, V>::empty(),
            final(self).shard_total() == old(self).shard_total(),
            final(self).mask() == old(self).mask(),
    {
        let mut i: usize = 0;
        while i < self.shards.len()
            invariant
                i <= self.shards@.len(),
                self.shards@.len() == old(self).shards@.len(),
                self.shard_mask == old(self).shard_mask,
                forall|a: int| 0 <= a < i ==> (#[trigger] self.shards@[a])@.len() == 0,
            decreases self.shards@.len() - i,
        {
            self.shards[i].clear();
            i += 1;
        }
        self.map = Ghost(Map::empty());
        proof {
            assert forall|a: int| 0 <= a < self.shards@.len() implies keys_of(
                #[trigger] self.shards@[a]@,
            ).no_duplicates() by {
                assert(keys_of(self.shards@[a]@).len() == 0);
            }
        }
    }

    /// The number of shards.
    pub fn shard_count(&self) -> (r: usize)
        requires
            self.wf(),
        ensures
            r == self.shard_total(),
    {
        self.shards.len()
    }

    /// The number of entries in shard `i`.
    pub fn shard_len(&self, i: usize) -> (r: usize)
        requires
            self.wf(),
            i < self.shard_total(),
        ensures
            r == self.shard_keys(i as int).len(),
    {
        proof {
            self.lemma_shard_keys(i as int);
        }
        self.shards[i].len()
    }

    /// A copy of each key, each once, in no particular order.
    pub fn keys(&self) -> (r: Vec<Vec<u8>>)
        requires
            self.wf(),
        ensures
            key_views(r@).no_duplicates(),
            forall|k: Seq<u8>| key_views(r@).contains(k) <==> self@.contains_key(k),
            r@.len() == self@.len(),
    {
        let mut r: Vec<Vec<u8>> = Vec::new();
        let mut i: usize = 0;
        while i < self.shards.len()
            invariant
                self.wf(),
                i <= self.shards@.len(),
                key_views(r@).no_duplicates(),
                forall|k: Seq<u8>|
                    key_views(r@).contains(k) <==> (self@.contains_key(k) && shard_of(k, self.mask()) < i),
            decreases self.shards@.len() - i,
        {
            let shard = &self.shards[i];
            let mut j: usize = 0;
            while j < shard.len()
                invariant
                    self.wf(),
                    i < self.shards@.len(),
                    shard == self.shards@[i as int],
                    j <= shard@.len(),
                    key_views(r@).no_duplicates(),
                    forall|k: Seq<u8>|
                        key_views(r@).contains(k) <==> (self@.contains_key(k) && (shard_of(k, self.mask())
                            < i || (shard_of(k, self.mask()) == i && keys_of(shard@).subrange(0, j as int).contains(k)))),
                decreases shard@.len() - j,
            {
                let key = shard[j].0.clone();
                let ghost old_r = r@;
                proof {
                    assert(key@ =~= shard@[j as int].0@);
                }
                let ghost k = key@;
                proof {
                    assert(keys_of(shard@)[j as int] == k);
                    assert(self@.contains_key(k));
                    if key_views(old_r).contains(k) {
                        let w = choose|w: int| 0 <= w < j && keys_of(shard@).subrange(0, j as int)[w] == k;
                        assert(keys_of(shard@)[w] == keys_of(shard@)[j as int]);
                    }
                }
                r.push(key);
                proof {
                    assert(key_views(r@) =~= key_views(old_r).push(k));
                    assert(keys_of(shard@).subrange(0, j + 1) =~= keys_of(shard@).subrange(0, j as int).push(k));
                    assert forall|k2: Seq<u8>|
                        key_views(r@).contains(k2) <==> (self@.contains_key(k2) && (shard_of(k2, self.mask()) < i
                            || (shard_of(k2, self.mask()) == i && keys_of(shard@).subrange(0, j + 1).contains(k2)))) by {
                        if k2 == k {
                            assert(key_views(r@)[old_r.len() as int] == k);
                            assert(keys_of(shard@).subrange(0, j + 1)[j as int] == k);
                        } else {
                            if key_views(r@).contains(k2) {
                                let w = choose|w: int| 0 <= w < key_views(r@).len() && key_views(r@)[w] == k2;
                                assert(key_views(old_r)[w] == k2);
                            }
                            if keys_of(shard@).subrange(0, j + 1).contains(k2) {
                                let w = choose|w: int| 0 <= w < j + 1 && #[trigger] keys_of(shard@).subrange(0, j + 1)[w] == k2;
                                assert(keys_of(shard@).subrange(0, j as int)[w] == k2);
                            }
                            if key_views(old_r).contains(k2) {
                                let w = choose|w: int| 0 <= w < key_views(old_r).len() && key_views(old_r)[w] == k2;
                                assert(key_views(r@)[w] == k2);
                            }
                        }
                    }
                }
                j += 1;
            }
            proof {
                assert(keys_of(shard@).subrange(0, j as int) =~= keys_of(shard@));
                assert forall|k: Seq<u8>| self@.contains_key(k) && shard_of(k, self.mask()) == i implies keys_of(
                    shard@,
                ).contains(k) by {
                    self.lemma_lookup(k);
                }
            }
            i += 1;
        }
        proof {
            assert forall|k: Seq<u8>| key_views(r@).contains(k) <==> self@.contains_key(k) by {
                lemma_shard_range(k, self.shard_mask);
            }
            assert(key_views(r@).to_set() =~= self@.dom());
            key_views(r@).unique_seq_to_set();
        }
        r
    }

    /// Calls `f` on each entry, each once, in no particular order. Each call
    /// is made on the closure as the calls before it left it.
    pub fn for_each<F: FnMut(&Vec<u8>, &V)>(&self, f: F)
        requires
            self.wf(),
            forall|k: &Vec<u8>, v: &V, g: F| call_requires(g, (k, v)),
        ensures
            exists|ks: Seq<Vec<u8>>, fs: Seq<F>|
                #![trigger key_views(ks), fs.len()]
                {
                    &&& key_views(ks).no_duplicates()
                    &&& forall|k: Seq<u8>| key_views(ks).contains(k) <==> self@.contains_key(k)
                    &&& fs.len() == ks.len() + 1
                    &&& fs[0] == f
                    &&& forall|t: int|
                        0 <= t < ks.len() ==> call_ensures(fs[t], (&ks[t], &self@[(#[trigger] ks[t])@]), ())
                },
    {
        let ghost f0 = f;
        let mut f = f;
        let ghost mut r: Seq<Vec<u8>> = Seq::empty();
        let ghost mut fs: Seq<F> = seq![f0];
        let mut i: usize = 0;
        while i < self.shards.len()
            invariant
                self.wf(),
                i <= self.shards@.len(),
                key_views(r).no_duplicates(),
                forall|k: Seq<u8>|
                    key_views(r).contains(k) <==> (self@.contains_key(k) && shard_of(k, self.mask()) < i),
                forall|k: &Vec<u8>, v: &V, g: F| call_requires(g, (k, v)),
                fs.len() == r.len() + 1,
                fs[0] == f0,
                fs.last() == f,
                forall|t: int| 0 <= t < r.len() ==> call_ensures(fs[t], (&r[t], &self@[(#[trigger] r[t])@]), ()),
            decreases self.shards@.len() - i,
        {
            let shard = &self.shards[i];
            let mut j: usize = 0;
            while j < shard.len()
                invariant
                    self.wf(),
                    i < self.shards@.len(),
                    shard == self.shards@[i as int],
                    j <= shard@.len(),
                    key_views(r).no_duplicates(),
                    forall|k: &Vec<u8>, v: &V, g: F| call_requires(g, (k, v)),
                    fs.len() == r.len() + 1,
                    fs[0] == f0,
                    fs.last() == f,
                    forall|t: int| 0 <= t < r.len() ==> call_ensures(fs[t], (&r[t], &self@[(#[trigger] r[t])@]), ()),
                    forall|k: Seq<u8>|
                        key_views(r).contains(k) <==> (self@.contains_key(k) && (shard_of(k, self.mask())
                            < i || (shard_of(k, self.mask()) == i && keys_of(shard@).subrange(0, j as int).contains(k)))),
                decreases shard@.len() - j,
            {
                let ghost key = shard@[j as int].0;
                let ghost old_r = r;
                let ghost k = key@;
                proof {
                    assert(keys_of(shard@)[j as int] == k);
                    assert(self@.contains_key(k));
                    if key_views(old_r).contains(k) {
                        let w = choose|w: int| 0 <= w < j && keys_of(shard@).subrange(0, j as int)[w] == k;
                        assert(keys_of(shard@)[w] == keys_of(shard@)[j as int]);
                    }
                }
                let ghost g = f;
                f(&shard[j].0, &shard[j].1);
                proof {
                    assert(call_ensures(g, (&key, &shard@[j as int].1), ()));
                    assert(self@[k] == shard@[j as int].1);
                    r = r.push(key);
                    fs = fs.push(f);
                    assert(fs[old_r.len() as int] == g);
                    assert(key_views(r) =~= key_views(old_r).push(k));
                    assert(keys_of(shard@).subrange(0, j + 1) =~= keys_of(shard@).subrange(0, j as int).push(k));
                    assert forall|k2: Seq<u8>|
                        key_views(r).contains(k2) <==> (self@.contains_key(k2) && (shard_of(k2, self.mask()) < i
                            || (shard_of(k2, self.mask()) == i && keys_of(shard@).subrange(0, j + 1).contains(k2)))) by {
                        if k2 == k {
                            assert(key_views(r)[old_r.len() as int] == k);
                            assert(keys_of(shard@).subrange(0, j + 1)[j as int] == k);
                        } else {
                            if key_views(r).contains(k2) {
                                let w = choose|w: int| 0 <= w < key_views(r).len() && key_views(r)[w] == k2;
                                assert(key_views(old_r)[w] == k2);
                            }
                            if keys_of(shard@).subrange(0, j + 1).contains(k2) {
                                let w = choose|w: int| 0 <= w < j + 1 && #[trigger] keys_of(shard@).subrange(0, j + 1)[w] == k2;
                                assert(keys_of(shard@).subrange(0, j as int)[w] == k2);
                            }
                            if key_views(old_r).contains(k2) {
                                let w = choose|w: int| 0 <= w < key_views(old_r).len() && key_views(old_r)[w] == k2;
                                assert(key_views(r)[w] == k2);
                            }
                        }
                    }
                }
                j += 1;
            }
            proof {
                assert(keys_of(shard@).subrange(0, j as int) =~= keys_of(shard@));
                assert forall|k: Seq<u8>| self@.contains_key(k) && shard_of(k, self.mask()) == i implies keys_of(
                    shard@,
                ).contains(k) by {
                    self.lemma_lookup(k);
                }
            }
            i += 1;
        }
        proof {
            assert forall|k: Seq<u8>| key_views(r).contains(k) <==> self@.contains_key(k) by {
                lemma_shard_range(k, self.shard_mask);
            }
            assert(fs[0] == f0);
        }
    }

    /// Keeps only the entries on which `predicate` returns `true`, calling it
    /// on each entry once, in no particular order. Each call is made on the
    /// closure as the calls before it left it.
    pub fn retain<F: FnMut(&Vec<u8>, &V) -> bool>(&mut self, predicate: F)
        requires
            old(self).wf(),
            forall|k: &Vec<u8>, v: &V, g: F| call_requires(g, (k, v)),
        ensures
            final(self).wf(),
            final(self).shard_total() == old(self).shard_total(),
            final(self).mask() == old(self).mask(),
            forall|k: Seq<u8>| #[trigger]
                final(self)@.contains_key(k) ==> old(self)@.contains_key(k) && final(self)@[k] == old(
                    self,
                )@[k],
            exists|ks: Seq<Vec<u8>>, fs: Seq<F>, rs: Seq<bool>|
                #![trigger key_views(ks), fs.len(), rs.len()]
                {
                    &&& key_views(ks).no_duplicates()
                    &&& forall|k: Seq<u8>| key_views(ks).contains(k) <==> old(self)@.contains_key(k)
                    &&& fs.len() == ks.len() + 1
                    &&& rs.len() == ks.len()
                    &&& fs[0] == predicate
                    &&& forall|t: int|
                        0 <= t < ks.len() ==> call_ensures(
                            fs[t],
                            (&ks[t], &old(self)@[(#[trigger] ks[t])@]),
                            rs[t],
                        ) && final(self)@.contains_key(ks[t]@) == rs[t]
                },
    {
        let ghost m0 = self.map@;
        let ghost sh0 = self.shards@;
        let ghost mask = self.shard_mask;
        let ghost p0 = predicate;
        let mut predicate = predicate;
        let ghost mut r: Seq<Vec<u8>> = Seq::empty();
        let ghost mut fs: Seq<F> = seq![p0];
        let ghost mut rs: Seq<bool> = Seq::empty();
        let mut i: usize = 0;
        while i < self.shards.len()
            invariant
                self.wf(),
                self.shards@.len() == sh0.len(),
                self.shard_mask == mask,
                mask == old(self).shard_mask,
                m0 == old(self)@,
                sh0 == old(self).shards@,
                old(self).wf(),
                i <= sh0.len(),
                forall|a: int| i <= a < sh0.len() ==> self.shards@[a] == sh0[a],
                forall|k: Seq<u8>| #[trigger]
                    self@.contains_key(k) ==> m0.contains_key(k) && self@[k] == m0[k],
                forall|k: Seq<u8>|
                    m0.contains_key(k) && shard_of(k, mask) >= i ==> #[trigger] self@.contains_key(k),
                forall|k: &Vec<u8>, v: &V, g: F| call_requires(g, (k, v)),
                key_views(r).no_duplicates(),
                forall|k: Seq<u8>|
                    key_views(r).contains(k) <==> (m0.contains_key(k) && shard_of(k, mask) < i),
                fs.len() == r.len() + 1,
                rs.len() == r.len(),
                fs[0] == p0,
                fs.last() == predicate,
                forall|t: int|
                    0 <= t < r.len() ==> call_ensures(fs[t], (&r[t], &m0[(#[trigger] r[t])@]), rs[t])
                        && self@.contains_key(r[t]@) == rs[t],
            decreases sh0.len() - i,
        {
            let ghost orig = self.shards@[i as int]@;
            let ghost n = orig.len() as int;
            let mut j: usize = 0;
            while j < self.shards[i].len()
                invariant
                    self.wf(),
                    self.shards@.len() == sh0.len(),
                    self.shard_mask == mask,
                    m0 == old(self)@,
                    sh0 == old(self).shards@,
                    old(self).wf(),
                    i < sh0.len(),
                    orig == sh0[i as int]@,
                    n == orig.len(),
                    forall|a: int| i < a < sh0.len() ==> self.shards@[a] == sh0[a],
                    j <= self.shards@[i as int]@.len(),
                    self.shards@[i as int]@.len() - j <= n,
                    self.shards@[i as int]@.subrange(j as int, self.shards@[i as int]@.len() as int)
                        == orig.subrange(n - (self.shards@[i as int]@.len() - j), n),
                    forall|k: Seq<u8>| #[trigger]
                        self@.contains_key(k) ==> m0.contains_key(k) && self@[k] == m0[k],
                    forall|k: Seq<u8>|
                        m0.contains_key(k) && (shard_of(k, mask) > i || (shard_of(k, mask) == i
                            && keys_of(orig.subrange(n - (self.shards@[i as int]@.len() - j), n)).contains(k)))
                            ==> #[trigger] self@.contains_key(k),
                    forall|k: &Vec<u8>, v: &V, g: F| call_requires(g, (k, v)),
                    key_views(r).no_duplicates(),
                    forall|k: Seq<u8>|
                        key_views(r).contains(k) <==> (m0.contains_key(k) && (shard_of(k, mask) < i || (
                        shard_of(k, mask) == i && keys_of(
                            orig.subrange(0, n - (self.shards@[i as int]@.len() - j)),
                        ).contains(k)))),
                    fs.len() == r.len() + 1,
                    rs.len() == r.len(),
                    fs[0] == p0,
                    fs.last() == predicate,
                    forall|t: int|
                        0 <= t < r.len() ==> call_ensures(fs[t], (&r[t], &m0[(#[trigger] r[t])@]), rs[t])
                            && self@.contains_key(r[t]@) == rs[t],
                decreases self.shards@[i as int]@.len() - j,
            {
                let ghost cur = self.shards@[i as int]@;
                let ghost u = cur.len() - j;
                let ghost t0 = n - u;
                let ghost e = cur[j as int];
                let ghost k = e.0@;
                let ghost old_r = r;
                let ghost old_map = self.map@;
                proof {
                    assert(cur.subrange(j as int, cur.len() as int)[0] == orig.subrange(t0, n)[0]);
                    assert(e == orig[t0]);
                    assert(sh0[i as int]@[t0] == e);
                    assert(m0.contains_key(k) && m0[k] == e.1);
                    assert(keys_of(orig)[t0] == k);
                    assert(shard_of(k, mask) == i);
                    if key_views(old_r).contains(k) {
                        assert(keys_of(orig.subrange(0, t0)).contains(k));
                        let w = choose|w: int| 0 <= w < t0 && #[trigger] keys_of(orig.subrange(0, t0))[w] == k;
                        assert(keys_of(orig)[w] == keys_of(orig)[t0]);
                    }
                    assert(keys_of(orig.subrange(t0, n))[0] == k);
                    assert(self@.contains_key(k));
                }
                let ghost g = predicate;
                let keep = predicate(&self.shards[i][j].0, &self.shards[i][j].1);
                proof {
                    assert(call_ensures(g, (&e.0, &m0[k]), keep));
                    r = r.push(e.0);
                    fs = fs.push(predicate);
                    rs = rs.push(keep);
                    assert(key_views(r) =~= key_views(old_r).push(k));
                    assert(fs[old_r.len() as int] == g);
                    assert(orig.subrange(0, t0 + 1) =~= orig.subrange(0, t0).push(e));
                    assert(keys_of(orig.subrange(0, t0 + 1)) =~= keys_of(orig.subrange(0, t0)).push(k));
                }
                if keep {
                    j += 1;
                    proof {
                        assert forall|w: int| 0 <= w < n - t0 - 1 implies #[trigger] cur.subrange(j as int, cur.len() as int)[w] == orig.subrange(t0 + 1, n)[w] by {
                            assert(cur.subrange(j - 1, cur.len() as int)[w + 1] == orig.subrange(t0, n)[w + 1]);
                        }
                        assert(self.shards@[i as int]@ == cur);
                        assert(cur.subrange(j as int, cur.len() as int) =~= orig.subrange(t0 + 1, n));
                    }
                } else {
                    self.remove_at(i, j);
                    proof {
                        assert forall|w: int| 0 <= w < n - t0 - 1 implies #[trigger] cur.remove(j as int).subrange(j as int, cur.len() - 1)[w] == orig.subrange(t0 + 1, n)[w] by {
                            assert(cur.subrange(j as int, cur.len() as int)[w + 1] == orig.subrange(t0, n)[w + 1]);
                        }
                        assert(self.shards@[i as int]@ == cur.remove(j as int));
                        assert(cur.remove(j as int).subrange(j as int, cur.len() - 1) =~= orig.subrange(t0 + 1, n));
                    }
                }
                proof {
                    let len2 = self.shards@[i as int]@.len() as int;
                    assert(n - (len2 - j) == t0 + 1);
                    assert forall|k2: Seq<u8>|
                        m0.contains_key(k2) && (shard_of(k2, mask) > i || (shard_of(k2, mask) == i
                            && keys_of(orig.subrange(t0 + 1, n)).contains(k2)))
                            implies #[trigger] self@.contains_key(k2) by {
                        if shard_of(k2, mask) == i && keys_of(orig.subrange(t0 + 1, n)).contains(k2) {
                            let w = choose|w: int| 0 <= w < n - t0 - 1 && #[trigger] keys_of(orig.subrange(t0 + 1, n))[w] == k2;
                            assert(keys_of(orig.subrange(t0, n))[w + 1] == k2);
                            assert(keys_of(orig)[t0 + 1 + w] == k2);
                            assert(k2 != k);
                            assert(old_map.contains_key(k2));
                        }
                    }
                    let ka = keys_of(orig.subrange(0, t0));
                    let kb = keys_of(orig.subrange(0, t0 + 1));
                    assert forall|k2: Seq<u8>|
                        key_views(r).contains(k2) <==> (m0.contains_key(k2) && (shard_of(k2, mask) < i || (
                        shard_of(k2, mask) == i && kb.contains(k2)))) by {
                        if k2 == k {
                            assert(key_views(r)[old_r.len() as int] == k);
                            assert(kb[t0] == k);
                        } else {
                            if key_views(r).contains(k2) {
                                let w = choose|w: int| 0 <= w < key_views(r).len() && key_views(r)[w] == k2;
                                assert(key_views(old_r)[w] == k2);
                                assert(key_views(old_r).contains(k2));
                                if shard_of(k2, mask) == i {
                                    assert(ka.contains(k2));
                                    let w2 = choose|w2: int| 0 <= w2 < ka.len() && ka[w2] == k2;
                                    assert(kb[w2] == k2);
                                }
                            }
                            if m0.contains_key(k2) && (shard_of(k2, mask) < i || (shard_of(k2, mask) == i
                                && kb.contains(k2))) {
                                if shard_of(k2, mask) == i {
                                    let w = choose|w: int| 0 <= w < kb.len() && kb[w] == k2;
                                    assert(w != t0);
                                    assert(ka[w] == k2);
                                }
                                assert(key_views(old_r).contains(k2));
                                let w = choose|w: int| 0 <= w < key_views(old_r).len() && key_views(old_r)[w] == k2;
                                assert(key_views(r)[w] == k2);
                            }
                        }
                    }
                    assert forall|t: int|
                        0 <= t < r.len() implies call_ensures(fs[t], (&r[t], &m0[(#[trigger] r[t])@]), rs[t])
                            && self@.contains_key(r[t]@) == rs[t] by {
                        if t < old_r.len() {
                            assert(r[t] == old_r[t]);
                            assert(key_views(old_r)[t] != k) by {
                                assert(!key_views(old_r).contains(k));
                            }
                        }
                    }
                }
            }
            proof {
                let len2 = self.shards@[i as int]@.len() as int;
                assert(orig.subrange(0, n - (len2 - j)) =~= orig);
                assert(j == len2);
                assert(keys_of(orig.subrange(0, n - (len2 - j))) == keys_of(orig));
                assert forall|k2: Seq<u8>|
                    key_views(r).contains(k2) <==> (m0.contains_key(k2) && shard_of(k2, mask) < i + 1) by {
                    old(self).lemma_lookup(k2);
                    if shard_of(k2, mask) == i && keys_of(orig).contains(k2) {
                        let w = choose|w: int| 0 <= w < keys_of(orig).len() && keys_of(orig)[w] == k2;
                        assert(orig[w].0@ == k2);
                        assert(m0.contains_key(k2));
                    }
                }
            }
            i += 1;
        }
        proof {
            assert forall|k: Seq<u8>| key_views(r).contains(k) <==> old(self)@.contains_key(k) by {
                lemma_shard_range(k, mask);
            }
            assert(fs[0] == p0);
        }
    }

    /// Facts about the shard that holds `key`.
    proof fn lemma_lookup(&self, key: Seq<u8>)
        requires
            self.wf(),
        ensures
            0 <= shard_of(key, self.mask()) < self.shard_total(),
            self@.contains_key(key) <==> keys_of(self.shards@[shard_of(key, self.mask())]@).contains(key),
    {
        lemma_mask_bound(default_hash_of(key) as usize, self.shard_mask);
        let i = shard_of(key, self.shard_mask);
        if keys_of(self.shards@[i]@).contains(key) {
            let j = choose|j: int| 0 <= j < keys_of(self.shards@[i]@).len() && keys_of(self.shards@[i]@)[j] == key;
            assert(self.shards@[i]@[j].0@ == key);
        }
    }
}

impl<V> Default for ConcurrentHashMap<V> {
    fn default() -> (m: Self)
        ensures
            m.wf(),
            m@ == Map::<Seq<u8>, V>::empty(),
            m.shard_total() == DEFAULT_SHARD_COUNT,
    {
        Self::new()
    }
}

} // verus!
