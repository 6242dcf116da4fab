//! A flat-array min-heap of expiry times.

use vstd::multiset::Multiset;
use vstd::prelude::*;

verus! {

broadcast use vstd::seq_lib::group_to_multiset_ensures;

/// One entry of the heap: a key and the moment (in microseconds) it expires.
#[derive(Debug, Clone)]
pub struct HeapItem<K> {
    pub expiry_us: u64,
    pub key: K,
}

/// Min-heap ordered by `expiry_us`, stored as an implicit binary tree in a
/// vector: the parent of slot `i > 0` is slot `(i - 1) / 2`.
pub struct TtlHeap<K> {
    items: Vec<HeapItem<K>>,
}

/// `m` with one more copy of `x`.
#[verifier::inline]
pub open spec fn bag_add<A>(m: Multiset<A>, x: A) -> Multiset<A> {
    m.insert(x)
}

/// Index of the parent slot.
pub open spec fn parent_of(i: int) -> int {
    (i - 1) / 2
}

/// Every slot but the first expires no earlier than its parent.
pub open spec fn is_min_heap<K>(s: Seq<HeapItem<K>>) -> bool {
    forall|j: int| 0 < j < s.len() ==> s[parent_of(j)].expiry_us <= #[trigger] s[j].expiry_us
}

/// The heap order holds except between slot `k` and its parent; the parent of
/// `k` is still no later than the children of `k`.
pub open spec fn heap_except_up<K>(s: Seq<HeapItem<K>>, k: int) -> bool {
    &&& forall|j: int|
        0 < j < s.len() && j != k ==> s[parent_of(j)].expiry_us <= #[trigger] s[j].expiry_us
    &&& forall|j: int|
        0 < j < s.len() && parent_of(j) == k && k > 0 ==> s[parent_of(k)].expiry_us
            <= #[trigger] s[j].expiry_us
}

/// The heap order holds except between slot `k` and its children; the parent
/// of `k` is still no later than the children of `k`.
pub open spec fn heap_except_down<K>(s: Seq<HeapItem<K>>, k: int) -> bool {
    &&& forall|j: int|
        0 < j < s.len() && parent_of(j) != k ==> s[parent_of(j)].expiry_us
            <= #[trigger] s[j].expiry_us
    &&& forall|j: int|
        0 < j < s.len() && parent_of(j) == k && k > 0 ==> s[parent_of(k)].expiry_us
            <= #[trigger] s[j].expiry_us
}

/// `s` with the items at `i` and `j` exchanged.
pub open spec fn swapped<A>(s: Seq<A>, i: int, j: int) -> Seq<A> {
    s.update(i, s[j]).update(j, s[i])
}

/// `s` after moving the item in slot `i` up, swapping it with its parent
/// while it expires before the parent.
pub open spec fn sifted_up<K>(s: Seq<HeapItem<K>>, i: int) -> Seq<HeapItem<K>>
    decreases i,
{
    if 0 < i < s.len() && s[i].expiry_us < s[parent_of(i)].expiry_us {
        sifted_up(swapped(s, i, parent_of(i)), parent_of(i))
    } else {
        s
    }
}

/// Which of slot `i` and its children expires first, the earlier slot on ties.
pub open spec fn smallest_of<K>(s: Seq<HeapItem<K>>, i: int) -> int {
    let l = 2 * i + 1;
    let r = 2 * i + 2;
    let m = if l < s.len() && s[l].expiry_us < s[i].expiry_us {
        l
    } else {
        i
    };
    if r < s.len() && s[r].expiry_us < s[m].expiry_us {
        r
    } else {
        m
    }
}

/// `s` after moving the item in slot `i` down, swapping it with its
/// earliest-expiring child while that child expires before it.
pub open spec fn sifted_down<K>(s: Seq<HeapItem<K>>, i: int) -> Seq<HeapItem<K>>
    decreases s.len() - i,
{
    if 0 <= i < s.len() && smallest_of(s, i) != i {
        sifted_down(swapped(s, i, smallest_of(s, i)), smallest_of(s, i))
    } else {
        s
    }
}

/// The slots after the first item leaves: the last item moves to the front
/// and sinks.
pub open spec fn after_pop<K>(s: Seq<HeapItem<K>>) -> Seq<HeapItem<K>> {
    if s.len() <= 1 {
        Seq::empty()
    } else {
        sifted_down(swapped(s, 0, s.len() - 1).drop_last(), 0)
    }
}

/// The slots after the item in slot `i` gets expiry time `t`: it rises when
/// it now expires earlier, sinks when later.
pub open spec fn after_update<K>(s: Seq<HeapItem<K>>, i: int, t: u64) -> Seq<HeapItem<K>> {
    let u = s.update(i, HeapItem { expiry_us: t, key: s[i].key });
    if t < s[i].expiry_us {
        sifted_up(u, i)
    } else if t > s[i].expiry_us {
        sifted_down(u, i)
    } else {
        u
    }
}

/// The slots after the item in slot `i` leaves: the last item takes its place
/// and rises if it expires before its new parent, else sinks.
pub open spec fn after_remove<K>(s: Seq<HeapItem<K>>, i: int) -> Seq<HeapItem<K>> {
    let u = swapped(s, i, s.len() - 1).drop_last();
    if i < u.len() {
        if i > 0 && u[i].expiry_us < u[parent_of(i)].expiry_us {
            sifted_up(u, i)
        } else {
            sifted_down(u, i)
        }
    } else {
        u
    }
}

/// Sinking keeps the number of slots.
pub proof fn lemma_sifted_down_len<K>(s: Seq<HeapItem<K>>, i: int)
    ensures
        sifted_down(s, i).len() == s.len(),
    decreases s.len() - i,
{
    if 0 <= i < s.len() && smallest_of(s, i) != i {
        lemma_sifted_down_len(swapped(s, i, smallest_of(s, i)), smallest_of(s, i));
    }
}

/// The items popped, earliest first, while the first item expires before
/// `now`, and the slots left after them.
pub open spec fn drain_expired<K>(s: Seq<HeapItem<K>>, now: u64) -> (Seq<HeapItem<K>>, Seq<HeapItem<K>>)
    decreases s.len(),
{
    if s.len() > 0 && s[0].expiry_us < now {
        proof {
            if s.len() > 1 {
                lemma_sifted_down_len(swapped(s, 0, s.len() - 1).drop_last(), 0);
            }
        }
        let rest = drain_expired(after_pop(s), now);
        (seq![s[0]] + rest.0, rest.1)
    } else {
        (Seq::empty(), s)
    }
}

/// In a heap, the first slot expires no later than slot `i`.
pub proof fn lemma_root_is_min<K>(s: Seq<HeapItem<K>>, i: int)
    requires
        is_min_heap(s),
        0 <= i < s.len(),
    ensures
        s[0].expiry_us <= s[i].expiry_us,
    decreases i,
{
    if i > 0 {
        lemma_root_is_min(s, parent_of(i));
    }
}

/// In a heap, the first slot expires no later than any slot.
pub proof fn lemma_root_is_min_all<K>(s: Seq<HeapItem<K>>)
    requires
        is_min_heap(s),
    ensures
        forall|i: int| 0 <= i < s.len() ==> s[0].expiry_us <= #[trigger] s[i].expiry_us,
{
    assert forall|i: int| 0 <= i < s.len() implies s[0].expiry_us <= #[trigger] s[i].expiry_us by {
        lemma_root_is_min(s, i);
    }
}

/// Exchanging two slots keeps the items.
proof fn lemma_swap_multiset<A>(s: Seq<A>, i: int, j: int)
    requires
        0 <= i < s.len(),
        0 <= j < s.len(),
    ensures
        swapped(s, i, j).to_multiset() == s.to_multiset(),
{
    let t = s.update(i, s[j]);
    assert(t.to_multiset() == bag_add(s.to_multiset(), s[j]).remove(s[i]));
    assert(t[j] == if i == j { s[j] } else { s[j] });
    assert(swapped(s, i, j).to_multiset() == bag_add(t.to_multiset(), s[i]).remove(t[j]));
    assert(swapped(s, i, j).to_multiset() =~= s.to_multiset());
}

/// Every item of `t` lies in `s`, so a bound that holds on all of `s` holds on `t`.
proof fn lemma_lower_bound_carries<K>(s: Seq<HeapItem<K>>, t: Seq<HeapItem<K>>, bound: u64)
    requires
        forall|i: int| 0 <= i < s.len() ==> bound <= #[trigger] s[i].expiry_us,
        t.to_multiset().subset_of(s.to_multiset()),
    ensures
        forall|i: int| 0 <= i < t.len() ==> bound <= #[trigger] t[i].expiry_us,
{
    assert forall|i: int| 0 <= i < t.len() implies bound <= #[trigger] t[i].expiry_us by {
        assert(t.contains(t[i]));
        assert(t.to_multiset().count(t[i]) > 0);
        assert(s.to_multiset().count(t[i]) > 0);
        assert(s.contains(t[i]));
        let k = choose|k: int| 0 <= k < s.len() && s[k] == t[i];
        assert(bound <= s[k].expiry_us);
    }
}

/// Sinking only moves items between slots.
proof fn lemma_sifted_down_multiset<K>(s: Seq<HeapItem<K>>, i: int)
    ensures
        sifted_down(s, i).to_multiset() == s.to_multiset(),
    decreases s.len() - i,
{
    if 0 <= i < s.len() && smallest_of(s, i) != i {
        let m = smallest_of(s, i);
        lemma_swap_multiset(s, i, m);
        lemma_sifted_down_multiset(swapped(s, i, m), m);
    }
}

/// Items leave a heap in order of expiry: the item a pop takes expires no
/// later than the one the next pop takes.
pub proof fn lemma_pop_order<K>(s: Seq<HeapItem<K>>)
    requires
        is_min_heap(s),
        s.len() >= 2,
    ensures
        after_pop(s).len() == s.len() - 1,
        s[0].expiry_us <= after_pop(s)[0].expiry_us,
{
    lemma_root_is_min_all(s);
    let t = swapped(s, 0, s.len() - 1);
    lemma_swap_multiset(s, 0, s.len() - 1);
    let u = t.drop_last();
    lemma_sifted_down_multiset(u, 0);
    lemma_sifted_down_len(u, 0);
    assert(t == u.push(t.last()));
    assert(t.to_multiset() == bag_add(u.to_multiset(), t.last()));
    assert(u.to_multiset().subset_of(s.to_multiset()));
    lemma_lower_bound_carries(s, after_pop(s), s[0].expiry_us);
}

/// Exchanges two slots of a vector.
#[verifier::external_body]
fn vec_swap<T>(v: &mut Vec<T>, i: usize, j: usize)
    requires
        i < old(v)@.len(),
        j < old(v)@.len(),
    ensures
        final(v)@ == swapped(old(v)@, i as int, j as int),
{
    v.swap(i, j);
}

impl<K> TtlHeap<K> {
    /// The slots of the heap, in array order.
    pub closed spec fn view(&self) -> Seq<HeapItem<K>> {
        self.items@
    }

    /// The heap order holds.
    pub closed spec fn wf(&self) -> bool {
        is_min_heap(self.items@)
    }

    /// An empty heap.
    #[must_use]
    pub fn new() -> (h: Self)
        ensures
            h.wf(),
            h.view() == Seq::<HeapItem<K>>::empty(),
    {
        TtlHeap { items: Vec::new() }
    }

    /// The item in slot `i`.
    pub fn item_at(&self, i: usize) -> (r: &HeapItem<K>)
        requires
            i < self.view().len(),
        ensures
            *r == self.view()[i as int],
    {
        &self.items[i]
    }

    /// An empty heap with room for `capacity` items.
    #[must_use]
    pub fn with_capacity(capacity: usize) -> (h: Self)
        ensures
            h.wf(),
            h.view() == Seq::<HeapItem<K>>::empty(),
    {
        TtlHeap { items: Vec::with_capacity(capacity) }
    }

    /// The number of items.
    #[must_use]
    pub fn len(&self) -> (n: usize)
        ensures
            n == self.view().len(),
    {
        self.items.len()
    }

    /// Whether the heap holds no item.
    #[must_use]
    pub fn is_empty(&self) -> (b: bool)
        ensures
            b == (self.view().len() == 0),
    {
        self.items.len() == 0
    }

    /// The item that expires first, without removing it.
    #[must_use]
    pub fn peek(&self) -> (r: Option<&HeapItem<K>>)
        requires
            self.wf(),
        ensures
            self.view().len() == 0 ==> r.is_none(),
            self.view().len() > 0 ==> r == Some(&self.view()[0]),
            r matches Some(x) ==> forall|i: int|
                0 <= i < self.view().len() ==> x.expiry_us <= #[trigger] self.view()[i].expiry_us,
    {
        if self.items.len() == 0 {
            None
        } else {
            proof {
                lemma_root_is_min_all(self.items@);
            }
            Some(&self.items[0])
        }
    }

    /// Adds an item.
    pub fn push(&mut self, item: HeapItem<K>)
        requires
            old(self).wf(),
        ensures
            final(self).wf(),
            final(self).view().len() == old(self).view().len() + 1,
            final(self).view().to_multiset() == bag_add(old(self).view().to_multiset(), item),
            final(self).view() == sifted_up(old(self).view().push(item), old(self).view().len() as int),
    {
        let ghost s = self.items@;
        self.items.push(item);
        assert(self.items@ == s.push(item));
        self.sift_up(self.items.len() - 1);
    }

    /// Removes and returns the item that expires first.
    pub fn pop(&mut self) -> (r: Option<HeapItem<K>>)
        requires
            old(self).wf(),
        ensures
            final(self).wf(),
            old(self).view().len() == 0 ==> r.is_none() && final(self).view() == old(self).view(),
            old(self).view().len() > 0 ==> r == Some(old(self).view()[0]) && final(self).view().len() == old(self).view().len() - 1 && final(self).view().to_multiset()
                == old(self).view().to_multiset().remove(old(self).view()[0]),
            r matches Some(x) ==> forall|i: int|
                0 <= i < final(self).view().len() ==> x.expiry_us
                    <= #[trigger] final(self).view()[i].expiry_us,
            final(self).view() == after_pop(old(self).view()),
    {
        if self.items.len() == 0 {
            return None;
        }
        let ghost s = self.items@;
        proof {
            lemma_root_is_min_all(s);
        }
        let len = self.items.len();
        proof {
            lemma_swap_multiset(s, 0, len - 1);
        }
        vec_swap(&mut self.items, 0, len - 1);
        let ghost t = self.items@;
        let item = self.items.pop();
        assert(t == self.items@.push(s[0]));
        assert(self.items@.to_multiset() == s.to_multiset().remove(s[0]));
        if self.items.len() > 0 {
            assert forall|j: int|
                0 < j < self.items@.len() && parent_of(j) != 0 implies self.items@[parent_of(
                    j,
                )].expiry_us <= #[trigger] self.items@[j].expiry_us by {
                assert(s[parent_of(j)].expiry_us <= s[j].expiry_us);
            }
            self.sift_down(0);
        }
        proof {
            lemma_lower_bound_carries(s, self.items@, s[0].expiry_us);
        }
        item
    }

    /// Sets the expiry time of the item in slot `idx` and restores the heap
    /// order; an index past the end changes nothing.
    pub fn update_by_index(&mut self, idx: usize, new_expiry_us: u64)
        requires
            old(self).wf(),
        ensures
            final(self).wf(),
            idx >= old(self).view().len() ==> final(self).view() == old(self).view(),
            idx < old(self).view().len() ==> final(self).view().len() == old(self).view().len()
                && final(self).view().to_multiset() == bag_add(
                old(self).view().to_multiset().remove(old(self).view()[idx as int]),
                HeapItem { expiry_us: new_expiry_us, key: old(self).view()[idx as int].key },
            ),
            idx < old(self).view().len() ==> final(self).view() == after_update(
                old(self).view(),
                idx as int,
                new_expiry_us,
            ),
    {
        if idx >= self.items.len() {
            return;
        }
        let ghost s = self.items@;
        let old_expiry = self.items[idx].expiry_us;
        self.items[idx].expiry_us = new_expiry_us;
        let ghost t = self.items@;
        assert(t == s.update(
            idx as int,
            HeapItem { expiry_us: new_expiry_us, key: s[idx as int].key },
        ));
        assert(t.to_multiset() =~= bag_add(
            s.to_multiset().remove(s[idx as int]),
            HeapItem { expiry_us: new_expiry_us, key: s[idx as int].key },
        ));
        if new_expiry_us < old_expiry {
            assert forall|j: int|
                0 < j < t.len() && parent_of(j) == idx && idx > 0 implies t[parent_of(
                    idx as int,
                )].expiry_us <= #[trigger] t[j].expiry_us by {
                assert(s[parent_of(idx as int)].expiry_us <= s[idx as int].expiry_us);
                assert(s[idx as int].expiry_us <= s[j].expiry_us);
            }
            self.sift_up(idx);
        } else if new_expiry_us > old_expiry {
            assert forall|j: int|
                0 < j < t.len() && parent_of(j) == idx && idx > 0 implies t[parent_of(
                    idx as int,
                )].expiry_us <= #[trigger] t[j].expiry_us by {
                assert(s[parent_of(idx as int)].expiry_us <= s[idx as int].expiry_us);
                assert(s[idx as int].expiry_us <= s[j].expiry_us);
            }
            self.sift_down(idx);
        }
    }

    /// Removes and returns the item in slot `idx` (the last item takes its
    /// place and the heap order is restored); `None` for an index past the end.
    #[verifier::rlimit(40)]
    #[verifier::spinoff_prover]
    pub fn remove_by_index(&mut self, idx: usize) -> (r: Option<HeapItem<K>>)
        requires
            old(self).wf(),
        ensures
            final(self).wf(),
            idx >= old(self).view().len() ==> r.is_none() && final(self).view() == old(self).view(),
            idx < old(self).view().len() ==> r == Some(old(self).view()[idx as int]) && final(self).view().len() == old(self).view().len() - 1 && final(self).view().to_multiset()
                == old(self).view().to_multiset().remove(old(self).view()[idx as int]),
            idx < old(self).view().len() ==> final(self).view() == after_remove(old(self).view(), idx as int),
    {
        if idx >= self.items.len() {
            return None;
        }
        let ghost s = self.items@;
        let len = self.items.len();
        proof {
            lemma_swap_multiset(s, idx as int, len - 1);
        }
        vec_swap(&mut self.items, idx, len - 1);
        let ghost t = self.items@;
        let item = self.items.pop();
        assert(t == self.items@.push(s[idx as int]));
        assert(self.items@.to_multiset() == s.to_multiset().remove(s[idx as int]));
        if idx < self.items.len() {
            let ghost u = self.items@;
            let parent_idx = if idx > 0 {
                (idx - 1) / 2
            } else {
                0
            };
            if idx > 0 && self.items[idx].expiry_us < self.items[parent_idx].expiry_us {
                assert forall|j: int|
                    0 < j < u.len() && parent_of(j) == idx && idx > 0 implies u[parent_of(
                        idx as int,
                    )].expiry_us <= #[trigger] u[j].expiry_us by {
                    assert(s[parent_of(idx as int)].expiry_us <= s[idx as int].expiry_us);
                    assert(s[idx as int].expiry_us <= s[j].expiry_us);
                }
                assert forall|j: int|
                    0 < j < u.len() && j != idx implies u[parent_of(j)].expiry_us
                        <= #[trigger] u[j].expiry_us by {
                    if parent_of(j) == idx {
                        assert(s[parent_of(idx as int)].expiry_us <= s[idx as int].expiry_us);
                        assert(s[idx as int].expiry_us <= s[j].expiry_us);
                    } else {
                        assert(s[parent_of(j)].expiry_us <= s[j].expiry_us);
                    }
                }
                self.sift_up(idx);
            } else {
                assert forall|j: int|
                    0 < j < u.len() && parent_of(j) == idx && idx > 0 implies u[parent_of(
                        idx as int,
                    )].expiry_us <= #[trigger] u[j].expiry_us by {
                    assert(s[parent_of(idx as int)].expiry_us <= s[idx as int].expiry_us);
                    assert(s[idx as int].expiry_us <= s[j].expiry_us);
                }
                assert forall|j: int|
                    0 < j < u.len() && parent_of(j) != idx implies u[parent_of(j)].expiry_us
                        <= #[trigger] u[j].expiry_us by {
                    if j == idx {
                    } else {
                        assert(s[parent_of(j)].expiry_us <= s[j].expiry_us);
                    }
                }
                self.sift_down(idx);
            }
        }
        item
    }

    /// Removes every item.
    pub fn clear(&mut self)
        ensures
            final(self).wf(),
            final(self).view() == Seq::<HeapItem<K>>::empty(),
    {
        self.items.clear();
    }

    /// Removes and returns, earliest first, every item that expires before `now_us`.
    pub fn get_expired(&mut self, now_us: u64) -> (expired: Vec<HeapItem<K>>)
        requires
            old(self).wf(),
        ensures
            final(self).wf(),
            forall|i: int| 0 <= i < expired@.len() ==> #[trigger] expired@[i].expiry_us < now_us,
            forall|i: int|
                0 <= i < final(self).view().len() ==> now_us
                    <= #[trigger] final(self).view()[i].expiry_us,
            forall|i: int, j: int|
                0 <= i < j < expired@.len() ==> expired@[i].expiry_us <= expired@[j].expiry_us,
            expired@.to_multiset().add(final(self).view().to_multiset())
                == old(self).view().to_multiset(),
            (expired@, final(self).view()) == drain_expired(old(self).view(), now_us),
    {
        let mut expired: Vec<HeapItem<K>> = Vec::new();
        loop
            invariant
                self.wf(),
                forall|i: int| 0 <= i < expired@.len() ==> #[trigger] expired@[i].expiry_us < now_us,
                forall|i: int, j: int|
                    0 <= i < j < expired@.len() ==> expired@[i].expiry_us <= expired@[j].expiry_us,
                forall|i: int, j: int|
                    0 <= i < expired@.len() && 0 <= j < self.items@.len() ==> #[trigger] expired@[i].expiry_us
                        <= #[trigger] self.items@[j].expiry_us,
                expired@.to_multiset().add(self.items@.to_multiset())
                    == old(self).items@.to_multiset(),
                drain_expired(old(self).items@, now_us) == (expired@ + drain_expired(self.items@, now_us).0, drain_expired(self.items@, now_us).1),
            ensures
                self.wf(),
                forall|i: int| 0 <= i < expired@.len() ==> #[trigger] expired@[i].expiry_us < now_us,
                forall|i: int, j: int|
                    0 <= i < j < expired@.len() ==> expired@[i].expiry_us <= expired@[j].expiry_us,
                forall|i: int|
                    0 <= i < self.items@.len() ==> now_us <= #[trigger] self.items@[i].expiry_us,
                expired@.to_multiset().add(self.items@.to_multiset())
                    == old(self).items@.to_multiset(),
                drain_expired(old(self).items@, now_us) == (expired@, self.items@),
            decreases self.items@.len(),
        {
            match self.peek() {
                None => {
                    assert(expired@ + Seq::<HeapItem<K>>::empty() =~= expired@);
                    break;
                },
                Some(item) => {
                    if item.expiry_us >= now_us {
                        assert(expired@ + Seq::<HeapItem<K>>::empty() =~= expired@);
                        break;
                    }
                },
            }
            let ghost e0 = expired@;
            let ghost s0 = self.items@;
            let item = self.pop().unwrap();
            expired.push(item);
            assert(expired@ == e0.push(item));
            assert(e0 + (seq![s0[0]] + drain_expired(self.items@, now_us).0) =~= expired@ + drain_expired(self.items@, now_us).0);
            assert(expired@.to_multiset().add(self.items@.to_multiset()) =~= e0.to_multiset().add(
                s0.to_multiset(),
            ));
            assert forall|i: int, j: int|
                0 <= i < expired@.len() && 0 <= j < self.items@.len() implies #[trigger] expired@[i].expiry_us
                    <= #[trigger] self.items@[j].expiry_us by {
                if i < e0.len() {
                    assert(e0[i].expiry_us <= s0[0].expiry_us);
                }
            }
        }
        expired
    }

    /// Moves the item at `idx` towards the root until its parent expires no later.
    fn sift_up(&mut self, idx: usize)
        requires
            idx < old(self).items@.len(),
            heap_except_up(old(self).items@, idx as int),
        ensures
            final(self).wf(),
            final(self).items@ == sifted_up(old(self).items@, idx as int),
            final(self).items@.to_multiset() == old(self).items@.to_multiset(),
            final(self).items@.len() == old(self).items@.len(),
    {
        let ghost target = sifted_up(self.items@, idx as int);
        let mut idx = idx;
        while idx > 0
            invariant
                idx < self.items@.len(),
                heap_except_up(self.items@, idx as int),
                sifted_up(self.items@, idx as int) == target,
                self.items@.to_multiset() == old(self).items@.to_multiset(),
                self.items@.len() == old(self).items@.len(),
            ensures
                is_min_heap(self.items@),
                self.items@ == target,
                self.items@.to_multiset() == old(self).items@.to_multiset(),
                self.items@.len() == old(self).items@.len(),
            decreases idx,
        {
            let parent_idx = (idx - 1) / 2;
            if self.items[idx].expiry_us >= self.items[parent_idx].expiry_us {
                break;
            }
            let ghost s = self.items@;
            proof {
                lemma_swap_multiset(s, idx as int, parent_idx as int);
            }
            vec_swap(&mut self.items, idx, parent_idx);
            let ghost t = self.items@;
            assert forall|j: int|
                0 < j < t.len() && j != parent_idx implies t[parent_of(j)].expiry_us
                    <= #[trigger] t[j].expiry_us by {
                if 0 < j < t.len() && j != parent_idx {
                    if j == idx {
                    } else if parent_of(j) == idx {
                        assert(s[parent_of(idx as int)].expiry_us <= s[j].expiry_us);
                    } else if parent_of(j) == parent_idx {
                        assert(s[parent_idx as int].expiry_us <= s[j].expiry_us);
                    } else {
                        assert(s[parent_of(j)].expiry_us <= s[j].expiry_us);
                    }
                }
            }
            assert forall|j: int|
                0 < j < t.len() && parent_of(j) == parent_idx && parent_idx > 0 implies t[parent_of(
                    parent_idx as int,
                )].expiry_us <= #[trigger] t[j].expiry_us by {
                if 0 < j < t.len() && parent_of(j) == parent_idx && parent_idx > 0 {
                    assert(s[parent_of(parent_idx as int)].expiry_us <= s[parent_idx as int].expiry_us);
                    if j != idx {
                        assert(s[parent_idx as int].expiry_us <= s[j].expiry_us);
                    }
                }
            }
            idx = parent_idx;
        }
    }

    /// Moves the item at `idx` towards the leaves until its children expire no earlier.
    fn sift_down(&mut self, idx: usize)
        requires
            idx < old(self).items@.len(),
            heap_except_down(old(self).items@, idx as int),
        ensures
            final(self).wf(),
            final(self).items@ == sifted_down(old(self).items@, idx as int),
            final(self).items@.to_multiset() == old(self).items@.to_multiset(),
            final(self).items@.len() == old(self).items@.len(),
    {
        let ghost target = sifted_down(self.items@, idx as int);
        let len = self.items.len();
        let mut idx = idx;
        loop
            invariant
                len == self.items@.len(),
                idx < len,
                heap_except_down(self.items@, idx as int),
                sifted_down(self.items@, idx as int) == target,
                self.items@.to_multiset() == old(self).items@.to_multiset(),
                self.items@.len() == old(self).items@.len(),
            ensures
                is_min_heap(self.items@),
                self.items@ == target,
                self.items@.to_multiset() == old(self).items@.to_multiset(),
                self.items@.len() == old(self).items@.len(),
            decreases len - idx,
        {
            let mut smallest = idx;
            if idx < len / 2 {
                let left = 2 * idx + 1;
                if self.items[left].expiry_us < self.items[smallest].expiry_us {
                    smallest = left;
                }
                if left + 1 < len && self.items[left + 1].expiry_us
                    < self.items[smallest].expiry_us {
                    smallest = left + 1;
                }
            }
            assert(smallest as int == smallest_of(self.items@, idx as int));
            if smallest == idx {
                let ghost s = self.items@;
                assert forall|j: int| 0 < j < s.len() implies s[parent_of(j)].expiry_us
                    <= #[trigger] s[j].expiry_us by {
                    if parent_of(j) == idx {
                        assert(j == 2 * idx + 1 || j == 2 * idx + 2);
                    }
                }
                break;
            }
            let ghost s = self.items@;
            proof {
                lemma_swap_multiset(s, idx as int, smallest as int);
            }
            vec_swap(&mut self.items, idx, smallest);
            let ghost t = self.items@;
            assert(parent_of(smallest as int) == idx);
            assert forall|j: int|
                0 < j < t.len() && parent_of(j) != smallest implies t[parent_of(j)].expiry_us
                    <= #[trigger] t[j].expiry_us by {
                if 0 < j < t.len() && parent_of(j) != smallest {
                    if j == smallest {
                    } else if parent_of(j) == idx {
                        assert(j == 2 * idx + 1 || j == 2 * idx + 2);
                    } else if j == idx {
                        assert(s[parent_of(idx as int)].expiry_us <= s[smallest as int].expiry_us);
                    } else {
                        assert(s[parent_of(j)].expiry_us <= s[j].expiry_us);
                    }
                }
            }
            assert forall|j: int|
                0 < j < t.len() && parent_of(j) == smallest && smallest > 0 implies t[parent_of(
                    smallest as int,
                )].expiry_us <= #[trigger] t[j].expiry_us by {
                if 0 < j < t.len() && parent_of(j) == smallest && smallest > 0 {
                    assert(s[smallest as int].expiry_us <= s[j].expiry_us);
                }
            }
            idx = smallest;
        }
    }
}

impl<K> Default for TtlHeap<K> {
    fn default() -> (h: Self)
        ensures
            h.wf(),
            h.view() == Seq::<HeapItem<K>>::empty(),
    {
        Self::new()
    }
}

} // verus!
