//! The database: entries under byte-string keys in a sharded map, expiry
//! times in a min-heap, and the replies of the string, expiry and sorted-set
//! commands. The current time is handed in by the caller, and scores come
//! as score keys.

use crate::concurrent_map::{capped, ConcurrentHashMap};
use crate::heap::{after_remove, after_update, after_pop, sifted_up, HeapItem, TtlHeap};
use crate::protocol::{double_bytes, error_bytes, int_bytes, nil_bytes, str_bytes, u32_le, ErrorCode, ResponseBuilder};
use crate::zset::{bits_of_key, entry_view, named, query_members, score_bits, ZSet, MAX_MEMBERS};
use vstd::prelude::*;
use vstd::string::StringSliceAdditionalSpecFns;

verus! {

/// What an entry holds.
#[derive(Debug, Clone, Copy, PartialEq, Eq, Structural)]
pub enum EntryType {
    String,
    ZSet,
}

/// A database entry.
pub struct Entry {
    pub entry_type: EntryType,
    pub string_value: Option<Vec<u8>>,
    pub zset_value: Option<ZSet>,
    /// Slot of the entry's expiry time in the heap, if it has one.
    pub ttl_heap_idx: Option<usize>,
}

impl Entry {
    /// An entry holding the string `value`, with no expiry time.
    #[must_use]
    pub fn new_string(value: Vec<u8>) -> (e: Self)
        ensures
            e.entry_type == EntryType::String,
            e.string_value == Some(value),
            e.zset_value.is_none(),
            e.ttl_heap_idx.is_none(),
    {
        Entry { entry_type: EntryType::String, string_value: Some(value), zset_value: None, ttl_heap_idx: None }
    }

    /// A sorted-set entry with no expiry time, its set left out.
    pub open spec fn new_zset_spec() -> Entry {
        Entry { entry_type: EntryType::ZSet, string_value: None, zset_value: None, ttl_heap_idx: None }
    }

    /// An entry holding the sorted set `zset`, with no expiry time.
    #[must_use]
    pub fn new_zset(zset: ZSet) -> (e: Self)
        ensures
            e.entry_type == EntryType::ZSet,
            e.string_value.is_none(),
            e.zset_value == Some(zset),
            e.ttl_heap_idx.is_none(),
    {
        Entry { entry_type: EntryType::ZSet, string_value: None, zset_value: Some(zset), ttl_heap_idx: None }
    }
}

/// The reply to a read of the entry stored under `key`, if any.
pub open spec fn get_reply(db: Map<Seq<u8>, Entry>, key: Seq<u8>) -> Seq<u8> {
    if !db.contains_key(key) {
        nil_bytes()
    } else {
        match db[key].entry_type {
            EntryType::String => match db[key].string_value {
                Some(v) => str_bytes(v@),
                None => nil_bytes(),
            },
            EntryType::ZSet => error_bytes(ErrorCode::TypeError, "expect string type".spec_bytes()),
        }
    }
}

/// The heap slots after the expiry time in slot `idx` is dropped, if there
/// is such a slot.
pub open spec fn without_ttl(heap: Seq<HeapItem<Vec<u8>>>, idx: Option<usize>) -> Seq<HeapItem<Vec<u8>>> {
    match idx {
        Some(i) => if i < heap.len() {
            after_remove(heap, i as int)
        } else {
            heap
        },
        None => heap,
    }
}

/// The moment `ttl_ms` milliseconds after `now_us`, in microseconds.
pub open spec fn expiry_time(now_us: u64, ttl_ms: i64) -> int {
    now_us + ttl_ms * 1000
}

/// `s` with `x` added.
#[verifier::inline]
pub open spec fn set_with<A>(s: Set<A>, x: A) -> Set<A> {
    s.insert(x)
}

/// An index as an integer.
pub open spec fn ix(i: usize) -> int {
    i as int
}

/// An integer as an index.
pub open spec fn usize_of(i: int) -> usize {
    i as usize
}

/// The length of a sequence as an integer.
pub open spec fn len_of<A>(s: Seq<A>) -> int {
    s.len() as int
}

/// [`expiry_time`] as the `u64` it fits in.
pub open spec fn expiry_u64(now_us: u64, ttl_ms: i64) -> u64 {
    expiry_time(now_us, ttl_ms) as u64
}

/// The items popped, earliest first, while fewer than `n` have been and the
/// first expires before `now`; and the slots left.
pub open spec fn expire_upto<K>(s: Seq<HeapItem<K>>, now: u64, n: nat) -> (Seq<HeapItem<K>>, Seq<HeapItem<K>>)
    decreases n,
{
    if n > 0 && s.len() > 0 && s[0].expiry_us < now {
        let rest = expire_upto(after_pop(s), now, (n - 1) as nat);
        (seq![s[0]] + rest.0, rest.1)
    } else {
        (Seq::empty(), s)
    }
}

/// The keys of some heap items.
pub open spec fn item_keys(items: Seq<HeapItem<Vec<u8>>>) -> Set<Seq<u8>> {
    Set::new(|k: Seq<u8>| exists|i: int| 0 <= i < items.len() && (#[trigger] items[i]).key@ == k)
}

/// Some heap item carries the key `k`.
pub open spec fn has_key(h: Seq<HeapItem<Vec<u8>>>, k: Seq<u8>) -> bool {
    exists|i: int| 0 <= i < h.len() && #[trigger] h[i].key@ == k
}

/// The expiry time of the heap item with key `k`, if there is one.
pub open spec fn key_expiry(h: Seq<HeapItem<Vec<u8>>>, k: Seq<u8>) -> Option<u64> {
    if has_key(h, k) {
        Some(h[choose|i: int| 0 <= i < h.len() && #[trigger] h[i].key@ == k].expiry_us)
    } else {
        None
    }
}

/// No two heap items carry the same key.
pub open spec fn unique_keys(h: Seq<HeapItem<Vec<u8>>>) -> bool {
    forall|i: int, j: int|
        #![trigger h[i], h[j]]
        0 <= i < h.len() && 0 <= j < h.len() && h[i].key@ == h[j].key@ ==> i == j
}

/// The entry of each heap item's key records the item's slot, and each slot
/// an entry records holds an item of the entry's own key.
pub open spec fn synced(db: Map<Seq<u8>, Entry>, h: Seq<HeapItem<Vec<u8>>>) -> bool {
    &&& h.len() <= usize::MAX
    &&& forall|i: int|
        0 <= i < h.len() ==> db.contains_key(#[trigger] h[i].key@) && db[h[i].key@].ttl_heap_idx
            == Some(i as usize)
    &&& forall|k: Seq<u8>|
        #[trigger] db.contains_key(k) && db[k].ttl_heap_idx is Some ==> db[k].ttl_heap_idx.unwrap()
            < h.len() && h[db[k].ttl_heap_idx.unwrap() as int].key@ == k
}

/// The expiry time of `k`, found through the slot its entry records.
pub open spec fn ttl_of(db: Map<Seq<u8>, Entry>, h: Seq<HeapItem<Vec<u8>>>, k: Seq<u8>) -> Option<u64> {
    if db.contains_key(k) && db[k].ttl_heap_idx is Some && db[k].ttl_heap_idx.unwrap() < h.len() {
        Some(h[db[k].ttl_heap_idx.unwrap() as int].expiry_us)
    } else {
        None
    }
}

/// The entries with the heap slots they record left out.
pub open spec fn contents(db: Map<Seq<u8>, Entry>) -> Map<Seq<u8>, Entry> {
    db.map_values(|e: Entry| Entry { ttl_heap_idx: None, ..e })
}

/// Ready to record each heap item's slot in its entry: no key twice in the
/// heap, the key of each item has an entry, and each entry that records a
/// slot has an item.
pub open spec fn resyncable(db: Map<Seq<u8>, Entry>, h: Seq<HeapItem<Vec<u8>>>) -> bool {
    &&& unique_keys(h)
    &&& forall|k: Seq<u8>| #[trigger] has_key(h, k) ==> db.contains_key(k)
    &&& forall|k: Seq<u8>|
        #[trigger] db.contains_key(k) && db[k].ttl_heap_idx is Some ==> has_key(h, k)
}

/// What a recorded heap gives: its keys are distinct, the expiry time found
/// through an entry is that of the item with its key, and a key has an item
/// exactly when its entry records a slot.
pub proof fn lemma_synced_facts(db: Map<Seq<u8>, Entry>, h: Seq<HeapItem<Vec<u8>>>)
    requires
        synced(db, h),
    ensures
        unique_keys(h),
        forall|k: Seq<u8>| #[trigger] ttl_of(db, h, k) == key_expiry(h, k),
        forall|k: Seq<u8>|
            #[trigger] has_key(h, k) <==> (db.contains_key(k) && db[k].ttl_heap_idx is Some),
{
    assert forall|i: int, j: int|
        #![trigger h[i], h[j]]
        0 <= i < h.len() && 0 <= j < h.len() && h[i].key@ == h[j].key@ implies i == j by {
        assert(db[h[i].key@].ttl_heap_idx == Some(i as usize));
        assert(db[h[j].key@].ttl_heap_idx == Some(j as usize));
    }
    assert forall|k: Seq<u8>| #[trigger] has_key(h, k) <==> (db.contains_key(k) && db[k].ttl_heap_idx is Some) by {
        if has_key(h, k) {
            let i = choose|i: int| 0 <= i < h.len() && #[trigger] h[i].key@ == k;
            assert(db.contains_key(h[i].key@));
        }
        if db.contains_key(k) && db[k].ttl_heap_idx is Some {
            let i = db[k].ttl_heap_idx.unwrap() as int;
            assert(h[i].key@ == k);
        }
    }
    assert forall|k: Seq<u8>| #[trigger] ttl_of(db, h, k) == key_expiry(h, k) by {
        if has_key(h, k) {
            let c = choose|i: int| 0 <= i < h.len() && #[trigger] h[i].key@ == k;
            assert(db.contains_key(h[c].key@));
            assert(db[k].ttl_heap_idx == Some(c as usize));
        }
    }
}

/// Two heaps with the same items: the keys of one are distinct when those of
/// the other are, and each key has the same expiry time in both.
pub proof fn lemma_same_items(s: Seq<HeapItem<Vec<u8>>>, s2: Seq<HeapItem<Vec<u8>>>)
    requires
        unique_keys(s),
        s2.to_multiset() == s.to_multiset(),
    ensures
        unique_keys(s2),
        forall|k: Seq<u8>| #[trigger] key_expiry(s2, k) == key_expiry(s, k),
        forall|k: Seq<u8>| #[trigger] has_key(s2, k) == has_key(s, k),
{
    broadcast use vstd::seq_lib::group_to_multiset_ensures;

    assert forall|i: int, j: int| 0 <= i < s.len() && 0 <= j < s.len() && i != j implies s[i] != s[j] by {
        if s[i] == s[j] {
            assert(s[i].key@ == s[j].key@);
        }
    }
    assert(s.no_duplicates());
    s.lemma_multiset_has_no_duplicates();
    s2.lemma_multiset_has_no_duplicates_conv();
    assert forall|x: HeapItem<Vec<u8>>| s2.contains(x) <==> s.contains(x) by {
        vstd::seq_lib::to_multiset_contains(s2, x);
        vstd::seq_lib::to_multiset_contains(s, x);
    }
    assert forall|i: int, j: int|
        #![trigger s2[i], s2[j]]
        0 <= i < s2.len() && 0 <= j < s2.len() && s2[i].key@ == s2[j].key@ implies i == j by {
        if i != j {
            assert(s2.contains(s2[i]));
            assert(s2.contains(s2[j]));
            let a = choose|a: int| 0 <= a < s.len() && s[a] == s2[i];
            let b = choose|b: int| 0 <= b < s.len() && s[b] == s2[j];
            assert(s[a].key@ == s[b].key@);
        }
    }
    assert forall|k: Seq<u8>| #[trigger] has_key(s2, k) == has_key(s, k) by {
        if has_key(s2, k) {
            let i = choose|i: int| 0 <= i < s2.len() && #[trigger] s2[i].key@ == k;
            assert(s2.contains(s2[i]));
            let a = choose|a: int| 0 <= a < s.len() && s[a] == s2[i];
            assert(s[a].key@ == k);
        }
        if has_key(s, k) {
            let i = choose|i: int| 0 <= i < s.len() && #[trigger] s[i].key@ == k;
            assert(s.contains(s[i]));
            let a = choose|a: int| 0 <= a < s2.len() && s2[a] == s[i];
            assert(s2[a].key@ == k);
        }
    }
    assert forall|k: Seq<u8>| #[trigger] key_expiry(s2, k) == key_expiry(s, k) by {
        if has_key(s2, k) {
            let c2 = choose|i: int| 0 <= i < s2.len() && #[trigger] s2[i].key@ == k;
            let c = choose|i: int| 0 <= i < s.len() && #[trigger] s[i].key@ == k;
            assert(s2.contains(s2[c2]));
            let a = choose|a: int| 0 <= a < s.len() && s[a] == s2[c2];
            assert(s[a].key@ == s[c].key@);
        }
    }
}

/// Taking the item in slot `i` out leaves the keys distinct and every other
/// key's expiry time as it was; its own key has none.
pub proof fn lemma_remove_keys(h: Seq<HeapItem<Vec<u8>>>, i: int)
    requires
        unique_keys(h),
        0 <= i < h.len(),
    ensures
        unique_keys(h.remove(i)),
        forall|k: Seq<u8>| #[trigger] key_expiry(h.remove(i), k) == if k == h[i].key@ {
            None
        } else {
            key_expiry(h, k)
        },
        forall|k: Seq<u8>| #[trigger] has_key(h.remove(i), k) == (k != h[i].key@ && has_key(h, k)),
{
    let r = h.remove(i);
    assert forall|a: int| 0 <= a < r.len() implies #[trigger] r[a] == h[if a < i { a } else { a + 1 }] by {}
    assert forall|a: int, b: int|
        #![trigger r[a], r[b]]
        0 <= a < r.len() && 0 <= b < r.len() && r[a].key@ == r[b].key@ implies a == b by {
        let x = if a < i { a } else { a + 1 };
        let y = if b < i { b } else { b + 1 };
        assert(h[x].key@ == h[y].key@);
    }
    assert forall|k: Seq<u8>| #[trigger] has_key(r, k) == (k != h[i].key@ && has_key(h, k)) by {
        if has_key(r, k) {
            let a = choose|a: int| 0 <= a < r.len() && #[trigger] r[a].key@ == k;
            let x = if a < i { a } else { a + 1 };
            assert(h[x].key@ == k);
            assert(h[x].key@ != h[i].key@);
        }
        if k != h[i].key@ && has_key(h, k) {
            let x = choose|x: int| 0 <= x < h.len() && #[trigger] h[x].key@ == k;
            let a = if x < i { x } else { x - 1 };
            assert(r[a].key@ == k);
        }
    }
    assert forall|k: Seq<u8>| #[trigger] key_expiry(r, k) == if k == h[i].key@ {
        None
    } else {
        key_expiry(h, k)
    } by {
        if has_key(r, k) {
            let a = choose|a: int| 0 <= a < r.len() && #[trigger] r[a].key@ == k;
            let c = choose|x: int| 0 <= x < h.len() && #[trigger] h[x].key@ == k;
            let x = if a < i { a } else { a + 1 };
            assert(h[x].key@ == h[c].key@);
        }
    }
}

/// Giving the item in slot `i` a new expiry time `t` keeps the keys distinct;
/// only its own key's expiry time changes, to `t`.
pub proof fn lemma_update_keys(h: Seq<HeapItem<Vec<u8>>>, i: int, t: u64)
    requires
        unique_keys(h),
        0 <= i < h.len(),
    ensures
        ({
            let u = h.update(i, HeapItem { expiry_us: t, key: h[i].key });
            &&& unique_keys(u)
            &&& forall|k: Seq<u8>| #[trigger] key_expiry(u, k) == if k == h[i].key@ {
                Some(t)
            } else {
                key_expiry(h, k)
            }
            &&& forall|k: Seq<u8>| #[trigger] has_key(u, k) == has_key(h, k)
        }),
{
    let u = h.update(i, HeapItem { expiry_us: t, key: h[i].key });
    assert forall|a: int| 0 <= a < u.len() implies (#[trigger] u[a]).key@ == h[a].key@ by {}
    assert forall|a: int, b: int|
        #![trigger u[a], u[b]]
        0 <= a < u.len() && 0 <= b < u.len() && u[a].key@ == u[b].key@ implies a == b by {
        assert(h[a].key@ == h[b].key@);
    }
    assert forall|k: Seq<u8>| #[trigger] has_key(u, k) == has_key(h, k) by {
        if has_key(u, k) {
            let a = choose|a: int| 0 <= a < u.len() && #[trigger] u[a].key@ == k;
            assert(h[a].key@ == k);
        }
        if has_key(h, k) {
            let a = choose|a: int| 0 <= a < h.len() && #[trigger] h[a].key@ == k;
            assert(u[a].key@ == k);
        }
    }
    assert forall|k: Seq<u8>| #[trigger] key_expiry(u, k) == if k == h[i].key@ {
        Some(t)
    } else {
        key_expiry(h, k)
    } by {
        if has_key(u, k) {
            let a = choose|a: int| 0 <= a < u.len() && #[trigger] u[a].key@ == k;
            let c = choose|x: int| 0 <= x < h.len() && #[trigger] h[x].key@ == k;
            assert(h[a].key@ == h[c].key@);
            assert(u[i].key@ == h[i].key@);
            if k == h[i].key@ {
                assert(h[a].key@ == h[i].key@);
            }
        } else {
            assert(u[i].key@ == h[i].key@);
        }
    }
}

/// Adding an item whose key no item carries keeps the keys distinct; only
/// the new key gets an expiry time, the item's.
pub proof fn lemma_push_keys(h: Seq<HeapItem<Vec<u8>>>, x: HeapItem<Vec<u8>>)
    requires
        unique_keys(h),
        !has_key(h, x.key@),
    ensures
        unique_keys(h.push(x)),
        forall|k: Seq<u8>| #[trigger] key_expiry(h.push(x), k) == if k == x.key@ {
            Some(x.expiry_us)
        } else {
            key_expiry(h, k)
        },
        forall|k: Seq<u8>| #[trigger] has_key(h.push(x), k) == (k == x.key@ || has_key(h, k)),
{
    let u = h.push(x);
    let n = h.len() as int;
    assert forall|a: int| 0 <= a < n implies #[trigger] u[a] == h[a] by {}
    assert forall|a: int, b: int|
        #![trigger u[a], u[b]]
        0 <= a < u.len() && 0 <= b < u.len() && u[a].key@ == u[b].key@ implies a == b by {
        if a < n && b < n {
            assert(h[a].key@ == h[b].key@);
        } else if a < n {
            assert(h[a].key@ == x.key@);
        } else if b < n {
            assert(h[b].key@ == x.key@);
        }
    }
    assert forall|k: Seq<u8>| #[trigger] has_key(u, k) == (k == x.key@ || has_key(h, k)) by {
        if has_key(u, k) {
            let a = choose|a: int| 0 <= a < u.len() && #[trigger] u[a].key@ == k;
            if a < n {
                assert(h[a].key@ == k);
            }
        }
        if k == x.key@ {
            assert(u[n].key@ == k);
        } else if has_key(h, k) {
            let a = choose|a: int| 0 <= a < h.len() && #[trigger] h[a].key@ == k;
            assert(u[a].key@ == k);
        }
    }
    assert forall|k: Seq<u8>| #[trigger] key_expiry(u, k) == if k == x.key@ {
        Some(x.expiry_us)
    } else {
        key_expiry(h, k)
    } by {
        if has_key(u, k) {
            let a = choose|a: int| 0 <= a < u.len() && #[trigger] u[a].key@ == k;
            if k == x.key@ {
                assert(u[n].key@ == k);
                if a < n {
                    assert(h[a].key@ == x.key@);
                }
            } else {
                let c = choose|y: int| 0 <= y < h.len() && #[trigger] h[y].key@ == k;
                assert(u[c].key@ == k);
            }
        }
    }
}

/// After the heap changes to `h2`, holding the items of `s`, and the entries
/// change only at key `k`: the slots can be recorded again when `s` has
/// distinct keys and agrees with `h` on every other key, and `k` has an
/// entry when it has an item and an item when its entry records a slot. The
/// expiry times are then those of `s`.
pub proof fn lemma_ready(
    db: Map<Seq<u8>, Entry>,
    h: Seq<HeapItem<Vec<u8>>>,
    db2: Map<Seq<u8>, Entry>,
    h2: Seq<HeapItem<Vec<u8>>>,
    s: Seq<HeapItem<Vec<u8>>>,
    k: Seq<u8>,
)
    requires
        synced(db, h),
        unique_keys(s),
        h2.to_multiset() == s.to_multiset(),
        forall|k2: Seq<u8>| k2 != k ==> #[trigger] has_key(s, k2) == has_key(h, k2),
        forall|k2: Seq<u8>| k2 != k ==> #[trigger] db2.contains_key(k2) == db.contains_key(k2),
        forall|k2: Seq<u8>|
            k2 != k && #[trigger] db.contains_key(k2) ==> db2[k2].ttl_heap_idx == db[k2].ttl_heap_idx,
        has_key(s, k) ==> db2.contains_key(k),
        db2.contains_key(k) && db2[k].ttl_heap_idx is Some ==> has_key(s, k),
    ensures
        resyncable(db2, h2),
        forall|k2: Seq<u8>| #[trigger] key_expiry(h2, k2) == key_expiry(s, k2),
{
    lemma_synced_facts(db, h);
    lemma_same_items(s, h2);
    assert forall|k2: Seq<u8>| #[trigger] has_key(h2, k2) implies db2.contains_key(k2) by {
        if k2 != k {
            assert(has_key(s, k2));
            assert(has_key(h, k2));
            assert(db.contains_key(k2));
        }
    }
    assert forall|k2: Seq<u8>| #[trigger] db2.contains_key(k2) && db2[k2].ttl_heap_idx is Some implies has_key(h2, k2) by {
        if k2 != k {
            assert(db.contains_key(k2));
            assert(has_key(h, k2));
            assert(has_key(s, k2));
        }
    }
}

/// Entries that keep the slots they recorded, and new entries that record
/// none, stay recorded in the same heap.
pub proof fn lemma_same_slots(db: Map<Seq<u8>, Entry>, db2: Map<Seq<u8>, Entry>, h: Seq<HeapItem<Vec<u8>>>)
    requires
        synced(db, h),
        forall|k: Seq<u8>| #[trigger] db.contains_key(k) ==> db2.contains_key(k) && db2[k].ttl_heap_idx == db[k].ttl_heap_idx,
        forall|k: Seq<u8>| #[trigger] db2.contains_key(k) && !db.contains_key(k) ==> db2[k].ttl_heap_idx is None,
    ensures
        synced(db2, h),
{
    assert forall|k: Seq<u8>| #[trigger] db2.contains_key(k) && db2[k].ttl_heap_idx is Some implies db2[k].ttl_heap_idx.unwrap()
        < h.len() && h[db2[k].ttl_heap_idx.unwrap() as int].key@ == k by {
        assert(db.contains_key(k));
    }
}

/// Every sorted set stored is well formed.
pub open spec fn zsets_ok(db: Map<Seq<u8>, Entry>) -> bool {
    forall|k: Seq<u8>| #[trigger] db.contains_key(k) && db[k].zset_value is Some ==> db[k].zset_value.unwrap().wf()
}

/// Entries that hold the sorted sets of well-formed entries hold
/// well-formed sorted sets.
pub proof fn lemma_zsets_kept(a: Map<Seq<u8>, Entry>, b: Map<Seq<u8>, Entry>)
    requires
        zsets_ok(b),
        forall|k: Seq<u8>| #[trigger] a.contains_key(k) ==> b.contains_key(k) && a[k].zset_value == b[k].zset_value,
    ensures
        zsets_ok(a),
{
}

/// Entries with the contents of well-formed entries hold well-formed
/// sorted sets.
pub proof fn lemma_zsets_contents(a: Map<Seq<u8>, Entry>, b: Map<Seq<u8>, Entry>)
    requires
        zsets_ok(b),
        contents(a) == contents(b),
    ensures
        zsets_ok(a),
{
    assert forall|k: Seq<u8>| #[trigger] a.contains_key(k) implies b.contains_key(k) && a[k].zset_value == b[k].zset_value by {
        assert(contents(a).contains_key(k));
        assert(contents(b).contains_key(k));
        assert(contents(a)[k] == contents(b)[k]);
        assert(contents(a)[k].zset_value == a[k].zset_value);
        assert(contents(b)[k].zset_value == b[k].zset_value);
    }
}

/// Whether SET on `key` answers a type error: the entry there is a sorted set.
pub open spec fn set_refused(db: Map<Seq<u8>, Entry>, key: Seq<u8>) -> bool {
    db.contains_key(key) && db[key].entry_type != EntryType::String
}

/// The entries after SET stores `value` under `key`, when it is not refused:
/// an existing string entry keeps its expiry slot, else a new entry is made.
pub open spec fn after_set(db: Map<Seq<u8>, Entry>, key: Seq<u8>, value: Vec<u8>) -> Map<Seq<u8>, Entry> {
    if db.contains_key(key) {
        db.insert(key, Entry { string_value: Some(value), ..db[key] })
    } else {
        db.insert(
            key,
            Entry {
                entry_type: EntryType::String,
                string_value: Some(value),
                zset_value: None,
                ttl_heap_idx: None,
            },
        )
    }
}

/// A read gives back what a write wrote: after SET stores `value` under
/// `key` (and is not refused), GET on `key` replies with `value`, and GET on
/// any other key replies as before; after DEL, GET on the key replies nil.
pub proof fn lemma_get_after_set(db: Map<Seq<u8>, Entry>, key: Seq<u8>, value: Vec<u8>, other: Seq<u8>)
    requires
        !set_refused(db, key),
        other != key,
    ensures
        get_reply(after_set(db, key, value), key) == str_bytes(value@),
        get_reply(after_set(db, key, value), other) == get_reply(db, other),
        get_reply(db.remove(key), key) == nil_bytes(),
        get_reply(db.remove(key), other) == get_reply(db, other),
{
}

/// SET on `key` with `value`: refused, changing nothing, where a sorted set
/// is stored under `key`; else the value is stored. The heap is unchanged.
pub open spec fn set_done(before: StorageEngine, after: StorageEngine, key: Seq<u8>, value: Vec<u8>) -> bool {
    &&& after.wf()
    &&& after.expiries() == before.expiries()
    &&& after.entries() == if set_refused(before.entries(), key) {
        before.entries()
    } else {
        after_set(before.entries(), key, value)
    }
}

/// The reply body of SET on `key`.
pub open spec fn set_body(before: StorageEngine, key: Seq<u8>) -> Seq<u8> {
    if set_refused(before.entries(), key) {
        error_bytes(ErrorCode::TypeError, "expect string type".spec_bytes())
    } else {
        nil_bytes()
    }
}

/// DEL on `key`: its entry and its expiry time are gone; every other key
/// keeps its entry and its expiry time.
pub open spec fn deleted(before: StorageEngine, after: StorageEngine, key: Seq<u8>) -> bool {
    &&& after.wf()
    &&& contents(after.entries()) == contents(before.entries()).remove(key)
    &&& after.expiries() == if before.entries().contains_key(key) {
        without_ttl(before.expiries(), before.entries()[key].ttl_heap_idx)
    } else {
        before.expiries()
    }
    &&& after.expiry_of(key) is None
    &&& forall|k2: Seq<u8>| k2 != key ==> #[trigger] after.expiry_of(k2) == before.expiry_of(k2)
}

/// The reply body of DEL on `key`: 1 if there was an entry, else 0.
pub open spec fn del_body(before: StorageEngine, key: Seq<u8>) -> Seq<u8> {
    int_bytes(if before.entries().contains_key(key) { 1 } else { 0 })
}

/// PEXPIRE on `key` with `ttl_ms` at `now_us`: a negative `ttl_ms` drops
/// the key's expiry time; else an entry's expiry time becomes `ttl_ms`
/// milliseconds after `now_us`, pushed into the heap if new and moved
/// within it if changed. The entries keep their contents and every other
/// key keeps its expiry time.
pub open spec fn pexpired(
    before: StorageEngine,
    after: StorageEngine,
    key: Seq<u8>,
    ttl_ms: i64,
    now_us: u64,
) -> bool {
    let db = before.entries();
    let heap = before.expiries();
    &&& after.wf()
    &&& contents(after.entries()) == contents(db)
    &&& forall|k2: Seq<u8>| k2 != key ==> #[trigger] after.expiry_of(k2) == before.expiry_of(k2)
    &&& if ttl_ms < 0 {
        &&& after.expiry_of(key) is None
        &&& after.expiries() == if db.contains_key(key) {
            without_ttl(heap, db[key].ttl_heap_idx)
        } else {
            heap
        }
    } else if !db.contains_key(key) {
        &&& after.expiry_of(key) is None
        &&& after.expiries() == heap
    } else {
        &&& after.expiry_of(key) == Some(expiry_u64(now_us, ttl_ms))
        &&& match db[key].ttl_heap_idx {
            Some(i) => after.expiries() == after_update(heap, ix(i), expiry_u64(now_us, ttl_ms)),
            None => exists|v: Vec<u8>|
                v@ == key && #[trigger] after.expiries() == sifted_up(
                    heap.push(HeapItem { expiry_us: expiry_u64(now_us, ttl_ms), key: v }),
                    len_of(heap),
                ),
        }
    }
}

/// The reply body of PEXPIRE on `key` with `ttl_ms`: 0 when an expiry time
/// is to be set on a key without an entry, else 1.
pub open spec fn pexpire_body(before: StorageEngine, key: Seq<u8>, ttl_ms: i64) -> Seq<u8> {
    int_bytes(if 0 <= ttl_ms && !before.entries().contains_key(key) { 0 } else { 1 })
}

/// The items of an array of name and score pairs: each name as a string,
/// then its score as a double.
pub open spec fn pair_items(ps: Seq<(Seq<u8>, u64)>) -> Seq<u8>
    decreases ps.len(),
{
    if ps.len() == 0 {
        Seq::empty()
    } else {
        pair_items(ps.drop_last()) + str_bytes(ps.last().0) + double_bytes(score_bits(ps.last().1))
    }
}

/// An array value of name and score pairs: two items for each.
pub open spec fn pairs_bytes(ps: Seq<(Seq<u8>, u64)>) -> Seq<u8> {
    seq![5u8] + u32_le((2 * ps.len()) as u32) + pair_items(ps)
}

/// The items of pairs go one pair after another, in the pairs' order: a
/// single pair is its name as a string, then its score as a double; and the
/// items of `a` then `b` are those of `a`, then those of `b`.
pub proof fn lemma_pair_items_concat(a: Seq<(Seq<u8>, u64)>, b: Seq<(Seq<u8>, u64)>, p: (Seq<u8>, u64))
    ensures
        pair_items(seq![p]) == str_bytes(p.0) + double_bytes(score_bits(p.1)),
        pair_items(a + b) == pair_items(a) + pair_items(b),
    decreases b.len(),
{
    assert(seq![p].drop_last() =~= Seq::<(Seq<u8>, u64)>::empty());
    assert(pair_items(Seq::<(Seq<u8>, u64)>::empty()) =~= Seq::<u8>::empty());
    assert(seq![p].last() == p);
    assert(pair_items(seq![p]) =~= str_bytes(p.0) + double_bytes(score_bits(p.1)));
    if b.len() == 0 {
        assert(a + b =~= a);
        assert(pair_items(a) + pair_items(b) =~= pair_items(a));
    } else {
        lemma_pair_items_concat(a, b.drop_last(), p);
        assert((a + b).drop_last() =~= a + b.drop_last());
        assert((a + b).last() == b.last());
        assert(pair_items(a + b) =~= pair_items(a) + pair_items(b));
    }
}

/// An array of pairs reads back as the tag 5, twice the number of pairs as
/// a little-endian `u32` (two items for each), then the pairs' items.
pub proof fn lemma_pairs_bytes_read(ps: Seq<(Seq<u8>, u64)>)
    requires
        2 * ps.len() <= u32::MAX,
    ensures
        pairs_bytes(ps)[0] == 5,
        crate::protocol::le_u32_at(pairs_bytes(ps), 1) == 2 * ps.len(),
        pairs_bytes(ps).subrange(5, pairs_bytes(ps).len() as int) == pair_items(ps),
{
    let b = pairs_bytes(ps);
    assert(b.subrange(1, 5) =~= u32_le((2 * ps.len()) as u32));
    crate::protocol::lemma_u32_le_read((2 * ps.len()) as u32, b, 1);
    assert(b.subrange(5, b.len() as int) =~= pair_items(ps));
}

/// The reply body of ZADD of `member` with score key `score` under `key`:
/// 1 for a new member (and for a new set), 0 for one that was there; a type
/// error on a string entry; an error when the set holds no value or has no
/// room for the change.
pub open spec fn zadd_body(before: StorageEngine, key: Seq<u8>, score: u64, member: Seq<u8>) -> Seq<u8> {
    let db = before.entries();
    if !db.contains_key(key) {
        int_bytes(1)
    } else if db[key].entry_type != EntryType::ZSet {
        error_bytes(ErrorCode::TypeError, "expect zset type".spec_bytes())
    } else {
        match db[key].zset_value {
            None => error_bytes(ErrorCode::Unknown, "zset value is None".spec_bytes()),
            Some(z) => if z.full() && !(z.scores().contains_key(member) && z.scores()[member] == score) {
                error_bytes(ErrorCode::Unknown, "zset is full".spec_bytes())
            } else {
                int_bytes(if z.scores().contains_key(member) { 0 } else { 1 })
            },
        }
    }
}

/// Every entry but the one under `key` is as it was, and the heap too.
pub open spec fn others_kept(before: StorageEngine, after: StorageEngine, key: Seq<u8>) -> bool {
    &&& after.wf()
    &&& after.expiries() == before.expiries()
    &&& forall|k2: Seq<u8>|
        k2 != key ==> (#[trigger] after.entries().contains_key(k2) == before.entries().contains_key(k2))
            && (before.entries().contains_key(k2) ==> after.entries()[k2] == before.entries()[k2])
}

/// The entry under `key` after it holds the sorted set `scores` in place of
/// the one it held, keeping the rest of the entry.
pub open spec fn zset_now(before: Entry, after: Entry, scores: Map<Seq<u8>, u64>) -> bool {
    &&& after.entry_type == before.entry_type
    &&& after.string_value == before.string_value
    &&& after.ttl_heap_idx == before.ttl_heap_idx
    &&& after.zset_value matches Some(z) && z.scores() == scores
}

/// ZADD: a new key gets a new sorted set of the one member; an existing set
/// gets the member with that score key, unless it has no room for the
/// change; a string entry, or one without a set, is left as it was.
pub open spec fn zadded(before: StorageEngine, after: StorageEngine, key: Seq<u8>, score: u64, member: Seq<u8>) -> bool {
    let db = before.entries();
    &&& others_kept(before, after, key)
    &&& after.entries().contains_key(key)
    &&& if !db.contains_key(key) {
        &&& after.entries()[key].entry_type == EntryType::ZSet
        &&& zset_now(Entry::new_zset_spec(), after.entries()[key], Map::empty().insert(member, score))
    } else if db[key].entry_type != EntryType::ZSet || db[key].zset_value is None {
        after.entries()[key] == db[key]
    } else {
        let z = db[key].zset_value.unwrap();
        zset_now(db[key], after.entries()[key], if z.full() && !(z.scores().contains_key(member) && z.scores()[member] == score) {
            z.scores()
        } else {
            z.scores().insert(member, score)
        })
    }
}

/// The reply body of ZREM of `member` under `key`: 1 if the set held it,
/// else 0; a type error on a string entry.
pub open spec fn zrem_body(before: StorageEngine, key: Seq<u8>, member: Seq<u8>) -> Seq<u8> {
    let db = before.entries();
    if !db.contains_key(key) {
        int_bytes(0)
    } else if db[key].entry_type != EntryType::ZSet {
        error_bytes(ErrorCode::TypeError, "expect zset type".spec_bytes())
    } else {
        match db[key].zset_value {
            None => int_bytes(0),
            Some(z) => int_bytes(if z.scores().contains_key(member) { 1 } else { 0 }),
        }
    }
}

/// ZREM: the set under `key` loses `member`; anything else is left as it was.
pub open spec fn zremoved(before: StorageEngine, after: StorageEngine, key: Seq<u8>, member: Seq<u8>) -> bool {
    let db = before.entries();
    &&& others_kept(before, after, key)
    &&& after.entries().contains_key(key) == db.contains_key(key)
    &&& db.contains_key(key) ==> if db[key].entry_type == EntryType::ZSet && db[key].zset_value is Some {
        zset_now(db[key], after.entries()[key], db[key].zset_value.unwrap().scores().remove(member))
    } else {
        after.entries()[key] == db[key]
    }
}

/// The reply body of ZSCORE of `member` under `key`: its score as a double,
/// nil if there is none; a type error on a string entry.
pub open spec fn zscore_body(db: Map<Seq<u8>, Entry>, key: Seq<u8>, member: Seq<u8>) -> Seq<u8> {
    if !db.contains_key(key) {
        nil_bytes()
    } else if db[key].entry_type != EntryType::ZSet {
        error_bytes(ErrorCode::TypeError, "expect zset type".spec_bytes())
    } else {
        match db[key].zset_value {
            Some(z) => if z.scores().contains_key(member) {
                double_bytes(score_bits(z.scores()[member]))
            } else {
                nil_bytes()
            },
            None => nil_bytes(),
        }
    }
}

/// The reply body of ZQUERY under `key`: the members from the first whose
/// score key is at least `min_key` on, skipping `offset`, at most `limit`,
/// as name and score pairs; an argument error for a negative `offset` or
/// `limit`, a type error on a string entry, an empty array where there is
/// no set.
pub open spec fn zquery_body(db: Map<Seq<u8>, Entry>, key: Seq<u8>, min_key: u64, offset: i64, limit: i64) -> Seq<u8> {
    if offset < 0 || limit < 0 {
        error_bytes(ErrorCode::ArgError, "offset and limit must be non-negative".spec_bytes())
    } else if !db.contains_key(key) {
        pairs_bytes(Seq::empty())
    } else if db[key].entry_type != EntryType::ZSet {
        error_bytes(ErrorCode::TypeError, "expect zset type".spec_bytes())
    } else {
        match db[key].zset_value {
            Some(z) => pairs_bytes(
                query_members(z.members(), min_key, offset as int, limit as int).map_values(|m: (u64, Seq<u8>)| named(m)),
            ),
            None => pairs_bytes(Seq::empty()),
        }
    }
}

/// A read of a score gives back what ZADD wrote: after ZADD of `member`
/// with score key `score` under `key` (where no string is stored, and the
/// set there, if any, holds a value and has room for the change), ZSCORE of
/// `member` replies with the double whose bits that key stands for, and
/// ZSCORE of any other member replies as before.
pub proof fn lemma_zscore_after_zadd(
    before: StorageEngine,
    after: StorageEngine,
    key: Seq<u8>,
    score: u64,
    member: Seq<u8>,
    other: Seq<u8>,
)
    requires
        zadded(before, after, key, score, member),
        before.entries().contains_key(key) ==> {
            let e = before.entries()[key];
            &&& e.entry_type == EntryType::ZSet
            &&& e.zset_value matches Some(z) && !(z.full() && !(z.scores().contains_key(member)
                && z.scores()[member] == score))
        },
        other != member,
    ensures
        zscore_body(after.entries(), key, member) == double_bytes(score_bits(score)),
        zscore_body(after.entries(), key, other) == if before.entries().contains_key(key) {
            zscore_body(before.entries(), key, other)
        } else {
            nil_bytes()
        },
{
}

/// ZREM takes the member out: after ZREM of `member` under `key`, ZSCORE of
/// `member` replies nil unless a string is stored there, and ZSCORE of any
/// other member replies as before.
pub proof fn lemma_zscore_after_zrem(
    before: StorageEngine,
    after: StorageEngine,
    key: Seq<u8>,
    member: Seq<u8>,
    other: Seq<u8>,
)
    requires
        zremoved(before, after, key, member),
        !(before.entries().contains_key(key) && before.entries()[key].entry_type != EntryType::ZSet),
        other != member,
    ensures
        zscore_body(after.entries(), key, member) == nil_bytes(),
        zscore_body(after.entries(), key, other) == zscore_body(before.entries(), key, other),
{
}

/// Writes an array of name and score pairs.
fn write_pairs(response: &mut ResponseBuilder, results: &Vec<(Vec<u8>, u64)>)
    requires
        old(response).wf(),
        results.len() <= MAX_MEMBERS,
    ensures
        final(response).wf(),
        final(response)@ == old(response)@ + pairs_bytes(results@.map_values(|p: (Vec<u8>, u64)| entry_view(p))),
{
    let ghost ps = results@.map_values(|p: (Vec<u8>, u64)| entry_view(p));
    let ghost r0 = response@;
    response.array_header((2 * results.len()) as u32);
    let mut i: usize = 0;
    while i < results.len()
        invariant
            response.wf(),
            i <= results.len(),
            ps == results@.map_values(|p: (Vec<u8>, u64)| entry_view(p)),
            response@ == r0 + seq![5u8] + u32_le((2 * ps.len()) as u32) + pair_items(ps.take(i as int)),
        decreases results.len() - i,
    {
        let ghost before = response@;
        response.str(results[i].0.as_slice());
        response.double_bits(bits_of_key(results[i].1));
        proof {
            let t = ps.take(i + 1);
            assert(t.drop_last() =~= ps.take(i as int));
            assert(t.last() == entry_view(results@[i as int]));
            assert(response@ =~= r0 + seq![5u8] + u32_le((2 * ps.len()) as u32) + pair_items(t));
        }
        i += 1;
    }
    proof {
        assert(ps.take(i as int) =~= ps);
        assert(response@ =~= r0 + pairs_bytes(ps));
    }
}

/// A non-negative count as an index, `usize::MAX` where it does not fit.
fn to_count(x: i64) -> (r: usize)
    requires
        x >= 0,
    ensures
        r as int == if x <= usize::MAX { x as int } else { usize::MAX as int },
{
    if x as u64 > usize::MAX as u64 {
        usize::MAX
    } else {
        x as usize
    }
}

/// The storage engine: the entries and the heap of their expiry times.
pub struct StorageEngine {
    db: ConcurrentHashMap<Entry>,
    ttl_heap: TtlHeap<Vec<u8>>,
}

impl StorageEngine {
    /// The entries by key.
    pub closed spec fn entries(&self) -> Map<Seq<u8>, Entry> {
        self.db@
    }

    /// The slots of the expiry heap.
    pub closed spec fn expiries(&self) -> Seq<HeapItem<Vec<u8>>> {
        self.ttl_heap.view()
    }

    /// The expiry time of the entry under `k`, if it has one.
    pub open spec fn expiry_of(&self, k: Seq<u8>) -> Option<u64> {
        ttl_of(self.entries(), self.expiries(), k)
    }

    /// The map and the heap are well formed, and each entry with an expiry
    /// time records the slot of its own heap item.
    pub closed spec fn wf(&self) -> bool {
        &&& self.db.wf()
        &&& self.ttl_heap.wf()
        &&& synced(self.db@, self.ttl_heap.view())
        &&& zsets_ok(self.db@)
    }

    /// In a well-formed engine the slot each entry records is that of its
    /// own heap item, no key has two items, and an entry's expiry time is
    /// that of the item with its key.
    pub proof fn lemma_synced(&self)
        requires
            self.wf(),
        ensures
            synced(self.entries(), self.expiries()),
            unique_keys(self.expiries()),
            forall|k: Seq<u8>| #[trigger] self.expiry_of(k) == key_expiry(self.expiries(), k),
            self.entries().dom().finite(),
    {
        lemma_synced_facts(self.db@, self.ttl_heap.view());
        self.db.lemma_finite();
    }

    /// Records `slot` in the entry under `key`, if there is one.
    fn set_slot(db: &mut ConcurrentHashMap<Entry>, key: &[u8], slot: Option<usize>)
        requires
            old(db).wf(),
        ensures
            final(db).wf(),
            final(db)@ == if old(db)@.contains_key(key@) {
                old(db)@.insert(key@, Entry { ttl_heap_idx: slot, ..old(db)@[key@] })
            } else {
                old(db)@
            },
    {
        db.update(
            key,
            (move |e: &mut Entry|
                ensures
                    final(e).ttl_heap_idx == slot,
                    final(e).entry_type == old(e).entry_type,
                    final(e).string_value == old(e).string_value,
                    final(e).zset_value == old(e).zset_value,
                {
                    e.ttl_heap_idx = slot;
                }),
        );
    }

    /// Records in each entry the slot of its key's heap item.
    fn resync(&mut self)
        requires
            old(self).db.wf(),
            old(self).ttl_heap.wf(),
            resyncable(old(self).db@, old(self).ttl_heap.view()),
            zsets_ok(old(self).db@),
        ensures
            final(self).wf(),
            final(self).expiries() == old(self).expiries(),
            contents(final(self).entries()) == contents(old(self).entries()),
    {
        let ghost h = self.ttl_heap.view();
        let ghost d0 = self.db@;
        let n = self.ttl_heap.len();
        let mut i: usize = 0;
        while i < n
            invariant
                self.db.wf(),
                self.ttl_heap.wf(),
                self.ttl_heap.view() == h,
                n == h.len(),
                i <= n,
                contents(self.db@) == contents(d0),
                unique_keys(h),
                forall|k: Seq<u8>| #[trigger] has_key(h, k) ==> self.db@.contains_key(k),
                forall|j: int| 0 <= j < i ==> self.db@[#[trigger] h[j].key@].ttl_heap_idx == Some(usize_of(j)),
                forall|k: Seq<u8>|
                    #[trigger] self.db@.contains_key(k) && self.db@[k].ttl_heap_idx is Some ==> has_key(h, k),
            decreases n - i,
        {
            let ghost db = self.db@;
            let ghost k = h[ix(i)].key@;
            assert(has_key(h, k));
            let key = self.ttl_heap.item_at(i).key.as_slice();
            Self::set_slot(&mut self.db, key, Some(i));
            proof {
                assert(contents(self.db@) =~= contents(db));
                assert forall|j: int| 0 <= j < i + 1 implies self.db@[#[trigger] h[j].key@].ttl_heap_idx == Some(usize_of(j)) by {
                    if j < i {
                        assert(h[j].key@ != h[ix(i)].key@);
                    }
                }
                assert forall|k2: Seq<u8>| #[trigger] self.db@.contains_key(k2) && self.db@[k2].ttl_heap_idx is Some implies has_key(h, k2) by {
                    if k2 != k {
                        assert(db.contains_key(k2));
                    }
                }
            }
            i += 1;
        }
        proof {
            assert forall|k: Seq<u8>| #[trigger] self.db@.contains_key(k) && self.db@[k].ttl_heap_idx is Some implies self.db@[k].ttl_heap_idx.unwrap() < h.len() && h[ix(self.db@[k].ttl_heap_idx.unwrap())].key@ == k by {
                let j = choose|j: int| 0 <= j < h.len() && #[trigger] h[j].key@ == k;
                assert(self.db@[h[j].key@].ttl_heap_idx == Some(usize_of(j)));
            }
            assert forall|j: int| 0 <= j < h.len() implies self.db@.contains_key(#[trigger] h[j].key@) && self.db@[h[j].key@].ttl_heap_idx == Some(usize_of(j)) by {
                assert(has_key(h, h[j].key@));
            }
            lemma_zsets_contents(self.db@, d0);
        }
    }

    /// An empty database.
    #[must_use]
    pub fn new() -> (e: Self)
        ensures
            e.wf(),
            e.entries() == Map::<Seq<u8>, Entry>::empty(),
            e.expiries() == Seq::<HeapItem<Vec<u8>>>::empty(),
    {
        assert(256usize & 255usize == 0) by (bit_vector);
        StorageEngine { db: ConcurrentHashMap::with_capacity(256, 100), ttl_heap: TtlHeap::with_capacity(1000) }
    }

    /// Whether an entry is stored under `key`.
    pub fn contains_key(&self, key: &[u8]) -> (r: bool)
        requires
            self.wf(),
        ensures
            r == self.entries().contains_key(key@),
    {
        self.db.contains_key(key)
    }

    /// GET: the string stored under `key`, nil if there is none, a type
    /// error if the entry is a sorted set.
    pub fn get(&self, key: &[u8], response: &mut ResponseBuilder)
        requires
            self.wf(),
            old(response).wf(),
        ensures
            final(response).wf(),
            final(response)@ == old(response)@ + get_reply(self.entries(), key@),
    {
        match self.db.get_ref(key) {
            Some(entry) => {
                match entry.entry_type {
                    EntryType::String => {
                        match &entry.string_value {
                            Some(val) => response.str(val.as_slice()),
                            None => response.nil(),
                        }
                    },
                    EntryType::ZSet => {
                        response.error(ErrorCode::TypeError, "expect string type");
                    },
                }
            },
            None => response.nil(),
        }
    }

    /// DEL: removes the entry under `key` and its expiry time; replies 1 if
    /// there was one, else 0. Every other key keeps its expiry time.
    pub fn del(&mut self, key: &[u8], response: &mut ResponseBuilder) -> (r: bool)
        requires
            old(self).wf(),
            old(response).wf(),
        ensures
            deleted(*old(self), *final(self), key@),
            final(response).wf(),
            r == old(self).entries().contains_key(key@),
            final(response)@ == old(response)@ + del_body(*old(self), key@),
    {
        let ghost d0 = self.db@;
        let ghost h0 = self.ttl_heap.view();
        let ghost k = key@;
        proof {
            lemma_synced_facts(d0, h0);
        }
        match self.db.remove(key) {
            Some(entry) => {
                let ghost mut s1 = h0;
                if let Some(heap_idx) = entry.ttl_heap_idx {
                    self.ttl_heap.remove_by_index(heap_idx);
                    proof {
                        let i = heap_idx as int;
                        assert(h0[i].key@ == k);
                        lemma_remove_keys(h0, i);
                        vstd::seq_lib::to_multiset_remove(h0, i);
                        s1 = h0.remove(i);
                    }
                } else {
                    proof {
                        assert(!has_key(h0, k));
                    }
                }
                proof {
                    assert(!has_key(s1, k));
                    lemma_ready(d0, h0, self.db@, self.ttl_heap.view(), s1, k);
                    assert(contents(self.db@) =~= contents(d0).remove(k));
                }
                self.resync();
                proof {
                    self.lemma_synced();
                    assert(contents(self.db@) == contents(d0).remove(k));
                    assert(contents(self.entries()) == contents(old(self).entries()).remove(key@));
                }
                response.integer(1);
                true
            },
            None => {
                proof {
                    assert(contents(d0).remove(k) =~= contents(d0));
                    assert(contents(self.entries()) == contents(old(self).entries()).remove(key@));
                }
                response.integer(0);
                false
            },
        }
    }

    /// The expiry time `ttl_ms` milliseconds after `now_us`.
    fn expiry_at(now_us: u64, ttl_ms: i64) -> (t: u64)
        requires
            0 <= ttl_ms,
            expiry_time(now_us, ttl_ms) <= u64::MAX,
        ensures
            t == expiry_time(now_us, ttl_ms),
    {
        now_us + ttl_ms as u64 * 1000
    }

    /// PEXPIRE: with a negative `ttl_ms`, drops the expiry time of the entry
    /// under `key`, replying 1; else sets it to `ttl_ms` milliseconds after
    /// `now_us`, replying 1, or replies 0 when there is no such entry. A new
    /// expiry time goes into the heap, a changed one moves within it, and
    /// every other key keeps its expiry time.
    pub fn pexpire(&mut self, key: &[u8], ttl_ms: i64, now_us: u64, response: &mut ResponseBuilder)
        requires
            old(self).wf(),
            old(response).wf(),
            0 <= ttl_ms && old(self).entries().contains_key(key@) ==> expiry_time(now_us, ttl_ms)
                <= u64::MAX,
        ensures
            pexpired(*old(self), *final(self), key@, ttl_ms, now_us),
            final(response).wf(),
            final(response)@ == old(response)@ + pexpire_body(*old(self), key@, ttl_ms),
    {
        let ghost d0 = self.db@;
        let ghost h0 = self.ttl_heap.view();
        let ghost k = key@;
        proof {
            lemma_synced_facts(d0, h0);
        }
        if ttl_ms < 0 {
            let idx = match self.db.get_ref(key) {
                Some(entry) => entry.ttl_heap_idx,
                None => None,
            };
            if let Some(heap_idx) = idx {
                self.ttl_heap.remove_by_index(heap_idx);
                Self::set_slot(&mut self.db, key, None);
                proof {
                    let i = ix(heap_idx);
                    assert(h0[i].key@ == k);
                    lemma_remove_keys(h0, i);
                    vstd::seq_lib::to_multiset_remove(h0, i);
                    lemma_ready(d0, h0, self.db@, self.ttl_heap.view(), h0.remove(i), k);
                }
                self.resync();
                proof {
                    self.lemma_synced();
                    assert(contents(self.db@) =~= contents(d0));
                }
            }
            response.integer(1);
            return;
        }
        let found = match self.db.get_ref(key) {
            Some(entry) => Some(entry.ttl_heap_idx),
            None => None,
        };
        match found {
            Some(slot) => {
                let expiry_us = Self::expiry_at(now_us, ttl_ms);
                match slot {
                    Some(heap_idx) => {
                        self.ttl_heap.update_by_index(heap_idx, expiry_us);
                        proof {
                            let i = ix(heap_idx);
                            let it = HeapItem { expiry_us, key: h0[i].key };
                            let u = h0.update(i, it);
                            lemma_update_keys(h0, i, expiry_us);
                            vstd::seq_lib::to_multiset_update(h0, i, it);
                            assert(self.ttl_heap.view().to_multiset() =~= u.to_multiset()) by {
                                broadcast use vstd::multiset::group_multiset_axioms;
                            }
                            lemma_ready(d0, h0, d0, self.ttl_heap.view(), u, k);
                        }
                    },
                    None => {
                        let item = HeapItem { expiry_us, key: vstd::slice::slice_to_vec(key) };
                        let ghost it = item;
                        self.ttl_heap.push(item);
                        proof {
                            assert(!has_key(h0, k));
                            lemma_push_keys(h0, it);
                            vstd::seq_lib::to_multiset_build(h0, it);
                            lemma_ready(d0, h0, d0, self.ttl_heap.view(), h0.push(it), k);
                        }
                    },
                }
                self.resync();
                proof {
                    self.lemma_synced();
                }
                response.integer(1);
            },
            None => response.integer(0),
        }
    }

    /// Removes the entries whose expiry time is before `now_us`, earliest
    /// first, at most `max_work` of them; returns how many expiry times were
    /// taken off the heap.
    pub fn process_expiry(&mut self, max_work: usize, now_us: u64) -> (n: usize)
        requires
            old(self).wf(),
        ensures
            final(self).wf(),
            n == expire_upto(old(self).expiries(), now_us, max_work as nat).0.len(),
            final(self).expiries() == expire_upto(old(self).expiries(), now_us, max_work as nat).1,
            contents(final(self).entries()) == contents(old(self).entries()).remove_keys(
                item_keys(expire_upto(old(self).expiries(), now_us, max_work as nat).0),
            ),
    {
        let ghost h0 = self.ttl_heap.view();
        let ghost m0 = self.db@;
        let ghost total = expire_upto(h0, now_us, max_work as nat);
        let ghost mut popped: Seq<HeapItem<Vec<u8>>> = Seq::empty();
        let mut expired_count: usize = 0;
        while expired_count < max_work
            invariant
                self.wf(),
                expired_count <= max_work,
                popped.len() == expired_count,
                total == (popped + expire_upto(self.ttl_heap.view(), now_us, (max_work - expired_count) as nat).0,
                    expire_upto(self.ttl_heap.view(), now_us, (max_work - expired_count) as nat).1),
                contents(self.db@) == contents(m0).remove_keys(item_keys(popped)),
            ensures
                self.wf(),
                popped.len() == expired_count,
                total == (popped, self.ttl_heap.view()),
                contents(self.db@) == contents(m0).remove_keys(item_keys(popped)),
            decreases max_work - expired_count,
        {
            let ghost h = self.ttl_heap.view();
            let ghost left = (max_work - expired_count) as nat;
            match self.ttl_heap.peek() {
                Some(item) => {
                    if item.expiry_us >= now_us {
                        proof {
                            assert(popped + Seq::<HeapItem<Vec<u8>>>::empty() =~= popped);
                        }
                        break;
                    }
                },
                None => {
                    proof {
                        assert(popped + Seq::<HeapItem<Vec<u8>>>::empty() =~= popped);
                    }
                    break;
                },
            }
            let ghost db = self.db@;
            let item = self.ttl_heap.pop().unwrap();
            self.db.remove(item.key.as_slice());
            proof {
                lemma_synced_facts(db, h);
                lemma_remove_keys(h, 0);
                vstd::seq_lib::to_multiset_remove(h, 0);
                lemma_ready(db, h, self.db@, self.ttl_heap.view(), h.remove(0), item.key@);
            }
            let ghost db2 = self.db@;
            proof {
                assert(contents(db2) =~= contents(db).remove(item.key@));
            }
            self.resync();
            let ghost old_popped = popped;
            proof {
                popped = popped.push(item);
                assert(expire_upto(h, now_us, left) == (seq![h[0]] + expire_upto(after_pop(h), now_us, (left - 1) as nat).0, expire_upto(after_pop(h), now_us, (left - 1) as nat).1));
                assert(old_popped + (seq![h[0]] + expire_upto(after_pop(h), now_us, (left - 1) as nat).0)
                    =~= popped + expire_upto(after_pop(h), now_us, (left - 1) as nat).0);
                assert(item_keys(popped) =~= set_with(item_keys(old_popped), item.key@)) by {
                    assert forall|k: Seq<u8>| item_keys(popped).contains(k) implies set_with(item_keys(old_popped), item.key@).contains(k) by {
                        let i = choose|i: int| 0 <= i < popped.len() && (#[trigger] popped[i]).key@ == k;
                        if i < old_popped.len() {
                            assert(old_popped[i] == popped[i]);
                        }
                    }
                    assert forall|k: Seq<u8>| set_with(item_keys(old_popped), item.key@).contains(k) implies item_keys(popped).contains(k) by {
                        if k == item.key@ {
                            assert(popped[old_popped.len() as int] == item);
                        } else {
                            let i = choose|i: int| 0 <= i < old_popped.len() && (#[trigger] old_popped[i]).key@ == k;
                            assert(popped[i] == old_popped[i]);
                        }
                    }
                }
                assert(contents(self.db@) == contents(db).remove(item.key@));
                assert(contents(db).remove(item.key@) =~= contents(m0).remove_keys(item_keys(popped)));
            }
            expired_count += 1;
        }
        expired_count
    }

    /// When the earliest expiry time falls, if there is one.
    #[must_use]
    pub fn next_expiry_us(&self) -> (r: Option<u64>)
        requires
            self.wf(),
        ensures
            r == if self.expiries().len() > 0 {
                Some(self.expiries()[0].expiry_us)
            } else {
                None::<u64>
            },
            r is None <==> forall|k: Seq<u8>| #[trigger] self.expiry_of(k) is None,
            r matches Some(t) ==> (exists|k: Seq<u8>| #[trigger] self.expiry_of(k) == Some(t))
                && forall|k: Seq<u8>| #[trigger] self.expiry_of(k) matches Some(u) ==> t <= u,
    {
        proof {
            self.lemma_synced();
            let h = self.expiries();
            if h.len() > 0 {
                let k0 = h[0].key@;
                assert(has_key(h, k0));
                let c = choose|i: int| 0 <= i < h.len() && #[trigger] h[i].key@ == k0;
                assert(h[c].key@ == h[0].key@);
                assert(self.expiry_of(k0) == Some(h[0].expiry_us));
            } else {
                assert forall|k: Seq<u8>| #[trigger] self.expiry_of(k) is None by {
                    assert(!has_key(h, k));
                }
            }
        }
        match self.ttl_heap.peek() {
            Some(item) => Some(item.expiry_us),
            None => None,
        }
    }

    /// The number of entries, or `usize::MAX` if there are more.
    #[must_use]
    pub fn size(&self) -> (n: usize)
        requires
            self.wf(),
        ensures
            n == capped(self.entries().len()),
    {
        self.db.len()
    }

    /// `f` applied to the entry under `key`, if there is one.
    pub fn with_entry<R, F: FnOnce(&Entry) -> R>(&self, key: &[u8], f: F) -> (r: Option<R>)
        requires
            self.wf(),
            forall|e: &Entry| call_requires(f, (e,)),
        ensures
            r.is_some() == self.entries().contains_key(key@),
            r.is_some() ==> call_ensures(f, (&self.entries()[key@],), r.unwrap()),
    {
        self.db.get_with(key, f)
    }

    /// ZADD: adds `member` with score key `score` to the sorted set under
    /// `key`, making the set if there is no entry.
    pub fn zadd(&mut self, key: Vec<u8>, score: u64, member: Vec<u8>, response: &mut ResponseBuilder)
        requires
            old(self).wf(),
            old(response).wf(),
        ensures
            zadded(*old(self), *final(self), key@, score, member@),
            final(response).wf(),
            final(response)@ == old(response)@ + zadd_body(*old(self), key@, score, member@),
    {
        let ghost d0 = self.db@;
        let ghost h0 = self.ttl_heap.view();
        let ghost k = key@;
        let found = match self.db.get_ref(key.as_slice()) {
            Some(e) => Some((e.entry_type, e.zset_value.is_some())),
            None => None,
        };
        match found {
            None => {
                let mut zset = ZSet::new();
                let ghost mv = member@;
                let _ = zset.add(member, score);
                self.db.insert(key, Entry::new_zset(zset));
                proof {
                    lemma_same_slots(d0, self.db@, h0);
                    assert(Map::<Seq<u8>, u64>::empty().insert(mv, score) =~= Map::empty().insert(mv, score));
                }
                response.integer(1);
            },
            Some((t, present)) => {
                if t != EntryType::ZSet {
                    response.error(ErrorCode::TypeError, "expect zset type");
                    return;
                }
                if !present {
                    response.error(ErrorCode::Unknown, "zset value is None");
                    return;
                }
                let mut entry = match self.db.remove(key.as_slice()) {
                    Some(e) => e,
                    None => {
                        proof {
                            assert(false);
                        }
                        return;
                    },
                };
                let added = match &mut entry.zset_value {
                    Some(z) => z.add(member, score),
                    None => None,
                };
                self.db.insert(key, entry);
                proof {
                    lemma_same_slots(d0, self.db@, h0);
                }
                match added {
                    Some(a) => response.integer(if a { 1 } else { 0 }),
                    None => response.error(ErrorCode::Unknown, "zset is full"),
                }
            },
        }
    }

    /// ZREM: removes `member` from the sorted set under `key`.
    pub fn zrem(&mut self, key: &[u8], member: &[u8], response: &mut ResponseBuilder)
        requires
            old(self).wf(),
            old(response).wf(),
        ensures
            zremoved(*old(self), *final(self), key@, member@),
            final(response).wf(),
            final(response)@ == old(response)@ + zrem_body(*old(self), key@, member@),
    {
        let ghost d0 = self.db@;
        let ghost h0 = self.ttl_heap.view();
        let found = match self.db.get_ref(key) {
            Some(e) => Some((e.entry_type, e.zset_value.is_some())),
            None => None,
        };
        match found {
            None => response.integer(0),
            Some((t, present)) => {
                if t != EntryType::ZSet {
                    response.error(ErrorCode::TypeError, "expect zset type");
                    return;
                }
                if !present {
                    response.integer(0);
                    return;
                }
                let mut entry = match self.db.remove(key) {
                    Some(e) => e,
                    None => {
                        proof {
                            assert(false);
                        }
                        return;
                    },
                };
                let removed = match &mut entry.zset_value {
                    Some(z) => z.remove(member),
                    None => false,
                };
                self.db.insert(vstd::slice::slice_to_vec(key), entry);
                proof {
                    lemma_same_slots(d0, self.db@, h0);
                }
                response.integer(if removed { 1 } else { 0 });
            },
        }
    }

    /// ZSCORE: the score of `member` in the sorted set under `key`.
    pub fn zscore(&self, key: &[u8], member: &[u8], response: &mut ResponseBuilder)
        requires
            self.wf(),
            old(response).wf(),
        ensures
            final(response).wf(),
            final(response)@ == old(response)@ + zscore_body(self.entries(), key@, member@),
    {
        match self.db.get_ref(key) {
            Some(entry) => {
                if entry.entry_type != EntryType::ZSet {
                    response.error(ErrorCode::TypeError, "expect zset type");
                    return;
                }
                match &entry.zset_value {
                    Some(z) => match z.score(member) {
                        Some(k) => response.double_bits(bits_of_key(k)),
                        None => response.nil(),
                    },
                    None => response.nil(),
                }
            },
            None => response.nil(),
        }
    }

    /// ZQUERY: the members of the sorted set under `key` from the first
    /// whose score key is at least `min_key` on, skipping `offset` of them,
    /// at most `limit`, each as its name and score.
    pub fn zquery(&self, key: &[u8], min_key: u64, offset: i64, limit: i64, response: &mut ResponseBuilder)
        requires
            self.wf(),
            old(response).wf(),
        ensures
            final(response).wf(),
            final(response)@ == old(response)@ + zquery_body(self.entries(), key@, min_key, offset, limit),
    {
        if offset < 0 || limit < 0 {
            response.error(ErrorCode::ArgError, "offset and limit must be non-negative");
            return;
        }
        match self.db.get_ref(key) {
            Some(entry) => {
                if entry.entry_type != EntryType::ZSet {
                    response.error(ErrorCode::TypeError, "expect zset type");
                    return;
                }
                match &entry.zset_value {
                    Some(z) => {
                        let off = to_count(offset);
                        let lim = to_count(limit);
                        proof {
                            z.lemma_listing();
                            assert(query_members(z.members(), min_key, off as int, lim as int)
                                == query_members(z.members(), min_key, offset as int, limit as int));
                        }
                        let results = z.query(min_key, off, lim);
                        proof {
                            let q = query_members(z.members(), min_key, off as int, lim as int);
                            assert(results@.map_values(|p: (Vec<u8>, u64)| entry_view(p)).len() == results@.len());
                            assert(q.map_values(|m: (u64, Seq<u8>)| named(m)).len() == q.len());
                            assert(q.len() <= z.members().len());
                        }
                        write_pairs(response, &results);
                    },
                    None => {
                        let empty: Vec<(Vec<u8>, u64)> = Vec::new();
                        proof {
                            assert(empty@.map_values(|p: (Vec<u8>, u64)| entry_view(p)) =~= Seq::<(Seq<u8>, u64)>::empty());
                        }
                        write_pairs(response, &empty);
                    },
                }
            },
            None => {
                let empty: Vec<(Vec<u8>, u64)> = Vec::new();
                proof {
                    assert(empty@.map_values(|p: (Vec<u8>, u64)| entry_view(p)) =~= Seq::<(Seq<u8>, u64)>::empty());
                }
                write_pairs(response, &empty);
            },
        }
    }

    /// SET: stores the string `value` under `key`, keeping the entry's
    /// expiry time; a type error, changing nothing, if the entry is a sorted
    /// set.
    pub fn set(&mut self, key: Vec<u8>, value: Vec<u8>, response: &mut ResponseBuilder)
        requires
            old(self).wf(),
            old(response).wf(),
        ensures
            set_done(*old(self), *final(self), key@, value),
            final(response).wf(),
            final(response)@ == old(response)@ + set_body(*old(self), key@),
    {
        let found = match self.db.get_ref(key.as_slice()) {
            Some(entry) => Some(entry.entry_type),
            None => None,
        };
        match found {
            Some(t) => {
                if t != EntryType::String {
                    response.error(ErrorCode::TypeError, "expect string type");
                    return;
                }
                let ghost v = value;
                self.db.update(
                    key.as_slice(),
                    (move |e: &mut Entry|
                        ensures
                            final(e).string_value == Some(v),
                            final(e).entry_type == old(e).entry_type,
                            final(e).zset_value == old(e).zset_value,
                            final(e).ttl_heap_idx == old(e).ttl_heap_idx,
                        {
                            e.string_value = Some(value);
                        }),
                );
            },
            None => {
                self.db.insert(key, Entry::new_string(value));
            },
        }
        response.nil();
    }
}

impl Default for StorageEngine {
    fn default() -> (e: Self)
        ensures
            e.wf(),
            e.entries() == Map::<Seq<u8>, Entry>::empty(),
            e.expiries() == Seq::<HeapItem<Vec<u8>>>::empty(),
    {
        Self::new()
    }
}

} // verus!
