//! Sorted sets: members ordered by a score key and then by name, kept in
//! the AVL tree, with a map from each name to its score key. Scores are
//! floating point where they come from; the library holds for each an
//! unsigned key that orders as the score does ([`key_of_bits`]).

use crate::avl::{int_of, len_of, lemma_pos_children, nat_of, placed_at, AvlTree, Shape, INVALID_IDX};
use crate::concurrent_map::ConcurrentHashMap;
use std::cmp::Ordering;
use vstd::prelude::*;

verus! {

/// The sign bit of the bits of an `f64`.
pub const SIGN_BIT: u64 = 0x8000_0000_0000_0000;

/// The score key for the bits of an `f64`: the bits of a negative number
/// flipped, those of a positive one with the sign bit set, so that keys
/// order as the numbers they stand for (with −0 just below +0).
pub open spec fn score_key(bits: u64) -> u64 {
    if bits & SIGN_BIT != 0 {
        !bits
    } else {
        bits | SIGN_BIT
    }
}

/// The bits of the `f64` a score key stands for.
pub open spec fn score_bits(key: u64) -> u64 {
    if key & SIGN_BIT != 0 {
        key ^ SIGN_BIT
    } else {
        !key
    }
}

/// A score key gives back the bits it was made from.
pub proof fn lemma_score_key_inverse(bits: u64)
    ensures
        score_bits(score_key(bits)) == bits,
{
    assert(bits & 0x8000_0000_0000_0000u64 != 0 ==> (!bits) & 0x8000_0000_0000_0000u64 == 0 && !(!bits) == bits) by (bit_vector);
    assert(bits & 0x8000_0000_0000_0000u64 == 0 ==> (bits | 0x8000_0000_0000_0000u64) & 0x8000_0000_0000_0000u64 != 0
        && (bits | 0x8000_0000_0000_0000u64) ^ 0x8000_0000_0000_0000u64 == bits) by (bit_vector);
}

/// Score keys order as the doubles they stand for: among doubles without the
/// sign bit the larger bits (the larger number) get the larger key; among
/// negative ones the larger bits (the more negative number) get the smaller
/// key; and every negative double comes before every other.
pub proof fn lemma_score_key_order(a: u64, b: u64)
    ensures
        a & SIGN_BIT == 0 && b & SIGN_BIT == 0 ==> (score_key(a) < score_key(b) <==> a < b),
        a & SIGN_BIT != 0 && b & SIGN_BIT != 0 ==> (score_key(a) < score_key(b) <==> b < a),
        a & SIGN_BIT != 0 && b & SIGN_BIT == 0 ==> score_key(a) < score_key(b),
{
    assert(a & 0x8000_0000_0000_0000u64 == 0 && b & 0x8000_0000_0000_0000u64 == 0 ==> ((a
        | 0x8000_0000_0000_0000u64) < (b | 0x8000_0000_0000_0000u64) <==> a < b)) by (bit_vector);
    assert(a & 0x8000_0000_0000_0000u64 != 0 && b & 0x8000_0000_0000_0000u64 != 0 ==> (!a < !b
        <==> b < a)) by (bit_vector);
    assert(a & 0x8000_0000_0000_0000u64 != 0 && b & 0x8000_0000_0000_0000u64 == 0 ==> !a < (b
        | 0x8000_0000_0000_0000u64)) by (bit_vector);
}

/// The score key for the bits of an `f64`.
pub fn key_of_bits(bits: u64) -> (k: u64)
    ensures
        k == score_key(bits),
{
    if bits & SIGN_BIT != 0 {
        !bits
    } else {
        bits | SIGN_BIT
    }
}

/// The bits of the `f64` a score key stands for.
pub fn bits_of_key(key: u64) -> (b: u64)
    ensures
        b == score_bits(key),
{
    if key & SIGN_BIT != 0 {
        key ^ SIGN_BIT
    } else {
        !key
    }
}

/// `a` comes before `b` byte by byte, a proper prefix first.
pub open spec fn bytes_lt(a: Seq<u8>, b: Seq<u8>) -> bool
    decreases a.len(),
{
    if a.len() == 0 {
        b.len() > 0
    } else if b.len() == 0 {
        false
    } else if a[0] != b[0] {
        a[0] < b[0]
    } else {
        bytes_lt(a.drop_first(), b.drop_first())
    }
}

/// The order of members: by score key, then by name.
pub open spec fn member_lt(a: (u64, Seq<u8>), b: (u64, Seq<u8>)) -> bool {
    a.0 < b.0 || (a.0 == b.0 && bytes_lt(a.1, b.1))
}

/// No byte string comes before itself, and of two different ones exactly
/// one comes first.
pub proof fn lemma_bytes_lt_total(a: Seq<u8>, b: Seq<u8>)
    ensures
        !bytes_lt(a, a),
        bytes_lt(a, b) ==> !bytes_lt(b, a),
        a != b ==> bytes_lt(a, b) || bytes_lt(b, a),
    decreases a.len(),
{
    if a.len() > 0 {
        lemma_bytes_lt_total(a.drop_first(), a.drop_first());
        if b.len() > 0 {
            lemma_bytes_lt_total(a.drop_first(), b.drop_first());
            if a[0] == b[0] && a.drop_first() == b.drop_first() {
                assert(a =~= seq![a[0]] + a.drop_first());
                assert(b =~= seq![b[0]] + b.drop_first());
            }
        }
    } else if b.len() == 0 {
        assert(a =~= b);
    }
}

/// The byte order is transitive.
pub proof fn lemma_bytes_lt_trans(a: Seq<u8>, b: Seq<u8>, c: Seq<u8>)
    requires
        bytes_lt(a, b),
        bytes_lt(b, c),
    ensures
        bytes_lt(a, c),
    decreases a.len(),
{
    if a.len() > 0 && b.len() > 0 && c.len() > 0 && a[0] == b[0] && b[0] == c[0] {
        lemma_bytes_lt_trans(a.drop_first(), b.drop_first(), c.drop_first());
    }
}

/// The member order is a strict total order.
pub proof fn lemma_member_lt(a: (u64, Seq<u8>), b: (u64, Seq<u8>), c: (u64, Seq<u8>))
    ensures
        !member_lt(a, a),
        member_lt(a, b) ==> !member_lt(b, a),
        a != b ==> member_lt(a, b) || member_lt(b, a),
        member_lt(a, b) && member_lt(b, c) ==> member_lt(a, c),
{
    lemma_bytes_lt_total(a.1, b.1);
    if member_lt(a, b) && member_lt(b, c) && a.0 == b.0 && b.0 == c.0 {
        lemma_bytes_lt_trans(a.1, b.1, c.1);
    }
}

/// An index as an integer.
pub open spec fn ix(i: usize) -> int {
    i as int
}

/// Compares two byte strings in byte order.
pub fn compare_bytes(a: &[u8], b: &[u8]) -> (o: Ordering)
    ensures
        (o is Less) == bytes_lt(a@, b@),
        (o is Equal) == (a@ == b@),
        (o is Greater) == bytes_lt(b@, a@),
{
    proof {
        lemma_bytes_lt_total(a@, b@);
        assert(a@.skip(0) =~= a@);
        assert(b@.skip(0) =~= b@);
    }
    let mut i: usize = 0;
    while i < a.len() && i < b.len()
        invariant
            i <= a.len(),
            i <= b.len(),
            bytes_lt(a@, b@) == bytes_lt(a@.skip(ix(i)), b@.skip(ix(i))),
            bytes_lt(b@, a@) == bytes_lt(b@.skip(ix(i)), a@.skip(ix(i))),
            (a@ == b@) == (a@.skip(ix(i)) == b@.skip(ix(i))),
        decreases a.len() - i,
    {
        let ghost x = a@.skip(ix(i));
        let ghost y = b@.skip(ix(i));
        if a[i] != b[i] {
            proof {
                assert(x[0] == a@[ix(i)] && y[0] == b@[ix(i)]);
                assert(x != y);
            }
            return if a[i] < b[i] {
                Ordering::Less
            } else {
                Ordering::Greater
            };
        }
        proof {
            assert(x.drop_first() =~= a@.skip(i + 1));
            assert(y.drop_first() =~= b@.skip(i + 1));
            assert(x =~= seq![x[0]] + x.drop_first());
            assert(y =~= seq![y[0]] + y.drop_first());
            if x.drop_first() == y.drop_first() {
                assert(x =~= y);
            }
        }
        i += 1;
    }
    let ghost x = a@.skip(ix(i));
    let ghost y = b@.skip(ix(i));
    if a.len() < b.len() {
        proof {
            assert(x.len() == 0 && y.len() > 0);
            assert(x != y);
        }
        Ordering::Less
    } else if b.len() < a.len() {
        proof {
            assert(y.len() == 0 && x.len() > 0);
            assert(x != y);
        }
        Ordering::Greater
    } else {
        proof {
            assert(x =~= y);
        }
        Ordering::Equal
    }
}

/// A member as its score key and the bytes of its name.
pub open spec fn member_view(e: (u64, Vec<u8>)) -> (u64, Seq<u8>) {
    (e.0, e.1@)
}

/// Compares two members: by score key, then by name.
pub fn compare_members(a: &(u64, Vec<u8>), b: &(u64, Vec<u8>)) -> (o: Ordering)
    ensures
        (o is Less) == member_lt(member_view(*a), member_view(*b)),
        (o is Equal) == (member_view(*a) == member_view(*b)),
        (o is Greater) == member_lt(member_view(*b), member_view(*a)),
{
    proof {
        lemma_member_lt(member_view(*a), member_view(*b), member_view(*a));
    }
    if a.0 < b.0 {
        Ordering::Less
    } else if b.0 < a.0 {
        Ordering::Greater
    } else {
        compare_bytes(a.1.as_slice(), b.1.as_slice())
    }
}

/// The most members a sorted set holds: an array reply lists two items for
/// each, counted in a `u32`.
pub const MAX_MEMBERS: usize = 0x7fff_fffe;

/// `s` lists the members of the map `m` from names to score keys, each
/// once, in increasing member order.
pub open spec fn is_listing(s: Seq<(u64, Seq<u8>)>, m: Map<Seq<u8>, u64>) -> bool {
    &&& forall|i: int, j: int| #![trigger s[i], s[j]] 0 <= i < j < s.len() ==> member_lt(s[i], s[j])
    &&& forall|i: int, j: int| #![trigger s[i], s[j]] 0 <= i < j < s.len() ==> s[i].1 != s[j].1
    &&& forall|i: int| 0 <= i < s.len() ==> m.contains_key(#[trigger] s[i].1) && m[s[i].1] == s[i].0
    &&& forall|n: Seq<u8>| #[trigger] m.contains_key(n) ==> exists|i: int| 0 <= i < s.len() && #[trigger] s[i].1 == n
}

/// The number of members of `s` that come before `t`.
pub open spec fn count_below(s: Seq<(u64, Seq<u8>)>, t: (u64, Seq<u8>)) -> nat
    decreases s.len(),
{
    if s.len() == 0 {
        0
    } else {
        count_below(s.drop_last(), t) + if member_lt(s.last(), t) {
            1nat
        } else {
            0nat
        }
    }
}

/// In increasing member order, the members before `t` are the first ones.
pub proof fn lemma_count_below(s: Seq<(u64, Seq<u8>)>, t: (u64, Seq<u8>))
    requires
        forall|i: int, j: int| #![trigger s[i], s[j]] 0 <= i < j < s.len() ==> member_lt(s[i], s[j]),
    ensures
        count_below(s, t) <= s.len(),
        forall|i: int| 0 <= i < count_below(s, t) ==> member_lt(#[trigger] s[i], t),
        forall|i: int| count_below(s, t) <= i < s.len() ==> !member_lt(#[trigger] s[i], t),
    decreases s.len(),
{
    if s.len() > 0 {
        let d = s.drop_last();
        lemma_count_below(d, t);
        let c = count_below(d, t);
        if member_lt(s.last(), t) {
            if c < d.len() {
                assert(member_lt(s[c as int], s[s.len() - 1]));
                lemma_member_lt(s[c as int], s.last(), t);
                assert(d[c as int] == s[c as int]);
            }
        }
        assert forall|i: int| 0 <= i < count_below(s, t) implies member_lt(#[trigger] s[i], t) by {
            if i < d.len() {
                assert(d[i] == s[i]);
            }
        }
        assert forall|i: int| count_below(s, t) <= i < s.len() implies !member_lt(#[trigger] s[i], t) by {
            if i < d.len() {
                assert(d[i] == s[i]);
            }
        }
    }
}

/// A tree slot whose subtree is a node is a slot of the tree.
pub proof fn lemma_sub_node_has(s: Shape, c: nat)
    requires
        s.sub(c) is Node,
    ensures
        s.has(c),
    decreases s,
{
    if let Shape::Node { left, idx, right } = s {
        if c != idx && !left.has(c) {
            lemma_sub_node_has(*right, c);
        }
    }
}

/// A slot number as an index.
pub open spec fn slot_of(slots: Seq<nat>, i: int) -> usize {
    slots[i] as usize
}

/// Taking out the member at position `p` leaves a listing of the map
/// without its name.
pub proof fn lemma_listing_remove(s: Seq<(u64, Seq<u8>)>, m: Map<Seq<u8>, u64>, p: int)
    requires
        is_listing(s, m),
        0 <= p < s.len(),
    ensures
        is_listing(s.remove(p), m.remove(s[p].1)),
{
    let r = s.remove(p);
    let m2 = m.remove(s[p].1);
    assert forall|a: int| 0 <= a < r.len() implies #[trigger] r[a] == s[if a < p { a } else { a + 1 }] by {}
    assert forall|i: int, j: int| #![trigger r[i], r[j]] 0 <= i < j < r.len() implies member_lt(r[i], r[j]) && r[i].1 != r[j].1 by {
        let x = if i < p { i } else { i + 1 };
        let y = if j < p { j } else { j + 1 };
        assert(member_lt(s[x], s[y]) && s[x].1 != s[y].1);
    }
    assert forall|i: int| 0 <= i < r.len() implies m2.contains_key(#[trigger] r[i].1) && m2[r[i].1] == r[i].0 by {
        let x = if i < p { i } else { i + 1 };
        assert(r[i] == s[x]);
        assert(m.contains_key(s[x].1));
        if x < p {
            assert(s[x].1 != s[p].1);
        } else {
            assert(s[p].1 != s[x].1);
        }
    }
    assert forall|n: Seq<u8>| #[trigger] m2.contains_key(n) implies exists|i: int| 0 <= i < r.len() && #[trigger] r[i].1 == n by {
        let x = choose|x: int| 0 <= x < s.len() && #[trigger] s[x].1 == n;
        assert(x != p);
        let i = if x < p { x } else { x - 1 };
        assert(r[i] == s[x]);
    }
}

/// Putting a member with a new name at position `k`, between the member
/// before it and the member after it, gives a listing of the map with it.
pub proof fn lemma_listing_insert(s: Seq<(u64, Seq<u8>)>, m: Map<Seq<u8>, u64>, k: int, e: (u64, Seq<u8>))
    requires
        is_listing(s, m),
        !m.contains_key(e.1),
        0 <= k <= s.len(),
        k > 0 ==> member_lt(s[k - 1], e),
        k < s.len() ==> member_lt(e, s[k]),
    ensures
        is_listing(s.insert(k, e), m.insert(e.1, e.0)),
{
    let r = s.insert(k, e);
    let m2 = m.insert(e.1, e.0);
    assert forall|a: int| 0 <= a < r.len() && a != k implies #[trigger] r[a] == s[if a < k { a } else { a - 1 }] by {}
    assert forall|a: int| 0 <= a < s.len() implies s[a].1 != e.1 by {
        assert(m.contains_key(s[a].1));
    }
    assert forall|i: int, j: int| #![trigger r[i], r[j]] 0 <= i < j < r.len() implies member_lt(r[i], r[j]) && r[i].1 != r[j].1 by {
        let x = if i < k { i } else { i - 1 };
        let y = if j < k { j } else { j - 1 };
        if i == k {
            assert(r[i] == e && r[j] == s[y]);
            if y > k {
                assert(member_lt(s[k], s[y]));
                lemma_member_lt(e, s[k], s[y]);
            }
        } else if j == k {
            assert(r[j] == e && r[i] == s[x]);
            if x < k - 1 {
                assert(member_lt(s[x], s[k - 1]));
                lemma_member_lt(s[x], s[k - 1], e);
            }
        } else {
            assert(r[i] == s[x] && r[j] == s[y]);
            assert(member_lt(s[x], s[y]) && s[x].1 != s[y].1);
        }
    }
    assert forall|i: int| 0 <= i < r.len() implies m2.contains_key(#[trigger] r[i].1) && m2[r[i].1] == r[i].0 by {
        if i != k {
            let x = if i < k { i } else { i - 1 };
            assert(r[i] == s[x]);
            assert(m.contains_key(s[x].1));
        }
    }
    assert forall|n: Seq<u8>| #[trigger] m2.contains_key(n) implies exists|i: int| 0 <= i < r.len() && #[trigger] r[i].1 == n by {
        if n == e.1 {
            assert(r[k].1 == n);
        } else {
            let x = choose|x: int| 0 <= x < s.len() && #[trigger] s[x].1 == n;
            let i = if x < k { x } else { x + 1 };
            assert(r[i] == s[x]);
        }
    }
}

/// In a listing, the member with a given name stands where the members
/// before it end.
pub proof fn lemma_listing_find(s: Seq<(u64, Seq<u8>)>, m: Map<Seq<u8>, u64>, n: Seq<u8>)
    requires
        is_listing(s, m),
        m.contains_key(n),
    ensures
        count_below(s, (m[n], n)) < s.len(),
        s[count_below(s, (m[n], n)) as int] == (m[n], n),
{
    lemma_count_below(s, (m[n], n));
    let i = choose|i: int| 0 <= i < s.len() && #[trigger] s[i].1 == n;
    assert(m.contains_key(s[i].1));
    assert(s[i] == (m[n], n));
    lemma_member_lt(s[i], s[i], s[i]);
    let c = count_below(s, (m[n], n)) as int;
    if c < i {
        assert(member_lt(s[c], s[i]));
    }
    if c > i {
        assert(member_lt(s[i], (m[n], n)));
    }
}

/// The members a query gives: those from the first with score key at least
/// `min_key` on, after skipping `offset` of them, at most `limit`.
pub open spec fn query_members(s: Seq<(u64, Seq<u8>)>, min_key: u64, offset: int, limit: int) -> Seq<(u64, Seq<u8>)> {
    let from = count_below(s, (min_key, Seq::empty())) + offset;
    if from >= s.len() {
        Seq::empty()
    } else {
        s.subrange(from, if from + limit < s.len() { from + limit } else { s.len() as int })
    }
}

/// A member as its name and score key.
pub open spec fn named(m: (u64, Seq<u8>)) -> (Seq<u8>, u64) {
    (m.1, m.0)
}

/// A query result entry as the bytes of its name and its score key.
pub open spec fn entry_view(p: (Vec<u8>, u64)) -> (Seq<u8>, u64) {
    (p.0@, p.1)
}

/// In a listing, the members before `(min_key, [])` are exactly those with
/// a score key below `min_key`: a query starts at the first member whose
/// key is at least `min_key`.
pub proof fn lemma_from_key(s: Seq<(u64, Seq<u8>)>, m: Map<Seq<u8>, u64>, min_key: u64)
    requires
        is_listing(s, m),
    ensures
        forall|i: int| 0 <= i < s.len() ==> (i < count_below(s, (min_key, Seq::empty())) <==> #[trigger] s[i].0 < min_key),
{
    lemma_count_below(s, (min_key, Seq::empty()));
    assert forall|i: int| 0 <= i < s.len() implies (i < count_below(s, (min_key, Seq::empty())) <==> #[trigger] s[i].0 < min_key) by {
        assert(!bytes_lt(s[i].1, Seq::<u8>::empty()));
    }
}

/// Where the members with a score key below `min_key` are exactly the first
/// `first`, those are the members that come before `(min_key, [])`.
proof fn lemma_count_split(s: Seq<(u64, Seq<u8>)>, min_key: u64, first: int)
    requires
        0 <= first <= s.len(),
        forall|i: int| 0 <= i < first ==> #[trigger] s[i].0 < min_key,
        forall|i: int| first <= i < s.len() ==> #[trigger] s[i].0 >= min_key,
    ensures
        count_below(s, (min_key, Seq::empty())) == first,
    decreases s.len(),
{
    if s.len() > 0 {
        let d = s.drop_last();
        let f = if first == s.len() { first - 1 } else { first };
        assert forall|i: int| 0 <= i < f implies #[trigger] d[i].0 < min_key by {
            assert(d[i] == s[i]);
        }
        assert forall|i: int| f <= i < d.len() implies #[trigger] d[i].0 >= min_key by {
            assert(d[i] == s[i]);
        }
        lemma_count_split(d, min_key, f);
        assert(!bytes_lt(s.last().1, Seq::<u8>::empty()));
        assert(s.last() == s[s.len() - 1]);
    }
}

/// A query skips `offset` members counted from the first member whose score
/// key is at least `min_key`, then gives the next ones in order, at most
/// `limit` of them: nothing when fewer than `offset` members have such a key.
pub proof fn lemma_query_window(
    s: Seq<(u64, Seq<u8>)>,
    min_key: u64,
    offset: int,
    limit: int,
    first: int,
)
    requires
        0 <= offset,
        0 <= limit,
        0 <= first <= s.len(),
        forall|i: int| 0 <= i < first ==> #[trigger] s[i].0 < min_key,
        forall|i: int| first <= i < s.len() ==> #[trigger] s[i].0 >= min_key,
    ensures
        query_members(s, min_key, offset, limit).len() == (if first + offset >= s.len() {
            0
        } else if limit < s.len() - first - offset {
            limit
        } else {
            s.len() - first - offset
        }),
        forall|j: int|
            0 <= j < query_members(s, min_key, offset, limit).len() ==> #[trigger] query_members(
                s,
                min_key,
                offset,
                limit,
            )[j] == s[first + offset + j],
{
    lemma_count_split(s, min_key, first);
}

/// Two listings of one map are the same sequence.
pub proof fn lemma_listing_unique(s1: Seq<(u64, Seq<u8>)>, s2: Seq<(u64, Seq<u8>)>, m: Map<Seq<u8>, u64>)
    requires
        is_listing(s1, m),
        is_listing(s2, m),
    ensures
        s1 == s2,
    decreases s1.len(),
{
    if s1.len() == 0 {
        if s2.len() > 0 {
            assert(m.contains_key(s2[0].1));
        }
        assert(s1 =~= s2);
    } else {
        assert(m.contains_key(s1[0].1));
        let j = choose|j: int| 0 <= j < s2.len() && #[trigger] s2[j].1 == s1[0].1;
        assert(m.contains_key(s2[0].1));
        let i = choose|i: int| 0 <= i < s1.len() && #[trigger] s1[i].1 == s2[0].1;
        assert(s1[0] == s2[j]);
        assert(s2[0] == s1[i]);
        if j > 0 {
            assert(member_lt(s2[0], s2[j]));
            if i > 0 {
                assert(member_lt(s1[0], s1[i]));
                lemma_member_lt(s1[0], s1[i], s1[0]);
            }
        }
        assert(s1[0] == s2[0]);
        lemma_listing_remove(s1, m, 0);
        lemma_listing_remove(s2, m, 0);
        lemma_listing_unique(s1.remove(0), s2.remove(0), m.remove(s1[0].1));
        assert(s1 =~= seq![s1[0]] + s1.remove(0));
        assert(s2 =~= seq![s2[0]] + s2.remove(0));
    }
}

/// A sorted set: members ordered by score key, then by name.
pub struct ZSet {
    tree: AvlTree<(u64, Vec<u8>)>,
    index: ConcurrentHashMap<u64>,
}

impl ZSet {
    /// The members, in increasing member order.
    pub closed spec fn members(&self) -> Seq<(u64, Seq<u8>)> {
        self.tree.view().map_values(|e: (u64, Vec<u8>)| member_view(e))
    }

    /// The score key of each member, by name.
    pub closed spec fn scores(&self) -> Map<Seq<u8>, u64> {
        self.index@
    }

    /// The tree and the map are well formed, and the tree lists the map.
    pub closed spec fn wf(&self) -> bool {
        &&& self.tree.wf()
        &&& self.index.wf()
        &&& is_listing(self.members(), self.index@)
        &&& self.members().len() <= MAX_MEMBERS
    }

    /// No room for another member.
    pub closed spec fn full(&self) -> bool {
        self.tree.view().len() >= MAX_MEMBERS || self.tree.arena().len() + 2 >= INVALID_IDX
    }

    /// The node slots the tree has taken so far.
    pub closed spec fn slot_count(&self) -> nat {
        self.tree.arena().len()
    }

    /// A set is full only at its capacity: below 0x7fff_fffe members, and
    /// with room for two more tree slots, it takes another member, so adding
    /// a new name to it returns `Some(true)`.
    pub proof fn lemma_not_full(&self)
        requires
            self.wf(),
            self.members().len() < 0x7fff_fffe,
            self.slot_count() + 2 < usize::MAX,
        ensures
            !self.full(),
    {
    }

    /// A well-formed set lists its members in increasing member order, each
    /// name once with its score key, and holds finitely many.
    pub proof fn lemma_listing(&self)
        requires
            self.wf(),
        ensures
            is_listing(self.members(), self.scores()),
            self.members().len() <= MAX_MEMBERS,
            self.scores().dom().finite(),
    {
        self.index.lemma_finite();
    }

    /// An empty set.
    #[must_use]
    pub fn new() -> (z: Self)
        ensures
            z.wf(),
            z.members() == Seq::<(u64, Seq<u8>)>::empty(),
            z.scores() == Map::<Seq<u8>, u64>::empty(),
            !z.full(),
    {
        let tree = AvlTree::new();
        assert(16usize & 15usize == 0) by (bit_vector);
        let index = ConcurrentHashMap::with_shard_count(16);
        let z = ZSet { tree, index };
        assert(z.members() =~= Seq::<(u64, Seq<u8>)>::empty());
        z
    }

    /// The number of members.
    #[must_use]
    pub fn len(&self) -> (n: usize)
        requires
            self.wf(),
        ensures
            n == self.members().len(),
    {
        self.tree.size() as usize
    }

    /// Whether the set has no member.
    #[must_use]
    pub fn is_empty(&self) -> (b: bool)
        requires
            self.wf(),
        ensures
            b == (self.members().len() == 0),
    {
        self.tree.is_empty()
    }

    /// The score key of the member named `name`, if there is one.
    #[must_use]
    pub fn score(&self, name: &[u8]) -> (r: Option<u64>)
        requires
            self.wf(),
        ensures
            r == if self.scores().contains_key(name@) {
                Some(self.scores()[name@])
            } else {
                None::<u64>
            },
    {
        match self.index.get_ref(name) {
            Some(k) => Some(*k),
            None => None,
        }
    }

    /// The size of the left subtree of live slot `i`.
    fn left_size(&self, i: usize) -> (n: usize)
        requires
            self.wf(),
            self.tree.tree().has(i as nat),
        ensures
            n == self.tree.tree().sub(i as nat).lchild().size(),
    {
        proof {
            self.tree.lemma_slots();
        }
        let node = self.tree.get(i).unwrap();
        let left = node.left;
        proof {
            lemma_pos_children(self.tree.tree(), i as nat);
        }
        if left == INVALID_IDX {
            proof {
                if self.tree.tree().sub(i as nat).lchild() is Node {
                    let c = self.tree.tree().sub(i as nat).lchild().root_nat();
                    lemma_sub_node_has(self.tree.tree(), c);
                }
            }
            0
        } else {
            proof {
                let c = self.tree.tree().sub(i as nat).lchild().root_nat();
                assert(self.tree.tree().sub(i as nat).lchild() is Node);
                lemma_sub_node_has(self.tree.tree(), c);
            }
            self.tree.get(left).unwrap().cnt as usize
        }
    }

    /// The number of members before `(key, name)` in member order, and the
    /// slot of the first member not before it, if there is one: a descent
    /// from the root.
    fn lower_bound(&self, key: u64, name: &[u8]) -> (r: (Option<usize>, usize))
        requires
            self.wf(),
        ensures
            r.1 == count_below(self.members(), (key, name@)),
            r.1 < self.members().len() ==> r.0 == Some(slot_of(self.tree.slots(), ix(r.1))),
            r.1 >= self.members().len() ==> r.0 is None,
    {
        let ghost t = (key, name@);
        let ghost m = self.members();
        let ghost s = self.tree.tree();
        let ghost n = len_of(m);
        let target = (key, vstd::slice::slice_to_vec(name));
        proof {
            self.tree.lemma_slots();
            lemma_count_below(m, t);
            assert(member_view(target) == t);
        }
        let ghost cb = int_of(count_below(m, t));
        let mut cur = self.tree.root();
        let mut lo: usize = 0;
        let ghost mut hi: int = n;
        let mut found: Option<usize> = None;
        proof {
            if s is Node {
                assert(s.sub(s.root_nat()) == s);
                assert(s.before(s.root_nat()).len() == 0);
            }
        }
        while cur != INVALID_IDX
            invariant
                self.wf(),
                m == self.members(),
                s == self.tree.tree(),
                n == m.len(),
                cb == count_below(m, t),
                member_view(target) == t,
                0 <= lo <= cb <= hi <= n,
                cur != INVALID_IDX ==> s.has(nat_of(cur)) && s.before(nat_of(cur)).len() == lo && lo
                    + s.sub(nat_of(cur)).size() == hi,
                cur == INVALID_IDX ==> lo == hi,
                hi < n ==> found == Some(slot_of(self.tree.slots(), hi)),
                hi == n ==> found is None,
            decreases hi - lo,
        {
            proof {
                self.tree.lemma_slots();
                lemma_count_below(m, t);
                lemma_pos_children(s, nat_of(cur));
            }
            let node = self.tree.get(cur).unwrap();
            let lsize = self.left_size(cur);
            let ghost p = s.pos(nat_of(cur));
            proof {
                assert(m[p] == member_view(node.data));
            }
            match compare_members(&node.data, &target) {
                Ordering::Less => {
                    proof {
                        assert(p < cb);
                        if s.sub(nat_of(cur)).rchild() is Node {
                            lemma_sub_node_has(s, s.sub(nat_of(cur)).rchild().root_nat());
                        }
                    }
                    lo = lo + lsize + 1;
                    cur = node.right;
                },
                _ => {
                    proof {
                        assert(p >= cb);
                        if s.sub(nat_of(cur)).lchild() is Node {
                            lemma_sub_node_has(s, s.sub(nat_of(cur)).lchild().root_nat());
                        }
                        assert(self.tree.slots()[p] == nat_of(cur));
                    }
                    found = Some(cur);
                    proof {
                        hi = p;
                    }
                    cur = node.left;
                },
            }
        }
        (found, lo)
    }

    /// Whether there is no room for another member.
    fn is_full(&self) -> (b: bool)
        requires
            self.wf(),
        ensures
            b == self.full(),
    {
        proof {
            self.tree.lemma_slots();
        }
        self.len() >= MAX_MEMBERS || self.tree.arena_len() >= INVALID_IDX - 2
    }

    /// Puts in a member with a new name.
    fn insert_member(&mut self, key: u64, name: Vec<u8>)
        requires
            old(self).wf(),
            !old(self).scores().contains_key(name@),
            !old(self).full(),
        ensures
            final(self).wf(),
            final(self).scores() == old(self).scores().insert(name@, key),
    {
        let ghost v0 = self.tree.view();
        let ghost m0 = self.members();
        let ghost i0 = self.index@;
        let index_name = vstd::slice::slice_to_vec(name.as_slice());
        let elem = (key, name);
        let ghost d = elem;
        let ghost e = member_view(elem);
        proof {
            self.tree.lemma_slots();
        }
        self.tree.insert(elem, compare_members);
        self.index.insert(index_name, key);
        proof {
            let v1 = self.tree.view();
            let k = choose|k: int| placed_at(v0, v1, d, compare_members, k);
            assert(placed_at(v0, v1, d, compare_members, k));
            assert(self.members() =~= m0.insert(k, e));
            if k > 0 {
                let o = choose|o: Ordering| #[trigger] call_ensures(compare_members, (&d, &v0[k - 1]), o) && !(o is Less);
                assert(m0[k - 1] == member_view(v0[k - 1]));
                assert(!member_lt(e, m0[k - 1]));
                assert(m0[k - 1].1 != e.1) by {
                    assert(i0.contains_key(m0[k - 1].1));
                }
                lemma_member_lt(m0[k - 1], e, e);
            }
            if k < v0.len() {
                assert(call_ensures(compare_members, (&d, &v0[k]), Ordering::Less));
                assert(m0[k] == member_view(v0[k]));
            }
            lemma_listing_insert(m0, i0, k, e);
        }
    }

    /// Takes out the member named `name`, whose score key is `key`.
    fn remove_member(&mut self, key: u64, name: &[u8])
        requires
            old(self).wf(),
            old(self).scores().contains_key(name@),
            old(self).scores()[name@] == key,
        ensures
            final(self).wf(),
            final(self).scores() == old(self).scores().remove(name@),
            !old(self).full() ==> !final(self).full(),
    {
        let ghost m0 = self.members();
        let ghost i0 = self.index@;
        let ghost v0 = self.tree.view();
        proof {
            self.tree.lemma_slots();
            lemma_listing_find(m0, i0, name@);
        }
        let (found, p) = self.lower_bound(key, name);
        let slot = match found {
            Some(slot) => slot,
            None => {
                proof {
                    assert(false);
                }
                return;
            },
        };
        proof {
            assert(self.tree.tree().has(self.tree.slots()[ix(p)]));
            assert(self.tree.tree().pos(self.tree.slots()[ix(p)]) == p);
        }
        self.tree.delete(slot);
        self.index.remove(name);
        proof {
            assert(self.tree.view() == v0.remove(ix(p)));
            assert(self.members() =~= m0.remove(ix(p)));
            lemma_listing_remove(m0, i0, ix(p));
        }
    }

    /// Adds the member `name` with score key `key`, or gives it that key if
    /// it is there; returns whether it is new. Returns `None`, changing
    /// nothing, when the set is full and the member would change.
    pub fn add(&mut self, name: Vec<u8>, key: u64) -> (r: Option<bool>)
        requires
            old(self).wf(),
        ensures
            final(self).wf(),
            r is None <==> old(self).full() && !(old(self).scores().contains_key(name@)
                && old(self).scores()[name@] == key),
            r is None ==> final(self).scores() == old(self).scores(),
            r matches Some(added) ==> added == !old(self).scores().contains_key(name@)
                && final(self).scores() == old(self).scores().insert(name@, key),
    {
        match self.score(name.as_slice()) {
            Some(old_key) => {
                if old_key == key {
                    proof {
                        assert(self.scores().insert(name@, key) =~= self.scores());
                    }
                    return Some(false);
                }
                if self.is_full() {
                    return None;
                }
                let ghost s0 = self.scores();
                self.remove_member(old_key, name.as_slice());
                self.insert_member(key, name);
                proof {
                    assert(s0.remove(name@).insert(name@, key) =~= s0.insert(name@, key));
                }
                Some(false)
            },
            None => {
                if self.is_full() {
                    return None;
                }
                self.insert_member(key, name);
                Some(true)
            },
        }
    }

    /// The members from the first whose score key is at least `min_key`,
    /// skipping `offset` of them and giving at most `limit`, in member
    /// order, each as its name and score key.
    pub fn query(&self, min_key: u64, offset: usize, limit: usize) -> (r: Vec<(Vec<u8>, u64)>)
        requires
            self.wf(),
        ensures
            r@.map_values(|p: (Vec<u8>, u64)| entry_view(p)) == query_members(
                self.members(),
                min_key,
                offset as int,
                limit as int,
            ).map_values(|m: (u64, Seq<u8>)| named(m)),
    {
        let ghost ms = self.members();
        let ghost want = query_members(ms, min_key, offset as int, limit as int);
        let mut result: Vec<(Vec<u8>, u64)> = Vec::new();
        let empty: [u8; 0] = [];
        let (found, f) = self.lower_bound(min_key, empty.as_slice());
        let n = self.len();
        proof {
            self.tree.lemma_slots();
            assert(empty@ =~= Seq::<u8>::empty());
        }
        if f >= n || offset >= n - f || limit == 0 {
            proof {
                assert(result@.map_values(|p: (Vec<u8>, u64)| entry_view(p)) =~= want.map_values(|m: (u64, Seq<u8>)| named(m)));
            }
            return result;
        }
        let from = f + offset;
        let start = match found {
            Some(slot) => slot,
            None => {
                return result;
            },
        };
        proof {
            assert(self.tree.tree().has(self.tree.slots()[f as int]));
        }
        let first = self.tree.offset(start, offset as i64);
        let mut cur = match first {
            Some(slot) => slot,
            None => {
                return result;
            },
        };
        let mut i: usize = 0;
        loop
            invariant_except_break
                from + i < n,
                i < limit,
                cur == slot_of(self.tree.slots(), from + i),
            invariant
                self.wf(),
                ms == self.members(),
                n == ms.len(),
                from < n,
                0 <= from + i <= n,
                i <= limit,
                want == query_members(ms, min_key, offset as int, limit as int),
                from == count_below(ms, (min_key, Seq::<u8>::empty())) + offset,
                result.len() == i,
                forall|j: int| 0 <= j < i ==> entry_view(#[trigger] result@[j]) == named(ms[from + j]),
            ensures
                result.len() == want.len(),
                forall|j: int| 0 <= j < result.len() ==> entry_view(#[trigger] result@[j]) == named(want[j]),
            decreases n - i,
        {
            proof {
                self.tree.lemma_slots();
                assert(self.tree.tree().has(self.tree.slots()[from + i]));
            }
            let node = self.tree.get(cur).unwrap();
            proof {
                assert(ms[from + i] == member_view(node.data));
            }
            result.push((vstd::slice::slice_to_vec(node.data.1.as_slice()), node.data.0));
            i += 1;
            if i == limit {
                break;
            }
            match self.tree.offset(cur, 1) {
                Some(next) => {
                    cur = next;
                },
                None => {
                    break;
                },
            }
        }
        proof {
            assert(result@.map_values(|p: (Vec<u8>, u64)| entry_view(p)) =~= want.map_values(|m: (u64, Seq<u8>)| named(m)));
        }
        result
    }

    /// The position in member order of the member named `name`, if there
    /// is one.
    #[must_use]
    pub fn rank(&self, name: &[u8]) -> (r: Option<usize>)
        requires
            self.wf(),
        ensures
            r.is_some() == self.scores().contains_key(name@),
            r matches Some(i) ==> i < self.members().len() && self.members()[i as int].1 == name@,
    {
        match self.score(name) {
            Some(key) => {
                proof {
                    lemma_listing_find(self.members(), self.index@, name@);
                }
                let (_, p) = self.lower_bound(key, name);
                Some(p)
            },
            None => None,
        }
    }

    /// Removes the member named `name`; returns whether it was there.
    pub fn remove(&mut self, name: &[u8]) -> (r: bool)
        requires
            old(self).wf(),
        ensures
            final(self).wf(),
            r == old(self).scores().contains_key(name@),
            final(self).scores() == old(self).scores().remove(name@),
    {
        match self.score(name) {
            Some(key) => {
                self.remove_member(key, name);
                true
            },
            None => {
                proof {
                    assert(self.scores().remove(name@) =~= self.scores());
                }
                false
            },
        }
    }
}

} // verus!
