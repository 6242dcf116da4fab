//! Why rebalancing works: the shapes an insertion or a deletion leaves are
//! balanced everywhere but on one path, by a margin the rotations of
//! [`crate::avl::AvlTree::fix`] take back, one node at a time, up to the root.

use crate::avl::{attach_shape, fixl, fixr, rotl, rotr, Shape};
use vstd::prelude::*;

verus! {

/// The larger of two integers.
pub open spec fn max_int(a: int, b: int) -> int {
    if a >= b {
        a
    } else {
        b
    }
}

/// The height of `s` if the subtree at slot `x` were `h` high.
pub open spec fn height_with(s: Shape, x: nat, h: int) -> int
    decreases s,
{
    match s {
        Shape::Leaf => 0,
        Shape::Node { left, idx, right } => if idx == x {
            h
        } else if left.has(x) {
            1 + max_int(height_with(*left, x, h), right.height() as int)
        } else if right.has(x) {
            1 + max_int(left.height() as int, height_with(*right, x, h))
        } else {
            s.height() as int
        },
    }
}

/// A node whose sides are `hl` and `hr` high was `h` high and balanced
/// before one side changed by at most one level; or it is a new leaf, which
/// counts as having been `0` high.
pub open spec fn fixable(hl: int, hr: int, h: int) -> bool {
    ||| hl == 0 && hr == 0 && h == 0
    ||| exists|o: int|
        -1 <= hl - o <= 1 && -1 <= o - hr <= 1 && h == 1 + #[trigger] max_int(o, hr)
    ||| exists|o: int|
        -1 <= hr - o <= 1 && -1 <= hl - o <= 1 && h == 1 + #[trigger] max_int(hl, o)
}

/// Away from the path down to slot `x` every node is balanced; on the path,
/// each node's sides would differ by at most one level were the subtree at
/// `x` `h` high; at `x` both sides are balanced and [`fixable`] towards `h`.
pub open spec fn near(s: Shape, x: nat, h: int) -> bool
    decreases s,
{
    match s {
        Shape::Leaf => true,
        Shape::Node { left, idx, right } => if idx == x {
            &&& left.balanced()
            &&& right.balanced()
            &&& fixable(left.height() as int, right.height() as int, h)
        } else if left.has(x) {
            &&& near(*left, x, h)
            &&& right.balanced()
            &&& -1 <= height_with(*left, x, h) - right.height() <= 1
        } else if right.has(x) {
            &&& near(*right, x, h)
            &&& left.balanced()
            &&& -1 <= left.height() - height_with(*right, x, h) <= 1
        } else {
            s.balanced()
        },
    }
}

/// What the balance of the subtree at `t` becomes after the step of
/// [`crate::avl::AvlTree::fix`] there.
pub open spec fn fixed(t: Shape) -> Shape {
    if t.lchild().height() == t.rchild().height() + 2 {
        fixl(t)
    } else if t.lchild().height() + 2 == t.rchild().height() {
        fixr(t)
    } else {
        t
    }
}

/// A balanced tree is ready to be walked up from any of its slots: it is
/// [`near`] there with the height of the subtree it has there, which gives
/// the whole tree its height.
pub proof fn lemma_balanced_near(s: Shape, x: nat)
    requires
        s.balanced(),
        s.has(x),
    ensures
        near(s, x, s.sub(x).height() as int),
        height_with(s, x, s.sub(x).height() as int) == s.height(),
    decreases s,
{
    match s {
        Shape::Leaf => {},
        Shape::Node { left, idx, right } => {
            if idx == x {
                let hl = left.height() as int;
                let hr = right.height() as int;
                assert(s.sub(x).height() == 1 + max_int(hl, hr));
                assert(fixable(hl, hr, s.sub(x).height() as int));
            } else if left.has(x) {
                lemma_balanced_near(*left, x);
            } else {
                lemma_balanced_near(*right, x);
            }
        },
    }
}

/// A node of a balanced tree has a balanced subtree.
pub proof fn lemma_sub_balanced(s: Shape, i: nat)
    requires
        s.balanced(),
    ensures
        s.sub(i).balanced(),
        s.sub(i).lchild().balanced(),
        s.sub(i).rchild().balanced(),
    decreases s,
{
    match s {
        Shape::Leaf => {},
        Shape::Node { left, idx, right } => {
            if i == idx {
            } else if left.has(i) {
                lemma_sub_balanced(*left, i);
            } else {
                lemma_sub_balanced(*right, i);
            }
        },
    }
}

/// Rebalancing a node whose left side is two levels taller than its right,
/// both sides balanced, gives a balanced tree as high as the left side or
/// one level more.
pub proof fn lemma_fixl_balanced(t: Shape)
    requires
        t is Node,
        t.lchild().balanced(),
        t.rchild().balanced(),
        t.lchild().height() == t.rchild().height() + 2,
    ensures
        fixl(t).balanced(),
        t.lchild().height() <= fixl(t).height() <= t.lchild().height() + 1,
{
    let l = t.lchild();
    let r = t.rchild();
    let i = t.root_nat();
    assert(l is Node);
    let a = l.lchild();
    let b = l.rchild();
    let j = l.root_nat();
    assert(l == Shape::Node { left: Box::new(a), idx: j, right: Box::new(b) });
    assert(t == Shape::Node { left: Box::new(l), idx: i, right: Box::new(r) });
    if a.height() < b.height() {
        assert(b is Node);
        let b1 = b.lchild();
        let b2 = b.rchild();
        let k = b.root_nat();
        assert(b == Shape::Node { left: Box::new(b1), idx: k, right: Box::new(b2) });
        assert(l.balanced());
        assert(a.balanced() && b.balanced());
        assert(b1.balanced() && b2.balanced());
        assert(b.height() == 1 + if b1.height() >= b2.height() { b1.height() } else { b2.height() });
        assert(a.height() + 1 == b.height());
        let la = Shape::Node { left: Box::new(a), idx: j, right: Box::new(b1) };
        assert(rotl(l) == Shape::Node { left: Box::new(la), idx: k, right: Box::new(b2) });
        let t2 = Shape::Node { left: Box::new(rotl(l)), idx: i, right: Box::new(r) };
        let rb = Shape::Node { left: Box::new(b2), idx: i, right: Box::new(r) };
        assert(rotr(t2) == Shape::Node { left: Box::new(la), idx: k, right: Box::new(rb) });
        assert(la.balanced());
        assert(rb.balanced());
    } else {
        let rb = Shape::Node { left: Box::new(b), idx: i, right: Box::new(r) };
        assert(rotr(t) == Shape::Node { left: Box::new(a), idx: j, right: Box::new(rb) });
        assert(rb.balanced());
    }
}

/// Rebalancing a node whose right side is two levels taller than its left,
/// both sides balanced, gives a balanced tree as high as the right side or
/// one level more.
pub proof fn lemma_fixr_balanced(t: Shape)
    requires
        t is Node,
        t.lchild().balanced(),
        t.rchild().balanced(),
        t.rchild().height() == t.lchild().height() + 2,
    ensures
        fixr(t).balanced(),
        t.rchild().height() <= fixr(t).height() <= t.rchild().height() + 1,
{
    let l = t.lchild();
    let r = t.rchild();
    let i = t.root_nat();
    assert(r is Node);
    let a = r.lchild();
    let b = r.rchild();
    let j = r.root_nat();
    assert(r == Shape::Node { left: Box::new(a), idx: j, right: Box::new(b) });
    assert(t == Shape::Node { left: Box::new(l), idx: i, right: Box::new(r) });
    if b.height() < a.height() {
        assert(a is Node);
        let a1 = a.lchild();
        let a2 = a.rchild();
        let k = a.root_nat();
        assert(a == Shape::Node { left: Box::new(a1), idx: k, right: Box::new(a2) });
        assert(r.balanced());
        assert(a.balanced() && b.balanced());
        assert(a1.balanced() && a2.balanced());
        assert(a.height() == 1 + if a1.height() >= a2.height() { a1.height() } else { a2.height() });
        assert(b.height() + 1 == a.height());
        let rb = Shape::Node { left: Box::new(a2), idx: j, right: Box::new(b) };
        assert(rotr(r) == Shape::Node { left: Box::new(a1), idx: k, right: Box::new(rb) });
        let t2 = Shape::Node { left: Box::new(l), idx: i, right: Box::new(rotr(r)) };
        let la = Shape::Node { left: Box::new(l), idx: i, right: Box::new(a1) };
        assert(rotl(t2) == Shape::Node { left: Box::new(la), idx: k, right: Box::new(rb) });
        assert(la.balanced());
        assert(rb.balanced());
    } else {
        let la = Shape::Node { left: Box::new(l), idx: i, right: Box::new(a) };
        assert(rotl(t) == Shape::Node { left: Box::new(la), idx: j, right: Box::new(b) });
        assert(la.balanced());
    }
}

/// The step of rebalancing at a node whose sides are balanced and
/// [`fixable`] towards `h` leaves a balanced subtree within one level of `h`.
pub proof fn lemma_fixed_balanced(t: Shape, h: int)
    requires
        t is Node,
        t.lchild().balanced(),
        t.rchild().balanced(),
        fixable(t.lchild().height() as int, t.rchild().height() as int, h),
    ensures
        fixed(t).balanced(),
        h - 1 <= fixed(t).height() <= h + 1,
{
    let hl = t.lchild().height() as int;
    let hr = t.rchild().height() as int;
    assert(t == Shape::Node { left: Box::new(t.lchild()), idx: t.root_nat(), right: Box::new(t.rchild()) });
    if hl == 0 && hr == 0 && h == 0 {
    } else if exists|o: int|
        -1 <= hl - o <= 1 && -1 <= o - hr <= 1 && h == 1 + #[trigger] max_int(o, hr) {
        let o = choose|o: int|
            -1 <= hl - o <= 1 && -1 <= o - hr <= 1 && h == 1 + #[trigger] max_int(o, hr);
        if hl == hr + 2 {
            lemma_fixl_balanced(t);
        } else if hl + 2 == hr {
            lemma_fixr_balanced(t);
        }
    } else {
        let o = choose|o: int|
            -1 <= hr - o <= 1 && -1 <= hl - o <= 1 && h == 1 + #[trigger] max_int(hl, o);
        if hl == hr + 2 {
            lemma_fixl_balanced(t);
        } else if hl + 2 == hr {
            lemma_fixr_balanced(t);
        }
    }
}

/// Where [`near`] holds for `x`, the subtree at `x` has balanced sides that
/// are [`fixable`] towards `h`.
pub proof fn lemma_near_at(s: Shape, x: nat, h: int)
    requires
        s.distinct(),
        s.has(x),
        near(s, x, h),
    ensures
        s.sub(x) is Node,
        s.sub(x).lchild().balanced(),
        s.sub(x).rchild().balanced(),
        fixable(s.sub(x).lchild().height() as int, s.sub(x).rchild().height() as int, h),
    decreases s,
{
    match s {
        Shape::Leaf => {},
        Shape::Node { left, idx, right } => {
            if x == idx {
            } else if left.has(x) {
                lemma_near_at(*left, x, h);
            } else {
                lemma_near_at(*right, x, h);
            }
        },
    }
}

/// Replacing the subtree at `x` by one with the same slots, the height of the
/// tree as seen from an ancestor `q` of `x`, were `q`'s subtree as high as
/// it would be with `x`'s subtree `h` high, is the height seen from `x`.
pub proof fn lemma_height_with_replace(s: Shape, x: nat, nt: Shape, q: nat, h: int)
    requires
        s.distinct(),
        s.has(q),
        s.sub(q).has(x),
        q != x,
        nt.idxs() == s.sub(x).idxs(),
    ensures
        s.replace(x, nt).has(q),
        height_with(s.replace(x, nt), q, height_with(s.sub(q), x, h)) == height_with(s, x, h),
    decreases s,
{
    match s {
        Shape::Leaf => {},
        Shape::Node { left, idx, right } => {
            if q == idx {
            } else if left.has(q) {
                crate::avl::lemma_sub_is_node(*left, q);
                assert(left.has(x));
                lemma_height_with_replace(*left, x, nt, q, h);
                assert(!right.has(x));
            } else {
                crate::avl::lemma_sub_is_node(*right, q);
                assert(right.has(x));
                assert(!left.has(x));
                lemma_height_with_replace(*right, x, nt, q, h);
                crate::avl::lemma_replace_idxs(*right, x, nt);
                assert(!left.has(q));
            }
        },
    }
}

/// `x` hangs directly below `q`.
pub open spec fn child_of(s: Shape, q: nat, x: nat) -> bool {
    ||| s.sub(q).lchild() is Node && s.sub(q).lchild().root_nat() == x
    ||| s.sub(q).rchild() is Node && s.sub(q).rchild().root_nat() == x
}

/// Once the subtree at `x` is balanced and within a level of `h`, the
/// balance is off only on the path down to `x`'s parent `q`, by a margin
/// [`fixable`] towards the height `q`'s subtree would have with `x`'s `h`
/// high.
pub proof fn lemma_near_up(s: Shape, x: nat, h: int, nt: Shape, q: nat)
    requires
        s.distinct(),
        s.has(x),
        s.has(q),
        child_of(s, q, x),
        near(s, x, h),
        nt.balanced(),
        h - 1 <= nt.height() <= h + 1,
        nt.idxs() == s.sub(x).idxs(),
    ensures
        s.replace(x, nt).has(q),
        near(s.replace(x, nt), q, height_with(s.sub(q), x, h)),
    decreases s,
{
    match s {
        Shape::Leaf => {},
        Shape::Node { left, idx, right } => {
            let l = *left;
            let r = *right;
            if q == idx {
                if l is Node && l.root_nat() == x {
                    assert(l.has(x));
                    assert(x != idx);
                    assert(s.replace(x, nt) == Shape::Node { left: Box::new(nt), idx, right });
                    assert(height_with(l, x, h) == h);
                    let hh = height_with(s, x, h);
                    assert(hh == 1 + max_int(h, r.height() as int));
                    assert(-1 <= nt.height() - h <= 1 && -1 <= h - r.height() <= 1 && hh == 1
                        + max_int(h, r.height() as int));
                } else {
                    assert(r is Node && r.root_nat() == x);
                    assert(r.has(x));
                    assert(x != idx);
                    assert(!l.has(x));
                    assert(s.replace(x, nt) == Shape::Node { left, idx, right: Box::new(nt) });
                    assert(height_with(r, x, h) == h);
                    let hh = height_with(s, x, h);
                    assert(hh == 1 + max_int(l.height() as int, h));
                    assert(-1 <= nt.height() - h <= 1 && -1 <= l.height() - h <= 1 && hh == 1
                        + max_int(l.height() as int, h));
                }
            } else if l.has(q) {
                crate::avl::lemma_sub_is_node(l, q);
                assert(l.sub(q).has(x)) by {
                    crate::avl::lemma_sub_distinct(l, q);
                    if l.sub(q).lchild() is Node && l.sub(q).lchild().root_nat() == x {
                        assert(l.sub(q).lchild().has(x));
                    } else {
                        assert(l.sub(q).rchild().has(x));
                    }
                }
                crate::avl::lemma_replace_idxs(l, q, l.sub(q));
                assert(l.has(x));
                assert(x != idx);
                assert(q != x) by {
                    crate::avl::lemma_sub_distinct(l, q);
                    crate::avl::lemma_sub_is_node(l, q);
                }
                lemma_near_up(l, x, h, nt, q);
                lemma_height_with_replace(l, x, nt, q, h);
                let l2 = l.replace(x, nt);
                assert(s.replace(x, nt) == Shape::Node { left: Box::new(l2), idx, right });
            } else {
                assert(r.has(q));
                crate::avl::lemma_sub_is_node(r, q);
                assert(r.sub(q).has(x)) by {
                    crate::avl::lemma_sub_distinct(r, q);
                    if r.sub(q).lchild() is Node && r.sub(q).lchild().root_nat() == x {
                        assert(r.sub(q).lchild().has(x));
                    } else {
                        assert(r.sub(q).rchild().has(x));
                    }
                }
                crate::avl::lemma_replace_idxs(r, q, r.sub(q));
                assert(r.has(x));
                assert(x != idx);
                assert(!l.has(x));
                assert(q != x) by {
                    crate::avl::lemma_sub_distinct(r, q);
                    crate::avl::lemma_sub_is_node(r, q);
                }
                lemma_near_up(r, x, h, nt, q);
                lemma_height_with_replace(r, x, nt, q, h);
                let r2 = r.replace(x, nt);
                assert(s.replace(x, nt) == Shape::Node { left, idx, right: Box::new(r2) });
                crate::avl::lemma_replace_idxs(r, x, nt);
                assert(!l.has(q));
            }
        },
    }
}

/// Hanging a new leaf on an empty side of `cur` in a balanced tree leaves
/// the balance off only on the path to the leaf, the leaf counting as new.
pub proof fn lemma_near_attach(s: Shape, cur: nat, new: nat, go_left: bool)
    requires
        s.balanced(),
        s.distinct(),
        s.has(cur),
        !s.has(new),
        go_left ==> s.sub(cur).lchild() is Leaf,
        !go_left ==> s.sub(cur).rchild() is Leaf,
    ensures
        s.replace(cur, attach_shape(s.sub(cur), new, go_left)).has(new),
        near(s.replace(cur, attach_shape(s.sub(cur), new, go_left)), new, 0),
        height_with(s.replace(cur, attach_shape(s.sub(cur), new, go_left)), new, 0) == s.height(),
    decreases s,
{
    let leaf = Shape::Node { left: Box::new(Shape::Leaf), idx: new, right: Box::new(Shape::Leaf) };
    assert(leaf.has(new));
    assert(near(leaf, new, 0));
    assert(height_with(leaf, new, 0) == 0);
    match s {
        Shape::Leaf => {},
        Shape::Node { left, idx, right } => {
            let l = *left;
            let r = *right;
            if cur == idx {
                if go_left {
                    assert(s.replace(cur, attach_shape(s.sub(cur), new, go_left)) == Shape::Node {
                        left: Box::new(leaf),
                        idx,
                        right,
                    });
                } else {
                    assert(!l.has(new));
                    assert(s.replace(cur, attach_shape(s.sub(cur), new, go_left)) == Shape::Node {
                        left,
                        idx,
                        right: Box::new(leaf),
                    });
                }
            } else if l.has(cur) {
                lemma_near_attach(l, cur, new, go_left);
                let l2 = l.replace(cur, attach_shape(l.sub(cur), new, go_left));
                assert(s.replace(cur, attach_shape(s.sub(cur), new, go_left)) == Shape::Node {
                    left: Box::new(l2),
                    idx,
                    right,
                });
            } else {
                lemma_near_attach(r, cur, new, go_left);
                let r2 = r.replace(cur, attach_shape(r.sub(cur), new, go_left));
                assert(!l.has(new));
                assert(s.replace(cur, attach_shape(s.sub(cur), new, go_left)) == Shape::Node {
                    left,
                    idx,
                    right: Box::new(r2),
                });
            }
        },
    }
}

/// Taking out a slot with no right side, its left side moving up, leaves
/// the balance of a balanced tree off only on the path to the slot's parent
/// `p`, by a margin [`fixable`] towards the height `p`'s subtree had.
pub proof fn lemma_near_detach(s: Shape, idx: nat, p: nat)
    requires
        s.balanced(),
        s.distinct(),
        s.has(idx),
        s.has(p),
        child_of(s, p, idx),
        s.sub(idx).rchild() is Leaf,
    ensures
        s.replace(idx, s.sub(idx).lchild()).has(p),
        near(s.replace(idx, s.sub(idx).lchild()), p, s.sub(p).height() as int),
        height_with(s.replace(idx, s.sub(idx).lchild()), p, s.sub(p).height() as int) == s.height(),
    decreases s,
{
    match s {
        Shape::Leaf => {},
        Shape::Node { left, idx: i, right } => {
            let l = *left;
            let r = *right;
            if p == i {
                if l is Node && l.root_nat() == idx {
                    assert(l.has(idx));
                    assert(idx != i);
                    assert(s.sub(idx) == l);
                    assert(s.replace(idx, s.sub(idx).lchild()) == Shape::Node {
                        left: Box::new(l.lchild()),
                        idx: i,
                        right,
                    });
                    assert(l == Shape::Node { left: Box::new(l.lchild()), idx, right: Box::new(l.rchild()) });
                    assert(l.balanced());
                    assert(l.rchild() is Leaf);
                    assert(l.rchild().height() == 0);
                    assert(l.lchild().balanced());
                    assert(l.height() == l.lchild().height() + 1);
                    let hh = s.height() as int;
                    assert(-1 <= l.lchild().height() - l.height() <= 1 && -1 <= l.height() - r.height() <= 1
                        && hh == 1 + max_int(l.height() as int, r.height() as int));
                } else {
                    assert(r is Node && r.root_nat() == idx);
                    assert(r.has(idx));
                    assert(idx != i);
                    assert(!l.has(idx));
                    assert(s.sub(idx) == r);
                    assert(s.replace(idx, s.sub(idx).lchild()) == Shape::Node {
                        left,
                        idx: i,
                        right: Box::new(r.lchild()),
                    });
                    assert(r == Shape::Node { left: Box::new(r.lchild()), idx, right: Box::new(r.rchild()) });
                    assert(r.balanced());
                    assert(r.rchild() is Leaf);
                    assert(r.rchild().height() == 0);
                    assert(r.lchild().balanced());
                    assert(r.height() == r.lchild().height() + 1);
                    let hh = s.height() as int;
                    assert(-1 <= r.lchild().height() - r.height() <= 1 && -1 <= l.height() - r.height() <= 1
                        && hh == 1 + max_int(l.height() as int, r.height() as int));
                }
            } else if l.has(p) {
                crate::avl::lemma_sub_is_node(l, p);
                assert(l.sub(p).has(idx)) by {
                    if l.sub(p).lchild() is Node && l.sub(p).lchild().root_nat() == idx {
                        assert(l.sub(p).lchild().has(idx));
                    } else {
                        assert(l.sub(p).rchild().has(idx));
                    }
                }
                crate::avl::lemma_replace_idxs(l, p, l.sub(p));
                assert(l.has(idx));
                assert(idx != i);
                assert(s.sub(idx) == l.sub(idx));
                lemma_near_detach(l, idx, p);
                let l2 = l.replace(idx, l.sub(idx).lchild());
                assert(s.replace(idx, s.sub(idx).lchild()) == Shape::Node { left: Box::new(l2), idx: i, right });
            } else {
                assert(r.has(p));
                crate::avl::lemma_sub_is_node(r, p);
                assert(r.sub(p).has(idx)) by {
                    if r.sub(p).lchild() is Node && r.sub(p).lchild().root_nat() == idx {
                        assert(r.sub(p).lchild().has(idx));
                    } else {
                        assert(r.sub(p).rchild().has(idx));
                    }
                }
                crate::avl::lemma_replace_idxs(r, p, r.sub(p));
                assert(r.has(idx));
                assert(idx != i);
                assert(!l.has(idx));
                assert(s.sub(idx) == r.sub(idx));
                lemma_near_detach(r, idx, p);
                let r2 = r.replace(idx, r.sub(idx).lchild());
                assert(s.replace(idx, s.sub(idx).lchild()) == Shape::Node { left, idx: i, right: Box::new(r2) });
                assert(!l.has(p));
            }
        },
    }
}

/// The fewest nodes a balanced tree `h` levels high can have.
pub open spec fn min_size(h: nat) -> nat
    decreases h,
{
    if h == 0 {
        0
    } else if h == 1 {
        1
    } else {
        1 + min_size((h - 1) as nat) + min_size((h - 2) as nat)
    }
}

/// A taller balanced tree needs at least as many nodes.
pub proof fn lemma_min_size_mono(a: nat, b: nat)
    requires
        a <= b,
    ensures
        min_size(a) <= min_size(b),
    decreases b,
{
    if a < b {
        lemma_min_size_mono(a, (b - 1) as nat);
        if b >= 2 {
            assert(min_size(b) == 1 + min_size((b - 1) as nat) + min_size((b - 2) as nat));
        }
    }
}

/// A balanced tree has at least [`min_size`] of its height nodes, so its
/// height grows with the logarithm of its size.
pub proof fn lemma_balanced_size(s: Shape)
    requires
        s.balanced(),
    ensures
        s.size() >= min_size(s.height()),
    decreases s,
{
    match s {
        Shape::Leaf => {},
        Shape::Node { left, idx, right } => {
            lemma_balanced_size(*left);
            lemma_balanced_size(*right);
            let h = s.height();
            if h >= 2 {
                if left.height() >= right.height() {
                    lemma_min_size_mono((h - 2) as nat, right.height());
                } else {
                    lemma_min_size_mono((h - 2) as nat, left.height());
                }
            }
        },
    }
}

} // verus!
