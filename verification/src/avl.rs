//! An arena-allocated AVL tree: nodes live in a vector and refer to each
//! other by index, `usize::MAX` standing for "no node".

use std::cmp::Ordering;
use crate::balance::{
    child_of, fixed, height_with, lemma_balanced_size, lemma_fixed_balanced, lemma_near_at,
    lemma_near_attach, lemma_near_detach, lemma_near_up, lemma_sub_balanced, min_size, near,
};
use vstd::prelude::*;

verus! {

/// The index that stands for "no node".
pub const INVALID_IDX: usize = usize::MAX;

/// One node of the arena.
#[derive(Debug, Clone)]
pub struct Node<T> {
    pub data: T,
    pub depth: u32,
    pub cnt: u32,
    pub left: usize,
    pub right: usize,
    pub parent: usize,
}

/// `s` with `x` added.
#[verifier::inline]
pub open spec fn set_add<A>(s: Set<A>, x: A) -> Set<A> {
    s.insert(x)
}

/// `s` with `x` put at position `k`.
#[verifier::inline]
pub open spec fn seq_put<A>(s: Seq<A>, k: int, x: A) -> Seq<A> {
    s.insert(k, x)
}

/// A natural number as an integer.
#[verifier::inline]
pub open spec fn int_of(x: nat) -> int {
    x as int
}

/// The length of a sequence as an integer.
#[verifier::inline]
pub open spec fn len_of<A>(s: Seq<A>) -> int {
    s.len() as int
}

/// A slot index as a mathematical number.
#[verifier::inline]
pub open spec fn nat_of(x: usize) -> nat {
    x as nat
}

/// The shape of a tree: which arena slots it holds and how they hang together.
pub enum Shape {
    Leaf,
    Node { left: Box<Shape>, idx: nat, right: Box<Shape> },
}

impl Shape {
    /// The arena slots in the tree.
    pub open spec fn idxs(self) -> Set<nat>
        decreases self,
    {
        match self {
            Shape::Leaf => Set::empty(),
            Shape::Node { left, idx, right } => set_add(left.idxs().union(right.idxs()), idx),
        }
    }

    /// Slot `i` is in the tree.
    #[verifier::inline]
    pub open spec fn has(self, i: nat) -> bool {
        self.idxs().contains(i)
    }

    /// The slot of the root (zero for an empty tree).
    pub open spec fn root_nat(self) -> nat {
        match self {
            Shape::Leaf => 0,
            Shape::Node { idx, .. } => idx,
        }
    }

    /// The index of the root, or `INVALID_IDX` for an empty tree.
    pub open spec fn root_idx(self) -> usize {
        match self {
            Shape::Leaf => INVALID_IDX,
            Shape::Node { idx, .. } => idx as usize,
        }
    }

    /// The number of levels.
    pub open spec fn height(self) -> nat
        decreases self,
    {
        match self {
            Shape::Leaf => 0,
            Shape::Node { left, right, .. } => 1 + if left.height() >= right.height() {
                left.height()
            } else {
                right.height()
            },
        }
    }

    /// The number of nodes.
    pub open spec fn size(self) -> nat
        decreases self,
    {
        match self {
            Shape::Leaf => 0,
            Shape::Node { left, right, .. } => left.size() + 1 + right.size(),
        }
    }

    /// The slots in in-order.
    pub open spec fn order(self) -> Seq<nat>
        decreases self,
    {
        match self {
            Shape::Leaf => Seq::empty(),
            Shape::Node { left, idx, right } => left.order() + seq![idx] + right.order(),
        }
    }

    /// No slot occurs twice.
    pub open spec fn distinct(self) -> bool
        decreases self,
    {
        match self {
            Shape::Leaf => true,
            Shape::Node { left, idx, right } => {
                &&& !left.has(idx)
                &&& !right.has(idx)
                &&& left.idxs().disjoint(right.idxs())
                &&& left.distinct()
                &&& right.distinct()
            },
        }
    }

    /// The subtree rooted at slot `i` (a leaf if `i` is not in the tree).
    pub open spec fn sub(self, i: nat) -> Shape
        decreases self,
    {
        match self {
            Shape::Leaf => Shape::Leaf,
            Shape::Node { left, idx, right } => if i == idx {
                self
            } else if left.has(i) {
                left.sub(i)
            } else {
                right.sub(i)
            },
        }
    }

    /// The tree with the subtree rooted at slot `i` replaced by `t`.
    pub open spec fn replace(self, i: nat, t: Shape) -> Shape
        decreases self,
    {
        match self {
            Shape::Leaf => Shape::Leaf,
            Shape::Node { left, idx, right } => if i == idx {
                t
            } else if left.has(i) {
                Shape::Node { left: Box::new(left.replace(i, t)), idx, right }
            } else if right.has(i) {
                Shape::Node { left, idx, right: Box::new(right.replace(i, t)) }
            } else {
                self
            },
        }
    }

    /// The slots on the path from the root down to slot `i`, both included.
    pub open spec fn anc(self, i: nat) -> Set<nat>
        decreases self,
    {
        match self {
            Shape::Leaf => Set::empty(),
            Shape::Node { left, idx, right } => if i == idx {
                set![idx]
            } else if left.has(i) {
                set_add(left.anc(i), idx)
            } else if right.has(i) {
                set_add(right.anc(i), idx)
            } else {
                Set::empty()
            },
        }
    }

    /// The number of edges from the root down to slot `i`.
    pub open spec fn level(self, i: nat) -> nat
        decreases self,
    {
        match self {
            Shape::Leaf => 0,
            Shape::Node { left, idx, right } => if i == idx {
                0
            } else if left.has(i) {
                1 + left.level(i)
            } else {
                1 + right.level(i)
            },
        }
    }

    /// The parent slot of `i`, `p` when `i` is the root.
    pub open spec fn parent_idx(self, i: nat, p: usize) -> usize
        decreases self,
    {
        match self {
            Shape::Leaf => p,
            Shape::Node { left, idx, right } => if i == idx {
                p
            } else if left.has(i) {
                left.parent_idx(i, idx as usize)
            } else {
                right.parent_idx(i, idx as usize)
            },
        }
    }

    /// The slots that come before the subtree of `i` in in-order.
    pub open spec fn before(self, i: nat) -> Seq<nat>
        decreases self,
    {
        match self {
            Shape::Leaf => Seq::empty(),
            Shape::Node { left, idx, right } => if i == idx {
                Seq::empty()
            } else if left.has(i) {
                left.before(i)
            } else {
                left.order() + seq![idx] + right.before(i)
            },
        }
    }

    /// The slots that come after the subtree of `i` in in-order.
    pub open spec fn after(self, i: nat) -> Seq<nat>
        decreases self,
    {
        match self {
            Shape::Leaf => Seq::empty(),
            Shape::Node { left, idx, right } => if i == idx {
                Seq::empty()
            } else if left.has(i) {
                left.after(i) + seq![idx] + right.order()
            } else {
                right.after(i)
            },
        }
    }

    /// The position of slot `i` in in-order.
    pub open spec fn pos(self, i: nat) -> int {
        (self.before(i).len() + self.sub(i).lchild().size()) as int
    }

    /// The left subtree (a leaf for a leaf).
    pub open spec fn lchild(self) -> Shape {
        match self {
            Shape::Leaf => Shape::Leaf,
            Shape::Node { left, .. } => *left,
        }
    }

    /// The right subtree (a leaf for a leaf).
    pub open spec fn rchild(self) -> Shape {
        match self {
            Shape::Leaf => Shape::Leaf,
            Shape::Node { right, .. } => *right,
        }
    }

    /// In-order position `t` falls within the subtree of slot `i`.
    pub open spec fn spans(self, i: nat, t: int) -> bool {
        self.before(i).len() <= t < self.before(i).len() + self.sub(i).size()
    }

    /// Every node's subtrees differ in height by at most one.
    pub open spec fn balanced(self) -> bool
        decreases self,
    {
        match self {
            Shape::Leaf => true,
            Shape::Node { left, right, .. } => {
                &&& left.height() <= right.height() + 1
                &&& right.height() <= left.height() + 1
                &&& left.balanced()
                &&& right.balanced()
            },
        }
    }
}

/// The node in slot `i`.
pub open spec fn slot<T>(nodes: Seq<Option<Node<T>>>, i: nat) -> Node<T> {
    nodes[i as int].unwrap()
}

/// The arena's links agree with `s`, whose root hangs below `p`.
pub open spec fn linked<T>(nodes: Seq<Option<Node<T>>>, s: Shape, p: usize) -> bool
    decreases s,
{
    match s {
        Shape::Leaf => true,
        Shape::Node { left, idx, right } => {
            &&& idx < nodes.len()
            &&& idx < INVALID_IDX
            &&& nodes[idx as int] is Some
            &&& slot(nodes, idx).left == left.root_idx()
            &&& slot(nodes, idx).right == right.root_idx()
            &&& slot(nodes, idx).parent == p
            &&& !left.has(idx)
            &&& !right.has(idx)
            &&& left.idxs().disjoint(right.idxs())
            &&& linked(nodes, *left, idx as usize)
            &&& linked(nodes, *right, idx as usize)
        },
    }
}

/// Every node of `s` outside `stale` records the height and size of its subtree.
pub open spec fn fields_ok<T>(nodes: Seq<Option<Node<T>>>, s: Shape, stale: Set<nat>) -> bool
    decreases s,
{
    match s {
        Shape::Leaf => true,
        Shape::Node { left, idx, right } => {
            &&& (stale.contains(idx) || (slot(nodes, idx).depth == s.height() && slot(
                nodes,
                idx,
            ).cnt == s.size()))
            &&& fields_ok(nodes, *left, stale)
            &&& fields_ok(nodes, *right, stale)
        },
    }
}

/// The arena holds the same node as before at every slot of `s`.
pub open spec fn agree_on<T>(a: Seq<Option<Node<T>>>, b: Seq<Option<Node<T>>>, s: Set<nat>) -> bool {
    forall|j: nat| s.contains(j) ==> j < a.len() && j < b.len() && a[j as int] == b[j as int]
}

/// The data at each slot of `order`.
pub open spec fn data_of<T>(nodes: Seq<Option<Node<T>>>, order: Seq<nat>) -> Seq<T> {
    order.map_values(|i: nat| slot(nodes, i).data)
}

/// `n` with its child pointer `from` redirected to `to`.
pub open spec fn redirect<T>(n: Node<T>, from: usize, to: usize) -> Node<T> {
    if n.left == from {
        Node { left: to, ..n }
    } else {
        Node { right: to, ..n }
    }
}

// ---------------------------------------------------------------------------
// Lemmas on shapes

/// The in-order sequence lists each slot of a tree without repeats once.
pub proof fn lemma_order_facts(s: Shape)
    requires
        s.distinct(),
    ensures
        s.order().len() == s.size(),
        s.order().no_duplicates(),
        forall|j: nat| s.order().contains(j) <==> s.has(j),
        s.idxs().finite(),
        s.height() <= s.size(),
    decreases s,
{
    match s {
        Shape::Leaf => {
            assert(s.idxs() =~= Set::<nat>::empty());
        },
        Shape::Node { left, idx, right } => {
            lemma_order_facts(*left);
            lemma_order_facts(*right);
            let lo = left.order();
            let ro = right.order();
            let a = lo + seq![idx];
            let o = a + ro;
            assert(s.order() == o);
            assert(a.len() == lo.len() + 1);
            assert forall|k: int| 0 <= k < o.len() implies (k < lo.len() ==> o[k] == lo[k]) && (k
                == lo.len() ==> o[k] == idx) && (k > lo.len() ==> o[k] == ro[k - lo.len() - 1]) by {
                if k < a.len() {
                    assert(o[k] == a[k]);
                } else {
                    assert(o[k] == ro[k - a.len()]);
                }
            }
            assert forall|j: nat| o.contains(j) implies s.has(j) by {
                let k = choose|k: int| 0 <= k < o.len() && o[k] == j;
                if k < lo.len() {
                    assert(lo.contains(j));
                } else if k > lo.len() {
                    assert(ro[k - lo.len() - 1] == j);
                    assert(ro.contains(j));
                }
            }
            assert forall|j: nat| s.has(j) implies o.contains(j) by {
                if j == idx {
                    assert(o[lo.len() as int] == j);
                } else if left.has(j) {
                    assert(lo.contains(j));
                    let k = choose|k: int| 0 <= k < lo.len() && lo[k] == j;
                    assert(o[k] == j);
                } else {
                    assert(right.has(j));
                    assert(ro.contains(j));
                    let k = choose|k: int| 0 <= k < ro.len() && ro[k] == j;
                    assert(o[lo.len() + 1 + k] == j);
                }
            }
            assert forall|x: int, y: int| 0 <= x < o.len() && 0 <= y < o.len() && x != y implies o[x]
                != o[y] by {
                let la = lo.len() as int;
                if x < la {
                    assert(lo.contains(o[x]));
                }
                if y < la {
                    assert(lo.contains(o[y]));
                }
                if x > la {
                    assert(ro.contains(o[x]));
                }
                if y > la {
                    assert(ro.contains(o[y]));
                }
            }
        },
    }
}

/// A linked tree has no slot twice, and all its slots hold nodes.
pub proof fn lemma_linked_distinct<T>(nodes: Seq<Option<Node<T>>>, s: Shape, p: usize)
    requires
        linked(nodes, s, p),
    ensures
        s.distinct(),
        forall|j: nat| s.has(j) ==> j < nodes.len() && j < INVALID_IDX && nodes[j as int] is Some,
    decreases s,
{
    match s {
        Shape::Leaf => {
            assert(s.idxs() =~= Set::<nat>::empty());
            assert(forall|j: nat| !s.has(j));
        },
        Shape::Node { left, idx, right } => {
            lemma_linked_distinct(nodes, *left, idx as usize);
            lemma_linked_distinct(nodes, *right, idx as usize);
        },
    }
}

/// Facts about the subtree rooted at a slot of the tree.
pub proof fn lemma_sub<T>(nodes: Seq<Option<Node<T>>>, s: Shape, p: usize, i: nat)
    requires
        linked(nodes, s, p),
        s.has(i),
    ensures
        linked(nodes, s.sub(i), s.parent_idx(i, p)),
        s.sub(i).root_idx() == i,
        s.sub(i) is Node,
        s.sub(i).idxs().subset_of(s.idxs()),
        s.anc(i).subset_of(s.idxs()),
        s.anc(i).contains(i),
        s.anc(i).intersect(s.sub(i).idxs()) == set![i],
        i == s.root_idx() ==> s.sub(i) == s && s.anc(i) == set![i] && s.level(i) == 0
            && s.parent_idx(i, p) == p,
    decreases s,
{
    lemma_linked_distinct(nodes, s, p);
    match s {
        Shape::Leaf => {},
        Shape::Node { left, idx, right } => {
            if i == idx {
                assert(s.anc(i).intersect(s.sub(i).idxs()) =~= set![i]);
            } else if left.has(i) {
                lemma_sub(nodes, *left, idx as usize, i);
                assert(s.anc(i).intersect(s.sub(i).idxs()) =~= left.anc(i).intersect(
                    left.sub(i).idxs(),
                ));
            } else {
                lemma_sub(nodes, *right, idx as usize, i);
                assert(s.anc(i).intersect(s.sub(i).idxs()) =~= right.anc(i).intersect(
                    right.sub(i).idxs(),
                ));
            }
        },
    }
}

/// The in-order sequence splits around the subtree of `i`.
pub proof fn lemma_sub_order(s: Shape, i: nat)
    requires
        s.has(i),
    ensures
        s.order() == s.before(i) + s.sub(i).order() + s.after(i),
    decreases s,
{
    match s {
        Shape::Leaf => {},
        Shape::Node { left, idx, right } => {
            if i == idx {
                assert(s.order() =~= s.before(i) + s.sub(i).order() + s.after(i));
            } else if left.has(i) {
                lemma_sub_order(*left, i);
                assert(s.order() =~= s.before(i) + s.sub(i).order() + s.after(i));
            } else {
                lemma_sub_order(*right, i);
                assert(s.order() =~= s.before(i) + s.sub(i).order() + s.after(i));
            }
        },
    }
}

/// The children of the subtree of `i` are themselves subtrees, one level down.
pub proof fn lemma_sub_children<T>(nodes: Seq<Option<Node<T>>>, s: Shape, p: usize, i: nat)
    requires
        linked(nodes, s, p),
        s.has(i),
    ensures
        s.sub(i).lchild() matches Shape::Node { idx: l, .. } ==> s.has(l) && s.sub(l) == s.sub(
            i,
        ).lchild() && s.anc(l) == set_add(s.anc(i), l) && s.level(l) == s.level(i) + 1
            && s.parent_idx(l, p) == i,
        s.sub(i).rchild() matches Shape::Node { idx: r, .. } ==> s.has(r) && s.sub(r) == s.sub(
            i,
        ).rchild() && s.anc(r) == set_add(s.anc(i), r) && s.level(r) == s.level(i) + 1
            && s.parent_idx(r, p) == i,
    decreases s,
{
    lemma_linked_distinct(nodes, s, p);
    match s {
        Shape::Leaf => {},
        Shape::Node { left, idx, right } => {
            lemma_linked_distinct(nodes, *left, idx as usize);
            lemma_linked_distinct(nodes, *right, idx as usize);
            if i == idx {
                if let Shape::Node { idx: l, .. } = *left {
                    assert(left.has(l));
                    assert(left.anc(l) == set![l]);
                    assert(left.sub(l) == *left);
                    assert(left.level(l) == 0);
                    assert(left.parent_idx(l, idx as usize) == idx as usize);
                    assert(s.anc(l) =~= set_add(set![i], l));
                }
                if let Shape::Node { idx: r, .. } = *right {
                    assert(right.has(r));
                    assert(!left.has(r));
                    assert(right.anc(r) == set![r]);
                    assert(right.sub(r) == *right);
                    assert(right.level(r) == 0);
                    assert(right.parent_idx(r, idx as usize) == idx as usize);
                    assert(s.anc(r) =~= set_add(set![i], r));
                }
            } else if left.has(i) {
                lemma_sub_children(nodes, *left, idx as usize, i);
                lemma_sub(nodes, *left, idx as usize, i);
                let c = s.sub(i);
                if let Shape::Node { idx: l, .. } = c.lchild() {
                    assert(c.lchild().has(l));
                    assert(c.has(l));
                    assert(left.has(l));
                    assert(s.anc(l) =~= set_add(s.anc(i), l));
                }
                if let Shape::Node { idx: r, .. } = c.rchild() {
                    assert(c.rchild().has(r));
                    assert(c.has(r));
                    assert(left.has(r));
                    assert(s.anc(r) =~= set_add(s.anc(i), r));
                }
            } else {
                lemma_sub_children(nodes, *right, idx as usize, i);
                lemma_sub(nodes, *right, idx as usize, i);
                let c = s.sub(i);
                if let Shape::Node { idx: l, .. } = c.lchild() {
                    assert(c.lchild().has(l));
                    assert(c.has(l));
                    assert(right.has(l));
                    assert(!left.has(l));
                    assert(s.anc(l) =~= set_add(s.anc(i), l));
                }
                if let Shape::Node { idx: r, .. } = c.rchild() {
                    assert(c.rchild().has(r));
                    assert(c.has(r));
                    assert(right.has(r));
                    assert(!left.has(r));
                    assert(s.anc(r) =~= set_add(s.anc(i), r));
                }
            }
        },
    }
}

/// A slot other than the root has its parent in the tree.
pub proof fn lemma_sub_parent<T>(nodes: Seq<Option<Node<T>>>, s: Shape, p: usize, i: nat)
    requires
        linked(nodes, s, p),
        s.has(i),
        !s.has(p as nat),
    ensures
        i != s.root_idx() ==> s.has(s.parent_idx(i, p) as nat) && s.parent_idx(i, p) < INVALID_IDX
            && s.anc(i) == set_add(s.anc(s.parent_idx(i, p) as nat), i) && s.level(i) == s.level(
            s.parent_idx(i, p) as nat,
        ) + 1 && (s.sub(s.parent_idx(i, p) as nat).lchild().root_idx() == i || s.sub(
            s.parent_idx(i, p) as nat,
        ).rchild().root_idx() == i),
        s.parent_idx(i, p) == p <==> i == s.root_idx(),
    decreases s,
{
    lemma_linked_distinct(nodes, s, p);
    match s {
        Shape::Leaf => {},
        Shape::Node { left, idx, right } => {
            if i == idx {
            } else if left.has(i) {
                lemma_sub_parent(nodes, *left, idx as usize, i);
                lemma_sub(nodes, *left, idx as usize, i);
                if i == left.root_idx() {
                    assert(s.anc(i) =~= set_add(s.anc(idx), i));
                } else {
                    let q = left.parent_idx(i, idx as usize) as nat;
                    assert(s.anc(i) =~= set_add(s.anc(q), i));
                }
            } else {
                lemma_sub_parent(nodes, *right, idx as usize, i);
                lemma_sub(nodes, *right, idx as usize, i);
                if i == right.root_idx() {
                    assert(s.anc(i) =~= set_add(s.anc(idx), i));
                } else {
                    let q = right.parent_idx(i, idx as usize) as nat;
                    assert(!left.has(q));
                    assert(s.anc(i) =~= set_add(s.anc(q), i));
                }
            }
        },
    }
}

/// Agreement on a set carries to its subsets.
pub proof fn lemma_agree_subset<T>(
    a: Seq<Option<Node<T>>>,
    b: Seq<Option<Node<T>>>,
    big: Set<nat>,
    small: Set<nat>,
)
    requires
        agree_on(a, b, big),
        small.subset_of(big),
    ensures
        agree_on(a, b, small),
{
    assert forall|j: nat| small.contains(j) implies j < a.len() && j < b.len() && a[j as int]
        == b[j as int] by {
        assert(big.contains(j));
    }
}

/// The two arenas hold nodes with the same links at every slot of `set`.
pub open spec fn links_agree<T>(a: Seq<Option<Node<T>>>, b: Seq<Option<Node<T>>>, set: Set<nat>) -> bool {
    forall|j: nat|
        set.contains(j) ==> j < a.len() && j < b.len() && (a[j as int] is Some <==> b[j as int] is Some)
            && (a[j as int] is Some ==> slot(a, j).left == slot(b, j).left && slot(a, j).right == slot(
            b,
            j,
        ).right && slot(a, j).parent == slot(b, j).parent)
}

/// Changing one slot keeps agreement on every set without it.
pub proof fn lemma_update_agree<T>(a: Seq<Option<Node<T>>>, i: int, v: Option<Node<T>>, set: Set<nat>)
    requires
        0 <= i < a.len(),
        !set.contains(i as nat),
        forall|j: nat| set.contains(j) ==> j < a.len(),
    ensures
        agree_on(a, a.update(i, v), set),
{
}

/// Two arenas that differ in at most two slots agree on any set without them.
pub proof fn lemma_agree_except2<T>(
    a: Seq<Option<Node<T>>>,
    b: Seq<Option<Node<T>>>,
    set: Set<nat>,
    x: nat,
    y: nat,
)
    requires
        a.len() == b.len(),
        forall|j: int| 0 <= j < a.len() && j != x && j != y ==> b[j] == a[j],
        forall|j: nat| set.contains(j) ==> j < a.len(),
        !set.contains(x),
        !set.contains(y),
    ensures
        agree_on(a, b, set),
{
    assert forall|j: nat| set.contains(j) implies j < a.len() && j < b.len() && a[j as int]
        == b[j as int] by {
        assert(b[j as int] == a[j as int]);
    }
}

/// Agreement with a prefix carries to the whole sequence.
pub proof fn lemma_agree_prefix<T>(a: Seq<Option<Node<T>>>, b: Seq<Option<Node<T>>>, set: Set<nat>)
    requires
        a.len() <= b.len(),
        agree_on(a, b.subrange(0, a.len() as int), set),
    ensures
        agree_on(a, b, set),
{
    assert forall|j: nat| set.contains(j) implies j < a.len() && j < b.len() && a[j as int]
        == b[j as int] by {
        assert(b.subrange(0, a.len() as int)[j as int] == b[j as int]);
    }
}

/// Two arenas that differ only in the slots of `excl` agree on any set that avoids them.
pub proof fn lemma_agree_except<T>(
    a: Seq<Option<Node<T>>>,
    b: Seq<Option<Node<T>>>,
    set: Set<nat>,
    excl: Set<int>,
)
    requires
        a.len() == b.len(),
        forall|j: int| 0 <= j < a.len() && !excl.contains(j) ==> b[j] == a[j],
        forall|j: nat| set.contains(j) ==> j < a.len() && !excl.contains(j as int),
    ensures
        agree_on(a, b, set),
{
    assert forall|j: nat| set.contains(j) implies j < a.len() && j < b.len() && a[j as int]
        == b[j as int] by {
        assert(b[j as int] == a[j as int]);
    }
}

/// Links do not depend on slots outside the tree, nor on anything but links.
pub proof fn lemma_linked_frame<T>(a: Seq<Option<Node<T>>>, b: Seq<Option<Node<T>>>, s: Shape, p: usize)
    requires
        linked(a, s, p),
        links_agree(a, b, s.idxs()),
    ensures
        linked(b, s, p),
    decreases s,
{
    match s {
        Shape::Leaf => {},
        Shape::Node { left, idx, right } => {
            assert(links_agree(a, b, left.idxs())) by {
                assert forall|j: nat| left.idxs().contains(j) implies s.idxs().contains(j) by {}
            }
            assert(links_agree(a, b, right.idxs())) by {
                assert forall|j: nat| right.idxs().contains(j) implies s.idxs().contains(j) by {}
            }
            lemma_linked_frame(a, b, *left, idx as usize);
            lemma_linked_frame(a, b, *right, idx as usize);
            assert(s.idxs().contains(idx));
        },
    }
}

/// Agreement on whole nodes implies agreement on links.
pub proof fn lemma_agree_links<T>(a: Seq<Option<Node<T>>>, b: Seq<Option<Node<T>>>, set: Set<nat>)
    requires
        agree_on(a, b, set),
    ensures
        links_agree(a, b, set),
{
}

/// The two arenas record the same heights and sizes at every slot of `set`.
pub open spec fn fields_agree<T>(a: Seq<Option<Node<T>>>, b: Seq<Option<Node<T>>>, set: Set<nat>) -> bool {
    forall|j: nat|
        set.contains(j) ==> j < a.len() && j < b.len() && slot(a, j).depth == slot(b, j).depth
            && slot(a, j).cnt == slot(b, j).cnt
}

/// Agreement on recorded fields carries to subsets.
pub proof fn lemma_fields_agree_subset<T>(
    a: Seq<Option<Node<T>>>,
    b: Seq<Option<Node<T>>>,
    big: Set<nat>,
    small: Set<nat>,
)
    requires
        fields_agree(a, b, big),
        small.subset_of(big),
    ensures
        fields_agree(a, b, small),
{
    assert forall|j: nat| small.contains(j) implies j < a.len() && j < b.len() && slot(a, j).depth
        == slot(b, j).depth && slot(a, j).cnt == slot(b, j).cnt by {
        assert(big.contains(j));
    }
}

/// Recorded heights and sizes do not depend on slots outside the tree.
pub proof fn lemma_fields_frame<T>(
    a: Seq<Option<Node<T>>>,
    b: Seq<Option<Node<T>>>,
    s: Shape,
    x: Set<nat>,
    y: Set<nat>,
)
    requires
        fields_ok(a, s, x),
        fields_agree(a, b, s.idxs().difference(y)),
        x.subset_of(y),
    ensures
        fields_ok(b, s, y),
    decreases s,
{
    match s {
        Shape::Leaf => {},
        Shape::Node { left, idx, right } => {
            assert(fields_agree(a, b, left.idxs().difference(y))) by {
                assert forall|j: nat| left.idxs().difference(y).contains(j) implies s.idxs().difference(
                    y,
                ).contains(j) by {}
            }
            assert(fields_agree(a, b, right.idxs().difference(y))) by {
                assert forall|j: nat| right.idxs().difference(y).contains(j) implies s.idxs().difference(
                    y,
                ).contains(j) by {}
            }
            lemma_fields_frame(a, b, *left, x, y);
            lemma_fields_frame(a, b, *right, x, y);
            if !y.contains(idx) {
                assert(s.idxs().difference(y).contains(idx));
            }
        },
    }
}

/// Agreement on whole nodes implies agreement on recorded fields.
pub proof fn lemma_agree_fields<T>(a: Seq<Option<Node<T>>>, b: Seq<Option<Node<T>>>, set: Set<nat>)
    requires
        agree_on(a, b, set),
    ensures
        fields_agree(a, b, set),
{
}

/// A slot outside the stale set records its subtree's height and size.
pub proof fn lemma_fields_at<T>(nodes: Seq<Option<Node<T>>>, s: Shape, x: Set<nat>, i: nat)
    requires
        fields_ok(nodes, s, x),
        s.has(i),
        !x.contains(i),
    ensures
        slot(nodes, i).depth == s.sub(i).height(),
        slot(nodes, i).cnt == s.sub(i).size(),
    decreases s,
{
    match s {
        Shape::Leaf => {},
        Shape::Node { left, idx, right } => {
            if i == idx {
            } else if left.has(i) {
                lemma_fields_at(nodes, *left, x, i);
            } else {
                lemma_fields_at(nodes, *right, x, i);
            }
        },
    }
}

/// A larger stale set asks less.
pub proof fn lemma_fields_mono<T>(nodes: Seq<Option<Node<T>>>, s: Shape, x: Set<nat>, y: Set<nat>)
    requires
        fields_ok(nodes, s, x),
        forall|j: nat| s.has(j) && x.contains(j) ==> y.contains(j),
    ensures
        fields_ok(nodes, s, y),
    decreases s,
{
    match s {
        Shape::Leaf => {},
        Shape::Node { left, idx, right } => {
            lemma_fields_mono(nodes, *left, x, y);
            lemma_fields_mono(nodes, *right, x, y);
        },
    }
}

/// The in-order sequence after replacing a subtree.
pub proof fn lemma_replace_order(s: Shape, i: nat, t: Shape)
    requires
        s.has(i),
    ensures
        s.replace(i, t).order() == s.before(i) + t.order() + s.after(i),
    decreases s,
{
    match s {
        Shape::Leaf => {},
        Shape::Node { left, idx, right } => {
            if i == idx {
                assert(s.replace(i, t).order() =~= s.before(i) + t.order() + s.after(i));
            } else if left.has(i) {
                lemma_replace_order(*left, i, t);
                assert(s.replace(i, t).order() =~= s.before(i) + t.order() + s.after(i));
            } else {
                lemma_replace_order(*right, i, t);
                assert(s.replace(i, t).order() =~= s.before(i) + t.order() + s.after(i));
            }
        },
    }
}

/// The slots after replacing a subtree.
pub proof fn lemma_replace_idxs(s: Shape, i: nat, t: Shape)
    requires
        s.distinct(),
        s.has(i),
    ensures
        s.replace(i, t).idxs() == s.idxs().difference(s.sub(i).idxs()).union(t.idxs()),
        s.sub(i).idxs().subset_of(s.idxs()),
        s.sub(i).has(i),
    decreases s,
{
    match s {
        Shape::Leaf => {},
        Shape::Node { left, idx, right } => {
            if i == idx {
                assert(s.replace(i, t).idxs() =~= s.idxs().difference(s.sub(i).idxs()).union(
                    t.idxs(),
                ));
            } else if left.has(i) {
                lemma_replace_idxs(*left, i, t);
                assert(s.replace(i, t).idxs() =~= s.idxs().difference(s.sub(i).idxs()).union(
                    t.idxs(),
                ));
            } else {
                lemma_replace_idxs(*right, i, t);
                assert(s.replace(i, t).idxs() =~= s.idxs().difference(s.sub(i).idxs()).union(
                    t.idxs(),
                ));
            }
        },
    }
}

/// Slots strictly above the replaced subtree keep their place.
pub proof fn lemma_replace_path(s: Shape, i: nat, t: Shape, q: nat, p: usize)
    requires
        s.distinct(),
        s.has(i),
        s.anc(i).contains(q),
        q != i,
    ensures
        s.replace(i, t).has(q),
        s.replace(i, t).anc(q) == s.anc(q),
        s.replace(i, t).level(q) == s.level(q),
        s.replace(i, t).parent_idx(q, p) == s.parent_idx(q, p),
        s.replace(i, t).root_idx() == s.root_idx(),
    decreases s,
{
    match s {
        Shape::Leaf => {},
        Shape::Node { left, idx, right } => {
            if i == idx {
            } else if left.has(i) {
                if q != idx {
                    lemma_replace_path(*left, i, t, q, idx as usize);
                    lemma_anc_in_sub(*left, i, q);
                }
            } else {
                if q != idx {
                    lemma_replace_path(*right, i, t, q, idx as usize);
                    lemma_anc_in_sub(*right, i, q);
                    assert(!left.has(q));
                }
            }
        },
    }
}

/// Ancestors lie in the tree.
pub proof fn lemma_anc_in_sub(s: Shape, i: nat, q: nat)
    requires
        s.anc(i).contains(q),
    ensures
        s.has(q),
        s.has(i),
    decreases s,
{
    match s {
        Shape::Leaf => {},
        Shape::Node { left, idx, right } => {
            if i == idx {
            } else if left.has(i) {
                if q != idx {
                    lemma_anc_in_sub(*left, i, q);
                }
            } else if right.has(i) {
                if q != idx {
                    lemma_anc_in_sub(*right, i, q);
                }
            }
        },
    }
}

/// Replacing the subtree of `i` by `t`, rewiring the parent of `i`, keeps
/// the arena linked.
pub proof fn lemma_replace_linked<T>(
    a: Seq<Option<Node<T>>>,
    b: Seq<Option<Node<T>>>,
    s: Shape,
    p: usize,
    i: nat,
    t: Shape,
)
    requires
        linked(a, s, p),
        s.has(i),
        !s.has(p as nat),
        linked(b, t, s.parent_idx(i, p)),
        forall|j: nat| t.has(j) ==> s.sub(i).has(j) || !s.has(j),
        agree_on(
            a,
            b,
            s.idxs().difference(s.sub(i).idxs()).remove(s.parent_idx(i, p) as nat),
        ),
        i != s.root_idx() ==> {
            let q = s.parent_idx(i, p) as nat;
            &&& q < b.len()
            &&& b[q as int] == Some(redirect(slot(a, q), i as usize, t.root_idx()))
        },
    ensures
        linked(b, s.replace(i, t), p),
    decreases s,
{
    lemma_linked_distinct(a, s, p);
    match s {
        Shape::Leaf => {},
        Shape::Node { left, idx, right } => {
            lemma_linked_distinct(a, *left, idx as usize);
            lemma_linked_distinct(a, *right, idx as usize);
            if i == idx {
            } else if left.has(i) {
                lemma_sub(a, *left, idx as usize, i);
                lemma_sub_parent(a, *left, idx as usize, i);
                let q = left.parent_idx(i, idx as usize);
                assert(agree_on(a, b, right.idxs())) by {
                    assert forall|j: nat| right.has(j) implies j < a.len() && j < b.len() && a[j as int]
                        == b[j as int] by {
                        assert(s.idxs().difference(s.sub(i).idxs()).remove(q as nat).contains(j));
                    }
                }
                lemma_agree_links(a, b, right.idxs());
                lemma_linked_frame(a, b, *right, idx as usize);
                if i == left.root_idx() {
                    assert(q == idx as usize);
                    assert(left.replace(i, t) == t);
                } else {
                    assert(left.has(q as nat));
                    assert(forall|j: nat| left.has(j) ==> s.has(j));
                    lemma_agree_subset(
                        a,
                        b,
                        s.idxs().difference(s.sub(i).idxs()).remove(q as nat),
                        left.idxs().difference(left.sub(i).idxs()).remove(q as nat),
                    );
                    lemma_replace_linked(a, b, *left, idx as usize, i, t);
                    lemma_replace_idxs(*left, i, t);
                    assert(left.replace(i, t).root_idx() == left.root_idx());
                    assert(s.idxs().difference(s.sub(i).idxs()).remove(q as nat).contains(idx));
                }
                lemma_replace_idxs(*left, i, t);
                assert(left.replace(i, t).idxs().disjoint(right.idxs()));
                assert(!left.replace(i, t).has(idx));
            } else {
                lemma_sub(a, *right, idx as usize, i);
                lemma_sub_parent(a, *right, idx as usize, i);
                let q = right.parent_idx(i, idx as usize);
                assert(agree_on(a, b, left.idxs())) by {
                    assert forall|j: nat| left.has(j) implies j < a.len() && j < b.len() && a[j as int]
                        == b[j as int] by {
                        assert(s.idxs().difference(s.sub(i).idxs()).remove(q as nat).contains(j));
                    }
                }
                lemma_agree_links(a, b, left.idxs());
                lemma_linked_frame(a, b, *left, idx as usize);
                if i == right.root_idx() {
                    assert(q == idx as usize);
                    assert(right.replace(i, t) == t);
                } else {
                    assert(right.has(q as nat));
                    assert(forall|j: nat| right.has(j) ==> s.has(j));
                    lemma_agree_subset(
                        a,
                        b,
                        s.idxs().difference(s.sub(i).idxs()).remove(q as nat),
                        right.idxs().difference(right.sub(i).idxs()).remove(q as nat),
                    );
                    lemma_replace_linked(a, b, *right, idx as usize, i, t);
                    lemma_replace_idxs(*right, i, t);
                    assert(right.replace(i, t).root_idx() == right.root_idx());
                    assert(s.idxs().difference(s.sub(i).idxs()).remove(q as nat).contains(idx));
                }
                lemma_replace_idxs(*right, i, t);
                assert(right.replace(i, t).idxs().disjoint(left.idxs()));
                assert(!right.replace(i, t).has(idx));
            }
        },
    }
}

/// Recorded fields after replacing a subtree: the slots above it may be stale.
pub proof fn lemma_replace_fields<T>(
    a: Seq<Option<Node<T>>>,
    b: Seq<Option<Node<T>>>,
    s: Shape,
    i: nat,
    t: Shape,
    x: Set<nat>,
    y: Set<nat>,
)
    requires
        s.distinct(),
        s.has(i),
        fields_ok(a, s, x),
        fields_ok(b, t, y),
        forall|j: nat| t.has(j) ==> s.sub(i).has(j) || !s.has(j),
        agree_on(a, b, s.idxs().difference(s.sub(i).idxs()).difference(s.anc(i))),
    ensures
        fields_ok(b, s.replace(i, t), x.union(y).union(s.anc(i).remove(i))),
    decreases s,
{
    let z = x.union(y).union(s.anc(i).remove(i));
    match s {
        Shape::Leaf => {},
        Shape::Node { left, idx, right } => {
            if i == idx {
                lemma_fields_mono(b, t, y, z);
            } else if left.has(i) {
                lemma_agree_subset(
                    a,
                    b,
                    s.idxs().difference(s.sub(i).idxs()).difference(s.anc(i)),
                    left.idxs().difference(left.sub(i).idxs()).difference(left.anc(i)),
                );
                lemma_replace_fields(a, b, *left, i, t, x, y);
                assert(left.anc(i).remove(i).subset_of(s.anc(i).remove(i)));
                lemma_fields_mono(b, left.replace(i, t), x.union(y).union(left.anc(i).remove(i)), z);
                assert forall|j: nat| #[trigger] right.idxs().difference(z).contains(j) implies s.idxs().difference(
                    s.sub(i).idxs(),
                ).difference(s.anc(i)).contains(j) by {
                    assert(!left.has(j));
                    lemma_replace_idxs(*left, i, t);
                    assert(!s.sub(i).has(j));
                    if left.anc(i).contains(j) {
                        lemma_anc_in_sub(*left, i, j);
                    }
                    assert(!s.anc(i).contains(j));
                }
                lemma_agree_subset(
                    a,
                    b,
                    s.idxs().difference(s.sub(i).idxs()).difference(s.anc(i)),
                    right.idxs().difference(z),
                );
                lemma_agree_fields(a, b, right.idxs().difference(z));
                lemma_fields_frame(a, b, *right, x, z);
            } else {
                lemma_agree_subset(
                    a,
                    b,
                    s.idxs().difference(s.sub(i).idxs()).difference(s.anc(i)),
                    right.idxs().difference(right.sub(i).idxs()).difference(right.anc(i)),
                );
                lemma_replace_fields(a, b, *right, i, t, x, y);
                assert(right.anc(i).remove(i).subset_of(s.anc(i).remove(i)));
                lemma_fields_mono(b, right.replace(i, t), x.union(y).union(right.anc(i).remove(i)), z);
                assert forall|j: nat| #[trigger] left.idxs().difference(z).contains(j) implies s.idxs().difference(
                    s.sub(i).idxs(),
                ).difference(s.anc(i)).contains(j) by {
                    assert(!right.has(j));
                    lemma_replace_idxs(*right, i, t);
                    assert(!s.sub(i).has(j));
                    if right.anc(i).contains(j) {
                        lemma_anc_in_sub(*right, i, j);
                    }
                    assert(!s.anc(i).contains(j));
                }
                lemma_agree_subset(
                    a,
                    b,
                    s.idxs().difference(s.sub(i).idxs()).difference(s.anc(i)),
                    left.idxs().difference(z),
                );
                lemma_agree_fields(a, b, left.idxs().difference(z));
                lemma_fields_frame(a, b, *left, x, z);
            }
        },
    }
}

/// Giving the root a new parent keeps a subtree linked below that parent.
pub proof fn lemma_linked_reparent<T>(
    a: Seq<Option<Node<T>>>,
    b: Seq<Option<Node<T>>>,
    s: Shape,
    p: usize,
    q: usize,
)
    requires
        linked(a, s, p),
        s is Node,
        links_agree(a, b, s.idxs().remove(s.root_idx() as nat)),
        s.root_idx() < b.len(),
        b[s.root_idx() as int] is Some,
        slot(b, s.root_idx() as nat).left == slot(a, s.root_idx() as nat).left,
        slot(b, s.root_idx() as nat).right == slot(a, s.root_idx() as nat).right,
        slot(b, s.root_idx() as nat).parent == q,
    ensures
        linked(b, s, q),
{
    match s {
        Shape::Leaf => {},
        Shape::Node { left, idx, right } => {
            assert(links_agree(a, b, left.idxs())) by {
                assert forall|j: nat| left.idxs().contains(j) implies s.idxs().remove(
                    s.root_idx() as nat,
                ).contains(j) by {}
            }
            assert(links_agree(a, b, right.idxs())) by {
                assert forall|j: nat| right.idxs().contains(j) implies s.idxs().remove(
                    s.root_idx() as nat,
                ).contains(j) by {}
            }
            lemma_linked_frame(a, b, *left, idx as usize);
            lemma_linked_frame(a, b, *right, idx as usize);
        },
    }
}

/// Recording the right height and size at slot `i` takes it out of the stale set.
pub proof fn lemma_fields_set<T>(
    a: Seq<Option<Node<T>>>,
    b: Seq<Option<Node<T>>>,
    s: Shape,
    x: Set<nat>,
    i: nat,
)
    requires
        fields_ok(a, s, x),
        s.distinct(),
        s.has(i),
        fields_agree(a, b, s.idxs().remove(i)),
        i < b.len(),
        slot(b, i).depth == s.sub(i).height(),
        slot(b, i).cnt == s.sub(i).size(),
    ensures
        fields_ok(b, s, x.remove(i)),
    decreases s,
{
    match s {
        Shape::Leaf => {},
        Shape::Node { left, idx, right } => {
            if i == idx {
                lemma_fields_agree_subset(a, b, s.idxs().remove(i), left.idxs().difference(x));
                lemma_fields_agree_subset(a, b, s.idxs().remove(i), right.idxs().difference(x));
                lemma_fields_frame(a, b, *left, x, x);
                lemma_fields_frame(a, b, *right, x, x);
                lemma_fields_mono(b, *left, x, x.remove(i));
                lemma_fields_mono(b, *right, x, x.remove(i));
            } else if left.has(i) {
                assert(fields_agree(a, b, left.idxs().remove(i))) by {
                    assert forall|j: nat| left.idxs().remove(i).contains(j) implies s.idxs().remove(
                        i,
                    ).contains(j) by {}
                }
                lemma_fields_set(a, b, *left, x, i);
                lemma_fields_mono(a, *right, x, x.remove(i));
                assert(right.idxs().difference(x.remove(i)).subset_of(s.idxs().remove(i)));
                lemma_fields_agree_subset(a, b, s.idxs().remove(i), right.idxs().difference(x.remove(i)));
                lemma_fields_frame(a, b, *right, x.remove(i), x.remove(i));
                assert(s.idxs().remove(i).contains(idx));
            } else {
                assert(fields_agree(a, b, right.idxs().remove(i))) by {
                    assert forall|j: nat| right.idxs().remove(i).contains(j) implies s.idxs().remove(
                        i,
                    ).contains(j) by {}
                }
                lemma_fields_set(a, b, *right, x, i);
                lemma_fields_mono(a, *left, x, x.remove(i));
                assert(left.idxs().difference(x.remove(i)).subset_of(s.idxs().remove(i)));
                lemma_fields_agree_subset(a, b, s.idxs().remove(i), left.idxs().difference(x.remove(i)));
                lemma_fields_frame(a, b, *left, x.remove(i), x.remove(i));
                assert(s.idxs().remove(i).contains(idx));
            }
        },
    }
}

/// Recorded fields of a subtree.
pub proof fn lemma_fields_sub<T>(nodes: Seq<Option<Node<T>>>, s: Shape, x: Set<nat>, i: nat)
    requires
        fields_ok(nodes, s, x),
        s.has(i),
    ensures
        fields_ok(nodes, s.sub(i), x),
    decreases s,
{
    match s {
        Shape::Leaf => {},
        Shape::Node { left, idx, right } => {
            if i == idx {
            } else if left.has(i) {
                lemma_fields_sub(nodes, *left, x, i);
            } else {
                lemma_fields_sub(nodes, *right, x, i);
            }
        },
    }
}

/// The tree rotated left at its root.
pub open spec fn rotl(t: Shape) -> Shape {
    match t {
        Shape::Node { left: a, idx: i, right: r } => match *r {
            Shape::Node { left: b, idx: j, right: c } => Shape::Node {
                left: Box::new(Shape::Node { left: a, idx: i, right: b }),
                idx: j,
                right: c,
            },
            Shape::Leaf => t,
        },
        Shape::Leaf => t,
    }
}

/// The tree rotated right at its root.
pub open spec fn rotr(t: Shape) -> Shape {
    match t {
        Shape::Node { left: l, idx: i, right: c } => match *l {
            Shape::Node { left: a, idx: j, right: b } => Shape::Node {
                left: a,
                idx: j,
                right: Box::new(Shape::Node { left: b, idx: i, right: c }),
            },
            Shape::Leaf => t,
        },
        Shape::Leaf => t,
    }
}

/// Rotations keep the in-order sequence and the slots.
pub proof fn lemma_rot_order(t: Shape)
    ensures
        rotl(t).order() == t.order(),
        rotr(t).order() == t.order(),
        rotl(t).idxs() == t.idxs(),
        rotr(t).idxs() == t.idxs(),
        rotl(t).size() == t.size(),
        rotr(t).size() == t.size(),
{
    match t {
        Shape::Node { left: l, idx: i, right: r } => {
            match *r {
                Shape::Node { left: b, idx: j, right: c } => {
                    let inner = Shape::Node { left: l, idx: i, right: b };
                    assert(rotl(t) == Shape::Node { left: Box::new(inner), idx: j, right: c });
                    assert(inner.order() == l.order() + seq![i] + b.order());
                    assert(r.order() == b.order() + seq![j] + c.order());
                    assert(rotl(t).order() =~= t.order());
                    assert(inner.idxs() == set_add(l.idxs().union(b.idxs()), i));
                    assert(r.idxs() == set_add(b.idxs().union(c.idxs()), j));
                    assert(rotl(t).idxs() =~= t.idxs());
                    assert(inner.size() == l.size() + 1 + b.size());
                    assert(r.size() == b.size() + 1 + c.size());
                    assert(rotl(t).size() == inner.size() + 1 + c.size());
                },
                Shape::Leaf => {},
            }
            match *l {
                Shape::Node { left: a, idx: j, right: b } => {
                    let inner = Shape::Node { left: b, idx: i, right: r };
                    assert(rotr(t) == Shape::Node { left: a, idx: j, right: Box::new(inner) });
                    assert(inner.order() == b.order() + seq![i] + r.order());
                    assert(l.order() == a.order() + seq![j] + b.order());
                    assert(rotr(t).order() =~= t.order());
                    assert(inner.idxs() == set_add(b.idxs().union(r.idxs()), i));
                    assert(l.idxs() == set_add(a.idxs().union(b.idxs()), j));
                    assert(rotr(t).idxs() =~= t.idxs());
                    assert(inner.size() == b.size() + 1 + r.size());
                    assert(l.size() == a.size() + 1 + b.size());
                    assert(rotr(t).size() == a.size() + 1 + inner.size());
                },
                Shape::Leaf => {},
            }
        },
        Shape::Leaf => {},
    }
}

/// The root of a linked tree is one of its slots; an empty tree's root is no slot.
pub proof fn lemma_root_has<T>(nodes: Seq<Option<Node<T>>>, s: Shape, p: usize)
    requires
        linked(nodes, s, p),
    ensures
        s is Node ==> s.has(s.root_idx() as nat) && s.root_idx() < nodes.len() && s.root_idx()
            < INVALID_IDX,
        s is Leaf ==> s.root_idx() == INVALID_IDX,
        !s.has(INVALID_IDX as nat),
        forall|j: nat| s.has(j) ==> j < INVALID_IDX,
        s is Node ==> s.root_idx() as nat == s.root_nat() && s.has(s.root_nat()),
{
    lemma_linked_distinct(nodes, s, p);
    if s is Node {
        assert(s.has(s.root_nat()));
    }
}

/// The arena after a left rotation at the root of `t` is linked as `rotl(t)`.
pub proof fn lemma_rotl_result<T>(a: Seq<Option<Node<T>>>, b: Seq<Option<Node<T>>>, t: Shape, p: usize)
    requires
        linked(a, t, p),
        t is Node,
        t.rchild() is Node,
        fields_ok(a, t, set![t.root_idx() as nat, t.rchild().root_idx() as nat]),
        b.len() == a.len(),
        links_agree(
            a,
            b,
            t.idxs().remove(t.root_idx() as nat).remove(t.rchild().root_idx() as nat).remove(
                t.rchild().lchild().root_idx() as nat,
            ),
        ),
        fields_agree(
            a,
            b,
            t.idxs().remove(t.root_idx() as nat).remove(t.rchild().root_idx() as nat),
        ),
        t.rchild().lchild() is Node ==> {
            let k = t.rchild().lchild().root_idx() as nat;
            &&& b[k as int] is Some
            &&& slot(b, k).left == slot(a, k).left
            &&& slot(b, k).right == slot(a, k).right
            &&& slot(b, k).parent == t.root_idx()
        },
        b[t.root_idx() as int] is Some,
        slot(b, t.root_idx() as nat).left == t.lchild().root_idx(),
        slot(b, t.root_idx() as nat).right == t.rchild().lchild().root_idx(),
        slot(b, t.root_idx() as nat).parent == t.rchild().root_idx(),
        slot(b, t.root_idx() as nat).depth == rotl(t).lchild().height(),
        slot(b, t.root_idx() as nat).cnt == rotl(t).lchild().size(),
        b[t.rchild().root_idx() as int] is Some,
        slot(b, t.rchild().root_idx() as nat).left == t.root_idx(),
        slot(b, t.rchild().root_idx() as nat).right == t.rchild().rchild().root_idx(),
        slot(b, t.rchild().root_idx() as nat).parent == p,
        slot(b, t.rchild().root_idx() as nat).depth == rotl(t).height(),
        slot(b, t.rchild().root_idx() as nat).cnt == rotl(t).size(),
    ensures
        linked(b, rotl(t), p),
        fields_ok(b, rotl(t), Set::empty()),
{
    match t {
        Shape::Node { left: aa, idx: i, right: rr } => {
            match *rr {
                Shape::Node { left: bb, idx: r, right: cc } => {
                    let st = set![i, r];
                    lemma_root_has(a, t, p);
                    assert(linked(a, *rr, i as usize));
                    assert(linked(a, *aa, i as usize));
                    lemma_root_has(a, *rr, i as usize);
                    assert(linked(a, *bb, r as usize));
                    assert(linked(a, *cc, r as usize));
                    lemma_root_has(a, *bb, r as usize);
                    assert(rr.has(r));
                    assert(!aa.has(r));
                    assert(links_agree(a, b, aa.idxs())) by {
                        assert forall|j: nat| aa.idxs().contains(j) implies t.idxs().remove(i).remove(
                            r,
                        ).remove(bb.root_idx() as nat).contains(j) by {
                            if *bb is Node {
                                assert(bb.has(bb.root_idx() as nat));
                            }
                        }
                    }
                    lemma_linked_frame(a, b, *aa, i as usize);
                    assert(links_agree(a, b, cc.idxs())) by {
                        assert forall|j: nat| cc.idxs().contains(j) implies t.idxs().remove(i).remove(
                            r,
                        ).remove(bb.root_idx() as nat).contains(j) by {
                            if *bb is Node {
                                assert(bb.has(bb.root_idx() as nat));
                            }
                        }
                    }
                    lemma_linked_frame(a, b, *cc, r as usize);
                    if *bb is Node {
                        assert(bb.has(bb.root_idx() as nat));
                        assert(links_agree(a, b, bb.idxs().remove(bb.root_idx() as nat))) by {
                            assert forall|j: nat| bb.idxs().remove(bb.root_idx() as nat).contains(
                                j,
                            ) implies t.idxs().remove(i).remove(r).remove(bb.root_idx() as nat).contains(
                                j,
                            ) by {}
                        }
                        lemma_linked_reparent(a, b, *bb, r as usize, i as usize);
                    }
                    assert(fields_agree(a, b, aa.idxs().difference(st))) by {
                        assert(aa.idxs().difference(st).subset_of(t.idxs().remove(i).remove(r)));
                        lemma_fields_agree_subset(
                            a,
                            b,
                            t.idxs().remove(i).remove(r),
                            aa.idxs().difference(st),
                        );
                    }
                    assert(fields_agree(a, b, bb.idxs().difference(st))) by {
                        assert(bb.idxs().difference(st).subset_of(t.idxs().remove(i).remove(r)));
                        lemma_fields_agree_subset(
                            a,
                            b,
                            t.idxs().remove(i).remove(r),
                            bb.idxs().difference(st),
                        );
                    }
                    assert(fields_agree(a, b, cc.idxs().difference(st))) by {
                        assert(cc.idxs().difference(st).subset_of(t.idxs().remove(i).remove(r)));
                        lemma_fields_agree_subset(
                            a,
                            b,
                            t.idxs().remove(i).remove(r),
                            cc.idxs().difference(st),
                        );
                    }
                    assert(fields_ok(a, *rr, st));
                    lemma_fields_frame(a, b, *aa, st, st);
                    lemma_fields_frame(a, b, *bb, st, st);
                    lemma_fields_frame(a, b, *cc, st, st);
                    lemma_fields_mono(b, *aa, st, Set::empty());
                    lemma_fields_mono(b, *bb, st, Set::empty());
                    lemma_fields_mono(b, *cc, st, Set::empty());
                    let inner = Shape::Node { left: aa, idx: i, right: bb };
                    assert(rotl(t).lchild() == inner);
                    assert(!bb.has(i));
                    assert(aa.idxs().disjoint(bb.idxs()));
                    assert(linked(b, *bb, i as usize));
                    assert(linked(b, inner, r as usize));
                    assert(fields_ok(b, inner, Set::empty()));
                },
                Shape::Leaf => {},
            }
        },
        Shape::Leaf => {},
    }
}

/// The arena after a right rotation at the root of `t` is linked as `rotr(t)`.
pub proof fn lemma_rotr_result<T>(a: Seq<Option<Node<T>>>, b: Seq<Option<Node<T>>>, t: Shape, p: usize)
    requires
        linked(a, t, p),
        t is Node,
        t.lchild() is Node,
        fields_ok(a, t, set![t.root_idx() as nat, t.lchild().root_idx() as nat]),
        b.len() == a.len(),
        links_agree(
            a,
            b,
            t.idxs().remove(t.root_idx() as nat).remove(t.lchild().root_idx() as nat).remove(
                t.lchild().rchild().root_idx() as nat,
            ),
        ),
        fields_agree(
            a,
            b,
            t.idxs().remove(t.root_idx() as nat).remove(t.lchild().root_idx() as nat),
        ),
        t.lchild().rchild() is Node ==> {
            let k = t.lchild().rchild().root_idx() as nat;
            &&& b[k as int] is Some
            &&& slot(b, k).left == slot(a, k).left
            &&& slot(b, k).right == slot(a, k).right
            &&& slot(b, k).parent == t.root_idx()
        },
        b[t.root_idx() as int] is Some,
        slot(b, t.root_idx() as nat).left == t.lchild().rchild().root_idx(),
        slot(b, t.root_idx() as nat).right == t.rchild().root_idx(),
        slot(b, t.root_idx() as nat).parent == t.lchild().root_idx(),
        slot(b, t.root_idx() as nat).depth == rotr(t).rchild().height(),
        slot(b, t.root_idx() as nat).cnt == rotr(t).rchild().size(),
        b[t.lchild().root_idx() as int] is Some,
        slot(b, t.lchild().root_idx() as nat).left == t.lchild().lchild().root_idx(),
        slot(b, t.lchild().root_idx() as nat).right == t.root_idx(),
        slot(b, t.lchild().root_idx() as nat).parent == p,
        slot(b, t.lchild().root_idx() as nat).depth == rotr(t).height(),
        slot(b, t.lchild().root_idx() as nat).cnt == rotr(t).size(),
    ensures
        linked(b, rotr(t), p),
        fields_ok(b, rotr(t), Set::empty()),
{
    match t {
        Shape::Node { left: ll, idx: i, right: cc } => {
            match *ll {
                Shape::Node { left: aa, idx: r, right: bb } => {
                    let st = set![i, r];
                    lemma_root_has(a, t, p);
                    assert(linked(a, *ll, i as usize));
                    assert(linked(a, *cc, i as usize));
                    lemma_root_has(a, *ll, i as usize);
                    assert(linked(a, *bb, r as usize));
                    assert(linked(a, *aa, r as usize));
                    lemma_root_has(a, *bb, r as usize);
                    assert(ll.has(r));
                    assert(!cc.has(r));
                    assert(links_agree(a, b, cc.idxs())) by {
                        assert forall|j: nat| cc.idxs().contains(j) implies t.idxs().remove(i).remove(
                            r,
                        ).remove(bb.root_idx() as nat).contains(j) by {
                            if *bb is Node {
                                assert(bb.has(bb.root_idx() as nat));
                            }
                        }
                    }
                    lemma_linked_frame(a, b, *cc, i as usize);
                    assert(links_agree(a, b, aa.idxs())) by {
                        assert forall|j: nat| aa.idxs().contains(j) implies t.idxs().remove(i).remove(
                            r,
                        ).remove(bb.root_idx() as nat).contains(j) by {
                            if *bb is Node {
                                assert(bb.has(bb.root_idx() as nat));
                            }
                        }
                    }
                    lemma_linked_frame(a, b, *aa, r as usize);
                    if *bb is Node {
                        assert(bb.has(bb.root_idx() as nat));
                        assert(links_agree(a, b, bb.idxs().remove(bb.root_idx() as nat))) by {
                            assert forall|j: nat| bb.idxs().remove(bb.root_idx() as nat).contains(
                                j,
                            ) implies t.idxs().remove(i).remove(r).remove(bb.root_idx() as nat).contains(
                                j,
                            ) by {}
                        }
                        lemma_linked_reparent(a, b, *bb, r as usize, i as usize);
                    }
                    assert(fields_agree(a, b, aa.idxs().difference(st))) by {
                        assert(aa.idxs().difference(st).subset_of(t.idxs().remove(i).remove(r)));
                        lemma_fields_agree_subset(
                            a,
                            b,
                            t.idxs().remove(i).remove(r),
                            aa.idxs().difference(st),
                        );
                    }
                    assert(fields_agree(a, b, bb.idxs().difference(st))) by {
                        assert(bb.idxs().difference(st).subset_of(t.idxs().remove(i).remove(r)));
                        lemma_fields_agree_subset(
                            a,
                            b,
                            t.idxs().remove(i).remove(r),
                            bb.idxs().difference(st),
                        );
                    }
                    assert(fields_agree(a, b, cc.idxs().difference(st))) by {
                        assert(cc.idxs().difference(st).subset_of(t.idxs().remove(i).remove(r)));
                        lemma_fields_agree_subset(
                            a,
                            b,
                            t.idxs().remove(i).remove(r),
                            cc.idxs().difference(st),
                        );
                    }
                    assert(fields_ok(a, *ll, st));
                    lemma_fields_frame(a, b, *aa, st, st);
                    lemma_fields_frame(a, b, *bb, st, st);
                    lemma_fields_frame(a, b, *cc, st, st);
                    lemma_fields_mono(b, *aa, st, Set::empty());
                    lemma_fields_mono(b, *bb, st, Set::empty());
                    lemma_fields_mono(b, *cc, st, Set::empty());
                    let inner = Shape::Node { left: bb, idx: i, right: cc };
                    assert(rotr(t).rchild() == inner);
                    assert(!bb.has(i));
                    assert(bb.idxs().disjoint(cc.idxs()));
                    assert(linked(b, *bb, i as usize));
                    assert(linked(b, inner, r as usize));
                    assert(fields_ok(b, inner, Set::empty()));
                },
                Shape::Leaf => {},
            }
        },
        Shape::Leaf => {},
    }
}

/// The subtree `t` rebalanced when its left side is two levels taller.
pub open spec fn fixl(t: Shape) -> Shape {
    if t.lchild().lchild().height() < t.lchild().rchild().height() {
        rotr(Shape::Node { left: Box::new(rotl(t.lchild())), idx: t.root_nat(), right: Box::new(t.rchild()) })
    } else {
        rotr(t)
    }
}

/// The subtree `t` rebalanced when its right side is two levels taller.
pub open spec fn fixr(t: Shape) -> Shape {
    if t.rchild().rchild().height() < t.rchild().lchild().height() {
        rotl(Shape::Node { left: Box::new(t.lchild()), idx: t.root_nat(), right: Box::new(rotr(t.rchild())) })
    } else {
        rotl(t)
    }
}

/// Replacing one child of the root by a subtree with the same slots keeps
/// the root's node and the other child linked.
pub proof fn lemma_child_swap<T>(
    a: Seq<Option<Node<T>>>,
    b: Seq<Option<Node<T>>>,
    t: Shape,
    p: usize,
    nt: Shape,
    left_side: bool,
)
    requires
        linked(a, t, p),
        t is Node,
        left_side ==> nt == (Shape::Node { left: Box::new(nt.lchild()), idx: t.root_nat(), right: Box::new(t.rchild()) }),
        !left_side ==> nt == (Shape::Node { left: Box::new(t.lchild()), idx: t.root_nat(), right: Box::new(nt.rchild()) }),
        left_side ==> nt.lchild().idxs() == t.lchild().idxs() && linked(b, nt.lchild(), t.root_idx()),
        !left_side ==> nt.rchild().idxs() == t.rchild().idxs() && linked(b, nt.rchild(), t.root_idx()),
        left_side ==> links_agree(a, b, t.rchild().idxs()),
        !left_side ==> links_agree(a, b, t.lchild().idxs()),
        t.root_nat() < b.len(),
        b[t.root_nat() as int] is Some,
        slot(b, t.root_nat()).parent == p,
        left_side ==> slot(b, t.root_nat()).left == nt.lchild().root_idx() && slot(b, t.root_nat()).right == t.rchild().root_idx(),
        !left_side ==> slot(b, t.root_nat()).right == nt.rchild().root_idx() && slot(b, t.root_nat()).left == t.lchild().root_idx(),
    ensures
        linked(b, nt, p),
        nt.idxs() == t.idxs(),
{
    let l = t.lchild();
    let r = t.rchild();
    assert(linked(a, l, t.root_idx()));
    assert(linked(a, r, t.root_idx()));
    if left_side {
        lemma_linked_frame(a, b, r, t.root_idx());
    } else {
        lemma_linked_frame(a, b, l, t.root_idx());
    }
    assert(nt.idxs() =~= t.idxs());
}

/// A subtree is no larger than the tree.
pub proof fn lemma_sub_size(s: Shape, i: nat)
    ensures
        s.sub(i).size() <= s.size(),
    decreases s,
{
    match s {
        Shape::Leaf => {},
        Shape::Node { left, idx, right } => {
            if i == idx {
            } else if left.has(i) {
                lemma_sub_size(*left, i);
            } else {
                lemma_sub_size(*right, i);
            }
        },
    }
}

/// Two arenas with the same data give the same sequence for live slots.
pub proof fn lemma_data_same<T>(a: Seq<Option<Node<T>>>, b: Seq<Option<Node<T>>>, o: Seq<nat>)
    requires
        same_data(a, b),
        forall|k: int| 0 <= k < o.len() ==> o[k] < a.len() && a[o[k] as int] is Some,
    ensures
        data_of(a, o) == data_of(b, o),
{
    assert(data_of(a, o) =~= data_of(b, o));
}

/// Rewriting a node without touching its links keeps the links.
pub proof fn lemma_update_links<T>(a: Seq<Option<Node<T>>>, i: int, n: Node<T>, set: Set<nat>)
    requires
        0 <= i < a.len(),
        a[i] is Some,
        n.left == a[i].unwrap().left,
        n.right == a[i].unwrap().right,
        n.parent == a[i].unwrap().parent,
        forall|j: nat| set.contains(j) ==> j < a.len(),
    ensures
        links_agree(a, a.update(i, Some(n)), set),
{
}

/// Where a slot sits in in-order.
pub proof fn lemma_pos(s: Shape, i: nat)
    requires
        s.distinct(),
        s.has(i),
    ensures
        0 <= s.pos(i) < s.order().len(),
        s.order()[s.pos(i)] == i,
        forall|k: int| 0 <= k < s.order().len() && s.order()[k] == i ==> k == s.pos(i),
{
    lemma_sub_order(s, i);
    lemma_order_facts(s);
    let t = s.sub(i);
    assert(t is Node) by {
        lemma_sub_is_node(s, i);
    }
    assert(t.order() == t.lchild().order() + seq![i] + t.rchild().order()) by {
        lemma_sub_is_node(s, i);
    }
    lemma_sub_distinct(s, i);
    lemma_order_facts(t.lchild());
    assert(s.order()[s.pos(i)] == i);
}

/// The subtree of a slot in the tree is a node rooted there.
pub proof fn lemma_sub_is_node(s: Shape, i: nat)
    requires
        s.has(i),
    ensures
        s.sub(i) is Node,
        s.sub(i).root_nat() == i,
        s.sub(i).order() == s.sub(i).lchild().order() + seq![i] + s.sub(i).rchild().order(),
        s.sub(i).has(i),
        s.sub(i).idxs().subset_of(s.idxs()),
    decreases s,
{
    match s {
        Shape::Leaf => {},
        Shape::Node { left, idx, right } => {
            if i == idx {
            } else if left.has(i) {
                lemma_sub_is_node(*left, i);
            } else {
                lemma_sub_is_node(*right, i);
            }
        },
    }
}

/// Subtrees of a tree without repeats have none either.
pub proof fn lemma_sub_distinct(s: Shape, i: nat)
    requires
        s.distinct(),
    ensures
        s.sub(i).distinct(),
        s.sub(i).lchild().distinct(),
        s.sub(i).rchild().distinct(),
    decreases s,
{
    match s {
        Shape::Leaf => {},
        Shape::Node { left, idx, right } => {
            if i == idx {
            } else if left.has(i) {
                lemma_sub_distinct(*left, i);
            } else {
                lemma_sub_distinct(*right, i);
            }
        },
    }
}

/// What comes before the children of a slot.
pub proof fn lemma_before_children(s: Shape, i: nat)
    requires
        s.distinct(),
        s.has(i),
    ensures
        s.sub(i).lchild() matches Shape::Node { idx: c, .. } ==> s.before(c) == s.before(i),
        s.sub(i).rchild() matches Shape::Node { idx: c, .. } ==> s.before(c) == s.before(i)
            + s.sub(i).lchild().order() + seq![i],
    decreases s,
{
    match s {
        Shape::Leaf => {},
        Shape::Node { left, idx, right } => {
            if i == idx {
                if let Shape::Node { idx: c, .. } = *left {
                    assert(left.has(c));
                    assert(left.before(c) == Seq::<nat>::empty());
                }
                if let Shape::Node { idx: c, .. } = *right {
                    assert(right.has(c));
                    assert(!left.has(c));
                    assert(right.before(c) == Seq::<nat>::empty());
                    assert(s.before(c) =~= s.before(i) + s.sub(i).lchild().order() + seq![i]);
                }
            } else if left.has(i) {
                lemma_before_children(*left, i);
                lemma_sub_is_node(*left, i);
                if let Shape::Node { idx: c, .. } = s.sub(i).lchild() {
                    assert(s.sub(i).lchild().has(c));
                    assert(left.has(c));
                }
                if let Shape::Node { idx: c, .. } = s.sub(i).rchild() {
                    assert(s.sub(i).rchild().has(c));
                    assert(left.has(c));
                }
            } else {
                lemma_before_children(*right, i);
                lemma_sub_is_node(*right, i);
                if let Shape::Node { idx: c, .. } = s.sub(i).lchild() {
                    assert(s.sub(i).lchild().has(c));
                    assert(right.has(c));
                    assert(!left.has(c));
                }
                if let Shape::Node { idx: c, .. } = s.sub(i).rchild() {
                    assert(s.sub(i).rchild().has(c));
                    assert(right.has(c));
                    assert(!left.has(c));
                    assert(s.before(c) =~= s.before(i) + s.sub(i).lchild().order() + seq![i]);
                }
            }
        },
    }
}

/// Replacing the subtree of `i` by one with the same root keeps the path to `i`.
pub proof fn lemma_replace_anc_root(s: Shape, i: nat, t: Shape, p: usize)
    requires
        s.distinct(),
        s.has(i),
        t is Node,
        t.root_nat() == i,
    ensures
        s.replace(i, t).has(i),
        s.replace(i, t).anc(i) == s.anc(i),
        s.replace(i, t).sub(i) == t,
        s.replace(i, t).parent_idx(i, p) == s.parent_idx(i, p),
        s.replace(i, t).level(i) == s.level(i),
    decreases s,
{
    match s {
        Shape::Leaf => {},
        Shape::Node { left, idx, right } => {
            if i == idx {
            } else if left.has(i) {
                lemma_replace_anc_root(*left, i, t, idx as usize);
            } else {
                lemma_replace_anc_root(*right, i, t, idx as usize);
                lemma_replace_idxs(*right, i, t);
            }
        },
    }
}

/// `t` with a fresh leaf in slot `new` hung on the empty side of its root.
pub open spec fn attach_shape(t: Shape, new: nat, go_left: bool) -> Shape {
    let leaf = Shape::Node { left: Box::new(Shape::Leaf), idx: new, right: Box::new(Shape::Leaf) };
    if go_left {
        Shape::Node { left: Box::new(leaf), idx: t.root_nat(), right: Box::new(t.rchild()) }
    } else {
        Shape::Node { left: Box::new(t.lchild()), idx: t.root_nat(), right: Box::new(leaf) }
    }
}

/// Where a leaf hung below `cur` lands in in-order.
pub open spec fn attach_pos(s: Shape, cur: nat, go_left: bool) -> int {
    if go_left {
        s.before(cur).len() as int
    } else {
        (s.before(cur).len() + s.sub(cur).order().len()) as int
    }
}

/// Hanging a fresh leaf on an empty side of `cur` keeps the arena linked,
/// leaves only the path to the leaf stale, and inserts the leaf in in-order.
#[verifier::rlimit(60)]
#[verifier::spinoff_prover]
pub proof fn lemma_attach<T>(
    a0: Seq<Option<Node<T>>>,
    a2: Seq<Option<Node<T>>>,
    s: Shape,
    cur: nat,
    new: nat,
    go_left: bool,
)
    requires
        linked(a0, s, INVALID_IDX),
        fields_ok(a0, s, Set::empty()),
        s.has(cur),
        !s.has(new),
        new < a0.len(),
        new < INVALID_IDX,
        go_left ==> s.sub(cur).lchild() is Leaf,
        !go_left ==> s.sub(cur).rchild() is Leaf,
        a2.len() == a0.len(),
        forall|j: int| 0 <= j < a0.len() && j != cur && j != new ==> a2[j] == a0[j],
        go_left ==> a2[cur as int] == Some(Node { left: new as usize, ..slot(a0, cur) }),
        !go_left ==> a2[cur as int] == Some(Node { right: new as usize, ..slot(a0, cur) }),
        a2[new as int] is Some,
        slot(a2, new).left == INVALID_IDX,
        slot(a2, new).right == INVALID_IDX,
        slot(a2, new).parent == cur,
        slot(a2, new).depth == 1,
        slot(a2, new).cnt == 1,
    ensures
        ({
            let s2 = s.replace(cur, attach_shape(s.sub(cur), new, go_left));
            &&& linked(a2, s2, INVALID_IDX)
            &&& fields_ok(a2, s2, s2.anc(new))
            &&& s2.has(new)
            &&& s2.idxs() == set_add(s.idxs(), new)
            &&& s2.order() == seq_put(s.order(), attach_pos(s, cur, go_left), new)
            &&& 0 <= attach_pos(s, cur, go_left) <= s.order().len()
            &&& s2.size() == s.size() + 1
        }),
{
    let t = s.sub(cur);
    let t2 = attach_shape(t, new, go_left);
    let s2 = s.replace(cur, t2);
    let leaf = Shape::Node { left: Box::new(Shape::Leaf), idx: new, right: Box::new(Shape::Leaf) };
    lemma_root_has(a0, s, INVALID_IDX);
    lemma_sub(a0, s, INVALID_IDX, cur);
    lemma_sub_is_node(s, cur);
    lemma_sub_parent(a0, s, INVALID_IDX, cur);
    lemma_linked_distinct(a0, s, INVALID_IDX);
    lemma_linked_distinct(a0, t, s.parent_idx(cur, INVALID_IDX));
    let pp = s.parent_idx(cur, INVALID_IDX);
    assert(linked(a0, t.lchild(), cur as usize));
    assert(linked(a0, t.rchild(), cur as usize));
    assert(!t.has(new));
    assert(cur < INVALID_IDX);
    assert(leaf.lchild().idxs().disjoint(leaf.rchild().idxs()));
    assert(slot(a2, new).parent == cur as usize);
    assert(slot(a2, new).left == leaf.lchild().root_idx());
    assert(!leaf.lchild().has(new));
    assert(linked(a2, leaf.lchild(), new as usize));
    assert(linked(a2, leaf, cur as usize));
    if go_left {
        assert forall|j: nat| t.rchild().idxs().contains(j) implies j < a0.len() by {
            assert(t.has(j));
            assert(s.has(j));
        }
        lemma_agree_except2(a0, a2, t.rchild().idxs(), cur, new);
        lemma_agree_links(a0, a2, t.rchild().idxs());
        lemma_linked_frame(a0, a2, t.rchild(), cur as usize);
        assert(linked(a2, t2, pp));
    } else {
        assert forall|j: nat| t.lchild().idxs().contains(j) implies j < a0.len() by {
            assert(t.has(j));
            assert(s.has(j));
        }
        lemma_agree_except2(a0, a2, t.lchild().idxs(), cur, new);
        lemma_agree_links(a0, a2, t.lchild().idxs());
        lemma_linked_frame(a0, a2, t.lchild(), cur as usize);
        assert(linked(a2, t2, pp));
    }
    assert(t2.idxs() =~= set_add(t.idxs(), new));
    assert(agree_on(a0, a2, s.idxs().difference(t.idxs()).remove(pp as nat))) by {
        assert forall|j: nat| s.idxs().difference(t.idxs()).remove(pp as nat).contains(j) implies j
            < a0.len() && j < a2.len() && a0[j as int] == a2[j as int] by {}
    }
    if cur != s.root_idx() {
        let q = pp as nat;
        assert(s.has(q));
        assert(q != cur);
        assert(a2[q as int] == a0[q as int]);
        let n = slot(a0, q);
        lemma_sub(a0, s, INVALID_IDX, q);
        lemma_sub_is_node(s, q);
        assert(linked(a0, s.sub(q), s.parent_idx(q, INVALID_IDX)));
        assert(n.left == s.sub(q).lchild().root_idx());
        assert(n.right == s.sub(q).rchild().root_idx());
        assert(redirect(n, cur as usize, cur as usize) == n);
    }
    lemma_replace_linked(a0, a2, s, INVALID_IDX, cur, t2);
    // fields
    assert(Shape::Leaf.height() == 0);
    assert(Shape::Leaf.size() == 0);
    assert(leaf.height() == 1);
    assert(leaf.size() == 1);
    assert(fields_ok(a2, Shape::Leaf, Set::empty()));
    assert(fields_ok(a2, leaf, Set::empty()));
    assert(Shape::Leaf.order() == Seq::<nat>::empty());
    assert(leaf.order() =~= seq![new]);
    assert(fields_ok(a0, t, Set::empty())) by {
        lemma_fields_sub(a0, s, Set::empty(), cur);
    }
    if go_left {
        assert(fields_ok(a0, t.rchild(), Set::empty()));
        lemma_agree_fields(a0, a2, t.rchild().idxs());
        lemma_fields_agree_subset(a0, a2, t.rchild().idxs(), t.rchild().idxs().difference(set![cur]));
        lemma_fields_frame(a0, a2, t.rchild(), Set::empty(), set![cur]);
        lemma_fields_mono(a2, leaf, Set::empty(), set![cur]);
    } else {
        assert(fields_ok(a0, t.lchild(), Set::empty()));
        lemma_agree_fields(a0, a2, t.lchild().idxs());
        lemma_fields_agree_subset(a0, a2, t.lchild().idxs(), t.lchild().idxs().difference(set![cur]));
        lemma_fields_frame(a0, a2, t.lchild(), Set::empty(), set![cur]);
        lemma_fields_mono(a2, leaf, Set::empty(), set![cur]);
    }
    assert(fields_ok(a2, t2, set![cur]));
    assert(agree_on(a0, a2, s.idxs().difference(t.idxs()).difference(s.anc(cur)))) by {
        assert forall|j: nat| s.idxs().difference(t.idxs()).difference(s.anc(cur)).contains(j) implies j
            < a0.len() && j < a2.len() && a0[j as int] == a2[j as int] by {}
    }
    assert forall|j: nat| t2.has(j) implies t.has(j) || !s.has(j) by {}
    lemma_replace_fields(a0, a2, s, cur, t2, Set::empty(), set![cur]);
    lemma_replace_anc_root(s, cur, t2, INVALID_IDX);
    lemma_linked_distinct(a2, s2, INVALID_IDX);
    lemma_sub_children(a2, s2, INVALID_IDX, cur);
    if go_left {
        assert(s2.sub(cur).lchild() == leaf);
    } else {
        assert(s2.sub(cur).rchild() == leaf);
    }
    assert(s2.anc(new) == set_add(s.anc(cur), new));
    lemma_fields_mono(
        a2,
        s2,
        Set::<nat>::empty().union(set![cur]).union(s.anc(cur).remove(cur)),
        s2.anc(new),
    );
    // order
    lemma_replace_order(s, cur, t2);
    lemma_sub_order(s, cur);
    lemma_replace_idxs(s, cur, t2);
    assert(s2.idxs() =~= set_add(s.idxs(), new));
    if go_left {
        assert(t.lchild().order() == Seq::<nat>::empty());
        assert(t2.order() =~= seq![new] + t.order());
        assert(s2.order() =~= seq_put(s.order(), attach_pos(s, cur, go_left), new));
    } else {
        assert(t.rchild().order() == Seq::<nat>::empty());
        assert(t2.order() =~= t.order() + seq![new]);
        assert(s2.order() =~= seq_put(s.order(), attach_pos(s, cur, go_left), new));
    }
    lemma_order_facts(s);
    lemma_order_facts(s2);
}

/// Unhooking a node that has no right child, its left child taking its
/// place, keeps the arena linked and drops the node from in-order.
pub proof fn lemma_detach<T>(a0: Seq<Option<Node<T>>>, a3: Seq<Option<Node<T>>>, s: Shape, idx: nat)
    requires
        linked(a0, s, INVALID_IDX),
        fields_ok(a0, s, Set::empty()),
        s.has(idx),
        s.sub(idx).rchild() is Leaf,
        a3.len() == a0.len(),
        a3[idx as int] is None,
        forall|j: int|
            0 <= j < a0.len() && j != idx && j != s.sub(idx).lchild().root_idx() && j
                != s.parent_idx(idx, INVALID_IDX) ==> a3[j] == a0[j],
        s.sub(idx).lchild() is Node ==> a3[s.sub(idx).lchild().root_idx() as int] == Some(
            Node {
                parent: s.parent_idx(idx, INVALID_IDX),
                ..slot(a0, s.sub(idx).lchild().root_nat())
            },
        ),
        idx != s.root_idx() ==> a3[s.parent_idx(idx, INVALID_IDX) as int] == Some(
            redirect(
                slot(a0, nat_of(s.parent_idx(idx, INVALID_IDX))),
                idx as usize,
                s.sub(idx).lchild().root_idx(),
            ),
        ),
    ensures
        ({
            let s2 = s.replace(idx, s.sub(idx).lchild());
            let pp = s.parent_idx(idx, INVALID_IDX);
            &&& linked(a3, s2, INVALID_IDX)
            &&& s2.idxs() == s.idxs().remove(idx)
            &&& s2.order() == s.order().remove(s.pos(idx))
            &&& 0 <= s.pos(idx) < s.order().len()
            &&& s2.size() + 1 == s.size()
            &&& idx == s.root_idx() ==> s2 == s.sub(idx).lchild() && fields_ok(a3, s2, Set::empty())
            &&& idx != s.root_idx() ==> s2.has(nat_of(pp)) && fields_ok(a3, s2, s2.anc(nat_of(pp)))
                && pp < INVALID_IDX
        }),
{
    let t = s.sub(idx);
    let l = t.lchild();
    let s2 = s.replace(idx, l);
    let pp = s.parent_idx(idx, INVALID_IDX);
    lemma_root_has(a0, s, INVALID_IDX);
    lemma_sub(a0, s, INVALID_IDX, idx);
    lemma_sub_is_node(s, idx);
    lemma_sub_parent(a0, s, INVALID_IDX, idx);
    lemma_linked_distinct(a0, s, INVALID_IDX);
    lemma_linked_distinct(a0, t, pp);
    if idx != s.root_idx() {
        lemma_sub(a0, s, INVALID_IDX, pp as nat);
        assert(s.anc(idx).contains(pp as nat));
        if t.has(pp as nat) {
            assert(s.anc(idx).intersect(t.idxs()).contains(pp as nat));
        }
    }
    assert(linked(a0, l, idx as usize));
    lemma_root_has(a0, l, idx as usize);
    if l is Node {
        assert(l.has(l.root_nat()));
        assert(links_agree(a0, a3, l.idxs().remove(l.root_idx() as nat))) by {
            assert forall|j: nat| l.idxs().remove(l.root_idx() as nat).contains(j) implies j < a0.len()
                && j != idx && j != pp by {
                assert(t.has(j));
                assert(s.has(j));
                if j == pp {
                    assert(s.anc(idx).contains(j));
                    assert(s.anc(idx).intersect(t.idxs()).contains(j));
                }
            }
            lemma_agree_except(
                a0,
                a3,
                l.idxs().remove(l.root_idx() as nat),
                set![idx as int, l.root_idx() as int, pp as int],
            );
            lemma_agree_links(a0, a3, l.idxs().remove(l.root_idx() as nat));
        }
        lemma_linked_reparent(a0, a3, l, idx as usize, pp);
    }
    assert forall|j: nat| l.has(j) implies t.has(j) || !s.has(j) by {}
    if idx != s.root_idx() {
        let q = pp as nat;
        assert(s.anc(idx).contains(q));
        if t.has(q) {
            assert(s.anc(idx).intersect(t.idxs()).contains(q));
        }
    }
    assert(agree_on(a0, a3, s.idxs().difference(t.idxs()).remove(pp as nat))) by {
        assert forall|j: nat| s.idxs().difference(t.idxs()).remove(pp as nat).contains(j) implies j
            < a0.len() && j < a3.len() && a0[j as int] == a3[j as int] by {
            assert(j != idx);
            if l is Node {
                assert(l.has(l.root_nat()));
            }
            assert(a3[j as int] == a0[j as int]);
        }
    }
    lemma_replace_linked(a0, a3, s, INVALID_IDX, idx, l);
    lemma_replace_idxs(s, idx, l);
    assert(s2.idxs() =~= s.idxs().remove(idx));
    lemma_replace_order(s, idx, l);
    lemma_sub_order(s, idx);
    lemma_pos(s, idx);
    assert(t.rchild().order() == Seq::<nat>::empty());
    lemma_sub_distinct(s, idx);
    lemma_order_facts(l);
    assert(t.order() =~= l.order() + seq![idx]);
    assert(s.pos(idx) == s.before(idx).len() + l.order().len());
    assert(s2.order() =~= s.order().remove(s.pos(idx)));
    lemma_linked_distinct(a3, s2, INVALID_IDX);
    lemma_order_facts(s2);
    lemma_order_facts(s);
    // fields
    assert(fields_ok(a0, t, Set::empty())) by {
        lemma_fields_sub(a0, s, Set::empty(), idx);
    }
    assert(fields_ok(a0, l, Set::empty()));
    assert(fields_agree(a0, a3, l.idxs())) by {
        assert forall|j: nat| l.idxs().contains(j) implies j < a0.len() && j < a3.len() && slot(a0, j).depth
            == slot(a3, j).depth && slot(a0, j).cnt == slot(a3, j).cnt by {
            assert(t.has(j));
            assert(s.has(j));
            assert(j != idx);
            if j == pp {
                assert(s.anc(idx).contains(j));
                assert(s.anc(idx).intersect(t.idxs()).contains(j));
            }
            if j != l.root_nat() {
                assert(a3[j as int] == a0[j as int]);
            }
        }
    }
    lemma_fields_agree_subset(a0, a3, l.idxs(), l.idxs().difference(Set::empty()));
    lemma_fields_frame(a0, a3, l, Set::empty(), Set::empty());
    assert(agree_on(a0, a3, s.idxs().difference(t.idxs()).difference(s.anc(idx)))) by {
        assert(s.idxs().difference(t.idxs()).difference(s.anc(idx)).subset_of(
            s.idxs().difference(t.idxs()).remove(pp as nat),
        )) by {
            if idx != s.root_idx() {
                assert(s.anc(idx).contains(pp as nat));
            }
        }
        lemma_agree_subset(
            a0,
            a3,
            s.idxs().difference(t.idxs()).remove(pp as nat),
            s.idxs().difference(t.idxs()).difference(s.anc(idx)),
        );
    }
    lemma_replace_fields(a0, a3, s, idx, l, Set::empty(), Set::empty());
    if idx != s.root_idx() {
        let q = pp as nat;
        lemma_replace_path(s, idx, l, q, INVALID_IDX);
        lemma_fields_mono(
            a3,
            s2,
            Set::<nat>::empty().union(Set::empty()).union(s.anc(idx).remove(idx)),
            s2.anc(q),
        );
    } else {
        assert(s2 == l);
        assert(s.anc(idx) == set![idx]);
        lemma_fields_mono(
            a3,
            s2,
            Set::<nat>::empty().union(Set::empty()).union(s.anc(idx).remove(idx)),
            Set::empty(),
        );
    }
}

/// Positions of a slot's children and the span of its subtree in in-order.
pub proof fn lemma_pos_children(s: Shape, i: nat)
    requires
        s.distinct(),
        s.has(i),
    ensures
        s.pos(i) == s.before(i).len() + s.sub(i).lchild().size(),
        s.sub(i).size() == s.sub(i).lchild().size() + 1 + s.sub(i).rchild().size(),
        s.before(i).len() + s.sub(i).size() <= s.size(),
        s.sub(i).height() <= s.height(),
        s.sub(i).lchild().height() < s.sub(i).height(),
        s.sub(i).rchild().height() < s.sub(i).height(),
        s.sub(i).lchild() matches Shape::Node { idx: c, .. } ==> s.before(c).len() == s.before(i).len()
            && s.sub(c) == s.sub(i).lchild() && s.pos(c) == s.pos(i) - 1 - s.sub(c).rchild().size(),
        s.sub(i).rchild() matches Shape::Node { idx: c, .. } ==> s.before(c).len() == s.before(i).len()
            + s.sub(i).lchild().size() + 1 && s.sub(c) == s.sub(i).rchild() && s.pos(c) == s.pos(i) + 1
            + s.sub(c).lchild().size(),
{
    lemma_sub_is_node(s, i);
    lemma_sub_distinct(s, i);
    lemma_before_children(s, i);
    lemma_sub_order(s, i);
    lemma_order_facts(s);
    lemma_order_facts(s.sub(i));
    lemma_order_facts(s.sub(i).lchild());
    lemma_order_facts(s.sub(i).rchild());
    lemma_sub_height(s, i);
    let t = s.sub(i);
    assert(t.size() == t.lchild().size() + 1 + t.rchild().size());
    if let Shape::Node { idx: c, .. } = t.lchild() {
        assert(t.lchild().has(c));
        assert(s.has(c));
        lemma_sub_in_sub(s, i, c);
        lemma_sub_is_node(s, c);
        assert(s.sub(c).size() == s.sub(c).lchild().size() + 1 + s.sub(c).rchild().size());
    }
    if let Shape::Node { idx: c, .. } = t.rchild() {
        assert(t.rchild().has(c));
        assert(s.has(c));
        lemma_sub_in_sub(s, i, c);
        lemma_sub_is_node(s, c);
    }
}

/// A subtree is no taller than the tree.
pub proof fn lemma_sub_height(s: Shape, i: nat)
    ensures
        s.sub(i).height() <= s.height(),
    decreases s,
{
    match s {
        Shape::Leaf => {},
        Shape::Node { left, idx, right } => {
            if i == idx {
            } else if left.has(i) {
                lemma_sub_height(*left, i);
            } else {
                lemma_sub_height(*right, i);
            }
        },
    }
}

/// The subtree at a child of `i` is that child.
pub proof fn lemma_sub_in_sub(s: Shape, i: nat, c: nat)
    requires
        s.distinct(),
        s.has(i),
        s.sub(i) is Node,
        (s.sub(i).lchild() is Node && s.sub(i).lchild().root_nat() == c) || (s.sub(i).rchild() is Node
            && s.sub(i).rchild().root_nat() == c),
    ensures
        s.sub(c) == (if s.sub(i).lchild().root_nat() == c && s.sub(i).lchild() is Node {
            s.sub(i).lchild()
        } else {
            s.sub(i).rchild()
        }),
    decreases s,
{
    match s {
        Shape::Leaf => {},
        Shape::Node { left, idx, right } => {
            if i == idx {
                if left.root_nat() == c && *left is Node {
                    assert(left.has(c));
                    assert(c != idx);
                    assert(s.sub(c) == left.sub(c));
                } else {
                    assert(right.has(c));
                    assert(c != idx);
                    assert(!left.has(c));
                    assert(s.sub(c) == right.sub(c));
                }
            } else if left.has(i) {
                lemma_sub_is_node(*left, i);
                let t = left.sub(i);
                if let Shape::Node { idx: l, .. } = t.lchild() {
                    assert(t.lchild().has(l));
                    assert(left.has(l));
                }
                if let Shape::Node { idx: r, .. } = t.rchild() {
                    assert(t.rchild().has(r));
                    assert(left.has(r));
                }
                lemma_sub_in_sub(*left, i, c);
                assert(left.has(c));
            } else {
                lemma_sub_is_node(*right, i);
                let t = right.sub(i);
                if let Shape::Node { idx: l, .. } = t.lchild() {
                    assert(t.lchild().has(l));
                    assert(right.has(l));
                }
                if let Shape::Node { idx: r, .. } = t.rchild() {
                    assert(t.rchild().has(r));
                    assert(right.has(r));
                }
                lemma_sub_in_sub(*right, i, c);
                assert(right.has(c));
                assert(!left.has(c));
            }
        },
    }
}

/// `after` is `before` with `x` put at position `k`, where `cmp` ranked `x`
/// not below the element before that position and below the element at it.
pub open spec fn placed_at<T, F: Fn(&T, &T) -> Ordering>(
    before: Seq<T>,
    after: Seq<T>,
    x: T,
    cmp: F,
    k: int,
) -> bool {
    &&& 0 <= k <= before.len()
    &&& after == seq_put(before, k, x)
    &&& k > 0 ==> exists|o: Ordering| #[trigger] call_ensures(cmp, (&x, &before[k - 1]), o) && !(o is Less)
    &&& k < before.len() ==> call_ensures(cmp, (&x, &before[k]), Ordering::Less)
}

/// No element of `s` ranks below an element before it, under `le`.
pub open spec fn sorted_by<T>(s: Seq<T>, le: spec_fn(T, T) -> bool) -> bool {
    forall|i: int, j: int| 0 <= i < j < s.len() ==> #[trigger] le(s[i], s[j])
}

/// `le` is a total preorder, and `cmp` answers `Less` exactly when its first
/// argument ranks strictly below its second under `le`.
pub open spec fn ranks_by<T, F: Fn(&T, &T) -> Ordering>(cmp: F, le: spec_fn(T, T) -> bool) -> bool {
    &&& forall|a: T, b: T| #[trigger] le(a, b) || le(b, a)
    &&& forall|a: T, b: T, c: T| #[trigger] le(a, b) && #[trigger] le(b, c) ==> le(a, c)
    &&& forall|a: &T, b: &T, o: Ordering| #[trigger]
        call_ensures(cmp, (a, b), o) ==> ((o is Less) == !le(*b, *a))
}

/// Inserting into a tree whose elements are sorted under `le`, with a
/// comparator that ranks by `le`, leaves the elements sorted: what
/// [`AvlTree::insert`] places, it places in order.
pub proof fn lemma_insert_keeps_sorted<T, F: Fn(&T, &T) -> Ordering>(
    before: Seq<T>,
    after: Seq<T>,
    x: T,
    cmp: F,
    le: spec_fn(T, T) -> bool,
    k: int,
)
    requires
        ranks_by(cmp, le),
        sorted_by(before, le),
        placed_at(before, after, x, cmp, k),
    ensures
        sorted_by(after, le),
{
    if k > 0 {
        let o = choose|o: Ordering| #[trigger] call_ensures(cmp, (&x, &before[k - 1]), o) && !(o is Less);
        assert(call_ensures(cmp, (&x, &before[k - 1]), o));
        assert(le(before[k - 1], x));
    }
    if k < before.len() {
        assert(call_ensures(cmp, (&x, &before[k]), Ordering::Less));
        assert(!le(before[k], x));
        assert(le(before[k], x) || le(x, before[k]));
    }
    assert forall|i: int, j: int| 0 <= i < j < after.len() implies #[trigger] le(after[i], after[j]) by {
        if j < k {
            assert(after[i] == before[i] && after[j] == before[j]);
        } else if j == k {
            assert(after[j] == x && after[i] == before[i]);
            if i < k - 1 {
                assert(le(before[i], before[k - 1]));
            } else {
                assert(le(before[i], before[i]) || le(before[i], before[i]));
            }
        } else if i < k {
            assert(after[i] == before[i] && after[j] == before[j - 1]);
            assert(le(before[i], before[j - 1]));
        } else if i == k {
            assert(after[i] == x && after[j] == before[j - 1]);
            if j - 1 > k {
                assert(le(before[k], before[j - 1]));
            } else {
                assert(le(before[k], before[k]) || le(before[k], before[k]));
            }
        } else {
            assert(after[i] == before[i - 1] && after[j] == before[j - 1]);
            assert(le(before[i - 1], before[j - 1]));
        }
    }
}

/// Into elements sorted under `le`, with a comparator that ranks by `le`,
/// [`AvlTree::insert`] puts the new element after exactly the elements it
/// does not rank below: its position is the number of those elements, and
/// equal elements stay before it.
pub proof fn lemma_insert_position<T, F: Fn(&T, &T) -> Ordering>(
    before: Seq<T>,
    after: Seq<T>,
    x: T,
    cmp: F,
    le: spec_fn(T, T) -> bool,
    k: int,
)
    requires
        ranks_by(cmp, le),
        sorted_by(before, le),
        placed_at(before, after, x, cmp, k),
    ensures
        forall|i: int| 0 <= i < k ==> le(#[trigger] before[i], x),
        forall|i: int| k <= i < before.len() ==> !le(#[trigger] before[i], x),
{
    if k > 0 {
        let o = choose|o: Ordering| #[trigger] call_ensures(cmp, (&x, &before[k - 1]), o) && !(o is Less);
        assert(call_ensures(cmp, (&x, &before[k - 1]), o));
        assert(le(before[k - 1], x));
    }
    if k < before.len() {
        assert(call_ensures(cmp, (&x, &before[k]), Ordering::Less));
        assert(!le(before[k], x));
    }
    assert forall|i: int| 0 <= i < k implies le(#[trigger] before[i], x) by {
        if i < k - 1 {
            assert(le(before[i], before[k - 1]));
        }
    }
    assert forall|i: int| k <= i < before.len() implies !le(#[trigger] before[i], x) by {
        if i > k {
            assert(le(before[k], before[i]));
            if le(before[i], x) {
                assert(le(before[k], x));
            }
        }
    }
}

/// Removing an element from elements sorted under `le` leaves them sorted:
/// what [`AvlTree::delete`] leaves is in order if the tree was.
pub proof fn lemma_delete_keeps_sorted<T>(before: Seq<T>, p: int, le: spec_fn(T, T) -> bool)
    requires
        sorted_by(before, le),
        0 <= p < before.len(),
    ensures
        sorted_by(before.remove(p), le),
{
    let after = before.remove(p);
    assert forall|i: int, j: int| 0 <= i < j < after.len() implies #[trigger] le(after[i], after[j]) by {
        let i0 = if i < p { i } else { i + 1 };
        let j0 = if j < p { j } else { j + 1 };
        assert(after[i] == before[i0] && after[j] == before[j0]);
        assert(le(before[i0], before[j0]));
    }
}

/// The element at the position of a slot is the data of that slot.
pub proof fn lemma_data_at<T>(a: Seq<Option<Node<T>>>, s: Shape, x: nat)
    requires
        linked(a, s, INVALID_IDX),
        s.has(x),
    ensures
        0 <= s.pos(x) < data_of(a, s.order()).len(),
        data_of(a, s.order())[s.pos(x)] == slot(a, x).data,
{
    lemma_linked_distinct(a, s, INVALID_IDX);
    lemma_pos(s, x);
}

/// Where the descent of an insertion ends, the new element goes between
/// the slots it last passed on its left and on its right, which `cmp`
/// ranked below and not above it.
pub proof fn lemma_insert_place<T, F: Fn(&T, &T) -> Ordering>(
    a: Seq<Option<Node<T>>>,
    s: Shape,
    cur: nat,
    go_left: bool,
    data: T,
    cmp: F,
    lower: Option<nat>,
    upper: Option<nat>,
    last: Ordering,
)
    requires
        linked(a, s, INVALID_IDX),
        fields_ok(a, s, Set::empty()),
        s.has(cur),
        go_left ==> s.sub(cur).lchild() is Leaf,
        !go_left ==> s.sub(cur).rchild() is Leaf,
        call_ensures(cmp, (&data, &slot(a, cur).data), last),
        go_left == (last is Less),
        lower is None ==> s.before(cur).len() == 0,
        lower matches Some(l) ==> s.has(l) && s.pos(l) + 1 == s.before(cur).len() && exists|o: Ordering|
            #[trigger] call_ensures(cmp, (&data, &slot(a, l).data), o) && !(o is Less),
        upper is None ==> s.before(cur).len() + s.sub(cur).size() == s.size(),
        upper matches Some(h) ==> s.has(h) && s.pos(h) == s.before(cur).len() + s.sub(cur).size()
            && call_ensures(cmp, (&data, &slot(a, h).data), Ordering::Less),
    ensures
        placed_at(
            data_of(a, s.order()),
            seq_put(data_of(a, s.order()), attach_pos(s, cur, go_left), data),
            data,
            cmp,
            attach_pos(s, cur, go_left),
        ),
{
    let v = data_of(a, s.order());
    let k = attach_pos(s, cur, go_left);
    lemma_linked_distinct(a, s, INVALID_IDX);
    lemma_order_facts(s);
    lemma_pos_children(s, cur);
    lemma_sub_is_node(s, cur);
    lemma_sub_distinct(s, cur);
    lemma_order_facts(s.sub(cur));
    lemma_data_at(a, s, cur);
    if let Some(l) = lower {
        lemma_data_at(a, s, l);
    }
    if let Some(h) = upper {
        lemma_data_at(a, s, h);
    }
    if go_left {
        assert(k == s.pos(cur));
        if k > 0 {
            assert(lower is Some);
        }
    } else {
        assert(k == s.pos(cur) + 1);
        assert(v[k - 1] == slot(a, cur).data);
        if k < v.len() {
            assert(upper is Some);
        }
    }
}

/// What the arena records at a slot of a well-formed tree: its links, and
/// the sizes of its children's subtrees.
pub proof fn lemma_slot_facts<T>(a: Seq<Option<Node<T>>>, s: Shape, x: nat)
    requires
        linked(a, s, INVALID_IDX),
        fields_ok(a, s, Set::empty()),
        s.has(x),
    ensures
        x < a.len(),
        a[x as int] is Some,
        slot(a, x).left == s.sub(x).lchild().root_idx(),
        slot(a, x).right == s.sub(x).rchild().root_idx(),
        slot(a, x).parent == s.parent_idx(x, INVALID_IDX),
        live_or_none(a, slot(a, x).left),
        live_or_none(a, slot(a, x).right),
        cnt_at(a, slot(a, x).left) == s.sub(x).lchild().size(),
        cnt_at(a, slot(a, x).right) == s.sub(x).rchild().size(),
        s.sub(x).lchild() is Node ==> s.has(s.sub(x).lchild().root_nat())
            && s.sub(x).lchild().root_idx() as nat == s.sub(x).lchild().root_nat(),
        s.sub(x).rchild() is Node ==> s.has(s.sub(x).rchild().root_nat())
            && s.sub(x).rchild().root_idx() as nat == s.sub(x).rchild().root_nat(),
{
    lemma_linked_distinct(a, s, INVALID_IDX);
    lemma_sub(a, s, INVALID_IDX, x);
    lemma_sub_is_node(s, x);
    lemma_sub_children(a, s, INVALID_IDX, x);
    let t = s.sub(x);
    assert(linked(a, t, s.parent_idx(x, INVALID_IDX)));
    lemma_root_has(a, t.lchild(), x as usize);
    lemma_root_has(a, t.rchild(), x as usize);
    lemma_linked_distinct(a, t.lchild(), x as usize);
    lemma_linked_distinct(a, t.rchild(), x as usize);
    if let Shape::Node { idx: c, .. } = t.lchild() {
        assert(t.lchild().has(c));
        lemma_fields_at(a, s, Set::empty(), c);
    }
    if let Shape::Node { idx: c, .. } = t.rchild() {
        assert(t.rchild().has(c));
        lemma_fields_at(a, s, Set::empty(), c);
    }
}

/// The recorded height of the subtree at `i` (zero for no node).
pub open spec fn depth_at<T>(nodes: Seq<Option<Node<T>>>, i: usize) -> u32 {
    if i == INVALID_IDX {
        0
    } else {
        slot(nodes, i as nat).depth
    }
}

/// The recorded size of the subtree at `i` (zero for no node).
pub open spec fn cnt_at<T>(nodes: Seq<Option<Node<T>>>, i: usize) -> u32 {
    if i == INVALID_IDX {
        0
    } else {
        slot(nodes, i as nat).cnt
    }
}

/// `i` is no node, or a slot that holds one.
pub open spec fn live_or_none<T>(nodes: Seq<Option<Node<T>>>, i: usize) -> bool {
    i == INVALID_IDX || (i < nodes.len() && nodes[i as int] is Some)
}

/// Both arenas have the same length and agree outside `set`.
pub open spec fn same_outside<T>(a: Seq<Option<Node<T>>>, b: Seq<Option<Node<T>>>, set: Set<nat>) -> bool {
    &&& a.len() == b.len()
    &&& forall|j: int| 0 <= j < a.len() && !set.contains(j as nat) ==> a[j] == b[j]
}

/// Both arenas hold nodes in the same slots, with the same data.
pub open spec fn same_data<T>(a: Seq<Option<Node<T>>>, b: Seq<Option<Node<T>>>) -> bool {
    &&& a.len() == b.len()
    &&& forall|j: int|
        0 <= j < a.len() ==> (a[j] is Some <==> b[j] is Some) && (a[j] is Some ==> a[j].unwrap().data
            == b[j].unwrap().data)
}

/// Position `q` of `order` is the first from `p` on whose node in `a` has no
/// right child.
pub open spec fn first_without_right<T>(a: Seq<Option<Node<T>>>, order: Seq<nat>, p: int, q: int) -> bool {
    &&& p <= q < order.len()
    &&& slot(a, order[q]).right == INVALID_IDX
    &&& forall|r: int| p <= r < q ==> #[trigger] slot(a, order[r]).right != INVALID_IDX
}

/// After an element at position `p` leaves and the slot at position `q` is
/// freed, every other slot of `before` is still in `after`: those from `p`
/// up to `q` hold the element that came after them, the others their own.
pub open spec fn shifted_from<T>(before: AvlTree<T>, after: AvlTree<T>, p: int, q: int) -> bool {
    forall|i: nat| #[trigger] before.tree().has(i) && i != before.slots()[q] ==> {
        let r = before.tree().pos(i);
        &&& after.tree().has(i)
        &&& after.view()[after.tree().pos(i)] == if p <= r < q {
            before.view()[r + 1]
        } else {
            before.view()[r]
        }
    }
}

/// Arena-allocated AVL tree: nodes live in a vector and refer to each other
/// by index; freed slots are kept for reuse.
pub struct AvlTree<T> {
    nodes: Vec<Option<Node<T>>>,
    root: usize,
    free_list: Vec<usize>,
    shape: Ghost<Shape>,
}

impl<T> AvlTree<T> {
    /// The shape of the tree.
    pub closed spec fn tree(&self) -> Shape {
        self.shape@
    }

    /// The arena.
    pub closed spec fn arena(&self) -> Seq<Option<Node<T>>> {
        self.nodes@
    }

    /// The data in in-order.
    pub closed spec fn view(&self) -> Seq<T> {
        data_of(self.nodes@, self.shape@.order())
    }

    /// The slot of each element, in in-order.
    pub closed spec fn slots(&self) -> Seq<nat> {
        self.shape@.order()
    }

    /// The arena agrees with the shape, all recorded fields outside `stale`
    /// are right, and free slots are empty.
    pub closed spec fn shaped(&self, stale: Set<nat>) -> bool {
        &&& linked(self.nodes@, self.shape@, INVALID_IDX)
        &&& fields_ok(self.nodes@, self.shape@, stale)
        &&& self.nodes@.len() < INVALID_IDX
        &&& self.shape@.size() <= u32::MAX
        &&& forall|j: nat| j < self.nodes@.len() ==> (self.nodes@[j as int] is Some <==> self.shape@.has(j))
        &&& forall|k: int|
            0 <= k < self.free_list@.len() ==> self.free_list@[k] < self.nodes@.len()
                && self.nodes@[self.free_list@[k] as int] is None
        &&& forall|k1: int, k2: int|
            0 <= k1 < k2 < self.free_list@.len() ==> self.free_list@[k1] != self.free_list@[k2]
    }

    /// The tree is well formed.
    pub closed spec fn wf(&self) -> bool {
        &&& self.shaped(Set::empty())
        &&& self.shape@.balanced()
        &&& self.root == self.shape@.root_idx()
    }

    /// The node in slot `i`.
    fn node(&self, i: usize) -> (n: &Node<T>)
        requires
            i < self.nodes@.len(),
            self.nodes@[i as int] is Some,
        ensures
            *n == slot(self.nodes@, i as nat),
    {
        self.nodes[i].as_ref().unwrap()
    }

    fn set_left(&mut self, i: usize, v: usize)
        requires
            i < old(self).nodes@.len(),
            old(self).nodes@[i as int] is Some,
        ensures
            final(self).nodes@ == old(self).nodes@.update(
                i as int,
                Some(Node { left: v, ..slot(old(self).nodes@, i as nat) }),
            ),
            final(self).root == old(self).root,
            final(self).free_list@ == old(self).free_list@,
            final(self).shape == old(self).shape,
    {
        match &mut self.nodes[i] {
            Some(n) => {
                n.left = v;
            },
            None => {},
        }
    }

    fn set_right(&mut self, i: usize, v: usize)
        requires
            i < old(self).nodes@.len(),
            old(self).nodes@[i as int] is Some,
        ensures
            final(self).nodes@ == old(self).nodes@.update(
                i as int,
                Some(Node { right: v, ..slot(old(self).nodes@, i as nat) }),
            ),
            final(self).root == old(self).root,
            final(self).free_list@ == old(self).free_list@,
            final(self).shape == old(self).shape,
    {
        match &mut self.nodes[i] {
            Some(n) => {
                n.right = v;
            },
            None => {},
        }
    }

    fn set_parent(&mut self, i: usize, v: usize)
        requires
            i < old(self).nodes@.len(),
            old(self).nodes@[i as int] is Some,
        ensures
            final(self).nodes@ == old(self).nodes@.update(
                i as int,
                Some(Node { parent: v, ..slot(old(self).nodes@, i as nat) }),
            ),
            final(self).root == old(self).root,
            final(self).free_list@ == old(self).free_list@,
            final(self).shape == old(self).shape,
    {
        match &mut self.nodes[i] {
            Some(n) => {
                n.parent = v;
            },
            None => {},
        }
    }

    /// The recorded height of the subtree at `idx`.
    fn depth(&self, idx: usize) -> (d: u32)
        requires
            live_or_none(self.nodes@, idx),
        ensures
            d == depth_at(self.nodes@, idx),
    {
        if idx == INVALID_IDX {
            0
        } else {
            self.node(idx).depth
        }
    }

    /// The recorded size of the subtree at `idx`.
    fn cnt(&self, idx: usize) -> (c: u32)
        requires
            live_or_none(self.nodes@, idx),
        ensures
            c == cnt_at(self.nodes@, idx),
    {
        if idx == INVALID_IDX {
            0
        } else {
            self.node(idx).cnt
        }
    }

    /// Recomputes the height and size recorded at `idx` from its children.
    fn update(&mut self, idx: usize)
        requires
            live_or_none(old(self).nodes@, idx),
            idx != INVALID_IDX ==> {
                let n = slot(old(self).nodes@, idx as nat);
                &&& live_or_none(old(self).nodes@, n.left)
                &&& live_or_none(old(self).nodes@, n.right)
                &&& 1 + cnt_at(old(self).nodes@, n.left) + cnt_at(old(self).nodes@, n.right) <= u32::MAX
                &&& depth_at(old(self).nodes@, n.left) < u32::MAX
                &&& depth_at(old(self).nodes@, n.right) < u32::MAX
            },
        ensures
            idx == INVALID_IDX ==> final(self).nodes@ == old(self).nodes@,
            idx != INVALID_IDX ==> {
                let n = slot(old(self).nodes@, idx as nat);
                let dl = depth_at(old(self).nodes@, n.left);
                let dr = depth_at(old(self).nodes@, n.right);
                final(self).nodes@ == old(self).nodes@.update(
                    idx as int,
                    Some(
                        Node {
                            depth: (1 + if dl >= dr {
                                dl
                            } else {
                                dr
                            }) as u32,
                            cnt: (1 + cnt_at(old(self).nodes@, n.left) + cnt_at(
                                old(self).nodes@,
                                n.right,
                            )) as u32,
                            ..n
                        },
                    ),
                )
            },
            final(self).root == old(self).root,
            final(self).free_list@ == old(self).free_list@,
            final(self).shape == old(self).shape,
    {
        if idx == INVALID_IDX {
            return;
        }
        let left = self.node(idx).left;
        let right = self.node(idx).right;
        let dl = self.depth(left);
        let dr = self.depth(right);
        let d = 1 + if dl >= dr {
            dl
        } else {
            dr
        };
        let c = 1 + self.cnt(left) + self.cnt(right);
        match &mut self.nodes[idx] {
            Some(n) => {
                n.depth = d;
                n.cnt = c;
            },
            None => {},
        }
    }

    /// Rotates the subtree `t` rooted at `idx` to the left; returns its new root.
    #[verifier::rlimit(40)]
    #[verifier::spinoff_prover]
    fn rot_left(&mut self, idx: usize, Ghost(t): Ghost<Shape>, Ghost(p): Ghost<usize>) -> (new_root:
        usize)
        requires
            t is Node,
            t.root_idx() == idx,
            t.rchild() is Node,
            linked(old(self).nodes@, t, p),
            fields_ok(old(self).nodes@, t, set![idx as nat, t.rchild().root_idx() as nat]),
            t.size() <= u32::MAX,
        ensures
            linked(final(self).nodes@, rotl(t), p),
            fields_ok(final(self).nodes@, rotl(t), Set::empty()),
            new_root == rotl(t).root_idx(),
            same_outside(old(self).nodes@, final(self).nodes@, t.idxs()),
            same_data(old(self).nodes@, final(self).nodes@),
            final(self).root == old(self).root,
            final(self).free_list@ == old(self).free_list@,
            final(self).shape == old(self).shape,
    {
        let ghost a = self.nodes@;
        let ghost aa = t.lchild();
        let ghost rr = t.rchild();
        let ghost bb = rr.lchild();
        let ghost cc = rr.rchild();
        let ghost st = set![idx as nat, rr.root_idx() as nat];
        proof {
            lemma_root_has(a, t, p);
            assert(linked(a, aa, idx));
            assert(linked(a, rr, idx));
            lemma_root_has(a, rr, idx);
            assert(linked(a, bb, rr.root_idx()));
            assert(linked(a, cc, rr.root_idx()));
            lemma_root_has(a, aa, idx);
            lemma_root_has(a, bb, rr.root_idx());
            lemma_root_has(a, cc, rr.root_idx());
            lemma_linked_distinct(a, t, p);
            lemma_linked_distinct(a, rr, idx);
            lemma_order_facts(aa);
            lemma_order_facts(bb);
            lemma_order_facts(cc);
            assert(fields_ok(a, aa, st));
            assert(fields_ok(a, rr, st));
            assert(fields_ok(a, bb, st));
            assert(fields_ok(a, cc, st));
            assert(rr.size() == bb.size() + 1 + cc.size());
        }
        let new_root = self.node(idx).right;
        let new_left_child = self.node(new_root).left;
        if new_left_child != INVALID_IDX {
            self.set_parent(new_left_child, idx);
        }
        self.set_right(idx, new_left_child);
        self.set_left(new_root, idx);
        let pp = self.node(idx).parent;
        self.set_parent(new_root, pp);
        self.set_parent(idx, new_root);
        self.update(idx);
        self.update(new_root);
        proof {
            let inner = rotl(t).lchild();
            assert(rotl(t).rchild() == cc);
            assert(rotl(t).height() == 1 + if inner.height() >= cc.height() {
                inner.height()
            } else {
                cc.height()
            });
            assert(rotl(t).size() == inner.size() + 1 + cc.size());
            lemma_rotl_result(a, self.nodes@, t, p);
            lemma_rot_order(t);
        }
        new_root
    }

    /// Rotates the subtree `t` rooted at `idx` to the right; returns its new root.
    #[verifier::rlimit(40)]
    #[verifier::spinoff_prover]
    fn rot_right(&mut self, idx: usize, Ghost(t): Ghost<Shape>, Ghost(p): Ghost<usize>) -> (new_root:
        usize)
        requires
            t is Node,
            t.root_idx() == idx,
            t.lchild() is Node,
            linked(old(self).nodes@, t, p),
            fields_ok(old(self).nodes@, t, set![idx as nat, t.lchild().root_idx() as nat]),
            t.size() <= u32::MAX,
        ensures
            linked(final(self).nodes@, rotr(t), p),
            fields_ok(final(self).nodes@, rotr(t), Set::empty()),
            new_root == rotr(t).root_idx(),
            same_outside(old(self).nodes@, final(self).nodes@, t.idxs()),
            same_data(old(self).nodes@, final(self).nodes@),
            final(self).root == old(self).root,
            final(self).free_list@ == old(self).free_list@,
            final(self).shape == old(self).shape,
    {
        let ghost a = self.nodes@;
        let ghost ll = t.lchild();
        let ghost cc = t.rchild();
        let ghost aa = ll.lchild();
        let ghost bb = ll.rchild();
        let ghost st = set![idx as nat, ll.root_idx() as nat];
        proof {
            lemma_root_has(a, t, p);
            assert(linked(a, ll, idx));
            assert(linked(a, cc, idx));
            lemma_root_has(a, ll, idx);
            assert(linked(a, aa, ll.root_idx()));
            assert(linked(a, bb, ll.root_idx()));
            lemma_root_has(a, cc, idx);
            lemma_root_has(a, aa, ll.root_idx());
            lemma_root_has(a, bb, ll.root_idx());
            lemma_linked_distinct(a, t, p);
            lemma_linked_distinct(a, ll, idx);
            lemma_order_facts(aa);
            lemma_order_facts(bb);
            lemma_order_facts(cc);
            assert(fields_ok(a, ll, st));
            assert(fields_ok(a, cc, st));
            assert(fields_ok(a, aa, st));
            assert(fields_ok(a, bb, st));
            assert(ll.size() == aa.size() + 1 + bb.size());
        }
        let new_root = self.node(idx).left;
        let new_right_child = self.node(new_root).right;
        if new_right_child != INVALID_IDX {
            self.set_parent(new_right_child, idx);
        }
        self.set_left(idx, new_right_child);
        self.set_right(new_root, idx);
        let pp = self.node(idx).parent;
        self.set_parent(new_root, pp);
        self.set_parent(idx, new_root);
        self.update(idx);
        self.update(new_root);
        proof {
            let inner = rotr(t).rchild();
            assert(rotr(t).lchild() == aa);
            assert(rotr(t).height() == 1 + if aa.height() >= inner.height() {
                aa.height()
            } else {
                inner.height()
            });
            assert(rotr(t).size() == aa.size() + 1 + inner.size());
            lemma_rotr_result(a, self.nodes@, t, p);
            lemma_rot_order(t);
        }
        new_root
    }

    /// Rebalances the subtree `t` rooted at `idx`, whose left side is two
    /// levels taller than its right; returns the new root.
    #[verifier::rlimit(40)]
    #[verifier::spinoff_prover]
    fn fix_left(&mut self, idx: usize, Ghost(t): Ghost<Shape>, Ghost(p): Ghost<usize>) -> (new_root:
        usize)
        requires
            t is Node,
            t.root_idx() == idx,
            linked(old(self).nodes@, t, p),
            fields_ok(old(self).nodes@, t, Set::empty()),
            t.lchild().height() == t.rchild().height() + 2,
            t.size() <= u32::MAX,
        ensures
            linked(final(self).nodes@, fixl(t), p),
            fields_ok(final(self).nodes@, fixl(t), Set::empty()),
            new_root == fixl(t).root_idx(),
            fixl(t).idxs() == t.idxs(),
            fixl(t).order() == t.order(),
            same_outside(old(self).nodes@, final(self).nodes@, t.idxs()),
            same_data(old(self).nodes@, final(self).nodes@),
            final(self).root == old(self).root,
            final(self).free_list@ == old(self).free_list@,
            final(self).shape == old(self).shape,
    {
        let ghost a = self.nodes@;
        let ghost ll = t.lchild();
        let ghost rr = t.rchild();
        proof {
            lemma_root_has(a, t, p);
            assert(linked(a, ll, idx));
            assert(linked(a, rr, idx));
            lemma_root_has(a, ll, idx);
            assert(linked(a, ll.lchild(), ll.root_idx()));
            assert(linked(a, ll.rchild(), ll.root_idx()));
            lemma_root_has(a, ll.lchild(), ll.root_idx());
            lemma_root_has(a, ll.rchild(), ll.root_idx());
            lemma_linked_distinct(a, t, p);
            assert(fields_ok(a, ll, Set::empty()));
            assert(fields_ok(a, ll.lchild(), Set::empty()));
            assert(fields_ok(a, ll.rchild(), Set::empty()));
            assert(t.size() == ll.size() + 1 + rr.size());
        }
        let left = self.node(idx).left;
        let left_left = self.node(left).left;
        let left_right = self.node(left).right;
        if self.depth(left_left) < self.depth(left_right) {
            proof {
                lemma_fields_mono(a, ll, Set::empty(), set![left as nat, ll.rchild().root_idx() as nat]);
            }
            let nl = self.rot_left(left, Ghost(ll), Ghost(idx));
            let ghost b = self.nodes@;
            self.set_left(idx, nl);
            let ghost nt = Shape::Node {
                left: Box::new(rotl(ll)),
                idx: t.root_nat(),
                right: Box::new(rr),
            };
            proof {
                lemma_rot_order(ll);
                assert(agree_on(a, self.nodes@, rr.idxs())) by {
                    assert forall|j: nat| rr.idxs().contains(j) implies j < a.len() && j
                        < self.nodes@.len() && a[j as int] == self.nodes@[j as int] by {
                        assert(!ll.has(j));
                        assert(j != idx);
                        assert(t.has(j));
                        assert(a[j as int] == b[j as int]);
                    }
                }
                lemma_agree_links(a, self.nodes@, rr.idxs());
                assert forall|j: nat| rotl(ll).idxs().contains(j) implies j < b.len() && j != idx by {
                    assert(ll.has(j));
                    assert(t.has(j));
                }
                lemma_update_agree(b, idx as int, self.nodes@[idx as int], rotl(ll).idxs());
                assert(self.nodes@ == b.update(idx as int, self.nodes@[idx as int]));
                lemma_agree_links(b, self.nodes@, rotl(ll).idxs());
                lemma_agree_fields(b, self.nodes@, rotl(ll).idxs());
                assert(linked(self.nodes@, rotl(ll), idx as usize)) by {
                    lemma_linked_frame(b, self.nodes@, rotl(ll), idx as usize);
                }
                lemma_child_swap(a, self.nodes@, t, p, nt, true);
                assert(fields_ok(self.nodes@, rotl(ll), Set::empty())) by {
                    lemma_fields_agree_subset(b, self.nodes@, rotl(ll).idxs(), rotl(ll).idxs().difference(Set::empty()));
                    lemma_fields_frame(b, self.nodes@, rotl(ll), Set::empty(), Set::empty());
                }
                assert(fields_ok(self.nodes@, rr, Set::empty())) by {
                    assert(fields_ok(a, rr, Set::empty()));
                    assert(fields_agree(a, self.nodes@, rr.idxs().difference(Set::empty())));
                    lemma_fields_frame(a, self.nodes@, rr, Set::empty(), Set::empty());
                }
                lemma_fields_mono(self.nodes@, rotl(ll), Set::empty(), set![idx as nat, nl as nat]);
                lemma_fields_mono(self.nodes@, rr, Set::empty(), set![idx as nat, nl as nat]);
                assert(fields_ok(self.nodes@, nt, set![idx as nat, nl as nat]));
                assert(nt.size() == rotl(ll).size() + 1 + rr.size());
                assert(nt.order() =~= t.order());
            }
            let r = self.rot_right(idx, Ghost(nt), Ghost(p));
            proof {
                lemma_rot_order(nt);
            }
            r
        } else {
            proof {
                lemma_fields_mono(a, t, Set::empty(), set![idx as nat, ll.root_idx() as nat]);
                lemma_rot_order(t);
            }
            self.rot_right(idx, Ghost(t), Ghost(p))
        }
    }

    /// Rebalances the subtree `t` rooted at `idx`, whose right side is two
    /// levels taller than its left; returns the new root.
    #[verifier::rlimit(40)]
    #[verifier::spinoff_prover]
    fn fix_right(&mut self, idx: usize, Ghost(t): Ghost<Shape>, Ghost(p): Ghost<usize>) -> (new_root:
        usize)
        requires
            t is Node,
            t.root_idx() == idx,
            linked(old(self).nodes@, t, p),
            fields_ok(old(self).nodes@, t, Set::empty()),
            t.rchild().height() == t.lchild().height() + 2,
            t.size() <= u32::MAX,
        ensures
            linked(final(self).nodes@, fixr(t), p),
            fields_ok(final(self).nodes@, fixr(t), Set::empty()),
            new_root == fixr(t).root_idx(),
            fixr(t).idxs() == t.idxs(),
            fixr(t).order() == t.order(),
            same_outside(old(self).nodes@, final(self).nodes@, t.idxs()),
            same_data(old(self).nodes@, final(self).nodes@),
            final(self).root == old(self).root,
            final(self).free_list@ == old(self).free_list@,
            final(self).shape == old(self).shape,
    {
        let ghost a = self.nodes@;
        let ghost ll = t.lchild();
        let ghost rr = t.rchild();
        proof {
            lemma_root_has(a, t, p);
            assert(linked(a, ll, idx));
            assert(linked(a, rr, idx));
            lemma_root_has(a, rr, idx);
            assert(linked(a, rr.lchild(), rr.root_idx()));
            assert(linked(a, rr.rchild(), rr.root_idx()));
            lemma_root_has(a, rr.lchild(), rr.root_idx());
            lemma_root_has(a, rr.rchild(), rr.root_idx());
            lemma_linked_distinct(a, t, p);
            assert(fields_ok(a, rr, Set::empty()));
            assert(fields_ok(a, rr.lchild(), Set::empty()));
            assert(fields_ok(a, rr.rchild(), Set::empty()));
            assert(t.size() == ll.size() + 1 + rr.size());
        }
        let right = self.node(idx).right;
        let right_left = self.node(right).left;
        let right_right = self.node(right).right;
        if self.depth(right_right) < self.depth(right_left) {
            proof {
                lemma_fields_mono(a, rr, Set::empty(), set![right as nat, rr.lchild().root_idx() as nat]);
            }
            let nr = self.rot_right(right, Ghost(rr), Ghost(idx));
            let ghost b = self.nodes@;
            self.set_right(idx, nr);
            let ghost nt = Shape::Node {
                left: Box::new(ll),
                idx: t.root_nat(),
                right: Box::new(rotr(rr)),
            };
            proof {
                lemma_rot_order(rr);
                assert(agree_on(a, self.nodes@, ll.idxs())) by {
                    assert forall|j: nat| ll.idxs().contains(j) implies j < a.len() && j
                        < self.nodes@.len() && a[j as int] == self.nodes@[j as int] by {
                        assert(!rr.has(j));
                        assert(j != idx);
                        assert(t.has(j));
                        assert(a[j as int] == b[j as int]);
                    }
                }
                lemma_agree_links(a, self.nodes@, ll.idxs());
                assert forall|j: nat| rotr(rr).idxs().contains(j) implies j < b.len() && j != idx by {
                    assert(rr.has(j));
                    assert(t.has(j));
                }
                lemma_update_agree(b, idx as int, self.nodes@[idx as int], rotr(rr).idxs());
                assert(self.nodes@ == b.update(idx as int, self.nodes@[idx as int]));
                lemma_agree_links(b, self.nodes@, rotr(rr).idxs());
                lemma_agree_fields(b, self.nodes@, rotr(rr).idxs());
                assert(linked(self.nodes@, rotr(rr), idx as usize)) by {
                    lemma_linked_frame(b, self.nodes@, rotr(rr), idx as usize);
                }
                lemma_child_swap(a, self.nodes@, t, p, nt, false);
                assert(fields_ok(self.nodes@, rotr(rr), Set::empty())) by {
                    lemma_fields_agree_subset(b, self.nodes@, rotr(rr).idxs(), rotr(rr).idxs().difference(Set::empty()));
                    lemma_fields_frame(b, self.nodes@, rotr(rr), Set::empty(), Set::empty());
                }
                assert(fields_ok(self.nodes@, ll, Set::empty())) by {
                    assert(fields_ok(a, ll, Set::empty()));
                    assert(fields_agree(a, self.nodes@, ll.idxs().difference(Set::empty())));
                    lemma_fields_frame(a, self.nodes@, ll, Set::empty(), Set::empty());
                }
                lemma_fields_mono(self.nodes@, rotr(rr), Set::empty(), set![idx as nat, nr as nat]);
                lemma_fields_mono(self.nodes@, ll, Set::empty(), set![idx as nat, nr as nat]);
                assert(fields_ok(self.nodes@, nt, set![idx as nat, nr as nat]));
                assert(nt.size() == ll.size() + 1 + rotr(rr).size());
                assert(nt.order() =~= t.order());
            }
            let r = self.rot_left(idx, Ghost(nt), Ghost(p));
            proof {
                lemma_rot_order(nt);
            }
            r
        } else {
            proof {
                lemma_fields_mono(a, t, Set::empty(), set![idx as nat, rr.root_idx() as nat]);
                lemma_rot_order(t);
            }
            self.rot_left(idx, Ghost(t), Ghost(p))
        }
    }

    /// The slot recorded as the root.
    pub closed spec fn root_field(&self) -> usize {
        self.root
    }

    /// The free slots.
    pub closed spec fn free(&self) -> Seq<usize> {
        self.free_list@
    }

    /// The slot the next insertion takes: the last one freed, else a new
    /// slot at the end of the arena.
    pub closed spec fn next_slot(&self) -> usize {
        if self.free_list@.len() > 0 {
            self.free_list@.last()
        } else {
            self.nodes@.len() as usize
        }
    }

    /// The free slots after the next insertion.
    pub closed spec fn free_after_alloc(&self) -> Seq<usize> {
        if self.free_list@.len() > 0 {
            self.free_list@.drop_last()
        } else {
            self.free_list@
        }
    }

    /// Ready for [`AvlTree::fix`] at `idx`: `idx` is a node of the tree, only
    /// the nodes from the root down to `idx` may record stale heights and
    /// sizes, and the balance is off only on that path, by no more than the
    /// rotations on the way up take back.
    pub closed spec fn fix_ready(&self, idx: usize) -> bool {
        &&& self.shape@.has(idx as nat)
        &&& self.shaped(self.shape@.anc(idx as nat))
        &&& exists|h: int| near(self.shape@, idx as nat, h)
    }

    /// Walks from `idx` up to the root, recomputing each node's height and
    /// size and rotating where one side is two levels taller than the other;
    /// returns the root. The in-order sequence is unchanged.
    #[verifier::rlimit(100)]
    #[verifier::spinoff_prover]
    pub fn fix(&mut self, idx: usize) -> (new_root: usize)
        requires
            old(self).fix_ready(idx),
        ensures
            final(self).shaped(Set::empty()),
            final(self).tree().balanced(),
            new_root == final(self).tree().root_idx(),
            final(self).slots() == old(self).slots(),
            final(self).view() == old(self).view(),
            final(self).tree().idxs() == old(self).tree().idxs(),
            final(self).root_field() == old(self).root_field(),
            final(self).free() == old(self).free(),
            final(self).arena().len() == old(self).arena().len(),
    {
        let ghost mut hcur: int = choose|h: int| near(self.shape@, idx as nat, h);
        let mut idx = idx;
        loop
            invariant
                self.shape@.has(idx as nat),
                self.shaped(self.shape@.anc(idx as nat)),
                near(self.shape@, idx as nat, hcur),
                self.shape@.order() == old(self).shape@.order(),
                self.shape@.idxs() == old(self).shape@.idxs(),
                same_data(old(self).nodes@, self.nodes@),
                self.root == old(self).root,
                self.free_list@ == old(self).free_list@,
            decreases self.shape@.level(idx as nat),
        {
            let ghost s = self.shape@;
            let ghost a = self.nodes@;
            let ghost i0 = idx as nat;
            let ghost t = s.sub(i0);
            proof {
                lemma_sub(a, s, INVALID_IDX, i0);
                lemma_sub_children(a, s, INVALID_IDX, i0);
                lemma_root_has(a, s, INVALID_IDX);
                lemma_sub_parent(a, s, INVALID_IDX, i0);
                lemma_sub_size(s, i0);
                lemma_linked_distinct(a, s, INVALID_IDX);
                lemma_linked_distinct(a, t, s.parent_idx(i0, INVALID_IDX));
                lemma_order_facts(t);
                lemma_order_facts(t.lchild());
                lemma_order_facts(t.rchild());
                lemma_root_has(a, t.lchild(), idx);
                lemma_root_has(a, t.rchild(), idx);
                if let Shape::Node { idx: c, .. } = t.lchild() {
                    assert(t.lchild().has(c));
                    assert(!t.lchild().has(i0));
                    assert(t.has(c));
                    if s.anc(i0).contains(c) {
                        assert(s.anc(i0).intersect(t.idxs()).contains(c));
                    }
                    assert(!s.anc(i0).contains(c));
                    lemma_fields_at(a, s, s.anc(i0), c);
                }
                if let Shape::Node { idx: c, .. } = t.rchild() {
                    assert(t.rchild().has(c));
                    assert(!t.rchild().has(i0));
                    assert(t.has(c));
                    if s.anc(i0).contains(c) {
                        assert(s.anc(i0).intersect(t.idxs()).contains(c));
                    }
                    assert(!s.anc(i0).contains(c));
                    lemma_fields_at(a, s, s.anc(i0), c);
                }
                assert(t.size() == t.lchild().size() + 1 + t.rchild().size());
            }
            self.update(idx);
            let ghost a1 = self.nodes@;
            proof {
                lemma_update_links(a, idx as int, slot(a1, i0), s.idxs());
                lemma_linked_frame(a, a1, s, INVALID_IDX);
                assert(fields_agree(a, a1, s.idxs().remove(i0)));
                lemma_fields_set(a, a1, s, s.anc(i0), i0);
                lemma_update_links(a, idx as int, slot(a1, i0), t.idxs());
                lemma_linked_frame(a, a1, t, s.parent_idx(i0, INVALID_IDX));
                lemma_fields_sub(a1, s, s.anc(i0).remove(i0), i0);
                assert forall|j: nat| t.has(j) && s.anc(i0).remove(i0).contains(j) implies Set::<
                    nat,
                >::empty().contains(j) by {
                    assert(s.anc(i0).intersect(t.idxs()).contains(j));
                }
                lemma_fields_mono(a1, t, s.anc(i0).remove(i0), Set::empty());
            }
            let l = self.depth(self.node(idx).left);
            let r = self.depth(self.node(idx).right);
            let parent = self.node(idx).parent;
            let is_left_child = if parent != INVALID_IDX {
                self.node(parent).left == idx
            } else {
                false
            };
            proof {
                lemma_near_at(s, i0, hcur);
                lemma_fixed_balanced(t, hcur);
                assert(l == t.lchild().height());
                assert(r == t.rchild().height());
            }
            let ghost mut nt = t;
            if l == r + 2 {
                idx = self.fix_left(idx, Ghost(t), Ghost(parent));
                proof {
                    nt = fixl(t);
                }
            } else if l + 2 == r {
                idx = self.fix_right(idx, Ghost(t), Ghost(parent));
                proof {
                    nt = fixr(t);
                }
            }
            assert(nt == fixed(t));
            let ghost a2 = self.nodes@;
            assert(linked(a2, nt, parent));
            assert(fields_ok(a2, nt, Set::empty()));
            assert(nt.idxs() == t.idxs());
            assert(nt.order() == t.order());
            assert(same_outside(a1, a2, t.idxs()));
            assert(idx == nt.root_idx());
            if parent == INVALID_IDX {
                proof {
                    assert(t == s);
                    lemma_linked_distinct(a2, nt, INVALID_IDX);
                    lemma_order_facts(nt);
                    lemma_order_facts(s);
                    assert forall|k: int| 0 <= k < nt.order().len() implies nt.order()[k]
                        < old(self).nodes@.len() && old(self).nodes@[nt.order()[k] as int] is Some by {
                        assert(nt.order().contains(nt.order()[k]));
                        assert(nt.has(nt.order()[k]));
                    }
                    lemma_data_same(old(self).nodes@, a2, nt.order());
                }
                self.shape = Ghost(nt);
                return idx;
            }
            if is_left_child {
                self.set_left(parent, idx);
            } else {
                self.set_right(parent, idx);
            }
            let ghost a3 = self.nodes@;
            let ghost s2 = s.replace(i0, nt);
            proof {
                let q = parent as nat;
                assert(s.has(q));
                lemma_sub(a, s, INVALID_IDX, q);
                assert(q != i0);
                assert(s.anc(i0).contains(q));
                if t.has(q) {
                    assert(s.anc(i0).intersect(t.idxs()).contains(q));
                }
                assert(!t.has(q));
                assert forall|j: nat| nt.idxs().contains(j) implies j < a2.len() && j != q by {
                    assert(t.has(j));
                }
                lemma_update_agree(a2, q as int, a3[q as int], nt.idxs());
                assert(a3 == a2.update(q as int, a3[q as int]));
                lemma_agree_links(a2, a3, nt.idxs());
                lemma_linked_frame(a2, a3, nt, parent);
                lemma_agree_fields(a2, a3, nt.idxs());
                lemma_fields_agree_subset(a2, a3, nt.idxs(), nt.idxs().difference(Set::empty()));
                lemma_fields_frame(a2, a3, nt, Set::empty(), Set::empty());
                assert(agree_on(a1, a3, s.idxs().difference(t.idxs()).remove(q))) by {
                    assert forall|j: nat| s.idxs().difference(t.idxs()).remove(q).contains(j) implies j
                        < a1.len() && j < a3.len() && a1[j as int] == a3[j as int] by {
                        assert(a1[j as int] == a2[j as int]);
                    }
                }
                assert(slot(a1, q) == slot(a2, q));
                assert(a3[q as int] == Some(redirect(slot(a1, q), i0 as usize, nt.root_idx())));
                lemma_replace_linked(a1, a3, s, INVALID_IDX, i0, nt);
                assert(s.anc(i0).contains(q));
                lemma_agree_subset(
                    a1,
                    a3,
                    s.idxs().difference(t.idxs()).remove(q),
                    s.idxs().difference(s.sub(i0).idxs()).difference(s.anc(i0)),
                );
                lemma_replace_fields(a1, a3, s, i0, nt, s.anc(i0).remove(i0), Set::empty());
                lemma_replace_path(s, i0, nt, q, INVALID_IDX);
                assert(s.anc(i0).remove(i0).union(Set::empty()).union(s.anc(i0).remove(i0))
                    =~= s.anc(i0).remove(i0));
                lemma_fields_mono(a3, s2, s.anc(i0).remove(i0), s.anc(q));
                lemma_replace_order(s, i0, nt);
                lemma_sub_order(s, i0);
                lemma_replace_idxs(s, i0, nt);
                assert(s2.idxs() =~= s.idxs());
                lemma_linked_distinct(a3, s2, INVALID_IDX);
                lemma_order_facts(s2);
                lemma_order_facts(s);
            }
            proof {
                let q = parent as nat;
                lemma_sub_parent(a, s, INVALID_IDX, i0);
                lemma_sub(a, s, INVALID_IDX, q);
                lemma_sub_is_node(s, q);
                lemma_root_has(a, s.sub(q), s.parent_idx(q, INVALID_IDX));
                lemma_linked_distinct(a, s.sub(q), s.parent_idx(q, INVALID_IDX));
                lemma_root_has(a, s.sub(q).lchild(), parent);
                lemma_root_has(a, s.sub(q).rchild(), parent);
                assert(child_of(s, q, i0));
                lemma_near_up(s, i0, hcur, nt, q);
                hcur = height_with(s.sub(q), i0, hcur);
            }
            self.shape = Ghost(s2);
            idx = parent;
        }
    }

    /// A fresh leaf holding `data`.
    pub open spec fn fresh_node(data: T) -> Node<T> {
        Node { data, depth: 1, cnt: 1, left: INVALID_IDX, right: INVALID_IDX, parent: INVALID_IDX }
    }

    /// Puts a fresh leaf holding `data` into a free slot, or a new one.
    fn alloc_node(&mut self, data: T) -> (idx: usize)
        requires
            old(self).shaped(Set::empty()),
            old(self).nodes@.len() + 1 < INVALID_IDX,
        ensures
            idx <= old(self).nodes@.len(),
            !old(self).shape@.has(idx as nat),
            idx < old(self).nodes@.len() ==> old(self).nodes@[idx as int] is None
                && final(self).nodes@ == old(self).nodes@.update(idx as int, Some(Self::fresh_node(data))),
            idx == old(self).nodes@.len() ==> final(self).nodes@ == old(self).nodes@.push(
                Some(Self::fresh_node(data)),
            ),
            forall|k: int|
                0 <= k < final(self).free_list@.len() ==> final(self).free_list@[k]
                    < final(self).nodes@.len() && final(self).nodes@[final(self).free_list@[k] as int] is None,
            forall|k1: int, k2: int|
                0 <= k1 < k2 < final(self).free_list@.len() ==> final(self).free_list@[k1]
                    != final(self).free_list@[k2],
            final(self).root == old(self).root,
            final(self).shape == old(self).shape,
            idx == old(self).next_slot(),
            final(self).free_list@ == old(self).free_after_alloc(),
    {
        let node = Node {
            data,
            depth: 1,
            cnt: 1,
            left: INVALID_IDX,
            right: INVALID_IDX,
            parent: INVALID_IDX,
        };
        let ghost fl = self.free_list@;
        proof {
            lemma_linked_distinct(self.nodes@, self.shape@, INVALID_IDX);
        }
        match self.free_list.pop() {
            Some(free_idx) => {
                assert(fl[fl.len() - 1] == free_idx);
                assert forall|k: int| 0 <= k < self.free_list@.len() implies self.free_list@[k]
                    != free_idx by {
                    assert(fl[k] != fl[fl.len() - 1]);
                }
                self.nodes.set(free_idx, Some(node));
                free_idx
            },
            None => {
                let idx = self.nodes.len();
                self.nodes.push(Some(node));
                idx
            },
        }
    }

    /// An empty tree.
    #[must_use]
    pub fn new() -> (t: Self)
        ensures
            t.wf(),
            t.view() == Seq::<T>::empty(),
            t.slots() == Seq::<nat>::empty(),
            t.tree() is Leaf,
            t.root_field() == INVALID_IDX,
            t.arena().len() == 0,
            t.free().len() == 0,
    {
        AvlTree { nodes: Vec::new(), root: INVALID_IDX, free_list: Vec::new(), shape: Ghost(Shape::Leaf) }
    }

    /// Whether the tree holds no element.
    #[must_use]
    pub fn is_empty(&self) -> (b: bool)
        requires
            self.wf(),
        ensures
            b == (self.view().len() == 0),
    {
        proof {
            lemma_root_has(self.nodes@, self.shape@, INVALID_IDX);
            lemma_linked_distinct(self.nodes@, self.shape@, INVALID_IDX);
            lemma_order_facts(self.shape@);
        }
        self.root == INVALID_IDX
    }

    /// The number of elements.
    #[must_use]
    pub fn size(&self) -> (n: u32)
        requires
            self.wf(),
        ensures
            n == self.view().len(),
    {
        proof {
            lemma_root_has(self.nodes@, self.shape@, INVALID_IDX);
            lemma_linked_distinct(self.nodes@, self.shape@, INVALID_IDX);
            lemma_order_facts(self.shape@);
            if self.shape@ is Node {
                lemma_fields_at(self.nodes@, self.shape@, Set::empty(), self.shape@.root_nat());
                lemma_sub(self.nodes@, self.shape@, INVALID_IDX, self.shape@.root_nat());
            }
        }
        self.cnt(self.root)
    }

    /// The slot of the root, `usize::MAX` for an empty tree.
    #[must_use]
    pub fn root(&self) -> (r: usize)
        ensures
            r == self.root_field(),
            self.wf() ==> r == self.tree().root_idx(),
    {
        self.root
    }

    /// Putting a slot into the in-order sequence at position `k`, with its
    /// element at the same position, leaves every earlier slot with its own
    /// element.
    proof fn lemma_put_keeps(before: Self, after: Self, k: int)
        requires
            before.wf(),
            after.wf(),
            0 <= k <= before.slots().len(),
            k < after.slots().len(),
            k < after.view().len(),
            after.slots() == before.slots().insert(k, after.slots()[k]),
            after.view() == before.view().insert(k, after.view()[k]),
        ensures
            forall|i: nat| #[trigger] before.tree().has(i) ==> after.tree().has(i)
                && after.view()[after.tree().pos(i)] == before.view()[before.tree().pos(i)],
    {
        before.lemma_slots();
        after.lemma_slots();
        assert forall|i: nat| #[trigger] before.tree().has(i) implies after.tree().has(i)
            && after.view()[after.tree().pos(i)] == before.view()[before.tree().pos(i)] by {
            let m = before.tree().pos(i);
            if m < k {
                assert(after.slots()[m] == i);
                assert(after.tree().has(after.slots()[m]));
                assert(after.view()[m] == before.view()[m]);
            } else {
                assert(after.slots()[m + 1] == i);
                assert(after.tree().has(after.slots()[m + 1]));
                assert(after.view()[m + 1] == before.view()[m]);
            }
        }
    }

    /// Taking position `p` out of the elements and position `q` out of the
    /// slots shifts the elements from `p` up to `q` by one slot.
    proof fn lemma_remove_shifts(before: Self, after: Self, p: int, q: int)
        requires
            before.wf(),
            after.wf(),
            0 <= p <= q < before.slots().len(),
            after.slots() == before.slots().remove(q),
            after.view() == before.view().remove(p),
        ensures
            shifted_from(before, after, p, q),
    {
        before.lemma_slots();
        after.lemma_slots();
        assert forall|i: nat| #[trigger] before.tree().has(i) && i != before.slots()[q] implies {
            let r = before.tree().pos(i);
            &&& after.tree().has(i)
            &&& after.view()[after.tree().pos(i)] == if p <= r < q {
                before.view()[r + 1]
            } else {
                before.view()[r]
            }
        } by {
            let r = before.tree().pos(i);
            assert(before.slots()[r] == i);
            if r < q {
                assert(after.slots()[r] == i);
                assert(after.tree().has(after.slots()[r]));
            } else {
                assert(r != q);
                assert(after.slots()[r - 1] == i);
                assert(after.tree().has(after.slots()[r - 1]));
            }
        }
    }

    /// The number of slots in the arena, live and free.
    #[must_use]
    pub fn arena_len(&self) -> (n: usize)
        ensures
            n == self.arena().len(),
    {
        self.nodes.len()
    }

    /// What a well-formed tree records of its elements: the slots in
    /// in-order are its live slots, each once, and the position of a slot is
    /// where it stands in that order; every live slot lies in the arena; the
    /// root is the recorded root, without a parent, and its subtree is the
    /// whole tree.
    pub proof fn lemma_slots(&self)
        requires
            self.wf(),
        ensures
            self.tree().distinct(),
            self.slots().len() == self.view().len(),
            self.tree().size() == self.view().len(),
            self.slots().no_duplicates(),
            forall|i: nat| #[trigger] self.tree().has(i) <==> self.slots().contains(i),
            forall|i: nat| #[trigger]
                self.tree().has(i) ==> 0 <= self.tree().pos(i) < self.slots().len()
                    && self.slots()[self.tree().pos(i)] == i && i < self.arena().len()
                    && self.arena()[i as int] is Some && i < INVALID_IDX,
            forall|k: int|
                0 <= k < self.slots().len() ==> #[trigger] self.tree().has(self.slots()[k])
                    && self.tree().pos(self.slots()[k]) == k,
            forall|j: nat| j < self.arena().len() ==> (#[trigger] self.arena()[j as int] is Some <==> self.tree().has(j)),
            self.root_field() == self.tree().root_idx(),
            self.tree() is Leaf ==> self.root_field() == INVALID_IDX,
            self.tree() is Node ==> self.tree().has(self.tree().root_nat())
                && self.root_field() as nat == self.tree().root_nat()
                && self.tree().sub(self.tree().root_nat()) == self.tree()
                && self.tree().parent_idx(self.tree().root_nat(), INVALID_IDX) == INVALID_IDX,
            self.arena().len() < INVALID_IDX,
            self.tree().size() <= u32::MAX,
    {
        let s = self.shape@;
        lemma_linked_distinct(self.nodes@, s, INVALID_IDX);
        lemma_order_facts(s);
        lemma_root_has(self.nodes@, s, INVALID_IDX);
        assert forall|i: nat| #[trigger] s.has(i) implies 0 <= s.pos(i) < s.order().len()
            && s.order()[s.pos(i)] == i by {
            lemma_pos(s, i);
        }
        assert forall|k: int| 0 <= k < s.order().len() implies #[trigger] s.has(s.order()[k])
            && s.pos(s.order()[k]) == k by {
            assert(s.order().contains(s.order()[k]));
            lemma_pos(s, s.order()[k]);
        }
    }

    /// Inserts `data`, descending from the root to the left where `cmp`
    /// orders it before a node and to the right otherwise; returns its slot.
    #[verifier::loop_isolation(false)]
    #[verifier::rlimit(60)]
    #[verifier::spinoff_prover]
    pub fn insert<F>(&mut self, data: T, cmp: F) -> (new_idx: usize) where
        F: Fn(&T, &T) -> Ordering,
        requires
            old(self).wf(),
            old(self).tree().size() < u32::MAX,
            old(self).arena().len() + 2 < INVALID_IDX,
            forall|x: &T, y: &T| call_requires(cmp, (x, y)),
        ensures
            final(self).wf(),
            final(self).tree().has(nat_of(new_idx)),
            new_idx == old(self).next_slot(),
            final(self).free() == old(self).free_after_alloc(),
            exists|k: int|
                placed_at(old(self).view(), final(self).view(), data, cmp, k) && final(self).slots() == seq_put(old(self).slots(), k, nat_of(new_idx))
                    && final(self).tree().pos(nat_of(new_idx)) == k,
            0 <= final(self).tree().pos(nat_of(new_idx)) < final(self).view().len(),
            final(self).view()[final(self).tree().pos(nat_of(new_idx))] == data,
            forall|i: nat| #[trigger] old(self).tree().has(i) ==> final(self).tree().has(i)
                && final(self).view()[final(self).tree().pos(i)] == old(self).view()[old(self).tree().pos(i)],
            final(self).arena().len() <= old(self).arena().len() + 1,
    {
        let ghost s = self.shape@;
        let ghost a = self.nodes@;
        let new_idx = self.alloc_node(data);
        let ghost a0 = self.nodes@;
        proof {
            lemma_linked_distinct(a, s, INVALID_IDX);
            lemma_root_has(a, s, INVALID_IDX);
            lemma_order_facts(s);
            assert forall|j: nat| s.idxs().contains(j) implies j < a.len() && j != nat_of(new_idx) by {}
            lemma_agree_except2(a, a0.subrange(0, len_of(a)), s.idxs(), nat_of(new_idx), nat_of(new_idx));
            lemma_agree_prefix(a, a0, s.idxs());
            lemma_agree_links(a, a0, s.idxs());
            lemma_linked_frame(a, a0, s, INVALID_IDX);
            lemma_agree_fields(a, a0, s.idxs());
            lemma_fields_agree_subset(a, a0, s.idxs(), s.idxs().difference(Set::empty()));
            lemma_fields_frame(a, a0, s, Set::empty(), Set::empty());
        }
        if self.root == INVALID_IDX {
            self.root = new_idx;
            let ghost leaf = Shape::Node {
                left: Box::new(Shape::Leaf),
                idx: nat_of(new_idx),
                right: Box::new(Shape::Leaf),
            };
            self.shape = Ghost(leaf);
            proof {
                assert(s == Shape::Leaf);
                assert(Shape::Leaf.height() == 0);
                assert(Shape::Leaf.size() == 0);
                assert(Shape::Leaf.order() == Seq::<nat>::empty());
                assert(leaf.order() =~= seq![nat_of(new_idx)]);
                assert(fields_ok(self.nodes@, Shape::Leaf, Set::empty()));
                assert(linked(self.nodes@, Shape::Leaf, new_idx));
                assert(linked(self.nodes@, leaf, INVALID_IDX));
                assert(self.view() =~= seq_put(data_of(a, s.order()), 0, data));
                assert(self.slots() =~= seq_put(s.order(), 0, nat_of(new_idx)));
                let k0: int = 0;
                assert(0 <= k0 <= old(self).view().len());
                assert(old(self).view().len() == 0);
                assert(self.view() == seq_put(old(self).view(), k0, data));
                assert(self.slots() == seq_put(old(self).slots(), k0, nat_of(new_idx)));
                self.lemma_slots();
                assert(self.slots()[k0] == nat_of(new_idx));
                Self::lemma_put_keeps(*old(self), *self, k0);
            }
            return new_idx;
        }
        let mut cur = self.root;
        let mut go_left = false;
        let ghost mut lower: Option<nat> = None;
        let ghost mut upper: Option<nat> = None;
        let ghost mut last: Ordering = Ordering::Equal;
        proof {
            lemma_sub(a0, s, INVALID_IDX, nat_of(cur));
        }
        loop
            invariant
                s.has(nat_of(cur)),
                self.nodes@ == a0,
                lower is None ==> s.before(nat_of(cur)).len() == 0,
                lower matches Some(l) ==> s.has(l) && s.pos(l) + 1 == s.before(nat_of(cur)).len()
                    && exists|o: Ordering| #[trigger] call_ensures(cmp, (&data, &slot(a0, l).data), o) && !(o is Less),
                upper is None ==> s.before(nat_of(cur)).len() + s.sub(nat_of(cur)).size() == s.size(),
                upper matches Some(h) ==> s.has(h) && s.pos(h) == s.before(nat_of(cur)).len() + s.sub(
                    nat_of(cur),
                ).size() && call_ensures(cmp, (&data, &slot(a0, h).data), Ordering::Less),
                self.shape@ == s,
            decreases s.sub(nat_of(cur)).height(),
        {
            proof {
                lemma_sub(a0, s, INVALID_IDX, nat_of(cur));
                lemma_sub_children(a0, s, INVALID_IDX, nat_of(cur));
                lemma_sub_is_node(s, nat_of(cur));
                lemma_root_has(a0, s.sub(nat_of(cur)).lchild(), cur);
                lemma_root_has(a0, s.sub(nat_of(cur)).rchild(), cur);
            }
            let ordering = cmp(&self.node(new_idx).data, &self.node(cur).data);
            let is_less = match ordering {
                Ordering::Less => true,
                _ => false,
            };
            let next = if is_less {
                self.node(cur).left
            } else {
                self.node(cur).right
            };
            if next == INVALID_IDX {
                go_left = is_less;
                proof {
                    last = ordering;
                }
                break;
            }
            proof {
                let c = nat_of(cur);
                lemma_pos_children(s, c);
                lemma_before_children(s, c);
                lemma_sub_distinct(s, c);
                lemma_order_facts(s.sub(c).lchild());
                lemma_order_facts(s.sub(c).rchild());
                if is_less {
                    upper = Some(c);
                } else {
                    lower = Some(c);
                }
            }
            cur = next;
        }
        if go_left {
            self.set_left(cur, new_idx);
        } else {
            self.set_right(cur, new_idx);
        }
        self.set_parent(new_idx, cur);
        let ghost t2 = attach_shape(s.sub(nat_of(cur)), nat_of(new_idx), go_left);
        let ghost s2 = s.replace(nat_of(cur), t2);
        let ghost k = attach_pos(s, nat_of(cur), go_left);
        proof {
            lemma_insert_place(a0, s, nat_of(cur), go_left, data, cmp, lower, upper, last);
            lemma_sub(a0, s, INVALID_IDX, nat_of(cur));
            lemma_sub_is_node(s, nat_of(cur));
            lemma_attach(a0, self.nodes@, s, nat_of(cur), nat_of(new_idx), go_left);
        }
        self.shape = Ghost(s2);
        proof {
            assert forall|k1: int| 0 <= k1 < self.free_list@.len() implies self.free_list@[k1]
                != cur && self.free_list@[k1] != new_idx by {}
            lemma_near_attach(s, nat_of(cur), nat_of(new_idx), go_left);
            assert(near(s2, nat_of(new_idx), 0));
            assert(self.fix_ready(new_idx));
        }
        let ghost before_fix = self.view();
        proof {
            assert forall|m: int| 0 <= m < s.order().len() implies s.order()[m] < a.len() && a[int_of(s.order()[m])] is Some by {
                assert(s.order().contains(s.order()[m]));
            }
            assert(before_fix =~= seq_put(data_of(a, s.order()), k, data)) by {
                assert forall|m: int| 0 <= m < s2.order().len() && #[trigger] s2.order()[m] != new_idx implies slot(self.nodes@, s2.order()[m]).data == slot(a, s2.order()[m]).data by {
                    assert(s2.order().contains(s2.order()[m]));
                }
            }
        }
        self.root = self.fix(new_idx);
        proof {
            assert(0 <= k <= old(self).view().len());
            assert(self.view() == seq_put(old(self).view(), k, data));
            assert(self.slots() == seq_put(old(self).slots(), k, nat_of(new_idx)));
            self.lemma_slots();
            assert(self.slots()[k] == nat_of(new_idx));
            Self::lemma_put_keeps(*old(self), *self, k);
        }
        new_idx
    }

    /// Removes the element in slot `idx` and returns its data. A node with a
    /// right subtree takes over the data of its in-order successor, which
    /// leaves in turn: the slot freed is that of the first element from
    /// `idx` on whose node has no right child, and each slot in between takes
    /// the element after it. Every other slot keeps its element.
    #[verifier::rlimit(60)]
    #[verifier::spinoff_prover]
    pub fn delete(&mut self, idx: usize) -> (data: T)
        requires
            old(self).wf(),
            old(self).tree().has(idx as nat),
        ensures
            final(self).wf(),
            ({
                let p = old(self).tree().pos(idx as nat);
                &&& 0 <= p < old(self).view().len()
                &&& data == old(self).view()[p]
                &&& final(self).view() == old(self).view().remove(p)
                &&& exists|q: int|
                    first_without_right(old(self).arena(), old(self).slots(), p, q)
                        && final(self).slots() == old(self).slots().remove(q)
                        && final(self).free() == old(self).free().push(old(self).slots()[q] as usize)
                        && shifted_from(*old(self), *final(self), p, q)
            }),
            final(self).arena().len() == old(self).arena().len(),
        decreases old(self).tree().sub(idx as nat).height(),
    {
        let ghost s = self.shape@;
        let ghost a = self.nodes@;
        let ghost t = s.sub(idx as nat);
        let ghost p = s.pos(idx as nat);
        proof {
            lemma_root_has(a, s, INVALID_IDX);
            lemma_linked_distinct(a, s, INVALID_IDX);
            lemma_sub(a, s, INVALID_IDX, idx as nat);
            lemma_sub_is_node(s, idx as nat);
            lemma_sub_parent(a, s, INVALID_IDX, idx as nat);
            lemma_sub_children(a, s, INVALID_IDX, idx as nat);
            lemma_pos(s, idx as nat);
            lemma_order_facts(s);
            lemma_root_has(a, t.lchild(), idx);
            lemma_root_has(a, t.rchild(), idx);
            if idx != s.root_idx() {
                lemma_sub(a, s, INVALID_IDX, s.parent_idx(idx as nat, INVALID_IDX) as nat);
                lemma_sub_is_node(s, s.parent_idx(idx as nat, INVALID_IDX) as nat);
            }
        }
        if self.node(idx).right == INVALID_IDX {
            let parent = self.node(idx).parent;
            let left = self.node(idx).left;
            if left != INVALID_IDX {
                self.set_parent(left, parent);
            }
            if parent != INVALID_IDX {
                if self.node(parent).left == idx {
                    self.set_left(parent, left);
                } else {
                    self.set_right(parent, left);
                }
            }
            let node = self.nodes[idx].take().unwrap();
            let ghost a3 = self.nodes@;
            proof {
                let q = s.parent_idx(idx as nat, INVALID_IDX) as nat;
                if idx != s.root_idx() {
                    let n = slot(a, q);
                    assert(linked(a, s.sub(q), s.parent_idx(q, INVALID_IDX)));
                    assert(n.left == s.sub(q).lchild().root_idx());
                    assert(n.right == s.sub(q).rchild().root_idx());
                    assert(n.left != idx ==> n.right == idx);
                }
                lemma_detach(a, a3, s, idx as nat);
                assert(forall|k: int|
                    0 <= k < self.free_list@.len() ==> self.free_list@[k] != idx);
            }
            self.free_list.push(idx);
            let ghost s2 = s.replace(idx as nat, t.lchild());
            self.shape = Ghost(s2);
            proof {
                assert forall|k: int| 0 <= k < self.free_list@.len() implies self.free_list@[k]
                    < self.nodes@.len() && self.nodes@[self.free_list@[k] as int] is None by {
                    if k < self.free_list@.len() - 1 {
                        let f = self.free_list@[k];
                        assert(a[f as int] is None);
                        assert(f != parent && f != left);
                    }
                }
                assert forall|j: nat| j < self.nodes@.len() implies (self.nodes@[j as int] is Some
                    <==> s2.has(j)) by {
                    if j != idx {
                        assert(a3[j as int] is Some <==> a[j as int] is Some);
                    }
                }
                assert forall|m: int| 0 <= m < s2.order().len() implies s2.order()[m] < a.len()
                    && a[s2.order()[m] as int] is Some && slot(a3, s2.order()[m]).data == slot(
                    a,
                    s2.order()[m],
                ).data by {
                    assert(s2.order().contains(s2.order()[m]));
                    assert(s2.has(s2.order()[m]));
                }
                assert(self.view() =~= old(self).view().remove(p));
                assert(self.slots() == old(self).slots().remove(p));
                assert(first_without_right(a, s.order(), p, p));
            }

            if parent != INVALID_IDX {
                proof {
                    let q = parent as nat;
                    lemma_sub_parent(a, s, INVALID_IDX, idx as nat);
                    lemma_sub(a, s, INVALID_IDX, q);
                    lemma_sub_is_node(s, q);
                    lemma_root_has(a, s.sub(q), s.parent_idx(q, INVALID_IDX));
                    lemma_root_has(a, s.sub(q).lchild(), parent);
                    lemma_root_has(a, s.sub(q).rchild(), parent);
                    assert(child_of(s, q, idx as nat));
                    lemma_near_detach(s, idx as nat, q);
                    assert(near(s2, q, s.sub(q).height() as int));
                    assert(self.fix_ready(parent));
                }
                self.root = self.fix(parent);
            } else {
                proof {
                    lemma_sub_balanced(s, idx as nat);
                    assert(s2 == t.lchild());
                }
                self.root = left;
            }
            proof {
                Self::lemma_remove_shifts(*old(self), *self, p, p);
            }
            node.data
        } else {
            let mut victim = self.node(idx).right;
            proof {
                lemma_before_children(s, idx as nat);
                lemma_sub_distinct(s, idx as nat);
                lemma_order_facts(t.lchild());
            }
            while self.node(victim).left != INVALID_IDX
                invariant
                    self.wf(),
                    self.shape@ == s,
                    self.nodes@ == a,
                    s.distinct(),
                    s.has(victim as nat),
                    victim < a.len(),
                    a[victim as int] is Some,
                    s.before(victim as nat).len() == p + 1,
                    s.sub(victim as nat).height() < t.height(),
                decreases s.sub(victim as nat).height(),
            {
                let next = self.node(victim).left;
                proof {
                    let v = victim as nat;
                    lemma_sub(a, s, INVALID_IDX, v);
                    lemma_sub_is_node(s, v);
                    lemma_sub_children(a, s, INVALID_IDX, v);
                    lemma_before_children(s, v);
                    lemma_root_has(a, s.sub(v).lchild(), victim);
                    assert(linked(a, s.sub(v), s.parent_idx(v, INVALID_IDX)));
                    assert(slot(a, v).left == s.sub(v).lchild().root_idx());
                    assert(s.sub(v).lchild() is Node);
                    assert(s.sub(v).lchild().root_nat() == next as nat);
                    assert(s.sub(next as nat) == s.sub(v).lchild());
                    assert(s.sub(v).height() == 1 + if s.sub(v).lchild().height() >= s.sub(
                        v,
                    ).rchild().height() {
                        s.sub(v).lchild().height()
                    } else {
                        s.sub(v).rchild().height()
                    });
                    lemma_linked_distinct(a, s, INVALID_IDX);
                }
                victim = next;
            }
            proof {
                lemma_sub(a, s, INVALID_IDX, victim as nat);
                lemma_sub_is_node(s, victim as nat);
                lemma_root_has(a, s.sub(victim as nat).lchild(), victim);
                lemma_pos(s, victim as nat);
                assert(s.pos(victim as nat) == p + 1);
            }
            let victim_data = self.delete(victim);
            let ghost s1 = self.shape@;
            let ghost a1 = self.nodes@;
            let ghost v1 = self.view();
            let ghost q1 = choose|q: int|
                first_without_right(a, s.order(), p + 1, q) && s1.order() == s.order().remove(q)
                    && self.free_list@ == old(self).free_list@.push(s.order()[q] as usize);
            proof {
                assert(s1.order()[p] == idx as nat);
                lemma_linked_distinct(a1, s1, INVALID_IDX);
                lemma_order_facts(s1);
                assert(s1.order().contains(idx as nat));
                assert(s1.has(idx as nat));
                lemma_pos(s1, idx as nat);
                assert(s1.pos(idx as nat) == p);
            }
            let old_node = self.nodes[idx].take().unwrap();
            let Node { data: old_data, depth, cnt, left, right, parent } = old_node;
            self.nodes.set(idx, Some(Node { data: victim_data, depth, cnt, left, right, parent }));
            proof {
                let a2 = self.nodes@;
                assert(a2 == a1.update(idx as int, a2[idx as int]));
                lemma_update_links(a1, idx as int, slot(a2, idx as nat), s1.idxs());
                lemma_linked_frame(a1, a2, s1, INVALID_IDX);
                assert(fields_agree(a1, a2, s1.idxs()));
                lemma_fields_agree_subset(a1, a2, s1.idxs(), s1.idxs().difference(Set::empty()));
                lemma_fields_frame(a1, a2, s1, Set::empty(), Set::empty());
                assert forall|k: int| 0 <= k < self.free_list@.len() implies self.free_list@[k]
                    < a2.len() && a2[self.free_list@[k] as int] is None by {
                    assert(a1[self.free_list@[k] as int] is None);
                }
                assert forall|j: nat| j < a2.len() implies (a2[j as int] is Some <==> s1.has(j)) by {
                    assert(a1[j as int] is Some <==> s1.has(j));
                }
                assert(self.view().len() == old(self).view().remove(p).len());
                assert forall|m: int| 0 <= m < self.view().len() implies self.view()[m] == old(
                    self,
                ).view().remove(p)[m] by {
                    let j = s1.order()[m];
                    assert(s1.order().contains(j));
                    assert(s1.has(j));
                    if m == p {
                        assert(j == idx as nat);
                    } else {
                        assert(j != idx as nat);
                        assert(v1[m] == slot(a1, j).data);
                    }
                }
                assert(self.view() =~= old(self).view().remove(p));
                assert(old_data == slot(a1, idx as nat).data);
                assert(v1[p] == slot(a1, idx as nat).data);
                assert(old_data == old(self).view()[p]);
                assert(p <= q1 < old(self).slots().len() && self.slots() == old(self).slots().remove(q1));
                assert forall|r: int| p <= r < q1 implies #[trigger] slot(a, s.order()[r]).right != INVALID_IDX by {
                    if r == p {
                        assert(s.order()[r] == idx as nat);
                    }
                }
                assert(first_without_right(a, s.order(), p, q1));
                Self::lemma_remove_shifts(*old(self), *self, p, q1);
            }
            old_data
        }
    }

    /// What every node of a well-formed tree records: the height and size
    /// of its subtree, the slots of its children and of its parent (none for
    /// the root); and every subtree is balanced.
    pub proof fn lemma_nodes(&self)
        requires
            self.wf(),
        ensures
            forall|i: nat| #[trigger] self.tree().has(i) ==> {
                let n = slot(self.arena(), i);
                let t = self.tree().sub(i);
                &&& n.depth == t.height()
                &&& n.cnt == t.size()
                &&& n.left == t.lchild().root_idx()
                &&& n.right == t.rchild().root_idx()
                &&& n.parent == self.tree().parent_idx(i, INVALID_IDX)
                &&& t.balanced()
                &&& t.lchild().height() <= t.rchild().height() + 1
                &&& t.rchild().height() <= t.lchild().height() + 1
            },
    {
        let s = self.shape@;
        let a = self.nodes@;
        assert forall|i: nat| #[trigger] s.has(i) implies {
            let n = slot(a, i);
            let t = s.sub(i);
            &&& n.depth == t.height()
            &&& n.cnt == t.size()
            &&& n.left == t.lchild().root_idx()
            &&& n.right == t.rchild().root_idx()
            &&& n.parent == s.parent_idx(i, INVALID_IDX)
            &&& t.balanced()
            &&& t.lchild().height() <= t.rchild().height() + 1
            &&& t.rchild().height() <= t.lchild().height() + 1
        } by {
            lemma_slot_facts(a, s, i);
            lemma_fields_at(a, s, Set::empty(), i);
            crate::balance::lemma_sub_balanced(s, i);
            lemma_sub_is_node(s, i);
        }
    }

    /// A well-formed tree is ready for [`AvlTree::fix`] at any of its slots.
    pub proof fn lemma_wf_fix_ready(&self, idx: usize)
        requires
            self.wf(),
            self.tree().has(idx as nat),
        ensures
            self.fix_ready(idx),
    {
        let s = self.shape@;
        lemma_fields_mono(self.nodes@, s, Set::empty(), s.anc(idx as nat));
        crate::balance::lemma_balanced_near(s, idx as nat);
        assert(near(s, idx as nat, s.sub(idx as nat).height() as int));
    }

    /// A well-formed tree is balanced: the two sides of every node differ in
    /// height by at most one level. So it holds at least [`min_size`] of its
    /// height elements, and the height recorded at its root is that height.
    pub proof fn lemma_wf_balanced(&self)
        requires
            self.wf(),
        ensures
            self.tree().balanced(),
            self.view().len() >= min_size(self.tree().height()),
            self.tree() is Node ==> slot(self.arena(), self.tree().root_nat()).depth == self.tree().height(),
    {
        let s = self.shape@;
        lemma_linked_distinct(self.nodes@, s, INVALID_IDX);
        lemma_order_facts(s);
        lemma_balanced_size(s);
        if s is Node {
            lemma_root_has(self.nodes@, s, INVALID_IDX);
            lemma_sub(self.nodes@, s, INVALID_IDX, s.root_nat());
            lemma_fields_at(self.nodes@, s, Set::empty(), s.root_nat());
        }
    }

    /// The node in slot `idx`, or `None` when the slot is out of range or free.
    #[must_use]
    pub fn get(&self, idx: usize) -> (r: Option<&Node<T>>)
        ensures
            r.is_some() == (idx < self.arena().len() && self.arena()[idx as int] is Some),
            r.is_some() ==> *r.unwrap() == slot(self.arena(), idx as nat),
            self.wf() ==> (r.is_some() <==> self.tree().has(idx as nat)),
            self.wf() && self.tree().has(idx as nat) ==> ({
                let n = *r.unwrap();
                let t = self.tree().sub(idx as nat);
                &&& 0 <= self.tree().pos(idx as nat) < self.view().len()
                &&& n.data == self.view()[self.tree().pos(idx as nat)]
                &&& n.depth == t.height()
                &&& n.cnt == t.size()
                &&& n.left == t.lchild().root_idx()
                &&& n.right == t.rchild().root_idx()
                &&& n.parent == self.tree().parent_idx(idx as nat, INVALID_IDX)
            }),
    {
        proof {
            if self.wf() && self.tree().has(idx as nat) {
                let s = self.shape@;
                let a = self.nodes@;
                lemma_slot_facts(a, s, idx as nat);
                lemma_fields_at(a, s, Set::empty(), idx as nat);
                lemma_linked_distinct(a, s, INVALID_IDX);
                lemma_pos(s, idx as nat);
                lemma_order_facts(s);
            }
        }
        if idx < self.nodes.len() {
            self.nodes[idx].as_ref()
        } else {
            None
        }
    }

    /// Mutable access to the node in slot `idx`, or `None` when the slot is
    /// out of range or free. Only the slot handed out can change.
    #[must_use]
    pub fn get_mut(&mut self, idx: usize) -> (r: Option<&mut Node<T>>)
        ensures
            r.is_some() == (idx < old(self).arena().len() && old(self).arena()[idx as int] is Some),
            r.is_some() ==> *r.unwrap() == slot(old(self).arena(), idx as nat)
                && final(self).arena() == old(self).arena().update(idx as int, Some(*final(r.unwrap()))),
            r.is_none() ==> final(self).arena() == old(self).arena(),
            final(self).tree() == old(self).tree(),
            final(self).root_field() == old(self).root_field(),
            final(self).free() == old(self).free(),
    {
        if idx < self.nodes.len() {
            self.nodes[idx].as_mut()
        } else {
            None
        }
    }

    /// Writing through [`AvlTree::get_mut`] a node that keeps the links,
    /// height and size of the one it replaces leaves the tree well formed,
    /// with the same slots in the same order; only the element at that
    /// node's position changes, to the new data.
    pub proof fn lemma_rewrite_data(self, after: Self, idx: usize, n: Node<T>)
        requires
            self.wf(),
            self.tree().has(idx as nat),
            after.arena() == self.arena().update(idx as int, Some(n)),
            after.tree() == self.tree(),
            after.root_field() == self.root_field(),
            after.free() == self.free(),
            n.left == slot(self.arena(), idx as nat).left,
            n.right == slot(self.arena(), idx as nat).right,
            n.parent == slot(self.arena(), idx as nat).parent,
            n.depth == slot(self.arena(), idx as nat).depth,
            n.cnt == slot(self.arena(), idx as nat).cnt,
        ensures
            after.wf(),
            after.slots() == self.slots(),
            0 <= self.tree().pos(idx as nat) < self.view().len(),
            after.view() == self.view().update(self.tree().pos(idx as nat), n.data),
    {
        let s = self.shape@;
        let a1 = self.nodes@;
        let a2 = after.nodes@;
        lemma_linked_distinct(a1, s, INVALID_IDX);
        lemma_order_facts(s);
        lemma_pos(s, idx as nat);
        lemma_update_links(a1, idx as int, n, s.idxs());
        lemma_linked_frame(a1, a2, s, INVALID_IDX);
        assert(fields_agree(a1, a2, s.idxs()));
        lemma_fields_agree_subset(a1, a2, s.idxs(), s.idxs().difference(Set::empty()));
        lemma_fields_frame(a1, a2, s, Set::empty(), Set::empty());
        assert forall|j: nat| j < a2.len() implies (a2[j as int] is Some <==> s.has(j)) by {
            assert(a1[j as int] is Some <==> s.has(j));
        }
        let p = s.pos(idx as nat);
        assert forall|m: int| 0 <= m < after.view().len() implies after.view()[m] == self.view().update(
            p,
            n.data,
        )[m] by {
            let j = s.order()[m];
            assert(s.order().contains(j));
            if m == p {
                assert(j == idx as nat);
            } else {
                assert(j != idx as nat);
            }
        }
        assert(after.view() =~= self.view().update(p, n.data));
    }

    /// The slot `target_offset` places away from slot `idx` in in-order
    /// (negative offsets count backwards), or `None` when that position is
    /// outside the tree. From a free slot only the offset zero finds a slot,
    /// `idx` itself.
    pub fn offset(&self, idx: usize, target_offset: i64) -> (r: Option<usize>)
        requires
            self.wf(),
            idx < self.arena().len(),
        ensures
            self.tree().has(idx as nat) ==> ({
                let t = self.tree().pos(idx as nat) + target_offset;
                r == if 0 <= t < self.slots().len() {
                    Some(self.slots()[t] as usize)
                } else {
                    None::<usize>
                }
            }),
            !self.tree().has(idx as nat) ==> r == if target_offset == 0 {
                Some(idx)
            } else {
                None::<usize>
            },
    {
        let ghost s = self.shape@;
        let ghost a = self.nodes@;
        if self.nodes[idx].is_none() {
            return if target_offset == 0 {
                Some(idx)
            } else {
                None
            };
        }
        proof {
            lemma_linked_distinct(a, s, INVALID_IDX);
            lemma_order_facts(s);
            lemma_pos(s, idx as nat);
        }
        let ghost base = s.pos(idx as nat);
        let ghost tgt = base + target_offset;
        let mut cur = idx;
        let mut pos: i64 = 0;
        while pos != target_offset
            invariant
                self.wf(),
                self.shape@ == s,
                self.nodes@ == a,
                s.distinct(),
                s.has(cur as nat),
                s.size() <= u32::MAX,
                s.order().len() == s.size(),
                0 <= base < s.size(),
                base == s.pos(idx as nat),
                tgt == base + target_offset,
                pos == s.pos(cur as nat) - base,
            decreases (if s.spans(cur as nat, tgt) {
                s.sub(cur as nat).height()
            } else {
                s.height() + 1 + s.level(cur as nat)
            }),
        {
            let ghost x = cur as nat;
            proof {
                lemma_slot_facts(a, s, x);
                lemma_pos_children(s, x);
                lemma_pos(s, x);
                lemma_sub_size(s, x);
                lemma_sub_children(a, s, INVALID_IDX, x);
            }
            let right = self.node(cur).right;
            let left = self.node(cur).left;
            let cr = self.cnt(right) as i64;
            let cl = self.cnt(left) as i64;
            if pos < target_offset && pos + cr >= target_offset {
                proof {
                    assert(s.sub(x).rchild() is Node);
                    lemma_slot_facts(a, s, right as nat);
                }
                cur = right;
                let c = self.cnt(self.node(cur).left) as i64;
                pos = pos + c + 1;
            } else if pos > target_offset && pos - cl <= target_offset {
                proof {
                    assert(s.sub(x).lchild() is Node);
                    lemma_slot_facts(a, s, left as nat);
                }
                cur = left;
                let c = self.cnt(self.node(cur).right) as i64;
                pos = pos - c - 1;
            } else {
                let parent = self.node(cur).parent;
                proof {
                    lemma_root_has(a, s, INVALID_IDX);
                    lemma_sub_parent(a, s, INVALID_IDX, x);
                    lemma_sub(a, s, INVALID_IDX, x);
                    assert(!s.spans(x, tgt));
                }
                if parent == INVALID_IDX {
                    proof {
                        assert(x == s.root_nat());
                        assert(s.sub(x) == s);
                        assert(s.before(x).len() == 0);
                        assert(!(0 <= tgt < s.size()));
                        assert(!(0 <= tgt < s.order().len()));
                    }
                    return None;
                }
                proof {
                    let q = parent as nat;
                    lemma_slot_facts(a, s, q);
                    lemma_pos_children(s, q);
                    lemma_sub_height(s, q);
                }
                if self.node(parent).right == cur {
                    pos = pos - cl - 1;
                } else {
                    pos = pos + cr + 1;
                }
                cur = parent;
            }
        }
        proof {
            lemma_pos(s, cur as nat);
        }
        Some(cur)
    }
}

impl<T> Default for AvlTree<T> {
    fn default() -> (t: Self)
        ensures
            t.wf(),
            t.view() == Seq::<T>::empty(),
            t.slots() == Seq::<nat>::empty(),
    {
        Self::new()
    }
}

} // verus!
