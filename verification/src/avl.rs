//! AVL tree stored in a flat arena.
//!
//! Elements live in a backing vector in insertion order; the tree structure
//! (child links and heights) lives in a parallel vector of `AvlNode`s. The
//! shape of the tree is tracked in ghost state, against which the arena is
//! checked.
use vstd::prelude::*;

verus! {

/// Result of comparing two keys.
#[derive(Copy, Clone, Debug, PartialEq, Eq, Structural)]
pub enum KeyOrder {
    Less,
    Equal,
    Greater,
}

/// A strict order on keys, with an executable comparison that agrees with it.
/// Keys that precede each other in neither direction are treated as
/// duplicates.
pub trait AvlKey: Sized {
    spec fn precedes(self, other: Self) -> bool;

    proof fn lemma_precedes_irreflexive(a: Self)
        ensures
            !a.precedes(a),
    ;

    proof fn lemma_precedes_transitive(a: Self, b: Self, c: Self)
        requires
            a.precedes(b),
            b.precedes(c),
        ensures
            a.precedes(c),
    ;

    fn compare(&self, other: &Self) -> (r: KeyOrder)
        ensures
            (r == KeyOrder::Less) == self.precedes(*other),
            (r == KeyOrder::Greater) == other.precedes(*self),
    ;
}

impl AvlKey for u64 {
    open spec fn precedes(self, other: Self) -> bool {
        self < other
    }

    proof fn lemma_precedes_irreflexive(a: Self) {
    }

    proof fn lemma_precedes_transitive(a: Self, b: Self, c: Self) {
    }

    fn compare(&self, other: &Self) -> (r: KeyOrder) {
        if *self < *other {
            KeyOrder::Less
        } else if *self > *other {
            KeyOrder::Greater
        } else {
            KeyOrder::Equal
        }
    }
}

impl AvlKey for i32 {
    open spec fn precedes(self, other: Self) -> bool {
        self < other
    }

    proof fn lemma_precedes_irreflexive(a: Self) {
    }

    proof fn lemma_precedes_transitive(a: Self, b: Self, c: Self) {
    }

    fn compare(&self, other: &Self) -> (r: KeyOrder) {
        if *self < *other {
            KeyOrder::Less
        } else if *self > *other {
            KeyOrder::Greater
        } else {
            KeyOrder::Equal
        }
    }
}

/// Two keys are duplicates of each other when neither precedes the other.
pub open spec fn equivalent<T: AvlKey>(a: T, b: T) -> bool {
    !a.precedes(b) && !b.precedes(a)
}

/// Child links and cached height of one arena slot.
#[derive(Copy, Clone, Debug)]
pub struct AvlNode {
    pub left_node: Option<usize>,
    pub right_node: Option<usize>,
    pub height: usize,
}

impl AvlNode {
    pub open spec fn spec_left(self) -> Option<usize> {
        self.left_node
    }

    pub open spec fn spec_right(self) -> Option<usize> {
        self.right_node
    }

    pub open spec fn spec_height(self) -> usize {
        self.height
    }

    /// Arena index of the left child.
    pub fn left_idx(&self) -> (r: Option<usize>)
        ensures
            r == self.spec_left(),
    {
        self.left_node
    }

    /// Arena index of the right child.
    pub fn right_idx(&self) -> (r: Option<usize>)
        ensures
            r == self.spec_right(),
    {
        self.right_node
    }

    fn new_leaf() -> (r: AvlNode)
        ensures
            r.left_node is None,
            r.right_node is None,
            r.height == 1,
    {
        AvlNode { left_node: None, right_node: None, height: 1 }
    }
}

/// Ghost shape of the tree: arena indices arranged as a binary tree.
pub enum Shape {
    Leaf,
    Node(Box<Shape>, usize, Box<Shape>),
}

pub open spec fn max_nat(a: nat, b: nat) -> nat {
    if a >= b {
        a
    } else {
        b
    }
}

pub open spec fn height(s: Shape) -> nat
    decreases s,
{
    match s {
        Shape::Leaf => 0,
        Shape::Node(l, _, r) => 1 + max_nat(height(*l), height(*r)),
    }
}

pub open spec fn size(s: Shape) -> nat
    decreases s,
{
    match s {
        Shape::Leaf => 0,
        Shape::Node(l, _, r) => size(*l) + 1 + size(*r),
    }
}

pub open spec fn idxs(s: Shape) -> Set<usize>
    decreases s,
{
    match s {
        Shape::Leaf => Set::empty(),
        Shape::Node(l, i, r) => idxs(*l).union(idxs(*r)).insert(i),
    }
}

pub open spec fn root_of(s: Shape) -> Option<usize> {
    match s {
        Shape::Leaf => None,
        Shape::Node(_, i, _) => Some(i),
    }
}

/// Arena indices in pre-order (node, left subtree, right subtree).
pub open spec fn preorder(s: Shape) -> Seq<usize>
    decreases s,
{
    match s {
        Shape::Leaf => Seq::empty(),
        Shape::Node(l, i, r) => seq![i] + preorder(*l) + preorder(*r),
    }
}

/// Arena indices in order (left subtree, node, right subtree).
pub open spec fn inorder(s: Shape) -> Seq<usize>
    decreases s,
{
    match s {
        Shape::Leaf => Seq::empty(),
        Shape::Node(l, i, r) => inorder(*l) + seq![i] + inorder(*r),
    }
}

/// The arena slots named by `s` hold exactly its links and heights, and no
/// slot appears twice.
pub open spec fn matches(nodes: Seq<AvlNode>, s: Shape) -> bool
    decreases s,
{
    match s {
        Shape::Leaf => true,
        Shape::Node(l, i, r) => {
            &&& i < nodes.len()
            &&& nodes[i as int].left_node == root_of(*l)
            &&& nodes[i as int].right_node == root_of(*r)
            &&& nodes[i as int].height == height(s)
            &&& matches(nodes, *l)
            &&& matches(nodes, *r)
            &&& !idxs(*l).contains(i)
            &&& !idxs(*r).contains(i)
            &&& idxs(*l).disjoint(idxs(*r))
        },
    }
}

/// Binary-search-tree order: everything on the left precedes the node,
/// which precedes everything on the right.
pub open spec fn ordered<T: AvlKey>(keys: Seq<T>, s: Shape) -> bool
    decreases s,
{
    match s {
        Shape::Leaf => true,
        Shape::Node(l, i, r) => {
            &&& (forall|j: usize| #[trigger] idxs(*l).contains(j) ==> keys[j as int].precedes(keys[i as int]))
            &&& (forall|j: usize| #[trigger] idxs(*r).contains(j) ==> keys[i as int].precedes(keys[j as int]))
            &&& ordered(keys, *l)
            &&& ordered(keys, *r)
        },
    }
}

/// AVL balance: the two subtrees of every node differ in height by at most one.
pub open spec fn balanced(s: Shape) -> bool
    decreases s,
{
    match s {
        Shape::Leaf => true,
        Shape::Node(l, _, r) => {
            &&& height(*l) <= height(*r) + 1
            &&& height(*r) <= height(*l) + 1
            &&& balanced(*l)
            &&& balanced(*r)
        },
    }
}

/// Restores the AVL balance at the root of `t`, whose subtrees are balanced
/// and differ in height by at most two.
pub open spec fn rebal(t: Shape) -> Shape {
    match t {
        Shape::Leaf => t,
        Shape::Node(l, i, r) => {
            if height(*l) > height(*r) + 1 {
                match *l {
                    Shape::Leaf => t,
                    Shape::Node(ll, b, lr) => {
                        if height(*ll) >= height(*lr) {
                            Shape::Node(ll, b, Box::new(Shape::Node(lr, i, r)))
                        } else {
                            match *lr {
                                Shape::Leaf => t,
                                Shape::Node(lrl, c, lrr) => Shape::Node(
                                    Box::new(Shape::Node(ll, b, lrl)),
                                    c,
                                    Box::new(Shape::Node(lrr, i, r)),
                                ),
                            }
                        }
                    },
                }
            } else if height(*r) > height(*l) + 1 {
                match *r {
                    Shape::Leaf => t,
                    Shape::Node(rl, b, rr) => {
                        if height(*rr) >= height(*rl) {
                            Shape::Node(Box::new(Shape::Node(l, i, rl)), b, rr)
                        } else {
                            match *rl {
                                Shape::Leaf => t,
                                Shape::Node(rll, c, rlr) => Shape::Node(
                                    Box::new(Shape::Node(l, i, rll)),
                                    c,
                                    Box::new(Shape::Node(rlr, b, rr)),
                                ),
                            }
                        }
                    },
                }
            } else {
                t
            }
        },
    }
}

/// AVL insertion of arena slot `x` (whose key is `keys[x]`) into `s`.
pub open spec fn ins<T: AvlKey>(s: Shape, x: usize, keys: Seq<T>) -> Shape
    decreases s,
{
    match s {
        Shape::Leaf => Shape::Node(Box::new(Shape::Leaf), x, Box::new(Shape::Leaf)),
        Shape::Node(l, i, r) => {
            if keys[x as int].precedes(keys[i as int]) {
                rebal(Shape::Node(Box::new(ins(*l, x, keys)), i, r))
            } else {
                rebal(Shape::Node(l, i, Box::new(ins(*r, x, keys))))
            }
        },
    }
}

// ---------------------------------------------------------------------------
// Lemmas on shapes
// ---------------------------------------------------------------------------

proof fn lemma_height_le_size(s: Shape)
    ensures
        height(s) <= size(s),
    decreases s,
{
    match s {
        Shape::Leaf => {},
        Shape::Node(l, _, r) => {
            lemma_height_le_size(*l);
            lemma_height_le_size(*r);
        },
    }
}

/// Changing arena slots outside `s` does not affect whether `s` matches.
proof fn lemma_matches_frame(n1: Seq<AvlNode>, n2: Seq<AvlNode>, s: Shape)
    requires
        matches(n1, s),
        forall|j: usize| #[trigger] idxs(s).contains(j) ==> j < n2.len() && n2[j as int] == n1[j as int],
    ensures
        matches(n2, s),
    decreases s,
{
    match s {
        Shape::Leaf => {},
        Shape::Node(l, i, r) => {
            assert(idxs(s).contains(i));
            assert forall|j: usize| #[trigger] idxs(*l).contains(j) implies j < n2.len() && n2[j as int]
                == n1[j as int] by {
                assert(idxs(s).contains(j));
            }
            assert forall|j: usize| #[trigger] idxs(*r).contains(j) implies j < n2.len() && n2[j as int]
                == n1[j as int] by {
                assert(idxs(s).contains(j));
            }
            lemma_matches_frame(n1, n2, *l);
            lemma_matches_frame(n1, n2, *r);
        },
    }
}

/// Updating a slot outside `s` does not affect whether `s` matches.
proof fn lemma_matches_update(n1: Seq<AvlNode>, s: Shape, i: usize, v: AvlNode)
    requires
        matches(n1, s),
        !idxs(s).contains(i),
        i < n1.len(),
    ensures
        matches(n1.update(i as int, v), s),
{
    lemma_matches_in_bounds(n1, s);
    lemma_matches_frame(n1, n1.update(i as int, v), s);
}

/// A matching shape only names slots of the arena.
proof fn lemma_matches_in_bounds(nodes: Seq<AvlNode>, s: Shape)
    requires
        matches(nodes, s),
    ensures
        forall|j: usize| #[trigger] idxs(s).contains(j) ==> j < nodes.len(),
    decreases s,
{
    match s {
        Shape::Leaf => {},
        Shape::Node(l, i, r) => {
            lemma_matches_in_bounds(nodes, *l);
            lemma_matches_in_bounds(nodes, *r);
        },
    }
}

/// Every child link of a slot in a matching shape names a slot of the shape.
proof fn lemma_links_inside(nodes: Seq<AvlNode>, s: Shape)
    requires
        matches(nodes, s),
    ensures
        forall|j: usize| #[trigger] idxs(s).contains(j) ==> (match nodes[j as int].left_node {
            Some(c) => idxs(s).contains(c),
            None => true,
        }) && (match nodes[j as int].right_node {
            Some(c) => idxs(s).contains(c),
            None => true,
        }),
    decreases s,
{
    match s {
        Shape::Leaf => {},
        Shape::Node(l, i, r) => {
            lemma_links_inside(nodes, *l);
            lemma_links_inside(nodes, *r);
            match *l {
                Shape::Node(_, li, _) => assert(idxs(*l).contains(li)),
                _ => {},
            }
            match *r {
                Shape::Node(_, ri, _) => assert(idxs(*r).contains(ri)),
                _ => {},
            }
        },
    }
}

/// Keys outside `s` do not affect whether `s` is ordered.
proof fn lemma_ordered_frame<T: AvlKey>(k1: Seq<T>, k2: Seq<T>, s: Shape)
    requires
        ordered(k1, s),
        forall|j: usize| #[trigger] idxs(s).contains(j) ==> k2[j as int] == k1[j as int],
    ensures
        ordered(k2, s),
    decreases s,
{
    match s {
        Shape::Leaf => {},
        Shape::Node(l, i, r) => {
            assert(idxs(s).contains(i));
            assert forall|j: usize| #[trigger] idxs(*l).contains(j) implies k2[j as int] == k1[j as int] by {
                assert(idxs(s).contains(j));
            }
            assert forall|j: usize| #[trigger] idxs(*r).contains(j) implies k2[j as int] == k1[j as int] by {
                assert(idxs(s).contains(j));
            }
            lemma_ordered_frame(k1, k2, *l);
            lemma_ordered_frame(k1, k2, *r);
        },
    }
}

pub open spec fn node(l: Shape, i: usize, r: Shape) -> Shape {
    Shape::Node(Box::new(l), i, Box::new(r))
}

/// Right rotation keeps slots, size and order.
proof fn lemma_rot_right<T: AvlKey>(keys: Seq<T>, ll: Shape, b: usize, lr: Shape, i: usize, r: Shape)
    ensures
        idxs(node(ll, b, node(lr, i, r))) =~= idxs(node(node(ll, b, lr), i, r)),
        size(node(ll, b, node(lr, i, r))) == size(node(node(ll, b, lr), i, r)),
        ordered(keys, node(node(ll, b, lr), i, r)) ==> ordered(keys, node(ll, b, node(lr, i, r))),
{
    reveal_with_fuel(idxs, 3);
    reveal_with_fuel(ordered, 3);
    reveal_with_fuel(size, 3);
    let l = node(ll, b, lr);
    let inner = node(lr, i, r);
    assert(idxs(node(ll, b, inner)) =~= idxs(node(l, i, r)));
    if ordered(keys, node(l, i, r)) {
        let ki = keys[i as int];
        let kb = keys[b as int];
        assert(idxs(l).contains(b));
        assert(kb.precedes(ki));
        assert forall|j: usize| #[trigger] idxs(lr).contains(j) implies keys[j as int].precedes(ki) by {
            assert(idxs(l).contains(j));
        }
        assert(ordered(keys, l));
        assert(ordered(keys, inner));
        assert forall|j: usize| #[trigger] idxs(inner).contains(j) implies kb.precedes(keys[j as int]) by {
            if idxs(r).contains(j) {
                T::lemma_precedes_transitive(kb, ki, keys[j as int]);
            } else if idxs(lr).contains(j) {
            } else {
                assert(j == i);
            }
        }
    }
}

/// Left rotation keeps slots, size and order.
proof fn lemma_rot_left<T: AvlKey>(keys: Seq<T>, l: Shape, i: usize, rl: Shape, b: usize, rr: Shape)
    ensures
        idxs(node(node(l, i, rl), b, rr)) =~= idxs(node(l, i, node(rl, b, rr))),
        size(node(node(l, i, rl), b, rr)) == size(node(l, i, node(rl, b, rr))),
        ordered(keys, node(l, i, node(rl, b, rr))) ==> ordered(keys, node(node(l, i, rl), b, rr)),
{
    reveal_with_fuel(idxs, 3);
    reveal_with_fuel(ordered, 3);
    reveal_with_fuel(size, 3);
    let r = node(rl, b, rr);
    let inner = node(l, i, rl);
    assert(idxs(node(inner, b, rr)) =~= idxs(node(l, i, r)));
    if ordered(keys, node(l, i, r)) {
        let ki = keys[i as int];
        let kb = keys[b as int];
        assert(idxs(r).contains(b));
        assert(ki.precedes(kb));
        assert forall|j: usize| #[trigger] idxs(rl).contains(j) implies ki.precedes(keys[j as int]) by {
            assert(idxs(r).contains(j));
        }
        assert(ordered(keys, r));
        assert(ordered(keys, inner));
        assert forall|j: usize| #[trigger] idxs(inner).contains(j) implies keys[j as int].precedes(kb) by {
            if idxs(l).contains(j) {
                T::lemma_precedes_transitive(keys[j as int], ki, kb);
            } else if idxs(rl).contains(j) {
            } else {
                assert(j == i);
            }
        }
    }
}

/// Left-right double rotation keeps slots, size and order.
proof fn lemma_rot_left_right<T: AvlKey>(
    keys: Seq<T>,
    ll: Shape,
    b: usize,
    lrl: Shape,
    c: usize,
    lrr: Shape,
    i: usize,
    r: Shape,
)
    ensures
        idxs(node(node(ll, b, lrl), c, node(lrr, i, r))) =~= idxs(
            node(node(ll, b, node(lrl, c, lrr)), i, r),
        ),
        size(node(node(ll, b, lrl), c, node(lrr, i, r))) == size(
            node(node(ll, b, node(lrl, c, lrr)), i, r),
        ),
        ordered(keys, node(node(ll, b, node(lrl, c, lrr)), i, r)) ==> ordered(
            keys,
            node(node(ll, b, lrl), c, node(lrr, i, r)),
        ),
{
    reveal_with_fuel(idxs, 3);
    reveal_with_fuel(ordered, 3);
    reveal_with_fuel(size, 3);
    let lr = node(lrl, c, lrr);
    let l = node(ll, b, lr);
    let nl = node(ll, b, lrl);
    let nr = node(lrr, i, r);
    assert(idxs(node(nl, c, nr)) =~= idxs(node(l, i, r)));
    if ordered(keys, node(l, i, r)) {
        let ki = keys[i as int];
        let kb = keys[b as int];
        let kc = keys[c as int];
        assert(idxs(lr).contains(c));
        assert(idxs(l).contains(c));
        assert(kb.precedes(kc));
        assert(kc.precedes(ki));
        assert forall|j: usize| #[trigger] idxs(lrl).contains(j) implies kb.precedes(keys[j as int]) by {
            assert(idxs(lr).contains(j));
        }
        assert forall|j: usize| #[trigger] idxs(lrr).contains(j) implies keys[j as int].precedes(ki) by {
            assert(idxs(lr).contains(j));
            assert(idxs(l).contains(j));
        }
        assert(ordered(keys, nl));
        assert(ordered(keys, nr));
        assert(ordered(keys, lr));
        assert forall|j: usize| #[trigger] idxs(nl).contains(j) implies keys[j as int].precedes(kc) by {
            if idxs(ll).contains(j) {
                T::lemma_precedes_transitive(keys[j as int], kb, kc);
            } else if idxs(lrl).contains(j) {
            } else {
                assert(j == b);
            }
        }
        assert forall|j: usize| #[trigger] idxs(nr).contains(j) implies kc.precedes(keys[j as int]) by {
            if idxs(r).contains(j) {
                T::lemma_precedes_transitive(kc, ki, keys[j as int]);
            } else if idxs(lrr).contains(j) {
            } else {
                assert(j == i);
            }
        }
    }
}

/// Right-left double rotation keeps slots, size and order.
proof fn lemma_rot_right_left<T: AvlKey>(
    keys: Seq<T>,
    l: Shape,
    i: usize,
    rll: Shape,
    c: usize,
    rlr: Shape,
    b: usize,
    rr: Shape,
)
    ensures
        idxs(node(node(l, i, rll), c, node(rlr, b, rr))) =~= idxs(
            node(l, i, node(node(rll, c, rlr), b, rr)),
        ),
        size(node(node(l, i, rll), c, node(rlr, b, rr))) == size(
            node(l, i, node(node(rll, c, rlr), b, rr)),
        ),
        ordered(keys, node(l, i, node(node(rll, c, rlr), b, rr))) ==> ordered(
            keys,
            node(node(l, i, rll), c, node(rlr, b, rr)),
        ),
{
    reveal_with_fuel(idxs, 3);
    reveal_with_fuel(ordered, 3);
    reveal_with_fuel(size, 3);
    let rl = node(rll, c, rlr);
    let r = node(rl, b, rr);
    let nl = node(l, i, rll);
    let nr = node(rlr, b, rr);
    assert(idxs(node(nl, c, nr)) =~= idxs(node(l, i, r)));
    if ordered(keys, node(l, i, r)) {
        let ki = keys[i as int];
        let kb = keys[b as int];
        let kc = keys[c as int];
        assert(idxs(rl).contains(c));
        assert(idxs(r).contains(c));
        assert(kc.precedes(kb));
        assert(ki.precedes(kc));
        assert forall|j: usize| #[trigger] idxs(rll).contains(j) implies ki.precedes(keys[j as int]) by {
            assert(idxs(rl).contains(j));
            assert(idxs(r).contains(j));
        }
        assert forall|j: usize| #[trigger] idxs(rlr).contains(j) implies keys[j as int].precedes(kb) by {
            assert(idxs(rl).contains(j));
        }
        assert(ordered(keys, nl));
        assert(ordered(keys, nr));
        assert(ordered(keys, rl));
        assert forall|j: usize| #[trigger] idxs(nl).contains(j) implies keys[j as int].precedes(kc) by {
            if idxs(l).contains(j) {
                T::lemma_precedes_transitive(keys[j as int], ki, kc);
            } else if idxs(rll).contains(j) {
            } else {
                assert(j == i);
            }
        }
        assert forall|j: usize| #[trigger] idxs(nr).contains(j) implies kc.precedes(keys[j as int]) by {
            if idxs(rr).contains(j) {
                T::lemma_precedes_transitive(kc, kb, keys[j as int]);
            } else if idxs(rlr).contains(j) {
            } else {
                assert(j == b);
            }
        }
    }
}

/// Rebalancing keeps the slots, the number of nodes and the search order.
proof fn lemma_rebal_keeps<T: AvlKey>(keys: Seq<T>, t: Shape)
    ensures
        idxs(rebal(t)) == idxs(t),
        size(rebal(t)) == size(t),
        ordered(keys, t) ==> ordered(keys, rebal(t)),
{
    match t {
        Shape::Leaf => {},
        Shape::Node(l, i, r) => {
            if height(*l) > height(*r) + 1 {
                match *l {
                    Shape::Leaf => {},
                    Shape::Node(ll, b, lr) => {
                        if height(*ll) >= height(*lr) {
                            lemma_rot_right(keys, *ll, b, *lr, i, *r);
                        } else {
                            match *lr {
                                Shape::Leaf => {},
                                Shape::Node(lrl, c, lrr) => {
                                    lemma_rot_left_right(keys, *ll, b, *lrl, c, *lrr, i, *r);
                                },
                            }
                        }
                    },
                }
            } else if height(*r) > height(*l) + 1 {
                match *r {
                    Shape::Leaf => {},
                    Shape::Node(rl, b, rr) => {
                        if height(*rr) >= height(*rl) {
                            lemma_rot_left(keys, *l, i, *rl, b, *rr);
                        } else {
                            match *rl {
                                Shape::Leaf => {},
                                Shape::Node(rll, c, rlr) => {
                                    lemma_rot_right_left(keys, *l, i, *rll, c, *rlr, b, *rr);
                                },
                            }
                        }
                    },
                }
            }
        },
    }
}

/// Rebalancing a node whose subtrees are balanced and differ in height by
/// at most two, where a subtree that is two higher has unequal children,
/// yields a balanced tree.
proof fn lemma_rebal_balanced(l: Shape, i: usize, r: Shape)
    requires
        balanced(l),
        balanced(r),
        height(l) <= height(r) + 2,
        height(r) <= height(l) + 2,
        height(l) == height(r) + 2 ==> (l is Node && height(*l->0) != height(*l->2)),
        height(r) == height(l) + 2 ==> (r is Node && height(*r->0) != height(*r->2)),
    ensures
        balanced(rebal(node(l, i, r))),
        height(l) == height(r) + 2 ==> height(rebal(node(l, i, r))) == height(r) + 2,
        height(r) == height(l) + 2 ==> height(rebal(node(l, i, r))) == height(l) + 2,
        (height(l) <= height(r) + 1 && height(r) <= height(l) + 1) ==> rebal(node(l, i, r)) == node(
            l,
            i,
            r,
        ),
{
    reveal_with_fuel(height, 3);
    reveal_with_fuel(balanced, 3);
    if height(l) == height(r) + 2 {
        match l {
            Shape::Leaf => {},
            Shape::Node(ll, b, lr) => {
                assert(balanced(*ll) && balanced(*lr));
                if height(*ll) >= height(*lr) {
                    let inner = node(*lr, i, r);
                    assert(height(inner) == height(r) + 1);
                    assert(balanced(inner));
                    assert(rebal(node(l, i, r)) == node(*ll, b, inner));
                } else {
                    match *lr {
                        Shape::Leaf => {},
                        Shape::Node(lrl, c, lrr) => {
                            assert(balanced(*lrl) && balanced(*lrr));
                            let nl = node(*ll, b, *lrl);
                            let nr = node(*lrr, i, r);
                            assert(balanced(nl));
                            assert(balanced(nr));
                            assert(rebal(node(l, i, r)) == node(nl, c, nr));
                        },
                    }
                }
            },
        }
    } else if height(r) == height(l) + 2 {
        match r {
            Shape::Leaf => {},
            Shape::Node(rl, b, rr) => {
                assert(balanced(*rl) && balanced(*rr));
                if height(*rr) >= height(*rl) {
                    let inner = node(l, i, *rl);
                    assert(height(inner) == height(l) + 1);
                    assert(balanced(inner));
                    assert(rebal(node(l, i, r)) == node(inner, b, *rr));
                } else {
                    match *rl {
                        Shape::Leaf => {},
                        Shape::Node(rll, c, rlr) => {
                            assert(balanced(*rll) && balanced(*rlr));
                            let nl = node(l, i, *rll);
                            let nr = node(*rlr, b, *rr);
                            assert(balanced(nl));
                            assert(balanced(nr));
                            assert(rebal(node(l, i, r)) == node(nl, c, nr));
                        },
                    }
                }
            },
        }
    }
}

/// The growth fact used by rebalancing: when an insertion makes a subtree
/// taller and it is at least two high, its root has unequal children.
pub open spec fn grows_unevenly(old_s: Shape, new_s: Shape) -> bool {
    height(new_s) == height(old_s) + 1 && height(new_s) >= 2 ==> match new_s {
        Shape::Node(l, _, r) => height(*l) != height(*r),
        Shape::Leaf => false,
    }
}

/// Facts about insertion that the balance proof relies on.
proof fn lemma_ins_shape<T: AvlKey>(s: Shape, x: usize, keys: Seq<T>)
    requires
        balanced(s),
    ensures
        balanced(ins(s, x, keys)),
        height(ins(s, x, keys)) == height(s) || height(ins(s, x, keys)) == height(s) + 1,
        idxs(ins(s, x, keys)) == idxs(s).insert(x),
        size(ins(s, x, keys)) == size(s) + 1,
        ins(s, x, keys) is Node,
        grows_unevenly(s, ins(s, x, keys)),
    decreases s,
{
    match s {
        Shape::Leaf => {
            assert(idxs(ins(s, x, keys)) =~= idxs(s).insert(x));
        },
        Shape::Node(l, i, r) => {
            if keys[x as int].precedes(keys[i as int]) {
                let nl = ins(*l, x, keys);
                lemma_ins_shape(*l, x, keys);
                lemma_rebal_keeps(keys, node(nl, i, *r));
                lemma_rebal_balanced(nl, i, *r);
                assert(idxs(node(nl, i, *r)) =~= idxs(s).insert(x));
            } else {
                let nr = ins(*r, x, keys);
                lemma_ins_shape(*r, x, keys);
                lemma_rebal_keeps(keys, node(*l, i, nr));
                lemma_rebal_balanced(*l, i, nr);
                assert(idxs(node(*l, i, nr)) =~= idxs(s).insert(x));
            }
        },
    }
}

/// Insertion of a key that duplicates nothing in an ordered tree keeps the
/// tree ordered.
proof fn lemma_ins_ordered<T: AvlKey>(s: Shape, x: usize, keys: Seq<T>)
    requires
        ordered(keys, s),
        balanced(s),
        forall|j: usize| #[trigger] idxs(s).contains(j) ==> !equivalent(keys[x as int], keys[j as int]),
    ensures
        ordered(keys, ins(s, x, keys)),
    decreases s,
{
    match s {
        Shape::Leaf => {},
        Shape::Node(l, i, r) => {
            assert(idxs(s).contains(i));
            if keys[x as int].precedes(keys[i as int]) {
                assert forall|j: usize| #[trigger] idxs(*l).contains(j) implies !equivalent(
                    keys[x as int],
                    keys[j as int],
                ) by {
                    assert(idxs(s).contains(j));
                }
                lemma_ins_ordered(*l, x, keys);
                lemma_ins_shape(*l, x, keys);
                lemma_rebal_keeps(keys, node(ins(*l, x, keys), i, *r));
            } else {
                assert(keys[i as int].precedes(keys[x as int]));
                assert forall|j: usize| #[trigger] idxs(*r).contains(j) implies !equivalent(
                    keys[x as int],
                    keys[j as int],
                ) by {
                    assert(idxs(s).contains(j));
                }
                lemma_ins_ordered(*r, x, keys);
                lemma_ins_shape(*r, x, keys);
                lemma_rebal_keeps(keys, node(*l, i, ins(*r, x, keys)));
            }
        },
    }
}

/// In an ordered tree, a key that precedes the node's key precedes every key
/// of the right subtree, and so duplicates none of them.
proof fn lemma_no_equiv_right<T: AvlKey>(keys: Seq<T>, s: Shape, k: T)
    requires
        ordered(keys, s),
        s is Node,
        k.precedes(keys[s->1 as int]),
    ensures
        forall|j: usize| #[trigger] idxs(*s->2).contains(j) ==> !equivalent(k, keys[j as int]),
{
    assert forall|j: usize| #[trigger] idxs(*s->2).contains(j) implies !equivalent(k, keys[j as int]) by {
        T::lemma_precedes_transitive(k, keys[s->1 as int], keys[j as int]);
    }
}

proof fn lemma_no_equiv_left<T: AvlKey>(keys: Seq<T>, s: Shape, k: T)
    requires
        ordered(keys, s),
        s is Node,
        keys[s->1 as int].precedes(k),
    ensures
        forall|j: usize| #[trigger] idxs(*s->0).contains(j) ==> !equivalent(k, keys[j as int]),
{
    assert forall|j: usize| #[trigger] idxs(*s->0).contains(j) implies !equivalent(k, keys[j as int]) by {
        T::lemma_precedes_transitive(keys[j as int], keys[s->1 as int], k);
    }
}

/// Pre-order traversal lists each slot of a well-formed shape exactly once.
proof fn lemma_preorder_perm(nodes: Seq<AvlNode>, s: Shape)
    requires
        matches(nodes, s),
    ensures
        preorder(s).len() == size(s),
        preorder(s).no_duplicates(),
        forall|j: usize| #[trigger] preorder(s).contains(j) <==> idxs(s).contains(j),
    decreases s,
{
    broadcast use vstd::seq_lib::lemma_seq_concat_contains_all_elements;

    match s {
        Shape::Leaf => {},
        Shape::Node(l, i, r) => {
            lemma_preorder_perm(nodes, *l);
            lemma_preorder_perm(nodes, *r);
            let pl = preorder(*l);
            let pr = preorder(*r);
            let a = seq![i] + pl;
            let p = a + pr;
            assert(preorder(s) == p);
            assert(seq![i][0] == i);
            assert forall|j: usize| #[trigger] p.contains(j) <==> idxs(s).contains(j) by {
                assert(seq![i].contains(j) <==> j == i);
            }
            assert forall|x: int, y: int| 0 <= x < p.len() && 0 <= y < p.len() && x != y implies p[x]
                != p[y] by {
                let n = 1 + pl.len();
                if x < n && y < n {
                    if x == 0 {
                        assert(pl[y - 1] == p[y]);
                        assert(pl.contains(p[y]));
                    } else if y == 0 {
                        assert(pl[x - 1] == p[x]);
                        assert(pl.contains(p[x]));
                    } else {
                        assert(pl[x - 1] == p[x] && pl[y - 1] == p[y]);
                    }
                } else if x >= n && y >= n {
                    assert(pr[x - n] == p[x] && pr[y - n] == p[y]);
                } else if x < n {
                    assert(pr[y - n] == p[y]);
                    assert(pr.contains(p[y]));
                    if x == 0 {
                    } else {
                        assert(pl[x - 1] == p[x]);
                        assert(pl.contains(p[x]));
                    }
                } else {
                    assert(pr[x - n] == p[x]);
                    assert(pr.contains(p[x]));
                    if y == 0 {
                    } else {
                        assert(pl[y - 1] == p[y]);
                        assert(pl.contains(p[y]));
                    }
                }
            }
        },
    }
}

/// In-order traversal of an ordered shape lists its slots with strictly
/// increasing keys.
proof fn lemma_inorder_sorted<T: AvlKey>(nodes: Seq<AvlNode>, keys: Seq<T>, s: Shape)
    requires
        matches(nodes, s),
        ordered(keys, s),
    ensures
        forall|j: usize| #[trigger] inorder(s).contains(j) <==> idxs(s).contains(j),
        forall|a: int, b: int|
            0 <= a < b < inorder(s).len() ==> #[trigger] keys[inorder(s)[a] as int].precedes(
                #[trigger] keys[inorder(s)[b] as int],
            ),
    decreases s,
{
    broadcast use vstd::seq_lib::lemma_seq_concat_contains_all_elements;

    match s {
        Shape::Leaf => {},
        Shape::Node(l, i, r) => {
            lemma_inorder_sorted(nodes, keys, *l);
            lemma_inorder_sorted(nodes, keys, *r);
            let pl = inorder(*l);
            let pr = inorder(*r);
            let a = pl + seq![i];
            let p = a + pr;
            assert(inorder(s) == p);
            assert(seq![i][0] == i);
            assert forall|j: usize| #[trigger] p.contains(j) <==> idxs(s).contains(j) by {
                assert(seq![i].contains(j) <==> j == i);
            }
            assert forall|x: int, y: int|
                0 <= x < y < p.len() implies #[trigger] keys[p[x] as int].precedes(
                #[trigger] keys[p[y] as int],
            ) by {
                let n = pl.len() as int;
                if y < n {
                    assert(pl[x] == p[x] && pl[y] == p[y]);
                } else if x > n {
                    assert(pr[x - n - 1] == p[x] && pr[y - n - 1] == p[y]);
                } else if x == n {
                    assert(pr[y - n - 1] == p[y]);
                    assert(pr.contains(p[y]));
                } else if y == n {
                    assert(pl[x] == p[x]);
                    assert(pl.contains(p[x]));
                } else {
                    assert(pl[x] == p[x]);
                    assert(pl.contains(p[x]));
                    assert(pr[y - n - 1] == p[y]);
                    assert(pr.contains(p[y]));
                    T::lemma_precedes_transitive(keys[p[x] as int], keys[i as int], keys[p[y] as int]);
                }
            }
        },
    }
}

// ---------------------------------------------------------------------------
// The tree
// ---------------------------------------------------------------------------

/// AVL tree of elements, kept in insertion order in a backing vector.
pub struct AvlTree<T> {
    root: Option<usize>,
    tree: Vec<AvlNode>,
    data: Vec<T>,
    shape: Ghost<Shape>,
}

impl<T: AvlKey> View for AvlTree<T> {
    type V = Seq<T>;

    /// The elements, in the order in which they were inserted.
    open spec fn view(&self) -> Seq<T> {
        self.spec_data()
    }
}

impl<T: AvlKey> AvlTree<T> {
    pub closed spec fn spec_data(&self) -> Seq<T> {
        self.data@
    }

    pub closed spec fn spec_shape(&self) -> Shape {
        self.shape@
    }

    /// Links and heights of every arena slot, indexed like the elements.
    pub closed spec fn spec_nodes(&self) -> Seq<AvlNode> {
        self.tree@
    }

    /// Well-formedness: the arena describes a balanced binary search tree
    /// that holds every element exactly once.
    pub closed spec fn wf(&self) -> bool {
        &&& self.spec_nodes().len() == self@.len()
        &&& matches(self.spec_nodes(), self.spec_shape())
        &&& ordered(self@, self.spec_shape())
        &&& balanced(self.spec_shape())
        &&& size(self.spec_shape()) == self@.len()
        &&& forall|j: usize| #[trigger] idxs(self.spec_shape()).contains(j) <==> j < self@.len()
        &&& self.spec_root() == root_of(self.spec_shape())
    }

    /// A well-formed tree is an AVL tree: a search tree whose two subtrees
    /// differ in height by at most one at every node, holding each element
    /// once. Every insertion keeps the tree well formed.
    pub proof fn law_wf_is_avl(&self)
        requires
            self.wf(),
        ensures
            balanced(self.spec_shape()),
            ordered(self@, self.spec_shape()),
            size(self.spec_shape()) == self@.len(),
    {
    }

    pub closed spec fn spec_root(&self) -> Option<usize> {
        self.root
    }

    /// Backing indices of the elements in pre-order.
    pub closed spec fn spec_preorder(&self) -> Seq<usize> {
        preorder(self.spec_shape())
    }

    /// Backing indices of the elements in sorted order.
    pub closed spec fn spec_inorder(&self) -> Seq<usize> {
        inorder(self.spec_shape())
    }

    /// Whether some element duplicates `k`.
    pub open spec fn contains_equivalent(&self, k: T) -> bool {
        exists|j: int| 0 <= j < self@.len() && equivalent(k, #[trigger] self@[j])
    }

    pub fn new() -> (r: Self)
        ensures
            r.wf(),
            r@ == Seq::<T>::empty(),
            r.spec_shape() == Shape::Leaf,
    {
        AvlTree { root: None, tree: Vec::new(), data: Vec::new(), shape: Ghost(Shape::Leaf) }
    }

    /// Number of elements.
    pub fn len(&self) -> (r: usize)
        requires
            self.wf(),
        ensures
            r == self@.len(),
    {
        self.data.len()
    }

    /// Reserves room for `additional` more elements.
    pub fn reserve(&mut self, additional: usize)
        ensures
            old(self).wf() ==> final(self).wf(),
            final(self)@ == old(self)@,
            final(self).spec_nodes() == old(self).spec_nodes(),
            final(self).spec_shape() == old(self).spec_shape(),
            final(self).spec_root() == old(self).spec_root(),
    {
        self.tree.reserve(additional);
        self.data.reserve(additional);
    }

    /// The elements, in insertion order.
    pub fn backing_vec(&self) -> (r: &Vec<T>)
        ensures
            r@ == self@,
    {
        &self.data
    }

    /// Links of the arena slot holding element `idx`.
    pub fn node(&self, idx: usize) -> (r: AvlNode)
        requires
            self.wf(),
            idx < self@.len(),
        ensures
            r == self.spec_nodes()[idx as int],
    {
        self.tree[idx]
    }

    /// Backing index of the root element.
    pub fn root_idx(&self) -> (r: Option<usize>)
        requires
            self.wf(),
        ensures
            r == root_of(self.spec_shape()),
    {
        self.root
    }

    /// Height of the subtree rooted at `c`, read from the arena.
    fn child_height(&self, c: Option<usize>, Ghost(s): Ghost<Shape>) -> (h: usize)
        requires
            matches(self.tree@, s),
            c == root_of(s),
        ensures
            h == height(s),
    {
        match c {
            None => 0,
            Some(j) => self.tree[j].height,
        }
    }

    fn set_node(&mut self, i: usize, left: Option<usize>, right: Option<usize>, height: usize)
        requires
            i < old(self).tree@.len(),
        ensures
            final(self).tree@ == old(self).tree@.update(
                i as int,
                AvlNode { left_node: left, right_node: right, height },
            ),
            final(self).data == old(self).data,
            final(self).root == old(self).root,
            final(self).shape == old(self).shape,
    {
        self.tree.set(i, AvlNode { left_node: left, right_node: right, height });
    }

    /// Restores the balance at slot `i`, whose links are current but whose
    /// cached height may be stale. Returns the slot now at the subtree root.
    fn rebalance(&mut self, i: usize, Ghost(l): Ghost<Shape>, Ghost(r): Ghost<Shape>) -> (res: usize)
        requires
            i < old(self).tree@.len(),
            old(self).tree@[i as int].left_node == root_of(l),
            old(self).tree@[i as int].right_node == root_of(r),
            matches(old(self).tree@, l),
            matches(old(self).tree@, r),
            !idxs(l).contains(i),
            !idxs(r).contains(i),
            idxs(l).disjoint(idxs(r)),
            balanced(l),
            balanced(r),
            height(l) <= height(r) + 2,
            height(r) <= height(l) + 2,
            height(l) == height(r) + 2 ==> (l is Node && height(*l->0) != height(*l->2)),
            height(r) == height(l) + 2 ==> (r is Node && height(*r->0) != height(*r->2)),
            size(node(l, i, r)) <= old(self).tree@.len(),
        ensures
            final(self).tree@.len() == old(self).tree@.len(),
            final(self).data == old(self).data,
            final(self).root == old(self).root,
            final(self).shape == old(self).shape,
            matches(final(self).tree@, rebal(node(l, i, r))),
            root_of(rebal(node(l, i, r))) == Some(res),
            forall|j: usize|
                #![trigger final(self).tree@[j as int]]
                0 <= j < old(self).tree@.len() && !idxs(node(l, i, r)).contains(j) ==> final(self).tree@[j as int] == old(self).tree@[j as int],
    {
        let ghost t = node(l, i, r);
        let ghost n0 = self.tree@;
        proof {
            lemma_height_le_size(t);
            lemma_rebal_balanced(l, i, r);
            lemma_matches_in_bounds(n0, l);
            lemma_matches_in_bounds(n0, r);
            lemma_height_le_size(l);
            lemma_height_le_size(r);
            assert(size(l) < size(t) && size(r) < size(t));
        }
        let _n = self.tree.len();
        let left = self.tree[i].left_node;
        let right = self.tree[i].right_node;
        let lh = self.child_height(left, Ghost(l));
        let rh = self.child_height(right, Ghost(r));
        if lh > rh + 1 {
            // Left subtree is two higher: it is a node with unequal children.
            let b = left.unwrap();
            let ghost ll = *l->0;
            let ghost lr = *l->2;
            let bl = self.tree[b].left_node;
            let br = self.tree[b].right_node;
            let hll = self.child_height(bl, Ghost(ll));
            let hlr = self.child_height(br, Ghost(lr));
            assert(idxs(l).contains(b));
            if hll >= hlr {
                // Single right rotation: b becomes the root.
                let ghost inner = node(lr, i, r);
                proof {
                    lemma_height_le_size(inner);
                    assert(size(inner) <= size(t));
                }
                let hi = if hlr >= rh { hlr + 1 } else { rh + 1 };
                assert(hi == height(inner));
                self.set_node(i, br, right, hi);
                let ghost n1 = self.tree@;
                proof {
                    lemma_matches_update(n0, lr, i, n1[i as int]);
                    lemma_matches_update(n0, r, i, n1[i as int]);
                    lemma_matches_update(n0, ll, i, n1[i as int]);
                    assert(matches(n1, inner));
                    lemma_height_le_size(node(ll, b, inner));
                    assert(size(node(ll, b, inner)) == size(t));
                }
                let hb = if hll >= hi { hll + 1 } else { hi + 1 };
                self.set_node(b, bl, Some(i), hb);
                proof {
                    let n2 = self.tree@;
                    assert(!idxs(ll).contains(b));
                    assert(!idxs(inner).contains(b));
                    lemma_matches_update(n1, ll, b, n2[b as int]);
                    lemma_matches_update(n1, inner, b, n2[b as int]);
                    assert(idxs(ll).disjoint(idxs(inner)));
                    assert(rebal(t) == node(ll, b, inner));
                    assert(matches(n2, node(ll, b, inner)));
                }
                b
            } else {
                // Left-right double rotation: the right child of b becomes the root.
                let c = br.unwrap();
                let ghost lrl = *lr->0;
                let ghost lrr = *lr->2;
                assert(idxs(lr).contains(c));
                assert(idxs(l).contains(c));
                assert(matches(n0, lr));
                assert(matches(n0, lrl) && matches(n0, lrr));
                assert(size(lr) == size(lrl) + 1 + size(lrr));
                let cl = self.tree[c].left_node;
                let cr = self.tree[c].right_node;
                let hlrl = self.child_height(cl, Ghost(lrl));
                let hlrr = self.child_height(cr, Ghost(lrr));
                let ghost nl = node(ll, b, lrl);
                let ghost nr = node(lrr, i, r);
                proof {
                    lemma_height_le_size(nl);
                    lemma_height_le_size(nr);
                    assert(size(nl) <= size(t));
                    assert(size(nr) <= size(t));
                }
                let hb = if hll >= hlrl { hll + 1 } else { hlrl + 1 };
                let hi = if hlrr >= rh { hlrr + 1 } else { rh + 1 };
                self.set_node(b, bl, cl, hb);
                let ghost n1 = self.tree@;
                self.set_node(i, cr, right, hi);
                let ghost n2 = self.tree@;
                proof {
                    assert(!idxs(ll).contains(b) && !idxs(lrl).contains(b) && !idxs(lrr).contains(b)
                        && !idxs(r).contains(b));
                    lemma_matches_update(n0, ll, b, n1[b as int]);
                    lemma_matches_update(n0, lrl, b, n1[b as int]);
                    lemma_matches_update(n0, lrr, b, n1[b as int]);
                    lemma_matches_update(n0, r, b, n1[b as int]);
                    lemma_matches_update(n1, ll, i, n2[i as int]);
                    lemma_matches_update(n1, lrl, i, n2[i as int]);
                    lemma_matches_update(n1, lrr, i, n2[i as int]);
                    lemma_matches_update(n1, r, i, n2[i as int]);
                    assert(matches(n2, nl));
                    assert(matches(n2, nr));
                    lemma_height_le_size(node(nl, c, nr));
                    assert(size(node(nl, c, nr)) == size(t));
                }
                let hc = if hb >= hi { hb + 1 } else { hi + 1 };
                self.set_node(c, Some(b), Some(i), hc);
                proof {
                    let n3 = self.tree@;
                    assert(!idxs(nl).contains(c) && !idxs(nr).contains(c));
                    lemma_matches_update(n2, nl, c, n3[c as int]);
                    lemma_matches_update(n2, nr, c, n3[c as int]);
                    assert(idxs(nl).disjoint(idxs(nr)));
                    assert(rebal(t) == node(nl, c, nr));
                    assert(matches(n3, node(nl, c, nr)));
                }
                c
            }
        } else if rh > lh + 1 {
            // Right subtree is two higher: it is a node with unequal children.
            let b = right.unwrap();
            let ghost rl = *r->0;
            let ghost rr = *r->2;
            let bl = self.tree[b].left_node;
            let br = self.tree[b].right_node;
            let hrl = self.child_height(bl, Ghost(rl));
            let hrr = self.child_height(br, Ghost(rr));
            assert(idxs(r).contains(b));
            if hrr >= hrl {
                // Single left rotation: b becomes the root.
                let ghost inner = node(l, i, rl);
                proof {
                    lemma_height_le_size(inner);
                    assert(size(inner) <= size(t));
                }
                let hi = if lh >= hrl { lh + 1 } else { hrl + 1 };
                assert(hi == height(inner));
                self.set_node(i, left, bl, hi);
                let ghost n1 = self.tree@;
                proof {
                    lemma_matches_update(n0, l, i, n1[i as int]);
                    lemma_matches_update(n0, rl, i, n1[i as int]);
                    lemma_matches_update(n0, rr, i, n1[i as int]);
                    assert(matches(n1, inner));
                    lemma_height_le_size(node(inner, b, rr));
                    assert(size(node(inner, b, rr)) == size(t));
                }
                let hb = if hi >= hrr { hi + 1 } else { hrr + 1 };
                self.set_node(b, Some(i), br, hb);
                proof {
                    let n2 = self.tree@;
                    assert(!idxs(rr).contains(b));
                    assert(!idxs(inner).contains(b));
                    lemma_matches_update(n1, rr, b, n2[b as int]);
                    lemma_matches_update(n1, inner, b, n2[b as int]);
                    assert(idxs(inner).disjoint(idxs(rr)));
                    assert(rebal(t) == node(inner, b, rr));
                    assert(matches(n2, node(inner, b, rr)));
                }
                b
            } else {
                // Right-left double rotation: the left child of b becomes the root.
                let c = bl.unwrap();
                let ghost rll = *rl->0;
                let ghost rlr = *rl->2;
                assert(idxs(rl).contains(c));
                assert(idxs(r).contains(c));
                assert(matches(n0, rl));
                assert(matches(n0, rll) && matches(n0, rlr));
                assert(size(rl) == size(rll) + 1 + size(rlr));
                let cl = self.tree[c].left_node;
                let cr = self.tree[c].right_node;
                let hrll = self.child_height(cl, Ghost(rll));
                let hrlr = self.child_height(cr, Ghost(rlr));
                let ghost nl = node(l, i, rll);
                let ghost nr = node(rlr, b, rr);
                proof {
                    lemma_height_le_size(nl);
                    lemma_height_le_size(nr);
                    assert(size(nl) <= size(t));
                    assert(size(nr) <= size(t));
                }
                let hi = if lh >= hrll { lh + 1 } else { hrll + 1 };
                let hb = if hrlr >= hrr { hrlr + 1 } else { hrr + 1 };
                self.set_node(i, left, cl, hi);
                let ghost n1 = self.tree@;
                self.set_node(b, cr, br, hb);
                let ghost n2 = self.tree@;
                proof {
                    assert(!idxs(l).contains(i) && !idxs(rll).contains(i) && !idxs(rlr).contains(i)
                        && !idxs(rr).contains(i));
                    lemma_matches_update(n0, l, i, n1[i as int]);
                    lemma_matches_update(n0, rll, i, n1[i as int]);
                    lemma_matches_update(n0, rlr, i, n1[i as int]);
                    lemma_matches_update(n0, rr, i, n1[i as int]);
                    assert(!idxs(l).contains(b) && !idxs(rll).contains(b) && !idxs(rlr).contains(b)
                        && !idxs(rr).contains(b));
                    lemma_matches_update(n1, l, b, n2[b as int]);
                    lemma_matches_update(n1, rll, b, n2[b as int]);
                    lemma_matches_update(n1, rlr, b, n2[b as int]);
                    lemma_matches_update(n1, rr, b, n2[b as int]);
                    assert(matches(n2, nl));
                    assert(matches(n2, nr));
                    lemma_height_le_size(node(nl, c, nr));
                    assert(size(node(nl, c, nr)) == size(t));
                }
                let hc = if hi >= hb { hi + 1 } else { hb + 1 };
                self.set_node(c, Some(i), Some(b), hc);
                proof {
                    let n3 = self.tree@;
                    assert(!idxs(nl).contains(c) && !idxs(nr).contains(c));
                    lemma_matches_update(n2, nl, c, n3[c as int]);
                    lemma_matches_update(n2, nr, c, n3[c as int]);
                    assert(idxs(nl).disjoint(idxs(nr)));
                    assert(rebal(t) == node(nl, c, nr));
                    assert(matches(n3, node(nl, c, nr)));
                }
                c
            }
        } else {
            let h = if lh >= rh { lh + 1 } else { rh + 1 };
            self.set_node(i, left, right, h);
            proof {
                let n1 = self.tree@;
                lemma_matches_update(n0, l, i, n1[i as int]);
                lemma_matches_update(n0, r, i, n1[i as int]);
                assert(rebal(t) == t);
            }
            i
        }
    }

    /// Inserts the fresh leaf slot `x` below slot `i`, the root of `s`.
    fn insert_rec(&mut self, i: usize, x: usize, Ghost(s): Ghost<Shape>) -> (res: usize)
        requires
            matches(old(self).tree@, s),
            root_of(s) == Some(i),
            balanced(s),
            ordered(old(self).data@, s),
            old(self).tree@.len() == old(self).data@.len(),
            x < old(self).tree@.len(),
            !idxs(s).contains(x),
            old(self).tree@[x as int] == (AvlNode { left_node: None, right_node: None, height: 1 }),
            forall|j: usize| #[trigger]
                idxs(s).contains(j) ==> !equivalent(old(self).data@[x as int], old(self).data@[j as int]),
            size(s) < old(self).tree@.len(),
        ensures
            final(self).tree@.len() == old(self).tree@.len(),
            final(self).data == old(self).data,
            final(self).root == old(self).root,
            final(self).shape == old(self).shape,
            matches(final(self).tree@, ins(s, x, old(self).data@)),
            root_of(ins(s, x, old(self).data@)) == Some(res),
            forall|j: usize|
                #![trigger final(self).tree@[j as int]]
                0 <= j < old(self).tree@.len() && !idxs(s).contains(j) && j != x ==> final(self).tree@[j as int] == old(self).tree@[j as int],
        decreases s,
    {
        let ghost keys = self.data@;
        let ghost n0 = self.tree@;
        let ghost l = *s->0;
        let ghost r = *s->2;
        proof {
            lemma_matches_in_bounds(n0, s);
            assert(idxs(s).contains(i));
            lemma_ins_shape(l, x, keys);
            lemma_ins_shape(r, x, keys);
        }
        let leaf_shape = Ghost(node(Shape::Leaf, x, Shape::Leaf));
        if self.data[x].compare(&self.data[i]) == KeyOrder::Less {
            let left = self.tree[i].left_node;
            let right = self.tree[i].right_node;
            let ghost nl = ins(l, x, keys);
            let new_left = match left {
                None => {
                    assert(nl == leaf_shape@);
                    x
                },
                Some(li) => {
                    proof {
                        assert forall|j: usize| #[trigger] idxs(l).contains(j) implies !equivalent(
                            keys[x as int],
                            keys[j as int],
                        ) by {
                            assert(idxs(s).contains(j));
                        }
                    }
                    self.insert_rec(li, x, Ghost(l))
                },
            };
            let ghost n1 = self.tree@;
            proof {
                if left is None {
                    assert(matches(n1, nl));
                }
                assert forall|j: usize| #[trigger] idxs(r).contains(j) implies j < n1.len() && n1[j as int]
                    == n0[j as int] by {
                    assert(idxs(s).contains(j));
                    assert(!idxs(l).contains(j));
                }
                lemma_matches_frame(n0, n1, r);
                assert(idxs(nl) == idxs(l).insert(x));
                assert(!idxs(nl).contains(i));
                assert(idxs(nl).disjoint(idxs(r)));
            }
            self.set_node(i, Some(new_left), right, 1);
            proof {
                let n2 = self.tree@;
                lemma_matches_update(n1, nl, i, n2[i as int]);
                lemma_matches_update(n1, r, i, n2[i as int]);
                assert(size(node(nl, i, r)) == size(s) + 1);
            }
            let res = self.rebalance(i, Ghost(nl), Ghost(r));
            proof {
                assert(ins(s, x, keys) == rebal(node(nl, i, r)));
            }
            res
        } else {
            let left = self.tree[i].left_node;
            let right = self.tree[i].right_node;
            let ghost nr = ins(r, x, keys);
            let new_right = match right {
                None => {
                    assert(nr == leaf_shape@);
                    x
                },
                Some(ri) => {
                    proof {
                        assert forall|j: usize| #[trigger] idxs(r).contains(j) implies !equivalent(
                            keys[x as int],
                            keys[j as int],
                        ) by {
                            assert(idxs(s).contains(j));
                        }
                    }
                    self.insert_rec(ri, x, Ghost(r))
                },
            };
            let ghost n1 = self.tree@;
            proof {
                if right is None {
                    assert(matches(n1, nr));
                }
                assert forall|j: usize| #[trigger] idxs(l).contains(j) implies j < n1.len() && n1[j as int]
                    == n0[j as int] by {
                    assert(idxs(s).contains(j));
                    assert(!idxs(r).contains(j));
                }
                lemma_matches_frame(n0, n1, l);
                assert(idxs(nr) == idxs(r).insert(x));
                assert(!idxs(nr).contains(i));
                assert(idxs(l).disjoint(idxs(nr)));
            }
            self.set_node(i, left, Some(new_right), 1);
            proof {
                let n2 = self.tree@;
                lemma_matches_update(n1, l, i, n2[i as int]);
                lemma_matches_update(n1, nr, i, n2[i as int]);
                assert(size(node(l, i, nr)) == size(s) + 1);
            }
            let res = self.rebalance(i, Ghost(l), Ghost(nr));
            proof {
                assert(ins(s, x, keys) == rebal(node(l, i, nr)));
            }
            res
        }
    }

    /// Inserts `data`, unless an element duplicating it is already present.
    /// Returns whether the element was inserted.
    pub fn insert(&mut self, data: T) -> (inserted: bool)
        requires
            old(self).wf(),
            old(self)@.len() < usize::MAX,
        ensures
            final(self).wf(),
            inserted == !old(self).contains_equivalent(data),
            inserted ==> final(self)@ == old(self)@.push(data),
            !inserted ==> final(self)@ == old(self)@,
            inserted ==> final(self).spec_shape() == ins(old(self).spec_shape(), old(self)@.len() as usize, final(self)@),
            !inserted ==> final(self).spec_shape() == old(self).spec_shape(),
    {
        if self.contains(&data) {
            return false;
        }
        let ghost old_keys = self.data@;
        let ghost s = self.shape@;
        let x = self.data.len();
        self.data.push(data);
        self.tree.push(AvlNode::new_leaf());
        let ghost keys = self.data@;
        proof {
            lemma_matches_in_bounds(old(self).tree@, s);
            assert(!idxs(s).contains(x));
            lemma_matches_frame(old(self).tree@, self.tree@, s);
            lemma_ordered_frame(old_keys, keys, s);
            assert forall|j: usize| #[trigger] idxs(s).contains(j) implies !equivalent(
                keys[x as int],
                keys[j as int],
            ) by {
                assert(old_keys[j as int] == keys[j as int]);
                assert(old(self)@[j as int] == old_keys[j as int]);
            }
            lemma_ins_shape(s, x, keys);
            lemma_ins_ordered(s, x, keys);
        }
        match self.root {
            None => {
                self.root = Some(x);
                proof {
                    assert(ins(s, x, keys) == node(Shape::Leaf, x, Shape::Leaf));
                }
            },
            Some(ri) => {
                let nr = self.insert_rec(ri, x, Ghost(s));
                self.root = Some(nr);
            },
        }
        self.shape = Ghost(ins(s, x, keys));
        proof {
            assert forall|j: usize| #[trigger] idxs(self.shape@).contains(j) <==> j < self@.len() by {
                assert(idxs(ins(s, x, keys)) == idxs(s).insert(x));
            }
        }
        true
    }

    fn preorder_into(&self, c: Option<usize>, Ghost(s): Ghost<Shape>, out: &mut Vec<usize>)
        requires
            matches(self.tree@, s),
            root_of(s) == c,
        ensures
            final(out)@ == old(out)@ + preorder(s),
        decreases s,
    {
        match c {
            None => {
                assert(old(out)@ + preorder(s) =~= old(out)@);
            },
            Some(i) => {
                let ghost l = *s->0;
                let ghost r = *s->2;
                out.push(i);
                let left = self.tree[i].left_node;
                let right = self.tree[i].right_node;
                self.preorder_into(left, Ghost(l), out);
                self.preorder_into(right, Ghost(r), out);
                assert(out@ =~= old(out)@ + preorder(s));
            },
        }
    }

    /// Backing indices of the elements, in pre-order of the tree.
    pub fn preorder_indices(&self) -> (r: Vec<usize>)
        requires
            self.wf(),
        ensures
            r@ == self.spec_preorder(),
    {
        let mut out = Vec::new();
        self.preorder_into(self.root, Ghost(self.shape@), &mut out);
        assert(out@ =~= self.spec_preorder());
        out
    }

    /// A well-formed tree is an AVL tree over its elements: the shape names
    /// every element exactly once, is ordered by key, and every node's
    /// subtrees differ in height by at most one.
    pub proof fn lemma_wf_is_avl(&self)
        requires
            self.wf(),
        ensures
            self.spec_nodes().len() == self@.len(),
            matches(self.spec_nodes(), self.spec_shape()),
            ordered(self@, self.spec_shape()),
            balanced(self.spec_shape()),
            size(self.spec_shape()) == self@.len(),
            forall|j: usize| #[trigger] idxs(self.spec_shape()).contains(j) <==> j < self@.len(),
    {
    }

    /// Pre-order traversal visits every element exactly once.
    pub proof fn lemma_preorder_is_permutation(&self)
        requires
            self.wf(),
        ensures
            self.spec_preorder().len() == self@.len(),
            self.spec_preorder().no_duplicates(),
            forall|j: usize| #[trigger] self.spec_preorder().contains(j) <==> j < self@.len(),
    {
        lemma_preorder_perm(self.spec_nodes(), self.spec_shape());
    }

    /// The tree is a search tree: visiting it in order lists every element,
    /// each exactly once, in strictly increasing order.
    pub proof fn lemma_inorder_is_sorted(&self)
        requires
            self.wf(),
        ensures
            forall|j: usize| #[trigger] self.spec_inorder().contains(j) <==> j < self@.len(),
            forall|a: int, b: int|
                0 <= a < b < self.spec_inorder().len() ==> #[trigger] self@[self.spec_inorder()[a] as int].precedes(
                    #[trigger] self@[self.spec_inorder()[b] as int],
                ),
    {
        lemma_inorder_sorted(self.spec_nodes(), self@, self.spec_shape());
    }

    /// Child links of every element name other elements of the tree.
    pub proof fn lemma_links_in_bounds(&self)
        requires
            self.wf(),
        ensures
            forall|j: int|
                0 <= j < self@.len() ==> (match #[trigger] self.spec_nodes()[j].left_node {
                    Some(c) => c < self@.len(),
                    None => true,
                }) && (match self.spec_nodes()[j].right_node {
                    Some(c) => c < self@.len(),
                    None => true,
                }),
    {
        lemma_links_inside(self.spec_nodes(), self.spec_shape());
        assert forall|j: int| 0 <= j < self@.len() implies (match #[trigger] self.spec_nodes()[j].left_node {
            Some(c) => c < self@.len(),
            None => true,
        }) && (match self.spec_nodes()[j].right_node {
            Some(c) => c < self@.len(),
            None => true,
        }) by {
            assert(idxs(self.spec_shape()).contains(j as usize));
        }
    }

    /// Whether an element duplicating `k` is already present.
    pub fn contains(&self, k: &T) -> (r: bool)
        requires
            self.wf(),
        ensures
            r == self.contains_equivalent(*k),
    {
        let ghost keys = self.data@;
        let _n = self.data.len();
        let mut cur = self.root;
        let ghost mut s = self.shape@;
        proof {
            if self.contains_equivalent(*k) {
                let j = choose|j: int| 0 <= j < self@.len() && equivalent(*k, #[trigger] self@[j]);
                let ju = j as usize;
                assert(ju as int == j);
                assert(idxs(s).contains(ju));
                assert(equivalent(*k, keys[ju as int]));
            }
            if exists|j: usize| #[trigger] idxs(s).contains(j) && equivalent(*k, keys[j as int]) {
                let j = choose|j: usize| #[trigger] idxs(s).contains(j) && equivalent(*k, keys[j as int]);
                assert(equivalent(*k, self@[j as int]));
            }
        }
        while cur.is_some()
            invariant
                self.wf(),
                keys == self.data@,
                matches(self.tree@, s),
                ordered(keys, s),
                cur == root_of(s),
                forall|j: usize| #[trigger] idxs(s).contains(j) ==> j < keys.len(),
                self.contains_equivalent(*k) == (exists|j: usize|
                    #[trigger] idxs(s).contains(j) && equivalent(*k, keys[j as int])),
            decreases height(s),
        {
            let i = cur.unwrap();
            let ghost si = s;
            assert(idxs(si).contains(i));
            match k.compare(&self.data[i]) {
                KeyOrder::Less => {
                    proof {
                        lemma_no_equiv_right(keys, si, *k);
                        s = *si->0;
                        assert forall|j: usize| #[trigger] idxs(s).contains(j) implies j < keys.len() by {
                            assert(idxs(si).contains(j));
                        }
                        if exists|j: usize| #[trigger] idxs(si).contains(j) && equivalent(*k, keys[j as int]) {
                            let j = choose|j: usize| #[trigger] idxs(si).contains(j) && equivalent(*k, keys[j as int]);
                            assert(idxs(s).contains(j));
                        }
                        if exists|j: usize| #[trigger] idxs(s).contains(j) && equivalent(*k, keys[j as int]) {
                            let j = choose|j: usize| #[trigger] idxs(s).contains(j) && equivalent(*k, keys[j as int]);
                            assert(idxs(si).contains(j));
                        }
                    }
                    cur = self.tree[i].left_node;
                },
                KeyOrder::Greater => {
                    proof {
                        lemma_no_equiv_left(keys, si, *k);
                        s = *si->2;
                        assert forall|j: usize| #[trigger] idxs(s).contains(j) implies j < keys.len() by {
                            assert(idxs(si).contains(j));
                        }
                        if exists|j: usize| #[trigger] idxs(si).contains(j) && equivalent(*k, keys[j as int]) {
                            let j = choose|j: usize| #[trigger] idxs(si).contains(j) && equivalent(*k, keys[j as int]);
                            assert(idxs(s).contains(j));
                        }
                        if exists|j: usize| #[trigger] idxs(s).contains(j) && equivalent(*k, keys[j as int]) {
                            let j = choose|j: usize| #[trigger] idxs(s).contains(j) && equivalent(*k, keys[j as int]);
                            assert(idxs(si).contains(j));
                        }
                    }
                    cur = self.tree[i].right_node;
                },
                KeyOrder::Equal => {
                    assert(equivalent(*k, keys[i as int]));
                    assert(self@[i as int] == keys[i as int]);
                    return true;
                },
            }
        }
        proof {
            if self.contains_equivalent(*k) {
                let j = choose|j: int| 0 <= j < self@.len() && equivalent(*k, #[trigger] self@[j]);
                assert(idxs(self.shape@).contains(j as usize));
            }
        }
        false
    }
}

} // verus!
