use vstd::prelude::*;

use crate::side::{flip, Side};

verus! {

/// A slot that is either empty or owns one node.
pub type Tree = Option<Box<Node>>;

/// A tree node: a value, the cached height of its subtree, and two children.
pub struct Node {
    pub value: u64,
    pub height: usize,
    pub left: Tree,
    pub right: Tree,
}

/// Height of a subtree, computed from its shape (empty: 0, leaf: 1).
pub open spec fn ht(t: Tree) -> nat
    decreases t,
{
    match t {
        None => 0,
        Some(n) => 1 + max_nat(ht(n.left), ht(n.right)),
    }
}

/// The greater of two heights.
pub open spec fn max_nat(a: nat, b: nat) -> nat {
    if a >= b { a } else { b }
}

/// The values stored in a subtree.
pub open spec fn elems(t: Tree) -> Set<u64>
    decreases t,
{
    match t {
        None => Set::empty(),
        Some(n) => elems(n.left).union(elems(n.right)).insert(n.value),
    }
}

/// Number of nodes in a subtree.
pub open spec fn size(t: Tree) -> nat
    decreases t,
{
    match t {
        None => 0,
        Some(n) => size(n.left) + size(n.right) + 1,
    }
}

/// The values of a subtree, left to right.
pub open spec fn inorder(t: Tree) -> Seq<u64>
    decreases t,
{
    match t {
        None => Seq::empty(),
        Some(n) => inorder(n.left) + seq![n.value] + inorder(n.right),
    }
}

/// The nodes from the root of `t` down its left children, the root first.
pub open spec fn left_spine(t: Tree) -> Seq<Node>
    decreases t,
{
    match t {
        None => Seq::empty(),
        Some(n) => seq![*n] + left_spine(n.left),
    }
}

/// The left spine is no longer than the height.
pub proof fn lemma_left_spine_len(t: Tree)
    ensures
        left_spine(t).len() <= ht(t),
        left_spine(t).len() == 0 <==> t.is_none(),
    decreases t,
{
    if let Some(n) = t {
        lemma_left_spine_len(n.left);
    }
}

/// Search-tree order at this node: smaller values left, greater values right.
pub open spec fn ordered_at(n: Node) -> bool {
    &&& forall|x: u64| elems(n.left).contains(x) ==> x < n.value
    &&& forall|x: u64| elems(n.right).contains(x) ==> x > n.value
}

/// The height of the right child minus that of the left one.
pub open spec fn bf(n: Node) -> int {
    ht(n.right) as int - ht(n.left) as int
}

/// Search-tree order at every node.
pub open spec fn ord(t: Tree) -> bool
    decreases t,
{
    match t {
        None => true,
        Some(n) => ordered_at(*n) && ord(n.left) && ord(n.right),
    }
}

/// Every node caches its true height and has a balance factor of -1, 0 or 1.
pub open spec fn avl(t: Tree) -> bool
    decreases t,
{
    match t {
        None => true,
        Some(n) => {
            &&& n.height == ht(t)
            &&& -1 <= bf(*n) <= 1
            &&& avl(n.left)
            &&& avl(n.right)
        },
    }
}

/// A valid subtree: ordered and balanced, with true cached heights.
pub open spec fn wf(t: Tree) -> bool {
    ord(t) && avl(t)
}

/// The slot that owns `n`.
pub open spec fn boxed(n: Node) -> Tree {
    Some(Box::new(n))
}

/// The child on the given side.
pub open spec fn child_of(n: Node, side: Side) -> Tree {
    match side {
        Side::Left => n.left,
        Side::Right => n.right,
    }
}

/// The height that a node caches for the slot (0 where it is empty).
pub open spec fn cached(t: Tree) -> nat {
    match t {
        None => 0,
        Some(n) => n.height as nat,
    }
}

/// `n` with its cached height recomputed from its children's cached heights.
pub open spec fn with_height(n: Node) -> Node {
    Node { height: (1 + max_nat(cached(n.left), cached(n.right))) as usize, ..n }
}

/// `n` with the child on `side` replaced by `t`.
pub open spec fn with_child(n: Node, side: Side, t: Tree) -> Node {
    match side {
        Side::Left => Node { left: t, ..n },
        Side::Right => Node { right: t, ..n },
    }
}

/// A single rotation of `n` toward `side`: the child on the other side becomes the root
/// and `n` becomes its child on `side`.
pub open spec fn rotated(n: Node, side: Side) -> Node {
    let c = child_of(n, flip(side)).unwrap();
    let lowered = with_height(with_child(n, flip(side), child_of(*c, side)));
    with_height(with_child(*c, side, Some(Box::new(lowered))))
}

/// How the child on `side` leans when it must first be rotated the other way.
pub open spec fn lean_of(side: Side) -> int {
    match side {
        Side::Left => 1,
        Side::Right => -1,
    }
}

/// The balance factor from the cached heights of the children.
pub open spec fn cbf(n: Node) -> int {
    cached(n.right) - cached(n.left)
}

/// The rebalancing of a node that is too heavy on `side`: a rotation of the heavy child
/// where it leans inward, then a rotation of the node away from `side`.
pub open spec fn restored(n: Node, side: Side) -> Node {
    rotated(with_child(n, side, boxed(straightened(n, side))), flip(side))
}

/// The heavy child on `side`, rotated toward `side` where it leans inward.
pub open spec fn straightened(n: Node, side: Side) -> Node {
    let c = *child_of(n, side).unwrap();
    if cbf(c) == lean_of(side) {
        rotated(c, side)
    } else {
        c
    }
}

/// In a balanced subtree the cached height of the root is its true height.
/// What rebalancing makes of `n`: its height recomputed and, where it leans by two, the
/// rotations that restore the balance.
pub open spec fn rebalanced(n: Node) -> Node {
    let m = with_height(n);
    if bf(n) == -2 {
        restored(m, Side::Left)
    } else if bf(n) == 2 {
        restored(m, Side::Right)
    } else {
        m
    }
}

pub proof fn lemma_wf_cached(t: Tree)
    requires
        avl(t),
    ensures
        cached(t) == ht(t),
{
}

/// A rotation keeps the values, their order, and the number of nodes.
pub proof fn lemma_rotated_same(n: Node, side: Side)
    requires
        child_of(n, flip(side)).is_some(),
    ensures
        elems(boxed(rotated(n, side))) == elems(boxed(n)),
        inorder(boxed(rotated(n, side))) == inorder(boxed(n)),
        size(boxed(rotated(n, side))) == size(boxed(n)),
        ord(boxed(n)) ==> ord(boxed(rotated(n, side))),
{
    let c = *child_of(n, flip(side)).unwrap();
    let r = rotated(n, side);
    let low = *child_of(r, side).unwrap();
    reveal_with_fuel(ord, 2);
    match side {
        Side::Right => {
            assert(inorder(boxed(n)) == inorder(n.left) + seq![n.value] + inorder(n.right));
            assert(inorder(n.left) == inorder(c.left) + seq![c.value] + inorder(c.right));
            assert(inorder(boxed(low)) == inorder(c.right) + seq![n.value] + inorder(n.right));
            assert(inorder(boxed(r)) == inorder(c.left) + seq![c.value] + inorder(boxed(low)));
            assert(inorder(boxed(r)) =~= inorder(boxed(n)));
            assert(elems(n.left) == elems(c.left).union(elems(c.right)).insert(c.value));
            assert(elems(boxed(low)) == elems(c.right).union(elems(n.right)).insert(n.value));
            assert(elems(boxed(r)) =~= elems(boxed(n)));
            assert(size(n.left) == size(c.left) + size(c.right) + 1);
            assert(size(boxed(low)) == size(c.right) + size(n.right) + 1);
            assert(size(boxed(r)) == size(c.left) + size(boxed(low)) + 1);
            assert(size(boxed(n)) == size(n.left) + size(n.right) + 1);
            if ord(boxed(n)) {
                assert forall|x: u64| elems(low.left).contains(x) implies x < low.value by {
                    assert(elems(n.left).contains(x));
                }
                assert forall|x: u64| elems(r.right).contains(x) implies x > r.value by {
                    assert(elems(n.left).contains(c.value));
                    if elems(n.right).contains(x) {
                    } else if x != n.value {
                        assert(elems(c.right).contains(x));
                    }
                }
            }
        },
        Side::Left => {
            assert(inorder(boxed(n)) == inorder(n.left) + seq![n.value] + inorder(n.right));
            assert(inorder(n.right) == inorder(c.left) + seq![c.value] + inorder(c.right));
            assert(inorder(boxed(low)) == inorder(n.left) + seq![n.value] + inorder(c.left));
            assert(inorder(boxed(r)) == inorder(boxed(low)) + seq![c.value] + inorder(c.right));
            assert(inorder(boxed(r)) =~= inorder(boxed(n)));
            assert(elems(n.right) == elems(c.left).union(elems(c.right)).insert(c.value));
            assert(elems(boxed(low)) == elems(n.left).union(elems(c.left)).insert(n.value));
            assert(elems(boxed(r)) =~= elems(boxed(n)));
            assert(size(n.right) == size(c.left) + size(c.right) + 1);
            assert(size(boxed(low)) == size(n.left) + size(c.left) + 1);
            assert(size(boxed(r)) == size(boxed(low)) + size(c.right) + 1);
            assert(size(boxed(n)) == size(n.left) + size(n.right) + 1);
            if ord(boxed(n)) {
                assert forall|x: u64| elems(low.right).contains(x) implies x > low.value by {
                    assert(elems(n.right).contains(x));
                }
                assert forall|x: u64| elems(r.left).contains(x) implies x < r.value by {
                    assert(elems(n.right).contains(c.value));
                    if elems(n.left).contains(x) {
                    } else if x != n.value {
                        assert(elems(c.left).contains(x));
                    }
                }
            }
        },
    }
}

/// Rebalancing a node that is too heavy on one side keeps its values and order, and
/// gives a balanced subtree at most one level lower than the node's new height.
pub proof fn lemma_restored(n: Node, side: Side)
    requires
        ordered_at(n),
        wf(n.left),
        wf(n.right),
        child_of(n, side).is_some(),
        ht(child_of(n, side)) == ht(child_of(n, flip(side))) + 2,
        ht(child_of(n, side)) < usize::MAX - 1,
    ensures
        elems(boxed(restored(n, side))) == elems(boxed(n)),
        inorder(boxed(restored(n, side))) == inorder(boxed(n)),
        size(boxed(restored(n, side))) == size(boxed(n)),
        wf(boxed(restored(n, side))),
        ht(boxed(restored(n, side))) == ht(child_of(n, side)) + 1
            || ht(boxed(restored(n, side))) == ht(child_of(n, side)),
        cached(straightened(n, side).left) < usize::MAX - 1,
        cached(straightened(n, side).right) < usize::MAX - 1,
        cached(boxed(straightened(n, side))) < usize::MAX - 1,
        cbf(*child_of(n, side).unwrap()) == lean_of(side) ==> ({
            let g = *child_of(*child_of(n, side).unwrap(), flip(side)).unwrap();
            cached(g.left) < usize::MAX - 1 && cached(g.right) < usize::MAX - 1
        }),
{
    let c = *child_of(n, side).unwrap();
    lemma_wf_cached(c.left);
    lemma_wf_cached(c.right);
    lemma_wf_cached(n.left);
    lemma_wf_cached(n.right);
    let straight = straightened(n, side);
    if cbf(c) == lean_of(side) {
        lemma_rotated_same(c, side);
    }
    assert(elems(boxed(straight)) == elems(boxed(c)));
    assert(inorder(boxed(straight)) == inorder(boxed(c)));
    assert(size(boxed(straight)) == size(boxed(c)));
    assert(ord(boxed(straight)));
    let m = with_child(n, side, boxed(straight));
    assert(elems(boxed(m)) == elems(boxed(n)));
    assert(inorder(boxed(m)) == inorder(boxed(n)));
    assert(size(boxed(m)) == size(boxed(n)));
    assert(ord(boxed(m)));
    lemma_rotated_same(m, flip(side));
    lemma_restored_avl(n, side);
}

/// Heights after a rotation, from those of the three subtrees that it moves.
proof fn lemma_rotated_ht(n: Node, side: Side)
    requires
        child_of(n, flip(side)).is_some(),
        avl(child_of(*child_of(n, flip(side)).unwrap(), flip(side))),
        avl(child_of(*child_of(n, flip(side)).unwrap(), side)),
        avl(child_of(n, side)),
        ht(child_of(*child_of(n, flip(side)).unwrap(), flip(side))) < usize::MAX - 1,
        ht(child_of(*child_of(n, flip(side)).unwrap(), side)) < usize::MAX - 1,
        ht(child_of(n, side)) < usize::MAX - 1,
    ensures
        ({
            let c = *child_of(n, flip(side)).unwrap();
            let r = rotated(n, side);
            let a = ht(child_of(c, flip(side))) as int;
            let b = ht(child_of(c, side)) as int;
            let e = ht(child_of(n, side)) as int;
            let hl = 1 + if b >= e { b } else { e };
            let hr = 1 + if a >= hl { a } else { hl };
            &&& ht(child_of(r, side)) == hl
            &&& ht(boxed(r)) == hr
            &&& r.height == hr
            &&& child_of(r, flip(side)) == child_of(c, flip(side))
            &&& -1 <= b - e <= 1 ==> avl(child_of(r, side))
            &&& (-1 <= b - e <= 1 && -1 <= hl - a <= 1) ==> avl(boxed(r))
        }),
{
    let c = *child_of(n, flip(side)).unwrap();
    lemma_wf_cached(child_of(c, flip(side)));
    lemma_wf_cached(child_of(c, side));
    lemma_wf_cached(child_of(n, side));
    let r = rotated(n, side);
    let low = *child_of(r, side).unwrap();
    assert(ht(boxed(low)) == 1 + max_nat(ht(low.left), ht(low.right)));
    assert(ht(boxed(r)) == 1 + max_nat(ht(r.left), ht(r.right)));
    assert(avl(boxed(low)) == (low.height == ht(boxed(low)) && -1 <= bf(low) <= 1 && avl(low.left)
        && avl(low.right)));
    assert(avl(boxed(r)) == (r.height == ht(boxed(r)) && -1 <= bf(r) <= 1 && avl(r.left) && avl(
        r.right)));
}

proof fn lemma_restored_avl(n: Node, side: Side)
    requires
        avl(n.left),
        avl(n.right),
        child_of(n, side).is_some(),
        ht(child_of(n, side)) == ht(child_of(n, flip(side))) + 2,
        ht(child_of(n, side)) < usize::MAX - 1,
    ensures
        avl(boxed(restored(n, side))),
        ht(boxed(restored(n, side))) == ht(child_of(n, side)) + 1
            || ht(boxed(restored(n, side))) == ht(child_of(n, side)),
        cached(straightened(n, side).left) < usize::MAX - 1,
        cached(straightened(n, side).right) < usize::MAX - 1,
        cached(boxed(straightened(n, side))) < usize::MAX - 1,
        cbf(*child_of(n, side).unwrap()) == lean_of(side) ==> ({
            let g = *child_of(*child_of(n, side).unwrap(), flip(side)).unwrap();
            cached(g.left) < usize::MAX - 1 && cached(g.right) < usize::MAX - 1
        }),
{
    let c = *child_of(n, side).unwrap();
    let cs = child_of(n, side);
    assert(ht(cs) == 1 + max_nat(ht(c.left), ht(c.right)));
    assert(avl(c.left) && avl(c.right) && -1 <= bf(c) <= 1 && c.height == ht(cs));
    lemma_wf_cached(c.left);
    lemma_wf_cached(c.right);
    let st = straightened(n, side);
    if cbf(c) == lean_of(side) {
        let g = *child_of(c, flip(side)).unwrap();
        let gs = child_of(c, flip(side));
        assert(ht(gs) == 1 + max_nat(ht(g.left), ht(g.right)));
        assert(avl(g.left) && avl(g.right) && -1 <= bf(g) <= 1);
        lemma_rotated_ht(c, side);
        lemma_rotated_ht(with_child(n, side, boxed(st)), flip(side));
    } else {
        lemma_rotated_ht(with_child(n, side, boxed(st)), flip(side));
    }
}

impl Node {
    /// A leaf holding `value`.
    pub fn new(value: u64) -> (r: Node)
        ensures
            r.value == value,
            r.left.is_none(),
            r.right.is_none(),
            r.height == 1,
    {
        Node { value, height: 1, left: None, right: None }
    }

    fn child(&self, side: Side) -> (r: &Tree)
        ensures
            *r == child_of(*self, side),
    {
        match side {
            Side::Left => &self.left,
            Side::Right => &self.right,
        }
    }

    fn child_mut(&mut self, side: Side) -> (r: &mut Tree)
        ensures
            *r == child_of(*old(self), side),
            *final(self) == with_child(*old(self), side, *final(r)),
    {
        match side {
            Side::Left => &mut self.left,
            Side::Right => &mut self.right,
        }
    }

    /// Cached height of the child on `side`, 0 where it is empty.
    fn height(&self, side: Side) -> (r: usize)
        ensures
            r == match child_of(*self, side) {
                None => 0,
                Some(c) => c.height,
            },
    {
        match self.child(side) {
            None => 0,
            Some(c) => c.height,
        }
    }

    /// Height of the right child minus that of the left one, from the cached heights.
    fn balance_factor(&self) -> (r: i8)
        requires
            -127 <= cached(self.right) - cached(self.left) <= 127,
        ensures
            r == cached(self.right) - cached(self.left),
    {
        let (left, right) = (self.height(Side::Left), self.height(Side::Right));
        if left < right {
            (right - left) as i8
        } else {
            -((left - right) as i8)
        }
    }

    fn update_height(&mut self)
        requires
            cached(old(self).left) < usize::MAX,
            cached(old(self).right) < usize::MAX,
        ensures
            *final(self) == with_height(*old(self)),
    {
        let (left, right) = (self.height(Side::Left), self.height(Side::Right));
        self.height = 1 + if left >= right { left } else { right };
    }

    /// Rotates this node toward `side`, in place.
    fn rotate(&mut self, side: Side)
        requires
            child_of(*old(self), flip(side)).is_some(),
            cached(old(self).left) < usize::MAX - 1,
            cached(old(self).right) < usize::MAX - 1,
            ({
                let c = child_of(*old(self), flip(side)).unwrap();
                cached(c.left) < usize::MAX - 1 && cached(c.right) < usize::MAX - 1
            }),
        ensures
            *final(self) == rotated(*old(self), side),
    {
        let opp = side.opposite();
        let mut sub = self.child_mut(opp).take().unwrap();
        *self.child_mut(opp) = sub.child_mut(side).take();
        self.update_height();
        core::mem::swap(self, &mut *sub);
        *self.child_mut(side) = Some(sub);
        self.update_height();
    }
}

impl Node {
    /// Restores the cached height and the balance of this node, whose children are
    /// valid subtrees whose heights differ by at most two.
    pub fn rebalance(&mut self)
        requires
            ordered_at(*old(self)),
            wf(old(self).left),
            wf(old(self).right),
            -2 <= bf(*old(self)) <= 2,
            ht(old(self).left) < usize::MAX - 1,
            ht(old(self).right) < usize::MAX - 1,
        ensures
            wf(boxed(*final(self))),
            elems(boxed(*final(self))) == elems(boxed(*old(self))),
            inorder(boxed(*final(self))) == inorder(boxed(*old(self))),
            size(boxed(*final(self))) == size(boxed(*old(self))),
            -1 <= bf(*old(self)) <= 1 ==> *final(self) == with_height(*old(self)),
            bf(*old(self)) == -2 ==> *final(self) == restored(with_height(*old(self)), Side::Left),
            bf(*old(self)) == 2 ==> *final(self) == restored(with_height(*old(self)), Side::Right),
            *final(self) == rebalanced(*old(self)),
            ht(boxed(*final(self))) == ht(boxed(*old(self)))
                || ht(boxed(*final(self))) + 1 == ht(boxed(*old(self))),
    {
        proof {
            lemma_wf_cached(old(self).left);
            lemma_wf_cached(old(self).right);
        }
        self.update_height();
        let factor = self.balance_factor();
        let side = if factor == -2 {
            Side::Left
        } else if factor == 2 {
            Side::Right
        } else {
            return ;
        };
        let ghost n = *self;
        proof {
            lemma_restored(n, side);
        }
        let lean: i8 = match side {
            Side::Left => 1,
            Side::Right => -1,
        };
        let mut sub = self.child_mut(side).take().unwrap();
        proof {
            lemma_wf_cached(sub.left);
            lemma_wf_cached(sub.right);
        }
        if sub.balance_factor() == lean {
            sub.rotate(side);
        }
        *self.child_mut(side) = Some(sub);
        self.rotate(side.opposite());
    }
}

} // verus!
