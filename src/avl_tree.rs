use vstd::prelude::*;

use crate::node::{
    avl, boxed, elems, ht, inorder, left_spine, lemma_left_spine_len, ord, rebalanced, size, wf,
    Node, Tree,
};

verus! {

/// An ordered set of `u64` values, kept in a height-balanced search tree.
pub struct AvlTree {
    root: Tree,
    length: usize,
}

impl View for AvlTree {
    type V = Set<u64>;

    open spec fn view(&self) -> Set<u64> {
        elems(self.shape())
    }
}

impl AvlTree {
    /// The tree of nodes.
    pub closed spec fn shape(&self) -> Tree {
        self.root
    }

    /// The tree is ordered and balanced, and `length` counts its nodes.
    pub closed spec fn well_formed(&self) -> bool {
        wf(self.root) && self.length == size(self.root)
    }

    /// The values in ascending order.
    pub open spec fn in_order(&self) -> Seq<u64> {
        inorder(self.shape())
    }

    /// The height of the tree (0 when it is empty).
    pub open spec fn spec_height(&self) -> nat {
        ht(self.shape())
    }

    /// The root and each left child below it, the root first.
    pub open spec fn spine(&self) -> Seq<Node> {
        left_spine(self.shape())
    }

    /// The value at the root, if any.
    pub open spec fn spec_root(&self) -> Option<u64> {
        match self.shape() {
            None => None,
            Some(n) => Some(n.value),
        }
    }

    /// `value` is at the root, which has two children, the left one not the taller: removing
    /// it puts its in-order successor at the root.
    pub open spec fn root_split_evenly(&self, value: u64) -> bool {
        removes_split_root(self.shape(), value)
    }

    /// Every node's balance factor is -1, 0 or 1, and every cached height is exact.
    pub open spec fn balanced(&self) -> bool {
        avl(self.shape())
    }

    /// An empty tree.
    pub fn new() -> (r: Self)
        ensures
            r.well_formed(),
            r@ == Set::<u64>::empty(),
            r.shape().is_none(),
    {
        AvlTree { root: None, length: 0 }
    }

    /// Whether `value` is in the tree.
    pub fn contains(&self, value: &u64) -> (r: bool)
        requires
            self.well_formed(),
        ensures
            r == self@.contains(*value),
    {
        let mut current = &self.root;
        loop
            invariant
                wf(*current),
                self@.contains(*value) == elems(*current).contains(*value),
            decreases *current,
        {
            match current {
                None => {
                    return false;
                },
                Some(node) => {
                    proof {
                        if *value < node.value {
                            assert(!elems(node.right).contains(*value));
                        } else if *value > node.value {
                            assert(!elems(node.left).contains(*value));
                        }
                    }
                    if *value == node.value {
                        return true;
                    } else if *value < node.value {
                        current = &node.left;
                    } else {
                        current = &node.right;
                    }
                },
            }
        }
    }

    /// Adds `value`; returns whether it was not yet in the tree.
    pub fn insert(&mut self, value: u64) -> (inserted: bool)
        requires
            old(self).well_formed(),
            old(self)@.len() < usize::MAX,
        ensures
            final(self).well_formed(),
            final(self).balanced(),
            inserted == !old(self)@.contains(value),
            final(self)@ == old(self)@.insert(value),
            final(self)@.len() == old(self)@.len() + if inserted { 1int } else { 0int },
            !inserted ==> *final(self) == *old(self),
            final(self).shape() == with_value(old(self).shape(), value),
    {
        proof {
            lemma_size_len(self.root);
        }
        let inserted = insert(&mut self.root, value);
        if inserted {
            self.length += 1;
        }
        proof {
            lemma_size_len(self.root);
        }
        inserted
    }

    /// Takes `value` out; returns whether it was in the tree.
    pub fn remove(&mut self, value: &u64) -> (removed: bool)
        requires
            old(self).well_formed(),
        ensures
            final(self).well_formed(),
            final(self).balanced(),
            removed == old(self)@.contains(*value),
            final(self)@ == old(self)@.remove(*value),
            final(self)@.len() == old(self)@.len() - if removed { 1int } else { 0int },
            !removed ==> *final(self) == *old(self),
            final(self).shape() == without_value(old(self).shape(), *value),
            old(self).root_split_evenly(*value) ==> ({
                let r = final(self).spec_root().unwrap();
                &&& final(self).spec_root().is_some()
                &&& old(self)@.contains(r)
                &&& r > *value
                &&& forall|x: u64| old(self)@.contains(x) && x > *value ==> r <= x
            }),
    {
        proof {
            lemma_size_len(self.root);
        }
        let ghost before = self.root;
        let removed = remove(&mut self.root, value);
        if removed {
            self.length -= 1;
        }
        proof {
            lemma_size_len(self.root);
            if removes_split_root(before, *value) {
                let n = before.unwrap();
                assert(elems(before) == elems(n.left).union(elems(n.right)).insert(n.value));
                let r = self.root.unwrap().value;
                assert(elems(n.right).contains(r));
                assert forall|x: u64| elems(before).contains(x) && x > *value implies r <= x by {
                    if elems(n.left).contains(x) {
                    }
                }
            }
        }
        removed
    }

    /// A tree holding each of `values` once.
    pub fn from_vec(values: &Vec<u64>) -> (r: Self)
        requires
            values.len() < usize::MAX,
        ensures
            r.well_formed(),
            r.balanced(),
            r@ == values@.to_set(),
    {
        let mut t = AvlTree::new();
        let mut i: usize = 0;
        while i < values.len()
            invariant
                i <= values.len() < usize::MAX,
                t.well_formed(),
                t@ == values@.take(i as int).to_set(),
                t@.len() <= i,
            decreases values.len() - i,
        {
            let ghost before = t@;
            t.insert(values[i]);
            proof {
                assert(values@.take(i + 1) =~= values@.take(i as int).push(values@[i as int]));
                values@.take(i as int).lemma_push_to_set_commute(values@[i as int]);
                assert(t@ =~= values@.take(i + 1).to_set());
            }
            i += 1;
        }
        proof {
            assert(values@.take(i as int) =~= values@);
        }
        t
    }

    /// A traversal of the values in ascending order.
    pub fn iter(&self) -> (r: Iter<'_>)
        requires
            self.well_formed(),
        ensures
            r@ == self.in_order(),
            r.stack_nodes() == self.spine(),
            r.stack_nodes().len() <= self.spec_height(),
            r.stack_nodes().len() == 0 <==> self@.len() == 0,
    {
        let mut it = Iter { stack: Vec::new() };
        proof {
            assert(it.stack_nodes() =~= Seq::<Node>::empty());
        }
        it.push_left_spine(&self.root);
        proof {
            assert(it@ =~= inorder(self.root));
            assert(it.stack_nodes() =~= left_spine(self.root));
            lemma_left_spine_len(self.root);
            lemma_size_len(self.root);
        }
        it
    }

    /// Whether the tree holds no value.
    pub fn is_empty(&self) -> (r: bool)
        requires
            self.well_formed(),
        ensures
            r == (self@.len() == 0),
    {
        proof {
            lemma_size_len(self.root);
        }
        self.length == 0
    }

    /// The number of values in the tree.
    pub fn len(&self) -> (r: usize)
        requires
            self.well_formed(),
        ensures
            r == self@.len(),
    {
        proof {
            lemma_size_len(self.root);
        }
        self.length
    }

    /// The height of the tree: 0 when empty, 1 for a single value.
    pub fn height(&self) -> (r: usize)
        requires
            self.well_formed(),
        ensures
            r == self.spec_height(),
    {
        match &self.root {
            None => 0,
            Some(node) => node.height,
        }
    }

    /// The value stored at the root, if any.
    pub fn root_value(&self) -> (r: Option<u64>)
        ensures
            r == self.spec_root(),
            self.well_formed() ==> (r.is_none() <==> self@.len() == 0),
            self.well_formed() && r.is_some() ==> self@.contains(r.unwrap()),
    {
        proof {
            if self.well_formed() {
                lemma_size_len(self.root);
            }
        }
        match &self.root {
            None => None,
            Some(node) => Some(node.value),
        }
    }
}

impl Default for AvlTree {
    fn default() -> (r: Self)
        ensures
            r.well_formed(),
            r@ == Set::<u64>::empty(),
    {
        AvlTree::new()
    }
}

/// The set after inserting each of `xs` in turn.
pub open spec fn insert_all(s: Set<u64>, xs: Seq<u64>) -> Set<u64>
    decreases xs.len(),
{
    if xs.len() == 0 {
        s
    } else {
        insert_all(s, xs.drop_last()).insert(xs.last())
    }
}

/// The set after removing each of `xs` in turn.
pub open spec fn remove_all(s: Set<u64>, xs: Seq<u64>) -> Set<u64>
    decreases xs.len(),
{
    if xs.len() == 0 {
        s
    } else {
        remove_all(s, xs.drop_last()).remove(xs.last())
    }
}

proof fn lemma_insert_all(s: Set<u64>, xs: Seq<u64>)
    ensures
        insert_all(s, xs) == s.union(xs.to_set()),
    decreases xs.len(),
{
    if xs.len() > 0 {
        lemma_insert_all(s, xs.drop_last());
        assert(xs == xs.drop_last().push(xs.last()));
        assert(insert_all(s, xs) =~= s.union(xs.to_set()));
    } else {
        assert(s.union(xs.to_set()) =~= s);
    }
}

proof fn lemma_remove_all(s: Set<u64>, xs: Seq<u64>)
    ensures
        remove_all(s, xs) == s.difference(xs.to_set()),
    decreases xs.len(),
{
    if xs.len() > 0 {
        lemma_remove_all(s, xs.drop_last());
        assert(xs == xs.drop_last().push(xs.last()));
        assert(remove_all(s, xs) =~= s.difference(xs.to_set()));
    } else {
        assert(s.difference(xs.to_set()) =~= s);
    }
}

/// Inserting values into an empty tree and then removing the same values, in any order,
/// leaves it empty.
pub proof fn lemma_round_trip(xs: Seq<u64>, ys: Seq<u64>)
    requires
        ys.to_set() == xs.to_set(),
    ensures
        remove_all(insert_all(Set::empty(), xs), ys) == Set::<u64>::empty(),
        remove_all(insert_all(Set::empty(), xs), ys).len() == 0,
{
    lemma_insert_all(Set::empty(), xs);
    lemma_remove_all(insert_all(Set::empty(), xs), ys);
    assert(remove_all(insert_all(Set::empty(), xs), ys) =~= Set::<u64>::empty());
}

/// Once a value is removed, removing it again finds nothing.
pub proof fn lemma_remove_twice(s: Set<u64>, value: u64)
    ensures
        !s.remove(value).contains(value),
        s.remove(value).remove(value) == s.remove(value),
{
    assert(s.remove(value).remove(value) =~= s.remove(value));
}

/// An in-order traversal of a valid tree yields its values, each once, in strictly
/// ascending order.
pub proof fn lemma_in_order_ascending(t: &AvlTree)
    requires
        t.well_formed(),
    ensures
        ascending(t.in_order()),
        t.in_order().len() == t@.len(),
        forall|x: u64| t.in_order().contains(x) <==> t@.contains(x),
{
    lemma_inorder(t.root);
    lemma_size_len(t.root);
}

/// A traversal in ascending order, holding the nodes whose value and right subtree are
/// still to come, the next one on top.
pub struct Iter<'a> {
    stack: Vec<&'a Node>,
}

/// The values still to come from a stack of nodes: from the top down, each node's value,
/// then its right subtree.
pub open spec fn pending(stack: Seq<&Node>) -> Seq<u64>
    decreases stack.len(),
{
    if stack.len() == 0 {
        Seq::empty()
    } else {
        seq![stack.last().value] + inorder(stack.last().right) + pending(stack.drop_last())
    }
}

impl<'a> View for Iter<'a> {
    type V = Seq<u64>;

    closed spec fn view(&self) -> Seq<u64> {
        pending(self.stack@)
    }
}

impl<'a> Iter<'a> {
    /// The nodes on the stack, bottom first: the next value is that of the last.
    pub closed spec fn stack_nodes(&self) -> Seq<Node> {
        self.stack@.map_values(|n: &Node| *n)
    }

    /// Pushes `t`'s root and then each left child below it.
    fn push_left_spine(&mut self, t: &'a Tree)
        ensures
            final(self)@ == inorder(*t) + old(self)@,
            final(self).stack_nodes() == old(self).stack_nodes() + left_spine(*t),
    {
        let mut child = t;
        loop
            invariant
                inorder(*child) + self@ == inorder(*t) + old(self)@,
                self.stack_nodes() + left_spine(*child) == old(self).stack_nodes() + left_spine(*t),
            decreases *child,
        {
            match child {
                None => {
                    return ;
                },
                Some(node) => {
                    let ghost before = self.stack@;
                    self.stack.push(node);
                    proof {
                        assert(self.stack@.drop_last() =~= before);
                        assert(self@ == seq![node.value] + inorder(node.right) + pending(before));
                        assert(inorder(*child) == inorder(node.left) + seq![node.value] + inorder(
                            node.right,
                        ));
                        assert(inorder(node.left) + self@ =~= inorder(*child) + pending(before));
                        assert(self.stack_nodes() =~= before.map_values(|n: &Node| *n).push(**node));
                        assert(left_spine(*child) == seq![**node] + left_spine(node.left));
                        assert(self.stack_nodes() + left_spine(node.left) =~= before.map_values(
                            |n: &Node| *n,
                        ) + left_spine(*child));
                    }
                    child = &node.left;
                },
            }
        }
    }

    /// The next value in ascending order, or `None` once all have come.
    pub fn next(&mut self) -> (r: Option<u64>)
        ensures
            old(self)@.len() == 0 ==> r.is_none() && final(self)@ == old(self)@,
            old(self)@.len() > 0 ==> r == Some(old(self)@[0]) && final(self)@ == old(self)@.drop_first(),
            old(self).stack_nodes().len() == 0 ==> r.is_none() && final(self).stack_nodes() == old(
                self,
            ).stack_nodes(),
            old(self).stack_nodes().len() > 0 ==> ({
                let top = old(self).stack_nodes().last();
                &&& r == Some(top.value)
                &&& final(self).stack_nodes() == old(self).stack_nodes().drop_last() + left_spine(
                    top.right,
                )
            }),
    {
        match self.stack.pop() {
            None => None,
            Some(node) => {
                proof {
                    assert(old(self).stack@.drop_last() =~= self.stack@);
                    assert(old(self)@ == seq![node.value] + inorder(node.right) + self@);
                    assert(self.stack_nodes() =~= old(self).stack_nodes().drop_last());
                }
                self.push_left_spine(&node.right);
                proof {
                    assert(self@ =~= old(self)@.drop_first());
                }
                Some(node.value)
            },
        }
    }
}

/// The fewest nodes that a balanced tree of height `h` can have.
pub open spec fn min_nodes(h: nat) -> nat
    decreases h,
{
    if h == 0 {
        0
    } else if h == 1 {
        1
    } else {
        min_nodes((h - 1) as nat) + min_nodes((h - 2) as nat) + 1
    }
}

/// Two to the power `h`.
pub open spec fn pow2(h: nat) -> nat
    decreases h,
{
    if h == 0 {
        1
    } else {
        2 * pow2((h - 1) as nat)
    }
}

proof fn lemma_min_nodes_mono(a: nat, b: nat)
    requires
        a <= b,
    ensures
        min_nodes(a) <= min_nodes(b),
    decreases b,
{
    if a < b {
        lemma_min_nodes_mono(a, (b - 1) as nat);
    }
}

proof fn lemma_pow2_mono(a: nat, b: nat)
    requires
        a <= b,
    ensures
        pow2(a) <= pow2(b),
    decreases b,
{
    if a < b {
        lemma_pow2_mono(a, (b - 1) as nat);
    }
}

proof fn lemma_size_bounds(t: Tree)
    requires
        avl(t),
    ensures
        min_nodes(ht(t)) <= size(t),
        size(t) < pow2(ht(t)),
    decreases t,
{
    if let Some(n) = t {
        lemma_size_bounds(n.left);
        lemma_size_bounds(n.right);
        let h = ht(t);
        let (hl, hr) = (ht(n.left), ht(n.right));
        lemma_pow2_mono(hl, (h - 1) as nat);
        lemma_pow2_mono(hr, (h - 1) as nat);
        if h >= 2 {
            if hl >= hr {
                lemma_min_nodes_mono((h - 2) as nat, hr);
            } else {
                lemma_min_nodes_mono((h - 2) as nat, hl);
            }
        }
    }
}

impl AvlTree {
    /// A valid tree holding one less than a power of two of its height in values is full:
    /// the median is at the root, and its two children, when there are values beside it, are
    /// of equal height.
    pub proof fn lemma_full_tree(&self)
        requires
            self.well_formed(),
            self@.len() > 0,
            self@.len() + 1 == pow2(self.spec_height()),
        ensures
            self.spec_root().is_some(),
            self.in_order().len() == self@.len(),
            self.in_order()[(self@.len() - 1) / 2] == self.spec_root().unwrap(),
            self@.len() >= 3 ==> self.root_split_evenly(self.spec_root().unwrap()),
    {
        lemma_size_len(self.root);
        lemma_inorder(self.root);
        let n = self.root.unwrap();
        let h = ht(self.root);
        let (hl, hr) = (ht(n.left), ht(n.right));
        lemma_size_bounds(n.left);
        lemma_size_bounds(n.right);
        lemma_pow2_mono(hl, (h - 1) as nat);
        lemma_pow2_mono(hr, (h - 1) as nat);
        lemma_inorder(n.left);
        assert(size(self.root) == size(n.left) + size(n.right) + 1);
        if h >= 2 {
            let p = pow2((h - 1) as nat);
            assert(pow2(h) == 2 * p);
            assert(p == 2 * pow2((h - 2) as nat));
            if hl < h - 1 {
                lemma_pow2_mono(hl, (h - 2) as nat);
            }
            if hr < h - 1 {
                lemma_pow2_mono(hr, (h - 2) as nat);
            }
            assert(size(n.left) == size(n.right));
        } else {
            assert(size(n.left) == 0 && size(n.right) == 0);
        }
        assert(inorder(self.root) == inorder(n.left) + seq![n.value] + inorder(n.right));
        assert(inorder(self.root)[size(n.left) as int] == n.value);
        if self@.len() >= 3 {
            assert(size(n.left) >= 1);
            assert(n.left.is_some() && n.right.is_some());
        }
    }

    /// A valid tree is balanced, so its height is logarithmic in its number of values: it
    /// holds at least `min_nodes` of its height and fewer than two to the power of it.
    pub proof fn lemma_height_bound(&self)
        requires
            self.well_formed(),
        ensures
            self.balanced(),
            min_nodes(self.spec_height()) <= self@.len(),
            self@.len() < pow2(self.spec_height()),
    {
        lemma_size_bounds(self.root);
        lemma_size_len(self.root);
    }
}

/// Strictly ascending.
pub open spec fn ascending(s: Seq<u64>) -> bool {
    forall|i: int, j: int| 0 <= i < j < s.len() ==> s[i] < s[j]
}

/// The left-to-right values of an ordered subtree ascend, and they are its values.
pub proof fn lemma_inorder(t: Tree)
    requires
        ord(t),
    ensures
        ascending(inorder(t)),
        inorder(t).len() == size(t),
        forall|i: int| 0 <= i < inorder(t).len() ==> elems(t).contains(#[trigger] inorder(t)[i]),
        forall|x: u64| elems(t).contains(x) ==> inorder(t).contains(x),
    decreases t,
{
    if let Some(n) = t {
        lemma_inorder(n.left);
        lemma_inorder(n.right);
        let (l, r) = (inorder(n.left), inorder(n.right));
        let s = inorder(t);
        assert(s == l + seq![n.value] + r);
        let k = l.len() as int;
        assert forall|i: int| 0 <= i < s.len() implies elems(t).contains(#[trigger] s[i]) by {
            if i < k {
                assert(s[i] == l[i]);
            } else if i > k {
                assert(s[i] == r[i - k - 1]);
            }
        }
        assert forall|i: int, j: int| 0 <= i < j < s.len() implies s[i] < s[j] by {
            if i < k {
                assert(s[i] == l[i]);
                assert(elems(n.left).contains(l[i]));
            } else if i > k {
                assert(s[i] == r[i - k - 1]);
            }
            if j < k {
                assert(s[j] == l[j]);
            } else if j > k {
                assert(s[j] == r[j - k - 1]);
                assert(elems(n.right).contains(r[j - k - 1]));
            }
        }
        assert forall|x: u64| elems(t).contains(x) implies s.contains(x) by {
            if x == n.value {
                assert(s[k] == x);
            } else if elems(n.left).contains(x) {
                assert(l.contains(x));
                let i = choose|i: int| 0 <= i < l.len() && l[i] == x;
                assert(s[i] == x);
            } else {
                assert(elems(n.right).contains(x));
                assert(r.contains(x));
                let i = choose|i: int| 0 <= i < r.len() && r[i] == x;
                assert(s[k + 1 + i] == x);
            }
        }
    }
}

/// The values of an ordered subtree are finite in number, one per node.
pub proof fn lemma_size_len(t: Tree)
    requires
        ord(t),
    ensures
        elems(t).finite(),
        elems(t).len() == size(t),
    decreases t,
{
    if let Some(n) = t {
        lemma_size_len(n.left);
        lemma_size_len(n.right);
        let (l, r) = (elems(n.left), elems(n.right));
        assert(l.disjoint(r)) by {
            assert forall|x: u64| l.contains(x) implies !r.contains(x) by {}
        }
        vstd::set_lib::lemma_set_disjoint_lens(l, r);
        assert(!l.union(r).contains(n.value));
    }
}

/// The height of a valid subtree is at most its number of nodes, and below it from
/// height three up.
pub proof fn lemma_ht_size(t: Tree)
    requires
        avl(t),
    ensures
        ht(t) <= size(t),
        ht(t) >= 3 ==> ht(t) < size(t),
    decreases t,
{
    if let Some(n) = t {
        lemma_ht_size(n.left);
        lemma_ht_size(n.right);
    }
}

/// Inserts `value` into the subtree owned by `tree`; returns whether it was absent.
fn insert(tree: &mut Tree, value: u64) -> (inserted: bool)
    requires
        wf(*old(tree)),
        size(*old(tree)) < usize::MAX,
    ensures
        wf(*final(tree)),
        inserted == !elems(*old(tree)).contains(value),
        elems(*final(tree)) == elems(*old(tree)).insert(value),
        size(*final(tree)) == size(*old(tree)) + if inserted { 1nat } else { 0nat },
        !inserted ==> *final(tree) == *old(tree),
        *final(tree) == with_value(*old(tree), value),
        ht(*final(tree)) == ht(*old(tree)) || ht(*final(tree)) == ht(*old(tree)) + 1,
    decreases *old(tree),
{
    match tree.take() {
        None => {
            *tree = Some(Box::new(Node::new(value)));
            proof {
                assert(elems(*tree) =~= elems(*old(tree)).insert(value));
            }
            true
        },
        Some(mut node) => {
            let ghost n = *node;
            proof {
                lemma_ht_size(n.left);
                lemma_ht_size(n.right);
                if value < n.value {
                    assert(!elems(n.right).contains(value));
                } else if value > n.value {
                    assert(!elems(n.left).contains(value));
                }
            }
            let inserted = if value == node.value {
                false
            } else if value < node.value {
                insert(&mut node.left, value)
            } else {
                insert(&mut node.right, value)
            };
            proof {
                lemma_ht_size(node.left);
                lemma_ht_size(node.right);
                assert(elems(boxed(*node)) =~= elems(boxed(n)).insert(value));
            }
            if inserted {
                node.rebalance();
            }
            *tree = Some(node);
            inserted
        },
    }
}

/// The subtree after inserting `v` into `t`: a new leaf where the search for `v` ends, each
/// node above it rebalanced; `t` itself where `v` is already there.
pub open spec fn with_value(t: Tree, v: u64) -> Tree
    decreases t,
{
    match t {
        None => Some(Box::new(Node { value: v, height: 1, left: None, right: None })),
        Some(n) => if elems(t).contains(v) {
            t
        } else if v < n.value {
            boxed(rebalanced(Node { left: with_value(n.left, v), ..*n }))
        } else {
            boxed(rebalanced(Node { right: with_value(n.right, v), ..*n }))
        },
    }
}

/// The node of least value in `t`, detached from its children.
pub open spec fn min_node(t: Tree) -> Node
    decreases t,
{
    match t {
        None => arbitrary(),
        Some(n) => match n.left {
            None => Node { left: None, right: None, ..*n },
            Some(_) => min_node(n.left),
        },
    }
}

/// `t` without its least node, each node above it rebalanced.
pub open spec fn without_min(t: Tree) -> Tree
    decreases t,
{
    match t {
        None => None,
        Some(n) => match n.left {
            None => n.right,
            Some(_) => boxed(rebalanced(Node { left: without_min(n.left), ..*n })),
        },
    }
}

/// Two subtrees joined under the least node of the right one, rebalanced.
pub open spec fn merged(left: Box<Node>, right: Box<Node>) -> Node {
    rebalanced(
        Node { left: Some(left), right: without_min(Some(right)), ..min_node(Some(right)) },
    )
}

/// The subtree after removing `v` from `t`: the node holding it replaced by its only child,
/// or by the merge of its two, each node above it rebalanced; `t` itself where `v` is absent.
pub open spec fn without_value(t: Tree, v: u64) -> Tree
    decreases t,
{
    match t {
        None => None,
        Some(n) => if !elems(t).contains(v) {
            t
        } else if v == n.value {
            match (n.left, n.right) {
                (None, None) => None,
                (Some(b), None) => Some(b),
                (None, Some(b)) => Some(b),
                (Some(l), Some(r)) => boxed(merged(l, r)),
            }
        } else if v < n.value {
            boxed(rebalanced(Node { left: without_value(n.left, v), ..*n }))
        } else {
            boxed(rebalanced(Node { right: without_value(n.right, v), ..*n }))
        },
    }
}

/// `value` is at the root of `t`, which has two children, the left one not the taller.
pub open spec fn removes_split_root(t: Tree, value: u64) -> bool {
    match t {
        None => false,
        Some(n) => {
            &&& n.value == value
            &&& n.left.is_some()
            &&& n.right.is_some()
            &&& ht(n.left) <= ht(n.right)
        },
    }
}

/// Removes `value` from the subtree owned by `tree`; returns whether it was present.
fn remove(tree: &mut Tree, value: &u64) -> (removed: bool)
    requires
        wf(*old(tree)),
        size(*old(tree)) <= usize::MAX,
    ensures
        wf(*final(tree)),
        removed == elems(*old(tree)).contains(*value),
        elems(*final(tree)) == elems(*old(tree)).remove(*value),
        size(*final(tree)) + if removed { 1nat } else { 0nat } == size(*old(tree)),
        !removed ==> *final(tree) == *old(tree),
        *final(tree) == without_value(*old(tree), *value),
        ht(*final(tree)) == ht(*old(tree)) || ht(*final(tree)) + 1 == ht(*old(tree)),
        removes_split_root(*old(tree), *value) ==> ({
            let r = old(tree).unwrap().right;
            &&& final(tree).is_some()
            &&& elems(r).contains(final(tree).unwrap().value)
            &&& forall|x: u64| elems(r).contains(x) ==> final(tree).unwrap().value <= x
        }),
    decreases *old(tree),
{
    match tree.take() {
        None => {
            proof {
                assert(elems(*old(tree)) =~= elems(*old(tree)).remove(*value));
            }
            false
        },
        Some(mut node) => {
            let ghost n = *node;
            proof {
                lemma_ht_size(*old(tree));
                lemma_ht_size(n.left);
                lemma_ht_size(n.right);
                if *value < n.value {
                    assert(!elems(n.right).contains(*value));
                } else if *value > n.value {
                    assert(!elems(n.left).contains(*value));
                }
            }
            if *value == node.value {
                proof {
                    assert(!elems(n.right).contains(*value));
                    assert(!elems(n.left).contains(*value));
                    assert(elems(boxed(n)).remove(*value) =~= elems(n.left).union(elems(n.right)));
                }
                *tree = match (node.left.take(), node.right.take()) {
                    (None, None) => None,
                    (Some(b), None) => Some(b),
                    (None, Some(b)) => Some(b),
                    (Some(left), Some(right)) => Some(merge(left, right)),
                };
                return true;
            }
            let removed = if *value < node.value {
                remove(&mut node.left, value)
            } else {
                remove(&mut node.right, value)
            };
            proof {
                assert(elems(boxed(*node)) =~= elems(boxed(n)).remove(*value));
            }
            if removed {
                node.rebalance();
            }
            *tree = Some(node);
            removed
        },
    }
}

/// Joins two valid subtrees, every value of `left` below every value of `right`, whose
/// heights differ by at most one. The least value of `right` is detached and made the root
/// over both; where `left` is the taller, a rotation may then move it down.
fn merge(left: Box<Node>, right: Box<Node>) -> (root: Box<Node>)
    requires
        wf(Some(left)),
        wf(Some(right)),
        forall|x: u64, y: u64|
            elems(Some(left)).contains(x) && elems(Some(right)).contains(y) ==> x < y,
        -1 <= ht(Some(left)) - ht(Some(right)) <= 1,
        size(Some(left)) + size(Some(right)) < usize::MAX,
    ensures
        wf(Some(root)),
        elems(Some(root)) == elems(Some(left)).union(elems(Some(right))),
        size(Some(root)) == size(Some(left)) + size(Some(right)),
        ({
            let h = if ht(Some(left)) >= ht(Some(right)) {
                ht(Some(left))
            } else {
                ht(Some(right))
            };
            ht(Some(root)) == h || ht(Some(root)) == h + 1
        }),
        *root == merged(left, right),
        ht(Some(left)) <= ht(Some(right)) ==> elems(Some(right)).contains(root.value),
        ht(Some(left)) <= ht(Some(right)) ==> forall|x: u64|
            elems(Some(right)).contains(x) ==> root.value <= x,
{
    let mut op_right = Some(right);
    let mut root = take_min(&mut op_right).unwrap();
    proof {
        lemma_ht_size(Some(left));
        lemma_ht_size(op_right);
        assert forall|x: u64| elems(Some(left)).contains(x) implies x < root.value by {
            assert(elems(Some(right)).contains(root.value));
        }
    }
    root.left = Some(left);
    root.right = op_right;
    proof {
        assert(elems(boxed(*root)) =~= elems(Some(left)).union(elems(Some(right))));
    }
    root.rebalance();
    root
}

/// Detaches the node of least value from the subtree owned by `tree` and returns it,
/// without children; the rest of the subtree stays valid.
fn take_min(tree: &mut Tree) -> (min: Tree)
    requires
        wf(*old(tree)),
        size(*old(tree)) <= usize::MAX,
    ensures
        old(tree).is_none() ==> min.is_none() && final(tree).is_none(),
        old(tree).is_some() ==> ({
            let m = min.unwrap();
            &&& min.is_some()
            &&& m.left.is_none()
            &&& m.right.is_none()
            &&& elems(*old(tree)).contains(m.value)
            &&& forall|x: u64| elems(*final(tree)).contains(x) ==> m.value < x
            &&& elems(*final(tree)) == elems(*old(tree)).remove(m.value)
            &&& size(*final(tree)) + 1 == size(*old(tree))
            &&& ht(*final(tree)) == ht(*old(tree)) || ht(*final(tree)) + 1 == ht(*old(tree))
        }),
        wf(*final(tree)),
        *final(tree) == without_min(*old(tree)),
        old(tree).is_some() ==> *min.unwrap() == min_node(*old(tree)),
    decreases *old(tree),
{
    match tree.take() {
        None => None,
        Some(mut node) => {
            let ghost n = *node;
            proof {
                lemma_ht_size(*old(tree));
                lemma_ht_size(n.left);
                lemma_ht_size(n.right);
            }
            match take_min(&mut node.left) {
                Some(small) => {
                    proof {
                        assert(!elems(n.right).contains(small.value));
                        assert(elems(boxed(*node)) =~= elems(boxed(n)).remove(small.value));
                    }
                    node.rebalance();
                    *tree = Some(node);
                    Some(small)
                },
                None => {
                    *tree = node.right.take();
                    proof {
                        assert(n.left.is_none());
                        assert(elems(boxed(n)) == elems(n.left).union(elems(n.right)).insert(n.value));
                        assert(!elems(n.right).contains(n.value));
                        assert(elems(*tree) =~= elems(boxed(n)).remove(n.value));
                    }
                    Some(node)
                },
            }
        },
    }
}

} // verus!
