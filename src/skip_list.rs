use vstd::prelude::*;
use vstd::string::StringExecFns;

verus! {

/// Relies on rand::random::<bool>, which draws a `bool` from the thread-local generator.
/// Nothing is known of the value.
#[verifier::external_body]
fn coin() -> (r: bool) {
    rand::random::<bool>()
}

/// Whether a new element rises one more level: it does while the draws come up `true`,
/// until it stands on `max_level`. `n` counts the levels above 0 that it has reached.
pub fn rises(draw: bool, n: usize, max_level: usize) -> (r: bool)
    ensures
        r == (draw && n < max_level),
{
    draw && n < max_level
}

/// The decimal digit `d`.
pub open spec fn digit(d: nat) -> char {
    if d == 0 { '0' } else if d == 1 { '1' } else if d == 2 { '2' } else if d == 3 { '3' }
    else if d == 4 { '4' } else if d == 5 { '5' } else if d == 6 { '6' } else if d == 7 { '7' }
    else if d == 8 { '8' } else { '9' }
}

/// The decimal digits of `n`, without leading zeros.
pub open spec fn decimal(n: nat) -> Seq<char>
    decreases n,
{
    if n < 10 {
        seq![digit(n)]
    } else {
        decimal(n / 10) + seq![digit(n % 10)]
    }
}

/// Relies on u64's `to_string` (its `Display`): the decimal digits of `n`.
#[verifier::external_body]
fn decimal_text(n: u64) -> (r: String)
    ensures
        r@ == decimal(n as nat),
{
    n.to_string()
}

/// `[id] ` for each pair, in order.
pub open spec fn ids_text<T>(v: Seq<(u64, T)>) -> Seq<char>
    decreases v.len(),
{
    if v.len() == 0 {
        Seq::empty()
    } else {
        ids_text(v.drop_last()) + seq!['['] + decimal(v.last().0 as nat) + seq![']', ' ']
    }
}

/// A node of the arena: its element, its id (its position from 1), and, for each level
/// that it rises to, the index of the next node at that level.
struct Node<T> {
    data: T,
    next: Vec<Option<usize>>,
    id: u64,
}

/// An append-only sequence with express lanes: every element is on level 0, and each
/// rises to a random number of further levels, up to `max_level`; the first rises to all.
pub struct SkipList<T> {
    nodes: Vec<Node<T>>,
    tails: Vec<Option<usize>>,
    max_level: usize,
    pub length: u64,
}

/// The number of levels that node `i` is on.
spec fn lvl<T>(nodes: Seq<Node<T>>, i: int) -> int {
    nodes[i].next@.len() as int
}

/// `o` is the next node after `i` on level `l` (`None`: there is none).
spec fn links_to<T>(nodes: Seq<Node<T>>, i: int, l: int, o: Option<usize>) -> bool {
    match o {
        Some(j) => {
            &&& i < j < nodes.len()
            &&& lvl(nodes, j as int) > l
            &&& forall|k: int| i < k < j ==> lvl(nodes, k) <= l
        },
        None => forall|k: int| i < k < nodes.len() ==> lvl(nodes, k) <= l,
    }
}

/// `o` is the last node on level `l` (`None`: there is none).
spec fn last_at<T>(nodes: Seq<Node<T>>, l: int, o: Option<usize>) -> bool {
    match o {
        Some(t) => t < nodes.len() && lvl(nodes, t as int) > l && links_to(nodes, t as int, l, None),
        None => links_to(nodes, -1, l, None),
    }
}

/// Adding a node after the others keeps every link of a level that it does not rise to.
proof fn lemma_extend<T>(q: Seq<Node<T>>, x: Node<T>, j: int, l: int, o: Option<usize>)
    requires
        j >= -1,
        x.next@.len() <= l,
        links_to(q, j, l, o),
    ensures
        links_to(q.push(x), j, l, o),
{
    let p = q.push(x);
    assert forall|m: int| 0 <= m < q.len() implies lvl(p, m) == lvl(q, m) by {
        assert(p[m] == q[m]);
    }
    assert(lvl(p, q.len() as int) == x.next@.len());
    match o {
        Some(jj) => {
            assert forall|m: int| j < m < jj implies lvl(p, m) <= l by {
                assert(lvl(q, m) <= l);
            }
        },
        None => {
            assert forall|m: int| j < m < p.len() implies lvl(p, m) <= l by {
                if m < q.len() {
                    assert(lvl(q, m) <= l);
                }
            }
        },
    }
}

/// Links depend on the nodes' levels alone.
proof fn lemma_same_levels<T>(a: Seq<Node<T>>, b: Seq<Node<T>>, j: int, l: int, o: Option<usize>)
    requires
        a.len() == b.len(),
        forall|m: int| 0 <= m < a.len() ==> lvl(a, m) == lvl(b, m),
        links_to(a, j, l, o),
        j >= -1,
    ensures
        links_to(b, j, l, o),
{
    match o {
        Some(jj) => {
            assert(lvl(a, jj as int) == lvl(b, jj as int));
            assert forall|m: int| j < m < jj implies lvl(b, m) <= l by {
                assert(lvl(a, m) == lvl(b, m));
            }
        },
        None => {
            assert forall|m: int| j < m < b.len() implies lvl(b, m) <= l by {
                assert(lvl(a, m) == lvl(b, m));
            }
        },
    }
}

/// The indices from `from` on of the nodes that rise above level `l`, in order.
spec fn rising<T>(nodes: Seq<Node<T>>, from: int, l: int) -> Seq<int>
    decreases nodes.len() - from,
{
    if from < 0 || from >= nodes.len() {
        Seq::empty()
    } else if lvl(nodes, from) > l {
        seq![from] + rising(nodes, from + 1, l)
    } else {
        rising(nodes, from + 1, l)
    }
}

/// Nodes that stay at level `l` or below are passed over.
proof fn lemma_rising_skip<T>(nodes: Seq<Node<T>>, a: int, b: int, l: int)
    requires
        0 <= a <= b <= nodes.len(),
        forall|m: int| a <= m < b ==> lvl(nodes, m) <= l,
    ensures
        rising(nodes, a, l) == rising(nodes, b, l),
    decreases b - a,
{
    if a < b {
        lemma_rising_skip(nodes, a + 1, b, l);
    }
}

/// Following a link on level `l` from a node on it gives the next one that rises above `l`.
proof fn lemma_rising_link<T>(nodes: Seq<Node<T>>, j: int, l: int, o: Option<usize>)
    requires
        0 <= j < nodes.len(),
        lvl(nodes, j) > l,
        links_to(nodes, j, l, o),
    ensures
        rising(nodes, j, l) == seq![j] + rising(
            nodes,
            match o {
                Some(k) => k as int,
                None => nodes.len() as int,
            },
            l,
        ),
{
    match o {
        Some(k) => lemma_rising_skip(nodes, j + 1, k as int, l),
        None => lemma_rising_skip(nodes, j + 1, nodes.len() as int, l),
    }
}

/// The indices that `rising` lists lie in range and ascend, the first being `from` where
/// that node rises above `l`.
proof fn lemma_rising_props<T>(nodes: Seq<Node<T>>, from: int, l: int)
    requires
        0 <= from <= nodes.len(),
    ensures
        forall|i: int|
            0 <= i < rising(nodes, from, l).len() ==> from <= #[trigger] rising(nodes, from, l)[i]
                < nodes.len(),
        forall|i: int, j: int|
            0 <= i < j < rising(nodes, from, l).len() ==> rising(nodes, from, l)[i] < rising(
                nodes,
                from,
                l,
            )[j],
        from < nodes.len() && lvl(nodes, from) > l ==> rising(nodes, from, l).len() > 0 && rising(
            nodes,
            from,
            l,
        )[0] == from,
    decreases nodes.len() - from,
{
    if from < nodes.len() {
        lemma_rising_props(nodes, from + 1, l);
        let r = rising(nodes, from + 1, l);
        if lvl(nodes, from) > l {
            let s = rising(nodes, from, l);
            assert(s == seq![from] + r);
            assert forall|i: int| 0 < i < s.len() implies s[i] == r[i - 1] by {}
            assert forall|i: int| 0 <= i < s.len() implies from <= #[trigger] s[i] < nodes.len() by {
                if i > 0 {
                    assert(s[i] == r[i - 1]);
                }
            }
            assert forall|i: int, j: int| 0 <= i < j < s.len() implies s[i] < s[j] by {
                assert(s[j] == r[j - 1]);
                if i > 0 {
                    assert(s[i] == r[i - 1]);
                }
            }
        }
    }
}

/// `rising` depends on the nodes' levels alone.
proof fn lemma_rising_same_levels<T>(a: Seq<Node<T>>, b: Seq<Node<T>>, from: int, l: int)
    requires
        a.len() == b.len(),
        0 <= from <= a.len(),
        forall|m: int| 0 <= m < a.len() ==> lvl(a, m) == lvl(b, m),
    ensures
        rising(a, from, l) == rising(b, from, l),
    decreases a.len() - from,
{
    if from < a.len() {
        lemma_rising_same_levels(a, b, from + 1, l);
        assert(lvl(a, from) == lvl(b, from));
    }
}

/// A node added after the others joins the end of each level that it rises above.
proof fn lemma_rising_push<T>(q: Seq<Node<T>>, x: Node<T>, from: int, l: int)
    requires
        0 <= from <= q.len(),
    ensures
        rising(q.push(x), from, l) == rising(q, from, l) + if x.next@.len() > l {
            seq![q.len() as int]
        } else {
            Seq::<int>::empty()
        },
    decreases q.len() - from,
{
    let p = q.push(x);
    if from < q.len() {
        lemma_rising_push(q, x, from + 1, l);
        assert(p[from] == q[from]);
        assert(lvl(p, from) == lvl(q, from));
        if lvl(q, from) > l {
            assert(rising(p, from, l) =~= rising(q, from, l) + if x.next@.len() > l {
                seq![q.len() as int]
            } else {
                Seq::<int>::empty()
            });
        }
    } else {
        assert(lvl(p, from) == x.next@.len());
        assert(rising(p, from + 1, l) =~= Seq::<int>::empty());
        assert(rising(p, from, l) =~= rising(q, from, l) + if x.next@.len() > l {
            seq![q.len() as int]
        } else {
            Seq::<int>::empty()
        });
    }
}

proof fn lemma_rising_all<T>(nodes: Seq<Node<T>>, a: int)
    requires
        0 <= a <= nodes.len(),
        forall|m: int| 0 <= m < nodes.len() ==> #[trigger] lvl(nodes, m) >= 1,
    ensures
        rising(nodes, a, 0) =~= Seq::new((nodes.len() - a) as nat, |i: int| a + i),
    decreases nodes.len() - a,
{
    if a < nodes.len() {
        lemma_rising_all(nodes, a + 1);
        assert(lvl(nodes, a) >= 1);
    }
}

/// The (id, element) pairs of the nodes at the given indices.
spec fn entries<T>(nodes: Seq<Node<T>>, idx: Seq<int>) -> Seq<(u64, T)> {
    idx.map_values(|j: int| (nodes[j].id, nodes[j].data))
}

impl<T> View for SkipList<T> {
    type V = Seq<T>;

    closed spec fn view(&self) -> Seq<T> {
        self.nodes@.map_values(|n: Node<T>| n.data)
    }
}

impl<T> SkipList<T> {
    /// Node `i` has id `i + 1` and is on one to `max_level + 1` levels, the first on all;
    /// every link points to the next node on its level, and `tails` to the last ones.
    pub closed spec fn well_formed(&self) -> bool {
        let nodes = self.nodes@;
        &&& self.length == nodes.len()
        &&& self.tails@.len() == self.max_level + 1
        &&& self.max_level < usize::MAX
        &&& nodes.len() > 0 ==> lvl(nodes, 0) == self.max_level + 1
        &&& forall|i: int| 0 <= i < nodes.len() ==> #[trigger] nodes[i].id == i + 1
        &&& forall|i: int| 0 <= i < nodes.len() ==> 1 <= #[trigger] lvl(nodes, i) <= self.max_level + 1
        &&& forall|i: int, l: int|
            0 <= i < nodes.len() && 0 <= l < lvl(nodes, i) ==> links_to(
                nodes,
                i,
                l,
                #[trigger] nodes[i].next@[l],
            )
        &&& forall|l: int| 0 <= l <= self.max_level ==> last_at(nodes, l, #[trigger] self.tails@[l])
    }

    /// The (id, element) pairs of the elements that rise above `level`, in order.
    pub closed spec fn level_view(&self, level: nat) -> Seq<(u64, T)> {
        entries(self.nodes@, rising(self.nodes@, 0, level as int))
    }

    /// Each level lists distinct elements in order of id, each with the id it has on level 0;
    /// every level up to `max_level` starts with the first element.
    pub proof fn lemma_level_view(&self, level: nat)
        requires
            self.well_formed(),
        ensures
            forall|i: int, j: int|
                0 <= i < j < self.level_view(level).len() ==> self.level_view(level)[i].0
                    < self.level_view(level)[j].0,
            forall|i: int|
                0 <= i < self.level_view(level).len() ==> {
                    let (id, x) = #[trigger] self.level_view(level)[i];
                    &&& 1 <= id <= self@.len()
                    &&& x == self@[id - 1]
                },
            level <= self.spec_max_level() && self@.len() > 0 ==> self.level_view(level).len() > 0
                && self.level_view(level)[0] == (1u64, self@[0]),
    {
        let nodes = self.nodes@;
        lemma_rising_props(nodes, 0, level as int);
    }

    /// On level 0 stand all elements, each with its position from 1 as id.
    pub proof fn lemma_level_zero(&self)
        requires
            self.well_formed(),
        ensures
            self.level_view(0) == self@.map(|i: int, x: T| ((i + 1) as u64, x)),
    {
        let nodes = self.nodes@;
        assert forall|a: int| 0 <= a <= nodes.len() implies #[trigger] rising(nodes, a, 0)
            =~= Seq::new((nodes.len() - a) as nat, |i: int| a + i) by {
            lemma_rising_all(nodes, a);
        }
        assert(self.level_view(0) =~= self@.map(|i: int, x: T| ((i + 1) as u64, x)));
    }

    /// The line for level `l`: the level, a colon, and `[id] ` for each element on it.
    pub open spec fn level_text(&self, l: nat) -> Seq<char> {
        decimal(l) + seq![':', ' '] + ids_text(self.level_view(l)) + seq!['\n']
    }

    /// The lines for levels `top` down to 0.
    pub open spec fn levels_text(&self, top: int) -> Seq<char>
        decreases top + 1,
    {
        if top < 0 {
            Seq::empty()
        } else {
            self.level_text(top as nat) + self.levels_text(top - 1)
        }
    }

    /// The highest level.
    pub closed spec fn spec_max_level(&self) -> nat {
        self.max_level as nat
    }

    /// An empty list whose elements rise to at most `max_level`.
    pub fn new(max_level: usize) -> (r: Self)
        requires
            max_level < usize::MAX,
        ensures
            r.well_formed(),
            r@ == Seq::<T>::empty(),
            r.spec_max_level() == max_level,
    {
        let mut tails: Vec<Option<usize>> = Vec::new();
        let mut i: usize = 0;
        while i <= max_level
            invariant
                i <= max_level + 1,
                max_level < usize::MAX,
                tails@.len() == i,
                forall|l: int| 0 <= l < i ==> tails@[l] == None::<usize>,
            decreases max_level + 1 - i,
        {
            tails.push(None);
            i += 1;
        }
        let r = SkipList { nodes: Vec::new(), tails, max_level, length: 0 };
        proof {
            assert(r@ =~= Seq::<T>::empty());
        }
        r
    }

    /// Adds `data` at the end, with id `length + 1`, on as many levels as `get_level` draws
    /// (the first element: on all).
    pub fn append(&mut self, data: T)
        requires
            old(self).well_formed(),
            old(self)@.len() < u64::MAX,
            old(self)@.len() < usize::MAX,
        ensures
            final(self).well_formed(),
            final(self)@ == old(self)@.push(data),
            final(self).spec_max_level() == old(self).spec_max_level(),
            forall|l: nat| old(self).level_view(l).is_prefix_of(#[trigger] final(self).level_view(l)),
    {
        let level = 1 + if self.nodes.len() == 0 {
            self.max_level
        } else {
            self.get_level()
        };
        let k = self.nodes.len();
        let mut next: Vec<Option<usize>> = Vec::new();
        let mut i: usize = 0;
        while i < level
            invariant
                i <= level,
                next@.len() == i,
                forall|l: int| 0 <= l < i ==> next@[l] == None::<usize>,
            decreases level - i,
        {
            next.push(None);
            i += 1;
        }
        let ghost q = self.nodes@;
        let ghost tails0 = self.tails@;
        let id = self.length + 1;
        self.nodes.push(Node { data, next, id });
        let ghost p = self.nodes@;
        proof {
            assert forall|m: int| 0 <= m < k implies lvl(p, m) == lvl(q, m) by {
                assert(p[m] == q[m]);
            }
        }
        let mut i: usize = 0;
        while i < level
            invariant
                old(self).well_formed(),
                q == old(self).nodes@,
                tails0 == old(self).tails@,
                p == q.push(p[k as int]),
                k == q.len(),
                lvl(p, k as int) == level,
                p[k as int].id == k + 1,
                1 <= level <= self.max_level + 1,
                self.max_level == old(self).max_level,
                self.length == old(self).length,
                k == 0 ==> level == self.max_level + 1,
                forall|l: int| 0 <= l < level ==> p[k as int].next@[l] == None::<usize>,
                forall|m: int| 0 <= m < k ==> lvl(p, m) == lvl(q, m),
                i <= level,
                self.nodes@.len() == k + 1,
                self.tails@.len() == tails0.len(),
                forall|j: int| 0 <= j <= k ==> #[trigger] self.nodes@[j].data == p[j].data,
                forall|j: int| 0 <= j <= k ==> #[trigger] self.nodes@[j].id == p[j].id,
                forall|j: int| 0 <= j <= k ==> #[trigger] lvl(self.nodes@, j) == lvl(p, j),
                forall|j: int, l: int|
                    0 <= j <= k && i <= l < lvl(p, j) ==> #[trigger] self.nodes@[j].next@[l]
                        == p[j].next@[l],
                forall|j: int, l: int|
                    0 <= j <= k && 0 <= l < i && l < lvl(p, j) ==> links_to(
                        p,
                        j,
                        l,
                        #[trigger] self.nodes@[j].next@[l],
                    ),
                forall|l: int| 0 <= l < i ==> #[trigger] self.tails@[l] == Some(k),
                forall|l: int| i <= l < tails0.len() ==> #[trigger] self.tails@[l] == tails0[l],
            decreases level - i,
        {
            let ghost before = self.nodes@;
            let ghost ii = i as int;
            match self.tails[i] {
                Some(t) => {
                    proof {
                        assert(last_at(q, ii, tails0[ii]));
                        assert(lvl(before, t as int) == lvl(p, t as int));
                        assert(links_to(q, t as int, ii, q[t as int].next@[ii]));
                        assert(before[t as int].next@[ii] == p[t as int].next@[ii]);
                        assert(p[t as int] == q[t as int]);
                    }
                    self.nodes[t].next[i] = Some(k);
                    proof {
                        assert forall|j: int| 0 <= j <= k implies #[trigger] lvl(self.nodes@, j)
                            == lvl(before, j) by {}
                        assert forall|j: int| 0 <= j <= k && ii < lvl(p, j) implies links_to(
                            p,
                            j,
                            ii,
                            #[trigger] self.nodes@[j].next@[ii],
                        ) by {
                            if j == t {
                                assert forall|m: int| t < m < k implies lvl(p, m) <= ii by {
                                    assert(lvl(p, m) == lvl(q, m));
                                }
                            } else if j < k {
                                assert(p[j] == q[j]);
                                assert(self.nodes@[j].next@[ii] == q[j].next@[ii]);
                                assert(links_to(q, j, ii, q[j].next@[ii]));
                                if q[j].next@[ii].is_none() {
                                    assert(lvl(q, t as int) > ii);
                                    assert(lvl(q, j) > ii);
                                    assert(false);
                                }
                            }
                        }
                    }
                },
                None => {
                    proof {
                        assert(last_at(q, ii, tails0[ii]));
                        assert forall|j: int| 0 <= j <= k && ii < lvl(p, j) implies links_to(
                            p,
                            j,
                            ii,
                            #[trigger] self.nodes@[j].next@[ii],
                        ) by {
                            if j < k {
                                assert(lvl(p, j) == lvl(q, j));
                            }
                        }
                    }
                },
            }
            self.tails.set(i, Some(k));
            i += 1;
        }
        proof {
            let nodes = self.nodes@;
            assert forall|m: int| 0 <= m < p.len() implies lvl(p, m) == lvl(nodes, m) by {}
            assert forall|j: int, l: int|
                0 <= j < nodes.len() && 0 <= l < lvl(nodes, j) implies links_to(
                nodes,
                j,
                l,
                #[trigger] nodes[j].next@[l],
            ) by {
                if l < level {
                    lemma_same_levels(p, nodes, j, l, nodes[j].next@[l]);
                } else {
                    assert(j < k);
                    assert(p[j] == q[j]);
                    assert(lvl(q, j) == lvl(p, j));
                    assert(links_to(q, j, l, q[j].next@[l]));
                    lemma_extend(q, p[k as int], j, l, q[j].next@[l]);
                    lemma_same_levels(p, nodes, j, l, nodes[j].next@[l]);
                }
            }
            assert forall|l: int| 0 <= l <= self.max_level implies last_at(
                nodes,
                l,
                #[trigger] self.tails@[l],
            ) by {
                if l >= level {
                    assert(last_at(q, l, tails0[l]));
                    match tails0[l] {
                        Some(t) => {
                            lemma_extend(q, p[k as int], t as int, l, None);
                            lemma_same_levels(p, nodes, t as int, l, None);
                            assert(lvl(q, t as int) == lvl(p, t as int));
                        },
                        None => {
                            lemma_extend(q, p[k as int], -1, l, None);
                            lemma_same_levels(p, nodes, -1, l, None);
                        },
                    }
                }
            }
            assert(nodes.map_values(|n: Node<T>| n.data) =~= q.map_values(|n: Node<T>| n.data).push(
                p[k as int].data,
            ));
        }
        self.length += 1;
        proof {
            let nodes = self.nodes@;
            assert forall|l: nat| old(self).level_view(l).is_prefix_of(
                #[trigger] self.level_view(l),
            ) by {
                lemma_rising_push(q, p[k as int], 0, l as int);
                lemma_rising_same_levels(p, nodes, 0, l as int);
                lemma_rising_props(q, 0, l as int);
                let rq = rising(q, 0, l as int);
                let rn = rising(nodes, 0, l as int);
                assert forall|i: int| 0 <= i < rq.len() implies old(self).level_view(l)[i]
                    == self.level_view(l)[i] by {
                    assert(rn[i] == rq[i]);
                    assert(p[rq[i]] == q[rq[i]]);
                    assert(nodes[rq[i]].id == p[rq[i]].id);
                    assert(nodes[rq[i]].data == p[rq[i]].data);
                }
                assert(old(self).level_view(l) =~= self.level_view(l).subrange(
                    0,
                    old(self).level_view(l).len() as int,
                ));
            }
            assert forall|i: int| 0 <= i < nodes.len() implies nodes[i].id == i + 1 by {
                assert(nodes[i].id == p[i].id);
                if i < k {
                    assert(p[i] == q[i]);
                }
            }
        }
    }

    /// The element with id `id` (the `id`-th appended), found by descending from the
    /// highest level on which the first node has a successor.
    pub fn search(&self, id: u64) -> (r: Option<&T>)
        requires
            self.well_formed(),
        ensures
            r == if 1 <= id <= self@.len() {
                Some(&self@[id - 1])
            } else {
                None
            },
    {
        if self.nodes.len() == 0 {
            return None;
        }
        let ghost nodes = self.nodes@;
        let mut start_level = self.max_level;
        while start_level > 0 && self.nodes[0].next[start_level].is_none()
            invariant
                self.well_formed(),
                nodes == self.nodes@,
                nodes.len() > 0,
                start_level <= self.max_level,
                forall|m: int|
                    0 < m < nodes.len() ==> #[trigger] lvl(nodes, m) <= start_level + 1,
            decreases start_level,
        {
            proof {
                assert(links_to(nodes, 0, start_level as int, nodes[0].next@[start_level as int]));
            }
            start_level -= 1;
        }
        let mut n: usize = 0;
        let mut lv: usize = start_level;
        loop
            invariant
                self.well_formed(),
                nodes == self.nodes@,
                n < nodes.len(),
                lv <= start_level <= self.max_level,
                lvl(nodes, n as int) > lv,
                n == 0 || n + 1 <= id,
                forall|m: int|
                    n < m < nodes.len() && m + 1 <= id ==> #[trigger] lvl(nodes, m) <= lv + 1,
            decreases lv,
        {
            loop
                invariant
                    self.well_formed(),
                    nodes == self.nodes@,
                    n < nodes.len(),
                    lv <= self.max_level,
                    lvl(nodes, n as int) > lv,
                    n == 0 || n + 1 <= id,
                    forall|m: int|
                        n < m < nodes.len() && m + 1 <= id ==> #[trigger] lvl(nodes, m) <= lv + 1,
                ensures
                    n < nodes.len(),
                    lvl(nodes, n as int) > lv,
                    n == 0 || n + 1 <= id,
                    forall|m: int|
                        n < m < nodes.len() && m + 1 <= id ==> #[trigger] lvl(nodes, m) <= lv + 1,
                    match nodes[n as int].next@[lv as int] {
                        Some(j) => nodes[j as int].id > id,
                        None => true,
                    },
                decreases nodes.len() - n,
            {
                proof {
                    assert(links_to(nodes, n as int, lv as int, nodes[n as int].next@[lv as int]));
                }
                match self.nodes[n].next[lv] {
                    Some(j) => {
                        if self.nodes[j].id <= id {
                            n = j;
                        } else {
                            break ;
                        }
                    },
                    None => {
                        break ;
                    },
                }
            }
            proof {
                assert(links_to(nodes, n as int, lv as int, nodes[n as int].next@[lv as int]));
                assert forall|m: int| n < m < nodes.len() && m + 1 <= id implies #[trigger] lvl(
                    nodes,
                    m,
                ) <= lv by {
                    if let Some(j) = nodes[n as int].next@[lv as int] {
                        if m >= j {
                            assert(nodes[j as int].id == j + 1);
                        }
                    }
                }
            }
            if self.nodes[n].id == id {
                proof {
                    assert(self@[id - 1] == nodes[n as int].data);
                }
                return Some(&self.nodes[n].data);
            }
            if lv == 0 {
                proof {
                    if 1 <= id <= nodes.len() {
                        let m = id - 1;
                        assert(lvl(nodes, m as int) >= 1);
                        assert(nodes[n as int].id == n + 1);
                    }
                }
                return None;
            }
            lv -= 1;
        }
    }

    /// The list drawn one level per line, from the highest down, each line listing the ids
    /// on that level.
    pub fn describe(&self) -> (r: String)
        requires
            self.well_formed(),
        ensures
            self@.len() == 0 ==> r@ == "The list is empty: []"@,
            self@.len() > 0 ==> r@ == self.levels_text(self.spec_max_level() as int),
    {
        if self.length == 0 {
            proof {
                reveal_strlit("The list is empty: []");
            }
            return String::from_str("The list is empty: []");
        }
        let mut out = String::new();
        let mut level: usize = self.max_level;
        proof {
            assert(out@ =~= Seq::<char>::empty());
            assert(self@.len() == self.nodes@.len());
        }
        loop
            invariant
                self.well_formed(),
                self@.len() > 0,
                level <= self.max_level,
                out@ + self.levels_text(level as int) == self.levels_text(self.max_level as int),
            decreases level,
        {
            let ghost start = out@;
            out.append(decimal_text(level as u64).as_str());
            out.append(": ");
            proof {
                reveal_strlit(": ");
                assert(out@ == start + decimal(level as nat) + seq![':', ' ']);
            }
            let mut it = self.iter_level(level);
            let ghost all = self.level_view(level as nat);
            let ghost head = out@;
            let ghost mut done: int = 0;
            loop
                invariant
                    it.valid(),
                    0 <= done <= all.len(),
                    it@ == all.skip(done),
                    out@ == head + ids_text(all.take(done)),
                ensures
                    out@ == head + ids_text(all),
                decreases it@.len(),
            {
                match it.next() {
                    None => {
                        proof {
                            assert(done == all.len());
                            assert(all.take(done) =~= all);
                        }
                        break ;
                    },
                    Some((id, _)) => {
                        let ghost before = out@;
                        out.append("[");
                        out.append(decimal_text(id).as_str());
                        out.append("] ");
                        proof {
                            assert(all.take(done + 1).drop_last() =~= all.take(done));
                            assert(all.skip(done)[0] == all[done]);
                            assert(all.take(done + 1).last() == all[done]);
                            assert(ids_text(all.take(done + 1)) == ids_text(all.take(done)) + seq!['[']
                                + decimal(all[done].0 as nat) + seq![']', ' ']);
                            reveal_strlit("[");
                            reveal_strlit("] ");
                            assert(id == all[done].0);
                            assert(out@ == before + seq!['['] + decimal(id as nat) + seq![']', ' ']);
                            assert(out@ =~= head + ids_text(all.take(done + 1)));
                            done = done + 1;
                            assert(it@ =~= all.skip(done));
                        }
                    },
                }
            }
            out.append("\n");
            proof {
                reveal_strlit(": ");
                reveal_strlit("\n");
                assert(out@ =~= start + self.level_text(level as nat));
            }
            if level == 0 {
                proof {
                    assert(self.levels_text(-1) == Seq::<char>::empty());
                    assert(out@ =~= self.levels_text(self.max_level as int));
                }
                return out;
            }
            level -= 1;
        }
    }

    /// The number of elements.
    pub fn len(&self) -> (r: u64)
        requires
            self.well_formed(),
        ensures
            r == self@.len(),
    {
        self.length
    }

    /// The highest level that an element can rise to.
    pub fn max_level(&self) -> (r: usize)
        ensures
            r == self.spec_max_level(),
    {
        self.max_level
    }

    /// A traversal, along level `level`, of the elements that rise above it.
    pub fn iter_level(&self, level: usize) -> (r: Iter<'_, T>)
        requires
            self.well_formed(),
            level <= self.spec_max_level(),
        ensures
            r.valid(),
            r@ == self.level_view(level as nat),
    {
        let current = if self.nodes.len() == 0 {
            None
        } else {
            Some(0)
        };
        let r = Iter { nodes: &self.nodes, current, level };
        proof {
            if self.nodes@.len() == 0 {
                assert(rising(self.nodes@, 0, level as int) =~= Seq::<int>::empty());
            }
        }
        r
    }

    /// A random number of levels above level 0: each further level with chance one half,
    /// up to `max_level`.
    fn get_level(&self) -> (r: usize)
        ensures
            r <= self.max_level,
    {
        let mut n: usize = 0;
        loop
            invariant
                n <= self.max_level,
            decreases self.max_level - n,
        {
            let draw = coin();
            if !rises(draw, n, self.max_level) {
                return n;
            }
            n += 1;
        }
    }
}

/// A traversal of the nodes of one level, yielding each one's id and element.
pub struct Iter<'a, T> {
    nodes: &'a Vec<Node<T>>,
    current: Option<usize>,
    level: usize,
}

impl<'a, T> View for Iter<'a, T> {
    type V = Seq<(u64, T)>;

    closed spec fn view(&self) -> Seq<(u64, T)> {
        let from = match self.current {
            Some(j) => j as int,
            None => self.nodes@.len() as int,
        };
        entries(self.nodes@, rising(self.nodes@, from, self.level as int))
    }
}

impl<'a, T> Iter<'a, T> {
    /// The next node is on the level, and every link on the level points to the next node
    /// on it.
    pub closed spec fn valid(&self) -> bool {
        let nodes = self.nodes@;
        &&& forall|i: int|
            0 <= i < nodes.len() && self.level < lvl(nodes, i) ==> links_to(
                nodes,
                i,
                self.level as int,
                #[trigger] nodes[i].next@[self.level as int],
            )
        &&& match self.current {
            Some(j) => j < nodes.len() && lvl(nodes, j as int) > self.level,
            None => true,
        }
    }

    /// The next id and element, or `None` once all have come.
    pub fn next(&mut self) -> (r: Option<(u64, &'a T)>)
        requires
            old(self).valid(),
        ensures
            final(self).valid(),
            old(self)@.len() == 0 ==> r.is_none() && final(self)@ == old(self)@,
            old(self)@.len() > 0 ==> r == Some((old(self)@[0].0, &old(self)@[0].1)) && final(self)@
                == old(self)@.drop_first(),
    {
        match self.current {
            None => {
                None
            },
            Some(j) => {
                let node = &self.nodes[j];
                let ghost nodes = self.nodes@;
                proof {
                    assert(links_to(nodes, j as int, self.level as int, nodes[j as int].next@[self.level as int]));
                    lemma_rising_link(nodes, j as int, self.level as int, nodes[j as int].next@[self.level as int]);
                }
                self.current = node.next[self.level];
                proof {
                    let rest = rising(nodes, match self.current {
                        Some(k) => k as int,
                        None => nodes.len() as int,
                    }, self.level as int);
                    assert(entries(nodes, seq![j as int] + rest).drop_first() =~= entries(nodes, rest));
                }
                Some((node.id, &node.data))
            },
        }
    }
}

} // verus!
