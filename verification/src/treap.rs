//! The augmented treap: an ordered multiset of `i64` values kept as a binary
//! search tree whose shape is balanced by per-node random priorities forming a
//! max-heap. Every node carries the element count and the value sum of its
//! whole subtree, so the total sum and the sum of the `n` greatest elements
//! are answered from the aggregates alone.
//!
//! The model of a subtree is its in-order sequence of values, `link_seq`;
//! well-formedness (`link_wf`) states the search ordering, the heap ordering
//! of the priorities, the aggregate equations of every node, and that the
//! absolute sum of every subtree fits the value type, which keeps all
//! aggregate arithmetic exact.

use vstd::prelude::*;

use crate::seqs::{
    abs_sum, all_ge, all_le, all_lt, cross_le, iabs, ints, lemma_abs_sum_concat,
    lemma_abs_sum_nonneg, lemma_abs_sum_subrange, lemma_concat_contains, lemma_ms_mid,
    lemma_parts, lemma_seq_sum_abs, lemma_seq_sum_concat, lemma_singleton, lemma_top_sum_mid,
    lemma_sorted_ms_unique, lemma_top_sum_right, seq_sum, sorted, top_sum,
};

verus! {

/// The stored key type: duplicates are permitted.
pub type KeyType = i64;

/// A subtree: either empty or an owned node.
pub type Link = Option<Box<Node>>;

/// One element of the multiset, owning its two child subtrees.
pub struct Node {
    /// The stored key.
    pub value: KeyType,
    /// A pseudo-random priority; the tree is a max-heap over priorities.
    pub priority: i32,
    /// Number of nodes in the subtree rooted here, including this one.
    pub count: usize,
    /// Sum of `value` over the subtree rooted here, including this one.
    pub sum: KeyType,
    /// Subtree of the values below `value`.
    pub left: Link,
    /// Subtree of the values not below `value`.
    pub right: Link,
}

/// The in-order sequence of the values of a subtree.
pub open spec fn link_seq(node: Link) -> Seq<int>
    decreases node,
{
    match node {
        None => Seq::empty(),
        Some(n) => link_seq(n.left) + seq![n.value as int] + link_seq(n.right),
    }
}

/// The root priority is at most `p` (vacuously true of an empty subtree).
pub open spec fn heap_le(node: Link, p: int) -> bool {
    match node {
        None => true,
        Some(n) => n.priority as int <= p,
    }
}

/// Well-formedness of a subtree: each node's aggregates equal count and sum
/// of its subtree, the search ordering and the heap ordering hold, and the
/// absolute sum of each subtree fits the value type.
pub open spec fn link_wf(node: Link) -> bool
    decreases node,
{
    match node {
        None => true,
        Some(n) => {
            &&& link_wf(n.left)
            &&& link_wf(n.right)
            &&& n.count as int == link_seq(n.left).len() + 1 + link_seq(n.right).len()
            &&& n.sum as int == seq_sum(link_seq(n.left)) + n.value as int + seq_sum(
                link_seq(n.right),
            )
            &&& all_le(link_seq(n.left), n.value as int)
            &&& all_ge(link_seq(n.right), n.value as int)
            &&& heap_le(n.left, n.priority as int)
            &&& heap_le(n.right, n.priority as int)
            &&& iabs(n.value as int) + abs_sum(link_seq(n.left)) + abs_sum(link_seq(n.right))
                <= i64::MAX as int
        },
    }
}

impl Node {
    /// A fresh singleton leaf with the default priority; `Treap::insert_value`
    /// draws a pseudo-random priority instead.
    pub fn new(value: KeyType) -> (n: Node)
        ensures
            n.value == value,
            n.priority == 0,
            n.count == 1,
            n.sum == value,
            n.left is None,
            n.right is None,
    {
        Node::new_with_priority(value, 0)
    }

    /// A fresh singleton leaf with the given priority.
    pub fn new_with_priority(value: KeyType, priority: i32) -> (n: Node)
        ensures
            n.value == value,
            n.priority == priority,
            n.count == 1,
            n.sum == value,
            n.left is None,
            n.right is None,
    {
        Node { value, priority, count: 1, sum: value, left: None, right: None }
    }
}

/// The ordered multiset: a root subtree plus the state of the priority
/// generator owned by this instance, so that balance is reproducible.
pub struct Treap {
    root: Link,
    rng: u64,
}

impl View for Treap {
    type V = Seq<int>;

    /// The in-order (hence non-decreasing) sequence of the stored values.
    closed spec fn view(&self) -> Seq<int> {
        link_seq(self.root)
    }
}

impl Treap {
    /// The structural invariant; every operation preserves it.
    pub closed spec fn wf(self) -> bool {
        link_wf(self.root)
    }

    /// An empty multiset.
    pub fn new() -> (t: Treap)
        ensures
            t.wf(),
            t@ == Seq::<int>::empty(),
    {
        Treap { root: None, rng: 0x9e3779b97f4a7c15u64 }
    }

    /// A multiset over an already well-formed subtree.
    pub fn from_root(root: Link) -> (t: Treap)
        ensures
            t.wf() == link_wf(root),
            t@ == link_seq(root),
    {
        Treap { root, rng: 0x9e3779b97f4a7c15u64 }
    }

    /// A read view of the root node, or `None` for an empty multiset.
    pub fn get(&self) -> (r: &Link)
        ensures
            link_seq(*r) == self@,
            link_wf(*r) == self.wf(),
    {
        &self.root
    }

    /// Advances the instance's xorshift state and returns a fresh priority.
    fn next_priority(&mut self) -> (p: i32)
        ensures
            final(self).root == old(self).root,
    {
        let mut x = self.rng;
        x = x ^ (x << 13u64);
        x = x ^ (x >> 7u64);
        x = x ^ (x << 17u64);
        self.rng = x;
        (x & 0x7fff_ffffu64) as i32
    }

    /// Element count of a subtree, from the root aggregate.
    pub fn link_count(node: &Link) -> (c: usize)
        requires
            link_wf(*node),
        ensures
            c as int == link_seq(*node).len(),
    {
        match node {
            None => 0,
            Some(b) => b.count,
        }
    }

    /// Value sum of a subtree, from the root aggregate.
    pub fn link_sum(node: &Link) -> (s: i64)
        requires
            link_wf(*node),
        ensures
            s as int == seq_sum(link_seq(*node)),
    {
        match node {
            None => 0,
            Some(b) => {
                proof {
                    lemma_parts(link_seq(b.left), b.value as int, link_seq(b.right));
                }
                b.sum
            },
        }
    }

    /// Recomputes the aggregates of a node purely from its children's
    /// aggregates and its own value, and reattaches the children.
    pub fn pull(value: KeyType, priority: i32, left: Link, right: Link) -> (res: Link)
        requires
            link_wf(left),
            link_wf(right),
            all_le(link_seq(left), value as int),
            all_ge(link_seq(right), value as int),
            heap_le(left, priority as int),
            heap_le(right, priority as int),
            iabs(value as int) + abs_sum(link_seq(left)) + abs_sum(link_seq(right)) <= i64::MAX
                as int,
            1 + link_seq(left).len() + link_seq(right).len() <= usize::MAX,
        ensures
            link_wf(res),
            link_seq(res) == link_seq(left) + seq![value as int] + link_seq(right),
            res is Some,
            res matches Some(n) ==> n.value == value && n.priority == priority && n.left == left
                && n.right == right,
            heap_le(res, priority as int),
    {
        proof {
            lemma_seq_sum_abs(link_seq(left));
            lemma_seq_sum_abs(link_seq(right));
            lemma_abs_sum_nonneg(link_seq(left));
            lemma_abs_sum_nonneg(link_seq(right));
        }
        let lc = Treap::link_count(&left);
        let rc = Treap::link_count(&right);
        let ls = Treap::link_sum(&left);
        let rs = Treap::link_sum(&right);
        let count: usize = 1 + lc + rc;
        let sum: i64 = value + ls + rs;
        let res = Some(Box::new(Node { value, priority, count, sum, left, right }));
        proof {
            lemma_parts(link_seq(left), value as int, link_seq(right));
            assert(link_seq(res) =~= link_seq(left) + seq![value as int] + link_seq(right));
        }
        res
    }

    /// Joins two subtrees, every value of `left` being at most every value of
    /// `right`. An absent side leaves the other side unchanged; otherwise the
    /// root with the higher priority becomes the result's root (ties go
    /// right), which re-establishes the heap ordering. The result's sequence
    /// is the concatenation of the two inputs' sequences.
    pub fn merge(left: Link, right: Link) -> (res: Link)
        requires
            link_wf(left),
            link_wf(right),
            cross_le(link_seq(left), link_seq(right)),
            abs_sum(link_seq(left)) + abs_sum(link_seq(right)) <= i64::MAX as int,
            link_seq(left).len() + link_seq(right).len() <= usize::MAX,
        ensures
            link_wf(res),
            link_seq(res) == link_seq(left) + link_seq(right),
            left is None ==> res == right,
            right is None ==> res == left,
            left is Some && right is Some && left.unwrap().priority > right.unwrap().priority
                ==> res is Some && res.unwrap().value == left.unwrap().value
                && res.unwrap().priority == left.unwrap().priority,
            left is Some && right is Some && left.unwrap().priority <= right.unwrap().priority
                ==> res is Some && res.unwrap().value == right.unwrap().value
                && res.unwrap().priority == right.unwrap().priority,
            forall|p: int| heap_le(left, p) && heap_le(right, p) ==> heap_le(res, p),
        decreases link_seq(left).len() + link_seq(right).len(),
    {
        match left {
            None => {
                proof {
                    assert(link_seq(left) + link_seq(right) =~= link_seq(right));
                }
                right
            },
            Some(mut lb) => {
                match right {
                    None => {
                        proof {
                            assert(link_seq(left) + link_seq(right) =~= link_seq(left));
                        }
                        Some(lb)
                    },
                    Some(mut rb) => {
                        let ghost ls = link_seq(left);
                        let ghost rs = link_seq(right);
                        if lb.priority > rb.priority {
                            let ghost n0 = *lb;
                            let ghost nl = link_seq(n0.left);
                            let ghost nr = link_seq(n0.right);
                            proof {
                                assert(ls == nl + seq![n0.value as int] + nr);
                                lemma_parts(nl, n0.value as int, nr);
                                lemma_abs_sum_nonneg(nl);
                                assert forall|i: int, j: int|
                                    0 <= i < nr.len() && 0 <= j < rs.len() implies nr[i]
                                    <= rs[j] by {
                                    assert(ls[nl.len() + 1 + i] == nr[i]);
                                    assert(ls[nl.len() + 1 + i] <= rs[j]);
                                }
                            }
                            let rchild = lb.right.take();
                            let lchild = lb.left.take();
                            let merged = Treap::merge(rchild, Some(rb));
                            proof {
                                lemma_abs_sum_concat(nr, rs);
                                assert forall|i: int|
                                    0 <= i < link_seq(merged).len() implies link_seq(merged)[i]
                                    >= n0.value as int by {
                                    if i < nr.len() {
                                        assert(link_seq(merged)[i] == nr[i]);
                                    } else {
                                        assert(link_seq(merged)[i] == rs[i - nr.len()]);
                                        assert(ls[nl.len() as int] == n0.value as int);
                                        assert(ls[nl.len() as int] <= rs[i - nr.len()]);
                                    }
                                }
                            }
                            let res = Treap::pull(lb.value, lb.priority, lchild, merged);
                            proof {
                                assert(link_seq(res) =~= ls + rs);
                                assert forall|p: int|
                                    heap_le(left, p) && heap_le(right, p) implies heap_le(
                                    res,
                                    p,
                                ) by {
                                    assert(heap_le(res, n0.priority as int));
                                }
                            }
                            res
                        } else {
                            let ghost n0 = *rb;
                            let ghost nl = link_seq(n0.left);
                            let ghost nr = link_seq(n0.right);
                            proof {
                                assert(rs == nl + seq![n0.value as int] + nr);
                                lemma_parts(nl, n0.value as int, nr);
                                lemma_abs_sum_nonneg(nr);
                                assert forall|i: int, j: int|
                                    0 <= i < ls.len() && 0 <= j < nl.len() implies ls[i]
                                    <= nl[j] by {
                                    assert(rs[j] == nl[j]);
                                    assert(ls[i] <= rs[j]);
                                }
                            }
                            let lchild = rb.left.take();
                            let rchild = rb.right.take();
                            let merged = Treap::merge(Some(lb), lchild);
                            proof {
                                lemma_abs_sum_concat(ls, nl);
                                assert forall|i: int|
                                    0 <= i < link_seq(merged).len() implies link_seq(merged)[i]
                                    <= n0.value as int by {
                                    if i < ls.len() {
                                        assert(link_seq(merged)[i] == ls[i]);
                                        assert(rs[nl.len() as int] == n0.value as int);
                                        assert(ls[i] <= rs[nl.len() as int]);
                                    } else {
                                        assert(link_seq(merged)[i] == nl[i - ls.len()]);
                                    }
                                }
                            }
                            let res = Treap::pull(rb.value, rb.priority, merged, rchild);
                            proof {
                                assert(link_seq(res) =~= ls + rs);
                                assert forall|p: int|
                                    heap_le(left, p) && heap_le(right, p) implies heap_le(
                                    res,
                                    p,
                                ) by {
                                    assert(heap_le(res, n0.priority as int));
                                }
                            }
                            res
                        }
                    },
                }
            },
        }
    }

    /// Splits a subtree by the threshold `at`: the first result holds every
    /// value strictly below `at`, the second every value not below it; both
    /// keep their relative order, and their concatenation is the input's
    /// sequence.
    pub fn split_node_at_value(node: Link, at: KeyType) -> (res: (Link, Link))
        requires
            link_wf(node),
        ensures
            link_wf(res.0),
            link_wf(res.1),
            link_seq(node) == link_seq(res.0) + link_seq(res.1),
            all_lt(link_seq(res.0), at as int),
            all_ge(link_seq(res.1), at as int),
            forall|p: int| heap_le(node, p) ==> heap_le(res.0, p) && heap_le(res.1, p),
        decreases link_seq(node).len(),
    {
        match node {
            None => {
                proof {
                    assert(link_seq(node) =~= link_seq(node) + Seq::<int>::empty());
                }
                (None, None)
            },
            Some(mut b) => {
                let ghost n0 = *b;
                let ghost nl = link_seq(n0.left);
                let ghost nv = n0.value as int;
                let ghost nr = link_seq(n0.right);
                proof {
                    assert(link_seq(node) == nl + seq![nv] + nr);
                    lemma_parts(nl, nv, nr);
                    lemma_abs_sum_nonneg(nl);
                    lemma_abs_sum_nonneg(nr);
                }
                if b.value < at {
                    let rchild = b.right.take();
                    let lchild = b.left.take();
                    let (rl, rr) = Treap::split_node_at_value(rchild, at);
                    proof {
                        lemma_abs_sum_concat(link_seq(rl), link_seq(rr));
                        lemma_abs_sum_nonneg(link_seq(rl));
                        lemma_abs_sum_nonneg(link_seq(rr));
                        assert forall|i: int|
                            0 <= i < link_seq(rl).len() implies link_seq(rl)[i] >= nv by {
                            assert(nr[i] == (link_seq(rl) + link_seq(rr))[i]);
                        }
                    }
                    let part = Treap::pull(b.value, b.priority, lchild, rl);
                    proof {
                        assert(link_seq(node) =~= link_seq(part) + link_seq(rr));
                        assert forall|i: int|
                            0 <= i < link_seq(part).len() implies link_seq(part)[i] < at as int by {
                            if i < nl.len() {
                                assert(link_seq(part)[i] == nl[i]);
                            } else if i == nl.len() {
                                assert(link_seq(part)[i] == nv);
                            } else {
                                assert(link_seq(part)[i] == link_seq(rl)[i - nl.len() - 1]);
                            }
                        }
                        assert forall|p: int|
                            heap_le(node, p) implies heap_le(part, p) && heap_le(rr, p) by {
                            assert(heap_le(part, n0.priority as int));
                        }
                    }
                    (part, rr)
                } else {
                    let lchild = b.left.take();
                    let rchild = b.right.take();
                    let (ll, lr) = Treap::split_node_at_value(lchild, at);
                    proof {
                        lemma_abs_sum_concat(link_seq(ll), link_seq(lr));
                        lemma_abs_sum_nonneg(link_seq(ll));
                        lemma_abs_sum_nonneg(link_seq(lr));
                        assert forall|i: int|
                            0 <= i < link_seq(lr).len() implies link_seq(lr)[i] <= nv by {
                            assert(nl[i + link_seq(ll).len()] == (link_seq(ll) + link_seq(lr))[i
                                + link_seq(ll).len()]);
                        }
                    }
                    let part = Treap::pull(b.value, b.priority, lr, rchild);
                    proof {
                        assert(link_seq(node) =~= link_seq(ll) + link_seq(part));
                        assert forall|i: int|
                            0 <= i < link_seq(part).len() implies link_seq(part)[i] >= at as int by {
                            if i < link_seq(lr).len() {
                                assert(link_seq(part)[i] == link_seq(lr)[i]);
                            } else if i == link_seq(lr).len() {
                                assert(link_seq(part)[i] == nv);
                            } else {
                                assert(link_seq(part)[i] == nr[i - link_seq(lr).len() - 1]);
                            }
                        }
                        assert forall|p: int|
                            heap_le(node, p) implies heap_le(ll, p) && heap_le(part, p) by {
                            assert(heap_le(part, n0.priority as int));
                        }
                    }
                    (ll, part)
                }
            },
        }
    }

    /// Splits the whole multiset by `at`, leaving this instance empty and
    /// returning the two subtrees: values strictly below `at`, and the rest.
    pub fn split_at_value(&mut self, at: KeyType) -> (res: (Link, Link))
        requires
            old(self).wf(),
        ensures
            final(self).wf(),
            final(self)@ == Seq::<int>::empty(),
            link_wf(res.0),
            link_wf(res.1),
            old(self)@ == link_seq(res.0) + link_seq(res.1),
            all_lt(link_seq(res.0), at as int),
            all_ge(link_seq(res.1), at as int),
    {
        let root = self.root.take();
        Treap::split_node_at_value(root, at)
    }

    /// Inserts one occurrence of `value`: a fresh leaf with a fresh priority
    /// is placed at its ordered position by splitting at `value` and merging
    /// the pieces back around it.
    pub fn insert_value(&mut self, value: KeyType)
        requires
            old(self).wf(),
            abs_sum(old(self)@) + iabs(value as int) <= i64::MAX as int,
            old(self)@.len() < usize::MAX,
        ensures
            final(self).wf(),
            sorted(final(self)@),
            final(self)@.to_multiset() == old(self)@.to_multiset().insert(value as int),
            final(self)@.len() == old(self)@.len() + 1,
            seq_sum(final(self)@) == seq_sum(old(self)@) + value,
            abs_sum(final(self)@) == abs_sum(old(self)@) + iabs(value as int),
    {
        let prio = self.next_priority();
        let root = self.root.take();
        let ghost s0 = link_seq(root);
        let (lpart, rpart) = Treap::split_node_at_value(root, value);
        let ghost ls = link_seq(lpart);
        let ghost rs = link_seq(rpart);
        let leaf = Some(Box::new(Node::new_with_priority(value, prio)));
        proof {
            let v = value as int;
            assert(link_seq(None::<Box<Node>>) == Seq::<int>::empty());
            assert(link_wf(None::<Box<Node>>));
            assert(seq_sum(Seq::<int>::empty()) == 0);
            assert(abs_sum(Seq::<int>::empty()) == 0);
            assert(link_seq(leaf) =~= seq![v]);
            lemma_singleton(v);
            lemma_abs_sum_concat(ls, rs);
            lemma_abs_sum_nonneg(ls);
            lemma_abs_sum_nonneg(rs);
            lemma_seq_sum_concat(ls, rs);
            assert(link_wf(leaf));
            assert(cross_le(ls, seq![v])) by {
                assert forall|i: int, j: int|
                    0 <= i < ls.len() && 0 <= j < seq![v].len() implies ls[i] <= seq![v][j] by {
                    assert(seq![v][j] == v);
                }
            }
        }
        let m1 = Treap::merge(lpart, leaf);
        proof {
            let v = value as int;
            lemma_abs_sum_concat(ls, seq![v]);
            assert(cross_le(link_seq(m1), rs)) by {
                assert forall|i: int, j: int|
                    0 <= i < link_seq(m1).len() && 0 <= j < rs.len() implies link_seq(m1)[i]
                    <= rs[j] by {
                    if i < ls.len() {
                        assert(link_seq(m1)[i] == ls[i]);
                    } else {
                        assert(link_seq(m1)[i] == v);
                    }
                }
            }
        }
        let m2 = Treap::merge(m1, rpart);
        self.root = m2;
        proof {
            let v = value as int;
            assert(link_seq(m2) == (ls + seq![v]) + rs);
            lemma_parts(ls, v, rs);
            assert(final(self)@.to_multiset() =~= old(self)@.to_multiset().insert(v)) by {
                broadcast use vstd::multiset::group_multiset_axioms;

                lemma_ms_mid(ls, v, rs);
                vstd::seq_lib::lemma_multiset_commutative(ls, rs);
            }
            lemma_wf_sorted(self.root);
        }
    }

    /// Whether the multiset holds at least one occurrence of `value`.
    pub fn find_value(&self, value: KeyType) -> (r: bool)
        requires
            self.wf(),
        ensures
            r == self@.contains(value as int),
    {
        Treap::find_in_link(&self.root, value)
    }

    /// Search descent for `value`, narrowing by the search ordering.
    fn find_in_link(node: &Link, value: KeyType) -> (r: bool)
        requires
            link_wf(*node),
        ensures
            r == link_seq(*node).contains(value as int),
        decreases link_seq(*node).len(),
    {
        match node {
            None => {
                proof {
                    assert(!link_seq(*node).contains(value as int));
                }
                false
            },
            Some(b) => {
                let ghost l = link_seq(b.left);
                let ghost v = b.value as int;
                let ghost r = link_seq(b.right);
                proof {
                    lemma_concat_contains(l, v, r, value as int);
                }
                if value == b.value {
                    true
                } else if value < b.value {
                    proof {
                        if r.contains(value as int) {
                            let i = choose|i: int| 0 <= i < r.len() && r[i] == value as int;
                            assert(r[i] >= v);
                        }
                    }
                    Treap::find_in_link(&b.left, value)
                } else {
                    proof {
                        if l.contains(value as int) {
                            let i = choose|i: int| 0 <= i < l.len() && l[i] == value as int;
                            assert(l[i] <= v);
                        }
                    }
                    Treap::find_in_link(&b.right, value)
                }
            },
        }
    }

    /// Removes one occurrence of `value`, which must be present: the node is
    /// found by search descent, every node on the path has its aggregates
    /// reduced by the removed element, and the node's two children are merged
    /// into the vacated position.
    pub fn remove_value(&mut self, value: KeyType)
        requires
            old(self).wf(),
            old(self)@.contains(value as int),
        ensures
            final(self).wf(),
            sorted(final(self)@),
            final(self)@.to_multiset() == old(self)@.to_multiset().remove(value as int),
            final(self)@.len() == old(self)@.len() - 1,
            seq_sum(final(self)@) == seq_sum(old(self)@) - value,
            abs_sum(final(self)@) == abs_sum(old(self)@) - iabs(value as int),
    {
        let mut root = self.root.take();
        Treap::remove_from_link(&mut root, value);
        self.root = root;
        proof {
            lemma_wf_sorted(self.root);
        }
    }

    /// Removal within a subtree; besides the aggregate changes, every bound
    /// that held of the subtree's values and of its root priority still holds
    /// afterwards, so the subtree may stay in its parent's place.
    fn remove_from_link(node: &mut Link, value: KeyType)
        requires
            link_wf(*old(node)),
            link_seq(*old(node)).contains(value as int),
        ensures
            link_wf(*final(node)),
            link_seq(*final(node)).to_multiset() == link_seq(*old(node)).to_multiset().remove(
                value as int,
            ),
            link_seq(*final(node)).len() == link_seq(*old(node)).len() - 1,
            seq_sum(link_seq(*final(node))) == seq_sum(link_seq(*old(node))) - value,
            abs_sum(link_seq(*final(node))) == abs_sum(link_seq(*old(node))) - iabs(value as int),
            forall|b: int| all_le(link_seq(*old(node)), b) ==> all_le(link_seq(*final(node)), b),
            forall|b: int| all_ge(link_seq(*old(node)), b) ==> all_ge(link_seq(*final(node)), b),
            forall|p: int| heap_le(*old(node), p) ==> heap_le(*final(node), p),
        decreases link_seq(*old(node)).len(),
    {
        proof {
            if (*old(node)) is None {
                assert(!link_seq(*old(node)).contains(value as int));
            }
        }
        let mut b = node.take().unwrap();
        let ghost n0 = *b;
        let ghost l = link_seq(n0.left);
        let ghost v = n0.value as int;
        let ghost r = link_seq(n0.right);
        let ghost s0 = link_seq(*old(node));
        proof {
            assert(s0 == l + seq![v] + r);
            lemma_parts(l, v, r);
            lemma_concat_contains(l, v, r, value as int);
            lemma_abs_sum_nonneg(l);
            lemma_abs_sum_nonneg(r);
            lemma_ms_mid(l, v, r);
        }
        if value == b.value {
            let lchild = b.left.take();
            let rchild = b.right.take();
            proof {
                assert(cross_le(l, r)) by {
                    assert forall|i: int, j: int|
                        0 <= i < l.len() && 0 <= j < r.len() implies l[i] <= r[j] by {
                        assert(l[i] <= v);
                        assert(r[j] >= v);
                    }
                }
            }
            let merged = Treap::merge(lchild, rchild);
            *node = merged;
            proof {
                broadcast use vstd::multiset::group_multiset_axioms;

                vstd::seq_lib::lemma_multiset_commutative(l, r);
                lemma_seq_sum_concat(l, r);
                lemma_abs_sum_concat(l, r);
                assert(link_seq(*final(node)).to_multiset() =~= s0.to_multiset().remove(
                    value as int,
                ));
                assert forall|bound: int| all_le(s0, bound) implies all_le(
                    link_seq(*final(node)),
                    bound,
                ) by {
                    assert forall|i: int|
                        0 <= i < link_seq(*final(node)).len() implies link_seq(*final(node))[i]
                        <= bound by {
                        if i < l.len() {
                            assert(s0[i] == l[i]);
                        } else {
                            assert(s0[i + 1] == r[i - l.len()]);
                        }
                    }
                }
                assert forall|bound: int| all_ge(s0, bound) implies all_ge(
                    link_seq(*final(node)),
                    bound,
                ) by {
                    assert forall|i: int|
                        0 <= i < link_seq(*final(node)).len() implies link_seq(*final(node))[i]
                        >= bound by {
                        if i < l.len() {
                            assert(s0[i] == l[i]);
                        } else {
                            assert(s0[i + 1] == r[i - l.len()]);
                        }
                    }
                }
                assert forall|p: int| heap_le(*old(node), p) implies heap_le(
                    *final(node),
                    p,
                ) by {
                    assert(heap_le(lchild, n0.priority as int) && heap_le(rchild, n0.priority as int));
                }
            }
        } else if value < b.value {
            proof {
                if r.contains(value as int) {
                    let i = choose|i: int| 0 <= i < r.len() && r[i] == value as int;
                    assert(r[i] >= v);
                }
                assert(l.contains(value as int));
            }
            Treap::remove_from_link(&mut b.left, value);
            let ghost l2 = link_seq(b.left);
            proof {
                lemma_seq_sum_abs(l2);
                lemma_seq_sum_abs(r);
                lemma_abs_sum_nonneg(l2);
            }
            b.count = b.count - 1;
            b.sum = b.sum - value;
            *node = Some(b);
            proof {
                let s2 = link_seq(*final(node));
                assert(s2 == l2 + seq![v] + r);
                lemma_parts(l2, v, r);
                lemma_ms_mid(l2, v, r);
                assert(s2.to_multiset() =~= s0.to_multiset().remove(value as int)) by {
                    broadcast use vstd::multiset::group_multiset_axioms;
                    broadcast use vstd::seq_lib::group_to_multiset_ensures;

                    assert(l.to_multiset().count(value as int) > 0);
                }
                assert forall|bound: int| all_le(s0, bound) implies all_le(s2, bound) by {
                    assert(all_le(l, bound)) by {
                        assert forall|i: int| 0 <= i < l.len() implies l[i] <= bound by {
                            assert(s0[i] == l[i]);
                        }
                    }
                    assert forall|i: int| 0 <= i < s2.len() implies s2[i] <= bound by {
                        if i < l2.len() {
                            assert(s2[i] == l2[i]);
                        } else if i == l2.len() {
                            assert(s0[l.len() as int] == v);
                        } else {
                            assert(s2[i] == r[i - l2.len() - 1]);
                            assert(s0[l.len() + 1 + (i - l2.len() - 1)] == r[i - l2.len() - 1]);
                        }
                    }
                }
                assert forall|bound: int| all_ge(s0, bound) implies all_ge(s2, bound) by {
                    assert(all_ge(l, bound)) by {
                        assert forall|i: int| 0 <= i < l.len() implies l[i] >= bound by {
                            assert(s0[i] == l[i]);
                        }
                    }
                    assert forall|i: int| 0 <= i < s2.len() implies s2[i] >= bound by {
                        if i < l2.len() {
                            assert(s2[i] == l2[i]);
                        } else if i == l2.len() {
                            assert(s0[l.len() as int] == v);
                        } else {
                            assert(s2[i] == r[i - l2.len() - 1]);
                            assert(s0[l.len() + 1 + (i - l2.len() - 1)] == r[i - l2.len() - 1]);
                        }
                    }
                }
            }
        } else {
            proof {
                if l.contains(value as int) {
                    let i = choose|i: int| 0 <= i < l.len() && l[i] == value as int;
                    assert(l[i] <= v);
                }
                assert(r.contains(value as int));
            }
            Treap::remove_from_link(&mut b.right, value);
            let ghost r2 = link_seq(b.right);
            proof {
                lemma_seq_sum_abs(r2);
                lemma_seq_sum_abs(l);
                lemma_abs_sum_nonneg(r2);
            }
            b.count = b.count - 1;
            b.sum = b.sum - value;
            *node = Some(b);
            proof {
                let s2 = link_seq(*final(node));
                assert(s2 == l + seq![v] + r2);
                lemma_parts(l, v, r2);
                lemma_ms_mid(l, v, r2);
                assert(s2.to_multiset() =~= s0.to_multiset().remove(value as int)) by {
                    broadcast use vstd::multiset::group_multiset_axioms;
                    broadcast use vstd::seq_lib::group_to_multiset_ensures;

                    assert(r.to_multiset().count(value as int) > 0);
                }
                assert forall|bound: int| all_le(s0, bound) implies all_le(s2, bound) by {
                    assert(all_le(r, bound)) by {
                        assert forall|i: int| 0 <= i < r.len() implies r[i] <= bound by {
                            assert(s0[l.len() + 1 + i] == r[i]);
                        }
                    }
                    assert forall|i: int| 0 <= i < s2.len() implies s2[i] <= bound by {
                        if i < l.len() {
                            assert(s2[i] == l[i]);
                            assert(s0[i] == l[i]);
                        } else if i == l.len() {
                            assert(s0[l.len() as int] == v);
                        } else {
                            assert(s2[i] == r2[i - l.len() - 1]);
                        }
                    }
                }
                assert forall|bound: int| all_ge(s0, bound) implies all_ge(s2, bound) by {
                    assert(all_ge(r, bound)) by {
                        assert forall|i: int| 0 <= i < r.len() implies r[i] >= bound by {
                            assert(s0[l.len() + 1 + i] == r[i]);
                        }
                    }
                    assert forall|i: int| 0 <= i < s2.len() implies s2[i] >= bound by {
                        if i < l.len() {
                            assert(s2[i] == l[i]);
                            assert(s0[i] == l[i]);
                        } else if i == l.len() {
                            assert(s0[l.len() as int] == v);
                        } else {
                            assert(s2[i] == r2[i - l.len() - 1]);
                        }
                    }
                }
            }
        }
    }

    /// The sum of all stored values; `0` for an empty multiset.
    pub fn sum(&self) -> (r: i64)
        requires
            self.wf(),
        ensures
            r as int == seq_sum(self@),
    {
        Treap::link_sum(&self.root)
    }

    /// The number of stored values.
    pub fn count(&self) -> (c: usize)
        requires
            self.wf(),
        ensures
            c as int == self@.len(),
    {
        Treap::link_count(&self.root)
    }

    /// The sum of the `n` greatest stored values; all of them once `n`
    /// reaches the element count, and `0` for an empty quota.
    pub fn sum_of_n_greatest(&self, n: usize) -> (r: i64)
        requires
            self.wf(),
        ensures
            r as int == top_sum(self@, n as int),
            n == 0 ==> r == 0,
            n as int >= self@.len() ==> r as int == seq_sum(self@),
    {
        Treap::sum_of_n_greatest_in_node(&self.root, n)
    }

    /// Order-statistic descent: whole subtrees whose count fits the remaining
    /// quota contribute their aggregate sum; otherwise the right subtree is
    /// visited first, then this node's value, then the left subtree with the
    /// quota that remains (never below zero).
    pub fn sum_of_n_greatest_in_node(node: &Link, n: usize) -> (r: i64)
        requires
            link_wf(*node),
        ensures
            r as int == top_sum(link_seq(*node), n as int),
        decreases link_seq(*node).len(),
    {
        match node {
            None => 0,
            Some(b) => {
                let ghost l = link_seq(b.left);
                let ghost v = b.value as int;
                let ghost r = link_seq(b.right);
                let ghost s = link_seq(*node);
                proof {
                    assert(s == l + seq![v] + r);
                    lemma_parts(l, v, r);
                }
                if n == 0 {
                    return 0;
                }
                if n >= b.count {
                    return b.sum;
                }
                let rc = Treap::link_count(&b.right);
                let total = Treap::sum_of_n_greatest_in_node(&b.right, n);
                if n <= rc {
                    proof {
                        lemma_top_sum_right(l, v, r, n as int);
                    }
                    return total;
                }
                proof {
                    lemma_seq_sum_abs(r);
                    lemma_abs_sum_nonneg(l);
                }
                let total2 = total + b.value;
                let m = n - rc - 1;
                if m == 0 {
                    proof {
                        lemma_top_sum_mid(l, v, r, n as int);
                        assert(seq_sum(Seq::<int>::empty()) == 0);
                    }
                    return total2;
                }
                proof {
                    lemma_top_sum_mid(l, v, r, n as int);
                    assert(top_sum(l, m as int) == seq_sum(
                        l.subrange(l.len() - m as int, l.len() as int),
                    ));
                    lemma_seq_sum_abs(l.subrange(l.len() - m as int, l.len() as int));
                    lemma_abs_sum_subrange(l, l.len() - m as int, l.len() as int);
                }
                let lpart = Treap::sum_of_n_greatest_in_node(&b.left, m);
                total2 + lpart
            },
        }
    }

    /// The stored values in ascending order.
    pub fn iter(&self) -> (r: Vec<i64>)
        ensures
            ints(r@) == self@,
    {
        let mut out: Vec<i64> = Vec::new();
        proof {
            assert(ints(out@) =~= Seq::<int>::empty());
        }
        Treap::push_in_order(&self.root, &mut out);
        proof {
            assert(Seq::<int>::empty() + self@ =~= self@);
        }
        out
    }

    /// Appends a subtree's values in order.
    fn push_in_order(node: &Link, out: &mut Vec<i64>)
        ensures
            ints(final(out)@) == ints(old(out)@) + link_seq(*node),
        decreases link_seq(*node).len(),
    {
        match node {
            None => {
                proof {
                    assert(ints(out@) + link_seq(*node) =~= ints(out@));
                }
            },
            Some(b) => {
                let ghost q0 = ints(old(out)@);
                let ghost l = link_seq(b.left);
                let ghost v = b.value as int;
                let ghost r = link_seq(b.right);
                Treap::push_in_order(&b.left, out);
                out.push(b.value);
                proof {
                    assert(ints(out@) =~= (q0 + l).push(v));
                    assert((q0 + l).push(v) =~= q0 + l + seq![v]);
                }
                Treap::push_in_order(&b.right, out);
                proof {
                    assert(ints(out@) =~= q0 + (l + seq![v] + r));
                }
            },
        }
    }
}

/// Ordering law: a well-formed subtree's in-order sequence is non-decreasing.
pub proof fn lemma_wf_sorted(node: Link)
    requires
        link_wf(node),
    ensures
        sorted(link_seq(node)),
    decreases node,
{
    match node {
        None => {},
        Some(n) => {
            lemma_wf_sorted(n.left);
            lemma_wf_sorted(n.right);
            let l = link_seq(n.left);
            let v = n.value as int;
            let r = link_seq(n.right);
            let s = l + seq![v] + r;
            assert forall|i: int, j: int| 0 <= i <= j < s.len() implies s[i] <= s[j] by {
                if i < l.len() {
                    assert(s[i] == l[i]);
                } else if i == l.len() {
                    assert(s[i] == v);
                } else {
                    assert(s[i] == r[i - l.len() - 1]);
                }
                if j < l.len() {
                    assert(s[j] == l[j]);
                } else if j == l.len() {
                    assert(s[j] == v);
                } else {
                    assert(s[j] == r[j - l.len() - 1]);
                }
            }
        },
    }
}

/// Ordering law at the multiset level: the stored sequence of a well-formed
/// treap is non-decreasing.
pub proof fn lemma_treap_sorted(t: Treap)
    requires
        t.wf(),
    ensures
        sorted(t@),
{
    lemma_wf_sorted(t.root);
}

/// The stored count aggregate of a subtree root; zero for an absent subtree.
pub open spec fn stored_count(node: Link) -> int {
    match node {
        None => 0,
        Some(n) => n.count as int,
    }
}

/// The stored sum aggregate of a subtree root; zero for an absent subtree.
pub open spec fn stored_sum(node: Link) -> int {
    match node {
        None => 0,
        Some(n) => n.sum as int,
    }
}

/// Aggregate law: in a well-formed subtree, every node's stored count is one
/// plus its children's stored counts and its stored sum is its value plus its
/// children's stored sums, an absent child counting as zero. Every operation
/// ensures well-formedness, so this holds after every operation, of every
/// node, by induction through the children's own well-formedness.
pub proof fn lemma_aggregate_invariant(node: Link)
    requires
        link_wf(node),
    ensures
        node matches Some(n) ==> {
            &&& n.count as int == 1 + stored_count(n.left) + stored_count(n.right)
            &&& n.sum as int == n.value as int + stored_sum(n.left) + stored_sum(n.right)
        },
{
    match node {
        None => {},
        Some(n) => {
            assert(link_wf(n.left));
            assert(link_wf(n.right));
            match n.left {
                None => {
                    assert(link_seq(n.left).len() == 0);
                    assert(seq_sum(link_seq(n.left)) == 0);
                },
                Some(m) => {
                    assert(link_seq(n.left) == link_seq(m.left) + seq![m.value as int]
                        + link_seq(m.right));
                    lemma_parts(link_seq(m.left), m.value as int, link_seq(m.right));
                },
            }
            match n.right {
                None => {
                    assert(link_seq(n.right).len() == 0);
                    assert(seq_sum(link_seq(n.right)) == 0);
                },
                Some(m) => {
                    assert(link_seq(n.right) == link_seq(m.left) + seq![m.value as int]
                        + link_seq(m.right));
                    lemma_parts(link_seq(m.left), m.value as int, link_seq(m.right));
                },
            }
        },
    }
}

/// Inverse law: inserting a value and then removing it restores the stored
/// sequence, and with it the total sum and the element count. The premises
/// are exactly what `insert_value` and then `remove_value` ensure, together
/// with the sortedness that well-formedness gives.
pub proof fn lemma_insert_remove_inverse(s0: Seq<int>, s1: Seq<int>, s2: Seq<int>, v: int)
    requires
        sorted(s0),
        sorted(s2),
        s1.to_multiset() == s0.to_multiset().insert(v),
        s2.to_multiset() == s1.to_multiset().remove(v),
    ensures
        s2 == s0,
        seq_sum(s2) == seq_sum(s0),
        s2.len() == s0.len(),
{
    broadcast use vstd::multiset::group_multiset_axioms;

    assert(s2.to_multiset() =~= s0.to_multiset());
    lemma_sorted_ms_unique(s2, s0);
}

/// Inverse law: the two parts that a split yields always satisfy the order
/// precondition of `merge`, and merging them back restores the original
/// in-order sequence, hence the original sum, count and absolute sum. The
/// premises are exactly what `split_at_value` ensures of its two results.
pub proof fn lemma_split_merge_inverse(s: Seq<int>, a: Seq<int>, b: Seq<int>, at: int)
    requires
        s == a + b,
        all_lt(a, at),
        all_ge(b, at),
    ensures
        cross_le(a, b),
        a + b == s,
        seq_sum(a) + seq_sum(b) == seq_sum(s),
        abs_sum(a) + abs_sum(b) == abs_sum(s),
        a.len() + b.len() == s.len(),
{
    assert forall|i: int, j: int| 0 <= i < a.len() && 0 <= j < b.len() implies a[i] <= b[j] by {
        assert(a[i] < at);
        assert(b[j] >= at);
    }
    lemma_seq_sum_concat(a, b);
    lemma_abs_sum_concat(a, b);
}

} // verus!
