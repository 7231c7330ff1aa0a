//! Mathematical helpers over sequences of integers: sums, absolute sums,
//! sortedness, and order bounds, together with the lemmas the tree and the
//! window driver are proved against.

use vstd::prelude::*;

verus! {

use vstd::multiset::Multiset;

/// The stored values of a vector, as mathematical integers.
pub open spec fn ints(s: Seq<i64>) -> Seq<int> {
    s.map_values(|x: i64| x as int)
}

/// The sum of a sequence of integers.
pub open spec fn seq_sum(s: Seq<int>) -> int
    decreases s.len(),
{
    if s.len() == 0 {
        0
    } else {
        s[0] + seq_sum(s.drop_first())
    }
}

/// Absolute value.
pub open spec fn iabs(x: int) -> int {
    if x < 0 {
        -x
    } else {
        x
    }
}

/// The sum of the absolute values of a sequence: a bound under which every
/// partial sum of any rearrangement of the sequence fits.
pub open spec fn abs_sum(s: Seq<int>) -> int
    decreases s.len(),
{
    if s.len() == 0 {
        0
    } else {
        iabs(s[0]) + abs_sum(s.drop_first())
    }
}

/// The sequence is non-decreasing.
pub open spec fn sorted(s: Seq<int>) -> bool {
    forall|i: int, j: int| 0 <= i <= j < s.len() ==> s[i] <= s[j]
}

/// Every element is at most `b`.
pub open spec fn all_le(s: Seq<int>, b: int) -> bool {
    forall|i: int| 0 <= i < s.len() ==> s[i] <= b
}

/// Every element is at least `b`.
pub open spec fn all_ge(s: Seq<int>, b: int) -> bool {
    forall|i: int| 0 <= i < s.len() ==> s[i] >= b
}

/// Every element is strictly below `b`.
pub open spec fn all_lt(s: Seq<int>, b: int) -> bool {
    forall|i: int| 0 <= i < s.len() ==> s[i] < b
}

/// Every element of `a` is at most every element of `b`.
pub open spec fn cross_le(a: Seq<int>, b: Seq<int>) -> bool {
    forall|i: int, j: int| 0 <= i < a.len() && 0 <= j < b.len() ==> a[i] <= b[j]
}

/// The sum of the `n` greatest elements of the sorted sequence `s`: the sum
/// of its suffix of length `n`, of the whole sequence once `n` covers it, and
/// `0` for an empty quota.
pub open spec fn top_sum(s: Seq<int>, n: int) -> int {
    if n <= 0 {
        0
    } else if n >= s.len() {
        seq_sum(s)
    } else {
        seq_sum(s.subrange(s.len() - n, s.len() as int))
    }
}

/// The smaller of two integers.
pub open spec fn int_min(a: int, b: int) -> int {
    if a <= b {
        a
    } else {
        b
    }
}

/// Summing distributes over concatenation.
pub proof fn lemma_seq_sum_concat(a: Seq<int>, b: Seq<int>)
    ensures
        seq_sum(a + b) == seq_sum(a) + seq_sum(b),
    decreases a.len(),
{
    if a.len() == 0 {
        assert(a + b =~= b);
    } else {
        assert((a + b).drop_first() =~= a.drop_first() + b);
        lemma_seq_sum_concat(a.drop_first(), b);
        assert((a + b)[0] == a[0]);
    }
}

/// Absolute summing distributes over concatenation.
pub proof fn lemma_abs_sum_concat(a: Seq<int>, b: Seq<int>)
    ensures
        abs_sum(a + b) == abs_sum(a) + abs_sum(b),
    decreases a.len(),
{
    if a.len() == 0 {
        assert(a + b =~= b);
    } else {
        assert((a + b).drop_first() =~= a.drop_first() + b);
        lemma_abs_sum_concat(a.drop_first(), b);
        assert((a + b)[0] == a[0]);
    }
}

/// An absolute sum is never negative.
pub proof fn lemma_abs_sum_nonneg(s: Seq<int>)
    ensures
        abs_sum(s) >= 0,
    decreases s.len(),
{
    if s.len() > 0 {
        lemma_abs_sum_nonneg(s.drop_first());
    }
}

/// A sum is bounded by the absolute sum on both sides.
pub proof fn lemma_seq_sum_abs(s: Seq<int>)
    ensures
        -abs_sum(s) <= seq_sum(s) <= abs_sum(s),
    decreases s.len(),
{
    if s.len() > 0 {
        lemma_seq_sum_abs(s.drop_first());
    }
}

/// The absolute sum of a contiguous piece is bounded by that of the whole.
pub proof fn lemma_abs_sum_subrange(s: Seq<int>, a: int, b: int)
    requires
        0 <= a <= b <= s.len(),
    ensures
        abs_sum(s.subrange(a, b)) <= abs_sum(s),
{
    assert(s =~= (s.subrange(0, a) + s.subrange(a, b)) + s.subrange(b, s.len() as int));
    lemma_abs_sum_concat(s.subrange(0, a) + s.subrange(a, b), s.subrange(b, s.len() as int));
    lemma_abs_sum_concat(s.subrange(0, a), s.subrange(a, b));
    lemma_abs_sum_nonneg(s.subrange(0, a));
    lemma_abs_sum_nonneg(s.subrange(b, s.len() as int));
}

/// Removing the element at `j` takes exactly `s[j]` out of the sum.
pub proof fn lemma_seq_sum_remove(s: Seq<int>, j: int)
    requires
        0 <= j < s.len(),
    ensures
        seq_sum(s) == s[j] + seq_sum(s.remove(j)),
    decreases j,
{
    if j == 0 {
        assert(s.remove(0) =~= s.drop_first());
    } else {
        lemma_seq_sum_remove(s.drop_first(), j - 1);
        assert(s.remove(j).drop_first() =~= s.drop_first().remove(j - 1));
        assert(s.remove(j)[0] == s[0]);
    }
}

/// Two sequences with the same multiset of elements have the same sum.
pub proof fn lemma_seq_sum_perm(a: Seq<int>, b: Seq<int>)
    requires
        a.to_multiset() == b.to_multiset(),
    ensures
        seq_sum(a) == seq_sum(b),
    decreases a.len(),
{
    broadcast use vstd::seq_lib::group_to_multiset_ensures;

    assert(a.to_multiset().len() == a.len());
    assert(b.to_multiset().len() == b.len());
    if a.len() == 0 {
        assert(b.len() == 0);
    } else {
        let x = a[0];
        assert(a.contains(x));
        assert(b.to_multiset().count(x) > 0);
        assert(b.contains(x));
        let j = choose|j: int| 0 <= j < b.len() && b[j] == x;
        lemma_seq_sum_remove(b, j);
        assert(a.remove(0) =~= a.drop_first());
        assert(a.drop_first().to_multiset() == a.to_multiset().remove(x));
        assert(b.remove(j).to_multiset() == b.to_multiset().remove(x));
        lemma_seq_sum_perm(a.drop_first(), b.remove(j));
    }
}

/// A sorted sequence is determined by its multiset of elements.
pub proof fn lemma_sorted_ms_unique(a: Seq<int>, b: Seq<int>)
    requires
        sorted(a),
        sorted(b),
        a.to_multiset() == b.to_multiset(),
    ensures
        a == b,
{
    let le = |x: int, y: int| x <= y;
    assert forall|x: int, y: int| #[trigger] le(x, y) || #[trigger] le(y, x) by {
        assert(le(x, y) == (x <= y));
        assert(le(y, x) == (y <= x));
    }
    assert(vstd::relations::total_ordering(le)) by {
        assert forall|x: int| #[trigger] le(x, x) by {
            assert(le(x, x) == (x <= x));
        }
        assert forall|x: int, y: int| #[trigger] le(x, y) && #[trigger] le(y, x) implies x == y by {
        }
        assert forall|x: int, y: int, z: int|
            #[trigger] le(x, y) && #[trigger] le(y, z) implies le(x, z) by {
            assert(le(x, z) == (x <= z));
        }
    }
    assert(vstd::relations::sorted_by(a, le)) by {
        assert forall|i: int, j: int| 0 <= i < j < a.len() implies #[trigger] le(a[i], a[j]) by {
            assert(a[i] <= a[j]);
            assert(le(a[i], a[j]) == (a[i] <= a[j]));
        }
    }
    assert(vstd::relations::sorted_by(b, le)) by {
        assert forall|i: int, j: int| 0 <= i < j < b.len() implies #[trigger] le(b[i], b[j]) by {
            assert(b[i] <= b[j]);
            assert(le(b[i], b[j]) == (b[i] <= b[j]));
        }
    }
    vstd::seq_lib::lemma_sorted_unique(a, b, le);
    assert(a =~= b);
}

/// Length, sum and absolute sum of a concatenation around a single middle
/// element.
pub proof fn lemma_parts(l: Seq<int>, v: int, r: Seq<int>)
    ensures
        (l + seq![v] + r).len() == l.len() + 1 + r.len(),
        seq_sum(l + seq![v] + r) == seq_sum(l) + v + seq_sum(r),
        abs_sum(l + seq![v] + r) == abs_sum(l) + iabs(v) + abs_sum(r),
{
    lemma_seq_sum_concat(l + seq![v], r);
    lemma_seq_sum_concat(l, seq![v]);
    lemma_abs_sum_concat(l + seq![v], r);
    lemma_abs_sum_concat(l, seq![v]);
    assert(seq![v].drop_first() =~= Seq::<int>::empty());
    assert(seq_sum(Seq::<int>::empty()) == 0);
    assert(abs_sum(Seq::<int>::empty()) == 0);
    assert(seq_sum(seq![v]) == v);
    assert(abs_sum(seq![v]) == iabs(v));
}

/// The multiset of a concatenation around a single middle element.
pub proof fn lemma_ms_mid(l: Seq<int>, v: int, r: Seq<int>)
    ensures
        (l + seq![v] + r).to_multiset() == l.to_multiset().insert(v).add(r.to_multiset()),
{
    broadcast use vstd::seq_lib::group_to_multiset_ensures;
    broadcast use vstd::multiset::group_multiset_axioms;

    vstd::seq_lib::lemma_multiset_commutative(l + seq![v], r);
    vstd::seq_lib::lemma_multiset_commutative(l, seq![v]);
    assert(seq![v] =~= Seq::<int>::empty().push(v));
    assert(seq![v].to_multiset() =~= Multiset::<int>::empty().insert(v));
    assert((l + seq![v] + r).to_multiset() =~= l.to_multiset().insert(v).add(r.to_multiset()));
}

/// Length, sum, absolute sum and multiset of a one-element sequence.
pub proof fn lemma_singleton(v: int)
    ensures
        seq![v].len() == 1,
        seq_sum(seq![v]) == v,
        abs_sum(seq![v]) == iabs(v),
        seq![v].to_multiset() == Multiset::<int>::empty().insert(v),
{
    broadcast use vstd::seq_lib::group_to_multiset_ensures;

    assert(seq![v].drop_first() =~= Seq::<int>::empty());
    assert(seq_sum(Seq::<int>::empty()) == 0);
    assert(abs_sum(Seq::<int>::empty()) == 0);
    assert(seq![v] =~= Seq::<int>::empty().push(v));
    assert(seq![v].to_multiset() =~= Multiset::<int>::empty().insert(v));
}

/// A quota that the right part covers: the top sum of the whole concatenation
/// is the top sum of the right part.
pub proof fn lemma_top_sum_right(l: Seq<int>, v: int, r: Seq<int>, n: int)
    requires
        0 < n <= r.len(),
    ensures
        top_sum(l + seq![v] + r, n) == top_sum(r, n),
{
    let s = l + seq![v] + r;
    assert(s.subrange(s.len() - n, s.len() as int) =~= r.subrange(r.len() - n, r.len() as int));
    if n == r.len() {
        assert(r.subrange(r.len() - n, r.len() as int) =~= r);
    }
}

/// A quota that exceeds the right part: the top sum takes all of the right
/// part, the middle element, and the remaining quota from the left part.
pub proof fn lemma_top_sum_mid(l: Seq<int>, v: int, r: Seq<int>, n: int)
    requires
        r.len() < n <= l.len() + 1 + r.len(),
    ensures
        top_sum(l + seq![v] + r, n) == top_sum(l, n - r.len() - 1) + v + seq_sum(r),
{
    let s = l + seq![v] + r;
    let m = n - r.len() - 1;
    lemma_parts(l, v, r);
    assert(seq_sum(Seq::<int>::empty()) == 0);
    if n == s.len() {
        assert(m == l.len());
    } else {
        let piece = l.subrange(l.len() - m, l.len() as int);
        assert(s.subrange(s.len() - n, s.len() as int) =~= piece + seq![v] + r);
        lemma_parts(piece, v, r);
        if m == 0 {
            assert(piece =~= Seq::<int>::empty());
        } else if m == l.len() {
            assert(piece =~= l);
        }
    }
}

/// Membership in a concatenation around a single middle element.
pub proof fn lemma_concat_contains(l: Seq<int>, v: int, r: Seq<int>, x: int)
    ensures
        (l + seq![v] + r).contains(x) <==> (l.contains(x) || x == v || r.contains(x)),
{
    let s = l + seq![v] + r;
    if l.contains(x) {
        let i = choose|i: int| 0 <= i < l.len() && l[i] == x;
        assert(s[i] == x);
    }
    if x == v {
        assert(s[l.len() as int] == x);
    }
    if r.contains(x) {
        let i = choose|i: int| 0 <= i < r.len() && r[i] == x;
        assert(s[l.len() + 1 + i] == x);
    }
    if s.contains(x) {
        let i = choose|i: int| 0 <= i < s.len() && s[i] == x;
        if i < l.len() {
            assert(l[i] == x);
        } else if i > l.len() {
            assert(r[i - l.len() - 1] == x);
        }
    }
}

} // verus!
