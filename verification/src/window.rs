//! The sliding-window computation: over every window of length `l` of an
//! input sequence, the window's sum minus the sum of its `k` greatest values,
//! minimized over all window positions. The multiset of the current window is
//! kept in a treap, one removal and one insertion per slide.

use vstd::prelude::*;

use crate::seqs::{
    abs_sum, iabs, int_min, ints, lemma_abs_sum_concat, lemma_abs_sum_nonneg,
    lemma_abs_sum_subrange, lemma_seq_sum_abs, lemma_seq_sum_concat, lemma_seq_sum_perm,
    lemma_singleton, lemma_sorted_ms_unique, seq_sum, sorted, top_sum,
};
use crate::treap::Treap;

verus! {

/// The cost of one window: its sum minus the sum of its `k` greatest values.
pub open spec fn window_cost(w: Seq<int>, k: int) -> int {
    seq_sum(w) - top_sum(w.sort(), k)
}

/// The least window cost over the windows of length `l` that start at
/// positions `0 ..= m` of `s`.
pub open spec fn min_cost_through(s: Seq<int>, l: int, k: int, m: int) -> int
    decreases m,
{
    if m <= 0 {
        window_cost(s.subrange(0, l), k)
    } else {
        int_min(min_cost_through(s, l, k, m - 1), window_cost(s.subrange(m, m + l), k))
    }
}

/// What a treap holding the window's multiset reports: its stored sequence is
/// the sorted window, its sum is the window's sum, and the difference of the
/// two aggregate queries is exactly the window's cost and fits the value type.
proof fn lemma_cost_eval(tseq: Seq<int>, w: Seq<int>, k: int)
    requires
        sorted(tseq),
        tseq.to_multiset() == w.to_multiset(),
    ensures
        tseq == w.sort(),
        seq_sum(tseq) == seq_sum(w),
        top_sum(tseq, k) == top_sum(w.sort(), k),
        seq_sum(tseq) - top_sum(tseq, k) == window_cost(w, k),
        -abs_sum(tseq) <= seq_sum(tseq) - top_sum(tseq, k) <= abs_sum(tseq),
{
    w.lemma_sort_ensures();
    assert(sorted(w.sort())) by {
        let le = |x: int, y: int| x <= y;
        assert forall|i: int, j: int| 0 <= i <= j < w.sort().len() implies w.sort()[i]
            <= w.sort()[j] by {
            if i < j {
                assert(le(w.sort()[i], w.sort()[j]));
            }
        }
    }
    lemma_sorted_ms_unique(tseq, w.sort());
    lemma_seq_sum_perm(tseq, w);
    let len = tseq.len() as int;
    lemma_abs_sum_nonneg(tseq);
    lemma_seq_sum_abs(tseq);
    if k <= 0 {
    } else if k >= len {
    } else {
        let pre = tseq.subrange(0, len - k);
        let suf = tseq.subrange(len - k, len);
        assert(tseq =~= pre + suf);
        lemma_seq_sum_concat(pre, suf);
        lemma_seq_sum_abs(pre);
        lemma_abs_sum_subrange(tseq, 0, len - k);
    }
}

/// The multiset of the next window: one occurrence of the leaving value out,
/// one of the entering value in; and its absolute sum, for bounds.
proof fn lemma_window_slide(s: Seq<int>, j: int, l: int)
    requires
        0 <= j,
        1 <= l,
        j + l < s.len(),
    ensures
        s.subrange(j + 1, j + 1 + l).to_multiset() == s.subrange(j, j + l).to_multiset().remove(
            s[j],
        ).insert(s[j + l]),
        abs_sum(s.subrange(j + 1, j + 1 + l)) == abs_sum(s.subrange(j, j + l)) - iabs(s[j]) + iabs(
            s[j + l],
        ),
{
    broadcast use vstd::seq_lib::group_to_multiset_ensures;
    broadcast use vstd::multiset::group_multiset_axioms;

    let w0 = s.subrange(j, j + l);
    let w1 = s.subrange(j + 1, j + 1 + l);
    let mid = s.subrange(j + 1, j + l);
    assert(w0 =~= seq![s[j]] + mid);
    assert(w1 =~= mid.push(s[j + l]));
    vstd::seq_lib::lemma_multiset_commutative(seq![s[j]], mid);
    lemma_singleton(s[j]);
    assert(w1.to_multiset() =~= w0.to_multiset().remove(s[j]).insert(s[j + l]));
    lemma_abs_sum_concat(seq![s[j]], mid);
    assert(w1 =~= mid + seq![s[j + l]]);
    lemma_abs_sum_concat(mid, seq![s[j + l]]);
    lemma_singleton(s[j + l]);
}

/// Reads three parameters and a value sequence, keeps the multiset of the
/// current length-`l` window in a treap, and returns the least value of
/// `window sum - sum of the k greatest window values` over all windows.
///
/// The absolute-sum premise is what lets every aggregate of every window fit
/// the value type.
pub fn min_window_cost(values: &Vec<i64>, l: usize, k: usize) -> (r: i64)
    requires
        1 <= l <= values.len(),
        abs_sum(ints(values@)) <= i64::MAX as int,
    ensures
        r as int == min_cost_through(
            ints(values@),
            l as int,
            k as int,
            values.len() - l as int,
        ),
{
    let ghost s = ints(values@);
    let n = values.len();
    let mut t = Treap::new();
    proof {
        assert(ints(values@).subrange(0, 0) =~= Seq::<int>::empty());
        assert(t@.to_multiset() =~= Seq::<int>::empty().to_multiset());
        assert(abs_sum(Seq::<int>::empty()) == 0);
    }
    let mut i: usize = 0;
    while i < l
        invariant
            0 <= i <= l <= n == values.len(),
            s == ints(values@),
            abs_sum(s) <= i64::MAX as int,
            t.wf(),
            t@.len() == i as int,
            t@.to_multiset() == s.subrange(0, i as int).to_multiset(),
            abs_sum(t@) == abs_sum(s.subrange(0, i as int)),
        decreases l - i,
    {
        proof {
            broadcast use vstd::seq_lib::group_to_multiset_ensures;

            let pre = s.subrange(0, i as int);
            let ext = s.subrange(0, i + 1 as int);
            assert(ext =~= pre.push(s[i as int]));
            assert(ext =~= pre + seq![s[i as int]]);
            lemma_abs_sum_concat(pre, seq![s[i as int]]);
            lemma_singleton(s[i as int]);
            lemma_abs_sum_subrange(s, 0, i + 1 as int);
            lemma_abs_sum_nonneg(seq![s[i as int]]);
            assert(s[i as int] == values@[i as int] as int);
        }
        t.insert_value(values[i]);
        i = i + 1;
    }
    let ghost w0 = s.subrange(0, l as int);
    proof {
        assert(s.subrange(0, i as int) == w0);
        lemma_abs_sum_subrange(s, 0, l as int);
        lemma_treap_cost_setup(t, w0, k as int);
    }
    let total = t.sum();
    let greatest = t.sum_of_n_greatest(k);
    let mut best = total - greatest;
    proof {
        assert(min_cost_through(s, l as int, k as int, 0) == window_cost(w0, k as int));
    }
    let mut j: usize = 0;
    while j < n - l
        invariant
            0 <= j <= n - l,
            1 <= l <= n == values.len(),
            s == ints(values@),
            abs_sum(s) <= i64::MAX as int,
            t.wf(),
            t@.len() == l as int,
            t@.to_multiset() == s.subrange(j as int, j + l as int).to_multiset(),
            abs_sum(t@) == abs_sum(s.subrange(j as int, j + l as int)),
            best as int == min_cost_through(s, l as int, k as int, j as int),
        decreases n - l - j,
    {
        let ghost wj = s.subrange(j as int, j + l as int);
        let ghost wj1 = s.subrange(j + 1 as int, j + 1 + l as int);
        let leaving = values[j];
        let entering = values[j + l];
        proof {
            broadcast use vstd::seq_lib::group_to_multiset_ensures;

            assert(s[j as int] == leaving as int);
            assert(s[j + l as int] == entering as int);
            lemma_window_slide(s, j as int, l as int);
            assert(wj[0] == leaving as int);
            assert(wj.contains(leaving as int));
            assert(t@.to_multiset().count(leaving as int) > 0);
            assert(t@.contains(leaving as int));
            lemma_abs_sum_subrange(s, j + 1 as int, j + 1 + l as int);
        }
        t.remove_value(leaving);
        proof {
            lemma_abs_sum_nonneg(t@);
            assert(abs_sum(t@) + iabs(entering as int) == abs_sum(wj1));
            assert(abs_sum(wj1) <= abs_sum(s));
        }
        t.insert_value(entering);
        proof {
            lemma_treap_cost_setup(t, wj1, k as int);
        }
        let total2 = t.sum();
        let greatest2 = t.sum_of_n_greatest(k);
        let c = total2 - greatest2;
        if c < best {
            best = c;
        }
        j = j + 1;
        proof {
            assert(min_cost_through(s, l as int, k as int, j as int) == int_min(
                min_cost_through(s, l as int, k as int, j - 1),
                window_cost(wj1, k as int),
            ));
        }
    }
    best
}

/// Sortedness of a well-formed treap's sequence, then the cost evaluation.
proof fn lemma_treap_cost_setup(t: Treap, w: Seq<int>, k: int)
    requires
        t.wf(),
        t@.to_multiset() == w.to_multiset(),
    ensures
        seq_sum(t@) == seq_sum(w),
        top_sum(t@, k) == top_sum(w.sort(), k),
        seq_sum(t@) - top_sum(t@, k) == window_cost(w, k),
        -abs_sum(t@) <= seq_sum(t@) - top_sum(t@, k) <= abs_sum(t@),
{
    crate::treap::lemma_treap_sorted(t);
    lemma_cost_eval(t@, w, k);
}

} // verus!
