//! Block ranges and how many times a sequence of ranges covers each block.
//!
//! An inclusive range `(start, end)` covers every block `b` with
//! `start <= b <= end`; a range with `start > end` covers nothing.
use vstd::prelude::*;

verus! {

broadcast use vstd::seq::group_seq_axioms, vstd::seq_lib::group_seq_properties,
    vstd::multiset::group_multiset_axioms;

/// Whether the inclusive range `r` holds block `b`.
pub open spec fn holds(r: (u64, u64), b: int) -> bool {
    r.0 <= b <= r.1
}

/// `1` for a range holding `b`, `0` otherwise.
pub open spec fn hit(b: int) -> spec_fn((u64, u64)) -> int {
    |r: (u64, u64)| if holds(r, b) { 1int } else { 0int }
}

/// Sum of `f` over the ranges of `s`.
pub open spec fn sum_over(s: Seq<(u64, u64)>, f: spec_fn((u64, u64)) -> int) -> int
    decreases s.len(),
{
    if s.len() == 0 {
        0
    } else {
        sum_over(s.drop_last(), f) + f(s.last())
    }
}

/// Number of ranges in `s` that hold block `b`.
pub open spec fn blocks_hit(s: Seq<(u64, u64)>, b: int) -> int {
    sum_over(s, hit(b))
}

/// `s` holds every block of `from..=to` exactly once, and no other block.
pub open spec fn partitions(s: Seq<(u64, u64)>, from: int, to: int) -> bool {
    forall|b: int| #[trigger] blocks_hit(s, b) == if from <= b <= to { 1int } else { 0int }
}

pub proof fn lemma_sum_concat(a: Seq<(u64, u64)>, b: Seq<(u64, u64)>, f: spec_fn((u64, u64)) -> int)
    ensures
        sum_over(a + b, f) == sum_over(a, f) + sum_over(b, f),
    decreases b.len(),
{
    if b.len() == 0 {
        assert(a + b =~= a);
    } else {
        assert((a + b).drop_last() =~= a + b.drop_last());
        lemma_sum_concat(a, b.drop_last(), f);
    }
}

pub proof fn lemma_sum_single(x: (u64, u64), f: spec_fn((u64, u64)) -> int)
    ensures
        sum_over(seq![x], f) == f(x),
{
    assert(seq![x].drop_last() =~= Seq::<(u64, u64)>::empty());
    assert(sum_over(Seq::<(u64, u64)>::empty(), f) == 0);
}

pub proof fn lemma_sum_remove(s: Seq<(u64, u64)>, j: int, f: spec_fn((u64, u64)) -> int)
    requires
        0 <= j < s.len(),
    ensures
        sum_over(s, f) == sum_over(s.remove(j), f) + f(s[j]),
    decreases s.len(),
{
    if j == s.len() - 1 {
        assert(s.remove(j) =~= s.drop_last());
    } else {
        assert(s.remove(j).drop_last() =~= s.drop_last().remove(j));
        assert(s.remove(j).last() == s.last());
        lemma_sum_remove(s.drop_last(), j, f);
    }
}

/// Sums do not depend on the order of the ranges.
pub proof fn lemma_sum_permutation(a: Seq<(u64, u64)>, b: Seq<(u64, u64)>, f: spec_fn((u64, u64)) -> int)
    requires
        a.to_multiset() == b.to_multiset(),
    ensures
        sum_over(a, f) == sum_over(b, f),
    decreases a.len(),
{
    broadcast use vstd::seq_lib::group_to_multiset_ensures;

    if a.len() == 0 {
        assert(b.to_multiset().len() == 0);
    } else {
        let x = a.last();
        assert(a.drop_last().push(x) =~= a);
        assert(a.to_multiset().count(x) > 0);
        assert(b.contains(x));
        let j = b.index_of(x);
        assert(b.remove(j).to_multiset() =~= b.to_multiset().remove(x));
        assert(a.drop_last().to_multiset() =~= a.to_multiset().remove(x));
        lemma_sum_permutation(a.drop_last(), b.remove(j), f);
        lemma_sum_remove(b, j, f);
    }
}

/// A sum of values that are never negative is never negative.
pub proof fn lemma_sum_nonneg(s: Seq<(u64, u64)>, f: spec_fn((u64, u64)) -> int)
    requires
        forall|r: (u64, u64)| #[trigger] f(r) >= 0,
    ensures
        sum_over(s, f) >= 0,
    decreases s.len(),
{
    if s.len() > 0 {
        lemma_sum_nonneg(s.drop_last(), f);
    }
}

/// Every range of a sequence adds its own value to the sum.
pub proof fn lemma_sum_at_least_element(s: Seq<(u64, u64)>, j: int, f: spec_fn((u64, u64)) -> int)
    requires
        0 <= j < s.len(),
        forall|r: (u64, u64)| #[trigger] f(r) >= 0,
    ensures
        sum_over(s, f) >= f(s[j]),
{
    lemma_sum_remove(s, j, f);
    lemma_sum_nonneg(s.remove(j), f);
}

} // verus!
