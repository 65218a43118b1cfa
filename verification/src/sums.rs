use vstd::prelude::*;
use vstd::seq_lib::{to_multiset_contains, to_multiset_len, to_multiset_remove};

verus! {

/// `f(s[0]) + f(s[1]) + ... + f(s[len - 1])`.
pub open spec fn sum_of<T>(s: Seq<T>, f: spec_fn(T) -> int) -> int
    decreases s.len(),
{
    if s.len() == 0 {
        0
    } else {
        sum_of(s.drop_last(), f) + f(s.last())
    }
}

/// A sum over two pieces is the sum of the sums of the pieces.
pub proof fn lemma_sum_of_append<T>(a: Seq<T>, b: Seq<T>, f: spec_fn(T) -> int)
    ensures
        sum_of(a + b, f) == sum_of(a, f) + sum_of(b, f),
    decreases b.len(),
{
    if b.len() == 0 {
        assert(a + b =~= a);
    } else {
        assert((a + b).drop_last() =~= a + b.drop_last());
        assert((a + b).last() == b.last());
        lemma_sum_of_append(a, b.drop_last(), f);
    }
}

/// Taking out one element takes its term out of the sum.
pub proof fn lemma_sum_of_remove<T>(s: Seq<T>, i: int, f: spec_fn(T) -> int)
    requires
        0 <= i < s.len(),
    ensures
        sum_of(s, f) == sum_of(s.remove(i), f) + f(s[i]),
{
    let pre = s.take(i);
    let post = s.skip(i + 1);
    assert(s =~= pre + seq![s[i]] + post);
    assert(s.remove(i) =~= pre + post);
    lemma_sum_of_append(pre + seq![s[i]], post, f);
    lemma_sum_of_append(pre, seq![s[i]], f);
    lemma_sum_of_append(pre, post, f);
    let one = seq![s[i]];
    assert(one.drop_last() =~= Seq::<T>::empty());
    assert(sum_of(one, f) == sum_of(one.drop_last(), f) + f(one.last()));
    assert(sum_of(one, f) == f(s[i]));
    assert(sum_of(s, f) == sum_of(pre + one + post, f));
    assert(sum_of(s.remove(i), f) == sum_of(pre + post, f));
}

/// A sum does not depend on the order of its terms.
pub proof fn lemma_sum_of_permutation<T>(s1: Seq<T>, s2: Seq<T>, f: spec_fn(T) -> int)
    requires
        s1.to_multiset() == s2.to_multiset(),
    ensures
        sum_of(s1, f) == sum_of(s2, f),
    decreases s1.len(),
{
    to_multiset_len(s1);
    to_multiset_len(s2);
    if s1.len() > 0 {
        let x = s1.last();
        let pre = s1.drop_last();
        assert(s1.remove(s1.len() - 1) =~= pre);
        to_multiset_remove(s1, s1.len() - 1);
        to_multiset_contains(s1, x);
        assert(s1.contains(x)) by {
            assert(s1[s1.len() - 1] == x);
        }
        to_multiset_contains(s2, x);
        let j = choose|j: int| 0 <= j < s2.len() && s2[j] == x;
        to_multiset_remove(s2, j);
        lemma_sum_of_permutation(pre, s2.remove(j), f);
        lemma_sum_of_remove(s2, j, f);
    }
}

/// Sequences with the same elements hold the same elements.
pub proof fn lemma_permutation_contains<T>(s1: Seq<T>, s2: Seq<T>, x: T)
    requires
        s1.to_multiset() == s2.to_multiset(),
    ensures
        s1.contains(x) == s2.contains(x),
{
    to_multiset_contains(s1, x);
    to_multiset_contains(s2, x);
}

/// A column of `u64` counts never sums to a negative number.
pub proof fn lemma_sum_of_nonneg_u64_column<T>(rows: Seq<(T, u64)>)
    ensures
        sum_of(rows, |row: (T, u64)| row.1 as int) >= 0,
    decreases rows.len(),
{
    if rows.len() > 0 {
        lemma_sum_of_nonneg_u64_column(rows.drop_last());
    }
}

} // verus!
