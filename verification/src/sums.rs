//! Sums over lists, and why the order of a list does not matter to them.

use vstd::prelude::*;
use vstd::seq_lib::to_multiset_contains;
use vstd::seq_lib::to_multiset_len;
use vstd::seq_lib::to_multiset_remove;

verus! {

/// The sum of the weights of the items.
pub open spec fn sum_of<T>(items: Seq<T>, weight: spec_fn(T) -> nat) -> nat
    decreases items.len(),
{
    if items.len() == 0 {
        0
    } else {
        sum_of(items.drop_last(), weight) + weight(items.last())
    }
}

/// Taking one item out lowers the sum by its weight.
pub proof fn lemma_sum_of_remove<T>(items: Seq<T>, weight: spec_fn(T) -> nat, i: int)
    requires
        0 <= i < items.len(),
    ensures
        sum_of(items, weight) == sum_of(items.remove(i), weight) + weight(items[i]),
    decreases items.len(),
{
    if i == items.len() - 1 {
        assert(items.remove(i) =~= items.drop_last());
    } else {
        lemma_sum_of_remove(items.drop_last(), weight, i);
        assert(items.remove(i).drop_last() =~= items.drop_last().remove(i));
        assert(items.remove(i).last() == items.last());
    }
}

/// Two lists that hold the same items, each as often, have the same sum.
pub proof fn lemma_sum_of_permutation<T>(a: Seq<T>, b: Seq<T>, weight: spec_fn(T) -> nat)
    requires
        a.to_multiset() == b.to_multiset(),
    ensures
        sum_of(a, weight) == sum_of(b, weight),
    decreases a.len(),
{
    to_multiset_len(a);
    to_multiset_len(b);
    if a.len() > 0 {
        let x = a.last();
        assert(a.contains(a[a.len() - 1]));
        to_multiset_contains(a, x);
        to_multiset_contains(b, x);
        let i = choose|i: int| 0 <= i < b.len() && b[i] == x;
        to_multiset_remove(a, a.len() - 1);
        to_multiset_remove(b, i);
        assert(a.remove(a.len() - 1) =~= a.drop_last());
        lemma_sum_of_permutation(a.drop_last(), b.remove(i), weight);
        lemma_sum_of_remove(b, weight, i);
    }
}

} // verus!
