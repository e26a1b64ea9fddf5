//! Stable sorting by key.
//!
//! The order of a list of keys is a list of positions: position `i` comes before
//! position `j` when its key comes first in the chosen direction, and, where the
//! two keys are the same, when `i < j`. Sorting a list of items arranges them
//! by the order of their keys.

use vstd::prelude::*;
use vstd::multiset::Multiset;
use vstd::seq_lib::lemma_multiset_commutative;
use vstd::seq_lib::to_multiset_build;
use vstd::seq_lib::to_multiset_contains;
use vstd::seq_lib::to_multiset_len;
use vstd::seq_lib::to_multiset_remove;
use crate::order::directed_le;
use crate::order::key_standing;
use crate::order::lemma_key_le_total_order;
use crate::order::KeyView;
use crate::order::SortKey;
use crate::order::Standing;

verus! {

/// Position `i` sorts before position `j`.
pub open spec fn precedes(keys: Seq<KeyView>, descending: bool, i: int, j: int) -> bool {
    if keys[i] == keys[j] {
        i < j
    } else {
        directed_le(keys[i], keys[j], descending)
    }
}

/// Every position of `order` sorts before the positions that follow it.
pub open spec fn strictly_ordered(order: Seq<int>, keys: Seq<KeyView>, descending: bool) -> bool {
    forall|a: int, b: int|
        0 <= a < b < order.len() ==> precedes(keys, descending, #[trigger] order[a], #[trigger] order[b])
}

/// `order` with position `x` put where it belongs.
pub open spec fn insert_index(order: Seq<int>, keys: Seq<KeyView>, descending: bool, x: int) -> Seq<int>
    decreases order.len(),
{
    if order.len() == 0 {
        seq![x]
    } else if precedes(keys, descending, order.last(), x) {
        order.push(x)
    } else {
        insert_index(order.drop_last(), keys, descending, x).push(order.last())
    }
}

/// The first `n` positions in sorted order.
pub open spec fn order_of_first(keys: Seq<KeyView>, descending: bool, n: nat) -> Seq<int>
    decreases n,
{
    if n == 0 {
        Seq::empty()
    } else {
        insert_index(order_of_first(keys, descending, (n - 1) as nat), keys, descending, n - 1)
    }
}

/// All positions of `keys` in sorted order.
pub open spec fn stable_order(keys: Seq<KeyView>, descending: bool) -> Seq<int> {
    order_of_first(keys, descending, keys.len())
}

/// The items at the positions that `order` lists.
pub open spec fn arrange<T>(items: Seq<T>, order: Seq<int>) -> Seq<T> {
    Seq::new(order.len(), |k: int| items[order[k]])
}

/// A list of positions as integers.
pub open spec fn as_ints(positions: Seq<usize>) -> Seq<int> {
    Seq::new(positions.len(), |k: int| positions[k] as int)
}

/// The positions `lo, lo + 1, .., hi - 1`.
pub open spec fn positions(lo: int, hi: int) -> Seq<int> {
    Seq::new((hi - lo) as nat, |k: int| lo + k)
}

/// `precedes` is a strict total order on positions.
pub proof fn lemma_precedes_strict_order(keys: Seq<KeyView>, descending: bool, i: int, j: int, k: int)
    ensures
        !precedes(keys, descending, i, i),
        i != j ==> (precedes(keys, descending, i, j) <==> !precedes(keys, descending, j, i)),
        precedes(keys, descending, i, j) && precedes(keys, descending, j, k) ==> precedes(
            keys,
            descending,
            i,
            k,
        ),
{
    lemma_key_le_total_order(keys[i], keys[j], keys[k]);
    lemma_key_le_total_order(keys[k], keys[j], keys[i]);
    lemma_key_le_total_order(keys[j], keys[k], keys[i]);
    lemma_key_le_total_order(keys[j], keys[i], keys[k]);
    lemma_key_le_total_order(keys[i], keys[k], keys[j]);
    lemma_key_le_total_order(keys[k], keys[i], keys[j]);
}

/// Inserting a new position keeps the order strict and adds just that position.
pub proof fn lemma_insert_index(order: Seq<int>, keys: Seq<KeyView>, descending: bool, x: int)
    requires
        strictly_ordered(order, keys, descending),
        !order.contains(x),
    ensures
        strictly_ordered(insert_index(order, keys, descending, x), keys, descending),
        insert_index(order, keys, descending, x).len() == order.len() + 1,
        forall|y: int|
            #![trigger insert_index(order, keys, descending, x).contains(y)]
            #![trigger order.contains(y)]
            insert_index(order, keys, descending, x).contains(y) <==> (y == x || order.contains(y)),
    decreases order.len(),
{
    let result = insert_index(order, keys, descending, x);
    if order.len() == 0 {
        assert(result[0] == x);
    } else if precedes(keys, descending, order.last(), x) {
        assert forall|a: int, b: int| 0 <= a < b < result.len() implies precedes(
            keys,
            descending,
            #[trigger] result[a],
            #[trigger] result[b],
        ) by {
            if b == order.len() {
                if a < order.len() - 1 {
                    assert(precedes(keys, descending, order[a], order[order.len() - 1]));
                    lemma_precedes_strict_order(keys, descending, order[a], order.last(), x);
                }
            } else {
                assert(precedes(keys, descending, order[a], order[b]));
            }
        }
        assert forall|y: int| result.contains(y) <==> (y == x || order.contains(y)) by {
            if result.contains(y) {
                let k = choose|k: int| 0 <= k < result.len() && result[k] == y;
                if k < order.len() {
                    assert(order[k] == y);
                }
            }
            if y == x {
                assert(result[order.len() as int] == x);
            }
            if order.contains(y) {
                let k = choose|k: int| 0 <= k < order.len() && order[k] == y;
                assert(result[k] == y);
            }
        }
    } else {
        let init = order.drop_last();
        let last = order.last();
        assert(strictly_ordered(init, keys, descending)) by {
            assert forall|a: int, b: int| 0 <= a < b < init.len() implies precedes(
                keys,
                descending,
                #[trigger] init[a],
                #[trigger] init[b],
            ) by {
                assert(precedes(keys, descending, order[a], order[b]));
            }
        }
        assert(!init.contains(x)) by {
            if init.contains(x) {
                let k = choose|k: int| 0 <= k < init.len() && init[k] == x;
                assert(order[k] == x);
            }
        }
        lemma_insert_index(init, keys, descending, x);
        let inner = insert_index(init, keys, descending, x);
        assert(order[order.len() - 1] == last);
        assert(last != x);
        lemma_precedes_strict_order(keys, descending, last, x, x);
        assert forall|a: int, b: int| 0 <= a < b < result.len() implies precedes(
            keys,
            descending,
            #[trigger] result[a],
            #[trigger] result[b],
        ) by {
            if b == inner.len() {
                assert(inner.contains(inner[a]));
                if inner[a] != x {
                    assert(init.contains(inner[a]));
                    let k = choose|k: int| 0 <= k < init.len() && init[k] == inner[a];
                    assert(precedes(keys, descending, order[k], order[order.len() - 1]));
                }
            } else {
                assert(precedes(keys, descending, inner[a], inner[b]));
            }
        }
        assert forall|y: int| result.contains(y) <==> (y == x || order.contains(y)) by {
            if result.contains(y) {
                let k = choose|k: int| 0 <= k < result.len() && result[k] == y;
                if k < inner.len() {
                    assert(inner.contains(y));
                    if y != x {
                        let m = choose|m: int| 0 <= m < init.len() && init[m] == y;
                        assert(order[m] == y);
                    }
                }
            }
            if y == x {
                assert(inner.contains(x));
                let k = choose|k: int| 0 <= k < inner.len() && inner[k] == x;
                assert(result[k] == x);
            }
            if order.contains(y) {
                let k = choose|k: int| 0 <= k < order.len() && order[k] == y;
                if k < init.len() {
                    assert(init[k] == y);
                    assert(inner.contains(y));
                    let m = choose|m: int| 0 <= m < inner.len() && inner[m] == y;
                    assert(result[m] == y);
                } else {
                    assert(result[inner.len() as int] == y);
                }
            }
        }
    }
}

/// The sorted order of the first `n` positions is strict and holds each of them once.
pub proof fn lemma_order_of_first(keys: Seq<KeyView>, descending: bool, n: nat)
    ensures
        strictly_ordered(order_of_first(keys, descending, n), keys, descending),
        order_of_first(keys, descending, n).len() == n,
        forall|y: int| #[trigger] order_of_first(keys, descending, n).contains(y) <==> 0 <= y < n,
    decreases n,
{
    if n > 0 {
        let before = order_of_first(keys, descending, (n - 1) as nat);
        lemma_order_of_first(keys, descending, (n - 1) as nat);
        assert(!before.contains(n - 1));
        lemma_insert_index(before, keys, descending, n - 1);
        let result = order_of_first(keys, descending, n);
        assert forall|y: int| #[trigger] result.contains(y) <==> 0 <= y < n by {
            assert(before.contains(y) <==> 0 <= y < n - 1);
        }
    } else {
        let result = order_of_first(keys, descending, n);
        assert forall|y: int| !(#[trigger] result.contains(y)) by {
            if result.contains(y) {
                let k = choose|k: int| 0 <= k < result.len() && result[k] == y;
            }
        }
    }
}

/// The empty list holds nothing.
proof fn lemma_empty_to_multiset()
    ensures
        Seq::<int>::empty().to_multiset() =~= Multiset::<int>::empty(),
{
    broadcast use vstd::multiset::group_multiset_axioms;

    let s = Seq::<int>::empty();
    assert forall|y: int| s.to_multiset().count(y) == 0 by {
        to_multiset_contains(s, y);
        if s.contains(y) {
            let k = choose|k: int| 0 <= k < s.len() && s[k] == y;
        }
    }
}

/// Two strict orders over the same positions are the same list.
pub proof fn lemma_strict_order_unique(p: Seq<int>, q: Seq<int>, keys: Seq<KeyView>, descending: bool)
    requires
        strictly_ordered(p, keys, descending),
        strictly_ordered(q, keys, descending),
        forall|y: int| #![trigger p.contains(y)] #![trigger q.contains(y)] p.contains(y) <==> q.contains(y),
    ensures
        p == q,
    decreases p.len(),
{
    if p.len() == 0 {
        if q.len() > 0 {
            assert(q.contains(q[0]));
        }
        assert(p =~= q);
    } else {
        let top = p.last();
        assert(p.contains(p[p.len() - 1]));
        assert(q.contains(top));
        let j = choose|j: int| 0 <= j < q.len() && q[j] == top;
        if j < q.len() - 1 {
            let other = q[q.len() - 1];
            assert(precedes(keys, descending, q[j], q[q.len() - 1]));
            assert(q.contains(other));
            let i = choose|i: int| 0 <= i < p.len() && p[i] == other;
            lemma_precedes_strict_order(keys, descending, top, other, top);
            if i < p.len() - 1 {
                assert(precedes(keys, descending, p[i], p[p.len() - 1]));
            }
        }
        let p_rest = p.drop_last();
        let q_rest = q.drop_last();
        assert(strictly_ordered(p_rest, keys, descending)) by {
            assert forall|a: int, b: int| 0 <= a < b < p_rest.len() implies precedes(
                keys,
                descending,
                #[trigger] p_rest[a],
                #[trigger] p_rest[b],
            ) by {
                assert(precedes(keys, descending, p[a], p[b]));
            }
        }
        assert(strictly_ordered(q_rest, keys, descending)) by {
            assert forall|a: int, b: int| 0 <= a < b < q_rest.len() implies precedes(
                keys,
                descending,
                #[trigger] q_rest[a],
                #[trigger] q_rest[b],
            ) by {
                assert(precedes(keys, descending, q[a], q[b]));
            }
        }
        assert forall|y: int| p_rest.contains(y) <==> q_rest.contains(y) by {
            if p_rest.contains(y) {
                let k = choose|k: int| 0 <= k < p_rest.len() && p_rest[k] == y;
                assert(precedes(keys, descending, p[k], p[p.len() - 1]));
                lemma_precedes_strict_order(keys, descending, y, y, y);
                assert(p.contains(p[k]));
                let m = choose|m: int| 0 <= m < q.len() && q[m] == y;
                assert(q_rest[m] == y);
            }
            if q_rest.contains(y) {
                let k = choose|k: int| 0 <= k < q_rest.len() && q_rest[k] == y;
                assert(precedes(keys, descending, q[k], q[q.len() - 1]));
                lemma_precedes_strict_order(keys, descending, y, y, y);
                assert(q.contains(q[k]));
                let m = choose|m: int| 0 <= m < p.len() && p[m] == y;
                assert(p_rest[m] == y);
            }
        }
        lemma_strict_order_unique(p_rest, q_rest, keys, descending);
        assert(p =~= p_rest.push(top));
        assert(q =~= q_rest.push(top));
    }
}

/// Every list of keys in sorted order: no key before one that comes first in
/// the chosen direction.
pub open spec fn keys_ordered(keys: Seq<KeyView>, descending: bool) -> bool {
    forall|a: int, b: int|
        0 <= a < b < keys.len() ==> directed_le(#[trigger] keys[a], #[trigger] keys[b], descending)
}

/// The sorted order lists every position once, keys in the chosen direction,
/// and positions of the same key in their own order.
pub proof fn lemma_stable_order(keys: Seq<KeyView>, descending: bool)
    ensures
        stable_order(keys, descending).len() == keys.len(),
        forall|y: int| #[trigger] stable_order(keys, descending).contains(y) <==> 0 <= y < keys.len(),
        forall|a: int, b: int|
            #![trigger stable_order(keys, descending)[a], stable_order(keys, descending)[b]]
            0 <= a < b < keys.len() ==> {
                let i = stable_order(keys, descending)[a];
                let j = stable_order(keys, descending)[b];
                &&& i != j
                &&& directed_le(keys[i], keys[j], descending)
                &&& keys[i] == keys[j] ==> i < j
            },
        keys_ordered(arrange(keys, stable_order(keys, descending)), descending),
{
    let order = stable_order(keys, descending);
    lemma_order_of_first(keys, descending, keys.len());
    assert forall|a: int, b: int| 0 <= a < b < keys.len() implies {
        let i = #[trigger] order[a];
        let j = #[trigger] order[b];
        &&& i != j
        &&& directed_le(keys[i], keys[j], descending)
        &&& keys[i] == keys[j] ==> i < j
    } by {
        let i = order[a];
        let j = order[b];
        assert(precedes(keys, descending, i, j));
        lemma_key_le_total_order(keys[i], keys[j], keys[i]);
        lemma_precedes_strict_order(keys, descending, i, i, i);
    }
    let sorted = arrange(keys, order);
    assert forall|a: int, b: int| 0 <= a < b < sorted.len() implies directed_le(
        #[trigger] sorted[a],
        #[trigger] sorted[b],
        descending,
    ) by {
        assert(precedes(keys, descending, order[a], order[b]));
        lemma_key_le_total_order(keys[order[a]], keys[order[b]], keys[order[a]]);
    }
}

/// Arranging by a list of positions with one more position adds the item at
/// that position.
proof fn lemma_arrange_insert<T>(items: Seq<T>, order: Seq<int>, keys: Seq<KeyView>, descending: bool, x: int)
    ensures
        arrange(items, insert_index(order, keys, descending, x)).to_multiset() =~= arrange(
            items,
            order,
        ).to_multiset().insert(items[x]),
    decreases order.len(),
{
    broadcast use vstd::multiset::group_multiset_axioms;

    let result = insert_index(order, keys, descending, x);
    if order.len() == 0 || precedes(keys, descending, order.last(), x) {
        assert(result =~= order.push(x));
        assert(arrange(items, result) =~= arrange(items, order).push(items[x]));
        to_multiset_build(arrange(items, order), items[x]);
    } else {
        let init = order.drop_last();
        let inner = insert_index(init, keys, descending, x);
        lemma_arrange_insert(items, init, keys, descending, x);
        assert(arrange(items, result) =~= arrange(items, inner).push(items[order.last()]));
        assert(arrange(items, order) =~= arrange(items, init).push(items[order.last()]));
        to_multiset_build(arrange(items, inner), items[order.last()]);
        to_multiset_build(arrange(items, init), items[order.last()]);
    }
}

/// The first `n` items in sorted order are the first `n` items.
proof fn lemma_arrange_first<T>(items: Seq<T>, keys: Seq<KeyView>, descending: bool, n: nat)
    requires
        n <= items.len(),
    ensures
        arrange(items, order_of_first(keys, descending, n)).to_multiset() =~= items.take(
            n as int,
        ).to_multiset(),
    decreases n,
{
    if n == 0 {
        assert(arrange(items, order_of_first(keys, descending, n)) =~= items.take(0));
    } else {
        let before = order_of_first(keys, descending, (n - 1) as nat);
        lemma_arrange_first(items, keys, descending, (n - 1) as nat);
        lemma_arrange_insert(items, before, keys, descending, n - 1);
        assert(items.take(n as int) =~= items.take(n - 1).push(items[n - 1]));
        to_multiset_build(items.take(n - 1), items[n - 1]);
    }
}

/// Sorting keeps the items: each occurs as often after it as before.
pub proof fn lemma_arrange_keeps_items<T>(items: Seq<T>, keys: Seq<KeyView>, descending: bool)
    requires
        keys.len() == items.len(),
    ensures
        arrange(items, stable_order(keys, descending)).to_multiset() == items.to_multiset(),
{
    lemma_arrange_first(items, keys, descending, items.len());
    assert(items.take(items.len() as int) =~= items);
}

/// Two lists of the same keys, both in sorted order, are the same list.
pub proof fn lemma_ordered_keys_unique(a: Seq<KeyView>, b: Seq<KeyView>, descending: bool)
    requires
        keys_ordered(a, descending),
        keys_ordered(b, descending),
        a.to_multiset() == b.to_multiset(),
    ensures
        a == b,
    decreases a.len(),
{
    to_multiset_len(a);
    to_multiset_len(b);
    if a.len() == 0 {
        assert(a =~= b);
    } else {
        let x = a.last();
        let y = b.last();
        assert(a.contains(a[a.len() - 1]));
        assert(b.contains(b[b.len() - 1]));
        to_multiset_contains(a, x);
        to_multiset_contains(b, x);
        to_multiset_contains(a, y);
        to_multiset_contains(b, y);
        let j = choose|j: int| 0 <= j < b.len() && b[j] == x;
        let i = choose|i: int| 0 <= i < a.len() && a[i] == y;
        lemma_key_le_total_order(x, y, x);
        if j < b.len() - 1 {
            assert(directed_le(b[j], b[b.len() - 1], descending));
        }
        if i < a.len() - 1 {
            assert(directed_le(a[i], a[a.len() - 1], descending));
        }
        assert(x == y);
        to_multiset_remove(a, a.len() - 1);
        to_multiset_remove(b, b.len() - 1);
        assert(a.remove(a.len() - 1) =~= a.drop_last());
        assert(b.remove(b.len() - 1) =~= b.drop_last());
        let a_rest = a.drop_last();
        let b_rest = b.drop_last();
        assert(keys_ordered(a_rest, descending)) by {
            assert forall|m: int, n: int| 0 <= m < n < a_rest.len() implies directed_le(
                #[trigger] a_rest[m],
                #[trigger] a_rest[n],
                descending,
            ) by {
                assert(directed_le(a[m], a[n], descending));
            }
        }
        assert(keys_ordered(b_rest, descending)) by {
            assert forall|m: int, n: int| 0 <= m < n < b_rest.len() implies directed_le(
                #[trigger] b_rest[m],
                #[trigger] b_rest[n],
                descending,
            ) by {
                assert(directed_le(b[m], b[n], descending));
            }
        }
        lemma_ordered_keys_unique(a_rest, b_rest, descending);
        assert(a =~= a_rest.push(x));
        assert(b =~= b_rest.push(y));
    }
}

/// The keys in ascending order, read backwards, are the keys in descending
/// order.
pub proof fn lemma_reversed_keys(keys: Seq<KeyView>)
    ensures
        arrange(keys, stable_order(keys, false)).reverse() == arrange(keys, stable_order(keys, true)),
{
    let up = arrange(keys, stable_order(keys, false));
    let down = arrange(keys, stable_order(keys, true));
    let back = up.reverse();
    lemma_stable_order(keys, false);
    lemma_stable_order(keys, true);
    lemma_arrange_keeps_items(keys, keys, false);
    lemma_arrange_keeps_items(keys, keys, true);
    up.lemma_reverse_to_multiset();
    assert forall|a: int, b: int| 0 <= a < b < back.len() implies directed_le(
        #[trigger] back[a],
        #[trigger] back[b],
        true,
    ) by {
        assert(directed_le(up[up.len() - 1 - b], up[up.len() - 1 - a], false));
    }
    lemma_ordered_keys_unique(back, down, true);
}

/// Where no two keys are the same, the ascending order read backwards is the
/// descending order.
pub proof fn lemma_reversed_order(keys: Seq<KeyView>)
    requires
        forall|i: int, j: int| 0 <= i < j < keys.len() ==> #[trigger] keys[i] != #[trigger] keys[j],
    ensures
        stable_order(keys, false).reverse() == stable_order(keys, true),
{
    let up = stable_order(keys, false);
    let down = stable_order(keys, true);
    let back = up.reverse();
    lemma_order_of_first(keys, false, keys.len());
    lemma_order_of_first(keys, true, keys.len());
    assert forall|a: int, b: int| 0 <= a < b < back.len() implies precedes(
        keys,
        true,
        #[trigger] back[a],
        #[trigger] back[b],
    ) by {
        let i = up[up.len() - 1 - b];
        let j = up[up.len() - 1 - a];
        assert(precedes(keys, false, i, j));
        assert(up.contains(i));
        assert(up.contains(j));
        if i < j {
            assert(keys[i] != keys[j]);
        } else {
            lemma_precedes_strict_order(keys, false, i, i, i);
            assert(keys[j] != keys[i]);
        }
    }
    assert forall|y: int| #![trigger back.contains(y)] #![trigger down.contains(y)] back.contains(y) <==> down.contains(y) by {
        if back.contains(y) {
            let k = choose|k: int| 0 <= k < back.len() && back[k] == y;
            assert(up[up.len() - 1 - k] == y);
            assert(up.contains(y));
        }
        if down.contains(y) {
            assert(up.contains(y));
            let k = choose|k: int| 0 <= k < up.len() && up[k] == y;
            assert(back[up.len() - 1 - k] == y);
        }
    }
    lemma_strict_order_unique(back, down, keys, true);
}

/// Whether position `i` sorts before position `j`.
fn index_precedes(keys: &Vec<SortKey>, descending: bool, i: usize, j: usize) -> (before: bool)
    requires
        i < keys.len(),
        j < keys.len(),
    ensures
        before == precedes(keys.deep_view(), descending, i as int, j as int),
{
    let standing = key_standing(&keys[i], &keys[j]);
    proof {
        lemma_key_le_total_order(keys[i as int]@, keys[j as int]@, keys[i as int]@);
    }
    match standing {
        Standing::Same => i < j,
        Standing::Below => !descending,
        Standing::Above => descending,
    }
}

/// Two strict orders over separate positions, merged into one.
fn merge(keys: &Vec<SortKey>, descending: bool, left: &Vec<usize>, right: &Vec<usize>) -> (out: Vec<usize>)
    requires
        strictly_ordered(as_ints(left@), keys.deep_view(), descending),
        strictly_ordered(as_ints(right@), keys.deep_view(), descending),
        forall|a: int| 0 <= a < left.len() ==> #[trigger] left[a] < keys.len(),
        forall|b: int| 0 <= b < right.len() ==> #[trigger] right[b] < keys.len(),
        forall|a: int, b: int| 0 <= a < left.len() && 0 <= b < right.len() ==> #[trigger] left[a] != #[trigger] right[b],
    ensures
        strictly_ordered(as_ints(out@), keys.deep_view(), descending),
        as_ints(out@).to_multiset() == as_ints(left@).to_multiset().add(as_ints(right@).to_multiset()),
        forall|k: int| 0 <= k < out.len() ==> #[trigger] out[k] < keys.len(),
{
    broadcast use {to_multiset_build, vstd::multiset::group_multiset_axioms};

    let ghost kv = keys.deep_view();
    let ghost l = as_ints(left@);
    let ghost r = as_ints(right@);
    let mut out: Vec<usize> = Vec::new();
    let mut i: usize = 0;
    let mut j: usize = 0;
    proof {
        lemma_empty_to_multiset();
        assert(as_ints(out@) =~= Seq::<int>::empty());
        assert(l.take(0) =~= Seq::<int>::empty());
        assert(r.take(0) =~= Seq::<int>::empty());
    }
    while i < left.len() || j < right.len()
        invariant
            i <= left.len(),
            j <= right.len(),
            kv == keys.deep_view(),
            l == as_ints(left@),
            r == as_ints(right@),
            strictly_ordered(l, kv, descending),
            strictly_ordered(r, kv, descending),
            forall|a: int| 0 <= a < left.len() ==> #[trigger] left[a] < keys.len(),
            forall|b: int| 0 <= b < right.len() ==> #[trigger] right[b] < keys.len(),
            forall|a: int, b: int| 0 <= a < left.len() && 0 <= b < right.len() ==> #[trigger] left[a] != #[trigger] right[b],
            strictly_ordered(as_ints(out@), kv, descending),
            as_ints(out@).to_multiset() =~= l.take(i as int).to_multiset().add(r.take(j as int).to_multiset()),
            forall|k: int| 0 <= k < out.len() ==> #[trigger] out[k] < keys.len(),
            forall|k: int, a: int|
                0 <= k < out.len() && i <= a < l.len() ==> precedes(kv, descending, #[trigger] as_ints(out@)[k], #[trigger] l[a]),
            forall|k: int, b: int|
                0 <= k < out.len() && j <= b < r.len() ==> precedes(kv, descending, #[trigger] as_ints(out@)[k], #[trigger] r[b]),
        decreases left.len() - i + right.len() - j,
    {
        let ghost before = as_ints(out@);
        let take_left = if j >= right.len() {
            true
        } else if i >= left.len() {
            false
        } else {
            index_precedes(keys, descending, left[i], right[j])
        };
        if take_left {
            let x = left[i];
            out.push(x);
            proof {
                let after = as_ints(out@);
                assert(after =~= before.push(x as int));
                assert(l.take(i + 1) =~= l.take(i as int).push(x as int));
                to_multiset_build(before, x as int);
                to_multiset_build(l.take(i as int), x as int);
                assert(l[i as int] == x);
                assert forall|a: int, b: int| 0 <= a < b < after.len() implies precedes(
                    kv,
                    descending,
                    #[trigger] after[a],
                    #[trigger] after[b],
                ) by {
                    if b == before.len() {
                        assert(precedes(kv, descending, before[a], l[i as int]));
                    } else {
                        assert(precedes(kv, descending, before[a], before[b]));
                    }
                }
                assert forall|k: int, a: int| 0 <= k < after.len() && i + 1 <= a < l.len() implies precedes(
                    kv,
                    descending,
                    #[trigger] after[k],
                    #[trigger] l[a],
                ) by {
                    if k == before.len() {
                        assert(precedes(kv, descending, l[i as int], l[a]));
                    } else {
                        assert(precedes(kv, descending, before[k], l[a]));
                    }
                }
                assert forall|k: int, b: int| 0 <= k < after.len() && j <= b < r.len() implies precedes(
                    kv,
                    descending,
                    #[trigger] after[k],
                    #[trigger] r[b],
                ) by {
                    if k == before.len() {
                        assert(r[j as int] == right[j as int]);
                        if b > j {
                            assert(precedes(kv, descending, r[j as int], r[b]));
                            lemma_precedes_strict_order(kv, descending, x as int, r[j as int], r[b]);
                        }
                    } else {
                        assert(precedes(kv, descending, before[k], r[b]));
                    }
                }
            }
            i += 1;
        } else {
            let x = right[j];
            out.push(x);
            proof {
                let after = as_ints(out@);
                assert(after =~= before.push(x as int));
                assert(r.take(j + 1) =~= r.take(j as int).push(x as int));
                to_multiset_build(before, x as int);
                to_multiset_build(r.take(j as int), x as int);
                assert(r[j as int] == x);
                if i < left.len() {
                    assert(l[i as int] == left[i as int]);
                    assert(left[i as int] != right[j as int]);
                    lemma_precedes_strict_order(kv, descending, l[i as int], x as int, x as int);
                }
                assert forall|a: int, b: int| 0 <= a < b < after.len() implies precedes(
                    kv,
                    descending,
                    #[trigger] after[a],
                    #[trigger] after[b],
                ) by {
                    if b == before.len() {
                        assert(precedes(kv, descending, before[a], r[j as int]));
                    } else {
                        assert(precedes(kv, descending, before[a], before[b]));
                    }
                }
                assert forall|k: int, b: int| 0 <= k < after.len() && j + 1 <= b < r.len() implies precedes(
                    kv,
                    descending,
                    #[trigger] after[k],
                    #[trigger] r[b],
                ) by {
                    if k == before.len() {
                        assert(precedes(kv, descending, r[j as int], r[b]));
                    } else {
                        assert(precedes(kv, descending, before[k], r[b]));
                    }
                }
                assert forall|k: int, a: int| 0 <= k < after.len() && i <= a < l.len() implies precedes(
                    kv,
                    descending,
                    #[trigger] after[k],
                    #[trigger] l[a],
                ) by {
                    if k == before.len() {
                        if a > i {
                            assert(precedes(kv, descending, l[i as int], l[a]));
                            lemma_precedes_strict_order(kv, descending, x as int, l[i as int], l[a]);
                        }
                    } else {
                        assert(precedes(kv, descending, before[k], l[a]));
                    }
                }
            }
            j += 1;
        }
    }
    proof {
        assert(l.take(i as int) =~= l);
        assert(r.take(j as int) =~= r);
    }
    out
}

/// The positions `lo .. hi` in sorted order.
fn sort_range(keys: &Vec<SortKey>, descending: bool, lo: usize, hi: usize) -> (out: Vec<usize>)
    requires
        lo <= hi <= keys.len(),
    ensures
        strictly_ordered(as_ints(out@), keys.deep_view(), descending),
        as_ints(out@).to_multiset() == positions(lo as int, hi as int).to_multiset(),
        forall|k: int| 0 <= k < out.len() ==> lo <= #[trigger] out[k] < hi,
    decreases hi - lo,
{
    broadcast use to_multiset_build;

    if hi - lo <= 1 {
        let mut out: Vec<usize> = Vec::new();
        if hi > lo {
            out.push(lo);
        }
        proof {
            assert(as_ints(out@) =~= positions(lo as int, hi as int));
        }
        out
    } else {
        let mid = lo + (hi - lo) / 2;
        let left = sort_range(keys, descending, lo, mid);
        let right = sort_range(keys, descending, mid, hi);
        let out = merge(keys, descending, &left, &right);
        proof {
            let whole = positions(lo as int, hi as int);
            let low = positions(lo as int, mid as int);
            let high = positions(mid as int, hi as int);
            assert(whole =~= low + high);
            lemma_multiset_commutative(low, high);
            let o = as_ints(out@);
            assert forall|k: int| 0 <= k < out.len() implies lo <= #[trigger] out[k] < hi by {
                assert(o[k] == out[k]);
                assert(o.contains(o[k]));
                to_multiset_contains(o, o[k]);
                to_multiset_contains(whole, o[k]);
                let m = choose|m: int| 0 <= m < whole.len() && whole[m] == o[k];
            }
        }
        out
    }
}

/// The sorted order of the positions of `keys`.
pub fn sorted_indices(keys: &Vec<SortKey>, descending: bool) -> (order: Vec<usize>)
    ensures
        as_ints(order@) == stable_order(keys.deep_view(), descending),
        order.len() == keys.len(),
        forall|k: int| 0 <= k < order.len() ==> #[trigger] order[k] < keys.len(),
{
    let order = sort_range(keys, descending, 0, keys.len());
    proof {
        let kv = keys.deep_view();
        let o = as_ints(order@);
        let all = positions(0, keys.len() as int);
        let spec_order = stable_order(kv, descending);
        lemma_order_of_first(kv, descending, kv.len());
        assert forall|y: int| o.contains(y) <==> spec_order.contains(y) by {
            to_multiset_contains(o, y);
            to_multiset_contains(all, y);
            if all.contains(y) {
                let m = choose|m: int| 0 <= m < all.len() && all[m] == y;
            }
            if 0 <= y < kv.len() {
                assert(all[y] == y);
            }
        }
        lemma_strict_order_unique(o, spec_order, kv, descending);
    }
    order
}

} // verus!
