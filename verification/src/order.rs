//! The order that a stable sort by an integer key puts a list in.

use vstd::prelude::*;

verus! {

/// Whether the key and place `a` sort ahead of `b`: by key, and by place where the keys are equal.
pub open spec fn ahead(a: (i64, usize), b: (i64, usize)) -> bool {
    a.0 < b.0 || (a.0 == b.0 && a.1 < b.1)
}

/// Whether each pair of `s` sorts ahead of all behind it.
pub open spec fn ascending(s: Seq<(i64, usize)>) -> bool {
    forall|i: int, j: int| 0 <= i < j < s.len() ==> ahead(s[i], s[j])
}

/// Whether `order` names each place of `keys` once, smaller keys first, and places of one key in
/// the order they stand in.
pub open spec fn is_stable_order(keys: Seq<i64>, order: Seq<usize>) -> bool {
    &&& order.len() == keys.len()
    &&& forall|i: int| 0 <= i < order.len() ==> (#[trigger] order[i]) < keys.len()
    &&& forall|k: usize| k < keys.len() ==> #[trigger] order.contains(k)
    &&& forall|i: int, j: int|
        0 <= i < j < order.len() ==> ahead(
            (keys[order[i] as int], order[i]),
            (keys[order[j] as int], order[j]),
        )
}

fn is_ahead(a: (i64, usize), b: (i64, usize)) -> (r: bool)
    ensures
        r == ahead(a, b),
{
    a.0 < b.0 || (a.0 == b.0 && a.1 < b.1)
}

fn merge(a: &Vec<(i64, usize)>, b: &Vec<(i64, usize)>) -> (out: Vec<(i64, usize)>)
    requires
        ascending(a@),
        ascending(b@),
        a@.len() + b@.len() <= usize::MAX,
        forall|i: int, j: int| 0 <= i < a@.len() && 0 <= j < b@.len() ==> a@[i].1 != b@[j].1,
    ensures
        ascending(out@),
        out@.len() == a@.len() + b@.len(),
        forall|x: (i64, usize)| #[trigger] out@.contains(x) <==> a@.contains(x) || b@.contains(x),
{
    let mut out: Vec<(i64, usize)> = Vec::with_capacity(a.len() + b.len());
    let mut i: usize = 0;
    let mut j: usize = 0;
    while i < a.len() || j < b.len()
        invariant
            i <= a@.len(),
            j <= b@.len(),
            out@.len() == i + j,
            ascending(a@),
            ascending(b@),
            ascending(out@),
            a@.len() + b@.len() <= usize::MAX,
            forall|i: int, j: int| 0 <= i < a@.len() && 0 <= j < b@.len() ==> a@[i].1 != b@[j].1,
            forall|k: int, m: int| 0 <= k < out@.len() && i <= m < a@.len() ==> ahead(out@[k], a@[m]),
            forall|k: int, m: int| 0 <= k < out@.len() && j <= m < b@.len() ==> ahead(out@[k], b@[m]),
            forall|k: int| 0 <= k < i ==> out@.contains(#[trigger] a@[k]),
            forall|k: int| 0 <= k < j ==> out@.contains(#[trigger] b@[k]),
            forall|k: int|
                0 <= k < out@.len() ==> a@.contains(#[trigger] out@[k]) || b@.contains(out@[k]),
        decreases a@.len() - i + b@.len() - j,
    {
        let ghost before = out@;
        let ghost (p, q) = (i as int, j as int);
        if j == b.len() || (i < a.len() && is_ahead(a[i], b[j])) {
            out.push(a[i]);
            i = i + 1;
        } else {
            out.push(b[j]);
            j = j + 1;
        }
        proof {
            let x = out@.last();
            assert(out@[before.len() as int] == x);
            assert forall|m: int| i <= m < a@.len() implies ahead(x, a@[m]) by {
                if i == p {
                    assert(!ahead(a@[p], b@[q]) && a@[p].1 != b@[q].1);
                    assert(m == p || ahead(a@[p], a@[m]));
                }
            }
            assert forall|m: int| j <= m < b@.len() implies ahead(x, b@[m]) by {
                if j == q {
                    assert(ahead(a@[p], b@[q]));
                    assert(m == q || ahead(b@[q], b@[m]));
                }
            }
            assert forall|x: (i64, usize)| before.contains(x) implies out@.contains(x) by {
                let k = choose|k: int| 0 <= k < before.len() && before[k] == x;
                assert(out@[k] == x);
            }
        }
    }
    assert forall|x: (i64, usize)| #[trigger] out@.contains(x) implies a@.contains(x)
        || b@.contains(x) by {
        let k = choose|k: int| 0 <= k < out@.len() && out@[k] == x;
        assert(a@.contains(out@[k]) || b@.contains(out@[k]));
    }
    assert forall|x: (i64, usize)| a@.contains(x) || b@.contains(x) implies #[trigger] out@.contains(
        x,
    ) by {
        if a@.contains(x) {
            let k = choose|k: int| 0 <= k < a@.len() && a@[k] == x;
            assert(out@.contains(a@[k]));
        } else {
            let k = choose|k: int| 0 <= k < b@.len() && b@[k] == x;
            assert(out@.contains(b@[k]));
        }
    }
    out
}

fn sort(pairs: Vec<(i64, usize)>) -> (out: Vec<(i64, usize)>)
    requires
        forall|i: int, j: int| 0 <= i < j < pairs@.len() ==> pairs@[i].1 != pairs@[j].1,
    ensures
        ascending(out@),
        out@.len() == pairs@.len(),
        forall|x: (i64, usize)| #[trigger] out@.contains(x) <==> pairs@.contains(x),
    decreases pairs@.len(),
{
    if pairs.len() <= 1 {
        return pairs;
    }
    let ghost whole = pairs@;
    let mut front = pairs;
    let mid: usize = front.len() / 2;
    let back = front.split_off(mid);
    let ghost x = front@;
    let ghost y = back@;
    assert(whole =~= x + y);
    assert forall|i: int, j: int| 0 <= i < j < y.len() implies y[i].1 != y[j].1 by {
        assert(y[i] == whole[i + mid] && y[j] == whole[j + mid]);
    }
    let a = sort(front);
    let b = sort(back);
    proof {
        assert forall|i: int, j: int| 0 <= i < a@.len() && 0 <= j < b@.len() implies a@[i].1
            != b@[j].1 by {
            assert(a@.contains(a@[i]));
            assert(x.contains(a@[i]));
            assert(b@.contains(b@[j]));
            assert(y.contains(b@[j]));
            let p = choose|p: int| 0 <= p < x.len() && x[p] == a@[i];
            let q = choose|q: int| 0 <= q < y.len() && y[q] == b@[j];
            assert(whole[p] == x[p] && whole[q + mid] == y[q]);
        }
    }
    let out = merge(&a, &b);
    proof {
        assert forall|z: (i64, usize)| #[trigger] out@.contains(z) <==> whole.contains(z) by {
            if whole.contains(z) {
                let k = choose|k: int| 0 <= k < whole.len() && whole[k] == z;
                if k < mid {
                    assert(x[k] == z);
                } else {
                    assert(y[k - mid] == z);
                }
            }
            if x.contains(z) {
                let k = choose|k: int| 0 <= k < x.len() && x[k] == z;
                assert(whole[k] == z);
            }
            if y.contains(z) {
                let k = choose|k: int| 0 <= k < y.len() && y[k] == z;
                assert(whole[k + mid] == z);
            }
        }
    }
    out
}

/// The places of `keys` in the order of a stable sort by key.
pub fn stable_order(keys: &Vec<i64>) -> (order: Vec<usize>)
    ensures
        is_stable_order(keys@, order@),
{
    let mut pairs: Vec<(i64, usize)> = Vec::with_capacity(keys.len());
    let mut i: usize = 0;
    while i < keys.len()
        invariant
            i <= keys@.len(),
            pairs@.len() == i,
            forall|k: int| 0 <= k < i ==> #[trigger] pairs@[k] == (keys@[k], k as usize),
        decreases keys@.len() - i,
    {
        pairs.push((keys[i], i));
        i = i + 1;
    }
    let ghost unsorted = pairs@;
    let sorted = sort(pairs);
    assert forall|k: int| 0 <= k < sorted@.len() implies (#[trigger] sorted@[k]).1 < keys@.len()
        && sorted@[k].0 == keys@[sorted@[k].1 as int] by {
        assert(sorted@.contains(sorted@[k]));
        let m = choose|m: int| 0 <= m < unsorted.len() && unsorted[m] == sorted@[k];
        assert(unsorted[m] == (keys@[m], m as usize));
    }
    let mut order: Vec<usize> = Vec::with_capacity(sorted.len());
    let mut n: usize = 0;
    while n < sorted.len()
        invariant
            n <= sorted@.len(),
            order@.len() == n,
            forall|k: int| 0 <= k < n ==> #[trigger] order@[k] == sorted@[k].1,
        decreases sorted@.len() - n,
    {
        order.push(sorted[n].1);
        n = n + 1;
    }
    assert forall|k: usize| k < keys@.len() implies #[trigger] order@.contains(k) by {
        assert(unsorted[k as int] == (keys@[k as int], k));
        assert(unsorted.contains((keys@[k as int], k)));
        assert(sorted@.contains((keys@[k as int], k)));
        let m = choose|m: int| 0 <= m < sorted@.len() && sorted@[m] == (keys@[k as int], k);
        assert(order@[m] == k);
    }
    assert forall|i: int, j: int| 0 <= i < j < order@.len() implies ahead(
        (keys@[order@[i] as int], order@[i]),
        (keys@[order@[j] as int], order@[j]),
    ) by {
        assert(ahead(sorted@[i], sorted@[j]));
    }
    order
}

/// The items of `items` in the order `order`.
pub open spec fn reordered<T>(items: Seq<T>, order: Seq<usize>) -> Seq<T> {
    Seq::new(order.len(), |i: int| items[order[i] as int])
}

/// Whether `sorted` is `items` in the order of a stable sort by `keys`, one key for each item.
pub open spec fn is_stable_sort<T>(items: Seq<T>, keys: Seq<i64>, sorted: Seq<T>) -> bool {
    exists|order: Seq<usize>| #[trigger]
        is_stable_order(keys, order) && sorted == reordered(items, order)
}

/// Sorts `items` by `keys`, one key for each item; items of one key stay in their order.
pub fn stable_sort<T>(items: Vec<T>, keys: &Vec<i64>) -> (sorted: Vec<T>)
    requires
        items@.len() == keys@.len(),
    ensures
        is_stable_sort(items@, keys@, sorted@),
        sorted@.len() == items@.len(),
{
    let order = stable_order(keys);
    let ghost all = items@;
    let mut slots: Vec<Option<T>> = Vec::with_capacity(items.len());
    for item in iter: items
        invariant
            iter.seq() == all,
            slots@.len() == iter.index(),
            forall|k: int| 0 <= k < slots@.len() ==> #[trigger] slots@[k] == Some(all[k]),
    {
        slots.push(Some(item));
    }
    let mut sorted: Vec<T> = Vec::with_capacity(order.len());
    let mut i: usize = 0;
    while i < order.len()
        invariant
            i <= order@.len(),
            is_stable_order(keys@, order@),
            all.len() == keys@.len(),
            slots@.len() == all.len(),
            sorted@ == reordered(all, order@).take(i as int),
            forall|k: int|
                i <= k < order@.len() ==> slots@[#[trigger] order@[k] as int] == Some(
                    all[order@[k] as int],
                ),
        decreases order@.len() - i,
    {
        let at: usize = order[i];
        let ghost before = slots@;
        let taken = slots[at].take();
        proof {
            assert forall|k: int| i + 1 <= k < order@.len() implies slots@[#[trigger] order@[k] as int]
                == Some(all[order@[k] as int]) by {
                assert(ahead(
                    (keys@[order@[i as int] as int], order@[i as int]),
                    (keys@[order@[k] as int], order@[k]),
                ));
                assert(order@[k] != at);
                assert(slots@[order@[k] as int] == before[order@[k] as int]);
            }
        }
        if let Some(item) = taken {
            sorted.push(item);
        }
        assert(reordered(all, order@).take(i + 1) =~= reordered(all, order@).take(i as int).push(
            all[at as int],
        ));
        i = i + 1;
    }
    assert(reordered(all, order@).take(i as int) =~= reordered(all, order@));
    sorted
}

/// A stable sort neither loses an item nor makes one up.
pub proof fn law_stable_sort_keeps_every_item<T>(items: Seq<T>, keys: Seq<i64>, sorted: Seq<T>, x: T)
    requires
        items.len() == keys.len() <= usize::MAX,
        is_stable_sort(items, keys, sorted),
    ensures
        sorted.len() == items.len(),
        sorted.contains(x) <==> items.contains(x),
{
    let order = choose|order: Seq<usize>| #[trigger]
        is_stable_order(keys, order) && sorted == reordered(items, order);
    if sorted.contains(x) {
        let i = choose|i: int| 0 <= i < sorted.len() && sorted[i] == x;
        assert(items[order[i] as int] == x);
    }
    if items.contains(x) {
        let k = choose|k: int| 0 <= k < items.len() && items[k] == x;
        assert(order.contains(k as usize));
        let i = choose|i: int| 0 <= i < order.len() && order[i] == k as usize;
        assert(sorted[i] == x);
    }
}

/// A stable order names each place once, by rising keys, and leaves places of one key as they
/// stood.
pub proof fn law_stable_order_is_by_key(keys: Seq<i64>, order: Seq<usize>, i: int, j: int)
    requires
        is_stable_order(keys, order),
        0 <= i < j < order.len(),
    ensures
        order[i] != order[j],
        keys[order[i] as int] <= keys[order[j] as int],
        keys[order[i] as int] == keys[order[j] as int] ==> order[i] < order[j],
        order.len() == keys.len(),
{
    assert(ahead((keys[order[i] as int], order[i]), (keys[order[j] as int], order[j])));
}

/// Of a stable sort, no item stands ahead of one with a lower key, and items of one key stand as
/// they stood before.
pub proof fn law_stable_sort_is_by_key<T>(items: Seq<T>, keys: Seq<i64>, sorted: Seq<T>) -> (order:
    Seq<usize>)
    requires
        is_stable_sort(items, keys, sorted),
        items.len() == keys.len(),
    ensures
        sorted.len() == items.len(),
        order.len() == items.len(),
        forall|i: int|
            0 <= i < order.len() ==> #[trigger] order[i] < items.len() && sorted[i]
                == items[order[i] as int],
        forall|k: usize| k < items.len() ==> #[trigger] order.contains(k),
        forall|i: int, j: int|
            0 <= i < j < order.len() ==> keys[#[trigger] order[i] as int] <= keys[
            #[trigger] order[j] as int] && (keys[order[i] as int] == keys[order[j] as int]
                ==> order[i] < order[j]),
{
    let order = choose|order: Seq<usize>| #[trigger]
        is_stable_order(keys, order) && sorted == reordered(items, order);
    assert forall|i: int, j: int| 0 <= i < j < order.len() implies keys[#[trigger] order[i] as int]
        <= keys[#[trigger] order[j] as int] && (keys[order[i] as int] == keys[order[j] as int]
        ==> order[i] < order[j]) by {
        law_stable_order_is_by_key(keys, order, i, j);
    }
    order
}

} // verus!
