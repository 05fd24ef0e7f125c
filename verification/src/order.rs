//! Stable sorting.

use vstd::prelude::*;

verus! {

/// Where `x` goes in a list: behind everything that it does not come before.
pub open spec fn place<T>(list: Seq<T>, x: T, before: spec_fn(T, T) -> bool) -> nat
    decreases list.len(),
{
    if list.len() == 0 {
        0
    } else if before(x, list.last()) {
        place(list.drop_last(), x, before)
    } else {
        list.len()
    }
}

/// The list with `x` at its place.
pub open spec fn inserted<T>(list: Seq<T>, x: T, before: spec_fn(T, T) -> bool) -> Seq<T> {
    list.insert(place(list, x, before) as int, x)
}

/// The items in order; those that do not come before each other stay as they were.
pub open spec fn sorted<T>(items: Seq<T>, before: spec_fn(T, T) -> bool) -> Seq<T>
    decreases items.len(),
{
    if items.len() == 0 {
        seq![]
    } else {
        inserted(sorted(items.drop_last(), before), items.last(), before)
    }
}

/// Whether the relation is an order in which items may tie.
pub open spec fn is_order<T>(before: spec_fn(T, T) -> bool) -> bool {
    &&& forall|a: T, b: T| #[trigger] before(a, b) ==> !before(b, a)
    &&& forall|a: T, b: T, c: T|
        #![trigger before(a, c), before(a, b)]
        before(a, c) ==> before(a, b) || before(b, c)
}

/// Whether no item comes before one that precedes it.
pub open spec fn in_order<T>(list: Seq<T>, before: spec_fn(T, T) -> bool) -> bool {
    forall|i: int, j: int| 0 <= i < j < list.len() ==> !before(#[trigger] list[j], #[trigger] list[i])
}

/// The place parts a list.
pub proof fn lemma_place<T>(list: Seq<T>, x: T, before: spec_fn(T, T) -> bool)
    ensures
        place(list, x, before) <= list.len(),
        forall|i: int| place(list, x, before) <= i < list.len() ==> before(x, #[trigger] list[i]),
        place(list, x, before) > 0 ==> !before(x, list[place(list, x, before) - 1]),
    decreases list.len(),
{
    if list.len() > 0 && before(x, list.last()) {
        let front = list.drop_last();
        lemma_place(front, x, before);
        let k = place(list, x, before) as int;
        assert forall|i: int| k <= i < list.len() implies before(x, #[trigger] list[i]) by {
            if i < list.len() - 1 {
                assert(front[i] == list[i]);
            }
        }
    }
}

/// An index that parts a list in this way is the place.
pub proof fn lemma_place_is<T>(list: Seq<T>, x: T, before: spec_fn(T, T) -> bool, k: int)
    requires
        0 <= k <= list.len(),
        forall|i: int| k <= i < list.len() ==> before(x, #[trigger] list[i]),
        k > 0 ==> !before(x, list[k - 1]),
    ensures
        place(list, x, before) == k,
    decreases list.len(),
{
    if k < list.len() {
        assert(before(x, list[list.len() - 1]));
        let front = list.drop_last();
        assert forall|i: int| k <= i < front.len() implies before(x, #[trigger] front[i]) by {
            assert(before(x, list[i]));
        }
        lemma_place_is(front, x, before, k);
    }
}

/// Inserting keeps a list in order.
proof fn lemma_inserted<T>(list: Seq<T>, x: T, before: spec_fn(T, T) -> bool)
    requires
        is_order(before),
        in_order(list, before),
    ensures
        in_order(inserted(list, x, before), before),
        inserted(list, x, before).to_multiset() == list.to_multiset().insert(x),
        inserted(list, x, before).len() == list.len() + 1,
{
    let out = inserted(list, x, before);
    let k = place(list, x, before) as int;
    lemma_place(list, x, before);
    list.insert_ensures(k, x);
    assert forall|i: int, j: int| 0 <= i < j < out.len() implies !before(
        #[trigger] out[j],
        #[trigger] out[i],
    ) by {
        if j == k {
            let last = list[k - 1];
            assert(!before(x, last));
            if i < k - 1 {
                assert(!before(list[k - 1], list[i]));
                if before(x, list[i]) {
                    assert(before(x, last) || before(last, list[i]));
                }
            }
        } else if i == k {
            assert(before(x, list[j - 1]));
        } else if j < k {
            assert(!before(list[j], list[i]));
        } else if i > k {
            assert(!before(list[j - 1], list[i - 1]));
        } else {
            assert(!before(list[j - 1], list[i]));
        }
    }
    vstd::seq_lib::to_multiset_insert(list, k, x);
}

/// Sorting puts the same items in order.
pub proof fn lemma_sorted<T>(items: Seq<T>, before: spec_fn(T, T) -> bool)
    requires
        is_order(before),
    ensures
        in_order(sorted(items, before), before),
        sorted(items, before).to_multiset() == items.to_multiset(),
        sorted(items, before).len() == items.len(),
    decreases items.len(),
{
    if items.len() > 0 {
        let front = items.drop_last();
        lemma_sorted(front, before);
        lemma_inserted(sorted(front, before), items.last(), before);
        assert(items =~= front.push(items.last()));
        vstd::seq_lib::to_multiset_build(front, items.last());
    } else {
        assert(sorted(items, before) =~= items);
    }
}

/// Whether two items tie.
pub open spec fn ties<T>(a: T, b: T, before: spec_fn(T, T) -> bool) -> bool {
    !before(a, b) && !before(b, a)
}

/// Items that tie stay in the order in which they were.
pub proof fn lemma_sorted_is_stable<T>(items: Seq<T>, before: spec_fn(T, T) -> bool, y: T)
    requires
        is_order(before),
    ensures
        sorted(items, before).filter(|x: T| ties(x, y, before)) == items.filter(
            |x: T| ties(x, y, before),
        ),
    decreases items.len(),
{
    let same = |x: T| ties(x, y, before);
    reveal(Seq::filter);
    if items.len() > 0 {
        let front = items.drop_last();
        let x = items.last();
        let list = sorted(front, before);
        lemma_sorted_is_stable(front, before, y);
        lemma_sorted(front, before);
        lemma_place(list, x, before);
        let k = place(list, x, before) as int;
        let low = list.take(k);
        let high = list.skip(k);
        assert(list =~= low + high);
        assert(inserted(list, x, before) =~= low.push(x) + high);
        Seq::filter_distributes_over_add(low, high, same);
        Seq::filter_distributes_over_add(low.push(x), high, same);
        assert(low.push(x).drop_last() =~= low);
        if same(x) {
            assert forall|i: int| 0 <= i < high.len() implies !same(#[trigger] high[i]) by {
                assert(before(x, list[k + i]));
                assert(before(x, y) || before(y, high[i]));
            }
            let other = |z: T| !same(z);
            assert(high.all(other));
            high.lemma_all_neg_filter_empty(same);
            assert(low.filter(same).push(x) + high.filter(same) =~= (low.filter(same)
                + high.filter(same)).push(x));
        }
    }
}

} // verus!
