//! Stable sorting by an offset.

use vstd::prelude::*;

verus! {

/// Where `offset` goes among `items`, which ascend: behind all that do not come later.
pub open spec fn slot<T>(items: Seq<(usize, T)>, offset: usize) -> nat
    decreases items.len(),
{
    if items.len() == 0 || items.last().0 <= offset {
        items.len()
    } else {
        slot(items.drop_last(), offset)
    }
}

/// `items` in the order of their offsets; those with one offset keep their order.
pub open spec fn by_offset<T>(items: Seq<(usize, T)>) -> Seq<(usize, T)>
    decreases items.len(),
{
    if items.len() == 0 {
        items
    } else {
        let before = by_offset(items.drop_last());
        before.insert(slot(before, items.last().0) as int, items.last())
    }
}

/// An item goes behind all that do not come later and before all that do.
pub proof fn slot_is_within<T>(items: Seq<(usize, T)>, offset: usize)
    ensures
        slot(items, offset) <= items.len(),
        forall|i: int| slot(items, offset) <= i < items.len() ==> offset < (#[trigger] items[i]).0,
        slot(items, offset) > 0 ==> items[slot(items, offset) - 1].0 <= offset,
    decreases items.len(),
{
    if items.len() > 0 && items.last().0 > offset {
        let less = items.drop_last();
        slot_is_within(less, offset);
        assert forall|i: int| slot(items, offset) <= i < items.len() implies offset < (
        #[trigger] items[i]).0 by {
            if i < less.len() {
                assert(less[i] == items[i]);
            }
        }
        if slot(items, offset) > 0 {
            assert(less[slot(items, offset) - 1] == items[slot(items, offset) - 1]);
        }
    }
}

/// Sorting by offset puts the offsets in order and neither drops nor invents an item.
pub proof fn sorting_is_sorting<T>(items: Seq<(usize, T)>)
    ensures
        by_offset(items).to_multiset() == items.to_multiset(),
        by_offset(items).len() == items.len(),
        forall|i: int, j: int|
            0 <= i <= j < items.len() ==> (#[trigger] by_offset(items)[i]).0 <= (
            #[trigger] by_offset(items)[j]).0,
    decreases items.len(),
{
    if items.len() > 0 {
        let less = items.drop_last();
        sorting_is_sorting(less);
        let before = by_offset(less);
        let last = items.last();
        let at = slot(before, last.0) as int;
        slot_is_within(before, last.0);
        let now = before.insert(at, last);
        before.to_multiset_ensures();
        less.to_multiset_ensures();
        assert(items =~= less.push(last));
        assert(now.to_multiset() =~= before.to_multiset().insert(last)) by {
            before.insert_ensures(at, last);
            vstd::seq_lib::to_multiset_insert(before, at, last);
        }
        assert forall|i: int, j: int| 0 <= i <= j < now.len() implies (#[trigger] now[i]).0 <= (
        #[trigger] now[j]).0 by {
            if i < at {
                if j > at {
                    assert(before[i].0 <= before[j - 1].0);
                } else if j == at {
                    assert(before[i].0 <= before[at - 1].0);
                } else {
                    assert(before[i].0 <= before[j].0);
                }
            } else if i > at {
                assert(before[i - 1].0 <= before[j - 1].0);
            } else if j > at {
                assert(last.0 < before[j - 1].0);
            }
        }
    }
}

/// `items` with each item turned into what `f` makes of it.
pub open spec fn turned<T, U>(items: Seq<(usize, T)>, f: spec_fn(T) -> U) -> Seq<(usize, U)> {
    Seq::new(items.len(), |i: int| (items[i].0, f(items[i].1)))
}

proof fn slot_looks_at_offsets<T, U>(items: Seq<(usize, T)>, f: spec_fn(T) -> U, offset: usize)
    ensures
        slot(turned(items, f), offset) == slot(items, offset),
    decreases items.len(),
{
    if items.len() > 0 {
        assert(turned(items, f).drop_last() =~= turned(items.drop_last(), f));
        slot_looks_at_offsets(items.drop_last(), f, offset);
    }
}

/// Putting one more item in its place sorts one more item.
pub proof fn putting_sorts<T, U>(
    sorted: Seq<(usize, T)>,
    f: spec_fn(T) -> U,
    items: Seq<(usize, U)>,
    offset: usize,
    item: T,
)
    requires
        turned(sorted, f) == by_offset(items),
    ensures
        turned(sorted.insert(slot(sorted, offset) as int, (offset, item)), f) == by_offset(
            items.push((offset, f(item))),
        ),
{
    let more = items.push((offset, f(item)));
    assert(more.drop_last() =~= items);
    slot_looks_at_offsets(sorted, f, offset);
    slot_is_within(sorted, offset);
    assert(turned(sorted.insert(slot(sorted, offset) as int, (offset, item)), f) =~= by_offset(
        items,
    ).insert(slot(by_offset(items), offset) as int, (offset, f(item))));
}

/// Puts `item` into `items`, which were put there in the same way, by its offset.
pub fn put<T>(items: &mut Vec<(usize, T)>, offset: usize, item: T)
    ensures
        final(items)@ == old(items)@.insert(
            slot(old(items)@, offset) as int,
            (offset, item),
        ),
{
    let mut at: usize = items.len();
    assert(items@.take(at as int) =~= items@);
    while at > 0 && items[at - 1].0 > offset
        invariant
            at <= items@.len(),
            items@ == old(items)@,
            slot(items@, offset) == slot(items@.take(at as int), offset),
        decreases at,
    {
        assert(items@.take(at as int).drop_last() =~= items@.take(at - 1));
        at = at - 1;
    }
    items.insert(at, (offset, item));
}

} // verus!
