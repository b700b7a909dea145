//! Lists in the order of the names of their items.

use vstd::prelude::*;

use crate::text::{
    comes_before, precedes, precedes_is_irreflexive, precedes_is_total, precedes_is_transitive,
};

verus! {

/// An item with a name by which it is ordered.
pub trait Named: Sized {
    /// The name.
    spec fn name(self) -> Seq<char>;

    /// The name.
    fn name_text(&self) -> (text: &str)
        ensures
            text@ == self.name(),
    ;
}

/// `items` with `item` among them: behind every one whose name does not come
/// after the item's.
pub open spec fn placed<T: Named>(items: Seq<T>, item: T) -> Seq<T>
    decreases items.len(),
{
    if items.len() > 0 && precedes(item.name(), items.last().name()) {
        placed(items.drop_last(), item).push(items.last())
    } else {
        items.push(item)
    }
}

/// `items` in the order of their names. Items of one name stay in their order.
pub open spec fn sorted<T: Named>(items: Seq<T>) -> Seq<T>
    decreases items.len(),
{
    if items.len() == 0 {
        items
    } else {
        placed(sorted(items.drop_last()), items.last())
    }
}

/// Whether no item of a list comes after one that follows it.
pub open spec fn is_ascending<T: Named>(items: Seq<T>) -> bool {
    forall|i: int, j: int|
        0 <= i < j < items.len() ==> !precedes(
            (#[trigger] items[j]).name(),
            (#[trigger] items[i]).name(),
        )
}

proof fn lemma_placed_len<T: Named>(items: Seq<T>, item: T)
    ensures
        placed(items, item).len() == items.len() + 1,
        placed(items, item).to_multiset() == items.to_multiset().insert(item),
    decreases items.len(),
{
    broadcast use vstd::seq_lib::group_to_multiset_ensures;

    if items.len() > 0 && precedes(item.name(), items.last().name()) {
        let front = items.drop_last();
        lemma_placed_len(front, item);
        assert(items =~= front.push(items.last()));
        assert(placed(items, item).to_multiset() =~= items.to_multiset().insert(item));
    } else {
        assert(placed(items, item).to_multiset() =~= items.to_multiset().insert(item));
    }
}

proof fn lemma_placed_is_ascending<T: Named>(items: Seq<T>, item: T)
    requires
        is_ascending(items),
    ensures
        is_ascending(placed(items, item)),
        forall|i: int|
            0 <= i < placed(items, item).len() ==> (#[trigger] placed(items, item)[i]) == item || (
            exists|j: int| 0 <= j < items.len() && placed(items, item)[i] == items[j]),
    decreases items.len(),
{
    let out = placed(items, item);
    if items.len() > 0 && precedes(item.name(), items.last().name()) {
        let front = items.drop_last();
        let last = items.last();
        assert forall|i: int, j: int| 0 <= i < j < front.len() implies !precedes(
            (#[trigger] front[j]).name(),
            (#[trigger] front[i]).name(),
        ) by {
            assert(front[i] == items[i] && front[j] == items[j]);
        }
        lemma_placed_is_ascending(front, item);
        let inner = placed(front, item);
        lemma_placed_len(front, item);
        assert forall|i: int, j: int| 0 <= i < j < out.len() implies !precedes(
            (#[trigger] out[j]).name(),
            (#[trigger] out[i]).name(),
        ) by {
            if j < inner.len() {
                assert(out[i] == inner[i] && out[j] == inner[j]);
            } else {
                assert(out[j] == last);
                assert(out[i] == inner[i]);
                if inner[i] == item {
                    if precedes(last.name(), item.name()) {
                        precedes_is_transitive(last.name(), item.name(), last.name());
                        precedes_is_irreflexive(last.name());
                    }
                } else {
                    let k = choose|k: int| 0 <= k < front.len() && inner[i] == front[k];
                    assert(items[k] == front[k]);
                    assert(items[items.len() - 1] == last);
                }
            }
        }
        assert forall|i: int| 0 <= i < out.len() implies (#[trigger] out[i]) == item || (exists|
            j: int,
        |
            0 <= j < items.len() && out[i] == items[j]) by {
            if i < inner.len() {
                assert(out[i] == inner[i]);
                if inner[i] != item {
                    let k = choose|k: int| 0 <= k < front.len() && inner[i] == front[k];
                    assert(out[i] == items[k]);
                }
            } else {
                assert(out[i] == items[items.len() - 1]);
            }
        }
    } else {
        assert forall|i: int, j: int| 0 <= i < j < out.len() implies !precedes(
            (#[trigger] out[j]).name(),
            (#[trigger] out[i]).name(),
        ) by {
            if j < items.len() {
                assert(out[i] == items[i] && out[j] == items[j]);
            } else {
                assert(out[j] == item && out[i] == items[i]);
                let last = items[items.len() - 1];
                assert(items.last() == last);
                assert(!precedes(item.name(), last.name()));
                if precedes(item.name(), items[i].name()) {
                    // The last item is not before this one, so the new item
                    // would be before the last.
                    if i < items.len() - 1 {
                        assert(!precedes(last.name(), items[i].name()));
                        precedes_is_total(last.name(), items[i].name());
                        if last.name() != items[i].name() {
                            precedes_is_transitive(
                                item.name(),
                                items[i].name(),
                                last.name(),
                            );
                        }
                    }
                }
            }
        }
        assert forall|i: int| 0 <= i < out.len() implies (#[trigger] out[i]) == item || (exists|
            j: int,
        |
            0 <= j < items.len() && out[i] == items[j]) by {
            if i < items.len() {
                assert(out[i] == items[i]);
            }
        }
    }
}

/// A sorted list is in the order of the names, and holds each item as often as
/// the list that it was made from.
pub proof fn sorting_orders_and_keeps<T: Named>(items: Seq<T>)
    ensures
        is_ascending(sorted(items)),
        sorted(items).to_multiset() == items.to_multiset(),
        sorted(items).len() == items.len(),
    decreases items.len(),
{
    broadcast use vstd::seq_lib::group_to_multiset_ensures;

    if items.len() > 0 {
        let front = items.drop_last();
        sorting_orders_and_keeps(front);
        lemma_placed_is_ascending(sorted(front), items.last());
        lemma_placed_len(sorted(front), items.last());
        assert(items =~= front.push(items.last()));
    }
}

fn place<T: Named>(items: &mut Vec<T>, item: T)
    ensures
        final(items)@ == placed(old(items)@, item),
{
    let ghost all = items@;
    let mut at: usize = items.len();
    assert(all.take(at as int) =~= all);
    assert(placed(all.take(at as int), item) + all.skip(at as int) =~= placed(all, item));
    while at > 0 && comes_before(item.name_text(), items[at - 1].name_text())
        invariant
            at <= items.len(),
            items@ == all,
            placed(all, item) == placed(all.take(at as int), item) + all.skip(at as int),
        decreases at,
    {
        let ghost upto = all.take(at as int);
        assert(upto.last() == all[at - 1]);
        assert(upto.drop_last() =~= all.take(at - 1));
        assert(placed(all.take(at - 1), item).push(all[at - 1]) + all.skip(at as int) =~= placed(
            all.take(at - 1),
            item,
        ) + all.skip(at - 1));
        at = at - 1;
    }
    items.insert(at, item);
    assert(items@ =~= all.take(at as int).push(item) + all.skip(at as int));
    if at > 0 {
        assert(all.take(at as int).last() == all[at - 1]);
    }
}

/// Puts a list in the order of the names of its items.
pub fn sort<T: Named>(items: Vec<T>) -> (out: Vec<T>)
    ensures
        out@ == sorted(items@),
{
    let ghost all = items@;
    let mut out: Vec<T> = Vec::new();
    assert(all.take(0) =~= Seq::empty());
    for item in it: items
        invariant
            it.seq() == all,
            out@ == sorted(all.take(it.index() as int)),
    {
        let ghost at = it.index() as int;
        assert(all.take(at + 1).drop_last() =~= all.take(at));
        place(&mut out, item);
    }
    assert(all.take(all.len() as int) =~= all);
    out
}

/// Items of one name stay in their order.
pub proof fn items_of_one_name_keep_their_order<T: Named>(items: Seq<T>, name: Seq<char>)
    ensures
        sorted(items).filter(|item: T| item.name() == name) == items.filter(
            |item: T| item.name() == name,
        ),
    decreases items.len(),
{
    if items.len() > 0 {
        let front = items.drop_last();
        items_of_one_name_keep_their_order(front, name);
        lemma_placed_keeps_order(sorted(front), items.last(), name);
        assert(items =~= front.push(items.last()));
        front.lemma_filter_push(items.last(), |item: T| item.name() == name);
    }
}

proof fn lemma_placed_keeps_order<T: Named>(items: Seq<T>, item: T, name: Seq<char>)
    ensures
        placed(items, item).filter(|item: T| item.name() == name) == (if item.name() == name {
            items.filter(|item: T| item.name() == name).push(item)
        } else {
            items.filter(|item: T| item.name() == name)
        }),
    decreases items.len(),
{
    let p = |item: T| item.name() == name;
    if items.len() > 0 && precedes(item.name(), items.last().name()) {
        let front = items.drop_last();
        let last = items.last();
        precedes_is_irreflexive(item.name());
        lemma_placed_keeps_order(front, item, name);
        assert(items =~= front.push(last));
        front.lemma_filter_push(last, p);
        placed(front, item).lemma_filter_push(last, p);
    } else {
        items.lemma_filter_push(item, p);
    }
}

} // verus!
