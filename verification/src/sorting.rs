//! Stable sorting and paging of lists.
use vstd::prelude::*;

verus! {

/// The views of a list of values.
pub open spec fn views<T: View>(items: Seq<T>) -> Seq<T::V> {
    Seq::new(items.len(), |i: int| items[i]@)
}

/// The views of a list that grew by one value.
pub broadcast proof fn lemma_views_push<T: View>(items: Seq<T>, item: T)
    ensures
        #[trigger] views(items.push(item)) == views(items).push(item@),
{
    assert(views(items.push(item)) =~= views(items).push(item@));
}

/// Where `item` goes in a sorted list: before the first item that it comes
/// before, so after those it is level with.
pub open spec fn slot<T>(sorted: Seq<T>, item: T, before: spec_fn(T, T) -> bool) -> int
    decreases sorted.len(),
{
    if sorted.len() == 0 || before(item, sorted[0]) {
        0
    } else {
        1 + slot(sorted.skip(1), item, before)
    }
}

/// The stable sort of a list: each item in turn goes after those that it does
/// not come before.
pub open spec fn stable_sorted<T>(items: Seq<T>, before: spec_fn(T, T) -> bool) -> Seq<T>
    decreases items.len(),
{
    if items.len() == 0 {
        Seq::empty()
    } else {
        let sorted = stable_sorted(items.drop_last(), before);
        sorted.insert(slot(sorted, items.last(), before), items.last())
    }
}

/// Whether no item of a list comes before an earlier one.
pub open spec fn is_sorted<T>(items: Seq<T>, before: spec_fn(T, T) -> bool) -> bool {
    forall|i: int, j: int|
        0 <= i < j < items.len() ==> !before(#[trigger] items[j], #[trigger] items[i])
}

/// Whether `before` ranks items: not both ways round, and with levels that
/// carry over.
pub open spec fn is_ranking<T>(before: spec_fn(T, T) -> bool) -> bool {
    &&& forall|a: T, b: T| #[trigger] before(a, b) ==> !before(b, a)
    &&& forall|a: T, b: T, c: T| !#[trigger] before(a, b) && !#[trigger] before(b, c) ==> !before(a, c)
}

/// The slot of an item lies in the list; the item comes before the item
/// there, and before none that precedes it.
pub proof fn lemma_slot<T>(sorted: Seq<T>, item: T, before: spec_fn(T, T) -> bool)
    ensures
        0 <= slot(sorted, item, before) <= sorted.len(),
        slot(sorted, item, before) < sorted.len() ==> before(
            item,
            sorted[slot(sorted, item, before)],
        ),
        forall|i: int| 0 <= i < slot(sorted, item, before) ==> !before(item, #[trigger] sorted[i]),
    decreases sorted.len(),
{
    if sorted.len() > 0 && !before(item, sorted[0]) {
        lemma_slot(sorted.skip(1), item, before);
        assert forall|i: int| 0 <= i < slot(sorted, item, before) implies !before(
            item,
            #[trigger] sorted[i],
        ) by {
            if i > 0 {
                assert(sorted[i] == sorted.skip(1)[i - 1]);
            }
        }
    }
}

/// A stable sort keeps the items, each as often as it occurs.
pub proof fn lemma_sorted_keeps_items<T>(items: Seq<T>, before: spec_fn(T, T) -> bool)
    ensures
        stable_sorted(items, before).len() == items.len(),
        stable_sorted(items, before).to_multiset() == items.to_multiset(),
    decreases items.len(),
{
    if items.len() == 0 {
        assert(stable_sorted(items, before) =~= items);
    } else {
        let shorter = items.drop_last();
        lemma_sorted_keeps_items(shorter, before);
        let sorted = stable_sorted(shorter, before);
        lemma_slot(sorted, items.last(), before);
        vstd::seq_lib::to_multiset_insert(sorted, slot(sorted, items.last(), before), items.last());
        assert(items =~= shorter.push(items.last()));
        vstd::seq_lib::to_multiset_build(shorter, items.last());
    }
}

/// A stable sort by a ranking is sorted.
pub proof fn lemma_sorted_is_sorted<T>(items: Seq<T>, before: spec_fn(T, T) -> bool)
    requires
        is_ranking(before),
    ensures
        is_sorted(stable_sorted(items, before), before),
    decreases items.len(),
{
    if items.len() > 0 {
        lemma_sorted_is_sorted(items.drop_last(), before);
        let sorted = stable_sorted(items.drop_last(), before);
        let item = items.last();
        let at = slot(sorted, item, before);
        lemma_slot(sorted, item, before);
        let result = sorted.insert(at, item);
        assert forall|i: int, j: int| 0 <= i < j < result.len() implies !before(
            #[trigger] result[j],
            #[trigger] result[i],
        ) by {
            if j == at {
                assert(result[i] == sorted[i]);
            } else if i == at {
                assert(result[j] == sorted[j - 1]);
                assert(before(item, sorted[at]));
                if before(sorted[j - 1], item) {
                    if j - 1 > at {
                        assert(!before(sorted[j - 1], sorted[at]));
                        assert(!before(sorted[at], item));
                        assert(!before(sorted[j - 1], item));
                    }
                }
            } else {
                let a = if i < at { i } else { i - 1 };
                let b = if j < at { j } else { j - 1 };
                assert(result[i] == sorted[a]);
                assert(result[j] == sorted[b]);
                assert(a < b);
            }
        }
    }
}

/// Sorting by what the views decide sorts the views.
pub proof fn lemma_sorted_views<T: View>(
    items: Seq<T>,
    before: spec_fn(T, T) -> bool,
    before_view: spec_fn(T::V, T::V) -> bool,
)
    requires
        forall|a: T, b: T| #[trigger] before(a, b) == before_view(a@, b@),
    ensures
        views(stable_sorted(items, before)) == stable_sorted(views(items), before_view),
    decreases items.len(),
{
    if items.len() == 0 {
        assert(views(stable_sorted(items, before)) =~= stable_sorted(views(items), before_view));
    } else {
        let shorter = items.drop_last();
        lemma_sorted_views(shorter, before, before_view);
        let sorted = stable_sorted(shorter, before);
        assert(views(items).drop_last() =~= views(shorter));
        lemma_slot_views(sorted, items.last(), before, before_view);
        lemma_slot(sorted, items.last(), before);
        assert(views(stable_sorted(items, before)) =~= stable_sorted(views(items), before_view));
    }
}

proof fn lemma_slot_views<T: View>(
    sorted: Seq<T>,
    item: T,
    before: spec_fn(T, T) -> bool,
    before_view: spec_fn(T::V, T::V) -> bool,
)
    requires
        forall|a: T, b: T| #[trigger] before(a, b) == before_view(a@, b@),
    ensures
        slot(sorted, item, before) == slot(views(sorted), item@, before_view),
    decreases sorted.len(),
{
    if sorted.len() > 0 {
        assert(views(sorted)[0] == sorted[0]@);
        if !before(item, sorted[0]) {
            lemma_slot_views(sorted.skip(1), item, before, before_view);
            assert(views(sorted).skip(1) =~= views(sorted.skip(1)));
        }
    }
}

/// Sorts a list, stably, by `precedes`, whose meaning is `before`.
pub(crate) fn stable_sort<T, F: Fn(&T, &T) -> bool>(
    items: Vec<T>,
    precedes: F,
    before: Ghost<spec_fn(T, T) -> bool>,
) -> (result: Vec<T>)
    requires
        forall|a: &T, b: &T| #[trigger] call_requires(precedes, (a, b)),
        forall|a: &T, b: &T, r: bool|
            #[trigger] call_ensures(precedes, (a, b), r) ==> r == before@(*a, *b),
    ensures
        result@ == stable_sorted(items@, before@),
{
    let ghost all = items@;
    let mut rest: Vec<T> = items;
    let mut result: Vec<T> = Vec::new();
    let mut reversed: Vec<T> = Vec::new();
    // Popping twice takes the items out in order.
    while rest.len() > 0
        invariant
            rest@ + reversed@.reverse() == all,
        decreases rest.len(),
    {
        let ghost rest_before = rest@;
        let ghost reversed_before = reversed@;
        match rest.pop() {
            Some(item) => {
                reversed.push(item);
                assert(rest@ + reversed@.reverse() =~= rest_before + reversed_before.reverse());
            },
            None => {},
        }
    }
    assert(reversed@.reverse() =~= all);
    let ghost mut done: int = 0;
    assert(all.take(0) =~= Seq::empty());
    while reversed.len() > 0
        invariant
            0 <= done <= all.len(),
            reversed@.reverse() == all.skip(done),
            result@ == stable_sorted(all.take(done), before@),
            forall|a: &T, b: &T| #[trigger] call_requires(precedes, (a, b)),
            forall|a: &T, b: &T, r: bool|
                #[trigger] call_ensures(precedes, (a, b), r) ==> r == before@(*a, *b),
        decreases reversed.len(),
    {
        let ghost reversed_before = reversed@;
        match reversed.pop() {
            Some(item) => {
                proof {
                    assert(reversed_before.reverse().len() == reversed_before.len());
                    assert(done < all.len());
                    assert(reversed_before.reverse()[0] == item);
                    assert(all.skip(done)[0] == all[done]);
                    assert(reversed@.reverse() =~= reversed_before.reverse().skip(1));
                    assert(all.skip(done).skip(1) =~= all.skip(done + 1));
                    assert(all.take(done + 1).drop_last() =~= all.take(done));
                }
                let ghost sorted = result@;
                let mut at: usize = 0;
                assert(sorted.skip(0) =~= sorted);
                while at < result.len() && !precedes(&item, &result[at])
                    invariant
                        at <= result.len(),
                        result@ == sorted,
                        slot(sorted, item, before@) == at + slot(
                            sorted.skip(at as int),
                            item,
                            before@,
                        ),
                        forall|a: &T, b: &T| #[trigger] call_requires(precedes, (a, b)),
                        forall|a: &T, b: &T, r: bool|
                            #[trigger] call_ensures(precedes, (a, b), r) ==> r == before@(*a, *b),
                    decreases result.len() - at,
                {
                    assert(sorted.skip(at as int).skip(1) =~= sorted.skip(at + 1));
                    at = at + 1;
                }
                result.insert(at, item);
                proof {
                    done = done + 1;
                }
            },
            None => {},
        }
    }
    assert(all.skip(done).len() == 0);
    assert(all.take(done) =~= all);
    result
}

/// The position of a page's first item.
pub open spec fn page_offset(total: nat, page: nat, per_page: nat) -> nat {
    let start = ((page - 1) * per_page) as nat;
    if start < total {
        start
    } else {
        total
    }
}

/// The items of one page.
pub open spec fn page_of<T>(items: Seq<T>, page: nat, per_page: nat) -> Seq<T> {
    let offset = page_offset(items.len(), page, per_page);
    if offset + per_page < items.len() {
        items.subrange(offset as int, (offset + per_page) as int)
    } else {
        items.skip(offset as int)
    }
}

/// Whether items follow a page.
pub open spec fn more_after(total: nat, page: nat, per_page: nat) -> bool {
    total > page_offset(total, page, per_page) + per_page
}

/// Takes one page out of a list, and tells whether items follow it.
pub(crate) fn take_page<T>(items: Vec<T>, page: usize, per_page: usize) -> (result: (Vec<T>, bool))
    requires
        1 <= page,
    ensures
        result.0@ == page_of(items@, page as nat, per_page as nat),
        result.1 == more_after(items@.len(), page as nat, per_page as nat),
{
    let total: usize = items.len();
    assert((page - 1) * per_page >= 0) by (nonlinear_arith)
        requires
            1 <= page,
    ;
    let offset: usize = match (page - 1).checked_mul(per_page) {
        Some(start) => if start < total {
            start
        } else {
            total
        },
        None => total,
    };
    let has_more: bool = total - offset > per_page;
    let mut kept: Vec<T> = items;
    if has_more {
        kept.truncate(offset + per_page);
    }
    let selected: Vec<T> = kept.split_off(offset);
    proof {
        if has_more {
            assert(selected@ =~= items@.subrange(offset as int, offset + per_page));
        } else {
            assert(selected@ =~= items@.skip(offset as int));
        }
    }
    (selected, has_more)
}

/// The first pages of a list, one after the other, are the start of the list.
pub proof fn law_pages_follow_on<T>(items: Seq<T>, page: nat, per_page: nat)
    requires
        1 <= page,
    ensures
        page_of(items, page, per_page) == items.subrange(
            page_offset(items.len(), page, per_page) as int,
            page_offset(items.len(), page + 1, per_page) as int,
        ),
        page_offset(items.len(), 1, per_page) == 0,
        more_after(items.len(), page, per_page) <==> page_offset(items.len(), page + 1, per_page)
            < items.len(),
{
    assert(page * per_page == (page - 1) * per_page + per_page) by (nonlinear_arith);
    assert((page - 1) * per_page >= 0) by (nonlinear_arith)
        requires
            1 <= page,
    ;
    assert(0 * per_page == 0);
    assert(page_of(items, page, per_page) =~= items.subrange(
        page_offset(items.len(), page, per_page) as int,
        page_offset(items.len(), page + 1, per_page) as int,
    ));
}

} // verus!
