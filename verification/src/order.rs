//! Ordering items by the offset at which they start, keeping items that start
//! at the same offset in the order in which they came.

use vstd::prelude::*;
use crate::range::Range;

verus! {

/// Something that lies at an offset of the line.
pub trait Spanned: Copy {
    /// The offset at which the item starts.
    spec fn span_start(&self) -> usize;

    fn start(&self) -> (s: usize)
        ensures
            s == self.span_start(),
    ;
}

impl Spanned for Range {
    open spec fn span_start(&self) -> usize {
        self.start
    }

    fn start(&self) -> (s: usize) {
        self.start
    }
}

/// `sorted` with `item` put behind the last item that starts no later.
pub open spec fn insert_by_start<T: Spanned>(sorted: Seq<T>, item: T) -> Seq<T>
    decreases sorted.len(),
{
    if sorted.len() == 0 || sorted.last().span_start() <= item.span_start() {
        sorted.push(item)
    } else {
        insert_by_start(sorted.drop_last(), item).push(sorted.last())
    }
}

/// The items in ascending order of their starts; items with the same start
/// keep their order.
pub open spec fn sorted_by_start<T: Spanned>(items: Seq<T>) -> Seq<T>
    decreases items.len(),
{
    if items.len() == 0 {
        items
    } else {
        insert_by_start(sorted_by_start(items.drop_last()), items.last())
    }
}

/// No item starts before an item that stands in front of it.
pub open spec fn ascending_starts<T: Spanned>(items: Seq<T>) -> bool {
    forall|i: int, j: int|
        0 <= i < j < items.len() ==> (#[trigger] items[i]).span_start() <= (
        #[trigger] items[j]).span_start()
}

/// Where `insert_by_start` puts an item: at the one place `at` behind which
/// every item starts later and in front of which the nearest item does not.
pub proof fn lemma_insert_by_start_at<T: Spanned>(sorted: Seq<T>, item: T, at: int)
    requires
        0 <= at <= sorted.len(),
        forall|k: int| at <= k < sorted.len() ==> (#[trigger] sorted[k]).span_start() > item.span_start(),
        at > 0 ==> sorted[at - 1].span_start() <= item.span_start(),
    ensures
        insert_by_start(sorted, item) == sorted.insert(at, item),
    decreases sorted.len(),
{
    if sorted.len() == 0 || sorted.last().span_start() <= item.span_start() {
        if sorted.len() > 0 && at < sorted.len() {
            assert(sorted[sorted.len() - 1].span_start() > item.span_start());
        }
        assert(sorted.insert(at, item) =~= sorted.push(item));
    } else {
        let init = sorted.drop_last();
        assert forall|k: int| at <= k < init.len() implies (#[trigger] init[k]).span_start()
            > item.span_start() by {
            assert(init[k] == sorted[k]);
        }
        if at > 0 {
            assert(init[at - 1] == sorted[at - 1]);
        }
        lemma_insert_by_start_at(init, item, at);
        assert(init.insert(at, item).push(sorted.last()) =~= sorted.insert(at, item));
    }
}

/// Putting an item into a sequence in ascending order leaves it in ascending
/// order.
pub proof fn lemma_insert_by_start_ascending<T: Spanned>(sorted: Seq<T>, item: T)
    requires
        ascending_starts(sorted),
    ensures
        ascending_starts(insert_by_start(sorted, item)),
        insert_by_start(sorted, item).len() == sorted.len() + 1,
        insert_by_start(sorted, item).to_multiset() == sorted.to_multiset().insert(item),
    decreases sorted.len(),
{
    broadcast use vstd::seq_lib::group_to_multiset_ensures;

    if sorted.len() == 0 || sorted.last().span_start() <= item.span_start() {
        let out = sorted.push(item);
        assert forall|i: int, j: int| 0 <= i < j < out.len() implies (#[trigger] out[i]).span_start()
            <= (#[trigger] out[j]).span_start() by {
            if j == sorted.len() {
                assert(out[i] == sorted[i]);
                assert(sorted[i].span_start() <= sorted[sorted.len() - 1].span_start());
            } else {
                assert(out[i] == sorted[i] && out[j] == sorted[j]);
            }
        }
    } else {
        let init = sorted.drop_last();
        assert forall|i: int, j: int| 0 <= i < j < init.len() implies (#[trigger] init[i]).span_start()
            <= (#[trigger] init[j]).span_start() by {
            assert(init[i] == sorted[i] && init[j] == sorted[j]);
        }
        lemma_insert_by_start_ascending(init, item);
        let mid = insert_by_start(init, item);
        let out = mid.push(sorted.last());
        assert forall|k: int| 0 <= k < mid.len() implies (#[trigger] mid[k]).span_start()
            <= sorted.last().span_start() by {
            assert(mid.to_multiset().count(mid[k]) > 0);
            if mid[k] != item {
                assert(init.to_multiset().count(mid[k]) > 0);
                let w = choose|w: int| 0 <= w < init.len() && init[w] == mid[k];
                assert(sorted[w].span_start() <= sorted[sorted.len() - 1].span_start());
            }
        }
        assert forall|i: int, j: int| 0 <= i < j < out.len() implies (#[trigger] out[i]).span_start()
            <= (#[trigger] out[j]).span_start() by {
            if j == mid.len() {
                assert(out[i] == mid[i]);
            } else {
                assert(out[i] == mid[i] && out[j] == mid[j]);
            }
        }
        assert(sorted =~= init.push(sorted.last()));
    }
}

/// Sorting puts the items in ascending order of their starts and neither
/// drops nor adds one.
pub proof fn lemma_sorted_by_start<T: Spanned>(items: Seq<T>)
    ensures
        ascending_starts(sorted_by_start(items)),
        sorted_by_start(items).len() == items.len(),
        sorted_by_start(items).to_multiset() == items.to_multiset(),
    decreases items.len(),
{
    broadcast use vstd::seq_lib::group_to_multiset_ensures;

    if items.len() > 0 {
        lemma_sorted_by_start(items.drop_last());
        lemma_insert_by_start_ascending(sorted_by_start(items.drop_last()), items.last());
        assert(items =~= items.drop_last().push(items.last()));
    }
}

/// Items that are in ascending order already are left as they are.
pub proof fn lemma_sorted_by_start_of_ascending<T: Spanned>(items: Seq<T>)
    requires
        ascending_starts(items),
    ensures
        sorted_by_start(items) == items,
    decreases items.len(),
{
    if items.len() > 0 {
        let init = items.drop_last();
        assert forall|i: int, j: int| 0 <= i < j < init.len() implies (#[trigger] init[i]).span_start()
            <= (#[trigger] init[j]).span_start() by {
            assert(init[i] == items[i] && init[j] == items[j]);
        }
        lemma_sorted_by_start_of_ascending(init);
        if init.len() > 0 {
            assert(init.last() == items[items.len() - 2]);
            assert(items[items.len() - 2].span_start() <= items[items.len() - 1].span_start());
        }
        assert(init.push(items.last()) =~= items);
    }
}

/// Every item starts behind the item in front of it.
pub open spec fn rising_starts<T: Spanned>(items: Seq<T>) -> bool {
    forall|i: int, j: int|
        0 <= i < j < items.len() ==> (#[trigger] items[i]).span_start() < (
        #[trigger] items[j]).span_start()
}

/// Two sequences that hold the same items, each with starts that rise from
/// item to item, are the same sequence.
pub proof fn lemma_rising_is_unique<T: Spanned>(a: Seq<T>, b: Seq<T>)
    requires
        rising_starts(a),
        rising_starts(b),
        a.to_multiset() == b.to_multiset(),
    ensures
        a == b,
    decreases a.len(),
{
    a.to_multiset_ensures();
    b.to_multiset_ensures();
    if a.len() == 0 {
        assert(a =~= b);
    } else {
        let x = a.last();
        let y = b.last();
        assert(a.contains(x)) by {
            assert(a[a.len() - 1] == x);
        }
        assert(b.contains(y)) by {
            assert(b[b.len() - 1] == y);
        }
        assert(b.to_multiset().count(x) > 0);
        assert(a.to_multiset().count(y) > 0);
        assert(b.contains(x));
        assert(a.contains(y));
        let j = choose|j: int| 0 <= j < b.len() && b[j] == x;
        let i = choose|i: int| 0 <= i < a.len() && a[i] == y;
        if j < b.len() - 1 {
            assert(b[j].span_start() < b[b.len() - 1].span_start());
            if i < a.len() - 1 {
                assert(a[i].span_start() < a[a.len() - 1].span_start());
            }
            assert(false);
        }
        assert(x == y);
        let a0 = a.drop_last();
        let b0 = b.drop_last();
        assert(a0 =~= a.remove(a.len() - 1));
        assert(b0 =~= b.remove(b.len() - 1));
        assert(a0.to_multiset() =~= b0.to_multiset());
        assert forall|i: int, j: int| 0 <= i < j < a0.len() implies (#[trigger] a0[i]).span_start() < (
        #[trigger] a0[j]).span_start() by {
            assert(a0[i] == a[i] && a0[j] == a[j]);
        }
        assert forall|i: int, j: int| 0 <= i < j < b0.len() implies (#[trigger] b0[i]).span_start() < (
        #[trigger] b0[j]).span_start() by {
            assert(b0[i] == b[i] && b0[j] == b[j]);
        }
        lemma_rising_is_unique(a0, b0);
        assert(a =~= a0.push(x));
        assert(b =~= b0.push(y));
    }
}

/// Items in ascending order of their starts that are some rearrangement of
/// items whose starts rise from item to item have rising starts themselves.
proof fn lemma_ascending_of_rising<T: Spanned>(sorted: Seq<T>, rising: Seq<T>)
    requires
        ascending_starts(sorted),
        rising_starts(rising),
        sorted.to_multiset() == rising.to_multiset(),
    ensures
        rising_starts(sorted),
{
    sorted.to_multiset_ensures();
    rising.to_multiset_ensures();
    assert forall|i: int, j: int| 0 <= i < j < sorted.len() implies (#[trigger] sorted[i]).span_start()
        < (#[trigger] sorted[j]).span_start() by {
        if sorted[i].span_start() >= sorted[j].span_start() {
            assert(sorted.contains(sorted[i]));
            assert(sorted.contains(sorted[j]));
            assert(rising.to_multiset().count(sorted[i]) > 0);
            assert(rising.to_multiset().count(sorted[j]) > 0);
            let p = choose|p: int| 0 <= p < rising.len() && rising[p] == sorted[i];
            let q = choose|q: int| 0 <= q < rising.len() && rising[q] == sorted[j];
            if p < q {
                assert(rising[p].span_start() < rising[q].span_start());
            } else if q < p {
                assert(rising[q].span_start() < rising[p].span_start());
            }
            assert(p == q);
            // The item stands twice in `sorted`, and once only in `rising`.
            lemma_rising_has_no_duplicates(rising);
            assert(sorted.to_multiset().count(sorted[i]) >= 2) by {
                lemma_count_of_two(sorted, i, j);
            }
            assert(false);
        }
    }
}

/// Items whose starts rise from item to item are all different.
proof fn lemma_rising_has_no_duplicates<T: Spanned>(items: Seq<T>)
    requires
        rising_starts(items),
    ensures
        forall|x: T| items.to_multiset().count(x) <= 1,
    decreases items.len(),
{
    items.to_multiset_ensures();
    if items.len() > 0 {
        let init = items.drop_last();
        assert forall|i: int, j: int| 0 <= i < j < init.len() implies (#[trigger] init[i]).span_start()
            < (#[trigger] init[j]).span_start() by {
            assert(init[i] == items[i] && init[j] == items[j]);
        }
        lemma_rising_has_no_duplicates(init);
        init.to_multiset_ensures();
        assert(items =~= init.push(items.last()));
        assert forall|x: T| items.to_multiset().count(x) <= 1 by {
            if x == items.last() && init.to_multiset().count(x) > 0 {
                assert(init.contains(x));
                let w = choose|w: int| 0 <= w < init.len() && init[w] == x;
                assert(items[w].span_start() < items[items.len() - 1].span_start());
            }
        }
    }
}

/// An item that stands at two places of a sequence is counted twice at least.
proof fn lemma_count_of_two<T>(items: Seq<T>, i: int, j: int)
    requires
        0 <= i < j < items.len(),
        items[i] == items[j],
    ensures
        items.to_multiset().count(items[i]) >= 2,
{
    let x = items[i];
    let rest = items.remove(j);
    assert(rest.len() == items.len() - 1);
    assert(rest[i] == x);
    assert(rest.contains(x));
    rest.to_multiset_ensures();
    assert(rest.to_multiset().count(x) >= 1);
    vstd::seq_lib::to_multiset_remove(items, j);
    assert(rest.to_multiset() == items.to_multiset().remove(x));
    assert(items.to_multiset().remove(x).count(x) >= 1);
}

/// Sorting a rearrangement of items whose starts rise from item to item
/// gives those items in their rising order.
pub proof fn lemma_sorted_by_start_of_rearranged<T: Spanned>(items: Seq<T>, rising: Seq<T>)
    requires
        rising_starts(rising),
        items.to_multiset() == rising.to_multiset(),
    ensures
        sorted_by_start(items) == rising,
{
    lemma_sorted_by_start(items);
    lemma_ascending_of_rising(sorted_by_start(items), rising);
    lemma_rising_is_unique(sorted_by_start(items), rising);
}

/// Sorts the items by their starts, in ascending order; items with the same
/// start keep their order.
pub fn sort_by_start<T: Spanned>(items: &mut Vec<T>)
    ensures
        final(items)@ == sorted_by_start(old(items)@),
{
    let mut sorted: Vec<T> = Vec::new();
    let mut i: usize = 0;
    while i < items.len()
        invariant
            i <= items.len(),
            sorted@ == sorted_by_start(items@.take(i as int)),
            sorted.len() == i,
        decreases items.len() - i,
    {
        let item = items[i];
        let mut at: usize = sorted.len();
        while at > 0 && sorted[at - 1].start() > item.start()
            invariant
                at <= sorted.len(),
                forall|k: int| at <= k < sorted.len() ==> (#[trigger] sorted@[k]).span_start() > item.span_start(),
            decreases at,
        {
            at -= 1;
        }
        proof {
            lemma_insert_by_start_at(sorted@, item, at as int);
            assert(items@.take(i + 1).drop_last() == items@.take(i as int));
            assert(items@.take(i + 1).last() == item);
        }
        sorted.insert(at, item);
        i += 1;
    }
    proof {
        assert(items@.take(i as int) == items@);
    }
    *items = sorted;
}

} // verus!
