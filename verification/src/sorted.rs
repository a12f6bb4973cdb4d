//! Ascending vectors of numbers without repetitions.
use vstd::prelude::*;

verus! {

/// Whether a sequence is strictly ascending, so that nothing occurs twice.
pub open spec fn ascending(items: Seq<u32>) -> bool {
    forall|i: int, j: int| 0 <= i < j < items.len() ==> items[i] < items[j]
}

/// The position of the first item that is not below `item`.
pub fn lower_bound(items: &Vec<u32>, item: u32) -> (position: usize)
    requires
        ascending(items@),
    ensures
        position <= items@.len(),
        forall|i: int| 0 <= i < position ==> items@[i] < item,
        forall|i: int| position <= i < items@.len() ==> items@[i] >= item,
{
    let mut low: usize = 0;
    let mut high: usize = items.len();
    while low < high
        invariant
            low <= high <= items@.len(),
            ascending(items@),
            forall|i: int| 0 <= i < low ==> items@[i] < item,
            forall|i: int| high <= i < items@.len() ==> items@[i] >= item,
        decreases high - low,
    {
        let middle: usize = low + (high - low) / 2;
        if items[middle] < item {
            low = middle + 1;
        } else {
            high = middle;
        }
    }
    low
}

/// The position of an item, if it occurs.
pub fn position_of(items: &Vec<u32>, item: u32) -> (position: Option<usize>)
    requires
        ascending(items@),
    ensures
        position matches Some(i) ==> i < items@.len() && items@[i as int] == item,
        position is None ==> !items@.contains(item),
{
    let position: usize = lower_bound(items, item);
    if position < items.len() && items[position] == item {
        Some(position)
    } else {
        None
    }
}

/// Adds an item, unless it is already there.
pub fn insert_ascending(items: &mut Vec<u32>, item: u32)
    requires
        ascending(old(items)@),
    ensures
        ascending(final(items)@),
        forall|other: u32| #[trigger]
            final(items)@.contains(other) <==> (old(items)@.contains(other) || other == item),
{
    let position: usize = lower_bound(items, item);
    if position < items.len() && items[position] == item {
        return;
    }
    let ghost before = items@;
    items.insert(position, item);
    proof {
        let after = items@;
        assert(after == before.insert(position as int, item));
        before.insert_ensures(position as int, item);
        assert forall|other: u32| #[trigger]
            after.contains(other) <==> (before.contains(other) || other == item) by {
            if before.contains(other) {
                let i = choose|i: int| 0 <= i < before.len() && before[i] == other;
                if i < position {
                    assert(after[i] == other);
                } else {
                    assert(after[i + 1] == other);
                }
            }
            if after.contains(other) && other != item {
                let i = choose|i: int| 0 <= i < after.len() && after[i] == other;
                if i < position {
                    assert(before[i] == other);
                } else {
                    assert(before[i - 1] == other);
                }
            }
            assert(after[position as int] == item);
        }
    }
}

/// Ascending sequences with the same items are equal.
pub proof fn lemma_ascending_unique(a: Seq<u32>, b: Seq<u32>)
    requires
        ascending(a),
        ascending(b),
        forall|x: u32|
            #![trigger a.contains(x)]
            #![trigger b.contains(x)]
            a.contains(x) <==> b.contains(x),
    ensures
        a == b,
    decreases a.len(),
{
    if a.len() == 0 {
        if b.len() > 0 {
            assert(b.contains(b[0]));
            assert(a.contains(b[0]));
        }
        assert(a =~= b);
    } else {
        assert(a.contains(a.last()));
        let at_b = choose|i: int| 0 <= i < b.len() && b[i] == a.last();
        assert(b.contains(b.last()));
        let at_a = choose|i: int| 0 <= i < a.len() && a[i] == b.last();
        assert(a.last() == b.last());
        let x = a.drop_last();
        let y = b.drop_last();
        assert forall|v: u32|
            #![trigger x.contains(v)]
            #![trigger y.contains(v)]
            x.contains(v) <==> y.contains(v) by {
            if x.contains(v) {
                let i = choose|i: int| 0 <= i < x.len() && x[i] == v;
                assert(a[i] == v);
                assert(a.contains(v));
                assert(b.contains(v));
                let j = choose|j: int| 0 <= j < b.len() && b[j] == v;
                assert(y[j] == v);
            }
            if y.contains(v) {
                let j = choose|j: int| 0 <= j < y.len() && y[j] == v;
                assert(b[j] == v);
                assert(b.contains(v));
                assert(a.contains(v));
                let i = choose|i: int| 0 <= i < a.len() && a[i] == v;
                assert(x[i] == v);
            }
        }
        lemma_ascending_unique(x, y);
        assert(a =~= x.push(a.last()));
        assert(b =~= y.push(b.last()));
    }
}

} // verus!
