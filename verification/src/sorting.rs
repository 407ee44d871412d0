//! Sorting indices by a given order.

use vstd::prelude::*;
use vstd::relations::sorted_by;
use vstd::relations::total_ordering;
use vstd::seq_lib::lemma_multiset_commutative;
use vstd::seq_lib::lemma_sorted_unique;

verus! {

/// Each item of a sequence comes before the ones behind it.
pub open spec fn increasing<A>(items: Seq<A>, before: spec_fn(A, A) -> bool) -> bool {
    forall|i: int, j: int| 0 <= i < j < items.len() ==> before(#[trigger] items[i], #[trigger] items[j])
}

/// Two increasing sequences with the same members are the same sequence.
pub proof fn lemma_increasing_unique<A>(a: Seq<A>, b: Seq<A>, before: spec_fn(A, A) -> bool)
    requires
        forall|x: A, y: A| #[trigger] before(x, y) ==> !before(y, x),
        increasing(a, before),
        increasing(b, before),
        a.to_set() == b.to_set(),
    ensures
        a == b,
    decreases a.len(),
{
    if a.len() == 0 {
        if b.len() > 0 {
            assert(b.to_set().contains(b[0]));
            assert(a.to_set().contains(b[0]));
        }
        assert(a =~= b);
    } else {
        assert(a.to_set().contains(a[0]));
        assert(b.contains(a[0]));
        assert(b.to_set().contains(b[0]));
        assert(a.contains(b[0]));
        let i = b.index_of(a[0]);
        let j = a.index_of(b[0]);
        if i != 0 {
            assert(before(b[0], b[i]));
            if j != 0 {
                assert(before(a[0], a[j]));
            }
        }
        assert(a[0] == b[0]);
        let ra = a.drop_first();
        let rb = b.drop_first();
        assert forall|k: A| ra.to_set().contains(k) <==> rb.to_set().contains(k) by {
            if ra.contains(k) {
                let n = ra.index_of(k);
                assert(a[n + 1] == k);
                assert(before(a[0], a[n + 1]));
                assert(a.to_set().contains(k));
                assert(b.contains(k));
                let m = b.index_of(k);
                assert(m != 0);
                assert(rb[m - 1] == k);
            }
            if rb.contains(k) {
                let n = rb.index_of(k);
                assert(b[n + 1] == k);
                assert(before(b[0], b[n + 1]));
                assert(b.to_set().contains(k));
                assert(a.contains(k));
                let m = a.index_of(k);
                assert(m != 0);
                assert(ra[m - 1] == k);
            }
        }
        assert(ra.to_set() =~= rb.to_set());
        lemma_increasing_unique(ra, rb, before);
        assert(a =~= seq![a[0]] + ra);
        assert(b =~= seq![b[0]] + rb);
    }
}

/// Inserting a new item at its place keeps a sequence increasing.
pub proof fn lemma_increasing_insert<A>(
    items: Seq<A>,
    place: int,
    item: A,
    before: spec_fn(A, A) -> bool,
)
    requires
        increasing(items, before),
        0 <= place <= items.len(),
        forall|i: int| 0 <= i < place ==> before(#[trigger] items[i], item),
        forall|i: int| place <= i < items.len() ==> before(item, #[trigger] items[i]),
    ensures
        increasing(items.insert(place, item), before),
        items.insert(place, item).to_set() == items.to_set().insert(item),
{
    let after = items.insert(place, item);
    assert forall|i: int, j: int| 0 <= i < j < after.len() implies before(
        #[trigger] after[i],
        #[trigger] after[j],
    ) by {
        if i < place && j == place {
            assert(after[i] == items[i]);
        } else if i == place {
            assert(after[j] == items[j - 1]);
        } else if j < place {
            assert(after[i] == items[i] && after[j] == items[j]);
        } else if i < place {
            assert(after[i] == items[i] && after[j] == items[j - 1]);
        } else {
            assert(after[i] == items[i - 1] && after[j] == items[j - 1]);
        }
    }
    assert forall|k: A| after.to_set().contains(k) <==> items.to_set().insert(item).contains(k) by {
        if items.contains(k) {
            let n = items.index_of(k);
            if n < place {
                assert(after[n] == k);
            } else {
                assert(after[n + 1] == k);
            }
        }
        if k == item {
            assert(after[place] == k);
        }
        if after.contains(k) {
            let n = after.index_of(k);
            if n < place {
                assert(items[n] == k);
            } else if n > place {
                assert(items[n - 1] == k);
            }
        }
    }
    assert(after.to_set() =~= items.to_set().insert(item));
}

/// The numbers below `count`, in order.
pub open spec fn indices(count: nat) -> Seq<usize> {
    Seq::new(count, |i: int| i as usize)
}

/// A filtered increasing sequence is increasing.
pub proof fn lemma_filter_increasing<A>(
    items: Seq<A>,
    before: spec_fn(A, A) -> bool,
    keep: spec_fn(A) -> bool,
)
    requires
        increasing(items, before),
    ensures
        increasing(items.filter(keep), before),
    decreases items.len(),
{
    reveal(Seq::filter);
    if items.len() > 0 {
        let rest = items.drop_last();
        let last = items.last();
        assert(increasing(rest, before)) by {
            assert forall|i: int, j: int| 0 <= i < j < rest.len() implies before(
                #[trigger] rest[i],
                #[trigger] rest[j],
            ) by {
                assert(rest[i] == items[i] && rest[j] == items[j]);
            }
        }
        lemma_filter_increasing(rest, before, keep);
        if keep(last) {
            let kept = rest.filter(keep);
            assert(items.filter(keep) =~= kept.push(last));
            assert forall|i: int, j: int| 0 <= i < j < kept.push(last).len() implies before(
                #[trigger] kept.push(last)[i],
                #[trigger] kept.push(last)[j],
            ) by {
                if j == kept.len() {
                    assert(kept.contains(kept[i]));
                    crate::sequences::lemma_filter_members(rest, keep, kept[i]);
                    let n = rest.index_of(kept[i]);
                    assert(items[n] == kept[i] && items[items.len() - 1] == last);
                } else {
                    assert(kept.push(last)[i] == kept[i] && kept.push(last)[j] == kept[j]);
                }
            }
        }
    }
}

/// The numbers below `count` that pass are the increasing sequence of their set.
pub proof fn lemma_indices_filtered(count: nat, keep: spec_fn(usize) -> bool, list: Seq<usize>)
    requires
        count <= usize::MAX,
        increasing(list, |a: usize, b: usize| a < b),
        forall|v: usize| #[trigger] list.contains(v) <==> v < count && keep(v),
    ensures
        list == indices(count).filter(keep),
{
    let before = |a: usize, b: usize| a < b;
    let all = indices(count);
    lemma_filter_increasing(all, before, keep);
    assert forall|v: usize| list.to_set().contains(v) <==> all.filter(keep).to_set().contains(v) by {
        crate::sequences::lemma_filter_members(all, keep, v);
        if v < count {
            assert(all[v as int] == v);
        }
    }
    assert(list.to_set() =~= all.filter(keep).to_set());
    lemma_increasing_unique(list, all.filter(keep), before);
}

/// An order by which indices can be sorted.
pub(crate) trait Precedence {
    /// Whether an index can be placed in the order.
    spec fn covers(&self, index: usize) -> bool;

    /// The order.
    spec fn leq(&self) -> spec_fn(usize, usize) -> bool;

    /// Whether one index comes no later than another.
    fn precedes(&self, a: usize, b: usize) -> (before: bool)
        requires
            self.covers(a),
            self.covers(b),
        ensures
            before == self.leq()(a, b),
    ;
}

/// Merges two sorted lists into one.
fn merge_sorted<P: Precedence>(left: &Vec<usize>, right: &Vec<usize>, order: &P) -> (merged: Vec<usize>)
    requires
        total_ordering(order.leq()),
        sorted_by(left@, order.leq()),
        sorted_by(right@, order.leq()),
        left@.len() + right@.len() <= usize::MAX,
        forall|a: usize| #[trigger] left@.contains(a) ==> order.covers(a),
            forall|a: usize| #[trigger] right@.contains(a) ==> order.covers(a),
    ensures
        sorted_by(merged@, order.leq()),
        merged@.to_multiset() == (left@ + right@).to_multiset(),
{
    let ghost leq = order.leq();
    let mut merged: Vec<usize> = Vec::new();
    let mut i: usize = 0;
    let mut j: usize = 0;
    proof {
        lemma_multiset_commutative(left@.take(0), right@.take(0));
        assert(merged@ =~= left@.take(0) + right@.take(0));
    }
    while i < left.len() || j < right.len()
        invariant
            total_ordering(order.leq()),
            sorted_by(left@, order.leq()),
            sorted_by(right@, order.leq()),
            left@.len() + right@.len() <= usize::MAX,
            forall|a: usize| #[trigger] left@.contains(a) ==> order.covers(a),
            forall|a: usize| #[trigger] right@.contains(a) ==> order.covers(a),
            leq == order.leq(),
            i <= left.len(),
            j <= right.len(),
            sorted_by(merged@, order.leq()),
            forall|k: int, l: int|
                0 <= k < merged@.len() && i <= l < left@.len() ==> #[trigger] leq(merged@[k], left@[l]),
            forall|k: int, l: int|
                0 <= k < merged@.len() && j <= l < right@.len() ==> #[trigger] leq(
                    merged@[k],
                    right@[l],
                ),
            merged@.to_multiset() == left@.take(i as int).to_multiset().add(
                right@.take(j as int).to_multiset(),
            ),
        decreases left@.len() - i + right@.len() - j,
    {
        let take_left = if i == left.len() {
            false
        } else if j == right.len() {
            true
        } else {
            assert(left@.contains(left@[i as int]) && right@.contains(right@[j as int]));
            order.precedes(left[i], right[j])
        };
        let ghost before = merged@;
        if take_left {
            merged.push(left[i]);
            proof {
                vstd::seq_lib::to_multiset_build(before, left@[i as int]);
                vstd::seq_lib::to_multiset_build(left@.take(i as int), left@[i as int]);
                assert(left@.take(i + 1) =~= left@.take(i as int).push(left@[i as int]));
                assert(merged@.to_multiset() =~= left@.take(i + 1).to_multiset().add(
                    right@.take(j as int).to_multiset(),
                ));
                assert forall|l: int| i < l < left@.len() implies #[trigger] leq(left@[i as int], left@[l]) by {}
                assert forall|l: int| j <= l < right@.len() implies #[trigger] leq(
                    left@[i as int],
                    right@[l],
                ) by {
                    if l > j {
                        assert(leq(left@[i as int], right@[j as int]));
                        assert(leq(right@[j as int], right@[l]));
                    }
                }
            }
            i += 1;
        } else {
            merged.push(right[j]);
            proof {
                vstd::seq_lib::to_multiset_build(before, right@[j as int]);
                vstd::seq_lib::to_multiset_build(right@.take(j as int), right@[j as int]);
                assert(right@.take(j + 1) =~= right@.take(j as int).push(right@[j as int]));
                assert(merged@.to_multiset() =~= left@.take(i as int).to_multiset().add(
                    right@.take(j + 1).to_multiset(),
                ));
                assert forall|l: int| j < l < right@.len() implies #[trigger] leq(
                    right@[j as int],
                    right@[l],
                ) by {}
                assert forall|l: int| i <= l < left@.len() implies #[trigger] leq(
                    right@[j as int],
                    left@[l],
                ) by {
                    assert(leq(right@[j as int], left@[i as int]));
                    if l > i {
                        assert(leq(left@[i as int], left@[l]));
                    }
                }
            }
            j += 1;
        }
    }
    proof {
        assert(left@.take(i as int) =~= left@);
        assert(right@.take(j as int) =~= right@);
        lemma_multiset_commutative(left@, right@);
    }
    merged
}

/// Sorts the indices from one place up to another.
fn sort_range<P: Precedence>(items: &Vec<usize>, low: usize, high: usize, order: &P) -> (sorted: Vec<usize>)
    requires
        total_ordering(order.leq()),
        low <= high <= items@.len(),
        forall|a: usize| #[trigger] items@.contains(a) ==> order.covers(a),
    ensures
        sorted_by(sorted@, order.leq()),
        sorted@.to_multiset() == items@.subrange(low as int, high as int).to_multiset(),
    decreases high - low,
{
    broadcast use vstd::seq_lib::group_to_multiset_ensures;

    let mut sorted: Vec<usize> = Vec::new();
    if high - low <= 1 {
        if low < high {
            sorted.push(items[low]);
        }
        assert(sorted@ =~= items@.subrange(low as int, high as int));
        return sorted;
    }
    let middle: usize = low + (high - low) / 2;
    let left = sort_range(items, low, middle, order);
    let right = sort_range(items, middle, high, order);
    proof {
        let first = items@.subrange(low as int, middle as int);
        let second = items@.subrange(middle as int, high as int);
        assert(left@.len() == left@.to_multiset().len());
        assert(right@.len() == right@.to_multiset().len());
        assert(first.len() == first.to_multiset().len());
        assert(second.len() == second.to_multiset().len());
        assert forall|a: usize| left@.contains(a) implies items@.contains(a) by {
            assert(left@.to_multiset().count(a) > 0);
            assert(first.contains(a));
            let n = first.index_of(a);
            assert(items@[low + n] == a);
        }
        assert forall|a: usize| right@.contains(a) implies items@.contains(a) by {
            assert(right@.to_multiset().count(a) > 0);
            assert(second.contains(a));
            let n = second.index_of(a);
            assert(items@[middle + n] == a);
        }
    }
    let merged = merge_sorted(&left, &right, order);
    proof {
        let first = items@.subrange(low as int, middle as int);
        let second = items@.subrange(middle as int, high as int);
        lemma_multiset_commutative(left@, right@);
        lemma_multiset_commutative(first, second);
        assert(items@.subrange(low as int, high as int) =~= first + second);
    }
    merged
}

/// Sorts indices by a total order.
pub(crate) fn sort_indices<P: Precedence>(items: &Vec<usize>, order: &P) -> (sorted: Vec<usize>)
    requires
        total_ordering(order.leq()),
        forall|a: usize| #[trigger] items@.contains(a) ==> order.covers(a),
    ensures
        sorted@ == items@.sort_by(order.leq()),
        sorted@.to_multiset() == items@.to_multiset(),
        sorted_by(sorted@, order.leq()),
        sorted@.len() == items@.len(),
        forall|a: usize| #[trigger] sorted@.contains(a) <==> items@.contains(a),
{
    broadcast use vstd::seq_lib::group_to_multiset_ensures;

    let ghost leq = order.leq();
    let sorted = sort_range(items, 0, items.len(), order);
    proof {
        assert(items@.subrange(0, items@.len() as int) =~= items@);
        items@.lemma_sort_by_ensures(leq);
        lemma_sorted_unique(sorted@, items@.sort_by(leq), leq);
        assert forall|a: usize| #[trigger] sorted@.contains(a) <==> items@.contains(a) by {
            assert(sorted@.to_multiset().count(a) == items@.to_multiset().count(a));
        }
        assert(sorted@.len() == sorted@.to_multiset().len());
        assert(items@.len() == items@.to_multiset().len());
    }
    sorted
}

} // verus!
