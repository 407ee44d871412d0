//! Facts about filtered sequences.

use vstd::prelude::*;

verus! {

/// A filtered sequence holds the members that pass.
pub proof fn lemma_filter_members<A>(items: Seq<A>, keep: spec_fn(A) -> bool, item: A)
    ensures
        items.filter(keep).contains(item) <==> items.contains(item) && keep(item),
    decreases items.len(),
{
    reveal(Seq::filter);
    if items.len() > 0 {
        let rest = items.drop_last();
        let last = items.last();
        lemma_filter_members(rest, keep, item);
        assert(items =~= rest.push(last));
        lemma_push_members(rest, last, item);
        if keep(last) {
            lemma_push_members(rest.filter(keep), last, item);
        }
    }
}

/// A pushed item is the one new member.
pub proof fn lemma_push_members<A>(items: Seq<A>, last: A, item: A)
    ensures
        items.push(last).contains(item) <==> items.contains(item) || item == last,
{
    let longer = items.push(last);
    if items.contains(item) {
        let n = items.index_of(item);
        assert(longer[n] == item);
    }
    if item == last {
        assert(longer[items.len() as int] == item);
    }
    if longer.contains(item) {
        let n = longer.index_of(item);
        if n < items.len() {
            assert(items[n] == item);
        }
    }
}

/// Filtering one more item appends it where it passes.
pub proof fn lemma_filter_push<A>(items: Seq<A>, keep: spec_fn(A) -> bool, last: A)
    ensures
        items.push(last).filter(keep) == (if keep(last) {
            items.filter(keep).push(last)
        } else {
            items.filter(keep)
        }),
{
    reveal(Seq::filter);
    assert(items.push(last).drop_last() =~= items);
}

/// What passes for every member is the whole sequence.
pub proof fn lemma_filter_all<A>(items: Seq<A>, keep: spec_fn(A) -> bool)
    requires
        forall|i: int| 0 <= i < items.len() ==> keep(#[trigger] items[i]),
    ensures
        items.filter(keep) == items,
    decreases items.len(),
{
    reveal(Seq::filter);
    if items.len() > 0 {
        lemma_filter_all(items.drop_last(), keep);
        assert(items =~= items.drop_last().push(items.last()));
    }
}

/// Whether some positions of a sequence go from its front to its end, none of them twice.
pub open spec fn rising(places: Seq<int>, size: nat) -> bool {
    &&& forall|k: int| 0 <= k < places.len() ==> 0 <= #[trigger] places[k] < size
    &&& forall|k: int, l: int| 0 <= k < l < places.len() ==> #[trigger] places[k] < #[trigger] places[l]
}

/// A filtered sequence holds the items at the positions that pass, in their order and each
/// once.
pub proof fn lemma_filter_places<A>(items: Seq<A>, keep: spec_fn(A) -> bool) -> (places: Seq<int>)
    ensures
        rising(places, items.len()),
        places.len() == items.filter(keep).len(),
        forall|k: int| 0 <= k < places.len() ==> items.filter(keep)[k] == items[#[trigger] places[k]],
        forall|i: int|
            #![trigger items[i]]
            0 <= i < items.len() ==> (places.contains(i) <==> keep(items[i])),
    decreases items.len(),
{
    reveal(Seq::filter);
    if items.len() == 0 {
        Seq::empty()
    } else {
        let rest = items.drop_last();
        let last = items.len() - 1;
        let before = lemma_filter_places(rest, keep);
        let places = if keep(items[last]) {
            before.push(last)
        } else {
            before
        };
        assert(items.filter(keep) == if keep(items[last]) {
            rest.filter(keep).push(items[last])
        } else {
            rest.filter(keep)
        });
        assert forall|k: int| 0 <= k < places.len() implies items.filter(keep)[k]
            == items[#[trigger] places[k]] by {
            if k < before.len() {
                assert(places[k] == before[k]);
                assert(rest[before[k]] == items[before[k]]);
            }
        }
        assert forall|i: int|
            #![trigger items[i]]
            0 <= i < items.len() implies (places.contains(i) <==> keep(items[i])) by {
            lemma_push_members(before, last, i);
            if i < last {
                assert(rest[i] == items[i]);
            } else if before.contains(i) {
                let k = before.index_of(i);
                assert(before[k] < last);
            }
        }
        places
    }
}

/// Positions that rise are told by their members.
pub proof fn lemma_rising_unique(a: Seq<int>, b: Seq<int>, size: nat)
    requires
        rising(a, size),
        rising(b, size),
        forall|i: int| 0 <= i < size ==> (#[trigger] a.contains(i) <==> b.contains(i)),
    ensures
        a == b,
{
    assert forall|i: int| a.to_set().contains(i) <==> b.to_set().contains(i) by {
        if a.contains(i) {
            let k = a.index_of(i);
            assert(0 <= a[k] < size);
        }
        if b.contains(i) {
            let k = b.index_of(i);
            assert(0 <= b[k] < size);
        }
    }
    assert(a.to_set() =~= b.to_set());
    crate::sorting::lemma_increasing_unique(a, b, |x: int, y: int| x < y);
}

} // verus!
