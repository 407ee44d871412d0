//! Reading ordered rows in pages, with a stored cursor that each page moves behind itself.

use vstd::prelude::*;
use crate::ordered::strictly_sorted;
use crate::sequences::lemma_filter_push;
use crate::sorting::indices;
use crate::text::lemma_text_lt_irreflexive;
use crate::text::lemma_text_lt_transitive;
use crate::text::text_lt;

verus! {

/// The places of the rows that are marked.
pub open spec fn marked(flags: Seq<bool>) -> Seq<usize> {
    indices(flags.len()).filter(|row: usize| flags[row as int])
}

/// Lists the places of the rows that are marked.
pub fn marked_rows(flags: &Vec<bool>) -> (rows: Vec<usize>)
    ensures
        rows@ == marked(flags@),
{
    let ghost all = indices(flags@.len());
    let ghost keep = |row: usize| flags@[row as int];
    let count: usize = flags.len();
    let mut rows: Vec<usize> = Vec::new();
    let mut i: usize = 0;
    proof {
        reveal(Seq::filter);
        assert(all.take(0) =~= Seq::<usize>::empty());
        assert(rows@ =~= all.take(0).filter(keep));
    }
    while i < count
        invariant
            count == flags@.len(),
            all == indices(flags@.len()),
            keep == (|row: usize| flags@[row as int]),
            0 <= i <= count,
            rows@ == all.take(i as int).filter(keep),
        decreases count - i,
    {
        proof {
            assert(all.take(i + 1) =~= all.take(i as int).push(i));
            lemma_filter_push(all.take(i as int), keep, i);
        }
        if flags[i] {
            rows.push(i);
        }
        i += 1;
    }
    assert(all.take(i as int) =~= all);
    rows
}

proof fn lemma_marked_prefix<K>(page: Seq<K>, counts: spec_fn(K) -> bool, count: nat)
    requires
        count <= page.len() <= usize::MAX,
    ensures
        indices(count).filter(|row: usize| page.map_values(counts)[row as int]).map_values(
            |row: usize| page[row as int],
        ) == page.take(count as int).filter(counts),
    decreases count,
{
    let keep = |row: usize| page.map_values(counts)[row as int];
    let at = |row: usize| page[row as int];
    reveal(Seq::filter);
    if count == 0 {
        assert(indices(count).filter(keep).map_values(at) =~= page.take(0).filter(counts));
    } else {
        let last = (count - 1) as nat;
        lemma_marked_prefix(page, counts, last);
        assert(indices(count) =~= indices(last).push(last as usize));
        assert(page.take(count as int) =~= page.take(last as int).push(page[last as int]));
        lemma_filter_push(indices(last), keep, last as usize);
        lemma_filter_push(page.take(last as int), counts, page[last as int]);
        let before = indices(last).filter(keep);
        assert(before.push(last as usize).map_values(at) =~= before.map_values(at).push(
            page[last as int],
        ));
    }
}

/// The rows at the marked places are the rows that count.
pub proof fn lemma_marked_rows_count<K>(page: Seq<K>, counts: spec_fn(K) -> bool)
    requires
        page.len() <= usize::MAX,
    ensures
        marked(page.map_values(counts)).map_values(|row: usize| page[row as int]) == page.filter(
            counts,
        ),
{
    lemma_marked_prefix(page, counts, page.len());
    assert(page.take(page.len() as int) =~= page);
}

/// The keys behind a cursor.
pub open spec fn keys_behind<K>(keys: Seq<K>, before: spec_fn(K, K) -> bool, cursor: K) -> Seq<K> {
    keys.filter(|key: K| before(cursor, key))
}

/// A page: the first keys behind a cursor.
pub open spec fn key_page<K>(
    keys: Seq<K>,
    before: spec_fn(K, K) -> bool,
    cursor: K,
    limit: nat,
) -> Seq<K> {
    let behind = keys_behind(keys, before, cursor);
    behind.take(if limit < behind.len() {
        limit as int
    } else {
        behind.len() as int
    })
}

/// The keys that are read in at most some pages, each behind the last key of the page before.
pub open spec fn keys_read<K>(
    keys: Seq<K>,
    before: spec_fn(K, K) -> bool,
    cursor: K,
    limit: nat,
    pages: nat,
) -> Seq<K>
    decreases pages,
{
    let page = key_page(keys, before, cursor, limit);
    if pages == 0 || page.len() == 0 {
        Seq::empty()
    } else {
        page + keys_read(keys, before, page.last(), limit, (pages - 1) as nat)
    }
}

/// Whether keys stand in a strict order.
pub open spec fn keys_ordered<K>(keys: Seq<K>, before: spec_fn(K, K) -> bool) -> bool {
    &&& forall|a: K| !#[trigger] before(a, a)
    &&& forall|a: K, b: K, c: K| #[trigger] before(a, b) && #[trigger] before(b, c) ==> before(a, c)
    &&& forall|i: int, j: int| 0 <= i < j < keys.len() ==> before(#[trigger] keys[i], #[trigger] keys[j])
}

proof fn lemma_behind_is_suffix<K>(keys: Seq<K>, before: spec_fn(K, K) -> bool, cursor: K) -> (start:
    int)
    requires
        keys_ordered(keys, before),
    ensures
        0 <= start <= keys.len(),
        keys_behind(keys, before, cursor) == keys.skip(start),
        forall|i: int| 0 <= i < keys.len() ==> (start <= i <==> before(cursor, #[trigger] keys[i])),
    decreases keys.len(),
{
    reveal(Seq::filter);
    let keep = |key: K| before(cursor, key);
    if keys.len() == 0 {
        assert(keys_behind(keys, before, cursor) =~= keys.skip(0));
        0
    } else {
        let rest = keys.drop_last();
        assert(rest.push(keys.last()) =~= keys);
        lemma_filter_push(rest, keep, keys.last());
        let start = lemma_behind_is_suffix(rest, before, cursor);
        let n = keys.len() - 1;
        assert(keys[n] == keys.last());
        assert forall|i: int| 0 <= i < n implies #[trigger] keys[i] == rest[i] by {}
        if before(cursor, keys.last()) {
            assert(keys.skip(start) =~= rest.skip(start).push(keys.last()));
            start
        } else {
            if start < n {
                assert(before(cursor, rest[start]));
                assert(before(keys[start], keys[n]));
            }
            assert(rest.skip(start) =~= Seq::<K>::empty());
            assert(keys.skip(keys.len() as int) =~= Seq::<K>::empty());
            keys.len() as int
        }
    }
}

/// Reading ordered keys in pages, each behind the last key of the page before, reads every key
/// behind the first cursor, once and in order, however small the pages are.
pub proof fn lemma_pages_read_all<K>(
    keys: Seq<K>,
    before: spec_fn(K, K) -> bool,
    cursor: K,
    limit: nat,
    pages: nat,
)
    requires
        keys_ordered(keys, before),
        limit > 0,
        pages >= keys_behind(keys, before, cursor).len(),
    ensures
        keys_read(keys, before, cursor, limit, pages) == keys_behind(keys, before, cursor),
    decreases pages,
{
    let behind = keys_behind(keys, before, cursor);
    let page = key_page(keys, before, cursor, limit);
    let start = lemma_behind_is_suffix(keys, before, cursor);
    if behind.len() == 0 {
        assert(keys_read(keys, before, cursor, limit, pages) =~= behind);
    } else {
        let n = page.len();
        assert(0 < n <= behind.len());
        let last = page.last();
        assert(last == keys[start + n - 1]);
        let next = lemma_behind_is_suffix(keys, before, last);
        assert(next == start + n) by {
            if next < start + n {
                assert(before(last, keys[start + n - 1]));
                assert(false);
            } else if next > start + n {
                assert(start + n < keys.len());
                assert(before(keys[start + n - 1], keys[start + n]));
                assert(false);
            }
        }
        let left = keys_behind(keys, before, last);
        assert(left =~= behind.skip(n as int));
        lemma_pages_read_all(keys, before, last, limit, (pages - 1) as nat);
        assert(page + left =~= behind);
    }
}

/// The keys that count among those that are read in at most some pages.
pub open spec fn keys_written<K>(
    keys: Seq<K>,
    before: spec_fn(K, K) -> bool,
    counts: spec_fn(K) -> bool,
    cursor: K,
    limit: nat,
    pages: nat,
) -> Seq<K>
    decreases pages,
{
    let page = key_page(keys, before, cursor, limit);
    if pages == 0 || page.len() == 0 {
        Seq::empty()
    } else {
        page.filter(counts) + keys_written(
            keys,
            before,
            counts,
            page.last(),
            limit,
            (pages - 1) as nat,
        )
    }
}

proof fn lemma_written_of_read<K>(
    keys: Seq<K>,
    before: spec_fn(K, K) -> bool,
    counts: spec_fn(K) -> bool,
    cursor: K,
    limit: nat,
    pages: nat,
)
    ensures
        keys_written(keys, before, counts, cursor, limit, pages) == keys_read(
            keys,
            before,
            cursor,
            limit,
            pages,
        ).filter(counts),
    decreases pages,
{
    let page = key_page(keys, before, cursor, limit);
    if pages == 0 || page.len() == 0 {
        reveal(Seq::filter);
        assert(Seq::<K>::empty().filter(counts) =~= Seq::<K>::empty());
    } else {
        lemma_written_of_read(keys, before, counts, page.last(), limit, (pages - 1) as nat);
        Seq::filter_distributes_over_add(
            page,
            keys_read(keys, before, page.last(), limit, (pages - 1) as nat),
            counts,
        );
    }
}

/// What all pages together write is what counts among all rows behind the first cursor.
pub proof fn lemma_pages_write_all<K>(
    keys: Seq<K>,
    before: spec_fn(K, K) -> bool,
    counts: spec_fn(K) -> bool,
    cursor: K,
    limit: nat,
    pages: nat,
)
    requires
        keys_ordered(keys, before),
        limit > 0,
        pages >= keys_behind(keys, before, cursor).len(),
    ensures
        keys_written(keys, before, counts, cursor, limit, pages) == keys_behind(
            keys,
            before,
            cursor,
        ).filter(counts),
{
    lemma_written_of_read(keys, before, counts, cursor, limit, pages);
    lemma_pages_read_all(keys, before, cursor, limit, pages);
}

/// Texts in their strict order are read by pages behind a stored text.
pub proof fn lemma_text_pages_read_all(
    keys: Seq<Seq<char>>,
    cursor: Seq<char>,
    limit: nat,
    pages: nat,
)
    requires
        strictly_sorted(keys),
        limit > 0,
        pages >= keys.len(),
    ensures
        keys_read(keys, |a: Seq<char>, b: Seq<char>| text_lt(a, b), cursor, limit, pages)
            == keys.filter(|key: Seq<char>| text_lt(cursor, key)),
{
    let before = |a: Seq<char>, b: Seq<char>| text_lt(a, b);
    assert forall|a: Seq<char>| !#[trigger] before(a, a) by {
        lemma_text_lt_irreflexive(a);
    }
    assert forall|a: Seq<char>, b: Seq<char>, c: Seq<char>| #[trigger]
        before(a, b) && #[trigger] before(b, c) implies before(a, c) by {
        lemma_text_lt_transitive(a, b, c);
    }
    assert(keys_ordered(keys, before));
    let start = lemma_behind_is_suffix(keys, before, cursor);
    assert(keys_behind(keys, before, cursor) =~= keys.filter(
        |key: Seq<char>| text_lt(cursor, key),
    )) by {
        assert((|key: Seq<char>| before(cursor, key)) =~= (|key: Seq<char>| text_lt(cursor, key)));
    }
    lemma_pages_read_all(keys, before, cursor, limit, pages);
}

} // verus!
