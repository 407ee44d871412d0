//! The frontier of a build: the nodes that wait to be processed, and those that ever waited.

use vstd::prelude::*;
use crate::text::lemma_text_lt_asymmetric;
use crate::text::lemma_text_lt_irreflexive;
use crate::text::lemma_text_lt_total;
use crate::text::lemma_text_lt_transitive;
use crate::text::text_equal;
use crate::text::text_lt;

verus! {

/// A node of the frontier. The frontier is ordered by the time of creation, then by id.
#[derive(Debug, PartialEq, Eq, PartialOrd, Ord)]
pub struct FrontierNode {
    pub created_at_ns: i64,
    pub node_id: String,
}

/// A node of the frontier with its id as characters.
#[verifier::ext_equal]
pub struct FrontierNodeView {
    pub created_at_ns: i64,
    pub node_id: Seq<char>,
}

impl View for FrontierNode {
    type V = FrontierNodeView;

    open spec fn view(&self) -> FrontierNodeView {
        FrontierNodeView { created_at_ns: self.created_at_ns, node_id: self.node_id@ }
    }
}

impl Clone for FrontierNode {
    fn clone(&self) -> (copy: Self)
        ensures
            copy@ == self@,
    {
        FrontierNode { created_at_ns: self.created_at_ns, node_id: self.node_id.clone() }
    }
}

impl FrontierNode {
    /// A node of the frontier.
    pub fn new(created_at_ns: i64, node_id: &str) -> (node: Self)
        ensures
            node@ == (FrontierNodeView { created_at_ns, node_id: node_id@ }),
    {
        FrontierNode { created_at_ns, node_id: node_id.to_owned() }
    }

    /// Whether two nodes are the same.
    pub fn is_same(&self, other: &FrontierNode) -> (same: bool)
        ensures
            same == (self@ == other@),
    {
        self.created_at_ns == other.created_at_ns && text_equal(
            self.node_id.as_str(),
            other.node_id.as_str(),
        )
    }
}

/// Whether a node is processed before another.
pub open spec fn node_before(a: FrontierNodeView, b: FrontierNodeView) -> bool {
    a.created_at_ns < b.created_at_ns || (a.created_at_ns == b.created_at_ns && text_lt(
        a.node_id,
        b.node_id,
    ))
}

/// Of two different nodes exactly one is processed before the other.
pub proof fn lemma_node_order_total(a: FrontierNodeView, b: FrontierNodeView)
    requires
        a != b,
    ensures
        node_before(a, b) != node_before(b, a),
{
    lemma_text_lt_total(a.node_id, b.node_id);
    if text_lt(a.node_id, b.node_id) {
        lemma_text_lt_asymmetric(a.node_id, b.node_id);
    }
    if text_lt(b.node_id, a.node_id) {
        lemma_text_lt_asymmetric(b.node_id, a.node_id);
    }
    if a.created_at_ns == b.created_at_ns {
        assert(a.node_id != b.node_id);
    }
}

/// What is stored of a node that ever waited.
pub struct FrontierEntry {
    pub created_at_ns: i64,
    pub pending: bool,
}

/// The stored frontier of a run, by node id.
pub type FrontierRows = Map<Seq<char>, FrontierEntry>;

/// Whether a node waits.
pub open spec fn waits(rows: FrontierRows, node: FrontierNodeView) -> bool {
    rows.contains_key(node.node_id) && rows[node.node_id] == (FrontierEntry {
        created_at_ns: node.created_at_ns,
        pending: true,
    })
}

/// Whether a node is the first that waits.
pub open spec fn is_minimum(rows: FrontierRows, node: FrontierNodeView) -> bool {
    waits(rows, node) && forall|other: FrontierNodeView| #[trigger]
        waits(rows, other) ==> other == node || node_before(node, other)
}

/// The first node that waits.
pub open spec fn minimum(rows: FrontierRows) -> Option<FrontierNodeView> {
    if exists|node: FrontierNodeView| is_minimum(rows, node) {
        Some(choose|node: FrontierNodeView| is_minimum(rows, node))
    } else {
        None
    }
}

/// There is at most one first node.
pub proof fn lemma_minimum_unique(rows: FrontierRows, node: FrontierNodeView)
    requires
        is_minimum(rows, node),
    ensures
        minimum(rows) == Some(node),
{
    let other = choose|other: FrontierNodeView| is_minimum(rows, other);
    assert(is_minimum(rows, other));
    if other != node {
        lemma_node_order_total(other, node);
    }
}

/// Where nodes wait, there is a first one.
pub proof fn lemma_minimum_exists(rows: FrontierRows, waiting: FrontierNodeView)
    requires
        rows.dom().finite(),
        waits(rows, waiting),
    ensures
        minimum(rows) is Some,
        is_minimum(rows, minimum(rows)->0),
{
    lemma_minimum_among(rows, rows.dom(), waiting);
}

/// Among the nodes with some ids, one is first.
proof fn lemma_minimum_among(rows: FrontierRows, ids: Set<Seq<char>>, waiting: FrontierNodeView)
    requires
        ids.finite(),
        waits(rows, waiting),
        forall|node: FrontierNodeView| #[trigger]
            waits(rows, node) && node_before(node, waiting) ==> ids.contains(node.node_id),
    ensures
        exists|node: FrontierNodeView| is_minimum(rows, node),
    decreases ids.len(),
{
    if exists|node: FrontierNodeView| #[trigger] waits(rows, node) && node_before(node, waiting) {
        let earlier = choose|node: FrontierNodeView| #[trigger]
            waits(rows, node) && node_before(node, waiting);
        let rest = ids.remove(earlier.node_id);
        assert forall|node: FrontierNodeView| #[trigger]
            waits(rows, node) && node_before(node, earlier) implies rest.contains(node.node_id) by {
            lemma_node_before_transitive(node, earlier, waiting);
            if node.node_id == earlier.node_id {
                assert(node == earlier);
                lemma_text_lt_irreflexive(node.node_id);
            }
        }
        lemma_minimum_among(rows, rest, earlier);
    } else {
        assert forall|other: FrontierNodeView| #[trigger] waits(rows, other) implies other == waiting
            || node_before(waiting, other) by {
            if other != waiting {
                lemma_node_order_total(other, waiting);
            }
        }
        assert(is_minimum(rows, waiting));
    }
}

proof fn lemma_node_before_transitive(
    a: FrontierNodeView,
    b: FrontierNodeView,
    c: FrontierNodeView,
)
    requires
        node_before(a, b),
        node_before(b, c),
    ensures
        node_before(a, c),
{
    if a.created_at_ns == b.created_at_ns && b.created_at_ns == c.created_at_ns {
        lemma_text_lt_transitive(a.node_id, b.node_id, c.node_id);
    }
}

/// What a replacement does first.
#[derive(Debug, Clone, Copy, PartialEq, Eq, Structural)]
pub enum ReplaceStart {
    /// The expected node is not the first that waits: nothing is written.
    Stale,
    /// The expected node no longer waits; then the additions are written.
    MarkSeen,
    /// The additions are written.
    Insert,
}

/// What a replacement does first.
pub open spec fn replace_outcome(
    expected: Option<FrontierNodeView>,
    current: Option<FrontierNodeView>,
) -> ReplaceStart {
    if expected is None {
        ReplaceStart::Insert
    } else if expected == current {
        ReplaceStart::MarkSeen
    } else {
        ReplaceStart::Stale
    }
}

/// A node that may be missing.
pub open spec fn optional_node(node: Option<FrontierNode>) -> Option<FrontierNodeView> {
    match node {
        Some(node) => Some(node@),
        None => None,
    }
}

/// Decides what a replacement does first, given the first node that waits.
pub fn replace_start(expected: &Option<FrontierNode>, current: &Option<FrontierNode>) -> (start:
    ReplaceStart)
    ensures
        start == replace_outcome(optional_node(*expected), optional_node(*current)),
{
    match expected {
        None => ReplaceStart::Insert,
        Some(expected) => match current {
            None => ReplaceStart::Stale,
            Some(current) => if expected.is_same(current) {
                ReplaceStart::MarkSeen
            } else {
                ReplaceStart::Stale
            },
        },
    }
}

/// Whether the expected node still waited when it was marked.
pub fn marked_seen(updated: usize) -> (marked: bool)
    ensures
        marked == (updated == 1),
{
    updated == 1
}

/// The nodes of some views.
pub open spec fn node_views(nodes: Seq<FrontierNode>) -> Seq<FrontierNodeView> {
    nodes.map_values(|node: FrontierNode| node@)
}

/// The additions whose insertion wrote one row.
pub open spec fn inserted_nodes(additions: Seq<FrontierNodeView>, affected: Seq<usize>) -> Seq<
    FrontierNodeView,
>
    decreases additions.len(),
{
    if additions.len() == 0 {
        Seq::empty()
    } else {
        let rest = inserted_nodes(additions.drop_last(), affected);
        if affected[additions.len() - 1] == 1 {
            rest.push(additions.last())
        } else {
            rest
        }
    }
}

/// Lists the additions whose insertion wrote one row.
pub fn inserted_additions(additions: &Vec<FrontierNode>, affected: &Vec<usize>) -> (inserted: Vec<
    FrontierNode,
>)
    requires
        affected@.len() == additions@.len(),
    ensures
        node_views(inserted@) == inserted_nodes(node_views(additions@), affected@),
{
    let mut inserted: Vec<FrontierNode> = Vec::new();
    let ghost views = node_views(additions@);
    let mut i: usize = 0;
    assert(node_views(inserted@) =~= inserted_nodes(views.take(0), affected@));
    while i < additions.len()
        invariant
            0 <= i <= additions.len(),
            affected@.len() == additions@.len(),
            views == node_views(additions@),
            node_views(inserted@) == inserted_nodes(views.take(i as int), affected@),
        decreases additions.len() - i,
    {
        proof {
            assert(views.take(i + 1).drop_last() =~= views.take(i as int));
            assert(views.take(i + 1).last() == additions@[i as int]@);
        }
        if affected[i] == 1 {
            let ghost before = inserted@;
            inserted.push(additions[i].clone());
            assert(node_views(inserted@) =~= node_views(before).push(additions@[i as int]@));
        }
        i += 1;
    }
    assert(views.take(i as int) =~= views);
    inserted
}

/// How many rows a read of the first nodes asks for; nothing is read where none is wanted.
pub fn prefix_limit(limit: usize) -> (rows: Option<i64>)
    ensures
        rows == (if limit == 0 {
            None
        } else if limit > i64::MAX {
            Some(i64::MAX)
        } else {
            Some(limit as i64)
        }),
{
    if limit == 0 {
        None
    } else if limit as u64 > 9_223_372_036_854_775_807 {
        Some(i64::MAX)
    } else {
        Some(limit as i64)
    }
}

/// Reads a stored count. A negative one counts as zero.
pub fn count_as_usize(count: i64) -> (value: usize)
    ensures
        value == (if count < 0 {
            0
        } else if count > usize::MAX {
            usize::MAX as int
        } else {
            count as int
        }),
{
    if count < 0 {
        0
    } else if count as u64 > usize::MAX as u64 {
        usize::MAX
    } else {
        count as usize
    }
}

/// The frontier after some nodes were added. A node that ever waited is left as it is.
pub open spec fn with_additions(rows: FrontierRows, additions: Seq<FrontierNodeView>) -> FrontierRows
    decreases additions.len(),
{
    if additions.len() == 0 {
        rows
    } else {
        let before = with_additions(rows, additions.drop_last());
        let node = additions.last();
        if before.contains_key(node.node_id) {
            before
        } else {
            before.insert(
                node.node_id,
                FrontierEntry { created_at_ns: node.created_at_ns, pending: true },
            )
        }
    }
}

/// Whether an addition is new: its id was in no row, and no addition before it has it.
pub open spec fn is_new(rows: FrontierRows, additions: Seq<FrontierNodeView>, place: int) -> bool {
    &&& !rows.contains_key(additions[place].node_id)
    &&& forall|i: int|
        0 <= i < place ==> (#[trigger] additions[i]).node_id != additions[place].node_id
}

/// How many rows each insertion writes, one after the other: none where a row has the id.
pub open spec fn insertion_counts(rows: FrontierRows, additions: Seq<FrontierNodeView>) -> Seq<usize> {
    Seq::new(
        additions.len(),
        |i: int|
            if with_additions(rows, additions.take(i)).contains_key(additions[i].node_id) {
                0usize
            } else {
                1usize
            },
    )
}

/// The new ones of some additions, in their order.
pub open spec fn new_additions(rows: FrontierRows, additions: Seq<FrontierNodeView>) -> Seq<
    FrontierNodeView,
>
    decreases additions.len(),
{
    if additions.len() == 0 {
        Seq::empty()
    } else {
        let rest = new_additions(rows, additions.drop_last());
        if is_new(rows, additions, additions.len() - 1) {
            rest.push(additions.last())
        } else {
            rest
        }
    }
}

proof fn lemma_known_after(
    rows: FrontierRows,
    additions: Seq<FrontierNodeView>,
    node_id: Seq<char>,
)
    ensures
        with_additions(rows, additions).contains_key(node_id) <==> rows.contains_key(node_id)
            || exists|i: int| 0 <= i < additions.len() && (#[trigger] additions[i]).node_id == node_id,
    decreases additions.len(),
{
    if additions.len() > 0 {
        let rest = additions.drop_last();
        let last = additions.len() - 1;
        lemma_known_after(rows, rest, node_id);
        if exists|i: int| 0 <= i < additions.len() && (#[trigger] additions[i]).node_id == node_id {
            let i = choose|i: int|
                0 <= i < additions.len() && (#[trigger] additions[i]).node_id == node_id;
            if i < last {
                assert(rest[i].node_id == node_id);
            }
        }
        if exists|i: int| 0 <= i < rest.len() && (#[trigger] rest[i]).node_id == node_id {
            let i = choose|i: int| 0 <= i < rest.len() && (#[trigger] rest[i]).node_id == node_id;
            assert(additions[i].node_id == node_id);
        }
        if additions.last().node_id == node_id {
            assert(additions[last].node_id == node_id);
        }
    }
}

/// What is inserted is the additions whose id was in no row before, the first of repeats. They
/// wait afterwards, and every other row is left as it was.
pub proof fn lemma_new_additions_are_inserted(
    rows: FrontierRows,
    additions: Seq<FrontierNodeView>,
    node_id: Seq<char>,
)
    ensures
        inserted_nodes(additions, insertion_counts(rows, additions)) == new_additions(
            rows,
            additions,
        ),
        forall|i: int|
            0 <= i < new_additions(rows, additions).len() ==> waits(
                with_additions(rows, additions),
                #[trigger] new_additions(rows, additions)[i],
            ),
        rows.contains_key(node_id) ==> with_additions(rows, additions).contains_key(node_id)
            && with_additions(rows, additions)[node_id] == rows[node_id],
        with_additions(rows, additions).contains_key(node_id) && !rows.contains_key(node_id)
            ==> exists|i: int|
            0 <= i < new_additions(rows, additions).len() && (#[trigger] new_additions(
                rows,
                additions,
            )[i]).node_id == node_id,
    decreases additions.len(),
{
    if additions.len() > 0 {
        let rest = additions.drop_last();
        let last = additions.len() - 1;
        let node = additions.last();
        lemma_new_additions_are_inserted(rows, rest, node_id);
        assert(rest =~= additions.take(last));
        assert forall|i: int| 0 <= i < rest.len() implies #[trigger] insertion_counts(rows, rest)[i]
            == insertion_counts(rows, additions)[i] by {
            assert(rest.take(i) =~= additions.take(i));
        }
        lemma_inserted_agree(rest, insertion_counts(rows, rest), insertion_counts(rows, additions));
        lemma_known_after(rows, rest, node.node_id);
        if is_new(rows, additions, last) {
            assert forall|i: int| 0 <= i < rest.len() implies (#[trigger] rest[i]).node_id
                != node.node_id by {
                assert(additions[i].node_id != additions[last].node_id);
            }
        } else if !rows.contains_key(node.node_id) {
            let i = choose|i: int|
                0 <= i < last && (#[trigger] additions[i]).node_id == additions[last].node_id;
            assert(rest[i].node_id == node.node_id);
        }
        let before = new_additions(rows, rest);
        let after = new_additions(rows, additions);
        assert forall|i: int| 0 <= i < after.len() implies waits(
            with_additions(rows, additions),
            #[trigger] after[i],
        ) by {
            if i < before.len() {
                assert(waits(with_additions(rows, rest), before[i]));
            }
        }
        if with_additions(rows, additions).contains_key(node_id) && !rows.contains_key(node_id) {
            if with_additions(rows, rest).contains_key(node_id) {
                let i = choose|i: int|
                    0 <= i < before.len() && (#[trigger] before[i]).node_id == node_id;
                assert(after[i].node_id == node_id);
            } else {
                assert(after[after.len() - 1].node_id == node_id);
            }
        }
    }
}

proof fn lemma_inserted_agree(
    additions: Seq<FrontierNodeView>,
    left: Seq<usize>,
    right: Seq<usize>,
)
    requires
        additions.len() <= left.len(),
        additions.len() <= right.len(),
        forall|i: int| 0 <= i < additions.len() ==> #[trigger] left[i] == right[i],
    ensures
        inserted_nodes(additions, left) == inserted_nodes(additions, right),
    decreases additions.len(),
{
    if additions.len() > 0 {
        lemma_inserted_agree(additions.drop_last(), left, right);
        assert(left[additions.len() - 1] == right[additions.len() - 1]);
    }
}

/// The frontier after a replacement.
pub open spec fn replaced(
    rows: FrontierRows,
    expected: Option<FrontierNodeView>,
    additions: Seq<FrontierNodeView>,
) -> FrontierRows {
    match replace_outcome(expected, minimum(rows)) {
        ReplaceStart::Stale => rows,
        ReplaceStart::MarkSeen => with_additions(
            rows.insert(
                expected->0.node_id,
                FrontierEntry { created_at_ns: expected->0.created_at_ns, pending: false },
            ),
            additions,
        ),
        ReplaceStart::Insert => with_additions(rows, additions),
    }
}

proof fn lemma_additions_keep(
    rows: FrontierRows,
    additions: Seq<FrontierNodeView>,
    node_id: Seq<char>,
)
    requires
        rows.contains_key(node_id),
    ensures
        with_additions(rows, additions).contains_key(node_id),
        with_additions(rows, additions)[node_id] == rows[node_id],
    decreases additions.len(),
{
    if additions.len() > 0 {
        lemma_additions_keep(rows, additions.drop_last(), node_id);
    }
}

/// A node that ever waited is never forgotten, and one that was processed never waits again.
pub proof fn lemma_seen_forever(
    rows: FrontierRows,
    expected: Option<FrontierNodeView>,
    additions: Seq<FrontierNodeView>,
    node_id: Seq<char>,
)
    requires
        rows.contains_key(node_id),
    ensures
        ({
            let after = replaced(rows, expected, additions);
            &&& after.contains_key(node_id)
            &&& after[node_id].created_at_ns == rows[node_id].created_at_ns
            &&& after[node_id].pending ==> rows[node_id].pending
        }),
{
    match replace_outcome(expected, minimum(rows)) {
        ReplaceStart::Stale => {},
        ReplaceStart::MarkSeen => {
            let node = expected->0;
            assert(is_minimum(rows, node));
            let marked = rows.insert(
                node.node_id,
                FrontierEntry { created_at_ns: node.created_at_ns, pending: false },
            );
            lemma_additions_keep(marked, additions, node_id);
        },
        ReplaceStart::Insert => {
            lemma_additions_keep(rows, additions, node_id);
        },
    }
}

/// Every node that is added is known afterwards, where the replacement is not stale.
pub proof fn lemma_additions_are_known(
    rows: FrontierRows,
    additions: Seq<FrontierNodeView>,
    i: int,
)
    requires
        0 <= i < additions.len(),
    ensures
        with_additions(rows, additions).contains_key(additions[i].node_id),
    decreases additions.len(),
{
    if i < additions.len() - 1 {
        lemma_additions_are_known(rows, additions.drop_last(), i);
    }
}

/// A replacement that expects another first node than the one that waits writes nothing.
pub proof fn lemma_stale_minimum_performs_no_writes(
    rows: FrontierRows,
    expected: FrontierNodeView,
    additions: Seq<FrontierNodeView>,
)
    requires
        minimum(rows) != Some(expected),
    ensures
        replaced(rows, Some(expected), additions) == rows,
{
}

/// Of two replacements that expect the same first node only the first one writes.
pub proof fn lemma_minimum_is_completed_once(
    rows: FrontierRows,
    expected: FrontierNodeView,
    first: Seq<FrontierNodeView>,
    second: Seq<FrontierNodeView>,
)
    requires
        minimum(rows) == Some(expected),
    ensures
        ({
            let after = replaced(rows, Some(expected), first);
            &&& !after[expected.node_id].pending
            &&& replaced(after, Some(expected), second) == after
        }),
{
    let marked = rows.insert(
        expected.node_id,
        FrontierEntry { created_at_ns: expected.created_at_ns, pending: false },
    );
    lemma_additions_keep(marked, first, expected.node_id);
    let after = replaced(rows, Some(expected), first);
    assert(after == with_additions(marked, first));
    if minimum(after) == Some(expected) {
        assert(is_minimum(after, expected));
        assert(waits(after, expected));
    }
}

/// A node that was created earlier is processed earlier, and of two that were created at once the
/// one whose id comes first.
pub proof fn lemma_minimum_is_earliest(
    rows: FrontierRows,
    first: FrontierNodeView,
    other: FrontierNodeView,
)
    requires
        minimum(rows) == Some(first),
        waits(rows, other),
        first != other,
    ensures
        waits(rows, first),
        first.created_at_ns <= other.created_at_ns,
        first.created_at_ns == other.created_at_ns ==> text_lt(first.node_id, other.node_id),
{
    assert(is_minimum(rows, first));
}

/// Completing the first node of the frontier takes it out, puts in every addition that was never
/// known, and leaves every other node as it was.
pub proof fn lemma_completing_the_minimum(
    rows: FrontierRows,
    expected: FrontierNodeView,
    additions: Seq<FrontierNodeView>,
    place: int,
    other: Seq<char>,
)
    requires
        minimum(rows) == Some(expected),
        0 <= place < additions.len(),
        is_new(rows, additions, place),
        forall|i: int| 0 <= i < additions.len() ==> (#[trigger] additions[i]).node_id != other,
        other != expected.node_id,
    ensures
        ({
            let after = replaced(rows, Some(expected), additions);
            &&& !waits(after, expected)
            &&& waits(after, additions[place])
            &&& after.contains_key(other) <==> rows.contains_key(other)
            &&& rows.contains_key(other) ==> after[other] == rows[other]
        }),
{
    assert(is_minimum(rows, expected));
    let marked = rows.insert(
        expected.node_id,
        FrontierEntry { created_at_ns: expected.created_at_ns, pending: false },
    );
    lemma_additions_keep(marked, additions, expected.node_id);
    lemma_new_addition_waits(marked, additions, place);
    lemma_others_stay(marked, additions, other);
}

/// Adding nodes to the frontier completes none of them: every addition that was never known waits,
/// and every other node is as it was.
pub proof fn lemma_adding_to_the_frontier(
    rows: FrontierRows,
    additions: Seq<FrontierNodeView>,
    place: int,
    other: Seq<char>,
)
    requires
        0 <= place < additions.len(),
        is_new(rows, additions, place),
        forall|i: int| 0 <= i < additions.len() ==> (#[trigger] additions[i]).node_id != other,
    ensures
        ({
            let after = replaced(rows, None, additions);
            &&& waits(after, additions[place])
            &&& after.contains_key(other) <==> rows.contains_key(other)
            &&& rows.contains_key(other) ==> after[other] == rows[other]
        }),
{
    lemma_new_addition_waits(rows, additions, place);
    lemma_others_stay(rows, additions, other);
}

proof fn lemma_new_addition_waits(rows: FrontierRows, additions: Seq<FrontierNodeView>, place: int)
    requires
        0 <= place < additions.len(),
        is_new(rows, additions, place),
    ensures
        waits(with_additions(rows, additions), additions[place]),
    decreases additions.len(),
{
    let rest = additions.drop_last();
    if place < rest.len() {
        assert forall|i: int| 0 <= i < place implies (#[trigger] rest[i]).node_id
            != rest[place].node_id by {
            assert(additions[i].node_id != additions[place].node_id);
        }
        lemma_new_addition_waits(rows, rest, place);
    } else {
        assert forall|i: int| 0 <= i < rest.len() implies (#[trigger] rest[i]).node_id
            != additions[place].node_id by {
            assert(additions[i].node_id != additions[place].node_id);
        }
        lemma_others_stay(rows, rest, additions[place].node_id);
    }
}

proof fn lemma_others_stay(rows: FrontierRows, additions: Seq<FrontierNodeView>, other: Seq<char>)
    requires
        forall|i: int| 0 <= i < additions.len() ==> (#[trigger] additions[i]).node_id != other,
    ensures
        with_additions(rows, additions).contains_key(other) <==> rows.contains_key(other),
        rows.contains_key(other) ==> with_additions(rows, additions)[other] == rows[other],
    decreases additions.len(),
{
    if additions.len() > 0 {
        let rest = additions.drop_last();
        assert forall|i: int| 0 <= i < rest.len() implies (#[trigger] rest[i]).node_id != other by {
            assert(additions[i].node_id != other);
        }
        lemma_others_stay(rows, rest, other);
        assert(additions[additions.len() - 1].node_id != other);
    }
}

} // verus!
