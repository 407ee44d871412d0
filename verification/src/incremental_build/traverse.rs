//! Walking the nodes of a build, each after all of its parents.

use vstd::prelude::*;
use vstd::string::*;
use crate::incremental_build::discovered_count;
use crate::incremental_build::invalid;
use crate::incremental_build::paging::lemma_marked_rows_count;
use crate::incremental_build::paging::marked;
use crate::incremental_build::paging::marked_rows;
use crate::incremental_build::IncrementalBuildKind;
use crate::incremental_build::InvalidStoreValue;
use crate::incremental_build::InvalidStoreValueView;
use crate::incremental_build::StepFailure;
use crate::incremental_build::BUILD_PROGRESS_NODE_INTERVAL;
use crate::incremental_build::DEFAULT_CHILD_PAGE_SIZE;
use crate::incremental_layout::quoted;
use crate::incremental_layout::quoted_text;
use crate::sequences::lemma_filter_push;
use crate::text::lemma_text_lt_asymmetric;
use crate::text::lemma_text_lt_irreflexive;
use crate::text::optional_text;
use crate::text::signed_decimal_i64;
use crate::text::signed_text;
use crate::text::text_equal;
use crate::text::text_lt;

verus! {

/// How a walk starts.
#[derive(Debug, Clone, Copy, PartialEq, Eq, Structural)]
pub enum SeedStep {
    /// It started before: what is ready is put into the frontier.
    EnqueueReady,
    /// It starts at the root.
    SeedRoot,
    /// It starts at the new nodes that have no new parents, page by page.
    SeedPages,
}

/// Decides how a walk starts.
pub fn seed_incremental_frontier(kind: IncrementalBuildKind, seed_complete: i32) -> (step: SeedStep)
    ensures
        step == (if seed_complete == 1 {
            SeedStep::EnqueueReady
        } else if kind == IncrementalBuildKind::Full {
            SeedStep::SeedRoot
        } else {
            SeedStep::SeedPages
        }),
{
    if seed_complete == 1 {
        SeedStep::EnqueueReady
    } else {
        match kind {
            IncrementalBuildKind::Full => SeedStep::SeedRoot,
            IncrementalBuildKind::Append => SeedStep::SeedPages,
        }
    }
}

/// A new node, with whether it has a new parent other than the root.
#[derive(Debug, Clone, PartialEq, Eq)]
pub struct SeedCandidate {
    pub node_id: String,
    pub has_new_parent: bool,
}

/// Whether a walk starts at a new node.
pub open spec fn is_seed(candidate: SeedCandidate, root_id: Seq<char>) -> bool {
    candidate.node_id@ != root_id && !candidate.has_new_parent
}

/// What a page of the start leads to.
#[derive(Debug, Clone, PartialEq, Eq)]
pub enum SeedPage {
    /// There are no more new nodes. The start is complete, with the cursor where it is.
    Complete,
    /// The walk starts at the nodes at some places, and the cursor moves.
    Seeds { rows: Vec<usize>, cursor: String },
}

/// Decides what a page of new nodes leads to.
pub fn append_seed_page(candidates: &Vec<SeedCandidate>, root_id: &str) -> (page: SeedPage)
    ensures
        match page {
            SeedPage::Complete => candidates@.len() == 0,
            SeedPage::Seeds { rows, cursor } => {
                &&& candidates@.len() > 0
                &&& rows@ == marked(
                    candidates@.map_values(|c: SeedCandidate| is_seed(c, root_id@)),
                )
                &&& cursor@ == candidates@.last().node_id@
            },
        },
{
    if candidates.len() == 0 {
        return SeedPage::Complete;
    }
    let mut flags: Vec<bool> = Vec::new();
    let mut i: usize = 0;
    while i < candidates.len()
        invariant
            0 <= i <= candidates.len(),
            flags@.len() == i,
            forall|j: int| 0 <= j < i ==> #[trigger] flags@[j] == is_seed(candidates@[j], root_id@),
        decreases candidates.len() - i,
    {
        let candidate = &candidates[i];
        flags.push(
            !text_equal(candidate.node_id.as_str(), root_id) && !candidate.has_new_parent,
        );
        i += 1;
    }
    assert(flags@ =~= candidates@.map_values(|c: SeedCandidate| is_seed(c, root_id@)));
    SeedPage::Seeds {
        rows: marked_rows(&flags),
        cursor: candidates[candidates.len() - 1].node_id.clone(),
    }
}

/// How many rows a page of children asks for.
pub fn page_limit(child_page_size: usize) -> (limit: i64)
    ensures
        limit == (if child_page_size > i64::MAX {
            i64::MAX as int
        } else {
            child_page_size as int
        }),
{
    if child_page_size as u64 > 9_223_372_036_854_775_807 {
        i64::MAX
    } else {
        child_page_size as i64
    }
}

/// The sum of some counts, as far as a `usize` reaches.
pub open spec fn saturated_total(counts: Seq<usize>) -> int
    decreases counts.len(),
{
    if counts.len() == 0 {
        0
    } else {
        let sum = saturated_total(counts.drop_last()) + counts.last();
        if sum > usize::MAX {
            usize::MAX as int
        } else {
            sum
        }
    }
}

/// Counts the rows that were inserted for the start of a walk.
pub fn inserted_seed_count(affected: &Vec<usize>) -> (inserted: usize)
    ensures
        inserted == saturated_total(affected@),
{
    let mut inserted: usize = 0;
    let mut i: usize = 0;
    while i < affected.len()
        invariant
            0 <= i <= affected.len(),
            inserted == saturated_total(affected@.take(i as int)),
        decreases affected.len() - i,
    {
        assert(affected@.take(i + 1).drop_last() =~= affected@.take(i as int));
        inserted =
        if inserted > usize::MAX - affected[i] {
            usize::MAX
        } else {
            inserted + affected[i]
        };
        i += 1;
    }
    assert(affected@.take(i as int) =~= affected@);
    inserted
}

/// What a walk does with the first node of the frontier.
#[derive(Debug, Clone, Copy, PartialEq, Eq, Structural)]
pub enum CursorTurn {
    /// The node is projected; its children come next.
    ExpandChildren,
    /// One more step of the projection of the node.
    Project,
}

/// Decides what a walk does with the first node of the frontier, given whether its projection is
/// complete.
pub fn process_frontier_cursor(node_id: &str, projection_complete: Option<i32>) -> (outcome: Result<
    CursorTurn,
    InvalidStoreValue,
>)
    ensures
        match outcome {
            Ok(turn) => projection_complete matches Some(complete) && turn == (if complete == 1 {
                CursorTurn::ExpandChildren
            } else {
                CursorTurn::Project
            }),
            Err(error) => projection_complete is None && error@ == (InvalidStoreValueView {
                column: "work_node"@,
                value: node_id@,
            }),
        },
{
    match projection_complete {
        None => Err(invalid("work_node", node_id)),
        Some(complete) => if complete == 1 {
            Ok(CursorTurn::ExpandChildren)
        } else {
            Ok(CursorTurn::Project)
        },
    }
}

/// One more, as far as a `usize` reaches.
pub fn next_count(count: usize) -> (next: usize)
    ensures
        next == (if count == usize::MAX {
            count as int
        } else {
            count + 1
        }),
{
    if count == usize::MAX {
        count
    } else {
        count + 1
    }
}

/// Whether the lease is renewed after a step of a projection.
pub fn renews_after_projection_step(projection_steps: usize) -> (renews: bool)
    ensures
        renews == (projection_steps % 128 == 0),
{
    projection_steps % DEFAULT_CHILD_PAGE_SIZE == 0
}

/// Whether the lease is renewed after a page of children: every so many pages, or once the time
/// of its heartbeat is over.
pub fn should_renew_child_page_lease(
    child_pages: usize,
    elapsed_ms: u64,
    heartbeat_interval_ms: u64,
) -> (renews: bool)
    ensures
        renews == (child_pages % 128 == 0 || elapsed_ms >= heartbeat_interval_ms),
{
    child_pages % 128 == 0 || elapsed_ms >= heartbeat_interval_ms
}

/// What a walk does between two nodes.
#[derive(Debug, Clone, Copy, PartialEq, Eq, Structural)]
pub struct Maintenance {
    pub flush: bool,
    pub renew_lease: bool,
    pub report_progress: bool,
}

/// Decides what a walk does between two nodes.
pub fn maintain_incremental_traversal(buffer_is_full: bool, processed_nodes: usize) -> (maintenance:
    Maintenance)
    ensures
        maintenance == (Maintenance {
            flush: buffer_is_full,
            renew_lease: processed_nodes % 1_024 == 0,
            report_progress: processed_nodes > 0 && processed_nodes % 10_000 == 0,
        }),
{
    Maintenance {
        flush: buffer_is_full,
        renew_lease: processed_nodes % 1_024 == 0,
        report_progress: processed_nodes > 0 && processed_nodes % BUILD_PROGRESS_NODE_INTERVAL == 0,
    }
}

/// The debug form of a text that may be missing.
pub open spec fn quoted_option(text: Option<Seq<char>>) -> Seq<char> {
    match text {
        Some(text) => "Some("@ + quoted_text(text) + ")"@,
        None => "None"@,
    }
}

/// What came of completing the first node of the frontier.
#[derive(Debug, Clone, PartialEq, Eq)]
pub enum FrontierCompletion {
    Applied,
    StaleMinimum { current: Option<String> },
}

/// The node that a walk processed must still be the first of the frontier.
pub fn complete_frontier_minimum(expected: &str, completion: &FrontierCompletion) -> (outcome: Result<
    (),
    InvalidStoreValue,
>)
    ensures
        match *completion {
            FrontierCompletion::Applied => outcome is Ok,
            FrontierCompletion::StaleMinimum { current } => outcome matches Err(error) && error@
                == (InvalidStoreValueView {
                column: "frontier_minimum"@,
                value: "expected "@ + quoted_text(expected@) + ", current "@ + quoted_option(
                    optional_text(current),
                ),
            }),
        },
{
    match completion {
        FrontierCompletion::Applied => Ok(()),
        FrontierCompletion::StaleMinimum { current } => {
            let found = match current {
                Some(node_id) => "Some(".to_owned().concat(quoted(node_id.as_str()).as_str()).concat(
                    ")",
                ),
                None => "None".to_owned(),
            };
            let value = "expected ".to_owned().concat(quoted(expected).as_str()).concat(
                ", current ",
            ).concat(found.as_str());
            Err(invalid("frontier_minimum", value.as_str()))
        },
    }
}

/// A build goes on only while its lease can be renewed.
pub fn require_build_lease(renewed: bool, generation: i64) -> (outcome: Result<
    (),
    InvalidStoreValue,
>)
    ensures
        match outcome {
            Ok(_) => renewed,
            Err(error) => !renewed && error@ == (InvalidStoreValueView {
                column: "incremental_build_lease"@,
                value: "generation "@ + signed_text(generation as int) + " is no longer owned"@,
            }),
        },
{
    if renewed {
        Ok(())
    } else {
        let value = "generation ".to_owned().concat(signed_decimal_i64(generation).as_str()).concat(
            " is no longer owned",
        );
        Err(invalid("incremental_build_lease", value.as_str()))
    }
}

/// Where the frontier keeps its nodes.
#[derive(Debug, Clone, Copy, PartialEq, Eq, Structural)]
pub enum FrontierMode {
    HotAll,
    Spilled,
}

/// The name of a mode of the frontier in reports.
pub fn frontier_mode_value(mode: FrontierMode) -> (name: &'static str)
    ensures
        name@ == (match mode {
            FrontierMode::HotAll => "in_memory"@,
            FrontierMode::Spilled => "external_sqlite"@,
        }),
{
    match mode {
        FrontierMode::HotAll => "in_memory",
        FrontierMode::Spilled => "external_sqlite",
    }
}

/// Whether a change of the mode of the frontier is reported.
pub fn log_frontier_storage_transition(previous: FrontierMode, current: FrontierMode) -> (reported:
    bool)
    ensures
        reported == (previous != current),
{
    previous != current
}

/// A parent or a child of a node, with whether it is new and whether some branch contributes it.
#[derive(Debug, Clone, PartialEq, Eq)]
pub struct Relative {
    pub node_id: String,
    pub in_delta: bool,
    pub contributed: bool,
}

/// Whether a child waits for a parent. A build that adds to its baseline waits for new parents
/// only, and never for the root.
pub open spec fn waits_for(kind: IncrementalBuildKind, root_id: Seq<char>, parent: Relative) -> bool {
    match kind {
        IncrementalBuildKind::Append => parent.node_id@ != root_id && parent.in_delta,
        IncrementalBuildKind::Full => parent.contributed,
    }
}

/// Whether a child belongs to a build.
pub open spec fn child_in_build(kind: IncrementalBuildKind, child: Relative) -> bool {
    match kind {
        IncrementalBuildKind::Append => child.in_delta,
        IncrementalBuildKind::Full => child.contributed,
    }
}

/// The places of the parents that a child waits for.
pub open spec fn awaited(
    kind: IncrementalBuildKind,
    root_id: Seq<char>,
    parents: Seq<Relative>,
) -> Seq<usize> {
    marked(parents.map_values(|parent: Relative| waits_for(kind, root_id, parent)))
}

/// What a transaction on the parents of a node does.
#[derive(Debug, Clone, PartialEq, Eq)]
pub enum RequirementStep {
    /// All parents were counted before.
    Counted,
    /// There are no more parents.
    Complete,
    /// The node waits for more parents, and the cursor moves.
    Count { added: i32, cursor: String },
}

/// What a transaction does, with its text as characters.
#[verifier::ext_equal]
pub enum RequirementStepView {
    Counted,
    Complete,
    Count { added: int, cursor: Seq<char> },
}

impl View for RequirementStep {
    type V = RequirementStepView;

    open spec fn view(&self) -> RequirementStepView {
        match *self {
            RequirementStep::Counted => RequirementStepView::Counted,
            RequirementStep::Complete => RequirementStepView::Complete,
            RequirementStep::Count { added, cursor } => RequirementStepView::Count {
                added: added as int,
                cursor: cursor@,
            },
        }
    }
}

/// What a transaction on the parents of a node does with a page of them.
pub open spec fn requirement_step(
    kind: IncrementalBuildKind,
    root_id: Seq<char>,
    requirements_complete: i32,
    parents: Seq<Relative>,
) -> RequirementStepView {
    if requirements_complete == 1 {
        RequirementStepView::Counted
    } else if parents.len() == 0 {
        RequirementStepView::Complete
    } else {
        RequirementStepView::Count {
            added: awaited(kind, root_id, parents).len() as int,
            cursor: parents.last().node_id@,
        }
    }
}

fn awaited_parents(kind: IncrementalBuildKind, root_id: &str, parents: &Vec<Relative>) -> (rows: Vec<
    usize,
>)
    ensures
        rows@ == awaited(kind, root_id@, parents@),
        rows@.len() <= parents@.len(),
{
    let mut flags: Vec<bool> = Vec::new();
    let mut i: usize = 0;
    while i < parents.len()
        invariant
            0 <= i <= parents.len(),
            flags@.len() == i,
            forall|j: int|
                0 <= j < i ==> #[trigger] flags@[j] == waits_for(kind, root_id@, parents@[j]),
        decreases parents.len() - i,
    {
        let parent = &parents[i];
        flags.push(
            match kind {
                IncrementalBuildKind::Append => !text_equal(parent.node_id.as_str(), root_id)
                    && parent.in_delta,
                IncrementalBuildKind::Full => parent.contributed,
            },
        );
        i += 1;
    }
    assert(flags@ =~= parents@.map_values(|parent: Relative| waits_for(kind, root_id@, parent)));
    proof {
        let all = crate::sorting::indices(flags@.len());
        lemma_filter_length(all, |row: usize| flags@[row as int]);
    }
    marked_rows(&flags)
}

proof fn lemma_filter_length(list: Seq<usize>, keep: spec_fn(usize) -> bool)
    ensures
        list.filter(keep).len() <= list.len(),
    decreases list.len(),
{
    reveal(Seq::filter);
    if list.len() > 0 {
        lemma_filter_length(list.drop_last(), keep);
    }
}

/// Decides what a transaction on the parents of a node does with a page of them.
pub fn advance_parent_requirement_page(
    kind: IncrementalBuildKind,
    root_id: &str,
    requirements_complete: i32,
    parents: &Vec<Relative>,
) -> (step: RequirementStep)
    requires
        parents@.len() <= i32::MAX,
    ensures
        step@ == requirement_step(kind, root_id@, requirements_complete, parents@),
{
    if requirements_complete == 1 {
        return RequirementStep::Counted;
    }
    if parents.len() == 0 {
        return RequirementStep::Complete;
    }
    let rows = awaited_parents(kind, root_id, parents);
    RequirementStep::Count {
        added: rows.len() as i32,
        cursor: parents[parents.len() - 1].node_id.clone(),
    }
}

/// What a page of children leads to.
#[derive(Debug, Clone, PartialEq, Eq)]
pub struct ChildPage {
    /// The places of the children that belong to the build.
    pub rows: Vec<usize>,
    pub cursor: String,
    pub complete: bool,
}

/// Decides what a page of children behind a cursor leads to. Once there are no more children, the
/// cursor stays and the node is complete.
pub fn discover_ready_child_page(
    kind: IncrementalBuildKind,
    cursor: &str,
    children: &Vec<Relative>,
) -> (page: ChildPage)
    ensures
        page.rows@ == marked(children@.map_values(|child: Relative| child_in_build(kind, child))),
        page.complete == (children@.len() == 0),
        page.cursor@ == (if children@.len() == 0 {
            cursor@
        } else {
            children@.last().node_id@
        }),
{
    let mut flags: Vec<bool> = Vec::new();
    let mut i: usize = 0;
    while i < children.len()
        invariant
            0 <= i <= children.len(),
            flags@.len() == i,
            forall|j: int| 0 <= j < i ==> #[trigger] flags@[j] == child_in_build(kind, children@[j]),
        decreases children.len() - i,
    {
        flags.push(
            match kind {
                IncrementalBuildKind::Append => children[i].in_delta,
                IncrementalBuildKind::Full => children[i].contributed,
            },
        );
        i += 1;
    }
    assert(flags@ =~= children@.map_values(|child: Relative| child_in_build(kind, child)));
    ChildPage {
        rows: marked_rows(&flags),
        cursor: if children.len() == 0 {
            cursor.to_owned()
        } else {
            children[children.len() - 1].node_id.clone()
        },
        complete: children.len() == 0,
    }
}

/// Whether a page of children is still to be committed: the node is not complete, and its cursor
/// is where the page was read from.
pub fn commit_child_page(complete: i32, current_cursor: &str, expected_cursor: &str) -> (commits: bool)
    ensures
        commits == (complete != 1 && current_cursor@ == expected_cursor@),
{
    complete != 1 && text_equal(current_cursor, expected_cursor)
}

/// A node of a build.
#[derive(Debug, Clone, Copy, PartialEq, Eq, Structural)]
pub struct WorkNode {
    pub remaining_parents: i32,
    pub requirements_complete: i32,
    pub processed: i32,
}

/// A node after one of its parents was processed, where that was not known yet.
pub open spec fn satisfied(node: WorkNode, already_known: bool) -> Result<WorkNode, StepFailure> {
    if already_known {
        Ok(node)
    } else if node.processed == 0 && node.remaining_parents > 0 && node.requirements_complete == 1 {
        Ok(WorkNode { remaining_parents: (node.remaining_parents - 1) as i32, ..node })
    } else {
        Err(StepFailure::NotFound)
    }
}

/// Tells a node that one of its parents was processed.
pub fn satisfy_parent(node: WorkNode, already_known: bool) -> (outcome: Result<
    WorkNode,
    StepFailure,
>)
    ensures
        outcome == satisfied(node, already_known),
{
    if already_known {
        Ok(node)
    } else if node.processed == 0 && node.remaining_parents > 0 && node.requirements_complete == 1 {
        Ok(
            WorkNode {
                remaining_parents: node.remaining_parents - 1,
                requirements_complete: node.requirements_complete,
                processed: node.processed,
            },
        )
    } else {
        Err(StepFailure::NotFound)
    }
}

/// Whether a node enters the frontier: it waits for no parent, none that it waited for is still
/// in work, and it did not enter before.
pub open spec fn ready(node: WorkNode, enqueued: bool, parent_in_work: bool) -> bool {
    node.processed == 0 && node.requirements_complete == 1 && node.remaining_parents == 0
        && !enqueued && !parent_in_work
}

/// Whether a node enters the frontier.
pub fn is_ready(node: WorkNode, enqueued: bool, parent_in_work: bool) -> (enters: bool)
    ensures
        enters == ready(node, enqueued, parent_in_work),
{
    node.processed == 0 && node.requirements_complete == 1 && node.remaining_parents == 0
        && !enqueued && !parent_in_work
}

/// Whether a node counts the parents that it still waits for.
pub open spec fn counts_parents(
    node: WorkNode,
    required: Set<Seq<char>>,
    known: Set<Seq<char>>,
) -> bool {
    &&& required.finite()
    &&& known.subset_of(required)
    &&& node.remaining_parents == required.len() - known.len()
}

/// A node that counts its parents never refuses one that it waits for, and goes on counting; to
/// be told of the same parent again changes nothing.
pub proof fn lemma_satisfying_counts(
    node: WorkNode,
    required: Set<Seq<char>>,
    known: Set<Seq<char>>,
    parent: Seq<char>,
)
    requires
        counts_parents(node, required, known),
        node.processed == 0,
        node.requirements_complete == 1,
        required.contains(parent),
    ensures
        satisfied(node, known.contains(parent)) is Ok,
        counts_parents(
            satisfied(node, known.contains(parent))->Ok_0,
            required,
            known.insert(parent),
        ),
{
    vstd::set_lib::lemma_len_subset(known, required);
    if known.contains(parent) {
        assert(known.insert(parent) =~= known);
    } else {
        vstd::set_lib::lemma_len_subset(known.insert(parent), required);
    }
}

/// A node enters the frontier only after every parent that it waits for was processed, and may
/// enter it then.
pub proof fn lemma_ready_after_all_parents(
    node: WorkNode,
    required: Set<Seq<char>>,
    known: Set<Seq<char>>,
)
    requires
        counts_parents(node, required, known),
        node.processed == 0,
        node.requirements_complete == 1,
    ensures
        ready(node, false, false) <==> known == required,
{
    vstd::set_lib::lemma_len_subset(known, required);
    if known.len() == required.len() {
        vstd::set_lib::lemma_subset_equality(known, required);
    }
}

/// What a walk knows: its nodes, the parents that each of them waits for, and those that were
/// processed.
pub struct Walk {
    pub nodes: Set<Seq<char>>,
    pub required: spec_fn(Seq<char>) -> Set<Seq<char>>,
    pub processed: Set<Seq<char>>,
    pub work: spec_fn(Seq<char>) -> WorkNode,
}

/// Whether a walk counts, for each node that is left, the parents that it still waits for.
pub open spec fn walk_counts(walk: Walk) -> bool {
    &&& walk.nodes.finite()
    &&& walk.processed.subset_of(walk.nodes)
    &&& forall|node: Seq<char>| #[trigger]
        walk.nodes.contains(node) && !walk.processed.contains(node) ==> {
            let work = (walk.work)(node);
            let required = (walk.required)(node);
            &&& required.subset_of(walk.nodes)
            &&& work.processed == 0
            &&& work.requirements_complete == 1
            &&& counts_parents(work, required, required.intersect(walk.processed))
        }
}

proof fn lemma_first_left(walk: Walk, depth: spec_fn(Seq<char>) -> nat, start: Seq<char>) -> (first: Seq<
    char,
>)
    requires
        walk.nodes.contains(start),
        !walk.processed.contains(start),
    ensures
        walk.nodes.contains(first),
        !walk.processed.contains(first),
        forall|node: Seq<char>| #[trigger]
            walk.nodes.contains(node) && !walk.processed.contains(node) ==> depth(first) <= depth(
                node,
            ),
    decreases depth(start),
{
    if exists|node: Seq<char>| #[trigger]
        walk.nodes.contains(node) && !walk.processed.contains(node) && depth(node) < depth(start) {
        let node = choose|node: Seq<char>| #[trigger]
            walk.nodes.contains(node) && !walk.processed.contains(node) && depth(node) < depth(start);
        lemma_first_left(walk, depth, node)
    } else {
        start
    }
}

/// A walk over a graph without cycles is never stuck: while a node is left, some node is ready.
pub proof fn lemma_walk_goes_on(walk: Walk, depth: spec_fn(Seq<char>) -> nat)
    requires
        walk_counts(walk),
        walk.processed != walk.nodes,
        forall|node: Seq<char>, parent: Seq<char>| #[trigger]
            walk.nodes.contains(node) && #[trigger] (walk.required)(node).contains(parent)
                ==> depth(parent) < depth(node),
    ensures
        exists|node: Seq<char>| #[trigger]
            walk.nodes.contains(node) && !walk.processed.contains(node) && ready(
                (walk.work)(node),
                false,
                false,
            ),
{
    assert(exists|node: Seq<char>| #[trigger]
        walk.nodes.contains(node) && !walk.processed.contains(node)) by {
        if forall|node: Seq<char>| #[trigger] walk.nodes.contains(node) ==> walk.processed.contains(node) {
            assert(walk.processed =~= walk.nodes);
        }
    }
    let start = choose|node: Seq<char>| #[trigger]
        walk.nodes.contains(node) && !walk.processed.contains(node);
    let first = lemma_first_left(walk, depth, start);
    let required = (walk.required)(first);
    let known = required.intersect(walk.processed);
    assert forall|parent: Seq<char>| required.contains(parent) implies known.contains(parent) by {
        assert(walk.nodes.contains(first) && (walk.required)(first).contains(parent));
        assert(walk.nodes.contains(parent));
    }
    assert(known =~= required);
    lemma_ready_after_all_parents((walk.work)(first), required, known);
}

/// A node that is ready has no parent left that it waits for.
pub proof fn lemma_walk_is_ordered(walk: Walk, node: Seq<char>, parent: Seq<char>)
    requires
        walk_counts(walk),
        walk.nodes.contains(node),
        !walk.processed.contains(node),
        ready((walk.work)(node), false, false),
        (walk.required)(node).contains(parent),
    ensures
        walk.processed.contains(parent),
{
    let required = (walk.required)(node);
    let known = required.intersect(walk.processed);
    lemma_ready_after_all_parents((walk.work)(node), required, known);
    assert(known.contains(parent));
}

/// What is stored of a node whose parents are counted, and how many nodes its run has discovered
/// on its account.
#[verifier::ext_equal]
pub struct RequirementRow {
    pub known: bool,
    pub discovered: int,
    pub cursor: Seq<char>,
    pub remaining: int,
    pub complete: i32,
}

/// A node that is not stored yet.
pub open spec fn unknown_row() -> RequirementRow {
    RequirementRow { known: false, discovered: 0, cursor: ""@, remaining: 0, complete: 0 }
}

/// The next page of the parents of a node, behind its cursor.
pub open spec fn parent_page(parents: Seq<Relative>, cursor: Seq<char>, limit: nat) -> Seq<Relative> {
    let behind = parents.filter(|parent: Relative| text_lt(cursor, parent.node_id@));
    behind.take(if limit < behind.len() {
        limit as int
    } else {
        behind.len() as int
    })
}

/// What is stored of a node after a call that counts a page of its parents. A node that is stored
/// is not inserted again.
pub open spec fn counted_page(
    kind: IncrementalBuildKind,
    root_id: Seq<char>,
    parents: Seq<Relative>,
    limit: nat,
    row: RequirementRow,
) -> RequirementRow {
    let inserted: usize = if row.known {
        0
    } else {
        1
    };
    let stored = RequirementRow {
        known: true,
        discovered: row.discovered + match discovered_count(inserted) {
            Some(added) => added as int,
            None => 0,
        },
        ..row
    };
    match requirement_step(kind, root_id, row.complete, parent_page(parents, row.cursor, limit)) {
        RequirementStepView::Counted => stored,
        RequirementStepView::Complete => RequirementRow { complete: 1, ..stored },
        RequirementStepView::Count { added, cursor } => RequirementRow {
            cursor,
            remaining: row.remaining + added,
            ..stored
        },
    }
}

/// What is stored of a node after some calls, each of which is committed or fails. A call that
/// fails is rolled back.
pub open spec fn counted_calls(
    kind: IncrementalBuildKind,
    root_id: Seq<char>,
    parents: Seq<Relative>,
    limit: nat,
    committed: Seq<bool>,
) -> RequirementRow
    decreases committed.len(),
{
    if committed.len() == 0 {
        unknown_row()
    } else {
        let row = counted_calls(kind, root_id, parents, limit, committed.drop_last());
        if committed.last() {
            counted_page(kind, root_id, parents, limit, row)
        } else {
            row
        }
    }
}

/// How many calls are committed.
pub open spec fn commits(committed: Seq<bool>) -> nat
    decreases committed.len(),
{
    if committed.len() == 0 {
        0
    } else {
        commits(committed.drop_last()) + if committed.last() {
            1nat
        } else {
            0nat
        }
    }
}

/// The parents of a node stand in the order of their ids, each once. An id has characters.
pub open spec fn parents_ordered(parents: Seq<Relative>) -> bool {
    &&& parents.len() <= usize::MAX
    &&& forall|i: int| 0 <= i < parents.len() ==> (#[trigger] parents[i]).node_id@.len() > 0
    &&& forall|i: int, j: int|
        0 <= i < j < parents.len() ==> text_lt(
            (#[trigger] parents[i]).node_id@,
            (#[trigger] parents[j]).node_id@,
        )
}

proof fn lemma_filter_suffix(parents: Seq<Relative>, keep: spec_fn(Relative) -> bool, start: int)
    requires
        0 <= start <= parents.len(),
        forall|i: int| 0 <= i < parents.len() ==> (keep(#[trigger] parents[i]) <==> start <= i),
    ensures
        parents.filter(keep) == parents.skip(start),
    decreases parents.len(),
{
    reveal(Seq::filter);
    if parents.len() == 0 {
        assert(parents.filter(keep) =~= parents.skip(start));
    } else {
        let rest = parents.drop_last();
        let last = parents.len() - 1;
        assert(rest.push(parents.last()) =~= parents);
        lemma_filter_push(rest, keep, parents.last());
        assert forall|i: int| 0 <= i < rest.len() implies (keep(#[trigger] rest[i]) <==> (if start
            <= last {
            start
        } else {
            last
        }) <= i) by {
            assert(keep(parents[i]) <==> start <= i);
        }
        assert(keep(parents[last]) <==> start <= last);
        if start <= last {
            lemma_filter_suffix(rest, keep, start);
            assert(parents.skip(start) =~= rest.skip(start).push(parents.last()));
        } else {
            lemma_filter_suffix(rest, keep, last);
            assert(parents.skip(start) =~= rest.skip(last));
        }
    }
}

/// How many parents a node waits for.
pub open spec fn awaited_count(
    kind: IncrementalBuildKind,
    root_id: Seq<char>,
    parents: Seq<Relative>,
) -> nat {
    parents.filter(|parent: Relative| waits_for(kind, root_id, parent)).len()
}

/// Whether the first parents up to a place were counted, and no others.
spec fn counted_up_to(
    kind: IncrementalBuildKind,
    root_id: Seq<char>,
    parents: Seq<Relative>,
    row: RequirementRow,
    place: int,
) -> bool {
    &&& 0 <= place <= parents.len()
    &&& row.cursor == (if place == 0 {
        ""@
    } else {
        parents[place - 1].node_id@
    })
    &&& row.remaining == awaited_count(kind, root_id, parents.take(place))
    &&& row.complete == 0 || row.complete == 1
    &&& row.complete == 1 ==> place == parents.len() && row.known
    &&& row.discovered == (if row.known {
        1int
    } else {
        0
    })
    &&& !row.known ==> row == unknown_row()
}

proof fn lemma_page_counted(
    kind: IncrementalBuildKind,
    root_id: Seq<char>,
    parents: Seq<Relative>,
    limit: nat,
    row: RequirementRow,
    place: int,
) -> (next: int)
    requires
        parents_ordered(parents),
        limit > 0,
        counted_up_to(kind, root_id, parents, row, place),
    ensures
        counted_up_to(
            kind,
            root_id,
            parents,
            counted_page(kind, root_id, parents, limit, row),
            next,
        ),
        row.complete == 1 ==> counted_page(kind, root_id, parents, limit, row) == row,
        row.complete == 0 && place == parents.len() ==> counted_page(
            kind,
            root_id,
            parents,
            limit,
            row,
        ).complete == 1,
        row.complete == 0 && place < parents.len() ==> next > place,
        place <= next,
{
    let keep = |parent: Relative| text_lt(row.cursor, parent.node_id@);
    let waits = |parent: Relative| waits_for(kind, root_id, parent);
    reveal_strlit("");
    assert forall|i: int| 0 <= i < parents.len() implies (keep(#[trigger] parents[i]) <==> place <= i) by {
        if place == 0 {
            assert(text_lt(row.cursor, parents[i].node_id@));
        } else if i < place - 1 {
            lemma_text_lt_asymmetric(parents[i].node_id@, parents[place - 1].node_id@);
        } else if i == place - 1 {
            lemma_text_lt_irreflexive(parents[i].node_id@);
        }
    }
    lemma_filter_suffix(parents, keep, place);
    let page = parent_page(parents, row.cursor, limit);
    let next = place + page.len();
    assert(page =~= parents.subrange(place, next));
    if row.complete == 1 {
        assert(counted_page(kind, root_id, parents, limit, row) =~= row);
        place
    } else if page.len() == 0 {
        assert(parents.skip(place).len() == 0);
        place
    } else {
        lemma_marked_rows_count(page, waits);
        let rows = awaited(kind, root_id, page);
        assert(rows.map_values(|row: usize| page[row as int]).len() == rows.len());
        assert(parents.take(next) =~= parents.take(place) + page);
        Seq::filter_distributes_over_add(parents.take(place), page, waits);
        next
    }
}

proof fn lemma_calls_counted(
    kind: IncrementalBuildKind,
    root_id: Seq<char>,
    parents: Seq<Relative>,
    limit: nat,
    committed: Seq<bool>,
) -> (place: int)
    requires
        parents_ordered(parents),
        limit > 0,
    ensures
        counted_up_to(
            kind,
            root_id,
            parents,
            counted_calls(kind, root_id, parents, limit, committed),
            place,
        ),
        counted_calls(kind, root_id, parents, limit, committed).complete == 1 || place >= commits(
            committed,
        ),
    decreases committed.len(),
{
    if committed.len() == 0 {
        reveal(Seq::filter);
        assert(parents.take(0) =~= Seq::<Relative>::empty());
        assert(awaited_count(kind, root_id, parents.take(0)) == 0);
        0
    } else {
        let rest = committed.drop_last();
        let place = lemma_calls_counted(kind, root_id, parents, limit, rest);
        if committed.last() {
            let row = counted_calls(kind, root_id, parents, limit, rest);
            lemma_page_counted(kind, root_id, parents, limit, row, place)
        } else {
            place
        }
    }
}

/// However often the calls that count the parents of a node fail and are taken up again, once they
/// are complete the node waits for exactly the parents that count, each of them once, and was
/// discovered once. That takes at most one call more than it has parents, and later calls change
/// nothing.
pub proof fn lemma_parents_are_counted_once(
    kind: IncrementalBuildKind,
    root_id: Seq<char>,
    parents: Seq<Relative>,
    limit: nat,
    committed: Seq<bool>,
    later: bool,
)
    requires
        parents_ordered(parents),
        limit > 0,
    ensures
        ({
            let row = counted_calls(kind, root_id, parents, limit, committed);
            &&& row.complete == 1 ==> row.remaining == awaited_count(kind, root_id, parents)
            &&& row.complete == 1 ==> row.discovered == 1
            &&& commits(committed) > parents.len() ==> row.complete == 1
            &&& row.complete == 1 ==> counted_calls(
                kind,
                root_id,
                parents,
                limit,
                committed.push(later),
            ) == row
        }),
{
    let row = counted_calls(kind, root_id, parents, limit, committed);
    let place = lemma_calls_counted(kind, root_id, parents, limit, committed);
    assert(parents.take(parents.len() as int) =~= parents);
    assert(committed.push(later).drop_last() =~= committed);
    let next = lemma_page_counted(kind, root_id, parents, limit, row, place);
}

} // verus!
