//! Projecting a node: finding its edges and its rank, first among all nodes, then among the
//! anchors.

use vstd::prelude::*;
use vstd::string::*;
use crate::arithmetic::greater_of;
use crate::arithmetic::larger;
use crate::arithmetic::saturate_i32;
use crate::arithmetic::saturating_sum;
use crate::graph::mode_text;
use crate::graph::GraphMode;
use crate::incremental_build::invalid;
use crate::incremental_build::paging::marked;
use crate::incremental_build::paging::marked_rows;
use crate::incremental_build::InvalidStoreValue;
use crate::incremental_build::InvalidStoreValueView;
use crate::incremental_build::DEFAULT_CHILD_PAGE_SIZE;
use crate::text::signed_decimal;
use crate::text::signed_text;
use crate::text::text_equal;

verus! {

/// A phase of the projection of a node.
#[derive(Debug, Clone, Copy, PartialEq, Eq, Structural)]
pub enum ProjectionPhase {
    AllPrepare,
    AllRank,
    AllNode,
    AllEdges,
    AnchorPrepare,
    AnchorRank,
    AnchorNode,
    AnchorEdges,
    Complete,
}

/// The stored text of a phase.
pub open spec fn projection_phase_text(phase: ProjectionPhase) -> Seq<char> {
    match phase {
        ProjectionPhase::AllPrepare => "all_prepare"@,
        ProjectionPhase::AllRank => "all_rank"@,
        ProjectionPhase::AllNode => "all_node"@,
        ProjectionPhase::AllEdges => "all_edges"@,
        ProjectionPhase::AnchorPrepare => "anchor_prepare"@,
        ProjectionPhase::AnchorRank => "anchor_rank"@,
        ProjectionPhase::AnchorNode => "anchor_node"@,
        ProjectionPhase::AnchorEdges => "anchor_edges"@,
        ProjectionPhase::Complete => "complete"@,
    }
}

impl ProjectionPhase {
    /// The stored text of this phase.
    pub fn as_str(self) -> (text: &'static str)
        ensures
            text@ == projection_phase_text(self),
    {
        match self {
            ProjectionPhase::AllPrepare => "all_prepare",
            ProjectionPhase::AllRank => "all_rank",
            ProjectionPhase::AllNode => "all_node",
            ProjectionPhase::AllEdges => "all_edges",
            ProjectionPhase::AnchorPrepare => "anchor_prepare",
            ProjectionPhase::AnchorRank => "anchor_rank",
            ProjectionPhase::AnchorNode => "anchor_node",
            ProjectionPhase::AnchorEdges => "anchor_edges",
            ProjectionPhase::Complete => "complete",
        }
    }
}

/// Different phases have different texts.
pub proof fn lemma_projection_phase_texts_differ(a: ProjectionPhase, b: ProjectionPhase)
    requires
        projection_phase_text(a) == projection_phase_text(b),
    ensures
        a == b,
{
    reveal_strlit("all_prepare");
    reveal_strlit("all_rank");
    reveal_strlit("all_node");
    reveal_strlit("all_edges");
    reveal_strlit("anchor_prepare");
    reveal_strlit("anchor_rank");
    reveal_strlit("anchor_node");
    reveal_strlit("anchor_edges");
    reveal_strlit("complete");
    assert("all_prepare"@.len() == 11 && "all_prepare"@[4] == 'p');
    assert("all_rank"@.len() == 8 && "all_rank"@[4] == 'r');
    assert("all_node"@.len() == 8 && "all_node"@[4] == 'n');
    assert("all_edges"@.len() == 9);
    assert("anchor_prepare"@.len() == 14);
    assert("anchor_rank"@.len() == 11 && "anchor_rank"@[4] == 'o' && "anchor_rank"@[7] == 'r');
    assert("anchor_node"@.len() == 11 && "anchor_node"@[4] == 'o' && "anchor_node"@[7] == 'n');
    assert("anchor_edges"@.len() == 12);
    assert("complete"@.len() == 8 && "complete"@[4] == 'l');
}

/// How far a projection in a phase has come.
pub open spec fn projection_position(phase: ProjectionPhase) -> int {
    match phase {
        ProjectionPhase::AllPrepare => 0,
        ProjectionPhase::AllRank => 1,
        ProjectionPhase::AllNode => 2,
        ProjectionPhase::AllEdges => 3,
        ProjectionPhase::AnchorPrepare => 4,
        ProjectionPhase::AnchorRank => 5,
        ProjectionPhase::AnchorNode => 6,
        ProjectionPhase::AnchorEdges => 7,
        ProjectionPhase::Complete => 8,
    }
}

/// A change of phase. The cursors start over, and so does the rank where ranks are found.
#[derive(Debug, Clone, Copy, PartialEq, Eq, Structural)]
pub struct ProjectionChange {
    pub from: ProjectionPhase,
    pub to: ProjectionPhase,
    pub resets_rank: bool,
}

/// A change of phase.
pub open spec fn projection_change(from: ProjectionPhase, to: ProjectionPhase) -> ProjectionChange {
    ProjectionChange {
        from,
        to,
        resets_rank: to == ProjectionPhase::AllRank || to == ProjectionPhase::AnchorRank,
    }
}

/// Whether a change of phase goes forward, so that a projection comes to its end.
pub open spec fn goes_forward(change: ProjectionChange) -> bool {
    projection_position(change.from) < projection_position(change.to)
}

/// Makes a change of phase.
pub fn advance_node_projection_phase(from: ProjectionPhase, to: ProjectionPhase) -> (change:
    ProjectionChange)
    ensures
        change == projection_change(from, to),
{
    ProjectionChange {
        from,
        to,
        resets_rank: to == ProjectionPhase::AllRank || to == ProjectionPhase::AnchorRank,
    }
}

/// A phase of the projection for a mode: where the edges come from, where the rank is found, where
/// the node is placed, and where its edges are written.
pub open spec fn rank_phase(mode: GraphMode) -> ProjectionPhase {
    match mode {
        GraphMode::All => ProjectionPhase::AllRank,
        GraphMode::Anchors => ProjectionPhase::AnchorRank,
    }
}

/// The phase that places the node.
pub open spec fn node_phase(mode: GraphMode) -> ProjectionPhase {
    match mode {
        GraphMode::All => ProjectionPhase::AllNode,
        GraphMode::Anchors => ProjectionPhase::AnchorNode,
    }
}

/// The phase that writes the edges.
pub open spec fn edges_phase(mode: GraphMode) -> ProjectionPhase {
    match mode {
        GraphMode::All => ProjectionPhase::AllEdges,
        GraphMode::Anchors => ProjectionPhase::AnchorEdges,
    }
}

/// What is stored of the projection of a node.
#[derive(Debug, Clone, PartialEq, Eq)]
pub struct ProjectionState {
    pub remaining_parents: i32,
    pub processed: i32,
    pub projection_complete: i32,
    pub projection_phase: String,
    pub raw_cursor: i64,
    pub edge_order_cursor: i32,
    pub edge_source_cursor: String,
    pub required_rank: i32,
}

/// What one step of a projection does.
#[derive(Debug, Clone, Copy, PartialEq, Eq, Structural)]
pub enum ProjectionAction {
    /// The root has no place in the graph: its projection is complete.
    CompleteRoot,
    /// A page of the raw edges is prepared.
    Prepare,
    /// A page of the edges is read for the rank.
    Rank { mode: GraphMode },
    /// The node is placed at its rank.
    Place { mode: GraphMode, required_rank: i32 },
    /// A page of the edges is written.
    WriteEdges { mode: GraphMode },
    /// The anchors behind the raw edges are searched.
    ResolveAnchors,
}

/// The words on a node that is not ready.
pub open spec fn not_ready_text(node_id: Seq<char>, state: ProjectionState) -> Seq<char> {
    node_id + " remaining="@ + signed_text(state.remaining_parents as int) + " processed="@
        + signed_text(state.processed as int) + " projection_complete="@ + signed_text(
        state.projection_complete as int,
    )
}

/// What one step of a projection does.
pub open spec fn projection_step(
    node_id: Seq<char>,
    state: Option<ProjectionState>,
    is_root: bool,
) -> Result<ProjectionAction, InvalidStoreValueView> {
    match state {
        None => Err(InvalidStoreValueView { column: "work_node"@, value: node_id }),
        Some(state) => {
            let phase = state.projection_phase@;
            if state.remaining_parents != 0 || state.processed != 0 || state.projection_complete
                != 0 {
                Err(
                    InvalidStoreValueView {
                        column: "ready_node"@,
                        value: not_ready_text(node_id, state),
                    },
                )
            } else if is_root {
                Ok(ProjectionAction::CompleteRoot)
            } else if phase == "all_prepare"@ {
                Ok(ProjectionAction::Prepare)
            } else if phase == "all_rank"@ {
                Ok(ProjectionAction::Rank { mode: GraphMode::All })
            } else if phase == "all_node"@ {
                Ok(
                    ProjectionAction::Place {
                        mode: GraphMode::All,
                        required_rank: state.required_rank,
                    },
                )
            } else if phase == "all_edges"@ {
                Ok(ProjectionAction::WriteEdges { mode: GraphMode::All })
            } else if phase == "anchor_prepare"@ {
                Ok(ProjectionAction::ResolveAnchors)
            } else if phase == "anchor_rank"@ {
                Ok(ProjectionAction::Rank { mode: GraphMode::Anchors })
            } else if phase == "anchor_node"@ {
                Ok(
                    ProjectionAction::Place {
                        mode: GraphMode::Anchors,
                        required_rank: state.required_rank,
                    },
                )
            } else if phase == "anchor_edges"@ {
                Ok(ProjectionAction::WriteEdges { mode: GraphMode::Anchors })
            } else {
                Err(
                    InvalidStoreValueView {
                        column: "projection_phase"@,
                        value: node_id + ":"@ + phase,
                    },
                )
            }
        },
    }
}

/// An outcome with its error as characters.
pub open spec fn action_view<T>(outcome: Result<T, InvalidStoreValue>) -> Result<
    T,
    InvalidStoreValueView,
> {
    match outcome {
        Ok(value) => Ok(value),
        Err(error) => Err(error@),
    }
}

/// Decides what one step of the projection of a node does.
pub fn process_node(node_id: &str, state: &Option<ProjectionState>, is_root: bool) -> (outcome: Result<
    ProjectionAction,
    InvalidStoreValue,
>)
    ensures
        action_view(outcome) == projection_step(node_id@, *state, is_root),
{
    match state {
        None => Err(invalid("work_node", node_id)),
        Some(state) => {
            if state.remaining_parents != 0 || state.processed != 0 || state.projection_complete
                != 0 {
                let value = node_id.to_owned().concat(" remaining=").concat(
                    signed_decimal(state.remaining_parents).as_str(),
                ).concat(" processed=").concat(signed_decimal(state.processed).as_str()).concat(
                    " projection_complete=",
                ).concat(signed_decimal(state.projection_complete).as_str());
                return Err(invalid("ready_node", value.as_str()));
            }
            if is_root {
                return Ok(ProjectionAction::CompleteRoot);
            }
            let phase = state.projection_phase.as_str();
            if text_equal(phase, "all_prepare") {
                Ok(ProjectionAction::Prepare)
            } else if text_equal(phase, "all_rank") {
                Ok(ProjectionAction::Rank { mode: GraphMode::All })
            } else if text_equal(phase, "all_node") {
                Ok(
                    ProjectionAction::Place {
                        mode: GraphMode::All,
                        required_rank: state.required_rank,
                    },
                )
            } else if text_equal(phase, "all_edges") {
                Ok(ProjectionAction::WriteEdges { mode: GraphMode::All })
            } else if text_equal(phase, "anchor_prepare") {
                Ok(ProjectionAction::ResolveAnchors)
            } else if text_equal(phase, "anchor_rank") {
                Ok(ProjectionAction::Rank { mode: GraphMode::Anchors })
            } else if text_equal(phase, "anchor_node") {
                Ok(
                    ProjectionAction::Place {
                        mode: GraphMode::Anchors,
                        required_rank: state.required_rank,
                    },
                )
            } else if text_equal(phase, "anchor_edges") {
                Ok(ProjectionAction::WriteEdges { mode: GraphMode::Anchors })
            } else {
                let value = node_id.to_owned().concat(":").concat(phase);
                Err(invalid("projection_phase", value.as_str()))
            }
        },
    }
}

/// A parent that an anchor merges.
#[derive(Debug, Clone, PartialEq, Eq)]
pub struct MergeParent {
    pub node_id: String,
    pub is_shadow: bool,
}

/// An edge into a node. The primary parent comes first, then the merged ones.
#[derive(Debug, PartialEq, Eq)]
pub struct ProjectionEdge {
    pub source_id: String,
    pub edge_kind: String,
    pub edge_order: i32,
}

/// An edge with its texts as characters.
#[verifier::ext_equal]
pub struct ProjectionEdgeView {
    pub source_id: Seq<char>,
    pub edge_kind: Seq<char>,
    pub edge_order: i32,
}

impl View for ProjectionEdge {
    type V = ProjectionEdgeView;

    open spec fn view(&self) -> ProjectionEdgeView {
        ProjectionEdgeView {
            source_id: self.source_id@,
            edge_kind: self.edge_kind@,
            edge_order: self.edge_order,
        }
    }
}

/// The edges of a list, with their texts as characters.
pub open spec fn edge_views(edges: Seq<ProjectionEdge>) -> Seq<ProjectionEdgeView> {
    edges.map_values(|edge: ProjectionEdge| edge@)
}

/// The raw edge at a place.
pub open spec fn raw_edge(
    parent_id: Seq<char>,
    merge_parents: Seq<MergeParent>,
    place: int,
) -> ProjectionEdgeView {
    if place == 0 {
        ProjectionEdgeView { source_id: parent_id, edge_kind: "primary"@, edge_order: 0 }
    } else {
        ProjectionEdgeView {
            source_id: merge_parents[place - 1].node_id@,
            edge_kind: if merge_parents[place - 1].is_shadow {
                "shadow"@
            } else {
                "merge"@
            },
            edge_order: saturate_i32(place),
        }
    }
}

/// All raw edges of a node.
pub open spec fn raw_edges(parent_id: Seq<char>, merge_parents: Seq<MergeParent>) -> Seq<
    ProjectionEdgeView,
> {
    Seq::new(merge_parents.len() + 1, |place: int| raw_edge(parent_id, merge_parents, place))
}

/// How many edges a page holds.
pub open spec fn edge_page_size(child_page_size: usize) -> int {
    if child_page_size < 128 {
        child_page_size as int
    } else {
        128
    }
}

/// How many rows a page of edges asks for.
pub fn edge_page_limit(child_page_size: usize) -> (limit: i64)
    ensures
        limit == edge_page_size(child_page_size),
{
    if child_page_size < DEFAULT_CHILD_PAGE_SIZE {
        child_page_size as i64
    } else {
        DEFAULT_CHILD_PAGE_SIZE as i64
    }
}

/// The place behind a cursor. A cursor before the first place is -1.
pub open spec fn raw_start(cursor: i64) -> int {
    if cursor < -1 {
        usize::MAX as int
    } else if cursor == i64::MAX {
        cursor as int
    } else {
        cursor + 1
    }
}

/// The page of some edges behind a cursor.
pub open spec fn raw_page(
    edges: Seq<ProjectionEdgeView>,
    cursor: i64,
    child_page_size: usize,
) -> Seq<ProjectionEdgeView> {
    let start = raw_start(cursor);
    if start >= edges.len() {
        Seq::empty()
    } else {
        let end = start + edge_page_size(child_page_size);
        edges.subrange(
            start,
            if end < edges.len() {
                end
            } else {
                edges.len() as int
            },
        )
    }
}

/// Lists a page of the raw edges of a node.
pub fn raw_projection_edge_page(
    parent_id: &str,
    merge_parents: &Vec<MergeParent>,
    cursor: i64,
    child_page_size: usize,
) -> (page: Vec<ProjectionEdge>)
    requires
        merge_parents@.len() < usize::MAX,
    ensures
        edge_views(page@) == raw_page(
            raw_edges(parent_id@, merge_parents@),
            cursor,
            child_page_size,
        ),
{
    let ghost all = raw_edges(parent_id@, merge_parents@);
    let total: usize = merge_parents.len() + 1;
    let mut page: Vec<ProjectionEdge> = Vec::new();
    assert(edge_views(page@) =~= Seq::empty());
    if cursor < -1 {
        return page;
    }
    let next: i64 = if cursor == i64::MAX {
        cursor
    } else {
        cursor + 1
    };
    if next as u64 >= total as u64 {
        return page;
    }
    let start: usize = next as usize;
    let size: usize = if child_page_size < 128 {
        child_page_size
    } else {
        128
    };
    let end: usize = if size < total - start {
        start + size
    } else {
        total
    };
    let mut place: usize = start;
    assert(edge_views(page@) =~= all.subrange(start as int, place as int));
    while place < end
        invariant
            start <= place <= end <= total,
            total == merge_parents@.len() + 1,
            all == raw_edges(parent_id@, merge_parents@),
            edge_views(page@) == all.subrange(start as int, place as int),
        decreases end - place,
    {
        let edge = if place == 0 {
            ProjectionEdge {
                source_id: parent_id.to_owned(),
                edge_kind: "primary".to_owned(),
                edge_order: 0,
            }
        } else {
            let parent = &merge_parents[place - 1];
            ProjectionEdge {
                source_id: parent.node_id.clone(),
                edge_kind: if parent.is_shadow {
                    "shadow".to_owned()
                } else {
                    "merge".to_owned()
                },
                edge_order: if place > 2147483647 {
                    i32::MAX
                } else {
                    place as i32
                },
            }
        };
        let ghost before = page@;
        assert(edge@ == all[place as int]);
        page.push(edge);
        assert(edge_views(page@) =~= edge_views(before).push(all[place as int]));
        assert(all.subrange(start as int, place + 1) =~= all.subrange(start as int, place as int).push(
            all[place as int],
        ));
        place += 1;
    }
    page
}

/// The edges that are read in at most some pages, each behind the last edge of the page before.
pub open spec fn raw_read(
    edges: Seq<ProjectionEdgeView>,
    cursor: i64,
    child_page_size: usize,
    pages: nat,
) -> Seq<ProjectionEdgeView>
    decreases pages,
{
    let page = raw_page(edges, cursor, child_page_size);
    if pages == 0 || page.len() == 0 {
        Seq::empty()
    } else {
        page + raw_read(edges, page.last().edge_order as i64, child_page_size, (pages - 1) as nat)
    }
}

/// Reading the raw edges of a node in pages reads each of them once and in order, where their
/// places can be counted.
pub proof fn lemma_raw_pages_read_all(
    parent_id: Seq<char>,
    merge_parents: Seq<MergeParent>,
    cursor: i64,
    child_page_size: usize,
    pages: nat,
)
    requires
        merge_parents.len() < i32::MAX,
        child_page_size > 0,
        -1 <= cursor <= merge_parents.len(),
        pages >= merge_parents.len() - cursor,
    ensures
        raw_read(raw_edges(parent_id, merge_parents), cursor, child_page_size, pages) == raw_edges(
            parent_id,
            merge_parents,
        ).skip(cursor + 1),
    decreases pages,
{
    let edges = raw_edges(parent_id, merge_parents);
    let page = raw_page(edges, cursor, child_page_size);
    if cursor == merge_parents.len() {
        assert(edges.skip(cursor + 1) =~= Seq::empty());
    } else {
        let last = cursor + page.len();
        assert(page.len() > 0);
        assert(page.last() == edges[last]);
        assert(page.last().edge_order == last);
        lemma_raw_pages_read_all(
            parent_id,
            merge_parents,
            last as i64,
            child_page_size,
            (pages - 1) as nat,
        );
        assert(edges.skip(cursor + 1) =~= page + edges.skip(last + 1));
    }
}

/// What a build knows of the source of an edge.
#[derive(Debug, Clone, Copy, PartialEq, Eq, Structural)]
pub struct EdgeSource {
    /// The build has processed the source.
    pub processed: bool,
    /// The baseline shows the source.
    pub in_baseline: bool,
}

/// Whether an edge is drawn: its source is neither missing nor the root nor the node itself, and
/// the build or the baseline that it adds to shows the source.
pub open spec fn edge_drawn(
    edge: ProjectionEdgeView,
    source: EdgeSource,
    root_id: Seq<char>,
    target_id: Seq<char>,
    append: bool,
) -> bool {
    &&& edge.source_id.len() > 0
    &&& edge.source_id != root_id
    &&& edge.source_id != target_id
    &&& source.processed || (append && source.in_baseline)
}

/// Whether the edges of a page are drawn.
pub open spec fn edges_drawn(
    page: Seq<ProjectionEdgeView>,
    sources: Seq<EdgeSource>,
    root_id: Seq<char>,
    target_id: Seq<char>,
    append: bool,
) -> Seq<bool> {
    Seq::new(
        page.len(),
        |i: int| edge_drawn(page[i], sources[i], root_id, target_id, append),
    )
}

/// What a page of the raw edges leads to.
#[derive(Debug, Clone, PartialEq, Eq)]
pub enum PrepareStep {
    /// There are no more raw edges.
    Advance { change: ProjectionChange },
    /// The edges at some places are drawn, and the cursor moves.
    Draw { rows: Vec<usize>, cursor: i64 },
}

fn is_empty_text(text: &str) -> (empty: bool)
    ensures
        empty == (text@.len() == 0),
{
    proof {
        reveal_strlit("");
        if text@.len() == 0 {
            assert(text@ =~= ""@);
        }
    }
    text_equal(text, "")
}

/// Decides what a page of the raw edges leads to.
pub fn commit_all_projection_edge_page(
    page: &Vec<ProjectionEdge>,
    sources: &Vec<EdgeSource>,
    root_id: &str,
    target_id: &str,
    append: bool,
) -> (step: PrepareStep)
    requires
        sources@.len() == page@.len(),
    ensures
        match step {
            PrepareStep::Advance { change } => page@.len() == 0 && change == projection_change(
                ProjectionPhase::AllPrepare,
                ProjectionPhase::AllRank,
            ),
            PrepareStep::Draw { rows, cursor } => {
                &&& page@.len() > 0
                &&& rows@ == marked(
                    edges_drawn(edge_views(page@), sources@, root_id@, target_id@, append),
                )
                &&& cursor == page@.last().edge_order
            },
        },
        step matches PrepareStep::Advance { change } ==> goes_forward(change),
{
    if page.len() == 0 {
        return PrepareStep::Advance {
            change: advance_node_projection_phase(
                ProjectionPhase::AllPrepare,
                ProjectionPhase::AllRank,
            ),
        };
    }
    let ghost views = edge_views(page@);
    let mut flags: Vec<bool> = Vec::new();
    let mut i: usize = 0;
    while i < page.len()
        invariant
            0 <= i <= page.len(),
            sources@.len() == page@.len(),
            views == edge_views(page@),
            flags@.len() == i,
            forall|j: int|
                0 <= j < i ==> #[trigger] flags@[j] == edge_drawn(
                    views[j],
                    sources@[j],
                    root_id@,
                    target_id@,
                    append,
                ),
        decreases page.len() - i,
    {
        let source_id = page[i].source_id.as_str();
        let source = sources[i];
        assert(views[i as int].source_id == source_id@);
        flags.push(
            !is_empty_text(source_id) && !text_equal(source_id, root_id) && !text_equal(
                source_id,
                target_id,
            ) && (source.processed || (append && source.in_baseline)),
        );
        i += 1;
    }
    assert(flags@ =~= edges_drawn(views, sources@, root_id@, target_id@, append));
    PrepareStep::Draw {
        rows: marked_rows(&flags),
        cursor: page[page.len() - 1].edge_order as i64,
    }
}

/// The rank that the sources of some edges require: one more than the highest of them.
pub open spec fn page_rank(ranks: Seq<i32>) -> i32
    decreases ranks.len(),
{
    if ranks.len() == 0 {
        0
    } else {
        larger(page_rank(ranks.drop_last()), saturate_i32(ranks.last() + 1))
    }
}

/// The ranks of sources that all have one.
pub open spec fn known_ranks(ranks: Seq<Option<i32>>) -> Seq<i32> {
    ranks.map_values(|rank: Option<i32>| rank->0)
}

/// Whether a source is the first that has no rank.
pub open spec fn first_unranked(ranks: Seq<Option<i32>>, place: int) -> bool {
    0 <= place < ranks.len() && ranks[place] is None && forall|i: int|
        0 <= i < place ==> #[trigger] ranks[i] is Some
}

/// Finds the rank that the sources of a page of edges require.
pub fn projection_page_required_rank(
    mode: GraphMode,
    page: &Vec<ProjectionEdge>,
    ranks: &Vec<Option<i32>>,
) -> (outcome: Result<i32, InvalidStoreValue>)
    requires
        ranks@.len() == page@.len(),
    ensures
        match outcome {
            Ok(required) => {
                &&& forall|i: int| 0 <= i < ranks@.len() ==> #[trigger] ranks@[i] is Some
                &&& required == page_rank(known_ranks(ranks@))
            },
            Err(error) => exists|place: int| #[trigger]
                first_unranked(ranks@, place) && error@ == (InvalidStoreValueView {
                    column: "layout_parent"@,
                    value: mode_text(mode) + ":"@ + page@[place].source_id@,
                }),
        },
{
    let mut required: i32 = 0;
    let ghost known = known_ranks(ranks@);
    let mut i: usize = 0;
    while i < page.len()
        invariant
            0 <= i <= page.len(),
            ranks@.len() == page@.len(),
            known == known_ranks(ranks@),
            forall|j: int| 0 <= j < i ==> #[trigger] ranks@[j] is Some,
            required == page_rank(known.take(i as int)),
        decreases page.len() - i,
    {
        match ranks[i] {
            None => {
                assert(first_unranked(ranks@, i as int));
                let value = mode.as_query_value().to_owned().concat(":").concat(
                    page[i].source_id.as_str(),
                );
                return Err(invalid("layout_parent", value.as_str()));
            },
            Some(rank) => {
                assert(known[i as int] == rank);
                assert(known.take(i + 1).drop_last() =~= known.take(i as int));
                required = greater_of(required, saturating_sum(rank, 1));
            },
        }
        i += 1;
    }
    assert(known.take(i as int) =~= known);
    Ok(required)
}

/// What a page of edges leads to, where the rank is found.
#[derive(Debug, Clone, PartialEq, Eq)]
pub enum RankStep {
    /// There are no more edges.
    Advance { change: ProjectionChange },
    /// The rank grows where it must, and the cursors move.
    Checkpoint { required_rank: i32, edge_order_cursor: i32, edge_source_cursor: String },
}

/// Decides what a page of edges leads to, where the rank is found. `page_required_rank` is the
/// rank that the sources of the page require.
pub fn checkpoint_projection_rank_page(
    mode: GraphMode,
    required_rank: i32,
    page_required_rank: i32,
    page: &Vec<ProjectionEdge>,
) -> (step: RankStep)
    ensures
        match step {
            RankStep::Advance { change } => page@.len() == 0 && change == projection_change(
                rank_phase(mode),
                node_phase(mode),
            ),
            RankStep::Checkpoint { required_rank: rank, edge_order_cursor, edge_source_cursor } => {
                &&& page@.len() > 0
                &&& rank == larger(required_rank, page_required_rank)
                &&& edge_order_cursor == page@.last().edge_order
                &&& edge_source_cursor@ == page@.last().source_id@
            },
        },
        step matches RankStep::Advance { change } ==> goes_forward(change),
{
    if page.len() == 0 {
        let change = match mode {
            GraphMode::All => advance_node_projection_phase(
                ProjectionPhase::AllRank,
                ProjectionPhase::AllNode,
            ),
            GraphMode::Anchors => advance_node_projection_phase(
                ProjectionPhase::AnchorRank,
                ProjectionPhase::AnchorNode,
            ),
        };
        return RankStep::Advance { change };
    }
    let last = &page[page.len() - 1];
    RankStep::Checkpoint {
        required_rank: greater_of(required_rank, page_required_rank),
        edge_order_cursor: last.edge_order,
        edge_source_cursor: last.source_id.clone(),
    }
}

/// The rank that two pages require together is the larger of what each requires.
pub proof fn lemma_rank_pages_compose(first: Seq<i32>, second: Seq<i32>)
    ensures
        page_rank(first + second) == larger(page_rank(first), page_rank(second)),
    decreases second.len(),
{
    if second.len() == 0 {
        assert(first + second =~= first);
        lemma_rank_not_negative(first);
    } else {
        lemma_rank_pages_compose(first, second.drop_last());
        assert((first + second).drop_last() =~= first + second.drop_last());
    }
}

proof fn lemma_rank_not_negative(ranks: Seq<i32>)
    ensures
        page_rank(ranks) >= 0,
    decreases ranks.len(),
{
    if ranks.len() > 0 {
        lemma_rank_not_negative(ranks.drop_last());
    }
}

/// A node is placed behind each of the sources of its edges, where there is a rank behind it.
pub proof fn lemma_rank_behind_sources(ranks: Seq<i32>, place: int)
    requires
        0 <= place < ranks.len(),
        ranks[place] < i32::MAX,
    ensures
        page_rank(ranks) > ranks[place],
    decreases ranks.len(),
{
    if place < ranks.len() - 1 {
        lemma_rank_behind_sources(ranks.drop_last(), place);
    }
}

/// A node is placed no further back than its sources require.
pub proof fn lemma_rank_is_least(ranks: Seq<i32>, bound: i32)
    requires
        bound >= 0,
        forall|i: int| 0 <= i < ranks.len() ==> #[trigger] ranks[i] < bound,
    ensures
        page_rank(ranks) <= bound,
    decreases ranks.len(),
{
    if ranks.len() > 0 {
        assert forall|i: int| 0 <= i < ranks.drop_last().len() implies #[trigger] ranks.drop_last()[i]
            < bound by {
            assert(ranks[i] < bound);
        }
        lemma_rank_is_least(ranks.drop_last(), bound);
        assert(ranks[ranks.len() - 1] < bound);
    }
}

/// Decides on the change of phase once a node is placed.
pub fn finish_node_placement(mode: GraphMode) -> (change: ProjectionChange)
    ensures
        change == projection_change(node_phase(mode), edges_phase(mode)),
        goes_forward(change),
{
    match mode {
        GraphMode::All => advance_node_projection_phase(
            ProjectionPhase::AllNode,
            ProjectionPhase::AllEdges,
        ),
        GraphMode::Anchors => advance_node_projection_phase(
            ProjectionPhase::AnchorNode,
            ProjectionPhase::AnchorEdges,
        ),
    }
}

/// What a page of edges leads to, where they are written.
#[derive(Debug, Clone, PartialEq, Eq)]
pub enum EdgesStep {
    /// There are no more edges. The node is a visible anchor.
    Advance { change: ProjectionChange },
    /// There are no more edges. The projection is complete.
    Complete { from: ProjectionPhase },
    /// The edges of the page are written, and the cursors move.
    Write { edge_order_cursor: i32, edge_source_cursor: String },
}

/// Decides what a page of edges leads to, where they are written. The anchors follow for a node
/// that is a visible anchor.
pub fn checkpoint_projection_edge_page(
    mode: GraphMode,
    page: &Vec<ProjectionEdge>,
    is_visible_anchor: bool,
) -> (step: EdgesStep)
    ensures
        match step {
            EdgesStep::Advance { change } => {
                &&& page@.len() == 0
                &&& mode == GraphMode::All
                &&& is_visible_anchor
                &&& change == projection_change(
                    ProjectionPhase::AllEdges,
                    ProjectionPhase::AnchorPrepare,
                )
            },
            EdgesStep::Complete { from } => {
                &&& page@.len() == 0
                &&& !(mode == GraphMode::All && is_visible_anchor)
                &&& from == edges_phase(mode)
            },
            EdgesStep::Write { edge_order_cursor, edge_source_cursor } => {
                &&& page@.len() > 0
                &&& edge_order_cursor == page@.last().edge_order
                &&& edge_source_cursor@ == page@.last().source_id@
            },
        },
        step matches EdgesStep::Advance { change } ==> goes_forward(change),
{
    if page.len() > 0 {
        let last = &page[page.len() - 1];
        return EdgesStep::Write {
            edge_order_cursor: last.edge_order,
            edge_source_cursor: last.source_id.clone(),
        };
    }
    match mode {
        GraphMode::All => if is_visible_anchor {
            EdgesStep::Advance {
                change: advance_node_projection_phase(
                    ProjectionPhase::AllEdges,
                    ProjectionPhase::AnchorPrepare,
                ),
            }
        } else {
            EdgesStep::Complete { from: ProjectionPhase::AllEdges }
        },
        GraphMode::Anchors => EdgesStep::Complete { from: ProjectionPhase::AnchorEdges },
    }
}

/// Whether a node is shown among the anchors: it is an anchor, and the scope of the build or of
/// the baseline that it adds to holds it.
pub fn is_visible_anchor(is_anchor: bool, in_build_scope: bool, append: bool, in_baseline_scope: bool) -> (
visible: bool)
    ensures
        visible == (is_anchor && (in_build_scope || (append && in_baseline_scope))),
{
    is_anchor && (in_build_scope || (append && in_baseline_scope))
}

/// How far the search for the anchors behind the raw edges of a node has come.
#[derive(Debug, Clone, Copy, PartialEq, Eq, Structural)]
pub struct AnchorProjection {
    pub raw_cursor: i64,
    pub raw_complete: i32,
    pub resolution_complete: i32,
}

/// What one step of the search for anchors does.
#[derive(Debug, Clone, Copy, PartialEq, Eq, Structural)]
pub enum AnchorAction {
    /// A page of the raw edges behind a cursor is recorded.
    RecordRaw { cursor: i64 },
    /// The search is complete.
    Advance { change: ProjectionChange },
    /// A page of the recorded edges goes one step up.
    Resolve,
}

/// Decides what one step of the search for anchors does.
pub fn advance_anchor_resolution(state: AnchorProjection) -> (action: AnchorAction)
    ensures
        action == (if state.raw_complete == 0 {
            AnchorAction::RecordRaw { cursor: state.raw_cursor }
        } else if state.resolution_complete == 1 {
            AnchorAction::Advance {
                change: projection_change(
                    ProjectionPhase::AnchorPrepare,
                    ProjectionPhase::AnchorRank,
                ),
            }
        } else {
            AnchorAction::Resolve
        }),
        action matches AnchorAction::Advance { change } ==> goes_forward(change),
{
    if state.raw_complete == 0 {
        AnchorAction::RecordRaw { cursor: state.raw_cursor }
    } else if state.resolution_complete == 1 {
        AnchorAction::Advance {
            change: advance_node_projection_phase(
                ProjectionPhase::AnchorPrepare,
                ProjectionPhase::AnchorRank,
            ),
        }
    } else {
        AnchorAction::Resolve
    }
}

/// Whether the search is complete: no recorded edge is left.
pub fn complete_anchor_resolution(page_len: usize) -> (change: Option<ProjectionChange>)
    ensures
        change == (if page_len == 0 {
            Some(
                projection_change(ProjectionPhase::AnchorPrepare, ProjectionPhase::AnchorRank),
            )
        } else {
            None
        }),
        change matches Some(change) ==> goes_forward(change),
{
    if page_len == 0 {
        Some(
            advance_node_projection_phase(
                ProjectionPhase::AnchorPrepare,
                ProjectionPhase::AnchorRank,
            ),
        )
    } else {
        None
    }
}

/// What a page of raw edges leads to, where anchors are searched.
#[derive(Debug, Clone, PartialEq, Eq)]
pub enum RawEdgeStep {
    /// The page was committed before.
    Skip,
    /// There are no more raw edges.
    Complete,
    /// The edges at some places are recorded, and the cursor moves.
    Record { rows: Vec<usize>, cursor: i64 },
}

/// Whether the edges of a page have a source.
pub open spec fn has_source(page: Seq<ProjectionEdgeView>) -> Seq<bool> {
    Seq::new(page.len(), |i: int| page[i].source_id.len() > 0)
}

/// Decides what a page of raw edges leads to, where anchors are searched.
pub fn commit_anchor_raw_edge_page(
    state: AnchorProjection,
    expected_cursor: i64,
    page: &Vec<ProjectionEdge>,
) -> (step: RawEdgeStep)
    ensures
        match step {
            RawEdgeStep::Skip => state.raw_complete == 1 || state.raw_cursor != expected_cursor,
            RawEdgeStep::Complete => {
                &&& state.raw_complete != 1 && state.raw_cursor == expected_cursor
                &&& page@.len() == 0
            },
            RawEdgeStep::Record { rows, cursor } => {
                &&& state.raw_complete != 1 && state.raw_cursor == expected_cursor
                &&& page@.len() > 0
                &&& rows@ == marked(has_source(edge_views(page@)))
                &&& cursor == page@.last().edge_order
            },
        },
{
    if state.raw_complete == 1 || state.raw_cursor != expected_cursor {
        return RawEdgeStep::Skip;
    }
    if page.len() == 0 {
        return RawEdgeStep::Complete;
    }
    let ghost views = edge_views(page@);
    let mut flags: Vec<bool> = Vec::new();
    let mut i: usize = 0;
    while i < page.len()
        invariant
            0 <= i <= page.len(),
            views == edge_views(page@),
            flags@.len() == i,
            forall|j: int| 0 <= j < i ==> #[trigger] flags@[j] == (views[j].source_id.len() > 0),
        decreases page.len() - i,
    {
        assert(views[i as int].source_id == page@[i as int].source_id@);
        flags.push(!is_empty_text(page[i].source_id.as_str()));
        i += 1;
    }
    assert(flags@ =~= has_source(views));
    RawEdgeStep::Record {
        rows: marked_rows(&flags),
        cursor: page[page.len() - 1].edge_order as i64,
    }
}

/// An ancestor in the scope of the node whose anchors are searched.
#[derive(Debug, Clone, PartialEq, Eq)]
pub struct Ancestor {
    pub parent_id: String,
    pub is_anchor: bool,
}

/// What one step up from an ancestor leads to.
#[derive(Debug, Clone, PartialEq, Eq)]
pub enum AncestorStep {
    /// The edge leads to no anchor.
    Complete,
    /// The edge leads to an anchor: it is drawn and is complete.
    Found,
    /// The search goes on at the parent, one step further up.
    Climb { parent_id: String },
}

/// Decides what one step up from an ancestor leads to. The search ends where it comes back to an
/// ancestor, leaves the scope, or reaches the root or the node itself.
pub fn commit_anchor_resolution(
    first_visit: bool,
    ancestor: &Option<Ancestor>,
    current_ancestor_id: &str,
    target_id: &str,
) -> (step: AncestorStep)
    ensures
        match step {
            AncestorStep::Complete => {
                ||| !first_visit
                ||| ancestor is None
                ||| ancestor->0.is_anchor && current_ancestor_id@ == target_id@
                ||| !ancestor->0.is_anchor && ancestor->0.parent_id@.len() == 0
            },
            AncestorStep::Found => {
                &&& first_visit
                &&& ancestor is Some
                &&& ancestor->0.is_anchor
                &&& current_ancestor_id@ != target_id@
            },
            AncestorStep::Climb { parent_id } => {
                &&& first_visit
                &&& ancestor is Some
                &&& !ancestor->0.is_anchor
                &&& parent_id@ == ancestor->0.parent_id@
                &&& parent_id@.len() > 0
            },
        },
{
    if !first_visit {
        return AncestorStep::Complete;
    }
    match ancestor {
        None => AncestorStep::Complete,
        Some(ancestor) => {
            if ancestor.is_anchor {
                if text_equal(current_ancestor_id, target_id) {
                    AncestorStep::Complete
                } else {
                    AncestorStep::Found
                }
            } else if is_empty_text(ancestor.parent_id.as_str()) {
                AncestorStep::Complete
            } else {
                AncestorStep::Climb { parent_id: ancestor.parent_id.clone() }
            }
        },
    }
}

/// Where an edge to an anchor comes from: the raw edge, and how far up the anchor is.
#[derive(Debug, Clone, Copy, PartialEq, Eq, Structural)]
pub struct AnchorEdgeRank {
    pub edge_order: i32,
    pub ancestor_depth: i32,
}

/// Whether an edge takes the place of another to the same anchor.
pub open spec fn takes_place(new: AnchorEdgeRank, old: AnchorEdgeRank) -> bool {
    new.edge_order < old.edge_order || (new.edge_order == old.edge_order && new.ancestor_depth
        < old.ancestor_depth)
}

/// Whether an edge takes the place of another to the same anchor.
pub fn anchor_edge_takes_place(new: AnchorEdgeRank, old: AnchorEdgeRank) -> (takes: bool)
    ensures
        takes == takes_place(new, old),
{
    new.edge_order < old.edge_order || (new.edge_order == old.edge_order && new.ancestor_depth
        < old.ancestor_depth)
}

/// The edge that stays of two to the same anchor.
pub open spec fn kept_edge(old: AnchorEdgeRank, new: AnchorEdgeRank) -> AnchorEdgeRank {
    if takes_place(new, old) {
        new
    } else {
        old
    }
}

/// Which edge to an anchor stays does not depend on the order in which the edges are found.
pub proof fn lemma_kept_edge_order(first: AnchorEdgeRank, second: AnchorEdgeRank, third: AnchorEdgeRank)
    ensures
        kept_edge(first, second) == kept_edge(second, first),
        kept_edge(kept_edge(first, second), third) == kept_edge(kept_edge(first, third), second),
{
}

} // verus!
