//! What the steps of a build do to nodes, edges and scopes, whatever they read.

use vstd::prelude::*;
use crate::graph::mode_text;
use crate::graph::GraphMode;
use crate::incremental_build::bool_text;
use crate::incremental_build::buffer::GraphBuffer;
use crate::incremental_build::classify::staged_kind_text;
use crate::incremental_build::classify::StagedKind;
use crate::incremental_build::config_valid;
use crate::incremental_build::count_i64;
use crate::incremental_build::delta::leaves_graph;
use crate::incremental_build::delta::remaining_scope;
use crate::incremental_build::delta::total;
use crate::incremental_build::delta::RemovalCandidate;
use crate::incremental_build::discovered_count;
use crate::incremental_build::finalize::finalize_phase_text;
use crate::incremental_build::finalize::finalize_successor;
use crate::incremental_build::finalize::head_labelled;
use crate::incremental_build::finalize::next_ancestry;
use crate::incremental_build::finalize::AncestryNode;
use crate::incremental_build::finalize::FinalizePhase;
use crate::incremental_build::finalize::LabelledBranch;
use crate::incremental_build::init::is_transition;
use crate::incremental_build::init::phase_text;
use crate::incremental_build::init::phase_work;
use crate::incremental_build::init::BeginStep;
use crate::incremental_build::init::InitPhase;
use crate::incremental_build::kind_text;
use crate::incremental_build::laws::lemma_phase_is_told;
use crate::incremental_build::manifest::delta_table_name;
use crate::incremental_build::manifest::frozen_consistent;
use crate::incremental_build::manifest::FrozenBranch;
use crate::incremental_build::paging::marked;
use crate::incremental_build::place::edge_kind_text;
use crate::incremental_build::project::edge_drawn;
use crate::incremental_build::project::edges_drawn;
use crate::incremental_build::project::edges_phase;
use crate::incremental_build::project::has_source;
use crate::incremental_build::project::kept_edge;
use crate::incremental_build::project::lemma_projection_phase_texts_differ;
use crate::incremental_build::project::node_phase;
use crate::incremental_build::project::projection_change;
use crate::incremental_build::project::projection_phase_text;
use crate::incremental_build::project::projection_step;
use crate::incremental_build::project::rank_phase;
use crate::incremental_build::project::raw_edges;
use crate::incremental_build::project::raw_page;
use crate::incremental_build::project::AnchorEdgeRank;
use crate::incremental_build::project::EdgeSource;
use crate::incremental_build::project::MergeParent;
use crate::incremental_build::project::ProjectionAction;
use crate::incremental_build::project::ProjectionEdgeView;
use crate::incremental_build::project::ProjectionPhase;
use crate::incremental_build::project::ProjectionState;
use crate::incremental_build::reason_text;
use crate::incremental_build::saturate_i64;
use crate::incremental_build::scope::scope_expansion;
use crate::incremental_build::scope::BranchReuse;
use crate::incremental_build::scope::Membership;
use crate::incremental_build::scope::ScopeContinuationView;
use crate::incremental_build::scope::ScopeItem;
use crate::incremental_build::scope::ScopeNode;
use crate::incremental_build::scope::ScopeRelative;
use crate::incremental_build::traverse::awaited;
use crate::incremental_build::traverse::child_in_build;
use crate::incremental_build::traverse::is_seed;
use crate::incremental_build::traverse::ready;
use crate::incremental_build::traverse::requirement_step;
use crate::incremental_build::traverse::satisfied;
use crate::incremental_build::traverse::saturated_total;
use crate::incremental_build::traverse::waits_for;
use crate::incremental_build::traverse::Relative;
use crate::incremental_build::traverse::RequirementStepView;
use crate::incremental_build::traverse::SeedCandidate;
use crate::incremental_build::traverse::WorkNode;
use crate::incremental_build::BuildClassificationReason;
use crate::incremental_build::IncrementalBuildConfig;
use crate::incremental_build::IncrementalBuildKind;
use crate::incremental_layout::StableEdgeKind;

verus! {

/// The places of marked rows are those of the marked rows, in order and each once.
pub proof fn lemma_marked_rows(flags: Seq<bool>)
    requires
        flags.len() <= usize::MAX,
    ensures
        forall|row: usize| #[trigger]
            marked(flags).contains(row) <==> row < flags.len() && flags[row as int],
        forall|i: int, j: int|
            0 <= i < j < marked(flags).len() ==> #[trigger] marked(flags)[i] < #[trigger] marked(flags)[j],
{
    let all = crate::sorting::indices(flags.len());
    let keep = |row: usize| flags[row as int];
    crate::sorting::lemma_filter_increasing(all, |a: usize, b: usize| a < b, keep);
    assert forall|row: usize| #[trigger] marked(flags).contains(row) <==> row < flags.len()
        && flags[row as int] by {
        crate::sequences::lemma_filter_members(all, keep, row);
        if row < flags.len() {
            assert(all[row as int] == row);
        }
    }
}

/// A phase of a projection is told by its text.
proof fn lemma_projection_phase_is_told(phase: ProjectionPhase)
    ensures
        forall|other: ProjectionPhase| #[trigger]
            projection_phase_text(other) == projection_phase_text(phase) ==> other == phase,
        projection_phase_text(ProjectionPhase::AllPrepare) == "all_prepare"@,
        projection_phase_text(ProjectionPhase::AllRank) == "all_rank"@,
        projection_phase_text(ProjectionPhase::AllNode) == "all_node"@,
        projection_phase_text(ProjectionPhase::AllEdges) == "all_edges"@,
        projection_phase_text(ProjectionPhase::AnchorPrepare) == "anchor_prepare"@,
        projection_phase_text(ProjectionPhase::AnchorRank) == "anchor_rank"@,
        projection_phase_text(ProjectionPhase::AnchorNode) == "anchor_node"@,
        projection_phase_text(ProjectionPhase::AnchorEdges) == "anchor_edges"@,
        projection_phase_text(ProjectionPhase::Complete) == "complete"@,
{
    assert forall|other: ProjectionPhase| #[trigger]
        projection_phase_text(other) == projection_phase_text(phase) implies other == phase by {
        lemma_projection_phase_texts_differ(other, phase);
    }
}

/// A node is worked on exactly where it is known, waits for no parent, and is neither processed nor
/// complete. In each mode its edges are prepared, its rank is found, it is placed at that rank, and
/// its edges are written; the root is complete at once.
pub proof fn lemma_projection_steps(
    node_id: Seq<char>,
    state: ProjectionState,
    is_root: bool,
    phase: ProjectionPhase,
    mode: GraphMode,
)
    requires
        state.projection_phase@ == projection_phase_text(phase),
    ensures
        ({
            let outcome = projection_step(node_id, Some(state), is_root);
            let is_open = state.remaining_parents == 0 && state.processed == 0 && state.projection_complete
                == 0;
            &&& projection_step(node_id, None, is_root) is Err
            &&& outcome is Ok <==> is_open && (is_root || phase != ProjectionPhase::Complete)
            &&& outcome is Ok ==> (outcome->Ok_0 is CompleteRoot <==> is_root)
            &&& outcome is Ok && !is_root ==> {
                &&& outcome->Ok_0 is Prepare <==> phase == ProjectionPhase::AllPrepare
                &&& outcome->Ok_0 is ResolveAnchors <==> phase == ProjectionPhase::AnchorPrepare
                &&& outcome->Ok_0 == (ProjectionAction::Rank { mode }) <==> phase == rank_phase(mode)
                &&& outcome->Ok_0 == (ProjectionAction::Place {
                    mode,
                    required_rank: state.required_rank,
                }) <==> phase == node_phase(mode)
                &&& outcome->Ok_0 == (ProjectionAction::WriteEdges { mode }) <==> phase == edges_phase(
                    mode,
                )
            }
        }),
{
    lemma_projection_phase_is_told(phase);
}

/// The phases of the two modes are apart, and within a mode ranks come before places and places
/// before edges. Only a phase that finds ranks starts them over.
pub proof fn lemma_projection_phases(mode: GraphMode, from: ProjectionPhase, to: ProjectionPhase)
    ensures
        rank_phase(GraphMode::All) == ProjectionPhase::AllRank,
        rank_phase(GraphMode::Anchors) == ProjectionPhase::AnchorRank,
        node_phase(GraphMode::All) == ProjectionPhase::AllNode,
        node_phase(GraphMode::Anchors) == ProjectionPhase::AnchorNode,
        edges_phase(GraphMode::All) == ProjectionPhase::AllEdges,
        edges_phase(GraphMode::Anchors) == ProjectionPhase::AnchorEdges,
        projection_change(from, to).from == from,
        projection_change(from, to).to == to,
        projection_change(from, to).resets_rank <==> to == rank_phase(GraphMode::All) || to == rank_phase(
            GraphMode::Anchors,
        ),
{
}

/// The raw edges of a node are one from its parent, the primary one, and then one from each parent
/// that it merges, in their order. Their kinds are those that are read back from the store.
pub proof fn lemma_raw_edges(parent_id: Seq<char>, merge_parents: Seq<MergeParent>, place: int)
    requires
        merge_parents.len() < i32::MAX,
        0 <= place < merge_parents.len(),
    ensures
        ({
            let edges = raw_edges(parent_id, merge_parents);
            &&& edges.len() == merge_parents.len() + 1
            &&& edges[0].source_id == parent_id
            &&& edges[0].edge_kind == edge_kind_text(StableEdgeKind::Primary)
            &&& edges[0].edge_order == 0
            &&& edges[place + 1].source_id == merge_parents[place].node_id@
            &&& edges[place + 1].edge_order == place + 1
            &&& edges[place + 1].edge_kind == edge_kind_text(StableEdgeKind::Shadow)
                <==> merge_parents[place].is_shadow
            &&& edges[place + 1].edge_kind == edge_kind_text(StableEdgeKind::Merge)
                <==> !merge_parents[place].is_shadow
        }),
{
    if edge_kind_text(StableEdgeKind::Shadow) == edge_kind_text(StableEdgeKind::Merge) {
        crate::incremental_build::place::lemma_edge_kind_texts_differ(
            StableEdgeKind::Shadow,
            StableEdgeKind::Merge,
        );
    }
}

/// A page of edges is the run behind its cursor: as many as asked for, at most 128, or all that are
/// left.
pub proof fn lemma_raw_page(edges: Seq<ProjectionEdgeView>, cursor: i64, size: usize)
    requires
        -1 <= cursor < i64::MAX,
    ensures
        ({
            let page = raw_page(edges, cursor, size);
            &&& page.len() <= size && page.len() <= 128
            &&& forall|i: int| 0 <= i < page.len() ==> #[trigger] page[i] == edges[cursor + 1 + i]
            &&& cursor + 1 + page.len() < edges.len() ==> page.len() == size || page.len() == 128
            &&& page.len() > 0 ==> cursor + 1 + page.len() <= edges.len()
        }),
{
}

/// An edge is drawn exactly where its source is a node other than the root and its target, and is
/// shown: the build processed it, or the baseline that the build adds to has it.
pub proof fn lemma_drawn_edge(
    edge: ProjectionEdgeView,
    source: EdgeSource,
    root_id: Seq<char>,
    target_id: Seq<char>,
)
    ensures
        edge_drawn(edge, source, root_id, target_id, false) <==> edge.source_id.len() > 0
            && edge.source_id != root_id && edge.source_id != target_id && source.processed,
        edge_drawn(edge, source, root_id, target_id, true) <==> edge.source_id.len() > 0 && edge.source_id
            != root_id && edge.source_id != target_id && (source.processed || source.in_baseline),
{
}

/// Of two edges to one anchor the one of the earlier raw edge stays, and of two of one raw edge
/// the one to the nearer ancestor.
pub proof fn lemma_kept_edge(a: AnchorEdgeRank, b: AnchorEdgeRank)
    ensures
        kept_edge(a, b) == a || kept_edge(a, b) == b,
        kept_edge(a, b).edge_order <= a.edge_order,
        kept_edge(a, b).edge_order <= b.edge_order,
        a.edge_order == b.edge_order ==> kept_edge(a, b).ancestor_depth <= a.ancestor_depth
            && kept_edge(a, b).ancestor_depth <= b.ancestor_depth,
{
}

/// Whether a branch has a node: it contributes the node, or its baseline has the node in its scope
/// and still counts.
pub open spec fn has_node(reuse: BranchReuse, node: Membership) -> bool {
    node.contributed || (reuse.append && !reuse.replaced && node.in_baseline_scope)
}

/// The first time that an item is expanded, its node enters the scope where the branch has it and
/// it is not the root. Its parent is searched where the branch has it, unless a session starts at
/// the node that does not go on from a skill, or that was handed off. Nothing of this happens
/// where the scope of the baseline reaches the node, nor at a later time.
pub proof fn lemma_scope_of_a_node(
    item: ScopeItem,
    reuse: BranchReuse,
    in_baseline_scope: bool,
    node: ScopeNode,
    parents: Seq<ScopeRelative>,
    children: Seq<ScopeRelative>,
)
    ensures
        ({
            let expansion = scope_expansion(
                item,
                reuse,
                in_baseline_scope,
                Some(node),
                parents,
                children,
            );
            let missing = scope_expansion(item, reuse, in_baseline_scope, None, parents, children);
            let reached = reuse.append && !reuse.replaced && in_baseline_scope;
            let first = item.node_expanded == 0 && !reached;
            let stops = node.start.is_session && (!node.start.has_active_skill || node.start.has_handoff);
            &&& expansion.reuses_baseline <==> reached
            &&& expansion.enters_scope <==> first && node.parent_id@.len() > 0 && has_node(
                reuse,
                node.membership,
            )
            &&& expansion.queues_parent <==> first && node.parent_id@.len() > 0 && has_node(
                reuse,
                node.parent_membership,
            ) && !stops
            &&& !missing.enters_scope && !missing.queues_parent
            &&& expansion.continuation is Reached <==> item.node_expanded == 0 && reached
            &&& expansion.continuation is Parents <==> first && parents.len() > 0
        }),
{
}

/// The parents of a page that the branch has are searched, and those alone; the next page follows
/// behind the last one.
pub proof fn lemma_scope_parents(
    item: ScopeItem,
    reuse: BranchReuse,
    in_baseline_scope: bool,
    node: Option<ScopeNode>,
    parents: Seq<ScopeRelative>,
    children: Seq<ScopeRelative>,
    row: usize,
)
    requires
        parents.len() <= usize::MAX,
        row < parents.len(),
    ensures
        scope_expansion(item, reuse, in_baseline_scope, node, parents, children).continuation matches
            ScopeContinuationView::Parents { rows, cursor } ==> {
            &&& rows.contains(row) <==> has_node(reuse, parents[row as int].membership)
            &&& cursor == parents.last().node_id@
        },
{
    let flags = parents.map_values(
        |parent: ScopeRelative| crate::incremental_build::scope::parent_searched(reuse, parent),
    );
    lemma_marked_rows(flags);
}

/// The children of a page that the branch has are searched below a skill. Elsewhere only the
/// starts of skills are, below the use of a tool. Once there are no more children, the item is
/// done.
pub proof fn lemma_scope_children(
    item: ScopeItem,
    reuse: BranchReuse,
    in_baseline_scope: bool,
    node: Option<ScopeNode>,
    parents: Seq<ScopeRelative>,
    children: Seq<ScopeRelative>,
    row: usize,
)
    requires
        children.len() <= usize::MAX,
    ensures
        scope_expansion(item, reuse, in_baseline_scope, node, parents, children).continuation matches
            ScopeContinuationView::Children { mark_expanded, rows, cursor, processed } ==> {
            &&& processed <==> children.len() == 0
            &&& mark_expanded <==> item.node_expanded == 0
            &&& children.len() == 0 ==> cursor == item.child_cursor@
            &&& children.len() > 0 ==> cursor == children.last().node_id@
            &&& row < children.len() ==> (rows.contains(row) <==> has_node(
                reuse,
                children[row as int].membership,
            ) && (item.traversal_kind@ == "skill_subtree"@ || (node is Some && node->0.is_tool_use
                && children[row as int].is_skill_invocation)))
        },
{
    let tool = crate::incremental_build::scope::is_tool_use(node);
    let flags = children.map_values(
        |child: ScopeRelative|
            crate::incremental_build::scope::child_searched(reuse, item.traversal_kind@, tool, child),
    );
    lemma_marked_rows(flags);
}

/// A node leaves the graph exactly where the removed branch contributed it to the baseline, the
/// baseline shows it, and no branch contributes it any longer.
pub proof fn lemma_node_leaves(candidate: RemovalCandidate)
    ensures
        leaves_graph(candidate) <==> candidate.eligible == 1 && candidate.in_baseline
            && !candidate.still_contributed,
{
}

/// A scope loses what was removed of it, and has nothing left where more was removed.
pub proof fn lemma_remaining_scope(scope_count: i64, removed: i64)
    requires
        removed >= 0,
    ensures
        remaining_scope(scope_count, removed) >= 0,
        removed <= scope_count ==> remaining_scope(scope_count, removed) + removed == scope_count,
        removed > scope_count ==> remaining_scope(scope_count, removed) == 0,
{
}

/// A build ends with the ports, then the labels, then the two modes, the anchors first; and then
/// it is ready for good.
pub proof fn lemma_build_ends_in_order()
    ensures
        ({
            let ports = finalize_successor(FinalizePhase::Traversal);
            let labels = finalize_successor(ports);
            let anchors = finalize_successor(labels);
            let all = finalize_successor(anchors);
            &&& ports == FinalizePhase::Ports
            &&& labels == FinalizePhase::Labels
            &&& anchors == FinalizePhase::Anchors
            &&& all == FinalizePhase::All
            &&& finalize_successor(all) == FinalizePhase::Ready
            &&& finalize_successor(FinalizePhase::Ready) == FinalizePhase::Ready
        }),
{
}

/// The head of a branch is labelled exactly where it is shown: it is not the root, and the build
/// processed it or has it from the baseline that it adds to.
pub proof fn lemma_labelled_head(root_id: Seq<char>, branch: LabelledBranch)
    ensures
        head_labelled(IncrementalBuildKind::Full, root_id, branch) <==> branch.head_id@ != root_id
            && branch.head_processed,
        head_labelled(IncrementalBuildKind::Append, root_id, branch) <==> branch.head_id@ != root_id && (
        branch.head_processed || branch.head_placed),
{
}

/// The search for the anchor of a branch finds the node where it is, where that is an anchor; it
/// climbs to the parent exactly where the branch has the parent; and it ends anywhere else without
/// an anchor, as it does where it comes back.
pub proof fn lemma_search_for_anchor(
    first_visit: bool,
    current: Seq<char>,
    node: AncestryNode,
    reuse: BranchReuse,
)
    ensures
        ({
            let next = next_ancestry(first_visit, current, node, reuse);
            let climbs = first_visit && !node.is_anchor && node.parent_id@.len() > 0 && (
            node.parent_in_build_scope || (reuse.append && !reuse.replaced && node.parent_in_baseline_scope));
            &&& next.ready <==> !climbs
            &&& climbs ==> next.current_node_id == node.parent_id@ && next.anchor_id is None
            &&& first_visit && node.is_anchor <==> next.anchor_id is Some
            &&& next.anchor_id matches Some(anchor) ==> anchor == current && next.current_node_id == current
            &&& !climbs && next.anchor_id is None ==> next.current_node_id.len() == 0
        }),
{
}

/// A walk starts at the new nodes other than the root that have no new parents.
pub proof fn lemma_seed(candidate: SeedCandidate, root_id: Seq<char>)
    ensures
        is_seed(candidate, root_id) <==> candidate.node_id@ != root_id && !candidate.has_new_parent,
{
}

/// A child waits for the parents that the build works on. Where the build adds to its baseline,
/// those are the new ones, and the root is never waited for; where it starts over, those are the
/// contributed ones.
pub proof fn lemma_child_waits_for_work(root_id: Seq<char>, parent: Relative)
    ensures
        waits_for(IncrementalBuildKind::Full, root_id, parent) <==> child_in_build(
            IncrementalBuildKind::Full,
            parent,
        ),
        waits_for(IncrementalBuildKind::Append, root_id, parent) <==> child_in_build(
            IncrementalBuildKind::Append,
            parent,
        ) && parent.node_id@ != root_id,
        child_in_build(IncrementalBuildKind::Full, parent) <==> parent.contributed,
        child_in_build(IncrementalBuildKind::Append, parent) <==> parent.in_delta,
{
}

/// A page of parents adds those that the node waits for, each once, and moves the cursor behind the
/// page; parents that were all counted are not counted again.
pub proof fn lemma_counted_parents(
    kind: IncrementalBuildKind,
    root_id: Seq<char>,
    requirements_complete: i32,
    parents: Seq<Relative>,
    row: usize,
)
    requires
        parents.len() <= usize::MAX,
    ensures
        ({
            let step = requirement_step(kind, root_id, requirements_complete, parents);
            let rows = awaited(kind, root_id, parents);
            &&& step is Counted <==> requirements_complete == 1
            &&& step is Complete <==> requirements_complete != 1 && parents.len() == 0
            &&& step matches RequirementStepView::Count { added, cursor } ==> added == rows.len() && cursor
                == parents.last().node_id@
            &&& rows.contains(row) <==> row < parents.len() && waits_for(
                kind,
                root_id,
                parents[row as int],
            )
            &&& rows.no_duplicates()
        }),
{
    let flags = parents.map_values(|parent: Relative| waits_for(kind, root_id, parent));
    lemma_marked_rows(flags);
}

/// A node that is told of a parent waits for one less, unless it knew; a node that waits for none,
/// is processed, or does not know its parents yet refuses. It enters the frontier once it waits
/// for none, and only once.
pub proof fn lemma_waiting_node(node: WorkNode, enqueued: bool, parent_in_work: bool)
    ensures
        satisfied(node, true) == Ok::<WorkNode, crate::incremental_build::StepFailure>(node),
        satisfied(node, false) is Ok <==> node.processed == 0 && node.remaining_parents > 0
            && node.requirements_complete == 1,
        satisfied(node, false) matches Ok(after) ==> after.remaining_parents + 1 == node.remaining_parents
            && after.processed == node.processed && after.requirements_complete
            == node.requirements_complete,
        ready(node, enqueued, parent_in_work) <==> node.remaining_parents == 0 && node.processed == 0
            && node.requirements_complete == 1 && !enqueued && !parent_in_work,
{
}

/// Each phase of a set-up has its own work, and a complete one has none.
#[verifier::rlimit(40)]
pub proof fn lemma_work_of_phases()
    ensures
        phase_work(phase_text(InitPhase::Scope)) == Some(BeginStep::ProcessScope),
        phase_work(phase_text(InitPhase::Kind)) == Some(BeginStep::ChooseKind),
        phase_work(phase_text(InitPhase::KindJournal)) == Some(BeginStep::ChooseKind),
        phase_work(phase_text(InitPhase::DeltaRemove)) == Some(BeginStep::RemoveDelta),
        phase_work(phase_text(InitPhase::DeltaScopeRemove)) == Some(BeginStep::RemoveDeltaScope),
        phase_work(phase_text(InitPhase::DeltaSeed)) == Some(BeginStep::SeedDelta),
        phase_work(phase_text(InitPhase::Branches)) == Some(BeginStep::StageBranches),
        phase_work(phase_text(InitPhase::Complete)) is None,
{
    lemma_phase_is_told(InitPhase::Scope);
    lemma_phase_is_told(InitPhase::Kind);
    lemma_phase_is_told(InitPhase::KindJournal);
    lemma_phase_is_told(InitPhase::DeltaRemove);
    lemma_phase_is_told(InitPhase::DeltaScopeRemove);
    lemma_phase_is_told(InitPhase::DeltaSeed);
    lemma_phase_is_told(InitPhase::Branches);
    lemma_phase_is_told(InitPhase::Complete);
    reveal_strlit("kind");
    reveal_strlit("kind_journal");
    reveal_strlit("delta_remove");
    reveal_strlit("delta_scope_remove");
    reveal_strlit("delta_seed");
    reveal_strlit("branches");
    reveal_strlit("complete");
    assert("kind"@ =~= "kind_journal"@.take(4));
    assert("kind"@ =~= "kind"@.take(4));
    assert("kind"@.len() == 4 && "kind"@[0] == 'k');
    assert("delta_remove"@[0] == 'd' && "delta_scope_remove"@[0] == 'd' && "delta_seed"@[0] == 'd');
    assert("branches"@[0] == 'b' && "complete"@[0] == 'c');
    if "kind"@.is_prefix_of("delta_remove"@) {
        assert("delta_remove"@[0] == "kind"@[0]);
    }
    if "kind"@.is_prefix_of("delta_scope_remove"@) {
        assert("delta_scope_remove"@[0] == "kind"@[0]);
    }
    if "kind"@.is_prefix_of("delta_seed"@) {
        assert("delta_seed"@[0] == "kind"@[0]);
    }
    if "kind"@.is_prefix_of("branches"@) {
        assert("branches"@[0] == "kind"@[0]);
    }
    if "kind"@.is_prefix_of("complete"@) {
        assert("complete"@[0] == "kind"@[0]);
    }
}

/// A set-up branches only where the kind of the build is found; a complete one goes nowhere.
pub proof fn lemma_set_up_is_a_path(from: InitPhase, a: InitPhase, b: InitPhase)
    requires
        is_transition(from, a),
        is_transition(from, b),
    ensures
        from != InitPhase::Complete,
        from != InitPhase::Kind && from != InitPhase::KindJournal ==> a == b,
        from == InitPhase::Kind ==> a == InitPhase::KindJournal || a == InitPhase::FullReset,
        from == InitPhase::KindJournal ==> a == InitPhase::DeltaRemove || a == InitPhase::FullReset,
        from == InitPhase::New ==> a == InitPhase::Kind,
        from == InitPhase::DeltaRemove ==> a == InitPhase::DeltaSeed,
        from == InitPhase::DeltaSeed ==> a == InitPhase::ManifestSeed,
        from == InitPhase::ManifestSeed ==> a == InitPhase::Scope,
        from == InitPhase::Scope ==> a == InitPhase::DeltaScopeRemove,
        from == InitPhase::DeltaScopeRemove ==> a == InitPhase::RankSlots,
        from == InitPhase::Branches ==> a == InitPhase::Complete,
{
}

/// Counts add up: one after the other, and over lists that follow one another.
pub proof fn lemma_totals(first: Seq<usize>, second: Seq<usize>)
    ensures
        total(first + second) == total(first) + total(second),
        first.len() == 1 ==> total(first) == first[0],
        first.len() == 0 ==> total(first) == 0,
        total(first) <= usize::MAX ==> saturated_total(first) == total(first),
        total(first) > usize::MAX ==> saturated_total(first) == usize::MAX,
    decreases first.len() + second.len(),
{
    if second.len() > 0 {
        lemma_totals(first, second.drop_last());
        assert((first + second).drop_last() =~= first + second.drop_last());
    } else {
        assert(first + second =~= first);
    }
    if first.len() > 0 {
        lemma_totals(first.drop_last(), Seq::empty());
        if first.len() == 1 {
            assert(first.drop_last() =~= Seq::<usize>::empty());
        }
    }
    lemma_total_not_negative(first);
    if first.len() > 0 {
        lemma_total_not_negative(first.drop_last());
    }
}

proof fn lemma_total_not_negative(counts: Seq<usize>)
    ensures
        total(counts) >= 0,
    decreases counts.len(),
{
    if counts.len() > 0 {
        lemma_total_not_negative(counts.drop_last());
    }
}

/// A buffer counts everything that waits in it, of both modes, and is full from its limit on.
pub proof fn lemma_buffer_size(buffer: GraphBuffer)
    requires
        buffer.nodes_of(GraphMode::All).len() + buffer.edges_of(GraphMode::All).len() + buffer.nodes_of(
            GraphMode::Anchors,
        ).len() + buffer.edges_of(GraphMode::Anchors).len() <= usize::MAX,
    ensures
        buffer.size() == buffer.nodes_of(GraphMode::All).len() + buffer.edges_of(GraphMode::All).len()
            + buffer.nodes_of(GraphMode::Anchors).len() + buffer.edges_of(GraphMode::Anchors).len(),
        buffer.full() <==> buffer.size() >= buffer.limit,
{
}

/// A build can work where it can hold something, read something, and hold a page of what it reads.
pub proof fn lemma_valid_config(config: IncrementalBuildConfig)
    ensures
        config_valid(config) <==> config.graph_buffer_limit >= 1 && config.child_page_size >= 1
            && config.frontier_high_watermark >= config.child_page_size,
{
}

/// Nothing is read behind a cursor that is before the first place, nor behind the last edge.
pub proof fn lemma_no_raw_page(edges: Seq<ProjectionEdgeView>, cursor: i64, size: usize)
    requires
        edges.len() <= i32::MAX,
        cursor < -1 || cursor >= edges.len() - 1,
    ensures
        raw_page(edges, cursor, size).len() == 0,
{
}

/// A page of raw edges draws an edge for what is known of its own source, and records it where it
/// has a source.
pub proof fn lemma_edges_of_a_page(
    page: Seq<ProjectionEdgeView>,
    sources: Seq<EdgeSource>,
    root_id: Seq<char>,
    target_id: Seq<char>,
    append: bool,
    i: int,
)
    requires
        0 <= i < page.len(),
    ensures
        edges_drawn(page, sources, root_id, target_id, append).len() == page.len(),
        edges_drawn(page, sources, root_id, target_id, append)[i] <==> page[i].source_id.len() > 0
            && page[i].source_id != root_id && page[i].source_id != target_id && (sources[i].processed || (
        append && sources[i].in_baseline)),
        has_source(page).len() == page.len(),
        has_source(page)[i] <==> page[i].source_id.len() > 0,
{
}

/// A branch of the past does not contradict itself where it is removed and holds nothing, or is
/// not and holds its generation, its head and its state.
pub proof fn lemma_frozen_branch(branch: FrozenBranch)
    ensures
        branch.removed != 0 ==> (frozen_consistent(branch) <==> branch.contribution_generation is None
            && branch.head_id is None && branch.state_json is None),
        branch.removed == 0 ==> (frozen_consistent(branch) <==> branch.contribution_generation is Some
            && branch.head_id is Some && branch.state_json is Some),
{
}

/// The tables of an earlier delta are six different ones.
pub proof fn lemma_delta_tables_differ(a: usize, b: usize)
    requires
        a < 6,
        b < 6,
        delta_table_name(a) == delta_table_name(b),
    ensures
        a == b,
{
    reveal_strlit("console_graph_build_branch_deltas");
    reveal_strlit("console_graph_build_anchor_node_tombstones");
    reveal_strlit("console_graph_build_scope_tombstones");
    reveal_strlit("console_graph_build_changed_branches");
    reveal_strlit("console_graph_build_node_tombstones");
    reveal_strlit("console_graph_build_delta_nodes");
    assert("console_graph_build_branch_deltas"@.len() == 33);
    assert("console_graph_build_anchor_node_tombstones"@.len() == 42);
    assert("console_graph_build_scope_tombstones"@.len() == 36);
    assert("console_graph_build_changed_branches"@.len() == 36);
    assert("console_graph_build_scope_tombstones"@[20] == 's');
    assert("console_graph_build_changed_branches"@[20] == 'c');
    assert("console_graph_build_node_tombstones"@.len() == 35);
    assert("console_graph_build_delta_nodes"@.len() == 31);
}

/// A count is stored as it is, as far as the store reaches, and only where something was counted.
pub proof fn lemma_stored_counts(count: usize, value: int)
    ensures
        count <= i64::MAX ==> count_i64(count) == count,
        count > i64::MAX ==> count_i64(count) == i64::MAX,
        discovered_count(count) is Some <==> count > 0,
        discovered_count(count) matches Some(stored) ==> stored == count_i64(count),
        i64::MIN <= value <= i64::MAX ==> saturate_i64(value) == value,
        value > i64::MAX ==> saturate_i64(value) == i64::MAX,
        value < i64::MIN ==> saturate_i64(value) == i64::MIN,
{
}

/// What is stored for the end of a build, for a staged change and for the kind of a build.
pub proof fn lemma_stored_words()
    ensures
        finalize_phase_text(FinalizePhase::Traversal) == "traversal"@,
        finalize_phase_text(FinalizePhase::Ports) == "ports"@,
        finalize_phase_text(FinalizePhase::Labels) == "labels"@,
        finalize_phase_text(FinalizePhase::Anchors) == "anchors"@,
        finalize_phase_text(FinalizePhase::All) == "all"@,
        finalize_phase_text(FinalizePhase::Ready) == "ready"@,
        staged_kind_text(StagedKind::Added) == "added"@,
        staged_kind_text(StagedKind::Append) == "append"@,
        staged_kind_text(StagedKind::Replace) == "replace"@,
        staged_kind_text(StagedKind::Metadata) == "metadata"@,
        staged_kind_text(StagedKind::Delete) == "delete"@,
        kind_text(IncrementalBuildKind::Full) == "full"@,
        kind_text(IncrementalBuildKind::Append) == "append"@,
        edge_kind_text(StableEdgeKind::Primary) == "primary"@,
        edge_kind_text(StableEdgeKind::Merge) == "merge"@,
        edge_kind_text(StableEdgeKind::Shadow) == "shadow"@,
        mode_text(GraphMode::Anchors) == "anchors"@,
        mode_text(GraphMode::All) == "all"@,
        bool_text(true) == "true"@,
        bool_text(false) == "false"@,
{
}

/// What is stored for the reason of a classification.
pub proof fn lemma_stored_reasons()
    ensures
        reason_text(BuildClassificationReason::Unclassified) == "unclassified"@,
        reason_text(BuildClassificationReason::SourceJournalDeltaCompatible)
            == "source_journal_delta_compatible"@,
        reason_text(BuildClassificationReason::BaselineDeltaCapabilityUnavailable)
            == "baseline_delta_capability_unavailable"@,
        reason_text(BuildClassificationReason::SourceJournalGap) == "source_change_journal_gap"@,
        reason_text(BuildClassificationReason::SourceAppendBaseMismatch) == "source_append_base_mismatch"@,
        reason_text(BuildClassificationReason::SourceChangeJournalInvalid)
            == "source_change_journal_invalid"@,
        reason_text(BuildClassificationReason::SourceMetadataBaselineMismatch)
            == "source_metadata_baseline_mismatch"@,
        reason_text(BuildClassificationReason::BaselineAnchorScopeManifestUnavailable)
            == "baseline_anchor_scope_manifest_unavailable"@,
{
}

} // verus!
