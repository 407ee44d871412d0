//! What a build that adds to its baseline removes and what it starts from, page by page.

use vstd::prelude::*;
use crate::incremental_build::init::is_transition;
use crate::incremental_build::init::InitPhase;
use crate::incremental_build::init::PhaseChange;
use crate::incremental_build::paging::marked;
use crate::incremental_build::paging::marked_rows;
use crate::incremental_build::StepFailure;

verus! {

/// How far the removal of a changed branch has come.
#[derive(Debug, Clone, PartialEq, Eq)]
pub struct BranchRemoval {
    pub branch_name: String,
    pub cursor: String,
    pub refresh_id_cursor: i64,
    pub refresh_id_upper_bound: i64,
    pub bound_frozen: i32,
    pub complete: i32,
}

/// What a transaction on the removals does first.
#[derive(Debug, Clone, Copy, PartialEq, Eq, Structural)]
pub enum RemovalAction {
    /// No branch is left.
    Advance { change: PhaseChange },
    /// The newest refresh that the removal looks at is fixed.
    FreezeBound,
    /// A page of candidates is read.
    ReadCandidates,
}

/// Decides what a transaction on the removals does first, for the first branch that is left.
pub fn populate_delta_removal_batch(removal: &Option<BranchRemoval>) -> (outcome: Result<
    RemovalAction,
    StepFailure,
>)
    ensures
        outcome == (match *removal {
            None => Ok(
                RemovalAction::Advance {
                    change: PhaseChange { from: InitPhase::DeltaRemove, to: InitPhase::DeltaSeed },
                },
            ),
            Some(removal) => if removal.complete != 0 {
                Err(StepFailure::NotFound)
            } else if removal.bound_frozen == 0 {
                Ok(RemovalAction::FreezeBound)
            } else {
                Ok(RemovalAction::ReadCandidates)
            },
        }),
        outcome matches Ok(RemovalAction::Advance { change }) ==> is_transition(
            change.from,
            change.to,
        ),
{
    match removal {
        None => Ok(
            RemovalAction::Advance {
                change: PhaseChange { from: InitPhase::DeltaRemove, to: InitPhase::DeltaSeed },
            },
        ),
        Some(removal) => {
            if removal.complete != 0 {
                Err(StepFailure::NotFound)
            } else if removal.bound_frozen == 0 {
                Ok(RemovalAction::FreezeBound)
            } else {
                Ok(RemovalAction::ReadCandidates)
            }
        },
    }
}

/// A node that a removed branch contributed.
#[derive(Debug, Clone, PartialEq, Eq)]
pub struct RemovalCandidate {
    pub refresh_id: i64,
    pub node_id: String,
    /// Whether the branch contributed the node to the baseline.
    pub eligible: i32,
    /// Whether the baseline shows the node.
    pub in_baseline: bool,
    /// Whether some branch still contributes the node.
    pub still_contributed: bool,
}

/// Whether a node leaves the graph.
pub open spec fn leaves_graph(candidate: RemovalCandidate) -> bool {
    candidate.eligible == 1 && candidate.in_baseline && !candidate.still_contributed
}

/// What a transaction does with a page of candidates.
#[derive(Debug, Clone, PartialEq, Eq)]
pub enum RemovalPage {
    /// The removal of the branch is complete.
    Complete,
    /// The nodes at some places leave the graph, and the cursors move.
    Remove { rows: Vec<usize>, cursor: String, refresh_id_cursor: i64 },
}

/// Decides what a transaction does with a page of candidates.
pub fn removal_page(candidates: &Vec<RemovalCandidate>) -> (page: RemovalPage)
    ensures
        match page {
            RemovalPage::Complete => candidates@.len() == 0,
            RemovalPage::Remove { rows, cursor, refresh_id_cursor } => {
                &&& candidates@.len() > 0
                &&& rows@ == marked(candidates@.map_values(|c: RemovalCandidate| leaves_graph(c)))
                &&& cursor@ == candidates@.last().node_id@
                &&& refresh_id_cursor == candidates@.last().refresh_id
            },
        },
{
    if candidates.len() == 0 {
        return RemovalPage::Complete;
    }
    let mut flags: Vec<bool> = Vec::new();
    let mut i: usize = 0;
    while i < candidates.len()
        invariant
            0 <= i <= candidates.len(),
            flags@.len() == i,
            forall|j: int| 0 <= j < i ==> #[trigger] flags@[j] == leaves_graph(candidates@[j]),
        decreases candidates.len() - i,
    {
        let candidate = &candidates[i];
        flags.push(
            candidate.eligible == 1 && candidate.in_baseline && !candidate.still_contributed,
        );
        i += 1;
    }
    assert(flags@ =~= candidates@.map_values(|c: RemovalCandidate| leaves_graph(c)));
    let last = &candidates[candidates.len() - 1];
    RemovalPage::Remove {
        rows: marked_rows(&flags),
        cursor: last.node_id.clone(),
        refresh_id_cursor: last.refresh_id,
    }
}

/// How far the removal of the anchor scope of a changed branch has come.
#[derive(Debug, Clone, PartialEq, Eq)]
pub struct ScopeRemoval {
    pub branch_name: String,
    pub cursor: String,
    pub reuses_baseline: i32,
}

/// What a transaction on the removals of scopes does first.
#[derive(Debug, Clone, Copy, PartialEq, Eq, Structural)]
pub enum ScopeRemovalAction {
    /// No branch is left. The size of the scope is recorded.
    Advance { scope_count: i64, change: PhaseChange },
    /// The branch keeps the scope that the baseline has for it.
    Keep,
    /// A page of the scope of the branch is read.
    ReadScopes,
}

/// How many places a scope has after some were removed, as far as an `i64` reaches.
pub open spec fn remaining_scope(scope_count: i64, removed: i64) -> i64 {
    if scope_count - removed < 0 {
        0
    } else if scope_count - removed > i64::MAX {
        i64::MAX
    } else {
        (scope_count - removed) as i64
    }
}

/// Decides what a transaction on the removals of scopes does first, for the first branch that is
/// left.
pub fn populate_delta_scope_removal_batch(
    removal: &Option<ScopeRemoval>,
    scope_count: i64,
    removed: i64,
) -> (action: ScopeRemovalAction)
    ensures
        action == (match *removal {
            None => ScopeRemovalAction::Advance {
                scope_count: remaining_scope(scope_count, removed),
                change: PhaseChange { from: InitPhase::DeltaScopeRemove, to: InitPhase::RankSlots },
            },
            Some(removal) => if removal.reuses_baseline == 1 {
                ScopeRemovalAction::Keep
            } else {
                ScopeRemovalAction::ReadScopes
            },
        }),
        action matches ScopeRemovalAction::Advance { scope_count, change } ==> is_transition(
            change.from,
            change.to,
        ),
{
    match removal {
        None => {
            let remaining: i64 = if removed >= scope_count {
                0
            } else if removed < 0 && scope_count > i64::MAX + removed {
                i64::MAX
            } else {
                scope_count - removed
            };
            ScopeRemovalAction::Advance {
                scope_count: remaining,
                change: PhaseChange { from: InitPhase::DeltaScopeRemove, to: InitPhase::RankSlots },
            }
        },
        Some(removal) => {
            if removal.reuses_baseline == 1 {
                ScopeRemovalAction::Keep
            } else {
                ScopeRemovalAction::ReadScopes
            }
        },
    }
}

/// Whether a node leaves the anchors once a branch no longer shows it: no other branch of the
/// build shows it, and none that the baseline shows it for keeps it.
pub fn leaves_anchors(in_build_scope: bool, in_kept_baseline_scope: bool) -> (leaves: bool)
    ensures
        leaves == (!in_build_scope && !in_kept_baseline_scope),
{
    !in_build_scope && !in_kept_baseline_scope
}

/// The sum of what each insertion of a page inserted.
pub open spec fn total(inserted: Seq<usize>) -> int
    decreases inserted.len(),
{
    if inserted.len() == 0 {
        0
    } else {
        total(inserted.drop_last()) + inserted.last()
    }
}

/// What a transaction does with a page of a scope.
#[derive(Debug, Clone, PartialEq, Eq)]
pub enum ScopeRemovalPage {
    /// The removal of the scope is complete.
    Complete,
    /// Every place of the page is removed, and the cursor moves.
    Remove { cursor: String },
}

/// Decides what a transaction does with a page of a scope.
pub fn scope_removal_page(scopes: &Vec<String>) -> (page: ScopeRemovalPage)
    ensures
        match page {
            ScopeRemovalPage::Complete => scopes@.len() == 0,
            ScopeRemovalPage::Remove { cursor } => scopes@.len() > 0 && cursor@ == scopes@.last()@,
        },
{
    if scopes.len() == 0 {
        ScopeRemovalPage::Complete
    } else {
        ScopeRemovalPage::Remove { cursor: scopes[scopes.len() - 1].clone() }
    }
}

/// Counts the places that a page removed, each of them at most once.
pub fn count_removed(inserted: &Vec<usize>) -> (count: i64)
    requires
        inserted@.len() <= i64::MAX,
        forall|i: int| 0 <= i < inserted@.len() ==> #[trigger] inserted@[i] <= 1,
    ensures
        count == total(inserted@),
        0 <= count <= inserted@.len(),
{
    let mut count: i64 = 0;
    let mut i: usize = 0;
    while i < inserted.len()
        invariant
            inserted@.len() <= i64::MAX,
            forall|j: int| 0 <= j < inserted@.len() ==> #[trigger] inserted@[j] <= 1,
            0 <= i <= inserted.len(),
            count == total(inserted@.take(i as int)),
            0 <= count <= i,
        decreases inserted.len() - i,
    {
        proof {
            assert(inserted@.take(i + 1).drop_last() =~= inserted@.take(i as int));
            assert(inserted@[i as int] <= 1);
        }
        count = count + inserted[i] as i64;
        i += 1;
    }
    assert(inserted@.take(i as int) =~= inserted@);
    count
}

/// A refresh whose nodes a build starts from.
#[derive(Debug, Clone, PartialEq, Eq)]
pub struct BranchDelta {
    pub branch_name: String,
    pub published_source_revision: i64,
    pub refresh_id: i64,
    pub seed_cursor: String,
}

/// What a transaction on the nodes of the refreshes does first.
#[derive(Debug, Clone, Copy, PartialEq, Eq, Structural)]
pub enum DeltaAction {
    /// No refresh is left.
    Advance { change: PhaseChange },
    /// A page of the nodes of the refresh is read.
    ReadNodes,
}

/// Decides what a transaction on the nodes of the refreshes does first, for the first refresh that
/// is left.
pub fn populate_delta_node_batch(delta: &Option<BranchDelta>) -> (action: DeltaAction)
    ensures
        action == (if delta is None {
            DeltaAction::Advance {
                change: PhaseChange { from: InitPhase::DeltaSeed, to: InitPhase::ManifestSeed },
            }
        } else {
            DeltaAction::ReadNodes
        }),
        action matches DeltaAction::Advance { change } ==> is_transition(change.from, change.to),
{
    match delta {
        None => DeltaAction::Advance {
            change: PhaseChange { from: InitPhase::DeltaSeed, to: InitPhase::ManifestSeed },
        },
        Some(_) => DeltaAction::ReadNodes,
    }
}

/// A node of a refresh, with whether the baseline shows it.
#[derive(Debug, Clone, PartialEq, Eq)]
pub struct DeltaNode {
    pub node_id: String,
    pub in_baseline: bool,
}

/// What a transaction does with a page of nodes of a refresh.
#[derive(Debug, Clone, PartialEq, Eq)]
pub enum DeltaPage {
    /// The refresh has no more nodes.
    Complete,
    /// The nodes at some places are new, and the cursor moves.
    Seed { rows: Vec<usize>, cursor: String },
}

/// Decides what a transaction does with a page of nodes of a refresh. The nodes that the baseline
/// does not show are new.
pub fn delta_page(nodes: &Vec<DeltaNode>) -> (page: DeltaPage)
    ensures
        match page {
            DeltaPage::Complete => nodes@.len() == 0,
            DeltaPage::Seed { rows, cursor } => {
                &&& nodes@.len() > 0
                &&& rows@ == marked(nodes@.map_values(|node: DeltaNode| !node.in_baseline))
                &&& cursor@ == nodes@.last().node_id@
            },
        },
{
    if nodes.len() == 0 {
        return DeltaPage::Complete;
    }
    let mut flags: Vec<bool> = Vec::new();
    let mut i: usize = 0;
    while i < nodes.len()
        invariant
            0 <= i <= nodes.len(),
            flags@.len() == i,
            forall|j: int| 0 <= j < i ==> #[trigger] flags@[j] == !nodes@[j].in_baseline,
        decreases nodes.len() - i,
    {
        flags.push(!nodes[i].in_baseline);
        i += 1;
    }
    assert(flags@ =~= nodes@.map_values(|node: DeltaNode| !node.in_baseline));
    DeltaPage::Seed { rows: marked_rows(&flags), cursor: nodes[nodes.len() - 1].node_id.clone() }
}

/// The nodes that leave the graph, of all candidates.
pub open spec fn nodes_left(candidates: Seq<RemovalCandidate>) -> Set<Seq<char>> {
    Set::new(
        |node_id: Seq<char>|
            exists|i: int|
                0 <= i < candidates.len() && #[trigger] candidates[i].node_id@ == node_id
                    && leaves_graph(candidates[i]),
    )
}

/// The nodes that are new, of all nodes of the refreshes.
pub open spec fn nodes_new(nodes: Seq<DeltaNode>) -> Set<Seq<char>> {
    Set::new(
        |node_id: Seq<char>|
            exists|i: int|
                0 <= i < nodes.len() && #[trigger] nodes[i].node_id@ == node_id
                    && !nodes[i].in_baseline,
    )
}

/// Whether candidates tell the truth on a baseline and on what is contributed now.
pub open spec fn candidates_true(
    candidates: Seq<RemovalCandidate>,
    baseline: Set<Seq<char>>,
    contributed: Set<Seq<char>>,
) -> bool {
    forall|i: int|
        #![trigger candidates[i]]
        0 <= i < candidates.len() ==> candidates[i].in_baseline == baseline.contains(
            candidates[i].node_id@,
        ) && candidates[i].still_contributed == contributed.contains(candidates[i].node_id@)
}

/// Whether nodes of refreshes tell the truth on a baseline, and are contributed now.
pub open spec fn delta_nodes_true(
    nodes: Seq<DeltaNode>,
    baseline: Set<Seq<char>>,
    contributed: Set<Seq<char>>,
) -> bool {
    forall|i: int|
        #![trigger nodes[i]]
        0 <= i < nodes.len() ==> nodes[i].in_baseline == baseline.contains(nodes[i].node_id@)
            && contributed.contains(nodes[i].node_id@)
}

/// A build that adds to its baseline shows what a build that starts over shows: the nodes that
/// are contributed now. Every node that is no longer contributed has to be among the candidates,
/// and every node that the baseline lacks among those of the refreshes.
pub proof fn lemma_delta_matches_full(
    candidates: Seq<RemovalCandidate>,
    nodes: Seq<DeltaNode>,
    baseline: Set<Seq<char>>,
    contributed: Set<Seq<char>>,
)
    requires
        candidates_true(candidates, baseline, contributed),
        delta_nodes_true(nodes, baseline, contributed),
        forall|node_id: Seq<char>|
            #[trigger] baseline.contains(node_id) && !contributed.contains(node_id) ==> exists|i: int|
                0 <= i < candidates.len() && #[trigger] candidates[i].node_id@ == node_id
                    && candidates[i].eligible == 1,
        forall|node_id: Seq<char>|
            #[trigger] contributed.contains(node_id) && !baseline.contains(node_id) ==> exists|i: int|
                0 <= i < nodes.len() && #[trigger] nodes[i].node_id@ == node_id,
    ensures
        baseline.difference(nodes_left(candidates)).union(nodes_new(nodes)) == contributed,
{
    let shown = baseline.difference(nodes_left(candidates)).union(nodes_new(nodes));
    assert forall|node_id: Seq<char>| shown.contains(node_id) <==> contributed.contains(node_id) by {
        if baseline.contains(node_id) && !contributed.contains(node_id) {
            let i = choose|i: int|
                0 <= i < candidates.len() && #[trigger] candidates[i].node_id@ == node_id
                    && candidates[i].eligible == 1;
            assert(leaves_graph(candidates[i]));
        }
        if contributed.contains(node_id) && !baseline.contains(node_id) {
            let i = choose|i: int|
                0 <= i < nodes.len() && #[trigger] nodes[i].node_id@ == node_id;
            assert(!nodes[i].in_baseline);
        }
    }
    assert(shown =~= contributed);
}

} // verus!
