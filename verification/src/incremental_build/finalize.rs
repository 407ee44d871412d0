//! Finishing a build: its ports, its branch labels, and the two modes of the graph.

use vstd::prelude::*;
use crate::graph::GraphMode;
use crate::incremental_build::invalid;
use crate::incremental_build::scope::baseline_holds;
use crate::incremental_build::scope::BranchReuse;
use crate::incremental_build::BuildClassificationReason;
use crate::incremental_build::IncrementalBuildKind;
use crate::incremental_build::InvalidStoreValue;
use crate::incremental_build::InvalidStoreValueView;
use crate::text::optional_text;
use crate::text::text_equal;

verus! {

/// A phase of the end of a build.
#[derive(Debug, Clone, Copy, PartialEq, Eq, Structural)]
pub enum FinalizePhase {
    Traversal,
    Ports,
    Labels,
    Anchors,
    All,
    Ready,
}

/// The stored text of a phase.
pub open spec fn finalize_phase_text(phase: FinalizePhase) -> Seq<char> {
    match phase {
        FinalizePhase::Traversal => "traversal"@,
        FinalizePhase::Ports => "ports"@,
        FinalizePhase::Labels => "labels"@,
        FinalizePhase::Anchors => "anchors"@,
        FinalizePhase::All => "all"@,
        FinalizePhase::Ready => "ready"@,
    }
}

impl FinalizePhase {
    /// The stored text of this phase.
    pub fn as_str(self) -> (text: &'static str)
        ensures
            text@ == finalize_phase_text(self),
    {
        match self {
            FinalizePhase::Traversal => "traversal",
            FinalizePhase::Ports => "ports",
            FinalizePhase::Labels => "labels",
            FinalizePhase::Anchors => "anchors",
            FinalizePhase::All => "all",
            FinalizePhase::Ready => "ready",
        }
    }
}

/// Different phases have different texts.
pub proof fn lemma_finalize_phase_texts_differ(a: FinalizePhase, b: FinalizePhase)
    requires
        finalize_phase_text(a) == finalize_phase_text(b),
    ensures
        a == b,
{
    reveal_strlit("traversal");
    reveal_strlit("ports");
    reveal_strlit("labels");
    reveal_strlit("anchors");
    reveal_strlit("all");
    reveal_strlit("ready");
    assert("traversal"@.len() == 9);
    assert("ports"@.len() == 5 && "ports"@[0] == 'p');
    assert("labels"@.len() == 6);
    assert("anchors"@.len() == 7);
    assert("all"@.len() == 3);
    assert("ready"@.len() == 5 && "ready"@[0] == 'r');
}

/// The phase that follows a phase. The last one stays.
pub open spec fn finalize_successor(phase: FinalizePhase) -> FinalizePhase {
    match phase {
        FinalizePhase::Traversal => FinalizePhase::Ports,
        FinalizePhase::Ports => FinalizePhase::Labels,
        FinalizePhase::Labels => FinalizePhase::Anchors,
        FinalizePhase::Anchors => FinalizePhase::All,
        FinalizePhase::All => FinalizePhase::Ready,
        FinalizePhase::Ready => FinalizePhase::Ready,
    }
}

/// How many phases are left behind a phase.
pub open spec fn phases_left(phase: FinalizePhase) -> nat {
    match phase {
        FinalizePhase::Traversal => 5,
        FinalizePhase::Ports => 4,
        FinalizePhase::Labels => 3,
        FinalizePhase::Anchors => 2,
        FinalizePhase::All => 1,
        FinalizePhase::Ready => 0,
    }
}

/// Every phase but the last is followed by one with fewer phases left, so a build comes to its
/// end.
pub proof fn lemma_finalize_progresses(phase: FinalizePhase)
    requires
        phase != FinalizePhase::Ready,
    ensures
        phases_left(finalize_successor(phase)) + 1 == phases_left(phase),
{
}

/// Finds the phase that follows a phase.
pub fn checkpoint_finalize_phase(phase: FinalizePhase) -> (next: FinalizePhase)
    ensures
        next == finalize_successor(phase),
{
    match phase {
        FinalizePhase::Traversal => FinalizePhase::Ports,
        FinalizePhase::Ports => FinalizePhase::Labels,
        FinalizePhase::Labels => FinalizePhase::Anchors,
        FinalizePhase::Anchors => FinalizePhase::All,
        FinalizePhase::All => FinalizePhase::Ready,
        FinalizePhase::Ready => FinalizePhase::Ready,
    }
}

/// What one step of the end of a build does.
#[derive(Debug, Clone, Copy, PartialEq, Eq, Structural)]
pub enum FinalizeAction {
    /// The ports come next.
    BeginPorts,
    /// A page of ports is copied.
    CopyPorts,
    /// A branch is labelled.
    LabelBranch,
    /// A mode is finished; the next phase follows.
    FinishMode { mode: GraphMode, next: FinalizePhase },
    /// The build is finished.
    Done,
}

/// Decides what one step of the end of a build does.
pub fn finalize_incremental_build(phase: &str) -> (outcome: Result<FinalizeAction, InvalidStoreValue>)
    ensures
        match outcome {
            Ok(action) => {
                ||| phase@ == "traversal"@ && action == FinalizeAction::BeginPorts
                ||| phase@ == "ports"@ && action == FinalizeAction::CopyPorts
                ||| phase@ == "labels"@ && action == FinalizeAction::LabelBranch
                ||| phase@ == "anchors"@ && action == (FinalizeAction::FinishMode {
                    mode: GraphMode::Anchors,
                    next: FinalizePhase::All,
                })
                ||| phase@ == "all"@ && action == (FinalizeAction::FinishMode {
                    mode: GraphMode::All,
                    next: FinalizePhase::Ready,
                })
                ||| phase@ == "ready"@ && action == FinalizeAction::Done
            },
            Err(error) => {
                &&& forall|known: FinalizePhase| phase@ != #[trigger] finalize_phase_text(known)
                &&& error@ == (InvalidStoreValueView {
                    column: "dag_finalize_phase"@,
                    value: phase@,
                })
            },
        },
{
    if text_equal(phase, "traversal") {
        Ok(FinalizeAction::BeginPorts)
    } else if text_equal(phase, "ports") {
        Ok(FinalizeAction::CopyPorts)
    } else if text_equal(phase, "labels") {
        Ok(FinalizeAction::LabelBranch)
    } else if text_equal(phase, "anchors") {
        Ok(
            FinalizeAction::FinishMode {
                mode: GraphMode::Anchors,
                next: checkpoint_finalize_phase(FinalizePhase::Anchors),
            },
        )
    } else if text_equal(phase, "all") {
        Ok(
            FinalizeAction::FinishMode {
                mode: GraphMode::All,
                next: checkpoint_finalize_phase(FinalizePhase::All),
            },
        )
    } else if text_equal(phase, "ready") {
        Ok(FinalizeAction::Done)
    } else {
        Err(invalid("dag_finalize_phase", phase))
    }
}

/// The ports of an edge as a build assigned them.
#[derive(Debug, Clone, PartialEq, Eq)]
pub struct PortCopy {
    pub mode: String,
    pub edge_key: String,
    pub source_id: String,
    pub target_id: String,
    pub source_slot: i32,
    pub target_slot: i32,
}

/// What a page of ports leads to.
#[derive(Debug, Clone, PartialEq, Eq)]
pub enum PortCopyStep {
    /// There are no more ports.
    Advance { next: FinalizePhase },
    /// Every row of the page is copied, and the cursors move.
    Copy { mode: String, edge_key: String },
}

/// Decides what a page of ports leads to.
pub fn copy_port_batch(rows: &Vec<PortCopy>) -> (step: PortCopyStep)
    ensures
        match step {
            PortCopyStep::Advance { next } => rows@.len() == 0 && next == FinalizePhase::Labels,
            PortCopyStep::Copy { mode, edge_key } => {
                &&& rows@.len() > 0
                &&& mode@ == rows@.last().mode@
                &&& edge_key@ == rows@.last().edge_key@
            },
        },
{
    if rows.len() == 0 {
        PortCopyStep::Advance { next: checkpoint_finalize_phase(FinalizePhase::Ports) }
    } else {
        let last = &rows[rows.len() - 1];
        PortCopyStep::Copy { mode: last.mode.clone(), edge_key: last.edge_key.clone() }
    }
}

/// What is known of a branch when it is labelled.
#[derive(Debug, Clone, PartialEq, Eq)]
pub struct LabelledBranch {
    pub name: String,
    pub head_id: String,
    /// How far the search for the anchor of the branch has come.
    pub resolution_phase: String,
    /// The anchor of the branch, where one was found.
    pub anchor_id: Option<String>,
    /// Whether the build processed the head.
    pub head_processed: bool,
    /// Whether the head has a place in the graph of all nodes.
    pub head_placed: bool,
}

/// The next branch to label, with its name; a branch that the manifest lacks is passed by.
#[derive(Debug, Clone, PartialEq, Eq)]
pub struct LabelCandidate {
    pub inspected_cursor: String,
    pub branch: Option<LabelledBranch>,
}

/// What one step of the labelling does.
#[derive(Debug, Clone, PartialEq, Eq)]
pub enum LabelStep {
    /// There are no more branches.
    Advance { next: FinalizePhase },
    /// The branch is passed by, and the cursor moves.
    Pass { cursor: String },
    /// The search for the anchor of the branch goes one step up.
    Climb,
    /// The nodes get the label of the branch, and the cursor moves.
    Assign { head_id: Option<String>, anchor_id: Option<String>, cursor: String },
}

/// Whether the head of a branch gets its label: it is not the root, and the build or the baseline
/// that it adds to shows it.
pub open spec fn head_labelled(
    kind: IncrementalBuildKind,
    root_id: Seq<char>,
    branch: LabelledBranch,
) -> bool {
    branch.head_id@ != root_id && (branch.head_processed || (kind == IncrementalBuildKind::Append
        && branch.head_placed))
}

/// Decides what one step of the labelling does.
pub fn apply_branch_label_batch(
    kind: IncrementalBuildKind,
    root_id: &str,
    finalize_mode: &str,
    candidate: &Option<LabelCandidate>,
) -> (outcome: Result<LabelStep, InvalidStoreValue>)
    ensures
        finalize_mode@.len() > 0 ==> (outcome matches Err(error) && error@ == (
        InvalidStoreValueView { column: "dag_finalize_mode"@, value: finalize_mode@ })),
        finalize_mode@.len() == 0 ==> match *candidate {
            None => outcome == Ok::<LabelStep, InvalidStoreValue>(
                LabelStep::Advance { next: FinalizePhase::Anchors },
            ),
            Some(candidate) => match candidate.branch {
                None => outcome matches Ok(LabelStep::Pass { cursor }) && cursor@
                    == candidate.inspected_cursor@,
                Some(branch) => if branch.resolution_phase@ == "ancestry"@ {
                    outcome == Ok::<LabelStep, InvalidStoreValue>(LabelStep::Climb)
                } else if branch.resolution_phase@ == "ready"@ {
                    outcome matches Ok(LabelStep::Assign { head_id, anchor_id, cursor }) && {
                        &&& optional_text(head_id) == (if head_labelled(kind, root_id@, branch) {
                            Some(branch.head_id@)
                        } else {
                            None
                        })
                        &&& optional_text(anchor_id) == optional_text(branch.anchor_id)
                        &&& cursor@ == candidate.inspected_cursor@
                    }
                } else {
                    outcome matches Err(error) && error@ == (InvalidStoreValueView {
                        column: "branch_label_resolution_phase"@,
                        value: branch.resolution_phase@,
                    })
                },
            },
        },
{
    proof {
        reveal_strlit("");
        if finalize_mode@.len() == 0 {
            assert(finalize_mode@ =~= ""@);
        }
    }
    if !text_equal(finalize_mode, "") {
        return Err(invalid("dag_finalize_mode", finalize_mode));
    }
    match candidate {
        None => Ok(LabelStep::Advance { next: checkpoint_finalize_phase(FinalizePhase::Labels) }),
        Some(candidate) => match &candidate.branch {
            None => Ok(LabelStep::Pass { cursor: candidate.inspected_cursor.clone() }),
            Some(branch) => {
                let phase = branch.resolution_phase.as_str();
                if text_equal(phase, "ancestry") {
                    return Ok(LabelStep::Climb);
                }
                if !text_equal(phase, "ready") {
                    return Err(invalid("branch_label_resolution_phase", phase));
                }
                let reused = match kind {
                    IncrementalBuildKind::Append => branch.head_placed,
                    IncrementalBuildKind::Full => false,
                };
                let head_id: Option<String> = if !text_equal(branch.head_id.as_str(), root_id) && (
                branch.head_processed || reused) {
                    Some(branch.head_id.clone())
                } else {
                    None
                };
                let anchor_id: Option<String> = match &branch.anchor_id {
                    Some(text) => Some(text.clone()),
                    None => None,
                };
                Ok(
                    LabelStep::Assign {
                        head_id,
                        anchor_id,
                        cursor: candidate.inspected_cursor.clone(),
                    },
                )
            },
        },
    }
}

/// Whether a node is in the scope of a branch, by the build or by the baseline that still holds.
pub open spec fn in_label_scope(
    in_build_scope: bool,
    reuse: BranchReuse,
    in_baseline_scope: bool,
) -> bool {
    in_build_scope || (baseline_holds(reuse) && in_baseline_scope)
}

/// The phase in which the search for the anchor of a branch starts: a head that is in scope is
/// searched upwards from, and any other has no anchor.
pub fn ensure_branch_label_resolution(
    in_build_scope: bool,
    reuse: BranchReuse,
    in_baseline_scope: bool,
) -> (phase: &'static str)
    ensures
        phase@ == (if in_label_scope(in_build_scope, reuse, in_baseline_scope) {
            "ancestry"@
        } else {
            "ready"@
        }),
{
    if in_build_scope || (reuse.append && !reuse.replaced && in_baseline_scope) {
        "ancestry"
    } else {
        "ready"
    }
}

/// A node on the way up from the head of a branch.
#[derive(Debug, Clone, PartialEq, Eq)]
pub struct AncestryNode {
    pub parent_id: String,
    pub is_anchor: bool,
    /// Whether the parent is in the scope of the branch, by the build.
    pub parent_in_build_scope: bool,
    /// Whether the parent is in the scope of the branch, by the baseline.
    pub parent_in_baseline_scope: bool,
}

/// Where the search for the anchor of a branch goes.
#[derive(Debug, Clone, PartialEq, Eq)]
pub struct Ancestry {
    pub current_node_id: String,
    pub anchor_id: Option<String>,
    pub ready: bool,
}

/// Where a search goes, with its texts as characters.
#[verifier::ext_equal]
pub struct AncestryView {
    pub current_node_id: Seq<char>,
    pub anchor_id: Option<Seq<char>>,
    pub ready: bool,
}

impl View for Ancestry {
    type V = AncestryView;

    open spec fn view(&self) -> AncestryView {
        AncestryView {
            current_node_id: self.current_node_id@,
            anchor_id: optional_text(self.anchor_id),
            ready: self.ready,
        }
    }
}

/// Where the search for the anchor of a branch goes. It ends where it comes back to a node, at an
/// anchor, and where it leaves the scope of the branch.
pub open spec fn next_ancestry(
    first_visit: bool,
    current: Seq<char>,
    node: AncestryNode,
    reuse: BranchReuse,
) -> AncestryView {
    if !first_visit {
        AncestryView { current_node_id: Seq::empty(), anchor_id: None, ready: true }
    } else if node.is_anchor {
        AncestryView { current_node_id: current, anchor_id: Some(current), ready: true }
    } else if node.parent_id@.len() > 0 && in_label_scope(
        node.parent_in_build_scope,
        reuse,
        node.parent_in_baseline_scope,
    ) {
        AncestryView { current_node_id: node.parent_id@, anchor_id: None, ready: false }
    } else {
        AncestryView { current_node_id: Seq::empty(), anchor_id: None, ready: true }
    }
}

/// Decides where the search for the anchor of a branch goes.
pub fn advance_branch_label_resolution(
    first_visit: bool,
    current_node_id: &str,
    node: &AncestryNode,
    reuse: BranchReuse,
) -> (ancestry: Ancestry)
    ensures
        ancestry@ == next_ancestry(first_visit, current_node_id@, *node, reuse),
{
    proof {
        reveal_strlit("");
        assert(""@ =~= Seq::<char>::empty());
        if node.parent_id@.len() == 0 {
            assert(node.parent_id@ =~= ""@);
        }
    }
    if !first_visit {
        return Ancestry { current_node_id: "".to_owned(), anchor_id: None, ready: true };
    }
    if node.is_anchor {
        return Ancestry {
            current_node_id: current_node_id.to_owned(),
            anchor_id: Some(current_node_id.to_owned()),
            ready: true,
        };
    }
    if !text_equal(node.parent_id.as_str(), "") && (node.parent_in_build_scope || (reuse.append
        && !reuse.replaced && node.parent_in_baseline_scope)) {
        Ancestry { current_node_id: node.parent_id.clone(), anchor_id: None, ready: false }
    } else {
        Ancestry { current_node_id: "".to_owned(), anchor_id: None, ready: true }
    }
}

/// A search that found an anchor found it at an anchor, and is ready.
pub proof fn lemma_anchor_found_at_anchor(
    first_visit: bool,
    current: Seq<char>,
    node: AncestryNode,
    reuse: BranchReuse,
)
    ensures
        next_ancestry(first_visit, current, node, reuse).anchor_id is Some ==> node.is_anchor
            && next_ancestry(first_visit, current, node, reuse).ready
            && next_ancestry(first_visit, current, node, reuse).anchor_id == Some(current),
{
}

/// What the frontier of a build counted: how often it was moved out of memory and back, how many
/// nodes it held in memory at most, and what became of the nodes that were pushed.
#[derive(Debug, Clone, Copy, PartialEq, Eq, Structural)]
pub struct FrontierMetrics {
    pub hot_to_spilled: usize,
    pub spilled_to_hot: usize,
    pub max_hot_len: usize,
    pub requested_pushes: usize,
    pub distinct_pushes: usize,
    pub inserted_pushes: usize,
    pub repeated_within_batch_pushes: usize,
    pub already_seen_pushes: usize,
}

/// What a build reports at its end.
#[derive(Debug, Clone, Copy, PartialEq, Eq, Structural)]
pub struct IncrementalBuildStats {
    pub processed_nodes: usize,
    pub all_nodes: usize,
    pub anchors_nodes: usize,
    pub reused_baseline: bool,
    pub classification_reason: BuildClassificationReason,
    pub frontier: FrontierMetrics,
}

/// Sums up a build.
pub fn build_stats(
    kind: IncrementalBuildKind,
    processed_nodes: usize,
    all_nodes: usize,
    anchors_nodes: usize,
    classification_reason: BuildClassificationReason,
    frontier: FrontierMetrics,
) -> (stats: IncrementalBuildStats)
    ensures
        stats == (IncrementalBuildStats {
            processed_nodes,
            all_nodes,
            anchors_nodes,
            reused_baseline: kind == IncrementalBuildKind::Append,
            classification_reason,
            frontier,
        }),
{
    IncrementalBuildStats {
        processed_nodes,
        all_nodes,
        anchors_nodes,
        reused_baseline: kind == IncrementalBuildKind::Append,
        classification_reason,
        frontier,
    }
}

} // verus!
