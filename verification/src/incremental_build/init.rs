//! The phases in which a build is set up.

use vstd::prelude::*;
use vstd::string::*;
use crate::incremental_build::invalid;
use crate::incremental_build::stored_build_kind;
use crate::incremental_build::IncrementalBuildKind;
use crate::incremental_build::InvalidStoreValue;
use crate::incremental_build::InvalidStoreValueView;
use crate::text::optional_text;
use crate::text::signed_decimal_i64;
use crate::text::signed_text;
use crate::text::starts_with;
use crate::text::text_equal;

verus! {

/// The phases in which a build is set up.
#[derive(Debug, Clone, Copy, PartialEq, Eq, Structural)]
pub enum InitPhase {
    New,
    Kind,
    KindJournal,
    FullReset,
    ManifestReset,
    ManifestRefreshReset,
    ManifestBranchReset,
    ManifestCopy,
    ManifestRefreshCopy,
    DeltaRemove,
    DeltaSeed,
    ManifestSeed,
    Scope,
    DeltaScopeRemove,
    RankSlots,
    Nodes,
    Edges,
    Ports,
    Branches,
    Complete,
}

/// The stored text of a phase.
pub open spec fn phase_text(phase: InitPhase) -> Seq<char> {
    match phase {
        InitPhase::New => "new"@,
        InitPhase::Kind => "kind"@,
        InitPhase::KindJournal => "kind_journal"@,
        InitPhase::FullReset => "full_reset"@,
        InitPhase::ManifestReset => "manifest_reset"@,
        InitPhase::ManifestRefreshReset => "manifest_refresh_reset"@,
        InitPhase::ManifestBranchReset => "manifest_branch_reset"@,
        InitPhase::ManifestCopy => "manifest_copy"@,
        InitPhase::ManifestRefreshCopy => "manifest_refresh_copy"@,
        InitPhase::DeltaRemove => "delta_remove"@,
        InitPhase::DeltaSeed => "delta_seed"@,
        InitPhase::ManifestSeed => "manifest_seed"@,
        InitPhase::Scope => "scope"@,
        InitPhase::DeltaScopeRemove => "delta_scope_remove"@,
        InitPhase::RankSlots => "rank_slots"@,
        InitPhase::Nodes => "nodes"@,
        InitPhase::Edges => "edges"@,
        InitPhase::Ports => "ports"@,
        InitPhase::Branches => "branches"@,
        InitPhase::Complete => "complete"@,
    }
}

impl InitPhase {
    /// The stored text of this phase.
    pub fn as_str(self) -> (text: &'static str)
        ensures
            text@ == phase_text(self),
    {
        match self {
            InitPhase::New => "new",
            InitPhase::Kind => "kind",
            InitPhase::KindJournal => "kind_journal",
            InitPhase::FullReset => "full_reset",
            InitPhase::ManifestReset => "manifest_reset",
            InitPhase::ManifestRefreshReset => "manifest_refresh_reset",
            InitPhase::ManifestBranchReset => "manifest_branch_reset",
            InitPhase::ManifestCopy => "manifest_copy",
            InitPhase::ManifestRefreshCopy => "manifest_refresh_copy",
            InitPhase::DeltaRemove => "delta_remove",
            InitPhase::DeltaSeed => "delta_seed",
            InitPhase::ManifestSeed => "manifest_seed",
            InitPhase::Scope => "scope",
            InitPhase::DeltaScopeRemove => "delta_scope_remove",
            InitPhase::RankSlots => "rank_slots",
            InitPhase::Nodes => "nodes",
            InitPhase::Edges => "edges",
            InitPhase::Ports => "ports",
            InitPhase::Branches => "branches",
            InitPhase::Complete => "complete",
        }
    }
}

/// Different phases have different texts.
pub proof fn lemma_phase_texts_differ(a: InitPhase, b: InitPhase)
    requires
        phase_text(a) == phase_text(b),
    ensures
        a == b,
{
    reveal_strlit("new");
    reveal_strlit("kind");
    reveal_strlit("kind_journal");
    reveal_strlit("full_reset");
    reveal_strlit("manifest_reset");
    reveal_strlit("manifest_refresh_reset");
    reveal_strlit("manifest_branch_reset");
    reveal_strlit("manifest_copy");
    reveal_strlit("manifest_refresh_copy");
    reveal_strlit("delta_remove");
    reveal_strlit("delta_seed");
    reveal_strlit("manifest_seed");
    reveal_strlit("scope");
    reveal_strlit("delta_scope_remove");
    reveal_strlit("rank_slots");
    reveal_strlit("nodes");
    reveal_strlit("edges");
    reveal_strlit("ports");
    reveal_strlit("branches");
    reveal_strlit("complete");
    assert("new"@.len() == 3);
    assert("kind"@.len() == 4);
    assert("kind_journal"@.len() == 12);
    assert("full_reset"@.len() == 10);
    assert("manifest_reset"@.len() == 14);
    assert("manifest_refresh_reset"@.len() == 22);
    assert("manifest_branch_reset"@.len() == 21);
    assert("manifest_copy"@.len() == 13);
    assert("manifest_refresh_copy"@.len() == 21);
    assert("delta_remove"@.len() == 12);
    assert("delta_seed"@.len() == 10);
    assert("manifest_seed"@.len() == 13);
    assert("scope"@.len() == 5);
    assert("delta_scope_remove"@.len() == 18);
    assert("rank_slots"@.len() == 10);
    assert("nodes"@.len() == 5);
    assert("edges"@.len() == 5);
    assert("ports"@.len() == 5);
    assert("branches"@.len() == 8);
    assert("complete"@.len() == 8);
    assert("kind_journal"@[0] == 'k');
    assert("delta_remove"@[0] == 'd');
    assert("full_reset"@[0] == 'f');
    assert("delta_seed"@[0] == 'd');
    assert("rank_slots"@[0] == 'r');
    assert("manifest_branch_reset"@[9] == 'b');
    assert("manifest_refresh_copy"@[9] == 'r');
    assert("manifest_copy"@[9] == 'c');
    assert("manifest_seed"@[9] == 's');
    assert("scope"@[0] == 's');
    assert("nodes"@[0] == 'n');
    assert("edges"@[0] == 'e');
    assert("ports"@[0] == 'p');
    assert("branches"@[0] == 'b');
    assert("complete"@[0] == 'c');
}

/// The place of a phase on the way to a complete set-up.
pub open spec fn phase_position(phase: InitPhase) -> nat {
    match phase {
        InitPhase::New => 0,
        InitPhase::Kind => 1,
        InitPhase::KindJournal => 2,
        InitPhase::FullReset => 3,
        InitPhase::ManifestReset => 3,
        InitPhase::ManifestRefreshReset => 4,
        InitPhase::ManifestBranchReset => 5,
        InitPhase::ManifestCopy => 6,
        InitPhase::ManifestRefreshCopy => 7,
        InitPhase::DeltaRemove => 3,
        InitPhase::DeltaSeed => 4,
        InitPhase::ManifestSeed => 8,
        InitPhase::Scope => 9,
        InitPhase::DeltaScopeRemove => 10,
        InitPhase::RankSlots => 11,
        InitPhase::Nodes => 12,
        InitPhase::Edges => 13,
        InitPhase::Ports => 14,
        InitPhase::Branches => 15,
        InitPhase::Complete => 16,
    }
}

/// Whether a build goes from one phase to another.
pub open spec fn is_transition(from: InitPhase, to: InitPhase) -> bool {
    ||| (from == InitPhase::New && to == InitPhase::Kind)
    ||| (from == InitPhase::Kind && to == InitPhase::KindJournal)
    ||| (from == InitPhase::Kind && to == InitPhase::FullReset)
    ||| (from == InitPhase::KindJournal && to == InitPhase::FullReset)
    ||| (from == InitPhase::KindJournal && to == InitPhase::DeltaRemove)
    ||| (from == InitPhase::FullReset && to == InitPhase::ManifestRefreshReset)
    ||| (from == InitPhase::ManifestReset && to == InitPhase::ManifestRefreshReset)
    ||| (from == InitPhase::ManifestRefreshReset && to == InitPhase::ManifestBranchReset)
    ||| (from == InitPhase::ManifestBranchReset && to == InitPhase::ManifestCopy)
    ||| (from == InitPhase::ManifestCopy && to == InitPhase::ManifestRefreshCopy)
    ||| (from == InitPhase::ManifestRefreshCopy && to == InitPhase::ManifestSeed)
    ||| (from == InitPhase::DeltaRemove && to == InitPhase::DeltaSeed)
    ||| (from == InitPhase::DeltaSeed && to == InitPhase::ManifestSeed)
    ||| (from == InitPhase::ManifestSeed && to == InitPhase::Scope)
    ||| (from == InitPhase::Scope && to == InitPhase::DeltaScopeRemove)
    ||| (from == InitPhase::DeltaScopeRemove && to == InitPhase::RankSlots)
    ||| (from == InitPhase::RankSlots && to == InitPhase::Nodes)
    ||| (from == InitPhase::Nodes && to == InitPhase::Edges)
    ||| (from == InitPhase::Edges && to == InitPhase::Ports)
    ||| (from == InitPhase::Ports && to == InitPhase::Branches)
    ||| (from == InitPhase::Branches && to == InitPhase::Complete)
}

/// Every change of phase is a step forward, so that a set-up ends.
pub proof fn lemma_phases_progress(from: InitPhase, to: InitPhase)
    requires
        is_transition(from, to),
    ensures
        phase_position(from) < phase_position(to) <= phase_position(InitPhase::Complete),
{
}

/// A change of phase: cursors and counters start over with it.
#[derive(Debug, Clone, Copy, PartialEq, Eq, Structural)]
pub struct PhaseChange {
    pub from: InitPhase,
    pub to: InitPhase,
}

/// What the run of a build says of its set-up.
#[derive(Debug, Clone, PartialEq, Eq)]
pub struct DagRunState {
    pub initialized: i32,
    pub baseline_generation: Option<i64>,
    pub root_id: Option<String>,
    pub build_kind: Option<String>,
    pub init_phase: String,
}

/// What a build does next while it is set up.
#[derive(Debug, Clone, Copy, PartialEq, Eq, Structural)]
pub enum BeginStep {
    Finished { kind: IncrementalBuildKind },
    InitializeManifest,
    ProcessScope,
    ChooseKind,
    RemoveDelta,
    RemoveDeltaScope,
    SeedDelta,
    AdvanceLayout,
    StageBranches,
}

/// Whether a phase is one in which the source manifest is written.
pub open spec fn is_manifest_phase(phase: Seq<char>) -> bool {
    ||| phase == "new"@
    ||| phase == "full_reset"@
    ||| phase == "manifest_refresh_reset"@
    ||| phase == "manifest_branch_reset"@
    ||| phase == "manifest_copy"@
    ||| phase == "manifest_refresh_copy"@
    ||| phase == "manifest_reset"@
    ||| phase == "manifest_seed"@
}

/// Whether a phase is one in which an earlier layout is taken over.
pub open spec fn is_layout_phase(phase: Seq<char>) -> bool {
    phase == "rank_slots"@ || phase == "nodes"@ || phase == "edges"@ || phase == "ports"@
}

/// The work of a phase.
pub open spec fn phase_work(phase: Seq<char>) -> Option<BeginStep> {
    if is_manifest_phase(phase) {
        Some(BeginStep::InitializeManifest)
    } else if phase == "scope"@ {
        Some(BeginStep::ProcessScope)
    } else if "kind"@.is_prefix_of(phase) {
        Some(BeginStep::ChooseKind)
    } else if phase == "delta_remove"@ {
        Some(BeginStep::RemoveDelta)
    } else if phase == "delta_scope_remove"@ {
        Some(BeginStep::RemoveDeltaScope)
    } else if phase == "delta_seed"@ {
        Some(BeginStep::SeedDelta)
    } else if is_layout_phase(phase) {
        Some(BeginStep::AdvanceLayout)
    } else if phase == "branches"@ {
        Some(BeginStep::StageBranches)
    } else {
        None
    }
}

/// Every phase but the last has work, so that a set-up does not stop halfway.
pub proof fn lemma_every_phase_has_work(phase: InitPhase)
    requires
        phase != InitPhase::Complete,
    ensures
        phase_work(phase_text(phase)) is Some,
{
    if phase == InitPhase::KindJournal {
        reveal_strlit("kind");
        reveal_strlit("kind_journal");
        assert("kind"@ =~= "kind_journal"@.take(4));
    } else if phase == InitPhase::Kind {
        assert("kind"@ =~= "kind"@.take("kind"@.len() as int));
    }
}

/// Whether a run that is set up belongs to a baseline and a root.
pub open spec fn run_belongs(state: DagRunState, baseline_generation: i64, root_id: Seq<char>) -> bool {
    state.baseline_generation == Some(baseline_generation) && optional_text(state.root_id) == Some(
        root_id,
    )
}

/// What a build does next while it is set up.
pub open spec fn begin_outcome(
    state: DagRunState,
    run_id: i64,
    baseline_generation: i64,
    root_id: Seq<char>,
) -> Result<BeginStep, InvalidStoreValueView> {
    if state.initialized == 1 {
        if !run_belongs(state, baseline_generation, root_id) {
            Err(
                InvalidStoreValueView {
                    column: "dag_build_identity"@,
                    value: "run_id="@ + signed_text(run_id as int),
                },
            )
        } else if optional_text(state.build_kind) == Some("full"@) {
            Ok(BeginStep::Finished { kind: IncrementalBuildKind::Full })
        } else if optional_text(state.build_kind) == Some("append"@) {
            Ok(BeginStep::Finished { kind: IncrementalBuildKind::Append })
        } else {
            Err(
                InvalidStoreValueView {
                    column: "dag_build_kind"@,
                    value: match state.build_kind {
                        Some(kind) => kind@,
                        None => Seq::empty(),
                    },
                },
            )
        }
    } else {
        match phase_work(state.init_phase@) {
            Some(work) => Ok(work),
            None => Err(
                InvalidStoreValueView { column: "dag_init_phase"@, value: state.init_phase@ },
            ),
        }
    }
}

/// Decides what a build does next while it is set up.
pub fn begin_step(state: &DagRunState, run_id: i64, baseline_generation: i64, root_id: &str) -> (outcome:
    Result<BeginStep, InvalidStoreValue>)
    ensures
        match outcome {
            Ok(step) => begin_outcome(*state, run_id, baseline_generation, root_id@) == Ok::<
                BeginStep,
                InvalidStoreValueView,
            >(step),
            Err(error) => begin_outcome(*state, run_id, baseline_generation, root_id@) == Err::<
                BeginStep,
                InvalidStoreValueView,
            >(error@),
        },
{
    if state.initialized == 1 {
        let same_baseline = match state.baseline_generation {
            Some(generation) => generation == baseline_generation,
            None => false,
        };
        let same_root = match &state.root_id {
            Some(id) => text_equal(id.as_str(), root_id),
            None => false,
        };
        if !(same_baseline && same_root) {
            let value = "run_id=".to_owned().concat(signed_decimal_i64(run_id).as_str());
            return Err(invalid("dag_build_identity", value.as_str()));
        }
        proof {
            reveal_strlit("full");
            reveal_strlit("append");
            assert("full"@.len() == 4);
            assert("append"@.len() == 6);
        }
        let stored: Option<&str> = match &state.build_kind {
            Some(kind) => Some(kind.as_str()),
            None => None,
        };
        return match stored_build_kind(stored) {
            Ok(kind) => Ok(BeginStep::Finished { kind }),
            Err(_) => match &state.build_kind {
                Some(kind) => Err(invalid("dag_build_kind", kind.as_str())),
                None => {
                    let none = String::new();
                    Err(invalid("dag_build_kind", none.as_str()))
                },
            },
        };
    }
    let phase = state.init_phase.as_str();
    if text_equal(phase, "new") || text_equal(phase, "full_reset") || text_equal(
        phase,
        "manifest_refresh_reset",
    ) || text_equal(phase, "manifest_branch_reset") || text_equal(phase, "manifest_copy") || text_equal(
        phase,
        "manifest_refresh_copy",
    ) || text_equal(phase, "manifest_reset") || text_equal(phase, "manifest_seed") {
        Ok(BeginStep::InitializeManifest)
    } else if text_equal(phase, "scope") {
        Ok(BeginStep::ProcessScope)
    } else if starts_with(phase, "kind") {
        Ok(BeginStep::ChooseKind)
    } else if text_equal(phase, "delta_remove") {
        Ok(BeginStep::RemoveDelta)
    } else if text_equal(phase, "delta_scope_remove") {
        Ok(BeginStep::RemoveDeltaScope)
    } else if text_equal(phase, "delta_seed") {
        Ok(BeginStep::SeedDelta)
    } else if text_equal(phase, "rank_slots") || text_equal(phase, "nodes") || text_equal(phase, "edges")
        || text_equal(phase, "ports") {
        Ok(BeginStep::AdvanceLayout)
    } else if text_equal(phase, "branches") {
        Ok(BeginStep::StageBranches)
    } else {
        Err(invalid("dag_init_phase", phase))
    }
}

/// The phase behind one in which an earlier layout is taken over.
pub open spec fn layout_successor(phase: Seq<char>) -> Option<PhaseChange> {
    if phase == "rank_slots"@ {
        Some(PhaseChange { from: InitPhase::RankSlots, to: InitPhase::Nodes })
    } else if phase == "nodes"@ {
        Some(PhaseChange { from: InitPhase::Nodes, to: InitPhase::Edges })
    } else if phase == "edges"@ {
        Some(PhaseChange { from: InitPhase::Edges, to: InitPhase::Ports })
    } else if phase == "ports"@ {
        Some(PhaseChange { from: InitPhase::Ports, to: InitPhase::Branches })
    } else {
        None
    }
}

/// Goes on to the next of the phases in which an earlier layout is taken over.
pub fn advance_layout_initialization(phase: &str) -> (outcome: Result<PhaseChange, InvalidStoreValue>)
    ensures
        match outcome {
            Ok(change) => layout_successor(phase@) == Some(change) && is_transition(
                change.from,
                change.to,
            ),
            Err(error) => layout_successor(phase@) is None && error@ == (InvalidStoreValueView {
                column: "dag_init_phase"@,
                value: phase@,
            }),
        },
{
    if text_equal(phase, "rank_slots") {
        Ok(PhaseChange { from: InitPhase::RankSlots, to: InitPhase::Nodes })
    } else if text_equal(phase, "nodes") {
        Ok(PhaseChange { from: InitPhase::Nodes, to: InitPhase::Edges })
    } else if text_equal(phase, "edges") {
        Ok(PhaseChange { from: InitPhase::Edges, to: InitPhase::Ports })
    } else if text_equal(phase, "ports") {
        Ok(PhaseChange { from: InitPhase::Ports, to: InitPhase::Branches })
    } else {
        Err(invalid("dag_init_phase", phase))
    }
}

} // verus!
