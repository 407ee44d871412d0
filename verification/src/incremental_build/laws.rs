//! What the decisions of a build keep to, whatever is stored.

use vstd::prelude::*;
use crate::graph::GraphMode;
use crate::incremental_build::buffer::batches_of;
use crate::incremental_build::buffer::GraphBuffer;
use crate::incremental_build::classify::change_plan;
use crate::incremental_build::classify::claimed_refresh;
use crate::incremental_build::classify::journal_outcome;
use crate::incremental_build::classify::kind_successor;
use crate::incremental_build::classify::lemma_change_kinds_apart;
use crate::incremental_build::classify::page_contiguous;
use crate::incremental_build::classify::BaselineScope;
use crate::incremental_build::classify::BranchChangeView;
use crate::incremental_build::classify::BranchPointView;
use crate::incremental_build::classify::BranchStageView;
use crate::incremental_build::classify::ChangePlanView;
use crate::incremental_build::classify::JournalRange;
use crate::incremental_build::classify::JournalStep;
use crate::incremental_build::classify::RefreshKind;
use crate::incremental_build::classify::StagedKind;
use crate::incremental_build::init::begin_outcome;
use crate::incremental_build::init::layout_successor;
use crate::incremental_build::init::lemma_phase_texts_differ;
use crate::incremental_build::init::phase_text;
use crate::incremental_build::init::phase_work;
use crate::incremental_build::init::BeginStep;
use crate::incremental_build::init::DagRunState;
use crate::incremental_build::init::InitPhase;
use crate::incremental_build::kind_text;
use crate::incremental_build::manifest::manifest_end;
use crate::incremental_build::manifest::manifest_start;
use crate::incremental_build::manifest::ManifestAction;
use crate::incremental_build::BuildClassificationReason;
use crate::incremental_build::IncrementalBuildKind;
use crate::incremental_build::StepFailure;

verus! {

/// Whether a branch exists after the changes so far, at a generation and a head.
pub open spec fn is_at(stage: BranchStageView, point: BranchPointView) -> bool {
    stage.staged_kind != Some("delete"@) && (stage.staged == Some(point) || (stage.staged is None
        && stage.baseline == Some(point)))
}

/// Whether a branch is gone after the changes so far, or never was.
pub open spec fn is_gone(stage: BranchStageView) -> bool {
    stage.staged_kind == Some("delete"@) || (stage.staged is None && stage.baseline is None)
}

/// A deletion is staged exactly where it starts from where the branch is: from its generation, or
/// from none where it is gone. Otherwise the journal is invalid.
pub proof fn lemma_deletion_follows(
    change: BranchChangeView,
    stage: BranchStageView,
    published: bool,
    point: BranchPointView,
)
    requires
        change.change_kind == "delete"@,
        is_at(stage, point) || is_gone(stage),
    ensures
        ({
            let plan = change_plan(change, stage, published);
            let follows = if is_gone(stage) {
                change.base_contribution_generation is None
            } else {
                change.base_contribution_generation == Some(point.contribution_generation)
            };
            &&& plan is Delete <==> follows
            &&& !follows ==> plan == (ChangePlanView::RequiresFull {
                reason: BuildClassificationReason::SourceChangeJournalInvalid,
            })
            &&& plan matches ChangePlanView::Delete { baseline_generation } ==> {
                &&& baseline_generation is Some <==> stage.baseline is Some
                &&& stage.baseline matches Some(before) ==> baseline_generation == Some(
                    before.contribution_generation,
                )
            }
        }),
{
}

/// A replacement is staged exactly where it is complete and its refresh was published. It empties
/// what was staged before, and replaces what the baseline has of the branch, where it has any.
pub proof fn lemma_replacement_is_staged(
    change: BranchChangeView,
    stage: BranchStageView,
    published: bool,
)
    requires
        change.change_kind == "replace"@,
    ensures
        ({
            let plan = change_plan(change, stage, published);
            let complete = change.target_contribution_generation is Some && change.head_id is Some
                && change.state_json is Some && change.refresh_id is Some;
            &&& plan is Stage <==> complete && published
            &&& !(plan is Stage) ==> plan == (ChangePlanView::RequiresFull {
                reason: BuildClassificationReason::SourceChangeJournalInvalid,
            })
            &&& plan is Stage ==> {
                &&& plan->reset
                &&& plan->Stage_kind == StagedKind::Replace <==> stage.baseline is Some
                &&& plan->Stage_kind == StagedKind::Added <==> stage.baseline is None
                &&& plan->removal_complete <==> stage.baseline is None
                &&& plan->scope_removal_complete <==> stage.baseline is None
                &&& plan->refresh is Some
                &&& plan->refresh->0.kind == RefreshKind::Full
            }
        }),
{
    lemma_change_kinds_apart();
}

/// An appending change is staged exactly where it is complete, goes on from where the branch is,
/// and has a refresh that was published. It adds to what was staged before.
pub proof fn lemma_append_is_staged(
    change: BranchChangeView,
    stage: BranchStageView,
    published: bool,
    point: BranchPointView,
)
    requires
        change.change_kind == "append"@,
        change.target_contribution_generation is Some,
        change.head_id is Some,
        change.state_json is Some,
        is_at(stage, point) || is_gone(stage),
    ensures
        ({
            let plan = change_plan(change, stage, published);
            let follows = if is_gone(stage) {
                change.base_contribution_generation is None
            } else {
                change.base_contribution_generation == Some(point.contribution_generation)
            };
            &&& plan is Stage <==> follows && change.refresh_id is Some && published
            &&& !follows ==> plan == (ChangePlanView::RequiresFull {
                reason: BuildClassificationReason::SourceAppendBaseMismatch,
            })
            &&& follows && !(plan is Stage) ==> plan == (ChangePlanView::RequiresFull {
                reason: BuildClassificationReason::SourceChangeJournalInvalid,
            })
            &&& plan is Stage ==> {
                &&& !plan->reset
                &&& plan->Stage_kind == StagedKind::Added <==> stage.staged_kind == Some("added"@)
                &&& plan->Stage_kind == StagedKind::Replace <==> stage.staged_kind == Some("replace"@)
                &&& plan->Stage_kind == StagedKind::Append <==> stage.staged_kind != Some("added"@)
                    && stage.staged_kind != Some("replace"@)
                &&& plan->refresh is Some
                &&& plan->refresh->0.kind == RefreshKind::Append
            }
        }),
{
    lemma_change_kinds_apart();
}

/// A change of metadata is staged exactly where it leaves the branch where it is. It needs no
/// refresh, and adds to what was staged before.
pub proof fn lemma_metadata_is_staged(
    change: BranchChangeView,
    stage: BranchStageView,
    published: bool,
    point: BranchPointView,
)
    requires
        change.change_kind == "metadata"@,
        change.target_contribution_generation is Some,
        change.head_id is Some,
        change.state_json is Some,
        is_at(stage, point),
    ensures
        ({
            let plan = change_plan(change, stage, published);
            let stays = change.target_contribution_generation == Some(point.contribution_generation)
                && change.head_id == Some(point.head_id);
            &&& plan is Stage <==> stays
            &&& !stays ==> plan == (ChangePlanView::RequiresFull {
                reason: BuildClassificationReason::SourceMetadataBaselineMismatch,
            })
            &&& plan is Stage ==> {
                &&& !plan->reset
                &&& plan->refresh is None
                &&& plan->Stage_kind == StagedKind::Added <==> stage.staged_kind == Some("added"@)
                &&& plan->Stage_kind == StagedKind::Replace <==> stage.staged_kind == Some("replace"@)
                &&& plan->Stage_kind == StagedKind::Append <==> stage.staged_kind == Some("append"@)
                &&& plan->Stage_kind != StagedKind::Delete
            }
        }),
{
    lemma_change_kinds_apart();
}

/// A staged branch enters the manifest with the generation, the head and the state of the change.
/// Its refresh is the one that the change names, and what the baseline has of the branch is
/// recorded: all of it is to be removed for a replacement, and its scope for what is added to too.
pub proof fn lemma_staged_branch(change: BranchChangeView, stage: BranchStageView, published: bool)
    requires
        change_plan(change, stage, published) is Stage,
    ensures
        ({
            let plan = change_plan(change, stage, published);
            &&& Some(plan->point.contribution_generation) == change.target_contribution_generation
            &&& Some(plan->point.head_id) == change.head_id
            &&& Some(plan->state_json) == change.state_json
            &&& plan->Stage_baseline_generation is Some <==> stage.baseline is Some
            &&& stage.baseline matches Some(before) ==> plan->Stage_baseline_generation == Some(
                before.contribution_generation,
            )
            &&& plan->removal_complete <==> plan->Stage_kind != StagedKind::Replace
            &&& plan->scope_removal_complete <==> stage.baseline is None || plan->Stage_kind
                == StagedKind::Added || plan->Stage_kind == StagedKind::Metadata
            &&& plan->refresh matches Some(claim) ==> {
                &&& Some(claim.refresh_id) == change.refresh_id
                &&& Some(claim.target_generation) == change.target_contribution_generation
                &&& claim.source_revision == change.source_revision
            }
        }),
{
    lemma_change_kinds_apart();
}

/// A change of an unknown kind, or one that lacks its generation, its head or its state, makes the
/// journal invalid.
pub proof fn lemma_incomplete_change_is_invalid(
    change: BranchChangeView,
    stage: BranchStageView,
    published: bool,
)
    requires
        change.change_kind != "delete"@,
        change.target_contribution_generation is None || change.head_id is None || change.state_json is None
            || (change.change_kind != "replace"@ && change.change_kind != "append"@
            && change.change_kind != "metadata"@),
    ensures
        change_plan(change, stage, published) == (ChangePlanView::RequiresFull {
            reason: BuildClassificationReason::SourceChangeJournalInvalid,
        }),
{
}

/// Whether a page of the journal is read depends on its revisions alone: each follows the one
/// before it, or repeats it, and the first one follows where the reading is.
pub proof fn lemma_journal_page(range: JournalRange, revisions: Seq<i64>, scope: BaselineScope)
    requires
        0 < revisions.len() <= i64::MAX,
        revisions.len() <= usize::MAX,
        range.revision_cursor > 0,
    ensures
        ({
            let step = journal_outcome(range, revisions, scope);
            let goes_on = 0 <= revisions[0] - range.revision_cursor <= 1 && forall|i: int|
                0 < i < revisions.len() ==> 0 <= #[trigger] revisions[i] - revisions[i - 1] <= 1;
            &&& goes_on ==> step == (JournalStep::Stage { count: revisions.len() as i64 })
            &&& !goes_on ==> (step matches JournalStep::Decide { decision } && decision.kind
                == IncrementalBuildKind::Full && decision.reason
                == BuildClassificationReason::SourceJournalGap)
        }),
{
    let baseline = range.baseline_revision as int;
    let cursor = range.revision_cursor as int;
    let goes_on = 0 <= revisions[0] - range.revision_cursor <= 1 && forall|i: int|
        0 < i < revisions.len() ==> 0 <= #[trigger] revisions[i] - revisions[i - 1] <= 1;
    if goes_on {
        assert forall|i: int| 0 <= i < revisions.len() implies #[trigger]
            crate::incremental_build::classify::entry_follows(baseline, cursor, revisions, i) by {
            if i > 0 {
                assert(0 <= revisions[i] - revisions[i - 1] <= 1);
            }
        }
        assert(page_contiguous(baseline, cursor, revisions));
    } else if page_contiguous(baseline, cursor, revisions) {
        assert(crate::incremental_build::classify::entry_follows(baseline, cursor, revisions, 0));
        assert forall|i: int| 0 < i < revisions.len() implies 0 <= #[trigger] revisions[i] - revisions[i
            - 1] <= 1 by {
            assert(crate::incremental_build::classify::entry_follows(baseline, cursor, revisions, i));
        }
    }
}

/// Once the journal is read, a build adds to its baseline exactly where the reading came to the
/// revision of the build and the anchor scope of the baseline is known or empty. It then goes on
/// with the removals; any other build starts over.
pub proof fn lemma_journal_end(range: JournalRange, scope: BaselineScope)
    requires
        range.revision_cursor > 0,
        range.build_revision >= range.baseline_revision,
    ensures
        ({
            let step = journal_outcome(range, Seq::empty(), scope);
            let adds = range.revision_cursor == range.build_revision && (scope.scope_count is Some
                || scope.anchors_empty);
            &&& step matches JournalStep::Decide { decision } && {
                &&& decision.kind == IncrementalBuildKind::Append <==> adds
                &&& decision.change.from == InitPhase::KindJournal
                &&& decision.change.to == InitPhase::DeltaRemove <==> adds
                &&& decision.change.to == InitPhase::FullReset <==> !adds
                &&& decision.scope_count is Some <==> adds
                &&& adds && scope.scope_count is Some ==> decision.scope_count == scope.scope_count
                &&& adds && scope.scope_count is None ==> decision.scope_count == Some(0i64)
                &&& decision.reason == BuildClassificationReason::SourceJournalDeltaCompatible <==> adds
                &&& decision.reason == BuildClassificationReason::SourceJournalGap
                    <==> range.revision_cursor != range.build_revision
            }
        }),
{
}

/// A phase is told by its text.
pub(crate) proof fn lemma_phase_is_told(phase: InitPhase)
    ensures
        forall|other: InitPhase| #[trigger] phase_text(other) == phase_text(phase) ==> other == phase,
        phase_text(InitPhase::New) == "new"@,
        phase_text(InitPhase::Kind) == "kind"@,
        phase_text(InitPhase::KindJournal) == "kind_journal"@,
        phase_text(InitPhase::FullReset) == "full_reset"@,
        phase_text(InitPhase::ManifestReset) == "manifest_reset"@,
        phase_text(InitPhase::ManifestRefreshReset) == "manifest_refresh_reset"@,
        phase_text(InitPhase::ManifestBranchReset) == "manifest_branch_reset"@,
        phase_text(InitPhase::ManifestCopy) == "manifest_copy"@,
        phase_text(InitPhase::ManifestRefreshCopy) == "manifest_refresh_copy"@,
        phase_text(InitPhase::DeltaRemove) == "delta_remove"@,
        phase_text(InitPhase::DeltaSeed) == "delta_seed"@,
        phase_text(InitPhase::ManifestSeed) == "manifest_seed"@,
        phase_text(InitPhase::Scope) == "scope"@,
        phase_text(InitPhase::DeltaScopeRemove) == "delta_scope_remove"@,
        phase_text(InitPhase::RankSlots) == "rank_slots"@,
        phase_text(InitPhase::Nodes) == "nodes"@,
        phase_text(InitPhase::Edges) == "edges"@,
        phase_text(InitPhase::Ports) == "ports"@,
        phase_text(InitPhase::Branches) == "branches"@,
        phase_text(InitPhase::Complete) == "complete"@,
{
    assert forall|other: InitPhase| #[trigger] phase_text(other) == phase_text(phase) implies other
        == phase by {
        lemma_phase_texts_differ(other, phase);
    }
}

/// What a transaction on the manifest begins in a phase ends that phase, and no other phase is
/// known to it.
pub proof fn lemma_manifest_ends_its_phase(
    phase: InitPhase,
    counter: i64,
    cursor: Seq<char>,
    append: bool,
)
    ensures
        manifest_start(phase_text(phase), counter, cursor, append) matches Ok(action) ==> manifest_end(
            action,
        ).from == phase,
        manifest_start(phase_text(phase), counter, cursor, append) == Err::<
            ManifestAction,
            StepFailure,
        >(StepFailure::NotFound) <==> phase_work(phase_text(phase)) != Some(
            BeginStep::InitializeManifest,
        ),
{
    lemma_phase_is_told(phase);
}

/// The manifest is written in this order: it is emptied of refreshes and of branches, then
/// branches and refreshes are copied, and then the scopes are seeded and searched.
pub proof fn lemma_manifest_order(first: bool, after: Option<i64>, changed_only: bool)
    ensures
        manifest_end(ManifestAction::Open).to == InitPhase::Kind,
        manifest_end(ManifestAction::ResetDelta).to == manifest_end(ManifestAction::ResetRefreshes).from,
        manifest_end(ManifestAction::SkipReset).to == manifest_end(ManifestAction::ResetRefreshes).from,
        manifest_end(ManifestAction::ResetRefreshes).to == manifest_end(ManifestAction::ResetBranches).from,
        manifest_end(ManifestAction::ResetBranches).to == manifest_end(
            ManifestAction::CopyNames { first },
        ).from,
        manifest_end(ManifestAction::CopyNames { first }).to == manifest_end(
            ManifestAction::CopyRefreshes { after },
        ).from,
        manifest_end(ManifestAction::CopyRefreshes { after }).to == manifest_end(
            ManifestAction::SeedBranches { changed_only, first },
        ).from,
        manifest_end(ManifestAction::SeedBranches { changed_only, first }).to == InitPhase::Scope,
{
}

/// A first page is read where nothing was counted yet, and a later one behind the cursor. Only a
/// build that adds to its baseline seeds the changed branches alone.
pub proof fn lemma_manifest_pages(counter: i64, cursor: Seq<char>, append: bool)
    ensures
        manifest_start(phase_text(InitPhase::ManifestCopy), counter, cursor, append) == Ok::<
            ManifestAction,
            StepFailure,
        >(ManifestAction::CopyNames { first: counter == 0 }),
        manifest_start(phase_text(InitPhase::ManifestSeed), counter, cursor, append) == Ok::<
            ManifestAction,
            StepFailure,
        >(ManifestAction::SeedBranches { changed_only: append, first: counter == 0 }),
        counter == 0 ==> manifest_start(
            phase_text(InitPhase::ManifestRefreshCopy),
            counter,
            cursor,
            append,
        ) == Ok::<ManifestAction, StepFailure>(ManifestAction::CopyRefreshes { after: None }),
{
    lemma_phase_is_told(InitPhase::ManifestCopy);
    lemma_phase_is_told(InitPhase::ManifestSeed);
    lemma_phase_is_told(InitPhase::ManifestRefreshCopy);
}

/// An earlier layout is taken over in four phases, each of which ends itself: the places, then the
/// nodes, then the edges, then the ports. The branches follow.
pub proof fn lemma_layout_is_taken_over_in_order(phase: InitPhase)
    ensures
        layout_successor(phase_text(phase)) is Some <==> phase_work(phase_text(phase)) == Some(
            BeginStep::AdvanceLayout,
        ),
        layout_successor(phase_text(phase)) matches Some(change) ==> change.from == phase,
        layout_successor(phase_text(InitPhase::RankSlots)) matches Some(change) && change.to
            == InitPhase::Nodes,
        layout_successor(phase_text(InitPhase::Nodes)) matches Some(change) && change.to
            == InitPhase::Edges,
        layout_successor(phase_text(InitPhase::Edges)) matches Some(change) && change.to
            == InitPhase::Ports,
        layout_successor(phase_text(InitPhase::Ports)) matches Some(change) && change.to
            == InitPhase::Branches,
{
    lemma_phase_is_told(phase);
    lemma_phase_is_told(InitPhase::RankSlots);
    lemma_phase_is_told(InitPhase::Nodes);
    lemma_phase_is_told(InitPhase::Edges);
    lemma_phase_is_told(InitPhase::Ports);
    reveal_strlit("kind");
    reveal_strlit("rank_slots");
    reveal_strlit("nodes");
    reveal_strlit("edges");
    reveal_strlit("ports");
    assert("kind"@[0] == 'k' && "kind"@.len() == 4);
    assert("rank_slots"@[0] == 'r' && "nodes"@[0] == 'n' && "edges"@[0] == 'e' && "ports"@[0] == 'p');
    if "kind"@.is_prefix_of(phase_text(phase)) {
        assert(phase_text(phase)[0] == "kind"@[0]);
    }
}

/// A build that is set up is finished with the kind that was stored, where it belongs to the
/// baseline and the root; otherwise it is refused. One that is not set up does the work of its
/// phase.
pub proof fn lemma_set_up_build(
    state: DagRunState,
    run_id: i64,
    baseline_generation: i64,
    root_id: Seq<char>,
    kind: IncrementalBuildKind,
)
    requires
        state.build_kind is Some,
        state.build_kind->0@ == kind_text(kind),
    ensures
        ({
            let outcome = begin_outcome(state, run_id, baseline_generation, root_id);
            let belongs = state.baseline_generation == Some(baseline_generation) && (
            state.root_id matches Some(root) && root@ == root_id);
            &&& state.initialized == 1 ==> (outcome is Ok <==> belongs)
            &&& state.initialized == 1 && belongs ==> outcome->Ok_0 == (BeginStep::Finished { kind })
            &&& state.initialized != 1 ==> (outcome is Ok <==> phase_work(state.init_phase@) is Some)
            &&& state.initialized != 1 && outcome is Ok ==> Some(outcome->Ok_0) == phase_work(
                state.init_phase@,
            ) && !(outcome->Ok_0 is Finished)
        }),
{
    if kind_text(IncrementalBuildKind::Full) == kind_text(IncrementalBuildKind::Append) {
        crate::incremental_build::lemma_kind_texts_differ(
            IncrementalBuildKind::Full,
            IncrementalBuildKind::Append,
        );
    }
}

/// What waits in a buffer is handed out once: all nodes and edges of a mode in one batch of that
/// mode, the anchors before the rest, and no batch without any.
pub proof fn lemma_batches(buffer: GraphBuffer, mode: GraphMode)
    requires
        buffer.wf(),
    ensures
        ({
            let batches = batches_of(buffer);
            &&& forall|i: int|
                #![trigger batches[i]]
                0 <= i < batches.len() ==> batches[i].nodes@.len() + batches[i].edges@.len() > 0
                    && batches[i].nodes@ == buffer.nodes_of(batches[i].mode) && batches[i].edges@
                    == buffer.edges_of(batches[i].mode)
            &&& buffer.nodes_of(mode).len() + buffer.edges_of(mode).len() > 0 ==> exists|i: int|
                0 <= i < batches.len() && (#[trigger] batches[i]).mode == mode
            &&& forall|i: int, j: int|
                0 <= i < j < batches.len() ==> (#[trigger] batches[i]).mode == GraphMode::Anchors && (
                #[trigger] batches[j]).mode == GraphMode::All
        }),
{
    let batches = batches_of(buffer);
    match mode {
        GraphMode::Anchors => {
            if buffer.anchors.nodes@.len() + buffer.anchors.edges@.len() > 0 {
                assert(batches[0] == buffer.anchors);
            }
        },
        GraphMode::All => {
            if buffer.all.nodes@.len() + buffer.all.edges@.len() > 0 {
                assert(batches[batches.len() - 1] == buffer.all);
            }
        },
    }
}

/// A first page of the journal begins with the revision behind that of the baseline, and each of
/// its revisions follows the one before it or repeats it.
pub proof fn lemma_first_journal_page(range: JournalRange, revisions: Seq<i64>, scope: BaselineScope)
    requires
        0 < revisions.len() <= i64::MAX,
        revisions.len() <= usize::MAX,
        range.revision_cursor == 0,
    ensures
        ({
            let step = journal_outcome(range, revisions, scope);
            let goes_on = revisions[0] == range.baseline_revision + 1 && forall|i: int|
                0 < i < revisions.len() ==> 0 <= #[trigger] revisions[i] - revisions[i - 1] <= 1;
            &&& goes_on ==> step == (JournalStep::Stage { count: revisions.len() as i64 })
            &&& !goes_on ==> (step matches JournalStep::Decide { decision } && decision.kind
                == IncrementalBuildKind::Full && decision.reason
                == BuildClassificationReason::SourceJournalGap)
        }),
{
    let baseline = range.baseline_revision as int;
    let goes_on = revisions[0] == range.baseline_revision + 1 && forall|i: int|
        0 < i < revisions.len() ==> 0 <= #[trigger] revisions[i] - revisions[i - 1] <= 1;
    if goes_on {
        assert forall|i: int| 0 <= i < revisions.len() implies #[trigger]
            crate::incremental_build::classify::entry_follows(baseline, 0, revisions, i) by {
            if i > 0 {
                assert(0 <= revisions[i] - revisions[i - 1] <= 1);
            }
        }
        assert(page_contiguous(baseline, 0, revisions));
    } else if page_contiguous(baseline, 0, revisions) {
        assert(crate::incremental_build::classify::entry_follows(baseline, 0, revisions, 0));
        assert forall|i: int| 0 < i < revisions.len() implies 0 <= #[trigger] revisions[i] - revisions[i
            - 1] <= 1 by {
            assert(crate::incremental_build::classify::entry_follows(baseline, 0, revisions, i));
        }
    }
}

/// Where nothing was published since the baseline, a build adds to it without reading anything.
pub proof fn lemma_empty_journal(range: JournalRange, scope: BaselineScope)
    requires
        range.revision_cursor == 0,
    ensures
        journal_outcome(range, Seq::empty(), scope) matches JournalStep::Decide { decision } && (
        decision.kind == IncrementalBuildKind::Append <==> range.build_revision == range.baseline_revision
            && (scope.scope_count is Some || scope.anchors_empty)),
{
}

/// A change claims a refresh exactly where it replaces or appends and names a refresh and a
/// generation. A replacement claims a full refresh, and an appending change one that appends.
pub proof fn lemma_claimed_refresh(change: BranchChangeView)
    ensures
        ({
            let claim = claimed_refresh(change);
            &&& claim is Some <==> change.refresh_id is Some && change.target_contribution_generation is Some
                && (change.change_kind == "replace"@ || change.change_kind == "append"@)
            &&& claim matches Some(claim) ==> {
                &&& Some(claim.refresh_id) == change.refresh_id
                &&& Some(claim.target_generation) == change.target_contribution_generation
                &&& claim.source_revision == change.source_revision
                &&& claim.kind == RefreshKind::Full <==> change.change_kind == "replace"@
                &&& claim.kind == RefreshKind::Append <==> change.change_kind == "append"@
            }
        }),
{
    lemma_change_kinds_apart();
}

/// A build that starts over empties what an earlier one left, and one that adds to its baseline
/// goes on with the removals.
pub proof fn lemma_kinds_go_on(kind: IncrementalBuildKind)
    ensures
        kind == IncrementalBuildKind::Full <==> kind_successor(kind) == InitPhase::FullReset,
        kind == IncrementalBuildKind::Append <==> kind_successor(kind) == InitPhase::DeltaRemove,
        crate::incremental_build::init::is_transition(InitPhase::KindJournal, kind_successor(kind)),
{
}

} // verus!
