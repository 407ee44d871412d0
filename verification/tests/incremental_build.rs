use std::collections::BTreeSet;

use coco_console::api::Point;
use coco_console::graph::GraphMode;
use coco_console::graph::GraphNode;
use coco_console::incremental_build::buffer::GraphBuffer;
use coco_console::incremental_build::build_kind_value;
use coco_console::incremental_build::classify::choose_build_kind;
use coco_console::incremental_build::classify::journal_cursor_covers_revision_range;
use coco_console::incremental_build::classify::journal_page_is_contiguous;
use coco_console::incremental_build::classify::journal_step;
use coco_console::incremental_build::classify::refresh_claim;
use coco_console::incremental_build::classify::reset_staged_branch_change;
use coco_console::incremental_build::classify::stage_branch_journal_change;
use coco_console::incremental_build::classify::staged_table;
use coco_console::incremental_build::classify::BaselinePublication;
use coco_console::incremental_build::classify::BaselineScope;
use coco_console::incremental_build::classify::BranchChange;
use coco_console::incremental_build::classify::BranchPoint;
use coco_console::incremental_build::classify::BranchStage;
use coco_console::incremental_build::classify::ChangePlan;
use coco_console::incremental_build::classify::JournalRange;
use coco_console::incremental_build::classify::JournalStep;
use coco_console::incremental_build::classify::KindStep;
use coco_console::incremental_build::classify::RefreshKind;
use coco_console::incremental_build::classify::StagedKind;
use coco_console::incremental_build::classify::StagedReset;
use coco_console::incremental_build::count_as_i64;
use coco_console::incremental_build::dag_progress;
use coco_console::incremental_build::delta::count_removed;
use coco_console::incremental_build::delta::delta_page;
use coco_console::incremental_build::delta::leaves_anchors;
use coco_console::incremental_build::delta::populate_delta_node_batch;
use coco_console::incremental_build::delta::populate_delta_removal_batch;
use coco_console::incremental_build::delta::populate_delta_scope_removal_batch;
use coco_console::incremental_build::delta::removal_page;
use coco_console::incremental_build::delta::scope_removal_page;
use coco_console::incremental_build::delta::BranchRemoval;
use coco_console::incremental_build::delta::DeltaAction;
use coco_console::incremental_build::delta::DeltaNode;
use coco_console::incremental_build::delta::DeltaPage;
use coco_console::incremental_build::delta::RemovalAction;
use coco_console::incremental_build::delta::RemovalCandidate;
use coco_console::incremental_build::delta::RemovalPage;
use coco_console::incremental_build::delta::ScopeRemoval;
use coco_console::incremental_build::delta::ScopeRemovalAction;
use coco_console::incremental_build::delta::ScopeRemovalPage;
use coco_console::incremental_build::finalize::advance_branch_label_resolution;
use coco_console::incremental_build::finalize::apply_branch_label_batch;
use coco_console::incremental_build::finalize::build_stats;
use coco_console::incremental_build::finalize::copy_port_batch;
use coco_console::incremental_build::finalize::ensure_branch_label_resolution;
use coco_console::incremental_build::finalize::finalize_incremental_build;
use coco_console::incremental_build::finalize::Ancestry;
use coco_console::incremental_build::finalize::AncestryNode;
use coco_console::incremental_build::finalize::FinalizeAction;
use coco_console::incremental_build::finalize::FinalizePhase;
use coco_console::incremental_build::finalize::FrontierMetrics;
use coco_console::incremental_build::finalize::LabelCandidate;
use coco_console::incremental_build::finalize::LabelStep;
use coco_console::incremental_build::finalize::LabelledBranch;
use coco_console::incremental_build::finalize::PortCopy;
use coco_console::incremental_build::finalize::PortCopyStep;
use coco_console::incremental_build::init::advance_layout_initialization;
use coco_console::incremental_build::init::begin_step;
use coco_console::incremental_build::init::BeginStep;
use coco_console::incremental_build::init::DagRunState;
use coco_console::incremental_build::init::InitPhase;
use coco_console::incremental_build::init::PhaseChange;
use coco_console::incremental_build::manifest::delta_table;
use coco_console::incremental_build::manifest::frozen_branch_present;
use coco_console::incremental_build::manifest::full_reset_step;
use coco_console::incremental_build::manifest::initialize_branch_metadata;
use coco_console::incremental_build::manifest::initialize_source_manifest;
use coco_console::incremental_build::manifest::manifest_copy_page;
use coco_console::incremental_build::manifest::manifest_refresh_page;
use coco_console::incremental_build::manifest::manifest_reset_step;
use coco_console::incremental_build::manifest::manifest_seed_page;
use coco_console::incremental_build::manifest::FrozenBranch;
use coco_console::incremental_build::manifest::ManifestAction;
use coco_console::incremental_build::manifest::ManifestRefresh;
use coco_console::incremental_build::manifest::PagePlan;
use coco_console::incremental_build::manifest::PageStep;
use coco_console::incremental_build::manifest::ResetStep;
use coco_console::incremental_build::manifest::SourceBranchName;
use coco_console::incremental_build::place::assign_ports;
use coco_console::incremental_build::place::buffer_projection_edge;
use coco_console::incremental_build::place::buffer_projection_node;
use coco_console::incremental_build::place::edge_ends;
use coco_console::incremental_build::place::layout_coordinate;
use coco_console::incremental_build::place::new_slot;
use coco_console::incremental_build::place::next_free;
use coco_console::incremental_build::place::place_node_at_rank;
use coco_console::incremental_build::place::retire_slot;
use coco_console::incremental_build::place::stored_edge_kind;
use coco_console::incremental_build::place::EdgePorts;
use coco_console::incremental_build::place::LastPorts;
use coco_console::incremental_build::place::Placement;
use coco_console::incremental_build::place::PortStep;
use coco_console::incremental_build::place::Slot;
use coco_console::incremental_build::project::advance_anchor_resolution;
use coco_console::incremental_build::project::anchor_edge_takes_place;
use coco_console::incremental_build::project::checkpoint_projection_edge_page;
use coco_console::incremental_build::project::checkpoint_projection_rank_page;
use coco_console::incremental_build::project::commit_all_projection_edge_page;
use coco_console::incremental_build::project::commit_anchor_raw_edge_page;
use coco_console::incremental_build::project::commit_anchor_resolution;
use coco_console::incremental_build::project::complete_anchor_resolution;
use coco_console::incremental_build::project::edge_page_limit;
use coco_console::incremental_build::project::finish_node_placement;
use coco_console::incremental_build::project::is_visible_anchor;
use coco_console::incremental_build::project::process_node;
use coco_console::incremental_build::project::projection_page_required_rank;
use coco_console::incremental_build::project::raw_projection_edge_page;
use coco_console::incremental_build::project::Ancestor;
use coco_console::incremental_build::project::AncestorStep;
use coco_console::incremental_build::project::AnchorAction;
use coco_console::incremental_build::project::AnchorEdgeRank;
use coco_console::incremental_build::project::AnchorProjection;
use coco_console::incremental_build::project::EdgeSource;
use coco_console::incremental_build::project::EdgesStep;
use coco_console::incremental_build::project::MergeParent;
use coco_console::incremental_build::project::PrepareStep;
use coco_console::incremental_build::project::ProjectionAction;
use coco_console::incremental_build::project::ProjectionChange;
use coco_console::incremental_build::project::ProjectionEdge;
use coco_console::incremental_build::project::ProjectionPhase;
use coco_console::incremental_build::project::ProjectionState;
use coco_console::incremental_build::project::RankStep;
use coco_console::incremental_build::project::RawEdgeStep;
use coco_console::incremental_build::record_discovered_nodes;
use coco_console::incremental_build::require_build_fence;
use coco_console::incremental_build::require_single_update;
use coco_console::incremental_build::saturating_i64;
use coco_console::incremental_build::scope::expand_scope_item;
use coco_console::incremental_build::scope::process_scope_batch;
use coco_console::incremental_build::scope::BranchReuse;
use coco_console::incremental_build::scope::Membership;
use coco_console::incremental_build::scope::ScopeBatch;
use coco_console::incremental_build::scope::ScopeContinuation;
use coco_console::incremental_build::scope::ScopeItem;
use coco_console::incremental_build::scope::ScopeNode;
use coco_console::incremental_build::scope::ScopeRelative;
use coco_console::incremental_build::scope::SessionStart;
use coco_console::incremental_build::stored_build_classification_reason;
use coco_console::incremental_build::stored_build_kind;
use coco_console::incremental_build::stored_node_count;
use coco_console::incremental_build::traverse::advance_parent_requirement_page;
use coco_console::incremental_build::traverse::append_seed_page;
use coco_console::incremental_build::traverse::commit_child_page;
use coco_console::incremental_build::traverse::complete_frontier_minimum;
use coco_console::incremental_build::traverse::discover_ready_child_page;
use coco_console::incremental_build::traverse::frontier_mode_value;
use coco_console::incremental_build::traverse::inserted_seed_count;
use coco_console::incremental_build::traverse::is_ready;
use coco_console::incremental_build::traverse::log_frontier_storage_transition;
use coco_console::incremental_build::traverse::maintain_incremental_traversal;
use coco_console::incremental_build::traverse::next_count;
use coco_console::incremental_build::traverse::page_limit;
use coco_console::incremental_build::traverse::process_frontier_cursor;
use coco_console::incremental_build::traverse::renews_after_projection_step;
use coco_console::incremental_build::traverse::require_build_lease;
use coco_console::incremental_build::traverse::satisfy_parent;
use coco_console::incremental_build::traverse::seed_incremental_frontier;
use coco_console::incremental_build::traverse::should_renew_child_page_lease;
use coco_console::incremental_build::traverse::CursorTurn;
use coco_console::incremental_build::traverse::FrontierCompletion;
use coco_console::incremental_build::traverse::FrontierMode;
use coco_console::incremental_build::traverse::Maintenance;
use coco_console::incremental_build::traverse::Relative;
use coco_console::incremental_build::traverse::RequirementStep;
use coco_console::incremental_build::traverse::SeedCandidate;
use coco_console::incremental_build::traverse::SeedPage;
use coco_console::incremental_build::traverse::SeedStep;
use coco_console::incremental_build::traverse::WorkNode;
use coco_console::incremental_build::validate_incremental_build_config;
use coco_console::incremental_build::validate_incremental_completion;
use coco_console::incremental_build::BuildClassificationReason;
use coco_console::incremental_build::DagProgress;
use coco_console::incremental_build::IncrementalBuildConfig;
use coco_console::incremental_build::IncrementalBuildKind;
use coco_console::incremental_build::StepFailure;
use coco_console::incremental_layout::route_edge;
use coco_console::incremental_layout::EndpointPortSlots;
use coco_console::incremental_layout::LayoutPoint;
use coco_console::incremental_layout::StableEdgeKind;
use coco_console::incremental_layout::StableLayoutConfig;
use coco_console::layout::GraphLayoutEdgeKind;

#[test]
fn source_change_journal_rejects_missing_middle_revision() {
    assert!(!journal_page_is_contiguous(40, 0, &vec![41, 43]));
    assert!(!journal_page_is_contiguous(40, 41, &vec![43]));
    assert!(journal_page_is_contiguous(40, 0, &vec![41, 41, 42]));
    assert!(journal_page_is_contiguous(40, 41, &vec![41, 42]));
}

#[test]
fn source_change_journal_rejects_missing_tail_revision() {
    assert!(!journal_cursor_covers_revision_range(40, 43, 42));
    assert!(!journal_cursor_covers_revision_range(40, 43, 0));
    assert!(journal_cursor_covers_revision_range(40, 40, 0));
    assert!(journal_cursor_covers_revision_range(40, 43, 43));
}

#[test]
fn build_kind_journal_cursor_resumes_at_the_next_revision() {
    let first_page = (41..=168).collect::<Vec<i64>>();
    assert!(journal_page_is_contiguous(40, 0, &first_page));
    let saved_revision_cursor = *first_page.last().unwrap();
    assert!(journal_page_is_contiguous(
        40,
        saved_revision_cursor,
        &vec![169, 170]
    ));
    assert!(journal_cursor_covers_revision_range(40, 170, 170));
}

#[test]
fn journal_page_at_the_last_revision_ends() {
    assert!(!journal_page_is_contiguous(i64::MAX, 0, &vec![i64::MAX]));
    assert!(journal_page_is_contiguous(40, i64::MAX, &vec![i64::MAX]));
    assert!(!journal_page_is_contiguous(40, i64::MAX, &vec![i64::MIN]));
}

fn change(kind: &str) -> BranchChange {
    BranchChange {
        source_revision: 41,
        branch_name: "main".to_owned(),
        change_kind: kind.to_owned(),
        refresh_id: Some(9),
        base_contribution_generation: Some(3),
        target_contribution_generation: Some(4),
        head_id: Some("head".to_owned()),
        state_json: Some("{}".to_owned()),
    }
}

fn point(head_id: &str, contribution_generation: i64) -> Option<BranchPoint> {
    Some(BranchPoint {
        head_id: head_id.to_owned(),
        contribution_generation,
    })
}

fn stage(baseline: Option<BranchPoint>) -> BranchStage {
    BranchStage {
        baseline,
        staged_kind: None,
        staged: None,
    }
}

fn requires_full(reason: BuildClassificationReason) -> ChangePlan {
    ChangePlan::RequiresFull { reason }
}

#[test]
fn appended_branch_is_staged_on_its_baseline() {
    let plan = stage_branch_journal_change(&change("append"), &stage(point("old", 3)), true);
    match plan {
        ChangePlan::Stage {
            reset,
            point,
            state_json,
            kind,
            baseline_generation,
            removal_complete,
            scope_removal_complete,
            refresh,
        } => {
            assert!(!reset);
            assert_eq!(point.head_id, "head");
            assert_eq!(point.contribution_generation, 4);
            assert_eq!(state_json, "{}");
            assert_eq!(kind, StagedKind::Append);
            assert_eq!(baseline_generation, Some(3));
            assert!(removal_complete);
            assert!(!scope_removal_complete);
            let claim = refresh.unwrap();
            assert_eq!(claim.refresh_id, 9);
            assert_eq!(claim.kind, RefreshKind::Append);
            assert_eq!(claim.source_revision, 41);
        }
        other => panic!("unexpected plan {other:?}"),
    }
}

#[test]
fn append_to_another_base_requires_a_full_build() {
    assert_eq!(
        stage_branch_journal_change(&change("append"), &stage(point("old", 2)), true),
        requires_full(BuildClassificationReason::SourceAppendBaseMismatch)
    );
    assert_eq!(
        stage_branch_journal_change(&change("append"), &stage(point("old", 3)), false),
        requires_full(BuildClassificationReason::SourceChangeJournalInvalid)
    );
    let mut without_refresh = change("append");
    without_refresh.refresh_id = None;
    assert_eq!(
        stage_branch_journal_change(&without_refresh, &stage(point("old", 3)), true),
        requires_full(BuildClassificationReason::SourceChangeJournalInvalid)
    );
}

#[test]
fn replaced_branch_is_reset_first() {
    let plan = stage_branch_journal_change(&change("replace"), &stage(point("old", 3)), true);
    match plan {
        ChangePlan::Stage {
            reset,
            kind,
            removal_complete,
            scope_removal_complete,
            ..
        } => {
            assert!(reset);
            assert_eq!(kind, StagedKind::Replace);
            assert!(!removal_complete);
            assert!(!scope_removal_complete);
        }
        other => panic!("unexpected plan {other:?}"),
    }
    let plan = stage_branch_journal_change(&change("replace"), &stage(None), true);
    match plan {
        ChangePlan::Stage {
            kind,
            baseline_generation,
            removal_complete,
            scope_removal_complete,
            ..
        } => {
            assert_eq!(kind, StagedKind::Added);
            assert_eq!(baseline_generation, None);
            assert!(removal_complete);
            assert!(scope_removal_complete);
        }
        other => panic!("unexpected plan {other:?}"),
    }
    assert_eq!(
        stage_branch_journal_change(&change("replace"), &stage(None), false),
        requires_full(BuildClassificationReason::SourceChangeJournalInvalid)
    );
}

#[test]
fn replacement_survives_later_changes() {
    let staged = BranchStage {
        baseline: point("old", 3),
        staged_kind: Some("replace".to_owned()),
        staged: point("head", 4),
    };
    let mut appended = change("append");
    appended.base_contribution_generation = Some(4);
    appended.target_contribution_generation = Some(5);
    match stage_branch_journal_change(&appended, &staged, true) {
        ChangePlan::Stage { kind, reset, .. } => {
            assert_eq!(kind, StagedKind::Replace);
            assert!(!reset);
        }
        other => panic!("unexpected plan {other:?}"),
    }
    match stage_branch_journal_change(&change("metadata"), &staged, false) {
        ChangePlan::Stage { kind, refresh, .. } => {
            assert_eq!(kind, StagedKind::Replace);
            assert_eq!(refresh, None);
        }
        other => panic!("unexpected plan {other:?}"),
    }
}

#[test]
fn metadata_must_match_its_branch() {
    match stage_branch_journal_change(&change("metadata"), &stage(point("head", 4)), false) {
        ChangePlan::Stage {
            kind,
            scope_removal_complete,
            ..
        } => {
            assert_eq!(kind, StagedKind::Metadata);
            assert!(scope_removal_complete);
        }
        other => panic!("unexpected plan {other:?}"),
    }
    let mismatch = requires_full(BuildClassificationReason::SourceMetadataBaselineMismatch);
    assert_eq!(
        stage_branch_journal_change(&change("metadata"), &stage(None), false),
        mismatch
    );
    assert_eq!(
        stage_branch_journal_change(&change("metadata"), &stage(point("other", 4)), false),
        mismatch
    );
    assert_eq!(
        stage_branch_journal_change(&change("metadata"), &stage(point("head", 5)), false),
        mismatch
    );
}

#[test]
fn deleted_branch_is_forgotten_or_marked() {
    let mut deleted = change("delete");
    deleted.target_contribution_generation = None;
    deleted.head_id = None;
    deleted.state_json = None;
    assert_eq!(
        stage_branch_journal_change(&deleted, &stage(point("old", 3)), false),
        ChangePlan::Delete {
            baseline_generation: Some(3)
        }
    );
    assert_eq!(
        stage_branch_journal_change(&deleted, &stage(point("old", 2)), false),
        requires_full(BuildClassificationReason::SourceChangeJournalInvalid)
    );
    let added = BranchStage {
        baseline: None,
        staged_kind: Some("added".to_owned()),
        staged: point("head", 3),
    };
    assert_eq!(
        stage_branch_journal_change(&deleted, &added, false),
        ChangePlan::Delete {
            baseline_generation: None
        }
    );
    let gone = BranchStage {
        baseline: point("old", 3),
        staged_kind: Some("delete".to_owned()),
        staged: None,
    };
    assert_eq!(
        stage_branch_journal_change(&deleted, &gone, false),
        requires_full(BuildClassificationReason::SourceChangeJournalInvalid)
    );
}

#[test]
fn incomplete_or_unknown_change_requires_a_full_build() {
    let invalid = requires_full(BuildClassificationReason::SourceChangeJournalInvalid);
    let at = stage(point("old", 3));
    assert_eq!(
        stage_branch_journal_change(&change("rename"), &at, true),
        invalid
    );
    let mut incomplete = change("append");
    incomplete.head_id = None;
    assert_eq!(stage_branch_journal_change(&incomplete, &at, true), invalid);
    let mut incomplete = change("replace");
    incomplete.state_json = None;
    assert_eq!(stage_branch_journal_change(&incomplete, &at, true), invalid);
    let mut incomplete = change("replace");
    incomplete.target_contribution_generation = None;
    assert_eq!(stage_branch_journal_change(&incomplete, &at, true), invalid);
}

#[test]
fn claimed_refresh_follows_the_change() {
    assert_eq!(
        refresh_claim(&change("replace")).unwrap().kind,
        RefreshKind::Full
    );
    assert_eq!(
        refresh_claim(&change("append")).unwrap().target_generation,
        4
    );
    assert_eq!(refresh_claim(&change("metadata")), None);
}

#[test]
fn staged_reset_takes_both_tables() {
    assert_eq!(reset_staged_branch_change(0, 128), StagedReset::Pending);
    assert_eq!(reset_staged_branch_change(0, 0), StagedReset::Next);
    assert_eq!(reset_staged_branch_change(1, 44), StagedReset::Pending);
    assert_eq!(reset_staged_branch_change(1, 0), StagedReset::Done);
}

#[test]
fn build_kind_starts_with_the_baseline() {
    match choose_build_kind("kind", None) {
        Ok(KindStep::Decide { decision }) => {
            assert_eq!(decision.kind, IncrementalBuildKind::Full);
            assert_eq!(
                decision.reason,
                BuildClassificationReason::BaselineDeltaCapabilityUnavailable
            );
            assert_eq!(decision.change.to, InitPhase::FullReset);
        }
        other => panic!("unexpected step {other:?}"),
    }
    let publication = BaselinePublication {
        source_revision: 40,
        publication_epoch: 2,
    };
    assert_eq!(
        choose_build_kind("kind", Some(publication)),
        Ok(KindStep::StartJournal {
            publication,
            change: PhaseChange {
                from: InitPhase::Kind,
                to: InitPhase::KindJournal,
            },
        })
    );
    assert_eq!(
        choose_build_kind("kind_journal", None),
        Ok(KindStep::ReadJournal)
    );
    assert_eq!(
        choose_build_kind("kinder", None),
        Err(StepFailure::NotFound)
    );
}

fn range(revision_cursor: i64) -> JournalRange {
    JournalRange {
        baseline_revision: 40,
        build_revision: 42,
        revision_cursor,
    }
}

#[test]
fn journal_decides_on_the_build_kind() {
    let scope = BaselineScope {
        scope_count: Some(12),
        anchors_empty: false,
    };
    assert_eq!(
        journal_step(range(0), &vec![change("append")], scope),
        JournalStep::Stage { count: 1 }
    );
    match journal_step(range(42), &Vec::new(), scope) {
        JournalStep::Decide { decision } => {
            assert_eq!(decision.kind, IncrementalBuildKind::Append);
            assert_eq!(
                decision.reason,
                BuildClassificationReason::SourceJournalDeltaCompatible
            );
            assert_eq!(decision.scope_count, Some(12));
            assert_eq!(decision.change.to, InitPhase::DeltaRemove);
        }
        other => panic!("unexpected step {other:?}"),
    }
    match journal_step(range(41), &Vec::new(), scope) {
        JournalStep::Decide { decision } => {
            assert_eq!(decision.kind, IncrementalBuildKind::Full);
            assert_eq!(decision.reason, BuildClassificationReason::SourceJournalGap);
        }
        other => panic!("unexpected step {other:?}"),
    }
    let mut late = change("append");
    late.source_revision = 42;
    match journal_step(range(0), &vec![late], scope) {
        JournalStep::Decide { decision } => {
            assert_eq!(decision.reason, BuildClassificationReason::SourceJournalGap);
        }
        other => panic!("unexpected step {other:?}"),
    }
    let unknown = BaselineScope {
        scope_count: None,
        anchors_empty: false,
    };
    match journal_step(range(42), &Vec::new(), unknown) {
        JournalStep::Decide { decision } => assert_eq!(
            decision.reason,
            BuildClassificationReason::BaselineAnchorScopeManifestUnavailable
        ),
        other => panic!("unexpected step {other:?}"),
    }
    let empty = BaselineScope {
        scope_count: None,
        anchors_empty: true,
    };
    match journal_step(range(42), &Vec::new(), empty) {
        JournalStep::Decide { decision } => {
            assert_eq!(decision.kind, IncrementalBuildKind::Append);
            assert_eq!(decision.scope_count, Some(0));
        }
        other => panic!("unexpected step {other:?}"),
    }
}

fn run_state(phase: &str) -> DagRunState {
    DagRunState {
        initialized: 0,
        baseline_generation: Some(5),
        root_id: Some("root".to_owned()),
        build_kind: None,
        init_phase: phase.to_owned(),
    }
}

#[test]
fn every_phase_has_its_work() {
    let step = |phase: &str| begin_step(&run_state(phase), 7, 5, "root").unwrap();
    for phase in [
        "new",
        "full_reset",
        "manifest_refresh_reset",
        "manifest_branch_reset",
        "manifest_copy",
        "manifest_refresh_copy",
        "manifest_reset",
        "manifest_seed",
    ] {
        assert_eq!(step(phase), BeginStep::InitializeManifest);
    }
    assert_eq!(step("kind"), BeginStep::ChooseKind);
    assert_eq!(step("kind_journal"), BeginStep::ChooseKind);
    assert_eq!(step("scope"), BeginStep::ProcessScope);
    assert_eq!(step("delta_remove"), BeginStep::RemoveDelta);
    assert_eq!(step("delta_scope_remove"), BeginStep::RemoveDeltaScope);
    assert_eq!(step("delta_seed"), BeginStep::SeedDelta);
    assert_eq!(step("ports"), BeginStep::AdvanceLayout);
    assert_eq!(step("branches"), BeginStep::StageBranches);
    let error = begin_step(&run_state("paused"), 7, 5, "root").unwrap_err();
    assert_eq!(error.column, "dag_init_phase");
    assert_eq!(error.value, "paused");
}

#[test]
fn finished_set_up_belongs_to_its_baseline() {
    let mut state = run_state("complete");
    state.initialized = 1;
    state.build_kind = Some("append".to_owned());
    assert_eq!(
        begin_step(&state, 7, 5, "root"),
        Ok(BeginStep::Finished {
            kind: IncrementalBuildKind::Append
        })
    );
    let error = begin_step(&state, 7, 6, "root").unwrap_err();
    assert_eq!(error.column, "dag_build_identity");
    assert_eq!(error.value, "run_id=7");
    state.build_kind = Some("partial".to_owned());
    let error = begin_step(&state, 7, 5, "root").unwrap_err();
    assert_eq!(error.column, "dag_build_kind");
    assert_eq!(error.value, "partial");
}

#[test]
fn layout_phases_follow_each_other() {
    let change = advance_layout_initialization("rank_slots").unwrap();
    assert_eq!(change.to, InitPhase::Nodes);
    let change = advance_layout_initialization("ports").unwrap();
    assert_eq!(change.to, InitPhase::Branches);
    assert!(advance_layout_initialization("scope").is_err());
    assert_eq!(InitPhase::RankSlots.as_str(), "rank_slots");
}

#[test]
fn manifest_actions_follow_the_phase() {
    let action = |phase: &str, counter: i64, cursor: &str| {
        initialize_source_manifest(phase, counter, cursor, true)
    };
    assert_eq!(action("new", 0, ""), Ok(ManifestAction::Open));
    assert_eq!(action("full_reset", 0, ""), Ok(ManifestAction::ResetDelta));
    assert_eq!(
        action("manifest_refresh_reset", 0, ""),
        Ok(ManifestAction::ResetRefreshes)
    );
    assert_eq!(
        action("manifest_branch_reset", 0, ""),
        Ok(ManifestAction::ResetBranches)
    );
    assert_eq!(
        action("manifest_copy", 0, ""),
        Ok(ManifestAction::CopyNames { first: true })
    );
    assert_eq!(
        action("manifest_refresh_copy", 0, "junk"),
        Ok(ManifestAction::CopyRefreshes { after: None })
    );
    assert_eq!(
        action("manifest_refresh_copy", 128, "-300"),
        Ok(ManifestAction::CopyRefreshes { after: Some(-300) })
    );
    assert_eq!(
        action("manifest_refresh_copy", 128, "junk"),
        Err(StepFailure::Rollback)
    );
    assert_eq!(
        action("manifest_reset", 0, ""),
        Ok(ManifestAction::SkipReset)
    );
    assert_eq!(
        action("manifest_seed", 3, ""),
        Ok(ManifestAction::SeedBranches {
            changed_only: true,
            first: false
        })
    );
    assert_eq!(action("scope", 0, ""), Err(StepFailure::NotFound));
}

#[test]
fn resets_empty_one_table_after_the_other() {
    assert_eq!(full_reset_step(0, 128), ResetStep::Stop);
    assert_eq!(full_reset_step(0, 0), ResetStep::Next { table: 1 });
    assert_eq!(
        full_reset_step(5, 0),
        ResetStep::Advance {
            change: PhaseChange {
                from: InitPhase::FullReset,
                to: InitPhase::ManifestRefreshReset,
            }
        }
    );
    assert_eq!(
        manifest_reset_step(ManifestAction::ResetRefreshes, 128),
        ResetStep::Stop
    );
    assert_eq!(
        manifest_reset_step(ManifestAction::ResetBranches, 0),
        ResetStep::Advance {
            change: PhaseChange {
                from: InitPhase::ManifestBranchReset,
                to: InitPhase::ManifestCopy,
            }
        }
    );
}

fn frozen(removed: i32) -> FrozenBranch {
    FrozenBranch {
        contribution_generation: if removed == 0 { Some(1) } else { None },
        head_id: if removed == 0 {
            Some("head".to_owned())
        } else {
            None
        },
        state_json: if removed == 0 {
            Some("{}".to_owned())
        } else {
            None
        },
        removed,
    }
}

fn branch_name(name: &str, revision: i64) -> SourceBranchName {
    SourceBranchName {
        branch_name: name.to_owned(),
        first_source_revision: revision,
    }
}

#[test]
fn manifest_copies_present_branches() {
    let names = vec![
        branch_name("a", 1),
        branch_name("b", 1),
        branch_name("c", 2),
    ];
    let branches = vec![frozen(0), frozen(1), frozen(0)];
    assert_eq!(
        manifest_copy_page(&names, &branches),
        Ok(PageStep::Write {
            plan: PagePlan {
                rows: vec![0, 2],
                next_text: "c".to_owned(),
                next_row: 2,
                count: 3,
            }
        })
    );
    assert_eq!(
        manifest_copy_page(&Vec::new(), &Vec::new()),
        Ok(PageStep::Advance {
            change: PhaseChange {
                from: InitPhase::ManifestCopy,
                to: InitPhase::ManifestRefreshCopy,
            }
        })
    );
    let mut broken = frozen(1);
    broken.head_id = Some("head".to_owned());
    assert_eq!(frozen_branch_present(&broken), Err(StepFailure::Rollback));
    assert_eq!(
        manifest_copy_page(&vec![branch_name("a", 1)], &vec![broken]),
        Err(StepFailure::Rollback)
    );
    let mut broken = frozen(0);
    broken.state_json = None;
    assert_eq!(frozen_branch_present(&broken), Err(StepFailure::Rollback));
}

#[test]
fn refresh_cursor_is_read_back() {
    let refresh = |refresh_id: i64| ManifestRefresh {
        branch_name: "main".to_owned(),
        refresh_id,
        target_contribution_generation: 1,
        published_source_revision: refresh_id + 1,
    };
    let step = manifest_refresh_page(&vec![refresh(127), refresh(128)], &vec![false, true]);
    assert_eq!(
        step,
        PageStep::Write {
            plan: PagePlan {
                rows: vec![1],
                next_text: "128".to_owned(),
                next_row: 129,
                count: 2,
            }
        }
    );
    assert_eq!(
        initialize_source_manifest("manifest_refresh_copy", 2, "128", false),
        Ok(ManifestAction::CopyRefreshes { after: Some(128) })
    );
    assert!(matches!(
        manifest_refresh_page(&Vec::new(), &Vec::new()),
        PageStep::Advance { .. }
    ));
}

#[test]
fn seeds_and_metadata_move_the_cursor() {
    let names = vec!["a".to_owned(), "b".to_owned()];
    let plan = PagePlan {
        rows: vec![1],
        next_text: "b".to_owned(),
        next_row: 0,
        count: 2,
    };
    assert_eq!(
        manifest_seed_page(&names, &vec![false, true]),
        PageStep::Write { plan: plan.clone() }
    );
    assert_eq!(
        initialize_branch_metadata(&names, &vec![false, true]),
        PageStep::Write { plan }
    );
    assert_eq!(
        initialize_branch_metadata(&Vec::new(), &Vec::new()),
        PageStep::Advance {
            change: PhaseChange {
                from: InitPhase::Branches,
                to: InitPhase::Complete,
            }
        }
    );
}

fn removal(bound_frozen: i32, complete: i32) -> Option<BranchRemoval> {
    Some(BranchRemoval {
        branch_name: "stale".to_owned(),
        cursor: String::new(),
        refresh_id_cursor: -1,
        refresh_id_upper_bound: -1,
        bound_frozen,
        complete,
    })
}

#[test]
fn removal_freezes_its_bound_first() {
    assert_eq!(
        populate_delta_removal_batch(&None),
        Ok(RemovalAction::Advance {
            change: PhaseChange {
                from: InitPhase::DeltaRemove,
                to: InitPhase::DeltaSeed,
            }
        })
    );
    assert_eq!(
        populate_delta_removal_batch(&removal(0, 0)),
        Ok(RemovalAction::FreezeBound)
    );
    assert_eq!(
        populate_delta_removal_batch(&removal(1, 0)),
        Ok(RemovalAction::ReadCandidates)
    );
    assert_eq!(
        populate_delta_removal_batch(&removal(1, 1)),
        Err(StepFailure::NotFound)
    );
}

#[test]
fn removed_nodes_are_those_nobody_contributes() {
    let candidate = |node_id: &str, eligible: i32, in_baseline: bool, still_contributed: bool| {
        RemovalCandidate {
            refresh_id: 4,
            node_id: node_id.to_owned(),
            eligible,
            in_baseline,
            still_contributed,
        }
    };
    assert_eq!(removal_page(&Vec::new()), RemovalPage::Complete);
    assert_eq!(
        removal_page(&vec![
            candidate("a", 1, true, false),
            candidate("b", 0, true, false),
            candidate("c", 1, false, false),
            candidate("d", 1, true, true),
        ]),
        RemovalPage::Remove {
            rows: vec![0],
            cursor: "d".to_owned(),
            refresh_id_cursor: 4,
        }
    );
}

#[test]
fn scope_removal_records_what_is_left() {
    let advance = |scope_count: i64| ScopeRemovalAction::Advance {
        scope_count,
        change: PhaseChange {
            from: InitPhase::DeltaScopeRemove,
            to: InitPhase::RankSlots,
        },
    };
    assert_eq!(
        populate_delta_scope_removal_batch(&None, 130, 128),
        advance(2)
    );
    assert_eq!(
        populate_delta_scope_removal_batch(&None, 2, 128),
        advance(0)
    );
    let branch = |reuses_baseline: i32| {
        Some(ScopeRemoval {
            branch_name: "stale".to_owned(),
            cursor: String::new(),
            reuses_baseline,
        })
    };
    assert_eq!(
        populate_delta_scope_removal_batch(&branch(1), 0, 0),
        ScopeRemovalAction::Keep
    );
    assert_eq!(
        populate_delta_scope_removal_batch(&branch(0), 0, 0),
        ScopeRemovalAction::ReadScopes
    );
    assert_eq!(scope_removal_page(&Vec::new()), ScopeRemovalPage::Complete);
    assert_eq!(
        scope_removal_page(&vec!["a".to_owned(), "b".to_owned()]),
        ScopeRemovalPage::Remove {
            cursor: "b".to_owned()
        }
    );
    assert_eq!(count_removed(&vec![1, 0, 1, 1]), 3);
    assert!(leaves_anchors(false, false));
    assert!(!leaves_anchors(true, false));
    assert!(!leaves_anchors(false, true));
}

#[test]
fn new_nodes_are_those_the_baseline_lacks() {
    assert_eq!(
        populate_delta_node_batch(&None),
        DeltaAction::Advance {
            change: PhaseChange {
                from: InitPhase::DeltaSeed,
                to: InitPhase::ManifestSeed,
            }
        }
    );
    let node = |node_id: &str, in_baseline: bool| DeltaNode {
        node_id: node_id.to_owned(),
        in_baseline,
    };
    assert_eq!(delta_page(&Vec::new()), DeltaPage::Complete);
    assert_eq!(
        delta_page(&vec![node("a", true), node("b", false), node("c", true)]),
        DeltaPage::Seed {
            rows: vec![1],
            cursor: "c".to_owned(),
        }
    );
}

fn scope_item(node_expanded: i32, traversal_kind: &str) -> ScopeItem {
    ScopeItem {
        branch_name: "main".to_owned(),
        node_id: "node".to_owned(),
        traversal_kind: traversal_kind.to_owned(),
        node_expanded,
        parent_cursor: String::new(),
        child_cursor: "cursor".to_owned(),
    }
}

fn member() -> Membership {
    Membership {
        contributed: true,
        in_baseline_scope: false,
    }
}

fn in_baseline() -> Membership {
    Membership {
        contributed: false,
        in_baseline_scope: true,
    }
}

fn scope_node(start: SessionStart) -> Option<ScopeNode> {
    Some(ScopeNode {
        parent_id: "parent".to_owned(),
        membership: member(),
        parent_membership: member(),
        start,
        is_tool_use: true,
    })
}

fn no_session() -> SessionStart {
    SessionStart {
        is_session: false,
        has_active_skill: false,
        has_handoff: false,
    }
}

fn relative(node_id: &str, membership: Membership, is_skill_invocation: bool) -> ScopeRelative {
    ScopeRelative {
        node_id: node_id.to_owned(),
        membership,
        is_skill_invocation,
    }
}

fn full() -> BranchReuse {
    BranchReuse {
        append: false,
        replaced: false,
    }
}

#[test]
fn scope_expands_parents_before_children() {
    let parents = vec![
        relative("p", member(), false),
        relative("q", in_baseline(), false),
    ];
    let expansion = expand_scope_item(
        &scope_item(0, "graph"),
        full(),
        false,
        &scope_node(no_session()),
        &parents,
        &Vec::new(),
    );
    assert!(!expansion.reuses_baseline);
    assert!(expansion.enters_scope);
    assert!(expansion.queues_parent);
    assert_eq!(
        expansion.continuation,
        ScopeContinuation::Parents {
            rows: vec![0],
            cursor: "q".to_owned(),
        }
    );

    let children = vec![
        relative("c", member(), true),
        relative("d", member(), false),
        relative("e", in_baseline(), true),
    ];
    let expansion = expand_scope_item(
        &scope_item(1, "graph"),
        full(),
        false,
        &scope_node(no_session()),
        &Vec::new(),
        &children,
    );
    assert!(!expansion.enters_scope);
    assert_eq!(
        expansion.continuation,
        ScopeContinuation::Children {
            mark_expanded: false,
            rows: vec![0],
            cursor: "e".to_owned(),
            processed: false,
        }
    );
    let expansion = expand_scope_item(
        &scope_item(1, "skill_subtree"),
        BranchReuse {
            append: true,
            replaced: false,
        },
        false,
        &None,
        &Vec::new(),
        &children,
    );
    assert_eq!(
        expansion.continuation,
        ScopeContinuation::Children {
            mark_expanded: false,
            rows: vec![0, 1, 2],
            cursor: "e".to_owned(),
            processed: false,
        }
    );
    let expansion = expand_scope_item(
        &scope_item(0, "graph"),
        full(),
        false,
        &None,
        &Vec::new(),
        &Vec::new(),
    );
    assert_eq!(
        expansion.continuation,
        ScopeContinuation::Children {
            mark_expanded: true,
            rows: Vec::new(),
            cursor: "cursor".to_owned(),
            processed: true,
        }
    );
}

#[test]
fn scope_stops_where_the_baseline_is_reached() {
    let reuse = BranchReuse {
        append: true,
        replaced: false,
    };
    let expansion = expand_scope_item(
        &scope_item(0, "graph"),
        reuse,
        true,
        &scope_node(no_session()),
        &vec![relative("p", member(), false)],
        &Vec::new(),
    );
    assert!(expansion.reuses_baseline);
    assert!(!expansion.enters_scope);
    assert!(!expansion.queues_parent);
    assert_eq!(expansion.continuation, ScopeContinuation::Reached);

    let replaced = BranchReuse {
        append: true,
        replaced: true,
    };
    let expansion = expand_scope_item(
        &scope_item(0, "graph"),
        replaced,
        true,
        &scope_node(no_session()),
        &vec![relative("p", in_baseline(), false)],
        &Vec::new(),
    );
    assert!(!expansion.reuses_baseline);
    assert_eq!(
        expansion.continuation,
        ScopeContinuation::Parents {
            rows: Vec::new(),
            cursor: "p".to_owned(),
        }
    );
}

#[test]
fn scope_stops_at_the_start_of_a_session() {
    let queues = |has_active_skill: bool, has_handoff: bool| {
        expand_scope_item(
            &scope_item(0, "graph"),
            full(),
            false,
            &scope_node(SessionStart {
                is_session: true,
                has_active_skill,
                has_handoff,
            }),
            &Vec::new(),
            &Vec::new(),
        )
        .queues_parent
    };
    assert!(!queues(false, false));
    assert!(queues(true, false));
    assert!(!queues(true, true));
    assert_eq!(
        process_scope_batch(0),
        ScopeBatch::Advance {
            change: PhaseChange {
                from: InitPhase::Scope,
                to: InitPhase::DeltaScopeRemove,
            }
        }
    );
    assert_eq!(process_scope_batch(16), ScopeBatch::Expand { count: 16 });
}

#[test]
fn walk_starts_at_the_root_or_at_new_nodes() {
    assert_eq!(
        seed_incremental_frontier(IncrementalBuildKind::Full, 0),
        SeedStep::SeedRoot
    );
    assert_eq!(
        seed_incremental_frontier(IncrementalBuildKind::Append, 0),
        SeedStep::SeedPages
    );
    assert_eq!(
        seed_incremental_frontier(IncrementalBuildKind::Append, 1),
        SeedStep::EnqueueReady
    );
    let candidate = |node_id: &str, has_new_parent: bool| SeedCandidate {
        node_id: node_id.to_owned(),
        has_new_parent,
    };
    assert_eq!(
        append_seed_page(
            &vec![
                candidate("a", true),
                candidate("b", false),
                candidate("root", false)
            ],
            "root"
        ),
        SeedPage::Seeds {
            rows: vec![1],
            cursor: "root".to_owned(),
        }
    );
    assert_eq!(append_seed_page(&Vec::new(), "root"), SeedPage::Complete);
    assert_eq!(inserted_seed_count(&vec![1, 0, 1]), 2);
    assert_eq!(inserted_seed_count(&vec![usize::MAX, 1]), usize::MAX);
    assert_eq!(page_limit(128), 128);
    assert_eq!(page_limit(usize::MAX), i64::MAX);
}

#[test]
fn frontier_cursor_is_projected_then_expanded() {
    assert_eq!(
        process_frontier_cursor("node", Some(0)),
        Ok(CursorTurn::Project)
    );
    assert_eq!(
        process_frontier_cursor("node", Some(1)),
        Ok(CursorTurn::ExpandChildren)
    );
    let error = process_frontier_cursor("node", None).unwrap_err();
    assert_eq!(error.column, "work_node");
    assert_eq!(error.value, "node");
}

#[test]
fn stale_frontier_minimum_is_reported() {
    assert!(complete_frontier_minimum("a", &FrontierCompletion::Applied).is_ok());
    let error = complete_frontier_minimum(
        "a\"b",
        &FrontierCompletion::StaleMinimum {
            current: Some("c".to_owned()),
        },
    )
    .unwrap_err();
    assert_eq!(error.column, "frontier_minimum");
    assert_eq!(error.value, "expected \"a\\\"b\", current Some(\"c\")");
    let error =
        complete_frontier_minimum("a", &FrontierCompletion::StaleMinimum { current: None })
            .unwrap_err();
    assert_eq!(error.value, "expected \"a\", current None");
}

#[test]
fn lease_is_renewed_in_time() {
    assert!(require_build_lease(true, 41).is_ok());
    let error = require_build_lease(false, 41).unwrap_err();
    assert_eq!(error.column, "incremental_build_lease");
    assert_eq!(error.value, "generation 41 is no longer owned");
    assert!(should_renew_child_page_lease(128, 0, 1_000));
    assert!(should_renew_child_page_lease(1, 1_000, 1_000));
    assert!(!should_renew_child_page_lease(1, 999, 1_000));
    assert!(renews_after_projection_step(256));
    assert!(!renews_after_projection_step(255));
    assert_eq!(
        maintain_incremental_traversal(true, 10_000),
        Maintenance {
            flush: true,
            renew_lease: false,
            report_progress: true,
        }
    );
    assert_eq!(
        maintain_incremental_traversal(false, 0),
        Maintenance {
            flush: false,
            renew_lease: true,
            report_progress: false,
        }
    );
    assert_eq!(next_count(usize::MAX), usize::MAX);
    assert_eq!(next_count(1), 2);
}

#[test]
fn frontier_modes_have_names() {
    assert_eq!(frontier_mode_value(FrontierMode::HotAll), "in_memory");
    assert_eq!(
        frontier_mode_value(FrontierMode::Spilled),
        "external_sqlite"
    );
    assert!(log_frontier_storage_transition(
        FrontierMode::HotAll,
        FrontierMode::Spilled
    ));
    assert!(!log_frontier_storage_transition(
        FrontierMode::HotAll,
        FrontierMode::HotAll
    ));
}

fn related(node_id: &str, in_delta: bool, contributed: bool) -> Relative {
    Relative {
        node_id: node_id.to_owned(),
        in_delta,
        contributed,
    }
}

#[test]
fn parents_are_counted_page_by_page() {
    let parents = vec![
        related("a", true, false),
        related("b", false, true),
        related("root", true, true),
    ];
    let step = |kind: IncrementalBuildKind| {
        advance_parent_requirement_page(kind, "root", 0, &parents)
    };
    assert_eq!(
        step(IncrementalBuildKind::Append),
        RequirementStep::Count {
            added: 1,
            cursor: "root".to_owned(),
        }
    );
    assert_eq!(
        step(IncrementalBuildKind::Full),
        RequirementStep::Count {
            added: 2,
            cursor: "root".to_owned(),
        }
    );
    assert_eq!(
        advance_parent_requirement_page(IncrementalBuildKind::Full, "root", 1, &parents),
        RequirementStep::Counted
    );
    assert_eq!(
        advance_parent_requirement_page(IncrementalBuildKind::Full, "root", 0, &Vec::new()),
        RequirementStep::Complete
    );
}

#[test]
fn child_becomes_ready_after_its_last_parent() {
    let child = WorkNode {
        remaining_parents: 2,
        requirements_complete: 1,
        processed: 0,
    };
    assert!(!is_ready(child, false, false));
    let once = satisfy_parent(child, false).unwrap();
    assert_eq!(once.remaining_parents, 1);
    let again = satisfy_parent(once, true).unwrap();
    assert_eq!(again, once);
    let twice = satisfy_parent(again, false).unwrap();
    assert!(is_ready(twice, false, false));
    assert!(!is_ready(twice, true, false));
    assert!(!is_ready(twice, false, true));
    assert_eq!(satisfy_parent(twice, false), Err(StepFailure::NotFound));
}

#[test]
fn child_pages_are_committed_once() {
    assert!(commit_child_page(0, "b", "b"));
    assert!(!commit_child_page(1, "b", "b"));
    assert!(!commit_child_page(0, "c", "b"));
    let page = discover_ready_child_page(
        IncrementalBuildKind::Append,
        "b",
        &vec![related("c", true, false), related("d", false, true)],
    );
    assert_eq!(page.rows, vec![0]);
    assert_eq!(page.cursor, "d");
    assert!(!page.complete);
    let page = discover_ready_child_page(IncrementalBuildKind::Full, "d", &Vec::new());
    assert_eq!(page.cursor, "d");
    assert!(page.complete);
}

fn projection(phase: &str) -> Option<ProjectionState> {
    Some(ProjectionState {
        remaining_parents: 0,
        processed: 0,
        projection_complete: 0,
        projection_phase: phase.to_owned(),
        raw_cursor: -1,
        edge_order_cursor: -1,
        edge_source_cursor: String::new(),
        required_rank: 3,
    })
}

#[test]
fn projection_follows_its_phases() {
    let step = |phase: &str| process_node("node", &projection(phase), false).unwrap();
    assert_eq!(step("all_prepare"), ProjectionAction::Prepare);
    assert_eq!(
        step("all_rank"),
        ProjectionAction::Rank {
            mode: GraphMode::All
        }
    );
    assert_eq!(
        step("all_node"),
        ProjectionAction::Place {
            mode: GraphMode::All,
            required_rank: 3
        }
    );
    assert_eq!(
        step("all_edges"),
        ProjectionAction::WriteEdges {
            mode: GraphMode::All
        }
    );
    assert_eq!(step("anchor_prepare"), ProjectionAction::ResolveAnchors);
    assert_eq!(
        step("anchor_rank"),
        ProjectionAction::Rank {
            mode: GraphMode::Anchors
        }
    );
    assert_eq!(
        step("anchor_node"),
        ProjectionAction::Place {
            mode: GraphMode::Anchors,
            required_rank: 3
        }
    );
    assert_eq!(
        step("anchor_edges"),
        ProjectionAction::WriteEdges {
            mode: GraphMode::Anchors
        }
    );
    assert_eq!(
        process_node("root", &projection("all_prepare"), true),
        Ok(ProjectionAction::CompleteRoot)
    );
}

#[test]
fn projection_refuses_what_is_not_ready() {
    let error = process_node("node", &None, false).unwrap_err();
    assert_eq!(error.column, "work_node");
    let mut waiting = projection("all_prepare").unwrap();
    waiting.remaining_parents = 2;
    let error = process_node("node", &Some(waiting), true).unwrap_err();
    assert_eq!(error.column, "ready_node");
    assert_eq!(
        error.value,
        "node remaining=2 processed=0 projection_complete=0"
    );
    let error = process_node("node", &projection("complete"), false).unwrap_err();
    assert_eq!(error.column, "projection_phase");
    assert_eq!(error.value, "node:complete");
}

fn merge_parents(count: usize) -> Vec<MergeParent> {
    (0..count)
        .map(|index| MergeParent {
            node_id: format!("parent-{index}"),
            is_shadow: index % 2 == 1,
        })
        .collect()
}

fn edge(source_id: &str, edge_kind: &str, edge_order: i32) -> ProjectionEdge {
    ProjectionEdge {
        source_id: source_id.to_owned(),
        edge_kind: edge_kind.to_owned(),
        edge_order,
    }
}

#[test]
fn raw_edges_are_read_in_pages() {
    let merges = merge_parents(130);
    let first = raw_projection_edge_page("primary", &merges, -1, 1_000);
    assert_eq!(first.len(), 128);
    assert_eq!(first[0], edge("primary", "primary", 0));
    assert_eq!(first[1], edge("parent-0", "merge", 1));
    assert_eq!(first[2], edge("parent-1", "shadow", 2));
    let cursor = i64::from(first.last().unwrap().edge_order);
    assert_eq!(cursor, 127);
    let second = raw_projection_edge_page("primary", &merges, cursor, 1_000);
    assert_eq!(second.len(), 3);
    assert_eq!(second[2], edge("parent-129", "shadow", 130));
    assert!(raw_projection_edge_page("primary", &merges, 130, 1_000).is_empty());
    assert!(raw_projection_edge_page("primary", &merges, -2, 1_000).is_empty());
    assert_eq!(
        raw_projection_edge_page("primary", &merges, -1, 64).len(),
        64
    );
}

#[test]
fn drawn_edges_have_visible_sources() {
    let page = vec![
        edge("a", "primary", 0),
        edge("", "merge", 1),
        edge("root", "merge", 2),
        edge("node", "merge", 3),
        edge("b", "merge", 4),
    ];
    let source = |processed: bool, in_baseline: bool| EdgeSource {
        processed,
        in_baseline,
    };
    let sources = vec![
        source(true, false),
        source(true, true),
        source(true, true),
        source(true, true),
        source(false, true),
    ];
    assert_eq!(
        commit_all_projection_edge_page(&page, &sources, "root", "node", false),
        PrepareStep::Draw {
            rows: vec![0],
            cursor: 4,
        }
    );
    assert_eq!(
        commit_all_projection_edge_page(&page, &sources, "root", "node", true),
        PrepareStep::Draw {
            rows: vec![0, 4],
            cursor: 4,
        }
    );
    assert_eq!(
        commit_all_projection_edge_page(&Vec::new(), &Vec::new(), "root", "node", true),
        PrepareStep::Advance {
            change: ProjectionChange {
                from: ProjectionPhase::AllPrepare,
                to: ProjectionPhase::AllRank,
                resets_rank: true,
            }
        }
    );
}

#[test]
fn rank_is_behind_every_source() {
    let page = vec![edge("a", "primary", 0), edge("b", "merge", 1)];
    assert_eq!(
        projection_page_required_rank(GraphMode::All, &page, &vec![Some(4), Some(2)]),
        Ok(5)
    );
    assert_eq!(
        projection_page_required_rank(GraphMode::All, &page, &vec![Some(i32::MAX), Some(2)]),
        Ok(i32::MAX)
    );
    let error = projection_page_required_rank(GraphMode::Anchors, &page, &vec![Some(4), None])
        .unwrap_err();
    assert_eq!(error.column, "layout_parent");
    assert_eq!(error.value, "anchors:b");
    assert_eq!(
        checkpoint_projection_rank_page(GraphMode::All, 7, 5, &page),
        RankStep::Checkpoint {
            required_rank: 7,
            edge_order_cursor: 1,
            edge_source_cursor: "b".to_owned(),
        }
    );
    assert_eq!(
        checkpoint_projection_rank_page(GraphMode::Anchors, 7, 0, &Vec::new()),
        RankStep::Advance {
            change: ProjectionChange {
                from: ProjectionPhase::AnchorRank,
                to: ProjectionPhase::AnchorNode,
                resets_rank: false,
            }
        }
    );
}

#[test]
fn visible_anchors_go_on_after_all_edges() {
    assert_eq!(
        checkpoint_projection_edge_page(GraphMode::All, &Vec::new(), true),
        EdgesStep::Advance {
            change: ProjectionChange {
                from: ProjectionPhase::AllEdges,
                to: ProjectionPhase::AnchorPrepare,
                resets_rank: false,
            }
        }
    );
    assert_eq!(
        checkpoint_projection_edge_page(GraphMode::All, &Vec::new(), false),
        EdgesStep::Complete {
            from: ProjectionPhase::AllEdges
        }
    );
    assert_eq!(
        checkpoint_projection_edge_page(GraphMode::Anchors, &Vec::new(), true),
        EdgesStep::Complete {
            from: ProjectionPhase::AnchorEdges
        }
    );
    assert_eq!(
        checkpoint_projection_edge_page(GraphMode::All, &vec![edge("a", "primary", 0)], true),
        EdgesStep::Write {
            edge_order_cursor: 0,
            edge_source_cursor: "a".to_owned(),
        }
    );
    assert!(is_visible_anchor(true, true, false, false));
    assert!(is_visible_anchor(true, false, true, true));
    assert!(!is_visible_anchor(true, false, false, true));
    assert!(!is_visible_anchor(false, true, true, true));
    assert_eq!(
        finish_node_placement(GraphMode::All).to,
        ProjectionPhase::AllEdges
    );
}

#[test]
fn anchors_are_searched_upwards() {
    let state = |raw_complete: i32, resolution_complete: i32| AnchorProjection {
        raw_cursor: 63,
        raw_complete,
        resolution_complete,
    };
    assert_eq!(
        advance_anchor_resolution(state(0, 0)),
        AnchorAction::RecordRaw { cursor: 63 }
    );
    assert_eq!(
        advance_anchor_resolution(state(1, 0)),
        AnchorAction::Resolve
    );
    assert!(matches!(
        advance_anchor_resolution(state(1, 1)),
        AnchorAction::Advance { .. }
    ));
    assert!(complete_anchor_resolution(0).unwrap().resets_rank);
    assert_eq!(complete_anchor_resolution(1), None);

    let page = vec![edge("", "primary", 0), edge("a", "merge", 1)];
    assert_eq!(
        commit_anchor_raw_edge_page(state(0, 0), 63, &page),
        RawEdgeStep::Record {
            rows: vec![1],
            cursor: 1,
        }
    );
    assert_eq!(
        commit_anchor_raw_edge_page(state(0, 0), 62, &page),
        RawEdgeStep::Skip
    );
    assert_eq!(
        commit_anchor_raw_edge_page(state(0, 0), 63, &Vec::new()),
        RawEdgeStep::Complete
    );

    let ancestor = |parent_id: &str, is_anchor: bool| {
        Some(Ancestor {
            parent_id: parent_id.to_owned(),
            is_anchor,
        })
    };
    assert_eq!(
        commit_anchor_resolution(true, &ancestor("up", false), "a", "node"),
        AncestorStep::Climb {
            parent_id: "up".to_owned()
        }
    );
    assert_eq!(
        commit_anchor_resolution(true, &ancestor("up", true), "a", "node"),
        AncestorStep::Found
    );
    assert_eq!(
        commit_anchor_resolution(true, &ancestor("up", true), "node", "node"),
        AncestorStep::Complete
    );
    assert_eq!(
        commit_anchor_resolution(true, &ancestor("", false), "a", "node"),
        AncestorStep::Complete
    );
    assert_eq!(
        commit_anchor_resolution(false, &ancestor("up", true), "a", "node"),
        AncestorStep::Complete
    );
    assert_eq!(
        commit_anchor_resolution(true, &None, "a", "node"),
        AncestorStep::Complete
    );

    let rank = |edge_order: i32, ancestor_depth: i32| AnchorEdgeRank {
        edge_order,
        ancestor_depth,
    };
    assert!(anchor_edge_takes_place(rank(0, 5), rank(1, 0)));
    assert!(anchor_edge_takes_place(rank(1, 0), rank(1, 2)));
    assert!(!anchor_edge_takes_place(rank(1, 2), rank(1, 2)));
}

#[test]
fn placed_nodes_keep_or_leave_their_slots() {
    let config = StableLayoutConfig::default();
    let slot = new_slot(config, 2, 1);
    assert_eq!(
        slot,
        Slot {
            rank: 2,
            row: 1,
            x: layout_coordinate(config.padding, 2, config.rank_step),
            y: layout_coordinate(config.padding, 1, config.row_step),
        }
    );
    assert_eq!(layout_coordinate(56, -3, 84), 56);
    assert_eq!(layout_coordinate(56, 2, 84), 224);
    assert_eq!(layout_coordinate(56, i32::MAX, 84), i32::MAX);
    assert_eq!(
        place_node_at_rank(9, GraphMode::All, "node", Some(slot), 2),
        Placement::Keep { slot }
    );
    assert_eq!(
        place_node_at_rank(9, GraphMode::All, "node", Some(slot), 3),
        Placement::Place {
            tombstone: Some("tombstone:9:all:2:1:node".to_owned()),
            rank: 3,
        }
    );
    assert_eq!(
        place_node_at_rank(9, GraphMode::Anchors, "node", None, 0),
        Placement::Place {
            tombstone: None,
            rank: 0,
        }
    );
    assert_eq!(next_free(None, None), 0);
    assert_eq!(next_free(Some(3), Some(7)), 8);
    assert_eq!(next_free(Some(9), None), 10);
}

#[test]
fn edges_keep_or_take_ports() {
    let ports = EdgePorts {
        source_slot: 1,
        target_slot: 2,
    };
    let last = |staged: Option<i32>, baseline: Option<i32>| LastPorts { staged, baseline };
    assert_eq!(
        assign_ports(Some(ports), last(Some(5), None), last(None, None)),
        PortStep::Keep { ports }
    );
    assert_eq!(
        assign_ports(None, last(Some(5), Some(2)), last(None, None)),
        PortStep::Assign {
            ports: EdgePorts {
                source_slot: 6,
                target_slot: 0,
            }
        }
    );
    assert_eq!(stored_edge_kind("merge"), Ok(StableEdgeKind::Merge));
    let error = stored_edge_kind("other").unwrap_err();
    assert_eq!(error.column, "edge_kind");
    assert_eq!(error.value, "other");
}

fn graph_node() -> GraphNode {
    GraphNode {
        id: "node".to_owned(),
        node_target: "node-node".to_owned(),
        short_id: "node".to_owned(),
        kind: "text".to_owned(),
        role: "user".to_owned(),
        created_at: "2026-08-06T09:00:00Z".to_owned(),
        created_at_ns: 12,
        content: "hello".to_owned(),
        summary: "hello".to_owned(),
        labels: vec!["main".to_owned()],
        provider_context_ids: Vec::new(),
    }
}

#[test]
fn buffered_items_are_laid_out() {
    let config = StableLayoutConfig::default();
    let source = new_slot(config, 0, 0);
    let target = new_slot(config, 1, 2);
    let node = buffer_projection_node(&graph_node(), target);
    assert_eq!(node.rank, 1);
    assert_eq!(node.order, 2);
    assert_eq!(
        node.point,
        Point {
            x: target.x,
            y: target.y
        }
    );
    assert_eq!(node.labels, vec!["main".to_owned()]);

    let (from, to, kind) = edge_ends(
        &edge("a", "shadow", 0),
        "node",
        Some(source),
        Some(target),
    )
    .unwrap();
    let ports = EdgePorts {
        source_slot: 1,
        target_slot: -1,
    };
    let edge_item = buffer_projection_edge("a", "node", kind, from, to, ports, config);
    assert_eq!(edge_item.kind, GraphLayoutEdgeKind::Shadow);
    let route = route_edge(
        LayoutPoint {
            x: source.x,
            y: source.y,
        },
        LayoutPoint {
            x: target.x,
            y: target.y,
        },
        EndpointPortSlots {
            source: 1,
            target: 0,
        },
        config,
    );
    assert_eq!(edge_item.route.control_1.x, route.control_1.x);
    assert_eq!(edge_item.route.target.y, route.target.y);

    let missing = edge_ends(&edge("a", "shadow", 0), "node", None, Some(target)).unwrap_err();
    assert_eq!(missing.column, "edge_source");
    assert_eq!(missing.value, "a");
    let missing = edge_ends(&edge("a", "shadow", 0), "node", None, None).unwrap_err();
    assert_eq!(missing.column, "edge_target");
    assert_eq!(missing.value, "node");
    let unknown =
        edge_ends(&edge("a", "other", 0), "node", Some(source), Some(target)).unwrap_err();
    assert_eq!(unknown.column, "edge_kind");
}

#[test]
fn buffer_is_flushed_at_its_limit() {
    let config = StableLayoutConfig::default();
    let slot = new_slot(config, 0, 0);
    let mut buffer = GraphBuffer::new(2);
    assert!(!buffer.push_buffered_node(
        GraphMode::All,
        buffer_projection_node(&graph_node(), slot)
    ));
    assert_eq!(buffer.len(), 1);
    let ports = EdgePorts {
        source_slot: 0,
        target_slot: 0,
    };
    assert!(buffer.push_buffered_edge(
        GraphMode::Anchors,
        buffer_projection_edge("a", "node", StableEdgeKind::Primary, slot, slot, ports, config)
    ));
    assert!(buffer.should_flush());
    let batches = buffer.flush_graph_buffer();
    assert_eq!(batches.len(), 2);
    assert_eq!(batches[0].mode, GraphMode::Anchors);
    assert_eq!(batches[0].edges.len(), 1);
    assert_eq!(batches[1].mode, GraphMode::All);
    assert_eq!(batches[1].nodes[0].node_id, "node");
    assert_eq!(buffer.len(), 0);
    assert!(buffer.flush_graph_buffer().is_empty());
    assert_eq!(GraphBuffer::new(0).limit, 1);
}

#[test]
fn finalization_follows_its_phases() {
    assert_eq!(
        finalize_incremental_build("traversal"),
        Ok(FinalizeAction::BeginPorts)
    );
    assert_eq!(
        finalize_incremental_build("ports"),
        Ok(FinalizeAction::CopyPorts)
    );
    assert_eq!(
        finalize_incremental_build("labels"),
        Ok(FinalizeAction::LabelBranch)
    );
    assert_eq!(
        finalize_incremental_build("anchors"),
        Ok(FinalizeAction::FinishMode {
            mode: GraphMode::Anchors,
            next: FinalizePhase::All,
        })
    );
    assert_eq!(
        finalize_incremental_build("all"),
        Ok(FinalizeAction::FinishMode {
            mode: GraphMode::All,
            next: FinalizePhase::Ready,
        })
    );
    assert_eq!(
        finalize_incremental_build("ready"),
        Ok(FinalizeAction::Done)
    );
    let error = finalize_incremental_build("other").unwrap_err();
    assert_eq!(error.column, "dag_finalize_phase");
    assert_eq!(error.value, "other");
    assert_eq!(
        copy_port_batch(&Vec::new()),
        PortCopyStep::Advance {
            next: FinalizePhase::Labels
        }
    );
    let row = PortCopy {
        mode: "all".to_owned(),
        edge_key: "edge".to_owned(),
        source_id: "a".to_owned(),
        target_id: "b".to_owned(),
        source_slot: 0,
        target_slot: 0,
    };
    assert_eq!(
        copy_port_batch(&vec![row]),
        PortCopyStep::Copy {
            mode: "all".to_owned(),
            edge_key: "edge".to_owned(),
        }
    );
}

fn labelled(phase: &str) -> LabelledBranch {
    LabelledBranch {
        name: "main".to_owned(),
        head_id: "head".to_owned(),
        resolution_phase: phase.to_owned(),
        anchor_id: Some("anchor".to_owned()),
        head_processed: false,
        head_placed: true,
    }
}

fn candidate(branch: Option<LabelledBranch>) -> Option<LabelCandidate> {
    Some(LabelCandidate {
        inspected_cursor: "main".to_owned(),
        branch,
    })
}

#[test]
fn branches_are_labelled_in_turn() {
    let step = |kind: IncrementalBuildKind, candidate: &Option<LabelCandidate>| {
        apply_branch_label_batch(kind, "root", "", candidate).unwrap()
    };
    assert_eq!(
        step(IncrementalBuildKind::Full, &None),
        LabelStep::Advance {
            next: FinalizePhase::Anchors
        }
    );
    assert_eq!(
        step(IncrementalBuildKind::Append, &candidate(None)),
        LabelStep::Pass {
            cursor: "main".to_owned()
        }
    );
    assert_eq!(
        step(
            IncrementalBuildKind::Full,
            &candidate(Some(labelled("ancestry")))
        ),
        LabelStep::Climb
    );
    assert_eq!(
        step(
            IncrementalBuildKind::Append,
            &candidate(Some(labelled("ready")))
        ),
        LabelStep::Assign {
            head_id: Some("head".to_owned()),
            anchor_id: Some("anchor".to_owned()),
            cursor: "main".to_owned(),
        }
    );
    assert_eq!(
        step(
            IncrementalBuildKind::Full,
            &candidate(Some(labelled("ready")))
        ),
        LabelStep::Assign {
            head_id: None,
            anchor_id: Some("anchor".to_owned()),
            cursor: "main".to_owned(),
        }
    );
    let error = apply_branch_label_batch(
        IncrementalBuildKind::Full,
        "root",
        "",
        &candidate(Some(labelled("lost"))),
    )
    .unwrap_err();
    assert_eq!(error.column, "branch_label_resolution_phase");
    assert_eq!(error.value, "lost");
    let error =
        apply_branch_label_batch(IncrementalBuildKind::Full, "root", "all", &None).unwrap_err();
    assert_eq!(error.column, "dag_finalize_mode");
    assert_eq!(error.value, "all");
}

#[test]
fn branch_anchor_is_searched_upwards() {
    let node = |is_anchor: bool, parent_in_build_scope: bool| AncestryNode {
        parent_id: "up".to_owned(),
        is_anchor,
        parent_in_build_scope,
        parent_in_baseline_scope: true,
    };
    let ancestry = |current: &str, anchor: Option<&str>, ready: bool| Ancestry {
        current_node_id: current.to_owned(),
        anchor_id: anchor.map(str::to_owned),
        ready,
    };
    assert_eq!(
        advance_branch_label_resolution(true, "head", &node(true, true), full()),
        ancestry("head", Some("head"), true)
    );
    assert_eq!(
        advance_branch_label_resolution(true, "head", &node(false, true), full()),
        ancestry("up", None, false)
    );
    assert_eq!(
        advance_branch_label_resolution(true, "head", &node(false, false), full()),
        ancestry("", None, true)
    );
    assert_eq!(
        advance_branch_label_resolution(
            true,
            "head",
            &node(false, false),
            BranchReuse {
                append: true,
                replaced: false,
            }
        ),
        ancestry("up", None, false)
    );
    assert_eq!(
        advance_branch_label_resolution(false, "head", &node(true, true), full()),
        ancestry("", None, true)
    );
    assert_eq!(ensure_branch_label_resolution(true, full(), false), "ancestry");
    assert_eq!(ensure_branch_label_resolution(false, full(), true), "ready");
}

#[test]
fn build_stats_tell_what_was_reused() {
    let frontier = FrontierMetrics {
        hot_to_spilled: 1,
        spilled_to_hot: 2,
        max_hot_len: 3,
        requested_pushes: 4,
        distinct_pushes: 5,
        inserted_pushes: 6,
        repeated_within_batch_pushes: 7,
        already_seen_pushes: 8,
    };
    let stats = build_stats(
        IncrementalBuildKind::Append,
        3,
        10,
        2,
        BuildClassificationReason::SourceJournalDeltaCompatible,
        frontier,
    );
    assert!(stats.reused_baseline);
    assert_eq!(stats.frontier, frontier);
    assert_eq!(stats.processed_nodes, 3);
    assert_eq!(stats.all_nodes, 10);
    assert_eq!(stats.anchors_nodes, 2);
}

#[test]
fn stored_values_are_checked() {
    assert_eq!(require_single_update(1), Ok(()));
    assert_eq!(require_single_update(0), Err(StepFailure::NotFound));
    assert_eq!(require_build_fence(1), Ok(()));
    assert_eq!(require_build_fence(0), Err(StepFailure::NotFound));
    assert_eq!(count_as_i64(3), 3);
    assert_eq!(record_discovered_nodes(0), None);
    assert_eq!(record_discovered_nodes(2), Some(2));
    assert_eq!(saturating_i64(i128::MAX), i64::MAX);
    assert_eq!(saturating_i64(i128::MIN), i64::MIN);
    assert_eq!(saturating_i64(-5), -5);
    assert_eq!(stored_node_count("count", 7), Ok(7));
    let error = stored_node_count("count", -7).unwrap_err();
    assert_eq!(error.column, "count");
    assert_eq!(error.value, "-7");
    assert_eq!(
        dag_progress(5, 4),
        Ok(DagProgress {
            discovered_nodes: 5,
            processed_nodes: 4,
        })
    );
    assert_eq!(
        dag_progress(-1, 4).unwrap_err().column,
        "dag_discovered_node_count"
    );
    assert_eq!(
        dag_progress(5, -1).unwrap_err().column,
        "dag_processed_node_count"
    );
}

#[test]
fn completion_needs_every_node() {
    let progress = |discovered_nodes: usize, processed_nodes: usize| DagProgress {
        discovered_nodes,
        processed_nodes,
    };
    assert!(validate_incremental_completion(progress(4, 4), false).is_ok());
    let error = validate_incremental_completion(progress(4, 3), true).unwrap_err();
    assert_eq!(error.column, "incremental_graph");
    assert_eq!(
        error.value,
        "processed=3 discovered=4 has_unprocessed_nodes=true"
    );
}

#[test]
fn build_limits_are_checked() {
    let config = IncrementalBuildConfig::default();
    assert!(validate_incremental_build_config(config).is_ok());
    let error = validate_incremental_build_config(IncrementalBuildConfig {
        graph_buffer_limit: 0,
        ..config
    })
    .unwrap_err();
    assert_eq!(error.column, "incremental_build_config");
    assert_eq!(
        error.value,
        "graph_buffer_limit=0 child_page_size=128 frontier_high_watermark=8192"
    );
}

#[test]
fn stored_kinds_and_reasons_are_read_back() {
    assert_eq!(
        stored_build_kind(Some("full")),
        Ok(IncrementalBuildKind::Full)
    );
    assert_eq!(stored_build_kind(None), Err(()));
    let reason = BuildClassificationReason::SourceJournalGap;
    assert_eq!(reason.as_str(), "source_change_journal_gap");
    assert_eq!(
        stored_build_classification_reason(reason.as_str()),
        Ok(reason)
    );
    assert_eq!(stored_build_classification_reason("other"), Err(()));
}

#[test]
fn pages_read_every_row_once() {
    let rows = (0..300)
        .map(|index| DeltaNode {
            node_id: format!("node-{index:03}"),
            in_baseline: index % 3 == 0,
        })
        .collect::<Vec<_>>();
    for limit in [1, 7, 128, 1_000] {
        let mut cursor = String::new();
        let mut written = Vec::new();
        loop {
            let page = rows
                .iter()
                .filter(|row| row.node_id > cursor)
                .take(limit)
                .cloned()
                .collect::<Vec<_>>();
            match delta_page(&page) {
                DeltaPage::Complete => break,
                DeltaPage::Seed { rows, cursor: next } => {
                    written.extend(rows.into_iter().map(|row| page[row].node_id.clone()));
                    cursor = next;
                }
            }
        }
        let expected = rows
            .iter()
            .filter(|row| !row.in_baseline)
            .map(|row| row.node_id.clone())
            .collect::<Vec<_>>();
        assert_eq!(written, expected);
    }
}

#[test]
fn delta_shows_what_is_contributed() {
    let baseline = BTreeSet::from(["a", "b", "c", "d"]);
    let contributed = BTreeSet::from(["b", "d", "e", "f"]);
    let candidates = ["a", "b", "c"]
        .into_iter()
        .map(|node_id| RemovalCandidate {
            refresh_id: 1,
            node_id: node_id.to_owned(),
            eligible: 1,
            in_baseline: baseline.contains(node_id),
            still_contributed: contributed.contains(node_id),
        })
        .collect::<Vec<_>>();
    let nodes = ["b", "e", "f"]
        .into_iter()
        .map(|node_id| DeltaNode {
            node_id: node_id.to_owned(),
            in_baseline: baseline.contains(node_id),
        })
        .collect::<Vec<_>>();
    let mut shown = baseline
        .iter()
        .map(|node_id| (*node_id).to_owned())
        .collect::<BTreeSet<_>>();
    match removal_page(&candidates) {
        RemovalPage::Remove { rows, .. } => {
            for row in rows {
                shown.remove(&candidates[row].node_id);
            }
        }
        RemovalPage::Complete => panic!("candidates should be read"),
    }
    match delta_page(&nodes) {
        DeltaPage::Seed { rows, .. } => {
            for row in rows {
                shown.insert(nodes[row].node_id.clone());
            }
        }
        DeltaPage::Complete => panic!("nodes should be read"),
    }
    let expected = contributed
        .iter()
        .map(|node_id| (*node_id).to_owned())
        .collect::<BTreeSet<_>>();
    assert_eq!(shown, expected);
}

/// A chain of nodes, each the primary parent of the next, searched from its last node.
fn search_chain(reuse: BranchReuse, in_baseline: &dyn Fn(usize) -> bool) -> BTreeSet<usize> {
    let membership = |node: usize| Membership {
        contributed: true,
        in_baseline_scope: in_baseline(node),
    };
    let mut visited = BTreeSet::from([6usize]);
    let mut queue = vec![6usize];
    while let Some(node) = queue.pop() {
        let item = ScopeItem {
            branch_name: "main".to_owned(),
            node_id: node.to_string(),
            traversal_kind: "graph".to_owned(),
            node_expanded: 0,
            parent_cursor: String::new(),
            child_cursor: String::new(),
        };
        let scope_node = Some(ScopeNode {
            parent_id: if node == 0 {
                String::new()
            } else {
                (node - 1).to_string()
            },
            membership: membership(node),
            parent_membership: membership(node.saturating_sub(1)),
            start: no_session(),
            is_tool_use: false,
        });
        let expansion = expand_scope_item(
            &item,
            reuse,
            in_baseline(node),
            &scope_node,
            &Vec::new(),
            &Vec::new(),
        );
        if expansion.queues_parent && visited.insert(node - 1) {
            queue.push(node - 1);
        }
    }
    visited
}

#[test]
fn reused_scope_matches_a_full_search() {
    let in_baseline = |node: usize| node <= 3;
    let complete = search_chain(full(), &in_baseline);
    let mut reused = search_chain(
        BranchReuse {
            append: true,
            replaced: false,
        },
        &in_baseline,
    );
    assert_eq!(reused, BTreeSet::from([3, 4, 5, 6]));
    reused.extend((0..=6).filter(|node| in_baseline(*node)));
    assert_eq!(reused, complete);
}

#[test]
fn walk_processes_parents_first() {
    let parents = [vec![], vec![0], vec![0], vec![1, 2], vec![3, 0]];
    let mut work = parents
        .iter()
        .map(|required| WorkNode {
            remaining_parents: required.len() as i32,
            requirements_complete: 1,
            processed: 0,
        })
        .collect::<Vec<_>>();
    let mut order = Vec::new();
    let mut known = BTreeSet::new();
    while order.len() < parents.len() {
        let node = (0..parents.len())
            .rev()
            .find(|node| is_ready(work[*node], order.contains(node), false))
            .expect("a walk without cycles goes on");
        for required in &parents[node] {
            assert!(order.contains(required));
        }
        work[node].processed = 1;
        order.push(node);
        for child in 0..parents.len() {
            if parents[child].contains(&node) {
                for _ in 0..2 {
                    let already = !known.insert((node, child));
                    work[child] = satisfy_parent(work[child], already).unwrap();
                }
            }
        }
    }
    assert_eq!(order, vec![0, 2, 1, 3, 4]);
}

#[test]
fn journal_pages_find_the_same_gaps() {
    for journal in [
        vec![41, 41, 42, 43, 43, 44],
        vec![41, 42, 44, 45],
        vec![42, 43],
        vec![41, 40],
    ] {
        let whole = journal_page_is_contiguous(40, 0, &journal);
        for split in 0..=journal.len() {
            let (first, second) = (journal[..split].to_vec(), journal[split..].to_vec());
            let cursor = first.last().copied().unwrap_or(0);
            let parts = journal_page_is_contiguous(40, 0, &first)
                && journal_page_is_contiguous(40, cursor, &second);
            assert_eq!(parts, whole);
        }
    }
}

#[test]
fn tombstones_have_names_of_their_own() {
    let mut names = BTreeSet::new();
    for (rank, row, node_id) in [
        (1, 2, "a"),
        (12, 2, "a"),
        (1, 22, "a"),
        (1, 2, "2:a"),
        (-1, 2, "a"),
    ] {
        let slot = Slot {
            rank,
            row,
            x: 0,
            y: 0,
        };
        assert!(names.insert(retire_slot(9, GraphMode::All, node_id, slot)));
    }
}

#[test]
fn first_found_anchor_edge_does_not_matter() {
    let rank = |edge_order: i32, ancestor_depth: i32| AnchorEdgeRank {
        edge_order,
        ancestor_depth,
    };
    let keep = |old: AnchorEdgeRank, new: AnchorEdgeRank| {
        if anchor_edge_takes_place(new, old) {
            new
        } else {
            old
        }
    };
    let edges = [rank(2, 0), rank(1, 7), rank(1, 3)];
    for first in edges {
        for second in edges {
            for third in edges {
                assert_eq!(
                    keep(keep(first, second), third),
                    keep(keep(third, second), first)
                );
            }
        }
    }
}

#[test]
fn changes_of_a_branch_follow_each_other() {
    let replaced = stage_branch_journal_change(&change("replace"), &stage(point("old", 3)), true);
    let ChangePlan::Stage {
        point: reached,
        kind,
        ..
    } = replaced
    else {
        panic!("replacement should be staged");
    };
    let staged = BranchStage {
        baseline: point("old", 3),
        staged_kind: Some(kind.as_str().to_owned()),
        staged: Some(reached),
    };
    let mut next = change("append");
    next.base_contribution_generation = Some(4);
    next.target_contribution_generation = Some(5);
    assert!(matches!(
        stage_branch_journal_change(&next, &staged, true),
        ChangePlan::Stage { .. }
    ));
}

#[test]
fn tables_and_pages_are_bounded() {
    assert_eq!(delta_table(0), "console_graph_build_branch_deltas");
    assert_eq!(delta_table(5), "console_graph_build_delta_nodes");
    assert_eq!(staged_table(0), "console_graph_build_branch_deltas");
    assert_eq!(
        staged_table(1),
        "console_graph_build_source_refresh_manifest"
    );
    assert_eq!(edge_page_limit(64), 64);
    assert_eq!(edge_page_limit(1_000), 128);
    assert_eq!(build_kind_value(IncrementalBuildKind::Append), "append");
}

#[test]
fn parents_are_counted_once_over_failing_calls() {
    let parents = (0..129)
        .map(|index| related(&format!("parent-{index:03}"), index % 2 == 0, true))
        .collect::<Vec<_>>();
    for kind in [IncrementalBuildKind::Full, IncrementalBuildKind::Append] {
        let mut cursor = String::new();
        let mut remaining = 0;
        let mut complete = 0;
        let mut calls = 0;
        while complete == 0 {
            calls += 1;
            let page = parents
                .iter()
                .filter(|parent| parent.node_id > cursor)
                .take(31)
                .cloned()
                .collect::<Vec<_>>();
            let step = advance_parent_requirement_page(kind, "root", complete, &page);
            if calls % 2 == 0 {
                continue;
            }
            match step {
                RequirementStep::Counted => panic!("parents are still counted"),
                RequirementStep::Complete => complete = 1,
                RequirementStep::Count {
                    added,
                    cursor: next,
                } => {
                    remaining += added;
                    cursor = next;
                }
            }
        }
        let expected = match kind {
            IncrementalBuildKind::Full => 129,
            IncrementalBuildKind::Append => 65,
        };
        assert_eq!(remaining, expected);
        assert_eq!(
            advance_parent_requirement_page(kind, "root", complete, &Vec::new()),
            RequirementStep::Counted
        );
    }
}
