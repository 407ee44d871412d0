//! Writing the source manifest of a build, page by page.

use vstd::prelude::*;
use crate::incremental_build::count_as_i64;
use crate::incremental_build::count_i64;
use crate::incremental_build::init::is_transition;
use crate::incremental_build::init::InitPhase;
use crate::incremental_build::init::PhaseChange;
use crate::incremental_build::paging::marked;
use crate::incremental_build::paging::marked_rows;
use crate::incremental_build::StepFailure;
use crate::numbers::parse_signed;
use crate::numbers::parsed_signed;
use crate::text::signed_decimal_i64;
use crate::text::signed_text;
use crate::text::text_equal;

verus! {

/// What a transaction on the source manifest does first.
#[derive(Debug, Clone, Copy, PartialEq, Eq, Structural)]
pub enum ManifestAction {
    /// Binds the run to its baseline and root.
    Open,
    /// Empties the tables of an earlier delta.
    ResetDelta,
    /// Empties the refreshes of the manifest.
    ResetRefreshes,
    /// Empties the branches of the manifest.
    ResetBranches,
    /// Reads a page of branch names, the first one or the one behind the cursors.
    CopyNames { first: bool },
    /// Reads a page of refreshes, the first one or the one behind a refresh.
    CopyRefreshes { after: Option<i64> },
    /// Goes on at once.
    SkipReset,
    /// Reads a page of branches: the changed ones or all of the manifest.
    SeedBranches { changed_only: bool, first: bool },
}

/// What a transaction on the source manifest does first.
pub open spec fn manifest_start(
    phase: Seq<char>,
    counter: i64,
    cursor: Seq<char>,
    append: bool,
) -> Result<ManifestAction, StepFailure> {
    if phase == "new"@ {
        Ok(ManifestAction::Open)
    } else if phase == "full_reset"@ {
        Ok(ManifestAction::ResetDelta)
    } else if phase == "manifest_refresh_reset"@ {
        Ok(ManifestAction::ResetRefreshes)
    } else if phase == "manifest_branch_reset"@ {
        Ok(ManifestAction::ResetBranches)
    } else if phase == "manifest_copy"@ {
        Ok(ManifestAction::CopyNames { first: counter == 0 })
    } else if phase == "manifest_refresh_copy"@ {
        if counter == 0 {
            Ok(ManifestAction::CopyRefreshes { after: None })
        } else {
            match parsed_signed(cursor) {
                Some(refresh_id) => Ok(
                    ManifestAction::CopyRefreshes { after: Some(refresh_id as i64) },
                ),
                None => Err(StepFailure::Rollback),
            }
        }
    } else if phase == "manifest_reset"@ {
        Ok(ManifestAction::SkipReset)
    } else if phase == "manifest_seed"@ {
        Ok(ManifestAction::SeedBranches { changed_only: append, first: counter == 0 })
    } else {
        Err(StepFailure::NotFound)
    }
}

/// Decides what a transaction on the source manifest does first.
pub fn initialize_source_manifest(phase: &str, counter: i64, cursor: &str, append: bool) -> (outcome:
    Result<ManifestAction, StepFailure>)
    ensures
        outcome == manifest_start(phase@, counter, cursor@, append),
{
    if text_equal(phase, "new") {
        Ok(ManifestAction::Open)
    } else if text_equal(phase, "full_reset") {
        Ok(ManifestAction::ResetDelta)
    } else if text_equal(phase, "manifest_refresh_reset") {
        Ok(ManifestAction::ResetRefreshes)
    } else if text_equal(phase, "manifest_branch_reset") {
        Ok(ManifestAction::ResetBranches)
    } else if text_equal(phase, "manifest_copy") {
        Ok(ManifestAction::CopyNames { first: counter == 0 })
    } else if text_equal(phase, "manifest_refresh_copy") {
        if counter == 0 {
            Ok(ManifestAction::CopyRefreshes { after: None })
        } else {
            match parse_signed(cursor) {
                Some(refresh_id) => Ok(ManifestAction::CopyRefreshes { after: Some(refresh_id) }),
                None => Err(StepFailure::Rollback),
            }
        }
    } else if text_equal(phase, "manifest_reset") {
        Ok(ManifestAction::SkipReset)
    } else if text_equal(phase, "manifest_seed") {
        Ok(ManifestAction::SeedBranches { changed_only: append, first: counter == 0 })
    } else {
        Err(StepFailure::NotFound)
    }
}

/// The change of phase at the end of an action, where its pages have run out.
pub open spec fn manifest_end(action: ManifestAction) -> PhaseChange {
    match action {
        ManifestAction::Open => PhaseChange { from: InitPhase::New, to: InitPhase::Kind },
        ManifestAction::ResetDelta => PhaseChange {
            from: InitPhase::FullReset,
            to: InitPhase::ManifestRefreshReset,
        },
        ManifestAction::ResetRefreshes => PhaseChange {
            from: InitPhase::ManifestRefreshReset,
            to: InitPhase::ManifestBranchReset,
        },
        ManifestAction::ResetBranches => PhaseChange {
            from: InitPhase::ManifestBranchReset,
            to: InitPhase::ManifestCopy,
        },
        ManifestAction::CopyNames { first } => PhaseChange {
            from: InitPhase::ManifestCopy,
            to: InitPhase::ManifestRefreshCopy,
        },
        ManifestAction::CopyRefreshes { after } => PhaseChange {
            from: InitPhase::ManifestRefreshCopy,
            to: InitPhase::ManifestSeed,
        },
        ManifestAction::SkipReset => PhaseChange {
            from: InitPhase::ManifestReset,
            to: InitPhase::ManifestRefreshReset,
        },
        ManifestAction::SeedBranches { changed_only, first } => PhaseChange {
            from: InitPhase::ManifestSeed,
            to: InitPhase::Scope,
        },
    }
}

/// Decides on the change of phase at the end of an action.
pub fn finish_manifest_action(action: ManifestAction) -> (change: PhaseChange)
    ensures
        change == manifest_end(action),
        is_transition(change.from, change.to),
{
    match action {
        ManifestAction::Open => PhaseChange { from: InitPhase::New, to: InitPhase::Kind },
        ManifestAction::ResetDelta => PhaseChange {
            from: InitPhase::FullReset,
            to: InitPhase::ManifestRefreshReset,
        },
        ManifestAction::ResetRefreshes => PhaseChange {
            from: InitPhase::ManifestRefreshReset,
            to: InitPhase::ManifestBranchReset,
        },
        ManifestAction::ResetBranches => PhaseChange {
            from: InitPhase::ManifestBranchReset,
            to: InitPhase::ManifestCopy,
        },
        ManifestAction::CopyNames { first: _ } => PhaseChange {
            from: InitPhase::ManifestCopy,
            to: InitPhase::ManifestRefreshCopy,
        },
        ManifestAction::CopyRefreshes { after: _ } => PhaseChange {
            from: InitPhase::ManifestRefreshCopy,
            to: InitPhase::ManifestSeed,
        },
        ManifestAction::SkipReset => PhaseChange {
            from: InitPhase::ManifestReset,
            to: InitPhase::ManifestRefreshReset,
        },
        ManifestAction::SeedBranches { changed_only: _, first: _ } => PhaseChange {
            from: InitPhase::ManifestSeed,
            to: InitPhase::Scope,
        },
    }
}

/// How many tables hold an earlier delta.
pub const DELTA_TABLE_COUNT: usize = 6;

/// The tables that hold an earlier delta, in the order in which they are emptied.
pub open spec fn delta_table_name(index: usize) -> Seq<char> {
    if index == 0 {
        "console_graph_build_branch_deltas"@
    } else if index == 1 {
        "console_graph_build_anchor_node_tombstones"@
    } else if index == 2 {
        "console_graph_build_scope_tombstones"@
    } else if index == 3 {
        "console_graph_build_changed_branches"@
    } else if index == 4 {
        "console_graph_build_node_tombstones"@
    } else {
        "console_graph_build_delta_nodes"@
    }
}

/// A table that holds an earlier delta.
pub fn delta_table(index: usize) -> (name: &'static str)
    requires
        index < 6,
    ensures
        name@ == delta_table_name(index),
{
    if index == 0 {
        "console_graph_build_branch_deltas"
    } else if index == 1 {
        "console_graph_build_anchor_node_tombstones"
    } else if index == 2 {
        "console_graph_build_scope_tombstones"
    } else if index == 3 {
        "console_graph_build_changed_branches"
    } else if index == 4 {
        "console_graph_build_node_tombstones"
    } else {
        "console_graph_build_delta_nodes"
    }
}

/// What follows the deletion of a batch of rows.
#[derive(Debug, Clone, Copy, PartialEq, Eq, Structural)]
pub enum ResetStep {
    /// The transaction ends; the next one deletes another batch.
    Stop,
    /// The next table is emptied.
    Next { table: usize },
    /// All is empty.
    Advance { change: PhaseChange },
}

/// Decides what follows the deletion of a batch of rows of an earlier delta.
pub fn full_reset_step(table: usize, deleted: usize) -> (step: ResetStep)
    requires
        table < 6,
    ensures
        step == (if deleted > 0 {
            ResetStep::Stop
        } else if table + 1 < 6 {
            ResetStep::Next { table: (table + 1) as usize }
        } else {
            ResetStep::Advance { change: manifest_end(ManifestAction::ResetDelta) }
        }),
{
    if deleted > 0 {
        ResetStep::Stop
    } else if table + 1 < DELTA_TABLE_COUNT {
        ResetStep::Next { table: table + 1 }
    } else {
        ResetStep::Advance { change: finish_manifest_action(ManifestAction::ResetDelta) }
    }
}

/// Decides what follows the deletion of a batch of rows of the manifest.
pub fn manifest_reset_step(action: ManifestAction, deleted: usize) -> (step: ResetStep)
    ensures
        step == (if deleted > 0 {
            ResetStep::Stop
        } else {
            ResetStep::Advance { change: manifest_end(action) }
        }),
{
    if deleted > 0 {
        ResetStep::Stop
    } else {
        ResetStep::Advance { change: finish_manifest_action(action) }
    }
}

/// A branch as the source knew it at a revision.
#[derive(Debug, Clone, PartialEq, Eq)]
pub struct FrozenBranch {
    pub contribution_generation: Option<i64>,
    pub head_id: Option<String>,
    pub state_json: Option<String>,
    pub removed: i32,
}

/// A removed branch holds nothing, and any other holds everything.
pub open spec fn frozen_consistent(branch: FrozenBranch) -> bool {
    if branch.removed != 0 {
        branch.contribution_generation is None && branch.head_id is None && branch.state_json is None
    } else {
        branch.contribution_generation is Some && branch.head_id is Some && branch.state_json is Some
    }
}

/// Whether a branch belongs into the manifest, where its history does not contradict itself.
pub fn frozen_branch_present(branch: &FrozenBranch) -> (outcome: Result<bool, StepFailure>)
    ensures
        outcome == (if !frozen_consistent(*branch) {
            Err(StepFailure::Rollback)
        } else {
            Ok(branch.removed == 0)
        }),
{
    if branch.removed != 0 {
        if branch.contribution_generation.is_some() || branch.head_id.is_some()
            || branch.state_json.is_some() {
            Err(StepFailure::Rollback)
        } else {
            Ok(false)
        }
    } else if branch.contribution_generation.is_none() || branch.head_id.is_none()
        || branch.state_json.is_none() {
        Err(StepFailure::Rollback)
    } else {
        Ok(true)
    }
}

/// What a transaction writes for a page of rows: the rows to insert, and where the next page
/// starts.
#[derive(Debug, Clone, PartialEq, Eq)]
pub struct PagePlan {
    pub rows: Vec<usize>,
    pub next_text: String,
    pub next_row: i64,
    pub count: i64,
}

/// A page plan with its texts as characters.
#[verifier::ext_equal]
pub struct PagePlanView {
    pub rows: Seq<usize>,
    pub next_text: Seq<char>,
    pub next_row: i64,
    pub count: i64,
}

impl View for PagePlan {
    type V = PagePlanView;

    open spec fn view(&self) -> PagePlanView {
        PagePlanView {
            rows: self.rows@,
            next_text: self.next_text@,
            next_row: self.next_row,
            count: self.count,
        }
    }
}

/// What a transaction on a page does.
#[derive(Debug, Clone, PartialEq, Eq)]
pub enum PageStep {
    /// There are no more rows.
    Advance { change: PhaseChange },
    /// Rows are written, and the cursors move behind the page.
    Write { plan: PagePlan },
}

/// A branch name of the source, with the revision at which it appeared.
#[derive(Debug, Clone, PartialEq, Eq)]
pub struct SourceBranchName {
    pub branch_name: String,
    pub first_source_revision: i64,
}

/// Decides what a transaction does with a page of branch names and the branches behind them.
pub fn manifest_copy_page(names: &Vec<SourceBranchName>, branches: &Vec<FrozenBranch>) -> (outcome:
    Result<PageStep, StepFailure>)
    requires
        branches@.len() == names@.len(),
    ensures
        match outcome {
            Err(failure) => failure == StepFailure::Rollback && exists|i: int|
                0 <= i < branches@.len() && !frozen_consistent(#[trigger] branches@[i]),
            Ok(step) => {
                &&& forall|i: int| 0 <= i < branches@.len() ==> frozen_consistent(#[trigger] branches@[i])
                &&& if names@.len() == 0 {
                    step == (PageStep::Advance {
                        change: manifest_end(ManifestAction::CopyNames { first: true }),
                    })
                } else {
                    step matches PageStep::Write { plan } && plan@ == (PagePlanView {
                        rows: marked(branches@.map_values(|branch: FrozenBranch| branch.removed == 0)),
                        next_text: names@.last().branch_name@,
                        next_row: names@.last().first_source_revision,
                        count: count_i64(names@.len() as usize),
                    })
                }
            },
        },
{
    if names.len() == 0 {
        return Ok(
            PageStep::Advance {
                change: finish_manifest_action(ManifestAction::CopyNames { first: true }),
            },
        );
    }
    let mut flags: Vec<bool> = Vec::new();
    let mut i: usize = 0;
    while i < branches.len()
        invariant
            0 <= i <= branches.len(),
            flags@.len() == i,
            forall|j: int|
                0 <= j < i ==> frozen_consistent(#[trigger] branches@[j]) && flags@[j] == (
                branches@[j].removed == 0),
        decreases branches.len() - i,
    {
        match frozen_branch_present(&branches[i]) {
            Err(failure) => {
                assert(!frozen_consistent(branches@[i as int]));
                return Err(failure);
            },
            Ok(present) => {
                flags.push(present);
            },
        }
        i += 1;
    }
    assert(flags@ =~= branches@.map_values(|branch: FrozenBranch| branch.removed == 0));
    let last = &names[names.len() - 1];
    Ok(
        PageStep::Write {
            plan: PagePlan {
                rows: marked_rows(&flags),
                next_text: last.branch_name.clone(),
                next_row: last.first_source_revision,
                count: count_as_i64(names.len()),
            },
        },
    )
}

/// A published refresh of the source.
#[derive(Debug, Clone, PartialEq, Eq)]
pub struct ManifestRefresh {
    pub branch_name: String,
    pub refresh_id: i64,
    pub target_contribution_generation: i64,
    pub published_source_revision: i64,
}

/// Decides what a transaction does with a page of refreshes, each with whether the manifest
/// holds its branch at the generation that the refresh produced.
pub fn manifest_refresh_page(refreshes: &Vec<ManifestRefresh>, included: &Vec<bool>) -> (step: PageStep)
    requires
        included@.len() == refreshes@.len(),
    ensures
        if refreshes@.len() == 0 {
            step == (PageStep::Advance {
                change: manifest_end(ManifestAction::CopyRefreshes { after: None }),
            })
        } else {
            step matches PageStep::Write { plan } && plan@ == (PagePlanView {
                rows: marked(included@),
                next_text: signed_text(refreshes@.last().refresh_id as int),
                next_row: refreshes@.last().published_source_revision,
                count: count_i64(refreshes@.len() as usize),
            })
        },
{
    if refreshes.len() == 0 {
        return PageStep::Advance {
            change: finish_manifest_action(ManifestAction::CopyRefreshes { after: None }),
        };
    }
    let last = &refreshes[refreshes.len() - 1];
    PageStep::Write {
        plan: PagePlan {
            rows: marked_rows(included),
            next_text: signed_decimal_i64(last.refresh_id),
            next_row: last.published_source_revision,
            count: count_as_i64(refreshes.len()),
        },
    }
}

/// Decides what a transaction does with a page of branch names, each with whether the manifest
/// holds the branch. The heads of the branches start the search for the anchor scope. The row
/// cursor is not moved.
pub fn manifest_seed_page(names: &Vec<String>, present: &Vec<bool>) -> (step: PageStep)
    requires
        present@.len() == names@.len(),
    ensures
        if names@.len() == 0 {
            step == (PageStep::Advance {
                change: manifest_end(
                    ManifestAction::SeedBranches { changed_only: true, first: true },
                ),
            })
        } else {
            step matches PageStep::Write { plan } && plan@ == (PagePlanView {
                rows: marked(present@),
                next_text: names@.last()@,
                next_row: 0,
                count: count_i64(names@.len() as usize),
            })
        },
{
    if names.len() == 0 {
        return PageStep::Advance {
            change: finish_manifest_action(
                ManifestAction::SeedBranches { changed_only: true, first: true },
            ),
        };
    }
    PageStep::Write {
        plan: PagePlan {
            rows: marked_rows(present),
            next_text: names[names.len() - 1].clone(),
            next_row: 0,
            count: count_as_i64(names.len()),
        },
    }
}

/// Decides what a transaction does with a page of branch names, each with whether the manifest
/// holds the branch. Once there are no more, the set-up is complete.
pub fn initialize_branch_metadata(names: &Vec<String>, present: &Vec<bool>) -> (step: PageStep)
    requires
        present@.len() == names@.len(),
    ensures
        if names@.len() == 0 {
            step == (PageStep::Advance {
                change: PhaseChange { from: InitPhase::Branches, to: InitPhase::Complete },
            })
        } else {
            step matches PageStep::Write { plan } && plan@ == (PagePlanView {
                rows: marked(present@),
                next_text: names@.last()@,
                next_row: 0,
                count: count_i64(names@.len() as usize),
            })
        },
{
    if names.len() == 0 {
        return PageStep::Advance {
            change: PhaseChange { from: InitPhase::Branches, to: InitPhase::Complete },
        };
    }
    PageStep::Write {
        plan: PagePlan {
            rows: marked_rows(present),
            next_text: names[names.len() - 1].clone(),
            next_row: 0,
            count: count_as_i64(names.len()),
        },
    }
}

/// What was written for a refresh is read back as the place behind it.
pub proof fn lemma_refresh_cursor_round_trip(refresh_id: i64, counter: i64, append: bool)
    requires
        counter != 0,
    ensures
        manifest_start(
            "manifest_refresh_copy"@,
            counter,
            signed_text(refresh_id as int),
            append,
        ) == Ok::<ManifestAction, StepFailure>(
            ManifestAction::CopyRefreshes { after: Some(refresh_id) },
        ),
{
    crate::incremental_build::init::lemma_phase_texts_differ(
        InitPhase::ManifestRefreshCopy,
        InitPhase::ManifestRefreshCopy,
    );
    lemma_refresh_copy_apart();
    crate::numbers::lemma_signed_round_trip(refresh_id as int);
}

proof fn lemma_refresh_copy_apart()
    ensures
        "manifest_refresh_copy"@ != "new"@,
        "manifest_refresh_copy"@ != "full_reset"@,
        "manifest_refresh_copy"@ != "manifest_refresh_reset"@,
        "manifest_refresh_copy"@ != "manifest_branch_reset"@,
        "manifest_refresh_copy"@ != "manifest_copy"@,
{
    reveal_strlit("manifest_refresh_copy");
    reveal_strlit("new");
    reveal_strlit("full_reset");
    reveal_strlit("manifest_refresh_reset");
    reveal_strlit("manifest_branch_reset");
    reveal_strlit("manifest_copy");
    assert("manifest_refresh_copy"@.len() == 21);
    assert("new"@.len() == 3);
    assert("full_reset"@.len() == 10);
    assert("manifest_refresh_reset"@.len() == 22);
    assert("manifest_copy"@.len() == 13);
    assert("manifest_refresh_copy"@[9] == 'r');
    assert("manifest_branch_reset"@[9] == 'b');
}

} // verus!
