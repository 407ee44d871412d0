//! Choosing between a full build and one that adds to its baseline, from the journal of branch
//! changes.

use vstd::prelude::*;
use crate::incremental_build::count_as_i64;
use crate::incremental_build::count_i64;
use crate::incremental_build::init::is_transition;
use crate::incremental_build::init::InitPhase;
use crate::incremental_build::init::PhaseChange;
use crate::incremental_build::BuildClassificationReason;
use crate::incremental_build::IncrementalBuildKind;
use crate::incremental_build::StepFailure;
use crate::text::optional_text;
use crate::text::text_equal;

verus! {

/// The revision before a page of the journal: the baseline, or the one that the cursor is at.
pub open spec fn journal_start(baseline: int, cursor: int) -> int {
    if cursor == 0 {
        baseline
    } else {
        cursor
    }
}

/// The revision before an entry of a page.
pub open spec fn journal_previous(baseline: int, cursor: int, revisions: Seq<i64>, i: int) -> int {
    if i == 0 {
        journal_start(baseline, cursor)
    } else {
        revisions[i - 1] as int
    }
}

/// Whether an entry of a page is of the revision before it or of the next one. The first entry
/// behind the baseline is of the next one.
pub open spec fn entry_follows(baseline: int, cursor: int, revisions: Seq<i64>, i: int) -> bool {
    let previous = journal_previous(baseline, cursor, revisions, i);
    ||| revisions[i] == previous + 1
    ||| revisions[i] == previous && (cursor != 0 || i > 0)
}

/// Whether a page goes on where the cursor is, without a gap. A revision may fill several
/// entries.
pub open spec fn page_contiguous(baseline: int, cursor: int, revisions: Seq<i64>) -> bool {
    forall|i: int|
        0 <= i < revisions.len() ==> #[trigger] entry_follows(baseline, cursor, revisions, i)
}

/// Whether a page goes on where the cursor is, without a gap.
pub fn journal_page_is_contiguous(
    baseline_revision: i64,
    saved_revision_cursor: i64,
    revisions: &Vec<i64>,
) -> (contiguous: bool)
    ensures
        contiguous == page_contiguous(
            baseline_revision as int,
            saved_revision_cursor as int,
            revisions@,
        ),
{
    let mut previous: i64 = if saved_revision_cursor == 0 {
        baseline_revision
    } else {
        saved_revision_cursor
    };
    let ghost baseline = baseline_revision as int;
    let ghost cursor = saved_revision_cursor as int;
    let mut i: usize = 0;
    while i < revisions.len()
        invariant
            0 <= i <= revisions.len(),
            baseline == baseline_revision,
            cursor == saved_revision_cursor,
            previous == journal_previous(baseline, cursor, revisions@, i as int),
            forall|j: int|
                0 <= j < i ==> #[trigger] entry_follows(baseline, cursor, revisions@, j),
        decreases revisions.len() - i,
    {
        let revision: i64 = revisions[i];
        let repeated: bool = revision == previous && (saved_revision_cursor != 0 || i > 0);
        if !repeated && (previous == i64::MAX || revision != previous + 1) {
            assert(!entry_follows(baseline, cursor, revisions@, i as int));
            return false;
        }
        assert(entry_follows(baseline, cursor, revisions@, i as int));
        previous = revision;
        i += 1;
    }
    true
}

/// Whether the journal has been read up to the revision of the build.
pub open spec fn cursor_covers(baseline: int, build: int, cursor: int) -> bool {
    build >= baseline && build == journal_start(baseline, cursor)
}

/// Whether the journal has been read up to the revision of the build.
pub fn journal_cursor_covers_revision_range(
    baseline_revision: i64,
    build_revision: i64,
    saved_revision_cursor: i64,
) -> (covers: bool)
    ensures
        covers == cursor_covers(
            baseline_revision as int,
            build_revision as int,
            saved_revision_cursor as int,
        ),
{
    build_revision >= baseline_revision && if saved_revision_cursor == 0 {
        build_revision == baseline_revision
    } else {
        saved_revision_cursor == build_revision
    }
}

/// Where the cursor is after a page.
pub open spec fn cursor_after(cursor: int, revisions: Seq<i64>) -> int {
    if revisions.len() == 0 {
        cursor
    } else {
        revisions.last() as int
    }
}

/// Reading a journal in pages finds the gaps that reading it at once finds.
pub proof fn lemma_journal_pages_compose(
    baseline: int,
    cursor: int,
    first: Seq<i64>,
    second: Seq<i64>,
)
    requires
        baseline >= 0,
        cursor == 0 || cursor >= baseline,
    ensures
        page_contiguous(baseline, cursor, first + second) <==> page_contiguous(
            baseline,
            cursor,
            first,
        ) && page_contiguous(baseline, cursor_after(cursor, first), second),
{
    let all = first + second;
    let next = cursor_after(cursor, first);
    if page_contiguous(baseline, cursor, all) {
        lemma_prefix_contiguous(baseline, cursor, first, second);
        lemma_contiguous_grows(baseline, cursor, first);
        assert forall|i: int| 0 <= i < second.len() implies #[trigger] entry_follows(baseline, next, second, i) by {
            assert(entry_follows(baseline, cursor, all, first.len() + i));
            assert(all[first.len() + i] == second[i]);
            if i > 0 {
                assert(all[first.len() + i - 1] == second[i - 1]);
            } else if first.len() > 0 {
                assert(all[first.len() - 1] == first.last());
            }
        }
    }
    if page_contiguous(baseline, cursor, first) && page_contiguous(baseline, next, second) {
        lemma_contiguous_grows(baseline, cursor, first);
        assert forall|i: int| 0 <= i < all.len() implies #[trigger] entry_follows(baseline, cursor, all, i) by {
            if i < first.len() {
                assert(entry_follows(baseline, cursor, first, i));
                assert(all[i] == first[i]);
                if i > 0 {
                    assert(all[i - 1] == first[i - 1]);
                }
            } else {
                assert(entry_follows(baseline, next, second, i - first.len()));
                assert(all[i] == second[i - first.len()]);
                if i > first.len() {
                    assert(all[i - 1] == second[i - 1 - first.len()]);
                } else if i > 0 {
                    assert(all[i - 1] == first.last());
                }
            }
        }
    }
}

proof fn lemma_prefix_contiguous(baseline: int, cursor: int, first: Seq<i64>, second: Seq<i64>)
    requires
        page_contiguous(baseline, cursor, first + second),
    ensures
        page_contiguous(baseline, cursor, first),
{
    let all = first + second;
    assert forall|i: int| 0 <= i < first.len() implies #[trigger] entry_follows(baseline, cursor, first, i) by {
        assert(entry_follows(baseline, cursor, all, i));
        assert(all[i] == first[i]);
        if i > 0 {
            assert(all[i - 1] == first[i - 1]);
        }
    }
}

/// Every revision of a page is behind the baseline, and behind the cursor or at it.
proof fn lemma_contiguous_grows(baseline: int, cursor: int, revisions: Seq<i64>)
    requires
        cursor == 0 || cursor >= baseline,
        page_contiguous(baseline, cursor, revisions),
    ensures
        forall|i: int|
            0 <= i < revisions.len() ==> #[trigger] revisions[i] >= journal_start(baseline, cursor)
                + (if cursor == 0 {
                1int
            } else {
                0
            }),
    decreases revisions.len(),
{
    if revisions.len() > 0 {
        let rest = revisions.drop_last();
        assert(rest + seq![revisions.last()] =~= revisions);
        lemma_prefix_contiguous(baseline, cursor, rest, seq![revisions.last()]);
        lemma_contiguous_grows(baseline, cursor, rest);
        let n = revisions.len() - 1;
        assert(entry_follows(baseline, cursor, revisions, n));
        if n > 0 {
            assert(revisions[n - 1] == rest[n - 1]);
        }
        assert forall|i: int| 0 <= i < revisions.len() implies #[trigger] revisions[i]
            >= journal_start(baseline, cursor) + (if cursor == 0 {
            1int
        } else {
            0
        }) by {
            if i < n {
                assert(revisions[i] == rest[i]);
            }
        }
    }
}

/// A journal without a gap holds every revision between the baseline and its last one.
proof fn lemma_contiguous_holds(baseline: int, revisions: Seq<i64>, revision: i64)
    requires
        page_contiguous(baseline, 0, revisions),
        revisions.len() > 0,
        baseline < revision <= revisions.last(),
    ensures
        revisions.contains(revision),
    decreases revisions.len(),
{
    let n = revisions.len() - 1;
    assert(entry_follows(baseline, 0, revisions, n));
    if revision < revisions.last() {
        let rest = revisions.drop_last();
        assert(rest + seq![revisions.last()] =~= revisions);
        lemma_prefix_contiguous(baseline, 0, rest, seq![revisions.last()]);
        assert(n > 0);
        assert(rest.last() == revisions[n - 1]);
        lemma_contiguous_holds(baseline, rest, revision);
        let i = choose|i: int| 0 <= i < rest.len() && rest[i] == revision;
        assert(revisions[i] == revision);
    }
}

/// Where the journal has been read from the baseline without a gap, and the cursor has reached
/// the revision of the build, every revision since the baseline was read.
pub proof fn lemma_covered_journal_is_complete(
    baseline: i64,
    build: i64,
    revisions: Seq<i64>,
    revision: i64,
)
    requires
        page_contiguous(baseline as int, 0, revisions),
        cursor_covers(baseline as int, build as int, cursor_after(0, revisions)),
        baseline < revision <= build,
    ensures
        revisions.contains(revision),
{
    if revisions.len() > 0 {
        lemma_contiguous_holds(baseline as int, revisions, revision);
    }
}

/// What the journal says of a branch.
#[derive(Debug, Clone, PartialEq, Eq)]
pub struct BranchChange {
    pub source_revision: i64,
    pub branch_name: String,
    pub change_kind: String,
    pub refresh_id: Option<i64>,
    pub base_contribution_generation: Option<i64>,
    pub target_contribution_generation: Option<i64>,
    pub head_id: Option<String>,
    pub state_json: Option<String>,
}

/// A branch change with its texts as characters.
#[verifier::ext_equal]
pub struct BranchChangeView {
    pub source_revision: i64,
    pub branch_name: Seq<char>,
    pub change_kind: Seq<char>,
    pub refresh_id: Option<i64>,
    pub base_contribution_generation: Option<i64>,
    pub target_contribution_generation: Option<i64>,
    pub head_id: Option<Seq<char>>,
    pub state_json: Option<Seq<char>>,
}

impl View for BranchChange {
    type V = BranchChangeView;

    open spec fn view(&self) -> BranchChangeView {
        BranchChangeView {
            source_revision: self.source_revision,
            branch_name: self.branch_name@,
            change_kind: self.change_kind@,
            refresh_id: self.refresh_id,
            base_contribution_generation: self.base_contribution_generation,
            target_contribution_generation: self.target_contribution_generation,
            head_id: optional_text(self.head_id),
            state_json: optional_text(self.state_json),
        }
    }
}

/// Where a branch is.
#[derive(Debug, Clone, PartialEq, Eq)]
pub struct BranchPoint {
    pub head_id: String,
    pub contribution_generation: i64,
}

/// A branch point with its text as characters.
#[verifier::ext_equal]
pub struct BranchPointView {
    pub head_id: Seq<char>,
    pub contribution_generation: i64,
}

impl View for BranchPoint {
    type V = BranchPointView;

    open spec fn view(&self) -> BranchPointView {
        BranchPointView {
            head_id: self.head_id@,
            contribution_generation: self.contribution_generation,
        }
    }
}

/// A branch point that may be missing.
pub open spec fn optional_point(value: Option<BranchPoint>) -> Option<BranchPointView> {
    match value {
        Some(point) => Some(point@),
        None => None,
    }
}

/// What a build knows of a branch: where the baseline has it, how the changes so far count
/// together, and where they have taken it.
#[derive(Debug, Clone, PartialEq, Eq)]
pub struct BranchStage {
    pub baseline: Option<BranchPoint>,
    pub staged_kind: Option<String>,
    pub staged: Option<BranchPoint>,
}

/// A branch stage with its texts as characters.
#[verifier::ext_equal]
pub struct BranchStageView {
    pub baseline: Option<BranchPointView>,
    pub staged_kind: Option<Seq<char>>,
    pub staged: Option<BranchPointView>,
}

impl View for BranchStage {
    type V = BranchStageView;

    open spec fn view(&self) -> BranchStageView {
        BranchStageView {
            baseline: optional_point(self.baseline),
            staged_kind: optional_text(self.staged_kind),
            staged: optional_point(self.staged),
        }
    }
}

/// How the changes of a branch count together.
#[derive(Debug, Clone, Copy, PartialEq, Eq, Structural)]
pub enum StagedKind {
    Added,
    Append,
    Replace,
    Metadata,
    Delete,
}

/// The stored text of a staged kind.
pub open spec fn staged_kind_text(kind: StagedKind) -> Seq<char> {
    match kind {
        StagedKind::Added => "added"@,
        StagedKind::Append => "append"@,
        StagedKind::Replace => "replace"@,
        StagedKind::Metadata => "metadata"@,
        StagedKind::Delete => "delete"@,
    }
}

impl StagedKind {
    /// The stored text of this kind.
    pub fn as_str(self) -> (text: &'static str)
        ensures
            text@ == staged_kind_text(self),
    {
        match self {
            StagedKind::Added => "added",
            StagedKind::Append => "append",
            StagedKind::Replace => "replace",
            StagedKind::Metadata => "metadata",
            StagedKind::Delete => "delete",
        }
    }
}

/// Different staged kinds have different texts.
pub proof fn lemma_staged_kind_texts_differ(a: StagedKind, b: StagedKind)
    requires
        staged_kind_text(a) == staged_kind_text(b),
    ensures
        a == b,
{
    reveal_strlit("added");
    reveal_strlit("append");
    reveal_strlit("replace");
    reveal_strlit("metadata");
    reveal_strlit("delete");
    assert("added"@.len() == 5);
    assert("append"@.len() == 6 && "append"@[0] == 'a');
    assert("replace"@.len() == 7);
    assert("metadata"@.len() == 8);
    assert("delete"@.len() == 6 && "delete"@[0] == 'd');
}

/// Which refresh of the source a change rests on.
#[derive(Debug, Clone, Copy, PartialEq, Eq, Structural)]
pub enum RefreshKind {
    Full,
    Append,
}

impl RefreshKind {
    /// The stored text of this kind.
    pub fn as_str(self) -> (text: &'static str)
        ensures
            text@ == (match self {
                RefreshKind::Full => "full"@,
                RefreshKind::Append => "append"@,
            }),
    {
        match self {
            RefreshKind::Full => "full",
            RefreshKind::Append => "append",
        }
    }
}

/// A refresh that has to have been published, of this kind and with this result.
#[derive(Debug, Clone, Copy, PartialEq, Eq, Structural)]
pub struct RefreshClaim {
    pub refresh_id: i64,
    pub kind: RefreshKind,
    pub target_generation: i64,
    pub source_revision: i64,
}

/// The refresh that a change claims, where it claims one.
pub open spec fn claimed_refresh(change: BranchChangeView) -> Option<RefreshClaim> {
    match (change.refresh_id, change.target_contribution_generation) {
        (Some(refresh_id), Some(target_generation)) => if change.change_kind == "replace"@ {
            Some(
                RefreshClaim {
                    refresh_id,
                    kind: RefreshKind::Full,
                    target_generation,
                    source_revision: change.source_revision,
                },
            )
        } else if change.change_kind == "append"@ {
            Some(
                RefreshClaim {
                    refresh_id,
                    kind: RefreshKind::Append,
                    target_generation,
                    source_revision: change.source_revision,
                },
            )
        } else {
            None
        },
        _ => None,
    }
}

/// The refresh that a change claims, where it claims one.
pub fn refresh_claim(change: &BranchChange) -> (claim: Option<RefreshClaim>)
    ensures
        claim == claimed_refresh(change@),
{
    match (change.refresh_id, change.target_contribution_generation) {
        (Some(refresh_id), Some(target_generation)) => {
            if text_equal(change.change_kind.as_str(), "replace") {
                Some(
                    RefreshClaim {
                        refresh_id,
                        kind: RefreshKind::Full,
                        target_generation,
                        source_revision: change.source_revision,
                    },
                )
            } else if text_equal(change.change_kind.as_str(), "append") {
                Some(
                    RefreshClaim {
                        refresh_id,
                        kind: RefreshKind::Append,
                        target_generation,
                        source_revision: change.source_revision,
                    },
                )
            } else {
                None
            }
        },
        _ => None,
    }
}

/// What staging a change writes.
#[derive(Debug, Clone, PartialEq, Eq)]
pub enum ChangePlan {
    /// The change does not follow from the baseline.
    RequiresFull { reason: BuildClassificationReason },
    /// What was staged of the branch is emptied; then the branch leaves the manifest, and is
    /// either forgotten or marked as deleted from the baseline.
    Delete { baseline_generation: Option<i64> },
    /// The branch enters the manifest at its new place. The changed branch is marked with its
    /// kind and with what needs no removal, and its refresh is recorded.
    Stage {
        reset: bool,
        point: BranchPoint,
        state_json: String,
        kind: StagedKind,
        baseline_generation: Option<i64>,
        removal_complete: bool,
        scope_removal_complete: bool,
        refresh: Option<RefreshClaim>,
    },
}

/// A change plan with its texts as characters.
#[verifier::ext_equal]
pub enum ChangePlanView {
    RequiresFull { reason: BuildClassificationReason },
    Delete { baseline_generation: Option<i64> },
    Stage {
        reset: bool,
        point: BranchPointView,
        state_json: Seq<char>,
        kind: StagedKind,
        baseline_generation: Option<i64>,
        removal_complete: bool,
        scope_removal_complete: bool,
        refresh: Option<RefreshClaim>,
    },
}

impl View for ChangePlan {
    type V = ChangePlanView;

    open spec fn view(&self) -> ChangePlanView {
        match *self {
            ChangePlan::RequiresFull { reason } => ChangePlanView::RequiresFull { reason },
            ChangePlan::Delete { baseline_generation } => ChangePlanView::Delete {
                baseline_generation,
            },
            ChangePlan::Stage {
                reset,
                point,
                state_json,
                kind,
                baseline_generation,
                removal_complete,
                scope_removal_complete,
                refresh,
            } => ChangePlanView::Stage {
                reset,
                point: point@,
                state_json: state_json@,
                kind,
                baseline_generation,
                removal_complete,
                scope_removal_complete,
                refresh,
            },
        }
    }
}

/// The generation of a branch point that may be missing.
pub open spec fn point_generation(point: Option<BranchPointView>) -> Option<i64> {
    match point {
        Some(point) => Some(point.contribution_generation),
        None => None,
    }
}

/// Where the changes so far have taken a branch, if it still exists.
pub open spec fn current_generation(stage: BranchStageView) -> Option<i64> {
    if stage.staged_kind == Some("delete"@) {
        None
    } else if stage.staged is Some {
        point_generation(stage.staged)
    } else {
        point_generation(stage.baseline)
    }
}

/// The head of a branch as the changes so far left it.
pub open spec fn current_head(stage: BranchStageView) -> Option<Seq<char>> {
    match stage.staged {
        Some(point) => Some(point.head_id),
        None => match stage.baseline {
            Some(point) => Some(point.head_id),
            None => None,
        },
    }
}

/// How an appending change counts together with those before it.
pub open spec fn appended_kind(staged: Option<Seq<char>>) -> StagedKind {
    if staged == Some("added"@) {
        StagedKind::Added
    } else if staged == Some("replace"@) {
        StagedKind::Replace
    } else {
        StagedKind::Append
    }
}

/// How a change of metadata counts together with those before it.
pub open spec fn metadata_kind(staged: Option<Seq<char>>) -> StagedKind {
    if staged == Some("added"@) {
        StagedKind::Added
    } else if staged == Some("append"@) {
        StagedKind::Append
    } else if staged == Some("replace"@) {
        StagedKind::Replace
    } else {
        StagedKind::Metadata
    }
}

/// The plan that stages a branch at a new place.
pub open spec fn stage_plan(
    stage: BranchStageView,
    reset: bool,
    point: BranchPointView,
    state_json: Seq<char>,
    kind: StagedKind,
    refresh: Option<RefreshClaim>,
) -> ChangePlanView {
    ChangePlanView::Stage {
        reset,
        point,
        state_json,
        kind,
        baseline_generation: point_generation(stage.baseline),
        removal_complete: kind != StagedKind::Replace,
        scope_removal_complete: !(stage.baseline is Some && (kind == StagedKind::Append || kind
            == StagedKind::Replace)),
        refresh,
    }
}

/// What staging a change writes. `refresh_published` says whether the refresh that the change
/// claims was published for its branch.
pub open spec fn change_plan(
    change: BranchChangeView,
    stage: BranchStageView,
    refresh_published: bool,
) -> ChangePlanView {
    let invalid = ChangePlanView::RequiresFull {
        reason: BuildClassificationReason::SourceChangeJournalInvalid,
    };
    if change.change_kind == "delete"@ {
        if change.base_contribution_generation != current_generation(stage) {
            invalid
        } else {
            ChangePlanView::Delete { baseline_generation: point_generation(stage.baseline) }
        }
    } else {
        match (change.target_contribution_generation, change.head_id, change.state_json) {
            (Some(target), Some(head_id), Some(state_json)) => {
                let point = BranchPointView { head_id, contribution_generation: target };
                if change.change_kind == "replace"@ {
                    if change.refresh_id is None || !refresh_published {
                        invalid
                    } else {
                        stage_plan(
                            stage,
                            true,
                            point,
                            state_json,
                            if stage.baseline is Some {
                                StagedKind::Replace
                            } else {
                                StagedKind::Added
                            },
                            claimed_refresh(change),
                        )
                    }
                } else if change.change_kind == "append"@ {
                    if change.base_contribution_generation != current_generation(stage) {
                        ChangePlanView::RequiresFull {
                            reason: BuildClassificationReason::SourceAppendBaseMismatch,
                        }
                    } else if change.refresh_id is None || !refresh_published {
                        invalid
                    } else {
                        stage_plan(
                            stage,
                            false,
                            point,
                            state_json,
                            appended_kind(stage.staged_kind),
                            claimed_refresh(change),
                        )
                    }
                } else if change.change_kind == "metadata"@ {
                    if current_generation(stage) != Some(target) || current_head(stage) != Some(
                        head_id,
                    ) {
                        ChangePlanView::RequiresFull {
                            reason: BuildClassificationReason::SourceMetadataBaselineMismatch,
                        }
                    } else {
                        stage_plan(
                            stage,
                            false,
                            point,
                            state_json,
                            metadata_kind(stage.staged_kind),
                            None,
                        )
                    }
                } else {
                    invalid
                }
            },
            _ => invalid,
        }
    }
}

fn is_staged_as(staged: &Option<String>, kind: &str) -> (same: bool)
    ensures
        same == (optional_text(*staged) == Some(kind@)),
{
    match staged {
        Some(text) => text_equal(text.as_str(), kind),
        None => false,
    }
}

fn branch_generation(stage: &BranchStage) -> (generation: Option<i64>)
    ensures
        generation == current_generation(stage@),
{
    if is_staged_as(&stage.staged_kind, "delete") {
        return None;
    }
    match &stage.staged {
        Some(point) => Some(point.contribution_generation),
        None => match &stage.baseline {
            Some(point) => Some(point.contribution_generation),
            None => None,
        },
    }
}

fn is_current_head(stage: &BranchStage, head_id: &str) -> (same: bool)
    ensures
        same == (current_head(stage@) == Some(head_id@)),
{
    match &stage.staged {
        Some(point) => text_equal(point.head_id.as_str(), head_id),
        None => match &stage.baseline {
            Some(point) => text_equal(point.head_id.as_str(), head_id),
            None => false,
        },
    }
}

fn same_generation(a: Option<i64>, b: Option<i64>) -> (same: bool)
    ensures
        same == (a == b),
{
    match (a, b) {
        (Some(a), Some(b)) => a == b,
        (None, None) => true,
        _ => false,
    }
}

fn staged_plan(
    stage: &BranchStage,
    reset: bool,
    target: i64,
    head_id: &String,
    state_json: &String,
    kind: StagedKind,
    refresh: Option<RefreshClaim>,
) -> (plan: ChangePlan)
    ensures
        plan@ == stage_plan(
            stage@,
            reset,
            BranchPointView { head_id: head_id@, contribution_generation: target },
            state_json@,
            kind,
            refresh,
        ),
{
    let baseline_generation: Option<i64> = match &stage.baseline {
        Some(point) => Some(point.contribution_generation),
        None => None,
    };
    let remove_baseline_scope = baseline_generation.is_some() && (kind == StagedKind::Append || kind
        == StagedKind::Replace);
    ChangePlan::Stage {
        reset,
        point: BranchPoint { head_id: head_id.clone(), contribution_generation: target },
        state_json: state_json.clone(),
        kind,
        baseline_generation,
        removal_complete: kind != StagedKind::Replace,
        scope_removal_complete: !remove_baseline_scope,
        refresh,
    }
}

/// Decides what staging a change writes. `refresh_published` says whether the refresh that the
/// change claims was published for its branch.
pub fn stage_branch_journal_change(
    change: &BranchChange,
    stage: &BranchStage,
    refresh_published: bool,
) -> (plan: ChangePlan)
    ensures
        plan@ == change_plan(change@, stage@, refresh_published),
{
    proof {
        lemma_change_kinds_apart();
    }
    let current = branch_generation(stage);
    let kind = change.change_kind.as_str();
    if text_equal(kind, "delete") {
        if !same_generation(change.base_contribution_generation, current) {
            return ChangePlan::RequiresFull {
                reason: BuildClassificationReason::SourceChangeJournalInvalid,
            };
        }
        let baseline_generation: Option<i64> = match &stage.baseline {
            Some(point) => Some(point.contribution_generation),
            None => None,
        };
        return ChangePlan::Delete { baseline_generation };
    }
    match (change.target_contribution_generation, &change.head_id, &change.state_json) {
        (Some(target), Some(head_id), Some(state_json)) => {
            if text_equal(kind, "replace") {
                if change.refresh_id.is_none() || !refresh_published {
                    ChangePlan::RequiresFull {
                        reason: BuildClassificationReason::SourceChangeJournalInvalid,
                    }
                } else {
                    let staged_kind = if stage.baseline.is_some() {
                        StagedKind::Replace
                    } else {
                        StagedKind::Added
                    };
                    staged_plan(
                        stage,
                        true,
                        target,
                        head_id,
                        state_json,
                        staged_kind,
                        refresh_claim(change),
                    )
                }
            } else if text_equal(kind, "append") {
                if !same_generation(change.base_contribution_generation, current) {
                    ChangePlan::RequiresFull {
                        reason: BuildClassificationReason::SourceAppendBaseMismatch,
                    }
                } else if change.refresh_id.is_none() || !refresh_published {
                    ChangePlan::RequiresFull {
                        reason: BuildClassificationReason::SourceChangeJournalInvalid,
                    }
                } else {
                    let staged_kind = if is_staged_as(&stage.staged_kind, "added") {
                        StagedKind::Added
                    } else if is_staged_as(&stage.staged_kind, "replace") {
                        StagedKind::Replace
                    } else {
                        StagedKind::Append
                    };
                    staged_plan(
                        stage,
                        false,
                        target,
                        head_id,
                        state_json,
                        staged_kind,
                        refresh_claim(change),
                    )
                }
            } else if text_equal(kind, "metadata") {
                if !same_generation(current, Some(target)) || !is_current_head(
                    stage,
                    head_id.as_str(),
                ) {
                    ChangePlan::RequiresFull {
                        reason: BuildClassificationReason::SourceMetadataBaselineMismatch,
                    }
                } else {
                    let staged_kind = if is_staged_as(&stage.staged_kind, "added") {
                        StagedKind::Added
                    } else if is_staged_as(&stage.staged_kind, "append") {
                        StagedKind::Append
                    } else if is_staged_as(&stage.staged_kind, "replace") {
                        StagedKind::Replace
                    } else {
                        StagedKind::Metadata
                    };
                    staged_plan(stage, false, target, head_id, state_json, staged_kind, None)
                }
            } else {
                ChangePlan::RequiresFull {
                    reason: BuildClassificationReason::SourceChangeJournalInvalid,
                }
            }
        },
        _ => ChangePlan::RequiresFull {
            reason: BuildClassificationReason::SourceChangeJournalInvalid,
        },
    }
}

pub(crate) proof fn lemma_change_kinds_apart()
    ensures
        "added"@ != "append"@,
        "added"@ != "replace"@,
        "added"@ != "delete"@,
        "append"@ != "replace"@,
        "append"@ != "delete"@,
        "append"@ != "metadata"@,
        "replace"@ != "delete"@,
        "replace"@ != "metadata"@,
        "metadata"@ != "delete"@,
{
    if "added"@ == "append"@ {
        lemma_staged_kind_texts_differ(StagedKind::Added, StagedKind::Append);
    }
    if "added"@ == "replace"@ {
        lemma_staged_kind_texts_differ(StagedKind::Added, StagedKind::Replace);
    }
    if "added"@ == "delete"@ {
        lemma_staged_kind_texts_differ(StagedKind::Added, StagedKind::Delete);
    }
    if "append"@ == "replace"@ {
        lemma_staged_kind_texts_differ(StagedKind::Append, StagedKind::Replace);
    }
    if "append"@ == "delete"@ {
        lemma_staged_kind_texts_differ(StagedKind::Append, StagedKind::Delete);
    }
    if "append"@ == "metadata"@ {
        lemma_staged_kind_texts_differ(StagedKind::Append, StagedKind::Metadata);
    }
    if "replace"@ == "delete"@ {
        lemma_staged_kind_texts_differ(StagedKind::Replace, StagedKind::Delete);
    }
    if "replace"@ == "metadata"@ {
        lemma_staged_kind_texts_differ(StagedKind::Replace, StagedKind::Metadata);
    }
    if "metadata"@ == "delete"@ {
        lemma_staged_kind_texts_differ(StagedKind::Metadata, StagedKind::Delete);
    }
}

/// What a build knows of a branch after a plan was carried out.
pub open spec fn stage_after(stage: BranchStageView, plan: ChangePlanView) -> BranchStageView {
    match plan {
        ChangePlanView::RequiresFull { reason } => stage,
        ChangePlanView::Delete { baseline_generation } => BranchStageView {
            staged_kind: if baseline_generation is Some {
                Some("delete"@)
            } else {
                None
            },
            staged: None,
            ..stage
        },
        ChangePlanView::Stage {
            reset,
            point,
            state_json,
            kind,
            baseline_generation,
            removal_complete,
            scope_removal_complete,
            refresh,
        } => BranchStageView {
            staged_kind: Some(staged_kind_text(kind)),
            staged: Some(point),
            ..stage
        },
    }
}

/// A staged change takes its branch to the generation and the head that the journal names, and a
/// deletion leaves no branch.
pub proof fn lemma_staging_reaches_target(
    change: BranchChangeView,
    stage: BranchStageView,
    refresh_published: bool,
)
    requires
        !(change_plan(change, stage, refresh_published) is RequiresFull),
    ensures
        ({
            let after = stage_after(stage, change_plan(change, stage, refresh_published));
            &&& after.baseline == stage.baseline
            &&& if change.change_kind == "delete"@ {
                current_generation(after) is None
            } else {
                &&& current_generation(after) == change.target_contribution_generation
                &&& current_head(after) == change.head_id
            }
        }),
{
    lemma_change_kinds_apart();
}

/// A change that starts where the change before it ended is never taken for one with another
/// base.
pub proof fn lemma_following_append_fits(
    first: BranchChangeView,
    second: BranchChangeView,
    stage: BranchStageView,
    first_published: bool,
    second_published: bool,
)
    requires
        !(change_plan(first, stage, first_published) is RequiresFull),
        second.base_contribution_generation == (if first.change_kind == "delete"@ {
            None
        } else {
            first.target_contribution_generation
        }),
    ensures
        change_plan(
            second,
            stage_after(stage, change_plan(first, stage, first_published)),
            second_published,
        ) != (ChangePlanView::RequiresFull {
            reason: BuildClassificationReason::SourceAppendBaseMismatch,
        }),
{
    lemma_staging_reaches_target(first, stage, first_published);
    lemma_change_kinds_apart();
}

/// Once a branch is staged as new or as replaced, appending to it and changing its metadata keep
/// it so: its baseline still has to be removed, or there is none.
pub proof fn lemma_replacement_persists(
    change: BranchChangeView,
    stage: BranchStageView,
    refresh_published: bool,
)
    requires
        stage.staged_kind == Some("replace"@) || stage.staged_kind == Some("added"@),
        change.change_kind == "append"@ || change.change_kind == "metadata"@,
        !(change_plan(change, stage, refresh_published) is RequiresFull),
    ensures
        stage_after(stage, change_plan(change, stage, refresh_published)).staged_kind
            == stage.staged_kind,
{
    lemma_change_kinds_apart();
}

/// How far the emptying of what was staged of a branch has come.
#[derive(Debug, Clone, Copy, PartialEq, Eq, Structural)]
pub enum StagedReset {
    /// Rows were deleted; the next transaction goes on.
    Pending,
    /// The next table is emptied.
    Next,
    /// All is empty.
    Done,
}

/// How many tables hold what was staged of a branch.
pub const STAGED_TABLE_COUNT: usize = 2;

/// A table that holds what was staged of a branch.
pub fn staged_table(index: usize) -> (name: &'static str)
    requires
        index < 2,
    ensures
        name@ == (if index == 0 {
            "console_graph_build_branch_deltas"@
        } else {
            "console_graph_build_source_refresh_manifest"@
        }),
{
    if index == 0 {
        "console_graph_build_branch_deltas"
    } else {
        "console_graph_build_source_refresh_manifest"
    }
}

/// Decides what follows the deletion of a batch of what was staged of a branch.
pub fn reset_staged_branch_change(table: usize, deleted: usize) -> (step: StagedReset)
    requires
        table < 2,
    ensures
        step == (if deleted > 0 {
            StagedReset::Pending
        } else if table == 0 {
            StagedReset::Next
        } else {
            StagedReset::Done
        }),
{
    if deleted > 0 {
        StagedReset::Pending
    } else if table + 1 < STAGED_TABLE_COUNT {
        StagedReset::Next
    } else {
        StagedReset::Done
    }
}

/// The phase that a build goes on with, once its kind is known.
pub open spec fn kind_successor(kind: IncrementalBuildKind) -> InitPhase {
    match kind {
        IncrementalBuildKind::Full => InitPhase::FullReset,
        IncrementalBuildKind::Append => InitPhase::DeltaRemove,
    }
}

/// Decides on the change of phase once the kind of a build is known.
pub fn checkpoint_build_kind(phase: InitPhase, kind: IncrementalBuildKind) -> (change: PhaseChange)
    ensures
        change == (PhaseChange { from: phase, to: kind_successor(kind) }),
{
    match kind {
        IncrementalBuildKind::Full => PhaseChange { from: phase, to: InitPhase::FullReset },
        IncrementalBuildKind::Append => PhaseChange { from: phase, to: InitPhase::DeltaRemove },
    }
}

/// What the baseline was published from.
#[derive(Debug, Clone, Copy, PartialEq, Eq, Structural)]
pub struct BaselinePublication {
    pub source_revision: i64,
    pub publication_epoch: i64,
}

/// A build whose kind is known.
#[derive(Debug, Clone, Copy, PartialEq, Eq, Structural)]
pub struct KindDecision {
    pub kind: IncrementalBuildKind,
    pub reason: BuildClassificationReason,
    /// How many places the anchor scope of the baseline has, where it is reused.
    pub scope_count: Option<i64>,
    pub change: PhaseChange,
}

/// A full build, for a reason.
pub open spec fn full_decision(phase: InitPhase, reason: BuildClassificationReason) -> KindDecision {
    KindDecision {
        kind: IncrementalBuildKind::Full,
        reason,
        scope_count: None,
        change: PhaseChange { from: phase, to: InitPhase::FullReset },
    }
}

/// Decides on a full build.
pub fn choose_full(phase: InitPhase, reason: BuildClassificationReason) -> (decision: KindDecision)
    ensures
        decision == full_decision(phase, reason),
{
    KindDecision {
        kind: IncrementalBuildKind::Full,
        reason,
        scope_count: None,
        change: checkpoint_build_kind(phase, IncrementalBuildKind::Full),
    }
}

/// What a transaction on the kind of a build does first.
#[derive(Debug, Clone, Copy, PartialEq, Eq, Structural)]
pub enum KindStep {
    /// The kind is known.
    Decide { decision: KindDecision },
    /// The journal is read from the revision of the baseline on.
    StartJournal { publication: BaselinePublication, change: PhaseChange },
    /// A page of the journal is read.
    ReadJournal,
}

/// Decides what a transaction on the kind of a build does first. `publication` is what the
/// baseline was published from, where the baseline can be added to.
pub fn choose_build_kind(phase: &str, publication: Option<BaselinePublication>) -> (outcome: Result<
    KindStep,
    StepFailure,
>)
    ensures
        outcome == (if phase@ == "kind"@ {
            match publication {
                None => Ok(
                    KindStep::Decide {
                        decision: full_decision(
                            InitPhase::Kind,
                            BuildClassificationReason::BaselineDeltaCapabilityUnavailable,
                        ),
                    },
                ),
                Some(publication) => Ok(
                    KindStep::StartJournal {
                        publication,
                        change: PhaseChange { from: InitPhase::Kind, to: InitPhase::KindJournal },
                    },
                ),
            }
        } else if phase@ == "kind_journal"@ {
            Ok(KindStep::ReadJournal)
        } else {
            Err(StepFailure::NotFound)
        }),
        outcome matches Ok(KindStep::Decide { decision }) ==> is_transition(
            decision.change.from,
            decision.change.to,
        ),
        outcome matches Ok(KindStep::StartJournal { publication, change }) ==> is_transition(
            change.from,
            change.to,
        ),
{
    if text_equal(phase, "kind") {
        match publication {
            None => Ok(
                KindStep::Decide {
                    decision: choose_full(
                        InitPhase::Kind,
                        BuildClassificationReason::BaselineDeltaCapabilityUnavailable,
                    ),
                },
            ),
            Some(publication) => Ok(
                KindStep::StartJournal {
                    publication,
                    change: PhaseChange { from: InitPhase::Kind, to: InitPhase::KindJournal },
                },
            ),
        }
    } else if text_equal(phase, "kind_journal") {
        Ok(KindStep::ReadJournal)
    } else {
        Err(StepFailure::NotFound)
    }
}

/// Where the reading of the journal is.
#[derive(Debug, Clone, Copy, PartialEq, Eq, Structural)]
pub struct JournalRange {
    pub baseline_revision: i64,
    pub build_revision: i64,
    pub revision_cursor: i64,
}

/// What the baseline tells of its anchor scope: how many places it has, where that was recorded,
/// and whether the baseline has no anchors.
#[derive(Debug, Clone, Copy, PartialEq, Eq, Structural)]
pub struct BaselineScope {
    pub scope_count: Option<i64>,
    pub anchors_empty: bool,
}

/// What a transaction does with a page of the journal.
#[derive(Debug, Clone, Copy, PartialEq, Eq, Structural)]
pub enum JournalStep {
    /// The kind of the build is known.
    Decide { decision: KindDecision },
    /// The changes of the page are staged, and the cursor moves behind the page by this count.
    Stage { count: i64 },
}

/// The revisions of a page.
pub open spec fn page_revisions(changes: Seq<BranchChange>) -> Seq<i64> {
    changes.map_values(|change: BranchChange| change.source_revision)
}

/// What a transaction does with a page of the journal.
pub open spec fn journal_outcome(
    range: JournalRange,
    revisions: Seq<i64>,
    scope: BaselineScope,
) -> JournalStep {
    let gap = JournalStep::Decide {
        decision: full_decision(InitPhase::KindJournal, BuildClassificationReason::SourceJournalGap),
    };
    if revisions.len() > 0 {
        if page_contiguous(
            range.baseline_revision as int,
            range.revision_cursor as int,
            revisions,
        ) {
            JournalStep::Stage { count: count_i64(revisions.len() as usize) }
        } else {
            gap
        }
    } else if !cursor_covers(
        range.baseline_revision as int,
        range.build_revision as int,
        range.revision_cursor as int,
    ) {
        gap
    } else if scope.scope_count is None && !scope.anchors_empty {
        JournalStep::Decide {
            decision: full_decision(
                InitPhase::KindJournal,
                BuildClassificationReason::BaselineAnchorScopeManifestUnavailable,
            ),
        }
    } else {
        JournalStep::Decide {
            decision: KindDecision {
                kind: IncrementalBuildKind::Append,
                reason: BuildClassificationReason::SourceJournalDeltaCompatible,
                scope_count: Some(
                    match scope.scope_count {
                        Some(count) => count,
                        None => 0,
                    },
                ),
                change: PhaseChange { from: InitPhase::KindJournal, to: InitPhase::DeltaRemove },
            },
        }
    }
}

/// Decides what a transaction does with a page of the journal.
pub fn journal_step(range: JournalRange, changes: &Vec<BranchChange>, scope: BaselineScope) -> (step:
    JournalStep)
    ensures
        step == journal_outcome(range, page_revisions(changes@), scope),
        step matches JournalStep::Decide { decision } ==> is_transition(
            decision.change.from,
            decision.change.to,
        ),
{
    let mut revisions: Vec<i64> = Vec::new();
    let mut i: usize = 0;
    while i < changes.len()
        invariant
            0 <= i <= changes.len(),
            revisions@.len() == i,
            forall|j: int| 0 <= j < i ==> #[trigger] revisions@[j] == changes@[j].source_revision,
        decreases changes.len() - i,
    {
        revisions.push(changes[i].source_revision);
        i += 1;
    }
    assert(revisions@ =~= page_revisions(changes@));
    if changes.len() > 0 {
        if journal_page_is_contiguous(range.baseline_revision, range.revision_cursor, &revisions) {
            JournalStep::Stage { count: count_as_i64(changes.len()) }
        } else {
            JournalStep::Decide {
                decision: choose_full(
                    InitPhase::KindJournal,
                    BuildClassificationReason::SourceJournalGap,
                ),
            }
        }
    } else if !journal_cursor_covers_revision_range(
        range.baseline_revision,
        range.build_revision,
        range.revision_cursor,
    ) {
        JournalStep::Decide {
            decision: choose_full(
                InitPhase::KindJournal,
                BuildClassificationReason::SourceJournalGap,
            ),
        }
    } else {
        let count: i64 = match scope.scope_count {
            Some(count) => count,
            None => {
                if !scope.anchors_empty {
                    return JournalStep::Decide {
                        decision: choose_full(
                            InitPhase::KindJournal,
                            BuildClassificationReason::BaselineAnchorScopeManifestUnavailable,
                        ),
                    };
                }
                0
            },
        };
        JournalStep::Decide {
            decision: KindDecision {
                kind: IncrementalBuildKind::Append,
                reason: BuildClassificationReason::SourceJournalDeltaCompatible,
                scope_count: Some(count),
                change: checkpoint_build_kind(
                    InitPhase::KindJournal,
                    IncrementalBuildKind::Append,
                ),
            },
        }
    }
}

/// A build adds to its baseline only after every revision since the baseline was read.
pub proof fn lemma_append_needs_whole_journal(
    range: JournalRange,
    read: Seq<i64>,
    scope: BaselineScope,
    revision: i64,
)
    requires
        page_contiguous(range.baseline_revision as int, 0, read),
        range.revision_cursor == cursor_after(0, read),
        journal_outcome(range, Seq::empty(), scope) matches JournalStep::Decide { decision }
            && decision.kind == IncrementalBuildKind::Append,
        range.baseline_revision < revision <= range.build_revision,
    ensures
        read.contains(revision),
{
    lemma_covered_journal_is_complete(
        range.baseline_revision,
        range.build_revision,
        read,
        revision,
    );
}

} // verus!
