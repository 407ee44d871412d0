//! The decisions of the incremental graph builder. The builder keeps its work in a database and
//! runs in small transactions; each function here takes what a transaction read and says what it
//! writes.

pub mod buffer;
pub mod classify;
pub mod delta;
pub mod finalize;
pub mod init;
pub mod laws;
pub mod manifest;
pub mod paging;
pub mod place;
pub mod project;
pub mod scope;
pub mod step_laws;
pub mod traverse;

use vstd::prelude::*;
use vstd::string::*;
use crate::text::decimal;
use crate::text::decimal_text;
use crate::text::signed_decimal_i64;
use crate::text::signed_text;
use crate::text::text_equal;

verus! {

pub const DEFAULT_FRONTIER_LOW_WATERMARK: usize = 4_096;

pub const DEFAULT_FRONTIER_HIGH_WATERMARK: usize = 8_192;

pub const DEFAULT_GRAPH_BUFFER_LIMIT: usize = 256;

pub const DEFAULT_CHILD_PAGE_SIZE: usize = 128;

pub const PARENT_REQUIREMENT_PAGE_SIZE: i64 = 128;

pub const BUILD_PROGRESS_NODE_INTERVAL: usize = 10_000;

pub const BRANCH_CHANGE_RESET_BATCH_SIZE: i64 = 128;

pub const MANIFEST_BATCH_SIZE: i64 = 128;

pub const REMOVAL_BATCH_SIZE: i64 = 128;

pub const DELTA_BATCH_SIZE: i64 = 128;

pub const SCOPE_BATCH_SIZE: i64 = 16;

pub const JOURNAL_BATCH_SIZE: i64 = 1;

/// A stored value that the builder cannot go on with.
#[derive(Debug, Clone, PartialEq, Eq)]
pub struct InvalidStoreValue {
    pub column: String,
    pub value: String,
}

/// A stored value with its texts as characters.
#[verifier::ext_equal]
pub struct InvalidStoreValueView {
    pub column: Seq<char>,
    pub value: Seq<char>,
}

impl View for InvalidStoreValue {
    type V = InvalidStoreValueView;

    open spec fn view(&self) -> InvalidStoreValueView {
        InvalidStoreValueView { column: self.column@, value: self.value@ }
    }
}

pub(crate) fn invalid(column: &str, value: &str) -> (error: InvalidStoreValue)
    ensures
        error@ == (InvalidStoreValueView { column: column@, value: value@ }),
{
    InvalidStoreValue { column: column.to_owned(), value: value.to_owned() }
}

/// Why a transaction is given up: what it relied on is no longer there, or what it read
/// contradicts itself.
#[derive(Debug, Clone, Copy, PartialEq, Eq, Structural)]
pub enum StepFailure {
    NotFound,
    Rollback,
}

/// A checkpoint must change exactly the row that it was made from.
pub fn require_single_update(updated: usize) -> (outcome: Result<(), StepFailure>)
    ensures
        outcome == (if updated == 1 {
            Ok(())
        } else {
            Err(StepFailure::NotFound)
        }),
{
    if updated == 1 {
        Ok(())
    } else {
        Err(StepFailure::NotFound)
    }
}

/// A build may write only while it owns its run.
pub fn require_build_fence(owned_runs: i64) -> (outcome: Result<(), StepFailure>)
    ensures
        outcome == (if owned_runs == 1 {
            Ok(())
        } else {
            Err(StepFailure::NotFound)
        }),
{
    if owned_runs == 1 {
        Ok(())
    } else {
        Err(StepFailure::NotFound)
    }
}

/// The `i64` nearest to a count.
pub open spec fn count_i64(count: usize) -> i64 {
    if count > i64::MAX {
        i64::MAX
    } else {
        count as i64
    }
}

pub fn count_as_i64(count: usize) -> (value: i64)
    ensures
        value == count_i64(count),
{
    if count as u64 > 9_223_372_036_854_775_807 {
        i64::MAX
    } else {
        count as i64
    }
}

/// How many discovered nodes are added to those of the run, where there are any.
pub open spec fn discovered_count(inserted: usize) -> Option<i64> {
    if inserted == 0 {
        None
    } else {
        Some(count_i64(inserted))
    }
}

/// How many discovered nodes are added to those of the run, where there are any.
pub fn record_discovered_nodes(inserted: usize) -> (added: Option<i64>)
    ensures
        added == discovered_count(inserted),
{
    if inserted == 0 {
        None
    } else {
        Some(count_as_i64(inserted))
    }
}

/// The limits that a build works within.
#[derive(Debug, Clone, Copy, PartialEq, Eq, Structural)]
pub struct IncrementalBuildConfig {
    pub frontier_low_watermark: usize,
    pub frontier_high_watermark: usize,
    pub graph_buffer_limit: usize,
    pub child_page_size: usize,
}

impl Default for IncrementalBuildConfig {
    fn default() -> (config: Self)
        ensures
            config == (IncrementalBuildConfig {
                frontier_low_watermark: 4_096,
                frontier_high_watermark: 8_192,
                graph_buffer_limit: 256,
                child_page_size: 128,
            }),
            config_valid(config),
    {
        IncrementalBuildConfig {
            frontier_low_watermark: DEFAULT_FRONTIER_LOW_WATERMARK,
            frontier_high_watermark: DEFAULT_FRONTIER_HIGH_WATERMARK,
            graph_buffer_limit: DEFAULT_GRAPH_BUFFER_LIMIT,
            child_page_size: DEFAULT_CHILD_PAGE_SIZE,
        }
    }
}

/// Whether a build can work within some limits.
pub open spec fn config_valid(config: IncrementalBuildConfig) -> bool {
    &&& config.graph_buffer_limit > 0
    &&& config.child_page_size > 0
    &&& config.child_page_size <= config.frontier_high_watermark
}

/// The limits that matter, in words.
pub open spec fn config_text(config: IncrementalBuildConfig) -> Seq<char> {
    "graph_buffer_limit="@ + decimal_text(config.graph_buffer_limit as nat) + " child_page_size="@
        + decimal_text(config.child_page_size as nat) + " frontier_high_watermark="@ + decimal_text(
        config.frontier_high_watermark as nat,
    )
}

/// Checks the limits of a build.
pub fn validate_incremental_build_config(config: IncrementalBuildConfig) -> (outcome: Result<
    (),
    InvalidStoreValue,
>)
    ensures
        outcome is Ok <==> config_valid(config),
        outcome matches Err(error) ==> error@ == (InvalidStoreValueView {
            column: "incremental_build_config"@,
            value: config_text(config),
        }),
{
    if config.graph_buffer_limit > 0 && config.child_page_size > 0 && config.child_page_size
        <= config.frontier_high_watermark {
        Ok(())
    } else {
        let value = "graph_buffer_limit=".to_owned().concat(
            decimal(config.graph_buffer_limit as u64).as_str(),
        ).concat(" child_page_size=").concat(decimal(config.child_page_size as u64).as_str()).concat(
            " frontier_high_watermark=",
        ).concat(decimal(config.frontier_high_watermark as u64).as_str());
        Err(invalid("incremental_build_config", value.as_str()))
    }
}

/// Why a build reuses its baseline, or why it does not.
#[derive(Debug, Clone, Copy, PartialEq, Eq, Structural)]
pub enum BuildClassificationReason {
    Unclassified,
    SourceJournalDeltaCompatible,
    BaselineDeltaCapabilityUnavailable,
    SourceJournalGap,
    SourceAppendBaseMismatch,
    SourceChangeJournalInvalid,
    SourceMetadataBaselineMismatch,
    BaselineAnchorScopeManifestUnavailable,
}

/// The stored text of a reason.
pub open spec fn reason_text(reason: BuildClassificationReason) -> Seq<char> {
    match reason {
        BuildClassificationReason::Unclassified => "unclassified"@,
        BuildClassificationReason::SourceJournalDeltaCompatible => "source_journal_delta_compatible"@,
        BuildClassificationReason::BaselineDeltaCapabilityUnavailable =>
            "baseline_delta_capability_unavailable"@,
        BuildClassificationReason::SourceJournalGap => "source_change_journal_gap"@,
        BuildClassificationReason::SourceAppendBaseMismatch => "source_append_base_mismatch"@,
        BuildClassificationReason::SourceChangeJournalInvalid => "source_change_journal_invalid"@,
        BuildClassificationReason::SourceMetadataBaselineMismatch =>
            "source_metadata_baseline_mismatch"@,
        BuildClassificationReason::BaselineAnchorScopeManifestUnavailable =>
            "baseline_anchor_scope_manifest_unavailable"@,
    }
}

impl BuildClassificationReason {
    /// The stored text of this reason.
    pub fn as_str(self) -> (text: &'static str)
        ensures
            text@ == reason_text(self),
    {
        match self {
            BuildClassificationReason::Unclassified => "unclassified",
            BuildClassificationReason::SourceJournalDeltaCompatible => {
                "source_journal_delta_compatible"
            },
            BuildClassificationReason::BaselineDeltaCapabilityUnavailable => {
                "baseline_delta_capability_unavailable"
            },
            BuildClassificationReason::SourceJournalGap => "source_change_journal_gap",
            BuildClassificationReason::SourceAppendBaseMismatch => "source_append_base_mismatch",
            BuildClassificationReason::SourceChangeJournalInvalid => "source_change_journal_invalid",
            BuildClassificationReason::SourceMetadataBaselineMismatch => {
                "source_metadata_baseline_mismatch"
            },
            BuildClassificationReason::BaselineAnchorScopeManifestUnavailable => {
                "baseline_anchor_scope_manifest_unavailable"
            },
        }
    }
}

/// Different reasons have different texts.
pub proof fn lemma_reason_texts_differ(a: BuildClassificationReason, b: BuildClassificationReason)
    requires
        reason_text(a) == reason_text(b),
    ensures
        a == b,
{
    reveal_strlit("unclassified");
    reveal_strlit("source_journal_delta_compatible");
    reveal_strlit("baseline_delta_capability_unavailable");
    reveal_strlit("source_change_journal_gap");
    reveal_strlit("source_append_base_mismatch");
    reveal_strlit("source_change_journal_invalid");
    reveal_strlit("source_metadata_baseline_mismatch");
    reveal_strlit("baseline_anchor_scope_manifest_unavailable");
    assert("unclassified"@.len() == 12);
    assert("source_journal_delta_compatible"@.len() == 31);
    assert("baseline_delta_capability_unavailable"@.len() == 37);
    assert("source_change_journal_gap"@.len() == 25);
    assert("source_append_base_mismatch"@.len() == 27);
    assert("source_change_journal_invalid"@.len() == 29);
    assert("source_metadata_baseline_mismatch"@.len() == 33);
    assert("baseline_anchor_scope_manifest_unavailable"@.len() == 42);
}

/// Reads a stored reason.
pub fn stored_build_classification_reason(value: &str) -> (outcome: Result<
    BuildClassificationReason,
    (),
>)
    ensures
        match outcome {
            Ok(reason) => value@ == reason_text(reason),
            Err(_) => forall|reason: BuildClassificationReason| value@ != #[trigger] reason_text(reason),
        },
{
    if text_equal(value, "unclassified") {
        Ok(BuildClassificationReason::Unclassified)
    } else if text_equal(value, "source_journal_delta_compatible") {
        Ok(BuildClassificationReason::SourceJournalDeltaCompatible)
    } else if text_equal(value, "baseline_delta_capability_unavailable") {
        Ok(BuildClassificationReason::BaselineDeltaCapabilityUnavailable)
    } else if text_equal(value, "source_change_journal_gap") {
        Ok(BuildClassificationReason::SourceJournalGap)
    } else if text_equal(value, "source_append_base_mismatch") {
        Ok(BuildClassificationReason::SourceAppendBaseMismatch)
    } else if text_equal(value, "source_change_journal_invalid") {
        Ok(BuildClassificationReason::SourceChangeJournalInvalid)
    } else if text_equal(value, "source_metadata_baseline_mismatch") {
        Ok(BuildClassificationReason::SourceMetadataBaselineMismatch)
    } else if text_equal(value, "baseline_anchor_scope_manifest_unavailable") {
        Ok(BuildClassificationReason::BaselineAnchorScopeManifestUnavailable)
    } else {
        Err(())
    }
}

/// Whether a build starts over or adds to its baseline.
#[derive(Debug, Clone, Copy, PartialEq, Eq, Structural)]
pub enum IncrementalBuildKind {
    Full,
    Append,
}

/// The stored text of a kind.
pub open spec fn kind_text(kind: IncrementalBuildKind) -> Seq<char> {
    match kind {
        IncrementalBuildKind::Full => "full"@,
        IncrementalBuildKind::Append => "append"@,
    }
}

/// The stored text of a kind.
pub fn build_kind_value(kind: IncrementalBuildKind) -> (text: &'static str)
    ensures
        text@ == kind_text(kind),
{
    match kind {
        IncrementalBuildKind::Full => "full",
        IncrementalBuildKind::Append => "append",
    }
}

/// Different kinds have different texts.
pub proof fn lemma_kind_texts_differ(a: IncrementalBuildKind, b: IncrementalBuildKind)
    requires
        kind_text(a) == kind_text(b),
    ensures
        a == b,
{
    reveal_strlit("full");
    reveal_strlit("append");
    assert("full"@.len() == 4);
    assert("append"@.len() == 6);
}

/// Reads a stored kind.
pub fn stored_build_kind(value: Option<&str>) -> (outcome: Result<IncrementalBuildKind, ()>)
    ensures
        match outcome {
            Ok(kind) => value matches Some(text) && text@ == kind_text(kind),
            Err(_) => value matches Some(text) ==> text@ != "full"@ && text@ != "append"@,
        },
{
    match value {
        None => Err(()),
        Some(text) => {
            if text_equal(text, "full") {
                Ok(IncrementalBuildKind::Full)
            } else if text_equal(text, "append") {
                Ok(IncrementalBuildKind::Append)
            } else {
                Err(())
            }
        },
    }
}

/// Reads a stored count.
pub fn stored_node_count(column: &str, value: i64) -> (outcome: Result<usize, InvalidStoreValue>)
    ensures
        match outcome {
            Ok(count) => value >= 0 && count == value,
            Err(error) => (value < 0 || value > usize::MAX) && error@ == (InvalidStoreValueView {
                column: column@,
                value: signed_text(value as int),
            }),
        },
{
    if value < 0 || value as u64 > usize::MAX as u64 {
        Err(invalid(column, signed_decimal_i64(value).as_str()))
    } else {
        Ok(value as usize)
    }
}

/// The `i64` nearest to a number.
pub open spec fn saturate_i64(value: int) -> i64 {
    if value > i64::MAX {
        i64::MAX
    } else if value < i64::MIN {
        i64::MIN
    } else {
        value as i64
    }
}

/// The `i64` nearest to a number.
pub fn saturating_i64(value: i128) -> (bounded: i64)
    ensures
        bounded == saturate_i64(value as int),
{
    if value > 9_223_372_036_854_775_807 {
        i64::MAX
    } else if value < -9_223_372_036_854_775_808 {
        i64::MIN
    } else {
        value as i64
    }
}

/// How far a build has come.
#[derive(Debug, Clone, Copy, PartialEq, Eq, Structural)]
pub struct DagProgress {
    pub discovered_nodes: usize,
    pub processed_nodes: usize,
}

/// Reads how far a build has come.
pub fn dag_progress(discovered: i64, processed: i64) -> (outcome: Result<
    DagProgress,
    InvalidStoreValue,
>)
    ensures
        match outcome {
            Ok(progress) => discovered >= 0 && processed >= 0 && progress.discovered_nodes == discovered
                && progress.processed_nodes == processed,
            Err(error) => if discovered < 0 || discovered > usize::MAX {
                error@ == (InvalidStoreValueView {
                    column: "dag_discovered_node_count"@,
                    value: signed_text(discovered as int),
                })
            } else {
                (processed < 0 || processed > usize::MAX) && error@ == (InvalidStoreValueView {
                    column: "dag_processed_node_count"@,
                    value: signed_text(processed as int),
                })
            },
        },
{
    let discovered_nodes: usize = match stored_node_count("dag_discovered_node_count", discovered) {
        Err(error) => return Err(error),
        Ok(count) => count,
    };
    let processed_nodes: usize = match stored_node_count("dag_processed_node_count", processed) {
        Err(error) => return Err(error),
        Ok(count) => count,
    };
    Ok(DagProgress { discovered_nodes, processed_nodes })
}

/// The text of a truth value.
pub open spec fn bool_text(value: bool) -> Seq<char> {
    if value {
        "true"@
    } else {
        "false"@
    }
}

/// A build is complete once every discovered node is processed.
pub fn validate_incremental_completion(progress: DagProgress, has_unprocessed_nodes: bool) -> (outcome:
    Result<(), InvalidStoreValue>)
    ensures
        outcome is Ok <==> !has_unprocessed_nodes && progress.processed_nodes
            == progress.discovered_nodes,
        outcome matches Err(error) ==> error@ == (InvalidStoreValueView {
            column: "incremental_graph"@,
            value: "processed="@ + decimal_text(progress.processed_nodes as nat) + " discovered="@
                + decimal_text(progress.discovered_nodes as nat) + " has_unprocessed_nodes="@
                + bool_text(has_unprocessed_nodes),
        }),
{
    if !has_unprocessed_nodes && progress.processed_nodes == progress.discovered_nodes {
        return Ok(());
    }
    let flag = if has_unprocessed_nodes {
        "true"
    } else {
        "false"
    };
    let value = "processed=".to_owned().concat(decimal(progress.processed_nodes as u64).as_str()).concat(
        " discovered=",
    ).concat(decimal(progress.discovered_nodes as u64).as_str()).concat(
        " has_unprocessed_nodes=",
    ).concat(flag);
    Err(invalid("incremental_graph", value.as_str()))
}

} // verus!
