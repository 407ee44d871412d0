//! Snapshots of the conversation graph.

use vstd::prelude::*;

verus! {

/// Which nodes of the conversation a graph shows.
#[derive(Debug, Clone, Copy, PartialEq, Eq, PartialOrd, Ord, Hash, Structural)]
pub enum GraphMode {
    Anchors,
    All,
}

/// The text of a mode in queries.
pub open spec fn mode_text(mode: GraphMode) -> Seq<char> {
    match mode {
        GraphMode::Anchors => "anchors"@,
        GraphMode::All => "all"@,
    }
}

impl GraphMode {
    /// The text of this mode in queries.
    pub fn as_query_value(self) -> (text: &'static str)
        ensures
            text@ == mode_text(self),
    {
        match self {
            GraphMode::Anchors => "anchors",
            GraphMode::All => "all",
        }
    }
}

#[derive(Debug, Clone, Copy, PartialEq, Eq, PartialOrd, Ord, Hash, Structural)]
pub enum GraphEdgeKind {
    Primary,
    Merge,
    Shadow,
}

/// A node of a snapshot. `node_target` is the anchor by which pages link to it.
#[derive(Debug, Clone, PartialEq, Eq)]
pub struct GraphNode {
    pub id: String,
    pub node_target: String,
    pub short_id: String,
    pub kind: String,
    pub role: String,
    pub created_at: String,
    pub created_at_ns: i128,
    pub content: String,
    pub summary: String,
    pub labels: Vec<String>,
    pub provider_context_ids: Vec<String>,
}

#[derive(Debug, Clone, PartialEq, Eq)]
pub struct GraphEdge {
    pub source: String,
    pub target: String,
    pub kind: GraphEdgeKind,
}

#[derive(Debug, Clone, PartialEq, Eq)]
pub struct GraphBranch {
    pub name: String,
    pub head_id: String,
    pub visible_head_id: Option<String>,
}

#[derive(Debug, Clone, PartialEq, Eq)]
pub struct GraphSnapshot {
    pub version: u64,
    pub mode: GraphMode,
    pub root_id: String,
    pub nodes: Vec<GraphNode>,
    pub edges: Vec<GraphEdge>,
    pub branches: Vec<GraphBranch>,
}

/// Different modes have different texts.
pub proof fn lemma_mode_texts_differ(a: GraphMode, b: GraphMode)
    requires
        mode_text(a) == mode_text(b),
    ensures
        a == b,
{
    reveal_strlit("anchors");
    reveal_strlit("all");
    assert("anchors"@.len() == 7 && "all"@.len() == 3);
}

} // verus!
