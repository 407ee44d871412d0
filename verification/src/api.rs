//! What the console's pages and its host exchange about the graph.

use vstd::prelude::*;
use crate::ordered::texts;
use crate::ordered::TextMap;
use crate::text::append_part;
use crate::text::copy_strings;
use crate::text::decimal_text;
use crate::text::lemma_decimal_injective;
use crate::text::lemma_record_injective;
use crate::text::record_text;
use crate::text::signed_decimal;
use crate::text::signed_text;

verus! {

#[derive(Debug, Clone, Copy, PartialEq, Eq, Structural)]
pub struct Point {
    pub x: i32,
    pub y: i32,
}

#[derive(Debug, Clone, Copy, PartialEq, Eq, Structural)]
pub struct GraphBezierRoute {
    pub source: Point,
    pub control_1: Point,
    pub control_2: Point,
    pub target: Point,
}

#[derive(Debug, Clone, Copy, PartialEq, Eq, PartialOrd, Ord, Hash, Structural)]
pub enum GraphViewportEdgeKind {
    Primary,
    Merge,
    Shadow,
}

/// The text of a kind in the keys of edges.
pub open spec fn kind_text(kind: GraphViewportEdgeKind) -> Seq<char> {
    match kind {
        GraphViewportEdgeKind::Primary => "primary_parent"@,
        GraphViewportEdgeKind::Merge => "merge_parent"@,
        GraphViewportEdgeKind::Shadow => "shadow_parent"@,
    }
}

impl GraphViewportEdgeKind {
    /// The text of this kind in the keys of edges.
    pub fn key_part(self) -> (part: &'static str)
        ensures
            part@ == kind_text(self),
    {
        match self {
            GraphViewportEdgeKind::Primary => "primary_parent",
            GraphViewportEdgeKind::Merge => "merge_parent",
            GraphViewportEdgeKind::Shadow => "shadow_parent",
        }
    }
}

#[derive(Debug, Clone, Copy, PartialEq, Eq, Structural)]
pub struct GraphCanvas {
    pub width: i32,
    pub height: i32,
}

/// The part of the canvas that a page shows.
#[derive(Debug, Clone, Copy, PartialEq, Eq, Structural)]
pub struct GraphViewport {
    pub x: i32,
    pub y: i32,
    pub width: i32,
    pub height: i32,
    pub overscan: i32,
}

#[derive(Debug, PartialEq, Eq)]
pub struct GraphViewportNode {
    pub key: String,
    pub id: String,
    pub node_target: String,
    pub short_id: String,
    pub kind: String,
    pub summary: String,
    pub labels: Vec<String>,
    pub x: i32,
    pub y: i32,
}

/// A drawn node with its texts as characters.
#[verifier::ext_equal]
pub struct GraphViewportNodeView {
    pub key: Seq<char>,
    pub id: Seq<char>,
    pub node_target: Seq<char>,
    pub short_id: Seq<char>,
    pub kind: Seq<char>,
    pub summary: Seq<char>,
    pub labels: Seq<Seq<char>>,
    pub x: i32,
    pub y: i32,
}

impl View for GraphViewportNode {
    type V = GraphViewportNodeView;

    open spec fn view(&self) -> GraphViewportNodeView {
        GraphViewportNodeView {
            key: self.key@,
            id: self.id@,
            node_target: self.node_target@,
            short_id: self.short_id@,
            kind: self.kind@,
            summary: self.summary@,
            labels: texts(self.labels@),
            x: self.x,
            y: self.y,
        }
    }
}

impl Clone for GraphViewportNode {
    fn clone(&self) -> (copy: Self)
        ensures
            copy@ == self@,
    {
        GraphViewportNode {
            key: self.key.clone(),
            id: self.id.clone(),
            node_target: self.node_target.clone(),
            short_id: self.short_id.clone(),
            kind: self.kind.clone(),
            summary: self.summary.clone(),
            labels: copy_strings(&self.labels),
            x: self.x,
            y: self.y,
        }
    }
}

#[derive(Debug, PartialEq, Eq)]
pub struct GraphViewportEdge {
    pub key: String,
    pub kind: GraphViewportEdgeKind,
    pub source_id: String,
    pub target_id: String,
    pub route: GraphBezierRoute,
}

/// A drawn edge with its texts as characters.
#[verifier::ext_equal]
pub struct GraphViewportEdgeView {
    pub key: Seq<char>,
    pub kind: GraphViewportEdgeKind,
    pub source_id: Seq<char>,
    pub target_id: Seq<char>,
    pub route: GraphBezierRoute,
}

impl View for GraphViewportEdge {
    type V = GraphViewportEdgeView;

    open spec fn view(&self) -> GraphViewportEdgeView {
        GraphViewportEdgeView {
            key: self.key@,
            kind: self.kind,
            source_id: self.source_id@,
            target_id: self.target_id@,
            route: self.route,
        }
    }
}

impl Clone for GraphViewportEdge {
    fn clone(&self) -> (copy: Self)
        ensures
            copy@ == self@,
    {
        GraphViewportEdge {
            key: self.key.clone(),
            kind: self.kind,
            source_id: self.source_id.clone(),
            target_id: self.target_id.clone(),
            route: self.route,
        }
    }
}

/// What tells whether a drawn node changed: its place, then its texts, then its labels.
pub open spec fn node_parts(node: GraphViewportNodeView) -> Seq<Seq<char>> {
    seq![
        signed_text(node.x as int),
        signed_text(node.y as int),
        node.id,
        node.node_target,
        node.short_id,
        node.kind,
        node.summary,
    ] + node.labels
}

/// What tells whether a drawn edge changed: its kind, its ends and its curve.
pub open spec fn edge_parts(edge: GraphViewportEdgeView) -> Seq<Seq<char>> {
    seq![
        kind_text(edge.kind),
        edge.source_id,
        edge.target_id,
        signed_text(edge.route.source.x as int),
        signed_text(edge.route.source.y as int),
        signed_text(edge.route.control_1.x as int),
        signed_text(edge.route.control_1.y as int),
        signed_text(edge.route.control_2.x as int),
        signed_text(edge.route.control_2.y as int),
        signed_text(edge.route.target.x as int),
        signed_text(edge.route.target.y as int),
    ]
}

impl GraphViewportNode {
    /// A text that is the same for two nodes exactly where they are drawn alike.
    pub fn fingerprint(&self) -> (text: String)
        ensures
            text@ == record_text(node_parts(self@)),
    {
        let mut text = String::new();
        let ghost parts = Seq::<Seq<char>>::empty();
        let x = signed_decimal(self.x);
        let y = signed_decimal(self.y);
        append_part(&mut text, x.as_str(), Ghost(parts));
        append_part(&mut text, y.as_str(), Ghost(parts.push(x@)));
        let ghost parts = parts.push(x@).push(y@);
        append_part(&mut text, self.id.as_str(), Ghost(parts));
        let ghost parts = parts.push(self.id@);
        append_part(&mut text, self.node_target.as_str(), Ghost(parts));
        let ghost parts = parts.push(self.node_target@);
        append_part(&mut text, self.short_id.as_str(), Ghost(parts));
        let ghost parts = parts.push(self.short_id@);
        append_part(&mut text, self.kind.as_str(), Ghost(parts));
        let ghost parts = parts.push(self.kind@);
        append_part(&mut text, self.summary.as_str(), Ghost(parts));
        let ghost parts = parts.push(self.summary@);
        let ghost labels = texts(self.labels@);
        let mut i: usize = 0;
        assert(parts + labels.take(0) =~= parts);
        while i < self.labels.len()
            invariant
                labels == texts(self.labels@),
                0 <= i <= self.labels.len(),
                text@ == record_text(parts + labels.take(i as int)),
            decreases self.labels.len() - i,
        {
            append_part(&mut text, self.labels[i].as_str(), Ghost(parts + labels.take(i as int)));
            assert(parts + labels.take(i + 1) =~= (parts + labels.take(i as int)).push(
                self.labels@[i as int]@,
            ));
            i += 1;
        }
        assert(labels.take(i as int) =~= labels);
        assert(parts + labels =~= node_parts(self@));
        text
    }
}

impl GraphViewportEdge {
    /// A text that is the same for two edges exactly where they are drawn alike.
    pub fn fingerprint(&self) -> (text: String)
        ensures
            text@ == record_text(edge_parts(self@)),
    {
        let mut text = String::new();
        let ghost parts = Seq::<Seq<char>>::empty();
        append_part(&mut text, self.kind.key_part(), Ghost(parts));
        let ghost parts = parts.push(kind_text(self.kind));
        append_part(&mut text, self.source_id.as_str(), Ghost(parts));
        let ghost parts = parts.push(self.source_id@);
        append_part(&mut text, self.target_id.as_str(), Ghost(parts));
        let ghost parts = parts.push(self.target_id@);
        append_point(&mut text, self.route.source, Ghost(parts));
        let ghost parts = parts.push(signed_text(self.route.source.x as int)).push(
            signed_text(self.route.source.y as int),
        );
        append_point(&mut text, self.route.control_1, Ghost(parts));
        let ghost parts = parts.push(signed_text(self.route.control_1.x as int)).push(
            signed_text(self.route.control_1.y as int),
        );
        append_point(&mut text, self.route.control_2, Ghost(parts));
        let ghost parts = parts.push(signed_text(self.route.control_2.x as int)).push(
            signed_text(self.route.control_2.y as int),
        );
        append_point(&mut text, self.route.target, Ghost(parts));
        let ghost parts = parts.push(signed_text(self.route.target.x as int)).push(
            signed_text(self.route.target.y as int),
        );
        assert(parts =~= edge_parts(self@));
        text
    }
}

fn append_point(record: &mut String, point: Point, Ghost(parts): Ghost<Seq<Seq<char>>>)
    requires
        old(record)@ == record_text(parts),
    ensures
        final(record)@ == record_text(
            parts.push(signed_text(point.x as int)).push(signed_text(point.y as int)),
        ),
{
    let x = signed_decimal(point.x);
    let y = signed_decimal(point.y);
    append_part(record, x.as_str(), Ghost(parts));
    append_part(record, y.as_str(), Ghost(parts.push(x@)));
}

/// A decimal with sign belongs to one number only.
pub proof fn lemma_signed_injective(a: int, b: int)
    requires
        signed_text(a) == signed_text(b),
    ensures
        a == b,
{
    crate::text::lemma_unsigned_start(a);
    crate::text::lemma_unsigned_start(b);
    if a < 0 && b < 0 {
        assert(signed_text(a).drop_first() =~= decimal_text((-a) as nat));
        assert(signed_text(b).drop_first() =~= decimal_text((-b) as nat));
        lemma_decimal_injective((-a) as nat, (-b) as nat);
    } else if a >= 0 && b >= 0 {
        lemma_decimal_injective(a as nat, b as nat);
    }
}

/// Two nodes with one fingerprint are drawn alike: they differ in their keys at most.
pub proof fn lemma_node_fingerprint(a: GraphViewportNodeView, b: GraphViewportNodeView)
    requires
        record_text(node_parts(a)) == record_text(node_parts(b)),
    ensures
        a == (GraphViewportNodeView { key: a.key, ..b }),
{
    lemma_record_injective(node_parts(a), node_parts(b));
    let x = node_parts(a);
    let y = node_parts(b);
    assert(x[0] == y[0] && x[1] == y[1] && x[2] == y[2] && x[3] == y[3] && x[4] == y[4] && x[5] == y[5]
        && x[6] == y[6]);
    lemma_signed_injective(a.x as int, b.x as int);
    lemma_signed_injective(a.y as int, b.y as int);
    assert(a.labels =~= x.skip(7));
    assert(b.labels =~= y.skip(7));
}

/// Two edges with one fingerprint are drawn alike: they differ in their keys at most.
pub proof fn lemma_edge_fingerprint(a: GraphViewportEdgeView, b: GraphViewportEdgeView)
    requires
        record_text(edge_parts(a)) == record_text(edge_parts(b)),
    ensures
        a == (GraphViewportEdgeView { key: a.key, ..b }),
{
    lemma_record_injective(edge_parts(a), edge_parts(b));
    let x = edge_parts(a);
    let y = edge_parts(b);
    assert(x[0] == y[0] && x[1] == y[1] && x[2] == y[2] && x[3] == y[3] && x[4] == y[4] && x[5] == y[5]
        && x[6] == y[6] && x[7] == y[7] && x[8] == y[8] && x[9] == y[9] && x[10] == y[10]);
    reveal_strlit("primary_parent");
    reveal_strlit("merge_parent");
    reveal_strlit("shadow_parent");
    assert("primary_parent"@[0] == 'p' && "merge_parent"@[0] == 'm' && "shadow_parent"@[0] == 's');
    lemma_signed_injective(a.route.source.x as int, b.route.source.x as int);
    lemma_signed_injective(a.route.source.y as int, b.route.source.y as int);
    lemma_signed_injective(a.route.control_1.x as int, b.route.control_1.x as int);
    lemma_signed_injective(a.route.control_1.y as int, b.route.control_1.y as int);
    lemma_signed_injective(a.route.control_2.x as int, b.route.control_2.x as int);
    lemma_signed_injective(a.route.control_2.y as int, b.route.control_2.y as int);
    lemma_signed_injective(a.route.target.x as int, b.route.target.x as int);
    lemma_signed_injective(a.route.target.y as int, b.route.target.y as int);
}

/// What a viewport shows.
#[derive(Debug, Clone, PartialEq, Eq)]
pub struct GraphViewportResponse {
    pub version: u64,
    pub canvas: GraphCanvas,
    pub viewport: GraphViewport,
    pub nodes: Vec<GraphViewportNode>,
    pub edges: Vec<GraphViewportEdge>,
}

#[derive(Debug, Clone, PartialEq, Eq)]
pub struct GraphViewportItems {
    pub nodes: Vec<GraphViewportNode>,
    pub edges: Vec<GraphViewportEdge>,
}

#[derive(Debug, Clone, Copy, PartialEq, Eq, Structural)]
pub enum GraphViewportItemKind {
    Node,
    Edge,
}

#[derive(Debug, Clone, PartialEq, Eq)]
pub struct GraphViewportRemovedItem {
    pub kind: GraphViewportItemKind,
    pub key: String,
}

/// What changes from one viewport to another.
#[derive(Debug, Clone, PartialEq, Eq)]
pub struct GraphViewportDiffResponse {
    pub version: u64,
    pub canvas: GraphCanvas,
    pub previous_viewport: GraphViewport,
    pub viewport: GraphViewport,
    pub added: GraphViewportItems,
    pub updated: GraphViewportItems,
    pub removed: Vec<GraphViewportRemovedItem>,
}

/// A request for the part of the canvas that a page shows, after the host has brought it within
/// the bounds that it grants.
#[derive(Debug, Clone, Copy, PartialEq, Eq, Structural)]
pub struct GraphViewportRequest {
    pub x: i32,
    pub y: i32,
    pub width: i32,
    pub height: i32,
    pub overscan: i32,
}

/// The items that a page holds already.
#[derive(Debug, Clone, PartialEq, Eq)]
pub struct GraphViewportKnownItems {
    pub nodes: Vec<String>,
    pub edges: Vec<String>,
    pub node_fingerprints: TextMap<String>,
    pub edge_fingerprints: TextMap<String>,
}

/// A request for what changes from one viewport to another.
#[derive(Debug, Clone, PartialEq, Eq)]
pub struct GraphViewportDiffRequest {
    pub previous: GraphViewportRequest,
    pub current: GraphViewportRequest,
    pub known: Option<GraphViewportKnownItems>,
}

} // verus!
