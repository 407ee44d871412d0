//! Layered layout of a whole graph snapshot, and the part of it that a viewport shows.

pub mod components;
pub mod crossings;
pub mod laws;
pub mod model;
pub mod order_laws;
pub mod packing;
pub mod prepare;
pub mod result_laws;
pub mod routes;
pub mod viewport;
pub mod viewport_laws;

pub use crate::layout::viewport::diff_graph_viewport_responses;
pub use crate::layout::viewport::edge_bounds;
pub use crate::layout::viewport::edge_key;
pub use crate::layout::viewport::layout_graph_viewport;
pub use crate::layout::viewport::layout_graph_viewport_diff;
pub use crate::layout::viewport::node_bounds;
pub use crate::layout::viewport::node_key;
pub use crate::layout::viewport::route_bounds;
pub use crate::layout::viewport::viewport_edge;
pub use crate::layout::viewport::viewport_from_layout;
pub use crate::layout::viewport::viewport_node;
use vstd::prelude::*;
use vstd::string::*;
use std::collections::BTreeSet;
use crate::api::GraphBezierRoute;
use crate::api::GraphViewportEdgeKind;
use crate::api::Point;
use crate::graph::GraphEdgeKind;
use crate::graph::GraphNode;
use crate::graph::GraphSnapshot;
use crate::layout::crossings::reflow_view;
use crate::layout::model::graph_model;
use crate::layout::model::layout_kind;
use crate::layout::model::node_ids;
use crate::layout::model::GraphModel;
use crate::layout::packing::graph_plan;
use crate::layout::packing::lemma_line;
use crate::layout::packing::place_graph;
use crate::layout::packing::Plan;
use crate::layout::prepare::preparation;
use crate::layout::prepare::prepare_graph;
use crate::layout::prepare::PreparedGraph;
use crate::layout::routes::route_edges;
use crate::ordered::texts;
use crate::ordered::TextMap;
use crate::text::copy_strings;

verus! {

pub const NODE_RADIUS: i32 = 18;

pub const GRAPH_PADDING: i32 = 56;

pub const GRAPH_RANK_STEP: i32 = 112;

pub const GRAPH_ROW_STEP: i32 = 72;

#[derive(Debug, Clone, Copy, PartialEq, Eq, PartialOrd, Ord, Hash, Structural)]
pub enum GraphLayoutEdgeKind {
    Primary,
    Merge,
    Shadow,
}

/// Where an earlier layout put a node.
#[derive(Debug, Clone, Copy, PartialEq, Eq, Structural)]
pub struct LayoutHint {
    pub rank: usize,
    pub order: usize,
    pub point: Point,
}

#[derive(Debug, Clone, PartialEq, Eq)]
pub enum GraphLayoutError {
    DuplicateNode { node_id: String },
    MissingEdgeNode { source_id: String, target_id: String, missing_node_id: String },
    Cycle { node_id: String },
}

/// An error with its texts as characters.
pub enum GraphLayoutErrorView {
    DuplicateNode { node_id: Seq<char> },
    MissingEdgeNode { source_id: Seq<char>, target_id: Seq<char>, missing_node_id: Seq<char> },
    Cycle { node_id: Seq<char> },
}

impl View for GraphLayoutError {
    type V = GraphLayoutErrorView;

    open spec fn view(&self) -> GraphLayoutErrorView {
        match self {
            GraphLayoutError::DuplicateNode { node_id } => GraphLayoutErrorView::DuplicateNode {
                node_id: node_id@,
            },
            GraphLayoutError::MissingEdgeNode { source_id, target_id, missing_node_id } =>
                GraphLayoutErrorView::MissingEdgeNode {
                source_id: source_id@,
                target_id: target_id@,
                missing_node_id: missing_node_id@,
            },
            GraphLayoutError::Cycle { node_id } => GraphLayoutErrorView::Cycle { node_id: node_id@ },
        }
    }
}

/// The message for an error.
pub open spec fn layout_error_message(error: GraphLayoutErrorView) -> Seq<char> {
    match error {
        GraphLayoutErrorView::DuplicateNode { node_id } => "Graph contains duplicate node "@ + node_id,
        GraphLayoutErrorView::MissingEdgeNode { source_id, target_id, missing_node_id } =>
            "Graph edge "@ + source_id + " -> "@ + target_id + " references missing node "@
            + missing_node_id,
        GraphLayoutErrorView::Cycle { node_id } => "Graph contains a cycle involving node "@ + node_id,
    }
}

impl GraphLayoutError {
    /// What went wrong, for people.
    pub fn message(&self) -> (text: String)
        ensures
            text@ == layout_error_message(self@),
    {
        match self {
            GraphLayoutError::DuplicateNode { node_id } => {
                "Graph contains duplicate node ".to_owned().concat(node_id.as_str())
            },
            GraphLayoutError::MissingEdgeNode { source_id, target_id, missing_node_id } => {
                "Graph edge ".to_owned().concat(source_id.as_str()).concat(" -> ").concat(
                    target_id.as_str(),
                ).concat(" references missing node ").concat(missing_node_id.as_str())
            },
            GraphLayoutError::Cycle { node_id } => {
                "Graph contains a cycle involving node ".to_owned().concat(node_id.as_str())
            },
        }
    }
}

/// The text of a kind in the keys of edges.
pub open spec fn kind_key_part(kind: GraphLayoutEdgeKind) -> Seq<char> {
    match kind {
        GraphLayoutEdgeKind::Primary => "primary_parent"@,
        GraphLayoutEdgeKind::Merge => "merge_parent"@,
        GraphLayoutEdgeKind::Shadow => "shadow_parent"@,
    }
}

impl GraphLayoutEdgeKind {
    /// The text of this kind in the keys of edges.
    pub fn key_part(self) -> (part: &'static str)
        ensures
            part@ == kind_key_part(self),
    {
        GraphViewportEdgeKind::from(self).key_part()
    }
}

impl From<GraphEdgeKind> for GraphLayoutEdgeKind {
    fn from(value: GraphEdgeKind) -> (kind: Self) {
        match value {
            GraphEdgeKind::Primary => GraphLayoutEdgeKind::Primary,
            GraphEdgeKind::Merge => GraphLayoutEdgeKind::Merge,
            GraphEdgeKind::Shadow => GraphLayoutEdgeKind::Shadow,
        }
    }
}

impl vstd::std_specs::convert::FromSpecImpl<GraphEdgeKind> for GraphLayoutEdgeKind {
    open spec fn obeys_from_spec() -> bool {
        true
    }

    open spec fn from_spec(value: GraphEdgeKind) -> Self {
        layout_kind(value)
    }
}

/// The kind of an edge in a viewport.
pub open spec fn viewport_kind(kind: GraphLayoutEdgeKind) -> GraphViewportEdgeKind {
    match kind {
        GraphLayoutEdgeKind::Primary => GraphViewportEdgeKind::Primary,
        GraphLayoutEdgeKind::Merge => GraphViewportEdgeKind::Merge,
        GraphLayoutEdgeKind::Shadow => GraphViewportEdgeKind::Shadow,
    }
}

impl From<GraphLayoutEdgeKind> for GraphViewportEdgeKind {
    fn from(value: GraphLayoutEdgeKind) -> (kind: Self) {
        match value {
            GraphLayoutEdgeKind::Primary => GraphViewportEdgeKind::Primary,
            GraphLayoutEdgeKind::Merge => GraphViewportEdgeKind::Merge,
            GraphLayoutEdgeKind::Shadow => GraphViewportEdgeKind::Shadow,
        }
    }
}

impl vstd::std_specs::convert::FromSpecImpl<GraphLayoutEdgeKind> for GraphViewportEdgeKind {
    open spec fn obeys_from_spec() -> bool {
        true
    }

    open spec fn from_spec(value: GraphLayoutEdgeKind) -> Self {
        viewport_kind(value)
    }
}

#[derive(Debug, Clone, PartialEq, Eq)]
pub struct GraphLayout {
    pub nodes: Vec<GraphLayoutNode>,
    pub edges: Vec<GraphLayoutEdge>,
    pub width: i32,
    pub height: i32,
}

#[derive(Debug, Clone, PartialEq, Eq)]
pub struct GraphLayoutNode {
    pub node_id: String,
    pub node_target: String,
    pub short_id: String,
    pub kind: String,
    pub summary: String,
    pub labels: Vec<String>,
    pub created_at: String,
    pub created_at_ns: i128,
    pub rank: usize,
    pub order: usize,
    pub point: Point,
}

#[derive(Debug, Clone, PartialEq, Eq)]
pub struct GraphLayoutEdge {
    pub source_node_id: String,
    pub target_node_id: String,
    pub kind: GraphLayoutEdgeKind,
    pub route: GraphBezierRoute,
}

/// A layout with its texts as characters.
#[verifier::ext_equal]
pub struct GraphLayoutView {
    pub nodes: Seq<GraphLayoutNodeView>,
    pub edges: Seq<GraphLayoutEdgeView>,
    pub width: i32,
    pub height: i32,
}

/// A laid out node with its texts as characters.
#[verifier::ext_equal]
pub struct GraphLayoutNodeView {
    pub node_id: Seq<char>,
    pub node_target: Seq<char>,
    pub short_id: Seq<char>,
    pub kind: Seq<char>,
    pub summary: Seq<char>,
    pub labels: Seq<Seq<char>>,
    pub created_at: Seq<char>,
    pub created_at_ns: i128,
    pub rank: usize,
    pub order: usize,
    pub point: Point,
}

/// A routed edge with its texts as characters.
#[verifier::ext_equal]
pub struct GraphLayoutEdgeView {
    pub source_node_id: Seq<char>,
    pub target_node_id: Seq<char>,
    pub kind: GraphLayoutEdgeKind,
    pub route: GraphBezierRoute,
}

impl View for GraphLayoutNode {
    type V = GraphLayoutNodeView;

    open spec fn view(&self) -> GraphLayoutNodeView {
        GraphLayoutNodeView {
            node_id: self.node_id@,
            node_target: self.node_target@,
            short_id: self.short_id@,
            kind: self.kind@,
            summary: self.summary@,
            labels: texts(self.labels@),
            created_at: self.created_at@,
            created_at_ns: self.created_at_ns,
            rank: self.rank,
            order: self.order,
            point: self.point,
        }
    }
}

impl View for GraphLayoutEdge {
    type V = GraphLayoutEdgeView;

    open spec fn view(&self) -> GraphLayoutEdgeView {
        GraphLayoutEdgeView {
            source_node_id: self.source_node_id@,
            target_node_id: self.target_node_id@,
            kind: self.kind,
            route: self.route,
        }
    }
}

impl View for GraphLayout {
    type V = GraphLayoutView;

    open spec fn view(&self) -> GraphLayoutView {
        GraphLayoutView {
            nodes: self.nodes@.map_values(|node: GraphLayoutNode| node@),
            edges: self.edges@.map_values(|edge: GraphLayoutEdge| edge@),
            width: self.width,
            height: self.height,
        }
    }
}

/// A node of a snapshot at a place of the layout.
pub open spec fn node_at(node: GraphNode, rank: usize, order: usize, point: Point) -> GraphLayoutNodeView {
    GraphLayoutNodeView {
        node_id: node.id@,
        node_target: node.node_target@,
        short_id: node.short_id@,
        kind: node.kind@,
        summary: node.summary@,
        labels: texts(node.labels@),
        created_at: node.created_at@,
        created_at_ns: node.created_at_ns,
        rank,
        order,
        point,
    }
}

/// The layout of one node.
pub open spec fn planned_node(snapshot: &GraphSnapshot, plan: Plan, node: usize) -> GraphLayoutNodeView {
    let index = node_ids(snapshot.nodes@).index_of(plan.drawing.model.ids[node as int]);
    node_at(
        snapshot.nodes@[index],
        plan.drawing.rank(node),
        plan.order(node) as usize,
        plan.point(node),
    )
}

/// The layout of one edge.
pub open spec fn planned_edge(plan: Plan, edge: int) -> GraphLayoutEdgeView {
    let model = plan.drawing.model;
    GraphLayoutEdgeView {
        source_node_id: model.ids[model.edges[edge].source as int],
        target_node_id: model.ids[model.edges[edge].target as int],
        kind: model.edges[edge].kind,
        route: plan.route(edge),
    }
}

/// The highest of some coordinates, or the padding where there are none.
pub open spec fn highest(values: Seq<i32>) -> i32
    decreases values.len(),
{
    if values.len() == 0 {
        GRAPH_PADDING
    } else if values.len() == 1 {
        values[0]
    } else {
        crate::arithmetic::larger(highest(values.drop_last()), values.last())
    }
}

/// The layout that a plan describes.
pub open spec fn planned_layout(snapshot: &GraphSnapshot, plan: Plan) -> GraphLayoutView {
    let nodes = plan.sequence().map_values(|node: usize| planned_node(snapshot, plan, node));
    GraphLayoutView {
        nodes,
        edges: Seq::new(plan.drawing.model.edges.len(), |edge: int| planned_edge(plan, edge)),
        width: crate::arithmetic::saturate_i32(
            highest(nodes.map_values(|node: GraphLayoutNodeView| node.point.x)) + GRAPH_PADDING,
        ),
        height: crate::arithmetic::saturate_i32(
            highest(nodes.map_values(|node: GraphLayoutNodeView| node.point.y)) + GRAPH_PADDING,
        ),
    }
}

/// The layout of a snapshot, or why there is none.
pub open spec fn graph_layout(
    snapshot: &GraphSnapshot,
    hints: Map<Seq<char>, LayoutHint>,
    reflow: Option<Set<usize>>,
) -> Result<GraphLayoutView, GraphLayoutErrorView> {
    match preparation(snapshot) {
        Err(error) => Err(error),
        Ok(model) => Ok(planned_layout(snapshot, graph_plan(snapshot, hints, reflow))),
    }
}

/// Whether the coordinates of a layout stay within the bounds of their type.
pub open spec fn layout_fits(
    snapshot: &GraphSnapshot,
    hints: Map<Seq<char>, LayoutHint>,
    reflow: Option<Set<usize>>,
) -> bool {
    preparation(snapshot) is Ok ==> {
        let plan = graph_plan(snapshot, hints, reflow);
        plan.slots_fit() && plan.routes_fit()
    }
}

/// Lays out a snapshot that is known to be a graph without cycles.
pub fn layout_graph(snapshot: &GraphSnapshot) -> (layout: GraphLayout)
    requires
        snapshot.nodes@.len() <= u32::MAX,
        preparation(snapshot) is Ok,
        layout_fits(snapshot, Map::empty(), None),
    ensures
        graph_layout(snapshot, Map::empty(), None) == Ok::<GraphLayoutView, GraphLayoutErrorView>(
            layout@,
        ),
{
    match try_layout_graph(snapshot) {
        Ok(layout) => layout,
        Err(_) => {
            assert(false);
            GraphLayout { nodes: Vec::new(), edges: Vec::new(), width: 0, height: 0 }
        },
    }
}

/// Lays out a snapshot.
pub fn try_layout_graph(snapshot: &GraphSnapshot) -> (outcome: Result<GraphLayout, GraphLayoutError>)
    requires
        snapshot.nodes@.len() <= u32::MAX,
        layout_fits(snapshot, Map::empty(), None),
    ensures
        match outcome {
            Ok(layout) => graph_layout(snapshot, Map::empty(), None) == Ok::<
                GraphLayoutView,
                GraphLayoutErrorView,
            >(layout@),
            Err(error) => graph_layout(snapshot, Map::empty(), None) == Err::<
                GraphLayoutView,
                GraphLayoutErrorView,
            >(error@),
        },
{
    let hints: TextMap<LayoutHint> = TextMap::new();
    try_layout_graph_with_hints(snapshot, &hints, None)
}

/// The node of a checked snapshot at a place of the layout.
fn placed_node(
    snapshot: &GraphSnapshot,
    graph: &PreparedGraph,
    node: usize,
    order: usize,
    point: Point,
    Ghost(model): Ghost<GraphModel>,
) -> (placed: GraphLayoutNode)
    requires
        graph.names(snapshot),
        graph.matches(model),
        node < model.size(),
    ensures
        placed@ == node_at(
            snapshot.nodes@[node_ids(snapshot.nodes@).index_of(model.ids[node as int])],
            model.ranks()[node as int],
            order,
            point,
        ),
{
    let source = &snapshot.nodes[*graph.nodes.value_at(node)];
    GraphLayoutNode {
        node_id: source.id.clone(),
        node_target: source.node_target.clone(),
        short_id: source.short_id.clone(),
        kind: source.kind.clone(),
        summary: source.summary.clone(),
        labels: copy_strings(&source.labels),
        created_at: source.created_at.clone(),
        created_at_ns: source.created_at_ns,
        rank: graph.ranks[node],
        order,
        point,
    }
}

/// Lists the placed nodes rank by rank and from top to bottom.
fn collect_nodes(
    snapshot: &GraphSnapshot,
    graph: &PreparedGraph,
    points: &Vec<Point>,
    lines: &Vec<Vec<usize>>,
    Ghost(plan): Ghost<Plan>,
) -> (nodes: Vec<GraphLayoutNode>)
    requires
        graph.names(snapshot),
        graph.matches(plan.drawing.model),
        points@.len() == plan.size(),
        forall|node: usize|
            node < plan.size() ==> #[trigger] points@[node as int] == plan.point(node),
        lines@.len() == plan.drawing.depth(),
        forall|rank: int| 0 <= rank < lines@.len() ==> (#[trigger] lines@[rank])@ == plan.line(rank),
    ensures
        nodes@.map_values(|node: GraphLayoutNode| node@) == plan.sequence().map_values(
            |node: usize| planned_node(snapshot, plan, node),
        ),
{
    let ghost convert = |node: usize| planned_node(snapshot, plan, node);
    let mut nodes: Vec<GraphLayoutNode> = Vec::new();
    let mut rank: usize = 0;
    assert(nodes@.map_values(|node: GraphLayoutNode| node@) =~= plan.lines_upto(0).map_values(convert));
    while rank < lines.len()
        invariant
            graph.names(snapshot),
            graph.matches(plan.drawing.model),
            convert == (|node: usize| planned_node(snapshot, plan, node)),
            points@.len() == plan.size(),
            forall|node: usize|
                node < plan.size() ==> #[trigger] points@[node as int] == plan.point(node),
            lines@.len() == plan.drawing.depth(),
            forall|r: int| 0 <= r < lines@.len() ==> (#[trigger] lines@[r])@ == plan.line(r),
            0 <= rank <= lines.len(),
            nodes@.map_values(|node: GraphLayoutNode| node@) == plan.lines_upto(
                rank as nat,
            ).map_values(convert),
        decreases lines.len() - rank,
    {
        let ghost line = plan.line(rank as int);
        let ghost before = nodes@.map_values(|node: GraphLayoutNode| node@);
        assert(lines@[rank as int]@ == line);
        proof {
            lemma_line(plan, rank as int);
        }
        let mut i: usize = 0;
        assert(before + line.take(0).map_values(convert) =~= before);
        while i < lines[rank].len()
            invariant
                graph.names(snapshot),
                graph.matches(plan.drawing.model),
                convert == (|node: usize| planned_node(snapshot, plan, node)),
                points@.len() == plan.size(),
                forall|node: usize|
                    node < plan.size() ==> #[trigger] points@[node as int] == plan.point(node),
                rank < lines@.len(),
                lines@[rank as int]@ == line,
                line == plan.line(rank as int),
                line.no_duplicates(),
                forall|node: usize| #[trigger]
                    line.contains(node) <==> node < plan.size() && plan.drawing.rank(node) == rank,
                0 <= i <= line.len(),
                nodes@.map_values(|node: GraphLayoutNode| node@) == before + line.take(
                    i as int,
                ).map_values(convert),
            decreases line.len() - i,
        {
            let node: usize = lines[rank][i];
            let ghost earlier = nodes@;
            proof {
                assert(line.contains(node));
                assert(line.index_of(node) == i);
            }
            let placed = placed_node(
                snapshot,
                graph,
                node,
                i,
                points[node],
                Ghost(plan.drawing.model),
            );
            assert(placed@ == planned_node(snapshot, plan, node));
            nodes.push(placed);
            proof {
                assert(nodes@.map_values(|node: GraphLayoutNode| node@) =~= earlier.map_values(
                    |node: GraphLayoutNode| node@,
                ).push(placed@));
                assert(before + line.take(i + 1).map_values(convert) =~= (before + line.take(
                    i as int,
                ).map_values(convert)).push(convert(node)));
            }
            i += 1;
        }
        proof {
            assert(line.take(i as int) =~= line);
            assert(plan.lines_upto((rank + 1) as nat).map_values(convert) =~= plan.lines_upto(
                rank as nat,
            ).map_values(convert) + line.map_values(convert));
        }
        rank += 1;
    }
    nodes
}

/// Lists the routed edges.
fn collect_routes(graph: &PreparedGraph, points: &Vec<Point>, Ghost(plan): Ghost<Plan>) -> (edges: Vec<
    GraphLayoutEdge,
>)
    requires
        graph.nodes.wf(),
        graph.matches(plan.drawing.model),
        points@.len() == plan.size(),
        forall|node: usize|
            node < plan.size() ==> #[trigger] points@[node as int] == plan.point(node),
        plan.routes_fit(),
    ensures
        edges@.map_values(|edge: GraphLayoutEdge| edge@) == Seq::new(
            plan.drawing.model.edges.len(),
            |edge: int| planned_edge(plan, edge),
        ),
{
    let routes = route_edges(graph, points, Ghost(plan));
    let mut edges: Vec<GraphLayoutEdge> = Vec::new();
    let mut k: usize = 0;
    while k < graph.edges.len()
        invariant
            graph.nodes.wf(),
            graph.matches(plan.drawing.model),
            routes@.len() == graph.edges@.len(),
            forall|e: int| 0 <= e < routes@.len() ==> #[trigger] routes@[e] == plan.route(e),
            0 <= k <= graph.edges.len(),
            edges@.len() == k,
            forall|e: int| 0 <= e < k ==> (#[trigger] edges@[e])@ == planned_edge(plan, e),
        decreases graph.edges.len() - k,
    {
        let edge = graph.edges[k];
        assert(plan.drawing.model.edges[k as int].source < plan.size());
        edges.push(
            GraphLayoutEdge {
                source_node_id: graph.nodes.key_at(edge.source).clone(),
                target_node_id: graph.nodes.key_at(edge.target).clone(),
                kind: edge.kind,
                route: routes[k],
            },
        );
        k += 1;
    }
    assert(edges@.map_values(|edge: GraphLayoutEdge| edge@) =~= Seq::new(
        plan.drawing.model.edges.len(),
        |edge: int| planned_edge(plan, edge),
    ));
    edges
}

/// The coordinates of nodes along one axis.
spec fn coordinates(nodes: Seq<GraphLayoutNode>, horizontal: bool) -> Seq<i32> {
    nodes.map_values(
        |node: GraphLayoutNode|
            if horizontal {
                node.point.x
            } else {
                node.point.y
            },
    )
}

/// The highest coordinate of the nodes along one axis.
fn highest_coordinate(nodes: &Vec<GraphLayoutNode>, horizontal: bool) -> (value: i32)
    ensures
        value == highest(coordinates(nodes@, horizontal)),
{
    let ghost values = coordinates(nodes@, horizontal);
    if nodes.len() == 0 {
        return GRAPH_PADDING;
    }
    let mut value: i32 = if horizontal {
        nodes[0].point.x
    } else {
        nodes[0].point.y
    };
    assert(values.take(1)[0] == values[0]);
    let mut i: usize = 1;
    while i < nodes.len()
        invariant
            values == coordinates(nodes@, horizontal),
            1 <= i <= nodes.len(),
            value == highest(values.take(i as int)),
        decreases nodes.len() - i,
    {
        let next: i32 = if horizontal {
            nodes[i].point.x
        } else {
            nodes[i].point.y
        };
        assert(values.take(i + 1).drop_last() =~= values.take(i as int));
        assert(values.take(i + 1).last() == next);
        value = crate::arithmetic::greater_of(value, next);
        i += 1;
    }
    assert(values.take(i as int) =~= values);
    value
}

/// Lays out a snapshot. Nodes with a hint for their rank are ordered by it, and keep its
/// point where only other ranks are to be ordered again.
pub fn try_layout_graph_with_hints(
    snapshot: &GraphSnapshot,
    hints: &TextMap<LayoutHint>,
    reflow_ranks: Option<&BTreeSet<usize>>,
) -> (outcome: Result<GraphLayout, GraphLayoutError>)
    requires
        snapshot.nodes@.len() <= u32::MAX,
        hints.wf(),
        layout_fits(snapshot, hints@, reflow_view(reflow_ranks)),
    ensures
        match outcome {
            Ok(layout) => graph_layout(snapshot, hints@, reflow_view(reflow_ranks)) == Ok::<
                GraphLayoutView,
                GraphLayoutErrorView,
            >(layout@),
            Err(error) => graph_layout(snapshot, hints@, reflow_view(reflow_ranks)) == Err::<
                GraphLayoutView,
                GraphLayoutErrorView,
            >(error@),
        },
{
    let graph = match prepare_graph(snapshot) {
        Err(error) => return Err(error),
        Ok(graph) => graph,
    };
    let ghost plan = graph_plan(snapshot, hints@, reflow_view(reflow_ranks));
    let placed = place_graph(snapshot, &graph, hints, reflow_ranks);
    let nodes = collect_nodes(snapshot, &graph, &placed.points, &placed.lines, Ghost(plan));
    let edges = collect_routes(&graph, &placed.points, Ghost(plan));
    let max_x: i32 = highest_coordinate(&nodes, true);
    let max_y: i32 = highest_coordinate(&nodes, false);
    let layout = GraphLayout {
        nodes,
        edges,
        width: crate::arithmetic::saturating_sum(max_x, GRAPH_PADDING),
        height: crate::arithmetic::saturating_sum(max_y, GRAPH_PADDING),
    };
    proof {
        let views = layout@.nodes;
        assert(views.map_values(|node: GraphLayoutNodeView| node.point.x) =~= coordinates(nodes@, true));
        assert(views.map_values(|node: GraphLayoutNodeView| node.point.y) =~= coordinates(
            nodes@,
            false,
        ));
        assert(layout@ =~= planned_layout(snapshot, plan));
    }
    Ok(layout)
}

/// The ranks of the nodes of a snapshot.
pub fn try_graph_ranks(snapshot: &GraphSnapshot) -> (outcome: Result<TextMap<usize>, GraphLayoutError>)
    ensures
        match outcome {
            Ok(ranks) => {
                let model = graph_model(snapshot);
                &&& preparation(snapshot) == Ok::<GraphModel, GraphLayoutErrorView>(model)
                &&& model.is_ranking(model.ranks())
                &&& ranks.wf()
                &&& ranks@.dom() == model.ids.to_set()
                &&& forall|node: int|
                    0 <= node < model.ids.len() ==> ranks@[#[trigger] model.ids[node]]
                        == model.ranks()[node]
            },
            Err(error) => preparation(snapshot) == Err::<GraphModel, GraphLayoutErrorView>(error@),
        },
{
    let graph = match prepare_graph(snapshot) {
        Err(error) => return Err(error),
        Ok(graph) => graph,
    };
    let ghost model = graph_model(snapshot);
    let mut ranks: TextMap<usize> = TextMap::new();
    let mut node: usize = 0;
    proof {
        graph.nodes.lemma_keys();
        assert(ranks@.dom() =~= model.ids.take(0).to_set());
    }
    while node < graph.ranks.len()
        invariant
            graph.nodes.wf(),
            graph.matches(model),
            model.ids.no_duplicates(),
            0 <= node <= graph.ranks.len(),
            ranks.wf(),
            ranks@.dom() == model.ids.take(node as int).to_set(),
            forall|i: int| 0 <= i < node ==> ranks@[#[trigger] model.ids[i]] == model.ranks()[i],
        decreases graph.ranks.len() - node,
    {
        let ghost id = model.ids[node as int];
        ranks.insert(graph.nodes.key_at(node).clone(), graph.ranks[node]);
        proof {
            assert(model.ids.take(node + 1) =~= model.ids.take(node as int).push(id));
            assert forall|other: Seq<char>| ranks@.dom().contains(other) <==> model.ids.take(
                node + 1,
            ).to_set().contains(other) by {
                crate::sequences::lemma_push_members(model.ids.take(node as int), id, other);
            }
            assert(ranks@.dom() =~= model.ids.take(node + 1).to_set());
        }
        node += 1;
    }
    assert(model.ids.take(node as int) =~= model.ids);
    Ok(ranks)
}

} // verus!
