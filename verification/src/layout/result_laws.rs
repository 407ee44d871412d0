//! What holds of the nodes and edges that a layout hands out.

use vstd::prelude::*;
use crate::graph::GraphEdgeKind;
use crate::graph::GraphSnapshot;
use crate::layout::crossings::lemma_depth;
use crate::layout::graph_layout;
use crate::layout::laws::lemma_every_node_once;
use crate::layout::laws::lemma_prepared;
use crate::layout::layout_error_message;
use crate::layout::layout_fits;
use crate::layout::model::edge_identity;
use crate::layout::model::graph_model;
use crate::layout::model::node_ids;
use crate::layout::packing::graph_plan;
use crate::layout::packing::lemma_line;
use crate::layout::packing::Plan;
use crate::layout::planned_node;
use crate::layout::prepare::preparation;
use crate::layout::routes::control_reach;
use crate::layout::routes::curve_fits;
use crate::layout::routes::edge_end;
use crate::layout::routes::lemma_port_line;
use crate::layout::routes::port_spread;
use crate::layout::GraphLayoutEdgeKind;
use crate::layout::GraphLayoutErrorView;
use crate::layout::GraphLayoutView;
use crate::layout::LayoutHint;
use crate::ordered::texts;

verus! {

/// The number of the node at a place of the layout.
proof fn lemma_number_at(
    snapshot: &GraphSnapshot,
    hints: Map<Seq<char>, LayoutHint>,
    reflow: Option<Set<usize>>,
    place: int,
) -> (number: usize)
    requires
        preparation(snapshot) is Ok,
        snapshot.nodes@.len() <= u32::MAX,
        0 <= place < graph_layout(snapshot, hints, reflow)->Ok_0.nodes.len(),
    ensures
        number < snapshot.nodes@.len(),
        number == graph_plan(snapshot, hints, reflow).sequence()[place],
        graph_layout(snapshot, hints, reflow)->Ok_0.nodes[place] == planned_node(
            snapshot,
            graph_plan(snapshot, hints, reflow),
            number,
        ),
        graph_layout(snapshot, hints, reflow)->Ok_0.nodes[place].node_id == graph_model(
            snapshot,
        ).ids[number as int],
{
    let plan = graph_plan(snapshot, hints, reflow);
    let number = plan.sequence()[place];
    lemma_prepared(snapshot);
    lemma_every_node_once(snapshot, hints, reflow);
    assert(plan.sequence().contains(number));
    lemma_source_of(snapshot, number);
    number
}

/// The node of a snapshot behind a number has the id of that number.
proof fn lemma_source_of(snapshot: &GraphSnapshot, number: usize)
    requires
        preparation(snapshot) is Ok,
        snapshot.nodes@.len() <= u32::MAX,
        number < snapshot.nodes@.len(),
    ensures
        ({
            let ids = node_ids(snapshot.nodes@);
            let id = graph_model(snapshot).ids[number as int];
            &&& ids.contains(id)
            &&& 0 <= ids.index_of(id) < snapshot.nodes@.len()
            &&& snapshot.nodes@[ids.index_of(id)].id@ == id
        }),
{
    lemma_prepared(snapshot);
    let ids = node_ids(snapshot.nodes@);
    let id = graph_model(snapshot).ids[number as int];
    assert(graph_model(snapshot).ids.to_set().contains(id));
    assert(ids.to_set().contains(id));
}

/// Where the node with a number stands in the layout.
proof fn lemma_place_of(
    snapshot: &GraphSnapshot,
    hints: Map<Seq<char>, LayoutHint>,
    reflow: Option<Set<usize>>,
    number: usize,
) -> (place: int)
    requires
        preparation(snapshot) is Ok,
        snapshot.nodes@.len() <= u32::MAX,
        number < snapshot.nodes@.len(),
    ensures
        0 <= place < graph_layout(snapshot, hints, reflow)->Ok_0.nodes.len(),
        number == graph_plan(snapshot, hints, reflow).sequence()[place],
{
    lemma_every_node_once(snapshot, hints, reflow);
    let plan = graph_plan(snapshot, hints, reflow);
    assert(plan.sequence().contains(number));
    plan.sequence().index_of(number)
}

/// The ids of numbered nodes are distinct.
proof fn lemma_ids_distinct(snapshot: &GraphSnapshot, a: usize, b: usize)
    requires
        preparation(snapshot) is Ok,
        snapshot.nodes@.len() <= u32::MAX,
        a < snapshot.nodes@.len(),
        b < snapshot.nodes@.len(),
        graph_model(snapshot).ids[a as int] == graph_model(snapshot).ids[b as int],
    ensures
        a == b,
{
    lemma_prepared(snapshot);
    crate::ordered::lemma_strictly_sorted_no_duplicates(graph_model(snapshot).ids);
}

/// A layout has as many nodes as the snapshot, no two of them with one id, and each carries the
/// texts and the time of the node of the snapshot with its id.
#[verifier::rlimit(40)]
pub proof fn lemma_layout_nodes(
    snapshot: &GraphSnapshot,
    hints: Map<Seq<char>, LayoutHint>,
    reflow: Option<Set<usize>>,
)
    requires
        graph_layout(snapshot, hints, reflow) is Ok,
        snapshot.nodes@.len() <= u32::MAX,
    ensures
        ({
            let layout = graph_layout(snapshot, hints, reflow)->Ok_0;
            &&& layout.nodes.len() == snapshot.nodes@.len()
            &&& forall|a: int, b: int|
                0 <= a < b < layout.nodes.len() ==> (#[trigger] layout.nodes[a]).node_id != (
                #[trigger] layout.nodes[b]).node_id
            &&& forall|a: int, i: int|
                #![trigger layout.nodes[a], snapshot.nodes@[i]]
                0 <= a < layout.nodes.len() && 0 <= i < snapshot.nodes@.len()
                    && layout.nodes[a].node_id == snapshot.nodes@[i].id@ ==> {
                    let laid = layout.nodes[a];
                    let node = snapshot.nodes@[i];
                    &&& laid.node_target == node.node_target@
                    &&& laid.short_id == node.short_id@
                    &&& laid.kind == node.kind@
                    &&& laid.summary == node.summary@
                    &&& laid.labels == texts(node.labels@)
                    &&& laid.created_at == node.created_at@
                    &&& laid.created_at_ns == node.created_at_ns
                }
            &&& forall|i: int|
                #![trigger snapshot.nodes@[i]]
                0 <= i < snapshot.nodes@.len() ==> exists|a: int|
                    0 <= a < layout.nodes.len() && (#[trigger] layout.nodes[a]).node_id
                        == snapshot.nodes@[i].id@
        }),
{
    let layout = graph_layout(snapshot, hints, reflow)->Ok_0;
    let plan = graph_plan(snapshot, hints, reflow);
    let ids = node_ids(snapshot.nodes@);
    lemma_prepared(snapshot);
    lemma_every_node_once(snapshot, hints, reflow);
    let all = crate::sorting::indices(snapshot.nodes@.len());
    assert(plan.sequence().len() == all.len()) by {
        plan.sequence().unique_seq_to_set();
        assert(all.no_duplicates());
        all.unique_seq_to_set();
        assert forall|v: usize| plan.sequence().to_set().contains(v) <==> all.to_set().contains(v) by {
            assert(plan.sequence().contains(v) <==> v < all.len());
            if v < all.len() {
                assert(all[v as int] == v);
            }
        }
        assert(plan.sequence().to_set() =~= all.to_set());
    }
    assert forall|a: int, b: int| 0 <= a < b < layout.nodes.len() implies (#[trigger] layout.nodes[a]).node_id
        != (#[trigger] layout.nodes[b]).node_id by {
        let v = lemma_number_at(snapshot, hints, reflow, a);
        let w = lemma_number_at(snapshot, hints, reflow, b);
        if layout.nodes[a].node_id == layout.nodes[b].node_id {
            lemma_ids_distinct(snapshot, v, w);
        }
    }
    assert forall|a: int, i: int|
        #![trigger layout.nodes[a], snapshot.nodes@[i]]
        0 <= a < layout.nodes.len() && 0 <= i < snapshot.nodes@.len() && layout.nodes[a].node_id
            == snapshot.nodes@[i].id@ implies {
        let laid = layout.nodes[a];
        let node = snapshot.nodes@[i];
        &&& laid.node_target == node.node_target@
        &&& laid.short_id == node.short_id@
        &&& laid.kind == node.kind@
        &&& laid.summary == node.summary@
        &&& laid.labels == texts(node.labels@)
        &&& laid.created_at == node.created_at@
        &&& laid.created_at_ns == node.created_at_ns
    } by {
        let v = lemma_number_at(snapshot, hints, reflow, a);
        lemma_source_of(snapshot, v);
        crate::layout::laws::lemma_snapshot_ids_distinct(snapshot);
        assert(ids[i] == ids[ids.index_of(plan.drawing.model.ids[v as int])]);
    }
    assert forall|i: int| #![trigger snapshot.nodes@[i]] 0 <= i < snapshot.nodes@.len() implies exists|a: int|
        0 <= a < layout.nodes.len() && (#[trigger] layout.nodes[a]).node_id == snapshot.nodes@[i].id@ by {
        let id = snapshot.nodes@[i].id@;
        assert(ids[i] == id);
        assert(ids.to_set().contains(id));
        assert(plan.drawing.model.ids.to_set().contains(id));
        let v = plan.drawing.model.ids.index_of(id);
        let a = lemma_place_of(snapshot, hints, reflow, v as usize);
        let w = lemma_number_at(snapshot, hints, reflow, a);
        assert(layout.nodes[a].node_id == id);
    }
}

/// Whether a laid out edge is of the kind of an edge of the snapshot.
pub open spec fn same_kind(laid: GraphLayoutEdgeKind, edge: GraphEdgeKind) -> bool {
    match edge {
        GraphEdgeKind::Primary => laid is Primary,
        GraphEdgeKind::Merge => laid is Merge,
        GraphEdgeKind::Shadow => laid is Shadow,
    }
}

/// Every edge of a layout is an edge of the snapshot, with its ends and its kind.
pub proof fn lemma_layout_edge_is_given(
    snapshot: &GraphSnapshot,
    hints: Map<Seq<char>, LayoutHint>,
    reflow: Option<Set<usize>>,
    edge: int,
) -> (given: int)
    requires
        graph_layout(snapshot, hints, reflow) is Ok,
        snapshot.nodes@.len() <= u32::MAX,
        0 <= edge < graph_layout(snapshot, hints, reflow)->Ok_0.edges.len(),
    ensures
        0 <= given < snapshot.edges@.len(),
        ({
            let laid = graph_layout(snapshot, hints, reflow)->Ok_0.edges[edge];
            &&& laid.source_node_id == snapshot.edges@[given].source@
            &&& laid.target_node_id == snapshot.edges@[given].target@
            &&& same_kind(laid.kind, snapshot.edges@[given].kind)
        }),
{
    let model = graph_model(snapshot);
    let identities = snapshot.edges@.map_values(
        |edge: crate::graph::GraphEdge| edge_identity(model.ids, edge),
    );
    lemma_prepared(snapshot);
    assert(model.edges.to_set().contains(model.edges[edge]));
    assert(identities.to_set().contains(model.edges[edge]));
    let given = identities.index_of(model.edges[edge]);
    lemma_edge_ends_known(snapshot, given);
    given
}

/// Every edge of the snapshot is in the layout, with its ends and its kind.
pub proof fn lemma_given_edge_is_laid(
    snapshot: &GraphSnapshot,
    hints: Map<Seq<char>, LayoutHint>,
    reflow: Option<Set<usize>>,
    given: int,
) -> (edge: int)
    requires
        graph_layout(snapshot, hints, reflow) is Ok,
        snapshot.nodes@.len() <= u32::MAX,
        0 <= given < snapshot.edges@.len(),
    ensures
        0 <= edge < graph_layout(snapshot, hints, reflow)->Ok_0.edges.len(),
        ({
            let laid = graph_layout(snapshot, hints, reflow)->Ok_0.edges[edge];
            &&& laid.source_node_id == snapshot.edges@[given].source@
            &&& laid.target_node_id == snapshot.edges@[given].target@
            &&& same_kind(laid.kind, snapshot.edges@[given].kind)
        }),
{
    let model = graph_model(snapshot);
    let identities = snapshot.edges@.map_values(
        |edge: crate::graph::GraphEdge| edge_identity(model.ids, edge),
    );
    lemma_prepared(snapshot);
    assert(identities[given] == edge_identity(model.ids, snapshot.edges@[given]));
    assert(identities.to_set().contains(identities[given]));
    assert(model.edges.to_set().contains(identities[given]));
    lemma_edge_ends_known(snapshot, given);
    model.edges.index_of(identities[given])
}

/// No edge is laid out twice: two of them differ in kind, in source or in target.
pub proof fn lemma_layout_edges_differ(
    snapshot: &GraphSnapshot,
    hints: Map<Seq<char>, LayoutHint>,
    reflow: Option<Set<usize>>,
    a: int,
    b: int,
)
    requires
        graph_layout(snapshot, hints, reflow) is Ok,
        snapshot.nodes@.len() <= u32::MAX,
        0 <= a < b < graph_layout(snapshot, hints, reflow)->Ok_0.edges.len(),
    ensures
        ({
            let edges = graph_layout(snapshot, hints, reflow)->Ok_0.edges;
            ||| edges[a].kind != edges[b].kind
            ||| edges[a].source_node_id != edges[b].source_node_id
            ||| edges[a].target_node_id != edges[b].target_node_id
        }),
{
    let model = graph_model(snapshot);
    let edges = graph_layout(snapshot, hints, reflow)->Ok_0.edges;
    let x = model.edges[a];
    let y = model.edges[b];
    lemma_prepared(snapshot);
    crate::layout::laws::lemma_edges_in_order(snapshot);
    assert(crate::layout::model::edge_before(x, y));
    if edges[a].source_node_id == edges[b].source_node_id && edges[a].target_node_id
        == edges[b].target_node_id {
        lemma_ids_distinct(snapshot, x.source, y.source);
        lemma_ids_distinct(snapshot, x.target, y.target);
    }
}

proof fn lemma_edge_ends_known(snapshot: &GraphSnapshot, edge: int)
    requires
        preparation(snapshot) is Ok,
        snapshot.nodes@.len() <= u32::MAX,
        0 <= edge < snapshot.edges@.len(),
    ensures
        ({
            let ids = graph_model(snapshot).ids;
            let identity = edge_identity(ids, snapshot.edges@[edge]);
            &&& identity.source < ids.len() && identity.target < ids.len()
            &&& ids[identity.source as int] == snapshot.edges@[edge].source@
            &&& ids[identity.target as int] == snapshot.edges@[edge].target@
        }),
{
    let ids = graph_model(snapshot).ids;
    let known = node_ids(snapshot.nodes@).to_set();
    lemma_prepared(snapshot);
    crate::layout::laws::lemma_ends_known(snapshot, edge);
    assert(ids.to_set().contains(snapshot.edges@[edge].source@));
    assert(ids.to_set().contains(snapshot.edges@[edge].target@));
    assert(ids.contains(snapshot.edges@[edge].source@));
    assert(ids.contains(snapshot.edges@[edge].target@));
}

/// The numbers of the ends of a laid out edge, whose nodes are known by their ids.
#[verifier::rlimit(40)]
proof fn lemma_end_numbers(
    snapshot: &GraphSnapshot,
    hints: Map<Seq<char>, LayoutHint>,
    reflow: Option<Set<usize>>,
    edge: int,
    source: int,
    target: int,
)
    requires
        graph_layout(snapshot, hints, reflow) is Ok,
        snapshot.nodes@.len() <= u32::MAX,
        0 <= edge < graph_layout(snapshot, hints, reflow)->Ok_0.edges.len(),
        joins(graph_layout(snapshot, hints, reflow)->Ok_0, edge, source, target),
    ensures
        ({
            let layout = graph_layout(snapshot, hints, reflow)->Ok_0;
            let plan = graph_plan(snapshot, hints, reflow);
            let ends = plan.drawing.model.edges[edge];
            &&& edge < plan.drawing.model.edges.len()
            &&& ends.source < plan.size() && ends.target < plan.size()
            &&& layout.nodes[source].point == plan.point(ends.source)
            &&& layout.nodes[target].point == plan.point(ends.target)
            &&& layout.nodes[source].rank == plan.drawing.rank(ends.source)
            &&& layout.nodes[target].rank == plan.drawing.rank(ends.target)
            &&& plan.sequence()[source] == ends.source
            &&& plan.sequence()[target] == ends.target
        }),
{
    let plan = graph_plan(snapshot, hints, reflow);
    lemma_prepared(snapshot);
    let ends = plan.drawing.model.edges[edge];
    let v = lemma_number_at(snapshot, hints, reflow, source);
    let w = lemma_number_at(snapshot, hints, reflow, target);
    lemma_ids_distinct(snapshot, v, ends.source);
    lemma_ids_distinct(snapshot, w, ends.target);
}

/// Whether two nodes of a layout are the ends of an edge of it.
pub open spec fn joins(layout: GraphLayoutView, edge: int, source: int, target: int) -> bool {
    &&& 0 <= edge < layout.edges.len()
    &&& 0 <= source < layout.nodes.len()
    &&& 0 <= target < layout.nodes.len()
    &&& layout.edges[edge].source_node_id == layout.nodes[source].node_id
    &&& layout.edges[edge].target_node_id == layout.nodes[target].node_id
}

/// The ends of every edge of a layout are nodes of it.
pub proof fn lemma_edge_joins_nodes(
    snapshot: &GraphSnapshot,
    hints: Map<Seq<char>, LayoutHint>,
    reflow: Option<Set<usize>>,
    edge: int,
) -> (ends: (int, int))
    requires
        graph_layout(snapshot, hints, reflow) is Ok,
        snapshot.nodes@.len() <= u32::MAX,
        0 <= edge < graph_layout(snapshot, hints, reflow)->Ok_0.edges.len(),
    ensures
        joins(graph_layout(snapshot, hints, reflow)->Ok_0, edge, ends.0, ends.1),
{
    let plan = graph_plan(snapshot, hints, reflow);
    let ends = plan.drawing.model.edges[edge];
    lemma_prepared(snapshot);
    let source = lemma_place_of(snapshot, hints, reflow, ends.source);
    let target = lemma_place_of(snapshot, hints, reflow, ends.target);
    let v = lemma_number_at(snapshot, hints, reflow, source);
    let w = lemma_number_at(snapshot, hints, reflow, target);
    (source, target)
}

/// The offset of a port stays within the range of ports.
proof fn lemma_spread(index: int, count: int)
    requires
        0 <= index < count,
    ensures
        -12 <= port_spread(index, count) <= 12,
        count == 1 ==> port_spread(index, count) == 0,
        count > 1 && index == 0 ==> port_spread(index, count) == -12,
        count > 1 && index == count - 1 ==> port_spread(index, count) == 12,
{
    if count > 1 {
        let gaps = count - 1;
        assert(0 <= (index * 24) / gaps <= 24) by (nonlinear_arith)
            requires
                0 <= index <= gaps,
                gaps > 0,
        ;
        if index == 0 {
            assert((index * 24) / gaps == 0) by (nonlinear_arith)
                requires
                    index == 0,
                    gaps > 0,
            ;
        }
        if index == gaps {
            assert((index * 24) / gaps == 24) by (nonlinear_arith)
                requires
                    index == gaps,
                    gaps > 0,
            ;
        }
    }
}

/// A later port lies no higher.
proof fn lemma_spread_grows(low: int, high: int, count: int)
    requires
        0 <= low <= high < count,
    ensures
        port_spread(low, count) <= port_spread(high, count),
        low < high && count <= 25 ==> port_spread(low, count) < port_spread(high, count),
{
    if count > 1 {
        let gaps = count - 1;
        assert((low * 24) / gaps <= (high * 24) / gaps) by (nonlinear_arith)
            requires
                0 <= low <= high,
                gaps > 0,
        ;
        if low < high && count <= 25 {
            assert((low * 24) / gaps < (high * 24) / gaps) by (nonlinear_arith)
                requires
                    0 <= low,
                    low + 1 <= high,
                    0 < gaps <= 24,
            ;
        }
    }
}

/// The port of an edge is a place in the line of its end.
proof fn lemma_port_place(plan: Plan, at_source: bool, edge: int)
    requires
        plan.drawing.model.edges.len() <= usize::MAX,
        0 <= edge < plan.drawing.model.edges.len(),
    ensures
        ({
            let line = plan.port_line(at_source, edge_end(plan.drawing.model.edges[edge], at_source));
            &&& line.contains(edge as usize)
            &&& 0 <= line.index_of(edge as usize) < line.len()
            &&& -12 <= plan.port(at_source, edge) <= 12
            &&& plan.port(at_source, edge) == port_spread(line.index_of(edge as usize), line.len() as int)
        }),
{
    let end = edge_end(plan.drawing.model.edges[edge], at_source);
    let line = plan.port_line(at_source, end);
    lemma_port_line(plan, at_source, end);
    assert(line.contains(edge as usize));
    lemma_spread(line.index_of(edge as usize), line.len() as int);
}

/// Every route starts to the right of its source node and ends to the left of its target node,
/// within the range of ports of the height of either. Each control point is level with the end
/// that it belongs to, and the two lie equally far from their ends.
#[verifier::rlimit(40)]
pub proof fn lemma_route_joins_its_nodes(
    snapshot: &GraphSnapshot,
    hints: Map<Seq<char>, LayoutHint>,
    reflow: Option<Set<usize>>,
    edge: int,
    source: int,
    target: int,
)
    requires
        graph_layout(snapshot, hints, reflow) is Ok,
        snapshot.nodes@.len() <= u32::MAX,
        snapshot.edges@.len() <= usize::MAX,
        layout_fits(snapshot, hints, reflow),
        joins(graph_layout(snapshot, hints, reflow)->Ok_0, edge, source, target),
    ensures
        ({
            let layout = graph_layout(snapshot, hints, reflow)->Ok_0;
            let route = layout.edges[edge].route;
            let from = layout.nodes[source].point;
            let to = layout.nodes[target].point;
            &&& route.source.x == from.x + 20
            &&& from.y - 12 <= route.source.y <= from.y + 12
            &&& route.target.x == to.x - 24
            &&& to.y - 12 <= route.target.y <= to.y + 12
            &&& route.control_1.y == route.source.y
            &&& route.control_2.y == route.target.y
            &&& route.control_1.x - route.source.x == route.target.x - route.control_2.x
        }),
{
    let plan = graph_plan(snapshot, hints, reflow);
    lemma_prepared(snapshot);
    crate::layout::laws::lemma_edge_count(snapshot);
    lemma_end_numbers(snapshot, hints, reflow, edge, source, target);
    lemma_port_place(plan, true, edge);
    lemma_port_place(plan, false, edge);
    let ends = plan.drawing.model.edges[edge];
    assert(curve_fits(
        plan.point(ends.source),
        plan.port(true, edge),
        plan.point(ends.target),
        plan.port(false, edge),
    ));
}

/// The control points of a route that runs forward lie at 45 hundredths of its width from its
/// ends, rounded down, yet at least 24 from them where the width allows it, and always at least
/// 8 short of the other end.
#[verifier::rlimit(40)]
pub proof fn lemma_control_points(
    snapshot: &GraphSnapshot,
    hints: Map<Seq<char>, LayoutHint>,
    reflow: Option<Set<usize>>,
    edge: int,
)
    requires
        graph_layout(snapshot, hints, reflow) is Ok,
        snapshot.nodes@.len() <= u32::MAX,
        snapshot.edges@.len() <= usize::MAX,
        layout_fits(snapshot, hints, reflow),
        0 <= edge < graph_layout(snapshot, hints, reflow)->Ok_0.edges.len(),
    ensures
        ({
            let route = graph_layout(snapshot, hints, reflow)->Ok_0.edges[edge].route;
            let width = route.target.x - route.source.x;
            let reach = route.control_1.x - route.source.x;
            &&& reach <= width - 8
            &&& width >= 54 ==> 100 * reach <= 45 * width < 100 * (reach + 1)
            &&& 32 <= width <= 55 ==> reach == 24
            &&& width <= 32 ==> reach == width - 8
        }),
{
    let plan = graph_plan(snapshot, hints, reflow);
    lemma_prepared(snapshot);
    let ends = plan.drawing.model.edges[edge];
    assert(curve_fits(
        plan.point(ends.source),
        plan.port(true, edge),
        plan.point(ends.target),
        plan.port(false, edge),
    ));
    let route = graph_layout(snapshot, hints, reflow)->Ok_0.edges[edge].route;
    let width = route.target.x - route.source.x;
    if width >= 32 {
        let share = control_reach(route.source.x as int, route.target.x as int);
        assert(share <= width - 8);
    }
}

/// Every edge of a layout leads to a higher rank, and so to the right.
pub proof fn lemma_edges_lead_to_higher_ranks(
    snapshot: &GraphSnapshot,
    hints: Map<Seq<char>, LayoutHint>,
    reflow: Option<Set<usize>>,
    edge: int,
    source: int,
    target: int,
)
    requires
        graph_layout(snapshot, hints, reflow) is Ok,
        snapshot.nodes@.len() <= u32::MAX,
        joins(graph_layout(snapshot, hints, reflow)->Ok_0, edge, source, target),
    ensures
        ({
            let nodes = graph_layout(snapshot, hints, reflow)->Ok_0.nodes;
            nodes[source].rank < nodes[target].rank
        }),
{
    lemma_end_numbers(snapshot, hints, reflow, edge, source, target);
    crate::layout::laws::lemma_edges_go_forward(snapshot, edge);
}

/// A node above rank zero has an edge from a node of the rank before its own. With every edge
/// leading to a higher rank, the rank of a node is the length of the longest path into it.
#[verifier::rlimit(40)]
pub proof fn lemma_rank_has_a_parent(
    snapshot: &GraphSnapshot,
    hints: Map<Seq<char>, LayoutHint>,
    reflow: Option<Set<usize>>,
    target: int,
) -> (found: (int, int))
    requires
        graph_layout(snapshot, hints, reflow) is Ok,
        snapshot.nodes@.len() <= u32::MAX,
        0 <= target < graph_layout(snapshot, hints, reflow)->Ok_0.nodes.len(),
        graph_layout(snapshot, hints, reflow)->Ok_0.nodes[target].rank > 0,
    ensures
        ({
            let layout = graph_layout(snapshot, hints, reflow)->Ok_0;
            let (edge, source) = found;
            &&& joins(layout, edge, source, target)
            &&& layout.nodes[source].rank + 1 == layout.nodes[target].rank
        }),
{
    let plan = graph_plan(snapshot, hints, reflow);
    let model = plan.drawing.model;
    lemma_prepared(snapshot);
    let w = lemma_number_at(snapshot, hints, reflow, target);
    let ranks = model.ranks();
    assert(ranks[w as int] > 0);
    let parent = choose|parent: usize|
        model.linked(parent, w) && ranks[w as int] == ranks[parent as int] + 1;
    assert(model.linked(parent, w));
    let edge = choose|k: int|
        0 <= k < model.edges.len() && (#[trigger] model.edges[k]).source == parent
            && model.edges[k].target == w;
    let source = lemma_place_of(snapshot, hints, reflow, parent);
    let v = lemma_number_at(snapshot, hints, reflow, source);
    (edge, source)
}

/// Laid out edges come by kind, the primary ones first and the shadow ones last, then by the id of
/// their source, then by that of their target.
pub proof fn lemma_layout_edges_in_order(
    snapshot: &GraphSnapshot,
    hints: Map<Seq<char>, LayoutHint>,
    reflow: Option<Set<usize>>,
    a: int,
    b: int,
)
    requires
        graph_layout(snapshot, hints, reflow) is Ok,
        snapshot.nodes@.len() <= u32::MAX,
        0 <= a < b < graph_layout(snapshot, hints, reflow)->Ok_0.edges.len(),
    ensures
        ({
            let edges = graph_layout(snapshot, hints, reflow)->Ok_0.edges;
            ||| edges[a].kind is Primary && !(edges[b].kind is Primary)
            ||| !(edges[a].kind is Shadow) && edges[b].kind is Shadow
            ||| edges[a].kind == edges[b].kind && crate::text::text_lt(
                edges[a].source_node_id,
                edges[b].source_node_id,
            )
            ||| edges[a].kind == edges[b].kind && edges[a].source_node_id == edges[b].source_node_id
                && crate::text::text_lt(edges[a].target_node_id, edges[b].target_node_id)
        }),
{
    let model = graph_model(snapshot);
    let x = model.edges[a];
    let y = model.edges[b];
    lemma_prepared(snapshot);
    crate::layout::laws::lemma_edges_in_order(snapshot);
    assert(crate::layout::model::edge_before(x, y));
    if x.source < y.source {
        assert(crate::text::text_lt(model.ids[x.source as int], model.ids[y.source as int]));
    }
    if x.target < y.target {
        assert(crate::text::text_lt(model.ids[x.target as int], model.ids[y.target as int]));
    }
}

/// Of two edges that leave one node, the one whose target has the lower rank, or the same rank
/// and lies higher, leaves no lower; where the layout has at most 25 edges, it leaves higher.
pub proof fn lemma_leaving_edges_do_not_cross(
    snapshot: &GraphSnapshot,
    hints: Map<Seq<char>, LayoutHint>,
    reflow: Option<Set<usize>>,
    source: int,
    first: (int, int),
    second: (int, int),
)
    requires
        graph_layout(snapshot, hints, reflow) is Ok,
        snapshot.nodes@.len() <= u32::MAX,
        snapshot.edges@.len() <= usize::MAX,
        layout_fits(snapshot, hints, reflow),
        joins(graph_layout(snapshot, hints, reflow)->Ok_0, first.0, source, first.1),
        joins(graph_layout(snapshot, hints, reflow)->Ok_0, second.0, source, second.1),
        ({
            let nodes = graph_layout(snapshot, hints, reflow)->Ok_0.nodes;
            ||| nodes[first.1].rank < nodes[second.1].rank
            ||| nodes[first.1].rank == nodes[second.1].rank && nodes[first.1].point.y
                < nodes[second.1].point.y
        }),
    ensures
        ({
            let edges = graph_layout(snapshot, hints, reflow)->Ok_0.edges;
            &&& edges[first.0].route.source.y <= edges[second.0].route.source.y
            &&& edges.len() <= 25 ==> edges[first.0].route.source.y < edges[second.0].route.source.y
        }),
{
    let plan = graph_plan(snapshot, hints, reflow);
    lemma_prepared(snapshot);
    crate::layout::laws::lemma_edge_count(snapshot);
    lemma_end_numbers(snapshot, hints, reflow, first.0, source, first.1);
    lemma_end_numbers(snapshot, hints, reflow, second.0, source, second.1);
    lemma_ports_in_order(plan, true, first.0, second.0);
    lemma_route_fits(plan, first.0);
    lemma_route_fits(plan, second.0);
}

/// Of two edges that enter one node, the one whose source has the lower rank, or the same rank
/// and lies higher, enters no lower; where the layout has at most 25 edges, it enters higher.
pub proof fn lemma_entering_edges_do_not_cross(
    snapshot: &GraphSnapshot,
    hints: Map<Seq<char>, LayoutHint>,
    reflow: Option<Set<usize>>,
    target: int,
    first: (int, int),
    second: (int, int),
)
    requires
        graph_layout(snapshot, hints, reflow) is Ok,
        snapshot.nodes@.len() <= u32::MAX,
        snapshot.edges@.len() <= usize::MAX,
        layout_fits(snapshot, hints, reflow),
        joins(graph_layout(snapshot, hints, reflow)->Ok_0, first.0, first.1, target),
        joins(graph_layout(snapshot, hints, reflow)->Ok_0, second.0, second.1, target),
        ({
            let nodes = graph_layout(snapshot, hints, reflow)->Ok_0.nodes;
            ||| nodes[first.1].rank < nodes[second.1].rank
            ||| nodes[first.1].rank == nodes[second.1].rank && nodes[first.1].point.y
                < nodes[second.1].point.y
        }),
    ensures
        ({
            let edges = graph_layout(snapshot, hints, reflow)->Ok_0.edges;
            &&& edges[first.0].route.target.y <= edges[second.0].route.target.y
            &&& edges.len() <= 25 ==> edges[first.0].route.target.y < edges[second.0].route.target.y
        }),
{
    let plan = graph_plan(snapshot, hints, reflow);
    lemma_prepared(snapshot);
    crate::layout::laws::lemma_edge_count(snapshot);
    lemma_end_numbers(snapshot, hints, reflow, first.0, first.1, target);
    lemma_end_numbers(snapshot, hints, reflow, second.0, second.1, target);
    lemma_ports_in_order(plan, false, first.0, second.0);
    lemma_route_fits(plan, first.0);
    lemma_route_fits(plan, second.0);
}

proof fn lemma_route_fits(plan: Plan, edge: int)
    requires
        plan.routes_fit(),
        0 <= edge < plan.drawing.model.edges.len(),
    ensures
        ({
            let ends = plan.drawing.model.edges[edge];
            &&& plan.route(edge).source.y == plan.point(ends.source).y + plan.port(true, edge)
            &&& plan.route(edge).target.y == plan.point(ends.target).y + plan.port(false, edge)
        }),
{
    let ends = plan.drawing.model.edges[edge];
    assert(curve_fits(
        plan.point(ends.source),
        plan.port(true, edge),
        plan.point(ends.target),
        plan.port(false, edge),
    ));
}

/// The ports at one side of a node are in the order of the other ends.
proof fn lemma_ports_in_order(plan: Plan, at_source: bool, first: int, second: int)
    requires
        plan.drawing.model.edges.len() <= usize::MAX,
        0 <= first < plan.drawing.model.edges.len(),
        0 <= second < plan.drawing.model.edges.len(),
        edge_end(plan.drawing.model.edges[first], at_source) == edge_end(
            plan.drawing.model.edges[second],
            at_source,
        ),
        ({
            let x = edge_end(plan.drawing.model.edges[first], !at_source);
            let y = edge_end(plan.drawing.model.edges[second], !at_source);
            ||| plan.drawing.rank(x) < plan.drawing.rank(y)
            ||| plan.drawing.rank(x) == plan.drawing.rank(y) && plan.point(x).y < plan.point(y).y
        }),
    ensures
        plan.port(at_source, first) <= plan.port(at_source, second),
        plan.drawing.model.edges.len() <= 25 ==> plan.port(at_source, first) < plan.port(
            at_source,
            second,
        ),
{
    let end = edge_end(plan.drawing.model.edges[first], at_source);
    let line = plan.port_line(at_source, end);
    lemma_port_place(plan, at_source, first);
    lemma_port_place(plan, at_source, second);
    let i = line.index_of(first as usize);
    let j = line.index_of(second as usize);
    crate::layout::routes::lemma_port_line_sorted(plan, at_source, end);
    assert(line[i] == first && line[j] == second);
    if i >= j {
        if i > j {
            assert(plan.port_order(at_source)(line[j], line[i]));
        }
        assert(false);
    }
    lemma_spread_grows(i, j, line.len() as int);
    lemma_port_line(plan, at_source, end);
    let all = crate::sorting::indices(plan.drawing.model.edges.len());
    assert(line.len() <= all.len()) by {
        line.unique_seq_to_set();
        assert(all.no_duplicates());
        all.unique_seq_to_set();
        assert forall|k: usize| line.to_set().contains(k) implies all.to_set().contains(k) by {
            assert(line.contains(k));
            assert(all[k as int] == k);
        }
        vstd::set_lib::lemma_len_subset(line.to_set(), all.to_set());
    }
}

/// An edge that alone leaves its source starts at the height of the source. Of several edges, the
/// highest starts 12 above it and the lowest 12 below it.
#[verifier::rlimit(40)]
pub proof fn lemma_leaving_edges_spread(
    snapshot: &GraphSnapshot,
    hints: Map<Seq<char>, LayoutHint>,
    reflow: Option<Set<usize>>,
    source: int,
    edge: int,
    target: int,
)
    requires
        graph_layout(snapshot, hints, reflow) is Ok,
        snapshot.nodes@.len() <= u32::MAX,
        snapshot.edges@.len() <= usize::MAX,
        layout_fits(snapshot, hints, reflow),
        joins(graph_layout(snapshot, hints, reflow)->Ok_0, edge, source, target),
    ensures
        ({
            let layout = graph_layout(snapshot, hints, reflow)->Ok_0;
            let alone = forall|other: int|
                0 <= other < layout.edges.len() && (#[trigger] layout.edges[other]).source_node_id
                    == layout.nodes[source].node_id ==> other == edge;
            &&& alone ==> layout.edges[edge].route.source.y == layout.nodes[source].point.y
            &&& !alone ==> exists|high: int, low: int|
                0 <= high < layout.edges.len() && 0 <= low < layout.edges.len() && (
                #[trigger] layout.edges[high]).source_node_id == layout.nodes[source].node_id && (
                #[trigger] layout.edges[low]).source_node_id == layout.nodes[source].node_id
                    && layout.edges[high].route.source.y == layout.nodes[source].point.y - 12
                    && layout.edges[low].route.source.y == layout.nodes[source].point.y + 12
        }),
{
    let layout = graph_layout(snapshot, hints, reflow)->Ok_0;
    let plan = graph_plan(snapshot, hints, reflow);
    lemma_prepared(snapshot);
    crate::layout::laws::lemma_edge_count(snapshot);
    lemma_end_numbers(snapshot, hints, reflow, edge, source, target);
    let end = plan.drawing.model.edges[edge].source;
    assert(layout.edges.len() == plan.drawing.model.edges.len());
    assert forall|other: int|
        0 <= other < layout.edges.len() implies ((#[trigger] layout.edges[other]).source_node_id
        == layout.nodes[source].node_id <==> plan.drawing.model.edges[other].source == end) by {
        if layout.edges[other].source_node_id == layout.nodes[source].node_id {
            lemma_ids_distinct(snapshot, plan.drawing.model.edges[other].source, end);
        }
    }
    let (high, low) = lemma_extreme_ports(plan, true, edge);
    lemma_route_fits(plan, edge);
    lemma_route_fits(plan, high);
    lemma_route_fits(plan, low);
    assert(layout.edges[high].source_node_id == layout.nodes[source].node_id);
    assert(layout.edges[low].source_node_id == layout.nodes[source].node_id);
}

/// An edge that alone enters its target ends at the height of the target. Of several edges, the
/// highest ends 12 above it and the lowest 12 below it.
#[verifier::rlimit(40)]
pub proof fn lemma_entering_edges_spread(
    snapshot: &GraphSnapshot,
    hints: Map<Seq<char>, LayoutHint>,
    reflow: Option<Set<usize>>,
    source: int,
    edge: int,
    target: int,
)
    requires
        graph_layout(snapshot, hints, reflow) is Ok,
        snapshot.nodes@.len() <= u32::MAX,
        snapshot.edges@.len() <= usize::MAX,
        layout_fits(snapshot, hints, reflow),
        joins(graph_layout(snapshot, hints, reflow)->Ok_0, edge, source, target),
    ensures
        ({
            let layout = graph_layout(snapshot, hints, reflow)->Ok_0;
            let alone = forall|other: int|
                0 <= other < layout.edges.len() && (#[trigger] layout.edges[other]).target_node_id
                    == layout.nodes[target].node_id ==> other == edge;
            &&& alone ==> layout.edges[edge].route.target.y == layout.nodes[target].point.y
            &&& !alone ==> exists|high: int, low: int|
                0 <= high < layout.edges.len() && 0 <= low < layout.edges.len() && (
                #[trigger] layout.edges[high]).target_node_id == layout.nodes[target].node_id && (
                #[trigger] layout.edges[low]).target_node_id == layout.nodes[target].node_id
                    && layout.edges[high].route.target.y == layout.nodes[target].point.y - 12
                    && layout.edges[low].route.target.y == layout.nodes[target].point.y + 12
        }),
{
    let layout = graph_layout(snapshot, hints, reflow)->Ok_0;
    let plan = graph_plan(snapshot, hints, reflow);
    lemma_prepared(snapshot);
    crate::layout::laws::lemma_edge_count(snapshot);
    lemma_end_numbers(snapshot, hints, reflow, edge, source, target);
    let end = plan.drawing.model.edges[edge].target;
    assert(layout.edges.len() == plan.drawing.model.edges.len());
    assert forall|other: int|
        0 <= other < layout.edges.len() implies ((#[trigger] layout.edges[other]).target_node_id
        == layout.nodes[target].node_id <==> plan.drawing.model.edges[other].target == end) by {
        if layout.edges[other].target_node_id == layout.nodes[target].node_id {
            lemma_ids_distinct(snapshot, plan.drawing.model.edges[other].target, end);
        }
    }
    let (high, low) = lemma_extreme_ports(plan, false, edge);
    lemma_route_fits(plan, edge);
    lemma_route_fits(plan, high);
    lemma_route_fits(plan, low);
    assert(layout.edges[high].target_node_id == layout.nodes[target].node_id);
    assert(layout.edges[low].target_node_id == layout.nodes[target].node_id);
}

/// The first and the last port at one side of a node.
proof fn lemma_extreme_ports(plan: Plan, at_source: bool, edge: int) -> (ends: (int, int))
    requires
        plan.drawing.model.edges.len() <= usize::MAX,
        0 <= edge < plan.drawing.model.edges.len(),
    ensures
        ({
            let edges = plan.drawing.model.edges;
            let end = edge_end(edges[edge], at_source);
            let alone = forall|other: int|
                0 <= other < edges.len() && edge_end(#[trigger] edges[other], at_source) == end ==> other
                    == edge;
            let (high, low) = ends;
            &&& 0 <= high < edges.len() && edge_end(edges[high], at_source) == end
            &&& 0 <= low < edges.len() && edge_end(edges[low], at_source) == end
            &&& alone ==> plan.port(at_source, edge) == 0
            &&& !alone ==> plan.port(at_source, high) == -12 && plan.port(at_source, low) == 12
        }),
{
    let edges = plan.drawing.model.edges;
    let end = edge_end(edges[edge], at_source);
    let line = plan.port_line(at_source, end);
    lemma_port_line(plan, at_source, end);
    lemma_port_place(plan, at_source, edge);
    let high = line[0] as int;
    let low = line[line.len() - 1] as int;
    assert(line.contains(line[0]) && line.contains(line[line.len() - 1]));
    lemma_port_place(plan, at_source, high);
    lemma_port_place(plan, at_source, low);
    lemma_spread(0, line.len() as int);
    lemma_spread(line.len() - 1, line.len() as int);
    assert(line.index_of(line[0]) == 0);
    assert(line.index_of(line[line.len() - 1]) == line.len() - 1);
    if line.len() > 1 {
        assert(line[0] != line[line.len() - 1]);
        if high == edge {
            assert(edge_end(edges[low], at_source) == end);
        } else {
            assert(edge_end(edges[high], at_source) == end);
        }
    } else {
        assert forall|other: int|
            0 <= other < edges.len() && edge_end(#[trigger] edges[other], at_source) == end implies other
            == edge by {
            assert(line.contains(other as usize));
            assert(line[0] == other as usize);
            assert(line[0] == edge as usize);
        }
    }
    (high, low)
}

/// The place of a node is behind all lower ranks, and behind the nodes above it in its own.
proof fn lemma_sequence_place(plan: Plan, count: nat, place: int)
    requires
        plan.drawing.model.valid(),
        0 <= place < plan.lines_upto(count).len(),
    ensures
        ({
            let node = plan.lines_upto(count)[place];
            let rank = plan.drawing.rank(node) as nat;
            &&& rank < count
            &&& node < plan.size()
            &&& place == plan.lines_upto(rank).len() + plan.order(node)
            &&& 0 <= plan.order(node) < plan.line(rank as int).len()
        }),
    decreases count,
{
    let before = plan.lines_upto((count - 1) as nat);
    let line = plan.line(count - 1);
    if place < before.len() {
        lemma_sequence_place(plan, (count - 1) as nat, place);
    } else {
        let node = line[place - before.len()];
        lemma_line(plan, count - 1);
        assert(line.contains(node));
        assert(line.index_of(node) == place - before.len());
    }
}

proof fn lemma_lines_grow(plan: Plan, low: nat, high: nat)
    requires
        low <= high,
    ensures
        plan.lines_upto(low).len() <= plan.lines_upto(high).len(),
        low < high ==> plan.lines_upto(low).len() + plan.line(low as int).len() <= plan.lines_upto(
            high,
        ).len(),
    decreases high,
{
    if low < high {
        lemma_lines_grow(plan, low, (high - 1) as nat);
    }
}

/// A layout lists its nodes rank by rank and from top to bottom, and numbers the nodes of each
/// rank from zero: the first node has rank and order zero, and each node that follows another
/// has the next order in its rank, or is the first of the next rank.
#[verifier::rlimit(40)]
pub proof fn lemma_nodes_are_listed_by_rank(
    snapshot: &GraphSnapshot,
    hints: Map<Seq<char>, LayoutHint>,
    reflow: Option<Set<usize>>,
    place: int,
)
    requires
        graph_layout(snapshot, hints, reflow) is Ok,
        snapshot.nodes@.len() <= u32::MAX,
        0 <= place < graph_layout(snapshot, hints, reflow)->Ok_0.nodes.len(),
    ensures
        ({
            let nodes = graph_layout(snapshot, hints, reflow)->Ok_0.nodes;
            &&& place == 0 ==> nodes[place].rank == 0 && nodes[place].order == 0
            &&& place > 0 ==> {
                let above = nodes[place - 1];
                let node = nodes[place];
                ||| node.rank == above.rank && node.order == above.order + 1 && above.point.y
                    <= node.point.y
                ||| node.rank == above.rank + 1 && node.order == 0
            }
        }),
{
    let plan = graph_plan(snapshot, hints, reflow);
    let depth = plan.drawing.depth();
    let nodes = graph_layout(snapshot, hints, reflow)->Ok_0.nodes;
    lemma_prepared(snapshot);
    let node = lemma_number_at(snapshot, hints, reflow, place);
    let rank = plan.drawing.rank(node) as nat;
    lemma_sequence_place(plan, depth, place);
    lemma_line_size(plan, rank as int);
    if place == 0 {
        lemma_line_of_rank(snapshot, hints, reflow, node, 0);
        if rank > 0 {
            lemma_lines_grow(plan, 0, rank);
        }
    } else {
        let above = lemma_number_at(snapshot, hints, reflow, place - 1);
        let before = plan.drawing.rank(above) as nat;
        lemma_sequence_place(plan, depth, place - 1);
        lemma_line_size(plan, before as int);
        if rank < before {
            lemma_lines_grow(plan, rank, before);
        } else if rank > before {
            lemma_lines_grow(plan, before, rank);
            lemma_lines_grow(plan, before + 1, rank);
            if rank > before + 1 {
                lemma_line_of_rank(snapshot, hints, reflow, node, (before + 1) as usize);
            }
        } else {
            let line = plan.line(rank as int);
            let i = plan.order(above);
            lemma_line(plan, rank as int);
            assert(line.contains(above) && line.contains(node));
            assert(line[i] == above && line[i + 1] == node);
            crate::layout::packing::lemma_line_sorted(plan, rank as int);
            assert(plan.height_order()(line[i], line[i + 1]));
        }
    }
}

/// The orders of a rank are numbers of the machine.
proof fn lemma_line_size(plan: Plan, rank: int)
    requires
        plan.drawing.model.valid(),
    ensures
        plan.line(rank).len() <= usize::MAX,
{
    let line = plan.line(rank);
    let all = crate::sorting::indices(plan.size());
    lemma_line(plan, rank);
    line.unique_seq_to_set();
    assert(all.no_duplicates());
    all.unique_seq_to_set();
    assert forall|k: usize| line.to_set().contains(k) implies all.to_set().contains(k) by {
        assert(line.contains(k));
        assert(all[k as int] == k);
    }
    vstd::set_lib::lemma_len_subset(line.to_set(), all.to_set());
}

/// The ranks up to that of a node are not empty.
proof fn lemma_line_of_rank(
    snapshot: &GraphSnapshot,
    hints: Map<Seq<char>, LayoutHint>,
    reflow: Option<Set<usize>>,
    node: usize,
    rank: usize,
)
    requires
        preparation(snapshot) is Ok,
        snapshot.nodes@.len() <= u32::MAX,
        node < snapshot.nodes@.len(),
        rank <= graph_plan(snapshot, hints, reflow).drawing.rank(node),
    ensures
        graph_plan(snapshot, hints, reflow).line(rank as int).len() > 0,
{
    let plan = graph_plan(snapshot, hints, reflow);
    lemma_prepared(snapshot);
    crate::layout::laws::lemma_ranks_have_no_gaps(snapshot, node, rank);
    let other = choose|other: usize|
        other < graph_model(snapshot).size() && graph_model(snapshot).ranks()[other as int] == rank;
    lemma_line(plan, rank as int);
    assert(plan.line(rank as int).contains(other));
}

/// A node whose hint is for its rank stays at the point of the hint, where the rank is not to be
/// ordered again. Every other node stands in the column of its rank, columns 112 apart, and in
/// some row, rows 72 apart, both from 56 on.
#[verifier::rlimit(40)]
pub proof fn lemma_layout_points(
    snapshot: &GraphSnapshot,
    hints: Map<Seq<char>, LayoutHint>,
    reflow: Option<Set<usize>>,
    place: int,
)
    requires
        graph_layout(snapshot, hints, reflow) is Ok,
        snapshot.nodes@.len() <= u32::MAX,
        layout_fits(snapshot, hints, reflow),
        0 <= place < graph_layout(snapshot, hints, reflow)->Ok_0.nodes.len(),
    ensures
        ({
            let node = graph_layout(snapshot, hints, reflow)->Ok_0.nodes[place];
            let stays = hints.contains_key(node.node_id) && hints[node.node_id].rank == node.rank && (
            reflow matches Some(ranks) && !ranks.contains(node.rank));
            &&& stays ==> node.point == hints[node.node_id].point
            &&& !stays ==> node.point.x == 56 + 112 * node.rank
            &&& !stays ==> node.point.y >= 56 && (node.point.y - 56) % 72 == 0
        }),
{
    let plan = graph_plan(snapshot, hints, reflow);
    lemma_prepared(snapshot);
    crate::layout::packing::lemma_plan_valid(snapshot, hints, reflow);
    let number = lemma_number_at(snapshot, hints, reflow, place);
    crate::layout::packing::lemma_row_bounded(plan, number);
    assert(plan.slots_fit());
    let row = plan.row(number);
    assert((row * 72) % 72 == 0) by (nonlinear_arith);
    if !plan.keeps_hint(number) {
        assert(56 + plan.drawing.rank(number) * 112 <= i32::MAX && 56 + row * 72 <= i32::MAX);
        assert(plan.point(number).y == 56 + row * 72);
        assert(plan.point(number).x == 56 + plan.drawing.rank(number) * 112);
    }
}

/// Where no rank keeps its hints, a node stands in the column of its rank and in the row of its
/// order: columns are 112 apart and rows 72, both from 56 on.
#[verifier::rlimit(40)]
pub proof fn lemma_layout_grid(
    snapshot: &GraphSnapshot,
    hints: Map<Seq<char>, LayoutHint>,
    place: int,
)
    requires
        graph_layout(snapshot, hints, None) is Ok,
        snapshot.nodes@.len() <= u32::MAX,
        layout_fits(snapshot, hints, None),
        0 <= place < graph_layout(snapshot, hints, None)->Ok_0.nodes.len(),
    ensures
        ({
            let node = graph_layout(snapshot, hints, None)->Ok_0.nodes[place];
            &&& node.point.x == 56 + 112 * node.rank
            &&& node.point.y == 56 + 72 * node.order
        }),
{
    let plan = graph_plan(snapshot, hints, None);
    lemma_prepared(snapshot);
    crate::layout::packing::lemma_plan_valid(snapshot, hints, None);
    let number = lemma_number_at(snapshot, hints, None, place);
    let rank = plan.drawing.rank(number) as int;
    crate::layout::packing::lemma_row_bounded(plan, number);
    assert(plan.slots_fit());
    lemma_depth(plan.drawing.model.ranks(), number as int);
    crate::layout::packing::lemma_packed(plan, rank);
    lemma_line(plan, rank);
    crate::layout::packing::lemma_line_sorted(plan, rank);
    lemma_line_size(plan, rank);
    let line = plan.line(rank);
    let packed = plan.packed(rank);
    let before = |a: usize, b: usize| plan.height_order()(a, b) && a != b;
    assert(crate::sorting::increasing(line, before)) by {
        assert forall|i: int, j: int| 0 <= i < j < line.len() implies before(
            #[trigger] line[i],
            #[trigger] line[j],
        ) by {
            assert(plan.height_order()(line[i], line[j]));
        }
    }
    assert(crate::sorting::increasing(packed, before)) by {
        assert forall|i: int, j: int| 0 <= i < j < packed.len() implies before(
            #[trigger] packed[i],
            #[trigger] packed[j],
        ) by {
            assert(packed.contains(packed[i]) && packed.contains(packed[j]));
            assert(plan.row(packed[i]) == i) by {
                assert(packed[packed.index_of(packed[i])] == packed[i]);
            }
            assert(plan.row(packed[j]) == j) by {
                assert(packed[packed.index_of(packed[j])] == packed[j]);
            }
        }
    }
    assert(line.to_set() =~= packed.to_set()) by {
        assert forall|v: usize| line.to_set().contains(v) <==> packed.to_set().contains(v) by {
            assert(line.contains(v) <==> packed.contains(v));
        }
    }
    crate::sorting::lemma_increasing_unique(line, packed, before);
    assert(line.contains(number));
}

/// The canvas ends 56 behind the rightmost and the lowest node, and measures 112 by 112 without
/// nodes.
pub proof fn lemma_canvas_holds_nodes(
    snapshot: &GraphSnapshot,
    hints: Map<Seq<char>, LayoutHint>,
    reflow: Option<Set<usize>>,
)
    requires
        graph_layout(snapshot, hints, reflow) is Ok,
    ensures
        ({
            let layout = graph_layout(snapshot, hints, reflow)->Ok_0;
            let nodes = layout.nodes;
            &&& forall|n: int|
                #![trigger nodes[n]]
                0 <= n < nodes.len() ==> (nodes[n].point.x + 56 <= layout.width || layout.width
                    == i32::MAX) && (nodes[n].point.y + 56 <= layout.height || layout.height == i32::MAX)
            &&& nodes.len() > 0 ==> exists|n: int|
                0 <= n < nodes.len() && ((#[trigger] nodes[n]).point.x + 56 == layout.width
                    || (layout.width == i32::MAX && nodes[n].point.x + 56 > i32::MAX))
            &&& nodes.len() > 0 ==> exists|n: int|
                0 <= n < nodes.len() && ((#[trigger] nodes[n]).point.y + 56 == layout.height
                    || (layout.height == i32::MAX && nodes[n].point.y + 56 > i32::MAX))
            &&& nodes.len() == 0 ==> layout.width == 112 && layout.height == 112
        }),
{
    let layout = graph_layout(snapshot, hints, reflow)->Ok_0;
    let nodes = layout.nodes;
    let across = nodes.map_values(|node: crate::layout::GraphLayoutNodeView| node.point.x);
    let down = nodes.map_values(|node: crate::layout::GraphLayoutNodeView| node.point.y);
    assert forall|n: int|
        #![trigger nodes[n]]
        0 <= n < nodes.len() implies (nodes[n].point.x + 56 <= layout.width || layout.width == i32::MAX)
        && (nodes[n].point.y + 56 <= layout.height || layout.height == i32::MAX) by {
        lemma_highest(across, n);
        lemma_highest(down, n);
        assert(across[n] == nodes[n].point.x && down[n] == nodes[n].point.y);
    }
    if nodes.len() > 0 {
        let n = lemma_highest_found(across);
        let m = lemma_highest_found(down);
        assert(across[n] == nodes[n].point.x && down[m] == nodes[m].point.y);
    }
}

proof fn lemma_highest(values: Seq<i32>, index: int)
    requires
        0 <= index < values.len(),
    ensures
        values[index] <= crate::layout::highest(values),
    decreases values.len(),
{
    if index < values.len() - 1 {
        lemma_highest(values.drop_last(), index);
    }
}

proof fn lemma_highest_found(values: Seq<i32>) -> (index: int)
    requires
        values.len() > 0,
    ensures
        0 <= index < values.len(),
        values[index] == crate::layout::highest(values),
    decreases values.len(),
{
    if values.len() == 1 {
        0
    } else {
        let before = lemma_highest_found(values.drop_last());
        if crate::layout::highest(values.drop_last()) < values.last() {
            values.len() - 1
        } else {
            before
        }
    }
}

/// A snapshot is laid out exactly where its nodes have distinct ids, the ends of its edges are
/// nodes of it, and no path along its edges comes back to where it began.
#[verifier::rlimit(40)]
pub proof fn lemma_laid_out_iff_valid(
    snapshot: &GraphSnapshot,
    hints: Map<Seq<char>, LayoutHint>,
    reflow: Option<Set<usize>>,
)
    requires
        snapshot.nodes@.len() <= u32::MAX,
    ensures
        graph_layout(snapshot, hints, reflow) is Ok <==> {
            &&& forall|i: int, j: int|
                0 <= i < j < snapshot.nodes@.len() ==> (#[trigger] snapshot.nodes@[i]).id@ != (
                #[trigger] snapshot.nodes@[j]).id@
            &&& forall|k: int|
                #![trigger snapshot.edges@[k]]
                0 <= k < snapshot.edges@.len() ==> is_node(snapshot, snapshot.edges@[k].source@)
                    && is_node(snapshot, snapshot.edges@[k].target@)
            &&& crate::layout::laws::is_acyclic(graph_model(snapshot))
        },
{
    let nodes = snapshot.nodes@;
    let edges = snapshot.edges@;
    let ids = node_ids(nodes);
    let known = ids.to_set();
    assert forall|id: Seq<char>| #[trigger] known.contains(id) <==> is_node(snapshot, id) by {
        lemma_is_node(snapshot, id);
    }
    if graph_layout(snapshot, hints, reflow) is Ok {
        lemma_prepared(snapshot);
        crate::layout::laws::lemma_snapshot_ids_distinct(snapshot);
        assert forall|i: int, j: int| 0 <= i < j < nodes.len() implies (#[trigger] nodes[i]).id@ != (
        #[trigger] nodes[j]).id@ by {
            assert(ids[i] != ids[j]);
        }
        assert forall|k: int| #![trigger edges[k]] 0 <= k < edges.len() implies is_node(
            snapshot,
            edges[k].source@,
        ) && is_node(snapshot, edges[k].target@) by {
            crate::layout::laws::lemma_ends_known(snapshot, k);
            assert(known.contains(edges[k].source@) && known.contains(edges[k].target@));
        }
        crate::layout::laws::lemma_layered_iff_acyclic(graph_model(snapshot));
    } else {
        match preparation(snapshot)->Err_0 {
            GraphLayoutErrorView::DuplicateNode { node_id } => {
                let index = choose|index: int| crate::layout::model::is_first_duplicate(nodes, index);
                if exists|index: int| crate::layout::model::is_first_duplicate(nodes, index) {
                    let earlier = ids.take(index).index_of(nodes[index].id@);
                    assert(ids.take(index)[earlier] == ids[earlier]);
                    assert(nodes[earlier].id@ == nodes[index].id@);
                }
            },
            GraphLayoutErrorView::MissingEdgeNode { source_id, target_id, missing_node_id } => {
                let index = choose|index: int|
                    crate::layout::model::is_first_dangling(known, edges, index);
                assert(!crate::layout::model::has_both_ends(known, edges[index]));
                assert(0 <= index < edges.len());
            },
            GraphLayoutErrorView::Cycle { node_id } => {
                if !(exists|index: int| crate::layout::model::is_first_duplicate(nodes, index)) && !(
                exists|index: int| crate::layout::model::is_first_dangling(known, edges, index)) {
                    crate::layout::laws::lemma_checked_model(snapshot);
                    crate::layout::laws::lemma_layered_iff_acyclic(graph_model(snapshot));
                }
            },
        }
    }
}

/// Whether a node of the snapshot has an id.
pub open spec fn is_node(snapshot: &GraphSnapshot, id: Seq<char>) -> bool {
    exists|i: int| 0 <= i < snapshot.nodes@.len() && (#[trigger] snapshot.nodes@[i]).id@ == id
}

proof fn lemma_is_node(snapshot: &GraphSnapshot, id: Seq<char>)
    ensures
        node_ids(snapshot.nodes@).to_set().contains(id) <==> is_node(snapshot, id),
{
    let ids = node_ids(snapshot.nodes@);
    if ids.contains(id) {
        assert(snapshot.nodes@[ids.index_of(id)].id@ == id);
    }
    if is_node(snapshot, id) {
        let i = choose|i: int| 0 <= i < snapshot.nodes@.len() && (#[trigger] snapshot.nodes@[i]).id@ == id;
        assert(ids[i] == id);
    }
}

/// Whether the first nodes of a snapshot have different ids.
pub open spec fn ids_differ(snapshot: &GraphSnapshot, count: int) -> bool {
    forall|i: int, j: int|
        0 <= i < j < count ==> (#[trigger] snapshot.nodes@[i]).id@ != (#[trigger] snapshot.nodes@[j]).id@
}

/// The error of a snapshot that cannot be laid out names what is wrong with it. That is the first
/// id that a node before has too; or else the ends of the first edge with an end that is no node,
/// together with that end; or else a node.
#[verifier::rlimit(40)]
pub proof fn lemma_error_names_its_cause(
    snapshot: &GraphSnapshot,
    hints: Map<Seq<char>, LayoutHint>,
    reflow: Option<Set<usize>>,
)
    requires
        graph_layout(snapshot, hints, reflow) is Err,
        snapshot.nodes@.len() <= u32::MAX,
    ensures
        match graph_layout(snapshot, hints, reflow)->Err_0 {
            GraphLayoutErrorView::DuplicateNode { node_id } => exists|i: int, j: int|
                0 <= i < j < snapshot.nodes@.len() && (#[trigger] snapshot.nodes@[i]).id@ == node_id && (
                #[trigger] snapshot.nodes@[j]).id@ == node_id && ids_differ(snapshot, j),
            GraphLayoutErrorView::MissingEdgeNode { source_id, target_id, missing_node_id } => {
                &&& ids_differ(snapshot, snapshot.nodes@.len() as int)
                &&& !is_node(snapshot, missing_node_id)
                &&& missing_node_id == source_id || missing_node_id == target_id
                &&& missing_node_id != source_id ==> is_node(snapshot, source_id)
                &&& exists|k: int|
                    0 <= k < snapshot.edges@.len() && (#[trigger] snapshot.edges@[k]).source@ == source_id
                        && snapshot.edges@[k].target@ == target_id && forall|l: int|
                        #![trigger snapshot.edges@[l]]
                        0 <= l < k ==> is_node(snapshot, snapshot.edges@[l].source@) && is_node(
                            snapshot,
                            snapshot.edges@[l].target@,
                        )
            },
            GraphLayoutErrorView::Cycle { node_id } => {
                &&& ids_differ(snapshot, snapshot.nodes@.len() as int)
                &&& forall|k: int|
                    #![trigger snapshot.edges@[k]]
                    0 <= k < snapshot.edges@.len() ==> is_node(snapshot, snapshot.edges@[k].source@)
                        && is_node(snapshot, snapshot.edges@[k].target@)
                &&& is_node(snapshot, node_id)
            },
        },
{
    let nodes = snapshot.nodes@;
    let edges = snapshot.edges@;
    let ids = node_ids(nodes);
    let known = ids.to_set();
    assert forall|id: Seq<char>| #[trigger] known.contains(id) <==> is_node(snapshot, id) by {
        lemma_is_node(snapshot, id);
    }
    if exists|index: int| crate::layout::model::is_first_duplicate(nodes, index) {
        let index = choose|index: int| crate::layout::model::is_first_duplicate(nodes, index);
        let earlier = ids.take(index).index_of(nodes[index].id@);
        assert(ids.take(index)[earlier] == ids[earlier]);
        assert(nodes[earlier].id@ == nodes[index].id@);
        assert forall|i: int, j: int| 0 <= i < j < index implies (#[trigger] nodes[i]).id@ != (
        #[trigger] nodes[j]).id@ by {
            assert(ids.take(index)[i] != ids.take(index)[j]);
        }
    } else if exists|index: int| crate::layout::model::is_first_dangling(known, edges, index) {
        lemma_ids_differ(snapshot);
        let index = choose|index: int| crate::layout::model::is_first_dangling(known, edges, index);
        assert(!crate::layout::model::has_both_ends(known, edges[index]));
        assert forall|l: int| #![trigger edges[l]] 0 <= l < index implies is_node(
            snapshot,
            edges[l].source@,
        ) && is_node(snapshot, edges[l].target@) by {
            assert(crate::layout::model::has_both_ends(known, edges[l]));
        }
    } else {
        lemma_ids_differ(snapshot);
        assert forall|k: int| #![trigger edges[k]] 0 <= k < edges.len() implies is_node(
            snapshot,
            edges[k].source@,
        ) && is_node(snapshot, edges[k].target@) by {
            crate::layout::laws::lemma_no_dangling(known, edges, k + 1);
            assert(crate::layout::model::has_both_ends(known, edges[k]));
        }
        crate::layout::laws::lemma_checked_model(snapshot);
        let model = graph_model(snapshot);
        let node = crate::layout::laws::lemma_first_stuck(model);
        let chosen = choose|node: usize| model.is_first_stuck(node);
        assert(model.is_first_stuck(chosen));
        assert(model.ids.to_set().contains(model.ids[chosen as int]));
        assert(known.contains(model.ids[chosen as int]));
    }
}

/// The message for an error ends with the id of the node that is to blame, and the one for an edge
/// names its ends before that.
pub proof fn lemma_messages_name_the_node(node_id: Seq<char>, source_id: Seq<char>, target_id: Seq<char>)
    ensures
        crate::incremental_layout_laws::ends_with(
            layout_error_message(GraphLayoutErrorView::DuplicateNode { node_id }),
            node_id,
        ),
        crate::incremental_layout_laws::ends_with(
            layout_error_message(GraphLayoutErrorView::Cycle { node_id }),
            node_id,
        ),
        crate::incremental_layout_laws::ends_with(
            layout_error_message(
                GraphLayoutErrorView::MissingEdgeNode { source_id, target_id, missing_node_id: node_id },
            ),
            source_id + " -> "@ + target_id + " references missing node "@ + node_id,
        ),
        layout_error_message(GraphLayoutErrorView::DuplicateNode { node_id }) != layout_error_message(
            GraphLayoutErrorView::Cycle { node_id },
        ),
{
    crate::incremental_layout_laws::lemma_ends("Graph contains duplicate node "@, node_id);
    crate::incremental_layout_laws::lemma_ends("Graph contains a cycle involving node "@, node_id);
    let named = source_id + " -> "@ + target_id + " references missing node "@ + node_id;
    crate::incremental_layout_laws::lemma_ends("Graph edge "@, named);
    assert("Graph edge "@ + named =~= layout_error_message(
        GraphLayoutErrorView::MissingEdgeNode { source_id, target_id, missing_node_id: node_id },
    ));
    reveal_strlit("Graph contains duplicate node ");
    reveal_strlit("Graph contains a cycle involving node ");
    assert("Graph contains duplicate node "@.len() == 30);
    assert("Graph contains a cycle involving node "@.len() == 38);
    assert(layout_error_message(GraphLayoutErrorView::DuplicateNode { node_id }).len() == 30 + node_id.len());
    assert(layout_error_message(GraphLayoutErrorView::Cycle { node_id }).len() == 38 + node_id.len());
}

proof fn lemma_ids_differ(snapshot: &GraphSnapshot)
    requires
        !exists|index: int| crate::layout::model::is_first_duplicate(snapshot.nodes@, index),
    ensures
        ids_differ(snapshot, snapshot.nodes@.len() as int),
{
    let nodes = snapshot.nodes@;
    let ids = node_ids(nodes);
    crate::layout::laws::lemma_no_duplicates(nodes, nodes.len() as int);
    assert forall|i: int, j: int| 0 <= i < j < nodes.len() implies (#[trigger] nodes[i]).id@ != (
    #[trigger] nodes[j]).id@ by {
        assert(ids.take(nodes.len() as int)[i] != ids.take(nodes.len() as int)[j]);
    }
}

} // verus!
