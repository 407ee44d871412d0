//! Routing the edges between placed nodes.

use vstd::prelude::*;
use vstd::relations::total_ordering;
use crate::api::GraphBezierRoute;
use crate::api::Point;
use crate::layout::model::kind_order;
use crate::layout::model::EdgeIndex;
use crate::layout::packing::Plan;
use crate::layout::prepare::PreparedGraph;
use crate::layout::GraphLayoutEdgeKind;
use crate::layout::NODE_RADIUS;
use crate::sequences::lemma_filter_members;
use crate::sorting::indices;
use crate::sorting::sort_indices;
use crate::sorting::Precedence;

verus! {

const EDGE_SOURCE_PADDING: i32 = 2;

const EDGE_TARGET_PADDING: i32 = 6;

const EDGE_PORT_RANGE: i32 = 12;

const EDGE_CONTROL_RATIO_PERCENT: i32 = 45;

const EDGE_MIN_CONTROL_DISTANCE: i32 = 24;

/// The end of an edge on one side.
pub open spec fn edge_end(edge: EdgeIndex, at_source: bool) -> usize {
    if at_source {
        edge.source
    } else {
        edge.target
    }
}

/// How far the ports of an endpoint spread from its middle.
pub open spec fn port_spread(index: int, count: int) -> int {
    if count <= 1 {
        0
    } else {
        -12 + (index * 24) / (count - 1)
    }
}

/// Where an edge leaves its source, on the horizontal axis.
pub open spec fn leaves_at(center: Point) -> int {
    center.x + 18 + 2
}

/// Where an edge enters its target, on the horizontal axis.
pub open spec fn enters_at(center: Point) -> int {
    center.x - 18 - 6
}

/// The larger of two numbers.
pub open spec fn max_of(a: int, b: int) -> int {
    if a < b {
        b
    } else {
        a
    }
}

/// The smaller of two numbers.
pub open spec fn min_of(a: int, b: int) -> int {
    if b < a {
        b
    } else {
        a
    }
}

/// How far the control points lie from the ends.
pub open spec fn control_reach(source_x: int, target_x: int) -> int {
    max_of(max_of(target_x - source_x, 24) * 45 / 100, 24)
}

/// The curve between two node centers, with the offsets of its ports.
pub open spec fn curve(source: Point, source_offset: int, target: Point, target_offset: int) -> GraphBezierRoute {
    let source_x = leaves_at(source);
    let target_x = enters_at(target);
    let source_y = (source.y + source_offset) as i32;
    let target_y = (target.y + target_offset) as i32;
    let reach = control_reach(source_x, target_x);
    GraphBezierRoute {
        source: Point { x: source_x as i32, y: source_y },
        control_1: Point { x: min_of(source_x + reach, target_x - 8) as i32, y: source_y },
        control_2: Point { x: max_of(target_x - reach, source_x + 8) as i32, y: target_y },
        target: Point { x: target_x as i32, y: target_y },
    }
}

/// Whether a number is an `i32`.
pub open spec fn is_i32(value: int) -> bool {
    i32::MIN <= value <= i32::MAX
}

/// Whether the coordinates of a curve stay within bounds.
pub open spec fn curve_fits(source: Point, source_offset: int, target: Point, target_offset: int) -> bool {
    let source_x = leaves_at(source);
    let target_x = enters_at(target);
    let reach = control_reach(source_x, target_x);
    &&& is_i32(source_x + 8)
    &&& is_i32(source.y + source_offset)
    &&& is_i32(target_x - 8)
    &&& is_i32(target.y + target_offset)
    &&& is_i32(target_x - source_x)
    &&& is_i32(max_of(target_x - source_x, 24) * 45)
    &&& is_i32(source_x + reach)
    &&& is_i32(target_x - reach)
}

impl Plan {
    /// Edges ordered by where their other ends lie: by rank, then by height, then by node,
    /// then by kind.
    pub open spec fn port_order(self, at_source: bool) -> spec_fn(usize, usize) -> bool {
        |a: usize, b: usize|
            {
                let left = self.drawing.model.edges[a as int];
                let right = self.drawing.model.edges[b as int];
                let x = edge_end(left, !at_source);
                let y = edge_end(right, !at_source);
                let r = self.drawing.rank(x);
                let s = self.drawing.rank(y);
                let h = self.point(x).y;
                let k = self.point(y).y;
                let i = kind_order(left.kind);
                let j = kind_order(right.kind);
                ||| r < s
                ||| (r == s && h < k)
                ||| (r == s && h == k && x < y)
                ||| (r == s && h == k && x == y && i < j)
                ||| (r == s && h == k && x == y && i == j && a <= b)
            }
    }

    /// The edges at one side of a node, in the order of their ports.
    pub open spec fn port_line(self, at_source: bool, node: usize) -> Seq<usize> {
        indices(self.drawing.model.edges.len()).filter(
            |k: usize| edge_end(self.drawing.model.edges[k as int], at_source) == node,
        ).sort_by(self.port_order(at_source))
    }

    /// The offset of the port of an edge on one side.
    pub open spec fn port(self, at_source: bool, edge: int) -> int {
        let line = self.port_line(
            at_source,
            edge_end(self.drawing.model.edges[edge], at_source),
        );
        port_spread(line.index_of(edge as usize), line.len() as int)
    }

    /// The curve of an edge.
    pub open spec fn route(self, edge: int) -> GraphBezierRoute {
        let ends = self.drawing.model.edges[edge];
        curve(
            self.point(ends.source),
            self.port(true, edge),
            self.point(ends.target),
            self.port(false, edge),
        )
    }

    /// Whether the ports of every node can be told apart within bounds, and every curve stays
    /// within bounds.
    pub open spec fn routes_fit(self) -> bool {
        &&& forall|at_source: bool, node: usize|
            node < self.size() ==> (#[trigger] self.port_line(at_source, node)).len() * 24 <= i32::MAX
        &&& forall|edge: int|
            #![trigger self.drawing.model.edges[edge]]
            0 <= edge < self.drawing.model.edges.len() ==> curve_fits(
                self.point(self.drawing.model.edges[edge].source),
                self.port(true, edge),
                self.point(self.drawing.model.edges[edge].target),
                self.port(false, edge),
            )
    }
}

/// The order of ports is total.
proof fn lemma_port_order(plan: Plan, at_source: bool)
    ensures
        total_ordering(plan.port_order(at_source)),
{
}

/// The order of ports, with ranks and points at hand.
struct PortOrder<'a> {
    edges: &'a Vec<EdgeIndex>,
    ranks: &'a Vec<usize>,
    points: &'a Vec<Point>,
    at_source: bool,
    plan: Ghost<Plan>,
}

fn kind_number(kind: GraphLayoutEdgeKind) -> (number: u8)
    ensures
        number as int == kind_order(kind),
{
    match kind {
        GraphLayoutEdgeKind::Primary => 0,
        GraphLayoutEdgeKind::Merge => 1,
        GraphLayoutEdgeKind::Shadow => 2,
    }
}

fn end_of(edge: &EdgeIndex, at_source: bool) -> (node: usize)
    ensures
        node == edge_end(*edge, at_source),
{
    if at_source {
        edge.source
    } else {
        edge.target
    }
}

impl<'a> Precedence for PortOrder<'a> {
    closed spec fn covers(&self, index: usize) -> bool {
        let plan = self.plan@;
        &&& self.edges@ == plan.drawing.model.edges
        &&& index < self.edges@.len()
        &&& self.edges@[index as int].source < self.ranks@.len()
        &&& self.edges@[index as int].target < self.ranks@.len()
        &&& self.ranks@.len() == self.points@.len()
        &&& self.ranks@ == plan.drawing.model.ranks()
        &&& forall|node: usize|
            node < self.points@.len() ==> #[trigger] self.points@[node as int] == plan.point(node)
    }

    closed spec fn leq(&self) -> spec_fn(usize, usize) -> bool {
        self.plan@.port_order(self.at_source)
    }

    fn precedes(&self, a: usize, b: usize) -> (before: bool) {
        let x: usize = end_of(&self.edges[a], !self.at_source);
        let y: usize = end_of(&self.edges[b], !self.at_source);
        let r: usize = self.ranks[x];
        let s: usize = self.ranks[y];
        let h: i32 = self.points[x].y;
        let k: i32 = self.points[y].y;
        let i: u8 = kind_number(self.edges[a].kind);
        let j: u8 = kind_number(self.edges[b].kind);
        r < s || (r == s && h < k) || (r == s && h == k && x < y) || (r == s && h == k && x == y && i
            < j) || (r == s && h == k && x == y && i == j && a <= b)
    }
}

/// The place of an edge among those at one side of a node, and how many those are.
#[derive(Debug, Clone, Copy, PartialEq, Eq, Structural)]
struct Port {
    index: usize,
    count: usize,
}

/// What a port line holds.
pub(crate) proof fn lemma_port_line(plan: Plan, at_source: bool, node: usize)
    requires
        plan.drawing.model.edges.len() <= usize::MAX,
    ensures
        plan.port_line(at_source, node).no_duplicates(),
        forall|k: usize| #[trigger]
            plan.port_line(at_source, node).contains(k) <==> k < plan.drawing.model.edges.len()
                && edge_end(plan.drawing.model.edges[k as int], at_source) == node,
{
    let all = indices(plan.drawing.model.edges.len());
    let keep = |k: usize| edge_end(plan.drawing.model.edges[k as int], at_source) == node;
    let some = all.filter(keep);
    let sorted = plan.port_line(at_source, node);
    crate::sorting::lemma_filter_increasing(all, |a: usize, b: usize| a < b, keep);
    lemma_port_order(plan, at_source);
    some.lemma_sort_by_ensures(plan.port_order(at_source));
    some.lemma_multiset_has_no_duplicates();
    sorted.lemma_multiset_has_no_duplicates_conv();
    assert forall|k: usize| #[trigger] sorted.contains(k) <==> k < plan.drawing.model.edges.len()
        && edge_end(plan.drawing.model.edges[k as int], at_source) == node by {
        vstd::seq_lib::to_multiset_contains(sorted, k);
        vstd::seq_lib::to_multiset_contains(some, k);
        lemma_filter_members(all, keep, k);
        if k < plan.drawing.model.edges.len() {
            assert(all[k as int] == k);
        }
    }
}

/// A port line is in the order of ports.
pub(crate) proof fn lemma_port_line_sorted(plan: Plan, at_source: bool, node: usize)
    ensures
        ({
            let line = plan.port_line(at_source, node);
            forall|i: int, j: int|
                0 <= i < j < line.len() ==> plan.port_order(at_source)(
                    #[trigger] line[i],
                    #[trigger] line[j],
                )
        }),
{
    let some = indices(plan.drawing.model.edges.len()).filter(
        |k: usize| edge_end(plan.drawing.model.edges[k as int], at_source) == node,
    );
    lemma_port_order(plan, at_source);
    some.lemma_sort_by_ensures(plan.port_order(at_source));
}

/// The ports of all edges on one side.
fn grouped_edge_ports(
    graph: &PreparedGraph,
    points: &Vec<Point>,
    at_source: bool,
    Ghost(plan): Ghost<Plan>,
) -> (ports: Vec<Port>)
    requires
        graph.matches(plan.drawing.model),
        points@.len() == plan.size(),
        forall|node: usize|
            node < plan.size() ==> #[trigger] points@[node as int] == plan.point(node),
    ensures
        ports@.len() == graph.edges@.len(),
        forall|k: int|
            #![trigger ports@[k]]
            0 <= k < ports@.len() ==> {
                let line = plan.port_line(at_source, edge_end(graph.edges@[k], at_source));
                &&& ports@[k].index as int == line.index_of(k as usize)
                &&& ports@[k].count == line.len()
                &&& ports@[k].index < ports@[k].count
            },
{
    let ghost model = plan.drawing.model;
    let ghost all = indices(model.edges.len());
    let size: usize = graph.ranks.len();
    let edge_count: usize = graph.edges.len();
    let mut groups: Vec<Vec<usize>> = Vec::new();
    let mut v: usize = 0;
    while v < size
        invariant
            0 <= v <= size,
            groups@.len() == v,
            forall|i: int| 0 <= i < v ==> (#[trigger] groups@[i])@ == Seq::<usize>::empty(),
        decreases size - v,
    {
        groups.push(Vec::new());
        v += 1;
    }
    proof {
        reveal(Seq::filter);
        assert(all.take(0) =~= Seq::<usize>::empty());
    }
    let mut ports: Vec<Port> = Vec::new();
    let mut k: usize = 0;
    while k < graph.edges.len()
        invariant
            graph.matches(model),
            model == plan.drawing.model,
            all == indices(model.edges.len()),
            size == model.size(),
            groups@.len() == size,
            0 <= k <= graph.edges.len(),
            ports@.len() == k,
            forall|i: int|
                0 <= i < size ==> (#[trigger] groups@[i])@ == all.take(k as int).filter(
                    |e: usize| edge_end(model.edges[e as int], at_source) == i as usize,
                ),
        decreases graph.edges.len() - k,
    {
        let ghost before = groups@;
        assert(model.edges[k as int].source < size && model.edges[k as int].target < size);
        let node: usize = end_of(&graph.edges[k], at_source);
        assert(all.take(k + 1) =~= all.take(k as int).push(k));
        groups[node].push(k);
        ports.push(Port { index: 0, count: 0 });
        proof {
            assert forall|i: int| 0 <= i < size implies (#[trigger] groups@[i])@ == all.take(k + 1).filter(
                |e: usize| edge_end(model.edges[e as int], at_source) == i as usize,
            ) by {
                let keep = |e: usize| edge_end(model.edges[e as int], at_source) == i as usize;
                crate::sequences::lemma_filter_push(all.take(k as int), keep, k);
                assert(before[i]@ == all.take(k as int).filter(keep));
            }
        }
        k += 1;
    }
    assert(all.take(k as int) =~= all);
    let order = PortOrder {
        edges: &graph.edges,
        ranks: &graph.ranks,
        points,
        at_source,
        plan: Ghost(plan),
    };
    let mut node: usize = 0;
    while node < size
        invariant
            graph.matches(model),
            model == plan.drawing.model,
            all == indices(model.edges.len()),
            size == model.size(),
            groups@.len() == size,
            ports@.len() == graph.edges@.len(),
            model.edges.len() == edge_count,
            points@.len() == size,
            forall|n: usize| n < plan.size() ==> #[trigger] points@[n as int] == plan.point(n),
            order.edges == &graph.edges,
            order.ranks == &graph.ranks,
            order.points == points,
            order.at_source == at_source,
            order.plan@ == plan,
            forall|i: int|
                0 <= i < size ==> (#[trigger] groups@[i])@ == all.filter(
                    |e: usize| edge_end(model.edges[e as int], at_source) == i as usize,
                ),
            0 <= node <= size,
            forall|e: int|
                #![trigger ports@[e]]
                0 <= e < ports@.len() && edge_end(model.edges[e], at_source) < node ==> {
                    let line = plan.port_line(at_source, edge_end(model.edges[e], at_source));
                    &&& ports@[e].index as int == line.index_of(e as usize)
                    &&& ports@[e].count == line.len()
                    &&& ports@[e].index < ports@[e].count
                },
        decreases size - node,
    {
        proof {
            lemma_port_order(plan, at_source);
            let keep = |e: usize| edge_end(model.edges[e as int], at_source) == node;
            assert forall|e: usize| #[trigger] groups@[node as int]@.contains(e) implies order.covers(e) by {
                lemma_filter_members(all, keep, e);
                assert(all[all.index_of(e)] == e);
                assert(model.edges[e as int].source < size && model.edges[e as int].target < size);
            }
            lemma_port_line(plan, at_source, node);
        }
        let line = sort_indices(&groups[node], &order);
        let ghost list = plan.port_line(at_source, node);
        assert(line@ == list);
        let count: usize = line.len();
        let ghost earlier = ports@;
        let mut i: usize = 0;
        while i < line.len()
            invariant
                line@ == list,
                list == plan.port_line(at_source, node),
                list.no_duplicates(),
                model == plan.drawing.model,
                ports@.len() == model.edges.len(),
                earlier.len() == model.edges.len(),
                forall|e: usize| #[trigger]
                    list.contains(e) <==> e < model.edges.len() && edge_end(
                        model.edges[e as int],
                        at_source,
                    ) == node,
                count == list.len(),
                0 <= i <= list.len(),
                forall|e: int|
                    #![trigger ports@[e]]
                    0 <= e < ports@.len() && edge_end(model.edges[e], at_source) != node ==> ports@[e]
                        == earlier[e],
                forall|j: int|
                    0 <= j < i ==> ports@[(#[trigger] list[j]) as int] == (Port {
                        index: j as usize,
                        count,
                    }),
            decreases list.len() - i,
        {
            let edge: usize = line[i];
            assert(list.contains(edge));
            ports.set(edge, Port { index: i, count });
            proof {
                assert forall|j: int| 0 <= j < i + 1 implies ports@[(#[trigger] list[j]) as int] == (Port {
                    index: j as usize,
                    count,
                }) by {
                    assert(list.contains(list[j]));
                    if j < i {
                        assert(list[j] != list[i as int]);
                    }
                }
            }
            i += 1;
        }
        proof {
            assert forall|e: int|
                #![trigger ports@[e]]
                0 <= e < ports@.len() && edge_end(model.edges[e], at_source) < node + 1 implies {
                let its = plan.port_line(at_source, edge_end(model.edges[e], at_source));
                &&& ports@[e].index as int == its.index_of(e as usize)
                &&& ports@[e].count == its.len()
                &&& ports@[e].index < ports@[e].count
            } by {
                if edge_end(model.edges[e], at_source) == node {
                    assert(list.contains(e as usize));
                    let j = list.index_of(e as usize);
                    assert(ports@[list[j] as int].index == j);
                } else {
                    assert(earlier[e] == ports@[e]);
                }
            }
        }
        node += 1;
    }
    proof {
        assert forall|e: int|
            #![trigger ports@[e]]
            0 <= e < ports@.len() implies {
            let line = plan.port_line(at_source, edge_end(graph.edges@[e], at_source));
            &&& ports@[e].index as int == line.index_of(e as usize)
            &&& ports@[e].count == line.len()
            &&& ports@[e].index < ports@[e].count
        } by {
            assert(model.edges[e].source < size && model.edges[e].target < size);
        }
    }
    ports
}

fn port_offset(port: Port) -> (offset: i32)
    requires
        port.index < port.count,
        port.count * 24 <= i32::MAX,
    ensures
        offset as int == port_spread(port.index as int, port.count as int),
        -12 <= offset <= 12,
{
    if port.count <= 1 {
        return 0;
    }
    let numerator: i32 = port.index as i32 * EDGE_PORT_RANGE * 2;
    let divisor: i32 = port.count as i32 - 1;
    assert(0 <= numerator as int / divisor as int <= 24) by (nonlinear_arith)
        requires
            0 <= numerator as int <= 24 * divisor as int,
            divisor > 0,
    ;
    -EDGE_PORT_RANGE + numerator / divisor
}

/// The curve between two placed nodes.
fn route_between(source_center: Point, source_offset: i32, target_center: Point, target_offset: i32) -> (route:
    GraphBezierRoute)
    requires
        curve_fits(source_center, source_offset as int, target_center, target_offset as int),
    ensures
        route == curve(source_center, source_offset as int, target_center, target_offset as int),
{
    let source = Point {
        x: source_center.x + NODE_RADIUS + EDGE_SOURCE_PADDING,
        y: source_center.y + source_offset,
    };
    let target = Point {
        x: target_center.x - NODE_RADIUS - EDGE_TARGET_PADDING,
        y: target_center.y + target_offset,
    };
    let distance: i32 = target.x - source.x;
    let horizontal: i32 = if distance < EDGE_MIN_CONTROL_DISTANCE {
        EDGE_MIN_CONTROL_DISTANCE
    } else {
        distance
    };
    let scaled: i32 = horizontal * EDGE_CONTROL_RATIO_PERCENT / 100;
    let reach: i32 = if scaled < EDGE_MIN_CONTROL_DISTANCE {
        EDGE_MIN_CONTROL_DISTANCE
    } else {
        scaled
    };
    let first: i32 = source.x + reach;
    let first_limit: i32 = target.x - 8;
    let second: i32 = target.x - reach;
    let second_limit: i32 = source.x + 8;
    GraphBezierRoute {
        source,
        control_1: Point {
            x: if first_limit < first {
                first_limit
            } else {
                first
            },
            y: source.y,
        },
        control_2: Point {
            x: if second < second_limit {
                second_limit
            } else {
                second
            },
            y: target.y,
        },
        target,
    }
}

/// Routes all edges between placed nodes.
pub(crate) fn route_edges(
    graph: &PreparedGraph,
    points: &Vec<Point>,
    Ghost(plan): Ghost<Plan>,
) -> (routes: Vec<GraphBezierRoute>)
    requires
        graph.matches(plan.drawing.model),
        points@.len() == plan.size(),
        forall|node: usize|
            node < plan.size() ==> #[trigger] points@[node as int] == plan.point(node),
        plan.routes_fit(),
    ensures
        routes@.len() == graph.edges@.len(),
        forall|k: int| 0 <= k < routes@.len() ==> #[trigger] routes@[k] == plan.route(k),
{
    let outgoing = grouped_edge_ports(graph, points, true, Ghost(plan));
    let incoming = grouped_edge_ports(graph, points, false, Ghost(plan));
    let mut routes: Vec<GraphBezierRoute> = Vec::new();
    let mut k: usize = 0;
    while k < graph.edges.len()
        invariant
            graph.matches(plan.drawing.model),
            points@.len() == plan.size(),
            forall|node: usize|
                node < plan.size() ==> #[trigger] points@[node as int] == plan.point(node),
            plan.routes_fit(),
            outgoing@.len() == graph.edges@.len(),
            incoming@.len() == graph.edges@.len(),
            forall|e: int|
                #![trigger outgoing@[e]]
                0 <= e < outgoing@.len() ==> {
                    let line = plan.port_line(true, edge_end(graph.edges@[e], true));
                    &&& outgoing@[e].index as int == line.index_of(e as usize)
                    &&& outgoing@[e].count == line.len()
                    &&& outgoing@[e].index < outgoing@[e].count
                },
            forall|e: int|
                #![trigger incoming@[e]]
                0 <= e < incoming@.len() ==> {
                    let line = plan.port_line(false, edge_end(graph.edges@[e], false));
                    &&& incoming@[e].index as int == line.index_of(e as usize)
                    &&& incoming@[e].count == line.len()
                    &&& incoming@[e].index < incoming@[e].count
                },
            0 <= k <= graph.edges.len(),
            routes@.len() == k,
            forall|e: int| 0 <= e < k ==> #[trigger] routes@[e] == plan.route(e),
        decreases graph.edges.len() - k,
    {
        let edge = graph.edges[k];
        proof {
            let ends = plan.drawing.model.edges[k as int];
            assert(ends.source < plan.size() && ends.target < plan.size());
            assert(plan.port_line(true, ends.source).len() * 24 <= i32::MAX);
            assert(plan.port_line(false, ends.target).len() * 24 <= i32::MAX);
            assert(outgoing@[k as int].index < outgoing@[k as int].count);
            assert(incoming@[k as int].index < incoming@[k as int].count);
        }
        let source_offset: i32 = port_offset(outgoing[k]);
        let target_offset: i32 = port_offset(incoming[k]);
        let route = route_between(
            points[edge.source],
            source_offset,
            points[edge.target],
            target_offset,
        );
        assert(route == plan.route(k as int));
        routes.push(route);
        k += 1;
    }
    routes
}

} // verus!
