//! Placing a projected node, and routing its edges.

use vstd::prelude::*;
use vstd::string::*;
use crate::api::GraphBezierRoute;
use crate::api::Point;
use crate::arithmetic::saturate_i32;
use crate::arithmetic::saturating_product;
use crate::arithmetic::saturating_sum;
use crate::graph::mode_text;
use crate::graph::GraphMode;
use crate::graph::GraphNode;
use crate::incremental_build::invalid;
use crate::incremental_build::project::ProjectionEdge;
use crate::incremental_build::InvalidStoreValue;
use crate::incremental_build::InvalidStoreValueView;
use crate::incremental_layout::route_between;
use crate::incremental_layout::route_edge;
use crate::incremental_layout::CubicRoute;
use crate::incremental_layout::EndpointPortSlots;
use crate::incremental_layout::LayoutPoint;
use crate::incremental_layout::StableEdgeKind;
use crate::incremental_layout::StableLayoutConfig;
use crate::layout::node_at;
use crate::layout::GraphLayoutEdge;
use crate::layout::GraphLayoutEdgeKind;
use crate::layout::GraphLayoutEdgeView;
use crate::layout::GraphLayoutNode;
use crate::numbers::lemma_signed_round_trip;
use crate::text::copy_strings;
use crate::text::decimal_text;
use crate::text::signed_decimal;
use crate::text::signed_decimal_i64;
use crate::text::signed_text;
use crate::text::text_equal;

verus! {

/// The place of a node in the layout.
#[derive(Debug, Clone, Copy, PartialEq, Eq, Structural)]
pub struct Slot {
    pub rank: i32,
    pub row: i32,
    pub x: i32,
    pub y: i32,
}

/// The position of an index along one axis. A negative index counts as zero.
pub open spec fn axis_position(padding: i32, index: i32, step: i32) -> i32 {
    let bounded = if index < 0 {
        0
    } else {
        index as int
    };
    saturate_i32(padding + saturate_i32(bounded * step))
}

/// The position of an index along one axis.
pub fn layout_coordinate(padding: i32, index: i32, step: i32) -> (position: i32)
    ensures
        position == axis_position(padding, index, step),
{
    let bounded: i32 = if index < 0 {
        0
    } else {
        index
    };
    saturating_sum(padding, saturating_product(bounded, step))
}

/// The number behind the last of some, where nothing counts as -1, as far as an `i32` reaches.
pub open spec fn behind_last(staged: Option<i32>, baseline: Option<i32>) -> i32 {
    let a = match staged {
        Some(value) => value as int,
        None => -1,
    };
    let b = match baseline {
        Some(value) => value as int,
        None => -1,
    };
    let next = if a < b {
        b + 1
    } else {
        a + 1
    };
    if next < 0 {
        0
    } else {
        saturate_i32(next)
    }
}

/// The number behind the last that the build and its baseline have taken.
pub fn next_free(staged_last: Option<i32>, baseline_last: Option<i32>) -> (next: i32)
    ensures
        next == behind_last(staged_last, baseline_last),
        next >= 0,
        staged_last matches Some(last) ==> last < i32::MAX ==> next > last,
        baseline_last matches Some(last) ==> last < i32::MAX ==> next > last,
{
    let staged: i32 = match staged_last {
        Some(value) => value,
        None => -1,
    };
    let baseline: i32 = match baseline_last {
        Some(value) => value,
        None => -1,
    };
    let last: i32 = if staged < baseline {
        baseline
    } else {
        staged
    };
    let next: i32 = saturating_sum(last, 1);
    if next < 0 {
        0
    } else {
        next
    }
}

/// Whether a number is the last of some, where there are any.
pub open spec fn is_last(taken: Set<i32>, last: Option<i32>) -> bool {
    match last {
        Some(last) => taken.contains(last) && last < i32::MAX && forall|number: i32| #[trigger]
            taken.contains(number) ==> number <= last,
        None => taken.is_empty(),
    }
}

/// A new number is taken neither by the build nor by its baseline: no two nodes of a rank share a
/// row, and no two edges of a node share a port.
pub proof fn lemma_next_free_is_free(
    staged: Set<i32>,
    baseline: Set<i32>,
    staged_last: Option<i32>,
    baseline_last: Option<i32>,
)
    requires
        is_last(staged, staged_last),
        is_last(baseline, baseline_last),
    ensures
        !staged.contains(behind_last(staged_last, baseline_last)),
        !baseline.contains(behind_last(staged_last, baseline_last)),
{
}

/// What placing a node at a rank does.
#[derive(Debug, Clone, PartialEq, Eq)]
pub enum Placement {
    /// The node keeps its place, which is active again.
    Keep { slot: Slot },
    /// The node leaves its place, where it has one, and takes a new one.
    Place { tombstone: Option<String>, rank: i32 },
}

/// The name under which a place that was left stays taken.
pub open spec fn tombstone_text(
    run_id: i64,
    mode: GraphMode,
    rank: i32,
    row: i32,
    node_id: Seq<char>,
) -> Seq<char> {
    "tombstone:"@ + signed_text(run_id as int) + ":"@ + mode_text(mode) + ":"@ + signed_text(
        rank as int,
    ) + ":"@ + signed_text(row as int) + ":"@ + node_id
}

/// Names a place that a node leaves.
pub fn retire_slot(run_id: i64, mode: GraphMode, node_id: &str, slot: Slot) -> (tombstone: String)
    ensures
        tombstone@ == tombstone_text(run_id, mode, slot.rank, slot.row, node_id@),
{
    "tombstone:".to_owned().concat(signed_decimal_i64(run_id).as_str()).concat(":").concat(
        mode.as_query_value(),
    ).concat(":").concat(signed_decimal(slot.rank).as_str()).concat(":").concat(
        signed_decimal(slot.row).as_str(),
    ).concat(":").concat(node_id)
}

/// Decides how a node is placed at a rank. A node that is at that rank or behind it stays.
pub fn place_node_at_rank(
    run_id: i64,
    mode: GraphMode,
    node_id: &str,
    existing: Option<Slot>,
    required_rank: i32,
) -> (placement: Placement)
    ensures
        match placement {
            Placement::Keep { slot } => existing == Some(slot) && slot.rank >= required_rank,
            Placement::Place { tombstone, rank } => {
                &&& rank == required_rank
                &&& match existing {
                    Some(slot) => {
                        &&& slot.rank < required_rank
                        &&& tombstone is Some
                        &&& tombstone->0@ == tombstone_text(
                            run_id,
                            mode,
                            slot.rank,
                            slot.row,
                            node_id@,
                        )
                    },
                    None => tombstone is None,
                }
            },
        },
{
    match existing {
        Some(slot) => if slot.rank >= required_rank {
            Placement::Keep { slot }
        } else {
            Placement::Place {
                tombstone: Some(retire_slot(run_id, mode, node_id, slot)),
                rank: required_rank,
            }
        },
        None => Placement::Place { tombstone: None, rank: required_rank },
    }
}

/// The slot at a rank and a row.
pub open spec fn slot_at(config: StableLayoutConfig, rank: i32, row: i32) -> Slot {
    Slot {
        rank,
        row,
        x: axis_position(config.padding, rank, config.rank_step),
        y: axis_position(config.padding, row, config.row_step),
    }
}

/// The slot at a rank and a row.
pub fn new_slot(config: StableLayoutConfig, rank: i32, row: i32) -> (slot: Slot)
    ensures
        slot == slot_at(config, rank, row),
{
    Slot {
        rank,
        row,
        x: layout_coordinate(config.padding, rank, config.rank_step),
        y: layout_coordinate(config.padding, row, config.row_step),
    }
}

proof fn lemma_first_colon(a: Seq<char>, x: Seq<char>, b: Seq<char>, y: Seq<char>)
    requires
        !a.contains(':'),
        !b.contains(':'),
        a + seq![':'] + x == b + seq![':'] + y,
    ensures
        a == b,
        x == y,
{
    let left = a + seq![':'] + x;
    let right = b + seq![':'] + y;
    if a.len() < b.len() {
        assert(left[a.len() as int] == ':');
        assert(right[a.len() as int] == b[a.len() as int]);
        assert(b.contains(':'));
    }
    if b.len() < a.len() {
        assert(right[b.len() as int] == ':');
        assert(left[b.len() as int] == a[b.len() as int]);
        assert(a.contains(':'));
    }
    assert(a =~= left.take(a.len() as int));
    assert(b =~= right.take(b.len() as int));
    assert(x =~= left.skip(a.len() as int + 1));
    assert(y =~= right.skip(b.len() as int + 1));
}

proof fn lemma_number_has_no_colon(value: int)
    ensures
        !signed_text(value).contains(':'),
{
    let size = (if value < 0 {
        -value
    } else {
        value
    }) as nat;
    lemma_digits_have_no_colon(size);
    let digits = decimal_text(size);
    let text = signed_text(value);
    if value < 0 {
        assert forall|i: int| 0 <= i < text.len() implies text[i] != ':' by {
            if i > 0 {
                assert(text[i] == digits[i - 1]);
            }
        }
    }
}

proof fn lemma_digits_have_no_colon(value: nat)
    ensures
        !decimal_text(value).contains(':'),
    decreases value,
{
    let text = decimal_text(value);
    assert(crate::text::digit_char(value % 10) != ':') by {
        let byte = (48 + value % 10) as u8;
        assert(byte as char as int == byte as int);
    }
    if value >= 10 {
        lemma_digits_have_no_colon(value / 10);
        let rest = decimal_text(value / 10);
        assert forall|i: int| 0 <= i < text.len() implies text[i] != ':' by {
            if i < rest.len() {
                assert(text[i] == rest[i]);
            }
        }
    }
}

/// In a run and a mode, different places that were left, or left by different nodes, have
/// different names.
pub proof fn lemma_tombstones_differ(
    run_id: i64,
    mode: GraphMode,
    rank: i32,
    row: i32,
    node_id: Seq<char>,
    other_rank: i32,
    other_row: i32,
    other_id: Seq<char>,
)
    requires
        tombstone_text(run_id, mode, rank, row, node_id) == tombstone_text(
            run_id,
            mode,
            other_rank,
            other_row,
            other_id,
        ),
    ensures
        rank == other_rank,
        row == other_row,
        node_id == other_id,
{
    reveal_strlit(":");
    assert(":"@ =~= seq![':']);
    let start = "tombstone:"@ + signed_text(run_id as int) + ":"@ + mode_text(mode) + ":"@;
    let r = signed_text(rank as int);
    let w = signed_text(row as int);
    let other_r = signed_text(other_rank as int);
    let other_w = signed_text(other_row as int);
    let text = tombstone_text(run_id, mode, rank, row, node_id);
    let other = tombstone_text(run_id, mode, other_rank, other_row, other_id);
    let rest = r + seq![':'] + (w + seq![':'] + node_id);
    let other_rest = other_r + seq![':'] + (other_w + seq![':'] + other_id);
    assert(text =~= start + rest);
    assert(other =~= start + other_rest);
    assert(rest =~= text.skip(start.len() as int));
    assert(other_rest =~= other.skip(start.len() as int));
    lemma_number_has_no_colon(rank as int);
    lemma_number_has_no_colon(row as int);
    lemma_number_has_no_colon(other_rank as int);
    lemma_number_has_no_colon(other_row as int);
    lemma_first_colon(r, w + seq![':'] + node_id, other_r, other_w + seq![':'] + other_id);
    lemma_first_colon(w, node_id, other_w, other_id);
    lemma_signed_round_trip(rank as int);
    lemma_signed_round_trip(other_rank as int);
    lemma_signed_round_trip(row as int);
    lemma_signed_round_trip(other_row as int);
}

/// The ports of an edge at its two nodes.
#[derive(Debug, Clone, Copy, PartialEq, Eq, Structural)]
pub struct EdgePorts {
    pub source_slot: i32,
    pub target_slot: i32,
}

/// What assigning the ports of an edge does.
#[derive(Debug, Clone, Copy, PartialEq, Eq, Structural)]
pub enum PortStep {
    /// The edge keeps its ports, which are active again.
    Keep { ports: EdgePorts },
    /// The edge takes new ports.
    Assign { ports: EdgePorts },
}

/// The last ports that are taken at a node, by the build and by its baseline.
#[derive(Debug, Clone, Copy, PartialEq, Eq, Structural)]
pub struct LastPorts {
    pub staged: Option<i32>,
    pub baseline: Option<i32>,
}

/// Decides on the ports of an edge.
pub fn assign_ports(existing: Option<EdgePorts>, source: LastPorts, target: LastPorts) -> (step:
    PortStep)
    ensures
        step == (match existing {
            Some(ports) => PortStep::Keep { ports },
            None => PortStep::Assign {
                ports: EdgePorts {
                    source_slot: behind_last(source.staged, source.baseline),
                    target_slot: behind_last(target.staged, target.baseline),
                },
            },
        }),
{
    match existing {
        Some(ports) => PortStep::Keep { ports },
        None => PortStep::Assign {
            ports: EdgePorts {
                source_slot: next_free(source.staged, source.baseline),
                target_slot: next_free(target.staged, target.baseline),
            },
        },
    }
}

/// The `usize` nearest to a number.
pub open spec fn not_negative(value: i32) -> usize {
    if value < 0 {
        0
    } else {
        value as usize
    }
}

fn clip(value: i32) -> (clipped: usize)
    ensures
        clipped == not_negative(value),
{
    if value < 0 {
        0
    } else {
        value as usize
    }
}

/// The laid out form of a node at its slot.
pub fn buffer_projection_node(node: &GraphNode, slot: Slot) -> (placed: GraphLayoutNode)
    ensures
        placed@ == node_at(
            *node,
            not_negative(slot.rank),
            not_negative(slot.row),
            Point { x: slot.x, y: slot.y },
        ),
        placed.node_id@ == node.id@,
        placed.node_target@ == node.node_target@,
        placed.short_id@ == node.short_id@,
        placed.kind@ == node.kind@,
        placed.summary@ == node.summary@,
        placed.created_at@ == node.created_at@,
        placed.created_at_ns == node.created_at_ns,
        placed.point.x == slot.x,
        placed.point.y == slot.y,
        slot.rank >= 0 ==> placed.rank == slot.rank,
        slot.row >= 0 ==> placed.order == slot.row,
        slot.rank < 0 ==> placed.rank == 0,
        slot.row < 0 ==> placed.order == 0,
{
    GraphLayoutNode {
        node_id: node.id.clone(),
        node_target: node.node_target.clone(),
        short_id: node.short_id.clone(),
        kind: node.kind.clone(),
        summary: node.summary.clone(),
        labels: copy_strings(&node.labels),
        created_at: node.created_at.clone(),
        created_at_ns: node.created_at_ns,
        rank: clip(slot.rank),
        order: clip(slot.row),
        point: Point { x: slot.x, y: slot.y },
    }
}

/// The stored text of the kind of an edge.
pub open spec fn edge_kind_text(kind: StableEdgeKind) -> Seq<char> {
    match kind {
        StableEdgeKind::Primary => "primary"@,
        StableEdgeKind::Merge => "merge"@,
        StableEdgeKind::Shadow => "shadow"@,
    }
}

/// Different kinds of edges have different texts.
pub proof fn lemma_edge_kind_texts_differ(a: StableEdgeKind, b: StableEdgeKind)
    requires
        edge_kind_text(a) == edge_kind_text(b),
    ensures
        a == b,
{
    reveal_strlit("primary");
    reveal_strlit("merge");
    reveal_strlit("shadow");
    assert("primary"@.len() == 7);
    assert("merge"@.len() == 5);
    assert("shadow"@.len() == 6);
}

/// Reads the stored kind of an edge.
pub fn stored_edge_kind(value: &str) -> (outcome: Result<StableEdgeKind, InvalidStoreValue>)
    ensures
        match outcome {
            Ok(kind) => value@ == edge_kind_text(kind),
            Err(error) => {
                &&& forall|kind: StableEdgeKind| value@ != #[trigger] edge_kind_text(kind)
                &&& error@ == (InvalidStoreValueView { column: "edge_kind"@, value: value@ })
            },
        },
{
    if text_equal(value, "primary") {
        Ok(StableEdgeKind::Primary)
    } else if text_equal(value, "merge") {
        Ok(StableEdgeKind::Merge)
    } else if text_equal(value, "shadow") {
        Ok(StableEdgeKind::Shadow)
    } else {
        Err(invalid("edge_kind", value))
    }
}

/// The kind of an edge in a layout.
pub open spec fn layout_edge_kind(kind: StableEdgeKind) -> GraphLayoutEdgeKind {
    match kind {
        StableEdgeKind::Primary => GraphLayoutEdgeKind::Primary,
        StableEdgeKind::Merge => GraphLayoutEdgeKind::Merge,
        StableEdgeKind::Shadow => GraphLayoutEdgeKind::Shadow,
    }
}

/// The kind of an edge in a layout.
pub fn graph_layout_edge_kind(kind: StableEdgeKind) -> (layout_kind: GraphLayoutEdgeKind)
    ensures
        layout_kind == layout_edge_kind(kind),
{
    match kind {
        StableEdgeKind::Primary => GraphLayoutEdgeKind::Primary,
        StableEdgeKind::Merge => GraphLayoutEdgeKind::Merge,
        StableEdgeKind::Shadow => GraphLayoutEdgeKind::Shadow,
    }
}

/// A route with the points of the console.
pub open spec fn bezier_route(route: CubicRoute) -> GraphBezierRoute {
    GraphBezierRoute {
        source: Point { x: route.source.x, y: route.source.y },
        control_1: Point { x: route.control_1.x, y: route.control_1.y },
        control_2: Point { x: route.control_2.x, y: route.control_2.y },
        target: Point { x: route.target.x, y: route.target.y },
    }
}

/// The two ends of an edge: both have to be placed.
pub fn edge_ends(
    edge: &ProjectionEdge,
    target_id: &str,
    source: Option<Slot>,
    target: Option<Slot>,
) -> (outcome: Result<(Slot, Slot, StableEdgeKind), InvalidStoreValue>)
    ensures
        match outcome {
            Ok((source_slot, target_slot, kind)) => {
                &&& source == Some(source_slot)
                &&& target == Some(target_slot)
                &&& edge.edge_kind@ == edge_kind_text(kind)
            },
            Err(error) => if target is None {
                error@ == (InvalidStoreValueView { column: "edge_target"@, value: target_id@ })
            } else if source is None {
                error@ == (InvalidStoreValueView {
                    column: "edge_source"@,
                    value: edge.source_id@,
                })
            } else {
                &&& forall|kind: StableEdgeKind| edge.edge_kind@ != #[trigger] edge_kind_text(kind)
                &&& error@ == (InvalidStoreValueView {
                    column: "edge_kind"@,
                    value: edge.edge_kind@,
                })
            },
        },
{
    match (source, target) {
        (_, None) => Err(invalid("edge_target", target_id)),
        (None, Some(_)) => Err(invalid("edge_source", edge.source_id.as_str())),
        (Some(source_slot), Some(target_slot)) => {
            match stored_edge_kind(edge.edge_kind.as_str()) {
                Ok(kind) => Ok((source_slot, target_slot, kind)),
                Err(error) => Err(error),
            }
        },
    }
}

/// The laid out form of an edge between two slots.
pub open spec fn buffered_edge(
    source_id: Seq<char>,
    target_id: Seq<char>,
    kind: StableEdgeKind,
    source: Slot,
    target: Slot,
    ports: EdgePorts,
    config: StableLayoutConfig,
) -> GraphLayoutEdgeView {
    GraphLayoutEdgeView {
        source_node_id: source_id,
        target_node_id: target_id,
        kind: layout_edge_kind(kind),
        route: bezier_route(
            route_between(
                LayoutPoint { x: source.x, y: source.y },
                LayoutPoint { x: target.x, y: target.y },
                EndpointPortSlots {
                    source: not_negative(ports.source_slot),
                    target: not_negative(ports.target_slot),
                },
                config,
            ),
        ),
    }
}

/// The laid out form of an edge between two slots.
pub fn buffer_projection_edge(
    source_id: &str,
    target_id: &str,
    kind: StableEdgeKind,
    source: Slot,
    target: Slot,
    ports: EdgePorts,
    config: StableLayoutConfig,
) -> (edge: GraphLayoutEdge)
    ensures
        edge@ == buffered_edge(source_id@, target_id@, kind, source, target, ports, config),
        edge.source_node_id@ == source_id@,
        edge.target_node_id@ == target_id@,
{
    proof {
        lemma_projected_edge(source_id@, target_id@, kind, source, target, ports, config);
    }
    let route = route_edge(
        LayoutPoint { x: source.x, y: source.y },
        LayoutPoint { x: target.x, y: target.y },
        EndpointPortSlots { source: clip(ports.source_slot), target: clip(ports.target_slot) },
        config,
    );
    GraphLayoutEdge {
        source_node_id: source_id.to_owned(),
        target_node_id: target_id.to_owned(),
        kind: graph_layout_edge_kind(kind),
        route: GraphBezierRoute {
            source: Point { x: route.source.x, y: route.source.y },
            control_1: Point { x: route.control_1.x, y: route.control_1.y },
            control_2: Point { x: route.control_2.x, y: route.control_2.y },
            target: Point { x: route.target.x, y: route.target.y },
        },
    }
}

/// The edge that a build lays out between a parent and a projected node names the parent as its
/// source and the node as its target, and is of the kind that was stored. Its route starts right
/// of the slot of the parent and ends left of the slot of the node, within the port range of the
/// height of either, and each control point is level with the end that it belongs to.
pub proof fn lemma_projected_edge(
    parent_id: Seq<char>,
    node_id: Seq<char>,
    kind: StableEdgeKind,
    parent: Slot,
    node: Slot,
    ports: EdgePorts,
    config: StableLayoutConfig,
)
    ensures
        ({
            let edge = buffered_edge(parent_id, node_id, kind, parent, node, ports, config);
            let range = if config.edge_port_range < 0 {
                0
            } else {
                config.edge_port_range as int
            };
            let outward = config.node_radius + config.edge_source_padding;
            let inward = config.node_radius + config.edge_target_padding;
            &&& edge.source_node_id == parent_id
            &&& edge.target_node_id == node_id
            &&& edge.kind is Primary <==> kind is Primary
            &&& edge.kind is Merge <==> kind is Merge
            &&& edge.kind is Shadow <==> kind is Shadow
            &&& parent.y - range <= edge.route.source.y <= parent.y + range
            &&& node.y - range <= edge.route.target.y <= node.y + range
            &&& edge.route.control_1.y == edge.route.source.y
            &&& edge.route.control_2.y == edge.route.target.y
            &&& i32::MIN <= parent.x + config.node_radius <= i32::MAX && i32::MIN <= parent.x + outward
                <= i32::MAX ==> edge.route.source.x == parent.x + outward
            &&& i32::MIN <= node.x - config.node_radius <= i32::MAX && i32::MIN <= node.x - inward
                <= i32::MAX ==> edge.route.target.x == node.x - inward
            &&& edge.route.control_1.x < edge.route.target.x || edge.route.target.x < i32::MIN + 8
            &&& edge.route.control_2.x > edge.route.source.x || edge.route.source.x > i32::MAX - 8
        }),
{
    crate::incremental_layout::lemma_route_levels(
        LayoutPoint { x: parent.x, y: parent.y },
        LayoutPoint { x: node.x, y: node.y },
        EndpointPortSlots {
            source: not_negative(ports.source_slot),
            target: not_negative(ports.target_slot),
        },
        config,
    );
}

/// Two edges between one pair of slots differ only where their ports do: the port at the source
/// moves only the start, and the port at the target only the end.
pub proof fn lemma_ports_move_their_own_end(
    parent_id: Seq<char>,
    node_id: Seq<char>,
    kind: StableEdgeKind,
    parent: Slot,
    node: Slot,
    a: EdgePorts,
    b: EdgePorts,
    config: StableLayoutConfig,
)
    ensures
        ({
            let x = buffered_edge(parent_id, node_id, kind, parent, node, a, config).route;
            let y = buffered_edge(parent_id, node_id, kind, parent, node, b, config).route;
            &&& a.source_slot == b.source_slot ==> x.source == y.source && x.control_1 == y.control_1
            &&& a.target_slot == b.target_slot ==> x.target == y.target && x.control_2 == y.control_2
        }),
{
}

/// A slot lies a number of steps behind the padding on either axis: its rank counts the steps to
/// the right, its row those downward.
pub proof fn lemma_slot_is_on_the_grid(config: StableLayoutConfig, rank: i32, row: i32)
    requires
        rank >= 0,
        row >= 0,
        i32::MIN <= rank * config.rank_step <= i32::MAX,
        i32::MIN <= row * config.row_step <= i32::MAX,
        i32::MIN <= config.padding + rank * config.rank_step <= i32::MAX,
        i32::MIN <= config.padding + row * config.row_step <= i32::MAX,
    ensures
        slot_at(config, rank, row).rank == rank,
        slot_at(config, rank, row).row == row,
        slot_at(config, rank, row).x == config.padding + rank * config.rank_step,
        slot_at(config, rank, row).y == config.padding + row * config.row_step,
{
}

/// A build and the stable layout put a node at one point for one rank and row.
pub proof fn lemma_slot_agrees_with_stable_layout(config: StableLayoutConfig, rank: i32, row: i32)
    requires
        rank >= 0,
        row >= 0,
    ensures
        slot_at(config, rank, row).x == crate::incremental_layout::slot_point(
            config,
            rank as usize,
            row as usize,
        ).x,
        slot_at(config, rank, row).y == crate::incremental_layout::slot_point(
            config,
            rank as usize,
            row as usize,
        ).y,
{
}

/// A new number is the least that comes behind all those taken: it is zero, or the number before
/// it is the last one taken by the build or by its baseline.
pub proof fn lemma_next_free_is_least(staged_last: Option<i32>, baseline_last: Option<i32>)
    requires
        staged_last matches Some(last) ==> 0 <= last < i32::MAX,
        baseline_last matches Some(last) ==> 0 <= last < i32::MAX,
    ensures
        ({
            let next = behind_last(staged_last, baseline_last);
            &&& staged_last matches Some(last) ==> last < next
            &&& baseline_last matches Some(last) ==> last < next
            &&& next == 0 || staged_last == Some((next - 1) as i32) || baseline_last == Some(
                (next - 1) as i32,
            )
        }),
{
}

/// An index below zero counts as zero: such a slot lies at the padding.
pub proof fn lemma_slot_before_the_grid(config: StableLayoutConfig, rank: i32, row: i32)
    ensures
        rank <= 0 ==> slot_at(config, rank, row).x == config.padding,
        row <= 0 ==> slot_at(config, rank, row).y == config.padding,
{
    let across = config.rank_step as int;
    let down = config.row_step as int;
    assert(0 * across == 0 && 0 * down == 0) by (nonlinear_arith);
}

} // verus!
