//! What every step of a stable layout keeps to: where nodes are placed, which ports edges take
//! and how their curves run.

use vstd::prelude::*;
use crate::api::Point;
use crate::incremental_layout::assigning_ports;
use crate::incremental_layout::default_config;
use crate::incremental_layout::distance_between;
use crate::incremental_layout::error_message;
use crate::incremental_layout::first_free;
use crate::incremental_layout::holds_source;
use crate::incremental_layout::holds_target;
use crate::incremental_layout::is_first_free;
use crate::incremental_layout::is_nearest_free;
use crate::incremental_layout::is_required_rank;
use crate::incremental_layout::median_of;
use crate::incremental_layout::nearest_free;
use crate::incremental_layout::port_offset_of;
use crate::incremental_layout::restoring_ports;
use crate::incremental_layout::route_between;
use crate::incremental_layout::slot_point;
use crate::incremental_layout::source_slots;
use crate::incremental_layout::target_slots;
use crate::incremental_layout::EndpointPortSlots;
use crate::incremental_layout::LayoutPoint;
use crate::incremental_layout::PlacementView;
use crate::incremental_layout::PortAssignmentView;
use crate::incremental_layout::ReadyNode;
use crate::incremental_layout::StableEdgeView;
use crate::incremental_layout::StableLayoutConfig;
use crate::incremental_layout::StableLayoutErrorView;
use crate::incremental_layout::StableLayoutView;

verus! {

/// Odd slots lie above the middle of an endpoint and even ones below it, a pair of them equally
/// far out: so many steps as the pair has in number, yet never beyond the range. The first slot
/// lies in the middle.
pub proof fn lemma_port_offsets_alternate(pair: usize, config: StableLayoutConfig)
    requires
        0 < pair <= 1_000_000,
        config.edge_port_range >= 0,
        0 <= pair * config.edge_port_step <= i32::MAX,
        config.edge_port_step >= 0,
    ensures
        port_offset_of(0, config) == 0,
        port_offset_of((2 * pair) as usize, config) >= 0,
        port_offset_of((2 * pair - 1) as usize, config) == -port_offset_of((2 * pair) as usize, config),
        pair * config.edge_port_step <= config.edge_port_range ==> port_offset_of(
            (2 * pair) as usize,
            config,
        ) == pair * config.edge_port_step,
        pair * config.edge_port_step > config.edge_port_range ==> port_offset_of(
            (2 * pair) as usize,
            config,
        ) == config.edge_port_range,
{
    let step = config.edge_port_step as int;
    assert(0 * step == 0) by (nonlinear_arith);
    assert((0 + 1) / 2 == 0int);
    assert((2 * pair + 1) / 2 == pair as int);
    assert((2 * pair - 1 + 1) / 2 == pair as int);
}

/// Between centers that are not at the bounds of their type a curve starts beyond the rim of its
/// source, ends before the rim of its target, and has its control points equally far from its
/// ends.
pub proof fn lemma_route_ends(
    source_center: LayoutPoint,
    target_center: LayoutPoint,
    slots: EndpointPortSlots,
    config: StableLayoutConfig,
)
    requires
        0 <= config.node_radius <= 1_000,
        0 <= config.edge_source_padding <= 1_000,
        0 <= config.edge_target_padding <= 1_000,
        -500_000_000 <= source_center.x <= 500_000_000,
        -500_000_000 <= target_center.x <= 500_000_000,
        0 <= config.edge_control_ratio_percent <= 100,
        0 <= config.edge_min_control_distance <= 1_000,
    ensures
        ({
            let route = route_between(source_center, target_center, slots, config);
            let width = route.target.x - route.source.x;
            let reach = route.control_1.x - route.source.x;
            let least = config.edge_min_control_distance;
            &&& route.source.x == source_center.x + config.node_radius + config.edge_source_padding
            &&& route.target.x == target_center.x - config.node_radius - config.edge_target_padding
            &&& reach == route.target.x - route.control_2.x
            &&& reach <= width - 8
            &&& least <= width - 8 ==> least <= reach
            &&& least < reach < width - 8 ==> 100 * reach <= config.edge_control_ratio_percent * width
                < 100 * (reach + 1)
        }),
{
    let route = route_between(source_center, target_center, slots, config);
    let width = route.target.x - route.source.x;
    let ratio = config.edge_control_ratio_percent as int;
    let horizontal = if width < config.edge_min_control_distance {
        config.edge_min_control_distance as int
    } else {
        width
    };
    assert(0 <= horizontal * ratio <= horizontal * 100) by (nonlinear_arith)
        requires
            0 <= horizontal,
            0 <= ratio <= 100,
    ;
    assert(ratio * width == width * ratio) by (nonlinear_arith);
    assert(horizontal * ratio / 100 <= horizontal);
}

/// With the distances of the console and in its first slots, an edge runs between two nodes as it
/// does in the layered layout, where it alone leaves its source and enters its target.
pub proof fn lemma_layouts_route_alike(source: Point, target: Point)
    requires
        -10_000_000 <= source.x <= 10_000_000,
        -10_000_000 <= target.x <= 10_000_000,
    ensures
        ({
            let stable = route_between(
                LayoutPoint { x: source.x, y: source.y },
                LayoutPoint { x: target.x, y: target.y },
                EndpointPortSlots { source: 0, target: 0 },
                default_config(),
            );
            let layered = crate::layout::routes::curve(source, 0, target, 0);
            &&& stable.source.x == layered.source.x && stable.source.y == layered.source.y
            &&& stable.control_1.x == layered.control_1.x && stable.control_1.y == layered.control_1.y
            &&& stable.control_2.x == layered.control_2.x && stable.control_2.y == layered.control_2.y
            &&& stable.target.x == layered.target.x && stable.target.y == layered.target.y
        }),
{
}

/// With the distances of the console a slot has the point that the layered layout gives to its
/// rank and row.
pub proof fn lemma_layouts_place_alike(rank: usize, row: usize)
    requires
        rank <= 10_000_000,
        row <= 10_000_000,
    ensures
        slot_point(default_config(), rank, row).x == crate::layout::GRAPH_PADDING + rank
            * crate::layout::GRAPH_RANK_STEP,
        slot_point(default_config(), rank, row).y == crate::layout::GRAPH_PADDING + row
            * crate::layout::GRAPH_ROW_STEP,
{
}

/// A slot lies a number of steps behind the padding on either axis: its rank counts the steps to
/// the right, its row those downward.
pub proof fn lemma_slot_point(config: StableLayoutConfig, rank: usize, row: usize)
    requires
        rank <= i32::MAX,
        row <= i32::MAX,
        i32::MIN <= rank * config.rank_step <= i32::MAX,
        i32::MIN <= row * config.row_step <= i32::MAX,
        i32::MIN <= config.padding + rank * config.rank_step <= i32::MAX,
        i32::MIN <= config.padding + row * config.row_step <= i32::MAX,
    ensures
        slot_point(config, rank, row).x == config.padding + rank * config.rank_step,
        slot_point(config, rank, row).y == config.padding + row * config.row_step,
{
}

/// The median is one of the rows; at most half of the rows lie before it, and less than half
/// behind it, so it is the later of two in the middle. Without rows it is zero.
pub proof fn lemma_median(rows: Seq<usize>)
    ensures
        rows.len() == 0 ==> median_of(rows) == 0,
        rows.len() > 0 ==> rows.contains(median_of(rows)),
        rows.filter(|row: usize| row < median_of(rows)).len() * 2 <= rows.len(),
        rows.len() > 0 ==> rows.filter(|row: usize| row > median_of(rows)).len() * 2 < rows.len(),
{
    reveal(Seq::filter);
    if rows.len() > 0 {
        let leq = |a: usize, b: usize| a <= b;
        let sorted = rows.sort_by(leq);
        let middle = rows.len() as int / 2;
        let median = median_of(rows);
        let before = |row: usize| row < median;
        let behind = |row: usize| row > median;
        rows.lemma_sort_by_ensures(leq);
        assert(sorted.len() == rows.len()) by {
            vstd::seq_lib::to_multiset_len(sorted);
            vstd::seq_lib::to_multiset_len(rows);
        }
        assert(sorted[middle] == median);
        vstd::seq_lib::to_multiset_contains(sorted, median);
        vstd::seq_lib::to_multiset_contains(rows, median);
        lemma_filtered_alike(sorted, rows, before);
        lemma_filtered_alike(sorted, rows, behind);
        assert forall|i: int| middle <= i < sorted.len() implies !before(#[trigger] sorted[i]) by {
            if i > middle {
                assert(leq(sorted[middle], sorted[i]));
            }
        }
        assert forall|i: int| 0 <= i < middle + 1 implies !behind(#[trigger] sorted[i]) by {
            if i < middle {
                assert(leq(sorted[i], sorted[middle]));
            }
        }
        lemma_filter_front(sorted, before, middle);
        lemma_filter_end(sorted, behind, middle + 1);
    } else {
        assert(rows.filter(|row: usize| row < median_of(rows)).len() == 0);
    }
}

/// Sequences with the same members as often have as many of them that pass.
proof fn lemma_filtered_alike(a: Seq<usize>, b: Seq<usize>, keep: spec_fn(usize) -> bool)
    requires
        a.to_multiset() == b.to_multiset(),
    ensures
        a.filter(keep).len() == b.filter(keep).len(),
{
    lemma_filtered_members(a, keep);
    lemma_filtered_members(b, keep);
    vstd::seq_lib::to_multiset_len(a.filter(keep));
    vstd::seq_lib::to_multiset_len(b.filter(keep));
}

proof fn lemma_filtered_members(items: Seq<usize>, keep: spec_fn(usize) -> bool)
    ensures
        items.filter(keep).to_multiset() == items.to_multiset().filter(keep),
    decreases items.len(),
{
    broadcast use vstd::seq_lib::group_to_multiset_ensures;
    broadcast use vstd::multiset::group_multiset_axioms;

    reveal(Seq::filter);
    if items.len() > 0 {
        let rest = items.drop_last();
        let last = items.last();
        lemma_filtered_members(rest, keep);
        assert(items =~= rest.push(last));
        assert(items.to_multiset() == rest.to_multiset().insert(last));
        if keep(last) {
            assert(items.filter(keep) == rest.filter(keep).push(last));
            assert(items.filter(keep).to_multiset() == rest.filter(keep).to_multiset().insert(last));
        }
    }
    assert(items.filter(keep).to_multiset() =~= items.to_multiset().filter(keep));
}

proof fn lemma_filter_front(items: Seq<usize>, keep: spec_fn(usize) -> bool, count: int)
    requires
        0 <= count <= items.len(),
        forall|i: int| count <= i < items.len() ==> !keep(#[trigger] items[i]),
    ensures
        items.filter(keep).len() <= count,
    decreases items.len(),
{
    reveal(Seq::filter);
    if items.len() > 0 {
        if count == items.len() {
            lemma_filter_front(items.drop_last(), keep, count - 1);
        } else {
            lemma_filter_front(items.drop_last(), keep, count);
        }
    }
}

proof fn lemma_filter_end(items: Seq<usize>, keep: spec_fn(usize) -> bool, count: int)
    requires
        0 <= count <= items.len(),
        forall|i: int| 0 <= i < count ==> !keep(#[trigger] items[i]),
    ensures
        items.filter(keep).len() <= items.len() - count,
    decreases items.len(),
{
    reveal(Seq::filter);
    if items.len() > 0 {
        if count == items.len() {
            lemma_filter_end(items.drop_last(), keep, count - 1);
        } else {
            lemma_filter_end(items.drop_last(), keep, count);
        }
    }
}

/// Whether all parents have slots.
pub open spec fn all_placed(layout: StableLayoutView, parents: Set<Seq<char>>) -> bool {
    forall|parent: Seq<char>| #[trigger] parents.contains(parent) ==> layout.is_placed(parent)
}

/// Placing a node fails for want of a parent exactly where some parent has no slot. The error names
/// the node and the first such parent, and the layout stays as it was.
pub proof fn lemma_missing_parent(
    layout: StableLayoutView,
    node_id: Seq<char>,
    parents: Set<Seq<char>>,
)
    requires
        parents.finite(),
    ensures
        ({
            let (after, outcome) = layout.placing(node_id, parents);
            &&& !all_placed(layout, parents) <==> outcome is Err && outcome->Err_0 is MissingParent
            &&& outcome matches Err(StableLayoutErrorView::MissingParent { node_id: node, parent_id })
                ==> {
                &&& after == layout
                &&& node == node_id
                &&& parents.contains(parent_id)
                &&& !layout.is_placed(parent_id)
                &&& forall|other: Seq<char>| #[trigger]
                    parents.contains(other) && !layout.is_placed(other) ==> !crate::text::text_lt(
                        other,
                        parent_id,
                    )
            }
        }),
{
    let missing = parents.filter(|parent: Seq<char>| !layout.is_placed(parent));
    if !all_placed(layout, parents) {
        let some = choose|parent: Seq<char>| #[trigger]
            parents.contains(parent) && !layout.is_placed(parent);
        assert(missing.contains(some));
        crate::ordered::lemma_sorted_texts_exists(missing);
        let sorted = crate::ordered::sorted_texts(missing);
        assert(sorted.to_set().contains(some));
        let first = sorted[0];
        assert(sorted.to_set().contains(first));
        assert forall|other: Seq<char>| #[trigger]
            parents.contains(other) && !layout.is_placed(other) implies other == first
            || crate::text::text_lt(first, other) by {
            assert(missing.contains(other));
            assert(sorted.to_set().contains(other));
            let n = sorted.index_of(other);
            if n > 0 {
                assert(crate::text::text_lt(sorted[0], sorted[n]));
            }
        }
        assert(layout.is_first_missing(parents, first));
        let chosen = choose|parent: Seq<char>| layout.is_first_missing(parents, parent);
        assert forall|other: Seq<char>| #[trigger]
            parents.contains(other) && !layout.is_placed(other) implies !crate::text::text_lt(
            other,
            chosen,
        ) by {
            crate::text::lemma_text_lt_irreflexive(chosen);
            if crate::text::text_lt(chosen, other) {
                crate::text::lemma_text_lt_asymmetric(chosen, other);
            }
        }
    }
}

/// The rank that placed parents require.
proof fn lemma_required(layout: StableLayoutView, parents: Set<Seq<char>>)
    requires
        parents.finite(),
    ensures
        is_required_rank(
            parents,
            |parent: Seq<char>| layout.placement(parent).rank,
            layout.required_rank(parents),
        ),
{
    crate::rank_propagation::lemma_required_rank_exists(
        parents,
        |parent: Seq<char>| layout.placement(parent).rank,
    );
}

/// A node that has no slot yet, and whose parents all have one, is placed: behind every parent and
/// right behind one of them, or at rank zero without parents; in a row that no node of that rank
/// owns, and no free row is nearer to the median row of the parents, nor as near and before it. It
/// is in use from then on, and nothing else changes.
#[verifier::rlimit(40)]
pub proof fn lemma_new_node_is_placed(
    layout: StableLayoutView,
    node_id: Seq<char>,
    parents: Set<Seq<char>>,
    free: usize,
)
    requires
        layout.consistent(),
        parents.finite(),
        all_placed(layout, parents),
        !layout.is_placed(node_id),
        !layout.taken_rows(layout.required_rank(parents)).contains(free),
        forall|parent: Seq<char>| #[trigger]
            parents.contains(parent) ==> layout.placement(parent).rank < usize::MAX,
    ensures
        ({
            let (after, outcome) = layout.placing(node_id, parents);
            let placed = outcome->Ok_0;
            let median = median_of(layout.parent_rows(parents));
            &&& outcome is Ok
            &&& placed.node_id == node_id
            &&& forall|parent: Seq<char>| #[trigger]
                parents.contains(parent) ==> layout.placement(parent).rank < placed.rank
            &&& placed.rank > 0 ==> exists|parent: Seq<char>| #[trigger]
                parents.contains(parent) && layout.placement(parent).rank + 1 == placed.rank
            &&& forall|other: Seq<char>| #[trigger]
                layout.is_placed(other) ==> layout.placement(other).rank != placed.rank
                    || layout.placement(other).row != placed.row
            &&& distance_between(placed.row, median) <= distance_between(free, median)
            &&& distance_between(placed.row, median) == distance_between(free, median) ==> placed.row
                <= free
            &&& placed.point == slot_point(layout.config, placed.rank, placed.row)
            &&& after.active.contains_key(node_id) && after.active[node_id] == placed
            &&& after.tombstones == layout.tombstones
            &&& after.config == layout.config
            &&& forall|other: Seq<char>|
                other != node_id ==> (#[trigger] after.active.contains_key(other)
                    <==> layout.active.contains_key(other)) && (layout.active.contains_key(other)
                    ==> after.active[other] == layout.active[other])
        }),
{
    let rank = layout.required_rank(parents);
    let taken = layout.taken_rows(rank);
    let median = median_of(layout.parent_rows(parents));
    lemma_required(layout, parents);
    lemma_nearest_exists(taken, median, free);
    let row = nearest_free(taken, median);
    assert(is_nearest_free(taken, median, row));
    lemma_missing_parent(layout, node_id, parents);
    let placed = layout.placing(node_id, parents).1->Ok_0;
    assert forall|other: Seq<char>| #[trigger] layout.is_placed(other) implies layout.placement(
        other,
    ).rank != placed.rank || layout.placement(other).row != placed.row by {
        if layout.placement(other).rank == rank && layout.placement(other).row == row {
            assert(layout.owns(other, rank, row));
            assert(taken.contains(row));
        }
    }
    assert(!taken.contains(free));
}

/// Where some row is free, one of the free rows is the nearest.
proof fn lemma_nearest_exists(taken: Set<usize>, desired: usize, free: usize)
    requires
        !taken.contains(free),
    ensures
        is_nearest_free(taken, desired, nearest_free(taken, desired)),
    decreases distance_between(free, desired) * 2 + if free > desired { 1int } else { 0int },
{
    if !is_nearest_free(taken, desired, free) {
        let other = choose|other: usize|
            #![trigger taken.contains(other)]
            (distance_between(other, desired) < distance_between(free, desired) || (distance_between(
                other,
                desired,
            ) == distance_between(free, desired) && other < free)) && !taken.contains(other);
        lemma_nearest_exists(taken, desired, other);
    }
}

/// A node that has a slot is handed back with it and is in use from then on, unless a parent
/// stands no longer before it: then the layout stays as it was.
pub proof fn lemma_placed_node_stays(
    layout: StableLayoutView,
    node_id: Seq<char>,
    parents: Set<Seq<char>>,
)
    requires
        layout.consistent(),
        parents.finite(),
        all_placed(layout, parents),
        layout.is_placed(node_id),
        forall|parent: Seq<char>| #[trigger]
            parents.contains(parent) ==> layout.placement(parent).rank < usize::MAX,
    ensures
        ({
            let (after, outcome) = layout.placing(node_id, parents);
            let current = layout.placement(node_id);
            let behind = forall|parent: Seq<char>| #[trigger]
                parents.contains(parent) ==> layout.placement(parent).rank < current.rank;
            &&& outcome is Ok <==> behind
            &&& behind ==> outcome->Ok_0 == current && after.active.contains_key(node_id)
                && after.active[node_id] == current && !after.tombstones.contains_key(node_id)
            &&& !behind ==> after == layout
            &&& outcome matches Err(error) ==> (error matches StableLayoutErrorView::ExistingRankTooLow {
                node_id: node,
                current_rank,
                required_rank,
            } && node == node_id && current_rank == current.rank && required_rank > current_rank)
        }),
{
    lemma_required(layout, parents);
    lemma_missing_parent(layout, node_id, parents);
    let current = layout.placement(node_id);
    let required = layout.required_rank(parents);
    if current.rank < required {
        let parent = choose|parent: Seq<char>| #[trigger]
            parents.contains(parent) && required == layout.placement(parent).rank + 1;
        assert(parents.contains(parent) && required == layout.placement(parent).rank + 1);
        assert(!(layout.placement(parent).rank < current.rank));
    }
}

/// Retiring a node takes it out of use and keeps its placement as it was.
pub proof fn lemma_retired(layout: StableLayoutView, node_id: Seq<char>, other: Seq<char>)
    requires
        layout.active.contains_key(node_id),
        other != node_id,
    ensures
        ({
            let after = layout.retired(node_id);
            &&& !after.active.contains_key(node_id)
            &&& after.tombstones.contains_key(node_id)
            &&& after.tombstones[node_id] == layout.active[node_id]
            &&& after.active.contains_key(other) <==> layout.active.contains_key(other)
            &&& after.tombstones.contains_key(other) <==> layout.tombstones.contains_key(other)
            &&& layout.active.contains_key(other) ==> after.active[other] == layout.active[other]
            &&& layout.tombstones.contains_key(other) ==> after.tombstones[other]
                == layout.tombstones[other]
            &&& after.config == layout.config
        }),
{
}

/// A placement that is restored is in the layout as it was given, in use or retired as asked. One
/// for a node with another placement, or for a slot that another node owns, is refused, and the
/// layout stays as it was; the error names the node, or the slot and its owner.
pub proof fn lemma_restored(layout: StableLayoutView, placement: PlacementView, tombstone: bool)
    requires
        layout.consistent(),
    ensures
        ({
            let (after, outcome) = layout.restoring(placement, tombstone);
            let id = placement.node_id;
            let free = forall|other: Seq<char>| #[trigger]
                layout.is_placed(other) ==> layout.placement(other).rank != placement.rank
                    || layout.placement(other).row != placement.row;
            &&& !layout.is_placed(id) ==> (outcome is Ok <==> free)
            &&& layout.is_placed(id) ==> (outcome is Ok <==> layout.placement(id) == placement
                && layout.tombstones.contains_key(id) == tombstone)
            &&& outcome is Ok ==> after.is_placed(id) && after.placement(id) == placement
                && after.tombstones.contains_key(id) == tombstone
            &&& outcome is Err ==> after == layout
            &&& outcome matches Err(StableLayoutErrorView::SlotOccupied { rank, row, owner }) ==> {
                &&& !layout.is_placed(id)
                &&& rank == placement.rank && row == placement.row
                &&& layout.is_placed(owner)
                &&& layout.placement(owner).rank == rank && layout.placement(owner).row == row
            }
            &&& outcome matches Err(StableLayoutErrorView::DuplicateNode { node_id }) ==> node_id == id
                && layout.is_placed(id)
            &&& outcome matches Err(error) ==> error is SlotOccupied || error is DuplicateNode
        }),
{
    let id = placement.node_id;
    if exists|other: Seq<char>| layout.owns(other, placement.rank, placement.row) {
        let owner = choose|other: Seq<char>| layout.owns(other, placement.rank, placement.row);
        assert(layout.is_placed(owner));
    } else {
        assert forall|other: Seq<char>| #[trigger] layout.is_placed(other) implies layout.placement(
            other,
        ).rank != placement.rank || layout.placement(other).row != placement.row by {
            assert(!layout.owns(other, placement.rank, placement.row));
        }
    }
}

/// A list of nodes that is placed yields one placement for each, in order and under its id.
pub proof fn lemma_batch_is_placed_in_order(layout: StableLayoutView, nodes: Seq<ReadyNode>, index: int)
    requires
        layout.consistent(),
        layout.placing_all(nodes).1 is Ok,
        0 <= index < nodes.len(),
    ensures
        layout.placing_all(nodes).1->Ok_0.len() == nodes.len(),
        layout.placing_all(nodes).1->Ok_0[index].node_id == nodes[index].node_id@,
        layout.placing_all(nodes).0.is_placed(nodes[index].node_id@),
        layout.placing_all(nodes).0.placement(nodes[index].node_id@) == layout.placing_all(
            nodes,
        ).1->Ok_0[index],
    decreases nodes.len(),
{
    let rest = nodes.drop_last();
    let (earlier, before) = layout.placing_all(rest);
    let (after, last) = earlier.placing(nodes.last().node_id@, nodes.last().parents());
    lemma_batch_keeps_ids(layout, nodes);
    lemma_batch_keeps_ids(layout, rest);
    if index < rest.len() {
        lemma_batch_is_placed_in_order(layout, rest, index);
        assert(earlier.is_placed(nodes[index].node_id@));
    } else if rest.len() > 0 {
        lemma_batch_is_placed_in_order(layout, rest, 0);
    }
}

/// Placing nodes keeps each placement under its own id.
proof fn lemma_batch_keeps_ids(layout: StableLayoutView, nodes: Seq<ReadyNode>)
    requires
        layout.consistent(),
    ensures
        ({
            let after = layout.placing_all(nodes).0;
            &&& forall|id: Seq<char>| #[trigger]
                after.active.contains_key(id) ==> after.active[id].node_id == id
                    && !after.tombstones.contains_key(id)
            &&& forall|id: Seq<char>| #[trigger]
                after.tombstones.contains_key(id) ==> after.tombstones[id].node_id == id
        }),
    decreases nodes.len(),
{
    if nodes.len() > 0 {
        let rest = nodes.drop_last();
        lemma_batch_keeps_ids(layout, rest);
        let earlier = layout.placing_all(rest).0;
        let node_id = nodes.last().node_id@;
        let after = layout.placing_all(nodes).0;
        if layout.placing_all(rest).1 is Ok {
            assert(after == earlier.placing(node_id, nodes.last().parents()).0);
            assert(after.tombstones == earlier.tombstones || after.tombstones
                == earlier.tombstones.remove(node_id));
            assert forall|id: Seq<char>| #[trigger]
                after.tombstones.contains_key(id) implies after.tombstones[id].node_id == id by {
                assert(earlier.tombstones.contains_key(id));
            }
            assert forall|id: Seq<char>| #[trigger]
                after.active.contains_key(id) implies after.active[id].node_id == id
                && !after.tombstones.contains_key(id) by {
                if id != node_id {
                    assert(earlier.active.contains_key(id));
                } else if earlier.active.contains_key(id) {
                } else if earlier.tombstones.contains_key(id) {
                }
            }
        } else {
            assert(after == earlier);
        }
    }
}

/// Whether an edge may take a slot where it leaves a node: no edge that leaves the node has it.
pub open spec fn is_open_source(
    assignments: Map<Seq<char>, PortAssignmentView>,
    node_id: Seq<char>,
    slot: usize,
) -> bool {
    forall|key: Seq<char>| #[trigger]
        assignments.contains_key(key) && assignments[key].edge.source_id == node_id
            ==> assignments[key].slots.source != slot
}

/// Whether an edge may take a slot where it enters a node: no edge that enters the node has it.
pub open spec fn is_open_target(
    assignments: Map<Seq<char>, PortAssignmentView>,
    node_id: Seq<char>,
    slot: usize,
) -> bool {
    forall|key: Seq<char>| #[trigger]
        assignments.contains_key(key) && assignments[key].edge.target_id == node_id
            ==> assignments[key].slots.target != slot
}

/// An edge without slots takes the lowest ones that no other edge has at the same side of the
/// same node: at its source among the edges that leave it, at its target among those that enter
/// it. Afterwards it has them under its key, and no other edge changes.
pub proof fn lemma_new_edge_takes_lowest_ports(
    assignments: Map<Seq<char>, PortAssignmentView>,
    edge: StableEdgeView,
    open_source: usize,
    open_target: usize,
)
    requires
        !assignments.contains_key(edge.edge_key),
        is_open_source(assignments, edge.source_id, open_source),
        is_open_target(assignments, edge.target_id, open_target),
    ensures
        ({
            let (after, outcome) = assigning_ports(assignments, edge);
            let assigned = outcome->Ok_0;
            &&& outcome is Ok
            &&& assigned.edge == edge
            &&& is_open_source(assignments, edge.source_id, assigned.slots.source)
            &&& is_open_target(assignments, edge.target_id, assigned.slots.target)
            &&& assigned.slots.source <= open_source
            &&& assigned.slots.target <= open_target
            &&& after.contains_key(edge.edge_key) && after[edge.edge_key] == assigned
            &&& forall|key: Seq<char>|
                key != edge.edge_key ==> (#[trigger] after.contains_key(key)
                    <==> assignments.contains_key(key)) && (assignments.contains_key(key) ==> after[key]
                    == assignments[key])
        }),
{
    let outgoing = source_slots(assignments, edge.source_id);
    let incoming = target_slots(assignments, edge.target_id);
    lemma_open_source(assignments, edge.source_id, open_source);
    lemma_open_target(assignments, edge.target_id, open_target);
    lemma_first_exists(outgoing, open_source);
    lemma_first_exists(incoming, open_target);
    let slots = assigning_ports(assignments, edge).1->Ok_0.slots;
    lemma_open_source(assignments, edge.source_id, slots.source);
    lemma_open_target(assignments, edge.target_id, slots.target);
}

proof fn lemma_open_source(
    assignments: Map<Seq<char>, PortAssignmentView>,
    node_id: Seq<char>,
    slot: usize,
)
    ensures
        is_open_source(assignments, node_id, slot) <==> !source_slots(assignments, node_id).contains(slot),
{
    if source_slots(assignments, node_id).contains(slot) {
        let key = choose|key: Seq<char>| holds_source(assignments, key, node_id, slot);
        assert(assignments.contains_key(key));
    } else {
        assert forall|key: Seq<char>| #[trigger]
            assignments.contains_key(key) && assignments[key].edge.source_id == node_id implies assignments[key].slots.source
            != slot by {
            assert(!holds_source(assignments, key, node_id, slot));
        }
    }
}

proof fn lemma_open_target(
    assignments: Map<Seq<char>, PortAssignmentView>,
    node_id: Seq<char>,
    slot: usize,
)
    ensures
        is_open_target(assignments, node_id, slot) <==> !target_slots(assignments, node_id).contains(slot),
{
    if target_slots(assignments, node_id).contains(slot) {
        let key = choose|key: Seq<char>| holds_target(assignments, key, node_id, slot);
        assert(assignments.contains_key(key));
    } else {
        assert forall|key: Seq<char>| #[trigger]
            assignments.contains_key(key) && assignments[key].edge.target_id == node_id implies assignments[key].slots.target
            != slot by {
            assert(!holds_target(assignments, key, node_id, slot));
        }
    }
}

proof fn lemma_first_exists(taken: Set<usize>, open: usize)
    requires
        !taken.contains(open),
    ensures
        is_first_free(taken, first_free(taken)),
        first_free(taken) <= open,
    decreases open,
{
    if exists|lower: usize| lower < open && !#[trigger] taken.contains(lower) {
        let lower = choose|lower: usize| lower < open && !#[trigger] taken.contains(lower);
        lemma_first_exists(taken, lower);
    } else {
        assert(is_first_free(taken, open));
        crate::incremental_layout::lemma_first_free_unique(taken, open);
    }
}

/// Slots that are restored are held as they were given. Slots for an edge that has others, or that
/// another edge has at the same side of the same node, are refused, and nothing changes; the error
/// names the key, or the node, the slot and its owner.
pub proof fn lemma_restored_ports(
    assignments: Map<Seq<char>, PortAssignmentView>,
    assignment: PortAssignmentView,
)
    ensures
        ({
            let (after, outcome) = restoring_ports(assignments, assignment);
            let edge = assignment.edge;
            let slots = assignment.slots;
            &&& assignments.contains_key(edge.edge_key) ==> (outcome is Ok
                <==> assignments[edge.edge_key] == assignment)
            &&& !assignments.contains_key(edge.edge_key) ==> (outcome is Ok <==> is_open_source(
                assignments,
                edge.source_id,
                slots.source,
            ) && is_open_target(assignments, edge.target_id, slots.target))
            &&& outcome is Ok ==> after.contains_key(edge.edge_key) && after[edge.edge_key] == assignment
            &&& outcome is Err ==> after == assignments
            &&& outcome matches Err(StableLayoutErrorView::PortSlotOccupied { node_id, slot, owner })
                ==> assignments.contains_key(owner) && ((node_id == edge.source_id && slot == slots.source
                && assignments[owner].edge.source_id == node_id && assignments[owner].slots.source == slot)
                || (node_id == edge.target_id && slot == slots.target && is_open_source(
                assignments,
                edge.source_id,
                slots.source,
            ) && assignments[owner].edge.target_id == node_id && assignments[owner].slots.target
                == slot))
            &&& outcome matches Err(StableLayoutErrorView::DuplicateEdge { edge_key }) ==> edge_key
                == edge.edge_key && assignments.contains_key(edge_key)
            &&& outcome matches Err(error) ==> error is PortSlotOccupied || error is DuplicateEdge
        }),
{
    let edge = assignment.edge;
    let slots = assignment.slots;
    lemma_open_source(assignments, edge.source_id, slots.source);
    lemma_open_target(assignments, edge.target_id, slots.target);
    if source_slots(assignments, edge.source_id).contains(slots.source) {
        let key = choose|key: Seq<char>| holds_source(assignments, key, edge.source_id, slots.source);
        assert(holds_source(assignments, key, edge.source_id, slots.source));
    }
    if target_slots(assignments, edge.target_id).contains(slots.target) {
        let key = choose|key: Seq<char>| holds_target(assignments, key, edge.target_id, slots.target);
        assert(holds_target(assignments, key, edge.target_id, slots.target));
    }
}

/// An edge that has slots is given the same ones again; under a key that another edge has it is
/// refused. Neither changes anything.
pub proof fn lemma_known_edge_keeps_ports(
    assignments: Map<Seq<char>, PortAssignmentView>,
    edge: StableEdgeView,
)
    requires
        assignments.contains_key(edge.edge_key),
    ensures
        ({
            let (after, outcome) = assigning_ports(assignments, edge);
            &&& after == assignments
            &&& outcome is Ok <==> assignments[edge.edge_key].edge == edge
            &&& outcome is Ok ==> outcome->Ok_0 == assignments[edge.edge_key]
            &&& outcome matches Err(error) ==> (error matches StableLayoutErrorView::DuplicateEdge {
                edge_key,
            } && edge_key == edge.edge_key)
        }),
{
}

/// The rows that the median is taken of are those of the parents, one for each.
pub proof fn lemma_parent_rows(layout: StableLayoutView, parents: Set<Seq<char>>, parent: Seq<char>)
    requires
        parents.finite(),
        parents.contains(parent),
    ensures
        layout.parent_rows(parents).len() == parents.len(),
        layout.parent_rows(parents).contains(layout.placement(parent).row),
        parents.len() == 1 ==> layout.parent_rows(parents) == seq![layout.placement(parent).row],
{
    crate::ordered::lemma_sorted_texts_exists(parents);
    let ids = crate::ordered::sorted_texts(parents);
    let rows = layout.parent_rows(parents);
    crate::ordered::lemma_strictly_sorted_no_duplicates(ids);
    ids.unique_seq_to_set();
    assert(ids.to_set().contains(parent));
    let n = ids.index_of(parent);
    assert(rows[n] == layout.placement(parent).row);
    if parents.len() == 1 {
        assert(rows =~= seq![layout.placement(parent).row]);
    }
}

/// A new node with one parent goes into the row of that parent, where the row is free.
pub proof fn lemma_only_child_stands_beside_its_parent(
    layout: StableLayoutView,
    node_id: Seq<char>,
    parent: Seq<char>,
)
    requires
        layout.consistent(),
        layout.is_placed(parent),
        !layout.is_placed(node_id),
        layout.placement(parent).rank < usize::MAX,
        forall|other: Seq<char>| #[trigger]
            layout.is_placed(other) ==> layout.placement(other).rank != layout.placement(parent).rank + 1
                || layout.placement(other).row != layout.placement(parent).row,
    ensures
        ({
            let placed = layout.placing(node_id, Set::empty().insert(parent)).1;
            &&& placed is Ok
            &&& placed->Ok_0.rank == layout.placement(parent).rank + 1
            &&& placed->Ok_0.row == layout.placement(parent).row
        }),
{
    let parents = Set::<Seq<char>>::empty().insert(parent);
    let row = layout.placement(parent).row;
    let rank = layout.required_rank(parents);
    lemma_required(layout, parents);
    assert(parents.contains(parent));
    assert(rank == layout.placement(parent).rank + 1);
    if layout.taken_rows(rank).contains(row) {
        let owner = choose|id: Seq<char>| layout.owns(id, rank, row);
        assert(layout.is_placed(owner));
    }
    lemma_new_node_is_placed(layout, node_id, parents, row);
    lemma_parent_rows(layout, parents, parent);
    let rows = layout.parent_rows(parents);
    lemma_median(rows);
    assert(rows.contains(median_of(rows)));
    assert(median_of(rows) == row);
}

/// A list of nodes that cannot all be placed is placed up to the first that cannot: the error is
/// the one for that node, and the nodes before it stay placed.
pub proof fn lemma_batch_stops_at_first_failure(layout: StableLayoutView, nodes: Seq<ReadyNode>) -> (place: int)
    requires
        layout.placing_all(nodes).1 is Err,
    ensures
        0 <= place < nodes.len(),
        layout.placing_all(nodes.take(place)).1 is Ok,
        ({
            let before = layout.placing_all(nodes.take(place)).0;
            let (after, outcome) = before.placing(nodes[place].node_id@, nodes[place].parents());
            &&& outcome is Err
            &&& layout.placing_all(nodes).1->Err_0 == outcome->Err_0
            &&& layout.placing_all(nodes).0 == after
        }),
    decreases nodes.len(),
{
    let rest = nodes.drop_last();
    if layout.placing_all(rest).1 is Err {
        let place = lemma_batch_stops_at_first_failure(layout, rest);
        assert(rest.take(place) =~= nodes.take(place));
        place
    } else {
        assert(nodes.take(nodes.len() - 1) =~= rest);
        nodes.len() - 1
    }
}

/// Whether a text ends with another.
pub open spec fn ends_with(text: Seq<char>, end: Seq<char>) -> bool {
    end.len() <= text.len() && text.skip(text.len() - end.len()) == end
}

/// The message for an error ends with what is to blame: the node, the parent, the owner of the
/// slot or the edge; and the words before it tell the kinds of errors apart.
pub proof fn lemma_messages_name_what_is_to_blame(
    node_id: Seq<char>,
    parent_id: Seq<char>,
    rank: usize,
    row: usize,
)
    ensures
        ends_with(error_message(StableLayoutErrorView::DuplicateNode { node_id }), node_id),
        ends_with(error_message(StableLayoutErrorView::MissingNode { node_id }), node_id),
        ends_with(error_message(StableLayoutErrorView::MissingParent { node_id, parent_id }), parent_id),
        ends_with(
            error_message(StableLayoutErrorView::SlotOccupied { rank, row, owner: node_id }),
            node_id,
        ),
        ends_with(error_message(StableLayoutErrorView::DuplicateEdge { edge_key: node_id }), node_id),
        ends_with(
            error_message(
                StableLayoutErrorView::PortSlotOccupied { node_id: parent_id, slot: row, owner: node_id },
            ),
            node_id,
        ),
        ends_with(
            error_message(
                StableLayoutErrorView::ExistingRankTooLow {
                    node_id,
                    current_rank: rank,
                    required_rank: row,
                },
            ),
            crate::text::decimal_text(row as nat),
        ),
{
    lemma_ends("duplicate node "@, node_id);
    lemma_ends("missing node "@, node_id);
    lemma_ends("node "@ + node_id + " references missing parent "@, parent_id);
    lemma_ends(
        "rank "@ + crate::text::decimal_text(rank as nat) + " row "@ + crate::text::decimal_text(
            row as nat,
        ) + " is occupied by "@,
        node_id,
    );
    lemma_ends("duplicate edge "@, node_id);
    lemma_ends(
        "endpoint "@ + parent_id + " port slot "@ + crate::text::decimal_text(row as nat)
            + " is occupied by "@,
        node_id,
    );
    lemma_ends(
        "node "@ + node_id + " has rank "@ + crate::text::decimal_text(rank as nat)
            + ", but its parents require rank "@,
        crate::text::decimal_text(row as nat),
    );
}

pub(crate) proof fn lemma_ends(front: Seq<char>, end: Seq<char>)
    ensures
        ends_with(front + end, end),
{
    assert((front + end).skip((front + end).len() - end.len()) =~= end);
}

/// With the distances of the console each pair of ports lies 4 farther out than the one before,
/// up to 12.
pub proof fn lemma_console_ports(pair: usize)
    requires
        0 < pair <= 1_000_000,
    ensures
        port_offset_of(0, default_config()) == 0,
        pair <= 3 ==> port_offset_of((2 * pair) as usize, default_config()) == 4 * pair,
        pair <= 3 ==> port_offset_of((2 * pair - 1) as usize, default_config()) == -4 * pair,
        pair > 3 ==> port_offset_of((2 * pair) as usize, default_config()) == 12,
        pair > 3 ==> port_offset_of((2 * pair - 1) as usize, default_config()) == -12,
{
    lemma_port_offsets_alternate(pair, default_config());
}

} // verus!
