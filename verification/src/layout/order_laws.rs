//! What holds of the order of the nodes of a rank.

use vstd::prelude::*;
use crate::graph::GraphSnapshot;
use crate::layout::components::branch_names;
use crate::layout::components::created_at;
use crate::layout::components::is_earliest;
use crate::layout::components::is_first_name;
use crate::layout::components::is_root;
use crate::layout::components::ordered_roots;
use crate::layout::components::priority_of;
use crate::layout::components::root_order;
use crate::layout::components::same_component;
use crate::layout::crossings::layers_hold;
use crate::layout::crossings::lemma_depth;
use crate::layout::crossings::may_reflow;
use crate::layout::crossings::Drawing;
use crate::layout::laws::lemma_prepared;
use crate::layout::model::graph_model;
use crate::layout::packing::graph_plan;
use crate::layout::packing::lemma_packed_upto;
use crate::layout::packing::lemma_plan_valid;
use crate::layout::packing::Plan;
use crate::layout::prepare::preparation;
use crate::layout::LayoutHint;

verus! {

/// Ranks that a sweep up has passed stay as they are.
proof fn lemma_swept_up_stays(
    drawing: Drawing,
    layers: Seq<Seq<usize>>,
    reflow: Option<Set<usize>>,
    early: nat,
    late: nat,
    rank: int,
)
    requires
        early <= late <= layers.len(),
        layers.len() - early <= rank < layers.len(),
    ensures
        drawing.swept_up(layers, reflow, early).len() == layers.len(),
        drawing.swept_up(layers, reflow, late).len() == layers.len(),
        drawing.swept_up(layers, reflow, late)[rank] == drawing.swept_up(layers, reflow, early)[rank],
    decreases late,
{
    lemma_swept_up_size(drawing, layers, reflow, early);
    lemma_swept_up_size(drawing, layers, reflow, late);
    if early < late {
        lemma_swept_up_stays(drawing, layers, reflow, early, (late - 1) as nat, rank);
    }
}

proof fn lemma_swept_up_size(
    drawing: Drawing,
    layers: Seq<Seq<usize>>,
    reflow: Option<Set<usize>>,
    count: nat,
)
    requires
        count <= layers.len(),
    ensures
        drawing.swept_up(layers, reflow, count).len() == layers.len(),
    decreases count,
{
    if count > 0 {
        lemma_swept_up_size(drawing, layers, reflow, (count - 1) as nat);
    }
}

proof fn lemma_swept_down_size(
    drawing: Drawing,
    layers: Seq<Seq<usize>>,
    reflow: Option<Set<usize>>,
    count: nat,
)
    requires
        count <= layers.len(),
    ensures
        drawing.swept_down(layers, reflow, count).len() == layers.len(),
    decreases count,
{
    if count > 0 {
        lemma_swept_down_size(drawing, layers, reflow, (count - 1) as nat);
    }
}

/// Sweeps leave the ranks that are not to be ordered again as they are.
proof fn lemma_fixed_rank_stays(
    drawing: Drawing,
    layers: Seq<Seq<usize>>,
    reflow: Option<Set<usize>>,
    count: nat,
    rank: int,
)
    requires
        0 <= rank < layers.len() <= usize::MAX + 1,
        count <= layers.len(),
        !may_reflow(reflow, rank as usize),
    ensures
        drawing.swept_down(layers, reflow, count)[rank] == layers[rank],
        drawing.swept_up(layers, reflow, count)[rank] == layers[rank],
    decreases count,
{
    if count > 0 {
        lemma_fixed_rank_stays(drawing, layers, reflow, (count - 1) as nat, rank);
        lemma_swept_up_size(drawing, layers, reflow, (count - 1) as nat);
        lemma_swept_down_size(drawing, layers, reflow, (count - 1) as nat);
    }
}

/// The sum of the places that some nodes have in their ranks.
pub open spec fn places_of(drawing: Drawing, layers: Seq<Seq<usize>>, nodes: Seq<usize>) -> int
    decreases nodes.len(),
{
    if nodes.len() == 0 {
        0
    } else {
        places_of(drawing, layers, nodes.drop_first()) + layers[drawing.rank(nodes[0]) as int].index_of(
            nodes[0],
        )
    }
}

proof fn lemma_places_joined(drawing: Drawing, layers: Seq<Seq<usize>>, front: Seq<usize>, last: usize)
    ensures
        places_of(drawing, layers, front.push(last)) == places_of(drawing, layers, front)
            + layers[drawing.rank(last) as int].index_of(last),
    decreases front.len(),
{
    let all = front.push(last);
    if front.len() > 0 {
        lemma_places_joined(drawing, layers, front.drop_first(), last);
        assert(all.drop_first() =~= front.drop_first().push(last));
    } else {
        assert(all.drop_first() =~= front);
    }
}

proof fn lemma_places(drawing: Drawing, layers: Seq<Seq<usize>>, nodes: Seq<usize>)
    ensures
        drawing.position_sum(layers, nodes) == places_of(drawing, layers, nodes),
    decreases nodes.len(),
{
    if nodes.len() > 0 {
        lemma_places(drawing, layers, nodes.drop_last());
        lemma_places_joined(drawing, layers, nodes.drop_last(), nodes.last());
        assert(nodes.drop_last().push(nodes.last()) =~= nodes);
    }
}

/// Places depend on the ranks of the nodes alone.
proof fn lemma_places_agree(
    drawing: Drawing,
    a: Seq<Seq<usize>>,
    b: Seq<Seq<usize>>,
    nodes: Seq<usize>,
)
    requires
        forall|i: int|
            #![trigger nodes[i]]
            0 <= i < nodes.len() ==> a[drawing.rank(nodes[i]) as int] == b[drawing.rank(nodes[i]) as int],
    ensures
        places_of(drawing, a, nodes) == places_of(drawing, b, nodes),
    decreases nodes.len(),
{
    if nodes.len() > 0 {
        let rest = nodes.drop_first();
        assert forall|i: int| #![trigger rest[i]] 0 <= i < rest.len() implies a[drawing.rank(rest[i]) as int]
            == b[drawing.rank(rest[i]) as int] by {
            assert(rest[i] == nodes[i + 1]);
        }
        lemma_places_agree(drawing, a, b, rest);
        assert(a[drawing.rank(nodes[0]) as int] == b[drawing.rank(nodes[0]) as int]);
    }
}

/// In a rank that was ordered again, no node of a connected part comes before another one whose
/// children have the lower mean place.
#[verifier::rlimit(40)]
pub proof fn lemma_nodes_follow_their_children(
    drawing: Drawing,
    root: usize,
    reflow: Option<Set<usize>>,
    rank: int,
    i: int,
    j: int,
)
    requires
        drawing.model.valid(),
        drawing.model.is_ranking(drawing.model.ranks()),
        0 <= rank < drawing.depth(),
        may_reflow(reflow, rank as usize),
        0 <= i < j < drawing.final_layers(root, reflow)[rank].len(),
        drawing.model.child_list(drawing.final_layers(root, reflow)[rank][i]).len() > 0,
        drawing.model.child_list(drawing.final_layers(root, reflow)[rank][j]).len() > 0,
    ensures
        ({
            let layers = drawing.final_layers(root, reflow);
            let before = drawing.model.child_list(layers[rank][i]);
            let behind = drawing.model.child_list(layers[rank][j]);
            places_of(drawing, layers, before) * behind.len() <= places_of(drawing, layers, behind)
                * before.len()
        }),
{
    let once = drawing.swept_once(drawing.first_layers(root), reflow);
    let size = drawing.depth();
    lemma_swept_down_size(drawing, drawing.first_layers(root), reflow, size);
    lemma_swept_up_size(
        drawing,
        drawing.swept_down(drawing.first_layers(root), reflow, size),
        reflow,
        size,
    );
    assert(once.len() == size);
    let start = drawing.swept_down(once, reflow, size);
    lemma_swept_down_size(drawing, once, reflow, size);
    let layers = drawing.final_layers(root, reflow);
    assert(layers == drawing.swept_up(start, reflow, size));
    let count = (size - rank) as nat;
    let earlier = drawing.swept_up(start, reflow, (count - 1) as nat);
    lemma_swept_up_size(drawing, start, reflow, (count - 1) as nat);
    let order = drawing.sweep_order(earlier, false);
    lemma_swept_up_stays(drawing, start, reflow, count, size, rank);
    assert(layers[rank] == earlier[rank].sort_by(order));
    crate::layout::crossings::lemma_sweep_order(drawing, earlier, false);
    earlier[rank].lemma_sort_by_ensures(order);
    let a = layers[rank][i];
    let b = layers[rank][j];
    assert(order(a, b));
    crate::layout::crossings::lemma_final_layers_hold(drawing, root, reflow);
    assert(layers[rank].contains(a) && layers[rank].contains(b));
    lemma_child_places(drawing, root, start, reflow, rank, a);
    lemma_child_places(drawing, root, start, reflow, rank, b);
    lemma_places(drawing, earlier, drawing.model.child_list(a));
    lemma_places(drawing, earlier, drawing.model.child_list(b));
}

/// The children of a node have their last places once a sweep up comes to the node.
proof fn lemma_child_places(
    drawing: Drawing,
    root: usize,
    start: Seq<Seq<usize>>,
    reflow: Option<Set<usize>>,
    rank: int,
    node: usize,
)
    requires
        drawing.model.valid(),
        drawing.model.is_ranking(drawing.model.ranks()),
        start.len() == drawing.depth(),
        0 <= rank < start.len(),
        node < drawing.model.size(),
        drawing.rank(node) == rank,
    ensures
        places_of(
            drawing,
            drawing.swept_up(start, reflow, (start.len() - rank - 1) as nat),
            drawing.model.child_list(node),
        ) == places_of(
            drawing,
            drawing.swept_up(start, reflow, start.len()),
            drawing.model.child_list(node),
        ),
{
    let children = drawing.model.child_list(node);
    let early = (start.len() - rank - 1) as nat;
    let a = drawing.swept_up(start, reflow, early);
    let b = drawing.swept_up(start, reflow, start.len());
    assert forall|i: int| #![trigger children[i]] 0 <= i < children.len() implies a[drawing.rank(
        children[i],
    ) as int] == b[drawing.rank(children[i]) as int] by {
        let child = children[i];
        assert(children.contains(child));
        crate::sequences::lemma_filter_members(
            crate::sorting::indices(drawing.model.size()),
            |target: usize| drawing.model.linked(node, target),
            child,
        );
        assert(drawing.model.linked(node, child));
        let all = crate::sorting::indices(drawing.model.size());
        let n = all.index_of(child);
        assert(all[n] == child);
        assert(drawing.rank(node) < drawing.rank(child));
        lemma_depth(drawing.model.ranks(), child as int);
        lemma_swept_up_stays(drawing, start, reflow, early, start.len(), drawing.rank(child) as int);
    }
    lemma_places_agree(drawing, a, b, children);
}

/// In a rank that is not to be ordered again, the nodes of a connected part stand as their hints
/// say: those with a hint for the rank first, by their former order and then by their former
/// height, and the others behind them by their ids.
#[verifier::rlimit(40)]
pub proof fn lemma_fixed_rank_keeps_hints(
    drawing: Drawing,
    root: usize,
    reflow: Option<Set<usize>>,
    rank: int,
    i: int,
    j: int,
)
    requires
        drawing.model.valid(),
        drawing.model.is_ranking(drawing.model.ranks()),
        0 <= rank < drawing.depth(),
        !may_reflow(reflow, rank as usize),
        0 <= i < j < drawing.final_layers(root, reflow)[rank].len(),
    ensures
        ({
            let a = drawing.final_layers(root, reflow)[rank][i];
            let b = drawing.final_layers(root, reflow)[rank][j];
            let x = drawing.model.ids[a as int];
            let y = drawing.model.ids[b as int];
            let first = drawing.hints.contains_key(x) && drawing.hints[x].rank == rank;
            let second = drawing.hints.contains_key(y) && drawing.hints[y].rank == rank;
            &&& second ==> first
            &&& second ==> drawing.hints[x].order <= drawing.hints[y].order
            &&& second && drawing.hints[x].order == drawing.hints[y].order
                ==> drawing.hints[x].point.y <= drawing.hints[y].point.y
            &&& !first ==> a < b
        }),
{
    let size = drawing.depth();
    let first = drawing.first_layers(root);
    let once = drawing.swept_once(first, reflow);
    crate::layout::crossings::lemma_depth_bounded(drawing.model.ranks());
    lemma_swept_down_size(drawing, first, reflow, size);
    let half = drawing.swept_down(first, reflow, size);
    lemma_swept_up_size(drawing, half, reflow, size);
    lemma_fixed_rank_stays(drawing, first, reflow, size, rank);
    lemma_fixed_rank_stays(drawing, half, reflow, size, rank);
    lemma_swept_down_size(drawing, once, reflow, size);
    let last = drawing.swept_down(once, reflow, size);
    lemma_fixed_rank_stays(drawing, once, reflow, size, rank);
    lemma_fixed_rank_stays(drawing, last, reflow, size, rank);
    let layer = drawing.final_layers(root, reflow)[rank];
    assert(layer == drawing.first_layer(root, rank as usize));
    crate::layout::crossings::lemma_hint_order(drawing);
    let some = crate::layout::components::component_nodes(drawing.model, root).filter(
        |node: usize| drawing.rank(node) == rank as usize,
    );
    some.lemma_sort_by_ensures(drawing.hint_order());
    crate::layout::crossings::lemma_final_layers_hold(drawing, root, reflow);
    let a = layer[i];
    let b = layer[j];
    assert(layer.contains(a) && layer.contains(b));
    assert(drawing.hint_order()(a, b));
    assert(a != b);
}

/// Connected parts are drawn one below the other: in each rank all nodes of one part stand before
/// all nodes of the parts behind it, and the nodes of a part keep the order of the part.
pub proof fn lemma_parts_are_stacked(plan: Plan, first: int, second: int, a: usize, b: usize)
    requires
        plan.valid(),
        0 <= first <= second < plan.roots.len(),
        a < plan.size(),
        b < plan.size(),
        plan.drawing.rank(a) == plan.drawing.rank(b),
        same_component(plan.drawing.model.edges, plan.roots[first], a),
        same_component(plan.drawing.model.edges, plan.roots[second], b),
    ensures
        first < second ==> plan.row(a) < plan.row(b),
        first == second ==> {
            let layer = plan.drawing.final_layers(plan.roots[first], plan.reflow)[plan.drawing.rank(
                a,
            ) as int];
            plan.row(b) - plan.row(a) == layer.index_of(b) - layer.index_of(a)
        },
{
    let rank = plan.drawing.rank(a) as int;
    lemma_depth(plan.drawing.model.ranks(), a as int);
    lemma_row_in_part(plan, plan.roots.len(), first, a);
    lemma_row_in_part(plan, plan.roots.len(), second, b);
    if first < second {
        lemma_parts_grow(plan, (first + 1) as nat, second as nat, rank);
        let layer = plan.drawing.final_layers(plan.roots[second], plan.reflow)[rank];
        let layer_first = plan.drawing.final_layers(plan.roots[first], plan.reflow)[rank];
        assert(plan.packed_upto((first + 1) as nat, rank).len() == plan.packed_upto(
            first as nat,
            rank,
        ).len() + layer_first.len());
    }
}

proof fn lemma_parts_grow(plan: Plan, low: nat, high: nat, rank: int)
    requires
        low <= high,
    ensures
        plan.packed_upto(low, rank).len() <= plan.packed_upto(high, rank).len(),
    decreases high,
{
    if low < high {
        lemma_parts_grow(plan, low, (high - 1) as nat, rank);
    }
}

/// The row of a node is behind the parts before its own, and behind those before it in its part.
#[verifier::rlimit(40)]
proof fn lemma_row_in_part(plan: Plan, count: nat, part: int, node: usize)
    requires
        plan.valid(),
        0 <= part < count <= plan.roots.len(),
        node < plan.size(),
        plan.drawing.rank(node) < plan.drawing.depth(),
        same_component(plan.drawing.model.edges, plan.roots[part], node),
    ensures
        ({
            let rank = plan.drawing.rank(node) as int;
            let layer = plan.drawing.final_layers(plan.roots[part], plan.reflow)[rank];
            &&& plan.packed_upto(count, rank).index_of(node) == plan.packed_upto(part as nat, rank).len()
                + layer.index_of(node)
            &&& 0 <= layer.index_of(node) < layer.len()
        }),
    decreases count,
{
    let rank = plan.drawing.rank(node) as int;
    let before = plan.packed_upto((count - 1) as nat, rank);
    let after = plan.packed_upto(count, rank);
    let layer = plan.drawing.final_layers(plan.roots[part], plan.reflow)[rank];
    assert(layers_hold(
        plan.drawing,
        plan.roots[part],
        plan.drawing.final_layers(plan.roots[part], plan.reflow),
    ));
    assert(layer.contains(node));
    lemma_packed_upto(plan, count, rank);
    if part == count - 1 {
        let n = before.len() + layer.index_of(node);
        assert(after[n] == node);
        assert(after[after.index_of(node)] == node);
    } else {
        lemma_row_in_part(plan, (count - 1) as nat, part, node);
        lemma_packed_upto(plan, (count - 1) as nat, rank);
        let m = plan.packed_upto(part as nat, rank).len() + layer.index_of(node);
        assert(before.contains(node)) by {
            assert(same_component(plan.drawing.model.edges, plan.roots[part], node));
        }
        assert(before[before.index_of(node)] == node);
        assert(after[before.index_of(node)] == node);
        assert(after[after.index_of(node)] == node);
    }
}

/// Whether the nodes of a snapshot with one id are all older than those with another.
pub open spec fn older(snapshot: &GraphSnapshot, id: Seq<char>, other: Seq<char>) -> bool {
    forall|i: int, j: int|
        0 <= i < snapshot.nodes@.len() && 0 <= j < snapshot.nodes@.len() && (
        #[trigger] snapshot.nodes@[i]).id@ == id && (#[trigger] snapshot.nodes@[j]).id@ == other
            ==> snapshot.nodes@[i].created_at_ns < snapshot.nodes@[j].created_at_ns
}

/// Among the connected parts without the main branch, one with a branch is drawn before one
/// without any; of two with branches the one that has a name before all names of the other; and of
/// two without branches the one that has a node older than all nodes of the other.
#[verifier::rlimit(40)]
pub proof fn lemma_parts_in_order(
    snapshot: &GraphSnapshot,
    first: usize,
    second: usize,
    name: Seq<char>,
    old_node: usize,
)
    requires
        preparation(snapshot) is Ok,
        snapshot.nodes@.len() <= u32::MAX,
        is_root(graph_model(snapshot), first),
        is_root(graph_model(snapshot), second),
        !branch_names(snapshot, graph_model(snapshot), first).contains("main"@),
        !branch_names(snapshot, graph_model(snapshot), second).contains("main"@),
        ({
            let model = graph_model(snapshot);
            let x = branch_names(snapshot, model, first);
            let y = branch_names(snapshot, model, second);
            ||| x.contains(name) && forall|other: Seq<char>| #[trigger]
                y.contains(other) ==> crate::text::text_lt(name, other)
            ||| x =~= Set::empty() && y =~= Set::empty() && old_node < model.size() && same_component(
                model.edges,
                first,
                old_node,
            ) && forall|other: usize|
                other < model.size() && #[trigger] same_component(model.edges, second, other) ==> older(
                    snapshot,
                    model.ids[old_node as int],
                    model.ids[other as int],
                )
        }),
    ensures
        ({
            let roots = ordered_roots(snapshot, graph_model(snapshot));
            roots.index_of(first) < roots.index_of(second)
        }),
{
    let model = graph_model(snapshot);
    let roots = ordered_roots(snapshot, model);
    lemma_prepared(snapshot);
    crate::layout::packing::lemma_ordered_roots(snapshot, model);
    crate::layout::components::lemma_root_order(snapshot, model);
    let all = crate::sorting::indices(model.size()).filter(|root: usize| is_root(model, root));
    all.lemma_sort_by_ensures(root_order(snapshot, model));
    assert(roots.contains(first) && roots.contains(second));
    let i = roots.index_of(first);
    let j = roots.index_of(second);
    let x = branch_names(snapshot, model, first);
    let y = branch_names(snapshot, model, second);
    lemma_names_finite(snapshot, model, first);
    lemma_names_finite(snapshot, model, second);
    if x.contains(name) {
        let a = lemma_first_name(x, name);
        lemma_first_name_unique(x, a);
        if y =~= Set::empty() {
            assert forall|other: Seq<char>| !is_first_name(y, other) by {}
        } else {
            let some = y.choose();
            let b = lemma_first_name(y, some);
            lemma_first_name_unique(y, b);
            assert(crate::text::text_lt(name, b));
            if a != name {
                crate::text::lemma_text_lt_transitive(a, name, b);
            }
        }
    } else {
        assert forall|other: Seq<char>| !is_first_name(x, other) && !is_first_name(y, other) by {}
        crate::layout::packing::lemma_same_component(model, first, first, first);
        crate::layout::packing::lemma_same_component(model, second, second, second);
        let oldest = lemma_earliest(snapshot, model, first, first);
        let other = lemma_earliest(snapshot, model, second, second);
        lemma_earliest_unique(snapshot, model, first, oldest);
        lemma_earliest_unique(snapshot, model, second, other);
        assert(same_component(model.edges, first, old_node));
        assert(same_component(model.edges, second, other));
        assert(older(snapshot, model.ids[old_node as int], model.ids[other as int]));
        lemma_age(snapshot, old_node);
        lemma_age(snapshot, other);
    }
    assert(crate::layout::components::priority_before(
        priority_of(snapshot, model, first),
        priority_of(snapshot, model, second),
    ));
    if j <= i {
        assert(root_order(snapshot, model)(roots[j], roots[i])) by {
            if j == i {
                assert(roots[j] == first && roots[j] == second);
            }
        }
        crate::layout::components::lemma_priority_order(
            priority_of(snapshot, model, first),
            priority_of(snapshot, model, second),
            priority_of(snapshot, model, first),
        );
    }
}

/// A part has the names of some branches of the snapshot only.
proof fn lemma_names_finite(snapshot: &GraphSnapshot, model: crate::layout::model::GraphModel, root: usize)
    ensures
        branch_names(snapshot, model, root).finite(),
{
    let all = snapshot.branches@.map_values(|branch: crate::graph::GraphBranch| branch.name@);
    assert forall|name: Seq<char>| branch_names(snapshot, model, root).contains(name) implies all.to_set().contains(
        name,
    ) by {
        let b = choose|b: int|
            0 <= b < snapshot.branches@.len() && (#[trigger] snapshot.branches@[b]).name@ == name
                && crate::layout::components::heads_into(model, root, snapshot.branches@[b]);
        assert(all[b] == name);
    }
    vstd::set_lib::lemma_set_subset_finite(all.to_set(), branch_names(snapshot, model, root));
}

proof fn lemma_first_name(names: Set<Seq<char>>, some: Seq<char>) -> (first: Seq<char>)
    requires
        names.finite(),
        names.contains(some),
    ensures
        is_first_name(names, first),
        first == some || crate::text::text_lt(first, some),
{
    crate::ordered::lemma_sorted_texts_exists(names);
    let sorted = crate::ordered::sorted_texts(names);
    assert(sorted.to_set().contains(some));
    let first = sorted[0];
    assert(sorted.to_set().contains(first));
    assert forall|other: Seq<char>| #[trigger] names.contains(other) implies other == first
        || crate::text::text_lt(first, other) by {
        assert(sorted.to_set().contains(other));
        let n = sorted.index_of(other);
        if n > 0 {
            assert(crate::text::text_lt(sorted[0], sorted[n]));
        }
    }
    first
}

/// The age of a numbered node is that of the node of the snapshot with its id.
proof fn lemma_age(snapshot: &GraphSnapshot, node: usize)
    requires
        preparation(snapshot) is Ok,
        snapshot.nodes@.len() <= u32::MAX,
        node < graph_model(snapshot).size(),
    ensures
        ({
            let ids = crate::layout::model::node_ids(snapshot.nodes@);
            let id = graph_model(snapshot).ids[node as int];
            &&& 0 <= ids.index_of(id) < snapshot.nodes@.len()
            &&& snapshot.nodes@[ids.index_of(id)].id@ == id
            &&& created_at(snapshot, id) == snapshot.nodes@[ids.index_of(id)].created_at_ns
        }),
{
    lemma_prepared(snapshot);
    let ids = crate::layout::model::node_ids(snapshot.nodes@);
    let id = graph_model(snapshot).ids[node as int];
    assert(graph_model(snapshot).ids.to_set().contains(id));
    assert(ids.to_set().contains(id));
    assert(ids[ids.index_of(id)] == id);
}

/// A connected part has an oldest node, the first of the oldest ones.
proof fn lemma_earliest(
    snapshot: &GraphSnapshot,
    model: crate::layout::model::GraphModel,
    root: usize,
    some: usize,
) -> (node: usize)
    requires
        some < model.size(),
        same_component(model.edges, root, some),
    ensures
        is_earliest(snapshot, model, root, node),
{
    lemma_earliest_among(snapshot, model, root, some, model.size())
}

proof fn lemma_earliest_among(
    snapshot: &GraphSnapshot,
    model: crate::layout::model::GraphModel,
    root: usize,
    some: usize,
    count: nat,
) -> (node: usize)
    requires
        some < model.size(),
        same_component(model.edges, root, some),
        count <= model.size(),
    ensures
        node < model.size(),
        same_component(model.edges, root, node),
        forall|other: usize|
            (other < count || other == some) && #[trigger] same_component(model.edges, root, other) ==> {
                let mine = created_at(snapshot, model.ids[node as int]);
                let its = created_at(snapshot, model.ids[other as int]);
                mine < its || (mine == its && node <= other)
            },
    decreases count,
{
    if count == 0 {
        some
    } else {
        let best = lemma_earliest_among(snapshot, model, root, some, (count - 1) as nat);
        let next = (count - 1) as usize;
        let mine = created_at(snapshot, model.ids[best as int]);
        let its = created_at(snapshot, model.ids[next as int]);
        if next < model.size() && same_component(model.edges, root, next) && (its < mine || (its == mine && next
            < best)) {
            next
        } else {
            best
        }
    }
}

proof fn lemma_earliest_unique(
    snapshot: &GraphSnapshot,
    model: crate::layout::model::GraphModel,
    root: usize,
    node: usize,
)
    requires
        is_earliest(snapshot, model, root, node),
    ensures
        node == (choose|other: usize| is_earliest(snapshot, model, root, other)),
{
    let other = choose|other: usize| is_earliest(snapshot, model, root, other);
    assert(is_earliest(snapshot, model, root, other));
    assert(same_component(model.edges, root, node) && same_component(model.edges, root, other));
}

proof fn lemma_first_name_unique(names: Set<Seq<char>>, name: Seq<char>)
    requires
        is_first_name(names, name),
    ensures
        name == (choose|other: Seq<char>| is_first_name(names, other)),
{
    let other = choose|other: Seq<char>| is_first_name(names, other);
    assert(is_first_name(names, other));
    assert(names.contains(name) && names.contains(other));
    if other != name {
        crate::text::lemma_text_lt_asymmetric(name, other);
    }
}

/// The nodes of the connected part with the main branch stand above all others of their rank.
pub proof fn lemma_main_is_on_top(
    snapshot: &GraphSnapshot,
    hints: Map<Seq<char>, LayoutHint>,
    reflow: Option<Set<usize>>,
    main: usize,
    other: usize,
    a: usize,
    b: usize,
)
    requires
        preparation(snapshot) is Ok,
        snapshot.nodes@.len() <= u32::MAX,
        is_root(graph_model(snapshot), main),
        is_root(graph_model(snapshot), other),
        branch_names(snapshot, graph_model(snapshot), main).contains("main"@),
        !branch_names(snapshot, graph_model(snapshot), other).contains("main"@),
        a < snapshot.nodes@.len(),
        b < snapshot.nodes@.len(),
        same_component(graph_model(snapshot).edges, main, a),
        same_component(graph_model(snapshot).edges, other, b),
        graph_model(snapshot).ranks()[a as int] == graph_model(snapshot).ranks()[b as int],
    ensures
        graph_plan(snapshot, hints, reflow).row(a) < graph_plan(snapshot, hints, reflow).row(b),
{
    let plan = graph_plan(snapshot, hints, reflow);
    lemma_prepared(snapshot);
    lemma_plan_valid(snapshot, hints, reflow);
    crate::layout::laws::lemma_main_comes_first(snapshot, main, other);
    assert(plan.roots.contains(main) && plan.roots.contains(other));
    lemma_parts_are_stacked(plan, plan.roots.index_of(main), plan.roots.index_of(other), a, b);
}

/// The ranks after some rounds of sweeps.
pub open spec fn after_rounds(
    drawing: Drawing,
    layers: Seq<Seq<usize>>,
    reflow: Option<Set<usize>>,
    rounds: nat,
) -> Seq<Seq<usize>>
    decreases rounds,
{
    if rounds == 0 {
        layers
    } else {
        let earlier = after_rounds(drawing, layers, reflow, (rounds - 1) as nat);
        drawing.swept_up(drawing.swept_down(earlier, reflow, earlier.len()), reflow, earlier.len())
    }
}

/// A connected part gets its order in two rounds, each down and up, from the order that the hints
/// give.
pub proof fn lemma_two_rounds(drawing: Drawing, root: usize, reflow: Option<Set<usize>>)
    ensures
        drawing.final_layers(root, reflow) == after_rounds(drawing, drawing.first_layers(root), reflow, 2),
{
    let first = drawing.first_layers(root);
    lemma_swept_down_size(drawing, first, reflow, first.len());
    lemma_swept_up_size(
        drawing,
        drawing.swept_down(first, reflow, first.len()),
        reflow,
        first.len(),
    );
    assert(after_rounds(drawing, first, reflow, 0) == first);
    let once = after_rounds(drawing, first, reflow, 1);
    lemma_swept_down_size(drawing, once, reflow, once.len());
    assert(after_rounds(drawing, first, reflow, 2) == drawing.swept_up(
        drawing.swept_down(once, reflow, once.len()),
        reflow,
        once.len(),
    ));
}

/// A sweep down leaves the ranks behind it as they are.
proof fn lemma_swept_down_stays(
    drawing: Drawing,
    layers: Seq<Seq<usize>>,
    reflow: Option<Set<usize>>,
    early: nat,
    late: nat,
    rank: int,
)
    requires
        early <= late <= layers.len(),
        0 <= rank < early,
    ensures
        drawing.swept_down(layers, reflow, late)[rank] == drawing.swept_down(layers, reflow, early)[rank],
    decreases late,
{
    if early < late {
        lemma_swept_down_stays(drawing, layers, reflow, early, (late - 1) as nat, rank);
        lemma_swept_down_size(drawing, layers, reflow, (late - 1) as nat);
    }
}

/// After a sweep down, no node of a rank that was ordered again comes before another one whose
/// parents have the lower mean place.
pub proof fn lemma_nodes_follow_their_parents(
    drawing: Drawing,
    root: usize,
    start: Seq<Seq<usize>>,
    reflow: Option<Set<usize>>,
    rank: int,
    i: int,
    j: int,
)
    requires
        drawing.model.valid(),
        drawing.model.is_ranking(drawing.model.ranks()),
        layers_hold(drawing, root, start),
        0 <= rank < start.len(),
        may_reflow(reflow, rank as usize),
        0 <= i < j < drawing.swept_down(start, reflow, start.len())[rank].len(),
        drawing.model.parent_list(drawing.swept_down(start, reflow, start.len())[rank][i]).len() > 0,
        drawing.model.parent_list(drawing.swept_down(start, reflow, start.len())[rank][j]).len() > 0,
    ensures
        ({
            let layers = drawing.swept_down(start, reflow, start.len());
            let before = drawing.model.parent_list(layers[rank][i]);
            let behind = drawing.model.parent_list(layers[rank][j]);
            places_of(drawing, layers, before) * behind.len() <= places_of(drawing, layers, behind)
                * before.len()
        }),
{
    let size = start.len();
    let layers = drawing.swept_down(start, reflow, size);
    let earlier = drawing.swept_down(start, reflow, rank as nat);
    let order = drawing.sweep_order(earlier, true);
    lemma_swept_down_size(drawing, start, reflow, rank as nat);
    lemma_swept_down_stays(drawing, start, reflow, (rank + 1) as nat, size, rank);
    assert(layers[rank] == earlier[rank].sort_by(order));
    crate::layout::crossings::lemma_sweep_order(drawing, earlier, true);
    earlier[rank].lemma_sort_by_ensures(order);
    let a = layers[rank][i];
    let b = layers[rank][j];
    assert(order(a, b));
    crate::layout::crossings::lemma_swept_down_holds(drawing, root, start, reflow, size);
    assert(layers[rank].contains(a) && layers[rank].contains(b));
    lemma_parent_places(drawing, start, reflow, rank, a);
    lemma_parent_places(drawing, start, reflow, rank, b);
    lemma_places(drawing, earlier, drawing.model.parent_list(a));
    lemma_places(drawing, earlier, drawing.model.parent_list(b));
}

/// The parents of a node have their places once a sweep down comes to the node.
proof fn lemma_parent_places(
    drawing: Drawing,
    start: Seq<Seq<usize>>,
    reflow: Option<Set<usize>>,
    rank: int,
    node: usize,
)
    requires
        drawing.model.valid(),
        drawing.model.is_ranking(drawing.model.ranks()),
        0 <= rank < start.len(),
        node < drawing.model.size(),
        drawing.rank(node) == rank,
    ensures
        places_of(
            drawing,
            drawing.swept_down(start, reflow, rank as nat),
            drawing.model.parent_list(node),
        ) == places_of(
            drawing,
            drawing.swept_down(start, reflow, start.len()),
            drawing.model.parent_list(node),
        ),
{
    let parents = drawing.model.parent_list(node);
    let a = drawing.swept_down(start, reflow, rank as nat);
    let b = drawing.swept_down(start, reflow, start.len());
    assert forall|i: int| #![trigger parents[i]] 0 <= i < parents.len() implies a[drawing.rank(
        parents[i],
    ) as int] == b[drawing.rank(parents[i]) as int] by {
        let parent = parents[i];
        assert(parents.contains(parent));
        crate::sequences::lemma_filter_members(
            crate::sorting::indices(drawing.model.size()),
            |source: usize| drawing.model.linked(source, node),
            parent,
        );
        assert(drawing.model.linked(parent, node));
        assert(drawing.rank(parent) < drawing.rank(node));
        lemma_swept_down_stays(
            drawing,
            start,
            reflow,
            rank as nat,
            start.len(),
            drawing.rank(parent) as int,
        );
    }
    lemma_places_agree(drawing, a, b, parents);
}

/// A sweep is stable: of two nodes that have neighbours with the same mean place and hints that
/// say the same, the one that stood first stands first. A node without neighbours counts as if its
/// own place were their mean.
pub proof fn lemma_sweep_is_stable(
    drawing: Drawing,
    layers: Seq<Seq<usize>>,
    down: bool,
    rank: int,
    i: int,
    j: int,
)
    requires
        0 <= rank < layers.len(),
        layers[rank].no_duplicates(),
        forall|k: int| 0 <= k < layers[rank].len() ==> drawing.rank(#[trigger] layers[rank][k]) == rank,
        0 <= i < j < drawing.swept(layers, down, rank)[rank].len(),
    ensures
        ({
            let a = drawing.swept(layers, down, rank)[rank][i];
            let b = drawing.swept(layers, down, rank)[rank][j];
            let x = drawing.neighbors(down, a);
            let y = drawing.neighbors(down, b);
            let same_hint = drawing.key(a) == drawing.key(b);
            &&& same_hint && x.len() > 0 && y.len() > 0 && places_of(drawing, layers, x) * y.len()
                == places_of(drawing, layers, y) * x.len() ==> layers[rank].index_of(a)
                < layers[rank].index_of(b)
            &&& x.len() == 0 && y.len() == 0 ==> layers[rank].index_of(a) < layers[rank].index_of(b)
        }),
{
    let order = drawing.sweep_order(layers, down);
    let old_layer = layers[rank];
    let sorted = old_layer.sort_by(order);
    crate::layout::crossings::lemma_sweep_order(drawing, layers, down);
    old_layer.lemma_sort_by_ensures(order);
    let a = sorted[i];
    let b = sorted[j];
    assert(order(a, b));
    vstd::seq_lib::to_multiset_contains(sorted, a);
    vstd::seq_lib::to_multiset_contains(sorted, b);
    vstd::seq_lib::to_multiset_contains(old_layer, a);
    vstd::seq_lib::to_multiset_contains(old_layer, b);
    assert(sorted.contains(a) && sorted.contains(b));
    assert(old_layer.contains(a) && old_layer.contains(b));
    old_layer.lemma_multiset_has_no_duplicates();
    sorted.lemma_multiset_has_no_duplicates_conv();
    assert(a != b);
    assert(layers[rank][old_layer.index_of(a)] == a && layers[rank][old_layer.index_of(b)] == b);
    lemma_places(drawing, layers, drawing.neighbors(down, a));
    lemma_places(drawing, layers, drawing.neighbors(down, b));
    let p = drawing.position(layers, a);
    let q = drawing.position(layers, b);
    assert(p == old_layer.index_of(a) && q == old_layer.index_of(b));
    assert(p * 1 == p && q * 1 == q) by (nonlinear_arith);
    let left = drawing.barycenter(layers, down, a);
    let right = drawing.barycenter(layers, down, b);
    if drawing.neighbors(down, a).len() == 0 && drawing.neighbors(down, b).len() == 0 {
        assert(left == (p, 1int) && right == (q, 1int));
        assert(left.0 * right.1 == p && right.0 * left.1 == q);
    }
}

/// A sweep down looks at parents, and a sweep up at children.
pub proof fn lemma_neighbors_of_sweeps(drawing: Drawing, node: usize, other: usize)
    requires
        drawing.model.valid(),
        other < drawing.model.size(),
    ensures
        drawing.neighbors(true, node).contains(other) <==> drawing.model.linked(other, node),
        drawing.neighbors(false, node).contains(other) <==> drawing.model.linked(node, other),
{
    let all = crate::sorting::indices(drawing.model.size());
    assert(all[other as int] == other);
    crate::sequences::lemma_filter_members(
        all,
        |source: usize| drawing.model.linked(source, node),
        other,
    );
    crate::sequences::lemma_filter_members(
        all,
        |target: usize| drawing.model.linked(node, target),
        other,
    );
}

/// A branch counts for a connected part by its visible head: where that is the id of a node of the
/// part.
pub proof fn lemma_branches_of_a_part(
    snapshot: &GraphSnapshot,
    root: usize,
    node: usize,
    branch: int,
)
    requires
        0 <= branch < snapshot.branches@.len(),
        node < graph_model(snapshot).size(),
        snapshot.branches@[branch].visible_head_id matches Some(head) && head@ == graph_model(
            snapshot,
        ).ids[node as int],
        same_component(graph_model(snapshot).edges, root, node),
    ensures
        branch_names(snapshot, graph_model(snapshot), root).contains(snapshot.branches@[branch].name@),
{
    let model = graph_model(snapshot);
    assert(crate::layout::components::holds_id(model, root, model.ids[node as int]));
    assert(crate::layout::components::heads_into(model, root, snapshot.branches@[branch]));
}

} // verus!
