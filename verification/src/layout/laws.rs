//! What holds of every layout.

use vstd::prelude::*;
use crate::graph::GraphSnapshot;
use crate::layout::components::branch_names;
use crate::layout::components::is_root;
use crate::layout::components::ordered_roots;
use crate::layout::components::priority_of;
use crate::layout::components::root_order;
use crate::layout::crossings::lemma_depth;
use crate::layout::layout_fits;
use crate::layout::model::edge_list;
use crate::layout::model::graph_model;
use crate::layout::model::has_both_ends;
use crate::layout::model::is_first_dangling;
use crate::layout::model::node_ids;
use crate::layout::model::parents_in;
use crate::layout::model::EdgeIndex;
use crate::layout::model::GraphModel;
use crate::layout::packing::graph_plan;
use crate::layout::packing::lemma_line;
use crate::layout::packing::lemma_packed;
use crate::layout::packing::lemma_plan_valid;
use crate::layout::packing::lemma_rank_bounded;
use crate::layout::packing::lemma_row_bounded;
use crate::layout::packing::Plan;
use crate::layout::prepare::preparation;
use crate::layout::LayoutHint;
use crate::ordered::lemma_sorted_texts_exists;

verus! {

/// An order of nodes that can be extended until it holds all of them.
proof fn lemma_full_order(model: GraphModel, order: Seq<usize>) -> (full: Seq<usize>)
    requires
        model.valid(),
        model.is_layered(),
        model.is_release_order(order),
    ensures
        model.is_release_order(full),
        forall|node: usize| node < model.size() ==> #[trigger] full.contains(node),
    decreases model.size() - order.len(),
{
    assert forall|v: usize| #[trigger] order.contains(v) implies v < model.size() by {
        assert(order[order.index_of(v)] < model.size());
    }
    crate::layout::crossings::lemma_distinct_bounded(order, model.size());
    if forall|node: usize| node < model.size() ==> #[trigger] order.contains(node) {
        order
    } else {
        let node = choose|node: usize| node < model.size() && !#[trigger] order.contains(node);
        assert(model.released().contains(node));
        let other = choose|other: Seq<usize>|
            model.is_release_order(other) && #[trigger] other.contains(node);
        let next = lemma_first_outside(order, other, other.index_of(node));
        let added = other[next];
        let longer = order.push(added);
        assert forall|i: int| 0 <= i < longer.len() implies (#[trigger] longer[i]) < model.size() by {
            if i < order.len() {
                assert(longer[i] == order[i]);
            }
        }
        assert forall|i: int|
            #![trigger longer[i]]
            0 <= i < longer.len() implies parents_in(model.edges, longer[i]).subset_of(
            longer.take(i).to_set(),
        ) by {
            if i < order.len() {
                assert(longer[i] == order[i]);
                assert(longer.take(i) =~= order.take(i));
            } else {
                assert(longer.take(i) =~= order);
                assert forall|parent: usize| parents_in(model.edges, added).contains(parent) implies order.to_set().contains(
                    parent,
                ) by {
                    assert(other.take(next).to_set().contains(parent));
                    let m = other.take(next).index_of(parent);
                    assert(order.contains(other[m]));
                }
            }
        }
        assert forall|v: usize| #[trigger] longer.contains(v) implies v < model.size() by {
            assert(longer[longer.index_of(v)] < model.size());
        }
        crate::layout::crossings::lemma_distinct_bounded(longer, model.size());
        lemma_full_order(model, longer)
    }
}

/// The first member of a list that another list lacks.
proof fn lemma_first_outside(order: Seq<usize>, other: Seq<usize>, index: int) -> (first: int)
    requires
        0 <= index < other.len(),
        !order.contains(other[index]),
    ensures
        0 <= first <= index,
        !order.contains(other[first]),
        forall|i: int| 0 <= i < first ==> order.contains(#[trigger] other[i]),
    decreases index,
{
    if forall|i: int| 0 <= i < index ==> order.contains(#[trigger] other[i]) {
        index
    } else {
        let earlier = choose|i: int| 0 <= i < index && !order.contains(#[trigger] other[i]);
        lemma_first_outside(order, other, earlier)
    }
}

/// Whether a rank is right for the parents of a node.
spec fn is_ranked(model: GraphModel, ranks: Seq<usize>, node: usize) -> bool {
    &&& forall|parent: usize| #[trigger]
        model.linked(parent, node) ==> ranks[parent as int] < ranks[node as int]
    &&& ranks[node as int] > 0 ==> exists|parent: usize|
        model.linked(parent, node) && ranks[node as int] == ranks[parent as int] + 1
}

/// The member of a finite set with the highest rank.
proof fn lemma_highest_parent(ranks: Seq<usize>, parents: Set<usize>) -> (best: usize)
    requires
        parents.finite(),
        parents.len() > 0,
    ensures
        parents.contains(best),
        forall|parent: usize| #[trigger] parents.contains(parent) ==> ranks[parent as int] <= ranks[best as int],
    decreases parents.len(),
{
    let some = parents.choose();
    let rest = parents.remove(some);
    if rest.len() == 0 {
        assert forall|parent: usize| #[trigger] parents.contains(parent) implies ranks[parent as int]
            <= ranks[some as int] by {
            if parent != some {
                assert(rest.contains(parent));
            }
        }
        some
    } else {
        let best = lemma_highest_parent(ranks, rest);
        assert forall|parent: usize| #[trigger] parents.contains(parent) && parent != some implies rest.contains(
            parent,
        ) by {}
        if ranks[best as int] < ranks[some as int] {
            some
        } else {
            best
        }
    }
}

/// Ranks for the first nodes of an order.
proof fn lemma_ranks_along(model: GraphModel, order: Seq<usize>, count: int) -> (ranks: Seq<usize>)
    requires
        model.valid(),
        model.is_release_order(order),
        0 <= count <= order.len(),
    ensures
        ranks.len() == model.size(),
        forall|i: int| 0 <= i < count ==> is_ranked(model, ranks, #[trigger] order[i]),
        forall|i: int| 0 <= i < ranks.len() ==> #[trigger] ranks[i] <= count,
    decreases count,
{
    if count == 0 {
        Seq::new(model.size(), |i: int| 0usize)
    } else {
        let before = lemma_ranks_along(model, order, count - 1);
        let node = order[count - 1];
        let parents = parents_in(model.edges, node);
        let earlier = order.take(count - 1);
        assert forall|v: usize| #[trigger] order.contains(v) implies v < model.size() by {
            assert(order[order.index_of(v)] < model.size());
        }
        crate::layout::crossings::lemma_distinct_bounded(order, model.size());
        assert forall|parent: usize| #[trigger] parents.contains(parent) implies parent < model.size()
            && parent != node && earlier.contains(parent) by {
            assert(earlier.to_set().contains(parent));
            let m = earlier.index_of(parent);
            assert(order[m] == parent);
        }
        vstd::seq_lib::seq_to_set_is_finite(earlier);
        vstd::set_lib::lemma_len_subset(parents, earlier.to_set());
        let rank: usize = if parents.len() == 0 {
            0
        } else {
            let best = lemma_highest_parent(before, parents);
            assert(before[best as int] <= count - 1);
            (before[best as int] + 1) as usize
        };
        let after = before.update(node as int, rank);
        assert forall|i: int| 0 <= i < count implies is_ranked(model, after, #[trigger] order[i]) by {
            let other = order[i];
            assert forall|parent: usize| #[trigger] model.linked(parent, other) implies parent
                < model.size() && parent != node && after[parent as int] == before[parent as int] by {
                assert(parents_in(model.edges, order[i]).contains(parent));
                assert(order.take(i).to_set().contains(parent));
                let m = order.take(i).index_of(parent);
                assert(order[m] == parent);
            }
            if i < count - 1 {
                assert(is_ranked(model, before, order[i]));
                assert(other != node);
                if after[other as int] > 0 {
                    let parent = choose|parent: usize|
                        model.linked(parent, other) && before[other as int] == before[parent as int] + 1;
                    assert(model.linked(parent, other));
                }
            } else {
                assert forall|parent: usize| #[trigger] model.linked(parent, node) implies after[parent as int]
                    < after[node as int] by {
                    assert(parents.contains(parent));
                    if parents.len() == 0 {
                        assert(parents =~= Set::<usize>::empty());
                    }
                }
                if parents.len() > 0 {
                    let best = lemma_highest_parent(before, parents);
                    assert(model.linked(best, node));
                }
            }
        }
        after
    }
}

/// A graph in which every node can be put behind its parents has a ranking.
pub proof fn lemma_ranking_exists(model: GraphModel)
    requires
        model.valid(),
        model.is_layered(),
    ensures
        model.is_ranking(model.ranks()),
{
    let full = lemma_full_order(model, Seq::empty());
    let ranks = lemma_ranks_along(model, full, full.len() as int);
    assert forall|source: usize, target: usize| #[trigger] model.linked(source, target) implies ranks[source as int]
        < ranks[target as int] by {
        let k = choose|k: int|
            0 <= k < model.edges.len() && (#[trigger] model.edges[k]).source == source
                && model.edges[k].target == target;
        assert(full.contains(target));
        assert(is_ranked(model, ranks, full[full.index_of(target)]));
    }
    assert forall|node: usize|
        #![trigger ranks[node as int]]
        node < model.size() && ranks[node as int] > 0 implies exists|parent: usize|
        model.linked(parent, node) && ranks[node as int] == ranks[parent as int] + 1 by {
        assert(full.contains(node));
        assert(is_ranked(model, ranks, full[full.index_of(node)]));
    }
    assert(model.is_ranking(ranks));
}

/// The graph of a snapshot with distinct ids, whose edges join nodes of it, is valid.
pub proof fn lemma_checked_model(snapshot: &GraphSnapshot)
    requires
        !exists|index: int| crate::layout::model::is_first_duplicate(snapshot.nodes@, index),
        !exists|index: int|
            is_first_dangling(node_ids(snapshot.nodes@).to_set(), snapshot.edges@, index),
        snapshot.nodes@.len() <= u32::MAX,
    ensures
        graph_model(snapshot).valid(),
        graph_model(snapshot).size() == snapshot.nodes@.len(),
        graph_model(snapshot).ids.to_set() == node_ids(snapshot.nodes@).to_set(),
        crate::ordered::strictly_sorted(graph_model(snapshot).ids),
        graph_model(snapshot).edges.to_set() == snapshot.edges@.map_values(
            |edge: crate::graph::GraphEdge|
                crate::layout::model::edge_identity(graph_model(snapshot).ids, edge),
        ).to_set(),
{
    let nodes = snapshot.nodes@;
    let edges = snapshot.edges@;
    let ids = node_ids(nodes);
    let model = graph_model(snapshot);
    vstd::seq_lib::seq_to_set_is_finite(ids);
    lemma_sorted_texts_exists(ids.to_set());
    crate::ordered::lemma_strictly_sorted_no_duplicates(model.ids);
    lemma_no_duplicates(nodes, nodes.len() as int);
    assert(ids.take(nodes.len() as int) =~= ids);
    ids.unique_seq_to_set();
    model.ids.unique_seq_to_set();
    assert forall|i: int| 0 <= i < edges.len() implies has_both_ends(ids.to_set(), #[trigger] edges[i]) by {
        lemma_no_dangling(ids.to_set(), edges, i + 1);
    }
    lemma_edge_list_exists(model.ids, edges);
    assert forall|k: int| 0 <= k < model.edges.len() implies (#[trigger] model.edges[k]).source
        < model.size() && model.edges[k].target < model.size() by {
        let identities = edges.map_values(
            |edge: crate::graph::GraphEdge|
                crate::layout::model::edge_identity(model.ids, edge),
        );
        assert(model.edges.to_set().contains(model.edges[k]));
        assert(identities.to_set().contains(model.edges[k]));
        let i = identities.index_of(model.edges[k]);
        assert(has_both_ends(ids.to_set(), edges[i]));
        assert(model.ids.to_set().contains(edges[i].source@));
        assert(model.ids.to_set().contains(edges[i].target@));
        assert(model.ids.contains(edges[i].source@) && model.ids.contains(edges[i].target@));
    }
}

/// The graph of a snapshot that can be laid out is valid, ranked, and has one node for each
/// node of the snapshot.
pub proof fn lemma_prepared(snapshot: &GraphSnapshot)
    requires
        preparation(snapshot) is Ok,
        snapshot.nodes@.len() <= u32::MAX,
    ensures
        preparation(snapshot)->Ok_0 == graph_model(snapshot),
        graph_model(snapshot).valid(),
        graph_model(snapshot).is_layered(),
        graph_model(snapshot).is_ranking(graph_model(snapshot).ranks()),
        graph_model(snapshot).size() == snapshot.nodes@.len(),
        graph_model(snapshot).ids.to_set() == node_ids(snapshot.nodes@).to_set(),
        crate::ordered::strictly_sorted(graph_model(snapshot).ids),
        graph_model(snapshot).edges.to_set() == snapshot.edges@.map_values(
            |edge: crate::graph::GraphEdge|
                crate::layout::model::edge_identity(graph_model(snapshot).ids, edge),
        ).to_set(),
{
    lemma_checked_model(snapshot);
    lemma_ranking_exists(graph_model(snapshot));
}

pub(crate) proof fn lemma_no_duplicates(nodes: Seq<crate::graph::GraphNode>, count: int)
    requires
        0 <= count <= nodes.len(),
        !exists|index: int| crate::layout::model::is_first_duplicate(nodes, index),
    ensures
        node_ids(nodes).take(count).no_duplicates(),
    decreases count,
{
    if count > 0 {
        lemma_no_duplicates(nodes, count - 1);
        let ids = node_ids(nodes);
        let before = ids.take(count - 1);
        assert(!crate::layout::model::is_first_duplicate(nodes, count - 1));
        assert(ids.take(count) =~= before.push(ids[count - 1]));
        assert forall|i: int, j: int| 0 <= i < count && 0 <= j < count && i != j implies ids.take(count)[i]
            != ids.take(count)[j] by {
            if i < count - 1 && j < count - 1 {
                assert(before[i] != before[j]);
            } else if i < count - 1 {
                assert(before.contains(before[i]));
            } else {
                assert(before.contains(before[j]));
            }
        }
    }
}

pub(crate) proof fn lemma_no_dangling(ids: Set<Seq<char>>, edges: Seq<crate::graph::GraphEdge>, count: int)
    requires
        0 <= count <= edges.len(),
        !exists|index: int| is_first_dangling(ids, edges, index),
    ensures
        forall|i: int| 0 <= i < count ==> has_both_ends(ids, #[trigger] edges[i]),
    decreases count,
{
    if count > 0 {
        lemma_no_dangling(ids, edges, count - 1);
        assert(!is_first_dangling(ids, edges, count - 1));
    }
}

/// The distinct edges can be put in order.
proof fn lemma_edge_list_exists(ids: Seq<Seq<char>>, edges: Seq<crate::graph::GraphEdge>)
    ensures
        crate::sorting::increasing(
            edge_list(ids, edges),
            |a: EdgeIndex, b: EdgeIndex| crate::layout::model::edge_before(a, b),
        ),
        edge_list(ids, edges).to_set() == edges.map_values(
            |edge: crate::graph::GraphEdge| crate::layout::model::edge_identity(ids, edge),
        ).to_set(),
{
    let identities = edges.map_values(
        |edge: crate::graph::GraphEdge| crate::layout::model::edge_identity(ids, edge),
    );
    let list = lemma_sorted_edges(identities, identities.len() as int);
    assert(identities.take(identities.len() as int) =~= identities);
    assert(list.to_set() == identities.to_set());
}

proof fn lemma_sorted_edges(identities: Seq<EdgeIndex>, count: int) -> (list: Seq<EdgeIndex>)
    requires
        0 <= count <= identities.len(),
    ensures
        crate::sorting::increasing(
            list,
            |a: EdgeIndex, b: EdgeIndex| crate::layout::model::edge_before(a, b),
        ),
        list.to_set() == identities.take(count).to_set(),
    decreases count,
{
    let before = |a: EdgeIndex, b: EdgeIndex| crate::layout::model::edge_before(a, b);
    if count == 0 {
        let list = Seq::<EdgeIndex>::empty();
        assert(list.to_set() =~= identities.take(0).to_set());
        list
    } else {
        let shorter = lemma_sorted_edges(identities, count - 1);
        let edge = identities[count - 1];
        crate::layout::prepare::lemma_edge_order();
        assert(identities.take(count) =~= identities.take(count - 1).push(edge));
        assert forall|e: EdgeIndex| identities.take(count).to_set().contains(e) <==> shorter.to_set().insert(
            edge,
        ).contains(e) by {
            crate::sequences::lemma_push_members(identities.take(count - 1), edge, e);
            assert(shorter.to_set().contains(e) <==> identities.take(count - 1).to_set().contains(e));
        }
        assert(identities.take(count).to_set() =~= shorter.to_set().insert(edge));
        if shorter.contains(edge) {
            assert(shorter.to_set().insert(edge) =~= shorter.to_set());
            shorter
        } else {
            let place = lemma_edge_place(shorter, edge, shorter.len() as int);
            crate::sorting::lemma_increasing_insert(shorter, place, edge, before);
            shorter.insert(place, edge)
        }
    }
}

proof fn lemma_edge_place(list: Seq<EdgeIndex>, edge: EdgeIndex, count: int) -> (place: int)
    requires
        crate::sorting::increasing(
            list,
            |a: EdgeIndex, b: EdgeIndex| crate::layout::model::edge_before(a, b),
        ),
        !list.contains(edge),
        0 <= count <= list.len(),
        forall|i: int|
            count <= i < list.len() ==> crate::layout::model::edge_before(edge, #[trigger] list[i]),
    ensures
        0 <= place <= list.len(),
        forall|i: int| 0 <= i < place ==> crate::layout::model::edge_before(#[trigger] list[i], edge),
        forall|i: int|
            place <= i < list.len() ==> crate::layout::model::edge_before(edge, #[trigger] list[i]),
    decreases count,
{
    crate::layout::prepare::lemma_edge_order();
    if count == 0 {
        0
    } else if crate::layout::model::edge_before(list[count - 1], edge) {
        assert forall|i: int| 0 <= i < count implies crate::layout::model::edge_before(
            #[trigger] list[i],
            edge,
        ) by {
            if i < count - 1 {
                assert(crate::layout::model::edge_before(list[i], list[count - 1]));
            }
        }
        count
    } else {
        assert(list.contains(list[count - 1]));
        lemma_edge_place(list, edge, count - 1)
    }
}

/// Every edge of a layout leads to a higher rank.
pub proof fn lemma_edges_go_forward(snapshot: &GraphSnapshot, edge: int)
    requires
        preparation(snapshot) is Ok,
        snapshot.nodes@.len() <= u32::MAX,
        0 <= edge < graph_model(snapshot).edges.len(),
    ensures
        ({
            let model = graph_model(snapshot);
            model.ranks()[model.edges[edge].source as int] < model.ranks()[model.edges[edge].target as int]
        }),
{
    lemma_prepared(snapshot);
    let model = graph_model(snapshot);
    assert(model.linked(model.edges[edge].source, model.edges[edge].target));
}

/// The ranks of a layout leave no gap: below the rank of a node every rank has a node.
pub proof fn lemma_ranks_have_no_gaps(snapshot: &GraphSnapshot, node: usize, rank: usize)
    requires
        preparation(snapshot) is Ok,
        snapshot.nodes@.len() <= u32::MAX,
        node < graph_model(snapshot).size(),
        rank <= graph_model(snapshot).ranks()[node as int],
    ensures
        exists|other: usize|
            other < graph_model(snapshot).size() && graph_model(snapshot).ranks()[other as int] == rank,
{
    lemma_prepared(snapshot);
    let model = graph_model(snapshot);
    let chain = crate::layout::packing::lemma_rank_chain(model, node);
    let other = chain[rank as int];
    assert(model.ranks()[other as int] == rank);
}

/// The nodes of a snapshot that can be laid out have distinct ids.
pub proof fn lemma_snapshot_ids_distinct(snapshot: &GraphSnapshot)
    requires
        preparation(snapshot) is Ok,
    ensures
        node_ids(snapshot.nodes@).no_duplicates(),
{
    let ids = node_ids(snapshot.nodes@);
    lemma_no_duplicates(snapshot.nodes@, snapshot.nodes@.len() as int);
    assert(ids.take(snapshot.nodes@.len() as int) =~= ids);
}

/// The ends of the edges of a snapshot that can be laid out are nodes of it.
pub proof fn lemma_ends_known(snapshot: &GraphSnapshot, edge: int)
    requires
        preparation(snapshot) is Ok,
        0 <= edge < snapshot.edges@.len(),
    ensures
        node_ids(snapshot.nodes@).contains(snapshot.edges@[edge].source@),
        node_ids(snapshot.nodes@).contains(snapshot.edges@[edge].target@),
{
    let ids = node_ids(snapshot.nodes@).to_set();
    lemma_no_dangling(ids, snapshot.edges@, edge + 1);
    assert(has_both_ends(ids, snapshot.edges@[edge]));
}

/// The numbered edges of a snapshot that can be laid out are distinct and in order.
pub proof fn lemma_edges_in_order(snapshot: &GraphSnapshot)
    requires
        preparation(snapshot) is Ok,
    ensures
        ({
            let edges = graph_model(snapshot).edges;
            forall|a: int, b: int|
                0 <= a < b < edges.len() ==> crate::layout::model::edge_before(
                    #[trigger] edges[a],
                    #[trigger] edges[b],
                )
        }),
{
    lemma_edge_list_exists(graph_model(snapshot).ids, snapshot.edges@);
}

/// There are no more numbered edges than edges of the snapshot.
pub proof fn lemma_edge_count(snapshot: &GraphSnapshot)
    ensures
        graph_model(snapshot).edges.len() <= snapshot.edges@.len(),
{
    let ids = graph_model(snapshot).ids;
    let edges = graph_model(snapshot).edges;
    let identities = snapshot.edges@.map_values(
        |edge: crate::graph::GraphEdge| crate::layout::model::edge_identity(ids, edge),
    );
    lemma_edge_list_exists(ids, snapshot.edges@);
    assert(edges.no_duplicates()) by {
        assert forall|a: int, b: int|
            0 <= a < edges.len() && 0 <= b < edges.len() && a != b implies edges[a] != edges[b] by {
            if a < b {
                assert(crate::layout::model::edge_before(edges[a], edges[b]));
            } else {
                assert(crate::layout::model::edge_before(edges[b], edges[a]));
            }
        }
    }
    edges.unique_seq_to_set();
    identities.lemma_cardinality_of_set();
}

/// A layout shows every node of the snapshot exactly once.
pub proof fn lemma_every_node_once(
    snapshot: &GraphSnapshot,
    hints: Map<Seq<char>, LayoutHint>,
    reflow: Option<Set<usize>>,
)
    requires
        preparation(snapshot) is Ok,
        snapshot.nodes@.len() <= u32::MAX,
    ensures
        graph_plan(snapshot, hints, reflow).sequence().no_duplicates(),
        forall|node: usize| #[trigger]
            graph_plan(snapshot, hints, reflow).sequence().contains(node) <==> node
                < snapshot.nodes@.len(),
{
    let plan = graph_plan(snapshot, hints, reflow);
    lemma_prepared(snapshot);
    lemma_lines_upto(plan, plan.drawing.depth());
    assert forall|node: usize| #[trigger] plan.sequence().contains(node) <==> node
        < snapshot.nodes@.len() by {
        if node < plan.size() {
            lemma_depth(plan.drawing.model.ranks(), node as int);
        }
    }
}

proof fn lemma_lines_upto(plan: Plan, count: nat)
    requires
        plan.drawing.model.valid(),
    ensures
        plan.lines_upto(count).no_duplicates(),
        forall|node: usize| #[trigger]
            plan.lines_upto(count).contains(node) <==> node < plan.size() && plan.drawing.rank(node)
                < count,
    decreases count,
{
    if count > 0 {
        lemma_lines_upto(plan, (count - 1) as nat);
        lemma_line(plan, count - 1);
        let before = plan.lines_upto((count - 1) as nat);
        let added = plan.line(count - 1);
        let after = plan.lines_upto(count);
        assert forall|node: usize| #[trigger] after.contains(node) <==> before.contains(node)
            || added.contains(node) by {
            if before.contains(node) {
                assert(after[before.index_of(node)] == node);
            }
            if added.contains(node) {
                assert(after[before.len() + added.index_of(node)] == node);
            }
            if after.contains(node) {
                let n = after.index_of(node);
                if n < before.len() {
                    assert(before[n] == node);
                } else {
                    assert(added[n - before.len()] == node);
                }
            }
        }
        assert forall|i: int, j: int|
            0 <= i < after.len() && 0 <= j < after.len() && i != j implies after[i] != after[j] by {
            if i < before.len() {
                assert(before.contains(after[i]));
            } else {
                assert(added[i - before.len()] == after[i]);
                assert(added.contains(after[i]));
            }
            if j < before.len() {
                assert(before.contains(after[j]));
            } else {
                assert(added[j - before.len()] == after[j]);
                assert(added.contains(after[j]));
            }
        }
    }
}

/// Without fixed hints no two nodes share a point.
pub proof fn lemma_points_are_distinct(
    snapshot: &GraphSnapshot,
    hints: Map<Seq<char>, LayoutHint>,
    a: usize,
    b: usize,
)
    requires
        preparation(snapshot) is Ok,
        snapshot.nodes@.len() <= u32::MAX,
        layout_fits(snapshot, hints, None),
        a < snapshot.nodes@.len(),
        b < snapshot.nodes@.len(),
        graph_plan(snapshot, hints, None).point(a) == graph_plan(snapshot, hints, None).point(b),
    ensures
        a == b,
{
    let plan = graph_plan(snapshot, hints, None);
    lemma_prepared(snapshot);
    lemma_plan_valid(snapshot, hints, None);
    lemma_depth(plan.drawing.model.ranks(), a as int);
    lemma_depth(plan.drawing.model.ranks(), b as int);
    lemma_packed(plan, plan.drawing.rank(a) as int);
    lemma_packed(plan, plan.drawing.rank(b) as int);
    let line = plan.packed(plan.drawing.rank(a) as int);
    assert(line.contains(a));
    assert(plan.packed(plan.drawing.rank(b) as int).contains(b));
    lemma_row_bounded(plan, a);
    lemma_row_bounded(plan, b);
    assert(plan.drawing.rank(a) == plan.drawing.rank(b));
    assert(plan.row(a) == plan.row(b));
    assert(line[line.index_of(a)] == a);
    assert(line[line.index_of(b)] == b);
}

/// Each rank is tightly packed: before the row of a node every row of its rank has a node.
pub proof fn lemma_rows_have_no_gaps(
    snapshot: &GraphSnapshot,
    hints: Map<Seq<char>, LayoutHint>,
    reflow: Option<Set<usize>>,
    node: usize,
    row: int,
)
    requires
        preparation(snapshot) is Ok,
        snapshot.nodes@.len() <= u32::MAX,
        node < snapshot.nodes@.len(),
        0 <= row < graph_plan(snapshot, hints, reflow).row(node),
    ensures
        ({
            let plan = graph_plan(snapshot, hints, reflow);
            exists|other: usize|
                other < plan.size() && plan.drawing.rank(other) == plan.drawing.rank(node)
                    && #[trigger] plan.row(other) == row
        }),
{
    let plan = graph_plan(snapshot, hints, reflow);
    lemma_prepared(snapshot);
    lemma_plan_valid(snapshot, hints, reflow);
    let rank = plan.drawing.rank(node) as int;
    lemma_depth(plan.drawing.model.ranks(), node as int);
    lemma_packed(plan, rank);
    let line = plan.packed(rank);
    assert(line.contains(node));
    let other = line[row];
    assert(line.contains(other));
    assert(line.index_of(other) == row);
    assert(plan.row(other) == row);
}

/// A port line is no longer than the list of edges.
proof fn lemma_port_line_bounded(plan: Plan, at_source: bool, node: usize)
    requires
        plan.drawing.model.edges.len() <= usize::MAX,
    ensures
        plan.port_line(at_source, node).len() <= plan.drawing.model.edges.len(),
{
    crate::layout::routes::lemma_port_line(plan, at_source, node);
    crate::layout::crossings::lemma_distinct_bounded(
        plan.port_line(at_source, node),
        plan.drawing.model.edges.len(),
    );
}

/// Ports stay within their range.
proof fn lemma_port_bounded(plan: Plan, at_source: bool, edge: int)
    requires
        plan.drawing.model.edges.len() <= usize::MAX,
        0 <= edge < plan.drawing.model.edges.len(),
    ensures
        -12 <= plan.port(at_source, edge) <= 12,
{
    let node = crate::layout::routes::edge_end(plan.drawing.model.edges[edge], at_source);
    let line = plan.port_line(at_source, node);
    crate::layout::routes::lemma_port_line(plan, at_source, node);
    assert(line.contains(edge as usize));
    let index = line.index_of(edge as usize);
    let count = line.len() as int;
    if count > 1 {
        assert(0 <= (index * 24) / (count - 1) <= 24) by (nonlinear_arith)
            requires
                0 <= index <= count - 1,
                count > 1,
        ;
    }
}

/// Snapshots of moderate size, with hints at moderate points, have layouts whose coordinates
/// fit.
pub proof fn lemma_moderate_layouts_fit(
    snapshot: &GraphSnapshot,
    hints: Map<Seq<char>, LayoutHint>,
    reflow: Option<Set<usize>>,
)
    requires
        snapshot.nodes@.len() <= 170_000,
        snapshot.edges@.len() <= 80_000_000,
        forall|id: Seq<char>| #[trigger]
            hints.contains_key(id) ==> -20_000_000 <= hints[id].point.x <= 20_000_000 && -20_000_000
                <= hints[id].point.y <= 20_000_000,
    ensures
        layout_fits(snapshot, hints, reflow),
{
    if preparation(snapshot) is Ok {
        let plan = graph_plan(snapshot, hints, reflow);
        let model = plan.drawing.model;
        lemma_prepared(snapshot);
        lemma_plan_valid(snapshot, hints, reflow);
        assert forall|node: usize|
            #![trigger plan.row(node)]
            node < plan.size() implies 56 + plan.drawing.rank(node) * 112 <= 20_000_000 && 56 + plan.row(
            node,
        ) * 72 <= 20_000_000 by {
            lemma_rank_bounded(model, node);
            lemma_row_bounded(plan, node);
        }
        lemma_edges_counted(snapshot);
        assert forall|at_source: bool, node: usize| node < plan.size() implies (#[trigger] plan.port_line(
            at_source,
            node,
        )).len() * 24 <= i32::MAX by {
            lemma_port_line_bounded(plan, at_source, node);
        }
        assert forall|edge: int|
            #![trigger model.edges[edge]]
            0 <= edge < model.edges.len() implies crate::layout::routes::curve_fits(
            plan.point(model.edges[edge].source),
            plan.port(true, edge),
            plan.point(model.edges[edge].target),
            plan.port(false, edge),
        ) by {
            let source = model.edges[edge].source;
            let target = model.edges[edge].target;
            lemma_port_bounded(plan, true, edge);
            lemma_port_bounded(plan, false, edge);
            lemma_row_bounded(plan, source);
            lemma_row_bounded(plan, target);
            assert(56 + plan.row(source) * 72 <= 20_000_000);
            assert(56 + plan.row(target) * 72 <= 20_000_000);
        }
    }
}

/// There are no more distinct edges than edges.
proof fn lemma_edges_counted(snapshot: &GraphSnapshot)
    requires
        preparation(snapshot) is Ok,
        snapshot.nodes@.len() <= u32::MAX,
    ensures
        graph_model(snapshot).edges.len() <= snapshot.edges@.len(),
{
    lemma_edge_count(snapshot);
}

/// The connected part with the main branch is drawn before all others.
pub proof fn lemma_main_comes_first(snapshot: &GraphSnapshot, main: usize, other: usize)
    requires
        preparation(snapshot) is Ok,
        snapshot.nodes@.len() <= u32::MAX,
        is_root(graph_model(snapshot), main),
        is_root(graph_model(snapshot), other),
        branch_names(snapshot, graph_model(snapshot), main).contains("main"@),
        !branch_names(snapshot, graph_model(snapshot), other).contains("main"@),
    ensures
        ({
            let roots = ordered_roots(snapshot, graph_model(snapshot));
            roots.index_of(main) < roots.index_of(other)
        }),
{
    let model = graph_model(snapshot);
    let roots = ordered_roots(snapshot, model);
    lemma_prepared(snapshot);
    crate::layout::packing::lemma_ordered_roots(snapshot, model);
    crate::layout::components::lemma_root_order(snapshot, model);
    let all = crate::sorting::indices(model.size()).filter(|root: usize| is_root(model, root));
    all.lemma_sort_by_ensures(root_order(snapshot, model));
    assert(roots.contains(main) && roots.contains(other));
    let i = roots.index_of(main);
    let j = roots.index_of(other);
    assert(priority_of(snapshot, model, main).class == 0);
    assert(priority_of(snapshot, model, other).class > 0);
    if j < i {
        assert(root_order(snapshot, model)(roots[j], roots[i]));
    }
}

/// Whether each node of a list is a parent of the next one.
pub open spec fn is_path(model: GraphModel, path: Seq<usize>) -> bool {
    forall|i: int|
        0 <= i < path.len() - 1 ==> model.linked(#[trigger] path[i], path[i + 1])
}

/// Whether a path comes back to where it starts.
pub open spec fn is_cycle(model: GraphModel, path: Seq<usize>) -> bool {
    path.len() >= 2 && path.first() == path.last() && is_path(model, path)
}

/// Whether the graph has no cycle.
pub open spec fn is_acyclic(model: GraphModel) -> bool {
    forall|path: Seq<usize>| !#[trigger] is_cycle(model, path)
}

/// Ranks rise along a path.
proof fn lemma_ranks_rise(model: GraphModel, ranks: Seq<usize>, path: Seq<usize>)
    requires
        model.is_ranking(ranks),
        is_path(model, path),
        path.len() >= 2,
    ensures
        ranks[path.first() as int] < ranks[path.last() as int],
    decreases path.len(),
{
    let rest = path.drop_last();
    let n = path.len() - 2;
    assert(model.linked(path[n], path[n + 1]));
    if rest.len() >= 2 {
        assert forall|i: int| 0 <= i < rest.len() - 1 implies model.linked(
            #[trigger] rest[i],
            rest[i + 1],
        ) by {
            assert(model.linked(path[i], path[i + 1]));
        }
        lemma_ranks_rise(model, ranks, rest);
        assert(rest.last() == path[n]);
    }
}

/// An order that cannot be extended any further.
proof fn lemma_longest_order(model: GraphModel, order: Seq<usize>) -> (longest: Seq<usize>)
    requires
        model.is_release_order(order),
    ensures
        model.is_release_order(longest),
        forall|node: usize|
            node < model.size() && !longest.contains(node) ==> !(#[trigger] parents_in(
                model.edges,
                node,
            ).subset_of(longest.to_set())),
    decreases model.size() - order.len(),
{
    assert forall|v: usize| #[trigger] order.contains(v) implies v < model.size() by {
        assert(order[order.index_of(v)] < model.size());
    }
    crate::layout::crossings::lemma_distinct_bounded(order, model.size());
    if exists|node: usize|
        node < model.size() && !order.contains(node) && #[trigger] parents_in(
            model.edges,
            node,
        ).subset_of(order.to_set()) {
        let node = choose|node: usize|
            node < model.size() && !order.contains(node) && #[trigger] parents_in(
                model.edges,
                node,
            ).subset_of(order.to_set());
        let longer = order.push(node);
        assert forall|i: int| 0 <= i < longer.len() implies (#[trigger] longer[i]) < model.size() by {
            if i < order.len() {
                assert(longer[i] == order[i]);
            }
        }
        assert forall|i: int|
            #![trigger longer[i]]
            0 <= i < longer.len() implies parents_in(model.edges, longer[i]).subset_of(
            longer.take(i).to_set(),
        ) by {
            if i < order.len() {
                assert(longer[i] == order[i]);
                assert(longer.take(i) =~= order.take(i));
            } else {
                assert(longer.take(i) =~= order);
            }
        }
        assert forall|v: usize| #[trigger] longer.contains(v) implies v < model.size() by {
            assert(longer[longer.index_of(v)] < model.size());
        }
        crate::layout::crossings::lemma_distinct_bounded(longer, model.size());
        lemma_longest_order(model, longer)
    } else {
        order
    }
}

/// A path that ends at a node outside an order, where each node outside has a parent outside.
proof fn lemma_path_outside(
    model: GraphModel,
    order: Seq<usize>,
    node: usize,
    length: nat,
) -> (path: Seq<usize>)
    requires
        model.valid(),
        node < model.size(),
        !order.contains(node),
        length > 0,
        forall|v: usize|
            v < model.size() && !order.contains(v) ==> !(#[trigger] parents_in(
                model.edges,
                v,
            ).subset_of(order.to_set())),
    ensures
        path.len() == length,
        path.last() == node,
        is_path(model, path),
        forall|v: usize| #[trigger] path.contains(v) ==> v < model.size(),
    decreases length,
{
    if length == 1 {
        let path = seq![node];
        assert(path.last() == node);
        path
    } else {
        assert(!parents_in(model.edges, node).subset_of(order.to_set()));
        let parent = choose|parent: usize|
            parents_in(model.edges, node).contains(parent) && !order.to_set().contains(parent);
        let k = choose|k: int|
            0 <= k < model.edges.len() && (#[trigger] model.edges[k]).source == parent
                && model.edges[k].target == node;
        assert(model.edges[k].source < model.size());
        let rest = lemma_path_outside(model, order, parent, (length - 1) as nat);
        let path = rest.push(node);
        assert forall|i: int| 0 <= i < path.len() - 1 implies model.linked(
            #[trigger] path[i],
            path[i + 1],
        ) by {
            if i < rest.len() - 1 {
                assert(model.linked(rest[i], rest[i + 1]));
            } else {
                assert(path[i] == rest.last());
                assert(model.linked(parent, node));
            }
        }
        assert forall|v: usize| #[trigger] path.contains(v) implies v < model.size() by {
            crate::sequences::lemma_push_members(rest, node, v);
        }
        path
    }
}

/// A graph can be laid out in ranks exactly when it has no cycle. Any number of edges may join
/// two nodes.
pub proof fn lemma_layered_iff_acyclic(model: GraphModel)
    requires
        model.valid(),
    ensures
        model.is_layered() <==> is_acyclic(model),
{
    if model.is_layered() {
        lemma_ranking_exists(model);
        assert forall|path: Seq<usize>| !#[trigger] is_cycle(model, path) by {
            if is_cycle(model, path) {
                lemma_ranks_rise(model, model.ranks(), path);
            }
        }
    } else {
        let stuck = choose|node: usize| node < model.size() && !#[trigger] model.released().contains(node);
        let order = lemma_longest_order(model, Seq::empty());
        if order.contains(stuck) {
            assert(model.is_release_order(order) && order.contains(stuck));
        }
        let path = lemma_path_outside(model, order, stuck, model.size() + 1);
        if path.no_duplicates() {
            crate::layout::crossings::lemma_distinct_bounded(path, model.size());
        }
        let (i, j) = choose|i: int, j: int|
            0 <= i < j < path.len() && #[trigger] path[i] == #[trigger] path[j];
        let cycle = path.subrange(i, j + 1);
        assert forall|k: int| 0 <= k < cycle.len() - 1 implies model.linked(
            #[trigger] cycle[k],
            cycle[k + 1],
        ) by {
            assert(model.linked(path[i + k], path[i + k + 1]));
        }
        assert(is_cycle(model, cycle));
    }
}

/// A graph that is not layered has a first node that cannot be put behind its parents.
pub proof fn lemma_first_stuck(model: GraphModel) -> (node: usize)
    requires
        model.valid(),
        !model.is_layered(),
    ensures
        model.is_first_stuck(node),
{
    let stuck = choose|node: usize| node < model.size() && !#[trigger] model.released().contains(node);
    lemma_first_stuck_below(model, stuck)
}

proof fn lemma_first_stuck_below(model: GraphModel, stuck: usize) -> (node: usize)
    requires
        stuck < model.size(),
        !model.released().contains(stuck),
    ensures
        model.is_first_stuck(node),
    decreases stuck,
{
    if exists|other: usize| other < stuck && !#[trigger] model.released().contains(other) {
        let other = choose|other: usize| other < stuck && !#[trigger] model.released().contains(other);
        lemma_first_stuck_below(model, other)
    } else {
        stuck
    }
}

/// A path that ends in an order has no more nodes than the order up to there.
proof fn lemma_path_in_order(model: GraphModel, order: Seq<usize>, place: int, path: Seq<usize>)
    requires
        model.is_release_order(order),
        0 <= place < order.len(),
        is_path(model, path),
        path.len() > 0,
        path.last() == order[place],
    ensures
        path.len() <= place + 1,
    decreases path.len(),
{
    if path.len() > 1 {
        let rest = path.drop_last();
        let n = path.len() - 2;
        assert(model.linked(path[n], path[n + 1]));
        assert(parents_in(model.edges, order[place]).subset_of(order.take(place).to_set()));
        assert(order.take(place).to_set().contains(path[n]));
        let earlier = order.take(place).index_of(path[n]);
        assert(order.take(place)[earlier] == order[earlier]);
        assert forall|i: int| 0 <= i < rest.len() - 1 implies model.linked(
            #[trigger] rest[i],
            rest[i + 1],
        ) by {
            assert(model.linked(path[i], path[i + 1]));
        }
        lemma_path_in_order(model, order, earlier, rest);
    }
}

/// The node that is named for a cycle lies on one or behind one: paths of any length end at it. It
/// is the first of these by its id: paths to the nodes before it have no more nodes than the
/// graph.
pub proof fn lemma_cycle_is_named(snapshot: &GraphSnapshot, length: nat, other: usize, path: Seq<usize>) -> (found:
    (usize, Seq<usize>))
    requires
        snapshot.nodes@.len() <= u32::MAX,
        preparation(snapshot) is Err,
        preparation(snapshot)->Err_0 is Cycle,
        length > 0,
        is_path(graph_model(snapshot), path),
        path.len() > 0,
        path.last() == other,
        other < graph_model(snapshot).size(),
    ensures
        ({
            let model = graph_model(snapshot);
            let (node, endless) = found;
            &&& node < model.size()
            &&& preparation(snapshot)->Err_0 == (crate::layout::GraphLayoutErrorView::Cycle {
                node_id: model.ids[node as int],
            })
            &&& is_path(model, endless) && endless.len() == length && endless.last() == node
            &&& other < node ==> path.len() <= model.size()
        }),
{
    let model = graph_model(snapshot);
    lemma_checked_model(snapshot);
    let first = lemma_first_stuck(model);
    let node = choose|node: usize| model.is_first_stuck(node);
    assert(model.is_first_stuck(node));
    let order = lemma_longest_order(model, Seq::empty());
    if order.contains(node) {
        assert(model.is_release_order(order) && order.contains(node));
    }
    let endless = lemma_path_outside(model, order, node, length);
    if other < node {
        assert(model.released().contains(other));
        let reaching = choose|reaching: Seq<usize>|
            model.is_release_order(reaching) && #[trigger] reaching.contains(other);
        lemma_path_in_order(model, reaching, reaching.index_of(other), path);
        assert forall|v: usize| #[trigger] reaching.contains(v) implies v < model.size() by {
            assert(reaching[reaching.index_of(v)] < model.size());
        }
        crate::layout::crossings::lemma_distinct_bounded(reaching, model.size());
    }
    (node, endless)
}

} // verus!
