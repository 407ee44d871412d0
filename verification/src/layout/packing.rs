//! Packing the connected parts into common ranks, and placing the nodes.

use vstd::prelude::*;
use vstd::relations::total_ordering;
use std::collections::BTreeSet;
use crate::api::Point;
use crate::graph::GraphSnapshot;
use crate::layout::components::is_root;
use crate::layout::components::ordered_components;
use crate::layout::components::ordered_roots;
use crate::layout::components::root_order;
use crate::layout::components::same_component;
use crate::layout::components::Component;
use crate::layout::crossings::hint_keys;
use crate::layout::crossings::layers_hold;
use crate::layout::crossings::lemma_depth;
use crate::layout::crossings::lemma_distinct_bounded;
use crate::layout::crossings::lemma_final_layers_hold;
use crate::layout::crossings::lists;
use crate::layout::crossings::order_component;
use crate::layout::crossings::rank_depth;
use crate::layout::crossings::reflow_view;
use crate::layout::crossings::Drawing;
use crate::layout::model::graph_model;
use crate::layout::model::GraphModel;
use crate::layout::prepare::PreparedGraph;
use crate::layout::LayoutHint;
use crate::layout::GRAPH_PADDING;
use crate::layout::GRAPH_RANK_STEP;
use crate::layout::GRAPH_ROW_STEP;
use crate::ordered::TextMap;
use crate::sequences::lemma_filter_members;
use crate::sorting::indices;
use crate::sorting::sort_indices;
use crate::sorting::Precedence;

verus! {

broadcast use vstd::std_specs::btree::group_btree_axioms;

/// A whole layout: a drawing, the order of its connected parts, and the ranks that may be
/// ordered again.
#[verifier::ext_equal]
pub struct Plan {
    pub drawing: Drawing,
    pub roots: Seq<usize>,
    pub reflow: Option<Set<usize>>,
}

/// The layout of a snapshot.
pub open spec fn graph_plan(
    snapshot: &GraphSnapshot,
    hints: Map<Seq<char>, LayoutHint>,
    reflow: Option<Set<usize>>,
) -> Plan {
    let model = graph_model(snapshot);
    Plan { drawing: Drawing { model, hints }, roots: ordered_roots(snapshot, model), reflow }
}

impl Plan {
    /// How many nodes there are.
    pub open spec fn size(self) -> nat {
        self.drawing.model.size()
    }

    /// The nodes of a rank, over the first connected parts, one part behind the other.
    pub open spec fn packed_upto(self, count: nat, rank: int) -> Seq<usize>
        decreases count,
    {
        if count == 0 {
            Seq::empty()
        } else {
            self.packed_upto((count - 1) as nat, rank) + self.drawing.final_layers(
                self.roots[count - 1],
                self.reflow,
            )[rank]
        }
    }

    /// The nodes of a rank, one connected part behind the other.
    pub open spec fn packed(self, rank: int) -> Seq<usize> {
        self.packed_upto(self.roots.len(), rank)
    }

    /// The row of a node in the packed rank.
    pub open spec fn row(self, node: usize) -> int {
        self.packed(self.drawing.rank(node) as int).index_of(node)
    }

    /// Whether a node stays at the point of its hint: the hint is for its rank, and its rank
    /// is not among those to be ordered again.
    pub open spec fn keeps_hint(self, node: usize) -> bool {
        let id = self.drawing.model.ids[node as int];
        let rank = self.drawing.rank(node);
        &&& self.drawing.hints.contains_key(id)
        &&& self.drawing.hints[id].rank == rank
        &&& self.reflow matches Some(ranks) && !ranks.contains(rank)
    }

    /// Where a node is drawn.
    pub open spec fn point(self, node: usize) -> Point {
        if self.keeps_hint(node) {
            self.drawing.hints[self.drawing.model.ids[node as int]].point
        } else {
            Point {
                x: (GRAPH_PADDING + self.drawing.rank(node) * GRAPH_RANK_STEP) as i32,
                y: (GRAPH_PADDING + self.row(node) * GRAPH_ROW_STEP) as i32,
            }
        }
    }

    /// Whether the coordinates of the slots of all nodes are within bounds.
    pub open spec fn slots_fit(self) -> bool {
        forall|node: usize|
            #![trigger self.row(node)]
            node < self.size() ==> GRAPH_PADDING + self.drawing.rank(node) * GRAPH_RANK_STEP
                <= i32::MAX && GRAPH_PADDING + self.row(node) * GRAPH_ROW_STEP <= i32::MAX
    }

    /// Nodes ordered by height.
    pub open spec fn height_order(self) -> spec_fn(usize, usize) -> bool {
        |a: usize, b: usize|
            self.point(a).y < self.point(b).y || (self.point(a).y == self.point(b).y && a <= b)
    }

    /// The nodes of a rank from top to bottom.
    pub open spec fn line(self, rank: int) -> Seq<usize> {
        indices(self.size()).filter(|node: usize| self.drawing.rank(node) == rank).sort_by(
            self.height_order(),
        )
    }

    /// The place of a node among those of its rank, from top to bottom.
    pub open spec fn order(self, node: usize) -> int {
        self.line(self.drawing.rank(node) as int).index_of(node)
    }

    /// The nodes before a rank, rank by rank.
    pub open spec fn lines_upto(self, count: nat) -> Seq<usize>
        decreases count,
    {
        if count == 0 {
            Seq::empty()
        } else {
            self.lines_upto((count - 1) as nat) + self.line(count - 1)
        }
    }

    /// All nodes, rank by rank and from top to bottom.
    pub open spec fn sequence(self) -> Seq<usize> {
        self.lines_upto(self.drawing.depth())
    }

    /// What the stages of a layout know of its graph.
    pub open spec fn valid(self) -> bool {
        &&& self.drawing.model.valid()
        &&& self.drawing.model.is_ranking(self.drawing.model.ranks())
        &&& self.roots.no_duplicates()
        &&& forall|root: usize| #[trigger]
            self.roots.contains(root) <==> is_root(self.drawing.model, root)
        &&& forall|i: int|
            0 <= i < self.roots.len() ==> layers_hold(
                self.drawing,
                #[trigger] self.roots[i],
                self.drawing.final_layers(self.roots[i], self.reflow),
            )
    }
}

/// Connection is an equivalence.
pub proof fn lemma_same_component(model: GraphModel, a: usize, b: usize, c: usize)
    ensures
        same_component(model.edges, a, a),
        same_component(model.edges, a, b) ==> same_component(model.edges, b, a),
        same_component(model.edges, a, b) && same_component(model.edges, b, c) ==> same_component(
            model.edges,
            a,
            c,
        ),
{
    if same_component(model.edges, a, b) && same_component(model.edges, b, c) {
        assert forall|label: spec_fn(usize) -> int| #[trigger]
            crate::layout::components::respects(model.edges, label) implies label(a) == label(c) by {
            assert(label(a) == label(b) && label(b) == label(c));
        }
    }
}

/// Every node is connected with a root.
pub proof fn lemma_root_exists(model: GraphModel, node: usize) -> (root: usize)
    requires
        node < model.size(),
    ensures
        is_root(model, root),
        same_component(model.edges, root, node),
    decreases node,
{
    lemma_same_component(model, node, node, node);
    if is_root(model, node) {
        node
    } else {
        let other = choose|other: usize|
            other < model.size() && #[trigger] same_component(model.edges, node, other) && other < node;
        let root = lemma_root_exists(model, other);
        lemma_same_component(model, node, other, node);
        lemma_same_component(model, root, other, node);
        root
    }
}

/// A packed rank holds the nodes of the parts packed so far, each once.
pub(crate) proof fn lemma_packed_upto(plan: Plan, count: nat, rank: int)
    requires
        plan.valid(),
        count <= plan.roots.len(),
        0 <= rank < plan.drawing.depth(),
    ensures
        plan.packed_upto(count, rank).no_duplicates(),
        forall|node: usize| #[trigger]
            plan.packed_upto(count, rank).contains(node) <==> node < plan.size() && plan.drawing.rank(
                node,
            ) == rank && exists|i: int|
                0 <= i < count && same_component(
                    plan.drawing.model.edges,
                    #[trigger] plan.roots[i],
                    node,
                ),
    decreases count,
{
    if count > 0 {
        let model = plan.drawing.model;
        let last = plan.roots[count - 1];
        let before = plan.packed_upto((count - 1) as nat, rank);
        let layers = plan.drawing.final_layers(last, plan.reflow);
        let after = plan.packed_upto(count, rank);
        lemma_packed_upto(plan, (count - 1) as nat, rank);
        assert(layers_hold(plan.drawing, last, layers));
        let added = layers[rank];
        assert forall|node: usize| #[trigger] after.contains(node) <==> before.contains(node)
            || added.contains(node) by {
            if before.contains(node) {
                let n = before.index_of(node);
                assert(after[n] == node);
            }
            if added.contains(node) {
                let n = added.index_of(node);
                assert(after[before.len() + n] == node);
            }
            if after.contains(node) {
                let n = after.index_of(node);
                if n < before.len() {
                    assert(before[n] == node);
                } else {
                    assert(added[n - before.len()] == node);
                }
            }
        }
        assert forall|node: usize| !(before.contains(node) && added.contains(node)) by {
            if before.contains(node) && added.contains(node) {
                let i = choose|i: int|
                    0 <= i < count - 1 && same_component(model.edges, #[trigger] plan.roots[i], node);
                let other = plan.roots[i];
                assert(layers[rank].contains(node));
                lemma_same_component(model, last, node, other);
                lemma_same_component(model, other, node, last);
                assert(plan.roots.contains(other) && plan.roots.contains(last));
                assert(is_root(model, other) && is_root(model, last));
                assert(same_component(model.edges, other, last) && same_component(
                    model.edges,
                    last,
                    other,
                ));
                assert(other == last);
            }
        }
        assert(after.no_duplicates()) by {
            assert forall|i: int, j: int|
                0 <= i < after.len() && 0 <= j < after.len() && i != j implies after[i] != after[j] by {
                if i < before.len() {
                    assert(before.contains(after[i]));
                } else {
                    assert(added[i - before.len()] == after[i]);
                    assert(added.contains(after[i]));
                }
                if j < before.len() {
                    assert(before.contains(after[j]));
                } else {
                    assert(added[j - before.len()] == after[j]);
                    assert(added.contains(after[j]));
                }
            }
        }
        assert forall|node: usize| #[trigger] after.contains(node) <==> node < plan.size()
            && plan.drawing.rank(node) == rank && exists|i: int|
            0 <= i < count && same_component(model.edges, #[trigger] plan.roots[i], node) by {
            assert(added.contains(node) <==> node < plan.size() && same_component(
                model.edges,
                last,
                node,
            ) && plan.drawing.rank(node) == rank);
            if added.contains(node) {
                assert(same_component(model.edges, plan.roots[count - 1], node));
            }
            if before.contains(node) {
                let i = choose|i: int|
                    0 <= i < count - 1 && same_component(model.edges, #[trigger] plan.roots[i], node);
                assert(same_component(model.edges, plan.roots[i], node));
            }
        }
    }
}

/// A packed rank holds exactly the nodes of the rank, each once.
pub proof fn lemma_packed(plan: Plan, rank: int)
    requires
        plan.valid(),
        0 <= rank < plan.drawing.depth(),
    ensures
        plan.packed(rank).no_duplicates(),
        forall|node: usize| #[trigger]
            plan.packed(rank).contains(node) <==> node < plan.size() && plan.drawing.rank(node) == rank,
        plan.packed(rank).len() <= plan.size(),
{
    let model = plan.drawing.model;
    lemma_packed_upto(plan, plan.roots.len(), rank);
    assert forall|node: usize| #[trigger] plan.packed(rank).contains(node) <==> node < plan.size()
        && plan.drawing.rank(node) == rank by {
        if node < plan.size() && plan.drawing.rank(node) == rank {
            let root = lemma_root_exists(model, node);
            assert(plan.roots.contains(root));
            let i = plan.roots.index_of(root);
            assert(same_component(model.edges, plan.roots[i], node));
        }
    }
    lemma_distinct_bounded(plan.packed(rank), plan.size());
}

/// What the roots of a snapshot are.
pub(crate) proof fn lemma_ordered_roots(snapshot: &GraphSnapshot, model: GraphModel)
    requires
        model.valid(),
    ensures
        ordered_roots(snapshot, model).no_duplicates(),
        forall|root: usize| #[trigger]
            ordered_roots(snapshot, model).contains(root) <==> is_root(model, root),
{
    let all = indices(model.size());
    let keep = |root: usize| is_root(model, root);
    let some = all.filter(keep);
    let sorted = ordered_roots(snapshot, model);
    crate::sorting::lemma_filter_increasing(all, |a: usize, b: usize| a < b, keep);
    crate::layout::components::lemma_root_order(snapshot, model);
    some.lemma_sort_by_ensures(root_order(snapshot, model));
    some.lemma_multiset_has_no_duplicates();
    sorted.lemma_multiset_has_no_duplicates_conv();
    assert forall|root: usize| #[trigger] sorted.contains(root) <==> is_root(model, root) by {
        vstd::seq_lib::to_multiset_contains(sorted, root);
        vstd::seq_lib::to_multiset_contains(some, root);
        lemma_filter_members(all, keep, root);
        if root < model.size() {
            assert(all[root as int] == root);
        }
    }
}

/// Every rank is below the number of nodes.
pub proof fn lemma_rank_bounded(model: GraphModel, node: usize)
    requires
        model.valid(),
        model.is_ranking(model.ranks()),
        node < model.size(),
    ensures
        model.ranks()[node as int] < model.size(),
{
    let ranks = model.ranks();
    let chain = lemma_rank_chain(model, node);
    lemma_distinct_bounded(chain, model.size());
}

/// Nodes of every rank up to that of a node.
pub proof fn lemma_rank_chain(model: GraphModel, node: usize) -> (chain: Seq<usize>)
    requires
        model.valid(),
        model.is_ranking(model.ranks()),
        node < model.size(),
    ensures
        chain.len() == model.ranks()[node as int] + 1,
        forall|i: int|
            0 <= i < chain.len() ==> (#[trigger] chain[i]) < model.size() && model.ranks()[chain[i] as int]
                == i,
        chain.no_duplicates(),
        forall|v: usize| #[trigger] chain.contains(v) ==> v < model.size(),
    decreases model.ranks()[node as int],
{
    let ranks = model.ranks();
    if ranks[node as int] == 0 {
        let chain = seq![node];
        assert forall|v: usize| #[trigger] chain.contains(v) implies v < model.size() by {
            assert(chain[chain.index_of(v)] == v);
        }
        chain
    } else {
        let parent = choose|parent: usize|
            model.linked(parent, node) && ranks[node as int] == ranks[parent as int] + 1;
        assert(model.linked(parent, node));
        let k = choose|k: int|
            0 <= k < model.edges.len() && (#[trigger] model.edges[k]).source == parent
                && model.edges[k].target == node;
        assert(parent < model.size());
        let before = lemma_rank_chain(model, parent);
        let chain = before.push(node);
        assert forall|i: int| 0 <= i < chain.len() implies (#[trigger] chain[i]) < model.size()
            && ranks[chain[i] as int] == i by {
            if i < before.len() {
                assert(chain[i] == before[i]);
            }
        }
        assert forall|v: usize| #[trigger] chain.contains(v) implies v < model.size() by {
            assert(chain[chain.index_of(v)] < model.size());
        }
        chain
    }
}

/// Packs the ordered connected parts into common ranks.
fn pack_components(
    components: &Vec<Component>,
    graph: &PreparedGraph,
    hints: &TextMap<LayoutHint>,
    reflow_ranks: Option<&BTreeSet<usize>>,
    depth: usize,
    Ghost(plan): Ghost<Plan>,
) -> (packed: Vec<Vec<usize>>)
    requires
        graph.nodes.wf(),
        graph.matches(plan.drawing.model),
        plan.size() <= u32::MAX,
        hints.wf(),
        plan.drawing.hints == hints@,
        plan.reflow == reflow_view(reflow_ranks),
        depth == plan.drawing.depth(),
        components@.map_values(|component: Component| component.root) == plan.roots,
        forall|i: int|
            0 <= i < components@.len() ==> (#[trigger] components@[i]).nodes@
                == crate::layout::components::component_nodes(plan.drawing.model, components@[i].root),
        plan.roots.no_duplicates(),
        forall|root: usize| #[trigger]
            plan.roots.contains(root) <==> is_root(plan.drawing.model, root),
    ensures
        plan.valid(),
        packed@.len() == depth,
        forall|rank: int| 0 <= rank < depth ==> (#[trigger] packed@[rank])@ == plan.packed(rank),
{
    let ghost drawing = plan.drawing;
    let keys = hint_keys(graph, hints, Ghost(drawing));
    let size: usize = graph.ranks.len();
    let mut positions: Vec<usize> = Vec::new();
    let mut v: usize = 0;
    while v < size
        invariant
            0 <= v <= size,
            positions@.len() == v,
        decreases size - v,
    {
        positions.push(0);
        v += 1;
    }
    let mut packed: Vec<Vec<usize>> = Vec::new();
    let mut r: usize = 0;
    while r < depth
        invariant
            0 <= r <= depth,
            packed@.len() == r,
            forall|rank: int| 0 <= rank < r ==> (#[trigger] packed@[rank])@ == Seq::<usize>::empty(),
        decreases depth - r,
    {
        packed.push(Vec::new());
        r += 1;
    }
    let mut c: usize = 0;
    while c < components.len()
        invariant
            graph.matches(plan.drawing.model),
            plan.size() <= u32::MAX,
            drawing == plan.drawing,
            plan.reflow == reflow_view(reflow_ranks),
            depth == plan.drawing.depth(),
            components@.map_values(|component: Component| component.root) == plan.roots,
            forall|i: int|
                0 <= i < components@.len() ==> (#[trigger] components@[i]).nodes@
                    == crate::layout::components::component_nodes(
                    plan.drawing.model,
                    components@[i].root,
                ),
            keys@.len() == plan.size(),
            forall|node: usize|
                node < plan.size() ==> #[trigger] keys@[node as int] == drawing.key(node),
            positions@.len() == plan.size(),
            packed@.len() == depth,
            0 <= c <= components.len(),
            forall|rank: int|
                0 <= rank < depth ==> (#[trigger] packed@[rank])@ == plan.packed_upto(c as nat, rank),
            forall|i: int|
                0 <= i < c ==> layers_hold(
                    plan.drawing,
                    #[trigger] plan.roots[i],
                    plan.drawing.final_layers(plan.roots[i], plan.reflow),
                ),
        decreases components.len() - c,
    {
        assert(plan.roots[c as int] == components@[c as int].root);
        let layers = order_component(
            &components[c],
            graph,
            &keys,
            depth,
            reflow_ranks,
            &mut positions,
            Ghost(drawing),
        );
        let ghost all = lists(layers@);
        assert(layers@.len() == all.len());
        let mut rank: usize = 0;
        while rank < depth
            invariant
                0 <= rank <= depth,
                packed@.len() == depth,
                layers@.len() == depth,
                all == lists(layers@),
                0 <= c < plan.roots.len(),
                all == plan.drawing.final_layers(plan.roots[c as int], plan.reflow),
                forall|i: int|
                    0 <= i < rank ==> (#[trigger] packed@[i])@ == plan.packed_upto((c + 1) as nat, i),
                forall|i: int|
                    rank <= i < depth ==> (#[trigger] packed@[i])@ == plan.packed_upto(c as nat, i),
            decreases depth - rank,
        {
            let ghost before = packed@[rank as int]@;
            let ghost list = all[rank as int];
            assert(list == layers@[rank as int]@);
            let mut k: usize = 0;
            while k < layers[rank].len()
                invariant
                    rank < depth,
                    packed@.len() == depth,
                    layers@.len() == depth,
                    list == layers@[rank as int]@,
                    0 <= k <= list.len(),
                    packed@[rank as int]@ == before + list.take(k as int),
                    forall|i: int|
                        0 <= i < rank ==> (#[trigger] packed@[i])@ == plan.packed_upto(
                            (c + 1) as nat,
                            i,
                        ),
                    forall|i: int|
                        rank < i < depth ==> (#[trigger] packed@[i])@ == plan.packed_upto(c as nat, i),
                decreases list.len() - k,
            {
                let ghost earlier = packed@[rank as int]@;
                let node: usize = layers[rank][k];
                packed[rank].push(node);
                assert(packed@[rank as int]@ =~= earlier.push(node));
                assert(packed@[rank as int]@ =~= before + list.take(k + 1));
                k += 1;
            }
            assert(list.take(k as int) =~= list);
            rank += 1;
        }
        c += 1;
    }
    packed
}

/// Places the nodes of the packed ranks.
fn place_nodes(
    packed: &Vec<Vec<usize>>,
    graph: &PreparedGraph,
    hints: &TextMap<LayoutHint>,
    reflow_ranks: Option<&BTreeSet<usize>>,
    Ghost(plan): Ghost<Plan>,
) -> (points: Vec<Point>)
    requires
        graph.matches(plan.drawing.model),
        plan.valid(),
        plan.slots_fit(),
        hints.wf(),
        plan.drawing.hints == hints@,
        plan.reflow == reflow_view(reflow_ranks),
        packed@.len() == plan.drawing.depth(),
        forall|rank: int|
            0 <= rank < packed@.len() ==> (#[trigger] packed@[rank])@ == plan.packed(rank),
    ensures
        points@.len() == plan.size(),
        forall|node: usize|
            node < plan.size() ==> #[trigger] points@[node as int] == plan.point(node),
{
    let size: usize = graph.ranks.len();
    let mut points: Vec<Point> = Vec::new();
    let mut v: usize = 0;
    while v < size
        invariant
            0 <= v <= size,
            points@.len() == v,
        decreases size - v,
    {
        points.push(Point { x: 0, y: 0 });
        v += 1;
    }
    let mut rank: usize = 0;
    while rank < packed.len()
        invariant
            graph.matches(plan.drawing.model),
            plan.valid(),
            plan.slots_fit(),
            hints.wf(),
            plan.drawing.hints == hints@,
            plan.reflow == reflow_view(reflow_ranks),
            packed@.len() == plan.drawing.depth(),
            forall|r: int| 0 <= r < packed@.len() ==> (#[trigger] packed@[r])@ == plan.packed(r),
            points@.len() == plan.size(),
            0 <= rank <= packed.len(),
            forall|node: usize|
                #![trigger points@[node as int]]
                node < plan.size() && plan.drawing.rank(node) < rank ==> points@[node as int]
                    == plan.point(node),
        decreases packed.len() - rank,
    {
        let ghost list = plan.packed(rank as int);
        assert(packed@[rank as int]@ == list);
        proof {
            lemma_packed(plan, rank as int);
        }
        let mut k: usize = 0;
        while k < packed[rank].len()
            invariant
                graph.matches(plan.drawing.model),
                plan.valid(),
                plan.slots_fit(),
                hints.wf(),
                plan.drawing.hints == hints@,
                plan.reflow == reflow_view(reflow_ranks),
                packed@.len() == plan.drawing.depth(),
                rank < packed@.len(),
                packed@[rank as int]@ == list,
                list == plan.packed(rank as int),
                list.no_duplicates(),
                forall|node: usize| #[trigger]
                    list.contains(node) <==> node < plan.size() && plan.drawing.rank(node) == rank,
                points@.len() == plan.size(),
                0 <= k <= list.len(),
                forall|node: usize|
                    #![trigger points@[node as int]]
                    node < plan.size() && plan.drawing.rank(node) < rank ==> points@[node as int]
                        == plan.point(node),
                forall|j: int|
                    0 <= j < k ==> points@[(#[trigger] list[j]) as int] == plan.point(list[j]),
            decreases list.len() - k,
        {
            let node: usize = packed[rank][k];
            proof {
                assert(list.contains(node));
                assert(list.index_of(node) == k);
                assert(plan.row(node) == k);
            }
            let mut point = Point {
                x: GRAPH_PADDING + rank as i32 * GRAPH_RANK_STEP,
                y: GRAPH_PADDING + k as i32 * GRAPH_ROW_STEP,
            };
            if let Some(hint) = hints.get(graph.nodes.key_at(node).as_str()) {
                let fixed = match reflow_ranks {
                    None => false,
                    Some(ranks) => !ranks.contains(&rank),
                };
                if hint.rank == rank && fixed {
                    point = hint.point;
                }
            }
            assert(point == plan.point(node));
            let ghost before = points@;
            points.set(node, point);
            proof {
                assert forall|j: int| 0 <= j < k + 1 implies points@[(#[trigger] list[j]) as int]
                    == plan.point(list[j]) by {
                    if j < k {
                        assert(list[j] != list[k as int]);
                        assert(list.contains(list[j]));
                        assert(before[list[j] as int] == plan.point(list[j]));
                    }
                }
                assert forall|other: usize|
                    #![trigger points@[other as int]]
                    other < plan.size() && plan.drawing.rank(other) < rank implies points@[other as int]
                    == plan.point(other) by {
                    assert(before[other as int] == plan.point(other));
                }
            }
            k += 1;
        }
        proof {
            assert forall|node: usize|
                #![trigger points@[node as int]]
                node < plan.size() && plan.drawing.rank(node) < rank + 1 implies points@[node as int]
                == plan.point(node) by {
                if plan.drawing.rank(node) == rank {
                    assert(list.contains(node));
                    assert(list[list.index_of(node)] == node);
                }
            }
        }
        rank += 1;
    }
    proof {
        assert forall|node: usize| node < plan.size() implies #[trigger] points@[node as int]
            == plan.point(node) by {
            lemma_depth(plan.drawing.model.ranks(), node as int);
        }
    }
    points
}

/// The order by height, with the points at hand.
struct HeightOrder<'a> {
    points: &'a Vec<Point>,
    plan: Ghost<Plan>,
}

impl<'a> Precedence for HeightOrder<'a> {
    closed spec fn covers(&self, index: usize) -> bool {
        index < self.points@.len() && self.points@[index as int] == self.plan@.point(index)
    }

    closed spec fn leq(&self) -> spec_fn(usize, usize) -> bool {
        self.plan@.height_order()
    }

    fn precedes(&self, a: usize, b: usize) -> (before: bool) {
        self.points[a].y < self.points[b].y || (self.points[a].y == self.points[b].y && a <= b)
    }
}

/// The order by height is total.
proof fn lemma_height_order(plan: Plan)
    ensures
        total_ordering(plan.height_order()),
{
}

/// The nodes of a rank come by height.
pub(crate) proof fn lemma_line_sorted(plan: Plan, rank: int)
    ensures
        forall|i: int, j: int|
            0 <= i < j < plan.line(rank).len() ==> plan.height_order()(
                #[trigger] plan.line(rank)[i],
                #[trigger] plan.line(rank)[j],
            ),
{
    let some = indices(plan.size()).filter(|node: usize| plan.drawing.rank(node) == rank);
    lemma_height_order(plan);
    some.lemma_sort_by_ensures(plan.height_order());
}

/// A line holds the nodes of its rank, each once.
pub(crate) proof fn lemma_line(plan: Plan, rank: int)
    requires
        plan.drawing.model.valid(),
    ensures
        plan.line(rank).no_duplicates(),
        forall|node: usize| #[trigger]
            plan.line(rank).contains(node) <==> node < plan.size() && plan.drawing.rank(node) == rank,
{
    let all = indices(plan.size());
    let keep = |node: usize| plan.drawing.rank(node) == rank;
    let some = all.filter(keep);
    let sorted = plan.line(rank);
    crate::sorting::lemma_filter_increasing(all, |a: usize, b: usize| a < b, keep);
    lemma_height_order(plan);
    some.lemma_sort_by_ensures(plan.height_order());
    some.lemma_multiset_has_no_duplicates();
    sorted.lemma_multiset_has_no_duplicates_conv();
    assert forall|node: usize| #[trigger] sorted.contains(node) <==> node < plan.size()
        && plan.drawing.rank(node) == rank by {
        vstd::seq_lib::to_multiset_contains(sorted, node);
        vstd::seq_lib::to_multiset_contains(some, node);
        lemma_filter_members(all, keep, node);
        if node < plan.size() {
            assert(all[node as int] == node);
        }
    }
}

/// Orders the nodes of each rank from top to bottom.
fn packed_lines(
    graph: &PreparedGraph,
    points: &Vec<Point>,
    depth: usize,
    Ghost(plan): Ghost<Plan>,
) -> (lines: Vec<Vec<usize>>)
    requires
        graph.matches(plan.drawing.model),
        depth == plan.drawing.depth(),
        points@.len() == plan.size(),
        forall|node: usize|
            node < plan.size() ==> #[trigger] points@[node as int] == plan.point(node),
    ensures
        lines@.len() == depth,
        forall|rank: int| 0 <= rank < depth ==> (#[trigger] lines@[rank])@ == plan.line(rank),
{
    let size: usize = graph.ranks.len();
    let ghost all = indices(plan.size());
    let mut grouped: Vec<Vec<usize>> = Vec::new();
    let mut r: usize = 0;
    while r < depth
        invariant
            0 <= r <= depth,
            grouped@.len() == r,
            forall|i: int| 0 <= i < r ==> (#[trigger] grouped@[i])@ == Seq::<usize>::empty(),
        decreases depth - r,
    {
        grouped.push(Vec::new());
        r += 1;
    }
    proof {
        reveal(Seq::filter);
        assert(all.take(0) =~= Seq::<usize>::empty());
    }
    let mut v: usize = 0;
    while v < size
        invariant
            graph.matches(plan.drawing.model),
            size == plan.size(),
            all == indices(plan.size()),
            depth == plan.drawing.depth(),
            grouped@.len() == depth,
            0 <= v <= size,
            forall|i: int|
                0 <= i < depth ==> (#[trigger] grouped@[i])@ == all.take(v as int).filter(
                    |node: usize| plan.drawing.rank(node) == i,
                ),
        decreases size - v,
    {
        let ghost before = grouped@;
        proof {
            lemma_depth(plan.drawing.model.ranks(), v as int);
            assert(all.take(v + 1) =~= all.take(v as int).push(v));
        }
        grouped[graph.ranks[v]].push(v);
        proof {
            assert forall|i: int| 0 <= i < depth implies (#[trigger] grouped@[i])@ == all.take(v + 1).filter(
                |node: usize| plan.drawing.rank(node) == i,
            ) by {
                let keep = |node: usize| plan.drawing.rank(node) == i;
                crate::sequences::lemma_filter_push(all.take(v as int), keep, v);
                assert(before[i]@ == all.take(v as int).filter(keep));
            }
        }
        v += 1;
    }
    assert(all.take(v as int) =~= all);
    let mut lines: Vec<Vec<usize>> = Vec::new();
    let order = HeightOrder { points, plan: Ghost(plan) };
    let mut rank: usize = 0;
    while rank < depth
        invariant
            0 <= rank <= depth,
            all == indices(plan.size()),
            grouped@.len() == depth,
            plan.size() <= usize::MAX,
            points@.len() == plan.size(),
            order.points == points,
            order.plan@ == plan,
            forall|node: usize|
                node < plan.size() ==> #[trigger] points@[node as int] == plan.point(node),
            forall|i: int|
                0 <= i < depth ==> (#[trigger] grouped@[i])@ == all.filter(
                    |node: usize| plan.drawing.rank(node) == i,
                ),
            lines@.len() == rank,
            forall|i: int| 0 <= i < rank ==> (#[trigger] lines@[i])@ == plan.line(i),
        decreases depth - rank,
    {
        proof {
            lemma_height_order(plan);
            assert forall|node: usize| #[trigger] grouped@[rank as int]@.contains(node) implies order.covers(
                node,
            ) by {
                lemma_filter_members(all, |node: usize| plan.drawing.rank(node) == rank as int, node);
                assert(all.contains(node));
                assert(all[all.index_of(node)] == node);
                assert(points@[node as int] == plan.point(node));
            }
        }
        let line = sort_indices(&grouped[rank], &order);
        lines.push(line);
        rank += 1;
    }
    lines
}

/// The places and lines of all nodes.
#[derive(Debug)]
pub(crate) struct PlacedNodes {
    pub(crate) points: Vec<Point>,
    pub(crate) lines: Vec<Vec<usize>>,
}

/// Places all nodes of a checked snapshot.
pub(crate) fn place_graph(
    snapshot: &GraphSnapshot,
    graph: &PreparedGraph,
    hints: &TextMap<LayoutHint>,
    reflow_ranks: Option<&BTreeSet<usize>>,
) -> (placed: PlacedNodes)
    requires
        graph.names(snapshot),
        graph.matches(graph_model(snapshot)),
        snapshot.nodes@.len() <= u32::MAX,
        hints.wf(),
        graph_plan(snapshot, hints@, reflow_view(reflow_ranks)).slots_fit(),
    ensures
        ({
            let plan = graph_plan(snapshot, hints@, reflow_view(reflow_ranks));
            &&& plan.valid()
            &&& placed.points@.len() == plan.size()
            &&& forall|node: usize|
                node < plan.size() ==> #[trigger] placed.points@[node as int] == plan.point(node)
            &&& placed.lines@.len() == plan.drawing.depth()
            &&& forall|rank: int|
                0 <= rank < placed.lines@.len() ==> (#[trigger] placed.lines@[rank])@ == plan.line(rank)
        }),
{
    let ghost model = graph_model(snapshot);
    let ghost plan = graph_plan(snapshot, hints@, reflow_view(reflow_ranks));
    proof {
        lemma_ordered_roots(snapshot, model);
        assert forall|i: int| 0 <= i < graph.ranks@.len() implies #[trigger] graph.ranks@[i] < usize::MAX by {
            lemma_rank_bounded(model, i as usize);
        }
        graph.nodes.lemma_keys();
        crate::ordered::lemma_strictly_sorted_no_duplicates(model.ids);
        let ids = crate::layout::model::node_ids(snapshot.nodes@);
        ids.unique_seq_to_set();
        assert(plan.size() == snapshot.nodes@.len());
    }
    let components = ordered_components(snapshot, graph, Ghost(model));
    let depth: usize = rank_depth(&graph.ranks);
    let packed = pack_components(&components, graph, hints, reflow_ranks, depth, Ghost(plan));
    let points = place_nodes(&packed, graph, hints, reflow_ranks, Ghost(plan));
    let lines = packed_lines(graph, &points, depth, Ghost(plan));
    PlacedNodes { points, lines }
}

/// The plan of a graph that can be ranked is valid.
pub proof fn lemma_plan_valid(
    snapshot: &GraphSnapshot,
    hints: Map<Seq<char>, LayoutHint>,
    reflow: Option<Set<usize>>,
)
    requires
        graph_model(snapshot).valid(),
        graph_model(snapshot).is_ranking(graph_model(snapshot).ranks()),
    ensures
        graph_plan(snapshot, hints, reflow).valid(),
{
    let plan = graph_plan(snapshot, hints, reflow);
    lemma_ordered_roots(snapshot, plan.drawing.model);
    assert forall|i: int| 0 <= i < plan.roots.len() implies layers_hold(
        plan.drawing,
        #[trigger] plan.roots[i],
        plan.drawing.final_layers(plan.roots[i], reflow),
    ) by {
        lemma_final_layers_hold(plan.drawing, plan.roots[i], reflow);
    }
}

/// Rows lie below the number of nodes.
pub proof fn lemma_row_bounded(plan: Plan, node: usize)
    requires
        plan.valid(),
        node < plan.size(),
    ensures
        0 <= plan.row(node) < plan.size(),
{
    let rank = plan.drawing.rank(node) as int;
    lemma_depth(plan.drawing.model.ranks(), node as int);
    lemma_packed(plan, rank);
    assert(plan.packed(rank).contains(node));
}

} // verus!
