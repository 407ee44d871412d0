//! Ordering the nodes of each rank so that few edges cross.

use vstd::prelude::*;
use vstd::relations::total_ordering;
use std::collections::BTreeSet;
use crate::layout::components::component_nodes;
use crate::layout::components::lemma_component_members;
use crate::layout::components::same_component;
use crate::layout::components::Component;
use crate::layout::model::GraphModel;
use crate::layout::prepare::PreparedGraph;
use crate::layout::LayoutHint;
use crate::ordered::TextMap;
use crate::sequences::lemma_filter_members;
use crate::sorting::indices;
use crate::sorting::sort_indices;
use crate::sorting::Precedence;

verus! {

broadcast use vstd::std_specs::btree::group_btree_axioms;

/// How a hint orders a node among those of its rank: nodes with a hint for the rank come
/// first, by their old order and height.
#[derive(Debug, Clone, Copy, PartialEq, Eq, Structural)]
pub struct HintKey {
    pub class: u8,
    pub order: usize,
    pub y: i32,
}

/// The hint key of a node of a rank.
pub open spec fn hint_key(hints: Map<Seq<char>, LayoutHint>, rank: usize, id: Seq<char>) -> HintKey {
    if hints.contains_key(id) && hints[id].rank == rank {
        HintKey { class: 0, order: hints[id].order, y: hints[id].point.y }
    } else {
        HintKey { class: 1, order: usize::MAX, y: i32::MAX }
    }
}

/// Whether one hint key comes before another.
pub open spec fn hint_before(a: HintKey, b: HintKey) -> bool {
    ||| a.class < b.class
    ||| (a.class == b.class && a.order < b.order)
    ||| (a.class == b.class && a.order == b.order && a.y < b.y)
}

/// A graph with its ranks and hints: all that decides the order within the ranks.
#[verifier::ext_equal]
pub struct Drawing {
    pub model: GraphModel,
    pub hints: Map<Seq<char>, LayoutHint>,
}

impl Drawing {
    /// The rank of a node.
    pub open spec fn rank(self, node: usize) -> usize {
        self.model.ranks()[node as int]
    }

    /// The hint key of a node.
    pub open spec fn key(self, node: usize) -> HintKey {
        hint_key(self.hints, self.rank(node), self.model.ids[node as int])
    }

    /// Nodes ordered by their hints alone.
    pub open spec fn hint_order(self) -> spec_fn(usize, usize) -> bool {
        |a: usize, b: usize|
            hint_before(self.key(a), self.key(b)) || (self.key(a) == self.key(b) && a <= b)
    }

    /// The nodes of a connected part in a rank, ordered by their hints.
    pub open spec fn first_layer(self, root: usize, rank: usize) -> Seq<usize> {
        component_nodes(self.model, root).filter(|node: usize| self.rank(node) == rank).sort_by(
            self.hint_order(),
        )
    }

    /// How many ranks the graph has.
    pub open spec fn depth(self) -> nat {
        depth_of(self.model.ranks())
    }

    /// The ranks of a connected part, ordered by hints.
    pub open spec fn first_layers(self, root: usize) -> Seq<Seq<usize>> {
        Seq::new(self.depth(), |rank: int| self.first_layer(root, rank as usize))
    }

    /// The place of a node within its rank.
    pub open spec fn position(self, layers: Seq<Seq<usize>>, node: usize) -> int {
        layers[self.rank(node) as int].index_of(node)
    }

    /// The neighbours that a sweep looks at: parents on the way down, children on the way up.
    pub open spec fn neighbors(self, down: bool, node: usize) -> Seq<usize> {
        if down {
            self.model.parent_list(node)
        } else {
            self.model.child_list(node)
        }
    }

    /// The sum of the places of some nodes.
    pub open spec fn position_sum(self, layers: Seq<Seq<usize>>, nodes: Seq<usize>) -> int
        decreases nodes.len(),
    {
        if nodes.len() == 0 {
            0
        } else {
            self.position_sum(layers, nodes.drop_last()) + self.position(layers, nodes.last())
        }
    }

    /// The mean place of the neighbours of a node as a fraction; its own place where it has
    /// none.
    pub open spec fn barycenter(self, layers: Seq<Seq<usize>>, down: bool, node: usize) -> (int, int) {
        let nodes = self.neighbors(down, node);
        if nodes.len() == 0 {
            (self.position(layers, node), 1)
        } else {
            (self.position_sum(layers, nodes), nodes.len() as int)
        }
    }

    /// Nodes ordered by the mean places of their neighbours, then by their hints, then by
    /// their present places.
    pub open spec fn sweep_order(self, layers: Seq<Seq<usize>>, down: bool) -> spec_fn(
        usize,
        usize,
    ) -> bool {
        |a: usize, b: usize|
            {
                let left = self.barycenter(layers, down, a);
                let right = self.barycenter(layers, down, b);
                let x = self.position(layers, a);
                let y = self.position(layers, b);
                ||| left.0 * right.1 < right.0 * left.1
                ||| (left.0 * right.1 == right.0 * left.1 && (hint_before(self.key(a), self.key(b)) || (
                self.key(a) == self.key(b) && (x < y || (x == y && a <= b)))))
            }
    }

    /// One rank sorted again.
    pub open spec fn swept(self, layers: Seq<Seq<usize>>, down: bool, rank: int) -> Seq<Seq<usize>> {
        layers.update(rank, layers[rank].sort_by(self.sweep_order(layers, down)))
    }

    /// The ranks before `count` swept from the first on.
    pub open spec fn swept_down(
        self,
        layers: Seq<Seq<usize>>,
        reflow: Option<Set<usize>>,
        count: nat,
    ) -> Seq<Seq<usize>>
        decreases count,
    {
        if count == 0 {
            layers
        } else {
            let rank = (count - 1) as nat;
            let before = self.swept_down(layers, reflow, rank);
            if may_reflow(reflow, rank as usize) {
                self.swept(before, true, rank as int)
            } else {
                before
            }
        }
    }

    /// The last `count` ranks swept from the last on.
    pub open spec fn swept_up(
        self,
        layers: Seq<Seq<usize>>,
        reflow: Option<Set<usize>>,
        count: nat,
    ) -> Seq<Seq<usize>>
        decreases count,
    {
        if count == 0 {
            layers
        } else {
            let rank = layers.len() - count;
            let before = self.swept_up(layers, reflow, (count - 1) as nat);
            if may_reflow(reflow, rank as usize) {
                self.swept(before, false, rank)
            } else {
                before
            }
        }
    }

    /// One sweep down and one up.
    pub open spec fn swept_once(self, layers: Seq<Seq<usize>>, reflow: Option<Set<usize>>) -> Seq<
        Seq<usize>,
    > {
        let down = self.swept_down(layers, reflow, layers.len());
        self.swept_up(down, reflow, layers.len())
    }

    /// The ranks of a connected part in their final order.
    pub open spec fn final_layers(self, root: usize, reflow: Option<Set<usize>>) -> Seq<Seq<usize>> {
        self.swept_once(self.swept_once(self.first_layers(root), reflow), reflow)
    }
}

/// Whether a rank may be ordered again: any rank, unless the ranks are given.
pub open spec fn may_reflow(reflow: Option<Set<usize>>, rank: usize) -> bool {
    match reflow {
        None => true,
        Some(ranks) => ranks.contains(rank),
    }
}

/// One past the highest rank.
pub open spec fn depth_of(ranks: Seq<usize>) -> nat
    decreases ranks.len(),
{
    if ranks.len() == 0 {
        0
    } else {
        let before = depth_of(ranks.drop_last());
        if ranks.last() + 1 > before {
            (ranks.last() + 1) as nat
        } else {
            before
        }
    }
}

/// Lists of lists as sequences.
pub open spec fn lists(layers: Seq<Vec<usize>>) -> Seq<Seq<usize>> {
    layers.map_values(|layer: Vec<usize>| layer@)
}

/// Fractions with positive denominators are ordered by cross products.
proof fn lemma_fractions(a: (int, int), b: (int, int), c: (int, int))
    requires
        a.1 > 0,
        b.1 > 0,
        c.1 > 0,
        a.0 * b.1 <= b.0 * a.1,
        b.0 * c.1 <= c.0 * b.1,
    ensures
        a.0 * c.1 <= c.0 * a.1,
        a.0 * c.1 == c.0 * a.1 ==> a.0 * b.1 == b.0 * a.1 && b.0 * c.1 == c.0 * b.1,
        a.0 * b.1 == b.0 * a.1 && b.0 * c.1 == c.0 * b.1 ==> a.0 * c.1 == c.0 * a.1,
{
    let (s, m) = a;
    let (t, n) = b;
    let (u, o) = c;
    assert((s * n) * o <= (t * m) * o) by (nonlinear_arith)
        requires
            s * n <= t * m,
            o > 0,
    ;
    assert((t * o) * m <= (u * n) * m) by (nonlinear_arith)
        requires
            t * o <= u * n,
            m > 0,
    ;
    assert((s * n) * o == (s * o) * n) by (nonlinear_arith);
    assert((t * m) * o == (t * o) * m) by (nonlinear_arith);
    assert((u * n) * m == (u * m) * n) by (nonlinear_arith);
    assert(s * o <= u * m) by (nonlinear_arith)
        requires
            (s * o) * n <= (u * m) * n,
            n > 0,
    ;
    if s * o == u * m {
        assert((s * o) * n == (u * m) * n);
        assert((s * n) * o == (t * m) * o);
        assert(s * n == t * m) by (nonlinear_arith)
            requires
                (s * n) * o == (t * m) * o,
                o > 0,
        ;
        assert(t * o == u * n) by (nonlinear_arith)
            requires
                (t * o) * m == (u * n) * m,
                m > 0,
        ;
    }
    if s * n == t * m && t * o == u * n {
        assert((s * o) * n == (u * m) * n);
        assert(s * o == u * m) by (nonlinear_arith)
            requires
                (s * o) * n == (u * m) * n,
                n > 0,
        ;
    }
}

/// The order by hints is total.
pub(crate) proof fn lemma_hint_order(drawing: Drawing)
    ensures
        total_ordering(drawing.hint_order()),
{
}

/// The order of a sweep is total.
pub(crate) proof fn lemma_sweep_order(drawing: Drawing, layers: Seq<Seq<usize>>, down: bool)
    ensures
        total_ordering(drawing.sweep_order(layers, down)),
{
    let order = drawing.sweep_order(layers, down);
    assert forall|a: usize, b: usize, c: usize|
        #[trigger] order(a, b) && #[trigger] order(b, c) implies order(a, c) by {
        lemma_fractions(
            drawing.barycenter(layers, down, a),
            drawing.barycenter(layers, down, b),
            drawing.barycenter(layers, down, c),
        );
    }
    assert forall|a: usize, b: usize| #[trigger] order(a, b) && #[trigger] order(b, a) implies a == b by {}
    assert forall|a: usize, b: usize| #[trigger] order(a, b) || #[trigger] order(b, a) by {}
}

/// Whether layers hold exactly the nodes of a connected part, each in its rank.
pub open spec fn layers_hold(drawing: Drawing, root: usize, layers: Seq<Seq<usize>>) -> bool {
    &&& layers.len() == drawing.depth()
    &&& forall|rank: int| 0 <= rank < layers.len() ==> (#[trigger] layers[rank]).no_duplicates()
    &&& forall|rank: int, node: usize|
        0 <= rank < layers.len() ==> (#[trigger] layers[rank].contains(node) <==> node
            < drawing.model.size() && same_component(drawing.model.edges, root, node) && drawing.rank(
            node,
        ) == rank)
}

/// Ranks lie below the depth.
pub(crate) proof fn lemma_depth(ranks: Seq<usize>, node: int)
    requires
        0 <= node < ranks.len(),
    ensures
        ranks[node] < depth_of(ranks),
    decreases ranks.len(),
{
    if node < ranks.len() - 1 {
        lemma_depth(ranks.drop_last(), node);
    }
}

/// Linked nodes are connected.
proof fn lemma_linked_connected(model: GraphModel, root: usize, node: usize, other: usize)
    requires
        same_component(model.edges, root, node),
        model.linked(node, other) || model.linked(other, node),
    ensures
        same_component(model.edges, root, other),
{
    assert forall|label: spec_fn(usize) -> int| #[trigger]
        crate::layout::components::respects(model.edges, label) implies label(root) == label(other) by {
        if model.linked(node, other) {
            let k = choose|k: int|
                0 <= k < model.edges.len() && (#[trigger] model.edges[k]).source == node
                    && model.edges[k].target == other;
            assert(label(model.edges[k].source) == label(model.edges[k].target));
        } else {
            let k = choose|k: int|
                0 <= k < model.edges.len() && (#[trigger] model.edges[k]).source == other
                    && model.edges[k].target == node;
            assert(label(model.edges[k].source) == label(model.edges[k].target));
        }
    }
}

/// Sorting a layer keeps its members.
proof fn lemma_sorted_layer_holds(
    drawing: Drawing,
    root: usize,
    layers: Seq<Seq<usize>>,
    rank: int,
    sorted: Seq<usize>,
)
    requires
        layers_hold(drawing, root, layers),
        0 <= rank < layers.len(),
        sorted.to_multiset() == layers[rank].to_multiset(),
    ensures
        layers_hold(drawing, root, layers.update(rank, sorted)),
{
    broadcast use vstd::seq_lib::group_to_multiset_ensures;

    let after = layers.update(rank, sorted);
    assert forall|node: usize| sorted.contains(node) <==> layers[rank].contains(node) by {
        vstd::seq_lib::to_multiset_contains(sorted, node);
        vstd::seq_lib::to_multiset_contains(layers[rank], node);
    }
    layers[rank].lemma_multiset_has_no_duplicates();
    sorted.lemma_multiset_has_no_duplicates_conv();
    assert forall|r: int, node: usize|
        0 <= r < after.len() implies (#[trigger] after[r].contains(node) <==> node < drawing.model.size()
        && same_component(drawing.model.edges, root, node) && drawing.rank(node) == r) by {
        assert(layers[r].contains(node) || !layers[r].contains(node));
    }
}

/// The order by hints, with the keys at hand.
struct HintOrder<'a> {
    keys: &'a Vec<HintKey>,
    drawing: Ghost<Drawing>,
}

fn hint_precedes(a: &HintKey, b: &HintKey) -> (before: bool)
    ensures
        before == hint_before(*a, *b),
{
    a.class < b.class || (a.class == b.class && a.order < b.order) || (a.class == b.class && a.order
        == b.order && a.y < b.y)
}

impl<'a> Precedence for HintOrder<'a> {
    closed spec fn covers(&self, index: usize) -> bool {
        index < self.keys@.len() && self.keys@[index as int] == self.drawing@.key(index)
    }

    closed spec fn leq(&self) -> spec_fn(usize, usize) -> bool {
        self.drawing@.hint_order()
    }

    fn precedes(&self, a: usize, b: usize) -> (before: bool) {
        let left: HintKey = self.keys[a];
        let right: HintKey = self.keys[b];
        hint_precedes(&left, &right) || (left == right && a <= b)
    }
}

/// The order of a sweep, with places and keys at hand.
struct SweepOrder<'a> {
    neighbors: &'a Vec<Vec<usize>>,
    positions: &'a Vec<usize>,
    keys: &'a Vec<HintKey>,
    drawing: Ghost<Drawing>,
    layers: Ghost<Seq<Seq<usize>>>,
    down: Ghost<bool>,
}

impl<'a> SweepOrder<'a> {
    spec fn knows_position(&self, node: usize) -> bool {
        node < self.positions@.len() && self.positions@[node as int] as int == self.drawing@.position(
            self.layers@,
            node,
        ) && self.positions@[node as int] <= u32::MAX
    }

    fn barycenter(&self, node: usize) -> (center: (u64, u64))
        requires
            self.covers(node),
        ensures
            center.0 as int == self.drawing@.barycenter(self.layers@, self.down@, node).0,
            center.1 as int == self.drawing@.barycenter(self.layers@, self.down@, node).1,
            center.1 <= u32::MAX,
    {
        let list = &self.neighbors[node];
        let ghost nodes = self.drawing@.neighbors(self.down@, node);
        if list.len() == 0 {
            return (self.positions[node] as u64, 1);
        }
        let mut sum: u64 = 0;
        let mut k: usize = 0;
        while k < list.len()
            invariant
                self.covers(node),
                list@ == nodes,
                nodes == self.drawing@.neighbors(self.down@, node),
                nodes.len() <= u32::MAX,
                forall|i: int| 0 <= i < nodes.len() ==> self.knows_position(#[trigger] nodes[i]),
                0 <= k <= list.len(),
                sum as int == self.drawing@.position_sum(self.layers@, nodes.take(k as int)),
                0 <= sum <= k * (u32::MAX as u64),
            decreases list.len() - k,
        {
            assert(self.knows_position(nodes[k as int]));
            proof {
                assert(nodes.take(k + 1).drop_last() =~= nodes.take(k as int));
                assert(nodes.take(k + 1).last() == nodes[k as int]);
                assert(k * (u32::MAX as u64) + u32::MAX == (k + 1) * (u32::MAX as u64)) by (nonlinear_arith);
                assert((k + 1) * (u32::MAX as u64) <= u32::MAX * u32::MAX) by (nonlinear_arith)
                    requires
                        k + 1 <= u32::MAX,
                ;
            }
            sum = sum + self.positions[list[k]] as u64;
            k += 1;
        }
        assert(nodes.take(k as int) =~= nodes);
        (sum, list.len() as u64)
    }
}

impl<'a> Precedence for SweepOrder<'a> {
    closed spec fn covers(&self, index: usize) -> bool {
        &&& index < self.keys@.len()
        &&& self.keys@[index as int] == self.drawing@.key(index)
        &&& self.knows_position(index)
        &&& index < self.neighbors@.len()
        &&& self.neighbors@[index as int]@ == self.drawing@.neighbors(self.down@, index)
        &&& self.neighbors@[index as int]@.len() <= u32::MAX
        &&& forall|i: int|
            0 <= i < self.neighbors@[index as int]@.len() ==> self.knows_position(
                #[trigger] self.neighbors@[index as int]@[i],
            )
    }

    closed spec fn leq(&self) -> spec_fn(usize, usize) -> bool {
        self.drawing@.sweep_order(self.layers@, self.down@)
    }

    fn precedes(&self, a: usize, b: usize) -> (before: bool) {
        let left = self.barycenter(a);
        let right = self.barycenter(b);
        assert(left.0 * right.1 <= u64::MAX * u32::MAX) by (nonlinear_arith)
            requires
                left.0 <= u64::MAX,
                right.1 <= u32::MAX,
        ;
        assert(right.0 * left.1 <= u64::MAX * u32::MAX) by (nonlinear_arith)
            requires
                right.0 <= u64::MAX,
                left.1 <= u32::MAX,
        ;
        let x: u128 = left.0 as u128 * right.1 as u128;
        let y: u128 = right.0 as u128 * left.1 as u128;
        if x != y {
            return x < y;
        }
        let first: HintKey = self.keys[a];
        let second: HintKey = self.keys[b];
        if first != second {
            return hint_precedes(&first, &second);
        }
        self.positions[a] < self.positions[b] || (self.positions[a] == self.positions[b] && a <= b)
    }
}

/// The hint keys of all nodes.
pub(crate) fn hint_keys(
    graph: &PreparedGraph,
    hints: &TextMap<LayoutHint>,
    Ghost(drawing): Ghost<Drawing>,
) -> (keys: Vec<HintKey>)
    requires
        graph.matches(drawing.model),
        hints.wf(),
        drawing.hints == hints@,
    ensures
        keys@.len() == drawing.model.size(),
        forall|node: usize|
            node < drawing.model.size() ==> #[trigger] keys@[node as int] == drawing.key(node),
{
    let mut keys: Vec<HintKey> = Vec::new();
    let mut v: usize = 0;
    while v < graph.ranks.len()
        invariant
            graph.matches(drawing.model),
            hints.wf(),
            drawing.hints == hints@,
            0 <= v <= graph.ranks.len(),
            keys@.len() == v,
            forall|node: usize| node < v ==> #[trigger] keys@[node as int] == drawing.key(node),
        decreases graph.ranks.len() - v,
    {
        let rank: usize = graph.ranks[v];
        let mut key = HintKey { class: 1, order: usize::MAX, y: i32::MAX };
        if let Some(hint) = hints.get(graph.nodes.key_at(v).as_str()) {
            if hint.rank == rank {
                key = HintKey { class: 0, order: hint.order, y: hint.point.y };
            }
        }
        assert(key == drawing.key(v));
        keys.push(key);
        v += 1;
    }
    keys
}

/// One past the highest rank.
pub(crate) fn rank_depth(ranks: &Vec<usize>) -> (depth: usize)
    requires
        forall|i: int| 0 <= i < ranks@.len() ==> #[trigger] ranks@[i] < usize::MAX,
    ensures
        depth == depth_of(ranks@),
{
    let mut depth: usize = 0;
    let mut v: usize = 0;
    while v < ranks.len()
        invariant
            forall|i: int| 0 <= i < ranks@.len() ==> #[trigger] ranks@[i] < usize::MAX,
            0 <= v <= ranks.len(),
            depth == depth_of(ranks@.take(v as int)),
        decreases ranks.len() - v,
    {
        assert(ranks@.take(v + 1).drop_last() =~= ranks@.take(v as int));
        assert(ranks@.take(v + 1).last() == ranks@[v as int]);
        if ranks[v] + 1 > depth {
            depth = ranks[v] + 1;
        }
        v += 1;
    }
    assert(ranks@.take(v as int) =~= ranks@);
    depth
}

/// The nodes of a connected part by rank, ordered by their hints.
fn component_nodes_by_rank(
    component: &Component,
    graph: &PreparedGraph,
    keys: &Vec<HintKey>,
    depth: usize,
    Ghost(drawing): Ghost<Drawing>,
) -> (layers: Vec<Vec<usize>>)
    requires
        graph.matches(drawing.model),
        component.nodes@ == component_nodes(drawing.model, component.root),
        depth == drawing.depth(),
        keys@.len() == drawing.model.size(),
        forall|node: usize|
            node < drawing.model.size() ==> #[trigger] keys@[node as int] == drawing.key(node),
    ensures
        lists(layers@) == drawing.first_layers(component.root),
        layers_hold(drawing, component.root, lists(layers@)),
{
    let ghost root = component.root;
    let ghost all = component.nodes@;
    let mut grouped: Vec<Vec<usize>> = Vec::new();
    let mut r: usize = 0;
    while r < depth
        invariant
            0 <= r <= depth,
            grouped@.len() == r,
            forall|i: int| 0 <= i < r ==> (#[trigger] grouped@[i])@ == Seq::<usize>::empty(),
        decreases depth - r,
    {
        grouped.push(Vec::new());
        r += 1;
    }
    proof {
        lemma_component_members(drawing.model, root);
        reveal(Seq::filter);
        assert(all.take(0) =~= Seq::<usize>::empty());
    }
    let mut k: usize = 0;
    while k < component.nodes.len()
        invariant
            graph.matches(drawing.model),
            all == component.nodes@,
            depth == drawing.depth(),
            grouped@.len() == depth,
            0 <= k <= all.len(),
            forall|v: usize| #[trigger] all.contains(v) ==> v < drawing.model.size(),
            forall|i: int|
                0 <= i < depth ==> (#[trigger] grouped@[i])@ == all.take(k as int).filter(
                    |node: usize| drawing.rank(node) == i as usize,
                ),
        decreases all.len() - k,
    {
        let node: usize = component.nodes[k];
        let ghost before = grouped@;
        proof {
            assert(all.contains(node));
            lemma_depth(drawing.model.ranks(), node as int);
            assert(all.take(k + 1) =~= all.take(k as int).push(node));
        }
        grouped[graph.ranks[node]].push(node);
        proof {
            assert forall|i: int| 0 <= i < depth implies (#[trigger] grouped@[i])@ == all.take(k + 1).filter(
                |node: usize| drawing.rank(node) == i as usize,
            ) by {
                let keep = |node: usize| drawing.rank(node) == i as usize;
                crate::sequences::lemma_filter_push(all.take(k as int), keep, node);
                assert(before[i]@ == all.take(k as int).filter(keep));
            }
        }
        k += 1;
    }
    assert(all.take(k as int) =~= all);
    let mut layers: Vec<Vec<usize>> = Vec::new();
    let order = HintOrder { keys, drawing: Ghost(drawing) };
    let mut rank: usize = 0;
    while rank < depth
        invariant
            0 <= rank <= depth,
            depth == drawing.depth(),
            grouped@.len() == depth,
            keys@.len() == drawing.model.size(),
            order.keys == keys,
            order.drawing@ == drawing,
            all == component_nodes(drawing.model, root),
            forall|v: usize| #[trigger] all.contains(v) ==> v < drawing.model.size(),
            forall|node: usize|
                node < drawing.model.size() ==> #[trigger] keys@[node as int] == drawing.key(node),
            forall|i: int|
                0 <= i < depth ==> (#[trigger] grouped@[i])@ == all.filter(
                    |node: usize| drawing.rank(node) == i as usize,
                ),
            layers@.len() == rank,
            forall|i: int|
                0 <= i < rank ==> (#[trigger] layers@[i])@ == drawing.first_layer(root, i as usize),
        decreases depth - rank,
    {
        proof {
            lemma_hint_order(drawing);
            assert forall|v: usize| #[trigger] grouped@[rank as int]@.contains(v) implies order.covers(v) by {
                lemma_filter_members(all, |node: usize| drawing.rank(node) == rank, v);
            }
        }
        let layer = sort_indices(&grouped[rank], &order);
        layers.push(layer);
        rank += 1;
    }
    proof {
        assert(lists(layers@) =~= drawing.first_layers(root));
        lemma_first_layers_hold(drawing, root);
    }
    layers
}

/// The layers that hints order hold the connected part.
pub(crate) proof fn lemma_first_layers_hold(drawing: Drawing, root: usize)
    requires
        drawing.model.valid(),
        drawing.model.is_ranking(drawing.model.ranks()),
    ensures
        layers_hold(drawing, root, drawing.first_layers(root)),
{
    let all = component_nodes(drawing.model, root);
    let layers = drawing.first_layers(root);
    lemma_component_members(drawing.model, root);
    lemma_hint_order(drawing);
    assert forall|rank: int| 0 <= rank < layers.len() implies (#[trigger] layers[rank]).no_duplicates()
        && forall|node: usize| #[trigger] layers[rank].contains(node) <==> all.contains(node) && drawing.rank(
        node,
    ) == rank by {
        lemma_depth_bounded(drawing.model.ranks());
        let keep = |node: usize| drawing.rank(node) == rank as usize;
        let some = all.filter(keep);
        crate::sorting::lemma_filter_increasing(all, |a: usize, b: usize| a < b, keep);
        some.lemma_sort_by_ensures(drawing.hint_order());
        let sorted = some.sort_by(drawing.hint_order());
        some.lemma_multiset_has_no_duplicates();
        sorted.lemma_multiset_has_no_duplicates_conv();
        assert forall|node: usize| #[trigger] layers[rank].contains(node) <==> all.contains(node)
            && drawing.rank(node) == rank by {
            vstd::seq_lib::to_multiset_contains(sorted, node);
            vstd::seq_lib::to_multiset_contains(some, node);
            lemma_filter_members(all, keep, node);
        }
    }
    assert forall|rank: int, node: usize|
        0 <= rank < layers.len() implies (#[trigger] layers[rank].contains(node) <==> node
        < drawing.model.size() && same_component(drawing.model.edges, root, node) && drawing.rank(node)
        == rank) by {
        assert(all.contains(node) <==> node < drawing.model.size() && same_component(
            drawing.model.edges,
            root,
            node,
        ));
    }
}

/// No depth exceeds what a `usize` holds by more than one.
pub(crate) proof fn lemma_depth_bounded(ranks: Seq<usize>)
    ensures
        depth_of(ranks) <= usize::MAX + 1,
    decreases ranks.len(),
{
    if ranks.len() > 0 {
        lemma_depth_bounded(ranks.drop_last());
    }
}

/// Whether the places of the nodes of a connected part are known.
spec fn positions_known(
    drawing: Drawing,
    root: usize,
    layers: Seq<Seq<usize>>,
    positions: Seq<usize>,
) -> bool {
    &&& positions.len() == drawing.model.size()
    &&& forall|node: usize|
        #![trigger positions[node as int]]
        node < drawing.model.size() && same_component(drawing.model.edges, root, node)
            ==> positions[node as int] as int == drawing.position(layers, node)
}

/// Places lie below the number of nodes.
pub(crate) proof fn lemma_position_bounded(drawing: Drawing, root: usize, layers: Seq<Seq<usize>>, node: usize)
    requires
        drawing.model.valid(),
        layers_hold(drawing, root, layers),
        drawing.model.ranks().len() == drawing.model.size(),
        node < drawing.model.size(),
        same_component(drawing.model.edges, root, node),
    ensures
        0 <= drawing.position(layers, node) < layers[drawing.rank(node) as int].len(),
        layers[drawing.rank(node) as int][drawing.position(layers, node)] == node,
        layers[drawing.rank(node) as int].len() <= drawing.model.size(),
{
    let rank = drawing.rank(node) as int;
    lemma_depth(drawing.model.ranks(), node as int);
    assert(layers[rank].contains(node));
    lemma_distinct_bounded(layers[rank], drawing.model.size());
}

/// Distinct numbers below a bound are no more than the bound.
pub(crate) proof fn lemma_distinct_bounded(items: Seq<usize>, size: nat)
    requires
        items.no_duplicates(),
        forall|v: usize| #[trigger] items.contains(v) ==> v < size,
    ensures
        items.len() <= size,
{
    let ints = items.map_values(|v: usize| v as int);
    let range = vstd::set_lib::set_int_range(0, size as int);
    vstd::set_lib::lemma_int_range(0, size as int);
    assert(ints.no_duplicates());
    ints.unique_seq_to_set();
    assert(ints.to_set().subset_of(range)) by {
        assert forall|v: int| ints.to_set().contains(v) implies range.contains(v) by {
            let n = ints.index_of(v);
            assert(items.contains(items[n]));
        }
    }
    vstd::set_lib::lemma_len_subset(ints.to_set(), range);
}

/// Records the places of the nodes of one layer.
fn record_layer(
    layer: &Vec<usize>,
    positions: &mut Vec<usize>,
    Ghost(drawing): Ghost<Drawing>,
    Ghost(layers): Ghost<Seq<Seq<usize>>>,
    Ghost(root): Ghost<usize>,
    Ghost(rank): Ghost<int>,
)
    requires
        layers_hold(drawing, root, layers),
        0 <= rank < layers.len(),
        layer@ == layers[rank],
        old(positions)@.len() == drawing.model.size(),
    ensures
        final(positions)@.len() == drawing.model.size(),
        forall|node: usize|
            #![trigger final(positions)@[node as int]]
            node < drawing.model.size() ==> if layers[rank].contains(node) {
                final(positions)@[node as int] as int == drawing.position(layers, node)
            } else {
                final(positions)@[node as int] == old(positions)@[node as int]
            },
{
    let ghost list = layers[rank];
    let mut k: usize = 0;
    while k < layer.len()
        invariant
            layers_hold(drawing, root, layers),
            0 <= rank < layers.len(),
            layer@ == list,
            list == layers[rank],
            0 <= k <= list.len(),
            positions@.len() == drawing.model.size(),
            forall|node: usize|
                #![trigger positions@[node as int]]
                node < drawing.model.size() ==> if list.take(k as int).contains(node) {
                    positions@[node as int] as int == list.index_of(node)
                } else {
                    positions@[node as int] == old(positions)@[node as int]
                },
        decreases list.len() - k,
    {
        let node: usize = layer[k];
        proof {
            assert(layers[rank].contains(node));
            assert(list.take(k + 1) =~= list.take(k as int).push(node));
            assert forall|v: usize| list.take(k + 1).contains(v) <==> list.take(k as int).contains(v) || v
                == node by {
                crate::sequences::lemma_push_members(list.take(k as int), node, v);
            }
            assert(list.index_of(node) == k);
        }
        positions.set(node, k);
        proof {
            assert forall|v: usize|
                #![trigger positions@[v as int]]
                v < drawing.model.size() implies if list.take(k + 1).contains(v) {
                positions@[v as int] as int == list.index_of(v)
            } else {
                positions@[v as int] == old(positions)@[v as int]
            } by {
                crate::sequences::lemma_push_members(list.take(k as int), node, v);
            }
        }
        k += 1;
    }
    proof {
        assert(list.take(k as int) =~= list);
        assert forall|node: usize|
            #![trigger positions@[node as int]]
            node < drawing.model.size() implies if list.contains(node) {
            positions@[node as int] as int == drawing.position(layers, node)
        } else {
            positions@[node as int] == old(positions)@[node as int]
        } by {
            if layers[rank].contains(node) {
                assert(drawing.rank(node) == rank);
            }
        }
    }
}

/// Sorts one rank by the mean places of its nodes' neighbours.
fn sweep_rank(
    layers: &mut Vec<Vec<usize>>,
    positions: &mut Vec<usize>,
    rank: usize,
    neighbors: &Vec<Vec<usize>>,
    keys: &Vec<HintKey>,
    Ghost(drawing): Ghost<Drawing>,
    Ghost(root): Ghost<usize>,
    Ghost(down): Ghost<bool>,
)
    requires
        drawing.model.valid(),
        drawing.model.ranks().len() == drawing.model.size(),
        drawing.model.size() <= u32::MAX,
        layers_hold(drawing, root, lists(old(layers)@)),
        positions_known(drawing, root, lists(old(layers)@), old(positions)@),
        rank < old(layers)@.len(),
        neighbors@.len() == drawing.model.size(),
        forall|node: usize|
            node < drawing.model.size() ==> (#[trigger] neighbors@[node as int])@ == drawing.neighbors(
                down,
                node,
            ),
        keys@.len() == drawing.model.size(),
        forall|node: usize|
            node < drawing.model.size() ==> #[trigger] keys@[node as int] == drawing.key(node),
    ensures
        lists(final(layers)@) == drawing.swept(lists(old(layers)@), down, rank as int),
        layers_hold(drawing, root, lists(final(layers)@)),
        positions_known(drawing, root, lists(final(layers)@), final(positions)@),
{
    let ghost before = lists(layers@);
    let mut layer: Vec<usize> = Vec::new();
    {
        let order = SweepOrder {
            neighbors,
            positions: &*positions,
            keys,
            drawing: Ghost(drawing),
            layers: Ghost(before),
            down: Ghost(down),
        };
        proof {
            lemma_sweep_order(drawing, before, down);
            assert(before[rank as int] == layers@[rank as int]@);
            assert forall|v: usize| #[trigger] before[rank as int].contains(v) implies order.covers(v) by {
                assert forall|u: usize| u < drawing.model.size() && same_component(
                    drawing.model.edges,
                    root,
                    u,
                ) implies order.knows_position(u) by {
                    lemma_position_bounded(drawing, root, before, u);
                    assert(positions@[u as int] as int == drawing.position(before, u));
                }
                let list = drawing.neighbors(down, v);
                assert(neighbors@[v as int]@ == list);
                lemma_neighbor_lists(drawing, down, v);
                assert forall|i: int| 0 <= i < list.len() implies order.knows_position(#[trigger] list[i]) by {
                    assert(list.contains(list[i]));
                    lemma_linked_connected(drawing.model, root, v, list[i]);
                }
                lemma_distinct_bounded(list, drawing.model.size());
            }
        }
        layer = sort_indices(&layers[rank], &order);
    }
    let ghost after = before.update(rank as int, layer@);
    proof {
        lemma_sorted_layer_holds(drawing, root, before, rank as int, layer@);
    }
    record_layer(
        &layer,
        positions,
        Ghost(drawing),
        Ghost(after),
        Ghost(root),
        Ghost(rank as int),
    );
    layers.set(rank, layer);
    proof {
        assert(lists(layers@) =~= after);
        assert forall|node: usize|
            #![trigger positions@[node as int]]
            node < drawing.model.size() && same_component(drawing.model.edges, root, node) implies positions@[node as int] as int
            == drawing.position(after, node) by {
            lemma_depth(drawing.model.ranks(), node as int);
            assert(after[rank as int].contains(node) <==> drawing.rank(node) == rank);
            assert(old(positions)@[node as int] as int == drawing.position(before, node));
        }
    }
}

/// The neighbour lists hold linked nodes, each once.
pub(crate) proof fn lemma_neighbor_lists(drawing: Drawing, down: bool, node: usize)
    requires
        drawing.model.valid(),
    ensures
        drawing.neighbors(down, node).no_duplicates(),
        forall|v: usize| #[trigger]
            drawing.neighbors(down, node).contains(v) ==> v < drawing.model.size() && (
            drawing.model.linked(node, v) || drawing.model.linked(v, node)),
{
    let all = indices(drawing.model.size());
    let keep = if down {
        |v: usize| drawing.model.linked(v, node)
    } else {
        |v: usize| drawing.model.linked(node, v)
    };
    let list = drawing.neighbors(down, node);
    assert(list == all.filter(keep)) by {
        if down {
            assert(list == all.filter(|source: usize| drawing.model.linked(source, node)));
        } else {
            assert(list == all.filter(|target: usize| drawing.model.linked(node, target)));
        }
    }
    crate::sorting::lemma_filter_increasing(all, |a: usize, b: usize| a < b, keep);
    assert forall|v: usize| #[trigger] list.contains(v) implies v < drawing.model.size() && (
    drawing.model.linked(node, v) || drawing.model.linked(v, node)) by {
        lemma_filter_members(all, keep, v);
    }
}

/// The ranks that may be ordered again.
pub open spec fn reflow_view(reflow_ranks: Option<&BTreeSet<usize>>) -> Option<Set<usize>> {
    match reflow_ranks {
        None => None,
        Some(ranks) => Some(ranks@),
    }
}

fn reflows(reflow_ranks: Option<&BTreeSet<usize>>, rank: usize) -> (allowed: bool)
    ensures
        allowed == may_reflow(reflow_view(reflow_ranks), rank),
{
    match reflow_ranks {
        None => true,
        Some(ranks) => ranks.contains(&rank),
    }
}

/// Sweeps twice down and up through the ranks.
fn reduce_crossings(
    layers: &mut Vec<Vec<usize>>,
    positions: &mut Vec<usize>,
    graph: &PreparedGraph,
    keys: &Vec<HintKey>,
    reflow_ranks: Option<&BTreeSet<usize>>,
    Ghost(drawing): Ghost<Drawing>,
    Ghost(root): Ghost<usize>,
)
    requires
        graph.matches(drawing.model),
        drawing.model.size() <= u32::MAX,
        layers_hold(drawing, root, lists(old(layers)@)),
        positions_known(drawing, root, lists(old(layers)@), old(positions)@),
        keys@.len() == drawing.model.size(),
        forall|node: usize|
            node < drawing.model.size() ==> #[trigger] keys@[node as int] == drawing.key(node),
    ensures
        lists(final(layers)@) == drawing.swept_once(
            drawing.swept_once(lists(old(layers)@), reflow_view(reflow_ranks)),
            reflow_view(reflow_ranks),
        ),
        layers_hold(drawing, root, lists(final(layers)@)),
        final(positions)@.len() == drawing.model.size(),
{
    let ghost reflow = reflow_view(reflow_ranks);
    let ghost start = lists(layers@);
    let mut round: usize = 0;
    while round < 2
        invariant
            graph.matches(drawing.model),
            drawing.model.size() <= u32::MAX,
            layers_hold(drawing, root, lists(layers@)),
            positions_known(drawing, root, lists(layers@), positions@),
            keys@.len() == drawing.model.size(),
            forall|node: usize|
                node < drawing.model.size() ==> #[trigger] keys@[node as int] == drawing.key(node),
            reflow == reflow_view(reflow_ranks),
            0 <= round <= 2,
            round == 0 ==> lists(layers@) == start,
            round == 1 ==> lists(layers@) == drawing.swept_once(start, reflow),
            round == 2 ==> lists(layers@) == drawing.swept_once(
                drawing.swept_once(start, reflow),
                reflow,
            ),
        decreases 2 - round,
    {
        let ghost before = lists(layers@);
        let count: usize = layers.len();
        let mut rank: usize = 0;
        while rank < count
            invariant
                graph.matches(drawing.model),
                drawing.model.size() <= u32::MAX,
                layers_hold(drawing, root, lists(layers@)),
                positions_known(drawing, root, lists(layers@), positions@),
                keys@.len() == drawing.model.size(),
                forall|node: usize|
                    node < drawing.model.size() ==> #[trigger] keys@[node as int] == drawing.key(node),
                reflow == reflow_view(reflow_ranks),
                layers@.len() == count,
                before.len() == count,
                0 <= rank <= count,
                lists(layers@) == drawing.swept_down(before, reflow, rank as nat),
            decreases count - rank,
        {
            if reflows(reflow_ranks, rank) {
                assert forall|node: usize|
                    node < drawing.model.size() implies (#[trigger] graph.incoming@[node as int])@
                    == drawing.neighbors(true, node) by {}
                sweep_rank(
                    layers,
                    positions,
                    rank,
                    &graph.incoming,
                    keys,
                    Ghost(drawing),
                    Ghost(root),
                    Ghost(true),
                );
                assert(layers@.len() == lists(layers@).len());
            }
            rank += 1;
        }
        let ghost down = lists(layers@);
        let mut left: usize = count;
        while left > 0
            invariant
                graph.matches(drawing.model),
                drawing.model.size() <= u32::MAX,
                layers_hold(drawing, root, lists(layers@)),
                positions_known(drawing, root, lists(layers@), positions@),
                keys@.len() == drawing.model.size(),
                forall|node: usize|
                    node < drawing.model.size() ==> #[trigger] keys@[node as int] == drawing.key(node),
                reflow == reflow_view(reflow_ranks),
                layers@.len() == count,
                down.len() == count,
                0 <= left <= count,
                lists(layers@) == drawing.swept_up(down, reflow, (count - left) as nat),
            decreases left,
        {
            left = left - 1;
            if reflows(reflow_ranks, left) {
                assert forall|node: usize|
                    node < drawing.model.size() implies (#[trigger] graph.outgoing@[node as int])@
                    == drawing.neighbors(false, node) by {}
                sweep_rank(
                    layers,
                    positions,
                    left,
                    &graph.outgoing,
                    keys,
                    Ghost(drawing),
                    Ghost(root),
                    Ghost(false),
                );
                assert(layers@.len() == lists(layers@).len());
            }
        }
        round += 1;
    }
}

/// The nodes of a connected part by rank, in their final order.
pub(crate) fn order_component(
    component: &Component,
    graph: &PreparedGraph,
    keys: &Vec<HintKey>,
    depth: usize,
    reflow_ranks: Option<&BTreeSet<usize>>,
    positions: &mut Vec<usize>,
    Ghost(drawing): Ghost<Drawing>,
) -> (layers: Vec<Vec<usize>>)
    requires
        graph.matches(drawing.model),
        drawing.model.size() <= u32::MAX,
        component.nodes@ == component_nodes(drawing.model, component.root),
        depth == drawing.depth(),
        keys@.len() == drawing.model.size(),
        forall|node: usize|
            node < drawing.model.size() ==> #[trigger] keys@[node as int] == drawing.key(node),
        old(positions)@.len() == drawing.model.size(),
    ensures
        lists(layers@) == drawing.final_layers(component.root, reflow_view(reflow_ranks)),
        layers_hold(drawing, component.root, lists(layers@)),
        final(positions)@.len() == drawing.model.size(),
{
    let ghost root = component.root;
    let mut layers = component_nodes_by_rank(component, graph, keys, depth, Ghost(drawing));
    let ghost all = lists(layers@);
    let mut rank: usize = 0;
    while rank < layers.len()
        invariant
            graph.matches(drawing.model),
            all == lists(layers@),
            layers_hold(drawing, root, all),
            positions@.len() == drawing.model.size(),
            0 <= rank <= layers.len(),
            forall|node: usize|
                #![trigger positions@[node as int]]
                node < drawing.model.size() && same_component(drawing.model.edges, root, node)
                    && drawing.rank(node) < rank ==> positions@[node as int] as int
                    == drawing.position(all, node),
        decreases layers.len() - rank,
    {
        let ghost earlier = positions@;
        assert(all[rank as int] == layers@[rank as int]@);
        record_layer(
            &layers[rank],
            positions,
            Ghost(drawing),
            Ghost(all),
            Ghost(root),
            Ghost(rank as int),
        );
        proof {
            assert forall|node: usize|
                #![trigger positions@[node as int]]
                node < drawing.model.size() && same_component(drawing.model.edges, root, node)
                    && drawing.rank(node) < rank + 1 implies positions@[node as int] as int
                == drawing.position(all, node) by {
                assert(all[rank as int].contains(node) <==> drawing.rank(node) == rank);
                assert(earlier[node as int] == earlier[node as int]);
            }
        }
        rank += 1;
    }
    proof {
        assert forall|node: usize|
            #![trigger positions@[node as int]]
            node < drawing.model.size() && same_component(drawing.model.edges, root, node) implies positions@[node as int] as int
            == drawing.position(all, node) by {
            lemma_depth(drawing.model.ranks(), node as int);
        }
    }
    reduce_crossings(
        &mut layers,
        positions,
        graph,
        keys,
        reflow_ranks,
        Ghost(drawing),
        Ghost(root),
    );
    layers
}

/// Sweeping a rank keeps the members of the layers.
proof fn lemma_swept_holds(drawing: Drawing, root: usize, layers: Seq<Seq<usize>>, down: bool, rank: int)
    requires
        layers_hold(drawing, root, layers),
        0 <= rank < layers.len(),
    ensures
        layers_hold(drawing, root, drawing.swept(layers, down, rank)),
{
    lemma_sweep_order(drawing, layers, down);
    layers[rank].lemma_sort_by_ensures(drawing.sweep_order(layers, down));
    lemma_sorted_layer_holds(
        drawing,
        root,
        layers,
        rank,
        layers[rank].sort_by(drawing.sweep_order(layers, down)),
    );
}

pub(crate) proof fn lemma_swept_down_holds(
    drawing: Drawing,
    root: usize,
    layers: Seq<Seq<usize>>,
    reflow: Option<Set<usize>>,
    count: nat,
)
    requires
        layers_hold(drawing, root, layers),
        count <= layers.len(),
    ensures
        layers_hold(drawing, root, drawing.swept_down(layers, reflow, count)),
    decreases count,
{
    if count > 0 {
        lemma_swept_down_holds(drawing, root, layers, reflow, (count - 1) as nat);
        lemma_swept_holds(
            drawing,
            root,
            drawing.swept_down(layers, reflow, (count - 1) as nat),
            true,
            count - 1,
        );
    }
}

pub(crate) proof fn lemma_swept_up_holds(
    drawing: Drawing,
    root: usize,
    layers: Seq<Seq<usize>>,
    reflow: Option<Set<usize>>,
    count: nat,
)
    requires
        layers_hold(drawing, root, layers),
        count <= layers.len(),
    ensures
        layers_hold(drawing, root, drawing.swept_up(layers, reflow, count)),
    decreases count,
{
    if count > 0 {
        lemma_swept_up_holds(drawing, root, layers, reflow, (count - 1) as nat);
        lemma_swept_holds(
            drawing,
            root,
            drawing.swept_up(layers, reflow, (count - 1) as nat),
            false,
            layers.len() - count,
        );
    }
}

/// The final layers of a connected part hold its nodes, each once and in its rank.
pub proof fn lemma_final_layers_hold(drawing: Drawing, root: usize, reflow: Option<Set<usize>>)
    requires
        drawing.model.valid(),
        drawing.model.is_ranking(drawing.model.ranks()),
    ensures
        layers_hold(drawing, root, drawing.final_layers(root, reflow)),
{
    let first = drawing.first_layers(root);
    lemma_first_layers_hold(drawing, root);
    lemma_swept_down_holds(drawing, root, first, reflow, first.len());
    let down = drawing.swept_down(first, reflow, first.len());
    lemma_swept_up_holds(drawing, root, down, reflow, first.len());
    let once = drawing.swept_once(first, reflow);
    lemma_swept_down_holds(drawing, root, once, reflow, once.len());
    let again = drawing.swept_down(once, reflow, once.len());
    lemma_swept_up_holds(drawing, root, again, reflow, once.len());
}

} // verus!
