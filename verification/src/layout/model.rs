//! The graph behind a snapshot, with its nodes numbered in text order of their ids.

use vstd::prelude::*;
use crate::graph::GraphEdge;
use crate::graph::GraphEdgeKind;
use crate::graph::GraphNode;
use crate::graph::GraphSnapshot;
use crate::layout::GraphLayoutEdgeKind;
use crate::ordered::sorted_texts;
use crate::sorting::increasing;

verus! {

/// An edge between numbered nodes.
#[derive(Debug, Clone, Copy, PartialEq, Eq, Structural)]
pub struct EdgeIndex {
    pub kind: GraphLayoutEdgeKind,
    pub source: usize,
    pub target: usize,
}

/// The place of a kind in the order of kinds.
pub open spec fn kind_order(kind: GraphLayoutEdgeKind) -> int {
    match kind {
        GraphLayoutEdgeKind::Primary => 0,
        GraphLayoutEdgeKind::Merge => 1,
        GraphLayoutEdgeKind::Shadow => 2,
    }
}

/// Edges are ordered by kind, then by source, then by target.
pub open spec fn edge_before(a: EdgeIndex, b: EdgeIndex) -> bool {
    ||| kind_order(a.kind) < kind_order(b.kind)
    ||| (a.kind == b.kind && a.source < b.source)
    ||| (a.kind == b.kind && a.source == b.source && a.target < b.target)
}

/// The kind of a laid out edge.
pub open spec fn layout_kind(kind: GraphEdgeKind) -> GraphLayoutEdgeKind {
    match kind {
        GraphEdgeKind::Primary => GraphLayoutEdgeKind::Primary,
        GraphEdgeKind::Merge => GraphLayoutEdgeKind::Merge,
        GraphEdgeKind::Shadow => GraphLayoutEdgeKind::Shadow,
    }
}

/// The ids of the nodes, in the order of the snapshot.
pub open spec fn node_ids(nodes: Seq<GraphNode>) -> Seq<Seq<char>> {
    nodes.map_values(|node: GraphNode| node.id@)
}

/// The first node whose id an earlier node has.
pub open spec fn is_first_duplicate(nodes: Seq<GraphNode>, index: int) -> bool {
    &&& 0 <= index < nodes.len()
    &&& node_ids(nodes).take(index).contains(nodes[index].id@)
    &&& node_ids(nodes).take(index).no_duplicates()
}

/// Whether both ends of an edge are among the given ids.
pub open spec fn has_both_ends(ids: Set<Seq<char>>, edge: GraphEdge) -> bool {
    ids.contains(edge.source@) && ids.contains(edge.target@)
}

/// The first edge with an end that is no node.
pub open spec fn is_first_dangling(ids: Set<Seq<char>>, edges: Seq<GraphEdge>, index: int) -> bool {
    &&& 0 <= index < edges.len()
    &&& !has_both_ends(ids, edges[index])
    &&& forall|i: int| 0 <= i < index ==> has_both_ends(ids, #[trigger] edges[i])
}

/// An edge of the snapshot between numbered nodes.
pub open spec fn edge_identity(ids: Seq<Seq<char>>, edge: GraphEdge) -> EdgeIndex {
    EdgeIndex {
        kind: layout_kind(edge.kind),
        source: ids.index_of(edge.source@) as usize,
        target: ids.index_of(edge.target@) as usize,
    }
}

/// The distinct edges, in their order.
pub open spec fn edge_list(ids: Seq<Seq<char>>, edges: Seq<GraphEdge>) -> Seq<EdgeIndex> {
    choose|list: Seq<EdgeIndex>|
        increasing(list, |a: EdgeIndex, b: EdgeIndex| edge_before(a, b)) && #[trigger] list.to_set()
            == edges.map_values(|edge: GraphEdge| edge_identity(ids, edge)).to_set()
}

/// The sources of the edges into a node.
pub open spec fn parents_in(edges: Seq<EdgeIndex>, node: usize) -> Set<usize> {
    Set::new(
        |source: usize|
            exists|k: int|
                0 <= k < edges.len() && (#[trigger] edges[k]).source == source && edges[k].target == node,
    )
}

/// A graph with numbered nodes.
#[verifier::ext_equal]
pub struct GraphModel {
    pub ids: Seq<Seq<char>>,
    pub edges: Seq<EdgeIndex>,
}

/// The graph of a snapshot.
pub open spec fn graph_model(snapshot: &GraphSnapshot) -> GraphModel {
    let ids = sorted_texts(node_ids(snapshot.nodes@).to_set());
    GraphModel { ids, edges: edge_list(ids, snapshot.edges@) }
}

impl GraphModel {
    /// How many nodes there are.
    pub open spec fn size(self) -> nat {
        self.ids.len()
    }

    /// Every edge joins two nodes.
    pub open spec fn valid(self) -> bool {
        &&& self.ids.len() <= usize::MAX
        &&& forall|k: int|
            0 <= k < self.edges.len() ==> (#[trigger] self.edges[k]).source < self.size()
                && self.edges[k].target < self.size()
    }

    /// Whether some edge leads from one node to another.
    pub open spec fn linked(self, source: usize, target: usize) -> bool {
        parents_in(self.edges, target).contains(source)
    }

    /// The parents of a node, in order.
    pub open spec fn parent_list(self, node: usize) -> Seq<usize> {
        crate::sorting::indices(self.size()).filter(|source: usize| self.linked(source, node))
    }

    /// The children of a node, in order.
    pub open spec fn child_list(self, node: usize) -> Seq<usize> {
        crate::sorting::indices(self.size()).filter(|target: usize| self.linked(node, target))
    }

    /// An order of nodes in which each comes behind all of its parents.
    pub open spec fn is_release_order(self, order: Seq<usize>) -> bool {
        &&& order.no_duplicates()
        &&& forall|i: int| 0 <= i < order.len() ==> (#[trigger] order[i]) < self.size()
        &&& forall|i: int|
            #![trigger order[i]]
            0 <= i < order.len() ==> parents_in(self.edges, order[i]).subset_of(
                order.take(i).to_set(),
            )
    }

    /// The nodes that some such order reaches. The others lie on a cycle or behind one.
    pub open spec fn released(self) -> Set<usize> {
        Set::new(
            |node: usize|
                exists|order: Seq<usize>|
                    self.is_release_order(order) && #[trigger] order.contains(node),
        )
    }

    /// Whether every node can be put behind its parents.
    pub open spec fn is_layered(self) -> bool {
        forall|node: usize| node < self.size() ==> #[trigger] self.released().contains(node)
    }

    /// The first node that cannot be put behind its parents.
    pub open spec fn is_first_stuck(self, node: usize) -> bool {
        &&& node < self.size()
        &&& !self.released().contains(node)
        &&& forall|other: usize| other < node ==> #[trigger] self.released().contains(other)
    }

    /// Whether each node has the rank behind its highest parent, and zero without parents.
    pub open spec fn is_ranking(self, ranks: Seq<usize>) -> bool {
        &&& ranks.len() == self.size()
        &&& forall|source: usize, target: usize| #[trigger]
            self.linked(source, target) ==> ranks[source as int] < ranks[target as int]
        &&& forall|node: usize|
            #![trigger ranks[node as int]]
            node < self.size() && ranks[node as int] > 0 ==> exists|parent: usize|
                self.linked(parent, node) && ranks[node as int] == ranks[parent as int] + 1
    }

    /// The ranks of the nodes: the length of the longest path into each.
    pub open spec fn ranks(self) -> Seq<usize> {
        choose|ranks: Seq<usize>| self.is_ranking(ranks)
    }
}

} // verus!
