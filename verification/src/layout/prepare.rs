//! Checking a snapshot and ranking its nodes.

use vstd::prelude::*;
use crate::graph::GraphEdge;
use crate::graph::GraphEdgeKind;
use crate::graph::GraphNode;
use crate::graph::GraphSnapshot;
use crate::layout::model::edge_before;
use crate::layout::model::edge_identity;
use crate::layout::model::edge_list;
use crate::layout::model::graph_model;
use crate::layout::model::has_both_ends;
use crate::layout::model::is_first_dangling;
use crate::layout::model::is_first_duplicate;
use crate::layout::model::kind_order;
use crate::layout::model::layout_kind;
use crate::layout::model::node_ids;
use crate::layout::model::parents_in;
use crate::layout::model::EdgeIndex;
use crate::layout::model::GraphModel;
use crate::layout::GraphLayoutEdgeKind;
use crate::layout::GraphLayoutError;
use crate::layout::GraphLayoutErrorView;
use crate::ordered::lemma_sorted_texts;
use crate::ordered::TextMap;
use crate::sequences::lemma_push_members;
use crate::sorting::increasing;
use crate::sorting::indices;
use crate::sorting::lemma_increasing_insert;
use crate::sorting::lemma_increasing_unique;
use crate::sorting::lemma_indices_filtered;

verus! {

/// The graph of a snapshot, or why it cannot be laid out.
pub open spec fn preparation(snapshot: &GraphSnapshot) -> Result<GraphModel, GraphLayoutErrorView> {
    let nodes = snapshot.nodes@;
    let edges = snapshot.edges@;
    let known = node_ids(nodes).to_set();
    if exists|index: int| is_first_duplicate(nodes, index) {
        let index = choose|index: int| is_first_duplicate(nodes, index);
        Err(GraphLayoutErrorView::DuplicateNode { node_id: nodes[index].id@ })
    } else if exists|index: int| is_first_dangling(known, edges, index) {
        let index = choose|index: int| is_first_dangling(known, edges, index);
        let edge = edges[index];
        Err(
            GraphLayoutErrorView::MissingEdgeNode {
                source_id: edge.source@,
                target_id: edge.target@,
                missing_node_id: if known.contains(edge.source@) {
                    edge.target@
                } else {
                    edge.source@
                },
            },
        )
    } else {
        let model = graph_model(snapshot);
        if model.is_layered() {
            Ok(model)
        } else {
            let node = choose|node: usize| model.is_first_stuck(node);
            Err(GraphLayoutErrorView::Cycle { node_id: model.ids[node as int] })
        }
    }
}

/// A snapshot that passed the checks. Nodes are numbered in text order of their ids.
#[derive(Debug)]
pub(crate) struct PreparedGraph {
    pub(crate) nodes: TextMap<usize>,
    pub(crate) edges: Vec<EdgeIndex>,
    pub(crate) incoming: Vec<Vec<usize>>,
    pub(crate) outgoing: Vec<Vec<usize>>,
    pub(crate) ranks: Vec<usize>,
}

impl PreparedGraph {
    /// The map from ids leads to the snapshot's nodes.
    pub(crate) open spec fn names(&self, snapshot: &GraphSnapshot) -> bool {
        &&& self.nodes.wf()
        &&& node_ids(snapshot.nodes@).no_duplicates()
        &&& self.nodes@.dom() == node_ids(snapshot.nodes@).to_set()
        &&& forall|id: Seq<char>| #[trigger]
            self.nodes@.contains_key(id) ==> self.nodes@[id] < snapshot.nodes@.len()
                && snapshot.nodes@[self.nodes@[id] as int].id@ == id && self.nodes@[id] as int
                == node_ids(snapshot.nodes@).index_of(id)
    }

    /// The lists are those of the graph.
    pub(crate) open spec fn matches(&self, model: GraphModel) -> bool {
        &&& model.valid()
        &&& self.nodes.keys() == model.ids
        &&& self.edges@ == model.edges
        &&& self.incoming@.len() == model.size()
        &&& self.outgoing@.len() == model.size()
        &&& forall|node: usize|
            node < model.size() ==> (#[trigger] self.incoming@[node as int])@ == model.parent_list(node)
        &&& forall|node: usize|
            node < model.size() ==> (#[trigger] self.outgoing@[node as int])@ == model.child_list(node)
        &&& self.ranks@ == model.ranks()
        &&& model.is_ranking(self.ranks@)
    }
}

fn kind_number(kind: GraphLayoutEdgeKind) -> (number: u8)
    ensures
        number as int == kind_order(kind),
{
    match kind {
        GraphLayoutEdgeKind::Primary => 0,
        GraphLayoutEdgeKind::Merge => 1,
        GraphLayoutEdgeKind::Shadow => 2,
    }
}

fn edge_precedes(a: &EdgeIndex, b: &EdgeIndex) -> (before: bool)
    ensures
        before == edge_before(*a, *b),
{
    let left: u8 = kind_number(a.kind);
    let right: u8 = kind_number(b.kind);
    left < right || (left == right && a.source < b.source) || (left == right && a.source == b.source
        && a.target < b.target)
}

/// The order of edges is strict and total.
pub(crate) proof fn lemma_edge_order()
    ensures
        forall|a: EdgeIndex, b: EdgeIndex| #[trigger] edge_before(a, b) ==> !edge_before(b, a),
        forall|a: EdgeIndex, b: EdgeIndex|
            !(#[trigger] edge_before(a, b)) && !edge_before(b, a) ==> a == b,
        forall|a: EdgeIndex, b: EdgeIndex, c: EdgeIndex|
            #[trigger] edge_before(a, b) && #[trigger] edge_before(b, c) ==> edge_before(a, c),
{
}

/// Adds an edge to the distinct edges at its place.
fn insert_edge(list: &mut Vec<EdgeIndex>, edge: EdgeIndex)
    requires
        increasing(old(list)@, |a: EdgeIndex, b: EdgeIndex| edge_before(a, b)),
    ensures
        increasing(final(list)@, |a: EdgeIndex, b: EdgeIndex| edge_before(a, b)),
        final(list)@.to_set() == old(list)@.to_set().insert(edge),
{
    let ghost before = |a: EdgeIndex, b: EdgeIndex| edge_before(a, b);
    proof {
        lemma_edge_order();
    }
    let mut low: usize = 0;
    let mut high: usize = list.len();
    while low < high
        invariant
            low <= high <= list.len(),
            list@ == old(list)@,
            before == (|a: EdgeIndex, b: EdgeIndex| edge_before(a, b)),
            increasing(list@, before),
            forall|i: int| 0 <= i < low ==> edge_before(#[trigger] list@[i], edge),
            forall|i: int| high <= i < list.len() ==> !edge_before(#[trigger] list@[i], edge),
        decreases high - low,
    {
        let middle: usize = low + (high - low) / 2;
        proof {
            lemma_edge_order();
        }
        if edge_precedes(&list[middle], &edge) {
            assert forall|i: int| 0 <= i < middle + 1 implies edge_before(#[trigger] list@[i], edge) by {
                if i < middle {
                    assert(before(list@[i], list@[middle as int]));
                }
            }
            low = middle + 1;
        } else {
            assert forall|i: int| middle <= i < list.len() implies !edge_before(
                #[trigger] list@[i],
                edge,
            ) by {
                if i > middle && edge_before(list@[i], edge) {
                    assert(before(list@[middle as int], list@[i]));
                }
            }
            high = middle;
        }
    }
    if low < list.len() && list[low] == edge {
        proof {
            assert(list@.contains(list@[low as int]));
            assert(list@.to_set() =~= old(list)@.to_set().insert(edge));
        }
        return ;
    }
    proof {
        assert forall|i: int| low <= i < list.len() implies before(edge, #[trigger] list@[i]) by {
            if i > low {
                assert(before(list@[low as int], list@[i]));
            }
            assert(list@[low as int] != edge);
            assert(edge_before(edge, list@[low as int]));
        }
        lemma_increasing_insert(list@, low as int, edge, before);
    }
    list.insert(low, edge);
}

/// Adds a number to distinct numbers at its place.
pub(crate) fn insert_index(list: &mut Vec<usize>, index: usize)
    requires
        increasing(old(list)@, |a: usize, b: usize| a < b),
    ensures
        increasing(final(list)@, |a: usize, b: usize| a < b),
        forall|v: usize| #[trigger]
            final(list)@.contains(v) <==> old(list)@.contains(v) || v == index,
{
    let ghost before = |a: usize, b: usize| a < b;
    let mut low: usize = 0;
    let mut high: usize = list.len();
    while low < high
        invariant
            low <= high <= list.len(),
            list@ == old(list)@,
            before == (|a: usize, b: usize| a < b),
            increasing(list@, before),
            forall|i: int| 0 <= i < low ==> (#[trigger] list@[i]) < index,
            forall|i: int| high <= i < list.len() ==> (#[trigger] list@[i]) >= index,
        decreases high - low,
    {
        let middle: usize = low + (high - low) / 2;
        if list[middle] < index {
            assert forall|i: int| 0 <= i < middle + 1 implies (#[trigger] list@[i]) < index by {
                if i < middle {
                    assert(before(list@[i], list@[middle as int]));
                }
            }
            low = middle + 1;
        } else {
            assert forall|i: int| middle <= i < list.len() implies (#[trigger] list@[i]) >= index by {
                if i > middle {
                    assert(before(list@[middle as int], list@[i]));
                }
            }
            high = middle;
        }
    }
    if low < list.len() && list[low] == index {
        assert(list@.contains(list@[low as int]));
        return ;
    }
    proof {
        assert forall|i: int| low <= i < list.len() implies before(index, #[trigger] list@[i]) by {
            if i > low {
                assert(before(list@[low as int], list@[i]));
            }
        }
        lemma_increasing_insert(list@, low as int, index, before);
    }
    list.insert(low, index);
    proof {
        assert forall|v: usize| #[trigger] list@.contains(v) <==> old(list)@.contains(v) || v == index by {
            assert(list@.to_set().contains(v) <==> old(list)@.to_set().insert(index).contains(v));
        }
    }
}

/// Collects the nodes by id, or finds the first repeated one.
fn collect_nodes(nodes: &Vec<GraphNode>) -> (outcome: Result<TextMap<usize>, GraphLayoutError>)
    ensures
        match outcome {
            Err(error) => exists|index: int|
                is_first_duplicate(nodes@, index) && error@ == (GraphLayoutErrorView::DuplicateNode {
                    node_id: #[trigger] nodes@[index].id@,
                }),
            Ok(map) => {
                &&& node_ids(nodes@).no_duplicates()
                &&& map.wf()
                &&& map@.dom() == node_ids(nodes@).to_set()
                &&& forall|id: Seq<char>| #[trigger]
                    map@.contains_key(id) ==> map@[id] < nodes@.len() && nodes@[map@[id] as int].id@
                        == id
            },
        },
{
    let ghost ids = node_ids(nodes@);
    let mut map: TextMap<usize> = TextMap::new();
    let mut i: usize = 0;
    assert(map@.dom() =~= ids.take(0).to_set());
    while i < nodes.len()
        invariant
            0 <= i <= nodes.len(),
            ids == node_ids(nodes@),
            map.wf(),
            ids.take(i as int).no_duplicates(),
            map@.dom() == ids.take(i as int).to_set(),
            forall|id: Seq<char>| #[trigger]
                map@.contains_key(id) ==> map@[id] < nodes@.len() && nodes@[map@[id] as int].id@ == id,
        decreases nodes.len() - i,
    {
        let ghost id = nodes@[i as int].id@;
        assert(ids[i as int] == id);
        proof {
            assert(ids.take(i + 1) =~= ids.take(i as int).push(id));
            assert forall|other: Seq<char>| ids.take(i + 1).to_set().contains(other) <==> ids.take(
                i as int,
            ).to_set().insert(id).contains(other) by {
                lemma_push_members(ids.take(i as int), id, other);
            }
            assert(ids.take(i + 1).to_set() =~= ids.take(i as int).to_set().insert(id));
            assert(map@.contains_key(id) <==> ids.take(i as int).contains(id));
        }
        match map.insert(nodes[i].id.clone(), i) {
            Some(_) => {
                assert(is_first_duplicate(nodes@, i as int));
                return Err(GraphLayoutError::DuplicateNode { node_id: nodes[i].id.clone() });
            },
            None => {},
        }
        assert(map@.dom() =~= ids.take(i + 1).to_set());
        i += 1;
    }
    assert(ids.take(i as int) =~= ids);
    Ok(map)
}

/// The kind of a laid out edge.
pub(crate) fn edge_layout_kind(kind: GraphEdgeKind) -> (layout: GraphLayoutEdgeKind)
    ensures
        layout == layout_kind(kind),
{
    match kind {
        GraphEdgeKind::Primary => GraphLayoutEdgeKind::Primary,
        GraphEdgeKind::Merge => GraphLayoutEdgeKind::Merge,
        GraphEdgeKind::Shadow => GraphLayoutEdgeKind::Shadow,
    }
}

/// Collects the distinct edges, or finds the first with an end that is no node.
fn collect_edges(edges: &Vec<GraphEdge>, map: &TextMap<usize>) -> (outcome: Result<
    Vec<EdgeIndex>,
    GraphLayoutError,
>)
    requires
        map.wf(),
    ensures
        match outcome {
            Err(error) => exists|index: int|
                is_first_dangling(map@.dom(), edges@, index) && error@ == (
                GraphLayoutErrorView::MissingEdgeNode {
                    source_id: #[trigger] edges@[index].source@,
                    target_id: edges@[index].target@,
                    missing_node_id: if map@.dom().contains(edges@[index].source@) {
                        edges@[index].target@
                    } else {
                        edges@[index].source@
                    },
                }),
            Ok(list) => {
                &&& forall|i: int| 0 <= i < edges@.len() ==> has_both_ends(map@.dom(), #[trigger] edges@[i])
                &&& list@ == edge_list(map.keys(), edges@)
                &&& forall|k: int|
                    0 <= k < list@.len() ==> (#[trigger] list@[k]).source < map.keys().len()
                        && list@[k].target < map.keys().len()
            },
        },
{
    let ghost ids = map.keys();
    let ghost identities = edges@.map_values(|edge: GraphEdge| edge_identity(ids, edge));
    let ghost before = |a: EdgeIndex, b: EdgeIndex| edge_before(a, b);
    let mut list: Vec<EdgeIndex> = Vec::new();
    let mut i: usize = 0;
    assert(list@.to_set() =~= identities.take(0).to_set());
    while i < edges.len()
        invariant
            map.wf(),
            0 <= i <= edges.len(),
            ids == map.keys(),
            identities == edges@.map_values(|edge: GraphEdge| edge_identity(ids, edge)),
            increasing(list@, |a: EdgeIndex, b: EdgeIndex| edge_before(a, b)),
            list@.to_set() == identities.take(i as int).to_set(),
            forall|j: int| 0 <= j < i ==> has_both_ends(map@.dom(), #[trigger] edges@[j]),
            forall|e: EdgeIndex| #[trigger]
                list@.to_set().contains(e) ==> e.source < ids.len() && e.target < ids.len(),
        decreases edges.len() - i,
    {
        proof {
            map.lemma_keys();
        }
        let source = match map.position(edges[i].source.as_str()) {
            Some(source) => source,
            None => {
                assert(is_first_dangling(map@.dom(), edges@, i as int));
                return Err(
                    GraphLayoutError::MissingEdgeNode {
                        source_id: edges[i].source.clone(),
                        target_id: edges[i].target.clone(),
                        missing_node_id: edges[i].source.clone(),
                    },
                );
            },
        };
        let target = match map.position(edges[i].target.as_str()) {
            Some(target) => target,
            None => {
                assert(map@.contains_key(map.keys()[source as int]));
                assert(is_first_dangling(map@.dom(), edges@, i as int));
                return Err(
                    GraphLayoutError::MissingEdgeNode {
                        source_id: edges[i].source.clone(),
                        target_id: edges[i].target.clone(),
                        missing_node_id: edges[i].target.clone(),
                    },
                );
            },
        };
        let edge = EdgeIndex { kind: edge_layout_kind(edges[i].kind), source, target };
        proof {
            assert(map@.contains_key(map.keys()[source as int]));
            assert(map@.contains_key(map.keys()[target as int]));
            assert(edge == edge_identity(ids, edges@[i as int]));
            assert(identities[i as int] == edge);
            assert(identities.take(i + 1) =~= identities.take(i as int).push(edge));
            assert forall|other: EdgeIndex| identities.take(i + 1).to_set().contains(other)
                <==> identities.take(i as int).to_set().insert(edge).contains(other) by {
                lemma_push_members(identities.take(i as int), edge, other);
            }
            assert(identities.take(i + 1).to_set() =~= identities.take(i as int).to_set().insert(edge));
        }
        insert_edge(&mut list, edge);
        i += 1;
    }
    proof {
        assert(identities.take(i as int) =~= identities);
        lemma_edge_order();
        let chosen = edge_list(ids, edges@);
        lemma_increasing_unique(list@, chosen, before);
        assert forall|k: int| 0 <= k < list@.len() implies (#[trigger] list@[k]).source < ids.len()
            && list@[k].target < ids.len() by {
            assert(list@.contains(list@[k]));
            assert(list@.to_set().contains(list@[k]));
        }
    }
    Ok(list)
}

/// One more edge adds its source to the parents of its target.
proof fn lemma_parents_step(edges: Seq<EdgeIndex>, count: int, node: usize)
    requires
        0 <= count < edges.len(),
    ensures
        parents_in(edges.take(count + 1), node) == (if edges[count].target == node {
            parents_in(edges.take(count), node).insert(edges[count].source)
        } else {
            parents_in(edges.take(count), node)
        }),
{
    let shorter = edges.take(count);
    let longer = edges.take(count + 1);
    let expected = if edges[count].target == node {
        parents_in(shorter, node).insert(edges[count].source)
    } else {
        parents_in(shorter, node)
    };
    assert forall|source: usize| parents_in(longer, node).contains(source) <==> expected.contains(source) by {
        if parents_in(longer, node).contains(source) {
            let k = choose|k: int|
                0 <= k < longer.len() && (#[trigger] longer[k]).source == source && longer[k].target
                    == node;
            if k < count {
                assert(shorter[k].source == source && shorter[k].target == node);
            }
        }
        if parents_in(shorter, node).contains(source) {
            let k = choose|k: int|
                0 <= k < shorter.len() && (#[trigger] shorter[k]).source == source && shorter[k].target
                    == node;
            assert(longer[k].source == source && longer[k].target == node);
        }
        if edges[count].target == node && edges[count].source == source {
            assert(longer[count].source == source && longer[count].target == node);
        }
    }
    assert(parents_in(longer, node) =~= expected);
}

/// A node has finitely many parents.
proof fn lemma_parents_finite(edges: Seq<EdgeIndex>, node: usize)
    ensures
        parents_in(edges, node).finite(),
    decreases edges.len(),
{
    if edges.len() == 0 {
        assert(parents_in(edges, node) =~= Set::<usize>::empty());
    } else {
        let last = edges.len() - 1;
        lemma_parents_finite(edges.drop_last(), node);
        assert(edges.take(last as int) =~= edges.drop_last());
        assert(edges.take(last + 1) =~= edges);
        lemma_parents_step(edges, last as int, node);
    }
}

/// The edges of a graph, from both ends.
struct Adjacency {
    incoming: Vec<Vec<usize>>,
    outgoing: Vec<Vec<usize>>,
    degrees: Vec<usize>,
}

/// Lists the neighbours of each node and counts its parents.
fn link_nodes(edges: &Vec<EdgeIndex>, size: usize, Ghost(model): Ghost<GraphModel>) -> (links: Adjacency)
    requires
        model.valid(),
        model.size() == size,
        model.edges == edges@,
    ensures
        links.incoming@.len() == size,
        links.outgoing@.len() == size,
        links.degrees@.len() == size,
        forall|node: usize|
            node < size ==> (#[trigger] links.incoming@[node as int])@ == model.parent_list(node),
        forall|node: usize|
            node < size ==> (#[trigger] links.outgoing@[node as int])@ == model.child_list(node),
        forall|node: usize|
            node < size ==> #[trigger] links.degrees@[node as int] == parents_in(edges@, node).len(),
{
    let mut incoming: Vec<Vec<usize>> = Vec::new();
    let mut outgoing: Vec<Vec<usize>> = Vec::new();
    let mut i: usize = 0;
    while i < size
        invariant
            0 <= i <= size,
            incoming@.len() == i,
            outgoing@.len() == i,
            forall|v: int| 0 <= v < i ==> (#[trigger] incoming@[v])@ == Seq::<usize>::empty(),
            forall|v: int| 0 <= v < i ==> (#[trigger] outgoing@[v])@ == Seq::<usize>::empty(),
        decreases size - i,
    {
        incoming.push(Vec::new());
        outgoing.push(Vec::new());
        i += 1;
    }
    let mut k: usize = 0;
    while k < edges.len()
        invariant
            model.valid(),
            model.size() == size,
            model.edges == edges@,
            0 <= k <= edges.len(),
            incoming@.len() == size,
            outgoing@.len() == size,
            forall|v: int|
                0 <= v < size ==> increasing((#[trigger] incoming@[v])@, |a: usize, b: usize| a < b),
            forall|v: int|
                0 <= v < size ==> increasing((#[trigger] outgoing@[v])@, |a: usize, b: usize| a < b),
            forall|v: int, u: usize|
                0 <= v < size ==> (#[trigger] incoming@[v]@.contains(u) <==> parents_in(
                    edges@.take(k as int),
                    v as usize,
                ).contains(u)),
            forall|v: int, u: usize|
                0 <= v < size ==> (#[trigger] outgoing@[v]@.contains(u) <==> parents_in(
                    edges@.take(k as int),
                    u,
                ).contains(v as usize)),
        decreases edges.len() - k,
    {
        let edge = edges[k];
        let ghost incoming_before = incoming@;
        let ghost outgoing_before = outgoing@;
        assert(model.edges[k as int].source < size && model.edges[k as int].target < size);
        proof {
            let shorter = edges@.take(k as int);
            let longer = edges@.take(k + 1);
            assert forall|v: usize| #![trigger parents_in(longer, v)] parents_in(longer, v) == (
            if edge.target == v {
                parents_in(shorter, v).insert(edge.source)
            } else {
                parents_in(shorter, v)
            }) by {
                lemma_parents_step(edges@, k as int, v);
            }
        }
        insert_index(&mut incoming[edge.target], edge.source);
        insert_index(&mut outgoing[edge.source], edge.target);
        proof {
            assert forall|v: int, u: usize|
                0 <= v < size implies (#[trigger] incoming@[v]@.contains(u) <==> parents_in(
                edges@.take(k + 1),
                v as usize,
            ).contains(u)) by {
                assert(incoming_before[v]@.contains(u) <==> parents_in(
                    edges@.take(k as int),
                    v as usize,
                ).contains(u));
                assert(parents_in(edges@.take(k + 1), v as usize) == (if edge.target == v as usize {
                    parents_in(edges@.take(k as int), v as usize).insert(edge.source)
                } else {
                    parents_in(edges@.take(k as int), v as usize)
                }));
            }
            assert forall|v: int, u: usize|
                0 <= v < size implies (#[trigger] outgoing@[v]@.contains(u) <==> parents_in(
                edges@.take(k + 1),
                u,
            ).contains(v as usize)) by {
                assert(outgoing_before[v]@.contains(u) <==> parents_in(
                    edges@.take(k as int),
                    u,
                ).contains(v as usize));
                assert(parents_in(edges@.take(k + 1), u) == (if edge.target == u {
                    parents_in(edges@.take(k as int), u).insert(edge.source)
                } else {
                    parents_in(edges@.take(k as int), u)
                }));
            }
        }
        k += 1;
    }
    proof {
        assert(edges@.take(k as int) =~= edges@);
        assert forall|node: usize| node < size implies (#[trigger] incoming@[node as int])@
            == model.parent_list(node) by {
            assert forall|u: usize| #[trigger] incoming@[node as int]@.contains(u) <==> u < size
                && model.linked(u, node) by {
                if parents_in(edges@, node).contains(u) {
                    let j = choose|j: int|
                        0 <= j < edges@.len() && (#[trigger] edges@[j]).source == u && edges@[j].target
                            == node;
                    assert(model.edges[j].source < size);
                }
            }
            lemma_indices_filtered(
                size as nat,
                |source: usize| model.linked(source, node),
                incoming@[node as int]@,
            );
        }
        assert forall|node: usize| node < size implies (#[trigger] outgoing@[node as int])@
            == model.child_list(node) by {
            assert forall|u: usize| #[trigger] outgoing@[node as int]@.contains(u) <==> u < size
                && model.linked(node, u) by {
                if parents_in(edges@, u).contains(node) {
                    let j = choose|j: int|
                        0 <= j < edges@.len() && (#[trigger] edges@[j]).source == node
                            && edges@[j].target == u;
                    assert(model.edges[j].target < size);
                }
            }
            lemma_indices_filtered(
                size as nat,
                |target: usize| model.linked(node, target),
                outgoing@[node as int]@,
            );
        }
    }
    let mut degrees: Vec<usize> = Vec::new();
    let mut n: usize = 0;
    while n < size
        invariant
            0 <= n <= size,
            incoming@.len() == size,
            degrees@.len() == n,
            forall|v: int|
                0 <= v < size ==> increasing((#[trigger] incoming@[v])@, |a: usize, b: usize| a < b),
            forall|v: int, u: usize|
                0 <= v < size ==> (#[trigger] incoming@[v]@.contains(u) <==> parents_in(
                    edges@,
                    v as usize,
                ).contains(u)),
            forall|node: usize|
                node < n ==> #[trigger] degrees@[node as int] == parents_in(edges@, node).len(),
        decreases size - n,
    {
        proof {
            let list = incoming@[n as int]@;
            assert(increasing(list, |a: usize, b: usize| a < b));
            assert(list.no_duplicates());
            list.unique_seq_to_set();
            assert(list.to_set() =~= parents_in(edges@, n)) by {
                assert forall|u: usize| list.to_set().contains(u) <==> parents_in(edges@, n).contains(u) by {
                    assert(incoming@[n as int]@.contains(u) <==> parents_in(edges@, n).contains(u));
                }
            }
        }
        degrees.push(incoming[n].len());
        n += 1;
    }
    Adjacency { incoming, outgoing, degrees }
}

/// The parents of a node that are done.
spec fn done_parents(model: GraphModel, node: usize, done: Set<usize>) -> Set<usize> {
    parents_in(model.edges, node).intersect(done)
}

/// What the count of done parents says of a node.
proof fn lemma_done_parents(model: GraphModel, node: usize, done: Set<usize>)
    ensures
        done_parents(model, node, done).finite(),
        done_parents(model, node, done).len() <= parents_in(model.edges, node).len(),
        done_parents(model, node, done).len() == parents_in(model.edges, node).len() <==> parents_in(
            model.edges,
            node,
        ).subset_of(done),
{
    let parents = parents_in(model.edges, node);
    let some = done_parents(model, node, done);
    lemma_parents_finite(model.edges, node);
    vstd::set_lib::lemma_len_subset(some, parents);
    if parents.subset_of(done) {
        assert(some =~= parents);
    } else {
        let missing = choose|parent: usize| parents.contains(parent) && !done.contains(parent);
        assert(some.subset_of(parents.remove(missing)));
        vstd::set_lib::lemma_len_subset(some, parents.remove(missing));
    }
}

/// One more done node counts for each of its children.
proof fn lemma_done_parents_step(model: GraphModel, node: usize, done: Set<usize>, child: usize)
    requires
        !done.contains(node),
    ensures
        model.linked(node, child) ==> done_parents(model, child, done.insert(node)).len()
            == done_parents(model, child, done).len() + 1,
        !model.linked(node, child) ==> done_parents(model, child, done.insert(node))
            == done_parents(model, child, done),
{
    lemma_done_parents(model, child, done);
    if model.linked(node, child) {
        assert(done_parents(model, child, done.insert(node)) =~= done_parents(
            model,
            child,
            done,
        ).insert(node));
    } else {
        assert(done_parents(model, child, done.insert(node)) =~= done_parents(model, child, done));
    }
}

/// An order that no other node can follow reaches every node that can be reached.
proof fn lemma_complete_order(model: GraphModel, order: Seq<usize>)
    requires
        model.is_release_order(order),
        forall|node: usize|
            node < model.size() && !order.contains(node) ==> #[trigger] done_parents(
                model,
                node,
                order.to_set(),
            ).len() != parents_in(model.edges, node).len(),
    ensures
        model.released() == order.to_set(),
{
    assert forall|node: usize| model.released().contains(node) <==> order.to_set().contains(node) by {
        if order.contains(node) {
            assert(model.is_release_order(order) && order.contains(node));
        }
        if model.released().contains(node) {
            let other = choose|other: Seq<usize>|
                model.is_release_order(other) && #[trigger] other.contains(node);
            lemma_order_within(model, order, other, other.len() as int);
            let n = other.index_of(node);
            assert(order.contains(other[n]));
        }
    }
    assert(model.released() =~= order.to_set());
}

proof fn lemma_order_within(model: GraphModel, order: Seq<usize>, other: Seq<usize>, count: int)
    requires
        model.is_release_order(order),
        model.is_release_order(other),
        0 <= count <= other.len(),
        forall|node: usize|
            node < model.size() && !order.contains(node) ==> #[trigger] done_parents(
                model,
                node,
                order.to_set(),
            ).len() != parents_in(model.edges, node).len(),
    ensures
        forall|i: int| 0 <= i < count ==> order.contains(#[trigger] other[i]),
    decreases count,
{
    if count > 0 {
        lemma_order_within(model, order, other, count - 1);
        let node = other[count - 1];
        if !order.contains(node) {
            let done = order.to_set();
            lemma_done_parents(model, node, done);
            assert(parents_in(model.edges, node).subset_of(done)) by {
                assert forall|parent: usize| parents_in(model.edges, node).contains(parent) implies done.contains(
                    parent,
                ) by {
                    assert(other.take(count - 1).to_set().contains(parent));
                    let m = other.take(count - 1).index_of(parent);
                    assert(order.contains(other[m]));
                }
            }
            assert(done_parents(model, node, order.to_set()).len() == parents_in(model.edges, node).len());
        }
    }
}

/// A graph has one ranking only.
pub proof fn lemma_ranking_unique(model: GraphModel, left: Seq<usize>, right: Seq<usize>)
    requires
        model.valid(),
        model.is_layered(),
        model.is_ranking(left),
        model.is_ranking(right),
    ensures
        left == right,
{
    assert forall|i: int| 0 <= i < left.len() implies left[i] == right[i] by {
        let node = i as usize;
        assert(model.released().contains(node));
        let order = choose|order: Seq<usize>|
            model.is_release_order(order) && #[trigger] order.contains(node);
        lemma_ranking_along(model, left, right, order, order.len() as int);
        let n = order.index_of(node);
        assert(left[order[n] as int] == right[order[n] as int]);
    }
    assert(left =~= right);
}

proof fn lemma_ranking_along(
    model: GraphModel,
    left: Seq<usize>,
    right: Seq<usize>,
    order: Seq<usize>,
    count: int,
)
    requires
        model.is_ranking(left),
        model.is_ranking(right),
        model.is_release_order(order),
        0 <= count <= order.len(),
    ensures
        forall|i: int| 0 <= i < count ==> left[(#[trigger] order[i]) as int] == right[order[i] as int],
    decreases count,
{
    if count > 0 {
        lemma_ranking_along(model, left, right, order, count - 1);
        let node = order[count - 1];
        assert forall|parent: usize| #[trigger] model.linked(parent, node) implies left[parent as int]
            == right[parent as int] by {
            assert(parents_in(model.edges, node).contains(parent));
            assert(order.take(count - 1).to_set().contains(parent));
            let m = order.take(count - 1).index_of(parent);
            assert(order[m] == parent);
        }
        if left[node as int] > right[node as int] {
            let parent = choose|parent: usize|
                model.linked(parent, node) && left[node as int] == left[parent as int] + 1;
            assert(model.linked(parent, node));
        }
        if right[node as int] > left[node as int] {
            let parent = choose|parent: usize|
                model.linked(parent, node) && right[node as int] == right[parent as int] + 1;
            assert(model.linked(parent, node));
        }
    }
}

/// Whether ranks respect the done parents of a node, and no others.
spec fn ranked_over(model: GraphModel, ranks: Seq<usize>, node: usize, done: Set<usize>) -> bool {
    &&& forall|parent: usize| #[trigger]
        model.linked(parent, node) && done.contains(parent) ==> ranks[parent as int] < ranks[node as int]
    &&& ranks[node as int] > 0 ==> exists|parent: usize| #[trigger]
        model.linked(parent, node) && done.contains(parent) && ranks[node as int] == ranks[parent as int]
            + 1
}

/// Passes the rank of a done node on to its children and releases those without other
/// parents.
fn release_children(
    children: &Vec<usize>,
    node: usize,
    ranks: &mut Vec<usize>,
    degrees: &mut Vec<usize>,
    ready: &mut Vec<usize>,
    Ghost(model): Ghost<GraphModel>,
    Ghost(order): Ghost<Seq<usize>>,
)
    requires
        model.valid(),
        model.is_release_order(order),
        node < model.size(),
        !order.contains(node),
        parents_in(model.edges, node).subset_of(order.to_set()),
        children@ == model.child_list(node),
        old(ranks)@.len() == model.size(),
        old(degrees)@.len() == model.size(),
        old(ranks)@[node as int] <= order.len(),
        order.len() < usize::MAX,
        forall|v: usize|
            v < model.size() ==> #[trigger] old(ranks)@[v as int] <= order.len() && ranked_over(
                model,
                old(ranks)@,
                v,
                order.to_set(),
            ),
        forall|v: usize|
            v < model.size() ==> #[trigger] old(degrees)@[v as int] == parents_in(model.edges, v).len()
                - done_parents(model, v, order.to_set()).len(),
        old(ready)@.no_duplicates(),
        forall|v: usize| #[trigger]
            old(ready)@.contains(v) <==> v < model.size() && v != node && !order.contains(v)
                && old(degrees)@[v as int] == 0,
    ensures
        final(ranks)@.len() == model.size(),
        final(degrees)@.len() == model.size(),
        forall|v: usize|
            v < model.size() ==> #[trigger] final(ranks)@[v as int] <= order.len() + 1 && ranked_over(
                model,
                final(ranks)@,
                v,
                order.to_set().insert(node),
            ),
        forall|v: usize|
            v < model.size() ==> #[trigger] final(degrees)@[v as int] == parents_in(model.edges, v).len()
                - done_parents(model, v, order.to_set().insert(node)).len(),
        final(ready)@.no_duplicates(),
        forall|v: usize| #[trigger]
            final(ready)@.contains(v) <==> v < model.size() && v != node && !order.contains(v)
                && final(degrees)@[v as int] == 0,
{
    let ghost list = children@;
    let ghost done = order.to_set();
    let ghost after = done.insert(node);
    let ghost keep = |target: usize| model.linked(node, target);
    proof {
        crate::sorting::lemma_filter_increasing(
            indices(model.size()),
            |a: usize, b: usize| a < b,
            keep,
        );
        assert forall|v: usize| #[trigger] list.contains(v) <==> v < model.size() && model.linked(node, v) by {
            crate::sequences::lemma_filter_members(indices(model.size()), keep, v);
            if v < model.size() {
                assert(indices(model.size())[v as int] == v);
            }
        }
        assert(!model.linked(node, node));
        assert forall|v: usize| #[trigger] done.contains(v) implies v < model.size() by {
            let n = order.index_of(v);
            assert(order[n] < model.size());
        }
        assert forall|v: usize| order.contains(v) implies !model.linked(node, v) by {
            let n = order.index_of(v);
            assert(parents_in(model.edges, order[n]).subset_of(order.take(n).to_set()));
            if model.linked(node, v) {
                assert(order.take(n).to_set().contains(node));
                let m = order.take(n).index_of(node);
                assert(order[m] == node);
            }
        }
    }
    let rank: usize = ranks[node];
    let mut k: usize = 0;
    while k < children.len()
        invariant
            model.valid(),
            node < model.size(),
            list == children@,
            0 <= k <= list.len(),
            done == order.to_set(),
            after == done.insert(node),
            !order.contains(node),
            order.len() < usize::MAX,
            rank <= order.len(),
            increasing(list, |a: usize, b: usize| a < b),
            forall|v: usize| #[trigger]
                list.contains(v) <==> v < model.size() && model.linked(node, v),
            !model.linked(node, node),
            forall|v: usize| order.contains(v) ==> !model.linked(node, v),
            forall|v: usize| #[trigger] done.contains(v) ==> v < model.size(),
            ranks@.len() == model.size(),
            degrees@.len() == model.size(),
            ranks@[node as int] == rank,
            forall|v: usize| done.contains(v) ==> ranks@[v as int] == old(ranks)@[v as int],
            forall|v: usize|
                v < model.size() ==> #[trigger] ranks@[v as int] <= order.len() + 1 && ranked_over(
                    model,
                    ranks@,
                    v,
                    if list.take(k as int).contains(v) {
                        after
                    } else {
                        done
                    },
                ),
            forall|v: usize|
                v < model.size() ==> #[trigger] degrees@[v as int] == parents_in(model.edges, v).len()
                    - done_parents(
                    model,
                    v,
                    if list.take(k as int).contains(v) {
                        after
                    } else {
                        done
                    },
                ).len(),
            ready@.no_duplicates(),
            forall|v: usize| #[trigger]
                ready@.contains(v) <==> v < model.size() && v != node && !order.contains(v)
                    && degrees@[v as int] == 0,
        decreases list.len() - k,
    {
        let child: usize = children[k];
        let ghost ranks_before = ranks@;
        let ghost ready_before = ready@;
        proof {
            assert(list.contains(child));
            assert(model.linked(node, child));
            assert(list.take(k + 1) =~= list.take(k as int).push(child));
            assert forall|v: usize| #[trigger] list.take(k + 1).contains(v) <==> list.take(
                k as int,
            ).contains(v) || v == child by {
                lemma_push_members(list.take(k as int), child, v);
            }
            if list.take(k as int).contains(child) {
                let n = list.take(k as int).index_of(child);
                assert(list[n] < list[k as int]);
            }
            lemma_done_parents(model, child, done);
            lemma_done_parents_step(model, node, done, child);
            assert(!parents_in(model.edges, child).subset_of(done)) by {
                assert(parents_in(model.edges, child).contains(node));
            }
            assert(degrees@[child as int] > 0);
            assert(!ready@.contains(child));
            assert(ranked_over(model, ranks@, child, done));
        }
        if ranks[child] < rank + 1 {
            ranks.set(child, rank + 1);
        }
        let left: usize = degrees[child] - 1;
        degrees.set(child, left);
        if left == 0 {
            ready.push(child);
        }
        proof {
            assert(child != node);
            assert(ranked_over(model, ranks@, child, after)) by {
                assert forall|parent: usize| #[trigger]
                    model.linked(parent, child) && after.contains(parent) implies ranks@[parent as int]
                    < ranks@[child as int] by {
                    if parent != node {
                        assert(done.contains(parent));
                        assert(order.contains(parent));
                    }
                }
                if ranks_before[child as int] < rank + 1 {
                    assert(model.linked(node, child) && after.contains(node));
                } else {
                    let parent = choose|parent: usize| #[trigger]
                        model.linked(parent, child) && done.contains(parent)
                            && ranks_before[child as int] == ranks_before[parent as int] + 1;
                    assert(order.contains(parent));
                    assert(model.linked(parent, child) && after.contains(parent));
                }
            }
            assert forall|v: usize| v < model.size() implies #[trigger] ranks@[v as int] <= order.len()
                + 1 && ranked_over(
                model,
                ranks@,
                v,
                if list.take(k + 1).contains(v) {
                    after
                } else {
                    done
                },
            ) by {
                if v != child {
                    let some = if list.take(k as int).contains(v) {
                        after
                    } else {
                        done
                    };
                    assert(ranks_before[v as int] == ranks@[v as int]);
                    assert(ranked_over(model, ranks_before, v, some));
                    assert forall|parent: usize| some.contains(parent) implies ranks@[parent as int]
                        == ranks_before[parent as int] by {
                        if parent == child {
                            assert(order.contains(child));
                        }
                    }
                    if ranks@[v as int] > 0 {
                        let parent = choose|parent: usize| #[trigger]
                            model.linked(parent, v) && some.contains(parent) && ranks_before[v as int]
                                == ranks_before[parent as int] + 1;
                        assert(model.linked(parent, v) && some.contains(parent));
                    }
                }
            }
            assert forall|v: usize| done.contains(v) implies ranks@[v as int] == old(ranks)@[v as int] by {
                assert(order.contains(v));
            }
            assert forall|v: usize| #[trigger] ready@.contains(v) <==> v < model.size() && v != node
                && !order.contains(v) && degrees@[v as int] == 0 by {
                if left == 0 {
                    lemma_push_members(ready_before, child, v);
                }
                assert(ready_before.contains(v) || !ready_before.contains(v));
            }
        }
        k += 1;
    }
    proof {
        assert(list.take(k as int) =~= list);
        assert forall|v: usize| v < model.size() implies #[trigger] ranks@[v as int] <= order.len() + 1
            && ranked_over(model, ranks@, v, after) by {
            if !list.contains(v) {
                assert(!model.linked(node, v));
                assert(ranked_over(model, ranks@, v, done));
                if ranks@[v as int] > 0 {
                    let parent = choose|parent: usize| #[trigger]
                        model.linked(parent, v) && done.contains(parent) && ranks@[v as int]
                            == ranks@[parent as int] + 1;
                    assert(model.linked(parent, v) && after.contains(parent));
                }
            }
        }
        assert forall|v: usize| v < model.size() implies #[trigger] degrees@[v as int] == parents_in(model.edges, v).len() - done_parents(model, v, after).len() by {
            if !list.contains(v) {
                lemma_done_parents_step(model, node, done, v);
            }
        }
    }
}

/// Ranks every node behind its parents, or finds the first node for which that fails.
fn rank_nodes(
    outgoing: &Vec<Vec<usize>>,
    degrees: Vec<usize>,
    size: usize,
    Ghost(model): Ghost<GraphModel>,
) -> (outcome: Result<Vec<usize>, usize>)
    requires
        model.valid(),
        model.size() == size,
        outgoing@.len() == size,
        degrees@.len() == size,
        forall|node: usize|
            node < size ==> (#[trigger] outgoing@[node as int])@ == model.child_list(node),
        forall|node: usize|
            node < size ==> #[trigger] degrees@[node as int] == parents_in(model.edges, node).len(),
    ensures
        match outcome {
            Ok(ranks) => {
                &&& model.is_layered()
                &&& model.is_ranking(ranks@)
                &&& ranks@ == model.ranks()
            },
            Err(node) => !model.is_layered() && model.is_first_stuck(node),
        },
{
    let mut degrees = degrees;
    let mut ranks: Vec<usize> = Vec::new();
    let mut ready: Vec<usize> = Vec::new();
    let ghost order = Seq::<usize>::empty();
    let mut i: usize = 0;
    while i < size
        invariant
            0 <= i <= size,
            degrees@.len() == size,
            ranks@.len() == i,
            forall|v: int| 0 <= v < i ==> #[trigger] ranks@[v] == 0,
            ready@.no_duplicates(),
            forall|v: usize| #[trigger] ready@.contains(v) <==> v < i && degrees@[v as int] == 0,
        decreases size - i,
    {
        let ghost before = ready@;
        assert(!before.contains(i));
        ranks.push(0);
        if degrees[i] == 0 {
            ready.push(i);
        }
        proof {
            assert forall|v: usize| #[trigger] ready@.contains(v) <==> v < i + 1 && degrees@[v as int] == 0 by {
                lemma_push_members(before, i, v);
                assert(before.contains(v) || !before.contains(v));
            }
        }
        i += 1;
    }
    proof {
        assert(order.to_set() =~= Set::<usize>::empty());
        assert forall|v: usize| v < size implies #[trigger] degrees@[v as int] == parents_in(model.edges, v).len() - done_parents(model, v, order.to_set()).len() by {
            assert(done_parents(model, v, order.to_set()) =~= Set::<usize>::empty());
        }
        assert forall|v: usize| v < size implies #[trigger] ranks@[v as int] <= order.len()
            && ranked_over(model, ranks@, v, order.to_set()) by {}
    }
    let mut visited: usize = 0;
    while ready.len() > 0
        invariant
            model.valid(),
            model.size() == size,
            outgoing@.len() == size,
            ranks@.len() == size,
            degrees@.len() == size,
            forall|node: usize|
                node < size ==> (#[trigger] outgoing@[node as int])@ == model.child_list(node),
            visited == order.len(),
            visited <= size,
            model.is_release_order(order),
            forall|v: usize|
                v < size ==> #[trigger] ranks@[v as int] <= order.len() && ranked_over(
                    model,
                    ranks@,
                    v,
                    order.to_set(),
                ),
            forall|v: usize|
                v < size ==> #[trigger] degrees@[v as int] == parents_in(model.edges, v).len() - done_parents(
                    model,
                    v,
                    order.to_set(),
                ).len(),
            ready@.no_duplicates(),
            forall|v: usize| #[trigger]
                ready@.contains(v) <==> v < size && !order.contains(v) && degrees@[v as int] == 0,
        decreases size - visited,
    {
        let ghost ready_before = ready@;
        let node: usize = match ready.pop() {
            Some(node) => node,
            None => {
                assert(false);
                0
            },
        };
        proof {
            assert(ready_before.contains(node));
            assert(ready_before =~= ready@.push(node));
            assert forall|v: usize| #[trigger] ready@.contains(v) <==> v < size && v != node
                && !order.contains(v) && degrees@[v as int] == 0 by {
                lemma_push_members(ready@, node, v);
                assert(ready_before.contains(v) || !ready_before.contains(v));
                if v == node && ready@.contains(v) {
                    let n = ready@.index_of(v);
                    assert(ready_before[n] == ready_before[ready_before.len() - 1]);
                }
            }
            lemma_done_parents(model, node, order.to_set());
            assert(parents_in(model.edges, node).subset_of(order.to_set()));
            lemma_order_bounded(model, order.push(node));
            let longer = order.push(node);
            assert forall|j: int|
                #![trigger longer[j]]
                0 <= j < longer.len() implies parents_in(model.edges, longer[j]).subset_of(
                longer.take(j).to_set(),
            ) by {
                if j < order.len() {
                    assert(longer[j] == order[j]);
                    assert(longer.take(j) =~= order.take(j));
                } else {
                    assert(longer.take(j) =~= order);
                }
            }
            assert forall|v: usize| longer.to_set().contains(v) <==> order.to_set().insert(node).contains(
                v,
            ) by {
                lemma_push_members(order, node, v);
            }
            assert(longer.to_set() =~= order.to_set().insert(node));
            assert forall|v: usize| #[trigger] longer.contains(v) <==> order.contains(v) || v == node by {
                lemma_push_members(order, node, v);
            }
        }
        visited = visited + 1;
        release_children(
            &outgoing[node],
            node,
            &mut ranks,
            &mut degrees,
            &mut ready,
            Ghost(model),
            Ghost(order),
        );
        proof {
            order = order.push(node);
        }
    }
    proof {
        assert forall|v: usize| v < size && !order.contains(v) implies #[trigger] done_parents(
            model,
            v,
            order.to_set(),
        ).len() != parents_in(model.edges, v).len() by {
            assert(!ready@.contains(v));
            assert(degrees@[v as int] != 0);
        }
        lemma_complete_order(model, order);
    }
    if visited != size {
        let mut node: usize = 0;
        while node < size && degrees[node] == 0
            invariant
                model.valid(),
                model.size() == size,
                degrees@.len() == size,
                node <= size,
                model.released() == order.to_set(),
                forall|v: usize| #[trigger] ready@.contains(v) <==> v < size && !order.contains(v)
                    && degrees@[v as int] == 0,
                ready@.len() == 0,
                forall|v: usize| v < node ==> #[trigger] model.released().contains(v),
            decreases size - node,
        {
            assert(!ready@.contains(node));
            node = node + 1;
        }
        proof {
            if node == size {
                assert forall|v: usize| v < size implies order.contains(v) by {
                    assert(model.released().contains(v));
                }
                lemma_order_full(order, size);
                assert(false);
            }
            assert(!order.contains(node)) by {
                if order.contains(node) {
                    let n = order.index_of(node);
                    assert(parents_in(model.edges, order[n]).subset_of(order.to_set())) by {
                        assert forall|p: usize| parents_in(model.edges, order[n]).contains(p) implies order.to_set().contains(
                            p,
                        ) by {
                            assert(order.take(n).to_set().contains(p));
                            let m = order.take(n).index_of(p);
                            assert(order[m] == p);
                        }
                    }
                    lemma_done_parents(model, node, order.to_set());
                    assert(degrees@[node as int] == 0);
                }
            }
            assert(model.is_first_stuck(node));
        }
        return Err(node);
    }
    proof {
        lemma_order_covers(model, order);
        assert(model.is_ranking(ranks@)) by {
            assert forall|source: usize, target: usize| #[trigger] model.linked(source, target) implies ranks@[source as int]
                < ranks@[target as int] by {
                let k = choose|k: int|
                    0 <= k < model.edges.len() && (#[trigger] model.edges[k]).source == source
                        && model.edges[k].target == target;
                assert(source < size && target < size);
                assert(order.contains(source));
                assert(ranked_over(model, ranks@, target, order.to_set()));
            }
            assert forall|v: usize|
                #![trigger ranks@[v as int]]
                v < size && ranks@[v as int] > 0 implies exists|parent: usize|
                model.linked(parent, v) && ranks@[v as int] == ranks@[parent as int] + 1 by {
                assert(ranked_over(model, ranks@, v, order.to_set()));
            }
        }
        lemma_ranking_unique(model, ranks@, model.ranks());
    }
    Ok(ranks)
}

/// An order of distinct nodes is no longer than the graph.
proof fn lemma_order_bounded(model: GraphModel, order: Seq<usize>)
    requires
        order.no_duplicates(),
        forall|i: int| 0 <= i < order.len() ==> (#[trigger] order[i]) < model.size(),
    ensures
        order.len() <= model.size(),
{
    let ints = order.map_values(|v: usize| v as int);
    let range = vstd::set_lib::set_int_range(0, model.size() as int);
    vstd::set_lib::lemma_int_range(0, model.size() as int);
    assert(ints.no_duplicates());
    ints.unique_seq_to_set();
    assert(ints.to_set().subset_of(range)) by {
        assert forall|v: int| ints.to_set().contains(v) implies range.contains(v) by {
            let n = ints.index_of(v);
            assert(order[n] as int == v);
        }
    }
    vstd::set_lib::lemma_len_subset(ints.to_set(), range);
}

/// An order that holds every node is as long as the graph.
proof fn lemma_order_full(order: Seq<usize>, size: usize)
    requires
        order.no_duplicates(),
        forall|i: int| 0 <= i < order.len() ==> (#[trigger] order[i]) < size,
        forall|v: usize| v < size ==> order.contains(v),
    ensures
        order.len() == size,
{
    let ints = order.map_values(|v: usize| v as int);
    let range = vstd::set_lib::set_int_range(0, size as int);
    vstd::set_lib::lemma_int_range(0, size as int);
    assert(ints.no_duplicates());
    ints.unique_seq_to_set();
    assert(ints.to_set() =~= range) by {
        assert forall|v: int| ints.to_set().contains(v) <==> range.contains(v) by {
            if ints.contains(v) {
                let n = ints.index_of(v);
                assert(order[n] as int == v);
            }
            if range.contains(v) {
                assert(order.contains(v as usize));
                let n = order.index_of(v as usize);
                assert(ints[n] == v);
            }
        }
    }
}

/// An order as long as the graph holds every node.
proof fn lemma_order_covers(model: GraphModel, order: Seq<usize>)
    requires
        model.valid(),
        model.is_release_order(order),
        order.len() == model.size(),
        model.released() == order.to_set(),
    ensures
        model.is_layered(),
        forall|v: usize| v < model.size() ==> #[trigger] order.contains(v),
{
    let ints = order.map_values(|v: usize| v as int);
    let range = vstd::set_lib::set_int_range(0, model.size() as int);
    vstd::set_lib::lemma_int_range(0, model.size() as int);
    assert(ints.no_duplicates());
    ints.unique_seq_to_set();
    assert(ints.to_set().subset_of(range)) by {
        assert forall|v: int| ints.to_set().contains(v) implies range.contains(v) by {
            let n = ints.index_of(v);
            assert(order[n] as int == v);
        }
    }
    vstd::set_lib::lemma_subset_equality(ints.to_set(), range);
    assert forall|v: usize| v < model.size() implies #[trigger] order.contains(v) by {
        assert(range.contains(v as int));
        assert(ints.contains(v as int));
        let n = ints.index_of(v as int);
        assert(order[n] == v);
    }
}

/// Checks a snapshot and ranks its nodes.
pub(crate) fn prepare_graph(snapshot: &GraphSnapshot) -> (outcome: Result<
    PreparedGraph,
    GraphLayoutError,
>)
    ensures
        match outcome {
            Ok(prepared) => preparation(snapshot) == Ok::<GraphModel, GraphLayoutErrorView>(
                graph_model(snapshot),
            ) && prepared.names(snapshot) && prepared.matches(graph_model(snapshot)),
            Err(error) => preparation(snapshot) == Err::<GraphModel, GraphLayoutErrorView>(error@),
        },
{
    let ghost all_nodes = snapshot.nodes@;
    let ghost ids = node_ids(all_nodes);
    let nodes = match collect_nodes(&snapshot.nodes) {
        Err(error) => {
            proof {
                let index = choose|index: int|
                    is_first_duplicate(all_nodes, index) && error@ == (
                    GraphLayoutErrorView::DuplicateNode { node_id: #[trigger] all_nodes[index].id@ });
                let chosen = choose|index: int| is_first_duplicate(all_nodes, index);
                lemma_first_duplicate_unique(all_nodes, index, chosen);
            }
            return Err(error);
        },
        Ok(nodes) => nodes,
    };
    proof {
        assert forall|index: int| !is_first_duplicate(all_nodes, index) by {
            if is_first_duplicate(all_nodes, index) {
                let n = ids.take(index).index_of(all_nodes[index].id@);
                assert(ids[n] == ids[index]);
            }
        }
        nodes.lemma_keys();
        lemma_sorted_texts(nodes.keys());
    }
    let edges = match collect_edges(&snapshot.edges, &nodes) {
        Err(error) => {
            proof {
                let known = nodes@.dom();
                let index = choose|index: int|
                    is_first_dangling(known, snapshot.edges@, index) && error@ == (
                    GraphLayoutErrorView::MissingEdgeNode {
                        source_id: #[trigger] snapshot.edges@[index].source@,
                        target_id: snapshot.edges@[index].target@,
                        missing_node_id: if known.contains(snapshot.edges@[index].source@) {
                            snapshot.edges@[index].target@
                        } else {
                            snapshot.edges@[index].source@
                        },
                    });
                let chosen = choose|index: int| is_first_dangling(known, snapshot.edges@, index);
                assert(is_first_dangling(known, snapshot.edges@, chosen));
                if index < chosen {
                    assert(has_both_ends(known, snapshot.edges@[index]));
                }
                if chosen < index {
                    assert(has_both_ends(known, snapshot.edges@[chosen]));
                }
            }
            return Err(error);
        },
        Ok(edges) => edges,
    };
    let ghost model = graph_model(snapshot);
    let size: usize = nodes.len();
    proof {
        assert(nodes.keys() == model.ids);
        assert forall|index: int| !is_first_dangling(nodes@.dom(), snapshot.edges@, index) by {
            if is_first_dangling(nodes@.dom(), snapshot.edges@, index) {
                assert(has_both_ends(nodes@.dom(), snapshot.edges@[index]));
            }
        }
        assert(model.valid());
    }
    let links = link_nodes(&edges, size, Ghost(model));
    match rank_nodes(&links.outgoing, links.degrees, size, Ghost(model)) {
        Err(node) => {
            proof {
                let chosen = choose|other: usize| model.is_first_stuck(other);
                assert(model.is_first_stuck(chosen));
                if chosen < node {
                    assert(model.released().contains(chosen));
                }
                if node < chosen {
                    assert(model.released().contains(node));
                }
            }
            Err(GraphLayoutError::Cycle { node_id: nodes.key_at(node).clone() })
        },
        Ok(ranks) => {
            proof {
                assert forall|id: Seq<char>| #[trigger] nodes@.contains_key(id) implies nodes@[id] as int
                    == ids.index_of(id) by {
                    assert(ids[nodes@[id] as int] == id);
                    assert(ids.contains(id));
                }
            }
            Ok(
                PreparedGraph {
                    nodes,
                    edges,
                    incoming: links.incoming,
                    outgoing: links.outgoing,
                    ranks,
                },
            )
        },
    }
}

/// Only one node is the first repeated one.
proof fn lemma_first_duplicate_unique(nodes: Seq<GraphNode>, left: int, right: int)
    requires
        is_first_duplicate(nodes, left),
        is_first_duplicate(nodes, right),
    ensures
        left == right,
{
    let ids = node_ids(nodes);
    if left < right {
        let n = ids.take(left).index_of(nodes[left].id@);
        assert(ids.take(right)[n] == ids.take(right)[left]);
    }
    if right < left {
        let n = ids.take(right).index_of(nodes[right].id@);
        assert(ids.take(left)[n] == ids.take(left)[right]);
    }
}

} // verus!
