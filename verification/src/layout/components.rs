//! The connected parts of a graph, and the order in which they are drawn.

use vstd::prelude::*;
use vstd::relations::total_ordering;
use crate::graph::GraphBranch;
use crate::graph::GraphSnapshot;
use crate::layout::model::node_ids;
use crate::layout::model::EdgeIndex;
use crate::layout::model::GraphModel;
use crate::layout::prepare::PreparedGraph;
use crate::sequences::lemma_filter_members;
use crate::sequences::lemma_push_members;
use crate::sorting::increasing;
use crate::sorting::indices;
use crate::sorting::lemma_indices_filtered;
use crate::sorting::sort_indices;
use crate::sorting::Precedence;
use crate::text::lemma_text_lt_asymmetric;
use crate::text::lemma_text_lt_total;
use crate::text::lemma_text_lt_transitive;
use crate::text::text_equal;
use crate::text::text_less;
use crate::text::text_lt;

verus! {

/// Whether a labelling gives both ends of every edge the same label.
pub open spec fn respects(edges: Seq<EdgeIndex>, label: spec_fn(usize) -> int) -> bool {
    forall|k: int|
        0 <= k < edges.len() ==> label((#[trigger] edges[k]).source) == label(edges[k].target)
}

/// Two nodes are connected where no labelling that respects the edges tells them apart.
pub open spec fn same_component(edges: Seq<EdgeIndex>, left: usize, right: usize) -> bool {
    forall|label: spec_fn(usize) -> int| #[trigger]
        respects(edges, label) ==> label(left) == label(right)
}

/// The first node of a connected part.
pub open spec fn is_root(model: GraphModel, root: usize) -> bool {
    &&& root < model.size()
    &&& forall|node: usize|
        node < model.size() && #[trigger] same_component(model.edges, root, node) ==> root <= node
}

/// The nodes connected with a node, in order.
pub open spec fn component_nodes(model: GraphModel, root: usize) -> Seq<usize> {
    indices(model.size()).filter(|node: usize| same_component(model.edges, root, node))
}

/// Whether labels name the first node of each connected part.
pub(crate) open spec fn labels_components(model: GraphModel, labels: Seq<usize>) -> bool {
    &&& labels.len() == model.size()
    &&& forall|k: int|
        0 <= k < model.edges.len() ==> labels[(#[trigger] model.edges[k]).source as int]
            == labels[model.edges[k].target as int]
    &&& forall|v: usize|
        #![trigger labels[v as int]]
        v < model.size() ==> labels[v as int] <= v && same_component(
            model.edges,
            labels[v as int],
            v,
        )
}

/// What the labels say of connections.
pub(crate) proof fn lemma_labels(model: GraphModel, labels: Seq<usize>, left: usize, right: usize)
    requires
        model.valid(),
        labels_components(model, labels),
        left < model.size(),
        right < model.size(),
    ensures
        same_component(model.edges, left, right) <==> labels[left as int] == labels[right as int],
        is_root(model, left) <==> labels[left as int] == left,
{
    let label = |v: usize| labels[v as int] as int;
    assert(respects(model.edges, label)) by {
        assert forall|k: int| 0 <= k < model.edges.len() implies label((#[trigger] model.edges[k]).source)
            == label(model.edges[k].target) by {
            assert(labels[model.edges[k].source as int] == labels[model.edges[k].target as int]);
        }
    }
    assert(same_component(model.edges, labels[left as int], left));
    assert(same_component(model.edges, labels[right as int], right));
    if labels[left as int] == labels[right as int] {
        assert forall|other: spec_fn(usize) -> int| #[trigger] respects(model.edges, other) implies other(
            left,
        ) == other(right) by {
            assert(other(labels[left as int]) == other(left));
            assert(other(labels[right as int]) == other(right));
        }
    }
    if same_component(model.edges, left, right) {
        assert(label(left) == label(right));
    }
    if labels[left as int] == left {
        assert forall|node: usize| node < model.size() && #[trigger] same_component(
            model.edges,
            left,
            node,
        ) implies left <= node by {
            assert(label(left) == label(node));
            assert(labels[node as int] <= node);
        }
    }
    if is_root(model, left) {
        let first = labels[left as int];
        assert(same_component(model.edges, left, first)) by {
            assert forall|other: spec_fn(usize) -> int| #[trigger] respects(model.edges, other) implies other(
                left,
            ) == other(first) by {}
        }
        assert(left <= first);
    }
}

/// Gives the unlabelled nodes of a list a label and queues them.
fn spread(list: &Vec<usize>, label: usize, labels: &mut Vec<usize>, pending: &mut Vec<usize>)
    requires
        label < old(labels)@.len(),
        forall|i: int| 0 <= i < list@.len() ==> (#[trigger] list@[i]) < old(labels)@.len(),
        old(pending)@.no_duplicates(),
        forall|v: usize| #[trigger]
            old(pending)@.contains(v) ==> v < old(labels)@.len() && old(labels)@[v as int] == label,
    ensures
        final(labels)@.len() == old(labels)@.len(),
        forall|v: usize|
            v < old(labels)@.len() ==> #[trigger] final(labels)@[v as int] == (if old(
                labels,
            )@[v as int] == old(labels)@.len() && list@.contains(v) {
                label
            } else {
                old(labels)@[v as int]
            }),
        final(pending)@.no_duplicates(),
        old(pending)@.len() <= final(pending)@.len(),
        final(pending)@.take(old(pending)@.len() as int) == old(pending)@,
        forall|v: usize| #[trigger]
            final(pending)@.contains(v) <==> old(pending)@.contains(v) || (v < old(labels)@.len()
                && old(labels)@[v as int] == old(labels)@.len() && list@.contains(v)),
{
    let unset: usize = labels.len();
    let ghost before = labels@;
    let mut k: usize = 0;
    assert(pending@.take(pending@.len() as int) =~= pending@);
    while k < list.len()
        invariant
            0 <= k <= list.len(),
            labels@.len() == unset,
            before.len() == unset,
            before == old(labels)@,
            label < unset,
            forall|i: int| 0 <= i < list@.len() ==> (#[trigger] list@[i]) < unset,
            forall|v: usize|
                v < unset ==> #[trigger] labels@[v as int] == (if before[v as int] == unset
                    && list@.take(k as int).contains(v) {
                    label
                } else {
                    before[v as int]
                }),
            pending@.no_duplicates(),
            old(pending)@.len() <= pending@.len(),
            pending@.take(old(pending)@.len() as int) == old(pending)@,
            forall|v: usize| #[trigger]
                old(pending)@.contains(v) ==> v < unset && before[v as int] == label,
            forall|v: usize| #[trigger]
                pending@.contains(v) <==> old(pending)@.contains(v) || (v < unset && before[v as int]
                    == unset && list@.take(k as int).contains(v)),
        decreases list.len() - k,
    {
        let node: usize = list[k];
        let ghost queued = pending@;
        proof {
            assert(list@.take(k + 1) =~= list@.take(k as int).push(node));
            assert forall|v: usize| #[trigger] list@.take(k + 1).contains(v) <==> list@.take(
                k as int,
            ).contains(v) || v == node by {
                lemma_push_members(list@.take(k as int), node, v);
            }
        }
        if labels[node] == unset {
            assert(!queued.contains(node));
            labels.set(node, label);
            pending.push(node);
            proof {
                assert(pending@.take(old(pending)@.len() as int) =~= queued.take(
                    old(pending)@.len() as int,
                ));
                assert forall|v: usize| #[trigger] pending@.contains(v) <==> old(pending)@.contains(v)
                    || (v < unset && before[v as int] == unset && list@.take(k + 1).contains(v)) by {
                    lemma_push_members(queued, node, v);
                    assert(queued.contains(v) || !queued.contains(v));
                }
            }
        } else {
            assert(before[node as int] != unset || list@.take(k as int).contains(node));
        }
        k += 1;
    }
    assert(list@.take(k as int) =~= list@);
}

/// Whether a partial labelling is right so far: labelled nodes are connected with their
/// label, labels agree along edges, and only waiting nodes have unlabelled neighbours.
spec fn labels_partly(model: GraphModel, labels: Seq<usize>, waiting: Set<usize>) -> bool {
    &&& labels.len() == model.size()
    &&& forall|v: usize|
        #![trigger labels[v as int]]
        v < model.size() && labels[v as int] != model.size() ==> labels[v as int] <= v
            && same_component(model.edges, labels[v as int], v)
    &&& forall|k: int|
        #![trigger model.edges[k]]
        0 <= k < model.edges.len() ==> {
            let s = labels[model.edges[k].source as int];
            let t = labels[model.edges[k].target as int];
            &&& s != model.size() && t != model.size() ==> s == t
            &&& s != model.size() && t == model.size() ==> waiting.contains(model.edges[k].source)
            &&& s == model.size() && t != model.size() ==> waiting.contains(model.edges[k].target)
        }
}

/// Connections run along edges in both directions.
proof fn lemma_connected_along(model: GraphModel, root: usize, from: usize, to: usize)
    requires
        same_component(model.edges, root, from),
        model.linked(from, to) || model.linked(to, from),
    ensures
        same_component(model.edges, root, to),
{
    assert forall|label: spec_fn(usize) -> int| #[trigger] respects(model.edges, label) implies label(root)
        == label(to) by {
        if model.linked(from, to) {
            let k = choose|k: int|
                0 <= k < model.edges.len() && (#[trigger] model.edges[k]).source == from
                    && model.edges[k].target == to;
            assert(label(model.edges[k].source) == label(model.edges[k].target));
        } else {
            let k = choose|k: int|
                0 <= k < model.edges.len() && (#[trigger] model.edges[k]).source == to
                    && model.edges[k].target == from;
            assert(label(model.edges[k].source) == label(model.edges[k].target));
        }
    }
}

/// The neighbour lists hold the linked nodes.
proof fn lemma_neighbor_members(model: GraphModel, node: usize)
    requires
        model.valid(),
    ensures
        forall|v: usize| #[trigger]
            model.parent_list(node).contains(v) <==> v < model.size() && model.linked(v, node),
        forall|v: usize| #[trigger]
            model.child_list(node).contains(v) <==> v < model.size() && model.linked(node, v),
{
    let all = indices(model.size());
    assert forall|v: usize| #[trigger] model.parent_list(node).contains(v) <==> v < model.size()
        && model.linked(v, node) by {
        lemma_filter_members(all, |source: usize| model.linked(source, node), v);
        if v < model.size() {
            assert(all[v as int] == v);
        }
    }
    assert forall|v: usize| #[trigger] model.child_list(node).contains(v) <==> v < model.size()
        && model.linked(node, v) by {
        lemma_filter_members(all, |target: usize| model.linked(node, target), v);
        if v < model.size() {
            assert(all[v as int] == v);
        }
    }
}

/// Labels each node with the first node that it is connected with.
pub(crate) fn label_components(graph: &PreparedGraph, Ghost(model): Ghost<GraphModel>) -> (labels: Vec<
    usize,
>)
    requires
        graph.matches(model),
    ensures
        labels_components(model, labels@),
{
    let size: usize = graph.ranks.len();
    let mut labels: Vec<usize> = Vec::new();
    let mut i: usize = 0;
    while i < size
        invariant
            0 <= i <= size,
            labels@.len() == i,
            forall|v: int| 0 <= v < i ==> #[trigger] labels@[v] == size,
        decreases size - i,
    {
        labels.push(size);
        i += 1;
    }
    let mut start: usize = 0;
    while start < size
        invariant
            graph.matches(model),
            size == model.size(),
            0 <= start <= size,
            labels_partly(model, labels@, Set::empty()),
            forall|v: usize| v < start ==> #[trigger] labels@[v as int] != size,
        decreases size - start,
    {
        if labels[start] == size {
            let mut pending: Vec<usize> = Vec::new();
            let ghost before = labels@;
            labels.set(start, start);
            pending.push(start);
            let mut head: usize = 0;
            proof {
                assert(pending@.skip(0) =~= pending@);
                assert(pending@[0] == start);
                assert(pending@.contains(start));
                assert forall|v: usize|
                    #![trigger labels@[v as int]]
                    v < size && labels@[v as int] != size implies labels@[v as int] <= v
                    && same_component(model.edges, labels@[v as int], v) by {
                    if v != start {
                        assert(before[v as int] == labels@[v as int]);
                    }
                }
            }
            while head < pending.len()
                invariant
                    graph.matches(model),
                    size == model.size(),
                    start < size,
                    head <= pending.len(),
                    labels@.len() == size,
                    pending@.no_duplicates(),
                    forall|v: usize| #[trigger]
                        pending@.contains(v) ==> v < size && labels@[v as int] == start,
                    labels@[start as int] == start,
                    labels_partly(model, labels@, pending@.skip(head as int).to_set()),
                    forall|v: usize| v < start ==> #[trigger] labels@[v as int] != size,
                decreases size - head,
            {
                let node: usize = pending[head];
                let ghost waiting = pending@.skip(head as int).to_set();
                let ghost labels_0 = labels@;
                let ghost pending_0 = pending@;
                proof {
                    assert(pending@.contains(node));
                    assert forall|v: usize| #[trigger] waiting.contains(v) implies v < size
                        && labels_0[v as int] == start by {
                        let n = pending_0.skip(head as int).index_of(v);
                        assert(pending_0[head + n] == v);
                        assert(pending_0.contains(v));
                    }
                    lemma_pending_bounded(pending@, size);
                    lemma_neighbor_members(model, node);
                    assert(graph.outgoing@[node as int]@ == model.child_list(node));
                    assert(graph.incoming@[node as int]@ == model.parent_list(node));
                    assert forall|j: int| 0 <= j < graph.outgoing@[node as int]@.len() implies (
                    #[trigger] graph.outgoing@[node as int]@[j]) < size by {
                        assert(model.child_list(node).contains(graph.outgoing@[node as int]@[j]));
                    }
                    assert forall|j: int| 0 <= j < graph.incoming@[node as int]@.len() implies (
                    #[trigger] graph.incoming@[node as int]@[j]) < size by {
                        assert(model.parent_list(node).contains(graph.incoming@[node as int]@[j]));
                    }
                }
                spread(&graph.outgoing[node], start, &mut labels, &mut pending);
                let ghost labels_1 = labels@;
                let ghost pending_1 = pending@;
                assert forall|v: usize| #[trigger] pending@.contains(v) implies v < size && labels@[v as int]
                    == start by {
                    assert(labels_0[v as int] == start || labels_0[v as int] == size);
                }
                spread(&graph.incoming[node], start, &mut labels, &mut pending);
                proof {
                    assert forall|v: usize| #[trigger] pending@.contains(v) implies v < size
                        && labels@[v as int] == start by {
                        assert(labels_1[v as int] == start || labels_1[v as int] == size);
                    }
                    assert forall|v: usize|
                        #![trigger labels@[v as int]]
                        v < size implies labels@[v as int] == (if labels_0[v as int] == size && (
                    model.linked(node, v) || model.linked(v, node)) {
                        start
                    } else {
                        labels_0[v as int]
                    }) by {
                        assert(labels_1[v as int] == labels_1[v as int]);
                        assert(model.child_list(node).contains(v) <==> v < size && model.linked(node, v));
                        assert(model.parent_list(node).contains(v) <==> v < size && model.linked(
                            v,
                            node,
                        ));
                    }
                    assert forall|v: usize| #[trigger] pending@.contains(v) <==> pending_0.contains(v) || (v
                        < size && labels_0[v as int] == size && (model.linked(node, v) || model.linked(
                        v,
                        node,
                    ))) by {
                        assert(pending_1.contains(v) || !pending_1.contains(v));
                        assert(model.child_list(node).contains(v) <==> v < size && model.linked(node, v));
                        assert(model.parent_list(node).contains(v) <==> v < size && model.linked(
                            v,
                            node,
                        ));
                        if v < size {
                            assert(labels_1[v as int] == (if labels_0[v as int] == size
                                && model.child_list(node).contains(v) {
                                start
                            } else {
                                labels_0[v as int]
                            }));
                        }
                    }
                    assert(pending@.take(pending_0.len() as int) =~= pending_0) by {
                        assert forall|j: int| 0 <= j < pending_0.len() implies pending@[j] == pending_0[j] by {
                            assert(pending_1.take(pending_0.len() as int)[j] == pending_0[j]);
                            assert(pending@.take(pending_1.len() as int)[j] == pending_1[j]);
                        }
                    }
                    let later = pending@.skip(head + 1).to_set();
                    assert forall|v: usize| waiting.contains(v) && v != node implies later.contains(v) by {
                        let n = pending_0.skip(head as int).index_of(v);
                        assert(pending_0[head + n] == v);
                        assert(pending@.take(pending_0.len() as int)[head + n] == v);
                        assert(pending@.skip(head + 1)[n - 1] == v);
                    }
                    assert forall|v: usize|
                        v < size && labels_0[v as int] == size && labels@[v as int] != size implies later.contains(
                        v,
                    ) by {
                        assert(pending@.contains(v));
                        assert(!pending_0.contains(v));
                        let n = pending@.index_of(v);
                        if n <= head {
                            assert(pending@.take(pending_0.len() as int)[n] == v);
                            assert(pending_0[n] == v);
                        }
                        assert(pending@.skip(head + 1)[n - head - 1] == v);
                    }
                    lemma_spread_keeps(model, labels_0, labels@, waiting, later, node, start);
                    assert forall|v: usize| v < start implies #[trigger] labels@[v as int] != size by {
                        assert(labels_0[v as int] != size);
                    }
                }
                head += 1;
            }
            proof {
                assert(pending@.skip(head as int) =~= Seq::<usize>::empty());
                assert(pending@.skip(head as int).to_set() =~= Set::<usize>::empty());
            }
        }
        start += 1;
    }
    proof {
        assert(start == size);
        assert forall|k: int| 0 <= k < model.edges.len() implies labels@[(
        #[trigger] model.edges[k]).source as int] == labels@[model.edges[k].target as int] by {
            assert(labels@[model.edges[k].source as int] != size);
            assert(labels@[model.edges[k].target as int] != size);
        }
        assert forall|v: usize|
            #![trigger labels@[v as int]]
            v < model.size() implies labels@[v as int] <= v && same_component(
            model.edges,
            labels@[v as int],
            v,
        ) by {
            assert(labels@[v as int] != size);
        }
    }
    labels
}

/// A queue of distinct nodes is no longer than the graph.
proof fn lemma_pending_bounded(pending: Seq<usize>, size: usize)
    requires
        pending.no_duplicates(),
        forall|v: usize| #[trigger] pending.contains(v) ==> v < size,
    ensures
        pending.len() <= size,
{
    let ints = pending.map_values(|v: usize| v as int);
    let range = vstd::set_lib::set_int_range(0, size as int);
    vstd::set_lib::lemma_int_range(0, size as int);
    assert(ints.no_duplicates());
    ints.unique_seq_to_set();
    assert(ints.to_set().subset_of(range)) by {
        assert forall|v: int| ints.to_set().contains(v) implies range.contains(v) by {
            let n = ints.index_of(v);
            assert(pending.contains(pending[n]));
        }
    }
    vstd::set_lib::lemma_len_subset(ints.to_set(), range);
}

/// Labelling the neighbours of a waiting node keeps the labelling right.
proof fn lemma_spread_keeps(
    model: GraphModel,
    before: Seq<usize>,
    after: Seq<usize>,
    waiting: Set<usize>,
    later: Set<usize>,
    node: usize,
    start: usize,
)
    requires
        model.valid(),
        labels_partly(model, before, waiting),
        after.len() == model.size(),
        node < model.size(),
        start < model.size(),
        before[node as int] == start,
        forall|v: usize| v < start ==> #[trigger] before[v as int] != model.size(),
        forall|v: usize| #[trigger] waiting.contains(v) ==> v < model.size() && before[v as int] == start,
        forall|v: usize|
            #![trigger after[v as int]]
            v < model.size() ==> after[v as int] == (if before[v as int] == model.size() && (
            model.linked(node, v) || model.linked(v, node)) {
                start
            } else {
                before[v as int]
            }),
        forall|v: usize| #[trigger] waiting.contains(v) && v != node ==> later.contains(v),
        forall|v: usize|
            #![trigger later.contains(v)]
            v < model.size() && before[v as int] == model.size() && after[v as int] != model.size()
                ==> later.contains(v),
    ensures
        labels_partly(model, after, later),
{
    let size = model.size();
    assert forall|v: usize|
        #![trigger after[v as int]]
        v < size && after[v as int] != size implies after[v as int] <= v && same_component(
        model.edges,
        after[v as int],
        v,
    ) by {
        if before[v as int] == size {
            assert(before[node as int] == start);
            assert(same_component(model.edges, start, node));
            lemma_connected_along(model, start, node, v);
        } else {
            assert(before[v as int] == after[v as int]);
        }
    }
    assert forall|k: int|
        #![trigger model.edges[k]]
        0 <= k < model.edges.len() implies {
        let s = after[model.edges[k].source as int];
        let t = after[model.edges[k].target as int];
        &&& s != size && t != size ==> s == t
        &&& s != size && t == size ==> later.contains(model.edges[k].source)
        &&& s == size && t != size ==> later.contains(model.edges[k].target)
    } by {
        let source = model.edges[k].source;
        let target = model.edges[k].target;
        assert(model.linked(source, target));
        assert(after[source as int] == after[source as int]);
        assert(after[target as int] == after[target as int]);
    }
}

/// When the node with an id was created.
pub open spec fn created_at(snapshot: &GraphSnapshot, id: Seq<char>) -> i128 {
    snapshot.nodes@[node_ids(snapshot.nodes@).index_of(id)].created_at_ns
}

/// Whether the node with an id is connected with a root.
pub open spec fn holds_id(model: GraphModel, root: usize, id: Seq<char>) -> bool {
    exists|node: usize|
        node < model.size() && #[trigger] model.ids[node as int] == id && same_component(
            model.edges,
            root,
            node,
        )
}

/// Whether a branch has its visible head in the connected part of a root.
pub open spec fn heads_into(model: GraphModel, root: usize, branch: GraphBranch) -> bool {
    branch.visible_head_id matches Some(head) && holds_id(model, root, head@)
}

/// The names of the branches with their visible head in the connected part of a root.
pub open spec fn branch_names(snapshot: &GraphSnapshot, model: GraphModel, root: usize) -> Set<Seq<char>> {
    Set::new(
        |name: Seq<char>|
            exists|b: int|
                0 <= b < snapshot.branches@.len() && (#[trigger] snapshot.branches@[b]).name@ == name
                    && heads_into(model, root, snapshot.branches@[b]),
    )
}

/// The first of a set of names.
pub open spec fn is_first_name(names: Set<Seq<char>>, name: Seq<char>) -> bool {
    &&& names.contains(name)
    &&& forall|other: Seq<char>| #[trigger]
        names.contains(other) ==> other == name || text_lt(name, other)
}

/// The oldest node of a connected part; of several the first.
pub open spec fn is_earliest(
    snapshot: &GraphSnapshot,
    model: GraphModel,
    root: usize,
    node: usize,
) -> bool {
    &&& node < model.size()
    &&& same_component(model.edges, root, node)
    &&& forall|other: usize|
        other < model.size() && #[trigger] same_component(model.edges, root, other) ==> {
            let mine = created_at(snapshot, model.ids[node as int]);
            let its = created_at(snapshot, model.ids[other as int]);
            mine < its || (mine == its && node <= other)
        }
}

/// What decides where a connected part is drawn: the part with the main branch comes first,
/// then those with other branches by name, then the rest by age.
#[verifier::ext_equal]
pub struct PriorityView {
    pub class: u8,
    pub branch: Seq<char>,
    pub created_at_ns: i128,
    pub node: usize,
}

/// The priority of the connected part of a root.
pub open spec fn priority_of(snapshot: &GraphSnapshot, model: GraphModel, root: usize) -> PriorityView {
    let names = branch_names(snapshot, model, root);
    let node = choose|node: usize| is_earliest(snapshot, model, root, node);
    let created_at_ns = created_at(snapshot, model.ids[node as int]);
    if names.contains("main"@) {
        PriorityView { class: 0, branch: Seq::empty(), created_at_ns, node }
    } else if exists|name: Seq<char>| is_first_name(names, name) {
        let branch = choose|name: Seq<char>| is_first_name(names, name);
        PriorityView { class: 1, branch, created_at_ns, node }
    } else {
        PriorityView { class: 2, branch: Seq::empty(), created_at_ns, node }
    }
}

/// Whether one priority comes before another.
pub open spec fn priority_before(a: PriorityView, b: PriorityView) -> bool {
    ||| a.class < b.class
    ||| (a.class == b.class && text_lt(a.branch, b.branch))
    ||| (a.class == b.class && a.branch == b.branch && a.created_at_ns < b.created_at_ns)
    ||| (a.class == b.class && a.branch == b.branch && a.created_at_ns == b.created_at_ns && a.node
        < b.node)
}

/// The order of roots by the priorities of their parts.
pub open spec fn root_order(snapshot: &GraphSnapshot, model: GraphModel) -> spec_fn(
    usize,
    usize,
) -> bool {
    |a: usize, b: usize|
        priority_before(priority_of(snapshot, model, a), priority_of(snapshot, model, b)) || (
        priority_of(snapshot, model, a) == priority_of(snapshot, model, b) && a <= b)
}

/// The roots of the connected parts, in the order in which the parts are drawn.
pub open spec fn ordered_roots(snapshot: &GraphSnapshot, model: GraphModel) -> Seq<usize> {
    indices(model.size()).filter(|root: usize| is_root(model, root)).sort_by(
        root_order(snapshot, model),
    )
}

/// Priorities are ordered strictly and totally.
pub(crate) proof fn lemma_priority_order(a: PriorityView, b: PriorityView, c: PriorityView)
    ensures
        !(priority_before(a, b) && priority_before(b, a)),
        !priority_before(a, a),
        priority_before(a, b) || priority_before(b, a) || a == b,
        priority_before(a, b) && priority_before(b, c) ==> priority_before(a, c),
{
    lemma_text_lt_total(a.branch, b.branch);
    crate::text::lemma_text_lt_irreflexive(a.branch);
    if text_lt(a.branch, b.branch) {
        lemma_text_lt_asymmetric(a.branch, b.branch);
        if text_lt(b.branch, c.branch) {
            lemma_text_lt_transitive(a.branch, b.branch, c.branch);
        }
    }
    if text_lt(b.branch, a.branch) {
        lemma_text_lt_asymmetric(b.branch, a.branch);
    }
}

/// The order of roots is total.
pub(crate) proof fn lemma_root_order(snapshot: &GraphSnapshot, model: GraphModel)
    ensures
        total_ordering(root_order(snapshot, model)),
{
    let order = root_order(snapshot, model);
    assert forall|a: usize, b: usize, c: usize|
        #[trigger] order(a, b) && #[trigger] order(b, c) implies order(a, c) by {
        lemma_priority_order(
            priority_of(snapshot, model, a),
            priority_of(snapshot, model, b),
            priority_of(snapshot, model, c),
        );
    }
    assert forall|a: usize, b: usize| #[trigger] order(a, b) && #[trigger] order(b, a) implies a == b by {
        let p = priority_of(snapshot, model, a);
        let q = priority_of(snapshot, model, b);
        lemma_priority_order(p, q, p);
        lemma_priority_order(q, p, q);
    }
    assert forall|a: usize, b: usize| #[trigger] order(a, b) || #[trigger] order(b, a) by {
        lemma_priority_order(
            priority_of(snapshot, model, a),
            priority_of(snapshot, model, b),
            priority_of(snapshot, model, a),
        );
    }
}

/// A priority in executable form.
#[derive(Debug)]
struct ComponentPriority {
    class: u8,
    branch: String,
    created_at_ns: i128,
    node: usize,
}

impl View for ComponentPriority {
    type V = PriorityView;

    closed spec fn view(&self) -> PriorityView {
        PriorityView {
            class: self.class,
            branch: self.branch@,
            created_at_ns: self.created_at_ns,
            node: self.node,
        }
    }
}

impl ComponentPriority {
    fn precedes(&self, other: &ComponentPriority) -> (before: bool)
        ensures
            before == priority_before(self@, other@),
    {
        if self.class != other.class {
            return self.class < other.class;
        }
        if self.branch != other.branch {
            proof {
                lemma_text_lt_total(self.branch@, other.branch@);
            }
            return text_less(self.branch.as_str(), other.branch.as_str());
        }
        proof {
            crate::text::lemma_text_lt_irreflexive(self.branch@);
        }
        self.created_at_ns < other.created_at_ns || (self.created_at_ns == other.created_at_ns
            && self.node < other.node)
    }

    fn equals(&self, other: &ComponentPriority) -> (same: bool)
        ensures
            same == (self@ == other@),
    {
        self.class == other.class && self.branch == other.branch && self.created_at_ns
            == other.created_at_ns && self.node == other.node
    }
}

/// The order of roots, with the priorities of their parts at hand.
struct RootOrder<'a> {
    snapshot: &'a GraphSnapshot,
    places: &'a Vec<usize>,
    priorities: &'a Vec<ComponentPriority>,
    model: Ghost<GraphModel>,
}

impl<'a> Precedence for RootOrder<'a> {
    closed spec fn covers(&self, index: usize) -> bool {
        &&& index < self.places@.len()
        &&& self.places@[index as int] < self.priorities@.len()
        &&& self.priorities@[self.places@[index as int] as int]@ == priority_of(
            self.snapshot,
            self.model@,
            index,
        )
    }

    closed spec fn leq(&self) -> spec_fn(usize, usize) -> bool {
        root_order(self.snapshot, self.model@)
    }

    fn precedes(&self, a: usize, b: usize) -> (before: bool) {
        let left = &self.priorities[self.places[a]];
        let right = &self.priorities[self.places[b]];
        left.precedes(right) || (left.equals(right) && a <= b)
    }
}

/// A connected part of the graph.
#[derive(Debug)]
pub(crate) struct Component {
    pub(crate) root: usize,
    pub(crate) nodes: Vec<usize>,
}

/// The oldest node of a list of connected nodes.
fn earliest_node(
    snapshot: &GraphSnapshot,
    graph: &PreparedGraph,
    nodes: &Vec<usize>,
    root: usize,
    Ghost(model): Ghost<GraphModel>,
) -> (node: usize)
    requires
        graph.names(snapshot),
        graph.matches(model),
        nodes@ == component_nodes(model, root),
        nodes@.len() > 0,
    ensures
        is_earliest(snapshot, model, root, node),
        node == (choose|other: usize| is_earliest(snapshot, model, root, other)),
{
    proof {
        lemma_component_members(model, root);
        graph.nodes.lemma_keys();
        assert(nodes@.contains(nodes@[0]));
    }
    let mut best: usize = nodes[0];
    let mut best_created: i128 = node_created_at(snapshot, graph, best, Ghost(model));
    let mut k: usize = 1;
    while k < nodes.len()
        invariant
            graph.names(snapshot),
            graph.matches(model),
            nodes@ == component_nodes(model, root),
            forall|v: usize| #[trigger]
                nodes@.contains(v) <==> v < model.size() && same_component(model.edges, root, v),
            1 <= k <= nodes.len(),
            nodes@.contains(best),
            best_created == created_at(snapshot, model.ids[best as int]),
            forall|j: int|
                0 <= j < k ==> {
                    let its = created_at(snapshot, model.ids[(#[trigger] nodes@[j]) as int]);
                    best_created < its || (best_created == its && best <= nodes@[j])
                },
        decreases nodes.len() - k,
    {
        let node: usize = nodes[k];
        assert(nodes@.contains(node));
        let created: i128 = node_created_at(snapshot, graph, node, Ghost(model));
        if created < best_created || (created == best_created && node < best) {
            best = node;
            best_created = created;
        }
        k += 1;
    }
    proof {
        assert forall|other: usize|
            other < model.size() && #[trigger] same_component(model.edges, root, other) implies {
            let its = created_at(snapshot, model.ids[other as int]);
            best_created < its || (best_created == its && best <= other)
        } by {
            assert(nodes@.contains(other));
            let n = nodes@.index_of(other);
            assert(nodes@[n] == other);
        }
        assert(is_earliest(snapshot, model, root, best));
        let chosen = choose|other: usize| is_earliest(snapshot, model, root, other);
        assert(is_earliest(snapshot, model, root, chosen));
        assert(same_component(model.edges, root, chosen) && same_component(model.edges, root, best));
    }
    best
}

fn node_created_at(
    snapshot: &GraphSnapshot,
    graph: &PreparedGraph,
    node: usize,
    Ghost(model): Ghost<GraphModel>,
) -> (created: i128)
    requires
        graph.names(snapshot),
        graph.matches(model),
        node < model.size(),
    ensures
        created == created_at(snapshot, model.ids[node as int]),
{
    let index: usize = *graph.nodes.value_at(node);
    snapshot.nodes[index].created_at_ns
}

/// The members of a connected part.
pub(crate) proof fn lemma_component_members(model: GraphModel, root: usize)
    requires
        model.valid(),
    ensures
        forall|v: usize| #[trigger]
            component_nodes(model, root).contains(v) <==> v < model.size() && same_component(
                model.edges,
                root,
                v,
            ),
        increasing(component_nodes(model, root), |a: usize, b: usize| a < b),
{
    let all = indices(model.size());
    let keep = |node: usize| same_component(model.edges, root, node);
    crate::sorting::lemma_filter_increasing(all, |a: usize, b: usize| a < b, keep);
    assert forall|v: usize| #[trigger] component_nodes(model, root).contains(v) <==> v < model.size()
        && same_component(model.edges, root, v) by {
        lemma_filter_members(all, keep, v);
        if v < model.size() {
            assert(all[v as int] == v);
        }
    }
}

/// Whether the visible head of a branch has the given label.
fn branch_heads_into(
    graph: &PreparedGraph,
    labels: &Vec<usize>,
    root: usize,
    branch: &GraphBranch,
    Ghost(model): Ghost<GraphModel>,
) -> (found: bool)
    requires
        graph.matches(model),
        graph.nodes.wf(),
        labels_components(model, labels@),
        root < model.size(),
        labels@[root as int] == root,
    ensures
        found == heads_into(model, root, *branch),
{
    let ghost ids = model.ids;
    proof {
        graph.nodes.lemma_keys();
    }
    match &branch.visible_head_id {
        None => false,
        Some(head) => {
            match graph.nodes.position(head.as_str()) {
                None => {
                    proof {
                        if holds_id(model, root, head@) {
                            let node = choose|node: usize|
                                node < model.size() && #[trigger] ids[node as int] == head@
                                    && same_component(model.edges, root, node);
                            assert(graph.nodes@.contains_key(graph.nodes.keys()[node as int]));
                        }
                    }
                    false
                },
                Some(index) => {
                    proof {
                        lemma_labels(model, labels@, root, index);
                        if holds_id(model, root, head@) {
                            let node = choose|node: usize|
                                node < model.size() && #[trigger] ids[node as int] == head@
                                    && same_component(model.edges, root, node);
                            assert(ids[node as int] == ids[index as int]);
                            assert(node == index);
                        }
                        if labels@[index as int] == root {
                            assert(ids[index as int] == head@);
                        }
                    }
                    labels[index] == root
                },
            }
        },
    }
}

/// The priority of a connected part.
fn component_priority(
    snapshot: &GraphSnapshot,
    graph: &PreparedGraph,
    labels: &Vec<usize>,
    component: &Component,
    Ghost(model): Ghost<GraphModel>,
) -> (priority: ComponentPriority)
    requires
        graph.names(snapshot),
        graph.matches(model),
        labels_components(model, labels@),
        component.root < model.size(),
        labels@[component.root as int] == component.root,
        component.nodes@ == component_nodes(model, component.root),
    ensures
        priority@ == priority_of(snapshot, model, component.root),
{
    let root: usize = component.root;
    let ghost names = branch_names(snapshot, model, root);
    let mut has_main = false;
    let mut first: Option<String> = None;
    let mut b: usize = 0;
    while b < snapshot.branches.len()
        invariant
            graph.names(snapshot),
            graph.matches(model),
            labels_components(model, labels@),
            root < model.size(),
            labels@[root as int] == root,
            0 <= b <= snapshot.branches.len(),
            has_main <==> exists|j: int|
                0 <= j < b && (#[trigger] snapshot.branches@[j]).name@ == "main"@ && heads_into(
                    model,
                    root,
                    snapshot.branches@[j],
                ),
            match first {
                None => forall|j: int|
                    0 <= j < b ==> !heads_into(model, root, #[trigger] snapshot.branches@[j]),
                Some(name) => {
                    &&& exists|j: int|
                        0 <= j < b && (#[trigger] snapshot.branches@[j]).name@ == name@ && heads_into(
                            model,
                            root,
                            snapshot.branches@[j],
                        )
                    &&& forall|j: int|
                        0 <= j < b && heads_into(model, root, #[trigger] snapshot.branches@[j])
                            ==> snapshot.branches@[j].name@ == name@ || text_lt(
                            name@,
                            snapshot.branches@[j].name@,
                        )
                },
            },
        decreases snapshot.branches.len() - b,
    {
        let branch = &snapshot.branches[b];
        if branch_heads_into(graph, labels, root, branch, Ghost(model)) {
            if text_equal(branch.name.as_str(), "main") {
                has_main = true;
            }
            let replace = match &first {
                None => true,
                Some(name) => text_less(branch.name.as_str(), name.as_str()),
            };
            let ghost earlier = first;
            if replace {
                first = Some(branch.name.clone());
            }
            proof {
                let added = branch.name@;
                if let Some(name) = earlier {
                    lemma_text_lt_total(added, name@);
                    let j0 = choose|j: int|
                        0 <= j < b && (#[trigger] snapshot.branches@[j]).name@ == name@ && heads_into(
                            model,
                            root,
                            snapshot.branches@[j],
                        );
                    if !replace {
                        assert(snapshot.branches@[j0].name@ == name@);
                    }
                    assert forall|j: int|
                        0 <= j < b + 1 && heads_into(model, root, #[trigger] snapshot.branches@[j]) implies (
                    {
                        let best = if replace {
                            added
                        } else {
                            name@
                        };
                        snapshot.branches@[j].name@ == best || text_lt(best, snapshot.branches@[j].name@)
                    }) by {
                        if j < b && replace {
                            if snapshot.branches@[j].name@ != name@ {
                                lemma_text_lt_transitive(added, name@, snapshot.branches@[j].name@);
                            }
                        }
                    }
                }
                assert(snapshot.branches@[b as int].name@ == added);
            }
        }
        b += 1;
    }
    proof {
        lemma_component_members(model, root);
        assert(same_component(model.edges, root, root));
        assert(component.nodes@.contains(root));
        assert(has_main == names.contains("main"@)) by {
            if has_main {
                let j = choose|j: int|
                    0 <= j < b && (#[trigger] snapshot.branches@[j]).name@ == "main"@ && heads_into(
                        model,
                        root,
                        snapshot.branches@[j],
                    );
                assert(snapshot.branches@[j].name@ == "main"@);
            }
        }
        match &first {
            None => {
                assert forall|name: Seq<char>| !is_first_name(names, name) by {
                    if names.contains(name) {
                        let j = choose|j: int|
                            0 <= j < snapshot.branches@.len() && (#[trigger] snapshot.branches@[j]).name@
                                == name && heads_into(model, root, snapshot.branches@[j]);
                        assert(!heads_into(model, root, snapshot.branches@[j]));
                    }
                }
            },
            Some(name) => {
                let j = choose|j: int|
                    0 <= j < b && (#[trigger] snapshot.branches@[j]).name@ == name@ && heads_into(
                        model,
                        root,
                        snapshot.branches@[j],
                    );
                assert(snapshot.branches@[j].name@ == name@);
                assert(names.contains(name@));
                assert forall|other: Seq<char>| #[trigger] names.contains(other) implies other == name@
                    || text_lt(name@, other) by {
                    let i = choose|i: int|
                        0 <= i < snapshot.branches@.len() && (#[trigger] snapshot.branches@[i]).name@
                            == other && heads_into(model, root, snapshot.branches@[i]);
                    assert(snapshot.branches@[i].name@ == other);
                }
                assert(is_first_name(names, name@));
                let chosen = choose|other: Seq<char>| is_first_name(names, other);
                assert(is_first_name(names, chosen));
                assert(names.contains(chosen));
                if chosen != name@ {
                    lemma_text_lt_asymmetric(chosen, name@);
                }
            },
        }
    }
    let node: usize = earliest_node(snapshot, graph, &component.nodes, root, Ghost(model));
    let created_at_ns: i128 = node_created_at(snapshot, graph, node, Ghost(model));
    if has_main {
        return ComponentPriority { class: 0, branch: String::new(), created_at_ns, node };
    }
    match first {
        Some(branch) => ComponentPriority { class: 1, branch, created_at_ns, node },
        None => ComponentPriority { class: 2, branch: String::new(), created_at_ns, node },
    }
}

/// The connected parts of a graph, in the order in which they are drawn.
pub(crate) fn ordered_components(
    snapshot: &GraphSnapshot,
    graph: &PreparedGraph,
    Ghost(model): Ghost<GraphModel>,
) -> (components: Vec<Component>)
    requires
        graph.names(snapshot),
        graph.matches(model),
    ensures
        components@.map_values(|component: Component| component.root) == ordered_roots(snapshot, model),
        forall|i: int|
            0 <= i < components@.len() ==> (#[trigger] components@[i]).nodes@ == component_nodes(
                model,
                components@[i].root,
            ) && components@[i].root < model.size(),
{
    let labels = label_components(graph, Ghost(model));
    let size: usize = labels.len();
    let mut members: Vec<Vec<usize>> = Vec::new();
    let mut i: usize = 0;
    while i < size
        invariant
            0 <= i <= size,
            members@.len() == i,
            forall|v: int| 0 <= v < i ==> (#[trigger] members@[v])@ == Seq::<usize>::empty(),
        decreases size - i,
    {
        members.push(Vec::new());
        i += 1;
    }
    let mut roots: Vec<usize> = Vec::new();
    let mut v: usize = 0;
    while v < size
        invariant
            0 <= v <= size,
            size == model.size(),
            labels_components(model, labels@),
            members@.len() == size,
            increasing(roots@, |a: usize, b: usize| a < b),
            forall|r: usize| #[trigger] roots@.contains(r) <==> r < v && labels@[r as int] == r,
            forall|r: int|
                0 <= r < size ==> increasing((#[trigger] members@[r])@, |a: usize, b: usize| a < b),
            forall|r: int, u: usize|
                0 <= r < size ==> (#[trigger] members@[r]@.contains(u) <==> u < v && labels@[u as int] == r),
        decreases size - v,
    {
        let label: usize = labels[v];
        let ghost before = members@;
        let ghost roots_before = roots@;
        proof {
            assert(labels@[v as int] <= v);
            assert forall|j: int| 0 <= j < before[label as int]@.len() implies (
            #[trigger] before[label as int]@[j]) < v by {
                assert(before[label as int]@.contains(before[label as int]@[j]));
            }
            assert forall|j: int| 0 <= j < roots_before.len() implies (#[trigger] roots_before[j]) < v by {
                assert(roots_before.contains(roots_before[j]));
            }
        }
        members[label].push(v);
        if label == v {
            roots.push(v);
        }
        proof {
            assert(members@[label as int]@ =~= before[label as int]@.push(v));
            assert forall|r: int, u: usize|
                0 <= r < size implies (#[trigger] members@[r]@.contains(u) <==> u < v + 1 && labels@[u as int]
                == r) by {
                assert(before[r]@.contains(u) <==> u < v && labels@[u as int] == r);
                if r == label {
                    lemma_push_members(before[r]@, v, u);
                }
            }
            assert forall|r: usize| #[trigger] roots@.contains(r) <==> r < v + 1 && labels@[r as int] == r by {
                assert(roots_before.contains(r) <==> r < v && labels@[r as int] == r);
                if label == v {
                    lemma_push_members(roots_before, v, r);
                }
            }
        }
        v += 1;
    }
    proof {
        assert forall|r: usize| #[trigger] roots@.contains(r) <==> r < model.size() && is_root(model, r) by {
            if r < size {
                lemma_labels(model, labels@, r, r);
            }
        }
        lemma_indices_filtered(model.size(), |root: usize| is_root(model, root), roots@);
        assert forall|r: usize| r < size && labels@[r as int] == r implies (#[trigger] members@[r as int])@
            == component_nodes(model, r) by {
            assert forall|u: usize| #[trigger] members@[r as int]@.contains(u) <==> u < model.size()
                && same_component(model.edges, r, u) by {
                if u < size {
                    lemma_labels(model, labels@, r, u);
                }
            }
            lemma_indices_filtered(
                model.size(),
                |node: usize| same_component(model.edges, r, node),
                members@[r as int]@,
            );
        }
    }
    let mut priorities: Vec<ComponentPriority> = Vec::new();
    let mut places: Vec<usize> = Vec::new();
    let mut p: usize = 0;
    while p < size
        invariant
            0 <= p <= size,
            places@.len() == p,
            forall|r: int| 0 <= r < p ==> #[trigger] places@[r] == 0,
        decreases size - p,
    {
        places.push(0);
        p += 1;
    }
    let mut q: usize = 0;
    while q < roots.len()
        invariant
            graph.names(snapshot),
            graph.matches(model),
            size == model.size(),
            labels_components(model, labels@),
            members@.len() == size,
            places@.len() == size,
            forall|r: usize| r < size && labels@[r as int] == r ==> (#[trigger] members@[r as int])@
                == component_nodes(model, r),
            forall|r: usize| #[trigger] roots@.contains(r) ==> r < size && labels@[r as int] == r,
            increasing(roots@, |a: usize, b: usize| a < b),
            0 <= q <= roots.len(),
            priorities@.len() == q,
            forall|j: int|
                #![trigger roots@[j]]
                0 <= j < q ==> places@[roots@[j] as int] == j && priorities@[j]@ == priority_of(
                    snapshot,
                    model,
                    roots@[j],
                ),
        decreases roots.len() - q,
    {
        let root: usize = roots[q];
        assert(roots@.contains(root));
        let mut nodes: Vec<usize> = Vec::new();
        let mut m: usize = 0;
        while m < members[root].len()
            invariant
                root < size,
                members@.len() == size,
                0 <= m <= members@[root as int]@.len(),
                nodes@ == members@[root as int]@.take(m as int),
            decreases members@[root as int]@.len() - m,
        {
            nodes.push(members[root][m]);
            assert(nodes@ =~= members@[root as int]@.take(m + 1));
            m += 1;
        }
        assert(nodes@ =~= members@[root as int]@);
        let component = Component { root, nodes };
        let priority = component_priority(snapshot, graph, &labels, &component, Ghost(model));
        places.set(root, q);
        priorities.push(priority);
        q += 1;
    }
    let order = RootOrder { snapshot, places: &places, priorities: &priorities, model: Ghost(model) };
    proof {
        lemma_root_order(snapshot, model);
        assert forall|r: usize| #[trigger] roots@.contains(r) implies order.covers(r) by {
            assert(roots@[roots@.index_of(r)] == r);
        }
    }
    let sorted = sort_indices(&roots, &order);
    let mut components: Vec<Component> = Vec::new();
    let mut c: usize = 0;
    while c < sorted.len()
        invariant
            0 <= c <= sorted.len(),
            size == model.size(),
            members@.len() == size,
            forall|r: usize| r < size && labels@[r as int] == r ==> (#[trigger] members@[r as int])@
                == component_nodes(model, r),
            forall|r: usize| #[trigger] sorted@.contains(r) ==> r < size && labels@[r as int] == r,
            components@.len() == c,
            forall|j: int|
                0 <= j < c ==> (#[trigger] components@[j]).root == sorted@[j] && components@[j].nodes@
                    == component_nodes(model, sorted@[j]) && sorted@[j] < size,
        decreases sorted.len() - c,
    {
        let root: usize = sorted[c];
        assert(sorted@.contains(root));
        let mut nodes: Vec<usize> = Vec::new();
        let mut m: usize = 0;
        while m < members[root].len()
            invariant
                root < size,
                members@.len() == size,
                0 <= m <= members@[root as int]@.len(),
                nodes@ == members@[root as int]@.take(m as int),
            decreases members@[root as int]@.len() - m,
        {
            nodes.push(members[root][m]);
            assert(nodes@ =~= members@[root as int]@.take(m + 1));
            m += 1;
        }
        assert(nodes@ =~= members@[root as int]@);
        components.push(Component { root, nodes });
        c += 1;
    }
    assert(components@.map_values(|component: Component| component.root) =~= sorted@);
    components
}

} // verus!
