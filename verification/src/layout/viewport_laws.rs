//! What every viewport shows, and what a page makes of the changes between two of them.

use vstd::prelude::*;
use crate::api::edge_parts;
use crate::api::node_parts;
use crate::api::GraphBezierRoute;
use crate::api::GraphViewportEdgeView;
use crate::api::GraphViewportItemKind;
use crate::api::GraphViewportKnownItems;
use crate::api::GraphViewportNodeView;
use crate::api::GraphViewportRequest;
use crate::api::Point;
use crate::layout::viewport::all_node_bounds_fit;
use crate::layout::viewport::edge_fingerprint_fn;
use crate::layout::viewport::edge_key_fn;
use crate::layout::viewport::is_stale;
use crate::layout::viewport::known_edges;
use crate::layout::viewport::known_nodes;
use crate::layout::viewport::lemma_fingerprints_recorded;
use crate::layout::viewport::merged_removals;
use crate::layout::viewport::node_bounds_fit;
use crate::layout::viewport::node_fingerprint_fn;
use crate::layout::viewport::node_key_fn;
use crate::layout::viewport::node_rectangle;
use crate::layout::viewport::removed_keys;
use crate::layout::viewport::request_bounds;
use crate::layout::viewport::route_rectangle;
use crate::layout::viewport::touch;
use crate::layout::viewport::viewport_diff;
use crate::layout::viewport::viewport_of;
use crate::layout::viewport::KnownView;
use crate::layout::viewport::RemovedView;
use crate::layout::viewport::ViewportView;
use crate::layout::GraphLayoutEdgeKind;
use crate::layout::GraphLayoutEdgeView;
use crate::layout::GraphLayoutNodeView;
use crate::layout::GraphLayoutView;
use crate::ordered::texts;
use crate::sequences::lemma_filter_members;
use crate::sequences::lemma_filter_places;
use crate::sequences::lemma_rising_unique;
use crate::sequences::rising;
use crate::text::record_text;
use crate::text::text_lt;

verus! {

/// Whether the size of a request and its margin are none below zero.
pub open spec fn is_proper(request: GraphViewportRequest) -> bool {
    request.width >= 0 && request.height >= 0 && request.overscan >= 0
}

/// Whether a point lies in the part of the canvas that a request asks for.
pub open spec fn asks_for(request: GraphViewportRequest, point: Point) -> bool {
    &&& request.x <= point.x <= request.x + request.width
    &&& request.y <= point.y <= request.y + request.height
}

/// How the key of an edge names its kind.
pub open spec fn kind_in_key(kind: GraphLayoutEdgeKind) -> Seq<char> {
    match kind {
        GraphLayoutEdgeKind::Primary => "primary_parent"@,
        GraphLayoutEdgeKind::Merge => "merge_parent"@,
        GraphLayoutEdgeKind::Shadow => "shadow_parent"@,
    }
}

/// A viewport repeats the version, the size of the canvas and the request that it answers.
pub proof fn lemma_viewport_repeats_request(
    version: u64,
    layout: GraphLayoutView,
    request: GraphViewportRequest,
)
    ensures
        ({
            let shown = viewport_of(version, layout, request);
            &&& shown.version == version
            &&& shown.canvas.width == layout.width
            &&& shown.canvas.height == layout.height
            &&& shown.viewport.x == request.x
            &&& shown.viewport.y == request.y
            &&& shown.viewport.width == request.width
            &&& shown.viewport.height == request.height
            &&& shown.viewport.overscan == request.overscan
        }),
{
}

/// A viewport shows, in the order of the layout and each once, the nodes whose points lie
/// within the asked part widened by the margin and by the room that a node and its text take:
/// 64 to either side, 24 above the point and 52 below it. Each is shown at its point, with its
/// own texts.
pub proof fn lemma_viewport_nodes(
    version: u64,
    layout: GraphLayoutView,
    request: GraphViewportRequest,
) -> (places: Seq<int>)
    requires
        all_node_bounds_fit(layout),
        is_proper(request),
    ensures
        rising(places, layout.nodes.len()),
        places.len() == viewport_of(version, layout, request).nodes.len(),
        forall|k: int|
            #![trigger places[k]]
            0 <= k < places.len() ==> {
                let shown = viewport_of(version, layout, request).nodes[k];
                let node = layout.nodes[places[k]];
                &&& shown.x == node.point.x && shown.y == node.point.y
                &&& shown.id == node.node_id
                &&& shown.key == "node:"@ + node.node_id
                &&& shown.node_target == node.node_target
                &&& shown.short_id == node.short_id
                &&& shown.kind == node.kind
                &&& shown.summary == node.summary
                &&& shown.labels == node.labels
            },
        forall|i: int|
            #![trigger layout.nodes[i]]
            0 <= i < layout.nodes.len() ==> (places.contains(i) <==> {
                let point = layout.nodes[i].point;
                &&& request.x - request.overscan - 64 <= point.x <= request.x + request.width
                    + request.overscan + 64
                &&& request.y - request.overscan - 52 <= point.y <= request.y + request.height
                    + request.overscan + 24
            }),
{
    let keep = |node: GraphLayoutNodeView| touch(request_bounds(request), node_rectangle(node));
    let places = lemma_filter_places(layout.nodes, keep);
    assert forall|i: int|
        #![trigger layout.nodes[i]]
        0 <= i < layout.nodes.len() implies (places.contains(i) <==> {
        let point = layout.nodes[i].point;
        &&& request.x - request.overscan - 64 <= point.x <= request.x + request.width
            + request.overscan + 64
        &&& request.y - request.overscan - 52 <= point.y <= request.y + request.height
            + request.overscan + 24
    }) by {
        assert(node_bounds_fit(layout.nodes[i]));
    }
    places
}

/// A viewport shows, in the order of the layout and each once, the edges whose curves are not
/// wholly to one side of the asked part widened by the margin. Each is shown with its own ends,
/// kind and curve.
pub proof fn lemma_viewport_edges(
    version: u64,
    layout: GraphLayoutView,
    request: GraphViewportRequest,
) -> (places: Seq<int>)
    requires
        is_proper(request),
    ensures
        rising(places, layout.edges.len()),
        places.len() == viewport_of(version, layout, request).edges.len(),
        forall|k: int|
            #![trigger places[k]]
            0 <= k < places.len() ==> {
                let shown = viewport_of(version, layout, request).edges[k];
                let edge = layout.edges[places[k]];
                &&& shown.source_id == edge.source_node_id
                &&& shown.target_id == edge.target_node_id
                &&& shown.route == edge.route
                &&& shown.kind is Primary <==> edge.kind is Primary
                &&& shown.kind is Merge <==> edge.kind is Merge
                &&& shown.kind is Shadow <==> edge.kind is Shadow
                &&& shown.key == "edge:"@ + kind_in_key(edge.kind) + ":"@ + edge.source_node_id + ":"@
                    + edge.target_node_id
            },
        forall|i: int|
            #![trigger layout.edges[i]]
            0 <= i < layout.edges.len() ==> (places.contains(i) <==> {
                let route = layout.edges[i].route;
                &&& !(route.source.x < request.x - request.overscan && route.control_1.x < request.x
                    - request.overscan && route.control_2.x < request.x - request.overscan
                    && route.target.x < request.x - request.overscan)
                &&& !(route.source.y < request.y - request.overscan && route.control_1.y < request.y
                    - request.overscan && route.control_2.y < request.y - request.overscan
                    && route.target.y < request.y - request.overscan)
                &&& !(route.source.x > request.x + request.width + request.overscan
                    && route.control_1.x > request.x + request.width + request.overscan
                    && route.control_2.x > request.x + request.width + request.overscan
                    && route.target.x > request.x + request.width + request.overscan)
                &&& !(route.source.y > request.y + request.height + request.overscan
                    && route.control_1.y > request.y + request.height + request.overscan
                    && route.control_2.y > request.y + request.height + request.overscan
                    && route.target.y > request.y + request.height + request.overscan)
            }),
{
    let keep = |edge: GraphLayoutEdgeView| touch(request_bounds(request), route_rectangle(edge.route));
    lemma_filter_places(layout.edges, keep)
}

/// A node whose point lies in the part that a request asks for is among the nodes shown.
pub proof fn lemma_asked_node_is_shown(
    version: u64,
    layout: GraphLayoutView,
    request: GraphViewportRequest,
    node: int,
)
    requires
        all_node_bounds_fit(layout),
        is_proper(request),
        0 <= node < layout.nodes.len(),
        asks_for(request, layout.nodes[node].point),
    ensures
        exists|k: int|
            0 <= k < viewport_of(version, layout, request).nodes.len()
                && (#[trigger] viewport_of(version, layout, request).nodes[k]).id
                == layout.nodes[node].node_id
                && viewport_of(version, layout, request).nodes[k].x == layout.nodes[node].point.x
                && viewport_of(version, layout, request).nodes[k].y == layout.nodes[node].point.y,
{
    let places = lemma_viewport_nodes(version, layout, request);
    assert(places.contains(node));
    let k = places.index_of(node);
    let shown = viewport_of(version, layout, request).nodes[k];
    assert(shown.id == layout.nodes[places[k]].node_id);
}

/// An edge of whose curve one of the four points lies in the part that a request asks for is
/// among the edges shown.
pub proof fn lemma_asked_edge_is_shown(
    version: u64,
    layout: GraphLayoutView,
    request: GraphViewportRequest,
    edge: int,
)
    requires
        is_proper(request),
        0 <= edge < layout.edges.len(),
        asks_for(request, layout.edges[edge].route.source) || asks_for(
            request,
            layout.edges[edge].route.control_1,
        ) || asks_for(request, layout.edges[edge].route.control_2) || asks_for(
            request,
            layout.edges[edge].route.target,
        ),
    ensures
        exists|k: int|
            0 <= k < viewport_of(version, layout, request).edges.len()
                && (#[trigger] viewport_of(version, layout, request).edges[k]).source_id
                == layout.edges[edge].source_node_id
                && viewport_of(version, layout, request).edges[k].target_id
                == layout.edges[edge].target_node_id
                && viewport_of(version, layout, request).edges[k].route == layout.edges[edge].route,
{
    let places = lemma_viewport_edges(version, layout, request);
    assert(places.contains(edge));
    let k = places.index_of(edge);
    let shown = viewport_of(version, layout, request).edges[k];
    assert(shown.source_id == layout.edges[places[k]].source_node_id);
}

/// Whether one point is another, moved.
pub open spec fn moved(from: Point, to: Point, right: int, down: int) -> bool {
    to.x == from.x + right && to.y == from.y + down
}

/// Whether one layout is another, moved as a whole.
pub open spec fn layout_moved(from: GraphLayoutView, to: GraphLayoutView, right: int, down: int) -> bool {
    &&& from.nodes.len() == to.nodes.len()
    &&& from.edges.len() == to.edges.len()
    &&& forall|i: int|
        #![trigger to.nodes[i]]
        0 <= i < to.nodes.len() ==> to.nodes[i].node_id == from.nodes[i].node_id && moved(
            from.nodes[i].point,
            to.nodes[i].point,
            right,
            down,
        )
    &&& forall|i: int|
        #![trigger to.edges[i]]
        0 <= i < to.edges.len() ==> {
            let a = from.edges[i];
            let b = to.edges[i];
            &&& a.source_node_id == b.source_node_id
            &&& a.target_node_id == b.target_node_id
            &&& a.kind == b.kind
            &&& moved(a.route.source, b.route.source, right, down)
            &&& moved(a.route.control_1, b.route.control_1, right, down)
            &&& moved(a.route.control_2, b.route.control_2, right, down)
            &&& moved(a.route.target, b.route.target, right, down)
        }
}

/// Where a layout and a request are moved by the same amount, the same nodes and edges are
/// shown in the same order, moved by that amount.
#[verifier::rlimit(40)]
pub proof fn lemma_moved_viewport(
    version: u64,
    from: GraphLayoutView,
    to: GraphLayoutView,
    before: GraphViewportRequest,
    after: GraphViewportRequest,
    right: int,
    down: int,
)
    requires
        all_node_bounds_fit(from),
        all_node_bounds_fit(to),
        is_proper(before),
        layout_moved(from, to, right, down),
        after.x == before.x + right,
        after.y == before.y + down,
        after.width == before.width,
        after.height == before.height,
        after.overscan == before.overscan,
    ensures
        ({
            let a = viewport_of(version, from, before);
            let b = viewport_of(version, to, after);
            &&& a.nodes.len() == b.nodes.len()
            &&& a.edges.len() == b.edges.len()
            &&& forall|k: int|
                #![trigger b.nodes[k]]
                0 <= k < b.nodes.len() ==> b.nodes[k].id == a.nodes[k].id && b.nodes[k].x
                    == a.nodes[k].x + right && b.nodes[k].y == a.nodes[k].y + down
            &&& forall|k: int|
                #![trigger b.edges[k]]
                0 <= k < b.edges.len() ==> b.edges[k].source_id == a.edges[k].source_id
                    && b.edges[k].target_id == a.edges[k].target_id && b.edges[k].kind
                    == a.edges[k].kind && moved(
                    a.edges[k].route.source,
                    b.edges[k].route.source,
                    right,
                    down,
                ) && moved(a.edges[k].route.target, b.edges[k].route.target, right, down)
        }),
{
    let a = viewport_of(version, from, before);
    let b = viewport_of(version, to, after);
    let i = lemma_viewport_nodes(version, from, before);
    let j = lemma_viewport_nodes(version, to, after);
    assert forall|n: int| 0 <= n < from.nodes.len() implies (#[trigger] i.contains(n) <==> j.contains(n)) by {
        assert(to.nodes[n].node_id == from.nodes[n].node_id);
    }
    lemma_rising_unique(i, j, from.nodes.len());
    assert forall|k: int|
        #![trigger b.nodes[k]]
        0 <= k < b.nodes.len() implies b.nodes[k].id == a.nodes[k].id && b.nodes[k].x == a.nodes[k].x
        + right && b.nodes[k].y == a.nodes[k].y + down by {
        let n = i[k];
        assert(j[k] == n);
        assert(to.nodes[n].node_id == from.nodes[n].node_id);
    }
    let s = lemma_viewport_edges(version, from, before);
    let t = lemma_viewport_edges(version, to, after);
    assert forall|n: int| 0 <= n < from.edges.len() implies (#[trigger] s.contains(n) <==> t.contains(n)) by {
        assert(to.edges[n].kind == from.edges[n].kind);
    }
    lemma_rising_unique(s, t, from.edges.len());
    assert forall|k: int|
        #![trigger b.edges[k]]
        0 <= k < b.edges.len() implies b.edges[k].source_id == a.edges[k].source_id
        && b.edges[k].target_id == a.edges[k].target_id && b.edges[k].kind == a.edges[k].kind && moved(
        a.edges[k].route.source,
        b.edges[k].route.source,
        right,
        down,
    ) && moved(a.edges[k].route.target, b.edges[k].route.target, right, down) by {
        let n = s[k];
        assert(t[k] == n);
        assert(to.edges[n].kind == from.edges[n].kind);
    }
}

/// Whether some node has a key.
pub open spec fn node_with_key(nodes: Seq<GraphViewportNodeView>, key: Seq<char>) -> bool {
    exists|i: int| 0 <= i < nodes.len() && (#[trigger] nodes[i]).key == key
}

/// Whether some edge has a key.
pub open spec fn edge_with_key(edges: Seq<GraphViewportEdgeView>, key: Seq<char>) -> bool {
    exists|i: int| 0 <= i < edges.len() && (#[trigger] edges[i]).key == key
}

/// Whether no two nodes have one key.
pub open spec fn node_keys_differ(nodes: Seq<GraphViewportNodeView>) -> bool {
    forall|i: int, j: int|
        0 <= i < j < nodes.len() ==> (#[trigger] nodes[i]).key != (#[trigger] nodes[j]).key
}

/// Whether no two edges have one key.
pub open spec fn edge_keys_differ(edges: Seq<GraphViewportEdgeView>) -> bool {
    forall|i: int, j: int|
        0 <= i < j < edges.len() ==> (#[trigger] edges[i]).key != (#[trigger] edges[j]).key
}

/// The changes between two viewports carry the version, the canvas and the place of the current
/// one, and the place of the previous one.
pub proof fn lemma_diff_repeats_viewports(
    previous: ViewportView,
    current: ViewportView,
    known: Option<&GraphViewportKnownItems>,
)
    ensures
        ({
            let changes = viewport_diff(
                previous,
                current,
                known_nodes(previous, known),
                known_edges(previous, known),
            );
            &&& changes.version == current.version
            &&& changes.canvas == current.canvas
            &&& changes.viewport == current.viewport
            &&& changes.previous_viewport == previous.viewport
        }),
{
}

/// Where a page names nothing of what it holds, a node of the current viewport is added exactly
/// where the previous viewport has no node with its key, and updated exactly where the node that
/// has its key there is drawn differently. Nothing else is added or updated.
pub proof fn lemma_diff_nodes(previous: ViewportView, current: ViewportView, node: GraphViewportNodeView)
    requires
        node_keys_differ(previous.nodes),
    ensures
        ({
            let changes = viewport_diff(
                previous,
                current,
                known_nodes(previous, None),
                known_edges(previous, None),
            );
            &&& changes.added_nodes.contains(node) <==> current.nodes.contains(node) && !node_with_key(
                previous.nodes,
                node.key,
            )
            &&& changes.updated_nodes.contains(node) <==> current.nodes.contains(node) && exists|i: int|
                0 <= i < previous.nodes.len() && (#[trigger] previous.nodes[i]).key == node.key
                    && previous.nodes[i] != node
        }),
{
    let key = node_key_fn();
    let fingerprint = node_fingerprint_fn();
    let known = known_nodes(previous, None);
    let keys = previous.nodes.map_values(key);
    lemma_filter_members(
        current.nodes,
        |item: GraphViewportNodeView| !known.keys.contains(key(item)),
        node,
    );
    lemma_filter_members(
        current.nodes,
        |item: GraphViewportNodeView| is_stale(item, key, fingerprint, known),
        node,
    );
    assert(keys.no_duplicates());
    if keys.contains(node.key) {
        let n = keys.index_of(node.key);
        assert(previous.nodes[n].key == node.key);
        lemma_fingerprints_recorded(previous.nodes, key, fingerprint, n);
        if fingerprint(previous.nodes[n]) == fingerprint(node) {
            crate::api::lemma_node_fingerprint(previous.nodes[n], node);
        }
    }
    if node_with_key(previous.nodes, node.key) {
        let n = choose|i: int|
            0 <= i < previous.nodes.len() && (#[trigger] previous.nodes[i]).key == node.key;
        assert(keys[n] == node.key);
        assert(keys.contains(node.key));
    }
    assert forall|i: int|
        0 <= i < previous.nodes.len() && (#[trigger] previous.nodes[i]).key == node.key implies i
        == keys.index_of(node.key) && keys.contains(node.key) by {
        assert(keys[i] == node.key);
        assert(keys.contains(node.key));
        assert(keys[keys.index_of(node.key)] == node.key);
    }
}

/// Where a page names nothing of what it holds, an edge of the current viewport is added exactly
/// where the previous viewport has no edge with its key, and updated exactly where the edge that
/// has its key there is drawn differently. Nothing else is added or updated.
pub proof fn lemma_diff_edges(previous: ViewportView, current: ViewportView, edge: GraphViewportEdgeView)
    requires
        edge_keys_differ(previous.edges),
    ensures
        ({
            let changes = viewport_diff(
                previous,
                current,
                known_nodes(previous, None),
                known_edges(previous, None),
            );
            &&& changes.added_edges.contains(edge) <==> current.edges.contains(edge) && !edge_with_key(
                previous.edges,
                edge.key,
            )
            &&& changes.updated_edges.contains(edge) <==> current.edges.contains(edge) && exists|i: int|
                0 <= i < previous.edges.len() && (#[trigger] previous.edges[i]).key == edge.key
                    && previous.edges[i] != edge
        }),
{
    let key = edge_key_fn();
    let fingerprint = edge_fingerprint_fn();
    let known = known_edges(previous, None);
    let keys = previous.edges.map_values(key);
    lemma_filter_members(
        current.edges,
        |item: GraphViewportEdgeView| !known.keys.contains(key(item)),
        edge,
    );
    lemma_filter_members(
        current.edges,
        |item: GraphViewportEdgeView| is_stale(item, key, fingerprint, known),
        edge,
    );
    assert(keys.no_duplicates());
    if keys.contains(edge.key) {
        let n = keys.index_of(edge.key);
        assert(previous.edges[n].key == edge.key);
        lemma_fingerprints_recorded(previous.edges, key, fingerprint, n);
        if fingerprint(previous.edges[n]) == fingerprint(edge) {
            crate::api::lemma_edge_fingerprint(previous.edges[n], edge);
        }
    }
    if edge_with_key(previous.edges, edge.key) {
        let n = choose|i: int|
            0 <= i < previous.edges.len() && (#[trigger] previous.edges[i]).key == edge.key;
        assert(keys[n] == edge.key);
        assert(keys.contains(edge.key));
    }
    assert forall|i: int|
        0 <= i < previous.edges.len() && (#[trigger] previous.edges[i]).key == edge.key implies i
        == keys.index_of(edge.key) && keys.contains(edge.key) by {
        assert(keys[i] == edge.key);
        assert(keys.contains(edge.key));
        assert(keys[keys.index_of(edge.key)] == edge.key);
    }
}

/// An edge of the current viewport whose key the page holds is among the updated edges exactly
/// where it is drawn differently from the edge with that key in the previous viewport, and is
/// never among the added ones.
pub proof fn lemma_changed_edge_is_updated(
    previous: ViewportView,
    current: ViewportView,
    before: int,
    after: int,
)
    requires
        edge_keys_differ(previous.edges),
        0 <= before < previous.edges.len(),
        0 <= after < current.edges.len(),
        previous.edges[before].key == current.edges[after].key,
    ensures
        ({
            let changes = viewport_diff(
                previous,
                current,
                known_nodes(previous, None),
                known_edges(previous, None),
            );
            &&& !changes.added_edges.contains(current.edges[after])
            &&& changes.updated_edges.contains(current.edges[after]) <==> previous.edges[before]
                != current.edges[after]
        }),
{
    let edge = current.edges[after];
    lemma_diff_edges(previous, current, edge);
    assert(current.edges.contains(edge));
    assert forall|i: int|
        0 <= i < previous.edges.len() && (#[trigger] previous.edges[i]).key == edge.key implies i
        == before by {
        assert(previous.edges[before].key == edge.key);
    }
}

/// Where a page names the nodes that it holds, a node of the current viewport is added exactly
/// where the page does not name its key. Where it does, and names the looks of some node for that
/// key, the node is updated exactly where it is drawn differently from that one; where the page
/// names no looks, it is updated.
pub proof fn lemma_diff_known_nodes(
    previous: ViewportView,
    current: ViewportView,
    known: &GraphViewportKnownItems,
    node: GraphViewportNodeView,
    held: GraphViewportNodeView,
)
    requires
        current.nodes.contains(node),
        held.key == node.key,
    ensures
        ({
            let changes = viewport_diff(
                previous,
                current,
                known_nodes(previous, Some(known)),
                known_edges(previous, Some(known)),
            );
            let named = exists|i: int| 0 <= i < known.nodes@.len() && (#[trigger] known.nodes@[i])@ == node.key;
            let looks = known.node_fingerprints@;
            &&& changes.added_nodes.contains(node) <==> !named
            &&& changes.updated_nodes.contains(node) ==> named
            &&& named && !looks.contains_key(node.key) ==> changes.updated_nodes.contains(node)
            &&& named && looks.contains_key(node.key) && looks[node.key]@ == record_text(node_parts(held))
                ==> (changes.updated_nodes.contains(node) <==> held != node)
        }),
{
    let key = node_key_fn();
    let fingerprint = node_fingerprint_fn();
    let page = known_nodes(previous, Some(known));
    lemma_filter_members(
        current.nodes,
        |item: GraphViewportNodeView| !page.keys.contains(key(item)),
        node,
    );
    lemma_filter_members(
        current.nodes,
        |item: GraphViewportNodeView| is_stale(item, key, fingerprint, page),
        node,
    );
    lemma_named(known.nodes@, node.key);
    if fingerprint(held) == fingerprint(node) {
        crate::api::lemma_node_fingerprint(held, node);
    }
}

/// Where a page names the edges that it holds, an edge of the current viewport is added exactly
/// where the page does not name its key. Where it does, and names the looks of some edge for that
/// key, the edge is updated exactly where it is drawn differently from that one; where the page
/// names no looks, it is updated.
pub proof fn lemma_diff_known_edges(
    previous: ViewportView,
    current: ViewportView,
    known: &GraphViewportKnownItems,
    edge: GraphViewportEdgeView,
    held: GraphViewportEdgeView,
)
    requires
        current.edges.contains(edge),
        held.key == edge.key,
    ensures
        ({
            let changes = viewport_diff(
                previous,
                current,
                known_nodes(previous, Some(known)),
                known_edges(previous, Some(known)),
            );
            let named = exists|i: int| 0 <= i < known.edges@.len() && (#[trigger] known.edges@[i])@ == edge.key;
            let looks = known.edge_fingerprints@;
            &&& changes.added_edges.contains(edge) <==> !named
            &&& changes.updated_edges.contains(edge) ==> named
            &&& named && !looks.contains_key(edge.key) ==> changes.updated_edges.contains(edge)
            &&& named && looks.contains_key(edge.key) && looks[edge.key]@ == record_text(edge_parts(held))
                ==> (changes.updated_edges.contains(edge) <==> held != edge)
        }),
{
    let key = edge_key_fn();
    let fingerprint = edge_fingerprint_fn();
    let page = known_edges(previous, Some(known));
    lemma_filter_members(
        current.edges,
        |item: GraphViewportEdgeView| !page.keys.contains(key(item)),
        edge,
    );
    lemma_filter_members(
        current.edges,
        |item: GraphViewportEdgeView| is_stale(item, key, fingerprint, page),
        edge,
    );
    lemma_named(known.edges@, edge.key);
    if fingerprint(held) == fingerprint(edge) {
        crate::api::lemma_edge_fingerprint(held, edge);
    }
}

proof fn lemma_named(names: Seq<String>, key: Seq<char>)
    ensures
        texts(names).to_set().contains(key) <==> exists|i: int|
            0 <= i < names.len() && (#[trigger] names[i])@ == key,
{
    let all = texts(names);
    if all.contains(key) {
        let n = all.index_of(key);
        assert(names[n]@ == key);
    }
    if exists|i: int| 0 <= i < names.len() && (#[trigger] names[i])@ == key {
        let n = choose|i: int| 0 <= i < names.len() && (#[trigger] names[i])@ == key;
        assert(all[n] == key);
    }
}

/// What a page holds and the current viewport lacks is removed, nodes as nodes and edges as
/// edges, and nothing else is.
pub proof fn lemma_diff_removed(previous: ViewportView, current: ViewportView, key: Seq<char>)
    ensures
        ({
            let changes = viewport_diff(
                previous,
                current,
                known_nodes(previous, None),
                known_edges(previous, None),
            );
            &&& changes.removed.contains(RemovedView { kind: GraphViewportItemKind::Node, key })
                <==> node_with_key(previous.nodes, key) && !node_with_key(current.nodes, key)
            &&& changes.removed.contains(RemovedView { kind: GraphViewportItemKind::Edge, key })
                <==> edge_with_key(previous.edges, key) && !edge_with_key(current.edges, key)
        }),
{
    lemma_removed(current, known_nodes(previous, None), known_edges(previous, None), key);
    lemma_node_keys(previous.nodes, key);
    lemma_edge_keys(previous.edges, key);
}

/// What a page names and the current viewport lacks is removed, nodes as nodes and edges as
/// edges, and nothing else is.
pub proof fn lemma_diff_known_removed(
    previous: ViewportView,
    current: ViewportView,
    known: &GraphViewportKnownItems,
    key: Seq<char>,
)
    ensures
        ({
            let changes = viewport_diff(
                previous,
                current,
                known_nodes(previous, Some(known)),
                known_edges(previous, Some(known)),
            );
            &&& changes.removed.contains(RemovedView { kind: GraphViewportItemKind::Node, key }) <==> (
            exists|i: int| 0 <= i < known.nodes@.len() && (#[trigger] known.nodes@[i])@ == key)
                && !node_with_key(current.nodes, key)
            &&& changes.removed.contains(RemovedView { kind: GraphViewportItemKind::Edge, key }) <==> (
            exists|i: int| 0 <= i < known.edges@.len() && (#[trigger] known.edges@[i])@ == key)
                && !edge_with_key(current.edges, key)
        }),
{
    lemma_removed(
        current,
        known_nodes(previous, Some(known)),
        known_edges(previous, Some(known)),
        key,
    );
    lemma_named(known.nodes@, key);
    lemma_named(known.edges@, key);
}

/// Whether a list holds some items of another one, in their order and each once.
pub open spec fn is_part_of<V>(part: Seq<V>, whole: Seq<V>) -> bool {
    exists|places: Seq<int>| #[trigger]
        rising(places, whole.len()) && places.len() == part.len() && forall|k: int|
            0 <= k < part.len() ==> part[k] == whole[#[trigger] places[k]]
}

/// The added and the updated items come in the order of the current viewport, each once.
pub proof fn lemma_diff_keeps_order(
    previous: ViewportView,
    current: ViewportView,
    known: Option<&GraphViewportKnownItems>,
)
    ensures
        ({
            let changes = viewport_diff(
                previous,
                current,
                known_nodes(previous, known),
                known_edges(previous, known),
            );
            &&& is_part_of(changes.added_nodes, current.nodes)
            &&& is_part_of(changes.updated_nodes, current.nodes)
            &&& is_part_of(changes.added_edges, current.edges)
            &&& is_part_of(changes.updated_edges, current.edges)
        }),
{
    let nodes = known_nodes(previous, known);
    let edges = known_edges(previous, known);
    let a = lemma_filter_places(
        current.nodes,
        |item: GraphViewportNodeView| !nodes.keys.contains(node_key_fn()(item)),
    );
    let b = lemma_filter_places(
        current.nodes,
        |item: GraphViewportNodeView| is_stale(item, node_key_fn(), node_fingerprint_fn(), nodes),
    );
    let c = lemma_filter_places(
        current.edges,
        |item: GraphViewportEdgeView| !edges.keys.contains(edge_key_fn()(item)),
    );
    let d = lemma_filter_places(
        current.edges,
        |item: GraphViewportEdgeView| is_stale(item, edge_key_fn(), edge_fingerprint_fn(), edges),
    );
    assert(rising(a, current.nodes.len()) && rising(b, current.nodes.len()));
    assert(rising(c, current.edges.len()) && rising(d, current.edges.len()));
}

/// The removed items come in the order of their keys.
pub proof fn lemma_diff_removed_in_order(
    previous: ViewportView,
    current: ViewportView,
    known: Option<&GraphViewportKnownItems>,
)
    ensures
        ({
            let changes = viewport_diff(
                previous,
                current,
                known_nodes(previous, known),
                known_edges(previous, known),
            );
            forall|i: int, j: int|
                0 <= i < j < changes.removed.len() ==> !text_lt(
                    (#[trigger] changes.removed[j]).key,
                    (#[trigger] changes.removed[i]).key,
                )
        }),
{
    let held = known_nodes(previous, known);
    let tied = known_edges(previous, known);
    let x = removed_keys(current.nodes, node_key_fn(), held);
    let y = removed_keys(current.edges, edge_key_fn(), tied);
    lemma_known_finite(previous, known);
    crate::ordered::lemma_sorted_texts_exists(
        held.keys.difference(current.nodes.map_values(node_key_fn()).to_set()),
    );
    crate::ordered::lemma_sorted_texts_exists(
        tied.keys.difference(current.edges.map_values(edge_key_fn()).to_set()),
    );
    lemma_merged_in_order(x, y);
}

proof fn lemma_known_finite(previous: ViewportView, known: Option<&GraphViewportKnownItems>)
    ensures
        known_nodes(previous, known).keys.finite(),
        known_edges(previous, known).keys.finite(),
{
}

proof fn lemma_node_keys(nodes: Seq<GraphViewportNodeView>, key: Seq<char>)
    ensures
        nodes.map_values(node_key_fn()).to_set().contains(key) <==> node_with_key(nodes, key),
{
    let keys = nodes.map_values(node_key_fn());
    if keys.contains(key) {
        let n = keys.index_of(key);
        assert(nodes[n].key == key);
    }
    if node_with_key(nodes, key) {
        let n = choose|i: int| 0 <= i < nodes.len() && (#[trigger] nodes[i]).key == key;
        assert(keys[n] == key);
    }
}

proof fn lemma_edge_keys(edges: Seq<GraphViewportEdgeView>, key: Seq<char>)
    ensures
        edges.map_values(edge_key_fn()).to_set().contains(key) <==> edge_with_key(edges, key),
{
    let keys = edges.map_values(edge_key_fn());
    if keys.contains(key) {
        let n = keys.index_of(key);
        assert(edges[n].key == key);
    }
    if edge_with_key(edges, key) {
        let n = choose|i: int| 0 <= i < edges.len() && (#[trigger] edges[i]).key == key;
        assert(keys[n] == key);
    }
}

proof fn lemma_removed(current: ViewportView, nodes: KnownView, edges: KnownView, key: Seq<char>)
    requires
        nodes.keys.finite(),
        edges.keys.finite(),
    ensures
        ({
            let removed = merged_removals(
                removed_keys(current.nodes, node_key_fn(), nodes),
                removed_keys(current.edges, edge_key_fn(), edges),
            );
            &&& removed.contains(RemovedView { kind: GraphViewportItemKind::Node, key })
                <==> nodes.keys.contains(key) && !node_with_key(current.nodes, key)
            &&& removed.contains(RemovedView { kind: GraphViewportItemKind::Edge, key })
                <==> edges.keys.contains(key) && !edge_with_key(current.edges, key)
        }),
{
    let x = removed_keys(current.nodes, node_key_fn(), nodes);
    let y = removed_keys(current.edges, edge_key_fn(), edges);
    let a = nodes.keys.difference(current.nodes.map_values(node_key_fn()).to_set());
    let b = edges.keys.difference(current.edges.map_values(edge_key_fn()).to_set());
    crate::ordered::lemma_sorted_texts_exists(a);
    crate::ordered::lemma_sorted_texts_exists(b);
    assert(x.to_set().contains(key) <==> a.contains(key));
    assert(y.to_set().contains(key) <==> b.contains(key));
    lemma_merged_members(x, y, key);
    lemma_node_keys(current.nodes, key);
    lemma_edge_keys(current.edges, key);
}

proof fn lemma_front_members<A>(first: A, rest: Seq<A>, item: A)
    ensures
        (seq![first] + rest).contains(item) <==> first == item || rest.contains(item),
{
    let all = seq![first] + rest;
    if all.contains(item) {
        let n = all.index_of(item);
        if n > 0 {
            assert(rest[n - 1] == item);
        }
    }
    if first == item {
        assert(all[0] == item);
    }
    if rest.contains(item) {
        let n = rest.index_of(item);
        assert(all[n + 1] == item);
    }
}

proof fn lemma_merged_members(nodes: Seq<Seq<char>>, edges: Seq<Seq<char>>, key: Seq<char>)
    ensures
        merged_removals(nodes, edges).contains(
            RemovedView { kind: GraphViewportItemKind::Node, key },
        ) <==> nodes.contains(key),
        merged_removals(nodes, edges).contains(
            RemovedView { kind: GraphViewportItemKind::Edge, key },
        ) <==> edges.contains(key),
    decreases nodes.len() + edges.len(),
{
    let node = RemovedView { kind: GraphViewportItemKind::Node, key };
    let edge = RemovedView { kind: GraphViewportItemKind::Edge, key };
    if nodes.len() == 0 && edges.len() == 0 {
    } else if nodes.len() == 0 || (edges.len() > 0 && text_lt(edges[0], nodes[0])) {
        let rest = merged_removals(nodes, edges.drop_first());
        let first = RemovedView { kind: GraphViewportItemKind::Edge, key: edges[0] };
        lemma_merged_members(nodes, edges.drop_first(), key);
        lemma_front_members(first, rest, node);
        lemma_front_members(first, rest, edge);
        assert(seq![edges[0]] + edges.drop_first() =~= edges);
        lemma_front_members(edges[0], edges.drop_first(), key);
    } else {
        let rest = merged_removals(nodes.drop_first(), edges);
        let first = RemovedView { kind: GraphViewportItemKind::Node, key: nodes[0] };
        lemma_merged_members(nodes.drop_first(), edges, key);
        lemma_front_members(first, rest, node);
        lemma_front_members(first, rest, edge);
        assert(seq![nodes[0]] + nodes.drop_first() =~= nodes);
        lemma_front_members(nodes[0], nodes.drop_first(), key);
    }
}

/// No key of two sorted lists comes before the lesser of their first ones.
proof fn lemma_not_before_first(
    nodes: Seq<Seq<char>>,
    edges: Seq<Seq<char>>,
    edge_first: bool,
    key: Seq<char>,
)
    requires
        crate::ordered::strictly_sorted(nodes),
        crate::ordered::strictly_sorted(edges),
        nodes.len() + edges.len() > 0,
        edge_first == (nodes.len() == 0 || (edges.len() > 0 && text_lt(edges[0], nodes[0]))),
        nodes.contains(key) || edges.contains(key),
    ensures
        !text_lt(key, if edge_first { edges[0] } else { nodes[0] }),
{
    let first = if edge_first { edges[0] } else { nodes[0] };
    if text_lt(key, first) {
        if edges.contains(key) {
            let n = edges.index_of(key);
            if n > 0 {
                assert(text_lt(edges[0], edges[n]));
                crate::text::lemma_text_lt_transitive(edges[0], key, first);
            }
        } else {
            let n = nodes.index_of(key);
            if n > 0 {
                assert(text_lt(nodes[0], nodes[n]));
                crate::text::lemma_text_lt_transitive(nodes[0], key, first);
            }
        }
        crate::text::lemma_text_lt_irreflexive(first);
        if edge_first && nodes.len() > 0 && nodes[0] != first {
            if text_lt(nodes[0], edges[0]) {
                crate::text::lemma_text_lt_asymmetric(nodes[0], edges[0]);
            }
        }
    }
}

/// Two sorted lists of keys are merged into a sorted one.
proof fn lemma_merged_in_order(nodes: Seq<Seq<char>>, edges: Seq<Seq<char>>)
    requires
        crate::ordered::strictly_sorted(nodes),
        crate::ordered::strictly_sorted(edges),
    ensures
        forall|i: int, j: int|
            0 <= i < j < merged_removals(nodes, edges).len() ==> !text_lt(
                (#[trigger] merged_removals(nodes, edges)[j]).key,
                (#[trigger] merged_removals(nodes, edges)[i]).key,
            ),
    decreases nodes.len() + edges.len(),
{
    let all = merged_removals(nodes, edges);
    if nodes.len() == 0 && edges.len() == 0 {
    } else {
        let edge_first = nodes.len() == 0 || (edges.len() > 0 && text_lt(edges[0], nodes[0]));
        let rest = if edge_first {
            merged_removals(nodes, edges.drop_first())
        } else {
            merged_removals(nodes.drop_first(), edges)
        };
        if edge_first {
            lemma_merged_in_order(nodes, edges.drop_first());
        } else {
            lemma_merged_in_order(nodes.drop_first(), edges);
        }
        assert forall|i: int, j: int| 0 <= i < j < all.len() implies !text_lt(
            (#[trigger] all[j]).key,
            (#[trigger] all[i]).key,
        ) by {
            assert(all[j] == rest[j - 1]);
            if i > 0 {
                assert(all[i] == rest[i - 1]);
            } else {
                let item = rest[j - 1];
                assert(rest.contains(item));
                if edge_first {
                    lemma_merged_members(nodes, edges.drop_first(), item.key);
                    assert(seq![edges[0]] + edges.drop_first() =~= edges);
                    lemma_front_members(edges[0], edges.drop_first(), item.key);
                } else {
                    lemma_merged_members(nodes.drop_first(), edges, item.key);
                    assert(seq![nodes[0]] + nodes.drop_first() =~= nodes);
                    lemma_front_members(nodes[0], nodes.drop_first(), item.key);
                }
                match item.kind {
                    GraphViewportItemKind::Node => {
                        assert(item == (RemovedView { kind: GraphViewportItemKind::Node, key: item.key }));
                    },
                    GraphViewportItemKind::Edge => {
                        assert(item == (RemovedView { kind: GraphViewportItemKind::Edge, key: item.key }));
                    },
                }
                lemma_not_before_first(nodes, edges, edge_first, item.key);
            }
        }
    }
}

/// The rectangle around a curve is the smallest one: each of its sides goes through one of the
/// four points of the curve, and all of them lie inside.
pub proof fn lemma_route_rectangle(route: GraphBezierRoute)
    ensures
        ({
            let (left, top, right, bottom) = route_rectangle(route);
            let xs = seq![route.source.x, route.control_1.x, route.control_2.x, route.target.x];
            let ys = seq![route.source.y, route.control_1.y, route.control_2.y, route.target.y];
            &&& forall|i: int| 0 <= i < 4 ==> left <= #[trigger] xs[i] <= right
            &&& forall|i: int| 0 <= i < 4 ==> top <= #[trigger] ys[i] <= bottom
            &&& exists|i: int| 0 <= i < 4 && #[trigger] xs[i] == left
            &&& exists|i: int| 0 <= i < 4 && #[trigger] xs[i] == right
            &&& exists|i: int| 0 <= i < 4 && #[trigger] ys[i] == top
            &&& exists|i: int| 0 <= i < 4 && #[trigger] ys[i] == bottom
        }),
{
    let (left, top, right, bottom) = route_rectangle(route);
    let xs = seq![route.source.x, route.control_1.x, route.control_2.x, route.target.x];
    let ys = seq![route.source.y, route.control_1.y, route.control_2.y, route.target.y];
    assert(xs[0] == left || xs[1] == left || xs[2] == left || xs[3] == left);
    assert(xs[0] == right || xs[1] == right || xs[2] == right || xs[3] == right);
    assert(ys[0] == top || ys[1] == top || ys[2] == top || ys[3] == top);
    assert(ys[0] == bottom || ys[1] == bottom || ys[2] == bottom || ys[3] == bottom);
}

/// A node takes up 64 to either side of its point, 24 above it and 52 below it.
pub proof fn lemma_node_rectangle(node: GraphLayoutNodeView)
    requires
        node_bounds_fit(node),
    ensures
        ({
            let (left, top, right, bottom) = node_rectangle(node);
            &&& left + 64 == node.point.x && node.point.x + 64 == right
            &&& top + 24 == node.point.y && node.point.y + 52 == bottom
        }),
{
}

} // verus!
