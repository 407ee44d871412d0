//! The part of a layout that a viewport shows, and what changes between two of them.

use vstd::prelude::*;
use vstd::string::*;
use crate::api::edge_parts;
use crate::api::node_parts;
use crate::api::GraphBezierRoute;
use crate::api::GraphCanvas;
use crate::api::GraphViewport;
use crate::api::GraphViewportDiffRequest;
use crate::api::GraphViewportDiffResponse;
use crate::api::GraphViewportEdge;
use crate::api::GraphViewportEdgeKind;
use crate::api::GraphViewportEdgeView;
use crate::api::GraphViewportItemKind;
use crate::api::GraphViewportItems;
use crate::api::GraphViewportKnownItems;
use crate::api::GraphViewportNode;
use crate::api::GraphViewportNodeView;
use crate::api::GraphViewportRemovedItem;
use crate::api::GraphViewportRequest;
use crate::api::GraphViewportResponse;
use crate::arithmetic::greater_of;
use crate::arithmetic::larger;
use crate::arithmetic::lesser_of;
use crate::arithmetic::saturate_i32;
use crate::arithmetic::saturating_difference;
use crate::arithmetic::saturating_sum;
use crate::arithmetic::smaller;
use crate::graph::GraphSnapshot;
use crate::layout::graph_layout;
use crate::layout::kind_key_part;
use crate::layout::layout_fits;
use crate::layout::layout_graph;
use crate::layout::prepare::preparation;
use crate::layout::viewport_kind;
use crate::layout::GraphLayout;
use crate::layout::GraphLayoutEdge;
use crate::layout::GraphLayoutEdgeKind;
use crate::layout::GraphLayoutEdgeView;
use crate::layout::GraphLayoutNode;
use crate::layout::GraphLayoutNodeView;
use crate::layout::GraphLayoutView;
use crate::ordered::sorted_texts;
use crate::ordered::texts;
use crate::ordered::TextMap;
use crate::ordered::TextSet;
use crate::sequences::lemma_filter_push;
use crate::sequences::lemma_push_members;
use crate::text::copy_strings;
use crate::text::record_text;
use crate::text::text_less;
use crate::text::text_lt;

verus! {

const NODE_BOUNDS_HALF_WIDTH: i32 = 64;

const NODE_BOUNDS_TOP: i32 = 24;

const NODE_BOUNDS_BOTTOM: i32 = 52;

/// A rectangle by its edges: left, top, right, bottom.
pub type Bounds = (i32, i32, i32, i32);

/// What a request covers, with its overscan.
pub open spec fn request_bounds(request: GraphViewportRequest) -> Bounds {
    (
        saturate_i32(request.x - request.overscan),
        saturate_i32(request.y - request.overscan),
        saturate_i32(saturate_i32(request.x + request.width) + request.overscan),
        saturate_i32(saturate_i32(request.y + request.height) + request.overscan),
    )
}

/// Whether two rectangles touch.
pub open spec fn touch(a: Bounds, b: Bounds) -> bool {
    b.0 <= a.2 && b.2 >= a.0 && b.1 <= a.3 && b.3 >= a.1
}

#[derive(Debug, Clone, Copy)]
struct ViewportBounds {
    left: i32,
    top: i32,
    right: i32,
    bottom: i32,
}

impl ViewportBounds {
    spec fn rectangle(self) -> Bounds {
        (self.left, self.top, self.right, self.bottom)
    }

    fn from_request(request: GraphViewportRequest) -> (bounds: Self)
        ensures
            bounds.rectangle() == request_bounds(request),
    {
        ViewportBounds {
            left: saturating_difference(request.x, request.overscan),
            top: saturating_difference(request.y, request.overscan),
            right: saturating_sum(saturating_sum(request.x, request.width), request.overscan),
            bottom: saturating_sum(saturating_sum(request.y, request.height), request.overscan),
        }
    }

    fn intersects(self, bounds: Bounds) -> (found: bool)
        ensures
            found == touch(self.rectangle(), bounds),
    {
        bounds.0 <= self.right && bounds.2 >= self.left && bounds.1 <= self.bottom && bounds.3
            >= self.top
    }
}

/// Whether the surroundings of a node are within bounds.
pub open spec fn node_bounds_fit(node: GraphLayoutNodeView) -> bool {
    &&& i32::MIN + 64 <= node.point.x <= i32::MAX - 64
    &&& i32::MIN + 24 <= node.point.y <= i32::MAX - 52
}

/// The rectangle around a node and its text.
pub open spec fn node_rectangle(node: GraphLayoutNodeView) -> Bounds {
    (
        (node.point.x - 64) as i32,
        (node.point.y - 24) as i32,
        (node.point.x + 64) as i32,
        (node.point.y + 52) as i32,
    )
}

/// The rectangle around a node and its text.
pub fn node_bounds(node: &GraphLayoutNode) -> (bounds: Bounds)
    requires
        node_bounds_fit(node@),
    ensures
        bounds == node_rectangle(node@),
{
    (
        node.point.x - NODE_BOUNDS_HALF_WIDTH,
        node.point.y - NODE_BOUNDS_TOP,
        node.point.x + NODE_BOUNDS_HALF_WIDTH,
        node.point.y + NODE_BOUNDS_BOTTOM,
    )
}

/// The rectangle around the four points of a curve.
pub open spec fn route_rectangle(route: GraphBezierRoute) -> Bounds {
    (
        smaller(smaller(smaller(route.source.x, route.control_1.x), route.control_2.x), route.target.x),
        smaller(smaller(smaller(route.source.y, route.control_1.y), route.control_2.y), route.target.y),
        larger(larger(larger(route.source.x, route.control_1.x), route.control_2.x), route.target.x),
        larger(larger(larger(route.source.y, route.control_1.y), route.control_2.y), route.target.y),
    )
}

/// The rectangle around the curve of an edge.
pub fn edge_bounds(edge: &GraphLayoutEdge) -> (bounds: Bounds)
    ensures
        bounds == route_rectangle(edge.route),
{
    route_bounds(edge.route)
}

/// The rectangle around the four points of a curve.
pub fn route_bounds(route: GraphBezierRoute) -> (bounds: Bounds)
    ensures
        bounds == route_rectangle(route),
{
    (
        lesser_of(
            lesser_of(lesser_of(route.source.x, route.control_1.x), route.control_2.x),
            route.target.x,
        ),
        lesser_of(
            lesser_of(lesser_of(route.source.y, route.control_1.y), route.control_2.y),
            route.target.y,
        ),
        greater_of(
            greater_of(greater_of(route.source.x, route.control_1.x), route.control_2.x),
            route.target.x,
        ),
        greater_of(
            greater_of(greater_of(route.source.y, route.control_1.y), route.control_2.y),
            route.target.y,
        ),
    )
}

/// The key of a node.
pub open spec fn node_key_text(node_id: Seq<char>) -> Seq<char> {
    "node:"@ + node_id
}

/// The key of a node.
pub fn node_key(node_id: &str) -> (key: String)
    ensures
        key@ == node_key_text(node_id@),
{
    "node:".to_owned().concat(node_id)
}

/// The key of an edge.
pub open spec fn edge_key_text(
    kind: GraphLayoutEdgeKind,
    source_id: Seq<char>,
    target_id: Seq<char>,
) -> Seq<char> {
    "edge:"@ + kind_key_part(kind) + ":"@ + source_id + ":"@ + target_id
}

/// The key of an edge.
pub fn edge_key(kind: GraphLayoutEdgeKind, source_id: &str, target_id: &str) -> (key: String)
    ensures
        key@ == edge_key_text(kind, source_id@, target_id@),
{
    "edge:".to_owned().concat(kind.key_part()).concat(":").concat(source_id).concat(":").concat(
        target_id,
    )
}

/// A laid out node as it is drawn.
pub open spec fn drawn_node(node: GraphLayoutNodeView) -> GraphViewportNodeView {
    GraphViewportNodeView {
        key: node_key_text(node.node_id),
        id: node.node_id,
        node_target: node.node_target,
        short_id: node.short_id,
        kind: node.kind,
        summary: node.summary,
        labels: node.labels,
        x: node.point.x,
        y: node.point.y,
    }
}

/// A laid out node as it is drawn.
pub fn viewport_node(node: &GraphLayoutNode) -> (drawn: GraphViewportNode)
    ensures
        drawn@ == drawn_node(node@),
{
    GraphViewportNode {
        key: node_key(node.node_id.as_str()),
        id: node.node_id.clone(),
        node_target: node.node_target.clone(),
        short_id: node.short_id.clone(),
        kind: node.kind.clone(),
        summary: node.summary.clone(),
        labels: copy_strings(&node.labels),
        x: node.point.x,
        y: node.point.y,
    }
}

/// A routed edge as it is drawn.
pub open spec fn drawn_edge(edge: GraphLayoutEdgeView) -> GraphViewportEdgeView {
    GraphViewportEdgeView {
        key: edge_key_text(edge.kind, edge.source_node_id, edge.target_node_id),
        kind: viewport_kind(edge.kind),
        source_id: edge.source_node_id,
        target_id: edge.target_node_id,
        route: edge.route,
    }
}

/// A routed edge as it is drawn.
pub fn viewport_edge(edge: &GraphLayoutEdge) -> (drawn: GraphViewportEdge)
    ensures
        drawn@ == drawn_edge(edge@),
{
    GraphViewportEdge {
        key: edge_key(edge.kind, edge.source_node_id.as_str(), edge.target_node_id.as_str()),
        kind: GraphViewportEdgeKind::from(edge.kind),
        source_id: edge.source_node_id.clone(),
        target_id: edge.target_node_id.clone(),
        route: edge.route,
    }
}

/// Drawn nodes with their texts as characters.
pub open spec fn node_views(nodes: Seq<GraphViewportNode>) -> Seq<GraphViewportNodeView> {
    nodes.map_values(|node: GraphViewportNode| node@)
}

/// Drawn edges with their texts as characters.
pub open spec fn edge_views(edges: Seq<GraphViewportEdge>) -> Seq<GraphViewportEdgeView> {
    edges.map_values(|edge: GraphViewportEdge| edge@)
}

/// The nodes of a layout that touch the bounds of a request.
pub open spec fn shown_nodes(layout: GraphLayoutView, request: GraphViewportRequest) -> Seq<
    GraphViewportNodeView,
> {
    layout.nodes.filter(
        |node: GraphLayoutNodeView| touch(request_bounds(request), node_rectangle(node)),
    ).map_values(|node: GraphLayoutNodeView| drawn_node(node))
}

/// The edges of a layout that touch the bounds of a request.
pub open spec fn shown_edges(layout: GraphLayoutView, request: GraphViewportRequest) -> Seq<
    GraphViewportEdgeView,
> {
    layout.edges.filter(
        |edge: GraphLayoutEdgeView| touch(request_bounds(request), route_rectangle(edge.route)),
    ).map_values(|edge: GraphLayoutEdgeView| drawn_edge(edge))
}

/// What a viewport shows, with its texts as characters.
#[verifier::ext_equal]
pub struct ViewportView {
    pub version: u64,
    pub canvas: GraphCanvas,
    pub viewport: GraphViewport,
    pub nodes: Seq<GraphViewportNodeView>,
    pub edges: Seq<GraphViewportEdgeView>,
}

impl View for GraphViewportResponse {
    type V = ViewportView;

    open spec fn view(&self) -> ViewportView {
        ViewportView {
            version: self.version,
            canvas: self.canvas,
            viewport: self.viewport,
            nodes: node_views(self.nodes@),
            edges: edge_views(self.edges@),
        }
    }
}

/// What a viewport shows of a layout.
pub open spec fn viewport_of(
    version: u64,
    layout: GraphLayoutView,
    request: GraphViewportRequest,
) -> ViewportView {
    ViewportView {
        version,
        canvas: GraphCanvas { width: layout.width, height: layout.height },
        viewport: GraphViewport {
            x: request.x,
            y: request.y,
            width: request.width,
            height: request.height,
            overscan: request.overscan,
        },
        nodes: shown_nodes(layout, request),
        edges: shown_edges(layout, request),
    }
}

/// Whether the surroundings of every node are within bounds.
pub open spec fn all_node_bounds_fit(layout: GraphLayoutView) -> bool {
    forall|i: int| 0 <= i < layout.nodes.len() ==> node_bounds_fit(#[trigger] layout.nodes[i])
}

/// What a viewport shows of a layout.
pub fn viewport_from_layout(
    version: u64,
    layout: &GraphLayout,
    request: GraphViewportRequest,
) -> (response: GraphViewportResponse)
    requires
        all_node_bounds_fit(layout@),
    ensures
        response@ == viewport_of(version, layout@, request),
{
    let bounds = ViewportBounds::from_request(request);
    let ghost keep_node = |node: GraphLayoutNodeView|
        touch(request_bounds(request), node_rectangle(node));
    let ghost keep_edge = |edge: GraphLayoutEdgeView|
        touch(request_bounds(request), route_rectangle(edge.route));
    let ghost all_nodes = layout@.nodes;
    let ghost all_edges = layout@.edges;
    let ghost draw_node = |node: GraphLayoutNodeView| drawn_node(node);
    let ghost draw_edge = |edge: GraphLayoutEdgeView| drawn_edge(edge);
    let mut nodes: Vec<GraphViewportNode> = Vec::new();
    let mut i: usize = 0;
    proof {
        reveal(Seq::filter);
        assert(all_nodes.take(0) =~= Seq::<GraphLayoutNodeView>::empty());
        assert(node_views(nodes@) =~= all_nodes.take(0).filter(keep_node).map_values(draw_node));
    }
    while i < layout.nodes.len()
        invariant
            0 <= i <= layout.nodes.len(),
            all_node_bounds_fit(layout@),
            bounds.rectangle() == request_bounds(request),
            all_nodes == layout@.nodes,
            keep_node == (|node: GraphLayoutNodeView|
                touch(request_bounds(request), node_rectangle(node))),
            draw_node == (|node: GraphLayoutNodeView| drawn_node(node)),
            node_views(nodes@) == all_nodes.take(i as int).filter(keep_node).map_values(draw_node),
        decreases layout.nodes.len() - i,
    {
        let ghost before = nodes@;
        let ghost last = all_nodes[i as int];
        assert(last == layout.nodes@[i as int]@);
        assert(node_bounds_fit(last));
        proof {
            assert(all_nodes.take(i + 1) =~= all_nodes.take(i as int).push(last));
            lemma_filter_push(all_nodes.take(i as int), keep_node, last);
        }
        if bounds.intersects(node_bounds(&layout.nodes[i])) {
            let drawn = viewport_node(&layout.nodes[i]);
            nodes.push(drawn);
            proof {
                assert(node_views(nodes@) =~= node_views(before).push(drawn_node(last)));
                assert(all_nodes.take(i + 1).filter(keep_node).map_values(draw_node)
                    =~= all_nodes.take(i as int).filter(keep_node).map_values(draw_node).push(
                    drawn_node(last),
                ));
            }
        }
        i += 1;
    }
    let mut edges: Vec<GraphViewportEdge> = Vec::new();
    let mut k: usize = 0;
    proof {
        reveal(Seq::filter);
        assert(all_nodes.take(i as int) =~= all_nodes);
        assert(all_edges.take(0) =~= Seq::<GraphLayoutEdgeView>::empty());
        assert(edge_views(edges@) =~= all_edges.take(0).filter(keep_edge).map_values(draw_edge));
    }
    while k < layout.edges.len()
        invariant
            0 <= k <= layout.edges.len(),
            bounds.rectangle() == request_bounds(request),
            all_edges == layout@.edges,
            keep_edge == (|edge: GraphLayoutEdgeView|
                touch(request_bounds(request), route_rectangle(edge.route))),
            draw_edge == (|edge: GraphLayoutEdgeView| drawn_edge(edge)),
            edge_views(edges@) == all_edges.take(k as int).filter(keep_edge).map_values(draw_edge),
        decreases layout.edges.len() - k,
    {
        let ghost before = edges@;
        let ghost last = all_edges[k as int];
        assert(last == layout.edges@[k as int]@);
        proof {
            assert(all_edges.take(k + 1) =~= all_edges.take(k as int).push(last));
            lemma_filter_push(all_edges.take(k as int), keep_edge, last);
        }
        if bounds.intersects(edge_bounds(&layout.edges[k])) {
            let drawn = viewport_edge(&layout.edges[k]);
            edges.push(drawn);
            proof {
                assert(edge_views(edges@) =~= edge_views(before).push(drawn_edge(last)));
                assert(all_edges.take(k + 1).filter(keep_edge).map_values(draw_edge)
                    =~= all_edges.take(k as int).filter(keep_edge).map_values(draw_edge).push(
                    drawn_edge(last),
                ));
            }
        }
        k += 1;
    }
    assert(all_edges.take(k as int) =~= all_edges);
    GraphViewportResponse {
        version,
        canvas: GraphCanvas { width: layout.width, height: layout.height },
        viewport: GraphViewport {
            x: request.x,
            y: request.y,
            width: request.width,
            height: request.height,
            overscan: request.overscan,
        },
        nodes,
        edges,
    }
}

/// What a viewport shows of a snapshot that is known to be a graph without cycles.
pub fn layout_graph_viewport(snapshot: &GraphSnapshot, request: GraphViewportRequest) -> (response:
    GraphViewportResponse)
    requires
        snapshot.nodes@.len() <= u32::MAX,
        preparation(snapshot) is Ok,
        layout_fits(snapshot, Map::empty(), None),
        all_node_bounds_fit(graph_layout(snapshot, Map::empty(), None)->Ok_0),
    ensures
        response@ == viewport_of(
            snapshot.version,
            graph_layout(snapshot, Map::empty(), None)->Ok_0,
            request,
        ),
        response.version == snapshot.version,
        response.viewport.x == request.x,
        response.viewport.y == request.y,
        response.viewport.width == request.width,
        response.viewport.height == request.height,
        response.viewport.overscan == request.overscan,
{
    viewport_from_layout(snapshot.version, &layout_graph(snapshot), request)
}

/// The items of one kind that a page holds: their keys, and what they looked like.
#[verifier::ext_equal]
pub struct KnownView {
    pub keys: Set<Seq<char>>,
    pub fingerprints: Map<Seq<char>, Seq<char>>,
}

/// An item of a viewport.
pub(crate) trait ViewportItem: Sized + View {
    spec fn key_text(item: Self::V) -> Seq<char>;

    spec fn fingerprint_text(item: Self::V) -> Seq<char>;

    fn item_key(&self) -> (key: &String)
        ensures
            key@ == Self::key_text(self@),
    ;

    fn item_fingerprint(&self) -> (text: String)
        ensures
            text@ == Self::fingerprint_text(self@),
    ;

    fn copy_item(&self) -> (copy: Self)
        ensures
            copy@ == self@,
    ;
}

impl ViewportItem for GraphViewportNode {
    open spec fn key_text(item: GraphViewportNodeView) -> Seq<char> {
        item.key
    }

    open spec fn fingerprint_text(item: GraphViewportNodeView) -> Seq<char> {
        record_text(node_parts(item))
    }

    fn item_key(&self) -> (key: &String) {
        &self.key
    }

    fn item_fingerprint(&self) -> (text: String) {
        self.fingerprint()
    }

    fn copy_item(&self) -> (copy: Self) {
        self.clone()
    }
}

impl ViewportItem for GraphViewportEdge {
    open spec fn key_text(item: GraphViewportEdgeView) -> Seq<char> {
        item.key
    }

    open spec fn fingerprint_text(item: GraphViewportEdgeView) -> Seq<char> {
        record_text(edge_parts(item))
    }

    fn item_key(&self) -> (key: &String) {
        &self.key
    }

    fn item_fingerprint(&self) -> (text: String) {
        self.fingerprint()
    }

    fn copy_item(&self) -> (copy: Self) {
        self.clone()
    }
}

/// Strings of a map as characters.
pub open spec fn text_values(map: Map<Seq<char>, String>) -> Map<Seq<char>, Seq<char>> {
    map.map_values(|text: String| text@)
}

/// Items by key; of several with one key the last counts.
pub open spec fn fingerprints_of<V>(
    items: Seq<V>,
    key: spec_fn(V) -> Seq<char>,
    fingerprint: spec_fn(V) -> Seq<char>,
) -> Map<Seq<char>, Seq<char>>
    decreases items.len(),
{
    if items.len() == 0 {
        Map::empty()
    } else {
        fingerprints_of(items.drop_last(), key, fingerprint).insert(
            key(items.last()),
            fingerprint(items.last()),
        )
    }
}

/// The state of a page that holds the given items.
pub open spec fn state_of<V>(
    items: Seq<V>,
    key: spec_fn(V) -> Seq<char>,
    fingerprint: spec_fn(V) -> Seq<char>,
) -> KnownView {
    KnownView {
        keys: items.map_values(key).to_set(),
        fingerprints: fingerprints_of(items, key, fingerprint),
    }
}

/// The items that a page does not hold.
pub open spec fn added_items<V>(items: Seq<V>, key: spec_fn(V) -> Seq<char>, known: KnownView) -> Seq<V> {
    items.filter(|item: V| !known.keys.contains(key(item)))
}

/// Whether a page holds an item that looks different, or holds it without its looks.
pub open spec fn is_stale<V>(
    item: V,
    key: spec_fn(V) -> Seq<char>,
    fingerprint: spec_fn(V) -> Seq<char>,
    known: KnownView,
) -> bool {
    known.keys.contains(key(item)) && !(known.fingerprints.contains_key(key(item))
        && known.fingerprints[key(item)] == fingerprint(item))
}

/// The items that a page holds, but that look different.
pub open spec fn updated_items<V>(
    items: Seq<V>,
    key: spec_fn(V) -> Seq<char>,
    fingerprint: spec_fn(V) -> Seq<char>,
    known: KnownView,
) -> Seq<V> {
    items.filter(|item: V| is_stale(item, key, fingerprint, known))
}

/// The keys that a page holds and that are no longer there, in order.
pub open spec fn removed_keys<V>(items: Seq<V>, key: spec_fn(V) -> Seq<char>, known: KnownView) -> Seq<
    Seq<char>,
> {
    sorted_texts(known.keys.difference(items.map_values(key).to_set()))
}

/// The items of a list with their texts as characters.
pub(crate) open spec fn item_views<T: View>(items: Seq<T>) -> Seq<T::V> {
    items.map_values(|item: T| item@)
}

/// The key function of a kind of items.
pub(crate) open spec fn key_fn<T: ViewportItem>() -> spec_fn(T::V) -> Seq<char> {
    |item: T::V| T::key_text(item)
}

/// The fingerprint function of a kind of items.
pub(crate) open spec fn fingerprint_fn<T: ViewportItem>() -> spec_fn(T::V) -> Seq<char> {
    |item: T::V| T::fingerprint_text(item)
}

/// Keys and fingerprints of the items that a page holds.
struct KnownState {
    keys: TextSet,
    fingerprints: TextMap<String>,
}

impl KnownState {
    spec fn wf(&self) -> bool {
        self.keys.wf() && self.fingerprints.wf()
    }

    spec fn known(&self) -> KnownView {
        KnownView { keys: self.keys@, fingerprints: text_values(self.fingerprints@) }
    }
}

/// The state of a page that holds the given items.
fn item_state<T: ViewportItem>(items: &Vec<T>) -> (state: KnownState)
    ensures
        state.wf(),
        state.known() == state_of(item_views(items@), key_fn::<T>(), fingerprint_fn::<T>()),
{
    let ghost all = item_views(items@);
    let ghost key = key_fn::<T>();
    let ghost fingerprint = fingerprint_fn::<T>();
    let mut keys = TextSet::new();
    let mut fingerprints: TextMap<String> = TextMap::new();
    let mut i: usize = 0;
    proof {
        assert(all.take(0) =~= Seq::<T::V>::empty());
        assert(keys@ =~= all.take(0).map_values(key).to_set());
        assert(text_values(fingerprints@) =~= fingerprints_of(all.take(0), key, fingerprint));
    }
    while i < items.len()
        invariant
            0 <= i <= items.len(),
            all == item_views(items@),
            key == key_fn::<T>(),
            fingerprint == fingerprint_fn::<T>(),
            keys.wf(),
            fingerprints.wf(),
            keys@ == all.take(i as int).map_values(key).to_set(),
            text_values(fingerprints@) == fingerprints_of(all.take(i as int), key, fingerprint),
        decreases items.len() - i,
    {
        let ghost last = all[i as int];
        let ghost keys_before = keys@;
        let ghost prints_before = fingerprints@;
        assert(last == items@[i as int]@);
        keys.insert(items[i].item_key().clone());
        fingerprints.insert(items[i].item_key().clone(), items[i].item_fingerprint());
        proof {
            assert(all.take(i + 1).drop_last() =~= all.take(i as int));
            assert(all.take(i + 1).last() == last);
            assert(all.take(i + 1).map_values(key) =~= all.take(i as int).map_values(key).push(key(last)));
            assert forall|k: Seq<char>| keys@.contains(k) <==> all.take(i + 1).map_values(
                key,
            ).to_set().contains(k) by {
                lemma_push_members(all.take(i as int).map_values(key), key(last), k);
            }
            assert(keys@ =~= all.take(i + 1).map_values(key).to_set());
            assert(text_values(fingerprints@) =~= text_values(prints_before).insert(
                key(last),
                fingerprint(last),
            ));
        }
        i += 1;
    }
    assert(all.take(i as int) =~= all);
    KnownState { keys, fingerprints }
}

/// What changes from the items that a page holds to the current ones.
struct ItemChanges<T> {
    added: Vec<T>,
    updated: Vec<T>,
    removed: Vec<String>,
}

/// Compares the current items with those that a page holds.
fn diff_items<T: ViewportItem>(current: &Vec<T>, known: &KnownState) -> (changes: ItemChanges<T>)
    requires
        known.wf(),
    ensures
        item_views(changes.added@) == added_items(item_views(current@), key_fn::<T>(), known.known()),
        item_views(changes.updated@) == updated_items(
            item_views(current@),
            key_fn::<T>(),
            fingerprint_fn::<T>(),
            known.known(),
        ),
        texts(changes.removed@) == removed_keys(item_views(current@), key_fn::<T>(), known.known()),
{
    let ghost all = item_views(current@);
    let ghost key = key_fn::<T>();
    let ghost fingerprint = fingerprint_fn::<T>();
    let ghost page = known.known();
    let ghost is_new = |item: T::V| !page.keys.contains(key(item));
    let ghost is_changed = |item: T::V| is_stale(item, key, fingerprint, page);
    let mut current_keys = TextSet::new();
    let mut added: Vec<T> = Vec::new();
    let mut updated: Vec<T> = Vec::new();
    let mut i: usize = 0;
    proof {
        reveal(Seq::filter);
        assert(all.take(0) =~= Seq::<T::V>::empty());
        assert(current_keys@ =~= all.take(0).map_values(key).to_set());
        assert(item_views(added@) =~= all.take(0).filter(is_new));
        assert(item_views(updated@) =~= all.take(0).filter(is_changed));
    }
    while i < current.len()
        invariant
            0 <= i <= current.len(),
            known.wf(),
            all == item_views(current@),
            key == key_fn::<T>(),
            fingerprint == fingerprint_fn::<T>(),
            page == known.known(),
            is_new == (|item: T::V| !page.keys.contains(key(item))),
            is_changed == (|item: T::V| is_stale(item, key, fingerprint, page)),
            current_keys.wf(),
            current_keys@ == all.take(i as int).map_values(key).to_set(),
            item_views(added@) == all.take(i as int).filter(is_new),
            item_views(updated@) == all.take(i as int).filter(is_changed),
        decreases current.len() - i,
    {
        let ghost last = all[i as int];
        let ghost added_before = added@;
        let ghost updated_before = updated@;
        assert(last == current@[i as int]@);
        proof {
            assert(all.take(i + 1) =~= all.take(i as int).push(last));
            lemma_filter_push(all.take(i as int), is_new, last);
            lemma_filter_push(all.take(i as int), is_changed, last);
        }
        let item_key = current[i].item_key();
        current_keys.insert(item_key.clone());
        if !known.keys.contains(item_key.as_str()) {
            let item = current[i].copy_item();
            added.push(item);
            assert(item_views(added@) =~= item_views(added_before).push(last));
        } else {
            let same = match known.fingerprints.get(item_key.as_str()) {
                None => false,
                Some(text) => *text == current[i].item_fingerprint(),
            };
            if !same {
                let item = current[i].copy_item();
                updated.push(item);
                assert(item_views(updated@) =~= item_views(updated_before).push(last));
            }
        }
        proof {
            assert(all.take(i + 1).map_values(key) =~= all.take(i as int).map_values(key).push(key(last)));
            assert forall|k: Seq<char>| current_keys@.contains(k) <==> all.take(i + 1).map_values(
                key,
            ).to_set().contains(k) by {
                lemma_push_members(all.take(i as int).map_values(key), key(last), k);
            }
            assert(current_keys@ =~= all.take(i + 1).map_values(key).to_set());
        }
        i += 1;
    }
    assert(all.take(i as int) =~= all);
    let mut gone = TextSet::new();
    let ghost order = known.keys.sequence();
    let mut k: usize = 0;
    proof {
        known.keys.lemma_sequence();
        assert(gone@ =~= order.take(0).to_set().difference(current_keys@));
    }
    while k < known.keys.len()
        invariant
            known.wf(),
            current_keys.wf(),
            gone.wf(),
            order == known.keys.sequence(),
            0 <= k <= order.len(),
            gone@ == order.take(k as int).to_set().difference(current_keys@),
        decreases order.len() - k,
    {
        let ghost last = order[k as int];
        if !current_keys.contains(known.keys.at(k).as_str()) {
            gone.insert(known.keys.at(k).clone());
        }
        proof {
            assert(order.take(k + 1) =~= order.take(k as int).push(last));
            assert forall|text: Seq<char>| gone@.contains(text) <==> order.take(k + 1).to_set().difference(
                current_keys@,
            ).contains(text) by {
                lemma_push_members(order.take(k as int), last, text);
            }
            assert(gone@ =~= order.take(k + 1).to_set().difference(current_keys@));
        }
        k += 1;
    }
    proof {
        assert(order.take(k as int) =~= order);
        gone.lemma_sequence();
    }
    ItemChanges { added, updated, removed: gone.to_vec() }
}

/// A removed item with its key as characters.
#[verifier::ext_equal]
pub struct RemovedView {
    pub kind: GraphViewportItemKind,
    pub key: Seq<char>,
}

impl View for GraphViewportRemovedItem {
    type V = RemovedView;

    open spec fn view(&self) -> RemovedView {
        RemovedView { kind: self.kind, key: self.key@ }
    }
}

/// The removed nodes and edges in the order of their keys; nodes come first where a node and
/// an edge have one key.
pub open spec fn merged_removals(nodes: Seq<Seq<char>>, edges: Seq<Seq<char>>) -> Seq<RemovedView>
    decreases nodes.len() + edges.len(),
{
    if nodes.len() == 0 && edges.len() == 0 {
        Seq::empty()
    } else if nodes.len() == 0 || (edges.len() > 0 && text_lt(edges[0], nodes[0])) {
        seq![RemovedView { kind: GraphViewportItemKind::Edge, key: edges[0] }] + merged_removals(
            nodes,
            edges.drop_first(),
        )
    } else {
        seq![RemovedView { kind: GraphViewportItemKind::Node, key: nodes[0] }] + merged_removals(
            nodes.drop_first(),
            edges,
        )
    }
}

/// Removed items with their keys as characters.
pub open spec fn removed_views(items: Seq<GraphViewportRemovedItem>) -> Seq<RemovedView> {
    items.map_values(|item: GraphViewportRemovedItem| item@)
}

/// Merges removed nodes and edges in the order of their keys.
fn merge_removed(nodes: &Vec<String>, edges: &Vec<String>) -> (removed: Vec<GraphViewportRemovedItem>)
    ensures
        removed_views(removed@) == merged_removals(texts(nodes@), texts(edges@)),
{
    let ghost x = texts(nodes@);
    let ghost y = texts(edges@);
    let mut removed: Vec<GraphViewportRemovedItem> = Vec::new();
    let mut i: usize = 0;
    let mut j: usize = 0;
    proof {
        assert(x.skip(0) =~= x);
        assert(y.skip(0) =~= y);
        assert(removed_views(removed@) + merged_removals(x, y) =~= merged_removals(x, y));
    }
    while i < nodes.len() || j < edges.len()
        invariant
            x == texts(nodes@),
            y == texts(edges@),
            0 <= i <= nodes.len(),
            0 <= j <= edges.len(),
            removed_views(removed@) + merged_removals(x.skip(i as int), y.skip(j as int))
                == merged_removals(x, y),
        decreases nodes.len() - i + edges.len() - j,
    {
        let ghost before = removed@;
        let take_edge = i == nodes.len() || (j < edges.len() && text_less(
            edges[j].as_str(),
            nodes[i].as_str(),
        ));
        proof {
            if i < x.len() {
                assert(x.skip(i as int)[0] == nodes@[i as int]@);
                assert(x.skip(i as int).drop_first() =~= x.skip(i + 1));
            }
            if j < y.len() {
                assert(y.skip(j as int)[0] == edges@[j as int]@);
                assert(y.skip(j as int).drop_first() =~= y.skip(j + 1));
            }
        }
        if take_edge {
            let item = GraphViewportRemovedItem {
                kind: GraphViewportItemKind::Edge,
                key: edges[j].clone(),
            };
            removed.push(item);
            proof {
                let rest = merged_removals(x.skip(i as int), y.skip(j + 1));
                assert(removed_views(removed@) =~= removed_views(before).push(item@));
                assert(removed_views(before).push(item@) + rest =~= removed_views(before) + (seq![item@]
                    + rest));
            }
            j += 1;
        } else {
            let item = GraphViewportRemovedItem {
                kind: GraphViewportItemKind::Node,
                key: nodes[i].clone(),
            };
            removed.push(item);
            proof {
                let rest = merged_removals(x.skip(i + 1), y.skip(j as int));
                assert(removed_views(removed@) =~= removed_views(before).push(item@));
                assert(removed_views(before).push(item@) + rest =~= removed_views(before) + (seq![item@]
                    + rest));
            }
            i += 1;
        }
    }
    proof {
        assert(merged_removals(x.skip(i as int), y.skip(j as int)) =~= Seq::<RemovedView>::empty());
        assert(removed_views(removed@) + Seq::<RemovedView>::empty() =~= removed_views(removed@));
    }
    removed
}

/// What changes between two viewports, with its texts as characters.
#[verifier::ext_equal]
pub struct DiffView {
    pub version: u64,
    pub canvas: GraphCanvas,
    pub previous_viewport: GraphViewport,
    pub viewport: GraphViewport,
    pub added_nodes: Seq<GraphViewportNodeView>,
    pub added_edges: Seq<GraphViewportEdgeView>,
    pub updated_nodes: Seq<GraphViewportNodeView>,
    pub updated_edges: Seq<GraphViewportEdgeView>,
    pub removed: Seq<RemovedView>,
}

impl View for GraphViewportDiffResponse {
    type V = DiffView;

    open spec fn view(&self) -> DiffView {
        DiffView {
            version: self.version,
            canvas: self.canvas,
            previous_viewport: self.previous_viewport,
            viewport: self.viewport,
            added_nodes: node_views(self.added.nodes@),
            added_edges: edge_views(self.added.edges@),
            updated_nodes: node_views(self.updated.nodes@),
            updated_edges: edge_views(self.updated.edges@),
            removed: removed_views(self.removed@),
        }
    }
}

/// The key of a drawn node.
pub open spec fn node_key_fn() -> spec_fn(GraphViewportNodeView) -> Seq<char> {
    |item: GraphViewportNodeView| item.key
}

/// The fingerprint of a drawn node.
pub open spec fn node_fingerprint_fn() -> spec_fn(GraphViewportNodeView) -> Seq<char> {
    |item: GraphViewportNodeView| record_text(node_parts(item))
}

/// The key of a drawn edge.
pub open spec fn edge_key_fn() -> spec_fn(GraphViewportEdgeView) -> Seq<char> {
    |item: GraphViewportEdgeView| item.key
}

/// The fingerprint of a drawn edge.
pub open spec fn edge_fingerprint_fn() -> spec_fn(GraphViewportEdgeView) -> Seq<char> {
    |item: GraphViewportEdgeView| record_text(edge_parts(item))
}

/// The nodes that a page holds: those that it names, or else those of the previous viewport.
pub open spec fn known_nodes(previous: ViewportView, known: Option<&GraphViewportKnownItems>) -> KnownView {
    match known {
        None => state_of(previous.nodes, node_key_fn(), node_fingerprint_fn()),
        Some(items) => KnownView {
            keys: texts(items.nodes@).to_set(),
            fingerprints: text_values(items.node_fingerprints@),
        },
    }
}

/// The edges that a page holds: those that it names, or else those of the previous viewport.
pub open spec fn known_edges(previous: ViewportView, known: Option<&GraphViewportKnownItems>) -> KnownView {
    match known {
        None => state_of(previous.edges, edge_key_fn(), edge_fingerprint_fn()),
        Some(items) => KnownView {
            keys: texts(items.edges@).to_set(),
            fingerprints: text_values(items.edge_fingerprints@),
        },
    }
}

/// What changes from the items that a page holds to those of the current viewport.
pub open spec fn viewport_diff(
    previous: ViewportView,
    current: ViewportView,
    nodes: KnownView,
    edges: KnownView,
) -> DiffView {
    DiffView {
        version: current.version,
        canvas: current.canvas,
        previous_viewport: previous.viewport,
        viewport: current.viewport,
        added_nodes: added_items(current.nodes, node_key_fn(), nodes),
        added_edges: added_items(current.edges, edge_key_fn(), edges),
        updated_nodes: updated_items(current.nodes, node_key_fn(), node_fingerprint_fn(), nodes),
        updated_edges: updated_items(current.edges, edge_key_fn(), edge_fingerprint_fn(), edges),
        removed: merged_removals(
            removed_keys(current.nodes, node_key_fn(), nodes),
            removed_keys(current.edges, edge_key_fn(), edges),
        ),
    }
}

/// Whether the maps that a page sent are in order.
pub open spec fn known_wf(known: Option<&GraphViewportKnownItems>) -> bool {
    known matches Some(items) ==> items.node_fingerprints.wf() && items.edge_fingerprints.wf()
}

fn copy_text_map(map: &TextMap<String>) -> (copy: TextMap<String>)
    requires
        map.wf(),
    ensures
        copy.wf(),
        text_values(copy@) == text_values(map@),
{
    let mut copy: TextMap<String> = TextMap::new();
    let ghost order = map.keys();
    let mut i: usize = 0;
    proof {
        map.lemma_keys();
        assert(copy@.dom() =~= order.take(0).to_set());
    }
    while i < map.len()
        invariant
            map.wf(),
            copy.wf(),
            order == map.keys(),
            order.no_duplicates(),
            0 <= i <= order.len(),
            copy@.dom() == order.take(i as int).to_set(),
            forall|key: Seq<char>| #[trigger]
                copy@.contains_key(key) ==> map@.contains_key(key) && copy@[key]@ == map@[key]@,
        decreases order.len() - i,
    {
        let ghost last = order[i as int];
        copy.insert(map.key_at(i).clone(), map.value_at(i).clone());
        proof {
            assert(order.take(i + 1) =~= order.take(i as int).push(last));
            assert forall|key: Seq<char>| copy@.dom().contains(key) <==> order.take(
                i + 1,
            ).to_set().contains(key) by {
                lemma_push_members(order.take(i as int), last, key);
            }
            assert(copy@.dom() =~= order.take(i + 1).to_set());
        }
        i += 1;
    }
    proof {
        assert(order.take(i as int) =~= order);
        map.lemma_keys();
        assert(text_values(copy@) =~= text_values(map@));
    }
    copy
}

/// What changes from the items that a page holds to those of the current viewport. A page
/// that names no items holds those of the previous viewport.
pub fn diff_graph_viewport_responses(
    previous: GraphViewportResponse,
    current: GraphViewportResponse,
    known: Option<&GraphViewportKnownItems>,
) -> (response: GraphViewportDiffResponse)
    requires
        known_wf(known),
    ensures
        response@ == viewport_diff(
            previous@,
            current@,
            known_nodes(previous@, known),
            known_edges(previous@, known),
        ),
{
    let node_state = match known {
        None => item_state(&previous.nodes),
        Some(items) => KnownState {
            keys: TextSet::from_list(&items.nodes),
            fingerprints: copy_text_map(&items.node_fingerprints),
        },
    };
    let edge_state = match known {
        None => item_state(&previous.edges),
        Some(items) => KnownState {
            keys: TextSet::from_list(&items.edges),
            fingerprints: copy_text_map(&items.edge_fingerprints),
        },
    };
    proof {
        assert(key_fn::<GraphViewportNode>() =~= node_key_fn());
        assert(fingerprint_fn::<GraphViewportNode>() =~= node_fingerprint_fn());
        assert(key_fn::<GraphViewportEdge>() =~= edge_key_fn());
        assert(fingerprint_fn::<GraphViewportEdge>() =~= edge_fingerprint_fn());
        assert(item_views(previous.nodes@) =~= previous@.nodes);
        assert(item_views(previous.edges@) =~= previous@.edges);
        assert(item_views(current.nodes@) =~= current@.nodes);
        assert(item_views(current.edges@) =~= current@.edges);
        assert(node_state.known() =~= known_nodes(previous@, known));
        assert(edge_state.known() =~= known_edges(previous@, known));
    }
    let nodes = diff_items(&current.nodes, &node_state);
    let edges = diff_items(&current.edges, &edge_state);
    let removed = merge_removed(&nodes.removed, &edges.removed);
    proof {
        assert(item_views(nodes.added@) =~= node_views(nodes.added@));
        assert(item_views(nodes.updated@) =~= node_views(nodes.updated@));
        assert(item_views(edges.added@) =~= edge_views(edges.added@));
        assert(item_views(edges.updated@) =~= edge_views(edges.updated@));
    }
    GraphViewportDiffResponse {
        version: current.version,
        canvas: current.canvas,
        previous_viewport: previous.viewport,
        viewport: current.viewport,
        added: GraphViewportItems { nodes: nodes.added, edges: edges.added },
        updated: GraphViewportItems { nodes: nodes.updated, edges: edges.updated },
        removed,
    }
}

/// What changes between two viewports of a snapshot that is known to be a graph without
/// cycles.
pub fn layout_graph_viewport_diff(
    snapshot: &GraphSnapshot,
    request: GraphViewportDiffRequest,
) -> (response: GraphViewportDiffResponse)
    requires
        snapshot.nodes@.len() <= u32::MAX,
        preparation(snapshot) is Ok,
        layout_fits(snapshot, Map::empty(), None),
        all_node_bounds_fit(graph_layout(snapshot, Map::empty(), None)->Ok_0),
        request.known matches Some(items) ==> items.node_fingerprints.wf()
            && items.edge_fingerprints.wf(),
    ensures
        ({
            let layout = graph_layout(snapshot, Map::empty(), None)->Ok_0;
            let previous = viewport_of(snapshot.version, layout, request.previous);
            let current = viewport_of(snapshot.version, layout, request.current);
            let known = match request.known {
                Some(items) => Some(&items),
                None => None,
            };
            response@ == viewport_diff(
                previous,
                current,
                known_nodes(previous, known),
                known_edges(previous, known),
            )
        }),
        response.version == snapshot.version,
        response.viewport.x == request.current.x,
        response.viewport.y == request.current.y,
        response.previous_viewport.x == request.previous.x,
        response.previous_viewport.y == request.previous.y,
{
    let layout = layout_graph(snapshot);
    let previous = viewport_from_layout(snapshot.version, &layout, request.previous);
    let current = viewport_from_layout(snapshot.version, &layout, request.current);
    diff_graph_viewport_responses(previous, current, request.known.as_ref())
}

/// Different nodes have different keys.
pub proof fn lemma_node_keys_differ(a: Seq<char>, b: Seq<char>)
    requires
        node_key_text(a) == node_key_text(b),
    ensures
        a == b,
{
    let prefix = "node:"@.len() as int;
    assert(a =~= node_key_text(a).skip(prefix));
    assert(b =~= node_key_text(b).skip(prefix));
}

/// A page that drops the removed items and takes in the added ones holds the current items.
pub proof fn lemma_diff_completes<V>(
    items: Seq<V>,
    key: spec_fn(V) -> Seq<char>,
    known: KnownView,
    text: Seq<char>,
)
    requires
        known.keys.finite(),
    ensures
        items.map_values(key).contains(text) <==> (known.keys.contains(text) && !removed_keys(
            items,
            key,
            known,
        ).contains(text)) || added_items(items, key, known).map_values(key).contains(text),
{
    let keys = items.map_values(key);
    let gone = known.keys.difference(keys.to_set());
    let is_new = |item: V| !known.keys.contains(key(item));
    let added = added_items(items, key, known);
    crate::ordered::lemma_sorted_texts_exists(gone);
    assert(removed_keys(items, key, known).contains(text) <==> gone.contains(text)) by {
        assert(sorted_texts(gone).to_set().contains(text) <==> gone.contains(text));
    }
    if added.map_values(key).contains(text) {
        let n = added.map_values(key).index_of(text);
        assert(added.contains(added[n]));
        crate::sequences::lemma_filter_members(items, is_new, added[n]);
        let m = items.index_of(added[n]);
        assert(keys[m] == text);
    }
    if keys.contains(text) && !known.keys.contains(text) {
        let n = keys.index_of(text);
        crate::sequences::lemma_filter_members(items, is_new, items[n]);
        assert(items.contains(items[n]));
        let m = added.index_of(items[n]);
        assert(added.map_values(key)[m] == text);
    }
}

/// The looks recorded for distinct items are those of the items.
pub(crate) proof fn lemma_fingerprints_recorded<V>(
    items: Seq<V>,
    key: spec_fn(V) -> Seq<char>,
    fingerprint: spec_fn(V) -> Seq<char>,
    index: int,
)
    requires
        items.map_values(key).no_duplicates(),
        0 <= index < items.len(),
    ensures
        fingerprints_of(items, key, fingerprint).contains_key(key(items[index])),
        fingerprints_of(items, key, fingerprint)[key(items[index])] == fingerprint(items[index]),
    decreases items.len(),
{
    let keys = items.map_values(key);
    if index < items.len() - 1 {
        let rest = items.drop_last();
        assert(rest.map_values(key) =~= keys.drop_last());
        lemma_fingerprints_recorded(rest, key, fingerprint, index);
        assert(keys[index] != keys[items.len() - 1]);
    }
}

/// Nothing changes for a page that holds the current items already.
pub proof fn lemma_diff_of_same_is_empty<V>(
    items: Seq<V>,
    key: spec_fn(V) -> Seq<char>,
    fingerprint: spec_fn(V) -> Seq<char>,
)
    requires
        items.map_values(key).no_duplicates(),
    ensures
        ({
            let known = state_of(items, key, fingerprint);
            &&& added_items(items, key, known) == Seq::<V>::empty()
            &&& updated_items(items, key, fingerprint, known) == Seq::<V>::empty()
            &&& removed_keys(items, key, known) == Seq::<Seq<char>>::empty()
        }),
{
    let keys = items.map_values(key);
    let known = state_of(items, key, fingerprint);
    let is_new = |item: V| !known.keys.contains(key(item));
    let is_changed = |item: V| is_stale(item, key, fingerprint, known);
    let added = added_items(items, key, known);
    let updated = updated_items(items, key, fingerprint, known);
    if added.len() > 0 {
        assert(added.contains(added[0]));
        crate::sequences::lemma_filter_members(items, is_new, added[0]);
        let n = items.index_of(added[0]);
        assert(keys[n] == key(added[0]));
        assert(keys.contains(key(added[0])));
    }
    assert(added =~= Seq::<V>::empty());
    if updated.len() > 0 {
        assert(updated.contains(updated[0]));
        crate::sequences::lemma_filter_members(items, is_changed, updated[0]);
        let n = items.index_of(updated[0]);
        lemma_fingerprints_recorded(items, key, fingerprint, n);
    }
    assert(updated =~= Seq::<V>::empty());
    let gone = known.keys.difference(keys.to_set());
    assert(gone =~= Set::<Seq<char>>::empty());
    crate::ordered::lemma_sorted_texts_exists(gone);
    let sorted = sorted_texts(gone);
    if sorted.len() > 0 {
        assert(sorted.to_set().contains(sorted[0]));
    }
    assert(sorted =~= Seq::<Seq<char>>::empty());
}

/// A node that keeps its key is updated exactly where it is drawn differently, and is never
/// added.
pub proof fn lemma_changed_node_is_updated(
    previous: Seq<GraphViewportNodeView>,
    current: Seq<GraphViewportNodeView>,
    before: int,
    after: int,
)
    requires
        previous.map_values(node_key_fn()).no_duplicates(),
        0 <= before < previous.len(),
        0 <= after < current.len(),
        previous[before].key == current[after].key,
    ensures
        ({
            let known = state_of(previous, node_key_fn(), node_fingerprint_fn());
            &&& !added_items(current, node_key_fn(), known).contains(current[after])
            &&& updated_items(current, node_key_fn(), node_fingerprint_fn(), known).contains(
                current[after],
            ) <==> previous[before] != current[after]
        }),
{
    let key = node_key_fn();
    let fingerprint = node_fingerprint_fn();
    let known = state_of(previous, key, fingerprint);
    let item = current[after];
    lemma_fingerprints_recorded(previous, key, fingerprint, before);
    assert(previous.map_values(key)[before] == item.key);
    assert(previous.map_values(key).contains(item.key));
    assert(current.contains(item));
    crate::sequences::lemma_filter_members(
        current,
        |other: GraphViewportNodeView| !known.keys.contains(key(other)),
        item,
    );
    crate::sequences::lemma_filter_members(
        current,
        |other: GraphViewportNodeView| is_stale(other, key, fingerprint, known),
        item,
    );
    if fingerprint(previous[before]) == fingerprint(item) {
        crate::api::lemma_node_fingerprint(previous[before], item);
    }
}

/// The rectangle of a curve holds all four of its points.
pub proof fn lemma_bounds_hold_points(route: GraphBezierRoute)
    ensures
        ({
            let (left, top, right, bottom) = route_rectangle(route);
            &&& left <= route.source.x <= right && top <= route.source.y <= bottom
            &&& left <= route.control_1.x <= right && top <= route.control_1.y <= bottom
            &&& left <= route.control_2.x <= right && top <= route.control_2.y <= bottom
            &&& left <= route.target.x <= right && top <= route.target.y <= bottom
        }),
{
}

} // verus!
