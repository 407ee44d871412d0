use std::collections::BTreeSet;

use coco_console::api::GraphBezierRoute;
use coco_console::api::GraphViewportDiffRequest;
use coco_console::api::GraphViewportItemKind;
use coco_console::api::GraphViewportKnownItems;
use coco_console::api::GraphViewportRequest;
use coco_console::api::Point;
use coco_console::graph::GraphBranch;
use coco_console::graph::GraphEdge;
use coco_console::graph::GraphEdgeKind;
use coco_console::graph::GraphMode;
use coco_console::graph::GraphNode;
use coco_console::graph::GraphSnapshot;
use coco_console::layout::diff_graph_viewport_responses;
use coco_console::layout::edge_bounds;
use coco_console::layout::edge_key;
use coco_console::layout::layout_graph;
use coco_console::layout::layout_graph_viewport;
use coco_console::layout::layout_graph_viewport_diff;
use coco_console::layout::node_bounds;
use coco_console::layout::node_key;
use coco_console::layout::route_bounds;
use coco_console::layout::try_graph_ranks;
use coco_console::layout::try_layout_graph;
use coco_console::layout::try_layout_graph_with_hints;
use coco_console::layout::viewport_edge;
use coco_console::layout::viewport_node;
use coco_console::layout::GraphLayoutEdgeKind;
use coco_console::layout::GraphLayoutError;
use coco_console::layout::LayoutHint;
use coco_console::layout::GRAPH_PADDING;
use coco_console::layout::GRAPH_RANK_STEP;
use coco_console::layout::GRAPH_ROW_STEP;
use coco_console::ordered::TextMap;

fn node(id: &str, created_at_ns: i128) -> GraphNode {
    GraphNode {
        id: id.to_owned(),
        node_target: format!("detail-{id}"),
        short_id: id.to_owned(),
        kind: "text".to_owned(),
        role: "User".to_owned(),
        created_at: created_at_ns.to_string(),
        created_at_ns,
        content: String::new(),
        summary: id.to_owned(),
        labels: Vec::new(),
        provider_context_ids: Vec::new(),
    }
}

fn link(source: &str, target: &str, kind: GraphEdgeKind) -> GraphEdge {
    GraphEdge {
        source: source.to_owned(),
        target: target.to_owned(),
        kind,
    }
}

fn branch(name: &str, head: &str) -> GraphBranch {
    GraphBranch {
        name: name.to_owned(),
        head_id: head.to_owned(),
        visible_head_id: Some(head.to_owned()),
    }
}

fn snapshot(nodes: Vec<GraphNode>, edges: Vec<GraphEdge>) -> GraphSnapshot {
    GraphSnapshot {
        version: 1,
        mode: GraphMode::All,
        root_id: "root".to_owned(),
        nodes,
        edges,
        branches: vec![branch("main", "c")],
    }
}

fn wide_request() -> GraphViewportRequest {
    GraphViewportRequest {
        x: 0,
        y: 0,
        width: 1280,
        height: 720,
        overscan: 180,
    }
}

#[test]
fn layered_layout_is_unique_and_compact() {
    let graph = snapshot(
        vec![node("a", 1), node("b", 2), node("c", 3), node("d", 4)],
        vec![
            link("a", "b", GraphEdgeKind::Primary),
            link("a", "c", GraphEdgeKind::Primary),
            link("b", "d", GraphEdgeKind::Merge),
            link("c", "d", GraphEdgeKind::Shadow),
        ],
    );
    let layout = try_layout_graph(&graph).unwrap();
    let repeated = try_layout_graph(&graph).unwrap();
    let ids = layout
        .nodes
        .iter()
        .map(|node| node.node_id.as_str())
        .collect::<BTreeSet<_>>();
    let node_keys = layout
        .nodes
        .iter()
        .map(|node| node_key(&node.node_id))
        .collect::<BTreeSet<_>>();
    let edge_keys = layout
        .edges
        .iter()
        .map(|edge| edge_key(edge.kind, &edge.source_node_id, &edge.target_node_id))
        .collect::<BTreeSet<_>>();

    assert_eq!(layout, repeated);
    assert_eq!(ids.len(), graph.nodes.len());
    assert_eq!(node_keys.len(), graph.nodes.len());
    assert_eq!(edge_keys.len(), graph.edges.len());
    assert_eq!(layout.nodes[0].point.x, GRAPH_PADDING);
    assert!(layout.edges.iter().all(|edge| {
        let source = layout
            .nodes
            .iter()
            .find(|node| node.node_id == edge.source_node_id)
            .unwrap();
        let target = layout
            .nodes
            .iter()
            .find(|node| node.node_id == edge.target_node_id)
            .unwrap();
        source.rank < target.rank
    }));
    assert!(layout
        .edges
        .iter()
        .any(|edge| edge.kind == GraphLayoutEdgeKind::Shadow));
    let ranks = layout
        .nodes
        .iter()
        .map(|node| node.rank)
        .collect::<BTreeSet<_>>();
    assert_eq!(
        ranks,
        (0..=*ranks.last().expect("layout should have a rank")).collect()
    );
    for rank in ranks {
        let mut rank_nodes = layout
            .nodes
            .iter()
            .filter(|node| node.rank == rank)
            .collect::<Vec<_>>();
        rank_nodes.sort_by_key(|node| node.point.y);
        assert!(rank_nodes
            .iter()
            .all(|node| { node.point.x == GRAPH_PADDING + rank as i32 * GRAPH_RANK_STEP }));
        assert!(rank_nodes
            .windows(2)
            .all(|nodes| { nodes[1].point.y - nodes[0].point.y == GRAPH_ROW_STEP }));
    }

    let fork_routes = layout
        .edges
        .iter()
        .filter(|edge| edge.source_node_id == "a")
        .map(|edge| edge.route.source.y)
        .collect::<BTreeSet<_>>();
    let merge_routes = layout
        .edges
        .iter()
        .filter(|edge| edge.target_node_id == "d")
        .map(|edge| edge.route.target.y)
        .collect::<BTreeSet<_>>();
    assert_eq!(fork_routes.len(), 2);
    assert_eq!(merge_routes.len(), 2);
}

#[test]
fn disconnected_components_are_prioritized_and_each_rank_is_tightly_packed() {
    let nodes = [
        "main-a",
        "main-b",
        "main-head",
        "alpha-root",
        "alpha-head",
        "zeta-root",
        "zeta-head",
        "orphan-root",
        "orphan-head",
    ]
    .into_iter()
    .enumerate()
    .map(|(index, id)| node(id, index as i128))
    .collect();
    let edges = vec![
        link("main-a", "main-head", GraphEdgeKind::Primary),
        link("main-b", "main-head", GraphEdgeKind::Merge),
        link("alpha-root", "alpha-head", GraphEdgeKind::Primary),
        link("zeta-root", "zeta-head", GraphEdgeKind::Primary),
        link("orphan-root", "orphan-head", GraphEdgeKind::Primary),
    ];
    let graph = GraphSnapshot {
        version: 1,
        mode: GraphMode::All,
        root_id: "root".to_owned(),
        nodes,
        edges,
        branches: vec![
            branch("zeta", "zeta-head"),
            branch("main", "main-head"),
            branch("alpha", "alpha-head"),
        ],
    };

    let layout = try_layout_graph(&graph).unwrap();
    let rank_one = layout
        .nodes
        .iter()
        .filter(|node| node.rank == 1)
        .map(|node| (node.point.y, node.node_id.as_str()))
        .collect::<Vec<_>>();

    assert_eq!(
        rank_one,
        vec![
            (GRAPH_PADDING, "main-head"),
            (GRAPH_PADDING + GRAPH_ROW_STEP, "alpha-head"),
            (GRAPH_PADDING + GRAPH_ROW_STEP * 2, "zeta-head"),
            (GRAPH_PADDING + GRAPH_ROW_STEP * 3, "orphan-head"),
        ]
    );
}

#[test]
fn stable_keys_turn_coordinate_changes_into_updates() {
    let graph = snapshot(vec![node("a", 1)], Vec::new());
    let previous = layout_graph_viewport(&graph, wide_request());
    let mut current = layout_graph_viewport(&graph, wide_request());
    current.nodes[0].x += GRAPH_RANK_STEP;
    let diff = diff_graph_viewport_responses(previous, current, None);

    assert!(diff.added.nodes.is_empty());
    assert!(diff.removed.is_empty());
    assert_eq!(diff.updated.nodes[0].key, "node:a");
}

#[test]
fn bezier_bounds_include_both_control_points() {
    assert_eq!(
        route_bounds(GraphBezierRoute {
            source: Point { x: 0, y: 0 },
            control_1: Point { x: 25, y: -40 },
            control_2: Point { x: 75, y: 140 },
            target: Point { x: 100, y: 100 },
        }),
        (0, -40, 100, 140)
    );
}

#[test]
fn cycles_return_a_typed_error() {
    let graph = snapshot(
        vec![node("a", 1), node("b", 2)],
        vec![
            link("a", "b", GraphEdgeKind::Primary),
            link("b", "a", GraphEdgeKind::Merge),
        ],
    );

    assert!(matches!(
        try_layout_graph(&graph),
        Err(GraphLayoutError::Cycle { .. })
    ));
}

#[test]
fn duplicate_nodes_return_a_typed_error() {
    let graph = snapshot(vec![node("a", 1), node("a", 2)], Vec::new());

    assert!(matches!(
        try_layout_graph(&graph),
        Err(GraphLayoutError::DuplicateNode { node_id }) if node_id == "a"
    ));
}

#[test]
fn layout_errors_have_messages() {
    let dangling = snapshot(
        vec![node("a", 1)],
        vec![link("a", "ghost", GraphEdgeKind::Primary)],
    );
    assert_eq!(
        try_layout_graph(&dangling).unwrap_err().message(),
        "Graph edge a -> ghost references missing node ghost"
    );
    let duplicate = snapshot(vec![node("a", 1), node("a", 2)], Vec::new());
    assert_eq!(
        try_graph_ranks(&duplicate).unwrap_err().message(),
        "Graph contains duplicate node a"
    );
    let looped = snapshot(
        vec![node("b", 1), node("a", 2)],
        vec![link("a", "a", GraphEdgeKind::Primary)],
    );
    assert_eq!(
        try_layout_graph(&looped).unwrap_err().message(),
        "Graph contains a cycle involving node a"
    );
}

#[test]
fn edges_of_two_kinds_between_two_nodes_are_both_drawn() {
    let graph = snapshot(
        vec![node("a", 1), node("b", 2)],
        vec![
            link("a", "b", GraphEdgeKind::Primary),
            link("a", "b", GraphEdgeKind::Merge),
        ],
    );
    let ranks = try_graph_ranks(&graph).unwrap();
    assert_eq!(ranks.get("a"), Some(&0));
    assert_eq!(ranks.get("b"), Some(&1));
    let layout = try_layout_graph(&graph).unwrap();
    assert_eq!(layout.nodes.len(), 2);
    assert_eq!(
        layout
            .edges
            .iter()
            .map(|edge| edge.kind)
            .collect::<Vec<_>>(),
        vec![GraphLayoutEdgeKind::Primary, GraphLayoutEdgeKind::Merge]
    );
    assert_ne!(layout.edges[0].route, layout.edges[1].route);
}

#[test]
fn cycle_behind_parallel_edges_is_found() {
    let graph = snapshot(
        vec![node("a", 1), node("b", 2), node("c", 3)],
        vec![
            link("a", "b", GraphEdgeKind::Primary),
            link("a", "b", GraphEdgeKind::Shadow),
            link("b", "c", GraphEdgeKind::Primary),
            link("c", "b", GraphEdgeKind::Merge),
        ],
    );
    assert_eq!(
        try_layout_graph(&graph),
        Err(GraphLayoutError::Cycle {
            node_id: "b".to_owned(),
        })
    );
}

#[test]
fn ranks_are_longest_paths() {
    let graph = snapshot(
        vec![node("a", 1), node("b", 2), node("c", 3), node("lone", 0)],
        vec![
            link("a", "b", GraphEdgeKind::Primary),
            link("b", "c", GraphEdgeKind::Primary),
            link("a", "c", GraphEdgeKind::Merge),
            link("a", "c", GraphEdgeKind::Merge),
        ],
    );
    let ranks = try_graph_ranks(&graph).unwrap();
    assert_eq!(ranks.get("a"), Some(&0));
    assert_eq!(ranks.get("b"), Some(&1));
    assert_eq!(ranks.get("c"), Some(&2));
    assert_eq!(ranks.get("lone"), Some(&0));
}

#[test]
fn an_empty_snapshot_has_a_bare_canvas() {
    let layout = layout_graph(&snapshot(Vec::new(), Vec::new()));
    assert!(layout.nodes.is_empty());
    assert_eq!((layout.width, layout.height), (112, 112));
}

#[test]
fn routes_and_canvas_have_exact_coordinates() {
    let graph = snapshot(
        vec![node("a", 1), node("b", 2)],
        vec![link("a", "b", GraphEdgeKind::Primary)],
    );
    let layout = layout_graph(&graph);
    assert_eq!((layout.width, layout.height), (224, 112));
    assert_eq!(
        layout.edges[0].route,
        GraphBezierRoute {
            source: Point { x: 76, y: 56 },
            control_1: Point { x: 106, y: 56 },
            control_2: Point { x: 114, y: 56 },
            target: Point { x: 144, y: 56 },
        }
    );
    assert_eq!(edge_bounds(&layout.edges[0]), (76, 56, 144, 56));
    assert_eq!(node_bounds(&layout.nodes[1]), (104, 32, 232, 108));
    let drawn = viewport_node(&layout.nodes[1]);
    assert_eq!((drawn.key.as_str(), drawn.x, drawn.y), ("node:b", 168, 56));
    let edge = viewport_edge(&layout.edges[0]);
    assert_eq!(edge.key, "edge:primary_parent:a:b");
}

#[test]
fn crossings_are_reduced_by_the_places_of_neighbours() {
    let graph = snapshot(
        vec![
            node("a1", 1),
            node("a2", 2),
            node("b1", 3),
            node("b2", 4),
            node("join", 5),
        ],
        vec![
            link("a1", "b2", GraphEdgeKind::Primary),
            link("a2", "b1", GraphEdgeKind::Primary),
            link("b1", "join", GraphEdgeKind::Primary),
            link("b2", "join", GraphEdgeKind::Merge),
        ],
    );
    let layout = layout_graph(&graph);
    let order = layout
        .nodes
        .iter()
        .map(|node| node.node_id.as_str())
        .collect::<Vec<_>>();
    assert_eq!(order, vec!["a1", "a2", "b2", "b1", "join"]);
}

#[test]
fn hints_fix_points_of_ranks_that_are_not_ordered_again() {
    let graph = snapshot(
        vec![node("a", 1), node("b", 2)],
        vec![link("a", "b", GraphEdgeKind::Primary)],
    );
    let mut hints = TextMap::new();
    hints.insert(
        "a".to_owned(),
        LayoutHint {
            rank: 0,
            order: 3,
            point: Point { x: 70, y: 90 },
        },
    );
    let none = BTreeSet::new();
    let fixed = try_layout_graph_with_hints(&graph, &hints, Some(&none)).unwrap();
    assert_eq!(fixed.nodes[0].point, Point { x: 70, y: 90 });
    assert_eq!(fixed.nodes[1].point, Point { x: 168, y: 56 });
    let all = BTreeSet::from([0, 1]);
    let free = try_layout_graph_with_hints(&graph, &hints, Some(&all)).unwrap();
    assert_eq!(free.nodes[0].point, Point { x: 56, y: 56 });
    let plain = try_layout_graph_with_hints(&graph, &hints, None).unwrap();
    assert_eq!(plain.nodes[0].point, Point { x: 56, y: 56 });
}

#[test]
fn viewports_show_what_touches_them() {
    let graph = snapshot(
        vec![node("a", 1), node("b", 2)],
        vec![link("a", "b", GraphEdgeKind::Primary)],
    );
    let near = layout_graph_viewport(
        &graph,
        GraphViewportRequest {
            x: 0,
            y: 0,
            width: 60,
            height: 60,
            overscan: 0,
        },
    );
    assert_eq!(near.nodes.len(), 1);
    assert!(near.edges.is_empty());
    let wide = layout_graph_viewport(&graph, wide_request());
    assert_eq!((wide.nodes.len(), wide.edges.len()), (2, 1));
    assert_eq!((wide.canvas.width, wide.canvas.height), (224, 112));
}

#[test]
fn diffs_name_added_and_removed_items() {
    let graph = snapshot(
        vec![node("a", 1), node("b", 2)],
        vec![link("a", "b", GraphEdgeKind::Primary)],
    );
    let near = GraphViewportRequest {
        x: 0,
        y: 0,
        width: 60,
        height: 60,
        overscan: 0,
    };
    let grown = layout_graph_viewport_diff(
        &graph,
        GraphViewportDiffRequest {
            previous: near,
            current: wide_request(),
            known: None,
        },
    );
    assert_eq!(grown.added.nodes[0].key, "node:b");
    assert_eq!(grown.added.edges[0].key, "edge:primary_parent:a:b");
    assert!(grown.updated.nodes.is_empty());
    assert!(grown.removed.is_empty());
    let shrunk = layout_graph_viewport_diff(
        &graph,
        GraphViewportDiffRequest {
            previous: wide_request(),
            current: near,
            known: None,
        },
    );
    let removed = shrunk
        .removed
        .iter()
        .map(|item| (item.kind, item.key.as_str()))
        .collect::<Vec<_>>();
    assert_eq!(
        removed,
        vec![
            (GraphViewportItemKind::Edge, "edge:primary_parent:a:b"),
            (GraphViewportItemKind::Node, "node:b"),
        ]
    );
}

#[test]
fn known_items_take_the_place_of_the_previous_viewport() {
    let graph = snapshot(vec![node("a", 1)], Vec::new());
    let current = layout_graph_viewport(&graph, wide_request());
    let previous = layout_graph_viewport(&graph, wide_request());
    let mut fingerprints = TextMap::new();
    fingerprints.insert("node:a".to_owned(), current.nodes[0].fingerprint());
    let known = GraphViewportKnownItems {
        nodes: vec!["node:a".to_owned(), "node:gone".to_owned()],
        edges: vec!["edge:gone".to_owned()],
        node_fingerprints: fingerprints,
        edge_fingerprints: TextMap::new(),
    };
    let diff = diff_graph_viewport_responses(previous, current, Some(&known));
    assert!(diff.added.nodes.is_empty());
    assert!(diff.updated.nodes.is_empty());
    assert_eq!(diff.removed.len(), 2);
    assert_eq!(diff.removed[1].key, "node:gone");
}

#[test]
fn viewports_of_the_same_items_do_not_differ() {
    let graph = snapshot(
        vec![node("a", 1), node("b", 2)],
        vec![link("a", "b", GraphEdgeKind::Primary)],
    );
    let diff = diff_graph_viewport_responses(
        layout_graph_viewport(&graph, wide_request()),
        layout_graph_viewport(&graph, wide_request()),
        None,
    );
    assert!(diff.added.nodes.is_empty() && diff.added.edges.is_empty());
    assert!(diff.updated.nodes.is_empty() && diff.updated.edges.is_empty());
    assert!(diff.removed.is_empty());
}
