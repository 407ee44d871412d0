use coco_console::incremental_layout::propagate_rank_increases;
use coco_console::incremental_layout::route_edge;
use coco_console::incremental_layout::CubicRoute;
use coco_console::incremental_layout::EndpointPortSlots;
use coco_console::incremental_layout::LayoutPoint;
use coco_console::incremental_layout::NodePlacement;
use coco_console::incremental_layout::PortAssignment;
use coco_console::incremental_layout::ReadyNode;
use coco_console::incremental_layout::StableDagLayout;
use coco_console::incremental_layout::StableEdge;
use coco_console::incremental_layout::StableEdgeKind;
use coco_console::incremental_layout::StableLayoutConfig;
use coco_console::incremental_layout::StableLayoutError;
use coco_console::incremental_layout::StablePortAllocator;
use coco_console::ordered::TextMap;

fn ready(node_id: &str, parent_ids: &[&str]) -> ReadyNode {
    ReadyNode {
        node_id: node_id.to_owned(),
        parent_ids: parent_ids
            .iter()
            .map(|parent| (*parent).to_owned())
            .collect(),
    }
}

fn edge(edge_key: &str, source_id: &str, target_id: &str) -> StableEdge {
    StableEdge {
        edge_key: edge_key.to_owned(),
        kind: StableEdgeKind::Primary,
        source_id: source_id.to_owned(),
        target_id: target_id.to_owned(),
    }
}

fn ranks_of(entries: &[(&str, usize)]) -> TextMap<usize> {
    let mut map = TextMap::new();
    for (key, rank) in entries {
        map.insert((*key).to_owned(), *rank);
    }
    map
}

fn neighbors_of(entries: &[(&str, &[&str])]) -> TextMap<Vec<String>> {
    let mut map = TextMap::new();
    for (key, list) in entries {
        map.insert(
            (*key).to_owned(),
            list.iter().map(|id| (*id).to_owned()).collect(),
        );
    }
    map
}

fn placed(node_id: &str, rank: usize, row: usize, x: i32, y: i32) -> NodePlacement {
    NodePlacement {
        node_id: node_id.to_owned(),
        rank,
        row,
        point: LayoutPoint { x, y },
    }
}

#[test]
fn stable_layout_errors_have_actionable_messages() {
    let cases = [
        (
            StableLayoutError::DuplicateNode {
                node_id: "duplicate".to_owned(),
            },
            "duplicate node duplicate",
        ),
        (
            StableLayoutError::MissingNode {
                node_id: "missing".to_owned(),
            },
            "missing node missing",
        ),
        (
            StableLayoutError::MissingParent {
                node_id: "child".to_owned(),
                parent_id: "parent".to_owned(),
            },
            "node child references missing parent parent",
        ),
        (
            StableLayoutError::SlotOccupied {
                rank: 2,
                row: 3,
                owner: "owner".to_owned(),
            },
            "rank 2 row 3 is occupied by owner",
        ),
        (
            StableLayoutError::ExistingRankTooLow {
                node_id: "child".to_owned(),
                current_rank: 1,
                required_rank: 4,
            },
            "node child has rank 1, but its parents require rank 4",
        ),
        (
            StableLayoutError::DuplicateEdge {
                edge_key: "edge".to_owned(),
            },
            "duplicate edge edge",
        ),
        (
            StableLayoutError::PortSlotOccupied {
                node_id: "endpoint".to_owned(),
                slot: 5,
                owner: "edge".to_owned(),
            },
            "endpoint endpoint port slot 5 is occupied by edge",
        ),
        (
            StableLayoutError::Cycle {
                node_ids: vec!["a".to_owned(), "b".to_owned()],
            },
            "rank propagation found a cycle involving [\"a\", \"b\"]",
        ),
    ];

    for (error, expected) in cases {
        assert_eq!(error.message(), expected);
    }
}

#[test]
fn error_messages_escape_listed_ids() {
    let quoted = StableLayoutError::Cycle {
        node_ids: vec!["a\"b".to_owned()],
    };
    assert_eq!(
        quoted.message(),
        "rank propagation found a cycle involving [\"a\\\"b\"]"
    );
    let empty = StableLayoutError::Cycle {
        node_ids: Vec::new(),
    };
    assert_eq!(
        empty.message(),
        "rank propagation found a cycle involving []"
    );
}

#[test]
fn ready_nodes_use_longest_parent_rank_and_nearest_free_median_row() {
    let mut layout = StableDagLayout::default();
    let left = layout.place_ready(ready("left", &[])).unwrap();
    let right = layout.place_ready(ready("right", &[])).unwrap();
    let left_child = layout.place_ready(ready("left-child", &["left"])).unwrap();
    let merge = layout
        .place_ready(ready("merge", &["left", "right"]))
        .unwrap();

    assert_eq!((left.rank, left.row), (0, 0));
    assert_eq!((right.rank, right.row), (0, 1));
    assert_eq!((left_child.rank, left_child.row), (1, 0));
    assert_eq!((merge.rank, merge.row), (1, 1));
    assert_eq!(merge.point, LayoutPoint { x: 168, y: 128 });
}

#[test]
fn restored_nodes_and_tombstones_keep_their_slots() {
    let mut layout = StableDagLayout::default();
    let hint = NodePlacement {
        node_id: "hint".to_owned(),
        rank: 0,
        row: 0,
        point: LayoutPoint { x: 70, y: 80 },
    };
    let tombstone = NodePlacement {
        node_id: "old-child".to_owned(),
        rank: 1,
        row: 0,
        point: LayoutPoint { x: 182, y: 80 },
    };
    layout.restore_active(hint.clone()).unwrap();
    layout.restore_tombstone(tombstone.clone()).unwrap();

    assert_eq!(layout.place_ready(ready("hint", &[])).unwrap(), hint);
    let child = layout.place_ready(ready("new-child", &["hint"])).unwrap();
    assert_eq!((child.rank, child.row), (1, 1));

    let restored = layout.place_ready(ready("old-child", &["hint"])).unwrap();
    assert_eq!(restored, tombstone);
    assert!(!layout.is_tombstone("old-child"));
}

#[test]
fn retiring_a_node_keeps_its_slot_reserved() {
    let mut layout = StableDagLayout::default();
    layout.place_ready(ready("root", &[])).unwrap();
    let first = layout.place_ready(ready("first", &["root"])).unwrap();
    layout.retire("first").unwrap();
    let second = layout.place_ready(ready("second", &["root"])).unwrap();

    assert_eq!((first.rank, first.row), (1, 0));
    assert_eq!((second.rank, second.row), (1, 1));
}

#[test]
fn existing_hints_reject_new_rank_constraints_without_moving() {
    let mut layout = StableDagLayout::default();
    layout
        .restore_active(NodePlacement {
            node_id: "parent".to_owned(),
            rank: 3,
            row: 0,
            point: LayoutPoint { x: 392, y: 56 },
        })
        .unwrap();
    layout
        .restore_active(NodePlacement {
            node_id: "child".to_owned(),
            rank: 1,
            row: 0,
            point: LayoutPoint { x: 168, y: 56 },
        })
        .unwrap();

    assert!(matches!(
        layout.place_ready(ready("child", &["parent"])),
        Err(StableLayoutError::ExistingRankTooLow {
            current_rank: 1,
            required_rank: 4,
            ..
        })
    ));
    assert_eq!(layout.active_placement("child").unwrap().rank, 1);
}

#[test]
fn rank_increases_propagate_only_through_descendants() {
    let mut ranks = ranks_of(&[("a", 5), ("b", 1), ("c", 2), ("other", 9)]);
    let incoming = neighbors_of(&[("a", &[]), ("b", &["a"]), ("c", &["b"]), ("other", &[])]);
    let outgoing = neighbors_of(&[("a", &["b"]), ("b", &["c"]), ("c", &[]), ("other", &[])]);

    let changed =
        propagate_rank_increases(&mut ranks, &incoming, &outgoing, &["b".to_owned()]).unwrap();

    assert_eq!(changed.to_vec(), vec!["b".to_owned(), "c".to_owned()]);
    assert_eq!(*ranks.get("b").unwrap(), 6);
    assert_eq!(*ranks.get("c").unwrap(), 7);
    assert_eq!(*ranks.get("other").unwrap(), 9);
}

#[test]
fn rank_propagation_rejects_cycles() {
    let mut ranks = ranks_of(&[("a", 0), ("b", 0)]);
    let incoming = neighbors_of(&[("a", &["b"]), ("b", &["a"])]);
    let outgoing = neighbors_of(&[("a", &["b"]), ("b", &["a"])]);

    assert!(matches!(
        propagate_rank_increases(&mut ranks, &incoming, &outgoing, &["a".to_owned()]),
        Err(StableLayoutError::Cycle { .. })
    ));
}

#[test]
fn endpoint_port_slots_never_rebalance_existing_edges() {
    let mut ports = StablePortAllocator::default();
    let first = ports.assign(edge("first", "source", "target-a")).unwrap();
    let second = ports.assign(edge("second", "source", "target-b")).unwrap();
    let incoming = ports.assign(edge("incoming", "other", "target-a")).unwrap();

    assert_eq!(
        first.slots,
        EndpointPortSlots {
            source: 0,
            target: 0
        }
    );
    assert_eq!(second.slots.source, 1);
    assert_eq!(incoming.slots.target, 1);
    assert_eq!(ports.assignment("first").unwrap(), &first);
}

#[test]
fn cubic_routes_use_stable_endpoint_slots() {
    let config = StableLayoutConfig::default();
    let route = route_edge(
        LayoutPoint { x: 56, y: 56 },
        LayoutPoint { x: 168, y: 128 },
        EndpointPortSlots {
            source: 1,
            target: 2,
        },
        config,
    );

    assert_eq!(route.source, LayoutPoint { x: 76, y: 52 });
    assert_eq!(route.target, LayoutPoint { x: 144, y: 132 });
    assert!(route.source.x < route.control_1.x);
    assert!(route.control_1.x < route.control_2.x);
    assert!(route.control_2.x < route.target.x);
}

#[test]
fn routes_have_exact_control_points() {
    let config = StableLayoutConfig::default();
    let route = route_edge(
        LayoutPoint { x: 56, y: 56 },
        LayoutPoint { x: 168, y: 128 },
        EndpointPortSlots {
            source: 0,
            target: 9,
        },
        config,
    );
    assert_eq!(
        route,
        CubicRoute {
            source: LayoutPoint { x: 76, y: 56 },
            control_1: LayoutPoint { x: 106, y: 56 },
            control_2: LayoutPoint { x: 114, y: 116 },
            target: LayoutPoint { x: 144, y: 116 },
        }
    );
}

#[test]
fn routes_saturate_at_the_bounds() {
    let mut config = StableLayoutConfig::default();
    config.edge_control_ratio_percent = i32::MIN;
    let route = route_edge(
        LayoutPoint { x: i32::MAX, y: i32::MIN },
        LayoutPoint { x: i32::MIN, y: i32::MAX },
        EndpointPortSlots {
            source: 1,
            target: 2,
        },
        config,
    );
    assert_eq!(route.source, LayoutPoint { x: i32::MAX, y: i32::MIN });
    assert_eq!(route.target, LayoutPoint { x: i32::MIN, y: i32::MAX });
    assert_eq!(route.control_1.x, i32::MIN);
    assert_eq!(route.control_2.x, i32::MAX);
}

#[test]
fn default_distances_are_those_of_the_console() {
    let config = StableDagLayout::default().config();
    assert_eq!(config, StableLayoutConfig::default());
    assert_eq!((config.padding, config.rank_step, config.row_step), (56, 112, 72));
    assert_eq!((config.edge_port_step, config.edge_port_range), (4, 12));
}

#[test]
fn missing_parents_are_named_in_text_order() {
    let mut layout = StableDagLayout::default();
    assert_eq!(
        layout.place_ready(ready("child", &["z", "m"])),
        Err(StableLayoutError::MissingParent {
            node_id: "child".to_owned(),
            parent_id: "m".to_owned(),
        })
    );
    assert!(layout.placement("child").is_none());
}

#[test]
fn restoring_twice_is_accepted_and_conflicts_are_not() {
    let mut layout = StableDagLayout::default();
    let first = placed("a", 0, 0, 56, 56);
    layout.restore_active(first.clone()).unwrap();
    layout.restore_active(first.clone()).unwrap();
    assert_eq!(
        layout.restore_tombstone(first.clone()),
        Err(StableLayoutError::DuplicateNode {
            node_id: "a".to_owned(),
        })
    );
    assert_eq!(
        layout.restore_active(placed("b", 0, 0, 1, 1)),
        Err(StableLayoutError::SlotOccupied {
            rank: 0,
            row: 0,
            owner: "a".to_owned(),
        })
    );
    assert_eq!(layout.active_nodes(), vec![first]);
    assert!(layout.tombstones().is_empty());
}

#[test]
fn a_retired_node_returns_to_its_slot() {
    let mut layout = StableDagLayout::default();
    layout.place_ready(ready("root", &[])).unwrap();
    let child = layout.place_ready(ready("child", &["root"])).unwrap();
    assert_eq!(layout.retire("child"), Some(child.clone()));
    assert_eq!(layout.retire("child"), None);
    assert!(layout.is_tombstone("child"));
    assert_eq!(layout.tombstones(), vec![child.clone()]);
    assert_eq!(layout.place_ready(ready("child", &["root"])), Ok(child));
    assert!(layout.tombstones().is_empty());
}

#[test]
fn batches_stop_at_the_first_failure_and_keep_what_was_placed() {
    let mut layout = StableDagLayout::default();
    let outcome = layout.place_ready_batch(vec![
        ready("a", &[]),
        ready("b", &["missing"]),
        ready("c", &[]),
    ]);
    assert_eq!(
        outcome,
        Err(StableLayoutError::MissingParent {
            node_id: "b".to_owned(),
            parent_id: "missing".to_owned(),
        })
    );
    assert!(layout.placement("a").is_some());
    assert!(layout.placement("c").is_none());
    let placed = layout
        .place_ready_batch(vec![ready("a", &[]), ready("c", &["a"])])
        .unwrap();
    assert_eq!((placed[1].rank, placed[1].row), (1, 0));
}

#[test]
fn the_row_before_is_preferred_at_equal_distance() {
    let mut layout = StableDagLayout::default();
    layout.restore_active(placed("p", 0, 5, 0, 0)).unwrap();
    layout.restore_active(placed("x", 1, 5, 0, 0)).unwrap();
    let child = layout.place_ready(ready("child", &["p"])).unwrap();
    assert_eq!((child.rank, child.row), (1, 4));
    let next = layout.place_ready(ready("next", &["p"])).unwrap();
    assert_eq!((next.rank, next.row), (1, 6));
}

#[test]
fn conflicting_port_assignments_are_rejected() {
    let mut ports = StablePortAllocator::default();
    let first = ports.assign(edge("first", "a", "b")).unwrap();
    ports.restore(first.clone()).unwrap();
    assert_eq!(ports.assign(edge("first", "a", "b")), Ok(first));
    assert_eq!(
        ports.assign(edge("first", "a", "c")),
        Err(StableLayoutError::DuplicateEdge {
            edge_key: "first".to_owned(),
        })
    );
    let taken = PortAssignment {
        edge: edge("second", "a", "c"),
        slots: EndpointPortSlots {
            source: 0,
            target: 0,
        },
    };
    assert_eq!(
        ports.restore(taken),
        Err(StableLayoutError::PortSlotOccupied {
            node_id: "a".to_owned(),
            slot: 0,
            owner: "first".to_owned(),
        })
    );
    let taken = PortAssignment {
        edge: edge("third", "d", "b"),
        slots: EndpointPortSlots {
            source: 0,
            target: 0,
        },
    };
    assert_eq!(
        ports.restore(taken),
        Err(StableLayoutError::PortSlotOccupied {
            node_id: "b".to_owned(),
            slot: 0,
            owner: "first".to_owned(),
        })
    );
    assert!(ports.assignment("third").is_none());
}

#[test]
fn rank_propagation_names_missing_nodes() {
    let incoming = neighbors_of(&[("a", &["ghost-parent"])]);
    let outgoing = neighbors_of(&[("a", &["ghost-child"])]);
    let none = neighbors_of(&[]);
    let missing = |id: &str| {
        Err(StableLayoutError::MissingNode {
            node_id: id.to_owned(),
        })
    };
    let mut ranks = ranks_of(&[("a", 0)]);
    assert_eq!(
        propagate_rank_increases(&mut ranks, &none, &none, &["x".to_owned()]),
        missing("x")
    );
    assert_eq!(
        propagate_rank_increases(&mut ranks, &none, &outgoing, &["a".to_owned()]),
        missing("ghost-child")
    );
    assert_eq!(
        propagate_rank_increases(&mut ranks, &incoming, &none, &["a".to_owned()]),
        missing("ghost-parent")
    );
    assert_eq!(*ranks.get("a").unwrap(), 0);
}

#[test]
fn a_second_propagation_changes_nothing() {
    let incoming = neighbors_of(&[("b", &["a", "a"]), ("c", &["a", "b"])]);
    let outgoing = neighbors_of(&[("a", &["b", "c"]), ("b", &["c"])]);
    let mut ranks = ranks_of(&[("a", 3), ("b", 0), ("c", 1)]);
    let seeds = ["a".to_owned(), "a".to_owned()];
    let changed = propagate_rank_increases(&mut ranks, &incoming, &outgoing, &seeds).unwrap();
    assert_eq!(changed.to_vec(), vec!["b".to_owned(), "c".to_owned()]);
    assert_eq!(ranks, ranks_of(&[("a", 3), ("b", 4), ("c", 5)]));
    let again = propagate_rank_increases(&mut ranks, &incoming, &outgoing, &seeds).unwrap();
    assert_eq!(again.len(), 0);
}

#[test]
fn nodes_before_a_cycle_are_raised_all_the_same() {
    let incoming = neighbors_of(&[("b", &["a"]), ("c", &["b", "d"]), ("d", &["c"])]);
    let outgoing = neighbors_of(&[("a", &["b"]), ("b", &["c"]), ("c", &["d"]), ("d", &["c"])]);
    let mut ranks = ranks_of(&[("a", 7), ("b", 0), ("c", 0), ("d", 0)]);
    let outcome = propagate_rank_increases(&mut ranks, &incoming, &outgoing, &["a".to_owned()]);
    assert_eq!(
        outcome,
        Err(StableLayoutError::Cycle {
            node_ids: vec!["c".to_owned(), "d".to_owned()],
        })
    );
    assert_eq!(ranks, ranks_of(&[("a", 7), ("b", 8), ("c", 0), ("d", 0)]));
}

#[test]
fn tables_may_disagree_outside_the_affected_nodes() {
    let incoming = neighbors_of(&[("b", &["a"])]);
    let outgoing = neighbors_of(&[("a", &["b"]), ("x", &["y"])]);
    let mut ranks = ranks_of(&[("a", 3), ("b", 0), ("x", 1), ("y", 0)]);
    let changed =
        propagate_rank_increases(&mut ranks, &incoming, &outgoing, &["a".to_owned()]).unwrap();
    assert_eq!(changed.to_vec(), vec!["b".to_owned()]);
    assert_eq!(ranks, ranks_of(&[("a", 3), ("b", 4), ("x", 1), ("y", 0)]));

    let outgoing = neighbors_of(&[("a", &["b", "missing"])]);
    let mut ranks = ranks_of(&[("a", 3), ("b", 0)]);
    assert_eq!(
        propagate_rank_increases(
            &mut ranks,
            &neighbors_of(&[]),
            &outgoing,
            &["a".to_owned()]
        ),
        Err(StableLayoutError::MissingNode {
            node_id: "missing".to_owned(),
        })
    );
}
