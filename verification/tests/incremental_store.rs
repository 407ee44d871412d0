use std::collections::BTreeMap;

use coco_console::incremental_store::count_as_usize;
use coco_console::incremental_store::inserted_additions;
use coco_console::incremental_store::marked_seen;
use coco_console::incremental_store::prefix_limit;
use coco_console::incremental_store::replace_start;
use coco_console::incremental_store::FrontierNode;
use coco_console::incremental_store::ReplaceStart;

fn node(created_at_ns: i64, node_id: &str) -> FrontierNode {
    FrontierNode::new(created_at_ns, node_id)
}

#[test]
fn expected_minimum_must_be_the_current_one() {
    assert_eq!(replace_start(&None, &None), ReplaceStart::Insert);
    assert_eq!(
        replace_start(&None, &Some(node(1, "a"))),
        ReplaceStart::Insert
    );
    assert_eq!(
        replace_start(&Some(node(1, "a")), &Some(node(1, "a"))),
        ReplaceStart::MarkSeen
    );
    assert_eq!(
        replace_start(&Some(node(2, "b")), &Some(node(1, "a"))),
        ReplaceStart::Stale
    );
    assert_eq!(
        replace_start(&Some(node(2, "a")), &Some(node(1, "a"))),
        ReplaceStart::Stale
    );
    assert_eq!(
        replace_start(&Some(node(1, "a")), &None),
        ReplaceStart::Stale
    );
    assert!(marked_seen(1));
    assert!(!marked_seen(0));
}

#[test]
fn only_unseen_additions_are_inserted() {
    let additions = vec![node(1, "a"), node(2, "m"), node(3, "z")];
    let inserted = inserted_additions(&additions, &vec![0, 1, 0]);
    assert_eq!(inserted, vec![node(2, "m")]);
    let inserted = inserted_additions(&additions, &vec![1, 1, 1]);
    assert_eq!(inserted, additions);
}

#[test]
fn frontier_is_ordered_by_time_and_id() {
    let mut nodes = vec![node(5, "b"), node(1, "z"), node(1, "a")];
    nodes.sort();
    assert_eq!(nodes, vec![node(1, "a"), node(1, "z"), node(5, "b")]);
}

#[test]
fn limits_and_counts_are_bounded() {
    assert_eq!(prefix_limit(0), None);
    assert_eq!(prefix_limit(2), Some(2));
    assert_eq!(prefix_limit(usize::MAX), Some(i64::MAX));
    assert_eq!(count_as_usize(-3), 0);
    assert_eq!(count_as_usize(3), 3);
}

/// The frontier of a run: each node that ever waited, and whether it still does.
fn replace(
    rows: &mut BTreeMap<String, (i64, bool)>,
    expected: Option<FrontierNode>,
    additions: &[FrontierNode],
) -> Option<Vec<FrontierNode>> {
    let current = pending(rows).into_iter().next();
    match replace_start(&expected, &current) {
        ReplaceStart::Stale => return None,
        ReplaceStart::MarkSeen => {
            let seen = expected.expect("a seen node was expected");
            rows.insert(seen.node_id, (seen.created_at_ns, false));
        }
        ReplaceStart::Insert => {}
    }
    let mut affected = Vec::new();
    for addition in additions {
        if rows.contains_key(&addition.node_id) {
            affected.push(0);
        } else {
            rows.insert(addition.node_id.clone(), (addition.created_at_ns, true));
            affected.push(1);
        }
    }
    Some(inserted_additions(&additions.to_vec(), &affected))
}

fn pending(rows: &BTreeMap<String, (i64, bool)>) -> Vec<FrontierNode> {
    let mut nodes = rows
        .iter()
        .filter(|(_, row)| row.1)
        .map(|(node_id, row)| node(row.0, node_id))
        .collect::<Vec<_>>();
    nodes.sort();
    nodes
}

#[test]
fn seen_nodes_never_wait_again() {
    let mut rows = BTreeMap::new();
    let original = vec![node(5, "b"), node(1, "z"), node(1, "a")];
    assert_eq!(replace(&mut rows, None, &original), Some(original));
    let minimum = node(1, "a");
    let new_node = node(2, "m");
    assert_eq!(
        replace(
            &mut rows,
            Some(minimum.clone()),
            &[minimum.clone(), new_node.clone()]
        ),
        Some(vec![new_node])
    );
    assert_eq!(
        pending(&rows),
        vec![node(1, "z"), node(2, "m"), node(5, "b")]
    );
    assert_eq!(
        replace(&mut rows, None, &[node(0, "a")]),
        Some(Vec::new())
    );
    let before = rows.clone();
    assert_eq!(
        replace(&mut rows, Some(minimum), &[node(0, "new")]),
        None
    );
    assert_eq!(rows, before);
}
