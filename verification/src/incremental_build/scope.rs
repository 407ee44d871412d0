//! Finding the anchor scope of each branch: the nodes whose anchors the branch shows.

use vstd::prelude::*;
use crate::incremental_build::init::is_transition;
use crate::incremental_build::init::InitPhase;
use crate::incremental_build::init::PhaseChange;
use crate::incremental_build::paging::marked;
use crate::incremental_build::paging::marked_rows;
use crate::sequences::lemma_filter_members;
use crate::sorting::indices;
use crate::text::text_equal;

verus! {

/// What a transaction on the queue of the scopes does.
#[derive(Debug, Clone, Copy, PartialEq, Eq, Structural)]
pub enum ScopeBatch {
    /// The queue is empty.
    Advance { change: PhaseChange },
    /// Every item of the batch is expanded.
    Expand { count: usize },
}

/// Decides what a transaction on the queue of the scopes does with a batch.
pub fn process_scope_batch(batch_len: usize) -> (step: ScopeBatch)
    ensures
        step == (if batch_len == 0 {
            ScopeBatch::Advance {
                change: PhaseChange { from: InitPhase::Scope, to: InitPhase::DeltaScopeRemove },
            }
        } else {
            ScopeBatch::Expand { count: batch_len }
        }),
        step matches ScopeBatch::Advance { change } ==> is_transition(change.from, change.to),
{
    if batch_len == 0 {
        ScopeBatch::Advance {
            change: PhaseChange { from: InitPhase::Scope, to: InitPhase::DeltaScopeRemove },
        }
    } else {
        ScopeBatch::Expand { count: batch_len }
    }
}

/// What a branch has to do with a node: whether the branch contributes it, and whether the
/// baseline has it in the scope of the branch.
#[derive(Debug, Clone, Copy, PartialEq, Eq, Structural)]
pub struct Membership {
    pub contributed: bool,
    pub in_baseline_scope: bool,
}

/// What a build knows of a branch: whether it adds to its baseline, and whether it replaces the
/// branch.
#[derive(Debug, Clone, Copy, PartialEq, Eq, Structural)]
pub struct BranchReuse {
    pub append: bool,
    pub replaced: bool,
}

/// Whether the scope that the baseline has for a branch still holds.
pub open spec fn baseline_holds(reuse: BranchReuse) -> bool {
    reuse.append && !reuse.replaced
}

/// Whether a node belongs to a branch.
pub open spec fn belongs(reuse: BranchReuse, node: Membership) -> bool {
    node.contributed || (baseline_holds(reuse) && node.in_baseline_scope)
}

fn node_belongs(reuse: BranchReuse, node: Membership) -> (result: bool)
    ensures
        result == belongs(reuse, node),
{
    node.contributed || (reuse.append && !reuse.replaced && node.in_baseline_scope)
}

/// Which part of a session a node starts, if it starts one.
#[derive(Debug, Clone, Copy, PartialEq, Eq, Structural)]
pub struct SessionStart {
    pub is_session: bool,
    pub has_active_skill: bool,
    pub has_handoff: bool,
}

/// Whether a search stops at a node: a session starts there that does not go on from a skill of
/// the one before, or that was handed off.
pub open spec fn starts_afresh(start: SessionStart) -> bool {
    start.is_session && (!start.has_active_skill || start.has_handoff)
}

/// The node of an item, as the source has it.
#[derive(Debug, Clone, PartialEq, Eq)]
pub struct ScopeNode {
    pub parent_id: String,
    pub membership: Membership,
    pub parent_membership: Membership,
    pub start: SessionStart,
    pub is_tool_use: bool,
}

/// An item of the queue.
#[derive(Debug, Clone, PartialEq, Eq)]
pub struct ScopeItem {
    pub branch_name: String,
    pub node_id: String,
    pub traversal_kind: String,
    pub node_expanded: i32,
    pub parent_cursor: String,
    pub child_cursor: String,
}

/// A parent or a child of the node of an item.
#[derive(Debug, Clone, PartialEq, Eq)]
pub struct ScopeRelative {
    pub node_id: String,
    pub membership: Membership,
    pub is_skill_invocation: bool,
}

/// Whether a parent is searched.
pub open spec fn parent_searched(reuse: BranchReuse, parent: ScopeRelative) -> bool {
    belongs(reuse, parent.membership)
}

/// Whether a child is searched: below a skill every child is, and elsewhere the start of a skill
/// is, below the use of a tool.
pub open spec fn child_searched(
    reuse: BranchReuse,
    traversal_kind: Seq<char>,
    node_is_tool_use: bool,
    child: ScopeRelative,
) -> bool {
    belongs(reuse, child.membership) && (traversal_kind == "skill_subtree"@ || (node_is_tool_use
        && child.is_skill_invocation))
}

/// How the expansion of an item goes on.
#[derive(Debug, Clone, PartialEq, Eq)]
pub enum ScopeContinuation {
    /// The node is reached by the scope of the baseline: its parents need no search.
    Reached,
    /// The parents at some places are queued, and the cursor moves; more parents may follow.
    Parents { rows: Vec<usize>, cursor: String },
    /// The children at some places are queued, and the cursor moves. Once there are no more
    /// children, the item is processed.
    Children { mark_expanded: bool, rows: Vec<usize>, cursor: String, processed: bool },
}

/// What the expansion of an item writes.
#[derive(Debug, Clone, PartialEq, Eq)]
pub struct ScopeExpansion {
    /// The branch keeps the scope that the baseline has for it.
    pub reuses_baseline: bool,
    /// The node enters the scope of the branch.
    pub enters_scope: bool,
    /// The primary parent of the node is queued.
    pub queues_parent: bool,
    pub continuation: ScopeContinuation,
}

/// How the expansion of an item goes on, with its texts as characters.
#[verifier::ext_equal]
pub enum ScopeContinuationView {
    Reached,
    Parents { rows: Seq<usize>, cursor: Seq<char> },
    Children { mark_expanded: bool, rows: Seq<usize>, cursor: Seq<char>, processed: bool },
}

/// An expansion with its texts as characters.
#[verifier::ext_equal]
pub struct ScopeExpansionView {
    pub reuses_baseline: bool,
    pub enters_scope: bool,
    pub queues_parent: bool,
    pub continuation: ScopeContinuationView,
}

impl View for ScopeContinuation {
    type V = ScopeContinuationView;

    open spec fn view(&self) -> ScopeContinuationView {
        match *self {
            ScopeContinuation::Reached => ScopeContinuationView::Reached,
            ScopeContinuation::Parents { rows, cursor } => ScopeContinuationView::Parents {
                rows: rows@,
                cursor: cursor@,
            },
            ScopeContinuation::Children { mark_expanded, rows, cursor, processed } =>
                ScopeContinuationView::Children {
                mark_expanded,
                rows: rows@,
                cursor: cursor@,
                processed,
            },
        }
    }
}

impl View for ScopeExpansion {
    type V = ScopeExpansionView;

    open spec fn view(&self) -> ScopeExpansionView {
        ScopeExpansionView {
            reuses_baseline: self.reuses_baseline,
            enters_scope: self.enters_scope,
            queues_parent: self.queues_parent,
            continuation: self.continuation@,
        }
    }
}

/// The places of the parents that are searched.
pub open spec fn searched_parents(reuse: BranchReuse, parents: Seq<ScopeRelative>) -> Seq<usize> {
    marked(parents.map_values(|parent: ScopeRelative| parent_searched(reuse, parent)))
}

/// The places of the children that are searched.
pub open spec fn searched_children(
    reuse: BranchReuse,
    traversal_kind: Seq<char>,
    node_is_tool_use: bool,
    children: Seq<ScopeRelative>,
) -> Seq<usize> {
    marked(
        children.map_values(
            |child: ScopeRelative| child_searched(reuse, traversal_kind, node_is_tool_use, child),
        ),
    )
}

/// Whether a node enters the scope of a branch. The root never does.
pub open spec fn node_enters(reuse: BranchReuse, node: Option<ScopeNode>) -> bool {
    node matches Some(node) && node.parent_id@.len() > 0 && belongs(reuse, node.membership)
}

/// Whether the primary parent of a node is searched.
pub open spec fn parent_enters(reuse: BranchReuse, node: Option<ScopeNode>) -> bool {
    node matches Some(node) && node.parent_id@.len() > 0 && belongs(reuse, node.parent_membership)
        && !starts_afresh(node.start)
}

/// Whether a node is the use of a tool.
pub open spec fn is_tool_use(node: Option<ScopeNode>) -> bool {
    node matches Some(node) && node.is_tool_use
}

/// What the expansion of an item writes, given the next page of its parents, the primary one left
/// out, and the next page of its children. `node` is missing where the source does not have it or
/// the manifest does not have the branch.
pub open spec fn scope_expansion(
    item: ScopeItem,
    reuse: BranchReuse,
    in_baseline_scope: bool,
    node: Option<ScopeNode>,
    parents: Seq<ScopeRelative>,
    children: Seq<ScopeRelative>,
) -> ScopeExpansionView {
    let reached = baseline_holds(reuse) && in_baseline_scope;
    let fresh = item.node_expanded == 0 && !reached;
    ScopeExpansionView {
        reuses_baseline: reached,
        enters_scope: fresh && node_enters(reuse, node),
        queues_parent: fresh && parent_enters(reuse, node),
        continuation: if item.node_expanded == 0 && reached {
            ScopeContinuationView::Reached
        } else if fresh && parents.len() > 0 {
            ScopeContinuationView::Parents {
                rows: searched_parents(reuse, parents),
                cursor: parents.last().node_id@,
            }
        } else {
            ScopeContinuationView::Children {
                mark_expanded: fresh,
                rows: searched_children(
                    reuse,
                    item.traversal_kind@,
                    is_tool_use(node),
                    children,
                ),
                cursor: if children.len() == 0 {
                    item.child_cursor@
                } else {
                    children.last().node_id@
                },
                processed: children.len() == 0,
            }
        },
    }
}

fn parents_searched(reuse: BranchReuse, parents: &Vec<ScopeRelative>) -> (rows: Vec<usize>)
    ensures
        rows@ == searched_parents(reuse, parents@),
{
    let mut flags: Vec<bool> = Vec::new();
    let mut i: usize = 0;
    while i < parents.len()
        invariant
            0 <= i <= parents.len(),
            flags@.len() == i,
            forall|j: int|
                0 <= j < i ==> #[trigger] flags@[j] == parent_searched(reuse, parents@[j]),
        decreases parents.len() - i,
    {
        flags.push(node_belongs(reuse, parents[i].membership));
        i += 1;
    }
    assert(flags@ =~= parents@.map_values(
        |parent: ScopeRelative| parent_searched(reuse, parent),
    ));
    marked_rows(&flags)
}

fn children_searched(
    reuse: BranchReuse,
    traversal_kind: &str,
    node_is_tool_use: bool,
    children: &Vec<ScopeRelative>,
) -> (rows: Vec<usize>)
    ensures
        rows@ == searched_children(reuse, traversal_kind@, node_is_tool_use, children@),
{
    let subtree = text_equal(traversal_kind, "skill_subtree");
    let mut flags: Vec<bool> = Vec::new();
    let mut i: usize = 0;
    while i < children.len()
        invariant
            0 <= i <= children.len(),
            flags@.len() == i,
            subtree == (traversal_kind@ == "skill_subtree"@),
            forall|j: int|
                0 <= j < i ==> #[trigger] flags@[j] == child_searched(
                    reuse,
                    traversal_kind@,
                    node_is_tool_use,
                    children@[j],
                ),
        decreases children.len() - i,
    {
        flags.push(
            node_belongs(reuse, children[i].membership) && (subtree || (node_is_tool_use
                && children[i].is_skill_invocation)),
        );
        i += 1;
    }
    assert(flags@ =~= children@.map_values(
        |child: ScopeRelative| child_searched(reuse, traversal_kind@, node_is_tool_use, child),
    ));
    marked_rows(&flags)
}

/// Decides what the expansion of an item writes, given the next page of its parents, the primary
/// one left out, and the next page of its children. `node` is missing where the source does not
/// have it or the manifest does not have the branch.
pub fn expand_scope_item(
    item: &ScopeItem,
    reuse: BranchReuse,
    in_baseline_scope: bool,
    node: &Option<ScopeNode>,
    parents: &Vec<ScopeRelative>,
    children: &Vec<ScopeRelative>,
) -> (expansion: ScopeExpansion)
    ensures
        expansion@ == scope_expansion(*item, reuse, in_baseline_scope, *node, parents@, children@),
{
    let reached = reuse.append && !reuse.replaced && in_baseline_scope;
    if reached && item.node_expanded == 0 {
        return ScopeExpansion {
            reuses_baseline: true,
            enters_scope: false,
            queues_parent: false,
            continuation: ScopeContinuation::Reached,
        };
    }
    let mut enters_scope = false;
    let mut queues_parent = false;
    let mut node_is_tool_use = false;
    let fresh = item.node_expanded == 0;
    if let Some(node) = node {
        node_is_tool_use = node.is_tool_use;
        if fresh && !text_equal(node.parent_id.as_str(), "") {
            proof {
                reveal_strlit("");
                assert(node.parent_id@.len() > 0) by {
                    if node.parent_id@.len() == 0 {
                        assert(node.parent_id@ =~= ""@);
                    }
                }
            }
            enters_scope = node_belongs(reuse, node.membership);
            queues_parent =
            node_belongs(reuse, node.parent_membership) && !(node.start.is_session && (
            !node.start.has_active_skill || node.start.has_handoff));
        } else {
            proof {
                reveal_strlit("");
                assert(fresh ==> node.parent_id@.len() == 0);
            }
        }
    }
    if fresh && parents.len() > 0 {
        return ScopeExpansion {
            reuses_baseline: reached,
            enters_scope,
            queues_parent,
            continuation: ScopeContinuation::Parents {
                rows: parents_searched(reuse, parents),
                cursor: parents[parents.len() - 1].node_id.clone(),
            },
        };
    }
    let cursor = if children.len() == 0 {
        item.child_cursor.clone()
    } else {
        children[children.len() - 1].node_id.clone()
    };
    ScopeExpansion {
        reuses_baseline: reached,
        enters_scope,
        queues_parent,
        continuation: ScopeContinuation::Children {
            mark_expanded: fresh,
            rows: children_searched(
                reuse,
                item.traversal_kind.as_str(),
                node_is_tool_use,
                children,
            ),
            cursor,
            processed: children.len() == 0,
        },
    }
}

/// An item whose node the scope of the baseline reaches searches no parents: neither itself nor
/// its primary parent enters a scope, and nothing but children is queued.
pub proof fn lemma_reached_searches_no_parents(
    item: ScopeItem,
    reuse: BranchReuse,
    node: Option<ScopeNode>,
    parents: Seq<ScopeRelative>,
    children: Seq<ScopeRelative>,
)
    requires
        baseline_holds(reuse),
    ensures
        ({
            let expansion = scope_expansion(item, reuse, true, node, parents, children);
            &&& expansion.reuses_baseline
            &&& !expansion.enters_scope
            &&& !expansion.queues_parent
            &&& !(expansion.continuation is Parents)
        }),
{
}

/// A build that starts over, or that replaces a branch, searches only what the branch
/// contributes.
pub proof fn lemma_replaced_scope_is_contributed(
    reuse: BranchReuse,
    traversal_kind: Seq<char>,
    node_is_tool_use: bool,
    relative: ScopeRelative,
)
    requires
        !reuse.append || reuse.replaced,
    ensures
        parent_searched(reuse, relative) <==> relative.membership.contributed,
        child_searched(reuse, traversal_kind, node_is_tool_use, relative)
            ==> relative.membership.contributed,
{
}

/// What a search for the scope of a branch visits: a node, above or below a skill.
#[verifier::ext_equal]
pub struct SearchItem {
    pub node_id: Seq<char>,
    pub traversal_kind: Seq<char>,
}

/// The source that a scope is searched in: each node, the parents of a node without the primary
/// one, and its children.
pub struct SearchWorld {
    pub node: spec_fn(Seq<char>) -> ScopeNode,
    pub relative: spec_fn(Seq<char>) -> ScopeRelative,
    pub other_parents: spec_fn(Seq<char>) -> Set<Seq<char>>,
    pub children: spec_fn(Seq<char>) -> Set<Seq<char>>,
}

/// Whether a source says the same of a node wherever it speaks of it.
pub open spec fn world_consistent(world: SearchWorld) -> bool {
    forall|node_id: Seq<char>|
        #![trigger (world.node)(node_id)]
        (world.node)(node_id).membership == (world.relative)(node_id).membership
            && (world.node)(node_id).parent_membership == (world.relative)(
            (world.node)(node_id).parent_id@,
        ).membership
}

/// Whether the baseline has a node in the scope of the branch.
pub open spec fn in_baseline(world: SearchWorld, node_id: Seq<char>) -> bool {
    (world.relative)(node_id).membership.in_baseline_scope
}

/// Whether the expansion of an item queues another.
pub open spec fn search_step(
    world: SearchWorld,
    reuse: BranchReuse,
    from: SearchItem,
    to: SearchItem,
) -> bool {
    let node = (world.node)(from.node_id);
    let reached = baseline_holds(reuse) && in_baseline(world, from.node_id);
    ||| {
        &&& !reached
        &&& to.traversal_kind == "graph"@
        &&& parent_enters(reuse, Some(node)) && to.node_id == node.parent_id@
    }
    ||| {
        &&& !reached
        &&& to.traversal_kind == "graph"@
        &&& (world.other_parents)(from.node_id).contains(to.node_id)
        &&& parent_searched(reuse, (world.relative)(to.node_id))
    }
    ||| {
        &&& to.traversal_kind == "skill_subtree"@
        &&& (world.children)(from.node_id).contains(to.node_id)
        &&& child_searched(
            reuse,
            from.traversal_kind,
            node.is_tool_use,
            (world.relative)(to.node_id),
        )
    }
}

/// Everything that the expansion of an item queues is a step of the search.
pub proof fn lemma_expansion_searches(
    world: SearchWorld,
    item: ScopeItem,
    reuse: BranchReuse,
    parents: Seq<ScopeRelative>,
    children: Seq<ScopeRelative>,
    row: usize,
)
    requires
        parents.len() <= usize::MAX,
        children.len() <= usize::MAX,
        forall|i: int|
            0 <= i < parents.len() ==> (#[trigger] parents[i]) == (world.relative)(
                parents[i].node_id@,
            ) && (world.other_parents)(item.node_id@).contains(parents[i].node_id@),
        forall|i: int|
            0 <= i < children.len() ==> (#[trigger] children[i]) == (world.relative)(
                children[i].node_id@,
            ) && (world.children)(item.node_id@).contains(children[i].node_id@),
    ensures
        ({
            let from = SearchItem {
                node_id: item.node_id@,
                traversal_kind: item.traversal_kind@,
            };
            let node = (world.node)(item.node_id@);
            let expansion = scope_expansion(
                item,
                reuse,
                in_baseline(world, item.node_id@),
                Some(node),
                parents,
                children,
            );
            &&& expansion.queues_parent ==> search_step(
                world,
                reuse,
                from,
                SearchItem { node_id: node.parent_id@, traversal_kind: "graph"@ },
            )
            &&& match expansion.continuation {
                ScopeContinuationView::Reached => true,
                ScopeContinuationView::Parents { rows, cursor } => rows.contains(row)
                    ==> search_step(
                    world,
                    reuse,
                    from,
                    SearchItem {
                        node_id: parents[row as int].node_id@,
                        traversal_kind: "graph"@,
                    },
                ),
                ScopeContinuationView::Children { mark_expanded, rows, cursor, processed } =>
                    rows.contains(row) ==> search_step(
                    world,
                    reuse,
                    from,
                    SearchItem {
                        node_id: children[row as int].node_id@,
                        traversal_kind: "skill_subtree"@,
                    },
                ),
            }
        }),
{
    let node = (world.node)(item.node_id@);
    let up = parents.map_values(|parent: ScopeRelative| parent_searched(reuse, parent));
    let down = children.map_values(
        |child: ScopeRelative|
            child_searched(reuse, item.traversal_kind@, node.is_tool_use, child),
    );
    lemma_filter_members(indices(up.len()), |place: usize| up[place as int], row);
    lemma_filter_members(indices(down.len()), |place: usize| down[place as int], row);
    if indices(up.len()).contains(row) && row < up.len() {
        assert(parents[row as int] == (world.relative)(parents[row as int].node_id@));
    }
    if indices(down.len()).contains(row) && row < down.len() {
        assert(children[row as int] == (world.relative)(children[row as int].node_id@));
    }
}

/// Whether a search goes along a path.
pub open spec fn is_search(world: SearchWorld, reuse: BranchReuse, path: Seq<SearchItem>) -> bool {
    forall|i: int|
        0 <= i < path.len() - 1 ==> #[trigger] search_step(world, reuse, path[i], path[i + 1])
}

/// Whether a search from the head of a branch visits a node.
pub open spec fn finds(
    world: SearchWorld,
    reuse: BranchReuse,
    head_id: Seq<char>,
    node_id: Seq<char>,
) -> bool {
    exists|path: Seq<SearchItem>| #[trigger]
        is_search(world, reuse, path) && path.len() > 0 && path[0] == (SearchItem {
            node_id: head_id,
            traversal_kind: "graph"@,
        }) && path.last().node_id == node_id
}

/// A build that starts over.
pub open spec fn starting_over() -> BranchReuse {
    BranchReuse { append: false, replaced: false }
}

/// A build that adds to the scope that the baseline has.
pub open spec fn adding() -> BranchReuse {
    BranchReuse { append: true, replaced: false }
}

/// Whether the scope of the baseline holds all that a search from its nodes would visit.
pub open spec fn baseline_closed(world: SearchWorld) -> bool {
    forall|from: SearchItem, to: SearchItem| #[trigger]
        search_step(world, starting_over(), from, to) && in_baseline(world, from.node_id)
            ==> in_baseline(world, to.node_id)
}

proof fn lemma_full_path_reused(world: SearchWorld, path: Seq<SearchItem>)
    requires
        world_consistent(world),
        baseline_closed(world),
        path.len() > 0,
        is_search(world, starting_over(), path),
    ensures
        in_baseline(world, path.last().node_id) || is_search(world, adding(), path),
    decreases path.len(),
{
    if path.len() > 1 {
        let rest = path.drop_last();
        let n = path.len() - 2;
        assert forall|i: int| 0 <= i < rest.len() - 1 implies #[trigger] search_step(
            world,
            starting_over(),
            rest[i],
            rest[i + 1],
        ) by {
            assert(search_step(world, starting_over(), path[i], path[i + 1]));
        }
        lemma_full_path_reused(world, rest);
        assert(search_step(world, starting_over(), path[n], path[n + 1]));
        assert(rest.last() == path[n]);
        if !in_baseline(world, path[n].node_id) {
            assert(search_step(world, adding(), path[n], path[n + 1]));
            assert forall|i: int| 0 <= i < path.len() - 1 implies #[trigger] search_step(
                world,
                adding(),
                path[i],
                path[i + 1],
            ) by {
                if i < n {
                    assert(search_step(world, adding(), rest[i], rest[i + 1]));
                }
            }
        }
    }
}

proof fn lemma_reused_path_full(world: SearchWorld, path: Seq<SearchItem>)
    requires
        world_consistent(world),
        baseline_closed(world),
        path.len() > 0,
        is_search(world, adding(), path),
    ensures
        in_baseline(world, path.last().node_id) || is_search(world, starting_over(), path),
    decreases path.len(),
{
    if path.len() > 1 {
        let rest = path.drop_last();
        let n = path.len() - 2;
        assert forall|i: int| 0 <= i < rest.len() - 1 implies #[trigger] search_step(
            world,
            adding(),
            rest[i],
            rest[i + 1],
        ) by {
            assert(search_step(world, adding(), path[i], path[i + 1]));
        }
        lemma_reused_path_full(world, rest);
        assert(search_step(world, adding(), path[n], path[n + 1]));
        assert(rest.last() == path[n]);
        let to = path[n + 1];
        assert((world.node)(path[n].node_id).parent_membership == (world.relative)(
            (world.node)(path[n].node_id).parent_id@,
        ).membership);
        if !in_baseline(world, to.node_id) {
            assert(search_step(world, starting_over(), path[n], to));
            assert(!in_baseline(world, path[n].node_id));
            assert forall|i: int| 0 <= i < path.len() - 1 implies #[trigger] search_step(
                world,
                starting_over(),
                path[i],
                path[i + 1],
            ) by {
                if i < n {
                    assert(search_step(world, starting_over(), rest[i], rest[i + 1]));
                }
            }
        }
    }
}

/// Where the scope of the baseline holds all that a search from its nodes would visit, a build
/// that stops at that scope and keeps it finds what a build that starts over finds.
pub proof fn lemma_reused_scope_matches_full(
    world: SearchWorld,
    head_id: Seq<char>,
    node_id: Seq<char>,
)
    requires
        world_consistent(world),
        baseline_closed(world),
    ensures
        (in_baseline(world, node_id) || finds(world, adding(), head_id, node_id)) <==> (in_baseline(
            world,
            node_id,
        ) || finds(world, starting_over(), head_id, node_id)),
{
    let start = SearchItem { node_id: head_id, traversal_kind: "graph"@ };
    if finds(world, starting_over(), head_id, node_id) {
        let path = choose|path: Seq<SearchItem>| #[trigger]
            is_search(world, starting_over(), path) && path.len() > 0 && path[0] == start
                && path.last().node_id == node_id;
        lemma_full_path_reused(world, path);
    }
    if finds(world, adding(), head_id, node_id) {
        let path = choose|path: Seq<SearchItem>| #[trigger]
            is_search(world, adding(), path) && path.len() > 0 && path[0] == start
                && path.last().node_id == node_id;
        lemma_reused_path_full(world, path);
    }
}

} // verus!
