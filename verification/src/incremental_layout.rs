//! A layout that keeps every node where it was first placed, and every edge on the
//! endpoint slots that it was first given.

pub use crate::rank_propagation::propagate_rank_increases;
use vstd::prelude::*;
use vstd::string::*;
use std::collections::BTreeMap;
use crate::arithmetic::greater_of;
use crate::arithmetic::larger;
use crate::arithmetic::lemma_product_fits;
use crate::arithmetic::lesser_of;
use crate::arithmetic::next_usize;
use crate::arithmetic::saturate_i32;
use crate::arithmetic::saturating_difference;
use crate::arithmetic::saturating_product;
use crate::arithmetic::saturating_sum;
use crate::arithmetic::smaller;
use crate::arithmetic::truncated_quotient;
use crate::arithmetic::truncating_division;
use crate::ordered::sorted_texts;
use crate::ordered::strictly_sorted;
use crate::ordered::texts;
use crate::ordered::TextMap;
use crate::ordered::TextSet;
use crate::text::decimal;
use crate::text::decimal_text;
use crate::text::text_lt;

verus! {

broadcast use vstd::std_specs::btree::group_btree_axioms;

#[derive(Debug, Clone, Copy, PartialEq, Eq, Structural)]
pub struct LayoutPoint {
    pub x: i32,
    pub y: i32,
}

#[derive(Debug, Clone, Copy, PartialEq, Eq, Structural)]
pub struct CubicRoute {
    pub source: LayoutPoint,
    pub control_1: LayoutPoint,
    pub control_2: LayoutPoint,
    pub target: LayoutPoint,
}

#[derive(Debug, Clone, Copy, PartialEq, Eq, PartialOrd, Ord, Hash, Structural)]
pub enum StableEdgeKind {
    Primary,
    Merge,
    Shadow,
}

#[derive(Debug, Clone, Copy, PartialEq, Eq, Structural)]
pub struct StableLayoutConfig {
    pub padding: i32,
    pub rank_step: i32,
    pub row_step: i32,
    pub node_radius: i32,
    pub edge_source_padding: i32,
    pub edge_target_padding: i32,
    pub edge_port_step: i32,
    pub edge_port_range: i32,
    pub edge_control_ratio_percent: i32,
    pub edge_min_control_distance: i32,
}

/// The distances that the console draws its graph with.
pub open spec fn default_config() -> StableLayoutConfig {
    StableLayoutConfig {
        padding: 56,
        rank_step: 112,
        row_step: 72,
        node_radius: 18,
        edge_source_padding: 2,
        edge_target_padding: 6,
        edge_port_step: 4,
        edge_port_range: 12,
        edge_control_ratio_percent: 45,
        edge_min_control_distance: 24,
    }
}

impl Default for StableLayoutConfig {
    fn default() -> (config: Self)
        ensures
            config == default_config(),
    {
        StableLayoutConfig {
            padding: 56,
            rank_step: 112,
            row_step: 72,
            node_radius: 18,
            edge_source_padding: 2,
            edge_target_padding: 6,
            edge_port_step: 4,
            edge_port_range: 12,
            edge_control_ratio_percent: 45,
            edge_min_control_distance: 24,
        }
    }
}

/// A node whose parents are all placed.
#[derive(Debug, Clone, PartialEq, Eq)]
pub struct ReadyNode {
    pub node_id: String,
    pub parent_ids: Vec<String>,
}

impl ReadyNode {
    /// The distinct parents.
    pub open spec fn parents(&self) -> Set<Seq<char>> {
        texts(self.parent_ids@).to_set()
    }
}

/// Where a node stands.
#[derive(Debug, PartialEq, Eq)]
pub struct NodePlacement {
    pub node_id: String,
    pub rank: usize,
    pub row: usize,
    pub point: LayoutPoint,
}

/// A placement with its id as characters.
#[verifier::ext_equal]
pub struct PlacementView {
    pub node_id: Seq<char>,
    pub rank: usize,
    pub row: usize,
    pub point: LayoutPoint,
}

impl View for NodePlacement {
    type V = PlacementView;

    open spec fn view(&self) -> PlacementView {
        PlacementView { node_id: self.node_id@, rank: self.rank, row: self.row, point: self.point }
    }
}

impl Clone for NodePlacement {
    fn clone(&self) -> (copy: Self)
        ensures
            copy == *self,
    {
        NodePlacement {
            node_id: self.node_id.clone(),
            rank: self.rank,
            row: self.row,
            point: self.point,
        }
    }
}

impl NodePlacement {
    /// Whether two placements agree in every field.
    fn same_as(&self, other: &NodePlacement) -> (same: bool)
        ensures
            same == (self@ == other@),
    {
        self.node_id == other.node_id && self.rank == other.rank && self.row == other.row
            && self.point == other.point
    }
}

#[derive(Debug, PartialEq, Eq)]
pub struct StableEdge {
    pub edge_key: String,
    pub kind: StableEdgeKind,
    pub source_id: String,
    pub target_id: String,
}

/// An edge with its texts as characters.
#[verifier::ext_equal]
pub struct StableEdgeView {
    pub edge_key: Seq<char>,
    pub kind: StableEdgeKind,
    pub source_id: Seq<char>,
    pub target_id: Seq<char>,
}

impl View for StableEdge {
    type V = StableEdgeView;

    open spec fn view(&self) -> StableEdgeView {
        StableEdgeView {
            edge_key: self.edge_key@,
            kind: self.kind,
            source_id: self.source_id@,
            target_id: self.target_id@,
        }
    }
}

impl Clone for StableEdge {
    fn clone(&self) -> (copy: Self)
        ensures
            copy == *self,
    {
        StableEdge {
            edge_key: self.edge_key.clone(),
            kind: self.kind,
            source_id: self.source_id.clone(),
            target_id: self.target_id.clone(),
        }
    }
}

impl StableEdge {
    /// Whether two edges agree in every field.
    fn same_as(&self, other: &StableEdge) -> (same: bool)
        ensures
            same == (self@ == other@),
    {
        self.edge_key == other.edge_key && self.kind == other.kind && self.source_id
            == other.source_id && self.target_id == other.target_id
    }
}

#[derive(Debug, Clone, Copy, PartialEq, Eq, Structural)]
pub struct EndpointPortSlots {
    pub source: usize,
    pub target: usize,
}

#[derive(Debug, PartialEq, Eq)]
pub struct PortAssignment {
    pub edge: StableEdge,
    pub slots: EndpointPortSlots,
}

/// An assignment with its edge as characters.
#[verifier::ext_equal]
pub struct PortAssignmentView {
    pub edge: StableEdgeView,
    pub slots: EndpointPortSlots,
}

impl View for PortAssignment {
    type V = PortAssignmentView;

    open spec fn view(&self) -> PortAssignmentView {
        PortAssignmentView { edge: self.edge@, slots: self.slots }
    }
}

impl Clone for PortAssignment {
    fn clone(&self) -> (copy: Self)
        ensures
            copy == *self,
    {
        PortAssignment { edge: self.edge.clone(), slots: self.slots }
    }
}

#[derive(Debug, Clone, PartialEq, Eq)]
pub enum StableLayoutError {
    DuplicateNode { node_id: String },
    MissingNode { node_id: String },
    MissingParent { node_id: String, parent_id: String },
    SlotOccupied { rank: usize, row: usize, owner: String },
    ExistingRankTooLow { node_id: String, current_rank: usize, required_rank: usize },
    DuplicateEdge { edge_key: String },
    PortSlotOccupied { node_id: String, slot: usize, owner: String },
    Cycle { node_ids: Vec<String> },
}

/// An error with its texts as characters.
pub enum StableLayoutErrorView {
    DuplicateNode { node_id: Seq<char> },
    MissingNode { node_id: Seq<char> },
    MissingParent { node_id: Seq<char>, parent_id: Seq<char> },
    SlotOccupied { rank: usize, row: usize, owner: Seq<char> },
    ExistingRankTooLow { node_id: Seq<char>, current_rank: usize, required_rank: usize },
    DuplicateEdge { edge_key: Seq<char> },
    PortSlotOccupied { node_id: Seq<char>, slot: usize, owner: Seq<char> },
    Cycle { node_ids: Seq<Seq<char>> },
}

impl View for StableLayoutError {
    type V = StableLayoutErrorView;

    open spec fn view(&self) -> StableLayoutErrorView {
        match self {
            StableLayoutError::DuplicateNode { node_id } => StableLayoutErrorView::DuplicateNode {
                node_id: node_id@,
            },
            StableLayoutError::MissingNode { node_id } => StableLayoutErrorView::MissingNode {
                node_id: node_id@,
            },
            StableLayoutError::MissingParent { node_id, parent_id } =>
                StableLayoutErrorView::MissingParent { node_id: node_id@, parent_id: parent_id@ },
            StableLayoutError::SlotOccupied { rank, row, owner } =>
                StableLayoutErrorView::SlotOccupied { rank: *rank, row: *row, owner: owner@ },
            StableLayoutError::ExistingRankTooLow { node_id, current_rank, required_rank } =>
                StableLayoutErrorView::ExistingRankTooLow {
                node_id: node_id@,
                current_rank: *current_rank,
                required_rank: *required_rank,
            },
            StableLayoutError::DuplicateEdge { edge_key } => StableLayoutErrorView::DuplicateEdge {
                edge_key: edge_key@,
            },
            StableLayoutError::PortSlotOccupied { node_id, slot, owner } =>
                StableLayoutErrorView::PortSlotOccupied {
                node_id: node_id@,
                slot: *slot,
                owner: owner@,
            },
            StableLayoutError::Cycle { node_ids } => StableLayoutErrorView::Cycle {
                node_ids: texts(node_ids@),
            },
        }
    }
}

/// The debug form of a string: in double quotes, with escapes where the standard
/// library puts them.
pub uninterp spec fn quoted_text(text: Seq<char>) -> Seq<char>;

/// Formats a `str` with `{:?}`. Claims that the result depends on the characters alone.
#[verifier::external_body]
pub(crate) fn quoted(text: &str) -> (quoted: String)
    ensures
        quoted@ == quoted_text(text@),
{
    format!("{:?}", text)
}

/// The debug form of the first `count` texts of a list, without the closing bracket.
pub open spec fn quoted_list_prefix(ids: Seq<Seq<char>>, count: nat) -> Seq<char>
    decreases count,
{
    if count == 0 {
        "["@
    } else if count == 1 {
        "["@ + quoted_text(ids[0])
    } else {
        quoted_list_prefix(ids, (count - 1) as nat) + ", "@ + quoted_text(ids[count - 1])
    }
}

/// The debug form of a list of texts.
pub open spec fn quoted_list(ids: Seq<Seq<char>>) -> Seq<char> {
    quoted_list_prefix(ids, ids.len()) + "]"@
}

/// Formats a list of strings as its debug form.
fn quoted_strings(ids: &Vec<String>) -> (text: String)
    ensures
        text@ == quoted_list(texts(ids@)),
{
    let mut text = "[".to_owned();
    let mut i: usize = 0;
    while i < ids.len()
        invariant
            0 <= i <= ids.len(),
            text@ == quoted_list_prefix(texts(ids@), i as nat),
        decreases ids.len() - i,
    {
        if i > 0 {
            text.append(", ");
        }
        let item = quoted(ids[i].as_str());
        text.append(item.as_str());
        i += 1;
    }
    text.append("]");
    text
}

/// The message for an error.
pub open spec fn error_message(error: StableLayoutErrorView) -> Seq<char> {
    match error {
        StableLayoutErrorView::DuplicateNode { node_id } => "duplicate node "@ + node_id,
        StableLayoutErrorView::MissingNode { node_id } => "missing node "@ + node_id,
        StableLayoutErrorView::MissingParent { node_id, parent_id } => "node "@ + node_id
            + " references missing parent "@ + parent_id,
        StableLayoutErrorView::SlotOccupied { rank, row, owner } => "rank "@ + decimal_text(
            rank as nat,
        ) + " row "@ + decimal_text(row as nat) + " is occupied by "@ + owner,
        StableLayoutErrorView::ExistingRankTooLow { node_id, current_rank, required_rank } =>
            "node "@ + node_id + " has rank "@ + decimal_text(current_rank as nat)
            + ", but its parents require rank "@ + decimal_text(required_rank as nat),
        StableLayoutErrorView::DuplicateEdge { edge_key } => "duplicate edge "@ + edge_key,
        StableLayoutErrorView::PortSlotOccupied { node_id, slot, owner } => "endpoint "@ + node_id
            + " port slot "@ + decimal_text(slot as nat) + " is occupied by "@ + owner,
        StableLayoutErrorView::Cycle { node_ids } => "rank propagation found a cycle involving "@
            + quoted_list(node_ids),
    }
}

impl StableLayoutError {
    /// What went wrong, for people.
    pub fn message(&self) -> (text: String)
        ensures
            text@ == error_message(self@),
    {
        match self {
            StableLayoutError::DuplicateNode { node_id } => {
                "duplicate node ".to_owned().concat(node_id.as_str())
            },
            StableLayoutError::MissingNode { node_id } => {
                "missing node ".to_owned().concat(node_id.as_str())
            },
            StableLayoutError::MissingParent { node_id, parent_id } => {
                "node ".to_owned().concat(node_id.as_str()).concat(" references missing parent ").concat(
                    parent_id.as_str(),
                )
            },
            StableLayoutError::SlotOccupied { rank, row, owner } => {
                "rank ".to_owned().concat(decimal(*rank as u64).as_str()).concat(" row ").concat(
                    decimal(*row as u64).as_str(),
                ).concat(" is occupied by ").concat(owner.as_str())
            },
            StableLayoutError::ExistingRankTooLow { node_id, current_rank, required_rank } => {
                "node ".to_owned().concat(node_id.as_str()).concat(" has rank ").concat(
                    decimal(*current_rank as u64).as_str(),
                ).concat(", but its parents require rank ").concat(
                    decimal(*required_rank as u64).as_str(),
                )
            },
            StableLayoutError::DuplicateEdge { edge_key } => {
                "duplicate edge ".to_owned().concat(edge_key.as_str())
            },
            StableLayoutError::PortSlotOccupied { node_id, slot, owner } => {
                "endpoint ".to_owned().concat(node_id.as_str()).concat(" port slot ").concat(
                    decimal(*slot as u64).as_str(),
                ).concat(" is occupied by ").concat(owner.as_str())
            },
            StableLayoutError::Cycle { node_ids } => {
                "rank propagation found a cycle involving ".to_owned().concat(
                    quoted_strings(node_ids).as_str(),
                )
            },
        }
    }
}

/// The rank that parents at given ranks require of their child: one past the highest,
/// or zero without parents.
pub open spec fn is_required_rank(
    parents: Set<Seq<char>>,
    rank_of: spec_fn(Seq<char>) -> usize,
    rank: usize,
) -> bool {
    &&& forall|parent: Seq<char>| #[trigger] parents.contains(parent) ==> next_usize(rank_of(parent)) <= rank
    &&& (rank == 0 && parents =~= Set::<Seq<char>>::empty()) || exists|parent: Seq<char>|
        #[trigger] parents.contains(parent) && rank == next_usize(rank_of(parent))
}

/// The one rank that the parents require.
pub open spec fn required_rank(parents: Set<Seq<char>>, rank_of: spec_fn(Seq<char>) -> usize) -> usize {
    choose|rank: usize| is_required_rank(parents, rank_of, rank)
}

/// Parents require one rank only.
pub proof fn lemma_required_rank_unique(
    parents: Set<Seq<char>>,
    rank_of: spec_fn(Seq<char>) -> usize,
    rank: usize,
)
    requires
        is_required_rank(parents, rank_of, rank),
    ensures
        required_rank(parents, rank_of) == rank,
{
    let other = required_rank(parents, rank_of);
    assert(is_required_rank(parents, rank_of, other));
    if !(parents =~= Set::<Seq<char>>::empty()) {
        let p = choose|parent: Seq<char>|
            #[trigger] parents.contains(parent) && rank == next_usize(rank_of(parent));
        let q = choose|parent: Seq<char>|
            #[trigger] parents.contains(parent) && other == next_usize(rank_of(parent));
        assert(parents.contains(p) && parents.contains(q));
    }
}

/// The middle of the rows in ascending order; the upper middle of an even count.
pub open spec fn median_of(rows: Seq<usize>) -> usize {
    if rows.len() == 0 {
        0
    } else {
        rows.sort_by(|a: usize, b: usize| a <= b)[rows.len() as int / 2]
    }
}

/// The median of rows, given in any order.
fn median_row(rows: &Vec<usize>) -> (row: usize)
    ensures
        row == median_of(rows@),
{
    broadcast use vstd::seq_lib::group_to_multiset_ensures;

    if rows.len() == 0 {
        return 0;
    }
    let ghost leq = |a: usize, b: usize| a <= b;
    let mut sorted: Vec<usize> = Vec::new();
    let mut i: usize = 0;
    proof {
        assert(rows@.take(0) =~= Seq::<usize>::empty());
        assert(sorted@ =~= Seq::<usize>::empty());
    }
    while i < rows.len()
        invariant
            0 <= i <= rows.len(),
            sorted.len() == i,
            leq == (|a: usize, b: usize| a <= b),
            sorted@.to_multiset() == rows@.take(i as int).to_multiset(),
            forall|a: int, b: int| 0 <= a < b < sorted.len() ==> sorted@[a] <= sorted@[b],
        decreases rows.len() - i,
    {
        let row: usize = rows[i];
        let mut place: usize = sorted.len();
        while place > 0 && sorted[place - 1] > row
            invariant
                0 <= place <= sorted.len(),
                forall|a: int| place <= a < sorted.len() ==> row < sorted@[a],
                forall|a: int, b: int| 0 <= a < b < sorted.len() ==> sorted@[a] <= sorted@[b],
            decreases place,
        {
            place = place - 1;
        }
        let ghost before = sorted@;
        sorted.insert(place, row);
        proof {
            vstd::seq_lib::to_multiset_insert(before, place as int, row);
            assert(sorted@ =~= before.insert(place as int, row));
            vstd::seq_lib::to_multiset_build(rows@.take(i as int), row);
            assert(rows@.take(i + 1) =~= rows@.take(i as int).push(row));
        }
        i += 1;
    }
    proof {
        assert(rows@.take(i as int) =~= rows@);
        rows@.lemma_sort_by_ensures(leq);
        assert(vstd::relations::sorted_by(sorted@, leq));
        vstd::seq_lib::lemma_sorted_unique(sorted@, rows@.sort_by(leq), leq);
    }
    sorted[rows.len() / 2]
}

/// Whether `row` is the free row nearest to `desired`: no free row is closer, and of two
/// at the same distance it is the one before.
pub open spec fn is_nearest_free(taken: Set<usize>, desired: usize, row: usize) -> bool {
    &&& !taken.contains(row)
    &&& forall|other: usize|
        #![trigger taken.contains(other)]
        (distance_between(other, desired) < distance_between(row, desired) || (distance_between(
            other,
            desired,
        ) == distance_between(row, desired) && other < row)) ==> taken.contains(other)
}

/// How far two rows are apart.
pub open spec fn distance_between(left: usize, right: usize) -> int {
    if left < right {
        right - left
    } else {
        left - right
    }
}

/// The free row nearest to `desired`.
pub open spec fn nearest_free(taken: Set<usize>, desired: usize) -> usize {
    choose|row: usize| is_nearest_free(taken, desired, row)
}

/// Only one row is the nearest free one.
pub proof fn lemma_nearest_free_unique(taken: Set<usize>, desired: usize, row: usize)
    requires
        is_nearest_free(taken, desired, row),
    ensures
        nearest_free(taken, desired) == row,
{
    let other = nearest_free(taken, desired);
    assert(is_nearest_free(taken, desired, other));
    assert(!taken.contains(row) && !taken.contains(other));
}

/// A finite set that holds every number from `low` up to `high` has as many members.
proof fn lemma_interval_len(set: Set<usize>, low: int, high: int)
    requires
        set.finite(),
        0 <= low <= high <= usize::MAX + 1,
        forall|value: usize| low <= value < high ==> #[trigger] set.contains(value),
    ensures
        set.len() >= high - low,
    decreases high - low,
{
    if low < high {
        let last = (high - 1) as usize;
        assert(set.contains(last));
        lemma_interval_len(set.remove(last), low, high - 1);
    }
}

/// Which node owns which slot of which rank.
#[derive(Debug, Clone)]
struct SlotTable {
    ranks: BTreeMap<usize, BTreeMap<usize, String>>,
}

impl SlotTable {
    spec fn owners(&self) -> Map<(usize, usize), Seq<char>> {
        Map::new(
            |slot: (usize, usize)|
                self.ranks@.contains_key(slot.0) && self.ranks@[slot.0]@.contains_key(slot.1),
            |slot: (usize, usize)| self.ranks@[slot.0]@[slot.1]@,
        )
    }

    /// The rows of a rank that have an owner.
    spec fn taken(&self, rank: usize) -> Set<usize> {
        Set::new(|row: usize| self.owners().contains_key((rank, row)))
    }

    fn new() -> (table: Self)
        ensures
            table.owners() == Map::<(usize, usize), Seq<char>>::empty(),
    {
        let table = SlotTable { ranks: BTreeMap::new() };
        assert(table.owners() =~= Map::<(usize, usize), Seq<char>>::empty());
        table
    }

    fn owner(&self, rank: usize, row: usize) -> (owner: Option<&String>)
        ensures
            match owner {
                Some(id) => self.owners().contains_key((rank, row)) && id@ == self.owners()[(rank, row)],
                None => !self.owners().contains_key((rank, row)),
            },
    {
        match self.ranks.get(&rank) {
            Some(rows) => rows.get(&row),
            None => None,
        }
    }

    fn occupy(&mut self, rank: usize, row: usize, owner: String)
        ensures
            final(self).owners() == old(self).owners().insert((rank, row), owner@),
    {
        let mut rows = match self.ranks.remove(&rank) {
            Some(rows) => rows,
            None => BTreeMap::new(),
        };
        rows.insert(row, owner);
        self.ranks.insert(rank, rows);
        assert(self.owners() =~= old(self).owners().insert((rank, row), owner@));
    }

    fn nearest_free_row(&self, rank: usize, desired: usize) -> (row: usize)
        ensures
            row == nearest_free(self.taken(rank), desired),
            !self.owners().contains_key((rank, row)),
    {
        let rows = match self.ranks.get(&rank) {
            Some(rows) => rows,
            None => {
                proof {
                    lemma_nearest_free_unique(self.taken(rank), desired, desired);
                }
                return desired;
            },
        };
        let ghost taken = self.taken(rank);
        assert(taken =~= rows@.dom());
        let count: usize = rows.len();
        let mut distance: usize = 0;
        while distance <= count
            invariant
                taken == rows@.dom(),
                taken.finite(),
                taken == self.taken(rank),
                taken.len() == count,
                forall|other: usize|
                    distance_between(other, desired) < distance ==> #[trigger] taken.contains(other),
            decreases usize::MAX - distance,
        {
            if distance <= desired && !rows.contains_key(&(desired - distance)) {
                let row: usize = desired - distance;
                proof {
                    lemma_nearest_free_unique(taken, desired, row);
                }
                return row;
            }
            if distance > 0 && distance <= usize::MAX - desired && !rows.contains_key(
                &(desired + distance),
            ) {
                let row: usize = desired + distance;
                proof {
                    assert forall|other: usize|
                        (distance_between(other, desired) < distance_between(row, desired) || (
                        distance_between(other, desired) == distance_between(row, desired) && other
                            < row)) implies #[trigger] taken.contains(other) by {
                        if distance_between(other, desired) == distance {
                            assert(other == desired - distance);
                        }
                    }
                    lemma_nearest_free_unique(taken, desired, row);
                }
                return row;
            }
            proof {
                assert forall|other: usize| distance_between(other, desired) < distance + 1 implies
                    #[trigger] taken.contains(other) by {
                    if distance_between(other, desired) == distance {
                        assert(other == desired - distance || other == desired + distance);
                    }
                }
                if distance == usize::MAX {
                    assert(forall|other: usize| #[trigger] taken.contains(other));
                    lemma_interval_len(taken, 0, usize::MAX + 1);
                }
            }
            distance = distance + 1;
        }
        proof {
            let low: int = if desired >= count { desired - count } else { 0 };
            let high: int = if desired + count < usize::MAX {
                desired + count + 1
            } else {
                usize::MAX + 1
            };
            lemma_interval_len(taken, low, high);
            assert(false);
        }
        desired
    }
}

/// The point of an index along one axis.
pub open spec fn coordinate_of(padding: i32, index: usize, step: i32) -> i32 {
    let bounded = if index > i32::MAX {
        i32::MAX as int
    } else {
        index as int
    };
    saturate_i32(padding + saturate_i32(bounded * step))
}

fn coordinate(padding: i32, index: usize, step: i32) -> (position: i32)
    ensures
        position == coordinate_of(padding, index, step),
{
    let bounded: i32 = if index > 2147483647 {
        i32::MAX
    } else {
        index as i32
    };
    saturating_sum(padding, saturating_product(bounded, step))
}

/// The point of a slot.
pub open spec fn slot_point(config: StableLayoutConfig, rank: usize, row: usize) -> LayoutPoint {
    LayoutPoint {
        x: coordinate_of(config.padding, rank, config.rank_step),
        y: coordinate_of(config.padding, row, config.row_step),
    }
}

/// What a stable layout holds: the placements of the nodes in use and of those retired.
#[verifier::ext_equal]
pub struct StableLayoutView {
    pub config: StableLayoutConfig,
    pub active: Map<Seq<char>, PlacementView>,
    pub tombstones: Map<Seq<char>, PlacementView>,
}

impl StableLayoutView {
    /// Whether a node has a slot, in use or retired.
    pub open spec fn is_placed(self, node_id: Seq<char>) -> bool {
        self.active.contains_key(node_id) || self.tombstones.contains_key(node_id)
    }

    /// The placement of a node that has one.
    pub open spec fn placement(self, node_id: Seq<char>) -> PlacementView {
        if self.active.contains_key(node_id) {
            self.active[node_id]
        } else {
            self.tombstones[node_id]
        }
    }

    /// Whether a node owns a slot.
    pub open spec fn owns(self, node_id: Seq<char>, rank: usize, row: usize) -> bool {
        &&& self.is_placed(node_id)
        &&& self.placement(node_id).rank == rank
        &&& self.placement(node_id).row == row
    }

    /// The rows of a rank that some node owns.
    pub open spec fn taken_rows(self, rank: usize) -> Set<usize> {
        Set::new(|row: usize| exists|node_id: Seq<char>| self.owns(node_id, rank, row))
    }

    /// Placements are kept under their own ids, no node is both in use and retired, and
    /// no two nodes own one slot.
    pub open spec fn consistent(self) -> bool {
        &&& forall|id: Seq<char>| #[trigger]
            self.active.contains_key(id) ==> self.active[id].node_id == id
                && !self.tombstones.contains_key(id)
        &&& forall|id: Seq<char>| #[trigger]
            self.tombstones.contains_key(id) ==> self.tombstones[id].node_id == id
        &&& forall|a: Seq<char>, b: Seq<char>|
            #[trigger] self.is_placed(a) && #[trigger] self.is_placed(b) && self.placement(a).rank
                == self.placement(b).rank && self.placement(a).row == self.placement(b).row ==> a == b
    }

    /// The first parent, in text order, that has no slot.
    pub open spec fn is_first_missing(self, parents: Set<Seq<char>>, parent: Seq<char>) -> bool {
        &&& parents.contains(parent)
        &&& !self.is_placed(parent)
        &&& forall|other: Seq<char>| #[trigger]
            parents.contains(other) && !self.is_placed(other) ==> other == parent || text_lt(
                parent,
                other,
            )
    }

    /// The rank that the parents require.
    pub open spec fn required_rank(self, parents: Set<Seq<char>>) -> usize {
        required_rank(parents, |parent: Seq<char>| self.placement(parent).rank)
    }

    /// The rows of the parents, in text order of their ids.
    pub open spec fn parent_rows(self, parents: Set<Seq<char>>) -> Seq<usize> {
        sorted_texts(parents).map_values(|parent: Seq<char>| self.placement(parent).row)
    }

    /// The placement that a new node with the given parents gets.
    pub open spec fn new_placement(self, node_id: Seq<char>, parents: Set<Seq<char>>) -> PlacementView {
        let rank = self.required_rank(parents);
        let row = nearest_free(self.taken_rows(rank), median_of(self.parent_rows(parents)));
        PlacementView { node_id, rank, row, point: slot_point(self.config, rank, row) }
    }

    /// Adds a placement in use.
    pub open spec fn with_active(self, placement: PlacementView) -> StableLayoutView {
        StableLayoutView { active: self.active.insert(placement.node_id, placement), ..self }
    }

    /// Adds a retired placement.
    pub open spec fn with_tombstone(self, placement: PlacementView) -> StableLayoutView {
        StableLayoutView { tombstones: self.tombstones.insert(placement.node_id, placement), ..self }
    }

    /// Brings a node back into use at its own slot.
    pub open spec fn revived(self, node_id: Seq<char>) -> StableLayoutView {
        if self.tombstones.contains_key(node_id) {
            StableLayoutView {
                active: self.active.insert(node_id, self.tombstones[node_id]),
                tombstones: self.tombstones.remove(node_id),
                ..self
            }
        } else {
            self
        }
    }

    /// Retires a node in use; its slot stays its own.
    pub open spec fn retired(self, node_id: Seq<char>) -> StableLayoutView {
        StableLayoutView {
            active: self.active.remove(node_id),
            tombstones: self.tombstones.insert(node_id, self.active[node_id]),
            ..self
        }
    }

    /// What placing a ready node does: the layout afterwards, and the placement or the
    /// reason that there is none.
    pub open spec fn placing(self, node_id: Seq<char>, parents: Set<Seq<char>>) -> (
        StableLayoutView,
        Result<PlacementView, StableLayoutErrorView>,
    ) {
        if exists|parent: Seq<char>| self.is_first_missing(parents, parent) {
            let parent_id = choose|parent: Seq<char>| self.is_first_missing(parents, parent);
            (self, Err(StableLayoutErrorView::MissingParent { node_id, parent_id }))
        } else if self.is_placed(node_id) {
            let current = self.placement(node_id);
            let required = self.required_rank(parents);
            if current.rank < required {
                (
                    self,
                    Err(
                        StableLayoutErrorView::ExistingRankTooLow {
                            node_id,
                            current_rank: current.rank,
                            required_rank: required,
                        },
                    ),
                )
            } else {
                (self.revived(node_id), Ok(current))
            }
        } else {
            let placement = self.new_placement(node_id, parents);
            (self.with_active(placement), Ok(placement))
        }
    }

    /// What placing a list of ready nodes does: each in turn, up to the first failure.
    pub open spec fn placing_all(self, nodes: Seq<ReadyNode>) -> (
        StableLayoutView,
        Result<Seq<PlacementView>, StableLayoutErrorView>,
    )
        decreases nodes.len(),
    {
        if nodes.len() == 0 {
            (self, Ok(Seq::empty()))
        } else {
            let (layout, placements) = self.placing_all(nodes.drop_last());
            match placements {
                Err(error) => (layout, Err(error)),
                Ok(before) => {
                    let (after, placement) = layout.placing(
                        nodes.last().node_id@,
                        nodes.last().parents(),
                    );
                    match placement {
                        Err(error) => (after, Err(error)),
                        Ok(last) => (after, Ok(before.push(last))),
                    }
                },
            }
        }
    }

    /// What restoring a known placement does.
    pub open spec fn restoring(self, placement: PlacementView, tombstone: bool) -> (
        StableLayoutView,
        Result<(), StableLayoutErrorView>,
    ) {
        let node_id = placement.node_id;
        if self.is_placed(node_id) {
            if self.placement(node_id) == placement && self.tombstones.contains_key(node_id)
                == tombstone {
                (self, Ok(()))
            } else {
                (self, Err(StableLayoutErrorView::DuplicateNode { node_id }))
            }
        } else if exists|id: Seq<char>| self.owns(id, placement.rank, placement.row) {
            let owner = choose|id: Seq<char>| self.owns(id, placement.rank, placement.row);
            (
                self,
                Err(
                    StableLayoutErrorView::SlotOccupied {
                        rank: placement.rank,
                        row: placement.row,
                        owner,
                    },
                ),
            )
        } else if tombstone {
            (self.with_tombstone(placement), Ok(()))
        } else {
            (self.with_active(placement), Ok(()))
        }
    }
}

/// A failure among the first nodes is the outcome for the whole list.
proof fn lemma_placing_all_stops(layout: StableLayoutView, nodes: Seq<ReadyNode>, count: int)
    requires
        0 <= count <= nodes.len(),
        layout.placing_all(nodes.take(count)).1 is Err,
    ensures
        layout.placing_all(nodes) == layout.placing_all(nodes.take(count)),
    decreases nodes.len() - count,
{
    if count < nodes.len() {
        assert(nodes.take(count + 1).drop_last() =~= nodes.take(count));
        lemma_placing_all_stops(layout, nodes, count + 1);
    } else {
        assert(nodes.take(count) =~= nodes);
    }
}

/// The outcome of a call with its texts as characters.
pub open spec fn outcome_view<T: View>(outcome: Result<T, StableLayoutError>) -> Result<
    T::V,
    StableLayoutErrorView,
> {
    match outcome {
        Ok(value) => Ok(value@),
        Err(error) => Err(error@),
    }
}

/// A layered layout in which placed nodes never move.
#[derive(Debug, Clone)]
pub struct StableDagLayout {
    config: StableLayoutConfig,
    active: TextMap<NodePlacement>,
    tombstones: TextMap<NodePlacement>,
    occupied: SlotTable,
}

/// The placements of a map with their texts as characters.
spec fn placement_views(placements: Map<Seq<char>, NodePlacement>) -> Map<Seq<char>, PlacementView> {
    placements.map_values(|placement: NodePlacement| placement@)
}

impl View for StableDagLayout {
    type V = StableLayoutView;

    closed spec fn view(&self) -> StableLayoutView {
        StableLayoutView {
            config: self.config,
            active: placement_views(self.active@),
            tombstones: placement_views(self.tombstones@),
        }
    }
}

impl StableDagLayout {
    /// The placements are consistent, and the slot table holds exactly their slots.
    pub closed spec fn wf(&self) -> bool {
        &&& self.active.wf()
        &&& self.tombstones.wf()
        &&& self@.consistent()
        &&& forall|id: Seq<char>| #[trigger]
            self@.is_placed(id) ==> self.occupied.owners().contains_key(
                (self@.placement(id).rank, self@.placement(id).row),
            )
        &&& forall|slot: (usize, usize)| #[trigger]
            self.occupied.owners().contains_key(slot) ==> self@.owns(
                self.occupied.owners()[slot],
                slot.0,
                slot.1,
            )
    }

    /// No two nodes of a layout own one slot, and there are finitely many nodes.
    pub proof fn lemma_consistent(&self)
        requires
            self.wf(),
        ensures
            self@.consistent(),
            self@.active.dom().finite(),
            self@.tombstones.dom().finite(),
    {
        self.active.lemma_keys();
        self.tombstones.lemma_keys();
        assert(self@.active.dom() =~= self.active@.dom());
        assert(self@.tombstones.dom() =~= self.tombstones@.dom());
    }

    /// The slot table tells which rows are taken.
    proof fn lemma_taken(&self, rank: usize)
        requires
            self.wf(),
        ensures
            self.occupied.taken(rank) == self@.taken_rows(rank),
    {
        assert forall|row: usize| self.occupied.taken(rank).contains(row)
            <==> self@.taken_rows(rank).contains(row) by {
            if self.occupied.taken(rank).contains(row) {
                assert(self@.owns(self.occupied.owners()[(rank, row)], rank, row));
            }
            if self@.taken_rows(rank).contains(row) {
                let id = choose|id: Seq<char>| self@.owns(id, rank, row);
                assert(self@.is_placed(id));
            }
        }
        assert(self.occupied.taken(rank) =~= self@.taken_rows(rank));
    }

    /// An empty layout.
    pub fn new(config: StableLayoutConfig) -> (layout: Self)
        ensures
            layout.wf(),
            layout@ == (StableLayoutView { config, active: Map::empty(), tombstones: Map::empty() }),
    {
        let layout = StableDagLayout {
            config,
            active: TextMap::new(),
            tombstones: TextMap::new(),
            occupied: SlotTable::new(),
        };
        assert(layout@.active =~= Map::<Seq<char>, PlacementView>::empty());
        assert(layout@.tombstones =~= Map::<Seq<char>, PlacementView>::empty());
        layout
    }

    /// The distances of this layout.
    pub fn config(&self) -> (config: StableLayoutConfig)
        ensures
            config == self@.config,
    {
        self.config
    }

    /// Takes over a node in use from an earlier build.
    pub fn restore_active(&mut self, placement: NodePlacement) -> (outcome: Result<
        (),
        StableLayoutError,
    >)
        requires
            old(self).wf(),
        ensures
            final(self).wf(),
            (final(self)@, outcome_view(outcome)) == old(self)@.restoring(placement@, false),
    {
        self.restore_placement(placement, false)
    }

    /// Takes over a retired node from an earlier build.
    pub fn restore_tombstone(&mut self, placement: NodePlacement) -> (outcome: Result<
        (),
        StableLayoutError,
    >)
        requires
            old(self).wf(),
        ensures
            final(self).wf(),
            (final(self)@, outcome_view(outcome)) == old(self)@.restoring(placement@, true),
    {
        self.restore_placement(placement, true)
    }

    /// The placement of a node, in use or retired.
    pub fn placement(&self, node_id: &str) -> (placement: Option<&NodePlacement>)
        requires
            self.wf(),
        ensures
            match placement {
                Some(found) => self@.is_placed(node_id@) && found@ == self@.placement(node_id@),
                None => !self@.is_placed(node_id@),
            },
    {
        match self.active.get(node_id) {
            Some(placement) => Some(placement),
            None => self.tombstones.get(node_id),
        }
    }

    /// The placement of a node in use.
    pub fn active_placement(&self, node_id: &str) -> (placement: Option<&NodePlacement>)
        requires
            self.wf(),
        ensures
            match placement {
                Some(found) => self@.active.contains_key(node_id@) && found@ == self@.active[node_id@],
                None => !self@.active.contains_key(node_id@),
            },
    {
        self.active.get(node_id)
    }

    /// Whether a node is retired.
    pub fn is_tombstone(&self, node_id: &str) -> (retired: bool)
        requires
            self.wf(),
        ensures
            retired == self@.tombstones.contains_key(node_id@),
    {
        self.tombstones.contains_key(node_id)
    }

    /// Gives a ready node its slot: the one it already has, or the free slot nearest to the
    /// median row of its parents in the rank behind them.
    pub fn place_ready(&mut self, node: ReadyNode) -> (outcome: Result<
        NodePlacement,
        StableLayoutError,
    >)
        requires
            old(self).wf(),
        ensures
            final(self).wf(),
            (final(self)@, outcome_view(outcome)) == old(self)@.placing(node.node_id@, node.parents()),
    {
        self.place(node.node_id.as_str(), &node.parent_ids)
    }

    fn place(&mut self, node_id: &str, parent_ids: &Vec<String>) -> (outcome: Result<
        NodePlacement,
        StableLayoutError,
    >)
        requires
            old(self).wf(),
        ensures
            final(self).wf(),
            (final(self)@, outcome_view(outcome)) == old(self)@.placing(
                node_id@,
                texts(parent_ids@).to_set(),
            ),
    {
        let parents = TextSet::from_list(parent_ids);
        let ghost rank_of = |parent: Seq<char>| self@.placement(parent).rank;
        proof {
            parents.lemma_sequence();
        }
        let mut rows: Vec<usize> = Vec::new();
        let mut required: usize = 0;
        let mut i: usize = 0;
        while i < parents.len()
            invariant
                self.wf(),
                *self == *old(self),
                parents.wf(),
                parents@ == texts(parent_ids@).to_set(),
                parents.sequence() == sorted_texts(parents@),
                crate::ordered::strictly_sorted(parents.sequence()),
                forall|k: Seq<char>| #[trigger] parents@.contains(k) <==> parents.sequence().contains(k),
                rank_of == (|parent: Seq<char>| self@.placement(parent).rank),
                0 <= i <= parents.sequence().len(),
                rows.len() == i,
                forall|j: int| 0 <= j < i ==> self@.is_placed(#[trigger] parents.sequence()[j]),
                forall|j: int|
                    #![trigger parents.sequence()[j]]
                    0 <= j < i ==> rows@[j] == self@.placement(parents.sequence()[j]).row && next_usize(
                        rank_of(parents.sequence()[j]),
                    ) <= required,
                i == 0 ==> required == 0,
                i > 0 ==> exists|j: int|
                    0 <= j < i && required == next_usize(rank_of(#[trigger] parents.sequence()[j])),
            decreases parents.sequence().len() - i,
        {
            let parent_id = parents.at(i);
            match self.placement(parent_id.as_str()) {
                Some(parent) => {
                    let ghost previous = required;
                    let next: usize = parent.rank.saturating_add(1);
                    assert(next == next_usize(rank_of(parents.sequence()[i as int])));
                    if required <= next {
                        required = next;
                    }
                    rows.push(parent.row);
                    proof {
                        if i > 0 && required == previous {
                            let j = choose|j: int|
                                0 <= j < i && previous == next_usize(
                                    rank_of(#[trigger] parents.sequence()[j]),
                                );
                            assert(0 <= j < i + 1 && required == next_usize(
                                rank_of(parents.sequence()[j]),
                            ));
                        }
                    }
                },
                None => {
                    proof {
                        let missing = parents.sequence()[i as int];
                        assert(parents.sequence().contains(missing));
                        assert forall|other: Seq<char>|
                            #[trigger] parents@.contains(other) && !self@.is_placed(other) implies other
                            == missing || text_lt(missing, other) by {
                            let n = parents.sequence().index_of(other);
                            assert(parents.sequence()[n] == other);
                        }
                        assert(self@.is_first_missing(parents@, missing));
                        let chosen = choose|parent: Seq<char>|
                            self@.is_first_missing(parents@, parent);
                        if chosen != missing {
                            assert(text_lt(missing, chosen) && text_lt(chosen, missing));
                            crate::text::lemma_text_lt_asymmetric(missing, chosen);
                        }
                    }
                    return Err(
                        StableLayoutError::MissingParent {
                            node_id: node_id.to_owned(),
                            parent_id: parent_id.clone(),
                        },
                    );
                },
            }
            i += 1;
        }
        proof {
            assert forall|parent: Seq<char>| #[trigger] parents@.contains(parent) implies self@.is_placed(
                parent,
            ) && next_usize(rank_of(parent)) <= required by {
                let n = parents.sequence().index_of(parent);
                assert(parents.sequence()[n] == parent);
            }
            if i > 0 {
                let j = choose|j: int|
                    0 <= j < i && required == next_usize(rank_of(#[trigger] parents.sequence()[j]));
                assert(parents.sequence().contains(parents.sequence()[j]));
                assert(parents@.contains(parents.sequence()[j]));
            } else {
                assert(parents@ =~= Set::<Seq<char>>::empty());
            }
            assert(is_required_rank(parents@, rank_of, required));
            lemma_required_rank_unique(parents@, rank_of, required);
            assert(!exists|parent: Seq<char>| self@.is_first_missing(parents@, parent));
        }
        let found = match self.placement(node_id) {
            Some(existing) => Some(existing.clone()),
            None => None,
        };
        if let Some(existing) = found {
            if existing.rank < required {
                return Err(
                    StableLayoutError::ExistingRankTooLow {
                        node_id: node_id.to_owned(),
                        current_rank: existing.rank,
                        required_rank: required,
                    },
                );
            }
            if let Some(_) = self.tombstones.remove(node_id) {
                self.active.insert(node_id.to_owned(), existing.clone());
            }
            proof {
                let before = old(self)@;
                assert(self@ =~= before.revived(node_id@));
                assert forall|id: Seq<char>| #[trigger] self@.is_placed(id) <==> before.is_placed(id) by {}
                assert forall|id: Seq<char>| #[trigger] self@.is_placed(id) implies self@.placement(id)
                    == before.placement(id) by {
                    assert(before.is_placed(id));
                }
                assert forall|slot: (usize, usize)| #[trigger]
                    self.occupied.owners().contains_key(slot) implies self@.owns(
                    self.occupied.owners()[slot],
                    slot.0,
                    slot.1,
                ) by {
                    let owner = self.occupied.owners()[slot];
                    assert(before.owns(owner, slot.0, slot.1));
                    assert(self@.is_placed(owner));
                }
            }
            return Ok(existing);
        }
        let desired: usize = median_row(&rows);
        let row: usize = self.occupied.nearest_free_row(required, desired);
        proof {
            assert(rows@ =~= self@.parent_rows(parents@));
            self.lemma_taken(required);
        }
        let placement = NodePlacement {
            node_id: node_id.to_owned(),
            rank: required,
            row,
            point: LayoutPoint {
                x: coordinate(self.config.padding, required, self.config.rank_step),
                y: coordinate(self.config.padding, row, self.config.row_step),
            },
        };
        self.occupied.occupy(required, row, node_id.to_owned());
        self.active.insert(node_id.to_owned(), placement.clone());
        proof {
            self.lemma_added(*old(self), placement@);
            assert(self@ =~= old(self)@.with_active(placement@));
        }
        Ok(placement)
    }

    /// Adding a placement at a free slot, in use or retired, keeps the layout consistent.
    proof fn lemma_added(self, before: Self, placement: PlacementView)
        requires
            before.wf(),
            self.active.wf(),
            self.tombstones.wf(),
            !before@.is_placed(placement.node_id),
            !before.occupied.owners().contains_key((placement.rank, placement.row)),
            self.occupied.owners() == before.occupied.owners().insert(
                (placement.rank, placement.row),
                placement.node_id,
            ),
            self@ =~= before@.with_active(placement) || self@ =~= before@.with_tombstone(placement),
        ensures
            self.wf(),
    {
        assert forall|id: Seq<char>| #[trigger] self@.is_placed(id) implies (if id == placement.node_id {
            self@.placement(id) == placement
        } else {
            before@.is_placed(id) && self@.placement(id) == before@.placement(id)
        }) by {}
        assert forall|a: Seq<char>, b: Seq<char>|
            #[trigger] self@.is_placed(a) && #[trigger] self@.is_placed(b) && self@.placement(a).rank
                == self@.placement(b).rank && self@.placement(a).row == self@.placement(b).row implies a
            == b by {}
        assert forall|slot: (usize, usize)| #[trigger] self.occupied.owners().contains_key(slot) implies self@.owns(
            self.occupied.owners()[slot],
            slot.0,
            slot.1,
        ) by {
            if slot != (placement.rank, placement.row) {
                let owner = before.occupied.owners()[slot];
                assert(before@.owns(owner, slot.0, slot.1));
                assert(self@.is_placed(owner));
            } else {
                assert(self@.is_placed(placement.node_id));
            }
        }
    }

    /// Places ready nodes in the given order and stops at the first failure; what was
    /// placed before it stays.
    pub fn place_ready_batch(&mut self, nodes: Vec<ReadyNode>) -> (outcome: Result<
        Vec<NodePlacement>,
        StableLayoutError,
    >)
        requires
            old(self).wf(),
        ensures
            final(self).wf(),
            final(self)@ == old(self)@.placing_all(nodes@).0,
            match outcome {
                Ok(placements) => old(self)@.placing_all(nodes@).1 == Ok::<
                    Seq<PlacementView>,
                    StableLayoutErrorView,
                >(placements@.map_values(|placement: NodePlacement| placement@)),
                Err(error) => old(self)@.placing_all(nodes@).1 == Err::<
                    Seq<PlacementView>,
                    StableLayoutErrorView,
                >(error@),
            },
    {
        let mut placements: Vec<NodePlacement> = Vec::new();
        let mut i: usize = 0;
        proof {
            assert(nodes@.take(0) =~= Seq::<ReadyNode>::empty());
            assert(placements@.map_values(|placement: NodePlacement| placement@) =~= Seq::<
                PlacementView,
            >::empty());
        }
        while i < nodes.len()
            invariant
                0 <= i <= nodes.len(),
                self.wf(),
                old(self)@.placing_all(nodes@.take(i as int)) == (
                    self@,
                    Ok::<Seq<PlacementView>, StableLayoutErrorView>(
                        placements@.map_values(|placement: NodePlacement| placement@),
                    ),
                ),
            decreases nodes.len() - i,
        {
            let ghost before = placements@;
            proof {
                assert(nodes@.take(i + 1).drop_last() =~= nodes@.take(i as int));
                assert(nodes@.take(i + 1).last() == nodes@[i as int]);
            }
            match self.place(nodes[i].node_id.as_str(), &nodes[i].parent_ids) {
                Ok(placement) => {
                    placements.push(placement);
                    assert(placements@.map_values(|placement: NodePlacement| placement@)
                        =~= before.map_values(|placement: NodePlacement| placement@).push(placement@));
                },
                Err(error) => {
                    proof {
                        lemma_placing_all_stops(old(self)@, nodes@, i + 1);
                    }
                    return Err(error);
                },
            }
            i += 1;
        }
        assert(nodes@.take(i as int) =~= nodes@);
        Ok(placements)
    }

    /// Retires a node in use. Its slot stays reserved for it.
    pub fn retire(&mut self, node_id: &str) -> (placement: Option<NodePlacement>)
        requires
            old(self).wf(),
        ensures
            final(self).wf(),
            match placement {
                Some(found) => {
                    &&& old(self)@.active.contains_key(node_id@)
                    &&& found@ == old(self)@.active[node_id@]
                    &&& final(self)@ == old(self)@.retired(node_id@)
                },
                None => !old(self)@.active.contains_key(node_id@) && final(self)@ == old(self)@,
            },
    {
        match self.active.remove(node_id) {
            None => {
                assert(self@ =~= old(self)@);
                None
            },
            Some(placement) => {
                self.tombstones.insert(node_id.to_owned(), placement.clone());
                proof {
                    let before = old(self)@;
                    assert(self@ =~= before.retired(node_id@));
                    assert forall|id: Seq<char>| #[trigger] self@.is_placed(id) implies before.is_placed(
                        id,
                    ) && self@.placement(id) == before.placement(id) by {}
                    assert forall|a: Seq<char>, b: Seq<char>|
                        #[trigger] self@.is_placed(a) && #[trigger] self@.is_placed(b) && self@.placement(
                            a,
                        ).rank == self@.placement(b).rank && self@.placement(a).row == self@.placement(
                            b,
                        ).row implies a == b by {
                        assert(before.is_placed(a) && before.is_placed(b));
                    }
                    assert(before.active.contains_key(node_id@));
                    assert forall|id: Seq<char>| #[trigger] self@.active.contains_key(id) implies self@.active[id].node_id
                        == id && !self@.tombstones.contains_key(id) by {
                        assert(before.active.contains_key(id));
                    }
                    assert forall|id: Seq<char>| #[trigger] self@.tombstones.contains_key(
                        id,
                    ) implies self@.tombstones[id].node_id == id by {
                        if id != node_id@ {
                            assert(before.tombstones.contains_key(id));
                        }
                    }
                    assert(self@.consistent());
                    assert forall|slot: (usize, usize)| #[trigger]
                        self.occupied.owners().contains_key(slot) implies self@.owns(
                        self.occupied.owners()[slot],
                        slot.0,
                        slot.1,
                    ) by {
                        let owner = self.occupied.owners()[slot];
                        assert(before.owns(owner, slot.0, slot.1));
                        assert(self@.is_placed(owner));
                    }
                }
                Some(placement)
            },
        }
    }

    /// The nodes in use, in text order of their ids.
    pub fn active_nodes(&self) -> (nodes: Vec<NodePlacement>)
        requires
            self.wf(),
        ensures
            nodes@.map_values(|placement: NodePlacement| placement@) == sorted_texts(
                self@.active.dom(),
            ).map_values(|id: Seq<char>| self@.active[id]),
            lists_placements(
                nodes@.map_values(|placement: NodePlacement| placement@),
                self@.active,
            ),
    {
        let nodes = all_values(&self.active);
        proof {
            self.active.lemma_keys();
            crate::ordered::lemma_sorted_texts(self.active.keys());
        }
        assert(self@.active.dom() =~= self.active@.dom());
        assert(nodes@.map_values(|placement: NodePlacement| placement@) =~= sorted_texts(
            self@.active.dom(),
        ).map_values(|id: Seq<char>| self@.active[id]));
        proof {
            lemma_listed(
                nodes@.map_values(|placement: NodePlacement| placement@),
                self@.active,
                self.active.keys(),
            );
        }
        nodes
    }

    /// The retired nodes, in text order of their ids.
    pub fn tombstones(&self) -> (nodes: Vec<NodePlacement>)
        requires
            self.wf(),
        ensures
            nodes@.map_values(|placement: NodePlacement| placement@) == sorted_texts(
                self@.tombstones.dom(),
            ).map_values(|id: Seq<char>| self@.tombstones[id]),
            lists_placements(
                nodes@.map_values(|placement: NodePlacement| placement@),
                self@.tombstones,
            ),
    {
        let nodes = all_values(&self.tombstones);
        proof {
            self.tombstones.lemma_keys();
            crate::ordered::lemma_sorted_texts(self.tombstones.keys());
        }
        assert(self@.tombstones.dom() =~= self.tombstones@.dom());
        assert(nodes@.map_values(|placement: NodePlacement| placement@) =~= sorted_texts(
            self@.tombstones.dom(),
        ).map_values(|id: Seq<char>| self@.tombstones[id]));
        proof {
            lemma_listed(
                nodes@.map_values(|placement: NodePlacement| placement@),
                self@.tombstones,
                self.tombstones.keys(),
            );
        }
        nodes
    }

    fn restore_placement(&mut self, placement: NodePlacement, tombstone: bool) -> (outcome: Result<
        (),
        StableLayoutError,
    >)
        requires
            old(self).wf(),
        ensures
            final(self).wf(),
            (final(self)@, outcome_view(outcome)) == old(self)@.restoring(placement@, tombstone),
    {
        if let Some(existing) = self.placement(placement.node_id.as_str()) {
            if existing.same_as(&placement) && self.is_tombstone(placement.node_id.as_str())
                == tombstone {
                return Ok(());
            }
            return Err(StableLayoutError::DuplicateNode { node_id: placement.node_id });
        }
        if let Some(owner) = self.occupied.owner(placement.rank, placement.row) {
            proof {
                assert(self@.owns(owner@, placement.rank, placement.row));
                let chosen = choose|id: Seq<char>| self@.owns(id, placement.rank, placement.row);
                assert(self@.is_placed(owner@) && self@.is_placed(chosen));
            }
            return Err(
                StableLayoutError::SlotOccupied {
                    rank: placement.rank,
                    row: placement.row,
                    owner: owner.clone(),
                },
            );
        }
        proof {
            assert forall|id: Seq<char>| !self@.owns(id, placement.rank, placement.row) by {
                if self@.owns(id, placement.rank, placement.row) {
                    assert(self@.is_placed(id));
                }
            }
        }
        let ghost added = placement@;
        self.occupied.occupy(placement.rank, placement.row, placement.node_id.clone());
        if tombstone {
            self.tombstones.insert(placement.node_id.clone(), placement);
            assert(self@ =~= old(self)@.with_tombstone(added));
        } else {
            self.active.insert(placement.node_id.clone(), placement);
            assert(self@ =~= old(self)@.with_active(added));
        }
        proof {
            self.lemma_added(*old(self), added);
        }
        Ok(())
    }
}

/// Whether a list holds every placement of a map once, in text order of the ids.
pub open spec fn lists_placements(
    list: Seq<PlacementView>,
    placements: Map<Seq<char>, PlacementView>,
) -> bool {
    &&& strictly_sorted(list.map_values(|placement: PlacementView| placement.node_id))
    &&& forall|placement: PlacementView| #[trigger]
        list.contains(placement) <==> placements.contains_key(placement.node_id)
            && placements[placement.node_id] == placement
    &&& list.len() == placements.dom().len()
}

proof fn lemma_listed(
    list: Seq<PlacementView>,
    placements: Map<Seq<char>, PlacementView>,
    keys: Seq<Seq<char>>,
)
    requires
        strictly_sorted(keys),
        keys.to_set() == placements.dom(),
        list == keys.map_values(|id: Seq<char>| placements[id]),
        forall|id: Seq<char>| #[trigger]
            placements.contains_key(id) ==> placements[id].node_id == id,
    ensures
        lists_placements(list, placements),
{
    assert forall|i: int| 0 <= i < keys.len() implies placements.contains_key(#[trigger] keys[i]) by {
        assert(keys.to_set().contains(keys[i]));
    }
    assert(list.map_values(|placement: PlacementView| placement.node_id) =~= keys);
    assert forall|placement: PlacementView| #[trigger] list.contains(placement)
        <==> placements.contains_key(placement.node_id) && placements[placement.node_id]
        == placement by {
        if list.contains(placement) {
            let n = list.index_of(placement);
            assert(placements.contains_key(keys[n]));
        }
        if placements.contains_key(placement.node_id) && placements[placement.node_id] == placement {
            assert(keys.to_set().contains(placement.node_id));
            let n = keys.index_of(placement.node_id);
            assert(list[n] == placement);
        }
    }
    crate::ordered::lemma_strictly_sorted_no_duplicates(keys);
    keys.unique_seq_to_set();
}

/// The values of a map, in text order of their keys.
fn all_values(placements: &TextMap<NodePlacement>) -> (values: Vec<NodePlacement>)
    requires
        placements.wf(),
    ensures
        values@ == sorted_texts(placements@.dom()).map_values(|id: Seq<char>| placements@[id]),
{
    let mut values: Vec<NodePlacement> = Vec::new();
    let mut i: usize = 0;
    while i < placements.len()
        invariant
            0 <= i <= placements.keys().len(),
            placements.wf(),
            values.len() == i,
            forall|j: int| 0 <= j < i ==> values@[j] == placements@[#[trigger] placements.keys()[j]],
        decreases placements.keys().len() - i,
    {
        values.push(placements.value_at(i).clone());
        i += 1;
    }
    proof {
        placements.lemma_keys();
        crate::ordered::lemma_sorted_texts(placements.keys());
        assert(values@ =~= sorted_texts(placements@.dom()).map_values(
            |id: Seq<char>| placements@[id],
        ));
    }
    values
}

impl Default for StableDagLayout {
    fn default() -> (layout: Self)
        ensures
            layout.wf(),
            layout@ == (StableLayoutView {
                config: default_config(),
                active: Map::empty(),
                tombstones: Map::empty(),
            }),
    {
        StableDagLayout::new(StableLayoutConfig::default())
    }
}

/// Whether `slot` is the lowest number that is not taken.
pub open spec fn is_first_free(taken: Set<usize>, slot: usize) -> bool {
    !taken.contains(slot) && forall|lower: usize| lower < slot ==> #[trigger] taken.contains(lower)
}

/// The lowest number that is not taken.
pub open spec fn first_free(taken: Set<usize>) -> usize {
    choose|slot: usize| is_first_free(taken, slot)
}

/// Only one slot is the first free one.
pub proof fn lemma_first_free_unique(taken: Set<usize>, slot: usize)
    requires
        is_first_free(taken, slot),
    ensures
        first_free(taken) == slot,
{
    let other = first_free(taken);
    assert(is_first_free(taken, other));
    assert(!taken.contains(slot) && !taken.contains(other));
}

/// Which edge owns which slot of which endpoint, on one side of the edges.
#[derive(Debug, Clone)]
struct PortTable {
    endpoints: TextMap<BTreeMap<usize, String>>,
}

impl PortTable {
    spec fn wf(&self) -> bool {
        self.endpoints.wf()
    }

    spec fn owners(&self) -> Map<(Seq<char>, usize), Seq<char>> {
        Map::new(
            |port: (Seq<char>, usize)|
                self.endpoints@.contains_key(port.0) && self.endpoints@[port.0]@.contains_key(port.1),
            |port: (Seq<char>, usize)| self.endpoints@[port.0]@[port.1]@,
        )
    }

    /// The slots of an endpoint that have an owner.
    spec fn taken(&self, node_id: Seq<char>) -> Set<usize> {
        Set::new(|slot: usize| self.owners().contains_key((node_id, slot)))
    }

    fn new() -> (table: Self)
        ensures
            table.wf(),
            table.owners() == Map::<(Seq<char>, usize), Seq<char>>::empty(),
    {
        let table = PortTable { endpoints: TextMap::new() };
        assert(table.owners() =~= Map::<(Seq<char>, usize), Seq<char>>::empty());
        table
    }

    fn ensure_port_available(&self, node_id: &str, slot: usize) -> (outcome: Result<
        (),
        StableLayoutError,
    >)
        requires
            self.wf(),
        ensures
            outcome_view(outcome) == (if self.owners().contains_key((node_id@, slot)) {
                Err(
                    StableLayoutErrorView::PortSlotOccupied {
                        node_id: node_id@,
                        slot,
                        owner: self.owners()[(node_id@, slot)],
                    },
                )
            } else {
                Ok(())
            }),
    {
        if let Some(ports) = self.endpoints.get(node_id) {
            if let Some(owner) = ports.get(&slot) {
                return Err(
                    StableLayoutError::PortSlotOccupied {
                        node_id: node_id.to_owned(),
                        slot,
                        owner: owner.clone(),
                    },
                );
            }
        }
        Ok(())
    }

    fn reserve_port(&mut self, node_id: &str, slot: usize, edge_key: &str)
        requires
            old(self).wf(),
        ensures
            final(self).wf(),
            final(self).owners() == old(self).owners().insert((node_id@, slot), edge_key@),
    {
        let mut ports = match self.endpoints.remove(node_id) {
            Some(ports) => ports,
            None => BTreeMap::new(),
        };
        ports.insert(slot, edge_key.to_owned());
        self.endpoints.insert(node_id.to_owned(), ports);
        assert(self.owners() =~= old(self).owners().insert((node_id@, slot), edge_key@));
    }

    fn first_free_port(&self, node_id: &str) -> (slot: usize)
        requires
            self.wf(),
        ensures
            slot == first_free(self.taken(node_id@)),
            !self.owners().contains_key((node_id@, slot)),
    {
        let ports = match self.endpoints.get(node_id) {
            Some(ports) => ports,
            None => {
                proof {
                    lemma_first_free_unique(self.taken(node_id@), 0);
                }
                return 0;
            },
        };
        let ghost taken = self.taken(node_id@);
        assert(taken =~= ports@.dom());
        let count: usize = ports.len();
        let mut slot: usize = 0;
        while slot < count && ports.contains_key(&slot)
            invariant
                taken == ports@.dom(),
                taken.len() == count,
                slot <= count,
                forall|lower: usize| lower < slot ==> #[trigger] taken.contains(lower),
            decreases count - slot,
        {
            slot = slot + 1;
        }
        proof {
            if taken.contains(slot) {
                lemma_interval_len(taken, 0, slot + 1);
            }
            lemma_first_free_unique(taken, slot);
        }
        slot
    }
}

/// Whether an edge holds a slot at its source.
pub open spec fn holds_source(
    assignments: Map<Seq<char>, PortAssignmentView>,
    key: Seq<char>,
    node_id: Seq<char>,
    slot: usize,
) -> bool {
    &&& assignments.contains_key(key)
    &&& assignments[key].edge.source_id == node_id
    &&& assignments[key].slots.source == slot
}

/// Whether an edge holds a slot at its target.
pub open spec fn holds_target(
    assignments: Map<Seq<char>, PortAssignmentView>,
    key: Seq<char>,
    node_id: Seq<char>,
    slot: usize,
) -> bool {
    &&& assignments.contains_key(key)
    &&& assignments[key].edge.target_id == node_id
    &&& assignments[key].slots.target == slot
}

/// The slots that edges hold where they leave a node.
pub open spec fn source_slots(
    assignments: Map<Seq<char>, PortAssignmentView>,
    node_id: Seq<char>,
) -> Set<usize> {
    Set::new(|slot: usize| exists|key: Seq<char>| holds_source(assignments, key, node_id, slot))
}

/// The slots that edges hold where they enter a node.
pub open spec fn target_slots(
    assignments: Map<Seq<char>, PortAssignmentView>,
    node_id: Seq<char>,
) -> Set<usize> {
    Set::new(|slot: usize| exists|key: Seq<char>| holds_target(assignments, key, node_id, slot))
}

/// Assignments are kept under their edges' keys, and no two edges share a slot of an
/// endpoint on the same side.
pub open spec fn ports_consistent(assignments: Map<Seq<char>, PortAssignmentView>) -> bool {
    &&& forall|key: Seq<char>| #[trigger]
        assignments.contains_key(key) ==> assignments[key].edge.edge_key == key
    &&& forall|a: Seq<char>, b: Seq<char>|
        #[trigger] assignments.contains_key(a) && #[trigger] assignments.contains_key(b)
            && assignments[a].edge.source_id == assignments[b].edge.source_id
            && assignments[a].slots.source == assignments[b].slots.source ==> a == b
    &&& forall|a: Seq<char>, b: Seq<char>|
        #[trigger] assignments.contains_key(a) && #[trigger] assignments.contains_key(b)
            && assignments[a].edge.target_id == assignments[b].edge.target_id
            && assignments[a].slots.target == assignments[b].slots.target ==> a == b
}

/// What restoring a known assignment does.
pub open spec fn restoring_ports(
    assignments: Map<Seq<char>, PortAssignmentView>,
    assignment: PortAssignmentView,
) -> (Map<Seq<char>, PortAssignmentView>, Result<(), StableLayoutErrorView>) {
    let edge = assignment.edge;
    let slots = assignment.slots;
    if assignments.contains_key(edge.edge_key) {
        if assignments[edge.edge_key] == assignment {
            (assignments, Ok(()))
        } else {
            (assignments, Err(StableLayoutErrorView::DuplicateEdge { edge_key: edge.edge_key }))
        }
    } else if source_slots(assignments, edge.source_id).contains(slots.source) {
        let owner = choose|key: Seq<char>|
            holds_source(assignments, key, edge.source_id, slots.source);
        (
            assignments,
            Err(
                StableLayoutErrorView::PortSlotOccupied {
                    node_id: edge.source_id,
                    slot: slots.source,
                    owner,
                },
            ),
        )
    } else if target_slots(assignments, edge.target_id).contains(slots.target) {
        let owner = choose|key: Seq<char>|
            holds_target(assignments, key, edge.target_id, slots.target);
        (
            assignments,
            Err(
                StableLayoutErrorView::PortSlotOccupied {
                    node_id: edge.target_id,
                    slot: slots.target,
                    owner,
                },
            ),
        )
    } else {
        (assignments.insert(edge.edge_key, assignment), Ok(()))
    }
}

/// What assigning slots to an edge does.
pub open spec fn assigning_ports(
    assignments: Map<Seq<char>, PortAssignmentView>,
    edge: StableEdgeView,
) -> (Map<Seq<char>, PortAssignmentView>, Result<PortAssignmentView, StableLayoutErrorView>) {
    if assignments.contains_key(edge.edge_key) {
        if assignments[edge.edge_key].edge == edge {
            (assignments, Ok(assignments[edge.edge_key]))
        } else {
            (assignments, Err(StableLayoutErrorView::DuplicateEdge { edge_key: edge.edge_key }))
        }
    } else {
        let assignment = PortAssignmentView {
            edge,
            slots: EndpointPortSlots {
                source: first_free(source_slots(assignments, edge.source_id)),
                target: first_free(target_slots(assignments, edge.target_id)),
            },
        };
        (assignments.insert(edge.edge_key, assignment), Ok(assignment))
    }
}

/// Gives each edge a slot at both of its endpoints, once and for all.
#[derive(Debug, Clone)]
pub struct StablePortAllocator {
    assignments: TextMap<PortAssignment>,
    outgoing: PortTable,
    incoming: PortTable,
}

impl View for StablePortAllocator {
    type V = Map<Seq<char>, PortAssignmentView>;

    closed spec fn view(&self) -> Map<Seq<char>, PortAssignmentView> {
        self.assignments@.map_values(|assignment: PortAssignment| assignment@)
    }
}

impl Default for StablePortAllocator {
    fn default() -> (allocator: Self)
        ensures
            allocator.wf(),
            allocator@ == Map::<Seq<char>, PortAssignmentView>::empty(),
    {
        let allocator = StablePortAllocator {
            assignments: TextMap::new(),
            outgoing: PortTable::new(),
            incoming: PortTable::new(),
        };
        assert(allocator@ =~= Map::<Seq<char>, PortAssignmentView>::empty());
        allocator
    }
}

impl StablePortAllocator {
    /// The assignments are consistent, and the port tables hold exactly their slots.
    pub closed spec fn wf(&self) -> bool {
        &&& self.assignments.wf()
        &&& self.outgoing.wf()
        &&& self.incoming.wf()
        &&& ports_consistent(self@)
        &&& forall|key: Seq<char>| #[trigger]
            self@.contains_key(key) ==> {
                &&& self.outgoing.owners().contains_key(
                    (self@[key].edge.source_id, self@[key].slots.source),
                )
                &&& self.incoming.owners().contains_key(
                    (self@[key].edge.target_id, self@[key].slots.target),
                )
            }
        &&& forall|port: (Seq<char>, usize)| #[trigger]
            self.outgoing.owners().contains_key(port) ==> holds_source(
                self@,
                self.outgoing.owners()[port],
                port.0,
                port.1,
            )
        &&& forall|port: (Seq<char>, usize)| #[trigger]
            self.incoming.owners().contains_key(port) ==> holds_target(
                self@,
                self.incoming.owners()[port],
                port.0,
                port.1,
            )
    }

    /// No two edges share a slot of an endpoint.
    pub proof fn lemma_consistent(&self)
        requires
            self.wf(),
        ensures
            ports_consistent(self@),
    {
    }

    /// The port tables tell which slots are held, and by whom.
    proof fn lemma_tables(&self)
        requires
            self.wf(),
        ensures
            forall|node_id: Seq<char>| #[trigger]
                self.outgoing.taken(node_id) == source_slots(self@, node_id),
            forall|node_id: Seq<char>| #[trigger]
                self.incoming.taken(node_id) == target_slots(self@, node_id),
            forall|port: (Seq<char>, usize)| #[trigger]
                self.outgoing.owners().contains_key(port) <==> source_slots(self@, port.0).contains(
                    port.1,
                ),
            forall|port: (Seq<char>, usize)| #[trigger]
                self.incoming.owners().contains_key(port) <==> target_slots(self@, port.0).contains(
                    port.1,
                ),
            forall|port: (Seq<char>, usize), key: Seq<char>|
                #[trigger] self.outgoing.owners().contains_key(port) && #[trigger] holds_source(
                    self@,
                    key,
                    port.0,
                    port.1,
                ) ==> key == self.outgoing.owners()[port],
            forall|port: (Seq<char>, usize), key: Seq<char>|
                #[trigger] self.incoming.owners().contains_key(port) && #[trigger] holds_target(
                    self@,
                    key,
                    port.0,
                    port.1,
                ) ==> key == self.incoming.owners()[port],
    {
        assert forall|port: (Seq<char>, usize)| #[trigger]
            self.outgoing.owners().contains_key(port) <==> source_slots(self@, port.0).contains(
                port.1,
            ) by {
            if source_slots(self@, port.0).contains(port.1) {
                let key = choose|key: Seq<char>| holds_source(self@, key, port.0, port.1);
                assert(self@.contains_key(key));
            }
        }
        assert forall|port: (Seq<char>, usize)| #[trigger]
            self.incoming.owners().contains_key(port) <==> target_slots(self@, port.0).contains(
                port.1,
            ) by {
            if target_slots(self@, port.0).contains(port.1) {
                let key = choose|key: Seq<char>| holds_target(self@, key, port.0, port.1);
                assert(self@.contains_key(key));
            }
        }
        assert forall|node_id: Seq<char>| #[trigger] self.outgoing.taken(node_id) == source_slots(
            self@,
            node_id,
        ) by {
            assert forall|slot: usize| self.outgoing.taken(node_id).contains(slot) <==> source_slots(
                self@,
                node_id,
            ).contains(slot) by {
                assert(self.outgoing.owners().contains_key((node_id, slot)) <==> source_slots(
                    self@,
                    node_id,
                ).contains(slot));
            }
            assert(self.outgoing.taken(node_id) =~= source_slots(self@, node_id));
        }
        assert forall|node_id: Seq<char>| #[trigger] self.incoming.taken(node_id) == target_slots(
            self@,
            node_id,
        ) by {
            assert forall|slot: usize| self.incoming.taken(node_id).contains(slot) <==> target_slots(
                self@,
                node_id,
            ).contains(slot) by {
                assert(self.incoming.owners().contains_key((node_id, slot)) <==> target_slots(
                    self@,
                    node_id,
                ).contains(slot));
            }
            assert(self.incoming.taken(node_id) =~= target_slots(self@, node_id));
        }
    }

    /// Takes over an assignment from an earlier build.
    pub fn restore(&mut self, assignment: PortAssignment) -> (outcome: Result<(), StableLayoutError>)
        requires
            old(self).wf(),
        ensures
            final(self).wf(),
            (final(self)@, outcome_view(outcome)) == restoring_ports(old(self)@, assignment@),
    {
        proof {
            self.lemma_tables();
        }
        let ghost edge = assignment.edge@;
        let ghost slots = assignment.slots;
        if let Some(existing) = self.assignments.get(assignment.edge.edge_key.as_str()) {
            assert(self@.contains_key(edge.edge_key) && self@[edge.edge_key] == existing@);
            if existing.edge.same_as(&assignment.edge) && existing.slots == assignment.slots {
                return Ok(());
            }
            return Err(StableLayoutError::DuplicateEdge { edge_key: assignment.edge.edge_key });
        }
        match self.outgoing.ensure_port_available(
            assignment.edge.source_id.as_str(),
            assignment.slots.source,
        ) {
            Err(error) => {
                proof {
                    let owner = choose|key: Seq<char>|
                        holds_source(self@, key, edge.source_id, slots.source);
                    assert(holds_source(self@, owner, edge.source_id, slots.source));
                    assert(self.outgoing.owners().contains_key((edge.source_id, slots.source)));
                }
                return Err(error);
            },
            Ok(_) => {},
        }
        match self.incoming.ensure_port_available(
            assignment.edge.target_id.as_str(),
            assignment.slots.target,
        ) {
            Err(error) => {
                proof {
                    assert(!self.outgoing.owners().contains_key((edge.source_id, slots.source)));
                    let owner = choose|key: Seq<char>|
                        holds_target(self@, key, edge.target_id, slots.target);
                    assert(holds_target(self@, owner, edge.target_id, slots.target));
                    assert(self.incoming.owners().contains_key((edge.target_id, slots.target)));
                }
                return Err(error);
            },
            Ok(_) => {},
        }
        proof {
            assert(!self.outgoing.owners().contains_key((edge.source_id, slots.source)));
            assert(!self.incoming.owners().contains_key((edge.target_id, slots.target)));
        }
        self.outgoing.reserve_port(
            assignment.edge.source_id.as_str(),
            assignment.slots.source,
            assignment.edge.edge_key.as_str(),
        );
        self.incoming.reserve_port(
            assignment.edge.target_id.as_str(),
            assignment.slots.target,
            assignment.edge.edge_key.as_str(),
        );
        let ghost added = assignment@;
        self.assignments.insert(assignment.edge.edge_key.clone(), assignment);
        proof {
            let before = old(self)@;
            assert(self@ =~= before.insert(edge.edge_key, added));
            assert forall|key: Seq<char>| #[trigger] self@.contains_key(key) && key != edge.edge_key implies before.contains_key(
                key,
            ) && self@[key] == before[key] && (self@[key].edge.source_id, self@[key].slots.source) != (
                edge.source_id,
                slots.source,
            ) && (self@[key].edge.target_id, self@[key].slots.target) != (
                edge.target_id,
                slots.target,
            ) by {
                assert(before.contains_key(key));
                assert(old(self).outgoing.owners().contains_key(
                    (before[key].edge.source_id, before[key].slots.source),
                ));
            }
            assert(ports_consistent(self@));
            assert forall|port: (Seq<char>, usize)| #[trigger]
                self.outgoing.owners().contains_key(port) implies holds_source(
                self@,
                self.outgoing.owners()[port],
                port.0,
                port.1,
            ) by {
                if port != (edge.source_id, slots.source) {
                    assert(old(self).outgoing.owners().contains_key(port));
                    assert(holds_source(before, old(self).outgoing.owners()[port], port.0, port.1));
                }
            }
            assert forall|port: (Seq<char>, usize)| #[trigger]
                self.incoming.owners().contains_key(port) implies holds_target(
                self@,
                self.incoming.owners()[port],
                port.0,
                port.1,
            ) by {
                if port != (edge.target_id, slots.target) {
                    assert(old(self).incoming.owners().contains_key(port));
                    assert(holds_target(before, old(self).incoming.owners()[port], port.0, port.1));
                }
            }
        }
        Ok(())
    }

    /// The slots of an edge: those it has, or the first free one at each endpoint.
    pub fn assign(&mut self, edge: StableEdge) -> (outcome: Result<PortAssignment, StableLayoutError>)
        requires
            old(self).wf(),
        ensures
            final(self).wf(),
            (final(self)@, outcome_view(outcome)) == assigning_ports(old(self)@, edge@),
    {
        proof {
            self.lemma_tables();
        }
        if let Some(existing) = self.assignments.get(edge.edge_key.as_str()) {
            assert(self@.contains_key(edge@.edge_key) && self@[edge@.edge_key] == existing@);
            if existing.edge.same_as(&edge) {
                return Ok(existing.clone());
            }
            return Err(StableLayoutError::DuplicateEdge { edge_key: edge.edge_key });
        }
        let slots = EndpointPortSlots {
            source: self.outgoing.first_free_port(edge.source_id.as_str()),
            target: self.incoming.first_free_port(edge.target_id.as_str()),
        };
        proof {
            assert(self.outgoing.taken(edge@.source_id) == source_slots(self@, edge@.source_id));
            assert(self.incoming.taken(edge@.target_id) == target_slots(self@, edge@.target_id));
            assert(!self.outgoing.owners().contains_key((edge@.source_id, slots.source)));
            assert(!self.incoming.owners().contains_key((edge@.target_id, slots.target)));
        }
        let assignment = PortAssignment { edge, slots };
        match self.restore(assignment.clone()) {
            Err(error) => Err(error),
            Ok(_) => Ok(assignment),
        }
    }

    /// The slots that an edge has.
    pub fn assignment(&self, edge_key: &str) -> (assignment: Option<&PortAssignment>)
        requires
            self.wf(),
        ensures
            match assignment {
                Some(found) => self@.contains_key(edge_key@) && found@ == self@[edge_key@],
                None => !self@.contains_key(edge_key@),
            },
    {
        self.assignments.get(edge_key)
    }
}

/// How far a slot lies from the middle of its endpoint: slots alternate above and below
/// it, one step farther out for each pair, up to the edge of the range.
pub open spec fn port_offset_of(slot: usize, config: StableLayoutConfig) -> i32 {
    let half: int = (slot as int + 1) / 2;
    let bounded: int = if half > i32::MAX {
        i32::MAX as int
    } else {
        half
    };
    let magnitude: int = saturate_i32(bounded * larger(config.edge_port_step, 0)) as int;
    let signed: int = if slot % 2 == 1 {
        -magnitude
    } else {
        magnitude
    };
    let range: int = larger(config.edge_port_range, 0) as int;
    if signed < -range {
        (-range) as i32
    } else if signed > range {
        range as i32
    } else {
        signed as i32
    }
}

fn port_offset(slot: usize, config: StableLayoutConfig) -> (offset: i32)
    ensures
        offset == port_offset_of(slot, config),
{
    let half: usize = slot / 2 + slot % 2;
    let bounded: i32 = if half > 2147483647 {
        i32::MAX
    } else {
        half as i32
    };
    let step: i32 = greater_of(config.edge_port_step, 0);
    let magnitude: i32 = saturating_product(bounded, step);
    assert(bounded * step >= 0) by (nonlinear_arith)
        requires
            bounded >= 0,
            step >= 0,
    ;
    let signed: i32 = if slot % 2 == 1 {
        -magnitude
    } else {
        magnitude
    };
    let range: i32 = greater_of(config.edge_port_range, 0);
    if signed < -range {
        -range
    } else if signed > range {
        range
    } else {
        signed
    }
}

/// Where an edge leaves its source.
pub open spec fn route_source(
    source_center: LayoutPoint,
    slots: EndpointPortSlots,
    config: StableLayoutConfig,
) -> LayoutPoint {
    LayoutPoint {
        x: saturate_i32(
            saturate_i32(source_center.x + config.node_radius) + config.edge_source_padding,
        ),
        y: saturate_i32(source_center.y + port_offset_of(slots.source, config)),
    }
}

/// Where an edge enters its target.
pub open spec fn route_target(
    target_center: LayoutPoint,
    slots: EndpointPortSlots,
    config: StableLayoutConfig,
) -> LayoutPoint {
    LayoutPoint {
        x: saturate_i32(
            saturate_i32(target_center.x - config.node_radius) - config.edge_target_padding,
        ),
        y: saturate_i32(target_center.y + port_offset_of(slots.target, config)),
    }
}

/// How far the control points lie from the ends: a share of the horizontal distance, and
/// never less than the least control distance.
pub open spec fn control_distance(source_x: i32, target_x: i32, config: StableLayoutConfig) -> i32 {
    let horizontal = larger(saturate_i32(target_x - source_x), config.edge_min_control_distance);
    let scaled = truncated_quotient(horizontal * config.edge_control_ratio_percent, 100);
    let bounded = if i32::MIN <= scaled <= i32::MAX {
        scaled as i32
    } else {
        i32::MAX
    };
    larger(bounded, config.edge_min_control_distance)
}

/// The cubic curve of an edge between two node centers.
pub open spec fn route_between(
    source_center: LayoutPoint,
    target_center: LayoutPoint,
    slots: EndpointPortSlots,
    config: StableLayoutConfig,
) -> CubicRoute {
    let source = route_source(source_center, slots, config);
    let target = route_target(target_center, slots, config);
    let control = control_distance(source.x, target.x, config);
    CubicRoute {
        source,
        control_1: LayoutPoint {
            x: smaller(saturate_i32(source.x + control), saturate_i32(target.x - 8)),
            y: source.y,
        },
        control_2: LayoutPoint {
            x: larger(saturate_i32(target.x - control), saturate_i32(source.x + 8)),
            y: target.y,
        },
        target,
    }
}

/// Routes an edge between two node centers on its endpoint slots.
pub fn route_edge(
    source_center: LayoutPoint,
    target_center: LayoutPoint,
    slots: EndpointPortSlots,
    config: StableLayoutConfig,
) -> (route: CubicRoute)
    ensures
        route == route_between(source_center, target_center, slots, config),
{
    let source = LayoutPoint {
        x: saturating_sum(
            saturating_sum(source_center.x, config.node_radius),
            config.edge_source_padding,
        ),
        y: saturating_sum(source_center.y, port_offset(slots.source, config)),
    };
    let target = LayoutPoint {
        x: saturating_difference(
            saturating_difference(target_center.x, config.node_radius),
            config.edge_target_padding,
        ),
        y: saturating_sum(target_center.y, port_offset(slots.target, config)),
    };
    let horizontal: i32 = greater_of(
        saturating_difference(target.x, source.x),
        config.edge_min_control_distance,
    );
    proof {
        lemma_product_fits(horizontal as int, config.edge_control_ratio_percent as int);
    }
    let scaled: i64 = truncating_division(
        horizontal as i64 * config.edge_control_ratio_percent as i64,
        100,
    );
    let bounded: i32 = if scaled < -2147483648 || scaled > 2147483647 {
        i32::MAX
    } else {
        scaled as i32
    };
    let control: i32 = greater_of(bounded, config.edge_min_control_distance);
    CubicRoute {
        source,
        control_1: LayoutPoint {
            x: lesser_of(saturating_sum(source.x, control), saturating_difference(target.x, 8)),
            y: source.y,
        },
        control_2: LayoutPoint {
            x: greater_of(saturating_difference(target.x, control), saturating_sum(source.x, 8)),
            y: target.y,
        },
        target,
    }
}

/// Whether every node that has a slot in one layout has the same slot in another.
pub open spec fn keeps_placements(before: StableLayoutView, after: StableLayoutView) -> bool {
    forall|id: Seq<char>| #[trigger]
        before.is_placed(id) ==> after.is_placed(id) && after.placement(id) == before.placement(id)
}

/// Placing a node moves no other node, and not the node itself where it has a slot.
pub proof fn lemma_placing_keeps_placements(
    layout: StableLayoutView,
    node_id: Seq<char>,
    parents: Set<Seq<char>>,
)
    requires
        layout.consistent(),
    ensures
        keeps_placements(layout, layout.placing(node_id, parents).0),
{
}

/// Placing a list of nodes moves none that has a slot.
pub proof fn lemma_placing_all_keeps_placements(layout: StableLayoutView, nodes: Seq<ReadyNode>)
    requires
        forall|id: Seq<char>| #[trigger]
            layout.active.contains_key(id) ==> !layout.tombstones.contains_key(id),
    ensures
        keeps_placements(layout, layout.placing_all(nodes).0),
        layout.placing_all(nodes).0.config == layout.config,
        forall|id: Seq<char>| #[trigger]
            layout.placing_all(nodes).0.active.contains_key(id) ==> !layout.placing_all(
                nodes,
            ).0.tombstones.contains_key(id),
    decreases nodes.len(),
{
    if nodes.len() > 0 {
        lemma_placing_all_keeps_placements(layout, nodes.drop_last());
        let earlier = layout.placing_all(nodes.drop_last()).0;
        let after = layout.placing_all(nodes).0;
        assert forall|id: Seq<char>| #[trigger] layout.is_placed(id) implies after.is_placed(id)
            && after.placement(id) == layout.placement(id) by {
            assert(earlier.is_placed(id));
        }
    }
}

/// Restoring a placement moves no node.
pub proof fn lemma_restoring_keeps_placements(
    layout: StableLayoutView,
    placement: PlacementView,
    tombstone: bool,
)
    requires
        layout.consistent(),
    ensures
        keeps_placements(layout, layout.restoring(placement, tombstone).0),
{
}

/// A placement that was restored can be restored again, to no effect.
pub proof fn lemma_restoring_twice(
    layout: StableLayoutView,
    placement: PlacementView,
    tombstone: bool,
)
    requires
        layout.consistent(),
        layout.restoring(placement, tombstone).1 is Ok,
    ensures
        ({
            let restored = layout.restoring(placement, tombstone).0;
            restored.restoring(placement, tombstone) == (
                restored,
                Ok::<(), StableLayoutErrorView>(()),
            )
        }),
{
}

/// A retired node keeps its slot: no row that was taken becomes free.
pub proof fn lemma_retired_keeps_slot(layout: StableLayoutView, node_id: Seq<char>)
    requires
        layout.consistent(),
        layout.active.contains_key(node_id),
    ensures
        keeps_placements(layout, layout.retired(node_id)),
        layout.retired(node_id).consistent(),
        forall|rank: usize| #[trigger]
            layout.retired(node_id).taken_rows(rank) == layout.taken_rows(rank),
{
    let after = layout.retired(node_id);
    assert forall|id: Seq<char>| #[trigger] after.is_placed(id) <==> layout.is_placed(id) by {}
    assert forall|id: Seq<char>| #[trigger] after.is_placed(id) implies after.placement(id)
        == layout.placement(id) by {
        assert(layout.is_placed(id));
    }
    assert(after.consistent()) by {
        assert(layout.active.contains_key(node_id));
        assert forall|a: Seq<char>, b: Seq<char>|
            #[trigger] after.is_placed(a) && #[trigger] after.is_placed(b) && after.placement(a).rank
                == after.placement(b).rank && after.placement(a).row == after.placement(b).row implies a
            == b by {
            assert(layout.is_placed(a) && layout.is_placed(b));
        }
        assert forall|id: Seq<char>| #[trigger] after.tombstones.contains_key(id) implies after.tombstones[id].node_id
            == id by {
            if id != node_id {
                assert(layout.tombstones.contains_key(id));
            }
        }
        assert forall|id: Seq<char>| #[trigger] after.active.contains_key(id) implies after.active[id].node_id
            == id && !after.tombstones.contains_key(id) by {
            assert(layout.active.contains_key(id));
        }
    }
    assert forall|rank: usize| #[trigger] after.taken_rows(rank) == layout.taken_rows(rank) by {
        assert forall|row: usize| after.taken_rows(rank).contains(row) <==> layout.taken_rows(
            rank,
        ).contains(row) by {
            if after.taken_rows(rank).contains(row) {
                let id = choose|id: Seq<char>| after.owns(id, rank, row);
                assert(layout.is_placed(id));
                assert(layout.owns(id, rank, row));
            }
            if layout.taken_rows(rank).contains(row) {
                let id = choose|id: Seq<char>| layout.owns(id, rank, row);
                assert(after.is_placed(id));
                assert(after.owns(id, rank, row));
            }
        }
        assert(after.taken_rows(rank) =~= layout.taken_rows(rank));
    }
}

/// A retired node that becomes ready again returns to its old slot, unless its parents now
/// stand too far on.
pub proof fn lemma_retired_node_returns(
    layout: StableLayoutView,
    node_id: Seq<char>,
    parents: Set<Seq<char>>,
)
    requires
        layout.consistent(),
        layout.active.contains_key(node_id),
        forall|parent: Seq<char>| #[trigger] parents.contains(parent) ==> layout.is_placed(parent),
        layout.retired(node_id).required_rank(parents) <= layout.active[node_id].rank,
    ensures
        layout.retired(node_id).placing(node_id, parents) == (
            layout,
            Ok::<PlacementView, StableLayoutErrorView>(layout.active[node_id]),
        ),
{
    let retired = layout.retired(node_id);
    assert(retired.revived(node_id) =~= layout);
    assert forall|parent: Seq<char>| !retired.is_first_missing(parents, parent) by {
        if parents.contains(parent) {
            assert(layout.is_placed(parent));
        }
    }
}

/// A placed node stands behind each of its parents.
pub proof fn lemma_placed_behind_parents(
    layout: StableLayoutView,
    node_id: Seq<char>,
    parents: Set<Seq<char>>,
    parent: Seq<char>,
)
    requires
        parents.finite(),
        parents.contains(parent),
        layout.placing(node_id, parents).1 is Ok,
    ensures
        next_usize(layout.placement(parent).rank) <= layout.placing(node_id, parents).1->Ok_0.rank,
{
    let rank_of = |id: Seq<char>| layout.placement(id).rank;
    crate::rank_propagation::lemma_required_rank_exists(parents, rank_of);
    assert(next_usize(rank_of(parent)) <= layout.required_rank(parents));
}

/// Edges that have slots keep them, whatever is assigned or restored later.
pub proof fn lemma_ports_never_rebalance(
    assignments: Map<Seq<char>, PortAssignmentView>,
    edge: StableEdgeView,
    restored: PortAssignmentView,
    key: Seq<char>,
)
    requires
        assignments.contains_key(key),
    ensures
        assigning_ports(assignments, edge).0.contains_key(key),
        assigning_ports(assignments, edge).0[key] == assignments[key],
        restoring_ports(assignments, restored).0.contains_key(key),
        restoring_ports(assignments, restored).0[key] == assignments[key],
{
}

/// An edge that was given slots is given the same ones again, to no effect.
pub proof fn lemma_assigning_twice(
    assignments: Map<Seq<char>, PortAssignmentView>,
    edge: StableEdgeView,
)
    requires
        ports_consistent(assignments),
        assigning_ports(assignments, edge).1 is Ok,
    ensures
        ({
            let after = assigning_ports(assignments, edge).0;
            assigning_ports(after, edge) == (after, assigning_ports(assignments, edge).1)
        }),
{
}

/// Between slots far enough apart, the points of a curve with the default distances follow
/// one another from source to target.
pub proof fn lemma_route_runs_forward(
    source_center: LayoutPoint,
    target_center: LayoutPoint,
    slots: EndpointPortSlots,
)
    requires
        target_center.x - source_center.x >= 93,
        source_center.x >= i32::MIN + 24,
        target_center.x <= i32::MAX - 20,
    ensures
        ({
            let route = route_between(source_center, target_center, slots, default_config());
            &&& route.source.x < route.control_1.x
            &&& route.control_1.x < route.control_2.x
            &&& route.control_2.x < route.target.x
        }),
{
}

/// A curve starts and ends level with its control points, and the ports stay within the
/// port range of the node centers.
pub proof fn lemma_route_levels(
    source_center: LayoutPoint,
    target_center: LayoutPoint,
    slots: EndpointPortSlots,
    config: StableLayoutConfig,
)
    ensures
        ({
            let route = route_between(source_center, target_center, slots, config);
            let range = larger(config.edge_port_range, 0);
            &&& route.control_1.y == route.source.y
            &&& route.control_2.y == route.target.y
            &&& -range <= route.source.y - source_center.y <= range
            &&& -range <= route.target.y - target_center.y <= range
        }),
{
}

} // verus!
