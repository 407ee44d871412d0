//! Pushing higher ranks through the descendants of changed nodes.

use vstd::prelude::*;
use crate::arithmetic::next_usize;
use crate::incremental_layout::is_required_rank;
use crate::incremental_layout::lemma_required_rank_unique;
use crate::incremental_layout::required_rank;
use crate::incremental_layout::StableLayoutError;
use crate::ordered::sorted_texts;
use crate::ordered::texts;
use crate::ordered::TextMap;
use crate::ordered::TextSet;
use crate::sequences::lemma_filter_members;
use crate::sequences::lemma_filter_push;
use crate::sequences::lemma_push_members;

verus! {

/// The distinct neighbours of a node.
pub open spec fn neighbors(edges: Map<Seq<char>, Vec<String>>, node_id: Seq<char>) -> Set<Seq<char>> {
    if edges.contains_key(node_id) {
        texts(edges[node_id]@).to_set()
    } else {
        Set::empty()
    }
}

/// The first id of a list that has no rank.
pub open spec fn first_unranked(ids: Seq<Seq<char>>, known: Set<Seq<char>>) -> Option<Seq<char>>
    decreases ids.len(),
{
    if ids.len() == 0 {
        None
    } else if !known.contains(ids[0]) {
        Some(ids[0])
    } else {
        first_unranked(ids.drop_first(), known)
    }
}

/// A list up to the repetitions of what came before.
pub open spec fn distinct(ids: Seq<Seq<char>>) -> Seq<Seq<char>>
    decreases ids.len(),
{
    if ids.len() == 0 {
        ids
    } else if ids.drop_last().contains(ids.last()) {
        distinct(ids.drop_last())
    } else {
        distinct(ids.drop_last()).push(ids.last())
    }
}

/// The descendants that a search in breadth finds from the pending nodes, added to those
/// already found; or the first child on its way that has no rank.
pub open spec fn discover(
    known: Set<Seq<char>>,
    outgoing: Map<Seq<char>, Vec<String>>,
    pending: Seq<Seq<char>>,
    found: Set<Seq<char>>,
) -> Result<Set<Seq<char>>, Seq<char>>
    decreases known.difference(found).len(), pending.len(),
    when known.finite() via discover_terminates
{
    if pending.len() == 0 {
        Ok(found)
    } else {
        let children = sorted_texts(neighbors(outgoing, pending[0]));
        match first_unranked(children, known) {
            Some(child) => Err(child),
            None => discover(
                known,
                outgoing,
                pending.drop_first() + children.filter(|child: Seq<char>| !found.contains(child)),
                found.union(children.to_set()),
            ),
        }
    }
}

#[via_fn]
proof fn discover_terminates(
    known: Set<Seq<char>>,
    outgoing: Map<Seq<char>, Vec<String>>,
    pending: Seq<Seq<char>>,
    found: Set<Seq<char>>,
) {
    if pending.len() > 0 {
        let children = sorted_texts(neighbors(outgoing, pending[0]));
        if first_unranked(children, known) is None {
            lemma_first_unranked_none(children, known);
            lemma_progress(known, found, children);
        }
    }
}

/// Where no id lacks a rank, all have one.
proof fn lemma_first_unranked_none(ids: Seq<Seq<char>>, known: Set<Seq<char>>)
    ensures
        first_unranked(ids, known) is None <==> forall|i: int|
            0 <= i < ids.len() ==> known.contains(#[trigger] ids[i]),
    decreases ids.len(),
{
    if ids.len() > 0 {
        lemma_first_unranked_none(ids.drop_first(), known);
        if known.contains(ids[0]) {
            let rest = ids.drop_first();
            if forall|i: int| 0 <= i < rest.len() ==> known.contains(#[trigger] rest[i]) {
                assert forall|i: int| 0 <= i < ids.len() implies known.contains(#[trigger] ids[i]) by {
                    if i > 0 {
                        assert(rest[i - 1] == ids[i]);
                    }
                }
            } else {
                let i = choose|i: int| 0 <= i < rest.len() && !known.contains(#[trigger] rest[i]);
                assert(!known.contains(ids[i + 1]));
            }
        }
    }
}

/// The first id without a rank is the one behind the ranked ones.
proof fn lemma_first_unranked_some(ids: Seq<Seq<char>>, known: Set<Seq<char>>, index: int)
    requires
        0 <= index < ids.len(),
        !known.contains(ids[index]),
        forall|i: int| 0 <= i < index ==> known.contains(#[trigger] ids[i]),
    ensures
        first_unranked(ids, known) == Some(ids[index]),
    decreases ids.len(),
{
    if index > 0 {
        assert(known.contains(ids[0]));
        lemma_first_unranked_some(ids.drop_first(), known, index - 1);
    }
}

/// Each step of the search finds something new or shortens the queue.
proof fn lemma_progress(known: Set<Seq<char>>, found: Set<Seq<char>>, children: Seq<Seq<char>>)
    requires
        known.finite(),
        forall|i: int| 0 <= i < children.len() ==> known.contains(#[trigger] children[i]),
    ensures
        ({
            let fresh = children.filter(|child: Seq<char>| !found.contains(child));
            let left = known.difference(found).len();
            let right = known.difference(found.union(children.to_set())).len();
            right < left || (right == left && fresh.len() == 0)
        }),
{
    let pred = |child: Seq<char>| !found.contains(child);
    let fresh = children.filter(pred);
    let left = known.difference(found);
    let right = known.difference(found.union(children.to_set()));
    if fresh.len() > 0 {
        let child = fresh[0];
        assert(fresh.contains(child));
        lemma_filter_members(children, pred, child);
        let n = children.index_of(child);
        assert(known.contains(children[n]));
        assert(left.contains(child));
        assert(!right.contains(child));
        assert(right.subset_of(left.remove(child)));
        vstd::set_lib::lemma_len_subset(right, left.remove(child));
    } else {
        assert forall|child: Seq<char>| children.contains(child) implies found.contains(child) by {
            if !found.contains(child) {
                let n = children.index_of(child);
                assert(pred(children[n]));
                assert(fresh.contains(children[n]));
            }
        }
        assert(right =~= left);
    }
}

/// The first parent without a rank, over a list of nodes.
pub open spec fn first_unranked_parent(
    known: Set<Seq<char>>,
    incoming: Map<Seq<char>, Vec<String>>,
    ids: Seq<Seq<char>>,
) -> Option<Seq<char>>
    decreases ids.len(),
{
    if ids.len() == 0 {
        None
    } else {
        match first_unranked(sorted_texts(neighbors(incoming, ids[0])), known) {
            Some(parent) => Some(parent),
            None => first_unranked_parent(known, incoming, ids.drop_first()),
        }
    }
}

/// The first failing node decides.
proof fn lemma_first_unranked_parent_some(
    known: Set<Seq<char>>,
    incoming: Map<Seq<char>, Vec<String>>,
    ids: Seq<Seq<char>>,
    index: int,
)
    requires
        0 <= index < ids.len(),
        first_unranked(sorted_texts(neighbors(incoming, ids[index])), known) is Some,
        forall|i: int|
            0 <= i < index ==> first_unranked(
                sorted_texts(neighbors(incoming, #[trigger] ids[i])),
                known,
            ) is None,
    ensures
        first_unranked_parent(known, incoming, ids) == first_unranked(
            sorted_texts(neighbors(incoming, ids[index])),
            known,
        ),
    decreases ids.len(),
{
    if index > 0 {
        assert(first_unranked(sorted_texts(neighbors(incoming, ids[0])), known) is None);
        assert(ids.drop_first()[index - 1] == ids[index]);
        assert forall|i: int| 0 <= i < index - 1 implies first_unranked(
            sorted_texts(neighbors(incoming, #[trigger] ids.drop_first()[i])),
            known,
        ) is None by {
            assert(ids.drop_first()[i] == ids[i + 1]);
        }
        lemma_first_unranked_parent_some(known, incoming, ids.drop_first(), index - 1);
    }
}

/// No node fails.
proof fn lemma_first_unranked_parent_none(
    known: Set<Seq<char>>,
    incoming: Map<Seq<char>, Vec<String>>,
    ids: Seq<Seq<char>>,
)
    requires
        forall|i: int|
            0 <= i < ids.len() ==> first_unranked(
                sorted_texts(neighbors(incoming, #[trigger] ids[i])),
                known,
            ) is None,
    ensures
        first_unranked_parent(known, incoming, ids) is None,
    decreases ids.len(),
{
    if ids.len() > 0 {
        assert(first_unranked(sorted_texts(neighbors(incoming, ids[0])), known) is None);
        assert forall|i: int| 0 <= i < ids.len() - 1 implies first_unranked(
            sorted_texts(neighbors(incoming, #[trigger] ids.drop_first()[i])),
            known,
        ) is None by {
            assert(ids.drop_first()[i] == ids[i + 1]);
        }
        lemma_first_unranked_parent_none(known, incoming, ids.drop_first());
    }
}

/// The edges of a graph as they are seen from both ends, and the nodes at work.
#[verifier::ext_equal]
pub struct PropagationScope {
    pub incoming: Map<Seq<char>, Vec<String>>,
    pub outgoing: Map<Seq<char>, Vec<String>>,
    pub affected: Set<Seq<char>>,
}

impl PropagationScope {
    /// The parents of a node.
    pub open spec fn parents(self, node_id: Seq<char>) -> Set<Seq<char>> {
        neighbors(self.incoming, node_id)
    }

    /// Whether a parent hands its rank on to a node.
    pub open spec fn releases(self, parent: Seq<char>, node_id: Seq<char>) -> bool {
        neighbors(self.outgoing, parent).contains(node_id)
    }

    /// An order of affected nodes in which each comes behind its affected parents, and each
    /// of those knows it as a child.
    pub open spec fn is_release_order(self, order: Seq<Seq<char>>) -> bool {
        &&& order.no_duplicates()
        &&& forall|i: int| 0 <= i < order.len() ==> self.affected.contains(#[trigger] order[i])
        &&& forall|i: int, parent: Seq<char>|
            0 <= i < order.len() && self.affected.contains(parent) && #[trigger] self.parents(
                order[i],
            ).contains(parent) ==> order.take(i).contains(parent) && self.releases(parent, order[i])
    }

    /// The affected nodes that some such order reaches. The others lie on a cycle or behind
    /// one, or behind a parent that does not know its child.
    pub open spec fn released(self) -> Set<Seq<char>> {
        Set::new(
            |node_id: Seq<char>|
                exists|order: Seq<Seq<char>>|
                    self.is_release_order(order) && #[trigger] order.contains(node_id),
        )
    }

    /// Ranks after a propagation through `nodes`: theirs are raised to what their parents
    /// require, the others are unchanged.
    pub open spec fn raised(
        self,
        nodes: Set<Seq<char>>,
        before: Map<Seq<char>, usize>,
        after: Map<Seq<char>, usize>,
    ) -> bool {
        &&& after.dom() == before.dom()
        &&& forall|id: Seq<char>| #[trigger]
            before.contains_key(id) && !nodes.contains(id) ==> after[id] == before[id]
        &&& forall|id: Seq<char>| #[trigger]
            nodes.contains(id) ==> after[id] == higher(
                before[id],
                required_rank(self.parents(id), |parent: Seq<char>| after[parent]),
            )
    }

    /// The parents that a node still waits for once `done` are done.
    spec fn waiting(self, node_id: Seq<char>, done: Set<Seq<char>>) -> Set<Seq<char>> {
        self.parents(node_id).filter(
            |parent: Seq<char>|
                self.affected.contains(parent) && !(done.contains(parent) && self.releases(
                    parent,
                    node_id,
                )),
        )
    }
}

/// The higher of two ranks.
pub open spec fn higher(left: usize, right: usize) -> usize {
    if left < right {
        right
    } else {
        left
    }
}

/// Each child of one of some nodes that is among them has that node among its parents.
pub open spec fn edges_agree(
    nodes: Set<Seq<char>>,
    incoming: Map<Seq<char>, Vec<String>>,
    outgoing: Map<Seq<char>, Vec<String>>,
) -> bool {
    forall|parent: Seq<char>, child: Seq<char>|
        nodes.contains(parent) && nodes.contains(child) && #[trigger] neighbors(
            outgoing,
            parent,
        ).contains(child) ==> neighbors(incoming, child).contains(parent)
}

/// The distinct neighbours of a node, in text order.
fn unique_neighbors(edges: &TextMap<Vec<String>>, node_id: &str) -> (found: TextSet)
    requires
        edges.wf(),
    ensures
        found.wf(),
        found@ == neighbors(edges@, node_id@),
        found.sequence() == sorted_texts(found@),
{
    let found = match edges.get(node_id) {
        Some(list) => TextSet::from_list(list),
        None => TextSet::new(),
    };
    proof {
        found.lemma_sequence();
    }
    found
}

/// Parents that keep their ranks keep requiring the same.
proof fn lemma_required_rank_agrees(
    parents: Set<Seq<char>>,
    left: spec_fn(Seq<char>) -> usize,
    right: spec_fn(Seq<char>) -> usize,
    rank: usize,
)
    requires
        is_required_rank(parents, left, rank),
        forall|parent: Seq<char>| #[trigger] parents.contains(parent) ==> left(parent) == right(parent),
    ensures
        is_required_rank(parents, right, rank),
        required_rank(parents, left) == rank,
        required_rank(parents, right) == rank,
{
    lemma_required_rank_unique(parents, left, rank);
    if !(parents =~= Set::<Seq<char>>::empty()) {
        let p = choose|parent: Seq<char>|
            #[trigger] parents.contains(parent) && rank == next_usize(left(parent));
        assert(parents.contains(p) && rank == next_usize(right(p)));
    }
    assert(is_required_rank(parents, right, rank));
    lemma_required_rank_unique(parents, right, rank);
}

/// The rank that ranked parents require.
fn rank_behind(ranks: &TextMap<usize>, parents: &TextSet) -> (rank: usize)
    requires
        ranks.wf(),
        parents.wf(),
        parents@.subset_of(ranks@.dom()),
    ensures
        is_required_rank(parents@, |parent: Seq<char>| ranks@[parent], rank),
{
    let ghost rank_of = |parent: Seq<char>| ranks@[parent];
    proof {
        parents.lemma_sequence();
    }
    let mut rank: usize = 0;
    let mut i: usize = 0;
    while i < parents.len()
        invariant
            ranks.wf(),
            parents.wf(),
            parents@.subset_of(ranks@.dom()),
            rank_of == (|parent: Seq<char>| ranks@[parent]),
            0 <= i <= parents.sequence().len(),
            forall|j: int| 0 <= j < parents.sequence().len() ==> parents@.contains(#[trigger] parents.sequence()[j]),
            forall|j: int| 0 <= j < i ==> next_usize(rank_of(#[trigger] parents.sequence()[j])) <= rank,
            i == 0 ==> rank == 0,
            i > 0 ==> exists|j: int|
                0 <= j < i && rank == next_usize(rank_of(#[trigger] parents.sequence()[j])),
        decreases parents.sequence().len() - i,
    {
        let ghost previous = rank;
        assert(parents@.contains(parents.sequence()[i as int]));
        match ranks.get(parents.at(i).as_str()) {
            Some(parent_rank) => {
                let next: usize = parent_rank.saturating_add(1);
                assert(next == next_usize(rank_of(parents.sequence()[i as int])));
                if rank <= next {
                    rank = next;
                } else {
                    proof {
                        let j = choose|j: int|
                            0 <= j < i && previous == next_usize(
                                rank_of(#[trigger] parents.sequence()[j]),
                            );
                        assert(0 <= j < i + 1 && rank == next_usize(rank_of(parents.sequence()[j])));
                    }
                }
            },
            None => {
                assert(false);
            },
        }
        i += 1;
    }
    proof {
        assert forall|parent: Seq<char>| #[trigger] parents@.contains(parent) implies next_usize(
            rank_of(parent),
        ) <= rank by {
            let n = parents.sequence().index_of(parent);
            assert(parents.sequence()[n] == parent);
        }
        if i == 0 {
            assert(parents@ =~= Set::<Seq<char>>::empty());
        } else {
            let j = choose|j: int|
                0 <= j < i && rank == next_usize(rank_of(#[trigger] parents.sequence()[j]));
            assert(parents@.contains(parents.sequence()[j]));
        }
    }
    rank
}

/// What a propagation finds before it changes anything: the nodes behind the seeds, or the
/// first id that it needs and that has no rank.
pub open spec fn affected_by(
    known: Set<Seq<char>>,
    incoming: Map<Seq<char>, Vec<String>>,
    outgoing: Map<Seq<char>, Vec<String>>,
    seeds: Seq<Seq<char>>,
) -> Result<Set<Seq<char>>, Seq<char>> {
    match first_unranked(seeds, known) {
        Some(seed) => Err(seed),
        None => match discover(known, outgoing, distinct(seeds), seeds.to_set()) {
            Err(child) => Err(child),
            Ok(affected) => match first_unranked_parent(known, incoming, sorted_texts(affected)) {
                Some(parent) => Err(parent),
                None => Ok(affected),
            },
        },
    }
}

/// The members of the first texts of a list.
proof fn lemma_take_push(ids: Seq<Seq<char>>, count: int)
    requires
        0 <= count < ids.len(),
    ensures
        ids.take(count + 1) == ids.take(count).push(ids[count]),
        ids.take(count + 1).drop_last() == ids.take(count),
        ids.take(count + 1).to_set() == ids.take(count).to_set().insert(ids[count]),
{
    assert(ids.take(count + 1) =~= ids.take(count).push(ids[count]));
    assert(ids.take(count + 1).drop_last() =~= ids.take(count));
    assert forall|id: Seq<char>| ids.take(count + 1).to_set().contains(id) <==> ids.take(
        count,
    ).to_set().insert(ids[count]).contains(id) by {
        lemma_push_members(ids.take(count), ids[count], id);
    }
    assert(ids.take(count + 1).to_set() =~= ids.take(count).to_set().insert(ids[count]));
}

/// Finds the seeds and everything below them.
fn discover_affected(
    ranks: &TextMap<usize>,
    outgoing: &TextMap<Vec<String>>,
    seeds: &[String],
) -> (outcome: Result<TextSet, StableLayoutError>)
    requires
        ranks.wf(),
        outgoing.wf(),
    ensures
        match first_unranked(texts(seeds@), ranks@.dom()) {
            Some(seed) => outcome matches Err(StableLayoutError::MissingNode { node_id }) && node_id@ == seed,
            None => match discover(
                ranks@.dom(),
                outgoing@,
                distinct(texts(seeds@)),
                texts(seeds@).to_set(),
            ) {
                Err(child) => outcome matches Err(StableLayoutError::MissingNode { node_id }) && node_id@
                    == child,
                Ok(affected) => outcome matches Ok(found) && found.wf() && found@ == affected
                    && affected.subset_of(ranks@.dom()),
            },
        },
{
    let ghost known = ranks@.dom();
    let ghost ids = texts(seeds@);
    proof {
        ranks.lemma_keys();
        assert(ids.take(0) =~= Seq::<Seq<char>>::empty());
    }
    let mut affected = TextSet::new();
    let mut pending: Vec<String> = Vec::new();
    proof {
        assert(affected@ =~= ids.take(0).to_set());
        assert(texts(pending@) =~= distinct(ids.take(0)));
    }
    let mut i: usize = 0;
    while i < seeds.len()
        invariant
            0 <= i <= seeds.len(),
            ranks.wf(),
            known == ranks@.dom(),
            ids == texts(seeds@),
            affected.wf(),
            affected@ == ids.take(i as int).to_set(),
            texts(pending@) == distinct(ids.take(i as int)),
            forall|j: int| 0 <= j < i ==> known.contains(#[trigger] ids[j]),
        decreases seeds.len() - i,
    {
        assert(ids[i as int] == seeds@[i as int]@);
        if !ranks.contains_key(seeds[i].as_str()) {
            proof {
                lemma_first_unranked_some(ids, known, i as int);
            }
            return Err(StableLayoutError::MissingNode { node_id: seeds[i].clone() });
        }
        proof {
            lemma_take_push(ids, i as int);
        }
        let ghost before = pending@;
        if affected.insert(seeds[i].clone()) {
            pending.push(seeds[i].clone());
            assert(texts(pending@) =~= texts(before).push(ids[i as int]));
        }
        i += 1;
    }
    proof {
        assert(ids.take(i as int) =~= ids);
        lemma_first_unranked_none(ids, known);
        assert forall|id: Seq<char>| affected@.contains(id) implies known.contains(id) by {
            let n = ids.index_of(id);
            assert(known.contains(ids[n]));
        }
    }
    let mut head: usize = 0;
    assert(texts(pending@).skip(0) =~= texts(pending@));
    while head < pending.len()
        invariant
            ranks.wf(),
            outgoing.wf(),
            known == ranks@.dom(),
            known.finite(),
            affected.wf(),
            affected@.subset_of(known),
            head <= pending.len(),
            first_unranked(ids, known) is None,
            ids == texts(seeds@),
            discover(known, outgoing@, distinct(ids), ids.to_set()) == discover(
                known,
                outgoing@,
                texts(pending@).skip(head as int),
                affected@,
            ),
        decreases known.difference(affected@).len(), pending.len() - head,
    {
        let children = unique_neighbors(outgoing, pending[head].as_str());
        let ghost queue = texts(pending@).skip(head as int);
        let ghost found = affected@;
        let ghost list = children.sequence();
        let ghost fresh = |child: Seq<char>| !found.contains(child);
        proof {
            children.lemma_sequence();
            assert(queue[0] == pending@[head as int]@);
            assert(list == sorted_texts(neighbors(outgoing@, queue[0])));
            assert(list.take(0) =~= Seq::<Seq<char>>::empty());
            reveal(Seq::filter);
            assert(texts(pending@).skip(head + 1) =~= queue.drop_first() + list.take(0).filter(fresh));
            assert(affected@ =~= found.union(list.take(0).to_set()));
        }
        let mut k: usize = 0;
        while k < children.len()
            invariant
                ranks.wf(),
                known == ranks@.dom(),
                affected.wf(),
                children.wf(),
                list == children.sequence(),
                list.no_duplicates(),
                0 <= k <= list.len(),
                head < pending.len(),
                fresh == (|child: Seq<char>| !found.contains(child)),
                forall|j: int| 0 <= j < k ==> known.contains(#[trigger] list[j]),
                texts(pending@).skip(head + 1) == queue.drop_first() + list.take(k as int).filter(fresh),
                affected@ == found.union(list.take(k as int).to_set()),
                queue.len() > 0,
                list == sorted_texts(neighbors(outgoing@, queue[0])),
                first_unranked(ids, known) is None,
                ids == texts(seeds@),
                known.finite(),
                discover(known, outgoing@, distinct(ids), ids.to_set()) == discover(
                    known,
                    outgoing@,
                    queue,
                    found,
                ),
            decreases list.len() - k,
        {
            let child = children.at(k);
            if !ranks.contains_key(child.as_str()) {
                proof {
                    lemma_first_unranked_some(list, known, k as int);
                }
                return Err(StableLayoutError::MissingNode { node_id: child.clone() });
            }
            proof {
                lemma_take_push(list, k as int);
                lemma_filter_push(list.take(k as int), fresh, list[k as int]);
                if list.take(k as int).contains(list[k as int]) {
                    let n = list.take(k as int).index_of(list[k as int]);
                    assert(list[n] == list[k as int]);
                }
            }
            let ghost before = pending@;
            if affected.insert(child.clone()) {
                pending.push(child.clone());
                assert(texts(pending@).skip(head + 1) =~= texts(before).skip(head + 1).push(
                    list[k as int],
                ));
                assert(queue.drop_first() + list.take(k + 1).filter(fresh) =~= (queue.drop_first()
                    + list.take(k as int).filter(fresh)).push(list[k as int]));
            }
            assert(affected@ =~= found.union(list.take(k + 1).to_set()));
            k += 1;
        }
        proof {
            assert(list.take(k as int) =~= list);
            lemma_first_unranked_none(list, known);
            lemma_progress(known, found, list);
            assert forall|id: Seq<char>| affected@.contains(id) implies known.contains(id) by {
                if !found.contains(id) {
                    let n = list.index_of(id);
                    assert(known.contains(list[n]));
                }
            }
            assert(texts(pending@).skip(head + 1).len() == queue.len() - 1 + list.filter(fresh).len());
        }
        head += 1;
    }
    assert(texts(pending@).skip(head as int) =~= Seq::<Seq<char>>::empty());
    Ok(affected)
}

/// Finite sets of parents wait for finitely many.
proof fn lemma_waiting_finite(scope: PropagationScope, node_id: Seq<char>, done: Set<Seq<char>>)
    ensures
        scope.waiting(node_id, done).finite(),
{
    let parents = scope.parents(node_id);
    if scope.incoming.contains_key(node_id) {
        vstd::seq_lib::seq_to_set_is_finite(texts(scope.incoming[node_id]@));
    }
    vstd::set_lib::lemma_len_subset(scope.waiting(node_id, done), parents);
}

/// Counts for each affected node the affected parents that it waits for.
fn count_waiting(
    ranks: &TextMap<usize>,
    incoming: &TextMap<Vec<String>>,
    affected: &TextSet,
    Ghost(scope): Ghost<PropagationScope>,
) -> (outcome: Result<TextMap<usize>, StableLayoutError>)
    requires
        ranks.wf(),
        incoming.wf(),
        affected.wf(),
        scope.incoming == incoming@,
        scope.affected == affected@,
    ensures
        match first_unranked_parent(ranks@.dom(), incoming@, sorted_texts(affected@)) {
            Some(parent) => outcome matches Err(StableLayoutError::MissingNode { node_id }) && node_id@
                == parent,
            None => outcome matches Ok(counts) && {
                &&& counts.wf()
                &&& counts@.dom() == affected@
                &&& forall|id: Seq<char>| #[trigger]
                    affected@.contains(id) ==> counts@[id] == scope.waiting(id, Set::empty()).len()
                        && scope.parents(id).subset_of(ranks@.dom())
            },
        },
{
    let ghost known = ranks@.dom();
    let ghost order = affected.sequence();
    proof {
        affected.lemma_sequence();
    }
    let mut counts: TextMap<usize> = TextMap::new();
    let mut i: usize = 0;
    assert(counts@.dom() =~= order.take(0).to_set());
    while i < affected.len()
        invariant
            ranks.wf(),
            incoming.wf(),
            affected.wf(),
            known == ranks@.dom(),
            order == affected.sequence(),
            order == sorted_texts(affected@),
            scope.incoming == incoming@,
            scope.affected == affected@,
            0 <= i <= order.len(),
            counts.wf(),
            counts@.dom() == order.take(i as int).to_set(),
            forall|j: int|
                0 <= j < i ==> first_unranked(
                    sorted_texts(neighbors(incoming@, #[trigger] order[j])),
                    known,
                ) is None,
            forall|id: Seq<char>| #[trigger]
                counts@.contains_key(id) ==> counts@[id] == scope.waiting(id, Set::empty()).len()
                    && scope.parents(id).subset_of(known),
        decreases order.len() - i,
    {
        let node_id = affected.at(i);
        let parents = unique_neighbors(incoming, node_id.as_str());
        let ghost list = parents.sequence();
        let ghost id = node_id@;
        proof {
            parents.lemma_sequence();
        }
        let mut count: usize = 0;
        let mut k: usize = 0;
        let ghost waiting = Set::<Seq<char>>::empty();
        assert(waiting =~= list.take(0).to_set().intersect(affected@));
        while k < parents.len()
            invariant
                ranks.wf(),
                parents.wf(),
                affected.wf(),
                known == ranks@.dom(),
                list == parents.sequence(),
                list.no_duplicates(),
                0 <= k <= list.len(),
                count <= k,
                waiting.finite(),
                count == waiting.len(),
                waiting == list.take(k as int).to_set().intersect(affected@),
                forall|j: int| 0 <= j < k ==> known.contains(#[trigger] list[j]),
                order == sorted_texts(affected@),
                order == affected.sequence(),
                0 <= i < order.len(),
                id == order[i as int],
                list == sorted_texts(neighbors(incoming@, id)),
                forall|j: int|
                    0 <= j < i ==> first_unranked(
                        sorted_texts(neighbors(incoming@, #[trigger] order[j])),
                        known,
                    ) is None,
            decreases list.len() - k,
        {
            let parent = parents.at(k);
            if !ranks.contains_key(parent.as_str()) {
                proof {
                    lemma_first_unranked_some(list, known, k as int);
                    lemma_first_unranked_parent_some(known, incoming@, order, i as int);
                }
                return Err(StableLayoutError::MissingNode { node_id: parent.clone() });
            }
            proof {
                lemma_take_push(list, k as int);
                if list.take(k as int).contains(list[k as int]) {
                    let n = list.take(k as int).index_of(list[k as int]);
                    assert(list[n] == list[k as int]);
                }
            }
            if affected.contains(parent.as_str()) {
                count += 1;
                proof {
                    assert(!waiting.contains(list[k as int]));
                    waiting = waiting.insert(list[k as int]);
                }
            }
            assert(waiting =~= list.take(k + 1).to_set().intersect(affected@));
            k += 1;
        }
        proof {
            assert(list.take(k as int) =~= list);
            lemma_first_unranked_none(list, known);
            assert(waiting =~= scope.waiting(id, Set::empty()));
            assert forall|parent: Seq<char>| scope.parents(id).contains(parent) implies known.contains(
                parent,
            ) by {
                let n = list.index_of(parent);
                assert(known.contains(list[n]));
            }
            lemma_take_push(order, i as int);
        }
        counts.insert(node_id.clone(), count);
        assert(counts@.dom() =~= order.take(i + 1).to_set());
        i += 1;
    }
    proof {
        assert(order.take(i as int) =~= order);
        lemma_first_unranked_parent_none(known, incoming@, order);
    }
    Ok(counts)
}

/// A done node waits for nobody.
proof fn lemma_done_waits_for_none(scope: PropagationScope, order: Seq<Seq<char>>, node_id: Seq<char>)
    requires
        scope.is_release_order(order),
        order.contains(node_id),
    ensures
        scope.waiting(node_id, order.to_set()) =~= Set::<Seq<char>>::empty(),
{
    let n = order.index_of(node_id);
    assert forall|parent: Seq<char>| !scope.waiting(node_id, order.to_set()).contains(parent) by {
        if scope.parents(order[n]).contains(parent) && scope.affected.contains(parent) {
            assert(order.take(n).contains(parent));
            let m = order.take(n).index_of(parent);
            assert(order[m] == parent);
        }
    }
}

/// An order behind which every other node waits reaches every node that can be reached.
proof fn lemma_complete_order(scope: PropagationScope, order: Seq<Seq<char>>)
    requires
        scope.is_release_order(order),
        forall|id: Seq<char>| #[trigger]
            scope.affected.contains(id) && !order.to_set().contains(id) ==> scope.waiting(
                id,
                order.to_set(),
            ) != Set::<Seq<char>>::empty(),
    ensures
        scope.released() == order.to_set(),
{
    let done = order.to_set();
    assert forall|id: Seq<char>| scope.released().contains(id) <==> done.contains(id) by {
        if done.contains(id) {
            assert(scope.is_release_order(order) && order.contains(id));
        }
        if scope.released().contains(id) {
            let other = choose|other: Seq<Seq<char>>|
                scope.is_release_order(other) && #[trigger] other.contains(id);
            lemma_order_within(scope, order, other, other.len() as int);
            let n = other.index_of(id);
            assert(done.contains(other[n]));
        }
    }
    assert(scope.released() =~= done);
}

/// Any order stays within one behind which every other node waits.
proof fn lemma_order_within(
    scope: PropagationScope,
    order: Seq<Seq<char>>,
    other: Seq<Seq<char>>,
    count: int,
)
    requires
        scope.is_release_order(order),
        scope.is_release_order(other),
        0 <= count <= other.len(),
        forall|id: Seq<char>| #[trigger]
            scope.affected.contains(id) && !order.to_set().contains(id) ==> scope.waiting(
                id,
                order.to_set(),
            ) != Set::<Seq<char>>::empty(),
    ensures
        forall|i: int| 0 <= i < count ==> order.to_set().contains(#[trigger] other[i]),
    decreases count,
{
    if count > 0 {
        lemma_order_within(scope, order, other, count - 1);
        let id = other[count - 1];
        let done = order.to_set();
        assert(scope.affected.contains(id));
        if !done.contains(id) {
            let waiting = scope.waiting(id, done);
            assert forall|parent: Seq<char>| !waiting.contains(parent) by {
                if scope.parents(other[count - 1]).contains(parent) && scope.affected.contains(parent) {
                    assert(other.take(count - 1).contains(parent));
                    let m = other.take(count - 1).index_of(parent);
                    assert(done.contains(other[m]));
                }
            }
            assert(waiting =~= Set::<Seq<char>>::empty());
        }
    }
}

/// Doing a node whose parents are done extends the order.
proof fn lemma_order_extends(scope: PropagationScope, order: Seq<Seq<char>>, node_id: Seq<char>)
    requires
        scope.is_release_order(order),
        scope.affected.contains(node_id),
        !order.contains(node_id),
        scope.waiting(node_id, order.to_set()) =~= Set::<Seq<char>>::empty(),
    ensures
        scope.is_release_order(order.push(node_id)),
        order.push(node_id).to_set() == order.to_set().insert(node_id),
{
    let longer = order.push(node_id);
    assert forall|i: int, parent: Seq<char>|
        0 <= i < longer.len() && scope.affected.contains(parent) && #[trigger] scope.parents(
            longer[i],
        ).contains(parent) implies longer.take(i).contains(parent) && scope.releases(
        parent,
        longer[i],
    ) by {
        if i < order.len() {
            assert(longer[i] == order[i]);
            assert(longer.take(i) =~= order.take(i));
        } else {
            assert(longer.take(i) =~= order);
            assert(!scope.waiting(node_id, order.to_set()).contains(parent));
        }
    }
    assert forall|id: Seq<char>| longer.to_set().contains(id) <==> order.to_set().insert(
        node_id,
    ).contains(id) by {
        lemma_push_members(order, node_id, id);
    }
    assert(longer.to_set() =~= order.to_set().insert(node_id));
}

/// What a node waits for once one more node is done.
proof fn lemma_waiting_step(
    scope: PropagationScope,
    done: Set<Seq<char>>,
    node_id: Seq<char>,
    child: Seq<char>,
)
    requires
        scope.affected.contains(node_id),
        !done.contains(node_id),
    ensures
        scope.releases(node_id, child) && scope.parents(child).contains(node_id) ==> {
            &&& scope.waiting(child, done).contains(node_id)
            &&& scope.waiting(child, done).len() > 0
            &&& scope.waiting(child, done.insert(node_id)) == scope.waiting(child, done).remove(node_id)
            &&& scope.waiting(child, done.insert(node_id)).len() == scope.waiting(child, done).len() - 1
        },
        !scope.releases(node_id, child) ==> scope.waiting(child, done.insert(node_id))
            == scope.waiting(child, done),
{
    let before = scope.waiting(child, done);
    let after = scope.waiting(child, done.insert(node_id));
    lemma_waiting_finite(scope, child, done);
    if scope.releases(node_id, child) && scope.parents(child).contains(node_id) {
        assert(before.contains(node_id));
        assert(after =~= before.remove(node_id));
    }
    if !scope.releases(node_id, child) {
        assert(after =~= before);
    }
}

/// Releases the children of a node that is done.
fn release_children(
    outgoing: &TextMap<Vec<String>>,
    affected: &TextSet,
    node_id: &str,
    counts: &mut TextMap<usize>,
    ready: &mut TextSet,
    Ghost(scope): Ghost<PropagationScope>,
    Ghost(order): Ghost<Seq<Seq<char>>>,
)
    requires
        outgoing.wf(),
        affected.wf(),
        old(counts).wf(),
        old(ready).wf(),
        scope.outgoing == outgoing@,
        scope.affected == affected@,
        scope.is_release_order(order),
        affected@.contains(node_id@),
        !order.contains(node_id@),
        scope.waiting(node_id@, order.to_set()) =~= Set::<Seq<char>>::empty(),
        edges_agree(affected@, scope.incoming, scope.outgoing),
        old(counts)@.dom() == affected@,
        forall|id: Seq<char>| #[trigger]
            affected@.contains(id) ==> old(counts)@[id] == scope.waiting(id, order.to_set()).len(),
        forall|id: Seq<char>| #[trigger]
            old(ready)@.contains(id) <==> affected@.contains(id) && id != node_id@ && !order.contains(
                id,
            ) && old(counts)@[id] == 0,
    ensures
        final(counts).wf(),
        final(ready).wf(),
        final(counts)@.dom() == affected@,
        forall|id: Seq<char>| #[trigger]
            affected@.contains(id) ==> final(counts)@[id] == scope.waiting(
                id,
                order.to_set().insert(node_id@),
            ).len(),
        forall|id: Seq<char>| #[trigger]
            final(ready)@.contains(id) <==> affected@.contains(id) && id != node_id@
                && !order.contains(id) && final(counts)@[id] == 0,
{
    let children = unique_neighbors(outgoing, node_id);
    let ghost list = children.sequence();
    let ghost done = order.to_set();
    let ghost after = done.insert(node_id@);
    proof {
        children.lemma_sequence();
    }
    let mut k: usize = 0;
    while k < children.len()
        invariant
            affected.wf(),
            children.wf(),
            counts.wf(),
            ready.wf(),
            list == children.sequence(),
            list.no_duplicates(),
            list.to_set() == neighbors(scope.outgoing, node_id@),
            0 <= k <= list.len(),
            scope.affected == affected@,
            scope.is_release_order(order),
            done == order.to_set(),
            after == done.insert(node_id@),
            affected@.contains(node_id@),
            !order.contains(node_id@),
            scope.waiting(node_id@, done) =~= Set::<Seq<char>>::empty(),
            edges_agree(affected@, scope.incoming, scope.outgoing),
            counts@.dom() == affected@,
            forall|id: Seq<char>| #[trigger]
                affected@.contains(id) ==> counts@[id] == (if list.take(k as int).contains(id) {
                    scope.waiting(id, after).len()
                } else {
                    scope.waiting(id, done).len()
                }),
            forall|id: Seq<char>| #[trigger]
                ready@.contains(id) <==> affected@.contains(id) && id != node_id@ && !order.contains(
                    id,
                ) && counts@[id] == 0,
        decreases list.len() - k,
    {
        let child = children.at(k);
        let ghost id = list[k as int];
        proof {
            lemma_take_push(list, k as int);
            assert forall|other: Seq<char>| list.take(k + 1).contains(other) <==> list.take(
                k as int,
            ).contains(other) || other == id by {
                lemma_push_members(list.take(k as int), id, other);
            }
            if list.take(k as int).contains(id) {
                let n = list.take(k as int).index_of(id);
                assert(list[n] == id);
            }
        }
        match counts.get(child.as_str()) {
            Some(count) => {
                let left: usize = *count;
                proof {
                    assert(list.contains(id));
                    assert(list.to_set().contains(id));
                    assert(scope.releases(node_id@, id));
                    assert(neighbors(scope.incoming, id).contains(node_id@));
                    lemma_waiting_step(scope, done, node_id@, id);
                    assert(id != node_id@);
                    if order.contains(id) {
                        lemma_done_waits_for_none(scope, order, id);
                    }
                }
                counts.insert(child.clone(), left - 1);
                if left - 1 == 0 {
                    ready.insert(child.clone());
                }
                assert(counts@.dom() =~= affected@);
            },
            None => {},
        }
        k += 1;
    }
    proof {
        assert(list.take(k as int) =~= list);
        assert forall|id: Seq<char>| #[trigger] affected@.contains(id) implies counts@[id] == scope.waiting(
            id,
            after,
        ).len() by {
            if !list.contains(id) {
                assert(!list.to_set().contains(id));
                assert(!scope.releases(node_id@, id));
                lemma_waiting_step(scope, done, node_id@, id);
            }
        }
    }
}

/// Raises the ranks below the seeds so that every node stands behind its parents.
///
/// The two tables have to agree on the edges between the nodes that are affected. Fails before any
/// change where a seed, a descendant or one of their parents has no rank.
/// Where the affected nodes form a cycle, the nodes that do not depend on it are raised all
/// the same, and the others are named.
pub fn propagate_rank_increases(
    ranks: &mut TextMap<usize>,
    incoming: &TextMap<Vec<String>>,
    outgoing: &TextMap<Vec<String>>,
    seeds: &[String],
) -> (outcome: Result<TextSet, StableLayoutError>)
    requires
        old(ranks).wf(),
        incoming.wf(),
        outgoing.wf(),
        affected_by(old(ranks)@.dom(), incoming@, outgoing@, texts(seeds@)) matches Ok(affected)
            ==> edges_agree(affected, incoming@, outgoing@),
    ensures
        final(ranks).wf(),
        match affected_by(old(ranks)@.dom(), incoming@, outgoing@, texts(seeds@)) {
            Err(missing) => {
                &&& outcome matches Err(StableLayoutError::MissingNode { node_id }) && node_id@ == missing
                &&& final(ranks)@ == old(ranks)@
            },
            Ok(affected) => {
                let scope = PropagationScope { incoming: incoming@, outgoing: outgoing@, affected };
                &&& scope.raised(scope.released(), old(ranks)@, final(ranks)@)
                &&& match outcome {
                    Ok(changed) => {
                        &&& scope.released() == affected
                        &&& changed.wf()
                        &&& changed@ == affected.filter(
                            |id: Seq<char>| final(ranks)@[id] != old(ranks)@[id],
                        )
                    },
                    Err(StableLayoutError::Cycle { node_ids }) => {
                        &&& scope.released() != affected
                        &&& texts(node_ids@) == sorted_texts(affected.difference(scope.released()))
                    },
                    Err(_) => false,
                }
            },
        },
{
    let affected = match discover_affected(ranks, outgoing, seeds) {
        Err(error) => return Err(error),
        Ok(affected) => affected,
    };
    let ghost scope = PropagationScope {
        incoming: incoming@,
        outgoing: outgoing@,
        affected: affected@,
    };
    let ghost before = ranks@;
    let mut counts = match count_waiting(ranks, incoming, &affected, Ghost(scope)) {
        Err(error) => return Err(error),
        Ok(counts) => counts,
    };
    let ghost order = Seq::<Seq<char>>::empty();
    let mut ready = TextSet::new();
    let mut i: usize = 0;
    proof {
        counts.lemma_keys();
        affected.lemma_sequence();
    }
    while i < counts.len()
        invariant
            counts.wf(),
            ready.wf(),
            0 <= i <= counts.keys().len(),
            counts.keys().no_duplicates(),
            counts@.dom() == affected@,
            forall|j: int| 0 <= j < counts.keys().len() ==> counts@.contains_key(#[trigger] counts.keys()[j]),
            forall|id: Seq<char>| #[trigger]
                ready@.contains(id) <==> counts.keys().take(i as int).contains(id) && counts@[id] == 0,
        decreases counts.keys().len() - i,
    {
        proof {
            lemma_take_push(counts.keys(), i as int);
            assert forall|id: Seq<char>| #[trigger] counts.keys().take(i + 1).contains(id)
                <==> counts.keys().take(i as int).contains(id) || id == counts.keys()[i as int] by {
                lemma_push_members(counts.keys().take(i as int), counts.keys()[i as int], id);
            }
        }
        if *counts.value_at(i) == 0 {
            ready.insert(counts.key_at(i).clone());
        }
        i += 1;
    }
    let mut changed = TextSet::new();
    let total: usize = affected.len();
    let mut visited: usize = 0;
    proof {
        assert(counts.keys().take(i as int) =~= counts.keys());
        assert(order.to_set() =~= Set::<Seq<char>>::empty());
        assert forall|id: Seq<char>| #[trigger] ready@.contains(id) <==> affected@.contains(id)
            && !order.contains(id) && counts@[id] == 0 by {
            assert(counts@.contains_key(id) <==> counts.keys().contains(id));
        }
    }
    loop
        invariant
            ranks.wf(),
            incoming.wf(),
            outgoing.wf(),
            affected.wf(),
            counts.wf(),
            ready.wf(),
            changed.wf(),
            scope == (PropagationScope {
                incoming: incoming@,
                outgoing: outgoing@,
                affected: affected@,
            }),
            before == old(ranks)@,
            affected_by(before.dom(), incoming@, outgoing@, texts(seeds@)) == Ok::<
                Set<Seq<char>>,
                Seq<char>,
            >(affected@),
            edges_agree(affected@, incoming@, outgoing@),
            affected@.finite(),
            affected@.subset_of(before.dom()),
            affected@.len() == total,
            forall|id: Seq<char>| #[trigger]
                affected@.contains(id) ==> scope.parents(id).subset_of(before.dom()),
            scope.is_release_order(order),
            visited == order.len(),
            counts@.dom() == affected@,
            forall|id: Seq<char>| #[trigger]
                affected@.contains(id) ==> counts@[id] == scope.waiting(id, order.to_set()).len(),
            forall|id: Seq<char>| #[trigger]
                ready@.contains(id) <==> affected@.contains(id) && !order.contains(id) && counts@[id]
                    == 0,
            ranks@.dom() == before.dom(),
            forall|id: Seq<char>| #[trigger]
                before.contains_key(id) && !order.contains(id) ==> ranks@[id] == before[id],
            forall|id: Seq<char>| #[trigger]
                order.contains(id) ==> {
                    let rank_of = |parent: Seq<char>| ranks@[parent];
                    &&& is_required_rank(
                        scope.parents(id),
                        rank_of,
                        required_rank(scope.parents(id), rank_of),
                    )
                    &&& ranks@[id] == higher(before[id], required_rank(scope.parents(id), rank_of))
                },
            forall|id: Seq<char>| #[trigger]
                changed@.contains(id) <==> order.contains(id) && ranks@[id] != before[id],
        ensures
            forall|id: Seq<char>| #[trigger]
                affected@.contains(id) && !order.contains(id) ==> counts@[id] != 0,
        decreases affected@.len() - order.len(),
    {
        proof {
            order.unique_seq_to_set();
            assert(order.to_set().subset_of(affected@)) by {
                assert forall|id: Seq<char>| order.to_set().contains(id) implies affected@.contains(id) by {
                    let n = order.index_of(id);
                    assert(affected@.contains(order[n]));
                }
            }
            vstd::set_lib::lemma_len_subset(order.to_set(), affected@);
        }
        let node_id = match ready.pop_first() {
            None => {
                proof {
                    assert forall|id: Seq<char>| #[trigger] affected@.contains(id) && !order.contains(id) implies counts@[id]
                        != 0 by {
                        assert(!ready@.contains(id));
                    }
                }
                break ;
            },
            Some(node_id) => node_id,
        };
        let ghost id = node_id@;
        let ghost earlier = ranks@;
        let ghost done = order.to_set();
        proof {
            lemma_waiting_finite(scope, id, done);
            assert(scope.waiting(id, done) =~= Set::<Seq<char>>::empty());
            lemma_order_extends(scope, order, id);
            assert(affected@.len() > order.len()) by {
                assert(order.to_set().subset_of(affected@.remove(id)));
                vstd::set_lib::lemma_len_subset(order.to_set(), affected@.remove(id));
            }
        }
        visited = visited + 1;
        let parents = unique_neighbors(incoming, node_id.as_str());
        let required: usize = rank_behind(ranks, &parents);
        match ranks.get(node_id.as_str()) {
            Some(rank) => {
                if *rank < required {
                    ranks.insert(node_id.clone(), required);
                    changed.insert(node_id.clone());
                }
            },
            None => {
                assert(false);
            },
        }
        proof {
            assert(ranks@.dom() =~= before.dom());
            assert(ranks@[id] == higher(before[id], required));
            let now = ranks@;
            let old_rank_of = |parent: Seq<char>| earlier[parent];
            let rank_of = |parent: Seq<char>| now[parent];
            assert forall|other: Seq<char>| #[trigger] order.push(id).contains(other) implies {
                &&& is_required_rank(
                    scope.parents(other),
                    rank_of,
                    required_rank(scope.parents(other), rank_of),
                )
                &&& now[other] == higher(before[other], required_rank(scope.parents(other), rank_of))
            } by {
                lemma_push_members(order, id, other);
                if scope.parents(other).contains(id) {
                    let n = order.push(id).index_of(other);
                    assert(order.push(id)[n] == other);
                    assert(scope.parents(order.push(id)[n]).contains(id));
                    assert(order.push(id).take(n).contains(id));
                    let m = order.push(id).take(n).index_of(id);
                    assert(order.push(id)[m] == id);
                    assert(order.contains(id));
                }
                if other == id {
                    lemma_required_rank_agrees(scope.parents(id), old_rank_of, rank_of, required);
                } else {
                    assert(order.contains(other));
                    lemma_required_rank_agrees(
                        scope.parents(other),
                        old_rank_of,
                        rank_of,
                        required_rank(scope.parents(other), old_rank_of),
                    );
                }
            }
            assert forall|other: Seq<char>| #[trigger] order.push(id).contains(other) <==> order.contains(
                other,
            ) || other == id by {
                lemma_push_members(order, id, other);
            }
            assert forall|parent: Seq<char>, child: Seq<char>|
                affected@.contains(parent) && affected@.contains(child) && #[trigger] neighbors(
                    scope.outgoing,
                    parent,
                ).contains(child) implies neighbors(scope.incoming, child).contains(parent) by {
                assert(before.dom().contains(parent) && before.dom().contains(child));
            }
        }
        release_children(
            outgoing,
            &affected,
            node_id.as_str(),
            &mut counts,
            &mut ready,
            Ghost(scope),
            Ghost(order),
        );
        proof {
            order = order.push(id);
        }
    }
    proof {
        let done = order.to_set();
        assert forall|id: Seq<char>| #[trigger] scope.affected.contains(id) && !done.contains(id) implies scope.waiting(
            id,
            done,
        ) != Set::<Seq<char>>::empty() by {
            assert(counts@[id] != 0);
        }
        lemma_complete_order(scope, order);
        order.unique_seq_to_set();
        assert(done.subset_of(affected@)) by {
            assert forall|id: Seq<char>| done.contains(id) implies affected@.contains(id) by {
                let n = order.index_of(id);
                assert(affected@.contains(order[n]));
            }
        }
        assert(scope.raised(scope.released(), before, ranks@));
    }
    if visited != total {
        let mut stuck = TextSet::new();
        let mut k: usize = 0;
        proof {
            counts.lemma_keys();
            assert forall|id: Seq<char>| #[trigger] affected@.contains(id) implies (counts@[id] == 0
                <==> order.contains(id)) by {
                if order.contains(id) {
                    lemma_done_waits_for_none(scope, order, id);
                }
            }
        }
        while k < counts.len()
            invariant
                counts.wf(),
                stuck.wf(),
                0 <= k <= counts.keys().len(),
                forall|j: int| 0 <= j < counts.keys().len() ==> counts@.contains_key(#[trigger] counts.keys()[j]),
                forall|id: Seq<char>| #[trigger]
                    stuck@.contains(id) <==> counts.keys().take(k as int).contains(id) && counts@[id] > 0,
            decreases counts.keys().len() - k,
        {
            proof {
                lemma_take_push(counts.keys(), k as int);
                assert forall|id: Seq<char>| #[trigger] counts.keys().take(k + 1).contains(id)
                    <==> counts.keys().take(k as int).contains(id) || id == counts.keys()[k as int] by {
                    lemma_push_members(counts.keys().take(k as int), counts.keys()[k as int], id);
                }
            }
            if *counts.value_at(k) > 0 {
                stuck.insert(counts.key_at(k).clone());
            }
            k += 1;
        }
        proof {
            assert(counts.keys().take(k as int) =~= counts.keys());
            assert forall|id: Seq<char>| stuck@.contains(id) <==> affected@.difference(
                order.to_set(),
            ).contains(id) by {
                assert(counts@.contains_key(id) <==> counts.keys().contains(id));
                if affected@.contains(id) {
                    assert(counts@[id] == 0 <==> order.contains(id));
                }
            }
            assert(stuck@ =~= affected@.difference(scope.released()));
            stuck.lemma_sequence();
        }
        return Err(StableLayoutError::Cycle { node_ids: stuck.to_vec() });
    }
    proof {
        vstd::set_lib::lemma_subset_equality(order.to_set(), affected@);
        assert(changed@ =~= affected@.filter(|id: Seq<char>| ranks@[id] != before[id]));
    }
    Ok(changed)
}

/// Finitely many parents always require some rank.
pub proof fn lemma_required_rank_exists(parents: Set<Seq<char>>, rank_of: spec_fn(Seq<char>) -> usize)
    requires
        parents.finite(),
    ensures
        is_required_rank(parents, rank_of, required_rank(parents, rank_of)),
    decreases parents.len(),
{
    if parents =~= Set::<Seq<char>>::empty() {
        assert(is_required_rank(parents, rank_of, 0));
    } else {
        let parent = parents.choose();
        let rest = parents.remove(parent);
        lemma_required_rank_exists(rest, rank_of);
        let below = required_rank(rest, rank_of);
        let rank = higher(below, next_usize(rank_of(parent)));
        assert forall|other: Seq<char>| #[trigger] parents.contains(other) implies next_usize(
            rank_of(other),
        ) <= rank by {
            if other != parent {
                assert(rest.contains(other));
            }
        }
        if rank == next_usize(rank_of(parent)) {
            assert(parents.contains(parent));
        } else {
            let witness = choose|other: Seq<char>|
                #[trigger] rest.contains(other) && below == next_usize(rank_of(other));
            assert(parents.contains(witness) && rank == next_usize(rank_of(witness)));
        }
        assert(is_required_rank(parents, rank_of, rank));
    }
}

/// The neighbours of a node are finitely many.
proof fn lemma_neighbors_finite(edges: Map<Seq<char>, Vec<String>>, node_id: Seq<char>)
    ensures
        neighbors(edges, node_id).finite(),
{
    if edges.contains_key(node_id) {
        vstd::seq_lib::seq_to_set_is_finite(texts(edges[node_id]@));
    }
}

/// No rank goes down, and every raised node stands behind all of its parents.
pub proof fn lemma_raised_behind_parents(
    scope: PropagationScope,
    nodes: Set<Seq<char>>,
    before: Map<Seq<char>, usize>,
    after: Map<Seq<char>, usize>,
)
    requires
        scope.raised(nodes, before, after),
    ensures
        forall|id: Seq<char>| #[trigger] before.contains_key(id) ==> before[id] <= after[id],
        forall|id: Seq<char>, parent: Seq<char>|
            nodes.contains(id) && #[trigger] scope.parents(id).contains(parent) ==> next_usize(
                after[parent],
            ) <= after[id],
{
    let rank_of = |parent: Seq<char>| after[parent];
    assert forall|id: Seq<char>| #[trigger] before.contains_key(id) implies before[id] <= after[id] by {
        if nodes.contains(id) {
            assert(after[id] >= before[id]);
        }
    }
    assert forall|id: Seq<char>, parent: Seq<char>|
        nodes.contains(id) && #[trigger] scope.parents(id).contains(parent) implies next_usize(
        after[parent],
    ) <= after[id] by {
        lemma_neighbors_finite(scope.incoming, id);
        lemma_required_rank_exists(scope.parents(id), rank_of);
        assert(next_usize(rank_of(parent)) <= required_rank(scope.parents(id), rank_of));
    }
}

/// Propagating once more changes nothing.
pub proof fn lemma_raised_idempotent(
    scope: PropagationScope,
    nodes: Set<Seq<char>>,
    before: Map<Seq<char>, usize>,
    after: Map<Seq<char>, usize>,
)
    requires
        scope.raised(nodes, before, after),
    ensures
        scope.raised(nodes, after, after),
{
    assert forall|id: Seq<char>| #[trigger] nodes.contains(id) implies after[id] == higher(
        after[id],
        required_rank(scope.parents(id), |parent: Seq<char>| after[parent]),
    ) by {}
}

/// The raised ranks are the lowest that respect every parent: any other ranks that keep
/// the unaffected nodes, go nowhere below the old ranks and put each raised node behind
/// its parents are nowhere lower.
pub proof fn lemma_raised_least(
    scope: PropagationScope,
    before: Map<Seq<char>, usize>,
    after: Map<Seq<char>, usize>,
    other: Map<Seq<char>, usize>,
)
    requires
        scope.affected.subset_of(before.dom()),
        forall|id: Seq<char>| #[trigger]
            scope.affected.contains(id) ==> scope.parents(id).subset_of(before.dom()),
        scope.released() == scope.affected,
        scope.raised(scope.affected, before, after),
        other.dom() == before.dom(),
        forall|id: Seq<char>| #[trigger] before.contains_key(id) ==> before[id] <= other[id],
        forall|id: Seq<char>, parent: Seq<char>|
            scope.affected.contains(id) && #[trigger] scope.parents(id).contains(parent) ==> next_usize(
                other[parent],
            ) <= other[id],
    ensures
        forall|id: Seq<char>| #[trigger] before.contains_key(id) ==> after[id] <= other[id],
{
    assert forall|id: Seq<char>| #[trigger] before.contains_key(id) implies after[id] <= other[id] by {
        if scope.affected.contains(id) {
            assert(scope.released().contains(id));
            let order = choose|order: Seq<Seq<char>>|
                scope.is_release_order(order) && #[trigger] order.contains(id);
            lemma_least_along(scope, before, after, other, order, order.len() as int);
            let n = order.index_of(id);
            assert(after[order[n]] <= other[order[n]]);
        }
    }
}

proof fn lemma_least_along(
    scope: PropagationScope,
    before: Map<Seq<char>, usize>,
    after: Map<Seq<char>, usize>,
    other: Map<Seq<char>, usize>,
    order: Seq<Seq<char>>,
    count: int,
)
    requires
        scope.affected.subset_of(before.dom()),
        forall|id: Seq<char>| #[trigger]
            scope.affected.contains(id) ==> scope.parents(id).subset_of(before.dom()),
        scope.raised(scope.affected, before, after),
        other.dom() == before.dom(),
        forall|id: Seq<char>| #[trigger] before.contains_key(id) ==> before[id] <= other[id],
        forall|id: Seq<char>, parent: Seq<char>|
            scope.affected.contains(id) && #[trigger] scope.parents(id).contains(parent) ==> next_usize(
                other[parent],
            ) <= other[id],
        scope.is_release_order(order),
        0 <= count <= order.len(),
    ensures
        forall|i: int| 0 <= i < count ==> after[#[trigger] order[i]] <= other[order[i]],
    decreases count,
{
    if count > 0 {
        lemma_least_along(scope, before, after, other, order, count - 1);
        let id = order[count - 1];
        let parents = scope.parents(id);
        let rank_of = |parent: Seq<char>| after[parent];
        assert(scope.affected.contains(id));
        assert(before.contains_key(id));
        lemma_neighbors_finite(scope.incoming, id);
        lemma_required_rank_exists(parents, rank_of);
        let required = required_rank(parents, rank_of);
        if required > 0 {
            let parent = choose|parent: Seq<char>|
                #[trigger] parents.contains(parent) && required == next_usize(rank_of(parent));
            assert(parents.contains(parent));
            assert(before.contains_key(parent));
            assert(after[parent] <= other[parent]) by {
                if scope.affected.contains(parent) {
                    assert(scope.parents(order[count - 1]).contains(parent));
                    assert(order.take(count - 1).contains(parent));
                    let m = order.take(count - 1).index_of(parent);
                    assert(order[m] == parent);
                }
            }
            assert(scope.parents(id).contains(parent));
            assert(next_usize(other[parent]) <= other[id]);
        }
    }
}

/// The ranks after a propagation are determined by those before it.
pub proof fn lemma_raised_unique(
    scope: PropagationScope,
    before: Map<Seq<char>, usize>,
    left: Map<Seq<char>, usize>,
    right: Map<Seq<char>, usize>,
)
    requires
        scope.affected.subset_of(before.dom()),
        forall|id: Seq<char>| #[trigger]
            scope.affected.contains(id) ==> scope.parents(id).subset_of(before.dom()),
        scope.released() == scope.affected,
        scope.raised(scope.affected, before, left),
        scope.raised(scope.affected, before, right),
    ensures
        left == right,
{
    lemma_raised_behind_parents(scope, scope.affected, before, left);
    lemma_raised_behind_parents(scope, scope.affected, before, right);
    lemma_raised_least(scope, before, left, right);
    lemma_raised_least(scope, before, right, left);
    assert forall|id: Seq<char>| left.contains_key(id) implies left[id] == right[id] by {
        assert(before.contains_key(id));
    }
    assert(left =~= right);
}

/// The affected nodes are the seeds and their descendants: they hold the seeds and every
/// child of theirs, and nothing that a set with both properties could do without.
pub proof fn lemma_affected_are_descendants(
    known: Set<Seq<char>>,
    outgoing: Map<Seq<char>, Vec<String>>,
    seeds: Seq<Seq<char>>,
    affected: Set<Seq<char>>,
    other: Set<Seq<char>>,
)
    requires
        known.finite(),
        discover(known, outgoing, distinct(seeds), seeds.to_set()) == Ok::<Set<Seq<char>>, Seq<char>>(
            affected,
        ),
    ensures
        seeds.to_set().subset_of(affected),
        forall|id: Seq<char>, child: Seq<char>|
            affected.contains(id) && #[trigger] neighbors(outgoing, id).contains(child)
                ==> affected.contains(child),
        seeds.to_set().subset_of(other) && (forall|id: Seq<char>, child: Seq<char>|
            other.contains(id) && #[trigger] neighbors(outgoing, id).contains(child) ==> other.contains(
                child,
            )) ==> affected.subset_of(other),
{
    lemma_distinct_members(seeds);
    assert forall|id: Seq<char>| seeds.to_set().contains(id) implies distinct(seeds).contains(id) by {
        assert(seeds.contains(id));
    }
    assert forall|id: Seq<char>| distinct(seeds).contains(id) implies seeds.to_set().contains(id) by {
        assert(seeds.contains(id));
    }
    lemma_discover_closed(known, outgoing, distinct(seeds), seeds.to_set());
    if seeds.to_set().subset_of(other) && (forall|id: Seq<char>, child: Seq<char>|
        other.contains(id) && #[trigger] neighbors(outgoing, id).contains(child) ==> other.contains(
            child,
        )) {
        lemma_discover_least(known, outgoing, distinct(seeds), seeds.to_set(), other);
    }
}

proof fn lemma_distinct_members(ids: Seq<Seq<char>>)
    ensures
        forall|id: Seq<char>| #[trigger] distinct(ids).contains(id) <==> ids.contains(id),
    decreases ids.len(),
{
    if ids.len() > 0 {
        let rest = ids.drop_last();
        lemma_distinct_members(rest);
        assert forall|id: Seq<char>| #[trigger] distinct(ids).contains(id) <==> ids.contains(id) by {
            assert(ids =~= rest.push(ids.last()));
            lemma_push_members(rest, ids.last(), id);
            lemma_push_members(distinct(rest), ids.last(), id);
        }
    }
}

/// The children of a node, in text order, are its neighbours.
proof fn lemma_children_listed(outgoing: Map<Seq<char>, Vec<String>>, node_id: Seq<char>)
    ensures
        sorted_texts(neighbors(outgoing, node_id)).to_set() == neighbors(outgoing, node_id),
{
    lemma_neighbors_finite(outgoing, node_id);
    crate::ordered::lemma_sorted_texts_exists(neighbors(outgoing, node_id));
}

proof fn lemma_discover_closed(
    known: Set<Seq<char>>,
    outgoing: Map<Seq<char>, Vec<String>>,
    pending: Seq<Seq<char>>,
    found: Set<Seq<char>>,
)
    requires
        known.finite(),
        discover(known, outgoing, pending, found) is Ok,
        forall|id: Seq<char>| #[trigger] pending.contains(id) ==> found.contains(id),
        forall|id: Seq<char>, child: Seq<char>|
            found.contains(id) && !pending.contains(id) && #[trigger] neighbors(outgoing, id).contains(
                child,
            ) ==> found.contains(child),
    ensures
        found.subset_of(discover(known, outgoing, pending, found)->Ok_0),
        forall|id: Seq<char>, child: Seq<char>|
            discover(known, outgoing, pending, found)->Ok_0.contains(id) && #[trigger] neighbors(
                outgoing,
                id,
            ).contains(child) ==> discover(known, outgoing, pending, found)->Ok_0.contains(child),
    decreases known.difference(found).len(), pending.len(),
{
    if pending.len() > 0 {
        let head = pending[0];
        let children = sorted_texts(neighbors(outgoing, head));
        let fresh = |child: Seq<char>| !found.contains(child);
        let next = pending.drop_first() + children.filter(fresh);
        let wider = found.union(children.to_set());
        lemma_first_unranked_none(children, known);
        lemma_progress(known, found, children);
        lemma_children_listed(outgoing, head);
        assert forall|id: Seq<char>| #[trigger] next.contains(id) implies wider.contains(id) by {
            let n = next.index_of(id);
            if n < pending.len() - 1 {
                assert(pending[n + 1] == id);
                assert(pending.contains(id));
            } else {
                assert(children.filter(fresh)[n - (pending.len() - 1)] == id);
                assert(children.filter(fresh).contains(id));
                lemma_filter_members(children, fresh, id);
            }
        }
        assert forall|id: Seq<char>, child: Seq<char>|
            wider.contains(id) && !next.contains(id) && #[trigger] neighbors(outgoing, id).contains(
                child,
            ) implies wider.contains(child) by {
            if id == head {
                assert(children.to_set().contains(child));
            } else if found.contains(id) {
                if pending.contains(id) {
                    let n = pending.index_of(id);
                    assert(next[n - 1] == id);
                    assert(next.contains(id));
                }
            } else {
                lemma_filter_members(children, fresh, id);
                let m = children.filter(fresh).index_of(id);
                assert(next[pending.len() - 1 + m] == id);
                assert(next.contains(id));
            }
        }
        lemma_discover_closed(known, outgoing, next, wider);
    }
}

proof fn lemma_discover_least(
    known: Set<Seq<char>>,
    outgoing: Map<Seq<char>, Vec<String>>,
    pending: Seq<Seq<char>>,
    found: Set<Seq<char>>,
    other: Set<Seq<char>>,
)
    requires
        known.finite(),
        discover(known, outgoing, pending, found) is Ok,
        forall|id: Seq<char>| #[trigger] pending.contains(id) ==> found.contains(id),
        found.subset_of(other),
        forall|id: Seq<char>, child: Seq<char>|
            other.contains(id) && #[trigger] neighbors(outgoing, id).contains(child) ==> other.contains(
                child,
            ),
    ensures
        discover(known, outgoing, pending, found)->Ok_0.subset_of(other),
    decreases known.difference(found).len(), pending.len(),
{
    if pending.len() > 0 {
        let head = pending[0];
        let children = sorted_texts(neighbors(outgoing, head));
        let fresh = |child: Seq<char>| !found.contains(child);
        let next = pending.drop_first() + children.filter(fresh);
        let wider = found.union(children.to_set());
        lemma_first_unranked_none(children, known);
        lemma_progress(known, found, children);
        lemma_children_listed(outgoing, head);
        assert(pending.contains(head));
        assert forall|id: Seq<char>| #[trigger] next.contains(id) implies wider.contains(id) by {
            let n = next.index_of(id);
            if n < pending.len() - 1 {
                assert(pending[n + 1] == id);
                assert(pending.contains(id));
            } else {
                assert(children.filter(fresh)[n - (pending.len() - 1)] == id);
                assert(children.filter(fresh).contains(id));
                lemma_filter_members(children, fresh, id);
            }
        }
        lemma_discover_least(known, outgoing, next, wider, other);
    }
}

/// Whether a set holds the seeds and every child of its members.
pub open spec fn holds_descendants(
    outgoing: Map<Seq<char>, Vec<String>>,
    seeds: Seq<Seq<char>>,
    set: Set<Seq<char>>,
) -> bool {
    &&& seeds.to_set().subset_of(set)
    &&& forall|id: Seq<char>, child: Seq<char>|
        set.contains(id) && #[trigger] neighbors(outgoing, id).contains(child) ==> set.contains(
            child,
        )
}

/// Whether a node is a seed or can be reached from one.
pub open spec fn is_descendant(
    outgoing: Map<Seq<char>, Vec<String>>,
    seeds: Seq<Seq<char>>,
    id: Seq<char>,
) -> bool {
    forall|set: Set<Seq<char>>| #[trigger]
        holds_descendants(outgoing, seeds, set) ==> set.contains(id)
}

/// Whether a propagation needs the rank of a node: it can be reached, or a node that can be
/// reached has it among its parents.
pub open spec fn is_needed(
    incoming: Map<Seq<char>, Vec<String>>,
    outgoing: Map<Seq<char>, Vec<String>>,
    seeds: Seq<Seq<char>>,
    id: Seq<char>,
) -> bool {
    ||| is_descendant(outgoing, seeds, id)
    ||| exists|child: Seq<char>|
        is_descendant(outgoing, seeds, child) && #[trigger] neighbors(incoming, child).contains(id)
}

proof fn lemma_first_unranked_member(ids: Seq<Seq<char>>, known: Set<Seq<char>>)
    requires
        first_unranked(ids, known) is Some,
    ensures
        ids.contains(first_unranked(ids, known)->0),
        !known.contains(first_unranked(ids, known)->0),
    decreases ids.len(),
{
    if known.contains(ids[0]) {
        lemma_first_unranked_member(ids.drop_first(), known);
        let n = ids.drop_first().index_of(first_unranked(ids, known)->0);
        assert(ids[n + 1] == first_unranked(ids, known)->0);
    } else {
        assert(ids.contains(ids[0]));
    }
}

proof fn lemma_first_unranked_parent_member(
    known: Set<Seq<char>>,
    incoming: Map<Seq<char>, Vec<String>>,
    ids: Seq<Seq<char>>,
)
    ensures
        match first_unranked_parent(known, incoming, ids) {
            Some(parent) => !known.contains(parent) && exists|i: int|
                0 <= i < ids.len() && neighbors(incoming, #[trigger] ids[i]).contains(parent),
            None => forall|i: int|
                0 <= i < ids.len() ==> neighbors(incoming, #[trigger] ids[i]).subset_of(known),
        },
    decreases ids.len(),
{
    if ids.len() > 0 {
        let rest = ids.drop_first();
        let parents = sorted_texts(neighbors(incoming, ids[0]));
        lemma_children_listed(incoming, ids[0]);
        lemma_first_unranked_parent_member(known, incoming, rest);
        if first_unranked(parents, known) is Some {
            lemma_first_unranked_member(parents, known);
            assert(parents.to_set().contains(first_unranked(parents, known)->0));
            assert(neighbors(incoming, ids[0]).contains(first_unranked(parents, known)->0));
        } else {
            lemma_first_unranked_none(parents, known);
            assert(neighbors(incoming, ids[0]).subset_of(known)) by {
                assert forall|parent: Seq<char>| neighbors(incoming, ids[0]).contains(parent) implies known.contains(
                    parent,
                ) by {
                    assert(parents.to_set().contains(parent));
                    let n = parents.index_of(parent);
                    assert(known.contains(parents[n]));
                }
            }
            match first_unranked_parent(known, incoming, rest) {
                Some(parent) => {
                    let i = choose|i: int|
                        0 <= i < rest.len() && neighbors(incoming, #[trigger] rest[i]).contains(parent);
                    assert(neighbors(incoming, ids[i + 1]).contains(parent));
                },
                None => {
                    assert forall|i: int| 0 <= i < ids.len() implies neighbors(
                        incoming,
                        #[trigger] ids[i],
                    ).subset_of(known) by {
                        if i > 0 {
                            assert(neighbors(incoming, rest[i - 1]).subset_of(known));
                        }
                    }
                },
            }
        }
    }
}

proof fn lemma_discover_needs(
    known: Set<Seq<char>>,
    outgoing: Map<Seq<char>, Vec<String>>,
    pending: Seq<Seq<char>>,
    found: Set<Seq<char>>,
    seeds: Seq<Seq<char>>,
)
    requires
        known.finite(),
        found.subset_of(known),
        forall|id: Seq<char>| #[trigger] pending.contains(id) ==> is_descendant(outgoing, seeds, id),
    ensures
        match discover(known, outgoing, pending, found) {
            Ok(affected) => affected.subset_of(known),
            Err(child) => !known.contains(child) && is_descendant(outgoing, seeds, child),
        },
    decreases known.difference(found).len(), pending.len(),
{
    if pending.len() > 0 {
        let head = pending[0];
        let children = sorted_texts(neighbors(outgoing, head));
        let fresh = |child: Seq<char>| !found.contains(child);
        let next = pending.drop_first() + children.filter(fresh);
        let wider = found.union(children.to_set());
        assert(pending.contains(head));
        lemma_children_listed(outgoing, head);
        assert forall|child: Seq<char>| #[trigger] children.contains(child) implies is_descendant(
            outgoing,
            seeds,
            child,
        ) by {
            assert(children.to_set().contains(child));
            assert forall|set: Set<Seq<char>>| #[trigger]
                holds_descendants(outgoing, seeds, set) implies set.contains(child) by {
                assert(set.contains(head));
                assert(neighbors(outgoing, head).contains(child));
            }
        }
        if first_unranked(children, known) is Some {
            lemma_first_unranked_member(children, known);
        } else {
            lemma_first_unranked_none(children, known);
            lemma_progress(known, found, children);
            assert(wider.subset_of(known)) by {
                assert forall|id: Seq<char>| wider.contains(id) implies known.contains(id) by {
                    if children.contains(id) {
                        let n = children.index_of(id);
                        assert(known.contains(children[n]));
                    }
                }
            }
            assert forall|id: Seq<char>| #[trigger] next.contains(id) implies is_descendant(
                outgoing,
                seeds,
                id,
            ) by {
                let n = next.index_of(id);
                if n < pending.len() - 1 {
                    assert(pending[n + 1] == id);
                    assert(pending.contains(id));
                } else {
                    assert(children.filter(fresh)[n - (pending.len() - 1)] == id);
                    assert(children.filter(fresh).contains(id));
                    lemma_filter_members(children, fresh, id);
                }
            }
            lemma_discover_needs(known, outgoing, next, wider, seeds);
        }
    }
}

/// A propagation misses a node exactly where it needs one that has no rank, and names such a
/// node. Otherwise it affects the nodes that can be reached from the seeds.
pub proof fn lemma_missing_iff_needed(
    known: Set<Seq<char>>,
    incoming: Map<Seq<char>, Vec<String>>,
    outgoing: Map<Seq<char>, Vec<String>>,
    seeds: Seq<Seq<char>>,
)
    requires
        known.finite(),
    ensures
        match affected_by(known, incoming, outgoing, seeds) {
            Err(missing) => !known.contains(missing) && is_needed(incoming, outgoing, seeds, missing),
            Ok(affected) => {
                &&& forall|id: Seq<char>| #[trigger]
                    is_needed(incoming, outgoing, seeds, id) ==> known.contains(id)
                &&& forall|id: Seq<char>| #[trigger]
                    affected.contains(id) <==> is_descendant(outgoing, seeds, id)
            },
        },
{
    assert forall|id: Seq<char>| #[trigger] seeds.contains(id) implies is_descendant(
        outgoing,
        seeds,
        id,
    ) by {
        assert(seeds.to_set().contains(id));
    }
    if first_unranked(seeds, known) is Some {
        lemma_first_unranked_member(seeds, known);
    } else {
        lemma_first_unranked_none(seeds, known);
        lemma_distinct_members(seeds);
        assert(seeds.to_set().subset_of(known)) by {
            assert forall|id: Seq<char>| seeds.to_set().contains(id) implies known.contains(id) by {
                let n = seeds.index_of(id);
                assert(known.contains(seeds[n]));
            }
        }
        assert forall|id: Seq<char>| #[trigger] distinct(seeds).contains(id) implies is_descendant(
            outgoing,
            seeds,
            id,
        ) by {
            assert(seeds.contains(id));
        }
        lemma_discover_needs(known, outgoing, distinct(seeds), seeds.to_set(), seeds);
        match discover(known, outgoing, distinct(seeds), seeds.to_set()) {
            Err(child) => {},
            Ok(affected) => {
                lemma_affected_are_descendants(known, outgoing, seeds, affected, affected);
                assert(holds_descendants(outgoing, seeds, affected));
                assert forall|id: Seq<char>| #[trigger] affected.contains(id) implies is_descendant(
                    outgoing,
                    seeds,
                    id,
                ) by {
                    assert forall|set: Set<Seq<char>>| #[trigger]
                        holds_descendants(outgoing, seeds, set) implies set.contains(id) by {
                        lemma_affected_are_descendants(known, outgoing, seeds, affected, set);
                    }
                }
                vstd::set_lib::lemma_len_subset(affected, known);
                crate::ordered::lemma_sorted_texts_exists(affected);
                let list = sorted_texts(affected);
                lemma_first_unranked_parent_member(known, incoming, list);
                match first_unranked_parent(known, incoming, list) {
                    Some(parent) => {
                        let i = choose|i: int|
                            0 <= i < list.len() && neighbors(incoming, #[trigger] list[i]).contains(
                                parent,
                            );
                        assert(list.to_set().contains(list[i]));
                        assert(affected.contains(list[i]));
                        assert(is_descendant(outgoing, seeds, list[i]));
                    },
                    None => {
                        assert forall|id: Seq<char>| #[trigger]
                            is_needed(incoming, outgoing, seeds, id) implies known.contains(id) by {
                            if is_descendant(outgoing, seeds, id) {
                                assert(affected.contains(id));
                            } else {
                                let child = choose|child: Seq<char>|
                                    is_descendant(outgoing, seeds, child) && #[trigger] neighbors(
                                        incoming,
                                        child,
                                    ).contains(id);
                                assert(affected.contains(child));
                                assert(list.to_set().contains(child));
                                let n = list.index_of(child);
                                assert(neighbors(incoming, list[n]).subset_of(known));
                            }
                        }
                    },
                }
            },
        }
    }
}

/// After a propagation a node stands right behind one of its parents, or where it stood before;
/// and it stands behind every parent.
pub proof fn lemma_ranks_are_raised_for_a_reason(
    scope: PropagationScope,
    nodes: Set<Seq<char>>,
    before: Map<Seq<char>, usize>,
    after: Map<Seq<char>, usize>,
    id: Seq<char>,
)
    requires
        scope.raised(nodes, before, after),
        nodes.contains(id),
        scope.parents(id).finite(),
        forall|parent: Seq<char>| #[trigger]
            scope.parents(id).contains(parent) ==> after[parent] < usize::MAX,
    ensures
        forall|parent: Seq<char>| #[trigger]
            scope.parents(id).contains(parent) ==> after[parent] < after[id],
        after[id] == before[id] || exists|parent: Seq<char>| #[trigger]
            scope.parents(id).contains(parent) && after[parent] + 1 == after[id],
        after[id] >= before[id],
{
    let rank_of = |parent: Seq<char>| after[parent];
    lemma_required_rank_exists(scope.parents(id), rank_of);
    let required = required_rank(scope.parents(id), rank_of);
    if after[id] != before[id] {
        assert(after[id] == required && required > 0);
        let parent = choose|parent: Seq<char>| #[trigger]
            scope.parents(id).contains(parent) && required == next_usize(rank_of(parent));
        assert(scope.parents(id).contains(parent) && after[parent] + 1 == after[id]);
    }
    assert forall|parent: Seq<char>| #[trigger] scope.parents(id).contains(parent) implies after[parent]
        < after[id] by {
        assert(next_usize(rank_of(parent)) <= required);
    }
}

} // verus!
