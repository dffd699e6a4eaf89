//! A min-priority queue keyed by node id, with in-place re-keying and with
//! payload retention: once a node has been pushed, its latest payload stays
//! readable forever, including after it has been popped.  Retention is what
//! lets the search peek at already-settled neighbours.

use core::cmp::Reverse;
use std::collections::hash_map::RandomState;
use std::collections::HashMap;

use priority_queue::PriorityQueue;

use vstd::prelude::*;

use crate::graph::{NodeId, Weight};

verus! {

broadcast use vstd::std_specs::hash::group_hash_axioms;

/// A search seed or frontier entry.  `parent` is informational: it is carried
/// through the search and never consulted by the cost algorithm.
#[derive(Copy, Clone, Debug, PartialEq, Eq, Structural)]
pub struct Query {
    pub node: NodeId,
    pub parent: NodeId,
    pub weight: Weight,
    pub duration: Weight,
}

#[verifier::external_type_specification]
#[verifier::external_body]
#[verifier::reject_recursive_types(T)]
pub struct ExReverse<T>(Reverse<T>);

#[verifier::external_type_specification]
#[verifier::external_body]
#[verifier::reject_recursive_types(I)]
#[verifier::reject_recursive_types(P)]
#[verifier::reject_recursive_types(H)]
pub struct ExPriorityQueue<I, P, H>(PriorityQueue<I, P, H>);

/// The concrete queue type: slots keyed by reversed weight, so that the
/// queue's greatest priority is the least weight.
pub type SlotQueue = PriorityQueue<usize, Reverse<Weight>, RandomState>;

/// What the outside priority queue holds: each queued slot, mapped to its
/// current weight.  The queue stores `Reverse(weight)` priorities, so its
/// greatest priority is the least weight.
pub uninterp spec fn pq_contents(q: SlotQueue) -> Map<usize, int>;

/// Relies on priority_queue::PriorityQueue::new: creates an empty queue.
#[verifier::external_body]
fn pq_new() -> (r: SlotQueue)
    ensures
        forall|slot: usize| !pq_contents(r).contains_key(slot),
{
    PriorityQueue::new()
}

/// Relies on priority_queue::PriorityQueue::push: inserts the slot with the
/// given weight or, if the slot is already queued, replaces its weight.
#[verifier::external_body]
fn pq_push(q: &mut SlotQueue, item: usize, weight: Weight)
    ensures
        pq_contents(*final(q)) == pq_contents(*old(q)).insert(item, weight as int),
{
    let _ = q.push(item, Reverse(weight));
}

/// Relies on priority_queue::PriorityQueue::pop: removes and returns a pair
/// with the greatest priority — here, a slot of least weight — or `None`
/// exactly when the queue is empty.  Among equal weights the choice is left
/// open.
#[verifier::external_body]
fn pq_pop(q: &mut SlotQueue) -> (r: Option<(usize, Weight)>)
    ensures
        match r {
            None => {
                &&& (forall|slot: usize| !pq_contents(*old(q)).contains_key(slot))
                &&& pq_contents(*final(q)) == pq_contents(*old(q))
            },
            Some((item, weight)) => {
                &&& pq_contents(*old(q)).contains_key(item)
                &&& pq_contents(*old(q))[item] == weight as int
                &&& (forall|other: usize|
                    pq_contents(*old(q)).contains_key(other) ==> weight as int <= pq_contents(
                        *old(q),
                    )[other])
                &&& pq_contents(*final(q)) == pq_contents(*old(q)).remove(item)
            },
        },
{
    q.pop().map(|(item, Reverse(weight))| (item, weight))
}

/// The query heap: a min-priority queue over queries keyed by `node`, backed
/// by a payload store that survives pops.
pub struct QueryHeap {
    heap: SlotQueue,
    inserted: Vec<Query>,
    index: HashMap<NodeId, usize>,
}

impl QueryHeap {
    /// The latest payload pushed for each node ever pushed, whether or not
    /// the node is still queued.
    pub closed spec fn seen(self) -> Map<NodeId, Query> {
        Map::new(
            |n: NodeId| self.index@.contains_key(n),
            |n: NodeId| self.inserted@[self.index@[n] as int],
        )
    }

    /// The nodes currently queued for popping.
    pub closed spec fn live(self) -> Set<NodeId> {
        Set::new(
            |n: NodeId|
                self.index@.contains_key(n) && pq_contents(self.heap).contains_key(
                    self.index@[n],
                ),
        )
    }

    /// Internal consistency: slots are in bijection with seen nodes, queued
    /// slots are valid, and each queued slot's weight is its payload's.
    pub closed spec fn wf(self) -> bool {
        &&& (forall|slot: usize|
            pq_contents(self.heap).contains_key(slot) ==> slot < self.inserted@.len())
        &&& (forall|n: NodeId| #[trigger]
            self.index@.contains_key(n) ==> self.index@[n] < self.inserted@.len()
                && self.inserted@[self.index@[n] as int].node == n)
        &&& (forall|slot: int|
            0 <= slot < self.inserted@.len() ==> self.index@.contains_key(
                (#[trigger] self.inserted@[slot]).node,
            ) && self.index@[self.inserted@[slot].node] == slot)
        &&& (forall|slot: usize| #[trigger]
            pq_contents(self.heap).contains_key(slot) ==> pq_contents(self.heap)[slot]
                == self.inserted@[slot as int].weight as int)
    }

    /// Creates an empty heap.
    pub fn new() -> (r: QueryHeap)
        ensures
            r.wf(),
            r.seen() == Map::<NodeId, Query>::empty(),
            r.live() == Set::<NodeId>::empty(),
    {
        let r = QueryHeap { heap: pq_new(), inserted: Vec::new(), index: HashMap::new() };
        proof {
            assert(r.seen() =~= Map::<NodeId, Query>::empty());
            assert(r.live() =~= Set::<NodeId>::empty());
        }
        r
    }

    /// Inserts `query`, or — if a query with the same `node` is already
    /// known — replaces its payload and re-keys it by `query.weight`.  The
    /// node joins (or rejoins) the queued set either way.
    pub fn push(&mut self, query: Query)
        requires
            old(self).wf(),
        ensures
            final(self).wf(),
            final(self).seen() == old(self).seen().insert(query.node, query),
            final(self).live() == old(self).live().insert(query.node),
    {
        let slot_opt = self.index.get(&query.node);
        match slot_opt {
            Some(slot_ref) => {
                let slot = *slot_ref;
                pq_push(&mut self.heap, slot, query.weight);
                self.inserted[slot] = query;
                proof {
                    assert(final(self).seen() =~= old(self).seen().insert(query.node, query));
                    assert(final(self).live() =~= old(self).live().insert(query.node));
                }
            },
            None => {
                let slot = self.inserted.len();
                pq_push(&mut self.heap, slot, query.weight);
                self.index.insert(query.node, slot);
                self.inserted.push(query);
                proof {
                    assert(final(self).seen() =~= old(self).seen().insert(query.node, query));
                    assert(final(self).live() =~= old(self).live().insert(query.node));
                }
            },
        }
    }

    /// Removes and returns a queued query of least weight; returns `None`
    /// exactly when nothing is queued.  The payload store is untouched, so
    /// `get` still answers for the popped node.
    pub fn pop(&mut self) -> (r: Option<Query>)
        requires
            old(self).wf(),
        ensures
            final(self).wf(),
            final(self).seen() == old(self).seen(),
            match r {
                None => {
                    &&& old(self).live() == Set::<NodeId>::empty()
                    &&& final(self).live() == old(self).live()
                },
                Some(query) => {
                    &&& old(self).live().contains(query.node)
                    &&& old(self).seen().contains_key(query.node)
                    &&& query == old(self).seen()[query.node]
                    &&& final(self).live() == old(self).live().remove(query.node)
                    &&& (forall|n: NodeId| #[trigger]
                        old(self).live().contains(n) ==> query.weight
                            <= old(self).seen()[n].weight)
                },
            },
    {
        let popped = pq_pop(&mut self.heap);
        match popped {
            None => {
                proof {
                    assert(old(self).live() =~= Set::<NodeId>::empty());
                    assert(final(self).seen() =~= old(self).seen());
                    assert(final(self).live() =~= old(self).live());
                }
                None
            },
            Some((slot, _weight)) => {
                let query = self.inserted[slot];
                proof {
                    assert(final(self).seen() =~= old(self).seen());
                    assert(final(self).live() =~= old(self).live().remove(query.node));
                    assert forall|n: NodeId| #[trigger] old(self).live().contains(n) implies query
                        .weight <= old(self).seen()[n].weight by {
                        let other_slot = old(self).index@[n];
                        assert(pq_contents(old(self).heap).contains_key(other_slot));
                    }
                }
                Some(query)
            },
        }
    }

    /// The latest payload for `node`, or `None` if `node` was never pushed.
    /// Popping does not evict payloads.
    pub fn get(&self, node: NodeId) -> (r: Option<Query>)
        requires
            self.wf(),
        ensures
            r == if self.seen().contains_key(node) {
                Some(self.seen()[node])
            } else {
                None::<Query>
            },
    {
        let slot_opt = self.index.get(&node);
        match slot_opt {
            Some(slot_ref) => Some(self.inserted[*slot_ref]),
            None => None,
        }
    }
}

/// The re-keying law: after two pushes for the same node, the later payload
/// is the one the heap answers with, whatever the two weights were.
pub proof fn lemma_push_replaces(h: QueryHeap, q1: Query, q2: Query)
    requires
        q1.node == q2.node,
    ensures
        h.seen().insert(q1.node, q1).insert(q2.node, q2)[q1.node] == q2,
        h.live().insert(q1.node).insert(q2.node).contains(q1.node),
{
}

} // verus!
