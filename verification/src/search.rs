//! The one-sided contraction-hierarchy Dijkstra search.  Seeded with a set
//! of queries, it settles nodes in order of least weight, emits one bucket
//! per settled node, and relaxes the settled node's outgoing edges, pruned
//! by the stall-on-demand test.
//!
//! The proved guarantee is soundness: every emitted bucket's cost pair is
//! the exact sum along some path of live edges from a seed to the bucket's
//! middle node.

use vstd::prelude::*;

use crate::bucket::Bucket;
use crate::graph::Direction;
use crate::graph::Edge;
use crate::graph::Graph;
use crate::graph::NodeId;
use crate::graph::Weight;
use crate::heap::Query;
use crate::heap::QueryHeap;
use crate::join::lex_le;
use crate::join::lex_less;

verus! {

/// One step of a path: the pair `(m, i)` names edge `i`, owned by node
/// `m`.  A path is valid when each named edge is live in the travel
/// direction and each step's costs accumulate exactly: starting from seed
/// number `qk`, following the steps of `p` in order arrives at `node` with
/// cost pair `(w, d)`.
pub open spec fn path_ok(
    g: Graph,
    dir: Direction,
    seeds: Seq<Query>,
    qk: int,
    p: Seq<(NodeId, int)>,
    node: NodeId,
    w: int,
    d: int,
) -> bool
    decreases p.len(),
{
    if p.len() == 0 {
        &&& 0 <= qk < seeds.len()
        &&& seeds[qk].node == node
        &&& seeds[qk].weight == w
        &&& seeds[qk].duration == d
    } else {
        let m = p.last().0;
        let i = p.last().1;
        &&& m < g.node_count()
        &&& g.adj_begin(m as int) <= i < g.adj_end(m as int)
        &&& g.edge_live(i, dir)
        &&& g.edge_at(i).target == node
        &&& path_ok(
            g,
            dir,
            seeds,
            qk,
            p.drop_last(),
            m,
            w - g.edge_at(i).weight,
            d - g.edge_at(i).duration,
        )
    }
}

/// `(node, w, d)` is the exact cost pair of some live-edge path from a
/// seed.
pub open spec fn reachable(
    g: Graph,
    dir: Direction,
    seeds: Seq<Query>,
    node: NodeId,
    w: int,
    d: int,
) -> bool {
    exists|qk: int, p: Seq<(NodeId, int)>| #[trigger] path_ok(g, dir, seeds, qk, p, node, w, d)
}

/// Every path sum from the seeds stays inside the stored 32-bit range.
/// This is the machine-limit precondition of the search: the frontier
/// stores path sums as stored weights.
pub open spec fn sums_bounded(g: Graph, dir: Direction, seeds: Seq<Query>) -> bool {
    forall|node: NodeId, w: int, d: int|
        #[trigger] reachable(g, dir, seeds, node, w, d) ==> i32::MIN <= w <= i32::MAX && i32::MIN
            <= d <= i32::MAX
}

/// Some bucket in the list reports middle node `n`.
pub open spec fn covers(bs: Seq<Bucket>, n: NodeId) -> bool {
    exists|j: int| 0 <= j < bs.len() && (#[trigger] bs[j]).middle_node == n
}

/// A seed is reachable by the empty path.
pub proof fn lemma_reach_seed(g: Graph, dir: Direction, seeds: Seq<Query>, k: int)
    requires
        0 <= k < seeds.len(),
    ensures
        reachable(g, dir, seeds, seeds[k].node, seeds[k].weight as int, seeds[k].duration as int),
{
    let p = Seq::<(NodeId, int)>::empty();
    assert(path_ok(
        g,
        dir,
        seeds,
        k,
        p,
        seeds[k].node,
        seeds[k].weight as int,
        seeds[k].duration as int,
    ));
}

/// Extending a path sum by one live edge gives a path sum.
pub proof fn lemma_reach_step(
    g: Graph,
    dir: Direction,
    seeds: Seq<Query>,
    m: NodeId,
    w: int,
    d: int,
    i: int,
)
    requires
        reachable(g, dir, seeds, m, w, d),
        m < g.node_count(),
        g.adj_begin(m as int) <= i < g.adj_end(m as int),
        g.edge_live(i, dir),
    ensures
        reachable(
            g,
            dir,
            seeds,
            g.edge_at(i).target,
            w + g.edge_at(i).weight,
            d + g.edge_at(i).duration,
        ),
{
    let (qk, p) = choose|qk: int, p: Seq<(NodeId, int)>| #[trigger] path_ok(
        g,
        dir,
        seeds,
        qk,
        p,
        m,
        w,
        d,
    );
    let target = g.edge_at(i).target;
    let nw = w + g.edge_at(i).weight;
    let nd = d + g.edge_at(i).duration;
    let p2 = p.push((m, i));
    assert(p2.drop_last() =~= p);
    assert(p2.last() == (m, i));
    assert(path_ok(g, dir, seeds, qk, p2, target, nw, nd));
}

/// A valid path of a graph with fewer live edges is a valid path of the
/// fuller graph.
proof fn lemma_path_ok_subset(
    g1: Graph,
    g2: Graph,
    dir: Direction,
    seeds: Seq<Query>,
    qk: int,
    p: Seq<(NodeId, int)>,
    node: NodeId,
    w: int,
    d: int,
)
    requires
        g2.wf(),
        crate::graph::edge_subset(g1, g2),
        path_ok(g2, dir, seeds, qk, p, node, w, d),
    ensures
        path_ok(g1, dir, seeds, qk, p, node, w, d),
    decreases p.len(),
{
    if p.len() > 0 {
        let m = p.last().0;
        let i = p.last().1;
        g2.lemma_offsets_monotone(m as int + 1, g2.node_count());
        assert(i < g2.edge_count());
        assert(g2.included(i) ==> g1.included(i));
        lemma_path_ok_subset(
            g1,
            g2,
            dir,
            seeds,
            qk,
            p.drop_last(),
            m,
            w - g2.edge_at(i).weight,
            d - g2.edge_at(i).duration,
        );
    }
}

/// Monotonicity under shrinkage, on the path side: flipping an edge's
/// include bit off only removes cost pairs from the reachable set — every
/// cost pair the filtered graph reaches, the fuller graph reaches too.  A
/// search on the shrunk graph can therefore never report a path that the
/// full graph lacks.
pub proof fn lemma_reachable_antitone(
    g1: Graph,
    g2: Graph,
    dir: Direction,
    seeds: Seq<Query>,
    node: NodeId,
    w: int,
    d: int,
)
    requires
        g2.wf(),
        crate::graph::edge_subset(g1, g2),
        reachable(g2, dir, seeds, node, w, d),
    ensures
        reachable(g1, dir, seeds, node, w, d),
{
    let (qk, p) = choose|qk: int, p: Seq<(NodeId, int)>| #[trigger] path_ok(
        g2,
        dir,
        seeds,
        qk,
        p,
        node,
        w,
        d,
    );
    lemma_path_ok_subset(g1, g2, dir, seeds, qk, p, node, w, d);
    assert(path_ok(g1, dir, seeds, qk, p, node, w, d));
}

/// The weight space of one node's payload, folded into a single
/// non-negative measure: lexicographically smaller pairs give strictly
/// smaller measures.
pub open spec fn pair_measure(w: int, d: int) -> int {
    (w + 0x8000_0000) * 0x1_0000_0000 + (d + 0x8000_0000)
}

/// One node's contribution to the search's termination measure: its
/// payload's measure, or the full range when the node is unseen.
pub open spec fn node_measure(seen: Map<NodeId, Query>, n: NodeId) -> int {
    if seen.contains_key(n) {
        pair_measure(seen[n].weight as int, seen[n].duration as int)
    } else {
        0x1_0000_0000_0000_0000
    }
}

/// The total termination measure over nodes `0 .. k`: pushes only ever
/// shrink it, because a payload is replaced only by a lexicographically
/// smaller one.
pub open spec fn frontier_measure(seen: Map<NodeId, Query>, k: nat) -> int
    decreases k,
{
    if k == 0 {
        0
    } else {
        frontier_measure(seen, (k - 1) as nat) + node_measure(seen, (k - 1) as NodeId)
    }
}

proof fn lemma_frontier_measure_nonneg(seen: Map<NodeId, Query>, k: nat)
    ensures
        frontier_measure(seen, k) >= 0,
    decreases k,
{
    if k > 0 {
        lemma_frontier_measure_nonneg(seen, (k - 1) as nat);
    }
}

proof fn lemma_frontier_measure_le(seen1: Map<NodeId, Query>, seen2: Map<NodeId, Query>, k: nat)
    requires
        forall|n: NodeId| n < k ==> #[trigger] node_measure(seen2, n) <= node_measure(seen1, n),
    ensures
        frontier_measure(seen2, k) <= frontier_measure(seen1, k),
    decreases k,
{
    if k > 0 {
        lemma_frontier_measure_le(seen1, seen2, (k - 1) as nat);
    }
}

proof fn lemma_frontier_measure_lt(
    seen1: Map<NodeId, Query>,
    seen2: Map<NodeId, Query>,
    k: nat,
    changed: NodeId,
)
    requires
        changed < k,
        node_measure(seen2, changed) < node_measure(seen1, changed),
        forall|n: NodeId| n < k ==> #[trigger] node_measure(seen2, n) <= node_measure(seen1, n),
    ensures
        frontier_measure(seen2, k) < frontier_measure(seen1, k),
    decreases k,
{
    if changed == (k - 1) as NodeId {
        lemma_frontier_measure_le(seen1, seen2, (k - 1) as nat);
    } else {
        lemma_frontier_measure_lt(seen1, seen2, (k - 1) as nat, changed);
    }
}

/// How many of the nodes `0 .. k` are queued.
pub open spec fn queued_count(live: Set<NodeId>, k: nat) -> int
    decreases k,
{
    if k == 0 {
        0
    } else {
        queued_count(live, (k - 1) as nat) + if live.contains((k - 1) as NodeId) {
            1int
        } else {
            0int
        }
    }
}

proof fn lemma_queued_count_nonneg(live: Set<NodeId>, k: nat)
    ensures
        queued_count(live, k) >= 0,
    decreases k,
{
    if k > 0 {
        lemma_queued_count_nonneg(live, (k - 1) as nat);
    }
}

proof fn lemma_queued_count_lt(live1: Set<NodeId>, live2: Set<NodeId>, k: nat, changed: NodeId)
    requires
        changed < k,
        live1.contains(changed),
        !live2.contains(changed),
        forall|n: NodeId| n < k && #[trigger] live2.contains(n) ==> live1.contains(n),
    ensures
        queued_count(live2, k) < queued_count(live1, k),
    decreases k,
{
    if changed == (k - 1) as NodeId {
        lemma_queued_count_le(live1, live2, (k - 1) as nat);
    } else {
        lemma_queued_count_lt(live1, live2, (k - 1) as nat, changed);
    }
}

proof fn lemma_queued_count_le(live1: Set<NodeId>, live2: Set<NodeId>, k: nat)
    requires
        forall|n: NodeId| n < k && #[trigger] live2.contains(n) ==> live1.contains(n),
    ensures
        queued_count(live2, k) <= queued_count(live1, k),
    decreases k,
{
    if k > 0 {
        lemma_queued_count_le(live1, live2, (k - 1) as nat);
    }
}

/// The stall test's witness among the first `hi` opposite-direction edges:
/// an already-seen neighbour through which `node` would have been reached
/// more cheaply.
pub open spec fn stall_witness_upto(
    seen: Map<NodeId, Query>,
    adj: Seq<crate::graph::Edge>,
    weight: int,
    hi: int,
) -> bool
    decreases hi,
{
    if hi <= 0 {
        false
    } else {
        stall_witness_upto(seen, adj, weight, hi - 1) || {
            let e = adj[hi - 1];
            seen.contains_key(e.target) && seen[e.target].weight + e.weight < weight
        }
    }
}

proof fn lemma_stall_mono(
    seen: Map<NodeId, Query>,
    adj: Seq<crate::graph::Edge>,
    weight: int,
    lo: int,
    hi: int,
)
    requires
        0 <= lo <= hi,
        stall_witness_upto(seen, adj, weight, lo),
    ensures
        stall_witness_upto(seen, adj, weight, hi),
    decreases hi - lo,
{
    if lo < hi {
        lemma_stall_mono(seen, adj, weight, lo, hi - 1);
    }
}

/// The stall test as a predicate of a payload map: `node`, about to be
/// settled at `w`, has an already-seen neighbour that reaches it more
/// cheaply through an opposite-direction edge.
pub open spec fn stalled(
    g: Graph,
    seen: Map<NodeId, Query>,
    dir: Direction,
    node: NodeId,
    w: int,
) -> bool {
    stall_witness_upto(
        seen,
        g.adjacent(node as int, dir.spec_opposite()),
        w,
        g.adjacent(node as int, dir.spec_opposite()).len() as int,
    )
}

/// The frontier after relaxing the first `hi` edges of `adj` out of `node`,
/// settled at `(w, d)`: each edge proposes its sum to its target, which
/// keeps the lexicographically smaller of its old payload and the proposal
/// — the proposal carries `node` as parent — and a target that improved is
/// (re)queued.  Nothing else changes.
pub open spec fn relaxed_frontier(
    seen: Map<NodeId, Query>,
    live: Set<NodeId>,
    node: NodeId,
    w: int,
    d: int,
    adj: Seq<Edge>,
    hi: int,
) -> (Map<NodeId, Query>, Set<NodeId>)
    decreases hi,
{
    if hi <= 0 {
        (seen, live)
    } else {
        let prev = relaxed_frontier(seen, live, node, w, d, adj, hi - 1);
        let e = adj[hi - 1];
        let cand = Query {
            node: e.target,
            parent: node,
            weight: (w + e.weight) as Weight,
            duration: (d + e.duration) as Weight,
        };
        let improves = if prev.0.contains_key(e.target) {
            lex_less(
                (cand.weight as int, cand.duration as int),
                (prev.0[e.target].weight as int, prev.0[e.target].duration as int),
            )
        } else {
            true
        };
        if improves {
            (prev.0.insert(e.target, cand), prev.1.insert(e.target))
        } else {
            prev
        }
    }
}

/// The payload map holding every seed, later seeds replacing earlier ones
/// with the same node: exactly what seeding the heap produces.
pub open spec fn seeded_frontier(seeds: Seq<Query>, hi: int) -> Map<NodeId, Query>
    decreases hi,
{
    if hi <= 0 {
        Map::empty()
    } else {
        seeded_frontier(seeds, hi - 1).insert(seeds[hi - 1].node, seeds[hi - 1])
    }
}

/// `a` refines `b`: everything `b` has seen, `a` has seen at the same or a
/// lexicographically smaller cost pair.
pub open spec fn frontier_le(a: Map<NodeId, Query>, b: Map<NodeId, Query>) -> bool {
    forall|m: NodeId| #[trigger]
        b.contains_key(m) ==> a.contains_key(m) && lex_le(
            (a[m].weight as int, a[m].duration as int),
            (b[m].weight as int, b[m].duration as int),
        )
}

/// Relaxation only refines the frontier: entries never disappear or grow,
/// an entry that changed or appeared is queued, and the queue only grows.
proof fn lemma_rf_monotone(
    seen: Map<NodeId, Query>,
    live: Set<NodeId>,
    node: NodeId,
    w: int,
    d: int,
    adj: Seq<Edge>,
    hi: int,
)
    ensures
        frontier_le(relaxed_frontier(seen, live, node, w, d, adj, hi).0, seen),
        forall|m: NodeId| #[trigger]
            relaxed_frontier(seen, live, node, w, d, adj, hi).0.contains_key(m) && !(
            seen.contains_key(m) && relaxed_frontier(seen, live, node, w, d, adj, hi).0[m]
                == seen[m]) ==> relaxed_frontier(seen, live, node, w, d, adj, hi).1.contains(m),
        forall|m: NodeId|
            live.contains(m) ==> relaxed_frontier(seen, live, node, w, d, adj, hi).1.contains(m),
    decreases hi,
{
    if hi > 0 {
        lemma_rf_monotone(seen, live, node, w, d, adj, hi - 1);
    }
}

/// Each relaxed edge leaves its target's payload at or below the proposal
/// that this settled node made along it.
proof fn lemma_rf_edge_bound(
    seen: Map<NodeId, Query>,
    live: Set<NodeId>,
    node: NodeId,
    w: int,
    d: int,
    adj: Seq<Edge>,
    hi: int,
)
    requires
        0 <= hi <= adj.len(),
    ensures
        forall|k: int|
            0 <= k < hi ==> ({
                let rf = relaxed_frontier(seen, live, node, w, d, adj, hi);
                let e = #[trigger] adj[k];
                &&& rf.0.contains_key(e.target)
                &&& lex_le(
                    (rf.0[e.target].weight as int, rf.0[e.target].duration as int),
                    (
                        ((w + e.weight) as Weight) as int,
                        ((d + e.duration) as Weight) as int,
                    ),
                )
            }),
    decreases hi,
{
    if hi > 0 {
        lemma_rf_edge_bound(seen, live, node, w, d, adj, hi - 1);
        let prev = relaxed_frontier(seen, live, node, w, d, adj, hi - 1);
        let rf = relaxed_frontier(seen, live, node, w, d, adj, hi);
        assert forall|m: NodeId| #[trigger] prev.0.contains_key(m) implies rf.0.contains_key(m)
            && lex_le(
            (rf.0[m].weight as int, rf.0[m].duration as int),
            (prev.0[m].weight as int, prev.0[m].duration as int),
        ) by {}
    }
}

/// A node that stalls against a frontier still stalls against any
/// refinement of it: the witnessing neighbour only got cheaper.
proof fn lemma_stall_monotone(
    seen1: Map<NodeId, Query>,
    seen2: Map<NodeId, Query>,
    adj: Seq<Edge>,
    w: int,
    hi: int,
)
    requires
        frontier_le(seen2, seen1),
        stall_witness_upto(seen1, adj, w, hi),
    ensures
        stall_witness_upto(seen2, adj, w, hi),
    decreases hi,
{
    if hi > 0 && stall_witness_upto(seen1, adj, w, hi - 1) {
        lemma_stall_monotone(seen1, seen2, adj, w, hi - 1);
    }
}

/// Some bucket in `bs` records exactly the payload `q`, for the row or
/// column numbered `index`.
pub open spec fn settled_bucket(bs: Seq<Bucket>, index: int, q: Query) -> bool {
    exists|j: int|
        0 <= j < bs.len() && (#[trigger] bs[j]).middle_node == q.node && bs[j].column_index as int
            == index && bs[j].weight == q.weight && bs[j].duration == q.duration
}

/// Every live edge out of `n` has been relaxed against `seen`: its target
/// is seen at no more than the sum through `n`.
pub open spec fn edges_relaxed(g: Graph, dir: Direction, seen: Map<NodeId, Query>, n: NodeId) -> bool {
    forall|k: int|
        0 <= k < g.adjacent(n as int, dir).len() ==> ({
            let e = #[trigger] g.adjacent(n as int, dir)[k];
            &&& seen.contains_key(e.target)
            &&& lex_le(
                (seen[e.target].weight as int, seen[e.target].duration as int),
                (seen[n].weight + e.weight, seen[n].duration + e.duration),
            )
        })
}

/// The search's exit guarantee, over its final payload frontier `fr`:
/// every entry is a sound path sum; every seed's node is held at no more
/// than its (last) seed cost; every entry was settled into a bucket at
/// exactly its final cost; and every entry that does not stall against the
/// final frontier has all its outgoing edges relaxed.  Emitting too little
/// (or stopping early) falsifies the relaxation closure.
pub open spec fn search_fixed_point(
    g: Graph,
    dir: Direction,
    seeds: Seq<Query>,
    index: int,
    buckets: Seq<Bucket>,
    fr: Map<NodeId, Query>,
) -> bool {
    let seeded = seeded_frontier(seeds, seeds.len() as int);
    &&& (forall|n: NodeId| #[trigger]
        fr.contains_key(n) ==> fr[n].node == n && n < g.node_count() && reachable(
            g,
            dir,
            seeds,
            n,
            fr[n].weight as int,
            fr[n].duration as int,
        ))
    &&& (forall|n: NodeId| #[trigger]
        seeded_frontier(seeds, seeds.len() as int).contains_key(n) ==> fr.contains_key(n)
            && lex_le(
            (fr[n].weight as int, fr[n].duration as int),
            (
                seeded_frontier(seeds, seeds.len() as int)[n].weight as int,
                seeded_frontier(seeds, seeds.len() as int)[n].duration as int,
            ),
        ))
    &&& (forall|n: NodeId| #[trigger]
        fr.contains_key(n) ==> settled_bucket(buckets, index, fr[n]))
    &&& (forall|n: NodeId| #[trigger]
        fr.contains_key(n) && !stalled(g, fr, dir, n, fr[n].weight as int) ==> edges_relaxed(
            g,
            dir,
            fr,
            n,
        ))
}

/// One directed search.  It owns its heap; the graph is shared and
/// read-only.
pub struct Search<'a> {
    graph: &'a Graph,
    heap: QueryHeap,
    direction: Direction,
    index: usize,
    seeds: Ghost<Seq<Query>>,
}

impl<'a> Search<'a> {
    /// The direction this search travels.
    pub closed spec fn dir(self) -> Direction {
        self.direction
    }

    /// The row or column this search computes.
    pub closed spec fn owner_index(self) -> int {
        self.index as int
    }

    /// The seed queries this search started from.
    pub closed spec fn seed_seq(self) -> Seq<Query> {
        self.seeds@
    }

    /// The graph this search runs on.
    pub closed spec fn graph_spec(self) -> Graph {
        *self.graph
    }

    /// The heap's payload map.
    pub closed spec fn seen_map(self) -> Map<NodeId, Query> {
        self.heap.seen()
    }

    /// A search that has not yet settled anything: everything seen is
    /// still queued.
    pub closed spec fn fresh(self) -> bool {
        forall|n: NodeId| #[trigger]
            self.heap.seen().contains_key(n) ==> self.heap.live().contains(n)
    }

    /// The search invariant: the heap is consistent, every seed's node has
    /// been seen, and every payload the heap has ever answered for is an
    /// exact path sum from the seeds.
    pub closed spec fn inv(self) -> bool {
        &&& self.graph.wf()
        &&& self.heap.wf()
        &&& sums_bounded(*self.graph, self.direction, self.seeds@)
        &&& (forall|k: int|
            0 <= k < self.seeds@.len() ==> self.heap.seen().contains_key(
                (#[trigger] self.seeds@[k]).node,
            ))
        &&& (forall|n: NodeId| #[trigger]
            self.heap.seen().contains_key(n) ==> self.heap.seen()[n].node == n && n
                < self.graph.node_count() && reachable(
                *self.graph,
                self.direction,
                self.seeds@,
                n,
                self.heap.seen()[n].weight as int,
                self.heap.seen()[n].duration as int,
            ))
    }

    /// Builds a search seeded with `queries` for the row or column numbered
    /// `index`.
    pub fn new(graph: &'a Graph, direction: Direction, queries: Vec<Query>, index: usize) -> (r:
        Search<'a>)
        requires
            graph.wf(),
            sums_bounded(*graph, direction, queries@),
            forall|k: int| 0 <= k < queries@.len() ==> (#[trigger] queries@[k]).node < graph.node_count(),
        ensures
            r.inv(),
            r.fresh(),
            r.graph_spec() == *graph,
            r.dir() == direction,
            r.owner_index() == index as int,
            r.seed_seq() == queries@,
            r.seen_map() == seeded_frontier(queries@, queries@.len() as int),
    {
        let ghost seeds = queries@;
        let mut heap = QueryHeap::new();
        let n = queries.len();
        for k in 0..n
            invariant
                n == queries@.len(),
                heap.wf(),
                forall|j: int|
                    0 <= j < k ==> heap.seen().contains_key((#[trigger] queries@[j]).node),
                forall|node: NodeId| #[trigger]
                    heap.seen().contains_key(node) ==> heap.live().contains(node),
                heap.seen() == seeded_frontier(queries@, k as int),
                forall|node: NodeId| #[trigger]
                    heap.seen().contains_key(node) ==> exists|j: int|
                        0 <= j < k && (#[trigger] queries@[j]).node == node && queries@[j]
                            == heap.seen()[node],
        {
            heap.push(queries[k]);
        }
        proof {
            assert forall|node: NodeId| #[trigger] heap.seen().contains_key(node) implies {
                &&& heap.seen()[node].node == node
                &&& node < graph.node_count()
                &&& reachable(
                    *graph,
                    direction,
                    seeds,
                    node,
                    heap.seen()[node].weight as int,
                    heap.seen()[node].duration as int,
                )
            } by {
                let j = choose|j: int|
                    0 <= j < queries@.len() && (#[trigger] queries@[j]).node == node && queries@[j]
                        == heap.seen()[node];
                let q = heap.seen()[node];
                lemma_reach_seed(*graph, direction, seeds, j);
            }
        }
        Search { graph, heap, direction, index, seeds: Ghost(seeds) }
    }

    /// The stall-on-demand test: `node`, about to be settled at `weight`,
    /// is stalled when some already-seen neighbour reaches it more cheaply
    /// through an opposite-direction edge.  Pruning a stalled node never
    /// loses a true cost, so only performance depends on this test.
    fn stall_at_node(&self, node: NodeId, weight: Weight) -> (r: bool)
        requires
            self.inv(),
            node < self.graph.node_count(),
        ensures
            r == stall_witness_upto(
                self.heap.seen(),
                self.graph.adjacent(node as int, self.dir().spec_opposite()),
                weight as int,
                self.graph.adjacent(node as int, self.dir().spec_opposite()).len() as int,
            ),
    {
        let opposite = self.direction.opposite();
        let adj = self.graph.get_adjacent_edges(node, opposite);
        let ghost adj_seq = adj@;
        let ghost seen = self.heap.seen();
        let n = adj.len();
        for i in 0..n
            invariant
                n == adj@.len(),
                adj@ == adj_seq,
                adj_seq == self.graph.adjacent(node as int, self.dir().spec_opposite()),
                seen == self.heap.seen(),
                self.inv(),
                !stall_witness_upto(seen, adj_seq, weight as int, i as int),
        {
            let edge = &adj[i];
            let found = match self.heap.get(edge.target) {
                Some(query) => (query.weight as i64) + (edge.weight as i64) < weight as i64,
                None => false,
            };
            if found {
                proof {
                    assert(stall_witness_upto(seen, adj_seq, weight as int, i as int + 1));
                    lemma_stall_mono(seen, adj_seq, weight as int, i as int + 1, adj_seq.len() as int);
                }
                return true;
            }
        }
        false
    }

    /// Relaxes the outgoing edges of `node`, settled at `(weight,
    /// duration)`: unless the stall test prunes it, each live outgoing edge
    /// proposes its path sum to the edge's target, and the heap keeps
    /// whichever proposal is lexicographically least.  The frontier measure
    /// never grows, and only an actual improvement changes the heap.
    fn relax_outgoing_edges(&mut self, node: NodeId, weight: Weight, duration: Weight)
        requires
            old(self).inv(),
            node < old(self).graph.node_count(),
            reachable(
                *old(self).graph,
                old(self).dir(),
                old(self).seed_seq(),
                node,
                weight as int,
                duration as int,
            ),
        ensures
            final(self).inv(),
            final(self).graph == old(self).graph,
            final(self).dir() == old(self).dir(),
            final(self).owner_index() == old(self).owner_index(),
            final(self).seed_seq() == old(self).seed_seq(),
            frontier_measure(
                final(self).heap.seen(),
                old(self).graph.node_count() as nat,
            ) < frontier_measure(old(self).heap.seen(), old(self).graph.node_count() as nat) || (
            final(self).heap.seen() == old(self).heap.seen() && final(self).heap.live() == old(
                self,
            ).heap.live()),
            forall|n: NodeId|
                old(self).heap.live().contains(n) ==> final(self).heap.live().contains(n),
            forall|n: NodeId| #[trigger]
                final(self).heap.seen().contains_key(n) ==> old(self).heap.seen().contains_key(n)
                    || final(self).heap.live().contains(n),
            stalled(*old(self).graph, old(self).heap.seen(), old(self).dir(), node, weight as int)
                ==> final(self).heap.seen() == old(self).heap.seen() && final(self).heap.live()
                == old(self).heap.live(),
            !stalled(*old(self).graph, old(self).heap.seen(), old(self).dir(), node, weight as int)
                ==> ({
                let adj = old(self).graph.adjacent(node as int, old(self).dir());
                let rf = relaxed_frontier(
                    old(self).heap.seen(),
                    old(self).heap.live(),
                    node,
                    weight as int,
                    duration as int,
                    adj,
                    adj.len() as int,
                );
                final(self).heap.seen() == rf.0 && final(self).heap.live() == rf.1
            }),
    {
        if self.stall_at_node(node, weight) {
            return ;
        }
        let ghost g = *self.graph;
        let ghost dir = self.direction;
        let ghost seeds = self.seeds@;
        let ghost n_count = g.node_count() as nat;
        let ghost seen0 = self.heap.seen();
        let ghost live0 = self.heap.live();
        let ghost idx0 = self.index;
        let adj = self.graph.get_adjacent_edges(node, self.direction);
        let ghost adj_seq = adj@;
        let n = adj.len();
        for i in 0..n
            invariant
                n == adj@.len(),
                adj@ == adj_seq,
                adj_seq == g.adjacent(node as int, dir),
                g == *self.graph,
                dir == self.direction,
                seeds == self.seeds@,
                idx0 == self.index,
                n_count == g.node_count() as nat,
                node < g.node_count(),
                reachable(g, dir, seeds, node, weight as int, duration as int),
                self.inv(),
                frontier_measure(self.heap.seen(), n_count) < frontier_measure(seen0, n_count) || (
                self.heap.seen() == seen0 && self.heap.live() == live0),
                forall|nn: NodeId| live0.contains(nn) ==> self.heap.live().contains(nn),
                forall|nn: NodeId| #[trigger]
                    self.heap.seen().contains_key(nn) ==> seen0.contains_key(nn)
                        || self.heap.live().contains(nn),
                ({
                    let rf = relaxed_frontier(
                        seen0,
                        live0,
                        node,
                        weight as int,
                        duration as int,
                        adj_seq,
                        i as int,
                    );
                    self.heap.seen() == rf.0 && self.heap.live() == rf.1
                }),
        {
            let edge = adj[i];
            let new_weight_wide = weight as i64 + edge.weight as i64;
            let new_duration_wide = duration as i64 + edge.duration as i64;
            proof {
                g.lemma_offsets_monotone(node as int + 1, g.node_count());
                g.lemma_live_between_member(
                    g.adj_begin(node as int),
                    g.adj_end(node as int),
                    dir,
                    i as int,
                );
                let j = choose|j: int|
                    g.adj_begin(node as int) <= j < g.adj_end(node as int) && #[trigger] g.edge_live(
                        j,
                        dir,
                    ) && g.edge_at(j) == adj_seq[i as int];
                lemma_reach_step(g, dir, seeds, node, weight as int, duration as int, j);
                assert(reachable(
                    g,
                    dir,
                    seeds,
                    edge.target,
                    weight + edge.weight,
                    duration + edge.duration,
                ));
                assert(edge.target < g.node_count());
            }
            let query = Query {
                node: edge.target,
                parent: node,
                weight: new_weight_wide as Weight,
                duration: new_duration_wide as Weight,
            };
            let improves = match self.heap.get(edge.target) {
                Some(current) => query.weight < current.weight || (query.weight == current.weight
                    && query.duration < current.duration),
                None => true,
            };
            proof {
                let rf = relaxed_frontier(
                    seen0,
                    live0,
                    node,
                    weight as int,
                    duration as int,
                    adj_seq,
                    i as int,
                );
                let rf_next = relaxed_frontier(
                    seen0,
                    live0,
                    node,
                    weight as int,
                    duration as int,
                    adj_seq,
                    i as int + 1,
                );
                assert(rf_next == if ({
                    if rf.0.contains_key(edge.target) {
                        lex_less(
                            ((weight + edge.weight) as Weight as int, (duration
                                + edge.duration) as Weight as int),
                            (rf.0[edge.target].weight as int, rf.0[edge.target].duration as int),
                        )
                    } else {
                        true
                    }
                }) {
                    (
                        rf.0.insert(
                            edge.target,
                            Query {
                                node: edge.target,
                                parent: node,
                                weight: (weight + edge.weight) as Weight,
                                duration: (duration + edge.duration) as Weight,
                            },
                        ),
                        rf.1.insert(edge.target),
                    )
                } else {
                    rf
                });
            }
            if improves {
                let ghost seen_before = self.heap.seen();
                let ghost live_before = self.heap.live();
                self.heap.push(query);
                proof {
                    assert(node_measure(self.heap.seen(), edge.target) < node_measure(
                        seen_before,
                        edge.target,
                    ));
                    assert forall|m: NodeId| m < n_count implies #[trigger] node_measure(
                        self.heap.seen(),
                        m,
                    ) <= node_measure(seen_before, m) by {
                        if m != edge.target {
                            assert(self.heap.seen().contains_key(m) == seen_before.contains_key(m));
                        }
                    }
                    lemma_frontier_measure_lt(
                        seen_before,
                        self.heap.seen(),
                        n_count,
                        edge.target,
                    );
                    if frontier_measure(seen_before, n_count) < frontier_measure(seen0, n_count) {
                    } else {
                        assert(seen_before == seen0);
                    }
                }
            }
        }
    }

    /// Runs the search to exhaustion.  Every returned bucket carries this
    /// search's row or column index, and its `(weight, duration)` is the
    /// exact cost of some live-edge path from a seed to its middle node —
    /// no cost is ever invented.
    #[verifier::rlimit(80)]
    pub fn perform(self) -> (r: Vec<Bucket>)
        requires
            self.inv(),
            self.fresh(),
            self.seen_map() == seeded_frontier(self.seed_seq(), self.seed_seq().len() as int),
        ensures
            forall|k: int|
                0 <= k < r@.len() ==> {
                    let b = #[trigger] r@[k];
                    &&& b.column_index == self.owner_index()
                    &&& b.middle_node < self.graph_spec().node_count()
                    &&& reachable(
                        self.graph_spec(),
                        self.dir(),
                        self.seed_seq(),
                        b.middle_node,
                        b.weight as int,
                        b.duration as int,
                    )
                },
            forall|k: int|
                0 <= k < self.seed_seq().len() ==> covers(r@, (#[trigger] self.seed_seq()[k]).node),
            exists|fr: Map<NodeId, Query>| #[trigger] search_fixed_point(
                self.graph_spec(),
                self.dir(),
                self.seed_seq(),
                self.owner_index(),
                r@,
                fr,
            ),
    {
        let ghost orig = self;
        let mut search = self;
        let ghost g = *search.graph;
        let ghost dir = search.direction;
        let ghost seeds = search.seeds@;
        let ghost idx = search.index as int;
        let ghost n_count = g.node_count() as nat;
        let ghost seeded = seeded_frontier(seeds, seeds.len() as int);
        let mut buckets: Vec<Bucket> = Vec::new();
        proof {
            assert(frontier_le(search.heap.seen(), seeded));
        }
        loop
            invariant
                search.inv(),
                seeded == seeded_frontier(seeds, seeds.len() as int),
                frontier_le(search.heap.seen(), seeded),
                forall|n: NodeId| #[trigger]
                    search.heap.seen().contains_key(n) && !search.heap.live().contains(n)
                        ==> settled_bucket(buckets@, idx, search.heap.seen()[n]),
                forall|n: NodeId| #[trigger]
                    search.heap.seen().contains_key(n) && !search.heap.live().contains(n)
                        && !stalled(g, search.heap.seen(), dir, n, search.heap.seen()[n].weight as int)
                        ==> edges_relaxed(g, dir, search.heap.seen(), n),
                g == *search.graph,
                dir == search.direction,
                seeds == search.seeds@,
                idx == search.index as int,
                n_count == g.node_count() as nat,
                forall|k: int|
                    0 <= k < buckets@.len() ==> {
                        let b = #[trigger] buckets@[k];
                        &&& b.column_index == idx
                        &&& b.middle_node < g.node_count()
                        &&& reachable(g, dir, seeds, b.middle_node, b.weight as int, b.duration as int)
                    },
                forall|n: NodeId| #[trigger]
                    search.heap.seen().contains_key(n) ==> search.heap.live().contains(n)
                        || covers(buckets@, n),
            ensures
                forall|k: int|
                    0 <= k < buckets@.len() ==> {
                        let b = #[trigger] buckets@[k];
                        &&& b.column_index == idx
                        &&& b.middle_node < g.node_count()
                        &&& reachable(g, dir, seeds, b.middle_node, b.weight as int, b.duration as int)
                    },
                forall|k: int|
                    0 <= k < seeds.len() ==> covers(buckets@, (#[trigger] seeds[k]).node),
                exists|fr: Map<NodeId, Query>| #[trigger] search_fixed_point(
                    g,
                    dir,
                    seeds,
                    idx,
                    buckets@,
                    fr,
                ),
            decreases frontier_measure(search.heap.seen(), n_count), queued_count(
                search.heap.live(),
                n_count,
            ),
        {
            proof {
                lemma_frontier_measure_nonneg(search.heap.seen(), n_count);
                lemma_queued_count_nonneg(search.heap.live(), n_count);
            }
            let ghost seen_start = search.heap.seen();
            let ghost live_start = search.heap.live();
            let popped = search.heap.pop();
            match popped {
                None => {
                    proof {
                        assert forall|k: int| 0 <= k < seeds.len() implies covers(
                            buckets@,
                            (#[trigger] seeds[k]).node,
                        ) by {
                            let node = seeds[k].node;
                            assert(search.heap.seen().contains_key(node));
                            assert(!search.heap.live().contains(node));
                            assert(settled_bucket(buckets@, idx, search.heap.seen()[node]));
                            let j = choose|j: int|
                                0 <= j < buckets@.len() && (#[trigger] buckets@[j]).middle_node
                                    == search.heap.seen()[node].node && buckets@[j].column_index as int
                                    == idx && buckets@[j].weight == search.heap.seen()[node].weight
                                    && buckets@[j].duration == search.heap.seen()[node].duration;
                            assert(buckets@[j].middle_node == node);
                        }
                        assert(search_fixed_point(g, dir, seeds, idx, buckets@, search.heap.seen()));
                        assert(exists|fr: Map<NodeId, Query>| #[trigger] search_fixed_point(
                            g,
                            dir,
                            seeds,
                            idx,
                            buckets@,
                            fr,
                        ));
                    }
                    break ;
                },
                Some(query) => {
                    let ghost buckets_entry = buckets@;
                    buckets.push(
                        Bucket {
                            middle_node: query.node,
                            column_index: search.index,
                            weight: query.weight,
                            duration: query.duration,
                        },
                    );
                    search.relax_outgoing_edges(query.node, query.weight, query.duration);
                    proof {
                        lemma_frontier_measure_nonneg(search.heap.seen(), n_count);
                        lemma_queued_count_nonneg(search.heap.live(), n_count);
                        assert forall|nn: NodeId| #[trigger] search.heap.seen().contains_key(
                            nn,
                        ) implies search.heap.live().contains(nn) || covers(buckets@, nn) by {
                            if nn == query.node {
                                assert(buckets@[buckets@.len() - 1].middle_node == nn);
                            } else if seen_start.contains_key(nn) {
                                if covers(buckets_entry, nn) {
                                    let j = choose|j: int|
                                        0 <= j < buckets_entry.len() && (#[trigger] buckets_entry[j]).middle_node
                                            == nn;
                                    assert((#[trigger] buckets@[j]).middle_node == nn);
                                } else {
                                    assert(live_start.contains(nn));
                                    assert(live_start.remove(query.node).contains(nn));
                                }
                            }
                        }
                        let seen1 = seen_start;
                        let live1 = live_start.remove(query.node);
                        let seen2 = search.heap.seen();
                        let live2 = search.heap.live();
                        let adj2 = g.adjacent(query.node as int, dir);
                        let was_stalled = stalled(g, seen1, dir, query.node, query.weight as int);
                        if !was_stalled {
                            lemma_rf_monotone(
                                seen1,
                                live1,
                                query.node,
                                query.weight as int,
                                query.duration as int,
                                adj2,
                                adj2.len() as int,
                            );
                            lemma_rf_edge_bound(
                                seen1,
                                live1,
                                query.node,
                                query.weight as int,
                                query.duration as int,
                                adj2,
                                adj2.len() as int,
                            );
                        }
                        assert(frontier_le(seen2, seen1));
                        assert forall|nn: NodeId| #[trigger] seeded.contains_key(nn) implies seen2
                            .contains_key(nn) && lex_le(
                            (seen2[nn].weight as int, seen2[nn].duration as int),
                            (seeded[nn].weight as int, seeded[nn].duration as int),
                        ) by {
                            assert(seen1.contains_key(nn));
                        }
                        assert forall|nn: NodeId|
                            seen2.contains_key(nn) && !(#[trigger] seen1.contains_key(nn)
                                && seen2[nn] == seen1[nn]) implies live2.contains(nn) by {}
                        assert forall|nn: NodeId| #[trigger] seen2.contains_key(nn) && !live2
                            .contains(nn) implies settled_bucket(buckets@, idx, seen2[nn]) by {
                            assert(seen1.contains_key(nn) && seen2[nn] == seen1[nn]);
                            if nn == query.node {
                                assert(seen1[nn] == query);
                                assert(buckets@[buckets@.len() - 1] == Bucket {
                                    middle_node: query.node,
                                    column_index: search.index,
                                    weight: query.weight,
                                    duration: query.duration,
                                });
                            } else {
                                assert(!live1.contains(nn));
                                assert(!live_start.contains(nn));
                                assert(settled_bucket(buckets_entry, idx, seen_start[nn]));
                                let j = choose|j: int|
                                    0 <= j < buckets_entry.len() && (#[trigger] buckets_entry[j]).middle_node
                                        == seen_start[nn].node && buckets_entry[j].column_index as int
                                        == idx && buckets_entry[j].weight == seen_start[nn].weight
                                        && buckets_entry[j].duration == seen_start[nn].duration;
                                assert(buckets@[j] == buckets_entry[j]);
                            }
                        }
                        assert forall|nn: NodeId| #[trigger] seen2.contains_key(nn) && !live2
                            .contains(nn) && !stalled(
                            g,
                            seen2,
                            dir,
                            nn,
                            seen2[nn].weight as int,
                        ) implies edges_relaxed(g, dir, seen2, nn) by {
                            assert(seen1.contains_key(nn) && seen2[nn] == seen1[nn]);
                            if nn == query.node {
                                if was_stalled {
                                    lemma_stall_monotone(
                                        seen1,
                                        seen2,
                                        g.adjacent(nn as int, dir.spec_opposite()),
                                        query.weight as int,
                                        g.adjacent(nn as int, dir.spec_opposite()).len() as int,
                                    );
                                    assert(false);
                                } else {
                                    assert(seen1[nn] == query);
                                    assert forall|k: int| 0 <= k < adj2.len() implies ({
                                        let e = #[trigger] adj2[k];
                                        &&& seen2.contains_key(e.target)
                                        &&& lex_le(
                                            (
                                                seen2[e.target].weight as int,
                                                seen2[e.target].duration as int,
                                            ),
                                            (
                                                seen2[nn].weight + e.weight,
                                                seen2[nn].duration + e.duration,
                                            ),
                                        )
                                    }) by {
                                        let e = adj2[k];
                                        g.lemma_offsets_monotone(nn as int + 1, g.node_count());
                                        g.lemma_live_between_member(
                                            g.adj_begin(nn as int),
                                            g.adj_end(nn as int),
                                            dir,
                                            k,
                                        );
                                        let jj = choose|jj: int|
                                            g.adj_begin(nn as int) <= jj < g.adj_end(nn as int)
                                                && #[trigger] g.edge_live(jj, dir) && g.edge_at(jj)
                                                == adj2[k];
                                        lemma_reach_step(
                                            g,
                                            dir,
                                            seeds,
                                            nn,
                                            query.weight as int,
                                            query.duration as int,
                                            jj,
                                        );
                                        assert(reachable(
                                            g,
                                            dir,
                                            seeds,
                                            e.target,
                                            query.weight + e.weight,
                                            query.duration + e.duration,
                                        ));
                                    }
                                }
                            } else {
                                assert(!live1.contains(nn));
                                assert(!live_start.contains(nn));
                                if stalled(g, seen1, dir, nn, seen1[nn].weight as int) {
                                    lemma_stall_monotone(
                                        seen1,
                                        seen2,
                                        g.adjacent(nn as int, dir.spec_opposite()),
                                        seen1[nn].weight as int,
                                        g.adjacent(nn as int, dir.spec_opposite()).len() as int,
                                    );
                                    assert(false);
                                }
                                assert(edges_relaxed(g, dir, seen_start, nn));
                                assert forall|k: int|
                                    0 <= k < g.adjacent(nn as int, dir).len() implies ({
                                    let e = #[trigger] g.adjacent(nn as int, dir)[k];
                                    &&& seen2.contains_key(e.target)
                                    &&& lex_le(
                                        (
                                            seen2[e.target].weight as int,
                                            seen2[e.target].duration as int,
                                        ),
                                        (
                                            seen2[nn].weight + e.weight,
                                            seen2[nn].duration + e.duration,
                                        ),
                                    )
                                }) by {
                                    let e = g.adjacent(nn as int, dir)[k];
                                    assert(seen1.contains_key(e.target));
                                }
                            }
                        }
                        if search.heap.seen() == seen_start {
                            assert forall|m: NodeId|
                                m < n_count && #[trigger] search.heap.live().contains(
                                    m,
                                ) implies live_start.contains(m) by {}
                            lemma_queued_count_lt(
                                live_start,
                                search.heap.live(),
                                n_count,
                                query.node,
                            );
                        }
                    }
                },
            }
        }
        proof {
            let fr = choose|fr: Map<NodeId, Query>| search_fixed_point(
                g,
                dir,
                seeds,
                idx,
                buckets@,
                fr,
            );
            assert(search_fixed_point(
                orig.graph_spec(),
                orig.dir(),
                orig.seed_seq(),
                orig.owner_index(),
                buckets@,
                fr,
            ));
            assert(exists|fr2: Map<NodeId, Query>| #[trigger] search_fixed_point(
                orig.graph_spec(),
                orig.dir(),
                orig.seed_seq(),
                orig.owner_index(),
                buckets@,
                fr2,
            ));
        }
        buckets
    }
}

} // verus!
