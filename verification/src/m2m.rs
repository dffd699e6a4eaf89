//! The many-to-many orchestrator.  It owns the source and target query
//! sets, runs one backward search per target and one forward search per
//! source, joins the resulting bucket families, and caches buckets so that
//! appending sources or targets only computes the new rows or columns.
//!
//! The proved guarantee for every matrix cell: `None` or a justified cost —
//! the self-loop-corrected sum of an actual forward path from that row's
//! seeds and an actual backward path from that column's seeds, meeting at a
//! middle node, with a non-negative weight.

use std::collections::HashMap;

use itertools::Itertools;

use vstd::prelude::*;

use crate::bucket::Bucket;
use crate::bucket::sorted_by_middle;
use crate::graph::Direction;
use crate::graph::Graph;
use crate::graph::NodeId;
use crate::graph::Weight;
use crate::heap::Query;
use crate::join::candidate;
use crate::join::candidate_vals;
use crate::join::cell_fits;
use crate::join::cell_view;
use crate::join::best_pair;
use crate::join::join_buckets;
use crate::join::lemma_best_pair_achieved;
use crate::join::lemma_best_pair_concat_targets;
use crate::join::lemma_best_pair_no_column;
use crate::join::lemma_best_pair_permutation;
use crate::join::opt_min;
use crate::search::Search;
use crate::search::covers;
use crate::search::reachable;
use crate::search::sums_bounded;

verus! {

broadcast use vstd::std_specs::hash::group_hash_axioms, vstd::seq_lib::group_to_multiset_ensures, vstd::multiset::group_multiset_axioms;

/// A seed set fit to drive a search: its path sums stay in the stored
/// range, and its nodes exist in the graph.
pub open spec fn seeds_ok(g: Graph, dir: Direction, seeds: Seq<Query>) -> bool {
    &&& sums_bounded(g, dir, seeds)
    &&& (forall|k: int| 0 <= k < seeds.len() ==> (#[trigger] seeds[k]).node < g.node_count())
}

/// Whatever forward cost pair the row's seeds reach and backward cost pair
/// the column's seeds reach at a shared middle node, the joined candidate
/// fits the stored 32-bit cell.  This is the machine-limit precondition of
/// a whole row/column pair.
pub open spec fn pair_fits(g: Graph, src: Seq<Query>, tgt: Seq<Query>) -> bool {
    forall|n: NodeId, w1: int, d1: int, w2: int, d2: int|
        reachable(g, Direction::Forward, src, n, w1, d1) && reachable(
            g,
            Direction::Backward,
            tgt,
            n,
            w2,
            d2,
        ) ==> cell_fits(#[trigger] candidate_vals(g, n, w1, d1, w2, d2))
}

/// A cost pair `v` is justified for a row/column pair: it is the (possibly
/// self-loop-corrected) sum of an actual forward path from the row's seeds
/// and an actual backward path from the column's seeds, meeting at a middle
/// node.
pub open spec fn justified(g: Graph, src: Seq<Query>, tgt: Seq<Query>, v: (int, int)) -> bool {
    exists|n: NodeId, w1: int, d1: int, w2: int, d2: int|
        reachable(g, Direction::Forward, src, n, w1, d1) && reachable(
            g,
            Direction::Backward,
            tgt,
            n,
            w2,
            d2,
        ) && #[trigger] candidate_vals(g, n, w1, d1, w2, d2) == Some(v)
}

/// Source-side bucket soundness: every bucket is an exact forward path sum
/// from the given seed set to its middle node.
pub open spec fn source_buckets_sound(g: Graph, seeds: Seq<Query>, bs: Seq<Bucket>) -> bool {
    forall|k: int|
        0 <= k < bs.len() ==> {
            let b = #[trigger] bs[k];
            &&& b.middle_node < g.node_count()
            &&& reachable(g, Direction::Forward, seeds, b.middle_node, b.weight as int, b.duration as int)
        }
}

/// Target-side bucket soundness: every bucket names a real column and is an
/// exact backward path sum from that column's seed set to its middle node.
pub open spec fn target_buckets_sound(g: Graph, cols: Seq<Seq<Query>>, bs: Seq<Bucket>) -> bool {
    forall|k: int|
        0 <= k < bs.len() ==> {
            let b = #[trigger] bs[k];
            &&& b.middle_node < g.node_count()
            &&& b.column_index < cols.len()
            &&& reachable(
                g,
                Direction::Backward,
                cols[b.column_index as int],
                b.middle_node,
                b.weight as int,
                b.duration as int,
            )
        }
}

/// The matrix `m` is exactly the join of the bucket families `sbs` (one
/// list per source row) and `tbs` (one list for all target columns): the
/// families are sound path sums for their seed sets, every seed's node has
/// a bucket, and every cell is the lexicographic best candidate its
/// row/column pair of families admits.
pub open spec fn matrix_joined(
    g: Graph,
    sources: Seq<Seq<Query>>,
    targets: Seq<Seq<Query>>,
    m: Seq<Seq<Option<(Weight, Weight)>>>,
    sbs: Seq<Seq<Bucket>>,
    tbs: Seq<Bucket>,
) -> bool {
    &&& sbs.len() == sources.len()
    &&& (forall|r: int|
        0 <= r < sources.len() ==> source_buckets_sound(g, sources[r], #[trigger] sbs[r]))
    &&& (forall|r: int, k: int|
        0 <= r < sources.len() && 0 <= k < sources[r].len() ==> covers(
            sbs[r],
            (#[trigger] sources[r][k]).node,
        ))
    &&& target_buckets_sound(g, targets, tbs)
    &&& (forall|c: int, k: int|
        0 <= c < targets.len() && 0 <= k < targets[c].len() ==> covers_col(
            tbs,
            c,
            (#[trigger] targets[c][k]).node,
        ))
    &&& (forall|r: int, c: int|
        0 <= r < m.len() && 0 <= c < targets.len() ==> cell_view(#[trigger] m[r][c])
            == best_pair(g, sbs[r], tbs, c))
}

/// Some bucket in the list reports column `col` at middle node `n`.
pub open spec fn covers_col(bs: Seq<Bucket>, col: int, n: NodeId) -> bool {
    exists|j: int|
        0 <= j < bs.len() && (#[trigger] bs[j]).column_index == col && bs[j].middle_node == n
}

/// Column coverage survives appending more buckets.
proof fn lemma_covers_col_extend(bs1: Seq<Bucket>, bs2: Seq<Bucket>, col: int, n: NodeId)
    requires
        covers_col(bs1, col, n),
    ensures
        covers_col(bs1 + bs2, col, n),
{
    let j = choose|j: int|
        0 <= j < bs1.len() && (#[trigger] bs1[j]).column_index == col && bs1[j].middle_node == n;
    assert((bs1 + bs2)[j] == bs1[j]);
}

/// Column coverage survives any rearrangement that keeps the bucket.
proof fn lemma_covers_col_multiset(bs1: Seq<Bucket>, bs2: Seq<Bucket>, col: int, n: NodeId)
    requires
        covers_col(bs1, col, n),
        forall|x: Bucket| #[trigger] bs2.to_multiset().count(x) >= bs1.to_multiset().count(x),
    ensures
        covers_col(bs2, col, n),
{
    let j = choose|j: int|
        0 <= j < bs1.len() && (#[trigger] bs1[j]).column_index == col && bs1[j].middle_node == n;
    let b = bs1[j];
    assert(bs1.contains(b));
    assert(bs1.to_multiset().count(b) > 0);
    assert(bs2.to_multiset().count(b) >= bs1.to_multiset().count(b));
    assert(bs2.contains(b));
    let j2 = choose|j2: int| 0 <= j2 < bs2.len() && bs2[j2] == b;
    assert(bs2[j2].column_index == col && bs2[j2].middle_node == n);
}

/// An exact copy of a query list.
fn copy_queries(qs: &Vec<Query>) -> (r: Vec<Query>)
    ensures
        r@ == qs@,
{
    let mut r: Vec<Query> = Vec::new();
    for i in 0..qs.len()
        invariant
            r@ == qs@.subrange(0, i as int),
    {
        r.push(qs[i]);
    }
    proof {
        assert(qs@.subrange(0, qs@.len() as int) =~= qs@);
    }
    r
}

/// A fresh result row: `n` unreached cells.
fn empty_row(n: usize) -> (r: Vec<Option<(Weight, Weight)>>)
    ensures
        r@.len() == n,
        forall|c: int| 0 <= c < n ==> (#[trigger] r@[c]) is None,
{
    let mut r: Vec<Option<(Weight, Weight)>> = Vec::new();
    for i in 0..n
        invariant
            r@.len() == i,
            forall|c: int| 0 <= c < i ==> (#[trigger] r@[c]) is None,
    {
        r.push(None);
    }
    r
}

/// An exact copy of a result row.
fn copy_row(row: &Vec<Option<(Weight, Weight)>>) -> (r: Vec<Option<(Weight, Weight)>>)
    ensures
        r@ == row@,
{
    let mut r: Vec<Option<(Weight, Weight)>> = Vec::new();
    for i in 0..row.len()
        invariant
            r@ == row@.subrange(0, i as int),
    {
        r.push(row[i]);
    }
    proof {
        assert(row@.subrange(0, row@.len() as int) =~= row@);
    }
    r
}

/// Relies on std's slice::sort_unstable_by_key: sorts the buckets in place
/// by middle node, permuting the elements and nothing more.
#[verifier::external_body]
fn sort_buckets(v: &mut Vec<Bucket>)
    ensures
        sorted_by_middle(final(v)@),
        final(v)@.to_multiset() == old(v)@.to_multiset(),
{
    v.sort_unstable_by_key(|b| b.middle_node);
}

/// The merge of two bucket lists, favouring the first list's head while it
/// is strictly smaller: exactly what the merge iterator below computes.
pub open spec fn merge_by_middle(a: Seq<Bucket>, b: Seq<Bucket>) -> Seq<Bucket>
    decreases a.len() + b.len(),
{
    if a.len() == 0 {
        b
    } else if b.len() == 0 {
        a
    } else if a[0].middle_node < b[0].middle_node {
        seq![a[0]] + merge_by_middle(a.drop_first(), b)
    } else {
        seq![b[0]] + merge_by_middle(a, b.drop_first())
    }
}

/// Relies on itertools::Itertools::merge_by: merges the two lists, taking
/// the first list's element whenever the comparison closure answers true —
/// here, whenever its middle node is strictly smaller.
#[verifier::external_body]
fn merge_buckets(a: &Vec<Bucket>, b: &Vec<Bucket>) -> (r: Vec<Bucket>)
    ensures
        r@ == merge_by_middle(a@, b@),
{
    a.iter().cloned().merge_by(b.iter().cloned(), |x: &Bucket, y: &Bucket| x.middle_node
        < y.middle_node).collect()
}

/// Merging two sorted bucket lists gives a sorted list whose elements all
/// come from one of the two inputs.
proof fn lemma_merge_props(a: Seq<Bucket>, b: Seq<Bucket>)
    requires
        sorted_by_middle(a),
        sorted_by_middle(b),
    ensures
        sorted_by_middle(merge_by_middle(a, b)),
        forall|k: int|
            0 <= k < merge_by_middle(a, b).len() ==> a.contains(#[trigger] merge_by_middle(a, b)[k])
                || b.contains(merge_by_middle(a, b)[k]),
        merge_by_middle(a, b).len() == a.len() + b.len(),
        merge_by_middle(a, b).to_multiset() == (a + b).to_multiset(),
    decreases a.len() + b.len(),
{
    let m = merge_by_middle(a, b);
    if a.len() == 0 {
        assert(a + b =~= b);
    } else if b.len() == 0 {
        assert(a + b =~= a);
    } else {
        let take_a = a[0].middle_node < b[0].middle_node;
        let head = if take_a {
            a[0]
        } else {
            b[0]
        };
        let rest = if take_a {
            merge_by_middle(a.drop_first(), b)
        } else {
            merge_by_middle(a, b.drop_first())
        };
        if take_a {
            assert(sorted_by_middle(a.drop_first()));
            lemma_merge_props(a.drop_first(), b);
            assert(m == seq![a[0]] + rest);
            vstd::seq_lib::lemma_multiset_commutative(seq![a[0]], rest);
            vstd::seq_lib::lemma_multiset_commutative(a.drop_first(), b);
            vstd::seq_lib::lemma_multiset_commutative(a, b);
            assert(a =~= seq![a[0]] + a.drop_first());
            vstd::seq_lib::lemma_multiset_commutative(seq![a[0]], a.drop_first());
            assert(m.to_multiset() =~= (a + b).to_multiset());
            assert forall|k: int| 0 <= k < m.len() implies a.contains(#[trigger] m[k])
                || b.contains(m[k]) by {
                if k == 0 {
                    assert(m[0] == a[0]);
                    assert(a[0] == a[0 as int]);
                } else {
                    assert(m[k] == rest[k - 1]);
                    if a.drop_first().contains(rest[k - 1]) {
                        let j = choose|j: int|
                            0 <= j < a.drop_first().len() && a.drop_first()[j] == rest[k - 1];
                        assert(a[j + 1] == rest[k - 1]);
                    }
                }
            }
            assert forall|i: int, j: int| 0 <= i <= j < m.len() implies #[trigger] m[i].middle_node
                <= #[trigger] m[j].middle_node by {
                if i == 0 && j > 0 {
                    assert(m[j] == rest[j - 1]);
                    if a.drop_first().contains(rest[j - 1]) {
                        let x = choose|x: int|
                            0 <= x < a.drop_first().len() && a.drop_first()[x] == rest[j - 1];
                        assert(a[x + 1] == rest[j - 1]);
                        assert(a[0].middle_node <= a[x + 1].middle_node);
                    } else {
                        let x = choose|x: int| 0 <= x < b.len() && b[x] == rest[j - 1];
                        assert(b[0].middle_node <= b[x].middle_node);
                    }
                } else if i > 0 {
                    assert(m[i] == rest[i - 1] && m[j] == rest[j - 1]);
                }
            }
        } else {
            assert(sorted_by_middle(b.drop_first()));
            lemma_merge_props(a, b.drop_first());
            assert(m == seq![b[0]] + rest);
            vstd::seq_lib::lemma_multiset_commutative(seq![b[0]], rest);
            vstd::seq_lib::lemma_multiset_commutative(a, b.drop_first());
            vstd::seq_lib::lemma_multiset_commutative(a, b);
            assert(b =~= seq![b[0]] + b.drop_first());
            vstd::seq_lib::lemma_multiset_commutative(seq![b[0]], b.drop_first());
            assert(m.to_multiset() =~= (a + b).to_multiset());
            assert forall|k: int| 0 <= k < m.len() implies a.contains(#[trigger] m[k])
                || b.contains(m[k]) by {
                if k == 0 {
                    assert(m[0] == b[0]);
                } else {
                    assert(m[k] == rest[k - 1]);
                    if b.drop_first().contains(rest[k - 1]) {
                        let j = choose|j: int|
                            0 <= j < b.drop_first().len() && b.drop_first()[j] == rest[k - 1];
                        assert(b[j + 1] == rest[k - 1]);
                    }
                }
            }
            assert forall|i: int, j: int| 0 <= i <= j < m.len() implies #[trigger] m[i].middle_node
                <= #[trigger] m[j].middle_node by {
                if i == 0 && j > 0 {
                    assert(m[j] == rest[j - 1]);
                    if b.drop_first().contains(rest[j - 1]) {
                        let x = choose|x: int|
                            0 <= x < b.drop_first().len() && b.drop_first()[x] == rest[j - 1];
                        assert(b[x + 1] == rest[j - 1]);
                        assert(b[0].middle_node <= b[x + 1].middle_node);
                    } else {
                        let x = choose|x: int| 0 <= x < a.len() && a[x] == rest[j - 1];
                        assert(a[0].middle_node <= a[x].middle_node);
                        assert(b[0].middle_node <= a[0].middle_node);
                    }
                } else if i > 0 {
                    assert(m[i] == rest[i - 1] && m[j] == rest[j - 1]);
                }
            }
        }
    }
}

/// Per-bucket soundness survives any permutation: it speaks only of the
/// bucket values.
proof fn lemma_target_sound_perm(g: Graph, cols: Seq<Seq<Query>>, bs1: Seq<Bucket>, bs2: Seq<
    Bucket,
>)
    requires
        target_buckets_sound(g, cols, bs1),
        bs2.to_multiset() == bs1.to_multiset(),
    ensures
        target_buckets_sound(g, cols, bs2),
{
    assert forall|k: int| 0 <= k < bs2.len() implies {
        let b = #[trigger] bs2[k];
        &&& b.middle_node < g.node_count()
        &&& b.column_index < cols.len()
        &&& reachable(
            g,
            Direction::Backward,
            cols[b.column_index as int],
            b.middle_node,
            b.weight as int,
            b.duration as int,
        )
    } by {
        assert(bs2.contains(bs2[k]));
        assert(bs1.to_multiset().count(bs2[k]) > 0);
        assert(bs1.contains(bs2[k]));
        let j = choose|j: int| 0 <= j < bs1.len() && bs1[j] == bs2[k];
        assert(bs1[j].middle_node < g.node_count());
    }
}

/// A justified, non-negative cell: `None`, or a cost pair that an actual
/// forward/backward path pair at a shared middle node accounts for.
pub open spec fn cell_ok(g: Graph, src: Seq<Query>, tgt: Seq<Query>, cell: Option<
    (Weight, Weight),
>) -> bool {
    match cell {
        None => true,
        Some(p) => justified(g, src, tgt, (p.0 as int, p.1 as int)) && p.0 >= 0,
    }
}

/// The incremental, bucket-caching many-to-many engine.
///
/// Rows are numbered in order of source insertion, columns in order of
/// target insertion.  Pending queries are drained by `compute`; the cached
/// buckets let a later `compute` fill only the new rows and columns.
pub struct ManyToMany<'a> {
    graph: &'a Graph,
    num_targets: usize,
    source_queries: Vec<(usize, Vec<Query>)>,
    target_queries: Vec<(usize, Vec<Query>)>,
    source_buckets: HashMap<usize, Vec<Bucket>>,
    target_buckets: Vec<Bucket>,
    results: Vec<Vec<Option<(Weight, Weight)>>>,
    row_seeds: Ghost<Seq<Seq<Query>>>,
    col_seeds: Ghost<Seq<Seq<Query>>>,
}

impl<'a> ManyToMany<'a> {
    /// The graph this engine runs on.
    pub closed spec fn graph_spec(self) -> Graph {
        *self.graph
    }

    /// Number of computed rows.
    pub closed spec fn row_count(self) -> int {
        self.results@.len() as int
    }

    /// Number of computed columns.
    pub closed spec fn computed_target_count(self) -> int {
        self.col_seeds@.len() as int
    }

    /// Number of columns including pending targets.
    pub closed spec fn target_total(self) -> int {
        self.num_targets as int
    }

    /// The seed set of computed row `r`.
    pub closed spec fn row_seed(self, r: int) -> Seq<Query> {
        self.row_seeds@[r]
    }

    /// The seed set of computed column `c`.
    pub closed spec fn col_seed(self, c: int) -> Seq<Query> {
        self.col_seeds@[c]
    }

    /// The seed sets of the sources still pending computation.
    pub closed spec fn pending_source_seeds(self) -> Seq<Seq<Query>> {
        self.source_queries@.map_values(|p: (usize, Vec<Query>)| p.1@)
    }

    /// The seed sets of the targets still pending computation.
    pub closed spec fn pending_target_seeds(self) -> Seq<Seq<Query>> {
        self.target_queries@.map_values(|p: (usize, Vec<Query>)| p.1@)
    }

    /// All source seed sets, computed rows first, in row order.
    pub closed spec fn all_source_seeds(self) -> Seq<Seq<Query>> {
        self.row_seeds@ + self.pending_source_seeds()
    }

    /// All target seed sets, computed columns first, in column order.
    pub closed spec fn all_target_seeds(self) -> Seq<Seq<Query>> {
        self.col_seeds@ + self.pending_target_seeds()
    }

    /// The result matrix.
    pub closed spec fn matrix(self) -> Seq<Seq<Option<(Weight, Weight)>>> {
        self.results@.map_values(|row: Vec<Option<(Weight, Weight)>>| row@)
    }

    /// The cached forward buckets of computed row `r`.
    pub closed spec fn row_buckets(self, r: int) -> Seq<Bucket> {
        self.source_buckets@[r as usize]@
    }

    /// The cached backward buckets of all computed columns, sorted by
    /// middle node.
    pub closed spec fn target_bucket_cache(self) -> Seq<Bucket> {
        self.target_buckets@
    }

    /// The engine invariant: the cached buckets are sound for their rows
    /// and columns, the cached target buckets are sorted, every computed
    /// cell is justified, pending rows and columns are numbered densely
    /// after the computed ones, and every computed row/column pair fits
    /// storage.
    pub closed spec fn wf(self) -> bool {
        &&& self.graph.wf()
        &&& self.num_targets as int == self.col_seeds@.len() + self.target_queries@.len()
        &&& self.results@.len() == self.row_seeds@.len()
        &&& (forall|r: usize|
            (r as int) < self.results@.len() ==> #[trigger] self.source_buckets@.contains_key(r))
        &&& (forall|r: int|
            0 <= r < self.results@.len() ==> (#[trigger] self.results@[r])@.len()
                == self.col_seeds@.len())
        &&& (forall|k: int|
            0 <= k < self.source_queries@.len() ==> (#[trigger] self.source_queries@[k]).0 as int
                == self.results@.len() + k)
        &&& (forall|k: int|
            0 <= k < self.target_queries@.len() ==> (#[trigger] self.target_queries@[k]).0 as int
                == self.col_seeds@.len() + k)
        &&& sorted_by_middle(self.target_buckets@)
        &&& target_buckets_sound(*self.graph, self.col_seeds@, self.target_buckets@)
        &&& (forall|r: usize|
            (r as int) < self.row_seeds@.len() ==> source_buckets_sound(
                *self.graph,
                self.row_seeds@[r as int],
                (#[trigger] self.source_buckets@[r])@,
            ))
        &&& (forall|r: int, c: int|
            0 <= r < self.results@.len() && 0 <= c < self.col_seeds@.len() ==> cell_ok(
                *self.graph,
                self.row_seeds@[r],
                self.col_seeds@[c],
                #[trigger] self.results@[r]@[c],
            ))
        &&& (forall|r: int, c: int|
            0 <= r < self.row_seeds@.len() && 0 <= c < self.col_seeds@.len() ==> #[trigger] pair_fits(
                *self.graph,
                self.row_seeds@[r],
                self.col_seeds@[c],
            ))
        &&& (forall|r: int, c: int|
            0 <= r < self.results@.len() && 0 <= c < self.col_seeds@.len() ==> cell_view(
                #[trigger] self.results@[r]@[c],
            ) == best_pair(
                *self.graph,
                self.source_buckets@[r as usize]@,
                self.target_buckets@,
                c,
            ))
        &&& (forall|r: int, k: int|
            0 <= r < self.row_seeds@.len() && 0 <= k < self.row_seeds@[r].len() ==> covers(
                self.source_buckets@[r as usize]@,
                (#[trigger] self.row_seeds@[r][k]).node,
            ))
        &&& (forall|c: int, k: int|
            0 <= c < self.col_seeds@.len() && 0 <= k < self.col_seeds@[c].len() ==> covers_col(
                self.target_buckets@,
                c,
                (#[trigger] self.col_seeds@[c][k]).node,
            ))
    }

    /// Builds an engine over `graph` with the given initial source rows and
    /// target columns, numbered by their positions.
    pub fn new(
        graph: &'a Graph,
        source_queries: Vec<(usize, Vec<Query>)>,
        target_queries: Vec<(usize, Vec<Query>)>,
    ) -> (r: ManyToMany<'a>)
        requires
            graph.wf(),
            forall|k: int|
                0 <= k < source_queries@.len() ==> (#[trigger] source_queries@[k]).0 as int == k,
            forall|k: int|
                0 <= k < target_queries@.len() ==> (#[trigger] target_queries@[k]).0 as int == k,
        ensures
            r.wf(),
            r.graph_spec() == *graph,
            r.row_count() == 0,
            r.computed_target_count() == 0,
            r.target_total() == target_queries@.len(),
            r.pending_source_seeds() == (source_queries@.map_values(
                |p: (usize, Vec<Query>)| p.1@,
            )),
            r.pending_target_seeds() == (target_queries@.map_values(
                |p: (usize, Vec<Query>)| p.1@,
            )),
            r.all_source_seeds() == r.pending_source_seeds(),
            r.all_target_seeds() == r.pending_target_seeds(),
            r.matrix().len() == 0,
    {
        let num_targets = target_queries.len();
        let r = ManyToMany {
            graph,
            num_targets,
            source_queries,
            target_queries,
            source_buckets: HashMap::new(),
            target_buckets: Vec::new(),
            results: Vec::new(),
            row_seeds: Ghost(Seq::empty()),
            col_seeds: Ghost(Seq::empty()),
        };
        proof {
            assert(r.all_source_seeds() =~= r.pending_source_seeds());
            assert(r.all_target_seeds() =~= r.pending_target_seeds());
        }
        r
    }

    /// Queues one more source row.  Its row number must be the next unused
    /// one.
    pub fn add_source(&mut self, source: (usize, Vec<Query>))
        requires
            old(self).wf(),
            source.0 as int == old(self).row_count() + old(self).pending_source_seeds().len(),
        ensures
            final(self).wf(),
            final(self).graph_spec() == old(self).graph_spec(),
            final(self).row_count() == old(self).row_count(),
            final(self).computed_target_count() == old(self).computed_target_count(),
            final(self).target_total() == old(self).target_total(),
            final(self).pending_source_seeds() == old(self).pending_source_seeds().push(
                source.1@,
            ),
            final(self).pending_target_seeds() == old(self).pending_target_seeds(),
            final(self).all_source_seeds() == old(self).all_source_seeds().push(source.1@),
            final(self).all_target_seeds() == old(self).all_target_seeds(),
            final(self).matrix() == old(self).matrix(),
    {
        self.source_queries.push(source);
        proof {
            assert(final(self).pending_source_seeds() =~= old(self).pending_source_seeds().push(
                source.1@,
            ));
            assert(final(self).all_source_seeds() =~= old(self).all_source_seeds().push(
                source.1@,
            ));
        }
    }

    /// Runs one backward search per pending target, sorts the new buckets,
    /// extends every existing row by the new columns and joins it against
    /// the new buckets only — old cells already reflect the old targets —
    /// then merges the new buckets into the sorted cache.
    fn compute_new_targets(&mut self)
        requires
            old(self).wf(),
            forall|k: int|
                0 <= k < old(self).pending_target_seeds().len() ==> seeds_ok(
                    old(self).graph_spec(),
                    Direction::Backward,
                    #[trigger] old(self).pending_target_seeds()[k],
                ),
            forall|r: int, k: int|
                0 <= r < old(self).row_count() && 0 <= k < old(self).pending_target_seeds().len()
                    ==> #[trigger] pair_fits(
                    old(self).graph_spec(),
                    old(self).row_seed(r),
                    old(self).pending_target_seeds()[k],
                ),
        ensures
            final(self).wf(),
            final(self).graph_spec() == old(self).graph_spec(),
            final(self).row_count() == old(self).row_count(),
            final(self).computed_target_count() == old(self).target_total(),
            final(self).target_total() == old(self).target_total(),
            final(self).pending_source_seeds() == old(self).pending_source_seeds(),
            final(self).pending_target_seeds().len() == 0,
            final(self).all_source_seeds() == old(self).all_source_seeds(),
            final(self).all_target_seeds() == old(self).all_target_seeds(),
            forall|r: int|
                0 <= r < old(self).row_count() ==> final(self).row_seed(r) == old(self).row_seed(
                    r,
                ),
            forall|r: int, c: int|
                0 <= r < old(self).row_count() && 0 <= c < old(self).computed_target_count()
                    ==> final(self).matrix()[r][c] == old(self).matrix()[r][c],
    {
        let ghost g = *old(self).graph;
        let ghost old_cols = old(self).col_seeds@;
        let ghost pend = old(self).pending_target_seeds();
        let ghost new_cols = old_cols + pend;

        let num_new = self.target_queries.len();
        let mut new_target_buckets: Vec<Bucket> = Vec::new();
        for k in 0..num_new
            invariant
                *self == *old(self),
                old(self).wf(),
                g == *old(self).graph,
                old_cols == old(self).col_seeds@,
                pend == old(self).pending_target_seeds(),
                new_cols == old_cols + pend,
                num_new == old(self).target_queries@.len(),
                forall|kk: int|
                    0 <= kk < pend.len() ==> seeds_ok(g, Direction::Backward, #[trigger] pend[kk]),
                target_buckets_sound(g, new_cols, new_target_buckets@),
                forall|kk: int|
                    0 <= kk < new_target_buckets@.len() ==> (#[trigger] new_target_buckets@[kk]).column_index
                        >= old_cols.len(),
                forall|k2: int, kk: int|
                    0 <= k2 < k && 0 <= kk < pend[k2].len() ==> covers_col(
                        new_target_buckets@,
                        old_cols.len() + k2,
                        (#[trigger] pend[k2][kk]).node,
                    ),
        {
            let pair = &self.target_queries[k];
            let ghost col = pair.0;
            let queries = copy_queries(&pair.1);
            proof {
                assert(queries@ == pend[k as int]);
                assert(col as int == old_cols.len() + k);
            }
            let search = Search::new(self.graph, Direction::Backward, queries, pair.0);
            let buckets = search.perform();
            let ghost buckets_seq = buckets@;
            let ghost ntb_snap = new_target_buckets@;
            let n_buckets = buckets.len();
            for j in 0..n_buckets
                invariant
                    *self == *old(self),
                    old(self).wf(),
                    g == *old(self).graph,
                    old_cols == old(self).col_seeds@,
                    pend == old(self).pending_target_seeds(),
                    new_cols == old_cols + pend,
                    0 <= k < pend.len(),
                    col as int == old_cols.len() + k,
                    n_buckets == buckets@.len(),
                    buckets@ == buckets_seq,
                    forall|jj: int|
                        0 <= jj < buckets_seq.len() ==> {
                            let b = #[trigger] buckets_seq[jj];
                            &&& b.column_index == col
                            &&& b.middle_node < g.node_count()
                            &&& reachable(
                                g,
                                Direction::Backward,
                                pend[k as int],
                                b.middle_node,
                                b.weight as int,
                                b.duration as int,
                            )
                        },
                    target_buckets_sound(g, new_cols, new_target_buckets@),
                    forall|kk: int|
                        0 <= kk < new_target_buckets@.len() ==> (#[trigger] new_target_buckets@[kk]).column_index
                            >= old_cols.len(),
                    new_target_buckets@ == ntb_snap + buckets_seq.subrange(0, j as int),
                    forall|k2: int, kk: int|
                        0 <= k2 < k && 0 <= kk < pend[k2].len() ==> covers_col(
                            ntb_snap,
                            old_cols.len() + k2,
                            (#[trigger] pend[k2][kk]).node,
                        ),
                    forall|kk: int|
                        0 <= kk < pend[k as int].len() ==> covers(
                            buckets_seq,
                            (#[trigger] pend[k as int][kk]).node,
                        ),
            {
                let bucket = buckets[j];
                proof {
                    assert(new_cols[col as int] == pend[k as int]);
                    assert(new_target_buckets@.push(bucket) =~= ntb_snap + buckets_seq.subrange(
                        0,
                        j as int + 1,
                    ));
                }
                new_target_buckets.push(bucket);
            }
            proof {
                assert(buckets_seq.subrange(0, buckets_seq.len() as int) =~= buckets_seq);
                assert(new_target_buckets@ == ntb_snap + buckets_seq);
                assert forall|k2: int, kk: int|
                    0 <= k2 < k + 1 && 0 <= kk < pend[k2].len() implies covers_col(
                    new_target_buckets@,
                    old_cols.len() + k2,
                    (#[trigger] pend[k2][kk]).node,
                ) by {
                    if k2 < k {
                        lemma_covers_col_extend(
                            ntb_snap,
                            buckets_seq,
                            old_cols.len() + k2,
                            pend[k2][kk].node,
                        );
                    } else {
                        let node = pend[k as int][kk].node;
                        assert(covers(buckets_seq, node));
                        let j2 = choose|j2: int|
                            0 <= j2 < buckets_seq.len() && (#[trigger] buckets_seq[j2]).middle_node
                                == node;
                        assert(new_target_buckets@[ntb_snap.len() + j2] == buckets_seq[j2]);
                        assert(buckets_seq[j2].column_index as int == old_cols.len() + k2);
                    }
                }
            }
        }

        let ghost unsorted = new_target_buckets@;
        sort_buckets(&mut new_target_buckets);
        proof {
            lemma_target_sound_perm(g, new_cols, unsorted, new_target_buckets@);
            assert forall|kk: int| 0 <= kk < new_target_buckets@.len() implies (
            #[trigger] new_target_buckets@[kk]).column_index >= old_cols.len() by {
                assert(new_target_buckets@.contains(new_target_buckets@[kk]));
                assert(unsorted.to_multiset().count(new_target_buckets@[kk]) > 0);
                assert(unsorted.contains(new_target_buckets@[kk]));
                let jj = choose|jj: int|
                    0 <= jj < unsorted.len() && unsorted[jj] == new_target_buckets@[kk];
                assert(unsorted[jj].column_index >= old_cols.len());
            }
            assert forall|rr: int, c: int|
                0 <= rr < old(self).results@.len() && 0 <= c < new_cols.len() implies #[trigger] pair_fits(
                g,
                old(self).row_seeds@[rr],
                new_cols[c],
            ) by {
                if c < old_cols.len() {
                    assert(new_cols[c] == old_cols[c]);
                } else {
                    assert(new_cols[c] == pend[c - old_cols.len()]);
                    assert(pair_fits(g, old(self).row_seed(rr), pend[c - old_cols.len()]));
                }
            }
            assert forall|k2: int, kk: int|
                0 <= k2 < pend.len() && 0 <= kk < pend[k2].len() implies covers_col(
                new_target_buckets@,
                old_cols.len() + k2,
                (#[trigger] pend[k2][kk]).node,
            ) by {
                lemma_covers_col_multiset(
                    unsorted,
                    new_target_buckets@,
                    old_cols.len() + k2,
                    pend[k2][kk].node,
                );
            }
        }

        let ghost combo = old(self).target_buckets@ + new_target_buckets@;
        let rows = self.results.len();
        for r in 0..rows
            invariant
                old(self).wf(),
                combo == old(self).target_buckets@ + new_target_buckets@,
                g == *old(self).graph,
                self.graph == old(self).graph,
                old_cols == old(self).col_seeds@,
                pend == old(self).pending_target_seeds(),
                new_cols == old_cols + pend,
                num_new == pend.len(),
                self.num_targets == old(self).num_targets,
                self.source_queries@ == old(self).source_queries@,
                self.target_queries@ == old(self).target_queries@,
                self.source_buckets@ == old(self).source_buckets@,
                self.target_buckets@ == old(self).target_buckets@,
                self.row_seeds@ == old(self).row_seeds@,
                self.col_seeds@ == old(self).col_seeds@,
                rows == self.results@.len(),
                rows == old(self).results@.len(),
                sorted_by_middle(new_target_buckets@),
                target_buckets_sound(g, new_cols, new_target_buckets@),
                forall|kk: int|
                    0 <= kk < new_target_buckets@.len() ==> (#[trigger] new_target_buckets@[kk]).column_index
                        >= old_cols.len(),
                forall|rr: int, c: int|
                    0 <= rr < rows && 0 <= c < new_cols.len() ==> #[trigger] pair_fits(
                        g,
                        old(self).row_seeds@[rr],
                        new_cols[c],
                    ),
                forall|rr: int|
                    r <= rr < rows ==> #[trigger] self.results@[rr] == old(self).results@[rr],
                forall|rr: int|
                    0 <= rr < r ==> (#[trigger] self.results@[rr])@.len() == new_cols.len(),
                forall|rr: int, c: int|
                    0 <= rr < r && 0 <= c < new_cols.len() ==> cell_ok(
                        g,
                        old(self).row_seeds@[rr],
                        new_cols[c],
                        #[trigger] self.results@[rr]@[c],
                    ),
                forall|rr: int, c: int|
                    0 <= rr < r && 0 <= c < old_cols.len() ==> #[trigger] self.results@[rr]@[c]
                        == old(self).results@[rr]@[c],
                forall|k2: int, kk: int|
                    0 <= k2 < pend.len() && 0 <= kk < pend[k2].len() ==> covers_col(
                        new_target_buckets@,
                        old_cols.len() + k2,
                        (#[trigger] pend[k2][kk]).node,
                    ),
                forall|rr: int, c: int|
                    0 <= rr < r && 0 <= c < new_cols.len() ==> cell_view(
                        #[trigger] self.results@[rr]@[c],
                    ) == best_pair(g, self.source_buckets@[rr as usize]@, combo, c),
        {
            let mut row = copy_row(&self.results[r]);
            proof {
                assert(row@ == old(self).results@[r as int]@);
                assert(row@.len() == old_cols.len());
            }
            let ghost base = row@;
            for i2 in 0..num_new
                invariant
                    row@.len() == base.len() + i2,
                    row@.subrange(0, base.len() as int) == base,
                    forall|c: int| base.len() <= c < row@.len() ==> (#[trigger] row@[c]) is None,
            {
                row.push(None);
                proof {
                    assert(row@.subrange(0, base.len() as int) =~= base);
                }
            }
            let sb_opt = self.source_buckets.get(&r);
            proof {
                assert(old(self).source_buckets@.contains_key(r));
            }
            let sb = sb_opt.unwrap();
            let ghost sb_seq = sb@;
            let ghost init_row = row@;
            proof {
                assert(source_buckets_sound(g, old(self).row_seeds@[r as int], sb_seq));
                assert forall|i: int, j: int|
                    0 <= i < sb_seq.len() && 0 <= j < new_target_buckets@.len()
                        && sb_seq[i].middle_node == new_target_buckets@[j].middle_node implies cell_fits(
                    #[trigger] candidate(g, sb_seq[i], new_target_buckets@[j]),
                ) by {
                    let s = sb_seq[i];
                    let t = new_target_buckets@[j];
                    assert(pair_fits(g, old(self).row_seeds@[r as int], new_cols[t.column_index as int]));
                    assert(reachable(g, Direction::Forward, old(self).row_seeds@[r as int], s.middle_node, s.weight as int, s.duration as int));
                    assert(reachable(g, Direction::Backward, new_cols[t.column_index as int], t.middle_node, t.weight as int, t.duration as int));
                    assert(cell_fits(candidate_vals(
                        g,
                        s.middle_node,
                        s.weight as int,
                        s.duration as int,
                        t.weight as int,
                        t.duration as int,
                    )));
                }
            }
            join_buckets(self.graph, &mut row, &new_target_buckets, sb);
            let ghost joined = row@;
            self.results[r] = row;
            proof {
                assert(self.results@[r as int]@ == joined);
                assert forall|c: int| 0 <= c < new_cols.len() implies cell_view(
                    #[trigger] joined[c],
                ) == best_pair(g, sb_seq, combo, c) by {
                    lemma_best_pair_concat_targets(
                        g,
                        sb_seq,
                        old(self).target_buckets@,
                        new_target_buckets@,
                        c,
                    );
                    if c < old_cols.len() {
                        assert(init_row[c] == base[c]);
                        assert(cell_view(base[c]) == best_pair(
                            g,
                            sb_seq,
                            old(self).target_buckets@,
                            c,
                        ));
                    } else {
                        assert(init_row[c] is None);
                        assert forall|j2: int|
                            0 <= j2 < old(self).target_buckets@.len() implies (
                        #[trigger] old(self).target_buckets@[j2]).column_index != c by {
                            assert(old(self).target_buckets@[j2].column_index < old_cols.len());
                        }
                        lemma_best_pair_no_column(
                            g,
                            sb_seq,
                            old(self).target_buckets@,
                            c,
                            sb_seq.len() as int,
                        );
                    }
                }
                assert forall|c: int| 0 <= c < old_cols.len() implies #[trigger] joined[c]
                    == old(self).results@[r as int]@[c] by {
                    crate::join::lemma_best_pair_no_column(
                        g,
                        sb_seq,
                        new_target_buckets@,
                        c,
                        sb_seq.len() as int,
                    );
                    assert(cell_view(joined[c]) == cell_view(init_row[c]));
                    assert(init_row[c] == base[c]);
                }
                assert forall|c: int| 0 <= c < new_cols.len() implies cell_ok(
                    g,
                    old(self).row_seeds@[r as int],
                    new_cols[c],
                    #[trigger] self.results@[r as int]@[c],
                ) by {
                    let cell = joined[c];
                    let bp = best_pair(g, sb_seq, new_target_buckets@, c);
                    assert(cell_view(cell) == opt_min(cell_view(init_row[c]), bp));
                    if cell is Some && cell_view(cell) == cell_view(init_row[c]) {
                        // The previous value survives: it was a justified
                        // cell of the old row, at an unchanged column.
                        assert(c < old_cols.len());
                        assert(init_row[c] == base[c]);
                        assert(cell == base[c]);
                        assert(new_cols[c] == old_cols[c]);
                        assert(cell_ok(g, old(self).row_seeds@[r as int], old_cols[c], base[c]));
                    }
                    if cell is Some && cell_view(cell) != cell_view(init_row[c]) {
                        // The cell took the best new candidate, which an
                        // actual matching bucket pair accounts for.
                        assert(cell_view(cell) == bp && bp is Some);
                        lemma_best_pair_achieved(g, sb_seq, new_target_buckets@, c, sb_seq.len() as int);
                        let (i, j) = choose|i: int, j: int|
                            0 <= i < sb_seq.len() && 0 <= j < new_target_buckets@.len()
                                && sb_seq[i].middle_node == new_target_buckets@[j].middle_node
                                && new_target_buckets@[j].column_index == c
                                && #[trigger] candidate(g, sb_seq[i], new_target_buckets@[j]) == bp;
                        let s = sb_seq[i];
                        let t = new_target_buckets@[j];
                        let p = cell->Some_0;
                        assert(reachable(g, Direction::Forward, old(self).row_seeds@[r as int], s.middle_node, s.weight as int, s.duration as int));
                        assert(reachable(g, Direction::Backward, new_cols[c], t.middle_node, t.weight as int, t.duration as int));
                        assert(candidate_vals(
                            g,
                            s.middle_node,
                            s.weight as int,
                            s.duration as int,
                            t.weight as int,
                            t.duration as int,
                        ) == Some((p.0 as int, p.1 as int)));
                        assert(justified(
                            g,
                            old(self).row_seeds@[r as int],
                            new_cols[c],
                            (p.0 as int, p.1 as int),
                        ));
                        crate::join::lemma_candidate_nonneg(
                            g,
                            s.middle_node,
                            s.weight as int,
                            s.duration as int,
                            t.weight as int,
                            t.duration as int,
                        );
                    }
                }
            }
        }

        let ghost cached = self.target_buckets@;
        let merged = merge_buckets(&self.target_buckets, &new_target_buckets);
        proof {
            lemma_merge_props(cached, new_target_buckets@);
            assert(merged@.to_multiset() == combo.to_multiset());
            vstd::seq_lib::lemma_multiset_commutative(cached, new_target_buckets@);
            assert forall|rr: int, c: int|
                0 <= rr < self.results@.len() && 0 <= c < new_cols.len() implies cell_view(
                #[trigger] self.results@[rr]@[c],
            ) == best_pair(g, self.source_buckets@[rr as usize]@, merged@, c) by {
                lemma_best_pair_permutation(
                    g,
                    self.source_buckets@[rr as usize]@,
                    combo,
                    merged@,
                    c,
                );
            }
            assert forall|c: int, kk: int|
                0 <= c < new_cols.len() && 0 <= kk < new_cols[c].len() implies covers_col(
                merged@,
                c,
                (#[trigger] new_cols[c][kk]).node,
            ) by {
                if c < old_cols.len() {
                    assert(new_cols[c] == old_cols[c]);
                    assert(covers_col(cached, c, new_cols[c][kk].node));
                    lemma_covers_col_multiset(cached, merged@, c, new_cols[c][kk].node);
                } else {
                    assert(new_cols[c] == pend[c - old_cols.len()]);
                    assert(covers_col(
                        new_target_buckets@,
                        old_cols.len() + (c - old_cols.len()),
                        new_cols[c][kk].node,
                    ));
                    lemma_covers_col_multiset(
                        new_target_buckets@,
                        merged@,
                        c,
                        new_cols[c][kk].node,
                    );
                }
            }
            assert forall|kk: int| 0 <= kk < merged@.len() implies {
                let b = #[trigger] merged@[kk];
                &&& b.middle_node < g.node_count()
                &&& b.column_index < new_cols.len()
                &&& reachable(
                    g,
                    Direction::Backward,
                    new_cols[b.column_index as int],
                    b.middle_node,
                    b.weight as int,
                    b.duration as int,
                )
            } by {
                let b = merged@[kk];
                if cached.contains(b) {
                    let jj = choose|jj: int| 0 <= jj < cached.len() && cached[jj] == b;
                    assert(target_buckets_sound(g, old_cols, cached));
                    assert(b.column_index < old_cols.len());
                    assert(new_cols[b.column_index as int] == old_cols[b.column_index as int]);
                } else {
                    let jj = choose|jj: int|
                        0 <= jj < new_target_buckets@.len() && new_target_buckets@[jj] == b;
                }
            }
        }
        self.target_buckets = merged;
        self.target_queries = Vec::new();
        self.col_seeds = Ghost(new_cols);
        proof {
            assert(final(self).pending_target_seeds() =~= Seq::<Seq<Query>>::empty());
            assert(final(self).all_target_seeds() =~= new_cols);
            assert(old(self).all_target_seeds() =~= new_cols);
            assert(final(self).all_source_seeds() =~= old(self).all_source_seeds());
        }
    }

    /// Runs one forward search per pending source and joins its buckets
    /// against the full cached target bucket list into a fresh row.
    fn compute_new_sources(&mut self)
        requires
            old(self).wf(),
            old(self).pending_target_seeds().len() == 0,
            forall|k: int|
                0 <= k < old(self).pending_source_seeds().len() ==> seeds_ok(
                    old(self).graph_spec(),
                    Direction::Forward,
                    #[trigger] old(self).pending_source_seeds()[k],
                ),
            forall|k: int, c: int|
                0 <= k < old(self).pending_source_seeds().len() && 0 <= c < old(
                    self,
                ).computed_target_count() ==> #[trigger] pair_fits(
                    old(self).graph_spec(),
                    old(self).pending_source_seeds()[k],
                    old(self).col_seeds@[c],
                ),
        ensures
            final(self).wf(),
            final(self).graph_spec() == old(self).graph_spec(),
            final(self).row_count() == old(self).row_count() + old(
                self,
            ).pending_source_seeds().len(),
            final(self).computed_target_count() == old(self).computed_target_count(),
            final(self).target_total() == old(self).target_total(),
            final(self).pending_source_seeds().len() == 0,
            final(self).pending_target_seeds().len() == 0,
            final(self).all_source_seeds() == old(self).all_source_seeds(),
            final(self).all_target_seeds() == old(self).all_target_seeds(),
            forall|c: int|
                0 <= c < old(self).computed_target_count() ==> final(self).col_seed(c) == old(
                    self,
                ).col_seed(c),
            forall|r: int|
                0 <= r < old(self).row_count() ==> final(self).matrix()[r] == old(self).matrix()[
                    r
                ],
    {
        let ghost g = *old(self).graph;
        let ghost pend = old(self).pending_source_seeds();
        let ghost old_len = old(self).results@.len() as int;
        let n_pending = self.source_queries.len();
        for k in 0..n_pending
            invariant
                old(self).wf(),
                g == *old(self).graph,
                self.graph == old(self).graph,
                pend == old(self).pending_source_seeds(),
                n_pending == pend.len(),
                old_len == old(self).results@.len() as int,
                self.num_targets == old(self).num_targets,
                self.source_queries@ == old(self).source_queries@,
                self.target_queries@ == old(self).target_queries@,
                self.target_buckets@ == old(self).target_buckets@,
                self.col_seeds@ == old(self).col_seeds@,
                self.num_targets as int == self.col_seeds@.len(),
                forall|kk: int|
                    0 <= kk < pend.len() ==> seeds_ok(g, Direction::Forward, #[trigger] pend[kk]),
                forall|kk: int, c: int|
                    0 <= kk < pend.len() && 0 <= c < self.col_seeds@.len() ==> #[trigger] pair_fits(
                        g,
                        pend[kk],
                        self.col_seeds@[c],
                    ),
                self.results@.len() == old_len + k,
                self.row_seeds@ == old(self).row_seeds@ + pend.subrange(0, k as int),
                forall|rr: int|
                    0 <= rr < old_len ==> #[trigger] self.results@[rr] == old(self).results@[rr],
                forall|r: usize|
                    (r as int) < self.results@.len() ==> #[trigger] self.source_buckets@.contains_key(
                        r,
                    ),
                forall|r: usize|
                    (r as int) < self.row_seeds@.len() ==> source_buckets_sound(
                        g,
                        self.row_seeds@[r as int],
                        (#[trigger] self.source_buckets@[r])@,
                    ),
                forall|rr: int|
                    0 <= rr < self.results@.len() ==> (#[trigger] self.results@[rr])@.len()
                        == self.col_seeds@.len(),
                forall|rr: int, c: int|
                    0 <= rr < self.results@.len() && 0 <= c < self.col_seeds@.len() ==> cell_ok(
                        g,
                        self.row_seeds@[rr],
                        self.col_seeds@[c],
                        #[trigger] self.results@[rr]@[c],
                    ),
                forall|rr: int, c: int|
                    0 <= rr < self.row_seeds@.len() && 0 <= c < self.col_seeds@.len()
                        ==> #[trigger] pair_fits(g, self.row_seeds@[rr], self.col_seeds@[c]),
                forall|rr: int, c: int|
                    0 <= rr < self.results@.len() && 0 <= c < self.col_seeds@.len() ==> cell_view(
                        #[trigger] self.results@[rr]@[c],
                    ) == best_pair(g, self.source_buckets@[rr as usize]@, self.target_buckets@, c),
                forall|rr: int, kk2: int|
                    0 <= rr < self.row_seeds@.len() && 0 <= kk2 < self.row_seeds@[rr].len()
                        ==> covers(
                        self.source_buckets@[rr as usize]@,
                        (#[trigger] self.row_seeds@[rr][kk2]).node,
                    ),
                forall|c: int, kk2: int|
                    0 <= c < self.col_seeds@.len() && 0 <= kk2 < self.col_seeds@[c].len()
                        ==> covers_col(
                        self.target_buckets@,
                        c,
                        (#[trigger] self.col_seeds@[c][kk2]).node,
                    ),
        {
            let pair = &self.source_queries[k];
            let idx = pair.0;
            let queries = copy_queries(&pair.1);
            proof {
                assert(queries@ == pend[k as int]);
                assert(idx as int == old_len + k);
            }
            let search = Search::new(self.graph, Direction::Forward, queries, idx);
            let buckets = search.perform();
            let ghost sb_seq = buckets@;
            let mut row = empty_row(self.num_targets);
            let ghost init_row = row@;
            proof {
                assert forall|i: int, j: int|
                    0 <= i < sb_seq.len() && 0 <= j < self.target_buckets@.len()
                        && sb_seq[i].middle_node == self.target_buckets@[j].middle_node implies cell_fits(
                    #[trigger] candidate(g, sb_seq[i], self.target_buckets@[j]),
                ) by {
                    let s = sb_seq[i];
                    let t = self.target_buckets@[j];
                    assert(pair_fits(g, pend[k as int], self.col_seeds@[t.column_index as int]));
                    assert(reachable(
                        g,
                        Direction::Forward,
                        pend[k as int],
                        s.middle_node,
                        s.weight as int,
                        s.duration as int,
                    ));
                    assert(reachable(
                        g,
                        Direction::Backward,
                        self.col_seeds@[t.column_index as int],
                        t.middle_node,
                        t.weight as int,
                        t.duration as int,
                    ));
                    assert(cell_fits(candidate_vals(
                        g,
                        s.middle_node,
                        s.weight as int,
                        s.duration as int,
                        t.weight as int,
                        t.duration as int,
                    )));
                }
            }
            join_buckets(self.graph, &mut row, &self.target_buckets, &buckets);
            let ghost joined = row@;
            proof {
                assert forall|c: int| 0 <= c < self.col_seeds@.len() implies cell_view(
                    #[trigger] joined[c],
                ) == best_pair(g, sb_seq, self.target_buckets@, c) by {
                    assert(init_row[c] is None);
                    assert(cell_view(joined[c]) == opt_min(
                        cell_view(init_row[c]),
                        best_pair(g, sb_seq, self.target_buckets@, c),
                    ));
                }
                assert forall|c: int| 0 <= c < self.col_seeds@.len() implies cell_ok(
                    g,
                    pend[k as int],
                    self.col_seeds@[c],
                    #[trigger] joined[c],
                ) by {
                    let cell = joined[c];
                    let bp = best_pair(g, sb_seq, self.target_buckets@, c);
                    assert(cell_view(cell) == opt_min(cell_view(init_row[c]), bp));
                    assert(init_row[c] is None);
                    if cell is Some {
                        assert(cell_view(cell) == bp && bp is Some);
                        lemma_best_pair_achieved(
                            g,
                            sb_seq,
                            self.target_buckets@,
                            c,
                            sb_seq.len() as int,
                        );
                        let (i, j) = choose|i: int, j: int|
                            0 <= i < sb_seq.len() && 0 <= j < self.target_buckets@.len()
                                && sb_seq[i].middle_node == self.target_buckets@[j].middle_node
                                && self.target_buckets@[j].column_index == c
                                && #[trigger] candidate(g, sb_seq[i], self.target_buckets@[j])
                                == bp;
                        let s = sb_seq[i];
                        let t = self.target_buckets@[j];
                        let p = cell->Some_0;
                        assert(reachable(
                            g,
                            Direction::Forward,
                            pend[k as int],
                            s.middle_node,
                            s.weight as int,
                            s.duration as int,
                        ));
                        assert(reachable(
                            g,
                            Direction::Backward,
                            self.col_seeds@[c],
                            t.middle_node,
                            t.weight as int,
                            t.duration as int,
                        ));
                        assert(candidate_vals(
                            g,
                            s.middle_node,
                            s.weight as int,
                            s.duration as int,
                            t.weight as int,
                            t.duration as int,
                        ) == Some((p.0 as int, p.1 as int)));
                        assert(justified(g, pend[k as int], self.col_seeds@[c], (p.0 as int, p.1 as int)));
                        crate::join::lemma_candidate_nonneg(
                            g,
                            s.middle_node,
                            s.weight as int,
                            s.duration as int,
                            t.weight as int,
                            t.duration as int,
                        );
                    }
                }
            }
            self.results.push(row);
            self.source_buckets.insert(idx, buckets);
            self.row_seeds = Ghost(self.row_seeds@.push(pend[k as int]));
            proof {
                assert(self.row_seeds@ =~= old(self).row_seeds@ + pend.subrange(0, k as int + 1));
                assert(self.row_seeds@[old_len + k] == pend[k as int]);
                assert(self.results@[old_len + k]@ == joined);
                assert(self.source_buckets@[(old_len + k) as usize]@ == sb_seq);
                assert forall|kk2: int| 0 <= kk2 < pend[k as int].len() implies covers(
                    sb_seq,
                    (#[trigger] pend[k as int][kk2]).node,
                ) by {}
            }
        }
        self.source_queries = Vec::new();
        proof {
            assert(self.row_seeds@ =~= old(self).row_seeds@ + pend);
            assert(final(self).pending_source_seeds() =~= Seq::<Seq<Query>>::empty());
            assert(final(self).all_source_seeds() =~= old(self).all_source_seeds());
            assert(final(self).all_target_seeds() =~= old(self).all_target_seeds());
        }
    }

    /// Drains the pending targets, then the pending sources, updating the
    /// matrix incrementally, and hands out the matrix: one row per source
    /// in insertion order, one cell per target in insertion order.  Every
    /// cell is `None` or a justified, non-negative cost pair.
    #[verifier::rlimit(60)]
    pub fn compute(&mut self) -> (r: &Vec<Vec<Option<(Weight, Weight)>>>)
        requires
            old(self).wf(),
            forall|k: int|
                0 <= k < old(self).pending_source_seeds().len() ==> seeds_ok(
                    old(self).graph_spec(),
                    Direction::Forward,
                    #[trigger] old(self).pending_source_seeds()[k],
                ),
            forall|k: int|
                0 <= k < old(self).pending_target_seeds().len() ==> seeds_ok(
                    old(self).graph_spec(),
                    Direction::Backward,
                    #[trigger] old(self).pending_target_seeds()[k],
                ),
            forall|si: int, ti: int|
                0 <= si < old(self).all_source_seeds().len() && 0 <= ti < old(
                    self,
                ).all_target_seeds().len() ==> #[trigger] pair_fits(
                    old(self).graph_spec(),
                    old(self).all_source_seeds()[si],
                    old(self).all_target_seeds()[ti],
                ),
        ensures
            final(self).wf(),
            final(self).graph_spec() == old(self).graph_spec(),
            final(self).row_count() == old(self).all_source_seeds().len(),
            final(self).computed_target_count() == old(self).target_total(),
            final(self).target_total() == old(self).target_total(),
            final(self).pending_source_seeds().len() == 0,
            final(self).pending_target_seeds().len() == 0,
            final(self).all_source_seeds() == old(self).all_source_seeds(),
            final(self).all_target_seeds() == old(self).all_target_seeds(),
            (r@.map_values(|row: Vec<Option<(Weight, Weight)>>| row@)) == final(self).matrix(),
            final(self).matrix().len() == final(self).row_count(),
            forall|rr: int|
                0 <= rr < final(self).row_count() ==> (#[trigger] final(self).matrix()[rr]).len()
                    == final(self).computed_target_count(),
            forall|rr: int, c: int|
                0 <= rr < final(self).row_count() && 0 <= c < final(self).computed_target_count()
                    ==> cell_ok(
                    final(self).graph_spec(),
                    final(self).row_seed(rr),
                    final(self).col_seed(c),
                    #[trigger] final(self).matrix()[rr][c],
                ),
            forall|rr: int, c: int|
                0 <= rr < old(self).row_count() && 0 <= c < old(self).computed_target_count()
                    ==> final(self).matrix()[rr][c] == old(self).matrix()[rr][c],
            forall|rr: int|
                0 <= rr < final(self).row_count() ==> final(self).row_seed(rr) == old(
                    self,
                ).all_source_seeds()[rr],
            forall|c: int|
                0 <= c < final(self).computed_target_count() ==> final(self).col_seed(c) == old(
                    self,
                ).all_target_seeds()[c],
            sorted_by_middle(final(self).target_bucket_cache()),
            target_buckets_sound(
                final(self).graph_spec(),
                old(self).all_target_seeds(),
                final(self).target_bucket_cache(),
            ),
            forall|rr: int|
                0 <= rr < final(self).row_count() ==> source_buckets_sound(
                    final(self).graph_spec(),
                    final(self).row_seed(rr),
                    #[trigger] final(self).row_buckets(rr),
                ),
            forall|rr: int, k: int|
                0 <= rr < final(self).row_count() && 0 <= k < final(self).row_seed(rr).len()
                    ==> covers(
                    final(self).row_buckets(rr),
                    (#[trigger] final(self).row_seed(rr)[k]).node,
                ),
            forall|c: int, k: int|
                0 <= c < final(self).computed_target_count() && 0 <= k < final(self).col_seed(
                    c,
                ).len() ==> covers_col(
                    final(self).target_bucket_cache(),
                    c,
                    (#[trigger] final(self).col_seed(c)[k]).node,
                ),
            forall|rr: int, c: int|
                0 <= rr < final(self).row_count() && 0 <= c < final(self).computed_target_count()
                    ==> cell_view(#[trigger] final(self).matrix()[rr][c]) == best_pair(
                    final(self).graph_spec(),
                    final(self).row_buckets(rr),
                    final(self).target_bucket_cache(),
                    c,
                ),
    {
        let ghost start = *old(self);
        if self.target_queries.len() > 0 {
            proof {
                assert forall|rr: int, kk: int|
                    0 <= rr < start.row_count() && 0 <= kk < start.pending_target_seeds().len()
                        implies #[trigger] pair_fits(
                    start.graph_spec(),
                    start.row_seed(rr),
                    start.pending_target_seeds()[kk],
                ) by {
                    assert(start.all_source_seeds()[rr] == start.row_seed(rr));
                    assert(start.all_target_seeds()[start.computed_target_count() + kk]
                        == start.pending_target_seeds()[kk]);
                    assert(pair_fits(
                        start.graph_spec(),
                        start.all_source_seeds()[rr],
                        start.all_target_seeds()[start.computed_target_count() + kk],
                    ));
                }
            }
            self.compute_new_targets();
        }
        proof {
            assert(self.pending_target_seeds().len() == 0);
            assert(self.all_target_seeds() =~= self.col_seeds@);
            assert forall|c: int| 0 <= c < self.computed_target_count() implies self.col_seed(c)
                == start.all_target_seeds()[c] by {}
        }
        if self.source_queries.len() > 0 {
            proof {
                assert forall|kk: int, c: int|
                    0 <= kk < self.pending_source_seeds().len() && 0 <= c
                        < self.computed_target_count() implies #[trigger] pair_fits(
                    self.graph_spec(),
                    self.pending_source_seeds()[kk],
                    self.col_seed(c),
                ) by {
                    assert(self.pending_source_seeds()[kk] == start.pending_source_seeds()[kk]);
                    assert(start.all_source_seeds()[start.row_count() + kk]
                        == start.pending_source_seeds()[kk]);
                    assert(pair_fits(
                        start.graph_spec(),
                        start.all_source_seeds()[start.row_count() + kk],
                        start.all_target_seeds()[c],
                    ));
                }
            }
            self.compute_new_sources();
        }
        proof {
            assert(final(self).all_source_seeds() =~= final(self).row_seeds@);
            assert(final(self).matrix().len() == final(self).row_count());
            assert(target_buckets_sound(
                *self.graph,
                start.all_target_seeds(),
                self.target_buckets@,
            )) by {
                assert(start.all_target_seeds() =~= self.col_seeds@);
            }
        }
        let row_total = self.results.len();
        proof {
            assert forall|rr: int| 0 <= rr < self.results@.len() implies source_buckets_sound(
                *self.graph,
                self.row_seeds@[rr],
                #[trigger] self.row_buckets(rr),
            ) by {
                assert(rr < row_total as int);
                let ru = rr as usize;
                assert(ru as int == rr);
                assert(source_buckets_sound(
                    *self.graph,
                    self.row_seeds@[ru as int],
                    self.source_buckets@[ru]@,
                ));
            }
        }
        &self.results
    }

    /// A read-only borrow of the current result matrix.
    pub fn results(&self) -> (r: &Vec<Vec<Option<(Weight, Weight)>>>)
        ensures
            (r@.map_values(|row: Vec<Option<(Weight, Weight)>>| row@)) == self.matrix(),
    {
        &self.results
    }

    /// Queues one more target column.  Its column number must be the next
    /// unused one.
    pub fn add_target(&mut self, target: (usize, Vec<Query>))
        requires
            old(self).wf(),
            target.0 as int == old(self).target_total(),
            old(self).target_total() < usize::MAX,
        ensures
            final(self).wf(),
            final(self).graph_spec() == old(self).graph_spec(),
            final(self).row_count() == old(self).row_count(),
            final(self).computed_target_count() == old(self).computed_target_count(),
            final(self).target_total() == old(self).target_total() + 1,
            final(self).pending_source_seeds() == old(self).pending_source_seeds(),
            final(self).pending_target_seeds() == old(self).pending_target_seeds().push(
                target.1@,
            ),
            final(self).all_source_seeds() == old(self).all_source_seeds(),
            final(self).all_target_seeds() == old(self).all_target_seeds().push(target.1@),
            final(self).matrix() == old(self).matrix(),
    {
        self.target_queries.push(target);
        self.num_targets = self.num_targets + 1;
        proof {
            assert(final(self).pending_target_seeds() =~= old(self).pending_target_seeds().push(
                target.1@,
            ));
            assert(final(self).all_target_seeds() =~= old(self).all_target_seeds().push(
                target.1@,
            ));
        }
    }
}

/// A whole many-to-many table in one call: every source row against every
/// target column, with no incremental caching.  Row `r`, column `c` of the
/// result is `None` or a justified, non-negative cost pair for source
/// seed set `r` and target seed set `c`.
pub fn many_to_many(
    graph: &Graph,
    source_queries: Vec<Vec<Query>>,
    target_queries: Vec<Vec<Query>>,
) -> (r: Vec<Vec<Option<(Weight, Weight)>>>)
    requires
        graph.wf(),
        forall|k: int|
            0 <= k < source_queries@.len() ==> seeds_ok(
                *graph,
                Direction::Forward,
                (#[trigger] source_queries@[k])@,
            ),
        forall|k: int|
            0 <= k < target_queries@.len() ==> seeds_ok(
                *graph,
                Direction::Backward,
                (#[trigger] target_queries@[k])@,
            ),
        forall|si: int, ti: int|
            0 <= si < source_queries@.len() && 0 <= ti < target_queries@.len()
                ==> #[trigger] pair_fits(*graph, source_queries@[si]@, target_queries@[ti]@),
    ensures
        r@.len() == source_queries@.len(),
        forall|rr: int| 0 <= rr < r@.len() ==> (#[trigger] r@[rr])@.len() == target_queries@.len(),
        forall|rr: int, c: int|
            0 <= rr < r@.len() && 0 <= c < target_queries@.len() ==> cell_ok(
                *graph,
                source_queries@[rr]@,
                target_queries@[c]@,
                #[trigger] r@[rr]@[c],
            ),
        exists|sbs: Seq<Seq<Bucket>>, tbs: Seq<Bucket>|
            #![trigger sbs.len(), tbs.len()]
            matrix_joined(
                *graph,
                (source_queries@.map_values(|sq: Vec<Query>| sq@)),
                (target_queries@.map_values(|tq: Vec<Query>| tq@)),
                (r@.map_values(|row: Vec<Option<(Weight, Weight)>>| row@)),
                sbs,
                tbs,
            ),
{
    let mut sources: Vec<(usize, Vec<Query>)> = Vec::new();
    for k in 0..source_queries.len()
        invariant
            sources@.len() == k,
            forall|kk: int|
                0 <= kk < k ==> (#[trigger] sources@[kk]).0 == kk && sources@[kk].1@
                    == source_queries@[kk]@,
    {
        sources.push((k, copy_queries(&source_queries[k])));
    }
    let mut targets: Vec<(usize, Vec<Query>)> = Vec::new();
    for k in 0..target_queries.len()
        invariant
            targets@.len() == k,
            forall|kk: int|
                0 <= kk < k ==> (#[trigger] targets@[kk]).0 == kk && targets@[kk].1@
                    == target_queries@[kk]@,
    {
        targets.push((k, copy_queries(&target_queries[k])));
    }
    let ghost n_sources = source_queries@.len() as int;
    let ghost n_targets = target_queries@.len() as int;
    let mut engine = ManyToMany::new(graph, sources, targets);
    proof {
        assert forall|k: int| 0 <= k < engine.pending_source_seeds().len() implies seeds_ok(
            engine.graph_spec(),
            Direction::Forward,
            #[trigger] engine.pending_source_seeds()[k],
        ) by {
            assert(engine.pending_source_seeds()[k] == source_queries@[k]@);
        }
        assert forall|k: int| 0 <= k < engine.pending_target_seeds().len() implies seeds_ok(
            engine.graph_spec(),
            Direction::Backward,
            #[trigger] engine.pending_target_seeds()[k],
        ) by {
            assert(engine.pending_target_seeds()[k] == target_queries@[k]@);
        }
        assert forall|si: int, ti: int|
            0 <= si < engine.all_source_seeds().len() && 0 <= ti
                < engine.all_target_seeds().len() implies #[trigger] pair_fits(
            engine.graph_spec(),
            engine.all_source_seeds()[si],
            engine.all_target_seeds()[ti],
        ) by {
            assert(engine.all_source_seeds()[si] == source_queries@[si]@);
            assert(engine.all_target_seeds()[ti] == target_queries@[ti]@);
            assert(pair_fits(*graph, source_queries@[si]@, target_queries@[ti]@));
        }
    }
    let ghost pre = engine;
    engine.compute();
    let ghost eng = engine;
    proof {
        assert(eng.row_count() == n_sources);
        assert(eng.computed_target_count() == n_targets);
        assert forall|rr: int| 0 <= rr < n_sources implies eng.row_seed(rr)
            == source_queries@[rr]@ by {
            assert(eng.all_source_seeds() == pre.all_source_seeds());
            assert(eng.all_source_seeds()[rr] == eng.row_seed(rr));
        }
        assert forall|c: int| 0 <= c < n_targets implies eng.col_seed(c)
            == target_queries@[c]@ by {
            assert(eng.all_target_seeds() == pre.all_target_seeds());
            assert(eng.all_target_seeds()[c] == eng.col_seed(c));
        }
    }
    let matrix = engine.results();
    proof {
        assert((matrix@.map_values(|row: Vec<Option<(Weight, Weight)>>| row@)) == eng.matrix());
    }
    let rows = matrix.len();
    let mut out: Vec<Vec<Option<(Weight, Weight)>>> = Vec::new();
    for k in 0..rows
        invariant
            rows == matrix@.len(),
            (matrix@.map_values(|row: Vec<Option<(Weight, Weight)>>| row@)) == eng.matrix(),
            eng.wf(),
            eng.graph_spec() == *graph,
            eng.row_count() == n_sources,
            eng.computed_target_count() == n_targets,
            rows == n_sources,
            n_sources == source_queries@.len(),
            n_targets == target_queries@.len(),
            forall|rr: int|
                0 <= rr < n_sources ==> #[trigger] eng.row_seed(rr) == source_queries@[rr]@,
            forall|c: int|
                0 <= c < n_targets ==> #[trigger] eng.col_seed(c) == target_queries@[c]@,
            out@.len() == k,
            forall|rr: int| 0 <= rr < k ==> (#[trigger] out@[rr])@ == matrix@[rr]@,
    {
        out.push(copy_row(&matrix[k]));
    }
    proof {
        assert forall|rr: int, c: int|
            0 <= rr < out@.len() && 0 <= c < n_targets implies cell_ok(
            *graph,
            source_queries@[rr]@,
            target_queries@[c]@,
            #[trigger] out@[rr]@[c],
        ) by {
            assert(eng.matrix()[rr] == matrix@[rr]@);
            assert(out@[rr]@[c] == eng.matrix()[rr][c]);
            assert(cell_ok(
                eng.graph_spec(),
                eng.row_seed(rr),
                eng.col_seed(c),
                eng.matrix()[rr][c],
            ));
        }
        assert forall|rr: int| 0 <= rr < out@.len() implies (#[trigger] out@[rr])@.len()
            == target_queries@.len() by {
            assert(out@[rr]@ == matrix@[rr]@);
            assert(eng.matrix()[rr] == matrix@[rr]@);
            assert(eng.matrix()[rr].len() == eng.computed_target_count());
        }
        let srcs = source_queries@.map_values(|sq: Vec<Query>| sq@);
        let tgts = target_queries@.map_values(|tq: Vec<Query>| tq@);
        let outm = out@.map_values(|row: Vec<Option<(Weight, Weight)>>| row@);
        let sbs = Seq::new(n_sources as nat, |rr: int| eng.row_buckets(rr));
        let tbs = eng.target_bucket_cache();
        assert(matrix_joined(*graph, srcs, tgts, outm, sbs, tbs)) by {
            assert(pre.all_target_seeds() =~= tgts);
            assert forall|rr: int| 0 <= rr < srcs.len() implies source_buckets_sound(
                *graph,
                srcs[rr],
                #[trigger] sbs[rr],
            ) by {
                assert(sbs[rr] == eng.row_buckets(rr));
                assert(srcs[rr] == eng.row_seed(rr));
            }
            assert forall|rr: int, k: int|
                0 <= rr < srcs.len() && 0 <= k < srcs[rr].len() implies covers(
                sbs[rr],
                (#[trigger] srcs[rr][k]).node,
            ) by {
                assert(srcs[rr] == eng.row_seed(rr));
                assert(covers(eng.row_buckets(rr), eng.row_seed(rr)[k].node));
            }
            assert forall|c: int, k: int|
                0 <= c < tgts.len() && 0 <= k < tgts[c].len() implies covers_col(
                tbs,
                c,
                (#[trigger] tgts[c][k]).node,
            ) by {
                assert(tgts[c] == eng.col_seed(c));
                assert(covers_col(eng.target_bucket_cache(), c, eng.col_seed(c)[k].node));
            }
            assert forall|rr: int, c: int|
                0 <= rr < outm.len() && 0 <= c < tgts.len() implies cell_view(
                #[trigger] outm[rr][c],
            ) == best_pair(*graph, sbs[rr], tbs, c) by {
                assert(outm[rr] == out@[rr]@);
                assert(out@[rr]@ == matrix@[rr]@);
                assert(eng.matrix()[rr] == matrix@[rr]@);
                assert(cell_view(eng.matrix()[rr][c]) == best_pair(
                    eng.graph_spec(),
                    eng.row_buckets(rr),
                    eng.target_bucket_cache(),
                    c,
                ));
            }
        }
        assert(sbs.len() == srcs.len() && tbs.len() == eng.target_bucket_cache().len());
        assert(exists|sbs2: Seq<Seq<Bucket>>, tbs2: Seq<Bucket>|
            #![trigger sbs2.len(), tbs2.len()]
            matrix_joined(*graph, srcs, tgts, outm, sbs2, tbs2));
    }
    out
}

} // verus!
