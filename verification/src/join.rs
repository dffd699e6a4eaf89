//! The bucket joiner: combines one source's buckets with the sorted target
//! bucket list, updating that source's result row at every column a shared
//! middle node reaches.  A result cell is always the lexicographic minimum
//! over the candidates seen so far; a candidate whose weight sum is negative
//! is first corrected by the middle node's self-loop shortcut, or discarded
//! when no correction applies.

use superslice::Ext;

use vstd::prelude::*;

use crate::bucket::Bucket;
use crate::bucket::sorted_by_middle;
use crate::graph::Direction;
use crate::graph::Edge;
use crate::graph::Graph;
use crate::graph::NodeId;
use crate::graph::Weight;

verus! {

broadcast use vstd::seq_lib::group_to_multiset_ensures;

/// Strict lexicographic order on `(weight, duration)` pairs.
pub open spec fn lex_less(a: (int, int), b: (int, int)) -> bool {
    a.0 < b.0 || (a.0 == b.0 && a.1 < b.1)
}

/// Non-strict lexicographic order on `(weight, duration)` pairs.
pub open spec fn lex_le(a: (int, int), b: (int, int)) -> bool {
    a == b || lex_less(a, b)
}

/// The lexicographic minimum of a current cell and a candidate, where `None`
/// counts as positive infinity.  Ties keep the current value; the pair's
/// value is the same either way.
pub open spec fn opt_min(cur: Option<(int, int)>, cand: Option<(int, int)>) -> Option<(int, int)> {
    match cur {
        None => cand,
        Some(c) => match cand {
            None => Some(c),
            Some(n) => if lex_less(n, c) {
                Some(n)
            } else {
                Some(c)
            },
        },
    }
}

/// A result cell lifted to mathematical integers.
pub open spec fn cell_view(c: Option<(Weight, Weight)>) -> Option<(int, int)> {
    match c {
        None => None,
        Some(p) => Some((p.0 as int, p.1 as int)),
    }
}

/// Whether a cell value fits the stored 32-bit representation.
pub open spec fn cell_fits(c: Option<(int, int)>) -> bool {
    match c {
        None => true,
        Some(p) => i32::MIN <= p.0 <= i32::MAX && i32::MIN <= p.1 <= i32::MAX,
    }
}

/// The least weight (or, with `use_duration`, the least duration) over the
/// self-loop edges among the first `hi` edges of `edges`, taken in stored
/// order.
pub open spec fn loop_min_upto(edges: Seq<Edge>, node: NodeId, use_duration: bool, hi: int) -> Option<
    int,
>
    decreases hi,
{
    if hi <= 0 {
        None
    } else {
        let prev = loop_min_upto(edges, node, use_duration, hi - 1);
        let e = edges[hi - 1];
        if e.target == node {
            let v = if use_duration {
                e.duration as int
            } else {
                e.weight as int
            };
            match prev {
                None => Some(v),
                Some(p) => Some(if v < p {
                    v
                } else {
                    p
                }),
            }
        } else {
            prev
        }
    }
}

/// The least weight (or duration) over the self-loop edges of `edges`.
pub open spec fn loop_min(edges: Seq<Edge>, node: NodeId, use_duration: bool) -> Option<int> {
    loop_min_upto(edges, node, use_duration, edges.len() as int)
}

/// The weight minimum and the duration minimum exist over exactly the same
/// edge set, so one is `None` exactly when the other is.
pub proof fn lemma_loop_min_both(edges: Seq<Edge>, node: NodeId, hi: int)
    ensures
        loop_min_upto(edges, node, false, hi) is None <==> loop_min_upto(
            edges,
            node,
            true,
            hi,
        ) is None,
    decreases hi,
{
    if hi > 0 {
        lemma_loop_min_both(edges, node, hi - 1);
    }
}

/// The self-loop correction for a candidate whose weight sum `nw` is
/// negative: add the least self-loop weight at the middle node, pairing it
/// with the least self-loop duration (two independent minima).  The
/// candidate is discarded when no self-loop exists or the corrected weight
/// is still negative.
pub open spec fn fixup(g: Graph, node: NodeId, nw: int, nd: int) -> Option<(int, int)> {
    let adj = g.adjacent(node as int, Direction::Forward);
    match loop_min(adj, node, false) {
        None => None,
        Some(lw) => if nw + lw >= 0 {
            Some((nw + lw, nd + loop_min(adj, node, true)->Some_0))
        } else {
            None
        },
    }
}

/// The candidate contributed by a forward cost pair `(sw, sd)` and a
/// backward cost pair `(tw, td)` meeting at `middle`: the pairwise sum,
/// self-loop-corrected when the weight sum is negative.
pub open spec fn candidate_vals(
    g: Graph,
    middle: NodeId,
    sw: int,
    sd: int,
    tw: int,
    td: int,
) -> Option<(int, int)> {
    let nw = sw + tw;
    let nd = sd + td;
    if nw >= 0 {
        Some((nw, nd))
    } else {
        fixup(g, middle, nw, nd)
    }
}

/// The candidate that one source bucket and one target bucket sharing a
/// middle node contribute.
pub open spec fn candidate(g: Graph, s: Bucket, t: Bucket) -> Option<(int, int)> {
    candidate_vals(
        g,
        s.middle_node,
        s.weight as int,
        s.duration as int,
        t.weight as int,
        t.duration as int,
    )
}

/// An accepted candidate never has a negative weight: a non-negative sum is
/// kept as it is, and the self-loop correction only accepts a corrected sum
/// that has become non-negative.
pub proof fn lemma_candidate_nonneg(
    g: Graph,
    middle: NodeId,
    sw: int,
    sd: int,
    tw: int,
    td: int,
)
    ensures
        candidate_vals(g, middle, sw, sd, tw, td) is Some ==> candidate_vals(
            g,
            middle,
            sw,
            sd,
            tw,
            td,
        )->Some_0.0 >= 0,
{
}

/// The best candidate that source bucket `s` contributes to column `col`
/// among the first `hi` target buckets.
pub open spec fn best_for_source_upto(
    g: Graph,
    s: Bucket,
    ts: Seq<Bucket>,
    col: int,
    hi: int,
) -> Option<(int, int)>
    decreases hi,
{
    if hi <= 0 {
        None
    } else {
        let prev = best_for_source_upto(g, s, ts, col, hi - 1);
        let t = ts[hi - 1];
        if t.middle_node == s.middle_node && t.column_index == col {
            opt_min(prev, candidate(g, s, t))
        } else {
            prev
        }
    }
}

/// The best candidate that source bucket `s` contributes to column `col`.
pub open spec fn best_for_source(g: Graph, s: Bucket, ts: Seq<Bucket>, col: int) -> Option<
    (int, int),
> {
    best_for_source_upto(g, s, ts, col, ts.len() as int)
}

/// The best candidate for column `col` among the first `hi` source buckets,
/// joined against all of `ts`.
pub open spec fn best_pair_upto(g: Graph, ss: Seq<Bucket>, ts: Seq<Bucket>, col: int, hi: int) -> Option<
    (int, int),
>
    decreases hi,
{
    if hi <= 0 {
        None
    } else {
        opt_min(best_pair_upto(g, ss, ts, col, hi - 1), best_for_source(g, ss[hi - 1], ts, col))
    }
}

/// The best candidate for column `col` over every pair of a source bucket
/// and a target bucket with the same middle node.
pub open spec fn best_pair(g: Graph, ss: Seq<Bucket>, ts: Seq<Bucket>, col: int) -> Option<
    (int, int),
> {
    best_pair_upto(g, ss, ts, col, ss.len() as int)
}

/// Target indices in `[lo, hi)` whose middle node differs from `s`'s
/// contribute nothing.
proof fn lemma_best_skip(g: Graph, s: Bucket, ts: Seq<Bucket>, col: int, lo: int, hi: int)
    requires
        0 <= lo <= hi,
        forall|j: int| lo <= j < hi ==> (#[trigger] ts[j]).middle_node != s.middle_node,
    ensures
        best_for_source_upto(g, s, ts, col, hi) == best_for_source_upto(g, s, ts, col, lo),
    decreases hi - lo,
{
    if lo < hi {
        lemma_best_skip(g, s, ts, col, lo, hi - 1);
    }
}

/// `opt_min` is associative.
pub proof fn lemma_opt_min_assoc(a: Option<(int, int)>, b: Option<(int, int)>, c: Option<
    (int, int),
>)
    ensures
        opt_min(opt_min(a, b), c) == opt_min(a, opt_min(b, c)),
{
}

/// `opt_min` is commutative: on ties both orders keep the same value.
pub proof fn lemma_opt_min_comm(a: Option<(int, int)>, b: Option<(int, int)>)
    ensures
        opt_min(a, b) == opt_min(b, a),
{
}

/// The per-source best depends only on the first `hi` target buckets.
proof fn lemma_bfs_prefix_agree(
    g: Graph,
    s: Bucket,
    ts1: Seq<Bucket>,
    ts2: Seq<Bucket>,
    col: int,
    hi: int,
)
    requires
        forall|j: int| 0 <= j < hi ==> ts1[j] == ts2[j],
    ensures
        best_for_source_upto(g, s, ts1, col, hi) == best_for_source_upto(g, s, ts2, col, hi),
    decreases hi,
{
    if hi > 0 {
        lemma_bfs_prefix_agree(g, s, ts1, ts2, col, hi - 1);
    }
}

/// The incremental-target law, per source bucket: the best candidate
/// against a concatenation of two target bucket lists is the smaller of the
/// bests against each part.  Joining old and new target buckets separately
/// therefore loses nothing against joining them together.
pub proof fn lemma_best_for_source_concat(
    g: Graph,
    s: Bucket,
    t1: Seq<Bucket>,
    t2: Seq<Bucket>,
    col: int,
)
    ensures
        best_for_source(g, s, t1 + t2, col) == opt_min(
            best_for_source(g, s, t1, col),
            best_for_source(g, s, t2, col),
        ),
    decreases t2.len(),
{
    if t2.len() == 0 {
        assert(t1 + t2 =~= t1);
        lemma_bfs_prefix_agree(g, s, t1 + t2, t1, col, t1.len() as int);
    } else {
        let t2p = t2.drop_last();
        lemma_best_for_source_concat(g, s, t1, t2p, col);
        assert((t1 + t2p) =~= (t1 + t2).subrange(0, t1.len() + t2.len() - 1));
        lemma_bfs_prefix_agree(
            g,
            s,
            t1 + t2p,
            t1 + t2,
            col,
            t1.len() + t2.len() - 1,
        );
        assert((t1 + t2)[t1.len() + t2.len() - 1] == t2[t2.len() - 1]);
        lemma_bfs_prefix_agree(g, s, t2p, t2, col, t2.len() - 1);
        lemma_opt_min_assoc(
            best_for_source(g, s, t1, col),
            best_for_source_upto(g, s, t2, col, t2.len() - 1),
            if t2.last().middle_node == s.middle_node && t2.last().column_index == col {
                candidate(g, s, t2.last())
            } else {
                None
            },
        );
    }
}

/// The best over the first `hi` source buckets depends only on those.
proof fn lemma_bp_prefix_agree(
    g: Graph,
    ss1: Seq<Bucket>,
    ss2: Seq<Bucket>,
    ts: Seq<Bucket>,
    col: int,
    hi: int,
)
    requires
        forall|j: int| 0 <= j < hi ==> ss1[j] == ss2[j],
    ensures
        best_pair_upto(g, ss1, ts, col, hi) == best_pair_upto(g, ss2, ts, col, hi),
    decreases hi,
{
    if hi > 0 {
        lemma_bp_prefix_agree(g, ss1, ss2, ts, col, hi - 1);
    }
}

/// The incremental-source law: the best candidate over a concatenation of
/// two source bucket lists is the smaller of the bests over each part.
/// Computing new rows from new source buckets alone therefore agrees with a
/// batch computation.
pub proof fn lemma_best_pair_concat(
    g: Graph,
    s1: Seq<Bucket>,
    s2: Seq<Bucket>,
    ts: Seq<Bucket>,
    col: int,
)
    ensures
        best_pair(g, s1 + s2, ts, col) == opt_min(
            best_pair(g, s1, ts, col),
            best_pair(g, s2, ts, col),
        ),
    decreases s2.len(),
{
    if s2.len() == 0 {
        assert(s1 + s2 =~= s1);
        lemma_bp_prefix_agree(g, s1 + s2, s1, ts, col, s1.len() as int);
    } else {
        let s2p = s2.drop_last();
        lemma_best_pair_concat(g, s1, s2p, ts, col);
        lemma_bp_prefix_agree(g, s1 + s2p, s1 + s2, ts, col, s1.len() + s2.len() - 1);
        assert((s1 + s2)[s1.len() + s2.len() - 1] == s2[s2.len() - 1]);
        lemma_bp_prefix_agree(g, s2p, s2, ts, col, s2.len() - 1);
        lemma_opt_min_assoc(
            best_pair(g, s1, ts, col),
            best_pair_upto(g, s2, ts, col, s2.len() - 1),
            best_for_source(g, s2.last(), ts, col),
        );
    }
}

/// A per-source best that exists is the candidate of an actual matching
/// target bucket in the prefix.
proof fn lemma_bfs_achieved(g: Graph, s: Bucket, ts: Seq<Bucket>, col: int, hi: int)
    requires
        0 <= hi <= ts.len(),
        best_for_source_upto(g, s, ts, col, hi) is Some,
    ensures
        exists|j: int|
            0 <= j < hi && ts[j].middle_node == s.middle_node && ts[j].column_index == col
                && #[trigger] candidate(g, s, ts[j]) == best_for_source_upto(g, s, ts, col, hi),
    decreases hi,
{
    let whole = best_for_source_upto(g, s, ts, col, hi);
    let prev = best_for_source_upto(g, s, ts, col, hi - 1);
    let t = ts[hi - 1];
    if t.middle_node == s.middle_node && t.column_index == col && whole == candidate(g, s, t) {
        assert(candidate(g, s, ts[hi - 1]) == whole);
    } else {
        lemma_bfs_achieved(g, s, ts, col, hi - 1);
    }
}

/// A best pair value that exists is the candidate of an actual matching
/// source/target bucket pair.
pub proof fn lemma_best_pair_achieved(g: Graph, ss: Seq<Bucket>, ts: Seq<Bucket>, col: int, hi: int)
    requires
        0 <= hi <= ss.len(),
        best_pair_upto(g, ss, ts, col, hi) is Some,
    ensures
        exists|i: int, j: int|
            0 <= i < hi && 0 <= j < ts.len() && ss[i].middle_node == ts[j].middle_node
                && ts[j].column_index == col && #[trigger] candidate(g, ss[i], ts[j])
                == best_pair_upto(g, ss, ts, col, hi),
    decreases hi,
{
    let whole = best_pair_upto(g, ss, ts, col, hi);
    let prev = best_pair_upto(g, ss, ts, col, hi - 1);
    let mine = best_for_source(g, ss[hi - 1], ts, col);
    if whole == prev && prev is Some {
        lemma_best_pair_achieved(g, ss, ts, col, hi - 1);
    } else {
        lemma_bfs_achieved(g, ss[hi - 1], ts, col, ts.len() as int);
        let j = choose|j: int|
            0 <= j < ts.len() && ts[j].middle_node == ss[hi - 1].middle_node && ts[j].column_index
                == col && #[trigger] candidate(g, ss[hi - 1], ts[j]) == mine;
        assert(candidate(g, ss[hi - 1], ts[j]) == whole);
    }
}

/// `a` is at most `b`, where `None` counts as positive infinity.
pub open spec fn opt_le(a: Option<(int, int)>, b: Option<(int, int)>) -> bool {
    match b {
        None => true,
        Some(bv) => match a {
            None => false,
            Some(av) => av == bv || lex_less(av, bv),
        },
    }
}

/// Scanning more target buckets never worsens a per-source best.
proof fn lemma_bfs_mono(g: Graph, s: Bucket, ts: Seq<Bucket>, col: int, lo: int, hi: int)
    requires
        0 <= lo <= hi,
    ensures
        opt_le(
            best_for_source_upto(g, s, ts, col, hi),
            best_for_source_upto(g, s, ts, col, lo),
        ),
    decreases hi - lo,
{
    if lo < hi {
        lemma_bfs_mono(g, s, ts, col, lo, hi - 1);
    }
}

/// Scanning more source buckets never worsens a column's best.
proof fn lemma_bp_mono(g: Graph, ss: Seq<Bucket>, ts: Seq<Bucket>, col: int, lo: int, hi: int)
    requires
        0 <= lo <= hi,
    ensures
        opt_le(best_pair_upto(g, ss, ts, col, hi), best_pair_upto(g, ss, ts, col, lo)),
    decreases hi - lo,
{
    if lo < hi {
        lemma_bp_mono(g, ss, ts, col, lo, hi - 1);
    }
}

/// No candidate is ignored: the best pair value for a column is at most
/// the candidate of any single matching source/target bucket pair that
/// feeds it.  Together with the achievedness lemma this pins the best pair
/// down as the exact lexicographic minimum over the matching candidates.
pub proof fn lemma_best_pair_bounds(g: Graph, ss: Seq<Bucket>, ts: Seq<Bucket>, col: int, i: int, j: int)
    requires
        0 <= i < ss.len(),
        0 <= j < ts.len(),
        ss[i].middle_node == ts[j].middle_node,
        ts[j].column_index == col,
    ensures
        opt_le(best_pair(g, ss, ts, col), candidate(g, ss[i], ts[j])),
{
    let cand = candidate(g, ss[i], ts[j]);
    assert(opt_le(best_for_source_upto(g, ss[i], ts, col, j + 1), cand));
    lemma_bfs_mono(g, ss[i], ts, col, j + 1, ts.len() as int);
    assert(opt_le(best_pair_upto(g, ss, ts, col, i + 1), best_for_source(g, ss[i], ts, col)));
    lemma_bp_mono(g, ss, ts, col, i + 1, ss.len() as int);
}

/// A column that no target bucket names receives nothing from this
/// source.
proof fn lemma_bfs_no_column(g: Graph, s: Bucket, ts: Seq<Bucket>, col: int, hi: int)
    requires
        hi <= ts.len(),
        forall|j: int| 0 <= j < ts.len() ==> (#[trigger] ts[j]).column_index != col,
    ensures
        best_for_source_upto(g, s, ts, col, hi) is None,
    decreases hi,
{
    if hi > 0 {
        lemma_bfs_no_column(g, s, ts, col, hi - 1);
    }
}

/// A column that no target bucket names receives nothing at all: joining
/// against buckets for other columns leaves it untouched.
pub proof fn lemma_best_pair_no_column(g: Graph, ss: Seq<Bucket>, ts: Seq<Bucket>, col: int, hi: int)
    requires
        hi <= ss.len(),
        forall|j: int| 0 <= j < ts.len() ==> (#[trigger] ts[j]).column_index != col,
    ensures
        best_pair_upto(g, ss, ts, col, hi) is None,
    decreases hi,
{
    if hi > 0 {
        lemma_best_pair_no_column(g, ss, ts, col, hi - 1);
        lemma_bfs_no_column(g, ss[hi - 1], ts, col, ts.len() as int);
    }
}

/// What one target bucket contributes to source bucket `s` at column
/// `col`: its candidate when middle node and column match, nothing
/// otherwise.
pub open spec fn target_contrib(g: Graph, s: Bucket, t: Bucket, col: int) -> Option<(int, int)> {
    if t.middle_node == s.middle_node && t.column_index == col {
        candidate(g, s, t)
    } else {
        None
    }
}

/// The scan step in `opt_min` form: each target bucket folds in as its
/// contribution, matching or not.
proof fn lemma_bfs_step(g: Graph, s: Bucket, ts: Seq<Bucket>, col: int, hi: int)
    requires
        0 < hi,
    ensures
        best_for_source_upto(g, s, ts, col, hi) == opt_min(
            best_for_source_upto(g, s, ts, col, hi - 1),
            target_contrib(g, s, ts[hi - 1], col),
        ),
{
}

/// Removing one target bucket from the scan splits its contribution off:
/// the best is the removed bucket's contribution folded into the best over
/// the rest.
proof fn lemma_bfs_extract(g: Graph, s: Bucket, ts: Seq<Bucket>, col: int, j: int)
    requires
        0 <= j < ts.len(),
    ensures
        best_for_source(g, s, ts, col) == opt_min(
            best_for_source(g, s, ts.remove(j), col),
            target_contrib(g, s, ts[j], col),
        ),
    decreases ts.len(),
{
    let n = ts.len() as int;
    let rest = ts.remove(j);
    lemma_bfs_step(g, s, ts, col, n);
    if j == n - 1 {
        assert(rest =~= ts.drop_last());
        lemma_bfs_prefix_agree(g, s, ts, rest, col, n - 1);
    } else {
        let dropped = ts.drop_last();
        lemma_bfs_extract(g, s, dropped, col, j);
        assert(dropped.remove(j) =~= rest.drop_last());
        lemma_bfs_prefix_agree(g, s, ts, dropped, col, n - 1);
        lemma_bfs_step(g, s, rest, col, n - 1);
        assert(rest[n - 2] == ts[n - 1]);
        lemma_bfs_prefix_agree(g, s, rest, rest.drop_last(), col, n - 2);
        let a = best_for_source(g, s, rest.drop_last(), col);
        let cj = target_contrib(g, s, ts[j], col);
        let cl = target_contrib(g, s, ts[n - 1], col);
        lemma_opt_min_assoc(a, cj, cl);
        lemma_opt_min_comm(cj, cl);
        lemma_opt_min_assoc(a, cl, cj);
    }
}

/// The per-source best is a minimum over a multiset: reordering the target
/// buckets cannot change it.  This is the tie-break-invariance of the scan.
pub proof fn lemma_bfs_permutation(g: Graph, s: Bucket, ts1: Seq<Bucket>, ts2: Seq<Bucket>, col: int)
    requires
        ts1.to_multiset() == ts2.to_multiset(),
    ensures
        best_for_source(g, s, ts1, col) == best_for_source(g, s, ts2, col),
    decreases ts1.len(),
{
    if ts1.len() == 0 {
        assert(ts2.to_multiset().len() == 0);
        assert(ts2.len() == 0);
    } else {
        let n = ts1.len() as int;
        let x = ts1.last();
        assert(ts1.contains(x));
        assert(ts2.to_multiset().count(x) > 0);
        assert(ts2.contains(x));
        let j = choose|j: int| 0 <= j < ts2.len() && ts2[j] == x;
        lemma_bfs_extract(g, s, ts1, col, n - 1);
        lemma_bfs_extract(g, s, ts2, col, j);
        assert(ts1.remove(n - 1) =~= ts1.drop_last());
        assert(ts1.remove(n - 1).to_multiset() =~= ts1.to_multiset().remove(x));
        assert(ts2.remove(j).to_multiset() =~= ts2.to_multiset().remove(x));
        lemma_bfs_permutation(g, s, ts1.drop_last(), ts2.remove(j), col);
    }
}

/// The column best is likewise invariant under reordering the target
/// buckets.
pub proof fn lemma_best_pair_permutation(
    g: Graph,
    ss: Seq<Bucket>,
    ts1: Seq<Bucket>,
    ts2: Seq<Bucket>,
    col: int,
)
    requires
        ts1.to_multiset() == ts2.to_multiset(),
    ensures
        best_pair(g, ss, ts1, col) == best_pair(g, ss, ts2, col),
{
    lemma_bp_permutation_upto(g, ss, ts1, ts2, col, ss.len() as int);
}

proof fn lemma_bp_permutation_upto(
    g: Graph,
    ss: Seq<Bucket>,
    ts1: Seq<Bucket>,
    ts2: Seq<Bucket>,
    col: int,
    hi: int,
)
    requires
        ts1.to_multiset() == ts2.to_multiset(),
    ensures
        best_pair_upto(g, ss, ts1, col, hi) == best_pair_upto(g, ss, ts2, col, hi),
    decreases hi,
{
    if hi > 0 {
        lemma_bp_permutation_upto(g, ss, ts1, ts2, col, hi - 1);
        lemma_bfs_permutation(g, ss[hi - 1], ts1, ts2, col);
    }
}

proof fn lemma_opt_min_interchange(
    a: Option<(int, int)>,
    b: Option<(int, int)>,
    c: Option<(int, int)>,
    d: Option<(int, int)>,
)
    ensures
        opt_min(opt_min(a, b), opt_min(c, d)) == opt_min(opt_min(a, c), opt_min(b, d)),
{
}

/// The incremental-target law, lifted to the column best: joining old and
/// new target bucket lists separately and keeping the smaller equals
/// joining their concatenation.
pub proof fn lemma_best_pair_concat_targets(
    g: Graph,
    ss: Seq<Bucket>,
    t1: Seq<Bucket>,
    t2: Seq<Bucket>,
    col: int,
)
    ensures
        best_pair(g, ss, t1 + t2, col) == opt_min(
            best_pair(g, ss, t1, col),
            best_pair(g, ss, t2, col),
        ),
{
    lemma_bp_concat_targets_upto(g, ss, t1, t2, col, ss.len() as int);
}

proof fn lemma_bp_concat_targets_upto(
    g: Graph,
    ss: Seq<Bucket>,
    t1: Seq<Bucket>,
    t2: Seq<Bucket>,
    col: int,
    hi: int,
)
    ensures
        best_pair_upto(g, ss, t1 + t2, col, hi) == opt_min(
            best_pair_upto(g, ss, t1, col, hi),
            best_pair_upto(g, ss, t2, col, hi),
        ),
    decreases hi,
{
    if hi > 0 {
        lemma_bp_concat_targets_upto(g, ss, t1, t2, col, hi - 1);
        lemma_best_for_source_concat(g, ss[hi - 1], t1, t2, col);
        lemma_opt_min_interchange(
            best_pair_upto(g, ss, t1, col, hi - 1),
            best_for_source(g, ss[hi - 1], t1, col),
            best_pair_upto(g, ss, t2, col, hi - 1),
            best_for_source(g, ss[hi - 1], t2, col),
        );
    }
}

/// With no self-loop at the middle node, a candidate whose weight sum is
/// negative is never accepted.
pub proof fn lemma_no_self_loop_rejects(
    g: Graph,
    middle: NodeId,
    sw: int,
    sd: int,
    tw: int,
    td: int,
)
    requires
        forall|k: int|
            0 <= k < g.adjacent(middle as int, Direction::Forward).len() ==> (#[trigger] g.adjacent(
                middle as int,
                Direction::Forward,
            )[k]).target != middle,
        sw + tw < 0,
    ensures
        candidate_vals(g, middle, sw, sd, tw, td) is None,
{
    lemma_loop_min_none(g.adjacent(middle as int, Direction::Forward), middle, false, g.adjacent(
        middle as int,
        Direction::Forward,
    ).len() as int);
}

/// A minimum over no self-loops does not exist.
proof fn lemma_loop_min_none(edges: Seq<Edge>, node: NodeId, use_duration: bool, hi: int)
    requires
        hi <= edges.len(),
        forall|k: int| 0 <= k < edges.len() ==> (#[trigger] edges[k]).target != node,
    ensures
        loop_min_upto(edges, node, use_duration, hi) is None,
    decreases hi,
{
    if hi > 0 {
        lemma_loop_min_none(edges, node, use_duration, hi - 1);
    }
}

/// Every candidate of every matching source/target bucket pair fits the
/// 32-bit cell representation.  This is the machine-limit precondition of
/// the joiner: the candidate values themselves are what it stores.
pub open spec fn join_fits(g: Graph, ss: Seq<Bucket>, ts: Seq<Bucket>) -> bool {
    forall|i: int, j: int|
        0 <= i < ss.len() && 0 <= j < ts.len() && ss[i].middle_node == ts[j].middle_node
            ==> cell_fits(#[trigger] candidate(g, ss[i], ts[j]))
}

/// Relies on superslice::Ext::equal_range_by_key: on a slice sorted by the
/// key, returns the contiguous index range of the elements with the given
/// key — everything before it has a smaller key, everything after a larger
/// one.
#[verifier::external_body]
fn equal_range_by_middle(ts: &Vec<Bucket>, key: NodeId) -> (r: (usize, usize))
    requires
        sorted_by_middle(ts@),
    ensures
        r.0 <= r.1 <= ts@.len(),
        forall|j: int| 0 <= j < r.0 ==> (#[trigger] ts@[j]).middle_node < key,
        forall|j: int| r.0 <= j < r.1 ==> (#[trigger] ts@[j]).middle_node == key,
        forall|j: int| r.1 <= j < ts@.len() ==> (#[trigger] ts@[j]).middle_node > key,
{
    let range = ts.equal_range_by_key(&key, |b| b.middle_node);
    (range.start, range.end)
}

/// The least self-loop value at `node`: the minimum `weight` (or, with
/// `use_duration`, the minimum `duration`) over the included forward edges
/// of `node` whose target is `node` itself; `None` when there is no such
/// edge.
pub fn get_loop_weight(graph: &Graph, node: NodeId, use_duration: bool) -> (r: Option<Weight>)
    requires
        graph.wf(),
        node < graph.node_count(),
    ensures
        match r {
            None => loop_min(
                graph.adjacent(node as int, Direction::Forward),
                node,
                use_duration,
            ) is None,
            Some(v) => loop_min(graph.adjacent(node as int, Direction::Forward), node, use_duration)
                == Some(v as int),
        },
{
    let adj = graph.get_adjacent_edges(node, Direction::Forward);
    let ghost adj_seq = adj@;
    let mut loop_weight: Option<Weight> = None;
    for i in 0..adj.len()
        invariant
            adj@ == adj_seq,
            match loop_weight {
                None => loop_min_upto(adj_seq, node, use_duration, i as int) is None,
                Some(v) => loop_min_upto(adj_seq, node, use_duration, i as int) == Some(v as int),
            },
    {
        let edge = &adj[i];
        if node == edge.target {
            let value = if use_duration {
                edge.duration
            } else {
                edge.weight
            };
            loop_weight = match loop_weight {
                Some(weight) => Some(if value < weight {
                    value
                } else {
                    weight
                }),
                None => Some(value),
            };
        }
    }
    loop_weight
}

/// The self-loop correction for a negative candidate sum, as stored 32-bit
/// values.  `weight` and `duration` are the uncorrected sums, carried wide
/// because a negative sum of two stored weights can fall below the stored
/// range.
fn loop_fixup(graph: &Graph, node: NodeId, weight: i64, duration: i64) -> (r: Option<
    (Weight, Weight),
>)
    requires
        graph.wf(),
        node < graph.node_count(),
        weight < 0,
        i32::MIN + i32::MIN <= weight,
        i32::MIN + i32::MIN <= duration <= i32::MAX + i32::MAX,
        cell_fits(fixup(*graph, node, weight as int, duration as int)),
    ensures
        cell_view(r) == fixup(*graph, node, weight as int, duration as int),
{
    match get_loop_weight(graph, node, false) {
        None => None,
        Some(loop_weight) => {
            let corrected = weight + loop_weight as i64;
            if corrected >= 0 {
                proof {
                    lemma_loop_min_both(
                        graph.adjacent(node as int, Direction::Forward),
                        node,
                        graph.adjacent(node as int, Direction::Forward).len() as int,
                    );
                }
                let loop_duration = get_loop_weight(graph, node, true).unwrap();
                let corrected_duration = duration + loop_duration as i64;
                Some((corrected as Weight, corrected_duration as Weight))
            } else {
                None
            }
        },
    }
}

/// Joins one source's buckets against the sorted target bucket list,
/// updating this source's result row in place.
///
/// Afterwards every cell holds the lexicographic minimum of its previous
/// value and the best corrected candidate its column receives from any
/// source/target bucket pair with a shared middle node; `None` stands for
/// "not reached".
pub fn join_buckets(
    graph: &Graph,
    results: &mut Vec<Option<(Weight, Weight)>>,
    target_buckets: &Vec<Bucket>,
    source_buckets: &Vec<Bucket>,
)
    requires
        graph.wf(),
        sorted_by_middle(target_buckets@),
        forall|i: int|
            0 <= i < source_buckets@.len() ==> (#[trigger] source_buckets@[i]).middle_node
                < graph.node_count(),
        forall|j: int|
            0 <= j < target_buckets@.len() ==> (#[trigger] target_buckets@[j]).column_index
                < old(results)@.len(),
        join_fits(*graph, source_buckets@, target_buckets@),
    ensures
        final(results)@.len() == old(results)@.len(),
        forall|c: int|
            0 <= c < old(results)@.len() ==> cell_view(#[trigger] final(results)@[c]) == opt_min(
                cell_view(old(results)@[c]),
                best_pair(*graph, source_buckets@, target_buckets@, c),
            ),
{
    let ghost init = results@;
    let ghost g = *graph;
    let ghost ss = source_buckets@;
    let ghost ts = target_buckets@;
    for s_idx in 0..source_buckets.len()
        invariant
            graph.wf(),
            g == *graph,
            ss == source_buckets@,
            ts == target_buckets@,
            sorted_by_middle(ts),
            forall|i: int| 0 <= i < ss.len() ==> (#[trigger] ss[i]).middle_node < g.node_count(),
            forall|j: int| 0 <= j < ts.len() ==> (#[trigger] ts[j]).column_index < init.len(),
            join_fits(g, ss, ts),
            results@.len() == init.len(),
            forall|c: int|
                0 <= c < init.len() ==> cell_view(#[trigger] results@[c]) == opt_min(
                    cell_view(init[c]),
                    best_pair_upto(g, ss, ts, c, s_idx as int),
                ),
    {
        let source = source_buckets[s_idx];
        let (lo, hi) = equal_range_by_middle(target_buckets, source.middle_node);
        proof {
            assert forall|c: int| 0 <= c < init.len() implies cell_view(#[trigger] results@[c])
                == opt_min(
                cell_view(init[c]),
                opt_min(
                    best_pair_upto(g, ss, ts, c, s_idx as int),
                    best_for_source_upto(g, source, ts, c, lo as int),
                ),
            ) by {
                lemma_best_skip(g, source, ts, c, 0, lo as int);
            }
        }
        for t_idx in lo..hi
            invariant
                graph.wf(),
                g == *graph,
                ss == source_buckets@,
                ts == target_buckets@,
                s_idx < ss.len(),
                source == ss[s_idx as int],
                source.middle_node < g.node_count(),
                lo <= t_idx <= hi <= ts.len(),
                forall|j: int| lo <= j < hi ==> (#[trigger] ts[j]).middle_node == source.middle_node,
                forall|j: int| 0 <= j < ts.len() ==> (#[trigger] ts[j]).column_index < init.len(),
                join_fits(g, ss, ts),
                results@.len() == init.len(),
                forall|c: int|
                    0 <= c < init.len() ==> cell_view(#[trigger] results@[c]) == opt_min(
                        cell_view(init[c]),
                        opt_min(
                            best_pair_upto(g, ss, ts, c, s_idx as int),
                            best_for_source_upto(g, source, ts, c, t_idx as int),
                        ),
                    ),
        {
            let target = target_buckets[t_idx];
            let idx = target.column_index;
            let new_weight = source.weight as i64 + target.weight as i64;
            let new_duration = source.duration as i64 + target.duration as i64;
            proof {
                assert(candidate(g, ss[s_idx as int], ts[t_idx as int]) == candidate(
                    g,
                    source,
                    target,
                ));
                assert(cell_fits(candidate(g, source, target)));
            }
            let cand: Option<(Weight, Weight)> = if new_weight < 0 {
                loop_fixup(graph, source.middle_node, new_weight, new_duration)
            } else {
                Some((new_weight as Weight, new_duration as Weight))
            };
            proof {
                assert(cell_view(cand) == candidate(g, source, target));
            }
            let current = results[idx];
            match current {
                None => {
                    if cand.is_some() {
                        results[idx] = cand;
                    }
                },
                Some((cur_weight, cur_duration)) => {
                    if let Some((cand_weight, cand_duration)) = cand {
                        if cand_weight < cur_weight || (cand_weight == cur_weight && cand_duration
                            < cur_duration) {
                            results[idx] = cand;
                        }
                    }
                },
            }
            proof {
                assert forall|c: int| 0 <= c < init.len() implies cell_view(
                    #[trigger] results@[c],
                ) == opt_min(
                    cell_view(init[c]),
                    opt_min(
                        best_pair_upto(g, ss, ts, c, s_idx as int),
                        best_for_source_upto(g, source, ts, c, t_idx as int + 1),
                    ),
                ) by {
                }
            }
        }
        proof {
            assert forall|c: int| 0 <= c < init.len() implies cell_view(#[trigger] results@[c])
                == opt_min(
                cell_view(init[c]),
                best_pair_upto(g, ss, ts, c, s_idx as int + 1),
            ) by {
                lemma_best_skip(g, source, ts, c, hi as int, ts.len() as int);
            }
        }
    }
}

} // verus!
