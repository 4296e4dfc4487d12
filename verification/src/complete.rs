//! What the cut lists leave out.
use vstd::prelude::*;

use crate::class_graph::ClassGraph;
use crate::cut::{self_cut, CutView};
use crate::cut_laws::{
    comes_before, first_taken, is_first, lemma_pool_first, lemma_ranked_sorted,
    lemma_survivors_known, lemma_undominated_sorted, open_at, sorted,
};
use crate::enumerate::{
    candidate, components, considered, dominated, enode_ready, enumerable, enumeration,
    enumeration_is_complete, first_with, gate_of, inserted, lemma_components_ok, lemma_pass_ok,
    lemma_passes_ok, lemma_passes_settleable, lemma_settle_ok, list_ok, mergeable, merges_of,
    operand_leaves, operands, pass, passes, pool_class, pool_merges, ranked, ranks_before, ready,
    settle, settleable, survivors, sweep_ok, undominated, usable, visit, CutError, CutParams, Pool,
    Sweep, MERGE_BUDGET,
};
use crate::kernel::{kind_of, ClassKind, Kernel};
use crate::leaves::{merged, subset};
use crate::merge::{least, products, products_are_complete, selects, union_of, unions, unions_upto};
use crate::tally::{count, lemma_count_bound, lemma_count_ext, lemma_count_flip};

verus! {

/// E-node `e` of class `v` is a gate over classes that were finished earlier.
pub open spec fn built_earlier(
    graph: &ClassGraph,
    kernels: Seq<Kernel>,
    cuts: Seq<Seq<CutView>>,
    rank: Seq<nat>,
    v: int,
    e: int,
) -> bool {
    &&& gate_of(graph, kernels, e) is Some
    &&& graph.children(e).len() > 0
    &&& forall|j: int|
        0 <= j < graph.children(e).len() ==> {
            let c = #[trigger] graph.children(e)[j] as int;
            cuts[c].len() > 0 && rank[c] < rank[v]
        }
}

/// An e-node of class `v` over classes that were finished earlier merges to the given leaves.
pub open spec fn merges_to(
    graph: &ClassGraph,
    params: CutParams,
    kernels: Seq<Kernel>,
    cuts: Seq<Seq<CutView>>,
    rank: Seq<nat>,
    v: int,
    leaves: Seq<u32>,
) -> bool {
    exists|i: int, q: int|
        0 <= i < considered(graph, params, v).len() && built_earlier(
            graph,
            kernels,
            cuts,
            rank,
            v,
            considered(graph, params, v)[i] as int,
        ) && 0 <= q < merges_of(
            graph,
            cuts,
            params.k as nat,
            considered(graph, params, v)[i] as int,
        ).len() && #[trigger] merges_of(
            graph,
            cuts,
            params.k as nat,
            considered(graph, params, v)[i] as int,
        )[q].0 == leaves
}

/// `sets` are different leaf sets to which e-nodes of class `v` merge.
pub open spec fn merged_sets(
    graph: &ClassGraph,
    params: CutParams,
    kernels: Seq<Kernel>,
    cuts: Seq<Seq<CutView>>,
    rank: Seq<nat>,
    v: int,
    sets: Seq<Seq<u32>>,
) -> bool {
    &&& sets.no_duplicates()
    &&& forall|s: int|
        0 <= s < sets.len() ==> merges_to(
            graph,
            params,
            kernels,
            cuts,
            rank,
            v,
            #[trigger] sets[s],
        )
}

/// No cap was reached at class `v`: its list has room left, and there are no more merged leaf
/// sets than candidates are let in.
pub open spec fn uncapped(
    graph: &ClassGraph,
    params: CutParams,
    kernels: Seq<Kernel>,
    cuts: Seq<Seq<CutView>>,
    rank: Seq<nat>,
    v: int,
) -> bool {
    &&& cuts[v].len() < params.max_cuts
    &&& forall|sets: Seq<Seq<u32>>| #[trigger]
        merged_sets(graph, params, kernels, cuts, rank, v, sets) ==> sets.len()
            <= params.cand_cap
}

/// E-node `e` has a child in component `si` that got no cut but its trivial one, though it is
/// neither an input nor a constant.
pub open spec fn waited(
    graph: &ClassGraph,
    kernels: Seq<Kernel>,
    cuts: Seq<Seq<CutView>>,
    si: int,
    e: int,
) -> bool {
    exists|j: int|
        0 <= j < graph.children(e).len() && graph.scc_of@[
            #[trigger] graph.children(e)[j] as int
        ] == si && cuts[graph.children(e)[j] as int].len() == 1 && kind_of(
            graph,
            kernels,
            graph.children(e)[j] as int,
        ) == Some(ClassKind::Internal)
}

/// E-node `e` was merged when class `v` was finished: it is a gate over classes that were
/// finished earlier, and `v` has merged cuts, or no child of `e` waited for `v` itself.
pub open spec fn merged_at(
    graph: &ClassGraph,
    kernels: Seq<Kernel>,
    cuts: Seq<Seq<CutView>>,
    rank: Seq<nat>,
    v: int,
    e: int,
) -> bool {
    &&& built_earlier(graph, kernels, cuts, rank, v, e)
    &&& cuts[v].len() > 1 || !waited(graph, kernels, cuts, graph.scc_of@[v] as int, e)
}

/// A merged cut of class `v` has its leaves among those of merge `q` of the class's e-node
/// `i`.
pub open spec fn merge_kept(
    graph: &ClassGraph,
    params: CutParams,
    cuts: Seq<Seq<CutView>>,
    v: int,
    i: int,
    q: int,
) -> bool {
    let e = considered(graph, params, v)[i] as int;
    dominated(cuts[v].drop_first(), merges_of(graph, cuts, params.k as nat, e)[q].0)
}

/// Merge `q` of the class's e-node `i` is kept, or something smaller is, or every merged cut
/// of the class has no more leaves than the merge.
pub open spec fn merge_beaten(
    graph: &ClassGraph,
    params: CutParams,
    cuts: Seq<Seq<CutView>>,
    v: int,
    i: int,
    q: int,
) -> bool {
    let e = considered(graph, params, v)[i] as int;
    let leaves = merges_of(graph, cuts, params.k as nat, e)[q].0;
    merge_kept(graph, params, cuts, v, i, q) || forall|c: int|
        1 <= c < cuts[v].len() ==> (#[trigger] cuts[v][c]).leaves.len() <= leaves.len()
}

/// Whatever can be merged at the internal class `v` is kept, or something smaller is, unless
/// a cap is reached; what a cap keeps out is no smaller than what is kept.
pub open spec fn all_kept(
    graph: &ClassGraph,
    params: CutParams,
    kernels: Seq<Kernel>,
    cuts: Seq<Seq<CutView>>,
    rank: Seq<nat>,
    v: int,
) -> bool {
    cuts[v].len() > 0 && kind_of(graph, kernels, v) == Some(ClassKind::Internal) ==> {
        &&& uncapped(graph, params, kernels, cuts, rank, v) ==> forall|i: int, q: int|
            mergeable_at(graph, params, kernels, cuts, rank, v, i, q) ==> #[trigger] merge_kept(
                graph,
                params,
                cuts,
                v,
                i,
                q,
            )
        &&& forall|i: int, q: int|
            mergeable_at(graph, params, kernels, cuts, rank, v, i, q) ==> #[trigger] merge_beaten(
                graph,
                params,
                cuts,
                v,
                i,
                q,
            )
        &&& forall|x: int|
            1 <= x < cuts[v].len() ==> has_first_merge(
                graph,
                params,
                kernels,
                cuts,
                rank,
                v,
                #[trigger] cuts[v][x],
            )
        &&& forall|x: int, sets: Seq<Seq<u32>>|
            1 <= x < cuts[v].len() && #[trigger] merged_sets(
                graph,
                params,
                kernels,
                cuts,
                rank,
                v,
                sets,
            ) && all_smaller(sets, (#[trigger] cuts[v][x]).leaves.len()) ==> sets.len()
                < params.cand_cap
    }
}

/// The sets have fewer than `n` elements.
pub open spec fn all_smaller(sets: Seq<Seq<u32>>, n: nat) -> bool {
    forall|s: int| 0 <= s < sets.len() ==> (#[trigger] sets[s]).len() < n
}

/// Cut `c` is what merge `q` of the class's e-node `i` makes, and no earlier merge has its
/// leaves.
#[verifier::opaque]
pub open spec fn first_merge(
    graph: &ClassGraph,
    params: CutParams,
    kernels: Seq<Kernel>,
    cuts: Seq<Seq<CutView>>,
    rank: Seq<nat>,
    v: int,
    c: CutView,
    i: int,
    q: int,
) -> bool {
    let es = considered(graph, params, v);
    let k = params.k as nat;
    &&& 0 <= i < es.len()
    &&& built_earlier(graph, kernels, cuts, rank, v, es[i] as int)
    &&& 0 <= q < merges_of(graph, cuts, k, es[i] as int).len()
    &&& c == candidate(
        graph,
        kernels,
        cuts,
        es[i] as int,
        merges_of(graph, cuts, k, es[i] as int)[q],
    )
    &&& forall|a: int, b: int|
        0 <= a < es.len() && comes_before(a, b, i, q) && built_earlier(
            graph,
            kernels,
            cuts,
            rank,
            v,
            es[a] as int,
        ) && 0 <= b < merges_of(graph, cuts, k, es[a] as int).len() ==> (#[trigger] merges_of(
            graph,
            cuts,
            k,
            es[a] as int,
        )[b]).0 != c.leaves
}

/// Cut `c` is what a merge of an e-node of class `v` makes, the first one with its leaves.
pub open spec fn has_first_merge(
    graph: &ClassGraph,
    params: CutParams,
    kernels: Seq<Kernel>,
    cuts: Seq<Seq<CutView>>,
    rank: Seq<nat>,
    v: int,
    c: CutView,
) -> bool {
    exists|i: int, q: int| #[trigger]
        first_merge(graph, params, kernels, cuts, rank, v, c, i, q)
}

/// E-node `i` of class `v` was merged when the class was finished, and has a merge `q`.
pub open spec fn mergeable_at(
    graph: &ClassGraph,
    params: CutParams,
    kernels: Seq<Kernel>,
    cuts: Seq<Seq<CutView>>,
    rank: Seq<nat>,
    v: int,
    i: int,
    q: int,
) -> bool {
    &&& 0 <= i < considered(graph, params, v).len()
    &&& merged_at(graph, kernels, cuts, rank, v, considered(graph, params, v)[i] as int)
    &&& 0 <= q < merges_of(
        graph,
        cuts,
        params.k as nat,
        considered(graph, params, v)[i] as int,
    ).len()
}

spec fn every_kept(graph: &ClassGraph, params: CutParams, kernels: Seq<Kernel>, st: Sweep) -> bool {
    forall|v: int|
        0 <= v < graph.size() ==> #[trigger] all_kept(
            graph,
            params,
            kernels,
            st.cuts,
            st.rank,
            v,
        )
}

// ------------------------------------------------------------------------- pool

/// Some candidate has the given leaves.
spec fn has_leaves(cands: Seq<CutView>, leaves: Seq<u32>) -> bool {
    exists|i: int| 0 <= i < cands.len() && (#[trigger] cands[i]).leaves == leaves
}

/// The candidates only grow.
spec fn extends(a: Seq<CutView>, b: Seq<CutView>) -> bool {
    &&& a.len() <= b.len()
    &&& forall|i: int| 0 <= i < a.len() ==> #[trigger] b[i] == a[i]
}

proof fn lemma_has_extends(a: Seq<CutView>, b: Seq<CutView>, leaves: Seq<u32>)
    requires
        extends(a, b),
        has_leaves(a, leaves),
    ensures
        has_leaves(b, leaves),
{
    let i = choose|i: int| 0 <= i < a.len() && (#[trigger] a[i]).leaves == leaves;
    assert(b[i].leaves == leaves);
}

/// The candidates have different leaf sets.
spec fn distinct(cands: Seq<CutView>) -> bool {
    forall|i: int, j: int|
        0 <= i < j < cands.len() ==> (#[trigger] cands[i]).leaves != (#[trigger] cands[j]).leaves
}

/// The leaves of every candidate from `start` on are those of one of the first `n` merges.
spec fn from_merges(
    cands: Seq<CutView>,
    start: int,
    ms: Seq<(Seq<u32>, Seq<u32>)>,
    n: int,
) -> bool {
    forall|i: int|
        start <= i < cands.len() ==> exists|q: int|
            0 <= q < n && (#[trigger] cands[i]).leaves == (#[trigger] ms[q]).0
}

proof fn lemma_offer(p: Pool, c: CutView)
    ensures
        extends(p.cands, p.offer(c).cands),
        has_leaves(p.offer(c).cands, c.leaves),
        distinct(p.cands) ==> distinct(p.offer(c).cands),
        forall|i: int|
            p.cands.len() <= i < p.offer(c).cands.len() ==> (#[trigger] p.offer(c).cands[i]).leaves
                == c.leaves,
{
    let r = p.offer(c);
    if exists|i: int| first_with(p.cands, c.leaves, i) {
        let i = choose|i: int| first_with(p.cands, c.leaves, i);
        assert(r.cands[i].leaves == c.leaves);
    } else {
        assert(r.cands[p.cands.len() as int].leaves == c.leaves);
        if distinct(p.cands) {
            assert forall|i: int, j: int| 0 <= i < j < r.cands.len() implies (
            #[trigger] r.cands[i]).leaves != (#[trigger] r.cands[j]).leaves by {
                if j == p.cands.len() && r.cands[i].leaves == c.leaves {
                    lemma_first_with(p.cands, c.leaves, i);
                }
            }
        }
    }
}

proof fn lemma_first_with(cands: Seq<CutView>, leaves: Seq<u32>, i: int)
    requires
        0 <= i < cands.len(),
        cands[i].leaves == leaves,
    ensures
        exists|q: int| first_with(cands, leaves, q),
    decreases i,
{
    if exists|q: int| 0 <= q < i && (#[trigger] cands[q]).leaves == leaves {
        let q = choose|q: int| 0 <= q < i && (#[trigger] cands[q]).leaves == leaves;
        lemma_first_with(cands, leaves, q);
    } else {
        assert(first_with(cands, leaves, i));
    }
}

proof fn lemma_pool_merges(
    graph: &ClassGraph,
    kernels: Seq<Kernel>,
    cuts: Seq<Seq<CutView>>,
    e: int,
    ms: Seq<(Seq<u32>, Seq<u32>)>,
    n: nat,
    pool: Pool,
)
    requires
        n <= ms.len(),
    ensures
        pool_merges(graph, kernels, cuts, e, ms, n, pool) matches Some(p) ==> extends(
            pool.cands,
            p.cands,
        ) && (distinct(pool.cands) ==> distinct(p.cands)) && from_merges(
            p.cands,
            pool.cands.len() as int,
            ms,
            n as int,
        ) && forall|q: int| 0 <= q < n ==> has_leaves(p.cands, (#[trigger] ms[q]).0),
    decreases n,
{
    if n > 0 {
        lemma_pool_merges(graph, kernels, cuts, e, ms, (n - 1) as nat, pool);
        let prev = pool_merges(graph, kernels, cuts, e, ms, (n - 1) as nat, pool);
        let r = pool_merges(graph, kernels, cuts, e, ms, n, pool);
        if r is Some {
            let (a, b) = (prev->0, r->0);
            let c = candidate(graph, kernels, cuts, e, ms[n - 1]);
            lemma_offer(a, c);
            assert forall|q: int| 0 <= q < n implies has_leaves(b.cands, (#[trigger] ms[q]).0) by {
                if q < n - 1 {
                    lemma_has_extends(a.cands, b.cands, ms[q].0);
                }
            }
            assert forall|i: int| 0 <= i < pool.cands.len() implies #[trigger] b.cands[i]
                == pool.cands[i] by {
                assert(a.cands[i] == pool.cands[i]);
            }
            assert forall|i: int| pool.cands.len() <= i < b.cands.len() implies exists|q: int|
                0 <= q < n && (#[trigger] b.cands[i]).leaves == (#[trigger] ms[q]).0 by {
                if i < a.cands.len() {
                    assert(b.cands[i] == a.cands[i]);
                    let q = choose|q: int|
                        0 <= q < n - 1 && a.cands[i].leaves == (#[trigger] ms[q]).0;
                    assert(b.cands[i].leaves == ms[q].0);
                } else {
                    assert(b.cands[i].leaves == ms[n - 1].0);
                }
            }
        }
    }
}

/// One of the first `n` considered e-nodes is mergeable and merges to the given leaves.
spec fn pooled(
    graph: &ClassGraph,
    params: CutParams,
    kernels: Seq<Kernel>,
    cuts: Seq<Seq<CutView>>,
    done: Seq<bool>,
    si: int,
    v: int,
    n: int,
    leaves: Seq<u32>,
) -> bool {
    exists|i: int, q: int|
        0 <= i < n && mergeable(
            graph,
            kernels,
            si,
            done,
            considered(graph, params, v)[i] as int,
        ) && 0 <= q < merges_of(
            graph,
            cuts,
            params.k as nat,
            considered(graph, params, v)[i] as int,
        ).len() && #[trigger] merges_of(
            graph,
            cuts,
            params.k as nat,
            considered(graph, params, v)[i] as int,
        )[q].0 == leaves
}

/// Every merge of a mergeable e-node has its leaves in the pool, and the pool holds nothing
/// else.
proof fn lemma_pool_class(
    graph: &ClassGraph,
    params: CutParams,
    kernels: Seq<Kernel>,
    cuts: Seq<Seq<CutView>>,
    done: Seq<bool>,
    si: int,
    v: int,
    n: nat,
)
    requires
        n <= considered(graph, params, v).len(),
    ensures
        pool_class(graph, params, kernels, cuts, done, si, v, n) matches Some(p) ==> distinct(
            p.cands,
        ) && (forall|c: int|
            0 <= c < p.cands.len() ==> #[trigger] pooled(
                graph,
                params,
                kernels,
                cuts,
                done,
                si,
                v,
                n as int,
                p.cands[c].leaves,
            )) && forall|i: int, q: int|
            0 <= i < n && mergeable(
                graph,
                kernels,
                si,
                done,
                considered(graph, params, v)[i] as int,
            ) && 0 <= q < merges_of(
                graph,
                cuts,
                params.k as nat,
                considered(graph, params, v)[i] as int,
            ).len() ==> has_leaves(
                p.cands,
                #[trigger] merges_of(
                    graph,
                    cuts,
                    params.k as nat,
                    considered(graph, params, v)[i] as int,
                )[q].0,
            ),
    decreases n,
{
    if n > 0 {
        lemma_pool_class(graph, params, kernels, cuts, done, si, v, (n - 1) as nat);
        let prev = pool_class(graph, params, kernels, cuts, done, si, v, (n - 1) as nat);
        let r = pool_class(graph, params, kernels, cuts, done, si, v, n);
        if r is Some {
            let (a, b) = (prev->0, r->0);
            let es = considered(graph, params, v);
            let e = es[n - 1] as int;
            let ms = merges_of(graph, cuts, params.k as nat, e);
            if mergeable(graph, kernels, si, done, e) {
                lemma_pool_merges(graph, kernels, cuts, e, ms, ms.len(), a);
            }
            assert(extends(a.cands, b.cands));
            assert forall|c: int| 0 <= c < b.cands.len() implies #[trigger] pooled(
                graph,
                params,
                kernels,
                cuts,
                done,
                si,
                v,
                n as int,
                b.cands[c].leaves,
            ) by {
                if c < a.cands.len() {
                    assert(b.cands[c] == a.cands[c]);
                    assert(pooled(
                        graph,
                        params,
                        kernels,
                        cuts,
                        done,
                        si,
                        v,
                        n - 1,
                        a.cands[c].leaves,
                    ));
                    let (i, q) = choose|i: int, q: int|
                        0 <= i < n - 1 && mergeable(graph, kernels, si, done, es[i] as int) && 0
                            <= q < merges_of(graph, cuts, params.k as nat, es[i] as int).len()
                            && #[trigger] merges_of(
                            graph,
                            cuts,
                            params.k as nat,
                            es[i] as int,
                        )[q].0 == a.cands[c].leaves;
                    assert(merges_of(graph, cuts, params.k as nat, es[i] as int)[q].0
                        == b.cands[c].leaves);
                } else {
                    let q = choose|q: int|
                        0 <= q < ms.len() && b.cands[c].leaves == (#[trigger] ms[q]).0;
                    assert(merges_of(graph, cuts, params.k as nat, es[n - 1] as int)[q].0
                        == b.cands[c].leaves);
                }
            }
            assert forall|i: int, q: int|
                0 <= i < n && mergeable(graph, kernels, si, done, es[i] as int) && 0 <= q
                    < merges_of(graph, cuts, params.k as nat, es[i] as int).len() implies has_leaves(
                b.cands,
                #[trigger] merges_of(graph, cuts, params.k as nat, es[i] as int)[q].0,
            ) by {
                if i < n - 1 {
                    lemma_has_extends(
                        a.cands,
                        b.cands,
                        merges_of(graph, cuts, params.k as nat, es[i] as int)[q].0,
                    );
                } else {
                    assert(has_leaves(b.cands, ms[q].0));
                }
            }
        }
    }
}

// ------------------------------------------------------------------------ filter

proof fn lemma_inserted_has(s: Seq<CutView>, c: CutView, leaves: Seq<u32>)
    requires
        has_leaves(s, leaves) || c.leaves == leaves,
    ensures
        has_leaves(inserted(s, c), leaves),
    decreases s.len(),
{
    let r = inserted(s, c);
    if s.len() == 0 || !ranks_before(c, s.last()) {
        if c.leaves == leaves {
            assert(r[s.len() as int].leaves == leaves);
        } else {
            let i = choose|i: int| 0 <= i < s.len() && (#[trigger] s[i]).leaves == leaves;
            assert(r[i].leaves == leaves);
        }
    } else {
        let t = s.drop_last();
        let x = inserted(t, c);
        if s.last().leaves == leaves {
            assert(r[x.len() as int].leaves == leaves);
        } else {
            if c.leaves != leaves {
                let i = choose|i: int| 0 <= i < s.len() && (#[trigger] s[i]).leaves == leaves;
                assert(t[i].leaves == leaves);
            }
            lemma_inserted_has(t, c, leaves);
            let i = choose|i: int| 0 <= i < x.len() && (#[trigger] x[i]).leaves == leaves;
            assert(r[i].leaves == leaves);
        }
    }
}

proof fn lemma_ranked_has(s: Seq<CutView>, leaves: Seq<u32>)
    requires
        has_leaves(s, leaves),
    ensures
        has_leaves(ranked(s), leaves),
    decreases s.len(),
{
    let t = s.drop_last();
    let i = choose|i: int| 0 <= i < s.len() && (#[trigger] s[i]).leaves == leaves;
    if i < s.len() - 1 {
        assert(t[i].leaves == leaves);
        lemma_ranked_has(t, leaves);
    }
    lemma_inserted_has(ranked(t), s.last(), leaves);
}

proof fn lemma_ranked_len(s: Seq<CutView>)
    ensures
        ranked(s).len() == s.len(),
    decreases s.len(),
{
    if s.len() > 0 {
        lemma_ranked_len(s.drop_last());
        lemma_inserted_len(ranked(s.drop_last()), s.last());
    }
}

proof fn lemma_inserted_len(s: Seq<CutView>, c: CutView)
    ensures
        inserted(s, c).len() == s.len() + 1,
    decreases s.len(),
{
    if s.len() > 0 && ranks_before(c, s.last()) {
        lemma_inserted_len(s.drop_last(), c);
    }
}

proof fn lemma_undominated_covers(s: Seq<CutView>, leaves: Seq<u32>)
    requires
        has_leaves(s, leaves),
    ensures
        dominated(undominated(s), leaves),
    decreases s.len(),
{
    let t = s.drop_last();
    let kept = undominated(t);
    let u = undominated(s);
    let i = choose|i: int| 0 <= i < s.len() && (#[trigger] s[i]).leaves == leaves;
    if i < s.len() - 1 {
        assert(t[i].leaves == leaves);
        lemma_undominated_covers(t, leaves);
        let k = choose|k: int| 0 <= k < kept.len() && subset((#[trigger] kept[k]).leaves, leaves);
        assert(u[k] == kept[k]);
        assert(subset(u[k].leaves, leaves));
    } else if !dominated(kept, leaves) {
        let k = kept.len() as int;
        assert(u[k] == s.last());
        assert forall|x: int| 0 <= x < leaves.len() implies leaves.contains(
            #[trigger] u[k].leaves[x],
        ) by {
            assert(leaves[x] == u[k].leaves[x]);
        }
        assert(subset(u[k].leaves, leaves));
    }
}

// ----------------------------------------------------------------------- sweeps

/// Class `v` is finished next, and nothing else changes.
spec fn finishes(graph: &ClassGraph, st: Sweep, next: Sweep, v: u32) -> bool {
    &&& v < graph.size()
    &&& !st.done[v as int]
    &&& next.cuts.len() == st.cuts.len()
    &&& next.rank.len() == st.rank.len()
    &&& next.rank[v as int] == st.clock
    &&& forall|x: int|
        0 <= x < graph.size() && x != v ==> #[trigger] next.cuts[x] == st.cuts[x] && next.rank[x]
            == st.rank[x]
}

/// What was built earlier stays so, over the same cuts.
proof fn lemma_built_stays(
    graph: &ClassGraph,
    params: CutParams,
    kernels: Seq<Kernel>,
    cone: Seq<bool>,
    st: Sweep,
    next: Sweep,
    v: u32,
    w: int,
    e: int,
)
    requires
        enumerable(graph, params, kernels, cone),
        sweep_ok(graph, params, kernels, cone, st),
        finishes(graph, st, next, v),
        0 <= w < graph.size(),
        w != v,
        st.cuts[w].len() > 0,
        0 <= e < graph.enodes@.len(),
    ensures
        built_earlier(graph, kernels, next.cuts, next.rank, w, e) == built_earlier(
            graph,
            kernels,
            st.cuts,
            st.rank,
            w,
            e,
        ),
        built_earlier(graph, kernels, st.cuts, st.rank, w, e) ==> merges_of(
            graph,
            next.cuts,
            params.k as nat,
            e,
        ) == merges_of(graph, st.cuts, params.k as nat, e) && merged_at(
            graph,
            kernels,
            next.cuts,
            next.rank,
            w,
            e,
        ) == merged_at(graph, kernels, st.cuts, st.rank, w, e),
{
    assert(st.rank[w] < st.clock);
    assert(next.cuts[w] == st.cuts[w]);
    let (x, y) = (
        built_earlier(graph, kernels, st.cuts, st.rank, w, e),
        built_earlier(graph, kernels, next.cuts, next.rank, w, e),
    );
    let ch = graph.children(e);
    if x || y {
        assert forall|j: int| 0 <= j < ch.len() implies {
            let c = #[trigger] ch[j] as int;
            c != v && next.cuts[c] == st.cuts[c] && next.rank[c] == st.rank[c]
        } by {
            let c = ch[j] as int;
            assert(graph.enodes@[e].ch_eq@[j] < graph.size());
            assert(c == graph.children(e)[j] as int);
            if x {
                assert(st.cuts[c].len() > 0 && st.rank[c] < st.rank[w]);
            } else {
                assert(next.cuts[c].len() > 0 && next.rank[c] < next.rank[w]);
            }
            if c != v {
                assert(next.cuts[c] == st.cuts[c]);
            }
        }
        assert(x == y) by {
            if x {
                assert forall|j: int| 0 <= j < graph.children(e).len() implies {
                    let c = #[trigger] graph.children(e)[j] as int;
                    next.cuts[c].len() > 0 && next.rank[c] < next.rank[w]
                } by {
                    assert(ch[j] as int != v);
                }
            } else {
                assert forall|j: int| 0 <= j < graph.children(e).len() implies {
                    let c = #[trigger] graph.children(e)[j] as int;
                    st.cuts[c].len() > 0 && st.rank[c] < st.rank[w]
                } by {
                    assert(ch[j] as int != v);
                }
            }
        }
        lemma_same_merges(graph, params, st.cuts, next.cuts, e);
        let si = graph.scc_of@[w] as int;
        if waited(graph, kernels, st.cuts, si, e) {
            let j = choose|j: int|
                0 <= j < graph.children(e).len() && graph.scc_of@[
                    #[trigger] graph.children(e)[j] as int
                ] == si && st.cuts[graph.children(e)[j] as int].len() == 1 && kind_of(
                    graph,
                    kernels,
                    graph.children(e)[j] as int,
                ) == Some(ClassKind::Internal);
            assert(ch[j] as int != v);
            assert(waited(graph, kernels, next.cuts, si, e));
        }
        if waited(graph, kernels, next.cuts, si, e) {
            let j = choose|j: int|
                0 <= j < graph.children(e).len() && graph.scc_of@[
                    #[trigger] graph.children(e)[j] as int
                ] == si && next.cuts[graph.children(e)[j] as int].len() == 1 && kind_of(
                    graph,
                    kernels,
                    graph.children(e)[j] as int,
                ) == Some(ClassKind::Internal);
            assert(ch[j] as int != v);
            assert(waited(graph, kernels, st.cuts, si, e));
        }
    }
}

/// Merged leaf sets stay what they are.
proof fn lemma_merges_stay(
    graph: &ClassGraph,
    params: CutParams,
    kernels: Seq<Kernel>,
    cone: Seq<bool>,
    st: Sweep,
    next: Sweep,
    v: u32,
    w: int,
    sets: Seq<Seq<u32>>,
)
    requires
        enumerable(graph, params, kernels, cone),
        sweep_ok(graph, params, kernels, cone, st),
        finishes(graph, st, next, v),
        0 <= w < graph.size(),
        w != v,
        st.cuts[w].len() > 0,
    ensures
        merged_sets(graph, params, kernels, st.cuts, st.rank, w, sets) == merged_sets(
            graph,
            params,
            kernels,
            next.cuts,
            next.rank,
            w,
            sets,
        ),
{
    let (x, y) = (st.cuts, next.cuts);
    if merged_sets(graph, params, kernels, x, st.rank, w, sets) {
        assert forall|s: int| 0 <= s < sets.len() implies merges_to(
            graph,
            params,
            kernels,
            y,
            next.rank,
            w,
            #[trigger] sets[s],
        ) by {
            lemma_merge_stays(graph, params, kernels, cone, st, next, v, w, sets[s]);
        }
    }
    if merged_sets(graph, params, kernels, y, next.rank, w, sets) {
        assert forall|s: int| 0 <= s < sets.len() implies merges_to(
            graph,
            params,
            kernels,
            x,
            st.rank,
            w,
            #[trigger] sets[s],
        ) by {
            lemma_merge_stays(graph, params, kernels, cone, st, next, v, w, sets[s]);
        }
    }
}

proof fn lemma_merge_stays(
    graph: &ClassGraph,
    params: CutParams,
    kernels: Seq<Kernel>,
    cone: Seq<bool>,
    st: Sweep,
    next: Sweep,
    v: u32,
    w: int,
    set: Seq<u32>,
)
    requires
        enumerable(graph, params, kernels, cone),
        sweep_ok(graph, params, kernels, cone, st),
        finishes(graph, st, next, v),
        0 <= w < graph.size(),
        w != v,
        st.cuts[w].len() > 0,
    ensures
        merges_to(graph, params, kernels, st.cuts, st.rank, w, set) == merges_to(
            graph,
            params,
            kernels,
            next.cuts,
            next.rank,
            w,
            set,
        ),
{
    let es = considered(graph, params, w);
    let k = params.k as nat;
    if merges_to(graph, params, kernels, st.cuts, st.rank, w, set) {
        let (i, q) = choose|i: int, q: int|
            0 <= i < es.len() && built_earlier(
                graph,
                kernels,
                st.cuts,
                st.rank,
                w,
                es[i] as int,
            ) && 0 <= q < merges_of(graph, st.cuts, k, es[i] as int).len()
                && #[trigger] merges_of(graph, st.cuts, k, es[i] as int)[q].0 == set;
        lemma_considered(graph, params, w, i);
        lemma_built_stays(graph, params, kernels, cone, st, next, v, w, es[i] as int);
        assert(merges_of(graph, next.cuts, k, es[i] as int)[q].0 == set);
    }
    if merges_to(graph, params, kernels, next.cuts, next.rank, w, set) {
        let (i, q) = choose|i: int, q: int|
            0 <= i < es.len() && built_earlier(
                graph,
                kernels,
                next.cuts,
                next.rank,
                w,
                es[i] as int,
            ) && 0 <= q < merges_of(graph, next.cuts, k, es[i] as int).len()
                && #[trigger] merges_of(graph, next.cuts, k, es[i] as int)[q].0 == set;
        lemma_considered(graph, params, w, i);
        lemma_built_stays(graph, params, kernels, cone, st, next, v, w, es[i] as int);
        assert(merges_of(graph, st.cuts, k, es[i] as int)[q].0 == set);
    }
}

/// What an e-node makes depends on the cuts of its children only.
proof fn lemma_same_candidate(
    graph: &ClassGraph,
    kernels: Seq<Kernel>,
    a: Seq<Seq<CutView>>,
    b: Seq<Seq<CutView>>,
    e: int,
    p: (Seq<u32>, Seq<u32>),
)
    requires
        forall|j: int|
            0 <= j < graph.children(e).len() ==> {
                let c = #[trigger] graph.children(e)[j] as int;
                a[c] == b[c]
            },
    ensures
        candidate(graph, kernels, a, e, p) == candidate(graph, kernels, b, e, p),
{
    let x = operands(graph, a, e, p.1);
    let y = operands(graph, b, e, p.1);
    assert forall|d: int| 0 <= d < x.len() implies x[d] == y[d] by {
        let c = graph.children(e)[d] as int;
        assert(a[c] == b[c]);
    }
    assert(x =~= y);
}

/// The children of an e-node that was built earlier keep their cuts.
proof fn lemma_children_keep(
    graph: &ClassGraph,
    params: CutParams,
    kernels: Seq<Kernel>,
    cone: Seq<bool>,
    st: Sweep,
    next: Sweep,
    v: u32,
    w: int,
    e: int,
)
    requires
        enumerable(graph, params, kernels, cone),
        sweep_ok(graph, params, kernels, cone, st),
        finishes(graph, st, next, v),
        built_earlier(graph, kernels, st.cuts, st.rank, w, e),
        0 <= e < graph.enodes@.len(),
    ensures
        forall|j: int|
            0 <= j < graph.children(e).len() ==> {
                let c = #[trigger] graph.children(e)[j] as int;
                st.cuts[c] == next.cuts[c]
            },
{
    assert forall|j: int| 0 <= j < graph.children(e).len() implies {
        let c = #[trigger] graph.children(e)[j] as int;
        st.cuts[c] == next.cuts[c]
    } by {
        let c = graph.children(e)[j] as int;
        assert(graph.enodes@[e].ch_eq@[j] < graph.size());
        assert(st.cuts[c].len() > 0);
        assert(st.done[c]);
        assert(c != v);
    }
}

/// A first merge stays one.
proof fn lemma_first_stays(
    graph: &ClassGraph,
    params: CutParams,
    kernels: Seq<Kernel>,
    cone: Seq<bool>,
    st: Sweep,
    next: Sweep,
    v: u32,
    w: int,
    c: CutView,
)
    requires
        enumerable(graph, params, kernels, cone),
        sweep_ok(graph, params, kernels, cone, st),
        finishes(graph, st, next, v),
        0 <= w < graph.size(),
        w != v,
        st.cuts[w].len() > 0,
        has_first_merge(graph, params, kernels, st.cuts, st.rank, w, c),
    ensures
        has_first_merge(graph, params, kernels, next.cuts, next.rank, w, c),
{
    reveal(first_merge);
    let es = considered(graph, params, w);
    let k = params.k as nat;
    let (i, q) = choose|i: int, q: int| #[trigger]
        first_merge(graph, params, kernels, st.cuts, st.rank, w, c, i, q);
    let e = es[i] as int;
    lemma_considered(graph, params, w, i);
    lemma_built_stays(graph, params, kernels, cone, st, next, v, w, e);
    lemma_children_keep(graph, params, kernels, cone, st, next, v, w, e);
    lemma_same_candidate(
        graph,
        kernels,
        st.cuts,
        next.cuts,
        e,
        merges_of(graph, st.cuts, k, e)[q],
    );
    assert forall|a: int, b: int|
        0 <= a < es.len() && comes_before(a, b, i, q) && built_earlier(
            graph,
            kernels,
            next.cuts,
            next.rank,
            w,
            es[a] as int,
        ) && 0 <= b < merges_of(graph, next.cuts, k, es[a] as int).len() implies (
    #[trigger] merges_of(graph, next.cuts, k, es[a] as int)[b]).0 != c.leaves by {
        lemma_considered(graph, params, w, a);
        lemma_built_stays(graph, params, kernels, cone, st, next, v, w, es[a] as int);
        assert(merges_of(graph, st.cuts, k, es[a] as int)[b].0 != c.leaves);
    }
    assert(first_merge(graph, params, kernels, next.cuts, next.rank, w, c, i, q));
}

/// Finishing class `v` takes nothing from the others.
proof fn lemma_others_kept(
    graph: &ClassGraph,
    params: CutParams,
    kernels: Seq<Kernel>,
    cone: Seq<bool>,
    st: Sweep,
    next: Sweep,
    v: u32,
    w: int,
)
    requires
        enumerable(graph, params, kernels, cone),
        sweep_ok(graph, params, kernels, cone, st),
        every_kept(graph, params, kernels, st),
        finishes(graph, st, next, v),
        0 <= w < graph.size(),
        w != v,
    ensures
        all_kept(graph, params, kernels, next.cuts, next.rank, w),
{
    assert(all_kept(graph, params, kernels, st.cuts, st.rank, w));
    assert(next.cuts[w] == st.cuts[w]);
    let es = considered(graph, params, w);
    if st.cuts[w].len() > 0 && kind_of(graph, kernels, w) == Some(ClassKind::Internal) {
        assert forall|x: int, sets: Seq<Seq<u32>>|
            1 <= x < next.cuts[w].len() && #[trigger] merged_sets(
                graph,
                params,
                kernels,
                next.cuts,
                next.rank,
                w,
                sets,
            ) && all_smaller(sets, (#[trigger] next.cuts[w][x]).leaves.len()) implies sets.len()
            < params.cand_cap by {
            lemma_merges_stay(graph, params, kernels, cone, st, next, v, w, sets);
            assert(all_smaller(sets, st.cuts[w][x].leaves.len()));
        }
        assert forall|x: int| 1 <= x < next.cuts[w].len() implies has_first_merge(
            graph,
            params,
            kernels,
            next.cuts,
            next.rank,
            w,
            #[trigger] next.cuts[w][x],
        ) by {
            assert(has_first_merge(
                graph,
                params,
                kernels,
                st.cuts,
                st.rank,
                w,
                st.cuts[w][x],
            ));
            lemma_first_stays(
                graph,
                params,
                kernels,
                cone,
                st,
                next,
                v,
                w,
                st.cuts[w][x],
            );
        }
        assert forall|i: int, q: int|
            mergeable_at(graph, params, kernels, next.cuts, next.rank, w, i, q)
            implies #[trigger] merge_beaten(graph, params, next.cuts, w, i, q) by {
            lemma_considered(graph, params, w, i);
            lemma_built_stays(graph, params, kernels, cone, st, next, v, w, es[i] as int);
            assert(mergeable_at(graph, params, kernels, st.cuts, st.rank, w, i, q));
            assert(merge_beaten(graph, params, st.cuts, w, i, q));
        }
        if uncapped(graph, params, kernels, next.cuts, next.rank, w) {
            assert forall|sets: Seq<Seq<u32>>| #[trigger]
                merged_sets(graph, params, kernels, st.cuts, st.rank, w, sets) implies sets.len()
                <= params.cand_cap by {
                lemma_merges_stay(graph, params, kernels, cone, st, next, v, w, sets);
            }
            assert(uncapped(graph, params, kernels, st.cuts, st.rank, w));
            assert forall|i: int, q: int|
                mergeable_at(graph, params, kernels, next.cuts, next.rank, w, i, q)
                implies #[trigger] merge_kept(graph, params, next.cuts, w, i, q) by {
                lemma_considered(graph, params, w, i);
                lemma_built_stays(graph, params, kernels, cone, st, next, v, w, es[i] as int);
                assert(mergeable_at(graph, params, kernels, st.cuts, st.rank, w, i, q));
                assert(merge_kept(graph, params, st.cuts, w, i, q));
            }
        }
    }
}

proof fn lemma_considered(graph: &ClassGraph, params: CutParams, v: int, i: int)
    requires
        graph.wf(),
        0 <= v < graph.size(),
        0 <= i < considered(graph, params, v).len(),
    ensures
        considered(graph, params, v)[i] < graph.enodes@.len(),
{
    assert(graph.enodes_of@[v]@[i] < graph.enodes@.len());
}

/// Merges depend on the cuts of the children only.
proof fn lemma_same_merges(
    graph: &ClassGraph,
    params: CutParams,
    a: Seq<Seq<CutView>>,
    b: Seq<Seq<CutView>>,
    e: int,
)
    requires
        forall|j: int|
            0 <= j < graph.children(e).len() ==> {
                let c = #[trigger] graph.children(e)[j] as int;
                a[c] == b[c]
            },
    ensures
        merges_of(graph, a, params.k as nat, e) == merges_of(graph, b, params.k as nat, e),
{
    let x = operand_leaves(graph, a, e);
    let y = operand_leaves(graph, b, e);
    assert forall|d: int| 0 <= d < x.len() implies x[d] == y[d] by {
        let c = graph.children(e)[d] as int;
        assert(a[c] == b[c]);
    }
    assert(x =~= y);
}

/// Without cuts of some child there are no merges.
proof fn lemma_no_unions(
    lists: Seq<Seq<Seq<u32>>>,
    k: nat,
    depth: nat,
    acc: Seq<u32>,
    chosen: Seq<u32>,
    d: int,
)
    requires
        depth <= d < lists.len(),
        lists[d].len() == 0,
    ensures
        unions(lists, k, depth, acc, chosen).len() == 0,
    decreases lists.len() - depth, lists[depth as int].len() + 1,
{
    lemma_no_unions_upto(lists, k, depth, acc, chosen, lists[depth as int].len(), d);
}

proof fn lemma_no_unions_upto(
    lists: Seq<Seq<Seq<u32>>>,
    k: nat,
    depth: nat,
    acc: Seq<u32>,
    chosen: Seq<u32>,
    n: nat,
    d: int,
)
    requires
        depth <= d < lists.len(),
        lists[d].len() == 0,
        n <= lists[depth as int].len(),
    ensures
        unions_upto(lists, k, depth, acc, chosen, n).len() == 0,
    decreases lists.len() - depth, n,
{
    if n > 0 {
        lemma_no_unions_upto(lists, k, depth, acc, chosen, (n - 1) as nat, d);
        let sum = merged(acc, lists[depth as int][n - 1]);
        lemma_no_unions(lists, k, depth + 1, sum, chosen.push((n - 1) as u32), d);
    }
}

/// An e-node with merges has children with cuts.
proof fn lemma_merges_need_cuts(
    graph: &ClassGraph,
    params: CutParams,
    cuts: Seq<Seq<CutView>>,
    e: int,
    j: int,
)
    requires
        merges_of(graph, cuts, params.k as nat, e).len() > 0,
        0 <= j < graph.children(e).len(),
    ensures
        cuts[graph.children(e)[j] as int].len() > 0,
{
    let lists = operand_leaves(graph, cuts, e);
    if cuts[graph.children(e)[j] as int].len() == 0 {
        assert(lists[j].len() == 0);
        lemma_no_unions(lists, params.k as nat, 0, Seq::empty(), Seq::empty(), j);
    }
}

/// What the pool holds are merges of e-nodes over classes that were finished earlier.
proof fn lemma_pool_merged(
    graph: &ClassGraph,
    params: CutParams,
    kernels: Seq<Kernel>,
    cone: Seq<bool>,
    si: int,
    st: Sweep,
    next: Sweep,
    v: u32,
    p: Pool,
)
    requires
        enumerable(graph, params, kernels, cone),
        sweep_ok(graph, params, kernels, cone, st),
        finishes(graph, st, next, v),
        pool_class(
            graph,
            params,
            kernels,
            st.cuts,
            st.done,
            si,
            v as int,
            considered(graph, params, v as int).len(),
        ) == Some(p),
    ensures
        merged_sets(
            graph,
            params,
            kernels,
            next.cuts,
            next.rank,
            v as int,
            Seq::new(p.cands.len(), |c: int| p.cands[c].leaves),
        ),
{
    let es = considered(graph, params, v as int);
    let sets = Seq::new(p.cands.len(), |c: int| p.cands[c].leaves);
    lemma_pool_class(graph, params, kernels, st.cuts, st.done, si, v as int, es.len());
    assert forall|s: int| 0 <= s < sets.len() implies merges_to(
        graph,
        params,
        kernels,
        next.cuts,
        next.rank,
        v as int,
        #[trigger] sets[s],
    ) by {
        assert(pooled(
            graph,
            params,
            kernels,
            st.cuts,
            st.done,
            si,
            v as int,
            es.len() as int,
            p.cands[s].leaves,
        ));
        let (i, q) = choose|i: int, q: int|
            0 <= i < es.len() && mergeable(graph, kernels, si, st.done, es[i] as int) && 0 <= q
                < merges_of(graph, st.cuts, params.k as nat, es[i] as int).len()
                && #[trigger] merges_of(graph, st.cuts, params.k as nat, es[i] as int)[q].0
                == p.cands[s].leaves;
        let e = es[i] as int;
        lemma_considered(graph, params, v as int, i);
        assert forall|j: int| 0 <= j < graph.children(e).len() implies {
            let c = #[trigger] graph.children(e)[j] as int;
            next.cuts[c] == st.cuts[c] && next.cuts[c].len() > 0 && next.rank[c]
                < next.rank[v as int]
        } by {
            let c = graph.children(e)[j] as int;
            assert(graph.enodes@[e].ch_eq@[j] < graph.size());
            lemma_merges_need_cuts(graph, params, st.cuts, e, j);
            assert(st.done[c]);
            assert(st.rank[c] < st.clock);
            assert(next.cuts[c] == st.cuts[c]);
        }
        lemma_same_merges(graph, params, st.cuts, next.cuts, e);
        assert(built_earlier(graph, kernels, next.cuts, next.rank, v as int, e));
        assert(merges_of(graph, next.cuts, params.k as nat, es[i] as int)[q].0 == sets[s]);
    }
    assert forall|i: int, j: int| 0 <= i < sets.len() && 0 <= j < sets.len() && i != j implies sets[i]
        != sets[j] by {
        if i < j {
            assert(p.cands[i].leaves != p.cands[j].leaves);
        } else {
            assert(p.cands[j].leaves != p.cands[i].leaves);
        }
    }
}

/// A class that is finished by merging keeps whatever can be merged.
proof fn lemma_merged_kept(
    graph: &ClassGraph,
    params: CutParams,
    kernels: Seq<Kernel>,
    cone: Seq<bool>,
    si: int,
    st: Sweep,
    next: Sweep,
    v: u32,
    p: Pool,
)
    requires
        enumerable(graph, params, kernels, cone),
        sweep_ok(graph, params, kernels, cone, st),
        v < graph.size(),
        !st.done[v as int],
        pool_class(
            graph,
            params,
            kernels,
            st.cuts,
            st.done,
            si,
            v as int,
            considered(graph, params, v as int).len(),
        ) == Some(p),
        next.cuts == st.cuts.update(v as int, seq![self_cut(v)] + survivors(p.cands, params)),
        next.rank == st.rank.update(v as int, st.clock),
    ensures
        all_kept(graph, params, kernels, next.cuts, next.rank, v as int),
{
    let es = considered(graph, params, v as int);
    let list = next.cuts[v as int];
    let sv = survivors(p.cands, params);
    assert(finishes(graph, st, next, v));
    assert(list.drop_first() =~= sv);
    lemma_pool_class(graph, params, kernels, st.cuts, st.done, si, v as int, es.len());
    assert forall|i: int, q: int|
        mergeable_at(graph, params, kernels, next.cuts, next.rank, v as int, i, q)
        implies has_leaves(
        p.cands,
        #[trigger] merges_of(graph, next.cuts, params.k as nat, es[i] as int)[q].0,
    ) by {
        let e = es[i] as int;
        lemma_considered(graph, params, v as int, i);
        lemma_built_mergeable(graph, params, kernels, cone, si, st, next, v, e);
        assert(has_leaves(p.cands, merges_of(graph, st.cuts, params.k as nat, e)[q].0));
    }
    assert forall|x: int, sets: Seq<Seq<u32>>|
        1 <= x < next.cuts[v as int].len() && #[trigger] merged_sets(
            graph,
            params,
            kernels,
            next.cuts,
            next.rank,
            v as int,
            sets,
        ) && all_smaller(sets, (#[trigger] next.cuts[v as int][x]).leaves.len()) implies sets.len()
        < params.cand_cap by {
        assert(list[x] == sv[x - 1]);
        assert forall|s: int| 0 <= s < sets.len() implies has_leaves(
            p.cands,
            #[trigger] sets[s],
        ) by {
            assert(merges_to(graph, params, kernels, next.cuts, next.rank, v as int, sets[s]));
            let (i, q) = choose|i: int, q: int|
                0 <= i < es.len() && built_earlier(
                    graph,
                    kernels,
                    next.cuts,
                    next.rank,
                    v as int,
                    es[i] as int,
                ) && 0 <= q < merges_of(graph, next.cuts, params.k as nat, es[i] as int).len()
                    && #[trigger] merges_of(
                    graph,
                    next.cuts,
                    params.k as nat,
                    es[i] as int,
                )[q].0 == sets[s];
            assert(mergeable_at(
                graph,
                params,
                kernels,
                next.cuts,
                next.rank,
                v as int,
                i,
                q,
            ));
        }
        lemma_survivor_early(p.cands, params, x - 1, sets);
    }
    lemma_pool_first(graph, params, kernels, st, si, v as int, es.len());
    lemma_survivors_known(p.cands, params);
    assert forall|x: int| 1 <= x < list.len() implies has_first_merge(
        graph,
        params,
        kernels,
        next.cuts,
        next.rank,
        v as int,
        #[trigger] next.cuts[v as int][x],
    ) by {
        assert(list[x] == sv[x - 1]);
        assert(p.cands.contains(sv[x - 1]));
        let c = choose|c: int| 0 <= c < p.cands.len() && p.cands[c] == sv[x - 1];
        assert(is_first(
            graph,
            params,
            kernels,
            st,
            si,
            v as int,
            p.cands[c],
            es.len() as int,
            0,
        ));
        lemma_merged_first(
            graph,
            params,
            kernels,
            cone,
            si,
            st,
            next,
            v,
            p.cands[c],
            es.len() as int,
            0,
        );
    }
    assert forall|i: int, q: int|
        mergeable_at(graph, params, kernels, next.cuts, next.rank, v as int, i, q)
        implies #[trigger] merge_beaten(graph, params, next.cuts, v as int, i, q) by {
        let leaves = merges_of(graph, next.cuts, params.k as nat, es[i] as int)[q].0;
        assert(has_leaves(p.cands, leaves));
        lemma_survivors_beat(p.cands, params, leaves);
        if !dominated(sv, leaves) {
            assert forall|c: int| 1 <= c < list.len() implies (#[trigger] next.cuts[v as int][c]).leaves.len()
                <= leaves.len() by {
                assert(list[c] == sv[c - 1]);
            }
        }
    }
    if uncapped(graph, params, kernels, next.cuts, next.rank, v as int) {
        lemma_pool_merged(graph, params, kernels, cone, si, st, next, v, p);
        let r = ranked(p.cands);
        lemma_ranked_len(p.cands);
        assert(r.take(least(params.cand_cap as nat, r.len()) as int) =~= r);
        let u = undominated(r);
        assert(sv.len() < params.max_cuts - 1);
        assert(sv =~= u);
        assert forall|i: int, q: int|
            mergeable_at(graph, params, kernels, next.cuts, next.rank, v as int, i, q)
            implies #[trigger] merge_kept(graph, params, next.cuts, v as int, i, q) by {
            let leaves = merges_of(graph, next.cuts, params.k as nat, es[i] as int)[q].0;
            assert(has_leaves(p.cands, leaves));
            lemma_ranked_has(p.cands, leaves);
            lemma_undominated_covers(r, leaves);
        }
    }
}

/// An e-node over classes that were finished earlier could be merged.
proof fn lemma_built_mergeable(
    graph: &ClassGraph,
    params: CutParams,
    kernels: Seq<Kernel>,
    cone: Seq<bool>,
    si: int,
    st: Sweep,
    next: Sweep,
    v: u32,
    e: int,
)
    requires
        enumerable(graph, params, kernels, cone),
        sweep_ok(graph, params, kernels, cone, st),
        finishes(graph, st, next, v),
        0 <= e < graph.enodes@.len(),
        built_earlier(graph, kernels, next.cuts, next.rank, v as int, e),
    ensures
        mergeable(graph, kernels, si, st.done, e),
        merges_of(graph, st.cuts, params.k as nat, e) == merges_of(
            graph,
            next.cuts,
            params.k as nat,
            e,
        ),
{
    assert forall|j: int| 0 <= j < graph.children(e).len() implies {
        let c = #[trigger] graph.children(e)[j] as int;
        st.cuts[c] == next.cuts[c] && st.done[c]
    } by {
        let c = graph.children(e)[j] as int;
        assert(graph.enodes@[e].ch_eq@[j] < graph.size());
        assert(next.rank[c] < next.rank[v as int]);
        assert(c != v);
        assert(next.cuts[c] == st.cuts[c]);
        assert(st.cuts[c].len() > 0);
        assert(st.done[c]);
    }
    assert(enode_ready(graph, si, st.done, e)) by {
        assert forall|j: int| 0 <= j < graph.children(e).len() implies ready(
            graph,
            si,
            st.done,
            #[trigger] graph.children(e)[j],
        ) by {
            let c = graph.children(e)[j] as int;
            assert(st.cuts[c] == next.cuts[c] && st.done[c]);
        }
    }
    lemma_same_merges(graph, params, st.cuts, next.cuts, e);
}

/// A cut that was first taken has a first merge once its class is finished.
proof fn lemma_merged_first(
    graph: &ClassGraph,
    params: CutParams,
    kernels: Seq<Kernel>,
    cone: Seq<bool>,
    si: int,
    st: Sweep,
    next: Sweep,
    v: u32,
    c: CutView,
    n: int,
    m: int,
)
    requires
        enumerable(graph, params, kernels, cone),
        sweep_ok(graph, params, kernels, cone, st),
        finishes(graph, st, next, v),
        is_first(graph, params, kernels, st, si, v as int, c, n, m),
    ensures
        has_first_merge(graph, params, kernels, next.cuts, next.rank, v as int, c),
{
    reveal(first_taken);
    reveal(first_merge);
    let es = considered(graph, params, v as int);
    let k = params.k as nat;
    let (i, q) = choose|i: int, q: int|
        comes_before(i, q, n, m) && #[trigger] first_taken(
            graph,
            params,
            kernels,
            st,
            si,
            v as int,
            c,
            i,
            q,
        );
    let e = es[i] as int;
    lemma_considered(graph, params, v as int, i);
    assert forall|j: int| 0 <= j < graph.children(e).len() implies {
        let d = #[trigger] graph.children(e)[j] as int;
        st.cuts[d] == next.cuts[d] && next.cuts[d].len() > 0 && next.rank[d]
            < next.rank[v as int]
    } by {
        let d = graph.children(e)[j] as int;
        assert(graph.enodes@[e].ch_eq@[j] < graph.size());
        lemma_merges_need_cuts(graph, params, st.cuts, e, j);
        assert(st.done[d]);
        assert(st.rank[d] < st.clock);
        assert(next.cuts[d] == st.cuts[d]);
    }
    lemma_same_merges(graph, params, st.cuts, next.cuts, e);
    lemma_same_candidate(
        graph,
        kernels,
        st.cuts,
        next.cuts,
        e,
        merges_of(graph, st.cuts, k, e)[q],
    );
    assert(built_earlier(graph, kernels, next.cuts, next.rank, v as int, e));
    assert forall|a: int, b: int|
        0 <= a < es.len() && comes_before(a, b, i, q) && built_earlier(
            graph,
            kernels,
            next.cuts,
            next.rank,
            v as int,
            es[a] as int,
        ) && 0 <= b < merges_of(graph, next.cuts, k, es[a] as int).len() implies (
    #[trigger] merges_of(graph, next.cuts, k, es[a] as int)[b]).0 != c.leaves by {
        lemma_considered(graph, params, v as int, a);
        lemma_built_mergeable(graph, params, kernels, cone, si, st, next, v, es[a] as int);
        assert(open_at(graph, params, kernels, st, si, v as int, a));
        assert(merges_of(graph, st.cuts, k, es[a] as int)[b].0 != c.leaves);
    }
    assert(first_merge(graph, params, kernels, next.cuts, next.rank, v as int, c, i, q));
}

/// A survivor was among the first candidates by rank.
proof fn lemma_survivor_early(
    cands: Seq<CutView>,
    params: CutParams,
    x: int,
    sets: Seq<Seq<u32>>,
)
    requires
        0 <= x < survivors(cands, params).len(),
        sets.no_duplicates(),
        forall|s: int| 0 <= s < sets.len() ==> has_leaves(cands, #[trigger] sets[s]),
        all_smaller(sets, survivors(cands, params)[x].leaves.len()),
    ensures
        sets.len() < params.cand_cap,
{
    let r = ranked(cands);
    lemma_ranked_sorted(cands);
    let n = least(params.cand_cap as nat, r.len()) as int;
    let t = r.take(n);
    assert forall|i: int, j: int| 0 <= i < j < t.len() implies !ranks_before(
        #[trigger] t[j],
        #[trigger] t[i],
    ) by {
        assert(t[i] == r[i] && t[j] == r[j]);
    }
    lemma_undominated_sorted(t);
    let u = undominated(t);
    let c = survivors(cands, params)[x];
    assert(c == u[x]);
    assert(t.contains(u[x]));
    let y = choose|y: int| 0 <= y < t.len() && t[y] == u[x];
    assert(r[y] == c);
    let at = Seq::new(
        sets.len(),
        |s: int| choose|i: int| 0 <= i < r.len() && (#[trigger] r[i]).leaves == sets[s],
    );
    assert forall|s: int| 0 <= s < sets.len() implies 0 <= #[trigger] at[s] < y && r[at[s]].leaves
        == sets[s] by {
        assert(has_leaves(cands, sets[s]));
        lemma_ranked_has(cands, sets[s]);
        let i = at[s];
        assert(0 <= i < r.len() && r[i].leaves == sets[s]);
        assert(sets[s].len() < c.leaves.len());
        if y < i {
            assert(!ranks_before(r[i], r[y]));
        }
    }
    assert forall|i: int, j: int| 0 <= i < at.len() && 0 <= j < at.len() && i != j implies at[i]
        != at[j] by {
        assert(r[at[i]].leaves == sets[i] && r[at[j]].leaves == sets[j]);
        assert(sets[i] != sets[j]);
    }
    lemma_distinct_below(at, y);
}

proof fn lemma_distinct_below(s: Seq<int>, n: int)
    requires
        s.no_duplicates(),
        0 <= n,
        forall|i: int| 0 <= i < s.len() ==> 0 <= #[trigger] s[i] < n,
    ensures
        s.len() <= n,
{
    s.unique_seq_to_set();
    vstd::set_lib::lemma_int_range(0, n);
    assert forall|x: int| #[trigger] s.to_set().contains(x) implies vstd::set_lib::set_int_range(
        0,
        n,
    ).contains(x) by {
        let i = choose|i: int| 0 <= i < s.len() && s[i] == x;
        assert(0 <= s[i] < n);
    }
    vstd::set_lib::lemma_len_subset(s.to_set(), vstd::set_lib::set_int_range(0, n));
}

/// What survives is dominating or no wider.
proof fn lemma_survivors_beat(cands: Seq<CutView>, params: CutParams, leaves: Seq<u32>)
    requires
        has_leaves(cands, leaves),
    ensures
        dominated(survivors(cands, params), leaves) || forall|c: int|
            0 <= c < survivors(cands, params).len() ==> (#[trigger] survivors(
                cands,
                params,
            )[c]).leaves.len() <= leaves.len(),
{
    let r = ranked(cands);
    lemma_ranked_has(cands, leaves);
    lemma_ranked_sorted(cands);
    let x = choose|i: int| 0 <= i < r.len() && (#[trigger] r[i]).leaves == leaves;
    let n = least(params.cand_cap as nat, r.len()) as int;
    let t = r.take(n);
    let u = undominated(t);
    let sv = survivors(cands, params);
    assert forall|i: int, j: int| 0 <= i < j < t.len() implies !ranks_before(
        #[trigger] t[j],
        #[trigger] t[i],
    ) by {
        assert(t[i] == r[i] && t[j] == r[j]);
    }
    lemma_undominated_sorted(t);
    if x < n {
        assert(t[x].leaves == leaves);
        lemma_undominated_covers(t, leaves);
        let k = choose|k: int| 0 <= k < u.len() && subset((#[trigger] u[k]).leaves, leaves);
        if k < sv.len() {
            assert(sv[k] == u[k]);
        } else {
            lemma_dominator_ranks(t, x);
            let d = choose|d: int|
                0 <= d < u.len() && subset((#[trigger] u[d]).leaves, t[x].leaves) && !ranks_before(
                    t[x],
                    u[d],
                );
            if d < sv.len() {
                assert(sv[d] == u[d]);
            } else {
                assert forall|c: int| 0 <= c < sv.len() implies (#[trigger] sv[c]).leaves.len()
                    <= leaves.len() by {
                    assert(sv[c] == u[c]);
                    assert(!ranks_before(u[d], u[c]));
                }
            }
        }
    } else {
        assert forall|c: int| 0 <= c < sv.len() implies (#[trigger] sv[c]).leaves.len()
            <= leaves.len() by {
            assert(sv[c] == u[c]);
            assert(t.contains(u[c]));
            let i = choose|i: int| 0 <= i < t.len() && t[i] == u[c];
            assert(t[i] == r[i]);
            assert(!ranks_before(r[x], r[i]));
        }
    }
}

/// Of sorted cuts, each is dominated by a kept one that it does not rank before.
proof fn lemma_dominator_ranks(t: Seq<CutView>, x: int)
    requires
        sorted(t),
        0 <= x < t.len(),
    ensures
        exists|d: int|
            0 <= d < undominated(t).len() && subset(
                (#[trigger] undominated(t)[d]).leaves,
                t[x].leaves,
            ) && !ranks_before(t[x], undominated(t)[d]),
    decreases t.len(),
{
    let s = t.drop_last();
    let kept = undominated(s);
    let u = undominated(t);
    assert forall|i: int, j: int| 0 <= i < j < s.len() implies !ranks_before(
        #[trigger] s[j],
        #[trigger] s[i],
    ) by {
        assert(s[i] == t[i] && s[j] == t[j]);
    }
    if x < s.len() {
        lemma_dominator_ranks(s, x);
        assert(s[x] == t[x]);
        let d = choose|d: int|
            0 <= d < kept.len() && subset((#[trigger] kept[d]).leaves, s[x].leaves)
                && !ranks_before(s[x], kept[d]);
        assert(u[d] == kept[d]);
    } else if dominated(kept, t[x].leaves) {
        let d = choose|d: int|
            0 <= d < kept.len() && subset((#[trigger] kept[d]).leaves, t[x].leaves);
        assert(u[d] == kept[d]);
        lemma_undominated_sorted(s);
        assert(s.contains(kept[d]));
        let i = choose|i: int| 0 <= i < s.len() && s[i] == kept[d];
        assert(!ranks_before(t[x], t[i]));
    } else {
        let d = kept.len() as int;
        assert(u[d] == t[x]);
        assert forall|i: int| 0 <= i < t[x].leaves.len() implies t[x].leaves.contains(
            #[trigger] u[d].leaves[i],
        ) by {
            assert(t[x].leaves[i] == u[d].leaves[i]);
        }
        assert(subset(u[d].leaves, t[x].leaves));
    }
}

/// Every e-node of class `v` has a child in component `si` that is not finished or lies
/// outside the cone.
spec fn blocked(graph: &ClassGraph, cone: Seq<bool>, si: int, done: Seq<bool>, v: int) -> bool {
    forall|p: int|
        0 <= p < graph.enodes_of@[v]@.len() ==> blocked_enode(
            graph,
            cone,
            si,
            done,
            #[trigger] graph.enodes_of@[v]@[p] as int,
        )
}

spec fn blocked_enode(
    graph: &ClassGraph,
    cone: Seq<bool>,
    si: int,
    done: Seq<bool>,
    e: int,
) -> bool {
    exists|j: int|
        0 <= j < graph.children(e).len() && graph.scc_of@[
            #[trigger] graph.children(e)[j] as int
        ] == si && (!done[graph.children(e)[j] as int] || !cone[graph.children(e)[j] as int])
}

/// The unfinished ones among the first `n` members of component `si` are blocked.
spec fn quiet(graph: &ClassGraph, cone: Seq<bool>, si: int, st: Sweep, n: int) -> bool {
    forall|i: int|
        0 <= i < n && !st.done[#[trigger] graph.sccs@[si]@[i] as int]
            && cone[graph.sccs@[si]@[i] as int] ==> blocked(
            graph,
            cone,
            si,
            st.done,
            graph.sccs@[si]@[i] as int,
        )
}

/// The members of component `si` that are not finished.
spec fn open_members(graph: &ClassGraph, st: Sweep, si: int) -> spec_fn(int) -> bool {
    |i: int| !st.done[graph.sccs@[si]@[i] as int]
}

proof fn lemma_blocked_stays(
    graph: &ClassGraph,
    cone: Seq<bool>,
    si: int,
    a: Seq<bool>,
    b: Seq<bool>,
    v: int,
)
    requires
        graph.wf(),
        0 <= v < graph.size(),
        blocked(graph, cone, si, a, v),
        forall|w: int| 0 <= w < graph.size() && cone[w] ==> #[trigger] b[w] == a[w],
    ensures
        blocked(graph, cone, si, b, v),
{
    assert forall|p: int| 0 <= p < graph.enodes_of@[v]@.len() implies blocked_enode(
        graph,
        cone,
        si,
        b,
        #[trigger] graph.enodes_of@[v]@[p] as int,
    ) by {
        let e = graph.enodes_of@[v]@[p] as int;
        assert(graph.enodes_of@[v]@[p] < graph.enodes@.len());
        assert(blocked_enode(graph, cone, si, a, e));
        let j = choose|j: int|
            0 <= j < graph.children(e).len() && graph.scc_of@[
                #[trigger] graph.children(e)[j] as int
            ] == si && (!a[graph.children(e)[j] as int] || !cone[graph.children(e)[j] as int]);
        let c = graph.children(e)[j] as int;
        assert(graph.enodes@[e].ch_eq@[j] < graph.size());
        if cone[c] {
            assert(b[c] == a[c]);
        }
    }
}

/// A pass without progress leaves only blocked members; one with progress finishes a member.
proof fn lemma_pass_quiet(
    graph: &ClassGraph,
    params: CutParams,
    kernels: Seq<Kernel>,
    cone: Seq<bool>,
    si: int,
    st: Sweep,
    n: nat,
)
    requires
        enumerable(graph, params, kernels, cone),
        sweep_ok(graph, params, kernels, cone, st),
        2 <= params.k <= 6,
        0 <= si < graph.sccs@.len(),
        n <= graph.sccs@[si]@.len(),
    ensures
        pass(graph, params, kernels, cone, si, st, n) matches Ok((next, progress)) ==> {
            let len = graph.sccs@[si]@.len();
            &&& !progress ==> quiet(graph, cone, si, next, n as int)
            &&& count(len, open_members(graph, next, si)) <= count(
                len,
                open_members(graph, st, si),
            )
            &&& progress ==> count(len, open_members(graph, next, si)) < count(
                len,
                open_members(graph, st, si),
            )
        },
    decreases n,
{
    if n > 0 {
        lemma_pass_quiet(graph, params, kernels, cone, si, st, (n - 1) as nat);
        lemma_pass_ok(graph, params, kernels, cone, si, st, (n - 1) as nat);
        let prev = pass(graph, params, kernels, cone, si, st, (n - 1) as nat);
        let r = pass(graph, params, kernels, cone, si, st, n);
        if r is Ok {
            let (mid, _) = prev->Ok_0;
            let (next, progress) = r->Ok_0;
            let comp = graph.sccs@[si]@;
            let v = graph.sccs@[si]@[n - 1];
            assert(v < graph.size());
            let a = open_members(graph, mid, si);
            let b = open_members(graph, next, si);
            if mid.done[v as int] || !next.done[v as int] {
                assert(next.done =~= mid.done);
                lemma_count_ext(comp.len(), a, b);
            } else {
                assert forall|i: int| 0 <= i < comp.len() && i != n - 1 implies #[trigger] b(i)
                    == a(i) by {
                    assert(graph.sccs@[si]@[i] < graph.size());
                    assert(comp[i] != comp[n - 1]);
                }
                lemma_count_flip(comp.len(), b, a, n - 1);
            }
            if !progress {
                assert forall|w: int| 0 <= w < graph.size() && cone[w] implies #[trigger] next.done[w]
                    == mid.done[w] by {}
                assert forall|i: int|
                    0 <= i < n && !next.done[#[trigger] graph.sccs@[si]@[i] as int]
                        && cone[graph.sccs@[si]@[i] as int] implies blocked(
                    graph,
                    cone,
                    si,
                    next.done,
                    graph.sccs@[si]@[i] as int,
                ) by {
                    let w = graph.sccs@[si]@[i] as int;
                    assert(graph.sccs@[si]@[i] < graph.size());
                    assert(!mid.done[w]);
                    if i < n - 1 {
                        assert(blocked(graph, cone, si, mid.done, w));
                    } else {
                        assert(!usable(graph, si, mid.done, w));
                        assert forall|p: int| 0 <= p < graph.enodes_of@[w]@.len() implies blocked_enode(
                            graph,
                            cone,
                            si,
                            mid.done,
                            #[trigger] graph.enodes_of@[w]@[p] as int,
                        ) by {
                            let e = graph.enodes_of@[w]@[p] as int;
                            assert(!enode_ready(graph, si, mid.done, e));
                            let j = choose|j: int|
                                0 <= j < graph.children(e).len() && !ready(
                                    graph,
                                    si,
                                    mid.done,
                                    #[trigger] graph.children(e)[j],
                                );
                            assert(graph.scc_of@[graph.children(e)[j] as int] == si);
                        }
                    }
                    lemma_blocked_stays(graph, cone, si, mid.done, next.done, w);
                }
            }
        }
    }
}

proof fn lemma_passes_quiet(
    graph: &ClassGraph,
    params: CutParams,
    kernels: Seq<Kernel>,
    cone: Seq<bool>,
    si: int,
    st: Sweep,
    fuel: nat,
)
    requires
        enumerable(graph, params, kernels, cone),
        sweep_ok(graph, params, kernels, cone, st),
        2 <= params.k <= 6,
        0 <= si < graph.sccs@.len(),
        count(graph.sccs@[si]@.len(), open_members(graph, st, si)) < fuel,
    ensures
        passes(graph, params, kernels, cone, si, st, fuel) matches Ok(next) ==> quiet(
            graph,
            cone,
            si,
            next,
            graph.sccs@[si]@.len() as int,
        ),
    decreases fuel,
{
    let n = graph.sccs@[si]@.len();
    lemma_pass_quiet(graph, params, kernels, cone, si, st, n);
    lemma_pass_ok(graph, params, kernels, cone, si, st, n);
    let r = pass(graph, params, kernels, cone, si, st, n);
    if r is Ok {
        let (next, progress) = r->Ok_0;
        if progress {
            lemma_passes_quiet(graph, params, kernels, cone, si, next, (fuel - 1) as nat);
        }
    }
}

proof fn lemma_visit_kept(
    graph: &ClassGraph,
    params: CutParams,
    kernels: Seq<Kernel>,
    cone: Seq<bool>,
    si: int,
    st: Sweep,
    v: u32,
)
    requires
        enumerable(graph, params, kernels, cone),
        sweep_ok(graph, params, kernels, cone, st),
        every_kept(graph, params, kernels, st),
        v < graph.size(),
    ensures
        visit(graph, params, kernels, cone, si, st, v) matches Ok((next, _)) ==> every_kept(
            graph,
            params,
            kernels,
            next,
        ),
{
    let r = visit(graph, params, kernels, cone, si, st, v);
    if r is Ok {
        let (next, _) = r->Ok_0;
        assert forall|w: int| 0 <= w < graph.size() implies #[trigger] all_kept(
            graph,
            params,
            kernels,
            next.cuts,
            next.rank,
            w,
        ) by {
            if st.done[v as int] || !cone[v as int] {
                assert(all_kept(graph, params, kernels, st.cuts, st.rank, w));
            } else if kind_of(graph, kernels, v as int) == Some(ClassKind::Internal) && !usable(
                graph,
                si,
                st.done,
                v as int,
            ) {
                assert(all_kept(graph, params, kernels, st.cuts, st.rank, w));
            } else if w != v {
                lemma_others_kept(graph, params, kernels, cone, st, next, v, w);
            } else {
                match kind_of(graph, kernels, v as int) {
                    Some(ClassKind::Internal) => {
                        let p = pool_class(
                            graph,
                            params,
                            kernels,
                            st.cuts,
                            st.done,
                            si,
                            v as int,
                            considered(graph, params, v as int).len(),
                        );
                        lemma_merged_kept(
                            graph,
                            params,
                            kernels,
                            cone,
                            si,
                            st,
                            next,
                            v,
                            p->0,
                        );
                    },
                    _ => {},
                }
            }
        }
    }
}

proof fn lemma_pass_kept(
    graph: &ClassGraph,
    params: CutParams,
    kernels: Seq<Kernel>,
    cone: Seq<bool>,
    si: int,
    st: Sweep,
    n: nat,
)
    requires
        enumerable(graph, params, kernels, cone),
        sweep_ok(graph, params, kernels, cone, st),
        every_kept(graph, params, kernels, st),
        2 <= params.k <= 6,
        0 <= si < graph.sccs@.len(),
        n <= graph.sccs@[si]@.len(),
    ensures
        pass(graph, params, kernels, cone, si, st, n) matches Ok((next, _)) ==> every_kept(
            graph,
            params,
            kernels,
            next,
        ),
    decreases n,
{
    if n > 0 {
        lemma_pass_kept(graph, params, kernels, cone, si, st, (n - 1) as nat);
        lemma_pass_ok(graph, params, kernels, cone, si, st, (n - 1) as nat);
        let prev = pass(graph, params, kernels, cone, si, st, (n - 1) as nat);
        if prev is Ok {
            let (mid, _) = prev->Ok_0;
            let v = graph.sccs@[si]@[n - 1];
            assert(v < graph.size());
            lemma_visit_kept(graph, params, kernels, cone, si, mid, v);
        }
    }
}

proof fn lemma_passes_kept(
    graph: &ClassGraph,
    params: CutParams,
    kernels: Seq<Kernel>,
    cone: Seq<bool>,
    si: int,
    st: Sweep,
    fuel: nat,
)
    requires
        enumerable(graph, params, kernels, cone),
        sweep_ok(graph, params, kernels, cone, st),
        every_kept(graph, params, kernels, st),
        2 <= params.k <= 6,
        0 <= si < graph.sccs@.len(),
    ensures
        passes(graph, params, kernels, cone, si, st, fuel) matches Ok(next) ==> every_kept(
            graph,
            params,
            kernels,
            next,
        ),
    decreases fuel,
{
    if fuel > 0 {
        let n = graph.sccs@[si]@.len();
        lemma_pass_kept(graph, params, kernels, cone, si, st, n);
        lemma_pass_ok(graph, params, kernels, cone, si, st, n);
        let r = pass(graph, params, kernels, cone, si, st, n);
        if r is Ok {
            let (next, progress) = r->Ok_0;
            if progress {
                lemma_passes_kept(graph, params, kernels, cone, si, next, (fuel - 1) as nat);
            }
        }
    }
}

/// What the passes left open gets a single cut.
proof fn lemma_settled_lists(
    graph: &ClassGraph,
    cone: Seq<bool>,
    si: int,
    st: Sweep,
    n: nat,
    c: int,
)
    requires
        graph.wf(),
        0 <= si < graph.sccs@.len(),
        n <= graph.sccs@[si]@.len(),
        st.cuts.len() == graph.size(),
        0 <= c < st.cuts.len(),
        st.cuts[c].len() <= 1,
    ensures
        settle(graph, cone, si, st, n).cuts.len() == st.cuts.len(),
        settle(graph, cone, si, st, n).cuts[c].len() <= 1,
    decreases n,
{
    if n > 0 {
        lemma_settled_lists(graph, cone, si, st, (n - 1) as nat, c);
        assert(graph.sccs@[si]@[n - 1] < graph.size());
    }
}

/// A class that no pass finished was not waiting in vain: each of its e-nodes has a child in
/// the same component that no pass finished either.
proof fn lemma_settled_kept(
    graph: &ClassGraph,
    params: CutParams,
    kernels: Seq<Kernel>,
    cone: Seq<bool>,
    si: int,
    st: Sweep,
    n: nat,
)
    requires
        enumerable(graph, params, kernels, cone),
        sweep_ok(graph, params, kernels, cone, st),
        settleable(graph, kernels, cone, si, st),
        quiet(graph, cone, si, st, graph.sccs@[si]@.len() as int),
        2 <= params.k <= 6,
        0 <= si < graph.sccs@.len(),
        0 < n <= graph.sccs@[si]@.len(),
        !settle(graph, cone, si, st, (n - 1) as nat).done[graph.sccs@[si]@[n - 1] as int],
        cone[graph.sccs@[si]@[n - 1] as int],
    ensures
        all_kept(
            graph,
            params,
            kernels,
            settle(graph, cone, si, st, n).cuts,
            settle(graph, cone, si, st, n).rank,
            graph.sccs@[si]@[n - 1] as int,
        ),
{
    lemma_settle_ok(graph, params, kernels, cone, si, st, (n - 1) as nat);
    lemma_settle_ok(graph, params, kernels, cone, si, st, n);
    let next = settle(graph, cone, si, st, n);
    let v = graph.sccs@[si]@[n - 1] as int;
    assert(graph.sccs@[si]@[n - 1] < graph.size());
    assert(!st.done[v]);
    assert(next.cuts[v].len() == 1);
    assert(blocked(graph, cone, si, st.done, v));
    let es = considered(graph, params, v);
    assert forall|i: int, q: int| !(#[trigger] mergeable_at(
        graph,
        params,
        kernels,
        next.cuts,
        next.rank,
        v,
        i,
        q,
    )) by {
        if mergeable_at(graph, params, kernels, next.cuts, next.rank, v, i, q) {
            let e = es[i] as int;
            lemma_considered(graph, params, v, i);
            assert(es[i] == graph.enodes_of@[v]@[i]);
            assert(blocked_enode(graph, cone, si, st.done, graph.enodes_of@[v]@[i] as int));
            let j = choose|j: int|
                0 <= j < graph.children(e).len() && graph.scc_of@[
                    #[trigger] graph.children(e)[j] as int
                ] == si && (!st.done[graph.children(e)[j] as int] || !cone[graph.children(
                    e,
                )[j] as int]);
            let c = graph.children(e)[j] as int;
            assert(graph.enodes@[e].ch_eq@[j] < graph.size());
            assert(next.cuts[c].len() > 0);
            assert(list_ok(graph, params, kernels, cone, next.cuts, next.rank, c));
            assert(cone[c]);
            assert(!st.done[c]);
            lemma_settled_lists(graph, cone, si, st, n, c);
            assert(graph.sccs@[graph.scc_of@[c] as int]@.contains(c as u32));
            let m = choose|m: int|
                0 <= m < graph.sccs@[si]@.len() && graph.sccs@[si]@[m] == c as u32;
            assert(!st.done[graph.sccs@[si]@[m] as int]);
            assert(kind_of(graph, kernels, c) == Some(ClassKind::Internal));
            assert(graph.scc_of@[graph.sccs@[si]@[n - 1] as int] == si);
            assert(waited(graph, kernels, next.cuts, si, e));
        }
    }
}

proof fn lemma_settle_kept(
    graph: &ClassGraph,
    params: CutParams,
    kernels: Seq<Kernel>,
    cone: Seq<bool>,
    si: int,
    st: Sweep,
    n: nat,
)
    requires
        enumerable(graph, params, kernels, cone),
        sweep_ok(graph, params, kernels, cone, st),
        settleable(graph, kernels, cone, si, st),
        quiet(graph, cone, si, st, graph.sccs@[si]@.len() as int),
        every_kept(graph, params, kernels, st),
        2 <= params.k <= 6,
        0 <= si < graph.sccs@.len(),
        n <= graph.sccs@[si]@.len(),
    ensures
        every_kept(graph, params, kernels, settle(graph, cone, si, st, n)),
    decreases n,
{
    if n > 0 {
        lemma_settle_kept(graph, params, kernels, cone, si, st, (n - 1) as nat);
        lemma_settle_ok(graph, params, kernels, cone, si, st, (n - 1) as nat);
        let mid = settle(graph, cone, si, st, (n - 1) as nat);
        let next = settle(graph, cone, si, st, n);
        let v = graph.sccs@[si]@[n - 1];
        assert(v < graph.size());
        assert forall|w: int| 0 <= w < graph.size() implies #[trigger] all_kept(
            graph,
            params,
            kernels,
            next.cuts,
            next.rank,
            w,
        ) by {
            if mid.done[v as int] || !cone[v as int] {
                assert(all_kept(graph, params, kernels, mid.cuts, mid.rank, w));
            } else if w != v {
                lemma_others_kept(graph, params, kernels, cone, mid, next, v, w);
            } else {
                lemma_settled_kept(graph, params, kernels, cone, si, st, n);
            }
        }
    }
}

proof fn lemma_components_kept(
    graph: &ClassGraph,
    params: CutParams,
    kernels: Seq<Kernel>,
    cone: Seq<bool>,
    n: nat,
)
    requires
        enumerable(graph, params, kernels, cone),
        2 <= params.k <= 6,
        n <= graph.sccs@.len(),
    ensures
        components(graph, params, kernels, cone, n) matches Ok(st) ==> every_kept(
            graph,
            params,
            kernels,
            st,
        ),
    decreases n,
{
    if n > 0 {
        lemma_components_kept(graph, params, kernels, cone, (n - 1) as nat);
        lemma_components_ok(graph, params, kernels, cone, (n - 1) as nat);
        let prev = components(graph, params, kernels, cone, (n - 1) as nat);
        if prev is Ok {
            let st = prev->Ok_0;
            let len = graph.sccs@[n - 1]@.len();
            lemma_passes_ok(graph, params, kernels, cone, n - 1, st, len + 1);
            lemma_passes_settleable(graph, params, kernels, cone, n - 1, st, len + 1);
            lemma_passes_kept(graph, params, kernels, cone, n - 1, st, len + 1);
            lemma_count_bound(len, open_members(graph, st, n - 1));
            lemma_passes_quiet(graph, params, kernels, cone, n - 1, st, len + 1);
            let r = passes(graph, params, kernels, cone, n - 1, st, len + 1);
            if r is Ok {
                lemma_settle_kept(graph, params, kernels, cone, n - 1, r->Ok_0, len);
            }
        }
    }
}

/// What is listed beats what is not: for every merge of an e-node over classes that were
/// finished earlier, the class has a cut with leaves among those of the merge, or none of its
/// merged cuts has more leaves.
///
/// As far as no cap is reached, the cuts of a class are the merges of all its e-nodes, up
/// to those that contain a smaller one: for every merge of an e-node over classes that were
/// finished earlier, the class has a cut with leaves among those of the merge. Left out are
/// classes on cycles that got their trivial cut alone because they waited for each other.
pub proof fn cuts_are_complete(
    graph: &ClassGraph,
    params: CutParams,
    kernels: Seq<Kernel>,
    cone: Seq<bool>,
    v: int,
)
    requires
        enumerable(graph, params, kernels, cone),
        0 <= v < graph.size(),
    ensures
        enumeration(graph, params, kernels, cone) matches Ok(st) ==> all_kept(
            graph,
            params,
            kernels,
            st.cuts,
            st.rank,
            v,
        ),
{
    if 2 <= params.k <= 6 {
        lemma_components_kept(graph, params, kernels, cone, graph.sccs@.len());
    }
}

/// The same of all unions of the children's cuts: where an e-node has no more of them within
/// the leaf bound than the merge budget, the class has a cut with leaves among those of each.
pub proof fn unions_are_kept(
    graph: &ClassGraph,
    params: CutParams,
    kernels: Seq<Kernel>,
    cone: Seq<bool>,
    st: Sweep,
    v: int,
    i: int,
    chosen: Seq<u32>,
)
    requires
        enumerable(graph, params, kernels, cone),
        enumeration(graph, params, kernels, cone) == Ok::<Sweep, CutError>(st),
        0 <= v < graph.size(),
        cone[v],
        kind_of(graph, kernels, v) == Some(ClassKind::Internal),
        uncapped(graph, params, kernels, st.cuts, st.rank, v),
        0 <= i < considered(graph, params, v).len(),
        merged_at(
            graph,
            kernels,
            st.cuts,
            st.rank,
            v,
            considered(graph, params, v)[i] as int,
        ),
        ({
            let lists = operand_leaves(
                graph,
                st.cuts,
                considered(graph, params, v)[i] as int,
            );
            &&& selects(lists, chosen)
            &&& union_of(lists, chosen).len() <= params.k
            &&& products(lists, params.k as nat).len() <= MERGE_BUDGET
        }),
    ensures
        dominated(
            st.cuts[v].drop_first(),
            union_of(
                operand_leaves(graph, st.cuts, considered(graph, params, v)[i] as int),
                chosen,
            ),
        ),
{
    let e = considered(graph, params, v)[i] as int;
    let lists = operand_leaves(graph, st.cuts, e);
    enumeration_is_complete(graph, params, kernels, cone);
    lemma_considered(graph, params, v, i);
    assert forall|d: int| 0 <= d < lists.len() implies (#[trigger] lists[d]).len()
        <= u32::MAX by {
        let c = graph.children(e)[d] as int;
        assert(graph.enodes@[e].ch_eq@[d] < graph.size());
        assert(list_ok(graph, params, kernels, cone, st.cuts, st.rank, c));
    }
    products_are_complete(lists, params.k as nat, chosen);
    let all = products(lists, params.k as nat);
    let q = choose|q: int| 0 <= q < all.len() && all[q] == (union_of(lists, chosen), chosen);
    assert(merges_of(graph, st.cuts, params.k as nat, e)[q] == all[q]);
    cuts_are_complete(graph, params, kernels, cone, v);
    assert(st.cuts[v].len() > 0);
    assert(mergeable_at(graph, params, kernels, st.cuts, st.rank, v, i, q));
    assert(merge_kept(graph, params, st.cuts, v, i, q));
}

} // verus!
