//! What the enumeration counts while it goes through the classes.
use vstd::prelude::*;

use crate::class_graph::ClassGraph;
use crate::count_laws::{counts_are_of_sets, those};
use crate::cut::{self_cut, CutView};
use crate::cut_laws::lemma_first_with;
use crate::enumerate::{
    candidate, components, considered, enumerable, enumeration, first_with, lemma_components_ok,
    lemma_pass_ok, lemma_passes_ok, lemma_passes_settleable, lemma_settle_ok, mergeable, merges_of,
    pass, passes, pool_class, pool_merges, settle, settleable, start, sweep_ok, usable, visit,
    CutError, CutParams, Pool, Sweep,
};
use crate::kernel::{kind_of, ClassKind, Kernel};
use crate::tally::{count, lemma_count_ext};

verus! {

// --------------------------------------------------------------------- induction

/// Every step of the enumeration keeps the property.
spec fn kept_by_steps(
    graph: &ClassGraph,
    params: CutParams,
    kernels: Seq<Kernel>,
    cone: Seq<bool>,
    r: spec_fn(Sweep) -> bool,
) -> bool {
    &&& forall|si: int, st: Sweep, v: u32|
        r(st) && sweep_ok(graph, params, kernels, cone, st) && v < graph.size() ==> (
        #[trigger] visit(graph, params, kernels, cone, si, st, v) matches Ok((next, _)) ==> r(
            next,
        ))
    &&& forall|st: Sweep, v: u32|
        r(st) && sweep_ok(graph, params, kernels, cone, st) && v < graph.size()
            && !st.done[v as int] ==> r(#[trigger] st.finish(v, seq![self_cut(v)]))
    &&& forall|st: Sweep, v: u32|
        r(st) && sweep_ok(graph, params, kernels, cone, st) && v < graph.size() ==> r(
            #[trigger] st.skip(v),
        )
}

proof fn lemma_pass_keeps(
    graph: &ClassGraph,
    params: CutParams,
    kernels: Seq<Kernel>,
    cone: Seq<bool>,
    si: int,
    st: Sweep,
    n: nat,
    r: spec_fn(Sweep) -> bool,
)
    requires
        enumerable(graph, params, kernels, cone),
        sweep_ok(graph, params, kernels, cone, st),
        kept_by_steps(graph, params, kernels, cone, r),
        r(st),
        2 <= params.k <= 6,
        0 <= si < graph.sccs@.len(),
        n <= graph.sccs@[si]@.len(),
    ensures
        pass(graph, params, kernels, cone, si, st, n) matches Ok((next, _)) ==> r(next),
    decreases n,
{
    if n > 0 {
        lemma_pass_keeps(graph, params, kernels, cone, si, st, (n - 1) as nat, r);
        lemma_pass_ok(graph, params, kernels, cone, si, st, (n - 1) as nat);
        if let Ok((mid, _)) = pass(graph, params, kernels, cone, si, st, (n - 1) as nat) {
            let v = graph.sccs@[si]@[n - 1];
            assert(v < graph.size());
            let x = visit(graph, params, kernels, cone, si, mid, v);
        }
    }
}

proof fn lemma_passes_keep(
    graph: &ClassGraph,
    params: CutParams,
    kernels: Seq<Kernel>,
    cone: Seq<bool>,
    si: int,
    st: Sweep,
    fuel: nat,
    r: spec_fn(Sweep) -> bool,
)
    requires
        enumerable(graph, params, kernels, cone),
        sweep_ok(graph, params, kernels, cone, st),
        kept_by_steps(graph, params, kernels, cone, r),
        r(st),
        2 <= params.k <= 6,
        0 <= si < graph.sccs@.len(),
    ensures
        passes(graph, params, kernels, cone, si, st, fuel) matches Ok(next) ==> r(next),
    decreases fuel,
{
    if fuel > 0 {
        let n = graph.sccs@[si]@.len();
        lemma_pass_keeps(graph, params, kernels, cone, si, st, n, r);
        lemma_pass_ok(graph, params, kernels, cone, si, st, n);
        if let Ok((next, progress)) = pass(graph, params, kernels, cone, si, st, n) {
            if progress {
                lemma_passes_keep(graph, params, kernels, cone, si, next, (fuel - 1) as nat, r);
            }
        }
    }
}

proof fn lemma_settle_keeps(
    graph: &ClassGraph,
    params: CutParams,
    kernels: Seq<Kernel>,
    cone: Seq<bool>,
    si: int,
    st: Sweep,
    n: nat,
    r: spec_fn(Sweep) -> bool,
)
    requires
        enumerable(graph, params, kernels, cone),
        sweep_ok(graph, params, kernels, cone, st),
        settleable(graph, kernels, cone, si, st),
        kept_by_steps(graph, params, kernels, cone, r),
        r(st),
        2 <= params.k <= 6,
        0 <= si < graph.sccs@.len(),
        n <= graph.sccs@[si]@.len(),
    ensures
        r(settle(graph, cone, si, st, n)),
    decreases n,
{
    if n > 0 {
        lemma_settle_keeps(graph, params, kernels, cone, si, st, (n - 1) as nat, r);
        lemma_settle_ok(graph, params, kernels, cone, si, st, (n - 1) as nat);
        let mid = settle(graph, cone, si, st, (n - 1) as nat);
        let v = graph.sccs@[si]@[n - 1];
        assert(v < graph.size());
        if !mid.done[v as int] {
            assert(r(mid.finish(v, seq![self_cut(v)])));
            assert(r(mid.skip(v)));
        }
    }
}

proof fn lemma_components_keep(
    graph: &ClassGraph,
    params: CutParams,
    kernels: Seq<Kernel>,
    cone: Seq<bool>,
    n: nat,
    r: spec_fn(Sweep) -> bool,
)
    requires
        enumerable(graph, params, kernels, cone),
        kept_by_steps(graph, params, kernels, cone, r),
        r(start(graph)),
        2 <= params.k <= 6,
        n <= graph.sccs@.len(),
    ensures
        components(graph, params, kernels, cone, n) matches Ok(st) ==> r(st),
    decreases n,
{
    if n > 0 {
        lemma_components_keep(graph, params, kernels, cone, (n - 1) as nat, r);
        lemma_components_ok(graph, params, kernels, cone, (n - 1) as nat);
        if let Ok(st) = components(graph, params, kernels, cone, (n - 1) as nat) {
            let len = graph.sccs@[n - 1]@.len();
            lemma_passes_ok(graph, params, kernels, cone, n - 1, st, len + 1);
            lemma_passes_settleable(graph, params, kernels, cone, n - 1, st, len + 1);
            lemma_passes_keep(graph, params, kernels, cone, n - 1, st, len + 1, r);
            if let Ok(mid) = passes(graph, params, kernels, cone, n - 1, st, len + 1) {
                lemma_settle_keeps(graph, params, kernels, cone, n - 1, mid, len, r);
            }
        }
    }
}

// ----------------------------------------------------------------------- longest

/// No merged list is longer than `st.widest`, and some list is as long.
spec fn longest_known(graph: &ClassGraph, kernels: Seq<Kernel>) -> spec_fn(Sweep) -> bool {
    |st: Sweep|
        st.cuts.len() == graph.size() && (forall|v: int|
            0 <= v < st.cuts.len() && st.cuts[v].len() > 1 ==> (#[trigger] st.cuts[v]).len()
                <= st.widest) && (st.widest > 0 ==> exists|v: int|
            0 <= v < st.cuts.len() && (#[trigger] st.cuts[v]).len() == st.widest && kind_of(
                graph,
                kernels,
                v,
            ) == Some(ClassKind::Internal))
}

proof fn lemma_longest_one(
    graph: &ClassGraph,
    params: CutParams,
    kernels: Seq<Kernel>,
    cone: Seq<bool>,
    st: Sweep,
    next: Sweep,
    v: u32,
)
    requires
        longest_known(graph, kernels)(st),
        sweep_ok(graph, params, kernels, cone, st),
        v < graph.size(),
        !st.done[v as int],
        next.cuts == st.cuts.update(v as int, next.cuts[v as int]),
        next.cuts[v as int].len() <= 1 && next.widest == st.widest || (kind_of(
            graph,
            kernels,
            v as int,
        ) == Some(ClassKind::Internal) && next.widest == if next.cuts[v as int].len() > st.widest {
            next.cuts[v as int].len()
        } else {
            st.widest
        }),
    ensures
        longest_known(graph, kernels)(next),
{
    assert forall|w: int| 0 <= w < next.cuts.len() && next.cuts[w].len() > 1 implies (
    #[trigger] next.cuts[w]).len() <= next.widest by {
        if w != v {
            assert(next.cuts[w] == st.cuts[w]);
        }
    }
    if next.widest > 0 {
        if next.widest == st.widest {
            let w = choose|w: int|
                0 <= w < st.cuts.len() && (#[trigger] st.cuts[w]).len() == st.widest && kind_of(
                    graph,
                    kernels,
                    w,
                ) == Some(ClassKind::Internal);
            assert(st.cuts[v as int].len() == 0);
            assert(w != v);
            assert(next.cuts[w].len() == next.widest);
        } else {
            assert(next.cuts[v as int].len() == next.widest);
        }
    }
}

/// The longest list that the statistics tell of is the longest one: where a class has more
/// than its trivial cut, no list is longer, and one is as long.
pub proof fn longest_list_is_told(
    graph: &ClassGraph,
    params: CutParams,
    kernels: Seq<Kernel>,
    cone: Seq<bool>,
    st: Sweep,
    v: int,
)
    requires
        enumerable(graph, params, kernels, cone),
        enumeration(graph, params, kernels, cone) == Ok::<Sweep, CutError>(st),
        0 <= v < graph.size(),
    ensures
        st.cuts[v].len() > 1 ==> st.cuts[v].len() <= st.widest,
        st.widest > 0 ==> exists|w: int|
            0 <= w < graph.size() && (#[trigger] st.cuts[w]).len() == st.widest,
{
    let r = longest_known(graph, kernels);
    assert(kept_by_steps(graph, params, kernels, cone, r)) by {
        assert forall|si: int, st: Sweep, v: u32|
            r(st) && sweep_ok(graph, params, kernels, cone, st) && v < graph.size() implies (
        #[trigger] visit(graph, params, kernels, cone, si, st, v) matches Ok((next, _)) ==> r(
            next,
        )) by {
            if let Ok((next, _)) = visit(graph, params, kernels, cone, si, st, v) {
                if !st.done[v as int] && cone[v as int] {
                    match kind_of(graph, kernels, v as int) {
                        Some(ClassKind::Internal) => if usable(graph, si, st.done, v as int) {
                            lemma_longest_one(graph, params, kernels, cone, st, next, v);
                        },
                        _ => {
                            lemma_longest_one(graph, params, kernels, cone, st, next, v);
                        },
                    }
                }
            }
        }
        assert forall|st: Sweep, v: u32|
            r(st) && sweep_ok(graph, params, kernels, cone, st) && v < graph.size()
                && !st.done[v as int] implies r(#[trigger] st.finish(v, seq![self_cut(v)])) by {
            lemma_longest_one(
                graph,
                params,
                kernels,
                cone,
                st,
                st.finish(v, seq![self_cut(v)]),
                v,
            );
        }
    }
    lemma_components_keep(graph, params, kernels, cone, graph.sccs@.len(), r);
    assert(r(st));
}

// --------------------------------------------------------------------- conflicts

/// What the first `m` merges of e-node `e` make.
pub open spec fn made_of(
    graph: &ClassGraph,
    params: CutParams,
    kernels: Seq<Kernel>,
    cuts: Seq<Seq<CutView>>,
    e: int,
) -> Seq<CutView> {
    merges_of(graph, cuts, params.k as nat, e).map_values(
        |p: (Seq<u32>, Seq<u32>)| candidate(graph, kernels, cuts, e, p),
    )
}

/// What the merges of the first `n` e-nodes of class `v` make, as far as they can be merged.
pub open spec fn made_at(
    graph: &ClassGraph,
    params: CutParams,
    kernels: Seq<Kernel>,
    st: Sweep,
    si: int,
    v: int,
    n: nat,
) -> Seq<CutView> {
    Seq::new(
        n,
        |i: int|
            {
                let e = considered(graph, params, v)[i] as int;
                if mergeable(graph, kernels, si, st.done, e) {
                    made_of(graph, params, kernels, st.cuts, e)
                } else {
                    Seq::empty()
                }
            },
    ).flatten_alt()
}

/// The pool after all of some candidates.
spec fn offered_all(pool: Pool, s: Seq<CutView>) -> Pool
    decreases s.len(),
{
    if s.len() == 0 {
        pool
    } else {
        offered_all(pool, s.drop_last()).offer(s.last())
    }
}

proof fn lemma_offered_append(pool: Pool, s: Seq<CutView>, t: Seq<CutView>)
    ensures
        offered_all(pool, s + t) == offered_all(offered_all(pool, s), t),
    decreases t.len(),
{
    if t.len() == 0 {
        assert(s + t =~= s);
    } else {
        lemma_offered_append(pool, s, t.drop_last());
        assert((s + t).drop_last() =~= s + t.drop_last());
    }
}

proof fn lemma_merges_offered(
    graph: &ClassGraph,
    params: CutParams,
    kernels: Seq<Kernel>,
    cuts: Seq<Seq<CutView>>,
    e: int,
    n: nat,
    pool: Pool,
)
    requires
        n <= merges_of(graph, cuts, params.k as nat, e).len(),
    ensures
        pool_merges(
            graph,
            kernels,
            cuts,
            e,
            merges_of(graph, cuts, params.k as nat, e),
            n,
            pool,
        ) matches Some(p) ==> p == offered_all(
            pool,
            made_of(graph, params, kernels, cuts, e).take(n as int),
        ),
    decreases n,
{
    let all = made_of(graph, params, kernels, cuts, e);
    if n > 0 {
        lemma_merges_offered(graph, params, kernels, cuts, e, (n - 1) as nat, pool);
        assert(all.take(n as int).drop_last() =~= all.take(n - 1));
    } else {
        assert(all.take(0) =~= Seq::empty());
    }
}

proof fn lemma_class_offered(
    graph: &ClassGraph,
    params: CutParams,
    kernels: Seq<Kernel>,
    st: Sweep,
    si: int,
    v: int,
    n: nat,
)
    requires
        n <= considered(graph, params, v).len(),
    ensures
        pool_class(graph, params, kernels, st.cuts, st.done, si, v, n) matches Some(p) ==> p
            == offered_all(
            Pool { cands: Seq::empty(), conflicts: 0 },
            made_at(graph, params, kernels, st, si, v, n),
        ),
    decreases n,
{
    let f = |i: int|
        {
            let e = considered(graph, params, v)[i] as int;
            if mergeable(graph, kernels, si, st.done, e) {
                made_of(graph, params, kernels, st.cuts, e)
            } else {
                Seq::empty()
            }
        };
    let zero = Pool { cands: Seq::empty(), conflicts: 0 };
    if n > 0 {
        lemma_class_offered(graph, params, kernels, st, si, v, (n - 1) as nat);
        let all = Seq::new(n, f);
        assert(all.drop_last() =~= Seq::new((n - 1) as nat, f));
        let e = considered(graph, params, v)[n - 1] as int;
        let rest = made_at(graph, params, kernels, st, si, v, (n - 1) as nat);
        assert(made_at(graph, params, kernels, st, si, v, n) == rest + f(n - 1));
        lemma_offered_append(zero, rest, f(n - 1));
        if mergeable(graph, kernels, si, st.done, e) {
            let m = merges_of(graph, st.cuts, params.k as nat, e).len();
            if let Some(p) = pool_class(
                graph,
                params,
                kernels,
                st.cuts,
                st.done,
                si,
                v,
                (n - 1) as nat,
            ) {
                lemma_merges_offered(graph, params, kernels, st.cuts, e, m, p);
                let made = made_of(graph, params, kernels, st.cuts, e);
                assert(made.take(m as int) =~= made);
            }
        } else {
            assert(rest + Seq::<CutView>::empty() =~= rest);
        }
    } else {
        assert(made_at(graph, params, kernels, st, si, v, 0) =~= Seq::empty());
    }
}

/// `s` is the first one with the leaves of candidate `t`.
pub open spec fn first_like(c: Seq<CutView>, s: int, t: int) -> bool {
    &&& 0 <= s < c.len()
    &&& c[s].leaves == c[t].leaves
    &&& forall|r: int| 0 <= r < s ==> (#[trigger] c[r]).leaves != c[t].leaves
}

/// Candidate `t` has another table than the first one with its leaves.
pub open spec fn disagrees(c: Seq<CutView>, t: int) -> bool {
    exists|s: int| #[trigger] first_like(c, s, t) && c[s].tt != c[t].tt
}

/// `x` is a candidate of `c` and the first one with its leaves.
#[verifier::opaque]
spec fn leads(c: Seq<CutView>, x: CutView) -> bool {
    exists|s: int| #[trigger] first_like(c, s, s) && c[s] == x
}

/// Some candidate of `cands` has the leaves.
#[verifier::opaque]
spec fn met(cands: Seq<CutView>, leaves: Seq<u32>) -> bool {
    exists|i: int| 0 <= i < cands.len() && (#[trigger] cands[i]).leaves == leaves
}

/// The pool keeps the first candidates of each leaf set and counts those that disagree.
spec fn pool_exact(p: Pool, c: Seq<CutView>) -> bool {
    &&& forall|i: int| 0 <= i < p.cands.len() ==> leads(c, #[trigger] p.cands[i])
    &&& forall|t: int| 0 <= t < c.len() ==> met(p.cands, (#[trigger] c[t]).leaves)
    &&& p.conflicts == count(c.len(), |t: int| disagrees(c, t))
}

proof fn lemma_first_like_prefix(c: Seq<CutView>, n: int, s: int, t: int)
    requires
        0 <= n <= c.len(),
        0 <= t < n,
    ensures
        first_like(c.take(n), s, t) == first_like(c, s, t),
{
    let d = c.take(n);
    if first_like(c, s, t) {
        assert(s <= t) by {
            if t < s {
                assert(c[t].leaves != c[t].leaves);
            }
        }
        assert forall|r: int| 0 <= r < s implies (#[trigger] d[r]).leaves != d[t].leaves by {
            assert(c[r].leaves != c[t].leaves);
        }
    }
    if first_like(d, s, t) {
        assert forall|r: int| 0 <= r < s implies (#[trigger] c[r]).leaves != c[t].leaves by {
            assert(d[r].leaves != d[t].leaves);
        }
    }
}

proof fn lemma_disagrees_prefix(c: Seq<CutView>, n: int, t: int)
    requires
        0 <= n <= c.len(),
        0 <= t < n,
    ensures
        disagrees(c.take(n), t) == disagrees(c, t),
{
    let d = c.take(n);
    if disagrees(c, t) {
        let s = choose|s: int| #[trigger] first_like(c, s, t) && c[s].tt != c[t].tt;
        lemma_first_like_prefix(c, n, s, t);
        assert(first_like(d, s, t));
    }
    if disagrees(d, t) {
        let s = choose|s: int| #[trigger] first_like(d, s, t) && d[s].tt != d[t].tt;
        lemma_first_like_prefix(c, n, s, t);
        assert(first_like(c, s, t));
    }
}

proof fn lemma_leads_prefix(c: Seq<CutView>, n: int, x: CutView)
    requires
        0 <= n <= c.len(),
        leads(c.take(n), x),
    ensures
        leads(c, x),
{
    reveal(leads);
    let d = c.take(n);
    let s = choose|s: int| #[trigger] first_like(d, s, s) && d[s] == x;
    lemma_first_like_prefix(c, n, s, s);
    assert(first_like(c, s, s) && c[s] == x);
}

/// The last candidate disagrees if the pool's one with its leaves has another table.
proof fn lemma_last_disagrees(c: Seq<CutView>, y: CutView)
    requires
        c.len() > 0,
        leads(c, y),
        y.leaves == c.last().leaves,
    ensures
        disagrees(c, c.len() - 1) == (y.tt != c.last().tt),
{
    reveal(leads);
    let n = c.len() - 1;
    let s = choose|s: int| #[trigger] first_like(c, s, s) && c[s] == y;
    assert(first_like(c, s, n));
    if disagrees(c, n) {
        let r = choose|r: int| #[trigger] first_like(c, r, n) && c[r].tt != c[n].tt;
        if r < s {
            assert(c[r].leaves != c[n].leaves);
        }
        if s < r {
            assert(c[s].leaves != c[n].leaves);
        }
    }
}

/// A last candidate with new leaves leads and disagrees with none.
proof fn lemma_last_leads(c: Seq<CutView>)
    requires
        c.len() > 0,
        forall|t: int| 0 <= t < c.len() - 1 ==> (#[trigger] c[t]).leaves != c.last().leaves,
    ensures
        leads(c, c.last()),
        !disagrees(c, c.len() - 1),
{
    reveal(leads);
    let n = c.len() - 1;
    assert(first_like(c, n, n));
    if disagrees(c, n) {
        let r = choose|r: int| #[trigger] first_like(c, r, n) && c[r].tt != c[n].tt;
        assert(r < n);
        assert(c[r].leaves != c.last().leaves);
    }
}

proof fn lemma_met_grows(cands: Seq<CutView>, x: CutView, leaves: Seq<u32>)
    ensures
        met(cands, leaves) ==> met(cands.push(x), leaves),
        met(cands.push(x), x.leaves),
{
    reveal(met);
    let all = cands.push(x);
    assert(all[cands.len() as int].leaves == x.leaves);
    if met(cands, leaves) {
        let i = choose|i: int| 0 <= i < cands.len() && (#[trigger] cands[i]).leaves == leaves;
        assert(all[i].leaves == leaves);
    }
}

proof fn lemma_met_first(cands: Seq<CutView>, leaves: Seq<u32>)
    ensures
        met(cands, leaves) <==> exists|i: int| first_with(cands, leaves, i),
{
    reveal(met);
    if met(cands, leaves) {
        let i = choose|i: int| 0 <= i < cands.len() && (#[trigger] cands[i]).leaves == leaves;
        lemma_first_with(cands, leaves, i);
    }
    if exists|i: int| first_with(cands, leaves, i) {
        let i = choose|i: int| first_with(cands, leaves, i);
        assert(cands[i].leaves == leaves);
    }
}

proof fn lemma_offered_exact(c: Seq<CutView>)
    ensures
        pool_exact(offered_all(Pool { cands: Seq::empty(), conflicts: 0 }, c), c),
    decreases c.len(),
{
    let zero = Pool { cands: Seq::empty(), conflicts: 0 };
    let p = offered_all(zero, c);
    if c.len() > 0 {
        let n = c.len() - 1;
        let d = c.drop_last();
        assert(d =~= c.take(n));
        lemma_offered_exact(d);
        let q = offered_all(zero, d);
        let x = c[n];
        let f = |t: int| disagrees(c, t);
        let g = |t: int| disagrees(d, t);
        assert forall|t: int| 0 <= t < n implies #[trigger] f(t) == g(t) by {
            lemma_disagrees_prefix(c, n, t);
        }
        lemma_count_ext(n as nat, f, g);
        lemma_met_first(q.cands, x.leaves);
        assert forall|i: int| 0 <= i < q.cands.len() implies leads(c, #[trigger] q.cands[i]) by {
            lemma_leads_prefix(c, n, q.cands[i]);
        }
        if met(q.cands, x.leaves) {
            let i = choose|i: int| first_with(q.cands, x.leaves, i);
            lemma_last_disagrees(c, q.cands[i]);
            assert forall|t: int| 0 <= t < c.len() implies met(
                p.cands,
                (#[trigger] c[t]).leaves,
            ) by {
                if t < n {
                    assert(d[t] == c[t]);
                }
            }
        } else {
            assert forall|t: int| 0 <= t < n implies (#[trigger] c[t]).leaves != x.leaves by {
                assert(d[t] == c[t]);
            }
            lemma_last_leads(c);
            assert(p.cands == q.cands.push(x));
            assert forall|i: int| 0 <= i < p.cands.len() implies leads(
                c,
                #[trigger] p.cands[i],
            ) by {
                if i < q.cands.len() {
                    assert(p.cands[i] == q.cands[i]);
                }
            }
            assert forall|t: int| 0 <= t < c.len() implies met(
                p.cands,
                (#[trigger] c[t]).leaves,
            ) by {
                lemma_met_grows(q.cands, x, c[t].leaves);
                if t < n {
                    assert(d[t] == c[t]);
                }
            }
        }
    }
}

/// Finishing a class by merging adds to the conflicts as many as there are merges with
/// another table than the first merge with the same leaves.
pub proof fn conflicts_are_disagreements(
    graph: &ClassGraph,
    params: CutParams,
    kernels: Seq<Kernel>,
    cone: Seq<bool>,
    si: int,
    st: Sweep,
    v: u32,
)
    requires
        !st.done[v as int],
        cone[v as int],
    ensures
        visit(graph, params, kernels, cone, si, st, v) matches Ok((next, finished)) ==> {
            let c = made_at(
                graph,
                params,
                kernels,
                st,
                si,
                v as int,
                considered(graph, params, v as int).len(),
            );
            if finished && kind_of(graph, kernels, v as int) == Some(ClassKind::Internal) {
                next.conflicts == st.conflicts + those(c.len(), |t: int| disagrees(c, t)).len()
            } else {
                next.conflicts == st.conflicts
            }
        },
{
    let n = considered(graph, params, v as int).len();
    let c = made_at(graph, params, kernels, st, si, v as int, n);
    lemma_class_offered(graph, params, kernels, st, si, v as int, n);
    lemma_offered_exact(c);
    counts_are_of_sets(c.len(), |t: int| disagrees(c, t));
}

} // verus!
