//! Cheapest terms of class graphs that hold the same e-nodes in another order.
use egglog::EGraph;
use vstd::prelude::*;

use crate::class_graph::ClassGraph;
use crate::cost::{Cost, INFINITY_KEY};
use crate::egraph::strings_of;
use crate::extract_dp::{
    cheapest, child_max, child_sum, children_finite, chosen_enodes_belong, enode_cost, mix_children,
    mix_prims, solvable, solved, struct_hash, text_hash, texts_of, Dp, Pricing,
};
use crate::extract_laws::{
    lemma_cheapest_min, lemma_child_earlier, lemma_cost_local, lemma_earlier_same,
    lemma_settled_same, lemma_solve_outside,
};
use crate::stats::cyclic;

verus! {

// ------------------------------------------------------------------------ model

/// E-node `y` of graph `h` is e-node `x` of graph `g`, with the classes placed by `at` and
/// over the same strings.
pub open spec fn enode_moved(
    a: EGraph,
    b: EGraph,
    g: &ClassGraph,
    h: &ClassGraph,
    at: Seq<u32>,
    x: int,
    y: int,
) -> bool {
    let (m, n) = (g.enodes@[x], h.enodes@[y]);
    let (u, w) = (g.funcs@[m.func as int], h.funcs@[n.func as int]);
    &&& u.term_name@ == w.term_name@
    &&& u.eq_mask@ == w.eq_mask@
    &&& m.head == n.head
    &&& m.ch_eq@.len() == n.ch_eq@.len()
    &&& forall|j: int| 0 <= j < m.ch_eq@.len() ==> #[trigger] n.ch_eq@[j] == at[m.ch_eq@[j] as int]
    &&& m.ch_prim@.len() == n.ch_prim@.len()
    &&& forall|j: int|
        0 <= j < m.ch_prim@.len() ==> (#[trigger] m.ch_prim@[j]).0 == n.ch_prim@[j].0
            && strings_of(a)[m.ch_prim@[j].1] == strings_of(b)[n.ch_prim@[j].1]
}

/// Some e-node of class `w` of `h` is e-node `x` of `g`.
#[verifier::opaque]
pub open spec fn found_in(
    a: EGraph,
    b: EGraph,
    g: &ClassGraph,
    h: &ClassGraph,
    at: Seq<u32>,
    x: int,
    w: int,
) -> bool {
    exists|k: int|
        0 <= k < h.enodes_of@[w]@.len() && enode_moved(
            a,
            b,
            g,
            h,
            at,
            x,
            #[trigger] h.enodes_of@[w]@[k] as int,
        )
}

/// E-node `y` of `h` is some e-node of class `v` of `g`.
#[verifier::opaque]
pub open spec fn found_back(
    a: EGraph,
    b: EGraph,
    g: &ClassGraph,
    h: &ClassGraph,
    at: Seq<u32>,
    v: int,
    y: int,
) -> bool {
    exists|i: int|
        0 <= i < g.enodes_of@[v]@.len() && enode_moved(
            a,
            b,
            g,
            h,
            at,
            #[trigger] g.enodes_of@[v]@[i] as int,
            y,
        )
}

/// Class `at[v]` of `h` has the e-nodes of class `v` of `g`, in some order.
pub open spec fn moved(
    a: EGraph,
    b: EGraph,
    g: &ClassGraph,
    h: &ClassGraph,
    at: Seq<u32>,
) -> bool {
    &&& at.len() == g.size()
    &&& forall|v: int| 0 <= v < g.size() ==> #[trigger] at[v] < h.size()
    &&& forall|v: int, i: int|
        0 <= v < g.size() && 0 <= i < g.enodes_of@[v]@.len() ==> found_in(
            a,
            b,
            g,
            h,
            at,
            #[trigger] g.enodes_of@[v]@[i] as int,
            at[v] as int,
        )
    &&& forall|v: int, k: int|
        0 <= v < g.size() && 0 <= k < h.enodes_of@[at[v] as int]@.len() ==> found_back(
            a,
            b,
            g,
            h,
            at,
            v,
            #[trigger] h.enodes_of@[at[v] as int]@[k] as int,
        )
}

/// No class lies on a cycle.
pub open spec fn acyclic(graph: &ClassGraph) -> bool {
    forall|v: int| 0 <= v < graph.size() ==> !#[trigger] cyclic(graph, v)
}

// --------------------------------------------------------------------- solution

/// Class `v` has the cheapest of its e-nodes.
pub open spec fn picked(graph: &ClassGraph, p: Pricing, st: Dp, v: int) -> bool {
    (st.costs[v], st.hashes[v], st.best[v]) == cheapest(
        graph,
        p,
        st,
        v,
        graph.enodes_of@[v]@.len(),
    )
}

proof fn lemma_cheapest_local(graph: &ClassGraph, p: Pricing, a: Dp, b: Dp, v: int, n: nat)
    requires
        n <= graph.enodes_of@[v]@.len(),
        forall|i: int|
            0 <= i < graph.enodes_of@[v]@.len() ==> enode_cost(
                graph,
                p,
                a,
                #[trigger] graph.enodes_of@[v]@[i] as int,
            ) == enode_cost(graph, p, b, graph.enodes_of@[v]@[i] as int) && struct_hash(
                graph,
                p.texts,
                a.hashes,
                graph.enodes_of@[v]@[i] as int,
            ) == struct_hash(graph, p.texts, b.hashes, graph.enodes_of@[v]@[i] as int),
    ensures
        cheapest(graph, p, a, v, n) == cheapest(graph, p, b, v, n),
    decreases n,
{
    if n > 0 {
        lemma_cheapest_local(graph, p, a, b, v, (n - 1) as nat);
        let e = graph.enodes_of@[v]@[n - 1] as int;
        assert(enode_cost(graph, p, a, e) == enode_cost(graph, p, b, e));
    }
}

/// Without cycles every class has the cheapest of its e-nodes in the end.
proof fn lemma_solved_picked(graph: &ClassGraph, p: Pricing, n: nat)
    requires
        solvable(graph),
        graph.condensed(),
        acyclic(graph),
        n <= graph.sccs@.len(),
    ensures
        solved(graph, p, n) matches Some(st) ==> forall|v: int|
            0 <= v < graph.size() && graph.scc_of@[v] < n ==> #[trigger] picked(graph, p, st, v),
    decreases n,
{
    if n > 0 {
        lemma_solved_picked(graph, p, (n - 1) as nat);
        chosen_enodes_belong(graph, p, (n - 1) as nat);
        let prev = solved(graph, p, (n - 1) as nat);
        let r = solved(graph, p, n);
        if r is Some {
            let a = prev->0;
            let b = r->0;
            lemma_solve_outside(graph, p, a, n - 1);
            let comp = graph.sccs@[n - 1]@;
            assert(comp.len() > 0);
            let w = comp[0] as int;
            assert(graph.sccs@[n - 1]@[0] < graph.size() && graph.scc_of@[w] == n - 1);
            assert(!cyclic(graph, w));
            assert forall|v: int|
                0 <= v < graph.size() && graph.scc_of@[v] < n implies #[trigger] picked(
                graph,
                p,
                b,
                v,
            ) by {
                let ens = graph.enodes_of@[v]@;
                assert forall|i: int| 0 <= i < ens.len() implies enode_cost(
                    graph,
                    p,
                    a,
                    #[trigger] graph.enodes_of@[v]@[i] as int,
                ) == enode_cost(graph, p, b, graph.enodes_of@[v]@[i] as int) && struct_hash(
                    graph,
                    p.texts,
                    a.hashes,
                    graph.enodes_of@[v]@[i] as int,
                ) == struct_hash(graph, p.texts, b.hashes, graph.enodes_of@[v]@[i] as int) by {
                    let e = graph.enodes_of@[v]@[i] as int;
                    if graph.scc_of@[v] < n - 1 {
                        lemma_earlier_same(graph, a, b, n - 1, v, e);
                    } else {
                        lemma_only_member(graph, n - 1, v);
                        lemma_settled_same(graph, a, b, v, e);
                    }
                    lemma_cost_local(graph, p, a, b, e);
                }
                lemma_cheapest_local(graph, p, a, b, v, ens.len());
                if graph.scc_of@[v] < n - 1 {
                    assert(picked(graph, p, a, v));
                } else {
                    lemma_only_member(graph, n - 1, v);
                }
            }
        }
    }
}

/// The same of one class.
pub(crate) proof fn lemma_class_picked(graph: &ClassGraph, p: Pricing, st: Dp, v: int)
    requires
        solvable(graph),
        graph.condensed(),
        acyclic(graph),
        solved(graph, p, graph.sccs@.len()) == Some(st),
        0 <= v < graph.size(),
    ensures
        picked(graph, p, st, v),
{
    lemma_solved_picked(graph, p, graph.sccs@.len());
    assert(graph.scc_of@[v] < graph.sccs@.len());
    let r = solved(graph, p, graph.sccs@.len())->0;
    assert(picked(graph, p, r, v));
}

proof fn lemma_only_member(graph: &ClassGraph, si: int, v: int)
    requires
        graph.wf(),
        acyclic(graph),
        0 <= v < graph.size(),
        graph.scc_of@[v] == si,
    ensures
        graph.sccs@[si]@.len() == 1,
        graph.sccs@[si]@[0] == v as u32,
{
    assert(!cyclic(graph, v));
    assert(graph.sccs@[graph.scc_of@[v] as int]@.contains(v as u32));
    assert(graph.sccs@[si]@.len() > 0);
}

/// Where the cheapest of the first `n` e-nodes comes from.
pub(crate) proof fn lemma_cheapest_origin(graph: &ClassGraph, p: Pricing, st: Dp, v: int, n: nat)
    ensures
        ({
            let (bc, bh, bi) = cheapest(graph, p, st, v, n);
            match bi {
                None => bc == Cost::Number(INFINITY_KEY) && bh == u64::MAX,
                Some(b) => {
                    &&& exists|i: int| 0 <= i < n && #[trigger] graph.enodes_of@[v]@[i] == b
                    &&& enode_cost(graph, p, st, b as int) == Some(bc)
                    &&& bh == struct_hash(graph, p.texts, st.hashes, b as int)
                    &&& bc.below(Cost::Number(INFINITY_KEY)) || (bc == Cost::Number(INFINITY_KEY)
                        && bh < u64::MAX)
                },
            }
        }),
    decreases n,
{
    if n > 0 {
        lemma_cheapest_origin(graph, p, st, v, (n - 1) as nat);
        let (bc, bh, bi) = cheapest(graph, p, st, v, (n - 1) as nat);
        let (_, _, ci) = cheapest(graph, p, st, v, n);
        if let Some(c) = ci {
            if ci == bi {
                let i = choose|i: int| 0 <= i < n - 1 && #[trigger] graph.enodes_of@[v]@[i] == c;
                assert(graph.enodes_of@[v]@[i] == c);
            } else {
                assert(graph.enodes_of@[v]@[n - 1] == c);
            }
        }
    }
}

// ------------------------------------------------------------------- comparison

/// The pricings agree but for the tables of texts.
pub open spec fn same_prices(p: Pricing, q: Pricing) -> bool {
    p.fold_max == q.fold_max && p.plus == q.plus && p.sum_price == q.sum_price && p.max_price
        == q.max_price
}

/// Class `at[v]` has the cost and the hash of class `v`, for the children of e-node `x`.
spec fn children_agree(
    g: &ClassGraph,
    at: Seq<u32>,
    s: Dp,
    t: Dp,
    x: int,
) -> bool {
    forall|j: int|
        0 <= j < g.children(x).len() ==> {
            let c = #[trigger] g.children(x)[j] as int;
            s.costs[c] == t.costs[at[c] as int] && s.hashes[c] == t.hashes[at[c] as int]
        }
}

proof fn lemma_mix_moved(
    k: u64,
    x: Seq<u32>,
    y: Seq<u32>,
    s: Seq<u64>,
    t: Seq<u64>,
    n: nat,
)
    requires
        n <= x.len(),
        x.len() == y.len(),
        forall|j: int| 0 <= j < x.len() ==> s[#[trigger] x[j] as int] == t[y[j] as int],
    ensures
        mix_children(k, x, s, n) == mix_children(k, y, t, n),
    decreases n,
{
    if n > 0 {
        lemma_mix_moved(k, x, y, s, t, (n - 1) as nat);
        assert(s[x[n - 1] as int] == t[y[n - 1] as int]);
    }
}

proof fn lemma_sum_moved(
    plus: spec_fn(Cost, Cost) -> Cost,
    x: Seq<u32>,
    y: Seq<u32>,
    s: Seq<Cost>,
    t: Seq<Cost>,
    n: nat,
)
    requires
        n <= x.len(),
        x.len() == y.len(),
        forall|j: int| 0 <= j < x.len() ==> s[#[trigger] x[j] as int] == t[y[j] as int],
    ensures
        child_sum(plus, x, s, n) == child_sum(plus, y, t, n),
        child_max(x, s, n) == child_max(y, t, n),
    decreases n,
{
    if n > 0 {
        lemma_sum_moved(plus, x, y, s, t, (n - 1) as nat);
        assert(s[x[n - 1] as int] == t[y[n - 1] as int]);
    }
}

proof fn lemma_prims_moved(
    k: u64,
    x: Seq<(u32, u32)>,
    y: Seq<(u32, u32)>,
    s: Seq<u64>,
    t: Seq<u64>,
    n: nat,
)
    requires
        n <= x.len(),
        x.len() == y.len(),
        forall|j: int| 0 <= j < x.len() ==> (#[trigger] x[j]).0 == y[j].0,
        forall|j: int| 0 <= j < x.len() ==> #[trigger] s[j] == t[j],
    ensures
        mix_prims(k, x, s, n) == mix_prims(k, y, t, n),
    decreases n,
{
    if n > 0 {
        lemma_prims_moved(k, x, y, s, t, (n - 1) as nat);
        assert(x[n - 1].0 == y[n - 1].0);
    }
}

/// An e-node costs the same, and has the same hash, wherever it stands.
proof fn lemma_offer_moved(
    a: EGraph,
    b: EGraph,
    g: &ClassGraph,
    h: &ClassGraph,
    at: Seq<u32>,
    p: Pricing,
    q: Pricing,
    s: Dp,
    t: Dp,
    x: int,
    y: int,
)
    requires
        0 <= x < g.enodes@.len(),
        0 <= y < h.enodes@.len(),
        enode_moved(a, b, g, h, at, x, y),
        same_prices(p, q),
        p.texts == texts_of(a, g.enodes@),
        q.texts == texts_of(b, h.enodes@),
        children_agree(g, at, s, t, x),
    ensures
        enode_cost(g, p, s, x) == enode_cost(h, q, t, y),
        struct_hash(g, p.texts, s.hashes, x) == struct_hash(h, q.texts, t.hashes, y),
{
    let (m, n) = (g.enodes@[x], h.enodes@[y]);
    let (k, l) = (m.ch_eq@, n.ch_eq@);
    assert forall|j: int| 0 <= j < k.len() implies s.costs[#[trigger] k[j] as int]
        == t.costs[l[j] as int] && s.hashes[k[j] as int] == t.hashes[l[j] as int] by {
        let c = g.children(x)[j] as int;
        assert(s.costs[c] == t.costs[at[c] as int]);
        assert(n.ch_eq@[j] == at[m.ch_eq@[j] as int]);
    }
    let name = g.funcs@[m.func as int].term_name@;
    lemma_mix_moved(text_hash(name), k, l, s.hashes, t.hashes, k.len());
    lemma_sum_moved(p.plus, k, l, s.costs, t.costs, k.len());
    let (u, w) = (p.texts[x], q.texts[y]);
    assert forall|j: int| 0 <= j < m.ch_prim@.len() implies #[trigger] u[j] == w[j] by {
        assert(strings_of(a)[m.ch_prim@[j].1] == strings_of(b)[n.ch_prim@[j].1]);
    }
    lemma_prims_moved(
        mix_children(text_hash(name), k, s.hashes, k.len()),
        m.ch_prim@,
        n.ch_prim@,
        u,
        w,
        m.ch_prim@.len(),
    );
    assert(children_finite(k, s.costs, k.len() as int) == children_finite(
        l,
        t.costs,
        l.len() as int,
    )) by {
        if children_finite(k, s.costs, k.len() as int) {
            assert forall|j: int| 0 <= j < l.len() implies t.costs[
                #[trigger] l[j] as int
            ].finite() by {
                assert(s.costs[k[j] as int].finite());
            }
        }
        if children_finite(l, t.costs, l.len() as int) {
            assert forall|j: int| 0 <= j < k.len() implies s.costs[
                #[trigger] k[j] as int
            ].finite() by {
                assert(t.costs[l[j] as int].finite());
            }
        }
    }
}

/// E-nodes of class `w` with the same cost and the same hash are one.
pub open spec fn told_apart(graph: &ClassGraph, p: Pricing, st: Dp, w: int) -> bool {
    forall|i: int, k: int|
        0 <= i < graph.enodes_of@[w]@.len() && 0 <= k < graph.enodes_of@[w]@.len() && enode_cost(
            graph,
            p,
            st,
            #[trigger] graph.enodes_of@[w]@[i] as int,
        ) == enode_cost(graph, p, st, #[trigger] graph.enodes_of@[w]@[k] as int) && struct_hash(
            graph,
            p.texts,
            st.hashes,
            graph.enodes_of@[w]@[i] as int,
        ) == struct_hash(graph, p.texts, st.hashes, graph.enodes_of@[w]@[k] as int)
            ==> graph.enodes_of@[w]@[i] == graph.enodes_of@[w]@[k]
}

/// The e-nodes chosen for class `v` of `g` and class `at[v]` of `h` are the same, or neither
/// has one.
pub open spec fn choice_moved(
    a: EGraph,
    b: EGraph,
    g: &ClassGraph,
    h: &ClassGraph,
    at: Seq<u32>,
    s: Dp,
    t: Dp,
    v: int,
) -> bool {
    match (s.best[v], t.best[at[v] as int]) {
        (Some(x), Some(y)) => x < g.enodes@.len() && y < h.enodes@.len() && enode_moved(
            a,
            b,
            g,
            h,
            at,
            x as int,
            y as int,
        ),
        (None, None) => true,
        _ => false,
    }
}

/// What an e-node of class `v` offers is offered at the class's place.
proof fn lemma_offered_in(
    a: EGraph,
    b: EGraph,
    g: &ClassGraph,
    h: &ClassGraph,
    at: Seq<u32>,
    p: Pricing,
    q: Pricing,
    s: Dp,
    t: Dp,
    v: int,
    e: usize,
) -> (k: int)
    requires
        g.wf(),
        h.wf(),
        moved(a, b, g, h, at),
        same_prices(p, q),
        p.texts == texts_of(a, g.enodes@),
        q.texts == texts_of(b, h.enodes@),
        0 <= v < g.size(),
        g.enodes_of@[v]@.contains(e),
        forall|i: int|
            0 <= i < g.enodes_of@[v]@.len() ==> children_agree(
                g,
                at,
                s,
                t,
                #[trigger] g.enodes_of@[v]@[i] as int,
            ),
    ensures
        0 <= k < h.enodes_of@[at[v] as int]@.len(),
        e < g.enodes@.len(),
        h.enodes_of@[at[v] as int]@[k] < h.enodes@.len(),
        enode_moved(a, b, g, h, at, e as int, h.enodes_of@[at[v] as int]@[k] as int),
        enode_cost(h, q, t, h.enodes_of@[at[v] as int]@[k] as int) == enode_cost(
            g,
            p,
            s,
            e as int,
        ),
        struct_hash(h, q.texts, t.hashes, h.enodes_of@[at[v] as int]@[k] as int) == struct_hash(
            g,
            p.texts,
            s.hashes,
            e as int,
        ),
{
    let w = at[v] as int;
    assert(at[v] < h.size());
    let i = choose|i: int| 0 <= i < g.enodes_of@[v]@.len() && g.enodes_of@[v]@[i] == e;
    assert(found_in(a, b, g, h, at, g.enodes_of@[v]@[i] as int, at[v] as int));
    let k = lemma_found_in(a, b, g, h, at, e as int, w);
    assert(g.enodes_of@[v]@[i] < g.enodes@.len());
    assert(h.enodes_of@[w]@[k] < h.enodes@.len());
    assert(children_agree(g, at, s, t, g.enodes_of@[v]@[i] as int));
    lemma_offer_moved(a, b, g, h, at, p, q, s, t, e as int, h.enodes_of@[w]@[k] as int);
    k
}

proof fn lemma_found_in(
    a: EGraph,
    b: EGraph,
    g: &ClassGraph,
    h: &ClassGraph,
    at: Seq<u32>,
    x: int,
    w: int,
) -> (k: int)
    requires
        found_in(a, b, g, h, at, x, w),
    ensures
        0 <= k < h.enodes_of@[w]@.len(),
        enode_moved(a, b, g, h, at, x, h.enodes_of@[w]@[k] as int),
{
    reveal(found_in);
    choose|k: int|
        0 <= k < h.enodes_of@[w]@.len() && enode_moved(
            a,
            b,
            g,
            h,
            at,
            x,
            #[trigger] h.enodes_of@[w]@[k] as int,
        )
}

proof fn lemma_found_back(
    a: EGraph,
    b: EGraph,
    g: &ClassGraph,
    h: &ClassGraph,
    at: Seq<u32>,
    v: int,
    y: int,
) -> (i: int)
    requires
        found_back(a, b, g, h, at, v, y),
    ensures
        0 <= i < g.enodes_of@[v]@.len(),
        enode_moved(a, b, g, h, at, g.enodes_of@[v]@[i] as int, y),
{
    reveal(found_back);
    choose|i: int|
        0 <= i < g.enodes_of@[v]@.len() && enode_moved(
            a,
            b,
            g,
            h,
            at,
            #[trigger] g.enodes_of@[v]@[i] as int,
            y,
        )
}

/// What an e-node offers at the place of class `v` is offered by one of the class.
proof fn lemma_offered_back(
    a: EGraph,
    b: EGraph,
    g: &ClassGraph,
    h: &ClassGraph,
    at: Seq<u32>,
    p: Pricing,
    q: Pricing,
    s: Dp,
    t: Dp,
    v: int,
    d: usize,
) -> (i: int)
    requires
        g.wf(),
        h.wf(),
        moved(a, b, g, h, at),
        same_prices(p, q),
        p.texts == texts_of(a, g.enodes@),
        q.texts == texts_of(b, h.enodes@),
        0 <= v < g.size(),
        h.enodes_of@[at[v] as int]@.contains(d),
        forall|i: int|
            0 <= i < g.enodes_of@[v]@.len() ==> children_agree(
                g,
                at,
                s,
                t,
                #[trigger] g.enodes_of@[v]@[i] as int,
            ),
    ensures
        0 <= i < g.enodes_of@[v]@.len(),
        enode_cost(g, p, s, g.enodes_of@[v]@[i] as int) == enode_cost(h, q, t, d as int),
        struct_hash(g, p.texts, s.hashes, g.enodes_of@[v]@[i] as int) == struct_hash(
            h,
            q.texts,
            t.hashes,
            d as int,
        ),
{
    let w = at[v] as int;
    assert(at[v] < h.size());
    let k = choose|k: int| 0 <= k < h.enodes_of@[w]@.len() && h.enodes_of@[w]@[k] == d;
    assert(found_back(a, b, g, h, at, v, h.enodes_of@[at[v] as int]@[k] as int));
    let i = lemma_found_back(a, b, g, h, at, v, d as int);
    assert(g.enodes_of@[v]@[i] < g.enodes@.len());
    assert(h.enodes_of@[w]@[k] < h.enodes@.len());
    lemma_offer_moved(a, b, g, h, at, p, q, s, t, g.enodes_of@[v]@[i] as int, d as int);
    i
}

/// The same e-nodes offer the same cheapest one.
proof fn lemma_picks_agree(
    a: EGraph,
    b: EGraph,
    g: &ClassGraph,
    h: &ClassGraph,
    at: Seq<u32>,
    p: Pricing,
    q: Pricing,
    s: Dp,
    t: Dp,
    v: int,
)
    requires
        g.wf(),
        h.wf(),
        moved(a, b, g, h, at),
        same_prices(p, q),
        p.texts == texts_of(a, g.enodes@),
        q.texts == texts_of(b, h.enodes@),
        0 <= v < g.size(),
        picked(g, p, s, v),
        picked(h, q, t, at[v] as int),
        forall|i: int|
            0 <= i < g.enodes_of@[v]@.len() ==> children_agree(
                g,
                at,
                s,
                t,
                #[trigger] g.enodes_of@[v]@[i] as int,
            ),
    ensures
        s.costs[v] == t.costs[at[v] as int],
        s.hashes[v] == t.hashes[at[v] as int],
        told_apart(h, q, t, at[v] as int) ==> choice_moved(a, b, g, h, at, s, t, v),
{
    let w = at[v] as int;
    assert(at[v] < h.size());
    let (x, y) = (g.enodes_of@[v]@, h.enodes_of@[w]@);
    lemma_cheapest_min(g, p, s, v, x.len());
    lemma_cheapest_min(h, q, t, w, y.len());
    lemma_cheapest_origin(g, p, s, v, x.len());
    lemma_cheapest_origin(h, q, t, w, y.len());
    let (cg, hg, bg) = cheapest(g, p, s, v, x.len());
    let (ch, hh, bh) = cheapest(h, q, t, w, y.len());
    if let Some(e) = bg {
        lemma_offered_in(a, b, g, h, at, p, q, s, t, v, e);
    }
    if let Some(d) = bh {
        lemma_offered_back(a, b, g, h, at, p, q, s, t, v, d);
    }
    assert(cg == ch && hg == hh);
    if told_apart(h, q, t, w) && bg is Some && bh is Some {
        let k = lemma_offered_in(a, b, g, h, at, p, q, s, t, v, bg->0);
        let m = choose|m: int| 0 <= m < y.len() && #[trigger] h.enodes_of@[w]@[m] == bh->0;
        assert(h.enodes_of@[w]@[k] == h.enodes_of@[w]@[m]);
    }
}

/// What holds of class `v` and its place.
spec fn agrees(
    a: EGraph,
    b: EGraph,
    g: &ClassGraph,
    h: &ClassGraph,
    at: Seq<u32>,
    q: Pricing,
    s: Dp,
    t: Dp,
    v: int,
) -> bool {
    &&& s.costs[v] == t.costs[at[v] as int]
    &&& s.hashes[v] == t.hashes[at[v] as int]
    &&& told_apart(h, q, t, at[v] as int) ==> choice_moved(a, b, g, h, at, s, t, v)
}

proof fn lemma_solutions_agree(
    a: EGraph,
    b: EGraph,
    g: &ClassGraph,
    h: &ClassGraph,
    at: Seq<u32>,
    p: Pricing,
    q: Pricing,
    s: Dp,
    t: Dp,
    v: int,
)
    requires
        solvable(g),
        solvable(h),
        g.condensed(),
        h.condensed(),
        acyclic(g),
        acyclic(h),
        moved(a, b, g, h, at),
        same_prices(p, q),
        p.texts == texts_of(a, g.enodes@),
        q.texts == texts_of(b, h.enodes@),
        solved(g, p, g.sccs@.len()) == Some(s),
        solved(h, q, h.sccs@.len()) == Some(t),
        0 <= v < g.size(),
    ensures
        agrees(a, b, g, h, at, q, s, t, v),
    decreases g.scc_of@[v],
{
    assert(at[v] < h.size());
    lemma_class_picked(g, p, s, v);
    lemma_class_picked(h, q, t, at[v] as int);
    assert forall|i: int| 0 <= i < g.enodes_of@[v]@.len() implies children_agree(
        g,
        at,
        s,
        t,
        #[trigger] g.enodes_of@[v]@[i] as int,
    ) by {
        let e = g.enodes_of@[v]@[i] as int;
        assert(g.enodes_of@[v]@[i] < g.enodes@.len());
        assert forall|j: int| 0 <= j < g.children(e).len() implies {
            let c = #[trigger] g.children(e)[j] as int;
            s.costs[c] == t.costs[at[c] as int] && s.hashes[c] == t.hashes[at[c] as int]
        } by {
            let c = g.children(e)[j] as int;
            lemma_child_earlier(g, e, j);
            if g.scc_of@[c] == g.scc_of@[v] {
                lemma_only_member(g, g.scc_of@[v] as int, v);
                lemma_only_member(g, g.scc_of@[v] as int, c);
                assert(g.adj@[v]@.contains(v as u32));
                assert(cyclic(g, v));
            }
            lemma_solutions_agree(a, b, g, h, at, p, q, s, t, c);
        }
    }
    lemma_picks_agree(a, b, g, h, at, p, q, s, t, v);
}

/// Without cycles the costs and the structural hashes do not depend on the order of the
/// e-nodes and the classes. Neither do the choices, where costs and hashes tell the e-nodes
/// of a class apart.
pub proof fn solutions_ignore_the_order(
    a: EGraph,
    b: EGraph,
    g: &ClassGraph,
    h: &ClassGraph,
    at: Seq<u32>,
    p: Pricing,
    q: Pricing,
    s: Dp,
    t: Dp,
)
    requires
        solvable(g),
        solvable(h),
        g.condensed(),
        h.condensed(),
        acyclic(g),
        acyclic(h),
        moved(a, b, g, h, at),
        same_prices(p, q),
        p.texts == texts_of(a, g.enodes@),
        q.texts == texts_of(b, h.enodes@),
        solved(g, p, g.sccs@.len()) == Some(s),
        solved(h, q, h.sccs@.len()) == Some(t),
    ensures
        forall|v: int|
            0 <= v < g.size() ==> #[trigger] s.costs[v] == t.costs[at[v] as int] && s.hashes[v]
                == t.hashes[at[v] as int],
        forall|v: int|
            0 <= v < g.size() && told_apart(h, q, t, at[v] as int) ==> #[trigger] choice_moved(
                a,
                b,
                g,
                h,
                at,
                s,
                t,
                v,
            ),
{
    assert forall|v: int| 0 <= v < g.size() implies #[trigger] s.costs[v] == t.costs[at[v] as int]
        && s.hashes[v] == t.hashes[at[v] as int] by {
        lemma_solutions_agree(a, b, g, h, at, p, q, s, t, v);
    }
    assert forall|v: int|
        0 <= v < g.size() && told_apart(h, q, t, at[v] as int) implies #[trigger] choice_moved(
        a,
        b,
        g,
        h,
        at,
        s,
        t,
        v,
    ) by {
        lemma_solutions_agree(a, b, g, h, at, p, q, s, t, v);
    }
}

} // verus!
