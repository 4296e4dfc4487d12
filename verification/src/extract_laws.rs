//! What the cheapest e-nodes promise.
use vstd::prelude::*;

use crate::class_graph::{children_of, ClassGraph};
use crate::cost::{Cost, INFINITY_KEY, ZERO_KEY};
use crate::extract_dp::{
    cheapest, child_max, child_sum, children_finite, chosen_enodes_belong, enode_cost, improves,
    mix_children, pass_limit, relax_class, relax_enode, relax_pass, relaxed, solvable,
    solve_component, solved, struct_hash, unsolved, Dp, Pricing,
};
use crate::scc::{members, placed};
use crate::stats::cyclic;

verus! {

// ----------------------------------------------------------------------- locality

/// Two states agree on the children of e-node `e`.
pub open spec fn same_children(graph: &ClassGraph, a: Dp, b: Dp, e: int) -> bool {
    forall|j: int|
        0 <= j < graph.children(e).len() ==> {
            let c = #[trigger] graph.children(e)[j] as int;
            a.costs[c] == b.costs[c] && a.hashes[c] == b.hashes[c]
        }
}

proof fn lemma_mix_same(h: u64, ch: Seq<u32>, a: Seq<u64>, b: Seq<u64>, n: nat)
    requires
        n <= ch.len(),
        forall|j: int| 0 <= j < n ==> a[#[trigger] ch[j] as int] == b[ch[j] as int],
    ensures
        mix_children(h, ch, a, n) == mix_children(h, ch, b, n),
    decreases n,
{
    if n > 0 {
        lemma_mix_same(h, ch, a, b, (n - 1) as nat);
        assert(a[ch[n - 1] as int] == b[ch[n - 1] as int]);
    }
}

proof fn lemma_sum_same(
    plus: spec_fn(Cost, Cost) -> Cost,
    ch: Seq<u32>,
    a: Seq<Cost>,
    b: Seq<Cost>,
    n: nat,
)
    requires
        n <= ch.len(),
        forall|j: int| 0 <= j < n ==> a[#[trigger] ch[j] as int] == b[ch[j] as int],
    ensures
        child_sum(plus, ch, a, n) == child_sum(plus, ch, b, n),
        child_max(ch, a, n) == child_max(ch, b, n),
    decreases n,
{
    if n > 0 {
        lemma_sum_same(plus, ch, a, b, (n - 1) as nat);
        assert(a[ch[n - 1] as int] == b[ch[n - 1] as int]);
    }
}

/// The cost of an e-node depends on its children only.
pub(crate) proof fn lemma_cost_local(graph: &ClassGraph, p: Pricing, a: Dp, b: Dp, e: int)
    requires
        same_children(graph, a, b, e),
    ensures
        enode_cost(graph, p, a, e) == enode_cost(graph, p, b, e),
        struct_hash(graph, p.texts, a.hashes, e) == struct_hash(graph, p.texts, b.hashes, e),
{
    let ch = graph.children(e);
    assert forall|j: int| 0 <= j < ch.len() implies a.costs[#[trigger] ch[j] as int]
        == b.costs[ch[j] as int] && a.hashes[ch[j] as int] == b.hashes[ch[j] as int] by {
        let c = graph.children(e)[j] as int;
        assert(a.costs[c] == b.costs[c]);
    }
    assert forall|h: u64| #[trigger] mix_children(h, ch, a.hashes, ch.len()) == mix_children(
        h,
        ch,
        b.hashes,
        ch.len(),
    ) by {
        lemma_mix_same(h, ch, a.hashes, b.hashes, ch.len());
    }
    lemma_sum_same(p.plus, ch, a.costs, b.costs, ch.len());
    assert(children_finite(ch, a.costs, ch.len() as int) == children_finite(
        ch,
        b.costs,
        ch.len() as int,
    )) by {
        if children_finite(ch, a.costs, ch.len() as int) {
            assert forall|j: int| 0 <= j < ch.len() implies b.costs[
                #[trigger] ch[j] as int
            ].finite() by {
                assert(a.costs[ch[j] as int].finite());
            }
        }
        if children_finite(ch, b.costs, ch.len() as int) {
            assert forall|j: int| 0 <= j < ch.len() implies a.costs[
                #[trigger] ch[j] as int
            ].finite() by {
                assert(b.costs[ch[j] as int].finite());
            }
        }
    }
}

/// The state has an entry for every class.
pub open spec fn sized(graph: &ClassGraph, st: Dp) -> bool {
    st.costs.len() == graph.size() && st.hashes.len() == graph.size() && st.best.len()
        == graph.size()
}

/// Outside component `si` nothing changed.
pub open spec fn same_outside(graph: &ClassGraph, a: Dp, b: Dp, si: int) -> bool {
    &&& a.costs.len() == b.costs.len()
    &&& a.hashes.len() == b.hashes.len()
    &&& a.best.len() == b.best.len()
    &&& forall|v: int|
        0 <= v < graph.size() && #[trigger] graph.scc_of@[v] != si ==> a.costs[v] == b.costs[v]
            && a.hashes[v] == b.hashes[v] && a.best[v] == b.best[v]
}

proof fn lemma_relax_class_outside(graph: &ClassGraph, p: Pricing, st: Dp, v: int, n: nat)
    requires
        graph.wf(),
        sized(graph, st),
        0 <= v < graph.size(),
    ensures
        same_outside(
            graph,
            st,
            relax_class(graph, p, st, v, n).0,
            graph.scc_of@[v] as int,
        ),
    decreases n,
{
    if n > 0 {
        lemma_relax_class_outside(graph, p, st, v, (n - 1) as nat);
        let (mid, _) = relax_class(graph, p, st, v, (n - 1) as nat);
        lemma_relax_enode_outside(graph, p, mid, v, graph.enodes_of@[v]@[n - 1]);
        let (next, _) = relax_enode(graph, p, mid, v, graph.enodes_of@[v]@[n - 1]);
        assert(relax_class(graph, p, st, v, n).0 == next);
        let si = graph.scc_of@[v] as int;
        assert forall|w: int|
            0 <= w < graph.size() && #[trigger] graph.scc_of@[w] != si implies st.costs[w]
            == next.costs[w] && st.hashes[w] == next.hashes[w] && st.best[w] == next.best[w] by {
            assert(mid.costs[w] == next.costs[w]);
        }
    }
}

proof fn lemma_take_outside(graph: &ClassGraph, st: Dp, v: int, c: Cost, h: u64, e: Option<usize>)
    requires
        sized(graph, st),
        0 <= v < graph.size(),
    ensures
        same_outside(graph, st, st.take_enode(v, c, h, e), graph.scc_of@[v] as int),
{
}

proof fn lemma_relax_enode_outside(graph: &ClassGraph, p: Pricing, st: Dp, v: int, e: usize)
    requires
        sized(graph, st),
        0 <= v < graph.size(),
    ensures
        same_outside(
            graph,
            st,
            relax_enode(graph, p, st, v, e).0,
            graph.scc_of@[v] as int,
        ),
{
    let r = enode_cost(graph, p, st, e as int);
    if r is Some {
        lemma_take_outside(
            graph,
            st,
            v,
            r->0,
            struct_hash(graph, p.texts, st.hashes, e as int),
            Some(e),
        );
    }
}

proof fn lemma_relax_pass_outside(graph: &ClassGraph, p: Pricing, st: Dp, si: int, n: nat)
    requires
        graph.wf(),
        sized(graph, st),
        0 <= si < graph.sccs@.len(),
        n <= graph.sccs@[si]@.len(),
    ensures
        same_outside(graph, st, relax_pass(graph, p, st, si, n).0, si),
    decreases n,
{
    if n > 0 {
        lemma_relax_pass_outside(graph, p, st, si, (n - 1) as nat);
        let (mid, _) = relax_pass(graph, p, st, si, (n - 1) as nat);
        let v = graph.sccs@[si]@[n - 1];
        assert(v < graph.size() && graph.scc_of@[v as int] == si);
        lemma_relax_class_outside(
            graph,
            p,
            mid,
            v as int,
            graph.enodes_of@[v as int]@.len(),
        );
    }
}

proof fn lemma_relaxed_outside(graph: &ClassGraph, p: Pricing, st: Dp, si: int, fuel: nat)
    requires
        graph.wf(),
        sized(graph, st),
        0 <= si < graph.sccs@.len(),
    ensures
        relaxed(graph, p, st, si, fuel) matches Some(next) ==> same_outside(graph, st, next, si),
    decreases fuel,
{
    if fuel > 0 {
        let n = graph.sccs@[si]@.len();
        lemma_relax_pass_outside(graph, p, st, si, n);
        let (next, changed) = relax_pass(graph, p, st, si, n);
        if changed {
            lemma_relaxed_outside(graph, p, next, si, (fuel - 1) as nat);
        }
    }
}

/// The treatment of a component changes nothing outside it.
pub(crate) proof fn lemma_solve_outside(graph: &ClassGraph, p: Pricing, st: Dp, si: int)
    requires
        graph.wf(),
        sized(graph, st),
        0 <= si < graph.sccs@.len(),
    ensures
        solve_component(graph, p, st, si) matches Some(next) ==> same_outside(
            graph,
            st,
            next,
            si,
        ),
{
    let comp = graph.sccs@[si]@;
    assert(comp.len() > 0);
    assert(graph.sccs@[si]@[0] < graph.size() && graph.scc_of@[comp[0] as int] == si);
    let v = comp[0] as int;
    if cyclic(graph, v) {
        lemma_relaxed_outside(graph, p, st, si, pass_limit(comp.len()));
    } else {
        let (c, h, e) = cheapest(graph, p, st, v, graph.enodes_of@[v]@.len());
        lemma_take_outside(graph, st, v, c, h, e);
    }
}

/// A child lies in no later component.
pub(crate) proof fn lemma_child_earlier(graph: &ClassGraph, e: int, j: int)
    requires
        graph.wf(),
        graph.condensed(),
        0 <= e < graph.enodes@.len(),
        0 <= j < graph.children(e).len(),
    ensures
        graph.children(e)[j] < graph.size(),
        graph.scc_of@[graph.children(e)[j] as int] <= graph.scc_of@[graph.enodes@[e].out as int],
        graph.adj@[graph.enodes@[e].out as int]@.contains(graph.children(e)[j]),
{
    let v = graph.enodes@[e].out as int;
    let c = graph.children(e)[j];
    assert(graph.enodes@[e].ch_eq@[j] < graph.size());
    assert(graph.enodes@[e].out < graph.size());
    lemma_child_listed(graph, v, e, j, graph.enodes@.len());
    let kids = graph.adj@[v]@;
    assert(kids == children_of(graph.enodes@, v, graph.enodes@.len()));
    let k = choose|k: int| 0 <= k < kids.len() && kids[k] == c;
    let ms = members(graph.sccs@);
    let s = graph.scc_of@[v] as int;
    assert(graph.scc_of@[v] < graph.sccs@.len());
    let comp = graph.sccs@[s]@;
    assert(comp.contains(v as u32));
    let i = choose|i: int| 0 <= i < comp.len() && comp[i] == v as u32;
    assert(ms[s][i] == v as u32);
    assert(placed(ms, s + 1, graph.adj@[ms[s][i] as int]@[k]));
    let d = choose|d: int| 0 <= d < s + 1 && (#[trigger] ms[d]).contains(c);
    let q = choose|q: int| 0 <= q < ms[d].len() && ms[d][q] == c;
    assert(graph.sccs@[d]@[q] == c);
    assert(graph.scc_of@[graph.sccs@[d]@[q] as int] == d);
}

proof fn lemma_child_listed(graph: &ClassGraph, v: int, e: int, j: int, n: nat)
    requires
        n <= graph.enodes@.len(),
        0 <= e < n,
        graph.enodes@[e].out == v,
        0 <= j < graph.children(e).len(),
    ensures
        children_of(graph.enodes@, v, n).contains(graph.children(e)[j]),
    decreases n,
{
    let c = graph.children(e)[j];
    let rest = children_of(graph.enodes@, v, (n - 1) as nat);
    let all = children_of(graph.enodes@, v, n);
    if e < n - 1 {
        lemma_child_listed(graph, v, e, j, (n - 1) as nat);
        let k = choose|k: int| 0 <= k < rest.len() && rest[k] == c;
        assert(all[k] == c);
    } else {
        assert(all[rest.len() + j] == c);
    }
}

// ---------------------------------------------------------------- local optimality

/// E-node `e` is not cheaper than what class `v` has, and where it costs the same, its
/// structural hash is not smaller than that of the e-node that the class has.
pub open spec fn no_better(graph: &ClassGraph, p: Pricing, st: Dp, v: int, e: int) -> bool {
    enode_cost(graph, p, st, e) matches Some(c) ==> {
        &&& !c.below(st.costs[v])
        &&& c.same(st.costs[v]) ==> (st.best[v] matches Some(b) ==> struct_hash(
            graph,
            p.texts,
            st.hashes,
            b as int,
        ) <= struct_hash(graph, p.texts, st.hashes, e))
    }
}

/// No e-node of class `v` is better than what the class has.
pub open spec fn locally_cheapest(graph: &ClassGraph, p: Pricing, st: Dp, v: int) -> bool {
    forall|i: int|
        0 <= i < graph.enodes_of@[v]@.len() ==> no_better(
            graph,
            p,
            st,
            v,
            #[trigger] graph.enodes_of@[v]@[i] as int,
        )
}

/// Nothing that was looked at is better than the cheapest e-node.
pub(crate) proof fn lemma_cheapest_min(graph: &ClassGraph, p: Pricing, st: Dp, v: int, n: nat)
    ensures
        ({
            let (bc, bh, bi) = cheapest(graph, p, st, v, n);
            &&& bc is Number
            &&& bi matches Some(b) ==> bh == struct_hash(graph, p.texts, st.hashes, b as int)
            &&& forall|i: int|
                0 <= i < n ==> (enode_cost(
                    graph,
                    p,
                    st,
                    #[trigger] graph.enodes_of@[v]@[i] as int,
                ) matches Some(c) ==> !c.below(bc) && (c.same(bc) ==> bh <= struct_hash(
                    graph,
                    p.texts,
                    st.hashes,
                    graph.enodes_of@[v]@[i] as int,
                )))
        }),
    decreases n,
{
    if n > 0 {
        lemma_cheapest_min(graph, p, st, v, (n - 1) as nat);
    }
}

proof fn lemma_still_class(graph: &ClassGraph, p: Pricing, st: Dp, v: int, n: nat)
    requires
        !relax_class(graph, p, st, v, n).1,
    ensures
        relax_class(graph, p, st, v, n).0 == st,
        forall|i: int|
            0 <= i < n ==> no_better(graph, p, st, v, #[trigger] graph.enodes_of@[v]@[i] as int),
    decreases n,
{
    if n > 0 {
        lemma_still_class(graph, p, st, v, (n - 1) as nat);
    }
}

proof fn lemma_still_pass(graph: &ClassGraph, p: Pricing, st: Dp, si: int, n: nat)
    requires
        !relax_pass(graph, p, st, si, n).1,
    ensures
        relax_pass(graph, p, st, si, n).0 == st,
        forall|i: int|
            0 <= i < n ==> locally_cheapest(graph, p, st, #[trigger] graph.sccs@[si]@[i] as int),
    decreases n,
{
    if n > 0 {
        lemma_still_pass(graph, p, st, si, (n - 1) as nat);
        let v = graph.sccs@[si]@[n - 1] as int;
        lemma_still_class(graph, p, st, v, graph.enodes_of@[v]@.len());
    }
}

proof fn lemma_relaxed_still(graph: &ClassGraph, p: Pricing, st: Dp, si: int, fuel: nat)
    ensures
        relaxed(graph, p, st, si, fuel) matches Some(next) ==> forall|i: int|
            0 <= i < graph.sccs@[si]@.len() ==> locally_cheapest(
                graph,
                p,
                next,
                #[trigger] graph.sccs@[si]@[i] as int,
            ),
    decreases fuel,
{
    if fuel > 0 {
        let n = graph.sccs@[si]@.len();
        let (next, changed) = relax_pass(graph, p, st, si, n);
        if changed {
            lemma_relaxed_still(graph, p, next, si, (fuel - 1) as nat);
        } else {
            lemma_still_pass(graph, p, st, si, n);
        }
    }
}

/// The treatment of a component leaves its members cheapest.
proof fn lemma_solve_min(graph: &ClassGraph, p: Pricing, st: Dp, si: int, v: int)
    requires
        graph.wf(),
        graph.condensed(),
        sized(graph, st),
        0 <= si < graph.sccs@.len(),
        0 <= v < graph.size(),
        graph.scc_of@[v] == si,
    ensures
        solve_component(graph, p, st, si) matches Some(next) ==> locally_cheapest(
            graph,
            p,
            next,
            v,
        ),
{
    let comp = graph.sccs@[si]@;
    assert(comp.len() > 0);
    let w = comp[0] as int;
    assert(graph.sccs@[si]@[0] < graph.size() && graph.scc_of@[w] == si);
    assert(graph.sccs@[graph.scc_of@[v] as int]@.contains(v as u32));
    let k = choose|k: int| 0 <= k < comp.len() && comp[k] == v as u32;
    if cyclic(graph, w) {
        lemma_relaxed_still(graph, p, st, si, pass_limit(comp.len()));
        let r = relaxed(graph, p, st, si, pass_limit(comp.len()));
        if r is Some {
            assert(locally_cheapest(graph, p, r->0, graph.sccs@[si]@[k] as int));
        }
    } else {
        assert(k == 0);
        let n = graph.enodes_of@[v]@.len();
        let (bc, bh, bi) = cheapest(graph, p, st, v, n);
        let next = st.take_enode(v, bc, bh, bi);
        lemma_cheapest_min(graph, p, st, v, n);
        assert forall|i: int| 0 <= i < n implies no_better(
            graph,
            p,
            next,
            v,
            #[trigger] graph.enodes_of@[v]@[i] as int,
        ) by {
            lemma_settled_same(graph, st, next, v, graph.enodes_of@[v]@[i] as int);
            lemma_cost_local(graph, p, st, next, graph.enodes_of@[v]@[i] as int);
            if bi is Some {
                lemma_cheapest_known(graph, p, st, v, n);
                let ens = graph.enodes_of@[v]@;
                let k = choose|k: int| 0 <= k < ens.len() && ens[k] == bi->0;
                assert(graph.enodes_of@[v]@[k] == bi->0);
                lemma_settled_same(graph, st, next, v, bi->0 as int);
                lemma_cost_local(graph, p, st, next, bi->0 as int);
            }
        }
    }
}

/// A class that is not its own child is no child of its e-nodes.
pub(crate) proof fn lemma_settled_same(graph: &ClassGraph, st: Dp, next: Dp, v: int, e: int)
    requires
        graph.wf(),
        graph.condensed(),
        sized(graph, st),
        0 <= v < graph.size(),
        !cyclic(graph, v),
        0 <= e < graph.enodes@.len(),
        graph.enodes@[e].out == v,
        forall|w: int|
            0 <= w < graph.size() && w != v ==> #[trigger] next.costs[w] == st.costs[w]
                && next.hashes[w] == st.hashes[w],
    ensures
        same_children(graph, st, next, e),
{
    assert forall|j: int| 0 <= j < graph.children(e).len() implies {
        let c = #[trigger] graph.children(e)[j] as int;
        st.costs[c] == next.costs[c] && st.hashes[c] == next.hashes[c]
    } by {
        lemma_child_earlier(graph, e, j);
        if graph.children(e)[j] == v as u32 {
            assert(graph.adj@[v]@.contains(v as u32));
        } else {
            let c = graph.children(e)[j] as int;
            assert(next.costs[c] == st.costs[c]);
        }
    }
}

/// The e-nodes of a class of an earlier component see nothing of a later one.
pub(crate) proof fn lemma_earlier_same(graph: &ClassGraph, a: Dp, b: Dp, si: int, v: int, e: int)
    requires
        graph.wf(),
        graph.condensed(),
        same_outside(graph, a, b, si),
        0 <= v < graph.size(),
        graph.scc_of@[v] < si,
        0 <= e < graph.enodes@.len(),
        graph.enodes@[e].out == v,
    ensures
        same_children(graph, a, b, e),
{
    assert forall|j: int| 0 <= j < graph.children(e).len() implies {
        let c = #[trigger] graph.children(e)[j] as int;
        a.costs[c] == b.costs[c] && a.hashes[c] == b.hashes[c]
    } by {
        lemma_child_earlier(graph, e, j);
    }
}

proof fn lemma_solved_min(graph: &ClassGraph, p: Pricing, n: nat)
    requires
        solvable(graph),
        graph.condensed(),
        n <= graph.sccs@.len(),
    ensures
        solved(graph, p, n) matches Some(st) ==> forall|v: int|
            0 <= v < graph.size() && graph.scc_of@[v] < n ==> #[trigger] locally_cheapest(
                graph,
                p,
                st,
                v,
            ),
    decreases n,
{
    if n > 0 {
        lemma_solved_min(graph, p, (n - 1) as nat);
        chosen_enodes_belong(graph, p, (n - 1) as nat);
        let prev = solved(graph, p, (n - 1) as nat);
        let r = solved(graph, p, n);
        if r is Some {
            let a = prev->0;
            let b = r->0;
            lemma_solve_outside(graph, p, a, n - 1);
            assert forall|v: int|
                0 <= v < graph.size() && graph.scc_of@[v] < n implies #[trigger] locally_cheapest(
                graph,
                p,
                b,
                v,
            ) by {
                if graph.scc_of@[v] < n - 1 {
                    assert(locally_cheapest(graph, p, a, v));
                    assert forall|i: int| 0 <= i < graph.enodes_of@[v]@.len() implies no_better(
                        graph,
                        p,
                        b,
                        v,
                        #[trigger] graph.enodes_of@[v]@[i] as int,
                    ) by {
                        let e = graph.enodes_of@[v]@[i] as int;
                        lemma_earlier_same(graph, a, b, n - 1, v, e);
                        lemma_cost_local(graph, p, a, b, e);
                        if a.best[v] is Some {
                            let cur = a.best[v]->0 as int;
                            lemma_earlier_same(graph, a, b, n - 1, v, cur);
                            lemma_cost_local(graph, p, a, b, cur);
                        }
                    }
                } else {
                    lemma_solve_min(graph, p, a, n - 1, v);
                }
            }
        }
    }
}

/// In the end no e-node of a class is cheaper than what the class has, and among equally
/// cheap ones the smallest structural hash wins: the order of the e-nodes decides nothing.
pub proof fn solution_is_locally_cheapest(graph: &ClassGraph, p: Pricing, v: int)
    requires
        solvable(graph),
        graph.condensed(),
        0 <= v < graph.size(),
    ensures
        solved(graph, p, graph.sccs@.len()) matches Some(st) ==> locally_cheapest(
            graph,
            p,
            st,
            v,
        ),
{
    lemma_solved_min(graph, p, graph.sccs@.len());
    assert(graph.scc_of@[v] < graph.sccs@.len());
}

// ------------------------------------------------------------------ fair pricing

/// A cost that is at least zero, infinity among them.
pub open spec fn amount(c: Cost) -> bool {
    c matches Cost::Number(k) && ZERO_KEY <= k <= INFINITY_KEY
}

/// `a` is a number that is at most the number `b`.
pub open spec fn at_most(a: Cost, b: Cost) -> bool {
    a.below(b) || a.same(b)
}

/// Amounts add up to amounts, and prices of amounts are amounts.
pub open spec fn amounts(p: Pricing) -> bool {
    &&& forall|a: Cost, b: Cost| amount(a) && amount(b) ==> amount(#[trigger] (p.plus)(a, b))
    &&& forall|h: Cost, s: Cost, n: u64|
        amount(h) && amount(s) ==> amount(#[trigger] (p.sum_price)(h, s, n))
    &&& forall|h: Cost, m: Cost, s: Cost, n: u64|
        amount(h) && amount(m) && amount(s) ==> amount(#[trigger] (p.max_price)(h, m, s, n))
}

/// There is no noise, and cheaper children never make an e-node dearer.
pub open spec fn monotone(p: Pricing) -> bool {
    &&& forall|a: Cost, b: Cost, x: Cost, y: Cost|
        amount(a) && amount(b) && at_most(a, x) && at_most(b, y) ==> at_most(
            #[trigger] (p.plus)(a, b),
            #[trigger] (p.plus)(x, y),
        )
    &&& forall|h: Cost, s: Cost, n: u64, t: Cost, m: u64|
        amount(h) && amount(s) && at_most(s, t) ==> at_most(
            #[trigger] (p.sum_price)(h, s, n),
            #[trigger] (p.sum_price)(h, t, m),
        )
    &&& forall|h: Cost, a: Cost, s: Cost, n: u64, b: Cost, t: Cost, m: u64|
        amount(h) && amount(a) && amount(s) && at_most(a, b) && at_most(s, t) ==> at_most(
            #[trigger] (p.max_price)(h, a, s, n),
            #[trigger] (p.max_price)(h, b, t, m),
        )
}

/// An e-node with a head cost costs more than each of its children.
pub open spec fn rising(p: Pricing) -> bool {
    &&& forall|a: Cost, b: Cost|
        amount(a) && amount(b) ==> at_most(a, #[trigger] (p.plus)(a, b)) && at_most(
            b,
            (p.plus)(a, b),
        )
    &&& forall|h: Cost, s: Cost, n: u64, c: Cost|
        amount(h) && !h.same(Cost::Number(ZERO_KEY)) && amount(s) && amount(c) && c.finite()
            && #[trigger] at_most(c, s) ==> c.below(#[trigger] (p.sum_price)(h, s, n))
    &&& forall|h: Cost, m: Cost, s: Cost, n: u64, c: Cost|
        amount(h) && !h.same(Cost::Number(ZERO_KEY)) && amount(m) && amount(s) && amount(c)
            && c.finite() && #[trigger] at_most(c, m) ==> c.below(
            #[trigger] (p.max_price)(h, m, s, n),
        )
}

/// All head costs are amounts.
pub open spec fn heads_are_amounts(graph: &ClassGraph) -> bool {
    forall|e: int| 0 <= e < graph.enodes@.len() ==> amount((#[trigger] graph.enodes@[e]).head)
}

/// All costs are amounts, and a class without an e-node has none.
pub open spec fn costs_are_amounts(graph: &ClassGraph, st: Dp) -> bool {
    &&& sized(graph, st)
    &&& forall|v: int| 0 <= v < graph.size() ==> amount(#[trigger] st.costs[v])
    &&& forall|v: int|
        0 <= v < graph.size() && #[trigger] st.best[v] is None ==> st.costs[v] == Cost::Number(
            INFINITY_KEY,
        )
}

proof fn lemma_sum_amount(p: Pricing, ch: Seq<u32>, costs: Seq<Cost>, n: nat)
    requires
        amounts(p),
        n <= ch.len(),
        forall|j: int| 0 <= j < n ==> amount(costs[#[trigger] ch[j] as int]),
    ensures
        amount(child_sum(p.plus, ch, costs, n)),
        amount(child_max(ch, costs, n)),
    decreases n,
{
    if n > 0 {
        lemma_sum_amount(p, ch, costs, (n - 1) as nat);
        assert(amount(costs[ch[n - 1] as int]));
    }
}

/// The cost of an e-node is an amount.
proof fn lemma_cost_amount(graph: &ClassGraph, p: Pricing, st: Dp, e: int)
    requires
        graph.wf(),
        amounts(p),
        heads_are_amounts(graph),
        costs_are_amounts(graph, st),
        0 <= e < graph.enodes@.len(),
    ensures
        enode_cost(graph, p, st, e) matches Some(c) ==> amount(c),
{
    let ch = graph.enodes@[e].ch_eq@;
    assert forall|j: int| 0 <= j < ch.len() implies amount(st.costs[#[trigger] ch[j] as int]) by {
        assert(graph.enodes@[e].ch_eq@[j] < graph.size());
    }
    lemma_sum_amount(p, ch, st.costs, ch.len());
    assert(amount(graph.enodes@[e].head));
}

proof fn lemma_cheapest_known(graph: &ClassGraph, p: Pricing, st: Dp, v: int, n: nat)
    requires
        graph.wf(),
        0 <= v < graph.size(),
        n <= graph.enodes_of@[v]@.len(),
    ensures
        ({
            let (c, _, bi) = cheapest(graph, p, st, v, n);
            match bi {
                None => c == Cost::Number(INFINITY_KEY),
                Some(e) => e < graph.enodes@.len() && enode_cost(graph, p, st, e as int) == Some(c)
                    && graph.enodes_of@[v]@.contains(e),
            }
        }),
    decreases n,
{
    if n > 0 {
        lemma_cheapest_known(graph, p, st, v, (n - 1) as nat);
        assert(graph.enodes_of@[v]@[n - 1] < graph.enodes@.len());
    }
}

// --------------------------------------------------------------------- induction

/// The property survives a relaxation step.
spec fn kept_by_relaxing(graph: &ClassGraph, p: Pricing, q: spec_fn(Dp) -> bool) -> bool {
    forall|st: Dp, v: int, e: usize|
        q(st) && 0 <= v < graph.size() && e < graph.enodes@.len() && graph.enodes_of@[v]@.contains(
            e,
        ) ==> q((#[trigger] relax_enode(graph, p, st, v, e)).0)
}

/// The property survives that an untouched class takes its cheapest e-node.
spec fn kept_by_settling(graph: &ClassGraph, p: Pricing, q: spec_fn(Dp) -> bool) -> bool {
    forall|st: Dp, v: int|
        q(st) && 0 <= v < graph.size() && st.best[v] is None && st.costs[v] == Cost::Number(
            INFINITY_KEY,
        ) && !cyclic(graph, v) ==> q(#[trigger] settled(graph, p, st, v))
}

/// Class `v` takes its cheapest e-node.
spec fn settled(graph: &ClassGraph, p: Pricing, st: Dp, v: int) -> Dp {
    let (c, h, e) = cheapest(graph, p, st, v, graph.enodes_of@[v]@.len());
    st.take_enode(v, c, h, e)
}

/// The classes from component `n` on are untouched.
spec fn untouched(graph: &ClassGraph, st: Dp, n: int) -> bool {
    forall|v: int|
        0 <= v < graph.size() && #[trigger] graph.scc_of@[v] >= n ==> st.best[v] is None
            && st.costs[v] == Cost::Number(INFINITY_KEY)
}

proof fn lemma_keep_class(
    graph: &ClassGraph,
    p: Pricing,
    q: spec_fn(Dp) -> bool,
    st: Dp,
    v: int,
    n: nat,
)
    requires
        graph.wf(),
        kept_by_relaxing(graph, p, q),
        q(st),
        0 <= v < graph.size(),
        n <= graph.enodes_of@[v]@.len(),
    ensures
        q(relax_class(graph, p, st, v, n).0),
    decreases n,
{
    if n > 0 {
        lemma_keep_class(graph, p, q, st, v, (n - 1) as nat);
        let (mid, _) = relax_class(graph, p, st, v, (n - 1) as nat);
        let e = graph.enodes_of@[v]@[n - 1];
        assert(e < graph.enodes@.len() && graph.enodes_of@[v]@.contains(e));
        let (next, _) = relax_enode(graph, p, mid, v, e);
        assert(q(relax_enode(graph, p, mid, v, e).0));
        assert(relax_class(graph, p, st, v, n).0 == next);
    }
}

proof fn lemma_keep_pass(
    graph: &ClassGraph,
    p: Pricing,
    q: spec_fn(Dp) -> bool,
    st: Dp,
    si: int,
    n: nat,
)
    requires
        graph.wf(),
        kept_by_relaxing(graph, p, q),
        q(st),
        0 <= si < graph.sccs@.len(),
        n <= graph.sccs@[si]@.len(),
    ensures
        q(relax_pass(graph, p, st, si, n).0),
    decreases n,
{
    if n > 0 {
        lemma_keep_pass(graph, p, q, st, si, (n - 1) as nat);
        let (mid, _) = relax_pass(graph, p, st, si, (n - 1) as nat);
        let v = graph.sccs@[si]@[n - 1];
        assert(v < graph.size());
        lemma_keep_class(graph, p, q, mid, v as int, graph.enodes_of@[v as int]@.len());
    }
}

proof fn lemma_keep_relaxed(
    graph: &ClassGraph,
    p: Pricing,
    q: spec_fn(Dp) -> bool,
    st: Dp,
    si: int,
    fuel: nat,
)
    requires
        graph.wf(),
        kept_by_relaxing(graph, p, q),
        q(st),
        0 <= si < graph.sccs@.len(),
    ensures
        relaxed(graph, p, st, si, fuel) matches Some(next) ==> q(next),
    decreases fuel,
{
    if fuel > 0 {
        let n = graph.sccs@[si]@.len();
        lemma_keep_pass(graph, p, q, st, si, n);
        let (next, changed) = relax_pass(graph, p, st, si, n);
        if changed {
            lemma_keep_relaxed(graph, p, q, next, si, (fuel - 1) as nat);
        }
    }
}

/// A property that holds at first and survives every step holds in the end.
proof fn lemma_keep(graph: &ClassGraph, p: Pricing, q: spec_fn(Dp) -> bool, n: nat)
    requires
        solvable(graph),
        kept_by_relaxing(graph, p, q),
        kept_by_settling(graph, p, q),
        q(unsolved(graph)),
        n <= graph.sccs@.len(),
    ensures
        solved(graph, p, n) matches Some(st) ==> q(st) && untouched(graph, st, n as int),
    decreases n,
{
    if n > 0 {
        lemma_keep(graph, p, q, (n - 1) as nat);
        chosen_enodes_belong(graph, p, (n - 1) as nat);
        let prev = solved(graph, p, (n - 1) as nat);
        if prev is Some {
            let st = prev->0;
            let si = n - 1;
            let comp = graph.sccs@[si]@;
            assert(comp.len() > 0);
            let v = comp[0] as int;
            assert(graph.sccs@[si]@[0] < graph.size() && graph.scc_of@[v] == si);
            lemma_solve_outside(graph, p, st, si);
            if cyclic(graph, v) {
                lemma_keep_relaxed(graph, p, q, st, si, pass_limit(comp.len()));
            } else {
                assert(st.best[v] is None);
                assert(q(settled(graph, p, st, v)));
            }
            let r = solved(graph, p, n);
            if r is Some {
                let next = r->0;
                assert forall|w: int|
                    0 <= w < graph.size() && #[trigger] graph.scc_of@[w] >= n implies next.best[
                    w
                ] is None && next.costs[w] == Cost::Number(INFINITY_KEY) by {
                    assert(st.best[w] is None);
                }
            }
        }
    }
}

proof fn lemma_amounts_kept(graph: &ClassGraph, p: Pricing, q: spec_fn(Dp) -> bool)
    requires
        solvable(graph),
        amounts(p),
        heads_are_amounts(graph),
        q == (|st: Dp| costs_are_amounts(graph, st)),
    ensures
        kept_by_relaxing(graph, p, q),
        kept_by_settling(graph, p, q),
        q(unsolved(graph)),
{
    assert forall|st: Dp, v: int, e: usize|
        q(st) && 0 <= v < graph.size() && e < graph.enodes@.len() && graph.enodes_of@[v]@.contains(
            e,
        ) implies q((#[trigger] relax_enode(graph, p, st, v, e)).0) by {
        lemma_cost_amount(graph, p, st, e as int);
        let next = relax_enode(graph, p, st, v, e).0;
        assert forall|w: int| 0 <= w < graph.size() implies amount(#[trigger] next.costs[w]) by {
            assert(amount(st.costs[w]));
        }
        assert forall|w: int|
            0 <= w < graph.size() && #[trigger] next.best[w] is None implies next.costs[w]
            == Cost::Number(INFINITY_KEY) by {
            assert(st.best[w] is None);
        }
    }
    assert forall|st: Dp, v: int|
        q(st) && 0 <= v < graph.size() && st.best[v] is None && st.costs[v] == Cost::Number(
            INFINITY_KEY,
        ) && !cyclic(graph, v) implies q(#[trigger] settled(graph, p, st, v)) by {
        let n = graph.enodes_of@[v]@.len();
        lemma_cheapest_known(graph, p, st, v, n);
        let (c, h, bi) = cheapest(graph, p, st, v, n);
        if bi is Some {
            lemma_cost_amount(graph, p, st, bi->0 as int);
        }
        let next = settled(graph, p, st, v);
        assert forall|w: int| 0 <= w < graph.size() implies amount(#[trigger] next.costs[w]) by {
            assert(amount(st.costs[w]));
        }
        assert forall|w: int|
            0 <= w < graph.size() && #[trigger] next.best[w] is None implies next.costs[w]
            == Cost::Number(INFINITY_KEY) by {
            if w != v {
                assert(st.best[w] is None);
            }
        }
    }
}

/// In the end all costs are amounts, and a class without an e-node has none.
pub proof fn solution_costs_are_amounts(graph: &ClassGraph, p: Pricing)
    requires
        solvable(graph),
        amounts(p),
        heads_are_amounts(graph),
    ensures
        solved(graph, p, graph.sccs@.len()) matches Some(st) ==> costs_are_amounts(graph, st),
{
    let q = |st: Dp| costs_are_amounts(graph, st);
    lemma_amounts_kept(graph, p, q);
    lemma_keep(graph, p, q, graph.sccs@.len());
}

// ------------------------------------------------------------------------ terms

/// Sum of the first `n` costs.
pub open spec fn seq_sum(plus: spec_fn(Cost, Cost) -> Cost, cs: Seq<Cost>, n: nat) -> Cost
    decreases n,
{
    if n == 0 {
        Cost::Number(ZERO_KEY)
    } else {
        plus(seq_sum(plus, cs, (n - 1) as nat), cs[n - 1])
    }
}

/// Largest of the first `n` costs, at least zero.
pub open spec fn seq_max(cs: Seq<Cost>, n: nat) -> Cost
    decreases n,
{
    if n == 0 {
        Cost::Number(ZERO_KEY)
    } else if seq_max(cs, (n - 1) as nat).below(cs[n - 1]) {
        cs[n - 1]
    } else {
        seq_max(cs, (n - 1) as nat)
    }
}

/// `c` is the cost of e-node `e` of class `v` over terms of the costs `cs`, with some noise.
pub open spec fn term_over(
    graph: &ClassGraph,
    p: Pricing,
    v: int,
    c: Cost,
    e: usize,
    cs: Seq<Cost>,
    noise: u64,
) -> bool {
    let x = graph.enodes@[e as int];
    &&& graph.enodes_of@[v]@.contains(e)
    &&& cs.len() == x.ch_eq@.len()
    &&& if x.head.same(Cost::Number(ZERO_KEY)) {
        c == Cost::Number(ZERO_KEY)
    } else {
        &&& forall|j: int| 0 <= j < cs.len() ==> (#[trigger] cs[j]).finite()
        &&& c == if p.fold_max {
            (p.max_price)(x.head, seq_max(cs, cs.len()), seq_sum(p.plus, cs, cs.len()), noise)
        } else {
            (p.sum_price)(x.head, seq_sum(p.plus, cs, cs.len()), noise)
        }
    }
}

/// Class `v` has a term of cost `c` and height at most `height`.
pub open spec fn has_term(graph: &ClassGraph, p: Pricing, v: int, c: Cost, height: nat) -> bool
    decreases height, 0nat,
{
    height > 0 && exists|e: usize, cs: Seq<Cost>, noise: u64| #[trigger]
        term_over(graph, p, v, c, e, cs, noise) && have_terms(
            graph,
            p,
            graph.children(e as int),
            cs,
            cs.len(),
            (height - 1) as nat,
        )
}

/// The first `n` of the classes `ch` have terms of the costs `cs`.
pub open spec fn have_terms(
    graph: &ClassGraph,
    p: Pricing,
    ch: Seq<u32>,
    cs: Seq<Cost>,
    n: nat,
    height: nat,
) -> bool
    decreases height, n + 1,
{
    if n == 0 {
        true
    } else {
        have_terms(graph, p, ch, cs, (n - 1) as nat, height) && has_term(
            graph,
            p,
            ch[n - 1] as int,
            cs[n - 1],
            height,
        )
    }
}

proof fn lemma_sums_ordered(p: Pricing, ch: Seq<u32>, costs: Seq<Cost>, cs: Seq<Cost>, n: nat)
    requires
        amounts(p),
        monotone(p),
        n <= ch.len(),
        n <= cs.len(),
        forall|j: int|
            0 <= j < n ==> amount(costs[#[trigger] ch[j] as int]) && at_most(
                costs[ch[j] as int],
                cs[j],
            ) && amount(cs[j]),
    ensures
        at_most(child_sum(p.plus, ch, costs, n), seq_sum(p.plus, cs, n)),
        at_most(child_max(ch, costs, n), seq_max(cs, n)),
        amount(child_sum(p.plus, ch, costs, n)),
        amount(seq_sum(p.plus, cs, n)),
        amount(child_max(ch, costs, n)),
        amount(seq_max(cs, n)),
    decreases n,
{
    if n > 0 {
        lemma_sums_ordered(p, ch, costs, cs, (n - 1) as nat);
        assert(amount(costs[ch[n - 1] as int]));
    }
}

/// Where there is no noise and cheaper children never make an e-node dearer, no term of a
/// class is cheaper than what the class has.
pub proof fn no_term_is_cheaper(
    graph: &ClassGraph,
    p: Pricing,
    st: Dp,
    v: int,
    c: Cost,
    height: nat,
)
    requires
        solvable(graph),
        graph.condensed(),
        amounts(p),
        monotone(p),
        heads_are_amounts(graph),
        solved(graph, p, graph.sccs@.len()) == Some(st),
        0 <= v < graph.size(),
        has_term(graph, p, v, c, height),
    ensures
        amount(c),
        at_most(st.costs[v], c),
    decreases height, 0nat,
{
    solution_costs_are_amounts(graph, p);
    solution_is_locally_cheapest(graph, p, v);
    let (e, cs, noise) = choose|e: usize, cs: Seq<Cost>, noise: u64|
        #[trigger] term_over(graph, p, v, c, e, cs, noise) && have_terms(
            graph,
            p,
            graph.children(e as int),
            cs,
            cs.len(),
            (height - 1) as nat,
        );
    let ens = graph.enodes_of@[v]@;
    let i = choose|i: int| 0 <= i < ens.len() && ens[i] == e;
    assert(graph.enodes_of@[v]@[i] < graph.enodes@.len());
    let x = graph.enodes@[e as int];
    let ch = x.ch_eq@;
    assert(amount(x.head));
    assert(amount(st.costs[v]));
    if !x.head.same(Cost::Number(ZERO_KEY)) {
        lemma_children_cheaper(graph, p, st, ch, cs, cs.len(), (height - 1) as nat, e as int);
        lemma_sums_ordered(p, ch, st.costs, cs, cs.len());
        assert(children_finite(ch, st.costs, ch.len() as int)) by {
            assert forall|j: int| 0 <= j < ch.len() implies st.costs[
                #[trigger] ch[j] as int
            ].finite() by {
                assert(cs[j].finite());
                assert(at_most(st.costs[ch[j] as int], cs[j]));
            }
        }
        let mine = enode_cost(graph, p, st, graph.enodes_of@[v]@[i] as int);
        assert(mine is Some);
        assert(at_most(mine->0, c));
    }
    assert(enode_cost(graph, p, st, graph.enodes_of@[v]@[i] as int) is Some);
}

proof fn lemma_children_cheaper(
    graph: &ClassGraph,
    p: Pricing,
    st: Dp,
    ch: Seq<u32>,
    cs: Seq<Cost>,
    n: nat,
    height: nat,
    e: int,
)
    requires
        solvable(graph),
        graph.condensed(),
        amounts(p),
        monotone(p),
        heads_are_amounts(graph),
        solved(graph, p, graph.sccs@.len()) == Some(st),
        0 <= e < graph.enodes@.len(),
        ch == graph.enodes@[e].ch_eq@,
        n <= ch.len(),
        n <= cs.len(),
        have_terms(graph, p, ch, cs, n, height),
    ensures
        forall|j: int|
            0 <= j < n ==> amount(st.costs[#[trigger] ch[j] as int]) && at_most(
                st.costs[ch[j] as int],
                cs[j],
            ) && amount(cs[j]),
    decreases height, n + 1,
{
    if n > 0 {
        lemma_children_cheaper(graph, p, st, ch, cs, (n - 1) as nat, height, e);
        assert(graph.enodes@[e].ch_eq@[n - 1] < graph.size());
        no_term_is_cheaper(graph, p, st, ch[n - 1] as int, cs[n - 1], height);
        solution_costs_are_amounts(graph, p);
        assert(amount(st.costs[ch[n - 1] as int]));
    }
}

// --------------------------------------------------------------------- descent

/// Every child of e-node `e` costs less than class `v`.
pub open spec fn children_below(graph: &ClassGraph, st: Dp, v: int, e: int) -> bool {
    let ch = graph.enodes@[e].ch_eq@;
    forall|j: int| 0 <= j < ch.len() ==> st.costs[#[trigger] ch[j] as int].below(st.costs[v])
}

/// The cheapest e-node of a class, where its head costs anything, has only children that
/// cost less than the class.
pub open spec fn descending(graph: &ClassGraph, st: Dp) -> bool {
    forall|v: int|
        0 <= v < graph.size() ==> (#[trigger] st.best[v] matches Some(e) ==> e
            < graph.enodes@.len() && (graph.enodes@[e as int].head.same(Cost::Number(ZERO_KEY))
            || children_below(graph, st, v, e as int)))
}

proof fn lemma_sum_rising(p: Pricing, ch: Seq<u32>, costs: Seq<Cost>, n: nat, j: int)
    requires
        amounts(p),
        rising(p),
        0 <= j < n <= ch.len(),
        forall|i: int| 0 <= i < n ==> amount(costs[#[trigger] ch[i] as int]),
    ensures
        at_most(costs[ch[j] as int], child_sum(p.plus, ch, costs, n)),
        at_most(costs[ch[j] as int], child_max(ch, costs, n)),
    decreases n,
{
    let m = (n - 1) as nat;
    lemma_sum_amount(p, ch, costs, m);
    assert(amount(costs[ch[n - 1] as int]));
    let a = child_sum(p.plus, ch, costs, m);
    let b = costs[ch[n - 1] as int];
    assert(at_most(a, (p.plus)(a, b)) && at_most(b, (p.plus)(a, b)));
    if j < n - 1 {
        lemma_sum_rising(p, ch, costs, m, j);
    }
}

/// An e-node with a head cost costs more than each of its children.
proof fn lemma_cost_rising(graph: &ClassGraph, p: Pricing, st: Dp, e: int)
    requires
        graph.wf(),
        amounts(p),
        rising(p),
        heads_are_amounts(graph),
        costs_are_amounts(graph, st),
        0 <= e < graph.enodes@.len(),
        !graph.enodes@[e].head.same(Cost::Number(ZERO_KEY)),
    ensures
        enode_cost(graph, p, st, e) matches Some(c) ==> forall|j: int|
            0 <= j < graph.enodes@[e].ch_eq@.len() ==> st.costs[
                #[trigger] graph.enodes@[e].ch_eq@[j] as int
            ].below(c),
{
    let x = graph.enodes@[e];
    let ch = x.ch_eq@;
    if enode_cost(graph, p, st, e) is Some {
        let c = enode_cost(graph, p, st, e)->0;
        assert forall|j: int| 0 <= j < ch.len() implies amount(
            st.costs[#[trigger] ch[j] as int],
        ) by {
            assert(graph.enodes@[e].ch_eq@[j] < graph.size());
        }
        lemma_sum_amount(p, ch, st.costs, ch.len());
        assert(amount(x.head));
        assert forall|j: int| 0 <= j < ch.len() implies st.costs[
            #[trigger] graph.enodes@[e].ch_eq@[j] as int
        ].below(c) by {
            lemma_sum_rising(p, ch, st.costs, ch.len(), j);
            let cj = st.costs[ch[j] as int];
            assert(amount(cj) && cj.finite());
            let sum = child_sum(p.plus, ch, st.costs, ch.len());
            let max = child_max(ch, st.costs, ch.len());
            assert(at_most(cj, sum) && at_most(cj, max));
        }
    }
}

/// What the induction carries.
spec fn descent(graph: &ClassGraph, st: Dp) -> bool {
    costs_are_amounts(graph, st) && descending(graph, st)
}

proof fn lemma_descent_take(graph: &ClassGraph, p: Pricing, st: Dp, v: int, e: usize, h: u64)
    requires
        solvable(graph),
        amounts(p),
        rising(p),
        heads_are_amounts(graph),
        descent(graph, st),
        0 <= v < graph.size(),
        e < graph.enodes@.len(),
        enode_cost(graph, p, st, e as int) matches Some(c) && at_most(c, st.costs[v]),
    ensures
        descent(graph, st.take_enode(v, enode_cost(graph, p, st, e as int)->0, h, Some(e))),
{
    let c = enode_cost(graph, p, st, e as int)->0;
    let next = st.take_enode(v, c, h, Some(e));
    lemma_cost_amount(graph, p, st, e as int);
    assert forall|w: int| 0 <= w < graph.size() implies amount(#[trigger] next.costs[w]) && at_most(
        next.costs[w],
        st.costs[w],
    ) by {
        assert(amount(st.costs[w]));
    }
    assert forall|w: int|
        0 <= w < graph.size() && #[trigger] next.best[w] is None implies next.costs[w]
        == Cost::Number(INFINITY_KEY) by {
        assert(st.best[w] is None);
    }
    assert forall|w: int| 0 <= w < graph.size() implies (#[trigger] next.best[w] matches Some(b)
        ==> b < graph.enodes@.len() && (graph.enodes@[b as int].head.same(Cost::Number(ZERO_KEY))
        || children_below(graph, next, w, b as int))) by {
        if next.best[w] is Some {
            let b = next.best[w]->0;
            if w != v {
                assert(st.best[w] == Some(b));
            }
            if !graph.enodes@[b as int].head.same(Cost::Number(ZERO_KEY)) {
                if w == v {
                    lemma_cost_rising(graph, p, st, e as int);
                }
                let ch = graph.enodes@[b as int].ch_eq@;
                assert forall|j: int| 0 <= j < ch.len() implies next.costs[
                    #[trigger] ch[j] as int
                ].below(next.costs[w]) by {
                    assert(graph.enodes@[b as int].ch_eq@[j] < graph.size());
                    let k = ch[j] as int;
                    assert(at_most(next.costs[k], st.costs[k]));
                    if w == v {
                        assert(st.costs[graph.enodes@[b as int].ch_eq@[j] as int].below(c));
                    } else {
                        assert(children_below(graph, st, w, b as int));
                        assert(st.costs[ch[j] as int].below(st.costs[w]));
                    }
                }
            }
        }
    }
}

proof fn lemma_descent_kept(graph: &ClassGraph, p: Pricing, q: spec_fn(Dp) -> bool)
    requires
        solvable(graph),
        amounts(p),
        rising(p),
        heads_are_amounts(graph),
        q == (|st: Dp| descent(graph, st)),
    ensures
        kept_by_relaxing(graph, p, q),
        kept_by_settling(graph, p, q),
        q(unsolved(graph)),
{
    assert forall|st: Dp, v: int, e: usize|
        q(st) && 0 <= v < graph.size() && e < graph.enodes@.len() && graph.enodes_of@[v]@.contains(
            e,
        ) implies q((#[trigger] relax_enode(graph, p, st, v, e)).0) by {
        lemma_cost_amount(graph, p, st, e as int);
        assert(amount(st.costs[v]));
        let r = enode_cost(graph, p, st, e as int);
        if r is Some && improves(graph, p, st, v, e as int, r->0) {
            assert(st.best[v] is None ==> st.costs[v] == Cost::Number(INFINITY_KEY));
            assert(at_most(r->0, st.costs[v]));
            lemma_descent_take(graph, p, st, v, e, struct_hash(graph, p.texts, st.hashes, e as int));
        }
    }
    assert forall|st: Dp, v: int|
        q(st) && 0 <= v < graph.size() && st.best[v] is None && st.costs[v] == Cost::Number(
            INFINITY_KEY,
        ) && !cyclic(graph, v) implies q(#[trigger] settled(graph, p, st, v)) by {
        let n = graph.enodes_of@[v]@.len();
        lemma_cheapest_known(graph, p, st, v, n);
        let (c, h, bi) = cheapest(graph, p, st, v, n);
        if bi is Some {
            lemma_cost_amount(graph, p, st, bi->0 as int);
            lemma_descent_take(graph, p, st, v, bi->0, h);
        } else {
            let next = settled(graph, p, st, v);
            assert(next.costs =~= st.costs);
            assert(next.best =~= st.best);
            assert forall|w: int| 0 <= w < graph.size() implies (#[trigger] next.best[w] matches Some(b)
                ==> b < graph.enodes@.len() && (graph.enodes@[b as int].head.same(
                Cost::Number(ZERO_KEY),
            ) || children_below(graph, next, w, b as int))) by {
                assert(children_below(graph, st, w, st.best[w]->0 as int) ==> children_below(
                    graph,
                    next,
                    w,
                    st.best[w]->0 as int,
                ));
            }
        }
    }
}

/// Where an e-node with a head cost costs more than each of its children, the cheapest
/// e-nodes descend: no class is cheapest by way of itself.
pub proof fn best_edges_descend(graph: &ClassGraph, p: Pricing)
    requires
        solvable(graph),
        amounts(p),
        rising(p),
        heads_are_amounts(graph),
    ensures
        solved(graph, p, graph.sccs@.len()) matches Some(st) ==> descending(graph, st),
{
    let q = |st: Dp| descent(graph, st);
    lemma_descent_kept(graph, p, q);
    lemma_keep(graph, p, q, graph.sccs@.len());
}

// ------------------------------------------------------------------- exact costs

/// The cheapest e-node of a class costs no more than the class.
pub open spec fn covered(graph: &ClassGraph, p: Pricing, st: Dp, v: int) -> bool {
    st.best[v] matches Some(e) ==> e < graph.enodes@.len() && graph.enodes_of@[v]@.contains(e) && (
    enode_cost(graph, p, st, e as int) matches Some(c) && at_most(c, st.costs[v]))
}

/// What the induction carries.
spec fn all_covered(graph: &ClassGraph, p: Pricing, st: Dp) -> bool {
    &&& costs_are_amounts(graph, st)
    &&& forall|v: int| 0 <= v < graph.size() ==> #[trigger] covered(graph, p, st, v)
}

proof fn lemma_child_sums_ordered(p: Pricing, ch: Seq<u32>, a: Seq<Cost>, b: Seq<Cost>, n: nat)
    requires
        amounts(p),
        monotone(p),
        n <= ch.len(),
        forall|j: int|
            0 <= j < n ==> amount(a[#[trigger] ch[j] as int]) && amount(b[ch[j] as int]) && at_most(
                a[ch[j] as int],
                b[ch[j] as int],
            ),
    ensures
        at_most(child_sum(p.plus, ch, a, n), child_sum(p.plus, ch, b, n)),
        at_most(child_max(ch, a, n), child_max(ch, b, n)),
        amount(child_sum(p.plus, ch, a, n)),
        amount(child_sum(p.plus, ch, b, n)),
        amount(child_max(ch, a, n)),
        amount(child_max(ch, b, n)),
    decreases n,
{
    if n > 0 {
        lemma_child_sums_ordered(p, ch, a, b, (n - 1) as nat);
        assert(amount(a[ch[n - 1] as int]));
    }
}

/// Where costs fall, the cost of an e-node does not rise.
proof fn lemma_cost_falls(graph: &ClassGraph, p: Pricing, st: Dp, next: Dp, e: int)
    requires
        graph.wf(),
        amounts(p),
        monotone(p),
        heads_are_amounts(graph),
        costs_are_amounts(graph, st),
        costs_are_amounts(graph, next),
        forall|w: int|
            0 <= w < graph.size() ==> at_most(#[trigger] next.costs[w], st.costs[w]),
        0 <= e < graph.enodes@.len(),
        enode_cost(graph, p, st, e) is Some,
    ensures
        enode_cost(graph, p, next, e) matches Some(c) && at_most(
            c,
            enode_cost(graph, p, st, e)->0,
        ),
{
    let x = graph.enodes@[e];
    let ch = x.ch_eq@;
    assert(amount(x.head));
    if !x.head.same(Cost::Number(ZERO_KEY)) {
        assert forall|j: int| 0 <= j < ch.len() implies amount(next.costs[#[trigger] ch[j] as int])
            && amount(st.costs[ch[j] as int]) && at_most(
            next.costs[ch[j] as int],
            st.costs[ch[j] as int],
        ) by {
            assert(graph.enodes@[e].ch_eq@[j] < graph.size());
            assert(amount(next.costs[ch[j] as int]) && amount(st.costs[ch[j] as int]));
        }
        lemma_child_sums_ordered(p, ch, next.costs, st.costs, ch.len());
        assert forall|j: int| 0 <= j < ch.len() implies next.costs[
            #[trigger] ch[j] as int
        ].finite() by {
            assert(st.costs[ch[j] as int].finite());
        }
        assert(children_finite(ch, next.costs, ch.len() as int));
    }
}

proof fn lemma_covered_take(graph: &ClassGraph, p: Pricing, st: Dp, v: int, e: usize, h: u64)
    requires
        solvable(graph),
        amounts(p),
        monotone(p),
        heads_are_amounts(graph),
        all_covered(graph, p, st),
        0 <= v < graph.size(),
        e < graph.enodes@.len(),
        graph.enodes_of@[v]@.contains(e),
        enode_cost(graph, p, st, e as int) matches Some(c) && at_most(c, st.costs[v]),
    ensures
        all_covered(
            graph,
            p,
            st.take_enode(v, enode_cost(graph, p, st, e as int)->0, h, Some(e)),
        ),
{
    let c = enode_cost(graph, p, st, e as int)->0;
    let next = st.take_enode(v, c, h, Some(e));
    lemma_cost_amount(graph, p, st, e as int);
    assert forall|w: int| 0 <= w < graph.size() implies at_most(
        #[trigger] next.costs[w],
        st.costs[w],
    ) && amount(next.costs[w]) by {
        assert(amount(st.costs[w]));
    }
    assert forall|w: int|
        0 <= w < graph.size() && #[trigger] next.best[w] is None implies next.costs[w]
        == Cost::Number(INFINITY_KEY) by {
        assert(st.best[w] is None);
    }
    assert forall|w: int| 0 <= w < graph.size() implies #[trigger] covered(graph, p, next, w) by {
        if w == v {
            lemma_cost_falls(graph, p, st, next, e as int);
        } else {
            assert(covered(graph, p, st, w));
            if st.best[w] is Some {
                lemma_cost_falls(graph, p, st, next, st.best[w]->0 as int);
            }
        }
    }
}

proof fn lemma_covered_kept(graph: &ClassGraph, p: Pricing, q: spec_fn(Dp) -> bool)
    requires
        solvable(graph),
        amounts(p),
        monotone(p),
        heads_are_amounts(graph),
        q == (|st: Dp| all_covered(graph, p, st)),
    ensures
        kept_by_relaxing(graph, p, q),
        kept_by_settling(graph, p, q),
        q(unsolved(graph)),
{
    assert forall|st: Dp, v: int, e: usize|
        q(st) && 0 <= v < graph.size() && e < graph.enodes@.len() && graph.enodes_of@[v]@.contains(
            e,
        ) implies q((#[trigger] relax_enode(graph, p, st, v, e)).0) by {
        lemma_cost_amount(graph, p, st, e as int);
        assert(amount(st.costs[v]));
        let r = enode_cost(graph, p, st, e as int);
        if r is Some && improves(graph, p, st, v, e as int, r->0) {
            assert(st.best[v] is None ==> st.costs[v] == Cost::Number(INFINITY_KEY));
            lemma_covered_take(graph, p, st, v, e, struct_hash(graph, p.texts, st.hashes, e as int));
        }
    }
    assert forall|st: Dp, v: int|
        q(st) && 0 <= v < graph.size() && st.best[v] is None && st.costs[v] == Cost::Number(
            INFINITY_KEY,
        ) && !cyclic(graph, v) implies q(#[trigger] settled(graph, p, st, v)) by {
        let n = graph.enodes_of@[v]@.len();
        lemma_cheapest_known(graph, p, st, v, n);
        let (c, h, bi) = cheapest(graph, p, st, v, n);
        if bi is Some {
            lemma_cost_amount(graph, p, st, bi->0 as int);
            lemma_covered_take(graph, p, st, v, bi->0, h);
        } else {
            let next = settled(graph, p, st, v);
            assert(next.costs =~= st.costs);
            assert(next.best =~= st.best);
            assert forall|w: int| 0 <= w < graph.size() implies #[trigger] covered(
                graph,
                p,
                next,
                w,
            ) by {
                assert(covered(graph, p, st, w));
                if st.best[w] is Some {
                    lemma_cost_falls(graph, p, st, next, st.best[w]->0 as int);
                }
            }
        }
    }
    assert forall|v: int| 0 <= v < graph.size() implies #[trigger] covered(
        graph,
        p,
        unsolved(graph),
        v,
    ) by {}
}

/// Where there is no noise and cheaper children never make an e-node dearer, a class costs
/// what the e-node chosen for it costs.
pub proof fn chosen_enodes_cost_the_class(graph: &ClassGraph, p: Pricing, st: Dp, v: int)
    requires
        solvable(graph),
        graph.condensed(),
        amounts(p),
        monotone(p),
        heads_are_amounts(graph),
        solved(graph, p, graph.sccs@.len()) == Some(st),
        0 <= v < graph.size(),
    ensures
        st.best[v] matches Some(e) ==> e < graph.enodes@.len() && graph.enodes_of@[v]@.contains(e)
            && enode_cost(graph, p, st, e as int) == Some(st.costs[v]),
{
    let q = |st: Dp| all_covered(graph, p, st);
    lemma_covered_kept(graph, p, q);
    lemma_keep(graph, p, q, graph.sccs@.len());
    solution_is_locally_cheapest(graph, p, v);
    assert(covered(graph, p, st, v));
    if st.best[v] is Some {
        let e = st.best[v]->0;
        let ens = graph.enodes_of@[v]@;
        let i = choose|i: int| 0 <= i < ens.len() && ens[i] == e;
        let c = enode_cost(graph, p, st, graph.enodes_of@[v]@[i] as int)->0;
        assert(!c.below(st.costs[v]));
        lemma_cost_amount(graph, p, st, e as int);
        assert(amount(st.costs[v]));
    }
}

} // verus!
