//! Cheapest terms of class graphs that are alike.
use egglog::EGraph;
use vstd::prelude::*;

use crate::alike::{alike, enode_alike, func_alike, one_to_one, same_graph};
use crate::best_term::{
    args_fit, best_term, choices_ok, fault, fault_among, is_best_term, lemma_count_grows,
    lemma_count_take, mask_of,
};
use crate::build_laws::{
    building_twice_gives_the_same_graph, graphs_ignore_the_numbers, renumbered, same_texts,
};
use crate::class_graph::ClassGraph;
use crate::cost::Cost;
use crate::cut_iter::{class_lookup, lemma_built, lemma_class_in_range, well_shaped};
use crate::dag_extract::{
    extracts, fold_of, prepares, solves, DagExtractor, ExtractError, ExtractorError,
};
use crate::egraph::{canonical_of, sorts_of, strings_of, TermView};
use crate::extract_dp::{
    cheapest, chosen_enodes_belong, dp_ok, enode_cost, lemma_relax_class_ok, lemma_relax_pass_ok,
    mix_children, mix_prims, pass_limit, pricing, relax_class, relax_enode, relax_pass, relaxed,
    solvable, solve_component, solved, struct_hash, text_hash, texts_of, unsolved, Dp, Pricing,
};
use crate::kernel::count_true;
use crate::snapshot::{builds, head_names, indexes, texts_known, BuildError, BuildFault};
use crate::stats::cyclic;

verus! {

// -------------------------------------------------------------- dynamic program

proof fn lemma_mix_prims_alike(
    h: u64,
    x: Seq<(u32, u32)>,
    y: Seq<(u32, u32)>,
    texts: Seq<u64>,
    n: nat,
)
    requires
        n <= x.len(),
        x.len() == y.len(),
        forall|j: int| 0 <= j < x.len() ==> (#[trigger] x[j]).0 == y[j].0,
    ensures
        mix_prims(h, x, texts, n) == mix_prims(h, y, texts, n),
    decreases n,
{
    if n > 0 {
        lemma_mix_prims_alike(h, x, y, texts, (n - 1) as nat);
        assert(x[n - 1].0 == y[n - 1].0);
    }
}

/// The structural hash of an e-node goes by names, positions and texts alone.
pub proof fn hashes_ignore_the_numbers(
    g: &ClassGraph,
    h: &ClassGraph,
    texts: Seq<Seq<u64>>,
    hashes: Seq<u64>,
    e: int,
)
    requires
        alike(g, h),
        solvable(g),
        0 <= e < g.enodes@.len(),
    ensures
        struct_hash(g, texts, hashes, e) == struct_hash(h, texts, hashes, e),
{
    let (x, y) = (g.enodes@[e], h.enodes@[e]);
    assert(enode_alike(x, y));
    assert(func_alike(g.funcs@[x.func as int], h.funcs@[x.func as int]));
    let name = g.funcs@[x.func as int].term_name@;
    let s = mix_children(
        text_hash(name),
        x.ch_eq@,
        hashes,
        x.ch_eq@.len(),
    );
    lemma_mix_prims_alike(s, x.ch_prim@, y.ch_prim@, texts[e], x.ch_prim@.len());
}

proof fn lemma_enode_cost_alike(g: &ClassGraph, h: &ClassGraph, p: Pricing, st: Dp, e: int)
    requires
        alike(g, h),
        solvable(g),
        0 <= e < g.enodes@.len(),
    ensures
        enode_cost(g, p, st, e) == enode_cost(h, p, st, e),
{
    hashes_ignore_the_numbers(g, h, p.texts, st.hashes, e);
    assert(enode_alike(g.enodes@[e], h.enodes@[e]));
}

proof fn lemma_cheapest_alike(g: &ClassGraph, h: &ClassGraph, p: Pricing, st: Dp, v: int, n: nat)
    requires
        alike(g, h),
        solvable(g),
        0 <= v < g.size(),
        n <= g.enodes_of@[v]@.len(),
    ensures
        cheapest(g, p, st, v, n) == cheapest(h, p, st, v, n),
    decreases n,
{
    if n > 0 {
        lemma_cheapest_alike(g, h, p, st, v, (n - 1) as nat);
        assert(g.enodes_of@[v]@ == h.enodes_of@[v]@);
        let e = g.enodes_of@[v]@[n - 1];
        assert(e < g.enodes@.len());
        lemma_enode_cost_alike(g, h, p, st, e as int);
        hashes_ignore_the_numbers(g, h, p.texts, st.hashes, e as int);
    }
}

proof fn lemma_relax_class_alike(
    g: &ClassGraph,
    h: &ClassGraph,
    p: Pricing,
    st: Dp,
    v: int,
    n: nat,
)
    requires
        alike(g, h),
        solvable(g),
        dp_ok(g, st),
        0 <= v < g.size(),
        n <= g.enodes_of@[v]@.len(),
    ensures
        relax_class(g, p, st, v, n) == relax_class(h, p, st, v, n),
    decreases n,
{
    if n > 0 {
        lemma_relax_class_alike(g, h, p, st, v, (n - 1) as nat);
        lemma_relax_class_ok(g, p, st, v, (n - 1) as nat);
        let (mid, _) = relax_class(g, p, st, v, (n - 1) as nat);
        assert(g.enodes_of@[v]@ == h.enodes_of@[v]@);
        let e = g.enodes_of@[v]@[n - 1];
        assert(e < g.enodes@.len());
        lemma_enode_cost_alike(g, h, p, mid, e as int);
        hashes_ignore_the_numbers(g, h, p.texts, mid.hashes, e as int);
        if let Some(cur) = mid.best[v] {
            hashes_ignore_the_numbers(g, h, p.texts, mid.hashes, cur as int);
        }
        assert(relax_enode(g, p, mid, v, e) == relax_enode(h, p, mid, v, e));
    }
}

proof fn lemma_relax_pass_alike(
    g: &ClassGraph,
    h: &ClassGraph,
    p: Pricing,
    st: Dp,
    si: int,
    n: nat,
)
    requires
        alike(g, h),
        solvable(g),
        dp_ok(g, st),
        0 <= si < g.sccs@.len(),
        n <= g.sccs@[si]@.len(),
    ensures
        relax_pass(g, p, st, si, n) == relax_pass(h, p, st, si, n),
    decreases n,
{
    if n > 0 {
        lemma_relax_pass_alike(g, h, p, st, si, (n - 1) as nat);
        lemma_relax_pass_ok(g, p, st, si, (n - 1) as nat);
        let (mid, _) = relax_pass(g, p, st, si, (n - 1) as nat);
        assert(g.sccs@[si]@ == h.sccs@[si]@);
        let v = g.sccs@[si]@[n - 1];
        assert(v < g.size());
        assert(g.enodes_of@[v as int]@ == h.enodes_of@[v as int]@);
        lemma_relax_class_alike(g, h, p, mid, v as int, g.enodes_of@[v as int]@.len());
    }
}

proof fn lemma_relaxed_alike(
    g: &ClassGraph,
    h: &ClassGraph,
    p: Pricing,
    st: Dp,
    si: int,
    fuel: nat,
)
    requires
        alike(g, h),
        solvable(g),
        dp_ok(g, st),
        0 <= si < g.sccs@.len(),
    ensures
        relaxed(g, p, st, si, fuel) == relaxed(h, p, st, si, fuel),
    decreases fuel,
{
    if fuel > 0 {
        let n = g.sccs@[si]@.len();
        assert(g.sccs@[si]@ == h.sccs@[si]@);
        lemma_relax_pass_alike(g, h, p, st, si, n);
        lemma_relax_pass_ok(g, p, st, si, n);
        let (next, changed) = relax_pass(g, p, st, si, n);
        if changed {
            lemma_relaxed_alike(g, h, p, next, si, (fuel - 1) as nat);
        }
    }
}

/// Graphs that are alike have the same costs, hashes and cheapest e-nodes.
pub proof fn solutions_ignore_the_numbers(g: &ClassGraph, h: &ClassGraph, p: Pricing, n: nat)
    requires
        alike(g, h),
        solvable(g),
        n <= g.sccs@.len(),
    ensures
        solved(g, p, n) == solved(h, p, n),
    decreases n,
{
    if n == 0 {
        assert(unsolved(g) =~= unsolved(h));
    } else {
        solutions_ignore_the_numbers(g, h, p, (n - 1) as nat);
        chosen_enodes_belong(g, p, (n - 1) as nat);
        if let Some(st) = solved(g, p, (n - 1) as nat) {
            let si = n - 1;
            let comp = g.sccs@[si]@;
            assert(comp == h.sccs@[si]@);
            assert(comp.len() > 0);
            let v = comp[0] as int;
            assert(g.sccs@[si]@[0] < g.size());
            assert(g.scc_of@[v] == si);
            assert(g.adj@[v]@ == h.adj@[v]@);
            assert(cyclic(g, v) == cyclic(h, v));
            assert(g.enodes_of@[v]@ == h.enodes_of@[v]@);
            lemma_relaxed_alike(g, h, p, st, si, pass_limit(comp.len()));
            lemma_cheapest_alike(g, h, p, st, v, g.enodes_of@[v]@.len());
            assert(solve_component(g, p, st, si) == solve_component(h, p, st, si));
        }
    }
}

// ------------------------------------------------------------------------ terms

proof fn lemma_best_term_alike(
    g: &ClassGraph,
    h: &ClassGraph,
    best: Seq<Option<usize>>,
    a: EGraph,
    b: EGraph,
    terms: Seq<TermView>,
    v: u32,
    id: usize,
    height: nat,
)
    requires
        alike(g, h),
        well_shaped(g),
        same_texts(a, b, g.enodes@, h.enodes@),
        choices_ok(g, best),
        v < g.size(),
    ensures
        best_term(g, best, a, terms, v, id, height) == best_term(
            h,
            best,
            b,
            terms,
            v,
            id,
            height,
        ),
    decreases height, 0nat,
{
    if height > 0 {
        if let Some(e) = best[v as int] {
            assert(e < g.enodes@.len());
            let x = g.enodes@[e as int];
            assert(enode_alike(x, h.enodes@[e as int]));
            assert(func_alike(g.funcs@[x.func as int], h.funcs@[x.func as int]));
            if id < terms.len() {
                if let TermView::App(_, ch) = terms[id as int] {
                    if ch.len() == mask_of(g, e as int).len() {
                        lemma_args_alike(
                            g,
                            h,
                            best,
                            a,
                            b,
                            terms,
                            e as int,
                            ch,
                            ch.len(),
                            (height - 1) as nat,
                        );
                    }
                }
            }
        }
    }
}

proof fn lemma_args_alike(
    g: &ClassGraph,
    h: &ClassGraph,
    best: Seq<Option<usize>>,
    a: EGraph,
    b: EGraph,
    terms: Seq<TermView>,
    e: int,
    ch: Seq<usize>,
    n: nat,
    height: nat,
)
    requires
        alike(g, h),
        well_shaped(g),
        same_texts(a, b, g.enodes@, h.enodes@),
        choices_ok(g, best),
        0 <= e < g.enodes@.len(),
        n <= mask_of(g, e).len(),
    ensures
        args_fit(g, best, a, terms, e, ch, n, height) == args_fit(
            h,
            best,
            b,
            terms,
            e,
            ch,
            n,
            height,
        ),
    decreases height, n + 1,
{
    if n > 0 {
        let p = n - 1;
        let x = g.enodes@[e];
        assert(enode_alike(x, h.enodes@[e]));
        assert(func_alike(g.funcs@[x.func as int], h.funcs@[x.func as int]));
        let mask = mask_of(g, e);
        assert(mask == mask_of(h, e));
        let k = count_true(mask.take(p)) as int;
        lemma_count_take(mask, p);
        lemma_count_grows(mask, p + 1, mask.len() as int);
        lemma_count_grows(mask, 0, p);
        assert(mask.take(0) =~= Seq::<bool>::empty());
        assert(mask.take(mask.len() as int) =~= mask);
        lemma_args_alike(g, h, best, a, b, terms, e, ch, p as nat, height);
        if mask[p] {
            assert(g.enodes@[e].ch_eq@[k] < g.size());
            lemma_best_term_alike(g, h, best, a, b, terms, g.children(e)[k], ch[p], height);
        } else {
            assert(strings_of(a)[g.enodes@[e].ch_prim@[p - k].1] == strings_of(
                b,
            )[h.enodes@[e].ch_prim@[p - k].1]);
        }
    }
}

proof fn lemma_fault_alike(
    g: &ClassGraph,
    h: &ClassGraph,
    best: Seq<Option<usize>>,
    v: u32,
    above: Seq<u32>,
)
    requires
        alike(g, h),
        g.wf(),
        choices_ok(g, best),
        v < g.size(),
    ensures
        fault(g, best, v, above) == fault(h, best, v, above),
    decreases g.size() - above.len(), 0nat,
{
    if !above.contains(v) && above.len() < g.size() {
        if let Some(e) = best[v as int] {
            assert(e < g.enodes@.len());
            assert(enode_alike(g.enodes@[e as int], h.enodes@[e as int]));
            let kids = g.children(e as int);
            assert forall|i: int| 0 <= i < kids.len() implies #[trigger] kids[i] < g.size() by {
                assert(g.enodes@[e as int].ch_eq@[i] < g.size());
            }
            lemma_fault_among_alike(g, h, best, kids, kids.len(), above.push(v));
        }
    }
}

proof fn lemma_fault_among_alike(
    g: &ClassGraph,
    h: &ClassGraph,
    best: Seq<Option<usize>>,
    kids: Seq<u32>,
    n: nat,
    above: Seq<u32>,
)
    requires
        alike(g, h),
        g.wf(),
        choices_ok(g, best),
        n <= kids.len(),
        above.len() <= g.size(),
        forall|i: int| 0 <= i < kids.len() ==> #[trigger] kids[i] < g.size(),
    ensures
        fault_among(g, best, kids, n, above) == fault_among(h, best, kids, n, above),
    decreases g.size() - above.len(), n + 1,
{
    if n > 0 {
        lemma_fault_among_alike(g, h, best, kids, (n - 1) as nat, above);
        lemma_fault_alike(g, h, best, kids[n - 1], above);
    }
}

/// In graphs that are alike, over the same strings, the same terms are chosen.
pub proof fn terms_ignore_the_numbers(
    g: &ClassGraph,
    h: &ClassGraph,
    best: Seq<Option<usize>>,
    a: EGraph,
    b: EGraph,
    terms: Seq<TermView>,
    v: u32,
    id: usize,
)
    requires
        alike(g, h),
        well_shaped(g),
        same_texts(a, b, g.enodes@, h.enodes@),
        choices_ok(g, best),
        v < g.size(),
    ensures
        is_best_term(g, best, a, terms, v, id) == is_best_term(h, best, b, terms, v, id),
{
    if is_best_term(g, best, a, terms, v, id) {
        let k = choose|k: nat| #[trigger] best_term(g, best, a, terms, v, id, k);
        lemma_best_term_alike(g, h, best, a, b, terms, v, id, k);
    }
    if is_best_term(h, best, b, terms, v, id) {
        let k = choose|k: nat| #[trigger] best_term(h, best, b, terms, v, id, k);
        lemma_best_term_alike(g, h, best, a, b, terms, v, id, k);
    }
}

// ------------------------------------------------------------------- extractors

/// The extractors have the same choices, in graphs that are alike.
pub open spec fn same_choices(x: DagExtractor, y: DagExtractor) -> bool {
    &&& alike(&x.graph, &y.graph)
    &&& x.costs@ == y.costs@
    &&& x.hashes@ == y.hashes@
    &&& x.best@ == y.best@
    &&& x.memo@ == y.memo@
}

/// Both attempts failed for the same reason.
pub open spec fn same_failure(sort: Seq<char>, x: ExtractorError, y: ExtractorError) -> bool {
    match (x, y) {
        (ExtractorError::UnknownFold, ExtractorError::UnknownFold) => true,
        (ExtractorError::NotConverged, ExtractorError::NotConverged) => true,
        (ExtractorError::Build(d), ExtractorError::Build(e)) => exists|t: BuildFault| #[trigger]
            d.reports(t, sort) && e.reports(t, sort),
        _ => false,
    }
}

proof fn lemma_solves_alike(
    g: ClassGraph,
    h: ClassGraph,
    p: Pricing,
    asked: bool,
    other: bool,
    x: Result<DagExtractor, ExtractorError>,
    y: Result<DagExtractor, ExtractorError>,
)
    requires
        alike(&g, &h),
        well_shaped(&g),
        solves(g, p, asked, x),
        solves(h, p, other, y),
    ensures
        x is Ok <==> y is Ok,
        x matches Ok(d) ==> y matches Ok(e) && same_choices(d, e) && d.graph == g && e.graph == h
            && (d.scc_profile is Some <==> asked) && (e.scc_profile is Some <==> other),
        x matches Err(d) ==> d is NotConverged,
        y matches Err(e) ==> e is NotConverged,
{
    solutions_ignore_the_numbers(&g, &h, p, g.sccs@.len());
}

/// Asking for the statistics of the condensation changes nothing else: two calls on one
/// e-graph give the same graph, costs, hashes and choices, or fail for the same reason.
pub proof fn profiling_changes_nothing<
    P: Fn(Cost, Cost) -> Cost,
    W: Fn(Cost) -> Cost,
    N: Fn(u64) -> Cost,
>(
    eg: EGraph,
    sort: Seq<char>,
    heads: Seq<(String, Cost)>,
    fold: Seq<char>,
    plus: P,
    weigh: W,
    noise: N,
    asked: bool,
    other: bool,
    x: Result<DagExtractor, ExtractorError>,
    y: Result<DagExtractor, ExtractorError>,
)
    requires
        heads.len() <= usize::MAX,
        prepares(eg, sort, heads, fold, plus, weigh, noise, asked, x),
        prepares(eg, sort, heads, fold, plus, weigh, noise, other, y),
    ensures
        match (x, y) {
            (Ok(d), Ok(e)) => same_choices(d, e) && same_graph(&d.graph, &e.graph) && (
            d.scc_profile is Some <==> asked) && (e.scc_profile is Some <==> other),
            (Err(d), Err(e)) => same_failure(sort, d, e),
            _ => false,
        },
{
    if let Some(fold_max) = fold_of(fold) {
        let bx = lemma_prepared(eg, sort, heads, fold_max, fold, plus, weigh, noise, asked, x);
        let by = lemma_prepared(eg, sort, heads, fold_max, fold, plus, weigh, noise, other, y);
        building_twice_gives_the_same_graph(eg, sort, heads, heads, bx, by);
        if let (Ok(g), Ok(h)) = (bx, by) {
            assert(texts_of(eg, g.enodes@) =~= texts_of(eg, h.enodes@)) by {
                assert forall|e: int| 0 <= e < g.enodes@.len() implies texts_of(eg, g.enodes@)[e]
                    == texts_of(eg, h.enodes@)[e] by {
                    assert(g.enodes@[e].ch_prim@ == h.enodes@[e].ch_prim@);
                    assert(texts_of(eg, g.enodes@)[e] =~= texts_of(eg, h.enodes@)[e]);
                }
            }
            let p = pricing(texts_of(eg, g.enodes@), fold_max, plus, weigh, noise);
            lemma_built(eg, sort, heads, g);
            lemma_solves_alike(g, h, p, asked, other, x, y);
        }
    }
}

/// The class graph behind a successful or failed attempt.
pub(crate) proof fn lemma_prepared<
    P: Fn(Cost, Cost) -> Cost,
    W: Fn(Cost) -> Cost,
    N: Fn(u64) -> Cost,
>(
    eg: EGraph,
    sort: Seq<char>,
    heads: Seq<(String, Cost)>,
    fold_max: bool,
    fold: Seq<char>,
    plus: P,
    weigh: W,
    noise: N,
    asked: bool,
    r: Result<DagExtractor, ExtractorError>,
) -> (b: Result<ClassGraph, BuildError>)
    requires
        fold_of(fold) == Some(fold_max),
        prepares(eg, sort, heads, fold, plus, weigh, noise, asked, r),
    ensures
        builds(eg, sort, heads, b),
        match b {
            Err(e) => r matches Err(ExtractorError::Build(x)) && x == e,
            Ok(g) => solves(
                g,
                pricing(texts_of(eg, g.enodes@), fold_max, plus, weigh, noise),
                asked,
                r,
            ),
        },
{
    choose|b: Result<ClassGraph, BuildError>| #[trigger]
        builds(eg, sort, heads, b) && match b {
            Err(e) => r matches Err(ExtractorError::Build(x)) && x == e,
            Ok(g) => texts_known(eg, g.enodes@) && solves(
                g,
                pricing(texts_of(eg, g.enodes@), fold_max, plus, weigh, noise),
                asked,
                r,
            ),
        }
}

/// Costs, hashes and choices do not depend on how the e-graph numbers its classes and
/// strings: two e-graphs that differ only in these numbers get the same ones.
pub proof fn choices_ignore_the_numbers<
    P: Fn(Cost, Cost) -> Cost,
    W: Fn(Cost) -> Cost,
    N: Fn(u64) -> Cost,
>(
    a: EGraph,
    b: EGraph,
    sort: Seq<char>,
    f: spec_fn(u32) -> u32,
    heads: Seq<(String, Cost)>,
    fold: Seq<char>,
    plus: P,
    weigh: W,
    noise: N,
    asked: bool,
    x: Result<DagExtractor, ExtractorError>,
    y: Result<DagExtractor, ExtractorError>,
)
    requires
        heads.len() <= usize::MAX,
        renumbered(a, b, sort, f, head_names(heads)),
        prepares(a, sort, heads, fold, plus, weigh, noise, asked, x),
        prepares(b, sort, heads, fold, plus, weigh, noise, asked, y),
    ensures
        match (x, y) {
            (Ok(d), Ok(e)) => {
                &&& same_choices(d, e)
                &&& e.graph.classes@ == d.graph.classes@.map_values(f)
                &&& same_texts(a, b, d.graph.enodes@, e.graph.enodes@)
            },
            (Err(d), Err(e)) => same_failure(sort, d, e),
            _ => false,
        },
{
    if let Some(fold_max) = fold_of(fold) {
        let bx = lemma_prepared(a, sort, heads, fold_max, fold, plus, weigh, noise, asked, x);
        let by = lemma_prepared(b, sort, heads, fold_max, fold, plus, weigh, noise, asked, y);
        graphs_ignore_the_numbers(a, b, sort, f, heads, bx, by);
        if let (Ok(g), Ok(h)) = (bx, by) {
            assert(texts_of(a, g.enodes@) =~= texts_of(b, h.enodes@)) by {
                assert forall|e: int| 0 <= e < g.enodes@.len() implies texts_of(a, g.enodes@)[e]
                    == texts_of(b, h.enodes@)[e] by {
                    assert(enode_alike(g.enodes@[e], h.enodes@[e]));
                    let (s, t) = (texts_of(a, g.enodes@)[e], texts_of(b, h.enodes@)[e]);
                    assert forall|j: int| 0 <= j < s.len() implies s[j] == t[j] by {
                        assert(strings_of(a)[g.enodes@[e].ch_prim@[j].1] == strings_of(
                            b,
                        )[h.enodes@[e].ch_prim@[j].1]);
                    }
                    assert(s =~= t);
                }
            }
            let p = pricing(texts_of(a, g.enodes@), fold_max, plus, weigh, noise);
            lemma_built(a, sort, heads, g);
            lemma_solves_alike(g, h, p, asked, asked, x, y);
        }
    }
}

proof fn lemma_lookup_renamed(
    a: EGraph,
    b: EGraph,
    sort: Seq<char>,
    f: spec_fn(u32) -> u32,
    x: Map<u32, u32>,
    y: Map<u32, u32>,
    classes: Seq<u32>,
    p: u32,
    q: u32,
)
    requires
        one_to_one(f),
        sorts_of(a).dom().contains(sort) == sorts_of(b).dom().contains(sort),
        indexes(x, classes),
        indexes(y, classes.map_values(f)),
        canonical_of(b)[(sort, q)] == f(canonical_of(a)[(sort, p)]),
    ensures
        class_lookup(a, sort, x, p) == class_lookup(b, sort, y, q),
{
    let (c, d) = (canonical_of(a)[(sort, p)], canonical_of(b)[(sort, q)]);
    let others = classes.map_values(f);
    if x.dom().contains(c) {
        let i = choose|i: int| 0 <= i < classes.len() && classes[i] == c;
        assert(x[classes[i]] == i);
        assert(others[i] == d);
        assert(y[others[i]] == i);
        assert(others.contains(d));
    }
    if y.dom().contains(d) {
        assert(others.contains(d));
        let i = choose|i: int| 0 <= i < others.len() && others[i] == d;
        assert(f(classes[i]) == f(c));
        assert(classes.contains(c));
    }
}

/// What is extracted does not depend on the numbers either: `p` and `q` are the same value in
/// two e-graphs that differ only in these numbers. Both extractions fail alike, or give the
/// same cost and a term that is the chosen one by either extractor.
pub proof fn extractions_ignore_the_numbers(
    a: EGraph,
    b: EGraph,
    sort: Seq<char>,
    f: spec_fn(u32) -> u32,
    x: DagExtractor,
    y: DagExtractor,
    xn: DagExtractor,
    yn: DagExtractor,
    sx: Seq<TermView>,
    sy: Seq<TermView>,
    tx: Seq<TermView>,
    ty: Seq<TermView>,
    p: u32,
    q: u32,
    rx: Result<(Cost, usize), ExtractError>,
    ry: Result<(Cost, usize), ExtractError>,
)
    requires
        one_to_one(f),
        sorts_of(a).dom().contains(sort) == sorts_of(b).dom().contains(sort),
        x.wf(),
        y.wf(),
        same_choices(x, y),
        y.graph.classes@ == x.graph.classes@.map_values(f),
        same_texts(a, b, x.graph.enodes@, y.graph.enodes@),
        canonical_of(b)[(sort, q)] == f(canonical_of(a)[(sort, p)]),
        extracts(x, xn, a, sx, tx, p, sort, rx),
        extracts(y, yn, b, sy, ty, q, sort, ry),
    ensures
        match (rx, ry) {
            (Ok((c, i)), Ok((d, j))) => {
                &&& c == d
                &&& exists|v: u32| #[trigger]
                    is_best_term(&x.graph, x.best@, a, tx, v, i) && is_best_term(
                        &x.graph,
                        x.best@,
                        a,
                        ty,
                        v,
                        j,
                    ) && is_best_term(&y.graph, y.best@, b, ty, v, j)
            },
            (Err(d), Err(e)) => d == e,
            _ => false,
        },
{
    lemma_lookup_renamed(
        a,
        b,
        sort,
        f,
        x.graph.class_index@,
        y.graph.class_index@,
        x.graph.classes@,
        p,
        q,
    );
    lemma_class_in_range(&x.graph, a, sort, p);
    if let Ok(v) = class_lookup(a, sort, x.graph.class_index@, p) {
        lemma_fault_alike(&x.graph, &y.graph, x.best@, v, Seq::empty());
        if let Ok((_, j)) = ry {
            terms_ignore_the_numbers(&x.graph, &y.graph, x.best@, a, b, ty, v, j);
        }
    }
}

} // verus!
