//! What the extracted terms cost, read off the terms themselves.
use egglog::EGraph;
use vstd::prelude::*;

use crate::best_term::{
    args_fit, best_term, choices_ok, is_best_term, lemma_count_grows, lemma_count_take, mask_of,
};
use crate::class_graph::ClassGraph;
use crate::cost::{Cost, INFINITY_KEY, ZERO_KEY};
use crate::cut_iter::{class_lookup, lemma_built, lemma_class_in_range, well_shaped};
use crate::dag_extract::{extracts, DagExtractor, ExtractError};
use crate::egraph::{canonical_of, functions_of, strings_of, RowView, TermView};
use crate::extract_dp::{
    child_max, child_sum, children_finite, enode_cost, noise_fn, pricing, solved, struct_hash,
    weigh_fn, Dp, Pricing,
};
use crate::extract_laws::{
    amount, amounts, at_most, chosen_enodes_cost_the_class, costs_are_amounts, heads_are_amounts,
    monotone, rising, solution_costs_are_amounts,
};
use crate::kernel::count_true;
use crate::mapping::plus_fn;
use crate::price_laws::{fair, fair_functions_make_fair_prices, no_enode_is_better};
use crate::row_laws::{
    enodes_read_their_rows, marked_before, read_rows_of, reads, reads_table, table_of,
};
use crate::snapshot::{builds, head_names, BuildError};

verus! {

/// How a term is priced: what each constructor costs, and how costs are put together.
pub struct TermPrice {
    pub head: spec_fn(Seq<char>) -> Cost,
    pub fold_max: bool,
    pub plus: spec_fn(Cost, Cost) -> Cost,
    pub weigh: spec_fn(Cost) -> Cost,
}

/// The cost of term `id`, down to terms of depth `fuel`: nothing, if its constructor costs
/// nothing; otherwise what the constructor costs and the sum of what its subterms cost, or what
/// the constructor and the dearest subterm cost and the weighed sum. Texts cost nothing.
pub open spec fn term_cost(terms: Seq<TermView>, t: TermPrice, id: usize, fuel: nat) -> Cost
    decreases fuel, 0nat, 0nat,
{
    let zero = Cost::Number(0x8000_0000_0000_0000);
    match terms[id as int] {
        TermView::App(head, ch) => if fuel == 0 || (t.head)(head) == zero {
            zero
        } else {
            let sum = args_sum(terms, t, ch, ch.len(), (fuel - 1) as nat);
            if t.fold_max {
                let max = args_max(terms, t, ch, ch.len(), (fuel - 1) as nat);
                (t.plus)((t.plus)((t.plus)((t.head)(head), max), (t.weigh)(sum)), zero)
            } else {
                (t.plus)((t.plus)((t.head)(head), sum), zero)
            }
        },
        _ => zero,
    }
}

/// The sum of what the first `n` arguments cost.
pub open spec fn args_sum(
    terms: Seq<TermView>,
    t: TermPrice,
    ch: Seq<usize>,
    n: nat,
    fuel: nat,
) -> Cost
    decreases fuel, 1nat, n,
{
    if n == 0 {
        Cost::Number(0x8000_0000_0000_0000)
    } else {
        let rest = args_sum(terms, t, ch, (n - 1) as nat, fuel);
        match terms[ch[n - 1] as int] {
            TermView::App(_, _) => (t.plus)(rest, term_cost(terms, t, ch[n - 1], fuel)),
            _ => rest,
        }
    }
}

/// What the dearest of the first `n` arguments costs.
pub open spec fn args_max(
    terms: Seq<TermView>,
    t: TermPrice,
    ch: Seq<usize>,
    n: nat,
    fuel: nat,
) -> Cost
    decreases fuel, 1nat, n,
{
    if n == 0 {
        Cost::Number(0x8000_0000_0000_0000)
    } else {
        let rest = args_max(terms, t, ch, (n - 1) as nat, fuel);
        match terms[ch[n - 1] as int] {
            TermView::App(_, _) => {
                let c = term_cost(terms, t, ch[n - 1], fuel);
                match (rest, c) {
                    (Cost::Number(x), Cost::Number(y)) => if x < y {
                        c
                    } else {
                        rest
                    },
                    _ => rest,
                }
            },
            _ => rest,
        }
    }
}

/// The e-nodes have the head costs of their constructors.
pub open spec fn heads_by_name(graph: &ClassGraph, head: spec_fn(Seq<char>) -> Cost) -> bool {
    forall|e: int|
        0 <= e < graph.enodes@.len() ==> (#[trigger] graph.enodes@[e]).head == head(
            graph.funcs@[graph.enodes@[e].func as int].term_name@,
        )
}

/// Every class costs what its chosen e-node costs.
spec fn exact(graph: &ClassGraph, p: Pricing, st: Dp) -> bool {
    forall|v: int|
        0 <= v < graph.size() ==> (#[trigger] st.best[v] matches Some(e) ==> e
            < graph.enodes@.len() && enode_cost(graph, p, st, e as int) == Some(st.costs[v]))
}

spec fn priced_by(p: Pricing, t: TermPrice) -> bool {
    &&& p.fold_max == t.fold_max
    &&& p.plus == t.plus
    &&& forall|h: Cost, s: Cost, b: u64| #[trigger]
        (p.sum_price)(h, s, b) == (t.plus)((t.plus)(h, s), Cost::Number(ZERO_KEY))
    &&& forall|h: Cost, m: Cost, s: Cost, b: u64| #[trigger]
        (p.max_price)(h, m, s, b) == (t.plus)(
            (t.plus)((t.plus)(h, m), (t.weigh)(s)),
            Cost::Number(ZERO_KEY),
        )
}

proof fn lemma_term_cost(
    graph: &ClassGraph,
    p: Pricing,
    st: Dp,
    t: TermPrice,
    eg: EGraph,
    terms: Seq<TermView>,
    v: u32,
    id: usize,
    height: nat,
)
    requires
        well_shaped(graph),
        exact(graph, p, st),
        priced_by(p, t),
        heads_by_name(graph, t.head),
        v < graph.size(),
        best_term(graph, st.best, eg, terms, v, id, height),
    ensures
        st.costs[v as int] == term_cost(terms, t, id, height),
        terms[id as int] is App,
    decreases height, 0nat, 0nat,
{
    let e = st.best[v as int]->0 as int;
    assert(st.best[v as int] is Some);
    assert(graph.enodes@[e].head == (t.head)(
        graph.funcs@[graph.enodes@[e].func as int].term_name@,
    ));
    if let TermView::App(head, ch) = terms[id as int] {
        if graph.enodes@[e].head != Cost::Number(ZERO_KEY) {
            lemma_args_cost(graph, p, st, t, eg, terms, e, ch, ch.len(), (height - 1) as nat);
            let mask = mask_of(graph, e);
            assert(mask.take(mask.len() as int) =~= mask);
            assert(graph.children(e) == graph.enodes@[e].ch_eq@);
        }
    }
}

proof fn lemma_args_cost(
    graph: &ClassGraph,
    p: Pricing,
    st: Dp,
    t: TermPrice,
    eg: EGraph,
    terms: Seq<TermView>,
    e: int,
    ch: Seq<usize>,
    n: nat,
    height: nat,
)
    requires
        well_shaped(graph),
        exact(graph, p, st),
        priced_by(p, t),
        heads_by_name(graph, t.head),
        0 <= e < graph.enodes@.len(),
        n <= mask_of(graph, e).len(),
        args_fit(graph, st.best, eg, terms, e, ch, n, height),
    ensures
        ({
            let k = count_true(mask_of(graph, e).take(n as int));
            &&& k <= graph.children(e).len()
            &&& args_sum(terms, t, ch, n, height) == child_sum(
                p.plus,
                graph.children(e),
                st.costs,
                k,
            )
            &&& args_max(terms, t, ch, n, height) == child_max(graph.children(e), st.costs, k)
        }),
    decreases height, 1nat, n,
{
    let mask = mask_of(graph, e);
    assert(mask.take(0) =~= Seq::<bool>::empty());
    assert(mask.take(mask.len() as int) =~= mask);
    lemma_count_grows(mask, n as int, mask.len() as int);
    assert(graph.enodes@[e].func < graph.funcs@.len());
    if n > 0 {
        lemma_args_cost(graph, p, st, t, eg, terms, e, ch, (n - 1) as nat, height);
        lemma_count_take(mask, n - 1);
        let k = count_true(mask.take(n - 1)) as int;
        if mask[n - 1] {
            assert(graph.enodes@[e].ch_eq@[k] < graph.size());
            lemma_term_cost(
                graph,
                p,
                st,
                t,
                eg,
                terms,
                graph.children(e)[k],
                ch[n - 1],
                height,
            );
        }
    }
}

/// Where the caller's functions are fair, the cost that an extraction returns is that of the
/// term that it returns, added up over the term: what its constructors cost, by name, and
/// nothing else.
pub proof fn extracted_cost_is_that_of_the_term<
    P: Fn(Cost, Cost) -> Cost,
    W: Fn(Cost) -> Cost,
    N: Fn(u64) -> Cost,
>(
    texts: Seq<Seq<u64>>,
    fold_max: bool,
    plus: P,
    weigh: W,
    noise: N,
    head: spec_fn(Seq<char>) -> Cost,
    x: DagExtractor,
    y: DagExtractor,
    eg: EGraph,
    s: Seq<TermView>,
    u: Seq<TermView>,
    value: u32,
    sort: Seq<char>,
    cost: Cost,
    id: usize,
)
    requires
        fair(plus_fn(plus), weigh_fn(weigh), noise_fn(noise)),
        x.wf(),
        heads_are_amounts(&x.graph),
        heads_by_name(&x.graph, head),
        solved(
            &x.graph,
            pricing(texts, fold_max, plus, weigh, noise),
            x.graph.sccs@.len(),
        ) == Some(Dp { costs: x.costs@, hashes: x.hashes@, best: x.best@ }),
        extracts(x, y, eg, s, u, value, sort, Ok::<(Cost, usize), ExtractError>((cost, id))),
    ensures
        exists|height: nat|
            cost == #[trigger] term_cost(
                u,
                TermPrice { head, fold_max, plus: plus_fn(plus), weigh: weigh_fn(weigh) },
                id,
                height,
            ),
{
    let g = &x.graph;
    let p = pricing(texts, fold_max, plus, weigh, noise);
    let st = Dp { costs: x.costs@, hashes: x.hashes@, best: x.best@ };
    let t = TermPrice { head, fold_max, plus: plus_fn(plus), weigh: weigh_fn(weigh) };
    fair_functions_make_fair_prices(texts, fold_max, plus, weigh, noise);
    assert(exact(g, p, st)) by {
        assert forall|v: int| 0 <= v < g.size() implies (#[trigger] st.best[v] matches Some(e)
            ==> e < g.enodes@.len() && enode_cost(g, p, st, e as int) == Some(st.costs[v])) by {
            chosen_enodes_cost_the_class(g, p, st, v);
        }
    }
    lemma_priced_by(texts, fold_max, plus, weigh, noise, t);
    lemma_class_in_range(g, eg, sort, value);
    let v = class_lookup(eg, sort, g.class_index@, value)->Ok_0;
    assert(is_best_term(g, st.best, eg, u, v, id));
    let height = choose|height: nat| #[trigger]
        best_term(g, st.best, eg, u, v, id, height);
    lemma_term_cost(g, p, st, t, eg, u, v, id, height);
}

// ---------------------------------------------------------------------- any term

/// Term `id` is one of class `v`, of height at most `height`: a constructor of one of the
/// class's e-nodes over terms of its children.
pub open spec fn is_term_of(
    graph: &ClassGraph,
    terms: Seq<TermView>,
    v: u32,
    id: usize,
    height: nat,
) -> bool
    decreases height, 0nat, 0nat,
{
    height > 0 && id < terms.len() && exists|e: usize| #[trigger]
        graph.enodes_of@[v as int]@.contains(e) && match terms[id as int] {
            TermView::App(head, ch) => {
                &&& head == graph.funcs@[graph.enodes@[e as int].func as int].term_name@
                &&& ch.len() == graph.funcs@[graph.enodes@[e as int].func as int].eq_mask@.len()
                &&& are_args_of(graph, terms, e as int, ch, ch.len(), (height - 1) as nat)
            },
            _ => false,
        }
}

/// The first `n` arguments are terms of the children of e-node `e`, or texts.
pub open spec fn are_args_of(
    graph: &ClassGraph,
    terms: Seq<TermView>,
    e: int,
    ch: Seq<usize>,
    n: nat,
    height: nat,
) -> bool
    decreases height, 1nat, n,
{
    n == 0 || {
        let mask = graph.funcs@[graph.enodes@[e].func as int].eq_mask@;
        let p = n - 1;
        &&& are_args_of(graph, terms, e, ch, p as nat, height)
        &&& ch[p] < terms.len()
        &&& if mask[p] {
            is_term_of(
                graph,
                terms,
                graph.enodes@[e].ch_eq@[marked_before(mask, p) as int],
                ch[p],
                height,
            )
        } else {
            terms[ch[p] as int] is Text
        }
    }
}

proof fn lemma_marked_is_count(mask: Seq<bool>, p: int)
    requires
        0 <= p <= mask.len(),
    ensures
        marked_before(mask, p) == count_true(mask.take(p)),
    decreases p,
{
    reveal(Seq::filter);
    if p > 0 {
        lemma_marked_is_count(mask, p - 1);
        assert(mask.take(p).drop_last() =~= mask.take(p - 1));
    }
}

proof fn lemma_term_dearer(
    graph: &ClassGraph,
    p: Pricing,
    st: Dp,
    t: TermPrice,
    terms: Seq<TermView>,
    v: u32,
    id: usize,
    height: nat,
)
    requires
        well_shaped(graph),
        amounts(p),
        monotone(p),
        rising(p),
        priced_by(p, t),
        heads_are_amounts(graph),
        heads_by_name(graph, t.head),
        solved(graph, p, graph.sccs@.len()) == Some(st),
        costs_are_amounts(graph, st),
        v < graph.size(),
        is_term_of(graph, terms, v, id, height),
    ensures
        terms[id as int] is App,
        amount(term_cost(terms, t, id, height)),
        at_most(st.costs[v as int], term_cost(terms, t, id, height)),
    decreases height, 0nat, 0nat,
{
    let zero = Cost::Number(ZERO_KEY);
    let e = choose|e: usize| #[trigger]
        graph.enodes_of@[v as int]@.contains(e) && match terms[id as int] {
            TermView::App(head, ch) => {
                &&& head == graph.funcs@[graph.enodes@[e as int].func as int].term_name@
                &&& ch.len() == graph.funcs@[graph.enodes@[e as int].func as int].eq_mask@.len()
                &&& are_args_of(graph, terms, e as int, ch, ch.len(), (height - 1) as nat)
            },
            _ => false,
        };
    let ens = graph.enodes_of@[v as int]@;
    let i = choose|i: int| 0 <= i < ens.len() && ens[i] == e;
    assert(graph.enodes_of@[v as int]@[i] < graph.enodes@.len());
    no_enode_is_better(graph, p, st, v as int, i);
    let x = graph.enodes@[e as int];
    assert(x.head == (t.head)(graph.funcs@[x.func as int].term_name@));
    assert(amount(x.head));
    assert(amount(st.costs[v as int]));
    if let TermView::App(_, ch) = terms[id as int] {
        if x.head != zero {
            let mask = mask_of(graph, e as int);
            lemma_args_dearer(
                graph,
                p,
                st,
                t,
                terms,
                e as int,
                ch,
                ch.len(),
                (height - 1) as nat,
            );
            assert(mask.take(mask.len() as int) =~= mask);
            let kids = x.ch_eq@;
            let sum = args_sum(terms, t, ch, ch.len(), (height - 1) as nat);
            let max = args_max(terms, t, ch, ch.len(), (height - 1) as nat);
            let (s, m) = (
                child_sum(p.plus, kids, st.costs, kids.len()),
                child_max(kids, st.costs, kids.len()),
            );
            let b: u64 = 0;
            assert(amount((p.sum_price)(x.head, sum, b)));
            assert(amount((p.max_price)(x.head, max, sum, b)));
            if children_finite(kids, st.costs, kids.len() as int) {
                let bucket = struct_hash(graph, p.texts, st.hashes, e as int) % 1024;
                assert(at_most(
                    (p.sum_price)(x.head, s, bucket),
                    (p.sum_price)(x.head, sum, b),
                ));
                assert(at_most(
                    (p.max_price)(x.head, m, s, bucket),
                    (p.max_price)(x.head, max, sum, b),
                ));
                assert(amount((p.sum_price)(x.head, s, bucket)));
                assert(amount((p.max_price)(x.head, m, s, bucket)));
            } else {
                let inf = Cost::Number(INFINITY_KEY);
                assert(sum == inf && max == inf);
                let one = (p.plus)(x.head, inf);
                assert(at_most(inf, one));
                assert(amount(one));
                let two = (p.plus)(one, zero);
                assert(at_most(one, two));
                assert((p.sum_price)(x.head, sum, b) == two);
                assert(amount(two));
                lemma_max_infinite(p, t, x.head, sum);
            }
        }
    }
}

/// An infinite child makes the e-node infinite.
proof fn lemma_max_infinite(p: Pricing, t: TermPrice, head: Cost, sum: Cost)
    requires
        amounts(p),
        rising(p),
        monotone(p),
        priced_by(p, t),
        amount(head),
        head != Cost::Number(ZERO_KEY),
        amount(sum),
    ensures
        (p.max_price)(head, Cost::Number(INFINITY_KEY), sum, 0) == Cost::Number(INFINITY_KEY),
{
    let inf = Cost::Number(INFINITY_KEY);
    let r = (p.max_price)(head, inf, sum, 0);
    assert(amount(r));
    if r != inf {
        assert(r.finite());
        assert(at_most(r, inf));
        assert(r.below((p.max_price)(head, inf, sum, 0)));
    }
}

proof fn lemma_args_dearer(
    graph: &ClassGraph,
    p: Pricing,
    st: Dp,
    t: TermPrice,
    terms: Seq<TermView>,
    e: int,
    ch: Seq<usize>,
    n: nat,
    height: nat,
)
    requires
        well_shaped(graph),
        amounts(p),
        monotone(p),
        rising(p),
        priced_by(p, t),
        heads_are_amounts(graph),
        heads_by_name(graph, t.head),
        solved(graph, p, graph.sccs@.len()) == Some(st),
        costs_are_amounts(graph, st),
        0 <= e < graph.enodes@.len(),
        n <= mask_of(graph, e).len(),
        are_args_of(graph, terms, e, ch, n, height),
    ensures
        ({
            let k = count_true(mask_of(graph, e).take(n as int));
            let kids = graph.enodes@[e].ch_eq@;
            let (sum, max) = (
                args_sum(terms, t, ch, n, height),
                args_max(terms, t, ch, n, height),
            );
            &&& k <= kids.len()
            &&& amount(sum) && amount(max)
            &&& amount(child_sum(p.plus, kids, st.costs, k))
            &&& amount(child_max(kids, st.costs, k))
            &&& at_most(child_sum(p.plus, kids, st.costs, k), sum)
            &&& at_most(child_max(kids, st.costs, k), max)
            &&& !children_finite(kids, st.costs, k as int) ==> sum == Cost::Number(INFINITY_KEY)
                && max == Cost::Number(INFINITY_KEY)
        }),
    decreases height, 1nat, n,
{
    let mask = mask_of(graph, e);
    let kids = graph.enodes@[e].ch_eq@;
    assert(mask.take(0) =~= Seq::<bool>::empty());
    assert(mask.take(mask.len() as int) =~= mask);
    lemma_count_grows(mask, n as int, mask.len() as int);
    assert(graph.enodes@[e].func < graph.funcs@.len());
    if n > 0 {
        lemma_args_dearer(graph, p, st, t, terms, e, ch, (n - 1) as nat, height);
        lemma_count_take(mask, n - 1);
        lemma_marked_is_count(mask, n - 1);
        let k = count_true(mask.take(n - 1)) as int;
        if mask[n - 1] {
            assert(graph.enodes@[e].ch_eq@[k] < graph.size());
            let c = kids[k];
            lemma_term_dearer(graph, p, st, t, terms, c, ch[n - 1], height);
            let x = term_cost(terms, t, ch[n - 1], height);
            let y = st.costs[c as int];
            assert(amount(y));
            let a = args_sum(terms, t, ch, (n - 1) as nat, height);
            let b = child_sum(p.plus, kids, st.costs, k as nat);
            assert(amount((p.plus)(a, x)));
            assert(amount((p.plus)(b, y)));
            assert(at_most((p.plus)(b, y), (p.plus)(a, x)));
            assert(at_most(x, (p.plus)(a, x)));
            assert(at_most(a, (p.plus)(a, x)));
            if !children_finite(kids, st.costs, k + 1) {
                if children_finite(kids, st.costs, k) {
                    assert(!y.finite());
                    assert(y == Cost::Number(INFINITY_KEY));
                }
            }
        } else {
            assert(terms[ch[n - 1] as int] is Text);
        }
    }
}

/// Where the caller's functions are fair, no term of a class, whichever of the class's e-nodes
/// it is made of, costs less than the class.
pub proof fn no_term_costs_less<
    P: Fn(Cost, Cost) -> Cost,
    W: Fn(Cost) -> Cost,
    N: Fn(u64) -> Cost,
>(
    graph: &ClassGraph,
    texts: Seq<Seq<u64>>,
    fold_max: bool,
    plus: P,
    weigh: W,
    noise: N,
    head: spec_fn(Seq<char>) -> Cost,
    st: Dp,
    terms: Seq<TermView>,
    v: u32,
    id: usize,
    height: nat,
)
    requires
        fair(plus_fn(plus), weigh_fn(weigh), noise_fn(noise)),
        well_shaped(graph),
        heads_are_amounts(graph),
        heads_by_name(graph, head),
        solved(
            graph,
            pricing(texts, fold_max, plus, weigh, noise),
            graph.sccs@.len(),
        ) == Some(st),
        v < graph.size(),
        is_term_of(graph, terms, v, id, height),
    ensures
        ({
            let c = term_cost(
                terms,
                TermPrice { head, fold_max, plus: plus_fn(plus), weigh: weigh_fn(weigh) },
                id,
                height,
            );
            c is Number && st.costs[v as int] is Number && st.costs[v as int]->Number_0
                <= c->Number_0
        }),
{
    let p = pricing(texts, fold_max, plus, weigh, noise);
    let t = TermPrice { head, fold_max, plus: plus_fn(plus), weigh: weigh_fn(weigh) };
    fair_functions_make_fair_prices(texts, fold_max, plus, weigh, noise);
    lemma_priced_by(texts, fold_max, plus, weigh, noise, t);
    solution_costs_are_amounts(graph, p);
    lemma_term_dearer(graph, p, st, t, terms, v, id, height);
}

proof fn lemma_priced_by<
    P: Fn(Cost, Cost) -> Cost,
    W: Fn(Cost) -> Cost,
    N: Fn(u64) -> Cost,
>(texts: Seq<Seq<u64>>, fold_max: bool, plus: P, weigh: W, noise: N, t: TermPrice)
    requires
        fair(plus_fn(plus), weigh_fn(weigh), noise_fn(noise)),
        t.fold_max == fold_max,
        t.plus == plus_fn(plus),
        t.weigh == weigh_fn(weigh),
    ensures
        priced_by(pricing(texts, fold_max, plus, weigh, noise), t),
{
    let p = pricing(texts, fold_max, plus, weigh, noise);
    let n = noise_fn(noise);
    assert forall|h: Cost, c: Cost, b: u64| #[trigger]
        (p.sum_price)(h, c, b) == (t.plus)((t.plus)(h, c), Cost::Number(ZERO_KEY)) by {
        assert(n(b) == Cost::Number(ZERO_KEY));
    }
    assert forall|h: Cost, m: Cost, c: Cost, b: u64| #[trigger]
        (p.max_price)(h, m, c, b) == (t.plus)(
            (t.plus)((t.plus)(h, m), (t.weigh)(c)),
            Cost::Number(ZERO_KEY),
        ) by {
        assert(n(b) == Cost::Number(ZERO_KEY));
    }
}

// -------------------------------------------------------------------------- rows

/// Argument `p` of a chosen term follows the row `row`: for a class, the chosen term of the
/// class of its canonical value; for another value, its text.
pub open spec fn arg_follows(
    eg: EGraph,
    sort: Seq<char>,
    graph: &ClassGraph,
    best: Seq<Option<usize>>,
    terms: Seq<TermView>,
    row: RowView,
    mask: Seq<bool>,
    ch: Seq<usize>,
    p: int,
) -> bool {
    &&& ch[p] < terms.len()
    &&& if mask[p] {
        exists|c: u32|
            c < graph.size() && graph.classes@[c as int] == canonical_of(eg)[(sort, row.inputs[p])]
                && #[trigger] is_best_term(graph, best, eg, terms, c, ch[p])
    } else {
        terms[ch[p] as int] == TermView::Text(strings_of(eg)[row.inputs[p]])
    }
}

proof fn lemma_arg_at(
    graph: &ClassGraph,
    best: Seq<Option<usize>>,
    eg: EGraph,
    terms: Seq<TermView>,
    e: int,
    ch: Seq<usize>,
    n: nat,
    height: nat,
    p: int,
)
    requires
        args_fit(graph, best, eg, terms, e, ch, n, height),
        0 <= p < n,
    ensures
        ({
            let mask = mask_of(graph, e);
            let k = count_true(mask.take(p)) as int;
            if mask[p] {
                best_term(graph, best, eg, terms, graph.children(e)[k], ch[p], height)
            } else {
                ch[p] < terms.len() && terms[ch[p] as int] == TermView::Text(
                    strings_of(eg)[graph.enodes@[e].ch_prim@[p - k].1],
                )
            }
        }),
    decreases n,
{
    if p < n - 1 {
        lemma_arg_at(graph, best, eg, terms, e, ch, (n - 1) as nat, height, p);
    }
}

/// The chosen term of a class is a row of the e-graph whose output is in the class: the
/// constructor's name over the chosen terms of the row's classes and the texts of its other
/// values, each at its position.
pub proof fn chosen_terms_follow_a_row(
    eg: EGraph,
    sort: Seq<char>,
    heads: Seq<(String, Cost)>,
    g: ClassGraph,
    best: Seq<Option<usize>>,
    terms: Seq<TermView>,
    v: u32,
    id: usize,
) -> (row: RowView)
    requires
        builds(eg, sort, heads, Ok::<ClassGraph, BuildError>(g)),
        choices_ok(&g, best),
        forall|x: int|
            0 <= x < g.size() ==> (#[trigger] best[x] matches Some(e) ==> g.enodes@[e as int].out
                == x),
        v < g.size(),
        is_best_term(&g, best, eg, terms, v, id),
    ensures
        terms[id as int] matches TermView::App(head, ch) && {
            let inputs = functions_of(eg)[head].inputs;
            let mask = Seq::new(inputs.len(), |p: int| inputs[p].eq);
            &&& head_names(heads).contains(head)
            &&& table_of(eg, head).contains(row)
            &&& !row.subsumed
            &&& row.inputs.len() == inputs.len()
            &&& ch.len() == inputs.len()
            &&& g.classes@[v as int] == canonical_of(eg)[(sort, row.output)]
            &&& forall|p: int|
                0 <= p < ch.len() ==> #[trigger] arg_follows(
                    eg,
                    sort,
                    &g,
                    best,
                    terms,
                    row,
                    mask,
                    ch,
                    p,
                )
        },
{
    let height = choose|height: nat| #[trigger]
        best_term(&g, best, eg, terms, v, id, height);
    let e = best[v as int]->0 as int;
    let starts = enodes_read_their_rows(eg, sort, heads, g);
    lemma_built(eg, sort, heads, g);
    let f = lemma_block_of(starts, g.funcs@.len() as int, e);
    assert(reads_table(eg, sort, heads, &g, f, starts[f], starts[f + 1]));
    let name = g.funcs@[f].term_name@;
    let rows = read_rows_of(table_of(eg, name), functions_of(eg)[name].inputs.len());
    let k = e - starts[f];
    let row = rows[k];
    assert(reads(eg, sort, &g, f, starts[f] + k, rows[k]));
    lemma_read_from(table_of(eg, name), functions_of(eg)[name].inputs.len(), k);
    let x = g.enodes@[e];
    let i = choose|i: int|
        0 <= i < heads.len() && (#[trigger] heads[i]).0@ == name && g.enodes@[e].head
            == heads[i].1;
    assert(head_names(heads)[i] == name);
    if let TermView::App(head, ch) = terms[id as int] {
        let inputs = functions_of(eg)[head].inputs;
        let mask = Seq::new(inputs.len(), |p: int| inputs[p].eq);
        assert(mask =~= mask_of(&g, e));
        assert forall|p: int| 0 <= p < ch.len() implies #[trigger] arg_follows(
            eg,
            sort,
            &g,
            best,
            terms,
            row,
            mask,
            ch,
            p,
        ) by {
            lemma_arg_at(&g, best, eg, terms, e, ch, ch.len(), (height - 1) as nat, p);
            lemma_marked_is_count(mask, p);
            let j = marked_before(mask, p) as int;
            if mask[p] {
                assert(g.funcs@[f].eq_mask@[p]);
                let c = g.enodes@[e].ch_eq@[j];
                assert(best_term(&g, best, eg, terms, c, ch[p], (height - 1) as nat));
                assert(is_best_term(&g, best, eg, terms, c, ch[p]));
            } else {
                assert(!g.funcs@[f].eq_mask@[p]);
                assert(g.enodes@[e].ch_prim@[p - j] == (p as u32, row.inputs[p]));
            }
        }
    }
    row
}

/// The constructor in whose block e-node `e` lies.
proof fn lemma_block_of(starts: Seq<nat>, n: int, e: int) -> (f: int)
    requires
        0 <= n,
        starts.len() == n + 1,
        starts[0] == 0,
        0 <= e < starts[n],
    ensures
        0 <= f < n,
        starts[f] <= e < starts[f + 1],
    decreases n,
{
    if e >= starts[n - 1] {
        n - 1
    } else {
        lemma_block_of(starts.drop_last(), n - 1, e)
    }
}

proof fn lemma_read_from(rows: Seq<RowView>, width: nat, k: int)
    requires
        0 <= k < read_rows_of(rows, width).len(),
    ensures
        rows.contains(read_rows_of(rows, width)[k]),
        !read_rows_of(rows, width)[k].subsumed,
    decreases rows.len(),
{
    reveal(Seq::filter);
    let rest = read_rows_of(rows.drop_last(), width);
    if k < rest.len() {
        lemma_read_from(rows.drop_last(), width, k);
        let t = rows.drop_last();
        let i = choose|i: int| 0 <= i < t.len() && t[i] == rest[k];
        assert(rows[i] == rest[k]);
    } else {
        assert(rows[rows.len() - 1] == read_rows_of(rows, width)[k]);
    }
}

} // verus!
