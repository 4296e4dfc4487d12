//! Rebuilding the cheapest term of a class.
use std::collections::HashMap;

use egglog::{EGraph, TermDag};
use vstd::prelude::*;
use vstd::std_specs::hash::*;

use crate::class_graph::ClassGraph;
use crate::cut_iter::well_shaped;
use crate::egraph::{add_app, add_text, added, string_value, strings_of, terms_of, TermView};
use crate::extract_dp::lemma_distinct_bound;
use crate::kernel::count_true;
use crate::reconstruct::{grows, lemma_added_grows};
use crate::snapshot::texts_known;
use crate::tally::{count, lemma_count_flip};

verus! {

// ------------------------------------------------------------------------ model

/// Every chosen e-node is one of the graph.
pub open spec fn choices_ok(graph: &ClassGraph, best: Seq<Option<usize>>) -> bool {
    &&& best.len() == graph.size()
    &&& forall|v: int|
        0 <= v < graph.size() ==> (#[trigger] best[v] matches Some(e) ==> e < graph.enodes@.len())
}

/// Marked positions of the constructor of e-node `e`.
pub open spec fn mask_of(graph: &ClassGraph, e: int) -> Seq<bool> {
    graph.funcs@[graph.enodes@[e].func as int].eq_mask@
}

/// Term `id` is the chosen term of class `v`, of height at most `height`: the constructor of
/// the chosen e-node over the chosen terms of its children and the strings of its
/// primitives.
pub open spec fn best_term(
    graph: &ClassGraph,
    best: Seq<Option<usize>>,
    eg: EGraph,
    terms: Seq<TermView>,
    v: u32,
    id: usize,
    height: nat,
) -> bool
    decreases height, 0nat,
{
    &&& height > 0
    &&& id < terms.len()
    &&& match best[v as int] {
        None => false,
        Some(e) => match terms[id as int] {
            TermView::App(head, ch) => {
                &&& head == graph.funcs@[graph.enodes@[e as int].func as int].term_name@
                &&& ch.len() == mask_of(graph, e as int).len()
                &&& args_fit(graph, best, eg, terms, e as int, ch, ch.len(), (height - 1) as nat)
            },
            _ => false,
        },
    }
}

/// The first `n` arguments are those of e-node `e`.
pub open spec fn args_fit(
    graph: &ClassGraph,
    best: Seq<Option<usize>>,
    eg: EGraph,
    terms: Seq<TermView>,
    e: int,
    ch: Seq<usize>,
    n: nat,
    height: nat,
) -> bool
    decreases height, n + 1,
{
    if n == 0 {
        true
    } else {
        let p = n - 1;
        let k = count_true(mask_of(graph, e).take(p)) as int;
        &&& args_fit(graph, best, eg, terms, e, ch, p as nat, height)
        &&& if mask_of(graph, e)[p] {
            best_term(graph, best, eg, terms, graph.children(e)[k], ch[p], height)
        } else {
            &&& ch[p] < terms.len()
            &&& terms[ch[p] as int] == TermView::Text(
                strings_of(eg)[graph.enodes@[e].ch_prim@[p - k].1],
            )
        }
    }
}

/// Term `id` is the chosen term of class `v`.
pub open spec fn is_best_term(
    graph: &ClassGraph,
    best: Seq<Option<usize>>,
    eg: EGraph,
    terms: Seq<TermView>,
    v: u32,
    id: usize,
) -> bool {
    exists|height: nat| #[trigger] best_term(graph, best, eg, terms, v, id, height)
}

/// Why a class has no chosen term.
#[derive(Clone, Copy, Debug, PartialEq, Eq, Structural)]
pub enum TermFault {
    /// It depends on a class for which no e-node is chosen.
    Missing,
    /// It depends on a class that depends on itself.
    Cyclic,
}

/// What the walk down the chosen e-nodes from class `v` meets first, where `above` is the
/// way to `v`: a class without a chosen e-node, or one that lies on the way to itself.
pub open spec fn fault(
    graph: &ClassGraph,
    best: Seq<Option<usize>>,
    v: u32,
    above: Seq<u32>,
) -> Option<TermFault>
    decreases graph.size() - above.len(), 0nat,
{
    if above.contains(v) || above.len() >= graph.size() {
        Some(TermFault::Cyclic)
    } else {
        match best[v as int] {
            None => Some(TermFault::Missing),
            Some(e) => fault_among(
                graph,
                best,
                graph.children(e as int),
                graph.children(e as int).len(),
                above.push(v),
            ),
        }
    }
}

/// What the walk down from the first `n` of some classes meets first.
pub open spec fn fault_among(
    graph: &ClassGraph,
    best: Seq<Option<usize>>,
    kids: Seq<u32>,
    n: nat,
    above: Seq<u32>,
) -> Option<TermFault>
    decreases graph.size() - above.len(), n + 1,
{
    if n == 0 {
        None
    } else {
        match fault_among(graph, best, kids, (n - 1) as nat, above) {
            Some(f) => Some(f),
            None => fault(graph, best, kids[n - 1], above),
        }
    }
}

/// The chosen e-nodes from class `v` down make up a tree of height at most `height`.
pub open spec fn finite(
    graph: &ClassGraph,
    best: Seq<Option<usize>>,
    v: u32,
    height: nat,
) -> bool
    decreases height, 0nat,
{
    &&& height > 0
    &&& match best[v as int] {
        None => false,
        Some(e) => all_finite(
            graph,
            best,
            graph.children(e as int),
            graph.children(e as int).len(),
            (height - 1) as nat,
        ),
    }
}

/// The first `n` of some classes have trees of height at most `height`.
pub open spec fn all_finite(
    graph: &ClassGraph,
    best: Seq<Option<usize>>,
    kids: Seq<u32>,
    n: nat,
    height: nat,
) -> bool
    decreases height, n + 1,
{
    if n == 0 {
        true
    } else {
        all_finite(graph, best, kids, (n - 1) as nat, height) && finite(
            graph,
            best,
            kids[n - 1],
            height,
        )
    }
}

// ---------------------------------------------------------------------- lemmas

proof fn lemma_all_finite_at(
    graph: &ClassGraph,
    best: Seq<Option<usize>>,
    kids: Seq<u32>,
    n: nat,
    height: nat,
    j: int,
)
    requires
        all_finite(graph, best, kids, n, height),
        0 <= j < n,
    ensures
        finite(graph, best, kids[j], height),
    decreases n,
{
    if j < n - 1 {
        lemma_all_finite_at(graph, best, kids, (n - 1) as nat, height, j);
    }
}

/// A tree of some height is one of any greater height.
pub(crate) proof fn lemma_finite_higher(
    graph: &ClassGraph,
    best: Seq<Option<usize>>,
    v: u32,
    a: nat,
    b: nat,
)
    requires
        finite(graph, best, v, a),
        a <= b,
    ensures
        finite(graph, best, v, b),
    decreases a, 0nat,
{
    let ch = graph.children(best[v as int]->0 as int);
    lemma_all_finite_higher(graph, best, ch, ch.len(), (a - 1) as nat, (b - 1) as nat);
}

proof fn lemma_all_finite_higher(
    graph: &ClassGraph,
    best: Seq<Option<usize>>,
    kids: Seq<u32>,
    n: nat,
    a: nat,
    b: nat,
)
    requires
        all_finite(graph, best, kids, n, a),
        a <= b,
    ensures
        all_finite(graph, best, kids, n, b),
    decreases a, n + 1,
{
    if n > 0 {
        lemma_all_finite_higher(graph, best, kids, (n - 1) as nat, a, b);
        lemma_finite_higher(graph, best, kids[n - 1], a, b);
    }
}

proof fn lemma_term_higher(
    graph: &ClassGraph,
    best: Seq<Option<usize>>,
    eg: EGraph,
    terms: Seq<TermView>,
    v: u32,
    id: usize,
    a: nat,
    b: nat,
)
    requires
        best_term(graph, best, eg, terms, v, id, a),
        a <= b,
    ensures
        best_term(graph, best, eg, terms, v, id, b),
    decreases a, 0nat,
{
    let e = best[v as int]->0 as int;
    match terms[id as int] {
        TermView::App(head, ch) => {
            lemma_args_higher(
                graph,
                best,
                eg,
                terms,
                e,
                ch,
                ch.len(),
                (a - 1) as nat,
                (b - 1) as nat,
            );
        },
        _ => {},
    }
}

proof fn lemma_args_higher(
    graph: &ClassGraph,
    best: Seq<Option<usize>>,
    eg: EGraph,
    terms: Seq<TermView>,
    e: int,
    ch: Seq<usize>,
    n: nat,
    a: nat,
    b: nat,
)
    requires
        args_fit(graph, best, eg, terms, e, ch, n, a),
        a <= b,
    ensures
        args_fit(graph, best, eg, terms, e, ch, n, b),
    decreases a, n + 1,
{
    if n > 0 {
        let p = n - 1;
        let k = count_true(mask_of(graph, e).take(p)) as int;
        lemma_args_higher(graph, best, eg, terms, e, ch, p as nat, a, b);
        if mask_of(graph, e)[p] {
            lemma_term_higher(graph, best, eg, terms, graph.children(e)[k], ch[p], a, b);
        }
    }
}

/// A chosen term stays what it is when terms are added.
proof fn lemma_term_grows(
    graph: &ClassGraph,
    best: Seq<Option<usize>>,
    eg: EGraph,
    s: Seq<TermView>,
    t: Seq<TermView>,
    v: u32,
    id: usize,
    height: nat,
)
    requires
        grows(s, t),
        best_term(graph, best, eg, s, v, id, height),
    ensures
        best_term(graph, best, eg, t, v, id, height),
    decreases height, 0nat,
{
    assert(t[id as int] == s[id as int]);
    let e = best[v as int]->0 as int;
    match s[id as int] {
        TermView::App(head, ch) => {
            lemma_args_grow(graph, best, eg, s, t, e, ch, ch.len(), (height - 1) as nat);
        },
        _ => {},
    }
}

proof fn lemma_args_grow(
    graph: &ClassGraph,
    best: Seq<Option<usize>>,
    eg: EGraph,
    s: Seq<TermView>,
    t: Seq<TermView>,
    e: int,
    ch: Seq<usize>,
    n: nat,
    height: nat,
)
    requires
        grows(s, t),
        args_fit(graph, best, eg, s, e, ch, n, height),
    ensures
        args_fit(graph, best, eg, t, e, ch, n, height),
    decreases height, n + 1,
{
    if n > 0 {
        let p = n - 1;
        let k = count_true(mask_of(graph, e).take(p)) as int;
        lemma_args_grow(graph, best, eg, s, t, e, ch, p as nat, height);
        if mask_of(graph, e)[p] {
            lemma_term_grows(graph, best, eg, s, t, graph.children(e)[k], ch[p], height);
        } else {
            assert(t[ch[p] as int] == s[ch[p] as int]);
        }
    }
}

/// Marked positions, one position at a time.
pub(crate) proof fn lemma_count_take(mask: Seq<bool>, n: int)
    requires
        0 <= n < mask.len(),
    ensures
        count_true(mask.take(n + 1)) == count_true(mask.take(n)) + if mask[n] {
            1nat
        } else {
            0
        },
{
    assert(mask.take(n + 1).drop_last() =~= mask.take(n));
}

/// Marked positions between two positions.
pub(crate) proof fn lemma_count_grows(mask: Seq<bool>, n: int, m: int)
    requires
        0 <= n <= m <= mask.len(),
    ensures
        count_true(mask.take(n)) <= count_true(mask.take(m)) <= count_true(mask.take(n)) + (m - n),
    decreases m - n,
{
    if n < m {
        lemma_count_grows(mask, n, m - 1);
        lemma_count_take(mask, m - 1);
    }
}

/// The classes among the first `n` arguments of a chosen term have trees.
proof fn lemma_args_finite(
    graph: &ClassGraph,
    best: Seq<Option<usize>>,
    eg: EGraph,
    terms: Seq<TermView>,
    e: int,
    ch: Seq<usize>,
    n: nat,
    height: nat,
)
    requires
        well_shaped(graph),
        choices_ok(graph, best),
        0 <= e < graph.enodes@.len(),
        n <= mask_of(graph, e).len(),
        args_fit(graph, best, eg, terms, e, ch, n, height),
    ensures
        all_finite(
            graph,
            best,
            graph.children(e),
            count_true(mask_of(graph, e).take(n as int)),
            height,
        ),
    decreases height, n + 1,
{
    let mask = mask_of(graph, e);
    if n == 0 {
        assert(mask.take(0) =~= Seq::<bool>::empty());
    } else {
        let p = n - 1;
        let k = count_true(mask.take(p)) as int;
        lemma_args_finite(graph, best, eg, terms, e, ch, p as nat, height);
        lemma_count_take(mask, p);
        if mask[p] {
            lemma_count_grows(mask, p + 1, mask.len() as int);
            assert(mask.take(mask.len() as int) =~= mask);
            assert(graph.enodes@[e].func < graph.funcs@.len());
            assert(graph.enodes@[e].ch_eq@[k] < graph.size());
            lemma_term_finite(graph, best, eg, terms, graph.children(e)[k], ch[p], height);
        }
    }
}

/// A class with a chosen term has a tree.
pub(crate) proof fn lemma_term_finite(
    graph: &ClassGraph,
    best: Seq<Option<usize>>,
    eg: EGraph,
    terms: Seq<TermView>,
    v: u32,
    id: usize,
    height: nat,
)
    requires
        well_shaped(graph),
        choices_ok(graph, best),
        v < graph.size(),
        best_term(graph, best, eg, terms, v, id, height),
    ensures
        finite(graph, best, v, height),
    decreases height, 0nat,
{
    let e = best[v as int]->0 as int;
    match terms[id as int] {
        TermView::App(head, ch) => {
            let mask = mask_of(graph, e);
            lemma_args_finite(graph, best, eg, terms, e, ch, ch.len(), (height - 1) as nat);
            assert(mask.take(mask.len() as int) =~= mask);
            assert(graph.enodes@[e].func < graph.funcs@.len());
        },
        _ => {},
    }
}

/// The classes in `done` depend on classes in `done` only.
spec fn closed_below(graph: &ClassGraph, best: Seq<Option<usize>>, done: Set<u32>) -> bool {
    forall|v: u32, j: int|
        #![trigger done.contains(v), graph.children(best[v as int]->0 as int)[j]]
        done.contains(v) && v < graph.size() && best[v as int] is Some && 0 <= j < graph.children(
            best[v as int]->0 as int,
        ).len() ==> done.contains(graph.children(best[v as int]->0 as int)[j])
}

/// The way down to a class: distinct classes of the graph.
pub open spec fn path_ok(graph: &ClassGraph, above: Seq<u32>) -> bool {
    above.no_duplicates() && forall|i: int| 0 <= i < above.len() ==> #[trigger] above[i]
        < graph.size()
}

/// A way that does not hold class `v` is shorter than the number of classes.
pub(crate) proof fn lemma_path_short(graph: &ClassGraph, above: Seq<u32>, v: u32)
    requires
        path_ok(graph, above),
        v < graph.size(),
        !above.contains(v),
    ensures
        above.len() < graph.size(),
        path_ok(graph, above.push(v)),
{
    let s = above.push(v);
    assert forall|i: int| 0 <= i < s.len() implies #[trigger] s[i] < graph.size() by {
        if i < above.len() {
            assert(s[i] == above[i]);
        }
    }
    assert forall|i: int, j: int| 0 <= i < s.len() && 0 <= j < s.len() && i != j implies s[i]
        != s[j] by {
        if i < above.len() {
            assert(above.contains(above[i]));
        }
        if j < above.len() {
            assert(above.contains(above[j]));
        }
    }
    lemma_distinct_bound(s, graph.size());
}

/// Nothing is met below a class that has a tree, if no class above it belongs to the tree.
proof fn lemma_no_fault(
    graph: &ClassGraph,
    best: Seq<Option<usize>>,
    done: Set<u32>,
    v: u32,
    height: nat,
    above: Seq<u32>,
)
    requires
        graph.wf(),
        choices_ok(graph, best),
        closed_below(graph, best, done),
        done.contains(v),
        v < graph.size(),
        finite(graph, best, v, height),
        path_ok(graph, above),
        forall|i: int|
            0 <= i < above.len() ==> !done.contains(#[trigger] above[i]) || !finite(
                graph,
                best,
                above[i],
                height,
            ),
    ensures
        fault(graph, best, v, above) is None,
    decreases height, 0nat,
{
    if finite(graph, best, v, (height - 1) as nat) {
        assert forall|i: int| 0 <= i < above.len() implies !done.contains(#[trigger] above[i])
            || !finite(graph, best, above[i], (height - 1) as nat) by {
            if finite(graph, best, above[i], (height - 1) as nat) {
                lemma_finite_higher(graph, best, above[i], (height - 1) as nat, height);
            }
        }
        lemma_no_fault(graph, best, done, v, (height - 1) as nat, above);
    } else {
        if above.contains(v) {
            let i = choose|i: int| 0 <= i < above.len() && above[i] == v;
            assert(done.contains(above[i]));
        }
        lemma_path_short(graph, above, v);
        let e = best[v as int]->0;
        let kids = graph.children(e as int);
        let next = above.push(v);
        assert forall|i: int| 0 <= i < next.len() implies !done.contains(#[trigger] next[i])
            || !finite(graph, best, next[i], (height - 1) as nat) by {
            if i < above.len() {
                assert(next[i] == above[i]);
                if finite(graph, best, above[i], (height - 1) as nat) {
                    lemma_finite_higher(graph, best, above[i], (height - 1) as nat, height);
                }
            }
        }
        assert forall|j: int| 0 <= j < kids.len() implies done.contains(#[trigger] kids[j])
            && kids[j] < graph.size() by {
            assert(done.contains(graph.children(best[v as int]->0 as int)[j]));
            assert(graph.enodes@[e as int].ch_eq@[j] < graph.size());
        }
        lemma_no_fault_among(
            graph,
            best,
            done,
            kids,
            kids.len(),
            (height - 1) as nat,
            next,
        );
    }
}

proof fn lemma_no_fault_among(
    graph: &ClassGraph,
    best: Seq<Option<usize>>,
    done: Set<u32>,
    kids: Seq<u32>,
    n: nat,
    height: nat,
    above: Seq<u32>,
)
    requires
        graph.wf(),
        choices_ok(graph, best),
        closed_below(graph, best, done),
        n <= kids.len(),
        forall|j: int|
            0 <= j < kids.len() ==> done.contains(#[trigger] kids[j]) && kids[j] < graph.size(),
        all_finite(graph, best, kids, n, height),
        path_ok(graph, above),
        forall|i: int|
            0 <= i < above.len() ==> !done.contains(#[trigger] above[i]) || !finite(
                graph,
                best,
                above[i],
                height,
            ),
    ensures
        fault_among(graph, best, kids, n, above) is None,
    decreases height, n + 1,
{
    if n > 0 {
        lemma_no_fault_among(graph, best, done, kids, (n - 1) as nat, height, above);
        assert(done.contains(kids[n - 1]));
        lemma_no_fault(graph, best, done, kids[n - 1], height, above);
    }
}

/// A class below which nothing is met has a tree.
pub(crate) proof fn lemma_fault_free(
    graph: &ClassGraph,
    best: Seq<Option<usize>>,
    v: u32,
    above: Seq<u32>,
)
    requires
        fault(graph, best, v, above) is None,
    ensures
        above.len() < graph.size(),
        finite(graph, best, v, (graph.size() - above.len()) as nat),
    decreases graph.size() - above.len(), 0nat,
{
    let kids = graph.children(best[v as int]->0 as int);
    lemma_fault_free_among(graph, best, kids, kids.len(), above.push(v));
}

proof fn lemma_fault_free_among(
    graph: &ClassGraph,
    best: Seq<Option<usize>>,
    kids: Seq<u32>,
    n: nat,
    above: Seq<u32>,
)
    requires
        fault_among(graph, best, kids, n, above) is None,
        above.len() <= graph.size(),
    ensures
        all_finite(graph, best, kids, n, (graph.size() - above.len()) as nat),
    decreases graph.size() - above.len(), n + 1,
{
    if n > 0 {
        lemma_fault_free_among(graph, best, kids, (n - 1) as nat, above);
        lemma_fault_free(graph, best, kids[n - 1], above);
    }
}

/// The walk down from a class meets nothing exactly if the chosen e-nodes make up a tree.
pub proof fn no_fault_iff_finite(graph: &ClassGraph, best: Seq<Option<usize>>, v: u32)
    requires
        graph.wf(),
        choices_ok(graph, best),
        v < graph.size(),
    ensures
        fault(graph, best, v, Seq::empty()) is None <==> exists|height: nat| #[trigger]
            finite(graph, best, v, height),
{
    if fault(graph, best, v, Seq::empty()) is None {
        lemma_fault_free(graph, best, v, Seq::empty());
    }
    if exists|height: nat| #[trigger] finite(graph, best, v, height) {
        let height = choose|height: nat| #[trigger] finite(graph, best, v, height);
        lemma_no_fault(graph, best, Set::full(), v, height, Seq::empty());
    }
}

// ------------------------------------------------------------------ stack machine

/// Argument `p` of a term of e-node `e`: at a class the term remembered for it, elsewhere the
/// string of the primitive there.
pub open spec fn arg_linked(
    graph: &ClassGraph,
    eg: EGraph,
    terms: Seq<TermView>,
    memo: Map<u32, usize>,
    e: int,
    ch: Seq<usize>,
    p: int,
) -> bool {
    let k = count_true(mask_of(graph, e).take(p)) as int;
    if mask_of(graph, e)[p] {
        ch[p] == memo[graph.children(e)[k]]
    } else {
        &&& ch[p] < terms.len()
        &&& terms[ch[p] as int] == TermView::Text(
            strings_of(eg)[graph.enodes@[e].ch_prim@[p - k].1],
        )
    }
}

/// The term remembered for class `v` is the constructor of its chosen e-node over the terms
/// remembered for its children and the strings of its primitives, in order.
pub open spec fn linked(
    graph: &ClassGraph,
    best: Seq<Option<usize>>,
    eg: EGraph,
    terms: Seq<TermView>,
    memo: Map<u32, usize>,
    v: u32,
) -> bool {
    &&& memo[v] < terms.len()
    &&& match best[v as int] {
        None => false,
        Some(e) => match terms[memo[v] as int] {
            TermView::App(head, ch) => {
                &&& head == graph.funcs@[graph.enodes@[e as int].func as int].term_name@
                &&& ch.len() == mask_of(graph, e as int).len()
                &&& forall|p: int|
                    0 <= p < ch.len() ==> #[trigger] arg_linked(
                        graph,
                        eg,
                        terms,
                        memo,
                        e as int,
                        ch,
                        p,
                    )
            },
            _ => false,
        },
    }
}

/// The terms that are known: chosen terms of classes whose children are known too.
pub open spec fn memo_ok(
    graph: &ClassGraph,
    best: Seq<Option<usize>>,
    eg: EGraph,
    terms: Seq<TermView>,
    memo: Map<u32, usize>,
) -> bool {
    &&& forall|v: u32| #[trigger]
        memo.dom().contains(v) ==> v < graph.size() && is_best_term(
            graph,
            best,
            eg,
            terms,
            v,
            memo[v],
        ) && linked(graph, best, eg, terms, memo, v)
    &&& forall|v: u32, j: int|
        #![trigger memo.dom().contains(v), graph.children(best[v as int]->0 as int)[j]]
        memo.dom().contains(v) && 0 <= j < graph.children(best[v as int]->0 as int).len()
            ==> memo.dom().contains(graph.children(best[v as int]->0 as int)[j])
}

/// Term `i` is a chosen term, or a string of the graph.
pub open spec fn belongs(
    graph: &ClassGraph,
    best: Seq<Option<usize>>,
    eg: EGraph,
    terms: Seq<TermView>,
    i: int,
) -> bool {
    ||| exists|e: int, j: int|
        0 <= e < graph.enodes@.len() && 0 <= j < graph.enodes@[e].ch_prim@.len() && terms[i]
            == TermView::Text(strings_of(eg)[(#[trigger] graph.enodes@[e].ch_prim@[j]).1])
    ||| exists|v: u32| #[trigger] is_best_term(graph, best, eg, terms, v, i as usize)
}

/// The terms only grow, by chosen terms and strings of the graph.
pub open spec fn extends(
    graph: &ClassGraph,
    best: Seq<Option<usize>>,
    eg: EGraph,
    s: Seq<TermView>,
    t: Seq<TermView>,
) -> bool {
    &&& grows(s, t)
    &&& forall|i: int| s.len() <= i < t.len() ==> #[trigger] belongs(graph, best, eg, t, i)
}

/// The memo only grows.
pub open spec fn remembers(a: Map<u32, usize>, b: Map<u32, usize>) -> bool {
    forall|v: u32| #[trigger] a.dom().contains(v) ==> b.dom().contains(v) && b[v] == a[v]
}

/// A step that is still to be taken.
#[derive(Debug)]
enum Frame {
    /// Rebuild the term of the class.
    Enter(u32),
    /// Apply the chosen e-node of the class to the terms of its children and the given
    /// strings.
    Build(u32, Vec<usize>),
}

spec fn class_in(f: Frame) -> u32 {
    match f {
        Frame::Enter(v) => v,
        Frame::Build(v, _) => v,
    }
}

/// The classes that are being built, the outermost first.
spec fn open_classes(frames: Seq<Frame>) -> Seq<u32>
    decreases frames.len(),
{
    if frames.len() == 0 {
        Seq::empty()
    } else {
        match frames.last() {
            Frame::Enter(_) => open_classes(frames.drop_last()),
            Frame::Build(v, _) => open_classes(frames.drop_last()).push(v),
        }
    }
}

/// What the steps that are left meet first.
spec fn first_fault(
    graph: &ClassGraph,
    best: Seq<Option<usize>>,
    frames: Seq<Frame>,
) -> Option<TermFault>
    decreases frames.len(),
{
    if frames.len() == 0 {
        None
    } else {
        let rest = frames.drop_last();
        match frames.last() {
            Frame::Enter(v) => match fault(graph, best, v, open_classes(rest)) {
                Some(f) => Some(f),
                None => first_fault(graph, best, rest),
            },
            Frame::Build(_, _) => first_fault(graph, best, rest),
        }
    }
}

/// Class `c` is at work above step `k`.
spec fn pending(frames: Seq<Frame>, k: int, c: u32) -> bool {
    exists|i: int| k < i < frames.len() && class_in(#[trigger] frames[i]) == c
}

/// The strings of e-node `e`.
spec fn texts_fit(
    graph: &ClassGraph,
    eg: EGraph,
    terms: Seq<TermView>,
    e: int,
    texts: Seq<usize>,
    n: nat,
) -> bool {
    forall|j: int|
        0 <= j < n ==> (#[trigger] texts[j]) < terms.len() && terms[texts[j] as int]
            == TermView::Text(strings_of(eg)[graph.enodes@[e].ch_prim@[j].1])
}

spec fn frame_ok(
    graph: &ClassGraph,
    best: Seq<Option<usize>>,
    eg: EGraph,
    terms: Seq<TermView>,
    f: Frame,
) -> bool {
    &&& class_in(f) < graph.size()
    &&& match f {
        Frame::Enter(_) => true,
        Frame::Build(v, texts) => {
            &&& best[v as int] matches Some(e)
            &&& texts@.len() == graph.enodes@[e as int].ch_prim@.len()
            &&& texts_fit(graph, eg, terms, e as int, texts@, texts@.len())
        },
    }
}

/// The children of every class that is being built are known or at work above it.
spec fn kids_at_work(
    graph: &ClassGraph,
    best: Seq<Option<usize>>,
    memo: Map<u32, usize>,
    frames: Seq<Frame>,
    k: int,
) -> bool {
    match frames[k] {
        Frame::Enter(_) => true,
        Frame::Build(v, _) => {
            let kids = graph.children(best[v as int]->0 as int);
            forall|j: int|
                0 <= j < kids.len() ==> memo.dom().contains(#[trigger] kids[j]) || pending(
                    frames,
                    k,
                    kids[j],
                )
        },
    }
}

/// What holds at every step.
spec fn steps_ok(
    graph: &ClassGraph,
    best: Seq<Option<usize>>,
    eg: EGraph,
    terms: Seq<TermView>,
    memo: Map<u32, usize>,
    frames: Seq<Frame>,
    opened: Seq<bool>,
    v: u32,
) -> bool {
    let above = open_classes(frames);
    &&& memo_ok(graph, best, eg, terms, memo)
    &&& opened.len() == graph.size()
    &&& path_ok(graph, above)
    &&& forall|x: u32|
        x < graph.size() ==> (#[trigger] above.contains(x) <==> opened[x as int]
            && !memo.dom().contains(x))
    &&& forall|k: int|
        0 <= k < frames.len() ==> frame_ok(graph, best, eg, terms, #[trigger] frames[k])
    &&& forall|k: int|
        0 <= k < frames.len() ==> #[trigger] kids_at_work(graph, best, memo, frames, k)
    &&& frames.len() > 0 ==> class_in(frames[0]) == v
    &&& frames.len() == 0 ==> memo.dom().contains(v)
    &&& first_fault(graph, best, frames) == fault(graph, best, v, Seq::empty())
}

proof fn lemma_is_term_grows(
    graph: &ClassGraph,
    best: Seq<Option<usize>>,
    eg: EGraph,
    s: Seq<TermView>,
    t: Seq<TermView>,
    v: u32,
    id: usize,
)
    requires
        grows(s, t),
        is_best_term(graph, best, eg, s, v, id),
    ensures
        is_best_term(graph, best, eg, t, v, id),
{
    let h = choose|h: nat| #[trigger] best_term(graph, best, eg, s, v, id, h);
    lemma_term_grows(graph, best, eg, s, t, v, id, h);
}

proof fn lemma_memo_grows(
    graph: &ClassGraph,
    best: Seq<Option<usize>>,
    eg: EGraph,
    s: Seq<TermView>,
    t: Seq<TermView>,
    memo: Map<u32, usize>,
)
    requires
        grows(s, t),
        memo_ok(graph, best, eg, s, memo),
    ensures
        memo_ok(graph, best, eg, t, memo),
{
    assert forall|v: u32| #[trigger] memo.dom().contains(v) implies v < graph.size()
        && is_best_term(graph, best, eg, t, v, memo[v]) && linked(
        graph,
        best,
        eg,
        t,
        memo,
        v,
    ) by {
        lemma_is_term_grows(graph, best, eg, s, t, v, memo[v]);
        lemma_linked_grows(graph, best, eg, s, t, memo, v);
    }
}

proof fn lemma_linked_grows(
    graph: &ClassGraph,
    best: Seq<Option<usize>>,
    eg: EGraph,
    s: Seq<TermView>,
    t: Seq<TermView>,
    memo: Map<u32, usize>,
    v: u32,
)
    requires
        grows(s, t),
        linked(graph, best, eg, s, memo, v),
    ensures
        linked(graph, best, eg, t, memo, v),
{
    assert(t[memo[v] as int] == s[memo[v] as int]);
    let e = best[v as int]->0 as int;
    match s[memo[v] as int] {
        TermView::App(head, ch) => {
            assert forall|p: int| 0 <= p < ch.len() implies #[trigger] arg_linked(
                graph,
                eg,
                t,
                memo,
                e,
                ch,
                p,
            ) by {
                assert(arg_linked(graph, eg, s, memo, e, ch, p));
                if !mask_of(graph, e)[p] {
                    assert(t[ch[p] as int] == s[ch[p] as int]);
                }
            }
        },
        _ => {},
    }
}

/// A term stays linked when one more class is known.
proof fn lemma_linked_insert(
    graph: &ClassGraph,
    best: Seq<Option<usize>>,
    eg: EGraph,
    terms: Seq<TermView>,
    memo: Map<u32, usize>,
    w: u32,
    id: usize,
    v: u32,
)
    requires
        well_shaped(graph),
        choices_ok(graph, best),
        memo_ok(graph, best, eg, terms, memo),
        !memo.dom().contains(w),
        memo.dom().contains(v),
    ensures
        linked(graph, best, eg, terms, memo.insert(w, id), v),
{
    let next = memo.insert(w, id);
    let e = best[v as int]->0 as int;
    assert(linked(graph, best, eg, terms, memo, v));
    match terms[memo[v] as int] {
        TermView::App(head, ch) => {
            assert forall|p: int| 0 <= p < ch.len() implies #[trigger] arg_linked(
                graph,
                eg,
                terms,
                next,
                e,
                ch,
                p,
            ) by {
                assert(arg_linked(graph, eg, terms, memo, e, ch, p));
                if mask_of(graph, e)[p] {
                    let k = count_true(mask_of(graph, e).take(p)) as int;
                    lemma_class_position(graph, e, p);
                    assert(memo.dom().contains(graph.children(best[v as int]->0 as int)[k]));
                }
            }
        },
        _ => {},
    }
}

/// A marked position has a class, another one a primitive.
proof fn lemma_class_position(graph: &ClassGraph, e: int, p: int)
    requires
        well_shaped(graph),
        0 <= e < graph.enodes@.len(),
        0 <= p < mask_of(graph, e).len(),
    ensures
        ({
            let k = count_true(mask_of(graph, e).take(p)) as int;
            &&& 0 <= k <= p
            &&& mask_of(graph, e)[p] ==> k < graph.children(e).len()
            &&& !mask_of(graph, e)[p] ==> p - k < graph.enodes@[e].ch_prim@.len()
        }),
{
    let mask = mask_of(graph, e);
    lemma_count_take(mask, p);
    lemma_count_grows(mask, p + 1, mask.len() as int);
    lemma_count_grows(mask, 0, p);
    assert(mask.take(0) =~= Seq::<bool>::empty());
    assert(mask.take(mask.len() as int) =~= mask);
    assert(graph.enodes@[e].func < graph.funcs@.len());
}

proof fn lemma_extends_trans(
    graph: &ClassGraph,
    best: Seq<Option<usize>>,
    eg: EGraph,
    r: Seq<TermView>,
    s: Seq<TermView>,
    t: Seq<TermView>,
)
    requires
        extends(graph, best, eg, r, s),
        extends(graph, best, eg, s, t),
    ensures
        extends(graph, best, eg, r, t),
{
    assert forall|i: int| 0 <= i < r.len() implies #[trigger] t[i] == r[i] by {
        assert(s[i] == r[i]);
    }
    assert forall|i: int| r.len() <= i < t.len() implies #[trigger] belongs(
        graph,
        best,
        eg,
        t,
        i,
    ) by {
        if i < s.len() {
            assert(belongs(graph, best, eg, s, i));
            assert(t[i] == s[i]);
            if exists|v: u32| #[trigger] is_best_term(graph, best, eg, s, v, i as usize) {
                let v = choose|v: u32| #[trigger] is_best_term(graph, best, eg, s, v, i as usize);
                lemma_is_term_grows(graph, best, eg, s, t, v, i as usize);
            } else {
                let (e, j) = choose|e: int, j: int|
                    0 <= e < graph.enodes@.len() && 0 <= j < graph.enodes@[e].ch_prim@.len() && s[i]
                        == TermView::Text(
                        strings_of(eg)[(#[trigger] graph.enodes@[e].ch_prim@[j]).1],
                    );
                assert(t[i] == TermView::Text(strings_of(eg)[graph.enodes@[e].ch_prim@[j].1]));
            }
        }
    }
}

/// Adding terms keeps what holds at every step.
proof fn lemma_steps_grow(
    graph: &ClassGraph,
    best: Seq<Option<usize>>,
    eg: EGraph,
    s: Seq<TermView>,
    t: Seq<TermView>,
    memo: Map<u32, usize>,
    frames: Seq<Frame>,
    opened: Seq<bool>,
    v: u32,
)
    requires
        grows(s, t),
        steps_ok(graph, best, eg, s, memo, frames, opened, v),
    ensures
        steps_ok(graph, best, eg, t, memo, frames, opened, v),
{
    lemma_memo_grows(graph, best, eg, s, t, memo);
    assert forall|k: int| 0 <= k < frames.len() implies frame_ok(
        graph,
        best,
        eg,
        t,
        #[trigger] frames[k],
    ) by {
        assert(frame_ok(graph, best, eg, s, frames[k]));
        match frames[k] {
            Frame::Enter(_) => {},
            Frame::Build(v, texts) => {
                let e = best[v as int]->0 as int;
                assert forall|j: int| 0 <= j < texts@.len() implies (#[trigger] texts@[j]) < t.len()
                    && t[texts@[j] as int] == TermView::Text(
                    strings_of(eg)[graph.enodes@[e].ch_prim@[j].1],
                ) by {
                    assert(t[texts@[j] as int] == s[texts@[j] as int]);
                }
            },
        }
    }
}

/// The last step is done with: its class is known now.
proof fn lemma_steps_pop(
    graph: &ClassGraph,
    best: Seq<Option<usize>>,
    memo: Map<u32, usize>,
    next: Map<u32, usize>,
    frames: Seq<Frame>,
)
    requires
        frames.len() > 0,
        remembers(memo, next),
        next.dom().contains(class_in(frames.last())),
        forall|k: int|
            0 <= k < frames.len() ==> #[trigger] kids_at_work(graph, best, memo, frames, k),
    ensures
        forall|k: int|
            0 <= k < frames.len() - 1 ==> #[trigger] kids_at_work(
                graph,
                best,
                next,
                frames.drop_last(),
                k,
            ),
{
    let rest = frames.drop_last();
    assert forall|k: int| 0 <= k < frames.len() - 1 implies #[trigger] kids_at_work(
        graph,
        best,
        next,
        rest,
        k,
    ) by {
        assert(kids_at_work(graph, best, memo, frames, k));
        assert(rest[k] == frames[k]);
        match frames[k] {
            Frame::Enter(_) => {},
            Frame::Build(v, _) => {
                let kids = graph.children(best[v as int]->0 as int);
                assert forall|j: int| 0 <= j < kids.len() implies next.dom().contains(
                    #[trigger] kids[j],
                ) || pending(rest, k, kids[j]) by {
                    if memo.dom().contains(kids[j]) {
                        assert(next.dom().contains(kids[j]));
                    } else {
                        let i = choose|i: int|
                            k < i < frames.len() && class_in(#[trigger] frames[i]) == kids[j];
                        if i < rest.len() {
                            assert(class_in(rest[i]) == kids[j]);
                        }
                    }
                }
            },
        }
    }
}

/// The terms of the arguments of e-node `e`: of the classes from the memo, of the
/// primitives from the given strings.
spec fn arg_at(
    graph: &ClassGraph,
    memo: Map<u32, usize>,
    e: int,
    texts: Seq<usize>,
    p: int,
) -> usize {
    let k = count_true(mask_of(graph, e).take(p)) as int;
    if mask_of(graph, e)[p] {
        memo[graph.children(e)[k]]
    } else {
        texts[p - k]
    }
}

/// The collected arguments fit.
proof fn lemma_args_built(
    graph: &ClassGraph,
    best: Seq<Option<usize>>,
    eg: EGraph,
    terms: Seq<TermView>,
    memo: Map<u32, usize>,
    e: int,
    texts: Seq<usize>,
    ch: Seq<usize>,
    n: nat,
) -> (height: nat)
    requires
        well_shaped(graph),
        0 <= e < graph.enodes@.len(),
        memo_ok(graph, best, eg, terms, memo),
        forall|j: int|
            0 <= j < graph.children(e).len() ==> memo.dom().contains(
                #[trigger] graph.children(e)[j],
            ),
        texts.len() == graph.enodes@[e].ch_prim@.len(),
        texts_fit(graph, eg, terms, e, texts, texts.len()),
        n <= ch.len() == mask_of(graph, e).len(),
        forall|p: int|
            0 <= p < ch.len() ==> #[trigger] ch[p] == arg_at(graph, memo, e, texts, p),
    ensures
        args_fit(graph, best, eg, terms, e, ch, n, height),
        forall|p: int| 0 <= p < n ==> #[trigger] ch[p] < terms.len(),
    decreases n,
{
    if n == 0 {
        0
    } else {
        let mask = mask_of(graph, e);
        let p = n - 1;
        let k = count_true(mask.take(p)) as int;
        let a = lemma_args_built(graph, best, eg, terms, memo, e, texts, ch, p as nat);
        lemma_count_take(mask, p);
        lemma_count_grows(mask, p + 1, mask.len() as int);
        lemma_count_grows(mask, 0, p);
        assert(mask.take(0) =~= Seq::<bool>::empty());
        assert(mask.take(mask.len() as int) =~= mask);
        assert(graph.enodes@[e].func < graph.funcs@.len());
        assert(ch[p] == arg_at(graph, memo, e, texts, p));
        if mask[p] {
            let c = graph.children(e)[k];
            assert(memo.dom().contains(c));
            let b = choose|h: nat| #[trigger] best_term(graph, best, eg, terms, c, memo[c], h);
            let h = if a < b {
                b
            } else {
                a
            };
            lemma_args_higher(graph, best, eg, terms, e, ch, p as nat, a, h);
            lemma_term_higher(graph, best, eg, terms, c, memo[c], b, h);
            h
        } else {
            assert(texts[p - k] < terms.len());
            a
        }
    }
}

/// The outcome of rebuilding the chosen term of class `v`.
pub open spec fn rebuilds(
    graph: &ClassGraph,
    best: Seq<Option<usize>>,
    eg: EGraph,
    v: u32,
    memo: Map<u32, usize>,
    next: Map<u32, usize>,
    s: Seq<TermView>,
    t: Seq<TermView>,
    r: Result<usize, TermFault>,
) -> bool {
    &&& extends(graph, best, eg, s, t)
    &&& remembers(memo, next)
    &&& memo_ok(graph, best, eg, t, next)
    &&& memo.dom().contains(v) ==> next == memo && t == s
    &&& match fault(graph, best, v, Seq::empty()) {
        Some(f) => r == Err::<usize, TermFault>(f),
        None => {
            &&& r matches Ok(id)
            &&& is_best_term(graph, best, eg, t, v, id)
            &&& next.dom().contains(v)
            &&& next[v] == id
            &&& linked(graph, best, eg, t, next, v)
        },
    }
}

spec fn unopened(opened: Seq<bool>) -> spec_fn(int) -> bool {
    |x: int| !opened[x]
}

/// What the reconstruction reads.
struct Rebuild<'a> {
    graph: &'a ClassGraph,
    best: &'a Vec<Option<usize>>,
    eg: &'a EGraph,
}

impl Rebuild<'_> {
    spec fn ok(&self) -> bool {
        &&& well_shaped(self.graph)
        &&& choices_ok(self.graph, self.best@)
        &&& texts_known(*self.eg, self.graph.enodes@)
    }

    /// Adds the strings of e-node `e`.
    fn add_texts(&self, dag: &mut TermDag, e: usize) -> (texts: Vec<usize>)
        requires
            self.ok(),
            e < self.graph.enodes@.len(),
        ensures
            extends(
                self.graph,
                self.best@,
                *self.eg,
                terms_of(*old(dag)),
                terms_of(*final(dag)),
            ),
            texts@.len() == self.graph.enodes@[e as int].ch_prim@.len(),
            texts_fit(
                self.graph,
                *self.eg,
                terms_of(*final(dag)),
                e as int,
                texts@,
                texts@.len(),
            ),
    {
        let prims: &Vec<(u32, u32)> = &self.graph.enodes[e].ch_prim;
        let ghost first = terms_of(*dag);
        let mut texts: Vec<usize> = Vec::new();
        while texts.len() < prims.len()
            invariant
                self.ok(),
                e < self.graph.enodes@.len(),
                *prims == self.graph.enodes@[e as int].ch_prim,
                texts@.len() <= prims@.len(),
                extends(self.graph, self.best@, *self.eg, first, terms_of(*dag)),
                texts_fit(
                    self.graph,
                    *self.eg,
                    terms_of(*dag),
                    e as int,
                    texts@,
                    texts@.len(),
                ),
            decreases prims@.len() - texts@.len(),
        {
            let ghost s = terms_of(*dag);
            let ghost texts0 = texts@;
            let j: usize = texts.len();
            assert(strings_of(*self.eg).dom().contains(
                self.graph.enodes@[e as int].ch_prim@[j as int].1,
            ));
            let text: String = string_value(self.eg, prims[j].1);
            let ghost view = TermView::Text(text@);
            let id: usize = add_text(dag, text);
            texts.push(id);
            proof {
                let t = terms_of(*dag);
                lemma_added_grows(s, t, view, id);
                assert forall|i: int| s.len() <= i < t.len() implies #[trigger] belongs(
                    self.graph,
                    self.best@,
                    *self.eg,
                    t,
                    i,
                ) by {
                    assert(t[i] == TermView::Text(
                        strings_of(*self.eg)[self.graph.enodes@[e as int].ch_prim@[j as int].1],
                    ));
                }
                lemma_extends_trans(self.graph, self.best@, *self.eg, first, s, t);
                assert forall|i: int| 0 <= i < texts@.len() implies (#[trigger] texts@[i])
                    < t.len() && t[texts@[i] as int] == TermView::Text(
                    strings_of(*self.eg)[self.graph.enodes@[e as int].ch_prim@[i].1],
                ) by {
                    if i < j {
                        assert(texts@[i] == texts0[i]);
                        assert(t[texts0[i] as int] == s[texts0[i] as int]);
                    }
                }
            }
        }
        texts
    }

    /// Collects the arguments of e-node `e`.
    fn collect(&self, memo: &HashMap<u32, usize>, e: usize, texts: &Vec<usize>) -> (ch: Vec<usize>)
        requires
            self.ok(),
            e < self.graph.enodes@.len(),
            forall|j: int|
                0 <= j < self.graph.children(e as int).len() ==> memo@.dom().contains(
                    #[trigger] self.graph.children(e as int)[j],
                ),
            texts@.len() == self.graph.enodes@[e as int].ch_prim@.len(),
        ensures
            ch@.len() == mask_of(self.graph, e as int).len(),
            forall|p: int|
                0 <= p < ch@.len() ==> #[trigger] ch@[p] == arg_at(
                    self.graph,
                    memo@,
                    e as int,
                    texts@,
                    p,
                ),
    {
        broadcast use group_hash_axioms;

        let kids: &Vec<u32> = &self.graph.enodes[e].ch_eq;
        assert(self.graph.enodes@[e as int].func < self.graph.funcs@.len());
        let mask: &Vec<bool> = &self.graph.funcs[self.graph.enodes[e].func].eq_mask;
        let mut ch: Vec<usize> = Vec::new();
        let mut k: usize = 0;
        assert(mask@.take(0) =~= Seq::<bool>::empty());
        while ch.len() < mask.len()
            invariant
                self.ok(),
                e < self.graph.enodes@.len(),
                mask@ == mask_of(self.graph, e as int),
                kids@ == self.graph.children(e as int),
                kids@.len() == count_true(mask@),
                texts@.len() == mask@.len() - kids@.len(),
                forall|j: int|
                    0 <= j < kids@.len() ==> memo@.dom().contains(#[trigger] kids@[j]),
                ch@.len() <= mask@.len(),
                k == count_true(mask@.take(ch@.len() as int)),
                k <= ch@.len(),
                forall|p: int|
                    0 <= p < ch@.len() ==> #[trigger] ch@[p] == arg_at(
                        self.graph,
                        memo@,
                        e as int,
                        texts@,
                        p,
                    ),
            decreases mask@.len() - ch@.len(),
        {
            let p: usize = ch.len();
            proof {
                lemma_count_take(mask@, p as int);
                lemma_count_grows(mask@, p + 1, mask@.len() as int);
                assert(mask@.take(mask@.len() as int) =~= mask@);
            }
            if mask[p] {
                let c: u32 = kids[k];
                assert(memo@.dom().contains(kids@[k as int]));
                let id: usize = match memo.get(&c) {
                    Some(t) => *t,
                    None => 0,
                };
                ch.push(id);
                k = k + 1;
            } else {
                ch.push(texts[p - k]);
            }
        }
        ch
    }

    /// Rebuilds the chosen term of class `v`, and remembers the terms of all classes that it
    /// is made of.
    fn run(&self, dag: &mut TermDag, memo: &mut HashMap<u32, usize>, v: u32) -> (r: Result<
        usize,
        TermFault,
    >)
        requires
            self.ok(),
            v < self.graph.size(),
            memo_ok(self.graph, self.best@, *self.eg, terms_of(*old(dag)), old(memo)@),
        ensures
            rebuilds(
                self.graph,
                self.best@,
                *self.eg,
                v,
                old(memo)@,
                final(memo)@,
                terms_of(*old(dag)),
                terms_of(*final(dag)),
                r,
            ),
    {
        broadcast use group_hash_axioms;

        let ghost graph = self.graph;
        let ghost best = self.best@;
        let ghost eg = *self.eg;
        let ghost first = terms_of(*dag);
        let ghost memo0 = memo@;
        let n: usize = self.graph.classes.len();
        let mut opened: Vec<bool> = Vec::new();
        while opened.len() < n
            invariant
                opened@.len() <= n,
                forall|x: int| 0 <= x < opened@.len() ==> !(#[trigger] opened@[x]),
            decreases n - opened@.len(),
        {
            opened.push(false);
        }
        let mut stack: Vec<Frame> = Vec::new();
        stack.push(Frame::Enter(v));
        proof {
            let frames = stack@;
            assert(frames.drop_last() =~= Seq::<Frame>::empty());
            assert(open_classes(Seq::<Frame>::empty()) =~= Seq::<u32>::empty());
            assert(first_fault(graph, best, Seq::<Frame>::empty()) is None);
            assert(steps_ok(graph, best, eg, first, memo@, frames, opened@, v));
        }
        while stack.len() > 0
            invariant
                self.ok(),
                graph == self.graph,
                best == self.best@,
                eg == *self.eg,
                n == graph.size(),
                v < graph.size(),
                first == terms_of(*old(dag)),
                memo0 == old(memo)@,
                extends(graph, best, eg, first, terms_of(*dag)),
                remembers(memo0, memo@),
                memo0.dom().contains(v) ==> memo@ == memo0 && terms_of(*dag) == first && (
                stack@.len() > 0 ==> stack@ == seq![Frame::Enter(v)]),
                steps_ok(graph, best, eg, terms_of(*dag), memo@, stack@, opened@, v),
            decreases count(n as nat, unopened(opened@)), stack@.len(),
        {
            let ghost frames = stack@;
            let ghost rest = stack@.drop_last();
            let ghost s = terms_of(*dag);
            let ghost m0 = memo@;
            assert(frame_ok(graph, best, eg, s, frames[frames.len() - 1]));
            match stack.pop() {
                None => {},
                Some(Frame::Enter(w)) => {
                    assert(stack@ =~= rest);
                    let known: bool = memo.contains_key(&w);
                    if known {
                        proof {
                            lemma_enter_known(graph, best, eg, s, m0, frames, opened@, v);
                        }
                    } else {
                        if opened[w as usize] {
                            assert(open_classes(frames).contains(w));
                            return Err(TermFault::Cyclic);
                        }
                        let e: usize = match self.best[w as usize] {
                            Some(e) => e,
                            None => {
                                proof {
                                    assert(!open_classes(frames).contains(w));
                                    lemma_path_short(graph, open_classes(rest), w);
                                }
                                return Err(TermFault::Missing);
                            },
                        };
                        let texts: Vec<usize> = self.add_texts(dag, e);
                        let ghost t = terms_of(*dag);
                        proof {
                            lemma_extends_trans(graph, best, eg, first, s, t);
                            lemma_steps_grow(graph, best, eg, s, t, m0, frames, opened@, v);
                        }
                        let ghost opened0 = opened@;
                        opened.set(w as usize, true);
                        proof {
                            lemma_count_flip(
                                n as nat,
                                unopened(opened@),
                                unopened(opened0),
                                w as int,
                            );
                        }
                        self.push_kids(&mut stack, w, e, texts);
                        proof {
                            lemma_enter_new(
                                graph,
                                best,
                                eg,
                                t,
                                m0,
                                frames,
                                stack@,
                                opened0,
                                v,
                                w,
                                e,
                                texts,
                            );
                        }
                    }
                },
                Some(Frame::Build(w, texts)) => {
                    assert(stack@ =~= rest);
                    let e: usize = match self.best[w as usize] {
                        Some(e) => e,
                        None => {
                            return Err(TermFault::Missing);
                        },
                    };
                    proof {
                        assert(kids_at_work(graph, best, m0, frames, frames.len() - 1));
                        let kids = graph.children(e as int);
                        assert forall|j: int| 0 <= j < graph.children(
                            e as int,
                        ).len() implies m0.dom().contains(
                            #[trigger] graph.children(e as int)[j],
                        ) by {
                            if !m0.dom().contains(kids[j]) {
                                assert(pending(frames, frames.len() - 1, kids[j]));
                            }
                        }
                    }
                    let ch: Vec<usize> = self.collect(memo, e, &texts);
                    let ghost chs = ch@;
                    let ghost height: nat = 0;
                    proof {
                        height = lemma_args_built(
                            graph,
                            best,
                            eg,
                            s,
                            m0,
                            e as int,
                            texts@,
                            chs,
                            chs.len(),
                        );
                    }
                    let head: String = self.graph.funcs[self.graph.enodes[e].func].term_name.clone();
                    let ghost view = TermView::App(head@, chs);
                    let id: usize = add_app(dag, head, ch);
                    memo.insert(w, id);
                    proof {
                        let t = terms_of(*dag);
                        lemma_added_grows(s, t, view, id);
                        lemma_args_grow(
                            graph,
                            best,
                            eg,
                            s,
                            t,
                            e as int,
                            chs,
                            chs.len(),
                            height,
                        );
                        assert(best_term(graph, best, eg, t, w, id, height + 1));
                        assert(is_best_term(graph, best, eg, t, w, id));
                        assert(!m0.dom().contains(w)) by {
                            lemma_open_unknown(graph, best, eg, s, m0, frames, opened@, v);
                        }
                        lemma_collected(
                            graph,
                            best,
                            eg,
                            s,
                            t,
                            m0,
                            w,
                            e as int,
                            texts@,
                            chs,
                            id,
                        );
                        assert forall|i: int| s.len() <= i < t.len() implies #[trigger] belongs(
                            graph,
                            best,
                            eg,
                            t,
                            i,
                        ) by {
                            assert(is_best_term(graph, best, eg, t, w, i as usize));
                        }
                        lemma_extends_trans(graph, best, eg, first, s, t);
                        lemma_steps_grow(graph, best, eg, s, t, m0, frames, opened@, v);
                        lemma_build_done(
                            graph,
                            best,
                            eg,
                            t,
                            m0,
                            frames,
                            opened@,
                            v,
                            w,
                            id,
                        );
                        assert(memo@ == m0.insert(w, id));
                    }
                },
            }
        }
        proof {
            assert(first_fault(graph, best, stack@) is None);
        }
        match memo.get(&v) {
            Some(t) => Ok(*t),
            None => Err(TermFault::Missing),
        }
    }

    /// Puts off the e-node `e` of class `w` until its children are built, the first one
    /// first.
    fn push_kids(&self, stack: &mut Vec<Frame>, w: u32, e: usize, texts: Vec<usize>)
        requires
            self.ok(),
            e < self.graph.enodes@.len(),
        ensures
            final(stack)@ == entered(self.graph, old(stack)@, w, e as int, texts, 0),
    {
        let kids: &Vec<u32> = &self.graph.enodes[e].ch_eq;
        let ghost s0 = stack@;
        stack.push(Frame::Build(w, texts));
        let mut j: usize = kids.len();
        assert(stack@ =~= entered(self.graph, s0, w, e as int, texts, j as int));
        while j > 0
            invariant
                j <= kids@.len(),
                kids@ == self.graph.children(e as int),
                stack@ == entered(self.graph, s0, w, e as int, texts, j as int),
            decreases j,
        {
            j = j - 1;
            stack.push(Frame::Enter(kids[j]));
            assert(stack@ =~= entered(self.graph, s0, w, e as int, texts, j as int));
        }
    }
}

/// The steps `rest`, then the e-node `e` of class `w`, then its children from the last one
/// down to number `j`.
spec fn entered(
    graph: &ClassGraph,
    rest: Seq<Frame>,
    w: u32,
    e: int,
    texts: Vec<usize>,
    j: int,
) -> Seq<Frame> {
    let kids = graph.children(e);
    rest.push(Frame::Build(w, texts)) + Seq::new(
        (kids.len() - j) as nat,
        |i: int| Frame::Enter(kids[kids.len() - 1 - i]),
    )
}

/// The class that is being built is not known yet.
proof fn lemma_open_unknown(
    graph: &ClassGraph,
    best: Seq<Option<usize>>,
    eg: EGraph,
    terms: Seq<TermView>,
    memo: Map<u32, usize>,
    frames: Seq<Frame>,
    opened: Seq<bool>,
    v: u32,
)
    requires
        steps_ok(graph, best, eg, terms, memo, frames, opened, v),
        frames.len() > 0,
        frames.last() is Build,
    ensures
        !memo.dom().contains(class_in(frames.last())),
{
    let above = open_classes(frames);
    let w = class_in(frames.last());
    assert(frame_ok(graph, best, eg, terms, frames[frames.len() - 1]));
    assert(above[above.len() - 1] == w);
    assert(above.contains(w));
}

/// A term made of the collected arguments is linked.
proof fn lemma_collected(
    graph: &ClassGraph,
    best: Seq<Option<usize>>,
    eg: EGraph,
    s: Seq<TermView>,
    t: Seq<TermView>,
    memo: Map<u32, usize>,
    w: u32,
    e: int,
    texts: Seq<usize>,
    ch: Seq<usize>,
    id: usize,
)
    requires
        well_shaped(graph),
        0 <= e < graph.enodes@.len(),
        best[w as int] == Some(e as usize),
        e <= usize::MAX,
        grows(s, t),
        !memo.dom().contains(w),
        forall|j: int|
            0 <= j < graph.children(e).len() ==> memo.dom().contains(
                #[trigger] graph.children(e)[j],
            ),
        texts.len() == graph.enodes@[e].ch_prim@.len(),
        texts_fit(graph, eg, s, e, texts, texts.len()),
        ch.len() == mask_of(graph, e).len(),
        forall|p: int|
            0 <= p < ch.len() ==> #[trigger] ch[p] == arg_at(graph, memo, e, texts, p),
        id < t.len(),
        t[id as int] == TermView::App(
            graph.funcs@[graph.enodes@[e].func as int].term_name@,
            ch,
        ),
    ensures
        linked(graph, best, eg, t, memo.insert(w, id), w),
{
    let next = memo.insert(w, id);
    assert forall|p: int| 0 <= p < ch.len() implies #[trigger] arg_linked(
        graph,
        eg,
        t,
        next,
        e,
        ch,
        p,
    ) by {
        let k = count_true(mask_of(graph, e).take(p)) as int;
        lemma_class_position(graph, e, p);
        assert(ch[p] == arg_at(graph, memo, e, texts, p));
        if mask_of(graph, e)[p] {
            assert(memo.dom().contains(graph.children(e)[k]));
        } else {
            assert(texts[p - k] < s.len());
            assert(t[texts[p - k] as int] == s[texts[p - k] as int]);
        }
    }
}

/// The class to be entered is known.
proof fn lemma_enter_known(
    graph: &ClassGraph,
    best: Seq<Option<usize>>,
    eg: EGraph,
    terms: Seq<TermView>,
    memo: Map<u32, usize>,
    frames: Seq<Frame>,
    opened: Seq<bool>,
    v: u32,
)
    requires
        well_shaped(graph),
        choices_ok(graph, best),
        steps_ok(graph, best, eg, terms, memo, frames, opened, v),
        frames.len() > 0,
        frames.last() is Enter,
        memo.dom().contains(class_in(frames.last())),
    ensures
        steps_ok(graph, best, eg, terms, memo, frames.drop_last(), opened, v),
{
    let rest = frames.drop_last();
    let w = class_in(frames.last());
    let above = open_classes(rest);
    let h = choose|h: nat| #[trigger] best_term(graph, best, eg, terms, w, memo[w], h);
    lemma_term_finite(graph, best, eg, terms, w, memo[w], h);
    assert forall|i: int| 0 <= i < above.len() implies !memo.dom().contains(
        #[trigger] above[i],
    ) by {
        assert(above.contains(above[i]));
    }
    lemma_no_fault(graph, best, memo.dom(), w, h, above);
    lemma_steps_pop(graph, best, memo, memo, frames);
    assert forall|k: int| 0 <= k < rest.len() implies frame_ok(
        graph,
        best,
        eg,
        terms,
        #[trigger] rest[k],
    ) by {
        assert(rest[k] == frames[k]);
    }
}

/// The class to be entered is new.
proof fn lemma_enter_new(
    graph: &ClassGraph,
    best: Seq<Option<usize>>,
    eg: EGraph,
    terms: Seq<TermView>,
    memo: Map<u32, usize>,
    frames: Seq<Frame>,
    next: Seq<Frame>,
    opened: Seq<bool>,
    v: u32,
    w: u32,
    e: usize,
    texts: Vec<usize>,
)
    requires
        well_shaped(graph),
        choices_ok(graph, best),
        steps_ok(graph, best, eg, terms, memo, frames, opened, v),
        frames.len() > 0,
        frames.last() == Frame::Enter(w),
        w < graph.size(),
        !memo.dom().contains(w),
        !opened[w as int],
        best[w as int] == Some(e),
        texts@.len() == graph.enodes@[e as int].ch_prim@.len(),
        texts_fit(graph, eg, terms, e as int, texts@, texts@.len()),
        next == entered(graph, frames.drop_last(), w, e as int, texts, 0),
    ensures
        steps_ok(graph, best, eg, terms, memo, next, opened.update(w as int, true), v),
{
    let rest = frames.drop_last();
    let kids = graph.children(e as int);
    let m = kids.len();
    let above = open_classes(rest);
    let r = rest.len() as int;
    assert(!open_classes(frames).contains(w));
    lemma_path_short(graph, above, w);
    lemma_entered(graph, best, rest, w, e as int, texts, 0);
    assert(fault_among(graph, best, kids, 0, above.push(w)) is None);
    let o = opened.update(w as int, true);
    assert forall|x: u32| x < graph.size() implies (#[trigger] open_classes(next).contains(x)
        <==> o[x as int] && !memo.dom().contains(x)) by {
        let a = above.push(w);
        if x == w {
            assert(a[above.len() as int] == w);
        } else {
            if a.contains(x) {
                let i = choose|i: int| 0 <= i < a.len() && a[i] == x;
                assert(above[i] == x);
            }
            if above.contains(x) {
                let i = choose|i: int| 0 <= i < above.len() && above[i] == x;
                assert(a[i] == x);
            }
            assert(open_classes(frames).contains(x) <==> opened[x as int] && !memo.dom().contains(
                x,
            ));
        }
    }
    assert forall|k: int| 0 <= k < next.len() implies frame_ok(
        graph,
        best,
        eg,
        terms,
        #[trigger] next[k],
    ) by {
        if k < r {
            assert(next[k] == frames[k]);
        } else if k > r {
            let j = m - 1 - (k - r - 1);
            assert(next[k] == Frame::Enter(kids[j]));
            assert(graph.enodes@[e as int].ch_eq@[j] < graph.size());
        }
    }
    assert forall|k: int| 0 <= k < next.len() implies #[trigger] kids_at_work(
        graph,
        best,
        memo,
        next,
        k,
    ) by {
        if k < r {
            assert(next[k] == frames[k]);
            assert(kids_at_work(graph, best, memo, frames, k));
            match frames[k] {
                Frame::Enter(_) => {},
                Frame::Build(u, _) => {
                    let ks = graph.children(best[u as int]->0 as int);
                    assert forall|j: int| 0 <= j < ks.len() implies memo.dom().contains(
                        #[trigger] ks[j],
                    ) || pending(next, k, ks[j]) by {
                        if !memo.dom().contains(ks[j]) {
                            let i = choose|i: int|
                                k < i < frames.len() && class_in(#[trigger] frames[i]) == ks[j];
                            assert(class_in(next[i]) == ks[j]);
                        }
                    }
                },
            }
        } else if k == r {
            assert forall|j: int| 0 <= j < kids.len() implies memo.dom().contains(
                #[trigger] kids[j],
            ) || pending(next, k, kids[j]) by {
                let i = r + 1 + (m - 1 - j);
                assert(next[i] == Frame::Enter(kids[j]));
                assert(class_in(next[i]) == kids[j]);
            }
        } else {
            assert(next[k] == Frame::Enter(kids[m - 1 - (k - r - 1)]));
        }
    }
    if r > 0 {
        assert(next[0] == frames[0]);
    }
}

/// Entering the children of an e-node puts off its class, and what is met first does not
/// change.
proof fn lemma_entered(
    graph: &ClassGraph,
    best: Seq<Option<usize>>,
    rest: Seq<Frame>,
    w: u32,
    e: int,
    texts: Vec<usize>,
    j: int,
)
    requires
        0 <= j <= graph.children(e).len(),
    ensures
        ({
            let next = entered(graph, rest, w, e, texts, j);
            let kids = graph.children(e);
            let above = open_classes(rest).push(w);
            &&& open_classes(next) == above
            &&& match fault_among(graph, best, kids, j as nat, above) {
                Some(f) => true,
                None => first_fault(graph, best, next) == match fault_among(
                    graph,
                    best,
                    kids,
                    kids.len(),
                    above,
                ) {
                    Some(f) => Some(f),
                    None => first_fault(graph, best, rest),
                },
            }
            &&& fault_among(graph, best, kids, j as nat, above) is Some ==> fault_among(
                graph,
                best,
                kids,
                kids.len(),
                above,
            ) == fault_among(graph, best, kids, j as nat, above)
        }),
    decreases graph.children(e).len() - j,
{
    let kids = graph.children(e);
    let next = entered(graph, rest, w, e, texts, j);
    if j == kids.len() {
        assert(next =~= rest.push(Frame::Build(w, texts)));
        assert(next.drop_last() =~= rest);
    } else {
        lemma_entered(graph, best, rest, w, e, texts, j + 1);
        assert(next.drop_last() =~= entered(graph, rest, w, e, texts, j + 1));
        assert(next.last() == Frame::Enter(kids[j]));
    }
}

/// The e-node of the last step is built.
proof fn lemma_build_done(
    graph: &ClassGraph,
    best: Seq<Option<usize>>,
    eg: EGraph,
    terms: Seq<TermView>,
    memo: Map<u32, usize>,
    frames: Seq<Frame>,
    opened: Seq<bool>,
    v: u32,
    w: u32,
    id: usize,
)
    requires
        well_shaped(graph),
        choices_ok(graph, best),
        steps_ok(graph, best, eg, terms, memo, frames, opened, v),
        frames.len() > 0,
        frames.last() is Build,
        class_in(frames.last()) == w,
        is_best_term(graph, best, eg, terms, w, id),
        linked(graph, best, eg, terms, memo.insert(w, id), w),
        forall|j: int|
            0 <= j < graph.children(best[w as int]->0 as int).len() ==> memo.dom().contains(
                #[trigger] graph.children(best[w as int]->0 as int)[j],
            ),
    ensures
        steps_ok(graph, best, eg, terms, memo.insert(w, id), frames.drop_last(), opened, v),
        !memo.dom().contains(w),
{
    let rest = frames.drop_last();
    let above = open_classes(frames);
    let a = open_classes(rest);
    let next = memo.insert(w, id);
    assert(above == a.push(w));
    assert(frame_ok(graph, best, eg, terms, frames[frames.len() - 1]));
    assert(above[a.len() as int] == w);
    assert(above.contains(w));
    lemma_steps_pop(graph, best, memo, next, frames);
    assert forall|v: u32| #[trigger] next.dom().contains(v) implies linked(
        graph,
        best,
        eg,
        terms,
        next,
        v,
    ) by {
        if v != w {
            assert(memo.dom().contains(v));
            lemma_linked_insert(graph, best, eg, terms, memo, w, id, v);
        }
    }
    assert forall|i: int| 0 <= i < a.len() implies #[trigger] a[i] < graph.size() by {
        assert(above[i] == a[i]);
    }
    assert(a.no_duplicates()) by {
        assert forall|i: int, j: int| 0 <= i < a.len() && 0 <= j < a.len() && i != j implies a[i]
            != a[j] by {
            assert(above[i] == a[i] && above[j] == a[j]);
        }
    }
    assert forall|x: u32| x < graph.size() implies (#[trigger] a.contains(x) <==> opened[x as int]
        && !next.dom().contains(x)) by {
        assert(above.contains(x) <==> opened[x as int] && !memo.dom().contains(x));
        if a.contains(x) {
            let i = choose|i: int| 0 <= i < a.len() && a[i] == x;
            assert(above[i] == x);
            assert(above[i] != above[a.len() as int]);
        }
        if above.contains(x) && x != w {
            let i = choose|i: int| 0 <= i < above.len() && above[i] == x;
            assert(a[i] == x);
        }
    }
    assert forall|k: int| 0 <= k < rest.len() implies frame_ok(
        graph,
        best,
        eg,
        terms,
        #[trigger] rest[k],
    ) by {
        assert(rest[k] == frames[k]);
    }
}

/// Rebuilds the chosen term of class `v`. The terms of all classes that it is made of are
/// remembered for the next time.
pub fn build_term(
    graph: &ClassGraph,
    best: &Vec<Option<usize>>,
    eg: &EGraph,
    dag: &mut TermDag,
    memo: &mut HashMap<u32, usize>,
    v: u32,
) -> (r: Result<usize, TermFault>)
    requires
        well_shaped(graph),
        choices_ok(graph, best@),
        texts_known(*eg, graph.enodes@),
        v < graph.size(),
        memo_ok(graph, best@, *eg, terms_of(*old(dag)), old(memo)@),
    ensures
        rebuilds(
            graph,
            best@,
            *eg,
            v,
            old(memo)@,
            final(memo)@,
            terms_of(*old(dag)),
            terms_of(*final(dag)),
            r,
        ),
{
    let rebuild = Rebuild { graph, best, eg };
    rebuild.run(dag, memo, v)
}

} // verus!
