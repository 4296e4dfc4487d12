//! What an e-node costs, in the terms of the functions that the caller gives.
use vstd::prelude::*;
use vstd::utf8::encode_utf8;

use crate::class_graph::ClassGraph;
use crate::cost::{Cost, ZERO_KEY};
use crate::dag_extract::{choice_digest, hash_digest};
use crate::extract_dp::{
    child_max, child_sum, children_finite, enode_cost, mix_children, mix_prims, noise_fn,
    noise_total, pass_limit, pricing, relax_pass, relaxed, solvable, solve_component, solved,
    struct_hash, weigh_fn, weigh_total, Dp, Pricing,
};
use crate::extract_laws::{
    amount, amounts, at_most, lemma_cheapest_min, monotone, no_better, rising,
    solution_is_locally_cheapest,
};
use crate::fnv::{fnv_low, fnv_seq, fnv_words};
use crate::mapping::{plus_fn, plus_total};
use crate::row_order::{acyclic, lemma_cheapest_origin, lemma_class_picked};
use crate::stats::cyclic;

verus! {

// ------------------------------------------------------------------------ sums

/// What the caller's functions answer is what they are taken to answer.
pub proof fn answers_are_the_callers<
    P: Fn(Cost, Cost) -> Cost,
    W: Fn(Cost) -> Cost,
    N: Fn(u64) -> Cost,
>(plus: P, weigh: W, noise: N, a: Cost, b: Cost, n: u64, x: Cost, y: Cost, z: Cost)
    requires
        plus_total(plus),
        weigh_total(weigh),
        noise_total(noise),
        plus.ensures((a, b), x),
        weigh.ensures((a,), y),
        noise.ensures((n,), z),
    ensures
        plus_fn(plus)(a, b) == x,
        weigh_fn(weigh)(a) == y,
        noise_fn(noise)(n) == z,
{
    let u = plus_fn(plus)(a, b);
    assert(plus.ensures((a, b), u));
    let v = weigh_fn(weigh)(a);
    assert(weigh.ensures((a,), v));
    let w = noise_fn(noise)(n);
    assert(noise.ensures((n,), w));
}

/// The costs of some classes, in order.
pub open spec fn costs_at(ch: Seq<u32>, costs: Seq<Cost>) -> Seq<Cost> {
    ch.map_values(|c: u32| costs[c as int])
}

/// The larger of two numbers, the first where it is no smaller.
pub open spec fn larger_of() -> spec_fn(Cost, Cost) -> Cost {
    |a: Cost, b: Cost|
        match (a, b) {
            (Cost::Number(x), Cost::Number(y)) => if x < y {
                b
            } else {
                a
            },
            _ => a,
        }
}

/// The sum and the largest of the children's costs take in every child, from zero on.
pub proof fn children_are_taken_in(
    plus: spec_fn(Cost, Cost) -> Cost,
    ch: Seq<u32>,
    costs: Seq<Cost>,
)
    ensures
        child_sum(plus, ch, costs, ch.len()) == costs_at(ch, costs).fold_left(
            Cost::Number(ZERO_KEY),
            plus,
        ),
        child_max(ch, costs, ch.len()) == costs_at(ch, costs).fold_left(
            Cost::Number(ZERO_KEY),
            larger_of(),
        ),
{
    lemma_children_upto(plus, ch, costs, ch.len());
    assert(ch.take(ch.len() as int) =~= ch);
}

proof fn lemma_children_upto(
    plus: spec_fn(Cost, Cost) -> Cost,
    ch: Seq<u32>,
    costs: Seq<Cost>,
    n: nat,
)
    requires
        n <= ch.len(),
    ensures
        child_sum(plus, ch, costs, n) == costs_at(ch.take(n as int), costs).fold_left(
            Cost::Number(ZERO_KEY),
            plus,
        ),
        child_max(ch, costs, n) == costs_at(ch.take(n as int), costs).fold_left(
            Cost::Number(ZERO_KEY),
            larger_of(),
        ),
    decreases n,
{
    reveal_with_fuel(Seq::fold_left, 2);
    if n > 0 {
        lemma_children_upto(plus, ch, costs, (n - 1) as nat);
        assert(costs_at(ch.take(n as int), costs).drop_last() =~= costs_at(
            ch.take(n - 1),
            costs,
        ));
    }
}

/// The cost is a number between the infinities.
pub open spec fn between_infinities(c: Cost) -> bool {
    c matches Cost::Number(k) && 0x000f_ffff_ffff_ffff < k < 0xfff0_0000_0000_0000
}

/// What an e-node costs: nothing, if its head does; nothing yet, while a child has no finite
/// cost; or else its head, the sum of its children and its noise, added up in this order, or
/// its head, its largest child, the weighed sum of its children and its noise.
pub proof fn enode_cost_adds_up<
    P: Fn(Cost, Cost) -> Cost,
    W: Fn(Cost) -> Cost,
    N: Fn(u64) -> Cost,
>(
    graph: &ClassGraph,
    texts: Seq<Seq<u64>>,
    fold_max: bool,
    plus: P,
    weigh: W,
    noise: N,
    st: Dp,
    e: int,
)
    ensures
        ({
            let x = graph.enodes@[e];
            let cs = costs_at(x.ch_eq@, st.costs);
            let zero = Cost::Number(0x8000_0000_0000_0000);
            let add_up = plus_fn(plus);
            let sum = cs.fold_left(zero, add_up);
            let extra = noise_fn(noise)(
                (struct_hash(graph, texts, st.hashes, e) % 1024) as u64,
            );
            enode_cost(graph, pricing(texts, fold_max, plus, weigh, noise), st, e) == (
            if x.head == zero {
                Some(zero)
            } else if exists|j: int|
                0 <= j < cs.len() && !between_infinities(#[trigger] cs[j]) {
                None
            } else if !fold_max {
                Some(add_up(add_up(x.head, sum), extra))
            } else {
                Some(
                    add_up(
                        add_up(
                            add_up(x.head, cs.fold_left(zero, larger_of())),
                            weigh_fn(weigh)(sum),
                        ),
                        extra,
                    ),
                )
            })
        }),
{
    let x = graph.enodes@[e];
    let ch = x.ch_eq@;
    let cs = costs_at(ch, st.costs);
    children_are_taken_in(plus_fn(plus), ch, st.costs);
    if children_finite(ch, st.costs, ch.len() as int) {
        assert forall|j: int| 0 <= j < cs.len() implies between_infinities(#[trigger] cs[j]) by {
            assert(st.costs[ch[j] as int].finite());
        }
    } else {
        let j = choose|j: int| 0 <= j < ch.len() && !st.costs[#[trigger] ch[j] as int].finite();
        assert(!between_infinities(cs[j]));
    }
}

// ---------------------------------------------------------------------- classes

/// Where no class depends on itself, a class costs what the e-node chosen for it costs, over
/// the costs of its children, and has its hash; no e-node of the class costs less, and none
/// that costs the same has a smaller hash.
pub proof fn class_costs_its_cheapest_enode<
    P: Fn(Cost, Cost) -> Cost,
    W: Fn(Cost) -> Cost,
    N: Fn(u64) -> Cost,
>(
    graph: &ClassGraph,
    texts: Seq<Seq<u64>>,
    plus: P,
    weigh: W,
    noise: N,
    st: Dp,
    v: int,
    i: int,
)
    requires
        solvable(graph),
        graph.condensed(),
        acyclic(graph),
        solved(
            graph,
            pricing(texts, false, plus, weigh, noise),
            graph.sccs@.len(),
        ) == Some(st),
        0 <= v < graph.size(),
        0 <= i < graph.enodes_of@[v]@.len(),
    ensures
        ({
            let zero = Cost::Number(0x8000_0000_0000_0000);
            let add_up = plus_fn(plus);
            let price = |e: int|
                add_up(
                    add_up(
                        graph.enodes@[e].head,
                        costs_at(graph.enodes@[e].ch_eq@, st.costs).fold_left(zero, add_up),
                    ),
                    noise_fn(noise)((struct_hash(graph, texts, st.hashes, e) % 1024) as u64),
                );
            let known = |e: int|
                forall|j: int|
                    0 <= j < graph.enodes@[e].ch_eq@.len() ==> between_infinities(
                        st.costs[#[trigger] graph.enodes@[e].ch_eq@[j] as int],
                    );
            let e = graph.enodes_of@[v]@[i] as int;
            &&& st.best[v] matches Some(b) ==> {
                &&& graph.enodes@[b as int].out == v
                &&& st.hashes[v] == struct_hash(graph, texts, st.hashes, b as int)
                &&& graph.enodes@[e].head != zero && known(e) && price(e) == st.costs[v]
                    ==> st.hashes[v] <= struct_hash(graph, texts, st.hashes, e)
                &&& graph.enodes@[b as int].head == zero ==> st.costs[v] == zero
                &&& graph.enodes@[b as int].head != zero ==> known(b as int) && st.costs[v]
                    == price(b as int)
            }
            &&& st.best[v] is None ==> st.costs[v] == Cost::Number(0xfff0_0000_0000_0000)
            &&& st.costs[v] is Number
            &&& graph.enodes@[e].head == zero ==> st.costs[v]->Number_0
                <= 0x8000_0000_0000_0000
            &&& graph.enodes@[e].head != zero && known(e) ==> (price(e) matches Cost::Number(k)
                ==> st.costs[v]->Number_0 <= k)
        }),
{
    let p = pricing(texts, false, plus, weigh, noise);
    lemma_class_picked(graph, p, st, v);
    let n = graph.enodes_of@[v]@.len();
    lemma_cheapest_origin(graph, p, st, v, n);
    lemma_cheapest_min(graph, p, st, v, n);
    let e = graph.enodes_of@[v]@[i] as int;
    assert(graph.enodes_of@[v]@[i] < graph.enodes@.len());
    lemma_known(graph, texts, plus, weigh, noise, st, e);
    if let Some(b) = st.best[v] {
        let k = choose|k: int| 0 <= k < n && #[trigger] graph.enodes_of@[v]@[k] == b;
        assert(graph.enodes_of@[v]@[k] < graph.enodes@.len());
        lemma_known(graph, texts, plus, weigh, noise, st, b as int);
    }
}

proof fn lemma_known<
    P: Fn(Cost, Cost) -> Cost,
    W: Fn(Cost) -> Cost,
    N: Fn(u64) -> Cost,
>(
    graph: &ClassGraph,
    texts: Seq<Seq<u64>>,
    plus: P,
    weigh: W,
    noise: N,
    st: Dp,
    e: int,
)
    ensures
        ({
            let x = graph.enodes@[e];
            let zero = Cost::Number(0x8000_0000_0000_0000);
            let add_up = plus_fn(plus);
            let price = add_up(
                add_up(x.head, costs_at(x.ch_eq@, st.costs).fold_left(zero, add_up)),
                noise_fn(noise)((struct_hash(graph, texts, st.hashes, e) % 1024) as u64),
            );
            let known = forall|j: int|
                0 <= j < x.ch_eq@.len() ==> between_infinities(
                    st.costs[#[trigger] x.ch_eq@[j] as int],
                );
            enode_cost(graph, pricing(texts, false, plus, weigh, noise), st, e) == if x.head
                == zero {
                Some(zero)
            } else if known {
                Some(price)
            } else {
                None
            }
        }),
{
    enode_cost_adds_up(graph, texts, false, plus, weigh, noise, st, e);
    let x = graph.enodes@[e];
    let cs = costs_at(x.ch_eq@, st.costs);
    if exists|j: int| 0 <= j < cs.len() && !between_infinities(#[trigger] cs[j]) {
        let j = choose|j: int| 0 <= j < cs.len() && !between_infinities(#[trigger] cs[j]);
        assert(!between_infinities(st.costs[x.ch_eq@[j] as int]));
    } else {
        assert forall|j: int| 0 <= j < x.ch_eq@.len() implies between_infinities(
            st.costs[#[trigger] x.ch_eq@[j] as int],
        ) by {
            assert(between_infinities(cs[j]));
        }
    }
}

/// In the end, on cycles too, no e-node costs less than its class, and none that costs the
/// same has a smaller hash than the e-node chosen.
pub proof fn no_enode_is_better(graph: &ClassGraph, p: Pricing, st: Dp, v: int, i: int)
    requires
        solvable(graph),
        graph.condensed(),
        solved(graph, p, graph.sccs@.len()) == Some(st),
        0 <= v < graph.size(),
        0 <= i < graph.enodes_of@[v]@.len(),
    ensures
        ({
            let e = graph.enodes_of@[v]@[i] as int;
            match (enode_cost(graph, p, st, e), st.costs[v]) {
                (Some(Cost::Number(a)), Cost::Number(b)) => {
                    &&& b <= a
                    &&& a == b ==> (st.best[v] matches Some(c) ==> struct_hash(
                        graph,
                        p.texts,
                        st.hashes,
                        c as int,
                    ) <= struct_hash(graph, p.texts, st.hashes, e))
                },
                _ => true,
            }
        }),
{
    solution_is_locally_cheapest(graph, p, v);
    assert(no_better(graph, p, st, v, graph.enodes_of@[v]@[i] as int));
}

// --------------------------------------------------------------------- relaxation

/// The state after `j` passes over component `si`.
pub open spec fn after_passes(graph: &ClassGraph, p: Pricing, st: Dp, si: int, j: nat) -> Dp
    decreases j,
{
    if j == 0 {
        st
    } else {
        relax_pass(
            graph,
            p,
            after_passes(graph, p, st, si, (j - 1) as nat),
            si,
            graph.sccs@[si]@.len(),
        ).0
    }
}

/// Pass `j` over component `si`, from zero on, changes something.
pub open spec fn pass_changes(graph: &ClassGraph, p: Pricing, st: Dp, si: int, j: nat) -> bool {
    relax_pass(
        graph,
        p,
        after_passes(graph, p, st, si, j),
        si,
        graph.sccs@[si]@.len(),
    ).1
}

proof fn lemma_after_shift(graph: &ClassGraph, p: Pricing, st: Dp, si: int, j: nat)
    ensures
        after_passes(graph, p, st, si, j + 1) == after_passes(
            graph,
            p,
            relax_pass(graph, p, st, si, graph.sccs@[si]@.len()).0,
            si,
            j,
        ),
    decreases j,
{
    reveal_with_fuel(after_passes, 2);
    if j > 0 {
        lemma_after_shift(graph, p, st, si, (j - 1) as nat);
    }
}

proof fn lemma_relaxed_passes(graph: &ClassGraph, p: Pricing, st: Dp, si: int, fuel: nat)
    ensures
        match relaxed(graph, p, st, si, fuel) {
            None => forall|j: nat| j < fuel ==> #[trigger] pass_changes(graph, p, st, si, j),
            Some(next) => exists|j: nat|
                j < fuel && !#[trigger] pass_changes(graph, p, st, si, j) && next == after_passes(
                    graph,
                    p,
                    st,
                    si,
                    j + 1,
                ) && forall|k: nat| k < j ==> #[trigger] pass_changes(graph, p, st, si, k),
        },
    decreases fuel,
{
    if fuel > 0 {
        let n = graph.sccs@[si]@.len();
        let (next, changed) = relax_pass(graph, p, st, si, n);
        assert(after_passes(graph, p, st, si, 0) == st);
        assert(pass_changes(graph, p, st, si, 0) == changed);
        lemma_after_shift(graph, p, st, si, 0);
        if changed {
            lemma_relaxed_passes(graph, p, next, si, (fuel - 1) as nat);
            assert forall|j: nat| j > 0 implies #[trigger] pass_changes(graph, p, st, si, j)
                == pass_changes(graph, p, next, si, (j - 1) as nat) by {
                lemma_after_shift(graph, p, st, si, (j - 1) as nat);
            }
            match relaxed(graph, p, next, si, (fuel - 1) as nat) {
                None => {
                    assert forall|j: nat| j < fuel implies #[trigger] pass_changes(
                        graph,
                        p,
                        st,
                        si,
                        j,
                    ) by {
                        if j > 0 {
                            assert(pass_changes(graph, p, next, si, (j - 1) as nat));
                        }
                    }
                },
                Some(end) => {
                    let j = choose|j: nat|
                        j < fuel - 1 && !#[trigger] pass_changes(graph, p, next, si, j) && end
                            == after_passes(graph, p, next, si, j + 1) && forall|k: nat|
                            k < j ==> #[trigger] pass_changes(graph, p, next, si, k);
                    lemma_after_shift(graph, p, st, si, j + 1);
                    assert(!pass_changes(graph, p, st, si, j + 1));
                    assert forall|k: nat| k < j + 1 implies #[trigger] pass_changes(
                        graph,
                        p,
                        st,
                        si,
                        k,
                    ) by {
                        if k > 0 {
                            assert(pass_changes(graph, p, next, si, (k - 1) as nat));
                        }
                    }
                },
            }
        } else {
            assert(!pass_changes(graph, p, st, si, 0));
            assert(relaxed(graph, p, st, si, fuel) == Some(next));
            assert(next == after_passes(graph, p, st, si, 1));
        }
    }
}

/// The relaxation of a component ends with the first pass that changes nothing, and is given
/// up only where the first `n * n + 1000` passes over its `n` classes all change something.
pub proof fn relaxation_ends_when_nothing_changes(
    graph: &ClassGraph,
    p: Pricing,
    st: Dp,
    si: int,
)
    requires
        graph.wf(),
        0 <= si < graph.sccs@.len(),
        cyclic(graph, graph.sccs@[si]@[0] as int),
    ensures
        ({
            let n = graph.sccs@[si]@.len();
            match solve_component(graph, p, st, si) {
                None => forall|j: nat|
                    j < n * n + 1000 ==> #[trigger] pass_changes(graph, p, st, si, j),
                Some(next) => exists|j: nat|
                    j < n * n + 1000 && !#[trigger] pass_changes(graph, p, st, si, j) && next
                        == after_passes(graph, p, st, si, j + 1) && forall|k: nat|
                        k < j ==> #[trigger] pass_changes(graph, p, st, si, k),
            }
        }),
{
    let n = graph.sccs@[si]@.len();
    lemma_relaxed_passes(graph, p, st, si, pass_limit(n));
}

// ---------------------------------------------------------------- fair functions

/// The caller's functions deal with amounts as numbers do: sums of amounts are amounts, grow
/// with both parts, are no less than either and more than a finite part where the other one is
/// not zero; weighing keeps the order; and there is no noise.
pub open spec fn fair(
    plus: spec_fn(Cost, Cost) -> Cost,
    weigh: spec_fn(Cost) -> Cost,
    noise: spec_fn(u64) -> Cost,
) -> bool {
    &&& forall|a: Cost, b: Cost| amount(a) && amount(b) ==> amount(#[trigger] plus(a, b))
    &&& forall|a: Cost, b: Cost, x: Cost, y: Cost|
        amount(a) && amount(b) && at_most(a, x) && at_most(b, y) ==> at_most(
            #[trigger] plus(a, b),
            #[trigger] plus(x, y),
        )
    &&& forall|a: Cost, b: Cost|
        amount(a) && amount(b) ==> at_most(a, #[trigger] plus(a, b)) && at_most(b, plus(a, b))
    &&& forall|a: Cost, b: Cost|
        amount(a) && amount(b) && a != Cost::Number(ZERO_KEY) && b.finite() ==> b.below(
            #[trigger] plus(a, b),
        )
    &&& forall|a: Cost| amount(a) ==> amount(#[trigger] weigh(a))
    &&& forall|a: Cost, b: Cost|
        amount(a) && at_most(a, b) ==> at_most(#[trigger] weigh(a), #[trigger] weigh(b))
    &&& forall|n: u64| #[trigger] noise(n) == Cost::Number(ZERO_KEY)
}

/// Where the caller's functions are fair, so are the prices: they are amounts, they grow with
/// the children's costs, and an e-node with a head costs more than each of its children.
pub proof fn fair_functions_make_fair_prices<
    P: Fn(Cost, Cost) -> Cost,
    W: Fn(Cost) -> Cost,
    N: Fn(u64) -> Cost,
>(texts: Seq<Seq<u64>>, fold_max: bool, plus: P, weigh: W, noise: N)
    requires
        fair(plus_fn(plus), weigh_fn(weigh), noise_fn(noise)),
    ensures
        amounts(pricing(texts, fold_max, plus, weigh, noise)),
        monotone(pricing(texts, fold_max, plus, weigh, noise)),
        rising(pricing(texts, fold_max, plus, weigh, noise)),
{
    let (f, w, n) = (plus_fn(plus), weigh_fn(weigh), noise_fn(noise));
    let p = pricing(texts, fold_max, plus, weigh, noise);
    let zero = Cost::Number(ZERO_KEY);
    assert forall|h: Cost, s: Cost, b: u64| amount(h) && amount(s) implies amount(
        #[trigger] (p.sum_price)(h, s, b),
    ) by {
        assert(amount(f(h, s)));
        assert(n(b) == zero);
    }
    assert forall|h: Cost, m: Cost, s: Cost, b: u64|
        amount(h) && amount(m) && amount(s) implies amount(#[trigger] (p.max_price)(h, m, s, b)) by {
        assert(amount(f(h, m)));
        assert(amount(w(s)));
        assert(amount(f(f(h, m), w(s))));
        assert(n(b) == zero);
    }
    assert forall|h: Cost, s: Cost, b: u64, t: Cost, c: u64|
        amount(h) && amount(s) && at_most(s, t) implies at_most(
        #[trigger] (p.sum_price)(h, s, b),
        #[trigger] (p.sum_price)(h, t, c),
    ) by {
        assert(amount(f(h, s)));
        assert(at_most(f(h, s), f(h, t)));
        assert(n(b) == zero && n(c) == zero);
        assert(at_most(f(f(h, s), zero), f(f(h, t), zero)));
    }
    assert forall|h: Cost, a: Cost, s: Cost, b: u64, d: Cost, t: Cost, c: u64|
        amount(h) && amount(a) && amount(s) && at_most(a, d) && at_most(s, t) implies at_most(
        #[trigger] (p.max_price)(h, a, s, b),
        #[trigger] (p.max_price)(h, d, t, c),
    ) by {
        assert(amount(f(h, a)));
        assert(at_most(f(h, a), f(h, d)));
        assert(amount(w(s)) && at_most(w(s), w(t)));
        assert(at_most(f(f(h, a), w(s)), f(f(h, d), w(t))));
        assert(amount(f(f(h, a), w(s))));
        assert(n(b) == zero && n(c) == zero);
        assert(at_most(f(f(f(h, a), w(s)), zero), f(f(f(h, d), w(t)), zero)));
    }
    assert forall|h: Cost, s: Cost, b: u64, c: Cost|
        amount(h) && !h.same(zero) && amount(s) && amount(c) && c.finite() && #[trigger] at_most(
            c,
            s,
        ) implies c.below(#[trigger] (p.sum_price)(h, s, b)) by {
        assert(amount(f(h, s)));
        assert(at_most(s, f(h, s)));
        if s.finite() {
            assert(s.below(f(h, s)));
        }
        assert(n(b) == zero);
        assert(at_most(f(h, s), f(f(h, s), zero)));
    }
    assert forall|h: Cost, m: Cost, s: Cost, b: u64, c: Cost|
        amount(h) && !h.same(zero) && amount(m) && amount(s) && amount(c) && c.finite()
            && #[trigger] at_most(c, m) implies c.below(#[trigger] (p.max_price)(h, m, s, b)) by {
        assert(amount(f(h, m)));
        assert(at_most(m, f(h, m)));
        if m.finite() {
            assert(m.below(f(h, m)));
        }
        assert(amount(w(s)));
        assert(at_most(f(h, m), f(f(h, m), w(s))));
        assert(amount(f(f(h, m), w(s))));
        assert(n(b) == zero);
        assert(at_most(f(f(h, m), w(s)), f(f(f(h, m), w(s)), zero)));
    }
}

// ---------------------------------------------------------------------- hashes

/// One byte mixed into a hash.
pub open spec fn mixed() -> spec_fn(u64, u8) -> u64 {
    |h: u64, b: u8| (h ^ (b as u64)).wrapping_mul(0x0000_0100_0000_01b3)
}

/// The hash of some bytes, from `h` on.
pub open spec fn bytes_hash(h: u64, s: Seq<u8>) -> u64 {
    s.fold_left(h, mixed())
}

/// The `n` lowest bytes of `w`, the lowest first.
pub open spec fn low_bytes(w: u64, n: nat) -> Seq<u8> {
    Seq::new(n, |i: int| ((w >> ((8 * i) as u64)) & 0xff) as u8)
}

/// Hashing goes byte by byte.
pub proof fn hashes_go_byte_by_byte(h: u64, s: Seq<u8>)
    ensures
        fnv_seq(h, s) == bytes_hash(h, s),
    decreases s.len(),
{
    reveal_with_fuel(Seq::fold_left, 2);
    if s.len() > 0 {
        hashes_go_byte_by_byte(h, s.drop_last());
    }
}

/// Hashing a word is hashing its lowest bytes, the lowest first.
pub proof fn words_are_hashed_from_below(h: u64, w: u64, n: nat)
    requires
        n <= 8,
    ensures
        fnv_low(h, w, n) == bytes_hash(h, low_bytes(w, n)),
    decreases n,
{
    reveal_with_fuel(Seq::fold_left, 2);
    if n > 0 {
        words_are_hashed_from_below(h, w, (n - 1) as nat);
        assert(low_bytes(w, n).drop_last() =~= low_bytes(w, (n - 1) as nat));
        let s = (8 * (n - 1)) as u64;
        assert((((w >> s) & 0xff) as u8) as u64 == (w >> s) & 0xff) by (bit_vector);
    }
}

/// The bytes that tell an e-node: its constructor's name, the hashes of its children, and the
/// positions and text hashes of its primitive children.
pub open spec fn enode_bytes(
    graph: &ClassGraph,
    texts: Seq<Seq<u64>>,
    hashes: Seq<u64>,
    e: int,
) -> Seq<u8> {
    let x = graph.enodes@[e];
    encode_utf8(graph.funcs@[x.func as int].term_name@) + child_bytes(x.ch_eq@, hashes)
        + prim_bytes(x.ch_prim@, texts[e])
}

/// The hashes of some classes, eight bytes each.
pub open spec fn child_bytes(ch: Seq<u32>, hashes: Seq<u64>) -> Seq<u8> {
    ch.map_values(|c: u32| low_bytes(hashes[c as int], 8)).flatten_alt()
}

/// The positions and text hashes of primitive children, eight bytes each.
pub open spec fn prim_bytes(prims: Seq<(u32, u32)>, texts: Seq<u64>) -> Seq<u8> {
    Seq::new(
        prims.len(),
        |j: int| low_bytes(prims[j].0 as u64, 8) + low_bytes(texts[j], 8),
    ).flatten_alt()
}

proof fn lemma_hash_append(h: u64, s: Seq<u8>, t: Seq<u8>)
    ensures
        bytes_hash(h, s + t) == bytes_hash(bytes_hash(h, s), t),
    decreases t.len(),
{
    reveal_with_fuel(Seq::fold_left, 2);
    if t.len() == 0 {
        assert(s + t =~= s);
    } else {
        lemma_hash_append(h, s, t.drop_last());
        assert((s + t).drop_last() =~= s + t.drop_last());
    }
}

proof fn lemma_children_hash(h: u64, ch: Seq<u32>, hashes: Seq<u64>, n: nat)
    requires
        n <= ch.len(),
    ensures
        mix_children(h, ch, hashes, n) == bytes_hash(h, child_bytes(ch.take(n as int), hashes)),
    decreases n,
{
    let f = |c: u32| low_bytes(hashes[c as int], 8);
    let all = ch.take(n as int).map_values(f);
    if n == 0 {
        reveal_with_fuel(Seq::fold_left, 2);
        assert(all =~= Seq::empty());
    } else {
        lemma_children_hash(h, ch, hashes, (n - 1) as nat);
        let rest = ch.take(n - 1).map_values(f);
        assert(all.drop_last() =~= rest);
        assert(all.flatten_alt() == rest.flatten_alt() + all.last());
        lemma_hash_append(h, rest.flatten_alt(), all.last());
        words_are_hashed_from_below(
            bytes_hash(h, rest.flatten_alt()),
            hashes[ch[n - 1] as int],
            8,
        );
    }
}

proof fn lemma_prims_hash(h: u64, prims: Seq<(u32, u32)>, texts: Seq<u64>, n: nat)
    requires
        n <= prims.len(),
    ensures
        mix_prims(h, prims, texts, n) == bytes_hash(h, prim_bytes(prims.take(n as int), texts)),
    decreases n,
{
    let all = Seq::new(
        n,
        |j: int| low_bytes(prims.take(n as int)[j].0 as u64, 8) + low_bytes(texts[j], 8),
    );
    if n == 0 {
        reveal_with_fuel(Seq::fold_left, 2);
        assert(all =~= Seq::empty());
    } else {
        lemma_prims_hash(h, prims, texts, (n - 1) as nat);
        let m = (n - 1) as nat;
        let rest = Seq::new(
            m,
            |j: int| low_bytes(prims.take(m as int)[j].0 as u64, 8) + low_bytes(texts[j], 8),
        );
        assert(all.drop_last() =~= rest);
        assert(all.flatten_alt() == rest.flatten_alt() + all.last());
        let g = bytes_hash(h, rest.flatten_alt());
        let (x, y) = (low_bytes(prims[n - 1].0 as u64, 8), low_bytes(texts[n - 1], 8));
        lemma_hash_append(h, rest.flatten_alt(), all.last());
        lemma_hash_append(g, x, y);
        words_are_hashed_from_below(g, prims[n - 1].0 as u64, 8);
        words_are_hashed_from_below(bytes_hash(g, x), texts[n - 1], 8);
    }
}

/// The structural hash of an e-node is the hash of the bytes that tell it.
pub proof fn structure_is_hashed(
    graph: &ClassGraph,
    texts: Seq<Seq<u64>>,
    hashes: Seq<u64>,
    e: int,
)
    ensures
        struct_hash(graph, texts, hashes, e) == bytes_hash(
            0xcbf2_9ce4_8422_2325,
            enode_bytes(graph, texts, hashes, e),
        ),
{
    let x = graph.enodes@[e];
    let name = encode_utf8(graph.funcs@[x.func as int].term_name@);
    let off: u64 = 0xcbf2_9ce4_8422_2325;
    let (c, p) = (child_bytes(x.ch_eq@, hashes), prim_bytes(x.ch_prim@, texts[e]));
    hashes_go_byte_by_byte(off, name);
    let h = fnv_seq(off, name);
    lemma_children_hash(h, x.ch_eq@, hashes, x.ch_eq@.len());
    assert(x.ch_eq@.take(x.ch_eq@.len() as int) =~= x.ch_eq@);
    let g = mix_children(h, x.ch_eq@, hashes, x.ch_eq@.len());
    lemma_prims_hash(g, x.ch_prim@, texts[e], x.ch_prim@.len());
    assert(x.ch_prim@.take(x.ch_prim@.len() as int) =~= x.ch_prim@);
    lemma_hash_append(off, name, c);
    lemma_hash_append(off, name + c, p);
}

/// Leaves are hashed as the four lowest bytes of each, from the first to the last.
pub proof fn leaves_are_hashed(s: Seq<u32>)
    ensures
        fnv_words(s) == bytes_hash(
            0xcbf2_9ce4_8422_2325,
            s.map_values(|l: u32| low_bytes(l as u64, 4)).flatten_alt(),
        ),
    decreases s.len(),
{
    let f = |l: u32| low_bytes(l as u64, 4);
    let all = s.map_values(f);
    if s.len() == 0 {
        reveal_with_fuel(Seq::fold_left, 2);
        assert(all =~= Seq::empty());
    } else {
        leaves_are_hashed(s.drop_last());
        let rest = s.drop_last().map_values(f);
        assert(all.drop_last() =~= rest);
        assert(all.flatten_alt() == rest.flatten_alt() + all.last());
        lemma_hash_append(0xcbf2_9ce4_8422_2325, rest.flatten_alt(), all.last());
        words_are_hashed_from_below(fnv_words(s.drop_last()), s.last() as u64, 4);
    }
}

/// The words of the classes with a cheapest e-node, eight bytes each, in order.
pub open spec fn chosen_bytes(best: Seq<Option<usize>>, words: Seq<u64>) -> Seq<u8> {
    Seq::new(
        best.len(),
        |i: int|
            if best[i] is Some {
                low_bytes(words[i], 8)
            } else {
                Seq::empty()
            },
    ).flatten_alt()
}

/// The indices of the cheapest e-nodes.
pub open spec fn chosen_words(best: Seq<Option<usize>>) -> Seq<u64> {
    Seq::new(
        best.len(),
        |i: int|
            match best[i] {
                Some(e) => e as u64,
                None => 0,
            },
    )
}

/// The digests of an extractor hash, over the classes that have a cheapest e-node, their
/// structural hashes and the indices of these e-nodes.
pub proof fn digests_take_in_every_choice(best: Seq<Option<usize>>, hashes: Seq<u64>)
    requires
        hashes.len() == best.len(),
    ensures
        hash_digest(best, hashes, best.len()) == bytes_hash(
            0xcbf2_9ce4_8422_2325,
            chosen_bytes(best, hashes),
        ),
        choice_digest(best, best.len()) == bytes_hash(
            0xcbf2_9ce4_8422_2325,
            chosen_bytes(best, chosen_words(best)),
        ),
{
    let n = best.len();
    lemma_hash_digest(best, hashes, n);
    lemma_choice_digest(best, n);
    assert(best.take(n as int) =~= best);
    assert(chosen_words(best).take(n as int) =~= chosen_words(best));
    assert(hashes.take(n as int) =~= hashes);
}

proof fn lemma_chosen_step(best: Seq<Option<usize>>, words: Seq<u64>, n: nat)
    requires
        0 < n <= best.len(),
        words.len() == best.len(),
    ensures
        chosen_bytes(best.take(n as int), words.take(n as int)) == chosen_bytes(
            best.take(n - 1),
            words.take(n - 1),
        ) + if best[n - 1] is Some {
            low_bytes(words[n - 1], 8)
        } else {
            Seq::empty()
        },
{
    let (a, b) = (best.take(n as int), words.take(n as int));
    let (c, d) = (best.take(n - 1), words.take(n - 1));
    let all = Seq::new(
        a.len(),
        |i: int|
            if a[i] is Some {
                low_bytes(b[i], 8)
            } else {
                Seq::empty()
            },
    );
    let rest = Seq::new(
        c.len(),
        |i: int|
            if c[i] is Some {
                low_bytes(d[i], 8)
            } else {
                Seq::empty()
            },
    );
    assert(all.drop_last() =~= rest);
}

proof fn lemma_hash_digest(best: Seq<Option<usize>>, hashes: Seq<u64>, n: nat)
    requires
        n <= best.len(),
        hashes.len() == best.len(),
    ensures
        hash_digest(best, hashes, n) == bytes_hash(
            0xcbf2_9ce4_8422_2325,
            chosen_bytes(best.take(n as int), hashes.take(n as int)),
        ),
    decreases n,
{
    let off: u64 = 0xcbf2_9ce4_8422_2325;
    if n == 0 {
        reveal_with_fuel(Seq::fold_left, 2);
        assert(chosen_bytes(best.take(0), hashes.take(0)) =~= Seq::empty());
    } else {
        lemma_hash_digest(best, hashes, (n - 1) as nat);
        lemma_chosen_step(best, hashes, n);
        let rest = chosen_bytes(best.take(n - 1), hashes.take(n - 1));
        lemma_hash_append(off, rest, low_bytes(hashes[n - 1], 8));
        words_are_hashed_from_below(bytes_hash(off, rest), hashes[n - 1], 8);
        assert(rest + Seq::<u8>::empty() =~= rest);
    }
}

proof fn lemma_choice_digest(best: Seq<Option<usize>>, n: nat)
    requires
        n <= best.len(),
    ensures
        choice_digest(best, n) == bytes_hash(
            0xcbf2_9ce4_8422_2325,
            chosen_bytes(best.take(n as int), chosen_words(best).take(n as int)),
        ),
    decreases n,
{
    let off: u64 = 0xcbf2_9ce4_8422_2325;
    let words = chosen_words(best);
    if n == 0 {
        reveal_with_fuel(Seq::fold_left, 2);
        assert(chosen_bytes(best.take(0), words.take(0)) =~= Seq::empty());
    } else {
        lemma_choice_digest(best, (n - 1) as nat);
        lemma_chosen_step(best, words, n);
        let rest = chosen_bytes(best.take(n - 1), words.take(n - 1));
        lemma_hash_append(off, rest, low_bytes(words[n - 1], 8));
        words_are_hashed_from_below(bytes_hash(off, rest), words[n - 1], 8);
        assert(rest + Seq::<u8>::empty() =~= rest);
    }
}

} // verus!
