//! What a cut list says of its class, in plain terms.
use vstd::prelude::*;

use crate::class_graph::ClassGraph;
use crate::complete::{
    all_kept, cuts_are_complete, first_merge, has_first_merge, merged_at, uncapped, unions_are_kept,
};
use crate::cut::{composition_is_sound, cut_value, gate_value, leaf_minterm, CutView};
use crate::enumerate::{
    considered, enumerable, enumeration, enumeration_is_complete, gate_of, list_ok, merges_of,
    operand_leaves, operands, realized, some_has, trivial, volume_sum, CutError, CutParams, Sweep,
};
use crate::kernel::{conflicting, has_const, has_leaf, kernel_at, kind_of, ClassKind, Kernel};
use crate::leaves::{increasing, subset};
use crate::merge::{products, selects, union_of};
use crate::truth::{bit, lemma_pack_bit, lemma_pack_ext, lemma_pow2_small, pack, pow2};

verus! {

// ------------------------------------------------------------------------- kinds

/// The e-node is the constant `c`.
pub open spec fn is_const(graph: &ClassGraph, kernels: Seq<Kernel>, e: int, c: u64) -> bool {
    kernels[graph.enodes@[e].func as int] == Kernel::Const(c)
}

/// A class is a constant if one of its e-nodes is, and unsound if two of them are different
/// ones; otherwise it is a primary input if one of its e-nodes is.
pub proof fn kinds_follow_the_enodes(graph: &ClassGraph, kernels: Seq<Kernel>, v: int)
    requires
        graph.wf(),
        0 <= v < graph.size(),
    ensures
        ({
            let es = graph.enodes_of@[v]@;
            let two = exists|a: usize, b: usize, c: u64, d: u64|
                es.contains(a) && es.contains(b) && #[trigger] is_const(graph, kernels, a as int, c)
                    && #[trigger] is_const(graph, kernels, b as int, d) && c != d;
            let leaf = exists|a: usize| #[trigger]
                es.contains(a) && kernels[graph.enodes@[a as int].func as int] == Kernel::Leaf;
            &&& kind_of(graph, kernels, v) is None <==> two
            &&& forall|c: u64|
                kind_of(graph, kernels, v) == Some(ClassKind::Const(c)) <==> !two && exists|
                    a: usize,
                | es.contains(a) && #[trigger] is_const(graph, kernels, a as int, c)
            &&& kind_of(graph, kernels, v) == Some(ClassKind::Pi) <==> leaf && !(exists|
                a: usize,
                c: u64,
            | es.contains(a) && #[trigger] is_const(graph, kernels, a as int, c))
        }),
{
    let es = graph.enodes_of@[v]@;
    assert forall|i: int| 0 <= i < es.len() implies #[trigger] kernel_at(graph, kernels, v, i)
        == kernels[graph.enodes@[es[i] as int].func as int] by {}
    let two = exists|a: usize, b: usize, c: u64, d: u64|
        es.contains(a) && es.contains(b) && #[trigger] is_const(graph, kernels, a as int, c)
            && #[trigger] is_const(graph, kernels, b as int, d) && c != d;
    if conflicting(graph, kernels, v) {
        let (i, j) = choose|i: int, j: int|
            0 <= i < j < es.len() && (#[trigger] kernel_at(graph, kernels, v, i)) is Const && (
            #[trigger] kernel_at(graph, kernels, v, j)) is Const && kernel_at(
                graph,
                kernels,
                v,
                i,
            ) != kernel_at(graph, kernels, v, j);
        let (a, b) = (es[i], es[j]);
        let c = kernel_at(graph, kernels, v, i)->Const_0;
        let d = kernel_at(graph, kernels, v, j)->Const_0;
        assert(is_const(graph, kernels, a as int, c) && is_const(graph, kernels, b as int, d));
        assert(es.contains(a) && es.contains(b));
        assert(two);
    }
    if two {
        let (a, b, c, d) = choose|a: usize, b: usize, c: u64, d: u64|
            es.contains(a) && es.contains(b) && #[trigger] is_const(graph, kernels, a as int, c)
                && #[trigger] is_const(graph, kernels, b as int, d) && c != d;
        let i = choose|i: int| 0 <= i < es.len() && es[i] == a;
        let j = choose|j: int| 0 <= j < es.len() && es[j] == b;
        assert(kernel_at(graph, kernels, v, i) == Kernel::Const(c));
        assert(kernel_at(graph, kernels, v, j) == Kernel::Const(d));
        assert(i != j);
        if i < j {
            assert(kernel_at(graph, kernels, v, i) != kernel_at(graph, kernels, v, j));
        } else {
            assert(kernel_at(graph, kernels, v, j) != kernel_at(graph, kernels, v, i));
        }
        assert(conflicting(graph, kernels, v));
    }
    assert forall|c: u64| #[trigger] has_const(graph, kernels, v, c) <==> exists|a: usize|
        es.contains(a) && #[trigger] is_const(graph, kernels, a as int, c) by {
        if has_const(graph, kernels, v, c) {
            let i = choose|i: int|
                0 <= i < es.len() && #[trigger] kernel_at(graph, kernels, v, i) == Kernel::Const(c);
            assert(es.contains(es[i]) && is_const(graph, kernels, es[i] as int, c));
        }
        if exists|a: usize| es.contains(a) && #[trigger] is_const(graph, kernels, a as int, c) {
            let a = choose|a: usize|
                es.contains(a) && #[trigger] is_const(graph, kernels, a as int, c);
            let i = choose|i: int| 0 <= i < es.len() && es[i] == a;
            assert(kernel_at(graph, kernels, v, i) == Kernel::Const(c));
        }
    }
    assert forall|c: u64|
        kind_of(graph, kernels, v) == Some(ClassKind::Const(c)) <==> !two && exists|a: usize|
            es.contains(a) && #[trigger] is_const(graph, kernels, a as int, c) by {
        if !two && exists|a: usize|
            es.contains(a) && #[trigger] is_const(graph, kernels, a as int, c) {
            assert(has_const(graph, kernels, v, c));
            let d = choose|d: u64| has_const(graph, kernels, v, d);
            assert(has_const(graph, kernels, v, d));
            let a = choose|a: usize|
                es.contains(a) && #[trigger] is_const(graph, kernels, a as int, c);
            let b = choose|b: usize|
                es.contains(b) && #[trigger] is_const(graph, kernels, b as int, d);
            assert(c == d);
        }
        if kind_of(graph, kernels, v) == Some(ClassKind::Const(c)) {
            assert(has_const(graph, kernels, v, c));
        }
    }
    let any = exists|a: usize, c: u64|
        es.contains(a) && #[trigger] is_const(graph, kernels, a as int, c);
    if any {
        let (a, c) = choose|a: usize, c: u64|
            es.contains(a) && #[trigger] is_const(graph, kernels, a as int, c);
        assert(has_const(graph, kernels, v, c));
    }
    if exists|c: u64| has_const(graph, kernels, v, c) {
        let c = choose|c: u64| has_const(graph, kernels, v, c);
        assert(has_const(graph, kernels, v, c));
        assert(any);
    }
    let leaf = exists|a: usize| #[trigger]
        es.contains(a) && kernels[graph.enodes@[a as int].func as int] == Kernel::Leaf;
    if has_leaf(graph, kernels, v) {
        let i = choose|i: int|
            0 <= i < es.len() && #[trigger] kernel_at(graph, kernels, v, i) == Kernel::Leaf;
        assert(es.contains(es[i]));
        assert(leaf);
    }
    if leaf {
        let a = choose|a: usize| #[trigger]
            es.contains(a) && kernels[graph.enodes@[a as int].func as int] == Kernel::Leaf;
        let i = choose|i: int| 0 <= i < es.len() && es[i] == a;
        assert(kernel_at(graph, kernels, v, i) == Kernel::Leaf);
    }
    if two {
        let (a, b, c, d) = choose|a: usize, b: usize, c: u64, d: u64|
            es.contains(a) && es.contains(b) && #[trigger] is_const(graph, kernels, a as int, c)
                && #[trigger] is_const(graph, kernels, b as int, d) && c != d;
        assert(any);
    }
}

// ------------------------------------------------------------------------- lists

/// Every class of the cone has a list, and no other. Its first cut is the class as its own
/// leaf, or the constant that it is; only a class that is neither a constant nor an input has
/// others. The list keeps to the limits: as many cuts as are asked for, of as many leaves, in
/// ascending order.
pub proof fn lists_keep_to_the_limits(
    graph: &ClassGraph,
    params: CutParams,
    kernels: Seq<Kernel>,
    cone: Seq<bool>,
    st: Sweep,
    v: int,
)
    requires
        enumerable(graph, params, kernels, cone),
        enumeration(graph, params, kernels, cone) == Ok::<Sweep, CutError>(st),
        0 <= v < graph.size(),
    ensures
        cone[v] <==> st.cuts[v].len() > 0,
        2 <= params.k <= 6,
        st.cuts[v].len() > 0 ==> {
            let c = st.cuts[v][0];
            &&& c.realization is None
            &&& c.nnodes == 0
            &&& match kind_of(graph, kernels, v) {
                Some(ClassKind::Const(b)) => c.leaves.len() == 0 && c.tt == b,
                Some(_) => c.leaves.len() == 1 && c.leaves[0] == v && c.tt == 2,
                None => false,
            }
        },
        st.cuts[v].len() > 1 ==> kind_of(graph, kernels, v) == Some(ClassKind::Internal)
            && st.cuts[v].len() <= params.max_cuts && st.cuts[v].len() <= params.cand_cap + 1,
        forall|i: int|
            0 <= i < st.cuts[v].len() ==> (#[trigger] st.cuts[v][i]).leaves.len() <= params.k
                && forall|a: int, b: int|
                0 <= a < b < st.cuts[v][i].leaves.len() ==> st.cuts[v][i].leaves[a]
                    < st.cuts[v][i].leaves[b],
        forall|i: int, x: u32|
            1 <= i < st.cuts[v].len() && #[trigger] st.cuts[v][i].leaves.contains(x) ==> x != v,
{
    enumeration_is_complete(graph, params, kernels, cone);
    assert(list_ok(graph, params, kernels, cone, st.cuts, st.rank, v));
    assert(cone[v] <==> st.cuts[v].len() > 0);
    if st.cuts[v].len() > 0 {
        assert(trivial(graph, kernels, v, st.cuts[v][0]));
    }
    assert forall|i: int| 0 <= i < st.cuts[v].len() implies (#[trigger] st.cuts[v][i]).leaves.len()
        <= params.k && forall|a: int, b: int|
        0 <= a < b < st.cuts[v][i].leaves.len() ==> st.cuts[v][i].leaves[a]
            < st.cuts[v][i].leaves[b] by {
        assert(increasing(st.cuts[v][i].leaves));
    }
}

/// The cuts that `chosen` takes of the children of e-node `e`.
pub open spec fn child_cuts(
    graph: &ClassGraph,
    cuts: Seq<Seq<CutView>>,
    e: int,
    chosen: Seq<u32>,
) -> Seq<CutView> {
    Seq::new(
        graph.enodes@[e].ch_eq@.len(),
        |j: int| cuts[graph.enodes@[e].ch_eq@[j] as int][chosen[j] as int],
    )
}

/// Bit `i` of the word `x`.
pub open spec fn bit_of(x: u64, i: u64) -> bool {
    (x >> i) & 1u64 == 1u64
}

/// `w` is the word whose bits are those of `s`, the first one lowest.
pub open spec fn spells(w: u64, s: Seq<bool>) -> bool {
    &&& forall|i: u64| i < s.len() && i < 64 ==> #[trigger] bit_of(w, i) == s[i as int]
    &&& forall|i: u64| s.len() <= i && i < 64 ==> !#[trigger] bit_of(w, i)
}

/// The values of the leaves under an assignment.
pub open spec fn leaf_bits(leaves: Seq<u32>, a: spec_fn(u32) -> bool) -> Seq<bool> {
    leaves.map_values(a)
}

/// Under the assignment `a`, the cut's table has at the leaves' values what the operator's
/// table has at the values that the child cuts' tables have at theirs: `m` spells the values
/// of the leaves, `ws` those of the child cuts' leaves, and `n` those of the child cuts.
pub open spec fn computes(
    c: CutView,
    tt: u64,
    kids: Seq<CutView>,
    a: spec_fn(u32) -> bool,
    m: u64,
    ws: Seq<u64>,
    n: u64,
) -> bool {
    spells(m, leaf_bits(c.leaves, a)) && ws.len() == kids.len() && (forall|j: int|
        0 <= j < kids.len() ==> spells(#[trigger] ws[j], leaf_bits(kids[j].leaves, a))) && spells(
        n,
        Seq::new(kids.len(), |j: int| bit_of(kids[j].tt, ws[j])),
    ) ==> bit_of(c.tt, m) == bit_of(tt, n)
}

proof fn lemma_spells(w: u64, n: nat, f: spec_fn(int) -> bool, s: Seq<bool>)
    requires
        n < 64,
        s.len() == n,
        forall|i: int| 0 <= i < n ==> #[trigger] s[i] == f(i),
        spells(w, s),
    ensures
        w == pack(n, f),
{
    assert forall|i: int| 0 <= i < 64 implies bit(w, i) == bit(pack(n, f), i) by {
        lemma_pack_bit(n, f, i);
        assert(bit_of(w, i as u64) == bit(w, i));
        if i < n {
            assert(bit_of(w, i as u64) == s[i]);
        }
    }
    crate::truth::lemma_eq_by_bits(w, pack(n, f));
}

/// A merged cut is made by an operator of its class over cuts of the operator's children: its
/// leaves are theirs, all of them and no others; its table is the operator applied to their
/// tables, and has no bit beyond its minterms; its cone has one e-node more than theirs
/// together. The e-node is one of the first that are considered, the cuts are taken by one of
/// its first two hundred merges, and no merge before has the same leaves.
pub proof fn cuts_are_made_of_child_cuts(
    graph: &ClassGraph,
    params: CutParams,
    kernels: Seq<Kernel>,
    cone: Seq<bool>,
    st: Sweep,
    v: int,
    i: int,
    a: spec_fn(u32) -> bool,
    m: u64,
    ws: Seq<u64>,
    n: u64,
) -> (r: (int, int))
    requires
        enumerable(graph, params, kernels, cone),
        enumeration(graph, params, kernels, cone) == Ok::<Sweep, CutError>(st),
        0 <= v < graph.size(),
        1 <= i < st.cuts[v].len(),
    ensures
        ({
            let c = st.cuts[v][i];
            let (e, chosen) = c.realization->0;
            let x = graph.enodes@[e as int];
            let kids = child_cuts(graph, st.cuts, e as int, chosen);
            let lists = operand_leaves(graph, st.cuts, e as int);
            &&& c.realization is Some
            &&& 0 <= r.0 < graph.enodes_of@[v]@.len()
            &&& graph.enodes_of@[v]@[r.0] == e
            &&& params.enode_cap matches Some(cap) ==> r.0 < cap
            &&& 0 <= r.1 < 200
            &&& r.1 < products(lists, params.k as nat).len()
            &&& products(lists, params.k as nat)[r.1] == (c.leaves, chosen)
            &&& forall|q: int|
                0 <= q < r.1 ==> (#[trigger] products(lists, params.k as nat)[q]).0 != c.leaves
            &&& chosen.len() == x.ch_eq@.len() > 0
            &&& forall|j: int|
                0 <= j < chosen.len() ==> (#[trigger] chosen[j])
                    < st.cuts[x.ch_eq@[j] as int].len()
            &&& forall|l: u32| #[trigger]
                c.leaves.contains(l) <==> exists|j: int|
                    0 <= j < kids.len() && (#[trigger] kids[j]).leaves.contains(l)
            &&& c.nnodes == kids.map_values(|k: CutView| k.nnodes as int).fold_left(
                1int,
                |s: int, k: int| s + k,
            )
            &&& kernels[x.func as int] matches Kernel::Op { tt } && computes(
                c,
                tt,
                kids,
                a,
                m,
                ws,
                n,
            )
            &&& forall|b: u64|
                pow2(c.leaves.len()) <= b && b < 64 ==> !#[trigger] bit_of(c.tt, b)
        }),
{
    enumeration_is_complete(graph, params, kernels, cone);
    assert(list_ok(graph, params, kernels, cone, st.cuts, st.rank, v));
    let c = st.cuts[v][i];
    assert(realized(graph, kernels, st.cuts, st.rank, v, c));
    let (e, chosen) = c.realization->0;
    let x = graph.enodes@[e as int];
    let kids = child_cuts(graph, st.cuts, e as int, chosen);
    let cs = operands(graph, st.cuts, e as int, chosen);
    assert(kids =~= cs);
    cuts_are_complete(graph, params, kernels, cone, v);
    assert(all_kept(graph, params, kernels, st.cuts, st.rank, v));
    assert(has_first_merge(graph, params, kernels, st.cuts, st.rank, v, st.cuts[v][i]));
    reveal(first_merge);
    let (p, q) = choose|p: int, q: int| #[trigger]
        first_merge(graph, params, kernels, st.cuts, st.rank, v, c, p, q);
    let es = considered(graph, params, v);
    let ms = merges_of(graph, st.cuts, params.k as nat, es[p] as int);
    let lists = operand_leaves(graph, st.cuts, e as int);
    let all = products(lists, params.k as nat);
    assert(es[p] == graph.enodes_of@[v]@[p]);
    assert(graph.enodes_of@[v]@[p] < graph.enodes@.len());
    assert(c.realization == Some((es[p] as int as usize, ms[q].1)));
    assert(es[p] == e);
    assert(ms[q] == all[q]);
    assert forall|b: int| 0 <= b < q implies (#[trigger] all[b]).0 != c.leaves by {
        assert(ms[b] == all[b]);
        assert(crate::cut_laws::comes_before(p, b, p, q));
        assert(merges_of(graph, st.cuts, params.k as nat, es[p] as int)[b].0 != c.leaves);
    }
    lemma_volumes(cs, kids.map_values(|k: CutView| k.nnodes as int));
    assert forall|l: u32| #[trigger] c.leaves.contains(l) <==> exists|j: int|
        0 <= j < kids.len() && (#[trigger] kids[j]).leaves.contains(l) by {
        if c.leaves.contains(l) {
            let y = choose|y: int| 0 <= y < c.leaves.len() && c.leaves[y] == l;
            assert(some_has(cs, c.leaves[y]));
            let j = choose|j: int| 0 <= j < cs.len() && (#[trigger] cs[j]).leaves.contains(l);
            assert(kids[j].leaves.contains(l));
        }
        if exists|j: int| 0 <= j < kids.len() && (#[trigger] kids[j]).leaves.contains(l) {
            let j = choose|j: int| 0 <= j < kids.len() && (#[trigger] kids[j]).leaves.contains(l);
            assert(subset(cs[j].leaves, c.leaves));
            let y = choose|y: int| 0 <= y < cs[j].leaves.len() && cs[j].leaves[y] == l;
            assert(c.leaves.contains(cs[j].leaves[y]));
        }
    }
    lemma_pow2_small(c.leaves.len());
    assert forall|b: u64| pow2(c.leaves.len()) <= b && b < 64 implies !#[trigger] bit_of(
        c.tt,
        b,
    ) by {
        let f = |k: int|
            gate_value(
                gate_of(graph, kernels, e as int)->0,
                cs,
                crate::cut::assignment(c.leaves, k as u64),
            );
        lemma_pack_bit(pow2(c.leaves.len()), f, b as int);
        lemma_pack_ext(
            pow2(c.leaves.len()),
            f,
            |k: int|
                gate_value(
                    gate_of(graph, kernels, e as int)->0,
                    cs,
                    crate::cut::assignment(c.leaves, k as u64),
                ),
        );
        assert(c.tt == pack(pow2(c.leaves.len()), f));
        assert(bit(c.tt, b as int) == bit_of(c.tt, b));
    }
    let tt = gate_of(graph, kernels, e as int)->0;
    assert(computes(c, tt, kids, a, m, ws, n)) by {
        if spells(m, leaf_bits(c.leaves, a)) && ws.len() == kids.len() && (forall|j: int|
            0 <= j < kids.len() ==> spells(#[trigger] ws[j], leaf_bits(kids[j].leaves, a)))
            && spells(n, Seq::new(kids.len(), |j: int| bit_of(kids[j].tt, ws[j]))) {
            composition_is_sound(tt, cs, c.leaves, a);
            let f = |y: int| a(c.leaves[y]);
            lemma_spells(m, c.leaves.len(), f, leaf_bits(c.leaves, a));
            lemma_pack_ext(c.leaves.len(), f, |y: int| a(c.leaves[y]));
            assert(m == leaf_minterm(c.leaves, a));
            let g = |j: int| cut_value(cs[j], a);
            assert forall|j: int| 0 <= j < kids.len() implies #[trigger] bit_of(
                kids[j].tt,
                ws[j],
            ) == g(j) by {
                let k = cs[j];
                assert(k.leaves.len() <= 6);
                assert(spells(ws[j], leaf_bits(kids[j].leaves, a)));
                let f = |y: int| a(k.leaves[y]);
                lemma_spells(ws[j], k.leaves.len(), f, leaf_bits(k.leaves, a));
                lemma_pack_ext(k.leaves.len(), f, |y: int| a(k.leaves[y]));
                assert(ws[j] == leaf_minterm(k.leaves, a));
            }
            let s = Seq::new(kids.len(), |j: int| bit_of(kids[j].tt, ws[j]));
            assert forall|j: int| 0 <= j < kids.len() implies #[trigger] s[j] == g(j) by {
                assert(bit_of(kids[j].tt, ws[j]) == g(j));
            }
            lemma_spells(n, kids.len(), g, s);
            lemma_pack_ext(kids.len(), g, |j: int| cut_value(cs[j], a));
            assert(n == pack(cs.len(), |j: int| cut_value(cs[j], a)));
            assert(bit_of(c.tt, m) == bit(c.tt, m as int));
            assert(bit_of(tt, n) == bit(tt, n as int));
        }
    }
    (p, q)
}

/// Cone sizes add up.
pub(crate) proof fn lemma_volumes(cs: Seq<CutView>, s: Seq<int>)
    requires
        s == cs.map_values(|k: CutView| k.nnodes as int),
    ensures
        s.fold_left(1int, |s: int, k: int| s + k) == 1 + volume_sum(cs),
    decreases cs.len(),
{
    reveal_with_fuel(Seq::fold_left, 2);
    if cs.len() > 0 {
        let t = cs.drop_last().map_values(|k: CutView| k.nnodes as int);
        assert(s.drop_last() =~= t);
        lemma_volumes(cs.drop_last(), t);
    }
}

/// The leaf lists of the cuts of the children of e-node `e`.
pub open spec fn child_leaf_lists(
    graph: &ClassGraph,
    cuts: Seq<Seq<CutView>>,
    e: int,
) -> Seq<Seq<Seq<u32>>> {
    graph.enodes@[e].ch_eq@.map_values(
        |c: u32| cuts[c as int].map_values(|k: CutView| k.leaves),
    )
}

/// Every element of `a` is one of `b`.
pub open spec fn lies_within(a: Seq<u32>, b: Seq<u32>) -> bool {
    forall|x: u32| a.contains(x) ==> #[trigger] b.contains(x)
}

/// Where no cap is reached, every union of cuts of an operator's children with at most `k`
/// leaves contains a cut of the class, if the operator is one of the e-nodes considered, has
/// no more than two hundred such unions, and its children were finished before the class.
pub proof fn every_union_is_covered(
    graph: &ClassGraph,
    params: CutParams,
    kernels: Seq<Kernel>,
    cone: Seq<bool>,
    st: Sweep,
    v: int,
    i: int,
    chosen: Seq<u32>,
)
    requires
        enumerable(graph, params, kernels, cone),
        enumeration(graph, params, kernels, cone) == Ok::<Sweep, CutError>(st),
        0 <= v < graph.size(),
        cone[v],
        kind_of(graph, kernels, v) == Some(ClassKind::Internal),
        uncapped(graph, params, kernels, st.cuts, st.rank, v),
        0 <= i < graph.enodes_of@[v]@.len(),
        params.enode_cap matches Some(c) ==> i < c,
        merged_at(
            graph,
            kernels,
            st.cuts,
            st.rank,
            v,
            graph.enodes_of@[v]@[i] as int,
        ),
        ({
            let lists = child_leaf_lists(graph, st.cuts, graph.enodes_of@[v]@[i] as int);
            &&& chosen.len() == lists.len()
            &&& forall|d: int| 0 <= d < chosen.len() ==> (#[trigger] chosen[d]) < lists[d].len()
            &&& union_of(lists, chosen).len() <= params.k
            &&& products(lists, params.k as nat).len() <= 200
        }),
    ensures
        exists|c: int|
            1 <= c < st.cuts[v].len() && #[trigger] lies_within(
                st.cuts[v][c].leaves,
                union_of(
                    child_leaf_lists(graph, st.cuts, graph.enodes_of@[v]@[i] as int),
                    chosen,
                ),
            ),
{
    let e = graph.enodes_of@[v]@[i] as int;
    let es = considered(graph, params, v);
    assert(es[i] == graph.enodes_of@[v]@[i]);
    let lists = child_leaf_lists(graph, st.cuts, e);
    let others = operand_leaves(graph, st.cuts, e);
    assert forall|d: int| 0 <= d < lists.len() implies lists[d] == others[d] by {
        assert(lists[d] =~= others[d]);
    }
    assert(lists =~= others);
    assert(selects(lists, chosen));
    unions_are_kept(graph, params, kernels, cone, st, v, i, chosen);
    enumeration_is_complete(graph, params, kernels, cone);
    assert(st.cuts[v].len() > 0);
    let u = union_of(lists, chosen);
    let rest = st.cuts[v].drop_first();
    let k = choose|k: int| 0 <= k < rest.len() && subset((#[trigger] rest[k]).leaves, u);
    let c = k + 1;
    assert(rest[k] == st.cuts[v][c]);
    assert forall|x: u32| st.cuts[v][c].leaves.contains(x) implies #[trigger] u.contains(x) by {
        let y = choose|y: int| 0 <= y < st.cuts[v][c].leaves.len() && st.cuts[v][c].leaves[y] == x;
        assert(u.contains(rest[k].leaves[y]));
    }
    assert(lies_within(st.cuts[v][c].leaves, u));
}

} // verus!
