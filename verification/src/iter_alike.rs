//! Cuts of class graphs that are alike.
use egglog::EGraph;
use vstd::prelude::*;

use crate::alike::{alike, enode_alike, func_alike, lemma_reaches_alike, same_graph};
use crate::build_laws::{building_twice_gives_the_same_graph, graphs_ignore_the_order_given};
use crate::class_graph::{ClassGraph, FuncTab};
use crate::cost::Cost;
use crate::cut::cut_lists;
use crate::cut_iter::{
    cone_of, enumerates, iterates, last_kernel, lemma_built, lemma_class_in_range, map_texts,
    names_pi, pi_texts, roots_found, vocabulary, well_shaped, zero_heads, CutIterator, IterError,
};
use crate::enumerate::{
    candidate, component, components, considered, enode_ready, enumeration, gate_of, mergeable,
    merges_of, operand_leaves, operands, pass, passes, pool_class, pool_merges, ready, settle,
    start, usable, visit, CutParams, Pool, Sweep,
};
use crate::kernel::{
    all_kernels, conflicting, has_const, has_leaf, kernel_at, kernel_of, kind_of, lemma_kernel_each,
    lemma_kernel_error_in_range, mapped, Kernel,
};
use crate::reach::{reached, reaches};
use crate::snapshot::{builds, head_names, BuildError, BuildFault};
use crate::stats::{
    cone_lengths, const_classes, cyclic, cyclic_classes, pi_classes, stats_ok, CutStats,
};
use crate::tally::{lemma_count_ext, tally_is_unique};

verus! {

// ------------------------------------------------------------------------ kinds

proof fn lemma_kernel_at_alike(g: &ClassGraph, h: &ClassGraph, ks: Seq<Kernel>, v: int, i: int)
    requires
        alike(g, h),
        g.wf(),
        0 <= v < g.size(),
        0 <= i < g.enodes_of@[v]@.len(),
    ensures
        kernel_at(g, ks, v, i) == kernel_at(h, ks, v, i),
{
    let e = g.enodes_of@[v]@[i];
    assert(g.enodes_of@[v]@ == h.enodes_of@[v]@);
    assert(e < g.enodes@.len());
    assert(enode_alike(g.enodes@[e as int], h.enodes@[e as int]));
}

proof fn lemma_kind_alike(g: &ClassGraph, h: &ClassGraph, ks: Seq<Kernel>, v: int)
    requires
        alike(g, h),
        g.wf(),
        0 <= v < g.size(),
    ensures
        kind_of(g, ks, v) == kind_of(h, ks, v),
{
    let n = g.enodes_of@[v]@.len();
    assert(g.enodes_of@[v]@ == h.enodes_of@[v]@);
    assert forall|i: int| 0 <= i < n implies #[trigger] kernel_at(g, ks, v, i) == kernel_at(
        h,
        ks,
        v,
        i,
    ) by {
        lemma_kernel_at_alike(g, h, ks, v, i);
    }
    assert forall|i: int| 0 <= i < n implies #[trigger] kernel_at(h, ks, v, i) == kernel_at(
        g,
        ks,
        v,
        i,
    ) by {
        lemma_kernel_at_alike(g, h, ks, v, i);
    }
    if conflicting(g, ks, v) {
        let (i, j) = choose|i: int, j: int|
            0 <= i < j < n && (#[trigger] kernel_at(g, ks, v, i)) is Const && (
            #[trigger] kernel_at(g, ks, v, j)) is Const && kernel_at(g, ks, v, i) != kernel_at(
                g,
                ks,
                v,
                j,
            );
        assert(kernel_at(h, ks, v, i) != kernel_at(h, ks, v, j));
        assert(conflicting(h, ks, v));
    }
    if conflicting(h, ks, v) {
        let (i, j) = choose|i: int, j: int|
            0 <= i < j < n && (#[trigger] kernel_at(h, ks, v, i)) is Const && (
            #[trigger] kernel_at(h, ks, v, j)) is Const && kernel_at(h, ks, v, i) != kernel_at(
                h,
                ks,
                v,
                j,
            );
        assert(kernel_at(g, ks, v, i) != kernel_at(g, ks, v, j));
        assert(conflicting(g, ks, v));
    }
    assert forall|c: u64| #[trigger] has_const(g, ks, v, c) == has_const(h, ks, v, c) by {
        if has_const(g, ks, v, c) {
            let i = choose|i: int|
                0 <= i < n && #[trigger] kernel_at(g, ks, v, i) == Kernel::Const(c);
            assert(kernel_at(h, ks, v, i) == Kernel::Const(c));
        }
        if has_const(h, ks, v, c) {
            let i = choose|i: int|
                0 <= i < n && #[trigger] kernel_at(h, ks, v, i) == Kernel::Const(c);
            assert(kernel_at(g, ks, v, i) == Kernel::Const(c));
        }
    }
    assert(has_leaf(g, ks, v) == has_leaf(h, ks, v)) by {
        if has_leaf(g, ks, v) {
            let i = choose|i: int| 0 <= i < n && #[trigger] kernel_at(g, ks, v, i) == Kernel::Leaf;
            assert(kernel_at(h, ks, v, i) == Kernel::Leaf);
        }
        if has_leaf(h, ks, v) {
            let i = choose|i: int| 0 <= i < n && #[trigger] kernel_at(h, ks, v, i) == Kernel::Leaf;
            assert(kernel_at(g, ks, v, i) == Kernel::Leaf);
        }
    }
    if exists|c: u64| has_const(h, ks, v, c) {
        let y = choose|c: u64| has_const(h, ks, v, c);
        assert(has_const(g, ks, v, y));
    }
    if !conflicting(g, ks, v) && exists|c: u64| has_const(g, ks, v, c) {
        let x = choose|c: u64| has_const(g, ks, v, c);
        assert(has_const(h, ks, v, x));
        let y = choose|c: u64| has_const(h, ks, v, c);
        assert(has_const(g, ks, v, y));
        let i = choose|i: int| 0 <= i < n && #[trigger] kernel_at(g, ks, v, i) == Kernel::Const(x);
        let j = choose|j: int| 0 <= j < n && #[trigger] kernel_at(g, ks, v, j) == Kernel::Const(y);
        if x != y {
            if i < j {
                assert(kernel_at(g, ks, v, i) != kernel_at(g, ks, v, j));
            } else {
                assert(kernel_at(g, ks, v, j) != kernel_at(g, ks, v, i));
            }
        }
    }
}

// ------------------------------------------------------------------- candidates

proof fn lemma_pool_merges_alike(
    g: &ClassGraph,
    h: &ClassGraph,
    ks: Seq<Kernel>,
    st: Sweep,
    ei: int,
    ms: Seq<(Seq<u32>, Seq<u32>)>,
    n: nat,
    pool: Pool,
)
    requires
        alike(g, h),
        0 <= ei < g.enodes@.len(),
    ensures
        pool_merges(g, ks, st.cuts, ei, ms, n, pool) == pool_merges(
            h,
            ks,
            st.cuts,
            ei,
            ms,
            n,
            pool,
        ),
    decreases n,
{
    if n > 0 {
        lemma_pool_merges_alike(g, h, ks, st, ei, ms, (n - 1) as nat, pool);
        assert(enode_alike(g.enodes@[ei], h.enodes@[ei]));
        assert(operands(g, st.cuts, ei, ms[n - 1].1) =~= operands(h, st.cuts, ei, ms[n - 1].1));
        assert(gate_of(g, ks, ei) == gate_of(h, ks, ei));
        assert(candidate(g, ks, st.cuts, ei, ms[n - 1]) == candidate(
            h,
            ks,
            st.cuts,
            ei,
            ms[n - 1],
        ));
    }
}

proof fn lemma_ready_alike(g: &ClassGraph, h: &ClassGraph, si: int, done: Seq<bool>, ei: int)
    requires
        alike(g, h),
        0 <= ei < g.enodes@.len(),
    ensures
        enode_ready(g, si, done, ei) == enode_ready(h, si, done, ei),
{
    assert(enode_alike(g.enodes@[ei], h.enodes@[ei]));
    assert(g.children(ei) == h.children(ei));
    if enode_ready(g, si, done, ei) {
        assert forall|j: int| 0 <= j < h.children(ei).len() implies ready(
            h,
            si,
            done,
            #[trigger] h.children(ei)[j],
        ) by {
            assert(ready(g, si, done, g.children(ei)[j]));
        }
    }
    if enode_ready(h, si, done, ei) {
        assert forall|j: int| 0 <= j < g.children(ei).len() implies ready(
            g,
            si,
            done,
            #[trigger] g.children(ei)[j],
        ) by {
            assert(ready(h, si, done, h.children(ei)[j]));
        }
    }
}

proof fn lemma_pool_class_alike(
    g: &ClassGraph,
    h: &ClassGraph,
    params: CutParams,
    ks: Seq<Kernel>,
    st: Sweep,
    si: int,
    v: int,
    n: nat,
)
    requires
        alike(g, h),
        g.wf(),
        0 <= v < g.size(),
        n <= considered(g, params, v).len(),
    ensures
        pool_class(g, params, ks, st.cuts, st.done, si, v, n) == pool_class(
            h,
            params,
            ks,
            st.cuts,
            st.done,
            si,
            v,
            n,
        ),
    decreases n,
{
    if n > 0 {
        lemma_pool_class_alike(g, h, params, ks, st, si, v, (n - 1) as nat);
        assert(g.enodes_of@[v]@ == h.enodes_of@[v]@);
        assert(considered(g, params, v) == considered(h, params, v));
        let e = considered(g, params, v)[n - 1];
        assert(e == g.enodes_of@[v]@[n - 1]);
        assert(e < g.enodes@.len());
        let ei = e as int;
        if let Some(p) = pool_class(g, params, ks, st.cuts, st.done, si, v, (n - 1) as nat) {
            lemma_ready_alike(g, h, si, st.done, ei);
            assert(enode_alike(g.enodes@[ei], h.enodes@[ei]));
            assert(mergeable(g, ks, si, st.done, ei) == mergeable(h, ks, si, st.done, ei));
            assert(operand_leaves(g, st.cuts, ei) =~= operand_leaves(h, st.cuts, ei));
            let ms = merges_of(g, st.cuts, params.k as nat, ei);
            assert(ms == merges_of(h, st.cuts, params.k as nat, ei));
            lemma_pool_merges_alike(g, h, ks, st, ei, ms, ms.len(), p);
        }
    }
}

// ----------------------------------------------------------------------- sweeps

proof fn lemma_usable_alike(g: &ClassGraph, h: &ClassGraph, si: int, done: Seq<bool>, v: int)
    requires
        alike(g, h),
        g.wf(),
        0 <= v < g.size(),
    ensures
        usable(g, si, done, v) == usable(h, si, done, v),
{
    let list = g.enodes_of@[v]@;
    assert(list == h.enodes_of@[v]@);
    assert forall|i: int| 0 <= i < list.len() implies enode_ready(
        g,
        si,
        done,
        #[trigger] list[i] as int,
    ) == enode_ready(h, si, done, list[i] as int) by {
        assert(g.enodes_of@[v]@[i] < g.enodes@.len());
        lemma_ready_alike(g, h, si, done, list[i] as int);
    }
    if usable(g, si, done, v) {
        let i = choose|i: int|
            0 <= i < list.len() && enode_ready(g, si, done, #[trigger] g.enodes_of@[v]@[i] as int);
        assert(enode_ready(h, si, done, h.enodes_of@[v]@[i] as int));
    }
    if usable(h, si, done, v) {
        let i = choose|i: int|
            0 <= i < list.len() && enode_ready(h, si, done, #[trigger] h.enodes_of@[v]@[i] as int);
        assert(enode_ready(g, si, done, g.enodes_of@[v]@[i] as int));
    }
}

proof fn lemma_visit_alike(
    g: &ClassGraph,
    h: &ClassGraph,
    params: CutParams,
    ks: Seq<Kernel>,
    cone: Seq<bool>,
    si: int,
    st: Sweep,
    v: u32,
)
    requires
        alike(g, h),
        g.wf(),
        v < g.size(),
    ensures
        visit(g, params, ks, cone, si, st, v) == visit(h, params, ks, cone, si, st, v),
{
    lemma_kind_alike(g, h, ks, v as int);
    lemma_usable_alike(g, h, si, st.done, v as int);
    assert(g.enodes_of@[v as int]@ == h.enodes_of@[v as int]@);
    let n = considered(g, params, v as int).len();
    assert(n == considered(h, params, v as int).len());
    lemma_pool_class_alike(g, h, params, ks, st, si, v as int, n);
}

proof fn lemma_pass_alike(
    g: &ClassGraph,
    h: &ClassGraph,
    params: CutParams,
    ks: Seq<Kernel>,
    cone: Seq<bool>,
    si: int,
    st: Sweep,
    n: nat,
)
    requires
        alike(g, h),
        g.wf(),
        0 <= si < g.sccs@.len(),
        n <= g.sccs@[si]@.len(),
    ensures
        pass(g, params, ks, cone, si, st, n) == pass(h, params, ks, cone, si, st, n),
    decreases n,
{
    if n > 0 {
        lemma_pass_alike(g, h, params, ks, cone, si, st, (n - 1) as nat);
        assert(g.sccs@[si]@ == h.sccs@[si]@);
        assert(g.sccs@[si]@[n - 1] < g.size());
        if let Ok((mid, _)) = pass(g, params, ks, cone, si, st, (n - 1) as nat) {
            lemma_visit_alike(g, h, params, ks, cone, si, mid, g.sccs@[si]@[n - 1]);
        }
    }
}

proof fn lemma_passes_alike(
    g: &ClassGraph,
    h: &ClassGraph,
    params: CutParams,
    ks: Seq<Kernel>,
    cone: Seq<bool>,
    si: int,
    st: Sweep,
    fuel: nat,
)
    requires
        alike(g, h),
        g.wf(),
        0 <= si < g.sccs@.len(),
    ensures
        passes(g, params, ks, cone, si, st, fuel) == passes(h, params, ks, cone, si, st, fuel),
    decreases fuel,
{
    if fuel > 0 {
        let n = g.sccs@[si]@.len();
        assert(g.sccs@[si]@ == h.sccs@[si]@);
        lemma_pass_alike(g, h, params, ks, cone, si, st, n);
        if let Ok((next, _)) = pass(g, params, ks, cone, si, st, n) {
            lemma_passes_alike(g, h, params, ks, cone, si, next, (fuel - 1) as nat);
        }
    }
}

proof fn lemma_settle_alike(
    g: &ClassGraph,
    h: &ClassGraph,
    cone: Seq<bool>,
    si: int,
    st: Sweep,
    n: nat,
)
    requires
        alike(g, h),
        0 <= si < g.sccs@.len(),
    ensures
        settle(g, cone, si, st, n) == settle(h, cone, si, st, n),
    decreases n,
{
    if n > 0 {
        lemma_settle_alike(g, h, cone, si, st, (n - 1) as nat);
        assert(g.sccs@[si]@ == h.sccs@[si]@);
    }
}

proof fn lemma_components_swept_alike(
    g: &ClassGraph,
    h: &ClassGraph,
    params: CutParams,
    ks: Seq<Kernel>,
    cone: Seq<bool>,
    n: nat,
)
    requires
        alike(g, h),
        g.wf(),
        n <= g.sccs@.len(),
    ensures
        components(g, params, ks, cone, n) == components(h, params, ks, cone, n),
    decreases n,
{
    if n == 0 {
        assert(start(g) =~= start(h));
    } else {
        lemma_components_swept_alike(g, h, params, ks, cone, (n - 1) as nat);
        if let Ok(st) = components(g, params, ks, cone, (n - 1) as nat) {
            let si = n - 1;
            let len = g.sccs@[si]@.len();
            assert(g.sccs@[si]@ == h.sccs@[si]@);
            lemma_passes_alike(g, h, params, ks, cone, si, st, len + 1);
            if let Ok(mid) = passes(g, params, ks, cone, si, st, len + 1) {
                lemma_settle_alike(g, h, cone, si, mid, len);
            }
            assert(component(g, params, ks, cone, si, st) == component(
                h,
                params,
                ks,
                cone,
                si,
                st,
            ));
        }
    }
}

/// Graphs that are alike have the same cuts.
pub proof fn cuts_ignore_the_numbers(
    g: &ClassGraph,
    h: &ClassGraph,
    params: CutParams,
    ks: Seq<Kernel>,
    cone: Seq<bool>,
)
    requires
        alike(g, h),
        g.wf(),
    ensures
        enumeration(g, params, ks, cone) == enumeration(h, params, ks, cone),
{
    lemma_components_swept_alike(g, h, params, ks, cone, g.sccs@.len());
}

// -------------------------------------------------------------------- iterators

/// The same numbers.
pub open spec fn same_stats(x: CutStats, y: CutStats) -> bool {
    &&& x.k == y.k
    &&& x.max_cuts == y.max_cuts
    &&& x.num_classes_graph == y.num_classes_graph
    &&& x.num_classes_cone == y.num_classes_cone
    &&& x.num_pi_classes == y.num_pi_classes
    &&& x.num_const_classes == y.num_const_classes
    &&& x.num_trivial_only == y.num_trivial_only
    &&& x.num_cyclic_classes == y.num_cyclic_classes
    &&& x.total_nontrivial_cuts == y.total_nontrivial_cuts
    &&& x.tt_conflicts == y.tt_conflicts
    &&& x.max_cuts_per_class == y.max_cuts_per_class
    &&& x.hist@ == y.hist@
}

proof fn lemma_stats_alike(
    g: &ClassGraph,
    h: &ClassGraph,
    params: CutParams,
    ks: Seq<Kernel>,
    cone: Seq<bool>,
    st: Sweep,
    x: CutStats,
    y: CutStats,
)
    requires
        alike(g, h),
        g.wf(),
        stats_ok(g, params, ks, cone, st, x),
        stats_ok(h, params, ks, cone, st, y),
    ensures
        same_stats(x, y),
{
    let n = g.size();
    assert forall|v: int| 0 <= v < n implies #[trigger] pi_classes(g, ks, cone)(v) == pi_classes(
        h,
        ks,
        cone,
    )(v) by {
        lemma_kind_alike(g, h, ks, v);
    }
    lemma_count_ext(n, pi_classes(g, ks, cone), pi_classes(h, ks, cone));
    assert forall|v: int| 0 <= v < n implies #[trigger] const_classes(g, ks, cone)(v)
        == const_classes(h, ks, cone)(v) by {
        lemma_kind_alike(g, h, ks, v);
    }
    lemma_count_ext(n, const_classes(g, ks, cone), const_classes(h, ks, cone));
    assert forall|v: int| 0 <= v < n implies #[trigger] cyclic_classes(g)(v) == cyclic_classes(
        h,
    )(v) by {
        let s = g.scc_of@[v] as int;
        assert(g.scc_of@[v] < g.sccs@.len());
        assert(g.sccs@[s]@ == h.sccs@[s]@);
        assert(g.adj@[v]@ == h.adj@[v]@);
        assert(cyclic(g, v) == cyclic(h, v));
    }
    lemma_count_ext(n, cyclic_classes(g), cyclic_classes(h));
    tally_is_unique(
        x.hist@.reverse(),
        y.hist@.reverse(),
        cone_lengths(cone, st.cuts, n),
    );
    assert(x.hist@ =~= x.hist@.reverse().reverse());
    assert(y.hist@ =~= y.hist@.reverse().reverse());
}

proof fn lemma_kernels_alike(
    x: Seq<FuncTab>,
    y: Seq<FuncTab>,
    a: Seq<(String, String)>,
    b: Seq<(String, String)>,
    n: nat,
)
    requires
        n <= x.len(),
        x.len() == y.len(),
        forall|f: int| 0 <= f < x.len() ==> func_alike(#[trigger] x[f], y[f]),
        forall|name: Seq<char>| #[trigger] mapped(a, name) == mapped(b, name),
    ensures
        all_kernels(x, a, n) == all_kernels(y, b, n),
    decreases n,
{
    if n > 0 {
        lemma_kernels_alike(x, y, a, b, (n - 1) as nat);
        assert(func_alike(x[n - 1], y[n - 1]));
        assert(kernel_of(&x[n - 1], (n - 1) as usize, a) == kernel_of(
            &y[n - 1],
            (n - 1) as usize,
            b,
        ));
    }
}

proof fn lemma_cone_alike(g: &ClassGraph, h: &ClassGraph, ids: Seq<u32>)
    requires
        alike(g, h),
        g.wf(),
        h.wf(),
        forall|i: int| 0 <= i < ids.len() ==> #[trigger] ids[i] < g.size(),
    ensures
        cone_of(g, ids) == cone_of(h, ids),
{
    assert forall|v: int| 0 <= v < g.size() implies #[trigger] cone_of(g, ids)[v] == cone_of(
        h,
        ids,
    )[v] by {
        if reached(g.adj@, ids, v as u32) {
            let i = choose|i: int|
                0 <= i < ids.len() && reaches(g.adj@, #[trigger] ids[i], v as u32);
            lemma_reaches_alike(g.size(), g.adj@, h.adj@, ids[i], v as u32);
        }
        if reached(h.adj@, ids, v as u32) {
            let i = choose|i: int|
                0 <= i < ids.len() && reaches(h.adj@, #[trigger] ids[i], v as u32);
            lemma_reaches_alike(g.size(), h.adj@, g.adj@, ids[i], v as u32);
        }
    }
    assert(cone_of(g, ids) =~= cone_of(h, ids));
}

proof fn lemma_pi_texts_same(eg: EGraph, g: &ClassGraph, h: &ClassGraph, ks: Seq<Kernel>, n: nat)
    requires
        same_graph(g, h),
        n <= g.enodes@.len(),
    ensures
        pi_texts(eg, g, ks, n) == pi_texts(eg, h, ks, n),
    decreases n,
{
    if n > 0 {
        lemma_pi_texts_same(eg, g, h, ks, (n - 1) as nat);
        assert(enode_alike(g.enodes@[n - 1], h.enodes@[n - 1]));
        assert(g.enodes@[n - 1].ch_prim@ == h.enodes@[n - 1].ch_prim@);
        assert(names_pi(g, ks, n - 1) == names_pi(h, ks, n - 1));
    }
}

proof fn lemma_last_kernel_same(
    ks: Seq<Kernel>,
    k: Kernel,
    x: Option<usize>,
    y: Option<usize>,
)
    requires
        ks.len() <= usize::MAX,
        last_kernel(ks, k, ks.len() as int, x),
        last_kernel(ks, k, ks.len() as int, y),
    ensures
        x == y,
{
    match (x, y) {
        (Some(i), Some(j)) => {
            if i < j {
                assert(ks[j as int] != k);
            } else if j < i {
                assert(ks[i as int] != k);
            }
        },
        (Some(i), None) => {
            assert(ks[i as int] != k);
        },
        (None, Some(j)) => {
            assert(ks[j as int] != k);
        },
        (None, None) => {},
    }
}

proof fn lemma_roots_in_range(
    g: &ClassGraph,
    eg: EGraph,
    sort: Seq<char>,
    roots: Seq<u32>,
    n: nat,
)
    requires
        well_shaped(g),
    ensures
        roots_found(eg, sort, g.class_index@, roots, n) matches Ok(ids) ==> forall|i: int|
            0 <= i < ids.len() ==> #[trigger] ids[i] < g.size(),
    decreases n,
{
    if n > 0 {
        lemma_roots_in_range(g, eg, sort, roots, (n - 1) as nat);
        lemma_class_in_range(g, eg, sort, roots[n - 1]);
    }
}

/// The iterators agree in everything: graph, kernels, cone, cuts, statistics and names.
pub open spec fn same_iterator(x: CutIterator, y: CutIterator) -> bool {
    &&& same_graph(&x.graph, &y.graph)
    &&& x.kernels@ == y.kernels@
    &&& x.params == y.params
    &&& x.cone@ == y.cone@
    &&& x.root_ids@ == y.root_ids@
    &&& cut_lists(x.result.cuts@) == cut_lists(y.result.cuts@)
    &&& same_stats(x.result.stats, y.result.stats)
    &&& map_texts(x.pi_names@) == map_texts(y.pi_names@)
    &&& x.var_func == y.var_func
    &&& x.zero_func == y.zero_func
    &&& x.one_func == y.one_func
}

/// Both attempts failed for the same reason, or both gave the same iterator.
pub open spec fn same_outcome(
    sort: Seq<char>,
    x: Result<CutIterator, IterError>,
    y: Result<CutIterator, IterError>,
) -> bool {
    match (x, y) {
        (Ok(a), Ok(b)) => same_iterator(a, b),
        (Err(IterError::EmptyOpMap), Err(IterError::EmptyOpMap)) => true,
        (Err(IterError::Build(d)), Err(IterError::Build(e))) => exists|f: BuildFault| #[trigger]
            d.reports(f, sort) && e.reports(f, sort),
        (
            Err(IterError::Kernel { error: d, constructor: c }),
            Err(IterError::Kernel { error: e, constructor: b }),
        ) => d == e && c@ == b@,
        (Err(IterError::UnknownSort), Err(IterError::UnknownSort)) => true,
        (Err(IterError::Root(i)), Err(IterError::Root(j))) => i == j,
        (Err(IterError::Cut(d)), Err(IterError::Cut(e))) => d == e,
        _ => false,
    }
}

proof fn lemma_iterates_same(
    eg: EGraph,
    g: ClassGraph,
    h: ClassGraph,
    sort: Seq<char>,
    a: Seq<(String, String)>,
    b: Seq<(String, String)>,
    roots: Seq<u32>,
    params: CutParams,
    x: Result<CutIterator, IterError>,
    y: Result<CutIterator, IterError>,
)
    requires
        same_graph(&g, &h),
        well_shaped(&g),
        well_shaped(&h),
        g.funcs@.len() <= usize::MAX,
        forall|name: Seq<char>| #[trigger] mapped(a, name) == mapped(b, name),
        iterates(eg, g, sort, a, roots, params, x),
        iterates(eg, h, sort, b, roots, params, y),
    ensures
        same_outcome(sort, x, y),
{
    let n = g.funcs@.len();
    lemma_kernels_alike(g.funcs@, h.funcs@, a, b, n);
    match all_kernels(g.funcs@, a, n) {
        Err(e) => {
            lemma_kernel_error_in_range(g.funcs@, a, n);
            let i = e.spec_func() as int;
            assert(func_alike(g.funcs@[i], h.funcs@[i]));
        },
        Ok(ks) => {
            lemma_kernel_each(g.funcs@, a, n);
            lemma_roots_in_range(&g, eg, sort, roots, roots.len());
            if let Ok(ids) = roots_found(eg, sort, g.class_index@, roots, roots.len()) {
                lemma_cone_alike(&g, &h, ids);
                let cone = cone_of(&g, ids);
                cuts_ignore_the_numbers(&g, &h, params, ks, cone);
                if let (Ok(p), Ok(q)) = (x, y) {
                    let st = enumeration(&g, params, ks, cone)->Ok_0;
                    lemma_stats_alike(
                        &g,
                        &h,
                        params,
                        ks,
                        cone,
                        st,
                        p.result.stats,
                        q.result.stats,
                    );
                    lemma_pi_texts_same(eg, &g, &h, ks, g.enodes@.len());
                    lemma_last_kernel_same(ks, Kernel::Leaf, p.var_func, q.var_func);
                    lemma_last_kernel_same(ks, Kernel::Const(0), p.zero_func, q.zero_func);
                    lemma_last_kernel_same(ks, Kernel::Const(1), p.one_func, q.one_func);
                }
            }
        },
    }
}

proof fn lemma_enumerated(
    eg: EGraph,
    sort: Seq<char>,
    op_map: Seq<(String, String)>,
    roots: Seq<u32>,
    params: CutParams,
    r: Result<CutIterator, IterError>,
) -> (p: (Seq<(String, Cost)>, Result<ClassGraph, BuildError>))
    requires
        op_map.len() > 0,
        enumerates(eg, sort, op_map, roots, params, r),
    ensures
        zero_heads(op_map, p.0),
        builds(eg, sort, p.0, p.1),
        match p.1 {
            Err(e) => r matches Err(IterError::Build(x)) && x == e,
            Ok(g) => iterates(eg, g, sort, op_map, roots, params, r),
        },
{
    choose|heads: Seq<(String, Cost)>, b: Result<ClassGraph, BuildError>|
        zero_heads(op_map, heads) && #[trigger] builds(eg, sort, heads, b) && match b {
            Err(e) => r matches Err(IterError::Build(x)) && x == e,
            Ok(g) => iterates(eg, g, sort, op_map, roots, params, r),
        }
}

/// Enumerating the cuts of one e-graph twice gives the same cuts and the same statistics.
pub proof fn enumerating_twice_gives_the_same_cuts(
    eg: EGraph,
    sort: Seq<char>,
    op_map: Seq<(String, String)>,
    roots: Seq<u32>,
    params: CutParams,
    x: Result<CutIterator, IterError>,
    y: Result<CutIterator, IterError>,
)
    requires
        op_map.len() <= usize::MAX,
        enumerates(eg, sort, op_map, roots, params, x),
        enumerates(eg, sort, op_map, roots, params, y),
    ensures
        same_outcome(sort, x, y),
{
    if op_map.len() > 0 {
        let (p, bx) = lemma_enumerated(eg, sort, op_map, roots, params, x);
        let (q, by) = lemma_enumerated(eg, sort, op_map, roots, params, y);
        assert forall|i: int| 0 <= i < p.len() implies (#[trigger] p[i]).0@ == q[i].0@ && p[i].1
            == q[i].1 by {
            assert(q[i].0@ == op_map[i].0@);
        }
        building_twice_gives_the_same_graph(eg, sort, p, q, bx, by);
        if let (Ok(g), Ok(h)) = (bx, by) {
            lemma_built(eg, sort, p, g);
            lemma_built(eg, sort, q, h);
            assert(g.funcs.len() == g.funcs@.len());
            lemma_iterates_same(eg, g, h, sort, op_map, op_map, roots, params, x, y);
        }
    }
}

/// `b` is `a` in another order: `place` tells where each entry of `b` stands in `a`.
pub open spec fn reordered_map(
    a: Seq<(String, String)>,
    b: Seq<(String, String)>,
    place: Seq<int>,
) -> bool {
    &&& b.len() == a.len()
    &&& place.len() == a.len()
    &&& place.no_duplicates()
    &&& forall|i: int| 0 <= i < b.len() ==> 0 <= #[trigger] place[i] < a.len()
    &&& forall|i: int|
        0 <= i < b.len() ==> (#[trigger] b[i]).0@ == a[place[i]].0@ && b[i].1@ == a[place[i]].1@
}

/// What a name is mapped to where no name occurs twice.
proof fn lemma_mapped_at(op_map: Seq<(String, String)>, i: int)
    requires
        vocabulary(op_map).no_duplicates(),
        0 <= i < op_map.len(),
    ensures
        mapped(op_map, op_map[i].0@) == Some(op_map[i].1@),
    decreases op_map.len(),
{
    if i > 0 {
        assert(vocabulary(op_map)[0] != vocabulary(op_map)[i]);
        let rest = op_map.drop_first();
        assert forall|p: int, q: int|
            0 <= p < rest.len() && 0 <= q < rest.len() && p != q implies vocabulary(rest)[p]
            != vocabulary(rest)[q] by {
            assert(vocabulary(op_map)[p + 1] != vocabulary(op_map)[q + 1]);
        }
        lemma_mapped_at(rest, i - 1);
    }
}

/// A name that does not occur is not mapped.
proof fn lemma_unmapped(op_map: Seq<(String, String)>, name: Seq<char>)
    requires
        !vocabulary(op_map).contains(name),
    ensures
        mapped(op_map, name) is None,
    decreases op_map.len(),
{
    if op_map.len() > 0 {
        assert(vocabulary(op_map)[0] != name);
        let rest = op_map.drop_first();
        if vocabulary(rest).contains(name) {
            let i = choose|i: int| 0 <= i < vocabulary(rest).len() && vocabulary(rest)[i] == name;
            assert(vocabulary(op_map)[i + 1] == name);
        }
        lemma_unmapped(rest, name);
    }
}

proof fn lemma_place_onto(place: Seq<int>, x: int)
    requires
        place.no_duplicates(),
        forall|i: int| 0 <= i < place.len() ==> 0 <= #[trigger] place[i] < place.len(),
        0 <= x < place.len(),
    ensures
        place.contains(x),
{
    let n = place.len();
    vstd::set_lib::lemma_int_range(0, n as int);
    place.unique_seq_to_set();
    let hit = place.to_set();
    assert forall|y: int| #[trigger] hit.contains(y) implies vstd::set_lib::set_int_range(
        0,
        n as int,
    ).contains(y) by {
        let i = choose|i: int| 0 <= i < place.len() && place[i] == y;
        assert(0 <= place[i] < place.len());
    }
    vstd::set_lib::lemma_subset_equality(hit, vstd::set_lib::set_int_range(0, n as int));
    assert(hit.contains(x));
}

/// The cuts and the statistics do not depend on the order in which the vocabulary is given.
pub proof fn cuts_ignore_the_order_given(
    eg: EGraph,
    sort: Seq<char>,
    a: Seq<(String, String)>,
    b: Seq<(String, String)>,
    place: Seq<int>,
    roots: Seq<u32>,
    params: CutParams,
    x: Result<CutIterator, IterError>,
    y: Result<CutIterator, IterError>,
)
    requires
        a.len() <= usize::MAX,
        reordered_map(a, b, place),
        vocabulary(a).no_duplicates(),
        enumerates(eg, sort, a, roots, params, x),
        enumerates(eg, sort, b, roots, params, y),
    ensures
        same_outcome(sort, x, y),
{
    if a.len() > 0 {
        let (p, bx) = lemma_enumerated(eg, sort, a, roots, params, x);
        let (q, by) = lemma_enumerated(eg, sort, b, roots, params, y);
        assert(head_names(p) =~= vocabulary(a));
        assert forall|i: int| 0 <= i < q.len() implies (#[trigger] q[i]).0@ == p[place[i]].0@
            && q[i].1 == p[place[i]].1 by {
            assert(q[i].0@ == b[i].0@);
            assert(0 <= place[i] < a.len());
            assert(p[place[i]].0@ == a[place[i]].0@);
        }
        graphs_ignore_the_order_given(eg, sort, p, q, place, bx, by);
        assert forall|i: int, j: int| 0 <= i < b.len() && 0 <= j < b.len() && i != j implies vocabulary(
            b,
        )[i] != vocabulary(b)[j] by {
            assert(b[i].0@ == a[place[i]].0@);
            assert(b[j].0@ == a[place[j]].0@);
            assert(place[i] != place[j]);
            assert(0 <= place[i] < a.len() && 0 <= place[j] < a.len());
            assert(vocabulary(a)[place[i]] != vocabulary(a)[place[j]]);
        }
        assert forall|name: Seq<char>| #[trigger] mapped(a, name) == mapped(b, name) by {
            if vocabulary(a).contains(name) {
                let k = choose|k: int| 0 <= k < a.len() && vocabulary(a)[k] == name;
                lemma_place_onto(place, k);
                let i = choose|i: int| 0 <= i < place.len() && place[i] == k;
                assert(b[i].0@ == a[place[i]].0@);
                lemma_mapped_at(a, k);
                lemma_mapped_at(b, i);
            } else {
                if vocabulary(b).contains(name) {
                    let i = choose|i: int| 0 <= i < b.len() && vocabulary(b)[i] == name;
                    assert(b[i].0@ == a[place[i]].0@);
                    assert(0 <= place[i] < a.len());
                    assert(vocabulary(a)[place[i]] == name);
                }
                lemma_unmapped(a, name);
                lemma_unmapped(b, name);
            }
        }
        if let (Ok(g), Ok(h)) = (bx, by) {
            lemma_built(eg, sort, p, g);
            lemma_built(eg, sort, q, h);
            assert(g.funcs.len() == g.funcs@.len());
            lemma_iterates_same(eg, g, h, sort, a, b, roots, params, x, y);
        }
    }
}

} // verus!
