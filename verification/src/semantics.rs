//! What the cuts say of the classes: soundness of the enumeration.
use vstd::prelude::*;

use crate::class_graph::ClassGraph;
use crate::cut::{composable, composition_is_sound, cut_value, leaf_minterm, CutView};
use crate::enumerate::{
    candidate, gate_of, list_ok, operands, realized, sweep_ok, trivial, CutParams, Sweep,
};
use crate::kernel::{has_const, kernel_at, kind_of, ClassKind, Kernel};
use crate::truth::{bit, lemma_pack_ext, lemma_single, pack};

verus! {

/// The class values `a` agree with e-node `e`: its class has the value that its
/// constructor gives to its children's values.
pub open spec fn respects(
    graph: &ClassGraph,
    kernels: Seq<Kernel>,
    a: spec_fn(u32) -> bool,
    e: int,
) -> bool {
    match kernels[graph.enodes@[e].func as int] {
        Kernel::Leaf => true,
        Kernel::Const(c) => a(graph.enodes@[e].out) == bit(c, 0),
        Kernel::Op { tt } => a(graph.enodes@[e].out) == bit(
            tt,
            pack(graph.children(e).len(), |j: int| a(graph.children(e)[j])) as int,
        ),
    }
}

/// The class values `a` can be reached: they agree with every e-node of the graph.
pub open spec fn reachable(
    graph: &ClassGraph,
    kernels: Seq<Kernel>,
    a: spec_fn(u32) -> bool,
) -> bool {
    forall|e: int| 0 <= e < graph.enodes@.len() ==> #[trigger] respects(graph, kernels, a, e)
}

/// The trivial cut of a class has the class's value.
proof fn lemma_trivial_sound(
    graph: &ClassGraph,
    kernels: Seq<Kernel>,
    a: spec_fn(u32) -> bool,
    v: int,
    c: CutView,
)
    requires
        graph.nodes_wf(),
        reachable(graph, kernels, a),
        0 <= v < graph.size(),
        trivial(graph, kernels, v, c),
    ensures
        cut_value(c, a) == a(v as u32),
{
    match kind_of(graph, kernels, v) {
        Some(ClassKind::Const(b)) => {
            assert(has_const(graph, kernels, v, b));
            let i = choose|i: int|
                0 <= i < graph.enodes_of@[v]@.len() && #[trigger] kernel_at(graph, kernels, v, i)
                    == Kernel::Const(b);
            let e = graph.enodes_of@[v]@[i] as int;
            assert(graph.enodes@[e].out == v);
            assert(respects(graph, kernels, a, e));
            assert(c.leaves.len() == 0);
        },
        Some(_) => {
            let f = |i: int| a(c.leaves[i]);
            lemma_single(f);
            assert(c.leaves[0] == v as u32);
        },
        None => {},
    }
}

/// A gate over child cuts that have their classes' values has its class's value.
pub proof fn candidate_is_sound(
    graph: &ClassGraph,
    kernels: Seq<Kernel>,
    a: spec_fn(u32) -> bool,
    cuts: Seq<Seq<CutView>>,
    ei: int,
    p: (Seq<u32>, Seq<u32>),
)
    requires
        reachable(graph, kernels, a),
        0 <= ei < graph.enodes@.len(),
        gate_of(graph, kernels, ei) is Some,
        composable(operands(graph, cuts, ei, p.1), p.0),
        forall|j: int|
            0 <= j < graph.children(ei).len() ==> cut_value(
                #[trigger] operands(graph, cuts, ei, p.1)[j],
                a,
            ) == a(graph.children(ei)[j]),
    ensures
        cut_value(candidate(graph, kernels, cuts, ei, p), a) == a(graph.enodes@[ei].out),
{
    let cs = operands(graph, cuts, ei, p.1);
    let tt = gate_of(graph, kernels, ei)->0;
    composition_is_sound(tt, cs, p.0, a);
    assert(respects(graph, kernels, a, ei));
    lemma_pack_ext(
        cs.len(),
        |j: int| cut_value(cs[j], a),
        |j: int| a(graph.children(ei)[j]),
    );
}

/// Every cut of a class has the class's value under any class values that agree with the
/// e-nodes.
pub proof fn cuts_are_sound(
    graph: &ClassGraph,
    params: CutParams,
    kernels: Seq<Kernel>,
    cone: Seq<bool>,
    st: Sweep,
    a: spec_fn(u32) -> bool,
    v: int,
    i: int,
)
    requires
        graph.nodes_wf(),
        sweep_ok(graph, params, kernels, cone, st),
        reachable(graph, kernels, a),
        0 <= v < graph.size(),
        0 <= i < st.cuts[v].len(),
    ensures
        cut_value(st.cuts[v][i], a) == a(v as u32),
    decreases st.rank[v],
{
    assert(list_ok(graph, params, kernels, cone, st.cuts, st.rank, v));
    let c = st.cuts[v][i];
    if i == 0 {
        lemma_trivial_sound(graph, kernels, a, v, c);
    } else {
        assert(realized(graph, kernels, st.cuts, st.rank, v, c));
        let (e, chosen) = c.realization->0;
        let ei = e as int;
        let cs = operands(graph, st.cuts, ei, chosen);
        assert forall|j: int| 0 <= j < graph.children(ei).len() implies cut_value(
            #[trigger] cs[j],
            a,
        ) == a(graph.children(ei)[j]) by {
            let w = graph.children(ei)[j];
            assert(graph.enodes@[ei].ch_eq@[j] < graph.size());
            assert(chosen[j] < st.cuts[w as int].len());
            assert(st.rank[w as int] < st.rank[v]);
            cuts_are_sound(graph, params, kernels, cone, st, a, w as int, chosen[j] as int);
        }
        candidate_is_sound(graph, kernels, a, st.cuts, ei, (c.leaves, chosen));
        assert(candidate(graph, kernels, st.cuts, ei, (c.leaves, chosen)).tt == c.tt);
    }
}

/// Two cuts of a class over the same leaves agree wherever the leaves' values can be
/// reached.
pub proof fn realizations_agree(
    graph: &ClassGraph,
    params: CutParams,
    kernels: Seq<Kernel>,
    cone: Seq<bool>,
    st: Sweep,
    a: spec_fn(u32) -> bool,
    v: int,
    i: int,
    p: (Seq<u32>, Seq<u32>),
    ei: int,
)
    requires
        graph.nodes_wf(),
        sweep_ok(graph, params, kernels, cone, st),
        reachable(graph, kernels, a),
        0 <= v < graph.size(),
        0 <= i < st.cuts[v].len(),
        0 <= ei < graph.enodes@.len(),
        graph.enodes@[ei].out == v,
        gate_of(graph, kernels, ei) is Some,
        p.1.len() == graph.children(ei).len(),
        forall|j: int|
            0 <= j < p.1.len() ==> (#[trigger] p.1[j]) < st.cuts[graph.children(
                ei,
            )[j] as int].len(),
        composable(operands(graph, st.cuts, ei, p.1), p.0),
        st.cuts[v][i].leaves == p.0,
    ensures
        bit(st.cuts[v][i].tt, leaf_minterm(p.0, a) as int) == bit(
            candidate(graph, kernels, st.cuts, ei, p).tt,
            leaf_minterm(p.0, a) as int,
        ),
{
    cuts_are_sound(graph, params, kernels, cone, st, a, v, i);
    let cs = operands(graph, st.cuts, ei, p.1);
    assert forall|j: int| 0 <= j < graph.children(ei).len() implies cut_value(#[trigger] cs[j], a)
        == a(graph.children(ei)[j]) by {
        let w = graph.children(ei)[j];
        assert(graph.enodes@[ei].ch_eq@[j] < graph.size());
        assert(p.1[j] < st.cuts[w as int].len());
        cuts_are_sound(graph, params, kernels, cone, st, a, w as int, p.1[j] as int);
    }
    candidate_is_sound(graph, kernels, a, st.cuts, ei, p);
}

} // verus!
