//! Why a constructor has no kernel, and why a class has no term.
use vstd::prelude::*;

use crate::best_term::{
    choices_ok, fault, fault_among, finite, lemma_fault_free, lemma_path_short, path_ok, TermFault,
};
use crate::class_graph::{ClassGraph, FuncTab};
use crate::iter_laws::{gate_pins, lemma_names_apart};
use crate::kernel::{kernel_of, mapped, KernelError};
use crate::truth::{op_named, operator_is_named, Op};

verus! {

/// A constructor has no kernel because its name is not mapped, because it is mapped to the
/// name of no operator, or because it has not the children that the operator of the name
/// takes. The error tells which, and how many children a boolean operator takes.
pub proof fn kernel_errors_tell_why(f: FuncTab, i: usize, op_map: Seq<(String, String)>)
    ensures
        kernel_of(&f, i, op_map) matches Err(e) ==> match (e, mapped(op_map, f.term_name@)) {
            (KernelError::NoMapping(x), None) => x == i,
            (KernelError::UnknownOperator(x), Some(name)) => x == i && name != "var"@ && name
                != "zero"@ && name != "one"@ && gate_pins(name) is None,
            (KernelError::VarShape(x), Some(name)) => x == i && name == "var"@,
            (KernelError::ZeroShape(x), Some(name)) => x == i && name == "zero"@,
            (KernelError::OneShape(x), Some(name)) => x == i && name == "one"@,
            (KernelError::GateShape(x, pins), Some(name)) => x == i && gate_pins(name) == Some(
                pins as int,
            ),
            _ => false,
        },
{
    if let Some(name) = mapped(op_map, f.term_name@) {
        match op_named(name) {
            None => {
                operator_is_named(Op::Var);
                operator_is_named(Op::Zero);
                operator_is_named(Op::One);
                operator_is_named(Op::Not);
                operator_is_named(Op::And);
                operator_is_named(Op::Or);
                operator_is_named(Op::Xor);
                operator_is_named(Op::Nand);
                operator_is_named(Op::Nor);
                operator_is_named(Op::Xnor);
                operator_is_named(Op::Aoi21);
                operator_is_named(Op::Oai21);
                operator_is_named(Op::Mux);
                operator_is_named(Op::Aoi22);
                operator_is_named(Op::Oai22);
            },
            Some(o) => {
                assert(o.name() == name);
                lemma_names_apart(o);
            },
        }
    }
}

/// The chosen e-nodes from class `v` down make up a tree.
pub open spec fn has_tree(graph: &ClassGraph, best: Seq<Option<usize>>, v: u32) -> bool {
    exists|height: nat| #[trigger] finite(graph, best, v, height)
}

/// Class `b` is a child of the e-node chosen for class `a`, and the children before it have
/// trees.
pub open spec fn leads_to(graph: &ClassGraph, best: Seq<Option<usize>>, a: u32, b: u32) -> bool {
    &&& best[a as int] is Some
    &&& exists|j: int|
        0 <= j < graph.children(best[a as int]->0 as int).len() && #[trigger] graph.children(
            best[a as int]->0 as int,
        )[j] == b && forall|i: int|
            0 <= i < j ==> has_tree(
                graph,
                best,
                #[trigger] graph.children(best[a as int]->0 as int)[i],
            )
}

/// Each class of the way leads to the next one.
pub open spec fn way(graph: &ClassGraph, best: Seq<Option<usize>>, path: Seq<u32>) -> bool {
    forall|i: int, k: int|
        0 <= i && k == i + 1 && k < path.len() ==> #[trigger] leads_to(
            graph,
            best,
            path[i],
            path[k],
        )
}

proof fn lemma_first_faulty(
    graph: &ClassGraph,
    best: Seq<Option<usize>>,
    kids: Seq<u32>,
    n: nat,
    above: Seq<u32>,
) -> (j: int)
    requires
        n <= kids.len(),
        fault_among(graph, best, kids, n, above) is Some,
    ensures
        0 <= j < n,
        fault(graph, best, kids[j], above) == fault_among(graph, best, kids, n, above),
        forall|i: int| 0 <= i < j ==> has_tree(graph, best, #[trigger] kids[i]),
    decreases n,
{
    if n == 0 {
        0
    } else if fault_among(graph, best, kids, (n - 1) as nat, above) is Some {
        lemma_first_faulty(graph, best, kids, (n - 1) as nat, above)
    } else {
        assert forall|i: int| 0 <= i < n - 1 implies has_tree(
            graph,
            best,
            #[trigger] kids[i],
        ) by {
            lemma_none_before(graph, best, kids, (n - 1) as nat, above, i);
            lemma_fault_free(graph, best, kids[i], above);
        }
        n - 1
    }
}

proof fn lemma_none_before(
    graph: &ClassGraph,
    best: Seq<Option<usize>>,
    kids: Seq<u32>,
    n: nat,
    above: Seq<u32>,
    i: int,
)
    requires
        fault_among(graph, best, kids, n, above) is None,
        0 <= i < n,
    ensures
        fault(graph, best, kids[i], above) is None,
    decreases n,
{
    if i < n - 1 {
        lemma_none_before(graph, best, kids, (n - 1) as nat, above, i);
    }
}

proof fn lemma_way_to_fault(
    graph: &ClassGraph,
    best: Seq<Option<usize>>,
    v: u32,
    above: Seq<u32>,
) -> (path: Seq<u32>)
    requires
        graph.wf(),
        choices_ok(graph, best),
        v < graph.size(),
        path_ok(graph, above),
        way(graph, best, above.push(v)),
        fault(graph, best, v, above) is Some,
    ensures
        above.push(v).is_prefix_of(path),
        way(graph, best, path),
        path.drop_last().no_duplicates(),
        match fault(graph, best, v, above)->0 {
            TermFault::Missing => best[path.last() as int] is None && !path.drop_last().contains(
                path.last(),
            ),
            TermFault::Cyclic => path.drop_last().contains(path.last()),
        },
    decreases graph.size() - above.len(),
{
    let here = above.push(v);
    assert(here.drop_last() =~= above);
    if above.contains(v) {
        here
    } else {
        lemma_path_short(graph, above, v);
        match best[v as int] {
            None => here,
            Some(e) => {
                let kids = graph.children(e as int);
                let j = lemma_first_faulty(graph, best, kids, kids.len(), here);
                let w = kids[j];
                assert(graph.enodes@[e as int].ch_eq@[j] < graph.size());
                assert(graph.children(best[v as int]->0 as int)[j] == w);
                assert(leads_to(graph, best, v, w));
                let next = here.push(w);
                assert forall|i: int, k: int|
                    0 <= i && k == i + 1 && k < next.len() implies #[trigger] leads_to(
                    graph,
                    best,
                    next[i],
                    next[k],
                ) by {
                    if k < here.len() {
                        assert(leads_to(graph, best, here[i], here[k]));
                    }
                }
                let path = lemma_way_to_fault(graph, best, w, here);
                assert(here.is_prefix_of(path)) by {
                    assert(next =~= path.subrange(0, next.len() as int));
                    assert forall|i: int| 0 <= i < here.len() implies here[i] == path[i] by {
                        assert(next[i] == path.subrange(0, next.len() as int)[i]);
                    }
                    assert(here =~= path.subrange(0, here.len() as int));
                }
                path
            },
        }
    }
}

/// A class without a term is told why: there is a way down the chosen e-nodes, first children
/// first, that does not come twice to a class before its end; it ends at a class for which no
/// e-node is chosen, or at one that it came by before.
pub proof fn term_faults_tell_why(graph: &ClassGraph, best: Seq<Option<usize>>, v: u32) -> (path:
    Seq<u32>)
    requires
        graph.wf(),
        choices_ok(graph, best),
        v < graph.size(),
        fault(graph, best, v, Seq::empty()) is Some,
    ensures
        path.len() > 0,
        path[0] == v,
        way(graph, best, path),
        path.drop_last().no_duplicates(),
        match fault(graph, best, v, Seq::empty())->0 {
            TermFault::Missing => best[path.last() as int] is None && !path.drop_last().contains(
                path.last(),
            ),
            TermFault::Cyclic => path.drop_last().contains(path.last()),
        },
{
    let none = Seq::<u32>::empty();
    let path = lemma_way_to_fault(graph, best, v, none);
    assert(none.push(v) =~= path.subrange(0, 1));
    assert(path.subrange(0, 1)[0] == path[0]);
    path
}

} // verus!
