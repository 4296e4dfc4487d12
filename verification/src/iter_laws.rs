//! What an iterator has of the e-graph that it was made of.
use egglog::EGraph;
use vstd::prelude::*;

use crate::class_graph::{children_of, ClassGraph, Enode, FuncTab};
use crate::cut_iter::{class_lookup, cone_of, pi_texts, roots_found, well_shaped, LookupError};
use crate::egraph::{canonical_of, sorts_of, strings_of};
use crate::kernel::{
    all_kernels, count_true, kernel_of, lemma_kernel_each, lemma_kernel_error_in_range, mapped,
    Kernel, KernelError,
};
use crate::list_laws::bit_of;
use crate::reach::{
    edge, lemma_reaches_child, lemma_reaches_closed, lemma_reaches_self, lemma_reaches_trans,
    reached, reaches,
};
use crate::truth::{bit, lemma_pack_bit, lemma_pow2_small, op_named, operator_is_named, pow2, Op};

verus! {

// ------------------------------------------------------------------------- cones

/// A class is a child of another one if one of the other's e-nodes has it as a child.
pub proof fn children_are_those_of_the_enodes(graph: &ClassGraph, v: int, c: u32)
    requires
        graph.wf(),
        graph.condensed(),
        0 <= v < graph.size(),
    ensures
        graph.adj@[v]@.contains(c) <==> exists|e: int|
            0 <= e < graph.enodes@.len() && (#[trigger] graph.enodes@[e]).out == v
                && graph.enodes@[e].ch_eq@.contains(c),
{
    lemma_children_upto(graph.enodes@, v, graph.enodes@.len(), c);
    assert(graph.adj@[v]@ == children_of(graph.enodes@, v, graph.enodes@.len()));
}

proof fn lemma_children_upto(enodes: Seq<Enode>, v: int, n: nat, c: u32)
    requires
        n <= enodes.len(),
    ensures
        children_of(enodes, v, n).contains(c) <==> exists|e: int|
            0 <= e < n && (#[trigger] enodes[e]).out == v && enodes[e].ch_eq@.contains(c),
    decreases n,
{
    if n > 0 {
        lemma_children_upto(enodes, v, (n - 1) as nat, c);
        let rest = children_of(enodes, v, (n - 1) as nat);
        let all = children_of(enodes, v, n);
        let last = enodes[n - 1];
        if all.contains(c) {
            let k = choose|k: int| 0 <= k < all.len() && all[k] == c;
            if k < rest.len() {
                assert(rest[k] == c);
                let e = choose|e: int|
                    0 <= e < n - 1 && (#[trigger] enodes[e]).out == v && enodes[e].ch_eq@.contains(
                        c,
                    );
                assert(enodes[e].out == v && enodes[e].ch_eq@.contains(c));
            } else {
                assert(last.ch_eq@[k - rest.len()] == c);
                assert(enodes[n - 1].out == v && enodes[n - 1].ch_eq@.contains(c));
            }
        }
        if exists|e: int|
            0 <= e < n && (#[trigger] enodes[e]).out == v && enodes[e].ch_eq@.contains(c) {
            let e = choose|e: int|
                0 <= e < n && (#[trigger] enodes[e]).out == v && enodes[e].ch_eq@.contains(c);
            if e < n - 1 {
                assert(rest.contains(c));
                let k = choose|k: int| 0 <= k < rest.len() && rest[k] == c;
                assert(all[k] == c);
            } else {
                let j = choose|j: int| 0 <= j < last.ch_eq@.len() && last.ch_eq@[j] == c;
                assert(all[rest.len() + j] == c);
            }
        }
    }
}

/// The set holds the children of the e-nodes of every class in it.
pub open spec fn closed(graph: &ClassGraph, s: spec_fn(u32) -> bool) -> bool {
    forall|e: int, j: int|
        0 <= e < graph.enodes@.len() && 0 <= j < graph.enodes@[e].ch_eq@.len() && s(
            graph.enodes@[e].out,
        ) ==> s(#[trigger] graph.enodes@[e].ch_eq@[j])
}

/// The cone of some roots is the least set of classes that holds them and, with a class, the
/// children of all its e-nodes. Without roots it holds every class.
pub proof fn cone_is_the_least_closed_set(
    graph: &ClassGraph,
    ids: Seq<u32>,
    s: spec_fn(u32) -> bool,
    v: int,
)
    requires
        graph.wf(),
        graph.condensed(),
        forall|i: int| 0 <= i < ids.len() ==> #[trigger] ids[i] < graph.size(),
        0 <= v < graph.size(),
    ensures
        cone_of(graph, ids).len() == graph.size(),
        ids.len() == 0 ==> cone_of(graph, ids)[v],
        forall|i: int| 0 <= i < ids.len() ==> cone_of(graph, ids)[#[trigger] ids[i] as int],
        closed(graph, |x: u32| x < graph.size() && cone_of(graph, ids)[x as int]),
        ids.len() > 0 && closed(graph, s) && (forall|i: int|
            0 <= i < ids.len() ==> s(#[trigger] ids[i])) && cone_of(graph, ids)[v] ==> s(v as u32),
{
    let cone = cone_of(graph, ids);
    assert forall|i: int| 0 <= i < ids.len() implies cone[#[trigger] ids[i] as int] by {
        lemma_reaches_self(graph.adj@, ids[i]);
        assert(reached(graph.adj@, ids, ids[i]));
    }
    let inside = |x: u32| x < graph.size() && cone[x as int];
    assert forall|e: int, j: int|
        0 <= e < graph.enodes@.len() && 0 <= j < graph.enodes@[e].ch_eq@.len() && inside(
            graph.enodes@[e].out,
        ) implies inside(#[trigger] graph.enodes@[e].ch_eq@[j]) by {
        let (x, y) = (graph.enodes@[e].out, graph.enodes@[e].ch_eq@[j]);
        assert(y < graph.size());
        assert(graph.enodes@[e].ch_eq@.contains(y));
        children_are_those_of_the_enodes(graph, x as int, y);
        if ids.len() > 0 {
            assert(reached(graph.adj@, ids, x));
            let i = choose|i: int| 0 <= i < ids.len() && reaches(graph.adj@, #[trigger] ids[i], x);
            lemma_reaches_child(graph.adj@, x, y);
            lemma_reaches_trans(graph.adj@, ids[i], x, y);
            assert(reached(graph.adj@, ids, y));
        }
    }
    if ids.len() > 0 && closed(graph, s) && (forall|i: int|
        0 <= i < ids.len() ==> s(#[trigger] ids[i])) && cone[v] {
        assert(reached(graph.adj@, ids, v as u32));
        let i = choose|i: int|
            0 <= i < ids.len() && reaches(graph.adj@, #[trigger] ids[i], v as u32);
        let t = |x: u32| x < graph.size() && s(x);
        assert forall|x: u32, y: u32| t(x) && #[trigger] edge(graph.adj@, x, y) implies t(y) by {
            children_are_those_of_the_enodes(graph, x as int, y);
            let e = choose|e: int|
                0 <= e < graph.enodes@.len() && (#[trigger] graph.enodes@[e]).out == x as int
                    && graph.enodes@[e].ch_eq@.contains(y);
            let j = choose|j: int|
                0 <= j < graph.enodes@[e].ch_eq@.len() && graph.enodes@[e].ch_eq@[j] == y;
            assert(s(graph.enodes@[e].ch_eq@[j]));
            assert(graph.enodes@[e].ch_eq@[j] < graph.size());
        }
        lemma_reaches_closed(graph.adj@, t, ids[i], v as u32);
    }
}

// ------------------------------------------------------------------------- roots

/// A value is of the class that has its canonical value; a value without one, or a sort that
/// the e-graph does not have, is an error.
pub proof fn values_are_of_their_class(eg: EGraph, graph: &ClassGraph, sort: Seq<char>, value: u32)
    requires
        well_shaped(graph),
    ensures
        match class_lookup(eg, sort, graph.class_index@, value) {
            Ok(v) => sorts_of(eg).dom().contains(sort) && v < graph.size()
                && graph.classes@[v as int] == canonical_of(eg)[(sort, value)],
            Err(LookupError::UnknownSort) => !sorts_of(eg).dom().contains(sort),
            Err(LookupError::UnknownValue) => sorts_of(eg).dom().contains(sort)
                && !graph.classes@.contains(canonical_of(eg)[(sort, value)]),
        },
{
    let c = canonical_of(eg)[(sort, value)];
    if graph.class_index@.dom().contains(c) {
        assert(graph.classes@.contains(c));
        let k = choose|k: int| 0 <= k < graph.classes@.len() && graph.classes@[k] == c;
        assert(graph.class_index@[graph.classes@[k]] == k);
    }
}

/// The classes of the roots are those of their values, in order; where one has none, the first
/// such one is told.
pub proof fn roots_are_of_their_classes(
    eg: EGraph,
    graph: &ClassGraph,
    sort: Seq<char>,
    roots: Seq<u32>,
    n: nat,
)
    requires
        well_shaped(graph),
        n <= roots.len() <= usize::MAX,
    ensures
        match roots_found(eg, sort, graph.class_index@, roots, n) {
            Ok(ids) => ids.len() == n && forall|i: int|
                0 <= i < n ==> (#[trigger] ids[i]) < graph.size() && graph.classes@[ids[i] as int]
                    == canonical_of(eg)[(sort, roots[i])],
            Err(x) => x < n && (sorts_of(eg).dom().contains(sort) ==> !graph.classes@.contains(
                canonical_of(eg)[(sort, roots[x as int])],
            ) && forall|i: int|
                0 <= i < x ==> graph.classes@.contains(
                    canonical_of(eg)[(sort, #[trigger] roots[i])],
                )),
        },
    decreases n,
{
    if n > 0 {
        roots_are_of_their_classes(eg, graph, sort, roots, (n - 1) as nat);
        values_are_of_their_class(eg, graph, sort, roots[n - 1]);
        if let Ok(ids) = roots_found(eg, sort, graph.class_index@, roots, (n - 1) as nat) {
            assert forall|i: int| 0 <= i < n - 1 implies graph.classes@.contains(
                canonical_of(eg)[(sort, #[trigger] roots[i])],
            ) by {
                assert(ids[i] < graph.size());
                assert(graph.classes@[ids[i] as int] == canonical_of(eg)[(sort, roots[i])]);
            }
        }
    }
}

/// E-node `e` of class `v` is a primary input and its first primitive child is its name.
pub open spec fn gives_name(graph: &ClassGraph, ks: Seq<Kernel>, v: u32, e: int) -> bool {
    &&& 0 <= e < graph.enodes@.len()
    &&& graph.enodes@[e].out == v
    &&& ks[graph.enodes@[e].func as int] == Kernel::Leaf
    &&& graph.enodes@[e].ch_prim@.len() > 0
}

/// A class has a name if one of its e-nodes gives it one, and it is that of the last such one.
pub proof fn names_are_those_of_the_inputs(
    eg: EGraph,
    graph: &ClassGraph,
    ks: Seq<Kernel>,
    v: u32,
    n: nat,
)
    requires
        n <= graph.enodes@.len(),
    ensures
        ({
            let m = pi_texts(eg, graph, ks, n);
            &&& m.dom().contains(v) <==> exists|e: int| e < n && #[trigger]
                gives_name(graph, ks, v, e)
            &&& forall|e: int|
                e < n && #[trigger] gives_name(graph, ks, v, e) && (forall|d: int|
                    e < d < n ==> !#[trigger] gives_name(graph, ks, v, d)) ==> m[v] == strings_of(
                    eg,
                )[graph.enodes@[e].ch_prim@[0].1]
        }),
    decreases n,
{
    if n > 0 {
        names_are_those_of_the_inputs(eg, graph, ks, v, (n - 1) as nat);
        let rest = pi_texts(eg, graph, ks, (n - 1) as nat);
        let m = pi_texts(eg, graph, ks, n);
        if gives_name(graph, ks, v, n - 1) {
            assert(m.dom().contains(v));
        } else {
            assert(m.dom().contains(v) == rest.dom().contains(v));
            if m.dom().contains(v) {
                assert(m[v] == rest[v]);
            }
            if exists|e: int| e < n && #[trigger] gives_name(graph, ks, v, e) {
                let e = choose|e: int| e < n && #[trigger] gives_name(graph, ks, v, e);
                assert(e < n - 1);
                assert(gives_name(graph, ks, v, e));
            }
            if rest.dom().contains(v) {
                let e = choose|e: int| e < n - 1 && #[trigger] gives_name(graph, ks, v, e);
                assert(gives_name(graph, ks, v, e) && e < n);
            }
            assert forall|e: int|
                e < n && #[trigger] gives_name(graph, ks, v, e) && (forall|d: int|
                    e < d < n ==> !#[trigger] gives_name(graph, ks, v, d)) implies m[v]
                == strings_of(eg)[graph.enodes@[e].ch_prim@[0].1] by {
                assert(e < n - 1);
            }
        }
    }
}

// ----------------------------------------------------------------------- kernels

/// What the operator of the given name says of its pins.
pub open spec fn gate_says(name: Seq<char>, p: spec_fn(int) -> bool) -> bool {
    if name == "not"@ {
        !p(0)
    } else if name == "and"@ {
        p(0) && p(1)
    } else if name == "or"@ {
        p(0) || p(1)
    } else if name == "xor"@ {
        p(0) != p(1)
    } else if name == "nand"@ {
        !(p(0) && p(1))
    } else if name == "nor"@ {
        !(p(0) || p(1))
    } else if name == "xnor"@ {
        p(0) == p(1)
    } else if name == "aoi21"@ {
        !((p(0) && p(1)) || p(2))
    } else if name == "oai21"@ {
        !((p(0) || p(1)) && p(2))
    } else if name == "mux"@ {
        (p(0) && p(1)) || (!p(0) && p(2))
    } else if name == "aoi22"@ {
        !((p(0) && p(1)) || (p(2) && p(3)))
    } else {
        !((p(0) || p(1)) && (p(2) || p(3)))
    }
}

/// How many pins the operator of the given name has, if there is one.
pub open spec fn gate_pins(name: Seq<char>) -> Option<int> {
    if name == "not"@ {
        Some(1)
    } else if name == "and"@ || name == "or"@ || name == "xor"@ || name == "nand"@ || name
        == "nor"@ || name == "xnor"@ {
        Some(2)
    } else if name == "aoi21"@ || name == "oai21"@ || name == "mux"@ {
        Some(3)
    } else if name == "aoi22"@ || name == "oai22"@ {
        Some(4)
    } else {
        None
    }
}

/// The constructor `f` can stand for the operator of the given name, as the kernel `k`: an
/// input has one child, which is no class, a constant has none, and an operator has a class on
/// each pin and the table of its name.
pub open spec fn stands_as(name: Seq<char>, f: FuncTab, k: Kernel) -> bool {
    match k {
        Kernel::Leaf => name == "var"@ && f.arity == 1 && forall|p: int|
            0 <= p < f.eq_mask@.len() ==> !#[trigger] f.eq_mask@[p],
        Kernel::Const(b) => f.arity == 0 && (if b == 0 {
            name == "zero"@
        } else {
            b == 1 && name == "one"@
        }),
        Kernel::Op { tt } => {
            &&& gate_pins(name) == Some(f.arity as int)
            &&& forall|p: int| 0 <= p < f.eq_mask@.len() ==> #[trigger] f.eq_mask@[p]
            &&& forall|m: u64|
                m < 16 && (f.arity == 1 ==> m < 2) && (f.arity == 2 ==> m < 4) && (f.arity == 3
                    ==> m < 8) ==> #[trigger] bit_of(tt, m) == gate_says(
                    name,
                    |p: int| bit_of(m, p as u64),
                )
        },
    }
}

/// The operator name that `op_map` has for a constructor is that of the first pair with the
/// constructor's name.
pub proof fn first_mapping_counts(op_map: Seq<(String, String)>, name: Seq<char>)
    ensures
        match mapped(op_map, name) {
            Some(op) => exists|i: int|
                0 <= i < op_map.len() && (#[trigger] op_map[i]).0@ == name && op_map[i].1@ == op
                    && forall|j: int| 0 <= j < i ==> (#[trigger] op_map[j]).0@ != name,
            None => forall|i: int| 0 <= i < op_map.len() ==> (#[trigger] op_map[i]).0@ != name,
        },
    decreases op_map.len(),
{
    if op_map.len() > 0 {
        let rest = op_map.drop_first();
        first_mapping_counts(rest, name);
        if op_map[0].0@ != name {
            match mapped(rest, name) {
                Some(op) => {
                    let i = choose|i: int|
                        0 <= i < rest.len() && (#[trigger] rest[i]).0@ == name && rest[i].1@ == op
                            && forall|j: int| 0 <= j < i ==> (#[trigger] rest[j]).0@ != name;
                    assert(op_map[i + 1] == rest[i]);
                    assert forall|j: int| 0 <= j < i + 1 implies (#[trigger] op_map[j]).0@
                        != name by {
                        if j > 0 {
                            assert(op_map[j] == rest[j - 1]);
                        }
                    }
                },
                None => {
                    assert forall|i: int| 0 <= i < op_map.len() implies (#[trigger] op_map[i]).0@
                        != name by {
                        if i > 0 {
                            assert(op_map[i] == rest[i - 1]);
                        }
                    }
                },
            }
        } else {
            assert(op_map[0].0@ == name && op_map[0].1@ == mapped(op_map, name)->0);
        }
    }
}

proof fn lemma_all_or_none(mask: Seq<bool>)
    ensures
        count_true(mask) <= mask.len(),
        count_true(mask) == 0 <==> forall|p: int| 0 <= p < mask.len() ==> !#[trigger] mask[p],
        count_true(mask) == mask.len() <==> forall|p: int|
            0 <= p < mask.len() ==> #[trigger] mask[p],
    decreases mask.len(),
{
    if mask.len() > 0 {
        let rest = mask.drop_last();
        lemma_all_or_none(rest);
        assert forall|p: int| 0 <= p < rest.len() implies #[trigger] rest[p] == mask[p] by {}
        if forall|p: int| 0 <= p < mask.len() ==> !#[trigger] mask[p] {
            assert(!mask[mask.len() - 1]);
            assert forall|p: int| 0 <= p < rest.len() implies !#[trigger] rest[p] by {
                assert(!mask[p]);
            }
        }
        if forall|p: int| 0 <= p < mask.len() ==> #[trigger] mask[p] {
            assert(mask[mask.len() - 1]);
            assert forall|p: int| 0 <= p < rest.len() implies #[trigger] rest[p] by {
                assert(mask[p]);
            }
        }
        if count_true(mask) == 0 {
            assert forall|p: int| 0 <= p < mask.len() implies !#[trigger] mask[p] by {
                if p < rest.len() {
                    assert(!rest[p]);
                }
            }
        }
        if count_true(mask) == mask.len() {
            assert forall|p: int| 0 <= p < mask.len() implies #[trigger] mask[p] by {
                if p < rest.len() {
                    assert(rest[p]);
                }
            }
        }
    }
}

/// The operators by their names.
pub(crate) proof fn lemma_names_apart(o: Op)
    ensures
        o.name() == "var"@ <==> o == Op::Var,
        o.name() == "zero"@ <==> o == Op::Zero,
        o.name() == "one"@ <==> o == Op::One,
        o.name() == "not"@ <==> o == Op::Not,
        o.name() == "and"@ <==> o == Op::And,
        o.name() == "or"@ <==> o == Op::Or,
        o.name() == "xor"@ <==> o == Op::Xor,
        o.name() == "nand"@ <==> o == Op::Nand,
        o.name() == "nor"@ <==> o == Op::Nor,
        o.name() == "xnor"@ <==> o == Op::Xnor,
        o.name() == "aoi21"@ <==> o == Op::Aoi21,
        o.name() == "oai21"@ <==> o == Op::Oai21,
        o.name() == "mux"@ <==> o == Op::Mux,
        o.name() == "aoi22"@ <==> o == Op::Aoi22,
        o.name() == "oai22"@ <==> o == Op::Oai22,
{
    operator_is_named(o);
    operator_is_named(Op::Var);
    operator_is_named(Op::Zero);
    operator_is_named(Op::One);
    operator_is_named(Op::Not);
    operator_is_named(Op::And);
    operator_is_named(Op::Or);
    operator_is_named(Op::Xor);
    operator_is_named(Op::Nand);
    operator_is_named(Op::Nor);
    operator_is_named(Op::Xnor);
    operator_is_named(Op::Aoi21);
    operator_is_named(Op::Oai21);
    operator_is_named(Op::Mux);
    operator_is_named(Op::Aoi22);
    operator_is_named(Op::Oai22);
}

/// The bits of a gate's table.
pub(crate) proof fn lemma_gate_bits(o: Op, m: u64)
    requires
        o.is_gate(),
        m < pow2(o.pins()),
    ensures
        bit_of(o.table(), m) == gate_says(o.name(), |p: int| bit_of(m, p as u64)),
{
    lemma_names_apart(o);
    lemma_pow2_small(o.pins());
    let f = |k: int| o.value(k as u64);
    lemma_pack_bit(pow2(o.pins()), f, m as int);
    assert(bit_of(o.table(), m) == bit(o.table(), m as int));
    assert(bit(m, 0) == bit_of(m, 0u64));
    assert(bit(m, 1) == bit_of(m, 1u64));
    assert(bit(m, 2) == bit_of(m, 2u64));
    assert(bit(m, 3) == bit_of(m, 3u64));
}

/// One constructor and the name that the vocabulary gives it: the kernel is the one that it
/// can stand as, and there is an error only where there is none.
proof fn lemma_kernel_stands(f: FuncTab, i: usize, op_map: Seq<(String, String)>)
    requires
        f.arity == f.eq_mask@.len(),
    ensures
        match kernel_of(&f, i, op_map) {
            Ok(k) => mapped(op_map, f.term_name@) matches Some(name) && stands_as(name, f, k),
            Err(_) => mapped(op_map, f.term_name@) matches Some(name) ==> forall|k: Kernel|
                !#[trigger] stands_as(name, f, k),
        },
{
    lemma_all_or_none(f.eq_mask@);
    reveal_with_fuel(pow2, 5);
    if let Some(name) = mapped(op_map, f.term_name@) {
        match op_named(name) {
            None => {
                assert forall|k: Kernel| !#[trigger] stands_as(name, f, k) by {
                    if stands_as(name, f, k) {
                        operator_is_named(Op::Var);
                        operator_is_named(Op::Zero);
                        operator_is_named(Op::One);
                        operator_is_named(Op::Not);
                        operator_is_named(Op::And);
                        operator_is_named(Op::Or);
                        operator_is_named(Op::Xor);
                        operator_is_named(Op::Nand);
                        operator_is_named(Op::Nor);
                        operator_is_named(Op::Xnor);
                        operator_is_named(Op::Aoi21);
                        operator_is_named(Op::Oai21);
                        operator_is_named(Op::Mux);
                        operator_is_named(Op::Aoi22);
                        operator_is_named(Op::Oai22);
                    }
                }
            },
            Some(o) => {
                assert(o.name() == name);
                lemma_names_apart(o);
                if let Ok(Kernel::Op { tt }) = kernel_of(&f, i, op_map) {
                    assert forall|m: u64|
                        m < 16 && (f.arity == 1 ==> m < 2) && (f.arity == 2 ==> m < 4) && (
                        f.arity == 3 ==> m < 8) implies #[trigger] bit_of(tt, m) == gate_says(
                        name,
                        |p: int| bit_of(m, p as u64),
                    ) by {
                        lemma_gate_bits(o, m);
                    }
                }
            },
        }
    }
}

/// Every constructor of a vocabulary stands for the operator that its name is mapped to.
pub proof fn kernels_stand_for_operators(
    funcs: Seq<FuncTab>,
    op_map: Seq<(String, String)>,
    n: nat,
    f: int,
)
    requires
        n <= funcs.len() <= usize::MAX,
        0 <= f < n,
        funcs[f].arity == funcs[f].eq_mask@.len(),
    ensures
        all_kernels(funcs, op_map, n) matches Ok(ks) ==> ks.len() == n && (mapped(
            op_map,
            funcs[f].term_name@,
        ) matches Some(name) && stands_as(name, funcs[f], ks[f])),
        all_kernels(funcs, op_map, n) matches Err(e) ==> {
            &&& f < e.spec_func() ==> (mapped(op_map, funcs[f].term_name@) matches Some(name)
                && exists|k: Kernel| #[trigger] stands_as(name, funcs[f], k))
            &&& f == e.spec_func() ==> (mapped(op_map, funcs[f].term_name@) matches Some(name)
                ==> forall|k: Kernel| !#[trigger] stands_as(name, funcs[f], k))
        },
    decreases n,
{
    lemma_kernel_each(funcs, op_map, n);
    lemma_kernel_stands(funcs[f], f as usize, op_map);
    if all_kernels(funcs, op_map, n) is Ok {
        let ks = all_kernels(funcs, op_map, n)->Ok_0;
        assert(kernel_of(&funcs[f], f as usize, op_map) == Ok::<Kernel, KernelError>(ks[f]));
    } else {
        lemma_kernel_error_in_range(funcs, op_map, (n - 1) as nat);
        if f < n - 1 {
            kernels_stand_for_operators(funcs, op_map, (n - 1) as nat, f);
        }
        lemma_kernel_each(funcs, op_map, (n - 1) as nat);
    }
}

} // verus!
