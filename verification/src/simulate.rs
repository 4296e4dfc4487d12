//! Simulating rebuilt terms: they compute what their cut says.
use vstd::prelude::*;

use crate::cut::{composition_is_sound, cut_value, self_cut, CutView};
use crate::cut_iter::CutIterator;
use crate::egraph::TermView;
use crate::enumerate::{gate_of, list_ok, operands, realized, some_has, trivial, Sweep};
use crate::kernel::{has_const, kernel_at, kind_of, ClassKind, Kernel};
use crate::leaves::increasing;
use crate::reconstruct::{
    leaf_name, leaf_names_are_numbered, renders, renders_const, renders_kids, renders_leaf,
};
use crate::truth::{bit, lemma_pack_ext, lemma_pack_own_bits, lemma_single, pack, pow2};

verus! {

/// Some constructor has the name `head`.
pub open spec fn is_head(it: &CutIterator, head: Seq<char>) -> bool {
    exists|f: int| 0 <= f < it.graph.funcs@.len() && #[trigger] it.head_name(f) == head
}

/// What the constructor of the name `head` computes.
pub open spec fn head_kernel(it: &CutIterator, head: Seq<char>) -> Kernel {
    it.kernels@[choose|f: int|
        0 <= f < it.graph.funcs@.len() && #[trigger] it.head_name(f) == head]
}

/// The value of term `id` where the primary input of each name has the value that `env`
/// gives it, down to terms of depth `fuel`; `None` if the term is deeper or no term of the
/// vocabulary.
pub open spec fn simulated(
    it: &CutIterator,
    terms: Seq<TermView>,
    env: spec_fn(Seq<char>) -> bool,
    id: usize,
    fuel: nat,
) -> Option<bool>
    decreases fuel, 1nat, 0nat,
{
    if fuel == 0 || id >= terms.len() {
        None
    } else {
        match terms[id as int] {
            TermView::App(head, ch) => if !is_head(it, head) {
                None
            } else {
                match head_kernel(it, head) {
                    Kernel::Leaf => if ch.len() == 1 && ch[0] < terms.len() {
                        match terms[ch[0] as int] {
                            TermView::Text(name) => Some(env(name)),
                            _ => None,
                        }
                    } else {
                        None
                    },
                    Kernel::Const(c) => Some(bit(c, 0)),
                    Kernel::Op { tt } => match simulated_all(
                        it,
                        terms,
                        env,
                        ch,
                        ch.len(),
                        (fuel - 1) as nat,
                    ) {
                        Some(bs) => Some(bit(tt, pack(bs.len(), |j: int| bs[j]) as int)),
                        None => None,
                    },
                }
            },
            _ => None,
        }
    }
}

/// The values of the first `n` of the terms `ch`.
pub open spec fn simulated_all(
    it: &CutIterator,
    terms: Seq<TermView>,
    env: spec_fn(Seq<char>) -> bool,
    ch: Seq<usize>,
    n: nat,
    fuel: nat,
) -> Option<Seq<bool>>
    decreases fuel, 2nat, n,
{
    if n == 0 {
        Some(Seq::empty())
    } else {
        match (
            simulated_all(it, terms, env, ch, (n - 1) as nat, fuel),
            simulated(it, terms, env, ch[n - 1], fuel),
        ) {
            (Some(bs), Some(b)) => Some(bs.push(b)),
            _ => None,
        }
    }
}

/// A leaf of a cut is no constant.
proof fn lemma_leaf_kind(it: &CutIterator, st: Sweep, v: int, i: int, l: u32)
    requires
        it.wf(),
        st == it.sweep(),
        0 <= v < it.graph.size(),
        0 <= i < st.cuts[v].len(),
        st.cuts[v][i].leaves.contains(l),
    ensures
        !(kind_of(&it.graph, it.kernels@, l as int) matches Some(ClassKind::Const(_))),
    decreases st.rank[v],
{
    assert(list_ok(&it.graph, it.params, it.kernels@, it.cone@, st.cuts, st.rank, v));
    let c = st.cuts[v][i];
    if i == 0 {
        assert(trivial(&it.graph, it.kernels@, v, c));
    } else {
        assert(realized(&it.graph, it.kernels@, st.cuts, st.rank, v, c));
        let (e, chosen) = c.realization->0;
        let ei = e as int;
        let cs = operands(&it.graph, st.cuts, ei, chosen);
        let q = choose|q: int| 0 <= q < c.leaves.len() && c.leaves[q] == l;
        assert(some_has(cs, c.leaves[q]));
        let j = choose|j: int| 0 <= j < cs.len() && (#[trigger] cs[j]).leaves.contains(l);
        let w = it.graph.children(ei)[j];
        assert(it.graph.enodes@[ei].ch_eq@[j] < it.graph.size());
        assert(chosen[j] < st.cuts[w as int].len());
        assert(st.rank[w as int] < st.rank[v]);
        lemma_leaf_kind(it, st, w as int, chosen[j] as int, l);
    }
}

/// The values of the leaves where the primary inputs have the values of `env`.
pub open spec fn leaf_values(
    leaves: Seq<u32>,
    env: spec_fn(Seq<char>) -> bool,
) -> spec_fn(u32) -> bool {
    |l: u32| env(leaf_name(leaves.index_of(l)))
}

proof fn lemma_head(it: &CutIterator, f: int)
    requires
        it.wf(),
        0 <= f < it.graph.funcs@.len(),
    ensures
        is_head(it, it.head_name(f)),
        head_kernel(it, it.head_name(f)) == it.kernels@[f],
{
    let head = it.head_name(f);
    assert(it.head_name(f) == head);
    let g = choose|g: int| 0 <= g < it.graph.funcs@.len() && #[trigger] it.head_name(g) == head;
    assert(it.graph.funcs@[f].term_name@ == it.graph.funcs@[g].term_name@);
}

/// A rebuilt cone over leaves that no constant is among has the value of its cut.
proof fn lemma_simulated(
    it: &CutIterator,
    st: Sweep,
    terms: Seq<TermView>,
    leaves: Seq<u32>,
    env: spec_fn(Seq<char>) -> bool,
    v: u32,
    ci: int,
    id: usize,
    fuel: nat,
)
    requires
        it.wf(),
        st == it.sweep(),
        v < it.graph.size(),
        0 <= ci < st.cuts[v as int].len(),
        renders(it, st, terms, leaves, v, ci, id),
        fuel > st.rank[v as int],
        forall|i: int|
            0 <= i < leaves.len() ==> !(kind_of(
                &it.graph,
                it.kernels@,
                #[trigger] leaves[i] as int,
            ) matches Some(ClassKind::Const(_))),
    ensures
        simulated(it, terms, env, id, fuel) == Some(
            cut_value(st.cuts[v as int][ci], leaf_values(leaves, env)),
        ),
    decreases st.rank[v as int], 1nat, 0nat,
{
    let a = leaf_values(leaves, env);
    let c = st.cuts[v as int][ci];
    assert(list_ok(&it.graph, it.params, it.kernels@, it.cone@, st.cuts, st.rank, v as int));
    if ci > 0 {
        assert(realized(&it.graph, it.kernels@, st.cuts, st.rank, v as int, c));
    } else {
        assert(trivial(&it.graph, it.kernels@, v as int, c));
    }
    match c.realization {
        None => {
            if leaves.contains(v) {
                let q = choose|q: int| 0 <= q < leaves.len() && leaves[q] == v;
                assert(!(kind_of(&it.graph, it.kernels@, leaves[q] as int) matches Some(
                    ClassKind::Const(_),
                )));
                assert(c == self_cut(v));
                assert(renders_leaf(it, terms, leaves, v, id));
                let f = it.var_func->0 as int;
                lemma_head(it, f);
                let g = |i: int| a(c.leaves[i]);
                lemma_single(g);
                assert(c.leaves[0] == v);
            } else {
                assert(renders_const(it, terms, v, id));
                let b = kind_of(&it.graph, it.kernels@, v as int)->0->Const_0;
                assert(has_const(&it.graph, it.kernels@, v as int, b));
                let i = choose|i: int|
                    0 <= i < it.graph.enodes_of@[v as int]@.len() && #[trigger] kernel_at(
                        &it.graph,
                        it.kernels@,
                        v as int,
                        i,
                    ) == Kernel::Const(b);
                let e = it.graph.enodes_of@[v as int]@[i] as int;
                assert(it.graph.enodes_of@[v as int]@[i] < it.graph.enodes@.len());
                assert(it.graph.enodes@[e].func < it.graph.funcs@.len());
                assert(it.kernels@[it.graph.enodes@[e].func as int] == Kernel::Const(b));
                let f = it.const_func(b)->0 as int;
                lemma_head(it, f);
                assert(c.leaves.len() == 0);
            }
        },
        Some((e, chosen)) => {
            let ei = e as int;
            let f = it.graph.enodes@[ei].func as int;
            assert(it.graph.enodes@[ei].func < it.graph.funcs@.len());
            lemma_head(it, f);
            let cs = operands(&it.graph, st.cuts, ei, chosen);
            let tt = gate_of(&it.graph, it.kernels@, ei)->0;
            match terms[id as int] {
                TermView::App(head, ch) => {
                    lemma_simulated_all(
                        it,
                        st,
                        terms,
                        leaves,
                        env,
                        v,
                        c,
                        ch,
                        ch.len(),
                        (fuel - 1) as nat,
                    );
                    let bs = simulated_all(it, terms, env, ch, ch.len(), (fuel - 1) as nat)->0;
                    composition_is_sound(tt, cs, c.leaves, a);
                    lemma_pack_ext(
                        bs.len(),
                        |j: int| bs[j],
                        |j: int| cut_value(cs[j], a),
                    );
                },
                _ => {},
            }
        },
    }
}

proof fn lemma_simulated_all(
    it: &CutIterator,
    st: Sweep,
    terms: Seq<TermView>,
    leaves: Seq<u32>,
    env: spec_fn(Seq<char>) -> bool,
    v: u32,
    c: CutView,
    ch: Seq<usize>,
    n: nat,
    fuel: nat,
)
    requires
        it.wf(),
        st == it.sweep(),
        v < it.graph.size(),
        realized(&it.graph, it.kernels@, st.cuts, st.rank, v as int, c),
        ({
            let (e, chosen) = c.realization->0;
            &&& n <= it.graph.children(e as int).len()
            &&& renders_kids(it, st, terms, leaves, v, e as int, chosen, ch, n)
        }),
        fuel >= st.rank[v as int],
        forall|i: int|
            0 <= i < leaves.len() ==> !(kind_of(
                &it.graph,
                it.kernels@,
                #[trigger] leaves[i] as int,
            ) matches Some(ClassKind::Const(_))),
    ensures
        ({
            let (e, chosen) = c.realization->0;
            &&& simulated_all(it, terms, env, ch, n, fuel) matches Some(bs)
            &&& bs.len() == n
            &&& forall|j: int|
                0 <= j < n ==> #[trigger] bs[j] == cut_value(
                    operands(&it.graph, st.cuts, e as int, chosen)[j],
                    leaf_values(leaves, env),
                )
        }),
    decreases st.rank[v as int], 0nat, n,
{
    if n > 0 {
        let (e, chosen) = c.realization->0;
        let kid = it.graph.children(e as int)[n - 1];
        lemma_simulated_all(it, st, terms, leaves, env, v, c, ch, (n - 1) as nat, fuel);
        assert(it.graph.enodes@[e as int].ch_eq@[n - 1] < it.graph.size());
        assert(chosen[n - 1] < st.cuts[kid as int].len());
        lemma_simulated(
            it,
            st,
            terms,
            leaves,
            env,
            kid,
            chosen[n - 1] as int,
            ch[n - 1],
            fuel,
        );
    }
}

/// Simulating the rebuilt term of a cut over its primary inputs gives the cut's truth table
/// back, bit for bit.
pub proof fn rebuilt_term_computes_cut(
    it: &CutIterator,
    terms: Seq<TermView>,
    env: spec_fn(Seq<char>) -> bool,
    v: u32,
    ci: int,
    id: usize,
)
    requires
        it.wf(),
        v < it.graph.size(),
        0 <= ci < it.sweep().cuts[v as int].len(),
        renders(it, it.sweep(), terms, it.sweep().cuts[v as int][ci].leaves, v, ci, id),
    ensures
        ({
            let c = it.sweep().cuts[v as int][ci];
            simulated(it, terms, env, id, it.sweep().rank[v as int] + 1) == Some(
                bit(c.tt, pack(c.leaves.len(), |i: int| env(leaf_name(i))) as int),
            )
        }),
{
    let st = it.sweep();
    let c = st.cuts[v as int][ci];
    let a = leaf_values(c.leaves, env);
    assert forall|i: int| 0 <= i < c.leaves.len() implies !(kind_of(
        &it.graph,
        it.kernels@,
        #[trigger] c.leaves[i] as int,
    ) matches Some(ClassKind::Const(_))) by {
        assert(c.leaves.contains(c.leaves[i]));
        lemma_leaf_kind(it, st, v as int, ci, c.leaves[i]);
    }
    lemma_simulated(it, st, terms, c.leaves, env, v, ci, id, st.rank[v as int] + 1);
    assert(list_ok(&it.graph, it.params, it.kernels@, it.cone@, st.cuts, st.rank, v as int));
    assert(increasing(c.leaves));
    let x = |i: int| a(c.leaves[i]);
    let y = |i: int| env(leaf_name(i));
    assert forall|i: int| 0 <= i < c.leaves.len() implies #[trigger] x(i) == #[trigger] y(i) by {
        let q = c.leaves.index_of(c.leaves[i]);
        assert(c.leaves.contains(c.leaves[i]));
        assert(0 <= q < c.leaves.len() && c.leaves[q] == c.leaves[i]);
        if q < i {
            assert(c.leaves[q] < c.leaves[i]);
        }
        if i < q {
            assert(c.leaves[i] < c.leaves[q]);
        }
    }
    lemma_pack_ext(c.leaves.len(), x, y);
}

/// The values of the primary inputs `n0`, `n1` and so on at minterm `m`: the input with the
/// digit `i` has bit `i` of `m`.
pub open spec fn minterm_inputs(m: u64) -> spec_fn(Seq<char>) -> bool {
    |name: Seq<char>| (m >> ((name[1] as u32 - 48) as u64)) & 1u64 == 1u64
}

/// The rebuilt term of a cut, simulated at every minterm over `n0`, `n1` and so on, one input
/// for each leaf, gives the bits of the cut's truth table, one by one.
pub proof fn rebuilt_term_has_the_table(
    it: &CutIterator,
    terms: Seq<TermView>,
    v: u32,
    ci: int,
    id: usize,
    m: u64,
)
    requires
        it.wf(),
        v < it.graph.size(),
        0 <= ci < it.sweep().cuts[v as int].len(),
        renders(it, it.sweep(), terms, it.sweep().cuts[v as int][ci].leaves, v, ci, id),
        m < pow2(it.sweep().cuts[v as int][ci].leaves.len()),
    ensures
        simulated(it, terms, minterm_inputs(m), id, it.sweep().rank[v as int] + 1) == Some(
            (it.sweep().cuts[v as int][ci].tt >> m) & 1u64 == 1u64,
        ),
{
    let st = it.sweep();
    let c = st.cuts[v as int][ci];
    let env = minterm_inputs(m);
    assert(list_ok(&it.graph, it.params, it.kernels@, it.cone@, st.cuts, st.rank, v as int));
    assert(c.leaves.len() <= 6);
    rebuilt_term_computes_cut(it, terms, env, v, ci, id);
    let x = |i: int| env(leaf_name(i));
    let y = |i: int| bit(m, i);
    assert forall|i: int| 0 <= i < c.leaves.len() implies #[trigger] x(i) == #[trigger] y(i) by {
        leaf_names_are_numbered(i, i);
    }
    lemma_pack_ext(c.leaves.len(), x, y);
    lemma_pack_own_bits(c.leaves.len(), m);
}

} // verus!
