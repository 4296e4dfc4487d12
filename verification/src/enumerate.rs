//! Cut enumeration over the class graph.
use vstd::prelude::*;

use crate::class_graph::ClassGraph;
use crate::cut::{
    composable, compose_tt, composed, const_cut, cut_lists, cut_seq, ref_views, self_cut, Cut,
    CutView, VAR1,
};
use crate::fnv::{fnv_leaves, fnv_words};
use crate::kernel::{class_kind, kernels_cover, kind_of, ClassKind, Kernel, UnsoundClass};
use crate::leaves::{increasing, is_subset, same_leaves, subset};
use crate::merge::{
    child_lists, leaf_lists, least, merge_product, narrow, pairs, products, products_are_unions,
    union_is_leaf_set, union_of,
};
use crate::stats::{stats_ok, summarize, CutStats};

verus! {

/// Limits of the enumeration.
#[derive(Clone, Copy, Debug)]
pub struct CutParams {
    /// Most leaves of a cut.
    pub k: usize,
    /// Most surviving cuts of a class, its trivial cut among them.
    pub max_cuts: usize,
    /// Merge only the first e-nodes of each class.
    pub enode_cap: Option<usize>,
    /// Most candidates of a class that enter the dominance filter.
    pub cand_cap: usize,
}

/// Why an enumeration failed.
#[derive(Clone, Copy, Debug, PartialEq, Eq, Structural)]
pub enum CutError {
    /// The leaf bound does not lie in `2..=6`.
    LeafBound(usize),
    /// A class holds two constants that differ.
    Unsound(UnsoundClass),
    /// A candidate cut of the class has a cone of more than 65535 e-nodes.
    Volume(usize),
}

/// Candidates taken of one e-node.
pub const MERGE_BUDGET: usize = 200;

// ------------------------------------------------------------------ candidates

/// The leaf lists of a cut list.
pub open spec fn leaves_of(list: Seq<CutView>) -> Seq<Seq<u32>> {
    Seq::new(list.len(), |i: int| list[i].leaves)
}

/// The leaf lists of the children of e-node `ei`.
pub open spec fn operand_leaves(graph: &ClassGraph, cuts: Seq<Seq<CutView>>, ei: int) -> Seq<
    Seq<Seq<u32>>,
> {
    Seq::new(graph.children(ei).len(), |d: int| leaves_of(cuts[graph.children(ei)[d] as int]))
}

/// The cuts `chosen` of the children of e-node `ei`.
pub open spec fn operands(
    graph: &ClassGraph,
    cuts: Seq<Seq<CutView>>,
    ei: int,
    chosen: Seq<u32>,
) -> Seq<CutView> {
    Seq::new(
        graph.children(ei).len(),
        |j: int| cuts[graph.children(ei)[j] as int][chosen[j] as int],
    )
}

/// Sum of the cone volumes of some cuts.
pub open spec fn volume_sum(cs: Seq<CutView>) -> nat
    decreases cs.len(),
{
    if cs.len() == 0 {
        0
    } else {
        volume_sum(cs.drop_last()) + cs.last().nnodes as nat
    }
}

/// The operator of e-node `ei`, if its constructor stands for one.
pub open spec fn gate_of(graph: &ClassGraph, kernels: Seq<Kernel>, ei: int) -> Option<u64> {
    match kernels[graph.enodes@[ei].func as int] {
        Kernel::Op { tt } => Some(tt),
        _ => None,
    }
}

/// The candidate that e-node `ei` realizes over the cuts `p.1` of its children, with the
/// leaves `p.0`.
pub open spec fn candidate(
    graph: &ClassGraph,
    kernels: Seq<Kernel>,
    cuts: Seq<Seq<CutView>>,
    ei: int,
    p: (Seq<u32>, Seq<u32>),
) -> CutView {
    let cs = operands(graph, cuts, ei, p.1);
    CutView {
        leaves: p.0,
        tt: composed(gate_of(graph, kernels, ei)->0, cs, p.0),
        realization: Some((ei as usize, p.1)),
        nnodes: (1 + volume_sum(cs)) as u16,
    }
}

/// The merges considered of e-node `ei`.
pub open spec fn merges_of(graph: &ClassGraph, cuts: Seq<Seq<CutView>>, k: nat, ei: int) -> Seq<
    (Seq<u32>, Seq<u32>),
> {
    let all = products(operand_leaves(graph, cuts, ei), k);
    all.take(least(MERGE_BUDGET as nat, all.len()) as int)
}

/// Candidates with distinct leaf sets, and how many later realizations of a leaf set
/// disagreed with the first on the truth table.
#[verifier::ext_equal]
pub struct Pool {
    pub cands: Seq<CutView>,
    pub conflicts: nat,
}

/// `i` is the first candidate with the given leaves.
pub open spec fn first_with(cands: Seq<CutView>, leaves: Seq<u32>, i: int) -> bool {
    &&& 0 <= i < cands.len()
    &&& cands[i].leaves == leaves
    &&& forall|q: int| 0 <= q < i ==> (#[trigger] cands[q]).leaves != leaves
}

impl Pool {
    /// The pool after one more candidate: the first realization of a leaf set is kept.
    pub open spec fn offer(self, c: CutView) -> Pool {
        if exists|i: int| first_with(self.cands, c.leaves, i) {
            let i = choose|i: int| first_with(self.cands, c.leaves, i);
            Pool {
                cands: self.cands,
                conflicts: if self.cands[i].tt != c.tt {
                    self.conflicts + 1
                } else {
                    self.conflicts
                },
            }
        } else {
            Pool { cands: self.cands.push(c), conflicts: self.conflicts }
        }
    }
}

/// The pool after the first `n` of the merges `ms` of e-node `ei`; `None` once a cone
/// volume exceeds 16 bits.
pub open spec fn pool_merges(
    graph: &ClassGraph,
    kernels: Seq<Kernel>,
    cuts: Seq<Seq<CutView>>,
    ei: int,
    ms: Seq<(Seq<u32>, Seq<u32>)>,
    n: nat,
    pool: Pool,
) -> Option<Pool>
    decreases n,
{
    if n == 0 {
        Some(pool)
    } else {
        match pool_merges(graph, kernels, cuts, ei, ms, (n - 1) as nat, pool) {
            None => None,
            Some(p) => if 1 + volume_sum(operands(graph, cuts, ei, ms[n - 1].1)) > u16::MAX {
                None
            } else {
                Some(p.offer(candidate(graph, kernels, cuts, ei, ms[n - 1])))
            },
        }
    }
}

/// Class `c` can be used by component `si`: it lies in another one or is finished.
pub open spec fn ready(graph: &ClassGraph, si: int, done: Seq<bool>, c: u32) -> bool {
    graph.scc_of@[c as int] != si || done[c as int]
}

/// Every child of e-node `ei` can be used.
pub open spec fn enode_ready(graph: &ClassGraph, si: int, done: Seq<bool>, ei: int) -> bool {
    forall|j: int|
        0 <= j < graph.children(ei).len() ==> ready(graph, si, done, #[trigger] graph.children(
            ei,
        )[j])
}

/// E-node `ei` is merged: a gate with children, all of which can be used.
pub open spec fn mergeable(
    graph: &ClassGraph,
    kernels: Seq<Kernel>,
    si: int,
    done: Seq<bool>,
    ei: int,
) -> bool {
    &&& enode_ready(graph, si, done, ei)
    &&& graph.children(ei).len() > 0
    &&& gate_of(graph, kernels, ei) is Some
}

/// The e-nodes of class `v` that are considered for merging.
pub open spec fn considered(graph: &ClassGraph, params: CutParams, v: int) -> Seq<usize> {
    let all = graph.enodes_of@[v]@;
    match params.enode_cap {
        Some(c) => all.take(least(c as nat, all.len()) as int),
        None => all,
    }
}

/// The pool of class `v` after the first `n` of its considered e-nodes.
pub open spec fn pool_class(
    graph: &ClassGraph,
    params: CutParams,
    kernels: Seq<Kernel>,
    cuts: Seq<Seq<CutView>>,
    done: Seq<bool>,
    si: int,
    v: int,
    n: nat,
) -> Option<Pool>
    decreases n,
{
    if n == 0 {
        Some(Pool { cands: Seq::empty(), conflicts: 0 })
    } else {
        match pool_class(graph, params, kernels, cuts, done, si, v, (n - 1) as nat) {
            None => None,
            Some(p) => {
                let ei = considered(graph, params, v)[n - 1] as int;
                if mergeable(graph, kernels, si, done, ei) {
                    let ms = merges_of(graph, cuts, params.k as nat, ei);
                    pool_merges(graph, kernels, cuts, ei, ms, ms.len(), p)
                } else {
                    Some(p)
                }
            },
        }
    }
}

// --------------------------------------------------------------------- ranking

/// `a` ranks strictly before `b`: by leaf count, then cone volume, then leaf hash.
pub open spec fn ranks_before(a: CutView, b: CutView) -> bool {
    if a.leaves.len() != b.leaves.len() {
        a.leaves.len() < b.leaves.len()
    } else if a.nnodes != b.nnodes {
        a.nnodes < b.nnodes
    } else {
        fnv_words(a.leaves) < fnv_words(b.leaves)
    }
}

/// `s` with `c` inserted behind everything that it does not rank before.
pub open spec fn inserted(s: Seq<CutView>, c: CutView) -> Seq<CutView>
    decreases s.len(),
{
    if s.len() == 0 || !ranks_before(c, s.last()) {
        s.push(c)
    } else {
        inserted(s.drop_last(), c).push(s.last())
    }
}

/// The stable sort of `s` by rank.
pub open spec fn ranked(s: Seq<CutView>) -> Seq<CutView>
    decreases s.len(),
{
    if s.len() == 0 {
        s
    } else {
        inserted(ranked(s.drop_last()), s.last())
    }
}

/// Some cut in `kept` has its leaves among `leaves`.
pub open spec fn dominated(kept: Seq<CutView>, leaves: Seq<u32>) -> bool {
    exists|i: int| 0 <= i < kept.len() && subset((#[trigger] kept[i]).leaves, leaves)
}

/// `s` without the cuts that an earlier kept one dominates.
pub open spec fn undominated(s: Seq<CutView>) -> Seq<CutView>
    decreases s.len(),
{
    if s.len() == 0 {
        s
    } else {
        let kept = undominated(s.drop_last());
        if dominated(kept, s.last().leaves) {
            kept
        } else {
            kept.push(s.last())
        }
    }
}

/// The surviving candidates: ranked, capped, filtered, capped again.
pub open spec fn survivors(cands: Seq<CutView>, params: CutParams) -> Seq<CutView> {
    let r = ranked(cands);
    let u = undominated(r.take(least(params.cand_cap as nat, r.len()) as int));
    let room = if params.max_cuts > 0 {
        (params.max_cuts - 1) as nat
    } else {
        0
    };
    u.take(least(room, u.len()) as int)
}

// ----------------------------------------------------------------------- sweeps

/// State of the enumeration.
#[verifier::ext_equal]
pub struct Sweep {
    /// Cut lists found so far.
    pub cuts: Seq<Seq<CutView>>,
    /// Which classes are finished.
    pub done: Seq<bool>,
    /// Truth-table conflicts so far.
    pub conflicts: nat,
    /// Longest cut list that merging produced.
    pub widest: nat,
    /// When each class was finished.
    pub rank: Seq<nat>,
    pub clock: nat,
}

impl Sweep {
    /// Class `v` is finished with the given cut list.
    pub open spec fn finish(self, v: u32, list: Seq<CutView>) -> Sweep {
        Sweep {
            cuts: self.cuts.update(v as int, list),
            done: self.done.update(v as int, true),
            rank: self.rank.update(v as int, self.clock),
            clock: self.clock + 1,
            ..self
        }
    }

    /// Class `v` is left without cuts.
    pub open spec fn skip(self, v: u32) -> Sweep {
        Sweep { done: self.done.update(v as int, true), ..self }
    }
}

/// Some e-node of class `v` has only children that can be used.
pub open spec fn usable(graph: &ClassGraph, si: int, done: Seq<bool>, v: int) -> bool {
    exists|i: int|
        0 <= i < graph.enodes_of@[v]@.len() && enode_ready(
            graph,
            si,
            done,
            #[trigger] graph.enodes_of@[v]@[i] as int,
        )
}

/// One visit of class `v` of component `si`: the new state, and whether the class was
/// finished with a cut list.
pub open spec fn visit(
    graph: &ClassGraph,
    params: CutParams,
    kernels: Seq<Kernel>,
    cone: Seq<bool>,
    si: int,
    st: Sweep,
    v: u32,
) -> Result<(Sweep, bool), CutError> {
    if st.done[v as int] {
        Ok((st, false))
    } else if !cone[v as int] {
        Ok((st.skip(v), false))
    } else {
        match kind_of(graph, kernels, v as int) {
            None => Err(CutError::Unsound(UnsoundClass { class: v as usize })),
            Some(ClassKind::Pi) => Ok((st.finish(v, seq![self_cut(v)]), true)),
            Some(ClassKind::Const(c)) => Ok((st.finish(v, seq![const_cut(c)]), true)),
            Some(ClassKind::Internal) => if usable(graph, si, st.done, v as int) {
                match pool_class(
                    graph,
                    params,
                    kernels,
                    st.cuts,
                    st.done,
                    si,
                    v as int,
                    considered(graph, params, v as int).len(),
                ) {
                    None => Err(CutError::Volume(v as usize)),
                    Some(p) => {
                        let list = seq![self_cut(v)] + survivors(p.cands, params);
                        let next = st.finish(v, list);
                        Ok(
                            (
                                Sweep {
                                    conflicts: st.conflicts + p.conflicts,
                                    widest: if list.len() > st.widest {
                                        list.len()
                                    } else {
                                        st.widest
                                    },
                                    ..next
                                },
                                true,
                            ),
                        )
                    },
                }
            } else {
                Ok((st, false))
            },
        }
    }
}

/// One pass over the first `n` members of component `si`: the new state, and whether a
/// class was finished with a cut list.
pub open spec fn pass(
    graph: &ClassGraph,
    params: CutParams,
    kernels: Seq<Kernel>,
    cone: Seq<bool>,
    si: int,
    st: Sweep,
    n: nat,
) -> Result<(Sweep, bool), CutError>
    decreases n,
{
    if n == 0 {
        Ok((st, false))
    } else {
        match pass(graph, params, kernels, cone, si, st, (n - 1) as nat) {
            Err(e) => Err(e),
            Ok((mid, progress)) => match visit(
                graph,
                params,
                kernels,
                cone,
                si,
                mid,
                graph.sccs@[si]@[n - 1],
            ) {
                Err(e) => Err(e),
                Ok((next, more)) => Ok((next, progress || more)),
            },
        }
    }
}

/// Passes over component `si` until one makes no progress, `fuel` at most.
pub open spec fn passes(
    graph: &ClassGraph,
    params: CutParams,
    kernels: Seq<Kernel>,
    cone: Seq<bool>,
    si: int,
    st: Sweep,
    fuel: nat,
) -> Result<Sweep, CutError>
    decreases fuel,
{
    if fuel == 0 {
        Ok(st)
    } else {
        match pass(graph, params, kernels, cone, si, st, graph.sccs@[si]@.len()) {
            Err(e) => Err(e),
            Ok((next, progress)) => if progress {
                passes(graph, params, kernels, cone, si, next, (fuel - 1) as nat)
            } else {
                Ok(next)
            },
        }
    }
}

/// The first `n` members of component `si` that no pass finished get their trivial cut.
pub open spec fn settle(graph: &ClassGraph, cone: Seq<bool>, si: int, st: Sweep, n: nat) -> Sweep
    decreases n,
{
    if n == 0 {
        st
    } else {
        let mid = settle(graph, cone, si, st, (n - 1) as nat);
        let v = graph.sccs@[si]@[n - 1];
        if mid.done[v as int] {
            mid
        } else if cone[v as int] {
            mid.finish(v, seq![self_cut(v)])
        } else {
            mid.skip(v)
        }
    }
}

/// The whole treatment of component `si`.
pub open spec fn component(
    graph: &ClassGraph,
    params: CutParams,
    kernels: Seq<Kernel>,
    cone: Seq<bool>,
    si: int,
    st: Sweep,
) -> Result<Sweep, CutError> {
    let len = graph.sccs@[si]@.len();
    match passes(graph, params, kernels, cone, si, st, len + 1) {
        Err(e) => Err(e),
        Ok(mid) => Ok(settle(graph, cone, si, mid, len)),
    }
}

/// Nothing is finished.
pub open spec fn start(graph: &ClassGraph) -> Sweep {
    Sweep {
        cuts: Seq::new(graph.size(), |v: int| Seq::empty()),
        done: Seq::new(graph.size(), |v: int| false),
        conflicts: 0,
        widest: 0,
        rank: Seq::new(graph.size(), |v: int| 0nat),
        clock: 0,
    }
}

/// The state after the first `n` components.
pub open spec fn components(
    graph: &ClassGraph,
    params: CutParams,
    kernels: Seq<Kernel>,
    cone: Seq<bool>,
    n: nat,
) -> Result<Sweep, CutError>
    decreases n,
{
    if n == 0 {
        Ok(start(graph))
    } else {
        match components(graph, params, kernels, cone, (n - 1) as nat) {
            Err(e) => Err(e),
            Ok(st) => component(graph, params, kernels, cone, n - 1, st),
        }
    }
}

/// The enumeration: components in order, children first.
pub open spec fn enumeration(
    graph: &ClassGraph,
    params: CutParams,
    kernels: Seq<Kernel>,
    cone: Seq<bool>,
) -> Result<Sweep, CutError> {
    if params.k < 2 || params.k > 6 {
        Err(CutError::LeafBound(params.k))
    } else {
        components(graph, params, kernels, cone, graph.sccs@.len())
    }
}

// ------------------------------------------------------------------- invariants

/// What the enumeration needs of its arguments.
pub open spec fn enumerable(
    graph: &ClassGraph,
    params: CutParams,
    kernels: Seq<Kernel>,
    cone: Seq<bool>,
) -> bool {
    &&& graph.wf()
    &&& kernels_cover(graph, kernels)
    &&& cone.len() == graph.size()
    &&& forall|e: int|
        0 <= e < graph.enodes@.len() && gate_of(graph, kernels, e) is Some ==> (
        #[trigger] graph.enodes@[e]).ch_eq@.len() <= 6
    &&& params.max_cuts <= u32::MAX || params.cand_cap < u32::MAX
}

/// Some of the cuts has the leaf `l`.
pub open spec fn some_has(cs: Seq<CutView>, l: u32) -> bool {
    exists|j: int| 0 <= j < cs.len() && (#[trigger] cs[j]).leaves.contains(l)
}

/// Every leaf is one of some cut.
pub open spec fn covered(cs: Seq<CutView>, leaves: Seq<u32>) -> bool {
    forall|i: int| 0 <= i < leaves.len() ==> some_has(cs, #[trigger] leaves[i])
}

/// Cut `c` of class `v` is realized by a gate of the class over cuts of its children,
/// each of an earlier rank.
pub open spec fn realized(
    graph: &ClassGraph,
    kernels: Seq<Kernel>,
    cuts: Seq<Seq<CutView>>,
    rank: Seq<nat>,
    v: int,
    c: CutView,
) -> bool {
    match c.realization {
        None => false,
        Some((e, chosen)) => {
            let ei = e as int;
            let cs = operands(graph, cuts, ei, chosen);
            &&& 0 <= ei < graph.enodes@.len()
            &&& graph.enodes@[ei].out == v
            &&& gate_of(graph, kernels, ei) is Some
            &&& chosen.len() == graph.children(ei).len() > 0
            &&& forall|j: int|
                0 <= j < chosen.len() ==> (#[trigger] chosen[j])
                    < cuts[graph.children(ei)[j] as int].len()
            &&& forall|j: int|
                0 <= j < chosen.len() ==> rank[#[trigger] graph.children(ei)[j] as int] < rank[v]
            &&& composable(cs, c.leaves)
            &&& covered(cs, c.leaves)
            &&& c.tt == composed(gate_of(graph, kernels, ei)->0, cs, c.leaves)
            &&& c.nnodes == 1 + volume_sum(cs)
        },
    }
}

/// Cut `c` of class `v` is the class's trivial one.
pub open spec fn trivial(graph: &ClassGraph, kernels: Seq<Kernel>, v: int, c: CutView) -> bool {
    match kind_of(graph, kernels, v) {
        Some(ClassKind::Const(b)) => c == const_cut(b),
        Some(_) => c == self_cut(v as u32),
        None => false,
    }
}

/// The leaves of a cut of class `v`: at most `k`, in order, each with cuts of its own and
/// either the class itself or of an earlier rank.
pub open spec fn leaves_ok(
    k: nat,
    cuts: Seq<Seq<CutView>>,
    rank: Seq<nat>,
    v: int,
    leaves: Seq<u32>,
) -> bool {
    &&& increasing(leaves)
    &&& leaves.len() <= k
    &&& forall|i: int|
        0 <= i < leaves.len() ==> (#[trigger] leaves[i]) < cuts.len() && cuts[leaves[i] as int].len()
            > 0 && (leaves[i] == v || rank[leaves[i] as int] < rank[v])
}

/// The cut list of class `v`: empty outside the cone; inside it the trivial cut, then
/// realized ones over earlier leaves.
pub open spec fn list_ok(
    graph: &ClassGraph,
    params: CutParams,
    kernels: Seq<Kernel>,
    cone: Seq<bool>,
    cuts: Seq<Seq<CutView>>,
    rank: Seq<nat>,
    v: int,
) -> bool {
    let list = cuts[v];
    &&& list.len() > 0 ==> cone[v] && trivial(graph, kernels, v, list[0])
    &&& list.len() > 1 ==> kind_of(graph, kernels, v) == Some(ClassKind::Internal)
    &&& list.len() <= 1 || list.len() <= params.max_cuts
    &&& list.len() <= 1 || list.len() <= params.cand_cap + 1
    &&& forall|i: int|
        0 <= i < list.len() ==> leaves_ok(
            params.k as nat,
            cuts,
            rank,
            v,
            (#[trigger] list[i]).leaves,
        )
    &&& forall|i: int|
        1 <= i < list.len() ==> realized(graph, kernels, cuts, rank, v, #[trigger] list[i])
    &&& forall|i: int| 1 <= i < list.len() ==> !(#[trigger] list[i]).leaves.contains(v as u32)
    &&& forall|i: int, j: int|
        1 <= i < list.len() && 1 <= j < list.len() && i < j ==> !subset(
            (#[trigger] list[i]).leaves,
            (#[trigger] list[j]).leaves,
        )
}

/// What holds of every state of the enumeration.
pub open spec fn sweep_ok(
    graph: &ClassGraph,
    params: CutParams,
    kernels: Seq<Kernel>,
    cone: Seq<bool>,
    st: Sweep,
) -> bool {
    &&& st.cuts.len() == graph.size()
    &&& st.done.len() == graph.size()
    &&& st.rank.len() == graph.size()
    &&& forall|v: int|
        0 <= v < graph.size() ==> (!(#[trigger] st.done[v]) ==> st.cuts[v].len() == 0)
    &&& forall|v: int|
        0 <= v < graph.size() ==> (#[trigger] st.done[v] && cone[v] ==> st.cuts[v].len() > 0)
    &&& forall|v: int|
        0 <= v < graph.size() ==> (st.cuts[v].len() > 0 ==> #[trigger] st.rank[v] < st.clock)
    &&& forall|v: int|
        0 <= v < graph.size() ==> #[trigger] list_ok(
            graph,
            params,
            kernels,
            cone,
            st.cuts,
            st.rank,
            v,
        )
}

/// Candidate `c` of the unfinished class `v` is realized over the cuts found so far.
spec fn fresh_ok(
    graph: &ClassGraph,
    params: CutParams,
    kernels: Seq<Kernel>,
    cuts: Seq<Seq<CutView>>,
    v: int,
    c: CutView,
) -> bool {
    &&& match c.realization {
        None => false,
        Some((e, chosen)) => {
            let ei = e as int;
            let cs = operands(graph, cuts, ei, chosen);
            &&& 0 <= ei < graph.enodes@.len()
            &&& graph.enodes@[ei].out == v
            &&& gate_of(graph, kernels, ei) is Some
            &&& chosen.len() == graph.children(ei).len() > 0
            &&& forall|j: int|
                0 <= j < chosen.len() ==> (#[trigger] chosen[j])
                    < cuts[graph.children(ei)[j] as int].len()
            &&& composable(cs, c.leaves)
            &&& covered(cs, c.leaves)
            &&& c.tt == composed(gate_of(graph, kernels, ei)->0, cs, c.leaves)
            &&& c.nnodes == 1 + volume_sum(cs)
        },
    }
    &&& increasing(c.leaves)
    &&& c.leaves.len() <= params.k
    &&& forall|i: int|
        0 <= i < c.leaves.len() ==> (#[trigger] c.leaves[i]) < cuts.len()
            && cuts[c.leaves[i] as int].len() > 0
}

spec fn all_fresh(
    graph: &ClassGraph,
    params: CutParams,
    kernels: Seq<Kernel>,
    cuts: Seq<Seq<CutView>>,
    v: int,
    s: Seq<CutView>,
) -> bool {
    forall|i: int| 0 <= i < s.len() ==> fresh_ok(graph, params, kernels, cuts, v, #[trigger] s[i])
}

proof fn lemma_operands_shape(
    graph: &ClassGraph,
    params: CutParams,
    kernels: Seq<Kernel>,
    cone: Seq<bool>,
    st: Sweep,
    ei: int,
)
    requires
        enumerable(graph, params, kernels, cone),
        sweep_ok(graph, params, kernels, cone, st),
        0 <= ei < graph.enodes@.len(),
    ensures
        narrow(operand_leaves(graph, st.cuts, ei)),
        forall|d: int, i: int|
            0 <= d < operand_leaves(graph, st.cuts, ei).len() && 0 <= i < operand_leaves(
                graph,
                st.cuts,
                ei,
            )[d].len() ==> increasing(#[trigger] operand_leaves(graph, st.cuts, ei)[d][i]),
{
    let lists = operand_leaves(graph, st.cuts, ei);
    assert forall|d: int| 0 <= d < lists.len() implies (#[trigger] lists[d]).len() <= u32::MAX by {
        let c = graph.enodes@[ei].ch_eq@[d] as int;
        assert(c < graph.size());
        assert(list_ok(graph, params, kernels, cone, st.cuts, st.rank, c));
    }
    assert forall|d: int, i: int|
        0 <= d < lists.len() && 0 <= i < lists[d].len() implies increasing(
        #[trigger] lists[d][i],
    ) by {
        let c = graph.enodes@[ei].ch_eq@[d] as int;
        assert(c < graph.size());
        assert(list_ok(graph, params, kernels, cone, st.cuts, st.rank, c));
        assert(leaves_ok(params.k as nat, st.cuts, st.rank, c, st.cuts[c][i].leaves));
    }
}

proof fn lemma_merge_fits(
    graph: &ClassGraph,
    params: CutParams,
    kernels: Seq<Kernel>,
    cone: Seq<bool>,
    st: Sweep,
    ei: int,
    p: (Seq<u32>, Seq<u32>),
)
    requires
        enumerable(graph, params, kernels, cone),
        sweep_ok(graph, params, kernels, cone, st),
        2 <= params.k <= 6,
        0 <= ei < graph.enodes@.len(),
        gate_of(graph, kernels, ei) is Some,
        merges_of(graph, st.cuts, params.k as nat, ei).contains(p),
    ensures
        p.1.len() == graph.children(ei).len(),
        forall|j: int|
            0 <= j < p.1.len() ==> (#[trigger] p.1[j]) < st.cuts[graph.children(ei)[j] as int].len(),
        composable(operands(graph, st.cuts, ei, p.1), p.0),
        covered(operands(graph, st.cuts, ei, p.1), p.0),
        p.0.len() <= params.k,
        forall|i: int|
            0 <= i < p.0.len() ==> (#[trigger] p.0[i]) < st.cuts.len() && st.cuts[p.0[i] as int].len()
                > 0,
{
    let ms = merges_of(graph, st.cuts, params.k as nat, ei);
    let lists = operand_leaves(graph, st.cuts, ei);
    let all = products(lists, params.k as nat);
    let i0 = choose|i: int| 0 <= i < ms.len() && ms[i] == p;
    assert(all[i0] == p);
    lemma_operands_shape(graph, params, kernels, cone, st, ei);
    products_are_unions(lists, params.k as nat, i0);
    union_is_leaf_set(lists, p.1);
    let cs = operands(graph, st.cuts, ei, p.1);
    assert(graph.enodes@[ei].ch_eq@.len() <= 6);
    assert forall|j: int| 0 <= j < p.1.len() implies (#[trigger] p.1[j]) < st.cuts[graph.children(
        ei,
    )[j] as int].len() by {
        assert(p.1[j] < lists[j].len());
    }
    assert forall|j: int| 0 <= j < cs.len() implies (#[trigger] cs[j]).leaves.len() <= 6 && subset(
        cs[j].leaves,
        p.0,
    ) by {
        let c = graph.enodes@[ei].ch_eq@[j] as int;
        assert(c < graph.size());
        assert(list_ok(graph, params, kernels, cone, st.cuts, st.rank, c));
        assert(p.1[j] < st.cuts[c].len());
        assert(leaves_ok(params.k as nat, st.cuts, st.rank, c, st.cuts[c][p.1[j] as int].leaves));
        assert(lists[j][p.1[j] as int] == cs[j].leaves);
    }
    assert forall|i: int| 0 <= i < p.0.len() implies (#[trigger] p.0[i]) < st.cuts.len()
        && st.cuts[p.0[i] as int].len() > 0 && some_has(cs, p.0[i]) by {
        assert(union_of(lists, p.1).contains(p.0[i]));
        let d = choose|d: int|
            0 <= d < p.1.len() && lists[d][#[trigger] p.1[d] as int].contains(p.0[i]);
        let c = graph.enodes@[ei].ch_eq@[d] as int;
        assert(c < graph.size());
        assert(list_ok(graph, params, kernels, cone, st.cuts, st.rank, c));
        assert(p.1[d] < st.cuts[c].len());
        let ls = st.cuts[c][p.1[d] as int].leaves;
        assert(leaves_ok(params.k as nat, st.cuts, st.rank, c, ls));
        assert(ls == lists[d][p.1[d] as int]);
        let q = choose|q: int| 0 <= q < ls.len() && ls[q] == p.0[i];
        assert(ls[q] < st.cuts.len());
        assert(cs[d].leaves == ls);
    }
}

proof fn lemma_pool_merges_fresh(
    graph: &ClassGraph,
    params: CutParams,
    kernels: Seq<Kernel>,
    cone: Seq<bool>,
    st: Sweep,
    v: int,
    ei: int,
    n: nat,
    pool: Pool,
)
    requires
        enumerable(graph, params, kernels, cone),
        sweep_ok(graph, params, kernels, cone, st),
        2 <= params.k <= 6,
        0 <= ei < graph.enodes@.len(),
        graph.enodes@[ei].out == v,
        ei <= usize::MAX,
        graph.children(ei).len() > 0,
        gate_of(graph, kernels, ei) is Some,
        n <= merges_of(graph, st.cuts, params.k as nat, ei).len(),
        all_fresh(graph, params, kernels, st.cuts, v, pool.cands),
    ensures
        ({
            let ms = merges_of(graph, st.cuts, params.k as nat, ei);
            let r = pool_merges(graph, kernels, st.cuts, ei, ms, n, pool);
            r matches Some(p) ==> all_fresh(graph, params, kernels, st.cuts, v, p.cands)
        }),
    decreases n,
{
    let ms = merges_of(graph, st.cuts, params.k as nat, ei);
    if n > 0 {
        lemma_pool_merges_fresh(graph, params, kernels, cone, st, v, ei, (n - 1) as nat, pool);
        let r = pool_merges(graph, kernels, st.cuts, ei, ms, n, pool);
        if r is Some {
            let c = candidate(graph, kernels, st.cuts, ei, ms[n - 1]);
            assert(ms.contains(ms[n - 1]));
            lemma_merge_fits(graph, params, kernels, cone, st, ei, ms[n - 1]);
            assert(fresh_ok(graph, params, kernels, st.cuts, v, c));
        }
    }
}

proof fn lemma_pool_class_fresh(
    graph: &ClassGraph,
    params: CutParams,
    kernels: Seq<Kernel>,
    cone: Seq<bool>,
    st: Sweep,
    si: int,
    v: int,
    n: nat,
)
    requires
        enumerable(graph, params, kernels, cone),
        sweep_ok(graph, params, kernels, cone, st),
        2 <= params.k <= 6,
        0 <= v < graph.size(),
        n <= considered(graph, params, v).len(),
    ensures
        pool_class(graph, params, kernels, st.cuts, st.done, si, v, n) matches Some(p)
            ==> all_fresh(graph, params, kernels, st.cuts, v, p.cands),
    decreases n,
{
    if n > 0 {
        lemma_pool_class_fresh(graph, params, kernels, cone, st, si, v, (n - 1) as nat);
        let prev = pool_class(graph, params, kernels, st.cuts, st.done, si, v, (n - 1) as nat);
        if prev is Some {
            let e = considered(graph, params, v)[n - 1];
            assert(graph.enodes_of@[v]@[n - 1] == e);
            let ei = e as int;
            if mergeable(graph, kernels, si, st.done, ei) {
                let ms = merges_of(graph, st.cuts, params.k as nat, ei);
                lemma_pool_merges_fresh(
                    graph,
                    params,
                    kernels,
                    cone,
                    st,
                    v,
                    ei,
                    ms.len(),
                    prev->0,
                );
            }
        }
    }
}

// ------------------------------------------------------------ facts of the rank

proof fn lemma_inserted_members(s: Seq<CutView>, c: CutView)
    ensures
        inserted(s, c).len() == s.len() + 1,
        forall|i: int|
            0 <= i < inserted(s, c).len() ==> (#[trigger] inserted(s, c)[i]) == c || s.contains(
                inserted(s, c)[i],
            ),
    decreases s.len(),
{
    if s.len() == 0 || !ranks_before(c, s.last()) {
        assert forall|i: int| 0 <= i < s.push(c).len() implies (#[trigger] s.push(c)[i]) == c
            || s.contains(s.push(c)[i]) by {
            if i < s.len() {
                assert(s[i] == s.push(c)[i]);
            }
        }
    } else {
        let t = s.drop_last();
        lemma_inserted_members(t, c);
        let r = inserted(t, c);
        assert forall|i: int| 0 <= i < r.push(s.last()).len() implies (#[trigger] r.push(
            s.last(),
        )[i]) == c || s.contains(r.push(s.last())[i]) by {
            if i < r.len() {
                assert(r[i] == r.push(s.last())[i]);
                if r[i] != c {
                    let q = choose|q: int| 0 <= q < t.len() && t[q] == r[i];
                    assert(s[q] == r[i]);
                }
            } else {
                assert(s[s.len() - 1] == s.last());
            }
        }
    }
}

proof fn lemma_ranked_members(s: Seq<CutView>)
    ensures
        ranked(s).len() == s.len(),
        forall|i: int| 0 <= i < s.len() ==> s.contains(#[trigger] ranked(s)[i]),
    decreases s.len(),
{
    if s.len() > 0 {
        let t = s.drop_last();
        lemma_ranked_members(t);
        lemma_inserted_members(ranked(t), s.last());
        assert forall|i: int| 0 <= i < s.len() implies s.contains(#[trigger] ranked(s)[i]) by {
            let x = ranked(s)[i];
            if x == s.last() {
                assert(s[s.len() - 1] == x);
            } else {
                let q = choose|q: int| 0 <= q < ranked(t).len() && ranked(t)[q] == x;
                assert(t.contains(ranked(t)[q]));
                let z = choose|z: int| 0 <= z < t.len() && t[z] == x;
                assert(s[z] == x);
            }
        }
    }
}

proof fn lemma_undominated_members(s: Seq<CutView>)
    ensures
        undominated(s).len() <= s.len(),
        forall|i: int| 0 <= i < undominated(s).len() ==> s.contains(#[trigger] undominated(s)[i]),
        forall|i: int, j: int|
            0 <= i < j < undominated(s).len() ==> !subset(
                (#[trigger] undominated(s)[i]).leaves,
                (#[trigger] undominated(s)[j]).leaves,
            ),
    decreases s.len(),
{
    if s.len() > 0 {
        let t = s.drop_last();
        lemma_undominated_members(t);
        let kept = undominated(t);
        assert forall|i: int| 0 <= i < undominated(s).len() implies s.contains(
            #[trigger] undominated(s)[i],
        ) by {
            if i < kept.len() {
                assert(undominated(s)[i] == kept[i]);
                let q = choose|q: int| 0 <= q < t.len() && t[q] == kept[i];
                assert(s[q] == kept[i]);
            } else {
                assert(s[s.len() - 1] == s.last());
            }
        }
    }
}

proof fn lemma_survivors_fresh(
    graph: &ClassGraph,
    params: CutParams,
    kernels: Seq<Kernel>,
    cuts: Seq<Seq<CutView>>,
    v: int,
    cands: Seq<CutView>,
)
    requires
        all_fresh(graph, params, kernels, cuts, v, cands),
    ensures
        ({
            let s = survivors(cands, params);
            &&& all_fresh(graph, params, kernels, cuts, v, s)
            &&& s.len() == 0 || s.len() + 1 <= params.max_cuts
            &&& s.len() <= params.cand_cap
            &&& forall|i: int, j: int|
                0 <= i < j < s.len() ==> !subset(
                    (#[trigger] s[i]).leaves,
                    (#[trigger] s[j]).leaves,
                )
        }),
{
    let r = ranked(cands);
    let t = r.take(least(params.cand_cap as nat, r.len()) as int);
    let u = undominated(t);
    let s = survivors(cands, params);
    lemma_ranked_members(cands);
    lemma_undominated_members(t);
    assert forall|i: int| 0 <= i < s.len() implies fresh_ok(
        graph,
        params,
        kernels,
        cuts,
        v,
        #[trigger] s[i],
    ) by {
        assert(s[i] == u[i]);
        let q = choose|q: int| 0 <= q < t.len() && t[q] == u[i];
        assert(r[q] == u[i]);
        assert(cands.contains(r[q]));
    }
    assert forall|i: int, j: int| 0 <= i < j < s.len() implies !subset(
        (#[trigger] s[i]).leaves,
        (#[trigger] s[j]).leaves,
    ) by {
        assert(s[i] == u[i] && s[j] == u[j]);
    }
}

/// Finishing a class keeps the state's invariant.
proof fn lemma_finish_ok(
    graph: &ClassGraph,
    params: CutParams,
    kernels: Seq<Kernel>,
    cone: Seq<bool>,
    st: Sweep,
    v: u32,
    list: Seq<CutView>,
)
    requires
        enumerable(graph, params, kernels, cone),
        sweep_ok(graph, params, kernels, cone, st),
        2 <= params.k <= 6,
        v < graph.size(),
        !st.done[v as int],
        cone[v as int],
        list.len() > 0,
        trivial(graph, kernels, v as int, list[0]),
        all_fresh(graph, params, kernels, st.cuts, v as int, list.drop_first()),
        list.len() > 1 ==> kind_of(graph, kernels, v as int) == Some(ClassKind::Internal),
        list.len() == 1 || list.len() <= params.max_cuts,
        list.len() <= params.cand_cap + 1,
        forall|i: int, j: int|
            1 <= i < j < list.len() ==> !subset(
                (#[trigger] list[i]).leaves,
                (#[trigger] list[j]).leaves,
            ),
    ensures
        sweep_ok(graph, params, kernels, cone, st.finish(v, list)),
{
    let nx = st.finish(v, list);
    assert(st.cuts[v as int].len() == 0);
    assert forall|w: int| 0 <= w < graph.size() implies #[trigger] list_ok(
        graph,
        params,
        kernels,
        cone,
        nx.cuts,
        nx.rank,
        w,
    ) by {
        if w != v {
            assert(list_ok(graph, params, kernels, cone, st.cuts, st.rank, w));
            let l = st.cuts[w];
            assert(nx.cuts[w] == l);
            assert forall|i: int| 0 <= i < l.len() implies leaves_ok(
                params.k as nat,
                nx.cuts,
                nx.rank,
                w,
                (#[trigger] l[i]).leaves,
            ) by {
                assert(leaves_ok(params.k as nat, st.cuts, st.rank, w, l[i].leaves));
            }
            assert forall|i: int| 1 <= i < l.len() implies realized(
                graph,
                kernels,
                nx.cuts,
                nx.rank,
                w,
                #[trigger] l[i],
            ) by {
                let c = l[i];
                assert(realized(graph, kernels, st.cuts, st.rank, w, c));
                let (e, chosen) = c.realization->0;
                let ei = e as int;
                assert(operands(graph, nx.cuts, ei, chosen) =~= operands(
                    graph,
                    st.cuts,
                    ei,
                    chosen,
                )) by {
                    assert forall|j: int| 0 <= j < graph.children(ei).len() implies operands(
                        graph,
                        nx.cuts,
                        ei,
                        chosen,
                    )[j] == operands(graph, st.cuts, ei, chosen)[j] by {
                        assert(chosen[j] < st.cuts[graph.children(ei)[j] as int].len());
                        assert(graph.enodes@[ei].ch_eq@[j] < graph.size());
                    }
                }
                assert forall|j: int| 0 <= j < chosen.len() implies (#[trigger] chosen[j])
                    < nx.cuts[graph.children(ei)[j] as int].len() by {
                    assert(chosen[j] < st.cuts[graph.children(ei)[j] as int].len());
                    assert(graph.enodes@[ei].ch_eq@[j] < graph.size());
                }
                assert forall|j: int| 0 <= j < chosen.len() implies nx.rank[
                    #[trigger] graph.children(ei)[j] as int
                ] < nx.rank[w] by {
                    assert(chosen[j] < st.cuts[graph.children(ei)[j] as int].len());
                    assert(graph.enodes@[ei].ch_eq@[j] < graph.size());
                }
            }
        } else {
            assert(nx.cuts[w] == list);
            assert forall|i: int| 0 <= i < list.len() implies leaves_ok(
                params.k as nat,
                nx.cuts,
                nx.rank,
                w,
                (#[trigger] list[i]).leaves,
            ) by {
                if i > 0 {
                    let c = list.drop_first()[i - 1];
                    assert(c == list[i]);
                    assert(fresh_ok(graph, params, kernels, st.cuts, w, c));
                    assert forall|q: int| 0 <= q < c.leaves.len() implies (#[trigger] c.leaves[q])
                        < nx.cuts.len() && nx.cuts[c.leaves[q] as int].len() > 0 && (c.leaves[q]
                        == w || nx.rank[c.leaves[q] as int] < nx.rank[w]) by {
                        let x = c.leaves[q] as int;
                        assert(st.cuts[x].len() > 0);
                        assert(st.rank[x] < st.clock);
                    }
                }
            }
            assert forall|i: int| 1 <= i < list.len() implies !(#[trigger] list[i]).leaves.contains(
                v,
            ) by {
                let c = list.drop_first()[i - 1];
                assert(c == list[i]);
                assert(fresh_ok(graph, params, kernels, st.cuts, w, c));
            }
            assert forall|i: int| 1 <= i < list.len() implies realized(
                graph,
                kernels,
                nx.cuts,
                nx.rank,
                w,
                #[trigger] list[i],
            ) by {
                let c = list.drop_first()[i - 1];
                assert(c == list[i]);
                assert(fresh_ok(graph, params, kernels, st.cuts, w, c));
                let (e, chosen) = c.realization->0;
                let ei = e as int;
                assert forall|j: int| 0 <= j < chosen.len() implies (#[trigger] chosen[j])
                    < nx.cuts[graph.children(ei)[j] as int].len() by {
                    assert(chosen[j] < st.cuts[graph.children(ei)[j] as int].len());
                }
                assert forall|j: int| 0 <= j < chosen.len() implies nx.rank[
                    #[trigger] graph.children(ei)[j] as int
                ] < nx.rank[w] by {
                    assert(chosen[j] < st.cuts[graph.children(ei)[j] as int].len());
                    assert(graph.enodes@[ei].ch_eq@[j] < graph.size());
                    assert(st.rank[graph.children(ei)[j] as int] < st.clock);
                }
                assert(operands(graph, nx.cuts, ei, chosen) =~= operands(
                    graph,
                    st.cuts,
                    ei,
                    chosen,
                )) by {
                    assert forall|j: int| 0 <= j < graph.children(ei).len() implies operands(
                        graph,
                        nx.cuts,
                        ei,
                        chosen,
                    )[j] == operands(graph, st.cuts, ei, chosen)[j] by {
                        assert(chosen[j] < st.cuts[graph.children(ei)[j] as int].len());
                        assert(graph.enodes@[ei].ch_eq@[j] < graph.size());
                    }
                }
            }
        }
    }
}

/// A visit keeps what holds of every state.
pub(crate) proof fn lemma_visit_ok(
    graph: &ClassGraph,
    params: CutParams,
    kernels: Seq<Kernel>,
    cone: Seq<bool>,
    si: int,
    st: Sweep,
    v: u32,
)
    requires
        enumerable(graph, params, kernels, cone),
        sweep_ok(graph, params, kernels, cone, st),
        2 <= params.k <= 6,
        v < graph.size(),
    ensures
        visit(graph, params, kernels, cone, si, st, v) matches Ok((next, _)) ==> sweep_ok(
            graph,
            params,
            kernels,
            cone,
            next,
        ) && later(st, next),
{
    let r = visit(graph, params, kernels, cone, si, st, v);
    if !st.done[v as int] && r is Ok {
        if !cone[v as int] {
            lemma_skip_ok(graph, params, kernels, cone, st, v);
        } else {
            match kind_of(graph, kernels, v as int) {
                None => {},
                Some(ClassKind::Pi) => {
                    let list = seq![self_cut(v)];
                    assert(list.drop_first() =~= Seq::empty());
                    lemma_finish_ok(graph, params, kernels, cone, st, v, list);
                },
                Some(ClassKind::Const(c)) => {
                    let list = seq![const_cut(c)];
                    assert(list.drop_first() =~= Seq::empty());
                    lemma_finish_ok(graph, params, kernels, cone, st, v, list);
                },
                Some(ClassKind::Internal) => {
                    if usable(graph, si, st.done, v as int) {
                        let n = considered(graph, params, v as int).len();
                        lemma_pool_class_fresh(graph, params, kernels, cone, st, si, v as int, n);
                        let p = pool_class(
                            graph,
                            params,
                            kernels,
                            st.cuts,
                            st.done,
                            si,
                            v as int,
                            n,
                        )->0;
                        lemma_survivors_fresh(
                            graph,
                            params,
                            kernels,
                            st.cuts,
                            v as int,
                            p.cands,
                        );
                        let s = survivors(p.cands, params);
                        let list = seq![self_cut(v)] + s;
                        assert(list.drop_first() =~= s);
                        assert forall|i: int, j: int| 1 <= i < j < list.len() implies !subset(
                            (#[trigger] list[i]).leaves,
                            (#[trigger] list[j]).leaves,
                        ) by {
                            assert(list[i] == s[i - 1] && list[j] == s[j - 1]);
                        }
                        lemma_finish_ok(graph, params, kernels, cone, st, v, list);
                        let next = r->Ok_0.0;
                        assert(sweep_ok(graph, params, kernels, cone, st.finish(v, list)));
                        assert(next.cuts == st.finish(v, list).cuts);
                        lemma_same_lists(graph, params, kernels, cone, st.finish(v, list), next);
                    }
                },
            }
        }
    }
}

/// What is finished stays so, with the same cuts.
pub open spec fn later(st: Sweep, next: Sweep) -> bool {
    &&& st.cuts.len() == next.cuts.len()
    &&& st.done.len() == next.done.len()
    &&& forall|w: int|
        0 <= w < st.done.len() && #[trigger] st.done[w] ==> next.done[w] && next.cuts[w]
            == st.cuts[w]
}

proof fn lemma_same_lists(
    graph: &ClassGraph,
    params: CutParams,
    kernels: Seq<Kernel>,
    cone: Seq<bool>,
    a: Sweep,
    b: Sweep,
)
    requires
        sweep_ok(graph, params, kernels, cone, a),
        b.cuts == a.cuts,
        b.done == a.done,
        b.rank == a.rank,
        b.clock == a.clock,
    ensures
        sweep_ok(graph, params, kernels, cone, b),
{
    assert forall|w: int| 0 <= w < graph.size() implies #[trigger] list_ok(
        graph,
        params,
        kernels,
        cone,
        b.cuts,
        b.rank,
        w,
    ) by {
        assert(list_ok(graph, params, kernels, cone, a.cuts, a.rank, w));
    }
}

proof fn lemma_skip_ok(
    graph: &ClassGraph,
    params: CutParams,
    kernels: Seq<Kernel>,
    cone: Seq<bool>,
    st: Sweep,
    v: u32,
)
    requires
        sweep_ok(graph, params, kernels, cone, st),
        v < graph.size(),
        !cone[v as int],
    ensures
        sweep_ok(graph, params, kernels, cone, st.skip(v)),
{
    let nx = st.skip(v);
    assert forall|w: int| 0 <= w < graph.size() implies #[trigger] list_ok(
        graph,
        params,
        kernels,
        cone,
        nx.cuts,
        nx.rank,
        w,
    ) by {
        assert(list_ok(graph, params, kernels, cone, st.cuts, st.rank, w));
    }
}

/// A pass keeps what holds of every state.
pub(crate) proof fn lemma_pass_ok(
    graph: &ClassGraph,
    params: CutParams,
    kernels: Seq<Kernel>,
    cone: Seq<bool>,
    si: int,
    st: Sweep,
    n: nat,
)
    requires
        enumerable(graph, params, kernels, cone),
        sweep_ok(graph, params, kernels, cone, st),
        2 <= params.k <= 6,
        0 <= si < graph.sccs@.len(),
        n <= graph.sccs@[si]@.len(),
    ensures
        pass(graph, params, kernels, cone, si, st, n) matches Ok((next, _)) ==> sweep_ok(
            graph,
            params,
            kernels,
            cone,
            next,
        ) && later(st, next),
    decreases n,
{
    if n > 0 {
        lemma_pass_ok(graph, params, kernels, cone, si, st, (n - 1) as nat);
        let prev = pass(graph, params, kernels, cone, si, st, (n - 1) as nat);
        if prev is Ok {
            let v = graph.sccs@[si]@[n - 1];
            assert(v < graph.size());
            lemma_visit_ok(graph, params, kernels, cone, si, prev->Ok_0.0, v);
        }
    }
}

/// Passes keep what holds of every state.
pub(crate) proof fn lemma_passes_ok(
    graph: &ClassGraph,
    params: CutParams,
    kernels: Seq<Kernel>,
    cone: Seq<bool>,
    si: int,
    st: Sweep,
    fuel: nat,
)
    requires
        enumerable(graph, params, kernels, cone),
        sweep_ok(graph, params, kernels, cone, st),
        2 <= params.k <= 6,
        0 <= si < graph.sccs@.len(),
    ensures
        passes(graph, params, kernels, cone, si, st, fuel) matches Ok(next) ==> sweep_ok(
            graph,
            params,
            kernels,
            cone,
            next,
        ) && later(st, next),
    decreases fuel,
{
    if fuel > 0 {
        lemma_pass_ok(graph, params, kernels, cone, si, st, graph.sccs@[si]@.len());
        let r = pass(graph, params, kernels, cone, si, st, graph.sccs@[si]@.len());
        if r is Ok && r->Ok_0.1 {
            lemma_passes_ok(graph, params, kernels, cone, si, r->Ok_0.0, (fuel - 1) as nat);
        }
    }
}

/// Settling the rest of a component keeps what holds of every state.
pub(crate) proof fn lemma_settle_ok(
    graph: &ClassGraph,
    params: CutParams,
    kernels: Seq<Kernel>,
    cone: Seq<bool>,
    si: int,
    st: Sweep,
    n: nat,
)
    requires
        enumerable(graph, params, kernels, cone),
        sweep_ok(graph, params, kernels, cone, st),
        settleable(graph, kernels, cone, si, st),
        2 <= params.k <= 6,
        0 <= si < graph.sccs@.len(),
        n <= graph.sccs@[si]@.len(),
    ensures
        sweep_ok(graph, params, kernels, cone, settle(graph, cone, si, st, n)),
        later(st, settle(graph, cone, si, st, n)),
        forall|i: int|
            0 <= i < n ==> settle(graph, cone, si, st, n).done[#[trigger] graph.sccs@[si]@[i] as int],
    decreases n,
{
    if n > 0 {
        lemma_settle_ok(graph, params, kernels, cone, si, st, (n - 1) as nat);
        let mid = settle(graph, cone, si, st, (n - 1) as nat);
        let v = graph.sccs@[si]@[n - 1];
        assert(v < graph.size());
        if !mid.done[v as int] {
            if cone[v as int] {
                assert(!st.done[v as int]);
                let list = seq![self_cut(v)];
                assert(list.drop_first() =~= Seq::empty());
                lemma_finish_ok(graph, params, kernels, cone, mid, v, list);
            } else {
                lemma_skip_ok(graph, params, kernels, cone, mid, v);
            }
        }
        let nx = settle(graph, cone, si, st, n);
        assert forall|i: int| 0 <= i < n implies nx.done[
            #[trigger] graph.sccs@[si]@[i] as int
        ] by {
            if i < n - 1 {
                assert(mid.done[graph.sccs@[si]@[i] as int]);
            }
        }
    }
}

/// The unfinished members of the component in the cone are no constants.
pub open spec fn settleable(
    graph: &ClassGraph,
    kernels: Seq<Kernel>,
    cone: Seq<bool>,
    si: int,
    st: Sweep,
) -> bool {
    forall|i: int|
        0 <= i < graph.sccs@[si]@.len() && !st.done[#[trigger] graph.sccs@[si]@[i] as int]
            && cone[graph.sccs@[si]@[i] as int] ==> kind_of(
            graph,
            kernels,
            graph.sccs@[si]@[i] as int,
        ) == Some(ClassKind::Internal)
}

proof fn lemma_pass_settleable(
    graph: &ClassGraph,
    params: CutParams,
    kernels: Seq<Kernel>,
    cone: Seq<bool>,
    si: int,
    st: Sweep,
    n: nat,
)
    requires
        enumerable(graph, params, kernels, cone),
        sweep_ok(graph, params, kernels, cone, st),
        2 <= params.k <= 6,
        0 <= si < graph.sccs@.len(),
        n <= graph.sccs@[si]@.len(),
    ensures
        pass(graph, params, kernels, cone, si, st, n) matches Ok((next, _)) ==> forall|i: int|
            0 <= i < n && !next.done[#[trigger] graph.sccs@[si]@[i] as int] ==> kind_of(
                graph,
                kernels,
                graph.sccs@[si]@[i] as int,
            ) == Some(ClassKind::Internal),
    decreases n,
{
    if n > 0 {
        lemma_pass_settleable(graph, params, kernels, cone, si, st, (n - 1) as nat);
        lemma_pass_ok(graph, params, kernels, cone, si, st, (n - 1) as nat);
        lemma_pass_ok(graph, params, kernels, cone, si, st, n);
        let prev = pass(graph, params, kernels, cone, si, st, (n - 1) as nat);
        let r = pass(graph, params, kernels, cone, si, st, n);
        if r is Ok {
            let mid = prev->Ok_0.0;
            let next = r->Ok_0.0;
            let v = graph.sccs@[si]@[n - 1];
            assert(v < graph.size());
            lemma_visit_ok(graph, params, kernels, cone, si, mid, v);
            assert forall|i: int| 0 <= i < n && !next.done[
                #[trigger] graph.sccs@[si]@[i] as int
            ] implies kind_of(graph, kernels, graph.sccs@[si]@[i] as int) == Some(
                ClassKind::Internal,
            ) by {
                assert(graph.sccs@[si]@[i] < graph.size());
                if i < n - 1 {
                    assert(!mid.done[graph.sccs@[si]@[i] as int]);
                }
            }
        }
    }
}

/// What the passes over a component leave open are internal classes.
pub(crate) proof fn lemma_passes_settleable(
    graph: &ClassGraph,
    params: CutParams,
    kernels: Seq<Kernel>,
    cone: Seq<bool>,
    si: int,
    st: Sweep,
    fuel: nat,
)
    requires
        enumerable(graph, params, kernels, cone),
        sweep_ok(graph, params, kernels, cone, st),
        2 <= params.k <= 6,
        0 <= si < graph.sccs@.len(),
        fuel > 0,
    ensures
        passes(graph, params, kernels, cone, si, st, fuel) matches Ok(next) ==> settleable(
            graph,
            kernels,
            cone,
            si,
            next,
        ),
    decreases fuel,
{
    let n = graph.sccs@[si]@.len();
    lemma_pass_ok(graph, params, kernels, cone, si, st, n);
    lemma_pass_settleable(graph, params, kernels, cone, si, st, n);
    let r = pass(graph, params, kernels, cone, si, st, n);
    if r is Ok && r->Ok_0.1 && fuel > 1 {
        lemma_passes_settleable(graph, params, kernels, cone, si, r->Ok_0.0, (fuel - 1) as nat);
    }
}

proof fn lemma_component_ok(
    graph: &ClassGraph,
    params: CutParams,
    kernels: Seq<Kernel>,
    cone: Seq<bool>,
    si: int,
    st: Sweep,
)
    requires
        enumerable(graph, params, kernels, cone),
        sweep_ok(graph, params, kernels, cone, st),
        2 <= params.k <= 6,
        0 <= si < graph.sccs@.len(),
    ensures
        component(graph, params, kernels, cone, si, st) matches Ok(next) ==> sweep_ok(
            graph,
            params,
            kernels,
            cone,
            next,
        ) && later(st, next) && forall|i: int|
            0 <= i < graph.sccs@[si]@.len() ==> next.done[#[trigger] graph.sccs@[si]@[i] as int],
{
    let len = graph.sccs@[si]@.len();
    lemma_passes_ok(graph, params, kernels, cone, si, st, len + 1);
    lemma_passes_settleable(graph, params, kernels, cone, si, st, len + 1);
    let r = passes(graph, params, kernels, cone, si, st, len + 1);
    if r is Ok {
        lemma_settle_ok(graph, params, kernels, cone, si, r->Ok_0, len);
    }
}

/// What holds of every state holds after any number of components.
pub(crate) proof fn lemma_components_ok(
    graph: &ClassGraph,
    params: CutParams,
    kernels: Seq<Kernel>,
    cone: Seq<bool>,
    n: nat,
)
    requires
        enumerable(graph, params, kernels, cone),
        2 <= params.k <= 6,
        n <= graph.sccs@.len(),
    ensures
        components(graph, params, kernels, cone, n) matches Ok(st) ==> sweep_ok(
            graph,
            params,
            kernels,
            cone,
            st,
        ) && forall|v: int| 0 <= v < graph.size() && graph.scc_of@[v] < n ==> #[trigger] st.done[v],
    decreases n,
{
    if n == 0 {
        let st = start(graph);
        assert forall|w: int| 0 <= w < graph.size() implies #[trigger] list_ok(
            graph,
            params,
            kernels,
            cone,
            st.cuts,
            st.rank,
            w,
        ) by {
            assert(st.cuts[w].len() == 0);
        }
    } else {
        lemma_components_ok(graph, params, kernels, cone, (n - 1) as nat);
        let prev = components(graph, params, kernels, cone, (n - 1) as nat);
        if prev is Ok {
            lemma_component_ok(graph, params, kernels, cone, n - 1, prev->Ok_0);
            let r = components(graph, params, kernels, cone, n);
            if r is Ok {
                let st = r->Ok_0;
                assert forall|v: int|
                    0 <= v < graph.size() && graph.scc_of@[v] < n implies #[trigger] st.done[v] by {
                    if graph.scc_of@[v] < n - 1 {
                        assert(prev->Ok_0.done[v]);
                    } else {
                        let comp = graph.sccs@[n - 1]@;
                        assert(comp.contains(v as u32));
                        let i = choose|i: int| 0 <= i < comp.len() && comp[i] == v as u32;
                        assert(st.done[comp[i] as int]);
                    }
                }
            }
        }
    }
}

// -------------------------------------------------------------------- execution

/// `n`, or the largest machine number if that is smaller.
pub open spec fn saturated(n: nat) -> usize {
    if n > usize::MAX {
        usize::MAX
    } else {
        n as usize
    }
}

fn rank_less(a: &Cut, b: &Cut) -> (r: bool)
    ensures
        r == ranks_before(a@, b@),
{
    if a.leaves.len() != b.leaves.len() {
        a.leaves.len() < b.leaves.len()
    } else if a.nnodes != b.nnodes {
        a.nnodes < b.nnodes
    } else {
        fnv_leaves(&a.leaves) < fnv_leaves(&b.leaves)
    }
}

proof fn lemma_inserted_at(s: Seq<CutView>, c: CutView, p: int)
    requires
        0 <= p <= s.len(),
        forall|q: int| p <= q < s.len() ==> ranks_before(c, #[trigger] s[q]),
        p == 0 || !ranks_before(c, s[p - 1]),
    ensures
        inserted(s, c) == s.insert(p, c),
    decreases s.len(),
{
    if p == s.len() {
        assert(inserted(s, c) =~= s.insert(p, c));
    } else {
        let t = s.drop_last();
        assert(ranks_before(c, s[s.len() - 1]));
        lemma_inserted_at(t, c, p);
        assert(t.insert(p, c).push(s.last()) =~= s.insert(p, c));
    }
}

/// Inserts a cut behind everything that it does not rank before.
fn insert_ranked(s: &mut Vec<Cut>, c: Cut)
    ensures
        cut_seq(final(s)@) == inserted(cut_seq(old(s)@), c@),
{
    let mut p: usize = s.len();
    let ghost v = cut_seq(s@);
    while p > 0 && rank_less(&c, &s[p - 1])
        invariant
            p <= s@.len(),
            v == cut_seq(s@),
            forall|q: int| p <= q < s@.len() ==> ranks_before(c@, #[trigger] v[q]),
        decreases p,
    {
        assert(v[p - 1] == s@[p - 1]@);
        p = p - 1;
    }
    proof {
        if p > 0 {
            assert(v[p - 1] == s@[p - 1]@);
        }
        lemma_inserted_at(v, c@, p as int);
    }
    let ghost s0 = s@;
    s.insert(p, c);
    assert(cut_seq(s@) =~= v.insert(p as int, c@));
}

/// The list back to front.
fn reversed(s: Vec<Cut>) -> (r: Vec<Cut>)
    ensures
        r@ == s@.reverse(),
{
    let ghost s0 = s@;
    let mut s: Vec<Cut> = s;
    let mut r: Vec<Cut> = Vec::new();
    while s.len() > 0
        invariant
            s@.len() <= s0.len(),
            s@ == s0.take(s@.len() as int),
            r@ == s0.skip(s@.len() as int).reverse(),
        decreases s@.len(),
    {
        let ghost n = s@.len() as int;
        match s.pop() {
            Some(c) => {
                r.push(c);
            },
            None => {},
        }
        assert(s@ =~= s0.take(n - 1));
        assert(r@ =~= s0.skip(n - 1).reverse());
    }
    assert(s0.skip(0) =~= s0);
    r
}

/// The stable sort of the candidates by rank.
fn rank(cands: Vec<Cut>) -> (r: Vec<Cut>)
    ensures
        cut_seq(r@) == ranked(cut_seq(cands@)),
{
    let ghost s0 = cut_seq(cands@);
    let n: usize = cands.len();
    let mut rest: Vec<Cut> = reversed(cands);
    let mut r: Vec<Cut> = Vec::new();
    assert(cut_seq(r@) =~= ranked(s0.take(0)));
    assert(cut_seq(rest@) =~= s0.reverse());
    while rest.len() > 0
        invariant
            rest@.len() <= s0.len(),
            cut_seq(rest@) == s0.reverse().take(rest@.len() as int),
            cut_seq(r@) == ranked(s0.take(s0.len() - rest@.len())),
        decreases rest@.len(),
    {
        let ghost m = rest@.len() as int;
        let ghost rv = cut_seq(rest@);
        match rest.pop() {
            Some(c) => {
                proof {
                    let i = s0.len() - m;
                    assert(rv[m - 1] == c@);
                    assert(s0.reverse()[m - 1] == s0[i]);
                    assert(s0.take(i + 1).drop_last() =~= s0.take(i));
                    assert(s0.take(i + 1).last() == c@);
                }
                insert_ranked(&mut r, c);
            },
            None => {},
        }
        assert(cut_seq(rest@) =~= s0.reverse().take(m - 1));
    }
    assert(s0.take(s0.len() as int) =~= s0);
    r
}

/// Whether some kept cut has its leaves among those of `c`.
fn is_dominated(kept: &Vec<Cut>, c: &Cut) -> (r: bool)
    ensures
        r == dominated(cut_seq(kept@), c.leaves@),
{
    let mut i: usize = 0;
    let ghost v = cut_seq(kept@);
    while i < kept.len()
        invariant
            i <= kept@.len(),
            v == cut_seq(kept@),
            forall|q: int| 0 <= q < i ==> !subset((#[trigger] v[q]).leaves, c.leaves@),
        decreases kept@.len() - i,
    {
        assert(v[i as int] == kept@[i as int]@);
        if is_subset(&kept[i].leaves, &c.leaves) {
            return true;
        }
        i = i + 1;
    }
    false
}

/// The candidates that no earlier kept one dominates.
fn filter_dominated(cands: Vec<Cut>) -> (r: Vec<Cut>)
    ensures
        cut_seq(r@) == undominated(cut_seq(cands@)),
{
    let ghost s0 = cut_seq(cands@);
    let mut rest: Vec<Cut> = reversed(cands);
    let mut r: Vec<Cut> = Vec::new();
    assert(cut_seq(r@) =~= undominated(s0.take(0)));
    assert(cut_seq(rest@) =~= s0.reverse());
    while rest.len() > 0
        invariant
            rest@.len() <= s0.len(),
            cut_seq(rest@) == s0.reverse().take(rest@.len() as int),
            cut_seq(r@) == undominated(s0.take(s0.len() - rest@.len())),
        decreases rest@.len(),
    {
        let ghost m = rest@.len() as int;
        let ghost rv = cut_seq(rest@);
        let ghost r0 = cut_seq(r@);
        match rest.pop() {
            Some(c) => {
                proof {
                    let i = s0.len() - m;
                    assert(rv[m - 1] == c@);
                    assert(s0.reverse()[m - 1] == s0[i]);
                    assert(s0.take(i + 1).drop_last() =~= s0.take(i));
                    assert(s0.take(i + 1).last() == c@);
                }
                let ghost cv = c@;
                if !is_dominated(&r, &c) {
                    r.push(c);
                    assert(cut_seq(r@) =~= r0.push(cv));
                }
            },
            None => {},
        }
        assert(cut_seq(rest@) =~= s0.reverse().take(m - 1));
    }
    assert(s0.take(s0.len() as int) =~= s0);
    r
}

/// The surviving candidates.
fn survive(cands: Vec<Cut>, params: &CutParams) -> (r: Vec<Cut>)
    ensures
        cut_seq(r@) == survivors(cut_seq(cands@), *params),
{
    let ghost s0 = cut_seq(cands@);
    let mut r: Vec<Cut> = rank(cands);
    let ghost r0 = cut_seq(r@);
    r.truncate(params.cand_cap);
    assert(cut_seq(r@) =~= r0.take(least(params.cand_cap as nat, r0.len()) as int));
    let mut u: Vec<Cut> = filter_dominated(r);
    let ghost u0 = cut_seq(u@);
    let room: usize = params.max_cuts.saturating_sub(1);
    u.truncate(room);
    assert(cut_seq(u@) =~= u0.take(least(room as nat, u0.len()) as int));
    u
}

/// The first candidate with the given leaves.
fn find_leaves(cands: &Vec<Cut>, leaves: &Vec<u32>) -> (r: Option<usize>)
    ensures
        match r {
            Some(i) => first_with(cut_seq(cands@), leaves@, i as int),
            None => forall|i: int| !first_with(cut_seq(cands@), leaves@, i),
        },
{
    let mut i: usize = 0;
    let ghost v = cut_seq(cands@);
    while i < cands.len()
        invariant
            i <= cands@.len(),
            v == cut_seq(cands@),
            forall|q: int| 0 <= q < i ==> (#[trigger] v[q]).leaves != leaves@,
        decreases cands@.len() - i,
    {
        assert(v[i as int] == cands@[i as int]@);
        if same_leaves(&cands[i].leaves, leaves) {
            return Some(i);
        }
        i = i + 1;
    }
    None
}

/// Adds a candidate to the pool.
fn offer_cut(cands: &mut Vec<Cut>, conflicts: &mut usize, c: Cut, Ghost(pool): Ghost<Pool>)
    requires
        cut_seq(old(cands)@) == pool.cands,
        *old(conflicts) == saturated(pool.conflicts),
    ensures
        cut_seq(final(cands)@) == pool.offer(c@).cands,
        *final(conflicts) == saturated(pool.offer(c@).conflicts),
{
    match find_leaves(cands, &c.leaves) {
        Some(i) => {
            proof {
                let q = choose|q: int| first_with(pool.cands, c@.leaves, q);
                assert(first_with(pool.cands, c@.leaves, i as int));
                assert(first_with(pool.cands, c@.leaves, q));
                if q < i {
                    assert(pool.cands[q].leaves == c@.leaves);
                }
                if i < q {
                    assert(pool.cands[i as int].leaves == c@.leaves);
                }
                assert(pool.cands[i as int] == cands@[i as int]@);
            }
            if cands[i].tt != c.tt {
                *conflicts = conflicts.saturating_add(1);
            }
        },
        None => {
            let ghost cv = c@;
            cands.push(c);
            assert(cut_seq(cands@) =~= pool.cands.push(cv));
        },
    }
}

/// Sum of cone volumes.
fn sum_volumes(cs: &Vec<&Cut>) -> (r: u32)
    requires
        cs@.len() <= 6,
    ensures
        r == volume_sum(ref_views(cs@)),
{
    let mut r: u32 = 0;
    let mut i: usize = 0;
    let ghost v = ref_views(cs@);
    while i < cs.len()
        invariant
            i <= cs@.len() <= 6,
            v == ref_views(cs@),
            r <= i * 65535,
            r == volume_sum(v.take(i as int)),
        decreases cs@.len() - i,
    {
        assert(v.take(i + 1).drop_last() =~= v.take(i as int));
        assert(v[i as int] == cs@[i as int]@);
        r = r + cs[i].nnodes as u32;
        i = i + 1;
    }
    assert(v.take(i as int) =~= v);
    r
}

/// Adds the merges of one e-node to the pool; false if a cone volume exceeds 16 bits.
fn pool_enode(
    graph: &ClassGraph,
    params: &CutParams,
    kernels: &Vec<Kernel>,
    cuts: &Vec<Vec<Cut>>,
    ei: usize,
    op_tt: u64,
    cands: &mut Vec<Cut>,
    conflicts: &mut usize,
    Ghost(cone): Ghost<Seq<bool>>,
    Ghost(st): Ghost<Sweep>,
    Ghost(pool): Ghost<Pool>,
) -> (ok: bool)
    requires
        enumerable(graph, *params, kernels@, cone),
        sweep_ok(graph, *params, kernels@, cone, st),
        2 <= params.k <= 6,
        cut_lists(cuts@) == st.cuts,
        ei < graph.enodes@.len(),
        gate_of(graph, kernels@, ei as int) == Some(op_tt),
        cut_seq(old(cands)@) == pool.cands,
        *old(conflicts) == saturated(pool.conflicts),
    ensures
        ({
            let ms = merges_of(graph, st.cuts, params.k as nat, ei as int);
            match pool_merges(graph, kernels@, st.cuts, ei as int, ms, ms.len(), pool) {
                None => !ok,
                Some(p) => ok && cut_seq(final(cands)@) == p.cands && *final(conflicts)
                    == saturated(p.conflicts),
            }
        }),
{
    let ch: &Vec<u32> = &graph.enodes[ei].ch_eq;
    let mut lists: Vec<&Vec<Cut>> = Vec::new();
    let mut d: usize = 0;
    while d < ch.len()
        invariant
            d <= ch@.len(),
            graph.wf(),
            ei < graph.enodes@.len(),
            *ch == graph.enodes@[ei as int].ch_eq,
            cut_lists(cuts@) == st.cuts,
            cuts@.len() == graph.size(),
            lists@.len() == d,
            forall|q: int| 0 <= q < d ==> *(#[trigger] lists@[q]) == cuts@[ch@[q] as int],
        decreases ch@.len() - d,
    {
        assert(graph.enodes@[ei as int].ch_eq@[d as int] < graph.size());
        lists.push(&cuts[ch[d] as usize]);
        d = d + 1;
    }
    let ghost ls = operand_leaves(graph, st.cuts, ei as int);
    proof {
        assert forall|q: int| 0 <= q < ls.len() implies ls[q] == child_lists(lists@)[q] by {
            let c = ch@[q] as int;
            assert(graph.enodes@[ei as int].ch_eq@[q] < graph.size());
            assert(st.cuts[c] == cut_seq(cuts@[c]@));
            assert(leaves_of(st.cuts[c]) =~= leaf_lists(lists@[q]@));
        }
        assert(ls =~= child_lists(lists@));
        lemma_operands_shape(graph, *params, kernels@, cone, st, ei as int);
    }
    let mut budget: usize = MERGE_BUDGET;
    let mut merges: Vec<(Vec<u32>, Vec<u32>)> = merge_product(&lists, params.k, &mut budget);
    let ghost ms = merges_of(graph, st.cuts, params.k as nat, ei as int);
    assert(pairs(merges@) == ms);
    let total: usize = merges.len();
    let mut i: usize = 0;
    while i < total
        invariant
            i <= total,
            total == ms.len(),
            merges@.len() == total,
            enumerable(graph, *params, kernels@, cone),
            sweep_ok(graph, *params, kernels@, cone, st),
            2 <= params.k <= 6,
            cut_lists(cuts@) == st.cuts,
            cuts@.len() == graph.size(),
            ei < graph.enodes@.len(),
            *ch == graph.enodes@[ei as int].ch_eq,
            gate_of(graph, kernels@, ei as int) == Some(op_tt),
            ms == merges_of(graph, st.cuts, params.k as nat, ei as int),
            forall|q: int|
                i <= q < total ==> (#[trigger] merges@[q]).0@ == ms[q].0 && merges@[q].1@
                    == ms[q].1,
            pool_merges(graph, kernels@, st.cuts, ei as int, ms, i as nat, pool) matches Some(p)
                && cut_seq(cands@) == p.cands && *conflicts == saturated(p.conflicts),
        decreases total - i,
    {
        let ghost p = pool_merges(graph, kernels@, st.cuts, ei as int, ms, i as nat, pool)->0;
        let mut slot: (Vec<u32>, Vec<u32>) = (Vec::new(), Vec::new());
        let ghost before = merges@;
        std::mem::swap(&mut slot, &mut merges[i]);
        assert(slot == before[i as int]);
        let (leaves, chosen) = slot;
        assert(leaves@ == ms[i as int].0 && chosen@ == ms[i as int].1);
        proof {
            assert(ms.contains(ms[i as int]));
            lemma_merge_fits(graph, *params, kernels@, cone, st, ei as int, ms[i as int]);
        }
        let mut child_refs: Vec<&Cut> = Vec::new();
        let mut j: usize = 0;
        while j < ch.len()
            invariant
                j <= ch@.len(),
                graph.wf(),
                ei < graph.enodes@.len(),
                *ch == graph.enodes@[ei as int].ch_eq,
                chosen@.len() == ch@.len(),
                cut_lists(cuts@) == st.cuts,
                cuts@.len() == graph.size(),
                forall|q: int|
                    0 <= q < chosen@.len() ==> (#[trigger] chosen@[q]) < st.cuts[graph.children(
                        ei as int,
                    )[q] as int].len(),
                child_refs@.len() == j,
                forall|q: int|
                    0 <= q < j ==> (#[trigger] child_refs@[q])@ == operands(
                        graph,
                        st.cuts,
                        ei as int,
                        chosen@,
                    )[q],
            decreases ch@.len() - j,
        {
            assert(graph.enodes@[ei as int].ch_eq@[j as int] < graph.size());
            let c: usize = ch[j] as usize;
            assert(st.cuts[c as int] == cut_seq(cuts@[c as int]@));
            assert(chosen@[j as int] < st.cuts[c as int].len());
            child_refs.push(&cuts[c][chosen[j] as usize]);
            j = j + 1;
        }
        let ghost cs = operands(graph, st.cuts, ei as int, chosen@);
        assert(ref_views(child_refs@) =~= cs);
        let volume: u32 = sum_volumes(&child_refs);
        if volume >= 65535 {
            proof {
                lemma_pool_merges_none(
                    graph,
                    kernels@,
                    st.cuts,
                    ei as int,
                    ms,
                    (i + 1) as nat,
                    ms.len(),
                    pool,
                );
            }
            return false;
        }
        let tt: u64 = compose_tt(op_tt, &child_refs, &leaves);
        let c: Cut = Cut {
            leaves,
            tt,
            realization: Some((ei, chosen)),
            nnodes: (1 + volume) as u16,
        };
        assert(c@ == candidate(graph, kernels@, st.cuts, ei as int, ms[i as int]));
        offer_cut(cands, conflicts, c, Ghost(p));
        i = i + 1;
    }
    true
}

proof fn lemma_pool_merges_none(
    graph: &ClassGraph,
    kernels: Seq<Kernel>,
    cuts: Seq<Seq<CutView>>,
    ei: int,
    ms: Seq<(Seq<u32>, Seq<u32>)>,
    n: nat,
    m: nat,
    pool: Pool,
)
    requires
        n <= m,
        pool_merges(graph, kernels, cuts, ei, ms, n, pool) is None,
    ensures
        pool_merges(graph, kernels, cuts, ei, ms, m, pool) is None,
    decreases m,
{
    if n < m {
        lemma_pool_merges_none(graph, kernels, cuts, ei, ms, n, (m - 1) as nat, pool);
    }
}

/// Whether class `c` can be used by component `si`.
fn is_ready(graph: &ClassGraph, si: usize, done: &Vec<bool>, c: u32) -> (r: bool)
    requires
        graph.wf(),
        done@.len() == graph.size(),
        c < graph.size(),
    ensures
        r == ready(graph, si as int, done@, c),
{
    graph.scc_of[c as usize] as usize != si || done[c as usize]
}

/// Whether every child of e-node `ei` can be used.
fn is_enode_ready(graph: &ClassGraph, si: usize, done: &Vec<bool>, ei: usize) -> (r: bool)
    requires
        graph.wf(),
        done@.len() == graph.size(),
        ei < graph.enodes@.len(),
    ensures
        r == enode_ready(graph, si as int, done@, ei as int),
{
    let ch: &Vec<u32> = &graph.enodes[ei].ch_eq;
    let mut j: usize = 0;
    while j < ch.len()
        invariant
            j <= ch@.len(),
            graph.wf(),
            done@.len() == graph.size(),
            ei < graph.enodes@.len(),
            *ch == graph.enodes@[ei as int].ch_eq,
            forall|q: int|
                0 <= q < j ==> ready(
                    graph,
                    si as int,
                    done@,
                    #[trigger] graph.children(ei as int)[q],
                ),
        decreases ch@.len() - j,
    {
        assert(graph.enodes@[ei as int].ch_eq@[j as int] < graph.size());
        if !is_ready(graph, si, done, ch[j]) {
            assert(!ready(graph, si as int, done@, graph.children(ei as int)[j as int]));
            return false;
        }
        j = j + 1;
    }
    true
}

/// Whether some e-node of class `v` has only children that can be used.
fn is_usable(graph: &ClassGraph, si: usize, done: &Vec<bool>, v: usize) -> (r: bool)
    requires
        graph.wf(),
        done@.len() == graph.size(),
        v < graph.size(),
    ensures
        r == usable(graph, si as int, done@, v as int),
{
    let ens: &Vec<usize> = &graph.enodes_of[v];
    let mut i: usize = 0;
    while i < ens.len()
        invariant
            i <= ens@.len(),
            graph.wf(),
            done@.len() == graph.size(),
            v < graph.size(),
            *ens == graph.enodes_of@[v as int],
            forall|q: int|
                0 <= q < i ==> !enode_ready(
                    graph,
                    si as int,
                    done@,
                    #[trigger] graph.enodes_of@[v as int]@[q] as int,
                ),
        decreases ens@.len() - i,
    {
        assert(graph.enodes_of@[v as int]@[i as int] < graph.enodes@.len());
        if is_enode_ready(graph, si, done, ens[i]) {
            return true;
        }
        i = i + 1;
    }
    false
}

/// Pools the candidates of class `v`; `None` if a cone volume exceeds 16 bits.
fn gather(
    graph: &ClassGraph,
    params: &CutParams,
    kernels: &Vec<Kernel>,
    cuts: &Vec<Vec<Cut>>,
    done: &Vec<bool>,
    si: usize,
    v: usize,
    Ghost(cone): Ghost<Seq<bool>>,
    Ghost(st): Ghost<Sweep>,
) -> (r: Option<(Vec<Cut>, usize)>)
    requires
        enumerable(graph, *params, kernels@, cone),
        sweep_ok(graph, *params, kernels@, cone, st),
        2 <= params.k <= 6,
        cut_lists(cuts@) == st.cuts,
        done@ == st.done,
        v < graph.size(),
    ensures
        match pool_class(
            graph,
            *params,
            kernels@,
            st.cuts,
            st.done,
            si as int,
            v as int,
            considered(graph, *params, v as int).len(),
        ) {
            None => r is None,
            Some(p) => r matches Some((cands, conflicts)) && cut_seq(cands@) == p.cands
                && conflicts == saturated(p.conflicts),
        },
{
    let ens: &Vec<usize> = &graph.enodes_of[v];
    let total: usize = match params.enode_cap {
        Some(c) => if ens.len() > c {
            c
        } else {
            ens.len()
        },
        None => ens.len(),
    };
    let mut cands: Vec<Cut> = Vec::new();
    let mut conflicts: usize = 0;
    let mut i: usize = 0;
    assert(cut_seq(cands@) =~= Seq::empty());
    while i < total
        invariant
            i <= total,
            total == considered(graph, *params, v as int).len(),
            total <= ens@.len(),
            enumerable(graph, *params, kernels@, cone),
            sweep_ok(graph, *params, kernels@, cone, st),
            2 <= params.k <= 6,
            cut_lists(cuts@) == st.cuts,
            done@ == st.done,
            v < graph.size(),
            *ens == graph.enodes_of@[v as int],
            pool_class(
                graph,
                *params,
                kernels@,
                st.cuts,
                st.done,
                si as int,
                v as int,
                i as nat,
            ) matches Some(p) && cut_seq(cands@) == p.cands && conflicts == saturated(p.conflicts),
        decreases total - i,
    {
        let ghost p = pool_class(
            graph,
            *params,
            kernels@,
            st.cuts,
            st.done,
            si as int,
            v as int,
            i as nat,
        )->0;
        assert(graph.enodes_of@[v as int]@[i as int] < graph.enodes@.len());
        let ei: usize = ens[i];
        assert(considered(graph, *params, v as int)[i as int] == ei);
        if is_enode_ready(graph, si, done, ei) && graph.enodes[ei].ch_eq.len() > 0 {
            match kernels[graph.enodes[ei].func] {
                Kernel::Op { tt } => {
                    assert(mergeable(graph, kernels@, si as int, st.done, ei as int));
                    let ok: bool = pool_enode(
                        graph,
                        params,
                        kernels,
                        cuts,
                        ei,
                        tt,
                        &mut cands,
                        &mut conflicts,
                        Ghost(cone),
                        Ghost(st),
                        Ghost(p),
                    );
                    if !ok {
                        proof {
                            lemma_pool_class_none(
                                graph,
                                *params,
                                kernels@,
                                st.cuts,
                                st.done,
                                si as int,
                                v as int,
                                (i + 1) as nat,
                                total as nat,
                            );
                        }
                        return None;
                    }
                },
                _ => {},
            }
        }
        i = i + 1;
    }
    Some((cands, conflicts))
}

proof fn lemma_pool_class_none(
    graph: &ClassGraph,
    params: CutParams,
    kernels: Seq<Kernel>,
    cuts: Seq<Seq<CutView>>,
    done: Seq<bool>,
    si: int,
    v: int,
    n: nat,
    m: nat,
)
    requires
        n <= m,
        pool_class(graph, params, kernels, cuts, done, si, v, n) is None,
    ensures
        pool_class(graph, params, kernels, cuts, done, si, v, m) is None,
    decreases m,
{
    if n < m {
        lemma_pool_class_none(graph, params, kernels, cuts, done, si, v, n, (m - 1) as nat);
    }
}

/// The state of the enumeration as it runs.
struct Progress {
    cuts: Vec<Vec<Cut>>,
    done: Vec<bool>,
    conflicts: usize,
    widest: usize,
}

impl Progress {
    /// The state stands for `st`.
    spec fn shows(&self, st: Sweep) -> bool {
        &&& cut_lists(self.cuts@) == st.cuts
        &&& self.done@ == st.done
        &&& self.conflicts == saturated(st.conflicts)
        &&& self.widest == st.widest
    }

    /// Finishes class `v` with a cut list.
    fn finish(&mut self, v: u32, list: Vec<Cut>, Ghost(st): Ghost<Sweep>)
        requires
            old(self).shows(st),
            v < st.cuts.len(),
            v < st.done.len(),
        ensures
            final(self).shows(st.finish(v, cut_seq(list@))),
    {
        let ghost lv = cut_seq(list@);
        let ghost old_cuts = self.cuts@;
        self.cuts.set(v as usize, list);
        self.done.set(v as usize, true);
        assert(cut_lists(self.cuts@) =~= st.cuts.update(v as int, lv));
    }
}

/// The cut list of a class that is a leaf.
fn self_list(v: u32) -> (r: Vec<Cut>)
    ensures
        cut_seq(r@) == seq![self_cut(v)],
{
    let mut leaves: Vec<u32> = Vec::new();
    leaves.push(v);
    assert(leaves@ =~= seq![v]);
    let mut r: Vec<Cut> = Vec::new();
    r.push(Cut { leaves, tt: VAR1, realization: None, nnodes: 0 });
    assert(cut_seq(r@) =~= seq![self_cut(v)]);
    r
}

/// The cut list of a constant class.
fn const_list(c: u64) -> (r: Vec<Cut>)
    ensures
        cut_seq(r@) == seq![const_cut(c)],
{
    let leaves: Vec<u32> = Vec::new();
    assert(leaves@ =~= Seq::<u32>::empty());
    let mut r: Vec<Cut> = Vec::new();
    r.push(Cut { leaves, tt: c, realization: None, nnodes: 0 });
    assert(cut_seq(r@) =~= seq![const_cut(c)]);
    r
}

/// Visits class `v` of component `si`.
fn visit_class(
    graph: &ClassGraph,
    params: &CutParams,
    kernels: &Vec<Kernel>,
    cone: &Vec<bool>,
    si: usize,
    state: &mut Progress,
    v: u32,
    Ghost(st): Ghost<Sweep>,
) -> (r: Result<bool, CutError>)
    requires
        enumerable(graph, *params, kernels@, cone@),
        sweep_ok(graph, *params, kernels@, cone@, st),
        2 <= params.k <= 6,
        old(state).shows(st),
        v < graph.size(),
    ensures
        match visit(graph, *params, kernels@, cone@, si as int, st, v) {
            Err(e) => r == Err::<bool, CutError>(e),
            Ok((next, more)) => r == Ok::<bool, CutError>(more) && final(state).shows(next),
        },
{
    let vi: usize = v as usize;
    if state.done[vi] {
        return Ok(false);
    }
    if !cone[vi] {
        state.done.set(vi, true);
        return Ok(false);
    }
    let kind: ClassKind = match class_kind(graph, kernels, vi) {
        Ok(k) => k,
        Err(e) => {
            return Err(CutError::Unsound(e));
        },
    };
    match kind {
        ClassKind::Pi => {
            state.finish(v, self_list(v), Ghost(st));
            Ok(true)
        },
        ClassKind::Const(c) => {
            state.finish(v, const_list(c), Ghost(st));
            Ok(true)
        },
        ClassKind::Internal => {
            if !is_usable(graph, si, &state.done, vi) {
                return Ok(false);
            }
            match gather(
                graph,
                params,
                kernels,
                &state.cuts,
                &state.done,
                si,
                vi,
                Ghost(cone@),
                Ghost(st),
            ) {
                None => Err(CutError::Volume(vi)),
                Some((cands, conflicts)) => {
                    let mut kept: Vec<Cut> = survive(cands, params);
                    let mut list: Vec<Cut> = self_list(v);
                    let ghost a = list@;
                    let ghost b = kept@;
                    list.append(&mut kept);
                    assert(cut_seq(list@) =~= cut_seq(a) + cut_seq(b));
                    let len: usize = list.len();
                    state.finish(v, list, Ghost(st));
                    state.conflicts = state.conflicts.saturating_add(conflicts);
                    if len > state.widest {
                        state.widest = len;
                    }
                    Ok(true)
                },
            }
        },
    }
}

/// Passes over component `si` until one makes no progress, then gives the members left
/// over their trivial cut.
fn run_component(
    graph: &ClassGraph,
    params: &CutParams,
    kernels: &Vec<Kernel>,
    cone: &Vec<bool>,
    si: usize,
    state: &mut Progress,
    Ghost(st): Ghost<Sweep>,
) -> (r: Result<(), CutError>)
    requires
        enumerable(graph, *params, kernels@, cone@),
        sweep_ok(graph, *params, kernels@, cone@, st),
        2 <= params.k <= 6,
        old(state).shows(st),
        si < graph.sccs@.len(),
    ensures
        match component(graph, *params, kernels@, cone@, si as int, st) {
            Err(e) => r == Err::<(), CutError>(e),
            Ok(next) => r is Ok && final(state).shows(next),
        },
{
    let comp: &Vec<u32> = &graph.sccs[si];
    let len: usize = comp.len();
    let ghost mut cur = st;
    let ghost mut fuel = (len + 1) as nat;
    let mut left: usize = len;
    let mut more: bool = true;
    while more
        invariant
            enumerable(graph, *params, kernels@, cone@),
            sweep_ok(graph, *params, kernels@, cone@, cur),
            2 <= params.k <= 6,
            si < graph.sccs@.len(),
            *comp == graph.sccs@[si as int],
            len == comp@.len(),
            left <= len,
            more ==> fuel == left + 1,
            state.shows(cur),
            passes(graph, *params, kernels@, cone@, si as int, st, (len + 1) as nat) == if more {
                passes(graph, *params, kernels@, cone@, si as int, cur, fuel)
            } else {
                Ok(cur)
            },
        decreases (if more { 1int } else { 0 }) + left,
    {
        let ghost from = cur;
        let mut progress: bool = false;
        let mut i: usize = 0;
        while i < len
            invariant
                i <= len,
                enumerable(graph, *params, kernels@, cone@),
                sweep_ok(graph, *params, kernels@, cone@, from),
                sweep_ok(graph, *params, kernels@, cone@, cur),
                2 <= params.k <= 6,
                si < graph.sccs@.len(),
                *comp == graph.sccs@[si as int],
                len == comp@.len(),
                state.shows(cur),
                pass(graph, *params, kernels@, cone@, si as int, from, i as nat) == Ok::<
                    (Sweep, bool),
                    CutError,
                >((cur, progress)),
                fuel > 0,
                passes(graph, *params, kernels@, cone@, si as int, st, (len + 1) as nat) == passes(
                    graph,
                    *params,
                    kernels@,
                    cone@,
                    si as int,
                    from,
                    fuel,
                ),
            decreases len - i,
        {
            let v: u32 = comp[i];
            assert(graph.sccs@[si as int]@[i as int] < graph.size());
            let ghost outcome = visit(graph, *params, kernels@, cone@, si as int, cur, v);
            match visit_class(graph, params, kernels, cone, si, state, v, Ghost(cur)) {
                Err(e) => {
                    proof {
                        lemma_pass_err(
                            graph,
                            *params,
                            kernels@,
                            cone@,
                            si as int,
                            from,
                            (i + 1) as nat,
                            len as nat,
                        );
                    }
                    return Err(e);
                },
                Ok(b) => {
                    proof {
                        lemma_visit_ok(graph, *params, kernels@, cone@, si as int, cur, v);
                        cur = outcome->Ok_0.0;
                    }
                    progress = progress || b;
                },
            }
            i = i + 1;
        }
        if progress && left > 0 {
            left = left - 1;
            proof {
                fuel = (fuel - 1) as nat;
            }
        } else {
            more = false;
            proof {
                if progress {
                    assert(passes(graph, *params, kernels@, cone@, si as int, cur, 0) == Ok::<
                        Sweep,
                        CutError,
                    >(cur));
                }
            }
        }
    }
    let ghost mid = cur;
    proof {
        lemma_passes_settleable(graph, *params, kernels@, cone@, si as int, st, (len + 1) as nat);
    }
    let mut i: usize = 0;
    while i < len
        invariant
            i <= len,
            enumerable(graph, *params, kernels@, cone@),
            sweep_ok(graph, *params, kernels@, cone@, mid),
            settleable(graph, kernels@, cone@, si as int, mid),
            2 <= params.k <= 6,
            si < graph.sccs@.len(),
            *comp == graph.sccs@[si as int],
            len == comp@.len(),
            state.shows(cur),
            cur == settle(graph, cone@, si as int, mid, i as nat),
        decreases len - i,
    {
        let v: u32 = comp[i];
        assert(graph.sccs@[si as int]@[i as int] < graph.size());
        proof {
            lemma_settle_ok(graph, *params, kernels@, cone@, si as int, mid, i as nat);
        }
        if !state.done[v as usize] {
            if cone[v as usize] {
                state.finish(v, self_list(v), Ghost(cur));
            } else {
                state.done.set(v as usize, true);
            }
        }
        i = i + 1;
        proof {
            cur = settle(graph, cone@, si as int, mid, i as nat);
        }
    }
    Ok(())
}

proof fn lemma_pass_err(
    graph: &ClassGraph,
    params: CutParams,
    kernels: Seq<Kernel>,
    cone: Seq<bool>,
    si: int,
    st: Sweep,
    n: nat,
    m: nat,
)
    requires
        n <= m,
        pass(graph, params, kernels, cone, si, st, n) is Err,
    ensures
        pass(graph, params, kernels, cone, si, st, m) == pass(
            graph,
            params,
            kernels,
            cone,
            si,
            st,
            n,
        ),
    decreases m,
{
    if n < m {
        lemma_pass_err(graph, params, kernels, cone, si, st, n, (m - 1) as nat);
    }
}

proof fn lemma_components_err(
    graph: &ClassGraph,
    params: CutParams,
    kernels: Seq<Kernel>,
    cone: Seq<bool>,
    n: nat,
    m: nat,
)
    requires
        n <= m,
        components(graph, params, kernels, cone, n) is Err,
    ensures
        components(graph, params, kernels, cone, m) == components(
            graph,
            params,
            kernels,
            cone,
            n,
        ),
    decreases m,
{
    if n < m {
        lemma_components_err(graph, params, kernels, cone, n, (m - 1) as nat);
    }
}

/// Runs the enumeration over all components.
fn run(
    graph: &ClassGraph,
    params: &CutParams,
    kernels: &Vec<Kernel>,
    cone: &Vec<bool>,
) -> (r: Result<Progress, CutError>)
    requires
        enumerable(graph, *params, kernels@, cone@),
        2 <= params.k <= 6,
    ensures
        match components(graph, *params, kernels@, cone@, graph.sccs@.len()) {
            Err(e) => r == Err::<Progress, CutError>(e),
            Ok(st) => r matches Ok(p) && p.shows(st),
        },
{
    let n: usize = graph.classes.len();
    let mut cuts: Vec<Vec<Cut>> = Vec::new();
    let mut done: Vec<bool> = Vec::new();
    while cuts.len() < n
        invariant
            n == graph.size(),
            cuts@.len() <= n,
            done@.len() == cuts@.len(),
            forall|q: int| 0 <= q < cuts@.len() ==> (#[trigger] cuts@[q])@.len() == 0,
            forall|q: int| 0 <= q < done@.len() ==> !(#[trigger] done@[q]),
        decreases n - cuts@.len(),
    {
        cuts.push(Vec::new());
        done.push(false);
    }
    let mut state: Progress = Progress { cuts, done, conflicts: 0, widest: 0 };
    let ghost mut st = start(graph);
    proof {
        assert forall|q: int| 0 <= q < n implies cut_lists(state.cuts@)[q] == st.cuts[q] by {
            assert(state.cuts@[q]@.len() == 0);
            assert(cut_seq(state.cuts@[q]@) =~= Seq::empty());
        }
        assert(cut_lists(state.cuts@) =~= st.cuts);
        assert(state.done@ =~= st.done);
        lemma_components_ok(graph, *params, kernels@, cone@, 0);
    }
    let mut si: usize = 0;
    while si < graph.sccs.len()
        invariant
            si <= graph.sccs@.len(),
            enumerable(graph, *params, kernels@, cone@),
            2 <= params.k <= 6,
            sweep_ok(graph, *params, kernels@, cone@, st),
            components(graph, *params, kernels@, cone@, si as nat) == Ok::<Sweep, CutError>(st),
            state.shows(st),
        decreases graph.sccs@.len() - si,
    {
        match run_component(graph, params, kernels, cone, si, &mut state, Ghost(st)) {
            Err(e) => {
                proof {
                    lemma_components_err(
                        graph,
                        *params,
                        kernels@,
                        cone@,
                        (si + 1) as nat,
                        graph.sccs@.len(),
                    );
                }
                return Err(e);
            },
            Ok(()) => {
                proof {
                    lemma_components_ok(graph, *params, kernels@, cone@, (si + 1) as nat);
                    st = components(graph, *params, kernels@, cone@, (si + 1) as nat)->Ok_0;
                }
            },
        }
        si = si + 1;
    }
    Ok(state)
}

/// The cut lists of all classes and statistics about them.
#[derive(Debug)]
pub struct CutResult {
    pub cuts: Vec<Vec<Cut>>,
    pub stats: CutStats,
}

impl CutResult {
    /// The result is what the enumeration ends with.
    pub open spec fn shows(
        &self,
        graph: &ClassGraph,
        params: CutParams,
        kernels: Seq<Kernel>,
        cone: Seq<bool>,
        st: Sweep,
    ) -> bool {
        &&& cut_lists(self.cuts@) == st.cuts
        &&& stats_ok(graph, params, kernels, cone, st, self.stats)
    }
}

/// Every class of the cone has cuts at the end, and the state's invariant holds.
pub proof fn enumeration_is_complete(
    graph: &ClassGraph,
    params: CutParams,
    kernels: Seq<Kernel>,
    cone: Seq<bool>,
)
    requires
        enumerable(graph, params, kernels, cone),
    ensures
        enumeration(graph, params, kernels, cone) matches Ok(st) ==> sweep_ok(
            graph,
            params,
            kernels,
            cone,
            st,
        ) && forall|v: int|
            0 <= v < graph.size() ==> (#[trigger] cone[v] <==> st.cuts[v].len() > 0),
{
    if 2 <= params.k <= 6 {
        lemma_components_ok(graph, params, kernels, cone, graph.sccs@.len());
        let r = enumeration(graph, params, kernels, cone);
        if r is Ok {
            let st = r->Ok_0;
            assert forall|v: int| 0 <= v < graph.size() implies (#[trigger] cone[v]
                <==> st.cuts[v].len() > 0) by {
                assert(graph.scc_of@[v] < graph.sccs@.len());
                assert(st.done[v]);
                assert(list_ok(graph, params, kernels, cone, st.cuts, st.rank, v));
            }
        }
    }
}

/// Enumerates the cuts of every class in the cone, children first. A component's members
/// are visited in passes: a class is finished as soon as one of its e-nodes has only
/// children that are finished, and the members that no pass reaches keep their trivial
/// cut.
pub fn enumerate_cuts(
    graph: &ClassGraph,
    params: &CutParams,
    kernels: &Vec<Kernel>,
    cone: &Vec<bool>,
) -> (r: Result<CutResult, CutError>)
    requires
        enumerable(graph, *params, kernels@, cone@),
    ensures
        match enumeration(graph, *params, kernels@, cone@) {
            Err(e) => r == Err::<CutResult, CutError>(e),
            Ok(st) => r matches Ok(res) && res.shows(graph, *params, kernels@, cone@, st)
                && sweep_ok(graph, *params, kernels@, cone@, st) && forall|v: int|
                0 <= v < graph.size() ==> (#[trigger] cone@[v] <==> res.cuts@[v]@.len() > 0),
        },
{
    if params.k < 2 || params.k > 6 {
        return Err(CutError::LeafBound(params.k));
    }
    proof {
        enumeration_is_complete(graph, *params, kernels@, cone@);
    }
    match run(graph, params, kernels, cone) {
        Err(e) => Err(e),
        Ok(p) => {
            let ghost st = enumeration(graph, *params, kernels@, cone@)->Ok_0;
            let stats: CutStats = summarize(
                graph,
                params,
                kernels,
                cone,
                &p.cuts,
                p.conflicts,
                p.widest,
                Ghost(st),
            );
            assert forall|v: int| 0 <= v < graph.size() implies (#[trigger] cone@[v]
                <==> p.cuts@[v]@.len() > 0) by {
                assert(cut_lists(p.cuts@)[v] == cut_seq(p.cuts@[v]@));
            }
            Ok(CutResult { cuts: p.cuts, stats })
        },
    }
}

} // verus!
