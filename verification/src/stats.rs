//! Statistics of an enumeration.
use vstd::prelude::*;

use crate::class_graph::ClassGraph;
use crate::cut::{cut_lists, cut_seq, Cut, CutView};
use crate::enumerate::{enumerable, list_ok, saturated, sweep_ok, trivial, CutParams, Sweep};
use crate::kernel::{class_kind, kind_of, ClassKind, Kernel};
use crate::tally::{
    count, lemma_count_bound, lemma_count_split, reversed_pairs, tallies, tally,
    tally_counts_every_key, tally_sum, total,
};

verus! {

/// Statistics of an enumeration.
#[derive(Debug)]
pub struct CutStats {
    pub k: usize,
    pub max_cuts: usize,
    pub num_classes_graph: usize,
    pub num_classes_cone: usize,
    pub num_pi_classes: usize,
    pub num_const_classes: usize,
    /// Classes of the cone with their trivial cut only.
    pub num_trivial_only: usize,
    /// Classes that lie on a cycle.
    pub num_cyclic_classes: usize,
    pub total_nontrivial_cuts: usize,
    /// Realizations of a known leaf set with another truth table.
    pub tt_conflicts: usize,
    /// Longest cut list that merging produced.
    pub max_cuts_per_class: usize,
    /// (cuts of a class, number of such classes in the cone), most cuts first.
    pub hist: Vec<(usize, usize)>,
}

/// The classes in the cone.
pub open spec fn cone_classes(cone: Seq<bool>) -> spec_fn(int) -> bool {
    |v: int| cone[v]
}

/// The primary inputs in the cone.
pub open spec fn pi_classes(
    graph: &ClassGraph,
    kernels: Seq<Kernel>,
    cone: Seq<bool>,
) -> spec_fn(int) -> bool {
    |v: int| cone[v] && kind_of(graph, kernels, v) == Some(ClassKind::Pi)
}

/// The constants in the cone.
pub open spec fn const_classes(
    graph: &ClassGraph,
    kernels: Seq<Kernel>,
    cone: Seq<bool>,
) -> spec_fn(int) -> bool {
    |v: int|
        cone[v] && (kind_of(graph, kernels, v) matches Some(k) && k is Const)
}

/// The classes of the cone with a single cut.
pub open spec fn trivial_classes(cone: Seq<bool>, cuts: Seq<Seq<CutView>>) -> spec_fn(int) -> bool {
    |v: int| cone[v] && cuts[v].len() == 1
}

/// Class `v` lies on a cycle: its component has other members, or it is its own child.
pub open spec fn cyclic(graph: &ClassGraph, v: int) -> bool {
    graph.sccs@[graph.scc_of@[v] as int]@.len() > 1 || graph.adj@[v]@.contains(v as u32)
}

/// The classes on cycles.
pub open spec fn cyclic_classes(graph: &ClassGraph) -> spec_fn(int) -> bool {
    |v: int| cyclic(graph, v)
}

/// How many cuts each class has besides its trivial one.
pub open spec fn nontrivial(cuts: Seq<Seq<CutView>>) -> spec_fn(int) -> nat {
    |v: int|
        if cuts[v].len() > 0 {
            (cuts[v].len() - 1) as nat
        } else {
            0
        }
}

/// The cut list lengths of the first `n` classes, as far as they are in the cone.
pub open spec fn cone_lengths(cone: Seq<bool>, cuts: Seq<Seq<CutView>>, n: nat) -> Seq<usize>
    decreases n,
{
    if n == 0 {
        Seq::empty()
    } else {
        let rest = cone_lengths(cone, cuts, (n - 1) as nat);
        if cone[n - 1] {
            rest.push(cuts[n - 1].len() as usize)
        } else {
            rest
        }
    }
}

/// What each number says of the final state.
pub open spec fn stats_ok(
    graph: &ClassGraph,
    params: CutParams,
    kernels: Seq<Kernel>,
    cone: Seq<bool>,
    st: Sweep,
    s: CutStats,
) -> bool {
    let n = graph.size();
    &&& s.k == params.k
    &&& s.max_cuts == params.max_cuts
    &&& s.num_classes_graph == n
    &&& s.num_classes_cone == count(n, cone_classes(cone))
    &&& s.num_pi_classes == count(n, pi_classes(graph, kernels, cone))
    &&& s.num_const_classes == count(n, const_classes(graph, kernels, cone))
    &&& s.num_trivial_only == count(n, trivial_classes(cone, st.cuts))
    &&& s.num_cyclic_classes == count(n, cyclic_classes(graph))
    &&& s.total_nontrivial_cuts == saturated(total(n, nontrivial(st.cuts)))
    &&& s.tt_conflicts == saturated(st.conflicts)
    &&& s.max_cuts_per_class == st.widest
    &&& tallies(s.hist@.reverse(), cone_lengths(cone, st.cuts, n))
}

proof fn lemma_lengths_count(cone: Seq<bool>, cuts: Seq<Seq<CutView>>, n: nat)
    ensures
        cone_lengths(cone, cuts, n).len() == count(n, cone_classes(cone)),
    decreases n,
{
    if n > 0 {
        lemma_lengths_count(cone, cuts, (n - 1) as nat);
    }
}

/// The histogram counts every class of the cone once, and primary inputs and constants
/// have their trivial cut only.
pub proof fn stats_add_up(
    graph: &ClassGraph,
    params: CutParams,
    kernels: Seq<Kernel>,
    cone: Seq<bool>,
    st: Sweep,
    s: CutStats,
)
    requires
        sweep_ok(graph, params, kernels, cone, st),
        stats_ok(graph, params, kernels, cone, st, s),
        forall|v: int| 0 <= v < graph.size() ==> (#[trigger] cone[v] <==> st.cuts[v].len() > 0),
    ensures
        tally_sum(s.hist@.reverse()) == s.num_classes_cone,
        s.num_pi_classes + s.num_const_classes <= s.num_trivial_only <= s.num_classes_cone
            <= s.num_classes_graph,
{
    let n = graph.size();
    lemma_lengths_count(cone, st.cuts, n);
    tally_counts_every_key(s.hist@.reverse(), cone_lengths(cone, st.cuts, n));
    lemma_count_bound(n, cone_classes(cone));
    let pi = pi_classes(graph, kernels, cone);
    let co = const_classes(graph, kernels, cone);
    let tr = trivial_classes(cone, st.cuts);
    let either = |v: int| pi(v) || co(v);
    lemma_count_split(n, either, pi, co);
    let rest = |v: int| tr(v) && !either(v);
    assert forall|v: int| 0 <= v < n implies #[trigger] tr(v) == (either(v) || rest(v)) by {
        assert(list_ok(graph, params, kernels, cone, st.cuts, st.rank, v));
        if either(v) {
            assert(cone[v]);
        }
    }
    lemma_count_split(n, tr, either, rest);
    let wide = |v: int| cone[v] && !tr(v);
    lemma_count_split(n, cone_classes(cone), tr, wide);
}

/// Whether class `v` lies on a cycle.
fn is_cyclic(graph: &ClassGraph, v: usize) -> (r: bool)
    requires
        graph.wf(),
        v < graph.size(),
    ensures
        r == cyclic(graph, v as int),
{
    assert(graph.scc_of@[v as int] < graph.sccs@.len());
    if graph.sccs[graph.scc_of[v] as usize].len() > 1 {
        return true;
    }
    is_own_child(&graph.adj[v], v as u32)
}

/// Whether a child list holds `v`.
pub(crate) fn is_own_child(children: &Vec<u32>, v: u32) -> (r: bool)
    ensures
        r == children@.contains(v),
{
    let mut i: usize = 0;
    while i < children.len()
        invariant
            i <= children@.len(),
            forall|q: int| 0 <= q < i ==> #[trigger] children@[q] != v,
        decreases children@.len() - i,
    {
        if children[i] == v {
            return true;
        }
        i = i + 1;
    }
    false
}

/// The statistics of a finished enumeration.
pub(crate) fn summarize(
    graph: &ClassGraph,
    params: &CutParams,
    kernels: &Vec<Kernel>,
    cone: &Vec<bool>,
    cuts: &Vec<Vec<Cut>>,
    conflicts: usize,
    widest: usize,
    Ghost(st): Ghost<Sweep>,
) -> (s: CutStats)
    requires
        enumerable(graph, *params, kernels@, cone@),
        sweep_ok(graph, *params, kernels@, cone@, st),
        forall|v: int| 0 <= v < graph.size() ==> (#[trigger] cone@[v] <==> st.cuts[v].len() > 0),
        cut_lists(cuts@) == st.cuts,
        conflicts == saturated(st.conflicts),
        widest == st.widest,
    ensures
        stats_ok(graph, *params, kernels@, cone@, st, s),
{
    let n: usize = graph.classes.len();
    let mut in_cone: usize = 0;
    let mut pis: usize = 0;
    let mut consts: usize = 0;
    let mut trivials: usize = 0;
    let mut cyclics: usize = 0;
    let mut extra: usize = 0;
    let mut lengths: Vec<usize> = Vec::new();
    let mut v: usize = 0;
    while v < n
        invariant
            v <= n,
            n == graph.size(),
            enumerable(graph, *params, kernels@, cone@),
            sweep_ok(graph, *params, kernels@, cone@, st),
            forall|w: int| 0 <= w < graph.size() ==> (#[trigger] cone@[w] <==> st.cuts[w].len() > 0),
            cut_lists(cuts@) == st.cuts,
            in_cone == count(v as nat, cone_classes(cone@)),
            pis == count(v as nat, pi_classes(graph, kernels@, cone@)),
            consts == count(v as nat, const_classes(graph, kernels@, cone@)),
            trivials == count(v as nat, trivial_classes(cone@, st.cuts)),
            cyclics == count(v as nat, cyclic_classes(graph)),
            extra == saturated(total(v as nat, nontrivial(st.cuts))),
            lengths@ == cone_lengths(cone@, st.cuts, v as nat),
        decreases n - v,
    {
        proof {
            lemma_count_bound(v as nat, cone_classes(cone@));
            lemma_count_bound(v as nat, pi_classes(graph, kernels@, cone@));
            lemma_count_bound(v as nat, const_classes(graph, kernels@, cone@));
            lemma_count_bound(v as nat, trivial_classes(cone@, st.cuts));
            lemma_count_bound(v as nat, cyclic_classes(graph));
            assert(st.cuts[v as int] == cut_seq(cuts@[v as int]@));
            assert(list_ok(graph, *params, kernels@, cone@, st.cuts, st.rank, v as int));
        }
        if is_cyclic(graph, v) {
            cyclics = cyclics + 1;
        }
        if cone[v] {
            let len: usize = cuts[v].len();
            assert(len == st.cuts[v as int].len());
            in_cone = in_cone + 1;
            lengths.push(len);
            if len == 1 {
                trivials = trivials + 1;
            }
            extra = extra.saturating_add(len - 1);
            match class_kind(graph, kernels, v) {
                Ok(ClassKind::Pi) => {
                    pis = pis + 1;
                },
                Ok(ClassKind::Const(_)) => {
                    consts = consts + 1;
                },
                _ => {},
            }
        } else {
            assert(st.cuts[v as int].len() == 0);
        }
        v = v + 1;
    }
    let up: Vec<(usize, usize)> = tally(&lengths);
    let hist: Vec<(usize, usize)> = reversed_pairs(&up);
    assert(hist@.reverse() =~= up@);
    CutStats {
        k: params.k,
        max_cuts: params.max_cuts,
        num_classes_graph: n,
        num_classes_cone: in_cone,
        num_pi_classes: pis,
        num_const_classes: consts,
        num_trivial_only: trivials,
        num_cyclic_classes: cyclics,
        total_nontrivial_cuts: extra,
        tt_conflicts: conflicts,
        max_cuts_per_class: widest,
        hist,
    }
}

} // verus!
