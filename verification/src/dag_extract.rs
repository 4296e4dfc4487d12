//! Extraction of cheapest terms from an e-graph.
use std::collections::HashMap;

use egglog::{EGraph, TermDag};
use vstd::prelude::*;
use vstd::std_specs::hash::*;

use crate::best_term::{
    all_finite, build_term, choices_ok, extends, fault, finite, is_best_term, lemma_finite_higher,
    linked, memo_ok, no_fault_iff_finite, remembers, TermFault,
};
use crate::class_graph::ClassGraph;
use crate::cost::{Cost, ZERO_KEY};
use crate::cut_iter::{
    class_lookup, find_class, lemma_built, lemma_class_in_range, well_shaped, LookupError,
};
use crate::egraph::{terms_of, TermView};
use crate::extract_dp::{
    child_max, child_sum, chosen_enodes_belong, dp_ok, hash_rows, hash_texts, noise_total, pricing,
    solvable, solve_costs, solved, struct_hash, texts_cover, texts_of, weigh_total, Dp, Pricing,
    NOISE_BUCKETS,
};
use crate::extract_laws::{
    amount, amounts, best_edges_descend, children_below, chosen_enodes_cost_the_class,
    costs_are_amounts, descending, has_term, have_terms, heads_are_amounts, monotone, rising,
    seq_max, seq_sum, solution_costs_are_amounts, term_over,
};
use crate::fnv::{fnv_low, fnv_mix_u64, FNV_OFFSET};
use crate::mapping::plus_total;
use crate::profile::{components_hold_every_class, SccProfile};
use crate::snapshot::{builds, head_names, names_owned, names_typed, texts_known, BuildError};
use crate::truth::same_str;

verus! {

/// A fold takes the largest child cost; `None` if it is neither `sum` nor `max`.
pub open spec fn fold_of(name: Seq<char>) -> Option<bool> {
    if name == "sum"@ {
        Some(false)
    } else if name == "max"@ {
        Some(true)
    } else {
        None
    }
}

fn parse_fold(name: &str) -> (r: Option<bool>)
    ensures
        r == fold_of(name@),
{
    if same_str(name, "sum") {
        Some(false)
    } else if same_str(name, "max") {
        Some(true)
    } else {
        None
    }
}

/// Why there is no extractor.
#[derive(Debug)]
pub enum ExtractorError {
    /// The fold is neither `sum` nor `max`.
    UnknownFold,
    /// No class graph could be taken.
    Build(BuildError),
    /// The relaxation of a component did not converge.
    NotConverged,
}

/// Why no term could be extracted.
#[derive(Clone, Copy, Debug, PartialEq, Eq, Structural)]
pub enum ExtractError {
    /// The e-graph has no such sort.
    UnknownSort,
    /// The value is of no class of the graph, or its class has no finite cost.
    Root,
    /// The class has no chosen term.
    Term(TermFault),
}

/// The cheapest terms of the classes of an e-graph.
#[derive(Debug)]
pub struct DagExtractor {
    pub graph: ClassGraph,
    pub costs: Vec<Cost>,
    /// Structural hash of each class's cheapest term.
    pub hashes: Vec<u64>,
    /// Cheapest e-node of each class.
    pub best: Vec<Option<usize>>,
    /// The terms that were rebuilt, by class.
    pub memo: HashMap<u32, usize>,
    pub scc_profile: Option<SccProfile>,
}

/// The profile is there if it is asked for.
pub open spec fn profiles(graph: ClassGraph, asked: bool, p: Option<SccProfile>) -> bool {
    match p {
        Some(x) => asked && x.describes(graph.sccs@, graph.adj@),
        None => !asked,
    }
}

/// The outcome of solving the class graph `graph`.
pub open spec fn solves(
    graph: ClassGraph,
    p: Pricing,
    asked: bool,
    r: Result<DagExtractor, ExtractorError>,
) -> bool {
    match solved(&graph, p, graph.sccs@.len()) {
        None => r matches Err(ExtractorError::NotConverged),
        Some(st) => {
            &&& r matches Ok(x)
            &&& x.graph == graph
            &&& x.costs@ == st.costs
            &&& x.hashes@ == st.hashes
            &&& x.best@ == st.best
            &&& x.memo@ == Map::<u32, usize>::empty()
            &&& profiles(graph, asked, x.scc_profile)
            &&& x.wf()
        },
    }
}

/// The outcome of finding the cheapest e-nodes of an e-graph's classes.
pub open spec fn prepares<
    P: Fn(Cost, Cost) -> Cost,
    W: Fn(Cost) -> Cost,
    N: Fn(u64) -> Cost,
>(
    eg: EGraph,
    sort: Seq<char>,
    head_costs: Seq<(String, Cost)>,
    fold: Seq<char>,
    plus: P,
    weigh: W,
    noise: N,
    asked: bool,
    r: Result<DagExtractor, ExtractorError>,
) -> bool {
    match fold_of(fold) {
        None => r matches Err(ExtractorError::UnknownFold),
        Some(fold_max) => exists|b: Result<ClassGraph, BuildError>| #[trigger]
            builds(eg, sort, head_costs, b) && match b {
                Err(e) => r matches Err(ExtractorError::Build(x)) && x == e,
                Ok(g) => texts_known(eg, g.enodes@) && solves(
                    g,
                    pricing(texts_of(eg, g.enodes@), fold_max, plus, weigh, noise),
                    asked,
                    r,
                ),
            },
    }
}

/// The outcome of extracting the cheapest term of a value.
pub open spec fn extracts(
    before: DagExtractor,
    after: DagExtractor,
    eg: EGraph,
    s: Seq<TermView>,
    t: Seq<TermView>,
    value: u32,
    sort: Seq<char>,
    r: Result<(Cost, usize), ExtractError>,
) -> bool {
    &&& after.graph == before.graph
    &&& after.costs == before.costs
    &&& after.hashes == before.hashes
    &&& after.best == before.best
    &&& after.scc_profile == before.scc_profile
    &&& after.fits(eg, t)
    &&& match class_lookup(eg, sort, before.graph.class_index@, value) {
        Err(LookupError::UnknownSort) => r == Err::<(Cost, usize), ExtractError>(
            ExtractError::UnknownSort,
        ) && t == s && after.memo == before.memo,
        Err(LookupError::UnknownValue) => r == Err::<(Cost, usize), ExtractError>(
            ExtractError::Root,
        ) && t == s && after.memo == before.memo,
        Ok(v) => if !before.costs@[v as int].finite() {
            r == Err::<(Cost, usize), ExtractError>(ExtractError::Root) && t == s && after.memo
                == before.memo
        } else {
            &&& extends(&before.graph, before.best@, eg, s, t)
            &&& remembers(before.memo@, after.memo@)
            &&& before.memo@.dom().contains(v) ==> after.memo@ == before.memo@ && t == s
            &&& match fault(&before.graph, before.best@, v, Seq::empty()) {
                Some(f) => r == Err::<(Cost, usize), ExtractError>(ExtractError::Term(f)),
                None => {
                    &&& r matches Ok((cost, id))
                    &&& cost == before.costs@[v as int]
                    &&& is_best_term(&before.graph, before.best@, eg, t, v, id)
                    &&& after.memo@.dom().contains(v)
                    &&& after.memo@[v] == id
                    &&& linked(&before.graph, before.best@, eg, t, after.memo@, v)
                },
            }
        },
    }
}

/// Hash over the structural hashes of the first `n` classes that have a cheapest e-node.
pub open spec fn hash_digest(best: Seq<Option<usize>>, hashes: Seq<u64>, n: nat) -> u64
    decreases n,
{
    if n == 0 {
        FNV_OFFSET
    } else {
        let h = hash_digest(best, hashes, (n - 1) as nat);
        match best[n - 1] {
            None => h,
            Some(_) => fnv_low(h, hashes[n - 1], 8),
        }
    }
}

/// Hash over the cheapest e-nodes of the first `n` classes.
pub open spec fn choice_digest(best: Seq<Option<usize>>, n: nat) -> u64
    decreases n,
{
    if n == 0 {
        FNV_OFFSET
    } else {
        let h = choice_digest(best, (n - 1) as nat);
        match best[n - 1] {
            None => h,
            Some(e) => fnv_low(h, e as u64, 8),
        }
    }
}

impl DagExtractor {
    /// What holds of every extractor.
    pub open spec fn wf(&self) -> bool {
        &&& well_shaped(&self.graph)
        &&& choices_ok(&self.graph, self.best@)
        &&& self.costs@.len() == self.graph.size()
        &&& self.hashes@.len() == self.graph.size()
    }

    /// The terms that were rebuilt are among the given ones.
    pub open spec fn fits(&self, eg: EGraph, terms: Seq<TermView>) -> bool {
        memo_ok(&self.graph, self.best@, eg, terms, self.memo@)
    }

    /// Finds the cheapest e-node of every class of the given sort over the constructors in
    /// `head_costs`. The `fold` is `sum` or `max`. Ties and noise go by the structure of the
    /// terms, so the texts of primitive children are read from the e-graph.
    ///
    /// An e-node costs its head and the sum of its children, or its head, its largest child
    /// and what `weigh` makes of the sum, and `noise` of the bucket that its hash falls in;
    /// `plus` adds these up.
    pub fn new<
        P: Fn(Cost, Cost) -> Cost,
        W: Fn(Cost) -> Cost,
        N: Fn(u64) -> Cost,
    >(
        eg: &EGraph,
        sort: &str,
        head_costs: &Vec<(String, Cost)>,
        fold: &str,
        plus: &P,
        weigh: &W,
        noise: &N,
        profile_sccs: bool,
    ) -> (r: Result<DagExtractor, ExtractorError>)
        requires
            names_owned(*eg, head_names(head_costs@)),
            names_typed(*eg, head_names(head_costs@)),
            plus_total(*plus),
            weigh_total(*weigh),
            noise_total(*noise),
        ensures
            prepares(
                *eg,
                sort@,
                head_costs@,
                fold@,
                *plus,
                *weigh,
                *noise,
                profile_sccs,
                r,
            ),
    {
        let fold_max: bool = match parse_fold(fold) {
            None => {
                return Err(ExtractorError::UnknownFold);
            },
            Some(f) => f,
        };
        let b: Result<ClassGraph, BuildError> = ClassGraph::build(eg, sort, head_costs);
        let ghost bg = b;
        match b {
            Err(e) => {
                assert(builds(*eg, sort@, head_costs@, bg));
                Err(ExtractorError::Build(e))
            },
            Ok(g) => {
                proof {
                    lemma_built(*eg, sort@, head_costs@, g);
                }
                let texts: Vec<Vec<u64>> = hash_texts(eg, &g);
                let r = DagExtractor::over(
                    g,
                    &texts,
                    fold_max,
                    plus,
                    weigh,
                    noise,
                    profile_sccs,
                );
                assert(builds(*eg, sort@, head_costs@, bg));
                r
            },
        }
    }

    /// Finds the cheapest e-node of every class of a class graph, with the given hashes of
    /// the texts of primitive children.
    pub fn over<
        P: Fn(Cost, Cost) -> Cost,
        W: Fn(Cost) -> Cost,
        N: Fn(u64) -> Cost,
    >(
        graph: ClassGraph,
        texts: &Vec<Vec<u64>>,
        fold_max: bool,
        plus: &P,
        weigh: &W,
        noise: &N,
        profile_sccs: bool,
    ) -> (r: Result<DagExtractor, ExtractorError>)
        requires
            well_shaped(&graph),
            texts_cover(&graph, hash_rows(texts@)),
            plus_total(*plus),
            weigh_total(*weigh),
            noise_total(*noise),
        ensures
            solves(
                graph,
                pricing(hash_rows(texts@), fold_max, *plus, *weigh, *noise),
                profile_sccs,
                r,
            ),
    {
        broadcast use group_hash_axioms;

        match solve_costs(&graph, texts, fold_max, plus, weigh, noise) {
            None => Err(ExtractorError::NotConverged),
            Some(t) => {
                let scc_profile: Option<SccProfile> = if profile_sccs {
                    proof {
                        components_hold_every_class(&graph);
                    }
                    Some(SccProfile::compute(&graph.sccs, &graph.adj))
                } else {
                    None
                };
                Ok(
                    DagExtractor {
                        graph,
                        costs: t.costs,
                        hashes: t.hashes,
                        best: t.best,
                        memo: HashMap::new(),
                        scc_profile,
                    },
                )
            },
        }
    }

    /// Extracts the cheapest term of a value. The terms that it is made of are remembered,
    /// so all extractions go into one arena.
    pub fn extract_best(&mut self, eg: &EGraph, dag: &mut TermDag, value: u32, sort: &str) -> (r:
        Result<(Cost, usize), ExtractError>)
        requires
            old(self).wf(),
            texts_known(*eg, old(self).graph.enodes@),
            old(self).fits(*eg, terms_of(*old(dag))),
        ensures
            final(self).wf(),
            extracts(
                *old(self),
                *final(self),
                *eg,
                terms_of(*old(dag)),
                terms_of(*final(dag)),
                value,
                sort@,
                r,
            ),
    {
        let v: u32 = match find_class(eg, sort, &self.graph.class_index, value) {
            Ok(v) => v,
            Err(LookupError::UnknownSort) => {
                return Err(ExtractError::UnknownSort);
            },
            Err(LookupError::UnknownValue) => {
                return Err(ExtractError::Root);
            },
        };
        proof {
            lemma_class_in_range(&self.graph, *eg, sort@, value);
        }
        let cost: Cost = self.costs[v as usize];
        if !cost.is_finite() {
            return Err(ExtractError::Root);
        }
        match build_term(&self.graph, &self.best, eg, dag, &mut self.memo, v) {
            Ok(id) => Ok((cost, id)),
            Err(f) => Err(ExtractError::Term(f)),
        }
    }

    /// Number of classes.
    pub fn num_classes(&self) -> (n: usize)
        ensures
            n == self.graph.size(),
    {
        self.graph.classes.len()
    }

    /// Number of e-nodes.
    pub fn num_enodes(&self) -> (n: usize)
        ensures
            n == self.graph.enodes@.len(),
    {
        self.graph.enodes.len()
    }

    /// Statistics of the condensation, if they were asked for.
    pub fn scc_profile(&self) -> (p: &Option<SccProfile>)
        ensures
            *p == self.scc_profile,
    {
        &self.scc_profile
    }

    /// Hashes over the choices: one over the structure of the cheapest terms, and one over
    /// the indices of the cheapest e-nodes.
    pub fn digest(&self) -> (r: (u64, u64))
        requires
            self.wf(),
        ensures
            r == (
                hash_digest(self.best@, self.hashes@, self.graph.size()),
                choice_digest(self.best@, self.graph.size()),
            ),
    {
        let mut structure: u64 = FNV_OFFSET;
        let mut choices: u64 = FNV_OFFSET;
        let mut i: usize = 0;
        while i < self.best.len()
            invariant
                self.wf(),
                i <= self.best@.len(),
                structure == hash_digest(self.best@, self.hashes@, i as nat),
                choices == choice_digest(self.best@, i as nat),
            decreases self.best@.len() - i,
        {
            match self.best[i] {
                None => {},
                Some(e) => {
                    structure = fnv_mix_u64(structure, self.hashes[i]);
                    choices = fnv_mix_u64(choices, e as u64);
                },
            }
            i = i + 1;
        }
        (structure, choices)
    }
}

// ------------------------------------------------------------------------- laws

/// A second extraction of the same value gives the same cost and the same term, and adds
/// nothing to the arena.
pub proof fn extracting_again_changes_nothing(
    a: DagExtractor,
    b: DagExtractor,
    c: DagExtractor,
    eg: EGraph,
    s: Seq<TermView>,
    t: Seq<TermView>,
    u: Seq<TermView>,
    value: u32,
    sort: Seq<char>,
    first: Result<(Cost, usize), ExtractError>,
    second: Result<(Cost, usize), ExtractError>,
)
    requires
        extracts(a, b, eg, s, t, value, sort, first),
        extracts(b, c, eg, t, u, value, sort, second),
    ensures
        second == first,
        first is Ok ==> u == t && c.memo@ == b.memo@,
{
}

/// The e-nodes whose head costs nothing have no children.
pub open spec fn free_heads_are_leaves(graph: &ClassGraph) -> bool {
    forall|e: int|
        0 <= e < graph.enodes@.len() && (#[trigger] graph.enodes@[e]).head.same(
            Cost::Number(ZERO_KEY),
        ) ==> graph.enodes@[e].ch_eq@.len() == 0
}

proof fn lemma_descent_finite(graph: &ClassGraph, st: Dp, v: u32)
    requires
        graph.wf(),
        dp_ok(graph, st),
        costs_are_amounts(graph, st),
        descending(graph, st),
        free_heads_are_leaves(graph),
        v < graph.size(),
        st.costs[v as int].finite(),
    ensures
        finite(graph, st.best, v, (st.costs[v as int]->Number_0 + 1) as nat),
    decreases st.costs[v as int]->Number_0, 1nat, 0nat,
{
    assert(amount(st.costs[v as int]));
    assert(st.best[v as int] is Some);
    let e = st.best[v as int]->0 as int;
    let kids = graph.children(e);
    if graph.enodes@[e].head.same(Cost::Number(ZERO_KEY)) {
        assert(kids.len() == 0);
    } else {
        assert(children_below(graph, st, v as int, e));
        lemma_descent_all_finite(graph, st, v, e, kids.len());
    }
}

proof fn lemma_descent_all_finite(graph: &ClassGraph, st: Dp, v: u32, e: int, n: nat)
    requires
        graph.wf(),
        dp_ok(graph, st),
        costs_are_amounts(graph, st),
        descending(graph, st),
        free_heads_are_leaves(graph),
        v < graph.size(),
        st.costs[v as int].finite(),
        0 <= e < graph.enodes@.len(),
        children_below(graph, st, v as int, e),
        n <= graph.children(e).len(),
    ensures
        all_finite(
            graph,
            st.best,
            graph.children(e),
            n,
            st.costs[v as int]->Number_0 as nat,
        ),
    decreases st.costs[v as int]->Number_0, 0nat, n,
{
    if n > 0 {
        lemma_descent_all_finite(graph, st, v, e, (n - 1) as nat);
        let kid = graph.children(e)[n - 1];
        assert(graph.enodes@[e].ch_eq@[n - 1] < graph.size());
        assert(st.costs[graph.enodes@[e].ch_eq@[n - 1] as int].below(st.costs[v as int]));
        assert(amount(st.costs[kid as int]));
        assert(amount(st.costs[v as int]));
        lemma_descent_finite(graph, st, kid);
        lemma_finite_higher(
            graph,
            st.best,
            kid,
            (st.costs[kid as int]->Number_0 + 1) as nat,
            st.costs[v as int]->Number_0 as nat,
        );
    }
}

/// Where an e-node with a head cost costs more than each of its children and one without is
/// a leaf, every class of finite cost has a term: no extraction fails on the way.
pub proof fn finite_cost_has_a_term(graph: &ClassGraph, p: Pricing, st: Dp, v: u32)
    requires
        solvable(graph),
        amounts(p),
        rising(p),
        heads_are_amounts(graph),
        free_heads_are_leaves(graph),
        solved(graph, p, graph.sccs@.len()) == Some(st),
        v < graph.size(),
        st.costs[v as int].finite(),
    ensures
        fault(graph, st.best, v, Seq::empty()) is None,
{
    solution_costs_are_amounts(graph, p);
    best_edges_descend(graph, p);
    chosen_enodes_belong(graph, p, graph.sccs@.len());
    lemma_descent_finite(graph, st, v);
    no_fault_iff_finite(graph, st.best, v);
}

/// The costs of some classes.
spec fn costs_at(costs: Seq<Cost>, kids: Seq<u32>) -> Seq<Cost> {
    Seq::new(kids.len(), |j: int| costs[kids[j] as int])
}

proof fn lemma_sums_agree(p: Pricing, costs: Seq<Cost>, kids: Seq<u32>, n: nat)
    requires
        n <= kids.len(),
    ensures
        seq_sum(p.plus, costs_at(costs, kids), n) == child_sum(p.plus, kids, costs, n),
        seq_max(costs_at(costs, kids), n) == child_max(kids, costs, n),
    decreases n,
{
    if n > 0 {
        lemma_sums_agree(p, costs, kids, (n - 1) as nat);
    }
}

/// Where there is no noise and cheaper children never make an e-node dearer, the chosen
/// term of a class has the cost of the class.
pub proof fn chosen_term_has_the_cost(
    graph: &ClassGraph,
    p: Pricing,
    st: Dp,
    v: u32,
    height: nat,
)
    requires
        solvable(graph),
        graph.condensed(),
        amounts(p),
        monotone(p),
        heads_are_amounts(graph),
        solved(graph, p, graph.sccs@.len()) == Some(st),
        v < graph.size(),
        finite(graph, st.best, v, height),
    ensures
        has_term(graph, p, v as int, st.costs[v as int], height),
    decreases height, 0nat,
{
    chosen_enodes_cost_the_class(graph, p, st, v as int);
    let e = st.best[v as int]->0;
    let x = graph.enodes@[e as int];
    let kids = graph.children(e as int);
    let cs = costs_at(st.costs, kids);
    let noise = struct_hash(graph, p.texts, st.hashes, e as int) % NOISE_BUCKETS;
    lemma_sums_agree(p, st.costs, kids, kids.len());
    lemma_kids_have_terms(graph, p, st, e as int, kids.len(), (height - 1) as nat);
    if !x.head.same(Cost::Number(ZERO_KEY)) {
        assert forall|j: int| 0 <= j < cs.len() implies (#[trigger] cs[j]).finite() by {
            assert(st.costs[kids[j] as int].finite());
        }
    }
    assert(term_over(graph, p, v as int, st.costs[v as int], e, cs, noise));
}

proof fn lemma_kids_have_terms(
    graph: &ClassGraph,
    p: Pricing,
    st: Dp,
    e: int,
    n: nat,
    height: nat,
)
    requires
        solvable(graph),
        graph.condensed(),
        amounts(p),
        monotone(p),
        heads_are_amounts(graph),
        solved(graph, p, graph.sccs@.len()) == Some(st),
        0 <= e < graph.enodes@.len(),
        n <= graph.children(e).len(),
        all_finite(graph, st.best, graph.children(e), n, height),
    ensures
        have_terms(
            graph,
            p,
            graph.children(e),
            costs_at(st.costs, graph.children(e)),
            n,
            height,
        ),
    decreases height, n + 1,
{
    if n > 0 {
        lemma_kids_have_terms(graph, p, st, e, (n - 1) as nat, height);
        assert(graph.enodes@[e].ch_eq@[n - 1] < graph.size());
        chosen_term_has_the_cost(graph, p, st, graph.children(e)[n - 1], height);
    }
}

} // verus!
