//! Cut enumeration over an e-graph.
use std::collections::HashMap;

use egglog::EGraph;
use vstd::prelude::*;
use vstd::std_specs::hash::*;

use crate::class_graph::{ClassGraph, Enode};
use crate::cost::{Cost, ZERO_KEY};
use crate::cut::{cut_seq, Cut, CutView};
use crate::egraph::{canonical_of, canonical_value, find_sort, sorts_of, string_value, strings_of};
use crate::enumerate::{
    enumerable, enumerate_cuts, enumeration, gate_of, list_ok, realized, sweep_ok, trivial,
    CutError, CutParams, CutResult, Sweep,
};
use crate::kernel::{
    all_kernels, build_kernels, count_true, kernel_of, kernels_cover, lemma_kernel_each,
    lemma_kernel_error_in_range, mapped, Kernel, KernelError,
};
use crate::leaves::copy_list;
use crate::names::orders;
use crate::reach::reached;
use crate::snapshot::{
    builds, head_names, in_order, indexes, lemma_scanned_names, names_owned, names_typed, snapshot,
    stands_for, texts_known, BuildError, Scan,
};
use crate::stats::CutStats;
use crate::truth::{op_named, Op};

verus! {

// ----------------------------------------------------------------------- lookup

/// Why a value has no class.
#[derive(Clone, Copy, Debug, PartialEq, Eq, Structural)]
pub enum LookupError {
    /// The e-graph has no such sort.
    UnknownSort,
    /// The value is of no class of the graph.
    UnknownValue,
}

/// The class of a value: that of its canonical value.
pub open spec fn class_lookup(
    eg: EGraph,
    sort: Seq<char>,
    index: Map<u32, u32>,
    value: u32,
) -> Result<u32, LookupError> {
    let c = canonical_of(eg)[(sort, value)];
    if !sorts_of(eg).dom().contains(sort) {
        Err(LookupError::UnknownSort)
    } else if index.dom().contains(c) {
        Ok(index[c])
    } else {
        Err(LookupError::UnknownValue)
    }
}

/// The class of a value.
pub(crate) fn find_class(eg: &EGraph, sort: &str, index: &HashMap<u32, u32>, value: u32) -> (r:
    Result<u32, LookupError>)
    ensures
        r == class_lookup(*eg, sort@, index@, value),
{
    broadcast use group_hash_axioms;

    match find_sort(eg, sort) {
        None => Err(LookupError::UnknownSort),
        Some(_) => {
            let c: u32 = canonical_value(eg, sort, value);
            match index.get(&c) {
                Some(i) => Ok(*i),
                None => Err(LookupError::UnknownValue),
            }
        },
    }
}

// ------------------------------------------------------------------ graph shapes

/// The graph fits its constructor table: an e-node has a class for each marked position of
/// its constructor and a primitive for each other one.
pub open spec fn well_shaped(graph: &ClassGraph) -> bool {
    &&& graph.wf()
    &&& graph.condensed()
    &&& indexes(graph.class_index@, graph.classes@)
    &&& forall|f: int|
        0 <= f < graph.funcs@.len() ==> (#[trigger] graph.funcs@[f]).arity
            == graph.funcs@[f].eq_mask@.len()
    &&& forall|f: int, g: int|
        0 <= f < graph.funcs@.len() && 0 <= g < graph.funcs@.len() && (
        #[trigger] graph.funcs@[f]).term_name@ == (#[trigger] graph.funcs@[g]).term_name@
            ==> graph.funcs@[f].eq_mask@ == graph.funcs@[g].eq_mask@
    &&& forall|e: int|
        0 <= e < graph.enodes@.len() ==> {
            let x = #[trigger] graph.enodes@[e];
            &&& x.func < graph.funcs@.len()
            &&& x.ch_eq@.len() == count_true(graph.funcs@[x.func as int].eq_mask@)
            &&& x.ch_eq@.len() + x.ch_prim@.len() == graph.funcs@[x.func as int].eq_mask@.len()
        }
}

/// A graph taken of an e-graph is well shaped.
pub proof fn snapshot_is_well_shaped(eg: EGraph, graph: &ClassGraph, s: Scan)
    requires
        graph.shows_scan(eg, s),
        graph.wf(),
        graph.condensed(),
    ensures
        well_shaped(graph),
{
    assert forall|e: int| 0 <= e < graph.enodes@.len() implies {
        let x = #[trigger] graph.enodes@[e];
        &&& x.func < graph.funcs@.len()
        &&& x.ch_eq@.len() == count_true(graph.funcs@[x.func as int].eq_mask@)
        &&& x.ch_eq@.len() + x.ch_prim@.len() == graph.funcs@[x.func as int].eq_mask@.len()
    } by {
        let x = graph.enodes@[e];
        assert(stands_for(x, graph.classes@, s.rows[e]));
        assert(s.rows[e].func < s.funcs.len());
        assert(graph.funcs@[x.func as int].eq_mask@ == s.funcs[x.func as int].mask);
    }
    assert forall|f: int, g: int|
        0 <= f < graph.funcs@.len() && 0 <= g < graph.funcs@.len() && (
        #[trigger] graph.funcs@[f]).term_name@ == (
        #[trigger] graph.funcs@[g]).term_name@ implies graph.funcs@[f].eq_mask@
        == graph.funcs@[g].eq_mask@ by {
        assert(s.funcs[f].name == s.funcs[g].name);
    }
}

proof fn lemma_all_true(mask: Seq<bool>)
    ensures
        count_true(mask) <= mask.len(),
        count_true(mask) == mask.len() ==> forall|i: int| 0 <= i < mask.len() ==> #[trigger] mask[i],
    decreases mask.len(),
{
    if mask.len() > 0 {
        lemma_all_true(mask.drop_last());
        if count_true(mask) == mask.len() {
            assert forall|i: int| 0 <= i < mask.len() implies #[trigger] mask[i] by {
                if i < mask.len() - 1 {
                    assert(mask.drop_last()[i]);
                }
            }
        }
    }
}

/// All children of a gate are classes, and there are at most four.
pub proof fn gates_have_class_children(
    graph: &ClassGraph,
    op_map: Seq<(String, String)>,
    ks: Seq<Kernel>,
    f: int,
)
    requires
        all_kernels(graph.funcs@, op_map, graph.funcs@.len()) == Ok::<Seq<Kernel>, KernelError>(ks),
        graph.funcs@[f].arity == graph.funcs@[f].eq_mask@.len(),
        0 <= f < graph.funcs@.len(),
        ks[f] is Op,
    ensures
        count_true(graph.funcs@[f].eq_mask@) == graph.funcs@[f].eq_mask@.len() <= 4,
        forall|i: int|
            0 <= i < graph.funcs@[f].eq_mask@.len() ==> #[trigger] graph.funcs@[f].eq_mask@[i],
{
    lemma_kernel_each(graph.funcs@, op_map, graph.funcs@.len());
    assert(kernel_of(&graph.funcs@[f], f as usize, op_map) == Ok::<Kernel, KernelError>(ks[f]));
    lemma_all_true(graph.funcs@[f].eq_mask@);
    let o = op_named(mapped(op_map, graph.funcs@[f].term_name@)->0)->0;
    assert(o.pins() <= 4);
}

// ---------------------------------------------------------------------- iterator

/// The cuts of every class of an e-graph that some roots depend on.
#[derive(Debug)]
pub struct CutIterator {
    pub graph: ClassGraph,
    pub kernels: Vec<Kernel>,
    pub params: CutParams,
    pub result: CutResult,
    pub cone: Vec<bool>,
    pub root_ids: Vec<u32>,
    /// Name of each primary input.
    pub pi_names: HashMap<u32, String>,
    /// Constructor of primary inputs.
    pub var_func: Option<usize>,
    /// Constructors of the constants zero and one.
    pub zero_func: Option<usize>,
    pub one_func: Option<usize>,
}

/// Why no cuts could be enumerated.
#[derive(Debug)]
pub enum IterError {
    /// The vocabulary is empty.
    EmptyOpMap,
    /// No class graph could be taken.
    Build(BuildError),
    /// The constructor of this name stands for no operator.
    Kernel { error: KernelError, constructor: String },
    /// The e-graph has no such sort.
    UnknownSort,
    /// The root of this index is of no class of the graph.
    Root(usize),
    /// The enumeration failed.
    Cut(CutError),
}

/// `f` is the last constructor with the kernel `k`, among the first `n`.
pub open spec fn last_kernel(ks: Seq<Kernel>, k: Kernel, n: int, f: Option<usize>) -> bool {
    match f {
        Some(i) => i < n && ks[i as int] == k && forall|j: int|
            i < j < n ==> #[trigger] ks[j] != k,
        None => forall|j: int| 0 <= j < n ==> #[trigger] ks[j] != k,
    }
}

/// E-node `e` names a primary input.
pub open spec fn names_pi(graph: &ClassGraph, ks: Seq<Kernel>, e: int) -> bool {
    ks[graph.enodes@[e].func as int] == Kernel::Leaf && graph.enodes@[e].ch_prim@.len() > 0
}

/// The names that the first `n` e-nodes give to primary inputs, the last one winning.
pub open spec fn pi_texts(eg: EGraph, graph: &ClassGraph, ks: Seq<Kernel>, n: nat) -> Map<
    u32,
    Seq<char>,
>
    decreases n,
{
    if n == 0 {
        Map::empty()
    } else {
        let rest = pi_texts(eg, graph, ks, (n - 1) as nat);
        if names_pi(graph, ks, n - 1) {
            rest.insert(
                graph.enodes@[n - 1].out,
                strings_of(eg)[graph.enodes@[n - 1].ch_prim@[0].1],
            )
        } else {
            rest
        }
    }
}

/// The texts of a map to strings.
pub open spec fn map_texts(m: Map<u32, String>) -> Map<u32, Seq<char>> {
    m.map_values(|s: String| s@)
}

/// The classes of the first `n` roots; the index of the first one without a class.
pub open spec fn roots_found(
    eg: EGraph,
    sort: Seq<char>,
    index: Map<u32, u32>,
    roots: Seq<u32>,
    n: nat,
) -> Result<Seq<u32>, usize>
    decreases n,
{
    if n == 0 {
        Ok(Seq::empty())
    } else {
        match roots_found(eg, sort, index, roots, (n - 1) as nat) {
            Err(i) => Err(i),
            Ok(ids) => match class_lookup(eg, sort, index, roots[n - 1]) {
                Ok(c) => Ok(ids.push(c)),
                Err(_) => Err((n - 1) as usize),
            },
        }
    }
}

/// The cone of some roots: all that they depend on, or everything without roots.
pub open spec fn cone_of(graph: &ClassGraph, ids: Seq<u32>) -> Seq<bool> {
    Seq::new(graph.size(), |v: int| ids.len() == 0 || reached(graph.adj@, ids, v as u32))
}

/// The outcome of the enumeration over the class graph `graph`.
pub open spec fn iterates(
    eg: EGraph,
    graph: ClassGraph,
    sort: Seq<char>,
    op_map: Seq<(String, String)>,
    roots: Seq<u32>,
    params: CutParams,
    r: Result<CutIterator, IterError>,
) -> bool {
    match all_kernels(graph.funcs@, op_map, graph.funcs@.len()) {
        Err(e) => r matches Err(IterError::Kernel { error, constructor }) && error == e
            && constructor@ == graph.funcs@[e.spec_func() as int].term_name@,
        Ok(ks) => if !sorts_of(eg).dom().contains(sort) {
            r matches Err(IterError::UnknownSort)
        } else {
            match roots_found(eg, sort, graph.class_index@, roots, roots.len()) {
                Err(i) => r matches Err(IterError::Root(x)) && x == i,
                Ok(ids) => match enumeration(&graph, params, ks, cone_of(&graph, ids)) {
                    Err(e) => r matches Err(IterError::Cut(x)) && x == e,
                    Ok(st) => r matches Ok(it) && it.graph == graph && it.kernels@ == ks
                        && it.params == params && it.cone@ == cone_of(&graph, ids)
                        && it.root_ids@ == ids && it.result.shows(
                        &graph,
                        params,
                        ks,
                        cone_of(&graph, ids),
                        st,
                    ) && map_texts(it.pi_names@) == pi_texts(eg, &graph, ks, graph.enodes@.len())
                        && last_kernel(ks, Kernel::Leaf, ks.len() as int, it.var_func)
                        && last_kernel(ks, Kernel::Const(0), ks.len() as int, it.zero_func)
                        && last_kernel(ks, Kernel::Const(1), ks.len() as int, it.one_func)
                        && it.wf(),
                },
            }
        },
    }
}

/// The vocabulary's constructors with zero head costs.
pub open spec fn zero_heads(op_map: Seq<(String, String)>, heads: Seq<(String, Cost)>) -> bool {
    &&& heads.len() == op_map.len()
    &&& forall|i: int|
        0 <= i < heads.len() ==> (#[trigger] heads[i]).0@ == op_map[i].0@ && heads[i].1
            == Cost::Number(ZERO_KEY)
}

/// The names of a vocabulary.
pub open spec fn vocabulary(op_map: Seq<(String, String)>) -> Seq<Seq<char>> {
    Seq::new(op_map.len(), |i: int| op_map[i].0@)
}

/// The outcome of the enumeration over an e-graph.
pub open spec fn enumerates(
    eg: EGraph,
    sort: Seq<char>,
    op_map: Seq<(String, String)>,
    roots: Seq<u32>,
    params: CutParams,
    r: Result<CutIterator, IterError>,
) -> bool {
    if op_map.len() == 0 {
        r matches Err(IterError::EmptyOpMap)
    } else {
        exists|heads: Seq<(String, Cost)>, b: Result<ClassGraph, BuildError>|
            zero_heads(op_map, heads) && #[trigger] builds(eg, sort, heads, b) && match b {
                Err(e) => r matches Err(IterError::Build(x)) && x == e,
                Ok(g) => iterates(eg, g, sort, op_map, roots, params, r),
            }
    }
}

impl CutIterator {
    /// What holds of every iterator: its cut lists are those of the enumeration, and the
    /// graph has the shape that reconstruction needs.
    pub open spec fn wf(&self) -> bool {
        &&& well_shaped(&self.graph)
        &&& enumerable(&self.graph, self.params, self.kernels@, self.cone@)
        &&& self.kernels@.len() == self.graph.funcs@.len()
        &&& enumeration(&self.graph, self.params, self.kernels@, self.cone@) matches Ok(st)
            && self.result.shows(&self.graph, self.params, self.kernels@, self.cone@, st)
            && sweep_ok(&self.graph, self.params, self.kernels@, self.cone@, st)
        &&& forall|f: int|
            #![trigger self.graph.funcs@[f]]
            0 <= f < self.graph.funcs@.len() && self.kernels@[f] is Op ==> forall|i: int|
                0 <= i < self.graph.funcs@[f].eq_mask@.len()
                    ==> #[trigger] self.graph.funcs@[f].eq_mask@[i]
        &&& forall|i: int|
            0 <= i < self.root_ids@.len() ==> #[trigger] self.root_ids@[i] < self.graph.size()
        &&& forall|v: u32| #[trigger] self.pi_names@.dom().contains(v) ==> v < self.graph.size()
        &&& last_kernel(
            self.kernels@,
            Kernel::Leaf,
            self.kernels@.len() as int,
            self.var_func,
        )
        &&& last_kernel(
            self.kernels@,
            Kernel::Const(0),
            self.kernels@.len() as int,
            self.zero_func,
        )
        &&& last_kernel(
            self.kernels@,
            Kernel::Const(1),
            self.kernels@.len() as int,
            self.one_func,
        )
        &&& forall|f: int|
            0 <= f < self.kernels@.len() ==> ((#[trigger] self.kernels@[f]) is Const
                ==> self.kernels@[f] == Kernel::Const(0) || self.kernels@[f] == Kernel::Const(1))
        &&& forall|f: int, g: int|
            0 <= f < self.kernels@.len() && 0 <= g < self.kernels@.len() && (
            #[trigger] self.graph.funcs@[f]).term_name@ == (#[trigger] self.graph.funcs@[g]).term_name@
                ==> self.kernels@[f] == self.kernels@[g]
    }

    /// The final state of the enumeration.
    pub open spec fn sweep(&self) -> Sweep {
        enumeration(&self.graph, self.params, self.kernels@, self.cone@)->Ok_0
    }

    /// Enumerates the cuts of the classes that `roots` depend on (of all classes, without
    /// roots). `op_map` maps the constructors of the vocabulary to operators. The names of
    /// primary inputs are read from the e-graph.
    pub fn new(
        eg: &EGraph,
        sort: &str,
        op_map: &Vec<(String, String)>,
        roots: &Vec<u32>,
        params: CutParams,
    ) -> (r: Result<CutIterator, IterError>)
        requires
            params.max_cuts <= u32::MAX || params.cand_cap < u32::MAX,
            names_owned(*eg, vocabulary(op_map@)),
            names_typed(*eg, vocabulary(op_map@)),
        ensures
            enumerates(*eg, sort@, op_map@, roots@, params, r),
    {
        if op_map.len() == 0 {
            return Err(IterError::EmptyOpMap);
        }
        let mut heads: Vec<(String, Cost)> = Vec::new();
        while heads.len() < op_map.len()
            invariant
                heads@.len() <= op_map@.len(),
                forall|i: int|
                    0 <= i < heads@.len() ==> (#[trigger] heads@[i]).0@ == op_map@[i].0@
                        && heads@[i].1 == Cost::Number(ZERO_KEY),
            decreases op_map@.len() - heads@.len(),
        {
            let i: usize = heads.len();
            heads.push((op_map[i].0.clone(), Cost::zero()));
        }
        assert(zero_heads(op_map@, heads@));
        assert(head_names(heads@) =~= vocabulary(op_map@));
        let b: Result<ClassGraph, BuildError> = ClassGraph::build(eg, sort, &heads);
        let ghost bg = b;
        match b {
            Err(e) => {
                assert(builds(*eg, sort@, heads@, bg));
                Err(IterError::Build(e))
            },
            Ok(g) => {
                proof {
                    lemma_built(*eg, sort@, heads@, g);
                }
                let r = CutIterator::over(eg, g, sort, op_map, roots, params);
                assert(builds(*eg, sort@, heads@, bg));
                r
            },
        }
    }

    /// Enumerates the cuts of the classes that `roots` depend on, in a class graph that was
    /// taken of the e-graph.
    pub fn over(
        eg: &EGraph,
        graph: ClassGraph,
        sort: &str,
        op_map: &Vec<(String, String)>,
        roots: &Vec<u32>,
        params: CutParams,
    ) -> (r: Result<CutIterator, IterError>)
        requires
            params.max_cuts <= u32::MAX || params.cand_cap < u32::MAX,
            well_shaped(&graph),
            texts_known(*eg, graph.enodes@),
        ensures
            iterates(*eg, graph, sort@, op_map@, roots@, params, r),
    {
        let kernels: Vec<Kernel> = match build_kernels(&graph, op_map) {
            Ok(ks) => ks,
            Err(e) => {
                proof {
                    lemma_kernel_error_in_range(graph.funcs@, op_map@, graph.funcs@.len());
                }
                let constructor: String = graph.funcs[e.func()].term_name.clone();
                return Err(IterError::Kernel { error: e, constructor });
            },
        };
        let ghost ks = kernels@;
        proof {
            lemma_kernel_each(graph.funcs@, op_map@, graph.funcs@.len());
            lemma_kernels_fit(&graph, op_map@, ks);
        }
        let var_func: Option<usize> = find_kernel(&kernels, Kernel::Leaf);
        let zero_func: Option<usize> = find_kernel(&kernels, Kernel::Const(0));
        let one_func: Option<usize> = find_kernel(&kernels, Kernel::Const(1));
        let pi_names: HashMap<u32, String> = name_pis(eg, &graph, &kernels);
        proof {
            lemma_pi_classes(*eg, &graph, ks, graph.enodes@.len());
            assert forall|v: u32| #[trigger] pi_names@.dom().contains(v) implies v
                < graph.size() by {
                assert(map_texts(pi_names@).dom().contains(v));
            }
        }
        if find_sort(eg, sort).is_none() {
            return Err(IterError::UnknownSort);
        }
        let mut root_ids: Vec<u32> = Vec::new();
        while root_ids.len() < roots.len()
            invariant
                root_ids@.len() <= roots@.len(),
                all_kernels(graph.funcs@, op_map@, graph.funcs@.len()) == Ok::<
                    Seq<Kernel>,
                    KernelError,
                >(ks),
                sorts_of(*eg).dom().contains(sort@),
                well_shaped(&graph),
                roots_found(
                    *eg,
                    sort@,
                    graph.class_index@,
                    roots@,
                    root_ids@.len(),
                ) == Ok::<Seq<u32>, usize>(root_ids@),
                forall|i: int|
                    0 <= i < root_ids@.len() ==> #[trigger] root_ids@[i] < graph.size(),
            decreases roots@.len() - root_ids@.len(),
        {
            let i: usize = root_ids.len();
            match find_class(eg, sort, &graph.class_index, roots[i]) {
                Ok(c) => {
                    proof {
                        let v = canonical_of(*eg)[(sort@, roots@[i as int])];
                        assert(graph.classes@.contains(v));
                        let k = choose|k: int| 0 <= k < graph.classes@.len() && graph.classes@[k] == v;
                        assert(graph.class_index@[graph.classes@[k]] == k);
                    }
                    root_ids.push(c);
                },
                Err(_) => {
                    proof {
                        lemma_roots_err(
                            *eg,
                            sort@,
                            graph.class_index@,
                            roots@,
                            (i + 1) as nat,
                            roots@.len(),
                        );
                    }
                    return Err(IterError::Root(i));
                },
            }
        }
        let cone: Vec<bool> = if root_ids.len() == 0 {
            all_set(graph.classes.len())
        } else {
            graph.cone_mask(&root_ids)
        };
        assert(cone@ =~= cone_of(&graph, root_ids@));
        match enumerate_cuts(&graph, &params, &kernels, &cone) {
            Err(e) => Err(IterError::Cut(e)),
            Ok(result) => Ok(
                CutIterator {
                    graph,
                    kernels,
                    params,
                    result,
                    cone,
                    root_ids,
                    pi_names,
                    var_func,
                    zero_func,
                    one_func,
                },
            ),
        }
    }
}

/// What a graph taken of an e-graph is good for.
pub(crate) proof fn lemma_built(eg: EGraph, sort: Seq<char>, heads: Seq<(String, Cost)>, g: ClassGraph)
    requires
        builds(eg, sort, heads, Ok::<ClassGraph, BuildError>(g)),
    ensures
        well_shaped(&g),
        names_typed(eg, head_names(heads)) ==> texts_known(eg, g.enodes@),
{
    let order = choose|order: Seq<usize>|
        #[trigger] orders(head_names(heads), order) && match snapshot(eg, sort, heads, order) {
            Ok(s) => g.shows_scan(eg, s) && g.wf() && g.condensed(),
            Err(f) => false,
        };
    let s = snapshot(eg, sort, heads, order)->Ok_0;
    snapshot_is_well_shaped(eg, &g, s);
    if names_typed(eg, head_names(heads)) {
        let hs = in_order(heads, order);
        assert forall|i: int| 0 <= i < hs.len() implies head_names(heads).contains(
            (#[trigger] hs[i]).0,
        ) by {
            assert(order[i] < head_names(heads).len());
            assert(head_names(heads)[order[i] as int] == hs[i].0);
        }
        lemma_scanned_names(eg, sort, sorts_of(eg)[sort], hs, order.len(), head_names(heads));
    }
}

/// What the kernels of a vocabulary say of its constructors.
proof fn lemma_kernels_fit(graph: &ClassGraph, op_map: Seq<(String, String)>, ks: Seq<Kernel>)
    requires
        well_shaped(graph),
        all_kernels(graph.funcs@, op_map, graph.funcs@.len()) == Ok::<Seq<Kernel>, KernelError>(ks),
    ensures
        ks.len() == graph.funcs@.len(),
        kernels_cover(graph, ks),
        forall|e: int|
            0 <= e < graph.enodes@.len() && gate_of(graph, ks, e) is Some ==> (
            #[trigger] graph.enodes@[e]).ch_eq@.len() <= 6,
        forall|f: int|
            #![trigger graph.funcs@[f]]
            0 <= f < graph.funcs@.len() && ks[f] is Op ==> forall|i: int|
                0 <= i < graph.funcs@[f].eq_mask@.len() ==> #[trigger] graph.funcs@[f].eq_mask@[i],
        forall|f: int|
            0 <= f < ks.len() ==> ((#[trigger] ks[f]) is Const ==> ks[f] == Kernel::Const(0)
                || ks[f] == Kernel::Const(1)),
        forall|f: int, g: int|
            0 <= f < ks.len() && 0 <= g < ks.len() && (#[trigger] graph.funcs@[f]).term_name@ == (
            #[trigger] graph.funcs@[g]).term_name@ ==> ks[f] == ks[g],
{
    lemma_kernel_each(graph.funcs@, op_map, graph.funcs@.len());
    assert forall|e: int|
        0 <= e < graph.enodes@.len() && gate_of(graph, ks, e) is Some implies (
    #[trigger] graph.enodes@[e]).ch_eq@.len() <= 6 by {
        gates_have_class_children(graph, op_map, ks, graph.enodes@[e].func as int);
    }
    assert forall|f: int|
        #![trigger graph.funcs@[f]]
        0 <= f < graph.funcs@.len() && ks[f] is Op implies forall|i: int|
        0 <= i < graph.funcs@[f].eq_mask@.len() ==> #[trigger] graph.funcs@[f].eq_mask@[i] by {
        gates_have_class_children(graph, op_map, ks, f);
    }
    assert forall|f: int| 0 <= f < ks.len() && (#[trigger] ks[f]) is Const implies ks[f]
        == Kernel::Const(0) || ks[f] == Kernel::Const(1) by {
        assert(kernel_of(&graph.funcs@[f], f as usize, op_map) == Ok::<Kernel, KernelError>(ks[f]));
    }
    assert forall|f: int, g: int|
        0 <= f < ks.len() && 0 <= g < ks.len() && (#[trigger] graph.funcs@[f]).term_name@ == (
        #[trigger] graph.funcs@[g]).term_name@ implies ks[f] == ks[g] by {
        assert(kernel_of(&graph.funcs@[f], f as usize, op_map) == Ok::<Kernel, KernelError>(ks[f]));
        assert(kernel_of(&graph.funcs@[g], g as usize, op_map) == Ok::<Kernel, KernelError>(ks[g]));
        assert(graph.funcs@[f].arity == graph.funcs@[g].arity);
    }
}

proof fn lemma_roots_err(
    eg: EGraph,
    sort: Seq<char>,
    index: Map<u32, u32>,
    roots: Seq<u32>,
    n: nat,
    m: nat,
)
    requires
        n <= m,
        roots_found(eg, sort, index, roots, n) is Err,
    ensures
        roots_found(eg, sort, index, roots, m) == roots_found(eg, sort, index, roots, n),
    decreases m,
{
    if n < m {
        lemma_roots_err(eg, sort, index, roots, n, (m - 1) as nat);
    }
}

/// Only classes are named.
proof fn lemma_pi_classes(eg: EGraph, graph: &ClassGraph, ks: Seq<Kernel>, n: nat)
    requires
        graph.wf(),
        n <= graph.enodes@.len(),
    ensures
        forall|v: u32|
            #[trigger] pi_texts(eg, graph, ks, n).dom().contains(v) ==> v < graph.size(),
    decreases n,
{
    if n > 0 {
        lemma_pi_classes(eg, graph, ks, (n - 1) as nat);
        assert(graph.enodes@[n - 1].out < graph.size());
        let rest = pi_texts(eg, graph, ks, (n - 1) as nat);
        assert forall|v: u32| #[trigger] pi_texts(eg, graph, ks, n).dom().contains(v) implies v
            < graph.size() by {
            if v != graph.enodes@[n - 1].out {
                assert(rest.dom().contains(v));
            }
        }
    }
}

/// A mask with every entry set.
fn all_set(n: usize) -> (mask: Vec<bool>)
    ensures
        mask@ == Seq::new(n as nat, |v: int| true),
{
    let mut mask: Vec<bool> = Vec::new();
    while mask.len() < n
        invariant
            mask@.len() <= n,
            forall|v: int| 0 <= v < mask@.len() ==> #[trigger] mask@[v],
        decreases n - mask@.len(),
    {
        mask.push(true);
    }
    assert(mask@ =~= Seq::new(n as nat, |v: int| true));
    mask
}

/// The last constructor with the kernel `k`.
fn find_kernel(kernels: &Vec<Kernel>, k: Kernel) -> (r: Option<usize>)
    ensures
        last_kernel(kernels@, k, kernels@.len() as int, r),
{
    let mut r: Option<usize> = None;
    let mut i: usize = 0;
    while i < kernels.len()
        invariant
            i <= kernels@.len(),
            last_kernel(kernels@, k, i as int, r),
        decreases kernels@.len() - i,
    {
        if kernels[i] == k {
            r = Some(i);
        }
        i = i + 1;
    }
    r
}

/// The names of the primary inputs.
fn name_pis(eg: &EGraph, graph: &ClassGraph, kernels: &Vec<Kernel>) -> (names: HashMap<u32, String>)
    requires
        kernels_cover(graph, kernels@),
        texts_known(*eg, graph.enodes@),
    ensures
        map_texts(names@) == pi_texts(*eg, graph, kernels@, graph.enodes@.len()),
{
    broadcast use group_hash_axioms;

    let mut names: HashMap<u32, String> = HashMap::new();
    assert(map_texts(names@) =~= pi_texts(*eg, graph, kernels@, 0));
    let mut e: usize = 0;
    while e < graph.enodes.len()
        invariant
            e <= graph.enodes@.len(),
            kernels_cover(graph, kernels@),
            texts_known(*eg, graph.enodes@),
            map_texts(names@) == pi_texts(*eg, graph, kernels@, e as nat),
        decreases graph.enodes@.len() - e,
    {
        let x: &Enode = &graph.enodes[e];
        assert(graph.enodes@[e as int].func < kernels@.len());
        if kernels[x.func] == Kernel::Leaf && x.ch_prim.len() > 0 {
            let (_, pv): (u32, u32) = x.ch_prim[0];
            assert(strings_of(*eg).dom().contains(graph.enodes@[e as int].ch_prim@[0].1));
            let text: String = string_value(eg, pv);
            let ghost before = names@;
            names.insert(x.out, text);
            assert(map_texts(names@) =~= map_texts(before).insert(x.out, text@));
        }
        e = e + 1;
    }
    names
}

// ------------------------------------------------------------------------ access

/// A cut as it is shown to callers.
#[derive(Debug)]
pub struct CutInfo {
    pub leaves: Vec<u32>,
    pub tt: u64,
    pub nnodes: u16,
    /// Constructor of the realizing e-node; `None` for a trivial cut.
    pub enode: Option<String>,
    /// Indices of the cuts taken of its children; `None` for a trivial cut.
    pub child_cuts: Option<Vec<u32>>,
}

impl CutInfo {
    /// The information is that of cut `c`.
    pub open spec fn tells(&self, graph: &ClassGraph, c: CutView) -> bool {
        &&& self.leaves@ == c.leaves
        &&& self.tt == c.tt
        &&& self.nnodes == c.nnodes
        &&& match c.realization {
            None => self.enode is None && self.child_cuts is None,
            Some((e, chosen)) => {
                &&& self.enode matches Some(name)
                &&& name@ == graph.funcs@[graph.enodes@[e as int].func as int].term_name@
                &&& self.child_cuts matches Some(cc)
                &&& cc@ == chosen
            },
        }
    }
}

/// The list tells of the cuts `cs`, in order.
pub open spec fn tells_cuts(list: Seq<CutInfo>, graph: &ClassGraph, cs: Seq<CutView>) -> bool {
    &&& list.len() == cs.len()
    &&& forall|i: int| 0 <= i < cs.len() ==> (#[trigger] list[i]).tells(graph, cs[i])
}

/// An e-node as it is shown to callers.
#[derive(Debug)]
pub struct EnodeInfo {
    /// Constructor.
    pub func: String,
    /// Child classes.
    pub ch_eq: Vec<u32>,
    /// Component of the class.
    pub scc: u32,
}

impl EnodeInfo {
    /// The information is that of e-node `e` of class `v`.
    pub open spec fn tells(&self, graph: &ClassGraph, v: int, e: int) -> bool {
        &&& self.func@ == graph.funcs@[graph.enodes@[e].func as int].term_name@
        &&& self.ch_eq@ == graph.children(e)
        &&& self.scc == graph.scc_of@[v]
    }
}

/// There is no class of this index.
#[derive(Clone, Copy, Debug, PartialEq, Eq, Structural)]
pub struct ClassIndexError {
    pub class: usize,
}

impl CutIterator {
    /// Statistics of the enumeration.
    pub fn stats(&self) -> (s: &CutStats)
        ensures
            *s == self.result.stats,
    {
        &self.result.stats
    }

    /// Number of classes.
    pub fn num_classes(&self) -> (n: usize)
        ensures
            n == self.graph.size(),
    {
        self.graph.classes.len()
    }

    /// The class of a value.
    pub fn class_of(&self, eg: &EGraph, value: u32, sort: &str) -> (r: Result<u32, LookupError>)
        ensures
            r == class_lookup(*eg, sort@, self.graph.class_index@, value),
    {
        find_class(eg, sort, &self.graph.class_index, value)
    }

    /// The cuts of class `class`, its trivial one first.
    pub fn cuts_of_class(&self, class: usize) -> (r: Result<Vec<CutInfo>, ClassIndexError>)
        requires
            self.wf(),
        ensures
            if class < self.graph.size() {
                r matches Ok(list) && tells_cuts(
                    list@,
                    &self.graph,
                    self.sweep().cuts[class as int],
                )
            } else {
                r == Err::<Vec<CutInfo>, ClassIndexError>(ClassIndexError { class })
            },
    {
        let ghost st = self.sweep();
        if class >= self.result.cuts.len() {
            return Err(ClassIndexError { class });
        }
        let cuts: &Vec<Cut> = &self.result.cuts[class];
        assert(st.cuts[class as int] == cut_seq(cuts@));
        let mut list: Vec<CutInfo> = Vec::new();
        while list.len() < cuts.len()
            invariant
                list@.len() <= cuts@.len(),
                self.wf(),
                st == self.sweep(),
                class < self.graph.size(),
                st.cuts[class as int] == cut_seq(cuts@),
                forall|i: int|
                    0 <= i < list@.len() ==> (#[trigger] list@[i]).tells(
                        &self.graph,
                        st.cuts[class as int][i],
                    ),
            decreases cuts@.len() - list@.len(),
        {
            let i: usize = list.len();
            let c: &Cut = &cuts[i];
            proof {
                assert(st.cuts[class as int][i as int] == c@);
                lemma_realized_in_range(self, class as int, i as int);
            }
            let (enode, child_cuts): (Option<String>, Option<Vec<u32>>) = match &c.realization {
                None => (None, None),
                Some((ei, cc)) => (
                    Some(self.graph.funcs[self.graph.enodes[*ei].func].term_name.clone()),
                    Some(copy_list(cc)),
                ),
            };
            list.push(
                CutInfo {
                    leaves: copy_list(&c.leaves),
                    tt: c.tt,
                    nnodes: c.nnodes,
                    enode,
                    child_cuts,
                },
            );
        }
        Ok(list)
    }

    /// The cuts of the class of a value, the trivial one first.
    pub fn cuts_of(&self, eg: &EGraph, value: u32, sort: &str) -> (r: Result<
        Vec<CutInfo>,
        LookupError,
    >)
        requires
            self.wf(),
        ensures
            match class_lookup(*eg, sort@, self.graph.class_index@, value) {
                Ok(v) => r matches Ok(list) && tells_cuts(
                    list@,
                    &self.graph,
                    self.sweep().cuts[v as int],
                ),
                Err(e) => r == Err::<Vec<CutInfo>, LookupError>(e),
            },
    {
        let v: u32 = match self.class_of(eg, value, sort) {
            Ok(v) => v,
            Err(e) => {
                return Err(e);
            },
        };
        proof {
            lemma_class_in_range(&self.graph, *eg, sort@, value);
        }
        match self.cuts_of_class(v as usize) {
            Ok(list) => Ok(list),
            Err(_) => Err(LookupError::UnknownValue),
        }
    }

    /// The e-nodes of class `class`.
    pub fn enodes_of_class(&self, class: usize) -> (r: Result<Vec<EnodeInfo>, ClassIndexError>)
        requires
            self.wf(),
        ensures
            if class < self.graph.size() {
                r matches Ok(list) && list@.len() == self.graph.enodes_of@[class as int]@.len()
                    && forall|i: int|
                    0 <= i < list@.len() ==> (#[trigger] list@[i]).tells(
                        &self.graph,
                        class as int,
                        self.graph.enodes_of@[class as int]@[i] as int,
                    )
            } else {
                r == Err::<Vec<EnodeInfo>, ClassIndexError>(ClassIndexError { class })
            },
    {
        if class >= self.graph.enodes_of.len() {
            return Err(ClassIndexError { class });
        }
        let ens: &Vec<usize> = &self.graph.enodes_of[class];
        let mut list: Vec<EnodeInfo> = Vec::new();
        while list.len() < ens.len()
            invariant
                list@.len() <= ens@.len(),
                self.wf(),
                class < self.graph.size(),
                *ens == self.graph.enodes_of@[class as int],
                forall|i: int|
                    0 <= i < list@.len() ==> (#[trigger] list@[i]).tells(
                        &self.graph,
                        class as int,
                        ens@[i] as int,
                    ),
            decreases ens@.len() - list@.len(),
        {
            let i: usize = list.len();
            assert(self.graph.enodes_of@[class as int]@[i as int] < self.graph.enodes@.len());
            let ei: usize = ens[i];
            let e: &Enode = &self.graph.enodes[ei];
            assert(self.graph.enodes@[ei as int].func < self.graph.funcs@.len());
            list.push(
                EnodeInfo {
                    func: self.graph.funcs[e.func].term_name.clone(),
                    ch_eq: copy_list(&e.ch_eq),
                    scc: self.graph.scc_of[class],
                },
            );
        }
        Ok(list)
    }
}

/// A class that is found is one of the graph.
pub(crate) proof fn lemma_class_in_range(
    graph: &ClassGraph,
    eg: EGraph,
    sort: Seq<char>,
    value: u32,
)
    requires
        indexes(graph.class_index@, graph.classes@),
        graph.size() <= u32::MAX,
    ensures
        class_lookup(eg, sort, graph.class_index@, value) matches Ok(v) ==> v < graph.size(),
{
    let c = canonical_of(eg)[(sort, value)];
    if graph.class_index@.dom().contains(c) {
        assert(graph.classes@.contains(c));
        let k = choose|k: int| 0 <= k < graph.classes@.len() && graph.classes@[k] == c;
        assert(graph.class_index@[graph.classes@[k]] == k);
    }
}

/// The realizing e-node of a cut is one of the graph.
proof fn lemma_realized_in_range(it: &CutIterator, v: int, i: int)
    requires
        it.wf(),
        0 <= v < it.graph.size(),
        0 <= i < it.sweep().cuts[v].len(),
    ensures
        it.sweep().cuts[v][i].realization matches Some((e, _)) ==> e < it.graph.enodes@.len()
            && it.graph.enodes@[e as int].func < it.graph.funcs@.len(),
{
    let st = it.sweep();
    assert(list_ok(&it.graph, it.params, it.kernels@, it.cone@, st.cuts, st.rank, v));
    if i > 0 {
        let c = st.cuts[v][i];
        assert(realized(&it.graph, it.kernels@, st.cuts, st.rank, v, c));
        let (e, _) = c.realization->0;
        assert(it.graph.enodes@[e as int].func < it.graph.funcs@.len());
    } else {
        assert(trivial(&it.graph, it.kernels@, v, st.cuts[v][0]));
    }
}

} // verus!
