//! What the results are made of, and why there is none.
use egglog::EGraph;
use vstd::prelude::*;

use crate::class_graph::ClassGraph;
use crate::cost::Cost;
use crate::cut::{cut_lists, CutView};
use crate::cut_iter::{
    cone_of, enumerates, iterates, last_kernel, map_texts, pi_texts, roots_found, zero_heads,
    CutIterator, IterError,
};
use crate::cut_map::{emitted_constants, maps, CutMapper, MapperError};
use crate::dag_extract::{fold_of, prepares, DagExtractor, ExtractorError};
use crate::enumerate::{
    components, considered, enumeration, merges_of, operands, pass, passes, pool_class,
    pool_merges, visit, CutError, CutParams, Pool, Sweep,
};
use crate::extract_alike::lemma_prepared;
use crate::extract_dp::{pricing, solved, texts_of, Dp};
use crate::kernel::{all_kernels, kind_of, Kernel, KernelError, UnsoundClass};
use crate::library::{indexed, CellSpec};
use crate::list_laws::{child_cuts, lemma_volumes};
use crate::mapping;
use crate::mapping::{
    all_refs, bad_roots, choice_views, map_stats_ok, mapped, objective_of, plus_fn, setting,
    share_fn, Mapping, Setting,
};
use crate::snapshot::{builds, BuildError};
use crate::stats::stats_ok;
use crate::tally::count;

verus! {

// ----------------------------------------------------------------------- results

/// An extractor holds the class graph of the e-graph over the vocabulary, and the costs,
/// hashes and choices that solving it gives, with the texts of the e-graph; it remembers no
/// term yet, and has statistics if they were asked for.
pub proof fn extractors_hold_the_solution<
    P: Fn(Cost, Cost) -> Cost,
    W: Fn(Cost) -> Cost,
    N: Fn(u64) -> Cost,
>(
    eg: EGraph,
    sort: Seq<char>,
    heads: Seq<(String, Cost)>,
    fold: Seq<char>,
    plus: P,
    weigh: W,
    noise: N,
    asked: bool,
    x: DagExtractor,
)
    requires
        prepares(
            eg,
            sort,
            heads,
            fold,
            plus,
            weigh,
            noise,
            asked,
            Ok::<DagExtractor, ExtractorError>(x),
        ),
    ensures
        fold == "sum"@ || fold == "max"@,
        builds(eg, sort, heads, Ok::<ClassGraph, BuildError>(x.graph)),
        solved(
            &x.graph,
            pricing(texts_of(eg, x.graph.enodes@), fold == "max"@, plus, weigh, noise),
            x.graph.sccs@.len(),
        ) == Some(Dp { costs: x.costs@, hashes: x.hashes@, best: x.best@ }),
        x.memo@ == Map::<u32, usize>::empty(),
        x.scc_profile is Some <==> asked,
{
    reveal_strlit("sum");
    reveal_strlit("max");
    let fold_max = fold_of(fold)->0;
    let b = lemma_prepared(
        eg,
        sort,
        heads,
        fold_max,
        fold,
        plus,
        weigh,
        noise,
        asked,
        Ok::<DagExtractor, ExtractorError>(x),
    );
    let p = pricing(texts_of(eg, x.graph.enodes@), fold == "max"@, plus, weigh, noise);
    assert("sum"@.len() == 3 && "max"@.len() == 3);
    assert("sum"@[0] != "max"@[0]);
    assert(solved(&x.graph, p, x.graph.sccs@.len())->0 =~= (Dp {
        costs: x.costs@,
        hashes: x.hashes@,
        best: x.best@,
    }));
}

/// An iterator holds the class graph of the e-graph over the vocabulary, the kernels of its
/// constructors, the classes of the roots, their cone, and the cuts of the classes there with
/// their statistics.
pub proof fn iterators_hold_the_cuts(
    eg: EGraph,
    sort: Seq<char>,
    op_map: Seq<(String, String)>,
    roots: Seq<u32>,
    params: CutParams,
    it: CutIterator,
) -> (heads: Seq<(String, Cost)>)
    requires
        enumerates(eg, sort, op_map, roots, params, Ok::<CutIterator, IterError>(it)),
    ensures
        op_map.len() > 0,
        heads.len() == op_map.len(),
        forall|i: int|
            0 <= i < heads.len() ==> (#[trigger] heads[i]).0@ == op_map[i].0@ && heads[i].1
                == Cost::Number(0x8000_0000_0000_0000),
        builds(eg, sort, heads, Ok::<ClassGraph, BuildError>(it.graph)),
        it.params == params,
        all_kernels(it.graph.funcs@, op_map, it.graph.funcs@.len()) == Ok::<
            Seq<Kernel>,
            KernelError,
        >(it.kernels@),
        roots_found(eg, sort, it.graph.class_index@, roots, roots.len()) == Ok::<Seq<u32>, usize>(
            it.root_ids@,
        ),
        it.cone@ == cone_of(&it.graph, it.root_ids@),
        enumeration(&it.graph, params, it.kernels@, it.cone@) matches Ok(st) && cut_lists(
            it.result.cuts@,
        ) == st.cuts && stats_ok(&it.graph, params, it.kernels@, it.cone@, st, it.result.stats),
        map_texts(it.pi_names@) == pi_texts(eg, &it.graph, it.kernels@, it.graph.enodes@.len()),
        last_kernel(it.kernels@, Kernel::Leaf, it.kernels@.len() as int, it.var_func),
        last_kernel(it.kernels@, Kernel::Const(0), it.kernels@.len() as int, it.zero_func),
        last_kernel(it.kernels@, Kernel::Const(1), it.kernels@.len() as int, it.one_func),
{
    let r = Ok::<CutIterator, IterError>(it);
    let (heads, b) = choose|heads: Seq<(String, Cost)>, b: Result<ClassGraph, BuildError>|
        zero_heads(op_map, heads) && #[trigger] builds(eg, sort, heads, b) && match b {
            Err(e) => r matches Err(IterError::Build(x)) && x == e,
            Ok(g) => iterates(eg, g, sort, op_map, roots, params, r),
        };
    heads
}

/// The constructors by which inputs and constants are written are the last ones that stand for
/// them; there is none only where no constructor does.
pub proof fn last_constructors_are_taken(ks: Seq<Kernel>, k: Kernel, f: Option<usize>)
    requires
        last_kernel(ks, k, ks.len() as int, f),
    ensures
        f is Some <==> ks.contains(k),
        f is Some ==> f->0 < ks.len() && ks[f->0 as int] == k,
        f is Some ==> forall|i: int| f->0 < i < ks.len() ==> #[trigger] ks[i] != k,
{
}

/// A mapper holds what the mapping of the iterator's cuts onto the given cells gives, and its
/// statistics; all roots can be emitted.
pub proof fn mappers_hold_the_mapping<S: Fn(Cost, u32) -> Cost, P: Fn(Cost, Cost) -> Cost>(
    it: &CutIterator,
    cells: Seq<CellSpec>,
    objective: Seq<char>,
    share: S,
    plus: P,
    cm: CutMapper,
) -> (m: Mapping)
    requires
        maps(it, cells, objective, share, plus, Ok::<CutMapper, MapperError>(cm)),
    ensures
        objective == "delay"@ || objective == "area"@,
        ({
            let s = setting(
                &it.graph,
                it.kernels@,
                it.cone@,
                it.sweep().cuts,
                cells,
                objective == "delay"@,
                share,
                plus,
            );
            &&& mapped(s, it.graph.sccs@.len()) == Ok::<Mapping, UnsoundClass>(m)
            &&& choice_views(cm.choices@) == m.choices
            &&& cm.emit_ok@ == m.emit
            &&& cm.cells@ == cells
            &&& cm.cone@ == it.cone@
            &&& map_stats_ok(s, m, it.root_ids@, cm.stats)
            &&& cm.const_classes@ == emitted_constants(
                &it.graph,
                it.kernels@,
                m,
                it.graph.size(),
            )
            &&& map_texts(cm.pi_names@) == map_texts(it.pi_names@)
            &&& forall|i: int|
                0 <= i < it.root_ids@.len() ==> m.emit[#[trigger] it.root_ids@[i] as int]
        }),
{
    reveal_strlit("delay");
    reveal_strlit("area");
    assert("delay"@.len() == 5 && "area"@.len() == 4);
    let s = setting(
        &it.graph,
        it.kernels@,
        it.cone@,
        it.sweep().cuts,
        cells,
        objective_of(objective)->0,
        share,
        plus,
    );
    let m = mapped(s, it.graph.sccs@.len())->Ok_0;
    let n = it.root_ids@.len();
    let bad = bad_roots(m.emit, it.root_ids@);
    assert forall|i: int| 0 <= i < n implies m.emit[#[trigger] it.root_ids@[i] as int] by {
        if !m.emit[it.root_ids@[i] as int] {
            assert(bad(i));
            lemma_some_counted(n, bad, i);
        }
    }
    m
}

proof fn lemma_some_counted(n: nat, p: spec_fn(int) -> bool, i: int)
    requires
        0 <= i < n,
        p(i),
    ensures
        count(n, p) > 0,
    decreases n,
{
    if i < n - 1 {
        lemma_some_counted((n - 1) as nat, p, i);
    }
}

/// The setting of a mapping has the index over all cells, the references of the cone, and the
/// caller's functions.
pub proof fn settings_are_as_given<S: Fn(Cost, u32) -> Cost, P: Fn(Cost, Cost) -> Cost>(
    graph: &ClassGraph,
    kernels: Seq<Kernel>,
    cone: Seq<bool>,
    cuts: Seq<Seq<CutView>>,
    cells: Seq<CellSpec>,
    delay_first: bool,
    share: S,
    plus: P,
)
    ensures
        ({
            let s = setting(graph, kernels, cone, cuts, cells, delay_first, share, plus);
            &&& s.graph == *graph
            &&& s.kernels == kernels
            &&& s.cone == cone
            &&& s.cuts == cuts
            &&& s.cells == cells
            &&& s.index == indexed(cells, cells.len())
            &&& s.refs == all_refs(graph, cone)
            &&& s.delay_first == delay_first
            &&& s.share == share_fn(share)
            &&& s.plus == plus_fn(plus)
        }),
{
}

// ---------------------------------------------------------------------- failures

/// The state before the visit of member `n` in pass `j` over component `si`, if it is reached.
pub open spec fn state_at(
    graph: &ClassGraph,
    params: CutParams,
    kernels: Seq<Kernel>,
    cone: Seq<bool>,
    si: int,
    j: nat,
    n: nat,
) -> Option<Sweep>
    decreases j, n,
{
    if n > 0 {
        match state_at(graph, params, kernels, cone, si, j, (n - 1) as nat) {
            None => None,
            Some(st) => match visit(
                graph,
                params,
                kernels,
                cone,
                si,
                st,
                graph.sccs@[si]@[n - 1],
            ) {
                Ok((next, _)) => Some(next),
                Err(_) => None,
            },
        }
    } else if j > 0 {
        state_at(
            graph,
            params,
            kernels,
            cone,
            si,
            (j - 1) as nat,
            graph.sccs@[si]@.len(),
        )
    } else {
        match components(graph, params, kernels, cone, si as nat) {
            Ok(st) => Some(st),
            Err(_) => None,
        }
    }
}

/// The visit of member `n` in pass `j` over component `si` fails with the error.
pub open spec fn fails_at(
    graph: &ClassGraph,
    params: CutParams,
    kernels: Seq<Kernel>,
    cone: Seq<bool>,
    si: int,
    j: nat,
    n: int,
    e: CutError,
) -> bool {
    &&& 0 <= si < graph.sccs@.len()
    &&& 0 <= n < graph.sccs@[si]@.len()
    &&& state_at(graph, params, kernels, cone, si, j, n as nat) matches Some(st) && visit(
        graph,
        params,
        kernels,
        cone,
        si,
        st,
        graph.sccs@[si]@[n],
    ) == Err::<(Sweep, bool), CutError>(e)
}

proof fn lemma_pass_fails(
    graph: &ClassGraph,
    params: CutParams,
    kernels: Seq<Kernel>,
    cone: Seq<bool>,
    si: int,
    j: nat,
    st: Sweep,
    n: nat,
)
    requires
        0 <= si < graph.sccs@.len(),
        state_at(graph, params, kernels, cone, si, j, 0) == Some(st),
        n <= graph.sccs@[si]@.len(),
    ensures
        match pass(graph, params, kernels, cone, si, st, n) {
            Ok((next, _)) => state_at(graph, params, kernels, cone, si, j, n) == Some(next),
            Err(e) => exists|m: int| #[trigger]
                fails_at(graph, params, kernels, cone, si, j, m, e),
        },
    decreases n,
{
    if n > 0 {
        lemma_pass_fails(graph, params, kernels, cone, si, j, st, (n - 1) as nat);
        if let Ok((mid, _)) = pass(graph, params, kernels, cone, si, st, (n - 1) as nat) {
            if let Err(e) = visit(
                graph,
                params,
                kernels,
                cone,
                si,
                mid,
                graph.sccs@[si]@[n - 1],
            ) {
                assert(fails_at(graph, params, kernels, cone, si, j, n - 1, e));
            }
        }
    }
}

proof fn lemma_passes_fail(
    graph: &ClassGraph,
    params: CutParams,
    kernels: Seq<Kernel>,
    cone: Seq<bool>,
    si: int,
    j: nat,
    st: Sweep,
    fuel: nat,
)
    requires
        0 <= si < graph.sccs@.len(),
        state_at(graph, params, kernels, cone, si, j, 0) == Some(st),
    ensures
        passes(graph, params, kernels, cone, si, st, fuel) matches Err(e) ==> exists|
            i: nat,
            m: int,
        | #[trigger] fails_at(graph, params, kernels, cone, si, i, m, e),
    decreases fuel,
{
    if fuel > 0 {
        let n = graph.sccs@[si]@.len();
        lemma_pass_fails(graph, params, kernels, cone, si, j, st, n);
        match pass(graph, params, kernels, cone, si, st, n) {
            Err(e) => {
                let m = choose|m: int| #[trigger]
                    fails_at(graph, params, kernels, cone, si, j, m, e);
                assert(fails_at(graph, params, kernels, cone, si, j, m, e));
            },
            Ok((next, progress)) => {
                if progress {
                    lemma_passes_fail(
                        graph,
                        params,
                        kernels,
                        cone,
                        si,
                        j + 1,
                        next,
                        (fuel - 1) as nat,
                    );
                }
            },
        }
    }
}

proof fn lemma_components_fail(
    graph: &ClassGraph,
    params: CutParams,
    kernels: Seq<Kernel>,
    cone: Seq<bool>,
    n: nat,
)
    requires
        n <= graph.sccs@.len(),
    ensures
        components(graph, params, kernels, cone, n) matches Err(e) ==> exists|
            si: int,
            j: nat,
            m: int,
        | #[trigger] fails_at(graph, params, kernels, cone, si, j, m, e),
    decreases n,
{
    if n > 0 {
        lemma_components_fail(graph, params, kernels, cone, (n - 1) as nat);
        if let Ok(st) = components(graph, params, kernels, cone, (n - 1) as nat) {
            let si = n - 1;
            assert(state_at(graph, params, kernels, cone, si, 0, 0) == Some(st));
            lemma_passes_fail(
                graph,
                params,
                kernels,
                cone,
                si,
                0,
                st,
                graph.sccs@[si]@.len() + 1,
            );
            if let Err(e) = components(graph, params, kernels, cone, n) {
                let (i, m) = choose|i: nat, m: int| #[trigger]
                    fails_at(graph, params, kernels, cone, si, i, m, e);
                assert(fails_at(graph, params, kernels, cone, si, i, m, e));
            }
        }
    }
}

/// Some merge of an e-node of class `v` has a cone of more than 65535 e-nodes.
pub open spec fn has_large_cone(
    graph: &ClassGraph,
    params: CutParams,
    cuts: Seq<Seq<CutView>>,
    v: int,
) -> bool {
    exists|i: int, q: int|
        0 <= i < graph.enodes_of@[v]@.len() && 0 <= q < merges_of(
            graph,
            cuts,
            params.k as nat,
            graph.enodes_of@[v]@[i] as int,
        ).len() && #[trigger] cone_size(
            graph,
            cuts,
            graph.enodes_of@[v]@[i] as int,
            merges_of(graph, cuts, params.k as nat, graph.enodes_of@[v]@[i] as int)[q].1,
        ) > 65535
}

/// One e-node more than the cones of the cuts taken of the children of e-node `e`.
pub open spec fn cone_size(
    graph: &ClassGraph,
    cuts: Seq<Seq<CutView>>,
    e: int,
    chosen: Seq<u32>,
) -> int {
    child_cuts(graph, cuts, e, chosen).map_values(|k: CutView| k.nnodes as int).fold_left(
        1int,
        |s: int, k: int| s + k,
    )
}

proof fn lemma_merges_large(
    graph: &ClassGraph,
    kernels: Seq<Kernel>,
    cuts: Seq<Seq<CutView>>,
    e: int,
    ms: Seq<(Seq<u32>, Seq<u32>)>,
    n: nat,
    pool: Pool,
)
    requires
        n <= ms.len(),
    ensures
        pool_merges(graph, kernels, cuts, e, ms, n, pool) is None ==> exists|q: int|
            0 <= q < n && cone_size(graph, cuts, e, (#[trigger] ms[q]).1) > 65535,
    decreases n,
{
    if n > 0 && pool_merges(graph, kernels, cuts, e, ms, n, pool) is None {
        lemma_merges_large(graph, kernels, cuts, e, ms, (n - 1) as nat, pool);
        if pool_merges(graph, kernels, cuts, e, ms, (n - 1) as nat, pool) is Some {
            let chosen = ms[n - 1].1;
            let kids = child_cuts(graph, cuts, e, chosen);
            assert(kids =~= operands(graph, cuts, e, chosen));
            lemma_volumes(kids, kids.map_values(|k: CutView| k.nnodes as int));
            assert(cone_size(graph, cuts, e, ms[n - 1].1) > 65535);
        } else {
            let q = choose|q: int|
                0 <= q < n - 1 && cone_size(graph, cuts, e, (#[trigger] ms[q]).1) > 65535;
            assert(cone_size(graph, cuts, e, ms[q].1) > 65535);
        }
    }
}

proof fn lemma_pool_large(
    graph: &ClassGraph,
    params: CutParams,
    kernels: Seq<Kernel>,
    cuts: Seq<Seq<CutView>>,
    done: Seq<bool>,
    si: int,
    v: int,
    n: nat,
)
    requires
        n <= considered(graph, params, v).len(),
    ensures
        pool_class(graph, params, kernels, cuts, done, si, v, n) is None ==> has_large_cone(
            graph,
            params,
            cuts,
            v,
        ),
    decreases n,
{
    if n > 0 && pool_class(graph, params, kernels, cuts, done, si, v, n) is None {
        lemma_pool_large(graph, params, kernels, cuts, done, si, v, (n - 1) as nat);
        if let Some(p) = pool_class(
            graph,
            params,
            kernels,
            cuts,
            done,
            si,
            v,
            (n - 1) as nat,
        ) {
            let e = considered(graph, params, v)[n - 1] as int;
            assert(e == graph.enodes_of@[v]@[n - 1]);
            let ms = merges_of(graph, cuts, params.k as nat, e);
            lemma_merges_large(graph, kernels, cuts, e, ms, ms.len(), p);
            let q = choose|q: int|
                0 <= q < ms.len() && cone_size(graph, cuts, e, (#[trigger] ms[q]).1) > 65535;
            assert(cone_size(
                graph,
                cuts,
                graph.enodes_of@[v]@[n - 1] as int,
                merges_of(graph, cuts, params.k as nat, graph.enodes_of@[v]@[n - 1] as int)[q].1,
            ) > 65535);
        }
    }
}

/// An enumeration fails only where the leaf bound is not between two and six, where a class of
/// the cone holds two constants, or where a cone is larger than 16 bits can tell, of a class of
/// the cone at a state that the enumeration comes to.
pub proof fn enumerations_fail_for_a_reason(
    graph: &ClassGraph,
    params: CutParams,
    kernels: Seq<Kernel>,
    cone: Seq<bool>,
    e: CutError,
)
    requires
        graph.wf(),
        enumeration(graph, params, kernels, cone) == Err::<Sweep, CutError>(e),
    ensures
        match e {
            CutError::LeafBound(k) => k == params.k && !(2 <= k <= 6),
            CutError::Unsound(u) => 2 <= params.k <= 6 && u.class < graph.size()
                && cone[u.class as int] && kind_of(graph, kernels, u.class as int) is None,
            CutError::Volume(v) => 2 <= params.k <= 6 && v < graph.size() && cone[v as int]
                && exists|si: int, j: nat, n: nat|
                #[trigger] state_at(graph, params, kernels, cone, si, j, n) matches Some(st)
                    && has_large_cone(graph, params, st.cuts, v as int),
        },
{
    if 2 <= params.k <= 6 {
        lemma_components_fail(graph, params, kernels, cone, graph.sccs@.len());
        let (si, j, m) = choose|si: int, j: nat, m: int| #[trigger]
            fails_at(graph, params, kernels, cone, si, j, m, e);
        let st = state_at(graph, params, kernels, cone, si, j, m as nat)->0;
        let v = graph.sccs@[si]@[m];
        assert(v < graph.size());
        if let CutError::Volume(_) = e {
            lemma_pool_large(
                graph,
                params,
                kernels,
                st.cuts,
                st.done,
                si,
                v as int,
                considered(graph, params, v as int).len(),
            );
            assert(state_at(graph, params, kernels, cone, si, j, m as nat) matches Some(s)
                && has_large_cone(graph, params, s.cuts, v as int));
        }
    }
}

proof fn lemma_map_pass_fails(s: Setting, si: int, m: Mapping, n: nat)
    requires
        s.graph.wf(),
        0 <= si < s.graph.sccs@.len(),
        n <= s.graph.sccs@[si]@.len(),
    ensures
        mapping::pass(s, si, m, n) matches Err(e) ==> e.class < s.graph.size()
            && s.cone[e.class as int] && kind_of(&s.graph, s.kernels, e.class as int) is None,
    decreases n,
{
    if n > 0 {
        lemma_map_pass_fails(s, si, m, (n - 1) as nat);
        assert(s.graph.sccs@[si]@[n - 1] < s.graph.size());
    }
}

proof fn lemma_map_passes_fail(s: Setting, si: int, m: Mapping, fuel: nat)
    requires
        s.graph.wf(),
        0 <= si < s.graph.sccs@.len(),
    ensures
        mapping::passes(s, si, m, fuel) matches Err(e) ==> e.class < s.graph.size()
            && s.cone[e.class as int] && kind_of(&s.graph, s.kernels, e.class as int) is None,
    decreases fuel,
{
    if fuel > 0 {
        let n = s.graph.sccs@[si]@.len();
        lemma_map_pass_fails(s, si, m, n);
        if let Ok((next, _)) = mapping::pass(s, si, m, n) {
            lemma_map_passes_fail(s, si, next, (fuel - 1) as nat);
        }
    }
}

/// A mapping fails only where a class of the cone holds two constants, which is told.
pub proof fn mappings_fail_for_a_reason(s: Setting, n: nat)
    requires
        s.graph.wf(),
        n <= s.graph.sccs@.len(),
    ensures
        mapped(s, n) matches Err(e) ==> e.class < s.graph.size() && s.cone[e.class as int]
            && kind_of(&s.graph, s.kernels, e.class as int) is None,
    decreases n,
{
    if n > 0 {
        mappings_fail_for_a_reason(s, (n - 1) as nat);
        if let Ok(m) = mapped(s, (n - 1) as nat) {
            lemma_map_passes_fail(s, n - 1, m, s.graph.sccs@[n - 1]@.len() + 1);
        }
    }
}

} // verus!
