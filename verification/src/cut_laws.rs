//! What holds of the cut lists, whatever the graph.
use vstd::prelude::*;

use crate::class_graph::ClassGraph;
use crate::cut::{const_cut, self_cut, CutView};
use crate::enumerate::{
    candidate, components, considered, enumerable, enumeration, first_with, gate_of, inserted,
    lemma_components_ok, list_ok, mergeable, merges_of, pass, passes, pool_class, pool_merges,
    ranked, ranks_before, settle, start, survivors, undominated, visit, CutError, CutParams, Pool,
    Sweep,
};
use crate::fnv::fnv_words;
use crate::kernel::{kind_of, ClassKind, Kernel};
use crate::leaves::{increasing, subset};
use crate::merge::least;

verus! {

// ------------------------------------------------------------------- induction

/// The property holds of every list that a class can be given.
spec fn given_lists(params: CutParams, q: spec_fn(Seq<CutView>) -> bool) -> bool {
    &&& q(Seq::empty())
    &&& forall|c: CutView| #[trigger] q(seq![c])
    &&& forall|c: CutView, cands: Seq<CutView>| #[trigger]
        q(seq![c] + survivors(cands, params))
}

spec fn all_lists(graph: &ClassGraph, st: Sweep, q: spec_fn(Seq<CutView>) -> bool) -> bool {
    st.cuts.len() == graph.size() && forall|v: int|
        0 <= v < st.cuts.len() ==> q(#[trigger] st.cuts[v])
}

proof fn lemma_visit_lists(
    graph: &ClassGraph,
    params: CutParams,
    kernels: Seq<Kernel>,
    cone: Seq<bool>,
    si: int,
    st: Sweep,
    v: u32,
    q: spec_fn(Seq<CutView>) -> bool,
)
    requires
        given_lists(params, q),
        all_lists(graph, st, q),
        v < graph.size(),
    ensures
        visit(graph, params, kernels, cone, si, st, v) matches Ok((next, _)) ==> all_lists(
            graph,
            next,
            q,
        ),
{
    if let Ok((next, _)) = visit(graph, params, kernels, cone, si, st, v) {
        assert forall|w: int| 0 <= w < next.cuts.len() implies q(#[trigger] next.cuts[w]) by {
            assert(q(st.cuts[w]));
            if w == v && next.cuts[w] != st.cuts[w] {
                match kind_of(graph, kernels, v as int) {
                    Some(ClassKind::Internal) => {
                        let p = pool_class(
                            graph,
                            params,
                            kernels,
                            st.cuts,
                            st.done,
                            si,
                            v as int,
                            considered(graph, params, v as int).len(),
                        )->0;
                        assert(next.cuts[w] == seq![self_cut(v)] + survivors(p.cands, params));
                        assert(q(seq![self_cut(v)] + survivors(p.cands, params)));
                    },
                    Some(ClassKind::Const(c)) => {
                        assert(q(seq![const_cut(c)]));
                    },
                    _ => {
                        assert(q(seq![self_cut(v)]));
                    },
                }
            }
        }
    }
}

proof fn lemma_pass_lists(
    graph: &ClassGraph,
    params: CutParams,
    kernels: Seq<Kernel>,
    cone: Seq<bool>,
    si: int,
    st: Sweep,
    n: nat,
    q: spec_fn(Seq<CutView>) -> bool,
)
    requires
        graph.wf(),
        given_lists(params, q),
        all_lists(graph, st, q),
        0 <= si < graph.sccs@.len(),
        n <= graph.sccs@[si]@.len(),
    ensures
        pass(graph, params, kernels, cone, si, st, n) matches Ok((next, _)) ==> all_lists(
            graph,
            next,
            q,
        ),
    decreases n,
{
    if n > 0 {
        lemma_pass_lists(graph, params, kernels, cone, si, st, (n - 1) as nat, q);
        if let Ok((mid, _)) = pass(graph, params, kernels, cone, si, st, (n - 1) as nat) {
            assert(graph.sccs@[si]@[n - 1] < graph.size());
            lemma_visit_lists(
                graph,
                params,
                kernels,
                cone,
                si,
                mid,
                graph.sccs@[si]@[n - 1],
                q,
            );
        }
    }
}

proof fn lemma_passes_lists(
    graph: &ClassGraph,
    params: CutParams,
    kernels: Seq<Kernel>,
    cone: Seq<bool>,
    si: int,
    st: Sweep,
    fuel: nat,
    q: spec_fn(Seq<CutView>) -> bool,
)
    requires
        graph.wf(),
        given_lists(params, q),
        all_lists(graph, st, q),
        0 <= si < graph.sccs@.len(),
    ensures
        passes(graph, params, kernels, cone, si, st, fuel) matches Ok(next) ==> all_lists(
            graph,
            next,
            q,
        ),
    decreases fuel,
{
    if fuel > 0 {
        let n = graph.sccs@[si]@.len();
        lemma_pass_lists(graph, params, kernels, cone, si, st, n, q);
        if let Ok((next, progress)) = pass(graph, params, kernels, cone, si, st, n) {
            if progress {
                lemma_passes_lists(
                    graph,
                    params,
                    kernels,
                    cone,
                    si,
                    next,
                    (fuel - 1) as nat,
                    q,
                );
            }
        }
    }
}

proof fn lemma_settle_lists(
    graph: &ClassGraph,
    params: CutParams,
    cone: Seq<bool>,
    si: int,
    st: Sweep,
    n: nat,
    q: spec_fn(Seq<CutView>) -> bool,
)
    requires
        graph.wf(),
        given_lists(params, q),
        all_lists(graph, st, q),
        0 <= si < graph.sccs@.len(),
        n <= graph.sccs@[si]@.len(),
    ensures
        all_lists(graph, settle(graph, cone, si, st, n), q),
    decreases n,
{
    if n > 0 {
        lemma_settle_lists(graph, params, cone, si, st, (n - 1) as nat, q);
        let mid = settle(graph, cone, si, st, (n - 1) as nat);
        let next = settle(graph, cone, si, st, n);
        let v = graph.sccs@[si]@[n - 1];
        assert(v < graph.size());
        assert forall|w: int| 0 <= w < next.cuts.len() implies q(#[trigger] next.cuts[w]) by {
            assert(q(mid.cuts[w]));
            assert(q(seq![self_cut(v)]));
        }
    }
}

proof fn lemma_components_lists(
    graph: &ClassGraph,
    params: CutParams,
    kernels: Seq<Kernel>,
    cone: Seq<bool>,
    n: nat,
    q: spec_fn(Seq<CutView>) -> bool,
)
    requires
        graph.wf(),
        given_lists(params, q),
        n <= graph.sccs@.len(),
    ensures
        components(graph, params, kernels, cone, n) matches Ok(st) ==> all_lists(graph, st, q),
    decreases n,
{
    if n == 0 {
        let st = start(graph);
        assert forall|w: int| 0 <= w < st.cuts.len() implies q(#[trigger] st.cuts[w]) by {
            assert(st.cuts[w] =~= Seq::empty());
        }
    } else {
        lemma_components_lists(graph, params, kernels, cone, (n - 1) as nat, q);
        if let Ok(st) = components(graph, params, kernels, cone, (n - 1) as nat) {
            let len = graph.sccs@[n - 1]@.len();
            lemma_passes_lists(graph, params, kernels, cone, n - 1, st, len + 1, q);
            if let Ok(mid) = passes(graph, params, kernels, cone, n - 1, st, len + 1) {
                lemma_settle_lists(graph, params, cone, n - 1, mid, len, q);
            }
        }
    }
}

// --------------------------------------------------------------------- ranking

/// No cut ranks before an earlier one.
pub open spec fn sorted(s: Seq<CutView>) -> bool {
    forall|i: int, j: int|
        0 <= i < j < s.len() ==> !ranks_before(#[trigger] s[j], #[trigger] s[i])
}

proof fn lemma_inserted_sorted(s: Seq<CutView>, c: CutView)
    requires
        sorted(s),
    ensures
        sorted(inserted(s, c)),
        forall|i: int|
            0 <= i < inserted(s, c).len() ==> (#[trigger] inserted(s, c)[i]) == c || s.contains(
                inserted(s, c)[i],
            ),
    decreases s.len(),
{
    let r = inserted(s, c);
    if s.len() == 0 || !ranks_before(c, s.last()) {
        assert forall|i: int| 0 <= i < r.len() implies (#[trigger] r[i]) == c || s.contains(
            r[i],
        ) by {
            if i < s.len() {
                assert(s[i] == r[i]);
            }
        }
        assert forall|i: int, j: int| 0 <= i < j < r.len() implies !ranks_before(
            #[trigger] r[j],
            #[trigger] r[i],
        ) by {
            if j < s.len() {
                assert(r[j] == s[j] && r[i] == s[i]);
            } else {
                assert(r[i] == s[i]);
                if i < s.len() - 1 {
                    assert(!ranks_before(s[s.len() - 1], s[i]));
                }
            }
        }
    } else {
        let t = s.drop_last();
        assert forall|i: int, j: int| 0 <= i < j < t.len() implies !ranks_before(
            #[trigger] t[j],
            #[trigger] t[i],
        ) by {
            assert(t[i] == s[i] && t[j] == s[j]);
        }
        lemma_inserted_sorted(t, c);
        let x = inserted(t, c);
        assert forall|i: int| 0 <= i < r.len() implies (#[trigger] r[i]) == c || s.contains(
            r[i],
        ) by {
            if i < x.len() {
                assert(r[i] == x[i]);
                if x[i] != c {
                    let k = choose|k: int| 0 <= k < t.len() && t[k] == x[i];
                    assert(s[k] == r[i]);
                }
            } else {
                assert(r[i] == s[s.len() - 1]);
            }
        }
        assert forall|i: int, j: int| 0 <= i < j < r.len() implies !ranks_before(
            #[trigger] r[j],
            #[trigger] r[i],
        ) by {
            if j < x.len() {
                assert(r[i] == x[i] && r[j] == x[j]);
            } else {
                assert(r[j] == s.last() && r[i] == x[i]);
                if x[i] != c {
                    let k = choose|k: int| 0 <= k < t.len() && t[k] == x[i];
                    assert(!ranks_before(s[s.len() - 1], s[k]));
                }
            }
        }
    }
}

/// Ranking sorts.
pub(crate) proof fn lemma_ranked_sorted(s: Seq<CutView>)
    ensures
        sorted(ranked(s)),
    decreases s.len(),
{
    if s.len() > 0 {
        lemma_ranked_sorted(s.drop_last());
        lemma_inserted_sorted(ranked(s.drop_last()), s.last());
    }
}

/// Dropping dominated cuts keeps the order.
pub(crate) proof fn lemma_undominated_sorted(s: Seq<CutView>)
    requires
        sorted(s),
    ensures
        sorted(undominated(s)),
        forall|i: int|
            0 <= i < undominated(s).len() ==> s.contains(#[trigger] undominated(s)[i]),
    decreases s.len(),
{
    if s.len() > 0 {
        let t = s.drop_last();
        assert forall|i: int, j: int| 0 <= i < j < t.len() implies !ranks_before(
            #[trigger] t[j],
            #[trigger] t[i],
        ) by {
            assert(t[i] == s[i] && t[j] == s[j]);
        }
        lemma_undominated_sorted(t);
        let kept = undominated(t);
        let u = undominated(s);
        assert forall|i: int| 0 <= i < u.len() implies s.contains(#[trigger] u[i]) by {
            if i < kept.len() {
                assert(u[i] == kept[i]);
                let k = choose|k: int| 0 <= k < t.len() && t[k] == kept[i];
                assert(s[k] == u[i]);
            } else {
                assert(u[i] == s[s.len() - 1]);
            }
        }
        assert forall|i: int, j: int| 0 <= i < j < u.len() implies !ranks_before(
            #[trigger] u[j],
            #[trigger] u[i],
        ) by {
            assert(u[i] == kept[i]);
            if j < kept.len() {
                assert(u[j] == kept[j]);
            } else {
                let k = choose|k: int| 0 <= k < t.len() && t[k] == kept[i];
                assert(!ranks_before(s[s.len() - 1], s[k]));
            }
        }
    }
}

proof fn lemma_survivors_sorted(cands: Seq<CutView>, params: CutParams)
    ensures
        sorted(survivors(cands, params)),
{
    let r = ranked(cands);
    lemma_ranked_sorted(cands);
    let t = r.take(least(params.cand_cap as nat, r.len()) as int);
    assert forall|i: int, j: int| 0 <= i < j < t.len() implies !ranks_before(
        #[trigger] t[j],
        #[trigger] t[i],
    ) by {
        assert(t[i] == r[i] && t[j] == r[j]);
    }
    lemma_undominated_sorted(t);
    let u = undominated(t);
    let s = survivors(cands, params);
    assert forall|i: int, j: int| 0 <= i < j < s.len() implies !ranks_before(
        #[trigger] s[j],
        #[trigger] s[i],
    ) by {
        assert(s[i] == u[i] && s[j] == u[j]);
    }
}

proof fn lemma_ranked_known(s: Seq<CutView>)
    ensures
        forall|i: int| 0 <= i < ranked(s).len() ==> s.contains(#[trigger] ranked(s)[i]),
    decreases s.len(),
{
    if s.len() > 0 {
        let t = s.drop_last();
        lemma_ranked_known(t);
        lemma_ranked_sorted(t);
        lemma_inserted_sorted(ranked(t), s.last());
        let r = ranked(s);
        assert forall|i: int| 0 <= i < r.len() implies s.contains(#[trigger] r[i]) by {
            if r[i] == s.last() {
                assert(s[s.len() - 1] == r[i]);
            } else {
                assert(ranked(t).contains(r[i]));
                let k = choose|k: int| 0 <= k < ranked(t).len() && ranked(t)[k] == r[i];
                assert(t.contains(ranked(t)[k]));
                let j = choose|j: int| 0 <= j < t.len() && t[j] == r[i];
                assert(s[j] == r[i]);
            }
        }
    }
}

/// The survivors are among the candidates.
pub(crate) proof fn lemma_survivors_known(cands: Seq<CutView>, params: CutParams)
    ensures
        forall|i: int|
            0 <= i < survivors(cands, params).len() ==> cands.contains(
                #[trigger] survivors(cands, params)[i],
            ),
{
    let r = ranked(cands);
    lemma_ranked_known(cands);
    lemma_ranked_sorted(cands);
    let t = r.take(least(params.cand_cap as nat, r.len()) as int);
    assert forall|i: int, j: int| 0 <= i < j < t.len() implies !ranks_before(
        #[trigger] t[j],
        #[trigger] t[i],
    ) by {
        assert(t[i] == r[i] && t[j] == r[j]);
    }
    lemma_undominated_sorted(t);
    let u = undominated(t);
    let s = survivors(cands, params);
    assert forall|i: int| 0 <= i < s.len() implies cands.contains(#[trigger] s[i]) by {
        assert(s[i] == u[i]);
        assert(t.contains(u[i]));
        let k = choose|k: int| 0 <= k < t.len() && t[k] == u[i];
        assert(r[k] == s[i]);
    }
}

/// The cuts behind the first are sorted.
spec fn sorted_list() -> spec_fn(Seq<CutView>) -> bool {
    |list: Seq<CutView>| list.len() > 0 ==> sorted(list.drop_first())
}

proof fn lemma_lists_sorted(
    graph: &ClassGraph,
    params: CutParams,
    kernels: Seq<Kernel>,
    cone: Seq<bool>,
    st: Sweep,
    v: int,
)
    requires
        enumerable(graph, params, kernels, cone),
        enumeration(graph, params, kernels, cone) == Ok::<Sweep, CutError>(st),
        0 <= v < graph.size(),
    ensures
        st.cuts[v].len() > 0 ==> sorted(st.cuts[v].drop_first()),
{
    let q = sorted_list();
    assert forall|c: CutView| #[trigger] q(seq![c]) by {}
    assert forall|c: CutView, cands: Seq<CutView>| #[trigger]
        q(seq![c] + survivors(cands, params)) by {
        lemma_survivors_sorted(cands, params);
        assert((seq![c] + survivors(cands, params)).drop_first() =~= survivors(cands, params));
    }
    lemma_components_lists(graph, params, kernels, cone, graph.sccs@.len(), q);
    assert(q(st.cuts[v]));
}

/// Besides its trivial cut, a class lists its cuts from few leaves to many, those of as many
/// leaves from a small cone to a large one, and then by the hash of the leaves. No listed cut
/// has all its leaves among those of another one.
pub proof fn lists_are_ranked_and_minimal(
    graph: &ClassGraph,
    params: CutParams,
    kernels: Seq<Kernel>,
    cone: Seq<bool>,
    st: Sweep,
    v: int,
    i: int,
    j: int,
)
    requires
        enumerable(graph, params, kernels, cone),
        enumeration(graph, params, kernels, cone) == Ok::<Sweep, CutError>(st),
        0 <= v < graph.size(),
        1 <= i < st.cuts[v].len(),
        1 <= j < st.cuts[v].len(),
        i != j,
    ensures
        exists|x: u32|
            st.cuts[v][i].leaves.contains(x) && !(#[trigger] st.cuts[v][j].leaves.contains(x)),
        i < j ==> {
            let (a, b) = (st.cuts[v][i], st.cuts[v][j]);
            &&& a.leaves.len() <= b.leaves.len()
            &&& a.leaves.len() == b.leaves.len() ==> a.nnodes <= b.nnodes
            &&& a.leaves.len() == b.leaves.len() && a.nnodes == b.nnodes ==> fnv_words(a.leaves)
                <= fnv_words(b.leaves)
        },
{
    lemma_components_ok(graph, params, kernels, cone, graph.sccs@.len());
    lemma_lists_sorted(graph, params, kernels, cone, st, v);
    assert(list_ok(graph, params, kernels, cone, st.cuts, st.rank, v));
    let list = st.cuts[v];
    let rest = list.drop_first();
    let (p, q) = if i < j {
        (i, j)
    } else {
        (j, i)
    };
    assert(rest[p - 1] == list[p] && rest[q - 1] == list[q]);
    assert(!ranks_before(list[q], list[p]));
    let (a, b) = (list[p], list[q]);
    assert(increasing(a.leaves) && increasing(b.leaves));
    assert(!subset(list[p].leaves, list[q].leaves));
    if subset(b.leaves, a.leaves) {
        lemma_same_size(b.leaves, a.leaves);
    }
    let (s, t) = (list[i].leaves, list[j].leaves);
    assert(!subset(s, t));
    let k = choose|k: int| 0 <= k < s.len() && !t.contains(#[trigger] s[k]);
    assert(s.contains(s[k]));
    assert(st.cuts[v][i].leaves.contains(s[k]) && !st.cuts[v][j].leaves.contains(s[k]));
}

/// A leaf set within another one that is no larger is all of it.
proof fn lemma_same_size(a: Seq<u32>, b: Seq<u32>)
    requires
        increasing(a),
        increasing(b),
        subset(a, b),
        b.len() <= a.len(),
    ensures
        subset(b, a),
{
    a.unique_seq_to_set();
    b.unique_seq_to_set();
    vstd::seq_lib::seq_to_set_is_finite(a);
    vstd::seq_lib::seq_to_set_is_finite(b);
    assert forall|x: u32| #[trigger] a.to_set().contains(x) implies b.to_set().contains(x) by {
        let i = choose|i: int| 0 <= i < a.len() && a[i] == x;
        assert(b.contains(a[i]));
    }
    vstd::set_lib::lemma_len_subset(a.to_set(), b.to_set());
    vstd::set_lib::lemma_subset_equality(a.to_set(), b.to_set());
    assert forall|i: int| 0 <= i < b.len() implies a.contains(#[trigger] b[i]) by {
        assert(b.contains(b[i]));
        assert(b.to_set().contains(b[i]));
        assert(a.to_set().contains(b[i]));
    }
}

// ------------------------------------------------------------------ realizations

/// Cut `c` of class `v` is taken of merge `q` of the class's considered e-node `i`.
pub open spec fn taken_of(
    graph: &ClassGraph,
    params: CutParams,
    kernels: Seq<Kernel>,
    st: Sweep,
    v: int,
    c: CutView,
    i: int,
    q: int,
) -> bool {
    let e = considered(graph, params, v)[i] as int;
    let ms = merges_of(graph, st.cuts, params.k as nat, e);
    &&& 0 <= i < considered(graph, params, v).len()
    &&& gate_of(graph, kernels, e) is Some
    &&& 0 <= q < ms.len()
    &&& c == candidate(graph, kernels, st.cuts, e, ms[q])
}

/// E-node `i` of class `v` can be merged.
pub open spec fn open_at(
    graph: &ClassGraph,
    params: CutParams,
    kernels: Seq<Kernel>,
    st: Sweep,
    si: int,
    v: int,
    i: int,
) -> bool {
    mergeable(graph, kernels, si, st.done, considered(graph, params, v)[i] as int)
}

/// Merge `b` of e-node `a` comes before merge `q` of e-node `i`.
pub open spec fn comes_before(a: int, b: int, i: int, q: int) -> bool {
    a < i || (a == i && b < q)
}

/// Cut `c` is the first one to be taken with its leaves.
#[verifier::opaque]
pub open spec fn first_taken(
    graph: &ClassGraph,
    params: CutParams,
    kernels: Seq<Kernel>,
    st: Sweep,
    si: int,
    v: int,
    c: CutView,
    i: int,
    q: int,
) -> bool {
    &&& taken_of(graph, params, kernels, st, v, c, i, q)
    &&& open_at(graph, params, kernels, st, si, v, i)
    &&& forall|a: int, b: int|
        0 <= a && comes_before(a, b, i, q) && open_at(graph, params, kernels, st, si, v, a) && 0
            <= b < merges_of(
            graph,
            st.cuts,
            params.k as nat,
            considered(graph, params, v)[a] as int,
        ).len() ==> (#[trigger] merges_of(
            graph,
            st.cuts,
            params.k as nat,
            considered(graph, params, v)[a] as int,
        )[b]).0 != c.leaves
}

/// Cut `c` is taken of a merge before merge `m` of e-node `n`, and of no earlier one.
pub open spec fn is_first(
    graph: &ClassGraph,
    params: CutParams,
    kernels: Seq<Kernel>,
    st: Sweep,
    si: int,
    v: int,
    c: CutView,
    n: int,
    m: int,
) -> bool {
    exists|i: int, q: int|
        comes_before(i, q, n, m) && #[trigger] first_taken(
            graph,
            params,
            kernels,
            st,
            si,
            v,
            c,
            i,
            q,
        )
}

/// Some candidate has the leaves.
pub open spec fn holds_leaves(cands: Seq<CutView>, leaves: Seq<u32>) -> bool {
    exists|i: int| 0 <= i < cands.len() && (#[trigger] cands[i]).leaves == leaves
}

/// What the pool holds after the first `m` merges of e-node `n`, all those of the e-nodes
/// before it taken in.
pub open spec fn pool_first(
    graph: &ClassGraph,
    params: CutParams,
    kernels: Seq<Kernel>,
    st: Sweep,
    si: int,
    v: int,
    cands: Seq<CutView>,
    n: int,
    m: int,
) -> bool {
    &&& forall|c: int|
        0 <= c < cands.len() ==> is_first(
            graph,
            params,
            kernels,
            st,
            si,
            v,
            #[trigger] cands[c],
            n,
            m,
        )
    &&& forall|a: int, b: int|
        0 <= a && comes_before(a, b, n, m) && open_at(graph, params, kernels, st, si, v, a) && 0
            <= b < merges_of(
            graph,
            st.cuts,
            params.k as nat,
            considered(graph, params, v)[a] as int,
        ).len() ==> holds_leaves(
            cands,
            (#[trigger] merges_of(
                graph,
                st.cuts,
                params.k as nat,
                considered(graph, params, v)[a] as int,
            )[b]).0,
        )
}

proof fn lemma_offer_first(
    graph: &ClassGraph,
    params: CutParams,
    kernels: Seq<Kernel>,
    st: Sweep,
    si: int,
    v: int,
    pool: Pool,
    n: int,
    m: int,
)
    requires
        0 <= n < considered(graph, params, v).len(),
        open_at(graph, params, kernels, st, si, v, n),
        0 <= m < merges_of(
            graph,
            st.cuts,
            params.k as nat,
            considered(graph, params, v)[n] as int,
        ).len(),
        pool_first(graph, params, kernels, st, si, v, pool.cands, n, m),
    ensures
        ({
            let e = considered(graph, params, v)[n] as int;
            let ms = merges_of(graph, st.cuts, params.k as nat, e);
            pool_first(
                graph,
                params,
                kernels,
                st,
                si,
                v,
                pool.offer(candidate(graph, kernels, st.cuts, e, ms[m])).cands,
                n,
                m + 1,
            )
        }),
{
    let es = considered(graph, params, v);
    let k = params.k as nat;
    let e = es[n] as int;
    let ms = merges_of(graph, st.cuts, k, e);
    let x = candidate(graph, kernels, st.cuts, e, ms[m]);
    let old_cands = pool.cands;
    let cands = pool.offer(x).cands;
    let found = exists|i: int| first_with(old_cands, x.leaves, i);
    if !found {
        assert(!holds_leaves(old_cands, x.leaves)) by {
            if holds_leaves(old_cands, x.leaves) {
                let i = choose|i: int|
                    0 <= i < old_cands.len() && (#[trigger] old_cands[i]).leaves == x.leaves;
                lemma_first_with(old_cands, x.leaves, i);
            }
        }
        assert(first_taken(graph, params, kernels, st, si, v, x, n, m)) by {
            reveal(first_taken);
            assert forall|a: int, b: int|
                0 <= a && comes_before(a, b, n, m) && open_at(
                    graph,
                    params,
                    kernels,
                    st,
                    si,
                    v,
                    a,
                ) && 0 <= b < merges_of(graph, st.cuts, k, es[a] as int).len() implies (
            #[trigger] merges_of(graph, st.cuts, k, es[a] as int)[b]).0 != x.leaves by {
                assert(holds_leaves(old_cands, merges_of(graph, st.cuts, k, es[a] as int)[b].0));
            }
        }
    }
    assert forall|c: int| 0 <= c < cands.len() implies is_first(
        graph,
        params,
        kernels,
        st,
        si,
        v,
        #[trigger] cands[c],
        n,
        m + 1,
    ) by {
        if c < old_cands.len() {
            assert(cands[c] == old_cands[c]);
            assert(is_first(graph, params, kernels, st, si, v, old_cands[c], n, m));
            let (i, q) = choose|i: int, q: int|
                comes_before(i, q, n, m) && #[trigger] first_taken(
                    graph,
                    params,
                    kernels,
                    st,
                    si,
                    v,
                    old_cands[c],
                    i,
                    q,
                );
            assert(comes_before(i, q, n, m + 1));
            assert(first_taken(graph, params, kernels, st, si, v, cands[c], i, q));
        } else {
            assert(cands[c] == x);
            assert(comes_before(n, m, n, m + 1));
            assert(first_taken(graph, params, kernels, st, si, v, cands[c], n, m));
        }
    }
    assert forall|a: int, b: int|
        0 <= a && comes_before(a, b, n, m + 1) && open_at(graph, params, kernels, st, si, v, a)
            && 0 <= b < merges_of(graph, st.cuts, k, es[a] as int).len() implies holds_leaves(
        cands,
        (#[trigger] merges_of(graph, st.cuts, k, es[a] as int)[b]).0,
    ) by {
        if comes_before(a, b, n, m) {
            let l = merges_of(graph, st.cuts, k, es[a] as int)[b].0;
            assert(holds_leaves(old_cands, l));
            let i = choose|i: int| 0 <= i < old_cands.len() && (#[trigger] old_cands[i]).leaves == l;
            assert(cands[i].leaves == l);
        } else {
            assert(a == n && b == m);
            if found {
                let i = choose|i: int| first_with(old_cands, x.leaves, i);
                assert(cands[i].leaves == x.leaves);
            } else {
                assert(cands[old_cands.len() as int].leaves == x.leaves);
            }
        }
    }
}

proof fn lemma_merges_first(
    graph: &ClassGraph,
    params: CutParams,
    kernels: Seq<Kernel>,
    st: Sweep,
    si: int,
    v: int,
    pool: Pool,
    n: int,
    m: nat,
)
    requires
        0 <= n < considered(graph, params, v).len(),
        open_at(graph, params, kernels, st, si, v, n),
        m <= merges_of(
            graph,
            st.cuts,
            params.k as nat,
            considered(graph, params, v)[n] as int,
        ).len(),
        pool_first(graph, params, kernels, st, si, v, pool.cands, n, 0),
    ensures
        ({
            let e = considered(graph, params, v)[n] as int;
            let ms = merges_of(graph, st.cuts, params.k as nat, e);
            pool_merges(graph, kernels, st.cuts, e, ms, m, pool) matches Some(p) ==> pool_first(
                graph,
                params,
                kernels,
                st,
                si,
                v,
                p.cands,
                n,
                m as int,
            )
        }),
    decreases m,
{
    let e = considered(graph, params, v)[n] as int;
    let ms = merges_of(graph, st.cuts, params.k as nat, e);
    if m > 0 {
        lemma_merges_first(graph, params, kernels, st, si, v, pool, n, (m - 1) as nat);
        if let Some(p) = pool_merges(graph, kernels, st.cuts, e, ms, m, pool) {
            let prev = pool_merges(graph, kernels, st.cuts, e, ms, (m - 1) as nat, pool)->0;
            lemma_offer_first(graph, params, kernels, st, si, v, prev, n, m - 1);
        }
    }
}

/// The pool of a class holds first merges.
pub(crate) proof fn lemma_pool_first(
    graph: &ClassGraph,
    params: CutParams,
    kernels: Seq<Kernel>,
    st: Sweep,
    si: int,
    v: int,
    n: nat,
)
    requires
        n <= considered(graph, params, v).len(),
    ensures
        pool_class(graph, params, kernels, st.cuts, st.done, si, v, n) matches Some(p)
            ==> pool_first(graph, params, kernels, st, si, v, p.cands, n as int, 0),
    decreases n,
{
    if n > 0 {
        lemma_pool_first(graph, params, kernels, st, si, v, (n - 1) as nat);
        if let Some(p) = pool_class(graph, params, kernels, st.cuts, st.done, si, v, n) {
            let prev = pool_class(
                graph,
                params,
                kernels,
                st.cuts,
                st.done,
                si,
                v,
                (n - 1) as nat,
            )->0;
            let e = considered(graph, params, v)[n - 1] as int;
            let ms = merges_of(graph, st.cuts, params.k as nat, e);
            if mergeable(graph, kernels, si, st.done, e) {
                lemma_merges_first(graph, params, kernels, st, si, v, prev, n - 1, ms.len());
                lemma_next_enode(
                    graph,
                    params,
                    kernels,
                    st,
                    si,
                    v,
                    p.cands,
                    n - 1,
                    ms.len() as int,
                );
            } else {
                lemma_next_enode(graph, params, kernels, st, si, v, p.cands, n - 1, 0);
            }
        }
    }
}

/// All merges of e-node `n` being taken in, the next e-node starts.
proof fn lemma_next_enode(
    graph: &ClassGraph,
    params: CutParams,
    kernels: Seq<Kernel>,
    st: Sweep,
    si: int,
    v: int,
    cands: Seq<CutView>,
    n: int,
    m: int,
)
    requires
        pool_first(graph, params, kernels, st, si, v, cands, n, m),
        open_at(graph, params, kernels, st, si, v, n) ==> m == merges_of(
            graph,
            st.cuts,
            params.k as nat,
            considered(graph, params, v)[n] as int,
        ).len(),
    ensures
        pool_first(graph, params, kernels, st, si, v, cands, n + 1, 0),
{
    assert forall|c: int| 0 <= c < cands.len() implies is_first(
        graph,
        params,
        kernels,
        st,
        si,
        v,
        #[trigger] cands[c],
        n + 1,
        0,
    ) by {
        assert(is_first(graph, params, kernels, st, si, v, cands[c], n, m));
        let (i, q) = choose|i: int, q: int|
            comes_before(i, q, n, m) && #[trigger] first_taken(
                graph,
                params,
                kernels,
                st,
                si,
                v,
                cands[c],
                i,
                q,
            );
        assert(comes_before(i, q, n + 1, 0));
        assert(first_taken(graph, params, kernels, st, si, v, cands[c], i, q));
    }
    let es = considered(graph, params, v);
    assert forall|a: int, b: int|
        0 <= a && comes_before(a, b, n + 1, 0) && open_at(graph, params, kernels, st, si, v, a)
            && 0 <= b < merges_of(graph, st.cuts, params.k as nat, es[a] as int).len()
            implies holds_leaves(
        cands,
        (#[trigger] merges_of(graph, st.cuts, params.k as nat, es[a] as int)[b]).0,
    ) by {
        assert(comes_before(a, b, n, m));
    }
}

/// Where some candidate has the leaves, there is a first one.
pub(crate) proof fn lemma_first_with(cands: Seq<CutView>, leaves: Seq<u32>, i: int)
    requires
        0 <= i < cands.len(),
        cands[i].leaves == leaves,
    ensures
        exists|q: int| first_with(cands, leaves, q),
    decreases i,
{
    if exists|q: int| 0 <= q < i && (#[trigger] cands[q]).leaves == leaves {
        let q = choose|q: int| 0 <= q < i && (#[trigger] cands[q]).leaves == leaves;
        lemma_first_with(cands, leaves, q);
    } else {
        assert(first_with(cands, leaves, i));
    }
}

} // verus!
