//! What the statistics count, as sets and sums.
use vstd::prelude::*;
use vstd::set_lib::set_int_range;

use crate::class_graph::ClassGraph;
use crate::cost::Cost;
use crate::cut::CutView;
use crate::cut_map::{emitted_constants, selected};
use crate::enumerate::{CutParams, Sweep};
use crate::kernel::{kind_of, ClassKind, Kernel};
use crate::library::MatchIndex;
use crate::map_laws::{later_of, roots_are_taken_in};
use crate::mapping::{
    all_refs, child_refs, class_refs, enode_refs, map_stats_ok, mapped_classes, unmatched_classes,
    MapStats, Mapping, Setting,
};
use crate::profile::{acyclic_comps, comp_sizes, loop_comps, multi_at, size_at, SccProfile};
use crate::reach::{
    edge, lemma_reaches_child, lemma_reaches_closed, lemma_reaches_self, lemma_reaches_trans,
    mutual, reaches,
};
use crate::scc::members;
use crate::stats::{
    cone_classes, cone_lengths, const_classes, cyclic, cyclic_classes, nontrivial, pi_classes,
    stats_ok, trivial_classes, CutStats,
};
use crate::tally::{count, holds, listed, occurrences, total};

verus! {

// -------------------------------------------------------------------------- sets

/// The numbers below `n` with the property.
pub open spec fn those(n: nat, p: spec_fn(int) -> bool) -> Set<int> {
    set_int_range(0, n as int).filter(p)
}

/// Counting counts the numbers with the property.
pub proof fn counts_are_of_sets(n: nat, p: spec_fn(int) -> bool)
    ensures
        count(n, p) == those(n, p).len(),
        those(n, p).finite(),
    decreases n,
{
    vstd::set_lib::lemma_int_range(0, n as int);
    if n == 0 {
        assert(those(0, p) =~= Set::empty());
    } else {
        counts_are_of_sets((n - 1) as nat, p);
        let rest = those((n - 1) as nat, p);
        if p(n - 1) {
            assert(those(n, p) =~= rest.insert(n - 1));
        } else {
            assert(those(n, p) =~= rest);
        }
    }
}

/// A set of numbers does not depend on what the property says of others.
proof fn lemma_those_ext(n: nat, p: spec_fn(int) -> bool, q: spec_fn(int) -> bool)
    requires
        forall|i: int| 0 <= i < n ==> #[trigger] p(i) == q(i),
    ensures
        those(n, p) == those(n, q),
{
    assert(those(n, p) =~= those(n, q));
}

/// The sum of some numbers.
pub open spec fn sum_of(s: Seq<nat>) -> nat {
    s.fold_left(0nat, |a: nat, b: nat| a + b)
}

/// Totals are sums.
pub proof fn totals_are_sums(n: nat, f: spec_fn(int) -> nat)
    ensures
        total(n, f) == sum_of(Seq::new(n, f)),
    decreases n,
{
    reveal_with_fuel(Seq::fold_left, 2);
    if n > 0 {
        totals_are_sums((n - 1) as nat, f);
        assert(Seq::new(n, f).drop_last() =~= Seq::new((n - 1) as nat, f));
    }
}

proof fn lemma_sum_ext(n: nat, f: spec_fn(int) -> nat, g: spec_fn(int) -> nat)
    requires
        forall|i: int| 0 <= i < n ==> #[trigger] f(i) == g(i),
    ensures
        sum_of(Seq::new(n, f)) == sum_of(Seq::new(n, g)),
{
    assert(Seq::new(n, f) =~= Seq::new(n, g));
}

/// The selected numbers are those with the property, in ascending order.
pub proof fn selection_is_exact(p: spec_fn(int) -> bool, n: nat)
    requires
        n <= usize::MAX,
    ensures
        forall|i: int, j: int|
            0 <= i < j < selected(p, n).len() ==> selected(p, n)[i] < selected(p, n)[j],
        forall|x: usize| #[trigger] selected(p, n).contains(x) <==> x < n && p(x as int),
    decreases n,
{
    if n > 0 {
        selection_is_exact(p, (n - 1) as nat);
        let rest = selected(p, (n - 1) as nat);
        let all = selected(p, n);
        assert forall|x: usize| #[trigger] all.contains(x) <==> x < n && p(x as int) by {
            assert(rest.contains(x) <==> x < n - 1 && p(x as int));
            if all.contains(x) {
                let k = choose|k: int| 0 <= k < all.len() && all[k] == x;
                if k < rest.len() {
                    assert(rest[k] == x);
                }
            }
            if rest.contains(x) {
                let k = choose|k: int| 0 <= k < rest.len() && rest[k] == x;
                assert(all[k] == x);
            }
            if p(n - 1) {
                assert(all[rest.len() as int] == n - 1);
            }
        }
        assert forall|i: int, j: int| 0 <= i < j < all.len() implies all[i] < all[j] by {
            if j < rest.len() {
                assert(all[i] == rest[i] && all[j] == rest[j]);
            } else {
                assert(all[i] == rest[i]);
                assert(rest.contains(rest[i]));
            }
        }
    }
}

// ------------------------------------------------------------------------ cycles

/// A walk from the class through one of its children leads back to it.
pub open spec fn on_cycle(graph: &ClassGraph, v: u32) -> bool {
    exists|c: u32| #[trigger] edge(graph.adj@, v, c) && reaches(graph.adj@, c, v)
}

/// A class is counted as cyclic if a walk from it leads back to it.
pub proof fn cyclic_classes_lie_on_cycles(graph: &ClassGraph, v: int)
    requires
        graph.wf(),
        graph.condensed(),
        0 <= v < graph.size(),
    ensures
        cyclic(graph, v) <==> on_cycle(graph, v as u32),
{
    let x = v as u32;
    let adj = graph.adj@;
    let ms = members(graph.sccs@);
    let s = graph.scc_of@[v] as int;
    assert(graph.scc_of@[v] < graph.sccs@.len());
    assert(graph.sccs@[s]@.contains(x));
    let i = choose|i: int| 0 <= i < graph.sccs@[s]@.len() && graph.sccs@[s]@[i] == x;
    assert(ms[s][i] == x);
    if adj[v]@.contains(x) {
        lemma_reaches_self(adj, x);
        assert(edge(adj, x, x));
    } else if graph.sccs@[s]@.len() > 1 {
        let j: int = if i == 0 {
            1
        } else {
            0
        };
        let w = ms[s][j];
        assert(ms[s][i] != ms[s][j]);
        assert(mutual(adj, ms[s][i], ms[s][j]));
        let inside = |y: u32|
            y == x || exists|c: u32| #[trigger] edge(adj, x, c) && reaches(adj, c, y);
        assert forall|y: u32, z: u32| inside(y) && #[trigger] edge(adj, y, z) implies inside(z) by {
            lemma_reaches_child(adj, y, z);
            if y == x {
                lemma_reaches_self(adj, z);
                assert(edge(adj, x, z) && reaches(adj, z, z));
            } else {
                let c = choose|c: u32| #[trigger] edge(adj, x, c) && reaches(adj, c, y);
                lemma_reaches_trans(adj, c, y, z);
                assert(edge(adj, x, c) && reaches(adj, c, z));
            }
        }
        lemma_reaches_closed(adj, inside, x, w);
        let c = choose|c: u32| #[trigger] edge(adj, x, c) && reaches(adj, c, w);
        lemma_reaches_trans(adj, c, w, x);
        assert(edge(adj, x, c) && reaches(adj, c, x));
    }
    if on_cycle(graph, x) && !adj[v]@.contains(x) {
        let c = choose|c: u32| #[trigger] edge(adj, x, c) && reaches(adj, c, x);
        assert(c != x);
        lemma_reaches_child(adj, x, c);
        let k = choose|k: int| 0 <= k < adj[v]@.len() && adj[v]@[k] == c;
        assert(graph.adj@[v]@[k] < graph.size());
        let t = graph.scc_of@[c as int] as int;
        assert(graph.scc_of@[c as int] < graph.sccs@.len());
        assert(graph.sccs@[t]@.contains(c));
        let j = choose|j: int| 0 <= j < graph.sccs@[t]@.len() && graph.sccs@[t]@[j] == c;
        assert(ms[t][j] == c);
        assert(mutual(adj, ms[s][i], ms[t][j]));
        assert(s == t);
        assert(i != j);
        assert(graph.sccs@[s]@.len() > 1);
    }
}

// ----------------------------------------------------------- enumeration statistics

/// The numbers of classes in the statistics of an enumeration are those of the classes in the
/// cone, of the inputs and constants there, of the classes there with a single cut, and of the
/// classes that lie on a cycle; the cuts besides the first ones are added up. The conflicts and
/// the longest list are those of the final state.
pub proof fn statistics_count_classes(
    graph: &ClassGraph,
    params: CutParams,
    kernels: Seq<Kernel>,
    cone: Seq<bool>,
    st: Sweep,
    s: CutStats,
)
    requires
        graph.wf(),
        graph.condensed(),
        stats_ok(graph, params, kernels, cone, st, s),
    ensures
        ({
            let n = graph.size();
            &&& s.k == params.k && s.max_cuts == params.max_cuts
            &&& s.num_classes_graph == n
            &&& s.num_classes_cone == those(n, |v: int| cone[v]).len()
            &&& s.num_pi_classes == those(
                n,
                |v: int| cone[v] && kind_of(graph, kernels, v) == Some(ClassKind::Pi),
            ).len()
            &&& s.num_const_classes == those(
                n,
                |v: int|
                    cone[v] && exists|c: u64|
                        kind_of(graph, kernels, v) == Some(ClassKind::Const(c)),
            ).len()
            &&& s.num_trivial_only == those(n, |v: int| cone[v] && st.cuts[v].len() == 1).len()
            &&& s.num_cyclic_classes == those(n, |v: int| on_cycle(graph, v as u32)).len()
            &&& ({
                let more = sum_of(
                    Seq::new(
                        n,
                        |v: int|
                            if st.cuts[v].len() > 1 {
                                (st.cuts[v].len() - 1) as nat
                            } else {
                                0
                            },
                    ),
                );
                s.total_nontrivial_cuts == if more > usize::MAX {
                    usize::MAX as int
                } else {
                    more as int
                }
            })
            &&& s.tt_conflicts == if st.conflicts > usize::MAX {
                usize::MAX as int
            } else {
                st.conflicts as int
            }
            &&& s.max_cuts_per_class == st.widest
        }),
{
    let n = graph.size();
    counts_are_of_sets(n, cone_classes(cone));
    lemma_those_ext(n, cone_classes(cone), |v: int| cone[v]);
    counts_are_of_sets(n, pi_classes(graph, kernels, cone));
    lemma_those_ext(
        n,
        pi_classes(graph, kernels, cone),
        |v: int| cone[v] && kind_of(graph, kernels, v) == Some(ClassKind::Pi),
    );
    let p = |v: int|
        cone[v] && exists|c: u64| kind_of(graph, kernels, v) == Some(ClassKind::Const(c));
    let q = const_classes(graph, kernels, cone);
    assert forall|v: int| 0 <= v < n implies #[trigger] q(v) == p(v) by {
        if q(v) {
            let c = kind_of(graph, kernels, v)->0->Const_0;
            assert(kind_of(graph, kernels, v) == Some(ClassKind::Const(c)));
        }
    }
    counts_are_of_sets(n, q);
    lemma_those_ext(n, q, p);
    lemma_those_ext(
        n,
        p,
        |v: int|
            cone[v] && exists|c: u64| kind_of(graph, kernels, v) == Some(ClassKind::Const(c)),
    );
    counts_are_of_sets(n, trivial_classes(cone, st.cuts));
    lemma_those_ext(
        n,
        trivial_classes(cone, st.cuts),
        |v: int| cone[v] && st.cuts[v].len() == 1,
    );
    let on = |v: int| on_cycle(graph, v as u32);
    assert forall|v: int| 0 <= v < n implies #[trigger] cyclic_classes(graph)(v) == on(v) by {
        cyclic_classes_lie_on_cycles(graph, v);
    }
    counts_are_of_sets(n, cyclic_classes(graph));
    lemma_those_ext(n, cyclic_classes(graph), on);
    lemma_those_ext(n, on, |v: int| on_cycle(graph, v as u32));
    totals_are_sums(n, nontrivial(st.cuts));
    lemma_sum_ext(
        n,
        nontrivial(st.cuts),
        |v: int|
            if st.cuts[v].len() > 1 {
                (st.cuts[v].len() - 1) as nat
            } else {
                0
            },
    );
}

proof fn lemma_lengths(cone: Seq<bool>, cuts: Seq<Seq<CutView>>, n: nat, k: usize)
    requires
        forall|v: int| 0 <= v < n ==> (#[trigger] cuts[v]).len() <= usize::MAX,
    ensures
        occurrences(cone_lengths(cone, cuts, n), k) == count(
            n,
            |v: int| cone[v] && cuts[v].len() == k,
        ),
        forall|q: int|
            0 <= q < cone_lengths(cone, cuts, n).len() ==> exists|v: int|
                0 <= v < n && cone[v] && #[trigger] cuts[v].len() == #[trigger] cone_lengths(
                    cone,
                    cuts,
                    n,
                )[q],
        forall|v: int|
            0 <= v < n && cone[v] ==> cone_lengths(cone, cuts, n).contains(
                #[trigger] cuts[v].len() as usize,
            ),
    decreases n,
{
    if n > 0 {
        lemma_lengths(cone, cuts, (n - 1) as nat, k);
        let rest = cone_lengths(cone, cuts, (n - 1) as nat);
        let all = cone_lengths(cone, cuts, n);
        let p = |v: int| cone[v] && cuts[v].len() == k;
        assert(cuts[n - 1].len() <= usize::MAX);
        crate::tally::lemma_count_ext(rest.len(), holds(all, k), holds(rest, k));
        assert forall|q: int| 0 <= q < all.len() implies exists|v: int|
            0 <= v < n && cone[v] && #[trigger] cuts[v].len() == #[trigger] all[q] by {
            if q < rest.len() {
                assert(all[q] == rest[q]);
                let v = choose|v: int|
                    0 <= v < n - 1 && cone[v] && #[trigger] cuts[v].len() == rest[q];
                assert(cuts[v].len() == all[q]);
            } else {
                assert(cuts[n - 1].len() == all[q]);
            }
        }
        assert forall|v: int| 0 <= v < n && cone[v] implies all.contains(
            #[trigger] cuts[v].len() as usize,
        ) by {
            if v < n - 1 {
                let x = cuts[v].len() as usize;
                assert(rest.contains(x));
                let i = choose|i: int| 0 <= i < rest.len() && rest[i] == x;
                assert(all[i] == x);
            } else {
                assert(all[rest.len() as int] == cuts[v].len() as usize);
            }
        }
    }
}

/// The histogram has an entry for each length of a list in the cone, longest first, with the
/// number of such lists, and no other.
pub proof fn histogram_counts_lists(
    graph: &ClassGraph,
    params: CutParams,
    kernels: Seq<Kernel>,
    cone: Seq<bool>,
    st: Sweep,
    s: CutStats,
    i: int,
    v: int,
)
    requires
        stats_ok(graph, params, kernels, cone, st, s),
        forall|v: int| 0 <= v < graph.size() ==> (#[trigger] st.cuts[v]).len() <= usize::MAX,
        0 <= i < s.hist@.len(),
        0 <= v < graph.size(),
        cone[v],
    ensures
        0 < s.hist@[i].1 == those(
            graph.size(),
            |v: int| cone[v] && st.cuts[v].len() == s.hist@[i].0,
        ).len(),
        forall|j: int| i < j < s.hist@.len() ==> (#[trigger] s.hist@[j]).0 < s.hist@[i].0,
        exists|j: int| 0 <= j < s.hist@.len() && (#[trigger] s.hist@[j]).0 == st.cuts[v].len(),
{
    let n = graph.size();
    let h = s.hist@.reverse();
    let m = h.len();
    let keys = cone_lengths(cone, st.cuts, n);
    let k = s.hist@[i].0;
    lemma_lengths(cone, st.cuts, n, k);
    let p = |v: int| cone[v] && st.cuts[v].len() == k;
    counts_are_of_sets(n, p);
    lemma_those_ext(n, p, |v: int| cone[v] && st.cuts[v].len() == s.hist@[i].0);
    assert(h[m - 1 - i] == s.hist@[i]);
    assert forall|j: int| i < j < s.hist@.len() implies (#[trigger] s.hist@[j]).0
        < s.hist@[i].0 by {
        assert(h[m - 1 - j] == s.hist@[j]);
        assert(h[m - 1 - j].0 < h[m - 1 - i].0);
    }
    assert(st.cuts[v].len() <= usize::MAX);
    let x = st.cuts[v].len() as usize;
    assert(keys.contains(x));
    let q = choose|q: int| 0 <= q < keys.len() && keys[q] == x;
    assert(listed(h, h.len(), keys[q]));
    let y = choose|y: int| 0 <= y < h.len() && (#[trigger] h[y]).0 == x;
    assert(s.hist@[m - 1 - y] == h[y]);
}

// -------------------------------------------------------------- mapping statistics

/// The numbers of classes in the statistics of a mapping are those of the classes with a cell,
/// of the classes of the cone that cannot be emitted, and of the inputs and constants there;
/// the latest arrival and the sum of the flows take in every root.
pub proof fn map_statistics_count_classes(s: Setting, m: Mapping, roots: Seq<u32>, t: MapStats)
    requires
        map_stats_ok(s, m, roots, t),
    ensures
        ({
            let n = s.graph.size();
            &&& t.num_classes == n
            &&& t.num_cone_classes == those(n, |v: int| s.cone[v]).len()
            &&& t.num_mapped == those(n, |v: int| m.choices[v] is Some).len()
            &&& t.num_unmatched == those(n, |v: int| s.cone[v] && !m.emit[v]).len()
            &&& t.num_pi == those(
                n,
                |v: int| s.cone[v] && kind_of(&s.graph, s.kernels, v) == Some(ClassKind::Pi),
            ).len()
            &&& t.num_const == those(
                n,
                |v: int|
                    s.cone[v] && exists|c: u64|
                        kind_of(&s.graph, s.kernels, v) == Some(ClassKind::Const(c)),
            ).len()
            &&& t.max_root_arrival == Seq::new(
                roots.len(),
                |i: int| m.arrival[roots[i] as int],
            ).fold_left(Cost::Number(0x8000_0000_0000_0000), later_of())
            &&& t.total_flow_at_roots == Seq::new(
                roots.len(),
                |i: int| m.flow[roots[i] as int],
            ).fold_left(Cost::Number(0x8000_0000_0000_0000), s.plus)
        }),
{
    roots_are_taken_in(s.plus, m.arrival, m.flow, roots, roots.len());
    let n = s.graph.size();
    counts_are_of_sets(n, cone_classes(s.cone));
    lemma_those_ext(n, cone_classes(s.cone), |v: int| s.cone[v]);
    counts_are_of_sets(n, mapped_classes(m.choices));
    lemma_those_ext(n, mapped_classes(m.choices), |v: int| m.choices[v] is Some);
    counts_are_of_sets(n, unmatched_classes(s.cone, m.emit));
    lemma_those_ext(n, unmatched_classes(s.cone, m.emit), |v: int| s.cone[v] && !m.emit[v]);
    counts_are_of_sets(n, pi_classes(&s.graph, s.kernels, s.cone));
    lemma_those_ext(
        n,
        pi_classes(&s.graph, s.kernels, s.cone),
        |v: int| s.cone[v] && kind_of(&s.graph, s.kernels, v) == Some(ClassKind::Pi),
    );
    let p = |v: int|
        s.cone[v] && exists|c: u64| kind_of(&s.graph, s.kernels, v) == Some(ClassKind::Const(c));
    let q = const_classes(&s.graph, s.kernels, s.cone);
    assert forall|v: int| 0 <= v < n implies #[trigger] q(v) == p(v) by {
        if q(v) {
            let c = kind_of(&s.graph, s.kernels, v)->0->Const_0;
            assert(kind_of(&s.graph, s.kernels, v) == Some(ClassKind::Const(c)));
        }
    }
    counts_are_of_sets(n, q);
    lemma_those_ext(n, q, p);
    lemma_those_ext(
        n,
        p,
        |v: int|
            s.cone[v] && exists|c: u64|
                kind_of(&s.graph, s.kernels, v) == Some(ClassKind::Const(c)),
    );
}

/// The constants of a mapping are the emitted classes without a cell that are constants.
pub proof fn constants_are_exact(
    graph: &ClassGraph,
    kernels: Seq<Kernel>,
    m: Mapping,
    n: nat,
    v: u32,
)
    requires
        n <= u32::MAX,
    ensures
        ({
            let all = emitted_constants(graph, kernels, m, n);
            &&& all.dom().contains(v) <==> v < n && m.emit[v as int] && m.choices[v as int] is None
                && (exists|c: u64|
                kind_of(graph, kernels, v as int) == Some(ClassKind::Const(c)))
            &&& all.dom().contains(v) ==> kind_of(graph, kernels, v as int) == Some(
                ClassKind::Const(all[v]),
            )
        }),
    decreases n,
{
    if n > 0 {
        constants_are_exact(graph, kernels, m, (n - 1) as nat, v);
        if let Some(ClassKind::Const(c)) = kind_of(graph, kernels, n - 1) {
            assert(kind_of(graph, kernels, n - 1) == Some(ClassKind::Const(c)));
        }
    }
}

// ------------------------------------------------------------------- references

/// How often `c` occurs among the children of e-node `e`.
pub open spec fn times_among(children: Seq<u32>, c: u32) -> nat {
    children.filter(|x: u32| x == c).len()
}

proof fn lemma_child_refs(children: Seq<u32>, c: u32, n: nat)
    requires
        n <= children.len(),
    ensures
        child_refs(children, c, n) == times_among(children.take(n as int), c),
    decreases n,
{
    reveal(Seq::filter);
    if n > 0 {
        lemma_child_refs(children, c, (n - 1) as nat);
        assert(children.take(n as int).drop_last() =~= children.take(n - 1));
    }
}

/// The references to a class are its occurrences among the children of all e-nodes of the
/// classes of the cone, as far as 32 bits can count.
pub proof fn references_count_children(graph: &ClassGraph, cone: Seq<bool>, c: int)
    requires
        0 <= c < graph.size(),
    ensures
        ({
            let of_class = |v: int|
                if cone[v] {
                    sum_of(
                        Seq::new(
                            graph.enodes_of@[v]@.len(),
                            |i: int|
                                times_among(
                                    graph.enodes@[graph.enodes_of@[v]@[i] as int].ch_eq@,
                                    c as u32,
                                ),
                        ),
                    )
                } else {
                    0
                };
            let all = sum_of(Seq::new(graph.size(), of_class));
            all_refs(graph, cone)[c] == if all > u32::MAX {
                u32::MAX as int
            } else {
                all as int
            }
        }),
{
    let x = c as u32;
    let of_class = |v: int|
        if cone[v] {
            sum_of(
                Seq::new(
                    graph.enodes_of@[v]@.len(),
                    |i: int|
                        times_among(
                            graph.enodes@[graph.enodes_of@[v]@[i] as int].ch_eq@,
                            c as u32,
                        ),
                ),
            )
        } else {
            0
        };
    assert forall|v: int| 0 <= v < graph.size() implies #[trigger] class_refs(graph, cone, x)(v)
        == of_class(v) by {
        let n = graph.enodes_of@[v]@.len();
        let f = |i: int|
            times_among(graph.enodes@[graph.enodes_of@[v]@[i] as int].ch_eq@, c as u32);
        assert forall|i: int| 0 <= i < n implies #[trigger] enode_refs(graph, v, x)(i) == f(i) by {
            let ch = graph.enodes@[graph.enodes_of@[v]@[i] as int].ch_eq@;
            lemma_child_refs(ch, x, ch.len());
            assert(ch.take(ch.len() as int) =~= ch);
        }
        totals_are_sums(n, enode_refs(graph, v, x));
        lemma_sum_ext(n, enode_refs(graph, v, x), f);
        lemma_sum_ext(
            n,
            f,
            |i: int| times_among(graph.enodes@[graph.enodes_of@[v]@[i] as int].ch_eq@, c as u32),
        );
    }
    totals_are_sums(graph.size(), class_refs(graph, cone, x));
    lemma_sum_ext(graph.size(), class_refs(graph, cone, x), of_class);
}

// ----------------------------------------------------------------------- profile

/// The profile counts the components of one class that is not its own child, those of one
/// class that is, and the classes of all others.
pub proof fn profile_counts_components(p: SccProfile, sccs: Seq<Vec<u32>>, adj: Seq<Vec<u32>>)
    requires
        p.describes(sccs, adj),
    ensures
        ({
            let m = sccs.len();
            &&& p.num_sccs == m
            &&& p.num_classes == sum_of(Seq::new(m, |c: int| sccs[c]@.len()))
            &&& p.singleton_acyclic_nodes == those(
                m,
                |c: int| sccs[c]@.len() == 1 && !edge(adj, sccs[c]@[0], sccs[c]@[0]),
            ).len()
            &&& p.self_loop_nodes == those(
                m,
                |c: int| sccs[c]@.len() == 1 && edge(adj, sccs[c]@[0], sccs[c]@[0]),
            ).len()
            &&& p.multi_node_nodes == sum_of(
                Seq::new(
                    m,
                    |c: int|
                        if sccs[c]@.len() == 1 {
                            0
                        } else {
                            sccs[c]@.len()
                        },
                ),
            )
            &&& forall|i: int| 0 <= i < p.sizes@.len() ==> #[trigger] p.sizes@[i] <= p.max_size
            &&& m > 0 ==> p.sizes@.contains(p.max_size)
            &&& p.sizes@.to_multiset() == Seq::new(
                m,
                |c: int| sccs[c]@.len() as usize,
            ).to_multiset()
            &&& forall|i: int, j: int|
                0 <= i < j < p.sizes@.len() ==> p.sizes@[i] <= p.sizes@[j]
            &&& forall|i: int|
                0 <= i < p.histogram@.len() ==> 0 < (#[trigger] p.histogram@[i]).1 == those(
                    m,
                    |c: int| sccs[c]@.len() as usize == p.histogram@[i].0,
                ).len()
            &&& forall|i: int, j: int|
                0 <= i < j < p.histogram@.len() ==> p.histogram@[i].0 < p.histogram@[j].0
            &&& forall|c: int|
                0 <= c < m ==> exists|i: int|
                    0 <= i < p.histogram@.len() && (#[trigger] p.histogram@[i]).0 == (
                    #[trigger] sccs[c])@.len() as usize
        }),
{
    let m = sccs.len();
    totals_are_sums(m, size_at(sccs));
    lemma_sum_ext(m, size_at(sccs), |c: int| sccs[c]@.len());
    counts_are_of_sets(m, acyclic_comps(sccs, adj));
    lemma_those_ext(
        m,
        acyclic_comps(sccs, adj),
        |c: int| sccs[c]@.len() == 1 && !edge(adj, sccs[c]@[0], sccs[c]@[0]),
    );
    counts_are_of_sets(m, loop_comps(sccs, adj));
    lemma_those_ext(
        m,
        loop_comps(sccs, adj),
        |c: int| sccs[c]@.len() == 1 && edge(adj, sccs[c]@[0], sccs[c]@[0]),
    );
    totals_are_sums(m, multi_at(sccs));
    lemma_sum_ext(
        m,
        multi_at(sccs),
        |c: int|
            if sccs[c]@.len() == 1 {
                0
            } else {
                sccs[c]@.len()
            },
    );
    assert(comp_sizes(sccs) =~= Seq::new(m, |c: int| sccs[c]@.len() as usize));
    assert forall|i: int| 0 <= i < p.histogram@.len() implies 0 < (#[trigger] p.histogram@[i]).1
        == those(m, |c: int| sccs[c]@.len() as usize == p.histogram@[i].0).len() by {
        let k = p.histogram@[i].0;
        let q = |c: int| sccs[c]@.len() as usize == p.histogram@[i].0;
        counts_are_of_sets(m, holds(comp_sizes(sccs), k));
        lemma_those_ext(m, holds(comp_sizes(sccs), k), q);
    }
    assert forall|c: int| 0 <= c < m implies exists|i: int|
        0 <= i < p.histogram@.len() && (#[trigger] p.histogram@[i]).0 == (
        #[trigger] sccs[c])@.len() as usize by {
        let h = p.histogram@;
        assert(listed(h, h.len(), comp_sizes(sccs)[c]));
        let i = choose|i: int| 0 <= i < h.len() && (#[trigger] h[i]).0 == comp_sizes(sccs)[c];
        assert(p.histogram@[i].0 == sccs[c]@.len() as usize);
    }
    if m > 0 {
        assert(p.sizes@[m - 1] == p.max_size);
        assert forall|i: int| 0 <= i < p.sizes@.len() implies #[trigger] p.sizes@[i]
            <= p.max_size by {
            assert(p.sizes@[i] <= p.sizes@[m - 1]);
        }
    }
}

/// The size of an index is the number of functions that it knows, of one to four pins, as far
/// as a machine word can tell.
pub proof fn index_size_takes_in_all_pins(ix: MatchIndex)
    requires
        ix.wf(),
    ensures
        ({
            let all = ix.by_arity@[0]@.len() + ix.by_arity@[1]@.len() + ix.by_arity@[2]@.len()
                + ix.by_arity@[3]@.len();
            ix.count_upto(4) == if all > usize::MAX {
                usize::MAX as int
            } else {
                all as int
            }
        }),
{
    reveal_with_fuel(MatchIndex::count_upto, 5);
}

/// The index tells, for a number of pins and a table, what its table for that number of pins
/// has for the table; there are four such numbers.
pub proof fn index_slots_are_by_pins(ix: MatchIndex, pins: usize, tt: u64)
    requires
        ix.wf(),
    ensures
        ix.slots().dom().contains((pins, tt)) <==> (1 <= pins <= 4 && ix.by_arity@[pins
            - 1]@.dom().contains(tt)),
        ix.slots().dom().contains((pins, tt)) ==> {
            let (a, d) = ix.slots()[(pins, tt)];
            let (x, y) = ix.by_arity@[pins - 1]@[tt];
            a.cell == x.cell && a.perm == x.perm@ && d.cell == y.cell && d.perm == y.perm@
        },
{
}

} // verus!
