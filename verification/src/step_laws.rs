//! How the choices are made, one step after the other.
use vstd::prelude::*;

use crate::class_graph::ClassGraph;
use crate::cost::Cost;
use crate::cut::CutView;
use crate::enumerate;
use crate::enumerate::{inserted, ranked, ranks_before, CutError, CutParams, Sweep};
use crate::extract_dp::{cheapest, enode_cost, relax_class, relax_pass, struct_hash, Dp, Pricing};
use crate::fnv::fnv_words;
use crate::kernel::{kind_of, ClassKind, Kernel, UnsoundClass};
use crate::library::{
    area_key, delay_key, indexed, offered, triple_less, variant_entry, variant_key, with_variants,
    CellSpec, EntryView, Index,
};
use crate::mapping;
use crate::mapping::{best_choice, offer_of, score_less, ChoiceView, Mapping, Setting};
use crate::names::{order_is_by_the_first_difference, parts_at};
use crate::perm::orderings;

verus! {

/// Both are numbers, and the first one is the smaller.
pub open spec fn smaller(a: Cost, b: Cost) -> bool {
    a is Number && b is Number && a->Number_0 < b->Number_0
}

/// Both are the same number.
pub open spec fn level(a: Cost, b: Cost) -> bool {
    a is Number && b is Number && a->Number_0 == b->Number_0
}

// ------------------------------------------------------------------ matched cells

/// `a` has the smaller first cost; or the same one and the smaller second; or the same two and
/// the smaller hash of the inputs. The first cost is the arrival for delay, the flow for area.
pub open spec fn outranks(delay_first: bool, a: ChoiceView, b: ChoiceView) -> bool {
    let (p, q) = if delay_first {
        (smaller(a.arrival, b.arrival), level(a.arrival, b.arrival))
    } else {
        (smaller(a.flow, b.flow), level(a.flow, b.flow))
    };
    let (x, y) = if delay_first {
        (smaller(a.flow, b.flow), level(a.flow, b.flow))
    } else {
        (smaller(a.arrival, b.arrival), level(a.arrival, b.arrival))
    };
    p || (q && x) || (q && y && fnv_words(a.inputs) < fnv_words(b.inputs))
}

/// Choices are ranked by the two costs in the order of the objective and by the hash of the
/// inputs; what is not a number never makes a choice the better one.
pub proof fn choices_rank_by_two_costs(delay_first: bool, a: ChoiceView, b: ChoiceView)
    ensures
        score_less(delay_first, a, b) <==> outranks(delay_first, a, b),
{
}

/// The offer numbered `j`: two for each cut of class `v`, by area and by delay. There is one
/// only for a realized cut of one to four leaves whose table the index knows.
pub open spec fn offer_at(s: Setting, m: Mapping, v: int, j: int) -> Option<ChoiceView> {
    let cut = s.cuts[v][j / 2];
    let key = (cut.leaves.len() as usize, cut.tt);
    if cut.realization is Some && 1 <= cut.leaves.len() <= 4 && s.index.dom().contains(key) {
        offer_of(
            s,
            m,
            v,
            j / 2,
            if j % 2 == 0 {
                s.index[key].0
            } else {
                s.index[key].1
            },
        )
    } else {
        None
    }
}

/// The choice after one more offer: it takes the place of the one held if it outranks it.
pub open spec fn after_offer(delay_first: bool) -> spec_fn(
    Option<ChoiceView>,
    Option<ChoiceView>,
) -> Option<ChoiceView> {
    |held: Option<ChoiceView>, x: Option<ChoiceView>|
        if x is Some && (held is None || outranks(delay_first, x->0, held->0)) {
            x
        } else {
            held
        }
}

/// The best choice comes of going through the offers on the cuts in order, by area before by
/// delay, and holding the first of those that no later one outranks.
pub proof fn offers_are_gone_through(s: Setting, m: Mapping, v: int, n: nat)
    requires
        n <= s.cuts[v].len(),
    ensures
        best_choice(s, m, v, n) == Seq::new(2 * n, |j: int| offer_at(s, m, v, j)).fold_left(
            None,
            after_offer(s.delay_first),
        ),
    decreases n,
{
    let f = after_offer(s.delay_first);
    let all = Seq::new(2 * n, |j: int| offer_at(s, m, v, j));
    if n > 0 {
        offers_are_gone_through(s, m, v, (n - 1) as nat);
        let rest = Seq::new(2 * (n - 1) as nat, |j: int| offer_at(s, m, v, j));
        let some = all.drop_last();
        assert(some.drop_last() =~= rest);
        assert(some.last() == offer_at(s, m, v, 2 * n - 2));
        assert(all.last() == offer_at(s, m, v, 2 * n - 1));
        assert((2 * n - 2) / 2 == n - 1 && (2 * n - 1) / 2 == n - 1);
        let held = best_choice(s, m, v, (n - 1) as nat);
        assert(some.fold_left(None, f) == f(held, some.last()));
        assert(all.fold_left(None, f) == f(f(held, some.last()), all.last()));
    }
}

/// A visit of a class of the cone: an internal class takes its best choice, with its arrival
/// and flow, if there is one; an input or a constant comes for nothing.
pub proof fn visits_take_the_best_choice(s: Setting, m: Mapping, v: u32)
    requires
        s.cone[v as int],
        !m.done[v as int],
        v < s.graph.size(),
        m.choices.len() == s.graph.size(),
        m.arrival.len() == s.graph.size(),
        m.flow.len() == s.graph.size(),
        m.emit.len() == s.graph.size(),
        m.done.len() == s.graph.size(),
    ensures
        ({
            let i = v as int;
            let r = mapping::visit(s, m, v);
            match kind_of(&s.graph, s.kernels, i) {
                None => r == Err::<(Mapping, bool), UnsoundClass>(
                    UnsoundClass { class: v as usize },
                ),
                Some(ClassKind::Internal) => match best_choice(s, m, i, s.cuts[i].len()) {
                    None => r == Ok::<(Mapping, bool), UnsoundClass>((m, false)),
                    Some(c) => r is Ok && r->Ok_0.1 && ({
                        let t = r->Ok_0.0;
                        &&& t.choices == m.choices.update(i, Some(c))
                        &&& t.arrival == m.arrival.update(i, c.arrival)
                        &&& t.flow == m.flow.update(i, c.flow)
                        &&& t.emit == m.emit.update(i, true)
                        &&& t.done == m.done.update(i, true)
                    }),
                },
                Some(_) => r is Ok && r->Ok_0.1 && ({
                    let t = r->Ok_0.0;
                    &&& t.choices == m.choices.update(i, None)
                    &&& t.arrival == m.arrival.update(i, Cost::Number(0x8000_0000_0000_0000))
                    &&& t.flow == m.flow.update(i, Cost::Number(0x8000_0000_0000_0000))
                    &&& t.emit == m.emit.update(i, true)
                    &&& t.done == m.done.update(i, true)
                }),
            }
        }),
{
}

/// The step of a pass of the mapping to one more class.
pub open spec fn mapping_step(s: Setting) -> spec_fn(
    Result<(Mapping, bool), UnsoundClass>,
    u32,
) -> Result<(Mapping, bool), UnsoundClass> {
    |r: Result<(Mapping, bool), UnsoundClass>, v: u32|
        match r {
            Err(e) => Err(e),
            Ok((m, progress)) => match mapping::visit(s, m, v) {
                Err(e) => Err(e),
                Ok((next, more)) => Ok((next, progress || more)),
            },
        }
}

/// A pass of the mapping visits the classes of the component in order.
pub proof fn mapping_passes_visit_in_order(s: Setting, si: int, m: Mapping, n: nat)
    requires
        n <= s.graph.sccs@[si]@.len(),
    ensures
        mapping::pass(s, si, m, n) == s.graph.sccs@[si]@.take(n as int).fold_left(
            Ok((m, false)),
            mapping_step(s),
        ),
    decreases n,
{
    let all = s.graph.sccs@[si]@;
    if n > 0 {
        mapping_passes_visit_in_order(s, si, m, (n - 1) as nat);
        assert(all.take(n as int).drop_last() =~= all.take(n - 1));
    }
}

// --------------------------------------------------------------------------- cuts

/// The step of a pass of the enumeration to one more class.
pub open spec fn sweep_step(
    graph: &ClassGraph,
    params: CutParams,
    kernels: Seq<Kernel>,
    cone: Seq<bool>,
    si: int,
) -> spec_fn(Result<(Sweep, bool), CutError>, u32) -> Result<(Sweep, bool), CutError> {
    |r: Result<(Sweep, bool), CutError>, v: u32|
        match r {
            Err(e) => Err(e),
            Ok((st, progress)) => match enumerate::visit(graph, params, kernels, cone, si, st, v) {
                Err(e) => Err(e),
                Ok((next, more)) => Ok((next, progress || more)),
            },
        }
}

/// A pass of the enumeration visits the classes of the component in order.
pub proof fn sweep_passes_visit_in_order(
    graph: &ClassGraph,
    params: CutParams,
    kernels: Seq<Kernel>,
    cone: Seq<bool>,
    si: int,
    st: Sweep,
    n: nat,
)
    requires
        n <= graph.sccs@[si]@.len(),
    ensures
        enumerate::pass(graph, params, kernels, cone, si, st, n) == graph.sccs@[si]@.take(
            n as int,
        ).fold_left(Ok((st, false)), sweep_step(graph, params, kernels, cone, si)),
    decreases n,
{
    let all = graph.sccs@[si]@;
    if n > 0 {
        sweep_passes_visit_in_order(graph, params, kernels, cone, si, st, (n - 1) as nat);
        assert(all.take(n as int).drop_last() =~= all.take(n - 1));
    }
}

/// `a` has fewer leaves than `b`; or as many, and the smaller cone; or the same two, and the
/// smaller hash of the leaves.
pub open spec fn lighter(a: CutView, b: CutView) -> bool {
    ||| a.leaves.len() < b.leaves.len()
    ||| a.leaves.len() == b.leaves.len() && a.nnodes < b.nnodes
    ||| a.leaves.len() == b.leaves.len() && a.nnodes == b.nnodes && fnv_words(a.leaves)
        < fnv_words(b.leaves)
}

/// A cut is inserted at place `i`: everything from there on is heavier, and what stands just
/// before is not.
pub proof fn cuts_are_inserted_behind_equals(s: Seq<CutView>, c: CutView) -> (i: int)
    ensures
        0 <= i <= s.len(),
        inserted(s, c) == s.take(i).push(c) + s.skip(i),
        forall|x: int| i <= x < s.len() ==> lighter(c, #[trigger] s[x]),
        i > 0 ==> !lighter(c, s[i - 1]),
    decreases s.len(),
{
    if s.len() == 0 || !ranks_before(c, s.last()) {
        let n = s.len() as int;
        assert(s.take(n).push(c) + s.skip(n) =~= s.push(c));
        n
    } else {
        let rest = s.drop_last();
        let i = cuts_are_inserted_behind_equals(rest, c);
        assert((rest.take(i).push(c) + rest.skip(i)).push(s.last()) =~= s.take(i).push(c)
            + s.skip(i));
        assert forall|x: int| i <= x < s.len() implies lighter(c, #[trigger] s[x]) by {
            if x < rest.len() {
                assert(lighter(c, rest[x]));
            }
        }
        i
    }
}

/// Cuts are sorted by inserting them one after the other.
pub proof fn cuts_are_sorted_by_inserting(s: Seq<CutView>)
    ensures
        ranked(s) == s.fold_left(
            Seq::empty(),
            |r: Seq<CutView>, c: CutView| inserted(r, c),
        ),
    decreases s.len(),
{
    if s.len() > 0 {
        cuts_are_sorted_by_inserting(s.drop_last());
    }
}

// ------------------------------------------------------------------------ e-nodes

/// The cheapest e-node after one more: one that is cheaper, or costs the same and has the
/// smaller hash, takes the place of the one held.
pub open spec fn after_enode(graph: &ClassGraph, p: Pricing, st: Dp) -> spec_fn(
    (Cost, u64, Option<usize>),
    usize,
) -> (Cost, u64, Option<usize>) {
    |held: (Cost, u64, Option<usize>), e: usize|
        {
            let h = struct_hash(graph, p.texts, st.hashes, e as int);
            match enode_cost(graph, p, st, e as int) {
                Some(c) => if smaller(c, held.0) || (level(c, held.0) && h < held.1) {
                    (c, h, Some(e))
                } else {
                    held
                },
                None => held,
            }
        }
}

/// The cheapest e-node of a class comes of going through its e-nodes in order; with none that
/// has a cost the class has an infinite one.
pub proof fn enodes_are_gone_through(graph: &ClassGraph, p: Pricing, st: Dp, v: int, n: nat)
    requires
        n <= graph.enodes_of@[v]@.len(),
    ensures
        cheapest(graph, p, st, v, n) == graph.enodes_of@[v]@.take(n as int).fold_left(
            (Cost::Number(0xfff0_0000_0000_0000), 0xffff_ffff_ffff_ffff, None),
            after_enode(graph, p, st),
        ),
    decreases n,
{
    let all = graph.enodes_of@[v]@;
    if n > 0 {
        enodes_are_gone_through(graph, p, st, v, (n - 1) as nat);
        assert(all.take(n as int).drop_last() =~= all.take(n - 1));
    }
}

/// The state after the relaxation of class `v` by one more e-node: the class takes an e-node
/// that has a cost if it has none yet, if it is cheaper, or if it costs the same and has the
/// smaller hash.
pub open spec fn after_relaxing(graph: &ClassGraph, p: Pricing, v: int) -> spec_fn(
    (Dp, bool),
    usize,
) -> (Dp, bool) {
    |r: (Dp, bool), e: usize|
        {
            let st = r.0;
            let h = struct_hash(graph, p.texts, st.hashes, e as int);
            match enode_cost(graph, p, st, e as int) {
                None => r,
                Some(c) => if st.best[v] is None || smaller(c, st.costs[v]) || (level(
                    c,
                    st.costs[v],
                ) && h < struct_hash(graph, p.texts, st.hashes, st.best[v]->0 as int)) {
                    (
                        Dp {
                            costs: st.costs.update(v, c),
                            hashes: st.hashes.update(v, h),
                            best: st.best.update(v, Some(e)),
                        },
                        true,
                    )
                } else {
                    r
                },
            }
        }
}

/// The relaxation of a class goes through its e-nodes in order.
pub proof fn relaxation_goes_through_the_enodes(
    graph: &ClassGraph,
    p: Pricing,
    st: Dp,
    v: int,
    n: nat,
)
    requires
        n <= graph.enodes_of@[v]@.len(),
    ensures
        relax_class(graph, p, st, v, n) == graph.enodes_of@[v]@.take(n as int).fold_left(
            (st, false),
            after_relaxing(graph, p, v),
        ),
    decreases n,
{
    let all = graph.enodes_of@[v]@;
    if n > 0 {
        relaxation_goes_through_the_enodes(graph, p, st, v, (n - 1) as nat);
        assert(all.take(n as int).drop_last() =~= all.take(n - 1));
    }
}

/// The step of a pass of the relaxation to one more class.
pub open spec fn relaxing_step(graph: &ClassGraph, p: Pricing) -> spec_fn((Dp, bool), u32) -> (
    Dp,
    bool,
) {
    |r: (Dp, bool), v: u32|
        graph.enodes_of@[v as int]@.fold_left(r, after_relaxing(graph, p, v as int))
}

/// A pass of the relaxation goes through the classes of the component in order, and through
/// the e-nodes of each.
pub proof fn relaxation_goes_through_the_classes(
    graph: &ClassGraph,
    p: Pricing,
    st: Dp,
    si: int,
    n: nat,
)
    requires
        n <= graph.sccs@[si]@.len(),
    ensures
        relax_pass(graph, p, st, si, n) == graph.sccs@[si]@.take(n as int).fold_left(
            (st, false),
            relaxing_step(graph, p),
        ),
    decreases n,
{
    let all = graph.sccs@[si]@;
    if n > 0 {
        relaxation_goes_through_the_classes(graph, p, st, si, (n - 1) as nat);
        assert(all.take(n as int).drop_last() =~= all.take(n - 1));
        let (mid, a) = relax_pass(graph, p, st, si, (n - 1) as nat);
        let v = all[n - 1] as int;
        let es = graph.enodes_of@[v]@;
        relaxation_goes_through_the_enodes(graph, p, mid, v, es.len());
        assert(es.take(es.len() as int) =~= es);
        lemma_flag(graph, p, v, es, mid, a);
    }
}

/// A change made before does not bear on what is changed next.
proof fn lemma_flag(graph: &ClassGraph, p: Pricing, v: int, es: Seq<usize>, st: Dp, a: bool)
    ensures
        ({
            let f = after_relaxing(graph, p, v);
            let (x, b) = es.fold_left((st, false), f);
            es.fold_left((st, a), f) == (x, a || b)
        }),
    decreases es.len(),
{
    if es.len() > 0 {
        lemma_flag(graph, p, v, es.drop_last(), st, a);
    }
}

// -------------------------------------------------------------------------- index

/// `a` comes before `b`: by the first cost, then by the second, then by the order of the pins.
pub open spec fn precedes(a: (Cost, Cost, Seq<u8>), b: (Cost, Cost, Seq<u8>)) -> bool {
    ||| smaller(a.0, b.0)
    ||| level(a.0, b.0) && smaller(a.1, b.1)
    ||| level(a.0, b.0) && level(a.1, b.1) && exists|d: int| parts_at(a.2, b.2, d)
}

/// Entries of the index are ranked by area, delay and pins, or by delay, area and pins; what
/// is not a number never makes an entry the better one.
pub proof fn entries_rank_by_two_costs(cells: Seq<CellSpec>, x: EntryView, y: EntryView)
    ensures
        ({
            let (a, b) = (cells[x.cell as int], cells[y.cell as int]);
            &&& triple_less(area_key(cells, x), area_key(cells, y)) <==> precedes(
                (a.area, a.delay, x.perm),
                (b.area, b.delay, y.perm),
            )
            &&& triple_less(delay_key(cells, x), delay_key(cells, y)) <==> precedes(
                (a.delay, a.area, x.perm),
                (b.delay, b.area, y.perm),
            )
        }),
{
    order_is_by_the_first_difference(x.perm, y.perm);
}

/// The index after one more entry: the first one of its slot is both the best by area and the
/// best by delay; a later one takes the place of those that it comes before.
pub open spec fn after_entry(
    m: Index,
    cells: Seq<CellSpec>,
    key: (usize, u64),
    e: EntryView,
) -> Index {
    let x = cells[e.cell as int];
    if m.dom().contains(key) {
        let (ba, bd) = m[key];
        let (a, d) = (cells[ba.cell as int], cells[bd.cell as int]);
        let by_area = precedes((x.area, x.delay, e.perm), (a.area, a.delay, ba.perm));
        let by_delay = precedes((x.delay, x.area, e.perm), (d.delay, d.area, bd.perm));
        m.insert(
            key,
            (
                if by_area {
                    e
                } else {
                    ba
                },
                if by_delay {
                    e
                } else {
                    bd
                },
            ),
        )
    } else {
        m.insert(key, (e, e))
    }
}

proof fn lemma_after_entry(m: Index, cells: Seq<CellSpec>, key: (usize, u64), e: EntryView)
    ensures
        offered(m, cells, key, e) == after_entry(m, cells, key, e),
{
    if m.dom().contains(key) {
        entries_rank_by_two_costs(cells, e, m[key].0);
        entries_rank_by_two_costs(cells, e, m[key].1);
    }
}

/// The step of the index to one more order of the pins of cell `ci`.
pub open spec fn variant_step(cells: Seq<CellSpec>, ci: int) -> spec_fn(Index, Seq<u8>) -> Index {
    |m: Index, p: Seq<u8>|
        after_entry(m, cells, variant_key(cells, ci, p), variant_entry(cells, ci, p))
}

proof fn lemma_variants(m: Index, cells: Seq<CellSpec>, ci: int, n: nat)
    requires
        n <= orderings(cells[ci].arity as nat).len(),
    ensures
        with_variants(m, cells, ci, n) == orderings(cells[ci].arity as nat).take(
            n as int,
        ).fold_left(m, variant_step(cells, ci)),
    decreases n,
{
    let all = orderings(cells[ci].arity as nat);
    if n > 0 {
        lemma_variants(m, cells, ci, (n - 1) as nat);
        assert(all.take(n as int).drop_last() =~= all.take(n - 1));
        let p = all[n - 1];
        lemma_after_entry(
            with_variants(m, cells, ci, (n - 1) as nat),
            cells,
            variant_key(cells, ci, p),
            variant_entry(cells, ci, p),
        );
    }
}

/// The index comes of going through the cells in order, and through the orders of the pins of
/// each.
pub proof fn cells_are_gone_through(cells: Seq<CellSpec>, n: nat)
    requires
        n <= cells.len(),
    ensures
        indexed(cells, n) == Seq::new(n, |ci: int| ci).fold_left(
            Map::empty(),
            |m: Index, ci: int|
                orderings(cells[ci].arity as nat).fold_left(m, variant_step(cells, ci)),
        ),
    decreases n,
{
    let f = |m: Index, ci: int|
        orderings(cells[ci].arity as nat).fold_left(m, variant_step(cells, ci));
    let all = Seq::new(n, |ci: int| ci);
    if n > 0 {
        cells_are_gone_through(cells, (n - 1) as nat);
        assert(all.drop_last() =~= Seq::new((n - 1) as nat, |ci: int| ci));
        let os = orderings(cells[n - 1].arity as nat);
        let m = indexed(cells, (n - 1) as nat);
        lemma_variants(m, cells, n - 1, os.len());
        assert(os.take(os.len() as int) =~= os);
        assert(all.last() == n - 1);
        let before = all.drop_last().fold_left(Map::empty(), f);
        assert(all.fold_left(Map::empty(), f) == f(before, n - 1));
    }
}

} // verus!
