//! What callers are shown, in plain terms.
use egglog::EGraph;
use vstd::prelude::*;
use vstd::utf8::encode_utf8;

use crate::best_term::{fault, is_best_term};
use crate::class_graph::{children_of, ClassGraph, Enode};
use crate::cost::Cost;
use crate::count_laws::{counts_are_of_sets, those};
use crate::cut::CutView;
use crate::cut_iter::{class_lookup, tells_cuts, CutInfo, EnodeInfo};
use crate::cut_map::{CutMapper, Decision};
use crate::dag_extract::{extracts, DagExtractor, ExtractError};
use crate::egraph::{canonical_of, sorts_of, strings_of, TermView};
use crate::extract_dp::texts_of;
use crate::iter_laws::values_are_of_their_class;
use crate::kernel::{kind_of, ClassKind, UnsoundClass};
use crate::library::{arities_ok, index_entries_are_best, indexed, numeric, variant_key};
use crate::map_laws::{leaves_below, unmatched_classes_have_no_offer};
use crate::mapping::{
    bad_roots, best_choice, class_ok, emitted_classes, mapped, mapping_is_consistent, matchable,
    offer_of, pin_inputs, setting_ok, Mapping, Setting,
};
use crate::perm::{orders_first, permuted};
use crate::price_laws::{between_infinities, bytes_hash, hashes_go_byte_by_byte};
use crate::tally::count;

verus! {

// ------------------------------------------------------------------------- costs

/// Costs are ordered by their place; one that is not a number is neither below nor the same as
/// any, and the larger of two is a number where one of them is.
pub proof fn costs_are_ordered_by_place(a: Cost, b: Cost)
    ensures
        a.below(b) <==> (a is Number && b is Number && a->Number_0 < b->Number_0),
        a.same(b) <==> (a is Number && a == b),
        a.finite() <==> between_infinities(a),
        a.larger(b) == a || a.larger(b) == b,
        a is Number && b is Number ==> a->Number_0 <= a.larger(b)->Number_0 && b->Number_0
            <= a.larger(b)->Number_0,
        a is Number || b is Number ==> a.larger(b) is Number,
{
}

// --------------------------------------------------------------------- adjacency

/// The children of a class are those of its e-nodes, one e-node after the other.
pub proof fn children_come_enode_by_enode(enodes: Seq<Enode>, v: int, n: nat)
    requires
        n <= enodes.len(),
    ensures
        children_of(enodes, v, n) == Seq::new(
            n,
            |e: int|
                if enodes[e].out == v {
                    enodes[e].ch_eq@
                } else {
                    Seq::empty()
                },
        ).flatten_alt(),
    decreases n,
{
    let f = |e: int|
        if enodes[e].out == v {
            enodes[e].ch_eq@
        } else {
            Seq::empty()
        };
    let all = Seq::new(n, f);
    if n > 0 {
        children_come_enode_by_enode(enodes, v, (n - 1) as nat);
        assert(all.drop_last() =~= Seq::new((n - 1) as nat, f));
        let rest = children_of(enodes, v, (n - 1) as nat);
        assert(rest + Seq::<u32>::empty() =~= rest);
    }
}

/// The text hash of a primitive child is that of the bytes of its text.
pub proof fn texts_are_hashed(eg: EGraph, enodes: Seq<Enode>, e: int, j: int)
    requires
        0 <= e < enodes.len(),
        0 <= j < enodes[e].ch_prim@.len(),
    ensures
        texts_of(eg, enodes).len() == enodes.len(),
        texts_of(eg, enodes)[e].len() == enodes[e].ch_prim@.len(),
        texts_of(eg, enodes)[e][j] == bytes_hash(
            0xcbf2_9ce4_8422_2325,
            encode_utf8(strings_of(eg)[enodes[e].ch_prim@[j].1]),
        ),
{
    hashes_go_byte_by_byte(
        0xcbf2_9ce4_8422_2325,
        encode_utf8(strings_of(eg)[enodes[e].ch_prim@[j].1]),
    );
}

// -------------------------------------------------------------------------- cuts

/// The cuts that are shown are those of the class, in order, each with its leaves, its table,
/// the size of its cone, the name of the constructor that makes it and the cuts that it takes.
pub proof fn shown_cuts_are_the_cuts(
    list: Seq<CutInfo>,
    graph: &ClassGraph,
    cs: Seq<CutView>,
    i: int,
)
    requires
        tells_cuts(list, graph, cs),
        0 <= i < cs.len(),
    ensures
        list.len() == cs.len(),
        list[i].leaves@ == cs[i].leaves,
        list[i].tt == cs[i].tt,
        list[i].nnodes == cs[i].nnodes,
        list[i].enode is Some <==> cs[i].realization is Some,
        list[i].child_cuts is Some <==> cs[i].realization is Some,
        cs[i].realization matches Some((e, chosen)) ==> list[i].child_cuts->0@ == chosen
            && list[i].enode->0@ == graph.funcs@[graph.enodes@[e as int].func as int].term_name@,
{
    assert(list[i].tells(graph, cs[i]));
}

/// An e-node is shown with its constructor's name, its child classes and the component of its
/// class.
pub proof fn shown_enodes_are_the_enodes(x: EnodeInfo, graph: &ClassGraph, v: int, e: int)
    requires
        x.tells(graph, v, e),
    ensures
        x.func@ == graph.funcs@[graph.enodes@[e].func as int].term_name@,
        x.ch_eq@ == graph.enodes@[e].ch_eq@,
        x.scc == graph.scc_of@[v],
{
}

/// A decision is shown with the name of its cell, the classes on its pins, its cut, its
/// arrival and its flow.
pub proof fn shown_decisions_are_the_choices(cm: &CutMapper, d: Decision, v: int)
    requires
        cm.tells(d, v),
    ensures
        cm.choices@[v] is Some,
        d.class == v,
        d.cell@ == cm.cells@[cm.choices@[v]->0.cell as int].name@,
        d.inputs@ == cm.choices@[v]->0.inputs@,
        d.cut == cm.choices@[v]->0.cut,
        d.arrival == cm.choices@[v]->0.arrival,
        d.flow == cm.choices@[v]->0.flow,
{
}

// ------------------------------------------------------------------------ mapping

/// The roots that are reported as unmappable are those that cannot be emitted.
pub proof fn unmappable_roots_are_counted(emit: Seq<bool>, roots: Seq<u32>)
    ensures
        count(roots.len(), bad_roots(emit, roots)) == those(
            roots.len(),
            |i: int| !emit[roots[i] as int],
        ).len(),
{
    counts_are_of_sets(roots.len(), bad_roots(emit, roots));
    assert(those(roots.len(), bad_roots(emit, roots)) =~= those(
        roots.len(),
        |i: int| !emit[roots[i] as int],
    ));
}

/// A class that is an input or a constant is emitted at no cost and without a cell; any other
/// one is emitted exactly if it has a cell; and nothing outside the cone is.
pub proof fn emitted_classes_have_cells(s: Setting, m: Mapping, v: int)
    requires
        setting_ok(s),
        mapped(s, s.graph.sccs@.len()) == Ok::<Mapping, UnsoundClass>(m),
        0 <= v < s.graph.size(),
    ensures
        m.emit[v] ==> s.cone[v],
        m.choices[v] is Some ==> m.emit[v],
        s.cone[v] && kind_of(&s.graph, s.kernels, v) == Some(ClassKind::Internal) ==> (m.emit[v]
            <==> m.choices[v] is Some),
        s.cone[v] && kind_of(&s.graph, s.kernels, v) != Some(ClassKind::Internal) ==> m.emit[v]
            && m.choices[v] is None && m.arrival[v] == Cost::Number(0x8000_0000_0000_0000)
            && m.flow[v] == Cost::Number(0x8000_0000_0000_0000),
{
    mapping_is_consistent(s, s.graph.sccs@.len());
    emitted_classes(s, v);
    assert(class_ok(s, m, v));
}

proof fn lemma_no_offer(s: Setting, m: Mapping, v: int, n: nat, ci: int)
    requires
        best_choice(s, m, v, n) is None,
        0 <= ci < n,
        matchable(s.cuts[v][ci]),
        s.index.dom().contains((s.cuts[v][ci].leaves.len() as usize, s.cuts[v][ci].tt)),
    ensures
        ({
            let slot = s.index[(s.cuts[v][ci].leaves.len() as usize, s.cuts[v][ci].tt)];
            offer_of(s, m, v, ci, slot.0) is None && offer_of(s, m, v, ci, slot.1) is None
        }),
    decreases n,
{
    if ci < n - 1 {
        lemma_no_offer(s, m, v, (n - 1) as nat, ci);
    }
}

/// A class of the cone that cannot be emitted in the end has no cell that could be used: where
/// a cell, under some order of its pins, has the table of a realized cut of the class, one of
/// the cut's leaves cannot be emitted either.
pub proof fn unmatched_classes_lack_a_leaf(
    s: Setting,
    m: Mapping,
    v: int,
    ci: int,
    cell: int,
    p: Seq<u8>,
)
    requires
        setting_ok(s),
        leaves_below(s),
        mapped(s, s.graph.sccs@.len()) == Ok::<Mapping, UnsoundClass>(m),
        s.index == indexed(s.cells, s.cells.len()),
        s.cells.len() <= usize::MAX,
        arities_ok(s.cells, s.cells.len() as int),
        numeric(s.cells),
        0 <= v < s.graph.size(),
        s.cone[v],
        !m.emit[v],
        0 <= ci < s.cuts[v].len(),
        s.cuts[v][ci].realization is Some,
        0 <= cell < s.cells.len(),
        s.cells[cell].arity == s.cuts[v][ci].leaves.len(),
        orders_first(p, s.cells[cell].arity as nat),
        permuted(s.cells[cell].tt, s.cells[cell].arity as nat, p) == s.cuts[v][ci].tt,
    ensures
        exists|l: u32| #[trigger] s.cuts[v][ci].leaves.contains(l) && !m.emit[l as int],
{
    unmatched_classes_have_no_offer(s, m, v);
    index_entries_are_best(s.cells, s.cells.len(), cell, p);
    let cut = s.cuts[v][ci];
    let key = variant_key(s.cells, cell, p);
    assert(key == (cut.leaves.len() as usize, cut.tt));
    assert(crate::library::arity_ok(s.cells[cell]));
    lemma_no_offer(s, m, v, s.cuts[v].len(), ci);
    let e = s.index[key].0;
    let inputs = pin_inputs(cut.leaves, e.perm);
    let i = choose|i: int| 0 <= i < inputs.len() && !m.emit[#[trigger] inputs[i] as int];
    crate::mapping::lemma_inputs(s, v, ci, e.cell, e.perm, i);
    let l = cut.leaves[e.perm[i] as int];
    assert(inputs[i] == l);
    assert(cut.leaves.contains(l) && !m.emit[l as int]);
}

// --------------------------------------------------------------------- extraction

/// An extraction gives a term exactly where the e-graph has the sort, the value has a class,
/// the class a cost between the infinities, and the choices from it down lead to an end. The
/// cost is that of the class, and the term one of the arena. Where a class has no such cost,
/// or the value no class, the root is at fault; nothing else changes in the extractor.
pub proof fn extractions_succeed_where_they_can(
    x: DagExtractor,
    y: DagExtractor,
    eg: EGraph,
    s: Seq<TermView>,
    t: Seq<TermView>,
    value: u32,
    sort: Seq<char>,
    r: Result<(Cost, usize), ExtractError>,
)
    requires
        x.wf(),
        extracts(x, y, eg, s, t, value, sort, r),
    ensures
        ({
            let c = canonical_of(eg)[(sort, value)];
            let known = sorts_of(eg).dom().contains(sort);
            let v = x.graph.classes@.index_of(c);
            &&& y.costs@ == x.costs@ && y.best@ == x.best@ && y.hashes@ == x.hashes@
            &&& !known <==> r == Err::<(Cost, usize), ExtractError>(ExtractError::UnknownSort)
            &&& known && !x.graph.classes@.contains(c) ==> r == Err::<(Cost, usize), ExtractError>(
                ExtractError::Root,
            )
            &&& known && x.graph.classes@.contains(c) && !between_infinities(x.costs@[v]) ==> r
                == Err::<(Cost, usize), ExtractError>(ExtractError::Root)
            &&& known && x.graph.classes@.contains(c) && between_infinities(x.costs@[v]) ==> {
                &&& r is Ok <==> fault(&x.graph, x.best@, v as u32, Seq::empty()) is None
                &&& r matches Ok((cost, id)) ==> cost == x.costs@[v] && id < t.len()
                    && is_best_term(&x.graph, x.best@, eg, t, v as u32, id)
            }
        }),
{
    let c = canonical_of(eg)[(sort, value)];
    values_are_of_their_class(eg, &x.graph, sort, value);
    let cs = x.graph.classes@;
    if let Ok(w) = class_lookup(eg, sort, x.graph.class_index@, value) {
        assert(cs.contains(c));
        let v = cs.index_of(c);
        assert(0 <= v < cs.len() && cs[v] == c);
        assert(x.graph.class_index@[cs[v]] == v);
        assert(x.graph.class_index@[cs[w as int]] == w);
        assert(v == w);
    }
}

} // verus!
