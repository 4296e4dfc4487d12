//! Choosing a cell for every class: a dynamic program over the cut sets.
use vstd::prelude::*;

use crate::class_graph::ClassGraph;
use crate::cost::{Cost, INFINITY_KEY, NEG_INFINITY_KEY, ZERO_KEY};
use crate::cut::{cut_lists, cut_seq, Cut, CutView};
use crate::enumerate::{list_ok, sweep_ok, CutParams, CutResult, Sweep};
use crate::fnv::{fnv_inputs, fnv_words};
use crate::kernel::{class_kind, kernels_cover, kind_of, ClassKind, Kernel, UnsoundClass};
use crate::library::{
    arities_ok, arity_ok, belongs, build_index, index_entries_match, indexed, variant_entry,
    variant_key, ArityError, CellSpec, Entry, EntryView, Index, MatchIndex,
};
use crate::perm::{fed_cell_computes_cut, inverted, lemma_place, orders_first, permutes};
use crate::semantics::{cuts_are_sound, reachable};
use crate::stats::{cone_classes, const_classes, pi_classes};
use crate::tally::{count, lemma_count_bound, lemma_count_split, total};
use crate::truth::{bit, lemma_pack_ext, pack, same_str};

verus! {

/// A cell chosen for a class.
#[derive(Debug)]
pub struct Choice {
    /// Index of the cut in the class's cut list.
    pub cut: usize,
    pub cell: usize,
    /// Cell pin `i` is fed by cut leaf `perm[i]`.
    pub perm: [u8; 4],
    /// Classes that feed the cell, in pin order.
    pub inputs: Vec<u32>,
    pub arrival: Cost,
    pub flow: Cost,
}

#[verifier::ext_equal]
pub struct ChoiceView {
    pub cut: usize,
    pub cell: usize,
    pub perm: Seq<u8>,
    pub inputs: Seq<u32>,
    pub arrival: Cost,
    pub flow: Cost,
}

impl View for Choice {
    type V = ChoiceView;

    open spec fn view(&self) -> ChoiceView {
        ChoiceView {
            cut: self.cut,
            cell: self.cell,
            perm: self.perm@,
            inputs: self.inputs@,
            arrival: self.arrival,
            flow: self.flow,
        }
    }
}

/// The value of an optional choice.
pub open spec fn choice_view(c: Option<Choice>) -> Option<ChoiceView> {
    match c {
        Some(x) => Some(x@),
        None => None,
    }
}

/// The values of the choices of all classes.
pub open spec fn choice_views(s: Seq<Option<Choice>>) -> Seq<Option<ChoiceView>> {
    Seq::new(s.len(), |i: int| choice_view(s[i]))
}

// ------------------------------------------------------------------------ model

/// What the mapping works on.
pub struct Setting {
    pub graph: ClassGraph,
    pub kernels: Seq<Kernel>,
    pub cone: Seq<bool>,
    pub cuts: Seq<Seq<CutView>>,
    pub cells: Seq<CellSpec>,
    pub index: Index,
    /// How often each class is referred to.
    pub refs: Seq<u32>,
    /// Rank by arrival before area flow.
    pub delay_first: bool,
    /// The share of each reference in a flow: the flow over their number.
    pub share: spec_fn(Cost, u32) -> Cost,
    /// The sum of two costs.
    pub plus: spec_fn(Cost, Cost) -> Cost,
}

/// State of the mapping.
#[verifier::ext_equal]
pub struct Mapping {
    pub arrival: Seq<Cost>,
    pub flow: Seq<Cost>,
    pub choices: Seq<Option<ChoiceView>>,
    /// Which classes can be emitted.
    pub emit: Seq<bool>,
    pub done: Seq<bool>,
    /// When each class became emittable.
    pub rank: Seq<nat>,
    pub clock: nat,
}

/// The leaves in pin order.
pub open spec fn pin_inputs(leaves: Seq<u32>, perm: Seq<u8>) -> Seq<u32> {
    Seq::new(leaves.len(), |i: int| leaves[perm[i] as int])
}

/// All inputs can be emitted.
pub open spec fn all_emit(emit: Seq<bool>, inputs: Seq<u32>) -> bool {
    forall|i: int| 0 <= i < inputs.len() ==> emit[#[trigger] inputs[i] as int]
}

/// The latest arrival at the first `n` inputs.
pub open spec fn latest(arrival: Seq<Cost>, inputs: Seq<u32>, n: nat) -> Cost
    decreases n,
{
    if n == 0 {
        Cost::Number(NEG_INFINITY_KEY)
    } else {
        latest(arrival, inputs, (n - 1) as nat).larger(arrival[inputs[n - 1] as int])
    }
}

/// `n`, but at least one.
pub open spec fn at_least_one(n: u32) -> u32 {
    if n > 1 {
        n
    } else {
        1
    }
}

/// Sum of the shares in the flows of the first `n` inputs: each flow over the number of
/// references to its class, at least one.
pub open spec fn shared_flow(s: Setting, flow: Seq<Cost>, inputs: Seq<u32>, n: nat) -> Cost
    decreases n,
{
    if n == 0 {
        Cost::Number(ZERO_KEY)
    } else {
        let x = inputs[n - 1] as int;
        (s.plus)(
            shared_flow(s, flow, inputs, (n - 1) as nat),
            (s.share)(flow[x], at_least_one(s.refs[x])),
        )
    }
}

/// What entry `e` makes of the cut `ci` of class `v`, if its inputs can be emitted: it arrives
/// a cell delay after its latest input, and spends the cell area and its share of the inputs'
/// flows.
pub open spec fn offer_of(s: Setting, m: Mapping, v: int, ci: int, e: EntryView) -> Option<
    ChoiceView,
> {
    let inputs = pin_inputs(s.cuts[v][ci].leaves, e.perm);
    if all_emit(m.emit, inputs) {
        Some(
            ChoiceView {
                cut: ci as usize,
                cell: e.cell,
                perm: e.perm,
                inputs,
                arrival: (s.plus)(
                    s.cells[e.cell as int].delay,
                    latest(m.arrival, inputs, inputs.len()),
                ),
                flow: (s.plus)(
                    s.cells[e.cell as int].area,
                    shared_flow(s, m.flow, inputs, inputs.len()),
                ),
            },
        )
    } else {
        None
    }
}

/// `a` ranks strictly before `b`: by arrival and flow in the order of the objective, then by
/// the hash of the inputs; false where the order meets a cost that is not a number.
pub open spec fn score_less(delay_first: bool, a: ChoiceView, b: ChoiceView) -> bool {
    let (a1, a2) = if delay_first {
        (a.arrival, a.flow)
    } else {
        (a.flow, a.arrival)
    };
    let (b1, b2) = if delay_first {
        (b.arrival, b.flow)
    } else {
        (b.flow, b.arrival)
    };
    if a1.same(b1) {
        if a2.same(b2) {
            fnv_words(a.inputs) < fnv_words(b.inputs)
        } else {
            a2.below(b2)
        }
    } else {
        a1.below(b1)
    }
}

/// The better of two, the earlier one on a tie.
pub open spec fn better(
    delay_first: bool,
    best: Option<ChoiceView>,
    c: Option<ChoiceView>,
) -> Option<ChoiceView> {
    match (best, c) {
        (_, None) => best,
        (None, Some(_)) => c,
        (Some(b), Some(x)) => if score_less(delay_first, x, b) {
            c
        } else {
            best
        },
    }
}

/// Cut `c` can be matched: it is realized and has one to four leaves.
pub open spec fn matchable(c: CutView) -> bool {
    c.realization is Some && 1 <= c.leaves.len() <= 4
}

/// The best choice for class `v` among its first `n` cuts.
pub open spec fn best_choice(s: Setting, m: Mapping, v: int, n: nat) -> Option<ChoiceView>
    decreases n,
{
    if n == 0 {
        None
    } else {
        let best = best_choice(s, m, v, (n - 1) as nat);
        let c = s.cuts[v][n - 1];
        let key = (c.leaves.len() as usize, c.tt);
        if matchable(c) && s.index.dom().contains(key) {
            let (ba, bd) = s.index[key];
            better(
                s.delay_first,
                better(s.delay_first, best, offer_of(s, m, v, n - 1, ba)),
                offer_of(s, m, v, n - 1, bd),
            )
        } else {
            best
        }
    }
}

impl Mapping {
    /// Class `v` can be emitted.
    pub open spec fn finish(
        self,
        v: int,
        choice: Option<ChoiceView>,
        arrival: Cost,
        flow: Cost,
    ) -> Mapping {
        Mapping {
            arrival: self.arrival.update(v, arrival),
            flow: self.flow.update(v, flow),
            choices: self.choices.update(v, choice),
            emit: self.emit.update(v, true),
            done: self.done.update(v, true),
            rank: self.rank.update(v, self.clock),
            clock: self.clock + 1,
        }
    }

    /// Class `v` is left as it is.
    pub open spec fn skip(self, v: int) -> Mapping {
        Mapping { done: self.done.update(v, true), ..self }
    }
}

/// One visit of class `v`: the new state, and whether the class became emittable.
pub open spec fn visit(s: Setting, m: Mapping, v: u32) -> Result<(Mapping, bool), UnsoundClass> {
    let i = v as int;
    if m.done[i] {
        Ok((m, false))
    } else if !s.cone[i] {
        Ok((m.skip(i), false))
    } else {
        match kind_of(&s.graph, s.kernels, i) {
            None => Err(UnsoundClass { class: v as usize }),
            Some(ClassKind::Internal) => match best_choice(s, m, i, s.cuts[i].len()) {
                None => Ok((m, false)),
                Some(c) => Ok((m.finish(i, Some(c), c.arrival, c.flow), true)),
            },
            Some(_) => Ok(
                (m.finish(i, None, Cost::Number(ZERO_KEY), Cost::Number(ZERO_KEY)), true),
            ),
        }
    }
}

/// One pass over the first `n` members of component `si`.
pub open spec fn pass(s: Setting, si: int, m: Mapping, n: nat) -> Result<
    (Mapping, bool),
    UnsoundClass,
>
    decreases n,
{
    if n == 0 {
        Ok((m, false))
    } else {
        match pass(s, si, m, (n - 1) as nat) {
            Err(e) => Err(e),
            Ok((mid, progress)) => match visit(s, mid, s.graph.sccs@[si]@[n - 1]) {
                Err(e) => Err(e),
                Ok((next, more)) => Ok((next, progress || more)),
            },
        }
    }
}

/// Passes over component `si` until one makes no progress, `fuel` at most.
pub open spec fn passes(s: Setting, si: int, m: Mapping, fuel: nat) -> Result<Mapping, UnsoundClass>
    decreases fuel,
{
    if fuel == 0 {
        Ok(m)
    } else {
        match pass(s, si, m, s.graph.sccs@[si]@.len()) {
            Err(e) => Err(e),
            Ok((next, progress)) => if progress {
                passes(s, si, next, (fuel - 1) as nat)
            } else {
                Ok(next)
            },
        }
    }
}

/// Nothing can be emitted yet.
pub open spec fn start(s: Setting) -> Mapping {
    let n = s.graph.size();
    Mapping {
        arrival: Seq::new(n, |v: int| Cost::Number(INFINITY_KEY)),
        flow: Seq::new(n, |v: int| Cost::Number(INFINITY_KEY)),
        choices: Seq::new(n, |v: int| None),
        emit: Seq::new(n, |v: int| false),
        done: Seq::new(n, |v: int| false),
        rank: Seq::new(n, |v: int| 0nat),
        clock: 0,
    }
}

/// The state after the first `n` components. What no pass of a component reaches stays
/// unmatched.
pub open spec fn mapped(s: Setting, n: nat) -> Result<Mapping, UnsoundClass>
    decreases n,
{
    if n == 0 {
        Ok(start(s))
    } else {
        match mapped(s, (n - 1) as nat) {
            Err(e) => Err(e),
            Ok(m) => passes(s, n - 1, m, s.graph.sccs@[n - 1]@.len() + 1),
        }
    }
}

// ------------------------------------------------------------------- invariants

/// The choice `c` of class `v` is a cell of the index on one of the class's realized cuts,
/// over inputs that became emittable earlier. Its arrival and flow follow from theirs.
pub open spec fn choice_ok(s: Setting, m: Mapping, v: int, c: ChoiceView) -> bool {
    let cut = s.cuts[v][c.cut as int];
    let key = (cut.leaves.len() as usize, cut.tt);
    let e = EntryView { cell: c.cell, perm: c.perm };
    &&& c.cut < s.cuts[v].len()
    &&& matchable(cut)
    &&& s.index.dom().contains(key)
    &&& e == s.index[key].0 || e == s.index[key].1
    &&& c.inputs == pin_inputs(cut.leaves, c.perm)
    &&& offer_of(s, m, v, c.cut as int, e) == Some(c)
    &&& forall|i: int|
        0 <= i < c.inputs.len() ==> m.rank[#[trigger] c.inputs[i] as int] < m.rank[v]
}

/// The latest arrival and the shared flow depend on the inputs only.
proof fn lemma_inputs_same(s: Setting, m: Mapping, t: Mapping, inputs: Seq<u32>, n: nat)
    requires
        n <= inputs.len(),
        forall|i: int|
            0 <= i < inputs.len() ==> t.arrival[#[trigger] inputs[i] as int]
                == m.arrival[inputs[i] as int] && t.flow[inputs[i] as int]
                == m.flow[inputs[i] as int],
    ensures
        latest(t.arrival, inputs, n) == latest(m.arrival, inputs, n),
        shared_flow(s, t.flow, inputs, n) == shared_flow(s, m.flow, inputs, n),
    decreases n,
{
    if n > 0 {
        lemma_inputs_same(s, m, t, inputs, (n - 1) as nat);
        assert(t.arrival[inputs[n - 1] as int] == m.arrival[inputs[n - 1] as int]);
    }
}

/// An offer depends on the arrivals and flows of its inputs only.
pub(crate) proof fn lemma_offer_same(s: Setting, m: Mapping, t: Mapping, v: int, ci: int, e: EntryView)
    requires
        all_emit(m.emit, pin_inputs(s.cuts[v][ci].leaves, e.perm)),
        forall|i: int|
            0 <= i < s.cuts[v][ci].leaves.len() ==> {
                let x = #[trigger] pin_inputs(s.cuts[v][ci].leaves, e.perm)[i] as int;
                t.emit[x] && t.arrival[x] == m.arrival[x] && t.flow[x] == m.flow[x]
            },
    ensures
        offer_of(s, t, v, ci, e) == offer_of(s, m, v, ci, e),
{
    let inputs = pin_inputs(s.cuts[v][ci].leaves, e.perm);
    let n = inputs.len();
    assert forall|i: int| 0 <= i < n implies t.emit[#[trigger] inputs[i] as int] && t.arrival[
        inputs[i] as int
    ] == m.arrival[inputs[i] as int] && t.flow[inputs[i] as int] == m.flow[inputs[i] as int] by {
        let x = pin_inputs(s.cuts[v][ci].leaves, e.perm)[i] as int;
        assert(t.emit[x]);
    }
    lemma_inputs_same(s, m, t, inputs, n);
}

/// What holds of class `v` in every state.
pub open spec fn class_ok(s: Setting, m: Mapping, v: int) -> bool {
    &&& m.emit[v] ==> s.cone[v] && m.done[v] && m.rank[v] < m.clock
    &&& m.done[v] && s.cone[v] ==> m.emit[v]
    &&& m.choices[v] is Some ==> m.emit[v] && kind_of(&s.graph, s.kernels, v) == Some(
        ClassKind::Internal,
    ) && choice_ok(s, m, v, m.choices[v]->0) && m.arrival[v] == m.choices[v]->0.arrival && m.flow[v]
        == m.choices[v]->0.flow
    &&& m.emit[v] && m.choices[v] is None ==> kind_of(&s.graph, s.kernels, v) is Some && kind_of(
        &s.graph,
        s.kernels,
        v,
    ) != Some(ClassKind::Internal) && m.arrival[v] == Cost::Number(ZERO_KEY) && m.flow[v]
        == Cost::Number(ZERO_KEY)
}

/// What holds of every state.
pub open spec fn mapping_ok(s: Setting, m: Mapping) -> bool {
    let n = s.graph.size();
    &&& m.arrival.len() == n
    &&& m.flow.len() == n
    &&& m.choices.len() == n
    &&& m.emit.len() == n
    &&& m.done.len() == n
    &&& m.rank.len() == n
    &&& forall|v: int| 0 <= v < n ==> #[trigger] class_ok(s, m, v)
}

/// What the mapping needs of its setting.
pub open spec fn setting_ok(s: Setting) -> bool {
    let n = s.graph.size();
    &&& s.graph.wf()
    &&& kernels_cover(&s.graph, s.kernels)
    &&& s.cone.len() == n
    &&& s.cuts.len() == n
    &&& s.refs.len() == n
    &&& forall|v: int, i: int, j: int|
        0 <= v < n && 0 <= i < s.cuts[v].len() && 0 <= j < s.cuts[v][i].leaves.len()
            ==> #[trigger] s.cuts[v][i].leaves[j] < n
    &&& forall|v: int, i: int|
        0 <= v < n && 0 <= i < s.cuts[v].len() ==> (#[trigger] s.cuts[v][i]).leaves.len()
            <= usize::MAX
    &&& forall|v: int| 0 <= v < n ==> (#[trigger] s.cuts[v]).len() <= usize::MAX
    &&& arities_ok(s.cells, s.cells.len() as int)
    &&& s.cells.len() <= usize::MAX
    &&& s.index == indexed(s.cells, s.cells.len())
}

/// An entry of the index on a cut: its permutation stays within the leaves.
proof fn lemma_entry(s: Setting, key: (usize, u64), e: EntryView)
    requires
        setting_ok(s),
        s.index.dom().contains(key),
        e == s.index[key].0 || e == s.index[key].1,
        1 <= key.0 <= 4,
    ensures
        e.cell < s.cells.len(),
        e.perm.len() == 4,
        permutes(e.perm, key.0 as nat),
{
    index_entries_match(s.cells, s.cells.len());
    assert(belongs(s.cells, key, e));
    let p = choose|p: Seq<u8>|
        #[trigger] orders_first(p, key.0 as nat) && key == variant_key(s.cells, e.cell as int, p)
            && e == variant_entry(s.cells, e.cell as int, p);
    assert forall|i: int| 0 <= i < key.0 implies (#[trigger] e.perm[i]) < key.0 by {
        lemma_place(p, key.0 as nat, i);
    }
    assert forall|i: int, j: int| 0 <= i < key.0 && 0 <= j < key.0 && i != j implies #[trigger] e.perm[i]
        != #[trigger] e.perm[j] by {
        lemma_place(p, key.0 as nat, i);
        lemma_place(p, key.0 as nat, j);
    }
}

/// A best choice is one that the state allows.
proof fn lemma_best_choice(s: Setting, m: Mapping, v: int, n: nat)
    requires
        setting_ok(s),
        0 <= v < s.graph.size(),
        n <= s.cuts[v].len(),
    ensures
        best_choice(s, m, v, n) matches Some(c) ==> {
            let cut = s.cuts[v][c.cut as int];
            let key = (cut.leaves.len() as usize, cut.tt);
            let e = EntryView { cell: c.cell, perm: c.perm };
            &&& c.cut < n
            &&& matchable(cut)
            &&& s.index.dom().contains(key)
            &&& e == s.index[key].0 || e == s.index[key].1
            &&& c.inputs == pin_inputs(cut.leaves, c.perm)
            &&& offer_of(s, m, v, c.cut as int, e) == Some(c)
        },
    decreases n,
{
    if n > 0 {
        lemma_best_choice(s, m, v, (n - 1) as nat);
        let c = s.cuts[v][n - 1];
        assert(s.cuts[v].len() <= usize::MAX);
        let key = (c.leaves.len() as usize, c.tt);
        if matchable(c) && s.index.dom().contains(key) {
            let (ba, bd) = s.index[key];
            assert(EntryView { cell: ba.cell, perm: ba.perm } == ba);
            assert(EntryView { cell: bd.cell, perm: bd.perm } == bd);
        }
    }
}

/// Making a class emittable keeps what holds of every state.
proof fn lemma_finish_ok(
    s: Setting,
    m: Mapping,
    v: int,
    choice: Option<ChoiceView>,
    arrival: Cost,
    flow: Cost,
)
    requires
        setting_ok(s),
        mapping_ok(s, m),
        0 <= v < s.graph.size(),
        s.cone[v],
        !m.done[v],
        match choice {
            Some(c) => kind_of(&s.graph, s.kernels, v) == Some(ClassKind::Internal) && best_choice(
                s,
                m,
                v,
                s.cuts[v].len(),
            ) == choice && arrival == c.arrival && flow == c.flow,
            None => kind_of(&s.graph, s.kernels, v) is Some && kind_of(&s.graph, s.kernels, v)
                != Some(ClassKind::Internal) && arrival == Cost::Number(ZERO_KEY) && flow
                == Cost::Number(ZERO_KEY),
        },
    ensures
        mapping_ok(s, m.finish(v, choice, arrival, flow)),
{
    let t = m.finish(v, choice, arrival, flow);
    assert(class_ok(s, m, v));
    assert forall|w: int| 0 <= w < s.graph.size() implies #[trigger] class_ok(s, t, w) by {
        assert(class_ok(s, m, w));
        if w != v {
            if m.choices[w] is Some {
                let c = m.choices[w]->0;
                let cut = s.cuts[w][c.cut as int];
                assert(choice_ok(s, m, w, c));
                assert forall|i: int| 0 <= i < c.inputs.len() implies t.emit[
                    #[trigger] c.inputs[i] as int
                ] && t.rank[c.inputs[i] as int] < t.rank[w] by {
                    lemma_inputs(s, w, c.cut as int, c.cell, c.perm, i);
                    assert(m.emit[c.inputs[i] as int]);
                }
                assert forall|i: int| 0 <= i < cut.leaves.len() implies {
                    let x = #[trigger] pin_inputs(cut.leaves, c.perm)[i] as int;
                    t.emit[x] && t.arrival[x] == m.arrival[x] && t.flow[x] == m.flow[x]
                } by {
                    lemma_inputs(s, w, c.cut as int, c.cell, c.perm, i);
                    let x = c.inputs[i] as int;
                    assert(m.emit[x]);
                    assert(class_ok(s, m, x));
                }
                let e = EntryView { cell: c.cell, perm: c.perm };
                lemma_offer_same(s, m, t, w, c.cut as int, e);
            }
        } else if choice is Some {
            let c = choice->0;
            lemma_best_choice(s, m, v, s.cuts[v].len());
            assert forall|i: int| 0 <= i < c.inputs.len() implies t.emit[
                #[trigger] c.inputs[i] as int
            ] && t.rank[c.inputs[i] as int] < t.rank[v] by {
                lemma_inputs(s, v, c.cut as int, c.cell, c.perm, i);
                let x = c.inputs[i] as int;
                assert(m.emit[x]);
                assert(class_ok(s, m, x));
            }
            let cut = s.cuts[v][c.cut as int];
            assert forall|i: int| 0 <= i < cut.leaves.len() implies {
                let x = #[trigger] pin_inputs(cut.leaves, c.perm)[i] as int;
                t.emit[x] && t.arrival[x] == m.arrival[x] && t.flow[x] == m.flow[x]
            } by {
                lemma_inputs(s, v, c.cut as int, c.cell, c.perm, i);
                let x = c.inputs[i] as int;
                assert(m.emit[x]);
                assert(class_ok(s, m, x));
            }
            let e = EntryView { cell: c.cell, perm: c.perm };
            lemma_offer_same(s, m, t, v, c.cut as int, e);
        }
    }
}

/// The inputs of an entry on a cut are classes.
pub(crate) proof fn lemma_inputs(s: Setting, v: int, ci: int, cell: usize, perm: Seq<u8>, i: int)
    requires
        setting_ok(s),
        0 <= v < s.graph.size(),
        0 <= ci < s.cuts[v].len(),
        matchable(s.cuts[v][ci]),
        s.index.dom().contains((s.cuts[v][ci].leaves.len() as usize, s.cuts[v][ci].tt)),
        ({
            let slot = s.index[(s.cuts[v][ci].leaves.len() as usize, s.cuts[v][ci].tt)];
            let e = EntryView { cell, perm };
            e == slot.0 || e == slot.1
        }),
        0 <= i < s.cuts[v][ci].leaves.len(),
    ensures
        cell < s.cells.len(),
        perm.len() == 4,
        perm[i] < s.cuts[v][ci].leaves.len(),
        pin_inputs(s.cuts[v][ci].leaves, perm)[i] < s.graph.size(),
{
    let c = s.cuts[v][ci];
    let key = (c.leaves.len() as usize, c.tt);
    let e = EntryView { cell, perm };
    lemma_entry(s, key, e);
    assert(e.perm[i] < key.0);
    assert(s.cuts[v][ci].leaves[perm[i] as int] < s.graph.size());
}

/// A chosen cell is one of the library.
pub(crate) proof fn lemma_choice_cell(s: Setting, m: Mapping, v: int)
    requires
        setting_ok(s),
        mapping_ok(s, m),
        0 <= v < s.graph.size(),
        m.choices[v] is Some,
    ensures
        m.choices[v]->0.cell < s.cells.len(),
{
    assert(class_ok(s, m, v));
    let c = m.choices[v]->0;
    assert(choice_ok(s, m, v, c));
    lemma_inputs(s, v, c.cut as int, c.cell, c.perm, 0);
}

proof fn lemma_skip_ok(s: Setting, m: Mapping, v: int)
    requires
        mapping_ok(s, m),
        0 <= v < s.graph.size(),
        !s.cone[v],
    ensures
        mapping_ok(s, m.skip(v)),
{
    let t = m.skip(v);
    assert forall|w: int| 0 <= w < s.graph.size() implies #[trigger] class_ok(s, t, w) by {
        assert(class_ok(s, m, w));
        if m.choices[w] is Some {
            assert(choice_ok(s, m, w, m.choices[w]->0));
        }
    }
}

proof fn lemma_visit_ok(s: Setting, m: Mapping, v: u32)
    requires
        setting_ok(s),
        mapping_ok(s, m),
        v < s.graph.size(),
    ensures
        visit(s, m, v) matches Ok((next, _)) ==> mapping_ok(s, next),
{
    let i = v as int;
    if !m.done[i] {
        if !s.cone[i] {
            lemma_skip_ok(s, m, i);
        } else {
            match kind_of(&s.graph, s.kernels, i) {
                None => {},
                Some(ClassKind::Internal) => {
                    let b = best_choice(s, m, i, s.cuts[i].len());
                    if b is Some {
                        lemma_finish_ok(s, m, i, b, b->0.arrival, b->0.flow);
                    }
                },
                Some(_) => {
                    lemma_finish_ok(
                        s,
                        m,
                        i,
                        None,
                        Cost::Number(ZERO_KEY),
                        Cost::Number(ZERO_KEY),
                    );
                },
            }
        }
    }
}

/// A pass keeps what holds of every state.
pub(crate) proof fn lemma_pass_ok(s: Setting, si: int, m: Mapping, n: nat)
    requires
        setting_ok(s),
        mapping_ok(s, m),
        0 <= si < s.graph.sccs@.len(),
        n <= s.graph.sccs@[si]@.len(),
    ensures
        pass(s, si, m, n) matches Ok((next, _)) ==> mapping_ok(s, next),
    decreases n,
{
    if n > 0 {
        lemma_pass_ok(s, si, m, (n - 1) as nat);
        let r = pass(s, si, m, (n - 1) as nat);
        if r is Ok {
            assert(s.graph.sccs@[si]@[n - 1] < s.graph.size());
            lemma_visit_ok(s, r->Ok_0.0, s.graph.sccs@[si]@[n - 1]);
        }
    }
}

proof fn lemma_passes_ok(s: Setting, si: int, m: Mapping, fuel: nat)
    requires
        setting_ok(s),
        mapping_ok(s, m),
        0 <= si < s.graph.sccs@.len(),
    ensures
        passes(s, si, m, fuel) matches Ok(next) ==> mapping_ok(s, next),
    decreases fuel,
{
    if fuel > 0 {
        let n = s.graph.sccs@[si]@.len();
        lemma_pass_ok(s, si, m, n);
        let r = pass(s, si, m, n);
        if r is Ok && r->Ok_0.1 {
            lemma_passes_ok(s, si, r->Ok_0.0, (fuel - 1) as nat);
        }
    }
}

/// What holds of every state holds of the last one.
pub proof fn mapping_is_consistent(s: Setting, n: nat)
    requires
        setting_ok(s),
        n <= s.graph.sccs@.len(),
    ensures
        mapped(s, n) matches Ok(m) ==> mapping_ok(s, m),
    decreases n,
{
    if n == 0 {
        let m = start(s);
        assert forall|v: int| 0 <= v < s.graph.size() implies #[trigger] class_ok(s, m, v) by {}
    } else {
        mapping_is_consistent(s, (n - 1) as nat);
        let r = mapped(s, (n - 1) as nat);
        if r is Ok {
            lemma_passes_ok(s, n - 1, r->Ok_0, s.graph.sccs@[n - 1]@.len() + 1);
        }
    }
}

/// Class `v` has been settled, or is an internal class that still waits.
spec fn settled(s: Setting, m: Mapping, v: int) -> bool {
    m.done[v] || (s.cone[v] && kind_of(&s.graph, s.kernels, v) == Some(ClassKind::Internal))
}

proof fn lemma_pass_settles(s: Setting, si: int, m: Mapping, n: nat)
    requires
        setting_ok(s),
        mapping_ok(s, m),
        0 <= si < s.graph.sccs@.len(),
        n <= s.graph.sccs@[si]@.len(),
    ensures
        pass(s, si, m, n) matches Ok((next, _)) ==> {
            &&& forall|v: int| 0 <= v < s.graph.size() && m.done[v] ==> #[trigger] next.done[v]
            &&& forall|i: int|
                0 <= i < n ==> settled(s, next, #[trigger] s.graph.sccs@[si]@[i] as int)
        },
    decreases n,
{
    if n > 0 {
        lemma_pass_settles(s, si, m, (n - 1) as nat);
        lemma_pass_ok(s, si, m, (n - 1) as nat);
        let prev = pass(s, si, m, (n - 1) as nat);
        let r = pass(s, si, m, n);
        if r is Ok {
            let mid = prev->Ok_0.0;
            let next = r->Ok_0.0;
            let v = s.graph.sccs@[si]@[n - 1];
            assert(v < s.graph.size());
            assert forall|i: int| 0 <= i < n implies settled(
                s,
                next,
                #[trigger] s.graph.sccs@[si]@[i] as int,
            ) by {
                assert(s.graph.sccs@[si]@[i] < s.graph.size());
                if i < n - 1 {
                    assert(settled(s, mid, s.graph.sccs@[si]@[i] as int));
                }
            }
        }
    }
}

proof fn lemma_passes_settle(s: Setting, si: int, m: Mapping, fuel: nat)
    requires
        setting_ok(s),
        mapping_ok(s, m),
        0 <= si < s.graph.sccs@.len(),
        fuel > 0,
    ensures
        passes(s, si, m, fuel) matches Ok(next) ==> {
            &&& forall|v: int| 0 <= v < s.graph.size() && m.done[v] ==> #[trigger] next.done[v]
            &&& forall|i: int|
                0 <= i < s.graph.sccs@[si]@.len() ==> settled(
                    s,
                    next,
                    #[trigger] s.graph.sccs@[si]@[i] as int,
                )
        },
    decreases fuel,
{
    let n = s.graph.sccs@[si]@.len();
    lemma_pass_ok(s, si, m, n);
    lemma_pass_settles(s, si, m, n);
    let r = pass(s, si, m, n);
    if r is Ok && r->Ok_0.1 && fuel > 1 {
        lemma_passes_settle(s, si, r->Ok_0.0, (fuel - 1) as nat);
        let last = passes(s, si, r->Ok_0.0, (fuel - 1) as nat);
        if last is Ok {
            assert forall|v: int|
                0 <= v < s.graph.size() && m.done[v] implies #[trigger] last->Ok_0.done[v] by {
                assert(r->Ok_0.0.done[v]);
            }
        }
    }
}

proof fn lemma_mapped_settles(s: Setting, n: nat)
    requires
        setting_ok(s),
        n <= s.graph.sccs@.len(),
    ensures
        mapped(s, n) matches Ok(m) ==> forall|v: int|
            0 <= v < s.graph.size() && s.graph.scc_of@[v] < n ==> #[trigger] settled(s, m, v),
    decreases n,
{
    if n > 0 {
        lemma_mapped_settles(s, (n - 1) as nat);
        mapping_is_consistent(s, (n - 1) as nat);
        let prev = mapped(s, (n - 1) as nat);
        if prev is Ok {
            let si = n - 1;
            lemma_passes_settle(s, si, prev->Ok_0, s.graph.sccs@[si]@.len() + 1);
            let r = mapped(s, n);
            if r is Ok {
                let m = r->Ok_0;
                assert forall|v: int|
                    0 <= v < s.graph.size() && s.graph.scc_of@[v] < n implies #[trigger] settled(
                    s,
                    m,
                    v,
                ) by {
                    if s.graph.scc_of@[v] < n - 1 {
                        assert(settled(s, prev->Ok_0, v));
                        if prev->Ok_0.done[v] {
                            assert(m.done[v]);
                        }
                    } else {
                        let comp = s.graph.sccs@[si]@;
                        assert(comp.contains(v as u32));
                        let i = choose|i: int| 0 <= i < comp.len() && comp[i] == v as u32;
                        assert(settled(s, m, comp[i] as int));
                    }
                }
            }
        }
    }
}

/// A class of the cone can be emitted in the end if and only if it is a primary input, a
/// constant, or has a cell.
pub proof fn emitted_classes(s: Setting, v: int)
    requires
        setting_ok(s),
        0 <= v < s.graph.size(),
    ensures
        mapped(s, s.graph.sccs@.len()) matches Ok(m) ==> (m.emit[v] <==> s.cone[v] && (
        m.choices[v] is Some || kind_of(&s.graph, s.kernels, v) != Some(ClassKind::Internal))),
{
    let n = s.graph.sccs@.len();
    lemma_mapped_settles(s, n);
    mapping_is_consistent(s, n);
    let r = mapped(s, n);
    if r is Ok {
        let m = r->Ok_0;
        assert(s.graph.scc_of@[v] < n);
        assert(settled(s, m, v));
        assert(class_ok(s, m, v));
    }
}

/// What a choice says: the cut is realized, the inputs are its leaves, each once, in the order
/// of the pins; it arrives a cell delay after its latest input; and its flow is the cell area
/// and, for each input, the input's flow over the number of references to it. The class has
/// the arrival and the flow of its choice.
pub proof fn choice_adds_up(s: Setting, m: Mapping, v: int)
    requires
        setting_ok(s),
        mapping_ok(s, m),
        0 <= v < s.graph.size(),
        m.choices[v] is Some,
    ensures
        ({
            let c = m.choices[v]->0;
            let leaves = s.cuts[v][c.cut as int].leaves;
            let n = leaves.len();
            &&& c.cut < s.cuts[v].len()
            &&& s.cuts[v][c.cut as int].realization is Some
            &&& c.cell < s.cells.len()
            &&& permutes(c.perm, n)
            &&& c.inputs.len() == n
            &&& forall|i: int| 0 <= i < n ==> #[trigger] c.inputs[i] == leaves[c.perm[i] as int]
            &&& c.arrival == (s.plus)(
                s.cells[c.cell as int].delay,
                latest(m.arrival, c.inputs, n),
            )
            &&& c.flow == (s.plus)(
                s.cells[c.cell as int].area,
                shared_flow(s, m.flow, c.inputs, n),
            )
            &&& m.arrival[v] == c.arrival
            &&& m.flow[v] == c.flow
        }),
{
    assert(class_ok(s, m, v));
    let c = m.choices[v]->0;
    let cut = s.cuts[v][c.cut as int];
    let key = (cut.leaves.len() as usize, cut.tt);
    lemma_entry(s, key, EntryView { cell: c.cell, perm: c.perm });
}

/// The latest arrival is that of an input, and no input arrives later.
pub proof fn latest_is_the_largest(arrival: Seq<Cost>, inputs: Seq<u32>, n: nat)
    requires
        0 < n <= inputs.len(),
        forall|i: int|
            0 <= i < n ==> (arrival[#[trigger] inputs[i] as int] matches Cost::Number(k) && k
                >= NEG_INFINITY_KEY),
    ensures
        exists|i: int|
            0 <= i < n && latest(arrival, inputs, n) == arrival[#[trigger] inputs[i] as int],
        forall|i: int|
            0 <= i < n ==> !latest(arrival, inputs, n).below(
                arrival[#[trigger] inputs[i] as int],
            ),
    decreases n,
{
    let x = arrival[inputs[n - 1] as int];
    if n > 1 {
        latest_is_the_largest(arrival, inputs, (n - 1) as nat);
        let i = choose|i: int|
            0 <= i < n - 1 && latest(arrival, inputs, (n - 1) as nat) == arrival[
                #[trigger] inputs[i] as int
            ];
        assert(arrival[inputs[i] as int] is Number);
        assert(x is Number);
        if latest(arrival, inputs, (n - 1) as nat).below(x) {
            assert(latest(arrival, inputs, n) == arrival[inputs[n - 1] as int]);
        } else {
            assert(latest(arrival, inputs, n) == arrival[inputs[i] as int]);
        }
    } else {
        assert(latest(arrival, inputs, 0) == Cost::Number(NEG_INFINITY_KEY));
        assert(latest(arrival, inputs, 1) == arrival[inputs[0] as int]);
    }
}

/// The classes of the cone are those with a cell, the primary inputs, the constants and
/// those that cannot be emitted.
pub proof fn map_stats_add_up(
    s: Setting,
    m: Mapping,
    roots: Seq<u32>,
    t: MapStats,
)
    requires
        setting_ok(s),
        mapped(s, s.graph.sccs@.len()) == Ok::<Mapping, UnsoundClass>(m),
        map_stats_ok(s, m, roots, t),
    ensures
        t.num_cone_classes == t.num_mapped + t.num_pi + t.num_const + t.num_unmatched,
{
    let n = s.graph.size();
    mapping_is_consistent(s, s.graph.sccs@.len());
    let cone = cone_classes(s.cone);
    let has_cell = mapped_classes(m.choices);
    let pi = pi_classes(&s.graph, s.kernels, s.cone);
    let co = const_classes(&s.graph, s.kernels, s.cone);
    let un = unmatched_classes(s.cone, m.emit);
    let a = |v: int| has_cell(v) || pi(v);
    let b = |v: int| a(v) || co(v);
    assert forall|v: int| 0 <= v < n implies #[trigger] cone(v) == (b(v) || un(v)) && !(b(v)
        && un(v)) && !(has_cell(v) && pi(v)) && !(a(v) && co(v)) by {
        emitted_classes(s, v);
        assert(class_ok(s, m, v));
    }
    assert forall|v: int| 0 <= v < n implies !(#[trigger] has_cell(v) && pi(v)) by {
        let _ = cone(v);
    }
    assert forall|v: int| 0 <= v < n implies !(#[trigger] a(v) && co(v)) by {
        let _ = cone(v);
    }
    assert forall|v: int| 0 <= v < n implies !(#[trigger] b(v) && un(v)) by {
        let _ = cone(v);
    }
    lemma_count_split(n, a, has_cell, pi);
    lemma_count_split(n, b, a, co);
    lemma_count_split(n, cone, b, un);
}

/// The cell chosen for a class, fed by the values of its input classes, has the class's
/// value, under any class values that agree with the e-nodes.
pub proof fn choice_computes_class(
    s: Setting,
    m: Mapping,
    params: CutParams,
    st: Sweep,
    a: spec_fn(u32) -> bool,
    v: int,
)
    requires
        setting_ok(s),
        mapping_ok(s, m),
        sweep_ok(&s.graph, params, s.kernels, s.cone, st),
        st.cuts == s.cuts,
        reachable(&s.graph, s.kernels, a),
        0 <= v < s.graph.size(),
        m.choices[v] is Some,
    ensures
        bit(
            s.cells[m.choices[v]->0.cell as int].tt,
            pack(
                m.choices[v]->0.inputs.len(),
                |i: int| a(m.choices[v]->0.inputs[i]),
            ) as int,
        ) == a(v as u32),
{
    assert(class_ok(s, m, v));
    let c = m.choices[v]->0;
    assert(choice_ok(s, m, v, c));
    let cut = s.cuts[v][c.cut as int];
    let key = (cut.leaves.len() as usize, cut.tt);
    let e = EntryView { cell: c.cell, perm: c.perm };
    let n = cut.leaves.len();
    index_entries_match(s.cells, s.cells.len());
    assert(belongs(s.cells, key, e));
    let p = choose|p: Seq<u8>|
        #[trigger] orders_first(p, key.0 as nat) && key == variant_key(s.cells, e.cell as int, p)
            && e == variant_entry(s.cells, e.cell as int, p);
    let tt = s.cells[c.cell as int].tt;
    fed_cell_computes_cut(tt, n, p, cut, a);
    cuts_are_sound(&s.graph, params, s.kernels, s.cone, st, a, v, c.cut as int);
    let fed = |i: int| a(cut.leaves[inverted(p, n)[i] as int]);
    let given = |i: int| a(c.inputs[i]);
    assert forall|i: int| 0 <= i < n implies #[trigger] fed(i) == #[trigger] given(i) by {
        assert(c.inputs[i] == cut.leaves[c.perm[i] as int]);
    }
    lemma_pack_ext(n, fed, given);
    lemma_pack_ext(n, given, |i: int| a(m.choices[v]->0.inputs[i]));
}

/// The scores of an offer are numbers.
pub open spec fn numeric_score(c: ChoiceView) -> bool {
    c.arrival is Number && c.flow is Number
}

/// The offers of the index's entries on the first `n` cuts of class `v` have numeric
/// scores.
pub open spec fn numeric_offers(s: Setting, m: Mapping, v: int, n: nat) -> bool {
    forall|ci: int|
        0 <= ci < n && matchable(#[trigger] s.cuts[v][ci]) && s.index.dom().contains(
            (s.cuts[v][ci].leaves.len() as usize, s.cuts[v][ci].tt),
        ) ==> {
            let slot = s.index[(s.cuts[v][ci].leaves.len() as usize, s.cuts[v][ci].tt)];
            &&& offer_of(s, m, v, ci, slot.0) matches Some(c) ==> numeric_score(c)
            &&& offer_of(s, m, v, ci, slot.1) matches Some(c) ==> numeric_score(c)
        }
}

proof fn lemma_score_trans(d: bool, a: ChoiceView, b: ChoiceView, c: ChoiceView)
    requires
        score_less(d, a, b),
        score_less(d, b, c),
        numeric_score(b),
    ensures
        score_less(d, a, c),
{
}

/// Where all scores are numbers, the choice is the best: no offer of an entry of the index
/// on a matchable cut of the class ranks before it.
pub proof fn choice_is_best(s: Setting, m: Mapping, v: int, n: nat, ci: int, e: EntryView)
    requires
        0 <= ci < n,
        numeric_offers(s, m, v, n),
        matchable(s.cuts[v][ci]),
        s.index.dom().contains((s.cuts[v][ci].leaves.len() as usize, s.cuts[v][ci].tt)),
        ({
            let slot = s.index[(s.cuts[v][ci].leaves.len() as usize, s.cuts[v][ci].tt)];
            e == slot.0 || e == slot.1
        }),
        offer_of(s, m, v, ci, e) is Some,
    ensures
        best_choice(s, m, v, n) is Some,
        numeric_score(best_choice(s, m, v, n)->0),
        !score_less(s.delay_first, offer_of(s, m, v, ci, e)->0, best_choice(s, m, v, n)->0),
    decreases n,
{
    let x = offer_of(s, m, v, ci, e)->0;
    let prev = best_choice(s, m, v, (n - 1) as nat);
    if ci < n - 1 {
        choice_is_best(s, m, v, (n - 1) as nat, ci, e);
    } else {
        lemma_best_numeric(s, m, v, (n - 1) as nat);
    }
    let c = s.cuts[v][n - 1];
    let key = (c.leaves.len() as usize, c.tt);
    if matchable(c) && s.index.dom().contains(key) {
        let (ba, bd) = s.index[key];
        let oa = offer_of(s, m, v, n - 1, ba);
        let od = offer_of(s, m, v, n - 1, bd);
        let mid = better(s.delay_first, prev, oa);
        if oa is Some {
            assert(numeric_score(oa->0));
        }
        if od is Some {
            assert(numeric_score(od->0));
        }
        assert(numeric_score(x));
        if prev is Some && oa is Some && score_less(s.delay_first, x, oa->0) && score_less(
            s.delay_first,
            oa->0,
            prev->0,
        ) {
            lemma_score_trans(s.delay_first, x, oa->0, prev->0);
        }
        if mid is Some && od is Some && score_less(s.delay_first, x, od->0) && score_less(
            s.delay_first,
            od->0,
            mid->0,
        ) {
            lemma_score_trans(s.delay_first, x, od->0, mid->0);
        }
    }
}

proof fn lemma_best_numeric(s: Setting, m: Mapping, v: int, n: nat)
    requires
        numeric_offers(s, m, v, n),
    ensures
        best_choice(s, m, v, n) matches Some(c) ==> numeric_score(c),
    decreases n,
{
    if n > 0 {
        lemma_best_numeric(s, m, v, (n - 1) as nat);
        let c = s.cuts[v][n - 1];
        let key = (c.leaves.len() as usize, c.tt);
        if matchable(c) && s.index.dom().contains(key) {
            let (ba, bd) = s.index[key];
            let oa = offer_of(s, m, v, n - 1, ba);
            let od = offer_of(s, m, v, n - 1, bd);
            if oa is Some {
                assert(numeric_score(oa->0));
            }
            if od is Some {
                assert(numeric_score(od->0));
            }
        }
    }
}

// ------------------------------------------------------------- references to classes

/// How often the `i`-th e-node of class `v` refers to class `c`.
pub open spec fn enode_refs(graph: &ClassGraph, v: int, c: u32) -> spec_fn(int) -> nat {
    |i: int|
        {
            let e = graph.enodes_of@[v]@[i] as int;
            child_refs(graph.children(e), c, graph.children(e).len())
        }
}

/// How often `c` occurs among the first `n` children.
pub open spec fn child_refs(children: Seq<u32>, c: u32, n: nat) -> nat
    decreases n,
{
    if n == 0 {
        0
    } else {
        child_refs(children, c, (n - 1) as nat) + if children[n - 1] == c {
            1nat
        } else {
            0
        }
    }
}

/// How often the e-nodes of a class of the cone refer to class `c`.
pub open spec fn class_refs(graph: &ClassGraph, cone: Seq<bool>, c: u32) -> spec_fn(int) -> nat {
    |v: int|
        if cone[v] {
            total(graph.enodes_of@[v]@.len(), enode_refs(graph, v, c))
        } else {
            0
        }
}

/// How often the e-nodes of the cone refer to class `c`.
pub open spec fn ref_count(graph: &ClassGraph, cone: Seq<bool>, c: u32) -> nat {
    total(graph.size(), class_refs(graph, cone, c))
}

/// `n`, or the largest 32-bit number if that is smaller.
pub open spec fn saturated32(n: nat) -> u32 {
    if n > u32::MAX {
        u32::MAX
    } else {
        n as u32
    }
}

/// The reference counts of all classes.
pub open spec fn all_refs(graph: &ClassGraph, cone: Seq<bool>) -> Seq<u32> {
    Seq::new(graph.size(), |c: int| saturated32(ref_count(graph, cone, c as u32)))
}

/// Counts how often the e-nodes of the cone refer to each class.
pub fn reference_counts(graph: &ClassGraph, cone: &Vec<bool>) -> (refs: Vec<u32>)
    requires
        graph.wf(),
        cone@.len() == graph.size(),
    ensures
        refs@ == all_refs(graph, cone@),
{
    let n: usize = graph.classes.len();
    let mut refs: Vec<u32> = Vec::new();
    while refs.len() < n
        invariant
            refs@.len() <= n,
            forall|c: int| 0 <= c < refs@.len() ==> #[trigger] refs@[c] == 0,
        decreases n - refs@.len(),
    {
        refs.push(0);
    }
    let mut v: usize = 0;
    while v < n
        invariant
            v <= n,
            n == graph.size(),
            graph.wf(),
            cone@.len() == n,
            refs@.len() == n,
            forall|c: int|
                0 <= c < n ==> #[trigger] refs@[c] == saturated32(
                    total(v as nat, class_refs(graph, cone@, c as u32)),
                ),
        decreases n - v,
    {
        if cone[v] {
            let ens: &Vec<usize> = &graph.enodes_of[v];
            let mut i: usize = 0;
            while i < ens.len()
                invariant
                    i <= ens@.len(),
                    v < n,
                    n == graph.size(),
                    graph.wf(),
                    cone@.len() == n,
                    cone@[v as int],
                    *ens == graph.enodes_of@[v as int],
                    refs@.len() == n,
                    forall|c: int|
                        0 <= c < n ==> #[trigger] refs@[c] == saturated32(
                            total(v as nat, class_refs(graph, cone@, c as u32)) + total(
                                i as nat,
                                enode_refs(graph, v as int, c as u32),
                            ),
                        ),
                decreases ens@.len() - i,
            {
                assert(graph.enodes_of@[v as int]@[i as int] < graph.enodes@.len());
                let ei: usize = ens[i];
                let ch: &Vec<u32> = &graph.enodes[ei].ch_eq;
                let mut j: usize = 0;
                while j < ch.len()
                    invariant
                        j <= ch@.len(),
                        i < ens@.len(),
                        v < n,
                        n == graph.size(),
                        graph.wf(),
                        ei < graph.enodes@.len(),
                        *ch == graph.enodes@[ei as int].ch_eq,
                        refs@.len() == n,
                        forall|c: int|
                            0 <= c < n ==> #[trigger] refs@[c] == saturated32(
                                total(v as nat, class_refs(graph, cone@, c as u32)) + total(
                                    i as nat,
                                    enode_refs(graph, v as int, c as u32),
                                ) + child_refs(ch@, c as u32, j as nat),
                            ),
                    decreases ch@.len() - j,
                {
                    assert(graph.enodes@[ei as int].ch_eq@[j as int] < graph.size());
                    let c: usize = ch[j] as usize;
                    let more: u32 = refs[c].saturating_add(1);
                    refs.set(c, more);
                    j = j + 1;
                }
                i = i + 1;
            }
        }
        v = v + 1;
    }
    assert(refs@ =~= all_refs(graph, cone@));
    refs
}

// -------------------------------------------------------------------- arithmetic

/// `f` answers every call, and equal arguments get equal answers.
pub open spec fn share_total<F: Fn(Cost, u32) -> Cost>(f: F) -> bool {
    &&& forall|c: Cost, n: u32| #[trigger] f.requires((c, n))
    &&& forall|c: Cost, n: u32, x: Cost, y: Cost|
        #[trigger] f.ensures((c, n), x) && #[trigger] f.ensures((c, n), y) ==> x == y
}

/// What `f` answers.
pub open spec fn share_fn<F: Fn(Cost, u32) -> Cost>(f: F) -> spec_fn(Cost, u32) -> Cost {
    |c: Cost, n: u32| choose|x: Cost| f.ensures((c, n), x)
}

/// `f` answers every call, and equal arguments get equal answers.
pub open spec fn plus_total<F: Fn(Cost, Cost) -> Cost>(f: F) -> bool {
    &&& forall|a: Cost, b: Cost| #[trigger] f.requires((a, b))
    &&& forall|a: Cost, b: Cost, x: Cost, y: Cost|
        #[trigger] f.ensures((a, b), x) && #[trigger] f.ensures((a, b), y) ==> x == y
}

/// What `f` answers.
pub open spec fn plus_fn<F: Fn(Cost, Cost) -> Cost>(f: F) -> spec_fn(Cost, Cost) -> Cost {
    |a: Cost, b: Cost| choose|x: Cost| f.ensures((a, b), x)
}

fn call_share<F: Fn(Cost, u32) -> Cost>(f: &F, c: Cost, n: u32) -> (r: Cost)
    requires
        share_total(*f),
    ensures
        r == share_fn(*f)(c, n),
{
    let r: Cost = f(c, n);
    proof {
        assert(f.ensures((c, n), r));
        let x = share_fn(*f)(c, n);
        assert(f.ensures((c, n), x));
    }
    r
}

pub(crate) fn call_plus<F: Fn(Cost, Cost) -> Cost>(f: &F, a: Cost, b: Cost) -> (r: Cost)
    requires
        plus_total(*f),
    ensures
        r == plus_fn(*f)(a, b),
{
    let r: Cost = f(a, b);
    proof {
        assert(f.ensures((a, b), r));
        let x = plus_fn(*f)(a, b);
        assert(f.ensures((a, b), x));
    }
    r
}

// -------------------------------------------------------------------- execution

/// Why a mapping failed.
#[derive(Clone, Copy, Debug, PartialEq, Eq, Structural)]
pub enum MapError {
    /// The objective is neither `delay` nor `area`.
    Objective,
    /// A cell has no pins or more than four.
    Arity(ArityError),
    /// A class holds two constants that differ.
    Unsound(UnsoundClass),
    /// Some root classes cannot be emitted.
    Unmappable { bad: usize, roots: usize, unmatched: usize },
}

/// Statistics of a mapping.
#[derive(Clone, Copy, Debug)]
pub struct MapStats {
    pub num_classes: usize,
    pub num_cone_classes: usize,
    /// Classes with a cell.
    pub num_mapped: usize,
    /// Classes of the cone that cannot be emitted.
    pub num_unmatched: usize,
    pub num_pi: usize,
    pub num_const: usize,
    pub max_root_arrival: Cost,
    pub total_flow_at_roots: Cost,
}

/// A mapping.
#[derive(Debug)]
pub struct MapOutput {
    pub arrival: Vec<Cost>,
    pub flow: Vec<Cost>,
    pub choices: Vec<Option<Choice>>,
    pub emit_ok: Vec<bool>,
    pub stats: MapStats,
}

/// The setting of a mapping.
pub open spec fn setting<S: Fn(Cost, u32) -> Cost, P: Fn(Cost, Cost) -> Cost>(
    graph: &ClassGraph,
    kernels: Seq<Kernel>,
    cone: Seq<bool>,
    cuts: Seq<Seq<CutView>>,
    cells: Seq<CellSpec>,
    delay_first: bool,
    share: S,
    plus: P,
) -> Setting {
    Setting {
        graph: *graph,
        kernels,
        cone,
        cuts,
        cells,
        index: indexed(cells, cells.len()),
        refs: all_refs(graph, cone),
        delay_first,
        share: share_fn(share),
        plus: plus_fn(plus),
    }
}

/// The classes of the cone that cannot be emitted.
pub open spec fn unmatched_classes(cone: Seq<bool>, emit: Seq<bool>) -> spec_fn(int) -> bool {
    |v: int| cone[v] && !emit[v]
}

/// The classes with a cell.
pub open spec fn mapped_classes(choices: Seq<Option<ChoiceView>>) -> spec_fn(int) -> bool {
    |v: int| choices[v] is Some
}

/// The roots that cannot be emitted.
pub open spec fn bad_roots(emit: Seq<bool>, roots: Seq<u32>) -> spec_fn(int) -> bool {
    |i: int| !emit[roots[i] as int]
}

/// The latest arrival at the first `n` roots, at least zero.
pub open spec fn root_arrival(arrival: Seq<Cost>, roots: Seq<u32>, n: nat) -> Cost
    decreases n,
{
    if n == 0 {
        Cost::Number(ZERO_KEY)
    } else {
        root_arrival(arrival, roots, (n - 1) as nat).larger(arrival[roots[n - 1] as int])
    }
}

/// The sum of the flows at the first `n` roots.
pub open spec fn root_flow(
    plus: spec_fn(Cost, Cost) -> Cost,
    flow: Seq<Cost>,
    roots: Seq<u32>,
    n: nat,
) -> Cost
    decreases n,
{
    if n == 0 {
        Cost::Number(ZERO_KEY)
    } else {
        plus(root_flow(plus, flow, roots, (n - 1) as nat), flow[roots[n - 1] as int])
    }
}

/// What each number says of the final state.
pub open spec fn map_stats_ok(
    s: Setting,
    m: Mapping,
    roots: Seq<u32>,
    t: MapStats,
) -> bool {
    let n = s.graph.size();
    &&& t.num_classes == n
    &&& t.num_cone_classes == count(n, cone_classes(s.cone))
    &&& t.num_mapped == count(n, mapped_classes(m.choices))
    &&& t.num_unmatched == count(n, unmatched_classes(s.cone, m.emit))
    &&& t.num_pi == count(n, pi_classes(&s.graph, s.kernels, s.cone))
    &&& t.num_const == count(n, const_classes(&s.graph, s.kernels, s.cone))
    &&& t.max_root_arrival == root_arrival(m.arrival, roots, roots.len())
    &&& t.total_flow_at_roots == root_flow(s.plus, m.flow, roots, roots.len())
}

impl MapOutput {
    /// The output is the given final state.
    pub open spec fn shows(&self, m: Mapping) -> bool {
        &&& self.arrival@ == m.arrival
        &&& self.flow@ == m.flow
        &&& choice_views(self.choices@) == m.choices
        &&& self.emit_ok@ == m.emit
    }
}

/// The arguments of a mapping in progress.
struct Inputs<'a, S: Fn(Cost, u32) -> Cost, P: Fn(Cost, Cost) -> Cost> {
    graph: &'a ClassGraph,
    kernels: &'a Vec<Kernel>,
    cone: &'a Vec<bool>,
    cuts: &'a Vec<Vec<Cut>>,
    cells: &'a Vec<CellSpec>,
    index: &'a MatchIndex,
    refs: &'a Vec<u32>,
    delay_first: bool,
    share: &'a S,
    plus: &'a P,
}

impl<'a, S: Fn(Cost, u32) -> Cost, P: Fn(Cost, Cost) -> Cost> Inputs<'a, S, P> {
    /// The inputs are those of the setting `s`.
    spec fn shows(&self, s: Setting) -> bool {
        &&& s.graph == *self.graph
        &&& s.kernels == self.kernels@
        &&& s.cone == self.cone@
        &&& s.cuts == cut_lists(self.cuts@)
        &&& s.cells == self.cells@
        &&& s.index == self.index.slots()
        &&& self.index.wf()
        &&& s.refs == self.refs@
        &&& s.delay_first == self.delay_first
        &&& s.share == share_fn(*self.share)
        &&& s.plus == plus_fn(*self.plus)
        &&& share_total(*self.share)
        &&& plus_total(*self.plus)
        &&& setting_ok(s)
    }

    /// What an entry makes of a cut, if its inputs can be emitted.
    fn offer(
        &self,
        t: &Table,
        v: usize,
        ci: usize,
        e: &Entry,
        Ghost(s): Ghost<Setting>,
        Ghost(m): Ghost<Mapping>,
    ) -> (r: Option<Choice>)
        requires
            self.shows(s),
            t.shows(m),
            mapping_ok(s, m),
            v < s.graph.size(),
            ci < s.cuts[v as int].len(),
            matchable(s.cuts[v as int][ci as int]),
            s.index.dom().contains(
                (
                    s.cuts[v as int][ci as int].leaves.len() as usize,
                    s.cuts[v as int][ci as int].tt,
                ),
            ),
            ({
                let slot = s.index[(
                    s.cuts[v as int][ci as int].leaves.len() as usize,
                    s.cuts[v as int][ci as int].tt,
                )];
                e@ == slot.0 || e@ == slot.1
            }),
        ensures
            choice_view(r) == offer_of(s, m, v as int, ci as int, e@),
    {
        let ghost lists = cut_lists(self.cuts@);
        assert(lists[v as int] == cut_seq(self.cuts@[v as int]@));
        assert(lists[v as int][ci as int] == self.cuts@[v as int]@[ci as int]@);
        let leaves: &Vec<u32> = &self.cuts[v][ci].leaves;
        let arity: usize = leaves.len();
        let ghost want = pin_inputs(leaves@, e.perm@);
        let mut inputs: Vec<u32> = Vec::new();
        let mut last: Cost = Cost::Number(NEG_INFINITY_KEY);
        let mut shares: Cost = Cost::zero();
        while inputs.len() < arity
            invariant
                inputs@.len() <= arity,
                arity == leaves@.len(),
                self.shows(s),
                t.shows(m),
                mapping_ok(s, m),
                v < s.graph.size(),
                ci < s.cuts[v as int].len(),
                matchable(s.cuts[v as int][ci as int]),
                s.index.dom().contains(
                    (
                        s.cuts[v as int][ci as int].leaves.len() as usize,
                        s.cuts[v as int][ci as int].tt,
                    ),
                ),
                ({
                    let slot = s.index[(
                        s.cuts[v as int][ci as int].leaves.len() as usize,
                        s.cuts[v as int][ci as int].tt,
                    )];
                    e@ == slot.0 || e@ == slot.1
                }),
                leaves@ == s.cuts[v as int][ci as int].leaves,
                want == pin_inputs(leaves@, e.perm@),
                forall|i: int| 0 <= i < inputs@.len() ==> #[trigger] inputs@[i] == want[i],
                last == latest(m.arrival, want, inputs@.len()),
                shares == shared_flow(s, m.flow, want, inputs@.len()),
                forall|i: int| 0 <= i < inputs@.len() ==> m.emit[#[trigger] want[i] as int],
            decreases arity - inputs@.len(),
        {
            let i: usize = inputs.len();
            proof {
                assert(EntryView { cell: e.cell, perm: e.perm@ } == e@);
                lemma_inputs(s, v as int, ci as int, e.cell, e.perm@, i as int);
            }
            let x: u32 = leaves[e.perm[i] as usize];
            assert(want[i as int] == x);
            if !t.emit[x as usize] {
                assert(!m.emit[want[i as int] as int]);
                return None;
            }
            inputs.push(x);
            last = last.max(t.arrival[x as usize]);
            let refs: u32 = self.refs[x as usize];
            let many: u32 = if refs > 1 {
                refs
            } else {
                1
            };
            let part: Cost = call_share(self.share, t.flow[x as usize], many);
            shares = call_plus(self.plus, shares, part);
        }
        proof {
            assert(inputs@ =~= want);
            lemma_entry(
                s,
                (
                    s.cuts[v as int][ci as int].leaves.len() as usize,
                    s.cuts[v as int][ci as int].tt,
                ),
                e@,
            );
        }
        let cell: &CellSpec = &self.cells[e.cell];
        let arrival: Cost = call_plus(self.plus, cell.delay, last);
        let flow: Cost = call_plus(self.plus, cell.area, shares);
        Some(Choice { cut: ci, cell: e.cell, perm: e.perm, inputs, arrival, flow })
    }

    /// The better of two choices, the earlier one on a tie.
    fn keep_better(&self, best: Option<Choice>, c: Option<Choice>) -> (r: Option<Choice>)
        ensures
            choice_view(r) == better(self.delay_first, choice_view(best), choice_view(c)),
    {
        match (best, c) {
            (b, None) => b,
            (None, x) => x,
            (Some(b), Some(x)) => if choice_less(self.delay_first, &x, &b) {
                Some(x)
            } else {
                Some(b)
            },
        }
    }

    /// The best choice for class `v`.
    fn choose_cell(
        &self,
        t: &Table,
        v: usize,
        Ghost(s): Ghost<Setting>,
        Ghost(m): Ghost<Mapping>,
    ) -> (r: Option<Choice>)
        requires
            self.shows(s),
            t.shows(m),
            mapping_ok(s, m),
            v < s.graph.size(),
        ensures
            choice_view(r) == best_choice(s, m, v as int, s.cuts[v as int].len()),
    {
        let ghost lists = cut_lists(self.cuts@);
        assert(lists[v as int] == cut_seq(self.cuts@[v as int]@));
        let list: &Vec<Cut> = &self.cuts[v];
        let mut best: Option<Choice> = None;
        let mut ci: usize = 0;
        while ci < list.len()
            invariant
                ci <= list@.len(),
                self.shows(s),
                t.shows(m),
                mapping_ok(s, m),
                v < s.graph.size(),
                s.cuts[v as int] == cut_seq(list@),
                choice_view(best) == best_choice(s, m, v as int, ci as nat),
            decreases list@.len() - ci,
        {
            let c: &Cut = &list[ci];
            assert(s.cuts[v as int][ci as int] == c@);
            let arity: usize = c.leaves.len();
            if c.realization.is_some() && arity > 0 && arity <= 4 {
                match self.index.lookup(arity, c.tt) {
                    None => {},
                    Some((ba, bd)) => {
                        let oa: Option<Choice> = self.offer(t, v, ci, &ba, Ghost(s), Ghost(m));
                        best = self.keep_better(best, oa);
                        let od: Option<Choice> = self.offer(t, v, ci, &bd, Ghost(s), Ghost(m));
                        best = self.keep_better(best, od);
                    },
                }
            }
            ci = ci + 1;
        }
        best
    }

    /// Visits class `v`.
    fn visit_class(
        &self,
        t: &mut Table,
        v: u32,
        Ghost(s): Ghost<Setting>,
        Ghost(m): Ghost<Mapping>,
    ) -> (r: Result<bool, UnsoundClass>)
        requires
            self.shows(s),
            old(t).shows(m),
            mapping_ok(s, m),
            v < s.graph.size(),
        ensures
            match visit(s, m, v) {
                Err(e) => r == Err::<bool, UnsoundClass>(e),
                Ok((next, more)) => r == Ok::<bool, UnsoundClass>(more) && final(t).shows(next),
            },
    {
        let i: usize = v as usize;
        if t.done[i] {
            return Ok(false);
        }
        if !self.cone[i] {
            t.done.set(i, true);
            return Ok(false);
        }
        let kind: ClassKind = match class_kind(self.graph, self.kernels, i) {
            Ok(k) => k,
            Err(e) => {
                return Err(e);
            },
        };
        match kind {
            ClassKind::Internal => match self.choose_cell(t, i, Ghost(s), Ghost(m)) {
                None => Ok(false),
                Some(c) => {
                    let arrival: Cost = c.arrival;
                    let flow: Cost = c.flow;
                    t.finish(i, Some(c), arrival, flow, Ghost(m));
                    Ok(true)
                },
            },
            _ => {
                t.finish(i, None, Cost::zero(), Cost::zero(), Ghost(m));
                Ok(true)
            },
        }
    }

    /// Passes over component `si` until one makes no progress.
    fn run_component(
        &self,
        t: &mut Table,
        si: usize,
        Ghost(s): Ghost<Setting>,
        Ghost(m): Ghost<Mapping>,
    ) -> (r: Result<(), UnsoundClass>)
        requires
            self.shows(s),
            old(t).shows(m),
            mapping_ok(s, m),
            si < s.graph.sccs@.len(),
        ensures
            match passes(s, si as int, m, s.graph.sccs@[si as int]@.len() + 1) {
                Err(e) => r == Err::<(), UnsoundClass>(e),
                Ok(next) => r is Ok && final(t).shows(next),
            },
    {
        let comp: &Vec<u32> = &self.graph.sccs[si];
        let len: usize = comp.len();
        let ghost mut cur = m;
        let ghost mut fuel = (len + 1) as nat;
        let mut left: usize = len;
        let mut more: bool = true;
        while more
            invariant
                self.shows(s),
                mapping_ok(s, cur),
                si < s.graph.sccs@.len(),
                *comp == s.graph.sccs@[si as int],
                len == comp@.len(),
                left <= len,
                more ==> fuel == left + 1,
                t.shows(cur),
                passes(s, si as int, m, (len + 1) as nat) == if more {
                    passes(s, si as int, cur, fuel)
                } else {
                    Ok(cur)
                },
            decreases (if more { 1int } else { 0 }) + left,
        {
            let ghost from = cur;
            let mut progress: bool = false;
            let mut i: usize = 0;
            while i < len
                invariant
                    i <= len,
                    self.shows(s),
                    mapping_ok(s, cur),
                    si < s.graph.sccs@.len(),
                    *comp == s.graph.sccs@[si as int],
                    len == comp@.len(),
                    t.shows(cur),
                    pass(s, si as int, from, i as nat) == Ok::<(Mapping, bool), UnsoundClass>(
                        (cur, progress),
                    ),
                    fuel > 0,
                    passes(s, si as int, m, (len + 1) as nat) == passes(s, si as int, from, fuel),
                decreases len - i,
            {
                let v: u32 = comp[i];
                assert(s.graph.sccs@[si as int]@[i as int] < s.graph.size());
                let ghost outcome = visit(s, cur, v);
                match self.visit_class(t, v, Ghost(s), Ghost(cur)) {
                    Err(e) => {
                        proof {
                            lemma_pass_err(s, si as int, from, (i + 1) as nat, len as nat);
                        }
                        return Err(e);
                    },
                    Ok(b) => {
                        proof {
                            lemma_visit_ok(s, cur, v);
                            cur = outcome->Ok_0.0;
                        }
                        progress = progress || b;
                    },
                }
                i = i + 1;
            }
            if progress && left > 0 {
                left = left - 1;
                proof {
                    fuel = (fuel - 1) as nat;
                }
            } else {
                more = false;
                proof {
                    if progress {
                        assert(passes(s, si as int, cur, 0) == Ok::<Mapping, UnsoundClass>(cur));
                    }
                }
            }
        }
        Ok(())
    }

    /// Runs the mapping over all components.
    fn run(&self, Ghost(s): Ghost<Setting>) -> (r: Result<Table, UnsoundClass>)
        requires
            self.shows(s),
        ensures
            match mapped(s, s.graph.sccs@.len()) {
                Err(e) => r matches Err(x) && x == e,
                Ok(m) => r matches Ok(t) && t.shows(m),
            },
    {
        let n: usize = self.graph.classes.len();
        let mut t: Table = Table {
            arrival: Vec::new(),
            flow: Vec::new(),
            choices: Vec::new(),
            emit: Vec::new(),
            done: Vec::new(),
        };
        while t.done.len() < n
            invariant
                n == s.graph.size(),
                t.done@.len() <= n,
                t.arrival@.len() == t.done@.len(),
                t.flow@.len() == t.done@.len(),
                t.choices@.len() == t.done@.len(),
                t.emit@.len() == t.done@.len(),
                forall|v: int|
                    0 <= v < t.done@.len() ==> !(#[trigger] t.done@[v]) && !t.emit@[v]
                        && t.choices@[v] is None && t.arrival@[v] == Cost::Number(INFINITY_KEY)
                        && t.flow@[v] == Cost::Number(INFINITY_KEY),
            decreases n - t.done@.len(),
        {
            t.arrival.push(Cost::infinity());
            t.flow.push(Cost::infinity());
            t.choices.push(None);
            t.emit.push(false);
            t.done.push(false);
        }
        let ghost mut m = start(s);
        proof {
            assert forall|v: int| 0 <= v < n implies t.emit@[v] == m.emit[v] && choice_views(
                t.choices@,
            )[v] == m.choices[v] && t.arrival@[v] == m.arrival[v] && t.flow@[v] == m.flow[v] by {
                assert(!t.done@[v]);
            }
            assert(t.arrival@ =~= m.arrival);
            assert(t.flow@ =~= m.flow);
            assert(t.emit@ =~= m.emit);
            assert(t.done@ =~= m.done);
            assert(choice_views(t.choices@) =~= m.choices);
            mapping_is_consistent(s, 0);
        }
        let mut si: usize = 0;
        while si < self.graph.sccs.len()
            invariant
                si <= s.graph.sccs@.len(),
                self.shows(s),
                mapping_ok(s, m),
                mapped(s, si as nat) == Ok::<Mapping, UnsoundClass>(m),
                t.shows(m),
            decreases s.graph.sccs@.len() - si,
        {
            match self.run_component(&mut t, si, Ghost(s), Ghost(m)) {
                Err(e) => {
                    proof {
                        lemma_mapped_err(s, (si + 1) as nat, s.graph.sccs@.len());
                    }
                    return Err(e);
                },
                Ok(()) => {
                    proof {
                        mapping_is_consistent(s, (si + 1) as nat);
                        m = mapped(s, (si + 1) as nat)->Ok_0;
                    }
                },
            }
            si = si + 1;
        }
        Ok(t)
    }
}

/// `a` ranks strictly before `b`.
fn choice_less(delay_first: bool, a: &Choice, b: &Choice) -> (r: bool)
    ensures
        r == score_less(delay_first, a@, b@),
{
    let (a1, a2): (Cost, Cost) = if delay_first {
        (a.arrival, a.flow)
    } else {
        (a.flow, a.arrival)
    };
    let (b1, b2): (Cost, Cost) = if delay_first {
        (b.arrival, b.flow)
    } else {
        (b.flow, b.arrival)
    };
    if a1.equal(b1) {
        if a2.equal(b2) {
            fnv_inputs(&a.inputs) < fnv_inputs(&b.inputs)
        } else {
            a2.less(b2)
        }
    } else {
        a1.less(b1)
    }
}

proof fn lemma_pass_err(s: Setting, si: int, m: Mapping, n: nat, k: nat)
    requires
        n <= k,
        pass(s, si, m, n) is Err,
    ensures
        pass(s, si, m, k) == pass(s, si, m, n),
    decreases k,
{
    if n < k {
        lemma_pass_err(s, si, m, n, (k - 1) as nat);
    }
}

proof fn lemma_mapped_err(s: Setting, n: nat, k: nat)
    requires
        n <= k,
        mapped(s, n) is Err,
    ensures
        mapped(s, k) == mapped(s, n),
    decreases k,
{
    if n < k {
        lemma_mapped_err(s, n, (k - 1) as nat);
    }
}

/// The state of a mapping as it runs.
struct Table {
    arrival: Vec<Cost>,
    flow: Vec<Cost>,
    choices: Vec<Option<Choice>>,
    emit: Vec<bool>,
    done: Vec<bool>,
}

impl Table {
    spec fn shows(&self, m: Mapping) -> bool {
        &&& self.arrival@ == m.arrival
        &&& self.flow@ == m.flow
        &&& choice_views(self.choices@) == m.choices
        &&& self.emit@ == m.emit
        &&& self.done@ == m.done
    }

    fn finish(
        &mut self,
        v: usize,
        choice: Option<Choice>,
        arrival: Cost,
        flow: Cost,
        Ghost(m): Ghost<Mapping>,
    )
        requires
            old(self).shows(m),
            v < m.arrival.len(),
            v < m.flow.len(),
            v < m.choices.len(),
            v < m.emit.len(),
            v < m.done.len(),
        ensures
            final(self).shows(m.finish(v as int, choice_view(choice), arrival, flow)),
    {
        let ghost cv = choice_view(choice);
        self.arrival.set(v, arrival);
        self.flow.set(v, flow);
        self.choices.set(v, choice);
        self.emit.set(v, true);
        self.done.set(v, true);
        assert(choice_views(self.choices@) =~= m.choices.update(v as int, cv));
    }
}

/// What the mapping needs of the cut lists: the leaves are classes of the graph.
pub open spec fn cuts_fit(graph: &ClassGraph, cuts: Seq<Seq<CutView>>) -> bool {
    &&& cuts.len() == graph.size()
    &&& forall|v: int, i: int, j: int|
        0 <= v < graph.size() && 0 <= i < cuts[v].len() && 0 <= j < cuts[v][i].leaves.len()
            ==> #[trigger] cuts[v][i].leaves[j] < graph.size()
}

/// The cut lists of an enumeration fit the graph.
pub proof fn enumerated_cuts_fit(
    graph: &ClassGraph,
    params: CutParams,
    kernels: Seq<Kernel>,
    cone: Seq<bool>,
    st: Sweep,
)
    requires
        sweep_ok(graph, params, kernels, cone, st),
    ensures
        cuts_fit(graph, st.cuts),
{
    assert forall|v: int, i: int, j: int|
        0 <= v < graph.size() && 0 <= i < st.cuts[v].len() && 0 <= j
            < st.cuts[v][i].leaves.len() implies #[trigger] st.cuts[v][i].leaves[j] < graph.size() by {
        assert(list_ok(graph, params, kernels, cone, st.cuts, st.rank, v));
        let c = st.cuts[v][i];
        assert(c.leaves[j] < st.cuts.len());
    }
}

/// Statistics by class of a finished mapping.
fn count_classes(
    graph: &ClassGraph,
    kernels: &Vec<Kernel>,
    cone: &Vec<bool>,
    t: &Table,
    Ghost(s): Ghost<Setting>,
    Ghost(m): Ghost<Mapping>,
) -> (r: MapStats)
    requires
        s.graph == *graph,
        s.kernels == kernels@,
        s.cone == cone@,
        setting_ok(s),
        mapping_ok(s, m),
        t.shows(m),
    ensures
        r.num_classes == graph.size(),
        r.num_cone_classes == count(graph.size(), cone_classes(cone@)),
        r.num_mapped == count(graph.size(), mapped_classes(m.choices)),
        r.num_unmatched == count(graph.size(), unmatched_classes(cone@, m.emit)),
        r.num_pi == count(graph.size(), pi_classes(graph, kernels@, cone@)),
        r.num_const == count(graph.size(), const_classes(graph, kernels@, cone@)),
{
    let n: usize = graph.classes.len();
    let mut in_cone: usize = 0;
    let mut mapped_n: usize = 0;
    let mut unmatched: usize = 0;
    let mut pis: usize = 0;
    let mut consts: usize = 0;
    let mut v: usize = 0;
    while v < n
        invariant
            v <= n,
            n == graph.size(),
            s.graph == *graph,
            s.kernels == kernels@,
            s.cone == cone@,
            setting_ok(s),
            mapping_ok(s, m),
            t.shows(m),
            in_cone == count(v as nat, cone_classes(cone@)),
            mapped_n == count(v as nat, mapped_classes(m.choices)),
            unmatched == count(v as nat, unmatched_classes(cone@, m.emit)),
            pis == count(v as nat, pi_classes(graph, kernels@, cone@)),
            consts == count(v as nat, const_classes(graph, kernels@, cone@)),
        decreases n - v,
    {
        proof {
            lemma_count_bound(v as nat, cone_classes(cone@));
            lemma_count_bound(v as nat, mapped_classes(m.choices));
            lemma_count_bound(v as nat, unmatched_classes(cone@, m.emit));
            lemma_count_bound(v as nat, pi_classes(graph, kernels@, cone@));
            lemma_count_bound(v as nat, const_classes(graph, kernels@, cone@));
            assert(choice_views(t.choices@)[v as int] == choice_view(t.choices@[v as int]));
        }
        if t.choices[v].is_some() {
            mapped_n = mapped_n + 1;
        }
        if cone[v] {
            in_cone = in_cone + 1;
            if !t.emit[v] {
                unmatched = unmatched + 1;
            }
            match class_kind(graph, kernels, v) {
                Ok(ClassKind::Pi) => {
                    pis = pis + 1;
                },
                Ok(ClassKind::Const(_)) => {
                    consts = consts + 1;
                },
                _ => {},
            }
        }
        v = v + 1;
    }
    MapStats {
        num_classes: n,
        num_cone_classes: in_cone,
        num_mapped: mapped_n,
        num_unmatched: unmatched,
        num_pi: pis,
        num_const: consts,
        max_root_arrival: Cost::zero(),
        total_flow_at_roots: Cost::zero(),
    }
}

/// The objective ranks by arrival first; `None` if it is neither `delay` nor `area`.
pub open spec fn objective_of(name: Seq<char>) -> Option<bool> {
    if name == "delay"@ {
        Some(true)
    } else if name == "area"@ {
        Some(false)
    } else {
        None
    }
}

fn parse_objective(name: &str) -> (r: Option<bool>)
    ensures
        r == objective_of(name@),
{
    if same_str(name, "delay") {
        Some(true)
    } else if same_str(name, "area") {
        Some(false)
    } else {
        None
    }
}

/// Chooses a cell for every class that one can be found for, children first. The members
/// of a component are visited in passes: a class waits until the inputs of one of its
/// candidates can be emitted. `plus` adds two costs up, and `share` is a flow over a number of
/// references.
pub fn map_cuts<
    S: Fn(Cost, u32) -> Cost,
    P: Fn(Cost, Cost) -> Cost,
>(
    graph: &ClassGraph,
    result: &CutResult,
    kernels: &Vec<Kernel>,
    cone: &Vec<bool>,
    roots: &Vec<u32>,
    cells: &Vec<CellSpec>,
    objective: &str,
    share: &S,
    plus: &P,
) -> (r: Result<MapOutput, MapError>)
    requires
        graph.wf(),
        kernels_cover(graph, kernels@),
        cone@.len() == graph.size(),
        cuts_fit(graph, cut_lists(result.cuts@)),
        forall|i: int| 0 <= i < roots@.len() ==> #[trigger] roots@[i] < graph.size(),
        share_total(*share),
        plus_total(*plus),
    ensures
        match objective_of(objective@) {
            None => r == Err::<MapOutput, MapError>(MapError::Objective),
            Some(delay_first) => if !arities_ok(cells@, cells@.len() as int) {
                exists|i: int|
                    0 <= i < cells@.len() && !arity_ok(#[trigger] cells@[i]) && arities_ok(
                        cells@,
                        i,
                    ) && r == Err::<MapOutput, MapError>(
                        MapError::Arity(ArityError { cell: i as usize }),
                    )
            } else {
                let s = setting(
                    graph,
                    kernels@,
                    cone@,
                    cut_lists(result.cuts@),
                    cells@,
                    delay_first,
                    *share,
                    *plus,
                );
                match mapped(s, graph.sccs@.len()) {
                    Err(e) => r == Err::<MapOutput, MapError>(MapError::Unsound(e)),
                    Ok(m) => {
                        let bad = count(roots@.len(), bad_roots(m.emit, roots@));
                        &&& setting_ok(s)
                        &&& mapping_ok(s, m)
                        &&& if bad > 0 {
                            r == Err::<MapOutput, MapError>(
                                (MapError::Unmappable {
                                    bad: bad as usize,
                                    roots: roots@.len() as usize,
                                    unmatched: count(
                                        graph.size(),
                                        unmatched_classes(cone@, m.emit),
                                    ) as usize,
                                }),
                            )
                        } else {
                            r matches Ok(out) && out.shows(m) && map_stats_ok(
                                s,
                                m,
                                roots@,
                                out.stats,
                            )
                        }
                    },
                }
            },
        },
{
    let delay_first: bool = match parse_objective(objective) {
        None => {
            return Err(MapError::Objective);
        },
        Some(d) => d,
    };
    let index: MatchIndex = match build_index(cells) {
        Ok(ix) => ix,
        Err(e) => {
            assert(!arity_ok(cells@[e.cell as int]));
            return Err(MapError::Arity(e));
        },
    };
    let refs: Vec<u32> = reference_counts(graph, cone);
    let ghost s = setting(
        graph,
        kernels@,
        cone@,
        cut_lists(result.cuts@),
        cells@,
        delay_first,
        *share,
        *plus,
    );
    proof {
        assert forall|v: int| 0 <= v < graph.size() implies (#[trigger] s.cuts[v]).len()
            <= usize::MAX by {
            assert(s.cuts[v] == cut_seq(result.cuts@[v]@));
            assert(result.cuts@[v].len() <= usize::MAX);
        }
        assert forall|v: int, i: int| 0 <= v < graph.size() && 0 <= i < s.cuts[v].len() implies (
        #[trigger] s.cuts[v][i]).leaves.len() <= usize::MAX by {
            assert(s.cuts[v] == cut_seq(result.cuts@[v]@));
            assert(s.cuts[v][i] == result.cuts@[v]@[i]@);
            assert(result.cuts@[v]@[i].leaves.len() <= usize::MAX);
        }
        assert(cells.len() <= usize::MAX);
    }
    let inputs = Inputs {
        graph,
        kernels,
        cone,
        cuts: &result.cuts,
        cells,
        index: &index,
        refs: &refs,
        delay_first,
        share,
        plus,
    };
    let t: Table = match inputs.run(Ghost(s)) {
        Ok(t) => t,
        Err(e) => {
            return Err(MapError::Unsound(e));
        },
    };
    let ghost m = mapped(s, graph.sccs@.len())->Ok_0;
    proof {
        mapping_is_consistent(s, graph.sccs@.len());
    }
    let mut stats: MapStats = count_classes(graph, kernels, cone, &t, Ghost(s), Ghost(m));
    let mut bad: usize = 0;
    let mut latest: Cost = Cost::zero();
    let mut sum: Cost = Cost::zero();
    let mut i: usize = 0;
    while i < roots.len()
        invariant
            i <= roots.len(),
            graph.wf(),
            mapping_ok(s, m),
            s.graph == *graph,
            t.shows(m),
            forall|q: int| 0 <= q < roots@.len() ==> #[trigger] roots@[q] < graph.size(),
            plus_total(*plus),
            s.plus == plus_fn(*plus),
            bad == count(i as nat, bad_roots(m.emit, roots@)),
            latest == root_arrival(m.arrival, roots@, i as nat),
            sum == root_flow(s.plus, m.flow, roots@, i as nat),
        decreases roots@.len() - i,
    {
        proof {
            lemma_count_bound(i as nat, bad_roots(m.emit, roots@));
        }
        let r: usize = roots[i] as usize;
        assert(roots@[i as int] < graph.size());
        if !t.emit[r] {
            bad = bad + 1;
        }
        latest = latest.max(t.arrival[r]);
        sum = call_plus(plus, sum, t.flow[r]);
        i = i + 1;
    }
    if bad > 0 {
        return Err(
            MapError::Unmappable { bad, roots: roots.len(), unmatched: stats.num_unmatched },
        );
    }
    stats.max_root_arrival = latest;
    stats.total_flow_at_roots = sum;
    Ok(
        MapOutput {
            arrival: t.arrival,
            flow: t.flow,
            choices: t.choices,
            emit_ok: t.emit,
            stats,
        },
    )
}

} // verus!
