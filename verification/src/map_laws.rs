//! What the chosen cells promise.
use vstd::prelude::*;

use crate::class_graph::ClassGraph;
use crate::cost::{Cost, NEG_INFINITY_KEY, ZERO_KEY};
use crate::enumerate::{list_ok, operands, realized, some_has, sweep_ok, trivial, CutParams, Sweep};
use crate::extract_laws::lemma_child_earlier;
use crate::fnv::fnv_words;
use crate::kernel::{kind_of, ClassKind, Kernel, UnsoundClass};
use crate::library::{
    arities_ok, belongs, index_entries_are_best, index_entries_match, indexed, numeric,
    variant_entry, variant_key, CellSpec, EntryView,
};
use crate::mapping::{
    all_emit, best_choice, choice_is_best, class_ok, emitted_classes, latest, lemma_inputs,
    lemma_offer_same, lemma_pass_ok, mapped, mapping_is_consistent, mapping_ok, matchable,
    numeric_offers, numeric_score, offer_of, pass, passes, pin_inputs, root_arrival, root_flow,
    score_less, setting_ok, shared_flow, visit, ChoiceView, Mapping, Setting,
};
use crate::names::{bytes_less, order_is_by_the_first_difference, parts_at};
use crate::perm::{inverted, orders_first, permuted};
use crate::tally::{count, lemma_count_bound, lemma_count_ext, lemma_count_flip};

verus! {

/// The two entries of the index for cut `ci` of class `v`: the best by area and the best by
/// delay.
pub open spec fn entry_for(s: Setting, v: int, ci: int, by_delay: bool) -> Option<EntryView> {
    let c = s.cuts[v][ci];
    let key = (c.leaves.len() as usize, c.tt);
    if 0 <= ci < s.cuts[v].len() && matchable(c) && s.index.dom().contains(key) {
        let (ba, bd) = s.index[key];
        Some(
            if by_delay {
                bd
            } else {
                ba
            },
        )
    } else {
        None
    }
}

/// The inputs became emittable before class `v`.
pub open spec fn emitted_before(m: Mapping, v: int, inputs: Seq<u32>) -> bool {
    forall|i: int|
        0 <= i < inputs.len() ==> m.emit[#[trigger] inputs[i] as int] && m.rank[inputs[i] as int]
            < m.rank[v]
}

/// What an entry of the index makes of cut `ci` of class `v` over inputs that became
/// emittable before the class.
pub open spec fn earlier_offer(s: Setting, m: Mapping, v: int, ci: int, by_delay: bool) -> Option<
    ChoiceView,
> {
    match entry_for(s, v, ci, by_delay) {
        None => None,
        Some(e) => if emitted_before(m, v, pin_inputs(s.cuts[v][ci].leaves, e.perm)) {
            offer_of(s, m, v, ci, e)
        } else {
            None
        },
    }
}

/// The earlier offers have numeric scores.
pub open spec fn all_numeric(s: Setting, m: Mapping, v: int) -> bool {
    forall|ci: int, by_delay: bool| #[trigger]
        earlier_offer(s, m, v, ci, by_delay) matches Some(x) ==> numeric_score(x)
}

/// Where all scores are numbers, no earlier offer ranks before the choice of class `v`.
pub open spec fn beats_earlier(s: Setting, m: Mapping, v: int) -> bool {
    m.choices[v] matches Some(c) ==> all_numeric(s, m, v) ==> forall|ci: int, by_delay: bool|
        (#[trigger] earlier_offer(s, m, v, ci, by_delay) matches Some(x) ==> !score_less(
            s.delay_first,
            x,
            c,
        ))
}

spec fn all_beat(s: Setting, m: Mapping) -> bool {
    forall|v: int| 0 <= v < s.graph.size() ==> #[trigger] beats_earlier(s, m, v)
}

/// Finishing class `v` takes no earlier offer from an emittable class `w`, and adds none.
proof fn lemma_offer_kept(
    s: Setting,
    m: Mapping,
    t: Mapping,
    v: int,
    w: int,
    ci: int,
    by_delay: bool,
)
    requires
        setting_ok(s),
        mapping_ok(s, m),
        0 <= v < s.graph.size(),
        0 <= w < s.graph.size(),
        v != w,
        !m.done[v],
        m.emit[w],
        t.rank[v] == m.clock,
        forall|x: int|
            0 <= x < s.graph.size() && x != v ==> #[trigger] t.emit[x] == m.emit[x] && t.rank[x]
                == m.rank[x] && t.arrival[x] == m.arrival[x] && t.flow[x] == m.flow[x],
    ensures
        earlier_offer(s, t, w, ci, by_delay) == earlier_offer(s, m, w, ci, by_delay),
{
    assert(class_ok(s, m, w));
    assert(class_ok(s, m, v));
    match entry_for(s, w, ci, by_delay) {
        None => {},
        Some(e) => {
            let inputs = pin_inputs(s.cuts[w][ci].leaves, e.perm);
            assert(EntryView { cell: e.cell, perm: e.perm } == e);
            assert forall|i: int| 0 <= i < inputs.len() implies (#[trigger] inputs[i])
                < s.graph.size() by {
                lemma_inputs(s, w, ci, e.cell, e.perm, i);
            }
            assert(t.emit[w] == m.emit[w]);
            if emitted_before(t, w, inputs) {
                assert forall|i: int| 0 <= i < inputs.len() implies m.emit[
                    #[trigger] inputs[i] as int
                ] && m.rank[inputs[i] as int] < m.rank[w] by {
                    let x = inputs[i] as int;
                    assert(t.rank[x] < t.rank[w]);
                    assert(x != v);
                    assert(t.emit[x] == m.emit[x]);
                }
            }
            if emitted_before(m, w, inputs) {
                assert forall|i: int| 0 <= i < inputs.len() implies t.emit[
                    #[trigger] inputs[i] as int
                ] && t.rank[inputs[i] as int] < t.rank[w] && t.arrival[inputs[i] as int]
                    == m.arrival[inputs[i] as int] && t.flow[inputs[i] as int]
                    == m.flow[inputs[i] as int] by {
                    let x = inputs[i] as int;
                    assert(m.emit[x]);
                    assert(class_ok(s, m, x));
                    assert(x != v);
                    assert(t.emit[x] == m.emit[x]);
                }
                assert(emitted_before(t, w, inputs));
                assert forall|i: int| 0 <= i < s.cuts[w][ci].leaves.len() implies {
                    let x = #[trigger] pin_inputs(s.cuts[w][ci].leaves, e.perm)[i] as int;
                    t.emit[x] && t.arrival[x] == m.arrival[x] && t.flow[x] == m.flow[x]
                } by {
                    let x = inputs[i] as int;
                    assert(t.emit[x]);
                }
                lemma_offer_same(s, m, t, w, ci, e);
            }
        },
    }
}

/// The earlier offers of a class that is being finished are those of the state before.
proof fn lemma_offer_now(
    s: Setting,
    m: Mapping,
    t: Mapping,
    v: int,
    ci: int,
    e: EntryView,
    by_delay: bool,
)
    requires
        setting_ok(s),
        mapping_ok(s, m),
        0 <= v < s.graph.size(),
        !m.done[v],
        t.rank[v] == m.clock,
        entry_for(s, v, ci, by_delay) == Some(e),
        forall|x: int|
            0 <= x < s.graph.size() && x != v ==> #[trigger] t.emit[x] == m.emit[x] && t.rank[x]
                == m.rank[x] && t.arrival[x] == m.arrival[x] && t.flow[x] == m.flow[x],
    ensures
        earlier_offer(s, t, v, ci, by_delay) == offer_of(s, m, v, ci, e),
{
    assert(class_ok(s, m, v));
    let inputs = pin_inputs(s.cuts[v][ci].leaves, e.perm);
    assert(EntryView { cell: e.cell, perm: e.perm } == e);
    assert forall|i: int| 0 <= i < inputs.len() implies (#[trigger] inputs[i]) < s.graph.size() by {
        lemma_inputs(s, v, ci, e.cell, e.perm, i);
    }
    if emitted_before(t, v, inputs) {
        assert forall|i: int| 0 <= i < inputs.len() implies m.emit[
            #[trigger] inputs[i] as int
        ] by {
            let x = inputs[i] as int;
            assert(t.rank[x] < t.rank[v]);
            assert(x != v);
            assert(t.emit[x] == m.emit[x]);
        }
    }
    if all_emit(m.emit, inputs) {
        assert forall|i: int| 0 <= i < inputs.len() implies t.emit[#[trigger] inputs[i] as int]
            && t.rank[inputs[i] as int] < t.rank[v] && t.arrival[inputs[i] as int]
            == m.arrival[inputs[i] as int] && t.flow[inputs[i] as int]
            == m.flow[inputs[i] as int] by {
            let x = inputs[i] as int;
            assert(m.emit[x]);
            assert(class_ok(s, m, x));
            assert(t.emit[x] == m.emit[x]);
        }
        assert(emitted_before(t, v, inputs));
        assert forall|i: int| 0 <= i < s.cuts[v][ci].leaves.len() implies {
            let x = #[trigger] pin_inputs(s.cuts[v][ci].leaves, e.perm)[i] as int;
            t.emit[x] && t.arrival[x] == m.arrival[x] && t.flow[x] == m.flow[x]
        } by {
            let x = inputs[i] as int;
            assert(t.emit[x]);
        }
        lemma_offer_same(s, m, t, v, ci, e);
    }
}

proof fn lemma_visit_beats(s: Setting, m: Mapping, v: u32)
    requires
        setting_ok(s),
        mapping_ok(s, m),
        all_beat(s, m),
        v < s.graph.size(),
    ensures
        visit(s, m, v) matches Ok((next, _)) ==> all_beat(s, next),
{
    let r = visit(s, m, v);
    let i = v as int;
    if r is Ok {
        let (t, progress) = r->Ok_0;
        assert forall|w: int| 0 <= w < s.graph.size() implies #[trigger] beats_earlier(s, t, w) by {
            assert(beats_earlier(s, m, w));
            assert(class_ok(s, m, w));
            if !progress {
                assert forall|ci: int, b: bool| #[trigger]
                    earlier_offer(s, t, w, ci, b) == earlier_offer(s, m, w, ci, b) by {
                    lemma_same_state(s, m, t, w, ci, b);
                }
                lemma_beats_same(s, m, t, w);
            } else if w != i {
                if t.choices[w] is Some {
                    assert forall|ci: int, b: bool| #[trigger]
                        earlier_offer(s, t, w, ci, b) == earlier_offer(s, m, w, ci, b) by {
                        lemma_offer_kept(s, m, t, i, w, ci, b);
                    }
                    lemma_beats_same(s, m, t, w);
                }
            } else if t.choices[w] is Some {
                lemma_finished_beats(s, m, t, w);
            }
        }
    }
}

proof fn lemma_beats_same(s: Setting, m: Mapping, t: Mapping, w: int)
    requires
        beats_earlier(s, m, w),
        t.choices[w] == m.choices[w],
        forall|ci: int, b: bool| #[trigger]
            earlier_offer(s, t, w, ci, b) == earlier_offer(s, m, w, ci, b),
    ensures
        beats_earlier(s, t, w),
{
    if t.choices[w] is Some && all_numeric(s, t, w) {
        assert forall|ci: int, b: bool| (#[trigger] earlier_offer(s, m, w, ci, b) matches Some(
            x,
        ) ==> numeric_score(x)) by {
            assert(earlier_offer(s, t, w, ci, b) == earlier_offer(s, m, w, ci, b));
        }
        assert(all_numeric(s, m, w));
        let c = t.choices[w]->0;
        assert forall|ci: int, b: bool| (#[trigger] earlier_offer(s, t, w, ci, b) matches Some(
            x,
        ) ==> !score_less(s.delay_first, x, c)) by {
            assert(earlier_offer(s, t, w, ci, b) == earlier_offer(s, m, w, ci, b));
        }
    }
}

proof fn lemma_same_state(s: Setting, m: Mapping, t: Mapping, w: int, ci: int, b: bool)
    requires
        t.emit == m.emit,
        t.rank == m.rank,
        t.arrival == m.arrival,
        t.flow == m.flow,
    ensures
        earlier_offer(s, t, w, ci, b) == earlier_offer(s, m, w, ci, b),
{
}

/// A class that takes the best choice beats its earlier offers.
proof fn lemma_finished_beats(s: Setting, m: Mapping, t: Mapping, v: int)
    requires
        setting_ok(s),
        mapping_ok(s, m),
        0 <= v < s.graph.size(),
        !m.done[v],
        t.rank[v] == m.clock,
        t.choices[v] is Some,
        t.choices[v] == best_choice(s, m, v, s.cuts[v].len()),
        forall|x: int|
            0 <= x < s.graph.size() && x != v ==> #[trigger] t.emit[x] == m.emit[x] && t.rank[x]
                == m.rank[x] && t.arrival[x] == m.arrival[x] && t.flow[x] == m.flow[x],
    ensures
        beats_earlier(s, t, v),
{
    let n = s.cuts[v].len();
    let c = t.choices[v]->0;
    if all_numeric(s, t, v) {
        assert(numeric_offers(s, m, v, n)) by {
            assert forall|ci: int|
                0 <= ci < n && matchable(#[trigger] s.cuts[v][ci]) && s.index.dom().contains(
                    (s.cuts[v][ci].leaves.len() as usize, s.cuts[v][ci].tt),
                ) implies {
                let slot = s.index[(s.cuts[v][ci].leaves.len() as usize, s.cuts[v][ci].tt)];
                &&& offer_of(s, m, v, ci, slot.0) matches Some(x) ==> numeric_score(x)
                &&& offer_of(s, m, v, ci, slot.1) matches Some(x) ==> numeric_score(x)
            } by {
                let (ba, bd) = s.index[(s.cuts[v][ci].leaves.len() as usize, s.cuts[v][ci].tt)];
                assert(entry_for(s, v, ci, false) == Some(ba));
                assert(entry_for(s, v, ci, true) == Some(bd));
                lemma_offer_now(s, m, t, v, ci, ba, false);
                lemma_offer_now(s, m, t, v, ci, bd, true);
                let x = earlier_offer(s, t, v, ci, false);
                let y = earlier_offer(s, t, v, ci, true);
                assert(x matches Some(z) ==> numeric_score(z));
                assert(y matches Some(z) ==> numeric_score(z));
            }
        }
        assert forall|ci: int, by_delay: bool|
            (#[trigger] earlier_offer(s, t, v, ci, by_delay) matches Some(x) ==> !score_less(
                s.delay_first,
                x,
                c,
            )) by {
            match entry_for(s, v, ci, by_delay) {
                None => {},
                Some(e) => {
                    lemma_offer_now(s, m, t, v, ci, e, by_delay);
                    if earlier_offer(s, t, v, ci, by_delay) is Some {
                        choice_is_best(s, m, v, n, ci, e);
                    }
                },
            }
        }
    }
}

proof fn lemma_pass_beats(s: Setting, si: int, m: Mapping, n: nat)
    requires
        setting_ok(s),
        mapping_ok(s, m),
        all_beat(s, m),
        0 <= si < s.graph.sccs@.len(),
        n <= s.graph.sccs@[si]@.len(),
    ensures
        pass(s, si, m, n) matches Ok((next, _)) ==> all_beat(s, next),
    decreases n,
{
    if n > 0 {
        lemma_pass_beats(s, si, m, (n - 1) as nat);
        lemma_pass_ok(s, si, m, (n - 1) as nat);
        let r = pass(s, si, m, (n - 1) as nat);
        if r is Ok {
            let (mid, _) = r->Ok_0;
            assert(s.graph.sccs@[si]@[n - 1] < s.graph.size());
            lemma_visit_beats(s, mid, s.graph.sccs@[si]@[n - 1]);
        }
    }
}

proof fn lemma_passes_beat(s: Setting, si: int, m: Mapping, fuel: nat)
    requires
        setting_ok(s),
        mapping_ok(s, m),
        all_beat(s, m),
        0 <= si < s.graph.sccs@.len(),
    ensures
        passes(s, si, m, fuel) matches Ok(next) ==> all_beat(s, next),
    decreases fuel,
{
    if fuel > 0 {
        let n = s.graph.sccs@[si]@.len();
        lemma_pass_beats(s, si, m, n);
        lemma_pass_ok(s, si, m, n);
        let r = pass(s, si, m, n);
        if r is Ok {
            let (next, progress) = r->Ok_0;
            if progress {
                lemma_passes_beat(s, si, next, (fuel - 1) as nat);
            }
        }
    }
}

proof fn lemma_mapped_beats(s: Setting, n: nat)
    requires
        setting_ok(s),
        n <= s.graph.sccs@.len(),
    ensures
        mapped(s, n) matches Ok(m) ==> all_beat(s, m),
    decreases n,
{
    if n > 0 {
        lemma_mapped_beats(s, (n - 1) as nat);
        mapping_is_consistent(s, (n - 1) as nat);
        let r = mapped(s, (n - 1) as nat);
        if r is Ok {
            lemma_passes_beat(s, n - 1, r->Ok_0, s.graph.sccs@[n - 1]@.len() + 1);
        }
    }
}

/// Where all scores are numbers, the cell chosen for a class is the best in the end: no
/// entry of the index makes a better offer on a cut of the class over inputs that became
/// emittable before it.
pub proof fn choices_beat_earlier_offers(s: Setting, m: Mapping, v: int)
    requires
        setting_ok(s),
        mapped(s, s.graph.sccs@.len()) == Ok::<Mapping, UnsoundClass>(m),
        0 <= v < s.graph.size(),
    ensures
        beats_earlier(s, m, v),
{
    lemma_mapped_beats(s, s.graph.sccs@.len());
}

/// Number `a` is the smaller one, or they are equal and `c` is no greater than `d`.
pub open spec fn no_dearer(a: Cost, c: Cost, b: Cost, d: Cost) -> bool {
    &&& a->Number_0 <= b->Number_0
    &&& a->Number_0 == b->Number_0 ==> c->Number_0 <= d->Number_0
}

/// Where all scores are numbers, no entry of the index would do better than the cell chosen
/// for a class: for delay none arrives earlier, nor at the same time with a smaller flow; for
/// area none has a smaller flow, nor the same one and an earlier arrival; and with the same
/// two numbers none has inputs of a smaller hash.
pub proof fn no_entry_is_cheaper(
    s: Setting,
    m: Mapping,
    v: int,
    ci: int,
    by_delay: bool,
    e: EntryView,
)
    requires
        setting_ok(s),
        mapped(s, s.graph.sccs@.len()) == Ok::<Mapping, UnsoundClass>(m),
        0 <= v < s.graph.size(),
        m.choices[v] is Some,
        all_numeric(s, m, v),
        0 <= ci < s.cuts[v].len(),
        s.cuts[v][ci].realization is Some,
        1 <= s.cuts[v][ci].leaves.len() <= 4,
        s.index.dom().contains((s.cuts[v][ci].leaves.len() as usize, s.cuts[v][ci].tt)),
        ({
            let slot = s.index[(s.cuts[v][ci].leaves.len() as usize, s.cuts[v][ci].tt)];
            if by_delay {
                e == slot.1
            } else {
                e == slot.0
            }
        }),
        forall|i: int|
            0 <= i < s.cuts[v][ci].leaves.len() ==> {
                let x = s.cuts[v][ci].leaves[#[trigger] e.perm[i] as int] as int;
                m.emit[x] && m.rank[x] < m.rank[v]
            },
    ensures
        ({
            let c = m.choices[v]->0;
            let n = s.cuts[v][ci].leaves.len();
            let inputs = Seq::new(n, |i: int| s.cuts[v][ci].leaves[e.perm[i] as int]);
            let cell = s.cells[e.cell as int];
            let arrival = (s.plus)(cell.delay, latest(m.arrival, inputs, n));
            let flow = (s.plus)(cell.area, shared_flow(s, m.flow, inputs, n));
            &&& c.arrival is Number && c.flow is Number && arrival is Number && flow is Number
            &&& s.delay_first ==> no_dearer(c.arrival, c.flow, arrival, flow)
            &&& !s.delay_first ==> no_dearer(c.flow, c.arrival, flow, arrival)
            &&& c.arrival == arrival && c.flow == flow ==> fnv_words(c.inputs) <= fnv_words(
                inputs,
            )
        }),
{
    choices_beat_earlier_offers(s, m, v);
    mapping_is_consistent(s, s.graph.sccs@.len());
    let c = m.choices[v]->0;
    let n = s.cuts[v][ci].leaves.len();
    let inputs = Seq::new(n, |i: int| s.cuts[v][ci].leaves[e.perm[i] as int]);
    assert(inputs =~= pin_inputs(s.cuts[v][ci].leaves, e.perm));
    assert(entry_for(s, v, ci, by_delay) == Some(e));
    assert forall|i: int| 0 <= i < inputs.len() implies m.emit[#[trigger] inputs[i] as int]
        && m.rank[inputs[i] as int] < m.rank[v] by {
        let x = s.cuts[v][ci].leaves[e.perm[i] as int] as int;
        assert(m.emit[x]);
    }
    let x = earlier_offer(s, m, v, ci, by_delay);
    assert(x is Some);
    assert(numeric_score(x->0));
    lemma_own_offer(s, m, v);
}

/// The choice of a class is one of the earlier offers.
proof fn lemma_own_offer(s: Setting, m: Mapping, v: int)
    requires
        setting_ok(s),
        mapping_ok(s, m),
        0 <= v < s.graph.size(),
        m.choices[v] is Some,
        all_numeric(s, m, v),
    ensures
        numeric_score(m.choices[v]->0),
{
    assert(class_ok(s, m, v));
    let c = m.choices[v]->0;
    let cut = s.cuts[v][c.cut as int];
    let key = (cut.leaves.len() as usize, cut.tt);
    let e = EntryView { cell: c.cell, perm: c.perm };
    let by_delay = e == s.index[key].1;
    assert(entry_for(s, v, c.cut as int, by_delay) == Some(e));
    assert(emitted_before(m, v, c.inputs)) by {
        assert(all_emit(m.emit, pin_inputs(cut.leaves, c.perm)));
        assert forall|i: int| 0 <= i < c.inputs.len() implies m.emit[#[trigger] c.inputs[i] as int]
            && m.rank[c.inputs[i] as int] < m.rank[v] by {}
    }
    assert(earlier_offer(s, m, v, c.cut as int, by_delay) == Some(c));
}

/// The larger of two costs; the other one where one is not a number.
pub open spec fn later_of() -> spec_fn(Cost, Cost) -> Cost {
    |a: Cost, b: Cost|
        match (a, b) {
            (Cost::Nan, _) => b,
            (_, Cost::Nan) => a,
            (Cost::Number(x), Cost::Number(y)) => if x < y {
                b
            } else {
                a
            },
        }
}

/// The latest arrival takes in every input.
pub proof fn latest_takes_in_every_input(arrival: Seq<Cost>, inputs: Seq<u32>, n: nat)
    requires
        n <= inputs.len(),
    ensures
        latest(arrival, inputs, n) == Seq::new(
            n,
            |i: int| arrival[inputs[i] as int],
        ).fold_left(Cost::Number(NEG_INFINITY_KEY), later_of()),
    decreases n,
{
    reveal_with_fuel(Seq::fold_left, 2);
    let all = Seq::new(n, |i: int| arrival[inputs[i] as int]);
    if n > 0 {
        latest_takes_in_every_input(arrival, inputs, (n - 1) as nat);
        assert(all.drop_last() =~= Seq::new(
            (n - 1) as nat,
            |i: int| arrival[inputs[i] as int],
        ));
    }
}

/// The share of each input: its flow over the number of references to it, of which there is
/// at least one.
pub open spec fn input_shares(s: Setting, flow: Seq<Cost>, inputs: Seq<u32>, n: nat) -> Seq<Cost> {
    Seq::new(
        n,
        |i: int|
            (s.share)(
                flow[inputs[i] as int],
                if s.refs[inputs[i] as int] == 0 {
                    1
                } else {
                    s.refs[inputs[i] as int]
                },
            ),
    )
}

/// The shared flow is the sum of the shares of all inputs.
pub proof fn shared_flow_takes_in_every_input(
    s: Setting,
    flow: Seq<Cost>,
    inputs: Seq<u32>,
    n: nat,
)
    requires
        n <= inputs.len(),
    ensures
        shared_flow(s, flow, inputs, n) == input_shares(s, flow, inputs, n).fold_left(
            Cost::Number(ZERO_KEY),
            s.plus,
        ),
    decreases n,
{
    reveal_with_fuel(Seq::fold_left, 2);
    let all = input_shares(s, flow, inputs, n);
    if n > 0 {
        shared_flow_takes_in_every_input(s, flow, inputs, (n - 1) as nat);
        assert(all.drop_last() =~= input_shares(s, flow, inputs, (n - 1) as nat));
    }
}

/// The arrival at the roots is that of the latest, at least zero, and their flow the sum.
pub proof fn roots_are_taken_in(
    plus: spec_fn(Cost, Cost) -> Cost,
    arrival: Seq<Cost>,
    flow: Seq<Cost>,
    roots: Seq<u32>,
    n: nat,
)
    requires
        n <= roots.len(),
    ensures
        root_arrival(arrival, roots, n) == Seq::new(
            n,
            |i: int| arrival[roots[i] as int],
        ).fold_left(Cost::Number(ZERO_KEY), later_of()),
        root_flow(plus, flow, roots, n) == Seq::new(
            n,
            |i: int| flow[roots[i] as int],
        ).fold_left(Cost::Number(ZERO_KEY), plus),
    decreases n,
{
    reveal_with_fuel(Seq::fold_left, 2);
    let x = Seq::new(n, |i: int| arrival[roots[i] as int]);
    let y = Seq::new(n, |i: int| flow[roots[i] as int]);
    if n > 0 {
        roots_are_taken_in(plus, arrival, flow, roots, (n - 1) as nat);
        assert(x.drop_last() =~= Seq::new((n - 1) as nat, |i: int| arrival[roots[i] as int]));
        assert(y.drop_last() =~= Seq::new((n - 1) as nat, |i: int| flow[roots[i] as int]));
    }
}

/// `s` is `t`, or has the smaller number where they first differ.
pub open spec fn no_later(s: Seq<u8>, t: Seq<u8>) -> bool {
    s == t || exists|d: int|
        0 <= d < s.len() && d < t.len() && (#[trigger] s[d]) < t[d] && forall|i: int|
            0 <= i < d ==> s[i] == t[i]
}

proof fn lemma_no_later(s: Seq<u8>, t: Seq<u8>)
    requires
        s.len() == t.len(),
        !bytes_less(t, s),
    ensures
        no_later(s, t),
{
    order_is_by_the_first_difference(s, t);
    order_is_by_the_first_difference(t, s);
    if s != t {
        let d = lemma_first_difference(s, t, 0);
        if t[d] < s[d] {
            assert(parts_at(t, s, d));
        }
        assert(s[d] < t[d]);
    }
}

proof fn lemma_first_difference(s: Seq<u8>, t: Seq<u8>, i: int) -> (d: int)
    requires
        s.len() == t.len(),
        s != t,
        0 <= i <= s.len(),
        forall|x: int| 0 <= x < i ==> s[x] == t[x],
    ensures
        0 <= d < s.len(),
        s[d] != t[d],
        forall|x: int| 0 <= x < d ==> s[x] == t[x],
    decreases s.len() - i,
{
    if i == s.len() {
        assert(s =~= t);
        0
    } else if s[i] != t[i] {
        i
    } else {
        lemma_first_difference(s, t, i + 1)
    }
}

/// The index holds, for the function of every cell under every order of its pins, an entry of
/// the least area, of the least delay among those, and one of the least delay, of the least
/// area among those; and where both are the same, of the least order of the pins.
pub proof fn index_entries_cost_least(cells: Seq<CellSpec>, n: nat, ci: int, p: Seq<u8>)
    requires
        n <= cells.len() <= usize::MAX,
        arities_ok(cells, n as int),
        numeric(cells),
        0 <= ci < n,
        orders_first(p, cells[ci].arity as nat),
    ensures
        ({
            let key = (cells[ci].arity, permuted(cells[ci].tt, cells[ci].arity as nat, p));
            let (a, d) = indexed(cells, n)[key];
            let (x, y, z) = (cells[ci], cells[a.cell as int], cells[d.cell as int]);
            &&& indexed(cells, n).dom().contains(key)
            &&& a.cell < cells.len() && d.cell < cells.len()
            &&& y.arity == x.arity && z.arity == x.arity
            &&& no_dearer(y.area, y.delay, x.area, x.delay)
            &&& no_dearer(z.delay, z.area, x.delay, x.area)
            &&& y.area == x.area && y.delay == x.delay ==> no_later(
                a.perm,
                inverted(p, x.arity as nat),
            )
            &&& z.area == x.area && z.delay == x.delay ==> no_later(
                d.perm,
                inverted(p, x.arity as nat),
            )
        }),
{
    index_entries_are_best(cells, n, ci, p);
    index_entries_match(cells, n);
    let key = variant_key(cells, ci, p);
    assert(belongs(cells, key, indexed(cells, n)[key].0));
    assert(belongs(cells, key, indexed(cells, n)[key].1));
    let (a, d) = indexed(cells, n)[key];
    assert(cells[a.cell as int].area is Number);
    assert(cells[d.cell as int].area is Number);
    assert(cells[ci].area is Number);
    let e = variant_entry(cells, ci, p);
    if cells[a.cell as int].area == cells[ci].area && cells[a.cell as int].delay
        == cells[ci].delay {
        lemma_no_later(a.perm, e.perm);
    }
    if cells[d.cell as int].area == cells[ci].area && cells[d.cell as int].delay
        == cells[ci].delay {
        lemma_no_later(d.perm, e.perm);
    }
}

// -------------------------------------------------------------- unmatched classes

/// The leaves of every cut lie in the component of its class or an earlier one.
pub open spec fn leaves_below(s: Setting) -> bool {
    forall|v: int, ci: int, j: int|
        0 <= v < s.graph.size() && 0 <= ci < s.cuts[v].len() && 0 <= j
            < s.cuts[v][ci].leaves.len() ==> s.graph.scc_of@[
            #[trigger] s.cuts[v][ci].leaves[j] as int
        ] <= s.graph.scc_of@[v]
}

/// Two states agree on the classes of the components up to `si`.
spec fn same_below(s: Setting, a: Mapping, b: Mapping, si: int) -> bool {
    forall|x: int|
        0 <= x < s.graph.size() && #[trigger] s.graph.scc_of@[x] <= si ==> a.emit[x] == b.emit[x]
            && a.arrival[x] == b.arrival[x] && a.flow[x] == b.flow[x] && a.done[x] == b.done[x]
}

proof fn lemma_offer_agrees(
    s: Setting,
    a: Mapping,
    b: Mapping,
    v: int,
    ci: int,
    e: EntryView,
    si: int,
)
    requires
        setting_ok(s),
        leaves_below(s),
        same_below(s, a, b, si),
        0 <= v < s.graph.size(),
        s.graph.scc_of@[v] <= si,
        0 <= ci < s.cuts[v].len(),
        matchable(s.cuts[v][ci]),
        s.index.dom().contains((s.cuts[v][ci].leaves.len() as usize, s.cuts[v][ci].tt)),
        ({
            let slot = s.index[(s.cuts[v][ci].leaves.len() as usize, s.cuts[v][ci].tt)];
            e == slot.0 || e == slot.1
        }),
    ensures
        offer_of(s, a, v, ci, e) == offer_of(s, b, v, ci, e),
{
    let inputs = pin_inputs(s.cuts[v][ci].leaves, e.perm);
    assert(EntryView { cell: e.cell, perm: e.perm } == e);
    assert forall|i: int| 0 <= i < inputs.len() implies {
        let x = #[trigger] inputs[i] as int;
        a.emit[x] == b.emit[x] && a.arrival[x] == b.arrival[x] && a.flow[x] == b.flow[x]
    } by {
        lemma_inputs(s, v, ci, e.cell, e.perm, i);
        let l = s.cuts[v][ci].leaves[e.perm[i] as int];
        assert(s.graph.scc_of@[l as int] <= s.graph.scc_of@[v]);
        assert(inputs[i] == l);
    }
    if all_emit(a.emit, inputs) {
        assert forall|i: int| 0 <= i < s.cuts[v][ci].leaves.len() implies {
            let x = #[trigger] pin_inputs(s.cuts[v][ci].leaves, e.perm)[i] as int;
            b.emit[x] && b.arrival[x] == a.arrival[x] && b.flow[x] == a.flow[x]
        } by {
            let x = inputs[i] as int;
            assert(a.emit[x] == b.emit[x]);
        }
        lemma_offer_same(s, a, b, v, ci, e);
    } else if all_emit(b.emit, inputs) {
        assert forall|i: int| 0 <= i < inputs.len() implies a.emit[#[trigger] inputs[i] as int] by {
            let x = inputs[i] as int;
            assert(a.emit[x] == b.emit[x]);
        }
    }
}

proof fn lemma_best_agrees(s: Setting, a: Mapping, b: Mapping, v: int, n: nat, si: int)
    requires
        setting_ok(s),
        leaves_below(s),
        same_below(s, a, b, si),
        0 <= v < s.graph.size(),
        s.graph.scc_of@[v] <= si,
        n <= s.cuts[v].len(),
    ensures
        best_choice(s, a, v, n) == best_choice(s, b, v, n),
    decreases n,
{
    if n > 0 {
        lemma_best_agrees(s, a, b, v, (n - 1) as nat, si);
        let c = s.cuts[v][n - 1];
        let key = (c.leaves.len() as usize, c.tt);
        if matchable(c) && s.index.dom().contains(key) {
            let (ba, bd) = s.index[key];
            lemma_offer_agrees(s, a, b, v, n - 1, ba, si);
            lemma_offer_agrees(s, a, b, v, n - 1, bd, si);
        }
    }
}

/// A pass over a component leaves the earlier ones alone.
proof fn lemma_pass_frame(s: Setting, si: int, m: Mapping, n: nat, lo: int)
    requires
        setting_ok(s),
        mapping_ok(s, m),
        0 <= si < s.graph.sccs@.len(),
        n <= s.graph.sccs@[si]@.len(),
        lo < si,
    ensures
        pass(s, si, m, n) matches Ok((next, _)) ==> same_below(s, m, next, lo),
    decreases n,
{
    if n > 0 {
        lemma_pass_frame(s, si, m, (n - 1) as nat, lo);
        lemma_pass_ok(s, si, m, (n - 1) as nat);
        let prev = pass(s, si, m, (n - 1) as nat);
        let r = pass(s, si, m, n);
        if r is Ok {
            let (mid, _) = prev->Ok_0;
            let (next, _) = r->Ok_0;
            let v = s.graph.sccs@[si]@[n - 1];
            assert(v < s.graph.size() && s.graph.scc_of@[v as int] == si);
            assert(same_below(s, mid, next, lo));
        }
    }
}

proof fn lemma_passes_frame(s: Setting, si: int, m: Mapping, fuel: nat, lo: int)
    requires
        setting_ok(s),
        mapping_ok(s, m),
        0 <= si < s.graph.sccs@.len(),
        lo < si,
    ensures
        passes(s, si, m, fuel) matches Ok(next) ==> same_below(s, m, next, lo),
    decreases fuel,
{
    if fuel > 0 {
        let n = s.graph.sccs@[si]@.len();
        lemma_pass_frame(s, si, m, n, lo);
        lemma_pass_ok(s, si, m, n);
        let r = pass(s, si, m, n);
        if r is Ok {
            let (next, progress) = r->Ok_0;
            if progress {
                lemma_passes_frame(s, si, next, (fuel - 1) as nat, lo);
            }
        }
    }
}

/// Class `v` waits for an offer.
spec fn waits(s: Setting, m: Mapping, v: int) -> bool {
    !m.done[v] && s.cone[v] && kind_of(&s.graph, s.kernels, v) == Some(ClassKind::Internal)
}

/// The members of component `si` that wait have no offer.
spec fn quiet(s: Setting, m: Mapping, si: int) -> bool {
    forall|i: int|
        0 <= i < s.graph.sccs@[si]@.len() && waits(
            s,
            m,
            #[trigger] s.graph.sccs@[si]@[i] as int,
        ) ==> best_choice(
            s,
            m,
            s.graph.sccs@[si]@[i] as int,
            s.cuts[s.graph.sccs@[si]@[i] as int].len(),
        ) is None
}

/// The members of component `si` that are not finished.
spec fn open_members(s: Setting, m: Mapping, si: int) -> spec_fn(int) -> bool {
    |i: int| !m.done[s.graph.sccs@[si]@[i] as int]
}

/// A pass without progress finds no offer; one with progress finishes a member.
proof fn lemma_pass_quiet(s: Setting, si: int, m: Mapping, n: nat)
    requires
        setting_ok(s),
        mapping_ok(s, m),
        0 <= si < s.graph.sccs@.len(),
        n <= s.graph.sccs@[si]@.len(),
    ensures
        pass(s, si, m, n) matches Ok((next, progress)) ==> {
            let len = s.graph.sccs@[si]@.len();
            &&& !progress ==> next.emit == m.emit && next.arrival == m.arrival && next.flow
                == m.flow
            &&& !progress ==> forall|i: int|
                0 <= i < n && waits(s, next, #[trigger] s.graph.sccs@[si]@[i] as int)
                    ==> best_choice(
                    s,
                    next,
                    s.graph.sccs@[si]@[i] as int,
                    s.cuts[s.graph.sccs@[si]@[i] as int].len(),
                ) is None
            &&& count(len, open_members(s, next, si)) <= count(len, open_members(s, m, si))
            &&& progress ==> count(len, open_members(s, next, si)) < count(
                len,
                open_members(s, m, si),
            )
        },
    decreases n,
{
    if n > 0 {
        lemma_pass_quiet(s, si, m, (n - 1) as nat);
        lemma_pass_ok(s, si, m, (n - 1) as nat);
        let prev = pass(s, si, m, (n - 1) as nat);
        let r = pass(s, si, m, n);
        if r is Ok {
            let (mid, _) = prev->Ok_0;
            let (next, progress) = r->Ok_0;
            let comp = s.graph.sccs@[si]@;
            let v = s.graph.sccs@[si]@[n - 1];
            assert(v < s.graph.size());
            let a = open_members(s, mid, si);
            let b = open_members(s, next, si);
            if mid.done[v as int] || !next.done[v as int] {
                assert(next.done =~= mid.done);
                lemma_count_ext(comp.len(), a, b);
            } else {
                assert forall|i: int| 0 <= i < comp.len() && i != n - 1 implies #[trigger] b(i)
                    == a(i) by {
                    assert(s.graph.sccs@[si]@[i] < s.graph.size());
                    assert(comp[i] != comp[n - 1]);
                }
                lemma_count_flip(comp.len(), b, a, n - 1);
            }
            if !progress {
                assert forall|i: int|
                    0 <= i < n && waits(
                        s,
                        next,
                        #[trigger] s.graph.sccs@[si]@[i] as int,
                    ) implies best_choice(
                    s,
                    next,
                    s.graph.sccs@[si]@[i] as int,
                    s.cuts[s.graph.sccs@[si]@[i] as int].len(),
                ) is None by {
                    let w = s.graph.sccs@[si]@[i] as int;
                    assert(s.graph.sccs@[si]@[i] < s.graph.size());
                    if i < n - 1 {
                        assert(waits(s, mid, w));
                    }
                    lemma_best_same_state(s, mid, next, w, s.cuts[w].len());
                }
            }
        }
    }
}

proof fn lemma_best_same_state(s: Setting, a: Mapping, b: Mapping, v: int, n: nat)
    requires
        a.emit == b.emit,
        a.arrival == b.arrival,
        a.flow == b.flow,
    ensures
        best_choice(s, a, v, n) == best_choice(s, b, v, n),
    decreases n,
{
    if n > 0 {
        lemma_best_same_state(s, a, b, v, (n - 1) as nat);
    }
}

proof fn lemma_passes_quiet(s: Setting, si: int, m: Mapping, fuel: nat)
    requires
        setting_ok(s),
        mapping_ok(s, m),
        0 <= si < s.graph.sccs@.len(),
        count(s.graph.sccs@[si]@.len(), open_members(s, m, si)) < fuel,
    ensures
        passes(s, si, m, fuel) matches Ok(next) ==> quiet(s, next, si),
    decreases fuel,
{
    let n = s.graph.sccs@[si]@.len();
    lemma_pass_quiet(s, si, m, n);
    lemma_pass_ok(s, si, m, n);
    let r = pass(s, si, m, n);
    if r is Ok {
        let (next, progress) = r->Ok_0;
        if progress {
            lemma_passes_quiet(s, si, next, (fuel - 1) as nat);
        }
    }
}

proof fn lemma_mapped_quiet(s: Setting, n: nat)
    requires
        setting_ok(s),
        leaves_below(s),
        n <= s.graph.sccs@.len(),
    ensures
        mapped(s, n) matches Ok(m) ==> forall|v: int|
            0 <= v < s.graph.size() && s.graph.scc_of@[v] < n && #[trigger] waits(s, m, v)
                ==> best_choice(s, m, v, s.cuts[v].len()) is None,
    decreases n,
{
    if n > 0 {
        lemma_mapped_quiet(s, (n - 1) as nat);
        mapping_is_consistent(s, (n - 1) as nat);
        let prev = mapped(s, (n - 1) as nat);
        let r = mapped(s, n);
        if r is Ok {
            let a = prev->Ok_0;
            let b = r->Ok_0;
            let si = n - 1;
            let len = s.graph.sccs@[si]@.len();
            lemma_count_bound(len, open_members(s, a, si));
            lemma_passes_quiet(s, si, a, len + 1);
            lemma_passes_frame(s, si, a, len + 1, si - 1);
            assert forall|v: int|
                0 <= v < s.graph.size() && s.graph.scc_of@[v] < n && #[trigger] waits(
                    s,
                    b,
                    v,
                ) implies best_choice(s, b, v, s.cuts[v].len()) is None by {
                if s.graph.scc_of@[v] < si {
                    assert(waits(s, a, v));
                    lemma_best_agrees(s, a, b, v, s.cuts[v].len(), si - 1);
                } else {
                    assert(s.graph.sccs@[s.graph.scc_of@[v] as int]@.contains(v as u32));
                    let comp = s.graph.sccs@[si]@;
                    let i = choose|i: int| 0 <= i < comp.len() && comp[i] == v as u32;
                    assert(waits(s, b, s.graph.sccs@[si]@[i] as int));
                }
            }
        }
    }
}

/// A class of the cone that cannot be emitted in the end has no offer: no cell of the index
/// matches one of its cuts over classes that can be emitted.
pub proof fn unmatched_classes_have_no_offer(s: Setting, m: Mapping, v: int)
    requires
        setting_ok(s),
        leaves_below(s),
        mapped(s, s.graph.sccs@.len()) == Ok::<Mapping, UnsoundClass>(m),
        0 <= v < s.graph.size(),
        s.cone[v],
        !m.emit[v],
    ensures
        best_choice(s, m, v, s.cuts[v].len()) is None,
{
    let n = s.graph.sccs@.len();
    mapping_is_consistent(s, n);
    emitted_classes(s, v);
    lemma_mapped_quiet(s, n);
    assert(s.graph.scc_of@[v] < n);
    assert(class_ok(s, m, v));
    assert(waits(s, m, v));
}

/// Enumerated cuts have their leaves in the component of their class or an earlier one.
pub proof fn enumerated_leaves_lie_below(
    graph: &ClassGraph,
    params: CutParams,
    kernels: Seq<Kernel>,
    cone: Seq<bool>,
    st: Sweep,
    v: int,
    ci: int,
    j: int,
)
    requires
        graph.wf(),
        graph.condensed(),
        sweep_ok(graph, params, kernels, cone, st),
        0 <= v < graph.size(),
        0 <= ci < st.cuts[v].len(),
        0 <= j < st.cuts[v][ci].leaves.len(),
    ensures
        st.cuts[v][ci].leaves[j] < graph.size(),
        graph.scc_of@[st.cuts[v][ci].leaves[j] as int] <= graph.scc_of@[v],
    decreases st.rank[v],
{
    assert(list_ok(graph, params, kernels, cone, st.cuts, st.rank, v));
    let c = st.cuts[v][ci];
    let l = c.leaves[j];
    if ci == 0 {
        assert(trivial(graph, kernels, v, c));
    } else {
        assert(realized(graph, kernels, st.cuts, st.rank, v, c));
        let (e, chosen) = c.realization->0;
        let cs = operands(graph, st.cuts, e as int, chosen);
        assert(some_has(cs, c.leaves[j]));
        let k = choose|k: int| 0 <= k < cs.len() && (#[trigger] cs[k]).leaves.contains(l);
        let q = choose|q: int| 0 <= q < cs[k].leaves.len() && cs[k].leaves[q] == l;
        let w = graph.children(e as int)[k];
        assert(graph.enodes@[e as int].ch_eq@[k] < graph.size());
        assert(chosen[k] < st.cuts[w as int].len());
        assert(st.rank[w as int] < st.rank[v]);
        lemma_child_earlier(graph, e as int, k);
        enumerated_leaves_lie_below(
            graph,
            params,
            kernels,
            cone,
            st,
            w as int,
            chosen[k] as int,
            q,
        );
    }
}

} // verus!
