//! Mapping an e-graph onto a cell library.
use std::collections::HashMap;

use vstd::prelude::*;
use vstd::std_specs::hash::*;

use crate::class_graph::ClassGraph;
use crate::cost::Cost;
use crate::cut_iter::{map_texts, CutIterator};
use crate::kernel::{class_kind, kind_of, ClassKind, Kernel};
use crate::leaves::copy_list;
use crate::library::{arities_ok, arity_ok, ArityError, CellSpec};
use crate::mapping::{
    bad_roots, choice_view, choice_views, enumerated_cuts_fit, lemma_choice_cell, map_cuts,
    map_stats_ok, mapped, mapping_ok, objective_of, plus_total, setting, setting_ok, share_total,
    unmatched_classes, Choice, MapError, MapOutput, MapStats, Mapping, Setting,
};
use crate::names::{name_order, orders, texts};
use crate::tally::count;

verus! {

/// Why no mapping could be made.
#[derive(Clone, Copy, Debug, PartialEq, Eq, Structural)]
pub enum MapperError {
    /// The cell table is empty.
    NoCells,
    /// The mapping failed.
    Mapping(MapError),
}

/// A cell chosen for a class, as it is shown to callers.
#[derive(Debug)]
pub struct Decision {
    pub class: usize,
    /// Name of the cell.
    pub cell: String,
    /// Classes that feed the cell, in pin order.
    pub inputs: Vec<u32>,
    /// Index of the cut in the class's cut list.
    pub cut: usize,
    pub arrival: Cost,
    pub flow: Cost,
}

/// The names of the cells.
pub open spec fn cell_names(cells: Seq<CellSpec>) -> Seq<Seq<char>> {
    Seq::new(cells.len(), |i: int| cells[i].name@)
}

/// The cells in the given order.
pub open spec fn cells_in_order(cells: Seq<CellSpec>, order: Seq<usize>) -> Seq<CellSpec> {
    Seq::new(order.len(), |i: int| cells[order[i] as int])
}

/// The constants among the first `n` classes that can be emitted.
pub open spec fn emitted_constants(
    graph: &ClassGraph,
    kernels: Seq<Kernel>,
    m: Mapping,
    n: nat,
) -> Map<u32, u64>
    decreases n,
{
    if n == 0 {
        Map::empty()
    } else {
        let rest = emitted_constants(graph, kernels, m, (n - 1) as nat);
        match kind_of(graph, kernels, n - 1) {
            Some(ClassKind::Const(c)) => if m.emit[n - 1] && m.choices[n - 1] is None {
                rest.insert((n - 1) as u32, c)
            } else {
                rest
            },
            _ => rest,
        }
    }
}

/// The indices below `n` with the property, in order.
pub open spec fn selected(p: spec_fn(int) -> bool, n: nat) -> Seq<usize>
    decreases n,
{
    if n == 0 {
        Seq::empty()
    } else {
        let rest = selected(p, (n - 1) as nat);
        if p(n - 1) {
            rest.push((n - 1) as usize)
        } else {
            rest
        }
    }
}

/// Mapping decisions over the cut sets of an enumeration.
#[derive(Debug)]
pub struct CutMapper {
    pub choices: Vec<Option<Choice>>,
    pub emit_ok: Vec<bool>,
    pub cone: Vec<bool>,
    /// The cells by name.
    pub cells: Vec<CellSpec>,
    pub stats: MapStats,
    /// Constants by class.
    pub const_classes: HashMap<u32, u64>,
    /// Names of the primary inputs by class.
    pub pi_names: HashMap<u32, String>,
}

impl CutMapper {
    /// What holds of every mapper.
    pub open spec fn wf(&self) -> bool {
        &&& self.choices@.len() == self.emit_ok@.len()
        &&& self.cone@.len() == self.emit_ok@.len()
        &&& forall|v: int|
            0 <= v < self.choices@.len() ==> (choice_view(#[trigger] self.choices@[v]) matches Some(
                c,
            ) ==> c.cell < self.cells@.len())
    }

    /// The mapper holds the final state `m` of the mapping in the setting `s`.
    pub open spec fn shows(
        &self,
        it: &CutIterator,
        s: Setting,
        m: Mapping,
    ) -> bool {
        &&& choice_views(self.choices@) == m.choices
        &&& self.emit_ok@ == m.emit
        &&& self.cone@ == it.cone@
        &&& self.cells@ == s.cells
        &&& map_stats_ok(s, m, it.root_ids@, self.stats)
        &&& self.const_classes@ == emitted_constants(
            &it.graph,
            it.kernels@,
            m,
            it.graph.size(),
        )
        &&& map_texts(self.pi_names@) == map_texts(it.pi_names@)
    }

    /// Chooses a cell of the library for every class of the iterator that one can be found
    /// for. The cells are taken in the order of their names.
    pub fn new<
        S: Fn(Cost, u32) -> Cost,
        P: Fn(Cost, Cost) -> Cost,
    >(
        it: &CutIterator,
        cells: &Vec<CellSpec>,
        objective: &str,
        share: &S,
        plus: &P,
    ) -> (r: Result<CutMapper, MapperError>)
        requires
            it.wf(),
            share_total(*share),
            plus_total(*plus),
        ensures
            cells@.len() == 0 ==> r == Err::<CutMapper, MapperError>(MapperError::NoCells),
            cells@.len() > 0 ==> exists|order: Seq<usize>|
                #[trigger] orders(cell_names(cells@), order) && maps(
                    it,
                    cells_in_order(cells@, order),
                    objective@,
                    *share,
                    *plus,
                    r,
                ),
    {
        if cells.len() == 0 {
            return Err(MapperError::NoCells);
        }
        let mut names: Vec<String> = Vec::new();
        while names.len() < cells.len()
            invariant
                names@.len() <= cells@.len(),
                forall|i: int| 0 <= i < names@.len() ==> (#[trigger] names@[i])@ == cells@[i].name@,
            decreases cells@.len() - names@.len(),
        {
            let i: usize = names.len();
            names.push(cells[i].name.clone());
        }
        assert(texts(names@) =~= cell_names(cells@));
        let order: Vec<usize> = name_order(&names);
        let mut sorted: Vec<CellSpec> = Vec::new();
        while sorted.len() < order.len()
            invariant
                sorted@.len() <= order@.len(),
                forall|i: int| 0 <= i < order@.len() ==> (#[trigger] order@[i]) < cells@.len(),
                forall|i: int|
                    0 <= i < sorted@.len() ==> #[trigger] sorted@[i] == cells@[order@[i] as int],
            decreases order@.len() - sorted@.len(),
        {
            let i: usize = order[sorted.len()];
            let c: &CellSpec = &cells[i];
            sorted.push(
                CellSpec {
                    name: c.name.clone(),
                    arity: c.arity,
                    tt: c.tt,
                    area: c.area,
                    delay: c.delay,
                },
            );
        }
        assert(sorted@ =~= cells_in_order(cells@, order@));
        let r = CutMapper::over(it, sorted, objective, share, plus);
        assert(orders(cell_names(cells@), order@));
        r
    }

    /// Chooses a cell of the library, taken in the given order, for every class.
    pub fn over<
        S: Fn(Cost, u32) -> Cost,
        P: Fn(Cost, Cost) -> Cost,
    >(
        it: &CutIterator,
        cells: Vec<CellSpec>,
        objective: &str,
        share: &S,
        plus: &P,
    ) -> (r: Result<CutMapper, MapperError>)
        requires
            it.wf(),
            share_total(*share),
            plus_total(*plus),
        ensures
            maps(it, cells@, objective@, *share, *plus, r),
    {
        broadcast use group_hash_axioms;

        let ghost st = it.sweep();
        proof {
            enumerated_cuts_fit(&it.graph, it.params, it.kernels@, it.cone@, st);
        }
        let out: MapOutput = match map_cuts(
            &it.graph,
            &it.result,
            &it.kernels,
            &it.cone,
            &it.root_ids,
            &cells,
            objective,
            share,
            plus,
        ) {
            Ok(out) => out,
            Err(e) => {
                return Err(MapperError::Mapping(e));
            },
        };
        let ghost s = setting(
            &it.graph,
            it.kernels@,
            it.cone@,
            st.cuts,
            cells@,
            objective_of(objective@)->0,
            *share,
            *plus,
        );
        let ghost m = mapped(s, it.graph.sccs@.len())->Ok_0;
        let n: usize = it.graph.classes.len();
        let mut const_classes: HashMap<u32, u64> = HashMap::new();
        let mut pi_names: HashMap<u32, String> = HashMap::new();
        let mut v: usize = 0;
        while v < n
            invariant
                v <= n,
                n == it.graph.size(),
                it.wf(),
                out.shows(m),
                mapping_ok(s, m),
                s.graph == it.graph,
                const_classes@ == emitted_constants(&it.graph, it.kernels@, m, v as nat),
                forall|k: u32|
                    #[trigger] pi_names@.dom().contains(k) <==> k < v && it.pi_names@.dom().contains(
                        k,
                    ),
                forall|k: u32|
                    #[trigger] pi_names@.dom().contains(k) ==> pi_names@[k]@ == it.pi_names@[k]@,
            decreases n - v,
        {
            assert(choice_views(out.choices@)[v as int] == choice_view(out.choices@[v as int]));
            if out.emit_ok[v] && out.choices[v].is_none() {
                match class_kind(&it.graph, &it.kernels, v) {
                    Ok(ClassKind::Const(c)) => {
                        const_classes.insert(v as u32, c);
                    },
                    _ => {},
                }
            }
            match it.pi_names.get(&(v as u32)) {
                Some(name) => {
                    pi_names.insert(v as u32, name.clone());
                },
                None => {},
            }
            v = v + 1;
        }
        let cone: Vec<bool> = copy_mask(&it.cone);
        proof {
            assert(map_texts(pi_names@) =~= map_texts(it.pi_names@)) by {
                assert forall|k: u32| map_texts(pi_names@).dom().contains(k) == map_texts(
                    it.pi_names@,
                ).dom().contains(k) by {
                    assert(pi_names@.dom().contains(k) <==> k < v && it.pi_names@.dom().contains(
                        k,
                    ));
                    if it.pi_names@.dom().contains(k) {
                        assert(k < it.graph.size());
                    }
                }
                assert forall|k: u32| map_texts(pi_names@).dom().contains(
                    k,
                ) implies #[trigger] map_texts(pi_names@)[k] == map_texts(it.pi_names@)[k] by {
                    assert(pi_names@.dom().contains(k));
                }
            }
            assert forall|w: int| 0 <= w < out.choices@.len() implies (choice_view(
                #[trigger] out.choices@[w],
            ) matches Some(c) ==> c.cell < cells@.len()) by {
                assert(choice_views(out.choices@)[w] == choice_view(out.choices@[w]));
                if m.choices[w] is Some {
                    lemma_choice_cell(s, m, w);
                }
            }
        }
        Ok(
            CutMapper {
                choices: out.choices,
                emit_ok: out.emit_ok,
                cone,
                cells,
                stats: out.stats,
                const_classes,
                pi_names,
            },
        )
    }

    /// The chosen cells by class.
    pub fn decisions(&self) -> (r: Vec<Decision>)
        requires
            self.wf(),
        ensures
            r@.len() == self.decided(self.choices@.len()).len(),
            forall|i: int|
                0 <= i < r@.len() ==> self.tells(
                    #[trigger] r@[i],
                    self.decided(self.choices@.len())[i] as int,
                ),
    {
        let mut r: Vec<Decision> = Vec::new();
        let mut v: usize = 0;
        while v < self.choices.len()
            invariant
                v <= self.choices@.len(),
                self.wf(),
                r@.len() == self.decided(v as nat).len(),
                forall|i: int|
                    0 <= i < r@.len() ==> self.tells(
                        #[trigger] r@[i],
                        self.decided(v as nat)[i] as int,
                    ),
            decreases self.choices@.len() - v,
        {
            let ghost before = self.decided(v as nat);
            match &self.choices[v] {
                None => {},
                Some(c) => {
                    assert(choice_view(self.choices@[v as int]) == Some(c@));
                    r.push(
                        Decision {
                            class: v,
                            cell: self.cells[c.cell].name.clone(),
                            inputs: copy_list(&c.inputs),
                            cut: c.cut,
                            arrival: c.arrival,
                            flow: c.flow,
                        },
                    );
                    assert(self.decided((v + 1) as nat) == before.push(v));
                },
            }
            v = v + 1;
        }
        r
    }

    /// The classes among the first `n` that have a cell, in order.
    pub open spec fn decided(&self, n: nat) -> Seq<usize> {
        selected(self.has_cell(), n)
    }

    /// The classes that have a cell.
    pub open spec fn has_cell(&self) -> spec_fn(int) -> bool {
        |v: int| self.choices@[v] is Some
    }

    /// The decision is that of class `v`.
    pub open spec fn tells(&self, d: Decision, v: int) -> bool {
        &&& choice_view(self.choices@[v]) matches Some(c)
        &&& d.class == v
        &&& d.cell@ == self.cells@[c.cell as int].name@
        &&& d.inputs@ == c.inputs
        &&& d.cut == c.cut
        &&& d.arrival == c.arrival
        &&& d.flow == c.flow
    }

    /// The classes of the cone that cannot be emitted.
    pub fn unmatched_classes(&self) -> (r: Vec<usize>)
        requires
            self.wf(),
        ensures
            r@ == selected(unmatched_classes(self.cone@, self.emit_ok@), self.emit_ok@.len()),
    {
        let mut r: Vec<usize> = Vec::new();
        let mut v: usize = 0;
        while v < self.emit_ok.len()
            invariant
                v <= self.emit_ok@.len(),
                self.wf(),
                r@ == selected(unmatched_classes(self.cone@, self.emit_ok@), v as nat),
            decreases self.emit_ok@.len() - v,
        {
            if self.cone[v] && !self.emit_ok[v] {
                r.push(v);
            }
            v = v + 1;
        }
        r
    }

    /// Names of the primary inputs by class.
    pub fn pi_names(&self) -> (r: &HashMap<u32, String>)
        ensures
            *r == self.pi_names,
    {
        &self.pi_names
    }

    /// Constants by class.
    pub fn const_classes(&self) -> (r: &HashMap<u32, u64>)
        ensures
            *r == self.const_classes,
    {
        &self.const_classes
    }

    /// Statistics of the mapping.
    pub fn stats(&self) -> (r: &MapStats)
        ensures
            *r == self.stats,
    {
        &self.stats
    }
}

/// A copy of a mask.
fn copy_mask(s: &Vec<bool>) -> (r: Vec<bool>)
    ensures
        r@ == s@,
{
    let mut r: Vec<bool> = Vec::new();
    while r.len() < s.len()
        invariant
            r@.len() <= s@.len(),
            forall|i: int| 0 <= i < r@.len() ==> #[trigger] r@[i] == s@[i],
        decreases s@.len() - r@.len(),
    {
        let i: usize = r.len();
        r.push(s[i]);
    }
    assert(r@ =~= s@);
    r
}

/// `r` is the outcome of mapping the iterator's cuts onto the cells, taken in the given
/// order.
pub open spec fn maps<
    S: Fn(Cost, u32) -> Cost,
    P: Fn(Cost, Cost) -> Cost,
>(
    it: &CutIterator,
    cells: Seq<CellSpec>,
    objective: Seq<char>,
    share: S,
    plus: P,
    r: Result<CutMapper, MapperError>,
) -> bool {
    match objective_of(objective) {
        None => r == Err::<CutMapper, MapperError>(MapperError::Mapping(MapError::Objective)),
        Some(delay_first) => if !arities_ok(cells, cells.len() as int) {
            exists|i: int|
                0 <= i < cells.len() && !arity_ok(#[trigger] cells[i]) && arities_ok(cells, i) && r
                    == Err::<CutMapper, MapperError>(
                    MapperError::Mapping(MapError::Arity(ArityError { cell: i as usize })),
                )
        } else {
            let s = setting(
                &it.graph,
                it.kernels@,
                it.cone@,
                it.sweep().cuts,
                cells,
                delay_first,
                share,
                plus,
            );
            match mapped(s, it.graph.sccs@.len()) {
                Err(e) => r == Err::<CutMapper, MapperError>(
                    MapperError::Mapping(MapError::Unsound(e)),
                ),
                Ok(m) => {
                    let bad = count(it.root_ids@.len(), bad_roots(m.emit, it.root_ids@));
                    &&& setting_ok(s)
                    &&& mapping_ok(s, m)
                    &&& if bad > 0 {
                        r == Err::<CutMapper, MapperError>(
                            MapperError::Mapping(
                                (MapError::Unmappable {
                                    bad: bad as usize,
                                    roots: it.root_ids@.len() as usize,
                                    unmatched: count(
                                        it.graph.size(),
                                        unmatched_classes(it.cone@, m.emit),
                                    ) as usize,
                                }),
                            ),
                        )
                    } else {
                        r matches Ok(cm) && cm.wf() && cm.shows(it, s, m)
                    }
                },
            }
        },
    }
}

proof fn lemma_selected_len(p: spec_fn(int) -> bool, n: nat)
    ensures
        selected(p, n).len() == count(n, p),
    decreases n,
{
    if n > 0 {
        lemma_selected_len(p, (n - 1) as nat);
    }
}

/// As many classes are listed as unmatched and as mapped as the statistics count.
pub proof fn listed_classes_are_counted(
    cm: &CutMapper,
    it: &CutIterator,
    s: Setting,
    m: Mapping,
)
    requires
        cm.shows(it, s, m),
        s.graph == it.graph,
        s.cone == it.cone@,
        m.emit.len() == it.graph.size(),
        m.choices.len() == it.graph.size(),
    ensures
        selected(unmatched_classes(cm.cone@, cm.emit_ok@), cm.emit_ok@.len()).len()
            == cm.stats.num_unmatched,
        cm.decided(cm.choices@.len()).len() == cm.stats.num_mapped,
{
    lemma_selected_len(unmatched_classes(cm.cone@, cm.emit_ok@), cm.emit_ok@.len());
    let n = cm.choices@.len();
    lemma_selected_len(cm.has_cell(), n);
    crate::tally::lemma_count_ext(n, cm.has_cell(), crate::mapping::mapped_classes(m.choices));
}

} // verus!
