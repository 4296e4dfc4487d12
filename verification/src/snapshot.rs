//! Taking the class graph of an e-graph.
use std::collections::HashMap;

use egglog::EGraph;
use vstd::prelude::*;
use vstd::std_specs::hash::*;

use crate::class_graph::{ClassGraph, Enode, FuncTab};
use crate::cost::Cost;
use crate::egraph::{
    canonical_of, canonical_value, constructor_rows, constructors_of, entries_of, find_function,
    find_sort, function_rows, functions_of, own_tables_of, row_views, sort_views, sorts_of,
    strings_known, strings_of, well_typed, FunctionInfo, FunctionView, Row, RowView, SortInfo,
    SortView,
};
use crate::names::{
    before, different_names_are_ordered, lemma_order_strict, name_order, orders,
    sorted_order_is_unique, texts,
};
use crate::truth::same_str;

verus! {

// -------------------------------------------------------------------- interning

/// A row of a constructor's table with canonical class values.
#[derive(Debug)]
pub struct NodeRow {
    /// Index of the constructor.
    pub func: usize,
    /// Values of the children that are classes, in position order.
    pub children: Vec<u32>,
    /// (position, value) of the primitive children.
    pub prims: Vec<(u32, u32)>,
    /// Value of the output.
    pub out: u32,
    pub head: Cost,
}

#[verifier::ext_equal]
pub struct NodeRowView {
    pub func: usize,
    pub children: Seq<u32>,
    pub prims: Seq<(u32, u32)>,
    pub out: u32,
    pub head: Cost,
}

impl View for NodeRow {
    type V = NodeRowView;

    open spec fn view(&self) -> NodeRowView {
        NodeRowView {
            func: self.func,
            children: self.children@,
            prims: self.prims@,
            out: self.out,
            head: self.head,
        }
    }
}

/// The values of a list of rows.
pub open spec fn node_views(s: Seq<NodeRow>) -> Seq<NodeRowView> {
    Seq::new(s.len(), |i: int| s[i]@)
}

/// The class values of the first `n` rows: of each row its children's, then its own.
pub open spec fn touched(rows: Seq<NodeRowView>, n: nat) -> Seq<u32>
    decreases n,
{
    if n == 0 {
        Seq::empty()
    } else {
        (touched(rows, (n - 1) as nat) + rows[n - 1].children).push(rows[n - 1].out)
    }
}

/// The values of `s`, each once, in the order of their first occurrence.
pub open spec fn first_touch(s: Seq<u32>) -> Seq<u32>
    decreases s.len(),
{
    if s.len() == 0 {
        s
    } else {
        let rest = first_touch(s.drop_last());
        if rest.contains(s.last()) {
            rest
        } else {
            rest.push(s.last())
        }
    }
}

/// `list` holds the indices of the e-nodes of class `v`, in order.
pub open spec fn lists_enodes(list: Seq<usize>, enodes: Seq<Enode>, v: int) -> bool {
    &&& forall|i: int, j: int|
        0 <= i < list.len() && 0 <= j < list.len() && i < j ==> (#[trigger] list[i]) < (
        #[trigger] list[j])
    &&& forall|e: usize|
        e < enodes.len() && (#[trigger] enodes[e as int]).out == v ==> list.contains(e)
    &&& forall|i: int|
        0 <= i < list.len() ==> (#[trigger] list[i]) < enodes.len() && enodes[list[i] as int].out
            == v
}

/// E-node `x` stands for the row `r`, class values by class index.
pub open spec fn stands_for(x: Enode, classes: Seq<u32>, r: NodeRowView) -> bool {
    &&& x.func == r.func
    &&& x.head == r.head
    &&& x.ch_prim@ == r.prims
    &&& x.ch_eq@.len() == r.children.len()
    &&& forall|j: int|
        0 <= j < x.ch_eq@.len() ==> (#[trigger] x.ch_eq@[j]) < classes.len()
            && classes[x.ch_eq@[j] as int] == r.children[j]
    &&& x.out < classes.len()
    &&& classes[x.out as int] == r.out
}

/// `index` gives back the position of each class value.
pub open spec fn indexes(index: Map<u32, u32>, classes: Seq<u32>) -> bool {
    &&& forall|v: u32| #[trigger] index.dom().contains(v) <==> classes.contains(v)
    &&& forall|i: int| 0 <= i < classes.len() ==> index[#[trigger] classes[i]] == i
}

impl ClassGraph {
    /// The graph shows the given rows: an e-node each, in order, and their class values as
    /// classes in the order of the first touch.
    pub open spec fn shows(&self, rows: Seq<NodeRowView>) -> bool {
        &&& self.classes@ == first_touch(touched(rows, rows.len()))
        &&& indexes(self.class_index@, self.classes@)
        &&& self.enodes@.len() == rows.len()
        &&& forall|e: int|
            0 <= e < rows.len() ==> stands_for(
                #[trigger] self.enodes@[e],
                self.classes@,
                rows[e],
            )
        &&& self.enodes_of@.len() == self.classes@.len()
        &&& forall|v: int|
            0 <= v < self.classes@.len() ==> lists_enodes(
                (#[trigger] self.enodes_of@[v])@,
                self.enodes@,
                v,
            )
    }
}

/// The classes found so far.
struct Intern {
    classes: Vec<u32>,
    index: HashMap<u32, u32>,
    enodes_of: Vec<Vec<usize>>,
}

impl Intern {
    spec fn ok(&self, t: Seq<u32>) -> bool {
        &&& self.classes@ == first_touch(t)
        &&& self.classes@.len() <= u32::MAX
        &&& indexes(self.index@, self.classes@)
        &&& self.enodes_of@.len() == self.classes@.len()
    }

    /// Index of the class with value `v`, which may be new; `None` where no index is left.
    fn intern(&mut self, v: u32, Ghost(t): Ghost<Seq<u32>>) -> (r: Option<u32>)
        requires
            old(self).ok(t),
        ensures
            match r {
                Some(i) => final(self).ok(t.push(v)) && i < final(self).classes@.len()
                    && final(self).classes@[i as int] == v,
                None => first_touch(t.push(v)).len() > u32::MAX,
            },
            old(self).classes@.is_prefix_of(final(self).classes@),
            forall|w: int|
                0 <= w < old(self).enodes_of@.len() ==> w < final(self).enodes_of@.len()
                    && #[trigger] final(self).enodes_of@[w] == old(self).enodes_of@[w],
            forall|w: int|
                old(self).enodes_of@.len() <= w < final(self).enodes_of@.len() ==> (
                #[trigger] final(self).enodes_of@[w])@.len() == 0,
    {
        broadcast use group_hash_axioms;

        let ghost c0 = self.classes@;
        assert(t.push(v).drop_last() =~= t);
        if let Some(i) = self.index.get(&v) {
            let i: u32 = *i;
            proof {
                assert(self.index@.dom().contains(v));
                let k = choose|k: int| 0 <= k < c0.len() && c0[k] == v;
                assert(self.index@[c0[k]] == k);
            }
            return Some(i);
        }
        assert(!self.index@.dom().contains(v));
        if self.classes.len() >= 0xffff_ffff {
            return None;
        }
        let i: u32 = self.classes.len() as u32;
        let ghost m0 = self.index@;
        self.classes.push(v);
        self.index.insert(v, i);
        self.enodes_of.push(Vec::new());
        proof {
            let c1 = self.classes@;
            assert forall|w: u32| #[trigger] self.index@.dom().contains(w) <==> c1.contains(w) by {
                if c0.contains(w) {
                    let k = choose|k: int| 0 <= k < c0.len() && c0[k] == w;
                    assert(c1[k] == w);
                }
                if w == v {
                    assert(c1[c0.len() as int] == v);
                }
                if c1.contains(w) && w != v {
                    let k = choose|k: int| 0 <= k < c1.len() && c1[k] == w;
                    assert(c0[k] == w);
                }
                assert(m0.dom().contains(w) <==> c0.contains(w));
            }
            assert forall|k: int| 0 <= k < c1.len() implies self.index@[#[trigger] c1[k]] == k by {
                if k < c0.len() {
                    assert(c0[k] == c1[k]);
                    assert(c0.contains(c0[k]));
                }
            }
        }
        Some(i)
    }
}

/// Interning never drops a value.
proof fn lemma_first_touch_grows(s: Seq<u32>, t: Seq<u32>)
    ensures
        first_touch(s).len() <= first_touch(s + t).len(),
    decreases t.len(),
{
    if t.len() == 0 {
        assert(s + t =~= s);
    } else {
        lemma_first_touch_grows(s, t.drop_last());
        assert((s + t).drop_last() =~= s + t.drop_last());
    }
}

proof fn lemma_touched_grows(rows: Seq<NodeRowView>, n: nat, m: nat)
    requires
        n <= m,
    ensures
        exists|rest: Seq<u32>| touched(rows, m) == #[trigger] (touched(rows, n) + rest),
    decreases m,
{
    if n == m {
        assert(touched(rows, m) =~= touched(rows, n) + Seq::<u32>::empty());
    } else {
        lemma_touched_grows(rows, n, (m - 1) as nat);
        let rest = choose|rest: Seq<u32>|
            touched(rows, (m - 1) as nat) == #[trigger] (touched(rows, n) + rest);
        let more = (rest + rows[m - 1].children).push(rows[m - 1].out);
        assert(touched(rows, m) =~= touched(rows, n) + more);
    }
}

/// Too many values among the first ones are too many in all.
proof fn lemma_too_many(rows: Seq<NodeRowView>, n: nat, t: Seq<u32>, rest: Seq<u32>)
    requires
        n <= rows.len(),
        touched(rows, n) == t + rest,
        first_touch(t).len() > u32::MAX,
    ensures
        first_touch(touched(rows, rows.len())).len() > u32::MAX,
{
    lemma_touched_grows(rows, n, rows.len());
    let more = choose|more: Seq<u32>|
        touched(rows, rows.len()) == #[trigger] (touched(rows, n) + more);
    assert(touched(rows, rows.len()) =~= t + (rest + more));
    lemma_first_touch_grows(t, rest + more);
}

/// A copy of a list of pairs.
fn copy_pairs(s: &Vec<(u32, u32)>) -> (r: Vec<(u32, u32)>)
    ensures
        r@ == s@,
{
    let mut r: Vec<(u32, u32)> = Vec::new();
    let mut i: usize = 0;
    while i < s.len()
        invariant
            i <= s@.len(),
            r@ == s@.take(i as int),
        decreases s@.len() - i,
    {
        r.push(s[i]);
        assert(s@.take(i as int).push(s@[i as int]) =~= s@.take(i + 1));
        i = i + 1;
    }
    assert(s@.take(i as int) =~= s@);
    r
}

/// The class graph of the given constructors and rows; `None` where there are more classes
/// than 32-bit indices.
pub fn assemble(funcs: Vec<FuncTab>, rows: &Vec<NodeRow>) -> (r: Option<ClassGraph>)
    ensures
        match r {
            Some(g) => g.funcs == funcs && g.shows(node_views(rows@)) && g.wf() && g.condensed(),
            None => first_touch(touched(node_views(rows@), rows@.len())).len() > u32::MAX,
        },
{
    broadcast use group_hash_axioms;

    let ghost vs = node_views(rows@);
    let mut st: Intern = Intern {
        classes: Vec::new(),
        index: HashMap::new(),
        enodes_of: Vec::new(),
    };
    let mut enodes: Vec<Enode> = Vec::new();
    assert(st.ok(touched(vs, 0)));
    while enodes.len() < rows.len()
        invariant
            enodes@.len() <= rows@.len(),
            vs == node_views(rows@),
            st.ok(touched(vs, enodes@.len())),
            forall|e: int|
                0 <= e < enodes@.len() ==> stands_for(#[trigger] enodes@[e], st.classes@, vs[e]),
            forall|v: int|
                0 <= v < st.classes@.len() ==> lists_enodes(
                    (#[trigger] st.enodes_of@[v])@,
                    enodes@,
                    v,
                ),
        decreases rows@.len() - enodes@.len(),
    {
        let e: usize = enodes.len();
        let ghost t0 = touched(vs, e as nat);
        let row: &NodeRow = &rows[e];
        assert(vs[e as int] == row@);
        let mut ch_eq: Vec<u32> = Vec::new();
        assert(t0 + row.children@.take(0) =~= t0);
        while ch_eq.len() < row.children.len()
            invariant
                ch_eq@.len() <= row.children@.len(),
                e == enodes@.len(),
                e < rows@.len(),
                vs == node_views(rows@),
                vs[e as int] == row@,
                t0 == touched(vs, e as nat),
                st.ok(t0 + row.children@.take(ch_eq@.len() as int)),
                forall|j: int|
                    0 <= j < ch_eq@.len() ==> (#[trigger] ch_eq@[j]) < st.classes@.len()
                        && st.classes@[ch_eq@[j] as int] == row.children@[j],
                forall|x: int|
                    0 <= x < enodes@.len() ==> stands_for(
                        #[trigger] enodes@[x],
                        st.classes@,
                        vs[x],
                    ),
                forall|v: int|
                    0 <= v < st.classes@.len() ==> lists_enodes(
                        (#[trigger] st.enodes_of@[v])@,
                        enodes@,
                        v,
                    ),
            decreases row.children@.len() - ch_eq@.len(),
        {
            let j: usize = ch_eq.len();
            let ghost t = t0 + row.children@.take(j as int);
            let ghost c0 = st.classes@;
            let ghost l0 = st.enodes_of@;
            let x: u32 = row.children[j];
            assert(t.push(x) =~= t0 + row.children@.take(j + 1));
            match st.intern(x, Ghost(t)) {
                Some(i) => {
                    proof {
                        lemma_grown(enodes@, vs, c0, st.classes@, l0, st.enodes_of@);
                    }
                    ch_eq.push(i);
                },
                None => {
                    proof {
                        let rest = row.children@.skip(j + 1).push(row.out);
                        assert(touched(vs, (e + 1) as nat) =~= t.push(x) + rest);
                        lemma_too_many(vs, (e + 1) as nat, t.push(x), rest);
                    }
                    return None;
                },
            }
        }
        let ghost t = t0 + row.children@;
        assert(row.children@.take(ch_eq@.len() as int) =~= row.children@);
        let ghost c0 = st.classes@;
        let ghost l0 = st.enodes_of@;
        match st.intern(row.out, Ghost(t)) {
            None => {
                proof {
                    assert(touched(vs, (e + 1) as nat) =~= t.push(row.out) + Seq::<u32>::empty());
                    lemma_too_many(vs, (e + 1) as nat, t.push(row.out), Seq::empty());
                }
                return None;
            },
            Some(oi) => {
                proof {
                    lemma_grown(enodes@, vs, c0, st.classes@, l0, st.enodes_of@);
                }
                let ghost e0 = enodes@;
                let ghost l1 = st.enodes_of@;
                st.enodes_of[oi as usize].push(e);
                enodes.push(
                    Enode {
                        func: row.func,
                        out: oi,
                        ch_eq,
                        ch_prim: copy_pairs(&row.prims),
                        head: row.head,
                    },
                );
                proof {
                    assert(stands_for(enodes@[e as int], st.classes@, vs[e as int]));
                    assert forall|x: int| 0 <= x < enodes@.len() implies stands_for(
                        #[trigger] enodes@[x],
                        st.classes@,
                        vs[x],
                    ) by {
                        if x < e {
                            assert(stands_for(e0[x], st.classes@, vs[x]));
                        }
                    }
                    assert forall|v: int| 0 <= v < st.classes@.len() implies lists_enodes(
                        (#[trigger] st.enodes_of@[v])@,
                        enodes@,
                        v,
                    ) by {
                        assert(lists_enodes(l1[v]@, e0, v));
                        let old_list = l1[v]@;
                        let list = st.enodes_of@[v]@;
                        assert forall|x: usize|
                            x < enodes@.len() && (
                            #[trigger] enodes@[x as int]).out == v implies list.contains(x) by {
                            if x < e {
                                assert(e0[x as int].out == v);
                                let k = choose|k: int|
                                    0 <= k < old_list.len() && old_list[k] == x;
                                assert(list[k] == x);
                            } else {
                                assert(list[old_list.len() as int] == e);
                            }
                        }
                        assert forall|i: int| 0 <= i < list.len() implies (#[trigger] list[i])
                            < enodes@.len() && enodes@[list[i] as int].out == v by {
                            if i < old_list.len() {
                                assert(old_list[i] < e0.len());
                                assert(list[i] == old_list[i]);
                            }
                        }
                        assert forall|i: int, j: int|
                            0 <= i < list.len() && 0 <= j < list.len() && i < j implies (
                        #[trigger] list[i]) < (#[trigger] list[j]) by {
                            assert(list[i] == old_list[i]);
                            assert(old_list[i] < e0.len());
                            if j < old_list.len() {
                                assert(old_list[i] < old_list[j]);
                            }
                        }
                    }
                }
            },
        }
    }
    proof {
        assert forall|e: int, i: int|
            0 <= e < enodes@.len() && 0 <= i < enodes@[e].ch_eq@.len() implies (
        #[trigger] enodes@[e].ch_eq@[i]) < st.classes@.len() by {
            assert(stands_for(enodes@[e], st.classes@, vs[e]));
        }
        assert forall|e: int| 0 <= e < enodes@.len() implies (#[trigger] enodes@[e]).out
            < st.classes@.len() by {
            assert(stands_for(enodes@[e], st.classes@, vs[e]));
        }
        assert forall|v: int, i: int|
            0 <= v < st.classes@.len() && 0 <= i < st.enodes_of@[v]@.len() implies (
        #[trigger] st.enodes_of@[v]@[i]) < enodes@.len() && enodes@[st.enodes_of@[v]@[i] as int].out == v by {
            assert(lists_enodes(st.enodes_of@[v]@, enodes@, v));
        }
    }
    Some(ClassGraph::condense(funcs, enodes, st.classes, st.index, st.enodes_of))
}

/// What holds of the e-nodes goes on to hold when classes are added.
proof fn lemma_grown(
    enodes: Seq<Enode>,
    vs: Seq<NodeRowView>,
    c0: Seq<u32>,
    c1: Seq<u32>,
    l0: Seq<Vec<usize>>,
    l1: Seq<Vec<usize>>,
)
    requires
        c0.is_prefix_of(c1),
        l0.len() == c0.len(),
        l1.len() == c1.len(),
        enodes.len() <= vs.len(),
        forall|e: int| 0 <= e < enodes.len() ==> stands_for(#[trigger] enodes[e], c0, vs[e]),
        forall|v: int|
            0 <= v < c0.len() ==> lists_enodes((#[trigger] l0[v])@, enodes, v),
        forall|w: int| 0 <= w < l0.len() ==> #[trigger] l1[w] == l0[w],
        forall|w: int| l0.len() <= w < l1.len() ==> (#[trigger] l1[w])@.len() == 0,
    ensures
        forall|e: int| 0 <= e < enodes.len() ==> stands_for(#[trigger] enodes[e], c1, vs[e]),
        forall|v: int|
            0 <= v < c1.len() ==> lists_enodes((#[trigger] l1[v])@, enodes, v),
        forall|i: int| 0 <= i < c0.len() ==> c1[i] == c0[i],
{
    assert forall|i: int| 0 <= i < c0.len() implies c1[i] == c0[i] by {
        assert(c1.subrange(0, c0.len() as int)[i] == c0[i]);
    }
    assert forall|e: int| 0 <= e < enodes.len() implies stands_for(
        #[trigger] enodes[e],
        c1,
        vs[e],
    ) by {
        assert(stands_for(enodes[e], c0, vs[e]));
    }
    assert forall|v: int| 0 <= v < c1.len() implies lists_enodes(
        (#[trigger] l1[v])@,
        enodes,
        v,
    ) by {
        if v < c0.len() {
            assert(lists_enodes(l0[v]@, enodes, v));
        } else {
            assert forall|e: usize| e < enodes.len() && (#[trigger] enodes[e as int]).out
                == v implies l1[v]@.contains(e) by {
                assert(stands_for(enodes[e as int], c0, vs[e as int]));
            }
        }
    }
}

// --------------------------------------------------------------------- scanning

/// The values at the positions that `mask` marks, among the first `n`.
pub open spec fn eq_children(mask: Seq<bool>, inputs: Seq<u32>, n: nat) -> Seq<u32>
    decreases n,
{
    if n == 0 {
        Seq::empty()
    } else {
        let rest = eq_children(mask, inputs, (n - 1) as nat);
        if mask[n - 1] {
            rest.push(inputs[n - 1])
        } else {
            rest
        }
    }
}

/// (position, value) at the positions that `mask` does not mark, among the first `n`.
pub open spec fn prim_children(mask: Seq<bool>, inputs: Seq<u32>, n: nat) -> Seq<(u32, u32)>
    decreases n,
{
    if n == 0 {
        Seq::empty()
    } else {
        let rest = prim_children(mask, inputs, (n - 1) as nat);
        if mask[n - 1] {
            rest
        } else {
            rest.push(((n - 1) as u32, inputs[n - 1]))
        }
    }
}

/// The canonical values in the given sort.
pub open spec fn canonical_all(eg: EGraph, sort: Seq<char>, s: Seq<u32>) -> Seq<u32> {
    Seq::new(s.len(), |i: int| canonical_of(eg)[(sort, s[i])])
}

/// A table row with canonical class values.
pub open spec fn node_row(
    eg: EGraph,
    sort: Seq<char>,
    func: int,
    mask: Seq<bool>,
    row: RowView,
    head: Cost,
) -> NodeRowView {
    NodeRowView {
        func: func as usize,
        children: canonical_all(eg, sort, eq_children(mask, row.inputs, mask.len())),
        prims: prim_children(mask, row.inputs, mask.len()),
        out: canonical_of(eg)[(sort, row.output)],
        head,
    }
}

/// The first `n` rows of a table, without those that are subsumed.
pub open spec fn live_rows(
    eg: EGraph,
    sort: Seq<char>,
    func: int,
    mask: Seq<bool>,
    rows: Seq<RowView>,
    head: Cost,
    n: nat,
) -> Seq<NodeRowView>
    decreases n,
{
    if n == 0 {
        Seq::empty()
    } else {
        let rest = live_rows(eg, sort, func, mask, rows, head, (n - 1) as nat);
        let row = rows[n - 1];
        if !row.subsumed && row.inputs.len() == mask.len() {
            rest.push(node_row(eg, sort, func, mask, row, head))
        } else {
            rest
        }
    }
}

/// A constructor: its name and which of its children are classes.
#[verifier::ext_equal]
pub struct FuncView {
    pub name: Seq<char>,
    pub mask: Seq<bool>,
}

/// What was found of the vocabulary.
#[verifier::ext_equal]
pub struct Scan {
    pub funcs: Seq<FuncView>,
    pub rows: Seq<NodeRowView>,
}

/// Why no class graph could be taken.
pub enum BuildFault {
    /// The e-graph has no such sort.
    UnknownSort,
    /// The sort's values are no e-classes.
    NotEqSort,
    /// The constructor's output is of another sort.
    WrongOutput { name: Seq<char>, output: Seq<char>, expected: Seq<char> },
    /// A constructor has a child that is neither of the sort nor a string.
    Unsupported,
    /// The rows of the constructor cannot be read.
    Unreadable { name: Seq<char> },
    /// There are more classes than 32-bit indices.
    TooManyClasses,
}

/// A child of sort `s` is supported: a class of the root sort, or a string.
pub open spec fn supported(root: SortView, s: SortView) -> bool {
    if s.eq {
        s.name == root.name
    } else {
        !s.container && s.name == "String"@
    }
}

/// Which children are classes.
pub open spec fn class_mask(inputs: Seq<SortView>) -> Seq<bool> {
    Seq::new(inputs.len(), |j: int| inputs[j].eq)
}

/// The tables that hold the rows of such a function.
pub open spec fn tables(eg: EGraph, f: FunctionView) -> Map<Seq<char>, Seq<RowView>> {
    if f.constructor {
        constructors_of(eg)
    } else {
        entries_of(eg)
    }
}

/// What is found of the first `n` names of the vocabulary. A name that the e-graph does
/// not have, or that is a `let` binding, is passed over.
pub open spec fn scanned(
    eg: EGraph,
    sort: Seq<char>,
    root: SortView,
    heads: Seq<(Seq<char>, Cost)>,
    n: nat,
) -> Result<Scan, BuildFault>
    decreases n,
{
    if n == 0 {
        Ok(Scan { funcs: Seq::empty(), rows: Seq::empty() })
    } else {
        match scanned(eg, sort, root, heads, (n - 1) as nat) {
            Err(e) => Err(e),
            Ok(s) => {
                let (name, head) = heads[n - 1];
                let f = functions_of(eg)[name];
                if !functions_of(eg).dom().contains(name) || f.let_binding {
                    Ok(s)
                } else if f.output != root.name {
                    Err(BuildFault::WrongOutput { name, output: f.output, expected: root.name })
                } else if exists|j: int|
                    0 <= j < f.inputs.len() && !supported(root, #[trigger] f.inputs[j]) {
                    Err(BuildFault::Unsupported)
                } else if !tables(eg, f).dom().contains(name) {
                    Err(BuildFault::Unreadable { name })
                } else {
                    let mask = class_mask(f.inputs);
                    let rows = tables(eg, f)[name];
                    Ok(
                        Scan {
                            funcs: s.funcs.push(FuncView { name, mask }),
                            rows: s.rows + live_rows(
                                eg,
                                sort,
                                s.funcs.len() as int,
                                mask,
                                rows,
                                head,
                                rows.len(),
                            ),
                        },
                    )
                }
            },
        }
    }
}

/// The vocabulary in the given order.
pub open spec fn in_order(heads: Seq<(String, Cost)>, order: Seq<usize>) -> Seq<(Seq<char>, Cost)> {
    Seq::new(order.len(), |i: int| (heads[order[i] as int].0@, heads[order[i] as int].1))
}

/// The names of the vocabulary.
pub open spec fn head_names(heads: Seq<(String, Cost)>) -> Seq<Seq<char>> {
    Seq::new(heads.len(), |i: int| heads[i].0@)
}

/// What the e-graph holds of the vocabulary, taken in the given order.
pub open spec fn snapshot(
    eg: EGraph,
    sort: Seq<char>,
    heads: Seq<(String, Cost)>,
    order: Seq<usize>,
) -> Result<Scan, BuildFault> {
    if !sorts_of(eg).dom().contains(sort) {
        Err(BuildFault::UnknownSort)
    } else if !sorts_of(eg)[sort].eq {
        Err(BuildFault::NotEqSort)
    } else {
        match scanned(eg, sort, sorts_of(eg)[sort], in_order(heads, order), order.len()) {
            Err(e) => Err(e),
            Ok(s) => if first_touch(touched(s.rows, s.rows.len())).len() > u32::MAX {
                Err(BuildFault::TooManyClasses)
            } else {
                Ok(s)
            },
        }
    }
}

/// The constructor table shows the constructors found.
pub open spec fn funcs_show(funcs: Seq<FuncTab>, s: Seq<FuncView>) -> bool {
    &&& funcs.len() == s.len()
    &&& forall|i: int|
        0 <= i < s.len() ==> (#[trigger] funcs[i]).term_name@ == s[i].name && funcs[i].eq_mask@
            == s[i].mask && funcs[i].arity == s[i].mask.len()
}

/// Every primitive child of an e-node stands for a string of the e-graph.
pub open spec fn texts_known(eg: EGraph, enodes: Seq<Enode>) -> bool {
    forall|e: int, j: int|
        0 <= e < enodes.len() && 0 <= j < enodes[e].ch_prim@.len() ==> strings_of(
            eg,
        ).dom().contains((#[trigger] enodes[e].ch_prim@[j]).1)
}

/// The tables of some constructors are well typed.
pub open spec fn funcs_typed(eg: EGraph, funcs: Seq<FuncView>) -> bool {
    forall|i: int| 0 <= i < funcs.len() ==> well_typed(eg, (#[trigger] funcs[i]).name)
}

/// The tables of the vocabulary are well typed.
pub open spec fn names_typed(eg: EGraph, names: Seq<Seq<char>>) -> bool {
    forall|i: int| 0 <= i < names.len() ==> well_typed(eg, #[trigger] names[i])
}

/// The e-graph reads tables of its own under the names that it has functions for.
pub open spec fn names_owned(eg: EGraph, names: Seq<Seq<char>>) -> bool {
    forall|i: int|
        0 <= i < names.len() && functions_of(eg).dom().contains(#[trigger] names[i])
            ==> own_tables_of(eg).contains(names[i])
}

/// The rows of the vocabulary come from its constructors, and their primitive children stand
/// for strings if the tables are well typed.
pub open spec fn rows_ok(eg: EGraph, s: Scan) -> bool {
    &&& forall|i: int|
        0 <= i < s.funcs.len() ==> (#[trigger] s.funcs[i]).mask == class_mask(
            functions_of(eg)[s.funcs[i].name].inputs,
        )
    &&& forall|r: int|
        0 <= r < s.rows.len() ==> (#[trigger] s.rows[r]).func < s.funcs.len()
            && s.rows[r].children.len() == marks(s.funcs[s.rows[r].func as int].mask)
            && s.rows[r].prims.len() + s.rows[r].children.len()
            == s.funcs[s.rows[r].func as int].mask.len()
    &&& funcs_typed(eg, s.funcs) ==> forall|r: int, j: int|
        0 <= r < s.rows.len() && 0 <= j < s.rows[r].prims.len() ==> strings_of(
            eg,
        ).dom().contains((#[trigger] s.rows[r].prims[j]).1)
}

/// Number of marked positions.
pub open spec fn marks(mask: Seq<bool>) -> nat {
    crate::kernel::count_true(mask)
}

/// Why no class graph could be taken.
#[derive(Debug)]
pub enum BuildError {
    /// The e-graph has no such sort.
    UnknownSort(String),
    /// The sort's values are no e-classes.
    NotEqSort(String),
    /// The constructor's output is of another sort.
    WrongOutput { name: String, output: String, expected: String },
    /// A constructor has a child that is neither of the sort nor a string.
    Unsupported,
    /// The rows of the constructor cannot be read.
    Unreadable { name: String, error: egglog::Error },
    /// There are more classes than 32-bit indices.
    TooManyClasses,
}

impl BuildError {
    /// The fault that the error reports, in the given sort.
    pub open spec fn reports(&self, f: BuildFault, sort: Seq<char>) -> bool {
        match self {
            BuildError::UnknownSort(s) => f is UnknownSort && s@ == sort,
            BuildError::NotEqSort(s) => f is NotEqSort && s@ == sort,
            BuildError::WrongOutput { name, output, expected } => f == (BuildFault::WrongOutput {
                name: name@,
                output: output@,
                expected: expected@,
            }),
            BuildError::Unsupported => f is Unsupported,
            BuildError::Unreadable { name, .. } => f == (BuildFault::Unreadable { name: name@ }),
            BuildError::TooManyClasses => f is TooManyClasses,
        }
    }
}

proof fn lemma_split_children(mask: Seq<bool>, inputs: Seq<u32>, n: nat)
    requires
        n <= mask.len(),
    ensures
        eq_children(mask, inputs, n).len() == marks(mask.take(n as int)),
        eq_children(mask, inputs, n).len() + prim_children(mask, inputs, n).len() == n,
        forall|j: int|
            0 <= j < prim_children(mask, inputs, n).len() ==> exists|p: int|
                0 <= p < n && !mask[p] && (#[trigger] prim_children(mask, inputs, n)[j]).1
                    == #[trigger] inputs[p],
    decreases n,
{
    if n > 0 {
        let m = (n - 1) as nat;
        lemma_split_children(mask, inputs, m);
        assert(mask.take(n as int).drop_last() =~= mask.take(m as int));
        let now = prim_children(mask, inputs, n);
        let rest = prim_children(mask, inputs, m);
        assert forall|j: int| 0 <= j < now.len() implies exists|p: int|
            0 <= p < n && !mask[p] && (#[trigger] now[j]).1 == #[trigger] inputs[p] by {
            if j < rest.len() {
                assert(now[j] == rest[j]);
                let p = choose|p: int|
                    0 <= p < m && !mask[p] && (#[trigger] rest[j]).1 == #[trigger] inputs[p];
                assert(now[j].1 == inputs[p]);
            } else {
                assert(now[j].1 == inputs[n - 1]);
            }
        }
    }
}

/// Whether a child of sort `s` is supported.
fn is_supported(root: &SortInfo, s: &SortInfo) -> (r: bool)
    ensures
        r == supported(root@, s@),
{
    if s.eq {
        s.name == root.name
    } else {
        !s.container && same_str(s.name.as_str(), "String")
    }
}

/// The class mask of some inputs; `None` if one of them is not supported.
fn mask_of(root: &SortInfo, inputs: &Vec<SortInfo>) -> (r: Option<Vec<bool>>)
    ensures
        match r {
            Some(m) => m@ == class_mask(sort_views(inputs@)) && forall|j: int|
                0 <= j < inputs@.len() ==> supported(root@, #[trigger] sort_views(inputs@)[j]),
            None => exists|j: int|
                0 <= j < inputs@.len() && !supported(root@, #[trigger] sort_views(inputs@)[j]),
        },
{
    let mut mask: Vec<bool> = Vec::new();
    while mask.len() < inputs.len()
        invariant
            mask@.len() <= inputs@.len(),
            forall|j: int|
                0 <= j < mask@.len() ==> #[trigger] mask@[j] == inputs@[j].eq,
            forall|j: int|
                0 <= j < mask@.len() ==> supported(root@, #[trigger] sort_views(inputs@)[j]),
        decreases inputs@.len() - mask@.len(),
    {
        let j: usize = mask.len();
        assert(sort_views(inputs@)[j as int] == inputs@[j as int]@);
        if !is_supported(root, &inputs[j]) {
            return None;
        }
        mask.push(inputs[j].eq);
    }
    assert(mask@ =~= class_mask(sort_views(inputs@)));
    Some(mask)
}

/// A table row with canonical class values.
fn convert_row(eg: &EGraph, sort: &str, func: usize, mask: &Vec<bool>, row: &Row, head: Cost) -> (r:
    NodeRow)
    requires
        sorts_of(*eg).dom().contains(sort@),
        row.inputs@.len() == mask@.len(),
    ensures
        r@ == node_row(*eg, sort@, func as int, mask@, row@, head),
{
    let mut children: Vec<u32> = Vec::new();
    let mut prims: Vec<(u32, u32)> = Vec::new();
    let mut p: usize = 0;
    assert(children@ =~= canonical_all(*eg, sort@, eq_children(mask@, row.inputs@, 0)));
    while p < mask.len()
        invariant
            p <= mask@.len(),
            sorts_of(*eg).dom().contains(sort@),
            row.inputs@.len() == mask@.len(),
            children@ == canonical_all(*eg, sort@, eq_children(mask@, row.inputs@, p as nat)),
            prims@ == prim_children(mask@, row.inputs@, p as nat),
        decreases mask@.len() - p,
    {
        let v: u32 = row.inputs[p];
        let ghost rest = eq_children(mask@, row.inputs@, p as nat);
        if mask[p] {
            let c: u32 = canonical_value(eg, sort, v);
            children.push(c);
            assert(canonical_all(*eg, sort@, rest.push(v)) =~= canonical_all(
                *eg,
                sort@,
                rest,
            ).push(c));
        } else {
            prims.push((p as u32, v));
        }
        p = p + 1;
    }
    let out: u32 = canonical_value(eg, sort, row.output);
    NodeRow { func, children, prims, out, head }
}

/// Rows of one function, as they were read.
fn read_rows(eg: &EGraph, name: &str, f: &FunctionInfo) -> (r: Result<Vec<Row>, egglog::Error>)
    requires
        functions_of(*eg).dom().contains(name@),
        own_tables_of(*eg).contains(name@),
    ensures
        match r {
            Ok(rows) => tables(*eg, f@).dom().contains(name@) && row_views(rows@) == tables(
                *eg,
                f@,
            )[name@],
            Err(_) => !tables(*eg, f@).dom().contains(name@),
        },
{
    if f.constructor {
        constructor_rows(eg, name)
    } else {
        function_rows(eg, name)
    }
}

/// Appends the live rows of one table.
fn add_rows(
    eg: &EGraph,
    sort: &str,
    func: usize,
    mask: &Vec<bool>,
    table: &Vec<Row>,
    head: Cost,
    rows: &mut Vec<NodeRow>,
)
    requires
        sorts_of(*eg).dom().contains(sort@),
    ensures
        node_views(final(rows)@) == node_views(old(rows)@) + live_rows(
            *eg,
            sort@,
            func as int,
            mask@,
            row_views(table@),
            head,
            table@.len(),
        ),
{
    let ghost start = node_views(rows@);
    let ghost tv = row_views(table@);
    let mut i: usize = 0;
    assert(start + live_rows(*eg, sort@, func as int, mask@, tv, head, 0) =~= start);
    while i < table.len()
        invariant
            i <= table@.len(),
            tv == row_views(table@),
            sorts_of(*eg).dom().contains(sort@),
            node_views(rows@) == start + live_rows(
                *eg,
                sort@,
                func as int,
                mask@,
                tv,
                head,
                i as nat,
            ),
        decreases table@.len() - i,
    {
        let row: &Row = &table[i];
        assert(tv[i as int] == row@);
        if !row.subsumed && row.inputs.len() == mask.len() {
            let ghost before = rows@;
            let x: NodeRow = convert_row(eg, sort, func, mask, row, head);
            rows.push(x);
            assert(node_views(rows@) =~= node_views(before).push(x@));
        }
        i = i + 1;
        assert(node_views(rows@) =~= start + live_rows(
            *eg,
            sort@,
            func as int,
            mask@,
            tv,
            head,
            i as nat,
        ));
    }
}

/// The live rows of a table come from its constructor and hold strings.
proof fn lemma_live_rows_ok(
    eg: EGraph,
    sort: Seq<char>,
    func: int,
    f: FunctionView,
    root: SortView,
    name: Seq<char>,
    rows: Seq<RowView>,
    head: Cost,
    n: nat,
)
    requires
        n <= rows.len(),
        0 <= func <= usize::MAX,
        functions_of(eg).dom().contains(name),
        functions_of(eg)[name] == f,
        well_typed(eg, name) ==> strings_known(eg, name, rows),
        forall|j: int| 0 <= j < f.inputs.len() ==> supported(root, #[trigger] f.inputs[j]),
    ensures
        forall|r: int|
            #![trigger live_rows(eg, sort, func, class_mask(f.inputs), rows, head, n)[r]]
            0 <= r < live_rows(eg, sort, func, class_mask(f.inputs), rows, head, n).len() ==> {
                let x = live_rows(eg, sort, func, class_mask(f.inputs), rows, head, n)[r];
                &&& x.func == func
                &&& x.children.len() == marks(class_mask(f.inputs))
                &&& x.prims.len() + x.children.len() == f.inputs.len()
                &&& well_typed(eg, name) ==> forall|j: int|
                    0 <= j < x.prims.len() ==> strings_of(eg).dom().contains(
                        (#[trigger] x.prims[j]).1,
                    )
            },
    decreases n,
{
    if n > 0 {
        let mask = class_mask(f.inputs);
        lemma_live_rows_ok(eg, sort, func, f, root, name, rows, head, (n - 1) as nat);
        let rest = live_rows(eg, sort, func, mask, rows, head, (n - 1) as nat);
        let all = live_rows(eg, sort, func, mask, rows, head, n);
        let row = rows[n - 1];
        if !row.subsumed && row.inputs.len() == mask.len() {
            let x = node_row(eg, sort, func, mask, row, head);
            lemma_split_children(mask, row.inputs, mask.len());
            assert(mask.take(mask.len() as int) =~= mask);
            assert forall|j: int|
                well_typed(eg, name) && 0 <= j < x.prims.len() implies strings_of(eg).dom().contains(
                (#[trigger] x.prims[j]).1,
            ) by {
                let p = choose|p: int|
                    0 <= p < mask.len() && !mask[p] && (#[trigger] prim_children(
                        mask,
                        row.inputs,
                        mask.len(),
                    )[j]).1 == #[trigger] row.inputs[p];
                assert(supported(root, f.inputs[p]));
                assert(rows[n - 1].inputs[p] == x.prims[j].1);
            }
            assert(all == rest.push(x));
        }
    }
}

/// Reads the vocabulary in the given order.
fn scan(
    eg: &EGraph,
    sort: &str,
    root: &SortInfo,
    heads: &Vec<(String, Cost)>,
    order: &Vec<usize>,
) -> (r: Result<(Vec<FuncTab>, Vec<NodeRow>), BuildError>)
    requires
        sorts_of(*eg).dom().contains(sort@),
        names_owned(*eg, head_names(heads@)),
        forall|i: int| 0 <= i < order@.len() ==> (#[trigger] order@[i]) < heads@.len(),
    ensures
        match scanned(*eg, sort@, root@, in_order(heads@, order@), order@.len()) {
            Ok(s) => r matches Ok((funcs, rows)) && funcs_show(funcs@, s.funcs) && node_views(
                rows@,
            ) == s.rows && rows_ok(*eg, s),
            Err(f) => r matches Err(e) && e.reports(f, sort@),
        },
{
    let ghost hs = in_order(heads@, order@);
    let mut funcs: Vec<FuncTab> = Vec::new();
    let mut rows: Vec<NodeRow> = Vec::new();
    let mut i: usize = 0;
    assert(node_views(rows@) =~= Seq::empty());
    while i < order.len()
        invariant
            i <= order@.len(),
            hs == in_order(heads@, order@),
            sorts_of(*eg).dom().contains(sort@),
            names_owned(*eg, head_names(heads@)),
            forall|q: int| 0 <= q < order@.len() ==> (#[trigger] order@[q]) < heads@.len(),
            scanned(*eg, sort@, root@, hs, i as nat) matches Ok(s) && funcs_show(
                funcs@,
                s.funcs,
            ) && node_views(rows@) == s.rows && rows_ok(*eg, s),
        decreases order@.len() - i,
    {
        let q: usize = order[i];
        let name: &String = &heads[q].0;
        let head: Cost = heads[q].1;
        let ghost before = scanned(*eg, sort@, root@, hs, i as nat)->Ok_0;
        assert(hs[i as int] == (name@, head));
        assert(head_names(heads@)[q as int] == name@);
        match find_function(eg, name.as_str()) {
            None => {},
            Some(f) => {
                let ghost fv = functions_of(*eg)[name@];
                if !f.let_binding {
                    if f.output != root.name {
                        proof {
                            lemma_scan_err(*eg, sort@, root@, hs, (i + 1) as nat, order@.len());
                        }
                        return Err(
                            BuildError::WrongOutput {
                                name: name.clone(),
                                output: f.output,
                                expected: root.name.clone(),
                            },
                        );
                    }
                    let mask: Vec<bool> = match mask_of(root, &f.inputs) {
                        Some(m) => m,
                        None => {
                            proof {
                                let j = choose|j: int|
                                    0 <= j < f.inputs@.len() && !supported(
                                        root@,
                                        #[trigger] sort_views(f.inputs@)[j],
                                    );
                                assert(!supported(root@, fv.inputs[j]));
                                lemma_scan_err(*eg, sort@, root@, hs, (i + 1) as nat, order@.len());
                            }
                            return Err(BuildError::Unsupported);
                        },
                    };
                    assert forall|j: int| 0 <= j < fv.inputs.len() implies supported(
                        root@,
                        #[trigger] fv.inputs[j],
                    ) by {
                        assert(supported(root@, sort_views(f.inputs@)[j]));
                    }
                    match read_rows(eg, name.as_str(), &f) {
                        Err(e) => {
                            proof {
                                lemma_scan_err(*eg, sort@, root@, hs, (i + 1) as nat, order@.len());
                            }
                            return Err(BuildError::Unreadable { name: name.clone(), error: e });
                        },
                        Ok(table) => {
                            let func: usize = funcs.len();
                            add_rows(eg, sort, func, &mask, &table, head, &mut rows);
                            let arity: usize = mask.len();
                            funcs.push(
                                FuncTab { term_name: name.clone(), eq_mask: mask, arity },
                            );
                            proof {
                                let after = scanned(*eg, sort@, root@, hs, (i + 1) as nat)->Ok_0;
                                let tv = row_views(table@);
                                lemma_live_rows_ok(
                                    *eg,
                                    sort@,
                                    func as int,
                                    fv,
                                    root@,
                                    name@,
                                    tv,
                                    head,
                                    tv.len(),
                                );
                                let live = live_rows(
                                    *eg,
                                    sort@,
                                    func as int,
                                    class_mask(fv.inputs),
                                    tv,
                                    head,
                                    tv.len(),
                                );
                                assert(after.rows == before.rows + live);
                                assert forall|r: int| 0 <= r < after.rows.len() implies (
                                #[trigger] after.rows[r]).func < after.funcs.len()
                                    && after.rows[r].children.len() == marks(
                                    after.funcs[after.rows[r].func as int].mask,
                                ) && after.rows[r].prims.len() + after.rows[r].children.len()
                                    == after.funcs[after.rows[r].func as int].mask.len() by {
                                    if r < before.rows.len() {
                                        assert(after.rows[r] == before.rows[r]);
                                        assert(before.rows[r].func < before.funcs.len());
                                    } else {
                                        let x = live[r - before.rows.len()];
                                        assert(after.rows[r] == x);
                                    }
                                }
                                assert(funcs_typed(*eg, after.funcs) ==> funcs_typed(
                                    *eg,
                                    before.funcs,
                                ) && well_typed(*eg, name@)) by {
                                    if funcs_typed(*eg, after.funcs) {
                                        assert(after.funcs[func as int].name == name@);
                                        assert forall|i: int|
                                            0 <= i < before.funcs.len() implies well_typed(
                                            *eg,
                                            (#[trigger] before.funcs[i]).name,
                                        ) by {
                                            assert(after.funcs[i] == before.funcs[i]);
                                        }
                                    }
                                }
                                assert forall|r: int, j: int|
                                    funcs_typed(*eg, after.funcs) && 0 <= r < after.rows.len() && 0
                                        <= j < after.rows[r].prims.len() implies strings_of(
                                    *eg,
                                ).dom().contains((#[trigger] after.rows[r].prims[j]).1) by {
                                    if r < before.rows.len() {
                                        assert(after.rows[r] == before.rows[r]);
                                        assert(strings_of(*eg).dom().contains(
                                            before.rows[r].prims[j].1,
                                        ));
                                    } else {
                                        let x = live[r - before.rows.len()];
                                        assert(after.rows[r] == x);
                                        assert(strings_of(*eg).dom().contains(x.prims[j].1));
                                    }
                                }
                            }
                        },
                    }
                }
            },
        }
        i = i + 1;
    }
    Ok((funcs, rows))
}

proof fn lemma_scan_err(
    eg: EGraph,
    sort: Seq<char>,
    root: SortView,
    heads: Seq<(Seq<char>, Cost)>,
    n: nat,
    m: nat,
)
    requires
        n <= m,
        scanned(eg, sort, root, heads, n) is Err,
    ensures
        scanned(eg, sort, root, heads, m) == scanned(eg, sort, root, heads, n),
    decreases m,
{
    if n < m {
        lemma_scan_err(eg, sort, root, heads, n, (m - 1) as nat);
    }
}

/// The names of the vocabulary.
fn names_of(heads: &Vec<(String, Cost)>) -> (names: Vec<String>)
    ensures
        texts(names@) == head_names(heads@),
{
    let mut names: Vec<String> = Vec::new();
    while names.len() < heads.len()
        invariant
            names@.len() <= heads@.len(),
            forall|i: int| 0 <= i < names@.len() ==> (#[trigger] names@[i])@ == heads@[i].0@,
        decreases heads@.len() - names@.len(),
    {
        let i: usize = names.len();
        names.push(heads[i].0.clone());
    }
    assert(texts(names@) =~= head_names(heads@));
    names
}

/// `r` is the class graph of what the e-graph holds of the vocabulary, taken in the order
/// of the names, or the fault met in taking it.
pub open spec fn builds(
    eg: EGraph,
    sort: Seq<char>,
    heads: Seq<(String, Cost)>,
    r: Result<ClassGraph, BuildError>,
) -> bool {
    exists|order: Seq<usize>| #[trigger] orders(head_names(heads), order) && match snapshot(
        eg,
        sort,
        heads,
        order,
    ) {
        Ok(s) => r matches Ok(g) && g.shows_scan(eg, s) && g.wf() && g.condensed(),
        Err(f) => r matches Err(e) && e.reports(f, sort),
    }
}

impl ClassGraph {
    /// The graph shows what was found of a vocabulary.
    pub open spec fn shows_scan(&self, eg: EGraph, s: Scan) -> bool {
        &&& funcs_show(self.funcs@, s.funcs)
        &&& rows_ok(eg, s)
        &&& self.shows(s.rows)
        &&& funcs_typed(eg, s.funcs) ==> texts_known(eg, self.enodes@)
    }

    /// Takes the class graph of one sort over the constructors in `heads`, each with the
    /// cost of its head. The constructors are walked in the order of their names.
    pub fn build(eg: &EGraph, sort: &str, heads: &Vec<(String, Cost)>) -> (r: Result<
        ClassGraph,
        BuildError,
    >)
        requires
            names_owned(*eg, head_names(heads@)),
        ensures
            builds(*eg, sort@, heads@, r),
    {
        let names: Vec<String> = names_of(heads);
        let order: Vec<usize> = name_order(&names);
        assert(orders(head_names(heads@), order@));
        let root: SortInfo = match find_sort(eg, sort) {
            None => {
                return Err(BuildError::UnknownSort(sort.to_owned()));
            },
            Some(s) => s,
        };
        if !root.eq {
            return Err(BuildError::NotEqSort(sort.to_owned()));
        }
        let (funcs, rows): (Vec<FuncTab>, Vec<NodeRow>) = match scan(
            eg,
            sort,
            &root,
            heads,
            &order,
        ) {
            Ok(x) => x,
            Err(e) => {
                return Err(e);
            },
        };
        match assemble(funcs, &rows) {
            None => Err(BuildError::TooManyClasses),
            Some(g) => {
                proof {
                    let s = snapshot(*eg, sort@, heads@, order@)->Ok_0;
                    assert forall|e: int, j: int|
                        funcs_typed(*eg, s.funcs) && 0 <= e < g.enodes@.len() && 0 <= j
                            < g.enodes@[e].ch_prim@.len() implies strings_of(*eg).dom().contains(
                        (#[trigger] g.enodes@[e].ch_prim@[j]).1,
                    ) by {
                        assert(stands_for(g.enodes@[e], g.classes@, s.rows[e]));
                        assert(strings_of(*eg).dom().contains(s.rows[e].prims[j].1));
                    }
                }
                Ok(g)
            },
        }
    }
}

/// The constructors that are found are among the names of the vocabulary.
pub(crate) proof fn lemma_scanned_names(
    eg: EGraph,
    sort: Seq<char>,
    root: SortView,
    heads: Seq<(Seq<char>, Cost)>,
    n: nat,
    names: Seq<Seq<char>>,
)
    requires
        n <= heads.len(),
        names_typed(eg, names),
        forall|i: int| 0 <= i < heads.len() ==> names.contains((#[trigger] heads[i]).0),
    ensures
        scanned(eg, sort, root, heads, n) matches Ok(s) ==> funcs_typed(eg, s.funcs),
    decreases n,
{
    if n > 0 {
        lemma_scanned_names(eg, sort, root, heads, (n - 1) as nat, names);
        let (name, _) = heads[n - 1];
        assert(names.contains(heads[n - 1].0));
        let i = choose|i: int| 0 <= i < names.len() && names[i] == name;
        assert(well_typed(eg, names[i]));
    }
}

/// What is taken of an e-graph, and so the numbering of its classes, does not depend on the
/// order in which the vocabulary is given: `b` is `a` in another order.
pub proof fn numbering_ignores_the_order_given(
    eg: EGraph,
    sort: Seq<char>,
    a: Seq<(String, Cost)>,
    b: Seq<(String, Cost)>,
    place: Seq<int>,
    order_a: Seq<usize>,
    order_b: Seq<usize>,
)
    requires
        a.len() <= usize::MAX,
        b.len() == a.len(),
        place.len() == a.len(),
        place.no_duplicates(),
        forall|i: int| 0 <= i < b.len() ==> 0 <= #[trigger] place[i] < a.len(),
        forall|i: int|
            0 <= i < b.len() ==> (#[trigger] b[i]).0@ == a[place[i]].0@ && b[i].1 == a[place[i]].1,
        head_names(a).no_duplicates(),
        orders(head_names(a), order_a),
        orders(head_names(b), order_b),
    ensures
        snapshot(eg, sort, a, order_a) == snapshot(eg, sort, b, order_b),
{
    let n = a.len();
    let names_a = head_names(a);
    let names_b = head_names(b);
    let moved = Seq::new(n, |i: int| place[order_b[i] as int] as usize);
    lemma_order_strict(names_b, order_b);
    assert forall|i: int, j: int| 0 <= i < n && 0 <= j < n && i < j implies before(
        names_a,
        #[trigger] moved[i],
        #[trigger] moved[j],
    ) by {
        let (x, y) = (order_b[i], order_b[j]);
        assert(before(names_b, x, y));
        assert(x != y);
        assert(place[x as int] != place[y as int]);
        assert(names_a[place[x as int]] != names_a[place[y as int]]);
        assert(b[x as int].0@ == a[place[x as int]].0@);
        assert(b[y as int].0@ == a[place[y as int]].0@);
        different_names_are_ordered(names_b[x as int], names_b[y as int]);
    }
    assert forall|i: int| 0 <= i < moved.len() implies (#[trigger] moved[i]) < names_a.len() by {
        assert(order_b[i] < names_b.len());
        assert(0 <= place[order_b[i] as int] < a.len());
    }
    sorted_order_is_unique(names_a, order_a, moved);
    assert forall|i: int| 0 <= i < n implies in_order(a, order_a)[i] == in_order(b, order_b)[i] by {
        assert(order_a[i] == moved[i]);
        assert(order_b[i] < names_b.len());
        let x = order_b[i] as int;
        assert(0 <= place[x] < a.len());
        assert(b[x].0@ == a[place[x]].0@);
    }
    assert(in_order(a, order_a) =~= in_order(b, order_b));
}

} // verus!
