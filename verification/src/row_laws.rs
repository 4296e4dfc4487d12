//! What an e-node has of the row that it stands for.
use egglog::EGraph;
use vstd::prelude::*;

use crate::alike::lemma_first_touch_once;
use crate::build_laws::{enodes_come_row_by_row, entries, graph_names, in_blocks, is_block, live_of};
use crate::class_graph::{ClassGraph, Enode};
use crate::cost::Cost;
use crate::cut_iter::lemma_built;
use crate::egraph::{canonical_of, constructors_of, entries_of, functions_of, RowView};
use crate::names::orders;
use crate::snapshot::{
    builds, canonical_all, class_mask, eq_children, first_touch, head_names, lists_enodes,
    live_rows, node_row, prim_children, snapshot, stands_for, tables, touched, BuildError,
    NodeRowView,
};

verus! {

/// How many positions before `p` are marked.
pub open spec fn marked_before(mask: Seq<bool>, p: int) -> nat {
    mask.take(p).filter(|b: bool| b).len()
}

proof fn lemma_marked_step(mask: Seq<bool>, p: int)
    requires
        0 <= p < mask.len(),
    ensures
        marked_before(mask, p + 1) == marked_before(mask, p) + if mask[p] {
            1nat
        } else {
            0
        },
        marked_before(mask, 0) == 0,
{
    reveal(Seq::filter);
    assert(mask.take(p + 1).drop_last() =~= mask.take(p));
    assert(mask.take(0) =~= Seq::<bool>::empty());
}

proof fn lemma_marked_bound(mask: Seq<bool>, p: int, q: int)
    requires
        0 <= p <= q <= mask.len(),
    ensures
        marked_before(mask, p) <= marked_before(mask, q) <= marked_before(mask, p) + (q - p),
    decreases q - p,
{
    if p < q {
        lemma_marked_bound(mask, p, q - 1);
        lemma_marked_step(mask, q - 1);
    }
}

proof fn lemma_split(mask: Seq<bool>, inputs: Seq<u32>, n: nat)
    requires
        n <= mask.len(),
        inputs.len() == mask.len(),
    ensures
        eq_children(mask, inputs, n).len() == marked_before(mask, n as int),
        prim_children(mask, inputs, n).len() == n - marked_before(mask, n as int),
    decreases n,
{
    if n > 0 {
        lemma_split(mask, inputs, (n - 1) as nat);
        lemma_marked_step(mask, n - 1);
        lemma_marked_bound(mask, 0, n - 1);
    } else {
        reveal(Seq::filter);
        assert(mask.take(0) =~= Seq::<bool>::empty());
    }
}

proof fn lemma_position(mask: Seq<bool>, inputs: Seq<u32>, n: nat, p: int)
    requires
        n <= mask.len(),
        inputs.len() == mask.len(),
        0 <= p < n,
    ensures
        ({
            let j = marked_before(mask, p) as int;
            if mask[p] {
                j < eq_children(mask, inputs, n).len() && eq_children(mask, inputs, n)[j]
                    == inputs[p]
            } else {
                0 <= p - j < prim_children(mask, inputs, n).len() && prim_children(
                    mask,
                    inputs,
                    n,
                )[p - j] == (p as u32, inputs[p])
            }
        }),
    decreases n,
{
    lemma_split(mask, inputs, n);
    lemma_split(mask, inputs, (n - 1) as nat);
    lemma_marked_bound(mask, 0, p);
    lemma_marked_step(mask, p);
    if p < n - 1 {
        lemma_position(mask, inputs, (n - 1) as nat, p);
    }
}

/// The children of a row keep their positions: a marked position with `j` marked ones before
/// it is class child `j`, and another one, with its own number, is the primitive child whose
/// place counts the positions before it that are not marked. There are no other children.
pub proof fn children_keep_their_positions(mask: Seq<bool>, inputs: Seq<u32>)
    requires
        inputs.len() == mask.len(),
    ensures
        ({
            let (c, q) = (
                eq_children(mask, inputs, mask.len()),
                prim_children(mask, inputs, mask.len()),
            );
            &&& c.len() + q.len() == mask.len()
            &&& c.len() == marked_before(mask, mask.len() as int)
            &&& forall|p: int|
                0 <= p < mask.len() && #[trigger] mask[p] ==> marked_before(mask, p) < c.len()
                    && c[marked_before(mask, p) as int] == inputs[p]
            &&& forall|p: int|
                0 <= p < mask.len() && !#[trigger] mask[p] ==> 0 <= p - marked_before(mask, p)
                    < q.len() && q[p - marked_before(mask, p)] == (p as u32, inputs[p])
        }),
{
    lemma_split(mask, inputs, mask.len());
    assert forall|p: int| 0 <= p < mask.len() && #[trigger] mask[p] implies marked_before(mask, p)
        < eq_children(mask, inputs, mask.len()).len() && eq_children(mask, inputs, mask.len())[
    marked_before(mask, p) as int] == inputs[p] by {
        lemma_position(mask, inputs, mask.len(), p);
    }
    assert forall|p: int| 0 <= p < mask.len() && !#[trigger] mask[p] implies 0 <= p
        - marked_before(mask, p) < prim_children(mask, inputs, mask.len()).len()
        && prim_children(mask, inputs, mask.len())[p - marked_before(mask, p)] == (
        p as u32,
        inputs[p],
    ) by {
        lemma_position(mask, inputs, mask.len(), p);
    }
}

/// The rows that are read: those that are not subsumed and have an input for each position.
pub open spec fn read_rows_of(rows: Seq<RowView>, width: nat) -> Seq<RowView> {
    rows.filter(|r: RowView| !r.subsumed && r.inputs.len() == width)
}

proof fn lemma_live_filtered(
    eg: EGraph,
    sort: Seq<char>,
    func: int,
    mask: Seq<bool>,
    rows: Seq<RowView>,
    head: Cost,
    n: nat,
)
    requires
        n <= rows.len(),
    ensures
        ({
            let x = live_rows(eg, sort, func, mask, rows, head, n);
            let y = read_rows_of(rows.take(n as int), mask.len());
            x.len() == y.len() && forall|i: int|
                0 <= i < x.len() ==> #[trigger] x[i] == node_row(eg, sort, func, mask, y[i], head)
        }),
    decreases n,
{
    reveal(Seq::filter);
    if n > 0 {
        lemma_live_filtered(eg, sort, func, mask, rows, head, (n - 1) as nat);
        assert(rows.take(n as int).drop_last() =~= rows.take(n - 1));
        let x = live_rows(eg, sort, func, mask, rows, head, n);
        let w = live_rows(eg, sort, func, mask, rows, head, (n - 1) as nat);
        let y = read_rows_of(rows.take(n as int), mask.len());
        let z = read_rows_of(rows.take(n - 1), mask.len());
        assert forall|i: int| 0 <= i < x.len() implies #[trigger] x[i] == node_row(
            eg,
            sort,
            func,
            mask,
            y[i],
            head,
        ) by {
            if i < w.len() {
                assert(x[i] == w[i] && y[i] == z[i]);
            }
        }
    }
}

/// The rows of the named function, as the e-graph holds them.
pub open spec fn table_of(eg: EGraph, name: Seq<char>) -> Seq<RowView> {
    if functions_of(eg)[name].constructor {
        constructors_of(eg)[name]
    } else {
        entries_of(eg)[name]
    }
}

/// E-node `e` has what the row `row` of constructor `func` says: its class is that of the
/// output, its class children are those of the inputs of the sort, in order, and its primitive
/// children the other inputs with their positions.
pub open spec fn reads(
    eg: EGraph,
    sort: Seq<char>,
    g: &ClassGraph,
    func: int,
    e: int,
    row: RowView,
) -> bool {
    let x = g.enodes@[e];
    let inputs = functions_of(eg)[g.funcs@[func].term_name@].inputs;
    let mask = g.funcs@[func].eq_mask@;
    &&& x.func == func
    &&& mask.len() == inputs.len()
    &&& g.funcs@[func].arity == inputs.len()
    &&& row.inputs.len() == inputs.len()
    &&& forall|p: int| 0 <= p < mask.len() ==> #[trigger] mask[p] == inputs[p].eq
    &&& x.ch_eq@.len() == marked_before(mask, mask.len() as int)
    &&& x.ch_eq@.len() + x.ch_prim@.len() == mask.len()
    &&& x.out < g.classes@.len()
    &&& g.classes@[x.out as int] == canonical_of(eg)[(sort, row.output)]
    &&& forall|p: int|
        0 <= p < mask.len() && #[trigger] mask[p] ==> {
            let c = x.ch_eq@[marked_before(mask, p) as int];
            &&& marked_before(mask, p) < x.ch_eq@.len()
            &&& c < g.classes@.len()
            &&& g.classes@[c as int] == canonical_of(eg)[(sort, row.inputs[p])]
        }
    &&& forall|p: int|
        0 <= p < mask.len() && !#[trigger] mask[p] ==> {
            &&& 0 <= p - marked_before(mask, p) < x.ch_prim@.len()
            &&& x.ch_prim@[p - marked_before(mask, p)] == (p as u32, row.inputs[p])
        }
}

/// The e-nodes from `from` on up to `to` read the rows of constructor `func` that are not
/// subsumed, one each and in order, and have the head cost that the vocabulary gives to it.
pub open spec fn reads_table(
    eg: EGraph,
    sort: Seq<char>,
    heads: Seq<(String, Cost)>,
    g: &ClassGraph,
    func: int,
    from: nat,
    to: nat,
) -> bool {
    let name = g.funcs@[func].term_name@;
    let rows = read_rows_of(table_of(eg, name), functions_of(eg)[name].inputs.len());
    &&& from <= to <= g.enodes@.len()
    &&& to - from == rows.len()
    &&& forall|k: int|
        0 <= k < rows.len() ==> reads(eg, sort, g, func, from + k, #[trigger] rows[k])
    &&& forall|e: int|
        from <= e < to ==> exists|i: int|
            0 <= i < heads.len() && (#[trigger] heads[i]).0@ == name && (
            #[trigger] g.enodes@[e]).head == heads[i].1
}

/// The e-nodes of a class graph are the rows of its constructors that are not subsumed: one
/// constructor after the other, one row after the other, each with its own output, children
/// and head cost.
pub proof fn enodes_read_their_rows(
    eg: EGraph,
    sort: Seq<char>,
    heads: Seq<(String, Cost)>,
    g: ClassGraph,
) -> (starts: Seq<nat>)
    requires
        builds(eg, sort, heads, Ok::<ClassGraph, BuildError>(g)),
    ensures
        starts.len() == g.funcs@.len() + 1,
        starts[0] == 0,
        starts[g.funcs@.len() as int] == g.enodes@.len(),
        forall|i: int|
            0 <= i < g.funcs@.len() ==> #[trigger] reads_table(
                eg,
                sort,
                heads,
                &g,
                i,
                starts[i],
                starts[i + 1],
            ),
{
    enodes_come_row_by_row(eg, sort, heads, g);
    let (rows, starts) = choose|rows: Seq<NodeRowView>, starts: Seq<nat>| #[trigger]
        g.shows(rows) && #[trigger] in_blocks(
            eg,
            sort,
            entries(heads),
            graph_names(&g),
            rows,
            starts,
        );
    assert(g.funcs.len() == g.funcs@.len());
    assert forall|i: int| 0 <= i < g.funcs@.len() implies #[trigger] reads_table(
        eg,
        sort,
        heads,
        &g,
        i,
        starts[i],
        starts[i + 1],
    ) by {
        let name = g.funcs@[i].term_name@;
        assert(graph_names(&g)[i] == name);
        assert(is_block(eg, sort, entries(heads), rows, i, name, starts[i], starts[i + 1]));
        let head = choose|head: Cost| #[trigger]
            entries(heads).contains((name, head)) && rows.subrange(
                starts[i] as int,
                starts[i + 1] as int,
            ) == live_of(eg, sort, i, name, head);
        let h = choose|h: int| 0 <= h < entries(heads).len() && entries(heads)[h] == (name, head);
        assert(heads[h].0@ == name);
        lemma_mask(eg, sort, heads, g, i);
        let f = functions_of(eg)[name];
        let mask = class_mask(f.inputs);
        let table = tables(eg, f)[name];
        assert(table == table_of(eg, name));
        lemma_live_filtered(eg, sort, i, mask, table, head, table.len());
        assert(table.take(table.len() as int) =~= table);
        let read = read_rows_of(table, mask.len());
        let live = live_of(eg, sort, i, name, head);
        assert forall|k: int| 0 <= k < read.len() implies reads(
            eg,
            sort,
            &g,
            i,
            starts[i] + k,
            #[trigger] read[k],
        ) by {
            let e = starts[i] + k;
            assert(rows.subrange(starts[i] as int, starts[i + 1] as int)[k] == rows[e]);
            assert(live[k] == node_row(eg, sort, i, mask, read[k], head));
            assert(stands_for(g.enodes@[e], g.classes@, rows[e]));
            lemma_read_width(table, mask.len(), k);
            children_keep_their_positions(mask, read[k].inputs);
            let c = eq_children(mask, read[k].inputs, mask.len());
            assert forall|p: int| 0 <= p < mask.len() && #[trigger] mask[p] implies {
                let d = g.enodes@[e].ch_eq@[marked_before(mask, p) as int];
                &&& marked_before(mask, p) < g.enodes@[e].ch_eq@.len()
                &&& d < g.classes@.len()
                &&& g.classes@[d as int] == canonical_of(eg)[(sort, read[k].inputs[p])]
            } by {
                let j = marked_before(mask, p) as int;
                assert(c[j] == read[k].inputs[p]);
                assert(canonical_all(eg, sort, c)[j] == canonical_of(eg)[(sort, c[j])]);
                assert(rows[e].children[j] == canonical_all(eg, sort, c)[j]);
                assert(g.classes@[g.enodes@[e].ch_eq@[j] as int] == rows[e].children[j]);
            }
        }
        assert forall|e: int| starts[i] <= e < starts[i + 1] implies exists|q: int|
            0 <= q < heads.len() && (#[trigger] heads[q]).0@ == name && (
            #[trigger] g.enodes@[e]).head == heads[q].1 by {
            let k = e - starts[i];
            assert(rows.subrange(starts[i] as int, starts[i + 1] as int)[k] == rows[e]);
            assert(live[k] == node_row(eg, sort, i, mask, read[k], head));
            assert(stands_for(g.enodes@[e], g.classes@, rows[e]));
            assert(heads[h].0@ == name && g.enodes@[e].head == heads[h].1);
        }
    }
    starts
}

proof fn lemma_read_width(rows: Seq<RowView>, width: nat, k: int)
    requires
        0 <= k < read_rows_of(rows, width).len(),
    ensures
        read_rows_of(rows, width)[k].inputs.len() == width,
        !read_rows_of(rows, width)[k].subsumed,
    decreases rows.len(),
{
    reveal(Seq::filter);
    let rest = read_rows_of(rows.drop_last(), width);
    if k < rest.len() {
        lemma_read_width(rows.drop_last(), width, k);
    }
}

/// The mask of a constructor is that of its inputs.
proof fn lemma_mask(
    eg: EGraph,
    sort: Seq<char>,
    heads: Seq<(String, Cost)>,
    g: ClassGraph,
    i: int,
)
    requires
        builds(eg, sort, heads, Ok::<ClassGraph, BuildError>(g)),
        0 <= i < g.funcs@.len(),
    ensures
        g.funcs@[i].eq_mask@ == class_mask(functions_of(eg)[g.funcs@[i].term_name@].inputs),
        g.funcs@[i].arity == g.funcs@[i].eq_mask@.len(),
{
    lemma_built(eg, sort, heads, g);
    let order = choose|order: Seq<usize>| #[trigger]
        orders(head_names(heads), order) && match snapshot(
            eg,
            sort,
            heads,
            order,
        ) {
            Ok(s) => g.shows_scan(eg, s) && g.wf() && g.condensed(),
            Err(f) => false,
        };
    let s = snapshot(eg, sort, heads, order)->Ok_0;
    assert(g.funcs@[i].term_name@ == s.funcs[i].name);
    assert(s.funcs[i].mask == class_mask(functions_of(eg)[s.funcs[i].name].inputs));
}

// --------------------------------------------------------------------- numbering

/// The classes that the first `n` e-nodes name: of each its children, then its own.
pub open spec fn named_classes(enodes: Seq<Enode>, n: nat) -> Seq<u32> {
    Seq::new(n, |e: int| enodes[e].ch_eq@.push(enodes[e].out)).flatten_alt()
}

proof fn lemma_named_step(enodes: Seq<Enode>, n: nat)
    requires
        0 < n <= enodes.len(),
    ensures
        named_classes(enodes, n) == named_classes(enodes, (n - 1) as nat) + enodes[n
            - 1].ch_eq@.push(enodes[n - 1].out),
{
    let all = Seq::new(n, |e: int| enodes[e].ch_eq@.push(enodes[e].out));
    let rest = Seq::new((n - 1) as nat, |e: int| enodes[e].ch_eq@.push(enodes[e].out));
    assert(all.drop_last() =~= rest);
}

/// The classes named have the values touched.
proof fn lemma_named_touched(graph: &ClassGraph, rows: Seq<NodeRowView>, n: nat)
    requires
        graph.shows(rows),
        n <= rows.len(),
    ensures
        ({
            let (t, w) = (named_classes(graph.enodes@, n), touched(rows, n));
            t.len() == w.len() && forall|k: int|
                0 <= k < t.len() ==> (#[trigger] t[k]) < graph.classes@.len()
                    && graph.classes@[t[k] as int] == w[k]
        }),
    decreases n,
{
    if n > 0 {
        lemma_named_touched(graph, rows, (n - 1) as nat);
        lemma_named_step(graph.enodes@, n);
        let x = graph.enodes@[n - 1];
        assert(stands_for(x, graph.classes@, rows[n - 1]));
        let (t, w) = (named_classes(graph.enodes@, n), touched(rows, n));
        let (a, b) = (
            named_classes(graph.enodes@, (n - 1) as nat),
            touched(rows, (n - 1) as nat),
        );
        assert forall|k: int| 0 <= k < t.len() implies (#[trigger] t[k]) < graph.classes@.len()
            && graph.classes@[t[k] as int] == w[k] by {
            if k < a.len() {
                assert(t[k] == a[k] && w[k] == b[k]);
            } else if k < t.len() - 1 {
                let j = k - a.len();
                assert(t[k] == x.ch_eq@[j]);
                assert(w[k] == rows[n - 1].children[j]);
            }
        }
    } else {
        assert(named_classes(graph.enodes@, 0) =~= Seq::empty());
    }
}

proof fn lemma_touch_prefix(s: Seq<u32>, k: int)
    requires
        0 <= k <= s.len(),
    ensures
        first_touch(s.take(k)).is_prefix_of(first_touch(s)),
    decreases s.len() - k,
{
    if k == s.len() {
        assert(s.take(k) =~= s);
    } else {
        lemma_touch_prefix(s, k + 1);
        assert(s.take(k + 1).drop_last() =~= s.take(k));
    }
}

/// Interning holds the values of a sequence.
pub(crate) proof fn lemma_touch_holds(s: Seq<u32>, x: u32)
    ensures
        first_touch(s).contains(x) <==> s.contains(x),
    decreases s.len(),
{
    if s.len() > 0 {
        let t = s.drop_last();
        lemma_touch_holds(t, x);
        let (a, b) = (first_touch(t), first_touch(s));
        if s.contains(x) {
            let i = choose|i: int| 0 <= i < s.len() && s[i] == x;
            if i < t.len() {
                assert(t[i] == x);
                let k = choose|k: int| 0 <= k < a.len() && a[k] == x;
                assert(b[k] == x);
            } else if !a.contains(x) {
                assert(b[a.len() as int] == x);
            }
        }
        if b.contains(x) {
            let k = choose|k: int| 0 <= k < b.len() && b[k] == x;
            if k < a.len() {
                assert(a[k] == x);
                let i = choose|i: int| 0 <= i < t.len() && t[i] == x;
                assert(s[i] == x);
            } else {
                assert(s[s.len() - 1] == x);
            }
        }
    }
}

/// Classes are numbered as the e-nodes name them: going through the e-nodes, the children of
/// each before its own class, every class is either one that was named before or the one with
/// the next number. Every class is named, and no two have the same value.
pub proof fn classes_are_numbered_as_they_are_named(
    eg: EGraph,
    sort: Seq<char>,
    heads: Seq<(String, Cost)>,
    g: ClassGraph,
    k: int,
)
    requires
        builds(eg, sort, heads, Ok::<ClassGraph, BuildError>(g)),
        0 <= k < named_classes(g.enodes@, g.enodes@.len()).len(),
    ensures
        ({
            let t = named_classes(g.enodes@, g.enodes@.len());
            &&& t.take(k).contains(t[k]) || forall|c: u32| #[trigger]
                t.take(k).contains(c) <==> c < t[k]
            &&& forall|c: u32| c < g.size() ==> #[trigger] t.contains(c)
            &&& g.classes@.no_duplicates()
        }),
{
    let order = choose|order: Seq<usize>| #[trigger]
        orders(head_names(heads), order) && match snapshot(eg, sort, heads, order) {
            Ok(s) => g.shows_scan(eg, s) && g.wf() && g.condensed(),
            Err(f) => false,
        };
    let rows = snapshot(eg, sort, heads, order)->Ok_0.rows;
    let n = g.enodes@.len();
    let t = named_classes(g.enodes@, n);
    let w = touched(rows, n);
    lemma_named_touched(&g, rows, n);
    lemma_first_touch_once(w);
    let cs = g.classes@;
    assert(cs == first_touch(w));
    assert forall|c: u32| c < g.size() implies #[trigger] t.contains(c) by {
        assert(cs.contains(cs[c as int]));
        lemma_touch_holds(w, cs[c as int]);
        let i = choose|i: int| 0 <= i < w.len() && w[i] == cs[c as int];
        assert(cs[t[i] as int] == cs[c as int]);
        assert(t[i] == c);
    }
    let p = first_touch(w.take(k));
    lemma_touch_prefix(w, k);
    lemma_touch_prefix(w, k + 1);
    let q = first_touch(w.take(k + 1));
    assert(w.take(k + 1).drop_last() =~= w.take(k));
    assert(w.take(k + 1).last() == w[k]);
    // the classes before are those of the first values
    assert forall|c: u32| #[trigger] t.take(k).contains(c) <==> c < p.len() by {
        if t.take(k).contains(c) {
            let i = choose|i: int| 0 <= i < t.take(k).len() && t.take(k)[i] == c;
            assert(t[i] == c);
            assert(w.take(k)[i] == w[i]);
            assert(w.take(k).contains(w[i]));
            lemma_touch_holds(w.take(k), w[i]);
            let j = choose|j: int| 0 <= j < p.len() && p[j] == w[i];
            assert(cs[j] == p[j]);
            assert(cs[j] == cs[c as int]);
        }
        if c < p.len() {
            assert(p.contains(p[c as int]));
            lemma_touch_holds(w.take(k), p[c as int]);
            let i = choose|i: int| 0 <= i < w.take(k).len() && w.take(k)[i] == p[c as int];
            assert(w[i] == cs[c as int]);
            assert(cs[t[i] as int] == cs[c as int]);
            assert(t.take(k)[i] == c);
        }
    }
    if !p.contains(w[k]) {
        assert(q[p.len() as int] == w[k]);
        assert(cs[p.len() as int] == w[k]);
        assert(cs[t[k] as int] == cs[p.len() as int]);
        assert(t[k] == p.len());
    } else {
        let j = choose|j: int| 0 <= j < p.len() && p[j] == w[k];
        assert(cs[j] == w[k]);
        assert(cs[t[k] as int] == cs[j]);
        assert(t.take(k).contains(t[k]));
    }
}

/// Each class lists its own e-nodes, all of them and in order, and is found by its value.
pub proof fn classes_list_their_enodes(
    eg: EGraph,
    sort: Seq<char>,
    heads: Seq<(String, Cost)>,
    g: ClassGraph,
    v: u32,
)
    requires
        builds(eg, sort, heads, Ok::<ClassGraph, BuildError>(g)),
        v < g.size(),
    ensures
        forall|e: usize| #[trigger]
            g.enodes_of@[v as int]@.contains(e) <==> e < g.enodes@.len() && g.enodes@[
                e as int
            ].out == v,
        forall|i: int, j: int|
            0 <= i < j < g.enodes_of@[v as int]@.len() ==> (#[trigger] g.enodes_of@[v as int]@[i])
                < (#[trigger] g.enodes_of@[v as int]@[j]),
        g.class_index@.dom().contains(g.classes@[v as int]),
        g.class_index@[g.classes@[v as int]] == v,
        forall|x: u32| #[trigger]
            g.class_index@.dom().contains(x) <==> g.classes@.contains(x),
{
    let order = choose|order: Seq<usize>| #[trigger]
        orders(head_names(heads), order) && match snapshot(eg, sort, heads, order) {
            Ok(s) => g.shows_scan(eg, s) && g.wf() && g.condensed(),
            Err(f) => false,
        };
    let list = g.enodes_of@[v as int]@;
    assert(lists_enodes(list, g.enodes@, v as int));
    assert forall|e: usize| #[trigger] list.contains(e) implies e < g.enodes@.len()
        && g.enodes@[e as int].out == v by {
        let i = choose|i: int| 0 <= i < list.len() && list[i] == e;
        assert(list[i] < g.enodes@.len());
    }
    assert(g.classes@.contains(g.classes@[v as int]));
}

} // verus!
