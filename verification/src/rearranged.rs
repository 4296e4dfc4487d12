//! E-graphs that hold the same rows in another order.
use egglog::EGraph;
use vstd::prelude::*;

use crate::alike::{one_to_one, row_renamed};
use crate::best_term::{
    args_fit, best_term, is_best_term, lemma_count_grows, lemma_count_take, mask_of,
};
use crate::build_laws::{known, lemma_children_renumbered, row_matches};
use crate::class_graph::ClassGraph;
use crate::cost::Cost;
use crate::cut_iter::{lemma_built, well_shaped};
use crate::dag_extract::{fold_of, prepares, DagExtractor, ExtractorError};
use crate::egraph::{functions_of, sorts_of, strings_of, RowView, SortView, TermView};
use crate::extract_alike::lemma_prepared;
use crate::extract_dp::{pricing, solved, texts_of, Dp, Pricing};
use crate::kernel::count_true;
use crate::names::{orders, sorted_order_is_unique};
use crate::row_order::{
    acyclic, choice_moved, enode_moved, found_back, found_in, moved, solutions_ignore_the_order,
    told_apart,
};
use crate::snapshot::{
    builds, class_mask, first_touch, head_names, in_order, lists_enodes, live_rows, node_row,
    scanned, snapshot, stands_for, tables, touched, BuildError, NodeRowView, Scan,
};

verus! {

// ------------------------------------------------------------------------- rows

/// Row `x` of `a` is one of the rows `y` of `b`.
#[verifier::opaque]
pub open spec fn row_in(
    a: EGraph,
    b: EGraph,
    sort: Seq<char>,
    f: spec_fn(u32) -> u32,
    mask: Seq<bool>,
    x: RowView,
    y: Seq<RowView>,
) -> bool {
    exists|q: int| 0 <= q < y.len() && row_matches(a, b, sort, f, mask, x, #[trigger] y[q])
}

/// Row `y` of `b` is one of the rows `x` of `a`.
#[verifier::opaque]
pub open spec fn row_back(
    a: EGraph,
    b: EGraph,
    sort: Seq<char>,
    f: spec_fn(u32) -> u32,
    mask: Seq<bool>,
    x: Seq<RowView>,
    y: RowView,
) -> bool {
    exists|r: int| 0 <= r < x.len() && row_matches(a, b, sort, f, mask, #[trigger] x[r], y)
}

/// The same rows in some order, over the same strings and with the classes renamed by `f`.
pub open spec fn rows_rearranged(
    a: EGraph,
    b: EGraph,
    sort: Seq<char>,
    f: spec_fn(u32) -> u32,
    mask: Seq<bool>,
    x: Seq<RowView>,
    y: Seq<RowView>,
) -> bool {
    &&& forall|r: int| 0 <= r < x.len() ==> row_in(a, b, sort, f, mask, #[trigger] x[r], y)
    &&& forall|q: int| 0 <= q < y.len() ==> row_back(a, b, sort, f, mask, x, #[trigger] y[q])
}

/// The e-graphs have the same function of that name, with the same rows in some order.
pub open spec fn table_rearranged(
    a: EGraph,
    b: EGraph,
    sort: Seq<char>,
    f: spec_fn(u32) -> u32,
    name: Seq<char>,
) -> bool {
    let fun = functions_of(a)[name];
    &&& functions_of(a).dom().contains(name) == functions_of(b).dom().contains(name)
    &&& functions_of(a).dom().contains(name) ==> {
        &&& functions_of(b)[name] == fun
        &&& tables(a, fun).dom().contains(name) == tables(b, fun).dom().contains(name)
        &&& tables(a, fun).dom().contains(name) ==> rows_rearranged(
            a,
            b,
            sort,
            f,
            class_mask(fun.inputs),
            tables(a, fun)[name],
            tables(b, fun)[name],
        )
    }
}

/// The e-graphs hold the same of the sort and of the named functions, but for the order of
/// the rows, the numbers of the classes, which `f` renames, and those of the strings.
pub open spec fn rearranged(
    a: EGraph,
    b: EGraph,
    sort: Seq<char>,
    f: spec_fn(u32) -> u32,
    names: Seq<Seq<char>>,
) -> bool {
    &&& one_to_one(f)
    &&& sorts_of(a).dom().contains(sort) == sorts_of(b).dom().contains(sort)
    &&& sorts_of(a).dom().contains(sort) ==> sorts_of(a)[sort] == sorts_of(b)[sort]
    &&& forall|i: int|
        0 <= i < names.len() ==> table_rearranged(a, b, sort, f, #[trigger] names[i])
}

// ------------------------------------------------------------------------ scans

/// The same row: its classes renamed, its strings the same.
spec fn node_same(
    a: EGraph,
    b: EGraph,
    f: spec_fn(u32) -> u32,
    x: NodeRowView,
    y: NodeRowView,
) -> bool {
    &&& row_renamed(f, x, y)
    &&& forall|j: int|
        0 <= j < x.prims.len() ==> strings_of(a)[(#[trigger] x.prims[j]).1] == strings_of(
            b,
        )[y.prims[j].1]
}

#[verifier::opaque]
spec fn node_in(
    a: EGraph,
    b: EGraph,
    f: spec_fn(u32) -> u32,
    x: NodeRowView,
    y: Seq<NodeRowView>,
) -> bool {
    exists|q: int| 0 <= q < y.len() && node_same(a, b, f, x, #[trigger] y[q])
}

#[verifier::opaque]
spec fn node_back(
    a: EGraph,
    b: EGraph,
    f: spec_fn(u32) -> u32,
    x: Seq<NodeRowView>,
    y: NodeRowView,
) -> bool {
    exists|r: int| 0 <= r < x.len() && node_same(a, b, f, #[trigger] x[r], y)
}

/// The same rows in some order.
spec fn nodes_rearranged(
    a: EGraph,
    b: EGraph,
    f: spec_fn(u32) -> u32,
    x: Seq<NodeRowView>,
    y: Seq<NodeRowView>,
) -> bool {
    &&& forall|r: int| 0 <= r < x.len() ==> node_in(a, b, f, #[trigger] x[r], y)
    &&& forall|q: int| 0 <= q < y.len() ==> node_back(a, b, f, x, #[trigger] y[q])
}

/// The row is read.
spec fn live(row: RowView, mask: Seq<bool>) -> bool {
    !row.subsumed && row.inputs.len() == mask.len()
}

proof fn lemma_live_source(
    eg: EGraph,
    sort: Seq<char>,
    func: int,
    mask: Seq<bool>,
    rows: Seq<RowView>,
    head: Cost,
    n: nat,
    i: int,
) -> (r: int)
    requires
        0 <= i < live_rows(eg, sort, func, mask, rows, head, n).len(),
    ensures
        0 <= r < n,
        live(rows[r], mask),
        live_rows(eg, sort, func, mask, rows, head, n)[i] == node_row(
            eg,
            sort,
            func,
            mask,
            rows[r],
            head,
        ),
    decreases n,
{
    let rest = live_rows(eg, sort, func, mask, rows, head, (n - 1) as nat);
    if i < rest.len() {
        lemma_live_source(eg, sort, func, mask, rows, head, (n - 1) as nat, i)
    } else {
        n - 1
    }
}

proof fn lemma_live_listed(
    eg: EGraph,
    sort: Seq<char>,
    func: int,
    mask: Seq<bool>,
    rows: Seq<RowView>,
    head: Cost,
    n: nat,
    r: int,
) -> (i: int)
    requires
        0 <= r < n,
        live(rows[r], mask),
    ensures
        0 <= i < live_rows(eg, sort, func, mask, rows, head, n).len(),
        live_rows(eg, sort, func, mask, rows, head, n)[i] == node_row(
            eg,
            sort,
            func,
            mask,
            rows[r],
            head,
        ),
    decreases n,
{
    let rest = live_rows(eg, sort, func, mask, rows, head, (n - 1) as nat);
    if r < n - 1 {
        lemma_live_listed(eg, sort, func, mask, rows, head, (n - 1) as nat, r)
    } else {
        rest.len() as int
    }
}

proof fn lemma_node_same(
    a: EGraph,
    b: EGraph,
    sort: Seq<char>,
    f: spec_fn(u32) -> u32,
    func: int,
    mask: Seq<bool>,
    x: RowView,
    y: RowView,
    head: Cost,
)
    requires
        row_matches(a, b, sort, f, mask, x, y),
        x.inputs.len() == mask.len(),
    ensures
        node_same(
            a,
            b,
            f,
            node_row(a, sort, func, mask, x, head),
            node_row(b, sort, func, mask, y, head),
        ),
{
    lemma_children_renumbered(a, b, sort, f, mask, x, y, mask.len());
}

proof fn lemma_live_rearranged(
    a: EGraph,
    b: EGraph,
    sort: Seq<char>,
    f: spec_fn(u32) -> u32,
    func: int,
    mask: Seq<bool>,
    x: Seq<RowView>,
    y: Seq<RowView>,
    head: Cost,
)
    requires
        rows_rearranged(a, b, sort, f, mask, x, y),
    ensures
        nodes_rearranged(
            a,
            b,
            f,
            live_rows(a, sort, func, mask, x, head, x.len()),
            live_rows(b, sort, func, mask, y, head, y.len()),
        ),
{
    let s = live_rows(a, sort, func, mask, x, head, x.len());
    let t = live_rows(b, sort, func, mask, y, head, y.len());
    assert forall|i: int| 0 <= i < s.len() implies node_in(a, b, f, #[trigger] s[i], t) by {
        let r = lemma_live_source(a, sort, func, mask, x, head, x.len(), i);
        assert(row_in(a, b, sort, f, mask, x[r], y));
        reveal(row_in);
        let q = choose|q: int|
            0 <= q < y.len() && row_matches(a, b, sort, f, mask, x[r], #[trigger] y[q]);
        let k = lemma_live_listed(b, sort, func, mask, y, head, y.len(), q);
        lemma_node_same(a, b, sort, f, func, mask, x[r], y[q], head);
        reveal(node_in);
        assert(node_same(a, b, f, s[i], t[k]));
    }
    assert forall|k: int| 0 <= k < t.len() implies node_back(a, b, f, s, #[trigger] t[k]) by {
        let q = lemma_live_source(b, sort, func, mask, y, head, y.len(), k);
        assert(row_back(a, b, sort, f, mask, x, y[q]));
        reveal(row_back);
        let r = choose|r: int|
            0 <= r < x.len() && row_matches(a, b, sort, f, mask, #[trigger] x[r], y[q]);
        let i = lemma_live_listed(a, sort, func, mask, x, head, x.len(), r);
        lemma_node_same(a, b, sort, f, func, mask, x[r], y[q], head);
        reveal(node_back);
        assert(node_same(a, b, f, s[i], t[k]));
    }
}

proof fn lemma_nodes_join(
    a: EGraph,
    b: EGraph,
    f: spec_fn(u32) -> u32,
    s: Seq<NodeRowView>,
    t: Seq<NodeRowView>,
    u: Seq<NodeRowView>,
    w: Seq<NodeRowView>,
)
    requires
        nodes_rearranged(a, b, f, s, t),
        nodes_rearranged(a, b, f, u, w),
    ensures
        nodes_rearranged(a, b, f, s + u, t + w),
{
    reveal(node_in);
    reveal(node_back);
    let (x, y) = (s + u, t + w);
    assert forall|r: int| 0 <= r < x.len() implies node_in(a, b, f, #[trigger] x[r], y) by {
        if r < s.len() {
            assert(node_in(a, b, f, s[r], t));
            let q = choose|q: int| 0 <= q < t.len() && node_same(a, b, f, s[r], #[trigger] t[q]);
            assert(node_same(a, b, f, x[r], y[q]));
        } else {
            let k = r - s.len();
            assert(node_in(a, b, f, u[k], w));
            let q = choose|q: int| 0 <= q < w.len() && node_same(a, b, f, u[k], #[trigger] w[q]);
            assert(node_same(a, b, f, x[r], y[t.len() + q]));
        }
    }
    assert forall|q: int| 0 <= q < y.len() implies node_back(a, b, f, x, #[trigger] y[q]) by {
        if q < t.len() {
            assert(node_back(a, b, f, s, t[q]));
            let r = choose|r: int| 0 <= r < s.len() && node_same(a, b, f, #[trigger] s[r], t[q]);
            assert(node_same(a, b, f, x[r], y[q]));
        } else {
            let k = q - t.len();
            assert(node_back(a, b, f, u, w[k]));
            let r = choose|r: int| 0 <= r < u.len() && node_same(a, b, f, #[trigger] u[r], w[k]);
            assert(node_same(a, b, f, x[s.len() + r], y[q]));
        }
    }
}

proof fn lemma_scanned_rearranged(
    a: EGraph,
    b: EGraph,
    sort: Seq<char>,
    f: spec_fn(u32) -> u32,
    root: SortView,
    heads: Seq<(Seq<char>, Cost)>,
    n: nat,
)
    requires
        n <= heads.len(),
        forall|i: int|
            0 <= i < heads.len() ==> table_rearranged(a, b, sort, f, (#[trigger] heads[i]).0),
    ensures
        match (scanned(a, sort, root, heads, n), scanned(b, sort, root, heads, n)) {
            (Ok(s), Ok(t)) => s.funcs == t.funcs && nodes_rearranged(a, b, f, s.rows, t.rows),
            (Err(d), Err(e)) => d == e,
            _ => false,
        },
    decreases n,
{
    if n > 0 {
        lemma_scanned_rearranged(a, b, sort, f, root, heads, (n - 1) as nat);
        let (name, head) = heads[n - 1];
        assert(table_rearranged(a, b, sort, f, heads[n - 1].0));
        let fun = functions_of(a)[name];
        if let Ok(s) = scanned(a, sort, root, heads, (n - 1) as nat) {
            let t = scanned(b, sort, root, heads, (n - 1) as nat)->Ok_0;
            let mask = class_mask(fun.inputs);
            let (x, y) = (tables(a, fun)[name], tables(b, fun)[name]);
            let func = s.funcs.len() as int;
            if known(a, name) && tables(a, fun).dom().contains(name) {
                lemma_live_rearranged(a, b, sort, f, func, mask, x, y, head);
                lemma_nodes_join(
                    a,
                    b,
                    f,
                    s.rows,
                    t.rows,
                    live_rows(a, sort, func, mask, x, head, x.len()),
                    live_rows(b, sort, func, mask, y, head, y.len()),
                );
            }
        }
    }
}

// ----------------------------------------------------------------------- graphs

/// A class value is one of a row.
proof fn lemma_touched_source(rows: Seq<NodeRowView>, n: nat, c: u32)
    requires
        n <= rows.len(),
        touched(rows, n).contains(c),
    ensures
        exists|r: int|
            0 <= r < n && ((#[trigger] rows[r]).out == c || rows[r].children.contains(c)),
    decreases n,
{
    if n > 0 {
        let rest = touched(rows, (n - 1) as nat);
        let all = touched(rows, n);
        let k = choose|k: int| 0 <= k < all.len() && all[k] == c;
        if k < rest.len() {
            assert(rest[k] == c);
            lemma_touched_source(rows, (n - 1) as nat, c);
            let r = choose|r: int|
                0 <= r < n - 1 && ((#[trigger] rows[r]).out == c || rows[r].children.contains(c));
            assert(rows[r].out == c || rows[r].children.contains(c));
        } else {
            if k < all.len() - 1 {
                assert(rows[n - 1].children[k - rest.len()] == c);
            }
            assert(rows[n - 1].out == c || rows[n - 1].children.contains(c));
        }
    }
}

proof fn lemma_first_touch_source(s: Seq<u32>, c: u32)
    requires
        first_touch(s).contains(c),
    ensures
        s.contains(c),
    decreases s.len(),
{
    if s.len() > 0 {
        let rest = first_touch(s.drop_last());
        let all = first_touch(s);
        let k = choose|k: int| 0 <= k < all.len() && all[k] == c;
        if k < rest.len() {
            assert(rest[k] == c);
            lemma_first_touch_source(s.drop_last(), c);
            let j = choose|j: int| 0 <= j < s.drop_last().len() && s.drop_last()[j] == c;
            assert(s[j] == c);
        } else {
            assert(s[s.len() - 1] == c);
        }
    }
}

/// Where graph `h` has the classes of graph `g`.
pub open spec fn places(f: spec_fn(u32) -> u32, g: &ClassGraph, h: &ClassGraph) -> Seq<u32> {
    Seq::new(g.size(), |v: int| h.class_index@[f(g.classes@[v])])
}

/// The classes of `g` are found in `h`.
proof fn lemma_class_found(
    a: EGraph,
    b: EGraph,
    f: spec_fn(u32) -> u32,
    x: Seq<NodeRowView>,
    y: Seq<NodeRowView>,
    g: &ClassGraph,
    h: &ClassGraph,
    v: int,
)
    requires
        nodes_rearranged(a, b, f, x, y),
        g.shows(x),
        h.shows(y),
        h.size() <= u32::MAX,
        0 <= v < g.size(),
    ensures
        places(f, g, h)[v] < h.size(),
        h.classes@[places(f, g, h)[v] as int] == f(g.classes@[v]),
{
    let c = g.classes@[v];
    lemma_first_touch_source(touched(x, x.len()), c);
    lemma_touched_source(x, x.len(), c);
    let r = choose|r: int|
        0 <= r < x.len() && ((#[trigger] x[r]).out == c || x[r].children.contains(c));
    assert(node_in(a, b, f, x[r], y));
    reveal(node_in);
    let q = choose|q: int| 0 <= q < y.len() && node_same(a, b, f, x[r], #[trigger] y[q]);
    assert(stands_for(h.enodes@[q], h.classes@, y[q]));
    let d = h.classes@;
    if x[r].out == c {
        let k = h.enodes@[q].out as int;
        assert(d[k] == f(c));
        assert(h.class_index@[d[k]] == k);
    } else {
        let j = choose|j: int| 0 <= j < x[r].children.len() && x[r].children[j] == c;
        let k = h.enodes@[q].ch_eq@[j] as int;
        assert(d[k] == y[q].children[j]);
        assert(d[k] == f(c));
        assert(h.class_index@[d[k]] == k);
    }
}

proof fn lemma_enode_moved(
    a: EGraph,
    b: EGraph,
    f: spec_fn(u32) -> u32,
    s: Scan,
    t: Scan,
    g: &ClassGraph,
    h: &ClassGraph,
    r: int,
    q: int,
)
    requires
        s.funcs == t.funcs,
        g.shows_scan(a, s),
        h.shows_scan(b, t),
        0 <= r < s.rows.len(),
        0 <= q < t.rows.len(),
        node_same(a, b, f, s.rows[r], t.rows[q]),
    ensures
        enode_moved(a, b, g, h, places(f, g, h), r, q),
{
    let (x, y) = (s.rows[r], t.rows[q]);
    let (m, n) = (g.enodes@[r], h.enodes@[q]);
    assert(stands_for(m, g.classes@, x));
    assert(stands_for(n, h.classes@, y));
    assert(x.func < s.funcs.len());
    assert(g.funcs@[m.func as int].term_name@ == s.funcs[m.func as int].name);
    assert(h.funcs@[n.func as int].term_name@ == t.funcs[n.func as int].name);
    let at = places(f, g, h);
    assert forall|j: int| 0 <= j < m.ch_eq@.len() implies #[trigger] n.ch_eq@[j]
        == at[m.ch_eq@[j] as int] by {
        assert(m.ch_eq@[j] < g.classes@.len());
        assert(g.classes@[m.ch_eq@[j] as int] == x.children[j]);
        assert(h.classes@[n.ch_eq@[j] as int] == y.children[j]);
        assert(y.children[j] == f(x.children[j]));
        assert(h.class_index@[h.classes@[n.ch_eq@[j] as int]] == n.ch_eq@[j]);
    }
    assert forall|j: int| 0 <= j < m.ch_prim@.len() implies (#[trigger] m.ch_prim@[j]).0
        == n.ch_prim@[j].0 && strings_of(a)[m.ch_prim@[j].1] == strings_of(
        b,
    )[n.ch_prim@[j].1] by {
        assert(x.prims[j].0 == y.prims[j].0);
        assert(strings_of(a)[x.prims[j].1] == strings_of(b)[y.prims[j].1]);
    }
}

/// The graphs of rearranged rows have the same e-nodes in some order.
proof fn lemma_graphs_moved(
    a: EGraph,
    b: EGraph,
    f: spec_fn(u32) -> u32,
    s: Scan,
    t: Scan,
    g: &ClassGraph,
    h: &ClassGraph,
)
    requires
        one_to_one(f),
        s.funcs == t.funcs,
        nodes_rearranged(a, b, f, s.rows, t.rows),
        g.shows_scan(a, s),
        h.shows_scan(b, t),
        g.wf(),
        h.wf(),
    ensures
        moved(a, b, g, h, places(f, g, h)),
{
    let at = places(f, g, h);
    let (x, y) = (s.rows, t.rows);
    assert(g.enodes.len() == g.enodes@.len());
    assert(h.enodes.len() == h.enodes@.len());
    assert forall|v: int| 0 <= v < g.size() implies #[trigger] at[v] < h.size() by {
        lemma_class_found(a, b, f, x, y, g, h, v);
    }
    assert forall|v: int, i: int|
        0 <= v < g.size() && 0 <= i < g.enodes_of@[v]@.len() implies found_in(
        a,
        b,
        g,
        h,
        at,
        #[trigger] g.enodes_of@[v]@[i] as int,
        at[v] as int,
    ) by {
        lemma_class_found(a, b, f, x, y, g, h, v);
        let r = g.enodes_of@[v]@[i] as int;
        assert(g.enodes_of@[v]@[i] < g.enodes@.len());
        assert(stands_for(g.enodes@[r], g.classes@, x[r]));
        assert(node_in(a, b, f, x[r], y));
        reveal(node_in);
        let q = choose|q: int| 0 <= q < y.len() && node_same(a, b, f, x[r], #[trigger] y[q]);
        lemma_enode_moved(a, b, f, s, t, g, h, r, q);
        assert(stands_for(h.enodes@[q], h.classes@, y[q]));
        let w = h.enodes@[q].out as int;
        assert(h.class_index@[h.classes@[w]] == w);
        assert(w == at[v]);
        assert(lists_enodes(h.enodes_of@[w]@, h.enodes@, w));
        assert(h.enodes@[(q as usize) as int].out == w);
        assert(h.enodes_of@[w]@.contains(q as usize));
        let k = choose|k: int| 0 <= k < h.enodes_of@[w]@.len() && h.enodes_of@[w]@[k] == q as usize;
        reveal(found_in);
        assert(enode_moved(a, b, g, h, at, r, h.enodes_of@[w]@[k] as int));
    }
    assert forall|v: int, k: int|
        0 <= v < g.size() && 0 <= k < h.enodes_of@[at[v] as int]@.len() implies found_back(
        a,
        b,
        g,
        h,
        at,
        v,
        #[trigger] h.enodes_of@[at[v] as int]@[k] as int,
    ) by {
        lemma_class_found(a, b, f, x, y, g, h, v);
        let w = at[v] as int;
        let q = h.enodes_of@[w]@[k] as int;
        assert(h.enodes_of@[w]@[k] < h.enodes@.len());
        assert(stands_for(h.enodes@[q], h.classes@, y[q]));
        assert(node_back(a, b, f, x, y[q]));
        reveal(node_back);
        let r = choose|r: int| 0 <= r < x.len() && node_same(a, b, f, #[trigger] x[r], y[q]);
        lemma_enode_moved(a, b, f, s, t, g, h, r, q);
        assert(stands_for(g.enodes@[r], g.classes@, x[r]));
        assert(f(x[r].out) == f(g.classes@[v]));
        let u = g.enodes@[r].out as int;
        assert(g.class_index@[g.classes@[u]] == u);
        assert(g.class_index@[g.classes@[v]] == v);
        assert(u == v);
        assert(lists_enodes(g.enodes_of@[v]@, g.enodes@, v));
        assert(g.enodes@[(r as usize) as int].out == v);
        assert(g.enodes_of@[v]@.contains(r as usize));
        let i = choose|i: int| 0 <= i < g.enodes_of@[v]@.len() && g.enodes_of@[v]@[i] == r as usize;
        reveal(found_back);
        assert(enode_moved(a, b, g, h, at, g.enodes_of@[v]@[i] as int, q));
    }
}

// ------------------------------------------------------------------------ terms

proof fn lemma_best_term_moved(
    a: EGraph,
    b: EGraph,
    g: &ClassGraph,
    h: &ClassGraph,
    at: Seq<u32>,
    s: Dp,
    t: Dp,
    terms: Seq<TermView>,
    v: u32,
    id: usize,
    height: nat,
)
    requires
        well_shaped(g),
        at.len() == g.size(),
        forall|w: int| 0 <= w < g.size() ==> #[trigger] choice_moved(a, b, g, h, at, s, t, w),
        v < g.size(),
    ensures
        best_term(g, s.best, a, terms, v, id, height) == best_term(
            h,
            t.best,
            b,
            terms,
            at[v as int],
            id,
            height,
        ),
    decreases height, 0nat,
{
    if height > 0 {
        assert(choice_moved(a, b, g, h, at, s, t, v as int));
        if let Some(x) = s.best[v as int] {
            let y = t.best[at[v as int] as int]->0;
            assert(enode_moved(a, b, g, h, at, x as int, y as int));
            if id < terms.len() {
                if let TermView::App(_, ch) = terms[id as int] {
                    if ch.len() == mask_of(g, x as int).len() {
                        lemma_args_moved(
                            a,
                            b,
                            g,
                            h,
                            at,
                            s,
                            t,
                            terms,
                            x as int,
                            y as int,
                            ch,
                            ch.len(),
                            (height - 1) as nat,
                        );
                    }
                }
            }
        }
    }
}

proof fn lemma_args_moved(
    a: EGraph,
    b: EGraph,
    g: &ClassGraph,
    h: &ClassGraph,
    at: Seq<u32>,
    s: Dp,
    t: Dp,
    terms: Seq<TermView>,
    x: int,
    y: int,
    ch: Seq<usize>,
    n: nat,
    height: nat,
)
    requires
        well_shaped(g),
        at.len() == g.size(),
        forall|w: int| 0 <= w < g.size() ==> #[trigger] choice_moved(a, b, g, h, at, s, t, w),
        0 <= x < g.enodes@.len(),
        enode_moved(a, b, g, h, at, x, y),
        n <= mask_of(g, x).len(),
    ensures
        args_fit(g, s.best, a, terms, x, ch, n, height) == args_fit(
            h,
            t.best,
            b,
            terms,
            y,
            ch,
            n,
            height,
        ),
    decreases height, n + 1,
{
    if n > 0 {
        let p = n - 1;
        let m = g.enodes@[x];
        let mask = mask_of(g, x);
        assert(mask == mask_of(h, y));
        let k = count_true(mask.take(p)) as int;
        lemma_count_take(mask, p);
        lemma_count_grows(mask, p + 1, mask.len() as int);
        lemma_count_grows(mask, 0, p);
        assert(mask.take(0) =~= Seq::<bool>::empty());
        assert(mask.take(mask.len() as int) =~= mask);
        lemma_args_moved(a, b, g, h, at, s, t, terms, x, y, ch, p as nat, height);
        if mask[p] {
            assert(g.enodes@[x].ch_eq@[k] < g.size());
            assert(h.enodes@[y].ch_eq@[k] == at[m.ch_eq@[k] as int]);
            lemma_best_term_moved(
                a,
                b,
                g,
                h,
                at,
                s,
                t,
                terms,
                g.children(x)[k],
                ch[p],
                height,
            );
        } else {
            assert(m.ch_prim@[p - k].0 == h.enodes@[y].ch_prim@[p - k].0);
        }
    }
}

// ------------------------------------------------------------------- extractors

/// The graphs of rearranged e-graphs have the same e-nodes in some order.
proof fn lemma_builds_moved(
    a: EGraph,
    b: EGraph,
    sort: Seq<char>,
    f: spec_fn(u32) -> u32,
    heads: Seq<(String, Cost)>,
    g: ClassGraph,
    h: ClassGraph,
)
    requires
        heads.len() <= usize::MAX,
        rearranged(a, b, sort, f, head_names(heads)),
        builds(a, sort, heads, Ok::<ClassGraph, BuildError>(g)),
        builds(b, sort, heads, Ok::<ClassGraph, BuildError>(h)),
    ensures
        moved(a, b, &g, &h, places(f, &g, &h)),
        forall|v: int|
            0 <= v < g.size() ==> h.classes@[#[trigger] places(f, &g, &h)[v] as int] == f(
                g.classes@[v],
            ),
{
    let names = head_names(heads);
    let o = choose|order: Seq<usize>| #[trigger]
        orders(names, order) && match snapshot(a, sort, heads, order) {
            Ok(s) => g.shows_scan(a, s) && g.wf() && g.condensed(),
            Err(d) => false,
        };
    let q = choose|order: Seq<usize>| #[trigger]
        orders(names, order) && match snapshot(b, sort, heads, order) {
            Ok(s) => h.shows_scan(b, s) && h.wf() && h.condensed(),
            Err(d) => false,
        };
    sorted_order_is_unique(names, o, q);
    let hs = in_order(heads, o);
    assert forall|i: int| 0 <= i < hs.len() implies table_rearranged(
        a,
        b,
        sort,
        f,
        (#[trigger] hs[i]).0,
    ) by {
        assert(o[i] < names.len());
        assert(table_rearranged(a, b, sort, f, names[o[i] as int]));
    }
    lemma_scanned_rearranged(a, b, sort, f, sorts_of(a)[sort], hs, hs.len());
    let s = snapshot(a, sort, heads, o)->Ok_0;
    let t = snapshot(b, sort, heads, q)->Ok_0;
    lemma_graphs_moved(a, b, f, s, t, &g, &h);
    assert forall|v: int| 0 <= v < g.size() implies h.classes@[
        #[trigger] places(f, &g, &h)[v] as int
    ] == f(g.classes@[v]) by {
        lemma_class_found(a, b, f, s.rows, t.rows, &g, &h, v);
    }
}

/// What the extractor found.
pub open spec fn found(x: DagExtractor) -> Dp {
    Dp { costs: x.costs@, hashes: x.hashes@, best: x.best@ }
}

/// In every class cost and hash tell the e-nodes apart.
pub open spec fn all_told_apart(x: DagExtractor, p: Pricing) -> bool {
    forall|w: int| 0 <= w < x.graph.size() ==> #[trigger] told_apart(&x.graph, p, found(x), w)
}

/// The costs and hashes of the classes are the same; `f` renames the classes.
pub open spec fn same_found(f: spec_fn(u32) -> u32, x: DagExtractor, y: DagExtractor) -> bool {
    let at = places(f, &x.graph, &y.graph);
    forall|v: int|
        0 <= v < x.graph.size() ==> {
            &&& #[trigger] at[v] < y.graph.size()
            &&& y.graph.classes@[at[v] as int] == f(x.graph.classes@[v])
            &&& x.costs@[v] == y.costs@[at[v] as int]
            &&& x.hashes@[v] == y.hashes@[at[v] as int]
        }
}

/// Where no class depends on itself, costs and hashes do not depend on the order in which the
/// e-graph holds its rows, nor on how it numbers classes and strings. Where, besides, cost and
/// hash tell the e-nodes of each class apart, the same terms are chosen.
pub proof fn choices_ignore_the_order_of_rows<
    P: Fn(Cost, Cost) -> Cost,
    W: Fn(Cost) -> Cost,
    N: Fn(u64) -> Cost,
>(
    a: EGraph,
    b: EGraph,
    sort: Seq<char>,
    f: spec_fn(u32) -> u32,
    heads: Seq<(String, Cost)>,
    fold: Seq<char>,
    fold_max: bool,
    plus: P,
    weigh: W,
    noise: N,
    asked: bool,
    x: DagExtractor,
    y: DagExtractor,
)
    requires
        heads.len() <= usize::MAX,
        rearranged(a, b, sort, f, head_names(heads)),
        fold_of(fold) == Some(fold_max),
        prepares(
            a,
            sort,
            heads,
            fold,
            plus,
            weigh,
            noise,
            asked,
            Ok::<DagExtractor, ExtractorError>(x),
        ),
        prepares(
            b,
            sort,
            heads,
            fold,
            plus,
            weigh,
            noise,
            asked,
            Ok::<DagExtractor, ExtractorError>(y),
        ),
        acyclic(&x.graph),
        acyclic(&y.graph),
    ensures
        same_found(f, x, y),
        all_told_apart(
            y,
            pricing(texts_of(b, y.graph.enodes@), fold_max, plus, weigh, noise),
        ) ==> forall|terms: Seq<TermView>, v: u32, id: usize|
            v < x.graph.size() ==> #[trigger] is_best_term(&x.graph, x.best@, a, terms, v, id)
                == is_best_term(
                &y.graph,
                y.best@,
                b,
                terms,
                places(f, &x.graph, &y.graph)[v as int],
                id,
            ),
{
    let rx = Ok::<DagExtractor, ExtractorError>(x);
    let ry = Ok::<DagExtractor, ExtractorError>(y);
    let bx = lemma_prepared(a, sort, heads, fold_max, fold, plus, weigh, noise, asked, rx);
    let by = lemma_prepared(b, sort, heads, fold_max, fold, plus, weigh, noise, asked, ry);
    let (g, h) = (bx->Ok_0, by->Ok_0);
    assert(g == x.graph && h == y.graph);
    lemma_built(a, sort, heads, g);
    lemma_built(b, sort, heads, h);
    lemma_builds_moved(a, b, sort, f, heads, g, h);
    let at = places(f, &g, &h);
    let p = pricing(texts_of(a, g.enodes@), fold_max, plus, weigh, noise);
    let q = pricing(texts_of(b, h.enodes@), fold_max, plus, weigh, noise);
    let (s, t) = (found(x), found(y));
    assert(solved(&g, p, g.sccs@.len())->0 =~= s);
    assert(solved(&h, q, h.sccs@.len())->0 =~= t);
    solutions_ignore_the_order(a, b, &g, &h, at, p, q, s, t);
    assert forall|v: int| 0 <= v < g.size() implies {
        &&& #[trigger] at[v] < h.size()
        &&& h.classes@[at[v] as int] == f(g.classes@[v])
        &&& x.costs@[v] == y.costs@[at[v] as int]
        &&& x.hashes@[v] == y.hashes@[at[v] as int]
    } by {
        assert(s.costs[v] == t.costs[at[v] as int]);
    }
    if all_told_apart(y, q) {
        assert forall|v: int| 0 <= v < g.size() implies #[trigger] choice_moved(
            a,
            b,
            &g,
            &h,
            at,
            s,
            t,
            v,
        ) by {
            assert(at[v] < h.size());
            assert(told_apart(&h, q, t, at[v] as int));
        }
        assert forall|terms: Seq<TermView>, v: u32, id: usize|
            v < g.size() implies #[trigger] is_best_term(&g, x.best@, a, terms, v, id)
            == is_best_term(&h, y.best@, b, terms, at[v as int], id) by {
            let w = at[v as int];
            if is_best_term(&g, x.best@, a, terms, v, id) {
                let k = choose|k: nat| #[trigger] best_term(&g, x.best@, a, terms, v, id, k);
                lemma_best_term_moved(a, b, &g, &h, at, s, t, terms, v, id, k);
            }
            if is_best_term(&h, y.best@, b, terms, w, id) {
                let k = choose|k: nat| #[trigger] best_term(&h, y.best@, b, terms, w, id, k);
                lemma_best_term_moved(a, b, &g, &h, at, s, t, terms, v, id, k);
            }
        }
    }
}

} // verus!
