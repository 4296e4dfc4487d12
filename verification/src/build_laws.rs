//! What holds of every class graph that is taken of an e-graph.
use egglog::EGraph;
use vstd::prelude::*;

use crate::alike::{
    alike, lemma_first_touch_renamed, lemma_renamed_graphs_alike, lemma_same_rows_same_graph,
    lemma_touched_renamed, one_to_one, row_renamed, rows_renamed, same_graph,
};
use crate::class_graph::{ClassGraph, Enode};
use crate::cost::Cost;
use crate::cut_iter::lemma_built;
use crate::egraph::{canonical_of, functions_of, sorts_of, strings_of, RowView, SortView};
use crate::names::{
    before, different_names_are_ordered, lemma_order_onto, lemma_order_strict, name_less, orders,
    sorted_order_is_unique,
};
use crate::snapshot::{
    builds, canonical_all, class_mask, eq_children, first_touch, head_names, in_order, live_rows,
    node_row, numbering_ignores_the_order_given, prim_children, scanned, snapshot, stands_for,
    tables, touched, BuildError, BuildFault, FuncView, NodeRowView, Scan,
};

verus! {

/// Both attempts failed for the same reason, or both gave the same graph.
pub open spec fn same_build(
    sort: Seq<char>,
    x: Result<ClassGraph, BuildError>,
    y: Result<ClassGraph, BuildError>,
) -> bool {
    match (x, y) {
        (Ok(g), Ok(h)) => same_graph(&g, &h),
        (Err(e), Err(d)) => exists|f: BuildFault| #[trigger] e.reports(f, sort) && d.reports(
            f,
            sort,
        ),
        _ => false,
    }
}

/// `b` is `a` in another order: `place` tells where each entry of `b` stands in `a`.
pub open spec fn reordered(
    a: Seq<(String, Cost)>,
    b: Seq<(String, Cost)>,
    place: Seq<int>,
) -> bool {
    &&& b.len() == a.len()
    &&& place.len() == a.len()
    &&& place.no_duplicates()
    &&& forall|i: int| 0 <= i < b.len() ==> 0 <= #[trigger] place[i] < a.len()
    &&& forall|i: int|
        0 <= i < b.len() ==> (#[trigger] b[i]).0@ == a[place[i]].0@ && b[i].1 == a[place[i]].1
}

proof fn lemma_same_snapshot_same_build(
    eg: EGraph,
    sort: Seq<char>,
    taken: Result<Scan, BuildFault>,
    x: Result<ClassGraph, BuildError>,
    y: Result<ClassGraph, BuildError>,
)
    requires
        match taken {
            Ok(s) => x matches Ok(g) && g.shows_scan(eg, s) && g.wf() && g.condensed(),
            Err(f) => x matches Err(e) && e.reports(f, sort),
        },
        match taken {
            Ok(s) => y matches Ok(g) && g.shows_scan(eg, s) && g.wf() && g.condensed(),
            Err(f) => y matches Err(e) && e.reports(f, sort),
        },
    ensures
        same_build(sort, x, y),
{
    match taken {
        Ok(s) => {
            lemma_same_rows_same_graph(s.funcs, s.rows, &x->Ok_0, &y->Ok_0);
        },
        Err(f) => {
            assert(x->Err_0.reports(f, sort));
        },
    }
}

/// The same entries in the same order.
pub open spec fn same_entries(a: Seq<(String, Cost)>, b: Seq<(String, Cost)>) -> bool {
    &&& a.len() == b.len()
    &&& forall|i: int| 0 <= i < a.len() ==> (#[trigger] a[i]).0@ == b[i].0@ && a[i].1 == b[i].1
}

/// Taking the class graph of one e-graph twice gives the same graph.
pub proof fn building_twice_gives_the_same_graph(
    eg: EGraph,
    sort: Seq<char>,
    a: Seq<(String, Cost)>,
    b: Seq<(String, Cost)>,
    x: Result<ClassGraph, BuildError>,
    y: Result<ClassGraph, BuildError>,
)
    requires
        a.len() <= usize::MAX,
        same_entries(a, b),
        builds(eg, sort, a, x),
        builds(eg, sort, b, y),
    ensures
        same_build(sort, x, y),
{
    assert(head_names(a) =~= head_names(b));
    let o = choose|order: Seq<usize>| #[trigger]
        orders(head_names(a), order) && match snapshot(eg, sort, a, order) {
            Ok(s) => x matches Ok(g) && g.shows_scan(eg, s) && g.wf() && g.condensed(),
            Err(f) => x matches Err(e) && e.reports(f, sort),
        };
    let q = choose|order: Seq<usize>| #[trigger]
        orders(head_names(b), order) && match snapshot(eg, sort, b, order) {
            Ok(s) => y matches Ok(g) && g.shows_scan(eg, s) && g.wf() && g.condensed(),
            Err(f) => y matches Err(e) && e.reports(f, sort),
        };
    sorted_order_is_unique(head_names(a), o, q);
    assert forall|i: int| 0 <= i < o.len() implies in_order(a, o)[i] == in_order(b, o)[i] by {
        assert(o[i] < head_names(a).len());
        assert(a[o[i] as int].0@ == b[o[i] as int].0@);
    }
    assert(in_order(a, o) =~= in_order(b, o));
    lemma_same_snapshot_same_build(eg, sort, snapshot(eg, sort, a, o), x, y);
}

/// The class graph does not depend on the order in which the vocabulary is given.
pub proof fn graphs_ignore_the_order_given(
    eg: EGraph,
    sort: Seq<char>,
    a: Seq<(String, Cost)>,
    b: Seq<(String, Cost)>,
    place: Seq<int>,
    x: Result<ClassGraph, BuildError>,
    y: Result<ClassGraph, BuildError>,
)
    requires
        a.len() <= usize::MAX,
        reordered(a, b, place),
        head_names(a).no_duplicates(),
        builds(eg, sort, a, x),
        builds(eg, sort, b, y),
    ensures
        same_build(sort, x, y),
{
    let o = choose|order: Seq<usize>| #[trigger]
        orders(head_names(a), order) && match snapshot(eg, sort, a, order) {
            Ok(s) => x matches Ok(g) && g.shows_scan(eg, s) && g.wf() && g.condensed(),
            Err(f) => x matches Err(e) && e.reports(f, sort),
        };
    let q = choose|order: Seq<usize>| #[trigger]
        orders(head_names(b), order) && match snapshot(eg, sort, b, order) {
            Ok(s) => y matches Ok(g) && g.shows_scan(eg, s) && g.wf() && g.condensed(),
            Err(f) => y matches Err(e) && e.reports(f, sort),
        };
    numbering_ignores_the_order_given(eg, sort, a, b, place, o, q);
    lemma_same_snapshot_same_build(eg, sort, snapshot(eg, sort, a, o), x, y);
}

// ----------------------------------------------------------------- constructors

/// The e-graph has a function of that name that is no `let` binding.
pub open spec fn known(eg: EGraph, name: Seq<char>) -> bool {
    functions_of(eg).dom().contains(name) && !functions_of(eg)[name].let_binding
}

/// `name` is the name of one of the first `n` entries.
pub open spec fn listed(heads: Seq<(Seq<char>, Cost)>, n: int, name: Seq<char>) -> bool {
    exists|p: int| 0 <= p < n && (#[trigger] heads[p]).0 == name
}

/// Constructor `i` of the graph has that name.
pub open spec fn named(s: Scan, name: Seq<char>) -> bool {
    exists|i: int| 0 <= i < s.funcs.len() && (#[trigger] s.funcs[i]).name == name
}

proof fn lemma_scanned_constructors(
    eg: EGraph,
    sort: Seq<char>,
    root: SortView,
    heads: Seq<(Seq<char>, Cost)>,
    n: nat,
)
    requires
        n <= heads.len(),
        scanned(eg, sort, root, heads, n) is Ok,
        forall|p: int, q: int|
            0 <= p < q < heads.len() ==> name_less(
                (#[trigger] heads[p]).0,
                (#[trigger] heads[q]).0,
            ),
    ensures
        ({
            let s = scanned(eg, sort, root, heads, n)->Ok_0;
            &&& forall|name: Seq<char>| #[trigger]
                named(s, name) <==> known(eg, name) && listed(heads, n as int, name)
            &&& forall|i: int, j: int|
                0 <= i < j < s.funcs.len() ==> name_less(
                    (#[trigger] s.funcs[i]).name,
                    (#[trigger] s.funcs[j]).name,
                )
        }),
    decreases n,
{
    let s = scanned(eg, sort, root, heads, n)->Ok_0;
    if n > 0 {
        lemma_scanned_constructors(eg, sort, root, heads, (n - 1) as nat);
        let t = scanned(eg, sort, root, heads, (n - 1) as nat)->Ok_0;
        let last = heads[n - 1].0;
        assert forall|name: Seq<char>| #[trigger] named(s, name) <==> known(eg, name) && listed(
            heads,
            n as int,
            name,
        ) by {
            assert(named(t, name) <==> known(eg, name) && listed(heads, n - 1, name));
            if listed(heads, n as int, name) && name != last {
                let p = choose|p: int| 0 <= p < n && (#[trigger] heads[p]).0 == name;
                assert(heads[p].0 == name && p < n - 1);
            }
            if listed(heads, n - 1, name) {
                let p = choose|p: int| 0 <= p < n - 1 && (#[trigger] heads[p]).0 == name;
                assert(heads[p].0 == name && p < n);
            }
            if name == last {
                assert(heads[n - 1].0 == name);
            }
            if known(eg, last) {
                assert(s.funcs.len() == t.funcs.len() + 1);
                if named(t, name) {
                    let i = choose|i: int|
                        0 <= i < t.funcs.len() && (#[trigger] t.funcs[i]).name == name;
                    assert(s.funcs[i] == t.funcs[i]);
                }
                if name == last {
                    assert(s.funcs[t.funcs.len() as int].name == name);
                }
                if named(s, name) {
                    let i = choose|i: int|
                        0 <= i < s.funcs.len() && (#[trigger] s.funcs[i]).name == name;
                    if i < t.funcs.len() {
                        assert(t.funcs[i].name == name);
                    }
                }
            } else {
                assert(s == t);
            }
        }
        assert forall|i: int, j: int| 0 <= i < j < s.funcs.len() implies name_less(
            (#[trigger] s.funcs[i]).name,
            (#[trigger] s.funcs[j]).name,
        ) by {
            if known(eg, last) {
                assert(s.funcs[i] == t.funcs[i]);
                if j < t.funcs.len() {
                    assert(s.funcs[j] == t.funcs[j]);
                } else {
                    assert(named(t, t.funcs[i].name));
                    let p = choose|p: int|
                        0 <= p < n - 1 && (#[trigger] heads[p]).0 == t.funcs[i].name;
                    assert(name_less(heads[p].0, heads[n - 1].0));
                }
            } else {
                assert(s == t);
            }
        }
    } else {
        assert forall|name: Seq<char>| #[trigger] named(s, name) <==> known(eg, name) && listed(
            heads,
            0,
            name,
        ) by {}
    }
}

/// The constructors of a class graph are the functions of its vocabulary that the e-graph
/// has and that are no `let` bindings, in the order of their names.
pub proof fn constructors_come_by_name(
    eg: EGraph,
    sort: Seq<char>,
    heads: Seq<(String, Cost)>,
    g: ClassGraph,
)
    requires
        heads.len() <= usize::MAX,
        head_names(heads).no_duplicates(),
        builds(eg, sort, heads, Ok::<ClassGraph, BuildError>(g)),
    ensures
        forall|i: int, j: int|
            0 <= i < j < g.funcs@.len() ==> name_less(
                (#[trigger] g.funcs@[i]).term_name@,
                (#[trigger] g.funcs@[j]).term_name@,
            ),
        forall|i: int|
            0 <= i < g.funcs@.len() ==> known(eg, (#[trigger] g.funcs@[i]).term_name@)
                && head_names(heads).contains(g.funcs@[i].term_name@),
        forall|name: Seq<char>| #[trigger]
            known(eg, name) && head_names(heads).contains(name) ==> exists|i: int|
                0 <= i < g.funcs@.len() && (#[trigger] g.funcs@[i]).term_name@ == name,
{
    let names = head_names(heads);
    let order = choose|order: Seq<usize>| #[trigger]
        orders(names, order) && match snapshot(eg, sort, heads, order) {
            Ok(s) => g.shows_scan(eg, s) && g.wf() && g.condensed(),
            Err(f) => false,
        };
    let s = snapshot(eg, sort, heads, order)->Ok_0;
    let hs = in_order(heads, order);
    lemma_order_strict(names, order);
    assert forall|p: int, q: int| 0 <= p < q < hs.len() implies name_less(
        (#[trigger] hs[p]).0,
        (#[trigger] hs[q]).0,
    ) by {
        assert(before(names, order[p], order[q]));
        assert(order[p] < names.len() && order[q] < names.len());
        assert(names[order[p] as int] == hs[p].0);
        assert(names[order[q] as int] == hs[q].0);
        assert(order[p] != order[q]);
        different_names_are_ordered(hs[p].0, hs[q].0);
    }
    lemma_scanned_constructors(eg, sort, sorts_of(eg)[sort], hs, hs.len());
    assert forall|i: int, j: int| 0 <= i < j < g.funcs@.len() implies name_less(
        (#[trigger] g.funcs@[i]).term_name@,
        (#[trigger] g.funcs@[j]).term_name@,
    ) by {
        assert(name_less(s.funcs[i].name, s.funcs[j].name));
    }
    assert forall|i: int| 0 <= i < g.funcs@.len() implies known(
        eg,
        (#[trigger] g.funcs@[i]).term_name@,
    ) && names.contains(g.funcs@[i].term_name@) by {
        let name = s.funcs[i].name;
        assert(named(s, name));
        let p = choose|p: int| 0 <= p < hs.len() && (#[trigger] hs[p]).0 == name;
        assert(order[p] < names.len());
        assert(names[order[p] as int] == name);
    }
    assert forall|name: Seq<char>| #[trigger] known(eg, name) && names.contains(name) implies exists|
        i: int,
    | 0 <= i < g.funcs@.len() && (#[trigger] g.funcs@[i]).term_name@ == name by {
        let k = choose|k: int| 0 <= k < names.len() && names[k] == name;
        lemma_order_onto(names, order, k as usize);
        let p = choose|p: int| 0 <= p < order.len() && order[p] == k as usize;
        assert(hs[p].0 == name);
        assert(named(s, name));
        let i = choose|i: int| 0 <= i < s.funcs.len() && (#[trigger] s.funcs[i]).name == name;
        assert(g.funcs@[i].term_name@ == name);
    }
}

/// The live rows of the named function, as constructor `func` of a graph.
pub open spec fn live_of(
    eg: EGraph,
    sort: Seq<char>,
    func: int,
    name: Seq<char>,
    head: Cost,
) -> Seq<NodeRowView> {
    let f = functions_of(eg)[name];
    let rows = tables(eg, f)[name];
    live_rows(eg, sort, func, class_mask(f.inputs), rows, head, rows.len())
}

/// The rows from `from` on up to `to` are the live rows of the named function, with its cost.
pub open spec fn is_block(
    eg: EGraph,
    sort: Seq<char>,
    heads: Seq<(Seq<char>, Cost)>,
    rows: Seq<NodeRowView>,
    func: int,
    name: Seq<char>,
    from: nat,
    to: nat,
) -> bool {
    &&& from <= to <= rows.len()
    &&& exists|head: Cost| #[trigger] heads.contains((name, head)) && rows.subrange(
            from as int,
            to as int,
        ) == live_of(eg, sort, func, name, head)
}

/// The rows are those of the constructors, one after the other; `starts` tells where those of
/// each constructor start.
pub open spec fn in_blocks(
    eg: EGraph,
    sort: Seq<char>,
    heads: Seq<(Seq<char>, Cost)>,
    names: Seq<Seq<char>>,
    rows: Seq<NodeRowView>,
    starts: Seq<nat>,
) -> bool {
    &&& starts.len() == names.len() + 1
    &&& starts[0] == 0
    &&& starts[names.len() as int] == rows.len()
    &&& forall|i: int|
        0 <= i < names.len() ==> is_block(
            eg,
            sort,
            heads,
            rows,
            i,
            #[trigger] names[i],
            starts[i],
            starts[i + 1],
        )
}

/// The names of some constructors.
pub open spec fn func_names(funcs: Seq<FuncView>) -> Seq<Seq<char>> {
    Seq::new(funcs.len(), |i: int| funcs[i].name)
}

proof fn lemma_scanned_blocks(
    eg: EGraph,
    sort: Seq<char>,
    root: SortView,
    heads: Seq<(Seq<char>, Cost)>,
    n: nat,
) -> (starts: Seq<nat>)
    requires
        n <= heads.len(),
        scanned(eg, sort, root, heads, n) is Ok,
    ensures
        ({
            let s = scanned(eg, sort, root, heads, n)->Ok_0;
            in_blocks(eg, sort, heads, func_names(s.funcs), s.rows, starts)
        }),
    decreases n,
{
    if n == 0 {
        seq![0nat]
    } else {
        let old_starts = lemma_scanned_blocks(eg, sort, root, heads, (n - 1) as nat);
        let t = scanned(eg, sort, root, heads, (n - 1) as nat)->Ok_0;
        let s = scanned(eg, sort, root, heads, n)->Ok_0;
        let (name, head) = heads[n - 1];
        if !known(eg, name) {
            assert(s == t);
            old_starts
        } else {
            let starts = old_starts.push(s.rows.len());
            let (x, y) = (func_names(t.funcs), func_names(s.funcs));
            let live = live_of(eg, sort, t.funcs.len() as int, name, head);
            assert(s.rows == t.rows + live);
            assert(y =~= x.push(name));
            assert forall|i: int| 0 <= i < y.len() implies is_block(
                eg,
                sort,
                heads,
                s.rows,
                i,
                #[trigger] y[i],
                starts[i],
                starts[i + 1],
            ) by {
                if i < x.len() {
                    assert(is_block(
                        eg,
                        sort,
                        heads,
                        t.rows,
                        i,
                        x[i],
                        old_starts[i],
                        old_starts[i + 1],
                    ));
                    assert(s.rows.subrange(starts[i] as int, starts[i + 1] as int)
                        =~= t.rows.subrange(old_starts[i] as int, old_starts[i + 1] as int));
                } else {
                    assert(heads[n - 1] == (name, head));
                    assert(heads.contains((name, head)));
                    assert(s.rows.subrange(starts[i] as int, starts[i + 1] as int) =~= live);
                }
            }
            starts
        }
    }
}

/// The vocabulary, by the characters of its names.
pub open spec fn entries(heads: Seq<(String, Cost)>) -> Seq<(Seq<char>, Cost)> {
    Seq::new(heads.len(), |i: int| (heads[i].0@, heads[i].1))
}

/// The names of a graph's constructors.
pub open spec fn graph_names(g: &ClassGraph) -> Seq<Seq<char>> {
    Seq::new(g.funcs@.len(), |i: int| g.funcs@[i].term_name@)
}

/// A class graph has one e-node for each live row of its constructors, those of the first
/// constructor first, each with the head cost that the vocabulary gives to its name.
pub proof fn enodes_come_row_by_row(
    eg: EGraph,
    sort: Seq<char>,
    heads: Seq<(String, Cost)>,
    g: ClassGraph,
)
    requires
        builds(eg, sort, heads, Ok::<ClassGraph, BuildError>(g)),
    ensures
        exists|rows: Seq<NodeRowView>, starts: Seq<nat>| #[trigger]
            g.shows(rows) && #[trigger] in_blocks(
                eg,
                sort,
                entries(heads),
                graph_names(&g),
                rows,
                starts,
            ),
        forall|e: int|
            0 <= e < g.enodes@.len() ==> {
                let x = #[trigger] g.enodes@[e];
                &&& x.func < g.funcs@.len()
                &&& x.ch_eq@.len() + x.ch_prim@.len() == g.funcs@[x.func as int].arity
            },
{
    lemma_built(eg, sort, heads, g);
    let order = choose|order: Seq<usize>| #[trigger]
        orders(head_names(heads), order) && match snapshot(eg, sort, heads, order) {
            Ok(s) => g.shows_scan(eg, s) && g.wf() && g.condensed(),
            Err(f) => false,
        };
    let s = snapshot(eg, sort, heads, order)->Ok_0;
    let hs = in_order(heads, order);
    let starts = lemma_scanned_blocks(eg, sort, sorts_of(eg)[sort], hs, hs.len());
    let names = graph_names(&g);
    assert(names =~= func_names(s.funcs));
    assert forall|i: int| 0 <= i < names.len() implies is_block(
        eg,
        sort,
        entries(heads),
        s.rows,
        i,
        #[trigger] names[i],
        starts[i],
        starts[i + 1],
    ) by {
        assert(is_block(eg, sort, hs, s.rows, i, names[i], starts[i], starts[i + 1]));
        let head = choose|head: Cost| #[trigger] hs.contains((names[i], head)) && s.rows.subrange(
            starts[i] as int,
            starts[i + 1] as int,
        ) == live_of(eg, sort, i, names[i], head);
        let p = choose|p: int| 0 <= p < hs.len() && hs[p] == (names[i], head);
        assert(order[p] < head_names(heads).len());
        assert(entries(heads)[order[p] as int] == (names[i], head));
        assert(entries(heads).contains((names[i], head)));
    }
    assert(g.shows(s.rows) && in_blocks(eg, sort, entries(heads), names, s.rows, starts));
}

// ------------------------------------------------------------------ renumbering

/// Row `y` of e-graph `b` is row `x` of e-graph `a` over the same strings, with the classes
/// renamed by `f`.
pub open spec fn row_matches(
    a: EGraph,
    b: EGraph,
    sort: Seq<char>,
    f: spec_fn(u32) -> u32,
    mask: Seq<bool>,
    x: RowView,
    y: RowView,
) -> bool {
    &&& y.subsumed == x.subsumed
    &&& y.inputs.len() == x.inputs.len()
    &&& canonical_of(b)[(sort, y.output)] == f(canonical_of(a)[(sort, x.output)])
    &&& forall|p: int|
        0 <= p < mask.len() && p < x.inputs.len() ==> if #[trigger] mask[p] {
            canonical_of(b)[(sort, y.inputs[p])] == f(canonical_of(a)[(sort, x.inputs[p])])
        } else {
            strings_of(b)[y.inputs[p]] == strings_of(a)[x.inputs[p]]
        }
}

/// The rows match one by one.
pub open spec fn rows_match(
    a: EGraph,
    b: EGraph,
    sort: Seq<char>,
    f: spec_fn(u32) -> u32,
    mask: Seq<bool>,
    x: Seq<RowView>,
    y: Seq<RowView>,
) -> bool {
    &&& x.len() == y.len()
    &&& forall|r: int|
        0 <= r < x.len() ==> row_matches(a, b, sort, f, mask, #[trigger] x[r], y[r])
}

/// One function and its tables agree row by row, up to `f` and the numbers of the strings.
pub open spec fn table_matches(
    a: EGraph,
    b: EGraph,
    sort: Seq<char>,
    f: spec_fn(u32) -> u32,
    name: Seq<char>,
) -> bool {
    let fun = functions_of(a)[name];
    &&& functions_of(a).dom().contains(name) == functions_of(b).dom().contains(name)
    &&& functions_of(a).dom().contains(name) ==> {
        &&& functions_of(b)[name] == fun
        &&& tables(a, fun).dom().contains(name) == tables(b, fun).dom().contains(name)
        &&& tables(a, fun).dom().contains(name) ==> rows_match(
            a,
            b,
            sort,
            f,
            class_mask(fun.inputs),
            tables(a, fun)[name],
            tables(b, fun)[name],
        )
    }
}

/// The e-graphs hold the same of the sort and of the named functions, row by row, but for the
/// numbers of the classes, which `f` renames, and those of the strings.
pub open spec fn renumbered(
    a: EGraph,
    b: EGraph,
    sort: Seq<char>,
    f: spec_fn(u32) -> u32,
    names: Seq<Seq<char>>,
) -> bool {
    &&& one_to_one(f)
    &&& sorts_of(a).dom().contains(sort) == sorts_of(b).dom().contains(sort)
    &&& sorts_of(a).dom().contains(sort) ==> sorts_of(a)[sort] == sorts_of(b)[sort]
    &&& forall|i: int|
        0 <= i < names.len() ==> table_matches(a, b, sort, f, #[trigger] names[i])
}

/// The primitive children of the rows stand for the same strings.
pub open spec fn same_strings(
    a: EGraph,
    b: EGraph,
    x: Seq<NodeRowView>,
    y: Seq<NodeRowView>,
) -> bool {
    forall|r: int, j: int|
        0 <= r < x.len() && 0 <= j < x[r].prims.len() ==> strings_of(
            a,
        )[(#[trigger] x[r].prims[j]).1] == strings_of(b)[y[r].prims[j].1]
}

/// The children of matching rows.
pub(crate) proof fn lemma_children_renumbered(
    a: EGraph,
    b: EGraph,
    sort: Seq<char>,
    f: spec_fn(u32) -> u32,
    mask: Seq<bool>,
    x: RowView,
    y: RowView,
    n: nat,
)
    requires
        row_matches(a, b, sort, f, mask, x, y),
        x.inputs.len() == mask.len(),
        n <= mask.len(),
    ensures
        canonical_all(b, sort, eq_children(mask, y.inputs, n)) == canonical_all(
            a,
            sort,
            eq_children(mask, x.inputs, n),
        ).map_values(f),
        prim_children(mask, x.inputs, n).len() == prim_children(mask, y.inputs, n).len(),
        forall|j: int|
            0 <= j < prim_children(mask, x.inputs, n).len() ==> (#[trigger] prim_children(
                mask,
                x.inputs,
                n,
            )[j]).0 == prim_children(mask, y.inputs, n)[j].0 && strings_of(a)[prim_children(
                mask,
                x.inputs,
                n,
            )[j].1] == strings_of(b)[prim_children(mask, y.inputs, n)[j].1],
    decreases n,
{
    if n > 0 {
        lemma_children_renumbered(a, b, sort, f, mask, x, y, (n - 1) as nat);
        assert(mask[n - 1] || !mask[n - 1]);
        let s = prim_children(mask, x.inputs, n);
        let r = prim_children(mask, x.inputs, (n - 1) as nat);
        assert forall|j: int| 0 <= j < s.len() implies (#[trigger] s[j]).0 == prim_children(
            mask,
            y.inputs,
            n,
        )[j].0 && strings_of(a)[s[j].1] == strings_of(b)[prim_children(mask, y.inputs, n)[j].1] by {
            if j < r.len() {
                assert(s[j] == r[j]);
            }
        }
    }
    let (cx, cy) = (eq_children(mask, x.inputs, n), eq_children(mask, y.inputs, n));
    let u = canonical_all(b, sort, cy);
    let w = canonical_all(a, sort, cx).map_values(f);
    if n > 0 {
        let (dx, dy) = (
            eq_children(mask, x.inputs, (n - 1) as nat),
            eq_children(mask, y.inputs, (n - 1) as nat),
        );
        let v = canonical_all(b, sort, dy);
        assert(v.len() == dx.len());
        assert(dy.len() == dx.len());
        assert forall|i: int| 0 <= i < u.len() implies u[i] == w[i] by {
            if i < dx.len() {
                assert(cx[i] == dx[i]);
                assert(cy[i] == dy[i]);
                assert(v[i] == canonical_all(a, sort, dx).map_values(f)[i]);
            }
        }
    }
    assert(u =~= w);
}

proof fn lemma_live_rows_renumbered(
    a: EGraph,
    b: EGraph,
    sort: Seq<char>,
    f: spec_fn(u32) -> u32,
    func: int,
    mask: Seq<bool>,
    x: Seq<RowView>,
    y: Seq<RowView>,
    head: Cost,
    n: nat,
)
    requires
        n <= x.len(),
        rows_match(a, b, sort, f, mask, x, y),
    ensures
        rows_renamed(
            f,
            live_rows(a, sort, func, mask, x, head, n),
            live_rows(b, sort, func, mask, y, head, n),
        ),
        same_strings(
            a,
            b,
            live_rows(a, sort, func, mask, x, head, n),
            live_rows(b, sort, func, mask, y, head, n),
        ),
    decreases n,
{
    if n > 0 {
        lemma_live_rows_renumbered(a, b, sort, f, func, mask, x, y, head, (n - 1) as nat);
        let s = live_rows(a, sort, func, mask, x, head, (n - 1) as nat);
        let t = live_rows(b, sort, func, mask, y, head, (n - 1) as nat);
        let (p, q) = (x[n - 1], y[n - 1]);
        assert(row_matches(a, b, sort, f, mask, p, q));
        if !p.subsumed && p.inputs.len() == mask.len() {
            lemma_children_renumbered(a, b, sort, f, mask, p, q, mask.len());
            let u = node_row(a, sort, func, mask, p, head);
            let w = node_row(b, sort, func, mask, q, head);
            assert(row_renamed(f, u, w));
            lemma_rows_join(a, b, f, s, t, seq![u], seq![w]);
            assert(s.push(u) =~= s + seq![u]);
            assert(t.push(w) =~= t + seq![w]);
        }
    }
}

proof fn lemma_rows_join(
    a: EGraph,
    b: EGraph,
    f: spec_fn(u32) -> u32,
    s: Seq<NodeRowView>,
    t: Seq<NodeRowView>,
    u: Seq<NodeRowView>,
    w: Seq<NodeRowView>,
)
    requires
        rows_renamed(f, s, t),
        rows_renamed(f, u, w),
        same_strings(a, b, s, t),
        same_strings(a, b, u, w),
    ensures
        rows_renamed(f, s + u, t + w),
        same_strings(a, b, s + u, t + w),
{
    let (x, y) = (s + u, t + w);
    assert forall|r: int| 0 <= r < x.len() implies row_renamed(f, #[trigger] x[r], y[r]) by {
        if r < s.len() {
            assert(row_renamed(f, s[r], t[r]));
        } else {
            assert(row_renamed(f, u[r - s.len()], w[r - s.len()]));
        }
    }
    assert forall|r: int, j: int| 0 <= r < x.len() && 0 <= j < x[r].prims.len() implies strings_of(
        a,
    )[(#[trigger] x[r].prims[j]).1] == strings_of(b)[y[r].prims[j].1] by {
        if r < s.len() {
            assert(strings_of(a)[s[r].prims[j].1] == strings_of(b)[t[r].prims[j].1]);
        } else {
            let k = r - s.len();
            assert(strings_of(a)[u[k].prims[j].1] == strings_of(b)[w[k].prims[j].1]);
        }
    }
}

/// What is found of the vocabulary in renumbered e-graphs.
pub open spec fn scans_match(
    a: EGraph,
    b: EGraph,
    f: spec_fn(u32) -> u32,
    x: Result<Scan, BuildFault>,
    y: Result<Scan, BuildFault>,
) -> bool {
    match (x, y) {
        (Ok(s), Ok(t)) => s.funcs == t.funcs && rows_renamed(f, s.rows, t.rows) && same_strings(
            a,
            b,
            s.rows,
            t.rows,
        ),
        (Err(d), Err(e)) => d == e,
        _ => false,
    }
}

proof fn lemma_scanned_renumbered(
    a: EGraph,
    b: EGraph,
    sort: Seq<char>,
    f: spec_fn(u32) -> u32,
    root: SortView,
    heads: Seq<(Seq<char>, Cost)>,
    n: nat,
)
    requires
        n <= heads.len(),
        forall|i: int|
            0 <= i < heads.len() ==> table_matches(a, b, sort, f, (#[trigger] heads[i]).0),
    ensures
        scans_match(
            a,
            b,
            f,
            scanned(a, sort, root, heads, n),
            scanned(b, sort, root, heads, n),
        ),
    decreases n,
{
    if n > 0 {
        lemma_scanned_renumbered(a, b, sort, f, root, heads, (n - 1) as nat);
        let (name, head) = heads[n - 1];
        assert(table_matches(a, b, sort, f, heads[n - 1].0));
        let fun = functions_of(a)[name];
        if let Ok(s) = scanned(a, sort, root, heads, (n - 1) as nat) {
            let t = scanned(b, sort, root, heads, (n - 1) as nat)->Ok_0;
            let mask = class_mask(fun.inputs);
            let (x, y) = (tables(a, fun)[name], tables(b, fun)[name]);
            let func = s.funcs.len() as int;
            if known(a, name) && tables(a, fun).dom().contains(name) {
                lemma_live_rows_renumbered(a, b, sort, f, func, mask, x, y, head, x.len());
                lemma_rows_join(
                    a,
                    b,
                    f,
                    s.rows,
                    t.rows,
                    live_rows(a, sort, func, mask, x, head, x.len()),
                    live_rows(b, sort, func, mask, y, head, y.len()),
                );
            }
        }
    }
}

/// The primitive children of the e-nodes stand for the same strings.
pub open spec fn same_texts(a: EGraph, b: EGraph, x: Seq<Enode>, y: Seq<Enode>) -> bool {
    forall|e: int, j: int|
        0 <= e < x.len() && 0 <= j < x[e].ch_prim@.len() ==> strings_of(
            a,
        )[(#[trigger] x[e].ch_prim@[j]).1] == strings_of(b)[y[e].ch_prim@[j].1]
}

/// Both attempts failed for the same reason, or both gave graphs that agree in everything but
/// the numbers behind classes and strings; `f` renames the classes.
pub open spec fn builds_match(
    a: EGraph,
    b: EGraph,
    sort: Seq<char>,
    f: spec_fn(u32) -> u32,
    x: Result<ClassGraph, BuildError>,
    y: Result<ClassGraph, BuildError>,
) -> bool {
    match (x, y) {
        (Ok(g), Ok(h)) => {
            &&& alike(&g, &h)
            &&& h.classes@ == g.classes@.map_values(f)
            &&& same_texts(a, b, g.enodes@, h.enodes@)
        },
        (Err(d), Err(e)) => exists|t: BuildFault| #[trigger] d.reports(t, sort) && e.reports(
            t,
            sort,
        ),
        _ => false,
    }
}

/// E-graphs that differ only in how classes and strings are numbered have class graphs that
/// differ only in those numbers: the classes are found in the same order.
pub proof fn graphs_ignore_the_numbers(
    a: EGraph,
    b: EGraph,
    sort: Seq<char>,
    f: spec_fn(u32) -> u32,
    heads: Seq<(String, Cost)>,
    x: Result<ClassGraph, BuildError>,
    y: Result<ClassGraph, BuildError>,
)
    requires
        heads.len() <= usize::MAX,
        renumbered(a, b, sort, f, head_names(heads)),
        builds(a, sort, heads, x),
        builds(b, sort, heads, y),
    ensures
        builds_match(a, b, sort, f, x, y),
{
    let names = head_names(heads);
    let o = choose|order: Seq<usize>| #[trigger]
        orders(names, order) && match snapshot(a, sort, heads, order) {
            Ok(s) => x matches Ok(g) && g.shows_scan(a, s) && g.wf() && g.condensed(),
            Err(d) => x matches Err(e) && e.reports(d, sort),
        };
    let q = choose|order: Seq<usize>| #[trigger]
        orders(names, order) && match snapshot(b, sort, heads, order) {
            Ok(s) => y matches Ok(g) && g.shows_scan(b, s) && g.wf() && g.condensed(),
            Err(d) => y matches Err(e) && e.reports(d, sort),
        };
    sorted_order_is_unique(names, o, q);
    let hs = in_order(heads, o);
    assert forall|i: int| 0 <= i < hs.len() implies table_matches(
        a,
        b,
        sort,
        f,
        (#[trigger] hs[i]).0,
    ) by {
        assert(o[i] < names.len());
        assert(table_matches(a, b, sort, f, names[o[i] as int]));
    }
    let root = sorts_of(a)[sort];
    lemma_scanned_renumbered(a, b, sort, f, root, hs, hs.len());
    let (m, w) = (scanned(a, sort, root, hs, hs.len()), scanned(b, sort, root, hs, hs.len()));
    if let (Ok(s), Ok(t)) = (m, w) {
        lemma_touched_renamed(f, s.rows, t.rows, s.rows.len());
        lemma_first_touch_renamed(f, touched(s.rows, s.rows.len()));
        assert(first_touch(touched(t.rows, t.rows.len())).len() == first_touch(
            touched(s.rows, s.rows.len()),
        ).len());
    }
    match snapshot(a, sort, heads, o) {
        Ok(s) => {
            let t = snapshot(b, sort, heads, q)->Ok_0;
            let (g, h) = (x->Ok_0, y->Ok_0);
            lemma_renamed_graphs_alike(f, s.funcs, s.rows, t.rows, &g, &h);
            assert forall|e: int, j: int|
                0 <= e < g.enodes@.len() && 0 <= j < g.enodes@[e].ch_prim@.len() implies strings_of(
                a,
            )[(#[trigger] g.enodes@[e].ch_prim@[j]).1] == strings_of(
                b,
            )[h.enodes@[e].ch_prim@[j].1] by {
                assert(stands_for(g.enodes@[e], g.classes@, s.rows[e]));
                assert(stands_for(h.enodes@[e], h.classes@, t.rows[e]));
                assert(strings_of(a)[s.rows[e].prims[j].1] == strings_of(b)[t.rows[e].prims[j].1]);
            }
        },
        Err(d) => {
            assert(x->Err_0.reports(d, sort));
        },
    }
}

} // verus!
