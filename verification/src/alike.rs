//! Class graphs that differ only in the values behind their classes and primitive children.
use vstd::prelude::*;

use crate::class_graph::{children_of, ClassGraph, Enode, FuncTab};
use crate::reach::{digraph, edge, mutual, reaches, walk};
use crate::scc::{components_are_determined, condenses, members, placed};
use crate::snapshot::{
    first_touch, funcs_show, indexes, lists_enodes, stands_for, touched, FuncView, NodeRowView,
};
use crate::walk::{ended, listed_by, stepped, walk_order, walked};

verus! {

/// The same constructor.
pub open spec fn func_alike(x: FuncTab, y: FuncTab) -> bool {
    &&& x.term_name@ == y.term_name@
    &&& x.eq_mask@ == y.eq_mask@
    &&& x.arity == y.arity
}

/// The same e-node but for the values of primitive children.
pub open spec fn enode_alike(x: Enode, y: Enode) -> bool {
    &&& x.func == y.func
    &&& x.out == y.out
    &&& x.ch_eq@ == y.ch_eq@
    &&& x.head == y.head
    &&& x.ch_prim@.len() == y.ch_prim@.len()
    &&& forall|j: int| 0 <= j < x.ch_prim@.len() ==> (#[trigger] x.ch_prim@[j]).0 == y.ch_prim@[j].0
}

/// The same lists.
pub open spec fn lists_alike<A>(x: Seq<Vec<A>>, y: Seq<Vec<A>>) -> bool {
    &&& x.len() == y.len()
    &&& forall|i: int| 0 <= i < x.len() ==> (#[trigger] x[i])@ == y[i]@
}

/// The graphs agree in everything but the values behind classes and primitive children.
pub open spec fn alike(g: &ClassGraph, h: &ClassGraph) -> bool {
    &&& g.size() == h.size()
    &&& g.funcs@.len() == h.funcs@.len()
    &&& forall|f: int|
        0 <= f < g.funcs@.len() ==> func_alike(#[trigger] g.funcs@[f], h.funcs@[f])
    &&& g.enodes@.len() == h.enodes@.len()
    &&& forall|e: int|
        0 <= e < g.enodes@.len() ==> enode_alike(#[trigger] g.enodes@[e], h.enodes@[e])
    &&& lists_alike(g.enodes_of@, h.enodes_of@)
    &&& lists_alike(g.adj@, h.adj@)
    &&& lists_alike(g.sccs@, h.sccs@)
    &&& g.scc_of@ == h.scc_of@
}

/// The graphs agree in everything.
pub open spec fn same_graph(g: &ClassGraph, h: &ClassGraph) -> bool {
    &&& alike(g, h)
    &&& g.classes@ == h.classes@
    &&& g.class_index@ == h.class_index@
    &&& forall|e: int|
        0 <= e < g.enodes@.len() ==> (#[trigger] g.enodes@[e]).ch_prim@ == h.enodes@[e].ch_prim@
}

// ------------------------------------------------------------------- components

proof fn lemma_children_alike(x: Seq<Enode>, y: Seq<Enode>, v: int, n: nat)
    requires
        n <= x.len(),
        x.len() == y.len(),
        forall|e: int| 0 <= e < x.len() ==> enode_alike(#[trigger] x[e], y[e]),
    ensures
        children_of(x, v, n) == children_of(y, v, n),
    decreases n,
{
    if n > 0 {
        lemma_children_alike(x, y, v, (n - 1) as nat);
        assert(enode_alike(x[n - 1], y[n - 1]));
    }
}

proof fn lemma_walk_alike(size: nat, a: Seq<Vec<u32>>, b: Seq<Vec<u32>>, x: u32, y: u32, n: nat)
    requires
        digraph(size, a),
        lists_alike(a, b),
        x < size,
        walk(a, x, y, n),
    ensures
        y < size,
        walk(b, x, y, n),
    decreases n,
{
    if n > 0 {
        let z = choose|z: u32| walk(a, x, z, (n - 1) as nat) && #[trigger] edge(a, z, y);
        lemma_walk_alike(size, a, b, x, z, (n - 1) as nat);
        assert(a[z as int]@ == b[z as int]@);
        let i = choose|i: int| 0 <= i < a[z as int]@.len() && a[z as int]@[i] == y;
        assert(a[z as int]@[i] < size);
        assert(edge(b, z, y));
    }
}

/// Digraphs with the same adjacency lists have the same reachability.
pub(crate) proof fn lemma_reaches_alike(size: nat, a: Seq<Vec<u32>>, b: Seq<Vec<u32>>, x: u32, y: u32)
    requires
        digraph(size, a),
        lists_alike(a, b),
        x < size,
        reaches(a, x, y),
    ensures
        reaches(b, x, y),
{
    let n = choose|n: nat| walk(a, x, y, n);
    lemma_walk_alike(size, a, b, x, y, n);
}

proof fn lemma_mutual_alike(size: nat, a: Seq<Vec<u32>>, b: Seq<Vec<u32>>, x: u32, y: u32)
    requires
        digraph(size, a),
        digraph(size, b),
        lists_alike(a, b),
        x < size,
        y < size,
    ensures
        mutual(a, x, y) == mutual(b, x, y),
{
    if reaches(a, x, y) {
        lemma_reaches_alike(size, a, b, x, y);
    }
    if reaches(a, y, x) {
        lemma_reaches_alike(size, a, b, y, x);
    }
    if reaches(b, x, y) {
        lemma_reaches_alike(size, b, a, x, y);
    }
    if reaches(b, y, x) {
        lemma_reaches_alike(size, b, a, y, x);
    }
}

proof fn lemma_condenses_alike(size: nat, a: Seq<Vec<u32>>, b: Seq<Vec<u32>>, sccs: Seq<Seq<u32>>)
    requires
        digraph(size, a),
        digraph(size, b),
        lists_alike(a, b),
        condenses(size, a, sccs),
    ensures
        condenses(size, b, sccs),
{
    assert forall|c: int, j: int, d: int, l: int|
        0 <= c < sccs.len() && 0 <= j < sccs[c].len() && 0 <= d < sccs.len() && 0 <= l
            < sccs[d].len() implies (c == d <==> mutual(
        b,
        #[trigger] sccs[c][j],
        #[trigger] sccs[d][l],
    )) by {
        lemma_mutual_alike(size, a, b, sccs[c][j], sccs[d][l]);
    }
    assert forall|c: int, j: int, e: int|
        0 <= c < sccs.len() && 0 <= j < sccs[c].len() && 0 <= e < b[sccs[c][j] as int]@.len()
            implies placed(sccs, c + 1, #[trigger] b[sccs[c][j] as int]@[e]) by {
        let x = sccs[c][j];
        assert(a[x as int]@ == b[x as int]@);
        assert(placed(sccs, c + 1, a[sccs[c][j] as int]@[e]));
    }
}

proof fn lemma_walked_alike(size: nat, a: Seq<Vec<u32>>, b: Seq<Vec<u32>>, k: nat)
    requires
        digraph(size, a),
        lists_alike(a, b),
    ensures
        walked(size, a, k) == walked(size, b, k),
        forall|i: int|
            0 <= i < walked(size, a, k).call.len() ==> (#[trigger] walked(size, a, k).call[i]).0
                < size,
    decreases k,
{
    if k > 0 {
        lemma_walked_alike(size, a, b, (k - 1) as nat);
        let w = walked(size, a, (k - 1) as nat);
        if w.call.len() > 0 {
            let (u, e) = w.call[w.call.len() - 1];
            assert(w.call[w.call.len() - 1].0 < size);
            assert(a[u as int]@ == b[u as int]@);
            if e < a[u as int]@.len() {
                assert(a[u as int]@[e as int] < size);
            }
        }
        assert(stepped(size, a, w) == stepped(size, b, w));
    }
}

proof fn lemma_walk_order_alike(size: nat, a: Seq<Vec<u32>>, b: Seq<Vec<u32>>, sccs: Seq<Seq<u32>>)
    requires
        digraph(size, a),
        lists_alike(a, b),
        walk_order(size, a, sccs),
    ensures
        walk_order(size, b, sccs),
{
    let k = choose|k: nat| #[trigger]
        ended(size, walked(size, a, k)) && listed_by(walked(size, a, k), sccs);
    lemma_walked_alike(size, a, b, k);
}

/// Graphs with the same adjacency lists have the same components in the same order.
pub(crate) proof fn lemma_components_alike(g: &ClassGraph, h: &ClassGraph)
    requires
        g.wf(),
        g.condensed(),
        h.wf(),
        h.condensed(),
        g.size() == h.size(),
        lists_alike(g.adj@, h.adj@),
    ensures
        lists_alike(g.sccs@, h.sccs@),
        g.scc_of@ == h.scc_of@,
{
    let n = g.size();
    let x = members(g.sccs@);
    let y = members(h.sccs@);
    lemma_condenses_alike(n, g.adj@, h.adj@, x);
    lemma_walk_order_alike(n, g.adj@, h.adj@, x);
    components_are_determined(n, h.adj@, x, y);
    assert forall|i: int| 0 <= i < g.sccs@.len() implies (#[trigger] g.sccs@[i])@
        == h.sccs@[i]@ by {
        assert(x[i] == y[i]);
    }
    assert forall|v: int| 0 <= v < n implies g.scc_of@[v] == h.scc_of@[v] by {
        let s = g.scc_of@[v] as int;
        assert(g.sccs@[s]@.contains(v as u32));
        let i = choose|i: int| 0 <= i < g.sccs@[s]@.len() && g.sccs@[s]@[i] == v as u32;
        assert(g.sccs@[s]@ == h.sccs@[s]@);
        assert(h.sccs@[s]@[i] == v as u32);
        assert(h.scc_of@[h.sccs@[s]@[i] as int] == s);
    }
    assert(g.scc_of@ =~= h.scc_of@);
}

// --------------------------------------------------------------------- numbering

/// `f` maps no two values to one.
pub open spec fn one_to_one(f: spec_fn(u32) -> u32) -> bool {
    forall|x: u32, y: u32| #[trigger] f(x) == #[trigger] f(y) ==> x == y
}

/// Row `y` is row `x` with its class values renamed by `f`, but for the values of primitive
/// children.
pub open spec fn row_renamed(f: spec_fn(u32) -> u32, x: NodeRowView, y: NodeRowView) -> bool {
    &&& y.func == x.func
    &&& y.head == x.head
    &&& y.out == f(x.out)
    &&& y.children == x.children.map_values(f)
    &&& y.prims.len() == x.prims.len()
    &&& forall|j: int| 0 <= j < x.prims.len() ==> (#[trigger] x.prims[j]).0 == y.prims[j].0
}

/// Row by row.
pub open spec fn rows_renamed(
    f: spec_fn(u32) -> u32,
    x: Seq<NodeRowView>,
    y: Seq<NodeRowView>,
) -> bool {
    &&& x.len() == y.len()
    &&& forall|r: int| 0 <= r < x.len() ==> row_renamed(f, #[trigger] x[r], y[r])
}

/// A renaming of the rows renames the class values that they touch.
pub(crate) proof fn lemma_touched_renamed(
    f: spec_fn(u32) -> u32,
    x: Seq<NodeRowView>,
    y: Seq<NodeRowView>,
    n: nat,
)
    requires
        rows_renamed(f, x, y),
        n <= x.len(),
    ensures
        touched(y, n) == touched(x, n).map_values(f),
    decreases n,
{
    if n > 0 {
        lemma_touched_renamed(f, x, y, (n - 1) as nat);
        assert(row_renamed(f, x[n - 1], y[n - 1]));
        assert(touched(y, n) =~= touched(x, n).map_values(f));
    } else {
        assert(touched(y, n) =~= touched(x, n).map_values(f));
    }
}

/// A renaming commutes with interning.
pub(crate) proof fn lemma_first_touch_renamed(f: spec_fn(u32) -> u32, s: Seq<u32>)
    requires
        one_to_one(f),
    ensures
        first_touch(s.map_values(f)) == first_touch(s).map_values(f),
    decreases s.len(),
{
    let t = s.map_values(f);
    if s.len() == 0 {
        assert(first_touch(t) =~= first_touch(s).map_values(f));
    } else {
        lemma_first_touch_renamed(f, s.drop_last());
        assert(t.drop_last() =~= s.drop_last().map_values(f));
        let rest = first_touch(s.drop_last());
        let other = first_touch(t.drop_last());
        assert(t.last() == f(s.last()));
        if rest.contains(s.last()) {
            let i = choose|i: int| 0 <= i < rest.len() && rest[i] == s.last();
            assert(other[i] == t.last());
        }
        if other.contains(t.last()) {
            let i = choose|i: int| 0 <= i < other.len() && other[i] == t.last();
            assert(f(rest[i]) == f(s.last()));
            assert(rest[i] == s.last());
        }
        assert(first_touch(t) =~= first_touch(s).map_values(f));
    }
}

/// Interning lists each value once.
pub(crate) proof fn lemma_first_touch_once(s: Seq<u32>)
    ensures
        first_touch(s).no_duplicates(),
    decreases s.len(),
{
    if s.len() > 0 {
        lemma_first_touch_once(s.drop_last());
        let rest = first_touch(s.drop_last());
        if !rest.contains(s.last()) {
            let all = first_touch(s);
            assert forall|i: int, j: int|
                0 <= i < all.len() && 0 <= j < all.len() && i != j implies all[i] != all[j] by {
                if i < rest.len() {
                    assert(rest.contains(rest[i]));
                }
                if j < rest.len() {
                    assert(rest.contains(rest[j]));
                }
            }
        }
    }
}

/// Two rising lists of the same e-nodes are the same.
proof fn lemma_lists_agree(
    a: Seq<usize>,
    b: Seq<usize>,
    x: Seq<Enode>,
    y: Seq<Enode>,
    v: int,
    i: int,
)
    requires
        lists_enodes(a, x, v),
        lists_enodes(b, y, v),
        x.len() == y.len(),
        forall|e: int| 0 <= e < x.len() ==> (#[trigger] x[e]).out == (#[trigger] y[e]).out,
        0 <= i < a.len(),
    ensures
        i < b.len(),
        a[i] == b[i],
    decreases i,
{
    assert(x[a[i] as int].out == y[a[i] as int].out);
    assert(b.contains(a[i]));
    let k = choose|k: int| 0 <= k < b.len() && b[k] == a[i];
    if i > 0 {
        lemma_lists_agree(a, b, x, y, v, i - 1);
        assert(a[i - 1] < a[i]);
        if k < i - 1 {
            assert(b[k] < b[i - 1]);
        }
        assert(k >= i);
    }
    if k > i {
        assert(b[i] < b[k]);
        assert(x[b[i] as int].out == y[b[i] as int].out);
        assert(a.contains(b[i]));
        let m = choose|m: int| 0 <= m < a.len() && a[m] == b[i];
        assert(a[m] < a[i]);
        if m > i {
            assert(a[i] < a[m]);
        }
        assert(m < i);
        lemma_lists_agree(a, b, x, y, v, m);
        assert(b[m] == b[i]);
        assert(b[m] < b[i]);
    }
}

/// Graphs of rows that agree up to a renaming of the classes are alike, and their classes are
/// renamed.
pub(crate) proof fn lemma_renamed_graphs_alike(
    f: spec_fn(u32) -> u32,
    funcs: Seq<FuncView>,
    x: Seq<NodeRowView>,
    y: Seq<NodeRowView>,
    g: &ClassGraph,
    h: &ClassGraph,
)
    requires
        one_to_one(f),
        rows_renamed(f, x, y),
        funcs_show(g.funcs@, funcs),
        funcs_show(h.funcs@, funcs),
        g.shows(x),
        h.shows(y),
        g.wf(),
        h.wf(),
        g.condensed(),
        h.condensed(),
    ensures
        alike(g, h),
        h.classes@ == g.classes@.map_values(f),
{
    lemma_touched_renamed(f, x, y, x.len());
    lemma_first_touch_renamed(f, touched(x, x.len()));
    lemma_first_touch_once(touched(x, x.len()));
    lemma_first_touch_once(touched(y, y.len()));
    let c = g.classes@;
    let d = h.classes@;
    assert forall|k: int| 0 <= k < g.funcs@.len() implies func_alike(
        #[trigger] g.funcs@[k],
        h.funcs@[k],
    ) by {
        assert(h.funcs@[k].term_name@ == funcs[k].name);
    }
    assert forall|e: int| 0 <= e < g.enodes@.len() implies enode_alike(
        #[trigger] g.enodes@[e],
        h.enodes@[e],
    ) by {
        let p = g.enodes@[e];
        let q = h.enodes@[e];
        assert(stands_for(p, c, x[e]));
        assert(stands_for(q, d, y[e]));
        assert(row_renamed(f, x[e], y[e]));
        assert(d[p.out as int] == d[q.out as int]);
        assert(p.out == q.out);
        assert forall|j: int| 0 <= j < p.ch_eq@.len() implies p.ch_eq@[j] == q.ch_eq@[j] by {
            assert(c[p.ch_eq@[j] as int] == x[e].children[j]);
            assert(d[q.ch_eq@[j] as int] == y[e].children[j]);
            assert(y[e].children[j] == f(x[e].children[j]));
            assert(d[p.ch_eq@[j] as int] == d[q.ch_eq@[j] as int]);
        }
        assert(p.ch_eq@ =~= q.ch_eq@);
        assert forall|j: int| 0 <= j < p.ch_prim@.len() implies (#[trigger] p.ch_prim@[j]).0
            == q.ch_prim@[j].0 by {
            assert(x[e].prims[j].0 == y[e].prims[j].0);
        }
    }
    assert forall|e: int| 0 <= e < g.enodes@.len() implies (#[trigger] g.enodes@[e]).out == (
    #[trigger] h.enodes@[e]).out by {
        assert(enode_alike(g.enodes@[e], h.enodes@[e]));
    }
    assert forall|v: int| 0 <= v < g.enodes_of@.len() implies (#[trigger] g.enodes_of@[v])@
        == h.enodes_of@[v]@ by {
        let a = g.enodes_of@[v]@;
        let b = h.enodes_of@[v]@;
        assert(lists_enodes(a, g.enodes@, v));
        assert(lists_enodes(b, h.enodes@, v));
        assert forall|i: int| 0 <= i < a.len() implies i < b.len() && #[trigger] a[i] == b[i] by {
            lemma_lists_agree(a, b, g.enodes@, h.enodes@, v, i);
        }
        if b.len() > a.len() {
            lemma_lists_agree(b, a, h.enodes@, g.enodes@, v, a.len() as int);
        }
        if a.len() > b.len() {
            lemma_lists_agree(a, b, g.enodes@, h.enodes@, v, b.len() as int);
        }
        assert(a =~= b);
    }
    assert forall|v: int| 0 <= v < g.adj@.len() implies (#[trigger] g.adj@[v])@
        == h.adj@[v]@ by {
        lemma_children_alike(g.enodes@, h.enodes@, v, g.enodes@.len());
        assert(h.adj@[v]@ == children_of(h.enodes@, v, h.enodes@.len()));
    }
    lemma_components_alike(g, h);
}

proof fn lemma_index_determined(x: Map<u32, u32>, y: Map<u32, u32>, classes: Seq<u32>)
    requires
        indexes(x, classes),
        indexes(y, classes),
    ensures
        x == y,
{
    assert forall|v: u32| #[trigger] x.dom().contains(v) == y.dom().contains(v) by {
        assert(y.dom().contains(v) <==> classes.contains(v));
    }
    assert forall|v: u32| #[trigger] x.dom().contains(v) implies x[v] == y[v] by {
        let i = choose|i: int| 0 <= i < classes.len() && classes[i] == v;
        assert(x[classes[i]] == i);
        assert(y[classes[i]] == i);
    }
    assert(x =~= y);
}

/// Graphs of the same rows are the same.
pub(crate) proof fn lemma_same_rows_same_graph(
    funcs: Seq<FuncView>,
    rows: Seq<NodeRowView>,
    g: &ClassGraph,
    h: &ClassGraph,
)
    requires
        funcs_show(g.funcs@, funcs),
        funcs_show(h.funcs@, funcs),
        g.shows(rows),
        h.shows(rows),
        g.wf(),
        h.wf(),
        g.condensed(),
        h.condensed(),
    ensures
        same_graph(g, h),
{
    let f = |v: u32| v;
    assert forall|r: int| 0 <= r < rows.len() implies row_renamed(
        f,
        #[trigger] rows[r],
        rows[r],
    ) by {
        assert(rows[r].children.map_values(f) =~= rows[r].children);
    }
    lemma_renamed_graphs_alike(f, funcs, rows, rows, g, h);
    lemma_index_determined(g.class_index@, h.class_index@, g.classes@);
    assert forall|e: int| 0 <= e < g.enodes@.len() implies (#[trigger] g.enodes@[e]).ch_prim@
        == h.enodes@[e].ch_prim@ by {
        assert(stands_for(g.enodes@[e], g.classes@, rows[e]));
        assert(stands_for(h.enodes@[e], h.classes@, rows[e]));
    }
}

} // verus!
