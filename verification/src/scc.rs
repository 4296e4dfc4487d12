//! Strongly connected components, children first.
use vstd::prelude::*;

use crate::reach::{
    digraph, edge, lemma_reaches_child, lemma_reaches_closed, lemma_reaches_self,
    lemma_reaches_trans, mutual, reaches,
};
use crate::tally::{count, lemma_count_bound, lemma_count_flip, lemma_count_none};
use crate::walk::{
    comes_next, ended, holds_at, listed_by, stepped, walk_ends_once, walk_order, walked, Walk,
};

verus! {

/// Some of the first `m` components holds `x`.
pub open spec fn placed(sccs: Seq<Seq<u32>>, m: int, x: u32) -> bool {
    exists|c: int| 0 <= c < m && (#[trigger] sccs[c]).contains(x)
}

/// The member lists of the components.
pub open spec fn members(sccs: Seq<Vec<u32>>) -> Seq<Seq<u32>> {
    Seq::new(sccs.len(), |c: int| sccs[c]@)
}

/// `sccs` lists the strongly connected components of the digraph, each vertex once, and
/// every edge leads into the same component or an earlier one.
pub open spec fn condenses(n: nat, adj: Seq<Vec<u32>>, sccs: Seq<Seq<u32>>) -> bool {
    &&& forall|c: int| 0 <= c < sccs.len() ==> (#[trigger] sccs[c]).len() > 0
    &&& forall|c: int, j: int|
        0 <= c < sccs.len() && 0 <= j < sccs[c].len() ==> #[trigger] sccs[c][j] < n
    &&& forall|x: u32| x < n ==> #[trigger] placed(sccs, sccs.len() as int, x)
    &&& forall|c: int, j: int, d: int, l: int|
        0 <= c < sccs.len() && 0 <= j < sccs[c].len() && 0 <= d < sccs.len() && 0 <= l
            < sccs[d].len() && #[trigger] sccs[c][j] == #[trigger] sccs[d][l] ==> c == d && j == l
    &&& forall|c: int, j: int, d: int, l: int|
        0 <= c < sccs.len() && 0 <= j < sccs[c].len() && 0 <= d < sccs.len() && 0 <= l
            < sccs[d].len() ==> (c == d <==> mutual(
            adj,
            #[trigger] sccs[c][j],
            #[trigger] sccs[d][l],
        ))
    &&& forall|c: int, j: int, e: int|
        0 <= c < sccs.len() && 0 <= j < sccs[c].len() && 0 <= e < adj[sccs[c][j] as int]@.len()
            ==> placed(sccs, c + 1, #[trigger] adj[sccs[c][j] as int]@[e])
}

/// Discovery number of a vertex that was not visited.
const UNSEEN: u32 = 0xffff_ffff;

/// State of the depth-first search.
struct Search {
    /// Discovery numbers.
    disc: Vec<u32>,
    /// Lowest discovery number known to be reachable.
    low: Vec<u32>,
    on_stack: Vec<bool>,
    /// Visited vertices without a component, in the order of their discovery.
    tstack: Vec<u32>,
    /// Open vertices with the number of edges that were followed.
    call: Vec<(u32, usize)>,
    sccs: Vec<Vec<u32>>,
    counter: u32,
}

#[verifier::ext_equal]
struct SearchView {
    disc: Seq<u32>,
    low: Seq<u32>,
    on: Seq<bool>,
    stack: Seq<u32>,
    call: Seq<(u32, usize)>,
    sccs: Seq<Seq<u32>>,
    counter: nat,
}

impl View for Search {
    type V = SearchView;

    closed spec fn view(&self) -> SearchView {
        SearchView {
            disc: self.disc@,
            low: self.low@,
            on: self.on_stack@,
            stack: self.tstack@,
            call: self.call@,
            sccs: members(self.sccs@),
            counter: self.counter as nat,
        }
    }
}

/// The visited vertices.
spec fn visited(disc: Seq<u32>) -> spec_fn(int) -> bool {
    |x: int| disc[x] != UNSEEN
}

impl SearchView {
    spec fn seen(self, x: u32) -> bool {
        self.disc[x as int] != UNSEEN
    }

    /// Discovery number of the `k`-th vertex on the stack.
    spec fn sd(self, k: int) -> u32 {
        self.disc[self.stack[k] as int]
    }

    /// Discovery number of the `i`-th open vertex.
    spec fn cd(self, i: int) -> u32 {
        self.disc[self.call[i].0 as int]
    }

    spec fn shape(self, n: nat, adj: Seq<Vec<u32>>) -> bool {
        &&& self.disc.len() == n
        &&& self.low.len() == n
        &&& self.on.len() == n
        &&& self.counter == count(n, visited(self.disc))
        &&& forall|x: u32|
            x < n && #[trigger] self.disc[x as int] != UNSEEN ==> self.disc[x as int] < self.counter
        &&& forall|k: int|
            0 <= k < self.stack.len() ==> (#[trigger] self.stack[k]) < n
                && self.on[self.stack[k] as int] && self.seen(self.stack[k])
        &&& forall|x: u32| x < n && #[trigger] self.on[x as int] ==> self.stack.contains(x)
        &&& forall|k: int, l: int|
            0 <= k < self.stack.len() && 0 <= l < self.stack.len() && k < l ==> #[trigger] self.sd(
                k,
            ) < #[trigger] self.sd(l)
        &&& forall|i: int|
            0 <= i < self.call.len() ==> (#[trigger] self.call[i]).0 < n
                && self.on[self.call[i].0 as int] && self.call[i].1
                <= adj[self.call[i].0 as int]@.len()
        &&& forall|i: int, j: int|
            0 <= i < self.call.len() && 0 <= j < self.call.len() && i < j ==> #[trigger] self.cd(i)
                < #[trigger] self.cd(j)
    }

    /// The `i`-th open vertex was left along an edge to the next one.
    spec fn tree_edge(self, adj: Seq<Vec<u32>>, i: int) -> bool {
        self.call[i].1 >= 1 && adj[self.call[i].0 as int]@[self.call[i].1 - 1] == self.call[i
            + 1].0
    }

    /// The `k`-th vertex on the stack reaches an open vertex that is no later.
    spec fn comes_back(self, adj: Seq<Vec<u32>>, k: int) -> bool {
        exists|i: int|
            0 <= i < self.call.len() && #[trigger] self.cd(i) <= self.sd(k) && reaches(
                adj,
                self.stack[k],
                self.call[i].0,
            )
    }

    spec fn paths(self, adj: Seq<Vec<u32>>) -> bool {
        &&& forall|i: int| 0 <= i < self.call.len() - 1 ==> #[trigger] self.tree_edge(adj, i)
        &&& forall|k: int, l: int|
            0 <= k <= l < self.stack.len() ==> reaches(
                adj,
                #[trigger] self.stack[k],
                #[trigger] self.stack[l],
            )
        &&& forall|k: int| 0 <= k < self.stack.len() ==> #[trigger] self.comes_back(adj, k)
    }

    /// The low number of the `i`-th open vertex is that of a vertex that it reaches.
    spec fn low_ok(self, adj: Seq<Vec<u32>>, i: int) -> bool {
        let u = self.call[i].0;
        &&& self.low[u as int] <= self.disc[u as int]
        &&& exists|k: int|
            0 <= k < self.stack.len() && #[trigger] self.sd(k) == self.low[u as int] && reaches(
                adj,
                u,
                self.stack[k],
            )
    }

    /// The `k`-th vertex on the stack was found below the `i`-th open vertex, but not below
    /// the next one.
    spec fn in_segment(self, i: int, k: int) -> bool {
        &&& 0 <= i < self.call.len()
        &&& 0 <= k < self.stack.len()
        &&& self.cd(i) <= self.sd(k)
        &&& i + 1 < self.call.len() ==> self.sd(k) < self.cd(i + 1)
    }

    /// Number of edges of the `k`-th vertex on the stack that were followed.
    spec fn followed(self, adj: Seq<Vec<u32>>, i: int, k: int) -> int {
        if self.stack[k] == self.call[i].0 {
            self.call[i].1 as int
        } else {
            adj[self.stack[k] as int]@.len() as int
        }
    }

    /// The followed edges of a vertex below the `i`-th open one lead to visited vertices, and
    /// to none on the stack below that one's low number.
    spec fn seg_ok(self, adj: Seq<Vec<u32>>, i: int, k: int) -> bool {
        self.in_segment(i, k) ==> forall|e: int|
            0 <= e < self.followed(adj, i, k) ==> self.edge_ok(
                i,
                #[trigger] adj[self.stack[k] as int]@[e],
            )
    }

    spec fn edge_ok(self, i: int, y: u32) -> bool {
        self.seen(y) && (self.on[y as int] ==> self.low[self.call[i].0 as int]
            <= self.disc[y as int])
    }

    spec fn comps(self, n: nat, adj: Seq<Vec<u32>>) -> bool {
        let m = self.sccs.len() as int;
        &&& forall|c: int| 0 <= c < m ==> (#[trigger] self.sccs[c]).len() > 0
        &&& forall|c: int, j: int|
            0 <= c < m && 0 <= j < self.sccs[c].len() ==> #[trigger] self.sccs[c][j] < n
        &&& forall|x: u32|
            x < n ==> (#[trigger] placed(self.sccs, m, x) <==> self.seen(x) && !self.on[x as int])
        &&& forall|c: int, j: int, d: int, l: int|
            0 <= c < m && 0 <= j < self.sccs[c].len() && 0 <= d < m && 0 <= l < self.sccs[d].len()
                && #[trigger] self.sccs[c][j] == #[trigger] self.sccs[d][l] ==> c == d && j == l
        &&& forall|c: int, j: int, l: int|
            0 <= c < m && 0 <= j < self.sccs[c].len() && 0 <= l < self.sccs[c].len() ==> reaches(
                adj,
                #[trigger] self.sccs[c][j],
                #[trigger] self.sccs[c][l],
            )
        &&& forall|c: int, j: int, e: int|
            0 <= c < m && 0 <= j < self.sccs[c].len() && 0 <= e
                < adj[self.sccs[c][j] as int]@.len() ==> placed(
                self.sccs,
                c + 1,
                #[trigger] adj[self.sccs[c][j] as int]@[e],
            )
    }

    spec fn inv(self, n: nat, adj: Seq<Vec<u32>>) -> bool {
        &&& digraph(n, adj)
        &&& self.shape(n, adj)
        &&& self.paths(adj)
        &&& forall|i: int| 0 <= i < self.call.len() ==> #[trigger] self.low_ok(adj, i)
        &&& forall|i: int, k: int| #[trigger] self.seg_ok(adj, i, k)
        &&& self.comps(n, adj)
    }

    /// `v` is opened as the newest vertex.
    spec fn open(self, v: u32) -> SearchView {
        SearchView {
            disc: self.disc.update(v as int, self.counter as u32),
            low: self.low.update(v as int, self.counter as u32),
            on: self.on.update(v as int, true),
            stack: self.stack.push(v),
            call: self.call.push((v, 0)),
            counter: self.counter + 1,
            ..self
        }
    }

    /// The low number of `u` is at most `d`.
    spec fn lower(self, u: u32, d: u32) -> SearchView {
        SearchView {
            low: self.low.update(
                u as int,
                if d < self.low[u as int] {
                    d
                } else {
                    self.low[u as int]
                },
            ),
            ..self
        }
    }

    /// The newest open vertex is closed.
    spec fn close(self) -> SearchView {
        SearchView { call: self.call.drop_last(), ..self }
    }

    /// The stack from position `p` on becomes a component.
    spec fn emit(self, p: int) -> SearchView {
        SearchView {
            on: Seq::new(
                self.on.len(),
                |x: int| self.on[x] && self.disc[x] < self.sd(p),
            ),
            stack: self.stack.take(p),
            sccs: self.sccs.push(self.stack.skip(p).reverse()),
            ..self
        }
    }

    /// One more edge of the newest open vertex was followed.
    spec fn follow(self) -> SearchView {
        let last = self.call.len() - 1;
        SearchView {
            call: self.call.update(last, (self.call[last].0, (self.call[last].1 + 1) as usize)),
            ..self
        }
    }
}

/// Open vertices are on the stack in the same order.
proof fn lemma_open_position(s: SearchView, n: nat, adj: Seq<Vec<u32>>, i: int) -> (k: int)
    requires
        s.shape(n, adj),
        0 <= i < s.call.len(),
    ensures
        0 <= k < s.stack.len(),
        s.stack[k] == s.call[i].0,
{
    let x = s.call[i].0;
    assert(s.on[x as int]);
    assert(s.stack.contains(x));
    choose|k: int| 0 <= k < s.stack.len() && s.stack[k] == x
}

/// Every vertex on the stack reaches the newest open vertex.
proof fn lemma_reaches_newest(s: SearchView, n: nat, adj: Seq<Vec<u32>>, k: int)
    requires
        s.shape(n, adj),
        s.paths(adj),
        s.call.len() > 0,
        0 <= k < s.stack.len(),
    ensures
        reaches(adj, s.stack[k], s.call.last().0),
{
    assert(s.comes_back(adj, k));
    let i = choose|i: int|
        0 <= i < s.call.len() && #[trigger] s.cd(i) <= s.sd(k) && reaches(
            adj,
            s.stack[k],
            s.call[i].0,
        );
    let last = s.call.len() - 1;
    let a = lemma_open_position(s, n, adj, i);
    let b = lemma_open_position(s, n, adj, last);
    if i < last {
        assert(s.cd(i) < s.cd(last));
    }
    if b < a {
        assert(s.sd(b) < s.sd(a));
    }
    assert(reaches(adj, s.stack[a], s.stack[b]));
    lemma_reaches_trans(adj, s.stack[k], s.call[i].0, s.call[last].0);
}

/// Opening a new vertex keeps the shape.
proof fn lemma_open_shape(s: SearchView, n: nat, adj: Seq<Vec<u32>>, v: u32)
    requires
        digraph(n, adj),
        s.shape(n, adj),
        v < n,
        !s.seen(v),
    ensures
        s.open(v).shape(n, adj),
        s.counter < n,
{
    let t = s.open(v);
    lemma_count_bound(n, visited(t.disc));
    lemma_count_bound(n, visited(s.disc));
    assert(s.counter <= n);
    assert(s.counter != UNSEEN) by {
        if s.counter == n {
            // All vertices would be visited.
            lemma_full_count(n, visited(s.disc), v as int);
        }
    }
    lemma_count_flip(n, visited(s.disc), visited(t.disc), v as int);
    assert forall|x: u32| x < n && #[trigger] t.on[x as int] implies t.stack.contains(x) by {
        if x == v {
            assert(t.stack[s.stack.len() as int] == v);
        } else {
            assert(s.on[x as int]);
            let k = choose|k: int| 0 <= k < s.stack.len() && s.stack[k] == x;
            assert(t.stack[k] == x);
        }
    }
    assert forall|k: int| 0 <= k < s.stack.len() implies s.stack[k] != v && t.sd(k) == #[trigger] s.sd(
        k,
    ) by {
        assert(s.seen(s.stack[k]));
    }
    assert forall|k: int, l: int|
        0 <= k < t.stack.len() && 0 <= l < t.stack.len() && k < l implies #[trigger] t.sd(k)
        < #[trigger] t.sd(l) by {
        assert(s.seen(s.stack[k]));
        assert(t.sd(k) == s.sd(k));
        if l < s.stack.len() {
            assert(t.sd(l) == s.sd(l));
            assert(s.sd(k) < s.sd(l));
        } else {
            assert(s.disc[s.stack[k] as int] < s.counter);
        }
    }
    assert forall|i: int| 0 <= i < s.call.len() implies s.call[i].0 != v && t.cd(i) == #[trigger] s.cd(
        i,
    ) by {
        let k = lemma_open_position(s, n, adj, i);
        assert(s.seen(s.stack[k]));
    }
    assert forall|i: int, j: int|
        0 <= i < t.call.len() && 0 <= j < t.call.len() && i < j implies #[trigger] t.cd(i)
        < #[trigger] t.cd(j) by {
        assert(t.cd(i) == s.cd(i));
        let k = lemma_open_position(s, n, adj, i);
        assert(s.seen(s.stack[k]));
        if j < s.call.len() {
            assert(t.cd(j) == s.cd(j));
            assert(s.cd(i) < s.cd(j));
        } else {
            assert(s.disc[s.call[i].0 as int] < s.counter);
        }
    }
}

/// A count of all indices leaves none out.
proof fn lemma_full_count(n: nat, p: spec_fn(int) -> bool, k: int)
    requires
        count(n, p) == n,
        0 <= k < n,
    ensures
        p(k),
    decreases n,
{
    lemma_count_bound((n - 1) as nat, p);
    if k < n - 1 {
        lemma_full_count((n - 1) as nat, p, k);
    }
}

/// Opening a new vertex keeps what is known of the components.
proof fn lemma_open_comps(s: SearchView, n: nat, adj: Seq<Vec<u32>>, v: u32)
    requires
        s.comps(n, adj),
        s.shape(n, adj),
        v < n,
        !s.seen(v),
        s.counter < UNSEEN,
    ensures
        s.open(v).comps(n, adj),
{
    let t = s.open(v);
    assert forall|x: u32| x < n implies (#[trigger] placed(t.sccs, t.sccs.len() as int, x)
        <==> t.seen(x) && !t.on[x as int]) by {
        assert(placed(s.sccs, s.sccs.len() as int, x) <==> s.seen(x) && !s.on[x as int]);
    }
}

/// Without open vertices the stack is empty.
proof fn lemma_idle(s: SearchView, n: nat, adj: Seq<Vec<u32>>)
    requires
        s.inv(n, adj),
        s.call.len() == 0,
    ensures
        s.stack.len() == 0,
{
    if s.stack.len() > 0 {
        assert(s.comes_back(adj, 0));
    }
}

/// A new search starts at `v`.
proof fn lemma_root(s: SearchView, n: nat, adj: Seq<Vec<u32>>, v: u32)
    requires
        s.inv(n, adj),
        s.call.len() == 0,
        v < n,
        !s.seen(v),
    ensures
        s.open(v).inv(n, adj),
        s.counter < n,
{
    let t = s.open(v);
    lemma_idle(s, n, adj);
    lemma_open_shape(s, n, adj, v);
    lemma_open_comps(s, n, adj, v);
    lemma_reaches_self(adj, v);
    assert(t.stack[0] == v && t.call[0].0 == v);
    assert(t.cd(0) <= t.sd(0));
    assert(t.comes_back(adj, 0));
    assert(t.sd(0) == t.low[v as int]);
    assert(t.low_ok(adj, 0));
    assert forall|i: int, k: int| #[trigger] t.seg_ok(adj, i, k) by {}
}

/// The newest open vertex is left along an edge to a new vertex.
proof fn lemma_descend(s: SearchView, n: nat, adj: Seq<Vec<u32>>, v: u32)
    requires
        s.inv(n, adj),
        s.call.len() > 0,
        s.call.last().1 < adj[s.call.last().0 as int]@.len(),
        v == adj[s.call.last().0 as int]@[s.call.last().1 as int],
        !s.seen(v),
    ensures
        s.follow().open(v).inv(n, adj),
        s.counter < n,
        v < n,
{
    let last = s.call.len() - 1;
    let u = s.call[last].0;
    let ei = s.call[last].1;
    let f = s.follow();
    let t = f.open(v);
    assert(v < n);
    assert(adj[u as int]@.len() <= usize::MAX) by {
        assert(adj[u as int].len() <= usize::MAX);
    }
    assert(f.shape(n, adj)) by {
        assert forall|i: int, j: int|
            0 <= i < f.call.len() && 0 <= j < f.call.len() && i < j implies #[trigger] f.cd(i)
            < #[trigger] f.cd(j) by {
            assert(f.cd(i) == s.cd(i) && f.cd(j) == s.cd(j));
        }
        assert forall|k: int, l: int|
            0 <= k < f.stack.len() && 0 <= l < f.stack.len() && k < l implies #[trigger] f.sd(k)
            < #[trigger] f.sd(l) by {
            assert(f.sd(k) == s.sd(k) && f.sd(l) == s.sd(l));
        }
        assert forall|i: int| 0 <= i < f.call.len() implies (#[trigger] f.call[i]).0 < n
            && f.on[f.call[i].0 as int] && f.call[i].1 <= adj[f.call[i].0 as int]@.len() by {
            assert(s.call[i].0 < n);
        }
        assert forall|x: u32| x < n && #[trigger] f.on[x as int] implies f.stack.contains(x) by {
            assert(s.on[x as int]);
        }
    }
    assert(f.comps(n, adj)) by {
        assert forall|x: u32| x < n implies (#[trigger] placed(f.sccs, f.sccs.len() as int, x)
            <==> f.seen(x) && !f.on[x as int]) by {
            assert(placed(s.sccs, s.sccs.len() as int, x) <==> s.seen(x) && !s.on[x as int]);
        }
    }
    lemma_open_shape(f, n, adj, v);
    lemma_open_comps(f, n, adj, v);
    assert forall|k: int| 0 <= k < s.stack.len() implies s.stack[k] != v && t.sd(k) == #[trigger] s.sd(
        k,
    ) && t.stack[k] == s.stack[k] by {
        assert(s.seen(s.stack[k]));
    }
    assert forall|i: int| 0 <= i < s.call.len() implies s.call[i].0 != v && t.cd(i) == #[trigger] s.cd(
        i,
    ) && t.call[i].0 == s.call[i].0 by {
        let k = lemma_open_position(s, n, adj, i);
        assert(s.seen(s.stack[k]));
    }
    let top = s.stack.len() as int;
    assert(t.sd(top) == s.counter && t.cd(last + 1) == s.counter);
    assert(edge(adj, u, v)) by {
        assert(adj[u as int]@[ei as int] == v);
    }
    lemma_reaches_child(adj, u, v);
    lemma_reaches_self(adj, v);
    assert(t.paths(adj)) by {
        assert forall|i: int| 0 <= i < t.call.len() - 1 implies #[trigger] t.tree_edge(adj, i) by {
            if i < last {
                assert(s.tree_edge(adj, i));
            }
        }
        assert forall|k: int, l: int| 0 <= k <= l < t.stack.len() implies reaches(
            adj,
            #[trigger] t.stack[k],
            #[trigger] t.stack[l],
        ) by {
            if l < top {
                assert(reaches(adj, s.stack[k], s.stack[l]));
            } else if k < top {
                lemma_reaches_newest(s, n, adj, k);
                lemma_reaches_trans(adj, s.stack[k], u, v);
            }
        }
        assert forall|k: int| 0 <= k < t.stack.len() implies #[trigger] t.comes_back(adj, k) by {
            if k < top {
                assert(s.comes_back(adj, k));
                let i = choose|i: int|
                    0 <= i < s.call.len() && #[trigger] s.cd(i) <= s.sd(k) && reaches(
                        adj,
                        s.stack[k],
                        s.call[i].0,
                    );
                assert(t.cd(i) <= t.sd(k));
            } else {
                assert(t.cd(last + 1) <= t.sd(k));
            }
        }
    }
    assert forall|i: int| 0 <= i < t.call.len() implies #[trigger] t.low_ok(adj, i) by {
        if i <= last {
            assert(s.low_ok(adj, i));
            let x = s.call[i].0;
            let k = choose|k: int|
                0 <= k < s.stack.len() && #[trigger] s.sd(k) == s.low[x as int] && reaches(
                    adj,
                    x,
                    s.stack[k],
                );
            assert(t.sd(k) == t.low[x as int]);
            assert(t.cd(i) == s.cd(i));
        } else {
            assert(t.sd(top) == t.low[v as int]);
        }
    }
    assert forall|i: int, k: int| #[trigger] t.seg_ok(adj, i, k) by {
        if t.in_segment(i, k) {
            assert forall|e: int| 0 <= e < t.followed(adj, i, k) implies t.edge_ok(
                i,
                #[trigger] adj[t.stack[k] as int]@[e],
            ) by {
                let y = adj[t.stack[k] as int]@[e];
                if i <= last {
                    if k == top {
                        assert(t.sd(k) < t.cd(i + 1));
                        if i + 1 <= last {
                            assert(t.cd(i + 1) < t.cd(last + 1));
                        }
                        assert(false);
                    }
                    assert(s.seg_ok(adj, i, k));
                    if i + 1 <= last {
                        assert(t.cd(i + 1) == s.cd(i + 1));
                    }
                    assert(s.in_segment(i, k));
                    let x = s.call[i].0;
                    assert(s.low_ok(adj, i));
                    assert(s.cd(i) < s.counter) by {
                        let q = lemma_open_position(s, n, adj, i);
                        assert(s.seen(s.stack[q]));
                        assert(s.disc[x as int] < s.counter);
                    }
                    assert(t.low[x as int] == s.low[x as int]);
                    assert(y < n) by {
                        assert(t.stack[k] < n);
                    }
                    if e < s.followed(adj, i, k) {
                        assert(s.edge_ok(i, adj[s.stack[k] as int]@[e]));
                        assert(y != v);
                    } else {
                        assert(i == last && s.stack[k] == u && e == ei);
                        assert(y == v);
                    }
                } else {
                    assert(i == last + 1);
                    if k < top {
                        assert(t.sd(k) == s.sd(k));
                        assert(s.seen(s.stack[k]));
                        assert(s.disc[s.stack[k] as int] < s.counter);
                        assert(false);
                    }
                }
            }
        }
    }
}

/// A followed edge leads to a visited vertex `v`: the low number of the newest open vertex
/// takes account of `v` if it is on the stack.
proof fn lemma_glance(s: SearchView, t: SearchView, n: nat, adj: Seq<Vec<u32>>, v: u32)
    requires
        s.inv(n, adj),
        s.call.len() > 0,
        s.call.last().1 < adj[s.call.last().0 as int]@.len(),
        v == adj[s.call.last().0 as int]@[s.call.last().1 as int],
        s.seen(v),
        t == if s.on[v as int] {
            s.follow().lower(s.call.last().0, s.disc[v as int])
        } else {
            s.follow()
        },
    ensures
        t.inv(n, adj),
        v < n,
{
    let last = s.call.len() - 1;
    let u = s.call[last].0;
    let ei = s.call[last].1;
    assert(v < n);
    assert(adj[u as int]@.len() <= usize::MAX) by {
        assert(adj[u as int].len() <= usize::MAX);
    }
    assert(u < n);
    assert forall|k: int| 0 <= k < s.stack.len() implies t.sd(k) == #[trigger] s.sd(k) by {}
    assert forall|i: int| 0 <= i < s.call.len() implies t.cd(i) == #[trigger] s.cd(i)
        && t.call[i].0 == s.call[i].0 by {}
    assert(t.shape(n, adj)) by {
        assert forall|i: int, j: int|
            0 <= i < t.call.len() && 0 <= j < t.call.len() && i < j implies #[trigger] t.cd(i)
            < #[trigger] t.cd(j) by {
            assert(t.cd(i) == s.cd(i) && t.cd(j) == s.cd(j));
        }
        assert forall|k: int, l: int|
            0 <= k < t.stack.len() && 0 <= l < t.stack.len() && k < l implies #[trigger] t.sd(k)
            < #[trigger] t.sd(l) by {
            assert(t.sd(k) == s.sd(k) && t.sd(l) == s.sd(l));
        }
        assert forall|i: int| 0 <= i < t.call.len() implies (#[trigger] t.call[i]).0 < n
            && t.on[t.call[i].0 as int] && t.call[i].1 <= adj[t.call[i].0 as int]@.len() by {
            assert(s.call[i].0 < n);
        }
        assert forall|x: u32| x < n && #[trigger] t.on[x as int] implies t.stack.contains(x) by {
            assert(s.on[x as int]);
        }
    }
    assert(t.comps(n, adj)) by {
        assert forall|x: u32| x < n implies (#[trigger] placed(t.sccs, t.sccs.len() as int, x)
            <==> t.seen(x) && !t.on[x as int]) by {
            assert(placed(s.sccs, s.sccs.len() as int, x) <==> s.seen(x) && !s.on[x as int]);
        }
    }
    assert(t.paths(adj)) by {
        assert forall|i: int| 0 <= i < t.call.len() - 1 implies #[trigger] t.tree_edge(adj, i) by {
            assert(s.tree_edge(adj, i));
        }
        assert forall|k: int, l: int| 0 <= k <= l < t.stack.len() implies reaches(
            adj,
            #[trigger] t.stack[k],
            #[trigger] t.stack[l],
        ) by {
            assert(reaches(adj, s.stack[k], s.stack[l]));
        }
        assert forall|k: int| 0 <= k < t.stack.len() implies #[trigger] t.comes_back(adj, k) by {
            assert(s.comes_back(adj, k));
            let i = choose|i: int|
                0 <= i < s.call.len() && #[trigger] s.cd(i) <= s.sd(k) && reaches(
                    adj,
                    s.stack[k],
                    s.call[i].0,
                );
            assert(t.cd(i) <= t.sd(k));
        }
    }
    // No other open vertex is `u`.
    assert forall|i: int| 0 <= i < last implies (#[trigger] s.call[i]).0 != u by {
        assert(s.cd(i) < s.cd(last));
    }
    assert forall|i: int| 0 <= i < t.call.len() implies #[trigger] t.low_ok(adj, i) by {
        assert(s.low_ok(adj, i));
        let x = s.call[i].0;
        assert(t.cd(i) == s.cd(i));
        if t.low[x as int] == s.low[x as int] {
            let k = choose|k: int|
                0 <= k < s.stack.len() && #[trigger] s.sd(k) == s.low[x as int] && reaches(
                    adj,
                    x,
                    s.stack[k],
                );
            assert(t.sd(k) == t.low[x as int]);
        } else {
            assert(s.call[i].0 == u);
            assert(s.stack.contains(v));
            let k = choose|k: int| 0 <= k < s.stack.len() && s.stack[k] == v;
            assert(edge(adj, u, v)) by {
                assert(adj[u as int]@[ei as int] == v);
            }
            lemma_reaches_child(adj, u, v);
            assert(t.sd(k) == t.low[x as int]);
        }
    }
    assert forall|i: int, k: int| #[trigger] t.seg_ok(adj, i, k) by {
        if t.in_segment(i, k) {
            assert(s.seg_ok(adj, i, k));
            if i < last {
                assert(t.cd(i + 1) == s.cd(i + 1));
            }
            assert(s.in_segment(i, k));
            assert forall|e: int| 0 <= e < t.followed(adj, i, k) implies t.edge_ok(
                i,
                #[trigger] adj[t.stack[k] as int]@[e],
            ) by {
                let y = adj[t.stack[k] as int]@[e];
                assert(t.low[t.call[i].0 as int] <= s.low[s.call[i].0 as int]);
                if e < s.followed(adj, i, k) {
                    assert(s.edge_ok(i, adj[s.stack[k] as int]@[e]));
                } else {
                    assert(i == last && s.stack[k] == u && e == ei);
                    assert(y == v);
                }
            }
        }
    }
}

/// The newest open vertex, all of whose edges were followed, is closed; it reaches an
/// earlier vertex, so it stays on the stack and its parent takes over its low number.
proof fn lemma_close(s: SearchView, n: nat, adj: Seq<Vec<u32>>) -> (p: int)
    requires
        s.inv(n, adj),
        s.call.len() > 0,
        s.call.last().1 == adj[s.call.last().0 as int]@.len(),
        s.low[s.call.last().0 as int] != s.disc[s.call.last().0 as int],
    ensures
        p == s.call.len() - 2,
        p >= 0,
        s.close().lower(s.call[p].0, s.low[s.call.last().0 as int]).inv(n, adj),
{
    let last = s.call.len() - 1;
    let u = s.call[last].0;
    assert(s.low_ok(adj, last));
    // The vertex that gives `u` its low number, and an open vertex that it reaches.
    let w = choose|k: int|
        0 <= k < s.stack.len() && #[trigger] s.sd(k) == s.low[u as int] && reaches(
            adj,
            u,
            s.stack[k],
        );
    assert(s.comes_back(adj, w));
    let g = choose|i: int|
        0 <= i < s.call.len() && #[trigger] s.cd(i) <= s.sd(w) && reaches(
            adj,
            s.stack[w],
            s.call[i].0,
        );
    assert(s.cd(g) < s.cd(last));
    if g == last {
        assert(false);
    }
    lemma_reaches_trans(adj, u, s.stack[w], s.call[g].0);
    let p = last - 1;
    let q = s.call[p].0;
    let t = s.close().lower(q, s.low[u as int]);
    assert(q < n && u < n);
    assert(s.cd(p) < s.cd(last));
    assert forall|k: int| 0 <= k < s.stack.len() implies t.sd(k) == #[trigger] s.sd(k) by {}
    assert forall|i: int| 0 <= i < t.call.len() implies t.cd(i) == #[trigger] s.cd(i) && t.call[i]
        == s.call[i] by {}
    assert(t.shape(n, adj)) by {
        assert forall|i: int, j: int|
            0 <= i < t.call.len() && 0 <= j < t.call.len() && i < j implies #[trigger] t.cd(i)
            < #[trigger] t.cd(j) by {
            assert(t.cd(i) == s.cd(i) && t.cd(j) == s.cd(j));
        }
        assert forall|k: int, l: int|
            0 <= k < t.stack.len() && 0 <= l < t.stack.len() && k < l implies #[trigger] t.sd(k)
            < #[trigger] t.sd(l) by {
            assert(t.sd(k) == s.sd(k) && t.sd(l) == s.sd(l));
        }
        assert forall|i: int| 0 <= i < t.call.len() implies (#[trigger] t.call[i]).0 < n
            && t.on[t.call[i].0 as int] && t.call[i].1 <= adj[t.call[i].0 as int]@.len() by {
            assert(s.call[i].0 < n);
        }
        assert forall|x: u32| x < n && #[trigger] t.on[x as int] implies t.stack.contains(x) by {
            assert(s.on[x as int]);
        }
    }
    assert(t.comps(n, adj)) by {
        assert forall|x: u32| x < n implies (#[trigger] placed(t.sccs, t.sccs.len() as int, x)
            <==> t.seen(x) && !t.on[x as int]) by {
            assert(placed(s.sccs, s.sccs.len() as int, x) <==> s.seen(x) && !s.on[x as int]);
        }
    }
    assert(t.paths(adj)) by {
        assert forall|i: int| 0 <= i < t.call.len() - 1 implies #[trigger] t.tree_edge(adj, i) by {
            assert(s.tree_edge(adj, i));
        }
        assert forall|k: int, l: int| 0 <= k <= l < t.stack.len() implies reaches(
            adj,
            #[trigger] t.stack[k],
            #[trigger] t.stack[l],
        ) by {
            assert(reaches(adj, s.stack[k], s.stack[l]));
        }
        assert forall|k: int| 0 <= k < t.stack.len() implies #[trigger] t.comes_back(adj, k) by {
            assert(s.comes_back(adj, k));
            let i = choose|i: int|
                0 <= i < s.call.len() && #[trigger] s.cd(i) <= s.sd(k) && reaches(
                    adj,
                    s.stack[k],
                    s.call[i].0,
                );
            if i < last {
                assert(t.cd(i) <= t.sd(k));
            } else {
                lemma_reaches_trans(adj, s.stack[k], u, s.call[g].0);
                assert(t.cd(g) <= t.sd(k));
            }
        }
    }
    assert forall|i: int| 0 <= i < t.call.len() && i != p implies (#[trigger] s.call[i]).0 != q by {
        assert(s.cd(i) < s.cd(p));
    }
    assert(s.tree_edge(adj, p));
    assert(edge(adj, q, u)) by {
        assert(adj[q as int]@[s.call[p].1 - 1] == u);
    }
    lemma_reaches_child(adj, q, u);
    assert forall|i: int| 0 <= i < t.call.len() implies #[trigger] t.low_ok(adj, i) by {
        assert(s.low_ok(adj, i));
        let x = s.call[i].0;
        assert(t.cd(i) == s.cd(i));
        if t.low[x as int] == s.low[x as int] {
            let k = choose|k: int|
                0 <= k < s.stack.len() && #[trigger] s.sd(k) == s.low[x as int] && reaches(
                    adj,
                    x,
                    s.stack[k],
                );
            assert(t.sd(k) == t.low[x as int]);
        } else {
            lemma_reaches_trans(adj, q, u, s.stack[w]);
            assert(t.sd(w) == t.low[x as int]);
        }
    }
    assert forall|i: int, k: int| #[trigger] t.seg_ok(adj, i, k) by {
        if t.in_segment(i, k) {
            let j = if i == p && s.sd(k) >= s.cd(last) {
                last
            } else {
                i
            };
            assert(s.seg_ok(adj, j, k));
            if i < p {
                assert(t.cd(i + 1) == s.cd(i + 1));
            }
            assert(s.in_segment(j, k));
            if j == last && s.stack[k] == q {
                assert(s.sd(k) == s.cd(p));
            }
            if j != last && s.stack[k] == u {
                assert(s.sd(k) == s.cd(last));
            }
            assert forall|e: int| 0 <= e < t.followed(adj, i, k) implies t.edge_ok(
                i,
                #[trigger] adj[t.stack[k] as int]@[e],
            ) by {
                assert(e < s.followed(adj, j, k));
                assert(s.edge_ok(j, adj[s.stack[k] as int]@[e]));
            }
        }
    }
    p
}

/// Membership in the new component.
proof fn lemma_emitted_members(s: SearchView, n: nat, adj: Seq<Vec<u32>>, p: int)
    requires
        s.shape(n, adj),
        0 <= p < s.stack.len(),
    ensures
        forall|x: u32|
            x < n ==> (#[trigger] s.stack.skip(p).reverse().contains(x) <==> s.on[x as int]
                && s.disc[x as int] >= s.sd(p)),
        forall|j: int|
            0 <= j < s.stack.len() - p ==> #[trigger] s.stack.skip(p).reverse()[j]
                == s.stack[s.stack.len() - 1 - j],
{
    let comp = s.stack.skip(p).reverse();
    assert forall|j: int| 0 <= j < s.stack.len() - p implies #[trigger] comp[j]
        == s.stack[s.stack.len() - 1 - j] by {}
    assert forall|x: u32| x < n implies (#[trigger] comp.contains(x) <==> s.on[x as int]
        && s.disc[x as int] >= s.sd(p)) by {
        if comp.contains(x) {
            let j = choose|j: int| 0 <= j < comp.len() && comp[j] == x;
            let k = s.stack.len() - 1 - j;
            assert(s.stack[k] == x);
            if k > p {
                assert(s.sd(p) < s.sd(k));
            }
        }
        if s.on[x as int] && s.disc[x as int] >= s.sd(p) {
            assert(s.stack.contains(x));
            let k = choose|k: int| 0 <= k < s.stack.len() && s.stack[k] == x;
            if k < p {
                assert(s.sd(k) < s.sd(p));
            }
            assert(comp[s.stack.len() - 1 - k] == x);
        }
    }
}

/// The newest open vertex `u`, all of whose edges were followed and which reaches no
/// earlier vertex, is closed: the stack from `u` on is a component.
proof fn lemma_emit(s: SearchView, n: nat, adj: Seq<Vec<u32>>, p: int)
    requires
        s.inv(n, adj),
        s.call.len() > 0,
        s.call.last().1 == adj[s.call.last().0 as int]@.len(),
        s.low[s.call.last().0 as int] == s.disc[s.call.last().0 as int],
        0 <= p < s.stack.len(),
        s.stack[p] == s.call.last().0,
    ensures
        s.close().emit(p).inv(n, adj),
{
    let last = s.call.len() - 1;
    let u = s.call[last].0;
    let t = s.close().emit(p);
    let m = s.sccs.len() as int;
    let comp = s.stack.skip(p).reverse();
    lemma_emitted_members(s, n, adj, p);
    assert(t.sccs == s.sccs.push(comp));
    assert(s.sd(p) == s.cd(last));
    assert forall|k: int| 0 <= k < p implies t.sd(k) == #[trigger] s.sd(k) && t.stack[k]
        == s.stack[k] && s.sd(k) < s.sd(p) by {}
    assert forall|i: int| 0 <= i < last implies t.cd(i) == #[trigger] s.cd(i) && t.call[i]
        == s.call[i] && s.cd(i) < s.cd(last) by {}
    assert(t.shape(n, adj)) by {
        assert forall|i: int, j: int|
            0 <= i < t.call.len() && 0 <= j < t.call.len() && i < j implies #[trigger] t.cd(i)
            < #[trigger] t.cd(j) by {
            assert(t.cd(i) == s.cd(i) && t.cd(j) == s.cd(j));
        }
        assert forall|k: int, l: int|
            0 <= k < t.stack.len() && 0 <= l < t.stack.len() && k < l implies #[trigger] t.sd(k)
            < #[trigger] t.sd(l) by {
            assert(t.sd(k) == s.sd(k) && t.sd(l) == s.sd(l));
        }
        assert forall|i: int| 0 <= i < t.call.len() implies (#[trigger] t.call[i]).0 < n
            && t.on[t.call[i].0 as int] && t.call[i].1 <= adj[t.call[i].0 as int]@.len() by {
            assert(s.call[i].0 < n);
            assert(s.cd(i) < s.cd(last));
        }
        assert forall|k: int| 0 <= k < t.stack.len() implies (#[trigger] t.stack[k]) < n
            && t.on[t.stack[k] as int] && t.seen(t.stack[k]) by {
            assert(s.stack[k] < n);
            assert(s.sd(k) < s.sd(p));
        }
        assert forall|x: u32| x < n && #[trigger] t.on[x as int] implies t.stack.contains(x) by {
            assert(s.on[x as int]);
            assert(s.stack.contains(x));
            let k = choose|k: int| 0 <= k < s.stack.len() && s.stack[k] == x;
            if k > p {
                assert(s.sd(p) < s.sd(k));
            }
            assert(t.stack[k] == x);
        }
    }
    assert(t.comps(n, adj)) by {
        assert forall|c: int| 0 <= c < m implies t.sccs[c] == #[trigger] s.sccs[c] by {}
        assert(t.sccs[m] == comp);
        assert forall|x: u32| x < n implies (#[trigger] placed(t.sccs, m + 1, x) <==> t.seen(x)
            && !t.on[x as int]) by {
            assert(placed(s.sccs, m, x) <==> s.seen(x) && !s.on[x as int]);
            assert(comp.contains(x) <==> s.on[x as int] && s.disc[x as int] >= s.sd(p));
            if placed(t.sccs, m + 1, x) {
                let c = choose|c: int| 0 <= c < m + 1 && (#[trigger] t.sccs[c]).contains(x);
                if c < m {
                    assert(s.sccs[c].contains(x));
                } else {
                    let k = choose|k: int| 0 <= k < s.stack.len() && s.stack[k] == x;
                    assert(s.stack.contains(x));
                    assert(s.seen(s.stack[k]));
                }
            }
            if t.seen(x) && !t.on[x as int] {
                if s.on[x as int] {
                    assert(t.sccs[m].contains(x));
                } else {
                    let c = choose|c: int| 0 <= c < m && (#[trigger] s.sccs[c]).contains(x);
                    assert(t.sccs[c].contains(x));
                }
            }
        }
        assert forall|c: int, j: int|
            0 <= c < m + 1 && 0 <= j < t.sccs[c].len() implies #[trigger] t.sccs[c][j] < n by {
            if c < m {
                assert(s.sccs[c][j] < n);
            } else {
                assert(comp[j] == s.stack[s.stack.len() - 1 - j]);
            }
        }
        assert forall|c: int| 0 <= c < m + 1 implies (#[trigger] t.sccs[c]).len() > 0 by {
            if c < m {
                assert(s.sccs[c].len() > 0);
            }
        }
        assert forall|c: int, j: int, d: int, l: int|
            0 <= c < m + 1 && 0 <= j < t.sccs[c].len() && 0 <= d < m + 1 && 0 <= l
                < t.sccs[d].len() && #[trigger] t.sccs[c][j] == #[trigger] t.sccs[d][l] implies c
            == d && j == l by {
            let x = t.sccs[c][j];
            assert(x < n);
            if c < m {
                assert(s.sccs[c].contains(s.sccs[c][j]));
                assert(placed(s.sccs, m, x));
            }
            if d < m {
                assert(s.sccs[d].contains(s.sccs[d][l]));
                assert(placed(s.sccs, m, x));
            }
            if c == m {
                assert(comp.contains(comp[j]));
            }
            if d == m {
                assert(comp.contains(comp[l]));
            }
            if c < m && d < m {
                assert(s.sccs[c][j] == s.sccs[d][l]);
            } else if c == m && d == m {
                let a = s.stack.len() - 1 - j;
                let b = s.stack.len() - 1 - l;
                assert(comp[j] == s.stack[a] && comp[l] == s.stack[b]);
                if a < b {
                    assert(s.sd(a) < s.sd(b));
                } else if b < a {
                    assert(s.sd(b) < s.sd(a));
                }
            }
        }
        assert forall|c: int, j: int, l: int|
            0 <= c < m + 1 && 0 <= j < t.sccs[c].len() && 0 <= l < t.sccs[c].len() implies reaches(
            adj,
            #[trigger] t.sccs[c][j],
            #[trigger] t.sccs[c][l],
        ) by {
            if c < m {
                assert(reaches(adj, s.sccs[c][j], s.sccs[c][l]));
            } else {
                let a = s.stack.len() - 1 - j;
                let b = s.stack.len() - 1 - l;
                assert(comp[j] == s.stack[a] && comp[l] == s.stack[b]);
                lemma_reaches_newest(s, n, adj, a);
                assert(reaches(adj, s.stack[p], s.stack[b]));
                lemma_reaches_trans(adj, s.stack[a], u, s.stack[b]);
            }
        }
        assert forall|c: int, j: int, e: int|
            0 <= c < m + 1 && 0 <= j < t.sccs[c].len() && 0 <= e
                < adj[t.sccs[c][j] as int]@.len() implies placed(
            t.sccs,
            c + 1,
            #[trigger] adj[t.sccs[c][j] as int]@[e],
        ) by {
            let y = adj[t.sccs[c][j] as int]@[e];
            if c < m {
                assert(s.sccs[c][j] == t.sccs[c][j]);
                assert(placed(s.sccs, c + 1, adj[s.sccs[c][j] as int]@[e]));
                let d = choose|d: int| 0 <= d < c + 1 && (#[trigger] s.sccs[d]).contains(y);
                assert(t.sccs[d].contains(y));
            } else {
                let k = s.stack.len() - 1 - j;
                assert(comp[j] == s.stack[k]);
                assert(s.stack[k] < n);
                assert(y < n);
                if k > p {
                    assert(s.sd(p) < s.sd(k));
                }
                assert(s.in_segment(last, k));
                assert(s.seg_ok(adj, last, k));
                assert(s.edge_ok(last, adj[s.stack[k] as int]@[e]));
                if s.on[y as int] {
                    assert(comp.contains(y));
                    assert(t.sccs[m].contains(y));
                } else {
                    assert(placed(s.sccs, m, y));
                    let d = choose|d: int| 0 <= d < m && (#[trigger] s.sccs[d]).contains(y);
                    assert(t.sccs[d].contains(y));
                }
            }
        }
    }
    assert(t.paths(adj)) by {
        assert forall|i: int| 0 <= i < t.call.len() - 1 implies #[trigger] t.tree_edge(adj, i) by {
            assert(s.tree_edge(adj, i));
        }
        assert forall|k: int, l: int| 0 <= k <= l < t.stack.len() implies reaches(
            adj,
            #[trigger] t.stack[k],
            #[trigger] t.stack[l],
        ) by {
            assert(reaches(adj, s.stack[k], s.stack[l]));
        }
        assert forall|k: int| 0 <= k < t.stack.len() implies #[trigger] t.comes_back(adj, k) by {
            assert(s.comes_back(adj, k));
            let i = choose|i: int|
                0 <= i < s.call.len() && #[trigger] s.cd(i) <= s.sd(k) && reaches(
                    adj,
                    s.stack[k],
                    s.call[i].0,
                );
            assert(s.sd(k) < s.sd(p));
            assert(i != last);
            assert(t.cd(i) <= t.sd(k));
        }
    }
    assert forall|i: int| 0 <= i < t.call.len() implies #[trigger] t.low_ok(adj, i) by {
        assert(s.low_ok(adj, i));
        let x = s.call[i].0;
        assert(s.cd(i) < s.cd(last));
        let k = choose|k: int|
            0 <= k < s.stack.len() && #[trigger] s.sd(k) == s.low[x as int] && reaches(
                adj,
                x,
                s.stack[k],
            );
        if k > p {
            assert(s.sd(p) < s.sd(k));
        }
        assert(k < p);
        assert(t.sd(k) == t.low[x as int]);
    }
    assert forall|i: int, k: int| #[trigger] t.seg_ok(adj, i, k) by {
        if t.in_segment(i, k) {
            assert(s.seg_ok(adj, i, k));
            assert(s.sd(k) < s.sd(p));
            if i + 1 < last {
                assert(t.cd(i + 1) == s.cd(i + 1));
            }
            assert(s.in_segment(i, k));
            assert forall|e: int| 0 <= e < t.followed(adj, i, k) implies t.edge_ok(
                i,
                #[trigger] adj[t.stack[k] as int]@[e],
            ) by {
                assert(s.edge_ok(i, adj[s.stack[k] as int]@[e]));
            }
        }
    }
}

impl SearchView {
    /// Edges of the newest open vertex that were not followed yet.
    spec fn left(self, adj: Seq<Vec<u32>>) -> int {
        if self.call.len() == 0 {
            0
        } else {
            adj[self.call.last().0 as int]@.len() - self.call.last().1
        }
    }

    /// `next` is closer to the end of the search, and what was visited stays so.
    spec fn progress(self, next: SearchView, adj: Seq<Vec<u32>>) -> bool {
        &&& forall|x: u32|
            self.seen(x) && x < self.disc.len() ==> #[trigger] next.seen(x)
        &&& next.counter > self.counter || (next.counter == self.counter && (next.call.len()
            < self.call.len() || (next.call.len() == self.call.len() && next.left(adj)
            < self.left(adj))))
    }
}

impl Search {
    /// Opens `v` as the newest vertex.
    fn open(&mut self, v: u32)
        requires
            v < old(self)@.disc.len(),
            v < old(self)@.low.len(),
            v < old(self)@.on.len(),
            old(self).counter < UNSEEN,
        ensures
            final(self)@ == old(self)@.open(v),
    {
        self.disc.set(v as usize, self.counter);
        self.low.set(v as usize, self.counter);
        self.on_stack.set(v as usize, true);
        self.tstack.push(v);
        self.call.push((v, 0));
        self.counter = self.counter + 1;
    }

    /// Lowers the low number of `u` to `d`, if that is less.
    fn lower(&mut self, u: u32, d: u32)
        requires
            u < old(self)@.low.len(),
        ensures
            final(self)@ == old(self)@.lower(u, d),
    {
        if d < self.low[u as usize] {
            self.low.set(u as usize, d);
        }
        assert(self@ =~= old(self)@.lower(u, d));
    }

    /// Makes a component of the stack from the closed vertex `u` on.
    fn emit(
        &mut self,
        u: u32,
        Ghost(n): Ghost<nat>,
        Ghost(adj): Ghost<Seq<Vec<u32>>>,
        Ghost(p): Ghost<int>,
    )
        requires
            n <= u32::MAX,
            old(self)@.shape(n, adj),
            0 <= p < old(self)@.stack.len(),
            old(self)@.stack[p] == u,
        ensures
            final(self)@ == old(self)@.emit(p),
    {
        let ghost s = self@;
        let mut comp: Vec<u32> = Vec::new();
        let mut open: bool = true;
        assert(s.stack.skip(s.stack.len() as int).reverse() =~= comp@);
        while open
            invariant
                n <= u32::MAX,
                s.shape(n, adj),
                0 <= p < s.stack.len(),
                s.stack[p] == u,
                self.disc@ == s.disc,
                self.low@ == s.low,
                self.call@ == s.call,
                members(self.sccs@) == s.sccs,
                self.counter == s.counter,
                self.on_stack@.len() == s.on.len(),
                p <= self.tstack@.len() <= s.stack.len(),
                open <==> self.tstack@.len() > p,
                self.tstack@ == s.stack.take(self.tstack@.len() as int),
                comp@ == s.stack.skip(self.tstack@.len() as int).reverse(),
                forall|x: int|
                    0 <= x < s.on.len() ==> #[trigger] self.on_stack@[x] == (s.on[x]
                        && !comp@.contains(x as u32)),
            decreases self.tstack@.len(),
        {
            let ghost len = self.tstack@.len() as int;
            let ghost c0 = comp@;
            let ghost on0 = self.on_stack@;
            match self.tstack.pop() {
                None => {},
                Some(w) => {
                    assert(w == s.stack[len - 1]);
                    self.on_stack.set(w as usize, false);
                    comp.push(w);
                    assert(comp@ =~= s.stack.skip(len - 1).reverse());
                    assert(self.tstack@ =~= s.stack.take(len - 1));
                    assert forall|x: int| 0 <= x < s.on.len() implies #[trigger] self.on_stack@[x]
                        == (s.on[x] && !comp@.contains(x as u32)) by {
                        assert(on0[x] == (s.on[x] && !c0.contains(x as u32)));
                        if x == w {
                            assert(comp@[c0.len() as int] == w);
                        } else if c0.contains(x as u32) {
                            let j = choose|j: int| 0 <= j < c0.len() && c0[j] == x as u32;
                            assert(comp@[j] == x as u32);
                        } else if comp@.contains(x as u32) {
                            let j = choose|j: int| 0 <= j < comp@.len() && comp@[j] == x as u32;
                            assert(c0[j] == x as u32);
                        }
                    }
                    if w == u {
                        proof {
                            if len - 1 > p {
                                assert(s.sd(p) < s.sd(len - 1));
                            }
                        }
                        open = false;
                    } else {
                        assert(len - 1 != p);
                    }
                },
            }
        }
        proof {
            lemma_emitted_members(s, n, adj, p);
            let t = s.emit(p);
            assert forall|x: int| 0 <= x < s.on.len() implies #[trigger] self.on_stack@[x]
                == t.on[x] by {
                let y = x as u32;
                assert(comp@.contains(y) <==> s.on[y as int] && s.disc[y as int] >= s.sd(p));
            }
            assert(self.on_stack@ =~= t.on);
        }
        self.sccs.push(comp);
        assert(members(self.sccs@) =~= s.sccs.push(comp@));
    }

    /// Follows an edge of the newest open vertex, or closes it.
    fn step(&mut self, n: usize, adj: &Vec<Vec<u32>>)
        requires
            old(self)@.inv(n as nat, adj@),
            old(self)@.call.len() > 0,
        ensures
            final(self)@.inv(n as nat, adj@),
            old(self)@.progress(final(self)@, adj@),
            moves(old(self)@, final(self)@, adj@),
    {
        let ghost s = self@;
        let last: usize = self.call.len() - 1;
        let (u, ei): (u32, usize) = self.call[last];
        assert(s.call[last as int] == (u, ei));
        assert(u < n);
        let ch: &Vec<u32> = &adj[u as usize];
        if ei < ch.len() {
            let v: u32 = ch[ei];
            assert(adj@[u as int]@[ei as int] < n);
            self.call.set(last, (u, ei + 1));
            assert(self@ =~= s.follow());
            if self.disc[v as usize] == UNSEEN {
                proof {
                    lemma_descend(s, n as nat, adj@, v);
                }
                self.open(v);
            } else {
                if self.on_stack[v as usize] {
                    let d: u32 = self.disc[v as usize];
                    self.lower(u, d);
                }
                proof {
                    lemma_glance(s, self@, n as nat, adj@, v);
                    assert(self@.call.last() == (u, (ei + 1) as usize));
                }
            }
        } else {
            let _ = self.call.pop();
            assert(self@ =~= s.close());
            let low_u: u32 = self.low[u as usize];
            if low_u == self.disc[u as usize] {
                if last > 0 {
                    let p: u32 = self.call[last - 1].0;
                    proof {
                        assert(s.low_ok(adj@, last - 1));
                        assert(s.cd(last - 1) < s.cd(last as int));
                        assert(s.call[last - 1].0 < n);
                    }
                    self.lower(p, low_u);
                    assert(self@ =~= s.close());
                }
                let ghost p = lemma_open_position(s, n as nat, adj@, last as int);
                proof {
                    lemma_emit(s, n as nat, adj@, p);
                    assert(s.close().shape(n as nat, adj@)) by {
                        lemma_close_shape(s, n as nat, adj@);
                    }
                }
                self.emit(u, Ghost(n as nat), Ghost(adj@), Ghost(p));
            } else {
                let ghost p = lemma_close(s, n as nat, adj@);
                let q: u32 = self.call[last - 1].0;
                assert(s.call[last - 1].0 < n);
                self.lower(q, low_u);
            }
        }
    }
}

proof fn lemma_close_shape(s: SearchView, n: nat, adj: Seq<Vec<u32>>)
    requires
        s.shape(n, adj),
        s.call.len() > 0,
    ensures
        s.close().shape(n, adj),
{
    let t = s.close();
    assert forall|i: int, j: int|
        0 <= i < t.call.len() && 0 <= j < t.call.len() && i < j implies #[trigger] t.cd(i)
        < #[trigger] t.cd(j) by {
        assert(t.cd(i) == s.cd(i) && t.cd(j) == s.cd(j));
    }
    assert forall|k: int, l: int|
        0 <= k < t.stack.len() && 0 <= l < t.stack.len() && k < l implies #[trigger] t.sd(k)
        < #[trigger] t.sd(l) by {
        assert(t.sd(k) == s.sd(k) && t.sd(l) == s.sd(l));
    }
    assert forall|i: int| 0 <= i < t.call.len() implies (#[trigger] t.call[i]).0 < n
        && t.on[t.call[i].0 as int] && t.call[i].1 <= adj[t.call[i].0 as int]@.len() by {
        assert(s.call[i].0 < n);
    }
    assert forall|x: u32| x < n && #[trigger] t.on[x as int] implies t.stack.contains(x) by {
        assert(s.on[x as int]);
    }
}

/// Every edge of a finished search leads into the same component or an earlier one, so
/// vertices of different components do not reach each other.
proof fn lemma_finished(s: SearchView, n: nat, adj: Seq<Vec<u32>>)
    requires
        s.inv(n, adj),
        s.call.len() == 0,
        forall|x: u32| x < n ==> #[trigger] s.seen(x),
    ensures
        condenses(n, adj, s.sccs),
{
    let m = s.sccs.len() as int;
    lemma_idle(s, n, adj);
    assert forall|x: u32| x < n implies #[trigger] placed(s.sccs, m, x) by {
        assert(s.seen(x));
        if s.on[x as int] {
            assert(s.stack.contains(x));
        }
    }
    assert forall|c: int, j: int, d: int, l: int|
        0 <= c < m && 0 <= j < s.sccs[c].len() && 0 <= d < m && 0 <= l < s.sccs[d].len() implies (c
        == d <==> mutual(adj, #[trigger] s.sccs[c][j], #[trigger] s.sccs[d][l])) by {
        let x = s.sccs[c][j];
        let y = s.sccs[d][l];
        if c == d {
            assert(reaches(adj, s.sccs[c][j], s.sccs[c][l]));
            assert(reaches(adj, s.sccs[c][l], s.sccs[c][j]));
        }
        if mutual(adj, x, y) {
            lemma_order(s, n, adj, c, j, d, l);
            lemma_order(s, n, adj, d, l, c, j);
        }
    }
}

/// What a vertex reaches lies in no later component.
proof fn lemma_order(s: SearchView, n: nat, adj: Seq<Vec<u32>>, c: int, j: int, d: int, l: int)
    requires
        digraph(n, adj),
        s.comps(n, adj),
        0 <= c < s.sccs.len(),
        0 <= j < s.sccs[c].len(),
        0 <= d < s.sccs.len(),
        0 <= l < s.sccs[d].len(),
        reaches(adj, s.sccs[c][j], s.sccs[d][l]),
    ensures
        d <= c,
{
    let inside = |x: u32| placed(s.sccs, c + 1, x);
    assert(s.sccs[c].contains(s.sccs[c][j]));
    assert forall|v: u32, w: u32| inside(v) && #[trigger] edge(adj, v, w) implies inside(w) by {
        let b = choose|b: int| 0 <= b < c + 1 && (#[trigger] s.sccs[b]).contains(v);
        let k = choose|k: int| 0 <= k < s.sccs[b].len() && s.sccs[b][k] == v;
        let e = choose|e: int| 0 <= e < adj[v as int]@.len() && adj[v as int]@[e] == w;
        assert(placed(s.sccs, b + 1, adj[s.sccs[b][k] as int]@[e]));
        let a = choose|a: int| 0 <= a < b + 1 && (#[trigger] s.sccs[a]).contains(w);
        assert(s.sccs[a].contains(w));
    }
    lemma_reaches_closed(adj, inside, s.sccs[c][j], s.sccs[d][l]);
    let y = s.sccs[d][l];
    let b = choose|b: int| 0 <= b < c + 1 && (#[trigger] s.sccs[b]).contains(y);
    let k = choose|k: int| 0 <= k < s.sccs[b].len() && s.sccs[b][k] == y;
    assert(s.sccs[b][k] == s.sccs[d][l]);
}

// ------------------------------------------------------------------------ order

/// `t` is what one step makes of `s`, as far as order goes.
spec fn moves(s: SearchView, t: SearchView, adj: Seq<Vec<u32>>) -> bool {
    let last = s.call.len() - 1;
    let (u, e) = s.call[last];
    if e < adj[u as int]@.len() {
        let v = adj[u as int]@[e as int];
        let call = s.call.update(last, (u, (e + 1) as usize));
        &&& t.sccs == s.sccs
        &&& if s.seen(v) {
            t.call == call && t.disc == s.disc && t.counter == s.counter
        } else {
            &&& t.call == call.push((v, 0))
            &&& t.disc == s.disc.update(v as int, s.counter as u32)
            &&& t.counter == s.counter + 1
        }
    } else {
        &&& t.call == s.call.drop_last()
        &&& t.disc == s.disc
        &&& t.counter == s.counter
        &&& t.sccs == s.sccs || exists|p: int|
            0 <= p < s.stack.len() && #[trigger] s.stack[p] == u && t.sccs == s.sccs.push(
                s.stack.skip(p).reverse(),
            )
    }
}

/// The walk `w` goes as the search `s` does.
spec fn tracks(s: SearchView, w: Walk, n: nat) -> bool {
    &&& w.call == s.call
    &&& w.pre.len() == s.counter
    &&& forall|i: int|
        0 <= i < w.pre.len() ==> (#[trigger] w.pre[i]) < n && s.disc[w.pre[i] as int] == i
    &&& forall|x: u32|
        x < n && #[trigger] s.seen(x) ==> s.disc[x as int] < w.pre.len()
            && w.pre[s.disc[x as int] as int] == x
    &&& w.post.no_duplicates()
    &&& forall|i: int, j: int|
        0 <= i < w.post.len() && 0 <= j < s.call.len() ==> #[trigger] w.post[i]
            != (#[trigger] s.call[j]).0
    &&& forall|i: int| 0 <= i < w.post.len() ==> #[trigger] w.post[i] < n && s.seen(w.post[i])
    &&& forall|c: int, j: int, l: int|
        0 <= c < s.sccs.len() && 0 <= j < l < s.sccs[c].len() ==> s.disc[
            #[trigger] s.sccs[c][j] as int
        ] > s.disc[#[trigger] s.sccs[c][l] as int]
    &&& forall|c: int| 0 <= c < s.sccs.len() ==> w.post.contains((#[trigger] s.sccs[c]).last())
    &&& forall|c: int, d: int, a: int, b: int|
        0 <= c < d < s.sccs.len() && #[trigger] holds_at(w.post, s.sccs[c].last(), a)
            && #[trigger] holds_at(w.post, s.sccs[d].last(), b) ==> a < b
}

/// A vertex is discovered by the walk if and only if the search has seen it.
proof fn lemma_discovered(s: SearchView, w: Walk, n: nat, x: u32)
    requires
        tracks(s, w, n),
        s.disc.len() == n,
        s.counter <= u32::MAX,
        x < n,
    ensures
        w.pre.contains(x) <==> s.seen(x),
{
    if w.pre.contains(x) {
        let i = choose|i: int| 0 <= i < w.pre.len() && w.pre[i] == x;
        assert(s.disc[w.pre[i] as int] == i);
    }
    if s.seen(x) {
        assert(w.pre[s.disc[x as int] as int] == x);
    }
}

/// Opening a new vertex keeps the walk and the search together.
proof fn lemma_track_open(s: SearchView, t: SearchView, w: Walk, x: Walk, n: nat, v: u32)
    requires
        tracks(s, w, n),
        s.disc.len() == n,
        n <= u32::MAX,
        s.counter < u32::MAX,
        v < n,
        !s.seen(v),
        forall|c: int, j: int|
            0 <= c < s.sccs.len() && 0 <= j < s.sccs[c].len() ==> (#[trigger] s.sccs[c][j]) < n
                && s.seen(s.sccs[c][j]),
        t.disc == s.disc.update(v as int, s.counter as u32),
        t.counter == s.counter + 1,
        t.sccs == s.sccs,
        x.call == t.call,
        x.pre == w.pre.push(v),
        x.post == w.post,
        forall|i: int, j: int|
            0 <= i < w.post.len() && 0 <= j < t.call.len() ==> #[trigger] w.post[i]
                != (#[trigger] t.call[j]).0,
    ensures
        tracks(t, x, n),
{
    assert forall|i: int| 0 <= i < x.pre.len() implies (#[trigger] x.pre[i]) < n && t.disc[
        x.pre[i] as int
    ] == i by {
        if i < w.pre.len() {
            assert(x.pre[i] == w.pre[i]);
            assert(s.disc[w.pre[i] as int] == i);
        }
    }
    assert forall|y: u32| y < n && #[trigger] t.seen(y) implies t.disc[y as int] < x.pre.len()
        && x.pre[t.disc[y as int] as int] == y by {
        if y != v {
            assert(s.seen(y));
        }
    }
    assert forall|i: int| 0 <= i < x.post.len() implies #[trigger] x.post[i] < n && t.seen(
        x.post[i],
    ) by {
        assert(s.seen(w.post[i]));
    }
    assert forall|c: int, j: int, l: int|
        0 <= c < t.sccs.len() && 0 <= j < l < t.sccs[c].len() implies t.disc[
        #[trigger] t.sccs[c][j] as int
    ] > t.disc[#[trigger] t.sccs[c][l] as int] by {
        assert(s.seen(s.sccs[c][j]) && s.seen(s.sccs[c][l]));
        assert(s.disc[s.sccs[c][j] as int] > s.disc[s.sccs[c][l] as int]);
    }
}

/// The members of the components were seen.
proof fn lemma_placed_seen(s: SearchView, n: nat, adj: Seq<Vec<u32>>)
    requires
        s.inv(n, adj),
    ensures
        forall|c: int, j: int|
            0 <= c < s.sccs.len() && 0 <= j < s.sccs[c].len() ==> (#[trigger] s.sccs[c][j]) < n
                && s.seen(s.sccs[c][j]),
{
    assert forall|c: int, j: int|
        0 <= c < s.sccs.len() && 0 <= j < s.sccs[c].len() implies (#[trigger] s.sccs[c][j]) < n
        && s.seen(s.sccs[c][j]) by {
        let x = s.sccs[c][j];
        assert(s.sccs[c].contains(x));
        assert(placed(s.sccs, s.sccs.len() as int, x));
    }
}

/// A step of the search is a step of the walk.
proof fn lemma_track_step(
    s: SearchView,
    t: SearchView,
    w: Walk,
    n: nat,
    adj: Seq<Vec<u32>>,
)
    requires
        n <= u32::MAX,
        s.inv(n, adj),
        s.call.len() > 0,
        moves(s, t, adj),
        tracks(s, w, n),
        t.disc.len() == n,
        s.counter < u32::MAX || t.counter == s.counter,
    ensures
        tracks(t, stepped(n, adj, w), n),
{
    let x = stepped(n, adj, w);
    let last = s.call.len() - 1;
    let (u, e) = s.call[last];
    lemma_placed_seen(s, n, adj);
    assert(s.call[last].0 < n);
    assert(s.counter <= n) by {
        lemma_count_bound(n, visited(s.disc));
    }
    if e < adj[u as int]@.len() {
        let v = adj[u as int]@[e as int];
        assert(adj[u as int]@[e as int] < n);
        lemma_discovered(s, w, n, v);
        if s.seen(v) {
            assert forall|y: u32| y < n && #[trigger] t.seen(y) implies t.disc[y as int] < x.pre.len()
                && x.pre[t.disc[y as int] as int] == y by {
                assert(s.seen(y));
            }
            assert forall|i: int| 0 <= i < x.post.len() implies #[trigger] x.post[i] < n && t.seen(
                x.post[i],
            ) by {
                assert(s.seen(w.post[i]));
            }
            assert forall|c: int, j: int, l: int|
                0 <= c < t.sccs.len() && 0 <= j < l < t.sccs[c].len() implies t.disc[
                #[trigger] t.sccs[c][j] as int
            ] > t.disc[#[trigger] t.sccs[c][l] as int] by {
                assert(s.disc[s.sccs[c][j] as int] > s.disc[s.sccs[c][l] as int]);
            }
            assert forall|i: int, j: int|
                0 <= i < x.post.len() && 0 <= j < t.call.len() implies #[trigger] x.post[i] != (
            #[trigger] t.call[j]).0 by {
                assert(w.post[i] != s.call[j].0);
            }
        } else {
            assert forall|i: int, j: int|
                0 <= i < w.post.len() && 0 <= j < t.call.len() implies #[trigger] w.post[i] != (
            #[trigger] t.call[j]).0 by {
                if j < s.call.len() {
                    assert(w.post[i] != s.call[j].0);
                } else {
                    assert(s.seen(w.post[i]));
                }
            }
            lemma_track_open(s, t, w, x, n, v);
        }
    } else {
        lemma_track_close(s, t, w, n, adj);
    }
}

/// Closing the newest vertex keeps the walk and the search together.
proof fn lemma_track_close(
    s: SearchView,
    t: SearchView,
    w: Walk,
    n: nat,
    adj: Seq<Vec<u32>>,
)
    requires
        n <= u32::MAX,
        s.inv(n, adj),
        s.call.len() > 0,
        s.call.last().1 >= adj[s.call.last().0 as int]@.len(),
        moves(s, t, adj),
        tracks(s, w, n),
    ensures
        tracks(t, stepped(n, adj, w), n),
{
    let x = stepped(n, adj, w);
    let last = s.call.len() - 1;
    let u = s.call[last].0;
    let m = s.sccs.len() as int;
    assert(s.call[last].0 < n && s.on[u as int]);
    assert(s.stack.contains(u));
    let q = choose|q: int| 0 <= q < s.stack.len() && s.stack[q] == u;
    assert(s.seen(s.stack[q]));
    if w.post.contains(u) {
        let i = choose|i: int| 0 <= i < w.post.len() && w.post[i] == u;
        assert(w.post[i] != s.call[last].0);
    }
    assert(x.post == w.post.push(u));
    assert forall|y: u32| y < n && #[trigger] t.seen(y) implies t.disc[y as int] < x.pre.len()
        && x.pre[t.disc[y as int] as int] == y by {
        assert(s.seen(y));
    }
    assert forall|i: int, j: int|
        0 <= i < x.post.len() && 0 <= j < t.call.len() implies #[trigger] x.post[i] != (
    #[trigger] t.call[j]).0 by {
        assert(t.call[j] == s.call[j]);
        if i < w.post.len() {
            assert(x.post[i] == w.post[i]);
        } else {
            assert(s.cd(j) < s.cd(last));
        }
    }
    assert forall|i: int| 0 <= i < x.post.len() implies #[trigger] x.post[i] < n && t.seen(
        x.post[i],
    ) by {
        if i < w.post.len() {
            assert(s.seen(w.post[i]));
        }
    }
    if t.sccs != s.sccs {
        let p = choose|p: int|
            0 <= p < s.stack.len() && #[trigger] s.stack[p] == u && t.sccs == s.sccs.push(
                s.stack.skip(p).reverse(),
            );
        let comp = s.stack.skip(p).reverse();
        assert(comp.last() == u);
        assert forall|c: int, j: int, l: int|
            0 <= c < t.sccs.len() && 0 <= j < l < t.sccs[c].len() implies t.disc[
            #[trigger] t.sccs[c][j] as int
        ] > t.disc[#[trigger] t.sccs[c][l] as int] by {
            if c < m {
                assert(s.disc[s.sccs[c][j] as int] > s.disc[s.sccs[c][l] as int]);
            } else {
                let a = s.stack.len() - 1 - j;
                let b = s.stack.len() - 1 - l;
                assert(comp[j] == s.stack[a] && comp[l] == s.stack[b]);
                assert(s.sd(b) < s.sd(a));
            }
        }
    } else {
        assert forall|c: int, j: int, l: int|
            0 <= c < t.sccs.len() && 0 <= j < l < t.sccs[c].len() implies t.disc[
            #[trigger] t.sccs[c][j] as int
        ] > t.disc[#[trigger] t.sccs[c][l] as int] by {
            assert(s.disc[s.sccs[c][j] as int] > s.disc[s.sccs[c][l] as int]);
        }
    }
    assert forall|c: int| 0 <= c < t.sccs.len() implies x.post.contains(
        (#[trigger] t.sccs[c]).last(),
    ) by {
        if c < m {
            let y = s.sccs[c].last();
            assert(w.post.contains(s.sccs[c].last()));
            let i = choose|i: int| 0 <= i < w.post.len() && w.post[i] == y;
            assert(x.post[i] == y);
        } else {
            assert(x.post[w.post.len() as int] == u);
        }
    }
    assert forall|c: int, d: int, a: int, b: int|
        0 <= c < d < t.sccs.len() && #[trigger] holds_at(x.post, t.sccs[c].last(), a)
            && #[trigger] holds_at(x.post, t.sccs[d].last(), b) implies a < b by {
        assert(w.post.contains(s.sccs[c].last()));
        assert(t.sccs[c] == s.sccs[c]);
        if a < w.post.len() {
            assert(holds_at(w.post, s.sccs[c].last(), a));
        }
        if d < m {
            assert(w.post.contains(s.sccs[d].last()));
            if b < w.post.len() {
                assert(holds_at(w.post, s.sccs[d].last(), b));
            }
        }
    }
    assert(x.post.no_duplicates()) by {
        assert forall|i: int, j: int|
            0 <= i < x.post.len() && 0 <= j < x.post.len() && i != j implies x.post[i]
            != x.post[j] by {
            if i < w.post.len() {
                assert(w.post.contains(w.post[i]));
            }
            if j < w.post.len() {
                assert(w.post.contains(w.post[j]));
            }
        }
    }
}

/// Opening the next root is a step of the walk.
proof fn lemma_track_root(
    s: SearchView,
    t: SearchView,
    n: nat,
    adj: Seq<Vec<u32>>,
    k: nat,
    v: u32,
)
    requires
        n <= u32::MAX,
        s.inv(n, adj),
        s.call.len() == 0,
        tracks(s, walked(n, adj, k), n),
        v < n,
        !s.seen(v),
        s.counter < u32::MAX,
        forall|x: u32| x < v ==> #[trigger] s.seen(x),
        t == s.open(v),
    ensures
        tracks(t, walked(n, adj, k + 1), n),
{
    let w = walked(n, adj, k);
    assert forall|y: u32| y < v implies #[trigger] w.pre.contains(y) by {
        assert(s.seen(y));
        lemma_discovered(s, w, n, y);
    }
    lemma_discovered(s, w, n, v);
    assert(comes_next(n, w.pre, v));
    let x = choose|x: u32| comes_next(n, w.pre, x);
    if x < v {
        assert(w.pre.contains(x));
    }
    if v < x {
        assert(w.pre.contains(v));
    }
    lemma_placed_seen(s, n, adj);
    assert forall|i: int, j: int|
        0 <= i < w.post.len() && 0 <= j < t.call.len() implies #[trigger] w.post[i] != (
    #[trigger] t.call[j]).0 by {
        assert(s.seen(w.post[i]));
    }
    lemma_track_open(s, t, w, walked(n, adj, k + 1), n, v);
}

/// What the finished search says of the order.
proof fn lemma_track_end(s: SearchView, w: Walk, n: nat, adj: Seq<Vec<u32>>)
    requires
        n <= u32::MAX,
        s.inv(n, adj),
        s.call.len() == 0,
        tracks(s, w, n),
        forall|x: u32| x < n ==> #[trigger] s.seen(x),
    ensures
        ended(n, w),
        listed_by(w, s.sccs),
{
    lemma_count_bound(n, visited(s.disc));
    assert forall|x: u32| x < n implies #[trigger] w.pre.contains(x) by {
        assert(s.seen(x));
        lemma_discovered(s, w, n, x);
    }
    assert forall|c: int, j: int, l: int, a: int, b: int|
        0 <= c < s.sccs.len() && 0 <= j < l < s.sccs[c].len() && #[trigger] holds_at(
            w.pre,
            s.sccs[c][j],
            a,
        ) && #[trigger] holds_at(w.pre, s.sccs[c][l], b) implies b < a by {
        assert(s.disc[w.pre[a] as int] == a);
        assert(s.disc[w.pre[b] as int] == b);
        assert(s.disc[s.sccs[c][j] as int] > s.disc[s.sccs[c][l] as int]);
    }
}

/// Strongly connected components of the digraph on `n` vertices: an iterative depth-first
/// search that emits a component once all that it reaches is emitted.
pub fn tarjan_scc(n: usize, adj: &Vec<Vec<u32>>) -> (sccs: Vec<Vec<u32>>)
    requires
        digraph(n as nat, adj@),
    ensures
        condenses(n as nat, adj@, members(sccs@)),
        walk_order(n as nat, adj@, members(sccs@)),
{
    let mut disc: Vec<u32> = Vec::new();
    let mut low: Vec<u32> = Vec::new();
    let mut on_stack: Vec<bool> = Vec::new();
    while disc.len() < n
        invariant
            disc@.len() <= n,
            low@.len() == disc@.len(),
            on_stack@.len() == disc@.len(),
            forall|x: int| 0 <= x < disc@.len() ==> #[trigger] disc@[x] == UNSEEN,
            forall|x: int| 0 <= x < on_stack@.len() ==> !(#[trigger] on_stack@[x]),
        decreases n - disc@.len(),
    {
        disc.push(UNSEEN);
        low.push(0);
        on_stack.push(false);
    }
    let mut search: Search = Search {
        disc,
        low,
        on_stack,
        tstack: Vec::new(),
        call: Vec::new(),
        sccs: Vec::new(),
        counter: 0,
    };
    proof {
        let s = search@;
        lemma_count_none(n as nat, visited(s.disc));
        assert(s.sccs.len() == 0);
        assert forall|x: u32| x < n implies (#[trigger] placed(s.sccs, 0, x) <==> s.seen(x)
            && !s.on[x as int]) by {
            assert(s.disc[x as int] == UNSEEN);
        }
        assert forall|i: int, k: int| #[trigger] s.seg_ok(adj@, i, k) by {}
    }
    let ghost mut k: nat = 0;
    proof {
        assert(search@.call.len() == 0);
        assert(walked(n as nat, adj@, 0).call =~= search@.call);
        assert(tracks(search@, walked(n as nat, adj@, k), n as nat));
    }
    let mut start: usize = 0;
    while start < n
        invariant
            start <= n,
            n <= u32::MAX,
            tracks(search@, walked(n as nat, adj@, k), n as nat),
            search@.inv(n as nat, adj@),
            search@.call.len() == 0,
            forall|x: u32| x < start ==> #[trigger] search@.seen(x),
        decreases n - start,
    {
        assert(search.disc@.len() == n);
        if search.disc[start] == UNSEEN {
            proof {
                lemma_root(search@, n as nat, adj@, start as u32);
            }
            let ghost before = search@;
            search.open(start as u32);
            proof {
                lemma_track_root(before, search@, n as nat, adj@, k, start as u32);
                k = k + 1;
            }
            assert forall|x: u32| x <= start implies #[trigger] search@.seen(x) by {
                if x < start {
                    assert(before.seen(x));
                }
            }
            while search.call.len() > 0
                invariant
                    start < n,
                    n <= u32::MAX,
                    tracks(search@, walked(n as nat, adj@, k), n as nat),
                    search@.inv(n as nat, adj@),
                    forall|x: u32| x <= start ==> #[trigger] search@.seen(x),
                decreases n - search@.counter, search@.call.len(), search@.left(adj@),
            {
                let ghost before = search@;
                search.step(n, adj);
                proof {
                    lemma_count_bound(n as nat, visited(search@.disc));
                    lemma_track_step(before, search@, walked(n as nat, adj@, k), n as nat, adj@);
                    k = k + 1;
                    let t = search@;
                    if t.call.len() > 0 {
                        assert(t.call[t.call.len() - 1].1 <= adj@[t.call[t.call.len()
                            - 1].0 as int]@.len());
                    }
                    assert forall|x: u32| x <= start implies #[trigger] search@.seen(x) by {
                        assert(before.seen(x));
                    }
                }
            }
        } else {
            assert forall|x: u32| x <= start implies #[trigger] search@.seen(x) by {}
        }
        start = start + 1;
    }
    proof {
        lemma_finished(search@, n as nat, adj@);
        lemma_track_end(search@, walked(n as nat, adj@, k), n as nat, adj@);
    }
    search.sccs
}

/// The components are in topological order: what a vertex reaches lies in no later one.
pub proof fn descendants_come_first(
    n: nat,
    adj: Seq<Vec<u32>>,
    sccs: Seq<Seq<u32>>,
    c: int,
    j: int,
    d: int,
    l: int,
)
    requires
        condenses(n, adj, sccs),
        0 <= c < sccs.len(),
        0 <= j < sccs[c].len(),
        0 <= d < sccs.len(),
        0 <= l < sccs[d].len(),
        reaches(adj, sccs[c][j], sccs[d][l]),
    ensures
        d <= c,
{
    let inside = |x: u32| placed(sccs, c + 1, x);
    assert(sccs[c].contains(sccs[c][j]));
    assert forall|v: u32, w: u32| inside(v) && #[trigger] edge(adj, v, w) implies inside(w) by {
        let b = choose|b: int| 0 <= b < c + 1 && (#[trigger] sccs[b]).contains(v);
        let k = choose|k: int| 0 <= k < sccs[b].len() && sccs[b][k] == v;
        let e = choose|e: int| 0 <= e < adj[v as int]@.len() && adj[v as int]@[e] == w;
        assert(placed(sccs, b + 1, adj[sccs[b][k] as int]@[e]));
        let a = choose|a: int| 0 <= a < b + 1 && (#[trigger] sccs[a]).contains(w);
        assert(sccs[a].contains(w));
    }
    lemma_reaches_closed(adj, inside, sccs[c][j], sccs[d][l]);
    let y = sccs[d][l];
    let b = choose|b: int| 0 <= b < c + 1 && (#[trigger] sccs[b]).contains(y);
    let k = choose|k: int| 0 <= k < sccs[b].len() && sccs[b][k] == y;
    assert(sccs[b][k] == sccs[d][l]);
}

// ------------------------------------------------------------------- uniqueness

/// The keys fall along the sequence.
spec fn falls(s: Seq<u32>, key: spec_fn(u32) -> int) -> bool {
    forall|i: int, j: int| 0 <= i < j < s.len() ==> key(#[trigger] s[i]) > key(#[trigger] s[j])
}

/// Sequences with the same elements and falling keys are equal.
proof fn lemma_falling_unique(s: Seq<u32>, t: Seq<u32>, key: spec_fn(u32) -> int)
    requires
        falls(s, key),
        falls(t, key),
        forall|x: u32| #[trigger] s.contains(x) <==> t.contains(x),
    ensures
        s == t,
    decreases s.len(),
{
    if s.len() == 0 {
        if t.len() > 0 {
            assert(t.contains(t[0]));
            assert(s.contains(t[0]));
        }
        assert(s =~= t);
    } else {
        let x = s[0];
        assert(s.contains(x));
        let j = choose|j: int| 0 <= j < t.len() && t[j] == x;
        let y = t[0];
        assert(t.contains(y));
        assert(s.contains(y));
        let i = choose|i: int| 0 <= i < s.len() && s[i] == y;
        if j > 0 {
            assert(key(t[0]) > key(t[j]));
            if i > 0 {
                assert(key(s[0]) > key(s[i]));
            }
        }
        assert(x == y);
        let a = s.drop_first();
        let b = t.drop_first();
        assert forall|z: u32| #[trigger] a.contains(z) <==> b.contains(z) by {
            if a.contains(z) {
                let k = choose|k: int| 0 <= k < a.len() && a[k] == z;
                assert(s[k + 1] == z);
                assert(key(s[0]) > key(s[k + 1]));
                assert(s.contains(z));
                let l = choose|l: int| 0 <= l < t.len() && t[l] == z;
                assert(b[l - 1] == z);
            }
            if b.contains(z) {
                let k = choose|k: int| 0 <= k < b.len() && b[k] == z;
                assert(t[k + 1] == z);
                assert(key(t[0]) > key(t[k + 1]));
                assert(t.contains(z));
                assert(s.contains(z));
                let l = choose|l: int| 0 <= l < s.len() && s[l] == z;
                assert(a[l - 1] == z);
            }
        }
        assert(falls(a, key)) by {
            assert forall|k: int, l: int| 0 <= k < l < a.len() implies key(#[trigger] a[k]) > key(
                #[trigger] a[l],
            ) by {
                assert(key(s[k + 1]) > key(s[l + 1]));
            }
        }
        assert(falls(b, key)) by {
            assert forall|k: int, l: int| 0 <= k < l < b.len() implies key(#[trigger] b[k]) > key(
                #[trigger] b[l],
            ) by {
                assert(key(t[k + 1]) > key(t[l + 1]));
            }
        }
        lemma_falling_unique(a, b, key);
        assert(s =~= seq![x] + a);
        assert(t =~= seq![y] + b);
    }
}

/// Position of `x` in `s`.
spec fn place_in(s: Seq<u32>) -> spec_fn(u32) -> int {
    |x: u32| s.index_of(x)
}

proof fn lemma_component_falls(n: nat, w: Walk, sccs: Seq<Seq<u32>>, c: int)
    requires
        ended(n, w),
        listed_by(w, sccs),
        0 <= c < sccs.len(),
        forall|j: int| 0 <= j < sccs[c].len() ==> (#[trigger] sccs[c][j]) < n,
    ensures
        falls(sccs[c], place_in(w.pre)),
{
    let key = place_in(w.pre);
    assert forall|i: int, j: int| 0 <= i < j < sccs[c].len() implies key(#[trigger] sccs[c][i])
        > key(#[trigger] sccs[c][j]) by {
        let (x, y) = (sccs[c][i], sccs[c][j]);
        assert(w.pre.contains(x) && w.pre.contains(y));
        assert(holds_at(w.pre, sccs[c][i], w.pre.index_of(x)));
        assert(holds_at(w.pre, sccs[c][j], w.pre.index_of(y)));
    }
}

/// A component of one list stands in the other.
proof fn lemma_component_found(
    n: nat,
    adj: Seq<Vec<u32>>,
    w: Walk,
    a: Seq<Seq<u32>>,
    b: Seq<Seq<u32>>,
    c: int,
) -> (d: int)
    requires
        condenses(n, adj, a),
        condenses(n, adj, b),
        ended(n, w),
        listed_by(w, a),
        listed_by(w, b),
        0 <= c < a.len(),
    ensures
        0 <= d < b.len(),
        b[d] == a[c],
{
    assert(a[c].len() > 0);
    let x = a[c][0];
    assert(a[c][0] < n);
    assert(placed(b, b.len() as int, x));
    let d = choose|d: int| 0 <= d < b.len() && (#[trigger] b[d]).contains(x);
    let j = choose|j: int| 0 <= j < b[d].len() && b[d][j] == x;
    assert forall|y: u32| #[trigger] a[c].contains(y) <==> b[d].contains(y) by {
        if a[c].contains(y) {
            let l = choose|l: int| 0 <= l < a[c].len() && a[c][l] == y;
            assert(mutual(adj, a[c][0], a[c][l]));
            assert(a[c][l] < n);
            assert(placed(b, b.len() as int, y));
            let e = choose|e: int| 0 <= e < b.len() && (#[trigger] b[e]).contains(y);
            let q = choose|q: int| 0 <= q < b[e].len() && b[e][q] == y;
            assert(d == e <==> mutual(adj, b[d][j], b[e][q]));
        }
        if b[d].contains(y) {
            let l = choose|l: int| 0 <= l < b[d].len() && b[d][l] == y;
            assert(mutual(adj, b[d][j], b[d][l]));
            assert(b[d][l] < n);
            assert(placed(a, a.len() as int, y));
            let e = choose|e: int| 0 <= e < a.len() && (#[trigger] a[e]).contains(y);
            let q = choose|q: int| 0 <= q < a[e].len() && a[e][q] == y;
            assert(c == e <==> mutual(adj, a[c][0], a[e][q]));
        }
    }
    lemma_component_falls(n, w, a, c);
    lemma_component_falls(n, w, b, d);
    lemma_falling_unique(a[c], b[d], place_in(w.pre));
    d
}

proof fn lemma_components_prefix(
    n: nat,
    adj: Seq<Vec<u32>>,
    w: Walk,
    a: Seq<Seq<u32>>,
    b: Seq<Seq<u32>>,
    m: int,
)
    requires
        condenses(n, adj, a),
        condenses(n, adj, b),
        ended(n, w),
        listed_by(w, a),
        listed_by(w, b),
        0 <= m <= a.len(),
    ensures
        m <= b.len(),
        forall|c: int| 0 <= c < m ==> #[trigger] a[c] == b[c],
    decreases m,
{
    if m > 0 {
        lemma_components_prefix(n, adj, w, a, b, m - 1);
        let k = m - 1;
        let d = lemma_component_found(n, adj, w, a, b, k);
        assert(a[k].len() > 0);
        if d < k {
            assert(a[d] == b[d]);
            assert(a[d][0] == a[k][0]);
        }
        if d > k {
            let e = lemma_component_found(n, adj, w, b, a, k);
            assert(b[k].len() > 0);
            if e < k {
                assert(a[e] == b[e]);
                assert(b[e][0] == b[k][0]);
            }
            if e == k {
                assert(b[k][0] == b[d][0]);
            }
            let (x, y) = (a[k].last(), b[k].last());
            assert(w.post.contains(a[k].last()));
            assert(w.post.contains(b[k].last()));
            let i = w.post.index_of(x);
            let j = w.post.index_of(y);
            assert(holds_at(w.post, a[k].last(), i) && holds_at(w.post, a[e].last(), j));
            assert(holds_at(w.post, b[k].last(), j) && holds_at(w.post, b[d].last(), i));
        }
    }
}

/// The components and their order are determined: there is one list of them in the order of
/// the depth-first walk.
pub proof fn components_are_determined(
    n: nat,
    adj: Seq<Vec<u32>>,
    a: Seq<Seq<u32>>,
    b: Seq<Seq<u32>>,
)
    requires
        condenses(n, adj, a),
        condenses(n, adj, b),
        walk_order(n, adj, a),
        walk_order(n, adj, b),
    ensures
        a == b,
{
    let i = choose|k: nat| #[trigger]
        ended(n, walked(n, adj, k)) && listed_by(walked(n, adj, k), a);
    let j = choose|k: nat| #[trigger]
        ended(n, walked(n, adj, k)) && listed_by(walked(n, adj, k), b);
    walk_ends_once(n, adj, i, j);
    let w = walked(n, adj, i);
    lemma_components_prefix(n, adj, w, a, b, a.len() as int);
    lemma_components_prefix(n, adj, w, b, a, b.len() as int);
    assert(a =~= b);
}

} // verus!
