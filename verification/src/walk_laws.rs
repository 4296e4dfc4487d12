//! The order in which components and their members are listed.
use vstd::prelude::*;

use crate::reach::{
    digraph, edge, lemma_reaches_child, lemma_reaches_self, lemma_reaches_trans, reaches,
};
use crate::scc::{condenses, descendants_come_first};
use crate::walk::{comes_next, ended, holds_at, listed_by, walk_order, walked, Walk};

verus! {

/// All children of vertex `x` have been seen.
pub open spec fn exhausted(adj: Seq<Vec<u32>>, seen: Seq<u32>, x: u32) -> bool {
    forall|k: int| 0 <= k < adj[x as int]@.len() ==> seen.contains(#[trigger] adj[x as int]@[k])
}

/// `v` is the first child of the seen vertex at place `j`, by edge `e`, that has not been seen,
/// and all children of the vertices seen later have been.
pub open spec fn found_from(
    adj: Seq<Vec<u32>>,
    seen: Seq<u32>,
    v: u32,
    j: int,
    e: int,
) -> bool {
    &&& 0 <= j < seen.len()
    &&& 0 <= e < adj[seen[j] as int]@.len()
    &&& adj[seen[j] as int]@[e] == v
    &&& forall|k: int| 0 <= k < e ==> seen.contains(#[trigger] adj[seen[j] as int]@[k])
    &&& forall|i: int| j < i < seen.len() ==> exhausted(adj, seen, #[trigger] seen[i])
}

/// A depth-first search that has seen some vertices comes to `v` next: from the vertex seen
/// last that has an unseen child; or, if there is none, as the first unseen vertex.
pub open spec fn follows(n: nat, adj: Seq<Vec<u32>>, seen: Seq<u32>, v: u32) -> bool {
    &&& v < n
    &&& !seen.contains(v)
    &&& {
        ||| exists|j: int, e: int| #[trigger] found_from(adj, seen, v, j, e)
        ||| (forall|i: int| 0 <= i < seen.len() ==> exhausted(adj, seen, #[trigger] seen[i]))
            && forall|y: u32| y < v ==> #[trigger] seen.contains(y)
    }
}

/// The vertex at place `i` follows those before it.
pub open spec fn in_turn(n: nat, adj: Seq<Vec<u32>>, pre: Seq<u32>, i: int) -> bool {
    follows(n, adj, pre.take(i), pre[i])
}

spec fn is_open(w: Walk, x: u32) -> bool {
    exists|i: int| 0 <= i < w.call.len() && (#[trigger] w.call[i]).0 == x
}

/// The open vertices stand in the order of their discovery, and what was followed is seen.
spec fn calls_ok(n: nat, adj: Seq<Vec<u32>>, w: Walk) -> bool {
    &&& w.pre.no_duplicates()
    &&& forall|i: int| 0 <= i < w.pre.len() ==> #[trigger] w.pre[i] < n
    &&& forall|i: int|
        0 <= i < w.call.len() ==> w.pre.contains((#[trigger] w.call[i]).0) && w.call[i].1
            <= adj[w.call[i].0 as int]@.len()
    &&& forall|i: int, j: int, a: int, b: int|
        0 <= i < j < w.call.len() && #[trigger] holds_at(w.pre, w.call[i].0, a)
            && #[trigger] holds_at(w.pre, w.call[j].0, b) ==> a < b
    &&& forall|i: int, k: int|
        0 <= i < w.call.len() && 0 <= k < w.call[i].1 ==> w.pre.contains(
            #[trigger] adj[w.call[i].0 as int]@[k],
        )
}

/// Every seen vertex is open or closed, and the children of closed ones are seen.
spec fn closed_ok(adj: Seq<Vec<u32>>, w: Walk) -> bool {
    &&& w.post.no_duplicates()
    &&& forall|x: u32| #[trigger] w.pre.contains(x) ==> is_open(w, x) || w.post.contains(x)
    &&& forall|x: u32| #[trigger]
        w.post.contains(x) ==> w.pre.contains(x) && !is_open(w, x) && exhausted(adj, w.pre, x)
}

/// An open vertex reaches all that was seen after it.
spec fn open_reach(adj: Seq<Vec<u32>>, w: Walk) -> bool {
    forall|i: int, a: int, b: int|
        0 <= i < w.call.len() && #[trigger] holds_at(w.pre, w.call[i].0, a) && a < b < w.pre.len()
            ==> reaches(adj, w.call[i].0, #[trigger] w.pre[b])
}

/// A vertex reaches all that was seen after it and closed before it.
spec fn closed_reach(adj: Seq<Vec<u32>>, w: Walk) -> bool {
    forall|q: int, a: int, b: int|
        0 <= a < b < w.pre.len() && #[trigger] holds_at(w.post, w.pre[b], q) && !w.post.take(
            q,
        ).contains(#[trigger] w.pre[a]) ==> reaches(adj, w.pre[a], w.pre[b])
}

spec fn turns_ok(n: nat, adj: Seq<Vec<u32>>, w: Walk) -> bool {
    forall|i: int| 0 <= i < w.pre.len() ==> #[trigger] in_turn(n, adj, w.pre, i)
}

spec fn walk_ok(n: nat, adj: Seq<Vec<u32>>, w: Walk) -> bool {
    &&& calls_ok(n, adj, w)
    &&& closed_ok(adj, w)
    &&& open_reach(adj, w)
    &&& closed_reach(adj, w)
    &&& turns_ok(n, adj, w)
}

proof fn lemma_pushed(s: Seq<u32>, v: u32)
    ensures
        forall|x: u32| #[trigger] s.push(v).contains(x) <==> s.contains(x) || x == v,
        forall|x: u32, a: int|
            a < s.len() ==> (#[trigger] holds_at(s.push(v), x, a) <==> holds_at(s, x, a)),
        forall|x: u32| #[trigger] holds_at(s.push(v), x, s.len() as int) <==> x == v,
{
    let t = s.push(v);
    assert forall|x: u32| #[trigger] t.contains(x) <==> s.contains(x) || x == v by {
        if s.contains(x) {
            let i = choose|i: int| 0 <= i < s.len() && s[i] == x;
            assert(t[i] == x);
        }
        if x == v {
            assert(t[s.len() as int] == x);
        }
        if t.contains(x) && x != v {
            let i = choose|i: int| 0 <= i < t.len() && t[i] == x;
            assert(s[i] == x);
        }
    }
}

/// A vertex is opened behind the open ones, of which it is a child of the last.
proof fn lemma_opened(n: nat, adj: Seq<Vec<u32>>, w: Walk, call: Seq<(u32, usize)>, v: u32)
    requires
        digraph(n, adj),
        walk_ok(n, adj, w),
        v < n,
        !w.pre.contains(v),
        call.len() == w.call.len(),
        forall|i: int| 0 <= i < call.len() ==> (#[trigger] call[i]).0 == w.call[i].0,
        forall|i: int| 0 <= i < call.len() - 1 ==> #[trigger] call[i] == w.call[i],
        call.len() > 0 ==> {
            let (u, e) = w.call.last();
            call.last() == (u, (e + 1) as usize) && e < adj[u as int]@.len() && adj[u as int]@[
                e as int
            ] == v
        },
        call.len() == 0 ==> comes_next(n, w.pre, v),
    ensures
        walk_ok(n, adj, (Walk { call: call.push((v, 0)), pre: w.pre.push(v), ..w })),
{
    let t = Walk { call: call.push((v, 0)), pre: w.pre.push(v), ..w };
    let m = w.pre.len() as int;
    lemma_pushed(w.pre, v);
    assert forall|x: u32| #[trigger] is_open(t, x) <==> is_open(w, x) || x == v by {
        if is_open(w, x) {
            let i = choose|i: int| 0 <= i < w.call.len() && (#[trigger] w.call[i]).0 == x;
            assert(call[i].0 == x);
            assert(t.call[i].0 == x);
        }
        if x == v {
            assert(t.call[call.len() as int].0 == x);
        }
        if is_open(t, x) && x != v {
            let i = choose|i: int| 0 <= i < t.call.len() && (#[trigger] t.call[i]).0 == x;
            assert(call[i].0 == x);
            assert(w.call[i].0 == x);
        }
    }
    assert(calls_ok(n, adj, t)) by {
        assert forall|i: int| 0 <= i < t.call.len() implies t.pre.contains(
            (#[trigger] t.call[i]).0,
        ) && t.call[i].1 <= adj[t.call[i].0 as int]@.len() by {
            if i < call.len() {
                assert(call[i].0 == w.call[i].0);
                assert(w.pre.contains(w.call[i].0));
                if i < call.len() - 1 {
                    assert(call[i] == w.call[i]);
                }
            }
        }
        assert forall|i: int, j: int, a: int, b: int|
            0 <= i < j < t.call.len() && #[trigger] holds_at(t.pre, t.call[i].0, a)
                && #[trigger] holds_at(t.pre, t.call[j].0, b) implies a < b by {
            assert(call[i].0 == w.call[i].0);
            assert(w.pre.contains(w.call[i].0));
            assert(a < m);
            if j < call.len() {
                assert(call[j].0 == w.call[j].0);
                assert(w.pre.contains(w.call[j].0));
                assert(b < m);
                assert(holds_at(w.pre, w.call[i].0, a));
                assert(holds_at(w.pre, w.call[j].0, b));
            } else if b < m {
                assert(w.pre[b] == v);
            }
        }
        assert forall|i: int, k: int|
            0 <= i < t.call.len() && 0 <= k < t.call[i].1 implies t.pre.contains(
            #[trigger] adj[t.call[i].0 as int]@[k],
        ) by {
            assert(call[i].0 == w.call[i].0);
            if k < w.call[i].1 {
                assert(w.pre.contains(adj[w.call[i].0 as int]@[k]));
            } else if i < call.len() - 1 {
                assert(call[i] == w.call[i]);
            }
        }
        assert forall|i: int| 0 <= i < t.pre.len() implies #[trigger] t.pre[i] < n by {
            if i < m {
                assert(w.pre[i] < n);
            }
        }
        assert forall|i: int, j: int|
            0 <= i < t.pre.len() && 0 <= j < t.pre.len() && i != j implies t.pre[i]
            != t.pre[j] by {
            if i < m {
                assert(w.pre.contains(w.pre[i]));
            }
            if j < m {
                assert(w.pre.contains(w.pre[j]));
            }
        }
    }
    assert(closed_ok(adj, t)) by {
        assert forall|x: u32| #[trigger] t.pre.contains(x) implies is_open(t, x)
            || t.post.contains(x) by {
            if x != v {
                assert(w.pre.contains(x));
                assert(is_open(t, x) <==> is_open(w, x) || x == v);
            } else {
                assert(is_open(t, x) <==> is_open(w, x) || x == v);
            }
        }
        assert forall|x: u32| #[trigger] t.post.contains(x) implies t.pre.contains(x)
            && !is_open(t, x) && exhausted(adj, t.pre, x) by {
            assert(w.post.contains(x));
            assert(w.pre.contains(x));
            assert(is_open(t, x) <==> is_open(w, x) || x == v);
            assert forall|k: int| 0 <= k < adj[x as int]@.len() implies t.pre.contains(
                #[trigger] adj[x as int]@[k],
            ) by {
                assert(w.pre.contains(adj[x as int]@[k]));
            }
        }
    }
    assert(open_reach(adj, t)) by {
        assert forall|i: int, a: int, b: int|
            0 <= i < t.call.len() && #[trigger] holds_at(t.pre, t.call[i].0, a) && a < b
                < t.pre.len() implies reaches(adj, t.call[i].0, #[trigger] t.pre[b]) by {
            if i < call.len() {
                assert(call[i].0 == w.call[i].0);
                assert(holds_at(w.pre, w.call[i].0, a));
                if b < m {
                    assert(t.pre[b] == w.pre[b]);
                } else {
                    let last = call.len() - 1;
                    let u = w.call[last].0;
                    assert(w.pre.contains(u));
                    let c = choose|c: int| 0 <= c < m && w.pre[c] == u;
                    assert(holds_at(w.pre, w.call[last].0, c));
                    if i < last {
                        assert(a < c);
                        assert(reaches(adj, w.call[i].0, w.pre[c]));
                    } else {
                        lemma_reaches_self(adj, u);
                    }
                    assert(edge(adj, u, v));
                    lemma_reaches_child(adj, u, v);
                    lemma_reaches_trans(adj, w.call[i].0, u, v);
                }
            } else {
                assert(t.call[i].0 == v);
                if a < m {
                    assert(w.pre[a] == v);
                }
            }
        }
    }
    assert(closed_reach(adj, t)) by {
        assert forall|q: int, a: int, b: int|
            0 <= a < b < t.pre.len() && #[trigger] holds_at(t.post, t.pre[b], q)
                && !t.post.take(q).contains(#[trigger] t.pre[a]) implies reaches(
            adj,
            t.pre[a],
            t.pre[b],
        ) by {
            assert(w.post.contains(w.post[q]));
            assert(w.pre.contains(w.post[q]));
            assert(b < m);
            assert(t.pre[a] == w.pre[a] && t.pre[b] == w.pre[b]);
            assert(holds_at(w.post, w.pre[b], q));
        }
    }
    assert(turns_ok(n, adj, t)) by {
        assert forall|i: int| 0 <= i < t.pre.len() implies #[trigger] in_turn(n, adj, t.pre, i) by {
            if i < m {
                assert(in_turn(n, adj, w.pre, i));
                assert(t.pre.take(i) =~= w.pre.take(i));
            } else {
                assert(t.pre.take(m) =~= w.pre);
                lemma_turn(n, adj, w, v);
            }
        }
    }
}

/// The vertex that is opened next follows those that were seen.
proof fn lemma_turn(n: nat, adj: Seq<Vec<u32>>, w: Walk, v: u32)
    requires
        walk_ok(n, adj, w),
        v < n,
        !w.pre.contains(v),
        w.call.len() > 0 ==> {
            let (u, e) = w.call.last();
            e < adj[u as int]@.len() && adj[u as int]@[e as int] == v
        },
        w.call.len() == 0 ==> comes_next(n, w.pre, v),
    ensures
        follows(n, adj, w.pre, v),
{
    if w.call.len() == 0 {
        assert forall|i: int| 0 <= i < w.pre.len() implies exhausted(
            adj,
            w.pre,
            #[trigger] w.pre[i],
        ) by {
            assert(w.pre.contains(w.pre[i]));
            assert(w.post.contains(w.pre[i]));
        }
    } else {
        let last = w.call.len() - 1;
        let (u, e) = w.call[last];
        assert(w.pre.contains(w.call[last].0));
        let j = choose|j: int| 0 <= j < w.pre.len() && w.pre[j] == u;
        assert(holds_at(w.pre, w.call[last].0, j));
        assert forall|i: int| j < i < w.pre.len() implies exhausted(
            adj,
            w.pre,
            #[trigger] w.pre[i],
        ) by {
            let x = w.pre[i];
            assert(w.pre.contains(x));
            if is_open(w, x) {
                let p = choose|p: int| 0 <= p < w.call.len() && (#[trigger] w.call[p]).0 == x;
                assert(holds_at(w.pre, w.call[p].0, i));
                if p < last {
                    assert(i < j);
                }
            }
            assert(w.post.contains(x));
        }
        assert forall|k: int| 0 <= k < e implies w.pre.contains(
            #[trigger] adj[w.pre[j] as int]@[k],
        ) by {
            assert(w.pre.contains(adj[w.call[last].0 as int]@[k]));
        }
        assert(found_from(adj, w.pre, v, j, e as int));
    }
}

/// The newest open vertex is closed.
proof fn lemma_closed(n: nat, adj: Seq<Vec<u32>>, w: Walk)
    requires
        digraph(n, adj),
        walk_ok(n, adj, w),
        w.call.len() > 0,
        w.call.last().1 >= adj[w.call.last().0 as int]@.len(),
    ensures
        walk_ok(
            n,
            adj,
            (Walk { call: w.call.drop_last(), post: w.post.push(w.call.last().0), ..w }),
        ),
{
    let last = w.call.len() - 1;
    let u = w.call[last].0;
    let t = Walk { call: w.call.drop_last(), post: w.post.push(u), ..w };
    lemma_pushed(w.post, u);
    assert(w.pre.contains(w.call[last].0));
    let c = choose|c: int| 0 <= c < w.pre.len() && w.pre[c] == u;
    assert(holds_at(w.pre, w.call[last].0, c));
    assert(is_open(w, u));
    assert forall|x: u32| #[trigger] is_open(t, x) <==> is_open(w, x) && x != u by {
        if is_open(t, x) {
            let i = choose|i: int| 0 <= i < t.call.len() && (#[trigger] t.call[i]).0 == x;
            assert(w.call[i].0 == x);
            assert(w.pre.contains(w.call[i].0));
            let a = choose|a: int| 0 <= a < w.pre.len() && w.pre[a] == x;
            assert(holds_at(w.pre, w.call[i].0, a));
            assert(a < c);
        }
        if is_open(w, x) && x != u {
            let i = choose|i: int| 0 <= i < w.call.len() && (#[trigger] w.call[i]).0 == x;
            assert(t.call[i].0 == x);
        }
    }
    assert(calls_ok(n, adj, t)) by {
        assert forall|i: int| 0 <= i < t.call.len() implies t.pre.contains(
            (#[trigger] t.call[i]).0,
        ) && t.call[i].1 <= adj[t.call[i].0 as int]@.len() by {
            assert(w.pre.contains(w.call[i].0));
        }
        assert forall|i: int, j: int, a: int, b: int|
            0 <= i < j < t.call.len() && #[trigger] holds_at(t.pre, t.call[i].0, a)
                && #[trigger] holds_at(t.pre, t.call[j].0, b) implies a < b by {
            assert(holds_at(w.pre, w.call[i].0, a));
            assert(holds_at(w.pre, w.call[j].0, b));
        }
        assert forall|i: int, k: int|
            0 <= i < t.call.len() && 0 <= k < t.call[i].1 implies t.pre.contains(
            #[trigger] adj[t.call[i].0 as int]@[k],
        ) by {
            assert(w.pre.contains(adj[w.call[i].0 as int]@[k]));
        }
    }
    assert(closed_ok(adj, t)) by {
        assert(!w.post.contains(u));
        assert forall|i: int, j: int|
            0 <= i < t.post.len() && 0 <= j < t.post.len() && i != j implies t.post[i]
            != t.post[j] by {
            if i < w.post.len() {
                assert(w.post.contains(w.post[i]));
            }
            if j < w.post.len() {
                assert(w.post.contains(w.post[j]));
            }
        }
        assert forall|x: u32| #[trigger] t.pre.contains(x) implies is_open(t, x)
            || t.post.contains(x) by {
            assert(w.pre.contains(x));
            assert(is_open(t, x) <==> is_open(w, x) && x != u);
        }
        assert forall|x: u32| #[trigger] t.post.contains(x) implies t.pre.contains(x)
            && !is_open(t, x) && exhausted(adj, t.pre, x) by {
            assert(is_open(t, x) <==> is_open(w, x) && x != u);
            if x == u {
                assert forall|k: int| 0 <= k < adj[u as int]@.len() implies w.pre.contains(
                    #[trigger] adj[u as int]@[k],
                ) by {
                    assert(w.pre.contains(adj[w.call[last].0 as int]@[k]));
                }
            } else {
                assert(w.post.contains(x));
            }
        }
    }
    assert(open_reach(adj, t)) by {
        assert forall|i: int, a: int, b: int|
            0 <= i < t.call.len() && #[trigger] holds_at(t.pre, t.call[i].0, a) && a < b
                < t.pre.len() implies reaches(adj, t.call[i].0, #[trigger] t.pre[b]) by {
            assert(holds_at(w.pre, w.call[i].0, a));
            assert(reaches(adj, w.call[i].0, w.pre[b]));
        }
    }
    assert(closed_reach(adj, t)) by {
        assert forall|q: int, a: int, b: int|
            0 <= a < b < t.pre.len() && #[trigger] holds_at(t.post, t.pre[b], q)
                && !t.post.take(q).contains(#[trigger] t.pre[a]) implies reaches(
            adj,
            t.pre[a],
            t.pre[b],
        ) by {
            if q < w.post.len() {
                assert(t.post.take(q) =~= w.post.take(q));
                assert(holds_at(w.post, w.pre[b], q));
            } else {
                assert(t.post.take(q) =~= w.post);
                let x = w.pre[a];
                assert(w.pre.contains(x));
                let i = choose|i: int| 0 <= i < w.call.len() && (#[trigger] w.call[i]).0 == x;
                assert(holds_at(w.pre, w.call[i].0, a));
                assert(reaches(adj, w.call[i].0, w.pre[b]));
            }
        }
    }
    assert(turns_ok(n, adj, t)) by {
        assert forall|i: int| 0 <= i < t.pre.len() implies #[trigger] in_turn(n, adj, t.pre, i) by {
            assert(in_turn(n, adj, w.pre, i));
        }
    }
}

/// An edge leads to a vertex that was seen.
proof fn lemma_followed(n: nat, adj: Seq<Vec<u32>>, w: Walk)
    requires
        digraph(n, adj),
        walk_ok(n, adj, w),
        w.call.len() > 0,
        w.call.last().1 < adj[w.call.last().0 as int]@.len(),
        w.pre.contains(adj[w.call.last().0 as int]@[w.call.last().1 as int]),
    ensures
        walk_ok(
            n,
            adj,
            (Walk {
                call: w.call.update(
                    w.call.len() - 1,
                    (w.call.last().0, (w.call.last().1 + 1) as usize),
                ),
                ..w
            }),
        ),
{
    let last = w.call.len() - 1;
    let (u, e) = w.call[last];
    let t = Walk { call: w.call.update(last, (u, (e + 1) as usize)), ..w };
    assert forall|i: int| 0 <= i < t.call.len() implies (#[trigger] t.call[i]).0
        == w.call[i].0 by {}
    assert forall|x: u32| #[trigger] is_open(t, x) <==> is_open(w, x) by {
        if is_open(w, x) {
            let i = choose|i: int| 0 <= i < w.call.len() && (#[trigger] w.call[i]).0 == x;
            assert(t.call[i].0 == x);
        }
        if is_open(t, x) {
            let i = choose|i: int| 0 <= i < t.call.len() && (#[trigger] t.call[i]).0 == x;
            assert(w.call[i].0 == x);
        }
    }
    assert(calls_ok(n, adj, t)) by {
        assert forall|i: int| 0 <= i < t.call.len() implies t.pre.contains(
            (#[trigger] t.call[i]).0,
        ) && t.call[i].1 <= adj[t.call[i].0 as int]@.len() by {
            assert(w.pre.contains(w.call[i].0));
        }
        assert forall|i: int, j: int, a: int, b: int|
            0 <= i < j < t.call.len() && #[trigger] holds_at(t.pre, t.call[i].0, a)
                && #[trigger] holds_at(t.pre, t.call[j].0, b) implies a < b by {
            assert(t.call[i].0 == w.call[i].0 && t.call[j].0 == w.call[j].0);
            assert(holds_at(w.pre, w.call[i].0, a));
            assert(holds_at(w.pre, w.call[j].0, b));
        }
        assert forall|i: int, k: int|
            0 <= i < t.call.len() && 0 <= k < t.call[i].1 implies t.pre.contains(
            #[trigger] adj[t.call[i].0 as int]@[k],
        ) by {
            if k < w.call[i].1 {
                assert(w.pre.contains(adj[w.call[i].0 as int]@[k]));
            }
        }
    }
    assert(closed_ok(adj, t)) by {
        assert forall|x: u32| #[trigger] t.pre.contains(x) implies is_open(t, x)
            || t.post.contains(x) by {
            assert(w.pre.contains(x));
            assert(is_open(t, x) <==> is_open(w, x));
        }
        assert forall|x: u32| #[trigger] t.post.contains(x) implies t.pre.contains(x)
            && !is_open(t, x) && exhausted(adj, t.pre, x) by {
            assert(w.post.contains(x));
            assert(is_open(t, x) <==> is_open(w, x));
        }
    }
    assert(open_reach(adj, t)) by {
        assert forall|i: int, a: int, b: int|
            0 <= i < t.call.len() && #[trigger] holds_at(t.pre, t.call[i].0, a) && a < b
                < t.pre.len() implies reaches(adj, t.call[i].0, #[trigger] t.pre[b]) by {
            assert(holds_at(w.pre, w.call[i].0, a));
            assert(reaches(adj, w.call[i].0, w.pre[b]));
        }
    }
}

proof fn lemma_walk_ok(n: nat, adj: Seq<Vec<u32>>, k: nat)
    requires
        digraph(n, adj),
    ensures
        walk_ok(n, adj, walked(n, adj, k)),
    decreases k,
{
    if k > 0 {
        lemma_walk_ok(n, adj, (k - 1) as nat);
        let w = walked(n, adj, (k - 1) as nat);
        if w.call.len() == 0 {
            if exists|x: u32| comes_next(n, w.pre, x) {
                let x = choose|x: u32| comes_next(n, w.pre, x);
                lemma_opened(n, adj, w, w.call, x);
            }
        } else {
            let last = w.call.len() - 1;
            let (u, e) = w.call[last];
            if e < adj[u as int]@.len() {
                let v = adj[u as int]@[e as int];
                assert(w.pre.contains(w.call[last].0));
                let c = choose|c: int| 0 <= c < w.pre.len() && w.pre[c] == u;
                assert(w.pre[c] < n);
                assert(v < n);
                if w.pre.contains(v) {
                    lemma_followed(n, adj, w);
                } else {
                    lemma_opened(n, adj, w, w.call.update(last, (u, (e + 1) as usize)), v);
                }
            } else {
                lemma_closed(n, adj, w);
            }
        }
    }
}

/// The components are listed as a depth-first search finds them. It sees every vertex once:
/// always the first unseen child of the vertex seen last that has one, or the first unseen
/// vertex. The members of a component are listed from the last one seen to the first. Of two
/// components, the one that was seen first is listed first, unless it reaches the other one.
pub proof fn components_come_depth_first(
    n: nat,
    adj: Seq<Vec<u32>>,
    sccs: Seq<Seq<u32>>,
) -> (pre: Seq<u32>)
    requires
        digraph(n, adj),
        condenses(n, adj, sccs),
        walk_order(n, adj, sccs),
    ensures
        pre.no_duplicates(),
        forall|x: u32| x < n <==> #[trigger] pre.contains(x),
        forall|i: int| 0 <= i < pre.len() ==> #[trigger] in_turn(n, adj, pre, i),
        forall|c: int, j: int, l: int, a: int, b: int|
            0 <= c < sccs.len() && 0 <= j < l < sccs[c].len() && #[trigger] holds_at(
                pre,
                sccs[c][j],
                a,
            ) && #[trigger] holds_at(pre, sccs[c][l], b) ==> b < a,
        forall|c: int, d: int, a: int, b: int|
            0 <= c < sccs.len() && 0 <= d < sccs.len() && c != d && #[trigger] holds_at(
                pre,
                sccs[c].last(),
                a,
            ) && #[trigger] holds_at(pre, sccs[d].last(), b) && a < b ==> (c < d <==> !reaches(
                adj,
                sccs[c].last(),
                sccs[d].last(),
            )),
{
    let k = choose|k: nat| #[trigger]
        ended(n, walked(n, adj, k)) && listed_by(walked(n, adj, k), sccs);
    let w = walked(n, adj, k);
    lemma_walk_ok(n, adj, k);
    assert forall|x: u32| x < n <==> #[trigger] w.pre.contains(x) by {
        if w.pre.contains(x) {
            let i = choose|i: int| 0 <= i < w.pre.len() && w.pre[i] == x;
            assert(w.pre[i] < n);
        }
    }
    assert forall|c: int, d: int, a: int, b: int|
        0 <= c < sccs.len() && 0 <= d < sccs.len() && c != d && #[trigger] holds_at(
            w.pre,
            sccs[c].last(),
            a,
        ) && #[trigger] holds_at(w.pre, sccs[d].last(), b) && a < b implies (c < d <==> !reaches(
        adj,
        sccs[c].last(),
        sccs[d].last(),
    )) by {
        let (x, y) = (sccs[c].last(), sccs[d].last());
        assert(sccs[c].len() > 0 && sccs[d].len() > 0);
        if reaches(adj, x, y) {
            descendants_come_first(
                n,
                adj,
                sccs,
                c,
                sccs[c].len() - 1,
                d,
                sccs[d].len() - 1,
            );
        } else {
            assert(w.post.contains(sccs[c].last()));
            assert(w.post.contains(sccs[d].last()));
            let p = choose|p: int| 0 <= p < w.post.len() && w.post[p] == x;
            let q = choose|q: int| 0 <= q < w.post.len() && w.post[q] == y;
            assert(holds_at(w.post, sccs[c].last(), p));
            assert(holds_at(w.post, sccs[d].last(), q));
            if q < p {
                if w.post.take(q).contains(x) {
                    let r = choose|r: int| 0 <= r < q && w.post.take(q)[r] == x;
                    assert(w.post[r] == w.post[p]);
                }
                assert(holds_at(w.post, w.pre[b], q));
                assert(w.pre[a] == x);
            }
            if d < c {
                assert(q < p);
            }
        }
    }
    w.pre
}

} // verus!
