//! Depth-first walks.
use vstd::prelude::*;

verus! {

/// State of a depth-first walk over a digraph.
#[verifier::ext_equal]
pub struct Walk {
    /// Open vertices with the number of edges that were followed, the newest last.
    pub call: Seq<(u32, usize)>,
    /// Vertices in the order of their discovery.
    pub pre: Seq<u32>,
    /// Vertices in the order in which they were closed.
    pub post: Seq<u32>,
}

/// `x` is the first vertex that was not discovered.
pub open spec fn comes_next(n: nat, pre: Seq<u32>, x: u32) -> bool {
    &&& x < n
    &&& !pre.contains(x)
    &&& forall|y: u32| y < x ==> #[trigger] pre.contains(y)
}

/// One step of the walk: the newest open vertex follows its next edge, and opens the vertex
/// there if it is new; a vertex without further edges is closed; without open vertices the
/// first vertex that was not discovered is opened.
pub open spec fn stepped(n: nat, adj: Seq<Vec<u32>>, w: Walk) -> Walk {
    if w.call.len() == 0 {
        if exists|x: u32| comes_next(n, w.pre, x) {
            let x = choose|x: u32| comes_next(n, w.pre, x);
            Walk { call: w.call.push((x, 0)), pre: w.pre.push(x), ..w }
        } else {
            w
        }
    } else {
        let last = w.call.len() - 1;
        let (u, e) = w.call[last];
        if e < adj[u as int]@.len() {
            let v = adj[u as int]@[e as int];
            let call = w.call.update(last, (u, (e + 1) as usize));
            if w.pre.contains(v) {
                Walk { call, ..w }
            } else {
                Walk { call: call.push((v, 0)), pre: w.pre.push(v), ..w }
            }
        } else {
            Walk { call: w.call.drop_last(), post: w.post.push(u), ..w }
        }
    }
}

/// The walk after `k` steps.
pub open spec fn walked(n: nat, adj: Seq<Vec<u32>>, k: nat) -> Walk
    decreases k,
{
    if k == 0 {
        Walk { call: Seq::empty(), pre: Seq::empty(), post: Seq::empty() }
    } else {
        stepped(n, adj, walked(n, adj, (k - 1) as nat))
    }
}

/// The walk is over: every vertex is discovered, and none is open.
pub open spec fn ended(n: nat, w: Walk) -> bool {
    w.call.len() == 0 && forall|x: u32| x < n ==> #[trigger] w.pre.contains(x)
}

/// Position `i` of `s` holds `x`.
pub open spec fn holds_at(s: Seq<u32>, x: u32, i: int) -> bool {
    0 <= i < s.len() && s[i] == x
}

/// The components are listed in the order of the walk: the members of each from the last
/// discovered to the first, and the components as their first discovered members were
/// closed.
pub open spec fn listed_by(w: Walk, sccs: Seq<Seq<u32>>) -> bool {
    &&& forall|c: int, j: int, l: int, a: int, b: int|
        0 <= c < sccs.len() && 0 <= j < l < sccs[c].len() && #[trigger] holds_at(
            w.pre,
            sccs[c][j],
            a,
        ) && #[trigger] holds_at(w.pre, sccs[c][l], b) ==> b < a
    &&& forall|c: int| 0 <= c < sccs.len() ==> w.post.contains((#[trigger] sccs[c]).last())
    &&& forall|c: int, d: int, a: int, b: int|
        0 <= c < d < sccs.len() && #[trigger] holds_at(w.post, sccs[c].last(), a)
            && #[trigger] holds_at(w.post, sccs[d].last(), b) ==> a < b
}

/// The components are listed in the order of the walk over the whole digraph.
pub open spec fn walk_order(n: nat, adj: Seq<Vec<u32>>, sccs: Seq<Seq<u32>>) -> bool {
    exists|k: nat| #[trigger]
        ended(n, walked(n, adj, k)) && listed_by(walked(n, adj, k), sccs)
}

/// The walk has one end.
pub proof fn walk_ends_once(n: nat, adj: Seq<Vec<u32>>, a: nat, b: nat)
    requires
        ended(n, walked(n, adj, a)),
        ended(n, walked(n, adj, b)),
    ensures
        walked(n, adj, a) == walked(n, adj, b),
{
    if a <= b {
        lemma_ended_stays(n, adj, a, b);
    } else {
        lemma_ended_stays(n, adj, b, a);
    }
}

proof fn lemma_ended_stays(n: nat, adj: Seq<Vec<u32>>, a: nat, b: nat)
    requires
        a <= b,
        ended(n, walked(n, adj, a)),
    ensures
        walked(n, adj, b) == walked(n, adj, a),
    decreases b,
{
    if a < b {
        lemma_ended_stays(n, adj, a, (b - 1) as nat);
    }
}

} // verus!
