//! Reachability in a digraph of adjacency lists.
use vstd::prelude::*;

verus! {

/// Every entry of the `n` adjacency lists is a vertex.
pub open spec fn digraph(n: nat, adj: Seq<Vec<u32>>) -> bool {
    &&& adj.len() == n
    &&& n <= u32::MAX
    &&& forall|v: int, i: int|
        0 <= v < n && 0 <= i < adj[v]@.len() ==> #[trigger] adj[v]@[i] < n
}

/// `y` is a child of `x`.
pub open spec fn edge(adj: Seq<Vec<u32>>, x: u32, y: u32) -> bool {
    adj[x as int]@.contains(y)
}

/// A walk of `n` edges leads from `x` to `y`.
pub open spec fn walk(adj: Seq<Vec<u32>>, x: u32, y: u32, n: nat) -> bool
    decreases n,
{
    if n == 0 {
        x == y
    } else {
        exists|z: u32| walk(adj, x, z, (n - 1) as nat) && #[trigger] edge(adj, z, y)
    }
}

/// `y` can be reached from `x`.
pub open spec fn reaches(adj: Seq<Vec<u32>>, x: u32, y: u32) -> bool {
    exists|n: nat| walk(adj, x, y, n)
}

/// Each of `x` and `y` can be reached from the other.
pub open spec fn mutual(adj: Seq<Vec<u32>>, x: u32, y: u32) -> bool {
    reaches(adj, x, y) && reaches(adj, y, x)
}

/// Every vertex reaches itself.
pub(crate) proof fn lemma_reaches_self(adj: Seq<Vec<u32>>, x: u32)
    ensures
        reaches(adj, x, x),
{
    assert(walk(adj, x, x, 0));
}

/// A child is reached.
pub(crate) proof fn lemma_reaches_child(adj: Seq<Vec<u32>>, x: u32, y: u32)
    requires
        edge(adj, x, y),
    ensures
        reaches(adj, x, y),
{
    assert(walk(adj, x, x, 0));
    assert(walk(adj, x, y, 1));
}

proof fn lemma_walks_join(adj: Seq<Vec<u32>>, x: u32, y: u32, z: u32, a: nat, b: nat)
    requires
        walk(adj, x, y, a),
        walk(adj, y, z, b),
    ensures
        walk(adj, x, z, a + b),
    decreases b,
{
    if b > 0 {
        let w = choose|w: u32| walk(adj, y, w, (b - 1) as nat) && #[trigger] edge(adj, w, z);
        lemma_walks_join(adj, x, y, w, a, (b - 1) as nat);
        assert(walk(adj, x, w, (a + b - 1) as nat));
    }
}

/// Reachability is transitive.
pub(crate) proof fn lemma_reaches_trans(adj: Seq<Vec<u32>>, x: u32, y: u32, z: u32)
    requires
        reaches(adj, x, y),
        reaches(adj, y, z),
    ensures
        reaches(adj, x, z),
{
    let a = choose|n: nat| walk(adj, x, y, n);
    let b = choose|n: nat| walk(adj, y, z, n);
    lemma_walks_join(adj, x, y, z, a, b);
}

proof fn lemma_walk_closed(adj: Seq<Vec<u32>>, inside: spec_fn(u32) -> bool, x: u32, y: u32, n: nat)
    requires
        inside(x),
        forall|v: u32, w: u32| inside(v) && #[trigger] edge(adj, v, w) ==> inside(w),
        walk(adj, x, y, n),
    ensures
        inside(y),
    decreases n,
{
    if n > 0 {
        let z = choose|z: u32| walk(adj, x, z, (n - 1) as nat) && #[trigger] edge(adj, z, y);
        lemma_walk_closed(adj, inside, x, z, (n - 1) as nat);
    }
}

/// A property that every edge keeps holds of everything that is reached.
pub(crate) proof fn lemma_reaches_closed(
    adj: Seq<Vec<u32>>,
    inside: spec_fn(u32) -> bool,
    x: u32,
    y: u32,
)
    requires
        inside(x),
        forall|v: u32, w: u32| inside(v) && #[trigger] edge(adj, v, w) ==> inside(w),
        reaches(adj, x, y),
    ensures
        inside(y),
{
    let n = choose|n: nat| walk(adj, x, y, n);
    lemma_walk_closed(adj, inside, x, y, n);
}

/// `v` can be reached from one of the roots.
pub open spec fn reached(adj: Seq<Vec<u32>>, roots: Seq<u32>, v: u32) -> bool {
    exists|i: int| 0 <= i < roots.len() && reaches(adj, #[trigger] roots[i], v)
}

/// All that can be reached from the roots, as a mask over the `n` vertices.
pub fn closure(n: usize, adj: &Vec<Vec<u32>>, roots: &Vec<u32>) -> (mask: Vec<bool>)
    requires
        digraph(n as nat, adj@),
        forall|i: int| 0 <= i < roots@.len() ==> #[trigger] roots@[i] < n,
    ensures
        mask@.len() == n,
        forall|v: int| 0 <= v < n ==> #[trigger] mask@[v] == reached(adj@, roots@, v as u32),
{
    let mut mask: Vec<bool> = Vec::new();
    while mask.len() < n
        invariant
            mask@.len() <= n,
            forall|v: int| 0 <= v < mask@.len() ==> !(#[trigger] mask@[v]),
        decreases n - mask@.len(),
    {
        mask.push(false);
    }
    let mut stack: Vec<u32> = Vec::new();
    let mut i: usize = 0;
    while i < roots.len()
        invariant
            i <= roots@.len(),
            digraph(n as nat, adj@),
            mask@.len() == n,
            forall|q: int| 0 <= q < roots@.len() ==> #[trigger] roots@[q] < n,
            forall|q: int| 0 <= q < i ==> mask@[#[trigger] roots@[q] as int],
            forall|v: int| 0 <= v < n && #[trigger] mask@[v] ==> reached(adj@, roots@, v as u32),
            forall|q: int|
                0 <= q < stack@.len() ==> (#[trigger] stack@[q]) < n && mask@[stack@[q] as int],
            forall|v: int| 0 <= v < n && #[trigger] mask@[v] ==> stack@.contains(v as u32),
        decreases roots@.len() - i,
    {
        let r: u32 = roots[i];
        if !mask[r as usize] {
            proof {
                lemma_reaches_self(adj@, r);
                assert(reached(adj@, roots@, roots@[i as int]));
            }
            let ghost s0 = stack@;
            let ghost m0 = mask@;
            mask.set(r as usize, true);
            stack.push(r);
            assert forall|v: int| 0 <= v < n && #[trigger] mask@[v] implies stack@.contains(
                v as u32,
            ) by {
                if v == r {
                    assert(stack@[s0.len() as int] == r);
                } else {
                    assert(m0[v]);
                    let k = choose|k: int| 0 <= k < s0.len() && s0[k] == v as u32;
                    assert(stack@[k] == v as u32);
                }
            }
        }
        i = i + 1;
    }
    while stack.len() > 0
        invariant
            digraph(n as nat, adj@),
            mask@.len() == n,
            forall|q: int| 0 <= q < roots@.len() ==> #[trigger] roots@[q] < n,
            forall|q: int| 0 <= q < roots@.len() ==> mask@[#[trigger] roots@[q] as int],
            forall|v: int| 0 <= v < n && #[trigger] mask@[v] ==> reached(adj@, roots@, v as u32),
            forall|q: int|
                0 <= q < stack@.len() ==> (#[trigger] stack@[q]) < n && mask@[stack@[q] as int],
            forall|v: int, e: int|
                0 <= v < n && mask@[v] && !stack@.contains(v as u32) && 0 <= e < adj@[v]@.len()
                    ==> mask@[#[trigger] adj@[v]@[e] as int],
        decreases unmarked(mask@), stack@.len(),
    {
        let ghost s0 = stack@;
        let ghost m0 = mask@;
        match stack.pop() {
            None => {},
            Some(v) => {
                assert(v == s0[s0.len() - 1]);
                assert(mask@[v as int]);
                let ghost s1 = stack@;
                assert forall|w: int, e: int|
                    0 <= w < n && w != v && mask@[w] && !stack@.contains(w as u32) && 0 <= e
                        < adj@[w]@.len() implies mask@[#[trigger] adj@[w]@[e] as int] by {
                    if s0.contains(w as u32) {
                        let k = choose|k: int| 0 <= k < s0.len() && s0[k] == w as u32;
                        assert(stack@[k] == w as u32);
                    }
                }
                let ch: &Vec<u32> = &adj[v as usize];
                let mut j: usize = 0;
                while j < ch.len()
                    invariant
                        j <= ch@.len(),
                        v < n,
                        *ch == adj@[v as int],
                        digraph(n as nat, adj@),
                        mask@.len() == n,
                        m0.len() == n,
                        mask@[v as int],
                        unmarked(mask@) <= unmarked(m0),
                        unmarked(mask@) == unmarked(m0) ==> stack@ == s1,
                        s1.len() < s0.len(),
                        forall|q: int| 0 <= q < roots@.len() ==> #[trigger] roots@[q] < n,
                        forall|q: int|
                            0 <= q < roots@.len() ==> mask@[#[trigger] roots@[q] as int],
                        forall|w: int|
                            0 <= w < n && #[trigger] mask@[w] ==> reached(
                                adj@,
                                roots@,
                                w as u32,
                            ),
                        forall|q: int|
                            0 <= q < stack@.len() ==> (#[trigger] stack@[q]) < n
                                && mask@[stack@[q] as int],
                        forall|e: int| 0 <= e < j ==> mask@[#[trigger] adj@[v as int]@[e] as int],
                        forall|w: int, e: int|
                            0 <= w < n && w != v && mask@[w] && !stack@.contains(w as u32) && 0
                                <= e < adj@[w]@.len() ==> mask@[#[trigger] adj@[w]@[e] as int],
                    decreases ch@.len() - j,
                {
                    let c: u32 = ch[j];
                    assert(adj@[v as int]@[j as int] < n);
                    if !mask[c as usize] {
                        proof {
                            let i = choose|i: int|
                                0 <= i < roots@.len() && reaches(
                                    adj@,
                                    #[trigger] roots@[i],
                                    v,
                                );
                            assert(reached(adj@, roots@, v));
                            assert(edge(adj@, v, c)) by {
                                assert(adj@[v as int]@[j as int] == c);
                            }
                            lemma_reaches_child(adj@, v, c);
                            lemma_reaches_trans(adj@, roots@[i], v, c);
                            assert(reached(adj@, roots@, c));
                            lemma_mark(mask@, c as int);
                        }
                        let ghost sb = stack@;
                        let ghost mb = mask@;
                        mask.set(c as usize, true);
                        stack.push(c);
                        assert forall|w: int, e: int|
                            0 <= w < n && w != v && mask@[w] && !stack@.contains(w as u32) && 0
                                <= e < adj@[w]@.len() implies mask@[
                            #[trigger] adj@[w]@[e] as int
                        ] by {
                            assert(stack@[sb.len() as int] == c);
                            if sb.contains(w as u32) {
                                let k = choose|k: int| 0 <= k < sb.len() && sb[k] == w as u32;
                                assert(stack@[k] == w as u32);
                            }
                            assert(mb[w]);
                        }
                    }
                    j = j + 1;
                }
                assert forall|w: int, e: int|
                    0 <= w < n && mask@[w] && !stack@.contains(w as u32) && 0 <= e
                        < adj@[w]@.len() implies mask@[#[trigger] adj@[w]@[e] as int] by {
                    if w == v {
                        assert(mask@[adj@[v as int]@[e] as int]);
                    }
                }
            },
        }
    }
    assert forall|v: int| 0 <= v < n implies #[trigger] mask@[v] == reached(
        adj@,
        roots@,
        v as u32,
    ) by {
        if reached(adj@, roots@, v as u32) {
            let i = choose|i: int|
                0 <= i < roots@.len() && reaches(adj@, #[trigger] roots@[i], v as u32);
            let inside = |w: u32| w < n && mask@[w as int];
            assert forall|x: u32, y: u32| inside(x) && #[trigger] edge(adj@, x, y) implies inside(
                y,
            ) by {
                let e = choose|e: int| 0 <= e < adj@[x as int]@.len() && adj@[x as int]@[e] == y;
                assert(adj@[x as int]@[e] < n);
                assert(!stack@.contains(x));
            }
            lemma_reaches_closed(adj@, inside, roots@[i], v as u32);
        }
    }
    mask
}

/// Number of entries that are not set.
spec fn unmarked(mask: Seq<bool>) -> nat
    decreases mask.len(),
{
    if mask.len() == 0 {
        0
    } else {
        unmarked(mask.drop_last()) + if mask.last() {
            0nat
        } else {
            1
        }
    }
}

proof fn lemma_mark(mask: Seq<bool>, i: int)
    requires
        0 <= i < mask.len(),
        !mask[i],
    ensures
        unmarked(mask.update(i, true)) + 1 == unmarked(mask),
    decreases mask.len(),
{
    let m = mask.update(i, true);
    if i < mask.len() - 1 {
        assert(m.drop_last() =~= mask.drop_last().update(i, true));
        lemma_mark(mask.drop_last(), i);
    } else {
        assert(m.drop_last() =~= mask.drop_last());
    }
}

} // verus!
