//! Statistics of the condensation.
use vstd::prelude::*;
use vstd::seq_lib::*;

use crate::class_graph::ClassGraph;
use crate::stats::is_own_child;
use crate::tally::{
    count, lemma_count_all, lemma_count_bound, lemma_count_flip, lemma_count_none,
    lemma_count_split, tallies, tally, tally_counts_every_key, tally_sum, total,
};

verus! {

/// Statistics of the strongly connected components.
#[derive(Debug)]
pub struct SccProfile {
    pub num_classes: usize,
    pub num_sccs: usize,
    /// Classes that lie on no cycle.
    pub singleton_acyclic_nodes: usize,
    /// Classes that are their own child and share their component with no other.
    pub self_loop_nodes: usize,
    /// Classes that share their component with others.
    pub multi_node_nodes: usize,
    pub max_size: usize,
    /// The component sizes in ascending order.
    pub sizes: Vec<usize>,
    /// (component size, number of components of that size), in ascending order.
    pub histogram: Vec<(usize, usize)>,
}

/// The component sizes.
pub open spec fn comp_sizes(sccs: Seq<Vec<u32>>) -> Seq<usize> {
    Seq::new(sccs.len(), |c: int| sccs[c]@.len() as usize)
}

/// The components of one class that is not its own child.
pub open spec fn acyclic_comps(sccs: Seq<Vec<u32>>, adj: Seq<Vec<u32>>) -> spec_fn(int) -> bool {
    |c: int| sccs[c]@.len() == 1 && !adj[sccs[c]@[0] as int]@.contains(sccs[c]@[0])
}

/// The components of one class that is its own child.
pub open spec fn loop_comps(sccs: Seq<Vec<u32>>, adj: Seq<Vec<u32>>) -> spec_fn(int) -> bool {
    |c: int| sccs[c]@.len() == 1 && adj[sccs[c]@[0] as int]@.contains(sccs[c]@[0])
}

/// Size of each component.
pub open spec fn size_at(sccs: Seq<Vec<u32>>) -> spec_fn(int) -> nat {
    |c: int| sccs[c]@.len()
}

/// Size of each component, as far as it does not have one class.
pub open spec fn multi_at(sccs: Seq<Vec<u32>>) -> spec_fn(int) -> nat {
    |c: int|
        if sccs[c]@.len() == 1 {
            0
        } else {
            sccs[c]@.len()
        }
}

/// The numbers are in ascending order.
pub open spec fn ascending(s: Seq<usize>) -> bool {
    forall|i: int, j: int|
        0 <= i < s.len() && 0 <= j < s.len() && i <= j ==> (#[trigger] s[i]) <= (#[trigger] s[j])
}

impl SccProfile {
    /// What each number says of the components.
    pub open spec fn describes(&self, sccs: Seq<Vec<u32>>, adj: Seq<Vec<u32>>) -> bool {
        let m = sccs.len();
        &&& self.num_classes == total(m, size_at(sccs))
        &&& self.num_sccs == m
        &&& self.singleton_acyclic_nodes == count(m, acyclic_comps(sccs, adj))
        &&& self.self_loop_nodes == count(m, loop_comps(sccs, adj))
        &&& self.multi_node_nodes == total(m, multi_at(sccs))
        &&& ascending(self.sizes@)
        &&& self.sizes@.to_multiset() == comp_sizes(sccs).to_multiset()
        &&& self.sizes@.len() == m
        &&& self.max_size == if m == 0 {
            0
        } else {
            self.sizes@[m - 1]
        }
        &&& tallies(self.histogram@, comp_sizes(sccs))
    }
}

proof fn lemma_total_split(sccs: Seq<Vec<u32>>, adj: Seq<Vec<u32>>, m: nat)
    requires
        m <= sccs.len(),
    ensures
        total(m, size_at(sccs)) == count(m, acyclic_comps(sccs, adj)) + count(
            m,
            loop_comps(sccs, adj),
        ) + total(m, multi_at(sccs)),
    decreases m,
{
    if m > 0 {
        lemma_total_split(sccs, adj, (m - 1) as nat);
    }
}

/// Every class is of exactly one of the three kinds, and the histogram counts every
/// component once.
pub proof fn profile_adds_up(p: SccProfile, sccs: Seq<Vec<u32>>, adj: Seq<Vec<u32>>)
    requires
        p.describes(sccs, adj),
    ensures
        p.num_classes == p.singleton_acyclic_nodes + p.self_loop_nodes + p.multi_node_nodes,
        tally_sum(p.histogram@) == p.num_sccs,
{
    lemma_total_split(sccs, adj, sccs.len());
    tally_counts_every_key(p.histogram@, comp_sizes(sccs));
}

/// Inserts `x` into an ascending list.
fn insert_size(s: &mut Vec<usize>, x: usize)
    requires
        ascending(old(s)@),
    ensures
        ascending(final(s)@),
        final(s)@.to_multiset() == old(s)@.to_multiset().insert(x),
        final(s)@.len() == old(s)@.len() + 1,
{
    let ghost s0 = s@;
    let mut p: usize = s.len();
    while p > 0 && s[p - 1] > x
        invariant
            p <= s@.len(),
            s@ == s0,
            forall|i: int| p <= i < s@.len() ==> #[trigger] s@[i] > x,
        decreases p,
    {
        p = p - 1;
    }
    s.insert(p, x);
    proof {
        broadcast use vstd::seq_lib::group_to_multiset_ensures;

        let t = s@;
        assert forall|i: int, j: int|
            0 <= i < t.len() && 0 <= j < t.len() && i <= j implies (#[trigger] t[i]) <= (
        #[trigger] t[j]) by {
            let a = if i < p {
                i
            } else {
                i - 1
            };
            let b = if j < p {
                j
            } else {
                j - 1
            };
            if i != p {
                assert(t[i] == s0[a]);
            }
            if j != p {
                assert(t[j] == s0[b]);
            }
            if i != p && j != p {
                assert(s0[a] <= s0[b]);
            } else if i == p && j > p {
                assert(s0[b] > x);
            } else if i < p && j == p {
                assert(s0[i] <= s0[p - 1]);
            }
        }
        assert(t.remove(p as int) =~= s0);
        assert(t.to_multiset().remove(x) == s0.to_multiset());
        assert(t.to_multiset().count(x) > 0) by {
            assert(t[p as int] == x);
            assert(t.contains(x));
        }
        assert(t.to_multiset() =~= s0.to_multiset().insert(x));
    }
}

impl SccProfile {
    /// Statistics of the given components.
    pub fn compute(sccs: &Vec<Vec<u32>>, adj: &Vec<Vec<u32>>) -> (p: SccProfile)
        requires
            total(sccs@.len(), size_at(sccs@)) <= usize::MAX,
            forall|c: int, i: int|
                0 <= c < sccs@.len() && 0 <= i < sccs@[c]@.len() ==> #[trigger] sccs@[c]@[i]
                    < adj@.len(),
        ensures
            p.describes(sccs@, adj@),
    {
        let mut num_classes: usize = 0;
        let mut acyclic: usize = 0;
        let mut loops: usize = 0;
        let mut multi: usize = 0;
        let mut keys: Vec<usize> = Vec::new();
        let mut sizes: Vec<usize> = Vec::new();
        let mut c: usize = 0;
        while c < sccs.len()
            invariant
                c <= sccs.len(),
                total(sccs@.len(), size_at(sccs@)) <= usize::MAX,
                forall|d: int, i: int|
                    0 <= d < sccs@.len() && 0 <= i < sccs@[d]@.len() ==> #[trigger] sccs@[d]@[i]
                        < adj@.len(),
                num_classes == total(c as nat, size_at(sccs@)),
                acyclic == count(c as nat, acyclic_comps(sccs@, adj@)),
                loops == count(c as nat, loop_comps(sccs@, adj@)),
                multi == total(c as nat, multi_at(sccs@)),
                keys@ == comp_sizes(sccs@).take(c as int),
                ascending(sizes@),
                sizes@.to_multiset() == keys@.to_multiset(),
                sizes@.len() == c,
            decreases sccs@.len() - c,
        {
            proof {
                lemma_total_grows(sccs@, (c + 1) as nat, sccs@.len());
                lemma_total_split(sccs@, adj@, (c + 1) as nat);
                lemma_count_bound(c as nat, acyclic_comps(sccs@, adj@));
                lemma_count_bound(c as nat, loop_comps(sccs@, adj@));
            }
            let comp: &Vec<u32> = &sccs[c];
            let size: usize = comp.len();
            num_classes = num_classes + size;
            let ghost k0 = keys@;
            keys.push(size);
            insert_size(&mut sizes, size);
            proof {
                broadcast use vstd::seq_lib::group_to_multiset_ensures;

                assert(keys@ =~= comp_sizes(sccs@).take(c + 1));
                assert(keys@ == k0.push(size));
                assert(keys@.to_multiset() =~= k0.to_multiset().insert(size));
            }
            if size == 1 {
                let v: u32 = comp[0];
                assert(sccs@[c as int]@[0] < adj@.len());
                if is_own_child(&adj[v as usize], v) {
                    loops = loops + 1;
                } else {
                    acyclic = acyclic + 1;
                }
            } else {
                multi = multi + size;
            }
            c = c + 1;
        }
        assert(keys@ =~= comp_sizes(sccs@));
        let max_size: usize = if sizes.len() == 0 {
            0
        } else {
            sizes[sizes.len() - 1]
        };
        let histogram: Vec<(usize, usize)> = tally(&keys);
        SccProfile {
            num_classes,
            num_sccs: sccs.len(),
            singleton_acyclic_nodes: acyclic,
            self_loop_nodes: loops,
            multi_node_nodes: multi,
            max_size,
            sizes,
            histogram,
        }
    }

    /// Classes that lie on a cycle.
    pub fn cyclic_nodes(&self) -> (n: usize)
        requires
            self.self_loop_nodes + self.multi_node_nodes <= usize::MAX,
        ensures
            n == self.self_loop_nodes + self.multi_node_nodes,
    {
        self.self_loop_nodes + self.multi_node_nodes
    }

    /// The two middle component sizes, which are one and the same where their number is
    /// odd; `None` without components.
    pub fn middle_sizes(&self) -> (r: Option<(usize, usize)>)
        ensures
            r == if self.sizes@.len() == 0 {
                None
            } else if self.sizes@.len() % 2 == 1 {
                Some(
                    (
                        self.sizes@[self.sizes@.len() as int / 2],
                        self.sizes@[self.sizes@.len() as int / 2],
                    ),
                )
            } else {
                Some(
                    (
                        self.sizes@[self.sizes@.len() as int / 2 - 1],
                        self.sizes@[self.sizes@.len() as int / 2],
                    ),
                )
            },
    {
        let n: usize = self.sizes.len();
        if n == 0 {
            None
        } else if n % 2 == 1 {
            Some((self.sizes[n / 2], self.sizes[n / 2]))
        } else {
            Some((self.sizes[n / 2 - 1], self.sizes[n / 2]))
        }
    }
}

proof fn lemma_total_grows(sccs: Seq<Vec<u32>>, a: nat, b: nat)
    requires
        a <= b,
    ensures
        total(a, size_at(sccs)) <= total(b, size_at(sccs)),
    decreases b,
{
    if a < b {
        lemma_total_grows(sccs, a, (b - 1) as nat);
    }
}

// -------------------------------------------------------------- over a class graph

/// The vertices that `s` holds.
spec fn held(s: Seq<u32>) -> spec_fn(int) -> bool {
    |x: int| s.contains(x as u32)
}

/// The classes in the first `m` components.
spec fn within(graph: &ClassGraph, m: int) -> spec_fn(int) -> bool {
    |x: int| graph.scc_of@[x] < m
}

/// Distinct vertices are as many as the sequence is long.
proof fn lemma_held_count(s: Seq<u32>, n: nat)
    requires
        n <= u32::MAX,
        s.no_duplicates(),
        forall|i: int| 0 <= i < s.len() ==> #[trigger] s[i] < n,
    ensures
        count(n, held(s)) == s.len(),
    decreases s.len(),
{
    if s.len() == 0 {
        lemma_count_none(n, held(s));
    } else {
        let t = s.drop_last();
        let x = s.last();
        assert(s[s.len() - 1] < n);
        assert forall|i: int| 0 <= i < t.len() implies #[trigger] t[i] < n by {
            assert(t[i] == s[i]);
        }
        lemma_held_count(t, n);
        assert forall|i: int| 0 <= i < n && i != x implies #[trigger] held(t)(i) == held(s)(i) by {
            if s.contains(i as u32) {
                let k = choose|k: int| 0 <= k < s.len() && s[k] == i as u32;
                assert(t[k] == s[k]);
            }
            if t.contains(i as u32) {
                let k = choose|k: int| 0 <= k < t.len() && t[k] == i as u32;
                assert(s[k] == t[k]);
            }
        }
        lemma_count_flip(n, held(t), held(s), x as int);
    }
}

/// The first `m` components hold as many classes as they are large.
proof fn lemma_within_count(graph: &ClassGraph, m: nat)
    requires
        graph.wf(),
        m <= graph.sccs@.len(),
    ensures
        count(graph.size(), within(graph, m as int)) == total(m, size_at(graph.sccs@)),
    decreases m,
{
    let n = graph.size();
    if m == 0 {
        lemma_count_none(n, within(graph, 0));
    } else {
        lemma_within_count(graph, (m - 1) as nat);
        let s = graph.sccs@[m - 1]@;
        lemma_held_count(s, n);
        assert forall|x: int| 0 <= x < n implies (#[trigger] held(s)(x) <==> graph.scc_of@[x] == m
            - 1) by {
            if s.contains(x as u32) {
                let i = choose|i: int| 0 <= i < s.len() && s[i] == x as u32;
                assert(graph.sccs@[m - 1]@[i] < n);
            }
            assert(graph.sccs@[graph.scc_of@[x] as int]@.contains(x as u32));
        }
        assert forall|x: int| 0 <= x < n implies #[trigger] within(graph, m as int)(x) == (within(
            graph,
            m - 1,
        )(x) || held(s)(x)) by {
            assert(held(s)(x) <==> graph.scc_of@[x] == m - 1);
        }
        assert forall|x: int| 0 <= x < n implies !(#[trigger] within(graph, m - 1)(x) && held(s)(
            x,
        )) by {
            assert(held(s)(x) <==> graph.scc_of@[x] == m - 1);
        }
        lemma_count_split(n, within(graph, m as int), within(graph, m - 1), held(s));
    }
}

/// The components hold every class once.
pub proof fn components_hold_every_class(graph: &ClassGraph)
    requires
        graph.wf(),
    ensures
        total(graph.sccs@.len(), size_at(graph.sccs@)) == graph.size(),
{
    let all = within(graph, graph.sccs@.len() as int);
    lemma_within_count(graph, graph.sccs@.len());
    assert forall|x: int| 0 <= x < graph.size() implies #[trigger] all(x) by {
        assert(graph.scc_of@[x] < graph.sccs@.len());
    }
    lemma_count_all(graph.size(), all);
}

} // verus!
