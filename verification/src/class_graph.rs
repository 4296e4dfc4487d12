//! Snapshot of an e-graph: classes, e-nodes and their condensation.
use std::collections::HashMap;
use vstd::prelude::*;

use crate::cost::Cost;
use crate::reach::{closure, reached};
use crate::scc::{condenses, members, placed, tarjan_scc};
use crate::tally::{count, lemma_count_bound, lemma_count_flip, lemma_count_none};
use crate::walk::walk_order;

verus! {

/// A constructor of the vocabulary.
#[derive(Debug)]
pub struct FuncTab {
    /// Term head used for reconstruction.
    pub term_name: String,
    /// Per child position: true if the child is a class.
    pub eq_mask: Vec<bool>,
    pub arity: usize,
}

/// One row of a constructor's table.
#[derive(Debug)]
pub struct Enode {
    /// Index into the graph's constructors.
    pub func: usize,
    /// Class index of the output.
    pub out: u32,
    /// Class indices of the children that are classes, in position order.
    pub ch_eq: Vec<u32>,
    /// (position, value) of the primitive children.
    pub ch_prim: Vec<(u32, u32)>,
    /// Cost of the constructor itself.
    pub head: Cost,
}

/// The class graph of one sort over a constructor vocabulary.
#[derive(Debug)]
pub struct ClassGraph {
    pub funcs: Vec<FuncTab>,
    pub enodes: Vec<Enode>,
    /// Class index -> canonical value.
    pub classes: Vec<u32>,
    /// Canonical value -> class index.
    pub class_index: HashMap<u32, u32>,
    /// Class index -> indices into `enodes`.
    pub enodes_of: Vec<Vec<usize>>,
    /// Parent class -> child classes.
    pub adj: Vec<Vec<u32>>,
    /// Strongly connected components, children first.
    pub sccs: Vec<Vec<u32>>,
    /// Class index -> component index.
    pub scc_of: Vec<u32>,
}

impl ClassGraph {
    /// Number of classes.
    pub open spec fn size(&self) -> nat {
        self.classes@.len()
    }

    /// Every index stored in the e-nodes lies in range, and `enodes_of` lists e-nodes of
    /// the class they are listed under.
    pub open spec fn nodes_wf(&self) -> bool {
        &&& self.size() <= u32::MAX
        &&& self.enodes_of@.len() == self.size()
        &&& forall|e: int| 0 <= e < self.enodes@.len() ==> (#[trigger] self.enodes@[e]).out
            < self.size()
        &&& forall|e: int, i: int|
            0 <= e < self.enodes@.len() && 0 <= i < self.enodes@[e].ch_eq@.len()
                ==> #[trigger] self.enodes@[e].ch_eq@[i] < self.size()
        &&& forall|v: int, i: int|
            0 <= v < self.size() && 0 <= i < self.enodes_of@[v]@.len()
                ==> #[trigger] self.enodes_of@[v]@[i] < self.enodes@.len()
                && self.enodes@[self.enodes_of@[v]@[i] as int].out == v
    }

    /// `adj` holds class indices.
    pub open spec fn adj_wf(&self) -> bool {
        &&& self.adj@.len() == self.size()
        &&& forall|v: int, i: int|
            0 <= v < self.size() && 0 <= i < self.adj@[v]@.len() ==> #[trigger] self.adj@[v]@[i]
                < self.size()
    }

    /// The components partition the classes and `scc_of` tells the component of each.
    pub open spec fn sccs_wf(&self) -> bool {
        &&& self.scc_of@.len() == self.size()
        &&& self.sccs@.len() <= self.size()
        &&& forall|v: int|
            0 <= v < self.size() ==> (#[trigger] self.scc_of@[v]) < self.sccs@.len()
                && self.sccs@[self.scc_of@[v] as int]@.contains(v as u32)
        &&& forall|s: int| 0 <= s < self.sccs@.len() ==> (#[trigger] self.sccs@[s])@.len() > 0
        &&& forall|s: int, i: int|
            0 <= s < self.sccs@.len() && 0 <= i < self.sccs@[s]@.len()
                ==> #[trigger] self.sccs@[s]@[i] < self.size()
                && self.scc_of@[self.sccs@[s]@[i] as int] == s
        &&& forall|s: int| 0 <= s < self.sccs@.len() ==> (#[trigger] self.sccs@[s])@.no_duplicates()
    }

    /// The graph is well formed.
    pub open spec fn wf(&self) -> bool {
        &&& self.nodes_wf()
        &&& self.adj_wf()
        &&& self.sccs_wf()
    }

    /// `adj` holds the children of each class's e-nodes, and `sccs` its strongly connected
    /// components, children first, in the order of the depth-first walk.
    pub open spec fn condensed(&self) -> bool {
        &&& forall|v: int|
            0 <= v < self.size() ==> (#[trigger] self.adj@[v])@ == children_of(
                self.enodes@,
                v,
                self.enodes@.len(),
            )
        &&& condenses(self.size(), self.adj@, members(self.sccs@))
        &&& walk_order(self.size(), self.adj@, members(self.sccs@))
    }

    /// The children of e-node `e` that are classes.
    pub open spec fn children(&self, e: int) -> Seq<u32> {
        self.enodes@[e].ch_eq@
    }
}

/// The children of the first `n` e-nodes, as far as they are e-nodes of class `v`.
pub open spec fn children_of(enodes: Seq<Enode>, v: int, n: nat) -> Seq<u32>
    decreases n,
{
    if n == 0 {
        Seq::empty()
    } else {
        let rest = children_of(enodes, v, (n - 1) as nat);
        if enodes[n - 1].out == v {
            rest + enodes[n - 1].ch_eq@
        } else {
            rest
        }
    }
}

proof fn lemma_children_bound(enodes: Seq<Enode>, v: int, n: nat, size: nat)
    requires
        n <= enodes.len(),
        forall|e: int, i: int|
            0 <= e < enodes.len() && 0 <= i < enodes[e].ch_eq@.len()
                ==> #[trigger] enodes[e].ch_eq@[i] < size,
    ensures
        forall|i: int|
            0 <= i < children_of(enodes, v, n).len() ==> #[trigger] children_of(enodes, v, n)[i]
                < size,
    decreases n,
{
    if n > 0 {
        lemma_children_bound(enodes, v, (n - 1) as nat, size);
        let rest = children_of(enodes, v, (n - 1) as nat);
        let all = children_of(enodes, v, n);
        assert forall|i: int| 0 <= i < all.len() implies #[trigger] all[i] < size by {
            if enodes[n - 1].out == v {
                if i >= rest.len() {
                    assert(all[i] == enodes[n - 1].ch_eq@[i - rest.len()]);
                } else {
                    assert(all[i] == rest[i]);
                }
            }
        }
    }
}

/// The adjacency lists of the classes.
fn adjacency(n: usize, enodes: &Vec<Enode>) -> (adj: Vec<Vec<u32>>)
    requires
        forall|e: int| 0 <= e < enodes@.len() ==> (#[trigger] enodes@[e]).out < n,
    ensures
        adj@.len() == n,
        forall|v: int|
            0 <= v < n ==> (#[trigger] adj@[v])@ == children_of(enodes@, v, enodes@.len()),
{
    let mut adj: Vec<Vec<u32>> = Vec::new();
    while adj.len() < n
        invariant
            adj@.len() <= n,
            forall|v: int| 0 <= v < adj@.len() ==> (#[trigger] adj@[v])@ == Seq::<u32>::empty(),
        decreases n - adj@.len(),
    {
        adj.push(Vec::new());
    }
    let mut e: usize = 0;
    while e < enodes.len()
        invariant
            e <= enodes@.len(),
            adj@.len() == n,
            forall|x: int| 0 <= x < enodes@.len() ==> (#[trigger] enodes@[x]).out < n,
            forall|v: int|
                0 <= v < n ==> (#[trigger] adj@[v])@ == children_of(enodes@, v, e as nat),
        decreases enodes@.len() - e,
    {
        let out: usize = enodes[e].out as usize;
        let ch: &Vec<u32> = &enodes[e].ch_eq;
        let ghost start = adj@[out as int]@;
        let mut j: usize = 0;
        assert(start + ch@.take(0) =~= start);
        while j < ch.len()
            invariant
                j <= ch@.len(),
                e < enodes@.len(),
                out < n,
                out == enodes@[e as int].out,
                *ch == enodes@[e as int].ch_eq,
                adj@.len() == n,
                start == children_of(enodes@, out as int, e as nat),
                adj@[out as int]@ == start + ch@.take(j as int),
                forall|v: int|
                    0 <= v < n && v != out ==> (#[trigger] adj@[v])@ == children_of(
                        enodes@,
                        v,
                        e as nat,
                    ),
            decreases ch@.len() - j,
        {
            let c: u32 = ch[j];
            adj[out].push(c);
            assert(start + ch@.take(j as int + 1) =~= (start + ch@.take(j as int)).push(c));
            j = j + 1;
        }
        assert(ch@.take(j as int) =~= ch@);
        e = e + 1;
    }
    adj
}

/// `c` is the first member of one of the first `m` components.
spec fn leads(sccs: Seq<Seq<u32>>, m: int) -> spec_fn(int) -> bool {
    |x: int| exists|c: int| 0 <= c < m && #[trigger] sccs[c][0] == x
}

/// There are at most as many components as vertices.
proof fn lemma_components_bound(n: nat, adj: Seq<Vec<u32>>, sccs: Seq<Seq<u32>>, m: int)
    requires
        condenses(n, adj, sccs),
        0 <= m <= sccs.len(),
    ensures
        count(n, leads(sccs, m)) == m,
        m <= n,
    decreases m,
{
    if m == 0 {
        lemma_count_none(n, leads(sccs, 0));
    } else {
        lemma_components_bound(n, adj, sccs, m - 1);
        assert(sccs[m - 1].len() > 0);
        let x = sccs[m - 1][0];
        assert(x < n);
        let p = leads(sccs, m - 1);
        let q = leads(sccs, m);
        if p(x as int) {
            let c = choose|c: int| 0 <= c < m - 1 && #[trigger] sccs[c][0] == x as int;
            assert(sccs[c].len() > 0);
            assert(sccs[c][0] == sccs[m - 1][0]);
        }
        assert(q(x as int)) by {
            assert(sccs[m - 1][0] == x as int);
        }
        assert forall|i: int| 0 <= i < n && i != x as int implies #[trigger] p(i) == q(i) by {
            if q(i) {
                let c = choose|c: int| 0 <= c < m && #[trigger] sccs[c][0] == i;
                assert(c < m - 1);
            }
        }
        lemma_count_flip(n, p, q, x as int);
    }
    lemma_count_bound(n, leads(sccs, m));
}

/// The component of each vertex.
fn component_index(n: usize, sccs: &Vec<Vec<u32>>, Ghost(adj): Ghost<Seq<Vec<u32>>>) -> (scc_of:
    Vec<u32>)
    requires
        n <= u32::MAX,
        condenses(n as nat, adj, members(sccs@)),
    ensures
        scc_of@.len() == n,
        forall|v: int|
            0 <= v < n ==> (#[trigger] scc_of@[v]) < sccs@.len() && sccs@[scc_of@[v] as int]@.contains(
            v as u32),
        forall|s: int, i: int|
            0 <= s < sccs@.len() && 0 <= i < sccs@[s]@.len() ==> #[trigger] sccs@[s]@[i] < n
                && scc_of@[sccs@[s]@[i] as int] == s,
{
    let ghost ms = members(sccs@);
    proof {
        lemma_components_bound(n as nat, adj, ms, ms.len() as int);
        assert forall|c: int| 0 <= c < ms.len() implies ms[c] == (#[trigger] sccs@[c])@ by {}
    }
    let mut scc_of: Vec<u32> = Vec::new();
    while scc_of.len() < n
        invariant
            scc_of@.len() <= n,
        decreases n - scc_of@.len(),
    {
        scc_of.push(0);
    }
    let mut si: usize = 0;
    while si < sccs.len()
        invariant
            si <= sccs@.len() <= n,
            n <= u32::MAX,
            scc_of@.len() == n,
            ms == members(sccs@),
            condenses(n as nat, adj, ms),
            forall|s: int, i: int|
                0 <= s < si && 0 <= i < sccs@[s]@.len() ==> #[trigger] sccs@[s]@[i] < n
                    && scc_of@[sccs@[s]@[i] as int] == s,
        decreases sccs@.len() - si,
    {
        let comp: &Vec<u32> = &sccs[si];
        let mut i: usize = 0;
        while i < comp.len()
            invariant
                i <= comp@.len(),
                si < sccs@.len() <= n,
                n <= u32::MAX,
                *comp == sccs@[si as int],
                scc_of@.len() == n,
                ms == members(sccs@),
                condenses(n as nat, adj, ms),
                forall|s: int, j: int|
                    0 <= s < si && 0 <= j < sccs@[s]@.len() ==> #[trigger] sccs@[s]@[j] < n
                        && scc_of@[sccs@[s]@[j] as int] == s,
                forall|j: int|
                    0 <= j < i ==> #[trigger] sccs@[si as int]@[j] < n
                        && scc_of@[sccs@[si as int]@[j] as int] == si,
            decreases comp@.len() - i,
        {
            let v: u32 = comp[i];
            proof {
                assert(ms[si as int][i as int] == v);
            }
            let ghost before = scc_of@;
            scc_of.set(v as usize, si as u32);
            assert forall|s: int, j: int|
                0 <= s < si && 0 <= j < sccs@[s]@.len() implies #[trigger] sccs@[s]@[j] < n && scc_of@[sccs@[s]@[j] as int] == s by {
                assert(ms[s][j] == sccs@[s]@[j]);
                assert(ms[s][j] != ms[si as int][i as int]);
            }
            assert forall|j: int| 0 <= j < i implies #[trigger] sccs@[si as int]@[j] < n
                && scc_of@[sccs@[si as int]@[j] as int] == si by {
                assert(ms[si as int][j] == sccs@[si as int]@[j]);
                assert(ms[si as int][j] != ms[si as int][i as int]);
            }
            i = i + 1;
        }
        si = si + 1;
    }
    assert forall|v: int| 0 <= v < n implies (#[trigger] scc_of@[v]) < sccs@.len()
        && sccs@[scc_of@[v] as int]@.contains(v as u32) by {
        assert(placed(ms, ms.len() as int, v as u32));
        let c = choose|c: int| 0 <= c < ms.len() && (#[trigger] ms[c]).contains(v as u32);
        let i = choose|i: int| 0 <= i < ms[c].len() && ms[c][i] == v as u32;
        assert(sccs@[c]@[i] == v as u32);
    }
    scc_of
}

impl ClassGraph {
    /// The graph of the given constructors, e-nodes and classes, with its condensation.
    pub(crate) fn condense(
        funcs: Vec<FuncTab>,
        enodes: Vec<Enode>,
        classes: Vec<u32>,
        class_index: HashMap<u32, u32>,
        enodes_of: Vec<Vec<usize>>,
    ) -> (g: ClassGraph)
        requires
            classes@.len() <= u32::MAX,
            enodes_of@.len() == classes@.len(),
            forall|e: int| 0 <= e < enodes@.len() ==> (#[trigger] enodes@[e]).out < classes@.len(),
            forall|e: int, i: int|
                0 <= e < enodes@.len() && 0 <= i < enodes@[e].ch_eq@.len()
                    ==> #[trigger] enodes@[e].ch_eq@[i] < classes@.len(),
            forall|v: int, i: int|
                0 <= v < classes@.len() && 0 <= i < enodes_of@[v]@.len()
                    ==> #[trigger] enodes_of@[v]@[i] < enodes@.len()
                    && enodes@[enodes_of@[v]@[i] as int].out == v,
        ensures
            g.funcs == funcs,
            g.enodes == enodes,
            g.classes == classes,
            g.class_index == class_index,
            g.enodes_of == enodes_of,
            g.wf(),
            g.condensed(),
    {
        let n: usize = classes.len();
        let adj: Vec<Vec<u32>> = adjacency(n, &enodes);
        assert forall|v: int, i: int|
            0 <= v < n && 0 <= i < adj@[v]@.len() implies #[trigger] adj@[v]@[i] < n by {
            lemma_children_bound(enodes@, v, enodes@.len(), n as nat);
        }
        let sccs: Vec<Vec<u32>> = tarjan_scc(n, &adj);
        let ghost ms = members(sccs@);
        proof {
            lemma_components_bound(n as nat, adj@, ms, ms.len() as int);
        }
        let scc_of: Vec<u32> = component_index(n, &sccs, Ghost(adj@));
        proof {
            assert forall|s: int| 0 <= s < sccs@.len() implies (#[trigger] sccs@[s])@.no_duplicates()
                && sccs@[s]@.len() > 0 by {
                assert(ms[s] == sccs@[s]@);
                assert(ms[s].len() > 0);
                assert forall|i: int, j: int|
                    0 <= i < ms[s].len() && 0 <= j < ms[s].len() && i != j implies sccs@[s]@[i]
                    != sccs@[s]@[j] by {
                    assert(ms[s][i] != ms[s][j]);
                }
            }
        }
        ClassGraph { funcs, enodes, classes, class_index, enodes_of, adj, sccs, scc_of }
    }

    /// The classes that the roots depend on: everything that can be reached over the
    /// children of all e-nodes.
    pub fn cone_mask(&self, roots: &Vec<u32>) -> (mask: Vec<bool>)
        requires
            self.wf(),
            forall|i: int| 0 <= i < roots@.len() ==> #[trigger] roots@[i] < self.size(),
        ensures
            mask@.len() == self.size(),
            forall|v: int|
                0 <= v < self.size() ==> #[trigger] mask@[v] == reached(
                    self.adj@,
                    roots@,
                    v as u32,
                ),
    {
        closure(self.classes.len(), &self.adj, roots)
    }
}

} // verus!
