//! Cheapest e-node of every class: a dynamic program over the components.
use egglog::EGraph;
use vstd::prelude::*;
use vstd::utf8::encode_utf8;

use crate::class_graph::{ClassGraph, Enode};
use crate::cost::{Cost, INFINITY_KEY, ZERO_KEY};
use crate::egraph::{string_value, strings_of};
use crate::fnv::{fnv_bytes, fnv_low, fnv_mix_u64, fnv_seq, FNV_OFFSET};
use crate::mapping::{call_plus, plus_fn, plus_total};
use crate::snapshot::texts_known;
use crate::stats::{cyclic, is_own_child};

verus! {

// ------------------------------------------------------------------------ model

/// How costs are added up, and what tells primitive children apart.
pub struct Pricing {
    /// Hash of the text of each primitive child of each e-node.
    pub texts: Seq<Seq<u64>>,
    /// Take the largest child cost, not only their sum.
    pub fold_max: bool,
    pub plus: spec_fn(Cost, Cost) -> Cost,
    /// Cost of an e-node: from its head cost, the sum of its children's and its noise bucket.
    pub sum_price: spec_fn(Cost, Cost, u64) -> Cost,
    /// Cost of an e-node: from its head cost, the largest of its children's, their sum and
    /// its noise bucket.
    pub max_price: spec_fn(Cost, Cost, Cost, u64) -> Cost,
}

/// State of the dynamic program.
#[verifier::ext_equal]
pub struct Dp {
    pub costs: Seq<Cost>,
    /// Structural hash of each class's cheapest term.
    pub hashes: Seq<u64>,
    /// Cheapest e-node of each class.
    pub best: Seq<Option<usize>>,
}

/// Hash of a text.
pub open spec fn text_hash(text: Seq<char>) -> u64 {
    fnv_seq(FNV_OFFSET, encode_utf8(text))
}

/// The hashes of the texts that the primitive children of the e-nodes stand for.
pub open spec fn texts_of(eg: EGraph, enodes: Seq<Enode>) -> Seq<Seq<u64>> {
    Seq::new(
        enodes.len(),
        |e: int|
            Seq::new(
                enodes[e].ch_prim@.len(),
                |j: int| text_hash(strings_of(eg)[enodes[e].ch_prim@[j].1]),
            ),
    )
}

/// The rows of a table of hashes.
pub open spec fn hash_rows(texts: Seq<Vec<u64>>) -> Seq<Seq<u64>> {
    Seq::new(texts.len(), |e: int| texts[e]@)
}

/// There is a hash for each primitive child.
pub open spec fn texts_cover(graph: &ClassGraph, texts: Seq<Seq<u64>>) -> bool {
    &&& texts.len() == graph.enodes@.len()
    &&& forall|e: int|
        0 <= e < texts.len() ==> (#[trigger] texts[e]).len() == graph.enodes@[e].ch_prim@.len()
}

/// `h` mixed with the hashes of the first `n` children.
pub open spec fn mix_children(h: u64, ch: Seq<u32>, hashes: Seq<u64>, n: nat) -> u64
    decreases n,
{
    if n == 0 {
        h
    } else {
        fnv_low(mix_children(h, ch, hashes, (n - 1) as nat), hashes[ch[n - 1] as int], 8)
    }
}

/// `h` mixed with the positions and text hashes of the first `n` primitive children.
pub open spec fn mix_prims(h: u64, prims: Seq<(u32, u32)>, texts: Seq<u64>, n: nat) -> u64
    decreases n,
{
    if n == 0 {
        h
    } else {
        let (pos, _) = prims[n - 1];
        fnv_low(
            fnv_low(mix_prims(h, prims, texts, (n - 1) as nat), pos as u64, 8),
            texts[n - 1],
            8,
        )
    }
}

/// Structural hash of e-node `e`: of its constructor's name, the hashes of its children, and
/// the positions and texts of its primitive children.
pub open spec fn struct_hash(
    graph: &ClassGraph,
    texts: Seq<Seq<u64>>,
    hashes: Seq<u64>,
    e: int,
) -> u64 {
    let x = graph.enodes@[e];
    let name = graph.funcs@[x.func as int].term_name@;
    let h = fnv_seq(FNV_OFFSET, encode_utf8(name));
    mix_prims(
        mix_children(h, x.ch_eq@, hashes, x.ch_eq@.len()),
        x.ch_prim@,
        texts[e],
        x.ch_prim@.len(),
    )
}

/// The costs of the first `n` children are finite.
pub open spec fn children_finite(ch: Seq<u32>, costs: Seq<Cost>, n: int) -> bool {
    forall|j: int| 0 <= j < n ==> costs[#[trigger] ch[j] as int].finite()
}

/// Sum of the costs of the first `n` children.
pub open spec fn child_sum(
    plus: spec_fn(Cost, Cost) -> Cost,
    ch: Seq<u32>,
    costs: Seq<Cost>,
    n: nat,
) -> Cost
    decreases n,
{
    if n == 0 {
        Cost::Number(ZERO_KEY)
    } else {
        plus(child_sum(plus, ch, costs, (n - 1) as nat), costs[ch[n - 1] as int])
    }
}

/// Largest cost of the first `n` children, at least zero.
pub open spec fn child_max(ch: Seq<u32>, costs: Seq<Cost>, n: nat) -> Cost
    decreases n,
{
    if n == 0 {
        Cost::Number(ZERO_KEY)
    } else {
        let m = child_max(ch, costs, (n - 1) as nat);
        let c = costs[ch[n - 1] as int];
        if m.below(c) {
            c
        } else {
            m
        }
    }
}

/// Number of noise buckets.
pub const NOISE_BUCKETS: u64 = 1024;

/// Cost of e-node `e`; `None` while a child has no finite cost. A head cost of zero makes
/// the cost zero whatever the children are.
pub open spec fn enode_cost(graph: &ClassGraph, p: Pricing, st: Dp, e: int) -> Option<Cost> {
    let x = graph.enodes@[e];
    let ch = x.ch_eq@;
    if x.head.same(Cost::Number(ZERO_KEY)) {
        Some(Cost::Number(ZERO_KEY))
    } else if !children_finite(ch, st.costs, ch.len() as int) {
        None
    } else {
        let sum = child_sum(p.plus, ch, st.costs, ch.len());
        let bucket = struct_hash(graph, p.texts, st.hashes, e) % NOISE_BUCKETS;
        if p.fold_max {
            Some((p.max_price)(x.head, child_max(ch, st.costs, ch.len()), sum, bucket))
        } else {
            Some((p.sum_price)(x.head, sum, bucket))
        }
    }
}

/// The cheapest of the first `n` e-nodes of class `v`: its cost, its hash and its index. The
/// structural hash breaks ties.
pub open spec fn cheapest(graph: &ClassGraph, p: Pricing, st: Dp, v: int, n: nat) -> (
    Cost,
    u64,
    Option<usize>,
)
    decreases n,
{
    if n == 0 {
        (Cost::Number(INFINITY_KEY), u64::MAX, None)
    } else {
        let (bc, bh, bi) = cheapest(graph, p, st, v, (n - 1) as nat);
        let e = graph.enodes_of@[v]@[n - 1];
        match enode_cost(graph, p, st, e as int) {
            None => (bc, bh, bi),
            Some(c) => {
                let h = struct_hash(graph, p.texts, st.hashes, e as int);
                if c.below(bc) || (c.same(bc) && h < bh) {
                    (c, h, Some(e))
                } else {
                    (bc, bh, bi)
                }
            },
        }
    }
}

impl Dp {
    /// Class `v` takes the e-node `e`.
    pub open spec fn take_enode(self, v: int, c: Cost, h: u64, e: Option<usize>) -> Dp {
        Dp {
            costs: self.costs.update(v, c),
            hashes: self.hashes.update(v, h),
            best: self.best.update(v, e),
        }
    }
}

/// E-node `e`, of cost `c`, is better for class `v` than what the class has.
pub open spec fn improves(
    graph: &ClassGraph,
    p: Pricing,
    st: Dp,
    v: int,
    e: int,
    c: Cost,
) -> bool {
    match st.best[v] {
        None => true,
        Some(cur) => c.below(st.costs[v]) || (c.same(st.costs[v]) && struct_hash(
            graph,
            p.texts,
            st.hashes,
            e,
        ) < struct_hash(graph, p.texts, st.hashes, cur as int)),
    }
}

/// One relaxation step: the new state, and whether it changed.
pub open spec fn relax_enode(graph: &ClassGraph, p: Pricing, st: Dp, v: int, e: usize) -> (
    Dp,
    bool,
) {
    match enode_cost(graph, p, st, e as int) {
        None => (st, false),
        Some(c) => if improves(graph, p, st, v, e as int, c) {
            (st.take_enode(v, c, struct_hash(graph, p.texts, st.hashes, e as int), Some(e)), true)
        } else {
            (st, false)
        },
    }
}

/// Relaxation over the first `n` e-nodes of class `v`.
pub open spec fn relax_class(graph: &ClassGraph, p: Pricing, st: Dp, v: int, n: nat) -> (Dp, bool)
    decreases n,
{
    if n == 0 {
        (st, false)
    } else {
        let (mid, a) = relax_class(graph, p, st, v, (n - 1) as nat);
        let (next, b) = relax_enode(graph, p, mid, v, graph.enodes_of@[v]@[n - 1]);
        (next, a || b)
    }
}

/// Relaxation over the first `n` members of component `si`.
pub open spec fn relax_pass(graph: &ClassGraph, p: Pricing, st: Dp, si: int, n: nat) -> (Dp, bool)
    decreases n,
{
    if n == 0 {
        (st, false)
    } else {
        let (mid, a) = relax_pass(graph, p, st, si, (n - 1) as nat);
        let v = graph.sccs@[si]@[n - 1] as int;
        let (next, b) = relax_class(graph, p, mid, v, graph.enodes_of@[v]@.len());
        (next, a || b)
    }
}

/// Passes over component `si` until one changes nothing; `None` if `fuel` passes are not
/// enough.
pub open spec fn relaxed(graph: &ClassGraph, p: Pricing, st: Dp, si: int, fuel: nat) -> Option<Dp>
    decreases fuel,
{
    if fuel == 0 {
        None
    } else {
        let (next, changed) = relax_pass(graph, p, st, si, graph.sccs@[si]@.len());
        if changed {
            relaxed(graph, p, next, si, (fuel - 1) as nat)
        } else {
            Some(next)
        }
    }
}

/// Most passes over a component of `n` classes.
pub open spec fn pass_limit(n: nat) -> nat {
    n * n + 1000
}

/// The treatment of component `si`: a cyclic one is relaxed, an acyclic one takes the
/// cheapest e-node at once.
pub open spec fn solve_component(graph: &ClassGraph, p: Pricing, st: Dp, si: int) -> Option<Dp> {
    let comp = graph.sccs@[si]@;
    let v = comp[0] as int;
    if cyclic(graph, v) {
        relaxed(graph, p, st, si, pass_limit(comp.len()))
    } else {
        let (c, h, e) = cheapest(graph, p, st, v, graph.enodes_of@[v]@.len());
        Some(st.take_enode(v, c, h, e))
    }
}

/// Nothing is known yet.
pub open spec fn unsolved(graph: &ClassGraph) -> Dp {
    Dp {
        costs: Seq::new(graph.size(), |v: int| Cost::Number(INFINITY_KEY)),
        hashes: Seq::new(graph.size(), |v: int| 0u64),
        best: Seq::new(graph.size(), |v: int| None),
    }
}

/// The state after the first `n` components; `None` if a relaxation does not converge.
pub open spec fn solved(graph: &ClassGraph, p: Pricing, n: nat) -> Option<Dp>
    decreases n,
{
    if n == 0 {
        Some(unsolved(graph))
    } else {
        match solved(graph, p, (n - 1) as nat) {
            None => None,
            Some(st) => solve_component(graph, p, st, n - 1),
        }
    }
}

// ------------------------------------------------------------------- invariants

/// What the dynamic program needs of the graph.
pub open spec fn solvable(graph: &ClassGraph) -> bool {
    &&& graph.wf()
    &&& forall|e: int|
        0 <= e < graph.enodes@.len() ==> (#[trigger] graph.enodes@[e]).func < graph.funcs@.len()
}

/// What holds of every state: the chosen e-nodes are e-nodes of their class.
pub open spec fn dp_ok(graph: &ClassGraph, st: Dp) -> bool {
    &&& st.costs.len() == graph.size()
    &&& st.hashes.len() == graph.size()
    &&& st.best.len() == graph.size()
    &&& forall|v: int|
        0 <= v < graph.size() ==> (#[trigger] st.best[v] matches Some(e) ==> e
            < graph.enodes@.len() && graph.enodes@[e as int].out == v)
}

proof fn lemma_cheapest_ok(graph: &ClassGraph, p: Pricing, st: Dp, v: int, n: nat)
    requires
        solvable(graph),
        0 <= v < graph.size(),
        n <= graph.enodes_of@[v]@.len(),
    ensures
        ({
            let (_, _, bi) = cheapest(graph, p, st, v, n);
            bi matches Some(e) ==> e < graph.enodes@.len() && graph.enodes@[e as int].out == v
        }),
    decreases n,
{
    if n > 0 {
        lemma_cheapest_ok(graph, p, st, v, (n - 1) as nat);
        assert(graph.enodes_of@[v]@[n - 1] < graph.enodes@.len());
    }
}

/// Relaxing a class keeps what holds of every state.
pub(crate) proof fn lemma_relax_class_ok(graph: &ClassGraph, p: Pricing, st: Dp, v: int, n: nat)
    requires
        solvable(graph),
        dp_ok(graph, st),
        0 <= v < graph.size(),
        n <= graph.enodes_of@[v]@.len(),
    ensures
        ({
            let (next, _) = relax_class(graph, p, st, v, n);
            dp_ok(graph, next)
        }),
    decreases n,
{
    if n > 0 {
        lemma_relax_class_ok(graph, p, st, v, (n - 1) as nat);
        assert(graph.enodes_of@[v]@[n - 1] < graph.enodes@.len());
    }
}

/// Relaxing a component keeps what holds of every state.
pub(crate) proof fn lemma_relax_pass_ok(graph: &ClassGraph, p: Pricing, st: Dp, si: int, n: nat)
    requires
        solvable(graph),
        dp_ok(graph, st),
        0 <= si < graph.sccs@.len(),
        n <= graph.sccs@[si]@.len(),
    ensures
        ({
            let (next, _) = relax_pass(graph, p, st, si, n);
            dp_ok(graph, next)
        }),
    decreases n,
{
    if n > 0 {
        lemma_relax_pass_ok(graph, p, st, si, (n - 1) as nat);
        let (mid, _) = relax_pass(graph, p, st, si, (n - 1) as nat);
        let v = graph.sccs@[si]@[n - 1];
        assert(v < graph.size());
        lemma_relax_class_ok(graph, p, mid, v as int, graph.enodes_of@[v as int]@.len());
    }
}

proof fn lemma_relaxed_ok(graph: &ClassGraph, p: Pricing, st: Dp, si: int, fuel: nat)
    requires
        solvable(graph),
        dp_ok(graph, st),
        0 <= si < graph.sccs@.len(),
    ensures
        relaxed(graph, p, st, si, fuel) matches Some(next) ==> dp_ok(graph, next),
    decreases fuel,
{
    if fuel > 0 {
        let n = graph.sccs@[si]@.len();
        lemma_relax_pass_ok(graph, p, st, si, n);
        let (next, changed) = relax_pass(graph, p, st, si, n);
        if changed {
            lemma_relaxed_ok(graph, p, next, si, (fuel - 1) as nat);
        }
    }
}

/// The chosen e-nodes are e-nodes of their class.
pub proof fn chosen_enodes_belong(graph: &ClassGraph, p: Pricing, n: nat)
    requires
        solvable(graph),
        n <= graph.sccs@.len(),
    ensures
        solved(graph, p, n) matches Some(st) ==> dp_ok(graph, st),
    decreases n,
{
    if n > 0 {
        chosen_enodes_belong(graph, p, (n - 1) as nat);
        let prev = solved(graph, p, (n - 1) as nat);
        if prev is Some {
            let si = n - 1;
            let v = graph.sccs@[si]@[0];
            assert(graph.sccs@[si]@.len() > 0);
            assert(graph.sccs@[si]@[0] < graph.size());
            lemma_relaxed_ok(graph, p, prev->0, si, pass_limit(graph.sccs@[si]@.len()));
            lemma_cheapest_ok(
                graph,
                p,
                prev->0,
                v as int,
                graph.enodes_of@[v as int]@.len(),
            );
        }
    }
}

// -------------------------------------------------------------------- arithmetic

/// `f` answers every call, and equal arguments get equal answers.
pub open spec fn weigh_total<F: Fn(Cost) -> Cost>(f: F) -> bool {
    &&& forall|a: Cost| #[trigger] f.requires((a,))
    &&& forall|a: Cost, x: Cost, y: Cost|
        #[trigger] f.ensures((a,), x) && #[trigger] f.ensures((a,), y) ==> x == y
}

/// What `f` answers.
pub open spec fn weigh_fn<F: Fn(Cost) -> Cost>(f: F) -> spec_fn(Cost) -> Cost {
    |a: Cost| choose|x: Cost| f.ensures((a,), x)
}

/// `f` answers every call, and equal arguments get equal answers.
pub open spec fn noise_total<F: Fn(u64) -> Cost>(f: F) -> bool {
    &&& forall|n: u64| #[trigger] f.requires((n,))
    &&& forall|n: u64, x: Cost, y: Cost|
        #[trigger] f.ensures((n,), x) && #[trigger] f.ensures((n,), y) ==> x == y
}

/// What `f` answers.
pub open spec fn noise_fn<F: Fn(u64) -> Cost>(f: F) -> spec_fn(u64) -> Cost {
    |n: u64| choose|x: Cost| f.ensures((n,), x)
}

fn call_weigh<F: Fn(Cost) -> Cost>(f: &F, a: Cost) -> (r: Cost)
    requires
        weigh_total(*f),
    ensures
        r == weigh_fn(*f)(a),
{
    let r: Cost = f(a);
    proof {
        assert(f.ensures((a,), r));
        let x = weigh_fn(*f)(a);
        assert(f.ensures((a,), x));
    }
    r
}

fn call_noise<F: Fn(u64) -> Cost>(f: &F, n: u64) -> (r: Cost)
    requires
        noise_total(*f),
    ensures
        r == noise_fn(*f)(n),
{
    let r: Cost = f(n);
    proof {
        assert(f.ensures((n,), r));
        let x = noise_fn(*f)(n);
        assert(f.ensures((n,), x));
    }
    r
}

/// Head cost, sum of the children and noise, added up.
pub open spec fn sum_priced(
    plus: spec_fn(Cost, Cost) -> Cost,
    noise: spec_fn(u64) -> Cost,
) -> spec_fn(Cost, Cost, u64) -> Cost {
    |head: Cost, sum: Cost, bucket: u64| plus(plus(head, sum), noise(bucket))
}

/// Head cost, largest child, weighed sum of the children and noise, added up.
pub open spec fn max_priced(
    plus: spec_fn(Cost, Cost) -> Cost,
    weigh: spec_fn(Cost) -> Cost,
    noise: spec_fn(u64) -> Cost,
) -> spec_fn(Cost, Cost, Cost, u64) -> Cost {
    |head: Cost, max: Cost, sum: Cost, bucket: u64|
        plus(plus(plus(head, max), weigh(sum)), noise(bucket))
}

/// The pricing by the given functions.
pub open spec fn pricing<
    P: Fn(Cost, Cost) -> Cost,
    W: Fn(Cost) -> Cost,
    N: Fn(u64) -> Cost,
>(texts: Seq<Seq<u64>>, fold_max: bool, plus: P, weigh: W, noise: N) -> Pricing {
    Pricing {
        texts,
        fold_max,
        plus: plus_fn(plus),
        sum_price: sum_priced(plus_fn(plus), noise_fn(noise)),
        max_price: max_priced(plus_fn(plus), weigh_fn(weigh), noise_fn(noise)),
    }
}

// -------------------------------------------------------------------- execution

/// Hashes the texts that the primitive children of the e-nodes stand for.
pub fn hash_texts(eg: &EGraph, graph: &ClassGraph) -> (texts: Vec<Vec<u64>>)
    requires
        texts_known(*eg, graph.enodes@),
    ensures
        hash_rows(texts@) == texts_of(*eg, graph.enodes@),
        texts_cover(graph, hash_rows(texts@)),
{
    let mut texts: Vec<Vec<u64>> = Vec::new();
    while texts.len() < graph.enodes.len()
        invariant
            texts_known(*eg, graph.enodes@),
            texts@.len() <= graph.enodes@.len(),
            forall|e: int|
                0 <= e < texts@.len() ==> (#[trigger] texts@[e])@ == texts_of(
                    *eg,
                    graph.enodes@,
                )[e],
        decreases graph.enodes@.len() - texts@.len(),
    {
        let e: usize = texts.len();
        let prims: &Vec<(u32, u32)> = &graph.enodes[e].ch_prim;
        let mut row: Vec<u64> = Vec::new();
        while row.len() < prims.len()
            invariant
                texts_known(*eg, graph.enodes@),
                e < graph.enodes@.len(),
                *prims == graph.enodes@[e as int].ch_prim,
                row@.len() <= prims@.len(),
                forall|j: int|
                    0 <= j < row@.len() ==> #[trigger] row@[j] == text_hash(
                        strings_of(*eg)[prims@[j].1],
                    ),
            decreases prims@.len() - row@.len(),
        {
            let j: usize = row.len();
            assert(strings_of(*eg).dom().contains(
                graph.enodes@[e as int].ch_prim@[j as int].1,
            ));
            let text: String = string_value(eg, prims[j].1);
            row.push(fnv_bytes(FNV_OFFSET, text.as_str().as_bytes()));
        }
        assert(row@ =~= texts_of(*eg, graph.enodes@)[e as int]);
        texts.push(row);
    }
    assert(hash_rows(texts@) =~= texts_of(*eg, graph.enodes@));
    texts
}

/// The outcome of the dynamic program.
#[derive(Debug)]
pub struct Solution {
    pub costs: Vec<Cost>,
    pub hashes: Vec<u64>,
    pub best: Vec<Option<usize>>,
}

impl Solution {
    /// The solution is the given state.
    pub open spec fn shows(&self, st: Dp) -> bool {
        &&& self.costs@ == st.costs
        &&& self.hashes@ == st.hashes
        &&& self.best@ == st.best
    }
}

/// What the dynamic program reads.
struct Solver<
    'a,
    P: Fn(Cost, Cost) -> Cost,
    W: Fn(Cost) -> Cost,
    N: Fn(u64) -> Cost,
> {
    graph: &'a ClassGraph,
    texts: &'a Vec<Vec<u64>>,
    fold_max: bool,
    plus: &'a P,
    weigh: &'a W,
    noise: &'a N,
}

impl<
    'a,
    P: Fn(Cost, Cost) -> Cost,
    W: Fn(Cost) -> Cost,
    N: Fn(u64) -> Cost,
> Solver<'a, P, W, N> {
    spec fn pricing(&self) -> Pricing {
        pricing(
            hash_rows(self.texts@),
            self.fold_max,
            *self.plus,
            *self.weigh,
            *self.noise,
        )
    }

    spec fn ok(&self) -> bool {
        &&& solvable(self.graph)
        &&& texts_cover(self.graph, hash_rows(self.texts@))
        &&& plus_total(*self.plus)
        &&& weigh_total(*self.weigh)
        &&& noise_total(*self.noise)
    }

    /// Structural hash of an e-node.
    fn enode_hash(&self, t: &Solution, e: usize, Ghost(st): Ghost<Dp>) -> (h: u64)
        requires
            self.ok(),
            t.shows(st),
            dp_ok(self.graph, st),
            e < self.graph.enodes@.len(),
        ensures
            h == struct_hash(self.graph, hash_rows(self.texts@), st.hashes, e as int),
    {
        let x: &Enode = &self.graph.enodes[e];
        assert(self.graph.enodes@[e as int].func < self.graph.funcs@.len());
        let mut h: u64 = fnv_bytes(
            FNV_OFFSET,
            self.graph.funcs[x.func].term_name.as_str().as_bytes(),
        );
        let ghost h0 = h;
        let mut j: usize = 0;
        while j < x.ch_eq.len()
            invariant
                j <= x.ch_eq@.len(),
                self.ok(),
                t.shows(st),
                dp_ok(self.graph, st),
                e < self.graph.enodes@.len(),
                *x == self.graph.enodes@[e as int],
                h == mix_children(h0, x.ch_eq@, st.hashes, j as nat),
            decreases x.ch_eq@.len() - j,
        {
            assert(self.graph.enodes@[e as int].ch_eq@[j as int] < self.graph.size());
            h = fnv_mix_u64(h, t.hashes[x.ch_eq[j] as usize]);
            j = j + 1;
        }
        let ghost h1 = h;
        let ghost rows = hash_rows(self.texts@);
        assert(rows[e as int].len() == self.graph.enodes@[e as int].ch_prim@.len());
        let texts: &Vec<u64> = &self.texts[e];
        let mut i: usize = 0;
        while i < x.ch_prim.len()
            invariant
                i <= x.ch_prim@.len(),
                texts@.len() == x.ch_prim@.len(),
                h == mix_prims(h1, x.ch_prim@, texts@, i as nat),
            decreases x.ch_prim@.len() - i,
        {
            h = fnv_mix_u64(h, x.ch_prim[i].0 as u64);
            h = fnv_mix_u64(h, texts[i]);
            i = i + 1;
        }
        h
    }

    /// Cost of an e-node.
    fn price(&self, t: &Solution, e: usize, Ghost(st): Ghost<Dp>) -> (r: Option<Cost>)
        requires
            self.ok(),
            t.shows(st),
            dp_ok(self.graph, st),
            e < self.graph.enodes@.len(),
        ensures
            r == enode_cost(self.graph, self.pricing(), st, e as int),
    {
        let x: &Enode = &self.graph.enodes[e];
        if x.head.equal(Cost::zero()) {
            return Some(Cost::zero());
        }
        let mut sum: Cost = Cost::zero();
        let mut max_pos: Cost = Cost::zero();
        let mut j: usize = 0;
        while j < x.ch_eq.len()
            invariant
                j <= x.ch_eq@.len(),
                self.ok(),
                t.shows(st),
                dp_ok(self.graph, st),
                e < self.graph.enodes@.len(),
                *x == self.graph.enodes@[e as int],
                !x.head.same(Cost::Number(ZERO_KEY)),
                children_finite(x.ch_eq@, st.costs, j as int),
                sum == child_sum(plus_fn(*self.plus), x.ch_eq@, st.costs, j as nat),
                max_pos == child_max(x.ch_eq@, st.costs, j as nat),
            decreases x.ch_eq@.len() - j,
        {
            assert(self.graph.enodes@[e as int].ch_eq@[j as int] < self.graph.size());
            let c: Cost = t.costs[x.ch_eq[j] as usize];
            if !c.is_finite() {
                assert(!st.costs[x.ch_eq@[j as int] as int].finite());
                return None;
            }
            if max_pos.less(c) {
                max_pos = c;
            }
            sum = call_plus(self.plus, sum, c);
            j = j + 1;
        }
        let bucket: u64 = self.enode_hash(t, e, Ghost(st)) % NOISE_BUCKETS;
        if self.fold_max {
            let base: Cost = call_plus(self.plus, x.head, max_pos);
            let base: Cost = call_plus(self.plus, base, call_weigh(self.weigh, sum));
            Some(call_plus(self.plus, base, call_noise(self.noise, bucket)))
        } else {
            let base: Cost = call_plus(self.plus, x.head, sum);
            Some(call_plus(self.plus, base, call_noise(self.noise, bucket)))
        }
    }

    /// Gives class `v` its cheapest e-node.
    fn settle_class(&self, t: &mut Solution, v: usize, Ghost(st): Ghost<Dp>)
        requires
            self.ok(),
            old(t).shows(st),
            dp_ok(self.graph, st),
            v < self.graph.size(),
        ensures
            ({
                let (c, h, e) = cheapest(
                    self.graph,
                    self.pricing(),
                    st,
                    v as int,
                    self.graph.enodes_of@[v as int]@.len(),
                );
                final(t).shows(st.take_enode(v as int, c, h, e))
            }),
    {
        let ens: &Vec<usize> = &self.graph.enodes_of[v];
        let mut bc: Cost = Cost::infinity();
        let mut bh: u64 = u64::MAX;
        let mut bi: Option<usize> = None;
        let mut i: usize = 0;
        while i < ens.len()
            invariant
                i <= ens@.len(),
                self.ok(),
                t.shows(st),
                dp_ok(self.graph, st),
                v < self.graph.size(),
                *ens == self.graph.enodes_of@[v as int],
                (bc, bh, bi) == cheapest(self.graph, self.pricing(), st, v as int, i as nat),
            decreases ens@.len() - i,
        {
            assert(self.graph.enodes_of@[v as int]@[i as int] < self.graph.enodes@.len());
            let e: usize = ens[i];
            match self.price(t, e, Ghost(st)) {
                None => {},
                Some(c) => {
                    let h: u64 = self.enode_hash(t, e, Ghost(st));
                    if c.less(bc) || (c.equal(bc) && h < bh) {
                        bc = c;
                        bh = h;
                        bi = Some(e);
                    }
                },
            }
            i = i + 1;
        }
        t.costs.set(v, bc);
        t.hashes.set(v, bh);
        t.best.set(v, bi);
    }

    /// Relaxes the e-nodes of class `v`.
    fn relax(&self, t: &mut Solution, v: usize, Ghost(st): Ghost<Dp>) -> (changed: bool)
        requires
            self.ok(),
            old(t).shows(st),
            dp_ok(self.graph, st),
            v < self.graph.size(),
        ensures
            ({
                let (next, c) = relax_class(
                    self.graph,
                    self.pricing(),
                    st,
                    v as int,
                    self.graph.enodes_of@[v as int]@.len(),
                );
                final(t).shows(next) && changed == c
            }),
    {
        let ens: &Vec<usize> = &self.graph.enodes_of[v];
        let mut changed: bool = false;
        let ghost mut cur = st;
        let mut i: usize = 0;
        while i < ens.len()
            invariant
                i <= ens@.len(),
                self.ok(),
                t.shows(cur),
                dp_ok(self.graph, st),
                dp_ok(self.graph, cur),
                v < self.graph.size(),
                *ens == self.graph.enodes_of@[v as int],
                (cur, changed) == relax_class(self.graph, self.pricing(), st, v as int, i as nat),
            decreases ens@.len() - i,
        {
            assert(self.graph.enodes_of@[v as int]@[i as int] < self.graph.enodes@.len());
            let e: usize = ens[i];
            let ghost (next, more) = relax_enode(self.graph, self.pricing(), cur, v as int, e);
            match self.price(t, e, Ghost(cur)) {
                None => {},
                Some(c) => {
                    let h: u64 = self.enode_hash(t, e, Ghost(cur));
                    let better: bool = match t.best[v] {
                        None => true,
                        Some(b) => {
                            assert(cur.best[v as int] == Some(b));
                            c.less(t.costs[v]) || (c.equal(t.costs[v]) && h < self.enode_hash(
                                t,
                                b,
                                Ghost(cur),
                            ))
                        },
                    };
                    if better {
                        t.costs.set(v, c);
                        t.hashes.set(v, h);
                        t.best.set(v, Some(e));
                        changed = true;
                    }
                },
            }
            proof {
                lemma_relax_class_ok(self.graph, self.pricing(), st, v as int, (i + 1) as nat);
                cur = next;
            }
            i = i + 1;
        }
        changed
    }

    /// Solves component `si`; false if its relaxation does not converge.
    fn solve(&self, t: &mut Solution, si: usize, Ghost(st): Ghost<Dp>) -> (ok: bool)
        requires
            self.ok(),
            old(t).shows(st),
            dp_ok(self.graph, st),
            si < self.graph.sccs@.len(),
        ensures
            match solve_component(self.graph, self.pricing(), st, si as int) {
                None => !ok,
                Some(next) => ok && final(t).shows(next),
            },
    {
        let comp: &Vec<u32> = &self.graph.sccs[si];
        assert(self.graph.sccs@[si as int]@.len() > 0);
        assert(self.graph.sccs@[si as int]@[0] < self.graph.size());
        let v: u32 = comp[0];
        assert(self.graph.scc_of@[v as int] == si);
        if comp.len() == 1 && !is_own_child(&self.graph.adj[v as usize], v) {
            self.settle_class(t, v as usize, Ghost(st));
            return true;
        }
        let len: usize = comp.len();
        proof {
            lemma_comp_len(self.graph, si as int);
            assert((len as nat) * (len as nat) <= 0xffff_ffff * 0xffff_ffff) by (nonlinear_arith)
                requires
                    len <= 0xffff_ffff,
            ;
        }
        let n: u64 = len as u64;
        assert(n * n == (len as nat) * (len as nat));
        let mut left: u64 = n * n + 1000;
        let ghost mut cur = st;
        let mut changed: bool = true;
        while changed
            invariant
                self.ok(),
                t.shows(cur),
                dp_ok(self.graph, cur),
                si < self.graph.sccs@.len(),
                *comp == self.graph.sccs@[si as int],
                len == comp@.len(),
                solve_component(self.graph, self.pricing(), st, si as int) == if changed {
                    relaxed(self.graph, self.pricing(), cur, si as int, left as nat)
                } else {
                    Some(cur)
                },
            decreases (if changed { 1int } else { 0 }) + left,
        {
            if left == 0 {
                return false;
            }
            changed = false;
            let ghost from = cur;
            let mut i: usize = 0;
            while i < len
                invariant
                    i <= len,
                    self.ok(),
                    t.shows(cur),
                    dp_ok(self.graph, from),
                    dp_ok(self.graph, cur),
                    si < self.graph.sccs@.len(),
                    *comp == self.graph.sccs@[si as int],
                    len == comp@.len(),
                    (cur, changed) == relax_pass(
                        self.graph,
                        self.pricing(),
                        from,
                        si as int,
                        i as nat,
                    ),
                decreases len - i,
            {
                let w: u32 = comp[i];
                assert(self.graph.sccs@[si as int]@[i as int] < self.graph.size());
                let more: bool = self.relax(t, w as usize, Ghost(cur));
                changed = changed || more;
                proof {
                    lemma_relax_pass_ok(
                        self.graph,
                        self.pricing(),
                        from,
                        si as int,
                        (i + 1) as nat,
                    );
                    let (next, _) = relax_pass(
                        self.graph,
                        self.pricing(),
                        from,
                        si as int,
                        (i + 1) as nat,
                    );
                    cur = next;
                }
                i = i + 1;
            }
            left = left - 1;
        }
        true
    }
}

impl<
    'a,
    P: Fn(Cost, Cost) -> Cost,
    W: Fn(Cost) -> Cost,
    N: Fn(u64) -> Cost,
> Solver<'a, P, W, N> {
    /// Solves all components; `None` if a relaxation does not converge.
    fn run(&self) -> (r: Option<Solution>)
        requires
            self.ok(),
        ensures
            match solved(self.graph, self.pricing(), self.graph.sccs@.len()) {
                None => r is None,
                Some(st) => r matches Some(t) && t.shows(st) && dp_ok(self.graph, st),
            },
    {
        let n: usize = self.graph.classes.len();
        let mut t: Solution = Solution { costs: Vec::new(), hashes: Vec::new(), best: Vec::new() };
        while t.costs.len() < n
            invariant
                n == self.graph.size(),
                t.costs@.len() <= n,
                t.hashes@.len() == t.costs@.len(),
                t.best@.len() == t.costs@.len(),
                forall|v: int|
                    0 <= v < t.costs@.len() ==> #[trigger] t.costs@[v] == Cost::Number(INFINITY_KEY)
                        && t.hashes@[v] == 0 && t.best@[v] is None,
            decreases n - t.costs@.len(),
        {
            t.costs.push(Cost::infinity());
            t.hashes.push(0);
            t.best.push(None);
        }
        let ghost p = self.pricing();
        let ghost mut st = unsolved(self.graph);
        proof {
            assert forall|v: int| 0 <= v < n implies t.hashes@[v] == st.hashes[v] && t.best@[v]
                == st.best[v] by {
                assert(t.costs@[v] == Cost::Number(INFINITY_KEY));
            }
            assert(t.costs@ =~= st.costs);
            assert(t.hashes@ =~= st.hashes);
            assert(t.best@ =~= st.best);
            assert(solved(self.graph, p, 0) == Some(st));
        }
        let mut si: usize = 0;
        while si < self.graph.sccs.len()
            invariant
                si <= self.graph.sccs@.len(),
                self.ok(),
                self.pricing() == p,
                t.shows(st),
                dp_ok(self.graph, st),
                solved(self.graph, p, si as nat) == Some(st),
            decreases self.graph.sccs@.len() - si,
        {
            let ok: bool = self.solve(&mut t, si, Ghost(st));
            assert(solved(self.graph, p, (si + 1) as nat) == solve_component(
                self.graph,
                p,
                st,
                si as int,
            ));
            if !ok {
                proof {
                    lemma_solved_none(self.graph, p, (si + 1) as nat, self.graph.sccs@.len());
                }
                return None;
            }
            proof {
                chosen_enodes_belong(self.graph, p, (si + 1) as nat);
                st = solve_component(self.graph, p, st, si as int)->0;
            }
            si = si + 1;
        }
        Some(t)
    }
}

/// A component has no more members than there are classes.
proof fn lemma_comp_len(graph: &ClassGraph, si: int)
    requires
        graph.wf(),
        0 <= si < graph.sccs@.len(),
    ensures
        graph.sccs@[si]@.len() <= graph.size() <= 0xffff_ffff,
{
    let comp = graph.sccs@[si]@;
    lemma_distinct_bound(comp, graph.size());
}

/// Distinct numbers below `n` are at most `n`.
pub(crate) proof fn lemma_distinct_bound(s: Seq<u32>, n: nat)
    requires
        s.no_duplicates(),
        forall|i: int| 0 <= i < s.len() ==> #[trigger] s[i] < n,
    ensures
        s.len() <= n,
    decreases n,
{
    if n == 0 {
        if s.len() > 0 {
            assert(s[0] < n);
        }
    } else {
        let last = (n - 1) as u32;
        if s.contains(last) {
            let k = choose|k: int| 0 <= k < s.len() && s[k] == last;
            let t = s.remove(k);
            assert forall|i: int| 0 <= i < t.len() implies #[trigger] t[i] < n - 1 by {
                let j = if i < k {
                    i
                } else {
                    i + 1
                };
                assert(t[i] == s[j]);
                assert(s[j] != s[k]);
            }
            assert(t.no_duplicates()) by {
                assert forall|i: int, j: int|
                    0 <= i < t.len() && 0 <= j < t.len() && i != j implies t[i] != t[j] by {
                    let a = if i < k {
                        i
                    } else {
                        i + 1
                    };
                    let b = if j < k {
                        j
                    } else {
                        j + 1
                    };
                    assert(t[i] == s[a] && t[j] == s[b]);
                }
            }
            lemma_distinct_bound(t, (n - 1) as nat);
        } else {
            assert forall|i: int| 0 <= i < s.len() implies #[trigger] s[i] < n - 1 by {
                if s[i] == last {
                    assert(s.contains(s[i]));
                }
            }
            lemma_distinct_bound(s, (n - 1) as nat);
        }
    }
}

/// Finds the cheapest e-node of every class, children first, with the given hashes of the
/// texts of primitive children; `None` if the relaxation of a
/// cyclic component does not converge.
pub fn solve_costs<
    P: Fn(Cost, Cost) -> Cost,
    W: Fn(Cost) -> Cost,
    N: Fn(u64) -> Cost,
>(
    graph: &ClassGraph,
    texts: &Vec<Vec<u64>>,
    fold_max: bool,
    plus: &P,
    weigh: &W,
    noise: &N,
) -> (r: Option<Solution>)
    requires
        solvable(graph),
        texts_cover(graph, hash_rows(texts@)),
        plus_total(*plus),
        weigh_total(*weigh),
        noise_total(*noise),
    ensures
        match solved(
            graph,
            pricing(hash_rows(texts@), fold_max, *plus, *weigh, *noise),
            graph.sccs@.len(),
        ) {
            None => r is None,
            Some(st) => r matches Some(t) && t.shows(st) && dp_ok(graph, st),
        },
{
    let solver = Solver { graph, texts, fold_max, plus, weigh, noise };
    solver.run()
}

proof fn lemma_solved_none(graph: &ClassGraph, p: Pricing, n: nat, m: nat)
    requires
        n <= m,
        solved(graph, p, n) is None,
    ensures
        solved(graph, p, m) is None,
    decreases m,
{
    if n < m {
        lemma_solved_none(graph, p, n, (m - 1) as nat);
    }
}

} // verus!
