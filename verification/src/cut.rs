//! Cuts and the composition of their truth tables.
use vstd::prelude::*;

use crate::leaves::{increasing, position, subset};
use crate::truth::{
    bit, get_bit, lemma_pack_bit, lemma_pack_bound, lemma_pack_ext, lemma_pow2_small, minterms,
    pack, pow2, with_bit,
};

verus! {

/// A cut of a class: a leaf set and the class's function over it.
#[derive(Debug)]
pub struct Cut {
    /// Sorted class indices.
    pub leaves: Vec<u32>,
    /// Function of the class over the leaves, leaf `i` being variable `i`.
    pub tt: u64,
    /// (e-node, index of the cut taken of each child) realizing this cut; `None` for a
    /// trivial cut.
    pub realization: Option<(usize, Vec<u32>)>,
    /// Number of e-nodes in the realizing cone, counted as a tree.
    pub nnodes: u16,
}

/// A cut as a mathematical value.
#[verifier::ext_equal]
pub struct CutView {
    pub leaves: Seq<u32>,
    pub tt: u64,
    pub realization: Option<(usize, Seq<u32>)>,
    pub nnodes: u16,
}

impl View for Cut {
    type V = CutView;

    open spec fn view(&self) -> CutView {
        CutView {
            leaves: self.leaves@,
            tt: self.tt,
            realization: match self.realization {
                Some(r) => Some((r.0, r.1@)),
                None => None,
            },
            nnodes: self.nnodes,
        }
    }
}

/// The values of a list of cuts.
pub open spec fn cut_seq(s: Seq<Cut>) -> Seq<CutView> {
    Seq::new(s.len(), |i: int| s[i]@)
}

/// The values of the cut lists of all classes.
pub open spec fn cut_lists(s: Seq<Vec<Cut>>) -> Seq<Seq<CutView>> {
    Seq::new(s.len(), |i: int| cut_seq(s[i]@))
}

/// Truth table of a single free variable.
pub const VAR1: u64 = 2;

/// The trivial cut of a class: the class itself as a leaf.
pub open spec fn self_cut(v: u32) -> CutView {
    CutView { leaves: seq![v], tt: VAR1, realization: None, nnodes: 0 }
}

/// The trivial cut of a constant class: no leaf.
pub open spec fn const_cut(c: u64) -> CutView {
    CutView { leaves: Seq::empty(), tt: c, realization: None, nnodes: 0 }
}

/// The minterm that the assignment `a` selects over `leaves`.
pub open spec fn leaf_minterm(leaves: Seq<u32>, a: spec_fn(u32) -> bool) -> u64 {
    pack(leaves.len(), |i: int| a(leaves[i]))
}

/// Value of a cut's function under an assignment of its leaves.
pub open spec fn cut_value(c: CutView, a: spec_fn(u32) -> bool) -> bool {
    bit(c.tt, leaf_minterm(c.leaves, a) as int)
}

/// Value of a gate over child cuts, under an assignment of their leaves.
pub open spec fn gate_value(op_tt: u64, children: Seq<CutView>, a: spec_fn(u32) -> bool) -> bool {
    bit(op_tt, pack(children.len(), |j: int| cut_value(children[j], a)) as int)
}

/// The assignment that minterm `m` over `leaves` stands for.
pub open spec fn assignment(leaves: Seq<u32>, m: u64) -> spec_fn(u32) -> bool {
    |l: u32| bit(m, leaves.index_of(l))
}

/// Truth table over `parent` of a gate applied to child cuts.
pub open spec fn composed(op_tt: u64, children: Seq<CutView>, parent: Seq<u32>) -> u64 {
    pack(
        pow2(parent.len()),
        |m: int| gate_value(op_tt, children, assignment(parent, m as u64)),
    )
}

/// Sizes for which truth tables fit a word, and child leaves that the parent has.
pub open spec fn composable(children: Seq<CutView>, parent: Seq<u32>) -> bool {
    &&& parent.len() <= 6
    &&& children.len() <= 6
    &&& increasing(parent)
    &&& forall|j: int|
        0 <= j < children.len() ==> (#[trigger] children[j]).leaves.len() <= 6 && subset(
            children[j].leaves,
            parent,
        )
}

/// A minterm over at most six variables indexes a 64-bit mask.
pub(crate) proof fn lemma_minterm_small(n: nat, f: spec_fn(int) -> bool)
    requires
        n <= 6,
    ensures
        pack(n, f) < pow2(n) <= 64,
{
    lemma_pack_bound(n, f);
    lemma_pow2_small(n);
}

/// The composed truth table is the operator applied to the child cuts, at every assignment
/// of the parent's leaves.
pub proof fn composition_is_sound(
    op_tt: u64,
    children: Seq<CutView>,
    parent: Seq<u32>,
    a: spec_fn(u32) -> bool,
)
    requires
        composable(children, parent),
    ensures
        bit(composed(op_tt, children, parent), leaf_minterm(parent, a) as int) == gate_value(
            op_tt,
            children,
            a,
        ),
{
    let m = leaf_minterm(parent, a);
    let fp = |i: int| a(parent[i]);
    lemma_minterm_small(parent.len(), fp);
    let g = |k: int| gate_value(op_tt, children, assignment(parent, k as u64));
    lemma_pack_bit(pow2(parent.len()), g, m as int);
    let b = assignment(parent, m);
    assert forall|j: int| 0 <= j < children.len() implies #[trigger] cut_value(children[j], b)
        == cut_value(children[j], a) by {
        let ls = children[j].leaves;
        assert forall|i: int| 0 <= i < ls.len() implies #[trigger] b(ls[i]) == a(ls[i]) by {
            assert(parent.contains(ls[i]));
            let p = parent.index_of(ls[i]);
            assert(0 <= p < parent.len() && parent[p] == ls[i]);
            lemma_pack_bit(parent.len(), fp, p);
        }
        lemma_pack_ext(ls.len(), |i: int| b(ls[i]), |i: int| a(ls[i]));
    }
    lemma_pack_ext(
        children.len(),
        |j: int| cut_value(children[j], b),
        |j: int| cut_value(children[j], a),
    );
}

/// The values of referenced cuts.
pub open spec fn ref_views(s: Seq<&Cut>) -> Seq<CutView> {
    Seq::new(s.len(), |i: int| s[i]@)
}

/// Value of a cut's function at minterm `m` over `parent`.
fn child_bit(c: &Cut, parent: &Vec<u32>, m: u64) -> (r: bool)
    requires
        parent@.len() <= 6,
        c.leaves@.len() <= 6,
        increasing(parent@),
        subset(c.leaves@, parent@),
    ensures
        r == cut_value(c@, assignment(parent@, m)),
{
    let mut mc: u64 = 0;
    let mut i: usize = 0;
    let ghost a = assignment(parent@, m);
    let ghost f = |i: int| a(c.leaves@[i]);
    while i < c.leaves.len()
        invariant
            i <= c.leaves@.len() <= 6,
            parent@.len() <= 6,
            increasing(parent@),
            subset(c.leaves@, parent@),
            a == assignment(parent@, m),
            f == (|i: int| a(c.leaves@[i])),
            mc == pack(i as nat, f),
        decreases c.leaves@.len() - i,
    {
        let l: u32 = c.leaves[i];
        assert(parent@.contains(c.leaves@[i as int]));
        match position(parent, l) {
            Some(p) => {
                proof {
                    let q = parent@.index_of(l);
                    assert(0 <= q < parent@.len() && parent@[q] == l);
                    if q < p {
                        assert(parent@[q] < parent@[p as int]);
                    }
                    if (p as int) < q {
                        assert(parent@[p as int] < parent@[q]);
                    }
                }
                let b: bool = get_bit(m, p as u64);
                assert(b == f(i as int));
                mc = with_bit(mc, i as u64, b);
            },
            None => {},
        }
        i = i + 1;
    }
    proof {
        lemma_minterm_small(c.leaves@.len(), f);
        assert(f == (|i: int| a(c@.leaves[i])));
    }
    get_bit(c.tt, mc)
}

/// Truth table of a gate over the realizing child cuts, expressed over `parent_leaves`.
pub fn compose_tt(op_tt: u64, children: &Vec<&Cut>, parent_leaves: &Vec<u32>) -> (out: u64)
    requires
        composable(ref_views(children@), parent_leaves@),
    ensures
        out == composed(op_tt, ref_views(children@), parent_leaves@),
{
    let ghost cs = ref_views(children@);
    let ghost g = |k: int| gate_value(op_tt, cs, assignment(parent_leaves@, k as u64));
    let total: u64 = minterms(parent_leaves.len());
    let mut out: u64 = 0;
    let mut m: u64 = 0;
    while m < total
        invariant
            m <= total <= 64,
            total == pow2(parent_leaves@.len()),
            composable(cs, parent_leaves@),
            cs == ref_views(children@),
            g == (|k: int| gate_value(op_tt, cs, assignment(parent_leaves@, k as u64))),
            out == pack(m as nat, g),
        decreases total - m,
    {
        let ghost a = assignment(parent_leaves@, m);
        let ghost h = |j: int| cut_value(cs[j], a);
        let mut idx: u64 = 0;
        let mut j: usize = 0;
        while j < children.len()
            invariant
                j <= children@.len() <= 6,
                composable(cs, parent_leaves@),
                cs == ref_views(children@),
                a == assignment(parent_leaves@, m),
                h == (|j: int| cut_value(cs[j], a)),
                idx == pack(j as nat, h),
            decreases children@.len() - j,
        {
            assert(cs[j as int] == children@[j as int]@);
            let b: bool = child_bit(children[j], parent_leaves, m);
            assert(b == h(j as int));
            idx = with_bit(idx, j as u64, b);
            j = j + 1;
        }
        proof {
            lemma_minterm_small(cs.len(), h);
        }
        let b: bool = get_bit(op_tt, idx);
        assert(b == g(m as int));
        out = with_bit(out, m, b);
        m = m + 1;
    }
    out
}

} // verus!
