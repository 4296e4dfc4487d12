//! Rebuilding the term that realizes a cut.
use egglog::{EGraph, TermDag};
use vstd::prelude::*;

use crate::class_graph::Enode;
use crate::cut::{cut_seq, self_cut, Cut, CutView};
use crate::cut_iter::{class_lookup, lemma_class_in_range, CutIterator, LookupError};
use crate::egraph::{add_app, add_text, added, terms_of, TermView};
use crate::enumerate::{list_ok, operands, realized, trivial, volume_sum, Sweep};
use crate::kernel::{class_kind, has_const, kernel_at, kind_of, ClassKind, Kernel};
use crate::leaves::{copy_list, increasing, position, subset};

verus! {

/// Name of the fresh primary input that stands for leaf `pos`.
pub open spec fn leaf_name(pos: int) -> Seq<char> {
    if pos == 0 {
        "n0"@
    } else if pos == 1 {
        "n1"@
    } else if pos == 2 {
        "n2"@
    } else if pos == 3 {
        "n3"@
    } else if pos == 4 {
        "n4"@
    } else {
        "n5"@
    }
}

fn leaf_text(pos: usize) -> (s: String)
    requires
        pos < 6,
    ensures
        s@ == leaf_name(pos as int),
{
    let s: &str = match pos {
        0 => "n0",
        1 => "n1",
        2 => "n2",
        3 => "n3",
        4 => "n4",
        _ => "n5",
    };
    s.to_owned()
}

/// The fresh primary inputs are named `n` and the digit of the leaf's position, so different
/// leaves have different names.
pub proof fn leaf_names_are_numbered(i: int, j: int)
    requires
        0 <= i < 6,
        0 <= j < 6,
    ensures
        leaf_name(i).len() == 2,
        leaf_name(i)[0] == 'n',
        leaf_name(i)[1] as u32 == 48 + i,
        leaf_name(i) == leaf_name(j) <==> i == j,
{
    reveal_strlit("n0");
    reveal_strlit("n1");
    reveal_strlit("n2");
    reveal_strlit("n3");
    reveal_strlit("n4");
    reveal_strlit("n5");
    assert(leaf_name(j)[1] as u32 == 48 + j);
}

/// The terms only grow.
pub open spec fn grows(a: Seq<TermView>, b: Seq<TermView>) -> bool {
    &&& a.len() <= b.len()
    &&& forall|i: int| 0 <= i < a.len() ==> #[trigger] b[i] == a[i]
}

impl CutIterator {
    /// Constructor of the constant `c`.
    pub open spec fn const_func(&self, c: u64) -> Option<usize> {
        if c == 0 {
            self.zero_func
        } else {
            self.one_func
        }
    }

    /// Name of constructor `f`.
    pub open spec fn head_name(&self, f: int) -> Seq<char> {
        self.graph.funcs@[f].term_name@
    }
}

/// Term `id` is the fresh primary input for the leaf `v`.
pub open spec fn renders_leaf(
    it: &CutIterator,
    terms: Seq<TermView>,
    leaves: Seq<u32>,
    v: u32,
    id: usize,
) -> bool {
    match terms[id as int] {
        TermView::App(head, ch) => {
            &&& it.var_func matches Some(f)
            &&& head == it.head_name(f as int)
            &&& ch.len() == 1
            &&& ch[0] < terms.len()
            &&& terms[ch[0] as int] == TermView::Text(leaf_name(leaves.index_of(v)))
        },
        _ => false,
    }
}

/// Term `id` is the constant that class `v` holds.
pub open spec fn renders_const(it: &CutIterator, terms: Seq<TermView>, v: u32, id: usize) -> bool {
    &&& kind_of(&it.graph, it.kernels@, v as int) matches Some(ClassKind::Const(c))
    &&& it.const_func(c) matches Some(f)
    &&& terms[id as int] == TermView::App(it.head_name(f as int), Seq::empty())
}

/// Term `id` is the cone of cut `ci` of class `v`: its realizing e-nodes down to the given
/// leaves, which are fresh primary inputs. Constants stay as they are.
pub open spec fn renders(
    it: &CutIterator,
    st: Sweep,
    terms: Seq<TermView>,
    leaves: Seq<u32>,
    v: u32,
    ci: int,
    id: usize,
) -> bool
    decreases st.rank[v as int], 1nat, 0nat,
{
    let c = st.cuts[v as int][ci];
    &&& id < terms.len()
    &&& match c.realization {
        None => if leaves.contains(v) {
            renders_leaf(it, terms, leaves, v, id)
        } else {
            renders_const(it, terms, v, id)
        },
        Some((e, chosen)) => match terms[id as int] {
            TermView::App(head, ch) => {
                &&& head == it.head_name(it.graph.enodes@[e as int].func as int)
                &&& ch.len() == it.graph.children(e as int).len()
                &&& renders_kids(it, st, terms, leaves, v, e as int, chosen, ch, ch.len())
            },
            _ => false,
        },
    }
}

/// The first `n` terms of `ch` are the cones of the cuts `chosen` of the children of e-node
/// `e`, which have an earlier rank than class `v`.
pub open spec fn renders_kids(
    it: &CutIterator,
    st: Sweep,
    terms: Seq<TermView>,
    leaves: Seq<u32>,
    v: u32,
    e: int,
    chosen: Seq<u32>,
    ch: Seq<usize>,
    n: nat,
) -> bool
    decreases st.rank[v as int], 0nat, n,
{
    if n == 0 {
        true
    } else {
        let kid = it.graph.children(e)[n - 1];
        &&& renders_kids(it, st, terms, leaves, v, e, chosen, ch, (n - 1) as nat)
        &&& st.rank[kid as int] < st.rank[v as int]
        &&& renders(it, st, terms, leaves, kid, chosen[n - 1] as int, ch[n - 1])
    }
}

/// A term stays what it is when terms are added.
proof fn lemma_renders_grows(
    it: &CutIterator,
    st: Sweep,
    a: Seq<TermView>,
    b: Seq<TermView>,
    leaves: Seq<u32>,
    v: u32,
    ci: int,
    id: usize,
)
    requires
        grows(a, b),
        renders(it, st, a, leaves, v, ci, id),
    ensures
        renders(it, st, b, leaves, v, ci, id),
    decreases st.rank[v as int], 1nat, 0nat,
{
    let c = st.cuts[v as int][ci];
    assert(b[id as int] == a[id as int]);
    match c.realization {
        None => {
            if leaves.contains(v) {
                match a[id as int] {
                    TermView::App(head, ch) => {
                        assert(b[ch[0] as int] == a[ch[0] as int]);
                    },
                    _ => {},
                }
            }
        },
        Some((e, chosen)) => {
            match a[id as int] {
                TermView::App(head, ch) => {
                    lemma_kids_grow(it, st, a, b, leaves, v, e as int, chosen, ch, ch.len());
                },
                _ => {},
            }
        },
    }
}

proof fn lemma_kids_grow(
    it: &CutIterator,
    st: Sweep,
    a: Seq<TermView>,
    b: Seq<TermView>,
    leaves: Seq<u32>,
    v: u32,
    e: int,
    chosen: Seq<u32>,
    ch: Seq<usize>,
    n: nat,
)
    requires
        grows(a, b),
        renders_kids(it, st, a, leaves, v, e, chosen, ch, n),
    ensures
        renders_kids(it, st, b, leaves, v, e, chosen, ch, n),
    decreases st.rank[v as int], 0nat, n,
{
    if n > 0 {
        let kid = it.graph.children(e)[n - 1];
        lemma_kids_grow(it, st, a, b, leaves, v, e, chosen, ch, (n - 1) as nat);
        lemma_renders_grows(it, st, a, b, leaves, kid, chosen[n - 1] as int, ch[n - 1]);
    }
}

/// The terms of all children make up `renders_kids`.
proof fn lemma_kids_render(
    it: &CutIterator,
    st: Sweep,
    terms: Seq<TermView>,
    leaves: Seq<u32>,
    v: u32,
    e: int,
    chosen: Seq<u32>,
    ch: Seq<usize>,
    n: nat,
)
    requires
        forall|j: int|
            0 <= j < n ==> st.rank[#[trigger] it.graph.children(e)[j] as int] < st.rank[v as int]
                && renders(
                it,
                st,
                terms,
                leaves,
                it.graph.children(e)[j],
                chosen[j] as int,
                ch[j],
            ),
    ensures
        renders_kids(it, st, terms, leaves, v, e, chosen, ch, n),
    decreases n,
{
    if n > 0 {
        lemma_kids_render(it, st, terms, leaves, v, e, chosen, ch, (n - 1) as nat);
        assert(renders(
            it,
            st,
            terms,
            leaves,
            it.graph.children(e)[n - 1],
            chosen[n - 1] as int,
            ch[n - 1],
        ));
    }
}

/// Term `i` belongs to the reconstruction over the given leaves.
pub open spec fn belongs_here(
    it: &CutIterator,
    st: Sweep,
    terms: Seq<TermView>,
    leaves: Seq<u32>,
    i: int,
) -> bool {
    ||| exists|p: int| 0 <= p < leaves.len() && terms[i] == TermView::Text(#[trigger] leaf_name(p))
    ||| exists|v: u32, ci: int| #[trigger] renders(it, st, terms, leaves, v, ci, i as usize)
}

proof fn lemma_belongs_grows(
    it: &CutIterator,
    st: Sweep,
    a: Seq<TermView>,
    b: Seq<TermView>,
    leaves: Seq<u32>,
    i: int,
)
    requires
        grows(a, b),
        0 <= i < a.len(),
        belongs_here(it, st, a, leaves, i),
    ensures
        belongs_here(it, st, b, leaves, i),
{
    assert(b[i] == a[i]);
    if exists|p: int| 0 <= p < leaves.len() && a[i] == TermView::Text(#[trigger] leaf_name(p)) {
        let p = choose|p: int|
            0 <= p < leaves.len() && a[i] == TermView::Text(#[trigger] leaf_name(p));
        assert(b[i] == TermView::Text(leaf_name(p)));
    } else {
        let (v, ci) = choose|v: u32, ci: int|
            #[trigger] renders(it, st, a, leaves, v, ci, i as usize);
        lemma_renders_grows(it, st, a, b, leaves, v, ci, i as usize);
    }
}

// ------------------------------------------------------------------ stack machine

/// A step that is still to be taken.
#[derive(Clone, Copy, Debug)]
enum Frame {
    /// Rebuild cut `1` of class `0`.
    Enter(u32, usize),
    /// Apply the realizing e-node of cut `1` of class `0` to the newest results.
    Build(u32, usize),
}

/// The cuts that the realization of cut `x` takes.
spec fn kids_of(it: &CutIterator, st: Sweep, x: (u32, usize)) -> Seq<(u32, usize)> {
    match st.cuts[x.0 as int][x.1 as int].realization {
        None => Seq::empty(),
        Some((e, chosen)) => Seq::new(
            it.graph.children(e as int).len(),
            |j: int| (it.graph.children(e as int)[j], chosen[j] as usize),
        ),
    }
}

/// What the results stand for once all steps are taken, if they now stand for `labels`.
spec fn outcome(
    it: &CutIterator,
    st: Sweep,
    frames: Seq<Frame>,
    labels: Seq<(u32, usize)>,
) -> Option<Seq<(u32, usize)>>
    decreases frames.len(),
{
    if frames.len() == 0 {
        Some(labels)
    } else {
        match frames.last() {
            Frame::Enter(v, ci) => outcome(it, st, frames.drop_last(), labels.push((v, ci))),
            Frame::Build(v, ci) => {
                let kids = kids_of(it, st, (v, ci));
                let base = labels.len() - kids.len();
                if base >= 0 && labels.skip(base) == kids {
                    outcome(it, st, frames.drop_last(), labels.take(base).push((v, ci)))
                } else {
                    None
                }
            },
        }
    }
}

/// Cut `x` exists and its leaves are among the given ones.
spec fn item_ok(it: &CutIterator, st: Sweep, leaves: Seq<u32>, x: (u32, usize)) -> bool {
    &&& x.0 < it.graph.size()
    &&& x.1 < st.cuts[x.0 as int].len()
    &&& subset(st.cuts[x.0 as int][x.1 as int].leaves, leaves)
}

spec fn frame_ok(it: &CutIterator, st: Sweep, leaves: Seq<u32>, f: Frame) -> bool {
    match f {
        Frame::Enter(v, ci) => item_ok(it, st, leaves, (v, ci)),
        Frame::Build(v, ci) => item_ok(it, st, leaves, (v, ci))
            && st.cuts[v as int][ci as int].realization is Some,
    }
}

/// How much work a step stands for.
spec fn weight(st: Sweep, f: Frame) -> nat {
    match f {
        Frame::Enter(v, ci) => (8 * st.cuts[v as int][ci as int].nnodes + 1) as nat,
        Frame::Build(v, ci) => 1,
    }
}

spec fn weights(st: Sweep, frames: Seq<Frame>) -> nat
    decreases frames.len(),
{
    if frames.len() == 0 {
        0
    } else {
        weights(st, frames.drop_last()) + weight(st, frames.last())
    }
}

proof fn lemma_push_weight(st: Sweep, frames: Seq<Frame>, f: Frame)
    ensures
        weights(st, frames.push(f)) == weights(st, frames) + weight(st, f),
{
    assert(frames.push(f).drop_last() =~= frames);
}

/// What a realized cut takes exists and is smaller.
proof fn lemma_kids_ok(it: &CutIterator, st: Sweep, leaves: Seq<u32>, x: (u32, usize))
    requires
        it.wf(),
        st == it.sweep(),
        item_ok(it, st, leaves, x),
        st.cuts[x.0 as int][x.1 as int].realization is Some,
    ensures
        ({
            let c = st.cuts[x.0 as int][x.1 as int];
            let (e, chosen) = c.realization->0;
            &&& e < it.graph.enodes@.len()
            &&& it.graph.enodes@[e as int].func < it.graph.funcs@.len()
            &&& chosen.len() == it.graph.children(e as int).len() <= 6
            &&& c.nnodes == 1 + volume_sum(operands(&it.graph, st.cuts, e as int, chosen))
            &&& forall|j: int|
                0 <= j < chosen.len() ==> item_ok(it, st, leaves, #[trigger] kids_of(it, st, x)[j])
            &&& forall|j: int|
                0 <= j < chosen.len() ==> st.rank[#[trigger] it.graph.children(e as int)[j] as int]
                    < st.rank[x.0 as int]
        }),
{
    let v = x.0 as int;
    let c = st.cuts[v][x.1 as int];
    assert(list_ok(&it.graph, it.params, it.kernels@, it.cone@, st.cuts, st.rank, v));
    if x.1 == 0 {
        assert(trivial(&it.graph, it.kernels@, v, c));
    }
    assert(realized(&it.graph, it.kernels@, st.cuts, st.rank, v, c));
    let (e, chosen) = c.realization->0;
    let ei = e as int;
    let cs = operands(&it.graph, st.cuts, ei, chosen);
    assert(it.graph.enodes@[ei].func < it.graph.funcs@.len());
    assert(cs.len() == chosen.len());
    assert forall|j: int| 0 <= j < chosen.len() implies item_ok(
        it,
        st,
        leaves,
        #[trigger] kids_of(it, st, x)[j],
    ) by {
        assert(chosen[j] < st.cuts[it.graph.children(ei)[j] as int].len());
        assert(it.graph.enodes@[ei].ch_eq@[j] < it.graph.size());
        assert(subset(cs[j].leaves, c.leaves));
        assert forall|i: int| 0 <= i < cs[j].leaves.len() implies leaves.contains(
            #[trigger] cs[j].leaves[i],
        ) by {
            assert(c.leaves.contains(cs[j].leaves[i]));
        }
    }
}

/// Why a cut's term could not be rebuilt.
#[derive(Clone, Copy, Debug, PartialEq, Eq, Structural)]
pub enum TermError {
    /// The value has no class.
    Lookup(LookupError),
    /// The class has fewer cuts.
    CutRange { cuts: usize },
    /// The vocabulary has no constructor of primary inputs.
    NoVar,
}

/// What holds at every step of a reconstruction.
spec fn steps_ok(
    it: &CutIterator,
    st: Sweep,
    leaves: Seq<u32>,
    first: Seq<TermView>,
    terms: Seq<TermView>,
    frames: Seq<Frame>,
    results: Seq<usize>,
    labels: Seq<(u32, usize)>,
) -> bool {
    &&& grows(first, terms)
    &&& forall|i: int| first.len() <= i < terms.len() ==> belongs_here(
        it,
        st,
        terms,
        leaves,
        i,
    )
    &&& forall|k: int| 0 <= k < frames.len() ==> frame_ok(it, st, leaves, #[trigger] frames[k])
    &&& results.len() == labels.len()
    &&& forall|i: int|
        0 <= i < labels.len() ==> renders(
            it,
            st,
            terms,
            leaves,
            (#[trigger] labels[i]).0,
            labels[i].1 as int,
            results[i],
        )
}

/// Adding a term that belongs here keeps what holds at every step.
proof fn lemma_steps_grow(
    it: &CutIterator,
    st: Sweep,
    leaves: Seq<u32>,
    first: Seq<TermView>,
    a: Seq<TermView>,
    b: Seq<TermView>,
    frames: Seq<Frame>,
    results: Seq<usize>,
    labels: Seq<(u32, usize)>,
)
    requires
        steps_ok(it, st, leaves, first, a, frames, results, labels),
        grows(a, b),
        forall|i: int| a.len() <= i < b.len() ==> belongs_here(it, st, b, leaves, i),
    ensures
        steps_ok(it, st, leaves, first, b, frames, results, labels),
{
    assert forall|i: int| 0 <= i < first.len() implies #[trigger] b[i] == first[i] by {
        assert(a[i] == first[i]);
        assert(b[i] == a[i]);
    }
    assert forall|i: int| first.len() <= i < b.len() implies belongs_here(
        it,
        st,
        b,
        leaves,
        i,
    ) by {
        if i < a.len() {
            lemma_belongs_grows(it, st, a, b, leaves, i);
        }
    }
    assert forall|i: int| 0 <= i < labels.len() implies renders(
        it,
        st,
        b,
        leaves,
        (#[trigger] labels[i]).0,
        labels[i].1 as int,
        results[i],
    ) by {
        lemma_renders_grows(
            it,
            st,
            a,
            b,
            leaves,
            labels[i].0,
            labels[i].1 as int,
            results[i],
        );
    }
}

/// A term that was there or is the one new one.
pub(crate) proof fn lemma_added_grows(a: Seq<TermView>, b: Seq<TermView>, t: TermView, id: usize)
    requires
        added(a, b, t, id),
    ensures
        grows(a, b),
        b.len() <= a.len() + 1,
        b.len() == a.len() + 1 ==> id == a.len(),
{
}

impl CutIterator {
    /// Rebuilds the term that realizes cut `cut_idx` of the class of `value`, with the leaves
    /// of the cut as fresh primary inputs `n0`, `n1` and so on. Constants stay as they are.
    pub fn cut_term(
        &self,
        eg: &EGraph,
        dag: &mut TermDag,
        value: u32,
        cut_idx: usize,
        sort: &str,
    ) -> (r: Result<usize, TermError>)
        requires
            self.wf(),
        ensures
            grows(terms_of(*old(dag)), terms_of(*final(dag))),
            match class_lookup(*eg, sort@, self.graph.class_index@, value) {
                Err(e) => r == Err::<usize, TermError>(TermError::Lookup(e)) && terms_of(
                    *final(dag),
                ) == terms_of(*old(dag)),
                Ok(v) => {
                    let list = self.sweep().cuts[v as int];
                    if cut_idx >= list.len() {
                        r == Err::<usize, TermError>(
                            (TermError::CutRange { cuts: list.len() as usize }),
                        ) && terms_of(*final(dag)) == terms_of(*old(dag))
                    } else if self.var_func is None {
                        r == Err::<usize, TermError>(TermError::NoVar) && terms_of(*final(dag))
                            == terms_of(*old(dag))
                    } else {
                        &&& r matches Ok(id)
                        &&& renders(
                            self,
                            self.sweep(),
                            terms_of(*final(dag)),
                            list[cut_idx as int].leaves,
                            v,
                            cut_idx as int,
                            id,
                        )
                        &&& forall|i: int|
                            terms_of(*old(dag)).len() <= i < terms_of(*final(dag)).len()
                                ==> belongs_here(
                                self,
                                self.sweep(),
                                terms_of(*final(dag)),
                                list[cut_idx as int].leaves,
                                i,
                            )
                    }
                },
            },
    {
        let v: u32 = match self.class_of(eg, value, sort) {
            Ok(v) => v,
            Err(e) => {
                return Err(TermError::Lookup(e));
            },
        };
        proof {
            lemma_class_in_range(&self.graph, *eg, sort@, value);
        }
        let ghost st = self.sweep();
        let list: &Vec<Cut> = &self.result.cuts[v as usize];
        assert(st.cuts[v as int] == cut_seq(list@));
        if cut_idx >= list.len() {
            return Err(TermError::CutRange { cuts: list.len() });
        }
        let var_func: usize = match self.var_func {
            Some(f) => f,
            None => {
                return Err(TermError::NoVar);
            },
        };
        assert(st.cuts[v as int][cut_idx as int] == list@[cut_idx as int]@);
        let leaves: Vec<u32> = copy_list(&list[cut_idx].leaves);
        let id: usize = self.render(dag, v, cut_idx, &leaves, var_func);
        Ok(id)
    }

    /// Rebuilds cut `cut_idx` of class `v` over its leaves.
    fn render(
        &self,
        dag: &mut TermDag,
        v: u32,
        cut_idx: usize,
        leaves: &Vec<u32>,
        var_func: usize,
    ) -> (id: usize)
        requires
            self.wf(),
            v < self.graph.size(),
            cut_idx < self.sweep().cuts[v as int].len(),
            leaves@ == self.sweep().cuts[v as int][cut_idx as int].leaves,
            self.var_func == Some(var_func),
        ensures
            grows(terms_of(*old(dag)), terms_of(*final(dag))),
            renders(
                self,
                self.sweep(),
                terms_of(*final(dag)),
                leaves@,
                v,
                cut_idx as int,
                id,
            ),
            forall|i: int|
                terms_of(*old(dag)).len() <= i < terms_of(*final(dag)).len() ==> belongs_here(
                    self,
                    self.sweep(),
                    terms_of(*final(dag)),
                    leaves@,
                    i,
                ),
    {
        let ghost st = self.sweep();
        let ghost first = terms_of(*dag);
        let mut stack: Vec<Frame> = Vec::new();
        let mut results: Vec<usize> = Vec::new();
        let ghost mut labels: Seq<(u32, usize)> = Seq::empty();
        stack.push(Frame::Enter(v, cut_idx));
        proof {
            assert(list_ok(
                &self.graph,
                self.params,
                self.kernels@,
                self.cone@,
                st.cuts,
                st.rank,
                v as int,
            ));
            assert(item_ok(self, st, leaves@, (v, cut_idx)));
            assert(stack@.drop_last() =~= Seq::empty());
            assert(labels.push((v, cut_idx)) =~= seq![(v, cut_idx)]);
            assert(outcome(self, st, Seq::<Frame>::empty(), labels.push((v, cut_idx))) == Some(
                labels.push((v, cut_idx)),
            ));
        }
        while stack.len() > 0
            invariant
                self.wf(),
                st == self.sweep(),
                self.var_func == Some(var_func),
                increasing(leaves@),
                leaves@.len() <= 6,
                steps_ok(self, st, leaves@, first, terms_of(*dag), stack@, results@, labels),
                outcome(self, st, stack@, labels) == Some(seq![(v, cut_idx)]),
            decreases weights(st, stack@),
        {
            let ghost frames0 = stack@;
            let ghost t0 = terms_of(*dag);
            let ghost rest = stack@.drop_last();
            proof {
                assert(frames0 =~= rest.push(frames0.last()));
                lemma_push_weight(st, rest, frames0.last());
                assert(frame_ok(self, st, leaves@, frames0[frames0.len() - 1]));
            }
            match stack.pop() {
                None => {},
                Some(Frame::Enter(w, ci)) => {
                    assert(stack@ =~= rest);
                    let ghost x = (w, ci);
                    assert(st.cuts[w as int] == cut_seq(self.result.cuts@[w as int]@));
                    assert(st.cuts[w as int][ci as int] == self.result.cuts@[w as int]@[ci as int]@);
                    match &self.result.cuts[w as usize][ci].realization {
                        None => {
                            let id: usize = self.render_leaf(dag, w, ci, leaves, var_func);
                            proof {
                                let t1 = terms_of(*dag);
                                lemma_steps_grow(
                                    self,
                                    st,
                                    leaves@,
                                    first,
                                    t0,
                                    t1,
                                    rest,
                                    results@,
                                    labels,
                                );
                                labels = labels.push(x);
                            }
                            results.push(id);
                        },
                        Some((ei, chosen)) => {
                            proof {
                                lemma_kids_ok(self, st, leaves@, x);
                            }
                            let ghost kids = kids_of(self, st, x);
                            let ghost cs = operands(&self.graph, st.cuts, *ei as int, chosen@);
                            stack.push(Frame::Build(w, ci));
                            let ghost base = stack@;
                            let ch: &Vec<u32> = &self.graph.enodes[*ei].ch_eq;
                            let m: usize = ch.len();
                            let mut j: usize = m;
                            proof {
                                lemma_push_weight(st, rest, Frame::Build(w, ci));
                                assert(kids.take(m as int) =~= kids);
                                assert(cs.take(m as int) =~= cs);
                                assert(base.drop_last() =~= rest);
                                let all = labels + kids;
                                assert(all.skip(all.len() - kids.len()) =~= kids);
                                assert(all.take(all.len() - kids.len()) =~= labels);
                                assert(outcome(self, st, base, all) == outcome(
                                    self,
                                    st,
                                    rest,
                                    labels.push(x),
                                ));
                            }
                            while j > 0
                                invariant
                                    j <= m <= 6,
                                    self.wf(),
                                    st == self.sweep(),
                                    x == (w, ci),
                                    *ei < self.graph.enodes@.len(),
                                    *ch == self.graph.enodes@[*ei as int].ch_eq,
                                    m == ch@.len(),
                                    chosen@.len() == m,
                                    st.cuts[w as int][ci as int].realization == Some(
                                        (*ei, chosen@),
                                    ),
                                    kids == kids_of(self, st, x),
                                    kids.len() == m,
                                    cs == operands(&self.graph, st.cuts, *ei as int, chosen@),
                                    cs.len() == m,
                                    forall|i: int|
                                        0 <= i < m ==> item_ok(
                                            self,
                                            st,
                                            leaves@,
                                            #[trigger] kids_of(self, st, x)[i],
                                        ),
                                    forall|k: int|
                                        0 <= k < stack@.len() ==> frame_ok(
                                            self,
                                            st,
                                            leaves@,
                                            #[trigger] stack@[k],
                                        ),
                                    outcome(self, st, stack@, labels + kids.take(j as int))
                                        == Some(seq![(v, cut_idx)]),
                                    weights(st, stack@) + 8 * volume_sum(cs.take(j as int)) + j
                                        == weights(st, rest) + 1 + 8 * volume_sum(cs) + m,
                                decreases j,
                            {
                                let ghost s0 = stack@;
                                let ghost j0 = j as int;
                                j = j - 1;
                                proof {
                                    let kid = kids_of(self, st, x)[j as int];
                                    assert(item_ok(self, st, leaves@, kid));
                                    assert(kid == (ch@[j as int], chosen@[j as int] as usize));
                                    let f = Frame::Enter(ch@[j as int], chosen@[j as int] as usize);
                                    lemma_push_weight(st, s0, f);
                                    assert(s0.push(f).drop_last() =~= s0);
                                    assert((labels + kids.take(j as int)).push(kid) =~= labels
                                        + kids.take(j0));
                                    assert(cs.take(j0).drop_last() =~= cs.take(j as int));
                                    let i = j as int;
                                    assert(cs[i] == st.cuts[ch@[i] as int][chosen@[i] as int]);
                                }
                                stack.push(Frame::Enter(ch[j], chosen[j] as usize));
                            }
                            proof {
                                assert(labels + kids.take(0) =~= labels);
                                assert(cs.take(0) =~= Seq::<CutView>::empty());
                                assert(volume_sum(Seq::<CutView>::empty()) == 0);
                            }
                        },
                    }
                },
                Some(Frame::Build(w, ci)) => {
                    assert(stack@ =~= rest);
                    let ghost x = (w, ci);
                    assert(st.cuts[w as int] == cut_seq(self.result.cuts@[w as int]@));
                    assert(st.cuts[w as int][ci as int] == self.result.cuts@[w as int]@[ci as int]@);
                    match &self.result.cuts[w as usize][ci].realization {
                        None => {},
                        Some((ei, chosen)) => {
                            proof {
                                lemma_kids_ok(self, st, leaves@, x);
                            }
                            let ghost kids = kids_of(self, st, x);
                            let e: &Enode = &self.graph.enodes[*ei];
                            let m: usize = e.ch_eq.len();
                            let base: usize = results.len() - m;
                            let mut ch: Vec<usize> = Vec::new();
                            while ch.len() < m
                                invariant
                                    ch@.len() <= m,
                                    base + m == results.len(),
                                    forall|i: int|
                                        0 <= i < ch@.len() ==> #[trigger] ch@[i] == results@[base
                                            + i],
                                decreases m - ch@.len(),
                            {
                                let i: usize = base + ch.len();
                                ch.push(results[i]);
                            }
                            proof {
                                assert forall|j: int| 0 <= j < m implies st.rank[
                                    #[trigger] self.graph.children(*ei as int)[j] as int
                                ] < st.rank[w as int] && renders(
                                    self,
                                    st,
                                    t0,
                                    leaves@,
                                    self.graph.children(*ei as int)[j],
                                    chosen@[j] as int,
                                    ch@[j],
                                ) by {
                                    let l = labels[base + j];
                                    assert(labels.skip(base as int)[j] == l);
                                    assert(kids[j] == l);
                                    assert(ch@[j] == results@[base + j]);
                                }
                                lemma_kids_render(
                                    self,
                                    st,
                                    t0,
                                    leaves@,
                                    w,
                                    *ei as int,
                                    chosen@,
                                    ch@,
                                    m as nat,
                                );
                                assert forall|i: int| 0 <= i < ch@.len() implies (
                                #[trigger] ch@[i]) < t0.len() by {
                                    let kid = self.graph.children(*ei as int)[i];
                                    assert(renders(
                                        self,
                                        st,
                                        t0,
                                        leaves@,
                                        kid,
                                        chosen@[i] as int,
                                        ch@[i],
                                    ));
                                }
                            }
                            let head: String = self.graph.funcs[e.func].term_name.clone();
                            let ghost chs = ch@;
                            let id: usize = add_app(dag, head, ch);
                            let ghost r0 = results@;
                            results.truncate(base);
                            results.push(id);
                            proof {
                                let t1 = terms_of(*dag);
                                lemma_added_grows(t0, t1, TermView::App(head@, chs), id);
                                lemma_kids_grow(
                                    self,
                                    st,
                                    t0,
                                    t1,
                                    leaves@,
                                    w,
                                    *ei as int,
                                    chosen@,
                                    chs,
                                    m as nat,
                                );
                                assert(renders(self, st, t1, leaves@, w, ci as int, id));
                                assert forall|i: int| t0.len() <= i < t1.len() implies belongs_here(
                                    self,
                                    st,
                                    t1,
                                    leaves@,
                                    i,
                                ) by {
                                    assert(i == id);
                                    assert(renders(self, st, t1, leaves@, w, ci as int, i as usize));
                                }
                                lemma_steps_grow(
                                    self,
                                    st,
                                    leaves@,
                                    first,
                                    t0,
                                    t1,
                                    rest,
                                    r0,
                                    labels,
                                );
                                let l0 = labels;
                                labels = l0.take(base as int).push(x);
                                assert forall|i: int| 0 <= i < labels.len() implies renders(
                                    self,
                                    st,
                                    t1,
                                    leaves@,
                                    (#[trigger] labels[i]).0,
                                    labels[i].1 as int,
                                    results@[i],
                                ) by {
                                    if i < base {
                                        assert(labels[i] == l0[i]);
                                        assert(results@[i] == r0[i]);
                                    }
                                }
                            }
                        },
                    }
                },
            }
        }
        proof {
            assert(labels == seq![(v, cut_idx)]);
            assert(labels[0] == (v, cut_idx));
        }
        results[0]
    }

    /// The term of a trivial cut: the fresh primary input of a leaf, or a constant.
    fn render_leaf(
        &self,
        dag: &mut TermDag,
        w: u32,
        ci: usize,
        leaves: &Vec<u32>,
        var_func: usize,
    ) -> (id: usize)
        requires
            self.wf(),
            self.var_func == Some(var_func),
            item_ok(self, self.sweep(), leaves@, (w, ci)),
            self.sweep().cuts[w as int][ci as int].realization is None,
            increasing(leaves@),
            leaves@.len() <= 6,
        ensures
            grows(terms_of(*old(dag)), terms_of(*final(dag))),
            renders(
                self,
                self.sweep(),
                terms_of(*final(dag)),
                leaves@,
                w,
                ci as int,
                id,
            ),
            forall|i: int|
                terms_of(*old(dag)).len() <= i < terms_of(*final(dag)).len() ==> belongs_here(
                    self,
                    self.sweep(),
                    terms_of(*final(dag)),
                    leaves@,
                    i,
                ),
    {
        let ghost st = self.sweep();
        let ghost t0 = terms_of(*dag);
        match position(leaves, w) {
            Some(pos) => {
                proof {
                    let q = leaves@.index_of(w);
                    assert(leaves@.contains(w)) by {
                        assert(leaves@[pos as int] == w);
                    }
                    assert(0 <= q < leaves@.len() && leaves@[q] == w);
                    if q < pos {
                        assert(leaves@[q] < leaves@[pos as int]);
                    }
                    if (pos as int) < q {
                        assert(leaves@[pos as int] < leaves@[q]);
                    }
                }
                let text: String = leaf_text(pos);
                let lit: usize = add_text(dag, text);
                let ghost t1 = terms_of(*dag);
                let head: String = self.graph.funcs[var_func].term_name.clone();
                let mut ch: Vec<usize> = Vec::new();
                ch.push(lit);
                let ghost chs = ch@;
                let id: usize = add_app(dag, head, ch);
                proof {
                    let t2 = terms_of(*dag);
                    lemma_added_grows(t0, t1, TermView::Text(text@), lit);
                    lemma_added_grows(t1, t2, TermView::App(head@, chs), id);
                    assert(t2[lit as int] == t1[lit as int]);
                    assert(renders_leaf(self, t2, leaves@, w, id));
                    assert(renders(self, st, t2, leaves@, w, ci as int, id));
                    assert forall|i: int| 0 <= i < t0.len() implies #[trigger] t2[i] == t0[i] by {
                        assert(t1[i] == t0[i]);
                        assert(t2[i] == t1[i]);
                    }
                    assert forall|i: int| t0.len() <= i < t2.len() implies belongs_here(
                        self,
                        st,
                        t2,
                        leaves@,
                        i,
                    ) by {
                        if i < t1.len() {
                            assert(i == lit);
                            assert(t2[i] == TermView::Text(leaf_name(pos as int)));
                        } else {
                            assert(i == id);
                            assert(renders(self, st, t2, leaves@, w, ci as int, i as usize));
                        }
                    }
                }
                id
            },
            None => {
                proof {
                    lemma_constant(self, w, ci as int, leaves@);
                }
                let f: Option<usize> = match class_kind(&self.graph, &self.kernels, w as usize) {
                    Ok(ClassKind::Const(c)) => if c == 0 {
                        self.zero_func
                    } else {
                        self.one_func
                    },
                    _ => None,
                };
                match f {
                    Some(f) => {
                        let head: String = self.graph.funcs[f].term_name.clone();
                        let ch: Vec<usize> = Vec::new();
                        let ghost chs = ch@;
                        let id: usize = add_app(dag, head, ch);
                        proof {
                            let t1 = terms_of(*dag);
                            lemma_added_grows(t0, t1, TermView::App(head@, chs), id);
                            assert(chs =~= Seq::<usize>::empty());
                            assert(renders(self, st, t1, leaves@, w, ci as int, id));
                            assert forall|i: int| t0.len() <= i < t1.len() implies belongs_here(
                                self,
                                st,
                                t1,
                                leaves@,
                                i,
                            ) by {
                                assert(i == id);
                                assert(renders(self, st, t1, leaves@, w, ci as int, i as usize));
                            }
                        }
                        id
                    },
                    None => 0,
                }
            },
        }
    }
}

/// A trivial cut whose class is no leaf is a constant, and a constructor makes it.
proof fn lemma_constant(it: &CutIterator, w: u32, ci: int, leaves: Seq<u32>)
    requires
        it.wf(),
        item_ok(it, it.sweep(), leaves, (w, ci as usize)),
        0 <= ci <= usize::MAX,
        it.sweep().cuts[w as int][ci].realization is None,
        !leaves.contains(w),
    ensures
        ({
            &&& kind_of(&it.graph, it.kernels@, w as int) matches Some(ClassKind::Const(c))
            &&& c == 0 || c == 1
            &&& it.const_func(c) matches Some(f)
            &&& f < it.graph.funcs@.len()
            &&& it.kernels@[f as int] == Kernel::Const(c)
        }),
{
    let st = it.sweep();
    let v = w as int;
    let c = st.cuts[v][ci];
    assert(list_ok(&it.graph, it.params, it.kernels@, it.cone@, st.cuts, st.rank, v));
    if ci > 0 {
        assert(realized(&it.graph, it.kernels@, st.cuts, st.rank, v, st.cuts[v][ci]));
    }
    assert(trivial(&it.graph, it.kernels@, v, c));
    if c == self_cut(w) {
        assert(c.leaves[0] == w);
        assert(leaves.contains(c.leaves[0]));
    }
    let b = kind_of(&it.graph, it.kernels@, v)->0->Const_0;
    assert(has_const(&it.graph, it.kernels@, v, b));
    let i = choose|i: int|
        0 <= i < it.graph.enodes_of@[v]@.len() && #[trigger] kernel_at(
            &it.graph,
            it.kernels@,
            v,
            i,
        ) == Kernel::Const(b);
    let e = it.graph.enodes_of@[v]@[i] as int;
    assert(it.graph.enodes_of@[v]@[i] < it.graph.enodes@.len());
    let f = it.graph.enodes@[e].func as int;
    assert(it.graph.enodes@[e].func < it.graph.funcs@.len());
    assert(it.kernels@[f] == Kernel::Const(b));
}

} // verus!
