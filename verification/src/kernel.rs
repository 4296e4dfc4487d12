//! What each constructor computes, and what that makes of a class.
use vstd::prelude::*;

use crate::class_graph::{ClassGraph, FuncTab};
use crate::truth::{op_named, Op};

verus! {

/// Semantics of a constructor.
#[derive(Clone, Copy, Debug, PartialEq, Eq, Structural)]
pub enum Kernel {
    /// Primary input (one primitive child): its class is a free variable.
    Leaf,
    /// Nullary constant with the given bit.
    Const(u64),
    /// Boolean operator with a truth table over its children.
    Op { tt: u64 },
}

/// Why a constructor has no kernel; the number is the constructor's index.
#[derive(Clone, Copy, Debug, PartialEq, Eq, Structural)]
pub enum KernelError {
    /// The vocabulary maps the constructor to no operator.
    NoMapping(usize),
    /// The operator name is unknown.
    UnknownOperator(usize),
    /// `var` must have exactly one primitive child.
    VarShape(usize),
    /// `zero` must be nullary.
    ZeroShape(usize),
    /// `one` must be nullary.
    OneShape(usize),
    /// A gate must have the given number of children, all of them classes.
    GateShape(usize, usize),
}

impl KernelError {
    /// Index of the constructor.
    pub open spec fn spec_func(self) -> usize {
        match self {
            KernelError::NoMapping(i) => i,
            KernelError::UnknownOperator(i) => i,
            KernelError::VarShape(i) => i,
            KernelError::ZeroShape(i) => i,
            KernelError::OneShape(i) => i,
            KernelError::GateShape(i, _) => i,
        }
    }

    /// Index of the constructor.
    pub fn func(self) -> (i: usize)
        ensures
            i == self.spec_func(),
    {
        match self {
            KernelError::NoMapping(i) => i,
            KernelError::UnknownOperator(i) => i,
            KernelError::VarShape(i) => i,
            KernelError::ZeroShape(i) => i,
            KernelError::OneShape(i) => i,
            KernelError::GateShape(i, _) => i,
        }
    }
}

/// Number of true entries.
pub open spec fn count_true(mask: Seq<bool>) -> nat
    decreases mask.len(),
{
    if mask.len() == 0 {
        0
    } else {
        count_true(mask.drop_last()) + if mask.last() {
            1nat
        } else {
            0
        }
    }
}

/// Counts the true entries.
pub(crate) fn count_set(mask: &Vec<bool>) -> (n: usize)
    ensures
        n == count_true(mask@),
        n <= mask@.len(),
{
    let mut n: usize = 0;
    let mut i: usize = 0;
    while i < mask.len()
        invariant
            i <= mask@.len(),
            n <= i,
            n == count_true(mask@.take(i as int)),
        decreases mask@.len() - i,
    {
        assert(mask@.take(i + 1).drop_last() =~= mask@.take(i as int));
        if mask[i] {
            n = n + 1;
        }
        i = i + 1;
    }
    assert(mask@.take(i as int) =~= mask@);
    n
}

/// Operator name that `op_map` gives to the constructor `name`: that of the first pair
/// with the name.
pub open spec fn mapped(op_map: Seq<(String, String)>, name: Seq<char>) -> Option<Seq<char>>
    decreases op_map.len(),
{
    if op_map.len() == 0 {
        None
    } else if op_map[0].0@ == name {
        Some(op_map[0].1@)
    } else {
        mapped(op_map.drop_first(), name)
    }
}

fn find_mapping<'a>(op_map: &'a Vec<(String, String)>, name: &String) -> (r: Option<&'a String>)
    ensures
        mapped(op_map@, name@) == (match r {
            Some(s) => Some(s@),
            None => None,
        }),
{
    let mut i: usize = 0;
    assert(op_map@.skip(0) =~= op_map@);
    while i < op_map.len()
        invariant
            i <= op_map@.len(),
            mapped(op_map@, name@) == mapped(op_map@.skip(i as int), name@),
        decreases op_map@.len() - i,
    {
        if op_map[i].0 == *name {
            return Some(&op_map[i].1);
        }
        assert(op_map@.skip(i as int).drop_first() =~= op_map@.skip(i + 1));
        i = i + 1;
    }
    None
}

/// Kernel of constructor `i`, declared as `f`.
pub open spec fn kernel_of(f: &FuncTab, i: usize, op_map: Seq<(String, String)>) -> Result<
    Kernel,
    KernelError,
> {
    let n_eq = count_true(f.eq_mask@);
    match mapped(op_map, f.term_name@) {
        None => Err(KernelError::NoMapping(i)),
        Some(name) => match op_named(name) {
            None => Err(KernelError::UnknownOperator(i)),
            Some(Op::Var) => if f.arity == 1 && n_eq == 0 {
                Ok(Kernel::Leaf)
            } else {
                Err(KernelError::VarShape(i))
            },
            Some(Op::Zero) => if f.arity == 0 {
                Ok(Kernel::Const(0))
            } else {
                Err(KernelError::ZeroShape(i))
            },
            Some(Op::One) => if f.arity == 0 {
                Ok(Kernel::Const(1))
            } else {
                Err(KernelError::OneShape(i))
            },
            Some(o) => if f.arity == o.pins() && n_eq == o.pins() {
                Ok(Kernel::Op { tt: o.table() })
            } else {
                Err(KernelError::GateShape(i, o.pins() as usize))
            },
        },
    }
}

fn kernel_for(f: &FuncTab, i: usize, op_map: &Vec<(String, String)>) -> (r: Result<
    Kernel,
    KernelError,
>)
    ensures
        r == kernel_of(f, i, op_map@),
{
    let name: &String = match find_mapping(op_map, &f.term_name) {
        Some(s) => s,
        None => {
            return Err(KernelError::NoMapping(i));
        },
    };
    let n_eq: usize = count_set(&f.eq_mask);
    match Op::parse(name.as_str()) {
        None => Err(KernelError::UnknownOperator(i)),
        Some(Op::Var) => if f.arity != 1 || n_eq != 0 {
            Err(KernelError::VarShape(i))
        } else {
            Ok(Kernel::Leaf)
        },
        Some(Op::Zero) => if f.arity != 0 {
            Err(KernelError::ZeroShape(i))
        } else {
            Ok(Kernel::Const(0))
        },
        Some(Op::One) => if f.arity != 0 {
            Err(KernelError::OneShape(i))
        } else {
            Ok(Kernel::Const(1))
        },
        Some(o) => {
            let ar: usize = o.arity();
            if f.arity != ar || n_eq != ar {
                Err(KernelError::GateShape(i, ar))
            } else {
                Ok(Kernel::Op { tt: o.gate_table() })
            }
        },
    }
}

/// Kernels of the first `n` constructors; the first constructor without one is an error.
pub open spec fn all_kernels(funcs: Seq<FuncTab>, op_map: Seq<(String, String)>, n: nat) -> Result<
    Seq<Kernel>,
    KernelError,
>
    decreases n,
{
    if n == 0 {
        Ok(Seq::empty())
    } else {
        match all_kernels(funcs, op_map, (n - 1) as nat) {
            Err(e) => Err(e),
            Ok(ks) => match kernel_of(&funcs[n - 1], (n - 1) as usize, op_map) {
                Err(e) => Err(e),
                Ok(k) => Ok(ks.push(k)),
            },
        }
    }
}

/// The constructor without a kernel is one of those looked at.
pub(crate) proof fn lemma_kernel_error_in_range(
    funcs: Seq<FuncTab>,
    op_map: Seq<(String, String)>,
    n: nat,
)
    requires
        n <= usize::MAX,
    ensures
        all_kernels(funcs, op_map, n) matches Err(e) ==> e.spec_func() < n,
    decreases n,
{
    if n > 0 {
        lemma_kernel_error_in_range(funcs, op_map, (n - 1) as nat);
    }
}

proof fn lemma_kernels_err(funcs: Seq<FuncTab>, op_map: Seq<(String, String)>, n: nat, m: nat)
    requires
        n <= m,
        all_kernels(funcs, op_map, n) is Err,
    ensures
        all_kernels(funcs, op_map, m) == all_kernels(funcs, op_map, n),
    decreases m,
{
    if n < m {
        lemma_kernels_err(funcs, op_map, n, (m - 1) as nat);
    }
}

/// Each of the kernels is that of its constructor.
pub(crate) proof fn lemma_kernel_each(funcs: Seq<FuncTab>, op_map: Seq<(String, String)>, n: nat)
    ensures
        all_kernels(funcs, op_map, n) matches Ok(ks) ==> ks.len() == n && forall|i: int|
            0 <= i < n ==> kernel_of(&funcs[i], i as usize, op_map) == Ok::<Kernel, KernelError>(
                #[trigger] ks[i],
            ),
    decreases n,
{
    if n > 0 {
        lemma_kernel_each(funcs, op_map, (n - 1) as nat);
    }
}

/// Kernels of all constructors, in order; the first constructor without one is an error.
pub fn build_kernels(graph: &ClassGraph, op_map: &Vec<(String, String)>) -> (r: Result<
    Vec<Kernel>,
    KernelError,
>)
    ensures
        match all_kernels(graph.funcs@, op_map@, graph.funcs@.len()) {
            Ok(ks) => r matches Ok(v) && v@ == ks,
            Err(e) => r == Err::<Vec<Kernel>, KernelError>(e),
        },
{
    let mut kernels: Vec<Kernel> = Vec::new();
    let mut i: usize = 0;
    while i < graph.funcs.len()
        invariant
            i <= graph.funcs@.len(),
            all_kernels(graph.funcs@, op_map@, i as nat) == Ok::<Seq<Kernel>, KernelError>(
                kernels@,
            ),
        decreases graph.funcs@.len() - i,
    {
        match kernel_for(&graph.funcs[i], i, op_map) {
            Ok(k) => {
                kernels.push(k);
            },
            Err(e) => {
                proof {
                    lemma_kernels_err(
                        graph.funcs@,
                        op_map@,
                        (i + 1) as nat,
                        graph.funcs@.len(),
                    );
                }
                return Err(e);
            },
        }
        i = i + 1;
    }
    Ok(kernels)
}

/// What a class is, given the kernels of its e-nodes.
#[derive(Clone, Copy, Debug, PartialEq, Eq, Structural)]
pub enum ClassKind {
    /// Primary input.
    Pi,
    /// Constant with the given bit.
    Const(u64),
    Internal,
}

/// The class holds two constants that differ.
#[derive(Clone, Copy, Debug, PartialEq, Eq, Structural)]
pub struct UnsoundClass {
    pub class: usize,
}

/// Kernel of the `i`-th e-node of class `v`.
pub open spec fn kernel_at(graph: &ClassGraph, kernels: Seq<Kernel>, v: int, i: int) -> Kernel {
    kernels[graph.enodes@[graph.enodes_of@[v]@[i] as int].func as int]
}

/// Two e-nodes of class `v` are different constants.
pub open spec fn conflicting(graph: &ClassGraph, kernels: Seq<Kernel>, v: int) -> bool {
    exists|i: int, j: int|
        0 <= i < j < graph.enodes_of@[v]@.len() && (#[trigger] kernel_at(
            graph,
            kernels,
            v,
            i,
        )) is Const && (#[trigger] kernel_at(graph, kernels, v, j)) is Const && kernel_at(
            graph,
            kernels,
            v,
            i,
        ) != kernel_at(graph, kernels, v, j)
}

/// Some e-node of class `v` is the constant `c`.
pub open spec fn has_const(graph: &ClassGraph, kernels: Seq<Kernel>, v: int, c: u64) -> bool {
    exists|i: int|
        0 <= i < graph.enodes_of@[v]@.len() && #[trigger] kernel_at(graph, kernels, v, i)
            == Kernel::Const(c)
}

/// Some e-node of class `v` is a primary input.
pub open spec fn has_leaf(graph: &ClassGraph, kernels: Seq<Kernel>, v: int) -> bool {
    exists|i: int|
        0 <= i < graph.enodes_of@[v]@.len() && #[trigger] kernel_at(graph, kernels, v, i)
            == Kernel::Leaf
}

/// What class `v` is; `None` if it holds two constants that differ. A constant wins over
/// a primary input.
pub open spec fn kind_of(graph: &ClassGraph, kernels: Seq<Kernel>, v: int) -> Option<ClassKind> {
    if conflicting(graph, kernels, v) {
        None
    } else if exists|c: u64| has_const(graph, kernels, v, c) {
        Some(ClassKind::Const(choose|c: u64| has_const(graph, kernels, v, c)))
    } else if has_leaf(graph, kernels, v) {
        Some(ClassKind::Pi)
    } else {
        Some(ClassKind::Internal)
    }
}

/// Every e-node's constructor has a kernel.
pub open spec fn kernels_cover(graph: &ClassGraph, kernels: Seq<Kernel>) -> bool {
    forall|e: int|
        0 <= e < graph.enodes@.len() ==> (#[trigger] graph.enodes@[e]).func < kernels.len()
}

/// What class `v` is. A constant wins over a primary input: a cut above the class must
/// fold the constant, not treat it as a free variable.
pub fn class_kind(graph: &ClassGraph, kernels: &Vec<Kernel>, v: usize) -> (r: Result<
    ClassKind,
    UnsoundClass,
>)
    requires
        graph.nodes_wf(),
        kernels_cover(graph, kernels@),
        v < graph.size(),
    ensures
        r == (match kind_of(graph, kernels@, v as int) {
            Some(k) => Ok::<ClassKind, UnsoundClass>(k),
            None => Err(UnsoundClass { class: v }),
        }),
{
    let ens: &Vec<usize> = &graph.enodes_of[v];
    let mut leaf: bool = false;
    let mut constant: Option<u64> = None;
    let mut i: usize = 0;
    while i < ens.len()
        invariant
            i <= ens@.len(),
            graph.nodes_wf(),
            kernels_cover(graph, kernels@),
            v < graph.size(),
            *ens == graph.enodes_of@[v as int],
            leaf <==> exists|j: int|
                0 <= j < i && #[trigger] kernel_at(graph, kernels@, v as int, j) == Kernel::Leaf,
            constant matches Some(c) ==> exists|j: int|
                0 <= j < i && #[trigger] kernel_at(graph, kernels@, v as int, j) == Kernel::Const(c),
            forall|j: int|
                0 <= j < i && (#[trigger] kernel_at(graph, kernels@, v as int, j)) is Const
                    ==> constant == Some(kernel_at(graph, kernels@, v as int, j)->Const_0),
        decreases ens@.len() - i,
    {
        assert(graph.enodes_of@[v as int]@[i as int] < graph.enodes@.len());
        let ei: usize = ens[i];
        let k: Kernel = kernels[graph.enodes[ei].func];
        assert(k == kernel_at(graph, kernels@, v as int, i as int));
        match k {
            Kernel::Leaf => {
                leaf = true;
            },
            Kernel::Const(c) => {
                match constant {
                    Some(prev) => {
                        if prev != c {
                            assert(conflicting(graph, kernels@, v as int));
                            return Err(UnsoundClass { class: v });
                        }
                    },
                    None => {
                        constant = Some(c);
                    },
                }
            },
            Kernel::Op { .. } => {},
        }
        i = i + 1;
    }
    match constant {
        Some(c) => {
            assert(has_const(graph, kernels@, v as int, c));
            Ok(ClassKind::Const(c))
        },
        None => if leaf {
            Ok(ClassKind::Pi)
        } else {
            Ok(ClassKind::Internal)
        },
    }
}

} // verus!
