//! Cuts of hand-made class graphs. Classes are named by their indices; bit `m` of a truth
//! table is the value at the minterm in which pin `i` is bit `i` of `m`.
use std::collections::HashMap;

use cutgraph::class_graph::{ClassGraph, Enode, FuncTab};
use cutgraph::cost::Cost;
use cutgraph::cut::{compose_tt, Cut, VAR1};
use cutgraph::enumerate::{enumerate_cuts, CutError, CutParams, CutResult};
use cutgraph::fnv::{fnv_bytes, fnv_leaves, fnv_mix_u64, FNV_OFFSET};
use cutgraph::kernel::{build_kernels, class_kind, ClassKind, Kernel, KernelError, UnsoundClass};
use cutgraph::leaves::{is_subset, merge_leaves};
use cutgraph::merge::merge_product;
use cutgraph::profile::SccProfile;
use cutgraph::reach::closure;
use cutgraph::scc::tarjan_scc;
use cutgraph::snapshot::{assemble, NodeRow};
use cutgraph::truth::{full, not_, op_arity, op_truth_table, op_tt, var_mask};

fn mkgraph(
    n_classes: usize,
    funcs: Vec<(&str, Vec<bool>)>,
    ens: Vec<(usize, usize, Vec<u32>)>,
) -> ClassGraph {
    let mut g = ClassGraph {
        funcs: funcs
            .into_iter()
            .map(|(n, m)| {
                let arity = m.len();
                FuncTab { term_name: n.to_string(), eq_mask: m, arity }
            })
            .collect(),
        enodes: Vec::new(),
        classes: Vec::new(),
        class_index: HashMap::new(),
        enodes_of: Vec::new(),
        adj: Vec::new(),
        sccs: Vec::new(),
        scc_of: Vec::new(),
    };
    let mut ens_of: Vec<Vec<usize>> = vec![Vec::new(); n_classes];
    for (func, out, ch) in &ens {
        assert!(*out < n_classes);
        for &c in ch {
            assert!((c as usize) < n_classes);
        }
        ens_of[*out].push(g.enodes.len());
        g.enodes.push(Enode {
            func: *func,
            out: *out as u32,
            ch_eq: ch.clone(),
            ch_prim: Vec::new(),
            head: Cost::zero(),
        });
    }
    g.classes = (0..n_classes as u32).collect();
    g.enodes_of = ens_of;
    g.adj = vec![Vec::new(); n_classes];
    for e in &g.enodes {
        for &c in &e.ch_eq {
            g.adj[e.out as usize].push(c);
        }
    }
    g.sccs = tarjan_scc(n_classes, &g.adj);
    g.scc_of = vec![0u32; n_classes];
    for (si, comp) in g.sccs.iter().enumerate() {
        for &v in comp {
            g.scc_of[v as usize] = si as u32;
        }
    }
    g
}

fn params(k: usize, max_cuts: usize) -> CutParams {
    CutParams { k, max_cuts, enode_cap: None, cand_cap: 1000 }
}

fn leaf_leaves(res: &CutResult, v: usize) -> Vec<Vec<u32>> {
    res.cuts[v].iter().map(|c| c.leaves.clone()).collect()
}

fn gate(op: &str) -> Kernel {
    Kernel::Op { tt: op_tt(op).unwrap() }
}

/// A single primary input gets exactly its trivial cut (its table is the variable).
#[test]
fn t1_single_pi_trivial_only() {
    let mut g = mkgraph(1, vec![("var", vec![false])], vec![]);
    // the var e-node itself (String child; mkgraph only does class children)
    g.enodes.push(Enode {
        func: 0,
        out: 0,
        ch_eq: vec![],
        ch_prim: vec![(0, 7)],
        head: Cost::zero(),
    });
    g.enodes_of[0].push(0);
    let kernels = vec![Kernel::Leaf];
    let cone = vec![true];
    let res = enumerate_cuts(&g, &params(4, 16), &kernels, &cone).unwrap();
    assert_eq!(res.cuts[0].len(), 1);
    assert_eq!(res.cuts[0][0].leaves, vec![0]);
    assert_eq!(res.cuts[0][0].tt, VAR1);
    assert!(res.cuts[0][0].realization.is_none());
    assert_eq!(res.stats.num_pi_classes, 1);
}

/// One and-node: cuts = [trivial, {x,y}] with table 0b1000.
#[test]
fn t2_single_and() {
    // classes: 0=x(var), 1=y(var), 2=and(x,y)
    let g = mkgraph(
        3,
        vec![("var", vec![false]), ("B_and", vec![true, true])],
        vec![(1, 2, vec![0, 1])],
    );
    let kernels = vec![Kernel::Leaf, gate("and")];
    let cone = vec![true, true, true];
    let res = enumerate_cuts(&g, &params(4, 16), &kernels, &cone).unwrap();
    assert_eq!(leaf_leaves(&res, 2), vec![vec![2], vec![0, 1]]);
    assert_eq!(res.cuts[2][1].tt, 0b1000);
}

/// Shared child: w = and(x, z), z = and(x, y). w must see both {x,y} (through z's
/// non-trivial cut) and {x,z} (through z's trivial one).
#[test]
fn t3_shared_child() {
    // 0=x, 1=y, 2=z=and(x,y), 3=w=and(x,z)
    let g = mkgraph(
        4,
        vec![("var", vec![false]), ("B_and", vec![true, true])],
        vec![(1, 2, vec![0, 1]), (1, 3, vec![0, 2])],
    );
    let kernels = vec![Kernel::Leaf, gate("and")];
    let cone = vec![true; 4];
    let res = enumerate_cuts(&g, &params(4, 16), &kernels, &cone).unwrap();
    let w = leaf_leaves(&res, 3);
    assert!(w.contains(&vec![0, 1]), "w cuts must contain x,y: {w:?}");
    assert!(w.contains(&vec![0, 2]), "w cuts must contain x,z: {w:?}");
    // table of {x,y} in w: and(x, and(x,y)) = x*y = 0b1000
    let i = w.iter().position(|l| l == &vec![0, 1]).unwrap();
    assert_eq!(res.cuts[3][i].tt, 0b1000);
}

/// A class with two e-nodes over the same leaf set (and(x,y) and and(y,x)) has ONE {x,y}
/// cut.
#[test]
fn t4_choice_dedupe() {
    // 0=x, 1=y, 2=choice{and(x,y), and(y,x)}
    let g = mkgraph(
        3,
        vec![("var", vec![false]), ("B_and", vec![true, true])],
        vec![(1, 2, vec![0, 1]), (1, 2, vec![1, 0])],
    );
    let kernels = vec![Kernel::Leaf, gate("and")];
    let cone = vec![true; 3];
    let res = enumerate_cuts(&g, &params(4, 16), &kernels, &cone).unwrap();
    assert_eq!(leaf_leaves(&res, 2), vec![vec![2], vec![0, 1]]);
}

/// Constant class: no leaves, table = the constant bit; consumers constant-fold through it.
#[test]
fn t4b_const_class() {
    // 0=x, 1=zero, 2=and(x, zero)
    let g = mkgraph(
        3,
        vec![("var", vec![false]), ("B_zero", vec![]), ("B_and", vec![true, true])],
        vec![(1, 1, vec![]), (2, 2, vec![0, 1])],
    );
    let kernels = vec![Kernel::Leaf, Kernel::Const(0), gate("and")];
    let cone = vec![true; 3];
    let res = enumerate_cuts(&g, &params(4, 16), &kernels, &cone).unwrap();
    assert_eq!(res.cuts[1].len(), 1);
    assert_eq!(res.cuts[1][0].leaves, Vec::<u32>::new());
    assert_eq!(res.cuts[1][0].tt, 0);
    // and(x, 0) = 0
    assert_eq!(leaf_leaves(&res, 2), vec![vec![2], vec![0]]);
    assert_eq!(res.cuts[2][1].tt, 0);
}

/// Three-level chain: cut-set growth with three and four leaves.
#[test]
fn t5_chain_growth() {
    // 0=a, 1=b, 2=c, 3=d, 4=and(a,b), 5=and(4,c), 6=and(5,d)
    let g = mkgraph(
        7,
        vec![("var", vec![false]), ("B_and", vec![true, true])],
        vec![(1, 4, vec![0, 1]), (1, 5, vec![4, 2]), (1, 6, vec![5, 3])],
    );
    let kernels = vec![Kernel::Leaf, gate("and")];
    let cone = vec![true; 7];
    let res3 = enumerate_cuts(&g, &params(3, 16), &kernels, &cone).unwrap();
    // class 4: {4}, {a,b}
    assert_eq!(leaf_leaves(&res3, 4), vec![vec![4], vec![0, 1]]);
    // class 5: {5}, {4,c}, {a,b,c}
    assert_eq!(leaf_leaves(&res3, 5), vec![vec![5], vec![2, 4], vec![0, 1, 2]]);
    // class 6 with three leaves: from {5},{4,c},{a,b,c} x {d}: {6}, {5,d}, {4,c,d};
    // {a,b,c,d} is too large
    assert_eq!(leaf_leaves(&res3, 6), vec![vec![6], vec![3, 5], vec![2, 3, 4]]);
    let res4 = enumerate_cuts(&g, &params(4, 16), &kernels, &cone).unwrap();
    // class 6 with four leaves adds {a,b,c,d}
    let w = leaf_leaves(&res4, 6);
    assert!(w.contains(&vec![0, 1, 2, 3]), "four leaves must be admitted: {w:?}");
    // table of the full cut = and(and(and(a,b),c),d) = 0b1000_0000_0000_0000
    let i = w.iter().position(|l| l == &vec![0, 1, 2, 3]).unwrap();
    assert_eq!(res4.cuts[6][i].tt, 1 << 15);
}

/// A merge of three children produces the {s,a,b} cut with the mux truth table.
#[test]
fn t6_mux() {
    // 0=s, 1=a, 2=b, 3=mux(s,a,b)
    let g = mkgraph(
        4,
        vec![("var", vec![false]), ("B_mux", vec![true, true, true])],
        vec![(1, 3, vec![0, 1, 2])],
    );
    let kernels = vec![Kernel::Leaf, gate("mux")];
    let cone = vec![true; 4];
    let res = enumerate_cuts(&g, &params(4, 16), &kernels, &cone).unwrap();
    assert_eq!(leaf_leaves(&res, 3), vec![vec![3], vec![0, 1, 2]]);
    let tt = res.cuts[3][1].tt;
    // minterm m: s=bit0, a=bit1, b=bit2
    for m in 0..8u64 {
        let (s, a, b) = ((m & 1) == 1, (m >> 1) & 1 == 1, (m >> 2) & 1 == 1);
        assert_eq!((tt >> m) & 1, u64::from(if s { a } else { b }), "minterm {m}");
    }
}

/// A class that is its own child has its trivial cut only, and others may still use it as a
/// leaf.
#[test]
fn t7_self_loop_degrades_to_leaf() {
    // 0 = or(x, 0) self-loop; 1 = and(0, y); 2 = y(var); 3 = x(var)
    let g = mkgraph(
        4,
        vec![
            ("var", vec![false]),
            ("B_or", vec![true, true]),
            ("B_and", vec![true, true]),
        ],
        vec![(1, 0, vec![3, 0]), (2, 1, vec![0, 2])],
    );
    let kernels = vec![Kernel::Leaf, gate("or"), gate("and")];
    let cone = vec![true; 4];
    let res = enumerate_cuts(&g, &params(4, 16), &kernels, &cone).unwrap();
    assert_eq!(res.cuts[0].len(), 1, "self-loop class: trivial only");
    assert_eq!(res.stats.num_cyclic_classes, 1);
    // class 1 uses class 0 as a leaf: cuts {1}, {0,2}
    assert_eq!(leaf_leaves(&res, 1), vec![vec![1], vec![0, 2]]);
}

/// The caps on e-nodes and cuts, and two runs alike.
#[test]
fn t8_caps_and_determinism() {
    // wide class: 10 = or(var i, var (i+1)%10) with 10 enodes
    let funcs = vec![("var", vec![false]), ("B_or", vec![true, true])];
    let mut enodes = Vec::new();
    for i in 0..10u32 {
        let a = i as usize;
        let b = ((i + 1) % 10) as usize;
        enodes.push((1usize, 10usize, vec![a as u32, b as u32]));
    }
    let g = mkgraph(11, funcs, enodes);
    let kernels = vec![Kernel::Leaf, gate("or")];
    let cone = vec![true; 11];
    let mut p = params(4, 16);
    p.enode_cap = Some(2);
    let res = enumerate_cuts(&g, &p, &kernels, &cone).unwrap();
    // only enodes (0,1) and (1,2) considered -> leaf pairs {0,1},{1,2}
    let w = leaf_leaves(&res, 10);
    assert!(w.contains(&vec![0, 1]));
    assert!(w.contains(&vec![1, 2]));
    assert!(!w.contains(&vec![4, 5]));
    // cap on cuts
    let mut p2 = params(4, 3);
    p2.enode_cap = None;
    let res2 = enumerate_cuts(&g, &p2, &kernels, &cone).unwrap();
    assert!(res2.cuts[10].len() <= 3);
    // determinism
    let res3 = enumerate_cuts(&g, &p, &kernels, &cone).unwrap();
    assert_eq!(format!("{:?}", res.cuts[10]), format!("{:?}", res3.cuts[10]));
}

/// The table of aoi21 over {x,y,z} = !((x&y)|z) = 0b0111.
#[test]
fn t9_aoi21() {
    // 0=x,1=y,2=z, 3=aoi21(x,y,z)
    let g = mkgraph(
        4,
        vec![("var", vec![false]), ("B_aoi21", vec![true, true, true])],
        vec![(1, 3, vec![0, 1, 2])],
    );
    let kernels = vec![Kernel::Leaf, gate("aoi21")];
    let cone = vec![true; 4];
    let res = enumerate_cuts(&g, &params(4, 16), &kernels, &cone).unwrap();
    assert_eq!(res.cuts[3][1].tt, 0b0111);
}

/// Explicit not-node: n = not(x) has the {x} cut with table 0b01.
#[test]
fn t10_not_node() {
    // 0=x, 1=not(x), 2=and(1, y), 3=y
    let g = mkgraph(
        4,
        vec![("var", vec![false]), ("B_not", vec![true]), ("B_and", vec![true, true])],
        vec![(1, 1, vec![0]), (2, 2, vec![1, 3])],
    );
    let kernels = vec![Kernel::Leaf, gate("not"), gate("and")];
    let cone = vec![true; 4];
    let res = enumerate_cuts(&g, &params(4, 16), &kernels, &cone).unwrap();
    assert_eq!(leaf_leaves(&res, 1), vec![vec![1], vec![0]]);
    assert_eq!(res.cuts[1][1].tt, 0b01);
    // and(~x, y): minterms where x=0,y=1 -> m = 0b10 = 2
    let w = leaf_leaves(&res, 2);
    let i = w.iter().position(|l| l == &vec![0, 3]).unwrap();
    assert_eq!(res.cuts[2][i].tt, 0b0100);
}

/// A complement pair (c, ~c) forms a two-cycle by way of the double-negation rows; both
/// classes must be finalized (~c is a not-gate over c).
#[test]
fn t19_complement_pair_fixpoint() {
    // 0 = x (var row + not(1) row from double-negation), 1 = not(0)
    let mut g = mkgraph(
        2,
        vec![("var", vec![false]), ("B_not", vec![true])],
        vec![(1, 1, vec![0]), (1, 0, vec![1])],
    );
    g.enodes.push(Enode {
        func: 0,
        out: 0,
        ch_eq: vec![],
        ch_prim: vec![(0, 7)],
        head: Cost::zero(),
    });
    let last = g.enodes.len() - 1;
    g.enodes_of[0].push(last);
    let kernels = vec![Kernel::Leaf, gate("not")];
    let cone = vec![true; 2];
    let res = enumerate_cuts(&g, &params(4, 16), &kernels, &cone).unwrap();
    // class 0: trivial only (var); class 1: trivial + {0} with table not
    assert_eq!(leaf_leaves(&res, 0), vec![vec![0]]);
    assert_eq!(leaf_leaves(&res, 1), vec![vec![1], vec![0]]);
    assert_eq!(res.cuts[1][1].tt, 0b01);
    assert_eq!(res.stats.num_trivial_only, 1);
}

/// A superset leaf set is dropped where a subset one survives. The choice class 4 has a
/// direct and(a,b) e-node (cut {a,b}) next to the nested and(and(a,b),c) shape (cut
/// {a,b,c}); the superset must go.
#[test]
fn t11_dominance() {
    // 0=a,1=b,2=c, 3=and(a,b), 4=choice{and(3,c), and(a,b)}
    let g = mkgraph(
        5,
        vec![("var", vec![false]), ("B_and", vec![true, true])],
        vec![(1, 3, vec![0, 1]), (1, 4, vec![3, 2]), (1, 4, vec![0, 1])],
    );
    let kernels = vec![Kernel::Leaf, gate("and")];
    let cone = vec![true; 5];
    let res = enumerate_cuts(&g, &params(4, 16), &kernels, &cone).unwrap();
    // {0,1,2} dropped by dominance ({0,1} subset); {2,3} incomparable, kept;
    // {2,3} ranks before {0,1} by the hash of the leaves.
    assert_eq!(leaf_leaves(&res, 4), vec![vec![4], vec![2, 3], vec![0, 1]]);
}

/// The same leaf set from two e-nodes with different tables (possible where leaves are
/// correlated): the first table is kept and the conflict is counted.
#[test]
fn t12_tt_conflict_keeps_first() {
    // class 2 has and(x,y) and or(x,y) over the same leaves {x,y}
    let g = mkgraph(
        3,
        vec![("var", vec![false]), ("B_and", vec![true, true]), ("B_or", vec![true, true])],
        vec![(1, 2, vec![0, 1]), (2, 2, vec![0, 1])],
    );
    let kernels = vec![Kernel::Leaf, gate("and"), gate("or")];
    let cone = vec![true; 3];
    let res = enumerate_cuts(&g, &params(4, 16), &kernels, &cone).unwrap();
    assert_eq!(leaf_leaves(&res, 2), vec![vec![2], vec![0, 1]]);
    assert_eq!(res.cuts[2][1].tt, 0b1000); // the FIRST realization (and)
    assert_eq!(res.stats.tt_conflicts, 1);
}

// ---------------------------------------------------------------------- truth tables

#[test]
fn truth_tables_of_the_operators() {
    assert_eq!(op_truth_table("not"), Ok(0b01));
    assert_eq!(op_truth_table("and"), Ok(0b1000));
    assert_eq!(op_truth_table("or"), Ok(0b1110));
    assert_eq!(op_truth_table("xor"), Ok(0b0110));
    assert_eq!(op_truth_table("nand"), Ok(0b0111));
    assert_eq!(op_truth_table("nor"), Ok(0b0001));
    assert_eq!(op_truth_table("xnor"), Ok(0b1001));
    assert_eq!(op_truth_table("aoi21"), Ok(0b0000_0111));
    assert_eq!(op_truth_table("oai21"), Ok(0b0001_1111));
    assert_eq!(op_truth_table("mux"), Ok(0b1101_1000));
    assert_eq!(op_truth_table("aoi22"), Ok(0x0777));
    assert_eq!(op_truth_table("oai22"), Ok(0x111f));
    assert!(op_truth_table("var").is_err());
    assert!(op_truth_table("zero").is_err());
    assert!(op_truth_table("nope").is_err());
}

#[test]
fn arities_of_the_operators() {
    assert_eq!(op_arity("var"), Some(1));
    assert_eq!(op_arity("zero"), Some(0));
    assert_eq!(op_arity("one"), Some(0));
    assert_eq!(op_arity("xnor"), Some(2));
    assert_eq!(op_arity("mux"), Some(3));
    assert_eq!(op_arity("oai22"), Some(4));
    assert_eq!(op_arity("buf"), None);
}

#[test]
fn masks_of_variables() {
    assert_eq!(var_mask(0, 1), 0b10);
    assert_eq!(var_mask(0, 2), 0b1010);
    assert_eq!(var_mask(1, 2), 0b1100);
    assert_eq!(var_mask(2, 3), 0xf0);
    assert_eq!(var_mask(5, 6), 0xffff_ffff_0000_0000);
    assert_eq!(full(0), 1);
    assert_eq!(full(2), 0xf);
    assert_eq!(full(5), 0xffff_ffff);
    assert_eq!(full(6), u64::MAX);
    assert_eq!(not_(0b1000, 2), 0b0111);
    assert_eq!(not_(var_mask(5, 6), 6), 0xffff_ffff);
}

/// A composed table gives the operator over the functions of the children.
#[test]
fn composed_table_follows_the_leaves() {
    let a = Cut { leaves: vec![3, 7], tt: 0b1000, realization: None, nnodes: 1 };
    let b = Cut { leaves: vec![5], tt: VAR1, realization: None, nnodes: 0 };
    let children = vec![&a, &b];
    let tt = compose_tt(op_tt("or").unwrap(), &children, &vec![3, 5, 7]);
    // (leaf 3 and leaf 7) or leaf 5
    for m in 0..8u64 {
        let (x, y, z) = (m & 1, (m >> 1) & 1, (m >> 2) & 1);
        assert_eq!((tt >> m) & 1, (x & z) | y, "minterm {m}");
    }
}

// ---------------------------------------------------------------------------- leaves

#[test]
fn merged_leaves_are_the_sorted_union() {
    assert_eq!(merge_leaves(&vec![1, 4, 9], &vec![2, 4]), vec![1, 2, 4, 9]);
    assert_eq!(merge_leaves(&vec![], &vec![2, 4]), vec![2, 4]);
    assert!(is_subset(&vec![2, 9], &vec![1, 2, 9]));
    assert!(!is_subset(&vec![2, 8], &vec![1, 2, 9]));
}

/// The products of two lists, in order, without the leaf sets that are too large, and no
/// more of them than the budget allows.
#[test]
fn products_within_the_budget() {
    let cut = |leaves: Vec<u32>| Cut { leaves, tt: VAR1, realization: None, nnodes: 0 };
    let a = vec![cut(vec![1]), cut(vec![2, 3])];
    let b = vec![cut(vec![4]), cut(vec![3, 5])];
    let mut budget: usize = 10;
    let all = merge_product(&vec![&a, &b], 3, &mut budget);
    assert_eq!(
        all,
        vec![
            (vec![1, 4], vec![0, 0]),
            (vec![1, 3, 5], vec![0, 1]),
            (vec![2, 3, 4], vec![1, 0]),
            (vec![2, 3, 5], vec![1, 1]),
        ]
    );
    assert_eq!(budget, 6);
    let mut budget: usize = 10;
    assert_eq!(merge_product(&vec![&a, &b], 2, &mut budget), vec![(vec![1, 4], vec![0, 0])]);
    let mut budget: usize = 2;
    assert_eq!(merge_product(&vec![&a, &b], 3, &mut budget).len(), 2);
    assert_eq!(budget, 0);
}

#[test]
fn hashes_of_leaves() {
    assert_eq!(fnv_leaves(&vec![]), 0xcbf29ce484222325);
    let mut h: u64 = 0xcbf29ce484222325;
    for b in [2u8, 0, 0, 0, 3, 1, 0, 0] {
        h ^= u64::from(b);
        h = h.wrapping_mul(0x100000001b3);
    }
    assert_eq!(fnv_leaves(&vec![2, 259]), h);
    assert_eq!(fnv_bytes(FNV_OFFSET, b"a"), 0xaf63dc4c8601ec8c);
    assert_eq!(fnv_mix_u64(FNV_OFFSET, 0x61), fnv_bytes(FNV_OFFSET, b"a\0\0\0\0\0\0\0"));
}

// --------------------------------------------------------------------------- kernels

fn pairs(list: &[(&str, &str)]) -> Vec<(String, String)> {
    list.iter().map(|(a, b)| (a.to_string(), b.to_string())).collect()
}

#[test]
fn kernels_of_a_vocabulary() {
    let g = mkgraph(
        0,
        vec![
            ("V", vec![false]),
            ("Z", vec![]),
            ("O", vec![]),
            ("A", vec![true, true]),
        ],
        vec![],
    );
    let map = pairs(&[("A", "and"), ("O", "one"), ("V", "var"), ("Z", "zero")]);
    assert_eq!(
        build_kernels(&g, &map),
        Ok(vec![Kernel::Leaf, Kernel::Const(0), Kernel::Const(1), Kernel::Op { tt: 0b1000 }])
    );
}

#[test]
fn every_kernel_error() {
    let one = |mask: Vec<bool>, map: &[(&str, &str)]| {
        build_kernels(&mkgraph(0, vec![("F", mask)], vec![]), &pairs(map))
    };
    assert_eq!(one(vec![], &[("G", "one")]), Err(KernelError::NoMapping(0)));
    assert_eq!(one(vec![], &[("F", "buf")]), Err(KernelError::UnknownOperator(0)));
    assert_eq!(one(vec![true], &[("F", "var")]), Err(KernelError::VarShape(0)));
    assert_eq!(one(vec![false, false], &[("F", "var")]), Err(KernelError::VarShape(0)));
    assert_eq!(one(vec![true], &[("F", "zero")]), Err(KernelError::ZeroShape(0)));
    assert_eq!(one(vec![true], &[("F", "one")]), Err(KernelError::OneShape(0)));
    assert_eq!(one(vec![true], &[("F", "and")]), Err(KernelError::GateShape(0, 2)));
    assert_eq!(one(vec![true, false], &[("F", "and")]), Err(KernelError::GateShape(0, 2)));
}

/// A constant wins over a variable, and two constants that differ are an error.
#[test]
fn kinds_of_classes() {
    let g = mkgraph(
        4,
        vec![("V", vec![false]), ("Z", vec![]), ("O", vec![]), ("N", vec![true])],
        vec![
            (0, 0, vec![]),
            (0, 1, vec![]),
            (1, 1, vec![]),
            (1, 2, vec![]),
            (2, 2, vec![]),
            (3, 3, vec![0]),
        ],
    );
    let ks = vec![Kernel::Leaf, Kernel::Const(0), Kernel::Const(1), gate("not")];
    assert_eq!(class_kind(&g, &ks, 0), Ok(ClassKind::Pi));
    assert_eq!(class_kind(&g, &ks, 1), Ok(ClassKind::Const(0)));
    assert_eq!(class_kind(&g, &ks, 2), Err(UnsoundClass { class: 2 }));
    assert_eq!(class_kind(&g, &ks, 3), Ok(ClassKind::Internal));
    let cone = vec![true; 4];
    let r = enumerate_cuts(&g, &params(4, 16), &ks, &cone);
    assert_eq!(r.err(), Some(CutError::Unsound(UnsoundClass { class: 2 })));
    // outside the cone nobody looks
    let cone = vec![true, true, false, true];
    assert!(enumerate_cuts(&g, &params(4, 16), &ks, &cone).is_ok());
}

// ----------------------------------------------------------------------- enumeration

#[test]
fn leaf_bound_is_two_to_six() {
    let g = mkgraph(1, vec![], vec![]);
    let cone = vec![true];
    let ks = vec![];
    assert_eq!(enumerate_cuts(&g, &params(1, 16), &ks, &cone).err(), Some(CutError::LeafBound(1)));
    assert_eq!(enumerate_cuts(&g, &params(7, 16), &ks, &cone).err(), Some(CutError::LeafBound(7)));
    assert!(enumerate_cuts(&g, &params(2, 16), &ks, &cone).is_ok());
    assert!(enumerate_cuts(&g, &params(6, 16), &ks, &cone).is_ok());
}

/// Each class is an and of the one before with itself, down to a constant: the cone of the
/// empty cut doubles with every class, until it is too large to count.
#[test]
fn cone_that_is_too_large() {
    let chain = |n: usize| {
        let mut ens = vec![(0usize, 0usize, vec![])];
        for i in 1..=n {
            ens.push((1, i, vec![i as u32 - 1, i as u32 - 1]));
        }
        mkgraph(n + 1, vec![("Z", vec![]), ("A", vec![true, true])], ens)
    };
    let ks = vec![Kernel::Const(0), gate("and")];
    let g = chain(16);
    let res = enumerate_cuts(&g, &params(4, 16), &ks, &vec![true; 17]).unwrap();
    assert_eq!(res.cuts[16][1].leaves, Vec::<u32>::new());
    assert_eq!(res.cuts[16][1].nnodes, 65535);
    let g = chain(17);
    let r = enumerate_cuts(&g, &params(4, 16), &ks, &vec![true; 18]);
    assert_eq!(r.err(), Some(CutError::Volume(17)));
}

/// Every number of the statistics on a graph with a constant, inputs, a cycle and a class
/// outside the cone.
#[test]
fn statistics_add_up() {
    // 0=x, 1=y, 2=zero, 3=and(x,y), 4=or(3,2), 5=or(5,x), 6=and(x,y) outside
    let mut g = mkgraph(
        7,
        vec![
            ("V", vec![false]),
            ("Z", vec![]),
            ("A", vec![true, true]),
            ("O", vec![true, true]),
        ],
        vec![
            (1, 2, vec![]),
            (2, 3, vec![0, 1]),
            (3, 4, vec![3, 2]),
            (3, 5, vec![5, 0]),
            (2, 6, vec![0, 1]),
        ],
    );
    for v in 0..2u32 {
        g.enodes.push(Enode {
            func: 0,
            out: v,
            ch_eq: vec![],
            ch_prim: vec![(0, v)],
            head: Cost::zero(),
        });
        let last = g.enodes.len() - 1;
        g.enodes_of[v as usize].push(last);
    }
    let ks = vec![Kernel::Leaf, Kernel::Const(0), gate("and"), gate("or")];
    let cone = closure(7, &g.adj, &vec![4, 5]);
    assert_eq!(cone, vec![true, true, true, true, true, true, false]);
    let res = enumerate_cuts(&g, &params(4, 16), &ks, &cone).unwrap();
    assert!(res.cuts[6].is_empty());
    let s = &res.stats;
    assert_eq!((s.k, s.max_cuts), (4, 16));
    assert_eq!((s.num_classes_graph, s.num_classes_cone), (7, 6));
    assert_eq!((s.num_pi_classes, s.num_const_classes, s.num_cyclic_classes), (2, 1, 1));
    // trivial only: x, y, zero and the self-loop
    assert_eq!(s.num_trivial_only, 4);
    assert_eq!(leaf_leaves(&res, 4), vec![vec![4], vec![3], vec![0, 1]]);
    assert_eq!(s.total_nontrivial_cuts, 3);
    assert_eq!(s.max_cuts_per_class, 3);
    assert_eq!(s.hist, vec![(3, 1), (2, 1), (1, 4)]);
}

/// Value of class `v`, by its first e-node, under an assignment of the inputs.
fn value(g: &ClassGraph, ks: &[Kernel], v: usize, inputs: u64) -> u64 {
    match g.enodes_of[v].first() {
        None => (inputs >> v) & 1,
        Some(&e) => match ks[g.enodes[e].func] {
            Kernel::Op { tt } => {
                let mut m = 0;
                for (i, &c) in g.enodes[e].ch_eq.iter().enumerate() {
                    m |= value(g, ks, c as usize, inputs) << i;
                }
                (tt >> m) & 1
            }
            Kernel::Const(c) => c,
            Kernel::Leaf => (inputs >> v) & 1,
        },
    }
}

/// The table of every cut of every class gives the value of the class from the values of
/// the leaves.
#[test]
fn cuts_compute_their_class() {
    // 0..=3 inputs, 4=nand(0,1), 5=xor(4,2), 6=mux(5,3,0), 7=aoi22(6,1,4,2)
    let g = mkgraph(
        8,
        vec![
            ("nand", vec![true; 2]),
            ("xor", vec![true; 2]),
            ("mux", vec![true; 3]),
            ("aoi22", vec![true; 4]),
        ],
        vec![
            (0, 4, vec![0, 1]),
            (1, 5, vec![4, 2]),
            (2, 6, vec![5, 3, 0]),
            (3, 7, vec![6, 1, 4, 2]),
        ],
    );
    let ks = vec![gate("nand"), gate("xor"), gate("mux"), gate("aoi22")];
    let res = enumerate_cuts(&g, &params(5, 50), &ks, &vec![true; 8]).unwrap();
    assert!(res.cuts[7].len() > 1);
    for inputs in 0..16u64 {
        for v in 0..8 {
            for c in &res.cuts[v] {
                let mut m = 0;
                for (i, &l) in c.leaves.iter().enumerate() {
                    m |= value(&g, &ks, l as usize, inputs) << i;
                }
                assert_eq!((c.tt >> m) & 1, value(&g, &ks, v, inputs), "class {v} cut {c:?}");
            }
        }
    }
}

/// No cut that a list holds behind the trivial one is contained in a later one, and none
/// holds its own class.
#[test]
fn lists_hold_no_dominated_cut() {
    let g = mkgraph(
        6,
        vec![("A", vec![true; 2])],
        vec![(0, 3, vec![0, 1]), (0, 4, vec![3, 2]), (0, 5, vec![4, 3]), (0, 5, vec![0, 2])],
    );
    let res = enumerate_cuts(&g, &params(4, 16), &vec![gate("and")], &vec![true; 6]).unwrap();
    for v in 0..6 {
        let list = &res.cuts[v];
        for i in 1..list.len() {
            assert!(!list[i].leaves.contains(&(v as u32)));
            for j in i + 1..list.len() {
                assert!(!is_subset(&list[i].leaves, &list[j].leaves), "{list:?}");
            }
        }
    }
    assert!(res.cuts[5].len() > 2);
}

// ------------------------------------------------------------------------ components

#[test]
fn components_come_children_first() {
    // 0 -> 1 <-> 2 -> 3, 4 -> 4
    let adj = vec![vec![1], vec![2], vec![1, 3], vec![], vec![4]];
    let mut sccs = tarjan_scc(5, &adj);
    // the walk goes 0, 1, 2, 3 and closes 3 first
    assert_eq!(sccs, vec![vec![3], vec![2, 1], vec![0], vec![4]]);
    let at = |sccs: &Vec<Vec<u32>>, v: u32| sccs.iter().position(|c| c.contains(&v)).unwrap();
    assert!(at(&sccs, 3) < at(&sccs, 1));
    assert_eq!(at(&sccs, 1), at(&sccs, 2));
    assert!(at(&sccs, 1) < at(&sccs, 0));
    for c in sccs.iter_mut() {
        c.sort();
    }
    sccs.sort();
    assert_eq!(sccs, vec![vec![0], vec![1, 2], vec![3], vec![4]]);
}

#[test]
fn profile_of_the_components() {
    let adj = vec![vec![1], vec![2], vec![1, 3], vec![], vec![4]];
    let sccs = tarjan_scc(5, &adj);
    let p = SccProfile::compute(&sccs, &adj);
    assert_eq!((p.num_classes, p.num_sccs), (5, 4));
    assert_eq!((p.singleton_acyclic_nodes, p.self_loop_nodes, p.multi_node_nodes), (2, 1, 2));
    assert_eq!(p.cyclic_nodes(), 3);
    assert_eq!(p.max_size, 2);
    assert_eq!(p.sizes, vec![1, 1, 1, 2]);
    assert_eq!(p.histogram, vec![(1, 3), (2, 1)]);
    assert_eq!(p.middle_sizes(), Some((1, 1)));
    let empty = SccProfile::compute(&vec![], &vec![]);
    assert_eq!(empty.max_size, 0);
    assert_eq!(empty.middle_sizes(), None);
    // an even number of components: 0, 1 and the triple 2, 3, 4, and 5 <-> 6
    let adj = vec![vec![], vec![], vec![3], vec![4], vec![2], vec![6], vec![5]];
    let p = SccProfile::compute(&tarjan_scc(7, &adj), &adj);
    assert_eq!(p.sizes, vec![1, 1, 2, 3]);
    assert_eq!(p.middle_sizes(), Some((1, 2)));
}

/// Classes are numbered as they are touched: the children of a row, then its output.
#[test]
fn rows_make_up_a_graph() {
    let funcs = vec![
        FuncTab { term_name: "V".to_string(), eq_mask: vec![false], arity: 1 },
        FuncTab { term_name: "A".to_string(), eq_mask: vec![true, true], arity: 2 },
    ];
    let row = |func: usize, out: u32, children: Vec<u32>, prims: Vec<(u32, u32)>| NodeRow {
        func,
        children,
        prims,
        out,
        head: Cost::zero(),
    };
    let rows = vec![
        row(1, 30, vec![10, 20], vec![]),
        row(0, 20, vec![], vec![(0, 5)]),
        row(1, 40, vec![30, 10], vec![]),
        row(1, 30, vec![20, 10], vec![]),
    ];
    let g = assemble(funcs, &rows).unwrap();
    assert_eq!(g.classes, vec![10, 20, 30, 40]);
    assert_eq!(g.class_index[&40], 3);
    assert_eq!(g.enodes.len(), 4);
    assert_eq!(g.enodes_of, vec![vec![], vec![1], vec![0, 3], vec![2]]);
    assert_eq!(g.enodes[2].ch_eq, vec![2, 0]);
    assert_eq!(g.enodes[1].ch_prim, vec![(0, 5)]);
    assert_eq!(g.adj, vec![vec![], vec![], vec![0, 1, 1, 0], vec![2, 0]]);
    for v in 0..4usize {
        assert!(g.sccs[g.scc_of[v] as usize].contains(&(v as u32)));
    }
    assert_eq!(g.cone_mask(&vec![2]), vec![true, true, true, false]);
}

/// As far as no cap is reached, every merge of every e-node has a cut among its leaves.
#[test]
fn every_merge_is_covered() {
    // 0..=3 inputs, 4=nand(0,1), 5=xor(4,2) or xor(2,4), 6=mux(5,3,0) or and(4,3)
    let g = mkgraph(
        7,
        vec![
            ("nand", vec![true; 2]),
            ("xor", vec![true; 2]),
            ("mux", vec![true; 3]),
            ("and", vec![true; 2]),
        ],
        vec![
            (0, 4, vec![0, 1]),
            (1, 5, vec![4, 2]),
            (1, 5, vec![2, 4]),
            (2, 6, vec![5, 3, 0]),
            (3, 6, vec![4, 3]),
        ],
    );
    let ks = vec![gate("nand"), gate("xor"), gate("mux"), gate("and")];
    let p = CutParams { cand_cap: 150, ..params(4, 50) };
    let res = enumerate_cuts(&g, &p, &ks, &vec![true; 7]).unwrap();
    let mut merges = 0;
    for v in 4..7usize {
        assert!(res.cuts[v].len() > 1 && res.cuts[v].len() < p.max_cuts);
        for &e in &g.enodes_of[v] {
            let lists: Vec<&Vec<Cut>> =
                g.enodes[e].ch_eq.iter().map(|&c| &res.cuts[c as usize]).collect();
            let mut budget: usize = 200;
            for (leaves, _) in merge_product(&lists, p.k, &mut budget) {
                merges += 1;
                let kept = res.cuts[v].iter().skip(1).any(|c| is_subset(&c.leaves, &leaves));
                assert!(kept, "class {v}: {leaves:?}");
            }
            assert!(budget > 0);
        }
    }
    assert!(merges > 5);
}

/// The leaves of a cut lie in the component of its class or an earlier one.
#[test]
fn leaves_lie_below_their_class() {
    // 0 <-> 1 by negation, 2 = and(0, 3), 3 = input
    let g = mkgraph(
        4,
        vec![("not", vec![true]), ("and", vec![true; 2])],
        vec![(0, 1, vec![0]), (0, 0, vec![1]), (1, 2, vec![0, 3])],
    );
    let ks = vec![gate("not"), gate("and")];
    let res = enumerate_cuts(&g, &params(4, 16), &ks, &vec![true; 4]).unwrap();
    for v in 0..4usize {
        assert!(!res.cuts[v].is_empty());
        for c in &res.cuts[v] {
            for &l in &c.leaves {
                assert!(g.scc_of[l as usize] <= g.scc_of[v]);
            }
        }
    }
    // neither member of the pair can start, so each has its trivial cut only
    assert_eq!(leaf_leaves(&res, 0), vec![vec![0]]);
    assert_eq!(leaf_leaves(&res, 1), vec![vec![1]]);
    assert_eq!(leaf_leaves(&res, 2), vec![vec![2], vec![0, 3]]);
}
