//! Mapping of hand-made class graphs onto small cell libraries.
use std::collections::HashMap;

use cutgraph::class_graph::{ClassGraph, Enode, FuncTab};
use cutgraph::cost::Cost;
use cutgraph::enumerate::{enumerate_cuts, CutParams, CutResult};
use cutgraph::fnv::fnv_inputs;
use cutgraph::kernel::{Kernel, UnsoundClass};
use cutgraph::library::{build_index, ArityError, CellSpec};
use cutgraph::mapping::{map_cuts, reference_counts, MapError, MapOutput};
use cutgraph::perm::{invert, permutations, permute_tt};
use cutgraph::scc::tarjan_scc;
use cutgraph::truth::{op_tt, var_mask};

// ------------------------------------------------------------------------------ costs

fn cost(x: f64) -> Cost {
    let x = x + 0.0;
    if x.is_nan() {
        return Cost::Nan;
    }
    let bits = x.to_bits();
    Cost::Number(if bits >> 63 == 1 { !bits } else { bits | (1 << 63) })
}

fn number(c: Cost) -> f64 {
    match c {
        Cost::Nan => f64::NAN,
        Cost::Number(k) => f64::from_bits(if k >> 63 == 1 { k & !(1 << 63) } else { !k }),
    }
}

fn map(
    g: &ClassGraph,
    res: &CutResult,
    kernels: &Vec<Kernel>,
    cone: &Vec<bool>,
    roots: &[u32],
    cells: &Vec<CellSpec>,
    objective: &str,
) -> Result<MapOutput, MapError> {
    let share = |flow: Cost, refs: u32| cost(number(flow) / refs as f64);
    let plus = |a: Cost, b: Cost| cost(number(a) + number(b));
    map_cuts(g, res, kernels, cone, &roots.to_vec(), cells, objective, &share, &plus)
}

// --------------------------------------------------------------------------- fixtures

fn mkgraph(
    n_classes: usize,
    funcs: Vec<(&str, Vec<bool>)>,
    ens: Vec<(usize, usize, Vec<u32>)>,
) -> ClassGraph {
    let mut g = ClassGraph {
        funcs: funcs
            .into_iter()
            .map(|(n, m)| {
                let arity = m.len();
                FuncTab { term_name: n.to_string(), eq_mask: m, arity }
            })
            .collect(),
        enodes: Vec::new(),
        classes: Vec::new(),
        class_index: HashMap::new(),
        enodes_of: Vec::new(),
        adj: Vec::new(),
        sccs: Vec::new(),
        scc_of: Vec::new(),
    };
    let mut ens_of: Vec<Vec<usize>> = vec![Vec::new(); n_classes];
    for (func, out, ch) in &ens {
        assert!(*out < n_classes);
        for &c in ch {
            assert!((c as usize) < n_classes);
        }
        ens_of[*out].push(g.enodes.len());
        g.enodes.push(Enode {
            func: *func,
            out: *out as u32,
            ch_eq: ch.clone(),
            ch_prim: Vec::new(),
            head: Cost::zero(),
        });
    }
    g.classes = (0..n_classes as u32).collect();
    g.enodes_of = ens_of;
    g.adj = vec![Vec::new(); n_classes];
    for e in &g.enodes {
        for &c in &e.ch_eq {
            g.adj[e.out as usize].push(c);
        }
    }
    g.sccs = tarjan_scc(n_classes, &g.adj);
    g.scc_of = vec![0u32; n_classes];
    for (si, comp) in g.sccs.iter().enumerate() {
        for &v in comp {
            g.scc_of[v as usize] = si as u32;
        }
    }
    g
}

fn params(k: usize, max_cuts: usize) -> CutParams {
    CutParams { k, max_cuts, enode_cap: None, cand_cap: 1000 }
}

fn gate(op: &str) -> Kernel {
    Kernel::Op { tt: op_tt(op).unwrap() }
}

/// var e-nodes (mkgraph only builds e-nodes over classes; primary inputs need their `var`
/// rows to be recognized).
fn add_vars(g: &mut ClassGraph, var_func: usize, classes: &[usize]) {
    for (j, &c) in classes.iter().enumerate() {
        g.enodes.push(Enode {
            func: var_func,
            out: c as u32,
            ch_eq: vec![],
            ch_prim: vec![(0, j as u32 + 100)],
            head: Cost::zero(),
        });
        let last = g.enodes.len() - 1;
        g.enodes_of[c].push(last);
    }
}

fn cell(name: &str, arity: usize, tt: u64, area: f64, delay: f64) -> CellSpec {
    CellSpec { name: name.to_string(), arity, tt, area: cost(area), delay: cost(delay) }
}

fn std_cells() -> Vec<CellSpec> {
    vec![
        cell("and2", 2, 0b1000, 3.0, 2.0),
        cell("nand2", 2, 0b0111, 2.0, 1.5),
        cell("or2", 2, 0b1110, 2.0, 2.0),
        cell("inv", 1, 0b01, 1.0, 1.0),
    ]
}

/// Delay first picks NAND2 for the choice class {or(nx,ny), nand(x,y)} and reports the
/// inputs in pin order.
#[test]
fn t14_delay_first_choice() {
    // 0=x,1=y,2=nx,4=ny, 3 = choice{or(2,4), nand(0,1)}
    let mut g = mkgraph(
        5,
        vec![
            ("var", vec![false]),
            ("B_not", vec![true]),
            ("B_or", vec![true, true]),
            ("B_nand", vec![true, true]),
        ],
        vec![(1, 2, vec![0]), (1, 4, vec![1]), (2, 3, vec![2, 4]), (3, 3, vec![0, 1])],
    );
    add_vars(&mut g, 0, &[0, 1]);
    let kernels = vec![Kernel::Leaf, gate("not"), gate("or"), gate("nand")];
    let cone = vec![true; 5];
    let res = enumerate_cuts(&g, &params(4, 16), &kernels, &cone).unwrap();
    let roots = [3u32];
    let cells = std_cells();
    let out = map(&g, &res, &kernels, &cone, &roots, &cells, "delay").unwrap();
    let ch = out.choices[3].as_ref().unwrap();
    assert_eq!(cells[ch.cell].name, "nand2");
    assert_eq!(number(ch.arrival), 1.5);
    assert_eq!(ch.inputs, vec![0, 1]);
    assert!(out.emit_ok.iter().all(|&b| b));
}

/// The area objective prefers the smaller area flow (or2 over two cheap inverters beats the
/// direct nand2).
#[test]
fn t15_area_objective() {
    let mut cells = std_cells();
    cells[2] = cell("or2", 2, 0b1110, 1.0, 2.0);
    cells[3] = cell("inv", 1, 0b01, 0.25, 1.0);
    let mut g = mkgraph(
        5,
        vec![
            ("var", vec![false]),
            ("B_not", vec![true]),
            ("B_or", vec![true, true]),
            ("B_nand", vec![true, true]),
        ],
        vec![(1, 2, vec![0]), (1, 4, vec![1]), (2, 3, vec![2, 4]), (3, 3, vec![0, 1])],
    );
    add_vars(&mut g, 0, &[0, 1]);
    let kernels = vec![Kernel::Leaf, gate("not"), gate("or"), gate("nand")];
    let cone = vec![true; 5];
    let res = enumerate_cuts(&g, &params(4, 16), &kernels, &cone).unwrap();
    let roots = [3u32];
    let out = map(&g, &res, &kernels, &cone, &roots, &cells, "area").unwrap();
    let ch = out.choices[3].as_ref().unwrap();
    assert_eq!(cells[ch.cell].name, "or2");
    assert_eq!(ch.inputs, vec![2, 4]);
    // flow = or2 area 1.0 + inv flow 0.25 (ref=1) + inv flow 0.25
    assert!((number(ch.flow) - 1.5).abs() < 1e-9);
}

/// An unmatched class is filtered from its consumers; an unmappable root is a hard error.
#[test]
fn t16_unmatched_filter_and_po_error() {
    // 0=x,1=y, 2=or(x,y) (unmatchable with and-only library), 3=and(2,x)
    let mut g = mkgraph(
        4,
        vec![
            ("var", vec![false]),
            ("B_or", vec![true, true]),
            ("B_and", vec![true, true]),
        ],
        vec![(1, 2, vec![0, 1]), (2, 3, vec![2, 0])],
    );
    add_vars(&mut g, 0, &[0, 1]);
    let kernels = vec![Kernel::Leaf, gate("or"), gate("and")];
    let cone = vec![true; 4];
    let res = enumerate_cuts(&g, &params(4, 16), &kernels, &cone).unwrap();
    let cells = vec![cell("and2", 2, 0b1000, 3.0, 2.0)];
    // no root: no error, but 2 and 3 are unmatched
    let out = map(&g, &res, &kernels, &cone, &[], &cells, "delay").unwrap();
    assert!(!out.emit_ok[2] && !out.emit_ok[3]);
    assert_eq!(out.stats.num_unmatched, 2);
    // with 3 as root: hard error
    let err = map(&g, &res, &kernels, &cone, &[3u32], &cells, "delay");
    assert!(err.is_err(), "unmappable root must be a hard error");
    assert_eq!(err.err(), Some(MapError::Unmappable { bad: 1, roots: 1, unmatched: 2 }));
}

/// MUX2 with pins (A,B,S) matches the mux(s,a,b) cut under a pin permutation, and the inputs
/// come back in CELL-PIN order (a, b, s).
#[test]
fn t17_mux_pin_permutation() {
    // mux: s=var0, a=var1, b=var2 -> (vm0&vm1)|(~vm0&vm2)
    // MUX2 cell over pins (A,B,S): (vm2&vm0)|(~vm2&vm1)
    let vm = |i: usize| var_mask(i, 3);
    let mux_cell_tt = (vm(2) & vm(0)) | (!vm(2) & vm(1));
    // 0=s,1=a,2=b, 3=mux(s,a,b)
    let mut g = mkgraph(
        4,
        vec![("var", vec![false]), ("B_mux", vec![true, true, true])],
        vec![(1, 3, vec![0, 1, 2])],
    );
    add_vars(&mut g, 0, &[0, 1, 2]);
    let kernels = vec![Kernel::Leaf, gate("mux")];
    let cone = vec![true; 4];
    let res = enumerate_cuts(&g, &params(4, 16), &kernels, &cone).unwrap();
    let cells = vec![cell("mux2", 3, mux_cell_tt, 4.0, 3.0)];
    let roots = [3u32];
    let out = map(&g, &res, &kernels, &cone, &roots, &cells, "delay").unwrap();
    let ch = out.choices[3].as_ref().unwrap();
    // cell pins (A,B,S) receive (a, b, s) = leaves 1, 2, 0
    assert_eq!(ch.inputs, vec![1, 2, 0]);
    assert_eq!(number(ch.arrival), 3.0);
}

/// The index is the same every time, and holds the best cell by delay and by area.
#[test]
fn t17b_index_best_entries() {
    let cells = std_cells();
    let idx = build_index(&cells).unwrap();
    // (2, 0b0111): nand2 identity, best delay AND best area (only cell)
    let (ba, bd) = idx.lookup(2, 0b0111).unwrap();
    assert_eq!(cells[ba.cell].name, "nand2");
    assert_eq!(cells[bd.cell].name, "nand2");
    // two runs identical
    let idx2 = build_index(&cells).unwrap();
    assert_eq!(idx.len(), idx2.len());
}

/// In a complement pair the ~class has no candidates until its partner is emitted: it waits
/// and is not dropped.
#[test]
fn t20_dp_complement_pair() {
    // 0 = x (var + not(1)), 1 = not(0)
    let mut g = mkgraph(
        2,
        vec![("var", vec![false]), ("B_not", vec![true])],
        vec![(1, 1, vec![0]), (1, 0, vec![1])],
    );
    g.enodes.push(Enode {
        func: 0,
        out: 0,
        ch_eq: vec![],
        ch_prim: vec![(0, 7)],
        head: Cost::zero(),
    });
    let last = g.enodes.len() - 1;
    g.enodes_of[0].push(last);
    let kernels = vec![Kernel::Leaf, gate("not")];
    let cone = vec![true; 2];
    let res = enumerate_cuts(&g, &params(4, 16), &kernels, &cone).unwrap();
    let cells = vec![cell("inv", 1, 0b01, 1.0, 1.0)];
    let roots = [1u32];
    let out = map(&g, &res, &kernels, &cone, &roots, &cells, "delay").unwrap();
    assert!(out.emit_ok[0] && out.emit_ok[1]);
    let ch = out.choices[1].as_ref().unwrap();
    assert_eq!(cells[ch.cell].name, "inv");
    assert_eq!(ch.inputs, vec![0]);
    assert_eq!(out.stats.num_unmatched, 0);
    assert_eq!(out.stats.num_pi, 1);
}

// ----------------------------------------------------------------------- permutations

#[test]
fn permutations_are_all_orderings() {
    assert!(permutations(0).is_empty());
    assert_eq!(permutations(1), vec![[0, 1, 2, 3]]);
    assert_eq!(permutations(2), vec![[0, 1, 2, 3], [1, 0, 2, 3]]);
    for (n, many) in [(1, 1), (2, 2), (3, 6), (4, 24)] {
        let mut all: Vec<Vec<u8>> = permutations(n).iter().map(|p| p[..n].to_vec()).collect();
        all.sort();
        all.dedup();
        assert_eq!(all.len(), many);
        for p in &all {
            let mut q = p.clone();
            q.sort();
            assert_eq!(q, (0..n as u8).collect::<Vec<u8>>());
        }
    }
}

#[test]
fn inverse_undoes_a_permutation() {
    assert_eq!(invert(&[2, 0, 1, 3], 3), [1, 2, 0, 0]);
    for p in permutations(4) {
        let q = invert(&p, 4);
        for i in 0..4 {
            assert_eq!(q[p[i] as usize] as usize, i);
        }
    }
}

/// Variable `i` of the permuted function is pin `perm[i]`: feeding leaf `inv[i]` to pin `i`
/// computes it.
#[test]
fn permuted_table_is_the_fed_cell() {
    // !((p0 & p1) | p2), with p2 as variable 0
    let tt = op_tt("aoi21").unwrap();
    for p in permutations(3) {
        let t = permute_tt(tt, 3, &p);
        let inv = invert(&p, 3);
        for m in 0..8u64 {
            let pin = |i: usize| (m >> inv[i]) & 1;
            let want = 1 - ((pin(0) & pin(1)) | pin(2));
            assert_eq!((t >> m) & 1, want, "perm {p:?} minterm {m}");
        }
    }
    assert_eq!(permute_tt(0b0010, 2, &[1, 0, 2, 3]), 0b0100);
}

/// Permuting by the inverse gives the function back, and only the first pins count.
#[test]
fn inverse_permutation_gives_the_table_back() {
    for n in 1..=4usize {
        let low = (1u64 << (1 << n)) - 1;
        for mut p in permutations(n) {
            for junk in [0, 3] {
                for x in &mut p[n..] {
                    *x = junk;
                }
                let inv = invert(&p, n);
                for tt in [0x6996_1ee7_d00d_cafe, 0x8000_0000_0000_0001, u64::MAX, 0xb2] {
                    let a = permute_tt(tt, n, &p);
                    assert_eq!(permute_tt(a, n, &inv), tt & low);
                    assert_eq!(a.count_ones(), (tt & low).count_ones());
                    assert_eq!(a & !low, 0);
                }
            }
        }
    }
}

// ------------------------------------------------------------------------------ cells

#[test]
fn cell_arity_is_one_to_four() {
    let cells = vec![cell("a", 2, 0b1000, 1.0, 1.0), cell("b", 5, 0, 1.0, 1.0)];
    assert_eq!(build_index(&cells).err(), Some(ArityError { cell: 1 }));
    let cells = vec![cell("a", 0, 1, 1.0, 1.0)];
    assert_eq!(build_index(&cells).err(), Some(ArityError { cell: 0 }));
    assert!(build_index(&vec![]).unwrap().len() == 0);
}

/// One key, two cells: the smaller one is best by area, the faster one by delay.
#[test]
fn index_keeps_the_best_of_both() {
    let cells = vec![cell("fast", 2, 0b1000, 5.0, 1.0), cell("small", 2, 0b1000, 1.0, 5.0)];
    let idx = build_index(&cells).unwrap();
    let (ba, bd) = idx.lookup(2, 0b1000).unwrap();
    assert_eq!((ba.cell, bd.cell), (1, 0));
    // both permutations give the same function: the smaller inverse permutation stays
    assert_eq!(ba.perm[..2], [0, 1]);
    assert!(idx.lookup(2, 0b0110).is_none());
    assert!(idx.lookup(3, 0b1000).is_none());
    assert!(idx.lookup(0, 0b1000).is_none());
    assert_eq!(idx.len(), 1);
    // an input-ordered function has one key per ordering
    let cells = vec![cell("andn", 2, 0b0010, 1.0, 1.0)];
    let idx = build_index(&cells).unwrap();
    assert_eq!(idx.len(), 2);
    assert_eq!(idx.lookup(2, 0b0010).unwrap().0.perm[..2], [0, 1]);
    assert_eq!(idx.lookup(2, 0b0100).unwrap().0.perm[..2], [1, 0]);
}

// ---------------------------------------------------------------------------- mapping

#[test]
fn unknown_objective() {
    let g = mkgraph(0, vec![], vec![]);
    let res = enumerate_cuts(&g, &params(4, 16), &vec![], &vec![]).unwrap();
    let r = map(&g, &res, &vec![], &vec![], &[], &std_cells(), "power");
    assert_eq!(r.err(), Some(MapError::Objective));
    let cells = vec![cell("a", 5, 0, 1.0, 1.0)];
    let r = map(&g, &res, &vec![], &vec![], &[], &cells, "area");
    assert_eq!(r.err(), Some(MapError::Arity(ArityError { cell: 0 })));
}

#[test]
fn two_constants_are_unsound() {
    let g = mkgraph(
        1,
        vec![("Z", vec![]), ("O", vec![])],
        vec![(0, 0, vec![]), (1, 0, vec![])],
    );
    let ks = vec![Kernel::Const(0), Kernel::Const(1)];
    let res = enumerate_cuts(&g, &params(4, 16), &ks, &vec![false]).unwrap();
    let r = map(&g, &res, &ks, &vec![true], &[], &std_cells(), "area");
    assert_eq!(r.err(), Some(MapError::Unsound(UnsoundClass { class: 0 })));
}

#[test]
fn references_within_the_cone() {
    let g = mkgraph(
        4,
        vec![("A", vec![true, true])],
        vec![(0, 2, vec![0, 1]), (0, 3, vec![2, 2]), (0, 3, vec![2, 0])],
    );
    assert_eq!(reference_counts(&g, &vec![true; 4]), vec![2, 1, 3, 0]);
    assert_eq!(reference_counts(&g, &vec![true, true, true, false]), vec![1, 1, 0, 0]);
}

/// Flow is shared among the references, and the statistics follow from the roots.
#[test]
fn flow_is_shared_and_counted_at_the_roots() {
    // 0=x,1=y,2=z, 3=and(x,y), 4=or(3,z), 5=or(3,x), 6=zero
    let mut g = mkgraph(
        7,
        vec![
            ("var", vec![false]),
            ("and", vec![true, true]),
            ("or", vec![true, true]),
            ("zero", vec![]),
        ],
        vec![
            (1, 3, vec![0, 1]),
            (2, 4, vec![3, 2]),
            (2, 5, vec![3, 0]),
            (3, 6, vec![]),
        ],
    );
    add_vars(&mut g, 0, &[0, 1, 2]);
    let ks = vec![Kernel::Leaf, gate("and"), gate("or"), Kernel::Const(0)];
    let cone = vec![true; 7];
    let res = enumerate_cuts(&g, &params(4, 16), &ks, &cone).unwrap();
    let cells = std_cells();
    let out = map(&g, &res, &ks, &cone, &[4, 5], &cells, "delay").unwrap();
    // class 3 is referred to twice
    assert_eq!(number(out.flow[3]), 3.0);
    assert_eq!(number(out.arrival[3]), 2.0);
    assert_eq!(number(out.flow[4]), 2.0 + 3.0 / 2.0);
    assert_eq!(number(out.arrival[4]), 4.0);
    assert_eq!(out.choices[4].as_ref().unwrap().inputs.len(), 2);
    let s = &out.stats;
    assert_eq!((s.num_classes, s.num_cone_classes), (7, 7));
    assert_eq!((s.num_mapped, s.num_pi, s.num_const, s.num_unmatched), (3, 3, 1, 0));
    assert_eq!(number(s.max_root_arrival), 4.0);
    assert_eq!(number(s.total_flow_at_roots), number(out.flow[4]) + number(out.flow[5]));
}

/// A choice arrives its delay after the latest input, and spends its area and the inputs'
/// flows over their references.
#[test]
fn choices_add_up() {
    // 0=x,1=y,2=z, 3=nand(x,y), 4=xor(3,z), 5=mux(4,3,x), 6=and(5,4)
    let mut g = mkgraph(
        7,
        vec![
            ("var", vec![false]),
            ("nand", vec![true; 2]),
            ("xor", vec![true; 2]),
            ("mux", vec![true; 3]),
            ("and", vec![true; 2]),
        ],
        vec![
            (1, 3, vec![0, 1]),
            (2, 4, vec![3, 2]),
            (3, 5, vec![4, 3, 0]),
            (4, 6, vec![5, 4]),
        ],
    );
    add_vars(&mut g, 0, &[0, 1, 2]);
    let ks = vec![Kernel::Leaf, gate("nand"), gate("xor"), gate("mux"), gate("and")];
    let cone = vec![true; 7];
    let res = enumerate_cuts(&g, &params(3, 16), &ks, &cone).unwrap();
    let cells = vec![
        cell("nand2", 2, op_tt("nand").unwrap(), 1.5, 1.25),
        cell("xor2", 2, op_tt("xor").unwrap(), 4.0, 2.5),
        cell("mux2", 3, op_tt("mux").unwrap(), 3.0, 2.0),
        cell("and2", 2, op_tt("and").unwrap(), 2.0, 1.0),
    ];
    let refs = reference_counts(&g, &cone);
    assert_eq!(refs, vec![2, 1, 1, 2, 2, 1, 0]);
    for objective in ["delay", "area"] {
        let share = |flow: Cost, refs: u32| {
            assert!(refs >= 1);
            cost(number(flow) / refs as f64)
        };
        let plus = |a: Cost, b: Cost| cost(number(a) + number(b));
        let out =
            map_cuts(&g, &res, &ks, &cone, &vec![6], &cells, objective, &share, &plus).unwrap();
        for v in 3..7usize {
            let c = out.choices[v].as_ref().unwrap();
            let cut = &res.cuts[v][c.cut];
            assert!(cut.realization.is_some());
            let pins: Vec<u32> =
                (0..cut.leaves.len()).map(|i| cut.leaves[c.perm[i] as usize]).collect();
            assert_eq!(c.inputs, pins);
            let last =
                pins.iter().map(|&x| number(out.arrival[x as usize])).fold(0.0, f64::max);
            let shares: f64 = pins
                .iter()
                .map(|&x| number(out.flow[x as usize]) / refs[x as usize].max(1) as f64)
                .sum();
            assert_eq!(number(c.arrival), number(cells[c.cell].delay) + last);
            assert_eq!(number(c.flow), number(cells[c.cell].area) + shares);
            assert_eq!((out.arrival[v], out.flow[v]), (c.arrival, c.flow));
        }
        assert_eq!(number(out.arrival[4]), 1.25 + 2.5);
        assert_eq!(number(out.flow[4]), 4.0 + 1.5 / 2.0);
    }
}

/// Among candidates of equal cost the smaller hash of the inputs wins.
#[test]
fn ties_go_to_the_smaller_hash() {
    // 4 = and(0,1) or and(2,3)
    let mut g = mkgraph(
        5,
        vec![("var", vec![false]), ("and", vec![true, true])],
        vec![(1, 4, vec![0, 1]), (1, 4, vec![2, 3])],
    );
    add_vars(&mut g, 0, &[0, 1, 2, 3]);
    let ks = vec![Kernel::Leaf, gate("and")];
    let cone = vec![true; 5];
    let res = enumerate_cuts(&g, &params(4, 16), &ks, &cone).unwrap();
    let out = map(&g, &res, &ks, &cone, &[4], &std_cells(), "delay").unwrap();
    let want = if fnv_inputs(&vec![0, 1]) < fnv_inputs(&vec![2, 3]) {
        vec![0, 1]
    } else {
        vec![2, 3]
    };
    assert_eq!(out.choices[4].as_ref().unwrap().inputs, want);
}

/// The chosen cell, fed by the classes of its inputs, computes the class.
#[test]
fn chosen_cells_compute_their_class() {
    // 0=x,1=y,2=z, 3=nand(x,y), 4=aoi21(3,z,x), 5=and(4,3)
    let mut g = mkgraph(
        6,
        vec![
            ("var", vec![false]),
            ("nand", vec![true; 2]),
            ("aoi21", vec![true; 3]),
            ("and", vec![true; 2]),
        ],
        vec![(1, 3, vec![0, 1]), (2, 4, vec![3, 2, 0]), (3, 5, vec![4, 3])],
    );
    add_vars(&mut g, 0, &[0, 1, 2]);
    let ks = vec![Kernel::Leaf, gate("nand"), gate("aoi21"), gate("and")];
    let cone = vec![true; 6];
    let res = enumerate_cuts(&g, &params(4, 16), &ks, &cone).unwrap();
    // aoi21 with its pins in another order: !((p2 & p0) | p1)
    let vm = |i: usize| var_mask(i, 3);
    let cells = vec![
        cell("and2", 2, 0b1000, 3.0, 2.0),
        cell("aoi", 3, !((vm(2) & vm(0)) | vm(1)) & 0xff, 2.0, 1.5),
        cell("nand2", 2, 0b0111, 2.0, 1.5),
    ];
    let out = map(&g, &res, &ks, &cone, &[5], &cells, "delay").unwrap();
    for inputs in 0..8u64 {
        let bit = |i: u64| (inputs >> i) & 1;
        let mut val = vec![bit(0), bit(1), bit(2), 0, 0, 0];
        val[3] = 1 - (val[0] & val[1]);
        val[4] = 1 - ((val[3] & val[2]) | val[0]);
        val[5] = val[4] & val[3];
        for v in 3..6 {
            let ch = out.choices[v].as_ref().unwrap();
            let mut m = 0;
            for (i, &c) in ch.inputs.iter().enumerate() {
                m |= val[c as usize] << i;
            }
            assert_eq!((cells[ch.cell].tt >> m) & 1, val[v], "class {v}, inputs {inputs}");
        }
    }
}

/// No entry of the index makes a better offer than the chosen cell, and a class without a
/// cell has no offer.
#[test]
fn choices_are_the_best_offers() {
    // 0=x,1=y,2=z, 3=nand(x,y), 4=or(3,z) or nand(3,z), 5=and(4,3), 6=xor(5,z)
    let mut g = mkgraph(
        7,
        vec![
            ("var", vec![false]),
            ("nand", vec![true; 2]),
            ("or", vec![true; 2]),
            ("and", vec![true; 2]),
            ("xor", vec![true; 2]),
        ],
        vec![
            (1, 3, vec![0, 1]),
            (2, 4, vec![3, 2]),
            (1, 4, vec![3, 2]),
            (3, 5, vec![4, 3]),
            (4, 6, vec![5, 2]),
        ],
    );
    add_vars(&mut g, 0, &[0, 1, 2]);
    let ks = vec![Kernel::Leaf, gate("nand"), gate("or"), gate("and"), gate("xor")];
    let cone = vec![true; 7];
    let res = enumerate_cuts(&g, &params(4, 16), &ks, &cone).unwrap();
    let cells = std_cells();
    let idx = build_index(&cells).unwrap();
    let refs = reference_counts(&g, &cone);
    for objective in ["delay", "area"] {
        let out = map(&g, &res, &ks, &cone, &[], &cells, objective).unwrap();
        assert!(!out.emit_ok[6]);
        for v in 3..7 {
            let mut offers = 0;
            for c in res.cuts[v].iter().skip(1) {
                let Some((ba, bd)) = idx.lookup(c.leaves.len(), c.tt) else { continue };
                for e in [ba, bd] {
                    let inputs: Vec<usize> = (0..c.leaves.len())
                        .map(|i| c.leaves[e.perm[i] as usize] as usize)
                        .collect();
                    if inputs.iter().any(|&i| !out.emit_ok[i]) {
                        continue;
                    }
                    offers += 1;
                    let late = inputs
                        .iter()
                        .map(|&i| number(out.arrival[i]))
                        .fold(f64::NEG_INFINITY, f64::max);
                    let arrival = number(cells[e.cell].delay) + late;
                    let flow = number(cells[e.cell].area)
                        + inputs
                            .iter()
                            .map(|&i| number(out.flow[i]) / (refs[i].max(1) as f64))
                            .sum::<f64>();
                    let ch = out.choices[v].as_ref().unwrap();
                    let (a, f) = (number(ch.arrival), number(ch.flow));
                    let better = if objective == "delay" {
                        (arrival, flow) < (a, f)
                    } else {
                        (flow, arrival) < (f, a)
                    };
                    assert!(!better, "class {v}");
                }
            }
            assert_eq!(offers > 0, out.emit_ok[v]);
        }
    }
}
