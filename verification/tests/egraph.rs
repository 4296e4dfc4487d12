//! Cuts, mappings and extractions over e-graphs.
use cutgraph::best_term::TermFault;
use cutgraph::class_graph::{ClassGraph, Enode, FuncTab};
use cutgraph::cost::Cost;
use cutgraph::cut_iter::{ClassIndexError, CutIterator, IterError, LookupError};
use cutgraph::cut_map::{CutMapper, MapperError};
use cutgraph::dag_extract::{DagExtractor, ExtractError, ExtractorError};
use cutgraph::enumerate::{CutError, CutParams};
use cutgraph::extract_dp::hash_texts;
use cutgraph::fnv::{fnv_bytes, fnv_mix_u64, FNV_OFFSET};
use cutgraph::kernel::KernelError;
use cutgraph::library::CellSpec;
use cutgraph::mapping::MapError;
use cutgraph::names::name_order;
use cutgraph::reconstruct::TermError;
use cutgraph::snapshot::{assemble, BuildError, NodeRow};
use egglog::ast::Literal;
use egglog::{EGraph, Term, TermDag};
use egglog_numeric_id::NumericId;

// ------------------------------------------------------------------------------ costs

fn cost(x: f64) -> Cost {
    let x = x + 0.0;
    if x.is_nan() {
        return Cost::Nan;
    }
    let bits = x.to_bits();
    Cost::Number(if bits >> 63 == 1 { !bits } else { bits | (1 << 63) })
}

fn number(c: Cost) -> f64 {
    match c {
        Cost::Nan => f64::NAN,
        Cost::Number(k) => f64::from_bits(if k >> 63 == 1 { k & !(1 << 63) } else { !k }),
    }
}

// -------------------------------------------------------------------------- e-graphs

fn egraph(program: &str) -> EGraph {
    let mut eg = EGraph::default();
    eg.parse_and_run_program(None, program).unwrap();
    eg
}

fn value(eg: &mut EGraph, expr: &str) -> u32 {
    let e = eg.parser.get_expr_from_string(None, expr).unwrap();
    let (_, v) = eg.eval_expr(&e).unwrap();
    v.rep()
}

fn params(k: usize) -> CutParams {
    CutParams { k, max_cuts: 16, enode_cap: None, cand_cap: 1000 }
}

fn pairs(list: &[(&str, &str)]) -> Vec<(String, String)> {
    list.iter().map(|(a, b)| (a.to_string(), b.to_string())).collect()
}

const GATES: &str = "
    (datatype B (V String) (Zero) (Not B) (And B B) (Nand B B) (Or B B))
    (let $n (Not (And (V \"x\") (V \"y\"))))
    (union $n (Nand (V \"x\") (V \"y\")))
    (let $r (Or $n (Zero)))
    (let $far (And (V \"far\") (V \"x\")))
";

fn vocabulary() -> Vec<(String, String)> {
    pairs(&[
        ("Zero", "zero"),
        ("V", "var"),
        ("Or", "or"),
        ("Not", "not"),
        ("Nand", "nand"),
        ("And", "and"),
    ])
}

// ------------------------------------------------------------------------------- cuts

#[test]
fn cuts_over_an_egraph() {
    let mut eg = egraph(GATES);
    let r = value(&mut eg, "$r");
    let n = value(&mut eg, "$n");
    let far = value(&mut eg, "(V \"far\")");
    let (x, y) = (value(&mut eg, "(V \"x\")"), value(&mut eg, "(V \"y\")"));
    let it = CutIterator::new(&eg, "B", &vocabulary(), &vec![r], params(4)).unwrap();
    let class = |v: u32| it.class_of(&eg, v, "B").unwrap();
    let (cr, cn, cx, cy) = (class(r), class(n), class(x), class(y));
    assert_eq!(it.root_ids, vec![cr]);
    // the two inputs, the constant, the and, the negation, the or, and what is far
    assert_eq!(it.num_classes(), 8);
    assert_eq!(it.stats().num_classes_graph, 8);
    assert_eq!(it.stats().num_classes_cone, 6);
    assert_eq!(it.stats().num_pi_classes, 2);
    assert_eq!(it.stats().num_const_classes, 1);
    assert!(!it.cone[class(far) as usize]);
    assert!(it.cuts_of_class(class(far) as usize).unwrap().is_empty());
    // the negation over the inputs is a nand, by way of either e-node
    let mut xy = vec![cx, cy];
    xy.sort();
    let list = it.cuts_of(&eg, n, "B").unwrap();
    assert_eq!(list[0].leaves, vec![cn]);
    assert_eq!((list[0].enode.clone(), list[0].child_cuts.clone()), (None, None));
    let c = list.iter().find(|c| c.leaves == xy).unwrap();
    assert_eq!(c.tt, 0b0111);
    assert!(c.enode == Some("Not".to_string()) || c.enode == Some("Nand".to_string()));
    // or with zero is the negation itself
    let list = it.cuts_of_class(cr as usize).unwrap();
    let c = list.iter().find(|c| c.leaves == vec![cn]).unwrap();
    assert_eq!((c.tt, c.nnodes), (0b10, 1));
    assert_eq!(c.enode, Some("Or".to_string()));
    // names of the inputs
    assert_eq!(it.pi_names[&cx], "x");
    assert_eq!(it.pi_names[&cy], "y");
    // e-nodes of the negation
    let mut heads: Vec<String> =
        it.enodes_of_class(cn as usize).unwrap().into_iter().map(|e| e.func).collect();
    heads.sort();
    assert_eq!(heads, vec!["Nand".to_string(), "Not".to_string()]);
    for e in it.enodes_of_class(cr as usize).unwrap() {
        assert_eq!(e.ch_eq.len(), 2);
        assert_eq!(e.scc, it.graph.scc_of[cr as usize]);
    }
    // errors of the accessors
    assert_eq!(it.class_of(&eg, n, "Nope").err(), Some(LookupError::UnknownSort));
    assert_eq!(it.cuts_of(&eg, n, "Nope").err(), Some(LookupError::UnknownSort));
    let miss = Some(ClassIndexError { class: 99 });
    assert_eq!(it.cuts_of_class(99).err(), miss);
    assert_eq!(it.enodes_of_class(99).err(), miss);
}

/// Without roots every class is enumerated.
#[test]
fn no_roots_take_in_everything() {
    let eg = egraph(GATES);
    let it = CutIterator::new(&eg, "B", &vocabulary(), &vec![], params(4)).unwrap();
    assert!(it.cone.iter().all(|&b| b));
    assert_eq!(it.stats().num_classes_cone, 8);
    assert_eq!(it.stats().num_pi_classes, 3);
}

#[test]
fn every_iterator_error() {
    let mut eg = egraph(
        "
        (datatype C (W))
        (datatype B (V String) (Not B) (Num i64) (Other C))
        (let $x (Not (V \"x\")))
        (let $w (Other (W)))
    ",
    );
    let new = |eg: &EGraph, sort: &str, map: &[(&str, &str)], k: usize| {
        CutIterator::new(eg, sort, &pairs(map), &vec![], params(k))
    };
    assert!(matches!(new(&eg, "B", &[], 4), Err(IterError::EmptyOpMap)));
    let one = [("V", "var")];
    let r = new(&eg, "Nope", &one, 4);
    assert!(matches!(r, Err(IterError::Build(BuildError::UnknownSort(s))) if s == "Nope"));
    let r = new(&eg, "String", &one, 4);
    assert!(matches!(r, Err(IterError::Build(BuildError::NotEqSort(s))) if s == "String"));
    let r = new(&eg, "B", &[("W", "zero")], 4);
    assert!(matches!(
        r,
        Err(IterError::Build(BuildError::WrongOutput { name, output, expected }))
            if name == "W" && output == "C" && expected == "B"
    ));
    let r = new(&eg, "B", &[("Num", "var")], 4);
    assert!(matches!(r, Err(IterError::Build(BuildError::Unsupported))));
    let r = new(&eg, "B", &[("Other", "not")], 4);
    assert!(matches!(r, Err(IterError::Build(BuildError::Unsupported))));
    let r = new(&eg, "B", &[("V", "buf")], 4);
    assert!(matches!(
        r,
        Err(IterError::Kernel { error: KernelError::UnknownOperator(0), constructor })
            if constructor == "V"
    ));
    let r = new(&eg, "B", &[("V", "var")], 9);
    assert!(matches!(r, Err(IterError::Cut(CutError::LeafBound(9)))));
    // a root outside the vocabulary
    let w = value(&mut eg, "$w");
    let x = value(&mut eg, "$x");
    let map = pairs(&[("V", "var"), ("Not", "not")]);
    let r = CutIterator::new(&eg, "B", &map, &vec![x, w], params(4));
    assert!(matches!(r, Err(IterError::Root(1))));
    let it = CutIterator::new(&eg, "B", &map, &vec![x], params(4)).unwrap();
    assert_eq!(it.class_of(&eg, w, "B").err(), Some(LookupError::UnknownValue));
    let r = CutIterator::over(&eg, it.graph, "Nope", &map, &vec![], params(4));
    assert!(matches!(r, Err(IterError::UnknownSort)));
}

/// Names that the e-graph does not have are passed over, and so are subsumed rows.
#[test]
fn absent_names_and_subsumed_rows() {
    let mut eg = egraph(
        "
        (datatype B (V String) (Not B) (Id B))
        (let $x (V \"x\"))
        (let $n (Not $x))
        (let $i (Id $n))
        (ruleset drop)
        (rule ((= e (Id a))) ((subsume (Id a))) :ruleset drop)
        (run drop 1)
    ",
    );
    let map = pairs(&[("V", "var"), ("Not", "not"), ("Id", "not"), ("Absent", "and")]);
    let it = CutIterator::new(&eg, "B", &map, &vec![], params(4)).unwrap();
    let names: Vec<&str> = it.graph.funcs.iter().map(|f| f.term_name.as_str()).collect();
    assert_eq!(names, vec!["Id", "Not", "V"]);
    assert_eq!(it.graph.enodes.len(), 2);
    let i = value(&mut eg, "$i");
    assert_eq!(it.class_of(&eg, i, "B").err(), Some(LookupError::UnknownValue));
}

/// The rows of a function that is no constructor count as e-nodes of their outputs.
#[test]
fn functions_with_a_merge_have_rows() {
    let mut eg = egraph(
        "
        (datatype B (V String) (Not B))
        (function named (String) B :no-merge)
        (let $n (Not (V \"x\")))
        (set (named \"out\") $n)
    ",
    );
    let n = value(&mut eg, "$n");
    let heads = vec![
        ("V".to_string(), cost(1.0)),
        ("named".to_string(), cost(0.5)),
        ("Not".to_string(), cost(1.0)),
    ];
    let g = ClassGraph::build(&eg, "B", &heads).unwrap();
    let names: Vec<&str> = g.funcs.iter().map(|f| f.term_name.as_str()).collect();
    assert_eq!(names, vec!["Not", "V", "named"]);
    let class = g.class_index.values().copied().find(|&c| g.enodes_of[c as usize].len() == 2);
    let e = &g.enodes[g.enodes_of[class.unwrap() as usize][1]];
    assert_eq!((e.func, e.ch_eq.len(), e.ch_prim.len()), (2, 0, 1));
    assert_eq!(e.head, cost(0.5));
    // the cheapest term of the negation goes by the name
    let mut x = extractor(&eg, "B", &heads, "sum", 0.0, 0.0, false).unwrap();
    let mut dag = TermDag::default();
    let (c, t) = x.extract_best(&eg, &mut dag, n, "B").unwrap();
    assert_eq!(number(c), 0.5);
    assert_eq!(dag.to_string(t), "(named \"out\")");
}

// ---------------------------------------------------------------------- terms of cuts

#[test]
fn terms_of_cuts() {
    let mut eg = egraph(GATES);
    let r = value(&mut eg, "$r");
    let n = value(&mut eg, "$n");
    let it = CutIterator::new(&eg, "B", &vocabulary(), &vec![r], params(4)).unwrap();
    let mut dag = TermDag::default();
    // the trivial cut is an input itself
    let t = it.cut_term(&eg, &mut dag, n, 0, "B").unwrap();
    assert_eq!(dag.to_string(t), "(V \"n0\")");
    // the cut of the root over the negation keeps the constant
    let list = it.cuts_of(&eg, r, "B").unwrap();
    let cn = it.class_of(&eg, n, "B").unwrap();
    let i = list.iter().position(|c| c.leaves == vec![cn]).unwrap();
    let t = it.cut_term(&eg, &mut dag, r, i, "B").unwrap();
    assert_eq!(dag.to_string(t), "(Or (V \"n0\") (Zero))");
    // a cut of two leaves
    let list = it.cuts_of(&eg, n, "B").unwrap();
    let i = list.iter().position(|c| c.leaves.len() == 2).unwrap();
    let t = it.cut_term(&eg, &mut dag, n, i, "B").unwrap();
    let s = dag.to_string(t);
    assert!(
        s == "(Nand (V \"n0\") (V \"n1\"))" || s == "(Not (And (V \"n0\") (V \"n1\")))"
            || s == "(Nand (V \"n1\") (V \"n0\"))" || s == "(Not (And (V \"n1\") (V \"n0\")))",
        "{s}"
    );
    // the same cut is the same term
    let size = dag.size();
    assert_eq!(it.cut_term(&eg, &mut dag, n, i, "B"), Ok(t));
    assert_eq!(dag.size(), size);
    // errors
    let many = list.len();
    assert_eq!(
        it.cut_term(&eg, &mut dag, n, many, "B"),
        Err(TermError::CutRange { cuts: many })
    );
    assert_eq!(
        it.cut_term(&eg, &mut dag, n, 0, "Nope"),
        Err(TermError::Lookup(LookupError::UnknownSort))
    );
    assert_eq!(dag.size(), size);
}

/// Without a constructor of inputs no cut can be rebuilt.
#[test]
fn terms_need_inputs() {
    let mut eg = egraph("(datatype B (Zero) (Not B)) (let $n (Not (Zero)))");
    let n = value(&mut eg, "$n");
    let map = pairs(&[("Zero", "zero"), ("Not", "not")]);
    let it = CutIterator::new(&eg, "B", &map, &vec![n], params(4)).unwrap();
    let mut dag = TermDag::default();
    assert_eq!(it.cut_term(&eg, &mut dag, n, 0, "B"), Err(TermError::NoVar));
    assert_eq!(dag.size(), 0);
}

// ---------------------------------------------------------------------------- mapping

fn mapper(
    it: &CutIterator,
    cells: &Vec<CellSpec>,
    objective: &str,
) -> Result<CutMapper, MapperError> {
    let share = |flow: Cost, refs: u32| cost(number(flow) / refs as f64);
    let plus = |a: Cost, b: Cost| cost(number(a) + number(b));
    CutMapper::new(it, cells, objective, &share, &plus)
}

fn cell(name: &str, arity: usize, tt: u64, area: f64, delay: f64) -> CellSpec {
    CellSpec { name: name.to_string(), arity, tt, area: cost(area), delay: cost(delay) }
}

#[test]
fn mapping_over_an_egraph() {
    let mut eg = egraph(GATES);
    let r = value(&mut eg, "$r");
    let n = value(&mut eg, "$n");
    let it = CutIterator::new(&eg, "B", &vocabulary(), &vec![r], params(4)).unwrap();
    let cells = vec![
        cell("nand2", 2, 0b0111, 2.0, 1.5),
        cell("buf", 1, 0b10, 0.5, 0.25),
    ];
    let m = mapper(&it, &cells, "delay").unwrap();
    // the cells are taken by name
    assert_eq!(m.cells[0].name, "buf");
    let cn = it.class_of(&eg, n, "B").unwrap() as usize;
    let cr = it.class_of(&eg, r, "B").unwrap() as usize;
    let ds = m.decisions();
    let dn = ds.iter().find(|d| d.class == cn).unwrap();
    assert_eq!(dn.cell, "nand2");
    assert_eq!(dn.inputs.len(), 2);
    assert_eq!((number(dn.arrival), number(dn.flow)), (1.5, 2.0));
    // the root is a nand of the inputs as well, which is faster than a buffer behind one
    let dr = ds.iter().find(|d| d.class == cr).unwrap();
    assert_eq!((dr.cell.as_str(), number(dr.arrival)), ("nand2", 1.5));
    let c = &it.cuts_of_class(cr).unwrap()[dr.cut];
    assert_eq!(c.leaves.len(), 2);
    // the and has no cell
    assert_eq!(m.unmatched_classes().len(), 1);
    assert_eq!(m.stats().num_unmatched, 1);
    assert_eq!((m.stats().num_mapped, m.stats().num_pi, m.stats().num_const), (2, 2, 1));
    assert_eq!(number(m.stats().max_root_arrival), 1.5);
    assert_eq!(number(m.stats().total_flow_at_roots), 2.0);
    // the constant, and the names of the inputs
    assert_eq!(m.const_classes().values().copied().collect::<Vec<u64>>(), vec![0]);
    let mut names: Vec<&str> = m.pi_names().values().map(|s| s.as_str()).collect();
    names.sort();
    assert_eq!(names, vec!["far", "x", "y"]);
}

#[test]
fn every_mapper_error() {
    let mut eg = egraph(GATES);
    let r = value(&mut eg, "$r");
    let it = CutIterator::new(&eg, "B", &vocabulary(), &vec![r], params(4)).unwrap();
    assert_eq!(mapper(&it, &vec![], "delay").err(), Some(MapperError::NoCells));
    let cells = vec![cell("or2", 2, 0b1110, 1.0, 1.0)];
    assert_eq!(
        mapper(&it, &cells, "speed").err(),
        Some(MapperError::Mapping(MapError::Objective))
    );
    // neither the and, nor the negation, nor the root has a cell
    assert_eq!(
        mapper(&it, &cells, "delay").err(),
        Some(MapperError::Mapping(MapError::Unmappable { bad: 1, roots: 1, unmatched: 3 }))
    );
}

#[test]
fn names_are_ordered_by_their_bytes() {
    let names: Vec<String> =
        ["b", "a", "", "ab", "B", "\u{e9}", "a"].iter().map(|s| s.to_string()).collect();
    let order = name_order(&names);
    let sorted: Vec<&str> = order.iter().map(|&i| names[i].as_str()).collect();
    assert_eq!(sorted, vec!["", "B", "a", "a", "ab", "b", "\u{e9}"]);
    // equal names stay in order
    assert_eq!(order, vec![2, 4, 1, 6, 3, 0, 5]);
}

// ------------------------------------------------------------------------- extraction

fn extractor(
    eg: &EGraph,
    sort: &str,
    heads: &Vec<(String, Cost)>,
    fold: &str,
    eps: f64,
    noise: f64,
    profile: bool,
) -> Result<DagExtractor, ExtractorError> {
    let plus = |a: Cost, b: Cost| cost(number(a) + number(b));
    let weigh = |s: Cost| cost(eps * number(s));
    let buckets = |n: u64| cost(n as f64 * noise);
    DagExtractor::new(eg, sort, heads, fold, &plus, &weigh, &buckets, profile)
}

fn heads(list: &[(&str, f64)]) -> Vec<(String, Cost)> {
    list.iter().map(|&(n, c)| (n.to_string(), cost(c))).collect()
}

fn gate_heads() -> Vec<(String, Cost)> {
    heads(&[
        ("V", 0.0),
        ("Zero", 0.0),
        ("Not", 1.0),
        ("And", 3.0),
        ("Nand", 2.5),
        ("Or", 3.0),
    ])
}

#[test]
fn cheapest_terms() {
    let mut eg = egraph(GATES);
    let (r, n, x) = (value(&mut eg, "$r"), value(&mut eg, "$n"), value(&mut eg, "(V \"x\")"));
    let mut e = extractor(&eg, "B", &gate_heads(), "sum", 0.0, 0.0, true).unwrap();
    assert_eq!(e.num_classes(), 8);
    assert_eq!(e.num_enodes(), 9);
    let mut dag = TermDag::default();
    let (c, t) = e.extract_best(&eg, &mut dag, n, "B").unwrap();
    assert_eq!(number(c), 2.5);
    assert_eq!(dag.to_string(t), "(Nand (V \"x\") (V \"y\"))");
    let (c, t) = e.extract_best(&eg, &mut dag, r, "B").unwrap();
    assert_eq!(number(c), 5.5);
    assert_eq!(dag.to_string(t), "(Or (Nand (V \"x\") (V \"y\")) (Zero))");
    let (c, t) = e.extract_best(&eg, &mut dag, x, "B").unwrap();
    assert_eq!(number(c), 0.0);
    assert_eq!(dag.to_string(t), "(V \"x\")");
    // two strings, two inputs, the nand, the zero, the or
    assert_eq!(dag.size(), 7);
    // once more: the same cost and term, and nothing new
    let (c, u) = e.extract_best(&eg, &mut dag, x, "B").unwrap();
    assert_eq!((number(c), u), (0.0, t));
    assert_eq!(dag.size(), 7);
    let p = e.scc_profile().as_ref().unwrap();
    assert_eq!((p.num_classes, p.num_sccs, p.max_size), (8, 8, 1));
    assert_eq!(p.singleton_acyclic_nodes, 8);
}

/// The largest child counts in full, the sum of the children by a small factor.
#[test]
fn fold_of_the_largest_child() {
    let mut eg = egraph(
        "
        (datatype B (V String) (Not B) (And B B))
        (let $a (And (Not (Not (V \"x\"))) (Not (V \"y\"))))
    ",
    );
    let a = value(&mut eg, "$a");
    let hs = heads(&[("V", 0.0), ("Not", 1.0), ("And", 3.0)]);
    let mut dag = TermDag::default();
    let mut e = extractor(&eg, "B", &hs, "sum", 0.5, 0.0, false).unwrap();
    assert!(e.scc_profile().is_none());
    let (c, _) = e.extract_best(&eg, &mut dag, a, "B").unwrap();
    assert_eq!(number(c), 6.0);
    let mut e = extractor(&eg, "B", &hs, "max", 0.5, 0.0, false).unwrap();
    let mut dag = TermDag::default();
    let (c, t) = e.extract_best(&eg, &mut dag, a, "B").unwrap();
    // not(y): 1; not(not(x)): 1 + 1 + 0.5; and: 3 + 2.5 + 0.5 * 3.5
    assert_eq!(number(c), 7.25);
    assert_eq!(dag.to_string(t), "(And (Not (Not (V \"x\"))) (Not (V \"y\")))");
}

/// Noise is added by the structural hash, in one of 1024 steps.
#[test]
fn noise_of_an_enode() {
    let mut eg = egraph("(datatype B (V String) (Not B)) (let $n (Not (V \"x\")))");
    let (n, x) = (value(&mut eg, "$n"), value(&mut eg, "(V \"x\")"));
    let hs = heads(&[("V", 0.0), ("Not", 1.0)]);
    let mut e = extractor(&eg, "B", &hs, "sum", 0.0, 0.25, false).unwrap();
    let mut dag = TermDag::default();
    let (cx, _) = e.extract_best(&eg, &mut dag, x, "B").unwrap();
    assert_eq!(number(cx), 0.0);
    let (cn, _) = e.extract_best(&eg, &mut dag, n, "B").unwrap();
    let (ix, is) = (
        e.graph.enodes.iter().position(|e| !e.ch_prim.is_empty()).unwrap(),
        e.graph.enodes.iter().position(|e| !e.ch_eq.is_empty()).unwrap(),
    );
    let mut h = fnv_bytes(FNV_OFFSET, b"V");
    h = fnv_mix_u64(h, 0);
    h = fnv_mix_u64(h, fnv_bytes(FNV_OFFSET, b"x"));
    assert_eq!(e.hashes[e.graph.enodes[ix].out as usize], h);
    let g = fnv_mix_u64(fnv_bytes(FNV_OFFSET, b"Not"), h);
    assert_eq!(e.hashes[e.graph.enodes[is].out as usize], g);
    assert_eq!(number(cn), 1.0 + (g % 1024) as f64 * 0.25);
    // the digests go over the classes in order
    let (mut structure, mut choices) = (FNV_OFFSET, FNV_OFFSET);
    for (i, b) in e.best.iter().enumerate() {
        structure = fnv_mix_u64(structure, e.hashes[i]);
        choices = fnv_mix_u64(choices, b.unwrap() as u64);
    }
    assert_eq!(e.digest(), (structure, choices));
}

/// A primitive child is hashed by its text.
#[test]
fn hash_of_a_text() {
    let eg = egraph("(datatype B (P String B String) (Z)) (let $p (P \"left\" (Z) \"r\u{e9}\"))");
    let g = ClassGraph::build(&eg, "B", &heads(&[("P", 1.0), ("Z", 1.0)])).unwrap();
    let texts = hash_texts(&eg, &g);
    let left = fnv_bytes(FNV_OFFSET, b"left");
    let right = fnv_bytes(FNV_OFFSET, "r\u{e9}".as_bytes());
    assert_eq!(texts, vec![vec![left, right], vec![]]);
    assert_eq!(g.enodes[0].ch_prim.iter().map(|p| p.0).collect::<Vec<u32>>(), vec![0, 2]);
    assert_eq!(fnv_bytes(FNV_OFFSET, b"a"), 0xaf63_dc4c_8601_ec8c);
}

/// Ties between strings go by their texts, in whatever order the e-graph met them.
#[test]
fn ties_go_by_text() {
    let pick = |program: &str| {
        let mut eg = egraph(program);
        let v = value(&mut eg, "$a");
        let mut e = extractor(&eg, "B", &heads(&[("V", 0.0)]), "sum", 0.0, 0.5, false).unwrap();
        let id = |text: &str| {
            let g = &e.graph;
            let h = fnv_bytes(FNV_OFFSET, text.as_bytes());
            let at = hash_texts(&eg, g).iter().position(|r| r[0] == h).unwrap();
            g.enodes[at].ch_prim[0].1
        };
        let (x, y) = (id("x"), id("y"));
        let mut dag = TermDag::default();
        let (_, t) = e.extract_best(&eg, &mut dag, v, "B").unwrap();
        (x < y, dag.to_string(t))
    };
    let kind = "(datatype B (V String))";
    let (up, a) = pick(&format!("{kind} (let $a (V \"x\")) (union $a (V \"y\"))"));
    let (down, b) = pick(&format!("{kind} (let $a (V \"y\")) (union $a (V \"x\"))"));
    assert_ne!(up, down);
    assert_eq!(a, b);
    let hash = |text: &str| {
        let h = fnv_mix_u64(fnv_bytes(FNV_OFFSET, b"V"), 0);
        fnv_mix_u64(h, fnv_bytes(FNV_OFFSET, text.as_bytes()))
    };
    let smaller = if hash("x") < hash("y") { "x" } else { "y" };
    assert_eq!(a, format!("(V {smaller:?})"));
}

/// What else the e-graph holds moves the numbers of classes and strings, and nothing else.
#[test]
fn numbers_do_not_matter() {
    let before = "
        (datatype C (W String))
        (let $c (W \"far\"))
        (let $d (W \"y\"))
        (let $e (W \"other\"))
    ";
    let mut a = egraph(GATES);
    let mut b = egraph(&format!("{before} {GATES}"));
    let (ra, rb) = (value(&mut a, "$r"), value(&mut b, "$r"));
    assert_ne!(ra, rb);
    for (fold, noise) in [("sum", 0.0), ("sum", 0.125), ("max", 0.125)] {
        let mut x = extractor(&a, "B", &gate_heads(), fold, 0.5, noise, false).unwrap();
        let mut y = extractor(&b, "B", &gate_heads(), fold, 0.5, noise, false).unwrap();
        assert_ne!(x.graph.classes, y.graph.classes);
        assert_eq!(x.graph.sccs, y.graph.sccs);
        assert_eq!(x.costs, y.costs);
        assert_eq!(x.hashes, y.hashes);
        assert_eq!(x.best, y.best);
        assert_eq!(x.digest(), y.digest());
        let (mut s, mut t) = (TermDag::default(), TermDag::default());
        let (c, i) = x.extract_best(&a, &mut s, ra, "B").unwrap();
        let (d, j) = y.extract_best(&b, &mut t, rb, "B").unwrap();
        assert_eq!((c, s.to_string(i)), (d, t.to_string(j)));
    }
}

/// The order in which rows come in does not matter, where no class depends on itself.
#[test]
fn row_order_does_not_matter() {
    let other = "
        (datatype B (V String) (Zero) (Not B) (And B B) (Nand B B) (Or B B))
        (let $far (And (V \"far\") (V \"x\")))
        (let $z (Zero))
        (let $n (Nand (V \"x\") (V \"y\")))
        (union $n (Not (And (V \"x\") (V \"y\"))))
        (let $r (Or $n $z))
    ";
    let (mut a, mut b) = (egraph(GATES), egraph(other));
    for (fold, noise) in [("sum", 0.0), ("sum", 0.125), ("max", 0.125)] {
        let mut x = extractor(&a, "B", &gate_heads(), fold, 0.5, noise, false).unwrap();
        let mut y = extractor(&b, "B", &gate_heads(), fold, 0.5, noise, false).unwrap();
        let (mut s, mut t) = (TermDag::default(), TermDag::default());
        for expr in ["$r", "$n", "$far", "(V \"y\")", "(And (V \"x\") (V \"y\"))", "(Zero)"] {
            let (p, q) = (value(&mut a, expr), value(&mut b, expr));
            let (c, i) = x.extract_best(&a, &mut s, p, "B").unwrap();
            let (d, j) = y.extract_best(&b, &mut t, q, "B").unwrap();
            assert_eq!((c, s.to_string(i)), (d, t.to_string(j)), "{expr}");
        }
        // the same hashes, in another order
        assert_ne!(x.hashes, y.hashes);
        let sorted = |hashes: &[u64]| {
            let mut hashes = hashes.to_vec();
            hashes.sort();
            hashes
        };
        assert_eq!(sorted(&x.hashes), sorted(&y.hashes));
    }
}

/// The arguments of a rebuilt term are the terms remembered for its children.
#[test]
fn arguments_are_the_remembered_terms() {
    let mut eg = egraph(GATES);
    let r = value(&mut eg, "$r");
    let mut e = extractor(&eg, "B", &gate_heads(), "sum", 0.0, 0.0, false).unwrap();
    let mut dag = TermDag::default();
    let (_, t) = e.extract_best(&eg, &mut dag, r, "B").unwrap();
    assert!(e.memo.values().any(|&id| id == t));
    assert_eq!(e.memo.len(), 5);
    for (&v, &id) in &e.memo {
        let x = &e.graph.enodes[e.best[v as usize].unwrap()];
        match dag.get(id) {
            Term::App(name, args) => {
                assert_eq!(*name, e.graph.funcs[x.func].term_name);
                let known: Vec<usize> = x.ch_eq.iter().map(|c| e.memo[c]).collect();
                if x.ch_prim.is_empty() {
                    assert_eq!(*args, known);
                } else {
                    assert!(matches!(dag.get(args[0]), Term::Lit(Literal::String(_))));
                }
            }
            _ => panic!("no application"),
        }
    }
}

/// A cycle of equal classes is left by its cheapest way out.
#[test]
fn cycles_are_left() {
    let mut eg = egraph(
        "
        (datatype B (V String) (Not B) (And B B))
        (let $x (V \"x\"))
        (union $x (Not (Not $x)))
        (union $x (And $x $x))
        (let $n (Not $x))
    ",
    );
    let (x, n) = (value(&mut eg, "$x"), value(&mut eg, "$n"));
    let hs = heads(&[("V", 2.0), ("Not", 1.0), ("And", 1.0)]);
    for (fold, noise) in [("sum", 0.0), ("max", 0.0), ("sum", 1e-7), ("max", 1e-7)] {
        let mut e = extractor(&eg, "B", &hs, fold, 0.0, noise, true).unwrap();
        let mut dag = TermDag::default();
        let (c, t) = e.extract_best(&eg, &mut dag, n, "B").unwrap();
        assert!((number(c) - 3.0).abs() < 1e-3);
        assert_eq!(dag.to_string(t), "(Not (V \"x\"))");
        let (c, t) = e.extract_best(&eg, &mut dag, x, "B").unwrap();
        assert!((number(c) - 2.0).abs() < 1e-3);
        assert_eq!(dag.to_string(t), "(V \"x\")");
        let p = e.scc_profile().as_ref().unwrap();
        assert_eq!((p.num_classes, p.num_sccs, p.multi_node_nodes), (2, 1, 2));
    }
}

#[test]
fn every_extractor_error() {
    let mut eg = egraph(
        "
        (datatype B (V String) (F B) (Out B) (W))
        (let $x (V \"x\"))
        (union $x (F $x))
        (let $out (Out (W)))
        (let $w (W))
    ",
    );
    let hs = heads(&[("V", 1.0), ("F", 1.0)]);
    let r = extractor(&eg, "B", &hs, "min", 0.0, 0.0, false);
    assert!(matches!(r, Err(ExtractorError::UnknownFold)));
    let r = extractor(&eg, "Nope", &hs, "sum", 0.0, 0.0, false);
    assert!(matches!(r, Err(ExtractorError::Build(BuildError::UnknownSort(s))) if s == "Nope"));
    // a head cost below zero makes the cycle cheaper with every pass
    let neg = heads(&[("V", 1.0), ("F", -1.0)]);
    let r = extractor(&eg, "B", &neg, "sum", 0.0, 0.0, false);
    assert!(matches!(r, Err(ExtractorError::NotConverged)));
    let (x, w, out) = (value(&mut eg, "$x"), value(&mut eg, "$w"), value(&mut eg, "$out"));
    let mut dag = TermDag::default();
    // a free head over the class itself
    let free = heads(&[("V", 1.0), ("F", 0.0)]);
    let mut e = extractor(&eg, "B", &free, "sum", 0.0, 0.0, false).unwrap();
    let r = e.extract_best(&eg, &mut dag, x, "B");
    assert_eq!(r, Err(ExtractError::Term(TermFault::Cyclic)));
    // a free head over a class without e-nodes
    let open = heads(&[("Out", 0.0)]);
    let mut e = extractor(&eg, "B", &open, "sum", 0.0, 0.0, false).unwrap();
    let r = e.extract_best(&eg, &mut dag, out, "B");
    assert_eq!(r, Err(ExtractError::Term(TermFault::Missing)));
    // that class itself has no cost, and another one is not there
    assert_eq!(e.extract_best(&eg, &mut dag, w, "B"), Err(ExtractError::Root));
    assert_eq!(e.extract_best(&eg, &mut dag, x, "B"), Err(ExtractError::Root));
    assert_eq!(e.extract_best(&eg, &mut dag, x, "Nope"), Err(ExtractError::UnknownSort));
    assert_eq!(dag.size(), 0);
}

/// Among equally cheap e-nodes the smaller structural hash wins, in whatever order the
/// e-nodes are listed.
#[test]
fn equal_costs_go_to_the_smaller_hash() {
    let build = |names: [&str; 3]| {
        let funcs = names
            .iter()
            .map(|n| FuncTab { term_name: n.to_string(), eq_mask: vec![], arity: 0 })
            .collect();
        let rows: Vec<NodeRow> = (0..3)
            .map(|func| NodeRow { func, children: vec![], prims: vec![], out: 5, head: cost(1.0) })
            .collect();
        let g = assemble(funcs, &rows).unwrap();
        let plus = |a: Cost, b: Cost| cost(number(a) + number(b));
        let noise = |_: u64| cost(0.0);
        let weigh = |_: Cost| cost(0.0);
        let texts = vec![vec![]; g.enodes.len()];
        let e = DagExtractor::over(g, &texts, false, &plus, &weigh, &noise, false).unwrap();
        e.graph.funcs[e.graph.enodes[e.best[0].unwrap()].func].term_name.clone()
    };
    let mut names = ["p", "q", "r"];
    names.sort_by_key(|n| fnv_bytes(FNV_OFFSET, n.as_bytes()));
    let [a, b, c] = names;
    assert_eq!(build([a, b, c]), a);
    assert_eq!(build([c, b, a]), a);
    assert_eq!(build([b, a, c]), a);
}

/// The cost of a class is that of its cheapest tree: here of 40 nested pairs.
#[test]
fn costs_of_shared_trees() {
    let mut rows = vec![NodeRow {
        func: 0,
        children: vec![],
        prims: vec![],
        out: 0,
        head: cost(1.0),
    }];
    for i in 0..40u32 {
        rows.push(NodeRow {
            func: 1,
            children: vec![i, i],
            prims: vec![],
            out: i + 1,
            head: cost(1.0),
        });
    }
    let funcs = vec![
        FuncTab { term_name: "leaf".to_string(), eq_mask: vec![], arity: 0 },
        FuncTab { term_name: "pair".to_string(), eq_mask: vec![true, true], arity: 2 },
    ];
    let g = assemble(funcs, &rows).unwrap();
    let first: &Enode = &g.enodes[0];
    assert_eq!(first.out, 0);
    let plus = |a: Cost, b: Cost| cost(number(a) + number(b));
    let noise = |_: u64| cost(0.0);
    let weigh = |_: Cost| cost(0.0);
    let texts = vec![vec![]; g.enodes.len()];
    let e = DagExtractor::over(g, &texts, false, &plus, &weigh, &noise, false).unwrap();
    assert_eq!(number(e.costs[40]), (2u64.pow(41) - 1) as f64);
}

/// Costs are ordered as numbers are.
#[test]
fn costs_are_ordered_as_numbers() {
    let xs = [f64::NEG_INFINITY, -2.5, -1e-300, 0.0, 1e-300, 1.0, 1.5, f64::MAX, f64::INFINITY];
    for (i, &a) in xs.iter().enumerate() {
        assert_eq!(number(cost(a)), a);
        assert_eq!(cost(a).is_finite(), a.is_finite());
        assert!(!cost(a).less(Cost::Nan) && !Cost::Nan.less(cost(a)));
        assert!(!cost(a).equal(Cost::Nan));
        assert_eq!(cost(a).max(Cost::Nan), cost(a));
        for (j, &b) in xs.iter().enumerate() {
            assert_eq!(cost(a).less(cost(b)), i < j);
            assert_eq!(cost(a).equal(cost(b)), i == j);
            assert_eq!(number(cost(a).max(cost(b))), a.max(b));
        }
    }
    assert_eq!(cost(-0.0), Cost::zero());
    assert_eq!(cost(f64::INFINITY), Cost::infinity());
    assert!(!Cost::Nan.is_finite() && !Cost::Nan.equal(Cost::Nan));
}

/// Value of a term of gates over named inputs.
fn simulate(dag: &TermDag, id: usize, env: &dyn Fn(&str) -> u64) -> u64 {
    let arg = |ch: &Vec<usize>, i: usize| simulate(dag, ch[i], env);
    match dag.get(id) {
        Term::App(head, ch) => match head.as_str() {
            "V" => match dag.get(ch[0]) {
                Term::Lit(Literal::String(s)) => env(s),
                other => panic!("{other:?}"),
            },
            "Zero" => 0,
            "Not" => 1 - arg(ch, 0),
            "And" => arg(ch, 0) & arg(ch, 1),
            "Nand" => 1 - (arg(ch, 0) & arg(ch, 1)),
            "Or" => arg(ch, 0) | arg(ch, 1),
            other => panic!("{other}"),
        },
        other => panic!("{other:?}"),
    }
}

/// The rebuilt term of every cut computes the cut's truth table, bit for bit.
#[test]
fn rebuilt_terms_compute_their_cuts() {
    let mut eg = egraph(
        "
        (datatype B (V String) (Zero) (Not B) (And B B) (Nand B B) (Or B B))
        (let $a (Nand (V \"x\") (V \"y\")))
        (let $b (Or $a (Not (V \"z\"))))
        (let $r (And (Or $b (Zero)) (Nand $a $b)))
    ",
    );
    let r = value(&mut eg, "$r");
    let b = value(&mut eg, "$b");
    let it = CutIterator::new(&eg, "B", &vocabulary(), &vec![r], params(5)).unwrap();
    let mut dag = TermDag::default();
    let mut seen = 0;
    for v in [r, b] {
        for (i, c) in it.cuts_of(&eg, v, "B").unwrap().iter().enumerate() {
            let t = it.cut_term(&eg, &mut dag, v, i, "B").unwrap();
            for m in 0..(1u64 << c.leaves.len()) {
                let env = |name: &str| (m >> name[1..].parse::<u64>().unwrap()) & 1;
                assert_eq!(simulate(&dag, t, &env), (c.tt >> m) & 1, "cut {i} minterm {m}");
            }
            seen += 1;
        }
    }
    assert!(seen > 6);
}

/// The order in which the vocabulary is given does not matter.
#[test]
fn vocabulary_in_any_order() {
    let eg = egraph(GATES);
    let mut hs = gate_heads();
    let a = ClassGraph::build(&eg, "B", &hs).unwrap();
    hs.reverse();
    let b = ClassGraph::build(&eg, "B", &hs).unwrap();
    assert_eq!(a.classes, b.classes);
    assert_eq!(a.enodes_of, b.enodes_of);
    assert_eq!(a.class_index, b.class_index);
    assert_eq!(a.adj, b.adj);
    assert_eq!(a.sccs, b.sccs);
    assert_eq!(a.scc_of, b.scc_of);
    assert_eq!(format!("{:?}", a.funcs), format!("{:?}", b.funcs));
    assert_eq!(format!("{:?}", a.enodes), format!("{:?}", b.enodes));
    // by name, one e-node for each row
    let names: Vec<&str> = a.funcs.iter().map(|f| f.term_name.as_str()).collect();
    assert_eq!(names, ["And", "Nand", "Not", "Or", "V", "Zero"]);
    let funcs: Vec<usize> = a.enodes.iter().map(|e| e.func).collect();
    assert_eq!(funcs, [0, 0, 1, 2, 3, 4, 4, 4, 5]);
    let costs: Vec<f64> = a.enodes.iter().map(|e| number(e.head)).collect();
    assert_eq!(costs, [3.0, 3.0, 2.5, 1.0, 3.0, 0.0, 0.0, 0.0, 0.0]);
    assert!(a.enodes.iter().all(|e| e.ch_eq.len() + e.ch_prim.len() == a.funcs[e.func].arity));
}

/// Enumerating twice, or with the vocabulary in another order, gives the same cuts.
#[test]
fn enumerating_twice() {
    let mut eg = egraph(GATES);
    let r = value(&mut eg, "$r");
    let mut ops = vocabulary();
    let a = CutIterator::new(&eg, "B", &ops, &vec![r], params(4)).unwrap();
    let b = CutIterator::new(&eg, "B", &ops, &vec![r], params(4)).unwrap();
    ops.reverse();
    let c = CutIterator::new(&eg, "B", &ops, &vec![r], params(4)).unwrap();
    assert!(a.result.cuts.iter().any(|list| list.len() > 1));
    for other in [b, c] {
        assert_eq!(format!("{:?}", a.result), format!("{:?}", other.result));
        assert_eq!(a.cone, other.cone);
        assert_eq!(a.root_ids, other.root_ids);
        assert_eq!(a.kernels, other.kernels);
        assert_eq!(a.pi_names, other.pi_names);
    }
}

/// Asking for the profile changes nothing else.
#[test]
fn profile_changes_nothing() {
    let eg = egraph(GATES);
    let a = extractor(&eg, "B", &gate_heads(), "sum", 0.0, 1e-7, true).unwrap();
    let b = extractor(&eg, "B", &gate_heads(), "sum", 0.0, 1e-7, false).unwrap();
    assert!(a.scc_profile.is_some() && b.scc_profile.is_none());
    assert_eq!(a.costs, b.costs);
    assert_eq!(a.hashes, b.hashes);
    assert_eq!(a.best, b.best);
}

/// Without noise the costs are the least ones, and the chosen e-nodes have them.
#[test]
fn costs_are_the_least() {
    // five classes with cycles through three of them
    let nodes: [(&[u32], u32, f64); 9] = [
        (&[], 0, 4.0),
        (&[1, 1], 0, 1.0),
        (&[0], 1, 2.0),
        (&[2], 1, 1.5),
        (&[3], 2, 0.5),
        (&[0, 3], 2, 0.25),
        (&[], 3, 3.0),
        (&[2, 1], 3, 0.125),
        (&[4], 4, 1.0),
    ];
    let funcs: Vec<FuncTab> = (0..3)
        .map(|n| FuncTab { term_name: format!("f{n}"), eq_mask: vec![true; n], arity: n })
        .collect();
    let rows: Vec<NodeRow> = nodes
        .iter()
        .map(|(ch, out, head)| NodeRow {
            func: ch.len(),
            children: ch.to_vec(),
            prims: vec![],
            out: *out,
            head: cost(*head),
        })
        .collect();
    for fold_max in [false, true] {
        let price = |head: f64, cs: &[f64]| {
            let sum = cs.iter().sum::<f64>();
            let max = cs.iter().copied().fold(0.0, f64::max);
            if fold_max { head + max + 0.5 * sum } else { head + sum }
        };
        // the least costs, by values
        let mut least = [f64::INFINITY; 5];
        for _ in 0..20 {
            for (ch, out, head) in &nodes {
                let cs: Vec<f64> = ch.iter().map(|&c| least[c as usize]).collect();
                let x = price(*head, &cs);
                if x < least[*out as usize] {
                    least[*out as usize] = x;
                }
            }
        }
        let g = assemble(
            funcs
                .iter()
                .map(|f| FuncTab {
                    term_name: f.term_name.clone(),
                    eq_mask: f.eq_mask.clone(),
                    arity: f.arity,
                })
                .collect(),
            &rows,
        )
        .unwrap();
        let plus = |a: Cost, b: Cost| cost(number(a) + number(b));
        let noise = |_: u64| cost(0.0);
        let weigh = |s: Cost| cost(0.5 * number(s));
        let texts = vec![vec![]; g.enodes.len()];
        let e = DagExtractor::over(g, &texts, fold_max, &plus, &weigh, &noise, false).unwrap();
        for v in 0..5 {
            let want = least[e.graph.classes[v] as usize];
            assert_eq!(number(e.costs[v]), want, "class {v}");
            match e.best[v] {
                None => assert_eq!(want, f64::INFINITY),
                Some(b) => {
                    let x: &Enode = &e.graph.enodes[b];
                    let cs: Vec<f64> =
                        x.ch_eq.iter().map(|&c| number(e.costs[c as usize])).collect();
                    assert_eq!(price(number(x.head), &cs), want);
                    // every child is cheaper
                    assert!(cs.iter().all(|&c| c < want));
                }
            }
        }
        assert!(e.best.iter().filter(|b| b.is_some()).count() == 4);
    }
}
