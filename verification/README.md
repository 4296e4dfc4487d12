# cutgraph

Cut enumeration, technology mapping and term extraction over the e-class graph of an
[egglog](https://crates.io/crates/egglog) e-graph, verified with Verus.

A class graph is a snapshot of one sort of an e-graph over a vocabulary of constructors: its
classes, their e-nodes, and the condensation into strongly connected components. Three things
are computed on it:

- **Cuts** (`cut_iter`): for every class the leaf sets over which one of its e-nodes computes
  it, with truth tables over at most six leaves.
- **Mappings** (`cut_map`): a cell of a library for every class that one can be found for, by
  delay or by area.
- **Terms** (`dag_extract`): the cheapest term of every class under a cost model.

## Layout

| Module | Subject |
| --- | --- |
| `egraph` | the e-graph and the term arena of egglog: what is trusted of them |
| `snapshot`, `class_graph`, `names` | taking the class graph of an e-graph |
| `alike`, `build_laws` | when two class graphs are the same, and what holds of every one |
| `scc`, `walk`, `reach`, `profile` | components, depth-first walks, reachability, statistics of the condensation |
| `truth`, `kernel`, `cut`, `leaves`, `merge`, `fnv` | truth tables, operators, cuts and their merges |
| `enumerate`, `stats`, `tally` | the enumeration and its statistics |
| `semantics`, `complete` | what the cuts say of the classes, and what they leave out |
| `cut_iter`, `reconstruct`, `simulate` | cuts of an e-graph, their terms, what the terms compute |
| `iter_alike` | the cuts of one e-graph, taken twice |
| `perm`, `library`, `mapping`, `map_laws`, `cut_map` | pin permutations, the cell index, the mapping and its laws |
| `cost`, `extract_dp`, `extract_laws`, `best_term`, `dag_extract` | costs, cheapest e-nodes, their laws, terms |
| `extract_alike`, `row_order`, `rearranged` | the terms of one e-graph, taken twice, under other numbers or from rows in another order |

Costs are floating-point numbers outside the library. Inside it a cost is its place in the
numeric order, and sums, products and quotients come in as functions of the caller.

`app/` holds the Python bindings.
