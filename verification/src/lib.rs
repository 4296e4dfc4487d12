//! Cut enumeration and technology mapping over e-class graphs.
pub mod alike;
pub mod best_term;
pub mod build_laws;
pub mod class_graph;
pub mod complete;
pub mod cost;
pub mod count_laws;
pub mod cut;
pub mod cut_iter;
pub mod cut_laws;
pub mod cut_map;
pub mod dag_extract;
pub mod egraph;
pub mod end_laws;
pub mod enumerate;
pub mod extract_alike;
pub mod extract_dp;
pub mod extract_laws;
pub mod fault_laws;
pub mod fnv;
pub mod iter_alike;
pub mod iter_laws;
pub mod kernel;
pub mod leaves;
pub mod library;
pub mod list_laws;
pub mod map_laws;
pub mod mapping;
pub mod merge;
pub mod names;
pub mod perm;
pub mod price_laws;
pub mod profile;
pub mod reach;
pub mod rearranged;
pub mod reason_laws;
pub mod reconstruct;
pub mod row_laws;
pub mod row_order;
pub mod scc;
pub mod semantics;
pub mod shown_laws;
pub mod simulate;
pub mod snapshot;
pub mod stats;
pub mod step_laws;
pub mod sweep_laws;
pub mod table_laws;
pub mod tally;
pub mod term_laws;
pub mod truth;
pub mod walk;
pub mod walk_laws;
