//! The e-graph and the term arena of egglog, as far as this library reads and fills them.
use egglog::ast::{FunctionSubtype, Literal};
use egglog::{EGraph, TermDag, Value};
use egglog_numeric_id::NumericId;
use vstd::prelude::*;

verus! {

/// `egglog::EGraph`: a database of sorts, functions and their rows.
#[verifier::external_type_specification]
#[verifier::external_body]
pub struct ExEGraph(egglog::EGraph);

/// `egglog::TermDag`: a hash-consing arena of terms.
#[verifier::external_type_specification]
#[verifier::external_body]
pub struct ExTermDag(egglog::TermDag);

/// `egglog::Error`.
#[verifier::external_type_specification]
#[verifier::external_body]
pub struct ExError(egglog::Error);

/// A sort of an e-graph.
#[derive(Debug)]
pub struct SortInfo {
    pub name: String,
    /// Its values are e-classes.
    pub eq: bool,
    /// Its values are containers.
    pub container: bool,
}

/// The value of a sort.
#[verifier::ext_equal]
pub struct SortView {
    pub name: Seq<char>,
    pub eq: bool,
    pub container: bool,
}

impl View for SortInfo {
    type V = SortView;

    open spec fn view(&self) -> SortView {
        SortView { name: self.name@, eq: self.eq, container: self.container }
    }
}

/// A function of an e-graph.
#[derive(Debug)]
pub struct FunctionInfo {
    /// It stands for a `let` binding.
    pub let_binding: bool,
    /// It is a constructor (otherwise a function with a merge expression).
    pub constructor: bool,
    pub inputs: Vec<SortInfo>,
    /// Name of the output sort.
    pub output: String,
}

/// The value of a function.
#[verifier::ext_equal]
pub struct FunctionView {
    pub let_binding: bool,
    pub constructor: bool,
    pub inputs: Seq<SortView>,
    pub output: Seq<char>,
}

/// The values of a list of sorts.
pub open spec fn sort_views(s: Seq<SortInfo>) -> Seq<SortView> {
    Seq::new(s.len(), |i: int| s[i]@)
}

impl View for FunctionInfo {
    type V = FunctionView;

    open spec fn view(&self) -> FunctionView {
        FunctionView {
            let_binding: self.let_binding,
            constructor: self.constructor,
            inputs: sort_views(self.inputs@),
            output: self.output@,
        }
    }
}

/// A row of a function's table.
#[derive(Debug)]
pub struct Row {
    pub inputs: Vec<u32>,
    pub output: u32,
    pub subsumed: bool,
}

/// The value of a row.
#[verifier::ext_equal]
pub struct RowView {
    pub inputs: Seq<u32>,
    pub output: u32,
    pub subsumed: bool,
}

impl View for Row {
    type V = RowView;

    open spec fn view(&self) -> RowView {
        RowView { inputs: self.inputs@, output: self.output, subsumed: self.subsumed }
    }
}

/// The values of a list of rows.
pub open spec fn row_views(s: Seq<Row>) -> Seq<RowView> {
    Seq::new(s.len(), |i: int| s[i]@)
}

// ------------------------------------------------------------- what an e-graph holds

/// The sorts of an e-graph by name.
pub uninterp spec fn sorts_of(eg: EGraph) -> Map<Seq<char>, SortView>;

/// The functions of an e-graph by name.
pub uninterp spec fn functions_of(eg: EGraph) -> Map<Seq<char>, FunctionView>;

/// The names under which an e-graph reads a table of its own.
///
/// Clones of an e-graph share one registry of table names, and the newest declaration of a
/// name takes its entry over. A name that a clone declares while both live is none of these:
/// what is read under it is the clone's table, which this e-graph may not even have.
pub uninterp spec fn own_tables_of(eg: EGraph) -> Set<Seq<char>>;

/// The rows of the constructor tables of an e-graph, in table order, by the names of its own
/// tables.
pub uninterp spec fn constructors_of(eg: EGraph) -> Map<Seq<char>, Seq<RowView>>;

/// The rows of the other function tables of an e-graph, in table order, by the names of its
/// own tables.
pub uninterp spec fn entries_of(eg: EGraph) -> Map<Seq<char>, Seq<RowView>>;

/// The canonical value of each value of each sort.
pub uninterp spec fn canonical_of(eg: EGraph) -> Map<(Seq<char>, u32), u32>;

/// The strings that values of the sort `String` stand for.
pub uninterp spec fn strings_of(eg: EGraph) -> Map<u32, Seq<char>>;

/// The values in the `String` columns of some rows of the function `name` stand for strings.
pub open spec fn strings_known(eg: EGraph, name: Seq<char>, rows: Seq<RowView>) -> bool {
    functions_of(eg).dom().contains(name) ==> forall|i: int, j: int|
        0 <= i < rows.len() && 0 <= j < rows[i].inputs.len() && j < functions_of(
            eg,
        )[name].inputs.len() && functions_of(eg)[name].inputs[j].name == "String"@
            ==> strings_of(eg).dom().contains(#[trigger] rows[i].inputs[j])
}

/// The table of the function `name` is typed as far as strings go: what stands in a `String`
/// column stands for a string. This holds of what programs write; the raw writing interface
/// of the e-graph does not look at the sorts of columns.
pub open spec fn well_typed(eg: EGraph, name: Seq<char>) -> bool {
    &&& constructors_of(eg).dom().contains(name) ==> strings_known(
        eg,
        name,
        constructors_of(eg)[name],
    )
    &&& entries_of(eg).dom().contains(name) ==> strings_known(eg, name, entries_of(eg)[name])
}

/// Wraps `EGraph::get_sort_by_name`: the sort of the given name, if the e-graph has one.
#[verifier::external_body]
pub(crate) fn find_sort(eg: &EGraph, name: &str) -> (r: Option<SortInfo>)
    ensures
        match r {
            Some(s) => sorts_of(*eg).dom().contains(name@) && s@ == sorts_of(*eg)[name@],
            None => !sorts_of(*eg).dom().contains(name@),
        },
{
    let s = eg.get_sort_by_name(name)?;
    Some(SortInfo {
        name: s.name().to_string(),
        eq: s.is_eq_sort(),
        container: s.is_container_sort(),
    })
}

/// Wraps `EGraph::get_function`: the signature of the function of the given name, if the
/// e-graph has one.
#[verifier::external_body]
pub(crate) fn find_function(eg: &EGraph, name: &str) -> (r: Option<FunctionInfo>)
    ensures
        match r {
            Some(f) => functions_of(*eg).dom().contains(name@) && f@ == functions_of(*eg)[name@],
            None => !functions_of(*eg).dom().contains(name@),
        },
{
    let f = eg.get_function(name)?;
    let t = f.func_type();
    Some(FunctionInfo {
        let_binding: f.is_let_binding(),
        constructor: matches!(t.subtype, FunctionSubtype::Constructor),
        inputs: t.input.iter().map(|s| SortInfo {
            name: s.name().to_string(),
            eq: s.is_eq_sort(),
            container: s.is_container_sort(),
        }).collect(),
        output: t.output.name().to_string(),
    })
}

/// Wraps `EGraph::constructor_enodes`: the rows of a constructor table, in the order of the
/// table. It fails where the function has no such table. Left out are names that the e-graph
/// has no function for and names whose entry in the registry is not this e-graph's: the
/// registry outlives a `pop` and is shared with clones, and the read would panic or go to
/// another table.
#[verifier::external_body]
pub(crate) fn constructor_rows(eg: &EGraph, name: &str) -> (r: Result<Vec<Row>, egglog::Error>)
    requires
        functions_of(*eg).dom().contains(name@),
        own_tables_of(*eg).contains(name@),
    ensures
        match r {
            Ok(rows) => own_tables_of(*eg).contains(name@) && constructors_of(*eg).dom().contains(name@) && row_views(rows@)
                == constructors_of(*eg)[name@],
            Err(_) => !constructors_of(*eg).dom().contains(name@),
        },
{
    let mut rows = Vec::new();
    eg.constructor_enodes(name, |e| {
        rows.push(Row {
            inputs: e.children.iter().map(|v| v.rep()).collect(),
            output: e.eclass.rep(),
            subsumed: e.subsumed,
        })
    })?;
    Ok(rows)
}

/// Wraps `EGraph::function_entries`: the rows of the table of a function that is no
/// constructor, in the order of the table. It fails where the function has no such table. The
/// same names are left out as above.
#[verifier::external_body]
pub(crate) fn function_rows(eg: &EGraph, name: &str) -> (r: Result<Vec<Row>, egglog::Error>)
    requires
        functions_of(*eg).dom().contains(name@),
        own_tables_of(*eg).contains(name@),
    ensures
        match r {
            Ok(rows) => own_tables_of(*eg).contains(name@) && entries_of(*eg).dom().contains(name@) && row_views(rows@) == entries_of(
                *eg,
            )[name@],
            Err(_) => !entries_of(*eg).dom().contains(name@),
        },
{
    let mut rows = Vec::new();
    eg.function_entries(name, |e| {
        rows.push(Row {
            inputs: e.inputs.iter().map(|v| v.rep()).collect(),
            output: e.output.rep(),
            subsumed: e.subsumed,
        })
    })?;
    Ok(rows)
}

/// Wraps `EGraph::value_to_class_id`, whose result `EGraph::class_id_to_value` turns back
/// into a value: the canonical value of `value` in the given sort.
#[verifier::external_body]
pub(crate) fn canonical_value(eg: &EGraph, sort: &str, value: u32) -> (r: u32)
    requires
        sorts_of(*eg).dom().contains(sort@),
    ensures
        r == canonical_of(*eg)[(sort@, value)],
{
    let s = eg.get_sort_by_name(sort).unwrap();
    let id = eg.value_to_class_id(s, Value::new_const(value));
    eg.class_id_to_value(&id).rep()
}

/// Wraps `EGraph::value_to_base` at the sort of strings: the string that a value stands
/// for.
#[verifier::external_body]
pub(crate) fn string_value(eg: &EGraph, value: u32) -> (r: String)
    requires
        strings_of(*eg).dom().contains(value),
    ensures
        r@ == strings_of(*eg)[value],
{
    eg.value_to_base::<egglog::sort::S>(Value::new_const(value)).0
}

// -------------------------------------------------------------- what a term arena holds

/// A term of an arena.
#[verifier::ext_equal]
pub enum TermView {
    /// A string literal.
    Text(Seq<char>),
    /// A head applied to terms of the arena.
    App(Seq<char>, Seq<usize>),
    /// Any other term.
    Other,
}

/// The terms of an arena by their ids.
pub uninterp spec fn terms_of(dag: TermDag) -> Seq<TermView>;

/// `after` holds `t` at `id` only: where `before` had it, else as a new last term.
pub open spec fn added(before: Seq<TermView>, after: Seq<TermView>, t: TermView, id: usize) -> bool {
    &&& id < after.len()
    &&& after[id as int] == t
    &&& forall|i: int| 0 <= i < after.len() && #[trigger] after[i] == t ==> i == id
    &&& if before.contains(t) {
        after == before
    } else {
        after == before.push(t)
    }
}

/// Wraps `TermDag::lit` at string literals: the id of the literal, which is added to the
/// arena if it is not there.
#[verifier::external_body]
pub(crate) fn add_text(dag: &mut TermDag, text: String) -> (id: usize)
    ensures
        added(terms_of(*old(dag)), terms_of(*final(dag)), TermView::Text(text@), id),
{
    dag.lit(Literal::String(text))
}

/// Wraps `TermDag::app`: the id of a head applied to terms of the arena, which is added to
/// the arena if it is not there.
#[verifier::external_body]
pub(crate) fn add_app(dag: &mut TermDag, head: String, children: Vec<usize>) -> (id: usize)
    requires
        forall|i: int|
            0 <= i < children@.len() ==> (#[trigger] children@[i]) < terms_of(*old(dag)).len(),
    ensures
        added(terms_of(*old(dag)), terms_of(*final(dag)), TermView::App(head@, children@), id),
{
    dag.app(head, children)
}

} // verus!
