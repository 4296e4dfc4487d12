//! When a class graph can be taken, and what is wrong where it cannot.
use egglog::EGraph;
use vstd::prelude::*;

use crate::alike::lemma_first_touch_once;
use crate::class_graph::ClassGraph;
use crate::cost::Cost;
use crate::egraph::{constructors_of, entries_of, functions_of, sorts_of, SortView};
use crate::names::{before, lemma_bytes_strict, lemma_order_onto, name_less, orders};
use crate::row_laws::lemma_touch_holds;
use crate::snapshot::{
    builds, first_touch, head_names, in_order, scanned, snapshot, supported, touched, BuildError,
    BuildFault,
};

verus! {

/// The e-graph has a function of that name that is no `let` binding.
pub open spec fn is_constructor(eg: EGraph, name: Seq<char>) -> bool {
    functions_of(eg).dom().contains(name) && !functions_of(eg)[name].let_binding
}

/// The function gives values of the sort.
pub open spec fn outputs(eg: EGraph, root: SortView, name: Seq<char>) -> bool {
    functions_of(eg)[name].output == root.name
}

/// Every input of the function is a class of the sort or a string.
pub open spec fn takes(eg: EGraph, root: SortView, name: Seq<char>) -> bool {
    forall|j: int|
        0 <= j < functions_of(eg)[name].inputs.len() ==> {
            let s = #[trigger] functions_of(eg)[name].inputs[j];
            (s.eq && s.name == root.name) || (!s.eq && !s.container && s.name == "String"@)
        }
}

/// The e-graph has a table for the function.
pub open spec fn has_table(eg: EGraph, name: Seq<char>) -> bool {
    if functions_of(eg)[name].constructor {
        constructors_of(eg).dom().contains(name)
    } else {
        entries_of(eg).dom().contains(name)
    }
}

/// Nothing is wrong with the name: it is passed over, or its rows can be taken.
pub open spec fn is_fine(eg: EGraph, root: SortView, name: Seq<char>) -> bool {
    is_constructor(eg, name) ==> outputs(eg, root, name) && takes(eg, root, name) && has_table(
        eg,
        name,
    )
}

/// What is wrong with the name is what the fault says.
pub open spec fn is_at_fault(eg: EGraph, root: SortView, name: Seq<char>, f: BuildFault) -> bool {
    is_constructor(eg, name) && match f {
        BuildFault::WrongOutput { name: n, output, expected } => n == name && output
            == functions_of(eg)[name].output && expected == root.name && output != expected,
        BuildFault::Unsupported => outputs(eg, root, name) && !takes(eg, root, name),
        BuildFault::Unreadable { name: n } => n == name && outputs(eg, root, name) && takes(
            eg,
            root,
            name,
        ) && !has_table(eg, name),
        _ => false,
    }
}

proof fn lemma_scan_faults(
    eg: EGraph,
    sort: Seq<char>,
    root: SortView,
    heads: Seq<(Seq<char>, Cost)>,
    n: nat,
)
    requires
        n <= heads.len(),
    ensures
        match scanned(eg, sort, root, heads, n) {
            Ok(_) => forall|p: int| 0 <= p < n ==> is_fine(eg, root, (#[trigger] heads[p]).0),
            Err(f) => exists|p: int|
                0 <= p < n && is_at_fault(eg, root, (#[trigger] heads[p]).0, f) && forall|q: int|
                    0 <= q < p ==> is_fine(eg, root, (#[trigger] heads[q]).0),
        },
    decreases n,
{
    if n > 0 {
        lemma_scan_faults(eg, sort, root, heads, (n - 1) as nat);
        let name = heads[n - 1].0;
        match scanned(eg, sort, root, heads, (n - 1) as nat) {
            Err(f) => {
                let p = choose|p: int|
                    0 <= p < n - 1 && is_at_fault(eg, root, (#[trigger] heads[p]).0, f) && forall|
                        q: int,
                    |
                        0 <= q < p ==> is_fine(eg, root, (#[trigger] heads[q]).0);
                assert(is_at_fault(eg, root, heads[p].0, f));
            },
            Ok(_) => {
                let fun = functions_of(eg)[name];
                let odd = exists|j: int|
                    0 <= j < fun.inputs.len() && !supported(root, #[trigger] fun.inputs[j]);
                assert(odd == !takes(eg, root, name)) by {
                    if odd {
                        let j = choose|j: int|
                            0 <= j < fun.inputs.len() && !supported(root, #[trigger] fun.inputs[j]);
                        assert(!supported(root, functions_of(eg)[name].inputs[j]));
                    } else {
                        assert forall|j: int| 0 <= j < functions_of(eg)[name].inputs.len() implies {
                            let s = #[trigger] functions_of(eg)[name].inputs[j];
                            (s.eq && s.name == root.name) || (!s.eq && !s.container && s.name
                                == "String"@)
                        } by {
                            assert(supported(root, fun.inputs[j]));
                        }
                    }
                }
                if let Err(f) = scanned(eg, sort, root, heads, n) {
                    assert(is_at_fault(eg, root, heads[n - 1].0, f));
                }
            },
        }
    }
}

/// The vocabulary's names that come before `name` are fine.
pub open spec fn fine_before(
    eg: EGraph,
    root: SortView,
    heads: Seq<(String, Cost)>,
    name: Seq<char>,
) -> bool {
    forall|i: int|
        0 <= i < heads.len() && name_less((#[trigger] heads[i]).0@, name) ==> is_fine(
            eg,
            root,
            heads[i].0@,
        )
}

/// A class graph can be taken if and only if the e-graph has the sort, its values are classes,
/// every constructor of the vocabulary gives values of it, takes classes of it and strings,
/// and has a table, and there are not too many classes. The error says which of these is not
/// so, of the first constructor by name with which something is wrong.
pub proof fn faults_are_told(
    eg: EGraph,
    sort: Seq<char>,
    heads: Seq<(String, Cost)>,
    r: Result<ClassGraph, BuildError>,
)
    requires
        heads.len() <= usize::MAX,
        builds(eg, sort, heads, r),
    ensures
        ({
            let root = sorts_of(eg)[sort];
            let known = sorts_of(eg).dom().contains(sort);
            match r {
                Ok(g) => known && root.eq && g.size() <= u32::MAX && forall|i: int|
                    0 <= i < heads.len() ==> is_fine(eg, root, (#[trigger] heads[i]).0@),
                Err(BuildError::UnknownSort(s)) => s@ == sort && !known,
                Err(BuildError::NotEqSort(s)) => s@ == sort && known && !root.eq,
                Err(BuildError::WrongOutput { name, output, expected }) => {
                    &&& known && root.eq
                    &&& head_names(heads).contains(name@)
                    &&& is_constructor(eg, name@)
                    &&& output@ == functions_of(eg)[name@].output
                    &&& expected@ == root.name
                    &&& output@ != expected@
                    &&& fine_before(eg, root, heads, name@)
                },
                Err(BuildError::Unsupported) => known && root.eq && exists|i: int|
                    0 <= i < heads.len() && is_constructor(eg, (#[trigger] heads[i]).0@)
                        && outputs(eg, root, heads[i].0@) && !takes(eg, root, heads[i].0@)
                        && fine_before(eg, root, heads, heads[i].0@),
                Err(BuildError::Unreadable { name, .. }) => {
                    &&& known && root.eq
                    &&& head_names(heads).contains(name@)
                    &&& is_constructor(eg, name@)
                    &&& outputs(eg, root, name@) && takes(eg, root, name@)
                    &&& !has_table(eg, name@)
                    &&& fine_before(eg, root, heads, name@)
                },
                Err(BuildError::TooManyClasses) => known && root.eq && exists|o: Seq<usize>|
                    #[trigger] orders(head_names(heads), o) && (scanned(
                        eg,
                        sort,
                        root,
                        in_order(heads, o),
                        o.len(),
                    ) matches Ok(s) && touched(s.rows, s.rows.len()).to_set().len()
                        > 0xffff_ffff),
            }
        }),
{
    let names = head_names(heads);
    let root = sorts_of(eg)[sort];
    let order = choose|order: Seq<usize>| #[trigger]
        orders(names, order) && match snapshot(eg, sort, heads, order) {
            Ok(s) => r matches Ok(g) && g.shows_scan(eg, s) && g.wf() && g.condensed(),
            Err(f) => r matches Err(e) && e.reports(f, sort),
        };
    let hs = in_order(heads, order);
    if sorts_of(eg).dom().contains(sort) && root.eq {
        lemma_scan_faults(eg, sort, root, hs, hs.len());
        match scanned(eg, sort, root, hs, hs.len()) {
            Ok(s) => {
                assert forall|i: int| 0 <= i < heads.len() implies is_fine(
                    eg,
                    root,
                    (#[trigger] heads[i]).0@,
                ) by {
                    lemma_order_onto(names, order, i as usize);
                    let p = choose|p: int| 0 <= p < order.len() && order[p] == i as usize;
                    assert(is_fine(eg, root, hs[p].0));
                }
                if r is Err {
                    let t = touched(s.rows, s.rows.len());
                    lemma_distinct_values(t);
                    assert(t.to_set().len() > 0xffff_ffff);
                }
            },
            Err(f) => {
                let p = choose|p: int|
                    0 <= p < hs.len() && is_at_fault(eg, root, (#[trigger] hs[p]).0, f) && forall|
                        q: int,
                    |
                        0 <= q < p ==> is_fine(eg, root, (#[trigger] hs[q]).0);
                let name = hs[p].0;
                assert(is_at_fault(eg, root, name, f));
                assert(order[p] < names.len());
                assert(heads[order[p] as int].0@ == name);
                assert(names[order[p] as int] == name);
                assert forall|i: int|
                    0 <= i < heads.len() && name_less((#[trigger] heads[i]).0@, name)
                    implies is_fine(eg, root, heads[i].0@) by {
                    lemma_order_onto(names, order, i as usize);
                    let q = choose|q: int| 0 <= q < order.len() && order[q] == i as usize;
                    if q > p {
                        assert(before(names, order[p], order[q]));
                        lemma_bytes_strict(
                            vstd::utf8::encode_utf8(names[order[p] as int]),
                            vstd::utf8::encode_utf8(names[order[q] as int]),
                        );
                    }
                    if q == p {
                        lemma_bytes_strict(
                            vstd::utf8::encode_utf8(name),
                            vstd::utf8::encode_utf8(name),
                        );
                    }
                    assert(q < p);
                    assert(is_fine(eg, root, hs[q].0));
                }
                assert(fine_before(eg, root, heads, name));
            },
        }
    }
}

proof fn lemma_distinct_values(s: Seq<u32>)
    ensures
        s.to_set().len() == first_touch(s).len(),
{
    let t = first_touch(s);
    lemma_first_touch_once(s);
    t.unique_seq_to_set();
    assert forall|x: u32| #[trigger] s.to_set().contains(x) == t.to_set().contains(x) by {
        lemma_touch_holds(s, x);
    }
    assert(s.to_set() =~= t.to_set());
}

} // verus!
