//! Leaf-union candidates of an e-node: the product of its children's cut lists.
use vstd::prelude::*;

use crate::cut::Cut;
use crate::leaves::{
    copy_list, increasing, merge_is_increasing, merge_is_no_shorter, merge_is_union, merge_leaves,
    merged, subset,
};

verus! {

/// The leaf lists of a cut list.
pub open spec fn leaf_lists(s: Seq<Cut>) -> Seq<Seq<u32>> {
    Seq::new(s.len(), |i: int| s[i].leaves@)
}

/// The leaf lists of all children.
pub open spec fn child_lists(lists: Seq<&Vec<Cut>>) -> Seq<Seq<Seq<u32>>> {
    Seq::new(lists.len(), |d: int| leaf_lists(lists[d]@))
}

/// Candidates below the partial union `acc`, which took the cuts `chosen` of the first
/// `depth` children, in lexicographic order of the cuts taken.
pub open spec fn unions(
    lists: Seq<Seq<Seq<u32>>>,
    k: nat,
    depth: nat,
    acc: Seq<u32>,
    chosen: Seq<u32>,
) -> Seq<(Seq<u32>, Seq<u32>)>
    decreases lists.len() - depth, lists[depth as int].len() + 1,
{
    if depth >= lists.len() {
        seq![(acc, chosen)]
    } else {
        unions_upto(lists, k, depth, acc, chosen, lists[depth as int].len())
    }
}

/// As `unions`, with only the first `n` cuts of child `depth` taken.
pub open spec fn unions_upto(
    lists: Seq<Seq<Seq<u32>>>,
    k: nat,
    depth: nat,
    acc: Seq<u32>,
    chosen: Seq<u32>,
    n: nat,
) -> Seq<(Seq<u32>, Seq<u32>)>
    decreases lists.len() - depth, n,
{
    if depth >= lists.len() || n == 0 {
        Seq::empty()
    } else {
        let sum = merged(acc, lists[depth as int][n - 1]);
        unions_upto(lists, k, depth, acc, chosen, (n - 1) as nat) + if sum.len() > k {
            Seq::empty()
        } else {
            unions(lists, k, depth + 1, sum, chosen.push((n - 1) as u32))
        }
    }
}

/// All leaf-union candidates of at most `k` leaves.
pub open spec fn products(lists: Seq<Seq<Seq<u32>>>, k: nat) -> Seq<(Seq<u32>, Seq<u32>)> {
    unions(lists, k, 0, Seq::empty(), Seq::empty())
}

/// Union of the leaves of the cuts `chosen`, child by child.
pub open spec fn union_of(lists: Seq<Seq<Seq<u32>>>, chosen: Seq<u32>) -> Seq<u32>
    decreases chosen.len(),
{
    if chosen.len() == 0 {
        Seq::empty()
    } else {
        merged(
            union_of(lists, chosen.drop_last()),
            lists[chosen.len() - 1][chosen.last() as int],
        )
    }
}

/// `chosen` takes one cut of each child.
pub open spec fn selects(lists: Seq<Seq<Seq<u32>>>, chosen: Seq<u32>) -> bool {
    &&& chosen.len() == lists.len()
    &&& forall|d: int| 0 <= d < chosen.len() ==> (#[trigger] chosen[d]) < lists[d].len()
}

/// Every cut list can be indexed by 32 bits.
pub open spec fn narrow(lists: Seq<Seq<Seq<u32>>>) -> bool {
    forall|d: int| 0 <= d < lists.len() ==> (#[trigger] lists[d]).len() <= u32::MAX
}

/// `t` extends `s`.
pub open spec fn extends(t: Seq<u32>, s: Seq<u32>) -> bool {
    s.len() <= t.len() && t.take(s.len() as int) == s
}

proof fn lemma_unions_sound(
    lists: Seq<Seq<Seq<u32>>>,
    k: nat,
    depth: nat,
    acc: Seq<u32>,
    chosen: Seq<u32>,
    i: int,
)
    requires
        narrow(lists),
        depth == chosen.len() <= lists.len(),
        acc == union_of(lists, chosen),
        acc.len() <= k,
        forall|d: int| 0 <= d < chosen.len() ==> (#[trigger] chosen[d]) < lists[d].len(),
        0 <= i < unions(lists, k, depth, acc, chosen).len(),
    ensures
        ({
            let r = unions(lists, k, depth, acc, chosen)[i];
            &&& selects(lists, r.1)
            &&& r.0 == union_of(lists, r.1)
            &&& r.0.len() <= k
            &&& extends(r.1, chosen)
        }),
    decreases lists.len() - depth, lists[depth as int].len() + 1,
{
    if depth >= lists.len() {
        assert(chosen.take(chosen.len() as int) =~= chosen);
    } else {
        lemma_unions_upto_sound(lists, k, depth, acc, chosen, lists[depth as int].len(), i);
    }
}

proof fn lemma_unions_upto_sound(
    lists: Seq<Seq<Seq<u32>>>,
    k: nat,
    depth: nat,
    acc: Seq<u32>,
    chosen: Seq<u32>,
    n: nat,
    i: int,
)
    requires
        narrow(lists),
        depth == chosen.len() < lists.len(),
        acc == union_of(lists, chosen),
        acc.len() <= k,
        forall|d: int| 0 <= d < chosen.len() ==> (#[trigger] chosen[d]) < lists[d].len(),
        n <= lists[depth as int].len(),
        0 <= i < unions_upto(lists, k, depth, acc, chosen, n).len(),
    ensures
        ({
            let r = unions_upto(lists, k, depth, acc, chosen, n)[i];
            &&& selects(lists, r.1)
            &&& r.0 == union_of(lists, r.1)
            &&& r.0.len() <= k
            &&& extends(r.1, chosen)
            &&& r.1[depth as int] < n
        }),
    decreases lists.len() - depth, n,
{
    if n > 0 {
        let head = unions_upto(lists, k, depth, acc, chosen, (n - 1) as nat);
        let sum = merged(acc, lists[depth as int][n - 1]);
        if i < head.len() {
            lemma_unions_upto_sound(lists, k, depth, acc, chosen, (n - 1) as nat, i);
        } else {
            let c2 = chosen.push((n - 1) as u32);
            assert(c2.drop_last() =~= chosen);
            assert(lists[depth as int].len() <= u32::MAX);
            assert(union_of(lists, c2) == sum);
            lemma_unions_sound(lists, k, depth + 1, sum, c2, i - head.len());
            let r = unions_upto(lists, k, depth, acc, chosen, n)[i];
            assert(r.1.take(c2.len() as int)[depth as int] == c2[depth as int]);
            assert(r.1.take(chosen.len() as int) =~= r.1.take(c2.len() as int).take(
                chosen.len() as int,
            ));
            assert(c2.take(chosen.len() as int) =~= chosen);
        }
    }
}

/// Every candidate takes one cut of each child, its leaves are the union of theirs, and
/// there are at most `k` of them.
pub proof fn products_are_unions(lists: Seq<Seq<Seq<u32>>>, k: nat, i: int)
    requires
        narrow(lists),
        0 <= i < products(lists, k).len(),
    ensures
        selects(lists, products(lists, k)[i].1),
        products(lists, k)[i].0 == union_of(lists, products(lists, k)[i].1),
        products(lists, k)[i].0.len() <= k,
{
    lemma_unions_sound(lists, k, 0, Seq::empty(), Seq::empty(), i);
}

proof fn lemma_union_grows(lists: Seq<Seq<Seq<u32>>>, t: Seq<u32>, n: int)
    requires
        0 <= n <= t.len(),
    ensures
        union_of(lists, t.take(n)).len() <= union_of(lists, t).len(),
    decreases t.len() - n,
{
    if n < t.len() {
        lemma_union_grows(lists, t, n + 1);
        let s = t.take(n + 1);
        assert(s.drop_last() =~= t.take(n));
        merge_is_no_shorter(union_of(lists, s.drop_last()), lists[s.len() - 1][s.last() as int]);
    } else {
        assert(t.take(n) =~= t);
    }
}

proof fn lemma_unions_complete(
    lists: Seq<Seq<Seq<u32>>>,
    k: nat,
    depth: nat,
    t: Seq<u32>,
) -> (i: int)
    requires
        narrow(lists),
        selects(lists, t),
        depth <= lists.len(),
        union_of(lists, t).len() <= k,
    ensures
        ({
            let u = unions(
                lists,
                k,
                depth,
                union_of(lists, t.take(depth as int)),
                t.take(depth as int),
            );
            0 <= i < u.len() && u[i] == (union_of(lists, t), t)
        }),
    decreases lists.len() - depth, lists[depth as int].len() + 1,
{
    let chosen = t.take(depth as int);
    let acc = union_of(lists, chosen);
    if depth >= lists.len() {
        assert(chosen =~= t);
        0
    } else {
        lemma_unions_upto_complete(lists, k, depth, t, lists[depth as int].len())
    }
}

proof fn lemma_unions_upto_complete(
    lists: Seq<Seq<Seq<u32>>>,
    k: nat,
    depth: nat,
    t: Seq<u32>,
    n: nat,
) -> (i: int)
    requires
        narrow(lists),
        selects(lists, t),
        depth < lists.len(),
        t[depth as int] < n <= lists[depth as int].len(),
        union_of(lists, t).len() <= k,
    ensures
        ({
            let u = unions_upto(
                lists,
                k,
                depth,
                union_of(lists, t.take(depth as int)),
                t.take(depth as int),
                n,
            );
            0 <= i < u.len() && u[i] == (union_of(lists, t), t)
        }),
    decreases lists.len() - depth, n,
{
    let chosen = t.take(depth as int);
    let acc = union_of(lists, chosen);
    let head = unions_upto(lists, k, depth, acc, chosen, (n - 1) as nat);
    if t[depth as int] == n - 1 {
        let c2 = t.take((depth + 1) as int);
        assert(c2 =~= chosen.push((n - 1) as u32));
        assert(c2.drop_last() =~= chosen);
        lemma_union_grows(lists, t, (depth + 1) as int);
        let j = lemma_unions_complete(lists, k, depth + 1, t);
        head.len() + j
    } else {
        lemma_unions_upto_complete(lists, k, depth, t, (n - 1) as nat)
    }
}

/// Every way to take one cut of each child whose union has at most `k` leaves is a
/// candidate.
pub proof fn products_are_complete(lists: Seq<Seq<Seq<u32>>>, k: nat, chosen: Seq<u32>)
    requires
        narrow(lists),
        selects(lists, chosen),
        union_of(lists, chosen).len() <= k,
    ensures
        products(lists, k).contains((union_of(lists, chosen), chosen)),
{
    assert(chosen.take(0) =~= Seq::<u32>::empty());
    let i = lemma_unions_complete(lists, k, 0, chosen);
    assert(products(lists, k)[i] == (union_of(lists, chosen), chosen));
}

/// At the first place where they differ, `s` has the smaller number.
pub open spec fn lex_before(s: Seq<u32>, t: Seq<u32>) -> bool {
    exists|d: int|
        0 <= d < s.len() && d < t.len() && (#[trigger] s[d]) < t[d] && forall|x: int|
            0 <= x < d ==> s[x] == t[x]
}

proof fn lemma_unions_ordered(
    lists: Seq<Seq<Seq<u32>>>,
    k: nat,
    depth: nat,
    acc: Seq<u32>,
    chosen: Seq<u32>,
    i: int,
    j: int,
)
    requires
        narrow(lists),
        depth == chosen.len() <= lists.len(),
        acc == union_of(lists, chosen),
        acc.len() <= k,
        forall|d: int| 0 <= d < chosen.len() ==> (#[trigger] chosen[d]) < lists[d].len(),
        0 <= i < j < unions(lists, k, depth, acc, chosen).len(),
    ensures
        ({
            let u = unions(lists, k, depth, acc, chosen);
            lex_before(u[i].1, u[j].1)
        }),
    decreases lists.len() - depth, lists[depth as int].len() + 1,
{
    if depth < lists.len() {
        lemma_unions_upto_ordered(lists, k, depth, acc, chosen, lists[depth as int].len(), i, j);
    }
}

proof fn lemma_unions_upto_ordered(
    lists: Seq<Seq<Seq<u32>>>,
    k: nat,
    depth: nat,
    acc: Seq<u32>,
    chosen: Seq<u32>,
    n: nat,
    i: int,
    j: int,
)
    requires
        narrow(lists),
        depth == chosen.len() < lists.len(),
        acc == union_of(lists, chosen),
        acc.len() <= k,
        forall|d: int| 0 <= d < chosen.len() ==> (#[trigger] chosen[d]) < lists[d].len(),
        n <= lists[depth as int].len(),
        0 <= i < j < unions_upto(lists, k, depth, acc, chosen, n).len(),
    ensures
        ({
            let u = unions_upto(lists, k, depth, acc, chosen, n);
            lex_before(u[i].1, u[j].1)
        }),
    decreases lists.len() - depth, n,
{
    if n > 0 {
        let u = unions_upto(lists, k, depth, acc, chosen, n);
        let first = unions_upto(lists, k, depth, acc, chosen, (n - 1) as nat);
        let x = lists[depth as int][n - 1];
        let sum = merged(acc, x);
        let next = chosen.push((n - 1) as u32);
        assert(lists[depth as int].len() <= u32::MAX);
        assert(next.drop_last() =~= chosen);
        if j < first.len() {
            lemma_unions_upto_ordered(lists, k, depth, acc, chosen, (n - 1) as nat, i, j);
            assert(u[i] == first[i] && u[j] == first[j]);
        } else {
            let more = unions(lists, k, depth + 1, sum, next);
            assert(u[j] == more[j - first.len()]);
            lemma_unions_sound(lists, k, depth + 1, sum, next, j - first.len());
            let b = u[j].1;
            assert(b.take(next.len() as int) == next);
            assert(b[depth as int] == next[depth as int]);
            if i < first.len() {
                assert(u[i] == first[i]);
                lemma_unions_upto_sound(lists, k, depth, acc, chosen, (n - 1) as nat, i);
                let a = u[i].1;
                assert(a[depth as int] < b[depth as int]);
                assert forall|y: int| 0 <= y < depth implies a[y] == b[y] by {
                    assert(a.take(chosen.len() as int)[y] == chosen[y]);
                    assert(b.take(next.len() as int)[y] == next[y]);
                }
            } else {
                assert(u[i] == more[i - first.len()]);
                lemma_unions_ordered(
                    lists,
                    k,
                    depth + 1,
                    sum,
                    next,
                    i - first.len(),
                    j - first.len(),
                );
            }
        }
    }
}

/// The candidates come in the lexicographic order of the cuts taken, each once.
pub proof fn products_come_in_order(lists: Seq<Seq<Seq<u32>>>, k: nat, i: int, j: int)
    requires
        narrow(lists),
        0 <= i < j < products(lists, k).len(),
    ensures
        lex_before(products(lists, k)[i].1, products(lists, k)[j].1),
{
    lemma_unions_ordered(lists, k, 0, Seq::empty(), Seq::empty(), i, j);
}

/// The union of increasing lists is increasing and holds each of them.
pub proof fn union_is_leaf_set(lists: Seq<Seq<Seq<u32>>>, chosen: Seq<u32>)
    requires
        chosen.len() <= lists.len(),
        forall|d: int| 0 <= d < chosen.len() ==> (#[trigger] chosen[d]) < lists[d].len(),
        forall|d: int, i: int|
            0 <= d < lists.len() && 0 <= i < lists[d].len() ==> increasing(#[trigger] lists[d][i]),
    ensures
        increasing(union_of(lists, chosen)),
        forall|d: int|
            0 <= d < chosen.len() ==> subset(
                lists[d][#[trigger] chosen[d] as int],
                union_of(lists, chosen),
            ),
        forall|x: u32| #[trigger]
            union_of(lists, chosen).contains(x) ==> exists|d: int|
                0 <= d < chosen.len() && lists[d][#[trigger] chosen[d] as int].contains(x),
    decreases chosen.len(),
{
    if chosen.len() > 0 {
        let rest = chosen.drop_last();
        union_is_leaf_set(lists, rest);
        let last = lists[chosen.len() - 1][chosen.last() as int];
        let u = union_of(lists, rest);
        merge_is_increasing(u, last);
        assert forall|d: int| 0 <= d < chosen.len() implies subset(
            lists[d][#[trigger] chosen[d] as int],
            union_of(lists, chosen),
        ) by {
            let s = lists[d][chosen[d] as int];
            assert forall|i: int| 0 <= i < s.len() implies union_of(lists, chosen).contains(
                #[trigger] s[i],
            ) by {
                merge_is_union(u, last, s[i]);
                if d < rest.len() {
                    assert(rest[d] == chosen[d]);
                    assert(subset(lists[d][rest[d] as int], u));
                } else {
                    assert(last.contains(s[i]));
                }
            }
        }
        assert forall|x: u32| #[trigger] union_of(lists, chosen).contains(x) implies exists|d: int|
            0 <= d < chosen.len() && lists[d][#[trigger] chosen[d] as int].contains(x) by {
            merge_is_union(u, last, x);
            if last.contains(x) {
                assert(lists[chosen.len() - 1][chosen[chosen.len() - 1] as int].contains(x));
            } else {
                let d = choose|d: int|
                    0 <= d < rest.len() && lists[d][#[trigger] rest[d] as int].contains(x);
                assert(lists[d][chosen[d] as int].contains(x));
            }
        }
    }
}

/// The values of a list of candidates.
pub open spec fn pairs(s: Seq<(Vec<u32>, Vec<u32>)>) -> Seq<(Seq<u32>, Seq<u32>)> {
    Seq::new(s.len(), |i: int| (s[i].0@, s[i].1@))
}

/// The smaller of two numbers.
pub open spec fn least(a: nat, b: nat) -> nat {
    if a <= b {
        a
    } else {
        b
    }
}

/// Candidates below a partial union, as far as the budget goes.
fn dfs(
    depth: usize,
    lists: &Vec<&Vec<Cut>>,
    k: usize,
    budget: &mut usize,
    acc: &Vec<u32>,
    chosen: &mut Vec<u32>,
    out: &mut Vec<(Vec<u32>, Vec<u32>)>,
)
    requires
        depth <= lists@.len(),
        narrow(child_lists(lists@)),
    ensures
        final(chosen)@ == old(chosen)@,
        ({
            let u = unions(child_lists(lists@), k as nat, depth as nat, acc@, old(chosen)@);
            let n = least(*old(budget) as nat, u.len());
            &&& *final(budget) == *old(budget) - n
            &&& pairs(final(out)@) == pairs(old(out)@) + u.take(n as int)
        }),
    decreases lists@.len() - depth,
{
    let ghost ls = child_lists(lists@);
    let ghost all = unions(ls, k as nat, depth as nat, acc@, chosen@);
    let ghost out0 = out@;
    let ghost b0 = *budget;
    if *budget == 0 {
        assert(pairs(out@) =~= pairs(out0) + all.take(0));
        return;
    }
    if depth == lists.len() {
        *budget = *budget - 1;
        out.push((copy_list(acc), copy_list(chosen)));
        assert(pairs(out@) =~= pairs(out0) + all.take(1));
        return;
    }
    let list: &Vec<Cut> = lists[depth];
    let ghost chosen0 = chosen@;
    let mut ci: usize = 0;
    assert(ls[depth as int] == leaf_lists(list@));
    assert(ls[depth as int].len() <= u32::MAX);
    assert(pairs(out@) =~= pairs(out0) + unions_upto(ls, k as nat, depth as nat, acc@, chosen0, 0).take(
        0,
    ));
    while ci < list.len()
        invariant
            ci <= list@.len() <= u32::MAX,
            depth < lists.len(),
            narrow(ls),
            ls == child_lists(lists@),
            ls[depth as int] == leaf_lists(list@),
            chosen@ == chosen0,
            ({
                let u = unions_upto(ls, k as nat, depth as nat, acc@, chosen0, ci as nat);
                let n = least(b0 as nat, u.len());
                &&& *budget == b0 - n
                &&& pairs(out@) == pairs(out0) + u.take(n as int)
            }),
        ensures
            chosen@ == chosen0,
            ({
                let u = unions_upto(ls, k as nat, depth as nat, acc@, chosen0, list@.len());
                let n = least(b0 as nat, u.len());
                &&& *budget == b0 - n
                &&& pairs(out@) == pairs(out0) + u.take(n as int)
            }),
        decreases list@.len() - ci,
    {
        let ghost u0 = unions_upto(ls, k as nat, depth as nat, acc@, chosen0, ci as nat);
        if *budget == 0 {
            proof {
                lemma_upto_prefix(
                    ls,
                    k as nat,
                    depth as nat,
                    acc@,
                    chosen0,
                    ci as nat,
                    list@.len(),
                );
                let u = unions_upto(ls, k as nat, depth as nat, acc@, chosen0, list@.len());
                assert(u.take(b0 as int) =~= u0.take(b0 as int));
            }
            break;
        }
        let ghost b1 = *budget;
        let ghost out1 = out@;
        let sum: Vec<u32> = merge_leaves(acc, &list[ci].leaves);
        assert(sum@ == merged(acc@, ls[depth as int][ci as int]));
        let ghost u1 = unions_upto(ls, k as nat, depth as nat, acc@, chosen0, (ci + 1) as nat);
        if sum.len() <= k {
            chosen.push(ci as u32);
            let ghost branch = unions(ls, k as nat, (depth + 1) as nat, sum@, chosen@);
            assert(u1 == u0 + branch);
            dfs(depth + 1, lists, k, budget, &sum, chosen, out);
            let dropped: Option<u32> = chosen.pop();
            assert(chosen@ =~= chosen0);
            assert(u0.take(u0.len() as int) =~= u0);
            proof {
                let n = least(b1 as nat, branch.len());
                assert(pairs(out@) =~= pairs(out0) + u1.take((u0.len() + n) as int));
            }
        } else {
            assert(u1 =~= u0);
        }
        ci = ci + 1;
    }
    assert(all == unions_upto(ls, k as nat, depth as nat, acc@, chosen0, list@.len()));
}

proof fn lemma_upto_prefix(
    lists: Seq<Seq<Seq<u32>>>,
    k: nat,
    depth: nat,
    acc: Seq<u32>,
    chosen: Seq<u32>,
    n: nat,
    m: nat,
)
    requires
        n <= m,
        depth < lists.len(),
    ensures
        ({
            let a = unions_upto(lists, k, depth, acc, chosen, n);
            let b = unions_upto(lists, k, depth, acc, chosen, m);
            a.len() <= b.len() && b.take(a.len() as int) == a
        }),
    decreases m,
{
    let a = unions_upto(lists, k, depth, acc, chosen, n);
    let b = unions_upto(lists, k, depth, acc, chosen, m);
    if n == m {
        assert(b.take(a.len() as int) =~= a);
    } else {
        lemma_upto_prefix(lists, k, depth, acc, chosen, n, (m - 1) as nat);
        let c = unions_upto(lists, k, depth, acc, chosen, (m - 1) as nat);
        assert(b.take(a.len() as int) =~= c.take(a.len() as int));
    }
}

/// The first candidates of an e-node, at most `budget` of them, as pairs of the merged
/// leaves and the cut taken of each child.
pub fn merge_product(lists: &Vec<&Vec<Cut>>, k: usize, budget: &mut usize) -> (out: Vec<
    (Vec<u32>, Vec<u32>),
>)
    requires
        narrow(child_lists(lists@)),
    ensures
        ({
            let u = products(child_lists(lists@), k as nat);
            let n = least(*old(budget) as nat, u.len());
            &&& *final(budget) == *old(budget) - n
            &&& pairs(out@) == u.take(n as int)
        }),
{
    let acc: Vec<u32> = Vec::new();
    let mut chosen: Vec<u32> = Vec::new();
    let mut out: Vec<(Vec<u32>, Vec<u32>)> = Vec::new();
    assert(acc@ =~= Seq::<u32>::empty());
    assert(chosen@ =~= Seq::<u32>::empty());
    dfs(0, lists, k, budget, &acc, &mut chosen, &mut out);
    assert(pairs(Seq::<(Vec<u32>, Vec<u32>)>::empty()) =~= Seq::empty());
    proof {
        let u = products(child_lists(lists@), k as nat);
        assert(pairs(out@) =~= u.take(least(*old(budget) as nat, u.len()) as int));
    }
    out
}

} // verus!
