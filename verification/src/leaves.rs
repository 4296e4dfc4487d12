//! Leaf sets as strictly increasing lists of class indices.
use vstd::prelude::*;

verus! {

/// Strictly increasing.
pub open spec fn increasing(s: Seq<u32>) -> bool {
    forall|i: int, j: int| 0 <= i < j < s.len() ==> s[i] < s[j]
}

/// Every element of `a` occurs in `b`.
pub open spec fn subset(a: Seq<u32>, b: Seq<u32>) -> bool {
    forall|i: int| 0 <= i < a.len() ==> b.contains(#[trigger] a[i])
}

/// Ordered merge of two lists; an element at the head of both is taken once.
pub open spec fn merged(a: Seq<u32>, b: Seq<u32>) -> Seq<u32>
    decreases a.len() + b.len(),
{
    if a.len() == 0 {
        b
    } else if b.len() == 0 {
        a
    } else if a[0] < b[0] {
        seq![a[0]] + merged(a.drop_first(), b)
    } else if a[0] > b[0] {
        seq![b[0]] + merged(a, b.drop_first())
    } else {
        seq![a[0]] + merged(a.drop_first(), b.drop_first())
    }
}

proof fn lemma_drop_first_contains(s: Seq<u32>, x: u32)
    requires
        s.len() > 0,
    ensures
        s.contains(x) <==> (x == s[0] || s.drop_first().contains(x)),
{
    let t = s.drop_first();
    if s.contains(x) && x != s[0] {
        let i = choose|i: int| 0 <= i < s.len() && s[i] == x;
        assert(t[i - 1] == x);
    }
    if t.contains(x) {
        let i = choose|i: int| 0 <= i < t.len() && t[i] == x;
        assert(s[i + 1] == x);
    }
    assert(s[0] == s[0]);
}

proof fn lemma_cons_contains(h: u32, t: Seq<u32>, x: u32)
    ensures
        (seq![h] + t).contains(x) <==> (x == h || t.contains(x)),
{
    let s = seq![h] + t;
    assert(s.drop_first() =~= t);
    lemma_drop_first_contains(s, x);
}

/// The merge holds the elements of both lists, and no others.
pub proof fn merge_is_union(a: Seq<u32>, b: Seq<u32>, x: u32)
    ensures
        merged(a, b).contains(x) <==> (a.contains(x) || b.contains(x)),
    decreases a.len() + b.len(),
{
    if a.len() == 0 {
    } else if b.len() == 0 {
    } else {
        lemma_drop_first_contains(a, x);
        lemma_drop_first_contains(b, x);
        if a[0] < b[0] {
            merge_is_union(a.drop_first(), b, x);
            lemma_cons_contains(a[0], merged(a.drop_first(), b), x);
        } else if a[0] > b[0] {
            merge_is_union(a, b.drop_first(), x);
            lemma_cons_contains(b[0], merged(a, b.drop_first()), x);
        } else {
            merge_is_union(a.drop_first(), b.drop_first(), x);
            lemma_cons_contains(a[0], merged(a.drop_first(), b.drop_first()), x);
        }
    }
}

proof fn lemma_cons_increasing(h: u32, t: Seq<u32>)
    requires
        increasing(t),
        forall|x: u32| #[trigger] t.contains(x) ==> h < x,
    ensures
        increasing(seq![h] + t),
{
    let s = seq![h] + t;
    assert forall|i: int, j: int| 0 <= i < j < s.len() implies s[i] < s[j] by {
        assert(s[j] == t[j - 1]);
        assert(t.contains(t[j - 1]));
        if i > 0 {
            assert(s[i] == t[i - 1]);
        }
    }
}

proof fn lemma_head_below(s: Seq<u32>, x: u32)
    requires
        increasing(s),
        s.len() > 0,
        s.contains(x),
    ensures
        s[0] <= x,
{
    let i = choose|i: int| 0 <= i < s.len() && s[i] == x;
    if i > 0 {
        assert(s[0] < s[i]);
    }
}

/// The merge of increasing lists is increasing.
pub proof fn merge_is_increasing(a: Seq<u32>, b: Seq<u32>)
    requires
        increasing(a),
        increasing(b),
    ensures
        increasing(merged(a, b)),
    decreases a.len() + b.len(),
{
    if a.len() > 0 && b.len() > 0 {
        let (ta, tb) = if a[0] < b[0] {
            (a.drop_first(), b)
        } else if a[0] > b[0] {
            (a, b.drop_first())
        } else {
            (a.drop_first(), b.drop_first())
        };
        let h = if a[0] <= b[0] {
            a[0]
        } else {
            b[0]
        };
        let t = merged(ta, tb);
        assert(increasing(a.drop_first())) by {
            assert forall|i: int, j: int| 0 <= i < j < a.drop_first().len() implies a.drop_first()[i]
                < a.drop_first()[j] by {
                assert(a[i + 1] < a[j + 1]);
            }
        }
        assert(increasing(b.drop_first())) by {
            assert forall|i: int, j: int| 0 <= i < j < b.drop_first().len() implies b.drop_first()[i]
                < b.drop_first()[j] by {
                assert(b[i + 1] < b[j + 1]);
            }
        }
        merge_is_increasing(ta, tb);
        assert forall|x: u32| #[trigger] t.contains(x) implies h < x by {
            merge_is_union(ta, tb, x);
            if a.drop_first().contains(x) {
                let i = choose|i: int| 0 <= i < a.drop_first().len() && a.drop_first()[i] == x;
                assert(a[0] < a[i + 1]);
            }
            if b.drop_first().contains(x) {
                let i = choose|i: int| 0 <= i < b.drop_first().len() && b.drop_first()[i] == x;
                assert(b[0] < b[i + 1]);
            }
            if a.contains(x) {
                lemma_head_below(a, x);
            }
            if b.contains(x) {
                lemma_head_below(b, x);
            }
        }
        lemma_cons_increasing(h, t);
    }
}

/// A merge is at least as long as either list.
pub proof fn merge_is_no_shorter(a: Seq<u32>, b: Seq<u32>)
    ensures
        merged(a, b).len() >= a.len(),
        merged(a, b).len() >= b.len(),
    decreases a.len() + b.len(),
{
    if a.len() > 0 && b.len() > 0 {
        if a[0] < b[0] {
            merge_is_no_shorter(a.drop_first(), b);
        } else if a[0] > b[0] {
            merge_is_no_shorter(a, b.drop_first());
        } else {
            merge_is_no_shorter(a.drop_first(), b.drop_first());
        }
    }
}

/// Increasing lists with the same elements are equal.
pub proof fn increasing_is_canonical(a: Seq<u32>, b: Seq<u32>)
    requires
        increasing(a),
        increasing(b),
        subset(a, b),
        subset(b, a),
    ensures
        a == b,
    decreases a.len(),
{
    if a.len() == 0 {
        if b.len() > 0 {
            assert(a.contains(b[0]));
        }
        assert(a =~= b);
    } else {
        assert(b.contains(a[0]));
        assert(a.contains(b[0]));
        lemma_head_below(a, b[0]);
        lemma_head_below(b, a[0]);
        let (ta, tb) = (a.drop_first(), b.drop_first());
        assert forall|i: int, j: int| 0 <= i < j < ta.len() implies ta[i] < ta[j] by {
            assert(a[i + 1] < a[j + 1]);
        }
        assert forall|i: int, j: int| 0 <= i < j < tb.len() implies tb[i] < tb[j] by {
            assert(b[i + 1] < b[j + 1]);
        }
        assert forall|i: int| 0 <= i < ta.len() implies tb.contains(#[trigger] ta[i]) by {
            assert(b.contains(a[i + 1]));
            assert(a[0] < a[i + 1]);
            lemma_drop_first_contains(b, a[i + 1]);
        }
        assert forall|i: int| 0 <= i < tb.len() implies ta.contains(#[trigger] tb[i]) by {
            assert(a.contains(b[i + 1]));
            assert(b[0] < b[i + 1]);
            lemma_drop_first_contains(a, b[i + 1]);
        }
        increasing_is_canonical(ta, tb);
        assert(a =~= seq![a[0]] + ta);
        assert(b =~= seq![b[0]] + tb);
    }
}

/// Ordered merge of two lists.
pub fn merge_leaves(a: &Vec<u32>, b: &Vec<u32>) -> (out: Vec<u32>)
    ensures
        out@ == merged(a@, b@),
{
    let mut out: Vec<u32> = Vec::new();
    let mut i: usize = 0;
    let mut j: usize = 0;
    assert(a@.skip(0) =~= a@);
    assert(b@.skip(0) =~= b@);
    assert(out@ + merged(a@, b@) =~= merged(a@, b@));
    while i < a.len() || j < b.len()
        invariant
            i <= a@.len(),
            j <= b@.len(),
            out@ + merged(a@.skip(i as int), b@.skip(j as int)) == merged(a@, b@),
        decreases a@.len() - i + b@.len() - j,
    {
        let ghost sa = a@.skip(i as int);
        let ghost sb = b@.skip(j as int);
        let ghost before = out@;
        proof {
            if i < a@.len() {
                assert(sa.drop_first() =~= a@.skip(i + 1));
            }
            if j < b@.len() {
                assert(sb.drop_first() =~= b@.skip(j + 1));
            }
        }
        if j >= b.len() || (i < a.len() && a[i] < b[j]) {
            out.push(a[i]);
            i = i + 1;
            proof {
                if j >= b@.len() {
                    assert(merged(sa.drop_first(), sb) =~= sa.drop_first());
                    assert(merged(sa, sb) =~= seq![sa[0]] + sa.drop_first());
                }
                assert(merged(sa, sb) == seq![sa[0]] + merged(sa.drop_first(), sb));
                assert(before.push(sa[0]) + merged(sa.drop_first(), sb) =~= before + (seq![sa[0]]
                    + merged(sa.drop_first(), sb)));
            }
        } else if i >= a.len() || a[i] > b[j] {
            out.push(b[j]);
            j = j + 1;
            proof {
                if i >= a@.len() {
                    assert(merged(sa, sb) =~= seq![sb[0]] + sb.drop_first());
                }
                assert(merged(sa, sb) == seq![sb[0]] + merged(sa, sb.drop_first()));
                assert(before.push(sb[0]) + merged(sa, sb.drop_first()) =~= before + (seq![sb[0]]
                    + merged(sa, sb.drop_first())));
            }
        } else {
            out.push(a[i]);
            i = i + 1;
            j = j + 1;
            proof {
                assert(before.push(sa[0]) + merged(sa.drop_first(), sb.drop_first()) =~= before + (
                seq![sa[0]] + merged(sa.drop_first(), sb.drop_first())));
            }
        }
    }
    assert(out@ + merged(a@.skip(i as int), b@.skip(j as int)) =~= out@);
    out
}

/// Position of `x` in `s`.
pub fn position(s: &Vec<u32>, x: u32) -> (r: Option<usize>)
    ensures
        match r {
            Some(p) => p < s@.len() && s@[p as int] == x && forall|q: int|
                0 <= q < p ==> s@[q] != x,
            None => !s@.contains(x),
        },
{
    let mut i: usize = 0;
    while i < s.len()
        invariant
            i <= s@.len(),
            forall|q: int| 0 <= q < i ==> s@[q] != x,
        decreases s@.len() - i,
    {
        if s[i] == x {
            return Some(i);
        }
        i = i + 1;
    }
    None
}

/// Whether every element of `small` occurs in `big`.
pub fn is_subset(small: &Vec<u32>, big: &Vec<u32>) -> (r: bool)
    ensures
        r == subset(small@, big@),
{
    let mut i: usize = 0;
    while i < small.len()
        invariant
            i <= small@.len(),
            forall|q: int| 0 <= q < i ==> big@.contains(#[trigger] small@[q]),
        decreases small@.len() - i,
    {
        if position(big, small[i]).is_none() {
            return false;
        }
        i = i + 1;
    }
    true
}

/// Whether two lists are equal.
pub fn same_leaves(a: &Vec<u32>, b: &Vec<u32>) -> (r: bool)
    ensures
        r == (a@ == b@),
{
    if a.len() != b.len() {
        return false;
    }
    let mut i: usize = 0;
    while i < a.len()
        invariant
            i <= a@.len(),
            a@.len() == b@.len(),
            forall|q: int| 0 <= q < i ==> a@[q] == b@[q],
        decreases a@.len() - i,
    {
        if a[i] != b[i] {
            return false;
        }
        i = i + 1;
    }
    assert(a@ =~= b@);
    true
}

/// A copy of a list.
pub fn copy_list(s: &Vec<u32>) -> (out: Vec<u32>)
    ensures
        out@ == s@,
{
    let mut out: Vec<u32> = Vec::new();
    let mut i: usize = 0;
    while i < s.len()
        invariant
            i <= s@.len(),
            out@ == s@.take(i as int),
        decreases s@.len() - i,
    {
        out.push(s[i]);
        assert(out@ =~= s@.take(i + 1));
        i = i + 1;
    }
    assert(s@.take(i as int) =~= s@);
    out
}

} // verus!
