//! Counting: how many indices have a property, how often each key occurs.
use vstd::prelude::*;

verus! {

/// Number of indices below `n` with the property `p`.
pub open spec fn count(n: nat, p: spec_fn(int) -> bool) -> nat
    decreases n,
{
    if n == 0 {
        0
    } else {
        count((n - 1) as nat, p) + if p(n - 1) {
            1nat
        } else {
            0
        }
    }
}

/// Sum of `f` over the indices below `n`.
pub open spec fn total(n: nat, f: spec_fn(int) -> nat) -> nat
    decreases n,
{
    if n == 0 {
        0
    } else {
        total((n - 1) as nat, f) + f(n - 1)
    }
}

/// At most all indices have the property.
pub(crate) proof fn lemma_count_bound(n: nat, p: spec_fn(int) -> bool)
    ensures
        count(n, p) <= n,
    decreases n,
{
    if n > 0 {
        lemma_count_bound((n - 1) as nat, p);
    }
}

/// Properties that agree are counted alike.
pub(crate) proof fn lemma_count_ext(n: nat, p: spec_fn(int) -> bool, q: spec_fn(int) -> bool)
    requires
        forall|i: int| 0 <= i < n ==> #[trigger] p(i) == q(i),
    ensures
        count(n, p) == count(n, q),
    decreases n,
{
    if n > 0 {
        lemma_count_ext((n - 1) as nat, p, q);
    }
}

/// A property splits the indices with another one in two.
pub(crate) proof fn lemma_count_split(
    n: nat,
    p: spec_fn(int) -> bool,
    a: spec_fn(int) -> bool,
    b: spec_fn(int) -> bool,
)
    requires
        forall|i: int| 0 <= i < n ==> #[trigger] p(i) == (a(i) || b(i)),
        forall|i: int| 0 <= i < n ==> !(#[trigger] a(i) && b(i)),
    ensures
        count(n, p) == count(n, a) + count(n, b),
    decreases n,
{
    if n > 0 {
        lemma_count_split((n - 1) as nat, p, a, b);
    }
}

/// One more index gets the property.
pub(crate) proof fn lemma_count_flip(n: nat, p: spec_fn(int) -> bool, q: spec_fn(int) -> bool, k: int)
    requires
        0 <= k < n,
        !p(k),
        q(k),
        forall|i: int| 0 <= i < n && i != k ==> #[trigger] p(i) == q(i),
    ensures
        count(n, q) == count(n, p) + 1,
    decreases n,
{
    if k == n - 1 {
        lemma_count_ext((n - 1) as nat, p, q);
    } else {
        lemma_count_flip((n - 1) as nat, p, q, k);
    }
}

/// The indices at which `keys` holds `k`.
pub open spec fn holds(keys: Seq<usize>, k: usize) -> spec_fn(int) -> bool {
    |i: int| keys[i] == k
}

/// How often `k` occurs among `keys`.
pub open spec fn occurrences(keys: Seq<usize>, k: usize) -> nat {
    count(keys.len(), holds(keys, k))
}

/// One of the first `n` pairs is for `k`.
pub open spec fn listed(h: Seq<(usize, usize)>, n: nat, k: usize) -> bool {
    exists|i: int| 0 <= i < n && (#[trigger] h[i]).0 == k
}

/// `h` lists each key once, in ascending order, with the number of its occurrences.
pub open spec fn tallies(h: Seq<(usize, usize)>, keys: Seq<usize>) -> bool {
    &&& forall|i: int, j: int|
        0 <= i < h.len() && 0 <= j < h.len() && i < j ==> (#[trigger] h[i]).0 < (#[trigger] h[j]).0
    &&& forall|i: int|
        0 <= i < h.len() ==> 0 < (#[trigger] h[i]).1 == occurrences(keys, h[i].0)
    &&& forall|q: int| 0 <= q < keys.len() ==> listed(h, h.len(), #[trigger] keys[q])
}

/// Sum of the counts of a tally.
pub open spec fn tally_sum(h: Seq<(usize, usize)>) -> nat {
    total(h.len(), |i: int| h[i].1 as nat)
}

proof fn lemma_tally_prefix(a: Seq<(usize, usize)>, b: Seq<(usize, usize)>, keys: Seq<usize>, i: int)
    requires
        tallies(a, keys),
        tallies(b, keys),
        0 <= i < a.len(),
    ensures
        i < b.len(),
        a[i] == b[i],
    decreases i,
{
    lemma_tallied_key(a, b, keys, i);
    let k = choose|k: int| 0 <= k < b.len() && (#[trigger] b[k]).0 == a[i].0;
    if i > 0 {
        lemma_tally_prefix(a, b, keys, i - 1);
        assert(a[i - 1].0 < a[i].0);
        if k < i - 1 {
            assert(b[k].0 < b[i - 1].0);
        }
    }
    if k > i {
        assert(b[i].0 < b[k].0);
        lemma_tallied_key(b, a, keys, i);
        let m = choose|m: int| 0 <= m < a.len() && (#[trigger] a[m]).0 == b[i].0;
        if m > i {
            assert(a[i].0 < a[m].0);
        }
        lemma_tally_prefix(a, b, keys, m);
        assert(b[m].0 < b[i].0);
    }
}

/// A key of one tally is one of the other.
proof fn lemma_tallied_key(a: Seq<(usize, usize)>, b: Seq<(usize, usize)>, keys: Seq<usize>, i: int)
    requires
        tallies(a, keys),
        tallies(b, keys),
        0 <= i < a.len(),
    ensures
        listed(b, b.len(), a[i].0),
{
    assert(0 < a[i].1);
    if forall|q: int| 0 <= q < keys.len() ==> #[trigger] keys[q] != a[i].0 {
        lemma_no_occurrence(keys, a[i].0);
    } else {
        let q = choose|q: int| 0 <= q < keys.len() && #[trigger] keys[q] == a[i].0;
        assert(listed(b, b.len(), keys[q]));
    }
}

/// There is one tally of some keys.
pub proof fn tally_is_unique(a: Seq<(usize, usize)>, b: Seq<(usize, usize)>, keys: Seq<usize>)
    requires
        tallies(a, keys),
        tallies(b, keys),
    ensures
        a == b,
{
    assert forall|i: int| 0 <= i < a.len() implies i < b.len() && #[trigger] a[i] == b[i] by {
        lemma_tally_prefix(a, b, keys, i);
    }
    if a.len() < b.len() {
        lemma_tally_prefix(b, a, keys, a.len() as int);
    }
    if b.len() < a.len() {
        lemma_tally_prefix(a, b, keys, b.len() as int);
    }
    assert(a =~= b);
}

proof fn lemma_push_occurrences(keys: Seq<usize>, x: usize, k: usize)
    ensures
        occurrences(keys.push(x), k) == occurrences(keys, k) + if x == k {
            1nat
        } else {
            0
        },
{
    lemma_count_ext(keys.len(), holds(keys.push(x), k), holds(keys, k));
}

proof fn lemma_no_occurrence(keys: Seq<usize>, k: usize)
    requires
        forall|q: int| 0 <= q < keys.len() ==> #[trigger] keys[q] != k,
    ensures
        occurrences(keys, k) == 0,
{
    lemma_count_none(keys.len(), holds(keys, k));
}

/// A property that no index has counts to zero.
pub(crate) proof fn lemma_count_none(n: nat, p: spec_fn(int) -> bool)
    requires
        forall|i: int| 0 <= i < n ==> !(#[trigger] p(i)),
    ensures
        count(n, p) == 0,
    decreases n,
{
    if n > 0 {
        lemma_count_none((n - 1) as nat, p);
    }
}

/// A property that every index has counts to all of them.
pub(crate) proof fn lemma_count_all(n: nat, p: spec_fn(int) -> bool)
    requires
        forall|i: int| 0 <= i < n ==> #[trigger] p(i),
    ensures
        count(n, p) == n,
    decreases n,
{
    if n > 0 {
        lemma_count_all((n - 1) as nat, p);
    }
}

proof fn lemma_partial_sum(h: Seq<(usize, usize)>, keys: Seq<usize>, n: nat)
    requires
        tallies(h, keys),
        n <= h.len(),
    ensures
        total(n, |i: int| h[i].1 as nat) == count(
            keys.len(),
            |q: int| listed(h, n, keys[q]),
        ),
    decreases n,
{
    let now = |q: int| listed(h, n, keys[q]);
    if n == 0 {
        lemma_count_none(keys.len(), now);
    } else {
        let m = (n - 1) as nat;
        lemma_partial_sum(h, keys, m);
        let before = |q: int| listed(h, m, keys[q]);
        let last = holds(keys, h[n - 1].0);
        assert forall|q: int| 0 <= q < keys.len() implies #[trigger] now(q) == (before(q) || last(
            q,
        )) by {
            if now(q) {
                let i = choose|i: int| 0 <= i < n && (#[trigger] h[i]).0 == keys[q];
                if i < n - 1 {
                    assert(h[i].0 == keys[q]);
                }
            }
            if last(q) {
                assert(h[n - 1].0 == keys[q]);
            }
        }
        lemma_count_split(keys.len(), now, before, last);
        assert(h[n - 1].1 == occurrences(keys, h[n - 1].0));
    }
}

/// The counts of a tally add up to the number of keys.
pub proof fn tally_counts_every_key(h: Seq<(usize, usize)>, keys: Seq<usize>)
    requires
        tallies(h, keys),
    ensures
        tally_sum(h) == keys.len(),
{
    let p = |q: int| listed(h, h.len(), keys[q]);
    lemma_partial_sum(h, keys, h.len());
    lemma_count_all(keys.len(), p);
}

/// Raising the count of a key that is there.
proof fn lemma_raise(h0: Seq<(usize, usize)>, keys: Seq<usize>, k: usize, p: int, c: usize)
    requires
        tallies(h0, keys),
        0 <= p < h0.len(),
        h0[p].0 == k,
        c == h0[p].1 + 1,
    ensures
        tallies(h0.update(p, (k, c)), keys.push(k)),
{
    let h = h0.update(p, (k, c));
    let more = keys.push(k);
    assert forall|i: int| 0 <= i < h.len() implies 0 < (#[trigger] h[i]).1 == occurrences(
        more,
        h[i].0,
    ) by {
        lemma_push_occurrences(keys, k, h[i].0);
        assert(h0[i].1 == occurrences(keys, h0[i].0));
        if i < p {
            assert(h0[i].0 < h0[p].0);
        } else if i > p {
            assert(h0[p].0 < h0[i].0);
        }
    }
    assert forall|i: int, j: int| 0 <= i < h.len() && 0 <= j < h.len() && i < j implies (
    #[trigger] h[i]).0 < (#[trigger] h[j]).0 by {
        assert(h0[i].0 < h0[j].0);
    }
    assert forall|q: int| 0 <= q < more.len() implies listed(
        h,
        h.len(),
        #[trigger] more[q],
    ) by {
        if q < keys.len() {
            assert(keys[q] == more[q]);
            let i = choose|i: int| 0 <= i < h0.len() && (#[trigger] h0[i]).0 == keys[q];
            assert(h[i].0 == more[q]);
        } else {
            assert(h[p].0 == more[q]);
        }
    }
}

/// Inserting a key that is new.
proof fn lemma_new_key(h0: Seq<(usize, usize)>, keys: Seq<usize>, k: usize, p: int)
    requires
        tallies(h0, keys),
        0 <= p <= h0.len(),
        forall|i: int| 0 <= i < p ==> (#[trigger] h0[i]).0 < k,
        p < h0.len() ==> k < h0[p].0,
    ensures
        tallies(h0.insert(p, (k, 1)), keys.push(k)),
{
    let h = h0.insert(p, (k, 1));
    let more = keys.push(k);
    assert forall|i: int| p <= i < h0.len() implies k < (#[trigger] h0[i]).0 by {
        if i > p {
            assert(h0[p].0 < h0[i].0);
        }
    }
    assert forall|q: int| 0 <= q < keys.len() implies #[trigger] keys[q] != k by {
        let i = choose|i: int| 0 <= i < h0.len() && (#[trigger] h0[i]).0 == keys[q];
        if i < p {
            assert(h0[i].0 < k);
        }
    }
    lemma_no_occurrence(keys, k);
    assert forall|i: int| 0 <= i < h.len() implies 0 < (#[trigger] h[i]).1 == occurrences(
        more,
        h[i].0,
    ) by {
        lemma_push_occurrences(keys, k, h[i].0);
        if i < p {
            assert(h[i] == h0[i]);
            assert(h0[i].1 == occurrences(keys, h0[i].0));
        } else if i > p {
            assert(h[i] == h0[i - 1]);
            assert(h0[i - 1].1 == occurrences(keys, h0[i - 1].0));
        }
    }
    assert forall|i: int, j: int| 0 <= i < h.len() && 0 <= j < h.len() && i < j implies (
    #[trigger] h[i]).0 < (#[trigger] h[j]).0 by {
        let a = if i < p {
            i
        } else {
            i - 1
        };
        let b = if j < p {
            j
        } else {
            j - 1
        };
        if i != p {
            assert(h[i] == h0[a]);
        }
        if j != p {
            assert(h[j] == h0[b]);
        }
        if i != p && j != p {
            assert(h0[a].0 < h0[b].0);
        }
    }
    assert forall|q: int| 0 <= q < more.len() implies listed(
        h,
        h.len(),
        #[trigger] more[q],
    ) by {
        if q < keys.len() {
            assert(keys[q] == more[q]);
            let i = choose|i: int| 0 <= i < h0.len() && (#[trigger] h0[i]).0 == keys[q];
            let t = if i < p {
                i
            } else {
                i + 1
            };
            assert(h[t].0 == more[q]);
        } else {
            assert(h[p].0 == more[q]);
        }
    }
}

/// Adds one key to a tally.
fn add_key(h: &mut Vec<(usize, usize)>, k: usize, Ghost(keys): Ghost<Seq<usize>>)
    requires
        tallies(old(h)@, keys),
        keys.len() < usize::MAX,
    ensures
        tallies(final(h)@, keys.push(k)),
{
    let ghost h0 = h@;
    let mut p: usize = 0;
    while p < h.len() && h[p].0 < k
        invariant
            p <= h@.len(),
            h@ == h0,
            forall|i: int| 0 <= i < p ==> (#[trigger] h@[i]).0 < k,
        decreases h@.len() - p,
    {
        p = p + 1;
    }
    if p < h.len() && h[p].0 == k {
        let c: usize = h[p].1;
        proof {
            lemma_count_bound(keys.len(), holds(keys, k));
            assert(h0[p as int].1 == occurrences(keys, k));
            lemma_raise(h0, keys, k, p as int, (c + 1) as usize);
        }
        h.set(p, (k, c + 1));
    } else {
        proof {
            lemma_new_key(h0, keys, k, p as int);
        }
        h.insert(p, (k, 1));
    }
}

/// The tally of some keys.
pub fn tally(keys: &Vec<usize>) -> (h: Vec<(usize, usize)>)
    ensures
        tallies(h@, keys@),
{
    let mut h: Vec<(usize, usize)> = Vec::new();
    let mut i: usize = 0;
    while i < keys.len()
        invariant
            i <= keys.len(),
            tallies(h@, keys@.take(i as int)),
        decreases keys@.len() - i,
    {
        add_key(&mut h, keys[i], Ghost(keys@.take(i as int)));
        assert(keys@.take(i as int).push(keys@[i as int]) =~= keys@.take(i + 1));
        i = i + 1;
    }
    assert(keys@.take(i as int) =~= keys@);
    h
}

/// The pairs in reverse order.
pub fn reversed_pairs(h: &Vec<(usize, usize)>) -> (r: Vec<(usize, usize)>)
    ensures
        r@ == h@.reverse(),
{
    let mut r: Vec<(usize, usize)> = Vec::new();
    let mut i: usize = h.len();
    while i > 0
        invariant
            i <= h@.len(),
            r@.len() == h@.len() - i,
            forall|q: int| 0 <= q < r@.len() ==> #[trigger] r@[q] == h@[h@.len() - 1 - q],
        decreases i,
    {
        i = i - 1;
        r.push(h[i]);
    }
    assert(r@ =~= h@.reverse());
    r
}

} // verus!
