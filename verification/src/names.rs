//! Order of names.
use vstd::prelude::*;
use vstd::utf8::{encode_utf8, encode_utf8_decode_utf8};

use crate::tally::{count, lemma_count_bound, lemma_count_flip, lemma_count_none};

verus! {

/// `a` comes before `b` in the lexicographic order of byte strings.
pub open spec fn bytes_less(a: Seq<u8>, b: Seq<u8>) -> bool
    decreases a.len(),
{
    if b.len() == 0 {
        false
    } else if a.len() == 0 {
        true
    } else if a[0] != b[0] {
        a[0] < b[0]
    } else {
        bytes_less(a.drop_first(), b.drop_first())
    }
}

/// `a` comes before `b` in the order of strings: by their bytes.
pub open spec fn name_less(a: Seq<char>, b: Seq<char>) -> bool {
    bytes_less(encode_utf8(a), encode_utf8(b))
}

/// `a` and `b` agree on the first `d` bytes, and there `a` ends or has the smaller byte.
pub open spec fn parts_at(a: Seq<u8>, b: Seq<u8>, d: int) -> bool {
    &&& 0 <= d <= a.len()
    &&& d < b.len()
    &&& forall|i: int| 0 <= i < d ==> a[i] == b[i]
    &&& d == a.len() || a[d] < b[d]
}

/// One byte string comes before another one if it is a beginning of it, or has the smaller
/// byte where they first differ.
pub proof fn order_is_by_the_first_difference(a: Seq<u8>, b: Seq<u8>)
    ensures
        bytes_less(a, b) <==> exists|d: int| parts_at(a, b, d),
    decreases a.len(),
{
    if a.len() > 0 && b.len() > 0 && a[0] == b[0] {
        let (s, t) = (a.drop_first(), b.drop_first());
        order_is_by_the_first_difference(s, t);
        if bytes_less(s, t) {
            let d = choose|d: int| parts_at(s, t, d);
            assert forall|i: int| 0 <= i < d + 1 implies a[i] == b[i] by {
                if i > 0 {
                    assert(s[i - 1] == t[i - 1]);
                }
            }
            assert(parts_at(a, b, d + 1));
        }
        if exists|d: int| parts_at(a, b, d) {
            let d = choose|d: int| parts_at(a, b, d);
            assert(d > 0);
            assert forall|i: int| 0 <= i < d - 1 implies s[i] == t[i] by {
                assert(a[i + 1] == b[i + 1]);
            }
            assert(parts_at(s, t, d - 1));
        }
    } else if b.len() > 0 {
        if bytes_less(a, b) {
            assert(parts_at(a, b, 0));
        }
        if exists|d: int| parts_at(a, b, d) {
            let d = choose|d: int| parts_at(a, b, d);
            if d > 0 {
                assert(a[0] == b[0]);
            }
        }
    }
}

/// What lies below `a` lies below every `b` that is not below `a`.
pub(crate) proof fn lemma_bytes_weak(c: Seq<u8>, a: Seq<u8>, b: Seq<u8>)
    requires
        bytes_less(c, a),
    ensures
        bytes_less(c, b) || bytes_less(b, a),
    decreases c.len(),
{
    if a.len() > 0 && b.len() > 0 && c.len() > 0 && a[0] == b[0] && b[0] == c[0] {
        lemma_bytes_weak(c.drop_first(), a.drop_first(), b.drop_first());
    }
}

/// Of two byte strings at most one comes before the other.
pub(crate) proof fn lemma_bytes_strict(a: Seq<u8>, b: Seq<u8>)
    ensures
        !(bytes_less(a, b) && bytes_less(b, a)),
    decreases a.len(),
{
    if a.len() > 0 && b.len() > 0 && a[0] == b[0] {
        lemma_bytes_strict(a.drop_first(), b.drop_first());
    }
}

/// The characters of some strings.
pub open spec fn texts(s: Seq<String>) -> Seq<Seq<char>> {
    Seq::new(s.len(), |i: int| s[i]@)
}

/// `order` lists the indices of `names` by ascending name, equal names by index.
pub open spec fn orders(names: Seq<Seq<char>>, order: Seq<usize>) -> bool {
    &&& order.len() == names.len()
    &&& forall|i: int| 0 <= i < order.len() ==> (#[trigger] order[i]) < names.len()
    &&& forall|i: int, j: int|
        0 <= i < order.len() && 0 <= j < order.len() && i < j ==> before(
            names,
            #[trigger] order[i],
            #[trigger] order[j],
        )
}

/// Index `x` goes before index `y`.
pub open spec fn before(names: Seq<Seq<char>>, x: usize, y: usize) -> bool {
    name_less(names[x as int], names[y as int]) || (!name_less(
        names[y as int],
        names[x as int],
    ) && x < y)
}

/// `a` is a beginning of `b`, or has the smaller byte where their texts first differ.
pub open spec fn spelled_before(a: Seq<char>, b: Seq<char>) -> bool {
    exists|d: int| parts_at(encode_utf8(a), encode_utf8(b), d)
}

/// Names are ordered by the bytes of their texts, and indices by the names at them, with the
/// smaller index first where no name comes before the other.
pub proof fn orders_are_by_the_bytes(names: Seq<Seq<char>>, order: Seq<usize>, i: int, j: int)
    requires
        orders(names, order),
        0 <= i < j < order.len(),
    ensures
        order.len() == names.len(),
        order[i] < names.len() && order[j] < names.len() && order[i] != order[j],
        !spelled_before(names[order[j] as int], names[order[i] as int]),
        spelled_before(names[order[i] as int], names[order[j] as int]) || order[i] < order[j],
{
    let (x, y) = (names[order[i] as int], names[order[j] as int]);
    assert(before(names, order[i], order[j]));
    order_is_by_the_first_difference(encode_utf8(x), encode_utf8(y));
    order_is_by_the_first_difference(encode_utf8(y), encode_utf8(x));
    if name_less(x, y) {
        lemma_bytes_strict(encode_utf8(x), encode_utf8(y));
        lemma_bytes_strict(encode_utf8(x), encode_utf8(x));
    }
}

/// Whether `a` comes before `b`.
pub fn string_less(a: &String, b: &String) -> (r: bool)
    ensures
        r == name_less(a@, b@),
{
    let x: &[u8] = a.as_str().as_bytes();
    let y: &[u8] = b.as_str().as_bytes();
    let mut i: usize = 0;
    assert(x@.skip(0) =~= x@);
    assert(y@.skip(0) =~= y@);
    while i < x.len() && i < y.len()
        invariant
            i <= x@.len(),
            i <= y@.len(),
            x@ == encode_utf8(a@),
            y@ == encode_utf8(b@),
            name_less(a@, b@) == bytes_less(x@.skip(i as int), y@.skip(i as int)),
        decreases x@.len() - i,
    {
        if x[i] != y[i] {
            return x[i] < y[i];
        }
        assert(x@.skip(i as int).drop_first() =~= x@.skip(i + 1));
        assert(y@.skip(i as int).drop_first() =~= y@.skip(i + 1));
        i = i + 1;
    }
    i < y.len()
}

/// The indices of `names` by ascending name, equal names by index.
pub fn name_order(names: &Vec<String>) -> (order: Vec<usize>)
    ensures
        orders(texts(names@), order@),
{
    let mut order: Vec<usize> = Vec::new();
    let mut q: usize = 0;
    while q < names.len()
        invariant
            q <= names@.len(),
            order@.len() == q,
            forall|i: int| 0 <= i < order@.len() ==> (#[trigger] order@[i]) < q,
            forall|i: int, j: int|
                0 <= i < order@.len() && 0 <= j < order@.len() && i < j ==> before(
                    texts(names@),
                    #[trigger] order@[i],
                    #[trigger] order@[j],
                ),
        decreases names@.len() - q,
    {
        let mut p: usize = order.len();
        let ghost o = order@;
        while p > 0 && string_less(&names[q], &names[order[p - 1]])
            invariant
                p <= order@.len(),
                q < names@.len(),
                order@ == o,
                order@.len() == q,
                forall|i: int| 0 <= i < order@.len() ==> (#[trigger] order@[i]) < q,
                forall|i: int|
                    p <= i < order@.len() ==> name_less(
                        names@[q as int]@,
                        names@[#[trigger] order@[i] as int]@,
                    ),
            decreases p,
        {
            p = p - 1;
        }
        order.insert(p, q);
        proof {
            let t = order@;
            assert forall|i: int, j: int|
                0 <= i < t.len() && 0 <= j < t.len() && i < j implies before(
                texts(names@),
                #[trigger] t[i],
                #[trigger] t[j],
            ) by {
                if i != p && j != p {
                    let a = if i < p {
                        i
                    } else {
                        i - 1
                    };
                    let b = if j < p {
                        j
                    } else {
                        j - 1
                    };
                    assert(t[i] == o[a] && t[j] == o[b]);
                    assert(before(texts(names@), o[a], o[b]));
                } else if i == p {
                    assert(t[j] == o[j - 1]);
                } else {
                    assert(t[i] == o[i]);
                    let last = o[p - 1];
                    assert(!name_less(names@[q as int]@, names@[last as int]@));
                    if i < p - 1 {
                        assert(before(texts(names@), o[i], last));
                        let x = encode_utf8(names@[o[i] as int]@);
                        let y = encode_utf8(names@[last as int]@);
                        let z = encode_utf8(names@[q as int]@);
                        if bytes_less(z, x) {
                            lemma_bytes_weak(z, x, y);
                            lemma_bytes_strict(x, y);
                        }
                    }
                }
            }
            assert forall|i: int| 0 <= i < t.len() implies (#[trigger] t[i]) < q + 1 by {
                if i < p {
                    assert(t[i] == o[i]);
                } else if i > p {
                    assert(t[i] == o[i - 1]);
                }
            }
        }
        q = q + 1;
    }
    order
}

// ------------------------------------------------------------------------- laws

proof fn lemma_bytes_equal(a: Seq<u8>, b: Seq<u8>)
    requires
        !bytes_less(a, b),
        !bytes_less(b, a),
    ensures
        a == b,
    decreases a.len(),
{
    if a.len() > 0 && b.len() > 0 {
        lemma_bytes_equal(a.drop_first(), b.drop_first());
        assert(a =~= seq![a[0]] + a.drop_first());
        assert(b =~= seq![b[0]] + b.drop_first());
    } else {
        assert(a =~= b);
    }
}

/// Of two different names exactly one comes before the other.
pub proof fn different_names_are_ordered(a: Seq<char>, b: Seq<char>)
    requires
        a != b,
    ensures
        name_less(a, b) <==> !name_less(b, a),
{
    lemma_bytes_strict(encode_utf8(a), encode_utf8(b));
    if !name_less(a, b) && !name_less(b, a) {
        lemma_bytes_equal(encode_utf8(a), encode_utf8(b));
        encode_utf8_decode_utf8(a);
        encode_utf8_decode_utf8(b);
    }
}

/// The numbers in `s`.
spec fn hits(s: Seq<usize>) -> spec_fn(int) -> bool {
    |x: int| s.contains(x as usize)
}

proof fn lemma_hits_count(s: Seq<usize>, n: nat)
    requires
        n <= usize::MAX,
        s.no_duplicates(),
        forall|i: int| 0 <= i < s.len() ==> #[trigger] s[i] < n,
    ensures
        count(n, hits(s)) == s.len(),
    decreases s.len(),
{
    if s.len() == 0 {
        lemma_count_none(n, hits(s));
    } else {
        let t = s.drop_last();
        let x = s.last();
        assert(s[s.len() - 1] < n);
        assert forall|i: int| 0 <= i < t.len() implies #[trigger] t[i] < n by {
            assert(t[i] == s[i]);
        }
        lemma_hits_count(t, n);
        assert forall|i: int| 0 <= i < n && i != x implies #[trigger] hits(t)(i) == hits(s)(i) by {
            if s.contains(i as usize) {
                let k = choose|k: int| 0 <= k < s.len() && s[k] == i as usize;
                assert(t[k] == s[k]);
            }
            if t.contains(i as usize) {
                let k = choose|k: int| 0 <= k < t.len() && t[k] == i as usize;
                assert(s[k] == t[k]);
            }
        }
        lemma_count_flip(n, hits(t), hits(s), x as int);
    }
}

proof fn lemma_count_full(n: nat, p: spec_fn(int) -> bool, x: int)
    requires
        count(n, p) == n,
        0 <= x < n,
    ensures
        p(x),
    decreases n,
{
    lemma_count_bound((n - 1) as nat, p);
    if x < n - 1 {
        lemma_count_full((n - 1) as nat, p, x);
    }
}

/// An order lists every index.
pub(crate) proof fn lemma_order_onto(names: Seq<Seq<char>>, order: Seq<usize>, x: usize)
    requires
        orders(names, order),
        names.len() <= usize::MAX,
        x < names.len(),
    ensures
        order.contains(x),
{
    lemma_order_strict(names, order);
    lemma_hits_count(order, names.len());
    lemma_count_full(names.len(), hits(order), x as int);
}

proof fn lemma_order_prefix(names: Seq<Seq<char>>, a: Seq<usize>, b: Seq<usize>, n: int)
    requires
        orders(names, a),
        orders(names, b),
        names.len() <= usize::MAX,
        0 <= n <= names.len(),
    ensures
        forall|i: int| 0 <= i < n ==> #[trigger] a[i] == b[i],
    decreases n,
{
    if n > 0 {
        lemma_order_prefix(names, a, b, n - 1);
        let k = n - 1;
        let (x, y) = (a[k], b[k]);
        if x != y {
            lemma_order_onto(names, b, x);
            lemma_order_onto(names, a, y);
            let i = choose|i: int| 0 <= i < b.len() && b[i] == x;
            let j = choose|j: int| 0 <= j < a.len() && a[j] == y;
            lemma_order_strict(names, a);
            lemma_order_strict(names, b);
            if i < k {
                assert(a[i] == b[i]);
            }
            if j < k {
                assert(a[j] == b[j]);
            }
            assert(before(names, b[k], b[i]));
            assert(before(names, a[k], a[j]));
            lemma_bytes_strict(encode_utf8(names[x as int]), encode_utf8(names[y as int]));
        }
    }
}

/// No index is listed twice.
pub(crate) proof fn lemma_order_strict(names: Seq<Seq<char>>, order: Seq<usize>)
    requires
        orders(names, order),
    ensures
        forall|i: int, j: int|
            0 <= i < order.len() && 0 <= j < order.len() && i != j ==> #[trigger] order[i]
                != #[trigger] order[j],
{
    assert forall|i: int, j: int|
        0 <= i < order.len() && 0 <= j < order.len() && i != j implies #[trigger] order[i]
        != #[trigger] order[j] by {
        if i < j {
            assert(before(names, order[i], order[j]));
        } else {
            assert(before(names, order[j], order[i]));
        }
        lemma_bytes_strict(
            encode_utf8(names[order[i] as int]),
            encode_utf8(names[order[i] as int]),
        );
    }
}

/// There is only one order of some names.
pub proof fn sorted_order_is_unique(names: Seq<Seq<char>>, a: Seq<usize>, b: Seq<usize>)
    requires
        orders(names, a),
        orders(names, b),
        names.len() <= usize::MAX,
    ensures
        a == b,
{
    lemma_order_prefix(names, a, b, names.len() as int);
}

} // verus!
