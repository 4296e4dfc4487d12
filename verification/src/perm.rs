//! Permutations of a cell's pins.
use vstd::prelude::*;
use vstd::relations::injective_on;
use vstd::set_lib::lemma_map_size;

use crate::cut::{cut_value, leaf_minterm, CutView};
use crate::tally::count;
use crate::truth::{
    bit, get_bit, lemma_is_pack, lemma_pack_bit, lemma_pack_bound, lemma_pack_ext, lemma_pow2_small,
    lemma_shift_is_pow2, minterms, pack, pow2, with_bit,
};

verus! {

/// `p` orders the first `n` of four entries and leaves the others in place.
pub open spec fn orders_first(p: Seq<u8>, n: nat) -> bool {
    &&& p.len() == 4
    &&& forall|i: int| 0 <= i < n ==> (#[trigger] p[i]) < n
    &&& forall|i: int| n <= i < 4 ==> #[trigger] p[i] == i
    &&& forall|i: int, j: int|
        0 <= i < n && 0 <= j < n && i != j ==> #[trigger] p[i] != #[trigger] p[j]
}

/// The first `n` entries of `p` are the numbers below `n`, each once.
pub open spec fn permutes(p: Seq<u8>, n: nat) -> bool {
    &&& p.len() == 4
    &&& forall|i: int| 0 <= i < n ==> (#[trigger] p[i]) < n
    &&& forall|i: int, j: int|
        0 <= i < n && 0 <= j < n && i != j ==> #[trigger] p[i] != #[trigger] p[j]
}

/// `p` with the entries `i` and `j` exchanged.
pub open spec fn swapped(p: Seq<u8>, i: int, j: int) -> Seq<u8> {
    p.update(i, p[j]).update(j, p[i])
}

/// All orders of the first `k` entries of `cur`, by exchanges, and what `cur` becomes.
pub open spec fn heap(k: nat, cur: Seq<u8>) -> (Seq<Seq<u8>>, Seq<u8>)
    decreases k, k + 1,
{
    if k <= 1 {
        (seq![cur], cur)
    } else {
        heap_rounds(k, cur, k)
    }
}

/// The first `i` rounds, each with another entry in the last place.
pub open spec fn heap_rounds(k: nat, cur: Seq<u8>, i: nat) -> (Seq<Seq<u8>>, Seq<u8>)
    decreases k, i,
{
    if i == 0 || k <= 1 {
        (Seq::empty(), cur)
    } else {
        let (out, c) = heap_rounds(k, cur, (i - 1) as nat);
        let (more, d) = heap((k - 1) as nat, c);
        (
            out + more,
            swapped(
                d,
                if k % 2 == 0 {
                    i - 1
                } else {
                    0
                },
                k - 1,
            ),
        )
    }
}

/// The orders of the first `n` of four entries.
pub open spec fn orderings(n: nat) -> Seq<Seq<u8>> {
    if n == 0 {
        Seq::empty()
    } else {
        heap(n, Seq::new(4, |i: int| i as u8)).0
    }
}

/// `n!`.
pub open spec fn factorial(n: nat) -> nat
    decreases n,
{
    if n == 0 {
        1
    } else {
        n * factorial((n - 1) as nat)
    }
}

proof fn lemma_identity()
    ensures
        Seq::new(4, |i: int| i as u8) == seq![0u8, 1, 2, 3],
{
    assert(Seq::new(4, |i: int| i as u8) =~= seq![0u8, 1, 2, 3]);
}

/// What two entries are permuted to.
proof fn lemma_heap2(a: u8, b: u8, c: u8, d: u8)
    ensures
        heap(2, seq![a, b, c, d]) == (
            seq![
                seq![a, b, c, d],
                seq![b, a, c, d],
            ],
            seq![b, a, c, d],
        ),
{
    let s = seq![a, b, c, d];
    reveal_with_fuel(heap_rounds, 3);
    reveal_with_fuel(heap, 2);
    assert(swapped(s, 0, 1) =~= seq![b, a, c, d]);
    assert(swapped(seq![b, a, c, d], 1, 1) =~= seq![b, a, c, d]);
    assert(Seq::<Seq<u8>>::empty() + seq![s] =~= seq![s]);
    assert(seq![s] + seq![seq![b, a, c, d]] =~= seq![s, seq![b, a, c, d]]);
    assert(heap(1, s) == (seq![s], s));
    assert(heap_rounds(2, s, 0) == (Seq::<Seq<u8>>::empty(), s));
    assert(heap_rounds(2, s, 1) == (seq![s], seq![b, a, c, d]));
    assert(heap(1, seq![b, a, c, d]) == (seq![seq![b, a, c, d]], seq![b, a, c, d]));
}

/// The six orders of three entries.
spec fn six(a: u8, b: u8, c: u8, d: u8) -> Seq<Seq<u8>> {
    seq![
        seq![a, b, c, d],
        seq![b, a, c, d],
        seq![c, a, b, d],
        seq![a, c, b, d],
        seq![b, c, a, d],
        seq![c, b, a, d],
    ]
}

/// What three entries are permuted to.
proof fn lemma_heap3(a: u8, b: u8, c: u8, d: u8)
    ensures
        heap(3, seq![a, b, c, d]) == (six(a, b, c, d), seq![a, b, c, d]),
{
    let s0 = seq![a, b, c, d];
    reveal_with_fuel(heap_rounds, 4);
    reveal_with_fuel(heap, 2);
    let o0 = Seq::<Seq<u8>>::empty();
    lemma_heap2(a, b, c, d);
    let o1 = seq![seq![a, b, c, d], seq![b, a, c, d]];
    assert(o0 + seq![seq![a, b, c, d], seq![b, a, c, d]] =~= o1);
    assert(swapped(seq![b, a, c, d], 0, 2) =~= seq![c, a, b, d]);
    assert(heap_rounds(3, s0, 1) == (o1, seq![c, a, b, d]));
    lemma_heap2(c, a, b, d);
    let o2 = seq![seq![a, b, c, d], seq![b, a, c, d], seq![c, a, b, d], seq![a, c, b, d]];
    assert(o1 + seq![seq![c, a, b, d], seq![a, c, b, d]] =~= o2);
    assert(swapped(seq![a, c, b, d], 0, 2) =~= seq![b, c, a, d]);
    assert(heap_rounds(3, s0, 2) == (o2, seq![b, c, a, d]));
    lemma_heap2(b, c, a, d);
    let o3 = six(a, b, c, d);
    assert(o2 + seq![seq![b, c, a, d], seq![c, b, a, d]] =~= o3);
    assert(swapped(seq![c, b, a, d], 0, 2) =~= seq![a, b, c, d]);
    assert(heap_rounds(3, s0, 3) == (o3, seq![a, b, c, d]));
}

/// What four entries are permuted to.
proof fn lemma_heap4(a: u8, b: u8, c: u8, d: u8)
    ensures
        heap(4, seq![a, b, c, d]) == (
            seq![
                seq![a, b, c, d],
                seq![b, a, c, d],
                seq![c, a, b, d],
                seq![a, c, b, d],
                seq![b, c, a, d],
                seq![c, b, a, d],
                seq![d, b, c, a],
                seq![b, d, c, a],
                seq![c, d, b, a],
                seq![d, c, b, a],
                seq![b, c, d, a],
                seq![c, b, d, a],
                seq![d, a, c, b],
                seq![a, d, c, b],
                seq![c, d, a, b],
                seq![d, c, a, b],
                seq![a, c, d, b],
                seq![c, a, d, b],
                seq![d, a, b, c],
                seq![a, d, b, c],
                seq![b, d, a, c],
                seq![d, b, a, c],
                seq![a, b, d, c],
                seq![b, a, d, c],
            ],
            seq![d, a, b, c],
        ),
{
    let s0 = seq![a, b, c, d];
    reveal_with_fuel(heap_rounds, 5);
    reveal_with_fuel(heap, 2);
    let o1 = six(a, b, c, d);
    lemma_heap3(a, b, c, d);
    assert(Seq::<Seq<u8>>::empty() + six(a, b, c, d) =~= o1);
    assert(swapped(seq![a, b, c, d], 0, 3) =~= seq![d, b, c, a]);
    assert(heap_rounds(4, s0, 1) == (o1, seq![d, b, c, a]));
    lemma_heap3(d, b, c, a);
    let o2 = o1 + six(d, b, c, a);
    assert(swapped(seq![d, b, c, a], 1, 3) =~= seq![d, a, c, b]);
    assert(heap_rounds(4, s0, 2) == (o2, seq![d, a, c, b]));
    lemma_heap3(d, a, c, b);
    let o3 = o2 + six(d, a, c, b);
    assert(swapped(seq![d, a, c, b], 2, 3) =~= seq![d, a, b, c]);
    assert(heap_rounds(4, s0, 3) == (o3, seq![d, a, b, c]));
    lemma_heap3(d, a, b, c);
    let o4 = o3 + six(d, a, b, c);
    assert(swapped(seq![d, a, b, c], 3, 3) =~= seq![d, a, b, c]);
    assert(heap_rounds(4, s0, 4) == (o4, seq![d, a, b, c]));
    assert(o4 =~= heap(4, seq![a, b, c, d]).0);
}

/// Every order of the first `n` entries is among the permutations, and there is no other.
pub proof fn orderings_are_all(n: nat, p: Seq<u8>)
    requires
        1 <= n <= 4,
    ensures
        orderings(n).contains(p) <==> orders_first(p, n),
        orderings(n).len() == factorial(n),
{
    lemma_identity();
    reveal_with_fuel(factorial, 5);
    let o = orderings(n);
    if n == 1 {
        assert(o =~= seq![seq![0u8, 1, 2, 3]]);
        if orders_first(p, n) {
            if p[0] == 0 {
                assert(o[0] =~= p);
            }
        }
        if o.contains(p) {
            let i = choose|i: int| 0 <= i < o.len() && o[i] == p;
            assert(0 <= i < 1);
            if i == 0 {
                assert(p == seq![0u8, 1u8, 2u8, 3u8]);
            }
        }
    }
    if n == 2 {
        lemma_heap2(0, 1, 2, 3);
        if orders_first(p, n) {
            if p[0] == 0 && p[1] == 1 {
                assert(o[0] =~= p);
            } else if p[0] == 1 && p[1] == 0 {
                assert(o[1] =~= p);
            }
        }
        if o.contains(p) {
            let i = choose|i: int| 0 <= i < o.len() && o[i] == p;
            assert(0 <= i < 2);
            if i == 0 {
                assert(p == seq![0u8, 1u8, 2u8, 3u8]);
            } else if i == 1 {
                assert(p == seq![1u8, 0u8, 2u8, 3u8]);
            }
        }
    }
    if n == 3 {
        lemma_heap3(0, 1, 2, 3);
        if orders_first(p, n) {
            if p[0] == 0 && p[1] == 1 && p[2] == 2 {
                assert(o[0] =~= p);
            } else if p[0] == 1 && p[1] == 0 && p[2] == 2 {
                assert(o[1] =~= p);
            } else if p[0] == 2 && p[1] == 0 && p[2] == 1 {
                assert(o[2] =~= p);
            } else if p[0] == 0 && p[1] == 2 && p[2] == 1 {
                assert(o[3] =~= p);
            } else if p[0] == 1 && p[1] == 2 && p[2] == 0 {
                assert(o[4] =~= p);
            } else if p[0] == 2 && p[1] == 1 && p[2] == 0 {
                assert(o[5] =~= p);
            }
        }
        if o.contains(p) {
            let i = choose|i: int| 0 <= i < o.len() && o[i] == p;
            assert(0 <= i < 6);
            if i == 0 {
                assert(p == seq![0u8, 1u8, 2u8, 3u8]);
            } else if i == 1 {
                assert(p == seq![1u8, 0u8, 2u8, 3u8]);
            } else if i == 2 {
                assert(p == seq![2u8, 0u8, 1u8, 3u8]);
            } else if i == 3 {
                assert(p == seq![0u8, 2u8, 1u8, 3u8]);
            } else if i == 4 {
                assert(p == seq![1u8, 2u8, 0u8, 3u8]);
            } else if i == 5 {
                assert(p == seq![2u8, 1u8, 0u8, 3u8]);
            }
        }
    }
    if n == 4 {
        lemma_heap4(0, 1, 2, 3);
        if orders_first(p, n) {
            if p[0] == 0 && p[1] == 1 && p[2] == 2 && p[3] == 3 {
                assert(o[0] =~= p);
            } else if p[0] == 1 && p[1] == 0 && p[2] == 2 && p[3] == 3 {
                assert(o[1] =~= p);
            } else if p[0] == 2 && p[1] == 0 && p[2] == 1 && p[3] == 3 {
                assert(o[2] =~= p);
            } else if p[0] == 0 && p[1] == 2 && p[2] == 1 && p[3] == 3 {
                assert(o[3] =~= p);
            } else if p[0] == 1 && p[1] == 2 && p[2] == 0 && p[3] == 3 {
                assert(o[4] =~= p);
            } else if p[0] == 2 && p[1] == 1 && p[2] == 0 && p[3] == 3 {
                assert(o[5] =~= p);
            } else if p[0] == 3 && p[1] == 1 && p[2] == 2 && p[3] == 0 {
                assert(o[6] =~= p);
            } else if p[0] == 1 && p[1] == 3 && p[2] == 2 && p[3] == 0 {
                assert(o[7] =~= p);
            } else if p[0] == 2 && p[1] == 3 && p[2] == 1 && p[3] == 0 {
                assert(o[8] =~= p);
            } else if p[0] == 3 && p[1] == 2 && p[2] == 1 && p[3] == 0 {
                assert(o[9] =~= p);
            } else if p[0] == 1 && p[1] == 2 && p[2] == 3 && p[3] == 0 {
                assert(o[10] =~= p);
            } else if p[0] == 2 && p[1] == 1 && p[2] == 3 && p[3] == 0 {
                assert(o[11] =~= p);
            } else if p[0] == 3 && p[1] == 0 && p[2] == 2 && p[3] == 1 {
                assert(o[12] =~= p);
            } else if p[0] == 0 && p[1] == 3 && p[2] == 2 && p[3] == 1 {
                assert(o[13] =~= p);
            } else if p[0] == 2 && p[1] == 3 && p[2] == 0 && p[3] == 1 {
                assert(o[14] =~= p);
            } else if p[0] == 3 && p[1] == 2 && p[2] == 0 && p[3] == 1 {
                assert(o[15] =~= p);
            } else if p[0] == 0 && p[1] == 2 && p[2] == 3 && p[3] == 1 {
                assert(o[16] =~= p);
            } else if p[0] == 2 && p[1] == 0 && p[2] == 3 && p[3] == 1 {
                assert(o[17] =~= p);
            } else if p[0] == 3 && p[1] == 0 && p[2] == 1 && p[3] == 2 {
                assert(o[18] =~= p);
            } else if p[0] == 0 && p[1] == 3 && p[2] == 1 && p[3] == 2 {
                assert(o[19] =~= p);
            } else if p[0] == 1 && p[1] == 3 && p[2] == 0 && p[3] == 2 {
                assert(o[20] =~= p);
            } else if p[0] == 3 && p[1] == 1 && p[2] == 0 && p[3] == 2 {
                assert(o[21] =~= p);
            } else if p[0] == 0 && p[1] == 1 && p[2] == 3 && p[3] == 2 {
                assert(o[22] =~= p);
            } else if p[0] == 1 && p[1] == 0 && p[2] == 3 && p[3] == 2 {
                assert(o[23] =~= p);
            }
        }
        if o.contains(p) {
            let i = choose|i: int| 0 <= i < o.len() && o[i] == p;
            assert(0 <= i < 24);
            if i == 0 {
                assert(p == seq![0u8, 1u8, 2u8, 3u8]);
            } else if i == 1 {
                assert(p == seq![1u8, 0u8, 2u8, 3u8]);
            } else if i == 2 {
                assert(p == seq![2u8, 0u8, 1u8, 3u8]);
            } else if i == 3 {
                assert(p == seq![0u8, 2u8, 1u8, 3u8]);
            } else if i == 4 {
                assert(p == seq![1u8, 2u8, 0u8, 3u8]);
            } else if i == 5 {
                assert(p == seq![2u8, 1u8, 0u8, 3u8]);
            } else if i == 6 {
                assert(p == seq![3u8, 1u8, 2u8, 0u8]);
            } else if i == 7 {
                assert(p == seq![1u8, 3u8, 2u8, 0u8]);
            } else if i == 8 {
                assert(p == seq![2u8, 3u8, 1u8, 0u8]);
            } else if i == 9 {
                assert(p == seq![3u8, 2u8, 1u8, 0u8]);
            } else if i == 10 {
                assert(p == seq![1u8, 2u8, 3u8, 0u8]);
            } else if i == 11 {
                assert(p == seq![2u8, 1u8, 3u8, 0u8]);
            } else if i == 12 {
                assert(p == seq![3u8, 0u8, 2u8, 1u8]);
            } else if i == 13 {
                assert(p == seq![0u8, 3u8, 2u8, 1u8]);
            } else if i == 14 {
                assert(p == seq![2u8, 3u8, 0u8, 1u8]);
            } else if i == 15 {
                assert(p == seq![3u8, 2u8, 0u8, 1u8]);
            } else if i == 16 {
                assert(p == seq![0u8, 2u8, 3u8, 1u8]);
            } else if i == 17 {
                assert(p == seq![2u8, 0u8, 3u8, 1u8]);
            } else if i == 18 {
                assert(p == seq![3u8, 0u8, 1u8, 2u8]);
            } else if i == 19 {
                assert(p == seq![0u8, 3u8, 1u8, 2u8]);
            } else if i == 20 {
                assert(p == seq![1u8, 3u8, 0u8, 2u8]);
            } else if i == 21 {
                assert(p == seq![3u8, 1u8, 0u8, 2u8]);
            } else if i == 22 {
                assert(p == seq![0u8, 1u8, 3u8, 2u8]);
            } else if i == 23 {
                assert(p == seq![1u8, 0u8, 3u8, 2u8]);
            }
        }
    }
}

/// The values of a list of permutations.
pub open spec fn perm_seqs(s: Seq<[u8; 4]>) -> Seq<Seq<u8>> {
    Seq::new(s.len(), |i: int| s[i]@)
}

fn heap_into(k: usize, cur: &mut [u8; 4], out: &mut Vec<[u8; 4]>)
    requires
        1 <= k <= 4,
    ensures
        perm_seqs(final(out)@) == perm_seqs(old(out)@) + heap(k as nat, old(cur)@).0,
        final(cur)@ == heap(k as nat, old(cur)@).1,
    decreases k,
{
    let ghost c0 = cur@;
    let ghost o0 = perm_seqs(out@);
    if k == 1 {
        let ghost before = out@;
        out.push(*cur);
        assert(perm_seqs(out@) =~= o0 + heap(1, c0).0);
        return;
    }
    let mut i: usize = 0;
    assert(o0 + heap_rounds(k as nat, c0, 0).0 =~= o0);
    while i < k
        invariant
            i <= k,
            1 < k <= 4,
            perm_seqs(out@) == o0 + heap_rounds(k as nat, c0, i as nat).0,
            cur@ == heap_rounds(k as nat, c0, i as nat).1,
        decreases k - i,
    {
        heap_into(k - 1, cur, out);
        let j: usize = if k % 2 == 0 {
            i
        } else {
            0
        };
        let a: u8 = cur[j];
        let b: u8 = cur[k - 1];
        let ghost d = cur@;
        cur[j] = b;
        cur[k - 1] = a;
        assert(cur@ =~= swapped(d, j as int, k - 1));
        i = i + 1;
        assert(perm_seqs(out@) =~= o0 + heap_rounds(k as nat, c0, i as nat).0);
    }
}

/// The orders of the first `n` of four entries.
pub fn permutations(n: usize) -> (out: Vec<[u8; 4]>)
    requires
        n <= 4,
    ensures
        perm_seqs(out@) == orderings(n as nat),
{
    let mut out: Vec<[u8; 4]> = Vec::new();
    assert(perm_seqs(out@) =~= Seq::empty());
    if n > 0 {
        let mut cur: [u8; 4] = [0, 1, 2, 3];
        assert(cur@ =~= Seq::new(4, |i: int| i as u8));
        heap_into(n, &mut cur, &mut out);
        assert(perm_seqs(out@) =~= orderings(n as nat));
    }
    out
}

/// Where `p` has `v` among its first `n` entries.
pub open spec fn place_of(p: Seq<u8>, n: nat, v: int) -> int {
    p.take(n as int).index_of(v as u8)
}

/// The inverse of an order of the first `n` entries; the other entries are zero.
pub open spec fn inverted(p: Seq<u8>, n: nat) -> Seq<u8> {
    Seq::new(
        4,
        |v: int|
            if v < n {
                place_of(p, n, v) as u8
            } else {
                0
            },
    )
}

/// The pins' values at minterm `m` of the variant in which variable `i` is pin `p[i]`.
pub open spec fn pin_minterm(n: nat, p: Seq<u8>, m: u64) -> u64 {
    pack(n, |v: int| bit(m, place_of(p, n, v)))
}

/// The variant of a truth table over `n` pins in which variable `i` is pin `p[i]`.
pub open spec fn permuted(tt: u64, n: nat, p: Seq<u8>) -> u64 {
    pack(pow2(n), |m: int| bit(tt, pin_minterm(n, p, m as u64) as int))
}

/// Each of the first `n` values has its place among the first `n`.
pub(crate) proof fn lemma_place(p: Seq<u8>, n: nat, v: int)
    requires
        permutes(p, n),
        n <= 4,
        0 <= v < n,
    ensures
        0 <= place_of(p, n, v) < n,
        p[place_of(p, n, v)] == v,
{
    if n == 1 {
        assert(p[0] == 0);
    } else if n == 2 {
        assert(p[0] < 2 && p[1] < 2 && p[0] != p[1]);
    } else if n == 3 {
        assert(p[0] < 3 && p[1] < 3 && p[2] < 3 && p[0] != p[1] && p[0] != p[2] && p[1] != p[2]);
    } else if n == 4 {
        assert(p[0] < 4 && p[1] < 4 && p[2] < 4 && p[3] < 4);
        assert(p[0] != p[1] && p[0] != p[2] && p[0] != p[3] && p[1] != p[2] && p[1] != p[3]
            && p[2] != p[3]);
    }
    let s = p.take(n as int);
    assert(s.contains(v as u8)) by {
        if p[0] == v {
            assert(s[0] == v);
        } else if p[1] == v {
            assert(s[1] == v);
        } else if p[2] == v {
            assert(s[2] == v);
        } else {
            assert(s[3] == v);
        }
    }
    let i = s.index_of(v as u8);
    assert(0 <= i < s.len() && s[i] == v as u8);
}

/// A cell whose variant is the cut's function, with pin `i` fed by the leaf at the inverse
/// order's entry `i`, computes the cut's function.
pub proof fn fed_cell_computes_cut(tt: u64, n: nat, p: Seq<u8>, c: CutView, a: spec_fn(u32) -> bool)
    requires
        permutes(p, n),
        n <= 4,
        c.leaves.len() == n,
        c.tt == permuted(tt, n, p),
    ensures
        bit(tt, pack(n, |i: int| a(c.leaves[inverted(p, n)[i] as int])) as int) == cut_value(c, a),
{
    let m = leaf_minterm(c.leaves, a);
    let leaf = |i: int| a(c.leaves[i]);
    lemma_pack_bound(n, leaf);
    lemma_pow2_small(n);
    let g = |k: int| bit(tt, pin_minterm(n, p, k as u64) as int);
    lemma_pack_bit(pow2(n), g, m as int);
    let fed = |i: int| a(c.leaves[inverted(p, n)[i] as int]);
    let read = |v: int| bit(m, place_of(p, n, v));
    assert forall|v: int| 0 <= v < n implies #[trigger] fed(v) == #[trigger] read(v) by {
        lemma_place(p, n, v);
        lemma_pack_bit(n, leaf, place_of(p, n, v));
    }
    lemma_pack_ext(n, fed, read);
    assert(pin_minterm(n, p, m) == pack(n, read)) by {
        lemma_pack_ext(n, |v: int| bit(m, place_of(p, n, v)), read);
    }
}

/// The inverse of an order of the first `n` entries; the other entries are zero.
pub fn invert(perm: &[u8; 4], n: usize) -> (inv: [u8; 4])
    requires
        n <= 4,
        permutes(perm@, n as nat),
    ensures
        inv@ == inverted(perm@, n as nat),
{
    let mut inv: [u8; 4] = [0, 0, 0, 0];
    let mut i: usize = 0;
    assert forall|v: int| 0 <= v < n implies place_of(perm@, n as nat, v) >= 0 by {
        lemma_place(perm@, n as nat, v);
    }
    while i < n
        invariant
            i <= n <= 4,
            permutes(perm@, n as nat),
            inv@.len() == 4,
            forall|v: int| n <= v < 4 ==> #[trigger] inv@[v] == 0,
            forall|v: int| 0 <= v < n && place_of(perm@, n as nat, v) < i ==> #[trigger] inv@[v] == place_of(
                perm@,
                n as nat,
                v,
            ),
        decreases n - i,
    {
        assert(perm@[i as int] < n);
        let v: u8 = perm[i];
        let ghost before = inv@;
        inv[v as usize] = i as u8;
        assert forall|w: int| 0 <= w < n && place_of(perm@, n as nat, w) < i + 1 implies #[trigger] inv@[w]
            == place_of(perm@, n as nat, w) by {
            lemma_place(perm@, n as nat, w);
            if w == v {
                let q = place_of(perm@, n as nat, w);
                assert(perm@[q] == perm@[i as int]);
            } else {
                assert(before[w] == inv@[w]);
                if place_of(perm@, n as nat, w) == i {
                    assert(perm@[i as int] == w);
                }
            }
        }
        i = i + 1;
    }
    assert(inv@ =~= inverted(perm@, n as nat)) by {
        assert forall|v: int| 0 <= v < n implies #[trigger] inv@[v] == inverted(
            perm@,
            n as nat,
        )[v] by {
            lemma_place(perm@, n as nat, v);
        }
    }
    inv
}

/// The variant of a truth table over `n` pins in which variable `i` is pin `perm[i]`.
pub fn permute_tt(tt: u64, n: usize, perm: &[u8; 4]) -> (out: u64)
    requires
        n <= 4,
        permutes(perm@, n as nat),
    ensures
        out == permuted(tt, n as nat, perm@),
{
    let inv: [u8; 4] = invert(perm, n);
    let total: u64 = minterms(n);
    let ghost g = |k: int| bit(tt, pin_minterm(n as nat, perm@, k as u64) as int);
    let mut out: u64 = 0;
    let mut m: u64 = 0;
    while m < total
        invariant
            m <= total <= 64,
            total == pow2(n as nat),
            n <= 4,
            permutes(perm@, n as nat),
            inv@ == inverted(perm@, n as nat),
            g == (|k: int| bit(tt, pin_minterm(n as nat, perm@, k as u64) as int)),
            out == pack(m as nat, g),
        decreases total - m,
    {
        let ghost h = |v: int| bit(m, place_of(perm@, n as nat, v));
        let mut src: u64 = 0;
        let mut v: usize = 0;
        while v < n
            invariant
                v <= n <= 4,
                permutes(perm@, n as nat),
                inv@ == inverted(perm@, n as nat),
                h == (|v: int| bit(m, place_of(perm@, n as nat, v))),
                src == pack(v as nat, h),
            decreases n - v,
        {
            proof {
                lemma_place(perm@, n as nat, v as int);
            }
            let b: bool = get_bit(m, inv[v] as u64);
            assert(b == h(v as int));
            src = with_bit(src, v as u64, b);
            v = v + 1;
        }
        proof {
            lemma_pack_bound(n as nat, h);
            lemma_pow2_small(n as nat);
        }
        let b: bool = get_bit(tt, src);
        assert(b == g(m as int));
        out = with_bit(out, m, b);
        m = m + 1;
    }
    out
}

// ------------------------------------------------------------------------- laws

/// The inverse of a permutation is one, and gives the places back.
proof fn lemma_inverse(p: Seq<u8>, n: nat, v: int)
    requires
        permutes(p, n),
        n <= 4,
        0 <= v < n,
    ensures
        permutes(inverted(p, n), n),
        place_of(inverted(p, n), n, place_of(p, n, v)) == v,
{
    let inv = inverted(p, n);
    assert forall|i: int| 0 <= i < n implies (#[trigger] inv[i]) < n by {
        lemma_place(p, n, i);
    }
    assert forall|i: int, j: int| 0 <= i < n && 0 <= j < n && i != j implies #[trigger] inv[i]
        != #[trigger] inv[j] by {
        lemma_place(p, n, i);
        lemma_place(p, n, j);
    }
    lemma_place(p, n, v);
    let w = place_of(p, n, v);
    assert(inv[v] == w);
    lemma_place(inv, n, w);
    let u = place_of(inv, n, w);
    if u != v {
        assert(inv[u] != inv[v]);
    }
}

/// A minterm is made of its own bits.
proof fn lemma_own_bits(n: nat, m: u64)
    requires
        n <= 4,
        m < pow2(n),
    ensures
        pack(n, |v: int| bit(m, v)) == m,
{
    let f = |v: int| bit(m, v);
    lemma_shift_is_pow2(n);
    assert forall|i: int| 0 <= i < 64 implies #[trigger] bit(m, i) == (i < n && f(i)) by {
        let j = i as u64;
        let k = n as u64;
        assert(j >= k ==> (m >> j) & 1u64 == 0u64) by (bit_vector)
            requires
                j < 64,
                k <= 4,
                m < (1u64 << k),
        ;
    }
    lemma_is_pack(m, n, f);
}

/// Reading the pins of a minterm by a permutation and then by its inverse gives it back.
proof fn lemma_minterm_back(n: nat, p: Seq<u8>, m: u64)
    requires
        permutes(p, n),
        n <= 4,
        m < pow2(n),
    ensures
        pin_minterm(n, inverted(p, n), m) < pow2(n),
        pin_minterm(n, p, pin_minterm(n, inverted(p, n), m)) == m,
{
    let inv = inverted(p, n);
    let f = |v: int| bit(m, place_of(inv, n, v));
    let k = pin_minterm(n, inv, m);
    lemma_pack_bound(n, f);
    let g = |v: int| bit(k, place_of(p, n, v));
    let own = |v: int| bit(m, v);
    assert forall|v: int| 0 <= v < n implies #[trigger] g(v) == #[trigger] own(v) by {
        lemma_place(p, n, v);
        lemma_inverse(p, n, v);
        lemma_pack_bit(n, f, place_of(p, n, v));
    }
    lemma_pack_ext(n, g, own);
    lemma_own_bits(n, m);
}

/// Permuting by the inverse undoes a permutation: what comes back is the table, cut to its
/// minterms.
pub proof fn inverse_undoes_permutation(tt: u64, n: nat, p: Seq<u8>)
    requires
        permutes(p, n),
        n <= 4,
    ensures
        permutes(inverted(p, n), n),
        permuted(permuted(tt, n, p), n, inverted(p, n)) == pack(pow2(n), |k: int| bit(tt, k)),
{
    let inv = inverted(p, n);
    if n > 0 {
        lemma_inverse(p, n, 0);
    }
    let a = permuted(tt, n, p);
    let g = |m: int| bit(tt, pin_minterm(n, p, m as u64) as int);
    let h = |m: int| bit(a, pin_minterm(n, inv, m as u64) as int);
    let t = |k: int| bit(tt, k);
    lemma_pow2_small(n);
    assert forall|m: int| 0 <= m < pow2(n) implies #[trigger] h(m) == #[trigger] t(m) by {
        lemma_minterm_back(n, p, m as u64);
        lemma_pack_bit(pow2(n), g, pin_minterm(n, inv, m as u64) as int);
    }
    lemma_pack_ext(pow2(n), h, t);
}

/// The indices below `n` with the property.
spec fn with_property(n: nat, q: spec_fn(int) -> bool) -> Set<int> {
    Set::new(|k: int| 0 <= k < n && q(k))
}

proof fn lemma_count_is_size(n: nat, q: spec_fn(int) -> bool)
    ensures
        with_property(n, q).finite(),
        with_property(n, q).len() == count(n, q),
    decreases n,
{
    if n == 0 {
        assert(with_property(n, q) =~= Set::empty());
    } else {
        lemma_count_is_size((n - 1) as nat, q);
        let rest = with_property((n - 1) as nat, q);
        if q(n - 1) {
            assert(with_property(n, q) =~= rest.insert(n - 1));
        } else {
            assert(with_property(n, q) =~= rest);
        }
    }
}

/// A permuted table has as many minterms as the table, and none beyond the first `2^n`.
pub proof fn permutation_keeps_the_count(tt: u64, n: nat, p: Seq<u8>)
    requires
        permutes(p, n),
        n <= 4,
    ensures
        count(pow2(n), |k: int| bit(permuted(tt, n, p), k)) == count(pow2(n), |k: int| bit(tt, k)),
        forall|k: int| pow2(n) <= k < 64 ==> !(#[trigger] bit(permuted(tt, n, p), k)),
{
    let inv = inverted(p, n);
    let a = permuted(tt, n, p);
    let g = |m: int| bit(tt, pin_minterm(n, p, m as u64) as int);
    let f = |m: int| pin_minterm(n, inv, m as u64) as int;
    let qa = |k: int| bit(a, k);
    let qt = |k: int| bit(tt, k);
    let size = pow2(n);
    lemma_pow2_small(n);
    assert forall|k: int| 0 <= k < 64 implies #[trigger] bit(a, k) == (k < size && g(k)) by {
        lemma_pack_bit(size, g, k);
    }
    let x = with_property(size, qt);
    let y = with_property(size, qa);
    lemma_count_is_size(size, qt);
    lemma_count_is_size(size, qa);
    if n > 0 {
        lemma_inverse(p, n, 0);
    }
    assert(injective_on(f, x)) by {
        assert forall|i: int, j: int|
            #![trigger x.contains(i), x.contains(j)]
            x.contains(i) && x.contains(j) && f(i) == f(j) implies i == j by {
            lemma_minterm_back(n, p, i as u64);
            lemma_minterm_back(n, p, j as u64);
        }
    }
    assert(x.map(f) =~= y) by {
        assert forall|k: int| #[trigger] x.map(f).contains(k) implies y.contains(k) by {
            let i = choose|i: int| x.contains(i) && f(i) == k;
            lemma_minterm_back(n, p, i as u64);
            assert(bit(a, k) == (k < size && g(k)));
        }
        assert forall|k: int| #[trigger] y.contains(k) implies x.map(f).contains(k) by {
            let i = pin_minterm(n, p, k as u64) as int;
            lemma_pack_bound(n, |v: int| bit(k as u64, place_of(p, n, v)));
            assert(bit(a, k) == (k < size && g(k)));
            assert(x.contains(i));
            lemma_minterm_there(n, p, k as u64);
            assert(f(i) == k);
        }
    }
    lemma_map_size(x, y, f);
}

/// Reading the pins of a minterm by the inverse undoes reading them by the permutation.
proof fn lemma_minterm_there(n: nat, p: Seq<u8>, m: u64)
    requires
        permutes(p, n),
        n <= 4,
        m < pow2(n),
    ensures
        pin_minterm(n, inverted(p, n), pin_minterm(n, p, m)) == m,
{
    let inv = inverted(p, n);
    let f = |v: int| bit(m, place_of(p, n, v));
    let k = pin_minterm(n, p, m);
    let g = |v: int| bit(k, place_of(inv, n, v));
    let own = |v: int| bit(m, v);
    assert forall|v: int| 0 <= v < n implies #[trigger] g(v) == #[trigger] own(v) by {
        lemma_inverse(p, n, v);
        lemma_place(inv, n, v);
        let u = place_of(inv, n, v);
        lemma_place(p, n, u);
        assert(inv[u] == place_of(p, n, u));
        lemma_pack_bit(n, f, u);
    }
    lemma_pack_ext(n, g, own);
    lemma_own_bits(n, m);
}

} // verus!
