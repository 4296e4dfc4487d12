//! Truth tables and pin orders, bit by bit.
use vstd::prelude::*;

use crate::iter_laws::{gate_pins, gate_says, lemma_gate_bits, lemma_names_apart};
use crate::list_laws::bit_of;
use crate::perm::{inverted, lemma_place, permuted, permutes, pin_minterm, place_of};
use crate::truth::{
    bit, gate_named, lemma_eq_by_bits, lemma_pack_bit, lemma_pow2_small, op_named,
    operator_is_named, pack, pow2, Op,
};

verus! {

/// Packing sets the bits that the property tells, and no others.
pub proof fn packing_sets_the_bits(n: nat, f: spec_fn(int) -> bool, i: u64)
    requires
        n <= 64,
        i < 64,
    ensures
        bit_of(pack(n, f), i) == (i < n && f(i as int)),
{
    lemma_pack_bit(n, f, i as int);
    assert(bit_of(pack(n, f), i) == bit(pack(n, f), i as int));
}

/// The tables of the gates are those of the Boolean functions of their names, and no other
/// name has one.
pub proof fn gates_have_their_tables(name: Seq<char>, m: u64)
    ensures
        gate_named(name) is Some <==> gate_pins(name) is Some,
        gate_named(name) matches Some(tt) ==> m < pow2(gate_pins(name)->0 as nat) ==> bit_of(tt, m)
            == gate_says(name, |p: int| bit_of(m, p as u64)),
{
    match op_named(name) {
        Some(o) => {
            assert(o.name() == name);
            lemma_names_apart(o);
            if o.is_gate() && m < pow2(o.pins()) {
                lemma_gate_bits(o, m);
            }
        },
        None => {
            operator_is_named(Op::Not);
            operator_is_named(Op::And);
            operator_is_named(Op::Or);
            operator_is_named(Op::Xor);
            operator_is_named(Op::Nand);
            operator_is_named(Op::Nor);
            operator_is_named(Op::Xnor);
            operator_is_named(Op::Aoi21);
            operator_is_named(Op::Oai21);
            operator_is_named(Op::Mux);
            operator_is_named(Op::Aoi22);
            operator_is_named(Op::Oai22);
        },
    }
}

/// The variant of a table in which variable `i` is pin `p[i]`: at minterm `m` it has what the
/// table has at the minterm `k` that gives pin `p[i]` the value of variable `i`.
pub proof fn permuting_renames_the_pins(tt: u64, n: nat, p: Seq<u8>, m: u64, k: u64)
    requires
        1 <= n <= 4,
        permutes(p, n),
        m < pow2(n),
        forall|i: int| 0 <= i < n ==> bit_of(k, #[trigger] p[i] as u64) == bit_of(m, i as u64),
        forall|j: u64| n <= j && j < 64 ==> !#[trigger] bit_of(k, j),
    ensures
        bit_of(permuted(tt, n, p), m) == bit_of(tt, k),
{
    lemma_pow2_small(n);
    let f = |x: int| bit(tt, pin_minterm(n, p, x as u64) as int);
    lemma_pack_bit(pow2(n), f, m as int);
    assert(bit_of(permuted(tt, n, p), m) == bit(permuted(tt, n, p), m as int));
    let w = pin_minterm(n, p, m);
    let g = |v: int| bit(m, place_of(p, n, v));
    assert forall|v: int| 0 <= v < 64 implies bit(w, v) == bit(k, v) by {
        lemma_pack_bit(n, g, v);
        assert(bit_of(k, v as u64) == bit(k, v));
        if v < n {
            lemma_place(p, n, v);
            let i = place_of(p, n, v);
            assert(bit_of(k, p[i] as u64) == bit_of(m, i as u64));
            assert(bit_of(m, i as u64) == bit(m, i));
        }
    }
    lemma_eq_by_bits(w, k);
    assert(bit_of(tt, k) == bit(tt, k as int));
}

/// The inverse of a pin order has each pin's place.
pub proof fn inverse_has_the_places(p: Seq<u8>, n: nat, i: int)
    requires
        n <= 4,
        permutes(p, n),
        0 <= i < n,
    ensures
        inverted(p, n).len() == 4,
        inverted(p, n)[p[i] as int] == i,
        p[inverted(p, n)[i] as int] == i,
{
    assert(p[i] < n);
    lemma_place(p, n, p[i] as int);
    lemma_place(p, n, i);
    let j = place_of(p, n, p[i] as int);
    assert(p[j] == p[i]);
    if i != j {
        assert(p[i] != p[j]);
    }
}

} // verus!
