//! Truth tables as 64-bit masks.
//!
//! A function over `n` variables is a mask whose bit `m` is the value at the
//! minterm where pin `i` equals bit `i` of `m`.
use vstd::prelude::*;

verus! {

/// Bit `i` of `x`, for `i` below 64.
pub open spec fn bit(x: u64, i: int) -> bool {
    (x >> (i as u64)) & 1u64 == 1u64
}

/// The mask whose bit `i`, for `i` below `n`, is `f(i)`; every other bit is clear.
pub open spec fn pack(n: nat, f: spec_fn(int) -> bool) -> u64
    decreases n,
{
    if n == 0 {
        0
    } else if f(n - 1) {
        pack((n - 1) as nat, f) | (1u64 << ((n - 1) as u64))
    } else {
        pack((n - 1) as nat, f)
    }
}

/// `2^n`.
pub open spec fn pow2(n: nat) -> nat
    decreases n,
{
    if n == 0 {
        1
    } else {
        2 * pow2((n - 1) as nat)
    }
}

proof fn lemma_or_bit(x: u64, n: u64, i: u64)
    by (bit_vector)
    requires
        n < 64,
        i < 64,
    ensures
        ((x | (1u64 << n)) >> i) & 1u64 == 1u64 <==> ((x >> i) & 1u64 == 1u64 || i == n),
{
}

proof fn lemma_zero_bit(i: u64)
    by (bit_vector)
    requires
        i < 64,
    ensures
        (0u64 >> i) & 1u64 == 0u64,
{
}

/// The bits of a packed mask are those of the packed predicate.
pub(crate) proof fn lemma_pack_bit(n: nat, f: spec_fn(int) -> bool, i: int)
    requires
        n <= 64,
        0 <= i < 64,
    ensures
        bit(pack(n, f), i) == (i < n && f(i)),
    decreases n,
{
    if n == 0 {
        lemma_zero_bit(i as u64);
    } else {
        lemma_pack_bit((n - 1) as nat, f, i);
        if f(n - 1) {
            lemma_or_bit(pack((n - 1) as nat, f), (n - 1) as u64, i as u64);
        }
    }
}

proof fn lemma_low_bits_equal(x: u64, y: u64, n: u64)
    requires
        n <= 64,
        forall|i: int| 0 <= i < n ==> bit(x, i) == bit(y, i),
    ensures
        n < 64 ==> x & (((1u64 << n) - 1) as u64) == y & (((1u64 << n) - 1) as u64),
        n == 64 ==> x == y,
    decreases n,
{
    if n == 0 {
        assert(x & (((1u64 << 0u64) - 1) as u64) == y & (((1u64 << 0u64) - 1) as u64)) by (bit_vector);
    } else {
        let m = (n - 1) as u64;
        lemma_low_bits_equal(x, y, m);
        assert(bit(x, m as int) == bit(y, m as int));
        assert((n < 64 ==> x & (((1u64 << n) - 1) as u64) == y & (((1u64 << n) - 1) as u64)) && (n == 64
            ==> x == y)) by (bit_vector)
            requires
                n == m + 1,
                m < 64,
                x & (((1u64 << m) - 1) as u64) == y & (((1u64 << m) - 1) as u64),
                ((x >> m) & 1u64 == 1u64) == ((y >> m) & 1u64 == 1u64),
        ;
    }
}

/// Masks with the same 64 bits are equal.
pub(crate) proof fn lemma_eq_by_bits(x: u64, y: u64)
    requires
        forall|i: int| 0 <= i < 64 ==> bit(x, i) == bit(y, i),
    ensures
        x == y,
{
    lemma_low_bits_equal(x, y, 64);
}

/// Packing depends only on the predicate's values below `n`.
pub(crate) proof fn lemma_pack_ext(n: nat, f: spec_fn(int) -> bool, g: spec_fn(int) -> bool)
    requires
        forall|i: int| 0 <= i < n ==> #[trigger] f(i) == #[trigger] g(i),
    ensures
        pack(n, f) == pack(n, g),
    decreases n,
{
    if n > 0 {
        lemma_pack_ext((n - 1) as nat, f, g);
    }
}

proof fn lemma_or_bound(x: u64, n: u64)
    by (bit_vector)
    requires
        n < 63,
        x < (1u64 << n),
    ensures
        x < (1u64 << ((n + 1) as u64)),
        (x | (1u64 << n)) < (1u64 << ((n + 1) as u64)),
{
}

proof fn lemma_pack_shift_bound(n: nat, f: spec_fn(int) -> bool)
    requires
        n < 64,
    ensures
        pack(n, f) < (1u64 << (n as u64)),
    decreases n,
{
    if n == 0 {
        assert(0u64 < (1u64 << 0u64)) by (bit_vector);
    } else {
        lemma_pack_shift_bound((n - 1) as nat, f);
        lemma_or_bound(pack((n - 1) as nat, f), (n - 1) as u64);
    }
}

/// `1 << n` is `2^n`.
pub(crate) proof fn lemma_shift_is_pow2(n: nat)
    requires
        n < 64,
    ensures
        (1u64 << (n as u64)) == pow2(n),
    decreases n,
{
    if n == 0 {
        assert(1u64 << 0u64 == 1u64) by (bit_vector);
    } else {
        lemma_shift_is_pow2((n - 1) as nat);
        let m = (n - 1) as u64;
        assert(1u64 << ((m + 1) as u64) == 2 * (1u64 << m)) by (bit_vector)
            requires
                m < 63,
        ;
    }
}

/// A packed mask of fewer than 64 bits lies below `2^n`.
pub(crate) proof fn lemma_pack_bound(n: nat, f: spec_fn(int) -> bool)
    requires
        n < 64,
    ensures
        pack(n, f) < pow2(n),
{
    lemma_pack_shift_bound(n, f);
    lemma_shift_is_pow2(n);
}

proof fn lemma_high_bit(m: u64, n: u64, i: u64)
    by (bit_vector)
    requires
        n < 64,
        i < 64,
        n <= i,
        m < (1u64 << n),
    ensures
        (m >> i) & 1u64 == 0u64,
{
}

/// A number below `2^n` is made of its first `n` bits.
pub(crate) proof fn lemma_pack_own_bits(n: nat, m: u64)
    requires
        n < 64,
        m < pow2(n),
    ensures
        pack(n, |i: int| bit(m, i)) == m,
{
    lemma_shift_is_pow2(n);
    let f = |i: int| bit(m, i);
    assert forall|i: int| 0 <= i < 64 implies bit(pack(n, f), i) == bit(m, i) by {
        lemma_pack_bit(n, f, i);
        if i >= n {
            lemma_high_bit(m, n as u64, i as u64);
        }
    }
    lemma_eq_by_bits(pack(n, f), m);
}

/// The table of a single variable gives back the variable.
pub(crate) proof fn lemma_single(f: spec_fn(int) -> bool)
    ensures
        bit(2, pack(1, f) as int) == f(0),
{
    reveal_with_fuel(pack, 2);
    assert(0u64 | (1u64 << 0u64) == 1u64) by (bit_vector);
    assert((2u64 >> 0u64) & 1u64 == 0u64 && (2u64 >> 1u64) & 1u64 == 1u64) by (bit_vector);
}

/// `2^n` grows with `n`.
pub(crate) proof fn lemma_pow2_mono(a: nat, b: nat)
    requires
        a <= b,
    ensures
        1 <= pow2(a) <= pow2(b),
    decreases b,
{
    if b > 0 {
        if a < b {
            lemma_pow2_mono(a, (b - 1) as nat);
        } else {
            lemma_pow2_mono((a - 1) as nat, (b - 1) as nat);
        }
    }
}

/// `2^6` is 64: minterms over at most six variables index a 64-bit mask.
pub(crate) proof fn lemma_pow2_small(n: nat)
    requires
        n <= 6,
    ensures
        1 <= pow2(n) <= 64,
        n <= 5 ==> pow2(n) <= 32,
        n <= 4 ==> pow2(n) <= 16,
{
    reveal_with_fuel(pow2, 7);
}

/// Sets bit `i` of `x` when `b` holds.
pub(crate) fn with_bit(x: u64, i: u64, b: bool) -> (r: u64)
    requires
        i < 64,
    ensures
        r == if b {
            x | (1u64 << i)
        } else {
            x
        },
{
    if b {
        x | (1u64 << i)
    } else {
        x
    }
}

/// Bit `i` of `x`.
pub(crate) fn get_bit(x: u64, i: u64) -> (r: bool)
    requires
        i < 64,
    ensures
        r == bit(x, i as int),
{
    (x >> i) & 1 == 1
}

/// Number of minterms over `n` variables.
pub(crate) fn minterms(n: usize) -> (r: u64)
    requires
        n <= 6,
    ensures
        r == pow2(n as nat),
        1 <= r <= 64,
{
    proof {
        lemma_shift_is_pow2(n as nat);
        lemma_pow2_small(n as nat);
    }
    1u64 << (n as u64)
}

/// Truth table of variable `i` over `n` variables.
pub fn var_mask(i: usize, n: usize) -> (m: u64)
    requires
        i < 64,
        n <= 6,
    ensures
        m == pack(pow2(n as nat), |k: int| bit(k as u64, i as int)),
        forall|k: u64|
            k < 64 ==> ((#[trigger] (m >> k)) & 1u64 == 1u64 <==> k < pow2(n as nat) && (k >> (
            i as u64)) & 1u64 == 1u64),
{
    let total: u64 = minterms(n);
    let mut m: u64 = 0;
    let mut idx: u64 = 0;
    let ghost f = |k: int| bit(k as u64, i as int);
    while idx < total
        invariant
            idx <= total <= 64,
            i < 64,
            f == (|k: int| bit(k as u64, i as int)),
            m == pack(idx as nat, f),
        decreases total - idx,
    {
        let b: bool = get_bit(idx, i as u64);
        assert(b == f(idx as int));
        m = with_bit(m, idx, b);
        idx = idx + 1;
    }
    proof {
        lemma_pow2_small(n as nat);
        assert forall|k: u64| k < 64 implies ((#[trigger] (m >> k)) & 1u64 == 1u64 <==> k < pow2(
            n as nat,
        ) && (k >> (i as u64)) & 1u64 == 1u64) by {
            lemma_pack_bit(pow2(n as nat), f, k as int);
            assert(bit(m, k as int) == ((m >> k) & 1u64 == 1u64));
        }
    }
    m
}

/// Truth table of the constant one over `n` variables.
///
/// For six variables, and for `n` of 64 and more, that is the whole word.
pub fn full(n: usize) -> (m: u64)
    requires
        n <= 6 || n >= 64,
    ensures
        n <= 6 ==> m == pack(pow2(n as nat), |k: int| true),
        n == 6 || n >= 64 ==> m == u64::MAX,
        n < 6 ==> m + 1 == (1u64 << (pow2(n as nat) as u64)),
{
    if n >= 6 {
        proof {
            let f = |k: int| true;
            reveal_with_fuel(pow2, 7);
            assert forall|i: int| 0 <= i < 64 implies bit(u64::MAX, i) == bit(pack(64, f), i) by {
                lemma_pack_bit(64, f, i);
                let j = i as u64;
                assert((0xffff_ffff_ffff_ffffu64 >> j) & 1u64 == 1u64) by (bit_vector)
                    requires
                        j < 64,
                ;
            }
            lemma_eq_by_bits(u64::MAX, pack(64, f));
        }
        u64::MAX
    } else {
        let w: u64 = minterms(n);
        proof {
            lemma_pow2_small(n as nat);
            let f = |k: int| true;
            assert(1u64 << w >= 1u64) by (bit_vector)
                requires
                    w <= 32,
            ;
            let r = ((1u64 << w) - 1) as u64;
            assert forall|i: int| 0 <= i < 64 implies bit(r, i) == bit(
                pack(pow2(n as nat), f),
                i,
            ) by {
                lemma_pack_bit(pow2(n as nat), f, i);
                let j = i as u64;
                assert(((((1u64 << w) - 1) as u64) >> j) & 1u64 == 1u64 <==> j < w) by (bit_vector)
                    requires
                        w <= 32,
                        j < 64,
                ;
            }
            lemma_eq_by_bits(r, pack(pow2(n as nat), f));
        }
        (1u64 << w) - 1
    }
}

/// Complement of a truth table over `n` variables.
pub fn not_(tt: u64, n: usize) -> (m: u64)
    requires
        n <= 6,
    ensures
        m == pack(pow2(n as nat), |k: int| !bit(tt, k)),
        forall|k: u64|
            k < 64 ==> ((#[trigger] (m >> k)) & 1u64 == 1u64 <==> k < pow2(n as nat) && (tt >> k)
                & 1u64 == 0u64),
{
    let f: u64 = full(n);
    proof {
        let one = |k: int| true;
        let g = |k: int| !bit(tt, k);
        let r = !tt & f;
        lemma_pow2_small(n as nat);
        assert forall|i: int| 0 <= i < 64 implies bit(r, i) == bit(pack(pow2(n as nat), g), i) by {
            lemma_pack_bit(pow2(n as nat), g, i);
            lemma_pack_bit(pow2(n as nat), one, i);
            let j = i as u64;
            assert(((!tt & f) >> j) & 1u64 == 1u64 <==> ((f >> j) & 1u64 == 1u64 && !((tt >> j)
                & 1u64 == 1u64))) by (bit_vector)
                requires
                    j < 64,
            ;
        }
        lemma_eq_by_bits(r, pack(pow2(n as nat), g));
        assert forall|k: u64| k < 64 implies ((#[trigger] (r >> k)) & 1u64 == 1u64 <==> k < pow2(
            n as nat,
        ) && (tt >> k) & 1u64 == 0u64) by {
            lemma_pack_bit(pow2(n as nat), g, k as int);
            assert(bit(r, k as int) == ((r >> k) & 1u64 == 1u64));
            assert((tt >> k) & 1u64 == 0u64 || (tt >> k) & 1u64 == 1u64) by (bit_vector);
        }
    }
    !tt & f
}

/// Bits of the bitwise connectives.
pub(crate) proof fn lemma_connectives(x: u64, y: u64, i: int)
    requires
        0 <= i < 64,
    ensures
        bit(x & y, i) == (bit(x, i) && bit(y, i)),
        bit(x | y, i) == (bit(x, i) || bit(y, i)),
        bit(x ^ y, i) == (bit(x, i) != bit(y, i)),
{
    let j = i as u64;
    assert(((x & y) >> j) & 1u64 == 1u64 <==> ((x >> j) & 1u64 == 1u64 && (y >> j) & 1u64 == 1u64))
        by (bit_vector);
    assert(((x | y) >> j) & 1u64 == 1u64 <==> ((x >> j) & 1u64 == 1u64 || (y >> j) & 1u64 == 1u64))
        by (bit_vector);
    assert((((x ^ y) >> j) & 1u64 == 1u64) == (((x >> j) & 1u64 == 1u64) != ((y >> j) & 1u64
        == 1u64))) by (bit_vector);
}

/// A mask whose bits are those of `f` below `n`, and clear above, is the packed mask.
pub(crate) proof fn lemma_is_pack(x: u64, n: nat, f: spec_fn(int) -> bool)
    requires
        n <= 64,
        forall|i: int| 0 <= i < 64 ==> #[trigger] bit(x, i) == (i < n && f(i)),
    ensures
        x == pack(n, f),
{
    assert forall|i: int| 0 <= i < 64 implies bit(x, i) == bit(pack(n, f), i) by {
        lemma_pack_bit(n, f, i);
    }
    lemma_eq_by_bits(x, pack(n, f));
}

/// Bits of a variable's truth table.
pub(crate) proof fn lemma_var_bit(i: int, n: nat, m: int)
    requires
        0 <= m < 64,
        n <= 6,
    ensures
        bit(pack(pow2(n), |k: int| bit(k as u64, i)), m) == (m < pow2(n) && bit(m as u64, i)),
{
    lemma_pow2_small(n);
    lemma_pack_bit(pow2(n), |k: int| bit(k as u64, i), m);
}

/// Equality of string slices.
pub(crate) fn same_str(a: &str, b: &str) -> (r: bool)
    ensures
        r == (a@ == b@),
{
    a.to_owned() == b.to_owned()
}

/// The operators a constructor can stand for.
#[derive(Clone, Copy, Debug, PartialEq, Eq, Structural)]
pub enum Op {
    Var,
    Zero,
    One,
    Not,
    And,
    Or,
    Xor,
    Nand,
    Nor,
    Xnor,
    Aoi21,
    Oai21,
    Mux,
    Aoi22,
    Oai22,
}

impl Op {
    /// The operator's name.
    pub open spec fn name(self) -> Seq<char> {
        match self {
            Op::Var => "var"@,
            Op::Zero => "zero"@,
            Op::One => "one"@,
            Op::Not => "not"@,
            Op::And => "and"@,
            Op::Or => "or"@,
            Op::Xor => "xor"@,
            Op::Nand => "nand"@,
            Op::Nor => "nor"@,
            Op::Xnor => "xnor"@,
            Op::Aoi21 => "aoi21"@,
            Op::Oai21 => "oai21"@,
            Op::Mux => "mux"@,
            Op::Aoi22 => "aoi22"@,
            Op::Oai22 => "oai22"@,
        }
    }

    /// Number of children of the operator.
    pub open spec fn pins(self) -> nat {
        match self {
            Op::Zero | Op::One => 0,
            Op::Var | Op::Not => 1,
            Op::And | Op::Or | Op::Xor | Op::Nand | Op::Nor | Op::Xnor => 2,
            Op::Aoi21 | Op::Oai21 | Op::Mux => 3,
            Op::Aoi22 | Op::Oai22 => 4,
        }
    }

    /// Whether the operator is a gate: a Boolean function of its children.
    pub open spec fn is_gate(self) -> bool {
        self != Op::Var && self != Op::Zero && self != Op::One
    }

    /// Value of a gate at minterm `m`, where pin `i` is bit `i` of `m`.
    pub open spec fn value(self, m: u64) -> bool {
        let p = |i: int| bit(m, i);
        match self {
            Op::Not => !p(0),
            Op::And => p(0) && p(1),
            Op::Or => p(0) || p(1),
            Op::Xor => p(0) != p(1),
            Op::Nand => !(p(0) && p(1)),
            Op::Nor => !(p(0) || p(1)),
            Op::Xnor => p(0) == p(1),
            Op::Aoi21 => !((p(0) && p(1)) || p(2)),
            Op::Oai21 => !((p(0) || p(1)) && p(2)),
            Op::Mux => if p(0) {
                p(1)
            } else {
                p(2)
            },
            Op::Aoi22 => !((p(0) && p(1)) || (p(2) && p(3))),
            Op::Oai22 => !((p(0) || p(1)) && (p(2) || p(3))),
            Op::Var | Op::Zero | Op::One => false,
        }
    }

    /// Truth table of a gate over its own pins.
    pub open spec fn table(self) -> u64 {
        pack(pow2(self.pins()), |m: int| self.value(m as u64))
    }

    /// The operator with the given name.
    pub fn parse(name: &str) -> (r: Option<Op>)
        ensures
            r == op_named(name@),
    {
        let r: Option<Op> = Op::find(name);
        proof {
            if r is Some {
                assert forall|o: Op| #[trigger] o.name() == name@ implies o == r->0 by {
                    operator_names_are_distinct(o, r->0);
                }
            }
        }
        r
    }

    fn find(name: &str) -> (r: Option<Op>)
        ensures
            r matches Some(op) ==> op.name() == name@,
            r is None ==> forall|op: Op| #[trigger] op.name() != name@,
    {
        if same_str(name, "var") {
            Some(Op::Var)
        } else if same_str(name, "zero") {
            Some(Op::Zero)
        } else if same_str(name, "one") {
            Some(Op::One)
        } else if same_str(name, "not") {
            Some(Op::Not)
        } else if same_str(name, "and") {
            Some(Op::And)
        } else if same_str(name, "or") {
            Some(Op::Or)
        } else if same_str(name, "xor") {
            Some(Op::Xor)
        } else if same_str(name, "nand") {
            Some(Op::Nand)
        } else if same_str(name, "nor") {
            Some(Op::Nor)
        } else if same_str(name, "xnor") {
            Some(Op::Xnor)
        } else if same_str(name, "aoi21") {
            Some(Op::Aoi21)
        } else if same_str(name, "oai21") {
            Some(Op::Oai21)
        } else if same_str(name, "mux") {
            Some(Op::Mux)
        } else if same_str(name, "aoi22") {
            Some(Op::Aoi22)
        } else if same_str(name, "oai22") {
            Some(Op::Oai22)
        } else {
            None
        }
    }

    /// Truth table of a gate over its own pins.
    pub fn gate_table(self) -> (tt: u64)
        requires
            self.is_gate(),
        ensures
            tt == self.table(),
    {
        let a: u64 = var_mask(0, 2);
        let b: u64 = var_mask(1, 2);
        let a3: u64 = var_mask(0, 3);
        let b3: u64 = var_mask(1, 3);
        let c3: u64 = var_mask(2, 3);
        let a4: u64 = var_mask(0, 4);
        let b4: u64 = var_mask(1, 4);
        let c4: u64 = var_mask(2, 4);
        let d4: u64 = var_mask(3, 4);
        let tt: u64 = match self {
            Op::Not => not_(var_mask(0, 1), 1),
            Op::And => a & b,
            Op::Or => a | b,
            Op::Xor => a ^ b,
            Op::Nand => not_(a & b, 2),
            Op::Nor => not_(a | b, 2),
            Op::Xnor => not_(a ^ b, 2),
            // !((a & b) | c)
            Op::Aoi21 => not_((a3 & b3) | c3, 3),
            // !((a & b) | (c & d))
            Op::Aoi22 => not_((a4 & b4) | (c4 & d4), 4),
            // !((a | b) & c)
            Op::Oai21 => not_((a3 | b3) & c3, 3),
            // !((a | b) & (c | d))
            Op::Oai22 => not_((a4 | b4) & (c4 | d4), 4),
            // (s & a) | (!s & b)
            Op::Mux => (a3 & b3) | (not_(a3, 3) & c3),
            _ => 0,
        };
        proof {
            let n = self.pins();
            lemma_pow2_small(n);
            let f = |m: int| self.value(m as u64);
            assert forall|m: int| 0 <= m < 64 implies #[trigger] bit(tt, m) == (m < pow2(n) && f(
                m,
            )) by {
                lemma_var_bit(0, 1, m);
                lemma_var_bit(0, 2, m);
                lemma_var_bit(1, 2, m);
                lemma_var_bit(0, 3, m);
                lemma_var_bit(1, 3, m);
                lemma_var_bit(2, 3, m);
                lemma_var_bit(0, 4, m);
                lemma_var_bit(1, 4, m);
                lemma_var_bit(2, 4, m);
                lemma_var_bit(3, 4, m);
                lemma_connectives(a, b, m);
                lemma_connectives(a3, b3, m);
                lemma_connectives(a3 & b3, c3, m);
                lemma_connectives(a3 | b3, c3, m);
                lemma_connectives(a4, b4, m);
                lemma_connectives(c4, d4, m);
                lemma_connectives(a4 & b4, c4 & d4, m);
                lemma_connectives(a4 | b4, c4 | d4, m);
                let na3 = pack(pow2(3), |k: int| !bit(a3, k));
                lemma_connectives(na3, c3, m);
                lemma_connectives(a3 & b3, na3 & c3, m);
                lemma_pow2_small(3);
                lemma_pack_bit(pow2(3), |k: int| !bit(a3, k), m);
                match self {
                    Op::Not => {
                        lemma_pack_bit(pow2(1), |k: int| !bit(pack(pow2(1), |k: int| bit(k as u64, 0)), k), m);
                    },
                    Op::Nand => {
                        lemma_pack_bit(pow2(2), |k: int| !bit(a & b, k), m);
                    },
                    Op::Nor => {
                        lemma_pack_bit(pow2(2), |k: int| !bit(a | b, k), m);
                    },
                    Op::Xnor => {
                        lemma_pack_bit(pow2(2), |k: int| !bit(a ^ b, k), m);
                    },
                    Op::Aoi21 => {
                        lemma_pack_bit(pow2(3), |k: int| !bit((a3 & b3) | c3, k), m);
                    },
                    Op::Oai21 => {
                        lemma_pack_bit(pow2(3), |k: int| !bit((a3 | b3) & c3, k), m);
                    },
                    Op::Aoi22 => {
                        lemma_pow2_small(4);
                        lemma_pack_bit(pow2(4), |k: int| !bit((a4 & b4) | (c4 & d4), k), m);
                    },
                    Op::Oai22 => {
                        lemma_pow2_small(4);
                        lemma_pack_bit(pow2(4), |k: int| !bit((a4 | b4) & (c4 | d4), k), m);
                    },
                    _ => {},
                }
            }
            lemma_is_pack(tt, pow2(n), f);
        }
        tt
    }

    /// Number of children of the operator.
    pub fn arity(self) -> (n: usize)
        ensures
            n == self.pins(),
            n <= 4,
    {
        match self {
            Op::Zero | Op::One => 0,
            Op::Var | Op::Not => 1,
            Op::And | Op::Or | Op::Xor | Op::Nand | Op::Nor | Op::Xnor => 2,
            Op::Aoi21 | Op::Oai21 | Op::Mux => 3,
            Op::Aoi22 | Op::Oai22 => 4,
        }
    }
}

/// Distinct operators have distinct names.
pub proof fn operator_names_are_distinct(x: Op, y: Op)
    requires
        x.name() == y.name(),
    ensures
        x == y,
{
    reveal_strlit("var");
    reveal_strlit("zero");
    reveal_strlit("one");
    reveal_strlit("not");
    reveal_strlit("and");
    reveal_strlit("or");
    reveal_strlit("xor");
    reveal_strlit("nand");
    reveal_strlit("nor");
    reveal_strlit("xnor");
    reveal_strlit("aoi21");
    reveal_strlit("oai21");
    reveal_strlit("mux");
    reveal_strlit("aoi22");
    reveal_strlit("oai22");
    let n = x.name();
    let m = y.name();
    assert(n.len() == m.len());
    assert(n[0] == m[0] && n[2] == m[2] && n[4] == m[4]);
}

/// The operator with the given name.
pub open spec fn op_named(name: Seq<char>) -> Option<Op> {
    if exists|o: Op| #[trigger] o.name() == name {
        Some(choose|o: Op| #[trigger] o.name() == name)
    } else {
        None
    }
}

/// Every operator is found under its own name.
pub proof fn operator_is_named(o: Op)
    ensures
        op_named(o.name()) == Some(o),
{
    let p = choose|p: Op| #[trigger] p.name() == o.name();
    operator_names_are_distinct(o, p);
}

/// Number of children of the named operator.
pub fn op_arity(op: &str) -> (r: Option<usize>)
    ensures
        r == (match op_named(op@) {
            Some(o) => Some(o.pins() as usize),
            None => None,
        }),
{
    match Op::parse(op) {
        Some(o) => Some(o.arity()),
        None => None,
    }
}

/// Truth table of the operator with the given name, over its own inputs.
pub open spec fn gate_named(name: Seq<char>) -> Option<u64> {
    match op_named(name) {
        Some(o) => if o.is_gate() {
            Some(o.table())
        } else {
            None
        },
        None => None,
    }
}

/// Truth table of the named gate over its own inputs, input `i` being bit `i` of the
/// minterm index; `None` for a name that is no gate.
pub fn op_tt(op: &str) -> (r: Option<u64>)
    ensures
        r == gate_named(op@),
{
    match Op::parse(op) {
        Some(o) => match o {
            Op::Var | Op::Zero | Op::One => None,
            _ => Some(o.gate_table()),
        },
        None => None,
    }
}

/// The name asked for is that of no gate.
#[derive(Clone, Copy, Debug, PartialEq, Eq, Structural)]
pub struct UnknownOperator;

/// Truth table of the named gate over its own inputs.
pub fn op_truth_table(op: &str) -> (r: Result<u64, UnknownOperator>)
    ensures
        r == (match gate_named(op@) {
            Some(tt) => Ok::<u64, UnknownOperator>(tt),
            None => Err(UnknownOperator),
        }),
{
    match op_tt(op) {
        Some(tt) => Ok(tt),
        None => Err(UnknownOperator),
    }
}

} // verus!
