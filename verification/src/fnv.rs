//! 64-bit FNV-1a hashing.
use vstd::prelude::*;

verus! {

/// Initial hash.
pub const FNV_OFFSET: u64 = 0xcbf2_9ce4_8422_2325;

/// Multiplier.
pub const FNV_PRIME: u64 = 0x0000_0100_0000_01b3;

/// Hash after one more byte.
pub open spec fn fnv_byte(h: u64, b: u64) -> u64 {
    (h ^ b).wrapping_mul(FNV_PRIME)
}

/// Byte `i` of `w`, the lowest first.
pub open spec fn low_byte(w: u64, i: u64) -> u64 {
    (w >> ((8 * i) as u64)) & 0xff
}

/// Hash after the `n` lowest bytes of `w`, the lowest first.
pub open spec fn fnv_low(h: u64, w: u64, n: nat) -> u64
    decreases n,
{
    if n == 0 {
        h
    } else {
        fnv_byte(fnv_low(h, w, (n - 1) as nat), low_byte(w, (n - 1) as u64))
    }
}

/// Hash of a sequence of 32-bit words, each as four bytes.
pub open spec fn fnv_words(s: Seq<u32>) -> u64
    decreases s.len(),
{
    if s.len() == 0 {
        FNV_OFFSET
    } else {
        fnv_low(fnv_words(s.drop_last()), s.last() as u64, 4)
    }
}

/// Hash after a sequence of bytes.
pub open spec fn fnv_seq(h: u64, s: Seq<u8>) -> u64
    decreases s.len(),
{
    if s.len() == 0 {
        h
    } else {
        fnv_byte(fnv_seq(h, s.drop_last()), s.last() as u64)
    }
}

fn mix_low(h: u64, w: u64, n: u64) -> (r: u64)
    requires
        n <= 8,
    ensures
        r == fnv_low(h, w, n as nat),
{
    let mut r: u64 = h;
    let mut i: u64 = 0;
    while i < n
        invariant
            i <= n <= 8,
            r == fnv_low(h, w, i as nat),
        decreases n - i,
    {
        let b: u64 = (w >> (8 * i)) & 0xff;
        r = (r ^ b).wrapping_mul(FNV_PRIME);
        i = i + 1;
    }
    r
}

/// Hash of a leaf list.
pub fn fnv_leaves(leaves: &Vec<u32>) -> (h: u64)
    ensures
        h == fnv_words(leaves@),
{
    let mut h: u64 = FNV_OFFSET;
    let mut i: usize = 0;
    while i < leaves.len()
        invariant
            i <= leaves@.len(),
            h == fnv_words(leaves@.take(i as int)),
        decreases leaves@.len() - i,
    {
        assert(leaves@.take(i + 1).drop_last() =~= leaves@.take(i as int));
        h = mix_low(h, leaves[i] as u64, 4);
        i = i + 1;
    }
    assert(leaves@.take(i as int) =~= leaves@);
    h
}

/// Hash of a cell's inputs, in pin order.
pub fn fnv_inputs(inputs: &Vec<u32>) -> (h: u64)
    ensures
        h == fnv_words(inputs@),
{
    fnv_leaves(inputs)
}

/// Hash after a slice of bytes.
pub fn fnv_bytes(h: u64, bytes: &[u8]) -> (r: u64)
    ensures
        r == fnv_seq(h, bytes@),
{
    let mut r: u64 = h;
    let mut i: usize = 0;
    while i < bytes.len()
        invariant
            i <= bytes@.len(),
            r == fnv_seq(h, bytes@.take(i as int)),
        decreases bytes@.len() - i,
    {
        assert(bytes@.take(i + 1).drop_last() =~= bytes@.take(i as int));
        r = (r ^ (bytes[i] as u64)).wrapping_mul(FNV_PRIME);
        i = i + 1;
    }
    assert(bytes@.take(i as int) =~= bytes@);
    r
}

/// Hash after a 64-bit word, as eight bytes.
pub fn fnv_mix_u64(h: u64, w: u64) -> (r: u64)
    ensures
        r == fnv_low(h, w, 8),
{
    mix_low(h, w, 8)
}

} // verus!
