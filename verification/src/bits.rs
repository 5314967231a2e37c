//! Bits, substring weights and Hamming distance of 128-bit words.
use vstd::prelude::*;

verus! {

/// Bit `i` of `x`, the lowest bit being bit 0.
pub open spec fn bit(x: u128, i: u32) -> bool {
    (x >> i) & 1 == 1
}

/// Number of ones of `x` at the positions `lo <= i < hi`.
pub open spec fn weight(x: u128, lo: nat, hi: nat) -> nat
    decreases hi,
{
    if hi <= lo {
        0
    } else {
        weight(x, lo, (hi - 1) as nat) + if bit(x, (hi - 1) as u32) {
            1nat
        } else {
            0nat
        }
    }
}

/// Number of ones of the whole word.
pub open spec fn ones(x: u128) -> nat {
    weight(x, 0, 128)
}

/// Hamming distance of two words.
pub open spec fn hamming(a: u128, b: u128) -> nat {
    ones(a ^ b)
}

/// The word whose lowest `c` bits are set, and no other.
pub open spec fn low_ones(c: u32) -> u128 {
    if c >= 128 {
        u128::MAX
    } else {
        ((1u128 << c) - 1) as u128
    }
}

/// `u128::count_ones` returns the number of ones in the binary representation.
pub assume_specification[ u128::count_ones ](x: u128) -> (r: u32)
    ensures
        r as nat == ones(x),
;

/// A bit of `a ^ b` is set where the bits of `a` and `b` differ.
pub proof fn lemma_bit_xor(a: u128, b: u128, i: u32)
    requires
        i < 128,
    ensures
        bit(a ^ b, i) == (bit(a, i) != bit(b, i)),
{
    assert(bit(a ^ b, i) == (bit(a, i) != bit(b, i))) by (bit_vector)
        requires
            i < 128,
    ;
}

/// A bit of `a | b` is set where the bit of `a` or that of `b` is.
pub proof fn lemma_bit_or(a: u128, b: u128, i: u32)
    requires
        i < 128,
    ensures
        bit(a | b, i) == (bit(a, i) || bit(b, i)),
{
    assert(bit(a | b, i) == (bit(a, i) || bit(b, i))) by (bit_vector)
        requires
            i < 128,
    ;
}

/// No bit of 0 is set.
pub proof fn lemma_bit_zero(i: u32)
    requires
        i < 128,
    ensures
        !bit(0, i),
{
    assert(!bit(0, i)) by (bit_vector)
        requires
            i < 128,
    ;
}

/// Bit `i` of `m << s` is bit `i - s` of `m`.
pub proof fn lemma_bit_shl(m: u128, s: u32, i: u32)
    requires
        s < 128,
        i < 128,
    ensures
        bit(m << s, i) == (s <= i && bit(m, (i - s) as u32)),
{
    assert(bit(m << s, i) == (s <= i && bit(m, (i - s) as u32))) by (bit_vector)
        requires
            s < 128,
            i < 128,
    ;
}

/// The ones of `low_ones(c)` are its lowest `c` bits.
pub proof fn lemma_bit_low_ones(c: u32, i: u32)
    requires
        c <= 128,
        i < 128,
    ensures
        bit(low_ones(c), i) == (i < c),
{
    assert(bit(low_ones(c), i) == (i < c)) by (bit_vector)
        requires
            c <= 128,
            i < 128,
    ;
}

/// The `w` bits of `x` from position `s` on, moved to the bottom.
pub proof fn lemma_bit_extract(x: u128, s: u32, w: u32, i: u32)
    requires
        s + w <= 128,
        s < 128,
        i < 128,
    ensures
        bit((x >> s) & low_ones(w), i) == (i < w && bit(x, (s + i) as u32)),
{
    assert(bit((x >> s) & low_ones(w), i) == (i < w && bit(x, (s + i) as u32))) by (bit_vector)
        requires
            s + w <= 128,
            s < 128,
            i < 128,
    ;
}

/// A range holds at most as many ones as it has positions.
pub proof fn lemma_weight_bound(x: u128, lo: nat, hi: nat)
    ensures
        weight(x, lo, hi) <= if hi >= lo {
            hi - lo
        } else {
            0
        },
    decreases hi,
{
    if hi > lo {
        lemma_weight_bound(x, lo, (hi - 1) as nat);
    }
}

/// The ones of a range are those of its two parts.
pub proof fn lemma_weight_split(x: u128, a: nat, b: nat, c: nat)
    requires
        a <= b <= c,
    ensures
        weight(x, a, c) == weight(x, a, b) + weight(x, b, c),
    decreases c,
{
    if c > b {
        lemma_weight_split(x, a, b, (c - 1) as nat);
    }
}

/// Two ranges of the same length that hold the same bits hold as many ones.
pub proof fn lemma_weight_moved(x: u128, a: nat, y: u128, b: nat, n: nat)
    requires
        a + n <= 128,
        b + n <= 128,
        forall|i: u32| b <= i < b + n ==> #[trigger] bit(y, i) == bit(x, (i - b + a) as u32),
    ensures
        weight(y, b, b + n) == weight(x, a, a + n),
    decreases n,
{
    if n > 0 {
        lemma_weight_moved(x, a, y, b, (n - 1) as nat);
        assert(bit(y, (b + n - 1) as u32) == bit(x, (a + n - 1) as u32));
    }
}

/// A range of `n` positions whose ones stand exactly at the offsets
/// `m <= t < k` holds `k - m` ones.
pub proof fn lemma_weight_band(x: u128, lo: nat, n: nat, m: nat, k: nat)
    requires
        lo + n <= 128,
        m <= k <= n,
        forall|i: u32| lo <= i < lo + n ==> #[trigger] bit(x, i) == (m <= i - lo < k),
    ensures
        weight(x, lo, lo + n) == k - m,
    decreases n,
{
    if n > 0 {
        let k1 = if k < n { k } else { (n - 1) as nat };
        let m1 = if m < n { m } else { (n - 1) as nat };
        lemma_weight_band(x, lo, (n - 1) as nat, m1, k1);
        assert(bit(x, (lo + n - 1) as u32) == (m <= n - 1 < k));
    }
}

/// The distance of two words is the number of positions at which they differ.
pub proof fn lemma_hamming_bound(a: u128, b: u128)
    ensures
        hamming(a, b) <= 128,
{
    lemma_weight_bound(a ^ b, 0, 128);
}

/// The Hamming distance of `a` and `b`.
pub fn distance(a: u128, b: u128) -> (d: u32)
    ensures
        d as nat == hamming(a, b),
        d <= 128,
{
    proof {
        lemma_hamming_bound(a, b);
    }
    (a ^ b).count_ones()
}

/// A bit of `a & b` is set where the bits of both are.
pub proof fn lemma_bit_and(a: u128, b: u128, i: u32)
    requires
        i < 128,
    ensures
        bit(a & b, i) == (bit(a, i) && bit(b, i)),
{
    assert(bit(a & b, i) == (bit(a, i) && bit(b, i))) by (bit_vector)
        requires
            i < 128,
    ;
}

/// Bit `i` of `x >> s` is bit `i + s` of `x`.
pub proof fn lemma_bit_shr(x: u128, s: u32, i: u32)
    requires
        s < 128,
        i < 128,
    ensures
        bit(x >> s, i) == (i + s < 128 && bit(x, (i + s) as u32)),
{
    assert(bit(x >> s, i) == (i + s < 128 && bit(x, (i + s) as u32))) by (bit_vector)
        requires
            s < 128,
            i < 128,
    ;
}

/// Two words that agree in their lowest `n` bits agree under the mask of
/// those bits.
pub proof fn lemma_same_low_bits(a: u128, b: u128, n: u32)
    requires
        n <= 128,
        forall|i: u32| i < n ==> bit(a, i) == bit(b, i),
    ensures
        a & low_ones(n) == b & low_ones(n),
    decreases n,
{
    if n == 0 {
        assert(a & low_ones(0) == b & low_ones(0)) by (bit_vector);
    } else {
        let m = (n - 1) as u32;
        lemma_same_low_bits(a, b, m);
        assert(bit(a, m) == bit(b, m));
        assert(a & low_ones(n) == b & low_ones(n)) by (bit_vector)
            requires
                a & low_ones(m) == b & low_ones(m),
                bit(a, m) == bit(b, m),
                m + 1 == n,
                n <= 128,
        ;
    }
}

/// Two words with the same bits are one word.
pub proof fn lemma_same_bits(a: u128, b: u128)
    requires
        forall|i: u32| i < 128 ==> bit(a, i) == bit(b, i),
    ensures
        a == b,
{
    lemma_same_low_bits(a, b, 128);
    assert(a & low_ones(128) == a) by (bit_vector);
    assert(b & low_ones(128) == b) by (bit_vector);
}

/// A bit of `!a` is set where the bit of `a` is not.
pub proof fn lemma_bit_not(a: u128, i: u32)
    requires
        i < 128,
    ensures
        bit(!a, i) == !bit(a, i),
{
    assert(bit(!a, i) == !bit(a, i)) by (bit_vector)
        requires
            i < 128,
    ;
}

/// Taking away a word whose ones are all ones of the other borrows nothing:
/// it clears those ones.
pub proof fn lemma_sub_clears(a: u128, b: u128)
    requires
        b & !a == 0,
    ensures
        a >= b,
        (a - b) as u128 == a & !b,
{
    assert(a >= b && (a - b) as u128 == a & !b) by (bit_vector)
        requires
            b & !a == 0,
    ;
}

} // verus!
