//! The eight index words of a feature.
use crate::bits::{
    bit, lemma_bit_extract, lemma_weight_band, lemma_weight_bound, lemma_weight_moved,
    lemma_weight_split, low_ones, ones, weight,
};
use crate::chf::{chf, lemma_repack, lemma_steps_pop, lemma_steps_width, pack_from, steps};
use vstd::prelude::*;

verus! {

/// The word whose lowest `c` bits are set.
pub fn low_mask(c: u32) -> (m: u128)
    requires
        c <= 128,
    ensures
        m == low_ones(c),
{
    if c >= 128 {
        u128::MAX
    } else {
        assert((1u128 << c) >= 1) by (bit_vector)
            requires
                c < 128,
        ;
        (1u128 << c) - 1
    }
}

/// The ones of the `w` bits of `x` from position `lo` on.
pub fn field_weight(x: u128, lo: u32, w: u32) -> (c: u32)
    requires
        lo + w <= 128,
        lo < 128,
    ensures
        c == weight(x, lo as nat, (lo + w) as nat),
        c <= w,
{
    let field: u128 = (x >> lo) & low_mask(w);
    proof {
        assert forall|i: u32| 0 <= i < 0 + w implies #[trigger] bit(field, i) == bit(
            x,
            (i - 0 + lo) as u32,
        ) by {
            lemma_bit_extract(x, lo, w, i);
        }
        lemma_weight_moved(x, lo as nat, field, 0, w as nat);
        assert forall|i: u32| w <= i < w + (128 - w) implies #[trigger] bit(field, i) == (0 <= i
            - w < 0) by {
            lemma_bit_extract(x, lo, w, i);
        }
        lemma_weight_band(field, w as nat, (128 - w) as nat, 0, 0);
        lemma_weight_split(field, 0, w as nat, 128);
        lemma_weight_bound(x, lo as nat, (lo + w) as nat);
    }
    field.count_ones()
}

/// Packs the ones of every place of width `w` of `x` to the right of the place.
pub fn pack_ones(x: u128, w: u32) -> (r: u128)
    requires
        w == 1 || w == 2 || w == 4 || w == 8 || w == 16 || w == 32 || w == 64 || w == 128,
    ensures
        r == pack_from(x, w as nat, 0),
{
    proof {
        lemma_steps_width(0);
        lemma_steps_width(1);
        lemma_steps_width(2);
        lemma_steps_width(3);
        lemma_steps_width(4);
        lemma_steps_width(5);
        lemma_steps_width(6);
        lemma_steps_width(7);
    }
    let mut out: u128 = 0;
    let mut lo: u32 = 128;
    while lo > 0
        invariant
            0 < w <= 128,
            lo <= 128,
            steps(w as nat, 0, lo as nat),
            out == pack_from(x, w as nat, lo as nat),
        decreases lo,
    {
        proof {
            lemma_steps_pop(w as nat, 0, lo as nat);
        }
        lo = lo - w;
        let c: u32 = field_weight(x, lo, w);
        out = (low_mask(c) << lo) | out;
    }
    out
}

/// The index words of `v`: its canonical Hamming form at the levels 0 to 7.
///
/// The last word is `v` itself; each word before it packs the ones of every
/// two places of the next into one place of twice the width.
pub fn indices128(v: u128) -> (r: [u128; 8])
    ensures
        forall|level: int| 0 <= level < 8 ==> r[level] == chf(v, level as nat),
{
    let v6: u128 = pack_ones(v, 2);
    let v5: u128 = pack_ones(v6, 4);
    let v4: u128 = pack_ones(v5, 8);
    let v3: u128 = pack_ones(v4, 16);
    let v2: u128 = pack_ones(v3, 32);
    let v1: u128 = pack_ones(v2, 64);
    let v0: u128 = pack_ones(v1, 128);
    proof {
        lemma_repack(v, 2, 0);
        lemma_repack(v, 4, 0);
        lemma_repack(v, 8, 0);
        lemma_repack(v, 16, 0);
        lemma_repack(v, 32, 0);
        lemma_repack(v, 64, 0);
    }
    [v0, v1, v2, v3, v4, v5, v6, v]
}

} // verus!
