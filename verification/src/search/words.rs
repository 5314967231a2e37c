//! The search over all places of a word at once.
//!
//! The words of one level of the tree hold a parent in every place of width
//! `q`; the words of the next level hold its two children in the two halves
//! of that place, the left child in the upper half. Given the parents and the
//! children of the search feature and the parents of a target, the search
//! lists the words of children that the target can have: in every place the
//! two children have the ones of the parent between them, none more than
//! `bits`. Each word comes with the sum, over all places, of the distances of
//! its children to the children of the search feature.
//!
//! The words are halved until one place is left; there the range solver
//! lists the splits. The halves are searched one after the other, the lower
//! half with what the upper half has left of the radius, and what is found is
//! united again.
use crate::bits::{
    bit, lemma_bit_low_ones, lemma_bit_or, lemma_bit_shl, lemma_bit_shr, lemma_bit_xor,
    lemma_same_bits,
    lemma_weight_band, lemma_weight_bound, lemma_weight_moved, lemma_weight_split, low_ones, ones,
    weight,
};
use crate::chf::{
    chf, lemma_chf_fields, lemma_steps_halve, lemma_steps_last, lemma_steps_push,
    lemma_steps_width, level_sod, steps, width,
};
use crate::indices::low_mask;
use crate::search::exact::search_exact;
use crate::search::radius::search_radius;
use crate::search::{exact_order, gap, in_domain, radius_order, sod};
use crate::swar_ops::{
    halve, lemma_halve_unite, lemma_lower_skip, lemma_spread_field, lemma_steps_shift,
    lemma_unite_halve, lower_half, spread_from, union, united,
};
use vstd::prelude::*;

verus! {

/// Whether the `n` bits of `x` from position `lo` on are `c` ones packed to
/// the right.
pub open spec fn packed(x: u128, lo: nat, n: nat, c: nat) -> bool {
    forall|i: u32| lo <= i < lo + n ==> #[trigger] bit(x, i) == (i - lo < c)
}

/// Whether, in every place of width `q` from `lo` up to `hi`, the two halves
/// of `tc` hold the ones of the place of `tp` between them, packed to the
/// right, neither more than `bits`.
pub open spec fn good(bits: int, q: nat, tp: u128, tc: u128, lo: nat, hi: nat) -> bool
    decreases 128 - lo,
{
    if q < 2 || lo + q > hi || hi > 128 {
        true
    } else {
        let h = q / 2;
        let tl = weight(tc, lo + h, lo + q);
        let tr = weight(tc, lo, lo + h);
        let tw = weight(tp, lo, lo + q);
        &&& tl + tr == tw
        &&& in_domain(bits, tw as int, tl as int)
        &&& packed(tc, lo + h, h, tl)
        &&& packed(tc, lo, h, tr)
        &&& good(bits, q, tp, tc, lo + q, hi)
    }
}

/// The sum, over the places of width `q` from `lo` up to `hi`, of the
/// distances of the two halves of `tc` to those of the search feature.
pub open spec fn total(q: nat, sp: u128, sc: u128, tp: u128, tc: u128, lo: nat, hi: nat) -> int
    decreases 128 - lo,
{
    if q < 2 || lo + q > hi || hi > 128 {
        0
    } else {
        let h = q / 2;
        sod(
            weight(sc, lo + h, lo + q) as int,
            weight(sp, lo, lo + q) as int,
            weight(tp, lo, lo + q) as int,
            weight(tc, lo + h, lo + q) as int,
        ) + total(q, sp, sc, tp, tc, lo + q, hi)
    }
}

/// Whether a sum is wanted: equal to the radius, or at most the radius.
pub open spec fn accept(sum: int, radius: int, exact: bool) -> bool {
    if exact {
        sum == radius
    } else {
        0 <= sum <= radius
    }
}

/// Whether `tc` is a word that the search is to list.
pub open spec fn wanted(
    bits: int,
    q: nat,
    sp: u128,
    sc: u128,
    tp: u128,
    radius: int,
    exact: bool,
    tc: u128,
) -> bool {
    good(bits, q, tp, tc, 0, 128) && accept(total(q, sp, sc, tp, tc, 0, 128), radius, exact)
}

/// Whether one of the first `n` entries holds the word `w`.
pub open spec fn among(list: Seq<(u128, u32)>, n: int, w: u128) -> bool {
    exists|j: int| 0 <= j < n && (#[trigger] list[j]).0 == w
}

/// The word of one place whose left half holds `tl` ones and whose right
/// half holds `tr`.
pub open spec fn split_word(tl: u32, tr: u32) -> u128 {
    (low_ones(tl) << 64) | low_ones(tr)
}

/// Whether `q` is a width that places of parents can have.
pub open spec fn is_width(q: nat) -> bool {
    q == 2 || q == 4 || q == 8 || q == 16 || q == 32 || q == 64 || q == 128
}

/// A sum of distances is not negative.
pub proof fn lemma_total_sign(q: nat, sp: u128, sc: u128, tp: u128, tc: u128, lo: nat, hi: nat)
    ensures
        total(q, sp, sc, tp, tc, lo, hi) >= 0,
    decreases 128 - lo,
{
    if !(q < 2 || lo + q > hi || hi > 128) {
        lemma_total_sign(q, sp, sc, tp, tc, lo + q, hi);
    }
}

/// The places up to 128 are the places up to 64 and the places from 64 on.
pub proof fn lemma_split(
    bits: int,
    q: nat,
    sp: u128,
    sc: u128,
    tp: u128,
    tc: u128,
    lo: nat,
)
    requires
        q >= 2,
        steps(q, lo, 64),
        steps(q, 64, 128),
    ensures
        good(bits, q, tp, tc, lo, 128) == (good(bits, q, tp, tc, lo, 64) && good(
            bits,
            q,
            tp,
            tc,
            64,
            128,
        )),
        total(q, sp, sc, tp, tc, lo, 128) == total(q, sp, sc, tp, tc, lo, 64) + total(
            q,
            sp,
            sc,
            tp,
            tc,
            64,
            128,
        ),
    decreases 64 - lo,
{
    if lo != 64 {
        lemma_split(bits, q, sp, sc, tp, tc, lo + q);
    }
}

/// A place of a word is packed where the place of the spread word that
/// comes from it is.
pub proof fn lemma_packed_spread(x: u128, w: nat, src: nat, p: nat, c: nat)
    requires
        w > 0,
        steps(w, src, p),
        p + w <= src + 64,
        src + 64 <= 128,
        c <= w,
    ensures
        packed(x, p, w, c) == packed(
            spread_from(x, w, src, 0),
            (2 * (p - src)) as nat,
            2 * w,
            c,
        ),
{
    let y = spread_from(x, w, src, 0);
    let t = (2 * (p - src)) as nat;
    lemma_spread_field(x, w, src, p);
    if packed(x, p, w, c) {
        assert forall|i: u32| t <= i < t + 2 * w implies #[trigger] bit(y, i) == (i - t < c) by {
            if i - t < w {
                assert(bit(x, (p + (i - t)) as u32) == (i - t < c));
            }
        }
    }
    if packed(y, t, 2 * w, c) {
        assert forall|i: u32| p <= i < p + w implies #[trigger] bit(x, i) == (i - p < c) by {
            let k = (t + (i - p)) as u32;
            assert(bit(y, k) == (k - t < c));
        }
    }
}

/// What one place of the halved words holds.
pub proof fn lemma_half_place(
    bits: int,
    q: nat,
    sp: u128,
    sc: u128,
    tp: u128,
    tc: u128,
    src: nat,
    lo: nat,
)
    requires
        is_width(q),
        q <= 64,
        src == 0 || src == 64,
        steps(q, src, lo),
        lo + q <= src + 64,
    ensures
        ({
            let h = q / 2;
            let t = (2 * (lo - src)) as nat;
            let sp2 = spread_from(sp, q, src, 0);
            let sc2 = spread_from(sc, h, src, 0);
            let tp2 = spread_from(tp, q, src, 0);
            let tc2 = spread_from(tc, h, src, 0);
            &&& weight(sp2, t, t + 2 * q) == weight(sp, lo, lo + q)
            &&& weight(tp2, t, t + 2 * q) == weight(tp, lo, lo + q)
            &&& weight(sc2, t + q, t + 2 * q) == weight(sc, lo + h, lo + q)
            &&& weight(tc2, t + q, t + 2 * q) == weight(tc, lo + h, lo + q)
            &&& weight(tc2, t, t + q) == weight(tc, lo, lo + h)
            &&& weight(tc, lo + h, lo + q) <= h
            &&& weight(tc, lo, lo + h) <= h
            &&& packed(tc, lo + h, h, weight(tc, lo + h, lo + q)) == packed(
                tc2,
                t + q,
                q,
                weight(tc, lo + h, lo + q),
            )
            &&& packed(tc, lo, h, weight(tc, lo, lo + h)) == packed(
                tc2,
                t,
                q,
                weight(tc, lo, lo + h),
            )
        }),
{
    let h = q / 2;
    lemma_steps_halve(h, src, lo);
    lemma_steps_push(h, src, lo);
    lemma_place_weight(sp, q, src, lo);
    lemma_place_weight(tp, q, src, lo);
    lemma_place_weight(sc, h, src, lo + h);
    lemma_place_weight(tc, h, src, lo);
    lemma_place_weight(tc, h, src, lo + h);
    lemma_weight_bound(tc, lo + h, lo + q);
    lemma_weight_bound(tc, lo, lo + h);
    lemma_packed_spread(tc, h, src, lo + h, weight(tc, lo + h, lo + q));
    lemma_packed_spread(tc, h, src, lo, weight(tc, lo, lo + h));
}

/// A place of a spread word holds as many ones as the place it comes from.
pub proof fn lemma_place_weight(x: u128, w: nat, src: nat, p: nat)
    requires
        w > 0,
        steps(w, src, p),
        p + w <= src + 64,
        src + 64 <= 128,
    ensures
        weight(spread_from(x, w, src, 0), (2 * (p - src)) as nat, (2 * (p - src) + 2 * w) as nat)
            == weight(x, p, p + w),
{
    lemma_spread_field(x, w, src, p);
}

/// The places of one half of the words are the places of the halved words.
pub proof fn lemma_half(
    bits: int,
    q: nat,
    sp: u128,
    sc: u128,
    tp: u128,
    tc: u128,
    src: nat,
    lo: nat,
)
    requires
        is_width(q),
        q <= 64,
        0 <= bits <= q / 2,
        src == 0 || src == 64,
        steps(q, src, lo),
        steps(q, lo, src + 64),
    ensures
        good(bits, q, tp, tc, lo, src + 64) == good(
            bits,
            2 * q,
            spread_from(tp, q, src, 0),
            spread_from(tc, q / 2, src, 0),
            (2 * (lo - src)) as nat,
            128,
        ),
        total(q, sp, sc, tp, tc, lo, src + 64) == total(
            2 * q,
            spread_from(sp, q, src, 0),
            spread_from(sc, q / 2, src, 0),
            spread_from(tp, q, src, 0),
            spread_from(tc, q / 2, src, 0),
            (2 * (lo - src)) as nat,
            128,
        ),
    decreases src + 64 - lo,
{
    let h = q / 2;
    let t = (2 * (lo - src)) as nat;
    let tc2 = spread_from(tc, h, src, 0);
    if lo != src + 64 {
        lemma_steps_push(q, src, lo);
        lemma_half(bits, q, sp, sc, tp, tc, src, lo + q);
        lemma_half_place(bits, q, sp, sc, tp, tc, src, lo);
        assert((2 * q) / 2 == q);
    }
}

/// A word is good where its two halves are, and its sum is the sum of
/// theirs.
pub proof fn lemma_join(bits: int, q: nat, sp: u128, sc: u128, tp: u128, tc: u128)
    requires
        is_width(q),
        q <= 64,
        0 <= bits <= q / 2,
    ensures
        good(bits, q, tp, tc, 0, 128) == (good(
            bits,
            2 * q,
            spread_from(tp, q, 64, 0),
            spread_from(tc, q / 2, 64, 0),
            0,
            128,
        ) && good(bits, 2 * q, spread_from(tp, q, 0, 0), spread_from(tc, q / 2, 0, 0), 0, 128)),
        total(q, sp, sc, tp, tc, 0, 128) == total(
            2 * q,
            spread_from(sp, q, 64, 0),
            spread_from(sc, q / 2, 64, 0),
            spread_from(tp, q, 64, 0),
            spread_from(tc, q / 2, 64, 0),
            0,
            128,
        ) + total(
            2 * q,
            spread_from(sp, q, 0, 0),
            spread_from(sc, q / 2, 0, 0),
            spread_from(tp, q, 0, 0),
            spread_from(tc, q / 2, 0, 0),
            0,
            128,
        ),
{
    lemma_grid(q);
    lemma_steps_shift(q, 0, 64, 64);
    lemma_split(bits, q, sp, sc, tp, tc, 0);
    lemma_half(bits, q, sp, sc, tp, tc, 0, 0);
    lemma_half(bits, q, sp, sc, tp, tc, 64, 64);
}

/// From 0 one reaches 64 and 128 in steps of every width up to 64.
pub proof fn lemma_grid(q: nat)
    requires
        is_width(q) || q == 1,
    ensures
        q <= 64 ==> steps(q, 0, 64),
        steps(q, 0, 128),
{
    lemma_steps_width(0);
    lemma_steps_width(1);
    lemma_steps_width(2);
    lemma_steps_width(3);
    lemma_steps_width(4);
    lemma_steps_width(5);
    lemma_steps_width(6);
    lemma_steps_width(7);
    assert(steps(64, 0, 64)) by {
        assert(steps(64, 64, 64));
    }
    lemma_steps_halve(32, 0, 64);
    lemma_steps_halve(16, 0, 64);
    lemma_steps_halve(8, 0, 64);
    lemma_steps_halve(4, 0, 64);
    lemma_steps_halve(2, 0, 64);
    lemma_steps_halve(1, 0, 64);
}

/// The ones of a good word stand in the lower halves of its places.
pub proof fn lemma_good_roomy(bits: int, q: nat, tp: u128, tc: u128, lo: nat, i: u32)
    requires
        is_width(q),
        q >= 4,
        0 <= bits <= q / 4,
        good(bits, q, tp, tc, lo, 128),
        steps(q, 0, lo),
        steps(q, lo, 128),
        lo <= i < 128,
        bit(tc, i),
    ensures
        lower_half(q / 4, 0, i as nat),
    decreases 128 - lo,
{
    let h = q / 2;
    let w = q / 4;
    if i < lo + q {
        lemma_steps_halve(h, 0, lo);
        lemma_steps_push(h, 0, lo);
        if i < lo + h {
            lemma_lower_skip(w, 0, lo, i as nat);
        } else {
            lemma_lower_skip(w, 0, lo + h, i as nat);
        }
    } else {
        lemma_steps_push(q, 0, lo);
        lemma_good_roomy(bits, q, tp, tc, lo + q, i);
    }
}

/// The word of one place with `tl` and `tr` ones in its halves.
pub fn make_split(tl: u32, tr: u32) -> (tc: u128)
    requires
        tl <= 64,
        tr <= 64,
    ensures
        tc == split_word(tl, tr),
        weight(tc, 64, 128) == tl,
        weight(tc, 0, 64) == tr,
        packed(tc, 64, 64, tl as nat),
        packed(tc, 0, 64, tr as nat),
{
    let tc: u128 = (low_mask(tl) << 64) | low_mask(tr);
    proof {
        assert forall|i: u32| i < 128 implies bit(tc, i) == (if i >= 64 {
            i - 64 < tl
        } else {
            i < tr
        }) by {
            lemma_bit_or(low_ones(tl) << 64, low_ones(tr), i);
            lemma_bit_shl(low_ones(tl), 64, i);
            lemma_bit_low_ones(tr, i);
            if i >= 64 {
                lemma_bit_low_ones(tl, (i - 64) as u32);
            }
        }
        assert forall|i: u32| 64 <= i < 64 + 64 implies #[trigger] bit(tc, i) == (0 <= i - 64
            < tl) by {}
        lemma_weight_band(tc, 64, 64, 0, tl as nat);
        assert forall|i: u32| 0 <= i < 0 + 64 implies #[trigger] bit(tc, i) == (0 <= i - 0 < tr) by {}
        lemma_weight_band(tc, 0, 64, 0, tr as nat);
    }
    tc
}

/// The ones of the upper half of a word.
pub fn upper_ones(x: u128) -> (c: u32)
    ensures
        c == weight(x, 64, 128),
        c <= 64,
{
    let y: u128 = x >> 64;
    proof {
        assert forall|i: u32| 0 <= i < 0 + 64 implies #[trigger] bit(y, i) == bit(
            x,
            (i - 0 + 64) as u32,
        ) by {
            lemma_bit_shr(x, 64, i);
        }
        lemma_weight_moved(x, 64, y, 0, 64);
        assert forall|i: u32| 64 <= i < 64 + 64 implies #[trigger] bit(y, i) == (0 <= i - 64 < 0) by {
            lemma_bit_shr(x, 64, i);
        }
        lemma_weight_band(y, 64, 64, 0, 0);
        lemma_weight_split(y, 0, 64, 128);
        lemma_weight_bound(x, 64, 128);
    }
    y.count_ones()
}

/// Lists the words of children, each with its sum of distances, that a
/// target with the parents `tp` can have within `radius` of the search
/// feature with the parents `sp` and the children `sc`; with `exact`, only
/// those at `radius` exactly. The parents stand in places of width `q`, and
/// no child has more than `bits` ones.
///
/// Each such word is listed once. With one place, the words come in the
/// order in which the range solver lists the splits.
pub fn words(bits: u32, q: u32, sp: u128, sc: u128, tp: u128, radius: u32, exact: bool) -> (out:
    Vec<(u128, u32)>)
    requires
        is_width(q as nat),
        bits <= q / 2,
    ensures
        forall|k: int|
            0 <= k < out@.len() ==> wanted(
                bits as int,
                q as nat,
                sp,
                sc,
                tp,
                radius as int,
                exact,
                (#[trigger] out@[k]).0,
            ) && out@[k].1 == total(q as nat, sp, sc, tp, out@[k].0, 0, 128),
        forall|i: int, j: int|
            0 <= i < j < out@.len() ==> (#[trigger] out@[i]).0 != (#[trigger] out@[j]).0,
        forall|tc: u128| #[trigger]
            wanted(bits as int, q as nat, sp, sc, tp, radius as int, exact, tc) ==> among(
                out@,
                out@.len() as int,
                tc,
            ),
        q == 128 ==> ({
            let order = if exact {
                exact_order(
                    bits as int,
                    weight(sc, 64, 128) as int,
                    ones(sp) as int,
                    ones(tp) as int,
                    radius as int,
                )
            } else {
                radius_order(
                    bits as int,
                    weight(sc, 64, 128) as int,
                    ones(sp) as int,
                    ones(tp) as int,
                    radius as int,
                )
            };
            &&& out@.len() == order.len()
            &&& forall|k: int|
                0 <= k < out@.len() ==> (#[trigger] out@[k]).0 == split_word(
                    order[k],
                    (ones(tp) - order[k]) as u32,
                )
        }),
    decreases 128 - q,
{
    let mut out: Vec<(u128, u32)> = Vec::new();
    if q == 128 {
        let sw: u32 = sp.count_ones();
        let sl: u32 = upper_ones(sc);
        let tw: u32 = tp.count_ones();
        let ghost order = if exact {
            exact_order(bits as int, sl as int, sw as int, tw as int, radius as int)
        } else {
            radius_order(bits as int, sl as int, sw as int, tw as int, radius as int)
        };
        let mut splits: Vec<([u32; 2], u32)> = Vec::new();
        if exact {
            let found = search_exact(bits, sl, sw, tw, radius);
            let mut i: usize = 0;
            while i < found.len()
                invariant
                    i <= found@.len(),
                    splits@.len() == i,
                    forall|k: int|
                        0 <= k < i ==> (#[trigger] splits@[k]).0 == found@[k] && splits@[k].1
                            == radius,
                decreases found@.len() - i,
            {
                splits.push((found[i], radius));
                i = i + 1;
            }
        } else {
            splits = search_radius(bits, sl, sw, tw, radius);
        }
        proof {
            assert forall|k: int| 0 <= k < splits@.len() implies (#[trigger] splits@[k]).1 == sod(
                sl as int,
                sw as int,
                tw as int,
                splits@[k].0[0] as int,
            ) && in_domain(bits as int, tw as int, splits@[k].0[0] as int) && accept(
                splits@[k].1 as int,
                radius as int,
                exact,
            ) && splits@[k].0[0] + splits@[k].0[1] == tw && splits@[k].0[0] == order[k] by {
                let tl = splits@[k].0[0] as int;
            }
        }
        let mut i: usize = 0;
        while i < splits.len()
            invariant
                i <= splits@.len(),
                out@.len() == i,
                q == 128,
                bits <= 64,
                sw == ones(sp),
                sl == weight(sc, 64, 128),
                tw == ones(tp),
                splits@.len() == order.len(),
                forall|k: int|
                    0 <= k < splits@.len() ==> (#[trigger] splits@[k]).1 == sod(
                        sl as int,
                        sw as int,
                        tw as int,
                        splits@[k].0[0] as int,
                    ) && in_domain(bits as int, tw as int, splits@[k].0[0] as int) && accept(
                        splits@[k].1 as int,
                        radius as int,
                        exact,
                    ) && splits@[k].0[0] + splits@[k].0[1] == tw && splits@[k].0[0] == order[k],
                forall|k: int|
                    0 <= k < i ==> (#[trigger] out@[k]).0 == split_word(
                        splits@[k].0[0],
                        splits@[k].0[1],
                    ) && out@[k].1 == splits@[k].1 && weight(out@[k].0, 64, 128)
                        == splits@[k].0[0] && weight(out@[k].0, 0, 64) == splits@[k].0[1]
                        && packed(out@[k].0, 64, 64, splits@[k].0[0] as nat) && packed(
                        out@[k].0,
                        0,
                        64,
                        splits@[k].0[1] as nat,
                    ),
            decreases splits@.len() - i,
        {
            let pair = splits[i].0;
            let tc: u128 = make_split(pair[0], pair[1]);
            out.push((tc, splits[i].1));
            i = i + 1;
        }
        proof {
            assert forall|k: int| 0 <= k < out@.len() implies wanted(
                bits as int,
                q as nat,
                sp,
                sc,
                tp,
                radius as int,
                exact,
                (#[trigger] out@[k]).0,
            ) && out@[k].1 == total(q as nat, sp, sc, tp, out@[k].0, 0, 128) by {
                let tc = out@[k].0;
                assert(splits@[k].0[0] == order[k]);
                assert(good(bits as int, 128, tp, tc, 128, 128));
                assert(total(128, sp, sc, tp, tc, 128, 128) == 0);
            }
            assert forall|i: int, j: int| 0 <= i < j < out@.len() implies (#[trigger] out@[i]).0
                != (#[trigger] out@[j]).0 by {
                assert(splits@[i].0[0] == order[i]);
                assert(splits@[j].0[0] == order[j]);
                assert(weight(out@[i].0, 64, 128) != weight(out@[j].0, 64, 128));
            }
            assert forall|tc: u128| #[trigger]
                wanted(bits as int, q as nat, sp, sc, tp, radius as int, exact, tc) implies among(
                out@,
                out@.len() as int,
                tc,
            ) by {
                let tl = weight(tc, 64, 128);
                let tr = weight(tc, 0, 64);
                assert(total(128, sp, sc, tp, tc, 128, 128) == 0);
                assert(in_domain(bits as int, tw as int, tl as int));
                let k = choose|k: int| 0 <= k < order.len() && #[trigger] order[k] == tl;
                assert(splits@[k].0[0] == order[k]);
                let cand = out@[k].0;
                assert forall|i: u32| i < 128 implies bit(cand, i) == bit(tc, i) by {
                    if i >= 64 {
                        assert(bit(cand, i) == (i - 64 < tl));
                        assert(bit(tc, i) == (i - 64 < tl));
                    } else {
                        assert(bit(cand, i) == (i - 0 < tr));
                        assert(bit(tc, i) == (i - 0 < tr));
                    }
                }
                lemma_same_bits(cand, tc);
                assert(out@[k].0 == tc);
            }
        }
        return out;
    }
    let h: u32 = q / 2;
    let (lsp, rsp) = halve(q, sp);
    let (lsc, rsc) = halve(h, sc);
    let (ltp, rtp) = halve(q, tp);
    let lefts = words(bits, 2 * q, lsp, lsc, ltp, radius, false);
    proof {
        lemma_grid(q as nat);
        lemma_grid(h as nat);
    }
    let mut a: usize = 0;
    while a < lefts.len()
        invariant
            is_width(q as nat),
            q <= 64,
            h == q / 2,
            bits <= h,
            a <= lefts@.len(),
            steps(h as nat, 0, 64),
            lsp == spread_from(sp, q as nat, 64, 0),
            rsp == spread_from(sp, q as nat, 0, 0),
            lsc == spread_from(sc, h as nat, 64, 0),
            rsc == spread_from(sc, h as nat, 0, 0),
            ltp == spread_from(tp, q as nat, 64, 0),
            rtp == spread_from(tp, q as nat, 0, 0),
            forall|k: int|
                0 <= k < lefts@.len() ==> wanted(
                    bits as int,
                    2 * q as nat,
                    lsp,
                    lsc,
                    ltp,
                    radius as int,
                    false,
                    (#[trigger] lefts@[k]).0,
                ) && lefts@[k].1 == total(2 * q as nat, lsp, lsc, ltp, lefts@[k].0, 0, 128),
            forall|i: int, j: int|
                0 <= i < j < lefts@.len() ==> (#[trigger] lefts@[i]).0 != (#[trigger] lefts@[j]).0,
            forall|tc: u128| #[trigger]
                wanted(bits as int, 2 * q as nat, lsp, lsc, ltp, radius as int, false, tc)
                    ==> among(lefts@, lefts@.len() as int, tc),
            forall|k: int|
                0 <= k < out@.len() ==> wanted(
                    bits as int,
                    q as nat,
                    sp,
                    sc,
                    tp,
                    radius as int,
                    exact,
                    (#[trigger] out@[k]).0,
                ) && out@[k].1 == total(q as nat, sp, sc, tp, out@[k].0, 0, 128) && among(
                    lefts@,
                    a as int,
                    spread_from(out@[k].0, h as nat, 64, 0),
                ),
            forall|i: int, j: int|
                0 <= i < j < out@.len() ==> (#[trigger] out@[i]).0 != (#[trigger] out@[j]).0,
            forall|tc: u128| #[trigger]
                wanted(bits as int, q as nat, sp, sc, tp, radius as int, exact, tc) && among(
                    lefts@,
                    a as int,
                    spread_from(tc, h as nat, 64, 0),
                ) ==> among(out@, out@.len() as int, tc),
        decreases lefts@.len() - a,
    {
        let (ltc, lsod) = lefts[a];
        proof {
            assert(wanted(
                bits as int,
                2 * q as nat,
                lsp,
                lsc,
                ltp,
                radius as int,
                false,
                lefts@[a as int].0,
            ));
        }
        let rights = words(bits, 2 * q, rsp, rsc, rtp, radius - lsod, exact);
        let ghost start = out@.len() as int;
        let mut b: usize = 0;
        while b < rights.len()
            invariant
                is_width(q as nat),
                q <= 64,
                h == q / 2,
                bits <= h,
                a < lefts@.len(),
                b <= rights@.len(),
                start <= out@.len(),
                steps(h as nat, 0, 64),
                lefts@[a as int] == (ltc, lsod),
                lsod <= radius,
                lsp == spread_from(sp, q as nat, 64, 0),
                rsp == spread_from(sp, q as nat, 0, 0),
                lsc == spread_from(sc, h as nat, 64, 0),
                rsc == spread_from(sc, h as nat, 0, 0),
                ltp == spread_from(tp, q as nat, 64, 0),
                rtp == spread_from(tp, q as nat, 0, 0),
                good(bits as int, 2 * q as nat, ltp, ltc, 0, 128),
                lsod == total(2 * q as nat, lsp, lsc, ltp, ltc, 0, 128),
                forall|i: int, j: int|
                    0 <= i < j < lefts@.len() ==> (#[trigger] lefts@[i]).0 != (
                    #[trigger] lefts@[j]).0,
                forall|k: int|
                    0 <= k < rights@.len() ==> wanted(
                        bits as int,
                        2 * q as nat,
                        rsp,
                        rsc,
                        rtp,
                        radius - lsod,
                        exact,
                        (#[trigger] rights@[k]).0,
                    ) && rights@[k].1 == total(2 * q as nat, rsp, rsc, rtp, rights@[k].0, 0, 128),
                forall|i: int, j: int|
                    0 <= i < j < rights@.len() ==> (#[trigger] rights@[i]).0 != (
                    #[trigger] rights@[j]).0,
                forall|k: int|
                    0 <= k < out@.len() ==> wanted(
                        bits as int,
                        q as nat,
                        sp,
                        sc,
                        tp,
                        radius as int,
                        exact,
                        (#[trigger] out@[k]).0,
                    ) && out@[k].1 == total(q as nat, sp, sc, tp, out@[k].0, 0, 128) && (if k
                        < start {
                        among(lefts@, a as int, spread_from(out@[k].0, h as nat, 64, 0))
                    } else {
                        spread_from(out@[k].0, h as nat, 64, 0) == ltc && among(
                            rights@,
                            b as int,
                            spread_from(out@[k].0, h as nat, 0, 0),
                        )
                    }),
                forall|i: int, j: int|
                    0 <= i < j < out@.len() ==> (#[trigger] out@[i]).0 != (#[trigger] out@[j]).0,
                forall|tc: u128| #[trigger]
                    wanted(bits as int, q as nat, sp, sc, tp, radius as int, exact, tc) && (among(
                        lefts@,
                        a as int,
                        spread_from(tc, h as nat, 64, 0),
                    ) || (spread_from(tc, h as nat, 64, 0) == ltc && among(
                        rights@,
                        b as int,
                        spread_from(tc, h as nat, 0, 0),
                    ))) ==> among(out@, out@.len() as int, tc),
            decreases rights@.len() - b,
        {
            let (rtc, rsod) = rights[b];
            proof {
                assert(wanted(
                    bits as int,
                    2 * q as nat,
                    rsp,
                    rsc,
                    rtp,
                    radius - lsod,
                    exact,
                    rights@[b as int].0,
                ));
                lemma_grid((2 * q) as nat);
                assert forall|i: u32| i < 128 && #[trigger] bit(ltc, i) implies lower_half(
                    h as nat,
                    0,
                    i as nat,
                ) by {
                    lemma_good_roomy(bits as int, (2 * q) as nat, ltp, ltc, 0, i);
                }
                assert forall|i: u32| i < 128 && #[trigger] bit(rtc, i) implies lower_half(
                    h as nat,
                    0,
                    i as nat,
                ) by {
                    lemma_good_roomy(bits as int, (2 * q) as nat, rtp, rtc, 0, i);
                }
            }
            let tc: u128 = union(h, ltc, rtc);
            let ghost before = out@;
            out.push((tc, lsod + rsod));
            proof {
                lemma_unite_halve(ltc, rtc, h as nat);
                lemma_join(bits as int, q as nat, sp, sc, tp, tc);
                assert(among(rights@, b + 1, spread_from(tc, h as nat, 0, 0))) by {
                    assert(rights@[b as int].0 == spread_from(tc, h as nat, 0, 0));
                }
                assert forall|k: int| 0 <= k < out@.len() implies wanted(
                    bits as int,
                    q as nat,
                    sp,
                    sc,
                    tp,
                    radius as int,
                    exact,
                    (#[trigger] out@[k]).0,
                ) && out@[k].1 == total(q as nat, sp, sc, tp, out@[k].0, 0, 128) && (if k < start {
                    among(lefts@, a as int, spread_from(out@[k].0, h as nat, 64, 0))
                } else {
                    spread_from(out@[k].0, h as nat, 64, 0) == ltc && among(
                        rights@,
                        b + 1,
                        spread_from(out@[k].0, h as nat, 0, 0),
                    )
                }) by {
                    if k < before.len() {
                        assert(out@[k] == before[k]);
                        if k >= start {
                            let w = spread_from(before[k].0, h as nat, 0, 0);
                            let j = choose|j: int| 0 <= j < b && (#[trigger] rights@[j]).0 == w;
                            assert(rights@[j].0 == w);
                        }
                    }
                }
                assert forall|i: int, j: int| 0 <= i < j < out@.len() implies (
                #[trigger] out@[i]).0 != (#[trigger] out@[j]).0 by {
                    if j == before.len() {
                        assert(out@[i] == before[i]);
                        if i < start {
                            let w = spread_from(before[i].0, h as nat, 64, 0);
                            let x = choose|x: int| 0 <= x < a && (#[trigger] lefts@[x]).0 == w;
                            assert(lefts@[x].0 != lefts@[a as int].0);
                        } else {
                            let w = spread_from(before[i].0, h as nat, 0, 0);
                            let x = choose|x: int| 0 <= x < b && (#[trigger] rights@[x]).0 == w;
                            assert(rights@[x].0 != rights@[b as int].0);
                        }
                    } else {
                        assert(out@[i] == before[i]);
                        assert(out@[j] == before[j]);
                    }
                }
                assert forall|t: u128| #[trigger]
                    wanted(bits as int, q as nat, sp, sc, tp, radius as int, exact, t) && (among(
                        lefts@,
                        a as int,
                        spread_from(t, h as nat, 64, 0),
                    ) || (spread_from(t, h as nat, 64, 0) == ltc && among(
                        rights@,
                        b + 1,
                        spread_from(t, h as nat, 0, 0),
                    ))) implies among(out@, out@.len() as int, t) by {
                    let lw = spread_from(t, h as nat, 64, 0);
                    let rw = spread_from(t, h as nat, 0, 0);
                    if among(lefts@, a as int, lw) || (lw == ltc && among(rights@, b as int, rw)) {
                        assert(among(before, before.len() as int, t));
                        let x = choose|x: int| 0 <= x < before.len() && (#[trigger] before[x]).0 == t;
                        assert(out@[x].0 == t);
                    } else {
                        let x = choose|x: int| 0 <= x < b + 1 && (#[trigger] rights@[x]).0 == rw;
                        if x < b {
                            assert(rights@[x].0 == rw);
                            assert(among(rights@, b as int, rw));
                        }
                        assert(rw == rtc);
                        lemma_halve_unite(t, h as nat);
                        assert(t == tc);
                        assert(out@[before.len() as int].0 == t);
                    }
                }
            }
            b = b + 1;
        }
        proof {
            assert forall|k: int| 0 <= k < out@.len() implies among(
                lefts@,
                a + 1,
                spread_from((#[trigger] out@[k]).0, h as nat, 64, 0),
            ) by {
                let w = spread_from(out@[k].0, h as nat, 64, 0);
                if k < start {
                    let x = choose|x: int| 0 <= x < a && (#[trigger] lefts@[x]).0 == w;
                    assert(lefts@[x].0 == w);
                } else {
                    assert(lefts@[a as int].0 == w);
                }
            }
            assert forall|t: u128| #[trigger]
                wanted(bits as int, q as nat, sp, sc, tp, radius as int, exact, t) && among(
                    lefts@,
                    a + 1,
                    spread_from(t, h as nat, 64, 0),
                ) implies among(out@, out@.len() as int, t) by {
                let lw = spread_from(t, h as nat, 64, 0);
                let rw = spread_from(t, h as nat, 0, 0);
                let x = choose|x: int| 0 <= x < a + 1 && (#[trigger] lefts@[x]).0 == lw;
                if x < a {
                    assert(lefts@[x].0 == lw);
                    assert(among(lefts@, a as int, lw));
                } else {
                    assert(lw == ltc);
                    lemma_join(bits as int, q as nat, sp, sc, tp, t);
                    lemma_total_sign((2 * q) as nat, rsp, rsc, rtp, rw, 0, 128);
                    assert(wanted(
                        bits as int,
                        2 * q as nat,
                        rsp,
                        rsc,
                        rtp,
                        radius - lsod,
                        exact,
                        rw,
                    ));
                    assert(among(rights@, rights@.len() as int, rw));
                }
            }
        }
        a = a + 1;
    }
    proof {
        assert forall|tc: u128| #[trigger]
            wanted(bits as int, q as nat, sp, sc, tp, radius as int, exact, tc) implies among(
            out@,
            out@.len() as int,
            tc,
        ) by {
            let lw = spread_from(tc, h as nat, 64, 0);
            lemma_join(bits as int, q as nat, sp, sc, tp, tc);
            lemma_total_sign((2 * q) as nat, rsp, rsc, rtp, spread_from(tc, h as nat, 0, 0), 0, 128);
            lemma_total_sign((2 * q) as nat, lsp, lsc, ltp, lw, 0, 128);
            assert(wanted(bits as int, 2 * q as nat, lsp, lsc, ltp, radius as int, false, lw));
            assert(among(lefts@, lefts@.len() as int, lw));
        }
    }
    out
}

/// Whether `out` lists each wanted word once, with its sum, and no other.
pub open spec fn lists(
    bits: int,
    q: nat,
    sp: u128,
    sc: u128,
    tp: u128,
    radius: int,
    exact: bool,
    out: Seq<(u128, u32)>,
) -> bool {
    &&& forall|k: int|
        0 <= k < out.len() ==> wanted(bits, q, sp, sc, tp, radius, exact, (#[trigger] out[k]).0)
            && out[k].1 == total(q, sp, sc, tp, out[k].0, 0, 128)
    &&& forall|i: int, j: int|
        0 <= i < j < out.len() ==> (#[trigger] out[i]).0 != (#[trigger] out[j]).0
    &&& forall|tc: u128| #[trigger]
        wanted(bits, q, sp, sc, tp, radius, exact, tc) ==> among(out, out.len() as int, tc)
}

/// Whether `out` lists each word at `radius` exactly once, and no other.
pub open spec fn lists_exact(
    bits: int,
    q: nat,
    sp: u128,
    sc: u128,
    tp: u128,
    radius: int,
    out: Seq<u128>,
) -> bool {
    &&& forall|k: int|
        0 <= k < out.len() ==> wanted(bits, q, sp, sc, tp, radius, true, #[trigger] out[k])
    &&& forall|i: int, j: int| 0 <= i < j < out.len() ==> out[i] != out[j]
    &&& forall|tc: u128| #[trigger]
        wanted(bits, q, sp, sc, tp, radius, true, tc) ==> out.contains(tc)
}

/// The words without their sums.
pub fn first_of(list: Vec<(u128, u32)>) -> (out: Vec<u128>)
    ensures
        out@.len() == list@.len(),
        forall|k: int| 0 <= k < out@.len() ==> #[trigger] out@[k] == list@[k].0,
{
    let mut out: Vec<u128> = Vec::new();
    let mut i: usize = 0;
    while i < list.len()
        invariant
            i <= list@.len(),
            out@.len() == i,
            forall|k: int| 0 <= k < i ==> #[trigger] out@[k] == list@[k].0,
        decreases list@.len() - i,
    {
        out.push(list[i].0);
        i = i + 1;
    }
    out
}

/// Lists the words at `radius` exactly.
pub fn exact_words(bits: u32, q: u32, sp: u128, sc: u128, tp: u128, radius: u32) -> (out: Vec<
    u128,
>)
    requires
        is_width(q as nat),
        bits <= q / 2,
    ensures
        lists_exact(bits as int, q as nat, sp, sc, tp, radius as int, out@),
        q == 128 ==> ({
            let order = exact_order(
                bits as int,
                weight(sc, 64, 128) as int,
                ones(sp) as int,
                ones(tp) as int,
                radius as int,
            );
            &&& out@.len() == order.len()
            &&& forall|k: int|
                0 <= k < out@.len() ==> #[trigger] out@[k] == split_word(
                    order[k],
                    (ones(tp) - order[k]) as u32,
                )
        }),
{
    let list = words(bits, q, sp, sc, tp, radius, true);
    let out = first_of(list);
    proof {
        assert forall|k: int| 0 <= k < out@.len() implies wanted(
            bits as int,
            q as nat,
            sp,
            sc,
            tp,
            radius as int,
            true,
            #[trigger] out@[k],
        ) by {
            assert(out@[k] == list@[k].0);
        }
        assert forall|i: int, j: int| 0 <= i < j < out@.len() implies out@[i] != out@[j] by {
            assert(out@[i] == list@[i].0);
            assert(out@[j] == list@[j].0);
        }
        assert forall|tc: u128| #[trigger]
            wanted(bits as int, q as nat, sp, sc, tp, radius as int, true, tc) implies out@.contains(
            tc,
        ) by {
            let j = choose|j: int| 0 <= j < list@.len() && (#[trigger] list@[j]).0 == tc;
            assert(out@[j] == tc);
        }
        if q == 128 {
            assert forall|k: int| 0 <= k < out@.len() implies #[trigger] out@[k] == split_word(
                exact_order(
                    bits as int,
                    weight(sc, 64, 128) as int,
                    ones(sp) as int,
                    ones(tp) as int,
                    radius as int,
                )[k],
                (ones(tp) - exact_order(
                    bits as int,
                    weight(sc, 64, 128) as int,
                    ones(sp) as int,
                    ones(tp) as int,
                    radius as int,
                )[k]) as u32,
            ) by {
                assert(out@[k] == list@[k].0);
            }
        }
    }
    out
}

/// The index words of a feature at two levels are good, and the sum of
/// their distances to those of another feature is the distance of the index
/// words of the finer level.
pub proof fn lemma_chf_good(q: u128, g: u128, level: nat, lo: nat)
    requires
        level < 7,
        steps(width(level), 0, lo),
        lo <= 128,
    ensures
        good(width(level + 1) as int, width(level), chf(g, level), chf(g, level + 1), lo, 128),
        total(
            width(level),
            chf(q, level),
            chf(q, level + 1),
            chf(g, level),
            chf(g, level + 1),
            lo,
            128,
        ) == level_sod(g, q, width(level + 1), lo),
    decreases 128 - lo,
{
    let qq = width(level);
    let h = width(level + 1);
    lemma_steps_width(level);
    lemma_steps_width(level + 1);
    if lo + qq <= 128 {
        lemma_steps_push(qq, 0, lo);
        lemma_chf_good(q, g, level, lo + qq);
        lemma_steps_halve(h, 0, lo);
        lemma_steps_push(h, 0, lo);
        lemma_chf_fields(g, level, lo);
        lemma_chf_fields(q, level, lo);
        lemma_chf_fields(g, level + 1, lo);
        lemma_chf_fields(g, level + 1, lo + h);
        lemma_chf_fields(q, level + 1, lo);
        lemma_chf_fields(q, level + 1, lo + h);
        lemma_weight_split(g, lo, lo + h, lo + qq);
        lemma_weight_split(q, lo, lo + h, lo + qq);
        lemma_weight_bound(g, lo, lo + h);
        lemma_weight_bound(g, lo + h, lo + qq);
        let tc = chf(g, level + 1);
        let tl = weight(tc, lo + h, lo + qq);
        let tr = weight(tc, lo, lo + h);
        assert(packed(tc, lo + h, h, tl));
        assert(packed(tc, lo, h, tr));
        assert(level_sod(g, q, h, lo + h) == (if weight(g, lo + h, lo + qq) >= weight(
            q,
            lo + h,
            lo + qq,
        ) {
            weight(g, lo + h, lo + qq) - weight(q, lo + h, lo + qq)
        } else {
            weight(q, lo + h, lo + qq) - weight(g, lo + h, lo + qq)
        }) + level_sod(g, q, h, lo + qq));
    } else {
        lemma_steps_last(qq, 0, lo);
    }
}

/// The sum of a word of one place is the sum of distances of its split.
pub proof fn lemma_split_sum(bits: int, sp: u128, sc: u128, tp: u128, tl: u32, tr: u32)
    requires
        tl <= 64,
        tr <= 64,
    ensures
        total(128, sp, sc, tp, split_word(tl, tr), 0, 128) == sod(
            weight(sc, 64, 128) as int,
            ones(sp) as int,
            ones(tp) as int,
            tl as int,
        ),
{
    let tc = split_word(tl, tr);
    assert forall|i: u32| 64 <= i < 64 + 64 implies #[trigger] bit(tc, i) == (0 <= i - 64 < tl) by {
        lemma_bit_or(low_ones(tl) << 64, low_ones(tr), i);
        lemma_bit_shl(low_ones(tl), 64, i);
        lemma_bit_low_ones(tr, i);
        lemma_bit_low_ones(tl, (i - 64) as u32);
    }
    lemma_weight_band(tc, 64, 64, 0, tl as nat);
    assert(total(128, sp, sc, tp, tc, 128, 128) == 0);
}

/// Whether every place of width `h` of `x` from `lo` upwards holds its ones
/// packed to the right.
pub open spec fn all_packed(x: u128, h: nat, lo: nat) -> bool
    decreases 128 - lo,
{
    h == 0 || lo + h > 128 || (packed(x, lo, h, weight(x, lo, lo + h)) && all_packed(
        x,
        h,
        lo + h,
    ))
}

/// The sum, over the places of width `h` from `lo` upwards, of the
/// difference between the ones that `x` and `y` have there.
pub open spec fn place_gap(x: u128, y: u128, h: nat, lo: nat) -> int
    decreases 128 - lo,
{
    if h == 0 || lo + h > 128 {
        0
    } else {
        gap(weight(x, lo, lo + h) as int, weight(y, lo, lo + h) as int) + place_gap(
            x,
            y,
            h,
            lo + h,
        )
    }
}

/// Two words whose places are packed differ in as many bits as the ones of
/// their places differ in sum.
pub proof fn lemma_packed_distance(x: u128, y: u128, h: nat, lo: nat)
    requires
        h > 0,
        steps(h, lo, 128),
        all_packed(x, h, lo),
        all_packed(y, h, lo),
    ensures
        weight(x ^ y, lo, 128) == place_gap(x, y, h, lo),
    decreases 128 - lo,
{
    if lo != 128 {
        let a = weight(x, lo, lo + h);
        let b = weight(y, lo, lo + h);
        lemma_weight_bound(x, lo, lo + h);
        lemma_weight_bound(y, lo, lo + h);
        let m = if a <= b { a } else { b };
        let k = if a <= b { b } else { a };
        assert forall|i: u32| lo <= i < lo + h implies #[trigger] bit(x ^ y, i) == (m <= i - lo
            < k) by {
            lemma_bit_xor(x, y, i);
        }
        lemma_weight_band(x ^ y, lo, h, m, k);
        lemma_weight_split(x ^ y, lo, lo + h, 128);
        lemma_packed_distance(x, y, h, lo + h);
    }
}

/// The places of a good word are packed, and so are those of an index word.
pub proof fn lemma_places_packed(bits: int, f: u128, level: nat, tp: u128, tc: u128, lo: nat)
    requires
        level < 7,
        steps(width(level), 0, lo),
        lo <= 128,
        good(bits, width(level), tp, tc, lo, 128),
    ensures
        all_packed(tc, width(level + 1), lo),
        all_packed(chf(f, level + 1), width(level + 1), lo),
        total(width(level), chf(f, level), chf(f, level + 1), tp, tc, lo, 128) == place_gap(
            tc,
            chf(f, level + 1),
            width(level + 1),
            lo,
        ),
    decreases 128 - lo,
{
    let q = width(level);
    let h = width(level + 1);
    lemma_steps_width(level);
    lemma_steps_width(level + 1);
    if lo + q <= 128 {
        lemma_steps_push(q, 0, lo);
        lemma_places_packed(bits, f, level, tp, tc, lo + q);
        lemma_steps_halve(h, 0, lo);
        lemma_steps_push(h, 0, lo);
        lemma_chf_fields(f, level, lo);
        lemma_chf_fields(f, level + 1, lo);
        lemma_chf_fields(f, level + 1, lo + h);
        lemma_weight_split(f, lo, lo + h, lo + q);
        let sc = chf(f, level + 1);
        assert(packed(sc, lo, h, weight(sc, lo, lo + h)));
        assert(packed(sc, lo + h, h, weight(sc, lo + h, lo + q)));
        assert(all_packed(sc, h, lo + h));
        assert(all_packed(tc, h, lo + h));
        assert(place_gap(tc, sc, h, lo + h) == gap(
            weight(tc, lo + h, lo + q) as int,
            weight(sc, lo + h, lo + q) as int,
        ) + place_gap(tc, sc, h, lo + q));
    } else {
        lemma_steps_last(q, 0, lo);
    }
}

/// The entries of `list`, those with the smaller sums first, and those with
/// one sum in the order in which they stand in `list`.
pub fn sorted_by_sum(list: Vec<(u128, u32)>) -> (out: Vec<(u128, u32)>)
    ensures
        forall|i: int, j: int|
            0 <= i <= j < out@.len() ==> (#[trigger] out@[i]).1 <= (#[trigger] out@[j]).1,
        forall|k: int| 0 <= k < out@.len() ==> list@.contains(#[trigger] out@[k]),
        forall|j: int| 0 <= j < list@.len() ==> out@.contains(#[trigger] list@[j]),
        (forall|i: int, j: int|
            0 <= i < j < list@.len() ==> (#[trigger] list@[i]).0 != (#[trigger] list@[j]).0)
            ==> (forall|i: int, j: int|
            0 <= i < j < out@.len() ==> (#[trigger] out@[i]).0 != (#[trigger] out@[j]).0),
{
    let mut top: u32 = 0;
    let mut i: usize = 0;
    while i < list.len()
        invariant
            i <= list@.len(),
            forall|j: int| 0 <= j < i ==> (#[trigger] list@[j]).1 <= top,
        decreases list@.len() - i,
    {
        if list[i].1 > top {
            top = list[i].1;
        }
        i = i + 1;
    }
    let mut out: Vec<(u128, u32)> = Vec::new();
    let ghost mut src: Seq<int> = Seq::empty();
    let mut sum: u32 = 0;
    loop
        invariant_except_break
            forall|k: int| 0 <= k < out@.len() ==> (#[trigger] out@[k]).1 < sum,
            forall|j: int|
                0 <= j < list@.len() && (#[trigger] list@[j]).1 < sum ==> src.contains(j),
        invariant
            sum <= top,
            forall|j: int| 0 <= j < list@.len() ==> (#[trigger] list@[j]).1 <= top,
            out@.len() == src.len(),
            forall|k: int|
                0 <= k < out@.len() ==> 0 <= #[trigger] src[k] < list@.len() && out@[k]
                    == list@[src[k]],
            forall|a: int, b: int| 0 <= a < b < src.len() ==> #[trigger] src[a] != #[trigger] src[b],
            forall|a: int, b: int|
                0 <= a <= b < out@.len() ==> (#[trigger] out@[a]).1 <= (#[trigger] out@[b]).1,
        ensures
            out@.len() == src.len(),
            forall|k: int|
                0 <= k < out@.len() ==> 0 <= #[trigger] src[k] < list@.len() && out@[k]
                    == list@[src[k]],
            forall|a: int, b: int| 0 <= a < b < src.len() ==> #[trigger] src[a] != #[trigger] src[b],
            forall|a: int, b: int|
                0 <= a <= b < out@.len() ==> (#[trigger] out@[a]).1 <= (#[trigger] out@[b]).1,
            forall|j: int| 0 <= j < list@.len() ==> #[trigger] src.contains(j),
        decreases top - sum,
    {
        let mut k: usize = 0;
        while k < list.len()
            invariant
                k <= list@.len(),
                sum <= top,
                out@.len() == src.len(),
                forall|x: int| 0 <= x < out@.len() ==> (#[trigger] out@[x]).1 <= sum,
                forall|x: int|
                    0 <= x < out@.len() ==> 0 <= #[trigger] src[x] < list@.len() && out@[x]
                        == list@[src[x]] && out@[x].1 <= sum && (out@[x].1 == sum ==> src[x] < k),
                forall|a: int, b: int|
                    0 <= a < b < src.len() ==> #[trigger] src[a] != #[trigger] src[b],
                forall|a: int, b: int|
                    0 <= a <= b < out@.len() ==> (#[trigger] out@[a]).1 <= (#[trigger] out@[b]).1,
                forall|j: int|
                    0 <= j < list@.len() && ((#[trigger] list@[j]).1 < sum || (list@[j].1 == sum
                        && j < k)) ==> src.contains(j),
            decreases list@.len() - k,
        {
            if list[k].1 == sum {
                let ghost before = src;
                let ghost held = out@;
                out.push(list[k]);
                proof {
                    src = src.push(k as int);
                    assert forall|a: int, b: int| 0 <= a <= b < out@.len() implies (
                    #[trigger] out@[a]).1 <= (#[trigger] out@[b]).1 by {
                        if b < held.len() {
                            assert(out@[a] == held[a]);
                            assert(out@[b] == held[b]);
                        } else if a < held.len() {
                            assert(out@[a] == held[a]);
                            assert(before[a] == src[a]);
                        }
                    }
                    assert forall|a: int, b: int| 0 <= a < b < src.len() implies #[trigger] src[a]
                        != #[trigger] src[b] by {
                        if b < before.len() {
                            assert(before[a] != before[b]);
                        } else {
                            assert(out@[a] == held[a]);
                            assert(before[a] == src[a]);
                        }
                    }
                    assert forall|j: int|
                        0 <= j < list@.len() && ((#[trigger] list@[j]).1 < sum || (list@[j].1
                            == sum && j < k + 1)) implies src.contains(j) by {
                        if j == k {
                            assert(src[before.len() as int] == j);
                        } else {
                            assert(before.contains(j));
                            let x = choose|x: int| 0 <= x < before.len() && before[x] == j;
                            assert(src[x] == j);
                        }
                    }
                }
            }
            k = k + 1;
        }
        if sum == top {
            proof {
                assert forall|j: int| 0 <= j < list@.len() implies #[trigger] src.contains(j) by {
                    assert(list@[j].1 <= top);
                }
            }
            break ;
        }
        sum = sum + 1;
    }
    proof {
        assert forall|k: int| 0 <= k < out@.len() implies list@.contains(#[trigger] out@[k]) by {
            assert(list@[src[k]] == out@[k]);
        }
        assert forall|j: int| 0 <= j < list@.len() implies out@.contains(#[trigger] list@[j]) by {
            assert(src.contains(j));
            let x = choose|x: int| 0 <= x < src.len() && src[x] == j;
            assert(out@[x] == list@[j]);
        }
        if forall|i: int, j: int|
            0 <= i < j < list@.len() ==> (#[trigger] list@[i]).0 != (#[trigger] list@[j]).0 {
            assert forall|i: int, j: int| 0 <= i < j < out@.len() implies (#[trigger] out@[i]).0
                != (#[trigger] out@[j]).0 by {
                let a = src[i];
                let b = src[j];
                if a < b {
                    assert(list@[a].0 != list@[b].0);
                } else {
                    assert(list@[b].0 != list@[a].0);
                }
            }
        }
    }
    out
}

/// Lists the words within `radius`, each with its sum, those with the
/// smaller sums first.
pub fn radius_words(bits: u32, q: u32, sp: u128, sc: u128, tp: u128, radius: u32) -> (out: Vec<
    (u128, u32),
>)
    requires
        is_width(q as nat),
        bits <= q / 2,
    ensures
        lists(bits as int, q as nat, sp, sc, tp, radius as int, false, out@),
        forall|i: int, j: int|
            0 <= i <= j < out@.len() ==> (#[trigger] out@[i]).1 <= (#[trigger] out@[j]).1,
{
    let list = words(bits, q, sp, sc, tp, radius, false);
    let out = sorted_by_sum(list);
    proof {
        assert forall|k: int| 0 <= k < out@.len() implies wanted(
            bits as int,
            q as nat,
            sp,
            sc,
            tp,
            radius as int,
            false,
            (#[trigger] out@[k]).0,
        ) && out@[k].1 == total(q as nat, sp, sc, tp, out@[k].0, 0, 128) by {
            assert(list@.contains(out@[k]));
            let j = choose|j: int| 0 <= j < list@.len() && list@[j] == out@[k];
            assert(list@[j] == out@[k]);
        }
        assert forall|tc: u128| #[trigger]
            wanted(bits as int, q as nat, sp, sc, tp, radius as int, false, tc) implies among(
            out@,
            out@.len() as int,
            tc,
        ) by {
            let j = choose|j: int| 0 <= j < list@.len() && (#[trigger] list@[j]).0 == tc;
            assert(out@.contains(list@[j]));
            let k = choose|k: int| 0 <= k < out@.len() && out@[k] == list@[j];
            assert(out@[k].0 == tc);
        }
    }
    out
}

} // verus!
