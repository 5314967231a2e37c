//! Every split of the target's weights that stays within a radius.
use crate::bits::{lemma_weight_bound, ones, weight};
use crate::search::words::{lemma_split_sum, lists, radius_words, split_word, words};
use crate::search::{
    in_domain, lemma_radius_order, radius_order, radius_rank, radius_tls, sod, sod_of,
};
use vstd::prelude::*;

verus! {

/// Lists the splits `[tl, tr]` of a target substring of weight `tw` whose sum
/// of distances to a search substring of weight `sw`, with `sl` ones on the
/// left, is at most `radius`; each half is `bits` wide. Each split comes with
/// its sum of distances.
///
/// The splits come in the order `radius_order`: the ones with the least sum
/// first, and none with a smaller sum after one with a larger. Each split
/// that the target can have within `radius` is listed once.
pub fn search_radius(bits: u32, sl: u32, sw: u32, tw: u32, radius: u32) -> (out: Vec<
    ([u32; 2], u32),
>)
    ensures
        out@.len() == radius_order(
            bits as int,
            sl as int,
            sw as int,
            tw as int,
            radius as int,
        ).len(),
        forall|i: int|
            0 <= i < out@.len() ==> {
                &&& (#[trigger] out@[i]).0[0] == radius_order(
                    bits as int,
                    sl as int,
                    sw as int,
                    tw as int,
                    radius as int,
                )[i]
                &&& out@[i].0[0] + out@[i].0[1] == tw
                &&& out@[i].1 == sod(sl as int, sw as int, tw as int, out@[i].0[0] as int)
            },
        forall|i: int, j: int|
            0 <= i <= j < out@.len() ==> (#[trigger] out@[i]).1 <= (#[trigger] out@[j]).1,
        forall|i: int, j: int|
            0 <= i < j < out@.len() ==> (#[trigger] out@[i]).0[0] != (#[trigger] out@[j]).0[0],
        forall|tl: int|
            (in_domain(bits as int, tw as int, tl) && #[trigger] sod(
                sl as int,
                sw as int,
                tw as int,
                tl,
            ) <= radius) <==> (exists|i: int|
                0 <= i < out@.len() && (#[trigger] out@[i]).0[0] == tl),
{
    let tls = radius_tls(bits, sl, sw, tw, radius);
    let ghost order = radius_order(bits as int, sl as int, sw as int, tw as int, radius as int);
    proof {
        lemma_radius_order(bits as int, sl as int, sw as int, tw as int, radius as int);
    }
    let mut out: Vec<([u32; 2], u32)> = Vec::new();
    let mut i: usize = 0;
    while i < tls.len()
        invariant
            0 <= i <= tls@.len(),
            tls@ == order,
            out@.len() == i,
            forall|k: int|
                0 <= k < order.len() ==> sod(
                    sl as int,
                    sw as int,
                    tw as int,
                    #[trigger] order[k] as int,
                ) <= radius && in_domain(bits as int, tw as int, order[k] as int),
            forall|k: int|
                0 <= k < i ==> {
                    &&& (#[trigger] out@[k]).0[0] == order[k]
                    &&& out@[k].0[0] + out@[k].0[1] == tw
                    &&& out@[k].1 == sod(sl as int, sw as int, tw as int, order[k] as int)
                },
        decreases tls@.len() - i,
    {
        let tl: u32 = tls[i];
        assert(in_domain(bits as int, tw as int, order[i as int] as int));
        let pair: [u32; 2] = [tl, tw - tl];
        out.push((pair, sod_of(sl, sw, tw, tl)));
        i = i + 1;
    }
    proof {
        assert forall|tl: int|
            (in_domain(bits as int, tw as int, tl) && #[trigger] sod(
                sl as int,
                sw as int,
                tw as int,
                tl,
            ) <= radius) <==> (exists|i: int|
                0 <= i < out@.len() && (#[trigger] out@[i]).0[0] == tl) by {
            if in_domain(bits as int, tw as int, tl) && sod(sl as int, sw as int, tw as int, tl)
                <= radius {
                let k = radius_rank(
                    bits as int,
                    sl as int,
                    sw as int,
                    tw as int,
                    radius as int,
                    tl,
                );
                assert(out@[k].0[0] == tl);
            }
            if exists|i: int| 0 <= i < out@.len() && (#[trigger] out@[i]).0[0] == tl {
                let k = choose|i: int| 0 <= i < out@.len() && (#[trigger] out@[i]).0[0] == tl;
                assert(order[k] as int == tl);
            }
        }
        assert forall|i: int, j: int| 0 <= i < j < out@.len() implies (#[trigger] out@[i]).0[0]
            != (#[trigger] out@[j]).0[0] by {
            let a = order[i];
            let b = order[j];
        }
        assert forall|i: int, j: int| 0 <= i <= j < out@.len() implies (#[trigger] out@[i]).1 <= (
        #[trigger] out@[j]).1 by {
            let a = order[i];
            let b = order[j];
        }
    }
    out
}

/// Lists the words of children that a target can have within `radius` of
/// the search feature, each with its sum of distances. The parents `sp`
/// and `tp` stand in one place of width 128, the children `sc` in its halves, the
/// left child in the upper half; no child has more than `bits` ones.
///
/// Each such word is listed once, and no other.
/// The words come in the order in which `search_radius` lists the splits:
/// none with a smaller sum after one with a larger.
pub fn search_radius2(bits: u32, sp: u128, sc: u128, tp: u128, radius: u32) -> (out: Vec<
    (u128, u32),
>)
    requires
        bits <= 64,
    ensures
        lists(bits as int, 128, sp, sc, tp, radius as int, false, out@),
        out@.len() == radius_order(
            bits as int,
            weight(sc, 64, 128) as int,
            ones(sp) as int,
            ones(tp) as int,
            radius as int,
        ).len(),
        forall|k: int|
            0 <= k < out@.len() ==> (#[trigger] out@[k]).0 == split_word(
                radius_order(
                    bits as int,
                    weight(sc, 64, 128) as int,
                    ones(sp) as int,
                    ones(tp) as int,
                    radius as int,
                )[k],
                (ones(tp) - radius_order(
                    bits as int,
                    weight(sc, 64, 128) as int,
                    ones(sp) as int,
                    ones(tp) as int,
                    radius as int,
                )[k]) as u32,
            ),
        forall|i: int, j: int|
            0 <= i <= j < out@.len() ==> (#[trigger] out@[i]).1 <= (#[trigger] out@[j]).1,
{
    let out = words(bits, 128, sp, sc, tp, radius, false);
    proof {
        lemma_weight_bound(tp, 0, 128);
        lemma_radius_order(
            bits as int,
            weight(sc, 64, 128) as int,
            ones(sp) as int,
            ones(tp) as int,
            radius as int,
        );
        let order = radius_order(
            bits as int,
            weight(sc, 64, 128) as int,
            ones(sp) as int,
            ones(tp) as int,
            radius as int,
        );
        assert forall|i: int, j: int| 0 <= i <= j < out@.len() implies (#[trigger] out@[i]).1 <= (
        #[trigger] out@[j]).1 by {
            let a = order[i];
            let b = order[j];
            lemma_split_sum(bits as int, sp, sc, tp, a, (ones(tp) - a) as u32);
            lemma_split_sum(bits as int, sp, sc, tp, b, (ones(tp) - b) as u32);
        }
    }
    out
}


/// Lists the words of children that a target can have within `radius` of
/// the search feature, each with its sum of distances. The parents `sp`
/// and `tp` stand in 2 places of width 64, the children `sc` in its halves, the
/// left child in the upper half; no child has more than `bits` ones.
///
/// Each such word is listed once, and no other; none with a smaller sum
/// comes after one with a larger.
pub fn search_radius4(bits: u32, sp: u128, sc: u128, tp: u128, radius: u32) -> (out: Vec<
    (u128, u32),
>)
    requires
        bits <= 32,
    ensures
        lists(bits as int, 64, sp, sc, tp, radius as int, false, out@),
        forall|i: int, j: int|
            0 <= i <= j < out@.len() ==> (#[trigger] out@[i]).1 <= (#[trigger] out@[j]).1,
{
    radius_words(bits, 64, sp, sc, tp, radius)
}


/// Lists the words of children that a target can have within `radius` of
/// the search feature, each with its sum of distances. The parents `sp`
/// and `tp` stand in 4 places of width 32, the children `sc` in its halves, the
/// left child in the upper half; no child has more than `bits` ones.
///
/// Each such word is listed once, and no other; none with a smaller sum
/// comes after one with a larger.
pub fn search_radius8(bits: u32, sp: u128, sc: u128, tp: u128, radius: u32) -> (out: Vec<
    (u128, u32),
>)
    requires
        bits <= 16,
    ensures
        lists(bits as int, 32, sp, sc, tp, radius as int, false, out@),
        forall|i: int, j: int|
            0 <= i <= j < out@.len() ==> (#[trigger] out@[i]).1 <= (#[trigger] out@[j]).1,
{
    radius_words(bits, 32, sp, sc, tp, radius)
}


/// Lists the words of children that a target can have within `radius` of
/// the search feature, each with its sum of distances. The parents `sp`
/// and `tp` stand in 8 places of width 16, the children `sc` in its halves, the
/// left child in the upper half; no child has more than `bits` ones.
///
/// Each such word is listed once, and no other; none with a smaller sum
/// comes after one with a larger.
pub fn search_radius16(bits: u32, sp: u128, sc: u128, tp: u128, radius: u32) -> (out: Vec<
    (u128, u32),
>)
    requires
        bits <= 8,
    ensures
        lists(bits as int, 16, sp, sc, tp, radius as int, false, out@),
        forall|i: int, j: int|
            0 <= i <= j < out@.len() ==> (#[trigger] out@[i]).1 <= (#[trigger] out@[j]).1,
{
    radius_words(bits, 16, sp, sc, tp, radius)
}


/// Lists the words of children that a target can have within `radius` of
/// the search feature, each with its sum of distances. The parents `sp`
/// and `tp` stand in 16 places of width 8, the children `sc` in its halves, the
/// left child in the upper half; no child has more than `bits` ones.
///
/// Each such word is listed once, and no other; none with a smaller sum
/// comes after one with a larger.
pub fn search_radius32(bits: u32, sp: u128, sc: u128, tp: u128, radius: u32) -> (out: Vec<
    (u128, u32),
>)
    requires
        bits <= 4,
    ensures
        lists(bits as int, 8, sp, sc, tp, radius as int, false, out@),
        forall|i: int, j: int|
            0 <= i <= j < out@.len() ==> (#[trigger] out@[i]).1 <= (#[trigger] out@[j]).1,
{
    radius_words(bits, 8, sp, sc, tp, radius)
}


/// Lists the words of children that a target can have within `radius` of
/// the search feature, each with its sum of distances. The parents `sp`
/// and `tp` stand in 32 places of width 4, the children `sc` in its halves, the
/// left child in the upper half; no child has more than `bits` ones.
///
/// Each such word is listed once, and no other; none with a smaller sum
/// comes after one with a larger.
pub fn search_radius64(bits: u32, sp: u128, sc: u128, tp: u128, radius: u32) -> (out: Vec<
    (u128, u32),
>)
    requires
        bits <= 2,
    ensures
        lists(bits as int, 4, sp, sc, tp, radius as int, false, out@),
        forall|i: int, j: int|
            0 <= i <= j < out@.len() ==> (#[trigger] out@[i]).1 <= (#[trigger] out@[j]).1,
{
    radius_words(bits, 4, sp, sc, tp, radius)
}


/// Lists the words of children that a target can have within `radius` of
/// the search feature, each with its sum of distances. The parents `sp`
/// and `tp` stand in 64 places of width 2, the children `sc` in its halves, the
/// left child in the upper half; no child has more than `bits` ones.
///
/// Each such word is listed once, and no other; none with a smaller sum
/// comes after one with a larger.
pub fn search_radius128(bits: u32, sp: u128, sc: u128, tp: u128, radius: u32) -> (out: Vec<
    (u128, u32),
>)
    requires
        bits <= 1,
    ensures
        lists(bits as int, 2, sp, sc, tp, radius as int, false, out@),
        forall|i: int, j: int|
            0 <= i <= j < out@.len() ==> (#[trigger] out@[i]).1 <= (#[trigger] out@[j]).1,
{
    radius_words(bits, 2, sp, sc, tp, radius)
}

} // verus!
