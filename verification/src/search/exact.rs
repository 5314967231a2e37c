//! Every split of the target's weights that lies at a radius exactly.
use crate::bits::{hamming, ones, weight};
use crate::chf::{chf, lemma_chf_distance, lemma_steps_width, width};
use crate::search::words::{
    exact_words, lemma_chf_good, lemma_packed_distance, lemma_places_packed, lists_exact,
    split_word, wanted,
};
use crate::search::{exact_order, exact_tls, in_domain, lemma_exact_order, sod};
use vstd::prelude::*;

verus! {

/// Lists the splits `[tl, tr]` of a target substring of weight `tw` whose sum
/// of distances to a search substring of weight `sw`, with `sl` ones on the
/// left, is `radius` exactly; each half is `bits` wide.
///
/// The splits come in the order `exact_order`. Each split that the target can
/// have at `radius` is listed once, and no other.
pub fn search_exact(bits: u32, sl: u32, sw: u32, tw: u32, radius: u32) -> (out: Vec<[u32; 2]>)
    ensures
        out@.len() == exact_order(
            bits as int,
            sl as int,
            sw as int,
            tw as int,
            radius as int,
        ).len(),
        forall|i: int|
            0 <= i < out@.len() ==> {
                &&& (#[trigger] out@[i])[0] == exact_order(
                    bits as int,
                    sl as int,
                    sw as int,
                    tw as int,
                    radius as int,
                )[i]
                &&& out@[i][0] + out@[i][1] == tw
            },
        forall|i: int, j: int|
            0 <= i < j < out@.len() ==> (#[trigger] out@[i])[0] != (#[trigger] out@[j])[0],
        forall|tl: int|
            (in_domain(bits as int, tw as int, tl) && #[trigger] sod(
                sl as int,
                sw as int,
                tw as int,
                tl,
            ) == radius) <==> (exists|i: int| 0 <= i < out@.len() && (#[trigger] out@[i])[0] == tl),
{
    let tls = exact_tls(bits, sl, sw, tw, radius);
    let ghost order = exact_order(bits as int, sl as int, sw as int, tw as int, radius as int);
    proof {
        lemma_exact_order(bits as int, sl as int, sw as int, tw as int, radius as int);
    }
    let mut out: Vec<[u32; 2]> = Vec::new();
    let mut i: usize = 0;
    while i < tls.len()
        invariant
            0 <= i <= tls@.len(),
            tls@ == order,
            out@.len() == i,
            forall|k: int|
                0 <= k < order.len() ==> sod(
                    sl as int,
                    sw as int,
                    tw as int,
                    #[trigger] order[k] as int,
                ) == radius && in_domain(bits as int, tw as int, order[k] as int),
            forall|k: int|
                0 <= k < i ==> {
                    &&& (#[trigger] out@[k])[0] == order[k]
                    &&& out@[k][0] + out@[k][1] == tw
                },
        decreases tls@.len() - i,
    {
        let tl: u32 = tls[i];
        assert(in_domain(bits as int, tw as int, order[i as int] as int));
        let pair: [u32; 2] = [tl, tw - tl];
        out.push(pair);
        i = i + 1;
    }
    proof {
        assert forall|tl: int|
            (in_domain(bits as int, tw as int, tl) && #[trigger] sod(
                sl as int,
                sw as int,
                tw as int,
                tl,
            ) == radius) <==> (exists|i: int|
                0 <= i < out@.len() && (#[trigger] out@[i])[0] == tl) by {
            if in_domain(bits as int, tw as int, tl) && sod(sl as int, sw as int, tw as int, tl)
                == radius {
                let k = choose|k: int| 0 <= k < order.len() && #[trigger] order[k] == tl;
                assert(out@[k][0] == tl);
            }
            if exists|i: int| 0 <= i < out@.len() && (#[trigger] out@[i])[0] == tl {
                let k = choose|i: int| 0 <= i < out@.len() && (#[trigger] out@[i])[0] == tl;
                assert(order[k] as int == tl);
            }
        }
        assert forall|i: int, j: int| 0 <= i < j < out@.len() implies (#[trigger] out@[i])[0] != (
        #[trigger] out@[j])[0] by {
            let a = order[i];
            let b = order[j];
        }
    }
    out
}

/// Whether `sp` and `sc` are the index words of `q` at `level` and the next,
/// `tp` is the index word of `g` at `level`, and the index word of `g` at the
/// next level lies at `radius` from `sc`.
pub open spec fn hit_at(
    q: u128,
    g: u128,
    level: nat,
    sp: u128,
    sc: u128,
    tp: u128,
    radius: nat,
) -> bool {
    sp == chf(q, level) && sc == chf(q, level + 1) && tp == chf(g, level) && hamming(
        chf(g, level + 1),
        sc,
    ) == radius
}

/// Lists the words of children that a target can have at `radius` exactly
/// from the search feature. The parents `sp` and `tp` stand in
/// one place of width 128, the children `sc` in its halves, the left child in the
/// upper half; no child has more than `bits` ones.
///
/// Each such word is listed once, and no other.
/// The words come in the order in which `search_exact` lists the splits.
pub fn search_exact2(bits: u32, sp: u128, sc: u128, tp: u128, radius: u32) -> (out: Vec<u128>)
    requires
        bits <= 64,
    ensures
        lists_exact(bits as int, 128, sp, sc, tp, radius as int, out@),
        out@.len() == exact_order(
            bits as int,
            weight(sc, 64, 128) as int,
            ones(sp) as int,
            ones(tp) as int,
            radius as int,
        ).len(),
        forall|k: int|
            0 <= k < out@.len() ==> #[trigger] out@[k] == split_word(
                exact_order(
                    bits as int,
                    weight(sc, 64, 128) as int,
                    ones(sp) as int,
                    ones(tp) as int,
                    radius as int,
                )[k],
                (ones(tp) - exact_order(
                    bits as int,
                    weight(sc, 64, 128) as int,
                    ones(sp) as int,
                    ones(tp) as int,
                    radius as int,
                )[k]) as u32,
            ),
{
    exact_words(bits, 128, sp, sc, tp, radius)
}


/// Lists the words of children that a target can have at `radius` exactly
/// from the search feature. The parents `sp` and `tp` stand in
/// 2 places of width 64, the children `sc` in its halves, the left child in the
/// upper half; no child has more than `bits` ones.
///
/// Each such word is listed once, and no other.
pub fn search_exact4(bits: u32, sp: u128, sc: u128, tp: u128, radius: u32) -> (out: Vec<u128>)
    requires
        bits <= 32,
    ensures
        lists_exact(bits as int, 64, sp, sc, tp, radius as int, out@),
{
    exact_words(bits, 64, sp, sc, tp, radius)
}


/// Lists the words of children that a target can have at `radius` exactly
/// from the search feature. The parents `sp` and `tp` stand in
/// 4 places of width 32, the children `sc` in its halves, the left child in the
/// upper half; no child has more than `bits` ones.
///
/// Each such word is listed once, and no other.
pub fn search_exact8(bits: u32, sp: u128, sc: u128, tp: u128, radius: u32) -> (out: Vec<u128>)
    requires
        bits <= 16,
    ensures
        lists_exact(bits as int, 32, sp, sc, tp, radius as int, out@),
{
    exact_words(bits, 32, sp, sc, tp, radius)
}


/// Lists the words of children that a target can have at `radius` exactly
/// from the search feature. The parents `sp` and `tp` stand in
/// 8 places of width 16, the children `sc` in its halves, the left child in the
/// upper half; no child has more than `bits` ones.
///
/// Each such word is listed once, and no other.
pub fn search_exact16(bits: u32, sp: u128, sc: u128, tp: u128, radius: u32) -> (out: Vec<u128>)
    requires
        bits <= 8,
    ensures
        lists_exact(bits as int, 16, sp, sc, tp, radius as int, out@),
{
    exact_words(bits, 16, sp, sc, tp, radius)
}


/// Lists the words of children that a target can have at `radius` exactly
/// from the search feature. The parents `sp` and `tp` stand in
/// 16 places of width 8, the children `sc` in its halves, the left child in the
/// upper half; no child has more than `bits` ones.
///
/// Each such word is listed once, and no other.
pub fn search_exact32(bits: u32, sp: u128, sc: u128, tp: u128, radius: u32) -> (out: Vec<u128>)
    requires
        bits <= 4,
    ensures
        lists_exact(bits as int, 8, sp, sc, tp, radius as int, out@),
{
    exact_words(bits, 8, sp, sc, tp, radius)
}


/// Lists the words of children that a target can have at `radius` exactly
/// from the search feature. The parents `sp` and `tp` stand in
/// 32 places of width 4, the children `sc` in its halves, the left child in the
/// upper half; no child has more than `bits` ones.
///
/// Each such word is listed once, and no other.
pub fn search_exact64(bits: u32, sp: u128, sc: u128, tp: u128, radius: u32) -> (out: Vec<u128>)
    requires
        bits <= 2,
    ensures
        lists_exact(bits as int, 4, sp, sc, tp, radius as int, out@),
{
    exact_words(bits, 4, sp, sc, tp, radius)
}


/// Lists the words of children that a target can have at `radius` exactly
/// from the search feature. The parents `sp` and `tp` stand in
/// 64 places of width 2, the children `sc` in its halves, the left child in the
/// upper half; no child has more than `bits` ones.
///
/// Each such word is listed once, and no other.
pub fn search_exact128(bits: u32, sp: u128, sc: u128, tp: u128, radius: u32) -> (out: Vec<u128>)
    requires
        bits <= 1,
    ensures
        lists_exact(bits as int, 2, sp, sc, tp, radius as int, out@),
{
    exact_words(bits, 2, sp, sc, tp, radius)
}


/// Whether `sp` and `sc` are the index words of `q` at `level` and the next.
pub open spec fn words_of(q: u128, level: nat, sp: u128, sc: u128) -> bool {
    sp == chf(q, level) && sc == chf(q, level + 1)
}

/// Lists words of the level after `level`, where `sp` and `sc` are the index
/// words of one feature at `level` and the level after: every word listed
/// lies at `radius` from `sc`, and every index word at that distance of a
/// feature whose index word at `level` is `tp` is listed. No word is listed
/// twice.
pub fn search_exact_at(level: u8, sp: u128, sc: u128, tp: u128, radius: u32) -> (out: Vec<u128>)
    requires
        level < 7,
    ensures
        forall|i: int, j: int| 0 <= i < j < out@.len() ==> out@[i] != out@[j],
        forall|q: u128, g: u128| #[trigger]
            hit_at(q, g, level as nat, sp, sc, tp, radius as nat) ==> out@.contains(
                chf(g, level as nat + 1),
            ),
        forall|q: u128, i: int|
            #[trigger] words_of(q, level as nat, sp, sc) && 0 <= i < out@.len() ==> hamming(
                #[trigger] out@[i],
                sc,
            ) == radius,
{
    let out = match level {
        0 => search_exact2(64, sp, sc, tp, radius),
        1 => search_exact4(32, sp, sc, tp, radius),
        2 => search_exact8(16, sp, sc, tp, radius),
        3 => search_exact16(8, sp, sc, tp, radius),
        4 => search_exact32(4, sp, sc, tp, radius),
        5 => search_exact64(2, sp, sc, tp, radius),
        _ => search_exact128(1, sp, sc, tp, radius),
    };
    proof {
        assert forall|q: u128, i: int|
            #[trigger] words_of(q, level as nat, sp, sc) && 0 <= i < out@.len() implies hamming(
            #[trigger] out@[i],
            sc,
        ) == radius by {
            let tc = out@[i];
            assert(wanted(
                width(level as nat + 1) as int,
                width(level as nat),
                sp,
                sc,
                tp,
                radius as int,
                true,
                tc,
            ));
            lemma_places_packed(width(level as nat + 1) as int, q, level as nat, tp, tc, 0);
            lemma_steps_width(level as nat + 1);
            lemma_packed_distance(tc, sc, width(level as nat + 1), 0);
        }
        assert forall|q: u128, g: u128| #[trigger]
            hit_at(q, g, level as nat, sp, sc, tp, radius as nat) implies out@.contains(
            chf(g, level as nat + 1),
        ) by {
            lemma_chf_good(q, g, level as nat, 0);
            lemma_chf_distance(g, q, level as nat + 1);
            lemma_chf_distance(q, g, level as nat + 1);
            assert(wanted(
                width(level as nat + 1) as int,
                width(level as nat),
                sp,
                sc,
                tp,
                radius as int,
                true,
                chf(g, level as nat + 1),
            ));
        }
    }
    out
}

} // verus!
