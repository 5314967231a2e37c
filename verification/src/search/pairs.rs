//! The search over several pairs of substrings at once, by bucket index.
//!
//! A feature is cut into pairs of substrings, each substring `bits` wide.
//! For every pair the target's weight is given. [`pair_list`] lists, for all
//! the pairs together, the ways in which the target can split its weights
//! within a radius: for each way an index, the sum of distances, the size of
//! the bucket that the index counts in, and the weights of the substrings.
//! The pairs are searched half by half: the upper half with what the lower
//! half has left of the radius.
use crate::bits::{lemma_weight_bound, ones};
use crate::indices::low_mask;
use crate::search::{
    in_domain, left_half, lemma_radius_order, radius_order, search2, sod, tl_max, tl_min,
};
use vstd::prelude::*;

verus! {

/// What `search2` lists for one pair.
pub open spec fn base_list(bits: u32, feature: u128, tw: u32, radius: int) -> Seq<
    (int, int, int, Seq<u32>),
> {
    let sl = ones(left_half(feature, bits)) as int;
    let sw = ones(feature) as int;
    let order = radius_order(bits as int, sl, sw, tw as int, radius);
    let lo = tl_min(bits as int, tw as int);
    Seq::new(
        order.len(),
        |i: int|
            (
                order[i] as int,
                sod(sl, sw, tw as int, order[i] as int),
                tl_max(bits as int, tw as int) - lo + 1,
                seq![(tw - (order[i] + lo)) as u32, (order[i] + lo) as u32],
            ),
    )
}

/// An entry of the lower half and one of the upper half, put together.
pub open spec fn join_one(l: (int, int, int, Seq<u32>), h: (int, int, int, Seq<u32>)) -> (
    int,
    int,
    int,
    Seq<u32>,
) {
    (h.0 * l.2 + l.0, l.1 + h.1, l.2 * h.2, l.3 + h.3)
}

/// An entry of the lower half put together with each entry of the upper half.
pub open spec fn joined(l: (int, int, int, Seq<u32>), hs: Seq<(int, int, int, Seq<u32>)>) -> Seq<
    (int, int, int, Seq<u32>),
> {
    Seq::new(hs.len(), |i: int| join_one(l, hs[i]))
}

/// What is listed for `m` pairs with the target weights `tws`: for one pair
/// what `search2` lists, for more the entries of the lower half of the pairs,
/// each put together with the entries of the upper half that the rest of the
/// radius allows.
pub open spec fn pair_list(m: nat, bits: u32, feature: u128, tws: Seq<u32>, radius: int) -> Seq<
    (int, int, int, Seq<u32>),
>
    decreases m, 0nat, 0nat,
{
    if m <= 1 {
        base_list(bits, feature, tws[0], radius)
    } else {
        let s = (bits * m) as u32;
        let low = pair_list(m / 2, bits, feature & low_ones_of(s), tws.take((m / 2) as int), radius);
        cross(low, 0, m / 2, bits, feature >> s, tws.skip((m / 2) as int), radius)
    }
}

/// The entries of the lower half from `from` on, each put together with the
/// entries of the upper half.
pub open spec fn cross(
    low: Seq<(int, int, int, Seq<u32>)>,
    from: nat,
    hm: nat,
    bits: u32,
    hf: u128,
    htws: Seq<u32>,
    radius: int,
) -> Seq<(int, int, int, Seq<u32>)>
    decreases hm, 1nat, low.len() - from,
{
    if from >= low.len() {
        Seq::empty()
    } else {
        joined(low[from as int], pair_list(hm, bits, hf, htws, radius - low[from as int].1))
            + cross(low, from + 1, hm, bits, hf, htws, radius)
    }
}

/// The mask of the lowest `s` bits.
pub open spec fn low_ones_of(s: u32) -> u128 {
    crate::bits::low_ones(s)
}

/// A bound on the indices and bucket sizes listed for `m` pairs: the
/// product, over the pairs, of one more than the greatest left weight.
pub open spec fn room(m: nat, bits: u32, tws: Seq<u32>) -> nat
    decreases m,
{
    if m <= 1 {
        (tl_max(bits as int, tws[0] as int) + 1) as nat
    } else {
        room(m / 2, bits, tws.take((m / 2) as int)) * room(m / 2, bits, tws.skip((m / 2) as int))
    }
}

/// There is room for one entry at least.
pub proof fn lemma_room(m: nat, bits: u32, tws: Seq<u32>)
    ensures
        room(m, bits, tws) >= 1,
    decreases m,
{
    if m > 1 {
        let a = room(m / 2, bits, tws.take((m / 2) as int));
        let b = room(m / 2, bits, tws.skip((m / 2) as int));
        lemma_room(m / 2, bits, tws.take((m / 2) as int));
        lemma_room(m / 2, bits, tws.skip((m / 2) as int));
        assert(a * b >= 1) by (nonlinear_arith)
            requires
                a >= 1,
                b >= 1,
        ;
    }
}

/// An entry as the plain values it holds.
pub open spec fn entry_view(e: (usize, u32, usize, Vec<u32>)) -> (int, int, int, Seq<u32>) {
    (e.0 as int, e.1 as int, e.2 as int, e.3@)
}

/// A list of entries as the plain values they hold.
pub open spec fn list_view(v: Seq<(usize, u32, usize, Vec<u32>)>) -> Seq<(int, int, int, Seq<u32>)> {
    Seq::new(v.len(), |i: int| entry_view(v[i]))
}

/// The one vector after the other.
pub fn concat(a: &Vec<u32>, b: &Vec<u32>) -> (r: Vec<u32>)
    ensures
        r@ == a@ + b@,
{
    let mut r: Vec<u32> = Vec::new();
    let mut i: usize = 0;
    while i < a.len()
        invariant
            i <= a@.len(),
            r@ == a@.take(i as int),
        decreases a@.len() - i,
    {
        r.push(a[i]);
        i = i + 1;
        assert(r@ =~= a@.take(i as int));
    }
    let mut j: usize = 0;
    while j < b.len()
        invariant
            j <= b@.len(),
            r@ == a@ + b@.take(j as int),
        decreases b@.len() - j,
    {
        r.push(b[j]);
        j = j + 1;
        assert(r@ =~= a@ + b@.take(j as int));
    }
    assert(r@ =~= a@ + b@);
    r
}

/// Lists `pair_list` for the `m` target weights of `tws` from `from` on.
pub fn search_pairs(
    bits: u32,
    m: u32,
    feature: u128,
    tws: &Vec<u32>,
    from: usize,
    radius: u32,
) -> (out: Vec<(usize, u32, usize, Vec<u32>)>)
    requires
        m == 1 || m == 2 || m == 4 || m == 8 || m == 16 || m == 32 || m == 64,
        from + m <= tws@.len(),
        bits * m < 128,
        forall|j: int| from <= j < from + m ==> (#[trigger] tws@[j]) <= 2 * bits,
        room(m as nat, bits, tws@.subrange(from as int, from + m)) <= usize::MAX,
    ensures
        list_view(out@) == pair_list(
            m as nat,
            bits,
            feature,
            tws@.subrange(from as int, from + m),
            radius as int,
        ),
        forall|k: int|
            0 <= k < out@.len() ==> (#[trigger] out@[k]).0 < room(
                m as nat,
                bits,
                tws@.subrange(from as int, from + m),
            ) && 1 <= out@[k].2 <= room(m as nat, bits, tws@.subrange(from as int, from + m))
                && out@[k].1 <= radius && out@[k].3@.len() == 2 * m,
    decreases m,
{
    let ghost sub = tws@.subrange(from as int, from + m);
    let mut out: Vec<(usize, u32, usize, Vec<u32>)> = Vec::new();
    if m == 1 {
        let tw: u32 = tws[from];
        let found = search2(bits, feature, tw, radius);
        let ghost sl = ones(left_half(feature, bits)) as int;
        let ghost sw = ones(feature) as int;
        proof {
            assert(sub[0] == tw);
            lemma_weight_bound(feature, 0, 128);
            lemma_radius_order(bits as int, sl, sw, tw as int, radius as int);
        }
        let mut i: usize = 0;
        while i < found.len()
            invariant
                i <= found@.len(),
                out@.len() == i,
                forall|k: int|
                    0 <= k < i ==> (#[trigger] out@[k]).0 == found@[k].0 && out@[k].1
                        == found@[k].1 && out@[k].2 == found@[k].2 && out@[k].3@ == seq![
                        found@[k].3[0],
                        found@[k].3[1],
                    ],
            decreases found@.len() - i,
        {
            let e = found[i];
            let mut pair: Vec<u32> = Vec::new();
            pair.push(e.3[0]);
            pair.push(e.3[1]);
            assert(pair@ =~= seq![e.3[0], e.3[1]]);
            out.push((e.0, e.1, e.2, pair));
            i = i + 1;
        }
        proof {
            let order = radius_order(bits as int, sl, sw, tw as int, radius as int);
            assert(list_view(out@) =~= base_list(bits, feature, tw, radius as int)) by {
                assert forall|k: int| 0 <= k < out@.len() implies list_view(out@)[k] == base_list(
                    bits,
                    feature,
                    tw,
                    radius as int,
                )[k] by {
                    assert(out@[k].3@ =~= base_list(bits, feature, tw, radius as int)[k].3);
                }
            }
            assert forall|k: int| 0 <= k < out@.len() implies (#[trigger] out@[k]).0 < room(
                1,
                bits,
                sub,
            ) && 1 <= out@[k].2 <= room(1, bits, sub) && out@[k].1 <= radius && out@[k].3@.len()
                == 2 by {
                let tl = order[k];
                assert(in_domain(bits as int, tw as int, tl as int));
            }
        }
        return out;
    }
    let half: u32 = m / 2;
    let _held: usize = tws.len();
    let s: u32 = bits * m;
    let low_feature: u128 = feature & low_mask(s);
    let high_feature: u128 = feature >> s;
    let ghost ltws = sub.take(half as int);
    let ghost htws = sub.skip(half as int);
    proof {
        assert(ltws =~= tws@.subrange(from as int, from + half));
        assert(htws =~= tws@.subrange(from + half, from + half + half));
        lemma_room(half as nat, bits, ltws);
        lemma_room(half as nat, bits, htws);
        let a = room(half as nat, bits, ltws);
        let b = room(half as nat, bits, htws);
        assert(a <= a * b && b <= a * b) by (nonlinear_arith)
            requires
                a >= 1,
                b >= 1,
        ;
        assert(bits * half < 128) by (nonlinear_arith)
            requires
                bits * m < 128,
                half <= m,
        ;
    }
    let low = search_pairs(bits, half, low_feature, tws, from, radius);
    let upper: usize = from + half as usize;
    let ghost lows = list_view(low@);
    let ghost whole = cross(lows, 0, half as nat, bits, high_feature, htws, radius as int);
    let mut a: usize = 0;
    while a < low.len()
        invariant
            a <= low@.len(),
            half == m / 2,
            upper == from + half,
            m == 2 || m == 4 || m == 8 || m == 16 || m == 32 || m == 64,
            from + m <= tws@.len(),
            bits * half < 128,
            forall|j: int| from <= j < from + m ==> (#[trigger] tws@[j]) <= 2 * bits,
            sub == tws@.subrange(from as int, from + m),
            ltws == sub.take(half as int),
            htws == sub.skip(half as int),
            htws == tws@.subrange(from + half, from + half + half),
            room(half as nat, bits, ltws) * room(half as nat, bits, htws) <= usize::MAX,
            room(half as nat, bits, htws) <= usize::MAX,
            room(half as nat, bits, ltws) >= 1,
            room(half as nat, bits, htws) >= 1,
            lows == list_view(low@),
            whole == cross(lows, 0, half as nat, bits, high_feature, htws, radius as int),
            forall|k: int|
                0 <= k < low@.len() ==> (#[trigger] low@[k]).0 < room(half as nat, bits, ltws) && 1
                    <= low@[k].2 <= room(half as nat, bits, ltws) && low@[k].1 <= radius
                    && low@[k].3@.len() == 2 * half,
            list_view(out@) + cross(
                lows,
                a as nat,
                half as nat,
                bits,
                high_feature,
                htws,
                radius as int,
            ) == whole,
            forall|k: int|
                0 <= k < out@.len() ==> (#[trigger] out@[k]).0 < room(half as nat, bits, ltws)
                    * room(half as nat, bits, htws) && 1 <= out@[k].2 <= room(
                    half as nat,
                    bits,
                    ltws,
                ) * room(half as nat, bits, htws) && out@[k].1 <= radius && out@[k].3@.len() == 2
                    * m,
        decreases low@.len() - a,
    {
        let low_index: usize = low[a].0;
        let low_sod: u32 = low[a].1;
        let low_size: usize = low[a].2;
        let high = search_pairs(bits, half, high_feature, tws, upper, radius - low_sod);
        let ghost highs = list_view(high@);
        let ghost start = list_view(out@);
        let ghost l = lows[a as int];
        proof {
            assert(l == entry_view(low@[a as int]));
            assert(highs == pair_list(half as nat, bits, high_feature, htws, radius - l.1));
        }
        let mut b: usize = 0;
        while b < high.len()
            invariant
                b <= high@.len(),
                a < low@.len(),
                highs == list_view(high@),
                l == entry_view(low@[a as int]),
                low_index == low@[a as int].0,
                low_sod == low@[a as int].1,
                low_size == low@[a as int].2,
                low_index < room(half as nat, bits, ltws),
                1 <= low_size <= room(half as nat, bits, ltws),
                low_sod <= radius,
                low@[a as int].3@.len() == 2 * half,
                half == m / 2,
                m == 2 || m == 4 || m == 8 || m == 16 || m == 32 || m == 64,
                room(half as nat, bits, ltws) * room(half as nat, bits, htws) <= usize::MAX,
                forall|k: int|
                    0 <= k < high@.len() ==> (#[trigger] high@[k]).0 < room(half as nat, bits, htws)
                        && 1 <= high@[k].2 <= room(half as nat, bits, htws) && high@[k].1
                        <= radius - low_sod && high@[k].3@.len() == 2 * half,
                list_view(out@) == start + joined(l, highs).take(b as int),
                forall|k: int|
                    0 <= k < out@.len() ==> (#[trigger] out@[k]).0 < room(half as nat, bits, ltws)
                        * room(half as nat, bits, htws) && 1 <= out@[k].2 <= room(
                        half as nat,
                        bits,
                        ltws,
                    ) * room(half as nat, bits, htws) && out@[k].1 <= radius && out@[k].3@.len()
                        == 2 * m,
            decreases high@.len() - b,
        {
            let high_index: usize = high[b].0;
            let high_sod: u32 = high[b].1;
            let high_size: usize = high[b].2;
            proof {
                let ra = room(half as nat, bits, ltws) as int;
                let rb = room(half as nat, bits, htws) as int;
                let hi = high_index as int;
                let hs = high_size as int;
                let li = low_index as int;
                let ls = low_size as int;
                assert(0 <= hi * ls && hi * ls + li < ra * rb && 1 <= ls * hs <= ra * rb) by (nonlinear_arith)
                    requires
                        0 <= hi < rb,
                        1 <= hs <= rb,
                        0 <= li < ra,
                        1 <= ls <= ra,
                ;
            }
            let both = concat(&low[a].3, &high[b].3);
            let ghost before = out@;
            out.push((high_index * low_size + low_index, low_sod + high_sod, low_size * high_size, both));
            proof {
                let h = highs[b as int];
                assert(h == entry_view(high@[b as int]));
                assert(entry_view(out@[before.len() as int]) == join_one(l, h));
                assert(list_view(out@) =~= list_view(before).push(join_one(l, h)));
                assert(joined(l, highs).take(b + 1) =~= joined(l, highs).take(b as int).push(
                    join_one(l, h),
                ));
                assert(list_view(out@) =~= start + joined(l, highs).take(b + 1));
                assert forall|k: int| 0 <= k < out@.len() implies (#[trigger] out@[k]).0 < room(
                    half as nat,
                    bits,
                    ltws,
                ) * room(half as nat, bits, htws) && 1 <= out@[k].2 <= room(
                    half as nat,
                    bits,
                    ltws,
                ) * room(half as nat, bits, htws) && out@[k].1 <= radius && out@[k].3@.len() == 2
                    * m by {
                    if k < before.len() {
                        assert(out@[k] == before[k]);
                    }
                }
            }
            b = b + 1;
        }
        proof {
            assert(joined(l, highs).take(high@.len() as int) =~= joined(l, highs));
            assert(cross(lows, a as nat, half as nat, bits, high_feature, htws, radius as int)
                == joined(l, highs) + cross(
                lows,
                (a + 1) as nat,
                half as nat,
                bits,
                high_feature,
                htws,
                radius as int,
            ));
            assert(list_view(out@) + cross(
                lows,
                (a + 1) as nat,
                half as nat,
                bits,
                high_feature,
                htws,
                radius as int,
            ) =~= whole);
        }
        a = a + 1;
    }
    proof {
        assert(list_view(out@) =~= whole);
    }
    out
}

} // verus!
