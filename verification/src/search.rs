//! The range solver: which splits of a target weight stay within a radius.
//!
//! A parent substring of the search feature has `sw` ones, `sl` of them in
//! its left half. The matching parent substring of a target has `tw` ones.
//! If the target puts `tl` of them in its left half, the two halves differ
//! from the search feature's halves by `|tl - sl| + |(tw - tl) - (sw - sl)|`
//! ones at least: the sum of distances, [`sod`]. As a function of `tl` it
//! falls with slope 2, is flat at `|tw - sw|` between [`flat_lo`] and
//! [`flat_hi`], and rises with slope 2. The functions here list the `tl`
//! whose sum stays within a radius, or equals it, from that shape alone.
use crate::bits::ones;
use crate::search::pairs::{entry_view, list_view, pair_list, room, search_pairs};
use vstd::prelude::*;

pub mod exact;
pub mod pairs;
pub mod radius;
pub mod words;

verus! {

/// `|a - b|`.
pub open spec fn gap(a: int, b: int) -> int {
    if a >= b {
        a - b
    } else {
        b - a
    }
}

/// Sum of distances of the two halves when the target has `tl` ones on the left.
pub open spec fn sod(sl: int, sw: int, tw: int, tl: int) -> int {
    gap(tl, sl) + gap(tw - tl, sw - sl)
}

/// Least number of ones the left half of a target of weight `tw` can have,
/// each half being `bits` wide.
pub open spec fn tl_min(bits: int, tw: int) -> int {
    if tw > bits {
        tw - bits
    } else {
        0
    }
}

/// Greatest number of ones the left half of a target of weight `tw` can have.
pub open spec fn tl_max(bits: int, tw: int) -> int {
    if tw < bits {
        tw
    } else {
        bits
    }
}

/// Whether a target of weight `tw` can have `tl` ones in its left half.
pub open spec fn in_domain(bits: int, tw: int, tl: int) -> bool {
    tl_min(bits, tw) <= tl <= tl_max(bits, tw)
}

/// Lower end of the interval on which the sum of distances is least.
pub open spec fn flat_lo(sl: int, sw: int, tw: int) -> int {
    if sw <= tw {
        sl
    } else {
        sl - sw + tw
    }
}

/// Upper end of the interval on which the sum of distances is least.
pub open spec fn flat_hi(sl: int, sw: int, tw: int) -> int {
    if sw <= tw {
        sl - sw + tw
    } else {
        sl
    }
}

/// The larger of two numbers.
pub open spec fn larger(a: int, b: int) -> int {
    if a >= b {
        a
    } else {
        b
    }
}

/// The smaller of two numbers.
pub open spec fn smaller(a: int, b: int) -> int {
    if a <= b {
        a
    } else {
        b
    }
}

/// `a, a + 1, .., b`; empty when `b < a`.
pub open spec fn rising(a: int, b: int) -> Seq<u32> {
    Seq::new(
        if b >= a {
            (b - a + 1) as nat
        } else {
            0
        },
        |i: int| (a + i) as u32,
    )
}

/// `a, a - 1, .., b`; empty when `a < b`.
pub open spec fn falling(a: int, b: int) -> Seq<u32> {
    Seq::new(
        if a >= b {
            (a - b + 1) as nat
        } else {
            0
        },
        |i: int| (a - i) as u32,
    )
}

/// The elements of `a` and `b` in turn, beginning with `a`; when one has run
/// out, what is left of the other.
pub open spec fn interleaved<T>(a: Seq<T>, b: Seq<T>) -> Seq<T>
    decreases a.len() + b.len(),
{
    if a.len() == 0 {
        b
    } else {
        seq![a[0]] + interleaved(b, a.drop_first())
    }
}

/// Element `i` of `interleaved(a, b)`, without the recursion.
pub open spec fn interleaved_at<T>(a: Seq<T>, b: Seq<T>, i: int) -> T {
    let m = smaller(a.len() as int, b.len() as int);
    if i < 2 * m {
        if i % 2 == 0 {
            a[i / 2]
        } else {
            b[i / 2]
        }
    } else if a.len() > b.len() {
        a[i - m]
    } else {
        b[i - m]
    }
}

/// Element `i` of two sequences interleaved is what `interleaved_at` gives.
pub proof fn lemma_interleaved_at<T>(a: Seq<T>, b: Seq<T>, i: int)
    requires
        0 <= i < a.len() + b.len(),
    ensures
        interleaved(a, b).len() == a.len() + b.len(),
        interleaved(a, b)[i] == interleaved_at(a, b, i),
    decreases a.len() + b.len(),
{
    lemma_interleaved_len(a, b);
    if a.len() > 0 && i > 0 {
        let t = a.drop_first();
        lemma_interleaved_len(b, t);
        lemma_interleaved_at(b, t, i - 1);
        assert(interleaved(a, b)[i] == interleaved(b, t)[i - 1]);
        let m = smaller(a.len() as int, b.len() as int);
        let n = smaller(b.len() as int, t.len() as int);
        let h = i / 2;
        assert(i == 2 * h || i == 2 * h + 1);
        if i < 2 * m {
            if i % 2 == 0 {
                assert(i - 1 < 2 * n);
                assert((i - 1) / 2 == h - 1);
                assert(t[h - 1] == a[h]);
            } else {
                assert((i - 1) / 2 == h);
                if !(i - 1 < 2 * n) {
                    assert(n == h);
                    assert(n == t.len());
                }
            }
        } else if a.len() > b.len() {
            assert(n == b.len());
            if i - 1 < 2 * n {
                assert(i == 2 * m);
                assert((i - 1) / 2 == m - 1);
                assert(t[m - 1] == a[m]);
            } else {
                assert(t[i - 1 - n] == a[i - m]);
            }
        } else {
            assert(n == t.len());
        }
    }
}

/// Two sequences interleaved are as long as both together.
pub proof fn lemma_interleaved_len<T>(a: Seq<T>, b: Seq<T>)
    ensures
        interleaved(a, b).len() == a.len() + b.len(),
    decreases a.len() + b.len(),
{
    if a.len() > 0 {
        lemma_interleaved_len(b, a.drop_first());
    }
}

/// The left weights within `radius`, in the order in which they are listed:
/// the flat interval upwards, then in turn one step further down and one step
/// further up, each kept to what the target can have.
pub open spec fn radius_order(bits: int, sl: int, sw: int, tw: int, radius: int) -> Seq<u32> {
    let lo = tl_min(bits, tw);
    let hi = tl_max(bits, tw);
    let fl = flat_lo(sl, sw, tw);
    let fh = flat_hi(sl, sw, tw);
    if radius < fh - fl {
        Seq::empty()
    } else {
        let reach = (radius - (fh - fl)) / 2;
        rising(larger(fl, lo), smaller(fh, hi)) + interleaved(
            falling(smaller(fl - 1, hi), larger(fl - reach, lo)),
            rising(larger(fh + 1, lo), smaller(fh + reach, hi)),
        )
    }
}

/// The left weights whose sum of distances is `radius` exactly, in the order
/// in which they are listed: the flat interval upwards when `radius` is the
/// least sum, else the one weight below the interval and the one above it
/// that reach `radius`, where there are such.
pub open spec fn exact_order(bits: int, sl: int, sw: int, tw: int, radius: int) -> Seq<u32> {
    let lo = tl_min(bits, tw);
    let hi = tl_max(bits, tw);
    let fl = flat_lo(sl, sw, tw);
    let fh = flat_hi(sl, sw, tw);
    if radius < fh - fl {
        Seq::empty()
    } else if radius == fh - fl {
        rising(larger(fl, lo), smaller(fh, hi))
    } else if (radius - (fh - fl)) % 2 != 0 {
        Seq::empty()
    } else {
        let reach = (radius - (fh - fl)) / 2;
        rising(larger(fl - reach, lo), smaller(fl - reach, hi)) + rising(
            larger(fh + reach, lo),
            smaller(fh + reach, hi),
        )
    }
}

/// The sum of distances is `|tw - sw|` on the flat interval and grows by two
/// with every step away from it.
pub proof fn lemma_sod_shape(sl: int, sw: int, tw: int, tl: int)
    ensures
        sod(sl, sw, tw, tl) == flat_hi(sl, sw, tw) - flat_lo(sl, sw, tw) + 2 * (if tl < flat_lo(
            sl,
            sw,
            tw,
        ) {
            flat_lo(sl, sw, tw) - tl
        } else if tl > flat_hi(sl, sw, tw) {
            tl - flat_hi(sl, sw, tw)
        } else {
            0
        }),
        flat_lo(sl, sw, tw) <= flat_hi(sl, sw, tw),
        flat_hi(sl, sw, tw) - flat_lo(sl, sw, tw) == gap(tw, sw),
{
}

/// Where `tl` stands in `radius_order`, if it is listed.
pub open spec fn radius_rank(bits: int, sl: int, sw: int, tw: int, radius: int, tl: int) -> int {
    let lo = tl_min(bits, tw);
    let hi = tl_max(bits, tw);
    let fl = flat_lo(sl, sw, tw);
    let fh = flat_hi(sl, sw, tw);
    let reach = (radius - (fh - fl)) / 2;
    let flat = rising(larger(fl, lo), smaller(fh, hi));
    let down = falling(smaller(fl - 1, hi), larger(fl - reach, lo));
    let up = rising(larger(fh + 1, lo), smaller(fh + reach, hi));
    let m = smaller(down.len() as int, up.len() as int);
    if fl <= tl <= fh {
        tl - larger(fl, lo)
    } else if tl < fl {
        let k = smaller(fl - 1, hi) - tl;
        flat.len() + if k < m {
            2 * k
        } else {
            k + m
        }
    } else {
        let k = tl - larger(fh + 1, lo);
        flat.len() + if k < m {
            2 * k + 1
        } else {
            k + m
        }
    }
}

/// How many steps from the flat interval the weight listed at place `i` of
/// `radius_order` stands.
pub open spec fn radius_steps(bits: int, sl: int, sw: int, tw: int, radius: int, i: int) -> int {
    let lo = tl_min(bits, tw);
    let hi = tl_max(bits, tw);
    let fl = flat_lo(sl, sw, tw);
    let fh = flat_hi(sl, sw, tw);
    let reach = (radius - (fh - fl)) / 2;
    let flat = rising(larger(fl, lo), smaller(fh, hi));
    let down = falling(smaller(fl - 1, hi), larger(fl - reach, lo));
    let up = rising(larger(fh + 1, lo), smaller(fh + reach, hi));
    let m = smaller(down.len() as int, up.len() as int);
    let k = i - flat.len();
    if k < 0 {
        0
    } else if k < 2 * m {
        k / 2 + 1
    } else if down.len() > up.len() {
        fl - smaller(fl - 1, hi) + (k - m)
    } else {
        larger(fh + 1, lo) - fh + (k - m)
    }
}

/// What stands at place `i` of `radius_order`.
pub proof fn lemma_radius_order_at(bits: int, sl: int, sw: int, tw: int, radius: int, i: int)
    requires
        0 <= bits <= u32::MAX,
        0 <= tw <= u32::MAX,
        0 <= i < radius_order(bits, sl, sw, tw, radius).len(),
    ensures
        in_domain(bits, tw, radius_order(bits, sl, sw, tw, radius)[i] as int),
        sod(sl, sw, tw, radius_order(bits, sl, sw, tw, radius)[i] as int) <= radius,
        sod(sl, sw, tw, radius_order(bits, sl, sw, tw, radius)[i] as int) == gap(tw, sw) + 2
            * radius_steps(bits, sl, sw, tw, radius, i),
        radius_rank(
            bits,
            sl,
            sw,
            tw,
            radius,
            radius_order(bits, sl, sw, tw, radius)[i] as int,
        ) == i,
{
    let lo = tl_min(bits, tw);
    let hi = tl_max(bits, tw);
    let fl = flat_lo(sl, sw, tw);
    let fh = flat_hi(sl, sw, tw);
    let order = radius_order(bits, sl, sw, tw, radius);
    let reach = (radius - (fh - fl)) / 2;
    let flat = rising(larger(fl, lo), smaller(fh, hi));
    let down = falling(smaller(fl - 1, hi), larger(fl - reach, lo));
    let up = rising(larger(fh + 1, lo), smaller(fh + reach, hi));
    let m = smaller(down.len() as int, up.len() as int);
    lemma_interleaved_len(down, up);
    let tl = order[i] as int;
    lemma_sod_shape(sl, sw, tw, tl);
    if i >= flat.len() {
        let k = i - flat.len();
        lemma_interleaved_at(down, up, k);
        assert(order[i] == interleaved(down, up)[k]);
        let h = k / 2;
        assert(k == 2 * h || k == 2 * h + 1);
        if k < 2 * m {
            assert(smaller(fl - 1, hi) == fl - 1);
            assert(larger(fh + 1, lo) == fh + 1);
            if k % 2 == 0 {
                assert(tl == fl - 1 - h);
            } else {
                assert(tl == fh + 1 + h);
            }
        } else if down.len() > up.len() {
            assert(tl == smaller(fl - 1, hi) - (k - m));
        } else {
            assert(tl == larger(fh + 1, lo) + (k - m));
        }
    } else {
        assert(tl == larger(fl, lo) + i);
    }
}

/// The weights listed later stand no fewer steps from the flat interval.
pub proof fn lemma_radius_steps_grow(
    bits: int,
    sl: int,
    sw: int,
    tw: int,
    radius: int,
    i: int,
    j: int,
)
    requires
        0 <= bits <= u32::MAX,
        0 <= tw <= u32::MAX,
        0 <= i <= j < radius_order(bits, sl, sw, tw, radius).len(),
    ensures
        radius_steps(bits, sl, sw, tw, radius, i) <= radius_steps(bits, sl, sw, tw, radius, j),
{
    let lo = tl_min(bits, tw);
    let hi = tl_max(bits, tw);
    let fl = flat_lo(sl, sw, tw);
    let fh = flat_hi(sl, sw, tw);
    let reach = (radius - (fh - fl)) / 2;
    let flat = rising(larger(fl, lo), smaller(fh, hi));
    let down = falling(smaller(fl - 1, hi), larger(fl - reach, lo));
    let up = rising(larger(fh + 1, lo), smaller(fh + reach, hi));
    let m = smaller(down.len() as int, up.len() as int);
    lemma_interleaved_len(down, up);
    let ki = i - flat.len();
    let kj = j - flat.len();
    if ki >= 0 {
        let hi_ = ki / 2;
        let hj = kj / 2;
        assert(ki == 2 * hi_ || ki == 2 * hi_ + 1);
        assert(kj == 2 * hj || kj == 2 * hj + 1);
        if m > 0 {
            assert(smaller(fl - 1, hi) == fl - 1);
            assert(larger(fh + 1, lo) == fh + 1);
        }
    }
}

/// Every weight within `radius` that the target can have stands in
/// `radius_order`, at the place `radius_rank`.
pub proof fn lemma_radius_order_has(bits: int, sl: int, sw: int, tw: int, radius: int, tl: int)
    requires
        0 <= bits <= u32::MAX,
        0 <= tw <= u32::MAX,
        in_domain(bits, tw, tl),
        sod(sl, sw, tw, tl) <= radius,
    ensures
        0 <= radius_rank(bits, sl, sw, tw, radius, tl) < radius_order(
            bits,
            sl,
            sw,
            tw,
            radius,
        ).len(),
        radius_order(bits, sl, sw, tw, radius)[radius_rank(bits, sl, sw, tw, radius, tl)] == tl,
{
    let lo = tl_min(bits, tw);
    let hi = tl_max(bits, tw);
    let fl = flat_lo(sl, sw, tw);
    let fh = flat_hi(sl, sw, tw);
    let order = radius_order(bits, sl, sw, tw, radius);
    let reach = (radius - (fh - fl)) / 2;
    let flat = rising(larger(fl, lo), smaller(fh, hi));
    let down = falling(smaller(fl - 1, hi), larger(fl - reach, lo));
    let up = rising(larger(fh + 1, lo), smaller(fh + reach, hi));
    let m = smaller(down.len() as int, up.len() as int);
    lemma_interleaved_len(down, up);
    lemma_sod_shape(sl, sw, tw, tl);
    let i = radius_rank(bits, sl, sw, tw, radius, tl);
    if fl <= tl <= fh {
        assert(order[i] == flat[i]);
    } else {
        let k = i - flat.len();
        if tl < fl {
            let d = smaller(fl - 1, hi) - tl;
            assert(0 <= d < down.len());
            assert(down[d] == tl);
            assert(k == if d < m { 2 * d } else { d + m });
        } else {
            let u = tl - larger(fh + 1, lo);
            assert(0 <= u < up.len());
            assert(up[u] == tl);
            assert(k == if u < m { 2 * u + 1 } else { u + m });
        }
        assert(0 <= k < down.len() + up.len());
        lemma_interleaved_at(down, up, k);
        assert(order[i] == interleaved(down, up)[k]);
    }
}

/// `radius_order` lists exactly the left weights that the target can have
/// and whose sum of distances is at most `radius`, each once, and never one
/// with a smaller sum after one with a larger.
pub proof fn lemma_radius_order(bits: int, sl: int, sw: int, tw: int, radius: int)
    requires
        0 <= bits <= u32::MAX,
        0 <= tw <= u32::MAX,
    ensures
        forall|i: int|
            0 <= i < radius_order(bits, sl, sw, tw, radius).len() ==> {
                let tl = #[trigger] radius_order(bits, sl, sw, tw, radius)[i] as int;
                &&& in_domain(bits, tw, tl)
                &&& sod(sl, sw, tw, tl) <= radius
                &&& radius_rank(bits, sl, sw, tw, radius, tl) == i
            },
        forall|tl: int|
            in_domain(bits, tw, tl) && sod(sl, sw, tw, tl) <= radius ==> {
                let i = #[trigger] radius_rank(bits, sl, sw, tw, radius, tl);
                &&& 0 <= i < radius_order(bits, sl, sw, tw, radius).len()
                &&& radius_order(bits, sl, sw, tw, radius)[i] == tl
            },
        forall|i: int, j: int|
            0 <= i <= j < radius_order(bits, sl, sw, tw, radius).len() ==> sod(
                sl,
                sw,
                tw,
                #[trigger] radius_order(bits, sl, sw, tw, radius)[i] as int,
            ) <= sod(sl, sw, tw, #[trigger] radius_order(bits, sl, sw, tw, radius)[j] as int),
{
    let order = radius_order(bits, sl, sw, tw, radius);
    assert forall|i: int| 0 <= i < order.len() implies {
        let tl = #[trigger] order[i] as int;
        &&& in_domain(bits, tw, tl)
        &&& sod(sl, sw, tw, tl) <= radius
        &&& radius_rank(bits, sl, sw, tw, radius, tl) == i
    } by {
        lemma_radius_order_at(bits, sl, sw, tw, radius, i);
    }
    assert forall|tl: int| in_domain(bits, tw, tl) && sod(sl, sw, tw, tl) <= radius implies {
        let i = #[trigger] radius_rank(bits, sl, sw, tw, radius, tl);
        &&& 0 <= i < order.len()
        &&& order[i] == tl
    } by {
        lemma_radius_order_has(bits, sl, sw, tw, radius, tl);
    }
    assert forall|i: int, j: int| 0 <= i <= j < order.len() implies sod(
        sl,
        sw,
        tw,
        #[trigger] order[i] as int,
    ) <= sod(sl, sw, tw, #[trigger] order[j] as int) by {
        lemma_radius_order_at(bits, sl, sw, tw, radius, i);
        lemma_radius_order_at(bits, sl, sw, tw, radius, j);
        lemma_radius_steps_grow(bits, sl, sw, tw, radius, i, j);
    }
}

/// `exact_order` lists exactly the left weights that the target can have and
/// whose sum of distances is `radius`, each once.
pub proof fn lemma_exact_order(bits: int, sl: int, sw: int, tw: int, radius: int)
    requires
        0 <= bits <= u32::MAX,
        0 <= tw <= u32::MAX,
    ensures
        forall|i: int|
            0 <= i < exact_order(bits, sl, sw, tw, radius).len() ==> {
                let tl = #[trigger] exact_order(bits, sl, sw, tw, radius)[i] as int;
                &&& in_domain(bits, tw, tl)
                &&& sod(sl, sw, tw, tl) == radius
            },
        forall|tl: int|
            in_domain(bits, tw, tl) && #[trigger] sod(sl, sw, tw, tl) == radius ==> exists|i: int|
                0 <= i < exact_order(bits, sl, sw, tw, radius).len() && #[trigger] exact_order(
                    bits,
                    sl,
                    sw,
                    tw,
                    radius,
                )[i] == tl,
        forall|i: int, j: int|
            0 <= i < j < exact_order(bits, sl, sw, tw, radius).len() ==> #[trigger] exact_order(
                bits,
                sl,
                sw,
                tw,
                radius,
            )[i] != #[trigger] exact_order(bits, sl, sw, tw, radius)[j],
{
    let lo = tl_min(bits, tw);
    let hi = tl_max(bits, tw);
    let fl = flat_lo(sl, sw, tw);
    let fh = flat_hi(sl, sw, tw);
    let order = exact_order(bits, sl, sw, tw, radius);
    assert forall|i: int| 0 <= i < order.len() implies {
        let tl = #[trigger] order[i] as int;
        &&& in_domain(bits, tw, tl)
        &&& sod(sl, sw, tw, tl) == radius
    } by {
        lemma_sod_shape(sl, sw, tw, order[i] as int);
    }
    assert forall|tl: int|
        in_domain(bits, tw, tl) && #[trigger] sod(sl, sw, tw, tl) == radius implies exists|i: int|
        0 <= i < order.len() && #[trigger] order[i] == tl by {
        lemma_sod_shape(sl, sw, tw, tl);
        if radius == fh - fl {
            assert(order[tl - larger(fl, lo)] == tl);
        } else {
            let reach = (radius - (fh - fl)) / 2;
            if tl < fl {
                assert(order[0] == tl);
            } else {
                let below = rising(larger(fl - reach, lo), smaller(fl - reach, hi));
                assert(order[below.len() as int] == tl);
            }
        }
    }
}

/// Calls `itertools::interleave` on the two vectors and collects what it
/// yields: their elements in turn, beginning with `a`, and once one has run
/// out, what is left of the other.
#[verifier::external_body]
pub(crate) fn interleave(a: Vec<u32>, b: Vec<u32>) -> (r: Vec<u32>)
    ensures
        r@ == interleaved(a@, b@),
{
    itertools::interleave(a, b).collect()
}

/// `a, a + 1, .., b` as a vector.
pub(crate) fn rising_vec(a: i64, b: i64) -> (r: Vec<u32>)
    requires
        a <= b ==> 0 <= a && b <= u32::MAX,
    ensures
        r@ == rising(a as int, b as int),
{
    let mut r: Vec<u32> = Vec::new();
    let mut v: i64 = a;
    while v <= b
        invariant
            a <= v,
            a <= b ==> 0 <= a && v <= b + 1 && b <= u32::MAX,
            a > b ==> v == a,
            r@ == rising(a as int, v - 1),
        decreases b - v + 1,
    {
        r.push(v as u32);
        v = v + 1;
        assert(r@ =~= rising(a as int, v - 1));
    }
    assert(r@ =~= rising(a as int, b as int));
    r
}

/// `a, a - 1, .., b` as a vector.
pub(crate) fn falling_vec(a: i64, b: i64) -> (r: Vec<u32>)
    requires
        a >= b ==> 0 <= b && a <= u32::MAX,
    ensures
        r@ == falling(a as int, b as int),
{
    let mut r: Vec<u32> = Vec::new();
    let mut v: i64 = a;
    while v >= b
        invariant
            v <= a,
            a >= b ==> 0 <= b && v >= b - 1 && a <= u32::MAX,
            a < b ==> v == a,
            r@ == falling(a as int, v + 1),
        decreases v - b + 1,
    {
        r.push(v as u32);
        v = v - 1;
        assert(r@ =~= falling(a as int, v + 1));
    }
    assert(r@ =~= falling(a as int, b as int));
    r
}

/// The left weights within `radius`, in listing order.
pub(crate) fn radius_tls(bits: u32, sl: u32, sw: u32, tw: u32, radius: u32) -> (r: Vec<u32>)
    ensures
        r@ == radius_order(bits as int, sl as int, sw as int, tw as int, radius as int),
{
    let lo: i64 = if tw > bits { (tw - bits) as i64 } else { 0 };
    let hi: i64 = if tw < bits { tw as i64 } else { bits as i64 };
    let fl: i64 = if sw <= tw { sl as i64 } else { sl as i64 - sw as i64 + tw as i64 };
    let fh: i64 = if sw <= tw { sl as i64 - sw as i64 + tw as i64 } else { sl as i64 };
    if (radius as i64) < fh - fl {
        return Vec::new();
    }
    let reach: i64 = (radius as i64 - (fh - fl)) / 2;
    let mut out = rising_vec(if fl >= lo { fl } else { lo }, if fh <= hi { fh } else { hi });
    let down = falling_vec(
        if fl - 1 <= hi { fl - 1 } else { hi },
        if fl - reach >= lo { fl - reach } else { lo },
    );
    let up = rising_vec(
        if fh + 1 >= lo { fh + 1 } else { lo },
        if fh + reach <= hi { fh + reach } else { hi },
    );
    let mut rest = interleave(down, up);
    out.append(&mut rest);
    out
}

/// The left weights at `radius` exactly, in listing order.
pub(crate) fn exact_tls(bits: u32, sl: u32, sw: u32, tw: u32, radius: u32) -> (r: Vec<u32>)
    ensures
        r@ == exact_order(bits as int, sl as int, sw as int, tw as int, radius as int),
{
    let lo: i64 = if tw > bits { (tw - bits) as i64 } else { 0 };
    let hi: i64 = if tw < bits { tw as i64 } else { bits as i64 };
    let fl: i64 = if sw <= tw { sl as i64 } else { sl as i64 - sw as i64 + tw as i64 };
    let fh: i64 = if sw <= tw { sl as i64 - sw as i64 + tw as i64 } else { sl as i64 };
    let over: i64 = radius as i64 - (fh - fl);
    if over < 0 {
        Vec::new()
    } else if over == 0 {
        rising_vec(if fl >= lo { fl } else { lo }, if fh <= hi { fh } else { hi })
    } else if over % 2 != 0 {
        Vec::new()
    } else {
        let reach: i64 = over / 2;
        let below: i64 = fl - reach;
        let above: i64 = fh + reach;
        let mut out = rising_vec(
            if below >= lo { below } else { lo },
            if below <= hi { below } else { hi },
        );
        let mut rest = rising_vec(
            if above >= lo { above } else { lo },
            if above <= hi { above } else { hi },
        );
        out.append(&mut rest);
        out
    }
}

/// The sum of distances of one split.
pub(crate) fn sod_of(sl: u32, sw: u32, tw: u32, tl: u32) -> (s: u32)
    requires
        sod(sl as int, sw as int, tw as int, tl as int) <= u32::MAX,
    ensures
        s == sod(sl as int, sw as int, tw as int, tl as int),
{
    let left: i64 = if tl >= sl { tl as i64 - sl as i64 } else { sl as i64 - tl as i64 };
    let tr: i64 = tw as i64 - tl as i64;
    let sr: i64 = sw as i64 - sl as i64;
    let right: i64 = if tr >= sr { tr - sr } else { sr - tr };
    (left + right) as u32
}

/// Lists the left weights `tl` that a target substring of weight `tw` can
/// have within `radius` of a search substring of weight `sw` with `sl` ones
/// on the left, each half being `bits` wide. Each comes with its sum of
/// distances. Also returns how many left weights the target can have at all.
///
/// The weights come in the order `radius_order`: none with a smaller sum
/// after one with a larger.
pub fn search(bits: u32, sl: u32, sw: u32, tw: u32, radius: u32) -> (r: (Vec<(u32, u32)>, u32))
    requires
        tw <= 2 * bits,
        tl_max(bits as int, tw as int) - tl_min(bits as int, tw as int) < u32::MAX,
    ensures
        r.1 == tl_max(bits as int, tw as int) - tl_min(bits as int, tw as int) + 1,
        r.0@.len() == radius_order(
            bits as int,
            sl as int,
            sw as int,
            tw as int,
            radius as int,
        ).len(),
        forall|i: int|
            0 <= i < r.0@.len() ==> {
                &&& (#[trigger] r.0@[i]).0 == radius_order(
                    bits as int,
                    sl as int,
                    sw as int,
                    tw as int,
                    radius as int,
                )[i]
                &&& r.0@[i].1 == sod(sl as int, sw as int, tw as int, r.0@[i].0 as int)
            },
        forall|i: int, j: int|
            0 <= i <= j < r.0@.len() ==> (#[trigger] r.0@[i]).1 <= (#[trigger] r.0@[j]).1,
        forall|i: int, j: int|
            0 <= i < j < r.0@.len() ==> (#[trigger] r.0@[i]).0 != (#[trigger] r.0@[j]).0,
        forall|tl: int|
            (in_domain(bits as int, tw as int, tl) && #[trigger] sod(
                sl as int,
                sw as int,
                tw as int,
                tl,
            ) <= radius) <==> (exists|i: int| 0 <= i < r.0@.len() && (#[trigger] r.0@[i]).0 == tl),
{
    let max: u32 = if tw < bits { tw } else { bits };
    let min: u32 = tw - max;
    let tls = radius_tls(bits, sl, sw, tw, radius);
    let ghost order = radius_order(bits as int, sl as int, sw as int, tw as int, radius as int);
    proof {
        lemma_radius_order(bits as int, sl as int, sw as int, tw as int, radius as int);
    }
    let mut out: Vec<(u32, u32)> = Vec::new();
    let mut i: usize = 0;
    while i < tls.len()
        invariant
            0 <= i <= tls@.len(),
            tls@ == order,
            out@.len() == i,
            forall|k: int|
                0 <= k < order.len() ==> sod(
                    sl as int,
                    sw as int,
                    tw as int,
                    #[trigger] order[k] as int,
                ) <= radius,
            forall|k: int|
                0 <= k < i ==> (#[trigger] out@[k]).0 == order[k] && out@[k].1 == sod(
                    sl as int,
                    sw as int,
                    tw as int,
                    order[k] as int,
                ),
        decreases tls@.len() - i,
    {
        let tl: u32 = tls[i];
        out.push((tl, sod_of(sl, sw, tw, tl)));
        i = i + 1;
    }
    proof {
        assert forall|tl: int|
            (in_domain(bits as int, tw as int, tl) && #[trigger] sod(
                sl as int,
                sw as int,
                tw as int,
                tl,
            ) <= radius) <==> (exists|i: int|
                0 <= i < out@.len() && (#[trigger] out@[i]).0 == tl) by {
            if in_domain(bits as int, tw as int, tl) && sod(sl as int, sw as int, tw as int, tl)
                <= radius {
                let k = radius_rank(
                    bits as int,
                    sl as int,
                    sw as int,
                    tw as int,
                    radius as int,
                    tl,
                );
                assert(out@[k].0 == tl);
            }
            if exists|i: int| 0 <= i < out@.len() && (#[trigger] out@[i]).0 == tl {
                let k = choose|i: int| 0 <= i < out@.len() && (#[trigger] out@[i]).0 == tl;
                assert(order[k] as int == tl);
            }
        }
        assert forall|i: int, j: int| 0 <= i < j < out@.len() implies (#[trigger] out@[i]).0 != (
        #[trigger] out@[j]).0 by {
            let a = order[i];
            let b = order[j];
        }
        assert forall|i: int, j: int| 0 <= i <= j < out@.len() implies (#[trigger] out@[i]).1 <= (
        #[trigger] out@[j]).1 by {
            let a = order[i];
            let b = order[j];
        }
    }
    (out, max - min + 1)
}

/// The sum over the first `n` weights `tw` of `(tw & 1) ^ (tw >> 1)`.
pub open spec fn diff_sum(tws: Seq<u32>, n: nat) -> nat
    decreases n,
{
    if n == 0 {
        0
    } else {
        diff_sum(tws, (n - 1) as nat) + ((tws[n - 1] & 1) ^ (tws[n - 1] >> 1)) as nat
    }
}

/// The sum over more weights is no smaller.
pub proof fn lemma_diff_sum_grows(tws: Seq<u32>, a: nat, b: nat)
    requires
        a <= b,
    ensures
        diff_sum(tws, a) <= diff_sum(tws, b),
    decreases b,
{
    if a < b {
        lemma_diff_sum_grows(tws, a, (b - 1) as nat);
    }
}

/// The bucket length that belongs to 64 target weights: one doubled once for
/// every unit of `diff_sum`, which has to stay below 32.
pub fn compute_bucket_len(tws: [u32; 64]) -> (r: usize)
    requires
        diff_sum(tws@, 64) < 32,
    ensures
        r == 1usize << (diff_sum(tws@, 64) as usize),
{
    let mut total_diffs: u32 = 0;
    let mut i: usize = 0;
    while i < 64
        invariant
            i <= 64,
            total_diffs == diff_sum(tws@, i as nat),
            diff_sum(tws@, 64) < 32,
        decreases 64 - i,
    {
        proof {
            lemma_diff_sum_grows(tws@, (i + 1) as nat, 64);
        }
        let tw: u32 = tws[i];
        total_diffs = total_diffs + ((tw & 1) ^ (tw >> 1));
        i = i + 1;
    }
    1usize << (total_diffs as usize)
}

/// The `bits` bits of `feature` above its lowest `bits` bits.
pub open spec fn left_half(feature: u128, bits: u32) -> u128 {
    (feature >> bits) & (((1u128 << bits) - 1) as u128)
}

/// Searches the two substrings, each `bits` wide, of the lowest `2 * bits`
/// bits of `feature`, for a target of weight `tw`.
///
/// Lists what `search` lists for the weight of `feature` and of its left
/// half. Each entry holds the left weight, its sum of distances, the number
/// of left weights that the target can have, and the two weights `tw - (tl +
/// min)` and `tl + min`, where `min` is the least left weight that the
/// target can have.
pub fn search2(bits: u32, feature: u128, tw: u32, radius: u32) -> (out: Vec<
    (usize, u32, usize, [u32; 2]),
>)
    requires
        bits < 128,
        tw <= 2 * bits,
    ensures
        out@.len() == radius_order(
            bits as int,
            ones(left_half(feature, bits)) as int,
            ones(feature) as int,
            tw as int,
            radius as int,
        ).len(),
        forall|i: int|
            0 <= i < out@.len() ==> {
                let tl = radius_order(
                    bits as int,
                    ones(left_half(feature, bits)) as int,
                    ones(feature) as int,
                    tw as int,
                    radius as int,
                )[i];
                &&& (#[trigger] out@[i]).0 == tl
                &&& out@[i].1 == sod(
                    ones(left_half(feature, bits)) as int,
                    ones(feature) as int,
                    tw as int,
                    tl as int,
                )
                &&& out@[i].2 == tl_max(bits as int, tw as int) - tl_min(bits as int, tw as int)
                    + 1
                &&& out@[i].3[0] == tw - (tl + tl_min(bits as int, tw as int))
                &&& out@[i].3[1] == tl + tl_min(bits as int, tw as int)
            },
{
    let sw: u32 = feature.count_ones();
    assert((1u128 << bits) >= 1) by (bit_vector)
        requires
            bits < 128,
    ;
    let sl: u32 = ((feature >> bits) & ((1u128 << bits) - 1)).count_ones();
    let max: u32 = if tw < bits { tw } else { bits };
    let min: u32 = tw - max;
    let (indices, bucket_size) = search(bits, sl, sw, tw, radius);
    let ghost order = radius_order(bits as int, sl as int, sw as int, tw as int, radius as int);
    proof {
        lemma_radius_order(bits as int, sl as int, sw as int, tw as int, radius as int);
    }
    let mut out: Vec<(usize, u32, usize, [u32; 2])> = Vec::new();
    let mut i: usize = 0;
    while i < indices.len()
        invariant
            i <= indices@.len(),
            indices@.len() == order.len(),
            out@.len() == i,
            max == tl_max(bits as int, tw as int),
            min == tl_min(bits as int, tw as int),
            bucket_size == max - min + 1,
            forall|k: int|
                0 <= k < indices@.len() ==> {
                    &&& (#[trigger] indices@[k]).0 == order[k]
                    &&& indices@[k].1 == sod(sl as int, sw as int, tw as int, order[k] as int)
                    &&& in_domain(bits as int, tw as int, order[k] as int)
                },
            forall|k: int|
                0 <= k < i ==> {
                    &&& (#[trigger] out@[k]).0 == order[k]
                    &&& out@[k].1 == sod(sl as int, sw as int, tw as int, order[k] as int)
                    &&& out@[k].2 == max - min + 1
                    &&& out@[k].3[0] == tw - (order[k] + min)
                    &&& out@[k].3[1] == order[k] + min
                },
        decreases indices@.len() - i,
    {
        let (index, sod) = indices[i];
        let tws: [u32; 2] = [tw - (index + min), index + min];
        out.push((index as usize, sod, bucket_size as usize, tws));
        i = i + 1;
    }
    out
}

/// The weights of an array as a vector.
pub fn weights_of<const N: usize>(tws: &[u32; N]) -> (v: Vec<u32>)
    ensures
        v@ == tws@,
{
    let mut v: Vec<u32> = Vec::new();
    let mut i: usize = 0;
    while i < N
        invariant
            i <= N,
            tws@.len() == N,
            v@ == tws@.take(i as int),
        decreases N - i,
    {
        v.push(tws[i]);
        i = i + 1;
        assert(v@ =~= tws@.take(i as int));
    }
    assert(v@ =~= tws@);
    v
}

/// The 4 weights of a vector as an array.
fn array4(v: &Vec<u32>) -> (a: [u32; 4])
    requires
        v@.len() == 4,
    ensures
        a@ == v@,
{
    let a: [u32; 4] = [
        v[0], v[1], v[2], v[3],
    ];
    assert(a@ =~= v@);
    a
}

/// Searches the 4 substrings, each `bits` wide, of the lowest `4 * bits`
/// bits of `feature`, for the target weights `tws` of its 2 pairs of
/// substrings.
///
/// Lists `pair_list`: the entries of the lower half of the pairs, each put
/// together with the entries of the upper half that the rest of the radius
/// allows. An entry holds an index, its sum of distances, the size of the
/// bucket that the index counts in, and the weights of the substrings.
pub fn search4(bits: u32, feature: u128, tws: [u32; 2], radius: u32) -> (out: Vec<
    (usize, u32, usize, [u32; 4]),
>)
    requires
        bits * 2 < 128,
        forall|j: int| 0 <= j < 2 ==> (#[trigger] tws[j]) <= 2 * bits,
        room(2, bits, tws@) <= usize::MAX,
    ensures
        out@.len() == pair_list(2, bits, feature, tws@, radius as int).len(),
        forall|k: int|
            0 <= k < out@.len() ==> {
                let e = pair_list(2, bits, feature, tws@, radius as int)[k];
                &&& (#[trigger] out@[k]).0 == e.0
                &&& out@[k].1 == e.1
                &&& out@[k].2 == e.2
                &&& out@[k].3@ == e.3
            },
{
    let weights = weights_of(&tws);
    assert(weights@.subrange(0, 2) =~= tws@);
    let list = search_pairs(bits, 2, feature, &weights, 0, radius);
    let mut out: Vec<(usize, u32, usize, [u32; 4])> = Vec::new();
    let mut i: usize = 0;
    while i < list.len()
        invariant
            i <= list@.len(),
            out@.len() == i,
            forall|k: int| 0 <= k < list@.len() ==> (#[trigger] list@[k]).3@.len() == 4,
            forall|k: int|
                0 <= k < i ==> (#[trigger] out@[k]).0 == list@[k].0 && out@[k].1 == list@[k].1
                    && out@[k].2 == list@[k].2 && out@[k].3@ == list@[k].3@,
        decreases list@.len() - i,
    {
        let e = &list[i];
        out.push((e.0, e.1, e.2, array4(&e.3)));
        i = i + 1;
    }
    proof {
        let spec = pair_list(2, bits, feature, tws@, radius as int);
        assert(list_view(list@) == spec);
        assert forall|k: int| 0 <= k < out@.len() implies {
            let e = spec[k];
            &&& (#[trigger] out@[k]).0 == e.0
            &&& out@[k].1 == e.1
            &&& out@[k].2 == e.2
            &&& out@[k].3@ == e.3
        } by {
            assert(list_view(list@)[k] == entry_view(list@[k]));
        }
    }
    out
}

/// The 8 weights of a vector as an array.
fn array8(v: &Vec<u32>) -> (a: [u32; 8])
    requires
        v@.len() == 8,
    ensures
        a@ == v@,
{
    let a: [u32; 8] = [
        v[0], v[1], v[2], v[3], v[4], v[5], v[6], v[7],
    ];
    assert(a@ =~= v@);
    a
}

/// Searches the 8 substrings, each `bits` wide, of the lowest `8 * bits`
/// bits of `feature`, for the target weights `tws` of its 4 pairs of
/// substrings.
///
/// Lists `pair_list`: the entries of the lower half of the pairs, each put
/// together with the entries of the upper half that the rest of the radius
/// allows. An entry holds an index, its sum of distances, the size of the
/// bucket that the index counts in, and the weights of the substrings.
pub fn search8(bits: u32, feature: u128, tws: [u32; 4], radius: u32) -> (out: Vec<
    (usize, u32, usize, [u32; 8]),
>)
    requires
        bits * 4 < 128,
        forall|j: int| 0 <= j < 4 ==> (#[trigger] tws[j]) <= 2 * bits,
        room(4, bits, tws@) <= usize::MAX,
    ensures
        out@.len() == pair_list(4, bits, feature, tws@, radius as int).len(),
        forall|k: int|
            0 <= k < out@.len() ==> {
                let e = pair_list(4, bits, feature, tws@, radius as int)[k];
                &&& (#[trigger] out@[k]).0 == e.0
                &&& out@[k].1 == e.1
                &&& out@[k].2 == e.2
                &&& out@[k].3@ == e.3
            },
{
    let weights = weights_of(&tws);
    assert(weights@.subrange(0, 4) =~= tws@);
    let list = search_pairs(bits, 4, feature, &weights, 0, radius);
    let mut out: Vec<(usize, u32, usize, [u32; 8])> = Vec::new();
    let mut i: usize = 0;
    while i < list.len()
        invariant
            i <= list@.len(),
            out@.len() == i,
            forall|k: int| 0 <= k < list@.len() ==> (#[trigger] list@[k]).3@.len() == 8,
            forall|k: int|
                0 <= k < i ==> (#[trigger] out@[k]).0 == list@[k].0 && out@[k].1 == list@[k].1
                    && out@[k].2 == list@[k].2 && out@[k].3@ == list@[k].3@,
        decreases list@.len() - i,
    {
        let e = &list[i];
        out.push((e.0, e.1, e.2, array8(&e.3)));
        i = i + 1;
    }
    proof {
        let spec = pair_list(4, bits, feature, tws@, radius as int);
        assert(list_view(list@) == spec);
        assert forall|k: int| 0 <= k < out@.len() implies {
            let e = spec[k];
            &&& (#[trigger] out@[k]).0 == e.0
            &&& out@[k].1 == e.1
            &&& out@[k].2 == e.2
            &&& out@[k].3@ == e.3
        } by {
            assert(list_view(list@)[k] == entry_view(list@[k]));
        }
    }
    out
}

/// The 16 weights of a vector as an array.
fn array16(v: &Vec<u32>) -> (a: [u32; 16])
    requires
        v@.len() == 16,
    ensures
        a@ == v@,
{
    let a: [u32; 16] = [
        v[0], v[1], v[2], v[3], v[4], v[5], v[6], v[7], v[8], v[9], v[10], v[11], v[12], v[13],
        v[14], v[15],
    ];
    assert(a@ =~= v@);
    a
}

/// Searches the 16 substrings, each `bits` wide, of the lowest `16 * bits`
/// bits of `feature`, for the target weights `tws` of its 8 pairs of
/// substrings.
///
/// Lists `pair_list`: the entries of the lower half of the pairs, each put
/// together with the entries of the upper half that the rest of the radius
/// allows. An entry holds an index, its sum of distances, the size of the
/// bucket that the index counts in, and the weights of the substrings.
pub fn search16(bits: u32, feature: u128, tws: [u32; 8], radius: u32) -> (out: Vec<
    (usize, u32, usize, [u32; 16]),
>)
    requires
        bits * 8 < 128,
        forall|j: int| 0 <= j < 8 ==> (#[trigger] tws[j]) <= 2 * bits,
        room(8, bits, tws@) <= usize::MAX,
    ensures
        out@.len() == pair_list(8, bits, feature, tws@, radius as int).len(),
        forall|k: int|
            0 <= k < out@.len() ==> {
                let e = pair_list(8, bits, feature, tws@, radius as int)[k];
                &&& (#[trigger] out@[k]).0 == e.0
                &&& out@[k].1 == e.1
                &&& out@[k].2 == e.2
                &&& out@[k].3@ == e.3
            },
{
    let weights = weights_of(&tws);
    assert(weights@.subrange(0, 8) =~= tws@);
    let list = search_pairs(bits, 8, feature, &weights, 0, radius);
    let mut out: Vec<(usize, u32, usize, [u32; 16])> = Vec::new();
    let mut i: usize = 0;
    while i < list.len()
        invariant
            i <= list@.len(),
            out@.len() == i,
            forall|k: int| 0 <= k < list@.len() ==> (#[trigger] list@[k]).3@.len() == 16,
            forall|k: int|
                0 <= k < i ==> (#[trigger] out@[k]).0 == list@[k].0 && out@[k].1 == list@[k].1
                    && out@[k].2 == list@[k].2 && out@[k].3@ == list@[k].3@,
        decreases list@.len() - i,
    {
        let e = &list[i];
        out.push((e.0, e.1, e.2, array16(&e.3)));
        i = i + 1;
    }
    proof {
        let spec = pair_list(8, bits, feature, tws@, radius as int);
        assert(list_view(list@) == spec);
        assert forall|k: int| 0 <= k < out@.len() implies {
            let e = spec[k];
            &&& (#[trigger] out@[k]).0 == e.0
            &&& out@[k].1 == e.1
            &&& out@[k].2 == e.2
            &&& out@[k].3@ == e.3
        } by {
            assert(list_view(list@)[k] == entry_view(list@[k]));
        }
    }
    out
}

/// The 32 weights of a vector as an array.
fn array32(v: &Vec<u32>) -> (a: [u32; 32])
    requires
        v@.len() == 32,
    ensures
        a@ == v@,
{
    let a: [u32; 32] = [
        v[0], v[1], v[2], v[3], v[4], v[5], v[6], v[7], v[8], v[9], v[10], v[11], v[12], v[13],
        v[14], v[15], v[16], v[17], v[18], v[19], v[20], v[21], v[22], v[23], v[24], v[25],
        v[26], v[27], v[28], v[29], v[30], v[31],
    ];
    assert(a@ =~= v@);
    a
}

/// Searches the 32 substrings, each `bits` wide, of the lowest `32 * bits`
/// bits of `feature`, for the target weights `tws` of its 16 pairs of
/// substrings.
///
/// Lists `pair_list`: the entries of the lower half of the pairs, each put
/// together with the entries of the upper half that the rest of the radius
/// allows. An entry holds an index, its sum of distances, the size of the
/// bucket that the index counts in, and the weights of the substrings.
pub fn search32(bits: u32, feature: u128, tws: [u32; 16], radius: u32) -> (out: Vec<
    (usize, u32, usize, [u32; 32]),
>)
    requires
        bits * 16 < 128,
        forall|j: int| 0 <= j < 16 ==> (#[trigger] tws[j]) <= 2 * bits,
        room(16, bits, tws@) <= usize::MAX,
    ensures
        out@.len() == pair_list(16, bits, feature, tws@, radius as int).len(),
        forall|k: int|
            0 <= k < out@.len() ==> {
                let e = pair_list(16, bits, feature, tws@, radius as int)[k];
                &&& (#[trigger] out@[k]).0 == e.0
                &&& out@[k].1 == e.1
                &&& out@[k].2 == e.2
                &&& out@[k].3@ == e.3
            },
{
    let weights = weights_of(&tws);
    assert(weights@.subrange(0, 16) =~= tws@);
    let list = search_pairs(bits, 16, feature, &weights, 0, radius);
    let mut out: Vec<(usize, u32, usize, [u32; 32])> = Vec::new();
    let mut i: usize = 0;
    while i < list.len()
        invariant
            i <= list@.len(),
            out@.len() == i,
            forall|k: int| 0 <= k < list@.len() ==> (#[trigger] list@[k]).3@.len() == 32,
            forall|k: int|
                0 <= k < i ==> (#[trigger] out@[k]).0 == list@[k].0 && out@[k].1 == list@[k].1
                    && out@[k].2 == list@[k].2 && out@[k].3@ == list@[k].3@,
        decreases list@.len() - i,
    {
        let e = &list[i];
        out.push((e.0, e.1, e.2, array32(&e.3)));
        i = i + 1;
    }
    proof {
        let spec = pair_list(16, bits, feature, tws@, radius as int);
        assert(list_view(list@) == spec);
        assert forall|k: int| 0 <= k < out@.len() implies {
            let e = spec[k];
            &&& (#[trigger] out@[k]).0 == e.0
            &&& out@[k].1 == e.1
            &&& out@[k].2 == e.2
            &&& out@[k].3@ == e.3
        } by {
            assert(list_view(list@)[k] == entry_view(list@[k]));
        }
    }
    out
}

/// The 64 weights of a vector as an array.
fn array64(v: &Vec<u32>) -> (a: [u32; 64])
    requires
        v@.len() == 64,
    ensures
        a@ == v@,
{
    let a: [u32; 64] = [
        v[0], v[1], v[2], v[3], v[4], v[5], v[6], v[7], v[8], v[9], v[10], v[11], v[12], v[13],
        v[14], v[15], v[16], v[17], v[18], v[19], v[20], v[21], v[22], v[23], v[24], v[25],
        v[26], v[27], v[28], v[29], v[30], v[31], v[32], v[33], v[34], v[35], v[36], v[37],
        v[38], v[39], v[40], v[41], v[42], v[43], v[44], v[45], v[46], v[47], v[48], v[49],
        v[50], v[51], v[52], v[53], v[54], v[55], v[56], v[57], v[58], v[59], v[60], v[61],
        v[62], v[63],
    ];
    assert(a@ =~= v@);
    a
}

/// Searches the 64 substrings, each `bits` wide, of the lowest `64 * bits`
/// bits of `feature`, for the target weights `tws` of its 32 pairs of
/// substrings.
///
/// Lists `pair_list`: the entries of the lower half of the pairs, each put
/// together with the entries of the upper half that the rest of the radius
/// allows. An entry holds an index, its sum of distances, the size of the
/// bucket that the index counts in, and the weights of the substrings.
pub fn search64(bits: u32, feature: u128, tws: [u32; 32], radius: u32) -> (out: Vec<
    (usize, u32, usize, [u32; 64]),
>)
    requires
        bits * 32 < 128,
        forall|j: int| 0 <= j < 32 ==> (#[trigger] tws[j]) <= 2 * bits,
        room(32, bits, tws@) <= usize::MAX,
    ensures
        out@.len() == pair_list(32, bits, feature, tws@, radius as int).len(),
        forall|k: int|
            0 <= k < out@.len() ==> {
                let e = pair_list(32, bits, feature, tws@, radius as int)[k];
                &&& (#[trigger] out@[k]).0 == e.0
                &&& out@[k].1 == e.1
                &&& out@[k].2 == e.2
                &&& out@[k].3@ == e.3
            },
{
    let weights = weights_of(&tws);
    assert(weights@.subrange(0, 32) =~= tws@);
    let list = search_pairs(bits, 32, feature, &weights, 0, radius);
    let mut out: Vec<(usize, u32, usize, [u32; 64])> = Vec::new();
    let mut i: usize = 0;
    while i < list.len()
        invariant
            i <= list@.len(),
            out@.len() == i,
            forall|k: int| 0 <= k < list@.len() ==> (#[trigger] list@[k]).3@.len() == 64,
            forall|k: int|
                0 <= k < i ==> (#[trigger] out@[k]).0 == list@[k].0 && out@[k].1 == list@[k].1
                    && out@[k].2 == list@[k].2 && out@[k].3@ == list@[k].3@,
        decreases list@.len() - i,
    {
        let e = &list[i];
        out.push((e.0, e.1, e.2, array64(&e.3)));
        i = i + 1;
    }
    proof {
        let spec = pair_list(32, bits, feature, tws@, radius as int);
        assert(list_view(list@) == spec);
        assert forall|k: int| 0 <= k < out@.len() implies {
            let e = spec[k];
            &&& (#[trigger] out@[k]).0 == e.0
            &&& out@[k].1 == e.1
            &&& out@[k].2 == e.2
            &&& out@[k].3@ == e.3
        } by {
            assert(list_view(list@)[k] == entry_view(list@[k]));
        }
    }
    out
}

/// Searches the 128 bits of `feature` for the target weights `tws` of its 64
/// pairs of bits, and lists the indices of `pair_list`.
pub fn search128(feature: u128, tws: [u32; 64], radius: u32) -> (out: Vec<usize>)
    requires
        forall|j: int| 0 <= j < 64 ==> (#[trigger] tws[j]) <= 2,
        room(64, 1, tws@) <= usize::MAX,
    ensures
        out@.len() == pair_list(64, 1, feature, tws@, radius as int).len(),
        forall|k: int|
            0 <= k < out@.len() ==> #[trigger] out@[k] == pair_list(
                64,
                1,
                feature,
                tws@,
                radius as int,
            )[k].0,
{
    let weights = weights_of(&tws);
    assert(weights@.subrange(0, 64) =~= tws@);
    let list = search_pairs(1, 64, feature, &weights, 0, radius);
    let mut out: Vec<usize> = Vec::new();
    let mut i: usize = 0;
    while i < list.len()
        invariant
            i <= list@.len(),
            out@.len() == i,
            forall|k: int| 0 <= k < i ==> #[trigger] out@[k] == list@[k].0,
        decreases list@.len() - i,
    {
        out.push(list[i].0);
        i = i + 1;
    }
    proof {
        let spec = pair_list(64, 1, feature, tws@, radius as int);
        assert(list_view(list@) == spec);
        assert forall|k: int| 0 <= k < out@.len() implies #[trigger] out@[k] == spec[k].0 by {
            assert(list_view(list@)[k] == entry_view(list@[k]));
        }
    }
    out
}

} // verus!
