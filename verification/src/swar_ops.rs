//! Spreading the places of a word out and squeezing them together.
//!
//! A word of places of width `w` is halved into two words of places of width
//! `2 * w`: the upper half of its places goes into one word and the lower
//! half into the other, each place into the lower half of a place of twice
//! the width. Two such words are united again by squeezing the lower halves
//! of their places together. Both are done by the crate `swar`; what they do
//! is written down here as [`spread_from`] and [`united`].
use crate::bits::{
    bit, lemma_bit_extract, lemma_bit_or, lemma_bit_shl, lemma_bit_zero, lemma_same_bits,
    lemma_weight_band, lemma_weight_moved, lemma_weight_split, low_ones, weight,
};
use crate::chf::steps;
use vstd::prelude::*;

verus! {

/// The places of width `w` of `x` from position `src` upwards, each set into
/// the lower half of a place of width `2 * w`, from position `lo` upwards.
pub open spec fn spread_from(x: u128, w: nat, src: nat, lo: nat) -> u128
    decreases 128 - lo,
{
    if w == 0 || lo + 2 * w > 128 || src + w > 128 {
        0
    } else {
        (((x >> (src as u32)) & low_ones(w as u32)) << (lo as u32)) | spread_from(
            x,
            w,
            src + w,
            lo + 2 * w,
        )
    }
}

/// Bit `i` of `spread_from(x, w, src, lo)`.
pub open spec fn spread_bit(x: u128, w: nat, src: nat, lo: nat, i: nat) -> bool
    decreases 128 - lo,
{
    if w == 0 || lo + 2 * w > 128 || src + w > 128 {
        false
    } else if i < lo + 2 * w {
        lo <= i && i - lo < w && bit(x, (src + i - lo) as u32)
    } else {
        spread_bit(x, w, src + w, lo + 2 * w, i)
    }
}

/// The lower halves of the places of width `2 * w` of `y` from position
/// `src` upwards, set side by side from position `lo` upwards.
pub open spec fn squeeze_from(y: u128, w: nat, src: nat, lo: nat) -> u128
    decreases 128 - src,
{
    if w == 0 || src + 2 * w > 128 || lo + w > 128 {
        0
    } else {
        (((y >> (src as u32)) & low_ones(w as u32)) << (lo as u32)) | squeeze_from(
            y,
            w,
            src + 2 * w,
            lo + w,
        )
    }
}

/// Bit `i` of `squeeze_from(y, w, src, lo)`.
pub open spec fn squeeze_bit(y: u128, w: nat, src: nat, lo: nat, i: nat) -> bool
    decreases 128 - src,
{
    if w == 0 || src + 2 * w > 128 || lo + w > 128 {
        false
    } else if i < lo + w {
        lo <= i && bit(y, (src + i - lo) as u32)
    } else {
        squeeze_bit(y, w, src + 2 * w, lo + w, i)
    }
}

/// The word of places of width `w` whose upper half is squeezed from `l` and
/// whose lower half is squeezed from `r`.
pub open spec fn united(l: u128, r: u128, w: nat) -> u128 {
    (squeeze_from(l, w, 0, 0) << 64) | squeeze_from(r, w, 0, 0)
}

/// Whether position `i` lies in the lower half of a place of width `2 * w`,
/// the places counted from `lo`.
pub open spec fn lower_half(w: nat, lo: nat, i: nat) -> bool
    decreases 128 - lo,
{
    if w == 0 || lo + 2 * w > 128 {
        false
    } else if i < lo + 2 * w {
        lo <= i < lo + w
    } else {
        lower_half(w, lo + 2 * w, i)
    }
}

/// Whether every one of `y` stands in the lower half of a place of width
/// `2 * w`.
pub open spec fn roomy(y: u128, w: nat) -> bool {
    forall|i: u32| i < 128 && #[trigger] bit(y, i) ==> lower_half(w, 0, i as nat)
}

/// Halves a word of places of width 1, by `swar::Bits1::halve`.
#[verifier::external_body]
fn halve1(x: u128) -> (r: (u128, u128))
    ensures
        r.0 == spread_from(x, 1, 64, 0),
        r.1 == spread_from(x, 1, 0, 0),
{
    let (l, r) = swar::Bits1(x).halve();
    (l.0, r.0)
}

/// Halves a word of places of width 2, by `swar::Bits2::halve`.
#[verifier::external_body]
fn halve2(x: u128) -> (r: (u128, u128))
    ensures
        r.0 == spread_from(x, 2, 64, 0),
        r.1 == spread_from(x, 2, 0, 0),
{
    let (l, r) = swar::Bits2(x).halve();
    (l.0, r.0)
}

/// Halves a word of places of width 4, by `swar::Bits4::halve`.
#[verifier::external_body]
fn halve4(x: u128) -> (r: (u128, u128))
    ensures
        r.0 == spread_from(x, 4, 64, 0),
        r.1 == spread_from(x, 4, 0, 0),
{
    let (l, r) = swar::Bits4(x).halve();
    (l.0, r.0)
}

/// Halves a word of places of width 8, by `swar::Bits8::halve`.
#[verifier::external_body]
fn halve8(x: u128) -> (r: (u128, u128))
    ensures
        r.0 == spread_from(x, 8, 64, 0),
        r.1 == spread_from(x, 8, 0, 0),
{
    let (l, r) = swar::Bits8(x).halve();
    (l.0, r.0)
}

/// Halves a word of places of width 16, by `swar::Bits16::halve`.
#[verifier::external_body]
fn halve16(x: u128) -> (r: (u128, u128))
    ensures
        r.0 == spread_from(x, 16, 64, 0),
        r.1 == spread_from(x, 16, 0, 0),
{
    let (l, r) = swar::Bits16(x).halve();
    (l.0, r.0)
}

/// Halves a word of places of width 32, by `swar::Bits32::halve`.
#[verifier::external_body]
fn halve32(x: u128) -> (r: (u128, u128))
    ensures
        r.0 == spread_from(x, 32, 64, 0),
        r.1 == spread_from(x, 32, 0, 0),
{
    let (l, r) = swar::Bits32(x).halve();
    (l.0, r.0)
}

/// Halves a word of places of width 64, by `swar::Bits64::halve`.
#[verifier::external_body]
fn halve64(x: u128) -> (r: (u128, u128))
    ensures
        r.0 == spread_from(x, 64, 64, 0),
        r.1 == spread_from(x, 64, 0, 0),
{
    let (l, r) = swar::Bits64(x).halve();
    (l.0, r.0)
}

/// Unites two words into one of places of width 1, by `swar::Bits1::union`.
#[verifier::external_body]
fn union1(l: u128, r: u128) -> (out: u128)
    requires
        roomy(l, 1),
        roomy(r, 1),
    ensures
        out == united(l, r, 1),
{
    swar::Bits1::union(swar::Bits2(l), swar::Bits2(r)).0
}

/// Unites two words into one of places of width 2, by `swar::Bits2::union`.
#[verifier::external_body]
fn union2(l: u128, r: u128) -> (out: u128)
    requires
        roomy(l, 2),
        roomy(r, 2),
    ensures
        out == united(l, r, 2),
{
    swar::Bits2::union(swar::Bits4(l), swar::Bits4(r)).0
}

/// Unites two words into one of places of width 4, by `swar::Bits4::union`.
#[verifier::external_body]
fn union4(l: u128, r: u128) -> (out: u128)
    requires
        roomy(l, 4),
        roomy(r, 4),
    ensures
        out == united(l, r, 4),
{
    swar::Bits4::union(swar::Bits8(l), swar::Bits8(r)).0
}

/// Unites two words into one of places of width 8, by `swar::Bits8::union`.
#[verifier::external_body]
fn union8(l: u128, r: u128) -> (out: u128)
    requires
        roomy(l, 8),
        roomy(r, 8),
    ensures
        out == united(l, r, 8),
{
    swar::Bits8::union(swar::Bits16(l), swar::Bits16(r)).0
}

/// Unites two words into one of places of width 16, by `swar::Bits16::union`.
#[verifier::external_body]
fn union16(l: u128, r: u128) -> (out: u128)
    requires
        roomy(l, 16),
        roomy(r, 16),
    ensures
        out == united(l, r, 16),
{
    swar::Bits16::union(swar::Bits32(l), swar::Bits32(r)).0
}

/// Unites two words into one of places of width 32, by `swar::Bits32::union`.
#[verifier::external_body]
fn union32(l: u128, r: u128) -> (out: u128)
    requires
        roomy(l, 32),
        roomy(r, 32),
    ensures
        out == united(l, r, 32),
{
    swar::Bits32::union(swar::Bits64(l), swar::Bits64(r)).0
}

/// Halves a word of places of width `w`: the upper half of the places and
/// the lower half, each spread out to places of width `2 * w`.
pub fn halve(w: u32, x: u128) -> (r: (u128, u128))
    requires
        w == 1 || w == 2 || w == 4 || w == 8 || w == 16 || w == 32 || w == 64,
    ensures
        r.0 == spread_from(x, w as nat, 64, 0),
        r.1 == spread_from(x, w as nat, 0, 0),
{
    if w == 1 {
        halve1(x)
    } else if w == 2 {
        halve2(x)
    } else if w == 4 {
        halve4(x)
    } else if w == 8 {
        halve8(x)
    } else if w == 16 {
        halve16(x)
    } else if w == 32 {
        halve32(x)
    } else {
        halve64(x)
    }
}

/// Unites two words of places of width `2 * w`, each place filled in its
/// lower half only, into one word of places of width `w`.
pub fn union(w: u32, l: u128, r: u128) -> (out: u128)
    requires
        w == 1 || w == 2 || w == 4 || w == 8 || w == 16 || w == 32,
        roomy(l, w as nat),
        roomy(r, w as nat),
    ensures
        out == united(l, r, w as nat),
{
    if w == 1 {
        union1(l, r)
    } else if w == 2 {
        union2(l, r)
    } else if w == 4 {
        union4(l, r)
    } else if w == 8 {
        union8(l, r)
    } else if w == 16 {
        union16(l, r)
    } else {
        union32(l, r)
    }
}

/// Steps from a position moved by `c` reach what they reached, moved by `c`.
pub proof fn lemma_steps_shift(w: nat, a: nat, b: nat, c: nat)
    requires
        steps(w, a, b),
    ensures
        steps(w, a + c, b + c),
    decreases b - a,
{
    if a != b {
        lemma_steps_shift(w, a + w, b, c);
    }
}

/// Where the place of width `w` begins that holds position `i`, the places
/// counted from `a` up to 64.
pub open spec fn place_of(w: nat, a: nat, i: nat) -> nat
    decreases 64 - a,
{
    if w == 0 || a + w > 64 || i < a + w {
        a
    } else {
        place_of(w, a + w, i)
    }
}

/// Where the place of width `2 * w` begins that holds position `i`, halved,
/// the places counted from `2 * a` up to 128.
pub open spec fn wide_place_of(w: nat, a: nat, i: nat) -> nat
    decreases 64 - a,
{
    if w == 0 || a + w > 64 || i < 2 * a + 2 * w {
        a
    } else {
        wide_place_of(w, a + w, i)
    }
}

/// The place of width `w` that holds position `i` is `place_of`.
pub proof fn lemma_locate(w: nat, a: nat, i: nat) -> (p: nat)
    requires
        w > 0,
        steps(w, a, 64),
        a <= i < 64,
    ensures
        p == place_of(w, a, i),
        steps(w, a, p),
        steps(w, p, 64),
        p <= i < p + w,
        p + w <= 64,
    decreases 64 - a,
{
    if i < a + w {
        a
    } else {
        lemma_locate(w, a + w, i)
    }
}

/// The bits of a spread word are those that `spread_bit` gives.
pub proof fn lemma_spread_bits(x: u128, w: nat, src: nat, lo: nat, i: u32)
    requires
        i < 128,
    ensures
        bit(spread_from(x, w, src, lo), i) == spread_bit(x, w, src, lo, i as nat),
    decreases 128 - lo,
{
    if w == 0 || lo + 2 * w > 128 || src + w > 128 {
        lemma_bit_zero(i);
    } else {
        let part = (x >> (src as u32)) & low_ones(w as u32);
        lemma_spread_bits(x, w, src + w, lo + 2 * w, i);
        lemma_bit_or(part << (lo as u32), spread_from(x, w, src + w, lo + 2 * w), i);
        lemma_bit_shl(part, lo as u32, i);
        if lo <= i {
            lemma_bit_extract(x, src as u32, w as u32, (i - lo) as u32);
        }
    }
}

/// A bit of a spread word is a bit of the places from its own place on.
pub proof fn lemma_spread_skip(x: u128, w: nat, src: nat, lo: nat, p: nat, i: nat)
    requires
        steps(w, src, p),
        i >= lo + 2 * (p - src),
    ensures
        spread_bit(x, w, src, lo, i) == spread_bit(x, w, p, (lo + 2 * (p - src)) as nat, i),
    decreases p - src,
{
    if src != p {
        lemma_spread_skip(x, w, src + w, lo + 2 * w, p, i);
    }
}

/// The ones of a spread word stand in the lower halves of the places.
pub proof fn lemma_spread_low(x: u128, w: nat, src: nat, lo: nat, i: nat)
    requires
        spread_bit(x, w, src, lo, i),
    ensures
        lower_half(w, lo, i),
    decreases 128 - lo,
{
    if !(w == 0 || lo + 2 * w > 128 || src + w > 128) && i >= lo + 2 * w {
        lemma_spread_low(x, w, src + w, lo + 2 * w, i);
    }
}

/// Whether a position lies in a lower half shows in its own place.
pub proof fn lemma_lower_skip(w: nat, lo: nat, t: nat, i: nat)
    requires
        steps(2 * w, lo, t),
        i >= t,
    ensures
        lower_half(w, lo, i) == lower_half(w, t, i),
    decreases t - lo,
{
    if lo != t {
        lemma_lower_skip(w, lo + 2 * w, t, i);
    }
}

/// What a place of a spread word holds: in its lower half the place of `x`
/// that it comes from, and nothing in its upper half.
pub proof fn lemma_spread_field(x: u128, w: nat, src: nat, p: nat)
    requires
        w > 0,
        steps(w, src, p),
        p + w <= src + 64,
        src + 64 <= 128,
    ensures
        forall|i: u32|
            2 * (p - src) <= i < 2 * (p - src) + 2 * w ==> #[trigger] bit(
                spread_from(x, w, src, 0),
                i,
            ) == (i - 2 * (p - src) < w && bit(x, (p + i - 2 * (p - src)) as u32)),
        weight(spread_from(x, w, src, 0), (2 * (p - src)) as nat, (2 * (p - src) + 2 * w) as nat)
            == weight(x, p, p + w),
        weight(spread_from(x, w, src, 0), (2 * (p - src)) as nat, (2 * (p - src) + w) as nat)
            == weight(x, p, p + w),
{
    let y = spread_from(x, w, src, 0);
    let t = (2 * (p - src)) as nat;
    assert forall|i: u32| t <= i < t + 2 * w implies #[trigger] bit(y, i) == (i - t < w && bit(
        x,
        (p + i - t) as u32,
    )) by {
        lemma_spread_bits(x, w, src, 0, i);
        lemma_spread_skip(x, w, src, 0, p, i as nat);
    }
    assert forall|i: u32| t <= i < t + w implies #[trigger] bit(y, i) == bit(
        x,
        (i - t + p) as u32,
    ) by {}
    lemma_weight_moved(x, p, y, t, w);
    assert forall|i: u32| t + w <= i < t + w + w implies #[trigger] bit(y, i) == (0 <= i - (t + w)
        < 0) by {}
    lemma_weight_band(y, t + w, w, 0, 0);
    lemma_weight_split(y, t, t + w, t + 2 * w);
}

/// The bits of a squeezed word are those that `squeeze_bit` gives.
pub proof fn lemma_squeeze_bits(y: u128, w: nat, src: nat, lo: nat, i: u32)
    requires
        i < 128,
    ensures
        bit(squeeze_from(y, w, src, lo), i) == squeeze_bit(y, w, src, lo, i as nat),
    decreases 128 - src,
{
    if w == 0 || src + 2 * w > 128 || lo + w > 128 {
        lemma_bit_zero(i);
    } else {
        let part = (y >> (src as u32)) & low_ones(w as u32);
        lemma_squeeze_bits(y, w, src + 2 * w, lo + w, i);
        lemma_bit_or(part << (lo as u32), squeeze_from(y, w, src + 2 * w, lo + w), i);
        lemma_bit_shl(part, lo as u32, i);
        if lo <= i {
            lemma_bit_extract(y, src as u32, w as u32, (i - lo) as u32);
        }
    }
}

/// A bit of a squeezed word is a bit of the places from its own place on.
pub proof fn lemma_squeeze_skip(y: u128, w: nat, a: nat, t: nat, i: nat)
    requires
        steps(w, a, t),
        i >= t,
    ensures
        squeeze_bit(y, w, 2 * a, a, i) == squeeze_bit(y, w, 2 * t, t, i),
    decreases t - a,
{
    if a != t {
        lemma_squeeze_skip(y, w, a + w, t, i);
    }
}

/// A squeezed word has no ones from position 64 on.
pub proof fn lemma_squeeze_top(y: u128, w: nat, a: nat, i: nat)
    requires
        squeeze_bit(y, w, 2 * a, a, i),
    ensures
        i < 64,
    decreases 128 - 2 * a,
{
    if !(w == 0 || 2 * a + 2 * w > 128 || a + w > 128) && i >= a + w {
        lemma_squeeze_top(y, w, a + w, i);
    }
}

/// Bit `i` of a united word comes from the lower half of a place of `l`, if
/// it lies in the upper half of the word, and of `r` else.
pub proof fn lemma_united_bit(l: u128, r: u128, w: nat, i: u32)
    requires
        w > 0,
        steps(w, 0, 64),
        i < 128,
    ensures
        i >= 64 ==> ({
            let j = (i - 64) as nat;
            let t = place_of(w, 0, j);
            bit(united(l, r, w), i) == bit(l, (2 * t + (j - t)) as u32)
        }),
        i < 64 ==> ({
            let t = place_of(w, 0, i as nat);
            bit(united(l, r, w), i) == bit(r, (2 * t + (i - t)) as u32)
        }),
{
    let upper = squeeze_from(l, w, 0, 0);
    let lower = squeeze_from(r, w, 0, 0);
    lemma_bit_or(upper << 64, lower, i);
    lemma_bit_shl(upper, 64, i);
    lemma_squeeze_bits(r, w, 0, 0, i);
    if i >= 64 {
        let j = (i - 64) as nat;
        let t = lemma_locate(w, 0, j);
        lemma_squeeze_bits(l, w, 0, 0, (i - 64) as u32);
        lemma_squeeze_skip(l, w, 0, t, j);
        if squeeze_bit(r, w, 0, 0, i as nat) {
            lemma_squeeze_top(r, w, 0, i as nat);
        }
    } else {
        let t = lemma_locate(w, 0, i as nat);
        lemma_squeeze_skip(r, w, 0, t, i as nat);
    }
}

/// Halving a word and uniting the halves gives the word again.
pub proof fn lemma_halve_unite(x: u128, w: nat)
    requires
        w > 0,
        steps(w, 0, 64),
    ensures
        united(spread_from(x, w, 64, 0), spread_from(x, w, 0, 0), w) == x,
        roomy(spread_from(x, w, 64, 0), w),
        roomy(spread_from(x, w, 0, 0), w),
{
    let l = spread_from(x, w, 64, 0);
    let r = spread_from(x, w, 0, 0);
    assert forall|i: u32| i < 128 implies bit(united(l, r, w), i) == bit(x, i) by {
        lemma_united_bit(l, r, w, i);
        if i >= 64 {
            let j = (i - 64) as nat;
            let t = lemma_locate(w, 0, j);
            lemma_steps_shift(w, 0, t, 64);
            lemma_spread_field(x, w, 64, 64 + t);
            assert(bit(l, (2 * t + (j - t)) as u32) == bit(x, i));
        } else {
            let t = lemma_locate(w, 0, i as nat);
            lemma_spread_field(x, w, 0, t);
            assert(bit(r, (2 * t + (i - t)) as u32) == bit(x, i));
        }
    }
    lemma_same_bits(united(l, r, w), x);
    assert forall|i: u32| i < 128 && #[trigger] bit(l, i) implies lower_half(w, 0, i as nat) by {
        lemma_spread_bits(x, w, 64, 0, i);
        lemma_spread_low(x, w, 64, 0, i as nat);
    }
    assert forall|i: u32| i < 128 && #[trigger] bit(r, i) implies lower_half(w, 0, i as nat) by {
        lemma_spread_bits(x, w, 0, 0, i);
        lemma_spread_low(x, w, 0, 0, i as nat);
    }
}

/// The place of width `2 * w` that holds position `i`.
pub proof fn lemma_locate_wide(w: nat, a: nat, i: nat) -> (t: nat)
    requires
        w > 0,
        steps(w, a, 64),
        2 * a <= i < 128,
    ensures
        t == wide_place_of(w, a, i),
        steps(w, a, t),
        steps(2 * w, 2 * a, 2 * t),
        2 * t <= i < 2 * t + 2 * w,
        t + w <= 64,
    decreases 64 - a,
{
    if i < 2 * a + 2 * w {
        a
    } else {
        let t = lemma_locate_wide(w, a + w, i);
        t
    }
}

/// Uniting two words whose places are filled in their lower halves only,
/// and halving what comes of it, gives the two words again.
pub proof fn lemma_unite_halve(l: u128, r: u128, w: nat)
    requires
        w > 0,
        steps(w, 0, 64),
        roomy(l, w),
        roomy(r, w),
    ensures
        spread_from(united(l, r, w), w, 64, 0) == l,
        spread_from(united(l, r, w), w, 0, 0) == r,
{
    let u = united(l, r, w);
    assert forall|i: u32| i < 128 implies bit(spread_from(u, w, 64, 0), i) == bit(l, i) by {
        let t = lemma_locate_wide(w, 0, i as nat);
        lemma_steps_shift(w, 0, t, 64);
        lemma_spread_field(u, w, 64, 64 + t);
        lemma_lower_skip(w, 0, 2 * t, i as nat);
        if i - 2 * t < w {
            let k = (64 + t + (i - 2 * t)) as u32;
            lemma_united_bit(l, r, w, k);
            let j = (k - 64) as nat;
            let t2 = lemma_locate(w, 0, j);
            lemma_same_place(w, t, t2, j);
        }
    }
    lemma_same_bits(spread_from(u, w, 64, 0), l);
    assert forall|i: u32| i < 128 implies bit(spread_from(u, w, 0, 0), i) == bit(r, i) by {
        let t = lemma_locate_wide(w, 0, i as nat);
        lemma_spread_field(u, w, 0, t);
        lemma_lower_skip(w, 0, 2 * t, i as nat);
        if i - 2 * t < w {
            let k = (t + (i - 2 * t)) as u32;
            lemma_united_bit(l, r, w, k);
            let t2 = lemma_locate(w, 0, k as nat);
            lemma_same_place(w, t, t2, k as nat);
        }
    }
    lemma_same_bits(spread_from(u, w, 0, 0), r);
}

/// A position lies in one place only.
pub proof fn lemma_same_place(w: nat, a: nat, b: nat, i: nat)
    requires
        w > 0,
        steps(w, 0, a),
        steps(w, 0, b),
        a <= i < a + w,
        b <= i < b + w,
    ensures
        a == b,
{
    lemma_apart(w, 0, a, b);
}

/// Two places counted from one position are the same or lie apart.
pub proof fn lemma_apart(w: nat, from: nat, a: nat, b: nat)
    requires
        w > 0,
        steps(w, from, a),
        steps(w, from, b),
    ensures
        a == b || a + w <= b || b + w <= a,
    decreases a - from,
{
    if from != a && from != b {
        lemma_apart(w, from + w, a, b);
    }
}

} // verus!
