//! Clearing-price discovery and order assignment.
use vstd::prelude::*;

use vstd::arithmetic::div_mod::{
    lemma_div_is_ordered, lemma_div_multiples_vanish_fancy, lemma_fundamental_div_mod,
};
use vstd::arithmetic::mul::{lemma_mul_is_commutative, lemma_mul_upper_bound};

use crate::allocations::{
    bidder_lookup, bidder_map_wf, bidder_upsert, lemma_bidder_lookup_purchase_le_total,
    lemma_bidder_upsert_wf, lemma_offeror_upsert_wf, lemma_total_bidder_purchase_upsert,
    offeror_lookup, offeror_map_wf, offeror_upsert, sat_add, total_bidder_purchase,
    BidderAllocation, BidderAllocations, OfferorAllocation, OfferorAllocations,
    RepurchaseObligation,
};
use crate::bids::{bids_price_sorted, lemma_u64_mul_fits, Bid};
use crate::offers::{offers_price_sorted, Offer};
use crate::types::Address;
use crate::{BPS, DAYS_IN_YEAR, MAX_BID_PRICE, MAX_OFFER_PRICE};

verus! {

/// The base of one 64-bit limb.
pub const LIMB: u128 = 0x10000000000000000;

/// A 192-bit product held as three 64-bit limbs, highest first.
#[derive(Clone, Copy, PartialEq, Eq, Structural, Debug)]
pub struct Wide {
    pub w2: u64,
    pub w1: u64,
    pub w0: u64,
}

/// The value of a three-limb number.
pub open spec fn wide_value(w: Wide) -> int {
    w.w2 as int * 0x100000000000000000000000000000000 + w.w1 as int * 0x10000000000000000
        + w.w0 as int
}

/// Computes the full product of a 64-bit and a 128-bit value.
pub fn mul_u64_u128(a: u64, b: u128) -> (r: Wide)
    ensures
        wide_value(r) == a as int * b as int,
{
    let bh: u128 = b / LIMB;
    let bl: u128 = b % LIMB;
    proof {
        lemma_u64_mul_fits(a, bh as u64);
        lemma_u64_mul_fits(a, bl as u64);
    }
    let p1: u128 = (a as u128) * bh;
    let p0: u128 = (a as u128) * bl;
    let lo: u64 = (p0 % LIMB) as u64;
    let mid_sum: u128 = p1 % LIMB + p0 / LIMB;
    let mid: u64 = (mid_sum % LIMB) as u64;
    proof {
        assert(p1 / LIMB < 0xffffffffffffffff) by (nonlinear_arith)
            requires
                p1 == a as int * bh,
                a <= 0xffffffffffffffffu64,
                bh <= 0xffffffffffffffffu128,
                LIMB == 0x10000000000000000,
        ;
    }
    let hi: u64 = (p1 / LIMB) as u64 + (mid_sum / LIMB) as u64;
    let r = Wide { w2: hi, w1: mid, w0: lo };
    proof {
        let l: int = LIMB as int;
        let bi: int = b as int;
        let bhi: int = bh as int;
        let bli: int = bl as int;
        let p1i: int = p1 as int;
        let p0i: int = p0 as int;
        let msi: int = mid_sum as int;
        assert(bi == bhi * l + bli) by (nonlinear_arith)
            requires
                bhi == bi / l,
                bli == bi % l,
                l == 0x10000000000000000,
                bi >= 0,
        ;
        assert(a as int * bi == p1i * l + p0i) by (nonlinear_arith)
            requires
                bi == bhi * l + bli,
                p1i == a as int * bhi,
                p0i == a as int * bli,
        ;
        assert(p1i == (p1i / l) * l + p1i % l) by {
            lemma_fundamental_div_mod(p1i, l);
        }
        assert(p0i == (p0i / l) * l + p0i % l) by {
            lemma_fundamental_div_mod(p0i, l);
        }
        assert(msi == (msi / l) * l + msi % l) by {
            lemma_fundamental_div_mod(msi, l);
        }
        assert(wide_value(r) == a as int * bi) by (nonlinear_arith)
            requires
                wide_value(r) == hi as int * (l * l) + mid as int * l + lo as int,
                hi as int == p1i / l + msi / l,
                mid as int == msi % l,
                lo as int == p0i % l,
                msi == p1i % l + p0i / l,
                p1i == (p1i / l) * l + p1i % l,
                p0i == (p0i / l) * l + p0i % l,
                msi == (msi / l) * l + msi % l,
                a as int * bi == p1i * l + p0i,
                l == 0x10000000000000000,
        ;
    }
    r
}

/// Compares two three-limb values.
pub fn wide_le(x: &Wide, y: &Wide) -> (r: bool)
    ensures
        r == (wide_value(*x) <= wide_value(*y)),
{
    if x.w2 != y.w2 {
        x.w2 < y.w2
    } else if x.w1 != y.w1 {
        x.w1 < y.w1
    } else {
        x.w0 <= y.w0
    }
}

/// The division characterization: a quotient bracketed by multiples is the
/// floor quotient.
proof fn lemma_div_char(d: int, g: int, q: int)
    requires
        g > 0,
        q >= 0,
        q * g <= d,
        d < (q + 1) * g,
    ensures
        d / g == q,
{
    lemma_div_is_ordered(q * g, d, g);
    vstd::arithmetic::div_mod::lemma_div_by_multiple(q, g);
    assert((q * g) / g == q);
    assert(d < g * (q + 1)) by {
        lemma_mul_is_commutative(g, q + 1);
    }
    vstd::arithmetic::div_mod::lemma_multiply_divide_lt(d, g, q + 1);
}

/// Computes `a * r / g` exactly.
pub fn mul_div(a: u64, r: u128, g: u128) -> (q: u64)
    requires
        g > 0,
        r <= g,
    ensures
        q == (a as int * r as int) / (g as int),
        q <= a,
{
    let target = mul_u64_u128(a, r);
    let mut lo: u64 = 0;
    let mut hi: u64 = a;
    let ghost ai: int = a as int;
    let ghost ri: int = r as int;
    let ghost gi: int = g as int;
    proof {
        assert(ai * ri < (ai + 1) * gi) by (nonlinear_arith)
            requires
                ri <= gi,
                gi > 0,
                ai >= 0,
        ;
    }
    while lo < hi
        invariant
            lo <= hi <= a,
            ai == a as int && ri == r as int && gi == g as int,
            wide_value(target) == ai * ri,
            (lo as int) * gi <= ai * ri,
            ai * ri < ((hi as int) + 1) * gi,
            gi > 0,
        decreases hi - lo,
    {
        let mid: u64 = hi - (hi - lo) / 2;
        let trial = mul_u64_u128(mid, g);
        if wide_le(&trial, &target) {
            lo = mid;
        } else {
            hi = mid - 1;
            proof {
                assert(ai * ri < (mid as int) * gi);
            }
        }
    }
    proof {
        lemma_div_char(ai * ri, gi, lo as int);
    }
    lo
}

/// The repurchase price: the purchase amount grown by the clearing rate over
/// the term fraction, truncated. All arithmetic is exact.
pub open spec fn repurchase_price_spec(purchase: u64, clearing: u64, day_count: u64) -> int {
    purchase + (purchase * clearing * day_count) / ((DAYS_IN_YEAR * BPS) as int)
}

/// Computes the repurchase price using the 360-day count convention:
/// `purchase * (1 + (day_count * clearing) / (DAYS_IN_YEAR * BPS))`,
/// truncating, with exact integer arithmetic.
pub fn calculate_repurchase_price(purchase: u64, clearing: u64, day_count: u64) -> (r: u128)
    requires
        clearing <= MAX_BID_PRICE,
    ensures
        r == repurchase_price_spec(purchase, clearing, day_count),
{
    let k: u128 = 3600000;
    proof {
        assert((DAYS_IN_YEAR * BPS) as int == 3600000) by (nonlinear_arith)
            requires
                DAYS_IN_YEAR == 360,
                BPS == 10000,
        ;
        lemma_u64_mul_fits(clearing, day_count);
    }
    let m: u128 = (clearing as u128) * (day_count as u128);
    let q: u128 = m / k;
    let rem: u128 = m % k;
    proof {
        assert(m as int <= 1000000 * 0xffffffffffffffff) by (nonlinear_arith)
            requires
                m as int == clearing as int * day_count as int,
                clearing as int <= 1000000,
                day_count as int <= 0xffffffffffffffff,
        ;
        lemma_div_is_ordered(m as int, (1000000 * 0xffffffffffffffff) as int, k as int);
        assert(q <= (1000000 * 0xffffffffffffffff) / 3600000);
        assert(purchase as int * q as int
            <= 0xffffffffffffffff * ((1000000 * 0xffffffffffffffff) / 3600000)) by {
            lemma_mul_upper_bound(purchase as int, 0xffffffffffffffff as int, q as int,
                ((1000000 * 0xffffffffffffffff) / 3600000) as int);
        }
        assert(rem < k);
        assert(purchase as int * rem as int <= 0xffffffffffffffff * 3600000) by {
            lemma_mul_upper_bound(purchase as int, 0xffffffffffffffff, rem as int, 3600000);
        }
    }
    let pq: u128 = (purchase as u128) * q;
    let pr: u128 = (purchase as u128) * rem;
    let r: u128 = (purchase as u128) + pq + pr / k;
    proof {
        let p: int = purchase as int;
        let ki: int = k as int;
        let mi: int = m as int;
        let qi: int = q as int;
        let remi: int = rem as int;
        let pri: int = pr as int;
        lemma_fundamental_div_mod(mi, ki);
        assert(p * mi == (p * qi) * ki + p * remi) by (nonlinear_arith)
            requires
                mi == ki * (mi / ki) + mi % ki,
                qi == mi / ki,
                remi == mi % ki,
        ;
        lemma_fundamental_div_mod(pri, ki);
        assert(p * mi == ki * (p * qi + pri / ki) + pri % ki) by (nonlinear_arith)
            requires
                p * mi == (p * qi) * ki + p * remi,
                pri == p * remi,
                pri == ki * (pri / ki) + pri % ki,
        ;
        assert(0 <= pri % ki < ki);
        lemma_div_multiples_vanish_fancy(p * qi + pri / ki, pri % ki, ki);
        assert((p * mi) / ki == p * qi + pri / ki);
        assert(p * mi == p * (clearing as int) * (day_count as int)) by (nonlinear_arith)
            requires
                mi == clearing as int * day_count as int,
        ;
        assert(r as int == repurchase_price_spec(purchase, clearing, day_count));
    }
    r
}

/// The smaller of two values.
pub open spec fn min_int(a: int, b: int) -> int {
    if a <= b {
        a
    } else {
        b
    }
}

/// The sum of the bid amounts from index `i` to the end.
pub open spec fn sum_bid_amounts_from(s: Seq<Bid>, i: int) -> int
    decreases s.len() - i,
{
    if i < 0 || i >= s.len() {
        0
    } else {
        s[i].amount + sum_bid_amounts_from(s, i + 1)
    }
}

/// The sum of the offer amounts before index `i`.
pub open spec fn sum_offer_amounts_to(s: Seq<Offer>, i: int) -> int
    decreases i,
{
    if i <= 0 || i > s.len() {
        0
    } else {
        sum_offer_amounts_to(s, i - 1) + s[i - 1].amount
    }
}

/// The willing-to-buy volume at or above price `p`.
pub open spec fn sum_bids_at_or_above(s: Seq<Bid>, p: u64) -> int
    decreases s.len(),
{
    if s.len() == 0 {
        0
    } else {
        sum_bids_at_or_above(s.drop_last(), p)
            + if s.last().bid_price_revealed >= p { s.last().amount as int } else { 0 }
    }
}

/// The willing-to-sell volume at or below price `p`.
pub open spec fn sum_offers_at_or_below(s: Seq<Offer>, p: u64) -> int
    decreases s.len(),
{
    if s.len() == 0 {
        0
    } else {
        sum_offers_at_or_below(s.drop_last(), p)
            + if s.last().offer_price_revealed <= p { s.last().amount as int } else { 0 }
    }
}

pub proof fn lemma_sum_bid_amounts_from_bound(s: Seq<Bid>, i: int)
    ensures
        0 <= sum_bid_amounts_from(s, i),
        0 <= i <= s.len() ==> sum_bid_amounts_from(s, i) <= (s.len() - i) * 0xffffffffffffffff,
        sum_bid_amounts_from(s, i) <= s.len() * 0xffffffffffffffff,
    decreases s.len() - i,
{
    if 0 <= i < s.len() {
        lemma_sum_bid_amounts_from_bound(s, i + 1);
    }
}

/// Suffix sums shrink as the start index grows.
pub proof fn lemma_sum_bid_amounts_from_monotone(s: Seq<Bid>, i: int, j: int)
    requires
        0 <= i <= j <= s.len(),
    ensures
        sum_bid_amounts_from(s, i) >= sum_bid_amounts_from(s, j),
    decreases j - i,
{
    if i < j {
        lemma_sum_bid_amounts_from_monotone(s, i + 1, j);
    }
}

pub proof fn lemma_sum_offer_amounts_to_bound(s: Seq<Offer>, i: int)
    ensures
        0 <= sum_offer_amounts_to(s, i),
        0 <= i <= s.len() ==> sum_offer_amounts_to(s, i) <= i * 0xffffffffffffffff,
        sum_offer_amounts_to(s, i) <= s.len() * 0xffffffffffffffff,
    decreases i,
{
    if 0 < i <= s.len() {
        lemma_sum_offer_amounts_to_bound(s, i - 1);
    }
}

pub proof fn lemma_sum_bids_at_or_above_bound(s: Seq<Bid>, p: u64)
    ensures
        0 <= sum_bids_at_or_above(s, p) <= s.len() * 0xffffffffffffffff,
    decreases s.len(),
{
    if s.len() > 0 {
        lemma_sum_bids_at_or_above_bound(s.drop_last(), p);
    }
}

pub proof fn lemma_sum_offers_at_or_below_bound(s: Seq<Offer>, p: u64)
    ensures
        0 <= sum_offers_at_or_below(s, p) <= s.len() * 0xffffffffffffffff,
    decreases s.len(),
{
    if s.len() > 0 {
        lemma_sum_offers_at_or_below_bound(s.drop_last(), p);
    }
}

/// A sum of at most `u64::MAX` many 64-bit amounts, plus one more amount,
/// stays within 128 bits.
pub proof fn lemma_amount_sum_fits(n: int)
    requires
        0 <= n <= 0xffffffffffffffff,
    ensures
        n * 0xffffffffffffffff + 0xffffffffffffffff <= u128::MAX,
{
    assert(n * 0xffffffffffffffff + 0xffffffffffffffff <= u128::MAX) by (nonlinear_arith)
        requires
            0 <= n <= 0xffffffffffffffff,
    ;
}

/// Sums the bid amounts from index `from` to the end of the book.
pub fn suffix_bid_sum(bids: &Vec<Bid>, from: usize) -> (r: u128)
    requires
        from <= bids@.len(),
    ensures
        r as int == sum_bid_amounts_from(bids@, from as int),
{
    let n = bids.len();
    let mut i: usize = n;
    let mut acc: u128 = 0;
    while i > from
        invariant
            from <= i <= n,
            n == bids@.len(),
            acc as int == sum_bid_amounts_from(bids@, i as int),
        decreases i,
    {
        i -= 1;
        proof {
            lemma_sum_bid_amounts_from_bound(bids@, i + 1);
            lemma_amount_sum_fits(bids@.len() as int);
            vstd::arithmetic::mul::lemma_mul_inequality(
                bids@.len() - i - 1,
                bids@.len() as int,
                0xffffffffffffffff,
            );
        }
        acc = acc + (bids[i].amount as u128);
    }
    acc
}

/// Sums the offer amounts before index `to`.
pub fn prefix_offer_sum(offers: &Vec<Offer>, to: usize) -> (r: u128)
    requires
        to <= offers@.len(),
    ensures
        r as int == sum_offer_amounts_to(offers@, to as int),
{
    let n = offers.len();
    let mut i: usize = 0;
    let mut acc: u128 = 0;
    while i < to
        invariant
            i <= to <= n,
            n == offers@.len(),
            acc as int == sum_offer_amounts_to(offers@, i as int),
        decreases to - i,
    {
        proof {
            lemma_sum_offer_amounts_to_bound(offers@, i as int);
            lemma_amount_sum_fits(offers@.len() as int);
            vstd::arithmetic::mul::lemma_mul_inequality(
                i as int,
                offers@.len() as int,
                0xffffffffffffffff,
            );
        }
        acc = acc + (offers[i].amount as u128);
        i += 1;
    }
    acc
}

/// The first index at or after `i` whose bid price is at least `p`.
pub open spec fn bids_first_geq(s: Seq<Bid>, i: int, p: u64) -> int
    decreases s.len() - i,
{
    if i < 0 || i >= s.len() {
        s.len() as int
    } else if s[i].bid_price_revealed >= p {
        i
    } else {
        bids_first_geq(s, i + 1, p)
    }
}

pub proof fn lemma_bids_first_geq_bounds(s: Seq<Bid>, i: int, p: u64)
    requires
        0 <= i <= s.len(),
    ensures
        i <= bids_first_geq(s, i, p) <= s.len(),
        forall|j: int| i <= j < bids_first_geq(s, i, p)
            ==> (#[trigger] s[j]).bid_price_revealed < p,
        bids_first_geq(s, i, p) < s.len() ==> s[bids_first_geq(s, i, p)].bid_price_revealed >= p,
    decreases s.len() - i,
{
    if i < s.len() && s[i].bid_price_revealed < p {
        lemma_bids_first_geq_bounds(s, i + 1, p);
    }
}

pub proof fn lemma_bids_first_geq_char(s: Seq<Bid>, i: int, p: u64, r: int)
    requires
        0 <= i <= r <= s.len(),
        forall|j: int| i <= j < r ==> (#[trigger] s[j]).bid_price_revealed < p,
        r < s.len() ==> s[r].bid_price_revealed >= p,
    ensures
        bids_first_geq(s, i, p) == r,
    decreases r - i,
{
    if i < r {
        lemma_bids_first_geq_char(s, i + 1, p, r);
    }
}

/// Finds the first bid at or after `from` whose price is at least `p`.
pub fn first_bid_geq(bids: &Vec<Bid>, from: usize, p: u64) -> (r: usize)
    requires
        from <= bids@.len(),
    ensures
        r as int == bids_first_geq(bids@, from as int, p),
{
    let mut i: usize = from;
    while i < bids.len()
        invariant
            from <= i <= bids@.len(),
            forall|j: int| from <= j < i ==> (#[trigger] bids@[j]).bid_price_revealed < p,
        decreases bids@.len() - i,
    {
        if bids[i].bid_price_revealed >= p {
            proof {
                lemma_bids_first_geq_char(bids@, from as int, p, i as int);
            }
            return i;
        }
        i += 1;
    }
    proof {
        lemma_bids_first_geq_char(bids@, from as int, p, bids@.len() as int);
    }
    i
}

/// The first index at or after `i` whose offer price differs from `p`.
pub open spec fn offers_group_end(s: Seq<Offer>, i: int, p: u64) -> int
    decreases s.len() - i,
{
    if i < 0 || i >= s.len() {
        s.len() as int
    } else if s[i].offer_price_revealed == p {
        offers_group_end(s, i + 1, p)
    } else {
        i
    }
}

pub proof fn lemma_offers_group_end_bounds(s: Seq<Offer>, i: int, p: u64)
    requires
        0 <= i <= s.len(),
    ensures
        i <= offers_group_end(s, i, p) <= s.len(),
        forall|j: int| i <= j < offers_group_end(s, i, p)
            ==> (#[trigger] s[j]).offer_price_revealed == p,
        offers_group_end(s, i, p) < s.len()
            ==> s[offers_group_end(s, i, p)].offer_price_revealed != p,
    decreases s.len() - i,
{
    if i < s.len() && s[i].offer_price_revealed == p {
        lemma_offers_group_end_bounds(s, i + 1, p);
    }
}

pub proof fn lemma_offers_group_end_char(s: Seq<Offer>, i: int, p: u64, r: int)
    requires
        0 <= i <= r <= s.len(),
        forall|j: int| i <= j < r ==> (#[trigger] s[j]).offer_price_revealed == p,
        r < s.len() ==> s[r].offer_price_revealed != p,
    ensures
        offers_group_end(s, i, p) == r,
    decreases r - i,
{
    if i < r {
        lemma_offers_group_end_char(s, i + 1, p, r);
    }
}

/// Finds the end of the offer price group starting at `from`.
pub fn offers_group_end_exec(offers: &Vec<Offer>, from: usize, p: u64) -> (r: usize)
    requires
        from <= offers@.len(),
    ensures
        r as int == offers_group_end(offers@, from as int, p),
{
    let mut i: usize = from;
    while i < offers.len()
        invariant
            from <= i <= offers@.len(),
            forall|j: int| from <= j < i ==> (#[trigger] offers@[j]).offer_price_revealed == p,
        decreases offers@.len() - i,
    {
        if offers[i].offer_price_revealed != p {
            proof {
                lemma_offers_group_end_char(offers@, from as int, p, i as int);
            }
            return i;
        }
        i += 1;
    }
    proof {
        lemma_offers_group_end_char(offers@, from as int, p, offers@.len() as int);
    }
    i
}

/// The first index at or after `i` whose bid price differs from `p`.
pub open spec fn bids_group_end(s: Seq<Bid>, i: int, p: u64) -> int
    decreases s.len() - i,
{
    if i < 0 || i >= s.len() {
        s.len() as int
    } else if s[i].bid_price_revealed == p {
        bids_group_end(s, i + 1, p)
    } else {
        i
    }
}

pub proof fn lemma_bids_group_end_bounds(s: Seq<Bid>, i: int, p: u64)
    requires
        0 <= i <= s.len(),
    ensures
        i <= bids_group_end(s, i, p) <= s.len(),
        forall|j: int| i <= j < bids_group_end(s, i, p)
            ==> (#[trigger] s[j]).bid_price_revealed == p,
        bids_group_end(s, i, p) < s.len() ==> s[bids_group_end(s, i, p)].bid_price_revealed != p,
    decreases s.len() - i,
{
    if i < s.len() && s[i].bid_price_revealed == p {
        lemma_bids_group_end_bounds(s, i + 1, p);
    }
}

pub proof fn lemma_bids_group_end_char(s: Seq<Bid>, i: int, p: u64, r: int)
    requires
        0 <= i <= r <= s.len(),
        forall|j: int| i <= j < r ==> (#[trigger] s[j]).bid_price_revealed == p,
        r < s.len() ==> s[r].bid_price_revealed != p,
    ensures
        bids_group_end(s, i, p) == r,
    decreases r - i,
{
    if i < r {
        lemma_bids_group_end_char(s, i + 1, p, r);
    }
}

/// Finds the end of the bid price group starting at `from`.
pub fn bids_group_end_exec(bids: &Vec<Bid>, from: usize, p: u64) -> (r: usize)
    requires
        from <= bids@.len(),
    ensures
        r as int == bids_group_end(bids@, from as int, p),
{
    let mut i: usize = from;
    while i < bids.len()
        invariant
            from <= i <= bids@.len(),
            forall|j: int| from <= j < i ==> (#[trigger] bids@[j]).bid_price_revealed == p,
        decreases bids@.len() - i,
    {
        if bids[i].bid_price_revealed != p {
            proof {
                lemma_bids_group_end_char(bids@, from as int, p, i as int);
            }
            return i;
        }
        i += 1;
    }
    proof {
        lemma_bids_group_end_char(bids@, from as int, p, bids@.len() as int);
    }
    i
}

/// Walks down from `i` past the offers whose price equals `p`: the last index
/// below that group, or index zero.
pub open spec fn offers_group_back(s: Seq<Offer>, i: int, p: u64) -> int
    decreases i,
{
    if i <= 0 {
        0
    } else if s[i].offer_price_revealed == p {
        offers_group_back(s, i - 1, p)
    } else {
        i
    }
}

pub proof fn lemma_offers_group_back_bounds(s: Seq<Offer>, i: int, p: u64)
    requires
        0 <= i < s.len(),
    ensures
        0 <= offers_group_back(s, i, p) <= i,
    decreases i,
{
    if i > 0 && s[i].offer_price_revealed == p {
        lemma_offers_group_back_bounds(s, i - 1, p);
    }
}

/// Walks down past the offer price group at `from`.
pub fn offers_group_back_exec(offers: &Vec<Offer>, from: usize, p: u64) -> (r: usize)
    requires
        from < offers@.len(),
    ensures
        r as int == offers_group_back(offers@, from as int, p),
        r <= from,
{
    let mut i: usize = from;
    proof {
        lemma_offers_group_back_bounds(offers@, from as int, p);
    }
    while i > 0 && offers[i].offer_price_revealed == p
        invariant
            i <= from < offers@.len(),
            offers_group_back(offers@, i as int, p) == offers_group_back(offers@, from as int, p),
        decreases i,
    {
        i -= 1;
    }
    i
}

/// Walks up from `i` through the bids whose price equals `p`, stopping at the
/// last index of the book.
pub open spec fn bids_group_fwd(s: Seq<Bid>, i: int, p: u64) -> int
    decreases s.len() - i,
{
    if i >= s.len() - 1 {
        s.len() - 1
    } else if s[i].bid_price_revealed == p {
        bids_group_fwd(s, i + 1, p)
    } else {
        i
    }
}

pub proof fn lemma_bids_group_fwd_bounds(s: Seq<Bid>, i: int, p: u64)
    requires
        0 <= i < s.len(),
    ensures
        i <= bids_group_fwd(s, i, p) <= s.len() - 1,
    decreases s.len() - i,
{
    if i < s.len() - 1 && s[i].bid_price_revealed == p {
        lemma_bids_group_fwd_bounds(s, i + 1, p);
    }
}

/// Walks up through the bid price group at `from`.
pub fn bids_group_fwd_exec(bids: &Vec<Bid>, from: usize, p: u64) -> (r: usize)
    requires
        from < bids@.len(),
    ensures
        r as int == bids_group_fwd(bids@, from as int, p),
        from <= r < bids@.len(),
{
    let mut i: usize = from;
    proof {
        lemma_bids_group_fwd_bounds(bids@, from as int, p);
    }
    while i < bids.len() - 1 && bids[i].bid_price_revealed == p
        invariant
            from <= i < bids@.len(),
            bids_group_fwd(bids@, i as int, p) == bids_group_fwd(bids@, from as int, p),
        decreases bids@.len() - i,
    {
        i += 1;
    }
    i
}

/// Sums the amounts of the bids priced at or above `p`.
pub fn sum_bids_at_or_above_exec(bids: &Vec<Bid>, p: u64) -> (r: u128)
    ensures
        r as int == sum_bids_at_or_above(bids@, p),
{
    let n = bids.len();
    let mut i: usize = 0;
    let mut acc: u128 = 0;
    while i < n
        invariant
            i <= n,
            n == bids@.len(),
            acc as int == sum_bids_at_or_above(bids@.take(i as int), p),
        decreases bids@.len() - i,
    {
        proof {
            lemma_sum_bids_at_or_above_bound(bids@.take(i as int), p);
            lemma_amount_sum_fits(bids@.len() as int);
            vstd::arithmetic::mul::lemma_mul_inequality(
                i as int,
                bids@.len() as int,
                0xffffffffffffffff,
            );
            assert(bids@.take(i + 1).drop_last() =~= bids@.take(i as int));
            assert(bids@.take(i + 1).last() == bids@[i as int]);
        }
        if bids[i].bid_price_revealed >= p {
            acc = acc + (bids[i].amount as u128);
        }
        i += 1;
    }
    proof {
        assert(bids@.take(bids@.len() as int) =~= bids@);
    }
    acc
}

/// Sums the amounts of the offers priced at or below `p`.
pub fn sum_offers_at_or_below_exec(offers: &Vec<Offer>, p: u64) -> (r: u128)
    ensures
        r as int == sum_offers_at_or_below(offers@, p),
{
    let n = offers.len();
    let mut i: usize = 0;
    let mut acc: u128 = 0;
    while i < n
        invariant
            i <= n,
            n == offers@.len(),
            acc as int == sum_offers_at_or_below(offers@.take(i as int), p),
        decreases offers@.len() - i,
    {
        proof {
            lemma_sum_offers_at_or_below_bound(offers@.take(i as int), p);
            lemma_amount_sum_fits(offers@.len() as int);
            vstd::arithmetic::mul::lemma_mul_inequality(
                i as int,
                offers@.len() as int,
                0xffffffffffffffff,
            );
            assert(offers@.take(i + 1).drop_last() =~= offers@.take(i as int));
            assert(offers@.take(i + 1).last() == offers@[i as int]);
        }
        if offers[i].offer_price_revealed <= p {
            acc = acc + (offers[i].amount as u128);
        }
        i += 1;
    }
    proof {
        assert(offers@.take(offers@.len() as int) =~= offers@);
    }
    acc
}

/// Phase A of clearing-price discovery: starting from the lowest offer price,
/// the offer price advances group by group while doing so strictly increases
/// the clearing volume `min(CSB, CSO)`. The state is the first uncommitted
/// offer index and the first bid index still counted in `CSB`.
pub open spec fn phase_a(bids: Seq<Bid>, offers: Seq<Offer>, oi: int, bi: int) -> (int, int)
    decreases offers.len() - oi,
    via phase_a_decreases
{
    if 0 <= oi < offers.len() && 0 <= bi < bids.len() {
        let cand = offers[oi].offer_price_revealed;
        let noi = offers_group_end(offers, oi, cand);
        let nbi = bids_first_geq(bids, bi, cand);
        if min_int(sum_bid_amounts_from(bids, nbi), sum_offer_amounts_to(offers, noi))
            > min_int(sum_bid_amounts_from(bids, bi), sum_offer_amounts_to(offers, oi)) {
            phase_a(bids, offers, noi, nbi)
        } else {
            (oi, bi)
        }
    } else {
        (oi, bi)
    }
}

#[via_fn]
proof fn phase_a_decreases(bids: Seq<Bid>, offers: Seq<Offer>, oi: int, bi: int) {
    if 0 <= oi < offers.len() && 0 <= bi < bids.len() {
        let cand = offers[oi].offer_price_revealed;
        assert(offers_group_end(offers, oi, cand) == offers_group_end(offers, oi + 1, cand));
        lemma_offers_group_end_bounds(offers, oi + 1, cand);
    }
}

/// Phase B of clearing-price discovery: from the fixed offer index, the
/// lowest remaining bid groups are dropped while the next bid price stays
/// strictly below the next offer price and the decremented `CSB` stays at
/// least `CSO`.
pub open spec fn phase_b(bids: Seq<Bid>, offers: Seq<Offer>, oi: int, bi: int) -> int
    decreases bids.len() - bi,
    via phase_b_decreases
{
    if 0 <= bi < bids.len() && (oi >= offers.len()
        || bids[bi].bid_price_revealed < offers[oi].offer_price_revealed) {
        let nbi = bids_group_end(bids, bi, bids[bi].bid_price_revealed);
        if sum_bid_amounts_from(bids, nbi) >= sum_offer_amounts_to(offers, oi) {
            phase_b(bids, offers, oi, nbi)
        } else {
            bi
        }
    } else {
        bi
    }
}

#[via_fn]
proof fn phase_b_decreases(bids: Seq<Bid>, offers: Seq<Offer>, oi: int, bi: int) {
    if 0 <= bi < bids.len() && (oi >= offers.len()
        || bids[bi].bid_price_revealed < offers[oi].offer_price_revealed) {
        let bp = bids[bi].bid_price_revealed;
        assert(bids_group_end(bids, bi, bp) == bids_group_end(bids, bi + 1, bp));
        lemma_bids_group_end_bounds(bids, bi + 1, bp);
    }
}

/// The clearing price of an intersecting market: the average of the offer
/// price one group below the pre-clearance offer price and the bid price one
/// group above the lowest remaining bid price, truncating; at the edges of
/// either book, the first offer or the last bid stands in.
pub open spec fn clearing_price_spec(bids: Seq<Bid>, offers: Seq<Offer>) -> int {
    let bi0 = bids_first_geq(bids, 0, offers[0].offer_price_revealed);
    let st = phase_a(bids, offers, 1, bi0);
    let bi2 = phase_b(bids, offers, st.0, st.1);
    let npi = offers_group_back(offers, st.0 - 1, offers[st.0 - 1].offer_price_revealed);
    let abi = if bi2 >= bids.len() { bids.len() - 1 } else { bi2 };
    let nbpi = bids_group_fwd(bids, abi, bids[abi].bid_price_revealed);
    (offers[npi].offer_price_revealed + bids[nbpi].bid_price_revealed) / 2
}

/// The maximum assignable volume at price `p`.
pub open spec fn max_assignable_spec(bids: Seq<Bid>, offers: Seq<Offer>, p: u64) -> int {
    min_int(sum_bids_at_or_above(bids, p), sum_offers_at_or_below(offers, p))
}

/// Phase A keeps the pre-clearance offer price at or below the best bid, and
/// the first counted bid priced at or above the pre-clearance offer price.
proof fn lemma_phase_a_props(bids: Seq<Bid>, offers: Seq<Offer>, oi: int, bi: int)
    requires
        bids_price_sorted(bids),
        offers_price_sorted(offers),
        bids.len() >= 1,
        1 <= oi <= offers.len(),
        0 <= bi < bids.len(),
        offers[oi - 1].offer_price_revealed <= bids[bids.len() - 1].bid_price_revealed,
        bids[bi].bid_price_revealed >= offers[oi - 1].offer_price_revealed,
    ensures
        1 <= phase_a(bids, offers, oi, bi).0 <= offers.len(),
        0 <= phase_a(bids, offers, oi, bi).1 < bids.len(),
        offers[phase_a(bids, offers, oi, bi).0 - 1].offer_price_revealed
            <= bids[bids.len() - 1].bid_price_revealed,
        bids[phase_a(bids, offers, oi, bi).1].bid_price_revealed
            >= offers[phase_a(bids, offers, oi, bi).0 - 1].offer_price_revealed,
    decreases offers.len() - oi,
{
    if 0 <= oi < offers.len() && 0 <= bi < bids.len() {
        let cand = offers[oi].offer_price_revealed;
        let noi = offers_group_end(offers, oi, cand);
        let nbi = bids_first_geq(bids, bi, cand);
        lemma_offers_group_end_bounds(offers, oi, cand);
        lemma_bids_first_geq_bounds(bids, bi, cand);
        assert(offers_group_end(offers, oi, cand) == offers_group_end(offers, oi + 1, cand));
        lemma_offers_group_end_bounds(offers, oi + 1, cand);
        if min_int(sum_bid_amounts_from(bids, nbi), sum_offer_amounts_to(offers, noi))
            > min_int(sum_bid_amounts_from(bids, bi), sum_offer_amounts_to(offers, oi)) {
            lemma_sum_bid_amounts_from_bound(bids, bi);
            lemma_sum_offer_amounts_to_bound(offers, oi);
            assert(sum_bid_amounts_from(bids, nbi) > 0);
            assert(sum_bid_amounts_from(bids, bids.len() as int) == 0);
            assert(nbi < bids.len());
            assert(offers[noi - 1].offer_price_revealed == cand);
            assert(bids[nbi].bid_price_revealed >= cand);
            assert(cand <= bids[bids.len() - 1].bid_price_revealed);
            lemma_phase_a_props(bids, offers, noi, nbi);
        }
    }
}

/// Phase B keeps every remaining bid priced at or above the pre-clearance
/// offer price.
proof fn lemma_phase_b_props(bids: Seq<Bid>, offers: Seq<Offer>, oi: int, bi: int)
    requires
        bids_price_sorted(bids),
        1 <= oi <= offers.len(),
        0 <= bi <= bids.len(),
        bi < bids.len() ==> bids[bi].bid_price_revealed
            >= offers[oi - 1].offer_price_revealed,
    ensures
        bi <= phase_b(bids, offers, oi, bi) <= bids.len(),
        phase_b(bids, offers, oi, bi) < bids.len()
            ==> bids[phase_b(bids, offers, oi, bi)].bid_price_revealed
                >= offers[oi - 1].offer_price_revealed,
    decreases bids.len() - bi,
{
    if 0 <= bi < bids.len() && (oi >= offers.len()
        || bids[bi].bid_price_revealed < offers[oi].offer_price_revealed) {
        let bp = bids[bi].bid_price_revealed;
        let nbi = bids_group_end(bids, bi, bp);
        assert(bids_group_end(bids, bi, bp) == bids_group_end(bids, bi + 1, bp));
        lemma_bids_group_end_bounds(bids, bi + 1, bp);
        if sum_bid_amounts_from(bids, nbi) >= sum_offer_amounts_to(offers, oi) {
            assert(nbi < bids.len() ==> bids[nbi].bid_price_revealed
                >= bids[bi].bid_price_revealed);
            lemma_phase_b_props(bids, offers, oi, nbi);
        }
    }
}

/// Computes the clearing price and the maximum assignable volume of an
/// intersecting market: the price maximizes the clearing volume, then
/// minimizes surplus, and lies between the lowest offer price and the highest
/// bid price; the volume is `min(CSB, CSO)` at the clearing price.
pub fn compute_clearing_price(bids: &Vec<Bid>, offers: &Vec<Offer>) -> (r: (u64, u128))
    requires
        bids@.len() >= 1,
        offers@.len() >= 1,
        bids_price_sorted(bids@),
        offers_price_sorted(offers@),
        forall|i: int| 0 <= i < bids@.len()
            ==> (#[trigger] bids@[i]).bid_price_revealed <= MAX_BID_PRICE,
        forall|i: int| 0 <= i < offers@.len()
            ==> (#[trigger] offers@[i]).offer_price_revealed <= MAX_OFFER_PRICE,
        bids@[bids@.len() - 1].bid_price_revealed >= offers@[0].offer_price_revealed,
    ensures
        r.0 as int == clearing_price_spec(bids@, offers@),
        r.1 as int == max_assignable_spec(bids@, offers@, r.0),
        offers@[0].offer_price_revealed <= r.0,
        r.0 <= bids@[bids@.len() - 1].bid_price_revealed,
        r.0 <= MAX_BID_PRICE,
{
    let nb = bids.len();
    let no = offers.len();
    let p0 = offers[0].offer_price_revealed;
    let bi0 = first_bid_geq(bids, 0, p0);
    proof {
        lemma_bids_first_geq_bounds(bids@, 0, p0);
        assert(bi0 < nb) by {
            if bi0 as int == nb as int {
                assert(bids@[nb - 1].bid_price_revealed < p0);
            }
        }
        assert(bids@[bi0 as int].bid_price_revealed >= p0);
    }
    let mut oi: usize = 1;
    let mut bi: usize = bi0;
    let ghost target_a = phase_a(bids@, offers@, 1, bi0 as int);
    while oi < no && bi < nb
        invariant_except_break
            1 <= oi <= no,
            bi <= nb,
            nb == bids@.len(),
            no == offers@.len(),
            phase_a(bids@, offers@, oi as int, bi as int) == target_a,
        ensures
            oi as int == target_a.0,
            bi as int == target_a.1,
            1 <= oi <= no,
            bi <= nb,
            nb == bids@.len(),
            no == offers@.len(),
        decreases no - oi,
    {
        let cand = offers[oi].offer_price_revealed;
        let noi = offers_group_end_exec(offers, oi, cand);
        let nbi = first_bid_geq(bids, bi, cand);
        proof {
            lemma_offers_group_end_bounds(offers@, oi as int, cand);
            lemma_bids_first_geq_bounds(bids@, bi as int, cand);
            assert(offers_group_end(offers@, oi as int, cand)
                == offers_group_end(offers@, oi + 1, cand));
            lemma_offers_group_end_bounds(offers@, oi + 1, cand);
        }
        let csb_cur = suffix_bid_sum(bids, bi);
        let cso_cur = prefix_offer_sum(offers, oi);
        let csb_new = suffix_bid_sum(bids, nbi);
        let cso_new = prefix_offer_sum(offers, noi);
        let cur_min = if csb_cur <= cso_cur { csb_cur } else { cso_cur };
        let new_min = if csb_new <= cso_new { csb_new } else { cso_new };
        proof {
            assert(cur_min as int == min_int(
                sum_bid_amounts_from(bids@, bi as int),
                sum_offer_amounts_to(offers@, oi as int),
            ));
            assert(new_min as int == min_int(
                sum_bid_amounts_from(bids@, nbi as int),
                sum_offer_amounts_to(offers@, noi as int),
            ));
        }
        if new_min > cur_min {
            proof {
                assert(phase_a(bids@, offers@, oi as int, bi as int)
                    == phase_a(bids@, offers@, noi as int, nbi as int));
            }
            oi = noi;
            bi = nbi;
        } else {
            proof {
                assert(phase_a(bids@, offers@, oi as int, bi as int)
                    == (oi as int, bi as int));
            }
            break;
        }
    }
    proof {
        lemma_phase_a_props(bids@, offers@, 1, bi0 as int);
        assert(bi < nb);
    }
    let ghost target_b = phase_b(bids@, offers@, oi as int, bi as int);
    while bi < nb
        invariant_except_break
            bi <= nb,
            1 <= oi <= no,
            nb == bids@.len(),
            no == offers@.len(),
            phase_b(bids@, offers@, oi as int, bi as int) == target_b,
        ensures
            bi as int == target_b,
            bi <= nb,
            1 <= oi <= no,
            nb == bids@.len(),
            no == offers@.len(),
        decreases nb - bi,
    {
        if oi < no && bids[bi].bid_price_revealed >= offers[oi].offer_price_revealed {
            proof {
                assert(phase_b(bids@, offers@, oi as int, bi as int) == bi as int);
            }
            break;
        }
        let bp = bids[bi].bid_price_revealed;
        let nbi = bids_group_end_exec(bids, bi, bp);
        proof {
            assert(bids_group_end(bids@, bi as int, bp) == bids_group_end(bids@, bi + 1, bp));
            lemma_bids_group_end_bounds(bids@, bi + 1, bp);
        }
        let csb_new = suffix_bid_sum(bids, nbi);
        let cso_cur = prefix_offer_sum(offers, oi);
        if csb_new >= cso_cur {
            proof {
                assert(phase_b(bids@, offers@, oi as int, bi as int)
                    == phase_b(bids@, offers@, oi as int, nbi as int));
            }
            bi = nbi;
        } else {
            proof {
                assert(phase_b(bids@, offers@, oi as int, bi as int) == bi as int);
            }
            break;
        }
    }
    proof {
        lemma_phase_b_props(bids@, offers@, oi as int, target_a.1);
    }
    let last_oi = oi - 1;
    let npi = offers_group_back_exec(offers, last_oi, offers[last_oi].offer_price_revealed);
    let abi = if bi >= nb { nb - 1 } else { bi };
    let nbpi = bids_group_fwd_exec(bids, abi, bids[abi].bid_price_revealed);
    let x = offers[npi].offer_price_revealed;
    let y = bids[nbpi].bid_price_revealed;
    let clearing = (x + y) / 2;
    proof {
        assert(offers@[0].offer_price_revealed <= x);
        assert(x <= offers@[last_oi as int].offer_price_revealed);
        assert(offers@[0].offer_price_revealed <= bids@[abi as int].bid_price_revealed);
        assert(offers@[0].offer_price_revealed <= y);
        assert(y <= bids@[nb - 1].bid_price_revealed);
        assert(x <= bids@[nb - 1].bid_price_revealed);
        lemma_average_bracket(
            x as int,
            y as int,
            offers@[0].offer_price_revealed as int,
            bids@[nb - 1].bid_price_revealed as int,
        );
        assert(clearing as int == clearing_price_spec(bids@, offers@));
    }
    let csb_f = sum_bids_at_or_above_exec(bids, clearing);
    let cso_f = sum_offers_at_or_below_exec(offers, clearing);
    let max_assignable = if csb_f <= cso_f { csb_f } else { cso_f };
    (clearing, max_assignable)
}

/// The truncated average of two values within a range stays within it.
proof fn lemma_average_bracket(x: int, y: int, lo: int, hi: int)
    requires
        lo <= x <= hi,
        lo <= y <= hi,
        0 <= lo,
    ensures
        lo <= (x + y) / 2 <= hi,
{
    assert((2 * lo) / 2 == lo) by {
        vstd::arithmetic::div_mod::lemma_div_multiples_vanish(lo, 2);
    }
    assert((2 * hi) / 2 == hi) by {
        vstd::arithmetic::div_mod::lemma_div_multiples_vanish(hi, 2);
    }
    lemma_div_is_ordered(2 * lo, x + y, 2);
    lemma_div_is_ordered(x + y, 2 * hi, 2);
}

/// The first index of the bid price group containing `i`.
pub open spec fn bids_group_start(s: Seq<Bid>, i: int) -> int
    decreases i,
{
    if i <= 0 {
        0
    } else if s[i - 1].bid_price_revealed == s[i].bid_price_revealed {
        bids_group_start(s, i - 1)
    } else {
        i
    }
}

pub proof fn lemma_bids_group_start_bounds(s: Seq<Bid>, i: int)
    requires
        0 <= i < s.len(),
    ensures
        0 <= bids_group_start(s, i) <= i,
        forall|j: int| bids_group_start(s, i) <= j <= i
            ==> (#[trigger] s[j]).bid_price_revealed == s[i].bid_price_revealed,
        bids_group_start(s, i) > 0 ==> s[bids_group_start(s, i) - 1].bid_price_revealed
            != s[i].bid_price_revealed,
    decreases i,
{
    if i > 0 && s[i - 1].bid_price_revealed == s[i].bid_price_revealed {
        lemma_bids_group_start_bounds(s, i - 1);
    }
}

/// The last index of the offer price group containing `i`.
pub open spec fn offers_group_last(s: Seq<Offer>, i: int) -> int
    decreases s.len() - i,
{
    if i >= s.len() - 1 {
        s.len() - 1
    } else if s[i + 1].offer_price_revealed == s[i].offer_price_revealed {
        offers_group_last(s, i + 1)
    } else {
        i
    }
}

pub proof fn lemma_offers_group_last_bounds(s: Seq<Offer>, i: int)
    requires
        0 <= i < s.len(),
    ensures
        i <= offers_group_last(s, i) <= s.len() - 1,
        forall|j: int| i <= j <= offers_group_last(s, i)
            ==> (#[trigger] s[j]).offer_price_revealed == s[i].offer_price_revealed,
        offers_group_last(s, i) < s.len() - 1
            ==> s[offers_group_last(s, i) + 1].offer_price_revealed
                != s[i].offer_price_revealed,
    decreases s.len() - i,
{
    if i < s.len() - 1 && s[i + 1].offer_price_revealed == s[i].offer_price_revealed {
        lemma_offers_group_last_bounds(s, i + 1);
    }
}

/// Finds the first index of the bid price group containing `start_index` and
/// the total amount of the group's bids from that index up to `start_index`.
pub fn find_first_index_for_price(price: u64, bids: &Vec<Bid>, start_index: usize) -> (r: (
    usize,
    u128,
))
    requires
        start_index < bids@.len(),
        bids@[start_index as int].bid_price_revealed == price,
    ensures
        r.0 as int == bids_group_start(bids@, start_index as int),
        r.1 as int == sum_bid_amounts_from(bids@, r.0 as int)
            - sum_bid_amounts_from(bids@, start_index + 1),
        r.0 <= start_index,
{
    let n = bids.len();
    proof {
        lemma_bids_group_start_bounds(bids@, start_index as int);
    }
    let mut i: usize = start_index;
    while i > 0 && bids[i - 1].bid_price_revealed == bids[i].bid_price_revealed
        invariant
            i <= start_index < bids@.len(),
            bids_group_start(bids@, i as int) == bids_group_start(bids@, start_index as int),
        decreases i,
    {
        i -= 1;
    }
    let lo = i;
    let mut total: u128 = 0;
    let mut j: usize = start_index + 1;
    while j > lo
        invariant
            lo <= j <= start_index + 1,
            start_index < n,
            n == bids@.len(),
            total as int == sum_bid_amounts_from(bids@, j as int)
                - sum_bid_amounts_from(bids@, start_index + 1),
        decreases j,
    {
        j -= 1;
        proof {
            lemma_sum_bid_amounts_from_bound(bids@, j as int);
            lemma_sum_bid_amounts_from_bound(bids@, start_index + 1);
            lemma_amount_sum_fits(n as int);
            vstd::arithmetic::mul::lemma_mul_inequality(
                bids@.len() - j,
                bids@.len() as int,
                0xffffffffffffffff,
            );
        }
        total = total + (bids[j].amount as u128);
    }
    (lo, total)
}

/// Finds the last index of the offer price group containing `start_index` and
/// the total amount of the group's offers from `start_index` up to that index.
pub fn find_last_index_for_price(price: u64, offers: &Vec<Offer>, start_index: usize) -> (r: (
    usize,
    u128,
))
    requires
        start_index < offers@.len(),
        offers@[start_index as int].offer_price_revealed == price,
    ensures
        r.0 as int == offers_group_last(offers@, start_index as int),
        r.1 as int == sum_offer_amounts_to(offers@, r.0 + 1)
            - sum_offer_amounts_to(offers@, start_index as int),
        start_index <= r.0 < offers@.len(),
{
    let n = offers.len();
    proof {
        lemma_offers_group_last_bounds(offers@, start_index as int);
    }
    let mut i: usize = start_index;
    while i < offers.len() - 1
        && offers[i + 1].offer_price_revealed == offers[i].offer_price_revealed
        invariant
            start_index <= i < offers@.len(),
            offers_group_last(offers@, i as int)
                == offers_group_last(offers@, start_index as int),
        decreases offers@.len() - i,
    {
        i += 1;
    }
    let hi = i;
    let mut total: u128 = 0;
    let mut j: usize = start_index;
    while j <= hi
        invariant
            start_index <= j <= hi + 1,
            hi < n,
            n == offers@.len(),
            total as int == sum_offer_amounts_to(offers@, j as int)
                - sum_offer_amounts_to(offers@, start_index as int),
        decreases hi + 1 - j,
    {
        proof {
            lemma_sum_offer_amounts_to_bound(offers@, j as int);
            lemma_sum_offer_amounts_to_bound(offers@, start_index as int);
            lemma_amount_sum_fits(n as int);
            vstd::arithmetic::mul::lemma_mul_inequality(
                j as int,
                offers@.len() as int,
                0xffffffffffffffff,
            );
        }
        total = total + (offers[j].amount as u128);
        j += 1;
    }
    (hi, total)
}

/// The bidder allocations after an assignment of `amount` to bid `b`: the
/// purchase amount is disbursed and the repurchase obligation incurred, with
/// the bid's entire locked collateral booked against the obligation.
pub open spec fn bid_assign_credit(
    m: Seq<(Address, BidderAllocation)>,
    b: Bid,
    amount: u64,
    clearing: u64,
    day_count: u64,
) -> Seq<(Address, BidderAllocation)> {
    let al = bidder_lookup(m, b.bidder);
    bidder_upsert(
        m,
        b.bidder,
        BidderAllocation {
            purchase_amount: sat_add(al.purchase_amount, amount as u128),
            repurchase_obligation: RepurchaseObligation {
                repurchase_amount: sat_add(
                    al.repurchase_obligation.repurchase_amount,
                    repurchase_price_spec(amount, clearing, day_count) as u128,
                ),
                collateral_amount: sat_add(
                    al.repurchase_obligation.collateral_amount,
                    b.collateral_amount as u128,
                ),
            },
            ..al
        },
    )
}

/// The bidder allocations after unlocking bid `b`: the locked collateral is
/// refunded.
pub open spec fn bid_unlock_credit(
    m: Seq<(Address, BidderAllocation)>,
    b: Bid,
) -> Seq<(Address, BidderAllocation)> {
    let al = bidder_lookup(m, b.bidder);
    bidder_upsert(
        m,
        b.bidder,
        BidderAllocation {
            collateral_amount: sat_add(al.collateral_amount, b.collateral_amount as u128),
            ..al
        },
    )
}

/// Fully assigns the bid price group `[gs, hi)`, most competitive first.
pub open spec fn assign_bid_group_full(
    m: Seq<(Address, BidderAllocation)>,
    bids: Seq<Bid>,
    gs: int,
    hi: int,
    clearing: u64,
    day_count: u64,
) -> Seq<(Address, BidderAllocation)>
    decreases hi - gs,
{
    if hi <= gs {
        m
    } else {
        assign_bid_group_full(
            bid_assign_credit(m, bids[hi - 1], bids[hi - 1].amount, clearing, day_count),
            bids,
            gs,
            hi - 1,
            clearing,
            day_count,
        )
    }
}

/// Partially assigns the bid price group `[gs, hi)`, most competitive first:
/// each order but the last receives its proportional share of what remains of
/// the group's budget; the last receives exactly the rest.
pub open spec fn assign_bid_group_partial(
    m: Seq<(Address, BidderAllocation)>,
    bids: Seq<Bid>,
    gs: int,
    hi: int,
    remaining: int,
    g_rem: int,
    clearing: u64,
    day_count: u64,
) -> Seq<(Address, BidderAllocation)>
    decreases hi - gs,
{
    if hi <= gs {
        m
    } else if hi - 1 == gs {
        bid_assign_credit(m, bids[gs], remaining as u64, clearing, day_count)
    } else {
        let b = bids[hi - 1];
        let a: int = if g_rem == 0 {
            0
        } else {
            (b.amount * remaining) / g_rem
        };
        assign_bid_group_partial(
            bid_assign_credit(m, b, a as u64, clearing, day_count),
            bids,
            gs,
            hi - 1,
            if remaining >= a { remaining - a } else { 0 },
            if g_rem >= b.amount { g_rem - b.amount } else { 0 },
            clearing,
            day_count,
        )
    }
}

/// The bidder allocations after assigning the sorted validated bids, most
/// competitive (highest price, last index) first, in price groups.
pub open spec fn assign_bids_spec(
    m: Seq<(Address, BidderAllocation)>,
    bids: Seq<Bid>,
    hi: int,
    assigned: int,
    max: int,
    clearing: u64,
    day_count: u64,
) -> Seq<(Address, BidderAllocation)>
    decreases hi,
    via assign_bids_spec_decreases
{
    if hi <= 0 || hi > bids.len() {
        m
    } else {
        let b = bids[hi - 1];
        let gs = bids_group_start(bids, hi - 1);
        let g = sum_bid_amounts_from(bids, gs) - sum_bid_amounts_from(bids, hi);
        if b.bid_price_revealed >= clearing && assigned < max && g <= max - assigned {
            assign_bids_spec(
                assign_bid_group_full(m, bids, gs, hi, clearing, day_count),
                bids,
                gs,
                assigned + g,
                max,
                clearing,
                day_count,
            )
        } else if b.bid_price_revealed >= clearing && assigned < max {
            assign_bids_spec(
                assign_bid_group_partial(m, bids, gs, hi, max - assigned, g, clearing, day_count),
                bids,
                gs,
                max,
                max,
                clearing,
                day_count,
            )
        } else {
            assign_bids_spec(bid_unlock_credit(m, b), bids, hi - 1, assigned, max, clearing,
                day_count)
        }
    }
}

#[via_fn]
proof fn assign_bids_spec_decreases(
    m: Seq<(Address, BidderAllocation)>,
    bids: Seq<Bid>,
    hi: int,
    assigned: int,
    max: int,
    clearing: u64,
    day_count: u64,
) {
    if 0 < hi <= bids.len() {
        lemma_bids_group_start_bounds(bids, hi - 1);
    }
}

/// The total amount assigned by the bid assignment pass.
pub open spec fn assigned_total_bids(
    bids: Seq<Bid>,
    hi: int,
    assigned: int,
    max: int,
    clearing: u64,
) -> int
    decreases hi,
    via assigned_total_bids_decreases
{
    if hi <= 0 || hi > bids.len() {
        assigned
    } else {
        let b = bids[hi - 1];
        let gs = bids_group_start(bids, hi - 1);
        let g = sum_bid_amounts_from(bids, gs) - sum_bid_amounts_from(bids, hi);
        if b.bid_price_revealed >= clearing && assigned < max && g <= max - assigned {
            assigned_total_bids(bids, gs, assigned + g, max, clearing)
        } else if b.bid_price_revealed >= clearing && assigned < max {
            assigned_total_bids(bids, gs, max, max, clearing)
        } else {
            assigned_total_bids(bids, hi - 1, assigned, max, clearing)
        }
    }
}

#[via_fn]
proof fn assigned_total_bids_decreases(
    bids: Seq<Bid>,
    hi: int,
    assigned: int,
    max: int,
    clearing: u64,
) {
    if 0 < hi <= bids.len() {
        lemma_bids_group_start_bounds(bids, hi - 1);
    }
}

/// The proportional share never exceeds the remaining budget, and taking it
/// leaves the budget within the rest of the group.
proof fn lemma_partial_share(amt: int, rem: int, g: int)
    requires
        0 <= amt <= g,
        0 <= rem <= g,
        g > 0,
    ensures
        (amt * rem) / g <= rem,
        (amt * rem) / g <= amt,
        rem - (amt * rem) / g <= g - amt,
        (amt * rem) / g >= 0,
{
    let a = (amt * rem) / g;
    assert(amt * rem <= g * rem) by (nonlinear_arith)
        requires
            0 <= amt <= g,
            0 <= rem,
    ;
    assert(amt * rem <= amt * g) by (nonlinear_arith)
        requires
            0 <= rem <= g,
            0 <= amt,
    ;
    lemma_div_is_ordered(amt * rem, g * rem, g);
    assert((g * rem) / g == rem) by {
        vstd::arithmetic::div_mod::lemma_div_multiples_vanish(rem, g);
    }
    lemma_div_is_ordered(amt * rem, amt * g, g);
    assert((amt * g) / g == amt) by {
        vstd::arithmetic::div_mod::lemma_div_by_multiple(amt, g);
    }
    assert(amt * rem >= 0) by (nonlinear_arith)
        requires
            amt >= 0,
            rem >= 0,
    ;
    vstd::arithmetic::div_mod::lemma_div_pos_is_pos(amt * rem, g);
    assert(amt * rem >= g * (amt + rem - g)) by (nonlinear_arith)
        requires
            amt <= g,
            rem <= g,
    ;
    if amt + rem - g >= 0 {
        assert((g * (amt + rem - g)) / g == amt + rem - g) by {
            vstd::arithmetic::div_mod::lemma_div_multiples_vanish(amt + rem - g, g);
        }
        lemma_div_is_ordered(g * (amt + rem - g), amt * rem, g);
    }
}

/// Assigns the sorted validated bids at the clearing price, most competitive
/// first: full price groups within the budget are fully assigned, the
/// marginal group is assigned proportionally, and every other bid is
/// unlocked.
pub fn assign_bids(
    bids: &Vec<Bid>,
    max_assignable: u128,
    clearing_price: u64,
    day_count: u64,
    allocations: &mut BidderAllocations,
)
    requires
        bids_price_sorted(bids@),
        clearing_price <= MAX_BID_PRICE,
        bidder_map_wf(old(allocations)@),
    ensures
        final(allocations)@ == assign_bids_spec(
            old(allocations)@,
            bids@,
            bids@.len() as int,
            0,
            max_assignable as int,
            clearing_price,
            day_count,
        ),
        bidder_map_wf(final(allocations)@),
{
    let n = bids.len();
    let mut hi: usize = n;
    let mut assigned: u128 = 0;
    let ghost target = assign_bids_spec(
        old(allocations)@,
        bids@,
        n as int,
        0,
        max_assignable as int,
        clearing_price,
        day_count,
    );
    while hi > 0
        invariant
            hi <= n,
            n == bids@.len(),
            bids_price_sorted(bids@),
            clearing_price <= MAX_BID_PRICE,
            assigned <= max_assignable,
            bidder_map_wf(allocations@),
            assign_bids_spec(
                allocations@,
                bids@,
                hi as int,
                assigned as int,
                max_assignable as int,
                clearing_price,
                day_count,
            ) == target,
        decreases hi,
    {
        let i = hi - 1;
        let b = bids[i];
        let (gs, g) = find_first_index_for_price(b.bid_price_revealed, bids, i);
        proof {
            lemma_bids_group_start_bounds(bids@, i as int);
        }
        if b.bid_price_revealed >= clearing_price && assigned < max_assignable
            && g <= max_assignable - assigned {
            let ghost inner_target = assign_bid_group_full(
                allocations@,
                bids@,
                gs as int,
                hi as int,
                clearing_price,
                day_count,
            );
            let mut idx: usize = hi;
            while idx > gs
                invariant
                    gs <= idx <= hi,
                    hi <= n,
                    n == bids@.len(),
                    clearing_price <= MAX_BID_PRICE,
                    bidder_map_wf(allocations@),
                    assign_bid_group_full(
                        allocations@,
                        bids@,
                        gs as int,
                        idx as int,
                        clearing_price,
                        day_count,
                    ) == inner_target,
                decreases idx,
            {
                idx -= 1;
                let bb = bids[idx];
                let rp = calculate_repurchase_price(bb.amount, clearing_price, day_count);
                proof {
                    lemma_bidder_upsert_wf(
                        allocations@,
                        bb.bidder,
                        (BidderAllocation {
                            purchase_amount: sat_add(
                                bidder_lookup(allocations@, bb.bidder).purchase_amount,
                                bb.amount as u128,
                            ),
                            repurchase_obligation: RepurchaseObligation {
                                repurchase_amount: sat_add(
                                    bidder_lookup(allocations@, bb.bidder)
                                        .repurchase_obligation.repurchase_amount,
                                    rp,
                                ),
                                collateral_amount: sat_add(
                                    bidder_lookup(allocations@, bb.bidder)
                                        .repurchase_obligation.collateral_amount,
                                    bb.collateral_amount as u128,
                                ),
                            },
                            ..bidder_lookup(allocations@, bb.bidder)
                        }),
                    );
                }
                allocations.add_assignment(
                    &bb.bidder,
                    bb.amount as u128,
                    rp,
                    bb.collateral_amount as u128,
                );
            }
            proof {
                assert(assign_bids_spec(
                    allocations@,
                    bids@,
                    gs as int,
                    assigned as int + g as int,
                    max_assignable as int,
                    clearing_price,
                    day_count,
                ) == target);
            }
            assigned = assigned + g;
            hi = gs;
        } else if b.bid_price_revealed >= clearing_price && assigned < max_assignable {
            let mut remaining: u128 = max_assignable - assigned;
            let mut g_rem: u128 = g;
            proof {
                lemma_sum_bid_amounts_from_bound(bids@, gs as int);
                lemma_sum_bid_amounts_from_bound(bids@, hi as int);
            }
            let ghost inner_target = assign_bid_group_partial(
                allocations@,
                bids@,
                gs as int,
                hi as int,
                remaining as int,
                g_rem as int,
                clearing_price,
                day_count,
            );
            let mut idx: usize = hi;
            while idx > gs
                invariant
                    gs <= idx <= hi,
                    hi <= n,
                    n == bids@.len(),
                    clearing_price <= MAX_BID_PRICE,
                    bidder_map_wf(allocations@),
                    remaining <= g_rem,
                    g_rem as int == sum_bid_amounts_from(bids@, gs as int)
                        - sum_bid_amounts_from(bids@, idx as int),
                    assign_bid_group_partial(
                        allocations@,
                        bids@,
                        gs as int,
                        idx as int,
                        remaining as int,
                        g_rem as int,
                        clearing_price,
                        day_count,
                    ) == inner_target,
                decreases idx,
            {
                idx -= 1;
                let bb = bids[idx];
                proof {
                    lemma_sum_bid_amounts_from_bound(bids@, gs as int);
                    lemma_sum_bid_amounts_from_bound(bids@, idx + 1);
                    assert(sum_bid_amounts_from(bids@, idx as int)
                        == bb.amount + sum_bid_amounts_from(bids@, idx + 1));
                    lemma_sum_bid_amounts_from_monotone(bids@, gs as int, idx as int);
                    assert(bb.amount as int <= g_rem as int);
                }
                let a: u64;
                if idx == gs {
                    proof {
                        assert(g_rem as int == bb.amount as int);
                    }
                    a = remaining as u64;
                } else if g_rem == 0 {
                    a = 0;
                } else {
                    proof {
                        lemma_partial_share(bb.amount as int, remaining as int, g_rem as int);
                    }
                    a = mul_div(bb.amount, remaining, g_rem);
                }
                let rp = calculate_repurchase_price(a, clearing_price, day_count);
                proof {
                    if idx > gs && g_rem > 0 {
                        lemma_partial_share(bb.amount as int, remaining as int, g_rem as int);
                    }
                    lemma_bidder_upsert_wf(
                        allocations@,
                        bb.bidder,
                        (BidderAllocation {
                            purchase_amount: sat_add(
                                bidder_lookup(allocations@, bb.bidder).purchase_amount,
                                a as u128,
                            ),
                            repurchase_obligation: RepurchaseObligation {
                                repurchase_amount: sat_add(
                                    bidder_lookup(allocations@, bb.bidder)
                                        .repurchase_obligation.repurchase_amount,
                                    rp,
                                ),
                                collateral_amount: sat_add(
                                    bidder_lookup(allocations@, bb.bidder)
                                        .repurchase_obligation.collateral_amount,
                                    bb.collateral_amount as u128,
                                ),
                            },
                            ..bidder_lookup(allocations@, bb.bidder)
                        }),
                    );
                }
                allocations.add_assignment(
                    &bb.bidder,
                    a as u128,
                    rp,
                    bb.collateral_amount as u128,
                );
                remaining = remaining - (a as u128);
                g_rem = g_rem - (bb.amount as u128);
            }
            proof {
                assert(assign_bids_spec(
                    allocations@,
                    bids@,
                    gs as int,
                    max_assignable as int,
                    max_assignable as int,
                    clearing_price,
                    day_count,
                ) == target);
            }
            assigned = max_assignable;
            hi = gs;
        } else {
            proof {
                lemma_bidder_upsert_wf(
                    allocations@,
                    b.bidder,
                    (BidderAllocation {
                        collateral_amount: sat_add(
                            bidder_lookup(allocations@, b.bidder).collateral_amount,
                            b.collateral_amount as u128,
                        ),
                        ..bidder_lookup(allocations@, b.bidder)
                    }),
                );
            }
            allocations.add_collateral(&b.bidder, b.collateral_amount as u128);
            hi = i;
        }
    }
}

/// Prefix sums grow as the end index grows.
pub proof fn lemma_sum_offer_amounts_to_monotone(s: Seq<Offer>, i: int, j: int)
    requires
        0 <= i <= j <= s.len(),
    ensures
        sum_offer_amounts_to(s, i) <= sum_offer_amounts_to(s, j),
    decreases j - i,
{
    if i < j {
        lemma_sum_offer_amounts_to_monotone(s, i, j - 1);
        lemma_sum_offer_amounts_to_bound(s, j);
    }
}

/// The offeror allocations after a full assignment of offer `o`: repo tokens
/// for the repurchase price of its whole amount.
pub open spec fn offer_full_credit(
    m: Seq<(Address, OfferorAllocation)>,
    o: Offer,
    clearing: u64,
    day_count: u64,
) -> Seq<(Address, OfferorAllocation)> {
    let al = offeror_lookup(m, o.offeror);
    offeror_upsert(
        m,
        o.offeror,
        OfferorAllocation {
            repo_amount: sat_add(
                al.repo_amount,
                repurchase_price_spec(o.amount, clearing, day_count) as u128,
            ),
            ..al
        },
    )
}

/// The offeror allocations after a partial assignment of `amount` of offer
/// `o`: repo tokens for the assigned part and a purchase token refund for the
/// rest.
pub open spec fn offer_partial_credit(
    m: Seq<(Address, OfferorAllocation)>,
    o: Offer,
    amount: u64,
    clearing: u64,
    day_count: u64,
) -> Seq<(Address, OfferorAllocation)> {
    let al = offeror_lookup(m, o.offeror);
    offeror_upsert(
        m,
        o.offeror,
        OfferorAllocation {
            repo_amount: sat_add(
                al.repo_amount,
                repurchase_price_spec(amount, clearing, day_count) as u128,
            ),
            purchase_amount: sat_add(al.purchase_amount, (o.amount - amount) as u128),
        },
    )
}

/// The offeror allocations after unlocking offer `o`: the locked purchase
/// tokens are refunded.
pub open spec fn offer_unlock_credit(
    m: Seq<(Address, OfferorAllocation)>,
    o: Offer,
) -> Seq<(Address, OfferorAllocation)> {
    let al = offeror_lookup(m, o.offeror);
    offeror_upsert(
        m,
        o.offeror,
        OfferorAllocation { purchase_amount: sat_add(al.purchase_amount, o.amount as u128), ..al },
    )
}

/// Fully assigns the offer price group `[lo, ge)`, most competitive first.
pub open spec fn assign_offer_group_full(
    m: Seq<(Address, OfferorAllocation)>,
    offers: Seq<Offer>,
    lo: int,
    ge: int,
    clearing: u64,
    day_count: u64,
) -> Seq<(Address, OfferorAllocation)>
    decreases ge - lo,
{
    if lo >= ge {
        m
    } else {
        assign_offer_group_full(
            offer_full_credit(m, offers[lo], clearing, day_count),
            offers,
            lo + 1,
            ge,
            clearing,
            day_count,
        )
    }
}

/// Partially assigns the offer price group `[lo, ge)`, most competitive
/// first: each order but the last receives its proportional share of what
/// remains of the group's budget; the last receives exactly the rest.
pub open spec fn assign_offer_group_partial(
    m: Seq<(Address, OfferorAllocation)>,
    offers: Seq<Offer>,
    lo: int,
    ge: int,
    remaining: int,
    g_rem: int,
    clearing: u64,
    day_count: u64,
) -> Seq<(Address, OfferorAllocation)>
    decreases ge - lo,
{
    if lo >= ge {
        m
    } else if lo == ge - 1 {
        offer_partial_credit(m, offers[lo], remaining as u64, clearing, day_count)
    } else {
        let o = offers[lo];
        let a: int = if g_rem == 0 {
            0
        } else {
            (o.amount * remaining) / g_rem
        };
        assign_offer_group_partial(
            offer_partial_credit(m, o, a as u64, clearing, day_count),
            offers,
            lo + 1,
            ge,
            if remaining >= a { remaining - a } else { 0 },
            if g_rem >= o.amount { g_rem - o.amount } else { 0 },
            clearing,
            day_count,
        )
    }
}

/// The offeror allocations after assigning the sorted validated offers, most
/// competitive (lowest price, first index) first, in price groups.
pub open spec fn assign_offers_spec(
    m: Seq<(Address, OfferorAllocation)>,
    offers: Seq<Offer>,
    lo: int,
    assigned: int,
    max: int,
    clearing: u64,
    day_count: u64,
) -> Seq<(Address, OfferorAllocation)>
    decreases offers.len() - lo,
    via assign_offers_spec_decreases
{
    if lo < 0 || lo >= offers.len() {
        m
    } else {
        let o = offers[lo];
        let ge = offers_group_last(offers, lo) + 1;
        let g = sum_offer_amounts_to(offers, ge) - sum_offer_amounts_to(offers, lo);
        if o.offer_price_revealed <= clearing && assigned < max && g <= max - assigned {
            assign_offers_spec(
                assign_offer_group_full(m, offers, lo, ge, clearing, day_count),
                offers,
                ge,
                assigned + g,
                max,
                clearing,
                day_count,
            )
        } else if o.offer_price_revealed <= clearing && assigned < max {
            assign_offers_spec(
                assign_offer_group_partial(m, offers, lo, ge, max - assigned, g, clearing,
                    day_count),
                offers,
                ge,
                max,
                max,
                clearing,
                day_count,
            )
        } else {
            assign_offers_spec(offer_unlock_credit(m, o), offers, lo + 1, assigned, max, clearing,
                day_count)
        }
    }
}

#[via_fn]
proof fn assign_offers_spec_decreases(
    m: Seq<(Address, OfferorAllocation)>,
    offers: Seq<Offer>,
    lo: int,
    assigned: int,
    max: int,
    clearing: u64,
    day_count: u64,
) {
    if 0 <= lo < offers.len() {
        lemma_offers_group_last_bounds(offers, lo);
    }
}

/// The total amount assigned by the offer assignment pass.
pub open spec fn assigned_total_offers(
    offers: Seq<Offer>,
    lo: int,
    assigned: int,
    max: int,
    clearing: u64,
) -> int
    decreases offers.len() - lo,
    via assigned_total_offers_decreases
{
    if lo < 0 || lo >= offers.len() {
        assigned
    } else {
        let o = offers[lo];
        let ge = offers_group_last(offers, lo) + 1;
        let g = sum_offer_amounts_to(offers, ge) - sum_offer_amounts_to(offers, lo);
        if o.offer_price_revealed <= clearing && assigned < max && g <= max - assigned {
            assigned_total_offers(offers, ge, assigned + g, max, clearing)
        } else if o.offer_price_revealed <= clearing && assigned < max {
            assigned_total_offers(offers, ge, max, max, clearing)
        } else {
            assigned_total_offers(offers, lo + 1, assigned, max, clearing)
        }
    }
}

#[via_fn]
proof fn assigned_total_offers_decreases(
    offers: Seq<Offer>,
    lo: int,
    assigned: int,
    max: int,
    clearing: u64,
) {
    if 0 <= lo < offers.len() {
        lemma_offers_group_last_bounds(offers, lo);
    }
}

/// Assigns the sorted validated offers at the clearing price, most
/// competitive first: full price groups within the budget are fully
/// assigned, the marginal group is assigned proportionally with the
/// unassigned remainder refunded, and every other offer is unlocked.
pub fn assign_offers(
    offers: &Vec<Offer>,
    max_assignable: u128,
    clearing_price: u64,
    day_count: u64,
    allocations: &mut OfferorAllocations,
)
    requires
        offers_price_sorted(offers@),
        clearing_price <= MAX_BID_PRICE,
        offeror_map_wf(old(allocations)@),
    ensures
        final(allocations)@ == assign_offers_spec(
            old(allocations)@,
            offers@,
            0,
            0,
            max_assignable as int,
            clearing_price,
            day_count,
        ),
        offeror_map_wf(final(allocations)@),
{
    let n = offers.len();
    let mut lo: usize = 0;
    let mut assigned: u128 = 0;
    let ghost target = assign_offers_spec(
        old(allocations)@,
        offers@,
        0,
        0,
        max_assignable as int,
        clearing_price,
        day_count,
    );
    while lo < n
        invariant
            lo <= n,
            n == offers@.len(),
            offers_price_sorted(offers@),
            clearing_price <= MAX_BID_PRICE,
            assigned <= max_assignable,
            offeror_map_wf(allocations@),
            assign_offers_spec(
                allocations@,
                offers@,
                lo as int,
                assigned as int,
                max_assignable as int,
                clearing_price,
                day_count,
            ) == target,
        decreases n - lo,
    {
        let o = offers[lo];
        let (gl, g) = find_last_index_for_price(o.offer_price_revealed, offers, lo);
        let ge = gl + 1;
        proof {
            lemma_offers_group_last_bounds(offers@, lo as int);
        }
        if o.offer_price_revealed <= clearing_price && assigned < max_assignable
            && g <= max_assignable - assigned {
            let ghost inner_target = assign_offer_group_full(
                allocations@,
                offers@,
                lo as int,
                ge as int,
                clearing_price,
                day_count,
            );
            let mut idx: usize = lo;
            while idx < ge
                invariant
                    lo <= idx <= ge,
                    ge <= n,
                    n == offers@.len(),
                    clearing_price <= MAX_BID_PRICE,
                    offeror_map_wf(allocations@),
                    assign_offer_group_full(
                        allocations@,
                        offers@,
                        idx as int,
                        ge as int,
                        clearing_price,
                        day_count,
                    ) == inner_target,
                decreases ge - idx,
            {
                let oo = offers[idx];
                let rp = calculate_repurchase_price(oo.amount, clearing_price, day_count);
                proof {
                    lemma_offeror_upsert_wf(
                        allocations@,
                        oo.offeror,
                        (OfferorAllocation {
                            repo_amount: sat_add(
                                offeror_lookup(allocations@, oo.offeror).repo_amount,
                                rp,
                            ),
                            ..offeror_lookup(allocations@, oo.offeror)
                        }),
                    );
                }
                allocations.add_repo(&oo.offeror, rp);
                idx += 1;
            }
            proof {
                assert(assign_offers_spec(
                    allocations@,
                    offers@,
                    ge as int,
                    assigned as int + g as int,
                    max_assignable as int,
                    clearing_price,
                    day_count,
                ) == target);
            }
            assigned = assigned + g;
            lo = ge;
        } else if o.offer_price_revealed <= clearing_price && assigned < max_assignable {
            let mut remaining: u128 = max_assignable - assigned;
            let mut g_rem: u128 = g;
            let ghost inner_target = assign_offer_group_partial(
                allocations@,
                offers@,
                lo as int,
                ge as int,
                remaining as int,
                g_rem as int,
                clearing_price,
                day_count,
            );
            let mut idx: usize = lo;
            while idx < ge
                invariant
                    lo <= idx <= ge,
                    ge <= n,
                    n == offers@.len(),
                    clearing_price <= MAX_BID_PRICE,
                    offeror_map_wf(allocations@),
                    remaining <= g_rem,
                    g_rem as int == sum_offer_amounts_to(offers@, ge as int)
                        - sum_offer_amounts_to(offers@, idx as int),
                    assign_offer_group_partial(
                        allocations@,
                        offers@,
                        idx as int,
                        ge as int,
                        remaining as int,
                        g_rem as int,
                        clearing_price,
                        day_count,
                    ) == inner_target,
                decreases ge - idx,
            {
                let oo = offers[idx];
                proof {
                    lemma_sum_offer_amounts_to_bound(offers@, ge as int);
                    lemma_sum_offer_amounts_to_bound(offers@, idx + 1);
                    assert(sum_offer_amounts_to(offers@, idx + 1)
                        == sum_offer_amounts_to(offers@, idx as int) + oo.amount);
                    lemma_sum_offer_amounts_to_monotone(offers@, idx + 1, ge as int);
                    assert(oo.amount as int <= g_rem as int);
                }
                let a: u64;
                if idx == ge - 1 {
                    proof {
                        assert(g_rem as int == oo.amount as int);
                    }
                    a = remaining as u64;
                } else if g_rem == 0 {
                    a = 0;
                } else {
                    proof {
                        lemma_partial_share(oo.amount as int, remaining as int, g_rem as int);
                    }
                    a = mul_div(oo.amount, remaining, g_rem);
                }
                let rp = calculate_repurchase_price(a, clearing_price, day_count);
                proof {
                    if idx < ge - 1 && g_rem > 0 {
                        lemma_partial_share(oo.amount as int, remaining as int, g_rem as int);
                    }
                    assert(a <= oo.amount);
                    lemma_offeror_upsert_wf(
                        allocations@,
                        oo.offeror,
                        (OfferorAllocation {
                            repo_amount: sat_add(
                                offeror_lookup(allocations@, oo.offeror).repo_amount,
                                rp,
                            ),
                            purchase_amount: sat_add(
                                offeror_lookup(allocations@, oo.offeror).purchase_amount,
                                (oo.amount - a) as u128,
                            ),
                        }),
                    );
                }
                allocations.add_repo_and_purchase(&oo.offeror, rp, (oo.amount - a) as u128);
                remaining = remaining - (a as u128);
                g_rem = g_rem - (oo.amount as u128);
                idx += 1;
            }
            proof {
                assert(assign_offers_spec(
                    allocations@,
                    offers@,
                    ge as int,
                    max_assignable as int,
                    max_assignable as int,
                    clearing_price,
                    day_count,
                ) == target);
            }
            assigned = max_assignable;
            lo = ge;
        } else {
            proof {
                lemma_offeror_upsert_wf(
                    allocations@,
                    o.offeror,
                    (OfferorAllocation {
                        purchase_amount: sat_add(
                            offeror_lookup(allocations@, o.offeror).purchase_amount,
                            o.amount as u128,
                        ),
                        ..offeror_lookup(allocations@, o.offeror)
                    }),
                );
            }
            allocations.add_purchase(&o.offeror, o.amount as u128);
            lo = lo + 1;
        }
    }
}

/// Splitting the willing-to-buy volume at a group boundary: when every bid
/// in `[gs, hi)` is priced at or above `p`, the winning volume up to `hi` is
/// the winning volume up to `gs` plus the group's amounts.
proof fn lemma_sum_aoa_take_split(s: Seq<Bid>, gs: int, hi: int, p: u64)
    requires
        0 <= gs <= hi <= s.len(),
        forall|j: int| gs <= j < hi ==> (#[trigger] s[j]).bid_price_revealed >= p,
    ensures
        sum_bids_at_or_above(s.take(hi), p) == sum_bids_at_or_above(s.take(gs), p)
            + (sum_bid_amounts_from(s, gs) - sum_bid_amounts_from(s, hi)),
    decreases hi - gs,
{
    if gs < hi {
        lemma_sum_aoa_take_split(s, gs, hi - 1, p);
        assert(s.take(hi).drop_last() =~= s.take(hi - 1));
        assert(s.take(hi).last() == s[hi - 1]);
        assert(sum_bid_amounts_from(s, hi - 1) == s[hi - 1].amount + sum_bid_amounts_from(s, hi));
    }
}

/// The assignment bound: the total amount assigned to bids never exceeds the
/// maximum assignable volume, and equals the smaller of that volume and the
/// willing-to-buy volume at the clearing price, so the bound is met with
/// equality whenever the margin exhausts.
pub proof fn lemma_assigned_total_bids_bound(
    bids: Seq<Bid>,
    hi: int,
    assigned: int,
    max: int,
    clearing: u64,
)
    requires
        bids_price_sorted(bids),
        0 <= hi <= bids.len(),
        0 <= assigned <= max,
    ensures
        assigned_total_bids(bids, hi, assigned, max, clearing)
            == min_int(max, assigned + sum_bids_at_or_above(bids.take(hi), clearing)),
        assigned <= assigned_total_bids(bids, hi, assigned, max, clearing) <= max,
    decreases hi,
{
    lemma_sum_bids_at_or_above_bound(bids.take(hi), clearing);
    if hi <= 0 {
        assert(bids.take(0) =~= Seq::<Bid>::empty());
    } else {
        let b = bids[hi - 1];
        let gs = bids_group_start(bids, hi - 1);
        lemma_bids_group_start_bounds(bids, hi - 1);
        let g = sum_bid_amounts_from(bids, gs) - sum_bid_amounts_from(bids, hi);
        lemma_sum_bid_amounts_from_monotone(bids, gs, hi);
        if b.bid_price_revealed >= clearing && assigned < max && g <= max - assigned {
            lemma_sum_aoa_take_split(bids, gs, hi, clearing);
            lemma_assigned_total_bids_bound(bids, gs, assigned + g, max, clearing);
        } else if b.bid_price_revealed >= clearing && assigned < max {
            lemma_sum_aoa_take_split(bids, gs, hi, clearing);
            lemma_sum_bids_at_or_above_bound(bids.take(gs), clearing);
            lemma_assigned_total_bids_bound(bids, gs, max, max, clearing);
        } else {
            lemma_assigned_total_bids_bound(bids, hi - 1, assigned, max, clearing);
            assert(bids.take(hi).drop_last() =~= bids.take(hi - 1));
            assert(bids.take(hi).last() == bids[hi - 1]);
            if b.bid_price_revealed >= clearing {
                assert(assigned == max);
            }
        }
    }
}

/// Splitting the willing-to-sell volume at a group boundary.
proof fn lemma_sum_aob_take_split(s: Seq<Offer>, lo: int, ge: int, p: u64)
    requires
        0 <= lo <= ge <= s.len(),
        forall|j: int| lo <= j < ge ==> (#[trigger] s[j]).offer_price_revealed <= p,
    ensures
        sum_offers_at_or_below(s.take(ge), p) == sum_offers_at_or_below(s.take(lo), p)
            + (sum_offer_amounts_to(s, ge) - sum_offer_amounts_to(s, lo)),
    decreases ge - lo,
{
    if lo < ge {
        lemma_sum_aob_take_split(s, lo, ge - 1, p);
        assert(s.take(ge).drop_last() =~= s.take(ge - 1));
        assert(s.take(ge).last() == s[ge - 1]);
        assert(sum_offer_amounts_to(s, ge) == sum_offer_amounts_to(s, ge - 1) + s[ge - 1].amount);
    }
}

/// A prefix's winning volume never exceeds the whole book's.
proof fn lemma_sum_aob_prefix_le(s: Seq<Offer>, lo: int, p: u64)
    requires
        0 <= lo <= s.len(),
    ensures
        sum_offers_at_or_below(s.take(lo), p) <= sum_offers_at_or_below(s, p),
    decreases s.len(),
{
    if lo < s.len() {
        assert(s.drop_last().take(lo) =~= s.take(lo));
        lemma_sum_aob_prefix_le(s.drop_last(), lo, p);
    } else {
        assert(s.take(lo) =~= s);
    }
}

/// The winning offer volume over the whole book, split at `lo`.
proof fn lemma_sum_aob_skip(s: Seq<Offer>, lo: int, p: u64)
    requires
        0 <= lo <= s.len(),
        forall|j: int| lo <= j < s.len() ==> (#[trigger] s[j]).offer_price_revealed > p,
    ensures
        sum_offers_at_or_below(s, p) == sum_offers_at_or_below(s.take(lo), p),
    decreases s.len() - lo,
{
    if lo < s.len() {
        lemma_sum_aob_skip(s.drop_last(), lo, p);
        assert(s.drop_last().take(lo) =~= s.take(lo));
    } else {
        assert(s.take(lo) =~= s);
    }
}

/// The assignment bound for offers: the total amount assigned never exceeds
/// the maximum assignable volume, and equals the smaller of that volume and
/// the willing-to-sell volume at the clearing price among the offers not yet
/// processed.
pub proof fn lemma_assigned_total_offers_bound(
    offers: Seq<Offer>,
    lo: int,
    assigned: int,
    max: int,
    clearing: u64,
)
    requires
        offers_price_sorted(offers),
        0 <= lo <= offers.len(),
        0 <= assigned <= max,
    ensures
        assigned_total_offers(offers, lo, assigned, max, clearing)
            == min_int(
            max,
            assigned + (sum_offers_at_or_below(offers, clearing)
                - sum_offers_at_or_below(offers.take(lo), clearing)),
        ),
        assigned <= assigned_total_offers(offers, lo, assigned, max, clearing) <= max,
    decreases offers.len() - lo,
{
    lemma_sum_aob_prefix_le(offers, lo, clearing);
    lemma_sum_offers_at_or_below_bound(offers, clearing);
    lemma_sum_offers_at_or_below_bound(offers.take(lo), clearing);
    if lo >= offers.len() {
        assert(offers.take(lo) =~= offers);
    } else {
        let o = offers[lo];
        let ge = offers_group_last(offers, lo) + 1;
        lemma_offers_group_last_bounds(offers, lo);
        let g = sum_offer_amounts_to(offers, ge) - sum_offer_amounts_to(offers, lo);
        lemma_sum_offer_amounts_to_monotone(offers, lo, ge);
        if o.offer_price_revealed <= clearing && assigned < max && g <= max - assigned {
            lemma_sum_aob_take_split(offers, lo, ge, clearing);
            lemma_assigned_total_offers_bound(offers, ge, assigned + g, max, clearing);
            lemma_sum_offers_at_or_below_bound(offers.take(ge), clearing);
        } else if o.offer_price_revealed <= clearing && assigned < max {
            lemma_sum_aob_take_split(offers, lo, ge, clearing);
            lemma_sum_aob_prefix_le(offers, ge, clearing);
            lemma_assigned_total_offers_bound(offers, ge, max, max, clearing);
        } else if assigned >= max {
            assert(offers.take(lo + 1).drop_last() =~= offers.take(lo));
            lemma_sum_aob_prefix_le(offers, lo + 1, clearing);
            lemma_assigned_total_offers_bound(offers, lo + 1, assigned, max, clearing);
        } else {
            assert(o.offer_price_revealed > clearing);
            assert(forall|j: int| lo + 1 <= j < offers.len()
                ==> (#[trigger] offers[j]).offer_price_revealed > clearing);
            lemma_assigned_total_offers_bound(offers, lo + 1, assigned, max, clearing);
            lemma_sum_aob_skip(offers, lo as int, clearing);
            lemma_sum_aob_skip(offers, lo + 1, clearing);
        }
    }
}

/// Computes the clearing rate as the truncated average of the second most
/// competitive bid price and the second most competitive offer price, or
/// zero when either side holds fewer than two orders.
pub fn compute_clearing_rate(bids: &Vec<Bid>, offers: &Vec<Offer>) -> (r: u64)
    ensures
        bids@.len() >= 2 && offers@.len() >= 2 ==> r as int
            == (bids@[1].bid_price_revealed + offers@[1].offer_price_revealed) / 2,
        bids@.len() < 2 || offers@.len() < 2 ==> r == 0,
{
    if bids.len() < 2 || offers.len() < 2 {
        return 0;
    }
    let sum: u128 = (bids[1].bid_price_revealed as u128)
        + (offers[1].offer_price_revealed as u128);
    (sum / 2) as u64
}

/// A fully assigned group disburses exactly the group's amounts.
proof fn lemma_assign_full_group_purchase(
    m: Seq<(Address, BidderAllocation)>,
    bids: Seq<Bid>,
    gs: int,
    hi: int,
    clearing: u64,
    day_count: u64,
)
    requires
        0 <= gs <= hi <= bids.len(),
        total_bidder_purchase(m) + (sum_bid_amounts_from(bids, gs) - sum_bid_amounts_from(
            bids,
            hi,
        )) <= u128::MAX,
    ensures
        total_bidder_purchase(assign_bid_group_full(m, bids, gs, hi, clearing, day_count))
            == total_bidder_purchase(m) + (sum_bid_amounts_from(bids, gs)
            - sum_bid_amounts_from(bids, hi)),
    decreases hi - gs,
{
    lemma_sum_bid_amounts_from_monotone(bids, gs, hi);
    if hi > gs {
        let b = bids[hi - 1];
        lemma_bidder_lookup_purchase_le_total(m, b.bidder);
        let al = bidder_lookup(m, b.bidder);
        assert(sum_bid_amounts_from(bids, hi - 1) == b.amount + sum_bid_amounts_from(bids, hi));
        lemma_sum_bid_amounts_from_monotone(bids, gs, hi - 1);
        assert(sat_add(al.purchase_amount, b.amount as u128)
            == al.purchase_amount + b.amount);
        lemma_total_bidder_purchase_upsert(
            m,
            b.bidder,
            BidderAllocation {
                purchase_amount: sat_add(al.purchase_amount, b.amount as u128),
                repurchase_obligation: RepurchaseObligation {
                    repurchase_amount: sat_add(
                        al.repurchase_obligation.repurchase_amount,
                        repurchase_price_spec(b.amount, clearing, day_count) as u128,
                    ),
                    collateral_amount: sat_add(
                        al.repurchase_obligation.collateral_amount,
                        b.collateral_amount as u128,
                    ),
                },
                ..al
            },
        );
        lemma_assign_full_group_purchase(
            bid_assign_credit(m, b, b.amount, clearing, day_count),
            bids,
            gs,
            hi - 1,
            clearing,
            day_count,
        );
    }
}

/// A partially assigned group disburses exactly what remains of the budget.
proof fn lemma_assign_partial_group_purchase(
    m: Seq<(Address, BidderAllocation)>,
    bids: Seq<Bid>,
    gs: int,
    hi: int,
    remaining: int,
    g_rem: int,
    clearing: u64,
    day_count: u64,
)
    requires
        0 <= gs < hi <= bids.len(),
        0 <= remaining <= g_rem,
        g_rem == sum_bid_amounts_from(bids, gs) - sum_bid_amounts_from(bids, hi),
        total_bidder_purchase(m) + remaining <= u128::MAX,
    ensures
        total_bidder_purchase(assign_bid_group_partial(m, bids, gs, hi, remaining, g_rem,
            clearing, day_count)) == total_bidder_purchase(m) + remaining,
    decreases hi - gs,
{
    let b = bids[hi - 1];
    lemma_bidder_lookup_purchase_le_total(m, b.bidder);
    let al = bidder_lookup(m, b.bidder);
    assert(sum_bid_amounts_from(bids, hi - 1) == b.amount + sum_bid_amounts_from(bids, hi));
    lemma_sum_bid_amounts_from_monotone(bids, gs, hi - 1);
    if hi - 1 == gs {
        assert(g_rem == b.amount);
        assert((remaining as u64) as int == remaining);
        assert(sat_add(al.purchase_amount, (remaining as u64) as u128)
            == al.purchase_amount + remaining);
        lemma_total_bidder_purchase_upsert(
            m,
            b.bidder,
            BidderAllocation {
                purchase_amount: sat_add(al.purchase_amount, (remaining as u64) as u128),
                repurchase_obligation: RepurchaseObligation {
                    repurchase_amount: sat_add(
                        al.repurchase_obligation.repurchase_amount,
                        repurchase_price_spec(remaining as u64, clearing, day_count) as u128,
                    ),
                    collateral_amount: sat_add(
                        al.repurchase_obligation.collateral_amount,
                        b.collateral_amount as u128,
                    ),
                },
                ..al
            },
        );
    } else {
        let amt = b.amount as int;
        assert(amt <= g_rem);
        let a: int = if g_rem == 0 {
            0
        } else {
            (amt * remaining) / g_rem
        };
        if g_rem > 0 {
            lemma_partial_share(amt, remaining, g_rem);
        }
        assert(0 <= a <= remaining && a <= amt && remaining - a <= g_rem - amt);
        assert((a as u64) as int == a);
        assert(sat_add(al.purchase_amount, (a as u64) as u128) == al.purchase_amount + a);
        lemma_total_bidder_purchase_upsert(
            m,
            b.bidder,
            BidderAllocation {
                purchase_amount: sat_add(al.purchase_amount, (a as u64) as u128),
                repurchase_obligation: RepurchaseObligation {
                    repurchase_amount: sat_add(
                        al.repurchase_obligation.repurchase_amount,
                        repurchase_price_spec(a as u64, clearing, day_count) as u128,
                    ),
                    collateral_amount: sat_add(
                        al.repurchase_obligation.collateral_amount,
                        b.collateral_amount as u128,
                    ),
                },
                ..al
            },
        );
        lemma_assign_partial_group_purchase(
            bid_assign_credit(m, b, a as u64, clearing, day_count),
            bids,
            gs,
            hi - 1,
            remaining - a,
            g_rem - amt,
            clearing,
            day_count,
        );
    }
}

/// The assignment bound over the allocations themselves: the assignment pass
/// disburses exactly the assigned total, so the sum of purchase amounts
/// credited to bidders never exceeds the maximum assignable volume.
pub proof fn lemma_assign_bids_purchase_total(
    m: Seq<(Address, BidderAllocation)>,
    bids: Seq<Bid>,
    hi: int,
    assigned: int,
    max: int,
    clearing: u64,
    day_count: u64,
)
    requires
        bids_price_sorted(bids),
        0 <= hi <= bids.len(),
        0 <= assigned <= max,
        total_bidder_purchase(m) + (assigned_total_bids(bids, hi, assigned, max, clearing)
            - assigned) <= u128::MAX,
    ensures
        total_bidder_purchase(assign_bids_spec(m, bids, hi, assigned, max, clearing, day_count))
            == total_bidder_purchase(m) + (assigned_total_bids(bids, hi, assigned, max, clearing)
            - assigned),
    decreases hi,
{
    lemma_assigned_total_bids_bound(bids, hi, assigned, max, clearing);
    if 0 < hi <= bids.len() {
        let b = bids[hi - 1];
        let gs = bids_group_start(bids, hi - 1);
        lemma_bids_group_start_bounds(bids, hi - 1);
        let g = sum_bid_amounts_from(bids, gs) - sum_bid_amounts_from(bids, hi);
        lemma_sum_bid_amounts_from_monotone(bids, gs, hi);
        if b.bid_price_revealed >= clearing && assigned < max && g <= max - assigned {
            let m1 = assign_bid_group_full(m, bids, gs, hi, clearing, day_count);
            lemma_assigned_total_bids_bound(bids, gs, assigned + g, max, clearing);
            lemma_assign_full_group_purchase(m, bids, gs, hi, clearing, day_count);
            lemma_assign_bids_purchase_total(m1, bids, gs, assigned + g, max, clearing, day_count);
        } else if b.bid_price_revealed >= clearing && assigned < max {
            let m1 = assign_bid_group_partial(m, bids, gs, hi, max - assigned, g, clearing,
                day_count);
            lemma_assigned_total_bids_bound(bids, gs, max, max, clearing);
            lemma_assign_partial_group_purchase(m, bids, gs, hi, max - assigned, g, clearing,
                day_count);
            lemma_assign_bids_purchase_total(m1, bids, gs, max, max, clearing, day_count);
        } else {
            let al = bidder_lookup(m, b.bidder);
            lemma_total_bidder_purchase_upsert(
                m,
                b.bidder,
                BidderAllocation {
                    collateral_amount: sat_add(al.collateral_amount, b.collateral_amount as u128),
                    ..al
                },
            );
            lemma_assign_bids_purchase_total(bid_unlock_credit(m, b), bids, hi - 1, assigned, max,
                clearing, day_count);
        }
    }
}

impl Bid {
    /// Fully assigns the bid at the clearing price: the whole amount is
    /// disbursed, and the repurchase obligation for it, together with the
    /// bid's entire locked collateral, is booked. Returns the amount
    /// assigned.
    pub fn fully_assign(
        &self,
        clearing_price: u64,
        day_count: u64,
        allocations: &mut BidderAllocations,
    ) -> (r: u128)
        requires
            clearing_price <= MAX_BID_PRICE,
        ensures
            final(allocations)@ == bid_assign_credit(
                old(allocations)@,
                *self,
                self.amount,
                clearing_price,
                day_count,
            ),
            r == self.amount as u128,
    {
        self.partially_assign(clearing_price, day_count, self.amount, allocations)
    }

    /// Partially assigns `assigned_amount` of the bid at the clearing price;
    /// the bid's entire locked collateral is still booked against the
    /// obligation. Returns the amount assigned.
    pub fn partially_assign(
        &self,
        clearing_price: u64,
        day_count: u64,
        assigned_amount: u64,
        allocations: &mut BidderAllocations,
    ) -> (r: u128)
        requires
            clearing_price <= MAX_BID_PRICE,
        ensures
            final(allocations)@ == bid_assign_credit(
                old(allocations)@,
                *self,
                assigned_amount,
                clearing_price,
                day_count,
            ),
            r == assigned_amount as u128,
    {
        let rp = calculate_repurchase_price(assigned_amount, clearing_price, day_count);
        allocations.add_assignment(
            &self.bidder,
            assigned_amount as u128,
            rp,
            self.collateral_amount as u128,
        );
        assigned_amount as u128
    }

    /// Unlocks the bid: the locked collateral is refunded to the bidder.
    pub fn unlock(&self, allocations: &mut BidderAllocations)
        ensures
            final(allocations)@ == bid_unlock_credit(old(allocations)@, *self),
    {
        allocations.add_collateral(&self.bidder, self.collateral_amount as u128);
    }
}

impl Offer {
    /// Fully assigns the offer at the clearing price: the offeror receives
    /// repo tokens worth the repurchase price of the whole amount. Returns
    /// the amount assigned.
    pub fn fully_assign(
        &self,
        clearing_price: u64,
        day_count: u64,
        allocations: &mut OfferorAllocations,
    ) -> (r: u128)
        requires
            clearing_price <= MAX_BID_PRICE,
        ensures
            final(allocations)@ == offer_full_credit(
                old(allocations)@,
                *self,
                clearing_price,
                day_count,
            ),
            r == self.amount as u128,
    {
        let rp = calculate_repurchase_price(self.amount, clearing_price, day_count);
        allocations.add_repo(&self.offeror, rp);
        self.amount as u128
    }

    /// Partially assigns `assigned_amount` of the offer: repo tokens for the
    /// assigned part and a purchase token refund for the rest. Returns the
    /// amount assigned.
    pub fn partially_assign(
        &self,
        clearing_price: u64,
        day_count: u64,
        assigned_amount: u64,
        allocations: &mut OfferorAllocations,
    ) -> (r: u128)
        requires
            clearing_price <= MAX_BID_PRICE,
            assigned_amount <= self.amount,
        ensures
            final(allocations)@ == offer_partial_credit(
                old(allocations)@,
                *self,
                assigned_amount,
                clearing_price,
                day_count,
            ),
            r == assigned_amount as u128,
    {
        let rp = calculate_repurchase_price(assigned_amount, clearing_price, day_count);
        allocations.add_repo_and_purchase(
            &self.offeror,
            rp,
            (self.amount - assigned_amount) as u128,
        );
        assigned_amount as u128
    }

    /// Unlocks the offer: the locked purchase tokens are refunded.
    pub fn unlock(&self, allocations: &mut OfferorAllocations)
        ensures
            final(allocations)@ == offer_unlock_credit(old(allocations)@, *self),
    {
        allocations.add_purchase(&self.offeror, self.amount as u128);
    }
}

} // verus!
