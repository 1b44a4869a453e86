use zkauction::allocations::{BidderAllocations, OfferorAllocations};
use zkauction::auction::{
    assign_bids, assign_offers, calculate_repurchase_price, compute_clearing_price,
    compute_clearing_rate, find_first_index_for_price, find_last_index_for_price, mul_div,
};
use zkauction::bids::Bid;
use zkauction::offers::Offer;
use zkauction::types::{Address, Digest};

fn addr(n: u32) -> Address {
    Address { hi: n, lo: 1000 + n as u128 }
}

fn bid(n: u32, price: u64, amount: u64, collateral: u64) -> Bid {
    Bid {
        id: n as u64,
        bidder: addr(10 + n),
        bid_price_hash: Digest { hi: 0, lo: 0 },
        bid_price_revealed: price,
        amount,
        collateral_amount: collateral,
        is_revealed: true,
    }
}

fn offer(n: u32, price: u64, amount: u64) -> Offer {
    Offer {
        id: n as u64,
        offeror: addr(20 + n),
        offer_price_hash: Digest { hi: 0, lo: 0 },
        offer_price_revealed: price,
        amount,
        is_revealed: true,
    }
}

#[test]
fn test_calculate_repurchase_price() {
    // 100 * (1 + 1000 * 360 / 3_600_000) = 110.
    assert_eq!(calculate_repurchase_price(100, 1000, 360), 110);
    // Truncation: 7 * 500 * 360 / 3_600_000 = 0.35 truncates to 0.
    assert_eq!(calculate_repurchase_price(7, 500, 360), 7);
    // Zero rate leaves the principal unchanged.
    assert_eq!(calculate_repurchase_price(12345, 0, 360), 12345);
    // A multi-year term: 100 * (1 + 5000 * 720 / 3_600_000) = 200.
    assert_eq!(calculate_repurchase_price(100, 5000, 720), 200);
}

#[test]
fn test_mul_div() {
    assert_eq!(mul_div(60, 50, 100), 30);
    assert_eq!(mul_div(40, 50, 100), 20);
    assert_eq!(mul_div(1, 1, 2), 0);
    assert_eq!(mul_div(u64::MAX, u128::MAX - 1, u128::MAX), u64::MAX - 1);
}

#[test]
fn test_compute_clearing_price() {
    // An exact one-to-one match clears at the shared price.
    let bids = vec![bid(0, 1000, 100, 150)];
    let offers = vec![offer(0, 1000, 100)];
    let (clearing, max_assignable) = compute_clearing_price(&bids, &offers);
    assert_eq!(clearing, 1000);
    assert_eq!(max_assignable, 100);

    // Two bids at one price against a smaller offer: full demand against
    // limited supply, cleared at the shared price.
    let bids = vec![bid(0, 1000, 60, 100), bid(1, 1000, 40, 100)];
    let offers = vec![offer(0, 1000, 50)];
    let (clearing, max_assignable) = compute_clearing_price(&bids, &offers);
    assert_eq!(clearing, 1000);
    assert_eq!(max_assignable, 50);

    // A spread market: bid at 2000, offer at 1000; the price lies between.
    let bids = vec![bid(0, 2000, 100, 1000)];
    let offers = vec![offer(0, 1000, 100)];
    let (clearing, max_assignable) = compute_clearing_price(&bids, &offers);
    assert!(1000 <= clearing && clearing <= 2000);
    assert_eq!(clearing, 1500);
    assert_eq!(max_assignable, 100);

    // The clearing price stays within [min offer price, max bid price].
    let bids = vec![bid(0, 900, 10, 100), bid(1, 1100, 30, 100), bid(2, 1300, 20, 100)];
    let offers = vec![offer(0, 800, 25), offer(1, 1000, 25), offer(2, 1200, 40)];
    let (clearing, max_assignable) = compute_clearing_price(&bids, &offers);
    assert!(800 <= clearing && clearing <= 1300);
    let csb: u64 = bids
        .iter()
        .filter(|b| b.bid_price_revealed >= clearing)
        .map(|b| b.amount)
        .sum();
    let cso: u64 = offers
        .iter()
        .filter(|o| o.offer_price_revealed <= clearing)
        .map(|o| o.amount)
        .sum();
    assert_eq!(max_assignable as u64, csb.min(cso));
}

#[test]
fn test_assign_bids() {
    // Full assignment of the single bid at the clearing price.
    let bids = vec![bid(0, 1000, 100, 150)];
    let mut allocations = BidderAllocations::new();
    assign_bids(&bids, 100, 1000, 360, &mut allocations);
    let al = allocations.get_allocation(&bids[0].bidder);
    assert_eq!(al.purchase_amount, 100);
    assert_eq!(al.repurchase_obligation.repurchase_amount, 110);
    assert_eq!(al.repurchase_obligation.collateral_amount, 150);

    // Partial assignment of an equal-price group: the most competitive
    // (last) bid takes its proportional floor share, the first takes the
    // rest; the locked collateral is booked in full either way.
    let bids = vec![bid(0, 1000, 60, 90), bid(1, 1000, 40, 80)];
    let mut allocations = BidderAllocations::new();
    assign_bids(&bids, 50, 1000, 360, &mut allocations);
    let first = allocations.get_allocation(&bids[0].bidder);
    let second = allocations.get_allocation(&bids[1].bidder);
    assert_eq!(second.purchase_amount, 20);
    assert_eq!(first.purchase_amount, 30);
    assert_eq!(first.purchase_amount + second.purchase_amount, 50);
    assert_eq!(first.repurchase_obligation.collateral_amount, 90);
    assert_eq!(second.repurchase_obligation.collateral_amount, 80);

    // A bid below the clearing price is unlocked.
    let bids = vec![bid(0, 500, 60, 90), bid(1, 1000, 40, 80)];
    let mut allocations = BidderAllocations::new();
    assign_bids(&bids, 1000, 1000, 360, &mut allocations);
    let unlocked = allocations.get_allocation(&bids[0].bidder);
    assert_eq!(unlocked.purchase_amount, 0);
    assert_eq!(unlocked.collateral_amount, 90);
    let assigned = allocations.get_allocation(&bids[1].bidder);
    assert_eq!(assigned.purchase_amount, 40);
}

#[test]
fn test_assign_offers() {
    // Full assignment: the offeror receives repo tokens worth the
    // repurchase price of the whole amount.
    let offers = vec![offer(0, 1000, 100)];
    let mut allocations = OfferorAllocations::new();
    assign_offers(&offers, 100, 1000, 360, &mut allocations);
    let al = allocations.get_allocation(&offers[0].offeror);
    assert_eq!(al.repo_amount, 110);
    assert_eq!(al.purchase_amount, 0);

    // Partial assignment refunds the unassigned remainder.
    let offers = vec![offer(0, 1000, 100)];
    let mut allocations = OfferorAllocations::new();
    assign_offers(&offers, 60, 1000, 360, &mut allocations);
    let al = allocations.get_allocation(&offers[0].offeror);
    assert_eq!(al.repo_amount, calculate_repurchase_price(60, 1000, 360));
    assert_eq!(al.purchase_amount, 40);

    // An offer above the clearing price is unlocked.
    let offers = vec![offer(0, 500, 30), offer(1, 2000, 70)];
    let mut allocations = OfferorAllocations::new();
    assign_offers(&offers, 1000, 1000, 360, &mut allocations);
    assert_eq!(allocations.get_allocation(&offers[0].offeror).repo_amount,
        calculate_repurchase_price(30, 1000, 360));
    let unlocked = allocations.get_allocation(&offers[1].offeror);
    assert_eq!(unlocked.repo_amount, 0);
    assert_eq!(unlocked.purchase_amount, 70);
}

#[test]
fn test_assignment_bound() {
    // The total assigned never exceeds the maximum assignable volume, and
    // exhausts it when enough winning volume exists.
    let bids = vec![bid(0, 1000, 30, 100), bid(1, 1000, 30, 100), bid(2, 1200, 50, 100)];
    let mut allocations = BidderAllocations::new();
    assign_bids(&bids, 70, 1000, 360, &mut allocations);
    let total: u128 = bids
        .iter()
        .map(|b| allocations.get_allocation(&b.bidder).purchase_amount)
        .sum();
    assert_eq!(total, 70);
}

#[test]
fn test_find_first_index_for_price() {
    let bids = vec![bid(0, 500, 10, 1), bid(1, 1000, 20, 1), bid(2, 1000, 30, 1)];
    let (first, total) = find_first_index_for_price(1000, &bids, 2);
    assert_eq!(first, 1);
    assert_eq!(total, 50);
}

#[test]
fn test_find_last_index_for_price() {
    let offers = vec![offer(0, 500, 10), offer(1, 500, 20), offer(2, 1000, 30)];
    let (last, total) = find_last_index_for_price(500, &offers, 0);
    assert_eq!(last, 1);
    assert_eq!(total, 30);
}

#[test]
fn test_compute_clearing_rate() {
    let bids = vec![bid(0, 80, 1, 1), bid(1, 90, 1, 1), bid(2, 100, 1, 1)];
    let offers = vec![offer(0, 70, 1), offer(1, 80, 1), offer(2, 90, 1)];
    assert_eq!(compute_clearing_rate(&bids, &offers), (90 + 80) / 2);

    let one_bid = vec![bid(0, 80, 1, 1)];
    let one_offer = vec![offer(0, 70, 1)];
    assert_eq!(compute_clearing_rate(&one_bid, &one_offer), 0);
}

#[test]
fn test_per_order_assignment_effects() {
    // Bid full assignment: purchase disbursed, obligation booked with the
    // entire locked collateral.
    let b = bid(0, 1000, 100, 150);
    let mut allocations = BidderAllocations::new();
    let assigned = b.fully_assign(1000, 360, &mut allocations);
    assert_eq!(assigned, 100);
    let al = allocations.get_allocation(&b.bidder);
    assert_eq!(al.purchase_amount, 100);
    assert_eq!(al.repurchase_obligation.repurchase_amount, 110);
    assert_eq!(al.repurchase_obligation.collateral_amount, 150);

    // Bid partial assignment books the full collateral too.
    let mut allocations = BidderAllocations::new();
    let assigned = b.partially_assign(1000, 360, 40, &mut allocations);
    assert_eq!(assigned, 40);
    let al = allocations.get_allocation(&b.bidder);
    assert_eq!(al.purchase_amount, 40);
    assert_eq!(al.repurchase_obligation.collateral_amount, 150);

    // Bid unlock refunds the collateral only.
    let mut allocations = BidderAllocations::new();
    b.unlock(&mut allocations);
    let al = allocations.get_allocation(&b.bidder);
    assert_eq!(al.collateral_amount, 150);
    assert_eq!(al.purchase_amount, 0);

    // Offer full assignment yields repo tokens only; partial assignment
    // refunds the unassigned remainder; unlock refunds everything.
    let o = offer(0, 1000, 100);
    let mut allocations = OfferorAllocations::new();
    assert_eq!(o.fully_assign(1000, 360, &mut allocations), 100);
    let al = allocations.get_allocation(&o.offeror);
    assert_eq!(al.repo_amount, 110);
    assert_eq!(al.purchase_amount, 0);

    let mut allocations = OfferorAllocations::new();
    assert_eq!(o.partially_assign(1000, 360, 60, &mut allocations), 60);
    let al = allocations.get_allocation(&o.offeror);
    assert_eq!(al.repo_amount, calculate_repurchase_price(60, 1000, 360));
    assert_eq!(al.purchase_amount, 40);

    let mut allocations = OfferorAllocations::new();
    o.unlock(&mut allocations);
    assert_eq!(allocations.get_allocation(&o.offeror).purchase_amount, 100);
}
