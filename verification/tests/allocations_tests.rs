use zkauction::allocations::{
    Allocations, BidderAllocation, BidderAllocations, OfferorAllocation, OfferorAllocations,
    ProverAllocation,
};
use zkauction::bids::{Bid, BidSubmission, Bids};
use zkauction::exit_tree::ExitLeaf;
use zkauction::offers::{Offer, OfferSubmission, Offers};
use zkauction::types::{get_price_hash, Address, AuctionParameters, Digest};

fn addr(n: u32) -> Address {
    Address { hi: n, lo: 1000 + n as u128 }
}

fn params() -> AuctionParameters {
    AuctionParameters {
        purchase_token: addr(1),
        purchase_price: 1,
        collateral_token: addr(2),
        collateral_price: 1,
        day_count: 360,
    }
}

#[test]
fn test_update_purchase_amount_bidder() {
    let mut al = BidderAllocation::default();
    assert_eq!(al.purchase_amount, 0);
    al.update_purchase_amount(345);
    assert_eq!(al.purchase_amount, 345);
}

#[test]
fn test_update_collateral_amount() {
    let mut al = BidderAllocation::default();
    assert_eq!(al.collateral_amount, 0);
    al.update_collateral_amount(456);
    assert_eq!(al.collateral_amount, 456);
}

#[test]
fn test_update_repurchase_obligation() {
    let mut al = BidderAllocation::default();
    assert_eq!(al.repurchase_obligation.repurchase_amount, 0);
    assert_eq!(al.repurchase_obligation.collateral_amount, 0);
    al.update_repurchase_obligation(11, 22);
    assert_eq!(al.repurchase_obligation.repurchase_amount, 11);
    assert_eq!(al.repurchase_obligation.collateral_amount, 22);
}

#[test]
fn test_update_repo_amount() {
    let mut al = OfferorAllocation::default();
    assert_eq!(al.repo_amount, 0);
    al.update_repo_amount(123);
    assert_eq!(al.repo_amount, 123);
}

#[test]
fn test_update_purchase_amount_offeror() {
    let mut al = OfferorAllocation::default();
    assert_eq!(al.purchase_amount, 0);
    al.update_purchase_amount(77);
    assert_eq!(al.purchase_amount, 77);
}

#[test]
fn test_update_purchase_amount_prover() {
    let mut al = ProverAllocation::new(&addr(9));
    assert_eq!(al.purchase_amount, 0);
    al.update_purchase_amount(55);
    assert_eq!(al.purchase_amount, 55);
}

#[test]
fn test_bidder_add_from_order() {
    let mut allocations = BidderAllocations::new();
    let a = addr(4);
    allocations.add_collateral(&a, 300);
    let first = allocations.get_allocation(&a);
    assert_eq!(first.collateral_amount, 300);
    assert_eq!(first.purchase_amount, 0);

    allocations.add_collateral(&a, 200);
    let second = allocations.get_allocation(&a);
    assert_eq!(second.collateral_amount, 500);
    assert_eq!(second.purchase_amount, 0);
    assert_eq!(allocations.len(), 1);
}

#[test]
fn test_bidder_get_allocation() {
    let mut results = Allocations::new(&addr(9));
    let bidder = addr(4);

    let fresh = results.get_or_create_bidder_allocation(&bidder);
    assert_eq!(fresh.purchase_amount, 0);

    results.bidder_allocations.add_assignment(&bidder, 42, 0, 0);
    let updated = results.get_or_create_bidder_allocation(&bidder);
    assert_eq!(updated.purchase_amount, 42);

    let other = results.get_or_create_bidder_allocation(&addr(5));
    assert_eq!(other.purchase_amount, 0);
}

#[test]
fn test_offeror_add_from_order() {
    let mut allocations = OfferorAllocations::new();
    let a = addr(6);
    allocations.add_purchase(&a, 500);
    let al = allocations.get_allocation(&a);
    assert_eq!(al.purchase_amount, 500);
    assert_eq!(al.repo_amount, 0);
    allocations.add_purchase(&a, 100);
    assert_eq!(allocations.get_allocation(&a).purchase_amount, 600);
    assert_eq!(allocations.len(), 1);
}

#[test]
fn test_offeror_get_allocation() {
    let mut results = Allocations::new(&addr(9));
    let offeror = addr(7);
    let fresh = results.get_or_create_offeror_allocation(&offeror);
    assert_eq!(fresh.repo_amount, 0);
    results.offeror_allocations.add_repo(&offeror, 10);
    let updated = results.get_or_create_offeror_allocation(&offeror);
    assert_eq!(updated.repo_amount, 10);
}

#[test]
fn test_get_or_create_prover_allocation() {
    let prover = addr(8);
    let allocations = Allocations::new(&prover);
    let al = allocations.get_or_create_prover_allocation();
    assert_eq!(al.prover_address, prover);
    assert_eq!(al.purchase_amount, 0);
}

#[test]
fn test_get_or_create_bidder_allocation() {
    let mut allocations = Allocations::new(&addr(9));
    let bidder = addr(3);
    let al = allocations.get_or_create_bidder_allocation(&bidder);
    assert_eq!(al.purchase_amount, 0);
    assert_eq!(al.collateral_amount, 0);
    assert_eq!(allocations.bidder_allocations.len(), 1);
}

#[test]
fn test_get_or_create_offeror_allocation() {
    let mut allocations = Allocations::new(&addr(9));
    let offeror = addr(3);
    let al = allocations.get_or_create_offeror_allocation(&offeror);
    assert_eq!(al.purchase_amount, 0);
    assert_eq!(al.repo_amount, 0);
    assert_eq!(allocations.offeror_allocations.len(), 1);
}

#[test]
fn test_validate_bids() {
    let p = params();
    let mut bids = Bids::new();

    // A revealed, sufficiently collateralized bid.
    let price: u64 = 5000;
    let nonce: u128 = 1;
    let good = BidSubmission {
        bidder: addr(10),
        id: 1,
        bid_price_hash: get_price_hash(price, nonce),
        amount: 100,
        collateral_amount: 150,
    };
    bids.save_or_update_order(&good);
    bids.apply_reveal(&zkauction::bids::BidReveal {
        order_id: zkauction::types::get_key(&good.bidder, good.id),
        price,
        nonce,
    });

    // An undercollateralized revealed bid.
    let under = BidSubmission {
        bidder: addr(11),
        id: 2,
        bid_price_hash: get_price_hash(price, nonce),
        amount: 100,
        collateral_amount: 149,
    };
    bids.save_or_update_order(&under);
    bids.apply_reveal(&zkauction::bids::BidReveal {
        order_id: zkauction::types::get_key(&under.bidder, under.id),
        price,
        nonce,
    });

    // A never-revealed bid.
    let silent = BidSubmission {
        bidder: addr(12),
        id: 3,
        bid_price_hash: Digest { hi: 1, lo: 2 },
        amount: 100,
        collateral_amount: 150,
    };
    bids.save_or_update_order(&silent);

    let mut allocations = BidderAllocations::new();
    let validated = bids.into_validated_orders(&p, &mut allocations);

    assert_eq!(validated.len(), 1);
    assert_eq!(validated[0].bidder, good.bidder);

    assert_eq!(allocations.get_allocation(&under.bidder).collateral_amount, 149);
    assert_eq!(allocations.get_allocation(&under.bidder).purchase_amount, 0);
    assert_eq!(allocations.get_allocation(&silent.bidder).collateral_amount, 150);
    assert_eq!(allocations.get_allocation(&good.bidder).collateral_amount, 0);
}

#[test]
fn test_validate_offers() {
    let p = params();
    let mut offers = Offers::new();

    let price: u64 = 4000;
    let nonce: u128 = 2;
    let good = OfferSubmission {
        offeror: addr(20),
        id: 1,
        offer_price_hash: get_price_hash(price, nonce),
        amount: 100,
    };
    offers.save_or_update_order(&good);
    offers.apply_reveal(&zkauction::offers::OfferReveal {
        order_id: zkauction::types::get_key(&good.offeror, good.id),
        price,
        nonce,
    });

    let silent = OfferSubmission {
        offeror: addr(21),
        id: 2,
        offer_price_hash: Digest { hi: 3, lo: 4 },
        amount: 200,
    };
    offers.save_or_update_order(&silent);

    let mut allocations = OfferorAllocations::new();
    let validated = offers.into_validated_orders(&p, &mut allocations);

    assert_eq!(validated.len(), 1);
    assert_eq!(validated[0].offeror, good.offeror);
    assert_eq!(allocations.get_allocation(&silent.offeror).purchase_amount, 200);
    assert_eq!(allocations.get_allocation(&good.offeror).purchase_amount, 0);
}

#[test]
fn test_prover_into_exit_leaves() {
    let p = params();

    // An empty prover allocation pushes no leaf.
    let mut leaves: Vec<ExitLeaf> = Vec::new();
    let results = Allocations::new(&addr(9));
    results.into_exit_leaves(&p, &mut leaves);
    assert_eq!(leaves.len(), 0);

    // A funded prover allocation pushes a purchase token withdrawal.
    let mut leaves: Vec<ExitLeaf> = Vec::new();
    let mut results = Allocations::new(&addr(9));
    results.prover_allocation.update_purchase_amount(70);
    results.into_exit_leaves(&p, &mut leaves);
    assert_eq!(leaves.len(), 1);
    assert_eq!(
        leaves[0],
        ExitLeaf::TokenWithdrawal { recipient: addr(9), token: p.purchase_token, amount: 70 }
    );
}

#[test]
fn test_bidder_into_exit_leaves() {
    let p = params();
    let bidder = addr(4);

    // An empty allocation pushes no leaf.
    let mut leaves: Vec<ExitLeaf> = Vec::new();
    let mut results = Allocations::new(&addr(9));
    results.get_or_create_bidder_allocation(&bidder);
    results.into_exit_leaves(&p, &mut leaves);
    assert_eq!(leaves.len(), 0);

    // Purchase, collateral and obligation each give one leaf, in order.
    let mut leaves: Vec<ExitLeaf> = Vec::new();
    let mut results = Allocations::new(&addr(9));
    results.bidder_allocations.add_assignment(&bidder, 100, 110, 150);
    results.bidder_allocations.add_collateral(&bidder, 30);
    results.into_exit_leaves(&p, &mut leaves);
    assert_eq!(leaves.len(), 3);
    assert_eq!(
        leaves[0],
        ExitLeaf::TokenWithdrawal { recipient: bidder, token: p.purchase_token, amount: 100 }
    );
    assert_eq!(
        leaves[1],
        ExitLeaf::TokenWithdrawal { recipient: bidder, token: p.collateral_token, amount: 30 }
    );
    assert_eq!(
        leaves[2],
        ExitLeaf::RepurchaseObligation {
            debtor: bidder,
            repurchase_amount: 110,
            collateral_amount: 150,
        }
    );
}

#[test]
fn test_offeror_into_exit_leaves() {
    let p = params();
    let offeror = addr(5);

    let mut leaves: Vec<ExitLeaf> = Vec::new();
    let mut results = Allocations::new(&addr(9));
    results.offeror_allocations.add_repo_and_purchase(&offeror, 110, 40);
    results.into_exit_leaves(&p, &mut leaves);
    assert_eq!(leaves.len(), 2);
    assert_eq!(leaves[0], ExitLeaf::RepoTokenWithdrawal { recipient: offeror, amount: 110 });
    assert_eq!(
        leaves[1],
        ExitLeaf::TokenWithdrawal { recipient: offeror, token: p.purchase_token, amount: 40 }
    );
}

#[test]
fn test_into_exit_leaves() {
    let p = params();
    let mut results = Allocations::new(&addr(9));

    let offeror = addr(30);
    results.offeror_allocations.add_repo(&offeror, 100);
    results.offeror_allocations.add_purchase(&offeror, 200);

    let bidder = addr(1);
    results.bidder_allocations.add_assignment(&bidder, 300, 500, 600);
    results.bidder_allocations.add_collateral(&bidder, 400);

    let mut leaves: Vec<ExitLeaf> = Vec::new();
    results.into_exit_leaves(&p, &mut leaves);

    assert_eq!(leaves.len(), 5);
    assert!(leaves.contains(&ExitLeaf::TokenWithdrawal {
        recipient: bidder,
        token: p.purchase_token,
        amount: 300,
    }));
    assert!(leaves.contains(&ExitLeaf::TokenWithdrawal {
        recipient: bidder,
        token: p.collateral_token,
        amount: 400,
    }));
    assert!(leaves.contains(&ExitLeaf::RepurchaseObligation {
        debtor: bidder,
        repurchase_amount: 500,
        collateral_amount: 600,
    }));
    assert!(leaves.contains(&ExitLeaf::RepoTokenWithdrawal { recipient: offeror, amount: 100 }));
    assert!(leaves.contains(&ExitLeaf::TokenWithdrawal {
        recipient: offeror,
        token: p.purchase_token,
        amount: 200,
    }));
}

#[test]
fn test_saturating_allocation_updates() {
    let mut al = BidderAllocation::default();
    al.update_purchase_amount(u128::MAX);
    al.update_purchase_amount(5);
    assert_eq!(al.purchase_amount, u128::MAX);
}

#[test]
fn test_zero_amount_submission_is_deletion() {
    // The book never holds a zero-collateral bid: a zero-collateral
    // submission for an unknown key is a no-op.
    let mut bids = Bids::new();
    let s = BidSubmission {
        bidder: addr(10),
        id: 1,
        bid_price_hash: Digest { hi: 0, lo: 0 },
        amount: 5,
        collateral_amount: 0,
    };
    bids.save_or_update_order(&s);
    assert_eq!(bids.len(), 0);
    let _ = Bid::from_order_submission(&s);
    let _ = Offer::from_order_submission(&OfferSubmission {
        offeror: addr(11),
        id: 2,
        offer_price_hash: Digest { hi: 0, lo: 0 },
        amount: 0,
    });
}
