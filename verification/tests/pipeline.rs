use zkauction::auction::calculate_repurchase_price;
use zkauction::bids::{BidReveal, BidSubmission};
use zkauction::exit_tree::{hash_exit_root, ExitLeaf};
use zkauction::offers::{OfferReveal, OfferSubmission};
use zkauction::run_auction;
use zkauction::types::{
    calculate_expected_hash_chain_output, get_key, get_price_hash, zero_digest, Address,
    AuctionParameters,
};

fn addr(n: u32) -> Address {
    Address { hi: n, lo: 1000 + n as u128 }
}

fn params() -> AuctionParameters {
    AuctionParameters {
        purchase_token: addr(100),
        purchase_price: 1,
        collateral_token: addr(101),
        collateral_price: 1,
        day_count: 360,
    }
}

fn revealed_bid(
    n: u32,
    price: u64,
    amount: u64,
    collateral: u64,
) -> (BidSubmission, BidReveal) {
    let nonce = 5000 + n as u128;
    let sub = BidSubmission {
        bidder: addr(10 + n),
        id: n as u64,
        bid_price_hash: get_price_hash(price, nonce),
        amount,
        collateral_amount: collateral,
    };
    let reveal = BidReveal { order_id: get_key(&sub.bidder, sub.id), price, nonce };
    (sub, reveal)
}

fn revealed_offer(n: u32, price: u64, amount: u64) -> (OfferSubmission, OfferReveal) {
    let nonce = 6000 + n as u128;
    let sub = OfferSubmission {
        offeror: addr(50 + n),
        id: n as u64,
        offer_price_hash: get_price_hash(price, nonce),
        amount,
    };
    let reveal = OfferReveal { order_id: get_key(&sub.offeror, sub.id), price, nonce };
    (sub, reveal)
}

#[test]
fn test_hash() {
    // The parameters digest is the hash of the 136-byte packed encoding.
    let p = params();
    let encoded = p.encode();
    assert_eq!(encoded.len(), 136);
    let expected = zkauction::precompiles::sp1_keccak256(&encoded);
    assert_eq!(p.hash(), expected);
}

#[test]
fn test_hash_chain() {
    let start = zero_digest();
    let subs: Vec<OfferSubmission> = (0..42)
        .map(|n| OfferSubmission {
            offeror: addr(n),
            id: n as u64,
            offer_price_hash: get_price_hash(n as u64, n as u128),
            amount: 10 + n as u64,
        })
        .collect();
    let encoded: Vec<Vec<u8>> = subs.iter().map(|s| s.encode()).collect();
    let expected = calculate_expected_hash_chain_output(&start, &encoded);
    let mut offers = zkauction::offers::Offers::new();
    let output = zkauction::offers::submissions_hash_chain(&subs, &start, &mut offers);
    assert_eq!(output, expected);
}

#[test]
fn test_empty_auction() {
    let p = params();
    let (bids_chain, offers_chain, params_digest, exit_root) =
        run_auction(&addr(1), &Vec::new(), &Vec::new(), &Vec::new(), &Vec::new(), &p);
    assert_eq!(bids_chain, vec![0u8; 32]);
    assert_eq!(offers_chain, vec![0u8; 32]);
    assert_eq!(params_digest, p.hash());
    assert_eq!(exit_root, vec![0u8; 32]);
}

#[test]
fn test_single_revealed_bid_no_offer() {
    // With no offer the market does not intersect; the bid's collateral is
    // refunded and the exit root is the hash of that single leaf.
    let p = params();
    let (sub, reveal) = revealed_bid(0, 5000, 100, 150);
    let (_, _, _, exit_root) = run_auction(
        &addr(1),
        &vec![sub],
        &Vec::new(),
        &vec![reveal],
        &Vec::new(),
        &p,
    );
    let leaf = ExitLeaf::TokenWithdrawal {
        recipient: sub.bidder,
        token: p.collateral_token,
        amount: 150,
    };
    assert_eq!(exit_root, leaf.hash());
}

#[test]
fn test_single_revealed_offer_no_bid() {
    let p = params();
    let (sub, reveal) = revealed_offer(0, 5000, 120);
    let (_, _, _, exit_root) = run_auction(
        &addr(1),
        &Vec::new(),
        &vec![sub],
        &Vec::new(),
        &vec![reveal],
        &p,
    );
    let leaf = ExitLeaf::TokenWithdrawal {
        recipient: sub.offeror,
        token: p.purchase_token,
        amount: 120,
    };
    assert_eq!(exit_root, leaf.hash());
}

#[test]
fn test_exact_one_to_one_match() {
    // Bid and offer meet exactly at price 1000: both fully assigned, the
    // bidder owes the repurchase price 110 against collateral 150, the
    // offeror receives repo tokens worth 110.
    let p = params();
    let (bsub, brev) = revealed_bid(0, 1000, 100, 150);
    let (osub, orev) = revealed_offer(0, 1000, 100);
    let (_, _, _, exit_root) = run_auction(
        &addr(1),
        &vec![bsub],
        &vec![osub],
        &vec![brev],
        &vec![orev],
        &p,
    );
    assert_eq!(calculate_repurchase_price(100, 1000, 360), 110);
    let expected_leaves = vec![
        ExitLeaf::TokenWithdrawal {
            recipient: bsub.bidder,
            token: p.purchase_token,
            amount: 100,
        },
        ExitLeaf::RepurchaseObligation {
            debtor: bsub.bidder,
            repurchase_amount: 110,
            collateral_amount: 150,
        },
        ExitLeaf::RepoTokenWithdrawal { recipient: osub.offeror, amount: 110 },
    ];
    assert_eq!(exit_root, hash_exit_root(&expected_leaves));
}

#[test]
fn test_partial_fill() {
    // Two bids at one price, amounts 60 and 40, against an offer of 50: the
    // first bid by book order receives 30, the last receives 20.
    let p = params();
    let (b0, r0) = revealed_bid(0, 1000, 60, 90);
    let (b1, r1) = revealed_bid(1, 1000, 40, 60);
    let (osub, orev) = revealed_offer(0, 1000, 50);
    let (_, _, _, exit_root) = run_auction(
        &addr(1),
        &vec![b0, b1],
        &vec![osub],
        &vec![r0, r1],
        &vec![orev],
        &p,
    );
    let rp30 = calculate_repurchase_price(30, 1000, 360);
    let rp20 = calculate_repurchase_price(20, 1000, 360);
    let rp50 = calculate_repurchase_price(50, 1000, 360);
    let expected_leaves = vec![
        ExitLeaf::TokenWithdrawal { recipient: b0.bidder, token: p.purchase_token, amount: 30 },
        ExitLeaf::RepurchaseObligation {
            debtor: b0.bidder,
            repurchase_amount: rp30,
            collateral_amount: 90,
        },
        ExitLeaf::TokenWithdrawal { recipient: b1.bidder, token: p.purchase_token, amount: 20 },
        ExitLeaf::RepurchaseObligation {
            debtor: b1.bidder,
            repurchase_amount: rp20,
            collateral_amount: 60,
        },
        ExitLeaf::RepoTokenWithdrawal { recipient: osub.offeror, amount: rp50 },
    ];
    assert_eq!(exit_root, hash_exit_root(&expected_leaves));
}

#[test]
fn test_invalid_reveal_refund() {
    // A reveal whose commitment does not match leaves the bid unrevealed;
    // the bidder is refunded the locked collateral as a single exit leaf.
    let p = params();
    let (sub, mut reveal) = revealed_bid(0, 5000, 100, 150);
    reveal.price = 4999;
    let (_, _, _, exit_root) = run_auction(
        &addr(1),
        &vec![sub],
        &Vec::new(),
        &vec![reveal],
        &Vec::new(),
        &p,
    );
    let leaf = ExitLeaf::TokenWithdrawal {
        recipient: sub.bidder,
        token: p.collateral_token,
        amount: 150,
    };
    assert_eq!(exit_root, leaf.hash());
}

#[test]
fn test_pipeline_determinism() {
    let p = params();
    let (b0, r0) = revealed_bid(0, 1200, 60, 100);
    let (b1, r1) = revealed_bid(1, 900, 40, 70);
    let (o0, q0) = revealed_offer(0, 800, 30);
    let (o1, q1) = revealed_offer(1, 1100, 50);
    let bids = vec![b0, b1];
    let offers = vec![o0, o1];
    let breveals = vec![r0, r1];
    let oreveals = vec![q0, q1];
    let first = run_auction(&addr(1), &bids, &offers, &breveals, &oreveals, &p);
    let second = run_auction(&addr(1), &bids, &offers, &breveals, &oreveals, &p);
    assert_eq!(first, second);
}

#[test]
fn test_chain_locality() {
    // Appending one event moves the chain digest to the hash of the previous
    // digest followed by the event's encoding.
    let start = zero_digest();
    let (s0, _) = revealed_bid(0, 1000, 10, 20);
    let (s1, _) = revealed_bid(1, 1100, 11, 21);
    let short = calculate_expected_hash_chain_output(&start, &vec![s0.encode()]);
    let long = calculate_expected_hash_chain_output(&start, &vec![s0.encode(), s1.encode()]);
    let mut appended = short.clone();
    appended = zkauction::types::add_to_hash_chain(&s1.encode(), &appended);
    assert_eq!(long, appended);
}

#[test]
fn test_resubmission_overwrites_before_reveal() {
    // A second submission for the same key overwrites the amounts and the
    // commitment; the reveal then binds to the new commitment.
    let p = params();
    let (mut sub, reveal) = revealed_bid(0, 1000, 100, 150);
    let old_commitment_sub = BidSubmission { amount: 1, collateral_amount: 2, ..sub };
    sub.amount = 100;
    let (_, _, _, root_direct) = run_auction(
        &addr(1),
        &vec![sub],
        &Vec::new(),
        &vec![BidReveal { ..reveal }],
        &Vec::new(),
        &p,
    );
    let (_, _, _, root_overwritten) = run_auction(
        &addr(1),
        &vec![old_commitment_sub, sub],
        &Vec::new(),
        &vec![BidReveal { ..reveal }],
        &Vec::new(),
        &p,
    );
    // The books end in the same state, so only the chain digests differ;
    // the exit roots agree.
    assert_eq!(root_direct, root_overwritten);
}

#[test]
fn test_largest_amounts() {
    // Amounts at the top of the range run through the whole pipeline
    // without overflow: two maximal bids against a maximal offer.
    let p = params();
    let (b0, r0) = revealed_bid(0, 1000, u64::MAX, u64::MAX);
    let (b1, r1) = revealed_bid(1, 1000, u64::MAX, u64::MAX);
    let (o0, q0) = revealed_offer(0, 1000, u64::MAX);
    let first = run_auction(
        &addr(1),
        &vec![b0, b1],
        &vec![o0],
        &vec![r0, r1],
        &vec![q0],
        &p,
    );
    let second = run_auction(
        &addr(1),
        &vec![b0, b1],
        &vec![o0],
        &vec![r0, r1],
        &vec![q0],
        &p,
    );
    assert_eq!(first, second);
    assert_ne!(first.3, vec![0u8; 32]);
}

#[test]
fn test_ordering_invariance_with_distinct_prices() {
    // Reordering the submission stream reorders the validated list; with
    // pairwise distinct prices the sorted books, and so the exit root, do
    // not change. Only the chain digests see the order.
    let p = params();
    let (b0, r0) = revealed_bid(0, 1200, 60, 100);
    let (b1, r1) = revealed_bid(1, 900, 40, 70);
    let (o0, q0) = revealed_offer(0, 800, 30);
    let a = run_auction(&addr(1), &vec![b0, b1], &vec![o0], &vec![r0, r1], &vec![q0], &p);
    let b = run_auction(&addr(1), &vec![b1, b0], &vec![o0], &vec![r1, r0], &vec![q0], &p);
    assert_eq!(a.3, b.3);
    assert_ne!(a.0, b.0);
}
