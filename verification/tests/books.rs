use zkauction::bids::{Bid, BidReveal, BidSubmission, Bids};
use zkauction::offers::{Offer, OfferReveal, OfferSubmission, Offers};
use zkauction::types::{
    calculate_expected_hash_chain_output, get_key, get_price_hash, zero_digest, Address,
    AuctionParameters, Digest, OrderKey,
};

fn addr(n: u32) -> Address {
    Address { hi: n, lo: 1000 + n as u128 }
}

fn params() -> AuctionParameters {
    AuctionParameters {
        purchase_token: addr(1),
        purchase_price: 1,
        collateral_token: addr(2),
        collateral_price: 1,
        day_count: 360,
    }
}

fn bid_submission(n: u32) -> BidSubmission {
    BidSubmission {
        bidder: addr(10 + n),
        id: 7 + n as u64,
        bid_price_hash: Digest { hi: 5 + n as u128, lo: 9 + n as u128 },
        amount: 100 + n as u64,
        collateral_amount: 150 + n as u64,
    }
}

fn offer_submission(n: u32) -> OfferSubmission {
    OfferSubmission {
        offeror: addr(20 + n),
        id: 3 + n as u64,
        offer_price_hash: Digest { hi: 15 + n as u128, lo: 19 + n as u128 },
        amount: 100 + n as u64,
    }
}

#[test]
fn test_bid_from_order_submission() {
    let s = bid_submission(0);
    let bid = Bid::from_order_submission(&s);
    assert_eq!(bid.bidder, s.bidder);
    assert_eq!(bid.id, s.id);
    assert_eq!(bid.bid_price_hash, s.bid_price_hash);
    assert_eq!(bid.amount, s.amount);
    assert_eq!(bid.collateral_amount, s.collateral_amount);
    assert_eq!(bid.bid_price_revealed, 0);
    assert!(!bid.is_revealed);
}

#[test]
fn test_bid_update_from_order_submission() {
    let s = bid_submission(0);
    let mut bid = Bid::from_order_submission(&s);
    let s2 = bid_submission(1);
    bid.update_from_order_submission(&s2);
    assert_eq!(bid.amount, s2.amount);
    assert_eq!(bid.collateral_amount, s2.collateral_amount);
    assert_eq!(bid.bid_price_hash, s2.bid_price_hash);
    assert_eq!(bid.bidder, s.bidder);
}

#[test]
fn test_bid_update_from_order_reveal() {
    // Valid reveal.
    let price: u64 = 5000;
    let nonce: u128 = 777;
    let mut s = bid_submission(0);
    s.bid_price_hash = get_price_hash(price, nonce);
    let key = get_key(&s.bidder, s.id);
    let mut bid = Bid::from_order_submission(&s);
    bid.update_from_order_reveal(&BidReveal { order_id: key, price, nonce });
    assert_eq!(bid.bid_price_revealed, price);
    assert!(bid.is_revealed);

    // Reveal whose commitment does not match.
    let mut bid = Bid::from_order_submission(&s);
    bid.update_from_order_reveal(&BidReveal { order_id: key, price: 4999, nonce });
    assert_eq!(bid.bid_price_revealed, 0);
    assert!(!bid.is_revealed);

    // Valid commitment but out-of-bounds price.
    let big: u64 = 1_000_001;
    let mut s2 = bid_submission(0);
    s2.bid_price_hash = get_price_hash(big, nonce);
    let mut bid = Bid::from_order_submission(&s2);
    bid.update_from_order_reveal(&BidReveal { order_id: key, price: big, nonce });
    assert_eq!(bid.bid_price_revealed, 0);
    assert!(!bid.is_revealed);
}

#[test]
fn test_bid_is_valid() {
    let p = params();
    let mut bid = Bid::from_order_submission(&bid_submission(0));
    bid.amount = 100;
    bid.collateral_amount = 150;
    bid.is_revealed = true;
    bid.bid_price_revealed = 5000;
    assert!(bid.is_valid(&p));

    let mut non_revealed = bid;
    non_revealed.is_revealed = false;
    assert!(!non_revealed.is_valid(&p));

    let mut undercollateralized = bid;
    undercollateralized.collateral_amount = 149;
    assert!(!undercollateralized.is_valid(&p));
}

#[test]
fn test_bid_to_exit_leaf() {
    let p = params();
    let bid = Bid::from_order_submission(&bid_submission(0));
    let leaf = bid.to_exit_leaf(&p);
    match leaf {
        zkauction::exit_tree::ExitLeaf::TokenWithdrawal { recipient, token, amount } => {
            assert_eq!(recipient, bid.bidder);
            assert_eq!(token, p.collateral_token);
            assert_eq!(amount, bid.collateral_amount as u128);
        },
        _ => panic!("wrong exit leaf variant"),
    }
}

#[test]
fn test_save_or_update_bid() {
    let mut bids = Bids::new();
    let mut s = bid_submission(0);

    // Saves the bid if new.
    bids.save_or_update_order(&s);
    assert_eq!(bids.len(), 1);
    let stored = bids.order_at(0);
    assert_eq!(stored.bidder, s.bidder);
    assert_eq!(stored.amount, s.amount);

    // Updates the bid if it already exists.
    s.bid_price_hash = Digest { hi: 42, lo: 43 };
    s.amount = 321;
    s.collateral_amount = 654;
    bids.save_or_update_order(&s);
    assert_eq!(bids.len(), 1);
    let stored = bids.order_at(0);
    assert_eq!(stored.amount, 321);
    assert_eq!(stored.collateral_amount, 654);
    assert_eq!(stored.bid_price_hash, Digest { hi: 42, lo: 43 });

    // Deletes the bid if the collateral amount is zero.
    s.collateral_amount = 0;
    bids.save_or_update_order(&s);
    assert_eq!(bids.len(), 0);
}

#[test]
fn test_order_submissions_hash_chain() {
    let start = zero_digest();
    let subs: Vec<BidSubmission> = (0..42).map(bid_submission).collect();
    let encoded: Vec<Vec<u8>> = subs.iter().map(|s| s.encode()).collect();
    let expected = calculate_expected_hash_chain_output(&start, &encoded);

    let mut bids = Bids::new();
    let output = zkauction::bids::submissions_hash_chain(&subs, &start, &mut bids);
    assert_eq!(output, expected);
    assert_eq!(bids.len(), 42);
}

#[test]
fn test_order_reveals_hash_chain() {
    let start = zero_digest();
    let mut subs: Vec<BidSubmission> = Vec::new();
    let mut reveals: Vec<BidReveal> = Vec::new();
    for n in 0..42u32 {
        let price = 100 + n as u64;
        let nonce = 999 + n as u128;
        let mut s = bid_submission(n);
        s.bid_price_hash = get_price_hash(price, nonce);
        reveals.push(BidReveal { order_id: get_key(&s.bidder, s.id), price, nonce });
        subs.push(s);
    }
    let enc_subs: Vec<Vec<u8>> = subs.iter().map(|s| s.encode()).collect();
    let enc_revs: Vec<Vec<u8>> = reveals.iter().map(|r| r.encode()).collect();
    let mid = calculate_expected_hash_chain_output(&start, &enc_subs);
    let expected = calculate_expected_hash_chain_output(&mid, &enc_revs);

    let mut bids = Bids::new();
    let out = zkauction::bids::submissions_hash_chain(&subs, &start, &mut bids);
    let out = zkauction::bids::reveals_hash_chain(&reveals, &out, &mut bids);
    assert_eq!(out, expected);
    for i in 0..bids.len() {
        assert!(bids.order_at(i).is_revealed);
    }
}

#[test]
fn offers_test_order_submissions_hash_chain() {
    let start = zero_digest();
    let subs: Vec<OfferSubmission> = (0..42).map(offer_submission).collect();
    let encoded: Vec<Vec<u8>> = subs.iter().map(|s| s.encode()).collect();
    let expected = calculate_expected_hash_chain_output(&start, &encoded);

    let mut offers = Offers::new();
    let output = zkauction::offers::submissions_hash_chain(&subs, &start, &mut offers);
    assert_eq!(output, expected);
    assert_eq!(offers.len(), 42);
}

#[test]
fn offers_test_order_reveals_hash_chain() {
    let start = zero_digest();
    let mut subs: Vec<OfferSubmission> = Vec::new();
    let mut reveals: Vec<OfferReveal> = Vec::new();
    for n in 0..42u32 {
        let price = 100 + n as u64;
        let nonce = 31 + n as u128;
        let mut s = offer_submission(n);
        s.offer_price_hash = get_price_hash(price, nonce);
        reveals.push(OfferReveal { order_id: get_key(&s.offeror, s.id), price, nonce });
        subs.push(s);
    }
    let enc_subs: Vec<Vec<u8>> = subs.iter().map(|s| s.encode()).collect();
    let enc_revs: Vec<Vec<u8>> = reveals.iter().map(|r| r.encode()).collect();
    let mid = calculate_expected_hash_chain_output(&start, &enc_subs);
    let expected = calculate_expected_hash_chain_output(&mid, &enc_revs);

    let mut offers = Offers::new();
    let out = zkauction::offers::submissions_hash_chain(&subs, &start, &mut offers);
    let out = zkauction::offers::reveals_hash_chain(&reveals, &out, &mut offers);
    assert_eq!(out, expected);
}

#[test]
fn test_validated_bids_sort_orders() {
    let mut bids: Vec<Bid> = vec![
        Bid { bid_price_revealed: 300, ..Bid::from_order_submission(&bid_submission(0)) },
        Bid { bid_price_revealed: 100, ..Bid::from_order_submission(&bid_submission(1)) },
        Bid { bid_price_revealed: 200, ..Bid::from_order_submission(&bid_submission(2)) },
    ];
    zkauction::bids::sort_orders(&mut bids);
    assert!(bids[0].bid_price_revealed <= bids[1].bid_price_revealed);
    assert!(bids[1].bid_price_revealed <= bids[2].bid_price_revealed);
}

#[test]
fn test_validated_offers_sort_orders() {
    let mut offers: Vec<Offer> = vec![
        Offer { offer_price_revealed: 900, ..Offer::from_order_submission(&offer_submission(0)) },
        Offer { offer_price_revealed: 800, ..Offer::from_order_submission(&offer_submission(1)) },
    ];
    zkauction::offers::sort_orders(&mut offers);
    assert!(offers[0].offer_price_revealed <= offers[1].offer_price_revealed);
}

#[test]
fn test_validated_bids_unlock_outstanding_orders() {
    let mut allocations = zkauction::allocations::BidderAllocations::new();
    let mut bid = Bid::from_order_submission(&bid_submission(0));
    bid.is_revealed = true;
    let bids = vec![bid];
    zkauction::bids::unlock_outstanding_orders(&bids, &mut allocations);
    assert_eq!(allocations.len(), 1);
    assert_eq!(
        allocations.get_allocation(&bid.bidder).collateral_amount,
        bid.collateral_amount as u128
    );
}

#[test]
fn test_offer_from_order_submission() {
    let s = offer_submission(0);
    let offer = Offer::from_order_submission(&s);
    assert_eq!(offer.offeror, s.offeror);
    assert_eq!(offer.id, s.id);
    assert_eq!(offer.offer_price_hash, s.offer_price_hash);
    assert_eq!(offer.amount, s.amount);
    assert!(!offer.is_revealed);
}

#[test]
fn test_offer_update_from_order_submission() {
    let s = offer_submission(0);
    let mut offer = Offer::from_order_submission(&s);
    let s2 = offer_submission(1);
    offer.update_from_order_submission(&s2);
    assert_eq!(offer.amount, s2.amount);
    assert_eq!(offer.offer_price_hash, s2.offer_price_hash);
}

#[test]
fn test_offer_update_from_order_reveal() {
    let price: u64 = 4000;
    let nonce: u128 = 888;
    let mut s = offer_submission(0);
    s.offer_price_hash = get_price_hash(price, nonce);
    let key = get_key(&s.offeror, s.id);
    let mut offer = Offer::from_order_submission(&s);
    offer.update_from_order_reveal(&OfferReveal { order_id: key, price, nonce });
    assert_eq!(offer.offer_price_revealed, price);
    assert!(offer.is_revealed);

    let mut offer = Offer::from_order_submission(&s);
    offer.update_from_order_reveal(&OfferReveal { order_id: key, price: 1, nonce });
    assert!(!offer.is_revealed);
    assert_eq!(offer.offer_price_revealed, 0);
}

#[test]
fn test_offer_is_valid() {
    let p = params();
    let mut offer = Offer::from_order_submission(&offer_submission(0));
    assert!(!offer.is_valid(&p));
    offer.is_revealed = true;
    assert!(offer.is_valid(&p));
}

#[test]
fn test_offer_to_exit_leaf() {
    let p = params();
    let offer = Offer::from_order_submission(&offer_submission(0));
    let leaf = offer.to_exit_leaf(&p);
    match leaf {
        zkauction::exit_tree::ExitLeaf::TokenWithdrawal { recipient, token, amount } => {
            assert_eq!(recipient, offer.offeror);
            assert_eq!(token, p.purchase_token);
            assert_eq!(amount, offer.amount as u128);
        },
        _ => panic!("wrong exit leaf variant"),
    }
}

#[test]
fn test_save_or_update_offer() {
    let mut offers = Offers::new();
    let mut s = offer_submission(0);

    offers.save_or_update_order(&s);
    assert_eq!(offers.len(), 1);

    s.amount = 777;
    offers.save_or_update_order(&s);
    assert_eq!(offers.len(), 1);
    assert_eq!(offers.order_at(0).amount, 777);

    s.amount = 0;
    offers.save_or_update_order(&s);
    assert_eq!(offers.len(), 0);
}

#[test]
fn test_book_iteration_is_key_ordered() {
    let mut bids = Bids::new();
    for n in [5u32, 1, 3, 2, 4] {
        bids.save_or_update_order(&bid_submission(n));
    }
    for i in 1..bids.len() {
        let a = bids.order_at(i - 1);
        let b = bids.order_at(i);
        let ka = OrderKey { address: a.bidder, id: a.id };
        let kb = OrderKey { address: b.bidder, id: b.id };
        assert!(zkauction::types::key_less(&ka, &kb));
    }
}

#[test]
fn test_reveal_for_unknown_key_is_ignored() {
    let mut bids = Bids::new();
    let s = bid_submission(0);
    bids.save_or_update_order(&s);
    let unknown = get_key(&addr(99), 12345);
    bids.apply_reveal(&BidReveal { order_id: unknown, price: 100, nonce: 1 });
    assert_eq!(bids.len(), 1);
    assert!(!bids.order_at(0).is_revealed);
}
