pub mod allocations;
pub mod auction;
pub mod bids;
pub mod encode;
pub mod exit_tree;
pub mod lean_imt;
pub mod offers;
pub mod precompiles;
pub mod types;

use vstd::prelude::*;

verus! {

/// Basis points: the denominator of all percentage quantities.
pub const BPS: u64 = 10_000;

/// Largest price, in basis points, that a reveal may carry for a bid.
pub const MAX_BID_PRICE: u64 = 1_000_000;

/// Largest price, in basis points, that a reveal may carry for an offer.
pub const MAX_OFFER_PRICE: u64 = 1_000_000;

/// Required initial collateralization, in basis points.
pub const INITIAL_COLLATERAL_RATIO: u64 = 15_000;

/// Day-count denominator of the term fraction (360-day convention).
pub const DAYS_IN_YEAR: u64 = 360;

} // verus!


use crate::allocations::{
    all_exit_leaves, Allocations, BidderAllocation, OfferorAllocation, ProverAllocation,
};
use crate::auction::{
    assign_bids, assign_bids_spec, assign_offers, assign_offers_spec, clearing_price_spec,
    compute_clearing_price, max_assignable_spec,
};
use crate::bids::{
    apply_bid_reveals, apply_bid_submissions, bid_reveals_bytes, bid_submissions_bytes,
    filter_valid_bids, lemma_sort_bids_members, refund_unvalidated_bids, sort_bids_by_price,
    unlock_bids_spec, Bid, BidReveal, BidSubmission, Bids,
};
use crate::exit_tree::{exit_leaf_hashes, hash_exit_root, ExitLeaf};
use crate::lean_imt::root_spec;
use crate::offers::{
    apply_offer_reveals, apply_offer_submissions, filter_valid_offers, lemma_sort_offers_members,
    offer_reveals_bytes, offer_submissions_bytes, refund_unvalidated_offers, sort_offers_by_price,
    unlock_offers_spec, Offer, OfferReveal, OfferSubmission, Offers,
};
use crate::precompiles::keccak_spec;
use crate::types::{
    auction_parameters_bytes, chain_digest, zero_digest, zero_digest_spec, Address,
    AuctionParameters,
};

verus! {

/// The final bid book after replaying the submission and reveal streams.
pub open spec fn final_bid_book(subs: Seq<BidSubmission>, reveals: Seq<BidReveal>) -> Seq<Bid> {
    apply_bid_reveals(apply_bid_submissions(Seq::empty(), subs), reveals)
}

/// The final offer book after replaying the submission and reveal streams.
pub open spec fn final_offer_book(
    subs: Seq<OfferSubmission>,
    reveals: Seq<OfferReveal>,
) -> Seq<Offer> {
    apply_offer_reveals(apply_offer_submissions(Seq::empty(), subs), reveals)
}

/// The bidder allocations at the end of the auction: refunds for bids that
/// failed validation, then either the assignment at the clearing price or,
/// in a non-intersecting market, a full unlock of the validated bids.
pub open spec fn final_bidder_allocations(
    subs: Seq<BidSubmission>,
    reveals: Seq<BidReveal>,
    offer_subs: Seq<OfferSubmission>,
    offer_reveals: Seq<OfferReveal>,
    params: AuctionParameters,
) -> Seq<(Address, BidderAllocation)> {
    let book = final_bid_book(subs, reveals);
    let vb = sort_bids_by_price(filter_valid_bids(book, params));
    let vo = sort_offers_by_price(
        filter_valid_offers(final_offer_book(offer_subs, offer_reveals), params),
    );
    let m0 = refund_unvalidated_bids(Seq::empty(), book, params);
    if market_intersects(vb, vo) {
        let clearing = clearing_price_spec(vb, vo) as u64;
        assign_bids_spec(
            m0,
            vb,
            vb.len() as int,
            0,
            max_assignable_spec(vb, vo, clearing),
            clearing,
            params.day_count,
        )
    } else {
        unlock_bids_spec(m0, vb)
    }
}

/// The offeror allocations at the end of the auction.
pub open spec fn final_offeror_allocations(
    subs: Seq<BidSubmission>,
    reveals: Seq<BidReveal>,
    offer_subs: Seq<OfferSubmission>,
    offer_reveals: Seq<OfferReveal>,
    params: AuctionParameters,
) -> Seq<(Address, OfferorAllocation)> {
    let book = final_offer_book(offer_subs, offer_reveals);
    let vb = sort_bids_by_price(filter_valid_bids(final_bid_book(subs, reveals), params));
    let vo = sort_offers_by_price(filter_valid_offers(book, params));
    let m0 = refund_unvalidated_offers(Seq::empty(), book, params);
    if market_intersects(vb, vo) {
        let clearing = clearing_price_spec(vb, vo) as u64;
        assign_offers_spec(
            m0,
            vo,
            0,
            0,
            max_assignable_spec(vb, vo, clearing),
            clearing,
            params.day_count,
        )
    } else {
        unlock_offers_spec(m0, vo)
    }
}

/// Whether the sorted validated books intersect: both sides are populated and
/// the best bid meets the best offer.
pub open spec fn market_intersects(vb: Seq<Bid>, vo: Seq<Offer>) -> bool {
    vb.len() > 0 && vo.len() > 0 && vb[vb.len() - 1].bid_price_revealed
        >= vo[0].offer_price_revealed
}

/// The exit leaves of the whole auction, in their fixed order.
pub open spec fn run_auction_leaves(
    prover: Address,
    subs: Seq<BidSubmission>,
    reveals: Seq<BidReveal>,
    offer_subs: Seq<OfferSubmission>,
    offer_reveals: Seq<OfferReveal>,
    params: AuctionParameters,
) -> Seq<ExitLeaf> {
    all_exit_leaves(
        ProverAllocation { prover_address: prover, purchase_amount: 0 },
        final_bidder_allocations(subs, reveals, offer_subs, offer_reveals, params),
        final_offeror_allocations(subs, reveals, offer_subs, offer_reveals, params),
        params,
    )
}

/// The four digests of one auction run: the bid chain, the offer chain, the
/// parameters hash and the exit root.
pub open spec fn run_auction_spec(
    prover: Address,
    subs: Seq<BidSubmission>,
    offer_subs: Seq<OfferSubmission>,
    reveals: Seq<BidReveal>,
    offer_reveals: Seq<OfferReveal>,
    params: AuctionParameters,
) -> (Seq<u8>, Seq<u8>, Seq<u8>, Seq<u8>) {
    (
        chain_digest(
            chain_digest(zero_digest_spec(), bid_submissions_bytes(subs)),
            bid_reveals_bytes(reveals),
        ),
        chain_digest(
            chain_digest(zero_digest_spec(), offer_submissions_bytes(offer_subs)),
            offer_reveals_bytes(offer_reveals),
        ),
        keccak_spec(auction_parameters_bytes(params)),
        root_spec(exit_leaf_hashes(run_auction_leaves(
            prover,
            subs,
            reveals,
            offer_subs,
            offer_reveals,
            params,
        ))),
    )
}

/// Executes the deterministic auction pipeline: replays the submission and
/// reveal streams into the books while folding the hash chains, validates
/// and sorts both books, clears and assigns the market (or unlocks every
/// validated order when it does not intersect), and commits to the resulting
/// allocations by the exit root.
///
/// Returns the bid chain digest, the offer chain digest, the parameters
/// digest and the exit root.
pub fn run_auction(
    prover_address: &Address,
    bid_submissions: &Vec<BidSubmission>,
    offer_submissions: &Vec<OfferSubmission>,
    bid_reveals: &Vec<BidReveal>,
    offer_reveals: &Vec<OfferReveal>,
    auction_parameters: &AuctionParameters,
) -> (r: (Vec<u8>, Vec<u8>, Vec<u8>, Vec<u8>))
    ensures
        r.0@ == run_auction_spec(
            *prover_address,
            bid_submissions@,
            offer_submissions@,
            bid_reveals@,
            offer_reveals@,
            *auction_parameters,
        ).0,
        r.1@ == run_auction_spec(
            *prover_address,
            bid_submissions@,
            offer_submissions@,
            bid_reveals@,
            offer_reveals@,
            *auction_parameters,
        ).1,
        r.2@ == run_auction_spec(
            *prover_address,
            bid_submissions@,
            offer_submissions@,
            bid_reveals@,
            offer_reveals@,
            *auction_parameters,
        ).2,
        r.3@ == run_auction_spec(
            *prover_address,
            bid_submissions@,
            offer_submissions@,
            bid_reveals@,
            offer_reveals@,
            *auction_parameters,
        ).3,
{
    let zero = zero_digest();
    let mut bids = Bids::new();
    let acc0 = crate::bids::submissions_hash_chain(bid_submissions, &zero, &mut bids);
    let acc_bids_hash = crate::bids::reveals_hash_chain(bid_reveals, &acc0, &mut bids);

    let mut offers = Offers::new();
    let acc1 = crate::offers::submissions_hash_chain(offer_submissions, &zero, &mut offers);
    let acc_offers_hash = crate::offers::reveals_hash_chain(offer_reveals, &acc1, &mut offers);

    let tokens_hash = auction_parameters.hash();

    let mut auction_results = Allocations::new(prover_address);

    let ghost bid_book = bids@;
    let ghost offer_book = offers@;
    let mut validated_bids = bids.into_validated_orders(
        auction_parameters,
        &mut auction_results.bidder_allocations,
    );
    let mut validated_offers = offers.into_validated_orders(
        auction_parameters,
        &mut auction_results.offeror_allocations,
    );

    crate::bids::sort_orders(&mut validated_bids);
    crate::offers::sort_orders(&mut validated_offers);
    proof {
        lemma_sort_bids_members(filter_valid_bids(bid_book, *auction_parameters));
        lemma_sort_offers_members(filter_valid_offers(offer_book, *auction_parameters));
        assert(forall|i: int| 0 <= i < validated_bids@.len()
            ==> (#[trigger] validated_bids@[i]).bid_price_revealed <= MAX_BID_PRICE);
        assert(forall|i: int| 0 <= i < validated_offers@.len()
            ==> (#[trigger] validated_offers@[i]).offer_price_revealed <= MAX_OFFER_PRICE);
    }

    if validated_bids.len() > 0 && validated_offers.len() > 0
        && validated_bids[validated_bids.len() - 1].bid_price_revealed
            >= validated_offers[0].offer_price_revealed {
        let (clearing_price, max_assignable) = compute_clearing_price(
            &validated_bids,
            &validated_offers,
        );
        assign_bids(
            &validated_bids,
            max_assignable,
            clearing_price,
            auction_parameters.day_count,
            &mut auction_results.bidder_allocations,
        );
        assign_offers(
            &validated_offers,
            max_assignable,
            clearing_price,
            auction_parameters.day_count,
            &mut auction_results.offeror_allocations,
        );
    } else {
        crate::bids::unlock_outstanding_orders(
            &validated_bids,
            &mut auction_results.bidder_allocations,
        );
        crate::offers::unlock_outstanding_orders(
            &validated_offers,
            &mut auction_results.offeror_allocations,
        );
    }

    let mut exit_leaves: Vec<ExitLeaf> = Vec::new();
    auction_results.into_exit_leaves(auction_parameters, &mut exit_leaves);
    proof {
        assert(exit_leaves@ =~= run_auction_leaves(
            *prover_address,
            bid_submissions@,
            bid_reveals@,
            offer_submissions@,
            offer_reveals@,
            *auction_parameters,
        ));
    }

    let auction_result_root = hash_exit_root(&exit_leaves);

    (acc_bids_hash, acc_offers_hash, tokens_hash, auction_result_root)
}

/// Determinism: two runs of the pipeline on identical inputs produce
/// identical digests. Every component of the result is a function of the
/// inputs alone.
pub proof fn lemma_run_auction_deterministic(
    prover: Address,
    subs: Seq<BidSubmission>,
    offer_subs: Seq<OfferSubmission>,
    reveals: Seq<BidReveal>,
    offer_reveals: Seq<OfferReveal>,
    params: AuctionParameters,
    r1: (Seq<u8>, Seq<u8>, Seq<u8>, Seq<u8>),
    r2: (Seq<u8>, Seq<u8>, Seq<u8>, Seq<u8>),
)
    requires
        r1 == run_auction_spec(prover, subs, offer_subs, reveals, offer_reveals, params),
        r2 == run_auction_spec(prover, subs, offer_subs, reveals, offer_reveals, params),
    ensures
        r1 == r2,
{
}

} // verus!
