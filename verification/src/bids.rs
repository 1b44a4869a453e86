//! Bids: submissions, reveals, the bid book, validation and sorting.
use vstd::prelude::*;

use crate::allocations::{
    bidder_map_wf, bidder_upsert, bidder_lookup, lemma_bidder_upsert_wf, sat_add,
    BidderAllocation, BidderAllocations,
};
use crate::encode::{be_bytes, clone_bytes, push_be_bytes};
use crate::exit_tree::ExitLeaf;
use crate::types::{
    address_bytes, chain_digest, digest_bytes, get_key, key_less, key_lt,
    lemma_chain_digest_push, lemma_digest_bytes_injective, order_key_bytes, price_hash_spec,
    push_address_bytes, push_digest_bytes, push_order_key_bytes, Address, AuctionParameters,
    Digest, OrderKey,
};
use crate::{BPS, INITIAL_COLLATERAL_RATIO, MAX_BID_PRICE};

verus! {

/// A bid submission as posted onchain: an order to borrow against collateral.
#[derive(Clone, Copy, PartialEq, Eq, Structural, Debug)]
pub struct BidSubmission {
    /// The bidder's address.
    pub bidder: Address,
    /// Together with `bidder`, the unique identifier of the bid.
    pub id: u64,
    /// The price commitment: the hash of the hidden price and a nonce.
    pub bid_price_hash: Digest,
    /// The amount of purchase tokens asked to borrow.
    pub amount: u64,
    /// The amount of collateral tokens locked onchain.
    pub collateral_amount: u64,
}

/// The 128-byte packed encoding of a bid submission.
pub open spec fn bid_submission_bytes(s: BidSubmission) -> Seq<u8> {
    address_bytes(s.bidder) + be_bytes(s.id as nat, 12) + digest_bytes(s.bid_price_hash)
        + be_bytes(s.amount as nat, 32) + be_bytes(s.collateral_amount as nat, 32)
}

impl BidSubmission {
    /// The packed encoding of the submission.
    pub fn encode(&self) -> (r: Vec<u8>)
        ensures
            r@ == bid_submission_bytes(*self),
    {
        let mut out: Vec<u8> = Vec::new();
        push_address_bytes(&mut out, &self.bidder);
        push_be_bytes(&mut out, self.id as u128, 12);
        push_digest_bytes(&mut out, &self.bid_price_hash);
        push_be_bytes(&mut out, self.amount as u128, 32);
        push_be_bytes(&mut out, self.collateral_amount as u128, 32);
        proof {
            assert(out@ =~= bid_submission_bytes(*self));
        }
        out
    }
}

/// A bid reveal as posted onchain: the disclosed price and nonce for a key.
#[derive(Clone, Copy, PartialEq, Eq, Structural, Debug)]
pub struct BidReveal {
    /// The key of the bid being revealed.
    pub order_id: OrderKey,
    /// The disclosed price, in basis points.
    pub price: u64,
    /// The nonce that blinded the price commitment.
    pub nonce: u128,
}

/// The 96-byte packed encoding of a bid reveal.
pub open spec fn bid_reveal_bytes(r: BidReveal) -> Seq<u8> {
    order_key_bytes(r.order_id) + be_bytes(r.price as nat, 32) + be_bytes(r.nonce as nat, 32)
}

impl BidReveal {
    /// The packed encoding of the reveal.
    pub fn encode(&self) -> (r: Vec<u8>)
        ensures
            r@ == bid_reveal_bytes(*self),
    {
        let mut out: Vec<u8> = Vec::new();
        push_order_key_bytes(&mut out, &self.order_id);
        push_be_bytes(&mut out, self.price as u128, 32);
        push_be_bytes(&mut out, self.nonce, 32);
        proof {
            assert(out@ =~= bid_reveal_bytes(*self));
        }
        out
    }
}

/// A bid held in the book.
#[derive(Clone, Copy, PartialEq, Eq, Structural, Debug)]
pub struct Bid {
    /// Together with `bidder`, the unique identifier of the bid.
    pub id: u64,
    /// The bidder's address.
    pub bidder: Address,
    /// The price commitment posted at submission time.
    pub bid_price_hash: Digest,
    /// The price disclosed in the reveal phase; zero until a valid reveal.
    pub bid_price_revealed: u64,
    /// The amount of purchase tokens asked to borrow.
    pub amount: u64,
    /// The amount of collateral tokens locked onchain.
    pub collateral_amount: u64,
    /// Whether a valid reveal has been applied.
    pub is_revealed: bool,
}

/// The key under which a bid is held in the book.
pub open spec fn bid_key(b: Bid) -> OrderKey {
    OrderKey { address: b.bidder, id: b.id }
}

/// A well-formed bid: a revealed price within bounds, and no revealed price
/// before a valid reveal.
pub open spec fn bid_wf(b: Bid) -> bool {
    &&& b.bid_price_revealed <= MAX_BID_PRICE
    &&& (!b.is_revealed ==> b.bid_price_revealed == 0)
}

/// The bid created from a fresh submission.
pub open spec fn new_bid(s: BidSubmission) -> Bid {
    Bid {
        id: s.id,
        bidder: s.bidder,
        bid_price_hash: s.bid_price_hash,
        bid_price_revealed: 0,
        amount: s.amount,
        collateral_amount: s.collateral_amount,
        is_revealed: false,
    }
}

/// An existing bid overwritten by a new submission: the amounts and the
/// commitment change; the reveal state does not.
pub open spec fn merge_bid(b: Bid, s: BidSubmission) -> Bid {
    Bid {
        amount: s.amount,
        collateral_amount: s.collateral_amount,
        bid_price_hash: s.bid_price_hash,
        ..b
    }
}

/// A bid after a reveal: the price is recorded iff the commitment matches and
/// the price is within bounds; otherwise the bid is unchanged.
pub open spec fn reveal_bid(b: Bid, r: BidReveal) -> Bid {
    if price_hash_spec(r.price, r.nonce) == digest_bytes(b.bid_price_hash)
        && r.price <= MAX_BID_PRICE {
        Bid { bid_price_revealed: r.price, is_revealed: true, ..b }
    } else {
        b
    }
}

/// A bid is valid iff it was revealed and the collateralization check holds:
/// the collateral value, in basis points, covers the purchase value at the
/// initial collateral ratio.
pub open spec fn bid_is_valid_spec(b: Bid, p: AuctionParameters) -> bool {
    &&& b.is_revealed
    &&& (b.collateral_amount * p.collateral_price) * BPS >= (b.amount * p.purchase_price)
        * INITIAL_COLLATERAL_RATIO
}

impl Bid {
    /// Creates a new bid from a submission.
    pub fn from_order_submission(s: &BidSubmission) -> (r: Bid)
        ensures
            r == new_bid(*s),
    {
        Bid {
            id: s.id,
            bidder: s.bidder,
            bid_price_hash: s.bid_price_hash,
            bid_price_revealed: 0,
            amount: s.amount,
            collateral_amount: s.collateral_amount,
            is_revealed: false,
        }
    }

    /// Overwrites the bid with a new submission for the same key.
    pub fn update_from_order_submission(&mut self, s: &BidSubmission)
        ensures
            *final(self) == merge_bid(*old(self), *s),
    {
        self.amount = s.amount;
        self.collateral_amount = s.collateral_amount;
        self.bid_price_hash = s.bid_price_hash;
    }

    /// Applies a reveal: records the price iff the commitment matches and the
    /// price is within bounds.
    pub fn update_from_order_reveal(&mut self, r: &BidReveal)
        ensures
            *final(self) == reveal_bid(*old(self), *r),
    {
        let computed = crate::types::get_price_hash(r.price, r.nonce);
        proof {
            lemma_digest_bytes_injective(computed, old(self).bid_price_hash);
        }
        if computed == self.bid_price_hash && r.price <= MAX_BID_PRICE {
            self.bid_price_revealed = r.price;
            self.is_revealed = true;
        }
    }

    /// Whether the bid is valid: revealed and sufficiently collateralized.
    pub fn is_valid(&self, p: &AuctionParameters) -> (r: bool)
        ensures
            r == bid_is_valid_spec(*self, *p),
    {
        if !self.is_revealed {
            return false;
        }
        proof {
            lemma_u64_mul_fits(self.collateral_amount, p.collateral_price);
            lemma_u64_mul_fits(self.amount, p.purchase_price);
        }
        let cv: u128 = (self.collateral_amount as u128) * (p.collateral_price as u128);
        let pv: u128 = (self.amount as u128) * (p.purchase_price as u128);
        let r = cv >= pv && (cv - pv) >= pv / 2 + pv % 2;
        proof {
            lemma_collateral_check(cv, pv);
        }
        r
    }

    /// The exit leaf refunding the bid's locked collateral to the bidder.
    pub fn to_exit_leaf(&self, p: &AuctionParameters) -> (r: ExitLeaf)
        ensures
            r == (ExitLeaf::TokenWithdrawal {
                recipient: self.bidder,
                token: p.collateral_token,
                amount: self.collateral_amount as u128,
            }),
    {
        ExitLeaf::TokenWithdrawal {
            recipient: self.bidder,
            token: p.collateral_token,
            amount: self.collateral_amount as u128,
        }
    }
}

/// The product of two 64-bit values fits in 128 bits.
pub proof fn lemma_u64_mul_fits(a: u64, b: u64)
    ensures
        a as int * b as int <= u128::MAX as int,
{
    assert(a as int * b as int <= u128::MAX as int) by (nonlinear_arith)
        requires
            a <= u64::MAX,
            b <= u64::MAX,
    ;
}

/// The collateralization comparison, rewritten without large products:
/// `cv * BPS >= pv * INITIAL_COLLATERAL_RATIO` iff `2 * cv >= 3 * pv`.
proof fn lemma_collateral_check(cv: u128, pv: u128)
    ensures
        (cv * BPS >= pv * INITIAL_COLLATERAL_RATIO) <==> (cv >= pv && cv - pv >= pv / 2 + pv % 2),
{
    assert((cv * BPS >= pv * INITIAL_COLLATERAL_RATIO) <==> (2 * cv >= 3 * pv)) by (nonlinear_arith);
    assert(pv == 2 * (pv / 2) + pv % 2);
    assert(pv % 2 == 0 || pv % 2 == 1);
}

/// The bid book: the live bids, held in ascending key order.
pub struct Bids {
    entries: Vec<Bid>,
}

/// A well-formed book: keys strictly ascending (so each key appears once and
/// iteration is key-ordered), every bid well formed, and no bid with zero
/// collateral.
pub open spec fn bid_book_wf(s: Seq<Bid>) -> bool {
    &&& forall|i: int, j: int|
        0 <= i < j < s.len() ==> key_lt(bid_key(#[trigger] s[i]), bid_key(#[trigger] s[j]))
    &&& forall|i: int| 0 <= i < s.len() ==> bid_wf(#[trigger] s[i])
    &&& forall|i: int| 0 <= i < s.len() ==> (#[trigger] s[i]).collateral_amount > 0
}

/// The first index at or after `i` whose key is not below `k`.
pub open spec fn bid_find(s: Seq<Bid>, k: OrderKey, i: int) -> int
    decreases s.len() - i,
{
    if i < 0 || i >= s.len() {
        s.len() as int
    } else if !key_lt(bid_key(s[i]), k) {
        i
    } else {
        bid_find(s, k, i + 1)
    }
}

pub proof fn lemma_bid_find_char(s: Seq<Bid>, k: OrderKey, i: int, p: int)
    requires
        0 <= i <= p <= s.len(),
        forall|j: int| i <= j < p ==> key_lt(bid_key(#[trigger] s[j]), k),
        p < s.len() ==> !key_lt(bid_key(s[p]), k),
    ensures
        bid_find(s, k, i) == p,
    decreases p - i,
{
    if i < p {
        lemma_bid_find_char(s, k, i + 1, p);
    }
}

pub proof fn lemma_bid_find_bounds(s: Seq<Bid>, k: OrderKey, i: int)
    requires
        0 <= i <= s.len(),
    ensures
        i <= bid_find(s, k, i) <= s.len(),
        forall|j: int| i <= j < bid_find(s, k, i) ==> key_lt(bid_key(#[trigger] s[j]), k),
        bid_find(s, k, i) < s.len() ==> !key_lt(bid_key(s[bid_find(s, k, i)]), k),
    decreases s.len() - i,
{
    if i < s.len() && key_lt(bid_key(s[i]), k) {
        lemma_bid_find_bounds(s, k, i + 1);
    }
}

/// The book after a submission: a zero-collateral submission deletes the key;
/// an existing key is overwritten; a new key is inserted in key order.
pub open spec fn save_or_update_bid(s: Seq<Bid>, sub: BidSubmission) -> Seq<Bid> {
    let k = OrderKey { address: sub.bidder, id: sub.id };
    let p = bid_find(s, k, 0);
    if sub.collateral_amount == 0 {
        if p < s.len() && bid_key(s[p]) == k {
            s.remove(p)
        } else {
            s
        }
    } else if p < s.len() && bid_key(s[p]) == k {
        s.update(p, merge_bid(s[p], sub))
    } else {
        s.insert(p, new_bid(sub))
    }
}

/// The book after a reveal: the entry at the reveal's key, if any, is updated
/// by `reveal_bid`; a reveal for an unknown key changes nothing.
pub open spec fn apply_bid_reveal(s: Seq<Bid>, r: BidReveal) -> Seq<Bid> {
    let p = bid_find(s, r.order_id, 0);
    if p < s.len() && bid_key(s[p]) == r.order_id {
        s.update(p, reveal_bid(s[p], r))
    } else {
        s
    }
}

/// Submissions preserve the book's well-formedness.
pub proof fn lemma_save_or_update_bid_wf(s: Seq<Bid>, sub: BidSubmission)
    requires
        bid_book_wf(s),
    ensures
        bid_book_wf(save_or_update_bid(s, sub)),
{
    let k = OrderKey { address: sub.bidder, id: sub.id };
    let p = bid_find(s, k, 0);
    lemma_bid_find_bounds(s, k, 0);
    let t = save_or_update_bid(s, sub);
    if sub.collateral_amount == 0 {
        if p < s.len() && bid_key(s[p]) == k {
            assert forall|i: int, j: int| 0 <= i < j < t.len() implies key_lt(
                bid_key(#[trigger] t[i]),
                bid_key(#[trigger] t[j]),
            ) by {
                assert(t[i] == if i < p { s[i] } else { s[i + 1] });
                assert(t[j] == if j < p { s[j] } else { s[j + 1] });
            }
        }
    } else if p < s.len() && bid_key(s[p]) == k {
        assert forall|i: int, j: int| 0 <= i < j < t.len() implies key_lt(
            bid_key(#[trigger] t[i]),
            bid_key(#[trigger] t[j]),
        ) by {
            assert(bid_key(t[i]) == bid_key(s[i]));
            assert(bid_key(t[j]) == bid_key(s[j]));
        }
    } else {
        assert forall|i: int, j: int| 0 <= i < j < t.len() implies key_lt(
            bid_key(#[trigger] t[i]),
            bid_key(#[trigger] t[j]),
        ) by {
            if i < p && j == p {
                assert(t[i] == s[i]);
            } else if i == p && j > p {
                assert(t[j] == s[j - 1]);
                if p < s.len() {
                    assert(!key_lt(bid_key(s[p]), k) && bid_key(s[p]) != k);
                    assert(key_lt(k, bid_key(s[p])));
                }
            }
        }
    }
}

/// Reveals preserve the book's well-formedness.
pub proof fn lemma_apply_bid_reveal_wf(s: Seq<Bid>, r: BidReveal)
    requires
        bid_book_wf(s),
    ensures
        bid_book_wf(apply_bid_reveal(s, r)),
{
    let p = bid_find(s, r.order_id, 0);
    lemma_bid_find_bounds(s, r.order_id, 0);
    let t = apply_bid_reveal(s, r);
    if p < s.len() && bid_key(s[p]) == r.order_id {
        let nb = reveal_bid(s[p], r);
        assert(t == s.update(p, nb));
        assert(bid_wf(s[p]) && s[p].collateral_amount > 0);
        assert(bid_key(nb) == bid_key(s[p]) && bid_wf(nb)
            && nb.collateral_amount == s[p].collateral_amount);
        assert forall|i: int, j: int| 0 <= i < j < t.len() implies key_lt(
            bid_key(#[trigger] t[i]),
            bid_key(#[trigger] t[j]),
        ) by {
            assert(bid_key(t[i]) == bid_key(s[i]));
            assert(bid_key(t[j]) == bid_key(s[j]));
        }
        assert forall|i: int| 0 <= i < t.len() implies bid_wf(#[trigger] t[i])
            && t[i].collateral_amount > 0 by {
            assert(t[i] == if i == p { nb } else { s[i] });
        }
    }
}

/// The book after a sequence of submissions, applied in stream order.
pub open spec fn apply_bid_submissions(s: Seq<Bid>, subs: Seq<BidSubmission>) -> Seq<Bid>
    decreases subs.len(),
{
    if subs.len() == 0 {
        s
    } else {
        save_or_update_bid(apply_bid_submissions(s, subs.drop_last()), subs.last())
    }
}

/// The book after a sequence of reveals, applied in stream order.
pub open spec fn apply_bid_reveals(s: Seq<Bid>, rs: Seq<BidReveal>) -> Seq<Bid>
    decreases rs.len(),
{
    if rs.len() == 0 {
        s
    } else {
        apply_bid_reveal(apply_bid_reveals(s, rs.drop_last()), rs.last())
    }
}

/// The encodings of a sequence of bid submissions.
pub open spec fn bid_submissions_bytes(subs: Seq<BidSubmission>) -> Seq<Seq<u8>> {
    subs.map_values(|s: BidSubmission| bid_submission_bytes(s))
}

/// The encodings of a sequence of bid reveals.
pub open spec fn bid_reveals_bytes(rs: Seq<BidReveal>) -> Seq<Seq<u8>> {
    rs.map_values(|r: BidReveal| bid_reveal_bytes(r))
}

impl View for Bids {
    type V = Seq<Bid>;

    closed spec fn view(&self) -> Seq<Bid> {
        self.entries@
    }
}

impl Bids {
    /// An empty book.
    pub fn new() -> (r: Self)
        ensures
            r@ == Seq::<Bid>::empty(),
            bid_book_wf(r@),
    {
        Bids { entries: Vec::new() }
    }

    /// The number of live bids.
    pub fn len(&self) -> (r: usize)
        ensures
            r == self@.len(),
    {
        self.entries.len()
    }

    /// The bid at iteration position `i`, in ascending key order.
    pub fn order_at(&self, i: usize) -> (r: Bid)
        requires
            i < self@.len(),
        ensures
            r == self@[i as int],
    {
        self.entries[i]
    }

    /// The position of the first entry whose key is not below `k`.
    fn find_index(&self, k: &OrderKey) -> (r: usize)
        ensures
            r == bid_find(self@, *k, 0),
    {
        let mut i: usize = 0;
        while i < self.entries.len()
            invariant
                i <= self@.len(),
                forall|j: int| 0 <= j < i ==> key_lt(bid_key(#[trigger] self@[j]), *k),
            decreases self@.len() - i,
        {
            let ghost pre = self@;
            let e_key = get_key(&self.entries[i].bidder, self.entries[i].id);
            if !key_less(&e_key, k) {
                proof {
                    lemma_bid_find_char(self@, *k, 0, i as int);
                }
                return i;
            }
            i += 1;
        }
        proof {
            lemma_bid_find_char(self@, *k, 0, self@.len() as int);
        }
        i
    }

    /// Saves, overwrites or deletes the bid named by the submission.
    pub fn save_or_update_order(&mut self, sub: &BidSubmission)
        ensures
            final(self)@ == save_or_update_bid(old(self)@, *sub),
    {
        let k = get_key(&sub.bidder, sub.id);
        let p = self.find_index(&k);
        proof {
            lemma_bid_find_bounds(old(self)@, k, 0);
        }
        if sub.collateral_amount == 0 {
            if p < self.entries.len() {
                let found_key = get_key(&self.entries[p].bidder, self.entries[p].id);
                if found_key == k {
                    self.entries.remove(p);
                }
            }
        } else if p < self.entries.len()
            && get_key(&self.entries[p].bidder, self.entries[p].id) == k {
            let mut b = self.entries.remove(p);
            b.update_from_order_submission(sub);
            self.entries.insert(p, b);
            proof {
                assert(self@ =~= old(self)@.update(p as int, merge_bid(old(self)@[p as int], *sub)));
            }
        } else {
            self.entries.insert(p, Bid::from_order_submission(sub));
        }
    }

    /// Applies a reveal to the bid it names, if that bid is in the book.
    pub fn apply_reveal(&mut self, r: &BidReveal)
        ensures
            final(self)@ == apply_bid_reveal(old(self)@, *r),
    {
        let p = self.find_index(&r.order_id);
        proof {
            lemma_bid_find_bounds(old(self)@, r.order_id, 0);
        }
        if p < self.entries.len()
            && get_key(&self.entries[p].bidder, self.entries[p].id) == r.order_id {
            let mut b = self.entries.remove(p);
            b.update_from_order_reveal(r);
            self.entries.insert(p, b);
            proof {
                assert(self@ =~= old(self)@.update(
                    p as int,
                    reveal_bid(old(self)@[p as int], *r),
                ));
            }
        }
    }

    /// Splits the book into the validated bids, returned in book order, and
    /// the rest, whose locked collateral is refunded to each bidder.
    pub fn into_validated_orders(
        self,
        params: &AuctionParameters,
        allocations: &mut BidderAllocations,
    ) -> (r: Vec<Bid>)
        requires
            bid_book_wf(self@),
            bidder_map_wf(old(allocations)@),
        ensures
            r@ == filter_valid_bids(self@, *params),
            final(allocations)@ == refund_unvalidated_bids(old(allocations)@, self@, *params),
            bidder_map_wf(final(allocations)@),
            forall|i: int| 0 <= i < r@.len() ==> bid_wf(#[trigger] r@[i])
                && r@[i].is_revealed && r@[i].collateral_amount > 0,
    {
        let ghost book = self@;
        let mut valid: Vec<Bid> = Vec::new();
        let mut i: usize = 0;
        let n = self.entries.len();
        while i < n
            invariant
                i <= n,
                n == book.len(),
                self@ == book,
                bid_book_wf(book),
                valid@ == filter_valid_bids(book.take(i as int), *params),
                allocations@ == refund_unvalidated_bids(old(allocations)@, book.take(i as int), *params),
                bidder_map_wf(allocations@),
                forall|j: int| 0 <= j < valid@.len() ==> bid_wf(#[trigger] valid@[j])
                    && valid@[j].is_revealed && valid@[j].collateral_amount > 0,
            decreases n - i,
        {
            let b = self.entries[i];
            proof {
                assert(b == book[i as int]);
                assert(book.take(i + 1).drop_last() =~= book.take(i as int));
                assert(book.take(i + 1).last() == book[i as int]);
            }
            if b.is_valid(params) {
                valid.push(b);
            } else {
                proof {
                    lemma_bidder_upsert_wf(
                        allocations@,
                        b.bidder,
                        (BidderAllocation {
                            collateral_amount: sat_add(
                                bidder_lookup(allocations@, b.bidder).collateral_amount,
                                b.collateral_amount as u128,
                            ),
                            ..bidder_lookup(allocations@, b.bidder)
                        }),
                    );
                }
                allocations.add_collateral(&b.bidder, b.collateral_amount as u128);
            }
            i += 1;
        }
        proof {
            assert(book.take(n as int) =~= book);
        }
        valid
    }
}

/// The validated bids of a book, in book order.
pub open spec fn filter_valid_bids(s: Seq<Bid>, p: AuctionParameters) -> Seq<Bid>
    decreases s.len(),
{
    if s.len() == 0 {
        Seq::empty()
    } else {
        filter_valid_bids(s.drop_last(), p)
            + if bid_is_valid_spec(s.last(), p) { seq![s.last()] } else { Seq::empty() }
    }
}

/// The bidder allocations after refunding the collateral of every bid that
/// failed validation, in book order.
pub open spec fn refund_unvalidated_bids(
    m: Seq<(Address, BidderAllocation)>,
    s: Seq<Bid>,
    p: AuctionParameters,
) -> Seq<(Address, BidderAllocation)>
    decreases s.len(),
{
    if s.len() == 0 {
        m
    } else {
        let m1 = refund_unvalidated_bids(m, s.drop_last(), p);
        if bid_is_valid_spec(s.last(), p) {
            m1
        } else {
            bidder_upsert(
                m1,
                s.last().bidder,
                BidderAllocation {
                    collateral_amount: sat_add(
                        bidder_lookup(m1, s.last().bidder).collateral_amount,
                        s.last().collateral_amount as u128,
                    ),
                    ..bidder_lookup(m1, s.last().bidder)
                },
            )
        }
    }
}

/// Folds the bid submissions into the book, in stream order, and extends the
/// rolling hash chain by each submission's encoding.
pub fn submissions_hash_chain(
    subs: &Vec<BidSubmission>,
    start_value: &Vec<u8>,
    bids: &mut Bids,
) -> (r: Vec<u8>)
    requires
        bid_book_wf(old(bids)@),
    ensures
        r@ == chain_digest(start_value@, bid_submissions_bytes(subs@)),
        final(bids)@ == apply_bid_submissions(old(bids)@, subs@),
        bid_book_wf(final(bids)@),
        r@.len() == 32 || r@ == start_value@,
{
    let ghost all = bid_submissions_bytes(subs@);
    let mut acc: Vec<u8> = clone_bytes(start_value);
    let mut i: usize = 0;
    while i < subs.len()
        invariant
            i <= subs@.len(),
            all == bid_submissions_bytes(subs@),
            acc@ == chain_digest(start_value@, all.take(i as int)),
            bids@ == apply_bid_submissions(old(bids)@, subs@.take(i as int)),
            bid_book_wf(bids@),
            i > 0 ==> acc@.len() == 32,
            i == 0 ==> acc@ == start_value@,
        decreases subs.len() - i,
    {
        proof {
            lemma_chain_digest_push(start_value@, all.take(i as int), all[i as int]);
            assert(all.take(i as int).push(all[i as int]) =~= all.take(i + 1));
            assert(subs@.take(i + 1).drop_last() =~= subs@.take(i as int));
            assert(subs@.take(i + 1).last() == subs@[i as int]);
            lemma_save_or_update_bid_wf(bids@, subs@[i as int]);
        }
        bids.save_or_update_order(&subs[i]);
        let encoded = subs[i].encode();
        acc = crate::types::add_to_hash_chain(&encoded, &acc);
        i += 1;
    }
    proof {
        assert(all.take(subs@.len() as int) =~= all);
        assert(subs@.take(subs@.len() as int) =~= subs@);
    }
    acc
}

/// Folds the bid reveals into the book, in stream order, and extends the
/// rolling hash chain by each reveal's encoding.
pub fn reveals_hash_chain(
    reveals: &Vec<BidReveal>,
    start_value: &Vec<u8>,
    bids: &mut Bids,
) -> (r: Vec<u8>)
    requires
        bid_book_wf(old(bids)@),
    ensures
        r@ == chain_digest(start_value@, bid_reveals_bytes(reveals@)),
        final(bids)@ == apply_bid_reveals(old(bids)@, reveals@),
        bid_book_wf(final(bids)@),
        r@.len() == 32 || r@ == start_value@,
{
    let ghost all = bid_reveals_bytes(reveals@);
    let mut acc: Vec<u8> = clone_bytes(start_value);
    let mut i: usize = 0;
    while i < reveals.len()
        invariant
            i <= reveals@.len(),
            all == bid_reveals_bytes(reveals@),
            acc@ == chain_digest(start_value@, all.take(i as int)),
            bids@ == apply_bid_reveals(old(bids)@, reveals@.take(i as int)),
            bid_book_wf(bids@),
            i > 0 ==> acc@.len() == 32,
            i == 0 ==> acc@ == start_value@,
        decreases reveals.len() - i,
    {
        proof {
            lemma_chain_digest_push(start_value@, all.take(i as int), all[i as int]);
            assert(all.take(i as int).push(all[i as int]) =~= all.take(i + 1));
            assert(reveals@.take(i + 1).drop_last() =~= reveals@.take(i as int));
            assert(reveals@.take(i + 1).last() == reveals@[i as int]);
            lemma_apply_bid_reveal_wf(bids@, reveals@[i as int]);
        }
        bids.apply_reveal(&reveals[i]);
        let encoded = reveals[i].encode();
        acc = crate::types::add_to_hash_chain(&encoded, &acc);
        i += 1;
    }
    proof {
        assert(all.take(reveals@.len() as int) =~= all);
        assert(reveals@.take(reveals@.len() as int) =~= reveals@);
    }
    acc
}

/// Ascending order by revealed price.
pub open spec fn bids_price_sorted(s: Seq<Bid>) -> bool {
    forall|i: int, j: int| 0 <= i <= j < s.len()
        ==> (#[trigger] s[i]).bid_price_revealed <= (#[trigger] s[j]).bid_price_revealed
}

/// Stable insertion by revealed price: the bid goes after every bid whose
/// price is at most its own.
pub open spec fn insert_bid_by_price(s: Seq<Bid>, b: Bid) -> Seq<Bid>
    decreases s.len(),
{
    if s.len() == 0 {
        seq![b]
    } else if s.last().bid_price_revealed <= b.bid_price_revealed {
        s.push(b)
    } else {
        insert_bid_by_price(s.drop_last(), b).push(s.last())
    }
}

/// Stable sort by ascending revealed price.
pub open spec fn sort_bids_by_price(s: Seq<Bid>) -> Seq<Bid>
    decreases s.len(),
{
    if s.len() == 0 {
        Seq::empty()
    } else {
        insert_bid_by_price(sort_bids_by_price(s.drop_last()), s.last())
    }
}

/// Inserting into a price-sorted sequence at the upper-bound position is the
/// stable insertion.
proof fn lemma_insert_bid_at(s: Seq<Bid>, b: Bid, p: int)
    requires
        bids_price_sorted(s),
        0 <= p <= s.len(),
        forall|j: int| 0 <= j < p ==> (#[trigger] s[j]).bid_price_revealed <= b.bid_price_revealed,
        forall|j: int| p <= j < s.len() ==> (#[trigger] s[j]).bid_price_revealed
            > b.bid_price_revealed,
    ensures
        insert_bid_by_price(s, b) == s.insert(p, b),
    decreases s.len(),
{
    if s.len() == 0 {
        assert(insert_bid_by_price(s, b) =~= s.insert(0, b));
    } else if s.last().bid_price_revealed <= b.bid_price_revealed {
        assert(p == s.len());
        assert(s.push(b) =~= s.insert(s.len() as int, b));
    } else {
        lemma_insert_bid_at(s.drop_last(), b, p);
        assert(insert_bid_by_price(s, b) =~= s.drop_last().insert(p, b).push(s.last()));
        assert(s.drop_last().insert(p, b).push(s.last()) =~= s.insert(p, b));
    }
}

/// Stable insertion preserves the price ordering.
proof fn lemma_insert_bid_sorted(s: Seq<Bid>, b: Bid)
    requires
        bids_price_sorted(s),
    ensures
        bids_price_sorted(insert_bid_by_price(s, b)),
    decreases s.len(),
{
    if s.len() > 0 && s.last().bid_price_revealed > b.bid_price_revealed {
        lemma_insert_bid_sorted(s.drop_last(), b);
        let t = insert_bid_by_price(s.drop_last(), b).push(s.last());
        assert forall|i: int, j: int| 0 <= i <= j < t.len() implies (#[trigger] t[i])
            .bid_price_revealed <= (#[trigger] t[j]).bid_price_revealed by {
            lemma_insert_bid_members(s.drop_last(), b);
        }
    }
}

/// Every element of a stable insertion is the inserted bid or one of the
/// original bids.
proof fn lemma_insert_bid_members(s: Seq<Bid>, b: Bid)
    ensures
        insert_bid_by_price(s, b).len() == s.len() + 1,
        forall|i: int| 0 <= i < insert_bid_by_price(s, b).len()
            ==> (#[trigger] insert_bid_by_price(s, b)[i] == b
                || exists|j: int| 0 <= j < s.len() && insert_bid_by_price(s, b)[i] == s[j]),
    decreases s.len(),
{
    if s.len() > 0 && s.last().bid_price_revealed > b.bid_price_revealed {
        lemma_insert_bid_members(s.drop_last(), b);
        assert forall|i: int| 0 <= i < insert_bid_by_price(s, b).len() implies (
            #[trigger] insert_bid_by_price(s, b)[i] == b
            || exists|j: int| 0 <= j < s.len() && insert_bid_by_price(s, b)[i] == s[j]) by {
            let t = insert_bid_by_price(s.drop_last(), b);
            if i < t.len() {
                if t[i] != b {
                    let j = choose|j: int| 0 <= j < s.drop_last().len() && t[i] == s.drop_last()[j];
                    assert(s.drop_last()[j] == s[j]);
                }
            } else {
                assert(insert_bid_by_price(s, b)[i] == s.last());
            }
        }
    }
}

/// The result of the stable sort is price-sorted.
pub proof fn lemma_sort_bids_sorted(s: Seq<Bid>)
    ensures
        bids_price_sorted(sort_bids_by_price(s)),
    decreases s.len(),
{
    if s.len() > 0 {
        lemma_sort_bids_sorted(s.drop_last());
        lemma_insert_bid_sorted(sort_bids_by_price(s.drop_last()), s.last());
    }
}

/// Sorts validated bids by ascending revealed price; bids with equal prices
/// keep their book order, so the most competitive bid ends up last.
pub fn sort_orders(v: &mut Vec<Bid>)
    ensures
        final(v)@ == sort_bids_by_price(old(v)@),
        bids_price_sorted(final(v)@),
{
    let ghost orig = v@;
    if v.len() <= 1 {
        proof {
            assert(sort_bids_by_price(Seq::<Bid>::empty()) =~= Seq::<Bid>::empty());
            if orig.len() == 1 {
                assert(orig.drop_last() =~= Seq::<Bid>::empty());
                assert(insert_bid_by_price(Seq::<Bid>::empty(), orig.last()) =~= seq![orig[0]]);
                assert(sort_bids_by_price(orig) =~= orig);
            }
        }
        return;
    }
    let mut i: usize = 1;
    proof {
        assert(orig.take(1).drop_last() =~= Seq::<Bid>::empty());
        assert(sort_bids_by_price(Seq::<Bid>::empty()) =~= Seq::<Bid>::empty());
        assert(insert_bid_by_price(Seq::<Bid>::empty(), orig.take(1).last())
            =~= seq![orig[0]]);
        assert(sort_bids_by_price(orig.take(1)) =~= orig.take(1));
        lemma_sort_bids_sorted(orig.take(1));
    }
    while i < v.len()
        invariant
            1 <= i,
            v@.len() == orig.len(),
            i <= v@.len(),
            v@.take(i as int) == sort_bids_by_price(orig.take(i as int)),
            v@.skip(i as int) =~= orig.skip(i as int),
            bids_price_sorted(v@.take(i as int)),
        decreases v@.len() - i,
    {
        let b = v[i];
        proof {
            assert(v@.skip(i as int)[0] == orig.skip(i as int)[0]);
            assert(b == orig[i as int]);
        }
        // Find the upper-bound position of b's price in the sorted prefix.
        let mut p: usize = 0;
        while p < i && v[p].bid_price_revealed <= b.bid_price_revealed
            invariant
                p <= i,
                i < v@.len(),
                b == orig[i as int],
                bids_price_sorted(v@.take(i as int)),
                forall|j: int| 0 <= j < p ==> (#[trigger] v@[j]).bid_price_revealed
                    <= b.bid_price_revealed,
            decreases i - p,
        {
            p += 1;
        }
        let ghost pre = v@;
        let moved = v.remove(i);
        v.insert(p, moved);
        proof {
            assert(pre.skip(i as int)[0] == orig.skip(i as int)[0]);
            assert(moved == b);
            if p < i {
                assert(pre.take(i as int)[p as int].bid_price_revealed > b.bid_price_revealed);
            }
            assert forall|j: int| p <= j < i implies (#[trigger] pre.take(i as int)[j])
                .bid_price_revealed > b.bid_price_revealed by {
                assert(pre.take(i as int)[p as int].bid_price_revealed
                    <= pre.take(i as int)[j].bid_price_revealed);
            }
            assert forall|j: int| 0 <= j < p implies (#[trigger] pre.take(i as int)[j])
                .bid_price_revealed <= b.bid_price_revealed by {
                assert(pre.take(i as int)[j] == pre[j]);
            }
            lemma_insert_bid_at(pre.take(i as int), b, p as int);
            assert(pre.remove(i as int).insert(p as int, b).take(i + 1)
                =~= pre.take(i as int).insert(p as int, b));
            assert(v@.take(i + 1) == pre.take(i as int).insert(p as int, b));
            assert(orig.take(i + 1).drop_last() =~= orig.take(i as int));
            assert(orig.take(i + 1).last() == orig[i as int]);
            assert(v@.take(i + 1) == sort_bids_by_price(orig.take(i + 1)));
            lemma_sort_bids_sorted(orig.take(i + 1));
            assert forall|j: int| i + 1 <= j < v@.len() implies #[trigger] v@[j] == pre[j] by {
                assert(pre.remove(i as int)[j - 1] == pre[j]);
                assert(v@[j] == pre.remove(i as int)[j - 1]);
            }
            assert forall|j: int| i + 1 <= j < pre.len() implies #[trigger] pre[j] == orig[j] by {
                assert(pre.skip(i as int)[j - i] == orig.skip(i as int)[j - i]);
            }
            assert(v@.skip(i + 1) =~= orig.skip(i + 1));
        }
        i += 1;
    }
    proof {
        if orig.len() == 0 {
            assert(v@ =~= sort_bids_by_price(orig));
        } else {
            assert(orig.take(orig.len() as int) =~= orig);
            assert(v@.take(orig.len() as int) =~= v@);
        }
    }
}

/// Every element of the sorted sequence is one of the original bids.
pub proof fn lemma_sort_bids_members(s: Seq<Bid>)
    ensures
        sort_bids_by_price(s).len() == s.len(),
        forall|i: int| 0 <= i < sort_bids_by_price(s).len()
            ==> exists|j: int| 0 <= j < s.len() && #[trigger] sort_bids_by_price(s)[i] == s[j],
    decreases s.len(),
{
    if s.len() > 0 {
        lemma_sort_bids_members(s.drop_last());
        lemma_insert_bid_members(sort_bids_by_price(s.drop_last()), s.last());
        let t = sort_bids_by_price(s);
        assert forall|i: int| 0 <= i < t.len() implies exists|j: int|
            0 <= j < s.len() && #[trigger] t[i] == s[j] by {
            let prev = sort_bids_by_price(s.drop_last());
            if t[i] == s.last() {
                assert(t[i] == s[s.len() - 1]);
            } else {
                let j0 = choose|j0: int| 0 <= j0 < prev.len() && t[i] == prev[j0];
                let j1 = choose|j1: int| 0 <= j1 < s.drop_last().len() && prev[j0]
                    == s.drop_last()[j1];
                assert(t[i] == s[j1]);
            }
        }
    }
}

/// The bidder allocations after refunding the locked collateral of every bid
/// in the list, in list order.
pub open spec fn unlock_bids_spec(
    m: Seq<(Address, BidderAllocation)>,
    s: Seq<Bid>,
) -> Seq<(Address, BidderAllocation)>
    decreases s.len(),
{
    if s.len() == 0 {
        m
    } else {
        let m1 = unlock_bids_spec(m, s.drop_last());
        bidder_upsert(
            m1,
            s.last().bidder,
            BidderAllocation {
                collateral_amount: sat_add(
                    bidder_lookup(m1, s.last().bidder).collateral_amount,
                    s.last().collateral_amount as u128,
                ),
                ..bidder_lookup(m1, s.last().bidder)
            },
        )
    }
}

/// Unlocks every outstanding validated bid: each bidder is refunded the
/// bid's locked collateral.
pub fn unlock_outstanding_orders(bids: &Vec<Bid>, allocations: &mut BidderAllocations)
    requires
        bidder_map_wf(old(allocations)@),
    ensures
        final(allocations)@ == unlock_bids_spec(old(allocations)@, bids@),
        bidder_map_wf(final(allocations)@),
{
    let mut i: usize = 0;
    let n = bids.len();
    proof {
        assert(bids@.take(0) =~= Seq::<Bid>::empty());
    }
    while i < n
        invariant
            i <= n,
            n == bids@.len(),
            allocations@ == unlock_bids_spec(old(allocations)@, bids@.take(i as int)),
            bidder_map_wf(allocations@),
        decreases n - i,
    {
        let b = bids[i];
        proof {
            assert(bids@.take(i + 1).drop_last() =~= bids@.take(i as int));
            assert(bids@.take(i + 1).last() == bids@[i as int]);
            lemma_bidder_upsert_wf(
                allocations@,
                b.bidder,
                (BidderAllocation {
                    collateral_amount: sat_add(
                        bidder_lookup(allocations@, b.bidder).collateral_amount,
                        b.collateral_amount as u128,
                    ),
                    ..bidder_lookup(allocations@, b.bidder)
                }),
            );
        }
        allocations.add_collateral(&b.bidder, b.collateral_amount as u128);
        i += 1;
    }
    proof {
        assert(bids@.take(n as int) =~= bids@);
    }
}

/// Applying a valid reveal twice leaves the book exactly as applying it
/// once: a reveal is idempotent.
pub proof fn lemma_bid_reveal_idempotent(s: Seq<Bid>, r: BidReveal)
    ensures
        apply_bid_reveal(apply_bid_reveal(s, r), r) == apply_bid_reveal(s, r),
{
    let p = bid_find(s, r.order_id, 0);
    lemma_bid_find_bounds(s, r.order_id, 0);
    if p < s.len() && bid_key(s[p]) == r.order_id {
        let nb = reveal_bid(s[p], r);
        let t = s.update(p, nb);
        assert(apply_bid_reveal(s, r) == t);
        assert forall|j: int| 0 <= j < t.len() implies bid_key(#[trigger] t[j]) == bid_key(s[j]) by {}
        lemma_bid_find_char(
            t,
            r.order_id,
            0,
            p,
        );
        assert(bid_find(t, r.order_id, 0) == p);
        assert(reveal_bid(nb, r) == nb);
        assert(t.update(p, nb) =~= t);
    } else {
        assert(apply_bid_reveal(s, r) == s);
    }
}

/// A reveal whose price commitment does not match the book entry's leaves
/// the book unchanged; so does a reveal for an unknown key or an
/// out-of-bounds price.
pub proof fn lemma_bid_reveal_no_change(s: Seq<Bid>, r: BidReveal)
    requires
        forall|i: int| 0 <= i < s.len() && bid_key(#[trigger] s[i]) == r.order_id
            ==> price_hash_spec(r.price, r.nonce) != digest_bytes(s[i].bid_price_hash)
                || r.price > MAX_BID_PRICE,
    ensures
        apply_bid_reveal(s, r) == s,
{
    let p = bid_find(s, r.order_id, 0);
    lemma_bid_find_bounds(s, r.order_id, 0);
    if p < s.len() && bid_key(s[p]) == r.order_id {
        assert(reveal_bid(s[p], r) == s[p]);
        assert(s.update(p, s[p]) =~= s);
    }
}

/// The total collateral locked by the bids of a list.
pub open spec fn sum_bid_collateral(s: Seq<Bid>) -> int
    decreases s.len(),
{
    if s.len() == 0 {
        0
    } else {
        sum_bid_collateral(s.drop_last()) + s.last().collateral_amount
    }
}

pub proof fn lemma_sum_bid_collateral_nonneg(s: Seq<Bid>)
    ensures
        sum_bid_collateral(s) >= 0,
    decreases s.len(),
{
    if s.len() > 0 {
        lemma_sum_bid_collateral_nonneg(s.drop_last());
    }
}

/// Conservation at unlock: when every validated bid is unlocked, the total
/// collateral refunded across bidder allocations grows by exactly the total
/// collateral locked by the unlocked bids.
pub proof fn lemma_unlock_bids_conservation(m: Seq<(Address, BidderAllocation)>, s: Seq<Bid>)
    requires
        crate::allocations::total_bidder_collateral(m) + sum_bid_collateral(s) <= u128::MAX,
    ensures
        crate::allocations::total_bidder_collateral(unlock_bids_spec(m, s))
            == crate::allocations::total_bidder_collateral(m) + sum_bid_collateral(s),
    decreases s.len(),
{
    if s.len() > 0 {
        lemma_sum_bid_collateral_nonneg(s.drop_last());
        lemma_unlock_bids_conservation(m, s.drop_last());
        let m1 = unlock_bids_spec(m, s.drop_last());
        let b = s.last();
        crate::allocations::lemma_bidder_lookup_le_total(m1, b.bidder);
        let al = bidder_lookup(m1, b.bidder);
        assert(sat_add(al.collateral_amount, b.collateral_amount as u128)
            == al.collateral_amount + b.collateral_amount);
        crate::allocations::lemma_total_bidder_collateral_upsert(
            m1,
            b.bidder,
            BidderAllocation {
                collateral_amount: sat_add(al.collateral_amount, b.collateral_amount as u128),
                ..al
            },
        );
    }
}

/// No two bids in the list share a revealed price.
pub open spec fn bids_distinct_prices(s: Seq<Bid>) -> bool {
    forall|i: int, j: int| 0 <= i < j < s.len()
        ==> (#[trigger] s[i]).bid_price_revealed != (#[trigger] s[j]).bid_price_revealed
}

/// Stable insertion adds exactly the inserted bid to the multiset.
proof fn lemma_insert_bid_multiset(s: Seq<Bid>, b: Bid)
    ensures
        insert_bid_by_price(s, b).to_multiset() == s.to_multiset().insert(b),
    decreases s.len(),
{
    broadcast use vstd::seq_lib::group_to_multiset_ensures;

    if s.len() == 0 {
        assert(insert_bid_by_price(s, b) =~= Seq::<Bid>::empty().push(b));
    } else if s.last().bid_price_revealed <= b.bid_price_revealed {
    } else {
        lemma_insert_bid_multiset(s.drop_last(), b);
        assert(s.drop_last().push(s.last()) =~= s);
        assert(insert_bid_by_price(s, b).to_multiset()
            =~= s.drop_last().to_multiset().insert(b).insert(s.last()));
        assert(s.to_multiset().insert(b) =~= s.drop_last().to_multiset().insert(s.last()).insert(b));
        assert(s.drop_last().to_multiset().insert(b).insert(s.last())
            =~= s.drop_last().to_multiset().insert(s.last()).insert(b));
    }
}

/// Sorting preserves the multiset of bids.
pub proof fn lemma_sort_bids_multiset(s: Seq<Bid>)
    ensures
        sort_bids_by_price(s).to_multiset() == s.to_multiset(),
    decreases s.len(),
{
    broadcast use vstd::seq_lib::group_to_multiset_ensures;

    if s.len() > 0 {
        lemma_sort_bids_multiset(s.drop_last());
        lemma_insert_bid_multiset(sort_bids_by_price(s.drop_last()), s.last());
        assert(s.drop_last().push(s.last()) =~= s);
        assert(sort_bids_by_price(s).to_multiset() =~= s.to_multiset());
    }
}

/// Two price-sorted lists with the same bids and pairwise distinct prices
/// are identical.
proof fn lemma_sorted_bids_unique(s1: Seq<Bid>, s2: Seq<Bid>)
    requires
        bids_price_sorted(s1),
        bids_price_sorted(s2),
        bids_distinct_prices(s1),
        s1.to_multiset() == s2.to_multiset(),
    ensures
        s1 == s2,
    decreases s1.len(),
{
    broadcast use vstd::seq_lib::group_to_multiset_ensures;

    assert(s1.len() == s1.to_multiset().len());
    assert(s2.len() == s2.to_multiset().len());
    assert(s1.len() == s2.len());
    if s1.len() == 0 {
        assert(s1 =~= s2);
    } else {
        let a = s1.last();
        let b = s2.last();
        assert(s1.to_multiset().count(a) > 0);
        assert(s2.contains(a));
        let k = choose|k: int| 0 <= k < s2.len() && s2[k] == a;
        assert(a.bid_price_revealed <= b.bid_price_revealed);
        assert(s2.to_multiset().count(b) > 0);
        assert(s1.contains(b));
        let m = choose|m: int| 0 <= m < s1.len() && s1[m] == b;
        assert(b.bid_price_revealed <= a.bid_price_revealed);
        assert(a.bid_price_revealed == b.bid_price_revealed);
        assert(m == s1.len() - 1) by {
            if m < s1.len() - 1 {
                assert(s1[m].bid_price_revealed != s1[s1.len() - 1].bid_price_revealed);
            }
        }
        assert(a == b);
        assert(s1.drop_last().push(a) =~= s1);
        assert(s2.drop_last().push(a) =~= s2);
        assert(s1.drop_last().to_multiset().insert(a) =~= s1.to_multiset());
        assert(s2.drop_last().to_multiset().insert(a) =~= s2.to_multiset());
        assert(s1.drop_last().to_multiset() =~= s1.to_multiset().remove(a)) by {
            broadcast use vstd::multiset::group_multiset_axioms;
        }
        assert(s2.drop_last().to_multiset() =~= s2.to_multiset().remove(a)) by {
            broadcast use vstd::multiset::group_multiset_axioms;
        }
        lemma_sorted_bids_unique(s1.drop_last(), s2.drop_last());
        assert(s1 =~= s2);
    }
}

/// Ordering invariance: when the validated bids carry pairwise distinct
/// prices, any reordering of the list before sorting yields the same sorted
/// list, so everything computed from it is unchanged. With equal prices, a
/// reordering may change how a partially assigned marginal group is split.
pub proof fn lemma_sort_bids_permutation_invariant(s1: Seq<Bid>, s2: Seq<Bid>)
    requires
        bids_distinct_prices(s1),
        s1.to_multiset() == s2.to_multiset(),
    ensures
        sort_bids_by_price(s1) == sort_bids_by_price(s2),
{
    broadcast use vstd::seq_lib::group_to_multiset_ensures;

    lemma_sort_bids_multiset(s1);
    lemma_sort_bids_multiset(s2);
    lemma_sort_bids_sorted(s1);
    lemma_sort_bids_sorted(s2);
    let t1 = sort_bids_by_price(s1);
    assert(bids_distinct_prices(t1)) by {
        assert(s1.no_duplicates()) by {
            assert forall|i: int, j: int| 0 <= i < s1.len() && 0 <= j < s1.len() && i != j
                implies s1[i] != s1[j] by {
                if i < j {
                    assert(s1[i].bid_price_revealed != s1[j].bid_price_revealed);
                } else {
                    assert(s1[j].bid_price_revealed != s1[i].bid_price_revealed);
                }
            }
        }
        s1.lemma_multiset_has_no_duplicates();
        t1.lemma_multiset_has_no_duplicates_conv();
        lemma_sort_bids_members(s1);
        assert forall|i: int, j: int| 0 <= i < j < t1.len() implies (#[trigger] t1[i])
            .bid_price_revealed != (#[trigger] t1[j]).bid_price_revealed by {
            assert(t1[i] != t1[j]);
            let a = choose|a: int| 0 <= a < s1.len() && t1[i] == s1[a];
            let b = choose|b: int| 0 <= b < s1.len() && t1[j] == s1[b];
            assert(a != b);
        }
    }
    lemma_sorted_bids_unique(t1, sort_bids_by_price(s2));
}

} // verus!
