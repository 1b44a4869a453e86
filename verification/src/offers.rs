//! Offers: submissions, reveals, the offer book, validation and sorting.
use vstd::prelude::*;

use crate::allocations::{
    offeror_map_wf, offeror_upsert, offeror_lookup, lemma_offeror_upsert_wf, sat_add,
    OfferorAllocation, OfferorAllocations,
};
use crate::encode::clone_bytes;
use crate::encode::{be_bytes, push_be_bytes};
use crate::exit_tree::ExitLeaf;
use crate::types::{
    address_bytes, chain_digest, digest_bytes, get_key, key_less, key_lt,
    lemma_chain_digest_push, lemma_digest_bytes_injective, order_key_bytes, price_hash_spec,
    push_address_bytes, push_digest_bytes, push_order_key_bytes, Address, AuctionParameters,
    Digest, OrderKey,
};
use crate::MAX_OFFER_PRICE;

verus! {

/// An offer submission as posted onchain: an order to lend purchase tokens.
#[derive(Clone, Copy, PartialEq, Eq, Structural, Debug)]
pub struct OfferSubmission {
    /// The offeror's address.
    pub offeror: Address,
    /// Together with `offeror`, the unique identifier of the offer.
    pub id: u64,
    /// The price commitment: the hash of the hidden price and a nonce.
    pub offer_price_hash: Digest,
    /// The amount of purchase tokens offered to lend.
    pub amount: u64,
}

/// The 96-byte packed encoding of an offer submission.
pub open spec fn offer_submission_bytes(s: OfferSubmission) -> Seq<u8> {
    address_bytes(s.offeror) + be_bytes(s.id as nat, 12) + digest_bytes(s.offer_price_hash)
        + be_bytes(s.amount as nat, 32)
}

impl OfferSubmission {
    /// The packed encoding of the submission.
    pub fn encode(&self) -> (r: Vec<u8>)
        ensures
            r@ == offer_submission_bytes(*self),
    {
        let mut out: Vec<u8> = Vec::new();
        push_address_bytes(&mut out, &self.offeror);
        push_be_bytes(&mut out, self.id as u128, 12);
        push_digest_bytes(&mut out, &self.offer_price_hash);
        push_be_bytes(&mut out, self.amount as u128, 32);
        proof {
            assert(out@ =~= offer_submission_bytes(*self));
        }
        out
    }
}

/// An offer reveal as posted onchain: the disclosed price and nonce for a key.
#[derive(Clone, Copy, PartialEq, Eq, Structural, Debug)]
pub struct OfferReveal {
    /// The key of the offer being revealed.
    pub order_id: OrderKey,
    /// The disclosed price, in basis points.
    pub price: u64,
    /// The nonce that blinded the price commitment.
    pub nonce: u128,
}

/// The 96-byte packed encoding of an offer reveal.
pub open spec fn offer_reveal_bytes(r: OfferReveal) -> Seq<u8> {
    order_key_bytes(r.order_id) + be_bytes(r.price as nat, 32) + be_bytes(r.nonce as nat, 32)
}

impl OfferReveal {
    /// The packed encoding of the reveal.
    pub fn encode(&self) -> (r: Vec<u8>)
        ensures
            r@ == offer_reveal_bytes(*self),
    {
        let mut out: Vec<u8> = Vec::new();
        push_order_key_bytes(&mut out, &self.order_id);
        push_be_bytes(&mut out, self.price as u128, 32);
        push_be_bytes(&mut out, self.nonce, 32);
        proof {
            assert(out@ =~= offer_reveal_bytes(*self));
        }
        out
    }
}

/// An offer held in the book.
#[derive(Clone, Copy, PartialEq, Eq, Structural, Debug)]
pub struct Offer {
    /// Together with `offeror`, the unique identifier of the offer.
    pub id: u64,
    /// The offeror's address.
    pub offeror: Address,
    /// The price commitment posted at submission time.
    pub offer_price_hash: Digest,
    /// The price disclosed in the reveal phase; zero until a valid reveal.
    pub offer_price_revealed: u64,
    /// The amount of purchase tokens offered to lend.
    pub amount: u64,
    /// Whether a valid reveal has been applied.
    pub is_revealed: bool,
}

/// The key under which an offer is held in the book.
pub open spec fn offer_key(b: Offer) -> OrderKey {
    OrderKey { address: b.offeror, id: b.id }
}

/// A well-formed offer: a revealed price within bounds, and no revealed price
/// before a valid reveal.
pub open spec fn offer_wf(b: Offer) -> bool {
    &&& b.offer_price_revealed <= MAX_OFFER_PRICE
    &&& (!b.is_revealed ==> b.offer_price_revealed == 0)
}

/// The offer created from a fresh submission.
pub open spec fn new_offer(s: OfferSubmission) -> Offer {
    Offer {
        id: s.id,
        offeror: s.offeror,
        offer_price_hash: s.offer_price_hash,
        offer_price_revealed: 0,
        amount: s.amount,
        is_revealed: false,
    }
}

/// An existing offer overwritten by a new submission: the amount and the
/// commitment change; the reveal state does not.
pub open spec fn merge_offer(b: Offer, s: OfferSubmission) -> Offer {
    Offer { amount: s.amount, offer_price_hash: s.offer_price_hash, ..b }
}

/// An offer after a reveal: the price is recorded iff the commitment matches and
/// the price is within bounds; otherwise the offer is unchanged.
pub open spec fn reveal_offer(b: Offer, r: OfferReveal) -> Offer {
    if price_hash_spec(r.price, r.nonce) == digest_bytes(b.offer_price_hash)
        && r.price <= MAX_OFFER_PRICE {
        Offer { offer_price_revealed: r.price, is_revealed: true, ..b }
    } else {
        b
    }
}

/// An offer is valid iff it was revealed.
pub open spec fn offer_is_valid_spec(b: Offer, p: AuctionParameters) -> bool {
    b.is_revealed
}

impl Offer {
    /// Creates a new offer from a submission.
    pub fn from_order_submission(s: &OfferSubmission) -> (r: Offer)
        ensures
            r == new_offer(*s),
    {
        Offer {
            id: s.id,
            offeror: s.offeror,
            offer_price_hash: s.offer_price_hash,
            offer_price_revealed: 0,
            amount: s.amount,
            is_revealed: false,
        }
    }

    /// Overwrites the offer with a new submission for the same key.
    pub fn update_from_order_submission(&mut self, s: &OfferSubmission)
        ensures
            *final(self) == merge_offer(*old(self), *s),
    {
        self.amount = s.amount;
        self.offer_price_hash = s.offer_price_hash;
    }

    /// Applies a reveal: records the price iff the commitment matches and the
    /// price is within bounds.
    pub fn update_from_order_reveal(&mut self, r: &OfferReveal)
        ensures
            *final(self) == reveal_offer(*old(self), *r),
    {
        let computed = crate::types::get_price_hash(r.price, r.nonce);
        proof {
            lemma_digest_bytes_injective(computed, old(self).offer_price_hash);
        }
        if computed == self.offer_price_hash && r.price <= MAX_OFFER_PRICE {
            self.offer_price_revealed = r.price;
            self.is_revealed = true;
        }
    }

    /// Whether the offer is valid: an offer is valid iff it was revealed.
    pub fn is_valid(&self, p: &AuctionParameters) -> (r: bool)
        ensures
            r == offer_is_valid_spec(*self, *p),
    {
        self.is_revealed
    }

    /// The exit leaf refunding the offer's locked purchase tokens.
    pub fn to_exit_leaf(&self, p: &AuctionParameters) -> (r: ExitLeaf)
        ensures
            r == (ExitLeaf::TokenWithdrawal {
                recipient: self.offeror,
                token: p.purchase_token,
                amount: self.amount as u128,
            }),
    {
        ExitLeaf::TokenWithdrawal {
            recipient: self.offeror,
            token: p.purchase_token,
            amount: self.amount as u128,
        }
    }
}

/// The offer book: the live offers, held in ascending key order.
pub struct Offers {
    entries: Vec<Offer>,
}

/// A well-formed book: keys strictly ascending (so each key appears once and
/// iteration is key-ordered), every offer well formed, and no offer with a
/// zero amount.
pub open spec fn offer_book_wf(s: Seq<Offer>) -> bool {
    &&& forall|i: int, j: int|
        0 <= i < j < s.len() ==> key_lt(offer_key(#[trigger] s[i]), offer_key(#[trigger] s[j]))
    &&& forall|i: int| 0 <= i < s.len() ==> offer_wf(#[trigger] s[i])
    &&& forall|i: int| 0 <= i < s.len() ==> (#[trigger] s[i]).amount > 0
}

/// The first index at or after `i` whose key is not below `k`.
pub open spec fn offer_find(s: Seq<Offer>, k: OrderKey, i: int) -> int
    decreases s.len() - i,
{
    if i < 0 || i >= s.len() {
        s.len() as int
    } else if !key_lt(offer_key(s[i]), k) {
        i
    } else {
        offer_find(s, k, i + 1)
    }
}

pub proof fn lemma_offer_find_char(s: Seq<Offer>, k: OrderKey, i: int, p: int)
    requires
        0 <= i <= p <= s.len(),
        forall|j: int| i <= j < p ==> key_lt(offer_key(#[trigger] s[j]), k),
        p < s.len() ==> !key_lt(offer_key(s[p]), k),
    ensures
        offer_find(s, k, i) == p,
    decreases p - i,
{
    if i < p {
        lemma_offer_find_char(s, k, i + 1, p);
    }
}

pub proof fn lemma_offer_find_bounds(s: Seq<Offer>, k: OrderKey, i: int)
    requires
        0 <= i <= s.len(),
    ensures
        i <= offer_find(s, k, i) <= s.len(),
        forall|j: int| i <= j < offer_find(s, k, i) ==> key_lt(offer_key(#[trigger] s[j]), k),
        offer_find(s, k, i) < s.len() ==> !key_lt(offer_key(s[offer_find(s, k, i)]), k),
    decreases s.len() - i,
{
    if i < s.len() && key_lt(offer_key(s[i]), k) {
        lemma_offer_find_bounds(s, k, i + 1);
    }
}

/// The book after a submission: a zero-amount submission deletes the key;
/// an existing key is overwritten; a new key is inserted in key order.
pub open spec fn save_or_update_offer(s: Seq<Offer>, sub: OfferSubmission) -> Seq<Offer> {
    let k = OrderKey { address: sub.offeror, id: sub.id };
    let p = offer_find(s, k, 0);
    if sub.amount == 0 {
        if p < s.len() && offer_key(s[p]) == k {
            s.remove(p)
        } else {
            s
        }
    } else if p < s.len() && offer_key(s[p]) == k {
        s.update(p, merge_offer(s[p], sub))
    } else {
        s.insert(p, new_offer(sub))
    }
}

/// The book after a reveal: the entry at the reveal's key, if any, is updated
/// by `reveal_offer`; a reveal for an unknown key changes nothing.
pub open spec fn apply_offer_reveal(s: Seq<Offer>, r: OfferReveal) -> Seq<Offer> {
    let p = offer_find(s, r.order_id, 0);
    if p < s.len() && offer_key(s[p]) == r.order_id {
        s.update(p, reveal_offer(s[p], r))
    } else {
        s
    }
}

/// Submissions preserve the book's well-formedness.
pub proof fn lemma_save_or_update_offer_wf(s: Seq<Offer>, sub: OfferSubmission)
    requires
        offer_book_wf(s),
    ensures
        offer_book_wf(save_or_update_offer(s, sub)),
{
    let k = OrderKey { address: sub.offeror, id: sub.id };
    let p = offer_find(s, k, 0);
    lemma_offer_find_bounds(s, k, 0);
    let t = save_or_update_offer(s, sub);
    if sub.amount == 0 {
        if p < s.len() && offer_key(s[p]) == k {
            assert forall|i: int, j: int| 0 <= i < j < t.len() implies key_lt(
                offer_key(#[trigger] t[i]),
                offer_key(#[trigger] t[j]),
            ) by {
                assert(t[i] == if i < p { s[i] } else { s[i + 1] });
                assert(t[j] == if j < p { s[j] } else { s[j + 1] });
            }
        }
    } else if p < s.len() && offer_key(s[p]) == k {
        assert forall|i: int, j: int| 0 <= i < j < t.len() implies key_lt(
            offer_key(#[trigger] t[i]),
            offer_key(#[trigger] t[j]),
        ) by {
            assert(offer_key(t[i]) == offer_key(s[i]));
            assert(offer_key(t[j]) == offer_key(s[j]));
        }
    } else {
        assert forall|i: int, j: int| 0 <= i < j < t.len() implies key_lt(
            offer_key(#[trigger] t[i]),
            offer_key(#[trigger] t[j]),
        ) by {
            if i < p && j == p {
                assert(t[i] == s[i]);
            } else if i == p && j > p {
                assert(t[j] == s[j - 1]);
                if p < s.len() {
                    assert(!key_lt(offer_key(s[p]), k) && offer_key(s[p]) != k);
                    assert(key_lt(k, offer_key(s[p])));
                }
            }
        }
    }
}

/// Reveals preserve the book's well-formedness.
pub proof fn lemma_apply_offer_reveal_wf(s: Seq<Offer>, r: OfferReveal)
    requires
        offer_book_wf(s),
    ensures
        offer_book_wf(apply_offer_reveal(s, r)),
{
    let p = offer_find(s, r.order_id, 0);
    lemma_offer_find_bounds(s, r.order_id, 0);
    let t = apply_offer_reveal(s, r);
    if p < s.len() && offer_key(s[p]) == r.order_id {
        let nb = reveal_offer(s[p], r);
        assert(t == s.update(p, nb));
        assert(offer_wf(s[p]) && s[p].amount > 0);
        assert(offer_key(nb) == offer_key(s[p]) && offer_wf(nb)
            && nb.amount == s[p].amount);
        assert forall|i: int, j: int| 0 <= i < j < t.len() implies key_lt(
            offer_key(#[trigger] t[i]),
            offer_key(#[trigger] t[j]),
        ) by {
            assert(offer_key(t[i]) == offer_key(s[i]));
            assert(offer_key(t[j]) == offer_key(s[j]));
        }
        assert forall|i: int| 0 <= i < t.len() implies offer_wf(#[trigger] t[i])
            && t[i].amount > 0 by {
            assert(t[i] == if i == p { nb } else { s[i] });
        }
    }
}

/// The book after a sequence of submissions, applied in stream order.
pub open spec fn apply_offer_submissions(s: Seq<Offer>, subs: Seq<OfferSubmission>) -> Seq<Offer>
    decreases subs.len(),
{
    if subs.len() == 0 {
        s
    } else {
        save_or_update_offer(apply_offer_submissions(s, subs.drop_last()), subs.last())
    }
}

/// The book after a sequence of reveals, applied in stream order.
pub open spec fn apply_offer_reveals(s: Seq<Offer>, rs: Seq<OfferReveal>) -> Seq<Offer>
    decreases rs.len(),
{
    if rs.len() == 0 {
        s
    } else {
        apply_offer_reveal(apply_offer_reveals(s, rs.drop_last()), rs.last())
    }
}

/// The encodings of a sequence of offer submissions.
pub open spec fn offer_submissions_bytes(subs: Seq<OfferSubmission>) -> Seq<Seq<u8>> {
    subs.map_values(|s: OfferSubmission| offer_submission_bytes(s))
}

/// The encodings of a sequence of offer reveals.
pub open spec fn offer_reveals_bytes(rs: Seq<OfferReveal>) -> Seq<Seq<u8>> {
    rs.map_values(|r: OfferReveal| offer_reveal_bytes(r))
}

impl View for Offers {
    type V = Seq<Offer>;

    closed spec fn view(&self) -> Seq<Offer> {
        self.entries@
    }
}

impl Offers {
    /// An empty book.
    pub fn new() -> (r: Self)
        ensures
            r@ == Seq::<Offer>::empty(),
            offer_book_wf(r@),
    {
        Offers { entries: Vec::new() }
    }

    /// The number of live offers.
    pub fn len(&self) -> (r: usize)
        ensures
            r == self@.len(),
    {
        self.entries.len()
    }

    /// The offer at iteration position `i`, in ascending key order.
    pub fn order_at(&self, i: usize) -> (r: Offer)
        requires
            i < self@.len(),
        ensures
            r == self@[i as int],
    {
        self.entries[i]
    }

    /// The position of the first entry whose key is not below `k`.
    fn find_index(&self, k: &OrderKey) -> (r: usize)
        ensures
            r == offer_find(self@, *k, 0),
    {
        let mut i: usize = 0;
        while i < self.entries.len()
            invariant
                i <= self@.len(),
                forall|j: int| 0 <= j < i ==> key_lt(offer_key(#[trigger] self@[j]), *k),
            decreases self@.len() - i,
        {
            let ghost pre = self@;
            let e_key = get_key(&self.entries[i].offeror, self.entries[i].id);
            if !key_less(&e_key, k) {
                proof {
                    lemma_offer_find_char(self@, *k, 0, i as int);
                }
                return i;
            }
            i += 1;
        }
        proof {
            lemma_offer_find_char(self@, *k, 0, self@.len() as int);
        }
        i
    }

    /// Saves, overwrites or deletes the offer named by the submission.
    pub fn save_or_update_order(&mut self, sub: &OfferSubmission)
        ensures
            final(self)@ == save_or_update_offer(old(self)@, *sub),
    {
        let k = get_key(&sub.offeror, sub.id);
        let p = self.find_index(&k);
        proof {
            lemma_offer_find_bounds(old(self)@, k, 0);
        }
        if sub.amount == 0 {
            if p < self.entries.len() {
                let found_key = get_key(&self.entries[p].offeror, self.entries[p].id);
                if found_key == k {
                    self.entries.remove(p);
                }
            }
        } else if p < self.entries.len()
            && get_key(&self.entries[p].offeror, self.entries[p].id) == k {
            let mut b = self.entries.remove(p);
            b.update_from_order_submission(sub);
            self.entries.insert(p, b);
            proof {
                assert(self@ =~= old(self)@.update(p as int, merge_offer(old(self)@[p as int], *sub)));
            }
        } else {
            self.entries.insert(p, Offer::from_order_submission(sub));
        }
    }

    /// Applies a reveal to the offer it names, if that offer is in the book.
    pub fn apply_reveal(&mut self, r: &OfferReveal)
        ensures
            final(self)@ == apply_offer_reveal(old(self)@, *r),
    {
        let p = self.find_index(&r.order_id);
        proof {
            lemma_offer_find_bounds(old(self)@, r.order_id, 0);
        }
        if p < self.entries.len()
            && get_key(&self.entries[p].offeror, self.entries[p].id) == r.order_id {
            let mut b = self.entries.remove(p);
            b.update_from_order_reveal(r);
            self.entries.insert(p, b);
            proof {
                assert(self@ =~= old(self)@.update(
                    p as int,
                    reveal_offer(old(self)@[p as int], *r),
                ));
            }
        }
    }

    /// Splits the book into the validated offers, returned in book order, and
    /// the rest, whose locked purchase tokens are refunded to each offeror.
    pub fn into_validated_orders(
        self,
        params: &AuctionParameters,
        allocations: &mut OfferorAllocations,
    ) -> (r: Vec<Offer>)
        requires
            offer_book_wf(self@),
            offeror_map_wf(old(allocations)@),
        ensures
            r@ == filter_valid_offers(self@, *params),
            final(allocations)@ == refund_unvalidated_offers(old(allocations)@, self@, *params),
            offeror_map_wf(final(allocations)@),
            forall|i: int| 0 <= i < r@.len() ==> offer_wf(#[trigger] r@[i])
                && r@[i].is_revealed && r@[i].amount > 0,
    {
        let ghost book = self@;
        let mut valid: Vec<Offer> = Vec::new();
        let mut i: usize = 0;
        let n = self.entries.len();
        while i < n
            invariant
                i <= n,
                n == book.len(),
                self@ == book,
                offer_book_wf(book),
                valid@ == filter_valid_offers(book.take(i as int), *params),
                allocations@ == refund_unvalidated_offers(old(allocations)@, book.take(i as int), *params),
                offeror_map_wf(allocations@),
                forall|j: int| 0 <= j < valid@.len() ==> offer_wf(#[trigger] valid@[j])
                    && valid@[j].is_revealed && valid@[j].amount > 0,
            decreases n - i,
        {
            let b = self.entries[i];
            proof {
                assert(b == book[i as int]);
                assert(book.take(i + 1).drop_last() =~= book.take(i as int));
                assert(book.take(i + 1).last() == book[i as int]);
            }
            if b.is_valid(params) {
                valid.push(b);
            } else {
                proof {
                    lemma_offeror_upsert_wf(
                        allocations@,
                        b.offeror,
                        (OfferorAllocation {
                            purchase_amount: sat_add(
                                offeror_lookup(allocations@, b.offeror).purchase_amount,
                                b.amount as u128,
                            ),
                            ..offeror_lookup(allocations@, b.offeror)
                        }),
                    );
                }
                allocations.add_purchase(&b.offeror, b.amount as u128);
            }
            i += 1;
        }
        proof {
            assert(book.take(n as int) =~= book);
        }
        valid
    }
}

/// The validated offers of a book, in book order.
pub open spec fn filter_valid_offers(s: Seq<Offer>, p: AuctionParameters) -> Seq<Offer>
    decreases s.len(),
{
    if s.len() == 0 {
        Seq::empty()
    } else {
        filter_valid_offers(s.drop_last(), p)
            + if offer_is_valid_spec(s.last(), p) { seq![s.last()] } else { Seq::empty() }
    }
}

/// The offeror allocations after refunding the locked purchase tokens of
/// every offer that failed validation, in book order.
pub open spec fn refund_unvalidated_offers(
    m: Seq<(Address, OfferorAllocation)>,
    s: Seq<Offer>,
    p: AuctionParameters,
) -> Seq<(Address, OfferorAllocation)>
    decreases s.len(),
{
    if s.len() == 0 {
        m
    } else {
        let m1 = refund_unvalidated_offers(m, s.drop_last(), p);
        if offer_is_valid_spec(s.last(), p) {
            m1
        } else {
            offeror_upsert(
                m1,
                s.last().offeror,
                OfferorAllocation {
                    purchase_amount: sat_add(
                        offeror_lookup(m1, s.last().offeror).purchase_amount,
                        s.last().amount as u128,
                    ),
                    ..offeror_lookup(m1, s.last().offeror)
                },
            )
        }
    }
}

/// Folds the offer submissions into the book, in stream order, and extends
/// the rolling hash chain by each submission's encoding.
pub fn submissions_hash_chain(
    subs: &Vec<OfferSubmission>,
    start_value: &Vec<u8>,
    offers: &mut Offers,
) -> (r: Vec<u8>)
    requires
        offer_book_wf(old(offers)@),
    ensures
        r@ == chain_digest(start_value@, offer_submissions_bytes(subs@)),
        final(offers)@ == apply_offer_submissions(old(offers)@, subs@),
        offer_book_wf(final(offers)@),
        r@.len() == 32 || r@ == start_value@,
{
    let ghost all = offer_submissions_bytes(subs@);
    let mut acc: Vec<u8> = clone_bytes(start_value);
    let mut i: usize = 0;
    while i < subs.len()
        invariant
            i <= subs@.len(),
            all == offer_submissions_bytes(subs@),
            acc@ == chain_digest(start_value@, all.take(i as int)),
            offers@ == apply_offer_submissions(old(offers)@, subs@.take(i as int)),
            offer_book_wf(offers@),
            i > 0 ==> acc@.len() == 32,
            i == 0 ==> acc@ == start_value@,
        decreases subs.len() - i,
    {
        proof {
            lemma_chain_digest_push(start_value@, all.take(i as int), all[i as int]);
            assert(all.take(i as int).push(all[i as int]) =~= all.take(i + 1));
            assert(subs@.take(i + 1).drop_last() =~= subs@.take(i as int));
            assert(subs@.take(i + 1).last() == subs@[i as int]);
            lemma_save_or_update_offer_wf(offers@, subs@[i as int]);
        }
        offers.save_or_update_order(&subs[i]);
        let encoded = subs[i].encode();
        acc = crate::types::add_to_hash_chain(&encoded, &acc);
        i += 1;
    }
    proof {
        assert(all.take(subs@.len() as int) =~= all);
        assert(subs@.take(subs@.len() as int) =~= subs@);
    }
    acc
}

/// Folds the offer reveals into the book, in stream order, and extends the
/// rolling hash chain by each reveal's encoding.
pub fn reveals_hash_chain(
    reveals: &Vec<OfferReveal>,
    start_value: &Vec<u8>,
    offers: &mut Offers,
) -> (r: Vec<u8>)
    requires
        offer_book_wf(old(offers)@),
    ensures
        r@ == chain_digest(start_value@, offer_reveals_bytes(reveals@)),
        final(offers)@ == apply_offer_reveals(old(offers)@, reveals@),
        offer_book_wf(final(offers)@),
        r@.len() == 32 || r@ == start_value@,
{
    let ghost all = offer_reveals_bytes(reveals@);
    let mut acc: Vec<u8> = clone_bytes(start_value);
    let mut i: usize = 0;
    while i < reveals.len()
        invariant
            i <= reveals@.len(),
            all == offer_reveals_bytes(reveals@),
            acc@ == chain_digest(start_value@, all.take(i as int)),
            offers@ == apply_offer_reveals(old(offers)@, reveals@.take(i as int)),
            offer_book_wf(offers@),
            i > 0 ==> acc@.len() == 32,
            i == 0 ==> acc@ == start_value@,
        decreases reveals.len() - i,
    {
        proof {
            lemma_chain_digest_push(start_value@, all.take(i as int), all[i as int]);
            assert(all.take(i as int).push(all[i as int]) =~= all.take(i + 1));
            assert(reveals@.take(i + 1).drop_last() =~= reveals@.take(i as int));
            assert(reveals@.take(i + 1).last() == reveals@[i as int]);
            lemma_apply_offer_reveal_wf(offers@, reveals@[i as int]);
        }
        offers.apply_reveal(&reveals[i]);
        let encoded = reveals[i].encode();
        acc = crate::types::add_to_hash_chain(&encoded, &acc);
        i += 1;
    }
    proof {
        assert(all.take(reveals@.len() as int) =~= all);
        assert(reveals@.take(reveals@.len() as int) =~= reveals@);
    }
    acc
}

/// Ascending order by revealed price.
pub open spec fn offers_price_sorted(s: Seq<Offer>) -> bool {
    forall|i: int, j: int| 0 <= i <= j < s.len()
        ==> (#[trigger] s[i]).offer_price_revealed <= (#[trigger] s[j]).offer_price_revealed
}

/// Stable insertion by revealed price: the offer goes after every offer whose
/// price is at most its own.
pub open spec fn insert_offer_by_price(s: Seq<Offer>, b: Offer) -> Seq<Offer>
    decreases s.len(),
{
    if s.len() == 0 {
        seq![b]
    } else if s.last().offer_price_revealed <= b.offer_price_revealed {
        s.push(b)
    } else {
        insert_offer_by_price(s.drop_last(), b).push(s.last())
    }
}

/// Stable sort by ascending revealed price.
pub open spec fn sort_offers_by_price(s: Seq<Offer>) -> Seq<Offer>
    decreases s.len(),
{
    if s.len() == 0 {
        Seq::empty()
    } else {
        insert_offer_by_price(sort_offers_by_price(s.drop_last()), s.last())
    }
}

/// Inserting into a price-sorted sequence at the upper-bound position is the
/// stable insertion.
proof fn lemma_insert_offer_at(s: Seq<Offer>, b: Offer, p: int)
    requires
        offers_price_sorted(s),
        0 <= p <= s.len(),
        forall|j: int| 0 <= j < p ==> (#[trigger] s[j]).offer_price_revealed <= b.offer_price_revealed,
        forall|j: int| p <= j < s.len() ==> (#[trigger] s[j]).offer_price_revealed
            > b.offer_price_revealed,
    ensures
        insert_offer_by_price(s, b) == s.insert(p, b),
    decreases s.len(),
{
    if s.len() == 0 {
        assert(insert_offer_by_price(s, b) =~= s.insert(0, b));
    } else if s.last().offer_price_revealed <= b.offer_price_revealed {
        assert(p == s.len());
        assert(s.push(b) =~= s.insert(s.len() as int, b));
    } else {
        lemma_insert_offer_at(s.drop_last(), b, p);
        assert(insert_offer_by_price(s, b) =~= s.drop_last().insert(p, b).push(s.last()));
        assert(s.drop_last().insert(p, b).push(s.last()) =~= s.insert(p, b));
    }
}

/// Stable insertion preserves the price ordering.
proof fn lemma_insert_offer_sorted(s: Seq<Offer>, b: Offer)
    requires
        offers_price_sorted(s),
    ensures
        offers_price_sorted(insert_offer_by_price(s, b)),
    decreases s.len(),
{
    if s.len() > 0 && s.last().offer_price_revealed > b.offer_price_revealed {
        lemma_insert_offer_sorted(s.drop_last(), b);
        let t = insert_offer_by_price(s.drop_last(), b).push(s.last());
        assert forall|i: int, j: int| 0 <= i <= j < t.len() implies (#[trigger] t[i])
            .offer_price_revealed <= (#[trigger] t[j]).offer_price_revealed by {
            lemma_insert_offer_members(s.drop_last(), b);
        }
    }
}

/// Every element of a stable insertion is the inserted offer or one of the
/// original offers.
proof fn lemma_insert_offer_members(s: Seq<Offer>, b: Offer)
    ensures
        insert_offer_by_price(s, b).len() == s.len() + 1,
        forall|i: int| 0 <= i < insert_offer_by_price(s, b).len()
            ==> (#[trigger] insert_offer_by_price(s, b)[i] == b
                || exists|j: int| 0 <= j < s.len() && insert_offer_by_price(s, b)[i] == s[j]),
    decreases s.len(),
{
    if s.len() > 0 && s.last().offer_price_revealed > b.offer_price_revealed {
        lemma_insert_offer_members(s.drop_last(), b);
        assert forall|i: int| 0 <= i < insert_offer_by_price(s, b).len() implies (
            #[trigger] insert_offer_by_price(s, b)[i] == b
            || exists|j: int| 0 <= j < s.len() && insert_offer_by_price(s, b)[i] == s[j]) by {
            let t = insert_offer_by_price(s.drop_last(), b);
            if i < t.len() {
                if t[i] != b {
                    let j = choose|j: int| 0 <= j < s.drop_last().len() && t[i] == s.drop_last()[j];
                    assert(s.drop_last()[j] == s[j]);
                }
            } else {
                assert(insert_offer_by_price(s, b)[i] == s.last());
            }
        }
    }
}

/// The result of the stable sort is price-sorted.
pub proof fn lemma_sort_offers_sorted(s: Seq<Offer>)
    ensures
        offers_price_sorted(sort_offers_by_price(s)),
    decreases s.len(),
{
    if s.len() > 0 {
        lemma_sort_offers_sorted(s.drop_last());
        lemma_insert_offer_sorted(sort_offers_by_price(s.drop_last()), s.last());
    }
}

/// Sorts validated offers by ascending revealed price; offers with equal
/// prices keep their book order, so the most competitive offer ends up first.
pub fn sort_orders(v: &mut Vec<Offer>)
    ensures
        final(v)@ == sort_offers_by_price(old(v)@),
        offers_price_sorted(final(v)@),
{
    let ghost orig = v@;
    if v.len() <= 1 {
        proof {
            assert(sort_offers_by_price(Seq::<Offer>::empty()) =~= Seq::<Offer>::empty());
            if orig.len() == 1 {
                assert(orig.drop_last() =~= Seq::<Offer>::empty());
                assert(insert_offer_by_price(Seq::<Offer>::empty(), orig.last()) =~= seq![orig[0]]);
                assert(sort_offers_by_price(orig) =~= orig);
            }
        }
        return;
    }
    let mut i: usize = 1;
    proof {
        assert(orig.take(1).drop_last() =~= Seq::<Offer>::empty());
        assert(sort_offers_by_price(Seq::<Offer>::empty()) =~= Seq::<Offer>::empty());
        assert(insert_offer_by_price(Seq::<Offer>::empty(), orig.take(1).last())
            =~= seq![orig[0]]);
        assert(sort_offers_by_price(orig.take(1)) =~= orig.take(1));
        lemma_sort_offers_sorted(orig.take(1));
    }
    while i < v.len()
        invariant
            1 <= i,
            v@.len() == orig.len(),
            i <= v@.len(),
            v@.take(i as int) == sort_offers_by_price(orig.take(i as int)),
            v@.skip(i as int) =~= orig.skip(i as int),
            offers_price_sorted(v@.take(i as int)),
        decreases v@.len() - i,
    {
        let b = v[i];
        proof {
            assert(v@.skip(i as int)[0] == orig.skip(i as int)[0]);
            assert(b == orig[i as int]);
        }
        // Find the upper-bound position of b's price in the sorted prefix.
        let mut p: usize = 0;
        while p < i && v[p].offer_price_revealed <= b.offer_price_revealed
            invariant
                p <= i,
                i < v@.len(),
                b == orig[i as int],
                offers_price_sorted(v@.take(i as int)),
                forall|j: int| 0 <= j < p ==> (#[trigger] v@[j]).offer_price_revealed
                    <= b.offer_price_revealed,
            decreases i - p,
        {
            p += 1;
        }
        let ghost pre = v@;
        let moved = v.remove(i);
        v.insert(p, moved);
        proof {
            assert(pre.skip(i as int)[0] == orig.skip(i as int)[0]);
            assert(moved == b);
            if p < i {
                assert(pre.take(i as int)[p as int].offer_price_revealed > b.offer_price_revealed);
            }
            assert forall|j: int| p <= j < i implies (#[trigger] pre.take(i as int)[j])
                .offer_price_revealed > b.offer_price_revealed by {
                assert(pre.take(i as int)[p as int].offer_price_revealed
                    <= pre.take(i as int)[j].offer_price_revealed);
            }
            assert forall|j: int| 0 <= j < p implies (#[trigger] pre.take(i as int)[j])
                .offer_price_revealed <= b.offer_price_revealed by {
                assert(pre.take(i as int)[j] == pre[j]);
            }
            lemma_insert_offer_at(pre.take(i as int), b, p as int);
            assert(pre.remove(i as int).insert(p as int, b).take(i + 1)
                =~= pre.take(i as int).insert(p as int, b));
            assert(v@.take(i + 1) == pre.take(i as int).insert(p as int, b));
            assert(orig.take(i + 1).drop_last() =~= orig.take(i as int));
            assert(orig.take(i + 1).last() == orig[i as int]);
            assert(v@.take(i + 1) == sort_offers_by_price(orig.take(i + 1)));
            lemma_sort_offers_sorted(orig.take(i + 1));
            assert forall|j: int| i + 1 <= j < v@.len() implies #[trigger] v@[j] == pre[j] by {
                assert(pre.remove(i as int)[j - 1] == pre[j]);
                assert(v@[j] == pre.remove(i as int)[j - 1]);
            }
            assert forall|j: int| i + 1 <= j < pre.len() implies #[trigger] pre[j] == orig[j] by {
                assert(pre.skip(i as int)[j - i] == orig.skip(i as int)[j - i]);
            }
            assert(v@.skip(i + 1) =~= orig.skip(i + 1));
        }
        i += 1;
    }
    proof {
        if orig.len() == 0 {
            assert(v@ =~= sort_offers_by_price(orig));
        } else {
            assert(orig.take(orig.len() as int) =~= orig);
            assert(v@.take(orig.len() as int) =~= v@);
        }
    }
}

/// Every element of the sorted sequence is one of the original offers.
pub proof fn lemma_sort_offers_members(s: Seq<Offer>)
    ensures
        sort_offers_by_price(s).len() == s.len(),
        forall|i: int| 0 <= i < sort_offers_by_price(s).len()
            ==> exists|j: int| 0 <= j < s.len() && #[trigger] sort_offers_by_price(s)[i] == s[j],
    decreases s.len(),
{
    if s.len() > 0 {
        lemma_sort_offers_members(s.drop_last());
        lemma_insert_offer_members(sort_offers_by_price(s.drop_last()), s.last());
        let t = sort_offers_by_price(s);
        assert forall|i: int| 0 <= i < t.len() implies exists|j: int|
            0 <= j < s.len() && #[trigger] t[i] == s[j] by {
            let prev = sort_offers_by_price(s.drop_last());
            if t[i] == s.last() {
                assert(t[i] == s[s.len() - 1]);
            } else {
                let j0 = choose|j0: int| 0 <= j0 < prev.len() && t[i] == prev[j0];
                let j1 = choose|j1: int| 0 <= j1 < s.drop_last().len() && prev[j0]
                    == s.drop_last()[j1];
                assert(t[i] == s[j1]);
            }
        }
    }
}

/// The offeror allocations after refunding the locked purchase tokens of
/// every offer in the list, in list order.
pub open spec fn unlock_offers_spec(
    m: Seq<(Address, OfferorAllocation)>,
    s: Seq<Offer>,
) -> Seq<(Address, OfferorAllocation)>
    decreases s.len(),
{
    if s.len() == 0 {
        m
    } else {
        let m1 = unlock_offers_spec(m, s.drop_last());
        offeror_upsert(
            m1,
            s.last().offeror,
            OfferorAllocation {
                purchase_amount: sat_add(
                    offeror_lookup(m1, s.last().offeror).purchase_amount,
                    s.last().amount as u128,
                ),
                ..offeror_lookup(m1, s.last().offeror)
            },
        )
    }
}

/// Unlocks every outstanding validated offer: each offeror is refunded the
/// offer's locked purchase tokens.
pub fn unlock_outstanding_orders(offers: &Vec<Offer>, allocations: &mut OfferorAllocations)
    requires
        offeror_map_wf(old(allocations)@),
    ensures
        final(allocations)@ == unlock_offers_spec(old(allocations)@, offers@),
        offeror_map_wf(final(allocations)@),
{
    let mut i: usize = 0;
    let n = offers.len();
    proof {
        assert(offers@.take(0) =~= Seq::<Offer>::empty());
    }
    while i < n
        invariant
            i <= n,
            n == offers@.len(),
            allocations@ == unlock_offers_spec(old(allocations)@, offers@.take(i as int)),
            offeror_map_wf(allocations@),
        decreases n - i,
    {
        let o = offers[i];
        proof {
            assert(offers@.take(i + 1).drop_last() =~= offers@.take(i as int));
            assert(offers@.take(i + 1).last() == offers@[i as int]);
            lemma_offeror_upsert_wf(
                allocations@,
                o.offeror,
                (OfferorAllocation {
                    purchase_amount: sat_add(
                        offeror_lookup(allocations@, o.offeror).purchase_amount,
                        o.amount as u128,
                    ),
                    ..offeror_lookup(allocations@, o.offeror)
                }),
            );
        }
        allocations.add_purchase(&o.offeror, o.amount as u128);
        i += 1;
    }
    proof {
        assert(offers@.take(n as int) =~= offers@);
    }
}

/// Applying a valid reveal twice leaves the book exactly as applying it
/// once: a reveal is idempotent.
pub proof fn lemma_offer_reveal_idempotent(s: Seq<Offer>, r: OfferReveal)
    ensures
        apply_offer_reveal(apply_offer_reveal(s, r), r) == apply_offer_reveal(s, r),
{
    let p = offer_find(s, r.order_id, 0);
    lemma_offer_find_bounds(s, r.order_id, 0);
    if p < s.len() && offer_key(s[p]) == r.order_id {
        let nb = reveal_offer(s[p], r);
        let t = s.update(p, nb);
        assert(apply_offer_reveal(s, r) == t);
        assert forall|j: int| 0 <= j < t.len() implies offer_key(#[trigger] t[j])
            == offer_key(s[j]) by {}
        lemma_offer_find_char(
            t,
            r.order_id,
            0,
            p,
        );
        assert(offer_find(t, r.order_id, 0) == p);
        assert(reveal_offer(nb, r) == nb);
        assert(t.update(p, nb) =~= t);
    } else {
        assert(apply_offer_reveal(s, r) == s);
    }
}

/// A reveal whose price commitment does not match the book entry's leaves
/// the book unchanged; so does a reveal for an unknown key or an
/// out-of-bounds price.
pub proof fn lemma_offer_reveal_no_change(s: Seq<Offer>, r: OfferReveal)
    requires
        forall|i: int| 0 <= i < s.len() && offer_key(#[trigger] s[i]) == r.order_id
            ==> price_hash_spec(r.price, r.nonce) != digest_bytes(s[i].offer_price_hash)
                || r.price > MAX_OFFER_PRICE,
    ensures
        apply_offer_reveal(s, r) == s,
{
    let p = offer_find(s, r.order_id, 0);
    lemma_offer_find_bounds(s, r.order_id, 0);
    if p < s.len() && offer_key(s[p]) == r.order_id {
        assert(reveal_offer(s[p], r) == s[p]);
        assert(s.update(p, s[p]) =~= s);
    }
}

/// The total purchase tokens locked by the offers of a list.
pub open spec fn sum_offer_locked(s: Seq<Offer>) -> int
    decreases s.len(),
{
    if s.len() == 0 {
        0
    } else {
        sum_offer_locked(s.drop_last()) + s.last().amount
    }
}

pub proof fn lemma_sum_offer_locked_nonneg(s: Seq<Offer>)
    ensures
        sum_offer_locked(s) >= 0,
    decreases s.len(),
{
    if s.len() > 0 {
        lemma_sum_offer_locked_nonneg(s.drop_last());
    }
}

/// Conservation at unlock: when every validated offer is unlocked, the total
/// purchase tokens refunded across offeror allocations grow by exactly the
/// total amount locked by the unlocked offers.
pub proof fn lemma_unlock_offers_conservation(m: Seq<(Address, OfferorAllocation)>, s: Seq<Offer>)
    requires
        crate::allocations::total_offeror_purchase(m) + sum_offer_locked(s) <= u128::MAX,
    ensures
        crate::allocations::total_offeror_purchase(unlock_offers_spec(m, s))
            == crate::allocations::total_offeror_purchase(m) + sum_offer_locked(s),
    decreases s.len(),
{
    if s.len() > 0 {
        lemma_sum_offer_locked_nonneg(s.drop_last());
        lemma_unlock_offers_conservation(m, s.drop_last());
        let m1 = unlock_offers_spec(m, s.drop_last());
        let o = s.last();
        crate::allocations::lemma_offeror_lookup_le_total(m1, o.offeror);
        let al = offeror_lookup(m1, o.offeror);
        assert(sat_add(al.purchase_amount, o.amount as u128)
            == al.purchase_amount + o.amount);
        crate::allocations::lemma_total_offeror_purchase_upsert(
            m1,
            o.offeror,
            OfferorAllocation {
                purchase_amount: sat_add(al.purchase_amount, o.amount as u128),
                ..al
            },
        );
    }
}

/// No two offers in the list share a revealed price.
pub open spec fn offers_distinct_prices(s: Seq<Offer>) -> bool {
    forall|i: int, j: int| 0 <= i < j < s.len()
        ==> (#[trigger] s[i]).offer_price_revealed != (#[trigger] s[j]).offer_price_revealed
}

/// Stable insertion adds exactly the inserted offer to the multiset.
proof fn lemma_insert_offer_multiset(s: Seq<Offer>, b: Offer)
    ensures
        insert_offer_by_price(s, b).to_multiset() == s.to_multiset().insert(b),
    decreases s.len(),
{
    broadcast use vstd::seq_lib::group_to_multiset_ensures;

    if s.len() == 0 {
        assert(insert_offer_by_price(s, b) =~= Seq::<Offer>::empty().push(b));
    } else if s.last().offer_price_revealed <= b.offer_price_revealed {
    } else {
        lemma_insert_offer_multiset(s.drop_last(), b);
        assert(s.drop_last().push(s.last()) =~= s);
        assert(insert_offer_by_price(s, b).to_multiset()
            =~= s.drop_last().to_multiset().insert(b).insert(s.last()));
        assert(s.to_multiset().insert(b) =~= s.drop_last().to_multiset().insert(s.last()).insert(b));
        assert(s.drop_last().to_multiset().insert(b).insert(s.last())
            =~= s.drop_last().to_multiset().insert(s.last()).insert(b));
    }
}

/// Sorting preserves the multiset of offers.
pub proof fn lemma_sort_offers_multiset(s: Seq<Offer>)
    ensures
        sort_offers_by_price(s).to_multiset() == s.to_multiset(),
    decreases s.len(),
{
    broadcast use vstd::seq_lib::group_to_multiset_ensures;

    if s.len() > 0 {
        lemma_sort_offers_multiset(s.drop_last());
        lemma_insert_offer_multiset(sort_offers_by_price(s.drop_last()), s.last());
        assert(s.drop_last().push(s.last()) =~= s);
        assert(sort_offers_by_price(s).to_multiset() =~= s.to_multiset());
    }
}

/// Two price-sorted lists with the same offers and pairwise distinct prices
/// are identical.
proof fn lemma_sorted_offers_unique(s1: Seq<Offer>, s2: Seq<Offer>)
    requires
        offers_price_sorted(s1),
        offers_price_sorted(s2),
        offers_distinct_prices(s1),
        s1.to_multiset() == s2.to_multiset(),
    ensures
        s1 == s2,
    decreases s1.len(),
{
    broadcast use vstd::seq_lib::group_to_multiset_ensures;

    assert(s1.len() == s1.to_multiset().len());
    assert(s2.len() == s2.to_multiset().len());
    assert(s1.len() == s2.len());
    if s1.len() == 0 {
        assert(s1 =~= s2);
    } else {
        let a = s1.last();
        let b = s2.last();
        assert(s1.to_multiset().count(a) > 0);
        assert(s2.contains(a));
        let k = choose|k: int| 0 <= k < s2.len() && s2[k] == a;
        assert(a.offer_price_revealed <= b.offer_price_revealed);
        assert(s2.to_multiset().count(b) > 0);
        assert(s1.contains(b));
        let m = choose|m: int| 0 <= m < s1.len() && s1[m] == b;
        assert(b.offer_price_revealed <= a.offer_price_revealed);
        assert(a.offer_price_revealed == b.offer_price_revealed);
        assert(m == s1.len() - 1) by {
            if m < s1.len() - 1 {
                assert(s1[m].offer_price_revealed != s1[s1.len() - 1].offer_price_revealed);
            }
        }
        assert(a == b);
        assert(s1.drop_last().push(a) =~= s1);
        assert(s2.drop_last().push(a) =~= s2);
        assert(s1.drop_last().to_multiset().insert(a) =~= s1.to_multiset());
        assert(s2.drop_last().to_multiset().insert(a) =~= s2.to_multiset());
        assert(s1.drop_last().to_multiset() =~= s1.to_multiset().remove(a)) by {
            broadcast use vstd::multiset::group_multiset_axioms;
        }
        assert(s2.drop_last().to_multiset() =~= s2.to_multiset().remove(a)) by {
            broadcast use vstd::multiset::group_multiset_axioms;
        }
        lemma_sorted_offers_unique(s1.drop_last(), s2.drop_last());
        assert(s1 =~= s2);
    }
}

/// Ordering invariance: when the validated offers carry pairwise distinct
/// prices, any reordering of the list before sorting yields the same sorted
/// list, so everything computed from it is unchanged. With equal prices, a
/// reordering may change how a partially assigned marginal group is split.
pub proof fn lemma_sort_offers_permutation_invariant(s1: Seq<Offer>, s2: Seq<Offer>)
    requires
        offers_distinct_prices(s1),
        s1.to_multiset() == s2.to_multiset(),
    ensures
        sort_offers_by_price(s1) == sort_offers_by_price(s2),
{
    broadcast use vstd::seq_lib::group_to_multiset_ensures;

    lemma_sort_offers_multiset(s1);
    lemma_sort_offers_multiset(s2);
    lemma_sort_offers_sorted(s1);
    lemma_sort_offers_sorted(s2);
    let t1 = sort_offers_by_price(s1);
    assert(offers_distinct_prices(t1)) by {
        assert(s1.no_duplicates()) by {
            assert forall|i: int, j: int| 0 <= i < s1.len() && 0 <= j < s1.len() && i != j
                implies s1[i] != s1[j] by {
                if i < j {
                    assert(s1[i].offer_price_revealed != s1[j].offer_price_revealed);
                } else {
                    assert(s1[j].offer_price_revealed != s1[i].offer_price_revealed);
                }
            }
        }
        s1.lemma_multiset_has_no_duplicates();
        t1.lemma_multiset_has_no_duplicates_conv();
        lemma_sort_offers_members(s1);
        assert forall|i: int, j: int| 0 <= i < j < t1.len() implies (#[trigger] t1[i])
            .offer_price_revealed != (#[trigger] t1[j]).offer_price_revealed by {
            assert(t1[i] != t1[j]);
            let a = choose|a: int| 0 <= a < s1.len() && t1[i] == s1[a];
            let b = choose|b: int| 0 <= b < s1.len() && t1[j] == s1[b];
            assert(a != b);
        }
    }
    lemma_sorted_offers_unique(t1, sort_offers_by_price(s2));
}

} // verus!
