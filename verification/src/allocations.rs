//! Per-actor allocations: the credits accumulated during one auction run.
use vstd::prelude::*;

use crate::exit_tree::ExitLeaf;
use crate::types::{address_lt, address_less, Address, AuctionParameters};

verus! {

/// Saturating addition on 128-bit amounts.
pub open spec fn sat_add(a: u128, b: u128) -> u128 {
    if a + b > u128::MAX {
        u128::MAX
    } else {
        (a + b) as u128
    }
}

/// Adds two amounts, saturating at the largest representable value.
pub fn sat_add_u128(a: u128, b: u128) -> (r: u128)
    ensures
        r == sat_add(a, b),
{
    if a > u128::MAX - b {
        u128::MAX
    } else {
        a + b
    }
}

/// A bidder's repurchase obligation at maturity.
#[derive(Clone, Copy, PartialEq, Eq, Structural, Debug)]
pub struct RepurchaseObligation {
    /// The amount to be repaid at maturity.
    pub repurchase_amount: u128,
    /// The collateral released against the repayment.
    pub collateral_amount: u128,
}

impl Default for RepurchaseObligation {
    /// The zero obligation.
    fn default() -> (r: Self)
        ensures
            r == (RepurchaseObligation { repurchase_amount: 0, collateral_amount: 0 }),
    {
        RepurchaseObligation { repurchase_amount: 0, collateral_amount: 0 }
    }
}

/// The allocation accumulated by one bidder.
#[derive(Clone, Copy, PartialEq, Eq, Structural, Debug)]
pub struct BidderAllocation {
    /// Purchase tokens disbursed to the bidder.
    pub purchase_amount: u128,
    /// Collateral tokens returned to the bidder.
    pub collateral_amount: u128,
    /// The bidder's repurchase obligation.
    pub repurchase_obligation: RepurchaseObligation,
}

/// The all-zero bidder allocation.
pub open spec fn zero_bidder_allocation() -> BidderAllocation {
    BidderAllocation {
        purchase_amount: 0,
        collateral_amount: 0,
        repurchase_obligation: RepurchaseObligation { repurchase_amount: 0, collateral_amount: 0 },
    }
}

impl Default for BidderAllocation {
    /// The zero allocation.
    fn default() -> (r: Self)
        ensures
            r == zero_bidder_allocation(),
    {
        BidderAllocation {
            purchase_amount: 0,
            collateral_amount: 0,
            repurchase_obligation: RepurchaseObligation {
                repurchase_amount: 0,
                collateral_amount: 0,
            },
        }
    }
}

impl BidderAllocation {
    /// Adds to the purchase token amount, saturating.
    pub fn update_purchase_amount(&mut self, amount: u128)
        ensures
            *final(self) == (BidderAllocation {
                purchase_amount: sat_add(old(self).purchase_amount, amount),
                ..*old(self)
            }),
    {
        self.purchase_amount = sat_add_u128(self.purchase_amount, amount);
    }

    /// Adds to the collateral token amount, saturating.
    pub fn update_collateral_amount(&mut self, amount: u128)
        ensures
            *final(self) == (BidderAllocation {
                collateral_amount: sat_add(old(self).collateral_amount, amount),
                ..*old(self)
            }),
    {
        self.collateral_amount = sat_add_u128(self.collateral_amount, amount);
    }

    /// Adds to both fields of the repurchase obligation, saturating.
    pub fn update_repurchase_obligation(&mut self, repurchase_amount: u128, collateral_amount: u128)
        ensures
            *final(self) == (BidderAllocation {
                repurchase_obligation: RepurchaseObligation {
                    repurchase_amount: sat_add(
                        old(self).repurchase_obligation.repurchase_amount,
                        repurchase_amount,
                    ),
                    collateral_amount: sat_add(
                        old(self).repurchase_obligation.collateral_amount,
                        collateral_amount,
                    ),
                },
                ..*old(self)
            }),
    {
        self.repurchase_obligation.repurchase_amount = sat_add_u128(
            self.repurchase_obligation.repurchase_amount,
            repurchase_amount,
        );
        self.repurchase_obligation.collateral_amount = sat_add_u128(
            self.repurchase_obligation.collateral_amount,
            collateral_amount,
        );
    }
}

/// The allocation accumulated by one offeror.
#[derive(Clone, Copy, PartialEq, Eq, Structural, Debug)]
pub struct OfferorAllocation {
    /// Repo tokens assigned to the offeror.
    pub repo_amount: u128,
    /// Purchase tokens returned to the offeror.
    pub purchase_amount: u128,
}

/// The all-zero offeror allocation.
pub open spec fn zero_offeror_allocation() -> OfferorAllocation {
    OfferorAllocation { repo_amount: 0, purchase_amount: 0 }
}

impl Default for OfferorAllocation {
    /// The zero allocation.
    fn default() -> (r: Self)
        ensures
            r == zero_offeror_allocation(),
    {
        OfferorAllocation { repo_amount: 0, purchase_amount: 0 }
    }
}

impl OfferorAllocation {
    /// Adds to the repo token amount, saturating.
    pub fn update_repo_amount(&mut self, amount: u128)
        ensures
            *final(self) == (OfferorAllocation {
                repo_amount: sat_add(old(self).repo_amount, amount),
                ..*old(self)
            }),
    {
        self.repo_amount = sat_add_u128(self.repo_amount, amount);
    }

    /// Adds to the purchase token amount, saturating.
    pub fn update_purchase_amount(&mut self, amount: u128)
        ensures
            *final(self) == (OfferorAllocation {
                purchase_amount: sat_add(old(self).purchase_amount, amount),
                ..*old(self)
            }),
    {
        self.purchase_amount = sat_add_u128(self.purchase_amount, amount);
    }
}

/// The prover's allocation: the fee sink, which may stay zero.
#[derive(Clone, Copy, PartialEq, Eq, Structural, Debug)]
pub struct ProverAllocation {
    /// The prover's address.
    pub prover_address: Address,
    /// Purchase tokens credited to the prover.
    pub purchase_amount: u128,
}

impl ProverAllocation {
    /// A fresh prover allocation with a zero balance.
    pub fn new(prover_address: &Address) -> (r: Self)
        ensures
            r == (ProverAllocation { prover_address: *prover_address, purchase_amount: 0 }),
    {
        ProverAllocation { prover_address: *prover_address, purchase_amount: 0 }
    }

    /// Adds to the purchase token amount, saturating.
    pub fn update_purchase_amount(&mut self, amount: u128)
        ensures
            *final(self) == (ProverAllocation {
                purchase_amount: sat_add(old(self).purchase_amount, amount),
                ..*old(self)
            }),
    {
        self.purchase_amount = sat_add_u128(self.purchase_amount, amount);
    }
}

/// A map from bidder address to allocation, kept as an address-sorted vector.
pub struct BidderAllocations {
    entries: Vec<(Address, BidderAllocation)>,
}

/// Strictly ascending addresses: each address appears at most once, and
/// iteration order is ascending address order.
pub open spec fn bidder_map_wf(s: Seq<(Address, BidderAllocation)>) -> bool {
    forall|i: int, j: int| 0 <= i < j < s.len() ==> address_lt(#[trigger] s[i].0, #[trigger] s[j].0)
}

/// The first index at or after `i` whose address is not below `a`.
pub open spec fn bidder_find(s: Seq<(Address, BidderAllocation)>, a: Address, i: int) -> int
    decreases s.len() - i,
{
    if i < 0 || i >= s.len() {
        s.len() as int
    } else if !address_lt(s[i].0, a) {
        i
    } else {
        bidder_find(s, a, i + 1)
    }
}

pub proof fn lemma_bidder_find_char(s: Seq<(Address, BidderAllocation)>, a: Address, i: int, p: int)
    requires
        0 <= i <= p <= s.len(),
        forall|j: int| i <= j < p ==> address_lt(#[trigger] s[j].0, a),
        p < s.len() ==> !address_lt(s[p].0, a),
    ensures
        bidder_find(s, a, i) == p,
    decreases p - i,
{
    if i < p {
        lemma_bidder_find_char(s, a, i + 1, p);
    }
}

/// The allocation recorded for `a`, or the zero allocation if none is.
pub open spec fn bidder_lookup(s: Seq<(Address, BidderAllocation)>, a: Address) -> BidderAllocation {
    let p = bidder_find(s, a, 0);
    if p < s.len() && s[p].0 == a {
        s[p].1
    } else {
        zero_bidder_allocation()
    }
}

/// The map with `a` bound to `al`: the entry is overwritten in place, or
/// inserted at its address-ordered position.
pub open spec fn bidder_upsert(
    s: Seq<(Address, BidderAllocation)>,
    a: Address,
    al: BidderAllocation,
) -> Seq<(Address, BidderAllocation)> {
    let p = bidder_find(s, a, 0);
    if p < s.len() && s[p].0 == a {
        s.update(p, (a, al))
    } else {
        s.insert(p, (a, al))
    }
}

pub proof fn lemma_bidder_find_bounds(s: Seq<(Address, BidderAllocation)>, a: Address, i: int)
    requires
        0 <= i <= s.len(),
    ensures
        i <= bidder_find(s, a, i) <= s.len(),
        forall|j: int| i <= j < bidder_find(s, a, i) ==> address_lt(#[trigger] s[j].0, a),
        bidder_find(s, a, i) < s.len() ==> !address_lt(s[bidder_find(s, a, i)].0, a),
    decreases s.len() - i,
{
    if i < s.len() && address_lt(s[i].0, a) {
        lemma_bidder_find_bounds(s, a, i + 1);
    }
}

/// Upserting keeps the map well formed.
pub proof fn lemma_bidder_upsert_wf(
    s: Seq<(Address, BidderAllocation)>,
    a: Address,
    al: BidderAllocation,
)
    requires
        bidder_map_wf(s),
    ensures
        bidder_map_wf(bidder_upsert(s, a, al)),
{
    let p = bidder_find(s, a, 0);
    lemma_bidder_find_bounds(s, a, 0);
    if p < s.len() && s[p].0 == a {
        let t = s.update(p, (a, al));
        assert forall|i: int, j: int| 0 <= i < j < t.len() implies address_lt(
            #[trigger] t[i].0,
            #[trigger] t[j].0,
        ) by {
            assert(t[i].0 == s[i].0 || (i == p && t[i].0 == a));
            assert(t[j].0 == s[j].0 || (j == p && t[j].0 == a));
        }
    } else {
        let t = s.insert(p, (a, al));
        assert forall|i: int, j: int| 0 <= i < j < t.len() implies address_lt(
            #[trigger] t[i].0,
            #[trigger] t[j].0,
        ) by {
            if i < p && j == p {
                assert(t[i].0 == s[i].0 && address_lt(s[i].0, a));
            } else if i == p && j > p {
                assert(t[j].0 == s[j - 1].0);
                assert(!address_lt(s[p].0, a) || p == s.len());
                if j - 1 == p {
                    assert(!address_lt(s[p].0, a) && s[p].0 != a);
                    assert(address_lt(a, s[p].0));
                } else {
                    assert(address_lt(s[p].0, s[j - 1].0) || p == s.len());
                    if p < s.len() {
                        assert(address_lt(a, s[p].0) || a == s[p].0);
                    }
                }
            }
        }
    }
}

impl View for BidderAllocations {
    type V = Seq<(Address, BidderAllocation)>;

    closed spec fn view(&self) -> Seq<(Address, BidderAllocation)> {
        self.entries@
    }
}

impl BidderAllocations {
    /// An empty map.
    pub fn new() -> (r: Self)
        ensures
            r@ == Seq::<(Address, BidderAllocation)>::empty(),
    {
        BidderAllocations { entries: Vec::new() }
    }

    /// The number of bidders holding an allocation.
    pub fn len(&self) -> (r: usize)
        ensures
            r == self@.len(),
    {
        self.entries.len()
    }

    /// The entry at iteration position `i`, in ascending address order.
    pub fn entry_at(&self, i: usize) -> (r: (Address, BidderAllocation))
        requires
            i < self@.len(),
        ensures
            r == self@[i as int],
    {
        self.entries[i]
    }

    /// The position of the first entry whose address is not below `a`.
    fn find_index(&self, a: &Address) -> (r: usize)
        ensures
            r == bidder_find(self@, *a, 0),
    {
        let mut i: usize = 0;
        while i < self.entries.len()
            invariant
                i <= self@.len(),
                forall|j: int| 0 <= j < i ==> address_lt(#[trigger] self@[j].0, *a),
            decreases self@.len() - i,
        {
            if !address_less(&self.entries[i].0, a) {
                proof {
                    lemma_bidder_find_char(self@, *a, 0, i as int);
                }
                return i;
            }
            i += 1;
        }
        proof {
            lemma_bidder_find_char(self@, *a, 0, self@.len() as int);
        }
        i
    }

    /// The allocation recorded for `a`, or the zero allocation if none is.
    pub fn get_allocation(&self, a: &Address) -> (r: BidderAllocation)
        ensures
            r == bidder_lookup(self@, *a),
    {
        let p = self.find_index(a);
        if p < self.entries.len() && self.entries[p].0 == *a {
            self.entries[p].1
        } else {
            BidderAllocation::default()
        }
    }

    /// Binds `a` to `al`, inserting at the address-ordered position.
    fn put(&mut self, a: &Address, al: BidderAllocation)
        ensures
            final(self)@ == bidder_upsert(old(self)@, *a, al),
    {
        let p = self.find_index(a);
        if p < self.entries.len() && self.entries[p].0 == *a {
            self.entries.remove(p);
            self.entries.insert(p, (*a, al));
            proof {
                assert(self@ =~= bidder_upsert(old(self)@, *a, al));
            }
        } else {
            proof {
                lemma_bidder_find_bounds(old(self)@, *a, 0);
            }
            self.entries.insert(p, (*a, al));
        }
    }

    /// Credits `amount` of collateral to the allocation of `a`.
    pub fn add_collateral(&mut self, a: &Address, amount: u128)
        ensures
            final(self)@ == bidder_upsert(
                old(self)@,
                *a,
                (BidderAllocation {
                    collateral_amount: sat_add(bidder_lookup(old(self)@, *a).collateral_amount, amount),
                    ..bidder_lookup(old(self)@, *a)
                }),
            ),
    {
        let mut al = self.get_allocation(a);
        al.update_collateral_amount(amount);
        self.put(a, al);
    }

    /// Credits an assignment to the allocation of `a`: the purchase amount
    /// disbursed and the repurchase obligation incurred.
    pub fn add_assignment(&mut self, a: &Address, purchase: u128, repurchase: u128, collateral: u128)
        ensures
            final(self)@ == bidder_upsert(
                old(self)@,
                *a,
                (BidderAllocation {
                    purchase_amount: sat_add(bidder_lookup(old(self)@, *a).purchase_amount, purchase),
                    repurchase_obligation: RepurchaseObligation {
                        repurchase_amount: sat_add(
                            bidder_lookup(old(self)@, *a).repurchase_obligation.repurchase_amount,
                            repurchase,
                        ),
                        collateral_amount: sat_add(
                            bidder_lookup(old(self)@, *a).repurchase_obligation.collateral_amount,
                            collateral,
                        ),
                    },
                    ..bidder_lookup(old(self)@, *a)
                }),
            ),
    {
        let mut al = self.get_allocation(a);
        al.update_purchase_amount(purchase);
        al.update_repurchase_obligation(repurchase, collateral);
        self.put(a, al);
    }
}

/// A map from offeror address to allocation, kept as an address-sorted vector.
pub struct OfferorAllocations {
    entries: Vec<(Address, OfferorAllocation)>,
}

/// Strictly ascending addresses.
pub open spec fn offeror_map_wf(s: Seq<(Address, OfferorAllocation)>) -> bool {
    forall|i: int, j: int| 0 <= i < j < s.len() ==> address_lt(#[trigger] s[i].0, #[trigger] s[j].0)
}

/// The first index at or after `i` whose address is not below `a`.
pub open spec fn offeror_find(s: Seq<(Address, OfferorAllocation)>, a: Address, i: int) -> int
    decreases s.len() - i,
{
    if i < 0 || i >= s.len() {
        s.len() as int
    } else if !address_lt(s[i].0, a) {
        i
    } else {
        offeror_find(s, a, i + 1)
    }
}

pub proof fn lemma_offeror_find_char(s: Seq<(Address, OfferorAllocation)>, a: Address, i: int, p: int)
    requires
        0 <= i <= p <= s.len(),
        forall|j: int| i <= j < p ==> address_lt(#[trigger] s[j].0, a),
        p < s.len() ==> !address_lt(s[p].0, a),
    ensures
        offeror_find(s, a, i) == p,
    decreases p - i,
{
    if i < p {
        lemma_offeror_find_char(s, a, i + 1, p);
    }
}

pub proof fn lemma_offeror_find_bounds(s: Seq<(Address, OfferorAllocation)>, a: Address, i: int)
    requires
        0 <= i <= s.len(),
    ensures
        i <= offeror_find(s, a, i) <= s.len(),
        forall|j: int| i <= j < offeror_find(s, a, i) ==> address_lt(#[trigger] s[j].0, a),
        offeror_find(s, a, i) < s.len() ==> !address_lt(s[offeror_find(s, a, i)].0, a),
    decreases s.len() - i,
{
    if i < s.len() && address_lt(s[i].0, a) {
        lemma_offeror_find_bounds(s, a, i + 1);
    }
}

/// The allocation recorded for `a`, or the zero allocation if none is.
pub open spec fn offeror_lookup(s: Seq<(Address, OfferorAllocation)>, a: Address) -> OfferorAllocation {
    let p = offeror_find(s, a, 0);
    if p < s.len() && s[p].0 == a {
        s[p].1
    } else {
        zero_offeror_allocation()
    }
}

/// The map with `a` bound to `al`.
pub open spec fn offeror_upsert(
    s: Seq<(Address, OfferorAllocation)>,
    a: Address,
    al: OfferorAllocation,
) -> Seq<(Address, OfferorAllocation)> {
    let p = offeror_find(s, a, 0);
    if p < s.len() && s[p].0 == a {
        s.update(p, (a, al))
    } else {
        s.insert(p, (a, al))
    }
}

/// Upserting keeps the map well formed.
pub proof fn lemma_offeror_upsert_wf(
    s: Seq<(Address, OfferorAllocation)>,
    a: Address,
    al: OfferorAllocation,
)
    requires
        offeror_map_wf(s),
    ensures
        offeror_map_wf(offeror_upsert(s, a, al)),
{
    let p = offeror_find(s, a, 0);
    lemma_offeror_find_bounds(s, a, 0);
    if p < s.len() && s[p].0 == a {
        let t = s.update(p, (a, al));
        assert forall|i: int, j: int| 0 <= i < j < t.len() implies address_lt(
            #[trigger] t[i].0,
            #[trigger] t[j].0,
        ) by {
            assert(t[i].0 == s[i].0 || (i == p && t[i].0 == a));
            assert(t[j].0 == s[j].0 || (j == p && t[j].0 == a));
        }
    } else {
        let t = s.insert(p, (a, al));
        assert forall|i: int, j: int| 0 <= i < j < t.len() implies address_lt(
            #[trigger] t[i].0,
            #[trigger] t[j].0,
        ) by {
            if i < p && j == p {
                assert(t[i].0 == s[i].0 && address_lt(s[i].0, a));
            } else if i == p && j > p {
                assert(t[j].0 == s[j - 1].0);
                if j - 1 == p {
                    assert(!address_lt(s[p].0, a) && s[p].0 != a);
                    assert(address_lt(a, s[p].0));
                } else {
                    if p < s.len() {
                        assert(address_lt(a, s[p].0) || a == s[p].0);
                    }
                }
            }
        }
    }
}

impl View for OfferorAllocations {
    type V = Seq<(Address, OfferorAllocation)>;

    closed spec fn view(&self) -> Seq<(Address, OfferorAllocation)> {
        self.entries@
    }
}

impl OfferorAllocations {
    /// An empty map.
    pub fn new() -> (r: Self)
        ensures
            r@ == Seq::<(Address, OfferorAllocation)>::empty(),
    {
        OfferorAllocations { entries: Vec::new() }
    }

    /// The number of offerors holding an allocation.
    pub fn len(&self) -> (r: usize)
        ensures
            r == self@.len(),
    {
        self.entries.len()
    }

    /// The entry at iteration position `i`, in ascending address order.
    pub fn entry_at(&self, i: usize) -> (r: (Address, OfferorAllocation))
        requires
            i < self@.len(),
        ensures
            r == self@[i as int],
    {
        self.entries[i]
    }

    /// The position of the first entry whose address is not below `a`.
    fn find_index(&self, a: &Address) -> (r: usize)
        ensures
            r == offeror_find(self@, *a, 0),
    {
        let mut i: usize = 0;
        while i < self.entries.len()
            invariant
                i <= self@.len(),
                forall|j: int| 0 <= j < i ==> address_lt(#[trigger] self@[j].0, *a),
            decreases self@.len() - i,
        {
            if !address_less(&self.entries[i].0, a) {
                proof {
                    lemma_offeror_find_char(self@, *a, 0, i as int);
                }
                return i;
            }
            i += 1;
        }
        proof {
            lemma_offeror_find_char(self@, *a, 0, self@.len() as int);
        }
        i
    }

    /// The allocation recorded for `a`, or the zero allocation if none is.
    pub fn get_allocation(&self, a: &Address) -> (r: OfferorAllocation)
        ensures
            r == offeror_lookup(self@, *a),
    {
        let p = self.find_index(a);
        if p < self.entries.len() && self.entries[p].0 == *a {
            self.entries[p].1
        } else {
            OfferorAllocation::default()
        }
    }

    /// Binds `a` to `al`, inserting at the address-ordered position.
    fn put(&mut self, a: &Address, al: OfferorAllocation)
        ensures
            final(self)@ == offeror_upsert(old(self)@, *a, al),
    {
        let p = self.find_index(a);
        if p < self.entries.len() && self.entries[p].0 == *a {
            self.entries.remove(p);
            self.entries.insert(p, (*a, al));
            proof {
                assert(self@ =~= offeror_upsert(old(self)@, *a, al));
            }
        } else {
            proof {
                lemma_offeror_find_bounds(old(self)@, *a, 0);
            }
            self.entries.insert(p, (*a, al));
        }
    }

    /// Credits `amount` of purchase tokens to the allocation of `a`.
    pub fn add_purchase(&mut self, a: &Address, amount: u128)
        ensures
            final(self)@ == offeror_upsert(
                old(self)@,
                *a,
                (OfferorAllocation {
                    purchase_amount: sat_add(offeror_lookup(old(self)@, *a).purchase_amount, amount),
                    ..offeror_lookup(old(self)@, *a)
                }),
            ),
    {
        let mut al = self.get_allocation(a);
        al.update_purchase_amount(amount);
        self.put(a, al);
    }

    /// Credits `amount` of repo tokens to the allocation of `a`.
    pub fn add_repo(&mut self, a: &Address, amount: u128)
        ensures
            final(self)@ == offeror_upsert(
                old(self)@,
                *a,
                (OfferorAllocation {
                    repo_amount: sat_add(offeror_lookup(old(self)@, *a).repo_amount, amount),
                    ..offeror_lookup(old(self)@, *a)
                }),
            ),
    {
        let mut al = self.get_allocation(a);
        al.update_repo_amount(amount);
        self.put(a, al);
    }

    /// Credits a partial assignment: repo tokens for the assigned part and a
    /// purchase token refund for the rest.
    pub fn add_repo_and_purchase(&mut self, a: &Address, repo: u128, purchase: u128)
        ensures
            final(self)@ == offeror_upsert(
                old(self)@,
                *a,
                (OfferorAllocation {
                    repo_amount: sat_add(offeror_lookup(old(self)@, *a).repo_amount, repo),
                    purchase_amount: sat_add(offeror_lookup(old(self)@, *a).purchase_amount, purchase),
                }),
            ),
    {
        let mut al = self.get_allocation(a);
        al.update_repo_amount(repo);
        al.update_purchase_amount(purchase);
        self.put(a, al);
    }
}

/// The prover's exit leaves: one purchase token withdrawal, if any fees
/// accrued.
pub open spec fn prover_leaves(pa: ProverAllocation, params: AuctionParameters) -> Seq<ExitLeaf> {
    if pa.purchase_amount > 0 {
        seq![ExitLeaf::TokenWithdrawal {
            recipient: pa.prover_address,
            token: params.purchase_token,
            amount: pa.purchase_amount,
        }]
    } else {
        Seq::empty()
    }
}

/// One bidder's exit leaves: a purchase withdrawal, then a collateral
/// withdrawal, then a repurchase obligation, each only if nonzero.
pub open spec fn bidder_allocation_leaves(
    a: Address,
    al: BidderAllocation,
    params: AuctionParameters,
) -> Seq<ExitLeaf> {
    (if al.purchase_amount > 0 {
        seq![ExitLeaf::TokenWithdrawal {
            recipient: a,
            token: params.purchase_token,
            amount: al.purchase_amount,
        }]
    } else {
        Seq::empty()
    }) + (if al.collateral_amount > 0 {
        seq![ExitLeaf::TokenWithdrawal {
            recipient: a,
            token: params.collateral_token,
            amount: al.collateral_amount,
        }]
    } else {
        Seq::empty()
    }) + (if al.repurchase_obligation.repurchase_amount > 0
        || al.repurchase_obligation.collateral_amount > 0 {
        seq![ExitLeaf::RepurchaseObligation {
            debtor: a,
            repurchase_amount: al.repurchase_obligation.repurchase_amount,
            collateral_amount: al.repurchase_obligation.collateral_amount,
        }]
    } else {
        Seq::empty()
    })
}

/// The bidders' exit leaves, in ascending address order.
pub open spec fn bidder_map_leaves(
    s: Seq<(Address, BidderAllocation)>,
    params: AuctionParameters,
) -> Seq<ExitLeaf>
    decreases s.len(),
{
    if s.len() == 0 {
        Seq::empty()
    } else {
        bidder_map_leaves(s.drop_last(), params)
            + bidder_allocation_leaves(s.last().0, s.last().1, params)
    }
}

/// One offeror's exit leaves: a repo token withdrawal, then a purchase
/// withdrawal, each only if nonzero.
pub open spec fn offeror_allocation_leaves(
    a: Address,
    al: OfferorAllocation,
    params: AuctionParameters,
) -> Seq<ExitLeaf> {
    (if al.repo_amount > 0 {
        seq![ExitLeaf::RepoTokenWithdrawal { recipient: a, amount: al.repo_amount }]
    } else {
        Seq::empty()
    }) + (if al.purchase_amount > 0 {
        seq![ExitLeaf::TokenWithdrawal {
            recipient: a,
            token: params.purchase_token,
            amount: al.purchase_amount,
        }]
    } else {
        Seq::empty()
    })
}

/// The offerors' exit leaves, in ascending address order.
pub open spec fn offeror_map_leaves(
    s: Seq<(Address, OfferorAllocation)>,
    params: AuctionParameters,
) -> Seq<ExitLeaf>
    decreases s.len(),
{
    if s.len() == 0 {
        Seq::empty()
    } else {
        offeror_map_leaves(s.drop_last(), params)
            + offeror_allocation_leaves(s.last().0, s.last().1, params)
    }
}

impl BidderAllocations {
    /// Appends each bidder's exit leaves, in ascending address order.
    pub fn push_exit_leaves(&self, params: &AuctionParameters, exit_leaves: &mut Vec<ExitLeaf>)
        ensures
            final(exit_leaves)@ == old(exit_leaves)@ + bidder_map_leaves(self@, *params),
    {
        let mut i: usize = 0;
        let n = self.entries.len();
        proof {
            assert(self@.take(0) =~= Seq::<(Address, BidderAllocation)>::empty());
            assert(exit_leaves@ =~= old(exit_leaves)@ + bidder_map_leaves(self@.take(0), *params));
        }
        while i < n
            invariant
                i <= n,
                n == self@.len(),
                exit_leaves@ == old(exit_leaves)@ + bidder_map_leaves(self@.take(i as int), *params),
            decreases n - i,
        {
            let (a, al) = self.entries[i];
            if al.purchase_amount > 0 {
                exit_leaves.push(ExitLeaf::TokenWithdrawal {
                    recipient: a,
                    token: params.purchase_token,
                    amount: al.purchase_amount,
                });
            }
            if al.collateral_amount > 0 {
                exit_leaves.push(ExitLeaf::TokenWithdrawal {
                    recipient: a,
                    token: params.collateral_token,
                    amount: al.collateral_amount,
                });
            }
            if al.repurchase_obligation.repurchase_amount > 0
                || al.repurchase_obligation.collateral_amount > 0 {
                exit_leaves.push(ExitLeaf::RepurchaseObligation {
                    debtor: a,
                    repurchase_amount: al.repurchase_obligation.repurchase_amount,
                    collateral_amount: al.repurchase_obligation.collateral_amount,
                });
            }
            proof {
                assert(self@.take(i + 1).drop_last() =~= self@.take(i as int));
                assert(self@.take(i + 1).last() == self@[i as int]);
                assert(exit_leaves@ =~= old(exit_leaves)@
                    + bidder_map_leaves(self@.take(i + 1), *params));
            }
            i += 1;
        }
        proof {
            assert(self@.take(n as int) =~= self@);
        }
    }
}

impl OfferorAllocations {
    /// Appends each offeror's exit leaves, in ascending address order.
    pub fn push_exit_leaves(&self, params: &AuctionParameters, exit_leaves: &mut Vec<ExitLeaf>)
        ensures
            final(exit_leaves)@ == old(exit_leaves)@ + offeror_map_leaves(self@, *params),
    {
        let mut i: usize = 0;
        let n = self.entries.len();
        proof {
            assert(self@.take(0) =~= Seq::<(Address, OfferorAllocation)>::empty());
            assert(exit_leaves@ =~= old(exit_leaves)@
                + offeror_map_leaves(self@.take(0), *params));
        }
        while i < n
            invariant
                i <= n,
                n == self@.len(),
                exit_leaves@ == old(exit_leaves)@
                    + offeror_map_leaves(self@.take(i as int), *params),
            decreases n - i,
        {
            let (a, al) = self.entries[i];
            if al.repo_amount > 0 {
                exit_leaves.push(ExitLeaf::RepoTokenWithdrawal {
                    recipient: a,
                    amount: al.repo_amount,
                });
            }
            if al.purchase_amount > 0 {
                exit_leaves.push(ExitLeaf::TokenWithdrawal {
                    recipient: a,
                    token: params.purchase_token,
                    amount: al.purchase_amount,
                });
            }
            proof {
                assert(self@.take(i + 1).drop_last() =~= self@.take(i as int));
                assert(self@.take(i + 1).last() == self@[i as int]);
                assert(exit_leaves@ =~= old(exit_leaves)@
                    + offeror_map_leaves(self@.take(i + 1), *params));
            }
            i += 1;
        }
        proof {
            assert(self@.take(n as int) =~= self@);
        }
    }
}

/// All allocations of one auction run: the prover's, the bidders' and the
/// offerors'.
pub struct Allocations {
    /// The prover's allocation.
    pub prover_allocation: ProverAllocation,
    /// The allocations of the bidders, keyed by address.
    pub bidder_allocations: BidderAllocations,
    /// The allocations of the offerors, keyed by address.
    pub offeror_allocations: OfferorAllocations,
}

/// The full exit leaf sequence of one auction run: the prover's leaves, then
/// each bidder's in ascending address order, then each offeror's.
pub open spec fn all_exit_leaves(
    pa: ProverAllocation,
    bm: Seq<(Address, BidderAllocation)>,
    om: Seq<(Address, OfferorAllocation)>,
    params: AuctionParameters,
) -> Seq<ExitLeaf> {
    prover_leaves(pa, params) + bidder_map_leaves(bm, params) + offeror_map_leaves(om, params)
}

impl Allocations {
    /// Fresh, empty allocations with the given prover address.
    pub fn new(prover_address: &Address) -> (r: Self)
        ensures
            r.prover_allocation == (ProverAllocation {
                prover_address: *prover_address,
                purchase_amount: 0,
            }),
            r.bidder_allocations@ == Seq::<(Address, BidderAllocation)>::empty(),
            r.offeror_allocations@ == Seq::<(Address, OfferorAllocation)>::empty(),
    {
        Allocations {
            prover_allocation: ProverAllocation::new(prover_address),
            bidder_allocations: BidderAllocations::new(),
            offeror_allocations: OfferorAllocations::new(),
        }
    }

    /// The prover's allocation.
    pub fn get_or_create_prover_allocation(&self) -> (r: ProverAllocation)
        ensures
            r == self.prover_allocation,
    {
        self.prover_allocation
    }

    /// The bidder allocation for `address`, created as the zero allocation if
    /// none is recorded yet.
    pub fn get_or_create_bidder_allocation(&mut self, address: &Address) -> (r: BidderAllocation)
        ensures
            r == bidder_lookup(old(self).bidder_allocations@, *address),
            final(self).bidder_allocations@ == bidder_upsert(
                old(self).bidder_allocations@,
                *address,
                r,
            ),
            final(self).prover_allocation == old(self).prover_allocation,
            final(self).offeror_allocations@ == old(self).offeror_allocations@,
    {
        let al = self.bidder_allocations.get_allocation(address);
        self.bidder_allocations.add_collateral(address, 0);
        proof {
            assert(sat_add(al.collateral_amount, 0) == al.collateral_amount);
            assert((BidderAllocation { collateral_amount: al.collateral_amount, ..al }) == al);
        }
        al
    }

    /// The offeror allocation for `address`, created as the zero allocation
    /// if none is recorded yet.
    pub fn get_or_create_offeror_allocation(&mut self, address: &Address) -> (r: OfferorAllocation)
        ensures
            r == offeror_lookup(old(self).offeror_allocations@, *address),
            final(self).offeror_allocations@ == offeror_upsert(
                old(self).offeror_allocations@,
                *address,
                r,
            ),
            final(self).prover_allocation == old(self).prover_allocation,
            final(self).bidder_allocations@ == old(self).bidder_allocations@,
    {
        let al = self.offeror_allocations.get_allocation(address);
        self.offeror_allocations.add_purchase(address, 0);
        proof {
            assert(sat_add(al.purchase_amount, 0) == al.purchase_amount);
            assert((OfferorAllocation { purchase_amount: al.purchase_amount, ..al }) == al);
        }
        al
    }

    /// Flattens all allocations into exit leaves, in the fixed order: the
    /// prover first, then bidders, then offerors, each map in ascending
    /// address order.
    pub fn into_exit_leaves(self, params: &AuctionParameters, exit_leaves: &mut Vec<ExitLeaf>)
        ensures
            final(exit_leaves)@ == old(exit_leaves)@ + all_exit_leaves(
                self.prover_allocation,
                self.bidder_allocations@,
                self.offeror_allocations@,
                *params,
            ),
    {
        if self.prover_allocation.purchase_amount > 0 {
            exit_leaves.push(ExitLeaf::TokenWithdrawal {
                recipient: self.prover_allocation.prover_address,
                token: params.purchase_token,
                amount: self.prover_allocation.purchase_amount,
            });
        }
        proof {
            assert(exit_leaves@ =~= old(exit_leaves)@
                + prover_leaves(self.prover_allocation, *params));
        }
        self.bidder_allocations.push_exit_leaves(params, exit_leaves);
        self.offeror_allocations.push_exit_leaves(params, exit_leaves);
        proof {
            assert(exit_leaves@ =~= old(exit_leaves)@ + all_exit_leaves(
                self.prover_allocation,
                self.bidder_allocations@,
                self.offeror_allocations@,
                *params,
            ));
        }
    }
}

/// The total collateral refunded across all bidder allocations.
pub open spec fn total_bidder_collateral(s: Seq<(Address, BidderAllocation)>) -> int
    decreases s.len(),
{
    if s.len() == 0 {
        0
    } else {
        total_bidder_collateral(s.drop_last()) + s.last().1.collateral_amount
    }
}

/// The total purchase tokens refunded across all offeror allocations.
pub open spec fn total_offeror_purchase(s: Seq<(Address, OfferorAllocation)>) -> int
    decreases s.len(),
{
    if s.len() == 0 {
        0
    } else {
        total_offeror_purchase(s.drop_last()) + s.last().1.purchase_amount
    }
}

pub proof fn lemma_total_bidder_collateral_entry(s: Seq<(Address, BidderAllocation)>, i: int)
    requires
        0 <= i < s.len(),
    ensures
        total_bidder_collateral(s) >= s[i].1.collateral_amount,
        total_bidder_collateral(s) >= 0,
    decreases s.len(),
{
    lemma_total_bidder_collateral_nonneg(s.drop_last());
    if i < s.len() - 1 {
        lemma_total_bidder_collateral_entry(s.drop_last(), i);
    }
}

pub proof fn lemma_total_bidder_collateral_nonneg(s: Seq<(Address, BidderAllocation)>)
    ensures
        total_bidder_collateral(s) >= 0,
    decreases s.len(),
{
    if s.len() > 0 {
        lemma_total_bidder_collateral_nonneg(s.drop_last());
    }
}

pub proof fn lemma_total_offeror_purchase_entry(s: Seq<(Address, OfferorAllocation)>, i: int)
    requires
        0 <= i < s.len(),
    ensures
        total_offeror_purchase(s) >= s[i].1.purchase_amount,
        total_offeror_purchase(s) >= 0,
    decreases s.len(),
{
    lemma_total_offeror_purchase_nonneg(s.drop_last());
    if i < s.len() - 1 {
        lemma_total_offeror_purchase_entry(s.drop_last(), i);
    }
}

pub proof fn lemma_total_offeror_purchase_nonneg(s: Seq<(Address, OfferorAllocation)>)
    ensures
        total_offeror_purchase(s) >= 0,
    decreases s.len(),
{
    if s.len() > 0 {
        lemma_total_offeror_purchase_nonneg(s.drop_last());
    }
}

proof fn lemma_total_bidder_collateral_update(
    s: Seq<(Address, BidderAllocation)>,
    p: int,
    e: (Address, BidderAllocation),
)
    requires
        0 <= p < s.len(),
    ensures
        total_bidder_collateral(s.update(p, e)) == total_bidder_collateral(s)
            - s[p].1.collateral_amount + e.1.collateral_amount,
    decreases s.len(),
{
    let t = s.update(p, e);
    if p == s.len() - 1 {
        assert(t.drop_last() =~= s.drop_last());
    } else {
        assert(t.drop_last() =~= s.drop_last().update(p, e));
        lemma_total_bidder_collateral_update(s.drop_last(), p, e);
        assert(t.last() == s.last());
    }
}

proof fn lemma_total_bidder_collateral_insert(
    s: Seq<(Address, BidderAllocation)>,
    p: int,
    e: (Address, BidderAllocation),
)
    requires
        0 <= p <= s.len(),
    ensures
        total_bidder_collateral(s.insert(p, e)) == total_bidder_collateral(s)
            + e.1.collateral_amount,
    decreases s.len(),
{
    let t = s.insert(p, e);
    if p == s.len() {
        assert(t.drop_last() =~= s);
        assert(t.last() == e);
    } else {
        assert(t.drop_last() =~= s.drop_last().insert(p, e));
        lemma_total_bidder_collateral_insert(s.drop_last(), p, e);
        assert(t.last() == s.last());
    }
}

/// Rebinding an address changes the total collateral by exactly the change
/// of that address's entry.
pub proof fn lemma_total_bidder_collateral_upsert(
    s: Seq<(Address, BidderAllocation)>,
    a: Address,
    al: BidderAllocation,
)
    ensures
        total_bidder_collateral(bidder_upsert(s, a, al)) == total_bidder_collateral(s)
            - bidder_lookup(s, a).collateral_amount + al.collateral_amount,
{
    let p = bidder_find(s, a, 0);
    lemma_bidder_find_bounds(s, a, 0);
    if p < s.len() && s[p].0 == a {
        lemma_total_bidder_collateral_update(s, p, (a, al));
    } else {
        lemma_total_bidder_collateral_insert(s, p, (a, al));
    }
}

proof fn lemma_total_offeror_purchase_update(
    s: Seq<(Address, OfferorAllocation)>,
    p: int,
    e: (Address, OfferorAllocation),
)
    requires
        0 <= p < s.len(),
    ensures
        total_offeror_purchase(s.update(p, e)) == total_offeror_purchase(s)
            - s[p].1.purchase_amount + e.1.purchase_amount,
    decreases s.len(),
{
    let t = s.update(p, e);
    if p == s.len() - 1 {
        assert(t.drop_last() =~= s.drop_last());
    } else {
        assert(t.drop_last() =~= s.drop_last().update(p, e));
        lemma_total_offeror_purchase_update(s.drop_last(), p, e);
        assert(t.last() == s.last());
    }
}

proof fn lemma_total_offeror_purchase_insert(
    s: Seq<(Address, OfferorAllocation)>,
    p: int,
    e: (Address, OfferorAllocation),
)
    requires
        0 <= p <= s.len(),
    ensures
        total_offeror_purchase(s.insert(p, e)) == total_offeror_purchase(s)
            + e.1.purchase_amount,
    decreases s.len(),
{
    let t = s.insert(p, e);
    if p == s.len() {
        assert(t.drop_last() =~= s);
        assert(t.last() == e);
    } else {
        assert(t.drop_last() =~= s.drop_last().insert(p, e));
        lemma_total_offeror_purchase_insert(s.drop_last(), p, e);
        assert(t.last() == s.last());
    }
}

/// Rebinding an address changes the total purchase refund by exactly the
/// change of that address's entry.
pub proof fn lemma_total_offeror_purchase_upsert(
    s: Seq<(Address, OfferorAllocation)>,
    a: Address,
    al: OfferorAllocation,
)
    ensures
        total_offeror_purchase(offeror_upsert(s, a, al)) == total_offeror_purchase(s)
            - offeror_lookup(s, a).purchase_amount + al.purchase_amount,
{
    let p = offeror_find(s, a, 0);
    lemma_offeror_find_bounds(s, a, 0);
    if p < s.len() && s[p].0 == a {
        lemma_total_offeror_purchase_update(s, p, (a, al));
    } else {
        lemma_total_offeror_purchase_insert(s, p, (a, al));
    }
}

/// The looked-up entry never exceeds the map's total.
pub proof fn lemma_bidder_lookup_le_total(s: Seq<(Address, BidderAllocation)>, a: Address)
    ensures
        0 <= bidder_lookup(s, a).collateral_amount <= total_bidder_collateral(s),
        total_bidder_collateral(s) >= 0,
{
    let p = bidder_find(s, a, 0);
    lemma_bidder_find_bounds(s, a, 0);
    lemma_total_bidder_collateral_nonneg(s);
    if p < s.len() && s[p].0 == a {
        lemma_total_bidder_collateral_entry(s, p);
    }
}

/// The looked-up entry never exceeds the map's total.
pub proof fn lemma_offeror_lookup_le_total(s: Seq<(Address, OfferorAllocation)>, a: Address)
    ensures
        0 <= offeror_lookup(s, a).purchase_amount <= total_offeror_purchase(s),
        total_offeror_purchase(s) >= 0,
{
    let p = offeror_find(s, a, 0);
    lemma_offeror_find_bounds(s, a, 0);
    lemma_total_offeror_purchase_nonneg(s);
    if p < s.len() && s[p].0 == a {
        lemma_total_offeror_purchase_entry(s, p);
    }
}

/// The total purchase tokens disbursed across all bidder allocations.
pub open spec fn total_bidder_purchase(s: Seq<(Address, BidderAllocation)>) -> int
    decreases s.len(),
{
    if s.len() == 0 {
        0
    } else {
        total_bidder_purchase(s.drop_last()) + s.last().1.purchase_amount
    }
}

pub proof fn lemma_total_bidder_purchase_entry(s: Seq<(Address, BidderAllocation)>, i: int)
    requires
        0 <= i < s.len(),
    ensures
        total_bidder_purchase(s) >= s[i].1.purchase_amount,
        total_bidder_purchase(s) >= 0,
    decreases s.len(),
{
    lemma_total_bidder_purchase_nonneg(s.drop_last());
    if i < s.len() - 1 {
        lemma_total_bidder_purchase_entry(s.drop_last(), i);
    }
}

pub proof fn lemma_total_bidder_purchase_nonneg(s: Seq<(Address, BidderAllocation)>)
    ensures
        total_bidder_purchase(s) >= 0,
    decreases s.len(),
{
    if s.len() > 0 {
        lemma_total_bidder_purchase_nonneg(s.drop_last());
    }
}

proof fn lemma_total_bidder_purchase_update(
    s: Seq<(Address, BidderAllocation)>,
    p: int,
    e: (Address, BidderAllocation),
)
    requires
        0 <= p < s.len(),
    ensures
        total_bidder_purchase(s.update(p, e)) == total_bidder_purchase(s)
            - s[p].1.purchase_amount + e.1.purchase_amount,
    decreases s.len(),
{
    let t = s.update(p, e);
    if p == s.len() - 1 {
        assert(t.drop_last() =~= s.drop_last());
    } else {
        assert(t.drop_last() =~= s.drop_last().update(p, e));
        lemma_total_bidder_purchase_update(s.drop_last(), p, e);
        assert(t.last() == s.last());
    }
}

proof fn lemma_total_bidder_purchase_insert(
    s: Seq<(Address, BidderAllocation)>,
    p: int,
    e: (Address, BidderAllocation),
)
    requires
        0 <= p <= s.len(),
    ensures
        total_bidder_purchase(s.insert(p, e)) == total_bidder_purchase(s) + e.1.purchase_amount,
    decreases s.len(),
{
    let t = s.insert(p, e);
    if p == s.len() {
        assert(t.drop_last() =~= s);
        assert(t.last() == e);
    } else {
        assert(t.drop_last() =~= s.drop_last().insert(p, e));
        lemma_total_bidder_purchase_insert(s.drop_last(), p, e);
        assert(t.last() == s.last());
    }
}

/// Rebinding an address changes the total disbursed purchase amount by
/// exactly the change of that address's entry.
pub proof fn lemma_total_bidder_purchase_upsert(
    s: Seq<(Address, BidderAllocation)>,
    a: Address,
    al: BidderAllocation,
)
    ensures
        total_bidder_purchase(bidder_upsert(s, a, al)) == total_bidder_purchase(s)
            - bidder_lookup(s, a).purchase_amount + al.purchase_amount,
{
    let p = bidder_find(s, a, 0);
    lemma_bidder_find_bounds(s, a, 0);
    if p < s.len() && s[p].0 == a {
        lemma_total_bidder_purchase_update(s, p, (a, al));
    } else {
        lemma_total_bidder_purchase_insert(s, p, (a, al));
    }
}

/// The looked-up entry never exceeds the map's total.
pub proof fn lemma_bidder_lookup_purchase_le_total(s: Seq<(Address, BidderAllocation)>, a: Address)
    ensures
        0 <= bidder_lookup(s, a).purchase_amount <= total_bidder_purchase(s),
        total_bidder_purchase(s) >= 0,
{
    let p = bidder_find(s, a, 0);
    lemma_bidder_find_bounds(s, a, 0);
    lemma_total_bidder_purchase_nonneg(s);
    if p < s.len() && s[p].0 == a {
        lemma_total_bidder_purchase_entry(s, p);
    }
}

} // verus!
