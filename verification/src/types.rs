//! Core identities and auction parameters, with their packed encodings.
use vstd::prelude::*;

use crate::encode::{be_bytes, lemma_be_bytes_len, push_be_bytes};
use crate::precompiles::{keccak_spec, sp1_keccak256};

verus! {

/// A 20-byte actor identity, split into its 4 high and 16 low bytes.
#[derive(Clone, Copy, PartialEq, Eq, Structural, Debug)]
pub struct Address {
    pub hi: u32,
    pub lo: u128,
}

/// The 20-byte big-endian encoding of an address.
pub open spec fn address_bytes(a: Address) -> Seq<u8> {
    be_bytes(a.hi as nat, 4) + be_bytes(a.lo as nat, 16)
}

pub proof fn lemma_address_bytes_len(a: Address)
    ensures
        address_bytes(a).len() == 20,
{
    lemma_be_bytes_len(a.hi as nat, 4);
    lemma_be_bytes_len(a.lo as nat, 16);
}

/// Strict ordering of addresses by their 20-byte big-endian value.
pub open spec fn address_lt(a: Address, b: Address) -> bool {
    a.hi < b.hi || (a.hi == b.hi && a.lo < b.lo)
}

/// Compares two addresses by their big-endian value.
pub fn address_less(a: &Address, b: &Address) -> (r: bool)
    ensures
        r == address_lt(*a, *b),
{
    a.hi < b.hi || (a.hi == b.hi && a.lo < b.lo)
}

/// Appends the 20-byte encoding of `a` to `out`.
pub fn push_address_bytes(out: &mut Vec<u8>, a: &Address)
    ensures
        final(out)@ == old(out)@ + address_bytes(*a),
{
    let ghost pre = out@;
    push_be_bytes(out, a.hi as u128, 4);
    push_be_bytes(out, a.lo, 16);
    proof {
        assert(out@ =~= pre + address_bytes(*a));
    }
}

/// The unique key of a live order: actor address followed by the order id.
#[derive(Clone, Copy, PartialEq, Eq, Structural, Debug)]
pub struct OrderKey {
    pub address: Address,
    pub id: u64,
}

/// The 32-byte big-endian encoding of an order key: address then 12-byte id.
pub open spec fn order_key_bytes(k: OrderKey) -> Seq<u8> {
    address_bytes(k.address) + be_bytes(k.id as nat, 12)
}

/// Strict ordering of order keys by their 32-byte big-endian value.
pub open spec fn key_lt(a: OrderKey, b: OrderKey) -> bool {
    address_lt(a.address, b.address) || (a.address == b.address && a.id < b.id)
}

/// Compares two order keys by their big-endian value.
pub fn key_less(a: &OrderKey, b: &OrderKey) -> (r: bool)
    ensures
        r == key_lt(*a, *b),
{
    address_less(&a.address, &b.address) || (a.address == b.address && a.id < b.id)
}

/// Appends the 32-byte encoding of `k` to `out`.
pub fn push_order_key_bytes(out: &mut Vec<u8>, k: &OrderKey)
    ensures
        final(out)@ == old(out)@ + order_key_bytes(*k),
{
    let ghost pre = out@;
    push_address_bytes(out, &k.address);
    push_be_bytes(out, k.id as u128, 12);
    proof {
        assert(out@ =~= pre + order_key_bytes(*k));
    }
}

/// Generates the unique identifying key for an order by combining the actor's
/// address with the order id.
pub fn get_key(address: &Address, id: u64) -> (r: OrderKey)
    ensures
        r == (OrderKey { address: *address, id }),
{
    OrderKey { address: *address, id }
}

/// The rolling hash-chain step: the digest commits to the previous
/// accumulator followed by the encoded item.
pub open spec fn chain_step(acc: Seq<u8>, item: Seq<u8>) -> Seq<u8> {
    keccak_spec(acc + item)
}

/// The left fold of `chain_step` over a sequence of encoded items.
pub open spec fn chain_digest(start: Seq<u8>, items: Seq<Seq<u8>>) -> Seq<u8>
    decreases items.len(),
{
    if items.len() == 0 {
        start
    } else {
        chain_digest(chain_step(start, items[0]), items.drop_first())
    }
}

/// Extending a stream by one event moves the digest by exactly one
/// `chain_step` on the previous digest.
pub proof fn lemma_chain_digest_push(start: Seq<u8>, items: Seq<Seq<u8>>, item: Seq<u8>)
    ensures
        chain_digest(start, items.push(item)) == chain_step(chain_digest(start, items), item),
    decreases items.len(),
{
    assert(items.push(item)[0] == if items.len() == 0 { item } else { items[0] });
    if items.len() == 0 {
        assert(items.push(item).drop_first() =~= Seq::<Seq<u8>>::empty());
        assert(chain_digest(chain_step(start, item), Seq::<Seq<u8>>::empty())
            == chain_step(start, item));
    } else {
        assert(items.push(item).drop_first() =~= items.drop_first().push(item));
        lemma_chain_digest_push(chain_step(start, items[0]), items.drop_first(), item);
    }
}

/// Adds an item to a hash chain by hashing the previous accumulator value
/// together with the item's packed encoding.
pub fn add_to_hash_chain(item_bytes: &Vec<u8>, acc: &Vec<u8>) -> (r: Vec<u8>)
    ensures
        r@ == chain_step(acc@, item_bytes@),
        r@.len() == 32,
{
    let mut input: Vec<u8> = Vec::new();
    let mut i: usize = 0;
    while i < acc.len()
        invariant
            i <= acc.len(),
            input@ =~= acc@.take(i as int),
        decreases acc.len() - i,
    {
        input.push(acc[i]);
        i += 1;
    }
    let mut j: usize = 0;
    while j < item_bytes.len()
        invariant
            j <= item_bytes.len(),
            input@ =~= acc@ + item_bytes@.take(j as int),
        decreases item_bytes.len() - j,
    {
        input.push(item_bytes[j]);
        j += 1;
    }
    proof {
        assert(input@ =~= acc@ + item_bytes@);
    }
    sp1_keccak256(input.as_slice())
}

/// Replays a hash chain over a list of already-encoded items.
pub fn calculate_expected_hash_chain_output(start_value: &Vec<u8>, encoded_items: &Vec<Vec<u8>>) -> (r: Vec<u8>)
    ensures
        r@ == chain_digest(start_value@, encoded_items@.map_values(|e: Vec<u8>| e@)),
        r@.len() == 32 || r@ == start_value@,
{
    let ghost all = encoded_items@.map_values(|e: Vec<u8>| e@);
    let mut acc: Vec<u8> = start_value.clone();
    let mut i: usize = 0;
    proof {
        assert(acc@ == chain_digest(start_value@, all.take(0)));
    }
    while i < encoded_items.len()
        invariant
            i <= encoded_items.len(),
            all == encoded_items@.map_values(|e: Vec<u8>| e@),
            acc@ == chain_digest(start_value@, all.take(i as int)),
            i > 0 ==> acc@.len() == 32,
            i == 0 ==> acc@ == start_value@,
        decreases encoded_items.len() - i,
    {
        proof {
            lemma_chain_digest_push(start_value@, all.take(i as int), all[i as int]);
            assert(all.take(i as int).push(all[i as int]) =~= all.take(i + 1));
        }
        acc = add_to_hash_chain(&encoded_items[i], &acc);
        i += 1;
    }
    proof {
        assert(all.take(encoded_items@.len() as int) =~= all);
    }
    acc
}

/// A 32-byte digest of zero bytes: the chain seed and the empty exit root.
pub fn zero_digest() -> (r: Vec<u8>)
    ensures
        r@ == zero_digest_spec(),
{
    let mut out: Vec<u8> = Vec::new();
    push_be_bytes(&mut out, 0u128, 32);
    proof {
        assert(out@ =~= Seq::empty() + be_bytes(0, 32));
    }
    out
}

/// The all-zero 32-byte value.
pub open spec fn zero_digest_spec() -> Seq<u8> {
    be_bytes(0, 32)
}

/// The immutable parameters of one auction run: the two tokens, their
/// reference prices, and the term day count.
#[derive(Clone, Copy, PartialEq, Eq, Structural, Debug)]
pub struct AuctionParameters {
    pub purchase_token: Address,
    pub purchase_price: u64,
    pub collateral_token: Address,
    pub collateral_price: u64,
    pub day_count: u64,
}

/// The 136-byte packed encoding of the auction parameters.
pub open spec fn auction_parameters_bytes(p: AuctionParameters) -> Seq<u8> {
    address_bytes(p.purchase_token) + be_bytes(p.purchase_price as nat, 32)
        + address_bytes(p.collateral_token) + be_bytes(p.collateral_price as nat, 32)
        + be_bytes(p.day_count as nat, 32)
}

impl AuctionParameters {
    /// The packed encoding of the parameters.
    pub fn encode(&self) -> (r: Vec<u8>)
        ensures
            r@ == auction_parameters_bytes(*self),
    {
        let mut out: Vec<u8> = Vec::new();
        push_address_bytes(&mut out, &self.purchase_token);
        push_be_bytes(&mut out, self.purchase_price as u128, 32);
        push_address_bytes(&mut out, &self.collateral_token);
        push_be_bytes(&mut out, self.collateral_price as u128, 32);
        push_be_bytes(&mut out, self.day_count as u128, 32);
        proof {
            assert(out@ =~= auction_parameters_bytes(*self));
        }
        out
    }

    /// Hashes the packed encoding of the parameters.
    pub fn hash(&self) -> (r: Vec<u8>)
        ensures
            r@ == keccak_spec(auction_parameters_bytes(*self)),
            r@.len() == 32,
    {
        let encoded = self.encode();
        sp1_keccak256(encoded.as_slice())
    }
}

/// A 32-byte digest held as a pair of 128-bit words, high half first.
#[derive(Clone, Copy, PartialEq, Eq, Structural, Debug)]
pub struct Digest {
    pub hi: u128,
    pub lo: u128,
}

/// The 32-byte big-endian encoding of a digest.
pub open spec fn digest_bytes(d: Digest) -> Seq<u8> {
    be_bytes(d.hi as nat, 16) + be_bytes(d.lo as nat, 16)
}

/// Appends the 32-byte encoding of `d` to `out`.
pub fn push_digest_bytes(out: &mut Vec<u8>, d: &Digest)
    ensures
        final(out)@ == old(out)@ + digest_bytes(*d),
{
    let ghost pre = out@;
    push_be_bytes(out, d.hi, 16);
    push_be_bytes(out, d.lo, 16);
    proof {
        assert(out@ =~= pre + digest_bytes(*d));
    }
}

/// Big-endian encodings of equal length agree only on equal values.
pub proof fn lemma_be_bytes_injective(a: nat, b: nat, n: nat)
    requires
        a < pow256(n),
        b < pow256(n),
        be_bytes(a, n) == be_bytes(b, n),
    ensures
        a == b,
    decreases n,
{
    if n == 0 {
    } else {
        assert(be_bytes(a, n).last() == a % 256);
        assert(be_bytes(b, n).last() == b % 256);
        assert(be_bytes(a, n).drop_last() =~= be_bytes(a / 256, (n - 1) as nat)) by {
            lemma_be_bytes_len(a / 256, (n - 1) as nat);
        }
        assert(be_bytes(b, n).drop_last() =~= be_bytes(b / 256, (n - 1) as nat)) by {
            lemma_be_bytes_len(b / 256, (n - 1) as nat);
        }
        assert(a / 256 < pow256((n - 1) as nat) && b / 256 < pow256((n - 1) as nat)) by {
            assert(pow256(n) == 256 * pow256((n - 1) as nat));
        }
        lemma_be_bytes_injective(a / 256, b / 256, (n - 1) as nat);
        assert(a == 256 * (a / 256) + a % 256);
        assert(b == 256 * (b / 256) + b % 256);
    }
}

/// 256 to the power `n`.
pub open spec fn pow256(n: nat) -> nat
    decreases n,
{
    if n == 0 {
        1
    } else {
        256 * pow256((n - 1) as nat)
    }
}

pub proof fn lemma_pow256_16_value()
    ensures
        pow256(16) == 0x100000000000000000000000000000000,
{
    reveal_with_fuel(pow256, 17);
}

pub proof fn lemma_u128_lt_pow256_16(v: u128)
    ensures
        (v as nat) < pow256(16),
{
    lemma_pow256_16_value();
}

/// Equal digests have equal encodings, and conversely.
pub proof fn lemma_digest_bytes_injective(a: Digest, b: Digest)
    ensures
        (digest_bytes(a) == digest_bytes(b)) <==> (a == b),
{
    if digest_bytes(a) == digest_bytes(b) {
        lemma_be_bytes_len(a.hi as nat, 16);
        lemma_be_bytes_len(b.hi as nat, 16);
        lemma_be_bytes_len(a.lo as nat, 16);
        lemma_be_bytes_len(b.lo as nat, 16);
        assert(be_bytes(a.hi as nat, 16) =~= digest_bytes(a).take(16));
        assert(be_bytes(b.hi as nat, 16) =~= digest_bytes(b).take(16));
        assert(be_bytes(a.lo as nat, 16) =~= digest_bytes(a).skip(16));
        assert(be_bytes(b.lo as nat, 16) =~= digest_bytes(b).skip(16));
        lemma_u128_lt_pow256_16(a.hi);
        lemma_u128_lt_pow256_16(b.hi);
        lemma_u128_lt_pow256_16(a.lo);
        lemma_u128_lt_pow256_16(b.lo);
        lemma_be_bytes_injective(a.hi as nat, b.hi as nat, 16);
        lemma_be_bytes_injective(a.lo as nat, b.lo as nat, 16);
    }
}

/// Reads a 32-byte value into a digest.
pub fn digest_from_bytes(v: &Vec<u8>) -> (r: Digest)
    requires
        v@.len() == 32,
    ensures
        digest_bytes(r) == v@,
{
    let hi = read_be_u128(v, 0);
    let lo = read_be_u128(v, 16);
    let r = Digest { hi, lo };
    proof {
        assert(v@.subrange(0, 16) + v@.subrange(16, 32) =~= v@);
        assert(digest_bytes(r) =~= v@);
    }
    r
}

/// Reads 16 bytes at `start` as a big-endian value.
fn read_be_u128(v: &Vec<u8>, start: usize) -> (r: u128)
    requires
        start + 16 <= v@.len(),
    ensures
        be_bytes(r as nat, 16) == v@.subrange(start as int, start + 16),
{
    let mut acc: u128 = 0;
    let mut i: usize = 0;
    let vlen = v.len();
    proof {
        assert(be_bytes(0, 0) =~= v@.subrange(start as int, start as int));
    }
    while i < 16
        invariant
            i <= 16,
            vlen == v@.len(),
            start + 16 <= vlen,
            acc < pow256(i as nat),
            be_bytes(acc as nat, i as nat) == v@.subrange(start as int, start + i),
        decreases 16 - i,
    {
        let b = v[start + i];
        proof {
            lemma_pow256_16_value();
            assert(pow256((i + 1) as nat) == 256 * pow256(i as nat));
            assert((acc as nat) * 256 + (b as nat) < pow256((i + 1) as nat));
            lemma_pow256_mono((i + 1) as nat, 16);
            assert((acc as nat) * 256 + (b as nat) <= u128::MAX);
        }
        let next = acc * 256 + (b as u128);
        proof {
            assert((next as nat) / 256 == acc as nat && (next as nat) % 256 == b as nat) by {
                assert(next == acc * 256 + b);
            }
            assert(be_bytes(next as nat, (i + 1) as nat)
                == be_bytes(acc as nat, i as nat).push(b));
            assert(v@.subrange(start as int, start + i).push(b)
                =~= v@.subrange(start as int, start + i + 1));
        }
        acc = next;
        i += 1;
    }
    acc
}

pub proof fn lemma_pow256_mono(m: nat, n: nat)
    requires
        m <= n,
    ensures
        pow256(m) <= pow256(n),
    decreases n,
{
    if m < n {
        lemma_pow256_mono(m, (n - 1) as nat);
        assert(pow256(n) == 256 * pow256((n - 1) as nat));
        assert(pow256((n - 1) as nat) <= 256 * pow256((n - 1) as nat)) by (nonlinear_arith)
            requires pow256((n - 1) as nat) >= 0;
    }
}

/// Calculates the price commitment: the hash of the 32-byte price followed by
/// the 32-byte nonce.
pub fn get_price_hash(price: u64, nonce: u128) -> (r: Digest)
    ensures
        digest_bytes(r) == price_hash_spec(price, nonce),
{
    let mut input: Vec<u8> = Vec::new();
    push_be_bytes(&mut input, price as u128, 32);
    push_be_bytes(&mut input, nonce, 32);
    proof {
        assert(input@ =~= be_bytes(price as nat, 32) + be_bytes(nonce as nat, 32));
    }
    let h = sp1_keccak256(input.as_slice());
    digest_from_bytes(&h)
}

/// The price commitment as a function of price and nonce.
pub open spec fn price_hash_spec(price: u64, nonce: u128) -> Seq<u8> {
    keccak_spec(be_bytes(price as nat, 32) + be_bytes(nonce as nat, 32))
}

} // verus!
