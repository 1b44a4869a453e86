//! Exit leaves: the settlement actions of one auction, and their Merkle root.
use vstd::prelude::*;

use crate::encode::{be_bytes, push_be_bytes};
use crate::lean_imt::{nodes_view, root_of_hashes, root_spec};
use crate::precompiles::{keccak_spec, sp1_keccak256};
use crate::types::{address_bytes, push_address_bytes, Address};

verus! {

/// A single post-auction settlement action.
#[derive(Clone, Copy, PartialEq, Eq, Structural, Debug)]
pub enum ExitLeaf {
    /// A withdrawal of `amount` of `token` to `recipient`.
    TokenWithdrawal { recipient: Address, token: Address, amount: u128 },
    /// A withdrawal of repo tokens; the repo token is implicit in the auction.
    RepoTokenWithdrawal { recipient: Address, amount: u128 },
    /// A repurchase obligation owed by `debtor` at maturity.
    RepurchaseObligation { debtor: Address, repurchase_amount: u128, collateral_amount: u128 },
}

/// The packed encoding of an exit leaf: 72, 52 or 84 bytes by variant.
pub open spec fn exit_leaf_bytes(leaf: ExitLeaf) -> Seq<u8> {
    match leaf {
        ExitLeaf::TokenWithdrawal { recipient, token, amount } => address_bytes(recipient)
            + address_bytes(token) + be_bytes(amount as nat, 32),
        ExitLeaf::RepoTokenWithdrawal { recipient, amount } => address_bytes(recipient)
            + be_bytes(amount as nat, 32),
        ExitLeaf::RepurchaseObligation { debtor, repurchase_amount, collateral_amount } =>
            address_bytes(debtor) + be_bytes(repurchase_amount as nat, 32)
            + be_bytes(collateral_amount as nat, 32),
    }
}

/// The 32-byte leaf hash: the hash of the leaf's packed encoding.
pub open spec fn exit_leaf_hash_spec(leaf: ExitLeaf) -> Seq<u8> {
    keccak_spec(exit_leaf_bytes(leaf))
}

impl ExitLeaf {
    /// The packed encoding of the leaf.
    pub fn encode(&self) -> (r: Vec<u8>)
        ensures
            r@ == exit_leaf_bytes(*self),
    {
        let mut out: Vec<u8> = Vec::new();
        match self {
            ExitLeaf::TokenWithdrawal { recipient, token, amount } => {
                push_address_bytes(&mut out, recipient);
                push_address_bytes(&mut out, token);
                push_be_bytes(&mut out, *amount, 32);
            },
            ExitLeaf::RepoTokenWithdrawal { recipient, amount } => {
                push_address_bytes(&mut out, recipient);
                push_be_bytes(&mut out, *amount, 32);
            },
            ExitLeaf::RepurchaseObligation { debtor, repurchase_amount, collateral_amount } => {
                push_address_bytes(&mut out, debtor);
                push_be_bytes(&mut out, *repurchase_amount, 32);
                push_be_bytes(&mut out, *collateral_amount, 32);
            },
        }
        proof {
            assert(out@ =~= exit_leaf_bytes(*self));
        }
        out
    }

    /// Reduces the leaf to its 32-byte leaf hash.
    pub fn hash(&self) -> (r: Vec<u8>)
        ensures
            r@ == exit_leaf_hash_spec(*self),
            r@.len() == 32,
    {
        let encoded = self.encode();
        sp1_keccak256(encoded.as_slice())
    }
}

/// The ordered settlement actions of one auction.
pub type ExitLeaves = Vec<ExitLeaf>;

/// The leaf hashes of a sequence of exit leaves.
pub open spec fn exit_leaf_hashes(leaves: Seq<ExitLeaf>) -> Seq<Seq<u8>> {
    leaves.map_values(|leaf: ExitLeaf| exit_leaf_hash_spec(leaf))
}

/// The exit root: the lean incremental Merkle root of the leaf hashes.
pub open spec fn exit_root_spec(leaves: Seq<ExitLeaf>) -> Seq<u8> {
    root_spec(exit_leaf_hashes(leaves))
}

/// Computes the root of the lean incremental Merkle tree over the hashes of
/// the given exit leaves. An empty sequence yields the all-zero root.
pub fn hash_exit_root(leaves: &Vec<ExitLeaf>) -> (r: Vec<u8>)
    ensures
        r@ == exit_root_spec(leaves@),
{
    let mut hashes: Vec<Vec<u8>> = Vec::new();
    let mut i: usize = 0;
    while i < leaves.len()
        invariant
            i <= leaves.len(),
            hashes@.len() == i,
            nodes_view(hashes) == exit_leaf_hashes(leaves@.take(i as int)),
        decreases leaves.len() - i,
    {
        let h = leaves[i].hash();
        let ghost pre = hashes@;
        hashes.push(h);
        proof {
            let ghost prev_view = pre.map_values(|x: Vec<u8>| x@);
            let ghost goal = exit_leaf_hashes(leaves@.take(i + 1));
            assert forall|j: int| 0 <= j < i + 1 implies nodes_view(hashes)[j] == goal[j] by {
                assert(goal[j] == exit_leaf_hash_spec(leaves@.take(i + 1)[j]));
                if j < i {
                    assert(nodes_view(hashes)[j] == pre[j]@);
                    assert(prev_view[j] == exit_leaf_hashes(leaves@.take(i as int))[j]);
                } else {
                    assert(nodes_view(hashes)[j] == h@);
                }
            }
            assert(nodes_view(hashes) =~~= goal);
        }
        i += 1;
    }
    proof {
        assert(leaves@.take(leaves@.len() as int) =~~= leaves@);
    }
    let ghost hv = nodes_view(hashes);
    let r = root_of_hashes(hashes);
    proof {
        assert(r@ == root_spec(hv));
    }
    r
}

} // verus!
