//! Lean incremental Merkle tree: pairing levels, root computation.
use vstd::prelude::*;

use crate::precompiles::{keccak_spec, sp1_keccak256};
use crate::types::{zero_digest, zero_digest_spec};

verus! {

/// One level of the tree reduced to its parent level: adjacent nodes are
/// paired and hashed; a lone trailing node is promoted unchanged.
pub open spec fn next_level_spec(level: Seq<Seq<u8>>) -> Seq<Seq<u8>>
    decreases level.len(),
{
    if level.len() == 0 {
        Seq::empty()
    } else if level.len() == 1 {
        seq![level[0]]
    } else {
        seq![keccak_spec(level[0] + level[1])] + next_level_spec(level.skip(2))
    }
}

pub proof fn lemma_next_level_len(level: Seq<Seq<u8>>)
    ensures
        next_level_spec(level).len() == (level.len() + 1) / 2,
    decreases level.len(),
{
    if level.len() >= 2 {
        lemma_next_level_len(level.skip(2));
    }
}

/// The root of a lean incremental Merkle tree over the given level of
/// node hashes. An empty level yields the all-zero root.
pub open spec fn root_spec(level: Seq<Seq<u8>>) -> Seq<u8>
    decreases level.len(),
    via root_spec_decreases
{
    if level.len() == 0 {
        zero_digest_spec()
    } else if level.len() == 1 {
        level[0]
    } else {
        root_spec(next_level_spec(level))
    }
}

#[via_fn]
proof fn root_spec_decreases(level: Seq<Seq<u8>>) {
    if level.len() >= 2 {
        lemma_next_level_len(level);
    }
}

/// Extending an even-length prefix by one full pair extends its parent level
/// by the pair's hash.
proof fn lemma_next_level_prefix(level: Seq<Seq<u8>>, i: int)
    requires
        0 <= i,
        i % 2 == 0,
        i + 1 < level.len(),
    ensures
        next_level_spec(level.take(i + 2))
            == next_level_spec(level.take(i)).push(keccak_spec(level[i] + level[i + 1])),
    decreases i,
{
    if i == 0 {
        assert(level.take(2) =~~= seq![level[0], level[1]]);
        assert(level.take(2).skip(2) =~~= Seq::<Seq<u8>>::empty());
        assert(next_level_spec(Seq::<Seq<u8>>::empty()) =~~= Seq::<Seq<u8>>::empty());
        assert(level.take(2)[0] == level[0]);
        assert(level.take(2)[1] == level[1]);
        assert(next_level_spec(level.take(2))
            =~~= seq![keccak_spec(level[0] + level[1])] + next_level_spec(level.take(2).skip(2)));
        assert(next_level_spec(level.take(2)) =~~= seq![keccak_spec(level[0] + level[1])]);
        assert(next_level_spec(level.take(0)) =~~= Seq::<Seq<u8>>::empty());
    } else {
        lemma_next_level_prefix(level.skip(2), i - 2);
        assert(level.take(i + 2).skip(2) =~~= level.skip(2).take(i));
        assert(level.take(i).skip(2) =~~= level.skip(2).take((i - 2) as int));
        assert(level.skip(2)[i - 2] == level[i]);
        assert(level.skip(2)[i - 1] == level[i + 1]);
        assert(next_level_spec(level.take(i + 2))
            =~~= seq![keccak_spec(level.take(i + 2)[0] + level.take(i + 2)[1])]
                + next_level_spec(level.take(i + 2).skip(2)));
        assert(next_level_spec(level.take(i))
            =~~= seq![keccak_spec(level.take(i)[0] + level.take(i)[1])]
                + next_level_spec(level.take(i).skip(2)));
    }
}

/// A lone trailing node is promoted unchanged into the parent level.
proof fn lemma_next_level_odd(level: Seq<Seq<u8>>)
    requires
        level.len() % 2 == 1,
    ensures
        next_level_spec(level)
            == next_level_spec(level.take(level.len() - 1)).push(level[level.len() - 1]),
    decreases level.len(),
{
    let n = level.len() as int;
    if n == 1 {
        assert(next_level_spec(level) =~~= seq![level[0]]);
        assert(level.take(0) =~~= Seq::<Seq<u8>>::empty());
        assert(next_level_spec(level.take(0)).push(level[0]) =~~= seq![level[0]]);
    } else {
        lemma_next_level_odd(level.skip(2));
        assert(level.take(n - 1).skip(2) =~~= level.skip(2).take(n - 3));
        assert(level.skip(2)[n - 3] == level[n - 1]);
        assert(next_level_spec(level.take(n - 1))
            =~~= seq![keccak_spec(level.take(n - 1)[0] + level.take(n - 1)[1])]
                + next_level_spec(level.take(n - 1).skip(2)));
        assert(next_level_spec(level)
            =~~= next_level_spec(level.take(n - 1)).push(level[n - 1]));
    }
}

/// The view of a vector of node hashes as a sequence of byte sequences.
pub open spec fn nodes_view(v: Vec<Vec<u8>>) -> Seq<Seq<u8>> {
    v@.map_values(|x: Vec<u8>| x@)
}

/// Appends the bytes of `src` to `out`.
pub fn append_bytes(out: &mut Vec<u8>, src: &Vec<u8>)
    ensures
        final(out)@ == old(out)@ + src@,
{
    let mut i: usize = 0;
    while i < src.len()
        invariant
            i <= src.len(),
            out@ =~= old(out)@ + src@.take(i as int),
        decreases src.len() - i,
    {
        out.push(src[i]);
        i += 1;
    }
    proof {
        assert(out@ =~= old(out)@ + src@);
    }
}

/// Computes the parent level of a vector of node hashes.
pub fn next_level(level: &Vec<Vec<u8>>) -> (r: Vec<Vec<u8>>)
    ensures
        nodes_view(r) == next_level_spec(nodes_view(*level)),
{
    let ghost lv = nodes_view(*level);
    let mut out: Vec<Vec<u8>> = Vec::new();
    let mut i: usize = 0;
    proof {
        assert(lv.take(0) =~~= Seq::<Seq<u8>>::empty());
        assert(nodes_view(out) =~~= next_level_spec(lv.take(0)));
    }
    while i + 1 < level.len()
        invariant
            lv == nodes_view(*level),
            i % 2 == 0,
            i <= level.len(),
            nodes_view(out) == next_level_spec(lv.take(i as int)),
        decreases level.len() - i,
    {
        let mut input: Vec<u8> = Vec::new();
        append_bytes(&mut input, &level[i]);
        append_bytes(&mut input, &level[i + 1]);
        proof {
            assert(input@ =~= lv[i as int] + lv[i + 1]);
        }
        let parent = sp1_keccak256(input.as_slice());
        out.push(parent);
        proof {
            lemma_next_level_prefix(lv, i as int);
            assert(nodes_view(out) =~~= next_level_spec(lv.take(i + 2)));
        }
        i += 2;
    }
    if i < level.len() {
        let last = level[i].clone();
        out.push(last);
        proof {
            assert(lv.len() % 2 == 1);
            lemma_next_level_odd(lv);
            assert(lv.take(lv.len() - 1) == lv.take(i as int));
            assert(nodes_view(out) =~~= next_level_spec(lv));
        }
    } else {
        proof {
            assert(lv.take(i as int) =~~= lv);
        }
    }
    out
}

/// Computes the Merkle root of a vector of node hashes, pairing levels until
/// one node remains.
pub fn root_of_hashes(leaf_hashes: Vec<Vec<u8>>) -> (r: Vec<u8>)
    ensures
        r@ == root_spec(nodes_view(leaf_hashes)),
{
    let ghost orig = nodes_view(leaf_hashes);
    if leaf_hashes.len() == 0 {
        return zero_digest();
    }
    let mut current: Vec<Vec<u8>> = leaf_hashes;
    while current.len() > 1
        invariant
            current.len() >= 1,
            root_spec(nodes_view(current)) == root_spec(orig),
        decreases current.len(),
    {
        proof {
            lemma_next_level_len(nodes_view(current));
        }
        current = next_level(&current);
    }
    let r = current[0].clone();
    proof {
        assert(r@ == nodes_view(current)[0]);
    }
    r
}

/// The node at position `k` of the parent level: the hash of its two
/// children, or the lone left child promoted unchanged.
proof fn lemma_next_level_index(level: Seq<Seq<u8>>, k: int)
    requires
        0 <= k,
        2 * k < level.len(),
    ensures
        next_level_spec(level)[k] == if 2 * k + 1 < level.len() {
            keccak_spec(level[2 * k] + level[2 * k + 1])
        } else {
            level[2 * k]
        },
    decreases k,
{
    lemma_next_level_len(level);
    if k == 0 {
    } else {
        lemma_next_level_index(level.skip(2), k - 1);
        lemma_next_level_len(level.skip(2));
        assert(level.skip(2)[2 * (k - 1)] == level[2 * k]);
        if 2 * k + 1 < level.len() {
            assert(level.skip(2)[2 * (k - 1) + 1] == level[2 * k + 1]);
        }
        assert(next_level_spec(level)[k]
            == (seq![keccak_spec(level[0] + level[1])] + next_level_spec(level.skip(2)))[k]);
        assert(next_level_spec(level)[k] == next_level_spec(level.skip(2))[k - 1]);
    }
}

/// The layered view of the whole tree.
pub open spec fn levels_view(v: Vec<Vec<Vec<u8>>>) -> Seq<Seq<Seq<u8>>> {
    v@.map_values(|lvl: Vec<Vec<u8>>| nodes_view(lvl))
}

/// A well-formed layering: at least one level, each level the parent level
/// of the one below, and at most one node at the top.
pub open spec fn tree_wf(levels: Seq<Seq<Seq<u8>>>) -> bool {
    &&& levels.len() >= 1
    &&& forall|l: int| 0 <= l < levels.len() - 1
        ==> #[trigger] levels[l + 1] == next_level_spec(levels[l])
    &&& levels[levels.len() - 1].len() <= 1
}

/// The root of a well-formed layering is the root of its leaf level.
proof fn lemma_root_of_levels(levels: Seq<Seq<Seq<u8>>>)
    requires
        tree_wf(levels),
    ensures
        root_spec(levels[0]) == if levels[levels.len() - 1].len() == 0 {
            crate::types::zero_digest_spec()
        } else {
            levels[levels.len() - 1][0]
        },
    decreases levels.len(),
{
    if levels.len() == 1 {
    } else {
        assert(levels[1] == next_level_spec(levels[0]));
        lemma_next_level_len(levels[0]);
        if levels[0].len() >= 2 {
            assert(root_spec(levels[0]) == root_spec(next_level_spec(levels[0])));
        } else if levels[0].len() == 1 {
            assert(next_level_spec(levels[0]) =~~= seq![levels[0][0]]);
            assert(root_spec(levels[1]) == levels[0][0]);
        } else {
            assert(next_level_spec(levels[0]) =~~= Seq::<Seq<u8>>::empty());
        }
        let rest = levels.drop_first();
        assert forall|l: int| 0 <= l < rest.len() - 1 implies #[trigger] rest[l + 1]
            == next_level_spec(rest[l]) by {
            assert(rest[l + 1] == levels[l + 2]);
            assert(rest[l] == levels[l + 1]);
        }
        assert(rest[rest.len() - 1] == levels[levels.len() - 1]);
        lemma_root_of_levels(rest);
        assert(rest[0] == levels[1]);
    }
}

/// Recomputes the node climbing one step per sibling: the sibling goes on
/// the left when the index bit is set, on the right otherwise.
pub open spec fn climb_spec(leaf: Seq<u8>, siblings: Seq<Seq<u8>>, idx: int) -> Seq<u8>
    decreases siblings.len(),
{
    if siblings.len() == 0 {
        leaf
    } else {
        let node = if idx % 2 == 1 {
            keccak_spec(siblings[0] + leaf)
        } else {
            keccak_spec(leaf + siblings[0])
        };
        climb_spec(node, siblings.drop_first(), idx / 2)
    }
}

/// The sibling hashes along the path from position `idx` of level `l` to the
/// root, lowest level first; levels where the node has no sibling contribute
/// none.
pub open spec fn collect_siblings(levels: Seq<Seq<Seq<u8>>>, l: int, idx: int) -> Seq<Seq<u8>>
    decreases levels.len() - l,
{
    if l < 0 || l >= levels.len() - 1 {
        Seq::empty()
    } else {
        let sib_idx = if idx % 2 == 1 {
            idx - 1
        } else {
            idx + 1
        };
        let rest = collect_siblings(levels, l + 1, idx / 2);
        if 0 <= sib_idx < levels[l].len() {
            seq![levels[l][sib_idx]] + rest
        } else {
            rest
        }
    }
}

/// The packed left/right bit pattern of the path from position `idx` of
/// level `l`: one bit per sibling, the lowest level's bit last.
pub open spec fn pack_index(levels: Seq<Seq<Seq<u8>>>, l: int, idx: int) -> int
    decreases levels.len() - l,
{
    if l < 0 || l >= levels.len() - 1 {
        0
    } else {
        let sib_idx = if idx % 2 == 1 {
            idx - 1
        } else {
            idx + 1
        };
        let rest = pack_index(levels, l + 1, idx / 2);
        if 0 <= sib_idx < levels[l].len() {
            2 * rest + idx % 2
        } else {
            rest
        }
    }
}

/// The packed path index never exceeds the position it was packed from.
proof fn lemma_pack_index_le(levels: Seq<Seq<Seq<u8>>>, l: int, idx: int)
    requires
        0 <= idx,
    ensures
        0 <= pack_index(levels, l, idx) <= idx,
    decreases levels.len() - l,
{
    if 0 <= l < levels.len() - 1 {
        lemma_pack_index_le(levels, l + 1, idx / 2);
    }
}

/// Climbing from any node with the collected siblings and packed path
/// reaches the top node of a well-formed layering.
proof fn lemma_climb_collect(levels: Seq<Seq<Seq<u8>>>, l: int, idx: int)
    requires
        levels.len() >= 1,
        forall|j: int| 0 <= j < levels.len() - 1
            ==> #[trigger] levels[j + 1] == next_level_spec(levels[j]),
        0 <= l < levels.len(),
        0 <= idx < levels[l].len(),
        levels[levels.len() - 1].len() <= 1,
    ensures
        climb_spec(levels[l][idx], collect_siblings(levels, l, idx), pack_index(levels, l, idx))
            == levels[levels.len() - 1][0],
    decreases levels.len() - l,
{
    if l == levels.len() - 1 {
        assert(idx == 0);
    } else {
        let level = levels[l];
        assert(levels[l + 1] == next_level_spec(level));
        lemma_next_level_len(level);
        let k = idx / 2;
        assert(0 <= k < levels[l + 1].len());
        lemma_next_level_index(level, k);
        let sib_idx = if idx % 2 == 1 {
            idx - 1
        } else {
            idx + 1
        };
        let rest = collect_siblings(levels, l + 1, k);
        let prest = pack_index(levels, l + 1, k);
        lemma_pack_index_le(levels, l + 1, k);
        if 0 <= sib_idx < level.len() {
            let sibs = seq![level[sib_idx]] + rest;
            let p = 2 * prest + idx % 2;
            assert(sibs[0] == level[sib_idx]);
            assert(sibs.drop_first() =~~= rest);
            assert(p % 2 == idx % 2 && p / 2 == prest);
            if idx % 2 == 1 {
                assert(2 * k == idx - 1 && 2 * k + 1 == idx);
                assert(levels[l + 1][k] == keccak_spec(level[idx - 1] + level[idx]));
            } else {
                assert(2 * k == idx && 2 * k + 1 == sib_idx);
                assert(levels[l + 1][k] == keccak_spec(level[idx] + level[sib_idx]));
            }
            lemma_climb_collect(levels, l + 1, k);
        } else {
            assert(idx % 2 == 0 && idx == level.len() - 1);
            assert(2 * k == idx);
            assert(levels[l + 1][k] == level[idx]);
            lemma_climb_collect(levels, l + 1, k);
        }
    }
}

/// Every level of a well-formed layering over a nonempty leaf level is
/// nonempty.
proof fn lemma_levels_nonempty(levels: Seq<Seq<Seq<u8>>>, l: int)
    requires
        levels.len() >= 1,
        forall|j: int| 0 <= j < levels.len() - 1
            ==> #[trigger] levels[j + 1] == next_level_spec(levels[j]),
        levels[0].len() >= 1,
        0 <= l < levels.len(),
    ensures
        levels[l].len() >= 1,
    decreases l,
{
    if l > 0 {
        lemma_levels_nonempty(levels, l - 1);
        assert(levels[(l - 1) + 1] == next_level_spec(levels[l - 1]));
        lemma_next_level_len(levels[l - 1]);
    }
}

/// A Merkle proof: the root, the leaf hash, the packed left/right path
/// pattern, and the sibling hashes from the lowest level upward.
pub struct LeanIMTMerkleProof {
    /// The root hash of the tree the proof was generated from.
    pub root: Vec<u8>,
    /// The leaf hash the proof is for.
    pub leaf: Vec<u8>,
    /// The packed left/right bit pattern of the path.
    pub index: usize,
    /// The sibling hashes, lowest level first.
    pub siblings: Vec<Vec<u8>>,
}

/// A lean incremental Merkle tree: an append-only Merkle tree that promotes
/// lone nodes unchanged, avoiding padding leaves. The tree stores every
/// level, leaves first.
pub struct LeanIncrementalMerkleTree {
    nodes: Vec<Vec<Vec<u8>>>,
}

impl View for LeanIncrementalMerkleTree {
    type V = Seq<Seq<Seq<u8>>>;

    closed spec fn view(&self) -> Seq<Seq<Seq<u8>>> {
        levels_view(self.nodes)
    }
}

impl LeanIncrementalMerkleTree {
    /// Builds the tree over the given leaf hashes.
    pub fn new(leaves: &Vec<Vec<u8>>) -> (r: Self)
        ensures
            tree_wf(r@),
            r@[0] == nodes_view(*leaves),
    {
        let mut base: Vec<Vec<u8>> = Vec::new();
        let mut i: usize = 0;
        while i < leaves.len()
            invariant
                i <= leaves@.len(),
                base@.len() == i,
                nodes_view(base) == nodes_view(*leaves).take(i as int),
            decreases leaves@.len() - i,
        {
            let ghost pre = base@;
            base.push(crate::encode::clone_bytes(&leaves[i]));
            proof {
                assert forall|j: int| 0 <= j < i + 1 implies nodes_view(base)[j]
                    == nodes_view(*leaves).take(i + 1)[j] by {
                    if j < i {
                        assert(nodes_view(base)[j] == pre[j]@);
                        assert(pre.map_values(|x: Vec<u8>| x@)[j]
                            == nodes_view(*leaves).take(i as int)[j]);
                    }
                }
                assert(nodes_view(base) =~~= nodes_view(*leaves).take(i + 1));
            }
            i += 1;
        }
        proof {
            assert(nodes_view(*leaves).take(leaves@.len() as int) =~~= nodes_view(*leaves));
        }
        let mut nodes: Vec<Vec<Vec<u8>>> = Vec::new();
        nodes.push(base);
        while nodes[nodes.len() - 1].len() > 1
            invariant
                nodes@.len() >= 1,
                levels_view(nodes)[0] == nodes_view(*leaves),
                forall|l: int| 0 <= l < nodes@.len() - 1 ==> #[trigger] levels_view(nodes)[l + 1]
                    == next_level_spec(levels_view(nodes)[l]),
            decreases nodes@[nodes@.len() - 1]@.len(),
        {
            proof {
                lemma_next_level_len(nodes_view(nodes@[nodes@.len() - 1]));
            }
            let ghost pre = nodes@;
            let next = next_level(&nodes[nodes.len() - 1]);
            nodes.push(next);
            proof {
                assert forall|l: int| 0 <= l < nodes@.len() - 1 implies
                    #[trigger] levels_view(nodes)[l + 1]
                    == next_level_spec(levels_view(nodes)[l]) by {
                    if l < pre.len() - 1 {
                        assert(levels_view(nodes)[l] == pre.map_values(
                            |lvl: Vec<Vec<u8>>| nodes_view(lvl),
                        )[l]);
                        assert(levels_view(nodes)[l + 1] == pre.map_values(
                            |lvl: Vec<Vec<u8>>| nodes_view(lvl),
                        )[l + 1]);
                    } else {
                        assert(levels_view(nodes)[l] == nodes_view(pre[pre.len() - 1]));
                        assert(levels_view(nodes)[l + 1] == nodes_view(next));
                    }
                }
                assert(levels_view(nodes)[0] == nodes_view(*leaves));
            }
        }
        LeanIncrementalMerkleTree { nodes }
    }

    /// The root hash; the all-zero value for an empty tree.
    pub fn root(&self) -> (r: Vec<u8>)
        requires
            tree_wf(self@),
        ensures
            r@ == root_spec(self@[0]),
    {
        proof {
            lemma_root_of_levels(self@);
        }
        let d = self.nodes.len() - 1;
        if self.nodes[d].len() == 0 {
            zero_digest()
        } else {
            crate::encode::clone_bytes(&self.nodes[d][0])
        }
    }

    /// The number of levels above the leaf level.
    pub fn depth(&self) -> (r: usize)
        requires
            self@.len() >= 1,
        ensures
            r as int == self@.len() - 1,
    {
        self.nodes.len() - 1
    }

    /// The number of leaves.
    pub fn size(&self) -> (r: usize)
        requires
            self@.len() >= 1,
        ensures
            r as int == self@[0].len(),
    {
        self.nodes[0].len()
    }

    /// A copy of the leaf hashes.
    pub fn leaves(&self) -> (r: Vec<Vec<u8>>)
        requires
            self@.len() >= 1,
        ensures
            nodes_view(r) == self@[0],
    {
        let mut out: Vec<Vec<u8>> = Vec::new();
        let base = &self.nodes[0];
        let mut i: usize = 0;
        while i < base.len()
            invariant
                i <= base@.len(),
                out@.len() == i,
                nodes_view(*base) == self@[0],
                nodes_view(out) == nodes_view(*base).take(i as int),
            decreases base@.len() - i,
        {
            let ghost pre = out@;
            out.push(crate::encode::clone_bytes(&base[i]));
            proof {
                assert forall|j: int| 0 <= j < i + 1 implies nodes_view(out)[j]
                    == nodes_view(*base).take(i + 1)[j] by {
                    if j < i {
                        assert(nodes_view(out)[j] == pre[j]@);
                        assert(pre.map_values(|x: Vec<u8>| x@)[j]
                            == nodes_view(*base).take(i as int)[j]);
                    }
                }
                assert(nodes_view(out) =~~= nodes_view(*base).take(i + 1));
            }
            i += 1;
        }
        proof {
            assert(nodes_view(*base).take(base@.len() as int) =~~= nodes_view(*base));
        }
        out
    }

    /// The index of the first leaf with the given hash, if present.
    pub fn index_of(&self, leaf: &Vec<u8>) -> (r: Option<usize>)
        requires
            self@.len() >= 1,
        ensures
            match r {
                Some(i) => i < self@[0].len() && self@[0][i as int] == leaf@
                    && forall|j: int| 0 <= j < i ==> #[trigger] self@[0][j] != leaf@,
                None => forall|j: int| 0 <= j < self@[0].len() ==> #[trigger] self@[0][j] != leaf@,
            },
    {
        let base = &self.nodes[0];
        let mut i: usize = 0;
        while i < base.len()
            invariant
                i <= base@.len(),
                nodes_view(*base) == self@[0],
                forall|j: int| 0 <= j < i ==> #[trigger] self@[0][j] != leaf@,
            decreases base@.len() - i,
        {
            if crate::encode::bytes_eq(&base[i], leaf) {
                return Some(i);
            }
            i += 1;
        }
        None
    }

    /// Whether a leaf with the given hash is present.
    pub fn has(&self, leaf: &Vec<u8>) -> (r: bool)
        requires
            self@.len() >= 1,
        ensures
            r == exists|j: int| 0 <= j < self@[0].len() && #[trigger] self@[0][j] == leaf@,
    {
        match self.index_of(leaf) {
            Some(i) => {
                proof {
                    assert(self@[0][i as int] == leaf@);
                }
                true
            },
            None => false,
        }
    }

    /// Collects the sibling hashes and the packed path from position `idx`
    /// of level `l` upward.
    fn collect_proof(&self, l: usize, idx: usize, siblings: &mut Vec<Vec<u8>>) -> (pidx: usize)
        requires
            tree_wf(self@),
            l < self@.len(),
            idx < self@[l as int].len(),
        ensures
            nodes_view(*final(siblings)) == nodes_view(*old(siblings))
                + collect_siblings(self@, l as int, idx as int),
            pidx as int == pack_index(self@, l as int, idx as int),
        decreases self@.len() - l,
    {
        if l == self.nodes.len() - 1 {
            proof {
                assert(collect_siblings(self@, l as int, idx as int)
                    =~~= Seq::<Seq<u8>>::empty());
                assert(nodes_view(*siblings) =~~= nodes_view(*siblings)
                    + collect_siblings(self@, l as int, idx as int));
            }
            return 0;
        }
        proof {
            assert(self@[l + 1] == next_level_spec(self@[l as int]));
            lemma_next_level_len(self@[l as int]);
        }
        let level_len = self.nodes[l].len();
        let sib_present: bool;
        let sib_idx: usize;
        if idx % 2 == 1 {
            sib_idx = idx - 1;
            sib_present = true;
        } else {
            sib_idx = idx + 1;
            sib_present = sib_idx < level_len;
        }
        if sib_present {
            let sib = crate::encode::clone_bytes(&self.nodes[l][sib_idx]);
            siblings.push(sib);
        }
        let ghost mid = siblings@;
        let rest = self.collect_proof(l + 1, idx / 2, siblings);
        proof {
            lemma_pack_index_le(self@, l + 1, idx as int / 2);
            if sib_present {
                assert(nodes_view(*siblings) =~~= nodes_view(*old(siblings))
                    + collect_siblings(self@, l as int, idx as int));
            }
        }
        if sib_present {
            2 * rest + idx % 2
        } else {
            rest
        }
    }

    /// Generates a Merkle proof for the leaf at `index`, or nothing when the
    /// index lies outside the tree. The generated proof always verifies: its
    /// recomputed root is the tree's root.
    pub fn generate_proof(&self, index: usize) -> (r: Option<LeanIMTMerkleProof>)
        requires
            tree_wf(self@),
        ensures
            match r {
                Some(pf) => index < self@[0].len() && pf.leaf@ == self@[0][index as int]
                    && pf.root@ == root_spec(self@[0])
                    && climb_spec(pf.leaf@, nodes_view(pf.siblings), pf.index as int) == pf.root@,
                None => index >= self@[0].len(),
            },
    {
        if index >= self.nodes[0].len() {
            return None;
        }
        let leaf = crate::encode::clone_bytes(&self.nodes[0][index]);
        let mut siblings: Vec<Vec<u8>> = Vec::new();
        let pidx = self.collect_proof(0, index, &mut siblings);
        let root = self.root();
        proof {
            lemma_climb_collect(self@, 0, index as int);
            lemma_levels_nonempty(self@, self@.len() - 1);
            lemma_root_of_levels(self@);
            assert(root@ == self@[self@.len() - 1][0]);
            assert(nodes_view(siblings) =~~= collect_siblings(self@, 0, index as int));
        }
        Some(LeanIMTMerkleProof { root, leaf, index: pidx, siblings })
    }

    /// Verifies a Merkle proof: replays the hash path from the leaf through
    /// the siblings and compares the result with the proof's root.
    pub fn verify_proof(&self, proof: &LeanIMTMerkleProof) -> (r: bool)
        ensures
            r == (proof.root@ == climb_spec(
                proof.leaf@,
                nodes_view(proof.siblings),
                proof.index as int,
            )),
    {
        let mut node = crate::encode::clone_bytes(&proof.leaf);
        let mut idx = proof.index;
        let mut i: usize = 0;
        let n = proof.siblings.len();
        let ghost target = climb_spec(proof.leaf@, nodes_view(proof.siblings), proof.index as int);
        proof {
            assert(nodes_view(proof.siblings).skip(0) =~~= nodes_view(proof.siblings));
        }
        while i < n
            invariant
                i <= n,
                n == proof.siblings@.len(),
                climb_spec(node@, nodes_view(proof.siblings).skip(i as int), idx as int) == target,
            decreases n - i,
        {
            let ghost sibs = nodes_view(proof.siblings);
            proof {
                assert(sibs.skip(i as int)[0] == sibs[i as int]);
                assert(sibs.skip(i as int).drop_first() =~~= sibs.skip(i + 1));
            }
            let mut input: Vec<u8> = Vec::new();
            if idx % 2 == 1 {
                append_bytes(&mut input, &proof.siblings[i]);
                append_bytes(&mut input, &node);
                proof {
                    assert(input@ =~= sibs[i as int] + node@);
                }
            } else {
                append_bytes(&mut input, &node);
                append_bytes(&mut input, &proof.siblings[i]);
                proof {
                    assert(input@ =~= node@ + sibs[i as int]);
                }
            }
            node = sp1_keccak256(input.as_slice());
            idx = idx / 2;
            i += 1;
        }
        proof {
            assert(nodes_view(proof.siblings).skip(n as int) =~~= Seq::<Seq<u8>>::empty());
        }
        crate::encode::bytes_eq(&proof.root, &node)
    }
}

} // verus!
