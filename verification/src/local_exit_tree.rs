use vstd::prelude::*;
use vstd::arithmetic::power2::{lemma2_to64, lemma_pow2_unfold, pow2};
use crate::keccak::{hash_pair, hash_pair_exec, Digest};

verus! {

/// Height of every local exit tree: room for 2^32 leaves.
pub const TREE_DEPTH: usize = 32;

/// The digest of an empty subtree of height `d`: all-zero bytes at the
/// leaves, each level the hash of two copies of the level below.
pub open spec fn zero_at(d: nat) -> Seq<u8>
    decreases d,
{
    if d == 0 {
        Seq::new(32, |i: int| 0u8)
    } else {
        hash_pair(zero_at((d - 1) as nat), zero_at((d - 1) as nat))
    }
}

/// One level up: neighbouring nodes hashed pairwise, a lone last node
/// paired with the empty-subtree digest of its level.
pub open spec fn parent_level(level: Seq<Seq<u8>>, z: Seq<u8>) -> Seq<Seq<u8>> {
    Seq::new(
        ((level.len() + 1) / 2) as nat,
        |i: int|
            hash_pair(
                level[2 * i],
                if 2 * i + 1 < level.len() {
                    level[2 * i + 1]
                } else {
                    z
                },
            ),
    )
}

/// The root reached from a level at depth `d` by hashing pairwise up to
/// depth 32. An empty tree has the empty-subtree digest as its root.
pub open spec fn root_from(level: Seq<Seq<u8>>, d: nat) -> Seq<u8>
    decreases 32 - d,
{
    if d >= 32 {
        if level.len() == 0 {
            zero_at(32)
        } else {
            level[0]
        }
    } else {
        root_from(parent_level(level, zero_at(d)), d + 1)
    }
}

/// The canonical root of an ordered sequence of leaves: a pure function of
/// the sequence alone, whatever representation computed it.
pub open spec fn tree_root_of(leaves: Seq<Seq<u8>>) -> Seq<u8> {
    root_from(leaves, 0)
}

/// Folds a leaf up a Merkle path: at each level the current node is hashed
/// with the next sibling, on the side that the position's parity picks.
pub open spec fn climb(cur: Seq<u8>, pos: nat, siblings: Seq<Seq<u8>>) -> Seq<u8>
    decreases siblings.len(),
{
    if siblings.len() == 0 {
        cur
    } else {
        let next = if pos % 2 == 0 {
            hash_pair(cur, siblings[0])
        } else {
            hash_pair(siblings[0], cur)
        };
        climb(next, pos / 2, siblings.drop_first())
    }
}

/// The siblings met on the way from position `pos` at depth `d` up to the
/// root: the neighbour at each level, or the empty-subtree digest where the
/// neighbour falls outside the level.
pub open spec fn sibling_path(level: Seq<Seq<u8>>, pos: nat, d: nat) -> Seq<Seq<u8>>
    decreases 32 - d,
{
    if d >= 32 {
        Seq::empty()
    } else {
        let sib = if pos % 2 == 0 {
            if pos + 1 < level.len() {
                level[pos as int + 1]
            } else {
                zero_at(d)
            }
        } else {
            level[pos as int - 1]
        };
        seq![sib] + sibling_path(parent_level(level, zero_at(d)), pos / 2, d + 1)
    }
}

/// Climbing the sibling path of a position reaches the root: an inclusion
/// proof produced from a tree verifies against that tree's root.
pub proof fn lemma_climb_path(level: Seq<Seq<u8>>, pos: nat, d: nat)
    requires
        d <= 32,
        pos < level.len(),
        level.len() <= pow2((32 - d) as nat),
    ensures
        climb(level[pos as int], pos, sibling_path(level, pos, d)) == root_from(level, d),
    decreases 32 - d,
{
    if d >= 32 {
        lemma2_to64();
        assert(level.len() == 1);
        assert(sibling_path(level, pos, d) =~= Seq::<Seq<u8>>::empty());
    } else {
        let z = zero_at(d);
        let parent = parent_level(level, z);
        let sib = if pos % 2 == 0 {
            if pos + 1 < level.len() {
                level[pos as int + 1]
            } else {
                z
            }
        } else {
            level[pos as int - 1]
        };
        assert(pos / 2 < parent.len());
        if pos % 2 == 0 {
            assert(2 * ((pos / 2) as int) == pos);
            assert(parent[(pos / 2) as int] == hash_pair(level[pos as int], sib));
        } else {
            assert(2 * ((pos / 2) as int) == pos - 1);
            assert(2 * ((pos / 2) as int) + 1 == pos < level.len());
            assert(parent[(pos / 2) as int] == hash_pair(sib, level[pos as int]));
        }
        lemma_pow2_unfold((32 - d) as nat);
        assert(parent.len() <= pow2((32 - (d + 1)) as nat));
        lemma_climb_path(parent, pos / 2, d + 1);
        let rest = sibling_path(parent, pos / 2, d + 1);
        let full = sibling_path(level, pos, d);
        assert(full == seq![sib] + rest);
        assert(full.len() == 1 + rest.len());
        assert(full[0] == sib);
        assert(full.drop_first() =~= rest);
    }
}

/// Why an inclusion proof is rejected: it has the wrong length, or climbing
/// it does not reach the given root.
#[derive(Clone, Copy, Debug, PartialEq, Eq, Structural)]
pub enum InclusionError {
    MalformedProofLength,
    HashMismatch,
}

/// An append-only Merkle tree over a network's outbound exits, in emission
/// order. The root is a pure function of the ordered leaf sequence.
#[derive(Clone, Debug)]
pub struct LocalExitTree {
    leaves: Vec<Digest>,
}

impl View for LocalExitTree {
    type V = Seq<Seq<u8>>;

    closed spec fn view(&self) -> Seq<Seq<u8>> {
        self.leaves.deep_view()
    }
}

/// Hashes neighbouring nodes of one level pairwise into the level above.
fn next_level(level: &Vec<Digest>, zero: &Digest) -> (r: Vec<Digest>)
    ensures
        r.deep_view() == parent_level(level.deep_view(), zero@),
{
    let ghost target = parent_level(level.deep_view(), zero@);
    let mut out: Vec<Digest> = Vec::new();
    let n = level.len();
    let m = n / 2 + n % 2;
    let mut j: usize = 0;
    proof {
        assert(out.deep_view() =~= target.take(0));
    }
    while j < m
        invariant
            j <= m,
            n == level@.len(),
            m == n / 2 + n % 2,
            target == parent_level(level.deep_view(), zero@),
            m == target.len(),
            out.deep_view() == target.take(j as int),
        decreases m - j,
    {
        proof {
            assert(2 * (j as int) < n as int);
        }
        let i = 2 * j;
        let left = level[i];
        let right = if i + 1 < n {
            level[i + 1]
        } else {
            *zero
        };
        let h = hash_pair_exec(&left, &right);
        proof {
            crate::keccak::lemma_digest_deep_view(level@[i as int]);
            if i + 1 < n {
                crate::keccak::lemma_digest_deep_view(level@[i as int + 1]);
            }
            assert(h@ == target[j as int]);
        }
        let ghost pre = out.deep_view();
        out.push(h);
        proof {
            crate::keccak::lemma_digest_deep_view(h);
            assert(out.deep_view() =~= pre.push(h@));
            assert(pre.push(h@) =~= target.take(j as int + 1));
        }
        j = j + 1;
    }
    proof {
        assert(out.deep_view() =~= target);
    }
    out
}

impl LocalExitTree {
    /// An empty tree.
    pub fn new() -> (t: LocalExitTree)
        ensures
            t@ == Seq::<Seq<u8>>::empty(),
    {
        let t = LocalExitTree { leaves: Vec::new() };
        proof {
            assert(t@ =~= Seq::<Seq<u8>>::empty());
        }
        t
    }

    /// How many leaves the tree holds.
    pub fn leaf_count(&self) -> (n: usize)
        ensures
            n == self@.len(),
    {
        self.leaves.len()
    }

    /// The leaf at an index.
    pub fn leaf_at(&self, index: usize) -> (r: Digest)
        requires
            index < self@.len(),
        ensures
            r@ == self@[index as int],
    {
        self.leaves[index]
    }

    /// Appends one leaf in emission order and returns the new root.
    pub fn append(&mut self, leaf: &Digest) -> (r: Digest)
        requires
            old(self)@.len() < 0x1_0000_0000,
        ensures
            final(self)@ == old(self)@.push(leaf@),
            r@ == tree_root_of(final(self)@),
    {
        let ghost pre = self.leaves.deep_view();
        self.leaves.push(*leaf);
        proof {
            crate::keccak::lemma_digest_deep_view(*leaf);
            assert(self.leaves.deep_view() =~= pre.push(leaf@));
        }
        self.root()
    }

    /// The canonical root of the current leaf sequence.
    pub fn root(&self) -> (r: Digest)
        ensures
            r@ == tree_root_of(self@),
    {
        let mut level: Vec<Digest> = Vec::new();
        let mut i: usize = 0;
        while i < self.leaves.len()
            invariant
                i <= self@.len(),
                self@.len() == self.leaves@.len(),
                level.deep_view() == self@.take(i as int),
            decreases self@.len() - i,
        {
            let ghost pre = level.deep_view();
            level.push(self.leaves[i]);
            proof {
                crate::keccak::lemma_digest_deep_view(self.leaves@[i as int]);
                assert(level.deep_view() =~= pre.push(self.leaves@[i as int]@));
                assert(pre.push(self@[i as int]) =~= self@.take(i as int + 1));
            }
            i = i + 1;
        }
        proof {
            assert(level.deep_view() =~= self@);
        }
        let mut zero: Digest = [0u8; 32];
        proof {
            assert(zero@ =~= zero_at(0));
        }
        let mut d: usize = 0;
        while d < 32
            invariant
                d <= 32,
                zero@ == zero_at(d as nat),
                root_from(level.deep_view(), d as nat) == tree_root_of(self@),
            decreases 32 - d,
        {
            let up = next_level(&level, &zero);
            level = up;
            zero = hash_pair_exec(&zero, &zero);
            d = d + 1;
        }
        if level.len() == 0 {
            zero
        } else {
            proof {
                crate::keccak::lemma_digest_deep_view(level@[0]);
            }
            level[0]
        }
    }

    /// The inclusion proof for the leaf at `index`: one sibling digest per
    /// level, and climbing it from that leaf reaches the current root.
    pub fn prove(&self, index: usize) -> (r: Vec<Digest>)
        requires
            index < self@.len(),
            self@.len() <= 0x1_0000_0000,
        ensures
            r.deep_view() == sibling_path(self@, index as nat, 0),
            r@.len() == TREE_DEPTH,
            climb(self@[index as int], index as nat, r.deep_view()) == tree_root_of(self@),
    {
        let mut level: Vec<Digest> = Vec::new();
        let mut i: usize = 0;
        while i < self.leaves.len()
            invariant
                i <= self@.len(),
                self@.len() == self.leaves@.len(),
                level.deep_view() == self@.take(i as int),
            decreases self@.len() - i,
        {
            let ghost pre = level.deep_view();
            level.push(self.leaves[i]);
            proof {
                crate::keccak::lemma_digest_deep_view(self.leaves@[i as int]);
                assert(level.deep_view() =~= pre.push(self.leaves@[i as int]@));
                assert(pre.push(self@[i as int]) =~= self@.take(i as int + 1));
            }
            i = i + 1;
        }
        proof {
            assert(level.deep_view() =~= self@);
        }
        let mut proof_vec: Vec<Digest> = Vec::new();
        let mut zero: Digest = [0u8; 32];
        proof {
            assert(zero@ =~= zero_at(0));
        }
        let mut pos: usize = index;
        let mut d: usize = 0;
        proof {
            assert(proof_vec.deep_view() =~= Seq::<Seq<u8>>::empty());
            assert(Seq::<Seq<u8>>::empty() + sibling_path(level.deep_view(), pos as nat, 0)
                =~= sibling_path(self@, index as nat, 0));
        }
        while d < 32
            invariant
                d <= 32,
                zero@ == zero_at(d as nat),
                pos < level.deep_view().len(),
                proof_vec@.len() == d,
                proof_vec.deep_view() + sibling_path(level.deep_view(), pos as nat, d as nat)
                    == sibling_path(self@, index as nat, 0),
            decreases 32 - d,
        {
            let ghost lvl = level.deep_view();
            let sib: Digest = if pos % 2 == 0 {
                if pos + 1 < level.len() {
                    level[pos + 1]
                } else {
                    zero
                }
            } else {
                level[pos - 1]
            };
            proof {
                if pos % 2 == 0 && pos + 1 < level@.len() {
                    crate::keccak::lemma_digest_deep_view(level@[pos as int + 1]);
                }
                if pos % 2 != 0 {
                    crate::keccak::lemma_digest_deep_view(level@[pos as int - 1]);
                }
            }
            let ghost pre = proof_vec.deep_view();
            proof_vec.push(sib);
            let up = next_level(&level, &zero);
            proof {
                let parent = parent_level(lvl, zero_at(d as nat));
                let rest = sibling_path(parent, (pos / 2) as nat, (d + 1) as nat);
                assert(sibling_path(lvl, pos as nat, d as nat) == seq![sib@] + rest);
                crate::keccak::lemma_digest_deep_view(sib);
                assert(proof_vec.deep_view() =~= pre.push(sib@));
                assert(pre.push(sib@) + rest =~= pre + (seq![sib@] + rest));
                assert(pos / 2 < parent.len());
            }
            level = up;
            zero = hash_pair_exec(&zero, &zero);
            pos = pos / 2;
            d = d + 1;
        }
        proof {
            assert(sibling_path(level.deep_view(), pos as nat, 32) =~= Seq::<Seq<u8>>::empty());
            assert(proof_vec.deep_view() + Seq::<Seq<u8>>::empty() =~= proof_vec.deep_view());
            lemma2_to64();
            lemma_climb_path(self@, index as nat, 0);
        }
        proof_vec
    }

    /// Checks an inclusion proof: the proof must have one sibling per level,
    /// and climbing it from the leaf must reach the given root. The two
    /// failures are reported apart.
    pub fn verify_inclusion(root: &Digest, index: u32, leaf: &Digest, proof: &Vec<Digest>) -> (r:
        Result<(), InclusionError>)
        ensures
            r is Ok <==> proof@.len() == TREE_DEPTH && climb(leaf@, index as nat, proof.deep_view())
                == root@,
            r == Err::<(), InclusionError>(InclusionError::MalformedProofLength) <==> proof@.len()
                != TREE_DEPTH,
            r == Err::<(), InclusionError>(InclusionError::HashMismatch) <==> proof@.len()
                == TREE_DEPTH && climb(leaf@, index as nat, proof.deep_view()) != root@,
    {
        if proof.len() != TREE_DEPTH {
            return Err(InclusionError::MalformedProofLength);
        }
        let mut cur: Digest = *leaf;
        let mut pos: u32 = index;
        let mut i: usize = 0;
        proof {
            assert(proof.deep_view().skip(0) =~= proof.deep_view());
        }
        while i < TREE_DEPTH
            invariant
                i <= TREE_DEPTH,
                proof@.len() == TREE_DEPTH,
                climb(cur@, pos as nat, proof.deep_view().skip(i as int)) == climb(
                    leaf@,
                    index as nat,
                    proof.deep_view(),
                ),
            decreases TREE_DEPTH - i,
        {
            let ghost rest = proof.deep_view().skip(i as int);
            let sib = &proof[i];
            proof {
                crate::keccak::lemma_digest_deep_view(proof@[i as int]);
                assert(rest[0] == proof.deep_view()[i as int]);
                assert(rest.drop_first() =~= proof.deep_view().skip(i as int + 1));
            }
            cur = if pos % 2 == 0 {
                hash_pair_exec(&cur, sib)
            } else {
                hash_pair_exec(sib, &cur)
            };
            pos = pos / 2;
            i = i + 1;
        }
        proof {
            assert(proof.deep_view().skip(TREE_DEPTH as int) =~= Seq::<Seq<u8>>::empty());
        }
        if crate::keccak::digest_eq(&cur, root) {
            Ok(())
        } else {
            Err(InclusionError::HashMismatch)
        }
    }
}

} // verus!
