use vstd::prelude::*;
use vstd::bytes::{spec_u32_to_le_bytes, spec_u128_to_le_bytes, u128_to_le_bytes, u32_to_le_bytes};
use crate::keccak::{keccak256, keccak_of, Digest};
use crate::u256::U256;

verus! {

/// A fungible asset: the network it originates from and its address there.
/// Used as the key of the balance ledger.
#[derive(Clone, Copy, Debug)]
pub struct TokenInfo {
    pub origin_network: u32,
    pub origin_token_address: [u8; 20],
}

impl TokenInfo {
    /// Compares two tokens field by field.
    pub fn eq_token(&self, other: &TokenInfo) -> (r: bool)
        ensures
            r == (*self == *other),
    {
        if self.origin_network != other.origin_network {
            return false;
        }
        let mut i: usize = 0;
        while i < 20
            invariant
                0 <= i <= 20,
                forall|j: int|
                    0 <= j < i ==> self.origin_token_address@[j] == other.origin_token_address@[j],
            decreases 20 - i,
        {
            if self.origin_token_address[i] != other.origin_token_address[i] {
                return false;
            }
            i = i + 1;
        }
        proof {
            assert(self.origin_token_address =~= other.origin_token_address);
        }
        true
    }
}

/// An outbound bridge exit: a withdrawal of `amount` of `token` recorded on
/// this network, destined for `dest_address` on `dest_network`.
#[derive(Clone, Copy, Debug)]
pub struct BridgeExit {
    pub dest_network: u32,
    pub token: TokenInfo,
    pub amount: U256,
    pub dest_address: [u8; 20],
    pub metadata_hash: Option<[u8; 32]>,
}

/// The key under which a consumed inbound claim is recorded in the
/// nullifier set: the claimed exit's origin network and its index in that
/// network's exit tree.
#[derive(Clone, Copy, Debug, PartialEq, Eq, Structural)]
pub struct NullifierKey {
    pub origin_network: u32,
    pub leaf_index: u32,
}

/// An inbound claim: a bridge exit recorded on another network, together
/// with where it sits in that network's exit tree and a Merkle inclusion
/// proof of its leaf against the shared L1 info root.
#[derive(Clone, Debug)]
pub struct ImportedBridgeExit {
    pub bridge_exit: BridgeExit,
    pub origin_network: u32,
    pub leaf_index: u32,
    pub inclusion_proof: Vec<Digest>,
}

impl ImportedBridgeExit {
    /// The nullifier key that consuming this claim records.
    pub open spec fn key_spec(self) -> NullifierKey {
        NullifierKey { origin_network: self.origin_network, leaf_index: self.leaf_index }
    }

    /// The nullifier key that consuming this claim records.
    pub fn nullifier_key(&self) -> (k: NullifierKey)
        ensures
            k == self.key_spec(),
    {
        NullifierKey { origin_network: self.origin_network, leaf_index: self.leaf_index }
    }
}

/// Canonical byte encoding of a token identifier.
pub open spec fn token_bytes(t: TokenInfo) -> Seq<u8> {
    spec_u32_to_le_bytes(t.origin_network) + t.origin_token_address@
}

/// Canonical byte encoding of an amount: low limb then high limb, each
/// little-endian.
pub open spec fn amount_bytes(a: U256) -> Seq<u8> {
    spec_u128_to_le_bytes(a.lo) + spec_u128_to_le_bytes(a.hi)
}

/// Canonical byte encoding of the optional metadata hash: a presence byte,
/// then the hash if present.
pub open spec fn metadata_bytes(m: Option<[u8; 32]>) -> Seq<u8> {
    match m {
        None => seq![0u8],
        Some(h) => seq![1u8] + h@,
    }
}

/// Canonical byte encoding of a bridge exit, hashed to form its tree leaf
/// and the batch commitment.
pub open spec fn bridge_exit_bytes(e: BridgeExit) -> Seq<u8> {
    spec_u32_to_le_bytes(e.dest_network) + token_bytes(e.token) + amount_bytes(e.amount)
        + e.dest_address@ + metadata_bytes(e.metadata_hash)
}

/// The exit-tree leaf of a bridge exit: the digest of its encoding.
pub open spec fn leaf_hash_of(e: BridgeExit) -> Seq<u8> {
    keccak_of(bridge_exit_bytes(e))
}

/// Canonical byte encoding of an imported bridge exit as it enters the
/// batch commitment: the claimed exit, its origin network and leaf index.
/// The inclusion proof is a private witness and stays out.
pub open spec fn imported_exit_bytes(ie: ImportedBridgeExit) -> Seq<u8> {
    bridge_exit_bytes(ie.bridge_exit) + spec_u32_to_le_bytes(ie.origin_network)
        + spec_u32_to_le_bytes(ie.leaf_index)
}

/// Appends a byte slice to a buffer.
pub(crate) fn extend_bytes(out: &mut Vec<u8>, s: &[u8])
    ensures
        final(out)@ == old(out)@ + s@,
{
    let mut i: usize = 0;
    while i < s.len()
        invariant
            0 <= i <= s@.len(),
            out@ == old(out)@ + s@.take(i as int),
        decreases s@.len() - i,
    {
        out.push(s[i]);
        proof {
            assert(old(out)@ + s@.take(i + 1) =~= (old(out)@ + s@.take(i as int)).push(s@[i as int]));
        }
        i = i + 1;
    }
    proof {
        assert(old(out)@ + s@.take(s@.len() as int) =~= old(out)@ + s@);
    }
}

/// Builds the canonical byte encoding of a bridge exit.
pub fn encode_bridge_exit(e: &BridgeExit) -> (r: Vec<u8>)
    ensures
        r@ == bridge_exit_bytes(*e),
{
    let mut out = u32_to_le_bytes(e.dest_network);
    let mut tn = u32_to_le_bytes(e.token.origin_network);
    out.append(&mut tn);
    extend_bytes(&mut out, e.token.origin_token_address.as_slice());
    let mut lo = u128_to_le_bytes(e.amount.lo);
    out.append(&mut lo);
    let mut hi = u128_to_le_bytes(e.amount.hi);
    out.append(&mut hi);
    extend_bytes(&mut out, e.dest_address.as_slice());
    match &e.metadata_hash {
        None => {
            out.push(0u8);
        },
        Some(h) => {
            out.push(1u8);
            extend_bytes(&mut out, h.as_slice());
        },
    }
    proof {
        assert(out@ =~= bridge_exit_bytes(*e));
    }
    out
}

/// Computes the exit-tree leaf of a bridge exit.
pub fn leaf_hash(e: &BridgeExit) -> (r: Digest)
    ensures
        r@ == leaf_hash_of(*e),
{
    let encoded = encode_bridge_exit(e);
    keccak256(encoded.as_slice())
}

/// Builds the canonical byte encoding of an imported bridge exit.
pub fn encode_imported_exit(ie: &ImportedBridgeExit) -> (r: Vec<u8>)
    ensures
        r@ == imported_exit_bytes(*ie),
{
    let mut out = encode_bridge_exit(&ie.bridge_exit);
    let mut on = u32_to_le_bytes(ie.origin_network);
    out.append(&mut on);
    let mut li = u32_to_le_bytes(ie.leaf_index);
    out.append(&mut li);
    proof {
        assert(out@ =~= imported_exit_bytes(*ie));
    }
    out
}

} // verus!
