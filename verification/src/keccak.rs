use vstd::prelude::*;

verus! {

/// The 32-byte digest that the fixed hash function returns.
pub type Digest = [u8; 32];

/// The Keccak-256 digest of a byte sequence. The digest is a pure function
/// of the input bytes alone; nothing more is assumed of it.
pub uninterp spec fn keccak_of(input: Seq<u8>) -> Seq<u8>;

/// The digest of the concatenation of two byte sequences, used to combine
/// two sibling nodes of a Merkle tree into their parent.
pub open spec fn hash_pair(left: Seq<u8>, right: Seq<u8>) -> Seq<u8> {
    keccak_of(left + right)
}

/// Relies on tiny_keccak's Keccak::v256 with Hasher::update/finalize: the
/// 32-byte Keccak-256 digest of the input, a function of the input alone.
#[verifier::external_body]
pub(crate) fn keccak256(input: &[u8]) -> (r: Digest)
    ensures
        r@ == keccak_of(input@),
{
    let mut hasher = tiny_keccak::Keccak::v256();
    let mut out = [0u8; 32];
    tiny_keccak::Hasher::update(&mut hasher, input);
    tiny_keccak::Hasher::finalize(hasher, &mut out);
    out
}

/// Hashes the concatenation of two digests, the parent-node step of every
/// tree in this crate.
pub(crate) fn hash_pair_exec(left: &Digest, right: &Digest) -> (r: Digest)
    ensures
        r@ == hash_pair(left@, right@),
{
    let mut buf: Vec<u8> = Vec::new();
    let mut i: usize = 0;
    while i < 32
        invariant
            0 <= i <= 32,
            buf@ == left@.take(i as int),
        decreases 32 - i,
    {
        buf.push(left[i]);
        i = i + 1;
    }
    proof {
        assert(buf@ =~= left@);
    }
    let mut j: usize = 0;
    while j < 32
        invariant
            0 <= j <= 32,
            buf@ == left@ + right@.take(j as int),
        decreases 32 - j,
    {
        buf.push(right[j]);
        j = j + 1;
    }
    proof {
        assert(buf@ =~= left@ + right@);
    }
    keccak256(buf.as_slice())
}

/// A digest's deep view is its view: the same 32 bytes.
pub proof fn lemma_digest_deep_view(a: Digest)
    ensures
        a.deep_view() == a@,
{
    assert(a.deep_view() =~= a@);
}

/// Compares two digests byte for byte.
pub fn digest_eq(a: &Digest, b: &Digest) -> (r: bool)
    ensures
        r == (a@ == b@),
{
    let mut i: usize = 0;
    while i < 32
        invariant
            0 <= i <= 32,
            forall|j: int| 0 <= j < i ==> a@[j] == b@[j],
        decreases 32 - i,
    {
        if a[i] != b[i] {
            return false;
        }
        i = i + 1;
    }
    proof {
        assert(a@ =~= b@);
    }
    true
}

} // verus!
