use vstd::prelude::*;
use vstd::bytes::{
    lemma_auto_spec_u32_to_from_le_bytes, spec_u32_from_le_bytes, spec_u32_to_le_bytes,
    u32_from_le_bytes, u32_to_le_bytes,
};
use crate::bridge_exit::extend_bytes;
use crate::transition::PessimisticProofOutput;

verus! {

/// Version tag of the public-output layout; part of the external contract.
pub const OUTPUT_VERSION: u8 = 1;

/// How many bytes an encoded public output occupies: the version byte,
/// three 32-byte digests, the 20-byte signer, the 4-byte network id.
pub const OUTPUT_BYTES_LEN: usize = 121;

/// The fixed byte layout of a public output: version, previous root, new
/// root, batch commitment, signer, then the network id little-endian.
/// Field order and widths only change with a version bump.
pub open spec fn output_bytes(o: PessimisticProofOutput) -> Seq<u8> {
    seq![OUTPUT_VERSION] + o.prev_local_exit_root@ + o.new_local_exit_root@ + o.batch_commitment@
        + o.signer@ + spec_u32_to_le_bytes(o.network_id)
}

/// Encodes a public output in the fixed layout.
pub fn encode_output(o: &PessimisticProofOutput) -> (r: Vec<u8>)
    ensures
        r@ == output_bytes(*o),
        r@.len() == OUTPUT_BYTES_LEN,
{
    let mut out: Vec<u8> = Vec::new();
    out.push(OUTPUT_VERSION);
    extend_bytes(&mut out, o.prev_local_exit_root.as_slice());
    extend_bytes(&mut out, o.new_local_exit_root.as_slice());
    extend_bytes(&mut out, o.batch_commitment.as_slice());
    extend_bytes(&mut out, o.signer.as_slice());
    let mut nid = u32_to_le_bytes(o.network_id);
    out.append(&mut nid);
    proof {
        lemma_auto_spec_u32_to_from_le_bytes();
        assert(out@ =~= output_bytes(*o));
    }
    out
}

/// Every encoding has the fixed length and starts with the version byte.
pub proof fn lemma_output_bytes_shape(o: PessimisticProofOutput)
    ensures
        output_bytes(o).len() == OUTPUT_BYTES_LEN,
        output_bytes(o)[0] == OUTPUT_VERSION,
{
    lemma_auto_spec_u32_to_from_le_bytes();
}

/// Copies a fixed-width field out of an encoded buffer.
fn read_array_32(bytes: &[u8], off: usize) -> (r: [u8; 32])
    requires
        off + 32 <= bytes@.len(),
    ensures
        r@ == bytes@.subrange(off as int, off as int + 32),
{
    let n = bytes.len();
    let mut r: [u8; 32] = [0u8; 32];
    let mut k: usize = 0;
    while k < 32
        invariant
            k <= 32,
            n == bytes@.len(),
            off + 32 <= bytes@.len(),
            forall|p: int| 0 <= p < k ==> r@[p] == bytes@[off + p],
        decreases 32 - k,
    {
        r[k] = bytes[off + k];
        k = k + 1;
    }
    proof {
        assert(r@ =~= bytes@.subrange(off as int, off as int + 32));
    }
    r
}

/// Copies the signer field out of an encoded buffer.
fn read_array_20(bytes: &[u8], off: usize) -> (r: [u8; 20])
    requires
        off + 20 <= bytes@.len(),
    ensures
        r@ == bytes@.subrange(off as int, off as int + 20),
{
    let n = bytes.len();
    let mut r: [u8; 20] = [0u8; 20];
    let mut k: usize = 0;
    while k < 20
        invariant
            k <= 20,
            n == bytes@.len(),
            off + 20 <= bytes@.len(),
            forall|p: int| 0 <= p < k ==> r@[p] == bytes@[off + p],
        decreases 20 - k,
    {
        r[k] = bytes[off + k];
        k = k + 1;
    }
    proof {
        assert(r@ =~= bytes@.subrange(off as int, off as int + 20));
    }
    r
}

/// Decodes the fixed layout back into a public output: exactly the buffers
/// that `output_bytes` produces decode, and to the output that produced
/// them.
pub fn decode_output(bytes: &[u8]) -> (r: Option<PessimisticProofOutput>)
    ensures
        match r {
            Some(o) => output_bytes(o) == bytes@,
            None => forall|o: PessimisticProofOutput| output_bytes(o) != bytes@,
        },
{
    if bytes.len() != OUTPUT_BYTES_LEN || bytes[0] != OUTPUT_VERSION {
        proof {
            assert forall|o: PessimisticProofOutput| output_bytes(o) != bytes@ by {
                lemma_output_bytes_shape(o);
            }
        }
        return None;
    }
    let prev_local_exit_root = read_array_32(bytes, 1);
    let new_local_exit_root = read_array_32(bytes, 33);
    let batch_commitment = read_array_32(bytes, 65);
    let signer = read_array_20(bytes, 97);
    let mut word: [u8; 4] = [0u8; 4];
    let mut k: usize = 0;
    while k < 4
        invariant
            k <= 4,
            bytes@.len() == OUTPUT_BYTES_LEN,
            forall|p: int| 0 <= p < k ==> word@[p] == bytes@[117 + p],
        decreases 4 - k,
    {
        word[k] = bytes[117 + k];
        k = k + 1;
    }
    proof {
        assert(word@ =~= bytes@.subrange(117, 121));
    }
    let network_id = u32_from_le_bytes(word.as_slice());
    let o = PessimisticProofOutput {
        prev_local_exit_root,
        new_local_exit_root,
        batch_commitment,
        signer,
        network_id,
    };
    proof {
        lemma_auto_spec_u32_to_from_le_bytes();
        assert(spec_u32_to_le_bytes(network_id) == word@);
        assert(output_bytes(o) =~= bytes@);
    }
    Some(o)
}

/// The 4-byte group that the word at index `i` packs: the bytes at
/// positions 4i..4i+4, zeros past the end of the buffer.
pub open spec fn padded_chunk(bytes: Seq<u8>, i: int) -> Seq<u8> {
    Seq::new(
        4,
        |k: int|
            if 4 * i + k < bytes.len() {
                bytes[4 * i + k]
            } else {
                0u8
            },
    )
}

/// A byte buffer as fixed-width words for the output channel: one 32-bit
/// little-endian word per 4 bytes, in ascending index order, the final
/// partial word zero-padded.
pub open spec fn words_of(bytes: Seq<u8>) -> Seq<u32> {
    Seq::new(
        ((bytes.len() + 3) / 4) as nat,
        |i: int| spec_u32_from_le_bytes(padded_chunk(bytes, i)),
    )
}

/// Packs a byte buffer into its output words.
pub fn to_output_words(bytes: &Vec<u8>) -> (r: Vec<u32>)
    ensures
        r@ == words_of(bytes@),
{
    let n = bytes.len();
    let m = n / 4 + (if n % 4 == 0 {
        0
    } else {
        1
    });
    proof {
        assert(m == (n + 3) / 4);
    }
    let mut out: Vec<u32> = Vec::new();
    let mut i: usize = 0;
    proof {
        assert(out@ =~= words_of(bytes@).take(0));
    }
    while i < m
        invariant
            i <= m,
            n == bytes@.len(),
            m == (n + 3) / 4,
            out@ == words_of(bytes@).take(i as int),
        decreases m - i,
    {
        proof {
            assert(4 * (i as int) < n as int);
        }
        let base = 4 * i;
        let mut chunk: [u8; 4] = [0u8; 4];
        let mut k: usize = 0;
        while k < 4
            invariant
                k <= 4,
                n == bytes@.len(),
                base == 4 * i,
                base < n,
                forall|p: int|
                    0 <= p < k ==> chunk@[p] == (if 4 * (i as int) + p < n {
                        bytes@[4 * (i as int) + p]
                    } else {
                        0u8
                    }),
                forall|p: int| k <= p < 4 ==> chunk@[p] == 0u8,
            decreases 4 - k,
        {
            if k < n - base {
                chunk[k] = bytes[base + k];
            }
            k = k + 1;
        }
        proof {
            assert(chunk@ =~= padded_chunk(bytes@, i as int));
        }
        let w = u32_from_le_bytes(chunk.as_slice());
        let ghost pre = out@;
        out.push(w);
        proof {
            assert(out@ =~= pre.push(w));
            assert(pre.push(w) =~= words_of(bytes@).take(i as int + 1));
        }
        i = i + 1;
    }
    proof {
        assert(out@ =~= words_of(bytes@));
    }
    out
}

} // verus!
