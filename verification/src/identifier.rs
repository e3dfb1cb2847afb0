use vstd::prelude::*;
use vstd::bytes::spec_u32_to_le_bytes;
use vstd::bytes::u32_to_le_bytes;
use crate::types::Color;

verus! {

/// The payload the identifier generator hashes: the host-supplied entropy
/// followed by the little-endian bytes of the operation index and of the
/// block height, the two contextual disambiguators.
pub open spec fn id_payload(entropy: Seq<u8>, extrinsic_index: u32, block_number: u32) -> Seq<u8> {
    entropy + spec_u32_to_le_bytes(extrinsic_index) + spec_u32_to_le_bytes(block_number)
}

/// The 16-byte digest of a payload. The digest is computed by an outside
/// cryptographic hash and depends on the payload alone, so it is named here
/// rather than written out.
pub uninterp spec fn id_digest(payload: Seq<u8>) -> Seq<u8>;

/// Relies on `frame_support::Hashable::blake2_128`: a 16-byte blake2 digest
/// that is a function of the input bytes alone (the call hashes the codec
/// encoding of the vector, which is determined by its bytes). The codec's
/// compact length prefix panics on a vector longer than `u32::MAX` bytes,
/// so such payloads are excluded here.
#[verifier::external_body]
fn blake2_128_digest(payload: &Vec<u8>) -> (r: [u8; 16])
    requires
        payload@.len() <= u32::MAX,
    ensures
        r@ == id_digest(payload@),
{
    frame_support::Hashable::blake2_128(payload)
}

/// Assembles the hash payload from the entropy and the two context values.
fn build_payload(entropy: &[u8; 32], extrinsic_index: u32, block_number: u32) -> (r: Vec<u8>)
    ensures
        r@ == id_payload(entropy@, extrinsic_index, block_number),
        r@.len() == 40,
{
    let mut payload: Vec<u8> = Vec::new();
    payload.extend_from_slice(entropy.as_slice());
    let mut index_bytes = u32_to_le_bytes(extrinsic_index);
    payload.append(&mut index_bytes);
    let mut height_bytes = u32_to_le_bytes(block_number);
    payload.append(&mut height_bytes);
    proof {
        assert(payload@ =~= id_payload(entropy@, extrinsic_index, block_number));
    }
    payload
}

/// Derives a fresh identifier and its attribute tag from externally supplied
/// entropy and the two contextual disambiguators. Generation is deterministic
/// given its inputs; the tag comes from the parity of the digest's first
/// byte, which reaches only two of the four declared attribute variants.
pub fn gen_unique_id(entropy: &[u8; 32], extrinsic_index: u32, block_number: u32) -> (r: (
    [u8; 16],
    Color,
))
    ensures
        r.0@ == id_digest(id_payload(entropy@, extrinsic_index, block_number)),
        r.1 == (if r.0@[0] % 2 == 0 { Color::Red } else { Color::Yellow }),
{
    let payload = build_payload(entropy, extrinsic_index, block_number);
    let hash = blake2_128_digest(&payload);
    if hash[0] % 2 == 0 {
        (hash, Color::Red)
    } else {
        (hash, Color::Yellow)
    }
}

} // verus!
