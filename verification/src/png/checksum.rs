//! The chunk CRC, computed by `crc32fast`.
use vstd::prelude::*;

verus! {

/// One bit step of the reflected CRC-32 register, polynomial 0xEDB88320.
pub open spec fn crc_bit(c: u32) -> u32 {
    if c & 1 == 1 { (c >> 1) ^ 0xedb8_8320u32 } else { c >> 1 }
}

/// The register after `n` bit steps.
pub open spec fn crc_bits(c: u32, n: nat) -> u32
    decreases n,
{
    if n == 0 { c } else { crc_bits(crc_bit(c), (n - 1) as nat) }
}

/// The register after the bytes of `data`, from the initial value
/// 0xFFFFFFFF: each byte is XORed into the low bits, then eight bit steps.
pub open spec fn crc_register(data: Seq<u8>) -> u32
    decreases data.len(),
{
    if data.len() == 0 {
        0xffff_ffffu32
    } else {
        crc_bits(crc_register(data.drop_last()) ^ (data.last() as u32), 8)
    }
}

/// The CRC-32 (IEEE, reflected) of a byte sequence: the final register
/// XORed with 0xFFFFFFFF. Proofs about chunks treat it as a value and do
/// not unfold it.
#[verifier::opaque]
pub open spec fn crc32(data: Seq<u8>) -> u32 {
    crc_register(data) ^ 0xffff_ffffu32
}

/// Calls `crc32fast::hash`, which returns the CRC-32 (IEEE) checksum of the
/// whole slice, the value `crc32` above defines.
#[verifier::external_body]
pub(crate) fn crc32_of(data: &[u8]) -> (r: u32)
    ensures
        r == crc32(data@),
{
    crc32fast::hash(data)
}

pub open spec fn chunk_crc_input(kind: Seq<u8>, payload: Seq<u8>) -> Seq<u8> {
    kind + payload
}

} // verus!
