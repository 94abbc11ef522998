//! The archive's two integrity fields: a rolling checksum over bytes
//! `[12, end)` and a cryptographic digest over bytes `[32, end)`, both stored
//! in the header. The checksum is computed after the digest is written,
//! because its input range covers the digest.

use vstd::prelude::*;
use vstd::slice::slice_subrange;
use crate::buffer::{le_u32_at, le_bytes_of_u32, splice, write_bytes_at, write_u32_at,
    lemma_splice_facts};

verus! {

/// Byte offset of the checksum field inside the header.
pub const CHECKSUM_OFFSET: usize = 8;

/// Byte offset of the signature field inside the header.
pub const SIGNATURE_OFFSET: usize = 12;

/// Byte offset of the first byte the signature covers.
pub const SIGNATURE_RANGE_START: usize = 32;

/// Length of the signature field.
pub const SIGNATURE_LENGTH: usize = 20;

/// The 20-byte SHA-1 digest of a byte sequence.
pub uninterp spec fn sha1_of(data: Seq<u8>) -> Seq<u8>;

/// The Adler-32 rolling checksum of a byte sequence.
pub uninterp spec fn adler32_of(data: Seq<u8>) -> u32;

/// Relies on sha1::Sha1 (new, update, digest): the digest is 20 bytes and
/// depends on the input bytes alone.
#[verifier::external_body]
fn sha1_digest(data: &[u8]) -> (r: Vec<u8>)
    ensures
        r@ == sha1_of(data@),
        r@.len() == SIGNATURE_LENGTH,
{
    let mut hasher = sha1::Sha1::new();
    hasher.update(data);
    hasher.digest().bytes().to_vec()
}

/// Relies on adler32::RollingAdler32 (from_buffer, hash): the checksum
/// depends on the input bytes alone.
#[verifier::external_body]
fn adler32_hash(data: &[u8]) -> (r: u32)
    ensures
        r == adler32_of(data@),
{
    adler32::RollingAdler32::from_buffer(data).hash()
}

/// A buffer after its integrity fields are restored: the digest of
/// `[32, end)` written at 12, then the checksum of `[12, end)` — the digest
/// included — written at 8.
#[verifier::opaque]
pub open spec fn spec_with_integrity(s: Seq<u8>) -> Seq<u8>
    recommends
        s.len() >= 32,
{
    let signed = splice(s, SIGNATURE_OFFSET as int, sha1_of(s.subrange(32, s.len() as int)));
    splice(
        signed,
        CHECKSUM_OFFSET as int,
        le_bytes_of_u32(adler32_of(signed.subrange(12, signed.len() as int))),
    )
}

/// Recomputes and stores both integrity fields, in the order the format
/// demands: signature first, checksum second.
pub fn recompute_integrity(data: &mut Vec<u8>)
    requires
        old(data).len() >= 32,
    ensures
        final(data)@ == spec_with_integrity(old(data)@),
        final(data).len() == old(data).len(),
        le_u32_at(final(data)@, CHECKSUM_OFFSET as int) == adler32_of(
            final(data)@.subrange(12, final(data)@.len() as int),
        ),
        final(data)@.subrange(12, 32) == sha1_of(
            final(data)@.subrange(32, final(data)@.len() as int),
        ),
{
    proof {
        reveal(spec_with_integrity);
    }
    let ghost s0 = data@;
    let n = data.len();
    let tail = slice_subrange(data.as_slice(), SIGNATURE_RANGE_START, n);
    let sig = sha1_digest(tail);
    write_bytes_at(data, SIGNATURE_OFFSET, &sig);
    let ghost signed = data@;
    proof {
        lemma_splice_facts(s0, 12, sig@);
    }
    let n2 = data.len();
    let tail2 = slice_subrange(data.as_slice(), SIGNATURE_OFFSET, n2);
    let ck = adler32_hash(tail2);
    write_u32_at(data, CHECKSUM_OFFSET, ck);
    proof {
        let out = data@;
        lemma_splice_facts(signed, 8, le_bytes_of_u32(ck));
        assert(le_bytes_of_u32(ck).len() == 4);
        // the checksum write leaves [12, end) as it was
        assert(out.subrange(12, out.len() as int) =~= signed.subrange(
            12,
            signed.len() as int,
        ));
        // the signature bytes sit at [12, 32) and cover [32, end) of `signed`,
        // which the checksum write does not touch
        assert(out.subrange(12, 32) =~= sig@);
        assert(out.subrange(32, out.len() as int) =~= s0.subrange(32, s0.len() as int));
    }
}

} // verus!
