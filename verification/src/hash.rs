//! SHA1 digests, computed by the `sha1_smol` crate.
use vstd::prelude::*;

verus! {

/// The SHA1 digest of the bytes.
pub uninterp spec fn sha1_digest(data: Seq<u8>) -> Seq<u8>;

/// The longest input whose length in bits fits in a `u64`.
pub const MAX_HASHED_LEN: u64 = 0x1fff_ffff_ffff_ffff;

/// Calls `sha1_smol::Sha1::from(data).digest().bytes()`. The contract claims that the result is
/// the SHA1 digest of `data` (a function of `data` alone) and, as the type `[u8; 20]` of
/// `Digest::bytes` shows, 20 bytes long. The crate multiplies the input's length by 8 in a
/// `u64` when it pads the last block, so the input is at most [`MAX_HASHED_LEN`] bytes.
#[verifier::external_body]
pub(crate) fn sha1(data: &[u8]) -> (res: Vec<u8>)
    requires
        data@.len() <= MAX_HASHED_LEN,
    ensures
        res@ == sha1_digest(data@),
        res@.len() == 20,
{
    sha1_smol::Sha1::from(data).digest().bytes().to_vec()
}

} // verus!
