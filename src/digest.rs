//! Content fingerprints.
use md5::Digest;
use vstd::prelude::*;

verus! {

/// The lowercase hexadecimal MD5 digest of a byte sequence.
pub uninterp spec fn md5_hex_of(content: Seq<u8>) -> Seq<char>;

/// Relies on md-5's `Md5::digest` and generic-array's `LowerHex`: the digest
/// of the bytes, written as two lowercase hex digits per byte.
#[verifier::external_body]
fn md5_digest_hex(content: &[u8]) -> (r: String)
    ensures
        r@ == md5_hex_of(content@),
{
    format!("{:x}", md5::Md5::digest(content))
}

/// The fingerprint of a file's content.
pub fn md5(content: &[u8]) -> (r: String)
    ensures
        r@ == md5_hex_of(content@),
{
    md5_digest_hex(content)
}

} // verus!
