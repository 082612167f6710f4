use vstd::prelude::*;

verus! {

/// The SHA3-256 digest of a byte string, as computed by the `sha3` crate.
pub uninterp spec fn sha3_of(data: Seq<u8>) -> Seq<u8>;

/// Whether a signature verifies a message under a public key, as decided by
/// the Ed25519 primitive of the `ed25519_dalek` crate.
pub uninterp spec fn ed25519_valid(key: Seq<u8>, msg: Seq<u8>, sig: Seq<u8>) -> bool;

/// Relies on `sha3::Sha3_256` through `sha3::Digest::digest`: the digest is
/// 32 bytes long and depends on the input bytes alone.
#[verifier::external_body]
pub(crate) fn sha3_digest(data: &Vec<u8>) -> (r: Vec<u8>)
    ensures
        r@ == sha3_of(data@),
        r@.len() == 32,
{
    <sha3::Sha3_256 as sha3::Digest>::digest(data.as_slice()).to_vec()
}

/// Relies on `ed25519_dalek::VerifyingKey::verify_strict`: whether a
/// signature verifies is a function of the key, message and signature bytes
/// alone, and a byte string that is not a well-formed key or signature
/// verifies nothing.
#[verifier::external_body]
pub(crate) fn ed25519_verify(key: &Vec<u8>, msg: &Vec<u8>, sig: &Vec<u8>) -> (r: bool)
    ensures
        r == ed25519_valid(key@, msg@, sig@),
{
    let key_bytes: [u8; 32] = match key.as_slice().try_into() {
        Ok(b) => b,
        Err(_) => return false,
    };
    let sig_bytes: [u8; 64] = match sig.as_slice().try_into() {
        Ok(b) => b,
        Err(_) => return false,
    };
    let vk = match ed25519_dalek::VerifyingKey::from_bytes(&key_bytes) {
        Ok(v) => v,
        Err(_) => return false,
    };
    let s = ed25519_dalek::Signature::from_bytes(&sig_bytes);
    vk.verify_strict(msg.as_slice(), &s).is_ok()
}

} // verus!
