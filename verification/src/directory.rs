use vstd::prelude::*;
use crate::crypto::{sha3_of, sha3_digest};

verus! {

/// Maps a domain key (an identifier or a witness id) to the key under which
/// it is announced and looked up in the distributed directory: a fixed
/// one-way digest, so that directory keys never carry identifiers in
/// plaintext.
pub fn get_dht_key(value: &Vec<u8>) -> (r: Vec<u8>)
    ensures
        r@ == sha3_of(value@),
        r@.len() == 32,
{
    sha3_digest(value)
}

} // verus!
