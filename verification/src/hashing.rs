use vstd::prelude::*;

verus! {

/// How many leading bytes of a file the cheap fingerprint pass reads.
pub const PREHASH_SIZE: usize = 4096;

/// The digest that BLAKE3 assigns to a byte string. The value is a pure
/// function of the input bytes; nothing further is assumed about it.
pub uninterp spec fn blake3_of(data: Seq<u8>) -> Seq<u8>;

/// The digest that keyed BLAKE3 assigns to a byte string under a 32-byte
/// key. The value is a pure function of the key and the input bytes.
pub uninterp spec fn blake3_keyed_of(key: Seq<u8>, data: Seq<u8>) -> Seq<u8>;

/// Relies on blake3::hash: the digest depends on the input bytes alone and
/// is 32 bytes long.
#[verifier::external_body]
pub(crate) fn blake3_hash(data: &Vec<u8>) -> (r: Vec<u8>)
    ensures
        r@ == blake3_of(data@),
        r@.len() == 32,
{
    blake3::hash(data.as_slice()).as_bytes().to_vec()
}

/// Relies on blake3::keyed_hash: the digest depends on the 32-byte key and
/// the input bytes alone and is 32 bytes long.
#[verifier::external_body]
pub(crate) fn blake3_keyed_hash(key: &Vec<u8>, data: &Vec<u8>) -> (r: Vec<u8>)
    requires
        key@.len() == 32,
    ensures
        r@ == blake3_keyed_of(key@, data@),
        r@.len() == 32,
{
    let key_bytes: &[u8; 32] = key.as_slice().try_into().unwrap();
    blake3::keyed_hash(key_bytes, data.as_slice()).as_bytes().to_vec()
}

} // verus!
