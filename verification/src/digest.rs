//! The hashing primitive that turns canonical object bytes into identifiers.
//! The digest function is supplied by an outside crate and only named here.
use vstd::prelude::*;

verus! {

/// The twenty-byte digest of `s`; a function of the bytes alone, identical
/// in every process and on every machine.
pub uninterp spec fn sha1_of(s: Seq<u8>) -> Seq<u8>;

/// Relies on sha1_smol's `Sha1`: the digest depends only on the input bytes
/// and is always twenty bytes long.
#[verifier::external_body]
pub(crate) fn sha1_digest(data: &Vec<u8>) -> (r: Vec<u8>)
    ensures
        r@ == sha1_of(data@),
        r@.len() == 20,
{
    sha1_smol::Sha1::from(&data[..]).digest().bytes().to_vec()
}

} // verus!
