use vstd::prelude::*;

verus! {

/// The digest that the streaming hash of the write pipeline produces for a
/// byte sequence. It depends on the bytes alone.
pub uninterp spec fn sha1_of(data: Seq<u8>) -> Seq<u8>;

/// Relies on git_features::hash::Sha1 (sha1_smol behind the `rustsha1`
/// feature): `update` then `digest` computes the SHA-1 of exactly the bytes
/// fed in, a pure function of the input, 20 bytes wide.
#[verifier::external_body]
pub(crate) fn sha1(data: &[u8]) -> (r: Vec<u8>)
    ensures
        r@ == sha1_of(data@),
        r@.len() == 20,
{
    let mut h = git_features::hash::Sha1::default();
    h.update(data);
    h.digest().to_vec()
}

} // verus!
