//! The digest function: SHA-256 over a record's bytes, rendered as
//! lowercase hexadecimal text.

use vstd::prelude::*;

verus! {

/// The digest of a string: the lowercase-hex SHA-256 of its bytes.
/// The value is a function of the characters alone; it is left
/// uninterpreted, since writing out SHA-256 here would state nothing
/// that could be checked.
pub uninterp spec fn hash_of(s: Seq<char>) -> Seq<char>;

/// Relies on sha2::Sha256 (new, update, finalize): the digest depends on
/// the input bytes alone; and on hex::encode, which renders the fixed-size
/// binary digest as lowercase hexadecimal text.
#[verifier::external_body]
pub(crate) fn hash(data: &str) -> (r: String)
    ensures
        r@ == hash_of(data@),
{
    let mut hasher = <sha2::Sha256 as sha2::Digest>::new();
    sha2::Digest::update(&mut hasher, data);
    let result = sha2::Digest::finalize(hasher);
    hex::encode(result)
}

} // verus!
