//! Identifier generation, delegated to the `uuid` crate.

use vstd::prelude::*;

verus! {

/// The hyphenated text form of the version-5 UUID of `name` under the URL
/// namespace. A pure function of `name`: the underlying digest is
/// deterministic across processes and machines.
pub uninterp spec fn uuid5_url_of(name: Seq<char>) -> Seq<char>;

/// Relies on `uuid::Uuid::new_v5` (the SHA-1 name-based UUID of RFC 9562,
/// here under `Uuid::NAMESPACE_URL`), which is a deterministic function of
/// the name, and on `Uuid`'s `Display`, documented to print the 36-character
/// hyphenated form.
#[verifier::external_body]
pub(crate) fn uuid5_url_string(name: &str) -> (r: String)
    ensures
        r@ == uuid5_url_of(name@),
        r@.len() == 36,
{
    uuid::Uuid::new_v5(&uuid::Uuid::NAMESPACE_URL, name.as_bytes()).to_string()
}

/// Relies on `uuid::Uuid::new_v4` (a random UUID) and on `Uuid`'s `Display`,
/// documented to print the 36-character hyphenated form. Nothing is assumed
/// of the value itself.
#[verifier::external_body]
pub(crate) fn random_uuid_string() -> (r: String)
    ensures
        r@.len() == 36,
{
    uuid::Uuid::new_v4().to_string()
}

} // verus!
