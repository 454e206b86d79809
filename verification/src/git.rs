//! What this library takes from `git2`.

use vstd::prelude::*;
use git2::Signature;

verus! {

/// `git2::Oid`, the name of an object in a repository. The library hands it
/// on and never looks inside.
#[verifier::external_type_specification]
#[verifier::external_body]
pub struct ExOid(git2::Oid);

/// `git2::Signature`, the author or committer of a commit. The library asks
/// it for a name and an address and knows nothing else of it.
#[verifier::external_type_specification]
#[verifier::external_body]
pub struct ExSignature<'a>(git2::Signature<'a>);

/// The name that `git2::Signature::name` gives for a signature, `None`
/// where it reports that the name is no UTF-8 text. It depends on the
/// signature alone.
pub uninterp spec fn signed_name(signature: Signature) -> Option<Seq<char>>;

/// The address that `git2::Signature::email` gives for a signature, `None`
/// where it reports that the address is no UTF-8 text. It depends on the
/// signature alone.
pub uninterp spec fn signed_email(signature: Signature) -> Option<Seq<char>>;

/// The address that a signature is looked up under: the one it holds, or
/// the empty address where that is no text.
pub open spec fn address_on(signature: Signature) -> Seq<char> {
    match signed_email(signature) {
        Some(email) => email,
        None => Seq::empty(),
    }
}

/// The name on a signature, by `git2::Signature::name`, with its error
/// turned into `None`. The contract claims only that the text is the one
/// that goes by the name [`signed_name`]; nothing is claimed of what it
/// holds.
#[verifier::external_body]
pub(crate) fn signature_name<'s>(signature: &'s Signature<'_>) -> (name: Option<&'s str>)
    ensures
        name is Some == signed_name(*signature) is Some,
        name is Some ==> name->0@ == signed_name(*signature)->0,
{
    signature.name().ok()
}

/// The address on a signature, by `git2::Signature::email`, with its error
/// turned into `None`. The contract claims only that the text is the one
/// that goes by the name [`signed_email`]; nothing is claimed of what it
/// holds.
#[verifier::external_body]
pub(crate) fn signature_email<'s>(signature: &'s Signature<'_>) -> (email: Option<&'s str>)
    ensures
        email is Some == signed_email(*signature) is Some,
        email is Some ==> email->0@ == signed_email(*signature)->0,
{
    signature.email().ok()
}

} // verus!
