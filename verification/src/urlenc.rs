use vstd::prelude::*;

verus! {

/// The percent-encoding of a string as `urlencoding::encode` produces it:
/// every byte other than ASCII alphanumerics and `-`, `_`, `.`, `~` is
/// percent-encoded. Left uninterpreted: a function of the input alone.
pub uninterp spec fn url_encoded_of(s: Seq<char>) -> Seq<char>;

/// Relies on `urlencoding::encode`.
#[verifier::external_body]
pub(crate) fn url_encode(s: &str) -> (r: String)
    ensures
        r@ == url_encoded_of(s@),
{
    urlencoding::encode(s).into_owned()
}

} // verus!
