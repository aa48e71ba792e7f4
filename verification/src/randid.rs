use vstd::prelude::*;

verus! {

/// ASCII digits, uppercase letters, lowercase letters.
pub open spec fn is_alnum_byte(b: u8) -> bool {
    (48 <= b <= 57) || (65 <= b <= 90) || (97 <= b <= 122)
}

/// The same alphabet, as characters.
pub open spec fn is_alnum_char(c: char) -> bool {
    (48 <= c as int <= 57) || (65 <= c as int <= 90) || (97 <= c as int <= 122)
}

/// Relies on rand's `thread_rng` sampled through the `Alphanumeric`
/// distribution, which yields only ASCII alphanumeric bytes; `take(n)` bounds
/// the count. The values are random: nothing more is promised.
#[verifier::external_body]
pub(crate) fn random_alphanumeric(n: usize) -> (r: Vec<u8>)
    ensures
        r@.len() == n,
        forall|i: int| 0 <= i < r@.len() ==> is_alnum_byte(#[trigger] r@[i]),
{
    std::iter::Iterator::take(
        rand::Rng::sample_iter(rand::thread_rng(), &rand::distributions::Alphanumeric),
        n,
    ).collect()
}

} // verus!
