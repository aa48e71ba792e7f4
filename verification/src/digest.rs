use vstd::prelude::*;

verus! {

/// The lowercase-hex MD5 digest of a byte sequence, as the md-5 crate
/// computes it. Left uninterpreted: it is a function of the bytes alone.
pub uninterp spec fn md5_hex_of(bytes: Seq<u8>) -> Seq<char>;

/// A lowercase hex digit.
pub open spec fn is_hex_lower(c: char) -> bool {
    ('0' as int) <= (c as int) <= ('9' as int) || ('a' as int) <= (c as int) <= ('f' as int)
}

/// Relies on the md-5 crate (Md5 through the Digest trait) and the lower-hex
/// formatting of its 16-byte output: 32 lowercase hex digits, determined by
/// the input bytes alone.
#[verifier::external_body]
pub(crate) fn md5_hex(bytes: &[u8]) -> (r: String)
    ensures
        r@ == md5_hex_of(bytes@),
        r@.len() == 32,
        forall|i: int| 0 <= i < r@.len() ==> is_hex_lower(#[trigger] r@[i]),
{
    let mut hasher = <md5::Md5 as md5::Digest>::new();
    md5::Digest::update(&mut hasher, bytes);
    format!("{:x}", md5::Digest::finalize(hasher))
}

} // verus!
