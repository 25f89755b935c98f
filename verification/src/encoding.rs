//! The two conversions that the line reassembly takes from outside: base64
//! text for a binary payload, and growing a `String` by one character.

use vstd::prelude::*;

verus! {

/// The standard base64 text of `data`: the RFC 4648 alphabet, padded with `=`.
pub uninterp spec fn base64_standard(data: Seq<u8>) -> Seq<char>;

/// Calls `Engine::encode` of the `base64` crate on its `STANDARD` engine.
/// Believed of it: what it returns depends on the bytes alone, and is what
/// `base64_standard` names. The bound keeps the encoded text within the
/// largest size that can be allocated; beyond it the call panics.
#[verifier::external_body]
pub(crate) fn encode_standard(data: &[u8]) -> (text: String)
    requires
        data@.len() / 3 * 4 + 4 <= isize::MAX,
    ensures
        text@ == base64_standard(data@),
{
    base64::Engine::encode(&base64::engine::general_purpose::STANDARD, data)
}

/// Calls `String::push`. Believed of it: the string afterwards is the string
/// before with `c` appended.
#[verifier::external_body]
pub(crate) fn push_char(text: &mut String, c: char)
    ensures
        final(text)@ == old(text)@.push(c),
{
    text.push(c)
}

} // verus!
