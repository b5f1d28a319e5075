//! The base64 text of binary payloads, as the `base64` crate computes it.

use vstd::prelude::*;

verus! {

/// The text that the `base64` crate's standard encoding gives for `bytes`.
pub uninterp spec fn base64_text(bytes: Seq<u8>) -> Seq<char>;

/// The bytes that `base64::decode` gives for `text`, `None` where it rejects
/// the text.
pub uninterp spec fn base64_bytes(text: Seq<char>) -> Option<Seq<u8>>;

/// Calls `base64::encode_config_buf` with the standard configuration on an
/// empty string, which writes `bytes` in the standard alphabet with padding.
/// The result is named `base64_text`. The contract also claims that
/// `base64::decode` accepts that text and gives `bytes` back.
#[verifier::external_body]
pub(crate) fn encode(bytes: &Vec<u8>) -> (text: String)
    ensures
        text@ == base64_text(bytes@),
        base64_bytes(text@) == Some(bytes@),
{
    let mut text = String::new();
    base64::encode_config_buf(bytes, base64::STANDARD, &mut text);
    text
}

/// Calls `base64::decode`, which reads `text` in the standard alphabet with
/// padding and fails on anything else; its error is dropped. The result is
/// named `base64_bytes`: `Some` holds those bytes, and `None` comes exactly
/// where `decode` fails. The one panic of `decode` is on a length computation
/// beyond `usize`, which takes an input longer than a string slice can be.
#[verifier::external_body]
pub(crate) fn decode(text: &str) -> (decoded: Option<Vec<u8>>)
    ensures
        match decoded {
            Some(bytes) => base64_bytes(text@) == Some(bytes@),
            None => base64_bytes(text@) is None,
        },
{
    base64::decode(text).ok()
}

} // verus!
