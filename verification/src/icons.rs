//! The editor's icons are PNG images kept as base64 text; this reads one
//! back into its bytes.
use vstd::prelude::*;
use base64::Engine;
use crate::text::{to_chars, string_of};

verus! {

/// What the standard base64 alphabet (with padding) makes of `text`: the
/// bytes it encodes, or the text of the error that says why it is not valid
/// base64.
pub uninterp spec fn base64_standard_decode(text: Seq<char>) -> Result<Seq<u8>, Seq<char>>;

/// `base64::engine::general_purpose::STANDARD.decode`, its error written
/// out by its `Display`: the bytes the text encodes, or the error's text.
/// The contract names the result; it does not spell out the base64
/// alphabet or the crate's wording of errors.
#[verifier::external_body]
fn standard_decode(text: &str) -> (r: Result<Vec<u8>, String>)
    ensures
        match r {
            Ok(v) => base64_standard_decode(text@) == Ok::<Seq<u8>, Seq<char>>(v@),
            Err(m) => base64_standard_decode(text@) == Err::<Seq<u8>, Seq<char>>(m@),
        },
{
    match base64::engine::general_purpose::STANDARD.decode(text) {
        Ok(bytes) => Ok(bytes),
        Err(e) => Err(e.to_string()),
    }
}

/// The bytes of an image kept as base64 text, or, when the text is not
/// valid base64, "base64 decode error: " followed by the error's text.
pub fn decode_b64_image(image_str: &str) -> (r: Result<Vec<u8>, String>)
    ensures
        match r {
            Ok(v) => base64_standard_decode(image_str@) == Ok::<Seq<u8>, Seq<char>>(v@),
            Err(m) => base64_standard_decode(image_str@) matches Err(detail)
                && m@ == "base64 decode error: "@ + detail,
        },
{
    match standard_decode(image_str) {
        Ok(bytes) => Ok(bytes),
        Err(text) => {
            let prefix = to_chars("base64 decode error: ");
            let detail = to_chars(text.as_str());
            let mut message = prefix.clone();
            let mut i: usize = 0;
            while i < detail.len()
                invariant
                    0 <= i <= detail@.len(),
                    message@ == prefix@ + detail@.take(i as int),
                decreases detail@.len() - i,
            {
                message.push(detail[i]);
                i = i + 1;
                assert(message@ =~= prefix@ + detail@.take(i as int));
            }
            proof {
                assert(detail@.take(i as int) =~= detail@);
            }
            Err(string_of(message))
        },
    }
}

} // verus!
