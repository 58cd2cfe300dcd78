//! Uploading a byte stream inside a JSON payload, encoded as Base64.

use vstd::prelude::*;
use base64::Engine;

verus! {

/// What Base64 encoding yields for a byte sequence, with the standard
/// alphabet and padding.
pub uninterp spec fn base64_of(bytes: Seq<u8>) -> Seq<char>;

/// Relies on base64's STANDARD engine: Base64 with the standard alphabet
/// and padding; the text depends on the input bytes alone, and no bytes
/// give no text.
#[verifier::external_body]
fn encode_base64(bytes: &Vec<u8>) -> (r: String)
    ensures
        r@ == base64_of(bytes@),
        bytes@.len() == 0 ==> r@.len() == 0,
{
    base64::engine::general_purpose::STANDARD.encode(bytes)
}

/// A field holding a file name (or `-` for standard input) whose
/// contents travel Base64-encoded in the JSON payload.
pub struct UploadBase64 {
    pub file: String,
}

impl UploadBase64 {
    /// The field value as parsed from the command line: the file name.
    pub fn from_str(s: &str) -> (r: UploadBase64)
        ensures
            r.file@ == s@,
    {
        UploadBase64 { file: String::from_str(s) }
    }

    /// Encode the contents read from the named file for the payload.
    pub fn serialize_contents(&self, contents: &Vec<u8>) -> (r: String)
        ensures
            r@ == base64_of(contents@),
            contents@.len() == 0 ==> r@.len() == 0,
    {
        encode_base64(contents)
    }
}

} // verus!
