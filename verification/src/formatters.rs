//! Field value formatters for pretty-printed structures.

use vstd::prelude::*;
use crate::http::dec_val;
use crate::http::is_digits;
use crate::http::parse_u64;
use crate::strings::str_eq;

verus! {

/// The formatter that leaves a value as it is, uncolored.
pub fn identity_formatter(x: &str) -> (r: (String, bool))
    ensures
        r.0@ == x@,
        !r.1,
{
    (String::from_str(x), false)
}

/// Display a boolean as a green check mark or a red cross.
pub fn bool_check_formatter(b: &str, colored: bool) -> (r: (String, bool))
    ensures
        b@ == "true"@ && colored ==> r.0@ == "\u{1b}[32m"@ + "\u{2714}"@ + "\u{1b}[39m"@,
        b@ == "true"@ && !colored ==> r.0@ == "\u{2714}"@,
        b@ != "true"@ && colored ==> r.0@ == "\u{1b}[31m"@ + "\u{2718}"@ + "\u{1b}[39m"@,
        b@ != "true"@ && !colored ==> r.0@ == "\u{2718}"@,
        r.1 == colored,
{
    let is_true = str_eq(b, "true");
    let text = if is_true && colored {
        String::from_str("\u{1b}[32m").concat("\u{2714}").concat("\u{1b}[39m")
    } else if is_true {
        String::from_str("\u{2714}")
    } else if colored {
        String::from_str("\u{1b}[31m").concat("\u{2718}").concat("\u{1b}[39m")
    } else {
        String::from_str("\u{2718}")
    };
    (text, colored)
}

/// What bytesize's display yields for a byte count.
pub uninterp spec fn byte_size_display_of(n: u64) -> Seq<char>;

/// Relies on bytesize::ByteSize's Display implementation: the text
/// depends on the byte count alone.
#[verifier::external_body]
fn format_byte_size(n: u64) -> (r: String)
    ensures
        r@ == byte_size_display_of(n),
{
    bytesize::ByteSize(n).to_string()
}

/// Display a byte count in human units; a value that is not an unsigned
/// decimal number is refused with a message naming it.
pub fn byte_formatter(value: &str) -> (r: Result<(String, bool), String>)
    ensures
        match r {
            Ok(f) => value@.len() >= 1 && is_digits(value@) && dec_val(value@) <= u64::MAX && f.0@
                == byte_size_display_of((dec_val(value@)) as u64) && !f.1,
            Err(e) => !(value@.len() >= 1 && is_digits(value@) && dec_val(value@) <= u64::MAX)
                && e@ == "Can't parse bytes: "@ + value@,
        },
{
    match parse_u64(value) {
        Some(n) => Ok((format_byte_size(n), false)),
        None => Err(String::from_str("Can't parse bytes: ").concat(value)),
    }
}

} // verus!
