//! Classification of CLI route segments: a segment written `{name}` is a
//! variable capture, anything else is a literal subcommand name.

use vstd::prelude::*;

verus! {

/// A segment is a variable when it is wrapped in curly braces, `{name}`.
pub open spec fn is_var_spec(s: Seq<char>) -> bool {
    s.len() >= 1 && s.first() == '{' && s.last() == '}'
}

/// The name under the braces of a variable segment.
pub open spec fn var_name_spec(s: Seq<char>) -> Seq<char> {
    s.subrange(1, s.len() - 1)
}

/// Whether a CLI route segment denotes a variable capture (`{name}`).
pub fn is_var(segment: &str) -> (r: bool)
    ensures
        r == is_var_spec(segment@),
{
    let n = segment.unicode_len();
    if n == 0 {
        false
    } else {
        segment.get_char(0) == '{' && segment.get_char(n - 1) == '}'
    }
}

/// The variable name of a `{name}` segment, or `None` for a literal segment.
pub fn strip_var(segment: &str) -> (r: Option<&str>)
    ensures
        is_var_spec(segment@) <==> r is Some,
        r is Some ==> r->0@ == var_name_spec(segment@),
{
    if is_var(segment) {
        let n = segment.unicode_len();
        Some(segment.substring_char(1, n - 1))
    } else {
        None
    }
}

} // verus!
