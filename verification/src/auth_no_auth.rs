//! The no-op authenticator: requests carry no authentication header.

use vstd::prelude::*;

verus! {

/// An authenticator that authenticates nothing.
pub struct Auth {
}

impl Auth {
    pub fn new() -> (r: Auth) {
        Auth {  }
    }

    /// No header: both parts empty.
    pub fn auth_header(&self) -> (r: (String, String))
        ensures
            r.0@ == Seq::<char>::empty(),
            r.1@ == Seq::<char>::empty(),
    {
        (String::new(), String::new())
    }

    /// No hint either.
    pub fn error_help_message(&self) -> (r: String)
        ensures
            r@ == Seq::<char>::empty(),
    {
        String::new()
    }
}

} // verus!
