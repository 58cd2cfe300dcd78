//! Bearer-token authentication: an `Authorization: Bearer <token>` header.

use vstd::prelude::*;

verus! {

/// Bearer authentication state: the header sent with each request.
pub struct Auth {
    pub header: (String, String),
}

impl Auth {
    /// An authenticator with no token set: no header is attached.
    pub fn new() -> (r: Auth)
        ensures
            r.header.0@ == Seq::<char>::empty(),
            r.header.1@ == Seq::<char>::empty(),
    {
        Auth { header: (String::new(), String::new()) }
    }

    /// Install a token: the header becomes
    /// `Authorization: Bearer <token>`.
    pub fn set_token(&mut self, token: &str)
        ensures
            final(self).header.0@ == "Authorization"@,
            final(self).header.1@ == "Bearer "@ + token@,
    {
        self.header = (
            String::from_str("Authorization"),
            String::from_str("Bearer ").concat(token),
        );
    }

    /// The authentication header as a `(name, value)` pair.
    pub fn auth_header(&self) -> (r: (String, String))
        ensures
            r.0@ == self.header.0@,
            r.1@ == self.header.1@,
    {
        (self.header.0.clone(), self.header.1.clone())
    }

    /// The help message displayed when the user is unauthorized, with the
    /// argument name highlighted.
    pub fn error_help_message(&self) -> (r: String)
        ensures
            r@ == "Use or check the `"@ + "\u{1b}[33m"@ + "--auth-token"@ + "\u{1b}[39m"@
                + "` argument."@,
    {
        String::from_str("Use or check the `").concat("\u{1b}[33m").concat(
            "--auth-token",
        ).concat("\u{1b}[39m").concat("` argument.")
    }
}

} // verus!
