//! Transport-side logic: request building and outcome classification.
//!
//! The connection itself is plain I/O and lives outside the library; what
//! stands here is everything the transport decides: how the URL is taken
//! apart, which port a scheme implies, how the request is assembled, how
//! the wire route template is filled from the captured variables, and how
//! a response status is classified against the endpoint's expectations.

use vstd::prelude::*;
use crate::dispatch::vars_lookup;
use crate::strings::find_char_from;
use crate::strings::str_eq;

verus! {

/// One header of an outgoing request.
pub struct Header {
    pub key: String,
    pub value: String,
}

/// An authenticator's contribution: the header pair it supplies and the
/// hint it gives on a 401.
pub struct AuthInfo {
    pub header_key: String,
    pub header_value: String,
    pub help: String,
}

/// One HTTP call about to be made: the target, the expected statuses,
/// the authentication and the extra headers.
pub struct HTTPApi {
    pub uri: String,
    pub method: String,
    pub ok_status: u16,
    pub ko_status: Vec<(u16, String)>,
    pub auth: Option<AuthInfo>,
    pub headers: Vec<Header>,
}

/// A fully assembled request.
pub struct Request {
    pub method: String,
    pub uri: String,
    pub headers: Vec<(String, String)>,
    pub body: String,
}

/// How one call ended: the exact success status with the response body,
/// or a classified failure.
pub enum Outcome {
    Success { body: String },
    Failure { status: u16, message: String, help: Option<String>, body: String },
}

/// The scheme split of a URL: the part before the first `://`, if any,
/// and what follows it.
pub open spec fn scheme_split(s: Seq<char>) -> (Option<Seq<char>>, Seq<char>)
    decreases s.len(),
{
    if s.len() >= 3 && s[0] == ':' && s[1] == '/' && s[2] == '/' {
        (Some(Seq::empty()), s.skip(3))
    } else if s.len() == 0 {
        (None, s)
    } else {
        let (sc, rest) = scheme_split(s.drop_first());
        match sc {
            Some(sc) => (Some(seq![s[0]] + sc), rest),
            None => (None, s),
        }
    }
}

/// The path split of what follows the scheme: the authority up to the
/// first `/`, and the path from there on.
pub open spec fn path_split(s: Seq<char>) -> (Seq<char>, Seq<char>)
    decreases s.len(),
{
    if s.len() == 0 {
        (Seq::empty(), Seq::empty())
    } else if s[0] == '/' {
        (Seq::empty(), s)
    } else {
        let (a, p) = path_split(s.drop_first());
        (seq![s[0]] + a, p)
    }
}

/// The port split of an authority: the host before the first `:`, and
/// the port text after it, if any.
pub open spec fn port_split(s: Seq<char>) -> (Seq<char>, Option<Seq<char>>)
    decreases s.len(),
{
    if s.len() == 0 {
        (Seq::empty(), None)
    } else if s[0] == ':' {
        (Seq::empty(), Some(s.drop_first()))
    } else {
        let (h, p) = port_split(s.drop_first());
        (seq![s[0]] + h, p)
    }
}

/// The pieces of a parsed URL.
pub struct UrlParts {
    pub scheme: Option<String>,
    pub host: String,
    pub port: Option<String>,
    pub path: String,
}

/// Whether `c` is a decimal digit.
pub open spec fn is_digit(c: char) -> bool {
    '0' <= c && c <= '9'
}

/// Whether `s` is all decimal digits.
pub open spec fn is_digits(s: Seq<char>) -> bool {
    forall|i: int| 0 <= i < s.len() ==> is_digit(#[trigger] s[i])
}

/// The decimal value of a digit string.
pub open spec fn dec_val(s: Seq<char>) -> int
    decreases s.len(),
{
    if s.len() == 0 {
        0
    } else {
        dec_val(s.drop_last()) * 10 + (s.last() as u32 - '0' as u32)
    }
}

/// Take a URL apart at its first `://`, first `/` thereafter, and first
/// `:` of the authority.  A URL whose host part is empty is refused.
pub fn parse_url(s: &str) -> (r: Result<UrlParts, String>)
    ensures
        ({
            let (sch, rest) = scheme_split(s@);
            let (authority, path) = path_split(rest);
            let (host, port) = port_split(authority);
            match r {
                Ok(u) => {
                    &&& host.len() > 0
                    &&& match (u.scheme, sch) {
                        (Some(a), Some(b)) => a@ == b,
                        (None, None) => true,
                        _ => false,
                    }
                    &&& u.host@ == host
                    &&& match (u.port, port) {
                        (Some(a), Some(b)) => a@ == b,
                        (None, None) => true,
                        _ => false,
                    }
                    &&& u.path@ == path
                },
                Err(e) => host.len() == 0 && e@ == "uri has no host"@,
            }
        }),
{
    broadcast use vstd::string::group_string_axioms;

    let n = s.unicode_len();
    let sep = find_scheme_sep(s);
    let rest_start: usize = match sep {
        Some(i) => {
            proof {
                lemma_scheme_split_at(s@, i as int);
            }
            i + 3
        },
        None => {
            proof {
                lemma_scheme_split_none(s@);
                assert(s@.skip(0) =~= s@);
            }
            0
        },
    };
    let scheme = match sep {
        Some(i) => Some(String::from_str(s.substring_char(0, i))),
        None => None,
    };
    let ghost rest = s@.skip(rest_start as int);
    let slash = find_char_from(s, rest_start, '/');
    let authority_end: usize = match slash {
        Some(j) => j,
        None => n,
    };
    proof {
        lemma_path_split_at(s@, rest_start as int, authority_end as int);
        assert(path_split(rest).0 =~= s@.subrange(rest_start as int, authority_end as int));
        if authority_end < n {
            assert(path_split(rest).1 =~= s@.skip(authority_end as int));
        } else {
            assert(path_split(rest).1 =~= Seq::<char>::empty());
            assert(s@.skip(authority_end as int) =~= Seq::<char>::empty());
        }
        assert(path_split(rest).1 =~= s@.subrange(authority_end as int, n as int));
    }
    let ghost authority = s@.subrange(rest_start as int, authority_end as int);
    let colon = find_char_between(s, rest_start, authority_end, ':');
    proof {
        match colon {
            Some(c) => {
                let cc = c - rest_start;
                assert(authority[cc as int] == ':');
                assert forall|k: int| 0 <= k < cc implies authority[k] != ':' by {
                    assert(s@[rest_start + k] != ':');
                }
                lemma_port_split_at(authority, cc as int);
                assert(authority.subrange(0, cc as int) =~= s@.subrange(
                    rest_start as int,
                    c as int,
                ));
                assert(authority.skip(cc + 1) =~= s@.subrange(c + 1, authority_end as int));
            },
            None => {
                assert forall|k: int| 0 <= k < authority.len() implies authority[k] != ':' by {
                    assert(s@[rest_start + k] != ':');
                }
                lemma_port_split_none(authority);
            },
        }
    }
    let host_end: usize = match colon {
        Some(c) => c,
        None => authority_end,
    };
    if host_end == rest_start {
        return Err(String::from_str("uri has no host"));
    }
    let host = String::from_str(s.substring_char(rest_start, host_end));
    let port = match colon {
        Some(c) => Some(String::from_str(s.substring_char(c + 1, authority_end))),
        None => None,
    };
    let path = String::from_str(s.substring_char(authority_end, n));
    Ok(UrlParts { scheme, host, port, path })
}

/// The position of the first `://` of `s`, if any.
fn find_scheme_sep(s: &str) -> (r: Option<usize>)
    ensures
        match r {
            Some(i) => i + 3 <= s@.len() && s@[i as int] == ':' && s@[i + 1] == '/' && s@[i + 2]
                == '/' && (forall|k: int|
                0 <= k < i ==> !(#[trigger] s@[k] == ':' && s@[k + 1] == '/' && s@[k + 2] == '/')),
            None => forall|k: int|
                0 <= k && k + 3 <= s@.len() ==> !(#[trigger] s@[k] == ':' && s@[k + 1] == '/' && s@[k + 2]
                    == '/'),
        },
{
    let n = s.unicode_len();
    if n < 3 {
        return None;
    }
    let mut i: usize = 0;
    while i <= n - 3
        invariant
            0 <= i <= n - 2,
            n == s@.len(),
            n >= 3,
            forall|k: int| 0 <= k < i ==> !(#[trigger] s@[k] == ':' && s@[k + 1] == '/' && s@[k + 2] == '/'),
        decreases n - i,
    {
        if s.get_char(i) == ':' && s.get_char(i + 1) == '/' && s.get_char(i + 2) == '/' {
            return Some(i);
        }
        i = i + 1;
    }
    None
}

/// The position of the first `c` in `from..to`, if any.
fn find_char_between(s: &str, from: usize, to: usize, c: char) -> (r: Option<usize>)
    requires
        from <= to <= s@.len(),
    ensures
        match r {
            Some(i) => from <= i < to && s@[i as int] == c && (forall|k: int|
                from <= k < i ==> s@[k] != c),
            None => forall|k: int| from <= k < to ==> s@[k] != c,
        },
{
    let mut i: usize = from;
    while i < to
        invariant
            from <= i <= to,
            to <= s@.len(),
            forall|k: int| from <= k < i ==> s@[k] != c,
        decreases to - i,
    {
        if s.get_char(i) == c {
            return Some(i);
        }
        i = i + 1;
    }
    None
}

/// Splitting at the first `://`.
proof fn lemma_scheme_split_at(s: Seq<char>, i: int)
    requires
        0 <= i,
        i + 3 <= s.len(),
        s[i] == ':' && s[i + 1] == '/' && s[i + 2] == '/',
        forall|k: int| 0 <= k < i ==> !(#[trigger] s[k] == ':' && s[k + 1] == '/' && s[k + 2] == '/'),
    ensures
        scheme_split(s) == (Some(s.subrange(0, i)), s.skip(i + 3)),
    decreases i,
{
    if i == 0 {
        assert(s.subrange(0, 0) =~= Seq::<char>::empty());
        assert(scheme_split(s) =~~= (Some(s.subrange(0, 0)), s.skip(3)));
    } else {
        let d = s.drop_first();
        assert forall|k: int| 0 <= k < i - 1 implies !(#[trigger] d[k] == ':' && d[k + 1] == '/' && d[k + 2]
            == '/') by {
            assert(!(s[k + 1] == ':' && s[k + 2] == '/' && s[k + 3] == '/'));
        }
        lemma_scheme_split_at(d, i - 1);
        assert(d.subrange(0, i - 1) =~= s.subrange(1, i));
        assert(d.skip(i + 2) =~= s.skip(i + 3));
        assert(seq![s[0]] + s.subrange(1, i) =~= s.subrange(0, i));
        assert(!(s.len() >= 3 && s[0] == ':' && s[1] == '/' && s[2] == '/'));
        assert(scheme_split(s) =~~= (Some(s.subrange(0, i)), s.skip(i + 3)));
    }
}

/// A URL without `://` has no scheme.
proof fn lemma_scheme_split_none(s: Seq<char>)
    requires
        forall|k: int|
            0 <= k && k + 3 <= s.len() ==> !(#[trigger] s[k] == ':' && s[k + 1] == '/' && s[k + 2] == '/'),
    ensures
        scheme_split(s) == (None::<Seq<char>>, s),
    decreases s.len(),
{
    if s.len() == 0 {
    } else {
        let d = s.drop_first();
        assert forall|k: int| 0 <= k && k + 3 <= d.len() implies !(#[trigger] d[k] == ':' && d[k + 1] == '/'
            && d[k + 2] == '/') by {
            assert(!(s[k + 1] == ':' && s[k + 2] == '/' && s[k + 3] == '/'));
        }
        lemma_scheme_split_none(d);
    }
}

/// Splitting the post-scheme part at the first `/`.
proof fn lemma_path_split_at(s: Seq<char>, start: int, slash: int)
    requires
        0 <= start <= slash <= s.len(),
        forall|k: int| start <= k < slash ==> s[k] != '/',
        slash < s.len() ==> s[slash] == '/',
    ensures
        path_split(s.skip(start)) == (
            s.subrange(start, slash),
            s.skip(slash),
        ) || (slash == s.len() && path_split(s.skip(start)) == (
            s.subrange(start, slash),
            Seq::<char>::empty(),
        )),
    decreases slash - start,
{
    if start == slash {
        assert(s.subrange(start, slash) =~= Seq::<char>::empty());
        if slash == s.len() {
            assert(s.skip(start) =~= Seq::<char>::empty());
        } else {
            assert(s.skip(start).len() > 0);
            assert(s.skip(start)[0] == s[slash]);
            assert(s.skip(start) =~= s.skip(slash));
        }
    } else {
        lemma_path_split_at(s, start + 1, slash);
        assert(s.skip(start).len() > 0);
        assert(s.skip(start)[0] == s[start]);
        assert(s.skip(start).drop_first() =~= s.skip(start + 1));
        assert(seq![s[start]] + s.subrange(start + 1, slash) =~= s.subrange(start, slash));
    }
}

/// Splitting an authority at the first `:`.
proof fn lemma_port_split_at(a: Seq<char>, c: int)
    requires
        0 <= c < a.len(),
        a[c] == ':',
        forall|k: int| 0 <= k < c ==> a[k] != ':',
    ensures
        port_split(a) == (a.subrange(0, c), Some(a.skip(c + 1))),
    decreases c,
{
    if c == 0 {
        assert(a.subrange(0, 0) =~= Seq::<char>::empty());
        assert(a.drop_first() =~= a.skip(1));
    } else {
        lemma_port_split_at(a.drop_first(), c - 1);
        assert(a.drop_first().subrange(0, c - 1) =~= a.subrange(1, c));
        assert(a.drop_first().skip(c) =~= a.skip(c + 1));
        assert(seq![a[0]] + a.subrange(1, c) =~= a.subrange(0, c));
    }
}

/// An authority without `:` is all host.
proof fn lemma_port_split_none(a: Seq<char>)
    requires
        forall|k: int| 0 <= k < a.len() ==> a[k] != ':',
    ensures
        port_split(a) == (a, None::<Seq<char>>),
    decreases a.len(),
{
    if a.len() == 0 {
        assert(port_split(a) =~~= (a, None::<Seq<char>>));
    } else {
        lemma_port_split_none(a.drop_first());
        assert(seq![a[0]] + a.drop_first() =~= a);
        assert(port_split(a) =~~= (a, None::<Seq<char>>));
    }
}

/// The numeric value of a 16-bit decimal text (a port, a status code):
/// digits only, at most 65535.
#[verifier::loop_isolation(false)]
pub fn port_value(p: &str) -> (r: Option<u16>)
    ensures
        r is Some <==> (p@.len() >= 1 && is_digits(p@) && dec_val(p@) <= 65535),
        r is Some ==> r->0 as int == dec_val(p@),
{
    let n = p.unicode_len();
    if n == 0 {
        return None;
    }
    let mut acc: u32 = 0;
    let mut i: usize = 0;
    while i < n
        invariant
            0 <= i <= n,
            n == p@.len(),
            n >= 1,
            is_digits(p@.take(i as int)),
            acc as int == dec_val(p@.take(i as int)),
            acc <= 65535,
        decreases n - i,
    {
        let c = p.get_char(i);
        if !(c >= '0' && c <= '9') {
            return None;
        }
        let d = (c as u32) - ('0' as u32);
        let next = acc * 10 + d;
        proof {
            assert(p@.take(i + 1).drop_last() =~= p@.take(i as int));
            assert(p@.take(i + 1).last() == p@[i as int]);
        }
        if next > 65535 {
            proof {
                lemma_dec_val_mono(p@, i + 1, 65535);
            }
            return None;
        }
        acc = next;
        i = i + 1;
    }
    proof {
        assert(p@.take(n as int) =~= p@);
    }
    Some(acc as u16)
}

/// The status code a configured status stands for: the well-known status
/// names, a literal decimal code, or 200 where neither fits.
pub fn status_code_of(name: &str) -> (r: u16)
    ensures
        name@ == "OK"@ ==> r == 200,
        name@ == "CREATED"@ ==> r == 201,
        name@ == "ACCEPTED"@ ==> r == 202,
        name@ == "NO_CONTENT"@ ==> r == 204,
        name@ == "BAD_REQUEST"@ ==> r == 400,
        name@ == "UNAUTHORIZED"@ ==> r == 401,
        name@ == "FORBIDDEN"@ ==> r == 403,
        name@ == "NOT_FOUND"@ ==> r == 404,
        (name@ != "OK"@ && name@ != "CREATED"@ && name@ != "ACCEPTED"@ && name@ != "NO_CONTENT"@
            && name@ != "BAD_REQUEST"@ && name@ != "UNAUTHORIZED"@ && name@ != "FORBIDDEN"@
            && name@ != "NOT_FOUND"@) ==> r == (if name@.len() >= 1 && is_digits(name@)
            && dec_val(name@) <= 65535 {
            dec_val(name@) as u16
        } else {
            200u16
        }),
{
    proof {
        broadcast use vstd::string::group_string_axioms;

        reveal_strlit("OK");
        reveal_strlit("CREATED");
        reveal_strlit("ACCEPTED");
        reveal_strlit("NO_CONTENT");
        reveal_strlit("BAD_REQUEST");
        reveal_strlit("UNAUTHORIZED");
        reveal_strlit("FORBIDDEN");
        reveal_strlit("NOT_FOUND");
        assert("OK"@.len() == 2 && "CREATED"@.len() == 7 && "ACCEPTED"@.len() == 8
            && "NO_CONTENT"@.len() == 10 && "BAD_REQUEST"@.len() == 11 && "UNAUTHORIZED"@.len()
            == 12 && "FORBIDDEN"@.len() == 9 && "NOT_FOUND"@.len() == 9);
        assert("FORBIDDEN"@[0] == 'F' && "NOT_FOUND"@[0] == 'N');
    }
    if str_eq(name, "OK") {
        200
    } else if str_eq(name, "CREATED") {
        201
    } else if str_eq(name, "ACCEPTED") {
        202
    } else if str_eq(name, "NO_CONTENT") {
        204
    } else if str_eq(name, "BAD_REQUEST") {
        400
    } else if str_eq(name, "UNAUTHORIZED") {
        401
    } else if str_eq(name, "FORBIDDEN") {
        403
    } else if str_eq(name, "NOT_FOUND") {
        404
    } else {
        match port_value(name) {
            Some(code) => code,
            None => 200,
        }
    }
}

/// The numeric value of a decimal string, if it is all digits and fits
/// an unsigned 64-bit integer.
#[verifier::loop_isolation(false)]
pub fn parse_u64(p: &str) -> (r: Option<u64>)
    ensures
        r is Some <==> (p@.len() >= 1 && is_digits(p@) && dec_val(p@) <= u64::MAX),
        r is Some ==> r->0 as int == dec_val(p@),
{
    let n = p.unicode_len();
    if n == 0 {
        return None;
    }
    let mut acc: u64 = 0;
    let mut i: usize = 0;
    while i < n
        invariant
            0 <= i <= n,
            n == p@.len(),
            n >= 1,
            is_digits(p@.take(i as int)),
            acc as int == dec_val(p@.take(i as int)),
        decreases n - i,
    {
        let c = p.get_char(i);
        if !(c >= '0' && c <= '9') {
            return None;
        }
        let d = ((c as u32) - ('0' as u32)) as u64;
        proof {
            assert(p@.take(i + 1).drop_last() =~= p@.take(i as int));
            assert(p@.take(i + 1).last() == p@[i as int]);
        }
        if acc > (u64::MAX - d) / 10 {
            proof {
                assert(dec_val(p@.take(i + 1)) == acc as int * 10 + d);
                assert(acc as int * 10 + d > u64::MAX) by (nonlinear_arith)
                    requires
                        acc as int > (u64::MAX as int - d) / 10,
                        0 <= d <= 9,
                        acc as int >= 0;
                lemma_dec_val_mono(p@, i + 1, u64::MAX as int);
            }
            return None;
        }
        acc = acc * 10 + d;
        i = i + 1;
    }
    proof {
        assert(p@.take(n as int) =~= p@);
    }
    Some(acc)
}

/// Once a prefix's value exceeds the port range, the whole value does:
/// each further character multiplies by ten before it subtracts at most
/// the value of `'0'`.
proof fn lemma_dec_val_mono(s: Seq<char>, i: int, t: int)
    requires
        0 <= i <= s.len(),
        t >= 48,
        dec_val(s.take(i)) > t,
    ensures
        dec_val(s) > t,
    decreases s.len() - i,
{
    if i == s.len() {
        assert(s.take(i) =~= s);
    } else {
        assert(s.take(i + 1).drop_last() =~= s.take(i));
        assert(s.take(i + 1).last() == s[i]);
        assert(s[i] as u32 >= 0);
        assert(dec_val(s.take(i + 1)) == dec_val(s.take(i)) * 10 + (s[i] as u32 - '0' as u32));
        assert(dec_val(s.take(i)) * 10 > t * 10) by (nonlinear_arith)
            requires dec_val(s.take(i)) > t, t >= 48;
        lemma_dec_val_mono(s, i + 1, t);
    }
}

/// Whether the scheme names HTTPS.
pub open spec fn is_https(scheme: Option<Seq<char>>) -> bool {
    match scheme {
        Some(s) => s == "https"@,
        None => false,
    }
}

/// The port to connect to: the explicit one, or 443 for HTTPS and 80
/// otherwise.  An explicit port that is not a number is refused.
pub fn resolve_port(scheme: &Option<String>, port: &Option<String>) -> (r: Result<u16, String>)
    ensures
        match port {
            Some(p) => match r {
                Ok(v) => p@.len() >= 1 && is_digits(p@) && dec_val(p@) <= 65535 && v as int
                    == dec_val(p@),
                Err(e) => !(p@.len() >= 1 && is_digits(p@) && dec_val(p@) <= 65535) && e@
                    == "invalid port"@,
            },
            None => r == Ok::<u16, String>(
                if is_https(crate::cli_gen::opt_view(*scheme)) {
                    443u16
                } else {
                    80u16
                },
            ),
        },
{
    match port {
        Some(p) => match port_value(p.as_str()) {
            Some(v) => Ok(v),
            None => Err(String::from_str("invalid port")),
        },
        None => {
            let https = match scheme {
                Some(sc) => str_eq(sc.as_str(), "https"),
                None => false,
            };
            if https {
                Ok(443)
            } else {
                Ok(80)
            }
        },
    }
}

/// The custom message registered for a status, if any.
pub open spec fn ko_lookup(ko: Seq<(u16, String)>, status: u16) -> Option<Seq<char>>
    decreases ko.len(),
{
    if ko.len() == 0 {
        None
    } else if ko.first().0 == status {
        Some(ko.first().1@)
    } else {
        ko_lookup(ko.drop_first(), status)
    }
}

/// The failure message for a status: its registered message, or the
/// generic one when none (or an empty one) is registered.
pub open spec fn failure_message(ko: Seq<(u16, String)>, status: u16) -> Seq<char> {
    match ko_lookup(ko, status) {
        Some(m) => if m.len() > 0 {
            m
        } else {
            "Unexpected HTTP Status Code"@
        },
        None => "Unexpected HTTP Status Code"@,
    }
}

/// The headers an authenticator adds: its pair, unless the key is empty.
pub open spec fn auth_headers(auth: Option<AuthInfo>) -> Seq<(Seq<char>, Seq<char>)> {
    match auth {
        Some(ai) => if ai.header_key@.len() > 0 {
            seq![(ai.header_key@, ai.header_value@)]
        } else {
            Seq::empty()
        },
        None => Seq::empty(),
    }
}

/// The views of the endpoint's extra headers.
pub open spec fn header_views(hs: Seq<Header>) -> Seq<(Seq<char>, Seq<char>)> {
    Seq::new(hs.len(), |i: int| (hs[i].key@, hs[i].value@))
}

/// The views of a built header list.
pub open spec fn pair_views(hs: Seq<(String, String)>) -> Seq<(Seq<char>, Seq<char>)> {
    Seq::new(hs.len(), |i: int| (hs[i].0@, hs[i].1@))
}

impl HTTPApi {
    pub fn new(
        uri: String,
        method: String,
        ok_status: u16,
        ko_status: Vec<(u16, String)>,
        auth: Option<AuthInfo>,
        headers: Vec<Header>,
    ) -> (r: HTTPApi)
        ensures
            r == (HTTPApi { uri, method, ok_status, ko_status, auth, headers }),
    {
        HTTPApi { uri, method, ok_status, ko_status, auth, headers }
    }

    /// Assemble the request: the query string is appended to the URI, the
    /// authenticator's header (if it has one) comes first, then the
    /// endpoint's extra headers, the content type and the host, and the
    /// serialized payload (or nothing) forms the body.
    #[verifier::loop_isolation(false)]
    pub fn build_request(&self, payload_json: Option<String>, query_string: Option<String>, authority: &str) -> (r: Request)
        ensures
            r.method@ == self.method@,
            r.uri@ == self.uri@ + (match query_string {
                Some(q) => "?"@ + q@,
                None => Seq::<char>::empty(),
            }),
            pair_views(r.headers@) == auth_headers(self.auth) + header_views(self.headers@)
                + seq![
                ("content-type"@, "application/json; charset=UTF-8"@),
                ("host"@, authority@),
            ],
            r.body@ == (match payload_json {
                Some(p) => p@,
                None => Seq::<char>::empty(),
            }),
    {
        let uri = match query_string {
            Some(q) => self.uri.clone().concat("?").concat(q.as_str()),
            None => self.uri.clone(),
        };
        let mut headers: Vec<(String, String)> = Vec::new();
        match &self.auth {
            Some(ai) => {
                if ai.header_key.as_str().unicode_len() > 0 {
                    headers.push((ai.header_key.clone(), ai.header_value.clone()));
                }
            },
            None => {},
        }
        proof {
            assert(header_views(self.headers@.take(0)) =~~= Seq::<(Seq<char>, Seq<char>)>::empty());
            assert(pair_views(headers@) =~~= auth_headers(self.auth) + header_views(
                self.headers@.take(0),
            ));
        }
        let mut i: usize = 0;
        while i < self.headers.len()
            invariant
                0 <= i <= self.headers@.len(),
                pair_views(headers@) == auth_headers(self.auth) + header_views(
                    self.headers@.take(i as int),
                ),
            decreases self.headers@.len() - i,
        {
            let ghost hv0 = headers@;
            headers.push((self.headers[i].key.clone(), self.headers[i].value.clone()));
            proof {
                let target = auth_headers(self.auth) + header_views(self.headers@.take(i + 1));
                assert(hv0.len() == auth_headers(self.auth).len() + i);
                assert forall|j: int|
                    0 <= j < headers@.len() implies pair_views(headers@)[j] == target[j] by {
                    if j < hv0.len() {
                        assert(headers@[j] == hv0[j]);
                        assert(pair_views(hv0)[j] == (auth_headers(self.auth) + header_views(
                            self.headers@.take(i as int),
                        ))[j]);
                        if j >= auth_headers(self.auth).len() {
                            assert(header_views(self.headers@.take(i as int))[j - auth_headers(
                                self.auth,
                            ).len()] == header_views(self.headers@.take(i + 1))[j - auth_headers(
                                self.auth,
                            ).len()]);
                        }
                    } else {
                        assert(headers@[j] == (self.headers@[i as int].key, self.headers@[
                            i as int].value));
                        assert(target[j] == (self.headers@[i as int].key@, self.headers@[
                            i as int].value@));
                    }
                }
                assert(pair_views(headers@) =~= target);
            }
            i = i + 1;
        }
        headers.push(
            (
                String::from_str("content-type"),
                String::from_str("application/json; charset=UTF-8"),
            ),
        );
        headers.push((String::from_str("host"), String::from_str(authority)));
        let body = match payload_json {
            Some(p) => p,
            None => String::new(),
        };
        proof {
            assert(self.headers@.take(self.headers@.len() as int) =~= self.headers@);
            assert(pair_views(headers@) =~~= auth_headers(self.auth) + header_views(
                self.headers@,
            ) + seq![
                ("content-type"@, "application/json; charset=UTF-8"@),
                ("host"@, authority@),
            ]);
        }
        Request { method: self.method.clone(), uri, headers, body }
    }

    /// Classify one response: the configured success status yields
    /// `Success` with the body; anything else yields `Failure` carrying
    /// the registered (or generic) message, and for 401 the
    /// authenticator's hint.
    pub fn classify_response(&self, status: u16, body: String) -> (r: Outcome)
        ensures
            status == self.ok_status ==> r == (Outcome::Success { body }),
            status != self.ok_status ==> (r matches Outcome::Failure {
                status: st,
                message,
                help,
                body: b,
            } && st == status && message@ == failure_message(self.ko_status@, status) && b == body
                && (match help {
                Some(h) => status == 401 && h@ == (match self.auth {
                    Some(ai) => ai.help@,
                    None => "Check your authentification"@,
                }),
                None => status != 401,
            })),
    {
        if status == self.ok_status {
            return Outcome::Success { body };
        }
        let message = self.failure_message_exec(status);
        let help = if status == 401 {
            match &self.auth {
                Some(ai) => Some(ai.help.clone()),
                None => Some(String::from_str("Check your authentification")),
            }
        } else {
            None
        };
        Outcome::Failure { status, message, help, body }
    }

    /// The message for an unexpected status.
    #[verifier::loop_isolation(false)]
    fn failure_message_exec(&self, status: u16) -> (r: String)
        ensures
            r@ == failure_message(self.ko_status@, status),
    {
        let ghost ko = self.ko_status@;
        proof {
            assert(ko.skip(0) =~= ko);
        }
        let mut i: usize = 0;
        while i < self.ko_status.len()
            invariant
                0 <= i <= ko.len(),
                ko == self.ko_status@,
                ko_lookup(ko, status) == ko_lookup(ko.skip(i as int), status),
            decreases ko.len() - i,
        {
            proof {
                assert(ko.skip(i as int).first() == ko[i as int]);
                assert(ko.skip(i as int).drop_first() =~= ko.skip(i + 1));
            }
            if self.ko_status[i].0 == status {
                let m = &self.ko_status[i].1;
                if m.as_str().unicode_len() > 0 {
                    return m.clone();
                } else {
                    return String::from_str("Unexpected HTTP Status Code");
                }
            }
            i = i + 1;
        }
        proof {
            assert(ko.skip(ko.len() as int).len() == 0);
        }
        String::from_str("Unexpected HTTP Status Code")
    }
}

/// What substituting `{name}` placeholders in a wire route template
/// yields: literal characters are kept, each `{name}` is replaced by the
/// captured value of `name`; an unbound or unclosed placeholder is an
/// error naming it.
pub open spec fn subst_model(t: Seq<char>, vars: Seq<(String, String)>) -> Result<
    Seq<char>,
    Seq<char>,
>
    decreases t.len(),
{
    if t.len() == 0 {
        Ok(Seq::empty())
    } else if t[0] == '{' {
        let close = find_close(t, 1);
        if close < 1 || close >= t.len() {
            Err(t.skip(1))
        } else {
            let name = t.subrange(1, close);
            match vars_lookup(vars, name) {
                None => Err(name),
                Some(v) => match subst_model(t.skip(close + 1), vars) {
                    Ok(rest) => Ok(v + rest),
                    Err(e) => Err(e),
                },
            }
        }
    } else {
        match subst_model(t.drop_first(), vars) {
            Ok(rest) => Ok(seq![t[0]] + rest),
            Err(e) => Err(e),
        }
    }
}

/// The position of the first `}` at or after `from`, or -1.
pub open spec fn find_close(t: Seq<char>, from: int) -> int
    decreases t.len() - from,
{
    if from < 0 || from >= t.len() {
        -1
    } else if t[from] == '}' {
        from
    } else {
        find_close(t, from + 1)
    }
}

/// Substitute the captured variables into a wire route template.
pub fn format_route(t: &str, vars: &Vec<(String, String)>) -> (r: Result<String, String>)
    ensures
        match r {
            Ok(v) => subst_model(t@, vars@) == Ok::<Seq<char>, Seq<char>>(v@),
            Err(e) => subst_model(t@, vars@) == Err::<Seq<char>, Seq<char>>(e@),
        },
    decreases t@.len(),
{
    let n = t.unicode_len();
    if n == 0 {
        return Ok(String::new());
    }
    let c0 = t.get_char(0);
    if c0 == '{' {
        match find_char_from(t, 1, '}') {
            None => {
                proof {
                    lemma_find_close_none(t@, 1);
                }
                Err(String::from_str(t.substring_char(1, n)))
            },
            Some(close) => {
                proof {
                    lemma_find_close_at(t@, 1, close as int);
                }
                let name = t.substring_char(1, close);
                match crate::dispatch::var_lookup(vars, name) {
                    None => Err(String::from_str(name)),
                    Some(v) => {
                        let rest = format_route(t.substring_char(close + 1, n), vars);
                        match rest {
                            Ok(tail) => Ok(v.concat(tail.as_str())),
                            Err(e) => Err(e),
                        }
                    },
                }
            },
        }
    } else {
        let rest = format_route(t.substring_char(1, n), vars);
        match rest {
            Ok(tail) => {
                let head = String::from_str(t.substring_char(0, 1));
                proof {
                    assert(t@.subrange(0, 1) =~= seq![t@[0]]);
                    assert(t@.subrange(1, n as int) =~= t@.drop_first());
                }
                Ok(head.concat(tail.as_str()))
            },
            Err(e) => {
                proof {
                    assert(t@.subrange(1, n as int) =~= t@.drop_first());
                }
                Err(e)
            },
        }
    }
}

/// `find_close` finds the first closing brace.
proof fn lemma_find_close_at(t: Seq<char>, from: int, i: int)
    requires
        0 <= from <= i < t.len(),
        t[i] == '}',
        forall|k: int| from <= k < i ==> t[k] != '}',
    ensures
        find_close(t, from) == i,
    decreases i - from,
{
    if from < i {
        lemma_find_close_at(t, from + 1, i);
    }
}

/// Without a closing brace there is nothing to find.
proof fn lemma_find_close_none(t: Seq<char>, from: int)
    requires
        0 <= from,
        forall|k: int| from <= k < t.len() ==> t[k] != '}',
    ensures
        find_close(t, from) == -1,
    decreases t.len() - from,
{
    if from < t.len() {
        lemma_find_close_none(t, from + 1);
    }
}

/// The wire URL of a dispatch: the base URL followed by the substituted
/// route template.
pub fn build_url(base_url: &str, route: &str, vars: &Vec<(String, String)>) -> (r: Result<
    String,
    String,
>)
    ensures
        match r {
            Ok(v) => subst_model(route@, vars@) is Ok && v@ == base_url@ + subst_model(
                route@,
                vars@,
            )->Ok_0,
            Err(e) => subst_model(route@, vars@) == Err::<Seq<char>, Seq<char>>(e@),
        },
{
    match format_route(route, vars) {
        Ok(tail) => Ok(String::from_str(base_url).concat(tail.as_str())),
        Err(e) => Err(e),
    }
}

/// The concatenation of a chunk list, in arrival order.
pub open spec fn chunks_concat(chunks: Seq<Seq<u8>>) -> Seq<u8>
    decreases chunks.len(),
{
    if chunks.len() == 0 {
        Seq::empty()
    } else {
        chunks.first() + chunks_concat(chunks.drop_first())
    }
}

/// The total length of a chunk list.
pub open spec fn chunks_len(chunks: Seq<Seq<u8>>) -> int
    decreases chunks.len(),
{
    if chunks.len() == 0 {
        0
    } else {
        chunks.first().len() + chunks_len(chunks.drop_first())
    }
}

/// A streamed body holds exactly the bytes of its chunks, in order: its
/// length is the sum of the chunk lengths.
pub proof fn lemma_chunks_concat_len(chunks: Seq<Seq<u8>>)
    ensures
        chunks_concat(chunks).len() == chunks_len(chunks),
    decreases chunks.len(),
{
    if chunks.len() > 0 {
        lemma_chunks_concat_len(chunks.drop_first());
    }
}

/// Appending one chunk extends the concatenation at the end.
proof fn lemma_chunks_concat_take(chunks: Seq<Seq<u8>>, i: int)
    requires
        0 <= i < chunks.len(),
    ensures
        chunks_concat(chunks.take(i + 1)) == chunks_concat(chunks.take(i)) + chunks[i],
    decreases i,
{
    if i == 0 {
        assert(chunks.take(1).drop_first() =~= chunks.take(0));
        assert(chunks.take(1).first() == chunks[0]);
        assert(chunks_concat(chunks.take(1)) =~= chunks_concat(chunks.take(0)) + chunks[0]);
    } else {
        lemma_chunks_concat_take(chunks.drop_first(), i - 1);
        assert(chunks.take(i + 1).first() == chunks[0]);
        assert(chunks.take(i + 1).drop_first() =~= chunks.drop_first().take(i));
        assert(chunks.take(i as int).first() == chunks[0]);
        assert(chunks.take(i as int).drop_first() =~= chunks.drop_first().take(i - 1));
        assert(chunks.drop_first()[i - 1] == chunks[i]);
        assert(chunks_concat(chunks.take(i + 1)) =~= chunks_concat(chunks.take(i as int))
            + chunks[i]);
    }
}

/// Assemble a streamed body: the chunks in arrival order, nothing else.
#[verifier::loop_isolation(false)]
pub fn collect_chunks(chunks: &Vec<Vec<u8>>) -> (r: Vec<u8>)
    ensures
        r@ == chunks_concat(chunks.deep_view()),
        r@.len() == chunks_len(chunks.deep_view()),
{
    let ghost cs = chunks.deep_view();
    let mut out: Vec<u8> = Vec::new();
    proof {
        assert(out@ =~= chunks_concat(cs.take(0)));
    }
    let mut i: usize = 0;
    while i < chunks.len()
        invariant
            0 <= i <= cs.len(),
            cs == chunks.deep_view(),
            cs.len() == chunks@.len(),
            out@ == chunks_concat(cs.take(i as int)),
        decreases cs.len() - i,
    {
        let chunk = &chunks[i];
        proof {
            assert(chunk@ == cs[i as int]);
            assert(out@ =~= chunks_concat(cs.take(i as int)) + chunk@.take(0));
        }
        let mut j: usize = 0;
        while j < chunk.len()
            invariant
                0 <= j <= chunk@.len(),
                0 <= i < cs.len(),
                cs == chunks.deep_view(),
                chunk@ == cs[i as int],
                out@ == chunks_concat(cs.take(i as int)) + chunk@.take(j as int),
            decreases chunk@.len() - j,
        {
            out.push(chunk[j]);
            proof {
                assert(out@ =~= chunks_concat(cs.take(i as int)) + chunk@.take(j + 1));
            }
            j = j + 1;
        }
        proof {
            assert(chunk@.take(chunk@.len() as int) =~= chunk@);
            lemma_chunks_concat_take(cs, i as int);
        }
        i = i + 1;
    }
    proof {
        assert(cs.take(cs.len() as int) =~= cs);
        lemma_chunks_concat_len(cs);
    }
    out
}

} // verus!
