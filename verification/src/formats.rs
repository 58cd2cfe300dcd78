//! Output formats and the `--format` possible-value set.
//!
//! A node's `--format` argument accepts the sorted, deduplicated union of
//! the output formats declared by the endpoints that may print a document:
//! output-suppressed endpoints never contribute, streaming endpoints only
//! when they force the output format back on.

use vstd::prelude::*;
use crate::endpoint::Endpoint;
use crate::strings::lex_lt;
use crate::strings::str_cmp;

verus! {

broadcast use vstd::string::group_string_axioms;

/// A serialization format for a rendered result.
#[derive(Clone, Copy, PartialEq, Eq, Structural, Debug)]
pub enum OutputFormat {
    Json,
    Toml,
    Yaml,
    Csv,
    Tsv,
}

impl OutputFormat {
    /// Parse a format name; any other name is rejected with a message
    /// `Invalid variant: <name>`.
    pub fn from_str(s: &str) -> (r: Result<OutputFormat, String>)
        ensures
            s@ == "json"@ ==> r == Ok::<OutputFormat, String>(OutputFormat::Json),
            s@ == "toml"@ ==> r == Ok::<OutputFormat, String>(OutputFormat::Toml),
            s@ == "yaml"@ ==> r == Ok::<OutputFormat, String>(OutputFormat::Yaml),
            s@ == "csv"@ ==> r == Ok::<OutputFormat, String>(OutputFormat::Csv),
            s@ == "tsv"@ ==> r == Ok::<OutputFormat, String>(OutputFormat::Tsv),
            (s@ != "json"@ && s@ != "toml"@ && s@ != "yaml"@ && s@ != "csv"@ && s@ != "tsv"@)
                ==> (r is Err && r->Err_0@ == "Invalid variant: "@ + s@),
    {
        proof {
            reveal_strlit("json");
            reveal_strlit("toml");
            reveal_strlit("yaml");
            reveal_strlit("csv");
            reveal_strlit("tsv");
            assert("json"@.len() == 4 && "toml"@.len() == 4 && "yaml"@.len() == 4 && "csv"@.len()
                == 3 && "tsv"@.len() == 3);
            assert("json"@[0] == 'j' && "toml"@[0] == 't' && "yaml"@[0] == 'y' && "csv"@[0] == 'c'
                && "tsv"@[0] == 't');
        }
        if crate::strings::str_eq(s, "json") {
            Ok(OutputFormat::Json)
        } else if crate::strings::str_eq(s, "toml") {
            Ok(OutputFormat::Toml)
        } else if crate::strings::str_eq(s, "yaml") {
            Ok(OutputFormat::Yaml)
        } else if crate::strings::str_eq(s, "csv") {
            Ok(OutputFormat::Csv)
        } else if crate::strings::str_eq(s, "tsv") {
            Ok(OutputFormat::Tsv)
        } else {
            Err(String::from_str("Invalid variant: ").concat(s))
        }
    }
}

/// Whether a node with these endpoints gets a `--format` argument at all:
/// some endpoint must be able to print a formatted document.
pub open spec fn emits_format(eps: Seq<Endpoint>) -> bool {
    exists|i: int| 0 <= i < eps.len() && !eps[i].result_is_stream && !eps[i].cli_no_output
}

/// Whether one endpoint's declared formats count towards the node's
/// `--format` value set.
pub open spec fn contributes_formats(ep: Endpoint) -> bool {
    !ep.cli_no_output && (!ep.result_is_stream || ep.cli_force_output_format)
}

/// The format names one endpoint declares.
pub open spec fn ep_formats(ep: Endpoint) -> Seq<Seq<char>> {
    match ep.cli_output_formats {
        Some(w) => w.v.deep_view(),
        None => Seq::empty(),
    }
}

/// Whether `s` is among the formats declared by a contributing endpoint.
pub open spec fn in_format_union(eps: Seq<Endpoint>, s: Seq<char>) -> bool {
    exists|i: int, j: int|
        0 <= i < eps.len() && contributes_formats(eps[i]) && 0 <= j < ep_formats(eps[i]).len()
            && ep_formats(eps[i])[j] == s
}

/// Whether `s` occurs in the string list `v`.
pub open spec fn has_str(v: Seq<String>, s: Seq<char>) -> bool {
    exists|k: int| 0 <= k < v.len() && v[k]@ == s
}

/// The set of character sequences held by the string list `v`.
pub open spec fn str_set(v: Seq<String>) -> Set<Seq<char>> {
    Set::new(|s: Seq<char>| has_str(v, s))
}

/// The set of format names the contributing endpoints declare.
pub open spec fn format_union(eps: Seq<Endpoint>) -> Set<Seq<char>> {
    Set::new(|s: Seq<char>| in_format_union(eps, s))
}

/// Strictly ascending lexicographic order: sorted with no duplicates.
pub open spec fn sorted_strs(v: Seq<String>) -> bool {
    forall|i: int| 0 <= i < v.len() - 1 ==> #[trigger] lex_lt(v[i]@, v[i + 1]@)
}

/// The `--format` value set of a node holding `eps`: `None` when no
/// endpoint prints a document, otherwise the sorted, deduplicated union
/// of the contributing endpoints' declared formats.  An empty list means
/// the flag falls back to the globally supported formats.
pub fn output_format_values(eps: &Vec<Endpoint>) -> (r: Option<Vec<String>>)
    ensures
        r is Some <==> emits_format(eps@),
        r is Some ==> sorted_strs(r->0@),
        r is Some ==> str_set(r->0@) == format_union(eps@),
{
    let mut any: bool = false;
    let mut e: usize = 0;
    while e < eps.len()
        invariant
            0 <= e <= eps@.len(),
            any <==> exists|i: int|
                0 <= i < e && !eps@[i].result_is_stream && !eps@[i].cli_no_output,
        decreases eps@.len() - e,
    {
        if !eps[e].result_is_stream && !eps[e].cli_no_output {
            any = true;
        }
        e = e + 1;
    }
    if !any {
        return None;
    }
    let mut out: Vec<String> = Vec::new();
    let mut e: usize = 0;
    while e < eps.len()
        invariant
            0 <= e <= eps@.len(),
            sorted_strs(out@),
            forall|s: Seq<char>| has_str(out@, s) <==> in_union_upto(eps@, e as int, s),
        decreases eps@.len() - e,
    {
        let contributing = !eps[e].cli_no_output && (!eps[e].result_is_stream
            || eps[e].cli_force_output_format);
        if contributing {
            if let Some(w) = &eps[e].cli_output_formats {
                let mut f: usize = 0;
                while f < w.v.len()
                    invariant
                        0 <= f <= w.v@.len(),
                        0 <= e < eps@.len(),
                        eps@[e as int].cli_output_formats == Some(*w),
                        contributes_formats(eps@[e as int]),
                        sorted_strs(out@),
                        forall|s: Seq<char>|
                            has_str(out@, s) <==> (in_union_upto(eps@, e as int, s) || (
                            exists|j: int| 0 <= j < f && ep_formats(eps@[e as int])[j] == s)),
                    decreases w.v@.len() - f,
                {
                    let ghost out_pre = out@;
                    out = insert_sorted(out, &w.v[f]);
                    proof {
                        let ep = eps@[e as int];
                        assert(ep_formats(ep)[f as int] == w.v@[f as int]@);
                        assert(forall|s: Seq<char>|
                            has_str(out@, s) == str_set(out@).contains(s));
                        assert forall|s: Seq<char>|
                            has_str(out@, s) <==> (has_str(out_pre, s) || s == w.v@[
                            f as int]@) by {
                            assert(str_set(out@).contains(s) == str_set(out_pre).insert(
                                w.v@[f as int]@).contains(s));
                        }
                        assert forall|s: Seq<char>|
                            has_str(out@, s) <==> (in_union_upto(eps@, e as int, s) || (
                            exists|j: int|
                                0 <= j < f + 1 && ep_formats(ep)[j] == s)) by {
                            if has_str(out@, s) {
                                if !has_str(out_pre, s) {
                                    assert(s == w.v@[f as int]@);
                                    assert(ep_formats(ep)[f as int] == s);
                                }
                            } else {
                            }
                            if in_union_upto(eps@, e as int, s) || (exists|j: int|
                                0 <= j < f + 1 && ep_formats(ep)[j] == s) {
                                if !(in_union_upto(eps@, e as int, s) || (exists|j: int|
                                    0 <= j < f && ep_formats(ep)[j] == s)) {
                                    let j = choose|j: int|
                                        0 <= j < f + 1 && ep_formats(ep)[j] == s;
                                    assert(j == f);
                                    assert(s == w.v@[f as int]@);
                                    assert(has_str(out@, s));
                                }
                            }
                        }
                    }
                    f = f + 1;
                }
            }
        }
        proof {
            let ep = eps@[e as int];
            assert forall|s: Seq<char>|
                has_str(out@, s) <==> in_union_upto(eps@, e + 1, s) by {
                if has_str(out@, s) {
                    if !in_union_upto(eps@, e as int, s) {
                        let j = choose|j: int|
                            0 <= j < ep_formats(ep).len() && ep_formats(ep)[j] == s;
                        assert(contributes_formats(ep));
                        assert(0 <= e < e + 1 && contributes_formats(eps@[e as int])
                            && 0 <= j < ep_formats(eps@[e as int]).len()
                            && ep_formats(eps@[e as int])[j] == s);
                    } else {
                        let (i, j) = choose|i: int, j: int|
                            0 <= i < e && i < eps@.len() && contributes_formats(eps@[i])
                                && 0 <= j < ep_formats(eps@[i]).len()
                                && ep_formats(eps@[i])[j] == s;
                        assert(0 <= i < e + 1 && i < eps@.len()
                            && contributes_formats(eps@[i])
                            && 0 <= j < ep_formats(eps@[i]).len()
                            && ep_formats(eps@[i])[j] == s);
                    }
                }
                if in_union_upto(eps@, e + 1, s) {
                    let (i, j) = choose|i: int, j: int|
                        0 <= i < e + 1 && i < eps@.len() && contributes_formats(eps@[i])
                            && 0 <= j < ep_formats(eps@[i]).len()
                            && ep_formats(eps@[i])[j] == s;
                    if i < e {
                        assert(in_union_upto(eps@, e as int, s));
                    } else {
                        assert(contributes_formats(ep));
                        assert(ep_formats(ep)[j] == s);
                    }
                }
            }
        }
        e = e + 1;
    }
    proof {
        assert forall|s: Seq<char>|
            str_set(out@).contains(s) == format_union(eps@).contains(s) by {
            assert(in_union_upto(eps@, eps@.len() as int, s) == in_format_union(eps@, s));
        }
        assert(str_set(out@) =~= format_union(eps@));
    }
    Some(out)
}

/// `in_format_union` restricted to the first `e` endpoints.
pub open spec fn in_union_upto(eps: Seq<Endpoint>, e: int, s: Seq<char>) -> bool {
    exists|i: int, j: int|
        0 <= i < e && i < eps.len() && contributes_formats(eps[i]) && 0 <= j < ep_formats(
            eps[i],
        ).len() && ep_formats(eps[i])[j] == s
}

/// The number of leading entries of the sorted list `v` that sort
/// strictly before `x`.
fn lower_bound(v: &Vec<String>, x: &String) -> (r: usize)
    requires
        sorted_strs(v@),
    ensures
        r <= v@.len(),
        forall|k: int| 0 <= k < r ==> lex_lt(v@[k]@, x@),
        r < v@.len() ==> !lex_lt(v@[r as int]@, x@),
{
    let n = v.len();
    let mut i: usize = 0;
    while i < n
        invariant
            0 <= i <= n,
            n == v@.len(),
            forall|k: int| 0 <= k < i ==> lex_lt(v@[k]@, x@),
        decreases n - i,
    {
        if str_cmp(x.as_str(), v[i].as_str()) != 1 {
            return i;
        }
        i = i + 1;
    }
    n
}

/// Insert `x` into the strictly sorted list `v`, keeping it strictly
/// sorted; a string already present is not inserted again.
fn insert_sorted(v: Vec<String>, x: &String) -> (r: Vec<String>)
    requires
        sorted_strs(v@),
    ensures
        sorted_strs(r@),
        str_set(r@) == str_set(v@).insert(x@),
{
    let ghost v0 = v@;
    let mut v = v;
    let n = v.len();
    let i = lower_bound(&v, x);
    if i < n && str_cmp(x.as_str(), v[i].as_str()) == 0 {
        proof {
            assert(v@[i as int]@ == x@);
            assert forall|s: Seq<char>|
                str_set(v@).contains(s) == str_set(v0).insert(x@).contains(s) by {
                if s == x@ {
                    assert(v@[i as int]@ == s);
                }
            }
            assert(str_set(v@) =~= str_set(v0).insert(x@));
        }
        return v;
    }
    v.insert(i, x.clone());
    proof {
        assert(v@ =~= v0.insert(i as int, *x));
        assert forall|a: int|
            0 <= a < v@.len() - 1 implies #[trigger] lex_lt(v@[a]@, v@[a + 1]@) by {
            if a + 1 < i {
                assert(lex_lt(v0[a]@, v0[a + 1]@));
            } else if a + 1 == i {
                assert(lex_lt(v0[a]@, x@));
            } else if a == i {
                assert(v@[a]@ == x@);
                assert(v@[a + 1]@ == v0[a]@);
                assert(!lex_lt(v0[a]@, x@) && v0[a]@ != x@);
            } else {
                let b = a - 1;
                assert(lex_lt(v0[b]@, v0[b + 1]@));
                assert(v@[a]@ == v0[b]@);
                assert(v@[a + 1]@ == v0[b + 1]@);
            }
        }
        assert forall|s: Seq<char>|
            str_set(v@).contains(s) == str_set(v0).insert(x@).contains(s) by {
            if has_str(v@, s) {
                let k = choose|k: int| 0 <= k < v@.len() && v@[k]@ == s;
                if k < i {
                    assert(v0[k]@ == s);
                } else if k > i {
                    assert(v0[k - 1]@ == s);
                }
            }
            if has_str(v0, s) || s == x@ {
                if s == x@ {
                    assert(v@[i as int]@ == s);
                } else {
                    let k = choose|k: int| 0 <= k < v0.len() && v0[k]@ == s;
                    if k < i {
                        assert(v@[k]@ == s);
                    } else {
                        assert(v@[k + 1]@ == s);
                    }
                }
            }
        }
        assert(str_set(v@) =~= str_set(v0).insert(x@));
    }
    v
}

} // verus!
