//! Configuration of the standard generated arguments.
//!
//! The generator's shared arguments (`output_file`, `input_file`,
//! `input_template`, `output_format`) come with global defaults; an
//! endpoint may override any of their fields through its `config` list,
//! field by field.

use vstd::prelude::*;
use crate::cli_gen::opt_view;
use crate::endpoint::ApiInputConfig;
use crate::endpoint::VecStringWrapper;
use crate::strings::str_eq;

verus! {

/// The abstract shape of an argument configuration.
pub struct ConfigView {
    pub arg_name: Option<Seq<char>>,
    pub ty: Option<Seq<char>>,
    pub long: Option<Seq<char>>,
    pub short: Option<char>,
    pub no_short: Option<bool>,
    pub heading: Option<Seq<char>>,
    pub help: Option<Seq<char>>,
    pub long_help: Option<Seq<char>>,
    pub possible_values: Option<(Seq<Seq<char>>, Seq<char>)>,
    pub required: Option<bool>,
    pub num_args: Option<Seq<char>>,
}

/// The view of a wrapped string list: the strings and the first-character
/// list.
pub open spec fn wrapper_view(w: VecStringWrapper) -> (Seq<Seq<char>>, Seq<char>) {
    (w.v.deep_view(), w.c@)
}

/// The view of an optional wrapped string list.
pub open spec fn opt_wrapper_view(w: Option<VecStringWrapper>) -> Option<
    (Seq<Seq<char>>, Seq<char>),
> {
    match w {
        Some(w) => Some(wrapper_view(w)),
        None => None,
    }
}

/// The abstract shape of an [`ApiInputConfig`].
pub open spec fn cfg_view(c: ApiInputConfig) -> ConfigView {
    ConfigView {
        arg_name: opt_view(c.arg_name),
        ty: opt_view(c.ty),
        long: opt_view(c.long),
        short: c.short,
        no_short: c.no_short,
        heading: opt_view(c.heading),
        help: opt_view(c.help),
        long_help: opt_view(c.long_help),
        possible_values: opt_wrapper_view(c.possible_values),
        required: c.required,
        num_args: opt_view(c.num_args),
    }
}

/// Field-by-field override: each field of the local configuration that is
/// set wins over the global one.
pub open spec fn merge_view(l: ConfigView, g: ConfigView) -> ConfigView {
    ConfigView {
        arg_name: if l.arg_name is Some {
            l.arg_name
        } else {
            g.arg_name
        },
        ty: if l.ty is Some {
            l.ty
        } else {
            g.ty
        },
        long: if l.long is Some {
            l.long
        } else {
            g.long
        },
        short: if l.short is Some {
            l.short
        } else {
            g.short
        },
        no_short: if l.no_short is Some {
            l.no_short
        } else {
            g.no_short
        },
        heading: if l.heading is Some {
            l.heading
        } else {
            g.heading
        },
        help: if l.help is Some {
            l.help
        } else {
            g.help
        },
        long_help: if l.long_help is Some {
            l.long_help
        } else {
            g.long_help
        },
        possible_values: if l.possible_values is Some {
            l.possible_values
        } else {
            g.possible_values
        },
        required: if l.required is Some {
            l.required
        } else {
            g.required
        },
        num_args: if l.num_args is Some {
            l.num_args
        } else {
            g.num_args
        },
    }
}

/// A view with every field unset.
pub open spec fn empty_view() -> ConfigView {
    ConfigView {
        arg_name: None,
        ty: None,
        long: None,
        short: None,
        no_short: None,
        heading: None,
        help: None,
        long_help: None,
        possible_values: None,
        required: None,
        num_args: None,
    }
}

/// The global defaults of the standard arguments, by argument name.
pub open spec fn global_view(k: Seq<char>) -> Option<ConfigView> {
    if k == "output_file"@ {
        Some(
            ConfigView {
                arg_name: Some("output_file"@),
                ty: Some("String"@),
                long: Some("output"@),
                short: Some('o'),
                help: Some("Output file. (default: stdout)"@),
                long_help: Some("Output file to save the result in. (default: stdout)"@),
                heading: Some("Options"@),
                required: Some(false),
                ..empty_view()
            },
        )
    } else if k == "input_file"@ {
        Some(
            ConfigView {
                arg_name: Some("input_file"@),
                ty: Some("String"@),
                long: Some("input"@),
                short: Some('i'),
                help: Some("Read the data from file ('-' for stdin)"@),
                long_help: Some("Read the data from a JSON file ('-' for stdin)"@),
                heading: Some("Options"@),
                required: Some(false),
                ..empty_view()
            },
        )
    } else if k == "input_template"@ {
        Some(
            ConfigView {
                arg_name: Some("input_template"@),
                ty: Some("Option<bool>"@),
                long: Some("template"@),
                short: Some('t'),
                help: Some("Generate an input template"@),
                long_help: Some("Generate an input template to use with the --input option"@),
                heading: Some("Options"@),
                required: Some(false),
                ..empty_view()
            },
        )
    } else if k == "output_format"@ {
        Some(
            ConfigView {
                arg_name: Some("output_format"@),
                long: Some("format"@),
                short: Some('f'),
                heading: Some("Formatting"@),
                ..empty_view()
            },
        )
    } else {
        None
    }
}

/// The first local configuration declared for the argument `k`, if any.
pub open spec fn first_local(cs: Seq<ApiInputConfig>, k: Seq<char>) -> Option<ApiInputConfig>
    decreases cs.len(),
{
    if cs.len() == 0 {
        None
    } else if opt_view(cs.first().arg_name) == Some(k) {
        Some(cs.first())
    } else {
        first_local(cs.drop_first(), k)
    }
}

/// What `arg_config` resolves to: the local configuration over the global
/// defaults, either alone where the other is missing.
pub open spec fn arg_config_spec(k: Seq<char>, cs: Seq<ApiInputConfig>) -> ConfigView {
    match (global_view(k), first_local(cs, k)) {
        (Some(g), Some(l)) => merge_view(cfg_view(l), g),
        (Some(g), None) => g,
        (None, Some(l)) => cfg_view(l),
        (None, None) => empty_view(),
    }
}

/// A copy of an optional string.
fn copy_opt_string(o: &Option<String>) -> (r: Option<String>)
    ensures
        opt_view(r) == opt_view(*o),
{
    match o {
        Some(s) => Some(s.clone()),
        None => None,
    }
}

/// A copy of an optional wrapped string list.
fn copy_opt_wrapper(o: &Option<VecStringWrapper>) -> (r: Option<VecStringWrapper>)
    ensures
        opt_wrapper_view(r) == opt_wrapper_view(*o),
{
    match o {
        Some(w) => {
            broadcast use vstd::std_specs::vec::vec_clone_deep_view_proof;

            let v = w.v.clone();
            let c = w.c.clone();
            proof {
                assert(v.deep_view() == w.v.deep_view());
                assert forall|k: int| 0 <= k < c@.len() implies c@[k] == w.c@[k] by {
                }
                assert(c@ =~= w.c@);
            }
            Some(VecStringWrapper { v, c })
        },
        None => None,
    }
}

/// The global default configuration of the argument `k`, if `k` names a
/// standard argument.
fn global_config(k: &str) -> (r: Option<ApiInputConfig>)
    ensures
        match r {
            Some(c) => global_view(k@) == Some(cfg_view(c)),
            None => global_view(k@) is None,
        },
{
    let empty = || -> (e: ApiInputConfig)
        ensures
            cfg_view(e) == empty_view(),
        {
            ApiInputConfig {
                arg_name: None,
                ty: None,
                long: None,
                short: None,
                no_short: None,
                heading: None,
                help: None,
                long_help: None,
                possible_values: None,
                required: None,
                num_args: None,
            }
        };
    if str_eq(k, "output_file") {
        Some(
            ApiInputConfig {
                arg_name: Some(String::from_str("output_file")),
                ty: Some(String::from_str("String")),
                long: Some(String::from_str("output")),
                short: Some('o'),
                help: Some(String::from_str("Output file. (default: stdout)")),
                long_help: Some(
                    String::from_str("Output file to save the result in. (default: stdout)"),
                ),
                heading: Some(String::from_str("Options")),
                required: Some(false),
                ..empty()
            },
        )
    } else if str_eq(k, "input_file") {
        Some(
            ApiInputConfig {
                arg_name: Some(String::from_str("input_file")),
                ty: Some(String::from_str("String")),
                long: Some(String::from_str("input")),
                short: Some('i'),
                help: Some(String::from_str("Read the data from file ('-' for stdin)")),
                long_help: Some(
                    String::from_str("Read the data from a JSON file ('-' for stdin)"),
                ),
                heading: Some(String::from_str("Options")),
                required: Some(false),
                ..empty()
            },
        )
    } else if str_eq(k, "input_template") {
        Some(
            ApiInputConfig {
                arg_name: Some(String::from_str("input_template")),
                ty: Some(String::from_str("Option<bool>")),
                long: Some(String::from_str("template")),
                short: Some('t'),
                help: Some(String::from_str("Generate an input template")),
                long_help: Some(
                    String::from_str("Generate an input template to use with the --input option"),
                ),
                heading: Some(String::from_str("Options")),
                required: Some(false),
                ..empty()
            },
        )
    } else if str_eq(k, "output_format") {
        Some(
            ApiInputConfig {
                arg_name: Some(String::from_str("output_format")),
                long: Some(String::from_str("format")),
                short: Some('f'),
                heading: Some(String::from_str("Formatting")),
                ..empty()
            },
        )
    } else {
        None
    }
}

/// The configuration of the standard argument `k`, the endpoint's local
/// overrides applied over the global defaults.
pub fn arg_config(k: &str, local_config: &Vec<ApiInputConfig>) -> (r: ApiInputConfig)
    requires
        global_view(k@) is Some || first_local(local_config@, k@) is Some,
    ensures
        cfg_view(r) == arg_config_spec(k@, local_config@),
{
    let found = find_local(local_config, k);
    let global = global_config(k);
    match (global, found) {
        (None, Some(li)) => copy_config(&local_config[li]),
        (Some(g), None) => g,
        (Some(g), Some(li)) => merge_config(&local_config[li], &g),
        (None, None) => {
            proof {
                assert(false);
            }
            copy_config(&local_config[0])
        },
    }
}

/// The index of the first local configuration naming `k`, if any.
fn find_local(cs: &Vec<ApiInputConfig>, k: &str) -> (r: Option<usize>)
    ensures
        match r {
            Some(i) => 0 <= i < cs@.len() && first_local(cs@, k@) == Some(cs@[i as int]),
            None => first_local(cs@, k@) is None,
        },
{
    let ghost csv = cs@;
    proof {
        assert(csv.skip(0) =~= csv);
    }
    let n = cs.len();
    let mut i: usize = 0;
    while i < n
        invariant
            0 <= i <= n,
            n == csv.len(),
            csv == cs@,
            first_local(csv, k@) == first_local(csv.skip(i as int), k@),
        decreases n - i,
    {
        proof {
            assert(csv.skip(i as int).first() == csv[i as int]);
            assert(csv.skip(i as int).drop_first() =~= csv.skip(i + 1));
        }
        let has_name = match &cs[i].arg_name {
            Some(name) => str_eq(name.as_str(), k),
            None => false,
        };
        if has_name {
            return Some(i);
        }
        i = i + 1;
    }
    proof {
        assert(csv.skip(csv.len() as int).len() == 0);
    }
    None
}

/// A copy of a configuration.
pub fn copy_config(c: &ApiInputConfig) -> (r: ApiInputConfig)
    ensures
        cfg_view(r) == cfg_view(*c),
{
    ApiInputConfig {
        arg_name: copy_opt_string(&c.arg_name),
        ty: copy_opt_string(&c.ty),
        long: copy_opt_string(&c.long),
        short: c.short,
        no_short: c.no_short,
        heading: copy_opt_string(&c.heading),
        help: copy_opt_string(&c.help),
        long_help: copy_opt_string(&c.long_help),
        possible_values: copy_opt_wrapper(&c.possible_values),
        required: c.required,
        num_args: copy_opt_string(&c.num_args),
    }
}

/// Merge a local configuration over the global defaults, field by field.
fn merge_config(l: &ApiInputConfig, g: &ApiInputConfig) -> (r: ApiInputConfig)
    ensures
        cfg_view(r) == merge_view(cfg_view(*l), cfg_view(*g)),
{
    ApiInputConfig {
        arg_name: pick_string(&l.arg_name, &g.arg_name),
        ty: pick_string(&l.ty, &g.ty),
        long: pick_string(&l.long, &g.long),
        short: if l.short.is_some() {
            l.short
        } else {
            g.short
        },
        no_short: if l.no_short.is_some() {
            l.no_short
        } else {
            g.no_short
        },
        heading: pick_string(&l.heading, &g.heading),
        help: pick_string(&l.help, &g.help),
        long_help: pick_string(&l.long_help, &g.long_help),
        possible_values: if l.possible_values.is_some() {
            copy_opt_wrapper(&l.possible_values)
        } else {
            copy_opt_wrapper(&g.possible_values)
        },
        required: if l.required.is_some() {
            l.required
        } else {
            g.required
        },
        num_args: pick_string(&l.num_args, &g.num_args),
    }
}

/// The first of two optional strings that is set, copied.
fn pick_string(l: &Option<String>, g: &Option<String>) -> (r: Option<String>)
    ensures
        opt_view(r) == if opt_view(*l) is Some {
            opt_view(*l)
        } else {
            opt_view(*g)
        },
{
    match l {
        Some(s) => Some(s.clone()),
        None => copy_opt_string(g),
    }
}

} // verus!
