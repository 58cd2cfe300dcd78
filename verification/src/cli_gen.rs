//! The command tree generator.
//!
//! One walk over the route trie produces the declarative CLI surface: a
//! subcommand for every literal segment, a positional capture for every
//! variable segment, the endpoint-declared argument groups, and the shared
//! `--output` flag, placed once per root-to-leaf branch at the first node
//! of the branch that has a streaming endpoint.

use vstd::prelude::*;
use crate::config::cfg_view;
use crate::config::ConfigView;
use crate::endpoint::ApiInputConfig;
use crate::endpoint::Emap;
use crate::endpoint::Endpoint;
use crate::endpoint::NodeModel;
use crate::endpoint::emap_model;
use crate::endpoint::lemma_emap_model_index;
use crate::endpoint::lemma_emap_model_len;
use crate::formats::emits_format;
use crate::formats::format_union;
use crate::formats::output_format_values;
use crate::formats::sorted_strs;
use crate::formats::str_set;
use crate::segment::is_var_spec;
use crate::segment::var_name_spec;

verus! {

/// The value set of one generated `--format` flag; an empty list stands
/// for the globally supported formats.
pub struct FormatDecl {
    pub values: Vec<String>,
}

/// What a variable segment adds to its enclosing command: a positional
/// capture and, possibly, the `--output` and `--format` flags and query
/// argument groups.
pub struct VarDecl {
    pub name: String,
    pub output_file: bool,
    pub format: Option<FormatDecl>,
    pub queries: Vec<String>,
    /// The streaming endpoints' argument overrides, for `output_file`.
    pub output_configs: Vec<ApiInputConfig>,
    /// The non-streaming endpoints' argument overrides, for
    /// `output_format`.
    pub format_configs: Vec<ApiInputConfig>,
    pub items: Vec<CmdItem>,
}

/// The subcommand generated for a literal segment.
pub struct CommandDecl {
    pub name: String,
    pub about: Option<String>,
    pub long_about: Option<String>,
    pub visible_aliases: Vec<String>,
    pub long_flag_aliases: Vec<String>,
    pub aliases: Vec<String>,
    pub short_flag_aliases: Vec<char>,
    pub payloads: Vec<String>,
    pub queries: Vec<String>,
    pub format: Option<FormatDecl>,
    pub output_file: bool,
    /// The streaming endpoints' argument overrides, for `output_file`.
    pub output_configs: Vec<ApiInputConfig>,
    /// The non-streaming endpoints' argument overrides, for
    /// `output_format`.
    pub format_configs: Vec<ApiInputConfig>,
    pub items: Vec<CmdItem>,
}

/// One generated item: a subcommand, or a variable capture spliced into
/// the enclosing command.
pub enum CmdItem {
    Sub(CommandDecl),
    Var(VarDecl),
}

/// Whether any of the endpoints streams its result.
pub open spec fn any_stream(eps: Seq<Endpoint>) -> bool {
    exists|i: int| 0 <= i < eps.len() && eps[i].result_is_stream
}

/// Whether any of the endpoints forces the `--format` flag.
pub open spec fn any_force(eps: Seq<Endpoint>) -> bool {
    exists|i: int| 0 <= i < eps.len() && eps[i].cli_force_output_format
}

/// The last short help string the endpoints declare, if any.
pub open spec fn last_help(eps: Seq<Endpoint>) -> Option<Seq<char>>
    decreases eps.len(),
{
    if eps.len() == 0 {
        None
    } else {
        match eps.last().cli_help {
            Some(h) => Some(h@),
            None => last_help(eps.drop_last()),
        }
    }
}

/// The last long help string the endpoints declare, if any.
pub open spec fn last_long_help(eps: Seq<Endpoint>) -> Option<Seq<char>>
    decreases eps.len(),
{
    if eps.len() == 0 {
        None
    } else {
        match eps.last().cli_long_help {
            Some(h) => Some(h@),
            None => last_long_help(eps.drop_last()),
        }
    }
}

/// The payload type names the endpoints declare, in declaration order.
pub open spec fn payload_names(eps: Seq<Endpoint>) -> Seq<Seq<char>>
    decreases eps.len(),
{
    if eps.len() == 0 {
        Seq::empty()
    } else {
        (match eps.first().payload_struct {
            Some(p) => seq![p@],
            None => Seq::empty(),
        }) + payload_names(eps.drop_first())
    }
}

/// The query type names the endpoints declare, in declaration order.
pub open spec fn query_names(eps: Seq<Endpoint>) -> Seq<Seq<char>>
    decreases eps.len(),
{
    if eps.len() == 0 {
        Seq::empty()
    } else {
        (match eps.first().query_struct {
            Some(q) => seq![q@],
            None => Seq::empty(),
        }) + query_names(eps.drop_first())
    }
}

/// The visible aliases the endpoints declare, concatenated in
/// declaration order.
pub open spec fn visible_aliases_of(eps: Seq<Endpoint>) -> Seq<Seq<char>>
    decreases eps.len(),
{
    if eps.len() == 0 {
        Seq::empty()
    } else {
        (match eps.first().cli_visible_aliases {
            Some(w) => w.v.deep_view(),
            None => Seq::empty(),
        }) + visible_aliases_of(eps.drop_first())
    }
}

/// The long flag aliases the endpoints declare, in declaration order.
pub open spec fn long_flag_aliases_of(eps: Seq<Endpoint>) -> Seq<Seq<char>>
    decreases eps.len(),
{
    if eps.len() == 0 {
        Seq::empty()
    } else {
        (match eps.first().cli_long_flag_aliases {
            Some(w) => w.v.deep_view(),
            None => Seq::empty(),
        }) + long_flag_aliases_of(eps.drop_first())
    }
}

/// The hidden aliases the endpoints declare, in declaration order.
pub open spec fn plain_aliases_of(eps: Seq<Endpoint>) -> Seq<Seq<char>>
    decreases eps.len(),
{
    if eps.len() == 0 {
        Seq::empty()
    } else {
        (match eps.first().cli_aliases {
            Some(w) => w.v.deep_view(),
            None => Seq::empty(),
        }) + plain_aliases_of(eps.drop_first())
    }
}

/// The short flag aliases the endpoints declare, in declaration order.
pub open spec fn short_flag_aliases_of(eps: Seq<Endpoint>) -> Seq<char>
    decreases eps.len(),
{
    if eps.len() == 0 {
        Seq::empty()
    } else {
        (match eps.first().cli_short_flag_aliases {
            Some(w) => w.c@,
            None => Seq::empty(),
        }) + short_flag_aliases_of(eps.drop_first())
    }
}

/// The view of an optional string.
pub open spec fn opt_view(o: Option<String>) -> Option<Seq<char>> {
    match o {
        Some(s) => Some(s@),
        None => None,
    }
}

/// The views of an argument-configuration list.
pub open spec fn configs_view(cs: Seq<ApiInputConfig>) -> Seq<ConfigView> {
    Seq::new(cs.len(), |i: int| cfg_view(cs[i]))
}

/// The argument overrides of the streaming endpoints, in declaration
/// order.
pub open spec fn stream_config_views(eps: Seq<Endpoint>) -> Seq<ConfigView>
    decreases eps.len(),
{
    if eps.len() == 0 {
        Seq::empty()
    } else {
        (if eps.first().result_is_stream {
            configs_view(eps.first().config@)
        } else {
            Seq::empty()
        }) + stream_config_views(eps.drop_first())
    }
}

/// The argument overrides of the non-streaming endpoints, in declaration
/// order.
pub open spec fn nonstream_config_views(eps: Seq<Endpoint>) -> Seq<ConfigView>
    decreases eps.len(),
{
    if eps.len() == 0 {
        Seq::empty()
    } else {
        (if !eps.first().result_is_stream {
            configs_view(eps.first().config@)
        } else {
            Seq::empty()
        }) + nonstream_config_views(eps.drop_first())
    }
}

/// The `--format` flag required for endpoints `eps`: present exactly when
/// one of them prints a document, holding the sorted union of their
/// declared formats.
pub open spec fn format_matches(eps: Seq<Endpoint>, f: Option<FormatDecl>) -> bool {
    match f {
        Some(fd) => emits_format(eps) && sorted_strs(fd.values@) && str_set(fd.values@)
            == format_union(eps),
        None => !emits_format(eps),
    }
}

/// How one trie entry maps to one generated item, with `placed` saying
/// whether the `--output` flag already sits on the branch above.
pub open spec fn item_matches(key: Seq<char>, node: NodeModel, placed: bool, item: CmdItem) -> bool
    decreases node,
{
    let here = !placed && any_stream(node.eps);
    if is_var_spec(key) {
        &&& item matches CmdItem::Var(v) && {
            &&& v.name@ == var_name_spec(key)
            &&& v.output_file == here
            &&& if any_force(node.eps) {
                format_matches(node.eps, v.format)
            } else {
                v.format is None
            }
            &&& v.queries.deep_view() == query_names(node.eps)
            &&& configs_view(v.output_configs@) == stream_config_views(node.eps)
            &&& configs_view(v.format_configs@) == nonstream_config_views(node.eps)
            &&& items_match(node.children, placed || here, v.items@)
        }
    } else {
        &&& item matches CmdItem::Sub(c) && {
            &&& c.name@ == key
            &&& opt_view(c.about) == last_help(node.eps)
            &&& opt_view(c.long_about) == last_long_help(node.eps)
            &&& c.visible_aliases.deep_view() == visible_aliases_of(node.eps)
            &&& c.long_flag_aliases.deep_view() == long_flag_aliases_of(node.eps)
            &&& c.aliases.deep_view() == plain_aliases_of(node.eps)
            &&& c.short_flag_aliases@ == short_flag_aliases_of(node.eps)
            &&& c.payloads.deep_view() == payload_names(node.eps)
            &&& c.queries.deep_view() == query_names(node.eps)
            &&& format_matches(node.eps, c.format)
            &&& c.output_file == here
            &&& configs_view(c.output_configs@) == stream_config_views(node.eps)
            &&& configs_view(c.format_configs@) == nonstream_config_views(node.eps)
            &&& items_match(node.children, placed || here, c.items@)
        }
    }
}

/// How one trie level maps to a generated item list, entry by entry.
pub open spec fn items_match(
    m: Seq<(Seq<char>, NodeModel)>,
    placed: bool,
    items: Seq<CmdItem>,
) -> bool
    decreases m,
{
    &&& items.len() == m.len()
    &&& forall|i: int|
        0 <= i < m.len() ==> item_matches(m[i].0, #[trigger] m[i].1, placed, items[i])
}

/// Whether the index path descends through existing trie entries.
pub open spec fn valid_path(m: Seq<(Seq<char>, NodeModel)>, path: Seq<int>) -> bool
    decreases path.len(),
{
    path.len() == 0 || (0 <= path.first() < m.len() && valid_path(
        m[path.first()].1.children,
        path.drop_first(),
    ))
}

/// Whether some node along the index path has a streaming endpoint.
pub open spec fn path_has_stream(m: Seq<(Seq<char>, NodeModel)>, path: Seq<int>) -> bool
    decreases path.len(),
{
    path.len() != 0 && (any_stream(m[path.first()].1.eps) || path_has_stream(
        m[path.first()].1.children,
        path.drop_first(),
    ))
}

/// The generated items nested under one item.
pub open spec fn item_items(item: CmdItem) -> Seq<CmdItem> {
    match item {
        CmdItem::Sub(c) => c.items@,
        CmdItem::Var(v) => v.items@,
    }
}

/// Whether one generated item carries the `--output` flag.
pub open spec fn item_output(item: CmdItem) -> int {
    match item {
        CmdItem::Sub(c) => if c.output_file { 1int } else { 0int },
        CmdItem::Var(v) => if v.output_file { 1int } else { 0int },
    }
}

/// How many `--output` flags sit on the index path through the generated
/// items.
pub open spec fn flags_on_path(items: Seq<CmdItem>, path: Seq<int>) -> int
    decreases path.len(),
{
    if path.len() == 0 || !(0 <= path.first() < items.len()) {
        0
    } else {
        item_output(items[path.first()]) + flags_on_path(
            item_items(items[path.first()]),
            path.drop_first(),
        )
    }
}

/// Single output flag per branch: along any branch of the generated
/// command tree, exactly one `--output` flag is emitted when the branch
/// holds a streaming endpoint — at the first node that has one — and none
/// otherwise.  With `placed` already true above, none is emitted at all.
pub proof fn lemma_single_output_flag(
    m: Seq<(Seq<char>, NodeModel)>,
    placed: bool,
    items: Seq<CmdItem>,
    path: Seq<int>,
)
    requires
        items_match(m, placed, items),
        valid_path(m, path),
    ensures
        flags_on_path(items, path) == if !placed && path_has_stream(m, path) {
            1int
        } else {
            0int
        },
    decreases path.len(),
{
    if path.len() == 0 {
    } else {
        let k = path.first();
        let node = m[k].1;
        let here = !placed && any_stream(node.eps);
        assert(item_matches(m[k].0, node, placed, items[k]));
        assert(item_output(items[k]) == if here { 1int } else { 0int });
        assert(items_match(node.children, placed || here, item_items(items[k])));
        lemma_single_output_flag(
            node.children,
            placed || here,
            item_items(items[k]),
            path.drop_first(),
        );
    }
}

/// Whether any endpoint of `eps` streams.
fn any_stream_exec(eps: &Vec<Endpoint>) -> (r: bool)
    ensures
        r == any_stream(eps@),
{
    let mut i: usize = 0;
    while i < eps.len()
        invariant
            0 <= i <= eps@.len(),
            forall|k: int| 0 <= k < i ==> !eps@[k].result_is_stream,
        decreases eps@.len() - i,
    {
        if eps[i].result_is_stream {
            return true;
        }
        i = i + 1;
    }
    false
}

/// Whether any endpoint of `eps` forces the `--format` flag.
fn any_force_exec(eps: &Vec<Endpoint>) -> (r: bool)
    ensures
        r == any_force(eps@),
{
    let mut i: usize = 0;
    while i < eps.len()
        invariant
            0 <= i <= eps@.len(),
            forall|k: int| 0 <= k < i ==> !eps@[k].cli_force_output_format,
        decreases eps@.len() - i,
    {
        if eps[i].cli_force_output_format {
            return true;
        }
        i = i + 1;
    }
    false
}

/// The last short help string of `eps`, if any.
fn last_help_exec(eps: &Vec<Endpoint>) -> (r: Option<String>)
    ensures
        opt_view(r) == last_help(eps@),
{
    let mut acc: Option<String> = None;
    let mut i: usize = 0;
    while i < eps.len()
        invariant
            0 <= i <= eps@.len(),
            opt_view(acc) == last_help(eps@.take(i as int)),
        decreases eps@.len() - i,
    {
        if let Some(h) = &eps[i].cli_help {
            acc = Some(h.clone());
        }
        proof {
            assert(eps@.take(i + 1).drop_last() =~= eps@.take(i as int));
            assert(eps@.take(i + 1).last() == eps@[i as int]);
        }
        i = i + 1;
    }
    proof {
        assert(eps@.take(eps@.len() as int) =~= eps@);
    }
    acc
}

/// The last long help string of `eps`, if any.
fn last_long_help_exec(eps: &Vec<Endpoint>) -> (r: Option<String>)
    ensures
        opt_view(r) == last_long_help(eps@),
{
    let mut acc: Option<String> = None;
    let mut i: usize = 0;
    while i < eps.len()
        invariant
            0 <= i <= eps@.len(),
            opt_view(acc) == last_long_help(eps@.take(i as int)),
        decreases eps@.len() - i,
    {
        if let Some(h) = &eps[i].cli_long_help {
            acc = Some(h.clone());
        }
        proof {
            assert(eps@.take(i + 1).drop_last() =~= eps@.take(i as int));
            assert(eps@.take(i + 1).last() == eps@[i as int]);
        }
        i = i + 1;
    }
    proof {
        assert(eps@.take(eps@.len() as int) =~= eps@);
    }
    acc
}

/// The payload type names of `eps`, in declaration order.
fn payload_names_exec(eps: &Vec<Endpoint>) -> (r: Vec<String>)
    ensures
        r.deep_view() == payload_names(eps@),
{
    let mut out: Vec<String> = Vec::new();
    let mut i: usize = 0;
    while i < eps.len()
        invariant
            0 <= i <= eps@.len(),
            out.deep_view() == payload_names(eps@.take(i as int)),
        decreases eps@.len() - i,
    {
        let ghost pre = out.deep_view();
        if let Some(p) = &eps[i].payload_struct {
            out.push(p.clone());
        }
        proof {
            lemma_names_take_step(eps@, i as int);
            assert(out.deep_view() =~= payload_names(eps@.take(i + 1)));
        }
        i = i + 1;
    }
    proof {
        assert(eps@.take(eps@.len() as int) =~= eps@);
    }
    out
}

/// The query type names of `eps`, in declaration order.
fn query_names_exec(eps: &Vec<Endpoint>) -> (r: Vec<String>)
    ensures
        r.deep_view() == query_names(eps@),
{
    let mut out: Vec<String> = Vec::new();
    let mut i: usize = 0;
    while i < eps.len()
        invariant
            0 <= i <= eps@.len(),
            out.deep_view() == query_names(eps@.take(i as int)),
        decreases eps@.len() - i,
    {
        if let Some(q) = &eps[i].query_struct {
            out.push(q.clone());
        }
        proof {
            lemma_names_take_step(eps@, i as int);
            assert(out.deep_view() =~= query_names(eps@.take(i + 1)));
        }
        i = i + 1;
    }
    proof {
        assert(eps@.take(eps@.len() as int) =~= eps@);
    }
    out
}

/// Peeling one endpoint off the front extends the name lists by that
/// endpoint's declarations.
proof fn lemma_names_take_step(eps: Seq<Endpoint>, i: int)
    requires
        0 <= i < eps.len(),
    ensures
        payload_names(eps.take(i + 1)) == payload_names(eps.take(i)) + (
        match eps[i].payload_struct {
            Some(p) => seq![p@],
            None => Seq::<Seq<char>>::empty(),
        }),
        query_names(eps.take(i + 1)) == query_names(eps.take(i)) + (match eps[i].query_struct {
            Some(q) => seq![q@],
            None => Seq::<Seq<char>>::empty(),
        }),
    decreases i,
{
    if i == 0 {
        assert(eps.take(1).drop_first() =~= eps.take(0));
        assert(eps.take(1).first() == eps[0]);
        assert(payload_names(eps.take(0)) =~= Seq::<Seq<char>>::empty());
        assert(query_names(eps.take(0)) =~= Seq::<Seq<char>>::empty());
        assert(payload_names(eps.take(1)) =~= payload_names(eps.take(0)) + (
        match eps[0].payload_struct {
            Some(p) => seq![p@],
            None => Seq::<Seq<char>>::empty(),
        }));
        assert(query_names(eps.take(1)) =~= query_names(eps.take(0)) + (
        match eps[0].query_struct {
            Some(q) => seq![q@],
            None => Seq::<Seq<char>>::empty(),
        }));
    } else {
        lemma_names_take_step(eps.drop_first(), i - 1);
        assert(eps.take(i + 1).drop_first() =~= eps.drop_first().take(i));
        assert(eps.take(i as int).drop_first() =~= eps.drop_first().take(i - 1));
        assert(eps.drop_first()[i - 1] == eps[i]);
        assert(eps.take(i + 1).first() == eps[0]);
        assert(eps.take(i as int).first() == eps[0]);
        assert(payload_names(eps.take(i + 1)) =~= payload_names(eps.take(i as int)) + (
        match eps[i].payload_struct {
            Some(p) => seq![p@],
            None => Seq::<Seq<char>>::empty(),
        }));
        assert(query_names(eps.take(i + 1)) =~= query_names(eps.take(i as int)) + (
        match eps[i].query_struct {
            Some(q) => seq![q@],
            None => Seq::<Seq<char>>::empty(),
        }));
    }
}

/// The `--format` flag for the endpoints `eps`, if one is owed.
fn format_decl_exec(eps: &Vec<Endpoint>) -> (r: Option<FormatDecl>)
    ensures
        format_matches(eps@, r),
{
    match output_format_values(eps) {
        Some(values) => Some(FormatDecl { values }),
        None => None,
    }
}

/// Generate the items of one trie level.
///
/// `output_placed` says whether the `--output` flag already sits on the
/// branch leading here; the first node of each branch with a streaming
/// endpoint receives the flag, and nothing below it does.
pub fn subcommand_rec(map: &Emap, output_placed: bool) -> (r: Vec<CmdItem>)
    ensures
        items_match(emap_model(*map), output_placed, r@),
    decreases *map,
{
    broadcast use lemma_emap_model_len, lemma_emap_model_index;

    let mut out: Vec<CmdItem> = Vec::new();
    let mut i: usize = 0;
    while i < map.len()
        invariant
            0 <= i <= map@.len(),
            out@.len() == i,
            forall|k: int|
                0 <= k < i ==> item_matches(
                    emap_model(*map)[k].0,
                    #[trigger] emap_model(*map)[k].1,
                    output_placed,
                    out@[k],
                ),
        decreases map@.len() - i,
    {
        broadcast use lemma_emap_model_len, lemma_emap_model_index;

        let segment = &map[i].0;
        let node = &map[i].1;
        let here = !output_placed && any_stream_exec(&node.endpoint);
        let sub_items = subcommand_rec(&node.route, output_placed || here);
        let item = match crate::segment::strip_var(segment.as_str()) {
            Some(var) => {
                let format = if any_force_exec(&node.endpoint) {
                    format_decl_exec(&node.endpoint)
                } else {
                    None
                };
                CmdItem::Var(
                    VarDecl {
                        name: String::from_str(var),
                        output_file: here,
                        format,
                        queries: query_names_exec(&node.endpoint),
                        output_configs: collect_arg_configs(&node.endpoint, true),
                        format_configs: collect_arg_configs(&node.endpoint, false),
                        items: sub_items,
                    },
                )
            },
            None => {
                CmdItem::Sub(
                    CommandDecl {
                        name: segment.clone(),
                        about: last_help_exec(&node.endpoint),
                        long_about: last_long_help_exec(&node.endpoint),
                        visible_aliases: collect_aliases(&node.endpoint, AliasKind::Visible),
                        long_flag_aliases: collect_aliases(&node.endpoint, AliasKind::LongFlag),
                        aliases: collect_aliases(&node.endpoint, AliasKind::Plain),
                        short_flag_aliases: collect_short_flag_aliases(&node.endpoint),
                        payloads: payload_names_exec(&node.endpoint),
                        queries: query_names_exec(&node.endpoint),
                        format: format_decl_exec(&node.endpoint),
                        output_file: here,
                        output_configs: collect_arg_configs(&node.endpoint, true),
                        format_configs: collect_arg_configs(&node.endpoint, false),
                        items: sub_items,
                    },
                )
            },
        };
        out.push(item);
        proof {
            assert(emap_model(*map)[i as int].0 == map@[i as int].0@);
        }
        i = i + 1;
    }
    out
}

/// Generate the whole command surface from the route trie.
pub fn subcommands(map: &Emap) -> (r: Vec<CmdItem>)
    ensures
        items_match(emap_model(*map), false, r@),
{
    subcommand_rec(map, false)
}

/// Which alias list of an endpoint to collect.
enum AliasKind {
    Visible,
    LongFlag,
    Plain,
}

/// One endpoint's contribution to each override list.
proof fn lemma_config_views_take_step(eps: Seq<Endpoint>, i: int)
    requires
        0 <= i < eps.len(),
    ensures
        stream_config_views(eps.take(i + 1)) == stream_config_views(eps.take(i)) + (
        if eps[i].result_is_stream {
            configs_view(eps[i].config@)
        } else {
            Seq::<ConfigView>::empty()
        }),
        nonstream_config_views(eps.take(i + 1)) == nonstream_config_views(eps.take(i)) + (
        if !eps[i].result_is_stream {
            configs_view(eps[i].config@)
        } else {
            Seq::<ConfigView>::empty()
        }),
    decreases i,
{
    if i == 0 {
        assert(eps.take(1).drop_first() =~= eps.take(0));
        assert(eps.take(1).first() == eps[0]);
        assert(stream_config_views(eps.take(0)) =~= Seq::<ConfigView>::empty());
        assert(nonstream_config_views(eps.take(0)) =~= Seq::<ConfigView>::empty());
        assert(stream_config_views(eps.take(1)) =~= stream_config_views(eps.take(0)) + (
        if eps[0].result_is_stream {
            configs_view(eps[0].config@)
        } else {
            Seq::<ConfigView>::empty()
        }));
        assert(nonstream_config_views(eps.take(1)) =~= nonstream_config_views(eps.take(0)) + (
        if !eps[0].result_is_stream {
            configs_view(eps[0].config@)
        } else {
            Seq::<ConfigView>::empty()
        }));
    } else {
        lemma_config_views_take_step(eps.drop_first(), i - 1);
        assert(eps.take(i + 1).drop_first() =~= eps.drop_first().take(i));
        assert(eps.take(i as int).drop_first() =~= eps.drop_first().take(i - 1));
        assert(eps.drop_first()[i - 1] == eps[i]);
        assert(eps.take(i + 1).first() == eps[0]);
        assert(eps.take(i as int).first() == eps[0]);
        assert(stream_config_views(eps.take(i + 1)) =~= stream_config_views(eps.take(i as int))
            + (if eps[i].result_is_stream {
            configs_view(eps[i].config@)
        } else {
            Seq::<ConfigView>::empty()
        }));
        assert(nonstream_config_views(eps.take(i + 1)) =~= nonstream_config_views(
            eps.take(i as int),
        ) + (if !eps[i].result_is_stream {
            configs_view(eps[i].config@)
        } else {
            Seq::<ConfigView>::empty()
        }));
    }
}

/// The argument overrides of the streaming (or non-streaming) endpoints,
/// in declaration order.
#[verifier::loop_isolation(false)]
fn collect_arg_configs(eps: &Vec<Endpoint>, streaming: bool) -> (r: Vec<ApiInputConfig>)
    ensures
        configs_view(r@) == if streaming {
            stream_config_views(eps@)
        } else {
            nonstream_config_views(eps@)
        },
{
    let mut out: Vec<ApiInputConfig> = Vec::new();
    proof {
        assert(configs_view(out@) =~= Seq::<ConfigView>::empty());
        assert(stream_config_views(eps@.take(0)) =~= Seq::<ConfigView>::empty());
        assert(nonstream_config_views(eps@.take(0)) =~= Seq::<ConfigView>::empty());
    }
    let mut i: usize = 0;
    while i < eps.len()
        invariant
            0 <= i <= eps@.len(),
            configs_view(out@) == if streaming {
                stream_config_views(eps@.take(i as int))
            } else {
                nonstream_config_views(eps@.take(i as int))
            },
        decreases eps@.len() - i,
    {
        if eps[i].result_is_stream == streaming {
            let ghost pre = configs_view(out@);
            let mut j: usize = 0;
            while j < eps[i].config.len()
                invariant
                    0 <= j <= eps@[i as int].config@.len(),
                    0 <= i < eps@.len(),
                    configs_view(out@) == pre + configs_view(
                        eps@[i as int].config@.take(j as int),
                    ),
                decreases eps@[i as int].config@.len() - j,
            {
                let ghost o0 = out@;
                out.push(crate::config::copy_config(&eps[i].config[j]));
                proof {
                    let cs = eps@[i as int].config@;
                    assert(o0.len() == pre.len() + j);
                    assert forall|k: int|
                        0 <= k < out@.len() implies #[trigger] configs_view(out@)[k] == (pre
                        + configs_view(cs.take(j + 1)))[k] by {
                        if k < o0.len() {
                            assert(out@[k] == o0[k]);
                            assert(configs_view(o0)[k] == (pre + configs_view(
                                cs.take(j as int),
                            ))[k]);
                            if k >= pre.len() {
                                assert(configs_view(cs.take(j as int))[k - pre.len()]
                                    == cfg_view(cs.take(j as int)[k - pre.len()]));
                                assert(cs.take(j as int)[k - pre.len()] == cs[k - pre.len()]);
                                assert(configs_view(cs.take(j + 1))[k - pre.len()] == cfg_view(
                                    cs.take(j + 1)[k - pre.len()],
                                ));
                                assert(cs.take(j + 1)[k - pre.len()] == cs[k - pre.len()]);
                            }
                        } else {
                            assert(cfg_view(out@[k]) == cfg_view(cs[j as int]));
                            assert(configs_view(cs.take(j + 1))[j as int] == cfg_view(
                                cs.take(j + 1)[j as int],
                            ));
                            assert(cs.take(j + 1)[j as int] == cs[j as int]);
                        }
                    }
                    assert(configs_view(out@) =~= pre + configs_view(cs.take(j + 1)));
                }
                j = j + 1;
            }
            proof {
                assert(eps@[i as int].config@.take(eps@[i as int].config@.len() as int)
                    =~= eps@[i as int].config@);
            }
        }
        proof {
            lemma_config_views_take_step(eps@, i as int);
            assert(configs_view(out@) =~= configs_view(out@) + Seq::<ConfigView>::empty());
        }
        i = i + 1;
    }
    proof {
        assert(eps@.take(eps@.len() as int) =~= eps@);
    }
    out
}

/// One endpoint's contribution to each alias list.
proof fn lemma_aliases_take_step(eps: Seq<Endpoint>, i: int)
    requires
        0 <= i < eps.len(),
    ensures
        visible_aliases_of(eps.take(i + 1)) == visible_aliases_of(eps.take(i)) + (
        match eps[i].cli_visible_aliases {
            Some(w) => w.v.deep_view(),
            None => Seq::<Seq<char>>::empty(),
        }),
        long_flag_aliases_of(eps.take(i + 1)) == long_flag_aliases_of(eps.take(i)) + (
        match eps[i].cli_long_flag_aliases {
            Some(w) => w.v.deep_view(),
            None => Seq::<Seq<char>>::empty(),
        }),
        plain_aliases_of(eps.take(i + 1)) == plain_aliases_of(eps.take(i)) + (
        match eps[i].cli_aliases {
            Some(w) => w.v.deep_view(),
            None => Seq::<Seq<char>>::empty(),
        }),
        short_flag_aliases_of(eps.take(i + 1)) == short_flag_aliases_of(eps.take(i)) + (
        match eps[i].cli_short_flag_aliases {
            Some(w) => w.c@,
            None => Seq::<char>::empty(),
        }),
    decreases i,
{
    if i == 0 {
        assert(eps.take(1).drop_first() =~= eps.take(0));
        assert(eps.take(1).first() == eps[0]);
        assert(visible_aliases_of(eps.take(0)) =~= Seq::<Seq<char>>::empty());
        assert(long_flag_aliases_of(eps.take(0)) =~= Seq::<Seq<char>>::empty());
        assert(plain_aliases_of(eps.take(0)) =~= Seq::<Seq<char>>::empty());
        assert(short_flag_aliases_of(eps.take(0)) =~= Seq::<char>::empty());
        assert(visible_aliases_of(eps.take(1)) =~= visible_aliases_of(eps.take(0)) + (
        match eps[0].cli_visible_aliases {
            Some(w) => w.v.deep_view(),
            None => Seq::<Seq<char>>::empty(),
        }));
        assert(long_flag_aliases_of(eps.take(1)) =~= long_flag_aliases_of(eps.take(0)) + (
        match eps[0].cli_long_flag_aliases {
            Some(w) => w.v.deep_view(),
            None => Seq::<Seq<char>>::empty(),
        }));
        assert(plain_aliases_of(eps.take(1)) =~= plain_aliases_of(eps.take(0)) + (
        match eps[0].cli_aliases {
            Some(w) => w.v.deep_view(),
            None => Seq::<Seq<char>>::empty(),
        }));
        assert(short_flag_aliases_of(eps.take(1)) =~= short_flag_aliases_of(eps.take(0)) + (
        match eps[0].cli_short_flag_aliases {
            Some(w) => w.c@,
            None => Seq::<char>::empty(),
        }));
    } else {
        lemma_aliases_take_step(eps.drop_first(), i - 1);
        assert(eps.take(i + 1).drop_first() =~= eps.drop_first().take(i));
        assert(eps.take(i as int).drop_first() =~= eps.drop_first().take(i - 1));
        assert(eps.drop_first()[i - 1] == eps[i]);
        assert(eps.take(i + 1).first() == eps[0]);
        assert(eps.take(i as int).first() == eps[0]);
        assert(visible_aliases_of(eps.take(i + 1)) =~= visible_aliases_of(eps.take(i as int)) + (
        match eps[i].cli_visible_aliases {
            Some(w) => w.v.deep_view(),
            None => Seq::<Seq<char>>::empty(),
        }));
        assert(long_flag_aliases_of(eps.take(i + 1)) =~= long_flag_aliases_of(
            eps.take(i as int),
        ) + (match eps[i].cli_long_flag_aliases {
            Some(w) => w.v.deep_view(),
            None => Seq::<Seq<char>>::empty(),
        }));
        assert(plain_aliases_of(eps.take(i + 1)) =~= plain_aliases_of(eps.take(i as int)) + (
        match eps[i].cli_aliases {
            Some(w) => w.v.deep_view(),
            None => Seq::<Seq<char>>::empty(),
        }));
        assert(short_flag_aliases_of(eps.take(i + 1)) =~= short_flag_aliases_of(
            eps.take(i as int),
        ) + (match eps[i].cli_short_flag_aliases {
            Some(w) => w.c@,
            None => Seq::<char>::empty(),
        }));
    }
}

/// The alias lists of `eps` of one kind, concatenated in declaration
/// order.
#[verifier::loop_isolation(false)]
fn collect_aliases(eps: &Vec<Endpoint>, kind: AliasKind) -> (r: Vec<String>)
    ensures
        match kind {
            AliasKind::Visible => r.deep_view() == visible_aliases_of(eps@),
            AliasKind::LongFlag => r.deep_view() == long_flag_aliases_of(eps@),
            AliasKind::Plain => r.deep_view() == plain_aliases_of(eps@),
        },
{
    broadcast use vstd::std_specs::vec::vec_clone_deep_view_proof;

    let mut out: Vec<String> = Vec::new();
    let mut i: usize = 0;
    while i < eps.len()
        invariant
            0 <= i <= eps@.len(),
            match kind {
                AliasKind::Visible => out.deep_view() == visible_aliases_of(
                    eps@.take(i as int),
                ),
                AliasKind::LongFlag => out.deep_view() == long_flag_aliases_of(
                    eps@.take(i as int),
                ),
                AliasKind::Plain => out.deep_view() == plain_aliases_of(eps@.take(i as int)),
            },
        decreases eps@.len() - i,
    {
        let ghost pre = out.deep_view();
        let w = match kind {
            AliasKind::Visible => &eps[i].cli_visible_aliases,
            AliasKind::LongFlag => &eps[i].cli_long_flag_aliases,
            AliasKind::Plain => &eps[i].cli_aliases,
        };
        if let Some(w) = w {
            let mut part = w.v.clone();
            proof {
                assert(part.deep_view() == w.v.deep_view());
            }
            out.append(&mut part);
            proof {
                assert(out.deep_view() =~= pre + w.v.deep_view());
            }
        }
        proof {
            lemma_aliases_take_step(eps@, i as int);
        }
        i = i + 1;
    }
    proof {
        assert(eps@.take(eps@.len() as int) =~= eps@);
    }
    out
}

/// The short flag aliases of `eps`, concatenated in declaration order.
#[verifier::loop_isolation(false)]
fn collect_short_flag_aliases(eps: &Vec<Endpoint>) -> (r: Vec<char>)
    ensures
        r@ == short_flag_aliases_of(eps@),
{
    let mut out: Vec<char> = Vec::new();
    let mut i: usize = 0;
    while i < eps.len()
        invariant
            0 <= i <= eps@.len(),
            out@ == short_flag_aliases_of(eps@.take(i as int)),
        decreases eps@.len() - i,
    {
        let ghost pre = out@;
        if let Some(w) = &eps[i].cli_short_flag_aliases {
            let mut j: usize = 0;
            while j < w.c.len()
                invariant
                    0 <= j <= w.c@.len(),
                    out@ == pre + w.c@.take(j as int),
                decreases w.c@.len() - j,
            {
                out.push(w.c[j]);
                proof {
                    assert(out@ =~= pre + w.c@.take(j + 1));
                }
                j = j + 1;
            }
            proof {
                assert(w.c@.take(w.c@.len() as int) =~= w.c@);
            }
        }
        proof {
            lemma_aliases_take_step(eps@, i as int);
            assert(pre + Seq::<char>::empty() =~= pre);
        }
        i = i + 1;
    }
    proof {
        assert(eps@.take(eps@.len() as int) =~= eps@);
    }
    out
}

} // verus!
