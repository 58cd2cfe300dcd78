//! Endpoint specifications and the route trie.
//!
//! An [`Endpoint`] describes one HTTP endpoint together with the CLI route
//! that reaches it.  Registered endpoints are folded into a prefix tree
//! ([`Emap`] / [`EpNode`]) keyed by the raw CLI path segment; endpoints whose
//! CLI route ends at a node are appended, in registration order, to that
//! node's `endpoint` list.

use vstd::prelude::*;

verus! {

/// A documented non-success HTTP status, with the message to show for it.
pub struct EndpointStatus {
    pub status: String,
    pub message: String,
}

/// An extra header sent with one endpoint's requests.
pub struct Header {
    pub key: String,
    pub value: String,
}

/// Overrides for one of the standard generated arguments (`output_file`,
/// `input_file`, `input_template`, `output_format`).
pub struct ApiInputConfig {
    pub arg_name: Option<String>,
    pub ty: Option<String>,
    pub long: Option<String>,
    pub short: Option<char>,
    pub no_short: Option<bool>,
    pub heading: Option<String>,
    pub help: Option<String>,
    pub long_help: Option<String>,
    pub possible_values: Option<VecStringWrapper>,
    pub required: Option<bool>,
    pub num_args: Option<String>,
}

/// A list of strings paired with the first character of each.
pub struct VecStringWrapper {
    pub v: Vec<String>,
    pub c: Vec<char>,
}

impl VecStringWrapper {
    /// Parse a comma-separated list: the parts in order, each paired with
    /// its first character (the null character for an empty part).
    pub fn from_string(value: &str) -> (r: VecStringWrapper)
        ensures
            r.v.deep_view() == crate::strings::split_sep(value@, ','),
            r.c@.len() == r.v@.len(),
            forall|i: int|
                0 <= i < r.c@.len() ==> r.c@[i] == (if crate::strings::split_sep(
                    value@,
                    ',',
                )[i].len() > 0 {
                    crate::strings::split_sep(value@, ',')[i][0]
                } else {
                    '\u{0}'
                }),
    {
        let v = crate::strings::split_on(value, ',');
        let mut c: Vec<char> = Vec::new();
        let mut i: usize = 0;
        while i < v.len()
            invariant
                0 <= i <= v@.len(),
                v.deep_view() == crate::strings::split_sep(value@, ','),
                c@.len() == i,
                forall|k: int|
                    0 <= k < i ==> c@[k] == (if v.deep_view()[k].len() > 0 {
                        v.deep_view()[k][0]
                    } else {
                        '\u{0}'
                    }),
            decreases v@.len() - i,
        {
            let part = &v[i];
            if part.as_str().unicode_len() > 0 {
                c.push(part.as_str().get_char(0));
            } else {
                c.push('\u{0}');
            }
            proof {
                assert(v.deep_view()[i as int] == v@[i as int]@);
            }
            i = i + 1;
        }
        VecStringWrapper { v, c }
    }
}

/// One declarative HTTP endpoint.
pub struct Endpoint {
    /// Absolute wire route as a template; variables are written `{name}`.
    pub route: String,
    pub method: String,
    pub payload_struct: Option<String>,
    pub query_struct: Option<String>,
    /// Expected status when the query succeeds.
    pub result_ok_status: String,
    pub result_ko_status: Vec<EndpointStatus>,
    pub result_struct: String,
    /// The endpoint returns a list of results.
    pub result_multiple: bool,
    /// The endpoint returns a stream of bytes; this generates the
    /// `--output` argument and suppresses `--format`.
    pub result_is_stream: bool,
    pub extra_header: Vec<Header>,
    pub extra_action: Option<String>,
    /// The endpoint is not authenticated.
    pub no_auth: bool,
    /// Deserialize the response as this type first, then convert.
    pub transform_from: Option<String>,
    /// CLI route separated by slashes; variables match those of `route`.
    pub cli_route: String,
    pub cli_help: Option<String>,
    pub cli_long_help: Option<String>,
    pub cli_visible_aliases: Option<VecStringWrapper>,
    pub cli_long_flag_aliases: Option<VecStringWrapper>,
    pub cli_aliases: Option<VecStringWrapper>,
    pub cli_short_flag_aliases: Option<VecStringWrapper>,
    /// The endpoint has no output to display.
    pub cli_no_output: bool,
    pub cli_output_formats: Option<VecStringWrapper>,
    /// Force the generation of the `--format` argument on variable
    /// subcommands, where it is not generated by default.
    pub cli_force_output_format: bool,
    pub config: Vec<ApiInputConfig>,
}

impl Default for Endpoint {
    /// An endpoint with every field empty except `method` (`GET`) and
    /// `result_ok_status` (`OK`).
    fn default() -> (r: Self)
        ensures
            r.route@ == Seq::<char>::empty(),
            r.method@ == "GET"@,
            r.payload_struct is None,
            r.query_struct is None,
            r.result_ok_status@ == "OK"@,
            r.result_ko_status@ == Seq::<EndpointStatus>::empty(),
            r.result_struct@ == Seq::<char>::empty(),
            !r.result_multiple,
            !r.result_is_stream,
            r.extra_header@ == Seq::<Header>::empty(),
            r.extra_action is None,
            !r.no_auth,
            r.transform_from is None,
            r.cli_route@ == Seq::<char>::empty(),
            r.cli_help is None,
            r.cli_long_help is None,
            r.cli_visible_aliases is None,
            r.cli_long_flag_aliases is None,
            r.cli_aliases is None,
            r.cli_short_flag_aliases is None,
            !r.cli_no_output,
            r.cli_output_formats is None,
            !r.cli_force_output_format,
            r.config@ == Seq::<ApiInputConfig>::empty(),
    {
        Endpoint {
            route: String::new(),
            method: String::from_str("GET"),
            payload_struct: None,
            query_struct: None,
            result_ok_status: String::from_str("OK"),
            result_ko_status: Vec::new(),
            result_struct: String::new(),
            result_multiple: false,
            result_is_stream: false,
            extra_header: Vec::new(),
            extra_action: None,
            no_auth: false,
            transform_from: None,
            cli_route: String::new(),
            cli_help: None,
            cli_long_help: None,
            cli_visible_aliases: None,
            cli_long_flag_aliases: None,
            cli_aliases: None,
            cli_short_flag_aliases: None,
            cli_no_output: false,
            cli_output_formats: None,
            cli_force_output_format: false,
            config: Vec::new(),
        }
    }
}

/// A route trie level: children keyed by the raw CLI path segment.
pub type Emap = Vec<(String, EpNode)>;

/// One node of the route trie.
pub struct EpNode {
    /// The endpoints whose CLI route terminates exactly at this node,
    /// in registration order.
    pub endpoint: Vec<Endpoint>,
    pub route: Emap,
}

/// The abstract shape of a trie node: endpoint values and children keyed
/// by the segment's character sequence.
pub struct NodeModel {
    pub eps: Seq<Endpoint>,
    pub children: Seq<(Seq<char>, NodeModel)>,
}

/// The abstract shape of the entries of `m` from position `k` on.
pub open spec fn level_model(m: Vec<(String, EpNode)>, k: int) -> Seq<(Seq<char>, NodeModel)>
    decreases m, m.len() - k,
{
    if k < 0 || k >= m.len() {
        Seq::empty()
    } else {
        seq![
            (
                m[k].0@,
                NodeModel { eps: m[k].1.endpoint@, children: level_model(m[k].1.route, 0) },
            ),
        ] + level_model(m, k + 1)
    }
}

/// The abstract shape of an [`EpNode`].
pub open spec fn node_model(n: EpNode) -> NodeModel {
    NodeModel { eps: n.endpoint@, children: level_model(n.route, 0) }
}

/// The abstract shape of an [`Emap`].
pub open spec fn emap_model(m: Emap) -> Seq<(Seq<char>, NodeModel)> {
    level_model(m, 0)
}

pub broadcast proof fn lemma_emap_model_len(m: Emap)
    ensures
        (#[trigger] emap_model(m)).len() == m.len(),
{
    lemma_level_model(m, 0);
}

pub broadcast proof fn lemma_emap_model_index(m: Emap, i: int)
    requires
        0 <= i < m.len(),
    ensures
        #[trigger] emap_model(m)[i] == (m[i].0@, node_model(m[i].1)),
{
    lemma_level_model(m, 0);
}

proof fn lemma_level_model(m: Vec<(String, EpNode)>, k: int)
    requires
        0 <= k <= m.len(),
    ensures
        level_model(m, k).len() == m.len() - k,
        forall|i: int|
            k <= i < m.len() ==> level_model(m, k)[i - k] == (m[i].0@, node_model(m[i].1)),
    decreases m.len() - k,
{
    if k < m.len() {
        lemma_level_model(m, k + 1);
    }
}

/// No two entries of one trie level share a key, at any depth.
pub open spec fn model_wf(m: Seq<(Seq<char>, NodeModel)>) -> bool
    decreases m,
{
    &&& forall|i: int, j: int| 0 <= i < j < m.len() ==> m[i].0 != m[j].0
    &&& forall|i: int| 0 <= i < m.len() ==> model_wf(#[trigger] m[i].1.children)
}

/// The index of the entry keyed `k`, if any.
pub open spec fn key_index(m: Seq<(Seq<char>, NodeModel)>, k: Seq<char>) -> int {
    choose|i: int| 0 <= i < m.len() && m[i].0 == k
}

pub open spec fn has_key(m: Seq<(Seq<char>, NodeModel)>, k: Seq<char>) -> bool {
    exists|i: int| 0 <= i < m.len() && m[i].0 == k
}

/// Whether a split route holds any real segment.
pub open spec fn any_segment(segs: Seq<Seq<char>>) -> bool {
    exists|i: int| 0 <= i < segs.len() && segs[i].len() > 0
}

/// What inserting `ep` under the reversed segment list `segs` does to one
/// trie level: the next segment is the last element; empty segments are
/// skipped; the endpoint is appended at the node of the last non-empty
/// segment, so a trailing slash changes nothing.  A new key is appended
/// at the end of the level.
pub open spec fn insert_model(
    m: Seq<(Seq<char>, NodeModel)>,
    ep: Endpoint,
    segs: Seq<Seq<char>>,
) -> Seq<(Seq<char>, NodeModel)>
    decreases segs.len(),
{
    if segs.len() == 0 {
        m
    } else {
        let seg = segs.last();
        let rest = segs.drop_last();
        if seg.len() == 0 {
            insert_model(m, ep, rest)
        } else if has_key(m, seg) {
            let i = key_index(m, seg);
            let node = m[i].1;
            let node2 = if !any_segment(rest) {
                NodeModel { eps: node.eps.push(ep), children: node.children }
            } else {
                NodeModel { eps: node.eps, children: insert_model(node.children, ep, rest) }
            };
            m.update(i, (seg, node2))
        } else {
            let node = if !any_segment(rest) {
                NodeModel { eps: seq![ep], children: Seq::empty() }
            } else {
                NodeModel { eps: Seq::empty(), children: insert_model(Seq::empty(), ep, rest) }
            };
            m.push((seg, node))
        }
    }
}


/// The node path an insertion targets: the reversed segment list with
/// empty segments dropped, read from the first consumed segment down.
pub open spec fn clean_path(segs: Seq<Seq<char>>) -> Seq<Seq<char>>
    decreases segs.len(),
{
    if segs.len() == 0 {
        Seq::empty()
    } else if segs.last().len() == 0 {
        clean_path(segs.drop_last())
    } else {
        seq![segs.last()] + clean_path(segs.drop_last())
    }
}

/// Whether the trie holds a node at the key path `kp`.
pub open spec fn has_node(m: Seq<(Seq<char>, NodeModel)>, kp: Seq<Seq<char>>) -> bool
    decreases kp.len(),
{
    kp.len() == 0 || (has_key(m, kp.first()) && has_node(
        m[key_index(m, kp.first())].1.children,
        kp.drop_first(),
    ))
}

/// The endpoints of the node at the key path `kp`; none when the path
/// does not exist (the root itself holds no endpoints).
pub open spec fn eps_at(m: Seq<(Seq<char>, NodeModel)>, kp: Seq<Seq<char>>) -> Seq<Endpoint>
    decreases kp.len(),
{
    if kp.len() == 0 {
        Seq::empty()
    } else if !has_key(m, kp.first()) {
        Seq::empty()
    } else {
        let node = m[key_index(m, kp.first())].1;
        if kp.len() == 1 {
            node.eps
        } else {
            eps_at(node.children, kp.drop_first())
        }
    }
}

/// A route with a real segment has a non-empty target path.
proof fn lemma_clean_path_nonempty(segs: Seq<Seq<char>>)
    requires
        any_segment(segs),
    ensures
        clean_path(segs).len() >= 1,
    decreases segs.len(),
{
    if segs.len() == 0 {
    } else if segs.last().len() > 0 {
    } else {
        assert(any_segment(segs.drop_last())) by {
            let w = choose|w: int| 0 <= w < segs.len() && segs[w].len() > 0;
            assert(w != segs.len() - 1);
            assert(segs.drop_last()[w].len() > 0);
        }
        lemma_clean_path_nonempty(segs.drop_last());
    }
}

/// A route of empty segments only targets no node at all.
proof fn lemma_clean_path_empty(segs: Seq<Seq<char>>)
    requires
        !any_segment(segs),
    ensures
        clean_path(segs) == Seq::<Seq<char>>::empty(),
    decreases segs.len(),
{
    if segs.len() == 0 {
    } else {
        assert(segs.last().len() == 0) by {
            if segs.last().len() > 0 {
                assert(segs[segs.len() - 1].len() > 0);
            }
        }
        assert(!any_segment(segs.drop_last())) by {
            if any_segment(segs.drop_last()) {
                let w = choose|w: int|
                    0 <= w < segs.drop_last().len() && segs.drop_last()[w].len() > 0;
                assert(segs[w].len() > 0);
            }
        }
        lemma_clean_path_empty(segs.drop_last());
    }
}

/// What one insertion does, node by node: the endpoints of the targeted
/// node gain `ep` at the end, every other node keeps its endpoints, and
/// the nodes that exist afterwards are those that existed before plus the
/// prefixes of the targeted path.
pub proof fn lemma_insert_at(
    m: Seq<(Seq<char>, NodeModel)>,
    ep: Endpoint,
    segs: Seq<Seq<char>>,
    kp: Seq<Seq<char>>,
)
    requires
        model_wf(m),
    ensures
        eps_at(insert_model(m, ep, segs), kp) == if any_segment(segs) && kp == clean_path(segs) {
            eps_at(m, kp).push(ep)
        } else {
            eps_at(m, kp)
        },
        has_node(insert_model(m, ep, segs), kp) == (has_node(m, kp) || (1 <= kp.len()
            <= clean_path(segs).len() && kp =~= clean_path(segs).take(kp.len() as int))),
    decreases segs.len(),
{
    if segs.len() == 0 {
        assert(clean_path(segs).len() == 0);
    } else {
        let seg = segs.last();
        let rest = segs.drop_last();
        if seg.len() == 0 {
            lemma_insert_at(m, ep, rest, kp);
            assert(any_segment(segs) == any_segment(rest)) by {
                if any_segment(rest) {
                    let w = choose|w: int| 0 <= w < rest.len() && rest[w].len() > 0;
                    assert(segs[w].len() > 0);
                }
                if any_segment(segs) {
                    let w = choose|w: int| 0 <= w < segs.len() && segs[w].len() > 0;
                    assert(w != segs.len() - 1);
                    assert(rest[w].len() > 0);
                }
            }
        } else {
            assert(any_segment(segs)) by {
                assert(segs[segs.len() - 1].len() > 0);
            }
            lemma_clean_path_nonempty(segs);
            if any_segment(rest) {
                lemma_clean_path_nonempty(rest);
            } else {
                lemma_clean_path_empty(rest);
            }
            let r = insert_model(m, ep, segs);
            let target = clean_path(segs);
            assert(target == seq![seg] + clean_path(rest));
            assert(target.first() == seg);
            assert(target.drop_first() =~= clean_path(rest));
            if has_key(m, seg) {
                let i = key_index(m, seg);
                assert(0 <= i < m.len() && m[i].0 == seg);
                let node = m[i].1;
                let node2 = if !any_segment(rest) {
                    NodeModel { eps: node.eps.push(ep), children: node.children }
                } else {
                    NodeModel { eps: node.eps, children: insert_model(node.children, ep, rest) }
                };
                assert(r =~= m.update(i, (seg, node2)));
                assert forall|k: Seq<char>| has_key(r, k) == has_key(m, k) by {
                    if has_key(m, k) {
                        let j = choose|j: int| 0 <= j < m.len() && m[j].0 == k;
                        assert(r[j].0 == k);
                    }
                    if has_key(r, k) {
                        let j = choose|j: int| 0 <= j < r.len() && r[j].0 == k;
                        assert(m[j].0 == k);
                    }
                }
                assert forall|k: Seq<char>, j: int|
                    0 <= j < m.len() && m[j].0 == k implies key_index(m, k) == j && key_index(
                    r,
                    k,
                ) == j by {
                    let a = key_index(m, k);
                    assert(0 <= a < m.len() && m[a].0 == k);
                    if a != j {
                        assert(m[a].0 != m[j].0);
                    }
                    assert(has_key(r, k));
                    let b = key_index(r, k);
                    assert(0 <= b < r.len() && r[b].0 == k);
                    assert(m[b].0 == k);
                    if b != j {
                        assert(m[b].0 != m[j].0);
                    }
                }
                if kp.len() == 0 {
                } else if kp.first() != seg {
                    if has_key(m, kp.first()) {
                        let j = key_index(m, kp.first());
                        assert(j != i);
                        assert(r[j] == m[j]);
                    }
                    assert(!(kp.len() >= 1 && kp == target));
                    assert(!(1 <= kp.len() <= target.len() && kp =~= target.take(
                        kp.len() as int,
                    ))) by {
                        if 1 <= kp.len() <= target.len() && kp =~= target.take(kp.len() as int) {
                            assert(kp.first() == target.first());
                        }
                    }
                } else {
                    assert(key_index(r, seg) == i && key_index(m, seg) == i);
                    if !any_segment(rest) {
                        assert(target =~= seq![seg]);
                        if kp.len() == 1 {
                            assert(kp =~= target);
                            assert(eps_at(r, kp) == node2.eps);
                            assert(eps_at(m, kp) == node.eps);
                            assert(kp.drop_first().len() == 0);
                            assert(has_node(node2.children, kp.drop_first()));
                            assert(has_node(node.children, kp.drop_first()));
                            assert(has_node(r, kp));
                            assert(has_node(m, kp));
                        } else {
                            assert(kp != target) by {
                                if kp == target {
                                    assert(kp.len() == target.len());
                                }
                            }
                            assert(node2.children == node.children);
                            assert(target.len() == 1 + clean_path(rest).len());
                            assert(!(1 <= kp.len() <= target.len()));
                        }
                    } else {
                        assert(model_wf(node.children));
                        lemma_insert_at(node.children, ep, rest, kp.drop_first());
                        if kp.len() == 1 {
                            assert(kp != target) by {
                                if kp == target {
                                    assert(target.len() == 1);
                                    assert(clean_path(rest).len() == 0);
                                }
                            }
                            assert(eps_at(r, kp) == node2.eps);
                            assert(node2.eps == node.eps);
                            assert(target.len() == 1 + clean_path(rest).len());
                            assert(kp =~= target.take(1));
                            assert(kp.drop_first().len() == 0);
                            assert(has_node(node2.children, kp.drop_first()));
                            assert(has_node(r, kp));
                        } else {
                            assert((kp == target) == (kp.drop_first() == clean_path(rest))) by {
                                if kp.drop_first() == clean_path(rest) {
                                    assert(kp =~= seq![kp.first()] + kp.drop_first());
                                    assert(kp =~= target);
                                }
                                if kp == target {
                                    assert(kp.drop_first() =~= target.drop_first());
                                }
                            }
                            assert(target.len() == 1 + clean_path(rest).len());
                            assert((1 <= kp.len() <= target.len() && kp =~= target.take(
                                kp.len() as int,
                            )) == (1 <= kp.len() - 1 <= clean_path(rest).len()
                                && kp.drop_first() =~= clean_path(rest).take(kp.len() - 1))) by {
                                if 1 <= kp.len() - 1 <= clean_path(rest).len() && kp.drop_first()
                                    =~= clean_path(rest).take(kp.len() - 1) {
                                    assert(target.take(kp.len() as int).first() == seg);
                                    assert(target.take(kp.len() as int).drop_first()
                                        =~= clean_path(rest).take(kp.len() - 1));
                                    assert(kp =~= seq![kp.first()] + kp.drop_first());
                                    assert(target.take(kp.len() as int) =~= seq![seg]
                                        + clean_path(rest).take(kp.len() - 1));
                                }
                                if 1 <= kp.len() <= target.len() && kp =~= target.take(
                                    kp.len() as int,
                                ) {
                                    assert(kp.drop_first() =~= target.take(
                                        kp.len() as int,
                                    ).drop_first());
                                    assert(target.take(kp.len() as int).drop_first()
                                        =~= clean_path(rest).take(kp.len() - 1));
                                }
                            }
                        }
                    }
                }
            } else {
                let node = if !any_segment(rest) {
                    NodeModel { eps: seq![ep], children: Seq::empty() }
                } else {
                    NodeModel { eps: Seq::empty(), children: insert_model(Seq::empty(), ep, rest) }
                };
                assert(r =~= m.push((seg, node)));
                let li = m.len() as int;
                assert(r[li].0 == seg);
                assert forall|k: Seq<char>|
                    k != seg implies has_key(r, k) == has_key(m, k) by {
                    if has_key(m, k) {
                        let j = choose|j: int| 0 <= j < m.len() && m[j].0 == k;
                        assert(r[j].0 == k);
                    }
                    if has_key(r, k) {
                        let j = choose|j: int| 0 <= j < r.len() && r[j].0 == k;
                        assert(j < m.len());
                        assert(m[j].0 == k);
                    }
                }
                assert(has_key(r, seg));
                assert(key_index(r, seg) == li) by {
                    let b = key_index(r, seg);
                    assert(0 <= b < r.len() && r[b].0 == seg);
                    if b < li {
                        assert(m[b].0 == seg);
                        assert(has_key(m, seg));
                    }
                }
                assert forall|k: Seq<char>, j: int|
                    0 <= j < m.len() && m[j].0 == k implies key_index(m, k) == j && key_index(
                    r,
                    k,
                ) == j by {
                    let a = key_index(m, k);
                    assert(0 <= a < m.len() && m[a].0 == k);
                    if a != j {
                        assert(m[a].0 != m[j].0);
                    }
                    assert(r[j].0 == k);
                    assert(has_key(r, k));
                    let b = key_index(r, k);
                    assert(0 <= b < r.len() && r[b].0 == k);
                    if b == li {
                        assert(m[j].0 == seg);
                    } else {
                        assert(m[b].0 == k);
                        if b != j {
                            assert(m[b].0 != m[j].0);
                        }
                    }
                }
                if kp.len() == 0 {
                } else if kp.first() != seg {
                    if has_key(m, kp.first()) {
                        let j = key_index(m, kp.first());
                        assert(r[j] == m[j]);
                    }
                    assert(!(kp.len() >= 1 && kp == target)) by {
                        if kp == target {
                            assert(kp.first() == target.first());
                        }
                    }
                    assert(!(1 <= kp.len() <= target.len() && kp =~= target.take(
                        kp.len() as int,
                    ))) by {
                        if 1 <= kp.len() <= target.len() && kp =~= target.take(kp.len() as int) {
                            assert(kp.first() == target.first());
                        }
                    }
                } else {
                    assert(!has_key(m, kp.first()));
                    assert(eps_at(m, kp) == Seq::<Endpoint>::empty());
                    assert(!has_node(m, kp));
                    assert(eps_at(r, kp) == (if kp.len() == 1 {
                        node.eps
                    } else {
                        eps_at(node.children, kp.drop_first())
                    }));
                    if !any_segment(rest) {
                        assert(target =~= seq![seg]);
                        if kp.len() == 1 {
                            assert(kp =~= target);
                            assert(eps_at(r, kp) == seq![ep]);
                            assert(eps_at(m, kp).push(ep) =~= seq![ep]);
                            assert(kp.drop_first().len() == 0);
                            assert(has_node(node.children, kp.drop_first()));
                            assert(has_node(r, kp));
                        } else {
                            assert(kp != target);
                            assert(eps_at(node.children, kp.drop_first())
                                == Seq::<Endpoint>::empty());
                            assert(!has_node(node.children, kp.drop_first()));
                            assert(target.len() == 1);
                            assert(!(1 <= kp.len() <= target.len()));
                        }
                    } else {
                        lemma_insert_at(Seq::empty(), ep, rest, kp.drop_first());
                        assert(eps_at(Seq::empty(), kp.drop_first())
                            == Seq::<Endpoint>::empty());
                        assert(kp.drop_first().len() == 0 ==> !has_node(
                            Seq::<(Seq<char>, NodeModel)>::empty(),
                            kp.drop_first(),
                        ) == false);
                        if kp.len() == 1 {
                            assert(kp != target) by {
                                if kp == target {
                                    assert(target.len() == 1);
                                    assert(clean_path(rest).len() == 0);
                                }
                            }
                            assert(eps_at(r, kp) == node.eps);
                            assert(node.eps == Seq::<Endpoint>::empty());
                            assert(target.len() == 1 + clean_path(rest).len());
                            assert(kp =~= target.take(1));
                            assert(kp.drop_first().len() == 0);
                            assert(has_node(node.children, kp.drop_first()));
                            assert(has_node(r, kp));
                        } else {
                            assert((kp == target) == (kp.drop_first() == clean_path(rest))) by {
                                if kp.drop_first() == clean_path(rest) {
                                    assert(kp =~= seq![kp.first()] + kp.drop_first());
                                    assert(kp =~= target);
                                }
                                if kp == target {
                                    assert(kp.drop_first() =~= target.drop_first());
                                }
                            }
                            assert(target.len() == 1 + clean_path(rest).len());
                            assert((1 <= kp.len() <= target.len() && kp =~= target.take(
                                kp.len() as int,
                            )) == (1 <= kp.len() - 1 <= clean_path(rest).len()
                                && kp.drop_first() =~= clean_path(rest).take(kp.len() - 1))) by {
                                if 1 <= kp.len() - 1 <= clean_path(rest).len() && kp.drop_first()
                                    =~= clean_path(rest).take(kp.len() - 1) {
                                    assert(target.take(kp.len() as int).first() == seg);
                                    assert(target.take(kp.len() as int).drop_first()
                                        =~= clean_path(rest).take(kp.len() - 1));
                                    assert(kp =~= seq![kp.first()] + kp.drop_first());
                                    assert(target.take(kp.len() as int) =~= seq![seg]
                                        + clean_path(rest).take(kp.len() - 1));
                                }
                                if 1 <= kp.len() <= target.len() && kp =~= target.take(
                                    kp.len() as int,
                                ) {
                                    assert(kp.drop_first() =~= target.take(
                                        kp.len() as int,
                                    ).drop_first());
                                    assert(target.take(kp.len() as int).drop_first()
                                        =~= clean_path(rest).take(kp.len() - 1));
                                }
                            }
                        }
                    }
                }
            }
        }
    }
}

/// Trie merge commutativity: inserting two endpoints in either order
/// builds isomorphic tries — the same nodes exist, and each node holds
/// the same endpoints up to the order of the two insertions.
pub proof fn lemma_insert_commutes(
    m: Seq<(Seq<char>, NodeModel)>,
    e1: Endpoint,
    s1: Seq<Seq<char>>,
    e2: Endpoint,
    s2: Seq<Seq<char>>,
    kp: Seq<Seq<char>>,
)
    requires
        model_wf(m),
    ensures
        has_node(insert_model(insert_model(m, e1, s1), e2, s2), kp) == has_node(
            insert_model(insert_model(m, e2, s2), e1, s1),
            kp,
        ),
        eps_at(insert_model(insert_model(m, e1, s1), e2, s2), kp).to_multiset() == eps_at(
            insert_model(insert_model(m, e2, s2), e1, s1),
            kp,
        ).to_multiset(),
{
    broadcast use vstd::seq_lib::group_seq_properties;

    lemma_insert_model_wf(m, e1, s1);
    lemma_insert_model_wf(m, e2, s2);
    lemma_insert_at(m, e1, s1, kp);
    lemma_insert_at(m, e2, s2, kp);
    lemma_insert_at(insert_model(m, e1, s1), e2, s2, kp);
    lemma_insert_at(insert_model(m, e2, s2), e1, s1, kp);
    let base = eps_at(m, kp);
    if any_segment(s1) && any_segment(s2) && kp == clean_path(s1) && kp == clean_path(s2) {
        base.push(e1).to_multiset_ensures();
        base.push(e2).to_multiset_ensures();
        base.to_multiset_ensures();
        assert(base.push(e1).push(e2).to_multiset() =~= base.push(e2).push(e1).to_multiset());
    }
}


/// One registration: an endpoint with its reversed segment list.
pub open spec fn fold_inserts(
    m: Seq<(Seq<char>, NodeModel)>,
    ops: Seq<(Endpoint, Seq<Seq<char>>)>,
) -> Seq<(Seq<char>, NodeModel)>
    decreases ops.len(),
{
    if ops.len() == 0 {
        m
    } else {
        fold_inserts(insert_model(m, ops.first().0, ops.first().1), ops.drop_first())
    }
}

/// Isomorphism of tries, node by node: the same key paths exist, and each
/// node holds the same endpoints up to order.
pub open spec fn trie_equiv(
    m1: Seq<(Seq<char>, NodeModel)>,
    m2: Seq<(Seq<char>, NodeModel)>,
) -> bool {
    &&& forall|kp: Seq<Seq<char>>| #[trigger] has_node(m1, kp) == has_node(m2, kp)
    &&& forall|kp: Seq<Seq<char>>|
        (#[trigger] eps_at(m1, kp)).to_multiset() == eps_at(m2, kp).to_multiset()
}

/// Folding preserves well-formedness.
proof fn lemma_fold_inserts_wf(
    m: Seq<(Seq<char>, NodeModel)>,
    ops: Seq<(Endpoint, Seq<Seq<char>>)>,
)
    requires
        model_wf(m),
    ensures
        model_wf(fold_inserts(m, ops)),
    decreases ops.len(),
{
    if ops.len() > 0 {
        lemma_insert_model_wf(m, ops.first().0, ops.first().1);
        lemma_fold_inserts_wf(insert_model(m, ops.first().0, ops.first().1), ops.drop_first());
    }
}

/// One insertion into isomorphic tries keeps them isomorphic.
proof fn lemma_insert_equiv(
    m1: Seq<(Seq<char>, NodeModel)>,
    m2: Seq<(Seq<char>, NodeModel)>,
    ep: Endpoint,
    segs: Seq<Seq<char>>,
)
    requires
        model_wf(m1),
        model_wf(m2),
        trie_equiv(m1, m2),
    ensures
        trie_equiv(insert_model(m1, ep, segs), insert_model(m2, ep, segs)),
{
    let i1 = insert_model(m1, ep, segs);
    let i2 = insert_model(m2, ep, segs);
    assert forall|kp: Seq<Seq<char>>| #[trigger] has_node(i1, kp) == has_node(i2, kp) by {
        lemma_insert_at(m1, ep, segs, kp);
        lemma_insert_at(m2, ep, segs, kp);
    }
    assert forall|kp: Seq<Seq<char>>|
        (#[trigger] eps_at(i1, kp)).to_multiset() == eps_at(i2, kp).to_multiset() by {
        lemma_insert_at(m1, ep, segs, kp);
        lemma_insert_at(m2, ep, segs, kp);
        eps_at(m1, kp).to_multiset_ensures();
        eps_at(m2, kp).to_multiset_ensures();
    }
}

/// Folding the same registrations over isomorphic tries keeps them
/// isomorphic.
proof fn lemma_fold_equiv(
    m1: Seq<(Seq<char>, NodeModel)>,
    m2: Seq<(Seq<char>, NodeModel)>,
    ops: Seq<(Endpoint, Seq<Seq<char>>)>,
)
    requires
        model_wf(m1),
        model_wf(m2),
        trie_equiv(m1, m2),
    ensures
        trie_equiv(fold_inserts(m1, ops), fold_inserts(m2, ops)),
    decreases ops.len(),
{
    if ops.len() > 0 {
        lemma_insert_equiv(m1, m2, ops.first().0, ops.first().1);
        lemma_insert_model_wf(m1, ops.first().0, ops.first().1);
        lemma_insert_model_wf(m2, ops.first().0, ops.first().1);
        lemma_fold_equiv(
            insert_model(m1, ops.first().0, ops.first().1),
            insert_model(m2, ops.first().0, ops.first().1),
            ops.drop_first(),
        );
    }
}

/// Swapping the first two registrations folds to an isomorphic trie.
proof fn lemma_fold_swap_head(
    m: Seq<(Seq<char>, NodeModel)>,
    a: (Endpoint, Seq<Seq<char>>),
    b: (Endpoint, Seq<Seq<char>>),
    ops: Seq<(Endpoint, Seq<Seq<char>>)>,
)
    requires
        model_wf(m),
    ensures
        trie_equiv(
            fold_inserts(m, seq![a, b] + ops),
            fold_inserts(m, seq![b, a] + ops),
        ),
{
    let d1 = insert_model(insert_model(m, a.0, a.1), b.0, b.1);
    let d2 = insert_model(insert_model(m, b.0, b.1), a.0, a.1);
    assert forall|kp: Seq<Seq<char>>| #[trigger] has_node(d1, kp) == has_node(d2, kp) by {
        lemma_insert_commutes(m, a.0, a.1, b.0, b.1, kp);
    }
    assert forall|kp: Seq<Seq<char>>|
        (#[trigger] eps_at(d1, kp)).to_multiset() == eps_at(d2, kp).to_multiset() by {
        lemma_insert_commutes(m, a.0, a.1, b.0, b.1, kp);
    }
    lemma_insert_model_wf(m, a.0, a.1);
    lemma_insert_model_wf(insert_model(m, a.0, a.1), b.0, b.1);
    lemma_insert_model_wf(m, b.0, b.1);
    lemma_insert_model_wf(insert_model(m, b.0, b.1), a.0, a.1);
    lemma_fold_equiv(d1, d2, ops);
    assert((seq![a, b] + ops).first() == a);
    assert((seq![a, b] + ops).drop_first() =~= seq![b] + ops);
    assert((seq![b] + ops).first() == b);
    assert((seq![b] + ops).drop_first() =~= ops);
    assert((seq![b, a] + ops).first() == b);
    assert((seq![b, a] + ops).drop_first() =~= seq![a] + ops);
    assert((seq![a] + ops).first() == a);
    assert((seq![a] + ops).drop_first() =~= ops);
    assert(fold_inserts(m, seq![a, b] + ops) == fold_inserts(
        insert_model(m, a.0, a.1),
        seq![b] + ops,
    ));
    assert(fold_inserts(insert_model(m, a.0, a.1), seq![b] + ops) == fold_inserts(d1, ops));
    assert(fold_inserts(m, seq![b, a] + ops) == fold_inserts(
        insert_model(m, b.0, b.1),
        seq![a] + ops,
    ));
    assert(fold_inserts(insert_model(m, b.0, b.1), seq![a] + ops) == fold_inserts(d2, ops));
}

/// Moving one registration to the front folds to an isomorphic trie.
proof fn lemma_fold_bubble(
    m: Seq<(Seq<char>, NodeModel)>,
    ops: Seq<(Endpoint, Seq<Seq<char>>)>,
    j: int,
)
    requires
        model_wf(m),
        0 <= j < ops.len(),
    ensures
        trie_equiv(fold_inserts(m, ops), fold_inserts(m, seq![ops[j]] + ops.remove(j))),
    decreases j,
{
    if j == 0 {
        assert(seq![ops[0]] + ops.remove(0) =~= ops);
    } else {
        let a = ops.first();
        let tail = ops.drop_first();
        let m1 = insert_model(m, a.0, a.1);
        lemma_insert_model_wf(m, a.0, a.1);
        assert(tail[j - 1] == ops[j]);
        lemma_fold_bubble(m1, tail, j - 1);
        assert(fold_inserts(m, ops) == fold_inserts(m1, tail));
        assert(fold_inserts(m1, seq![tail[j - 1]] + tail.remove(j - 1)) == fold_inserts(
            m,
            seq![a, ops[j]] + tail.remove(j - 1),
        )) by {
            let s1 = seq![tail[j - 1]] + tail.remove(j - 1);
            let s2 = seq![a, ops[j]] + tail.remove(j - 1);
            assert(s2.first() == a);
            assert(s2.drop_first() =~= s1);
        }
        lemma_fold_swap_head(m, a, ops[j], tail.remove(j - 1));
        assert(ops.remove(j) =~= seq![a] + tail.remove(j - 1));
        assert(fold_inserts(m, seq![ops[j], a] + tail.remove(j - 1)) == fold_inserts(
            m,
            seq![ops[j]] + ops.remove(j),
        )) by {
            assert(seq![ops[j], a] + tail.remove(j - 1) =~= seq![ops[j]] + ops.remove(j));
        }
    }
}

/// Trie merge commutativity in full: folding any permutation of the same
/// registrations over a well-formed trie builds isomorphic tries — the
/// same key paths exist, and each node holds the same endpoints up to
/// the order of same-node registrations.
pub proof fn lemma_insert_order_irrelevant(
    m: Seq<(Seq<char>, NodeModel)>,
    ops1: Seq<(Endpoint, Seq<Seq<char>>)>,
    ops2: Seq<(Endpoint, Seq<Seq<char>>)>,
)
    requires
        model_wf(m),
        ops1.to_multiset() == ops2.to_multiset(),
    ensures
        trie_equiv(fold_inserts(m, ops1), fold_inserts(m, ops2)),
    decreases ops1.len(),
{
    ops1.to_multiset_ensures();
    ops2.to_multiset_ensures();
    if ops1.len() == 0 {
        assert(ops2.len() == 0);
    } else {
        let a = ops1.first();
        assert(ops1.contains(a));
        assert(ops2.to_multiset().count(a) > 0);
        assert(ops2.contains(a));
        let j = choose|j: int| 0 <= j < ops2.len() && ops2[j] == a;
        lemma_fold_bubble(m, ops2, j);
        let m1 = insert_model(m, a.0, a.1);
        lemma_insert_model_wf(m, a.0, a.1);
        assert(fold_inserts(m, seq![ops2[j]] + ops2.remove(j)) == fold_inserts(
            m1,
            ops2.remove(j),
        )) by {
            let s = seq![ops2[j]] + ops2.remove(j);
            assert(s.first() == a);
            assert(s.drop_first() =~= ops2.remove(j));
        }
        assert(ops1.drop_first().to_multiset() == ops2.remove(j).to_multiset()) by {
            assert(ops1.remove(0) =~= ops1.drop_first());
            assert(ops1.remove(0).to_multiset() =~= ops1.to_multiset().remove(ops1[0]));
            assert(ops2.remove(j).to_multiset() =~= ops2.to_multiset().remove(ops2[j]));
        }
        lemma_insert_order_irrelevant(m1, ops1.drop_first(), ops2.remove(j));
        assert(fold_inserts(m, ops1) == fold_inserts(m1, ops1.drop_first()));
    }
}

/// Well-formedness of a trie level as it is held in memory.
pub open spec fn emap_wf(m: Emap) -> bool {
    model_wf(emap_model(m))
}

/// Inserting never breaks key uniqueness: an existing key is updated in
/// place, a new key is appended once.
pub proof fn lemma_insert_model_wf(m: Seq<(Seq<char>, NodeModel)>, ep: Endpoint, segs: Seq<Seq<char>>)
    requires
        model_wf(m),
    ensures
        model_wf(insert_model(m, ep, segs)),
    decreases segs.len(),
{
    if segs.len() == 0 {
    } else {
        let seg = segs.last();
        let rest = segs.drop_last();
        if seg.len() == 0 {
            lemma_insert_model_wf(m, ep, rest);
        } else if has_key(m, seg) {
            let i = key_index(m, seg);
            if !any_segment(rest) {
            } else {
                lemma_insert_model_wf(m[i].1.children, ep, rest);
            }
            let r = insert_model(m, ep, segs);
            assert forall|a: int| 0 <= a < r.len() implies model_wf(#[trigger] r[a].1.children) by {
                if a != i {
                    assert(r[a] == m[a]);
                }
            }
        } else {
            if !any_segment(rest) {
            } else {
                lemma_insert_model_wf(Seq::empty(), ep, rest);
            }
            let r = insert_model(m, ep, segs);
            assert forall|a: int| 0 <= a < r.len() implies model_wf(#[trigger] r[a].1.children) by {
                if a < m.len() {
                    assert(r[a] == m[a]);
                }
            }
        }
    }
}

/// Insert `ep` into the trie level `map`.
///
/// `segments` is the endpoint's CLI route split on `/`, in reverse order,
/// so that the next segment to consume is the vector's last element.
pub fn insert_endpoint(map: Emap, ep: Endpoint, segments: Vec<String>) -> (r: Emap)
    requires
        emap_wf(map),
    ensures
        emap_model(r) == insert_model(emap_model(map), ep, segments.deep_view()),
        emap_wf(r),
    decreases segments.len(),
{
    broadcast use lemma_emap_model_len, lemma_emap_model_index;

    let ghost m0 = emap_model(map);
    let ghost segs0 = segments.deep_view();
    proof {
        lemma_insert_model_wf(m0, ep, segs0);
    }
    let mut map = map;
    let mut segments = segments;
    if let Some(segment) = segments.pop() {
        proof {
            assert(segments.deep_view() =~= segs0.drop_last());
            assert(segment@ == segs0.last());
        }
        let ghost rest = segs0.drop_last();
        if segment.as_str().unicode_len() == 0 {
            return insert_endpoint(map, ep, segments);
        }
        let pos = find_key(&map, &segment);
        proof {
            if pos is Some {
                let i = pos->0 as int;
                assert(m0[i].0 == segment@);
                assert(has_key(m0, segment@));
                assert forall|j: int| 0 <= j < m0.len() && m0[j].0 == segment@ implies j == i by {
                    if j != i {
                        assert(m0[j].0 != m0[i].0);
                    }
                }
                assert(key_index(m0, segment@) == i);
            } else {
                assert(!has_key(m0, segment@)) by {
                    assert forall|j: int| 0 <= j < m0.len() implies m0[j].0 != segment@ by {
                        assert(map@[j].0@ != segment@);
                    }
                }
            }
        }
        if !has_real_segment(&segments) {
            if let Some(i) = pos {
                let (key, mut node) = map.remove(i);
                node.endpoint.push(ep);
                let ghost node2 = node_model(node);
                map.insert(i, (key, node));
                proof {
                    assert(emap_model(map) =~= m0.update(i as int, (segment@, node2)));
                    assert(emap_model(map) == insert_model(m0, ep, segs0));
                }
                map
            } else {
                let node = EpNode { endpoint: vec![ep], route: Vec::new() };
                let ghost node2 = node_model(node);
                map.push((segment, node));
                proof {
                    assert(node2.eps =~= seq![ep]);
                    assert(node2.children =~= Seq::<(Seq<char>, NodeModel)>::empty());
                    assert(emap_model(map) =~= m0.push((segment@, node2)));
                    assert(emap_model(map) == insert_model(m0, ep, segs0));
                }
                map
            }
        } else {
            if let Some(i) = pos {
                let (key, node) = map.remove(i);
                proof {
                    assert(model_wf(m0[i as int].1.children));
                }
                let new_route = insert_endpoint(node.route, ep, segments);
                let node = EpNode { endpoint: node.endpoint, route: new_route };
                let ghost node2 = node_model(node);
                map.insert(i, (key, node));
                proof {
                    assert(emap_model(map) =~= m0.update(i as int, (segment@, node2)));
                    assert(emap_model(map) == insert_model(m0, ep, segs0));
                }
                map
            } else {
                let empty_level: Emap = Vec::new();
                proof {
                    assert(emap_model(empty_level) =~= Seq::<(Seq<char>, NodeModel)>::empty());
                }
                let new_route = insert_endpoint(empty_level, ep, segments);
                let node = EpNode { endpoint: Vec::new(), route: new_route };
                let ghost node2 = node_model(node);
                map.push((segment, node));
                proof {
                    assert(node2.eps =~= Seq::<Endpoint>::empty());
                    assert(emap_model(map) =~= m0.push((segment@, node2)));
                    assert(emap_model(map) == insert_model(m0, ep, segs0));
                }
                map
            }
        }
    } else {
        proof {
            assert(segs0.len() == 0);
        }
        map
    }
}

/// Whether any of the remaining segments is non-empty.
pub fn has_real_segment(v: &Vec<String>) -> (r: bool)
    ensures
        r == any_segment(v.deep_view()),
{
    let mut i: usize = 0;
    while i < v.len()
        invariant
            0 <= i <= v@.len(),
            forall|k: int| 0 <= k < i ==> v@[k]@.len() == 0,
        decreases v@.len() - i,
    {
        if v[i].as_str().unicode_len() > 0 {
            proof {
                assert(v.deep_view()[i as int].len() > 0);
            }
            return true;
        }
        i = i + 1;
    }
    proof {
        assert forall|k: int| 0 <= k < v.deep_view().len() implies v.deep_view()[k].len()
            == 0 by {
            assert(v@[k]@.len() == 0);
        }
    }
    false
}

/// The index of the entry of `map` keyed by `segment`, if any.
fn find_key(map: &Emap, segment: &String) -> (r: Option<usize>)
    ensures
        match r {
            Some(i) => 0 <= i < map@.len() && map@[i as int].0@ == segment@
                && (forall|j: int| 0 <= j < i ==> map@[j].0@ != segment@),
            None => forall|j: int| 0 <= j < map@.len() ==> map@[j].0@ != segment@,
        },
{
    let mut i: usize = 0;
    while i < map.len()
        invariant
            0 <= i <= map@.len(),
            forall|j: int| 0 <= j < i ==> map@[j].0@ != segment@,
        decreases map@.len() - i,
    {
        if map[i].0.eq(segment) {
            return Some(i);
        }
        i = i + 1;
    }
    None
}

} // verus!
