//! The dispatcher.
//!
//! At invocation time the same route trie that generated the command
//! surface is walked against the parsed command line: literal segments are
//! matched as subcommands (variable levels in between are flattened into
//! their parent, capturing the variable's value on the way down), and a
//! level without a chosen subcommand falls back to the first variable
//! sibling whose value is present, then to the node's own endpoints.

use vstd::prelude::*;
use crate::cli_gen::opt_view;
use crate::cli_gen::valid_path;
use crate::endpoint::Emap;
use crate::endpoint::EpNode;
use crate::endpoint::NodeModel;
use crate::endpoint::emap_model;
use crate::endpoint::node_model;
use crate::endpoint::lemma_emap_model_index;
use crate::endpoint::lemma_emap_model_len;
use crate::segment::is_var_spec;
use crate::segment::strip_var;
use crate::segment::var_name_spec;
use crate::strings::str_eq;

verus! {

/// One level of a parsed invocation: the chosen subcommand, if any, and
/// the argument values present at this level.
pub struct Invocation {
    pub subcommand: Option<(String, Box<Invocation>)>,
    /// Values of variable captures at this level, keyed by variable name.
    pub vars: Vec<(String, String)>,
    pub output_file: Option<String>,
    pub output_format: Option<String>,
}

/// What a dispatch resolves to.
pub enum DispatchOutcome {
    /// Run the endpoints of the trie node at `path` (an entry-index path
    /// from the root level; empty for the matched node itself), with the
    /// captured variables in capture order.
    Run {
        path: Vec<usize>,
        captured: Vec<(String, String)>,
        output_file: Option<String>,
        output_format: Option<String>,
    },
    /// Unknown subcommand chain: surface the CLI's help.
    Help,
    /// A required variable was absent.
    Missing { name: String },
}

/// The abstract counterpart of [`DispatchOutcome`].
pub enum DispatchModel {
    Run {
        path: Seq<int>,
        captured: Seq<(Seq<char>, Seq<char>)>,
        output_file: Option<Seq<char>>,
        output_format: Option<Seq<char>>,
    },
    Help,
    Missing { name: Seq<char> },
}

/// The abstract shape of an index path.
pub open spec fn path_view(p: Seq<usize>) -> Seq<int> {
    Seq::new(p.len(), |i: int| p[i] as int)
}

/// The abstract shape of a capture list.
pub open spec fn cap_view(c: Seq<(String, String)>) -> Seq<(Seq<char>, Seq<char>)> {
    Seq::new(c.len(), |i: int| (c[i].0@, c[i].1@))
}

/// The abstract shape of a [`DispatchOutcome`].
pub open spec fn out_view(o: DispatchOutcome) -> DispatchModel {
    match o {
        DispatchOutcome::Run { path, captured, output_file, output_format } => DispatchModel::Run {
            path: path_view(path@),
            captured: cap_view(captured@),
            output_file: opt_view(output_file),
            output_format: opt_view(output_format),
        },
        DispatchOutcome::Help => DispatchModel::Help,
        DispatchOutcome::Missing { name } => DispatchModel::Missing { name: name@ },
    }
}

/// The value stored for `name`, searching the level's values in order.
pub open spec fn vars_lookup(vars: Seq<(String, String)>, name: Seq<char>) -> Option<Seq<char>>
    decreases vars.len(),
{
    if vars.len() == 0 {
        None
    } else if vars.first().0@ == name {
        Some(vars.first().1@)
    } else {
        vars_lookup(vars.drop_first(), name)
    }
}

/// The match arm for subcommand `name` at one trie level, searching the
/// entries from position `k` on: a literal entry matches by its key, and
/// a variable entry offers its children's arms in place, prefixing the
/// variable to the chain of values that must be captured.  The first arm
/// in declaration order wins.
pub open spec fn find_arm_from(
    m: Seq<(Seq<char>, NodeModel)>,
    k: int,
    name: Seq<char>,
) -> Option<(Seq<int>, Seq<Seq<char>>)>
    decreases m, m.len() - k,
{
    if k < 0 || k >= m.len() {
        None
    } else {
        let key = m[k].0;
        let node = m[k].1;
        if is_var_spec(key) {
            match find_arm_from(node.children, 0, name) {
                Some((p, c)) => Some((seq![k] + p, seq![var_name_spec(key)] + c)),
                None => find_arm_from(m, k + 1, name),
            }
        } else if key == name {
            Some((seq![k], Seq::empty()))
        } else {
            find_arm_from(m, k + 1, name)
        }
    }
}

/// Capture the chained variable values from one level's arguments.
pub open spec fn capture_chain(vars: Seq<(String, String)>, chain: Seq<Seq<char>>) -> Result<
    Seq<(Seq<char>, Seq<char>)>,
    Seq<char>,
>
    decreases chain.len(),
{
    if chain.len() == 0 {
        Ok(Seq::empty())
    } else {
        match vars_lookup(vars, chain.first()) {
            None => Err(chain.first()),
            Some(v) => match capture_chain(vars, chain.drop_first()) {
                Err(e) => Err(e),
                Ok(rest) => Ok(seq![(chain.first(), v)] + rest),
            },
        }
    }
}

/// The node reached by a non-empty entry-index path.
pub open spec fn node_at(m: Seq<(Seq<char>, NodeModel)>, path: Seq<int>) -> NodeModel
    decreases path.len(),
{
    if path.len() <= 1 {
        m[path.first()].1
    } else {
        node_at(m[path.first()].1.children, path.drop_first())
    }
}

/// The first variable sibling, from position `k` on, that carries
/// endpoints and whose value is present: the if/else-if cascade.
pub open spec fn cascade(
    m: Seq<(Seq<char>, NodeModel)>,
    k: int,
    vars: Seq<(String, String)>,
) -> Option<(int, Seq<char>, Seq<char>)>
    decreases m.len() - k,
{
    if k < 0 || k >= m.len() {
        None
    } else {
        let key = m[k].0;
        let node = m[k].1;
        if is_var_spec(key) && node.eps.len() > 0 {
            match vars_lookup(vars, var_name_spec(key)) {
                Some(v) => Some((k, var_name_spec(key), v)),
                None => cascade(m, k + 1, vars),
            }
        } else {
            cascade(m, k + 1, vars)
        }
    }
}

/// What dispatching resolves to: the runtime walk over the trie level
/// `m`, the parsed invocation `inv`, and the variables captured so far.
pub open spec fn dispatch_model(
    m: Seq<(Seq<char>, NodeModel)>,
    inv: Invocation,
    captured: Seq<(Seq<char>, Seq<char>)>,
) -> DispatchModel
    decreases inv,
{
    match inv.subcommand {
        Some((name, sub)) => match find_arm_from(m, 0, name@) {
            None => DispatchModel::Help,
            Some((p, chain)) => match capture_chain(inv.vars@, chain) {
                Err(n) => DispatchModel::Missing { name: n },
                Ok(vals) => match dispatch_model(node_at(m, p).children, *sub, captured + vals) {
                    DispatchModel::Run { path, captured: c2, output_file, output_format } => {
                        DispatchModel::Run { path: p + path, captured: c2, output_file, output_format }
                    },
                    o => o,
                },
            },
        },
        None => match cascade(m, 0, inv.vars@) {
            Some((k, n, v)) => DispatchModel::Run {
                path: seq![k],
                captured: captured.push((n, v)),
                output_file: opt_view(inv.output_file),
                output_format: opt_view(inv.output_format),
            },
            None => DispatchModel::Run {
                path: Seq::empty(),
                captured,
                output_file: opt_view(inv.output_file),
                output_format: opt_view(inv.output_format),
            },
        },
    }
}

/// Dispatch at a level without a chosen subcommand and no variable
/// sibling to fall back to: the level's own endpoints run.
proof fn lemma_dispatch_none(m: Seq<(Seq<char>, NodeModel)>, inv: Invocation, cap: Seq<(Seq<char>, Seq<char>)>)
    requires
        inv.subcommand is None,
        cascade(m, 0, inv.vars@) is None,
    ensures
        dispatch_model(m, inv, cap) == (DispatchModel::Run {
            path: Seq::empty(),
            captured: cap,
            output_file: opt_view(inv.output_file),
            output_format: opt_view(inv.output_format),
        }),
{
}

/// Dispatch where the variable cascade fires.
proof fn lemma_dispatch_cascade(
    m: Seq<(Seq<char>, NodeModel)>,
    inv: Invocation,
    cap: Seq<(Seq<char>, Seq<char>)>,
    k: int,
    n: Seq<char>,
    v: Seq<char>,
)
    requires
        inv.subcommand is None,
        cascade(m, 0, inv.vars@) == Some((k, n, v)),
    ensures
        dispatch_model(m, inv, cap) == (DispatchModel::Run {
            path: seq![k],
            captured: cap.push((n, v)),
            output_file: opt_view(inv.output_file),
            output_format: opt_view(inv.output_format),
        }),
{
}

/// Dispatch where a required chained variable is missing.
proof fn lemma_dispatch_missing(m: Seq<(Seq<char>, NodeModel)>, inv: Invocation, cap: Seq<(Seq<char>, Seq<char>)>, e: Seq<char>)
    requires
        inv.subcommand is Some,
        find_arm_from(m, 0, (inv.subcommand->0).0@) is Some,
        capture_chain(inv.vars@, (find_arm_from(m, 0, (inv.subcommand->0).0@)->0).1) == Err::<Seq<(Seq<char>, Seq<char>)>, Seq<char>>(e),
    ensures
        dispatch_model(m, inv, cap) == (DispatchModel::Missing { name: e }),
{
}

/// Dispatch where no arm matches the chosen subcommand.
proof fn lemma_dispatch_help(m: Seq<(Seq<char>, NodeModel)>, inv: Invocation, cap: Seq<(Seq<char>, Seq<char>)>)
    requires
        inv.subcommand is Some,
        find_arm_from(m, 0, (inv.subcommand->0).0@) is None,
    ensures
        dispatch_model(m, inv, cap) == DispatchModel::Help,
{
}

/// Dispatch through a matched arm: the walk continues below the matched
/// node, and the resolved path is prefixed with the way there.
proof fn lemma_dispatch_sub(m: Seq<(Seq<char>, NodeModel)>, inv: Invocation, cap: Seq<(Seq<char>, Seq<char>)>)
    requires
        inv.subcommand is Some,
        find_arm_from(m, 0, (inv.subcommand->0).0@) is Some,
        capture_chain(inv.vars@, (find_arm_from(m, 0, (inv.subcommand->0).0@)->0).1) is Ok,
    ensures
        ({
            let (p, chain) = find_arm_from(m, 0, (inv.subcommand->0).0@)->0;
            let vals = capture_chain(inv.vars@, chain)->Ok_0;
            let sub = dispatch_model(node_at(m, p).children, *(inv.subcommand->0).1, cap + vals);
            dispatch_model(m, inv, cap) == match sub {
                DispatchModel::Run { path, captured: c2, output_file, output_format } => {
                    DispatchModel::Run { path: p + path, captured: c2, output_file, output_format }
                },
                o => o,
            }
        }),
{
}


/// How a parsed invocation spells out the trie path `path`: the chosen
/// subcommand names match the literal entries along the path (each the
/// first arm of its name, so no ambiguous sibling shadows it), every
/// variable on the way has its value, and below the target node no
/// further subcommand is chosen and no variable sibling fires first.
pub open spec fn spells(m: Seq<(Seq<char>, NodeModel)>, path: Seq<int>, inv: Invocation) -> bool
    decreases path.len(),
{
    if path.len() == 0 {
        &&& inv.subcommand is None
        &&& cascade(m, 0, inv.vars@) is None
    } else if path.len() == 1 && 0 <= path[0] < m.len() && is_var_spec(m[path[0]].0) {
        &&& inv.subcommand is None
        &&& exists|v: Seq<char>|
            cascade(m, 0, inv.vars@) == Some((path[0], var_name_spec(m[path[0]].0), v))
    } else {
        &&& inv.subcommand is Some
        &&& find_arm_from(m, 0, (inv.subcommand->0).0@) is Some
        &&& {
            let (p, chain) = find_arm_from(m, 0, (inv.subcommand->0).0@)->0;
            if 1 <= p.len() <= path.len() {
                &&& p == path.take(p.len() as int)
                &&& capture_chain(inv.vars@, chain) is Ok
                &&& spells(node_at(m, p).children, path.skip(p.len() as int), *(
                inv.subcommand->0).1)
            } else {
                false
            }
        }
    }
}

/// Round-trip dispatch: an invocation that spells out the path to a trie
/// node resolves to exactly that node, whatever was captured above.
pub proof fn lemma_round_trip(
    m: Seq<(Seq<char>, NodeModel)>,
    path: Seq<int>,
    inv: Invocation,
    cap: Seq<(Seq<char>, Seq<char>)>,
)
    requires
        spells(m, path, inv),
    ensures
        dispatch_model(m, inv, cap) matches DispatchModel::Run { path: rp, .. } && rp == path,
    decreases path.len(),
{
    if path.len() == 0 {
        lemma_dispatch_none(m, inv, cap);
        assert(dispatch_model(m, inv, cap)->Run_path =~= path);
    } else if path.len() == 1 && 0 <= path[0] < m.len() && is_var_spec(m[path[0]].0) {
        let v = choose|v: Seq<char>|
            cascade(m, 0, inv.vars@) == Some((path[0], var_name_spec(m[path[0]].0), v));
        lemma_dispatch_cascade(m, inv, cap, path[0], var_name_spec(m[path[0]].0), v);
        assert(dispatch_model(m, inv, cap)->Run_path =~= path);
    } else {
        let (p, chain) = find_arm_from(m, 0, (inv.subcommand->0).0@)->0;
        let vals = capture_chain(inv.vars@, chain)->Ok_0;
        lemma_dispatch_sub(m, inv, cap);
        lemma_round_trip(node_at(m, p).children, path.skip(p.len() as int), *(
        inv.subcommand->0).1, cap + vals);
        assert(p + path.skip(p.len() as int) =~= path);
    }
}


/// Whether an outcome stays inside the trie.
pub open spec fn outcome_in_trie(m: Seq<(Seq<char>, NodeModel)>, r: DispatchModel) -> bool {
    r is Run ==> valid_path(m, r->Run_path)
}

/// A resolved dispatch never points outside the trie: the path of every
/// `Run` outcome descends through existing entries.
#[verifier::rlimit(50)]
#[verifier::spinoff_prover]
pub proof fn lemma_dispatch_path_valid(
    m: Seq<(Seq<char>, NodeModel)>,
    inv: Invocation,
    cap: Seq<(Seq<char>, Seq<char>)>,
)
    ensures
        outcome_in_trie(m, dispatch_model(m, inv, cap)),
    decreases inv,
{
    match inv.subcommand {
        Some((name, sub)) => {
            match find_arm_from(m, 0, name@) {
                None => {
                    lemma_dispatch_help(m, inv, cap);
                    assert(outcome_in_trie(m, dispatch_model(m, inv, cap)));
                },
                Some((p, chain)) => {
                    lemma_find_arm_valid(m, 0, name@);
                    match capture_chain(inv.vars@, chain) {
                        Err(e) => {
                            lemma_dispatch_missing(m, inv, cap, e);
                            assert(outcome_in_trie(m, dispatch_model(m, inv, cap)));
                        },
                        Ok(vals) => {
                            lemma_dispatch_sub(m, inv, cap);
                            lemma_dispatch_path_valid(node_at(m, p).children, *sub, cap + vals);
                            assert(p.len() >= 1);
                            assert(valid_path(m, p));
                            match dispatch_model(node_at(m, p).children, *sub, cap + vals) {
                                DispatchModel::Run { path: p2, .. } => {
                                    assert(valid_path(node_at(m, p).children, p2));
                                    lemma_valid_path_concat(m, p, p2);
                                    assert(valid_path(m, p + p2));
                                    assert(dispatch_model(m, inv, cap)->Run_path == p + p2);
                                    assert(outcome_in_trie(m, dispatch_model(m, inv, cap)));
                                },
                                _ => {
                                    assert(outcome_in_trie(m, dispatch_model(m, inv, cap)));
                                },
                            }
                        },
                    }
                },
            }
            assert(outcome_in_trie(m, dispatch_model(m, inv, cap)));
        },
        None => {
            match cascade(m, 0, inv.vars@) {
                Some((k, n, v)) => {
                    lemma_dispatch_cascade(m, inv, cap, k, n, v);
                    lemma_cascade_in_bounds(m, 0, inv.vars@);
                    assert(seq![k].first() == k);
                    assert(seq![k].drop_first() =~= Seq::<int>::empty());
                    assert(valid_path(m[k].1.children, seq![k].drop_first()));
                    assert(valid_path(m, seq![k]));
                    assert(outcome_in_trie(m, dispatch_model(m, inv, cap)));
                },
                None => {
                    lemma_dispatch_none(m, inv, cap);
                    assert(valid_path(m, Seq::<int>::empty()));
                    assert(outcome_in_trie(m, dispatch_model(m, inv, cap)));
                },
            }
            assert(outcome_in_trie(m, dispatch_model(m, inv, cap)));
        },
    }
}

/// A valid path through a node extends by any valid path below it.
proof fn lemma_valid_path_concat(m: Seq<(Seq<char>, NodeModel)>, p: Seq<int>, q: Seq<int>)
    requires
        p.len() >= 1,
        valid_path(m, p),
        valid_path(node_at(m, p).children, q),
    ensures
        valid_path(m, p + q),
    decreases p.len(),
{
    if p.len() == 1 {
        assert((p + q).first() == p.first());
        assert((p + q).drop_first() =~= q);
    } else {
        assert(p.drop_first().len() >= 1);
        assert(node_at(m, p) == node_at(m[p.first()].1.children, p.drop_first()));
        lemma_valid_path_concat(m[p.first()].1.children, p.drop_first(), q);
        assert((p + q).first() == p.first());
        assert((p + q).drop_first() =~= p.drop_first() + q);
    }
}

/// A firing cascade points at an existing entry.
proof fn lemma_cascade_in_bounds(
    m: Seq<(Seq<char>, NodeModel)>,
    k: int,
    vars: Seq<(String, String)>,
)
    requires
        cascade(m, k, vars) is Some,
    ensures
        0 <= (cascade(m, k, vars)->0).0 < m.len(),
    decreases m.len() - k,
{
    if k < 0 || k >= m.len() {
    } else {
        let key = m[k].0;
        let node = m[k].1;
        if is_var_spec(key) && node.eps.len() > 0 && vars_lookup(vars, var_name_spec(key))
            is Some {
        } else {
            lemma_cascade_in_bounds(m, k + 1, vars);
        }
    }
}

/// The value stored for `name` at this level, if any.
pub fn var_lookup(vars: &Vec<(String, String)>, name: &str) -> (r: Option<String>)
    ensures
        opt_view(r) == vars_lookup(vars@, name@),
    decreases vars@.len(),
{
    proof {
        assert(vars@.skip(0) =~= vars@);
    }
    let mut i: usize = 0;
    while i < vars.len()
        invariant
            0 <= i <= vars@.len(),
            vars_lookup(vars@, name@) == vars_lookup(vars@.skip(i as int), name@),
        decreases vars@.len() - i,
    {
        proof {
            assert(vars@.skip(i as int).first() == vars@[i as int]);
            assert(vars@.skip(i as int).drop_first() =~= vars@.skip(i + 1));
        }
        if str_eq(vars[i].0.as_str(), name) {
            return Some(vars[i].1.clone());
        }
        i = i + 1;
    }
    proof {
        assert(vars@.skip(vars@.len() as int).len() == 0);
    }
    None
}

/// A found arm's path leads through existing entries to its node.
proof fn lemma_find_arm_valid(m: Seq<(Seq<char>, NodeModel)>, k: int, name: Seq<char>)
    requires
        find_arm_from(m, k, name) is Some,
    ensures
        ({
            let (p, c) = find_arm_from(m, k, name)->0;
            &&& p.len() >= 1
            &&& valid_path(m, p)
            &&& c.len() == p.len() - 1
        }),
    decreases m, m.len() - k,
{
    if k < 0 || k >= m.len() {
    } else {
        let key = m[k].0;
        let node = m[k].1;
        if is_var_spec(key) {
            if find_arm_from(node.children, 0, name) is Some {
                lemma_find_arm_valid(node.children, 0, name);
                let (p, c) = find_arm_from(node.children, 0, name)->0;
                let p1 = seq![k] + p;
                assert(p1.first() == k);
                assert(p1.drop_first() =~= p);
                assert(valid_path(m, p1));
            } else {
                lemma_find_arm_valid(m, k + 1, name);
            }
        } else if key == name {
            let p1 = seq![k];
            assert(p1.first() == k);
            assert(p1.drop_first() =~= Seq::<int>::empty());
            assert(valid_path(m[k].1.children, Seq::<int>::empty()));
            assert(valid_path(m, p1));
        } else {
            lemma_find_arm_valid(m, k + 1, name);
        }
    }
}

/// The match arm for `name` at this trie level, if any: the index path to
/// the matched literal node and the variable names to capture on the way.
fn find_arm(map: &Emap, name: &String) -> (r: Option<(Vec<usize>, Vec<String>)>)
    ensures
        match r {
            Some((p, c)) => find_arm_from(emap_model(*map), 0, name@) == Some(
                (path_view(p@), c.deep_view()),
            ),
            None => find_arm_from(emap_model(*map), 0, name@) is None,
        },
    decreases *map,
{
    broadcast use lemma_emap_model_len, lemma_emap_model_index;

    let ghost m = emap_model(*map);
    let mut k: usize = 0;
    while k < map.len()
        invariant
            0 <= k <= map@.len(),
            m == emap_model(*map),
            find_arm_from(m, 0, name@) == find_arm_from(m, k as int, name@),
        decreases map@.len() - k,
    {
        broadcast use lemma_emap_model_len, lemma_emap_model_index;

        let key = &map[k].0;
        let node = &map[k].1;
        match strip_var(key.as_str()) {
            Some(var) => {
                match find_arm(&node.route, name) {
                    Some((mut p, mut c)) => {
                        p.insert(0, k);
                        c.insert(0, String::from_str(var));
                        proof {
                            assert(path_view(p@) =~= seq![k as int] + path_view(
                                p@.drop_first(),
                            ));
                            assert(path_view(p@.drop_first()) =~= path_view(p@).drop_first());
                            assert(c.deep_view() =~= seq![var_name_spec(key@)] + c.deep_view()
                                .drop_first());
                            let (p0, c0) = find_arm_from(node_model(map@[k as int].1).children, 0, name@)->0;
                            assert(path_view(p@).drop_first() =~= p0);
                            assert(c.deep_view().drop_first() =~= c0);
                            assert(find_arm_from(m, k as int, name@) == Some(
                                (path_view(p@), c.deep_view()),
                            ));
                        }
                        return Some((p, c));
                    },
                    None => {},
                }
            },
            None => {
                if str_eq(key.as_str(), name.as_str()) {
                    let mut p: Vec<usize> = Vec::new();
                    p.push(k);
                    let c: Vec<String> = Vec::new();
                    proof {
                        assert(path_view(p@) =~= seq![k as int]);
                        assert(c.deep_view() =~= Seq::<Seq<char>>::empty());
                    }
                    return Some((p, c));
                }
            },
        }
        k = k + 1;
    }
    None
}

/// The trie node at the path suffix starting at `i`.
fn node_at_exec<'a>(map: &'a Emap, path: &Vec<usize>, i: usize) -> (r: &'a EpNode)
    requires
        0 <= i < path@.len(),
        valid_path(emap_model(*map), path_view(path@).skip(i as int)),
    ensures
        node_model(*r) == node_at(emap_model(*map), path_view(path@).skip(i as int)),
    decreases path@.len() - i,
{
    broadcast use lemma_emap_model_len, lemma_emap_model_index;

    let ghost suffix = path_view(path@).skip(i as int);
    proof {
        assert(suffix.first() == path@[i as int] as int);
        assert(suffix.drop_first() =~= path_view(path@).skip(i + 1));
    }
    let n = path.len();
    proof {
        assert(i < n);
    }
    let k = path[i];
    let node = &map[k].1;
    if i + 1 == n {
        node
    } else {
        node_at_exec(&node.route, path, i + 1)
    }
}

/// Capturing a single variable.
proof fn lemma_capture_singleton(vars: Seq<(String, String)>, x: Seq<char>)
    ensures
        capture_chain(vars, seq![x]) == match vars_lookup(vars, x) {
            None => Err::<Seq<(Seq<char>, Seq<char>)>, Seq<char>>(x),
            Some(v) => Ok(seq![(x, v)]),
        },
{
    reveal_with_fuel(capture_chain, 3);
    assert(seq![x].first() == x);
    assert(seq![x].drop_first() =~= Seq::<Seq<char>>::empty());
    match vars_lookup(vars, x) {
        None => {},
        Some(v) => {
            assert(capture_chain(vars, Seq::<Seq<char>>::empty()) == Ok::<
                Seq<(Seq<char>, Seq<char>)>,
                Seq<char>,
            >(Seq::empty()));
            assert(seq![(x, v)] + Seq::<(Seq<char>, Seq<char>)>::empty() =~= seq![(x, v)]);
        },
    }
}

/// Splitting a chain: the combined captures are the captures of the two
/// parts in order, and the first missing variable decides the error.
proof fn lemma_capture_chain_split(
    vars: Seq<(String, String)>,
    chain: Seq<Seq<char>>,
    i: int,
)
    requires
        0 <= i < chain.len(),
        capture_chain(vars, chain.take(i)) is Ok,
    ensures
        capture_chain(vars, chain) == match vars_lookup(vars, chain[i]) {
            None => Err::<Seq<(Seq<char>, Seq<char>)>, Seq<char>>(chain[i]),
            Some(v) => match capture_chain(vars, chain.take(i + 1)) {
                Ok(pre) => match capture_chain(vars, chain.skip(i + 1)) {
                    Ok(rest) => Ok(pre + rest),
                    Err(e) => Err(e),
                },
                Err(e) => Err(e),
            },
        },
        vars_lookup(vars, chain[i]) is Some ==> capture_chain(vars, chain.take(i + 1))
            == match capture_chain(vars, chain.take(i)) {
            Ok(pre) => Ok(pre.push((chain[i], vars_lookup(vars, chain[i])->0))),
            Err(e) => Err(e),
        },
    decreases chain.len(),
{
    lemma_capture_concat(vars, chain.take(i + 1), chain.skip(i + 1));
    lemma_capture_concat(vars, chain.take(i), chain.skip(i));
    assert(chain.take(i + 1) + chain.skip(i + 1) =~= chain);
    assert(chain.take(i) + chain.skip(i) =~= chain);
    assert(chain.skip(i).first() == chain[i]);
    assert(chain.skip(i).drop_first() =~= chain.skip(i + 1));
    lemma_capture_concat(vars, chain.take(i), seq![chain[i]]);
    assert(chain.take(i) + seq![chain[i]] =~= chain.take(i + 1));
    lemma_capture_singleton(vars, chain[i]);
    if vars_lookup(vars, chain[i]) is Some {
        let v = vars_lookup(vars, chain[i])->0;
        let pre = capture_chain(vars, chain.take(i))->Ok_0;
        assert(pre + seq![(chain[i], v)] =~= pre.push((chain[i], v)));
    }
}

/// Captures of a concatenated chain combine the captures of its parts.
proof fn lemma_capture_concat(
    vars: Seq<(String, String)>,
    a: Seq<Seq<char>>,
    b: Seq<Seq<char>>,
)
    ensures
        capture_chain(vars, a + b) == match capture_chain(vars, a) {
            Err(e) => Err::<Seq<(Seq<char>, Seq<char>)>, Seq<char>>(e),
            Ok(va) => match capture_chain(vars, b) {
                Err(e) => Err(e),
                Ok(vb) => Ok(va + vb),
            },
        },
    decreases a.len(),
{
    if a.len() == 0 {
        assert(a + b =~= b);
        if capture_chain(vars, b) is Ok {
            assert(Seq::<(Seq<char>, Seq<char>)>::empty() + capture_chain(vars, b)->Ok_0
                =~= capture_chain(vars, b)->Ok_0);
        }
    } else {
        lemma_capture_concat(vars, a.drop_first(), b);
        assert((a + b).first() == a.first());
        assert((a + b).drop_first() =~= a.drop_first() + b);
        match vars_lookup(vars, a.first()) {
            None => {},
            Some(v) => {
                match capture_chain(vars, a.drop_first()) {
                    Err(_) => {},
                    Ok(ra) => {
                        match capture_chain(vars, b) {
                            Err(_) => {},
                            Ok(rb) => {
                                assert(seq![(a.first(), v)] + (ra + rb) =~= (seq![
                                    (a.first(), v),
                                ] + ra) + rb);
                            },
                        }
                    },
                }
            },
        }
    }
}

/// Walk the parsed invocation against the trie level `map`, extending the
/// captured variables, and resolve it as [`dispatch_model`] describes.
#[verifier::loop_isolation(false)]
pub fn argmatches_rec(map: &Emap, inv: &Invocation, captured: Vec<(String, String)>) -> (r:
    DispatchOutcome)
    ensures
        out_view(r) == dispatch_model(emap_model(*map), *inv, cap_view(captured@)),
    decreases *inv,
{
    broadcast use lemma_emap_model_len, lemma_emap_model_index;

    let ghost m = emap_model(*map);
    match &inv.subcommand {
        Some(pair) => {
            let name = &pair.0;
            match find_arm(map, name) {
                None => {
                    proof {
                        lemma_dispatch_help(m, *inv, cap_view(captured@));
                    }
                    DispatchOutcome::Help
                },
                Some((path, chain)) => {
                    proof {
                        lemma_find_arm_valid(m, 0, name@);
                    }
                    let ghost chain_v = chain.deep_view();
                    let mut captured = captured;
                    let ghost cap0 = cap_view(captured@);
                    let mut ci: usize = 0;
                    while ci < chain.len()
                        invariant
                            0 <= ci <= chain_v.len(),
                            chain_v == chain.deep_view(),
                            chain@.len() == chain_v.len(),
                            capture_chain(inv.vars@, chain_v.take(ci as int)) is Ok,
                            cap_view(captured@) == cap0 + capture_chain(
                                inv.vars@,
                                chain_v.take(ci as int),
                            )->Ok_0,
                        decreases chain_v.len() - ci,
                    {
                        proof {
                            assert(chain_v[ci as int] == chain@[ci as int]@);
                        }
                        match var_lookup(&inv.vars, chain[ci].as_str()) {
                            None => {
                                proof {
                                    lemma_capture_chain_split(inv.vars@, chain_v, ci as int);
                                    assert(capture_chain(inv.vars@, chain_v) == Err::<
                                        Seq<(Seq<char>, Seq<char>)>,
                                        Seq<char>,
                                    >(chain_v[ci as int]));
                                    lemma_dispatch_missing(m, *inv, cap0, chain_v[ci as int]);
                                }
                                return DispatchOutcome::Missing { name: chain[ci].clone() };
                            },
                            Some(v) => {
                                proof {
                                    lemma_capture_chain_split(inv.vars@, chain_v, ci as int);
                                }
                                let name_c = chain[ci].clone();
                                let ghost v_spec = vars_lookup(inv.vars@, chain_v[ci as int])->0;
                                let ghost pre = capture_chain(
                                    inv.vars@,
                                    chain_v.take(ci as int),
                                )->Ok_0;
                                captured.push((name_c, v));
                                proof {
                                    assert(capture_chain(inv.vars@, chain_v.take(ci + 1))
                                        == Ok::<Seq<(Seq<char>, Seq<char>)>, Seq<char>>(
                                        pre.push((chain_v[ci as int], v_spec)),
                                    ));
                                    assert(name_c@ == chain_v[ci as int]);
                                    assert(v@ == v_spec);
                                    assert(cap_view(captured@) =~= (cap0 + pre).push(
                                        (chain_v[ci as int], v_spec),
                                    ));
                                    assert(cap0 + pre.push((chain_v[ci as int], v_spec)) =~= (cap0
                                        + pre).push((chain_v[ci as int], v_spec)));
                                    assert(cap_view(captured@) == cap0 + capture_chain(
                                        inv.vars@,
                                        chain_v.take(ci + 1),
                                    )->Ok_0);
                                }
                            },
                        }
                        ci = ci + 1;
                    }
                    proof {
                        assert(chain_v.take(chain_v.len() as int) =~= chain_v);
                        lemma_dispatch_sub(m, *inv, cap0);
                        assert(path_view(path@).skip(0) =~= path_view(path@));
                    }
                    let node = node_at_exec(map, &path, 0);
                    let sub = argmatches_rec(&node.route, &pair.1, captured);
                    match sub {
                        DispatchOutcome::Run {
                            path: p2,
                            captured: c2,
                            output_file,
                            output_format,
                        } => {
                            let mut full = path;
                            let mut j: usize = 0;
                            let ghost p2v = p2@;
                            let ghost fullv = full@;
                            while j < p2.len()
                                invariant
                                    0 <= j <= p2v.len(),
                                    p2@ == p2v,
                                    full@ == fullv + p2v.take(j as int),
                                decreases p2v.len() - j,
                            {
                                full.push(p2[j]);
                                proof {
                                    assert(full@ =~= fullv + p2v.take(j + 1));
                                }
                                j = j + 1;
                            }
                            proof {
                                assert(p2v.take(p2v.len() as int) =~= p2v);
                                assert(path_view(full@) =~= path_view(fullv) + path_view(p2v));
                            }
                            DispatchOutcome::Run {
                                path: full,
                                captured: c2,
                                output_file,
                                output_format,
                            }
                        },
                        o => o,
                    }
                },
            }
        },
        None => {
            let ghost cap_entry = captured@;
            let mut k: usize = 0;
            while k < map.len()
                invariant
                    0 <= k <= map@.len(),
                    m == emap_model(*map),
                    captured@ == cap_entry,
                    cascade(m, 0, inv.vars@) == cascade(m, k as int, inv.vars@),
                decreases map@.len() - k,
            {
                broadcast use lemma_emap_model_len, lemma_emap_model_index;

                let key = &map[k].0;
                let node = &map[k].1;
                if let Some(var) = strip_var(key.as_str()) {
                    if node.endpoint.len() > 0 {
                        if let Some(v) = var_lookup(&inv.vars, var) {
                            let mut p: Vec<usize> = Vec::new();
                            p.push(k);
                            let mut captured = captured;
                            captured.push((String::from_str(var), v));
                            proof {
                                assert(path_view(p@) =~= seq![k as int]);
                                assert(cascade(m, k as int, inv.vars@) == Some(
                                    (
                                        k as int,
                                        var_name_spec(key@),
                                        vars_lookup(inv.vars@, var_name_spec(key@))->0,
                                    ),
                                ));
                                assert(cap_view(captured@) =~= cap_view(cap_entry).push(
                                    (
                                        var_name_spec(key@),
                                        vars_lookup(inv.vars@, var_name_spec(key@))->0,
                                    ),
                                ));
                                lemma_dispatch_cascade(
                                    m,
                                    *inv,
                                    cap_view(cap_entry),
                                    k as int,
                                    var_name_spec(key@),
                                    vars_lookup(inv.vars@, var_name_spec(key@))->0,
                                );
                            }
                            return DispatchOutcome::Run {
                                path: p,
                                captured,
                                output_file: clone_opt(&inv.output_file),
                                output_format: clone_opt(&inv.output_format),
                            };
                        }
                    }
                }
                k = k + 1;
            }
            proof {
                assert(path_view(Seq::<usize>::empty()) =~= Seq::<int>::empty());
                lemma_dispatch_none(m, *inv, cap_view(cap_entry));
            }
            DispatchOutcome::Run {
                path: Vec::new(),
                captured,
                output_file: clone_opt(&inv.output_file),
                output_format: clone_opt(&inv.output_format),
            }
        },
    }
}

/// Resolve a parsed invocation against the route trie.
pub fn argmatches(map: &Emap, inv: &Invocation) -> (r: DispatchOutcome)
    ensures
        out_view(r) == dispatch_model(emap_model(*map), *inv, Seq::empty()),
{
    let r = argmatches_rec(map, inv, Vec::new());
    proof {
        assert(cap_view(Seq::<(String, String)>::empty()) =~= Seq::<(Seq<char>, Seq<char>)>::empty());
    }
    r
}

/// A copy of an optional string.
fn clone_opt(o: &Option<String>) -> (r: Option<String>)
    ensures
        opt_view(r) == opt_view(*o),
{
    match o {
        Some(s) => Some(s.clone()),
        None => None,
    }
}

} // verus!
