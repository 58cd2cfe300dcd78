//! The endpoint registry.
//!
//! Endpoints are collected into one in-memory store during the registration
//! phase; the store folds each endpoint's CLI route into the route trie and
//! keeps the declared input descriptors, keyed by type name.

use vstd::prelude::*;
use crate::endpoint::ApiInputConfig;
use crate::endpoint::Emap;
use crate::endpoint::Endpoint;
use crate::endpoint::NodeModel;
use crate::endpoint::emap_model;
use crate::endpoint::any_segment;
use crate::endpoint::emap_wf;
use crate::endpoint::has_real_segment;
use crate::endpoint::insert_endpoint;
use crate::endpoint::insert_model;
use crate::strings::split_on;
use crate::strings::split_sep;

verus! {

/// A declared input type: how one payload or query type maps to CLI
/// arguments.
pub struct ApiInputSerde {
    pub ident: String,
    pub data: DataSerde,
    pub no_input_file: bool,
    pub heading: Option<String>,
    pub prefix: Option<String>,
    pub config: Vec<ApiInputConfig>,
}

/// The shape of a declared input type: an enum of variants or a struct of
/// fields.
pub enum DataSerde {
    Enum(Vec<ApiInputVariantSerde>),
    Struct(Vec<ApiInputFieldSerde>),
}

/// One field of a declared input struct.
pub struct ApiInputFieldSerde {
    pub ident: Option<String>,
    pub ty: String,
    pub long: Option<String>,
    pub short: Option<char>,
    pub no_short: Option<bool>,
    pub heading: Option<String>,
    pub help: Option<String>,
    pub long_help: Option<String>,
    pub possible_values: Option<Vec<String>>,
    pub required: Option<bool>,
    pub num_args: Option<String>,
}

/// One variant of a declared input enum.
pub struct ApiInputVariantSerde {
    pub ident: String,
    pub fields: Vec<String>,
    pub long: Option<String>,
    pub short: Option<char>,
    pub no_short: bool,
    pub heading: Option<String>,
    pub help: Option<String>,
    pub long_help: Option<String>,
}

/// What splitting a route on `/` yields.
pub open spec fn split_slash(s: Seq<char>) -> Seq<Seq<char>> {
    split_sep(s, '/')
}

/// Split a CLI or wire route on `/`, as [`split_slash`] describes.
pub fn split_route(s: &str) -> (r: Vec<String>)
    ensures
        r.deep_view() == split_slash(s@),
{
    split_on(s, '/')
}

/// Reverse a segment list, so that the first segment to consume comes last.
pub fn reverse_segments(v: Vec<String>) -> (r: Vec<String>)
    ensures
        r.deep_view() == v.deep_view().reverse(),
{
    let ghost v0 = v;
    let mut v = v;
    let mut r: Vec<String> = Vec::new();
    while v.len() > 0
        invariant
            v@ == v0@.subrange(0, v@.len() as int),
            r@.len() + v@.len() == v0@.len(),
            forall|i: int| 0 <= i < r@.len() ==> r@[i] == v0@[v0@.len() - 1 - i],
        decreases v.len(),
    {
        let s = v.pop().unwrap();
        r.push(s);
        proof {
            assert(v@ =~= v0@.subrange(0, v@.len() as int));
        }
    }
    assert(r.deep_view() =~= v0.deep_view().reverse());
    r
}

/// The append-only registry of endpoint specifications and input
/// descriptors, filled once at startup.
pub struct EndpointStore {
    /// The route trie over CLI path segments.
    pub ep: Emap,
    /// The endpoints of the root itself: those whose CLI route holds no
    /// segment at all (a bare `/`), which attach here rather than create
    /// a spurious child.
    pub root: Vec<Endpoint>,
    /// Declared input types, keyed by type name; keys are unique and keep
    /// their insertion order.
    pub inputs: Vec<(String, ApiInputSerde)>,
}



impl EndpointStore {
    pub open spec fn wf(self) -> bool {
        &&& emap_wf(self.ep)
        &&& forall|i: int, j: int|
            0 <= i < j < self.inputs@.len() ==> self.inputs@[i].0@ != self.inputs@[j].0@
    }

    /// An empty store.
    pub fn new() -> (r: EndpointStore)
        ensures
            r.wf(),
            emap_model(r.ep) == Seq::<(Seq<char>, NodeModel)>::empty(),
            r.root@ == Seq::<Endpoint>::empty(),
            r.inputs@ == Seq::<(String, ApiInputSerde)>::empty(),
    {
        let r = EndpointStore { ep: Vec::new(), root: Vec::new(), inputs: Vec::new() };
        proof {
            crate::endpoint::lemma_emap_model_len(r.ep);
            assert(emap_model(r.ep) =~= Seq::<(Seq<char>, NodeModel)>::empty());
        }
        r
    }

    /// The route trie built so far.
    pub fn endpoints(&self) -> (r: &Emap)
        ensures
            r == &self.ep,
    {
        &self.ep
    }

    /// The declared input types.
    pub fn input_map(&self) -> (r: &Vec<(String, ApiInputSerde)>)
        ensures
            r == &self.inputs,
    {
        &self.inputs
    }

    /// Register one endpoint: its CLI route is split on `/` and folded
    /// into the route trie, first segment consumed first.  A route with
    /// no segment at all attaches the endpoint to the root.
    pub fn store_endpoint(&mut self, epoint: Endpoint)
        requires
            old(self).wf(),
        ensures
            final(self).wf(),
            any_segment(split_slash(epoint.cli_route@)) ==> {
                &&& emap_model(final(self).ep) == insert_model(
                    emap_model(old(self).ep),
                    epoint,
                    split_slash(epoint.cli_route@).reverse(),
                )
                &&& final(self).root == old(self).root
            },
            !any_segment(split_slash(epoint.cli_route@)) ==> {
                &&& final(self).ep == old(self).ep
                &&& final(self).root@ == old(self).root@.push(epoint)
            },
            final(self).inputs == old(self).inputs,
    {
        let segments = split_route(epoint.cli_route.as_str());
        let has_segment = has_real_segment(&segments);
        proof {
            assert(segments.deep_view() == split_slash(epoint.cli_route@));
        }
        if !has_segment {
            self.root.push(epoint);
            return ;
        }
        let segments = reverse_segments(segments);
        let mut ep: Emap = Vec::new();
        core::mem::swap(&mut ep, &mut self.ep);
        self.ep = insert_endpoint(ep, epoint, segments);
    }

    /// Register one input type, replacing an earlier declaration of the
    /// same name in place.
    pub fn store_input(&mut self, input: String, field: ApiInputSerde)
        requires
            old(self).wf(),
        ensures
            final(self).wf(),
            final(self).ep == old(self).ep,
            input_lookup(final(self).inputs@, input@) == Some(field),
            forall|k: Seq<char>|
                k != input@ ==> input_lookup(final(self).inputs@, k) == input_lookup(
                    old(self).inputs@,
                    k,
                ),
    {
        let ghost m0 = old(self).inputs@;
        match find_input(&self.inputs, &input) {
            Some(i) => {
                let ghost key = input@;
                self.inputs[i] = (input, field);
                proof {
                    let m1 = self.inputs@;
                    assert(m1 =~= m0.update(i as int, (input, field)));
                    assert(m0[i as int].0@ == key);
                    assert forall|a: int, b: int|
                        0 <= a < b < m1.len() implies m1[a].0@ != m1[b].0@ by {
                        assert(m0[a].0@ != m0[b].0@);
                    }
                    lemma_lookup_unique(m1, key, i as int);
                    assert forall|k: Seq<char>|
                        k != key implies input_lookup(m1, k) == input_lookup(m0, k) by {
                        if exists|j: int| 0 <= j < m0.len() && m0[j].0@ == k {
                            let j = choose|j: int| 0 <= j < m0.len() && m0[j].0@ == k;
                            assert(m1[j].0@ == k);
                            lemma_lookup_unique(m0, k, j);
                            lemma_lookup_unique(m1, k, j);
                        } else {
                            assert(forall|j: int| 0 <= j < m1.len() ==> m1[j].0@ != k);
                        }
                    }
                }
            },
            None => {
                let ghost key = input@;
                self.inputs.push((input, field));
                proof {
                    let m1 = self.inputs@;
                    assert forall|a: int, b: int|
                        0 <= a < b < m1.len() implies m1[a].0@ != m1[b].0@ by {
                        if b < m0.len() {
                            assert(m0[a].0@ != m0[b].0@);
                        }
                    }
                    lemma_lookup_unique(m1, key, m0.len() as int);
                    assert forall|k: Seq<char>|
                        k != key implies input_lookup(m1, k) == input_lookup(m0, k) by {
                        if exists|j: int| 0 <= j < m0.len() && m0[j].0@ == k {
                            let j = choose|j: int| 0 <= j < m0.len() && m0[j].0@ == k;
                            assert(m1[j].0@ == k);
                            lemma_lookup_unique(m0, k, j);
                            lemma_lookup_unique(m1, k, j);
                        } else {
                            assert(forall|j: int| 0 <= j < m1.len() ==> m1[j].0@ != k);
                        }
                    }
                }
            },
        }
    }
}

/// The index of the entry of `v` keyed by `key`, if any.
fn find_input(v: &Vec<(String, ApiInputSerde)>, key: &String) -> (r: Option<usize>)
    ensures
        match r {
            Some(i) => 0 <= i < v@.len() && v@[i as int].0@ == key@,
            None => forall|j: int| 0 <= j < v@.len() ==> v@[j].0@ != key@,
        },
{
    let mut i: usize = 0;
    while i < v.len()
        invariant
            0 <= i <= v@.len(),
            forall|j: int| 0 <= j < i ==> v@[j].0@ != key@,
        decreases v@.len() - i,
    {
        if v[i].0.eq(key) {
            return Some(i);
        }
        i = i + 1;
    }
    None
}

/// The descriptor registered under `k`, if any.  Keys of the input list
/// are unique, so the entry is determined.
pub open spec fn input_lookup(m: Seq<(String, ApiInputSerde)>, k: Seq<char>) -> Option<
    ApiInputSerde,
> {
    if exists|i: int| 0 <= i < m.len() && m[i].0@ == k {
        Some(m[choose|i: int| 0 <= i < m.len() && m[i].0@ == k].1)
    } else {
        None
    }
}

/// With unique keys, the lookup of the key at `i` yields the value at `i`.
proof fn lemma_lookup_unique(m: Seq<(String, ApiInputSerde)>, k: Seq<char>, i: int)
    requires
        forall|a: int, b: int| 0 <= a < b < m.len() ==> m[a].0@ != m[b].0@,
        0 <= i < m.len(),
        m[i].0@ == k,
    ensures
        input_lookup(m, k) == Some(m[i].1),
{
    let j = choose|j: int| 0 <= j < m.len() && m[j].0@ == k;
    if j != i {
        if j < i {
            assert(m[j].0@ != m[i].0@);
        } else {
            assert(m[i].0@ != m[j].0@);
        }
    }
}

} // verus!
