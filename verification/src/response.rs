//! The empty response and the placeholder conversion source.

use vstd::prelude::*;

verus! {

/// An empty response body: endpoints that return nothing use it as their
/// result type.
#[derive(PartialEq, Eq, Structural, Debug)]
pub struct EmptyResponse {
}

/// The placeholder source type for endpoints that declare no conversion:
/// converting from it always fails.
pub struct DummyTryFrom {
}

impl EmptyResponse {
    /// No table columns.
    pub fn to_table_header(&self) -> (r: Vec<String>)
        ensures
            r@ == Seq::<String>::empty(),
    {
        Vec::new()
    }

    /// No table cells.
    pub fn to_table(&self) -> (r: Result<Vec<String>, String>)
        ensures
            r is Ok && r->Ok_0@ == Seq::<String>::empty(),
    {
        Ok(Vec::new())
    }

    /// No rendered output.
    pub fn to_output(&self) -> (r: Result<String, String>)
        ensures
            r is Ok && r->Ok_0@ == Seq::<char>::empty(),
    {
        Ok(String::new())
    }

    /// The placeholder conversion: never succeeds.
    pub fn try_from(_value: DummyTryFrom) -> (r: Result<EmptyResponse, String>)
        ensures
            r is Err && r->Err_0@ == Seq::<char>::empty(),
    {
        Err(String::new())
    }
}

} // verus!
