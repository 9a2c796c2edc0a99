use vstd::prelude::*;

verus! {

/// The HTTP methods a route can be registered under.
#[allow(non_camel_case_types)]
#[derive(Clone, Copy, PartialEq, Eq, Structural, Debug)]
pub enum Method {
    GET,
    POST,
    PUT,
    DELETE,
}

} // verus!
