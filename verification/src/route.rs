use vstd::prelude::*;
use crate::method::Method;

verus! {

/// A handle to a registered endpoint handler.
///
/// The router only decides which handler answers a request; running it is the
/// caller's business. A handler is therefore carried as an opaque token that
/// the embedding application maps to its actual callable.
#[derive(Clone, Copy, PartialEq, Eq, Structural, Debug)]
pub struct Handler {
    pub id: u64,
}

impl Handler {
    pub fn new(id: u64) -> (r: Handler)
        ensures
            r.id == id,
    {
        Handler { id }
    }
}

/// A handle to a registered middleware, opaque to the router in the same way
/// a [`Handler`] is.
#[derive(Clone, Copy, PartialEq, Eq, Structural, Debug)]
pub struct Middleware {
    pub id: u64,
}

impl Middleware {
    pub fn new(id: u64) -> (r: Middleware)
        ensures
            r.id == id,
    {
        Middleware { id }
    }
}

/// One registered endpoint: the method it answers and the handler that runs.
/// Created at registration and immutable thereafter.
#[derive(Clone, Copy, PartialEq, Eq, Structural, Debug)]
pub struct Route {
    pub method: Method,
    pub handler: Handler,
}

impl Route {
    pub fn new(method: Method, handler: Handler) -> (r: Route)
        ensures
            r.method == method,
            r.handler == handler,
    {
        Route { method, handler }
    }
}

} // verus!
