use vstd::prelude::*;
use vstd::string::StringExecFns;
use crate::error::ObsidianError;
use crate::method::Method;
use crate::model::{spec_can_insert, spec_insert, spec_replay, spec_search, wf, RegAction, SpecTrie};
use crate::resource::{spec_parse, spec_split, SpecResource};
use crate::route::{Handler, Middleware, Route};
use crate::trie::{RouteTrie, RouteValueResult};

verus! {

/// The public face of the router: binds HTTP methods to trie insertion,
/// attaches middleware, mounts sub-routers, and resolves incoming paths.
///
/// Registration is a setup phase: it must finish before lookups serve
/// traffic, and a refused registration reports its conflict without touching
/// the tree.
pub struct Router {
    pub routes: RouteTrie,
}

impl View for Router {
    type V = SpecTrie;

    open spec fn view(&self) -> SpecTrie {
        self.routes@
    }
}

impl Router {
    pub fn new() -> (r: Router)
        ensures
            r@ == crate::model::empty_trie(),
            wf(r@),
    {
        Router { routes: RouteTrie::new() }
    }

    /// Registers a handler for `GET` on the path's pattern.
    pub fn get(&mut self, path: &str, handler: Handler) -> (r: Result<(), ObsidianError>)
        requires
            wf(old(self)@),
        ensures
            wf(final(self)@),
            insert_route_contract(old(self)@, final(self)@, path@, Method::GET, handler, r),
    {
        self.insert_route(Method::GET, path, handler)
    }

    /// Registers a handler for `POST` on the path's pattern.
    pub fn post(&mut self, path: &str, handler: Handler) -> (r: Result<(), ObsidianError>)
        requires
            wf(old(self)@),
        ensures
            wf(final(self)@),
            insert_route_contract(old(self)@, final(self)@, path@, Method::POST, handler, r),
    {
        self.insert_route(Method::POST, path, handler)
    }

    /// Registers a handler for `PUT` on the path's pattern.
    pub fn put(&mut self, path: &str, handler: Handler) -> (r: Result<(), ObsidianError>)
        requires
            wf(old(self)@),
        ensures
            wf(final(self)@),
            insert_route_contract(old(self)@, final(self)@, path@, Method::PUT, handler, r),
    {
        self.insert_route(Method::PUT, path, handler)
    }

    /// Registers a handler for `DELETE` on the path's pattern.
    pub fn delete(&mut self, path: &str, handler: Handler) -> (r: Result<(), ObsidianError>)
        requires
            wf(old(self)@),
        ensures
            wf(final(self)@),
            insert_route_contract(old(self)@, final(self)@, path@, Method::DELETE, handler, r),
    {
        self.insert_route(Method::DELETE, path, handler)
    }

    /// Applies middleware to the given route and everything below it.
    pub fn use_service_to(&mut self, path: &str, middleware: Middleware) -> (r: Result<
        (),
        ObsidianError,
    >)
        requires
            wf(old(self)@),
        ensures
            wf(final(self)@),
            match r {
                Ok(()) => spec_can_insert(
                    old(self)@,
                    spec_parse(path@),
                    0,
                    RegAction::AddMw(middleware),
                ) is Ok && final(self)@ == spec_insert(
                    old(self)@,
                    spec_parse(path@),
                    0,
                    RegAction::AddMw(middleware),
                ),
                Err(e) => spec_can_insert(
                    old(self)@,
                    spec_parse(path@),
                    0,
                    RegAction::AddMw(middleware),
                ) == Result::<(), ObsidianError>::Err(e) && final(self)@ == old(self)@,
            },
    {
        self.routes.insert_middleware(path, middleware)
    }

    /// Applies middleware at the root, inherited by every route.
    pub fn use_service(&mut self, middleware: Middleware)
        requires
            wf(old(self)@),
        ensures
            wf(final(self)@),
            final(self)@ == spec_insert(
                old(self)@,
                Seq::<SpecResource>::empty(),
                0,
                RegAction::AddMw(middleware),
            ),
            final(self)@.mws == old(self)@.mws.push(middleware),
    {
        self.routes.insert_default_middleware(middleware)
    }

    /// Serves static files below a virtual path: registers the handler for
    /// `GET` on the virtual path extended by a wildcard, so the remainder of
    /// a request path reaches the handler as the wildcard capture.
    pub fn use_static_to(&mut self, virtual_path: &str, handler: Handler) -> (r: Result<
        (),
        ObsidianError,
    >)
        requires
            wf(old(self)@),
        ensures
            wf(final(self)@),
            insert_route_contract(
                old(self)@,
                final(self)@,
                virtual_path@ + seq!['/', '*'],
                Method::GET,
                handler,
                r,
            ),
    {
        let mut path = String::from_str(virtual_path);
        path.append("/*");
        proof {
            reveal_strlit("/*");
            assert(path@ =~= virtual_path@ + seq!['/', '*']);
        }
        self.insert_route(Method::GET, path.as_str(), handler)
    }

    /// Serves static files with the directory path as the route.
    pub fn use_static(&mut self, dir_path: &str, handler: Handler) -> (r: Result<
        (),
        ObsidianError,
    >)
        requires
            wf(old(self)@),
        ensures
            wf(final(self)@),
            insert_route_contract(
                old(self)@,
                final(self)@,
                dir_path@ + seq!['/', '*'],
                Method::GET,
                handler,
                r,
            ),
    {
        self.use_static_to(dir_path, handler)
    }

    /// Mounts another router below the path: every registration the other
    /// router holds is replayed here under the mount prefix, and any
    /// collision fails exactly as direct registration would, leaving this
    /// router untouched.
    pub fn use_router(&mut self, path: &str, other: Router) -> (r: Result<(), ObsidianError>)
        requires
            wf(old(self)@),
        ensures
            wf(final(self)@),
            match r {
                Ok(()) => spec_replay(
                    old(self)@,
                    crate::model::spec_flatten(other@, spec_parse(path@)),
                    0,
                ) == Result::<SpecTrie, ObsidianError>::Ok(final(self)@),
                Err(e) => spec_replay(
                    old(self)@,
                    crate::model::spec_flatten(other@, spec_parse(path@)),
                    0,
                ) == Result::<SpecTrie, ObsidianError>::Err(e) && final(self)@ == old(self)@,
            },
    {
        self.routes.insert_sub_route(path, &other.routes)
    }

    /// Resolves a concrete path: the routes at the matched node, the
    /// middleware chain inherited from every ancestor scope, and the bound
    /// parameters. A dead end is `RouteNotFound`, as is a bare node that
    /// holds no route and whose resolved chain holds no middleware.
    pub fn search_route(&self, path: &str) -> (r: Result<RouteValueResult, ObsidianError>)
        ensures
            match r {
                Ok(rv) => spec_search(self@, spec_split(path@), 0) == Some(rv@) && (rv@.routes.len()
                    > 0 || rv@.mws.len() > 0),
                Err(e) => e == ObsidianError::RouteNotFound && match spec_search(
                    self@,
                    spec_split(path@),
                    0,
                ) {
                    Some(m) => m.routes.len() == 0 && m.mws.len() == 0,
                    None => true,
                },
            },
    {
        self.routes.search_route(path)
    }

    fn insert_route(&mut self, method: Method, path: &str, handler: Handler) -> (r: Result<
        (),
        ObsidianError,
    >)
        requires
            wf(old(self)@),
        ensures
            wf(final(self)@),
            insert_route_contract(old(self)@, final(self)@, path@, method, handler, r),
    {
        let route = Route::new(method, handler);
        self.routes.insert_route(path, route)
    }
}

impl Clone for Router {
    /// Cloning a router copies its whole tree; the copy answers every
    /// lookup as the original does.
    fn clone(&self) -> (r: Self)
        ensures
            r@ == self@,
    {
        Router { routes: self.routes.clone() }
    }
}

impl Default for Router {
    fn default() -> (r: Self)
        ensures
            r@ == crate::model::empty_trie(),
            wf(r@),
    {
        Router::new()
    }
}

/// What registering one route promises: on success the tree is exactly the
/// model's insertion; a refusal names the conflict the model predicts and
/// changes nothing.
pub open spec fn insert_route_contract(
    pre: SpecTrie,
    post: SpecTrie,
    path: Seq<char>,
    method: Method,
    handler: Handler,
    r: Result<(), ObsidianError>,
) -> bool {
    let act = RegAction::AddRoute(Route { method, handler });
    match r {
        Ok(()) => spec_can_insert(pre, spec_parse(path), 0, act) is Ok && post == spec_insert(
            pre,
            spec_parse(path),
            0,
            act,
        ),
        Err(e) => spec_can_insert(pre, spec_parse(path), 0, act) == Result::<
            (),
            ObsidianError,
        >::Err(e) && post == pre,
    }
}

} // verus!
