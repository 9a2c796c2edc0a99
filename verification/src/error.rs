use vstd::prelude::*;

verus! {

/// Everything that can go wrong while registering or looking up a route.
#[derive(Clone, Copy, PartialEq, Eq, Structural, Debug)]
pub enum ObsidianError {
    /// A lookup reached a dead end: no registered pattern matches the path.
    RouteNotFound,
    /// The same (method, exact path) was registered twice, or two merged
    /// trees collide on a method at the same node.
    DuplicateRoute,
    /// A literal segment and a parameter segment (or two differently named
    /// parameters) compete for the same position, or a wildcard stands
    /// anywhere but last in a pattern.
    RouteConflict,
}

} // verus!
