//! An embeddable HTTP request router.
//!
//! Routes are registered as `/`-delimited path patterns whose segments are
//! literal text, named parameters (`:name`) or a terminal wildcard (`*`).
//! A prefix tree indexes the patterns; looking a path up returns the routes
//! registered at the matched node, the middleware chain inherited from every
//! ancestor scope, and the text bound to each parameter segment.

pub mod context;
pub mod error;
pub mod laws;
pub mod method;
pub mod resource;
pub mod model;
pub mod route;
pub mod router;
pub mod trie;
