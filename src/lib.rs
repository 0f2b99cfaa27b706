//! A small trie-based request router.
//!
//! Routes are registered under a dispatch prefix (for HTTP, the method) as a
//! sequence of path segments. A segment is either literal text, matched
//! exactly, or a dynamic slot, which matches any single non-empty component and
//! captures its text. Lookups resolve static segments before dynamic ones, one
//! level at a time, without backtracking.

/// Path segments, the segment syntax and path splitting.
pub mod route;

/// The meaning of a route table and of a lookup in it.
pub mod table;

/// The routing trie: registration and lookup.
pub mod router;

/// The responses given when no route matches or a handler fails.
pub mod response;

pub use response::{default_error_handler, default_not_found_handler, Reply};
pub use route::{path, split_path, PathSegment, SegmentView};
pub use router::{RouteNode, Router};
