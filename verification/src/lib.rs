//! A fluent builder for trees of HTTP routes.
//!
//! A tree is grown from [`root`] with [`RouteBuilder::at`] (a path segment),
//! [`RouteBuilder::with`] (a middleware that covers a subtree) and
//! [`RouteBuilder::method`] (an endpoint for one HTTP method).
//! [`RouteBuilder::build`] flattens the tree, depth first, into one
//! [`EndpointDescriptor`] per endpoint: its full path, the middleware that
//! covers it from the outermost inwards, its method and its handler.
//! [`Router::register`] hands the descriptors, in that order, to anything that
//! can take a single endpoint.
//!
//! Handlers and middleware are carried, never invoked, so the tree is generic in
//! both. Methods are those of `tide`.
//!
//! What a tree is and what it flattens to is defined in [`model`], over
//! sequences; the contracts of the builder speak of that model, and [`laws`]
//! proves what follows for every tree.
pub mod method;
pub mod path;
pub mod model;
pub mod builder;
pub mod router;
pub mod laws;
pub mod prelude;

pub use crate::builder::{root, EndpointDescriptor, RouteBuilder, RouteSegment};
pub use crate::router::{RouteTable, Router};
