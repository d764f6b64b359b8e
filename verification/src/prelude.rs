//! The names needed to write down a route tree and register it.
pub use crate::builder::{root, RouteBuilder};
pub use crate::router::Router;
pub use tide::http::Method;
