//! Where flattened routes go: anything that can register a single endpoint.
use vstd::prelude::*;
use std::sync::Arc;
use tide::http::Method;
use crate::builder::{chain_of, views, EndpointDescriptor, RouteBuilder};
use crate::model::Descriptor;

verus! {

/// A router is any component where routes can be registered.
///
/// An implementation provides [`Router::register_endpoint`]. One that also
/// says what it holds, through [`Router::registered`], is bound by the
/// contracts below, and [`Router::register`] is proved for it. One that does
/// not is bound to nothing: `register` still hands it each descriptor of the
/// tree, in order, and what it makes of them is its own affair.
pub trait Router<E, M> {
    /// Everything that has been registered, oldest first, if the router tells.
    open spec fn registered(&self) -> Option<Seq<Descriptor<E, M>>> {
        None
    }

    /// Register a single endpoint, behind those registered before. The
    /// middleware comes alongside, outermost first, for the router to apply
    /// around the endpoint in that order.
    fn register_endpoint(
        &mut self,
        path: &str,
        method: Method,
        middleware: Vec<Arc<M>>,
        endpoint: E,
    )
        ensures
            old(self).registered() matches Some(earlier) ==> final(self).registered() == Some(
                earlier.push(
                    (Descriptor {
                        path: path@,
                        middleware: chain_of(middleware@),
                        method,
                        endpoint,
                    }),
                ),
            ),
    ;

    /// Register all routes of a tree, which is used up: each of its endpoints
    /// once, behind what was registered before, in the order in which the tree
    /// flattens.
    fn register(&mut self, routes: RouteBuilder<E, M>)
        ensures
            old(self).registered() matches Some(earlier) ==> final(self).registered() == Some(
                earlier + routes@.flatten(),
            ),
    {
        let ghost start = self.registered();
        let descriptors = routes.build();
        let ghost all = views(descriptors@);
        for descriptor in turn: descriptors
            invariant
                views(turn.seq()) == all,
                start matches Some(earlier) ==> self.registered() == Some(
                    earlier + all.take(turn.index() as int),
                ),
        {
            let EndpointDescriptor { path, middleware, method, endpoint } = descriptor;
            self.register_endpoint(path.as_str(), method, middleware, endpoint);
        }
    }
}

/// The plainest router: it keeps what is registered, in order, for whoever
/// applies the routes later.
pub struct RouteTable<E, M> {
    entries: Vec<EndpointDescriptor<E, M>>,
}

impl<E, M> RouteTable<E, M> {
    /// A table without entries.
    pub fn new() -> (table: Self)
        ensures
            table.registered() == Some(Seq::<Descriptor<E, M>>::empty()),
    {
        RouteTable { entries: Vec::new() }
    }

    /// What the table holds, oldest first.
    pub fn entries(&self) -> (entries: &Vec<EndpointDescriptor<E, M>>)
        ensures
            self.registered() == Some(views(entries@)),
    {
        &self.entries
    }

    /// Give up the table for what it holds, oldest first.
    pub fn into_entries(self) -> (entries: Vec<EndpointDescriptor<E, M>>)
        ensures
            self.registered() == Some(views(entries@)),
    {
        self.entries
    }
}

impl<E, M> Router<E, M> for RouteTable<E, M> {
    closed spec fn registered(&self) -> Option<Seq<Descriptor<E, M>>> {
        Some(views(self.entries@))
    }

    fn register_endpoint(
        &mut self,
        path: &str,
        method: Method,
        middleware: Vec<Arc<M>>,
        endpoint: E,
    ) {
        self.entries.push(
            EndpointDescriptor { path: path.to_owned(), middleware, method, endpoint },
        );
    }
}

} // verus!
