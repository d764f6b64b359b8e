//! The route tree itself, the calls that grow it, and its flattening.
use vstd::prelude::*;
use std::sync::Arc;
use tide::http::Method;
use crate::method::same_method;
use crate::model::{Descriptor, RouteTree, Segment};
use crate::path::{again, descend, full, joined, stands_for};

verus! {

/// What a node adds to everything below it: nothing, a path segment, or a
/// middleware. The middleware is shared by the descriptors of all the endpoints
/// it covers.
pub enum RouteSegment<M> {
    Root,
    Path(String),
    Middleware(Arc<M>),
}

impl<M> View for RouteSegment<M> {
    type V = Segment<M>;

    open spec fn view(&self) -> Segment<M> {
        match self {
            RouteSegment::Root => Segment::Root,
            RouteSegment::Path(name) => Segment::Path(name@),
            RouteSegment::Middleware(middleware) => Segment::Middleware(**middleware),
        }
    }
}

/// A flattened endpoint, ready to be handed to a router.
pub struct EndpointDescriptor<E, M> {
    /// The path segments from the root down to the endpoint's node, joined by `/`.
    pub path: String,
    /// The middleware around the endpoint, from the outermost inwards.
    pub middleware: Vec<Arc<M>>,
    pub method: Method,
    pub endpoint: E,
}

/// The middleware that a run of shared handles stands for.
pub open spec fn chain_of<M>(handles: Seq<Arc<M>>) -> Seq<M> {
    handles.map_values(|handle: Arc<M>| *handle)
}

impl<E, M> View for EndpointDescriptor<E, M> {
    type V = Descriptor<E, M>;

    open spec fn view(&self) -> Descriptor<E, M> {
        Descriptor {
            path: self.path@,
            middleware: chain_of(self.middleware@),
            method: self.method,
            endpoint: self.endpoint,
        }
    }
}

/// The descriptors that a run of flattened endpoints stands for.
pub open spec fn views<E, M>(descriptors: Seq<EndpointDescriptor<E, M>>) -> Seq<Descriptor<E, M>> {
    descriptors.map_values(|descriptor: EndpointDescriptor<E, M>| descriptor@)
}

/// New handles on the same middleware, in the same order.
fn share<M>(chain: &Vec<Arc<M>>) -> (handles: Vec<Arc<M>>)
    ensures
        handles@ == chain@,
{
    let mut handles: Vec<Arc<M>> = Vec::new();
    let mut next: usize = 0;
    while next < chain.len()
        invariant
            next <= chain.len(),
            handles@ == chain@.take(next as int),
        decreases chain.len() - next,
    {
        handles.push(Arc::clone(&chain[next]));
        next += 1;
    }
    handles
}

/// A node of a route tree under construction. It owns its branches; every call
/// that grows it takes it by value and gives it back, and [`RouteBuilder::build`]
/// uses it up.
pub struct RouteBuilder<E, M> {
    route: RouteSegment<M>,
    branches: Vec<RouteBuilder<E, M>>,
    endpoints: Vec<(Method, E)>,
}

impl<E, M> View for RouteBuilder<E, M> {
    type V = RouteTree<E, M>;

    closed spec fn view(&self) -> RouteTree<E, M> {
        self.tree()
    }
}

/// Start building a route tree: a root without branches or endpoints, which
/// flattens to nothing.
pub fn root<E, M>() -> (builder: RouteBuilder<E, M>)
    ensures
        builder@ == RouteTree::<E, M>::leaf(Segment::Root),
        builder@.flatten() == Seq::<Descriptor<E, M>>::empty(),
        builder@.wf(),
{
    RouteBuilder::leaf(RouteSegment::Root)
}

impl<E, M> RouteBuilder<E, M> {
    spec fn tree(self) -> RouteTree<E, M>
        decreases self,
    {
        RouteTree {
            segment: self.route@,
            branches: Seq::new(
                self.branches.len() as nat,
                |i: int|
                    if 0 <= i < self.branches.len() {
                        self.branches[i].tree()
                    } else {
                        arbitrary()
                    },
            ),
            endpoints: self.endpoints@,
        }
    }

    #[verifier::type_invariant]
    spec fn sound(self) -> bool {
        self.tree().wf()
    }

    fn leaf(route: RouteSegment<M>) -> (node: Self)
        ensures
            node@ == RouteTree::<E, M>::leaf(route@),
            node@.wf(),
    {
        let node = RouteBuilder { route, branches: Vec::new(), endpoints: Vec::new() };
        proof {
            assert(node@.branches =~= Seq::empty());
        }
        node
    }

    /// Add sub-routes for a path segment. `routes` is given a fresh node that
    /// carries the segment and gives back what becomes the new last branch; the
    /// branches and endpoints that this node has are not touched. The segment is
    /// taken as it is, empty or not.
    pub fn at<R: Fn(Self) -> Self>(self, path: &str, routes: R) -> (builder: Self)
        requires
            forall|fresh: Self|
                fresh@ == RouteTree::<E, M>::leaf(Segment::Path(path@)) ==> call_requires(
                    routes,
                    (fresh,),
                ),
        ensures
            exists|fresh: Self, branch: Self|
                fresh@ == RouteTree::<E, M>::leaf(Segment::Path(path@)) && call_ensures(
                    routes,
                    (fresh,),
                    branch,
                ) && builder@ == self@.with_branch(branch@),
            builder@.wf(),
    {
        self.add_branch(RouteSegment::Path(path.to_owned()), routes)
    }

    /// Add sub-routes for a middleware. `routes` is given a fresh node that
    /// carries the middleware and gives back what becomes the new last branch.
    /// The middleware covers what is registered in that branch, at any depth, and
    /// nothing else: not the endpoints of this node, nor its other branches.
    pub fn with<R: Fn(Self) -> Self>(self, middleware: M, routes: R) -> (builder: Self)
        requires
            forall|fresh: Self|
                fresh@ == RouteTree::<E, M>::leaf(Segment::Middleware(middleware))
                    ==> call_requires(routes, (fresh,)),
        ensures
            exists|fresh: Self, branch: Self|
                fresh@ == RouteTree::<E, M>::leaf(Segment::Middleware(middleware)) && call_ensures(
                    routes,
                    (fresh,),
                    branch,
                ) && builder@ == self@.with_branch(branch@),
            builder@.wf(),
    {
        self.add_branch(RouteSegment::Middleware(Arc::new(middleware)), routes)
    }

    /// Open a branch for `segment`, let `routes` fill it, and hang what comes
    /// back behind the branches that this node has.
    fn add_branch<R: Fn(Self) -> Self>(
        self,
        segment: RouteSegment<M>,
        routes: R,
    ) -> (builder: Self)
        requires
            forall|fresh: Self|
                fresh@ == RouteTree::<E, M>::leaf(segment@) ==> call_requires(routes, (fresh,)),
        ensures
            exists|fresh: Self, branch: Self|
                fresh@ == RouteTree::<E, M>::leaf(segment@) && call_ensures(
                    routes,
                    (fresh,),
                    branch,
                ) && builder@ == self@.with_branch(branch@),
            builder@.wf(),
    {
        let fresh = RouteBuilder::leaf(segment);
        let branch = routes(fresh);
        proof {
            use_type_invariant(&self);
            use_type_invariant(&branch);
        }
        let RouteBuilder { route, mut branches, endpoints } = self;
        branches.push(branch);
        proof {
            let grown = RouteBuilder { route, branches, endpoints };
            assert(grown@.branches =~= self@.branches.push(branch@));
        }
        RouteBuilder { route, branches, endpoints }
    }

    /// Add an endpoint for `method`. A handler that the method already had at
    /// this node is replaced, in its place; the branches are not touched.
    pub fn method(self, method: Method, endpoint: E) -> (builder: Self)
        ensures
            builder@ == self@.with_endpoint(method, endpoint),
            builder@.wf(),
    {
        proof {
            use_type_invariant(&self);
        }
        let RouteBuilder { route, branches, mut endpoints } = self;
        let ghost before = endpoints@;
        let mut at: usize = 0;
        while at < endpoints.len() && !same_method(endpoints[at].0, method)
            invariant
                endpoints@ == before,
                at <= endpoints.len(),
                forall|i: int| 0 <= i < at ==> (#[trigger] before[i]).0 != method,
            decreases endpoints.len() - at,
        {
            at += 1;
        }
        if at < endpoints.len() {
            endpoints.set(at, (method, endpoint));
        } else {
            endpoints.push((method, endpoint));
        }
        let builder = RouteBuilder { route, branches, endpoints };
        proof {
            assert(builder@.endpoints =~= self@.with_endpoint(method, endpoint).endpoints);
        }
        builder
    }

    /// Flatten the tree, using it up: one descriptor for each endpoint, those of
    /// a node before those of its branches, and the branches in the order in
    /// which they were added.
    pub fn build(self) -> (descriptors: Vec<EndpointDescriptor<E, M>>)
        ensures
            views(descriptors@) == self@.flatten(),
    {
        let mut descriptors: Vec<EndpointDescriptor<E, M>> = Vec::new();
        let outermost: Vec<Arc<M>> = Vec::new();
        assert(chain_of(outermost@) =~= Seq::empty());
        self.collect(&None, &outermost, &mut descriptors, Ghost(Seq::empty()));
        descriptors
    }

    /// Append the descriptors of the subtree at this node. `path` stands for the
    /// path segments above the node, `chain` is the middleware around it.
    fn collect(
        self,
        path: &Option<String>,
        chain: &Vec<Arc<M>>,
        descriptors: &mut Vec<EndpointDescriptor<E, M>>,
        Ghost(names): Ghost<Seq<Seq<char>>>,
    )
        requires
            stands_for(*path, names),
        ensures
            views(final(descriptors)@) == views(old(descriptors)@) + self@.flatten_below(
                names,
                chain_of(chain@),
            ),
        decreases self,
    {
        let ghost node = self;
        let ghost tree = self@;
        let ghost earlier = views(descriptors@);
        let RouteBuilder { route, branches, endpoints } = self;
        let ghost names_here = tree.segment.names_through(names);
        let ghost chain_here = tree.segment.chain_through(chain_of(chain@));
        let mut inner = share(chain);
        let below = match route {
            RouteSegment::Root => again(path),
            RouteSegment::Path(name) => Some(descend(path, name.as_str(), Ghost(names))),
            RouteSegment::Middleware(middleware) => {
                inner.push(middleware);
                again(path)
            },
        };
        let text = full(&below, Ghost(names_here));
        let ghost own = tree.own(names_here, chain_here);
        for entry in turn: endpoints
            invariant
                turn.seq() == tree.endpoints,
                own == tree.own(names_here, chain_here),
                text@ == joined(names_here),
                chain_of(inner@) == chain_here,
                views(descriptors@) == earlier + own.take(turn.index() as int),
        {
            let (method, endpoint) = entry;
            let descriptor = EndpointDescriptor {
                path: text.clone(),
                middleware: share(&inner),
                method,
                endpoint,
            };
            let ghost sofar = descriptors@;
            descriptors.push(descriptor);
            assert(views(descriptors@) =~= views(sofar).push(descriptor@));
        }
        for branch in turn: branches
            invariant
                turn.seq() == node.branches@,
                node == self,
                tree == node@,
                stands_for(below, names_here),
                chain_of(inner@) == chain_here,
                views(descriptors@) == earlier + own + tree.flatten_branches(
                    turn.index() as nat,
                    names_here,
                    chain_here,
                ),
        {
            branch.collect(&below, &inner, descriptors, Ghost(names_here));
        }
    }
}

} // verus!
