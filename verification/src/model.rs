//! The mathematical model of a route tree and of what it flattens to.
use vstd::prelude::*;
use tide::http::Method;
use crate::path::joined;

verus! {

/// What a node adds to everything below it.
pub ghost enum Segment<M> {
    /// Nothing: the top of a tree.
    Root,
    /// One more segment of the path.
    Path(Seq<char>),
    /// One more middleware, inside those of the ancestors.
    Middleware(M),
}

/// A node of a route tree: its segment, its branches in the order in which they
/// were added, and its endpoints in the order in which their methods were first
/// registered.
pub ghost struct RouteTree<E, M> {
    pub segment: Segment<M>,
    pub branches: Seq<RouteTree<E, M>>,
    pub endpoints: Seq<(Method, E)>,
}

/// One flattened endpoint: the full path, the middleware from the outermost
/// inwards, the method and the handler.
pub ghost struct Descriptor<E, M> {
    pub path: Seq<char>,
    pub middleware: Seq<M>,
    pub method: Method,
    pub endpoint: E,
}

/// Whether one of the entries is registered for `method`.
pub open spec fn registers<E>(entries: Seq<(Method, E)>, method: Method) -> bool {
    exists|i: int| 0 <= i < entries.len() && (#[trigger] entries[i]).0 == method
}

/// No method has two entries.
pub open spec fn distinct_methods<E>(entries: Seq<(Method, E)>) -> bool {
    forall|i: int, j: int|
        0 <= i < j < entries.len() ==> (#[trigger] entries[i]).0 != (#[trigger] entries[j]).0
}

impl<M> Segment<M> {
    /// The path segments down to a node with this segment, its own included,
    /// given those down to its parent.
    pub open spec fn names_through(self, names: Seq<Seq<char>>) -> Seq<Seq<char>> {
        match self {
            Segment::Path(name) => names.push(name),
            _ => names,
        }
    }

    /// The middleware around a node with this segment, its own included, given
    /// that around its parent.
    pub open spec fn chain_through(self, chain: Seq<M>) -> Seq<M> {
        match self {
            Segment::Middleware(middleware) => chain.push(middleware),
            _ => chain,
        }
    }
}

impl<E, M> RouteTree<E, M> {
    /// A node with neither branches nor endpoints.
    pub open spec fn leaf(segment: Segment<M>) -> Self {
        RouteTree { segment, branches: Seq::empty(), endpoints: Seq::empty() }
    }

    /// This node with one more branch, behind those it has.
    pub open spec fn with_branch(self, branch: Self) -> Self {
        RouteTree { branches: self.branches.push(branch), ..self }
    }

    /// This node with `endpoint` registered for `method`: in the place of the
    /// handler that the method had, or behind the other entries if it had none.
    pub open spec fn with_endpoint(self, method: Method, endpoint: E) -> Self {
        RouteTree {
            endpoints: if registers(self.endpoints, method) {
                self.endpoints.map_values(
                    |entry: (Method, E)|
                        if entry.0 == method {
                            (method, endpoint)
                        } else {
                            entry
                        },
                )
            } else {
                self.endpoints.push((method, endpoint))
            },
            ..self
        }
    }

    /// Every node of the tree has at most one endpoint for each method.
    pub open spec fn wf(self) -> bool
        decreases self,
    {
        &&& distinct_methods(self.endpoints)
        &&& forall|i: int| 0 <= i < self.branches.len() ==> (#[trigger] self.branches[i]).wf()
    }

    /// The descriptors of this node's own endpoints, for the path segments and
    /// the middleware that reach down to it, its own segment included.
    pub open spec fn own(self, names: Seq<Seq<char>>, chain: Seq<M>) -> Seq<Descriptor<E, M>> {
        self.endpoints.map_values(
            |entry: (Method, E)|
                Descriptor {
                    path: joined(names),
                    middleware: chain,
                    method: entry.0,
                    endpoint: entry.1,
                },
        )
    }

    /// The descriptors of the subtree at this node, which hangs below the path
    /// segments `names` and inside the middleware `chain`: first the node's own
    /// endpoints, then each branch's descriptors, branch after branch.
    pub open spec fn flatten_below(self, names: Seq<Seq<char>>, chain: Seq<M>) -> Seq<
        Descriptor<E, M>,
    >
        decreases self, 1nat, 0nat,
    {
        let names = self.segment.names_through(names);
        let chain = self.segment.chain_through(chain);
        self.own(names, chain) + self.flatten_branches(self.branches.len(), names, chain)
    }

    /// The descriptors of the first `count` branches, one branch after the other,
    /// each below `names` and inside `chain`.
    pub open spec fn flatten_branches(
        self,
        count: nat,
        names: Seq<Seq<char>>,
        chain: Seq<M>,
    ) -> Seq<Descriptor<E, M>>
        decreases self, 0nat, count,
    {
        if count == 0 || count > self.branches.len() {
            Seq::empty()
        } else {
            self.flatten_branches((count - 1) as nat, names, chain)
                + self.branches[count - 1].flatten_below(names, chain)
        }
    }

    /// The descriptors of the whole tree.
    pub open spec fn flatten(self) -> Seq<Descriptor<E, M>> {
        self.flatten_below(Seq::empty(), Seq::empty())
    }

    /// The number of endpoints in the tree.
    pub open spec fn size(self) -> nat
        decreases self, 1nat, 0nat,
    {
        self.endpoints.len() + self.size_of_branches(self.branches.len())
    }

    /// The number of endpoints in the first `count` branches.
    pub open spec fn size_of_branches(self, count: nat) -> nat
        decreases self, 0nat, count,
    {
        if count == 0 || count > self.branches.len() {
            0
        } else {
            self.size_of_branches((count - 1) as nat) + self.branches[count - 1].size()
        }
    }

    /// Whether `route` leads from this node down into the tree: each step names
    /// a branch of the node reached so far by its place, the first being 0. The
    /// empty route stays at this node.
    pub open spec fn has(self, route: Seq<int>) -> bool
        decreases route.len(),
    {
        route.len() == 0 || (0 <= route[0] < self.branches.len() && self.branches[route[0]].has(
            route.drop_first(),
        ))
    }

    /// The node at the end of `route`.
    pub open spec fn node(self, route: Seq<int>) -> Self
        decreases route.len(),
    {
        if route.len() == 0 {
            self
        } else {
            self.branches[route[0]].node(route.drop_first())
        }
    }

    /// The path segments of all nodes on `route`, from this node to the one at
    /// its end, behind `names`.
    pub open spec fn names_along(self, route: Seq<int>, names: Seq<Seq<char>>) -> Seq<Seq<char>>
        decreases route.len(),
    {
        let names = self.segment.names_through(names);
        if route.len() == 0 {
            names
        } else {
            self.branches[route[0]].names_along(route.drop_first(), names)
        }
    }

    /// The middleware of all nodes on `route`, from this node to the one at its
    /// end, behind `chain`: an ancestor's before a descendant's.
    pub open spec fn chain_along(self, route: Seq<int>, chain: Seq<M>) -> Seq<M>
        decreases route.len(),
    {
        let chain = self.segment.chain_through(chain);
        if route.len() == 0 {
            chain
        } else {
            self.branches[route[0]].chain_along(route.drop_first(), chain)
        }
    }

    /// The number of endpoints that come before those of the node at the end of
    /// `route` when the tree is walked depth first: at each node on the route,
    /// the node's own and those of the branches before the one that the route
    /// takes.
    pub open spec fn offset(self, route: Seq<int>) -> nat
        decreases route.len(),
    {
        if route.len() == 0 {
            0
        } else {
            self.endpoints.len() + self.size_of_branches(route[0] as nat)
                + self.branches[route[0]].offset(route.drop_first())
        }
    }

    /// The descriptor of the endpoint in place `k` at the node at the end of
    /// `route`, in a tree that hangs below `names` and inside `chain`: the path
    /// segments from the root down to that node, joined, and the middleware from
    /// the root down to that node.
    pub open spec fn descriptor(
        self,
        route: Seq<int>,
        k: int,
        names: Seq<Seq<char>>,
        chain: Seq<M>,
    ) -> Descriptor<E, M> {
        Descriptor {
            path: joined(self.names_along(route, names)),
            middleware: self.chain_along(route, chain),
            method: self.node(route).endpoints[k].0,
            endpoint: self.node(route).endpoints[k].1,
        }
    }

    /// The two trees agree node for node: in their segments, in their endpoints
    /// and the order of these, and branch by branch.
    pub open spec fn alike(self, other: Self) -> bool
        decreases self,
    {
        &&& self.segment == other.segment
        &&& self.endpoints.len() == other.endpoints.len()
        &&& forall|i: int|
            0 <= i < self.endpoints.len() ==> self.endpoints[i] == other.endpoints[i]
        &&& self.branches.len() == other.branches.len()
        &&& forall|i: int|
            0 <= i < self.branches.len() ==> (#[trigger] self.branches[i]).alike(
                other.branches[i],
            )
    }
}

} // verus!
