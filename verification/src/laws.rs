//! What holds of every route tree and of everything it flattens to.
use vstd::prelude::*;
use tide::http::Method;
use crate::model::{distinct_methods, registers, Descriptor, RouteTree, Segment};
use crate::path::joined;

verus! {

/// The descriptors of the first branches depend on those branches alone.
pub proof fn lemma_branches_agree<E, M>(
    a: RouteTree<E, M>,
    b: RouteTree<E, M>,
    count: nat,
    names: Seq<Seq<char>>,
    chain: Seq<M>,
)
    requires
        count <= a.branches.len(),
        count <= b.branches.len(),
        forall|i: int| 0 <= i < count ==> a.branches[i] == b.branches[i],
    ensures
        a.flatten_branches(count, names, chain) == b.flatten_branches(count, names, chain),
    decreases count,
{
    if count > 0 {
        lemma_branches_agree(a, b, (count - 1) as nat, names, chain);
    }
}

/// A node without branches or endpoints flattens to nothing, wherever it
/// stands. So does an untouched root.
pub proof fn lemma_leaf_is_empty<E, M>(segment: Segment<M>, names: Seq<Seq<char>>, chain: Seq<M>)
    ensures
        RouteTree::<E, M>::leaf(segment).flatten_below(names, chain) == Seq::<
            Descriptor<E, M>,
        >::empty(),
        RouteTree::<E, M>::leaf(Segment::Root).flatten() == Seq::<Descriptor<E, M>>::empty(),
{
}

/// A new branch adds its descriptors behind all that the node had, and changes
/// none of them: the node's own endpoints and its earlier branches flatten as
/// before, and the new branch flattens below the node's path and inside the
/// node's middleware, its own segment included.
pub proof fn lemma_branch_appends<E, M>(
    tree: RouteTree<E, M>,
    branch: RouteTree<E, M>,
    names: Seq<Seq<char>>,
    chain: Seq<M>,
)
    ensures
        tree.with_branch(branch).flatten_below(names, chain) == tree.flatten_below(names, chain)
            + branch.flatten_below(
            tree.segment.names_through(names),
            tree.segment.chain_through(chain),
        ),
{
    lemma_branches_agree(
        tree.with_branch(branch),
        tree,
        tree.branches.len(),
        tree.segment.names_through(names),
        tree.segment.chain_through(chain),
    );
}

/// The descriptor that stands for `endpoint`, registered for `method` at a node
/// with segment `segment` that hangs below `names` and inside `chain`.
pub open spec fn descriptor_at<E, M>(
    segment: Segment<M>,
    names: Seq<Seq<char>>,
    chain: Seq<M>,
    method: Method,
    endpoint: E,
) -> Descriptor<E, M> {
    Descriptor {
        path: joined(segment.names_through(names)),
        middleware: segment.chain_through(chain),
        method,
        endpoint,
    }
}

/// A node's own endpoints come first, in the order in which their methods were
/// first registered, whatever its branches hold. Each carries the path down to
/// the node and exactly the middleware around the node: none of a branch.
pub proof fn lemma_own_come_first<E, M>(
    tree: RouteTree<E, M>,
    names: Seq<Seq<char>>,
    chain: Seq<M>,
    i: int,
)
    requires
        0 <= i < tree.endpoints.len(),
    ensures
        i < tree.flatten_below(names, chain).len(),
        tree.flatten_below(names, chain)[i] == descriptor_at(
            tree.segment,
            names,
            chain,
            tree.endpoints[i].0,
            tree.endpoints[i].1,
        ),
{
}

/// Registering keeps the tree well formed.
pub proof fn lemma_endpoint_keeps_wf<E, M>(tree: RouteTree<E, M>, method: Method, endpoint: E)
    requires
        tree.wf(),
    ensures
        tree.with_endpoint(method, endpoint).wf(),
{
}

/// After registering, the method has its endpoint at this node, and only that
/// one: there is an entry for the method, every entry for the method holds the
/// new handler, and where no method had two entries before, none has two now.
/// The other methods keep their places and their handlers, and no entry is
/// added but for a method that had none.
pub proof fn lemma_endpoint_registered<E, M>(tree: RouteTree<E, M>, method: Method, endpoint: E)
    ensures
        registers(tree.with_endpoint(method, endpoint).endpoints, method),
        distinct_methods(tree.endpoints) ==> distinct_methods(
            tree.with_endpoint(method, endpoint).endpoints,
        ),
        forall|i: int|
            0 <= i < tree.with_endpoint(method, endpoint).endpoints.len() && (
            #[trigger] tree.with_endpoint(method, endpoint).endpoints[i]).0 == method
                ==> tree.with_endpoint(method, endpoint).endpoints[i].1 == endpoint,
        forall|i: int|
            0 <= i < tree.endpoints.len() ==> {
                &&& i < tree.with_endpoint(method, endpoint).endpoints.len()
                &&& (#[trigger] tree.with_endpoint(method, endpoint).endpoints[i]).0
                    == tree.endpoints[i].0
                &&& tree.endpoints[i].0 != method ==> tree.with_endpoint(
                    method,
                    endpoint,
                ).endpoints[i] == tree.endpoints[i]
            },
        tree.with_endpoint(method, endpoint).endpoints.len() == if registers(
            tree.endpoints,
            method,
        ) {
            tree.endpoints.len()
        } else {
            tree.endpoints.len() + 1
        },
{
    let after = tree.with_endpoint(method, endpoint);
    if registers(tree.endpoints, method) {
        let k: int = choose|k: int| 0 <= k < tree.endpoints.len() && (#[trigger] tree.endpoints[k]).0
            == method;
        assert(after.endpoints[k].0 == method);
    } else {
        assert(after.endpoints[tree.endpoints.len() as int].0 == method);
    }
}

/// Registering a method a second time overwrites: the tree is as if only the
/// second registration had been made.
pub proof fn lemma_endpoint_overwrites<E, M>(
    tree: RouteTree<E, M>,
    method: Method,
    first: E,
    second: E,
)
    ensures
        tree.with_endpoint(method, first).with_endpoint(method, second) == tree.with_endpoint(
            method,
            second,
        ),
{
    let once = tree.with_endpoint(method, first);
    let twice = once.with_endpoint(method, second);
    let direct = tree.with_endpoint(method, second);
    lemma_endpoint_registered(tree, method, first);
    assert(twice.endpoints =~= direct.endpoints) by {
        if !registers(tree.endpoints, method) {
            assert forall|i: int| 0 <= i < tree.endpoints.len() implies (
            #[trigger] tree.endpoints[i]).0 != method by {}
        }
    }
}

/// A method that the node did not have gets its descriptor behind the node's
/// other endpoints and before everything that comes from the branches.
pub proof fn lemma_new_method_appends<E, M>(
    tree: RouteTree<E, M>,
    method: Method,
    endpoint: E,
    names: Seq<Seq<char>>,
    chain: Seq<M>,
)
    requires
        !registers(tree.endpoints, method),
    ensures
        tree.with_endpoint(method, endpoint).flatten_below(names, chain) == tree.own(
            tree.segment.names_through(names),
            tree.segment.chain_through(chain),
        ).push(descriptor_at(tree.segment, names, chain, method, endpoint))
            + tree.flatten_branches(
            tree.branches.len(),
            tree.segment.names_through(names),
            tree.segment.chain_through(chain),
        ),
{
    lemma_branches_agree(
        tree.with_endpoint(method, endpoint),
        tree,
        tree.branches.len(),
        tree.segment.names_through(names),
        tree.segment.chain_through(chain),
    );
}

/// A method that the node had keeps its place among the descriptors; only its
/// handler changes. Every other descriptor of the tree stays as it was.
pub proof fn lemma_old_method_replaces<E, M>(
    tree: RouteTree<E, M>,
    method: Method,
    endpoint: E,
    names: Seq<Seq<char>>,
    chain: Seq<M>,
)
    requires
        registers(tree.endpoints, method),
    ensures
        tree.with_endpoint(method, endpoint).flatten_below(names, chain).len()
            == tree.flatten_below(names, chain).len(),
        forall|i: int|
            0 <= i < tree.flatten_below(names, chain).len() ==> (#[trigger] tree.with_endpoint(
                method,
                endpoint,
            ).flatten_below(names, chain)[i]) == if i < tree.endpoints.len()
                && tree.endpoints[i].0 == method {
                descriptor_at(tree.segment, names, chain, method, endpoint)
            } else {
                tree.flatten_below(names, chain)[i]
            },
{
    lemma_branches_agree(
        tree.with_endpoint(method, endpoint),
        tree,
        tree.branches.len(),
        tree.segment.names_through(names),
        tree.segment.chain_through(chain),
    );
}

/// `path` is the joined form of `names` and of the segments, if any, that
/// follow further down.
pub open spec fn leads_on(names: Seq<Seq<char>>, path: Seq<char>) -> bool {
    exists|rest: Seq<Seq<char>>| path == #[trigger] joined(names + rest)
}

/// Every descriptor of a subtree carries what reaches down to the subtree's
/// node: its path is the joined form of the segments down to that node and of
/// those that follow below it, and its middleware begins with the middleware
/// around that node, the ancestors' first. So what lies in a branch opened for
/// a middleware has that middleware, right behind the ancestors' and before any
/// that the branch adds further in.
pub proof fn lemma_descriptor_context<E, M>(
    tree: RouteTree<E, M>,
    names: Seq<Seq<char>>,
    chain: Seq<M>,
    i: int,
)
    requires
        0 <= i < tree.flatten_below(names, chain).len(),
    ensures
        leads_on(tree.segment.names_through(names), tree.flatten_below(names, chain)[i].path),
        tree.segment.chain_through(chain).is_prefix_of(
            tree.flatten_below(names, chain)[i].middleware,
        ),
    decreases tree, 1nat, 0nat,
{
    let below = tree.segment.names_through(names);
    let inner = tree.segment.chain_through(chain);
    if i < tree.endpoints.len() {
        assert(tree.flatten_below(names, chain)[i].path == joined(
            below + Seq::<Seq<char>>::empty(),
        ));
    } else {
        lemma_branch_descriptor_context(
            tree,
            tree.branches.len(),
            below,
            inner,
            i - tree.endpoints.len(),
        );
    }
}

/// The same of every descriptor of the first `count` branches of a node, for
/// the path segments down to the node and the middleware around it.
pub proof fn lemma_branch_descriptor_context<E, M>(
    tree: RouteTree<E, M>,
    count: nat,
    names: Seq<Seq<char>>,
    chain: Seq<M>,
    i: int,
)
    requires
        count <= tree.branches.len(),
        0 <= i < tree.flatten_branches(count, names, chain).len(),
    ensures
        leads_on(names, tree.flatten_branches(count, names, chain)[i].path),
        chain.is_prefix_of(tree.flatten_branches(count, names, chain)[i].middleware),
    decreases tree, 0nat, count,
{
    let before = tree.flatten_branches((count - 1) as nat, names, chain);
    if i < before.len() {
        lemma_branch_descriptor_context(tree, (count - 1) as nat, names, chain, i);
    } else {
        let branch = tree.branches[count - 1];
        let found = branch.flatten_below(names, chain)[i - before.len()];
        lemma_descriptor_context(branch, names, chain, i - before.len());
        let rest = choose|rest: Seq<Seq<char>>|
            found.path == #[trigger] joined(branch.segment.names_through(names) + rest);
        match branch.segment {
            Segment::Path(name) => {
                assert(names.push(name) + rest =~= names + (seq![name] + rest));
            },
            _ => {},
        }
    }
}

/// A tree flattens to one descriptor for each of its endpoints.
pub proof fn lemma_one_for_each<E, M>(tree: RouteTree<E, M>, names: Seq<Seq<char>>, chain: Seq<M>)
    ensures
        tree.flatten_below(names, chain).len() == tree.size(),
    decreases tree, 1nat, 0nat,
{
    lemma_one_for_each_in_branches(
        tree,
        tree.branches.len(),
        tree.segment.names_through(names),
        tree.segment.chain_through(chain),
    );
}

/// The first `count` branches of a node flatten to one descriptor for each of
/// their endpoints.
pub proof fn lemma_one_for_each_in_branches<E, M>(
    tree: RouteTree<E, M>,
    count: nat,
    names: Seq<Seq<char>>,
    chain: Seq<M>,
)
    requires
        count <= tree.branches.len(),
    ensures
        tree.flatten_branches(count, names, chain).len() == tree.size_of_branches(count),
    decreases tree, 0nat, count,
{
    if count > 0 {
        lemma_one_for_each_in_branches(tree, (count - 1) as nat, names, chain);
        lemma_one_for_each(tree.branches[count - 1], names, chain);
    }
}

/// Trees that agree node for node are one tree. So the descriptors depend on
/// nothing but what was added and in which order: growing a tree a second time
/// by the same calls gives the same descriptors in the same order.
pub proof fn lemma_alike_flatten_alike<E, M>(a: RouteTree<E, M>, b: RouteTree<E, M>)
    requires
        a.alike(b),
    ensures
        a == b,
        a.flatten() == b.flatten(),
    decreases a,
{
    assert forall|i: int| 0 <= i < a.branches.len() implies a.branches[i] == b.branches[i] by {
        lemma_alike_flatten_alike(a.branches[i], b.branches[i]);
    }
    assert(a.branches =~= b.branches);
    assert(a.endpoints =~= b.endpoints);
}

/// Two branches added one after the other flatten in that order, behind all
/// that the node had before.
pub proof fn lemma_siblings_in_order<E, M>(
    tree: RouteTree<E, M>,
    first: RouteTree<E, M>,
    second: RouteTree<E, M>,
    names: Seq<Seq<char>>,
    chain: Seq<M>,
)
    ensures
        tree.with_branch(first).with_branch(second).flatten_below(names, chain)
            == tree.flatten_below(names, chain) + first.flatten_below(
            tree.segment.names_through(names),
            tree.segment.chain_through(chain),
        ) + second.flatten_below(
            tree.segment.names_through(names),
            tree.segment.chain_through(chain),
        ),
{
    lemma_branch_appends(tree, first, names, chain);
    lemma_branch_appends(tree.with_branch(first), second, names, chain);
}

/// A path segment reaches the branch that was opened for it and nothing else.
/// When such a branch is added to a node, the descriptors that the node had
/// stay as they were, and the path of every descriptor that the branch adds
/// leads on from the segments down to the node and the new segment behind them.
pub proof fn lemma_segment_covers_its_branch<E, M>(
    tree: RouteTree<E, M>,
    branch: RouteTree<E, M>,
    name: Seq<char>,
    names: Seq<Seq<char>>,
    chain: Seq<M>,
)
    requires
        branch.segment == Segment::<M>::Path(name),
    ensures
        tree.flatten_below(names, chain).is_prefix_of(
            tree.with_branch(branch).flatten_below(names, chain),
        ),
        forall|i: int|
            tree.flatten_below(names, chain).len() <= i < tree.with_branch(branch).flatten_below(
                names,
                chain,
            ).len() ==> leads_on(
                tree.segment.names_through(names).push(name),
                (#[trigger] tree.with_branch(branch).flatten_below(names, chain)[i]).path,
            ),
{
    let before = tree.flatten_below(names, chain);
    let after = tree.with_branch(branch).flatten_below(names, chain);
    let below = tree.segment.names_through(names);
    let inner = tree.segment.chain_through(chain);
    lemma_branch_appends(tree, branch, names, chain);
    assert forall|i: int| before.len() <= i < after.len() implies leads_on(
        below.push(name),
        (#[trigger] after[i]).path,
    ) by {
        lemma_descriptor_context(branch, below, inner, i - before.len());
    }
}

/// A middleware covers the branch that was opened for it and nothing else.
/// When such a branch is added to a node, the descriptors that the node had
/// stay as they were, middleware included, and every descriptor that the branch
/// adds has the new middleware right behind the middleware around the node.
pub proof fn lemma_middleware_covers_its_branch<E, M>(
    tree: RouteTree<E, M>,
    branch: RouteTree<E, M>,
    middleware: M,
    names: Seq<Seq<char>>,
    chain: Seq<M>,
)
    requires
        branch.segment == Segment::Middleware(middleware),
    ensures
        tree.flatten_below(names, chain).is_prefix_of(
            tree.with_branch(branch).flatten_below(names, chain),
        ),
        forall|i: int|
            tree.flatten_below(names, chain).len() <= i < tree.with_branch(branch).flatten_below(
                names,
                chain,
            ).len() ==> tree.segment.chain_through(chain).push(middleware).is_prefix_of(
                (#[trigger] tree.with_branch(branch).flatten_below(names, chain)[i]).middleware,
            ),
{
    let before = tree.flatten_below(names, chain);
    let after = tree.with_branch(branch).flatten_below(names, chain);
    let below = tree.segment.names_through(names);
    let inner = tree.segment.chain_through(chain);
    lemma_branch_appends(tree, branch, names, chain);
    assert forall|i: int| before.len() <= i < after.len() implies inner.push(
        middleware,
    ).is_prefix_of((#[trigger] after[i]).middleware) by {
        lemma_descriptor_context(branch, below, inner, i - before.len());
    }
}

/// Middleware is ordered from the outside in: a branch opened for one
/// middleware inside a branch opened for another gives its descriptors both,
/// the outer one first, behind the middleware around the outer branch.
pub proof fn lemma_nested_middleware_in_order<E, M>(
    outer: RouteTree<E, M>,
    inner: RouteTree<E, M>,
    first: M,
    second: M,
    names: Seq<Seq<char>>,
    chain: Seq<M>,
)
    requires
        outer.segment == Segment::Middleware(first),
        inner.segment == Segment::Middleware(second),
    ensures
        forall|i: int|
            outer.flatten_below(names, chain).len() <= i < outer.with_branch(inner).flatten_below(
                names,
                chain,
            ).len() ==> chain.push(first).push(second).is_prefix_of(
                (#[trigger] outer.with_branch(inner).flatten_below(names, chain)[i]).middleware,
            ),
{
    lemma_middleware_covers_its_branch(outer, inner, second, names, chain);
}

/// The descriptors of the first branches stay where they are when more
/// branches are counted in.
pub proof fn lemma_branches_extend<E, M>(
    tree: RouteTree<E, M>,
    fewer: nat,
    count: nat,
    names: Seq<Seq<char>>,
    chain: Seq<M>,
)
    requires
        fewer <= count <= tree.branches.len(),
    ensures
        tree.flatten_branches(fewer, names, chain).is_prefix_of(
            tree.flatten_branches(count, names, chain),
        ),
    decreases count,
{
    if fewer < count {
        lemma_branches_extend(tree, fewer, (count - 1) as nat, names, chain);
    }
}

/// Where each endpoint goes. The endpoint in place `k` of the node at the end
/// of `route` is flattened to the descriptor in the place that follows all
/// endpoints met before it on a walk depth first, a node's own before its
/// branches'. That descriptor has, as its path, the path segments from the root
/// down to the node, joined by `/`, and as its middleware that of the nodes
/// from the root down to the node, in that order.
pub proof fn lemma_endpoint_place<E, M>(
    tree: RouteTree<E, M>,
    route: Seq<int>,
    k: int,
    names: Seq<Seq<char>>,
    chain: Seq<M>,
)
    requires
        tree.has(route),
        0 <= k < tree.node(route).endpoints.len(),
    ensures
        tree.offset(route) + k < tree.flatten_below(names, chain).len(),
        tree.flatten_below(names, chain)[tree.offset(route) + k] == tree.descriptor(
            route,
            k,
            names,
            chain,
        ),
    decreases route.len(),
{
    if route.len() > 0 {
        let taken: int = route[0];
        let branch = tree.branches[taken];
        let below = tree.segment.names_through(names);
        let inner = tree.segment.chain_through(chain);
        lemma_endpoint_place(branch, route.drop_first(), k, below, inner);
        lemma_one_for_each_in_branches(tree, taken as nat, below, inner);
        lemma_branches_extend(tree, (taken + 1) as nat, tree.branches.len(), below, inner);
        let at: int = branch.offset(route.drop_first()) + k;
        let upto = tree.flatten_branches((taken + 1) as nat, below, inner);
        assert(upto[tree.size_of_branches(taken as nat) + at] == branch.flatten_below(
            below,
            inner,
        )[at]);
    }
}

/// The branch that a descriptor of the first `count` branches comes from, and
/// its place among the descriptors of that branch.
pub proof fn lemma_branch_of<E, M>(
    tree: RouteTree<E, M>,
    count: nat,
    names: Seq<Seq<char>>,
    chain: Seq<M>,
    i: int,
) -> (found: (int, int))
    requires
        count <= tree.branches.len(),
        0 <= i < tree.flatten_branches(count, names, chain).len(),
    ensures
        0 <= found.0 < count,
        0 <= found.1 < tree.branches[found.0].flatten_below(names, chain).len(),
        i == tree.size_of_branches(found.0 as nat) + found.1,
        tree.flatten_branches(count, names, chain)[i] == tree.branches[found.0].flatten_below(
            names,
            chain,
        )[found.1],
    decreases count,
{
    let before = tree.flatten_branches((count - 1) as nat, names, chain);
    if i < before.len() {
        lemma_branch_of(tree, (count - 1) as nat, names, chain, i)
    } else {
        lemma_one_for_each_in_branches(tree, (count - 1) as nat, names, chain);
        (count - 1, i - before.len())
    }
}

/// Where each descriptor comes from: there is a node of the tree, at the end
/// of the route that is returned, and a place among that node's endpoints, such
/// that the descriptor is the one of that endpoint and stands in that
/// endpoint's place. With [`lemma_endpoint_place`]: the descriptors are the
/// endpoints of the tree, each once, in the order of a walk depth first.
pub proof fn lemma_descriptor_origin<E, M>(
    tree: RouteTree<E, M>,
    names: Seq<Seq<char>>,
    chain: Seq<M>,
    i: int,
) -> (found: (Seq<int>, int))
    requires
        0 <= i < tree.flatten_below(names, chain).len(),
    ensures
        tree.has(found.0),
        0 <= found.1 < tree.node(found.0).endpoints.len(),
        i == tree.offset(found.0) + found.1,
        tree.flatten_below(names, chain)[i] == tree.descriptor(found.0, found.1, names, chain),
    decreases tree,
{
    if i < tree.endpoints.len() {
        (Seq::empty(), i)
    } else {
        let below = tree.segment.names_through(names);
        let inner = tree.segment.chain_through(chain);
        let place: (int, int) = lemma_branch_of(
            tree,
            tree.branches.len(),
            below,
            inner,
            i - tree.endpoints.len(),
        );
        let origin: (Seq<int>, int) = lemma_descriptor_origin(
            tree.branches[place.0],
            below,
            inner,
            place.1,
        );
        let route = seq![place.0] + origin.0;
        assert(route.drop_first() =~= origin.0);
        (route, origin.1)
    }
}

} // verus!
