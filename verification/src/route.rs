//! A route: the sequence of nodes that leads to a node, kept in a `SmallVec`.

use smallvec::SmallVec;
use vstd::prelude::*;

verus! {

/// A route: the nodes walked, in order. The nodes live in a
/// `smallvec::SmallVec`, which stays opaque here; what it holds is named by
/// [`route_nodes`].
#[verifier::external_body]
pub struct Route {
    nodes: SmallVec<[usize; 8]>,
}

/// The nodes that a route holds, first to last.
pub uninterp spec fn route_nodes(route: Route) -> Seq<usize>;

impl View for Route {
    type V = Seq<usize>;

    open spec fn view(&self) -> Seq<usize> {
        route_nodes(*self)
    }
}

impl Route {
    /// The nodes of the route, first to last.
    pub fn as_slice(&self) -> (nodes: &[usize])
        ensures
            nodes@ == self@,
    {
        route_slice(self)
    }
}

/// The most nodes that a route is made to hold. To grow, a `SmallVec` asks
/// for the next power of two of its new length, and panics ("capacity
/// overflow") where that many `usize` take more than `isize::MAX` bytes; up
/// to this length they never do.
pub const ROUTE_LIMIT: usize = usize::MAX / 32;

/// `SmallVec::new`: a route without nodes.
#[verifier::external_body]
pub(crate) fn route_new() -> (route: Route)
    ensures
        route_nodes(route) == Seq::<usize>::empty(),
{
    Route { nodes: SmallVec::new() }
}

/// `SmallVec::clear`: the route loses every node.
#[verifier::external_body]
pub(crate) fn route_clear(route: &mut Route)
    ensures
        route_nodes(*final(route)) == Seq::<usize>::empty(),
{
    route.nodes.clear()
}

/// `SmallVec::push`: the route gains `node` as its last node. Within
/// [`ROUTE_LIMIT`] the growth that this may take does not overflow.
#[verifier::external_body]
pub(crate) fn route_push(route: &mut Route, node: usize)
    requires
        route_nodes(*old(route)).len() < ROUTE_LIMIT,
    ensures
        route_nodes(*final(route)) == route_nodes(*old(route)).push(node),
{
    route.nodes.push(node)
}

/// `SmallVec::extend_from_slice`: the route gains the nodes of `nodes`, in
/// their order, after its own. Within [`ROUTE_LIMIT`] the growth that this
/// may take does not overflow.
#[verifier::external_body]
pub(crate) fn route_extend(route: &mut Route, nodes: &[usize])
    requires
        route_nodes(*old(route)).len() + nodes@.len() <= ROUTE_LIMIT,
    ensures
        route_nodes(*final(route)) == route_nodes(*old(route)) + nodes@,
{
    route.nodes.extend_from_slice(nodes)
}

/// `SmallVec::as_slice`: the nodes of the route, first to last, as a slice.
#[verifier::external_body]
pub(crate) fn route_slice(route: &Route) -> (nodes: &[usize])
    ensures
        nodes@ == route_nodes(*route),
{
    route.nodes.as_slice()
}

} // verus!
