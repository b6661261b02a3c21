//! The state of one search: the best route known to each node reached, and
//! the frontier of nodes that wait to be expanded.

use crate::frontier::{least, Frontier, Node};
use crate::route::{route_extend, route_new, route_nodes, route_push, route_slice, Route, ROUTE_LIMIT};
use std::collections::HashMap;
use vstd::multiset::Multiset;
use vstd::prelude::*;

verus! {

/// What a search holds, as plain values.
pub struct SearchView {
    /// The goal.
    pub end: usize,
    /// The entries of the frontier.
    pub queue: Multiset<Node>,
    /// For each node reached, the best route known to it: the nodes walked
    /// from the start, the node itself left out.
    pub costs: Map<usize, Seq<usize>>,
}

/// How far apart two nodes are by their numbers.
pub open spec fn distance(a: usize, b: usize) -> nat {
    if a >= b {
        (a - b) as nat
    } else {
        (b - a) as nat
    }
}

/// The estimate under which a node waits in the frontier: the length of the
/// route recorded to it, and its distance from the goal.
pub open spec fn estimate(end: usize, index: usize, len: nat) -> u128 {
    (len + distance(end, index)) as u128
}

/// A route of `len` nodes would be recorded for `index`: none is recorded yet,
/// or the one recorded is longer.
pub open spec fn improves(costs: Map<usize, Seq<usize>>, index: usize, len: nat) -> bool {
    !costs.contains_key(index) || len < costs[index].len()
}

/// The table after `candidate` was offered as a route to `index`.
pub open spec fn record_if_better(
    costs: Map<usize, Seq<usize>>,
    index: usize,
    candidate: Seq<usize>,
) -> Map<usize, Seq<usize>> {
    if improves(costs, index, candidate.len()) {
        costs.insert(index, candidate)
    } else {
        costs
    }
}

impl SearchView {
    /// A search that has reached nothing but `start`.
    pub open spec fn initial(start: usize, end: usize) -> SearchView {
        SearchView {
            end,
            queue: Multiset::empty().insert(Node { index: start, priority: 0 }),
            costs: Map::empty().insert(start, Seq::empty()),
        }
    }

    /// The search after the edge from `parent` to `index` was walked, where
    /// `previous` is the route to `parent`: the route through `parent` is
    /// recorded if it is better, and `index` then waits in the frontier once
    /// more.
    pub open spec fn relax(self, index: usize, previous: Seq<usize>, parent: usize) -> SearchView {
        let candidate = previous.push(parent);
        if improves(self.costs, index, candidate.len()) {
            SearchView {
                end: self.end,
                queue: self.queue.insert(
                    Node { index, priority: estimate(self.end, index, candidate.len()) },
                ),
                costs: self.costs.insert(index, candidate),
            }
        } else {
            self
        }
    }
}

/// Every node that had a route before has one after, and none that is
/// longer.
pub open spec fn never_longer(
    before: Map<usize, Seq<usize>>,
    after: Map<usize, Seq<usize>>,
) -> bool {
    forall|node: usize| #[trigger]
        before.contains_key(node) ==> after.contains_key(node) && after[node].len()
            <= before[node].len()
}

/// Walking an edge offers one route to the table, and the route recorded
/// for a node never grows longer by it.
pub proof fn lemma_relax_never_longer(
    view: SearchView,
    index: usize,
    previous: Seq<usize>,
    parent: usize,
)
    ensures
        view.relax(index, previous, parent).costs == record_if_better(
            view.costs,
            index,
            previous.push(parent),
        ),
        never_longer(view.costs, view.relax(index, previous, parent).costs),
{
}

/// The state of one search.
pub struct SearchState {
    end: usize,
    queue: Frontier,
    costs: HashMap<usize, Route>,
}

impl View for SearchState {
    type V = SearchView;

    closed spec fn view(&self) -> SearchView {
        SearchView {
            end: self.end,
            queue: self.queue@,
            costs: self.costs@.map_values(|route: Route| route_nodes(route)),
        }
    }
}

impl SearchState {
    /// The frontier is in order.
    pub closed spec fn wf(&self) -> bool {
        self.queue.wf()
    }

    /// Begins a search from `start` for `end`: the empty route is recorded
    /// for `start`, which waits in the frontier.
    pub fn new(start: usize, end: usize) -> (search: SearchState)
        ensures
            search.wf(),
            search@ == SearchView::initial(start, end),
    {
        let mut search = SearchState { end, queue: Frontier::new(), costs: HashMap::new() };
        search.costs.insert(start, route_new());
        search.queue.push(Node { index: start, priority: 0 });
        assert(search@.costs =~= SearchView::initial(start, end).costs);
        search
    }

    /// Walks the edge from `parent` to `index`, where `previous_path` is the
    /// route recorded for `parent`.
    pub fn visit(&mut self, index: usize, previous_path: &[usize], parent: usize)
        requires
            old(self).wf(),
            previous_path@.len() < ROUTE_LIMIT,
        ensures
            final(self).wf(),
            final(self)@ == old(self)@.relax(index, previous_path@, parent),
    {
        if self.should_update_position(index, previous_path) {
            let mut new_path = route_new();
            route_extend(&mut new_path, previous_path);
            route_push(&mut new_path, parent);
            assert(route_nodes(new_path) =~= previous_path@.push(parent));
            let len: usize = previous_path.len() + 1;
            let priority: u128 = len as u128 + self.distance_from_end(index) as u128;
            self.costs.insert(index, new_path);
            self.queue.push(Node { index, priority });
            assert(self@.costs =~= old(self)@.costs.insert(index, previous_path@.push(parent)));
        }
    }

    /// The route recorded for `index`, where it has been reached.
    pub fn path(&self, index: usize) -> (route: Option<&[usize]>)
        ensures
            route is Some <==> self@.costs.contains_key(index),
            route is Some ==> route->0@ == self@.costs[index],
    {
        match self.costs.get(&index) {
            Some(route) => Some(route_slice(route)),
            None => None,
        }
    }

    /// The goal of the search.
    pub fn end(&self) -> (end: usize)
        ensures
            end == self@.end,
    {
        self.end
    }

    /// Whether `index` is the goal.
    pub fn is_done(&self, index: usize) -> (done: bool)
        ensures
            done == (index == self@.end),
    {
        self.end == index
    }

    /// Whether a route through a parent reached by `path` would be recorded
    /// for `index`.
    pub fn should_update_position(&self, index: usize, path: &[usize]) -> (better: bool)
        ensures
            better == improves(self@.costs, index, path@.len() + 1),
    {
        match self.costs.get(&index) {
            Some(route) => {
                let known: usize = route_slice(route).len();
                known > 0 && path.len() < known - 1
            },
            None => true,
        }
    }

    /// The distance of `index` from the goal by node numbers.
    pub fn distance_from_end(&self, index: usize) -> (d: usize)
        ensures
            d == distance(self@.end, index),
    {
        if self.end >= index {
            self.end - index
        } else {
            index - self.end
        }
    }

    /// Takes the node that waits under the least estimate out of the
    /// frontier; `None` where nothing waits.
    pub fn next(&mut self) -> (index: Option<usize>)
        requires
            old(self).wf(),
        ensures
            final(self).wf(),
            final(self)@.end == old(self)@.end,
            final(self)@.costs == old(self)@.costs,
            old(self)@.queue.len() == 0 ==> index is None && final(self)@ == old(self)@,
            old(self)@.queue.len() > 0 ==> index == Some(least(old(self)@.queue).index)
                && final(self)@.queue == old(self)@.queue.remove(least(old(self)@.queue)),
    {
        match self.queue.pop() {
            Some(node) => Some(node.index),
            None => None,
        }
    }
}

} // verus!
