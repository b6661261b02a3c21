//! What holds of every search: the routes recorded are walks of the graph
//! read so far, and a search that ends with a route ends with such a walk.

use crate::frontier::{least, lemma_least_exists, Node};
use crate::model::{
    expand, lemma_expand_nearer, lemma_expand_never_longer, recorded, tally, unseen, Model,
    Outcome, Phase, Progress,
};
use crate::search::{never_longer, SearchView};
use vstd::multiset::Multiset;
use vstd::prelude::*;

verus! {

/// `walk` begins at `start`, and each node of it but the last has been read
/// and lists the next among its children.
pub open spec fn is_walk(rows: Seq<Seq<usize>>, start: usize, walk: Seq<usize>) -> bool {
    &&& walk.len() > 0
    &&& walk[0] == start
    &&& forall|i: int|
        0 <= i < walk.len() - 1 ==> (#[trigger] walk[i]) < rows.len() && rows[walk[i] as int].contains(
            walk[i + 1],
        )
}

/// The route recorded for `node` is a walk from the start that ends in
/// `node`, passes no node twice, and passes each node no sooner than the
/// route recorded for that node reaches it.
pub open spec fn sound_entry(
    rows: Seq<Seq<usize>>,
    start: usize,
    costs: Map<usize, Seq<usize>>,
    node: usize,
) -> bool {
    let route = costs[node];
    &&& is_walk(rows, start, route.push(node))
    &&& route.no_duplicates()
    &&& forall|i: int|
        0 <= i < route.len() ==> costs.contains_key(#[trigger] route[i]) && costs[route[i]].len()
            <= i
}

/// Every route recorded is sound.
pub open spec fn sound(rows: Seq<Seq<usize>>, start: usize, costs: Map<usize, Seq<usize>>) -> bool {
    forall|node: usize| #[trigger] costs.contains_key(node) ==> sound_entry(rows, start, costs, node)
}

/// Every node that waits in the frontier has a route recorded.
pub open spec fn queue_reached(search: SearchView) -> bool {
    forall|node: Node| #[trigger]
        search.queue.contains(node) ==> search.costs.contains_key(node.index)
}

/// An entry of `index` waits in the frontier.
pub open spec fn waiting(queue: Multiset<Node>, index: usize) -> bool {
    exists|node: Node| #[trigger] queue.contains(node) && node.index == index
}

/// The row of `index` has been read, and each of its children has a route
/// recorded.
pub open spec fn spent(rows: Seq<Seq<usize>>, costs: Map<usize, Seq<usize>>, index: usize) -> bool {
    &&& index < rows.len()
    &&& forall|j: int|
        0 <= j < rows[index as int].len() ==> costs.contains_key(#[trigger] rows[index as int][j])
}

/// Nothing reached is forgotten: the start has a route; the goal, once it
/// has one, waits in the frontier; and every node that has a route waits in
/// the frontier, is being expanded, or has been expanded.
pub open spec fn thorough(model: Model) -> bool {
    &&& model.search.costs.contains_key(model.start)
    &&& model.search.costs.contains_key(model.search.end) ==> waiting(
        model.search.queue,
        model.search.end,
    )
    &&& forall|node: usize| #[trigger]
        model.search.costs.contains_key(node) ==> waiting(model.search.queue, node) || model.phase
            == Phase::Expanding(node) || spent(model.rows, model.search.costs, node)
}

/// The rows hold a set of nodes that no edge leaves: `start` is in it, `end`
/// is not, and the row of each node in it has been read and leads to nodes in
/// it only.
pub open spec fn sealed(rows: Seq<Seq<usize>>, start: usize, end: usize) -> bool {
    exists|costs: Map<usize, Seq<usize>>|
        {
            &&& #[trigger] costs.contains_key(start)
            &&& !costs.contains_key(end)
            &&& forall|node: usize| #[trigger] costs.contains_key(node) ==> spent(rows, costs, node)
        }
}

impl Model {
    /// What holds of a search between any two steps.
    pub open spec fn inv(self) -> bool {
        &&& sound(self.rows, self.start, self.search.costs)
        &&& queue_reached(self.search)
        &&& thorough(self)
        &&& match self.phase {
            Phase::Expanding(current) => self.search.costs.contains_key(current),
            Phase::Picking => true,
            Phase::Settling => self.search.queue.len() == 0,
        }
    }

    /// The search waits for a row that has not been read.
    pub open spec fn waits(self) -> bool {
        &&& !(self.phase is Picking)
        &&& self.wanted() >= self.rows.len()
    }
}

/// Distinct nodes below a bound are no more than the bound.
pub proof fn lemma_short(route: Seq<usize>, bound: int)
    requires
        route.no_duplicates(),
        forall|i: int| 0 <= i < route.len() ==> (#[trigger] route[i]) < bound,
    ensures
        route.len() <= bound || route.len() == 0,
    decreases bound,
{
    if route.len() > 0 {
        if bound <= 0 {
            assert(route[0] < bound);
        } else if exists|k: int| 0 <= k < route.len() && route[k] == bound - 1 {
            let k = choose|k: int| 0 <= k < route.len() && route[k] == bound - 1;
            let rest = route.remove(k);
            assert forall|i: int| 0 <= i < rest.len() implies (#[trigger] rest[i]) < bound - 1 by {
                if i < k {
                    assert(rest[i] == route[i]);
                } else {
                    assert(rest[i] == route[i + 1]);
                }
            }
            assert forall|i: int, j: int|
                0 <= i < rest.len() && 0 <= j < rest.len() && i != j implies rest[i] != rest[j] by {
                let a = if i < k {
                    i
                } else {
                    i + 1
                };
                let b = if j < k {
                    j
                } else {
                    j + 1
                };
                assert(rest[i] == route[a] && rest[j] == route[b]);
            }
            lemma_short(rest, bound - 1);
        } else {
            assert forall|i: int| 0 <= i < route.len() implies (#[trigger] route[i]) < bound
                - 1 by {}
            lemma_short(route, bound - 1);
        }
    }
}

/// A route that passes no node twice, and each node no sooner than the
/// route recorded for it, does not pass the node that it leads to.
pub proof fn lemma_whole_route_simple(costs: Map<usize, Seq<usize>>, node: usize)
    requires
        costs[node].no_duplicates(),
        forall|i: int|
            0 <= i < costs[node].len() ==> costs.contains_key(#[trigger] costs[node][i])
                && costs[costs[node][i]].len() <= i,
    ensures
        costs[node].push(node).no_duplicates(),
{
    let route = costs[node];
    let whole = route.push(node);
    assert forall|i: int, j: int|
        0 <= i < whole.len() && 0 <= j < whole.len() && i != j implies whole[i] != whole[j] by {
        if i < route.len() && j < route.len() {
            assert(route[i] != route[j]);
        } else if i < route.len() {
            assert(costs[route[i]].len() <= i);
        } else {
            assert(costs[route[j]].len() <= j);
        }
    }
}

/// A sound route to a node that has been read passes fewer nodes than have
/// been read; a sound route to any node passes no more.
pub proof fn lemma_route_len(
    rows: Seq<Seq<usize>>,
    start: usize,
    costs: Map<usize, Seq<usize>>,
    node: usize,
)
    requires
        costs.contains_key(node),
        sound_entry(rows, start, costs, node),
    ensures
        costs[node].len() <= rows.len(),
        node < rows.len() ==> costs[node].len() < rows.len(),
{
    let route = costs[node];
    let walk = route.push(node);
    assert forall|i: int| 0 <= i < route.len() implies (#[trigger] route[i]) < rows.len() by {
        assert(walk[i] == route[i]);
    }
    lemma_short(route, rows.len() as int);
    if node < rows.len() {
        lemma_whole_route_simple(costs, node);
        assert forall|i: int| 0 <= i < walk.len() implies (#[trigger] walk[i]) < rows.len() by {
            if i < route.len() {
                assert(walk[i] == route[i]);
            }
        }
        lemma_short(walk, rows.len() as int);
    }
}

/// The route through `parent` that improves on what is recorded for `child`
/// is sound once it is recorded.
proof fn lemma_candidate_sound(
    rows: Seq<Seq<usize>>,
    start: usize,
    before: Map<usize, Seq<usize>>,
    child: usize,
    parent: usize,
)
    requires
        before.contains_key(parent),
        sound_entry(rows, start, before, parent),
        parent < rows.len(),
        rows[parent as int].contains(child),
        !before.contains_key(child) || before[parent].len() + 1 < before[child].len(),
    ensures
        sound_entry(rows, start, before.insert(child, before[parent].push(parent)), child),
        child != parent,
{
    let previous = before[parent];
    let candidate = previous.push(parent);
    let costs = before.insert(child, candidate);
    let walk = candidate.push(child);
    let old_walk = previous.push(parent);
    assert(costs[child] == candidate);
    assert(walk[0] == old_walk[0]);
    assert forall|i: int| 0 <= i < walk.len() - 1 implies (#[trigger] walk[i]) < rows.len()
        && rows[walk[i] as int].contains(walk[i + 1]) by {
        if i < previous.len() {
            assert(walk[i] == old_walk[i]);
            assert(walk[i + 1] == old_walk[i + 1]);
        } else {
            assert(walk[i] == parent);
            assert(walk[i + 1] == child);
        }
    }
    assert(is_walk(rows, start, walk));
    assert forall|i: int| 0 <= i < candidate.len() implies before.contains_key(
        #[trigger] candidate[i],
    ) && before[candidate[i]].len() <= i && candidate[i] != child by {
        if i < previous.len() {
            assert(candidate[i] == previous[i]);
            assert(before.contains_key(previous[i]) && before[previous[i]].len() <= i);
        } else {
            assert(candidate[i] == parent);
        }
    }
    assert forall|i: int, j: int|
        0 <= i < candidate.len() && 0 <= j < candidate.len() && i != j implies candidate[i]
        != candidate[j] by {
        if i < previous.len() && j < previous.len() {
            assert(previous[i] != previous[j]);
        } else if i < previous.len() {
            assert(candidate[i] == previous[i]);
            assert(before[previous[i]].len() <= i);
        } else {
            assert(candidate[j] == previous[j]);
            assert(before[previous[j]].len() <= j);
        }
    }
    assert(candidate.no_duplicates());
    assert forall|i: int| 0 <= i < candidate.len() implies costs.contains_key(
        #[trigger] candidate[i],
    ) && costs[candidate[i]].len() <= i by {
        assert(candidate[i] != child);
        assert(costs[candidate[i]] == before[candidate[i]]);
    }
}

/// A sound route stays sound when a shorter route is recorded for another
/// node.
proof fn lemma_other_sound(
    rows: Seq<Seq<usize>>,
    start: usize,
    before: Map<usize, Seq<usize>>,
    child: usize,
    candidate: Seq<usize>,
    node: usize,
)
    requires
        before.contains_key(node),
        sound_entry(rows, start, before, node),
        node != child,
        !before.contains_key(child) || candidate.len() < before[child].len(),
    ensures
        sound_entry(rows, start, before.insert(child, candidate), node),
{
    let costs = before.insert(child, candidate);
    let route = before[node];
    assert(costs[node] == route);
    assert forall|i: int| 0 <= i < route.len() implies costs.contains_key(#[trigger] route[i])
        && costs[route[i]].len() <= i by {
        assert(before.contains_key(route[i]) && before[route[i]].len() <= i);
        if route[i] != child {
            assert(costs[route[i]] == before[route[i]]);
        }
    }
}

/// Walking an edge that was read from a node whose own route is recorded
/// keeps the table sound, keeps that route, and keeps every node of the
/// frontier reached.
pub proof fn lemma_relax_sound(
    search: SearchView,
    rows: Seq<Seq<usize>>,
    start: usize,
    child: usize,
    parent: usize,
)
    requires
        sound(rows, start, search.costs),
        queue_reached(search),
        search.costs.contains_key(parent),
        parent < rows.len(),
        rows[parent as int].contains(child),
    ensures
        ({
            let after = search.relax(child, search.costs[parent], parent);
            &&& sound(rows, start, after.costs)
            &&& queue_reached(after)
            &&& after.end == search.end
            &&& after.costs.contains_key(parent)
            &&& after.costs[parent] == search.costs[parent]
            &&& forall|node: usize|
                search.costs.contains_key(node) ==> #[trigger] after.costs.contains_key(node)
        }),
{
    let before = search.costs;
    let previous = before[parent];
    let candidate = previous.push(parent);
    let after = search.relax(child, previous, parent);
    if after != search {
        let costs = after.costs;
        assert(costs == before.insert(child, candidate));
        lemma_candidate_sound(rows, start, before, child, parent);
        assert forall|node: usize| #[trigger] costs.contains_key(node) implies sound_entry(
            rows,
            start,
            costs,
            node,
        ) by {
            if node != child {
                assert(before.contains_key(node));
                lemma_other_sound(rows, start, before, child, candidate, node);
            }
        }
        assert forall|node: Node| #[trigger] after.queue.contains(node) implies costs.contains_key(
            node.index,
        ) by {
            if !search.queue.contains(node) {
                assert(node.index == child);
            }
        }
    }
}

/// Walking the first `k` edges of the row of a node whose route is recorded
/// keeps the table sound, keeps that route, and keeps every node of the
/// frontier reached.
pub proof fn lemma_expand_sound(
    search: SearchView,
    rows: Seq<Seq<usize>>,
    start: usize,
    parent: usize,
    k: int,
)
    requires
        sound(rows, start, search.costs),
        queue_reached(search),
        search.costs.contains_key(parent),
        parent < rows.len(),
        0 <= k <= rows[parent as int].len(),
    ensures
        ({
            let after = expand(
                search,
                rows[parent as int].take(k),
                search.costs[parent],
                parent,
            );
            &&& sound(rows, start, after.costs)
            &&& queue_reached(after)
            &&& after.end == search.end
            &&& after.costs.contains_key(parent)
            &&& after.costs[parent] == search.costs[parent]
            &&& forall|node: usize|
                search.costs.contains_key(node) ==> #[trigger] after.costs.contains_key(node)
        }),
    decreases k,
{
    if k > 0 {
        let row = rows[parent as int].take(k);
        assert(row.drop_last() =~= rows[parent as int].take(k - 1));
        assert(row.last() == rows[parent as int][k - 1]);
        lemma_expand_sound(search, rows, start, parent, k - 1);
        let mid = expand(search, rows[parent as int].take(k - 1), search.costs[parent], parent);
        lemma_relax_sound(mid, rows, start, rows[parent as int][k - 1], parent);
    }
}

/// Reading one more row keeps the table sound.
pub proof fn lemma_row_sound(
    rows: Seq<Seq<usize>>,
    start: usize,
    costs: Map<usize, Seq<usize>>,
    row: Seq<usize>,
)
    requires
        sound(rows, start, costs),
    ensures
        sound(rows.push(row), start, costs),
{
    let more = rows.push(row);
    assert forall|node: usize| #[trigger] costs.contains_key(node) implies sound_entry(
        more,
        start,
        costs,
        node,
    ) by {
        assert(sound_entry(rows, start, costs, node));
        let walk = costs[node].push(node);
        assert forall|i: int| 0 <= i < walk.len() - 1 implies (#[trigger] walk[i]) < more.len()
            && more[walk[i] as int].contains(walk[i + 1]) by {
            assert(more[walk[i] as int] == rows[walk[i] as int]);
        }
    }
}

/// Expanding a node keeps every entry of the frontier, records a route for
/// each child, and leaves each node that it reached waiting in the frontier.
pub proof fn lemma_expand_reaches(
    search: SearchView,
    row: Seq<usize>,
    previous: Seq<usize>,
    parent: usize,
)
    ensures
        ({
            let after = expand(search, row, previous, parent);
            &&& forall|node: Node|
                search.queue.contains(node) ==> #[trigger] after.queue.contains(node)
            &&& forall|node: usize| #[trigger]
                after.costs.contains_key(node) ==> search.costs.contains_key(node) || waiting(
                    after.queue,
                    node,
                )
            &&& forall|j: int| 0 <= j < row.len() ==> after.costs.contains_key(#[trigger] row[j])
            &&& forall|node: usize|
                search.costs.contains_key(node) ==> #[trigger] after.costs.contains_key(node)
        }),
    decreases row.len(),
{
    if row.len() > 0 {
        let child = row.last();
        let mid = expand(search, row.drop_last(), previous, parent);
        let after = mid.relax(child, previous, parent);
        lemma_expand_reaches(search, row.drop_last(), previous, parent);
        assert(after == expand(search, row, previous, parent));
        assert forall|node: Node| search.queue.contains(node) implies #[trigger] after.queue.contains(
            node,
        ) by {
            assert(mid.queue.contains(node));
        }
        assert forall|node: usize| search.costs.contains_key(node) implies #[trigger] after.costs.contains_key(
            node,
        ) by {
            assert(mid.costs.contains_key(node));
        }
        assert forall|node: usize| #[trigger] after.costs.contains_key(node) implies search.costs.contains_key(
            node,
        ) || waiting(after.queue, node) by {
            if mid.costs.contains_key(node) {
                if !search.costs.contains_key(node) {
                    let entry = choose|entry: Node| #[trigger]
                        mid.queue.contains(entry) && entry.index == node;
                    assert(after.queue.contains(entry));
                }
            } else {
                let entry = Node {
                    index: child,
                    priority: crate::search::estimate(
                        mid.end,
                        child,
                        previous.push(parent).len(),
                    ),
                };
                assert(after.queue.contains(entry));
            }
        }
        assert forall|j: int| 0 <= j < row.len() implies after.costs.contains_key(
            #[trigger] row[j],
        ) by {
            if j < row.len() - 1 {
                assert(row.drop_last()[j] == row[j]);
            }
        }
    }
}

/// Where nothing reached is forgotten and the frontier is empty, the nodes
/// reached are sealed off from the goal.
pub proof fn lemma_empty_sealed(model: Model)
    requires
        thorough(model),
        model.search.queue.len() == 0,
        !(model.phase is Expanding),
    ensures
        sealed(model.rows, model.start, model.search.end),
{
    let costs = model.search.costs;
    assert forall|node: usize| !waiting(model.search.queue, node) by {
        if waiting(model.search.queue, node) {
            let entry = choose|entry: Node| #[trigger]
                model.search.queue.contains(entry) && entry.index == node;
            assert(model.search.queue.count(entry) <= model.search.queue.len());
        }
    }
    assert(costs.contains_key(model.start));
    assert forall|node: usize| #[trigger] costs.contains_key(node) implies spent(
        model.rows,
        costs,
        node,
    ) by {}
}

/// Taking the least node out of the frontier, where it is not the goal,
/// forgets nothing that was reached.
proof fn lemma_picked_thorough(model: Model)
    requires
        thorough(model),
        model.phase is Picking,
        model.search.queue.len() > 0,
        least(model.search.queue).index != model.search.end,
    ensures
        thorough(model.picked(least(model.search.queue))),
{
    let node = least(model.search.queue);
    let after = model.picked(node);
    assert forall|index: usize|
        waiting(model.search.queue, index) && index != node.index implies waiting(
        after.search.queue,
        index,
    ) by {
        let entry = choose|entry: Node| #[trigger]
            model.search.queue.contains(entry) && entry.index == index;
        assert(after.search.queue.count(entry) == model.search.queue.count(entry));
        assert(after.search.queue.contains(entry));
    }
}

/// Expanding a node whose row has been read forgets nothing that was
/// reached.
proof fn lemma_expanded_thorough(model: Model, current: usize)
    requires
        thorough(model),
        model.phase == Phase::Expanding(current),
        current < model.rows.len(),
    ensures
        thorough(model.expanded(current)),
{
    let row = model.rows[current as int];
    let after = model.expanded(current);
    lemma_expand_reaches(model.search, row, model.search.costs[current], current);
    lemma_expand_sound_end(model.search, row, model.search.costs[current], current);
    assert forall|index: usize| waiting(model.search.queue, index) implies waiting(
        after.search.queue,
        index,
    ) by {
        let entry = choose|entry: Node| #[trigger]
            model.search.queue.contains(entry) && entry.index == index;
        assert(after.search.queue.contains(entry));
    }
    assert forall|node: usize| #[trigger] after.search.costs.contains_key(node) implies waiting(
        after.search.queue,
        node,
    ) || spent(after.rows, after.search.costs, node) by {
        if model.search.costs.contains_key(node) {
            if node == current {
                assert(spent(after.rows, after.search.costs, node));
            } else if !waiting(model.search.queue, node) {
                assert(spent(model.rows, model.search.costs, node));
                assert(spent(after.rows, after.search.costs, node));
            }
        }
    }
}

/// Expanding a node leaves the goal of the search as it was.
proof fn lemma_expand_sound_end(
    search: SearchView,
    row: Seq<usize>,
    previous: Seq<usize>,
    parent: usize,
)
    ensures
        expand(search, row, previous, parent).end == search.end,
    decreases row.len(),
{
    if row.len() > 0 {
        lemma_expand_sound_end(search, row.drop_last(), previous, parent);
    }
}

/// Reading one more row forgets nothing that was reached.
proof fn lemma_with_row_thorough(model: Model, row: Seq<usize>)
    requires
        thorough(model),
    ensures
        thorough(model.with_row(row)),
{
    let after = model.with_row(row);
    assert forall|node: usize| #[trigger] after.search.costs.contains_key(node) implies waiting(
        after.search.queue,
        node,
    ) || after.phase == Phase::Expanding(node) || spent(after.rows, after.search.costs, node) by {
        if spent(model.rows, model.search.costs, node) {
            assert(after.rows[node as int] == model.rows[node as int]);
        }
    }
}

/// Taking the least node out of the frontier, where it is not the goal,
/// keeps what holds of a search.
pub proof fn lemma_picked_inv(model: Model)
    requires
        model.inv(),
        model.phase is Picking,
        model.search.queue.len() > 0,
    ensures
        model.search.costs.contains_key(least(model.search.queue).index),
        least(model.search.queue).index != model.search.end ==> model.picked(
            least(model.search.queue),
        ).inv(),
{
    lemma_least_exists(model.search.queue);
    let node = least(model.search.queue);
    let after = model.picked(node);
    assert forall|other: Node| #[trigger] after.search.queue.contains(other) implies after.search.costs.contains_key(
        other.index,
    ) by {
        assert(after.search.queue.count(other) <= model.search.queue.count(other));
        assert(model.search.queue.contains(other));
    }
    if node.index != model.search.end {
        lemma_picked_thorough(model);
    }
}

/// Expanding a node whose row has been read keeps what holds of a search.
pub proof fn lemma_expanded_inv(model: Model, current: usize)
    requires
        model.inv(),
        model.phase == Phase::Expanding(current),
        current < model.rows.len(),
    ensures
        model.expanded(current).inv(),
{
    let row = model.rows[current as int];
    lemma_expand_sound(model.search, model.rows, model.start, current, row.len() as int);
    assert(row.take(row.len() as int) =~= row);
    lemma_expanded_thorough(model, current);
}

/// Reading one more row keeps what holds of a search.
pub proof fn lemma_with_row_inv(model: Model, row: Seq<usize>)
    requires
        model.inv(),
    ensures
        model.with_row(row).inv(),
{
    lemma_row_sound(model.rows, model.start, model.search.costs, row);
    lemma_with_row_thorough(model, row);
}

/// What holds of a search holds as it begins.
pub proof fn lemma_initial_inv(start: usize, end: usize)
    ensures
        Model::initial(start, end).inv(),
{
    let model = Model::initial(start, end);
    let entry = Node { index: start, priority: 0 };
    assert(Seq::<usize>::empty().push(start)[0] == start);
    assert(sound_entry(model.rows, start, model.search.costs, start));
    assert(model.search.queue.contains(entry));
    assert(waiting(model.search.queue, start));
    assert forall|node: Node| #[trigger] model.search.queue.contains(node) implies model.search.costs.contains_key(
        node.index,
    ) by {
        if node != entry {
            assert(model.search.queue.count(node) == 0);
        }
    }
}

/// A search that runs on from a state in which all of this holds never
/// fails by itself. It comes to wait for a row that has not been read, with
/// all of it holding still; or ends with a walk from the start to the goal
/// through the rows read; or finds the frontier empty, the goal among the
/// rows read, and the nodes reached sealed off from it.
pub proof fn lemma_advance_sound(model: Model)
    requires
        model.inv(),
    ensures
        match model.advance() {
            Progress::Waiting(next) => {
                &&& next.inv()
                &&& next.waits()
                &&& next.rows == model.rows
                &&& next.start == model.start
                &&& next.search.end == model.search.end
                &&& never_longer(model.search.costs, next.search.costs)
            },
            Progress::Finished(Outcome::Found(route)) => {
                &&& is_walk(model.rows, model.start, route)
                &&& route.last() == model.search.end
                &&& route.no_duplicates()
            },
            Progress::Finished(Outcome::NoPath) => {
                &&& model.search.end < model.rows.len()
                &&& sealed(model.rows, model.start, model.search.end)
            },
            Progress::Finished(Outcome::Failed(_)) => false,
        },
    decreases
        tally(model.rows, unseen(model.search.costs)),
        tally(model.rows, recorded(model.search.costs)),
        model.search.queue.len(),
        model.phase.rank(),
{
    match model.phase {
        Phase::Settling => {
            lemma_empty_sealed(model);
        },
        Phase::Expanding(current) => {
            if current < model.rows.len() {
                let row = model.rows[current as int];
                lemma_expand_nearer(
                    model.search,
                    model.rows,
                    current as int,
                    row.len() as int,
                    model.search.costs[current],
                    current,
                );
                assert(row.take(row.len() as int) =~= row);
                lemma_expanded_inv(model, current);
                lemma_expand_sound(
                    model.search,
                    model.rows,
                    model.start,
                    current,
                    row.len() as int,
                );
                lemma_expand_never_longer(
                    model.search,
                    row,
                    model.search.costs[current],
                    current,
                );
                lemma_advance_sound(model.expanded(current));
            }
        },
        Phase::Picking => {
            if model.search.queue.len() > 0 {
                let node = least(model.search.queue);
                lemma_least_exists(model.search.queue);
                lemma_picked_inv(model);
                if node.index == model.search.end {
                    assert(sound_entry(
                        model.rows,
                        model.start,
                        model.search.costs,
                        node.index,
                    ));
                    lemma_whole_route_simple(model.search.costs, node.index);
                } else {
                    assert(Multiset::singleton(node).subset_of(model.search.queue));
                    lemma_advance_sound(model.picked(node));
                }
            } else {
                lemma_empty_sealed(model);
            }
        },
    }
}

} // verus!
