//! What holds of every search over the lines of a stream.

use crate::adjacency::row_of;
use crate::frontier::{is_least, lemma_least, Node};
use crate::graph::SearchError;
use crate::model::{Model, Outcome, Phase, Progress};
use crate::pathfind::{feed, search_of};
use crate::sound::{
    is_walk, lemma_advance_sound, lemma_initial_inv, lemma_with_row_inv, sealed, sound_entry,
    spent,
};
use vstd::prelude::*;

verus! {

/// Line `from` of the stream lists `to` among the children of its node.
pub open spec fn child_of(lines: Seq<Seq<char>>, from: usize, to: usize) -> bool {
    &&& from < lines.len()
    &&& row_of(lines[from as int]) is Some
    &&& row_of(lines[from as int])->0.contains(to)
}

/// `route` leads from `start` to `end` along edges that the stream writes.
pub open spec fn is_route(lines: Seq<Seq<char>>, start: usize, end: usize, route: Seq<usize>) -> bool {
    &&& route.len() > 0
    &&& route[0] == start
    &&& route.last() == end
    &&& forall|i: int| 0 <= i < route.len() - 1 ==> child_of(lines, #[trigger] route[i], route[i + 1])
}

/// The first `n` lines of the stream write rows.
pub open spec fn well_formed(lines: Seq<Seq<char>>, n: int) -> bool {
    forall|i: int| 0 <= i < n && i < lines.len() ==> row_of(#[trigger] lines[i]) is Some
}

/// `rows` are the rows of the first lines of the stream.
pub open spec fn reads(rows: Seq<Seq<usize>>, lines: Seq<Seq<char>>) -> bool {
    &&& rows.len() <= lines.len()
    &&& forall|i: int| 0 <= i < rows.len() ==> row_of(#[trigger] lines[i]) == Some(rows[i])
}

/// What an end of a search says of the stream.
///
/// - A route found leads from the start to the goal along edges of the
///   stream, and passes no node twice.
/// - That there is no route is said only of a goal that the stream holds,
///   and only where no route leads to it.
/// - A malformed line is the first such line of the stream.
/// - A node is out of range only where the stream is well formed and ends
///   before the line of the node, and the node is the goal or can be reached
///   from the start.
pub open spec fn faithful(outcome: Outcome, lines: Seq<Seq<char>>, start: usize, end: usize) -> bool {
    match outcome {
        Outcome::Found(route) => is_route(lines, start, end, route) && route.no_duplicates(),
        Outcome::NoPath => {
            &&& end < lines.len()
            &&& forall|route: Seq<usize>| !is_route(lines, start, end, route)
        },
        Outcome::Failed(SearchError::MalformedAdjacencyLine { line }) => {
            &&& line < lines.len()
            &&& row_of(lines[line as int]) is None
            &&& well_formed(lines, line as int)
        },
        Outcome::Failed(SearchError::GraphIndexOutOfRange { index }) => {
            &&& index >= lines.len()
            &&& well_formed(lines, lines.len() as int)
            &&& index == end || exists|route: Seq<usize>| is_route(lines, start, index, route)
        },
    }
}

/// A walk through rows that the stream writes is a route of the stream.
proof fn lemma_walk_is_route(
    rows: Seq<Seq<usize>>,
    lines: Seq<Seq<char>>,
    start: usize,
    walk: Seq<usize>,
)
    requires
        reads(rows, lines),
        is_walk(rows, start, walk),
    ensures
        is_route(lines, start, walk.last(), walk),
{
    assert forall|i: int| 0 <= i < walk.len() - 1 implies child_of(
        lines,
        #[trigger] walk[i],
        walk[i + 1],
    ) by {
        assert(row_of(lines[walk[i] as int]) == Some(rows[walk[i] as int]));
    }
}

/// A route of the stream that begins among nodes that no edge leaves stays
/// among them.
proof fn lemma_route_stays(
    rows: Seq<Seq<usize>>,
    lines: Seq<Seq<char>>,
    costs: Map<usize, Seq<usize>>,
    route: Seq<usize>,
    i: int,
)
    requires
        reads(rows, lines),
        route.len() > 0,
        costs.contains_key(route[0]),
        forall|node: usize| #[trigger] costs.contains_key(node) ==> spent(rows, costs, node),
        forall|k: int| 0 <= k < route.len() - 1 ==> child_of(lines, #[trigger] route[k], route[k + 1]),
        0 <= i < route.len(),
    ensures
        costs.contains_key(route[i]),
    decreases i,
{
    if i > 0 {
        lemma_route_stays(rows, lines, costs, route, i - 1);
        let from = route[i - 1];
        assert(spent(rows, costs, from));
        assert(child_of(lines, from, route[i]));
        assert(row_of(lines[from as int]) == Some(rows[from as int]));
        let j = choose|j: int| 0 <= j < rows[from as int].len() && rows[from as int][j] == route[i];
        assert(costs.contains_key(rows[from as int][j]));
    }
}

/// Where the rows read seal the start off from the goal, the stream
/// writes no route between them.
proof fn lemma_sealed_no_route(
    rows: Seq<Seq<usize>>,
    lines: Seq<Seq<char>>,
    start: usize,
    end: usize,
)
    requires
        reads(rows, lines),
        sealed(rows, start, end),
    ensures
        forall|route: Seq<usize>| !is_route(lines, start, end, route),
{
    let costs = choose|costs: Map<usize, Seq<usize>>|
        {
            &&& #[trigger] costs.contains_key(start)
            &&& !costs.contains_key(end)
            &&& forall|node: usize| #[trigger] costs.contains_key(node) ==> spent(rows, costs, node)
        };
    assert forall|route: Seq<usize>| !is_route(lines, start, end, route) by {
        if is_route(lines, start, end, route) {
            lemma_route_stays(rows, lines, costs, route, route.len() - 1);
        }
    }
}

/// What a search has come to is faithful to the stream so far: it has
/// ended faithfully, or waits with the rows of the first `next` lines read.
spec fn on_course(
    progress: Progress,
    lines: Seq<Seq<char>>,
    next: int,
    start: usize,
    end: usize,
) -> bool {
    match progress {
        Progress::Waiting(model) => {
            &&& model.inv()
            &&& model.waits()
            &&& model.start == start
            &&& model.search.end == end
            &&& model.rows.len() == next
            &&& reads(model.rows, lines)
        },
        Progress::Finished(outcome) => faithful(outcome, lines, start, end),
    }
}

/// Running a search on, from a state in which the rows of the first
/// lines are read, keeps it on course.
proof fn lemma_advance_on_course(model: Model, lines: Seq<Seq<char>>)
    requires
        model.inv(),
        reads(model.rows, lines),
    ensures
        on_course(model.advance(), lines, model.rows.len() as int, model.start, model.search.end),
{
    lemma_advance_sound(model);
    match model.advance() {
        Progress::Finished(Outcome::Found(route)) => {
            lemma_walk_is_route(model.rows, lines, model.start, route);
        },
        Progress::Finished(Outcome::NoPath) => {
            lemma_sealed_no_route(model.rows, lines, model.start, model.search.end);
        },
        _ => {},
    }
}

/// A search that is on course ends faithfully.
proof fn lemma_feed_faithful(
    progress: Progress,
    lines: Seq<Seq<char>>,
    next: int,
    start: usize,
    end: usize,
)
    requires
        0 <= next <= lines.len() <= usize::MAX,
        on_course(progress, lines, next, start, end),
    ensures
        faithful(feed(progress, lines, next), lines, start, end),
    decreases lines.len() - next,
{
    match progress {
        Progress::Finished(outcome) => {
            assert(feed(progress, lines, next) == outcome);
        },
        Progress::Waiting(model) => {
            if next < lines.len() {
                match row_of(lines[next]) {
                    Some(row) => {
                        let more = model.with_row(row);
                        lemma_with_row_inv(model, row);
                        assert(reads(more.rows, lines));
                        lemma_advance_on_course(more, lines);
                        lemma_feed_faithful(more.advance(), lines, next + 1, start, end);
                    },
                    None => {
                        let outcome = feed(progress, lines, next);
                        let ended = model.supply(None);
                        assert(outcome == feed(ended, lines, next + 1));
                        assert(feed(ended, lines, next + 1) == ended->Finished_0);
                        assert(outcome == Outcome::Failed(
                            SearchError::MalformedAdjacencyLine { line: next as usize },
                        ));
                        assert(well_formed(lines, next));
                    },
                }
            } else {
                let outcome = feed(progress, lines, next);
                assert(outcome == model.close());
                assert(well_formed(lines, lines.len() as int));
                match model.phase {
                    Phase::Expanding(current) => {
                        assert(sound_entry(model.rows, start, model.search.costs, current));
                        let walk = model.search.costs[current].push(current);
                        lemma_walk_is_route(model.rows, lines, start, walk);
                        assert(walk.last() == current);
                        assert(is_route(lines, start, current, walk));
                    },
                    _ => {
                        assert(model.wanted() == end);
                    },
                }
            }
        },
    }
}

/// Every search ends faithfully to its stream: with a route of the stream
/// from the start to the goal; with none, where the stream holds the goal and
/// writes no route to it; or with the first obstacle that the stream puts in
/// its way.
pub proof fn law_search_is_faithful(lines: Seq<Seq<char>>, start: usize, end: usize)
    requires
        lines.len() <= usize::MAX,
    ensures
        faithful(search_of(lines, start, end), lines, start, end),
{
    lemma_initial_inv(start, end);
    lemma_advance_on_course(Model::initial(start, end), lines);
    lemma_feed_faithful(Model::initial(start, end).advance(), lines, 0, start, end);
}

/// A route that a search returns begins at the start, ends at the goal, and
/// each node of it but the last lists the next among its children; no node
/// comes twice in it.
pub proof fn law_found_route_is_walk(
    lines: Seq<Seq<char>>,
    start: usize,
    end: usize,
    route: Seq<usize>,
)
    requires
        lines.len() <= usize::MAX,
        search_of(lines, start, end) == Outcome::Found(route),
    ensures
        route.len() > 0,
        route[0] == start,
        route.last() == end,
        forall|i: int| 0 <= i < route.len() - 1 ==> child_of(lines, #[trigger] route[i], route[i + 1]),
        route.no_duplicates(),
{
    law_search_is_faithful(lines, start, end);
}

/// Two searches for the same goal from the same start over streams of the
/// same lines end alike: with the same route, or without one for the same
/// reason.
pub proof fn law_same_stream_same_end(
    first: Seq<Seq<char>>,
    second: Seq<Seq<char>>,
    start: usize,
    end: usize,
)
    requires
        first.len() == second.len(),
        forall|i: int| 0 <= i < first.len() ==> first[i] == second[i],
    ensures
        search_of(first, start, end) == search_of(second, start, end),
        search_of(first, start, end) matches Outcome::Found(route) ==> search_of(
            second,
            start,
            end,
        ) matches Outcome::Found(again) && again.len() == route.len(),
{
    assert(first =~= second);
}

/// A search for its own start ends at once, whatever the stream holds,
/// with the route of that one node.
pub proof fn law_start_is_goal(lines: Seq<Seq<char>>, node: usize)
    ensures
        Model::initial(node, node).advance() == Progress::Finished(Outcome::Found(seq![node])),
        search_of(lines, node, node) == Outcome::Found(seq![node]),
{
    let model = Model::initial(node, node);
    let entry = Node { index: node, priority: 0 };
    assert(model.search.queue.contains(entry));
    assert forall|other: Node| model.search.queue.contains(other) implies entry.precedes(other) by {
        if other != entry {
            assert(model.search.queue.count(other) == 0);
        }
    }
    assert(is_least(model.search.queue, entry));
    lemma_least(model.search.queue, entry);
    assert(model.search.queue.len() == 1);
    assert(model.search.costs[node].push(node) =~= seq![node]);
}

/// A search from a start that lies beyond the last line of a well-formed
/// stream, for another node, ends with the start out of range.
pub proof fn law_start_beyond_stream(lines: Seq<Seq<char>>, start: usize, end: usize)
    requires
        lines.len() <= start,
        start != end,
        well_formed(lines, lines.len() as int),
    ensures
        search_of(lines, start, end) == Outcome::Failed(
            SearchError::GraphIndexOutOfRange { index: start },
        ),
{
    let model = Model::initial(start, end);
    let entry = Node { index: start, priority: 0 };
    assert(model.search.queue.contains(entry));
    assert forall|other: Node| model.search.queue.contains(other) implies entry.precedes(other) by {
        if other != entry {
            assert(model.search.queue.count(other) == 0);
        }
    }
    assert(is_least(model.search.queue, entry));
    lemma_least(model.search.queue, entry);
    assert(model.search.queue.len() == 1);
    let picked = model.picked(entry);
    assert(picked.advance() == Progress::Waiting(picked));
    assert(model.advance() == Progress::Waiting(picked));
    lemma_blocked_to_the_end(picked, lines, 0, start);
}

/// A search that waits for a node beyond the last line of a well-formed
/// stream ends with that node out of range.
proof fn lemma_blocked_to_the_end(model: Model, lines: Seq<Seq<char>>, next: int, wanted: usize)
    requires
        model.phase == Phase::Expanding(wanted),
        0 <= next <= lines.len() <= wanted,
        model.rows.len() == next,
        well_formed(lines, lines.len() as int),
    ensures
        feed(Progress::Waiting(model), lines, next) == Outcome::Failed(
            SearchError::GraphIndexOutOfRange { index: wanted },
        ),
    decreases lines.len() - next,
{
    if next < lines.len() {
        let row = row_of(lines[next])->0;
        let more = model.with_row(row);
        assert(more.advance() == Progress::Waiting(more));
        lemma_blocked_to_the_end(more, lines, next + 1, wanted);
    }
}

} // verus!
