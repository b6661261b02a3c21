//! The search driver: it runs the search as far as the rows read allow, and
//! says when it needs the next line of the stream.

use crate::adjacency::row_of;
use crate::frontier::{least, lemma_least_exists};
use crate::graph::{Graph, GraphStatus, SearchError};
use crate::laws::{faithful, law_search_is_faithful};
use crate::model::{
    expand, lemma_expand_nearer, recorded, tally, unseen, Model, Outcome, Phase, Progress,
};
use crate::route::{
    route_clear, route_extend, route_new, route_nodes, route_push, route_slice, Route, ROUTE_LIMIT,
};
use crate::search::SearchState;
use crate::sound::{
    lemma_advance_sound, lemma_expanded_inv, lemma_initial_inv, lemma_picked_inv, lemma_route_len,
    lemma_with_row_inv, sound_entry,
};
use vstd::multiset::Multiset;
use vstd::prelude::*;

verus! {

/// The most lines that a search reads: a route that passes the node of each
/// of them once can still take the goal.
pub const MAX_ROWS: usize = ROUTE_LIMIT - 1;

/// A search that waits for the next line of the stream.
pub struct Pathfinder {
    start: usize,
    graph: Graph,
    search: SearchState,
    phase: Phase,
    buffer: Route,
}

impl View for Pathfinder {
    type V = Model;

    closed spec fn view(&self) -> Model {
        Model {
            start: self.start,
            search: self.search@,
            rows: self.graph@.rows,
            phase: self.phase,
        }
    }
}

/// What a search has come to.
pub enum Step {
    /// It needs the next line of the stream.
    Waiting(Pathfinder),
    /// It has found a route: the nodes from the start to the goal.
    Found(Route),
    /// The frontier ran empty: the goal cannot be reached.
    NoPath,
    /// The stream could not be read as far as the search had to.
    Failed(SearchError),
}

impl View for Step {
    type V = Progress;

    open spec fn view(&self) -> Progress {
        match self {
            Step::Waiting(finder) => Progress::Waiting(finder@),
            Step::Found(route) => Progress::Finished(Outcome::Found(route_nodes(*route))),
            Step::NoPath => Progress::Finished(Outcome::NoPath),
            Step::Failed(error) => Progress::Finished(Outcome::Failed(*error)),
        }
    }
}

impl Step {
    /// A search that waits is one that can go on.
    pub open spec fn wf(&self) -> bool {
        match self {
            Step::Waiting(finder) => finder.wf(),
            _ => true,
        }
    }
}

/// The state of a search as plain values.
spec fn model_of(start: usize, graph: Graph, search: SearchState, phase: Phase) -> Model {
    Model { start, search: search@, rows: graph@.rows, phase }
}

/// While a node waits for its row, the buffer holds the route to it.
spec fn buffered(search: SearchState, phase: Phase, buffer: Route) -> bool {
    match phase {
        Phase::Expanding(current) => route_nodes(buffer) == search@.costs[current],
        _ => true,
    }
}

/// The end of a search whose frontier is empty.
fn settle(start: usize, graph: Graph, search: SearchState, buffer: Route) -> (step: Step)
    requires
        search.wf(),
        !graph@.done,
        search@.queue.len() == 0,
        graph@.rows.len() <= MAX_ROWS,
        model_of(start, graph, search, Phase::Picking).inv(),
    ensures
        step@ == model_of(start, graph, search, Phase::Picking).settle(),
        step.wf(),
{
    match graph.read_until(search.end()) {
        GraphStatus::Ready => Step::NoPath,
        _ => Step::Waiting(Pathfinder { start, graph, search, phase: Phase::Settling, buffer }),
    }
}

/// Runs the search as far as the rows read allow.
fn astar(start: usize, graph: Graph, first: SearchState, entry: Phase, scratch: Route) -> (step:
    Step)
    requires
        first.wf(),
        !graph@.done,
        graph@.rows.len() <= MAX_ROWS,
        model_of(start, graph, first, entry).inv(),
        buffered(first, entry, scratch),
    ensures
        step@ == model_of(start, graph, first, entry).advance(),
        step.wf(),
{
    let ghost target = model_of(start, graph, first, entry).advance();
    let mut search = first;
    let mut phase = entry;
    let mut buffer = scratch;
    loop
        invariant
            search.wf(),
            !graph@.done,
            graph@.rows.len() <= MAX_ROWS,
            model_of(start, graph, search, phase).inv(),
            buffered(search, phase, buffer),
            model_of(start, graph, search, phase).advance() == target,
            target == model_of(start, graph, first, entry).advance(),
        decreases
            tally(graph@.rows, unseen(search@.costs)),
            tally(graph@.rows, recorded(search@.costs)),
            search@.queue.len(),
            phase.rank(),
    {
        let ghost model = model_of(start, graph, search, phase);
        match phase {
            Phase::Settling => {
                assert(model.advance() == model.settle());
                assert(model.settle() == model_of(start, graph, search, Phase::Picking).settle());
                return settle(start, graph, search, buffer);
            },
            Phase::Expanding(current) => {
                match graph.node_at(current) {
                    None => {
                        assert(model.advance() == Progress::Waiting(model));
                        return Step::Waiting(Pathfinder { start, graph, search, phase, buffer });
                    },
                    Some(row) => {
                        let ghost before = search@;
                        let ghost previous = route_nodes(buffer);
                        proof {
                            assert(sound_entry(model.rows, start, before.costs, current));
                            lemma_route_len(model.rows, start, before.costs, current);
                            assert(row@.take(0) =~= Seq::<usize>::empty());
                        }
                        let mut k: usize = 0;
                        while k < row.len()
                            invariant
                                search.wf(),
                                k <= row@.len(),
                                previous == route_nodes(buffer),
                                previous.len() < ROUTE_LIMIT,
                                search@ == expand(before, row@.take(k as int), previous, current),
                            decreases row@.len() - k,
                        {
                            proof {
                                let next = row@.take(k + 1);
                                assert(next.drop_last() =~= row@.take(k as int));
                                assert(next.last() == row@[k as int]);
                            }
                            search.visit(row[k], route_slice(&buffer), current);
                            k = k + 1;
                        }
                        proof {
                            assert(row@.take(k as int) =~= row@);
                            lemma_expand_nearer(
                                before,
                                model.rows,
                                current as int,
                                row@.len() as int,
                                previous,
                                current,
                            );
                            lemma_expanded_inv(model, current);
                            assert(model_of(start, graph, search, Phase::Picking)
                                == model.expanded(current));
                            assert(model.advance() == model.expanded(current).advance());
                        }
                        phase = Phase::Picking;
                    },
                }
            },
            Phase::Picking => {
                match search.next() {
                    None => {
                        assert(model.advance() == model.settle());
                        return settle(start, graph, search, buffer);
                    },
                    Some(index) => {
                        let ghost node = least(model.search.queue);
                        proof {
                            lemma_least_exists(model.search.queue);
                            lemma_picked_inv(model);
                            assert(Multiset::singleton(node).subset_of(model.search.queue));
                            assert(sound_entry(model.rows, start, model.search.costs, index));
                            lemma_route_len(model.rows, start, model.search.costs, index);
                        }
                        route_clear(&mut buffer);
                        match search.path(index) {
                            Some(path) => {
                                route_extend(&mut buffer, path);
                            },
                            None => {},
                        }
                        assert(route_nodes(buffer) =~= model.search.costs[index]);
                        if search.is_done(index) {
                            route_push(&mut buffer, index);
                            assert(model.advance() == Progress::Finished(
                                Outcome::Found(model.search.costs[index].push(index)),
                            ));
                            return Step::Found(buffer);
                        }
                        phase = Phase::Expanding(index);
                        assert(model_of(start, graph, search, phase) == model.picked(node));
                        assert(model.advance() == model.picked(node).advance());
                    },
                }
            },
        }
    }
}

impl Pathfinder {
    /// The search can go on once it is given a line: what holds of every
    /// search holds of it, and the row it waits for has not been read.
    pub closed spec fn wf(&self) -> bool {
        &&& self.search.wf()
        &&& !self.graph@.done
        &&& self@.inv()
        &&& self@.waits()
        &&& self@.rows.len() <= MAX_ROWS
        &&& buffered(self.search, self.phase, self.buffer)
    }

    /// Of a search that can go on holds what holds of every search; it waits
    /// for a row that has not been read, and has read no more rows than a
    /// search may.
    pub proof fn lemma_wf(&self)
        requires
            self.wf(),
        ensures
            self@.inv(),
            self@.waits(),
            self@.rows.len() <= MAX_ROWS,
    {
    }

    /// Begins a search from `start` for `end`, and runs it until it ends or
    /// needs the first line of the stream.
    pub fn begin(start: usize, end: usize) -> (step: Step)
        ensures
            step@ == Model::initial(start, end).advance(),
            step.wf(),
    {
        let graph = Graph::new();
        let search = SearchState::new(start, end);
        let buffer = route_new();
        proof {
            lemma_initial_inv(start, end);
            assert(model_of(start, graph, search, Phase::Picking) == Model::initial(start, end));
        }
        astar(start, graph, search, Phase::Picking, buffer)
    }

    /// How many lines the search has read.
    pub fn rows_read(&self) -> (n: usize)
        ensures
            n == self@.rows.len(),
    {
        self.graph.len()
    }

    /// Gives the search the next line of the stream, and runs it until it
    /// ends or needs another.
    pub fn line(self, text: &str) -> (step: Step)
        requires
            self.wf(),
            self@.rows.len() < MAX_ROWS,
        ensures
            step@ == self@.supply(row_of(text@)),
            step.wf(),
    {
        let Pathfinder { start, graph, search, phase, buffer } = self;
        let mut graph = graph;
        match graph.push_line(text) {
            Ok(()) => {
                proof {
                    lemma_with_row_inv(self@, row_of(text@)->0);
                    assert(model_of(start, graph, search, phase) == self@.with_row(
                        row_of(text@)->0,
                    ));
                }
                astar(start, graph, search, phase, buffer)
            },
            Err(error) => Step::Failed(error),
        }
    }

    /// Tells the search that the stream has ended: the row it waits for
    /// lies beyond the last line.
    pub fn end_of_stream(self) -> (step: Step)
        requires
            self.wf(),
        ensures
            step@ == Progress::Finished(self@.close()),
    {
        let index = match self.phase {
            Phase::Expanding(current) => current,
            _ => self.search.end(),
        };
        Step::Failed(SearchError::GraphIndexOutOfRange { index })
    }
}

/// The texts of the lines of a stream.
pub open spec fn texts(lines: Seq<String>) -> Seq<Seq<char>> {
    Seq::new(lines.len(), |i: int| lines[i]@)
}

/// The end of a search that is given the lines of a stream from line `next`
/// on, one each time it waits.
pub open spec fn feed(progress: Progress, lines: Seq<Seq<char>>, next: int) -> Outcome
    decreases lines.len() - next,
{
    match progress {
        Progress::Finished(outcome) => outcome,
        Progress::Waiting(model) => {
            if 0 <= next < lines.len() {
                feed(model.supply(row_of(lines[next])), lines, next + 1)
            } else {
                model.close()
            }
        },
    }
}

/// The end of the search from `start` for `end` in the graph that `lines`
/// writes.
pub open spec fn search_of(lines: Seq<Seq<char>>, start: usize, end: usize) -> Outcome {
    feed(Model::initial(start, end).advance(), lines, 0)
}

/// How a finished search reads as a result.
pub open spec fn outcome_of(found: Result<Option<Route>, SearchError>) -> Outcome {
    match found {
        Ok(Some(route)) => Outcome::Found(route_nodes(route)),
        Ok(None) => Outcome::NoPath,
        Err(error) => Outcome::Failed(error),
    }
}

/// Searches the graph that `lines` writes for a route from `start` to
/// `end`. Lines are read one by one, and only as far as the search needs
/// them.
pub fn pathfind(lines: &Vec<String>, start: usize, end: usize) -> (found: Result<
    Option<Route>,
    SearchError,
>)
    requires
        lines@.len() <= MAX_ROWS,
    ensures
        outcome_of(found) == search_of(texts(lines@), start, end),
        faithful(outcome_of(found), texts(lines@), start, end),
{
    let ghost all = texts(lines@);
    proof {
        law_search_is_faithful(all, start, end);
    }
    let mut step = Pathfinder::begin(start, end);
    let mut next: usize = 0;
    proof {
        lemma_initial_inv(start, end);
        lemma_advance_sound(Model::initial(start, end));
    }
    loop
        invariant
            next <= lines@.len() <= MAX_ROWS,
            all == texts(lines@),
            step.wf(),
            feed(step@, all, next as int) == search_of(all, start, end),
            faithful(search_of(all, start, end), all, start, end),
            step matches Step::Waiting(finder) ==> finder@.rows.len() == next && finder@.inv(),
        decreases lines@.len() - next + (if step is Waiting { 1nat } else { 0nat }),
    {
        match step {
            Step::Found(route) => {
                return Ok(Some(route));
            },
            Step::NoPath => {
                return Ok(None);
            },
            Step::Failed(error) => {
                return Err(error);
            },
            Step::Waiting(finder) => {
                if next < lines.len() {
                    proof {
                        let row = row_of(all[next as int]);
                        if row is Some {
                            lemma_with_row_inv(finder@, row->0);
                            lemma_advance_sound(finder@.with_row(row->0));
                        }
                    }
                    step = finder.line(lines[next].as_str());
                    next = next + 1;
                } else {
                    step = finder.end_of_stream();
                }
            },
        }
    }
}

} // verus!
