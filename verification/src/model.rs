//! The search as a function of plain values: what each step makes of the
//! table, the frontier and the rows read so far.

use crate::frontier::{least, lemma_least_exists, Node};
use crate::graph::SearchError;
use crate::search::{lemma_relax_never_longer, never_longer, SearchView};
use vstd::multiset::Multiset;
use vstd::prelude::*;

verus! {

/// Where a search stands between two steps.
#[derive(Clone, Copy, Debug)]
pub enum Phase {
    /// The next step takes a node out of the frontier.
    Picking,
    /// The node has left the frontier and is expanded once its row is read.
    Expanding(usize),
    /// The frontier is empty; the search ends once the row of the goal is
    /// read.
    Settling,
}

impl Phase {
    /// Orders the phases of one step.
    pub open spec fn rank(self) -> nat {
        match self {
            Phase::Picking => 0,
            Phase::Expanding(_) => 1,
            Phase::Settling => 0,
        }
    }
}

/// A search in progress.
pub struct Model {
    /// The node that the search began at.
    pub start: usize,
    /// The table and the frontier.
    pub search: SearchView,
    /// The rows read so far, one for each line of the stream.
    pub rows: Seq<Seq<usize>>,
    /// Where the search stands.
    pub phase: Phase,
}

/// How a search ends.
pub enum Outcome {
    /// The nodes of a route, from the start to the goal.
    Found(Seq<usize>),
    /// The frontier ran empty: the goal cannot be reached.
    NoPath,
    /// The stream could not be read as far as the search had to.
    Failed(SearchError),
}

/// What a search has come to.
pub enum Progress {
    /// It needs the next line of the stream.
    Waiting(Model),
    /// It has ended.
    Finished(Outcome),
}

/// The search after each edge of `row`, the row of `parent`, was walked in
/// turn, where `previous` is the route to `parent`.
pub open spec fn expand(
    search: SearchView,
    row: Seq<usize>,
    previous: Seq<usize>,
    parent: usize,
) -> SearchView
    decreases row.len(),
{
    if row.len() == 0 {
        search
    } else {
        expand(search, row.drop_last(), previous, parent).relax(row.last(), previous, parent)
    }
}

/// The sum of `weight` over the nodes of a row.
pub open spec fn row_tally(row: Seq<usize>, weight: spec_fn(usize) -> nat) -> nat
    decreases row.len(),
{
    if row.len() == 0 {
        0
    } else {
        row_tally(row.drop_last(), weight) + weight(row.last())
    }
}

/// The sum of `weight` over the heads of all edges read.
pub open spec fn tally(rows: Seq<Seq<usize>>, weight: spec_fn(usize) -> nat) -> nat
    decreases rows.len(),
{
    if rows.len() == 0 {
        0
    } else {
        tally(rows.drop_last(), weight) + row_tally(rows.last(), weight)
    }
}

/// Counts a node that no route is recorded for.
pub open spec fn unseen(costs: Map<usize, Seq<usize>>) -> spec_fn(usize) -> nat {
    |node: usize|
        if costs.contains_key(node) {
            0nat
        } else {
            1nat
        }
}

/// The length of the route recorded for a node.
pub open spec fn recorded(costs: Map<usize, Seq<usize>>) -> spec_fn(usize) -> nat {
    |node: usize|
        if costs.contains_key(node) {
            costs[node].len()
        } else {
            0nat
        }
}

/// The table `after` is nearer to its last state than `before`: an edge
/// read leads to a node that was not reached before, or the same nodes are
/// reached and the routes recorded for the heads of the edges read are
/// shorter in sum.
pub open spec fn nearer(
    rows: Seq<Seq<usize>>,
    after: Map<usize, Seq<usize>>,
    before: Map<usize, Seq<usize>>,
) -> bool {
    ||| tally(rows, unseen(after)) < tally(rows, unseen(before))
    ||| (tally(rows, unseen(after)) == tally(rows, unseen(before)) && tally(
        rows,
        recorded(after),
    ) < tally(rows, recorded(before)))
}

impl Model {
    /// The search as it begins.
    pub open spec fn initial(start: usize, end: usize) -> Model {
        Model {
            start,
            search: SearchView::initial(start, end),
            rows: Seq::empty(),
            phase: Phase::Picking,
        }
    }

    /// The node whose row the search needs next.
    pub open spec fn wanted(self) -> usize {
        match self.phase {
            Phase::Expanding(current) => current,
            _ => self.search.end,
        }
    }

    /// The search after `node` left the frontier to be expanded.
    pub open spec fn picked(self, node: Node) -> Model {
        Model {
            search: SearchView { queue: self.search.queue.remove(node), ..self.search },
            phase: Phase::Expanding(node.index),
            ..self
        }
    }

    /// The search after `current` was expanded.
    pub open spec fn expanded(self, current: usize) -> Model {
        Model {
            search: expand(
                self.search,
                self.rows[current as int],
                self.search.costs[current],
                current,
            ),
            phase: Phase::Picking,
            ..self
        }
    }

    /// The search after one more row was read.
    pub open spec fn with_row(self, row: Seq<usize>) -> Model {
        Model { rows: self.rows.push(row), ..self }
    }

    /// The end of a search whose frontier is empty. That no route exists is
    /// said of a goal that the stream holds; until its row is read the search
    /// waits.
    pub open spec fn settle(self) -> Progress {
        if self.search.end < self.rows.len() {
            Progress::Finished(Outcome::NoPath)
        } else {
            Progress::Waiting(Model { phase: Phase::Settling, ..self })
        }
    }

    /// Runs the search as far as the rows read allow: until it ends, or
    /// needs a row that has not been read.
    ///
    /// The run comes to an end. A node that leaves the frontier shortens it;
    /// and where expanding it lengthens the frontier again, a route was
    /// recorded along an edge read, which brings the table [`nearer`] to its
    /// last state: so many times an edge read can lead to a node not reached
    /// before, and so many times the route recorded for its head can shrink.
    pub open spec fn advance(self) -> Progress
        decreases
            tally(self.rows, unseen(self.search.costs)),
            tally(self.rows, recorded(self.search.costs)),
            self.search.queue.len(),
            self.phase.rank(),
    {
        match self.phase {
            Phase::Settling => self.settle(),
            Phase::Expanding(current) => {
                if current < self.rows.len() {
                    proof {
                        lemma_expand_nearer(
                            self.search,
                            self.rows,
                            current as int,
                            self.rows[current as int].len() as int,
                            self.search.costs[current],
                            current,
                        );
                        assert(self.rows[current as int].take(
                            self.rows[current as int].len() as int,
                        ) =~= self.rows[current as int]);
                    }
                    self.expanded(current).advance()
                } else {
                    Progress::Waiting(self)
                }
            },
            Phase::Picking => {
                if self.search.queue.len() == 0 {
                    self.settle()
                } else {
                    let node = least(self.search.queue);
                    if node.index == self.search.end {
                        Progress::Finished(
                            Outcome::Found(self.search.costs[node.index].push(node.index)),
                        )
                    } else {
                        proof {
                            lemma_least_exists(self.search.queue);
                            assert(Multiset::singleton(node).subset_of(self.search.queue));
                        }
                        self.picked(node).advance()
                    }
                }
            },
        }
    }

    /// The search after the next line of the stream was read: a line that
    /// writes no row ends it, under the number of the line.
    pub open spec fn supply(self, row: Option<Seq<usize>>) -> Progress {
        match row {
            Some(row) => self.with_row(row).advance(),
            None => Progress::Finished(
                Outcome::Failed(
                    SearchError::MalformedAdjacencyLine { line: self.rows.len() as usize },
                ),
            ),
        }
    }

    /// The end of a search that the stream leaves waiting: the row it needs
    /// lies beyond the last line.
    pub open spec fn close(self) -> Outcome {
        Outcome::Failed(SearchError::GraphIndexOutOfRange { index: self.wanted() })
    }
}

/// Where no node weighs more under `light` than under `heavy`, no row does.
pub proof fn lemma_row_tally_le(
    row: Seq<usize>,
    heavy: spec_fn(usize) -> nat,
    light: spec_fn(usize) -> nat,
)
    requires
        forall|node: usize| #[trigger] light(node) <= heavy(node),
    ensures
        row_tally(row, light) <= row_tally(row, heavy),
    decreases row.len(),
{
    if row.len() > 0 {
        lemma_row_tally_le(row.drop_last(), heavy, light);
    }
}

/// Where no node weighs more under `light` than under `heavy`, the edges read
/// do not either.
pub proof fn lemma_tally_le(
    rows: Seq<Seq<usize>>,
    heavy: spec_fn(usize) -> nat,
    light: spec_fn(usize) -> nat,
)
    requires
        forall|node: usize| #[trigger] light(node) <= heavy(node),
    ensures
        tally(rows, light) <= tally(rows, heavy),
    decreases rows.len(),
{
    if rows.len() > 0 {
        lemma_tally_le(rows.drop_last(), heavy, light);
        lemma_row_tally_le(rows.last(), heavy, light);
    }
}

/// A row with a node that weighs less under `light` weighs less under it.
pub proof fn lemma_row_tally_lt(
    row: Seq<usize>,
    heavy: spec_fn(usize) -> nat,
    light: spec_fn(usize) -> nat,
    j: int,
)
    requires
        forall|node: usize| #[trigger] light(node) <= heavy(node),
        0 <= j < row.len(),
        light(row[j]) < heavy(row[j]),
    ensures
        row_tally(row, light) < row_tally(row, heavy),
    decreases row.len(),
{
    if j == row.len() - 1 {
        lemma_row_tally_le(row.drop_last(), heavy, light);
    } else {
        lemma_row_tally_lt(row.drop_last(), heavy, light, j);
    }
}

/// Edges with a head that weighs less under `light` weigh less under it.
pub proof fn lemma_tally_lt(
    rows: Seq<Seq<usize>>,
    heavy: spec_fn(usize) -> nat,
    light: spec_fn(usize) -> nat,
    i: int,
    j: int,
)
    requires
        forall|node: usize| #[trigger] light(node) <= heavy(node),
        0 <= i < rows.len(),
        0 <= j < rows[i].len(),
        light(rows[i][j]) < heavy(rows[i][j]),
    ensures
        tally(rows, light) < tally(rows, heavy),
    decreases rows.len(),
{
    if i == rows.len() - 1 {
        lemma_tally_le(rows.drop_last(), heavy, light);
        lemma_row_tally_lt(rows.last(), heavy, light, j);
    } else {
        lemma_tally_lt(rows.drop_last(), heavy, light, i, j);
        lemma_row_tally_le(rows.last(), heavy, light);
    }
}

/// Walking an edge that was read leaves the search as it was, or brings the
/// table nearer to its last state.
pub proof fn lemma_relax_nearer(
    search: SearchView,
    rows: Seq<Seq<usize>>,
    i: int,
    j: int,
    previous: Seq<usize>,
    parent: usize,
)
    requires
        0 <= i < rows.len(),
        0 <= j < rows[i].len(),
    ensures
        ({
            let after = search.relax(rows[i][j], previous, parent);
            after == search || nearer(rows, after.costs, search.costs)
        }),
{
    let child = rows[i][j];
    let after = search.relax(child, previous, parent);
    if after != search {
        let before = search.costs;
        assert(after.costs == before.insert(child, previous.push(parent)));
        assert forall|node: usize| #[trigger]
            unseen(after.costs)(node) <= unseen(before)(node) by {}
        if before.contains_key(child) {
            assert forall|node: usize| #[trigger]
                unseen(before)(node) <= unseen(after.costs)(node) by {}
            lemma_tally_le(rows, unseen(before), unseen(after.costs));
            lemma_tally_le(rows, unseen(after.costs), unseen(before));
            assert forall|node: usize| #[trigger]
                recorded(after.costs)(node) <= recorded(before)(node) by {}
            lemma_tally_lt(rows, recorded(before), recorded(after.costs), i, j);
        } else {
            lemma_tally_lt(rows, unseen(before), unseen(after.costs), i, j);
        }
    }
}

/// Walking the first `k` edges of a row that was read leaves the search as it
/// was, or brings the table nearer to its last state.
pub proof fn lemma_expand_nearer(
    search: SearchView,
    rows: Seq<Seq<usize>>,
    i: int,
    k: int,
    previous: Seq<usize>,
    parent: usize,
)
    requires
        0 <= i < rows.len(),
        0 <= k <= rows[i].len(),
    ensures
        ({
            let after = expand(search, rows[i].take(k), previous, parent);
            after == search || nearer(rows, after.costs, search.costs)
        }),
    decreases k,
{
    if k > 0 {
        let row = rows[i].take(k);
        assert(row.drop_last() =~= rows[i].take(k - 1));
        assert(row.last() == rows[i][k - 1]);
        let mid = expand(search, rows[i].take(k - 1), previous, parent);
        lemma_expand_nearer(search, rows, i, k - 1, previous, parent);
        lemma_relax_nearer(mid, rows, i, k - 1, previous, parent);
    }
}

/// Expanding a node never makes the route recorded for a node longer.
pub proof fn lemma_expand_never_longer(
    search: SearchView,
    row: Seq<usize>,
    previous: Seq<usize>,
    parent: usize,
)
    ensures
        never_longer(search.costs, expand(search, row, previous, parent).costs),
    decreases row.len(),
{
    if row.len() > 0 {
        let mid = expand(search, row.drop_last(), previous, parent);
        lemma_expand_never_longer(search, row.drop_last(), previous, parent);
        lemma_relax_never_longer(mid, row.last(), previous, parent);
    }
}

/// No search runs on for ever: taking a node out of the frontier and
/// expanding it brings the table nearer to its last state, or leaves the
/// table as it was and the frontier one entry shorter.
pub proof fn law_turn_comes_nearer(model: Model)
    requires
        model.search.queue.len() > 0,
        least(model.search.queue).index < model.rows.len(),
    ensures
        ({
            let node = least(model.search.queue);
            let after = model.picked(node).expanded(node.index);
            ||| nearer(model.rows, after.search.costs, model.search.costs)
            ||| after.search.costs == model.search.costs && after.search.queue.len() + 1
                == model.search.queue.len()
        }),
{
    let node = least(model.search.queue);
    let taken = model.picked(node);
    let row = model.rows[node.index as int];
    lemma_least_exists(model.search.queue);
    assert(Multiset::singleton(node).subset_of(model.search.queue));
    lemma_expand_nearer(
        taken.search,
        model.rows,
        node.index as int,
        row.len() as int,
        taken.search.costs[node.index],
        node.index,
    );
    assert(row.take(row.len() as int) =~= row);
}

} // verus!
