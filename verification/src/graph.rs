//! The graph store: the adjacency rows read so far from the stream, in the
//! order of their lines.

use crate::adjacency::{parse_node, row_of};
use vstd::prelude::*;

verus! {

/// Why a search stops without a result.
#[derive(Clone, Copy, Debug)]
pub enum SearchError {
    /// A token of line `line` of the stream is not a node number.
    MalformedAdjacencyLine { line: usize },
    /// The stream ended before the row of node `index`.
    GraphIndexOutOfRange { index: usize },
}

/// What the store can say of a node's row.
#[derive(Clone, Copy, Debug)]
pub enum GraphStatus {
    /// The row has been read.
    Ready,
    /// The row has not been read yet, and the stream has not ended.
    Incomplete,
    /// The stream ended before the row.
    Done,
}

/// What a store holds, as plain values.
pub struct GraphView {
    /// The rows read: `rows[n]` lists the children of node `n`.
    pub rows: Seq<Seq<usize>>,
    /// The stream has ended.
    pub done: bool,
}

impl GraphView {
    /// What the store says of the row of `index`.
    pub open spec fn status(self, index: usize) -> GraphStatus {
        if index < self.rows.len() {
            GraphStatus::Ready
        } else if self.done {
            GraphStatus::Done
        } else {
            GraphStatus::Incomplete
        }
    }
}

/// The rows of a graph, cached as the stream yields them.
pub struct Graph {
    done: bool,
    nodes: Vec<Vec<usize>>,
}

impl View for Graph {
    type V = GraphView;

    closed spec fn view(&self) -> GraphView {
        GraphView { rows: Seq::new(self.nodes@.len(), |i: int| self.nodes@[i]@), done: self.done }
    }
}

impl Graph {
    /// A store that has read nothing.
    pub fn new() -> (graph: Graph)
        ensures
            graph@.rows == Seq::<Seq<usize>>::empty(),
            !graph@.done,
    {
        let graph = Graph { done: false, nodes: Vec::new() };
        assert(graph@.rows =~= Seq::<Seq<usize>>::empty());
        graph
    }

    /// How many rows have been read.
    pub fn len(&self) -> (n: usize)
        ensures
            n == self@.rows.len(),
    {
        self.nodes.len()
    }

    /// Whether the row of `index` has been read, can still come, or lies
    /// beyond the end of the stream.
    pub fn read_until(&self, index: usize) -> (status: GraphStatus)
        ensures
            status == self@.status(index),
    {
        if index < self.nodes.len() {
            GraphStatus::Ready
        } else if self.done {
            GraphStatus::Done
        } else {
            GraphStatus::Incomplete
        }
    }

    /// The row of `index`, where it has been read.
    pub fn node_at(&self, index: usize) -> (row: Option<&[usize]>)
        ensures
            row is Some <==> index < self@.rows.len(),
            row is Some ==> row->0@ == self@.rows[index as int],
    {
        if index < self.nodes.len() {
            Some(self.nodes[index].as_slice())
        } else {
            None
        }
    }

    /// Takes the next line of the stream: its row becomes the row of the next
    /// node. A line that writes no row is refused under its number, and the
    /// store stays as it was.
    pub fn push_line(&mut self, line: &str) -> (taken: Result<(), SearchError>)
        ensures
            final(self)@.done == old(self)@.done,
            match row_of(line@) {
                Some(row) => taken is Ok && final(self)@.rows == old(self)@.rows.push(row),
                None => taken == Err::<(), SearchError>(
                    SearchError::MalformedAdjacencyLine { line: old(self)@.rows.len() as usize },
                ) && final(self)@.rows == old(self)@.rows,
            },
    {
        match parse_node(line) {
            Some(children) => {
                self.nodes.push(children);
                assert(self@.rows =~= old(self)@.rows.push(children@));
                Ok(())
            },
            None => Err(SearchError::MalformedAdjacencyLine { line: self.nodes.len() }),
        }
    }

    /// Records that the stream has ended.
    pub fn finish(&mut self)
        ensures
            final(self)@.rows == old(self)@.rows,
            final(self)@.done,
    {
        self.done = true;
    }
}

} // verus!
