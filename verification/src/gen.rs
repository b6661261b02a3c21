//! Writing a graph as a stream of adjacency lines: the pairs of nodes that
//! may be joined, and the text of the edges chosen among them.

use vstd::prelude::*;

verus! {

/// An edge of the graph.
#[derive(Clone, Copy, Debug)]
pub struct Edge {
    pub from: usize,
    pub to: usize,
}

/// The place of the pair `(from, to)` among the ordered pairs of distinct
/// nodes below `count`, counted row by row.
pub open spec fn rank(count: usize, from: usize, to: usize) -> int {
    from * (count - 1) + if to > from {
        to - 1
    } else {
        to as int
    }
}

/// How many ordered pairs of distinct nodes below `count` there are.
pub open spec fn pairs(count: usize) -> int {
    count * (count - 1)
}

/// Pairs of distinct nodes below `count` with one rank are one pair.
pub proof fn lemma_rank_injective(count: usize, a: (usize, usize), b: (usize, usize))
    requires
        a.0 < count,
        a.1 < count,
        a.0 != a.1,
        b.0 < count,
        b.1 < count,
        b.0 != b.1,
        rank(count, a.0, a.1) == rank(count, b.0, b.1),
    ensures
        a == b,
{
    let width = count - 1;
    let low = if a.1 > a.0 {
        a.1 - 1
    } else {
        a.1 as int
    };
    let other = if b.1 > b.0 {
        b.1 - 1
    } else {
        b.1 as int
    };
    assert(0 <= low < width && 0 <= other < width);
    if a.0 < b.0 {
        assert(a.0 * width + width <= b.0 * width) by (nonlinear_arith)
            requires
                a.0 + 1 <= b.0,
                width >= 0,
        ;
    } else if b.0 < a.0 {
        assert(b.0 * width + width <= a.0 * width) by (nonlinear_arith)
            requires
                b.0 + 1 <= a.0,
                width >= 0,
        ;
    }
}

/// The ordered pairs of distinct nodes below a count, handed out one by one
/// in the order of their rank. Its view is the rank of the pair that comes
/// next.
pub struct Permutations {
    count: usize,
    from: usize,
    to: usize,
}

impl View for Permutations {
    type V = int;

    closed spec fn view(&self) -> int {
        rank(self.count, self.from, self.to)
    }
}

impl Permutations {
    /// The count of nodes that the pairs are taken from.
    pub closed spec fn count(&self) -> usize {
        self.count
    }

    /// The next pair is a pair of distinct nodes below the count, or all
    /// pairs have been handed out.
    pub closed spec fn wf(&self) -> bool {
        ||| self.from < self.count && self.to < self.count && self.to != self.from
        ||| self.from == self.count && self.to == 0
    }

    /// Hands out the next pair; `None` when every pair has been handed out.
    pub fn next(&mut self) -> (pair: Option<(usize, usize)>)
        requires
            old(self).wf(),
        ensures
            final(self).wf(),
            final(self).count() == old(self).count(),
            pair is Some <==> old(self)@ < pairs(old(self).count()),
            match pair {
                Some((from, to)) => {
                    &&& from < old(self).count()
                    &&& to < old(self).count()
                    &&& from != to
                    &&& rank(old(self).count(), from, to) == old(self)@
                    &&& final(self)@ == old(self)@ + 1
                },
                None => final(self)@ == old(self)@ && old(self)@ == pairs(old(self).count()),
            },
    {
        let ghost width = self.count - 1;
        if self.from >= self.count {
            return None;
        }
        let pair = (self.from, self.to);
        proof {
            let low = if self.to > self.from {
                self.to - 1
            } else {
                self.to as int
            };
            assert(self.from * width + width <= self.count * width) by (nonlinear_arith)
                requires
                    self.from + 1 <= self.count,
                    width >= 0,
            ;
            assert((self.from + 1) * width == self.from * width + width) by (nonlinear_arith);
        }
        let mut to: usize = self.to + 1;
        if to == self.from {
            to = to + 1;
        }
        if to >= self.count {
            self.from = self.from + 1;
            to = 0;
        }
        self.to = to;
        Some(pair)
    }
}

/// The ordered pairs of distinct nodes below `count`, from the first.
pub fn permutations(count: usize) -> (all: Permutations)
    ensures
        all.wf(),
        all.count() == count,
        all@ == 0,
{
    if count < 2 {
        assert(count * (count - 1) == 0) by (nonlinear_arith)
            requires
                0 <= count < 2,
        ;
        Permutations { count, from: count, to: 0 }
    } else {
        assert(0 * (count - 1) == 0) by (nonlinear_arith);
        Permutations { count, from: 0, to: 1 }
    }
}

/// The digits that write `n` in base ten, as bytes.
pub open spec fn decimal(n: nat) -> Seq<u8>
    decreases n,
{
    if n < 10 {
        seq![(48 + n) as u8]
    } else {
        decimal(n / 10).push((48 + n % 10) as u8)
    }
}

/// `n` line feeds.
pub open spec fn line_feeds(n: nat) -> Seq<u8> {
    Seq::new(n, |i: int| 10u8)
}

/// What the printer has written of the stream.
pub struct PrinterView {
    /// The node whose line is being written.
    pub index: usize,
    /// A node has been written on that line.
    pub needs_space: bool,
}

impl PrinterView {
    /// The text that writes `edge` after what was written: the line feeds
    /// that lead to the line of its tail, a space after a node on the same
    /// line, and its head.
    pub open spec fn text(self, edge: Edge) -> Seq<u8> {
        if edge.from > self.index {
            line_feeds((edge.from - self.index) as nat) + decimal(edge.to as nat)
        } else if self.needs_space {
            seq![32u8] + decimal(edge.to as nat)
        } else {
            decimal(edge.to as nat)
        }
    }

    /// The printer after `edge` was written.
    pub open spec fn after(self, edge: Edge) -> PrinterView {
        PrinterView {
            index: if edge.from > self.index {
                edge.from
            } else {
                self.index
            },
            needs_space: true,
        }
    }

    /// The text of `edges` written in turn, and of the end of the stream.
    pub open spec fn print(self, edges: Seq<Edge>) -> Seq<u8>
        decreases edges.len(),
    {
        if edges.len() == 0 {
            seq![10u8, 10u8]
        } else {
            self.text(edges[0]) + self.after(edges[0]).print(edges.skip(1))
        }
    }
}

/// `itoa::Buffer::format`: appends to `out` the digits that write `n` in
/// base ten, the most significant first, without a sign or leading zeros.
#[verifier::external_body]
fn push_decimal(out: &mut Vec<u8>, n: usize)
    ensures
        final(out)@ == old(out)@ + decimal(n as nat),
{
    let mut buffer = itoa::Buffer::new();
    out.extend_from_slice(buffer.format(n).as_bytes());
}

/// Writes edges as adjacency lines: the heads of the edges of one tail on one
/// line, separated by spaces, the line of node `n` being line `n`.
pub struct EdgePrinter {
    index: usize,
    needs_space: bool,
}

impl View for EdgePrinter {
    type V = PrinterView;

    closed spec fn view(&self) -> PrinterView {
        PrinterView { index: self.index, needs_space: self.needs_space }
    }
}

impl EdgePrinter {
    /// A printer at the beginning of the stream.
    pub fn new() -> (printer: EdgePrinter)
        ensures
            printer@ == (PrinterView { index: 0, needs_space: false }),
    {
        EdgePrinter { index: 0, needs_space: false }
    }

    /// Appends the text of `edge` to `out`.
    pub fn write(&mut self, edge: &Edge, out: &mut Vec<u8>)
        ensures
            final(out)@ == old(out)@ + old(self)@.text(*edge),
            final(self)@ == old(self)@.after(*edge),
    {
        let ghost begun = self.index;
        while self.index < edge.from
            invariant
                begun <= self.index,
                begun < edge.from ==> self.index <= edge.from,
                begun >= edge.from ==> self.index == begun && self.needs_space == old(
                    self,
                ).needs_space,
                self.index > begun ==> !self.needs_space,
                out@ == old(out)@ + line_feeds((self.index - begun) as nat),
            decreases edge.from - self.index,
        {
            self.index = self.index + 1;
            out.push(10u8);
            self.needs_space = false;
            assert(out@ =~= old(out)@ + line_feeds((self.index - begun) as nat));
        }
        if self.needs_space {
            out.push(32u8);
        }
        push_decimal(out, edge.to);
        self.needs_space = true;
        assert(out@ =~= old(out)@ + old(self)@.text(*edge));
    }

    /// Appends the end of the stream to `out`: the end of the last line,
    /// and an empty line.
    pub fn finish(self, out: &mut Vec<u8>)
        ensures
            final(out)@ == old(out)@ + seq![10u8, 10u8],
    {
        out.push(10u8);
        out.push(10u8);
        assert(out@ =~= old(out)@ + seq![10u8, 10u8]);
    }
}

/// The text of a graph: its edges written in turn from the beginning of the
/// stream, and the end of the stream.
pub fn print_edges(edges: &Vec<Edge>) -> (text: Vec<u8>)
    ensures
        text@ == (PrinterView { index: 0, needs_space: false }).print(edges@),
{
    let mut text: Vec<u8> = Vec::new();
    let mut printer = EdgePrinter::new();
    let ghost first = printer@;
    let mut k: usize = 0;
    proof {
        assert(edges@.skip(0) =~= edges@);
    }
    while k < edges.len()
        invariant
            k <= edges@.len(),
            text@ + printer@.print(edges@.skip(k as int)) == first.print(edges@),
        decreases edges@.len() - k,
    {
        let ghost rest = edges@.skip(k as int);
        let ghost before = text@;
        let ghost state = printer@;
        printer.write(&edges[k], &mut text);
        proof {
            assert(rest[0] == edges@[k as int]);
            assert(rest.skip(1) =~= edges@.skip(k + 1));
            assert(before + (state.text(rest[0]) + state.after(rest[0]).print(rest.skip(1)))
                =~= (before + state.text(rest[0])) + state.after(rest[0]).print(rest.skip(1)));
        }
        k = k + 1;
    }
    proof {
        assert(edges@.skip(k as int).len() == 0);
    }
    printer.finish(&mut text);
    text
}

} // verus!
