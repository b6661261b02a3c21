//! The frontier: the nodes that wait to be expanded, least estimate first.

use vstd::multiset::Multiset;
use vstd::prelude::*;
use vstd::seq_lib::{to_multiset_build, to_multiset_contains, to_multiset_remove, to_multiset_update};

verus! {

/// An entry of the frontier: a node and the estimated length of a route to
/// the goal through it.
#[derive(Clone, Copy, Debug)]
pub struct Node {
    pub index: usize,
    pub priority: u128,
}

impl Node {
    /// The order in which entries leave the frontier: by estimate, and among
    /// equal estimates by node number.
    pub open spec fn precedes(self, other: Node) -> bool {
        self.priority < other.priority || (self.priority == other.priority && self.index
            <= other.index)
    }

    /// Whether `self` leaves the frontier no later than `other`.
    pub fn before(&self, other: &Node) -> (b: bool)
        ensures
            b == self.precedes(*other),
    {
        self.priority < other.priority || (self.priority == other.priority && self.index
            <= other.index)
    }
}

/// `node` is an entry of `queue` that precedes every entry of it.
pub open spec fn is_least(queue: Multiset<Node>, node: Node) -> bool {
    &&& queue.contains(node)
    &&& forall|other: Node| queue.contains(other) ==> node.precedes(other)
}

/// The entry of `queue` that leaves first.
pub open spec fn least(queue: Multiset<Node>) -> Node {
    choose|node: Node| is_least(queue, node)
}

/// A queue has one least entry at most, so an entry that is least is
/// [`least`].
pub proof fn lemma_least(queue: Multiset<Node>, node: Node)
    requires
        is_least(queue, node),
    ensures
        least(queue) == node,
{
    let found = least(queue);
    assert(is_least(queue, found));
    assert(node.precedes(found) && found.precedes(node));
}

/// A queue that holds an entry has a least entry.
pub proof fn lemma_least_exists(queue: Multiset<Node>)
    requires
        queue.len() > 0,
    ensures
        is_least(queue, least(queue)),
    decreases queue.len(),
{
    let first = queue.choose();
    let rest = queue.remove(first);
    assert(queue.contains(first));
    assert(Multiset::singleton(first).subset_of(queue));
    assert(rest.len() == queue.len() - 1);
    if rest.len() == 0 {
        assert forall|other: Node| queue.contains(other) implies first.precedes(other) by {
            if other != first {
                assert(rest.count(other) == queue.count(other));
            }
        }
        assert(is_least(queue, first));
    } else {
        lemma_least_exists(rest);
        let low = least(rest);
        let winner = if first.precedes(low) {
            first
        } else {
            low
        };
        assert(queue.contains(winner)) by {
            assert(rest.count(low) <= queue.count(low));
        }
        assert forall|other: Node| queue.contains(other) implies winner.precedes(other) by {
            if other != first {
                assert(rest.count(other) == queue.count(other));
                assert(low.precedes(other));
            }
        }
        assert(is_least(queue, winner));
    }
}

/// Every entry but the first follows its parent `(i - 1) / 2`.
spec fn ordered(heap: Seq<Node>) -> bool {
    forall|i: int| 0 < i < heap.len() ==> heap[(i - 1) / 2].precedes(#[trigger] heap[i])
}

/// The heap is ordered but for the entry at `hole`, which may precede its
/// parent; the children of `hole` follow that parent.
spec fn ordered_above(heap: Seq<Node>, hole: int) -> bool {
    &&& forall|i: int|
        0 < i < heap.len() && i != hole ==> heap[(i - 1) / 2].precedes(#[trigger] heap[i])
    &&& forall|i: int|
        0 < i < heap.len() && (i - 1) / 2 == hole && hole > 0 ==> heap[(hole - 1) / 2].precedes(
            #[trigger] heap[i],
        )
}

/// The heap is ordered but for the entry at `hole`, which may follow its
/// children; those children follow the parent of `hole`.
spec fn ordered_below(heap: Seq<Node>, hole: int) -> bool {
    &&& forall|i: int|
        0 < i < heap.len() && (i - 1) / 2 != hole ==> heap[(i - 1) / 2].precedes(
            #[trigger] heap[i],
        )
    &&& forall|i: int|
        0 < i < heap.len() && (i - 1) / 2 == hole && hole > 0 ==> heap[(hole - 1) / 2].precedes(
            #[trigger] heap[i],
        )
}

/// Exchanging two entries of a heap leaves the multiset of its entries as it
/// was.
proof fn lemma_exchange(heap: Seq<Node>, i: int, j: int)
    requires
        0 <= i < heap.len(),
        0 <= j < heap.len(),
    ensures
        heap.update(i, heap[j]).update(j, heap[i]).to_multiset() == heap.to_multiset(),
{
    broadcast use {to_multiset_contains, vstd::multiset::group_multiset_axioms};

    let mid = heap.update(i, heap[j]);
    to_multiset_update(heap, i, heap[j]);
    to_multiset_update(mid, j, heap[i]);
    assert(heap.contains(heap[i]));
    assert(heap.contains(heap[j]));
    assert(mid.update(j, heap[i]).to_multiset() =~= heap.to_multiset());
}

/// In an ordered heap the first entry precedes every entry.
proof fn lemma_root_first(heap: Seq<Node>, i: int)
    requires
        ordered(heap),
        0 <= i < heap.len(),
    ensures
        heap[0].precedes(heap[i]),
    decreases i,
{
    if i > 0 {
        lemma_root_first(heap, (i - 1) / 2);
        assert(heap[(i - 1) / 2].precedes(heap[i]));
    }
}

/// The first entry of an ordered heap is the least of its entries.
proof fn lemma_root_least(heap: Seq<Node>)
    requires
        ordered(heap),
        heap.len() > 0,
    ensures
        is_least(heap.to_multiset(), heap[0]),
{
    broadcast use to_multiset_contains;

    assert(heap.contains(heap[0]));
    assert forall|other: Node| heap.to_multiset().contains(other) implies heap[0].precedes(
        other,
    ) by {
        assert(heap.contains(other));
        let i = choose|i: int| 0 <= i < heap.len() && heap[i] == other;
        lemma_root_first(heap, i);
    }
}

/// A min-priority queue of [`Node`]s. Its view is the multiset of the entries
/// that wait in it.
pub struct Frontier {
    heap: Vec<Node>,
}

impl View for Frontier {
    type V = Multiset<Node>;

    closed spec fn view(&self) -> Multiset<Node> {
        self.heap@.to_multiset()
    }
}

impl Frontier {
    /// The entries are laid out as a binary heap.
    pub closed spec fn wf(&self) -> bool {
        ordered(self.heap@)
    }

    /// An empty frontier.
    pub fn new() -> (frontier: Frontier)
        ensures
            frontier.wf(),
            frontier@ == Multiset::<Node>::empty(),
    {
        let frontier = Frontier { heap: Vec::new() };
        assert(frontier.heap@.to_multiset() =~= Multiset::<Node>::empty()) by {
            broadcast use vstd::seq_lib::group_to_multiset_ensures;

            assert(frontier.heap@.to_multiset().len() == 0);
        }
        frontier
    }

    /// How many entries wait.
    pub fn len(&self) -> (n: usize)
        ensures
            n == self@.len(),
    {
        proof {
            self.heap@.to_multiset_ensures();
        }
        self.heap.len()
    }

    /// Adds an entry. Entries of one node may wait side by side.
    pub fn push(&mut self, node: Node)
        requires
            old(self).wf(),
        ensures
            final(self).wf(),
            final(self)@ == old(self)@.insert(node),
    {
        let ghost target = self@.insert(node);
        proof {
            to_multiset_build(self.heap@, node);
        }
        self.heap.push(node);
        let mut i: usize = self.heap.len() - 1;
        assert(ordered_above(self.heap@, i as int)) by {
            let heap = self.heap@;
            assert forall|k: int| 0 < k < heap.len() && k != i implies heap[(k - 1) / 2].precedes(
                #[trigger] heap[k],
            ) by {
                assert(heap[k] == old(self).heap@[k]);
                assert(heap[(k - 1) / 2] == old(self).heap@[(k - 1) / 2]);
            }
        }
        while i > 0 && !self.heap[(i - 1) / 2].before(&self.heap[i])
            invariant
                i < self.heap@.len(),
                ordered_above(self.heap@, i as int),
                self.heap@.to_multiset() == target,
            decreases i,
        {
            let parent: usize = (i - 1) / 2;
            let ghost before = self.heap@;
            let low = self.heap[i];
            let high = self.heap[parent];
            self.heap[i] = high;
            self.heap[parent] = low;
            proof {
                lemma_exchange(before, i as int, parent as int);
                assert(self.heap@ =~= before.update(i as int, high).update(parent as int, low));
                let heap = self.heap@;
                assert(low.precedes(high));
                assert forall|k: int| 0 < k < heap.len() && k != parent implies heap[(k - 1)
                    / 2].precedes(#[trigger] heap[k]) by {
                    if k == i {
                    } else if (k - 1) / 2 == i {
                        assert(before[parent as int].precedes(before[k]));
                    } else if (k - 1) / 2 == parent {
                        assert(before[parent as int].precedes(before[k]));
                    } else {
                        assert(before[(k - 1) / 2].precedes(before[k]));
                    }
                }
                assert forall|k: int|
                    0 < k < heap.len() && (k - 1) / 2 == parent && parent > 0 implies heap[(parent
                        - 1) / 2].precedes(#[trigger] heap[k]) by {
                    assert(before[(parent - 1) / 2].precedes(before[parent as int]));
                    if k != i {
                        assert(before[parent as int].precedes(before[k]));
                    }
                }
            }
            i = parent;
        }
        proof {
            let heap = self.heap@;
            assert forall|k: int| 0 < k < heap.len() implies heap[(k - 1) / 2].precedes(
                #[trigger] heap[k],
            ) by {
                if k != i {
                }
            }
        }
    }

    /// Takes out the entry that leaves first: the one of the least estimate
    /// and, among those, of the least node number.
    pub fn pop(&mut self) -> (node: Option<Node>)
        requires
            old(self).wf(),
        ensures
            final(self).wf(),
            old(self)@.len() == 0 ==> node is None && final(self)@ == old(self)@,
            old(self)@.len() > 0 ==> node == Some(least(old(self)@)) && final(self)@ == old(
                self,
            )@.remove(least(old(self)@)),
    {
        proof {
            self.heap@.to_multiset_ensures();
        }
        if self.heap.len() == 0 {
            return None;
        }
        let ghost full = self.heap@;
        let top = self.heap[0];
        proof {
            lemma_root_least(full);
            lemma_least(full.to_multiset(), top);
        }
        let ghost target = full.to_multiset().remove(top);
        let moved = self.heap.pop().unwrap();
        let n: usize = self.heap.len();
        proof {
            assert(self.heap@ =~= full.remove(n as int));
            to_multiset_remove(full, n as int);
        }
        if n == 0 {
            assert(ordered(self.heap@));
            return Some(top);
        }
        let ghost cut = self.heap@;
        self.heap[0] = moved;
        proof {
            to_multiset_update(cut, 0, moved);
            assert(self.heap@.to_multiset() =~= target);
            let heap = self.heap@;
            assert forall|k: int| 0 < k < heap.len() && (k - 1) / 2 != 0 implies heap[(k - 1)
                / 2].precedes(#[trigger] heap[k]) by {
                assert(full[(k - 1) / 2].precedes(full[k]));
            }
        }
        let mut i: usize = 0;
        loop
            invariant
                n == self.heap@.len(),
                i < n,
                ordered_below(self.heap@, i as int),
                self.heap@.to_multiset() == target,
            ensures
                ordered(self.heap@),
                self.heap@.to_multiset() == target,
            decreases n - i,
        {
            if i >= n / 2 {
                proof {
                    let heap = self.heap@;
                    assert forall|k: int| 0 < k < heap.len() implies heap[(k - 1) / 2].precedes(
                        #[trigger] heap[k],
                    ) by {
                        assert((k - 1) / 2 != i);
                    }
                }
                break ;
            }
            let left: usize = 2 * i + 1;
            let right: usize = left + 1;
            let child: usize = if right < n && self.heap[right].before(&self.heap[left]) {
                right
            } else {
                left
            };
            let ghost before = self.heap@;
            let high = self.heap[i];
            let low = self.heap[child];
            proof {
                assert forall|k: int| 0 < k < n && (k - 1) / 2 == i implies low.precedes(
                    #[trigger] before[k],
                ) by {
                    assert(k == left || k == right);
                }
            }
            if high.before(&low) {
                proof {
                    assert forall|k: int| 0 < k < before.len() implies before[(k - 1)
                        / 2].precedes(#[trigger] before[k]) by {
                        if (k - 1) / 2 == i {
                            assert(low.precedes(before[k]));
                        }
                    }
                }
                break ;
            }
            self.heap[i] = low;
            self.heap[child] = high;
            proof {
                lemma_exchange(before, i as int, child as int);
                assert(self.heap@ =~= before.update(i as int, low).update(child as int, high));
                let heap = self.heap@;
                assert(low.precedes(high));
                assert forall|k: int| 0 < k < heap.len() && (k - 1) / 2 != child implies heap[(k
                    - 1) / 2].precedes(#[trigger] heap[k]) by {
                    if k == child {
                    } else if (k - 1) / 2 == i {
                        assert(low.precedes(before[k]));
                    } else if k == i {
                        assert(before[(i - 1) / 2].precedes(before[child as int]));
                    } else {
                        assert(before[(k - 1) / 2].precedes(before[k]));
                    }
                }
                assert forall|k: int|
                    0 < k < heap.len() && (k - 1) / 2 == child && child > 0 implies heap[(child
                        - 1) / 2].precedes(#[trigger] heap[k]) by {
                    assert(before[child as int].precedes(before[k]));
                }
            }
            i = child;
        }
        Some(top)
    }
}

} // verus!
