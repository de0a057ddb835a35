//! A binary min-heap of search nodes.

use vstd::multiset::Multiset;
use vstd::prelude::*;

verus! {

/// A frontier entry of a path search: the tile, the steps taken to reach it, and
/// the rank by which it is expanded.
#[derive(Debug, Clone, Copy, PartialEq, Eq, Structural)]
pub struct OpenNode {
    pub rank: u128,
    pub steps: usize,
    pub x: i32,
    pub y: i32,
}

impl OpenNode {
    /// Expansion order: by rank, then by steps, then by coordinates.
    pub open spec fn before(self, other: Self) -> bool {
        self.rank < other.rank || (self.rank == other.rank && (self.steps < other.steps || (
        self.steps == other.steps && (self.x < other.x || (self.x == other.x && self.y
            < other.y)))))
    }

    pub open spec fn at_most(self, other: Self) -> bool {
        self == other || self.before(other)
    }

    fn comes_before(&self, other: &Self) -> (earlier: bool)
        ensures
            earlier == self.before(*other),
    {
        self.rank < other.rank || (self.rank == other.rank && (self.steps < other.steps || (
        self.steps == other.steps && (self.x < other.x || (self.x == other.x && self.y
            < other.y)))))
    }
}

/// Priority queue that hands out the node that comes first in expansion order.
#[derive(Debug)]
pub struct MinHeap {
    nodes: Vec<OpenNode>,
}

spec fn heap_ordered(s: Seq<OpenNode>) -> bool {
    forall|i: int| 1 <= i < s.len() ==> (#[trigger] s[(i - 1) / 2]).at_most(s[i])
}

/// Heap order everywhere but between `hole` and its parent, while the parent of
/// `hole` still comes before the children of `hole`.
spec fn ordered_above(s: Seq<OpenNode>, hole: int) -> bool {
    &&& forall|i: int| #![trigger s[i]] 1 <= i < s.len() && i != hole ==> s[(i - 1) / 2].at_most(s[i])
    &&& forall|i: int| #![trigger s[i]]
        1 <= i < s.len() && (i - 1) / 2 == hole && hole >= 1 ==> s[(hole - 1) / 2].at_most(s[i])
}

/// Heap order everywhere but between `hole` and its children, while the parent of
/// `hole` still comes before the children of `hole`.
spec fn ordered_below(s: Seq<OpenNode>, hole: int) -> bool {
    &&& forall|i: int| #![trigger s[i]]
        1 <= i < s.len() && (i - 1) / 2 != hole ==> s[(i - 1) / 2].at_most(s[i])
    &&& forall|i: int| #![trigger s[i]]
        1 <= i < s.len() && (i - 1) / 2 == hole && hole >= 1 ==> s[(hole - 1) / 2].at_most(s[i])
}

proof fn lemma_update_multiset(s: Seq<OpenNode>, i: int, v: OpenNode)
    requires
        0 <= i < s.len(),
    ensures
        s.update(i, v).to_multiset() =~= s.to_multiset().remove(s[i]).insert(v),
{
    vstd::seq_lib::to_multiset_remove(s, i);
    vstd::seq_lib::to_multiset_insert(s.remove(i), i, v);
    assert(s.update(i, v) =~= s.remove(i).insert(i, v));
}

proof fn lemma_swap_multiset(s: Seq<OpenNode>, i: int, j: int)
    requires
        0 <= i < s.len(),
        0 <= j < s.len(),
    ensures
        s.update(i, s[j]).update(j, s[i]).to_multiset() =~= s.to_multiset(),
{
    lemma_update_multiset(s, i, s[j]);
    lemma_update_multiset(s.update(i, s[j]), j, s[i]);
    vstd::seq_lib::to_multiset_contains(s, s[i]);
    vstd::seq_lib::to_multiset_contains(s, s[j]);
    if i == j {
        assert(s.update(i, s[j]).update(j, s[i]) =~= s);
    }
}

proof fn lemma_root_is_first(s: Seq<OpenNode>, i: int)
    requires
        heap_ordered(s),
        0 <= i < s.len(),
    ensures
        s[0].at_most(s[i]),
    decreases i,
{
    if i > 0 {
        lemma_root_is_first(s, (i - 1) / 2);
        assert(s[(i - 1) / 2].at_most(s[i]));
    }
}

impl MinHeap {
    pub closed spec fn wf(self) -> bool {
        heap_ordered(self.nodes@)
    }

    /// The nodes in the queue.
    pub closed spec fn view(self) -> Multiset<OpenNode> {
        self.nodes@.to_multiset()
    }

    pub fn new() -> (heap: Self)
        ensures
            heap.wf(),
            heap@ == Multiset::<OpenNode>::empty(),
    {
        let heap = MinHeap { nodes: Vec::new() };
        proof {
            vstd::seq_lib::to_multiset_len(heap.nodes@);
            assert(heap@ =~= Multiset::<OpenNode>::empty());
        }
        heap
    }

    fn swap(&mut self, i: usize, j: usize)
        requires
            i < old(self).nodes@.len(),
            j < old(self).nodes@.len(),
        ensures
            final(self).nodes@ == old(self).nodes@.update(i as int, old(self).nodes@[j as int]).update(
                j as int,
                old(self).nodes@[i as int],
            ),
            final(self)@ == old(self)@,
    {
        proof {
            lemma_swap_multiset(self.nodes@, i as int, j as int);
        }
        let a: OpenNode = self.nodes[i];
        let b: OpenNode = self.nodes[j];
        self.nodes[i] = b;
        self.nodes[j] = a;
    }

    pub fn push(&mut self, node: OpenNode)
        requires
            old(self).wf(),
        ensures
            final(self).wf(),
            final(self)@ == old(self)@.insert(node),
    {
        proof {
            vstd::seq_lib::to_multiset_build(self.nodes@, node);
        }
        self.nodes.push(node);
        let mut i: usize = self.nodes.len() - 1;
        while i > 0
            invariant
                i < self.nodes@.len(),
                ordered_above(self.nodes@, i as int),
                self@ == old(self)@.insert(node),
            ensures
                heap_ordered(self.nodes@),
            decreases i,
        {
            let parent: usize = (i - 1) / 2;
            if self.nodes[i].comes_before(&self.nodes[parent]) {
                let ghost prior = self.nodes@;
                self.swap(i, parent);
                proof {
                    let s = self.nodes@;
                    assert forall|k: int| #![trigger s[k]] 1 <= k < s.len() && k != parent implies s[(k
                        - 1) / 2].at_most(s[k]) by {
                        assert(prior[k] == prior[k]);
                        let up = (k - 1) / 2;
                        if k == i {
                        } else if up == i {
                            assert(prior[(i - 1) / 2].at_most(prior[k]));
                        } else if up == parent {
                            assert(prior[up].at_most(prior[k]));
                        } else {
                            assert(prior[up].at_most(prior[k]));
                        }
                    }
                    assert forall|k: int| #![trigger s[k]] 1 <= k < s.len() && (k - 1) / 2 == parent
                        && parent >= 1 implies s[(parent - 1) / 2].at_most(s[k]) by {
                        assert(prior[parent as int] == prior[parent as int]);
                        assert(prior[(parent - 1) / 2].at_most(prior[parent as int]));
                        if k != i {
                            assert(prior[parent as int].at_most(prior[k]));
                        }
                    }
                }
                i = parent;
            } else {
                proof {
                    let s = self.nodes@;
                    assert forall|k: int| 1 <= k < s.len() implies (#[trigger] s[(k - 1)
                        / 2]).at_most(s[k]) by {
                        let kk = s[k];
                    }
                }
                break;
            }
        }
    }

    pub fn pop(&mut self) -> (first: Option<OpenNode>)
        requires
            old(self).wf(),
        ensures
            final(self).wf(),
            match first {
                Some(node) => old(self)@.contains(node) && final(self)@ == old(self)@.remove(node)
                    && forall|other: OpenNode| #[trigger]
                    old(self)@.contains(other) ==> node.at_most(other),
                None => old(self)@ == Multiset::<OpenNode>::empty() && final(self)@ == old(self)@,
            },
    {
        let len: usize = self.nodes.len();
        if len == 0 {
            proof {
                vstd::seq_lib::to_multiset_len(self.nodes@);
                assert(self@ =~= Multiset::<OpenNode>::empty());
            }
            return None;
        }
        let ghost before = self.nodes@;
        proof {
            assert forall|other: OpenNode| #[trigger] self@.contains(other) implies before[0].at_most(
                other,
            ) by {
                vstd::seq_lib::to_multiset_contains(before, other);
                let k = choose|k: int| 0 <= k < before.len() && before[k] == other;
                lemma_root_is_first(before, k);
            }
            vstd::seq_lib::to_multiset_contains(before, before[0]);
            lemma_swap_multiset(before, 0, len - 1);
        }
        let first: OpenNode = self.nodes[0];
        self.swap(0, len - 1);
        let ghost swapped = self.nodes@;
        let _ = self.nodes.pop();
        proof {
            assert(self.nodes@ =~= swapped.remove(len - 1));
            vstd::seq_lib::to_multiset_remove(swapped, len - 1);
            let s = self.nodes@;
            assert forall|i: int| #![trigger s[i]] 1 <= i < s.len() && (i - 1) / 2 != 0 implies s[(i - 1)
                / 2].at_most(s[i]) by {
                assert(before[(i - 1) / 2].at_most(before[i]));
            }
        }
        self.sift_down();
        Some(first)
    }

    fn sift_down(&mut self)
        requires
            ordered_below(old(self).nodes@, 0),
        ensures
            heap_ordered(final(self).nodes@),
            final(self)@ == old(self)@,
    {
        let len: usize = self.nodes.len();
        let mut i: usize = 0;
        while i < len / 2
            invariant_except_break
                ordered_below(self.nodes@, i as int),
            invariant
                len == self.nodes@.len(),
                i <= len,
                self@ == old(self)@,
            ensures
                heap_ordered(self.nodes@),
            decreases len - i,
        {
            let left: usize = 2 * i + 1;
            let mut child: usize = left;
            if left + 1 < len {
                if self.nodes[left + 1].comes_before(&self.nodes[left]) {
                    child = left + 1;
                }
            }
            if self.nodes[child].comes_before(&self.nodes[i]) {
                let ghost prior = self.nodes@;
                self.swap(i, child);
                proof {
                    let s = self.nodes@;
                    assert((child - 1) / 2 == i);
                    assert forall|k: int| #![trigger s[k]] 1 <= k < s.len() && (k - 1) / 2
                        != child implies s[(k - 1) / 2].at_most(s[k]) by {
                        assert(prior[k] == prior[k]);
                        assert(prior[child as int] == prior[child as int]);
                        let up = (k - 1) / 2;
                        if k == child {
                        } else if k == i {
                        } else if up == i {
                            assert(k == left || k == left + 1);
                        } else {
                            assert(prior[up].at_most(prior[k]));
                        }
                    }
                    assert forall|k: int| #![trigger s[k]] 1 <= k < s.len() && (k - 1) / 2 == child
                        && child >= 1 implies s[(child - 1) / 2].at_most(s[k]) by {
                        assert(prior[(k - 1) / 2].at_most(prior[k]));
                    }
                }
                i = child;
            } else {
                proof {
                    let s = self.nodes@;
                    assert forall|k: int| 1 <= k < s.len() implies (#[trigger] s[(k - 1)
                        / 2]).at_most(s[k]) by {
                        let kk = s[k];
                        if (k - 1) / 2 == i {
                            assert(k == left || k == left + 1);
                        }
                    }
                }
                break;
            }
            if i >= len / 2 {
                proof {
                    let s = self.nodes@;
                    assert forall|k: int| 1 <= k < s.len() implies (#[trigger] s[(k - 1)
                        / 2]).at_most(s[k]) by {
                        let kk = s[k];
                    }
                }
            }
        }
    }
}

} // verus!
