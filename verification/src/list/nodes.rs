//! Nodes by identity: a node is named by its arena slot.

use crate::list::{SkipList, SkipListError};
use crate::order::{goes_before, lemma_order_basics, lt, totally_ordered};
use vstd::prelude::*;

verus! {

impl<T: PartialOrd> SkipList<T> {
    /// No two elements share a node: a slot has at most one rank.
    pub proof fn lemma_slots_distinct(self)
        requires
            self.wf(),
        ensures
            self.slots().len() == self@.len(),
            forall|i: int, j: int|
                0 <= i < j < self.slots().len() ==> #[trigger] self.slots()[i]
                    != #[trigger] self.slots()[j],
            forall|k: int| 1 <= k <= self@.len() ==> #[trigger] self.slot(k) == self.slots()[k - 1],
    {
        assert forall|i: int, j: int| 0 <= i < j < self.slots().len() implies #[trigger] self.slots()[i]
            != #[trigger] self.slots()[j] by {
            assert(self.order@[i + 1] != self.order@[j + 1]);
        }
    }

    /// Looking up the rank of the node found at rank `r` gives `r` back:
    /// the only rank whose slot is that of rank `r` is `r`. (`node_at_rank(r)`
    /// is `slots()[r - 1]`, and `rank_of_node` returns a rank with the
    /// slot it was given.)
    pub proof fn lemma_node_round_trip(self, r: int, k: int)
        requires
            self.wf(),
            1 <= r <= self@.len(),
            1 <= k <= self@.len(),
            self.slots()[k - 1] == self.slots()[r - 1],
        ensures
            k == r,
    {
        self.lemma_slots_distinct();
    }

    /// The slot of the node of rank `rank`, counting from 1. The slot names
    /// the node until the node is removed.
    pub fn node_at_rank(&self, rank: usize) -> (r: Option<usize>)
        requires
            self.wf(),
        ensures
            r == (if 1 <= rank <= self@.len() {
                Some(self.slots()[rank - 1])
            } else {
                None
            }),
    {
        if rank == 0 || rank > self.length {
            None
        } else {
            Some(self.locate(rank))
        }
    }

    /// The rank, counting from 1, of the node in slot `node`, if a node is
    /// linked there. The walk goes down towards the node's element and then
    /// along the elements tied with it until it meets the node itself.
    pub fn rank_of_node(&self, node: usize) -> (r: Option<usize>)
        requires
            self.wf(),
            totally_ordered::<T>(),
        ensures
            match r {
                Some(k) => 1 <= k <= self@.len() && self.slots()[k - 1] == node,
                None => !self.slots().contains(node),
            },
    {
        proof {
            self.lemma_slots_distinct();
        }
        if node == 0 || node >= self.nodes.len() {
            proof {
                if self.slots().contains(node) {
                    let i = choose|i: int| 0 <= i < self.slots().len() && self.slots()[i] == node;
                    assert(self.order@[i + 1] == node);
                    assert(self.order@[0] != self.order@[i + 1]);
                }
            }
            return None;
        }
        let element = match &self.nodes[node].element {
            Some(element) => element,
            None => {
                proof {
                    if self.slots().contains(node) {
                        let i = choose|i: int|
                            0 <= i < self.slots().len() && self.slots()[i] == node;
                        let _ = self.node(i + 1);
                    }
                }
                return None;
            },
        };
        let (update, rank) = self.descend(element, false);
        let ghost start = rank@[0] as int;
        let mut x: usize = update[0];
        let mut traversed: usize = rank[0];
        proof {
            assert(rank@[0] < self.npos());
            assert(update@[0] == self.order@[rank@[0] as int]);
            assert(self.npos() == self@.len() + 1);
        }
        let mut next = self.step(x, 0, element, true, Ghost(traversed as int));
        while next.is_some()
            invariant
                self.wf(),
                totally_ordered::<T>(),
                self.npos() == self@.len() + 1,
                start <= traversed < self.npos(),
                x == self.order@[traversed as int],
                forall|k: int| start < k <= traversed ==> #[trigger] self.order@[k] != node,
                match next {
                    Some((n, span)) => {
                        &&& self.link(traversed as int, 0).forward == Some(n)
                        &&& self.link(traversed as int, 0).span == span
                        &&& goes_before(self.elem(traversed + span), *element, true)
                    },
                    None => self.link(traversed as int, 0).forward matches Some(n) ==> !goes_before(
                        self.elem(traversed + self.link(traversed as int, 0).span),
                        *element,
                        true,
                    ),
                },
            decreases self.npos() - traversed,
        {
            let (n, span) = next.unwrap();
            proof {
                self.lemma_unit_span(traversed as int);
            }
            traversed += span;
            x = n;
            if n == node {
                return Some(traversed);
            }
            next = self.step(x, 0, element, true, Ghost(traversed as int));
        }
        proof {
            if self.slots().contains(node) {
                let i = choose|i: int| 0 <= i < self.slots().len() && self.slots()[i] == node;
                let k = i + 1;
                assert(self.order@[k] == node);
                assert(self.elem(k) == *element);
                lemma_order_basics(*element, *element, *element);
                assert(self.path_ok(*element, false, update@, rank@));
                assert(k > start);
                assert(k > traversed);
                self.lemma_unit_span(traversed as int);
                let t = traversed + 1;
                assert(!goes_before(self.elem(t), *element, true));
                if t < k {
                    assert(self@[t - 1] == self.elem(t));
                    assert(self@[k - 1] == self.elem(k));
                    assert(!lt(self@[k - 1], self@[t - 1]));
                }
                assert(false);
            }
        }
        None
    }

    /// Removes the node in slot `node` and returns its element; no other
    /// node changes its height or its slot. Where no node is linked there,
    /// the list stays as it is.
    pub fn remove_node(&mut self, node: usize) -> (r: Result<T, SkipListError>)
        requires
            old(self).wf(),
            totally_ordered::<T>(),
        ensures
            final(self).wf(),
            !old(self).slots().contains(node) ==> r == Err::<T, SkipListError>(
                SkipListError::NotFound,
            ) && *final(self) == *old(self),
            forall|i: int|
                0 <= i < old(self)@.len() && #[trigger] old(self).slots()[i] == node ==> {
                    &&& r == Ok::<T, SkipListError>(old(self)@[i])
                    &&& final(self)@ == old(self)@.remove(i)
                    &&& final(self).heights() == old(self).heights().remove(i)
                    &&& final(self).slots() == old(self).slots().remove(i)
                },
    {
        proof {
            self.lemma_slots_distinct();
        }
        match self.rank_of_node(node) {
            Some(k) => {
                let (update, rank) = self.descend_to(k - 1);
                Ok(self.unlink(&update, &rank, node))
            },
            None => Err(SkipListError::NotFound),
        }
    }
}

} // verus!
