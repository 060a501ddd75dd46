//! What holds of the structure of every well-formed list, and the
//! functions that read the structure rank by rank.

use crate::level::MAX_LEVEL;
use crate::list::SkipList;
use crate::order::sorted;
use vstd::prelude::*;

verus! {

impl<T: PartialOrd> SkipList<T> {
    /// The elements are in ascending order.
    pub proof fn lemma_sorted(self)
        requires
            self.wf(),
        ensures
            sorted(self@),
    {
    }

    /// There are as many positions as elements, and one for the header; the
    /// element of rank `k` sits at position `k`, in a node of height
    /// `heights()[k - 1]`.
    pub proof fn lemma_positions(self)
        requires
            self.wf(),
        ensures
            self.npos() == self@.len() + 1,
            self.heights().len() == self@.len(),
            forall|k: int| 1 <= k <= self@.len() ==> #[trigger] self.elem(k) == self@[k - 1],
            forall|k: int|
                1 <= k <= self@.len() ==> #[trigger] self.active(k) == self.heights()[k - 1],
            forall|k: int|
                1 <= k <= self@.len() ==> 1 <= #[trigger] self.active(k) <= self.active(0),
            1 <= self.active(0) <= MAX_LEVEL,
    {
        assert forall|k: int| 1 <= k <= self@.len() implies 1 <= #[trigger] self.active(k)
            <= self.active(0) by {
            let _ = self.node(k);
        }
    }

    /// Every span is the number of level-0 hops to the node that the link
    /// leads to, which is the nearest later node with more levels than the
    /// link's own; where there is no such node, the link leads nowhere and
    /// its span is the number of hops to the last node.
    pub proof fn lemma_span_correct(self, k: int, l: int)
        requires
            self.wf(),
            0 <= k <= self@.len(),
            0 <= l < self.active(k),
        ensures
            match self.link(k, l).forward {
                Some(n) => {
                    &&& k < k + self.link(k, l).span <= self@.len()
                    &&& n == self.slot(k + self.link(k, l).span)
                    &&& self.active(k + self.link(k, l).span) > l
                    &&& forall|m: int|
                        k < m < k + self.link(k, l).span ==> #[trigger] self.active(m) <= l
                },
                None => {
                    &&& k + self.link(k, l).span == self@.len()
                    &&& forall|m: int| k < m <= self@.len() ==> #[trigger] self.active(m) <= l
                },
            },
    {
        assert(self.link_ok(k, l));
    }

    /// The highest level in use is the largest height of a node, and 1 in
    /// an empty list.
    pub proof fn lemma_level_is_max_height(self)
        requires
            self.wf(),
        ensures
            forall|k: int| 1 <= k <= self@.len() ==> #[trigger] self.active(k) <= self.active(0),
            self.active(0) > 1 ==> exists|k: int|
                1 <= k <= self@.len() && #[trigger] self.active(k) == self.active(0),
            self@.len() == 0 ==> self.active(0) == 1,
    {
        self.lemma_positions();
        if self.level > 1 {
            let l = self.level - 1;
            assert(self.link_ok(0, l));
            let t = self.link(0, l).span as int;
            assert(self.active(t) == self.active(0));
        }
    }

    /// The number of levels in use at rank `rank`: the height of the node
    /// there, and at rank 0, for the header, the level of the list.
    pub fn levels_at(&self, rank: usize) -> (r: Option<usize>)
        requires
            self.wf(),
        ensures
            r == (if rank <= self@.len() {
                Some(self.active(rank as int) as usize)
            } else {
                None
            }),
    {
        if rank > self.length {
            None
        } else if rank == 0 {
            Some(self.level)
        } else {
            let x = self.locate(rank);
            Some(self.nodes[x].level.len())
        }
    }

    /// The span of the link of level `level` at rank `rank`, where the node
    /// there has such a level in use.
    pub fn span_at(&self, rank: usize, level: usize) -> (r: Option<usize>)
        requires
            self.wf(),
        ensures
            r == (if rank <= self@.len() && level < self.active(rank as int) {
                Some(self.link(rank as int, level as int).span)
            } else {
                None
            }),
    {
        if rank > self.length {
            return None;
        }
        let x = self.locate(rank);
        let height = if rank == 0 {
            self.level
        } else {
            self.nodes[x].level.len()
        };
        if level < height {
            Some(self.nodes[x].level[level].span)
        } else {
            None
        }
    }

    /// The links of level 0 chain the nodes in the order of their ranks, one
    /// hop each, and end at the last node: a walk along them from the header
    /// meets as many nodes as the list has elements.
    pub proof fn lemma_forward_chain(self, k: int)
        requires
            self.wf(),
            0 <= k <= self@.len(),
        ensures
            match self.link(k, 0).forward {
                Some(n) => k < self@.len() && n == self.slot(k + 1) && self.link(k, 0).span == 1,
                None => k == self@.len(),
            },
    {
        self.lemma_unit_span(k);
    }

    /// The backward links chain the nodes in the opposite order: each node
    /// leads back to the one of the rank before it, the first to the header,
    /// which leads nowhere.
    pub proof fn lemma_backward_chain(self, k: int)
        requires
            self.wf(),
            0 <= k <= self@.len(),
        ensures
            self.node(k).backward == if k == 0 {
                None
            } else {
                Some(self.slot(k - 1))
            },
    {
        let _ = self.node(k);
    }

    /// In an empty list the header leads nowhere, at any of its levels.
    pub proof fn lemma_empty_header(self, l: int)
        requires
            self.wf(),
            self@.len() == 0,
            0 <= l < MAX_LEVEL,
        ensures
            self.link(0, l).forward is None,
    {
        if l < self.level {
            assert(self.link_ok(0, l));
        }
    }

    /// The element of the node that the link of level `level` at rank `rank`
    /// leads to, where there is such a link and it leads somewhere. The
    /// header's links above the levels in use lead nowhere.
    pub fn forward_at(&self, rank: usize, level: usize) -> (r: Option<&T>)
        requires
            self.wf(),
        ensures
            r == (if rank <= self@.len() && level < self.active(rank as int) && self.link(
                rank as int,
                level as int,
            ).forward is Some {
                Some(&self@[rank + self.link(rank as int, level as int).span - 1])
            } else {
                None
            }),
    {
        if rank > self.length {
            return None;
        }
        let x = self.locate(rank);
        if level < self.nodes[x].level.len() {
            proof {
                if level < self.active(rank as int) {
                    assert(self.link_ok(rank as int, level as int));
                    let t = rank + self.link(rank as int, level as int).span;
                    if self.link(rank as int, level as int).forward is Some {
                        let _ = self.node(t);
                        assert(self@[t - 1] == self.elem(t));
                    }
                }
            }
            match self.nodes[x].level[level].forward {
                Some(n) => self.nodes[n].element.as_ref(),
                None => None,
            }
        } else {
            None
        }
    }
}

} // verus!
