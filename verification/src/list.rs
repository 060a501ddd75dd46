//! The list itself: its representation, its invariant, and its operations.
//!
//! Nodes live in an arena and name each other by index. Slot 0 is the header,
//! a sentinel of full height that holds no element. A ghost sequence lists the
//! linked nodes in level-0 order, header first; the position of a node in it
//! is its rank.

use crate::level::MAX_LEVEL;
use crate::order::{goes_before, sorted};
use vstd::prelude::*;

mod insert;
mod inspect;
mod nodes;
mod remove;
mod search;

verus! {

/// One level of a node: the next node at that level, and how many level-0
/// hops lead there (or to the end of the list, where there is no next node).
#[derive(Debug)]
pub struct SkipListLevel {
    pub forward: Option<usize>,
    pub span: usize,
}

/// A slot of the arena.
#[derive(Debug)]
pub struct SkipListNode<T> {
    pub element: Option<T>,
    pub backward: Option<usize>,
    pub level: Vec<SkipListLevel>,
}

/// An ordered collection with rank lookup. Its view is the sequence of its
/// elements in ascending order.
pub struct SkipList<T: PartialOrd> {
    nodes: Vec<SkipListNode<T>>,
    free: Vec<usize>,
    tail: Option<usize>,
    length: usize,
    level: usize,
    order: Ghost<Seq<usize>>,
}

/// Why an operation on the list did not go through.
#[derive(Debug, PartialEq, Eq, Structural)]
pub enum SkipListError {
    /// No element of the list is tied with the one asked for.
    NotFound,
}

impl<T> SkipListNode<T> {
    /// A node of height `level` that is linked to nothing.
    pub fn new(level: usize, element: Option<T>) -> (node: Self)
        ensures
            node.element == element,
            node.backward is None,
            node.level@.len() == level,
            forall|l: int|
                0 <= l < level ==> (#[trigger] node.level@[l]).forward is None && node.level@[l].span
                    == 0,
    {
        let mut skip_list_level: Vec<SkipListLevel> = Vec::new();
        let mut i: usize = 0;
        while i < level
            invariant
                i <= level,
                skip_list_level@.len() == i,
                forall|l: int|
                    0 <= l < i ==> (#[trigger] skip_list_level@[l]).forward is None
                        && skip_list_level@[l].span == 0,
            decreases level - i,
        {
            skip_list_level.push(SkipListLevel { forward: None, span: 0 });
            i += 1;
        }
        SkipListNode { element, backward: None, level: skip_list_level }
    }
}

impl<T: PartialOrd> View for SkipList<T> {
    type V = Seq<T>;

    closed spec fn view(&self) -> Seq<T> {
        Seq::new(self.length as nat, |i: int| self.elem(i + 1))
    }
}

impl<T: PartialOrd> SkipList<T> {
    /// The number of linked nodes, header included.
    pub closed spec fn npos(self) -> int {
        self.order@.len() as int
    }

    /// The node at position `k` of the level-0 order.
    pub closed spec fn node(self, k: int) -> SkipListNode<T> {
        self.nodes@[self.order@[k] as int]
    }

    /// The element at position `k`; positions start at 1.
    pub closed spec fn elem(self, k: int) -> T {
        self.node(k).element.unwrap()
    }

    /// The number of levels of the node at position `k`.
    pub closed spec fn height(self, k: int) -> int {
        self.node(k).level@.len() as int
    }

    /// The number of levels in use at position `k`: the node's height, and for
    /// the header the list's level.
    pub closed spec fn active(self, k: int) -> int {
        if k == 0 {
            self.level as int
        } else {
            self.height(k)
        }
    }

    /// Level `l` of the node at position `k`.
    pub closed spec fn link(self, k: int, l: int) -> SkipListLevel {
        self.node(k).level@[l]
    }

    /// The arena slots of the elements' nodes, in the order of the elements.
    /// A slot names its node for as long as the node is linked.
    pub closed spec fn slots(self) -> Seq<usize> {
        Seq::new(self.length as nat, |i: int| self.order@[i + 1])
    }

    /// The heights of the elements' nodes, in the order of the elements.
    pub closed spec fn heights(self) -> Seq<int> {
        Seq::new(self.length as nat, |i: int| self.height(i + 1))
    }

    /// The arena slot of the node at position `k`.
    pub closed spec fn slot(self, k: int) -> usize {
        self.order@[k]
    }

    /// Every node strictly between positions `a` and `b` has at most `l`
    /// levels: a link of level `l` passes over it.
    pub closed spec fn low_between(self, a: int, b: int, l: int) -> bool {
        forall|m: int| a < m < b ==> #[trigger] self.height(m) <= l
    }

    /// The link of level `l` at position `k` leads to the nearest later node
    /// that has more than `l` levels, and its span is the distance to that
    /// node, or to the last node where there is none.
    pub closed spec fn link_ok(self, k: int, l: int) -> bool {
        let lv = self.link(k, l);
        match lv.forward {
            Some(n) => {
                &&& lv.span >= 1
                &&& k + lv.span < self.npos()
                &&& n == self.order@[k + lv.span]
                &&& self.height(k + lv.span) > l
                &&& self.low_between(k, k + lv.span, l)
            },
            None => {
                &&& k + lv.span == self.npos() - 1
                &&& self.low_between(k, self.npos(), l)
            },
        }
    }

    /// The invariant but for the rule that the top level in use is not empty.
    pub closed spec fn wf_core(self) -> bool {
        &&& self.nodes@.len() >= 1
        &&& self.order@.len() == self.length + 1
        &&& self.order@[0] == 0
        &&& self.length + 1 + self.free@.len() <= self.nodes@.len()
        &&& 1 <= self.level <= MAX_LEVEL
        &&& self.nodes@[0].level@.len() == MAX_LEVEL
        &&& self.nodes@[0].element is None
        &&& self.nodes@[0].backward is None
        &&& forall|k: int| 0 <= k < self.npos() ==> #[trigger] self.order@[k] < self.nodes@.len()
        &&& forall|i: int, j: int|
            0 <= i < j < self.npos() ==> #[trigger] self.order@[i] != #[trigger] self.order@[j]
        &&& forall|k: int|
            1 <= k < self.npos() ==> {
                &&& (#[trigger] self.node(k)).element is Some
                &&& 1 <= self.height(k) <= self.level
                &&& self.node(k).backward == Some(self.order@[k - 1])
            }
        &&& forall|k: int, l: int|
            0 <= k < self.npos() && 0 <= l < self.active(k) ==> #[trigger] self.link_ok(k, l)
        &&& forall|l: int|
            self.level <= l < MAX_LEVEL ==> (#[trigger] self.nodes@[0].level@[l]).forward is None
        &&& self.tail == if self.length == 0 {
            None
        } else {
            Some(self.order@[self.length as int])
        }
        &&& sorted(self@)
        &&& forall|i: int|
            0 <= i < self.free@.len() ==> 0 < #[trigger] self.free@[i] < self.nodes@.len()
        &&& forall|i: int, j: int|
            0 <= i < j < self.free@.len() ==> #[trigger] self.free@[i] != #[trigger] self.free@[j]
        &&& forall|i: int, k: int|
            0 <= i < self.free@.len() && 0 <= k < self.npos() ==> #[trigger] self.free@[i]
                != #[trigger] self.order@[k]
    }

    /// The invariant of the list. `new` establishes it and every operation
    /// keeps it.
    pub closed spec fn wf(self) -> bool {
        &&& self.wf_core()
        &&& self.level == 1 || self.nodes@[0].level@[self.level - 1].forward is Some
    }

    /// A path down the levels that ends at position `rank[0]`: for each
    /// level `l` in use, `update[l]` is the slot and `rank[l]` the position
    /// of the last node of more than `l` levels that is not behind
    /// `rank[0]`; above the levels in use both name the header.
    pub closed spec fn path_struct(self, update: Seq<usize>, rank: Seq<usize>) -> bool {
        &&& update.len() == MAX_LEVEL
        &&& rank.len() == MAX_LEVEL
        &&& forall|l: int|
            0 <= l < MAX_LEVEL ==> #[trigger] rank[l] < self.npos() && update[l]
                == self.order@[rank[l] as int]
        &&& forall|l: int| self.level <= l < MAX_LEVEL ==> #[trigger] rank[l] == 0
        &&& forall|l: int|
            0 <= l < self.level ==> {
                &&& #[trigger] rank[l] <= rank[0]
                &&& self.active(rank[l] as int) > l
                &&& self.low_between(rank[l] as int, rank[0] + 1, l)
            }
    }

    /// What a descent towards `e` leaves behind: a path that ends at the
    /// last element that goes before `e`, so that `rank[0]` is the number of
    /// such elements.
    pub closed spec fn path_ok(
        self,
        e: T,
        inclusive: bool,
        update: Seq<usize>,
        rank: Seq<usize>,
    ) -> bool {
        &&& self.path_struct(update, rank)
        &&& forall|m: int| 1 <= m <= rank[0] ==> goes_before(#[trigger] self.elem(m), e, inclusive)
        &&& forall|m: int|
            rank[0] < m < self.npos() ==> !goes_before(#[trigger] self.elem(m), e, inclusive)
    }

    /// An empty list.
    pub fn new() -> (list: Self)
        ensures
            list.wf(),
            list@ == Seq::<T>::empty(),
    {
        SkipList::default()
    }

    /// The number of elements.
    pub fn len(&self) -> (n: usize)
        requires
            self.wf(),
        ensures
            n == self@.len(),
    {
        self.length
    }

    /// Whether the list holds no element.
    pub fn is_empty(&self) -> (b: bool)
        requires
            self.wf(),
        ensures
            b == (self@.len() == 0),
    {
        self.length == 0
    }

    /// The highest level in use: the largest height among the elements'
    /// nodes, and 1 in an empty list.
    pub fn level(&self) -> (l: usize)
        requires
            self.wf(),
        ensures
            l == self.active(0),
            1 <= l <= MAX_LEVEL,
            self@.len() == 0 ==> l == 1,
    {
        proof {
            if self.length == 0 && self.level > 1 {
                assert(self.link_ok(0, self.level - 1));
            }
        }
        self.level
    }

    /// The smallest element, if any.
    pub fn first(&self) -> (r: Option<&T>)
        requires
            self.wf(),
        ensures
            r == (if self@.len() == 0 {
                None
            } else {
                Some(&self@[0])
            }),
    {
        proof {
            assert(self.link_ok(0, 0));
            if self.length > 0 {
                assert(self.height(1) >= 1);
                let _ = self.node(1);
            }
        }
        match self.nodes[0].level[0].forward {
            Some(n) => self.nodes[n].element.as_ref(),
            None => None,
        }
    }

    /// The largest element, if any.
    pub fn last(&self) -> (r: Option<&T>)
        requires
            self.wf(),
        ensures
            r == (if self@.len() == 0 {
                None
            } else {
                Some(&self@[self@.len() - 1])
            }),
    {
        proof {
            if self.length > 0 {
                let _ = self.node(self.length as int);
            }
        }
        match self.tail {
            Some(n) => self.nodes[n].element.as_ref(),
            None => None,
        }
    }

    /// A link of level 0 leads to the very next node.
    proof fn lemma_unit_span(self, k: int)
        requires
            self.wf_core(),
            0 <= k < self.npos(),
        ensures
            match self.link(k, 0).forward {
                Some(n) => {
                    &&& self.link(k, 0).span == 1
                    &&& k + 1 < self.npos()
                    &&& n == self.order@[k + 1]
                },
                None => k == self.npos() - 1 && self.link(k, 0).span == 0,
            },
    {
        assert(self.link_ok(k, 0)) by {
            if k > 0 {
                let _ = self.node(k);
            }
        }
        if k + 1 < self.npos() {
            let _ = self.node(k + 1);
            assert(self.height(k + 1) >= 1);
        }
    }

    /// The link that a descent turned down from at level `l` reaches past
    /// the place where the descent ended.
    proof fn lemma_crossing(self, update: Seq<usize>, rank: Seq<usize>, l: int)
        requires
            self.wf(),
            self.path_struct(update, rank),
            0 <= l < self.level,
        ensures
            self.link_ok(rank[l] as int, l),
            self.link(rank[l] as int, l) == self.nodes@[update[l] as int].level@[l],
            match self.link(rank[l] as int, l).forward {
                Some(n) => rank[l] + self.link(rank[l] as int, l).span > rank[0],
                None => rank[l] + self.link(rank[l] as int, l).span == self.npos() - 1,
            },
            rank[0] < self.npos(),
    {
        let k = rank[l] as int;
        let lv = self.link(k, l);
        assert(self.link_ok(k, l));
        assert(rank[0] < self.npos());
        if lv.forward is Some {
            let t = k + lv.span;
            if t <= rank[0] {
                assert(self.height(t) <= l);
            }
        }
    }

    /// A node before the end of a descent that has more than `l` levels and
    /// is not the one where the descent turned down from level `l` has its
    /// link of that level end no later than that one.
    proof fn lemma_turn_unique(self, update: Seq<usize>, rank: Seq<usize>, k: int, l: int)
        requires
            self.wf(),
            self.path_struct(update, rank),
            0 <= k <= rank[0],
            0 <= l < self.active(k),
            l < self.level,
            k != rank[l],
        ensures
            self.link_ok(k, l),
            self.link(k, l).forward is Some,
            k < rank[l],
            k + self.link(k, l).span <= rank[l],
    {
        let u = rank[l] as int;
        assert(rank[0] < self.npos());
        assert(self.link_ok(k, l));
        assert(self.low_between(u, rank[0] + 1, l));
        if k > u {
            assert(self.height(k) <= l);
            assert(false);
        }
        assert(u >= 1);
        assert(self.active(u) == self.height(u));
        let lv = self.link(k, l);
        if lv.forward is None {
            assert(self.height(u) <= l);
        } else if k + lv.span > u {
            assert(self.height(u) <= l);
        }
    }

    /// The slot of the node of rank `rank`; rank 0 is the header. The walk
    /// goes down from the top level and adds up the spans it passes.
    fn locate(&self, rank: usize) -> (x: usize)
        requires
            self.wf(),
            rank <= self.length,
        ensures
            x == self.order@[rank as int],
            x < self.nodes@.len(),
    {
        let mut x: usize = 0;
        let mut traversed: usize = 0;
        let mut i: usize = self.level;
        while i > 0
            invariant
                self.wf(),
                rank <= self.length,
                0 <= i <= self.level,
                traversed <= rank,
                x == self.order@[traversed as int],
                self.active(traversed as int) >= i,
                i == 0 ==> traversed == rank,
            decreases i,
        {
            i -= 1;
            let mut next = self.nodes[x].level[i].forward;
            let mut span = self.nodes[x].level[i].span;
            proof {
                assert(self.link_ok(traversed as int, i as int));
            }
            while next.is_some() && span <= rank - traversed
                invariant
                    self.wf(),
                    rank <= self.length,
                    0 <= i < self.level,
                    traversed <= rank,
                    x == self.order@[traversed as int],
                    self.active(traversed as int) > i,
                    next == self.link(traversed as int, i as int).forward,
                    span == self.link(traversed as int, i as int).span,
                    self.link_ok(traversed as int, i as int),
                decreases rank - traversed,
            {
                traversed += span;
                x = next.unwrap();
                proof {
                    assert(self.link_ok(traversed as int, i as int));
                }
                next = self.nodes[x].level[i].forward;
                span = self.nodes[x].level[i].span;
            }
            proof {
                if i == 0 {
                    self.lemma_unit_span(traversed as int);
                }
            }
        }
        x
    }

    /// Sets one level of one slot and nothing else.
    fn set_link(&mut self, n: usize, l: usize, forward: Option<usize>, span: usize)
        requires
            n < old(self).nodes@.len(),
            l < old(self).nodes@[n as int].level@.len(),
        ensures
            final(self).free == old(self).free,
            final(self).tail == old(self).tail,
            final(self).length == old(self).length,
            final(self).level == old(self).level,
            final(self).order == old(self).order,
            final(self).nodes@.len() == old(self).nodes@.len(),
            forall|m: int|
                0 <= m < old(self).nodes@.len() ==> {
                    &&& (#[trigger] final(self).nodes@[m]).element == old(self).nodes@[m].element
                    &&& final(self).nodes@[m].backward == old(self).nodes@[m].backward
                    &&& final(self).nodes@[m].level@.len() == old(self).nodes@[m].level@.len()
                },
            forall|m: int, j: int|
                0 <= m < old(self).nodes@.len() && 0 <= j < old(self).nodes@[m].level@.len()
                    ==> #[trigger] final(self).nodes@[m].level@[j] == if m == n && j == l {
                    SkipListLevel { forward, span }
                } else {
                    old(self).nodes@[m].level@[j]
                },
    {
        self.nodes[n].level[l] = SkipListLevel { forward, span };
    }

    /// Sets the backward link of one slot and nothing else.
    fn set_backward(&mut self, n: usize, backward: Option<usize>)
        requires
            n < old(self).nodes@.len(),
        ensures
            final(self).free == old(self).free,
            final(self).tail == old(self).tail,
            final(self).length == old(self).length,
            final(self).level == old(self).level,
            final(self).order == old(self).order,
            final(self).nodes@.len() == old(self).nodes@.len(),
            forall|m: int|
                0 <= m < old(self).nodes@.len() ==> {
                    &&& (#[trigger] final(self).nodes@[m]).element == old(self).nodes@[m].element
                    &&& final(self).nodes@[m].level == old(self).nodes@[m].level
                    &&& final(self).nodes@[m].backward == if m == n {
                        backward
                    } else {
                        old(self).nodes@[m].backward
                    }
                },
    {
        self.nodes[n].backward = backward;
    }
}

impl<T: PartialOrd> Default for SkipList<T> {
    /// An empty list: a header of full height with nothing linked to it.
    fn default() -> (list: Self)
        ensures
            list.wf(),
            list@ == Seq::<T>::empty(),
    {
        let header = SkipListNode::new(MAX_LEVEL, None);
        let mut nodes: Vec<SkipListNode<T>> = Vec::new();
        nodes.push(header);
        let ghost order = seq![0usize];
        let list = SkipList {
            nodes,
            free: Vec::new(),
            tail: None,
            length: 0,
            level: 1,
            order: Ghost(order),
        };
        proof {
            assert(list.link_ok(0, 0));
            assert(list@ =~= Seq::<T>::empty());
        }
        list
    }
}

} // verus!
