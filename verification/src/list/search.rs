//! Walks through the list: the descent that every operation starts with,
//! and the queries that read the list without changing it.

use crate::level::MAX_LEVEL;
use crate::list::SkipList;
use crate::order::{
    count_before, count_less, count_upto, first_tied, goes_before, lemma_count_before,
    lemma_count_splits, lemma_goes_before_prefix, lists, lt, precedes, totally_ordered,
};
use vstd::prelude::*;

verus! {

impl<T: PartialOrd> SkipList<T> {
    /// Elements that go before `e` sit at a prefix of the positions.
    proof fn lemma_before_prefix(self, e: T, inclusive: bool, a: int, b: int)
        requires
            self.wf(),
            totally_ordered::<T>(),
            1 <= a <= b < self.npos(),
            goes_before(self.elem(b), e, inclusive),
        ensures
            goes_before(self.elem(a), e, inclusive),
    {
        assert(self@[a - 1] == self.elem(a));
        assert(self@[b - 1] == self.elem(b));
        lemma_goes_before_prefix(self@, e, inclusive, a - 1, b - 1);
    }

    /// The next node at level `l` after `x`, if its element goes before
    /// `target`, with the span of the link that leads to it.
    pub(super) fn step(
        &self,
        x: usize,
        l: usize,
        target: &T,
        inclusive: bool,
        Ghost(k): Ghost<int>,
    ) -> (r: Option<(usize, usize)>)
        requires
            self.wf(),
            totally_ordered::<T>(),
            0 <= k < self.npos(),
            x == self.order@[k],
            l < self.active(k),
        ensures
            match r {
                Some((n, span)) => {
                    &&& self.link(k, l as int).forward == Some(n)
                    &&& self.link(k, l as int).span == span
                    &&& goes_before(self.elem(k + span), *target, inclusive)
                },
                None => self.link(k, l as int).forward matches Some(n) ==> !goes_before(
                    self.elem(k + self.link(k, l as int).span),
                    *target,
                    inclusive,
                ),
            },
    {
        proof {
            assert(self.link_ok(k, l as int));
            if k > 0 {
                let _ = self.node(k);
            }
        }
        let lv = &self.nodes[x].level[l];
        match lv.forward {
            Some(n) => {
                proof {
                    let _ = self.node(k + lv.span);
                }
                match &self.nodes[n].element {
                    Some(v) => {
                        if precedes(v, target, inclusive) {
                            Some((n, lv.span))
                        } else {
                            None
                        }
                    },
                    None => None,
                }
            },
            None => None,
        }
    }

    /// Walks from the header towards `target`, top level first, and notes
    /// at each level where it turned down.
    pub(super) fn descend(&self, target: &T, inclusive: bool) -> (path: (Vec<usize>, Vec<usize>))
        requires
            self.wf(),
            totally_ordered::<T>(),
        ensures
            self.path_ok(*target, inclusive, path.0@, path.1@),
            path.1@[0] == count_before(self@, *target, inclusive),
    {
        let mut update: Vec<usize> = Vec::new();
        let mut rank: Vec<usize> = Vec::new();
        let mut j: usize = 0;
        while j < MAX_LEVEL
            invariant
                j <= MAX_LEVEL,
                update@.len() == j,
                rank@.len() == j,
                forall|l: int| 0 <= l < j ==> #[trigger] rank@[l] == 0,
                forall|l: int| 0 <= l < j ==> #[trigger] update@[l] == 0,
            decreases MAX_LEVEL - j,
        {
            update.push(0);
            rank.push(0);
            j += 1;
        }
        let mut x: usize = 0;
        let mut traversed: usize = 0;
        let mut i: usize = self.level;
        while i > 0
            invariant
                self.wf(),
                totally_ordered::<T>(),
                0 <= i <= self.level,
                traversed < self.npos(),
                x == self.order@[traversed as int],
                self.active(traversed as int) >= i,
                update@.len() == MAX_LEVEL,
                rank@.len() == MAX_LEVEL,
                forall|m: int|
                    1 <= m <= traversed ==> goes_before(#[trigger] self.elem(m), *target, inclusive),
                forall|l: int|
                    0 <= l < MAX_LEVEL ==> #[trigger] rank@[l] < self.npos() && update@[l]
                        == self.order@[rank@[l] as int],
                forall|l: int| self.level <= l < MAX_LEVEL ==> #[trigger] rank@[l] == 0,
                forall|l: int|
                    i <= l < self.level ==> {
                        &&& #[trigger] rank@[l] <= traversed
                        &&& self.active(rank@[l] as int) > l
                        &&& forall|m: int|
                            rank@[l] < m < self.npos() && goes_before(
                                self.elem(m),
                                *target,
                                inclusive,
                            ) ==> #[trigger] self.height(m) <= l
                    },
                i < self.level ==> rank@[i as int] == traversed,
            decreases i,
        {
            i -= 1;
            let mut next = self.step(x, i, target, inclusive, Ghost(traversed as int));
            while next.is_some()
                invariant
                    self.wf(),
                    totally_ordered::<T>(),
                    0 <= i < self.level,
                    traversed < self.npos(),
                    x == self.order@[traversed as int],
                    self.active(traversed as int) > i,
                    forall|m: int|
                        1 <= m <= traversed ==> goes_before(
                            #[trigger] self.elem(m),
                            *target,
                            inclusive,
                        ),
                    rank@.len() == MAX_LEVEL,
                    forall|l: int| i < l < self.level ==> #[trigger] rank@[l] <= traversed,
                    match next {
                        Some((n, span)) => {
                            &&& self.link(traversed as int, i as int).forward == Some(n)
                            &&& self.link(traversed as int, i as int).span == span
                            &&& goes_before(self.elem(traversed + span), *target, inclusive)
                        },
                        None => self.link(traversed as int, i as int).forward matches Some(n)
                            ==> !goes_before(
                            self.elem(traversed + self.link(traversed as int, i as int).span),
                            *target,
                            inclusive,
                        ),
                    },
                decreases self.npos() - traversed,
            {
                let (n, span) = next.unwrap();
                proof {
                    let k = traversed as int;
                    assert(self.link_ok(k, i as int));
                    assert forall|m: int| 1 <= m <= k + span implies goes_before(
                        #[trigger] self.elem(m),
                        *target,
                        inclusive,
                    ) by {
                        self.lemma_before_prefix(*target, inclusive, m, k + span);
                    }
                }
                traversed += span;
                x = n;
                next = self.step(x, i, target, inclusive, Ghost(traversed as int));
            }
            update[i] = x;
            rank[i] = traversed;
            proof {
                let k = traversed as int;
                let lv = self.link(k, i as int);
                assert(self.link_ok(k, i as int));
                assert forall|m: int|
                    k < m < self.npos() && goes_before(
                        self.elem(m),
                        *target,
                        inclusive,
                    ) implies #[trigger] self.height(m) <= i by {
                    if lv.forward is Some {
                        if m >= k + lv.span {
                            self.lemma_before_prefix(*target, inclusive, k + lv.span, m);
                        }
                    }
                }
            }
        }
        proof {
            let k = traversed as int;
            assert forall|m: int| k < m < self.npos() implies !goes_before(
                #[trigger] self.elem(m),
                *target,
                inclusive,
            ) by {
                let _ = self.node(m);
                if goes_before(self.elem(m), *target, inclusive) {
                    assert(self.height(m) <= 0);
                }
            }
            assert forall|i: int| 0 <= i < k implies goes_before(
                #[trigger] self@[i],
                *target,
                inclusive,
            ) by {
                assert(self@[i] == self.elem(i + 1));
            }
            assert forall|i: int| k <= i < self@.len() implies !goes_before(
                #[trigger] self@[i],
                *target,
                inclusive,
            ) by {
                assert(self@[i] == self.elem(i + 1));
            }
            lemma_count_before(self@, *target, inclusive, k);
        }
        (update, rank)
    }

    /// Walks from the header to the node of rank `rank`, top level first,
    /// and notes at each level where it turned down.
    pub(super) fn descend_to(&self, rank: usize) -> (path: (Vec<usize>, Vec<usize>))
        requires
            self.wf(),
            rank <= self.length,
        ensures
            self.path_struct(path.0@, path.1@),
            path.1@[0] == rank,
    {
        let mut update: Vec<usize> = Vec::new();
        let mut ranks: Vec<usize> = Vec::new();
        let mut j: usize = 0;
        while j < MAX_LEVEL
            invariant
                j <= MAX_LEVEL,
                update@.len() == j,
                ranks@.len() == j,
                forall|l: int| 0 <= l < j ==> #[trigger] ranks@[l] == 0,
                forall|l: int| 0 <= l < j ==> #[trigger] update@[l] == 0,
            decreases MAX_LEVEL - j,
        {
            update.push(0);
            ranks.push(0);
            j += 1;
        }
        let mut x: usize = 0;
        let mut traversed: usize = 0;
        let mut i: usize = self.level;
        while i > 0
            invariant
                self.wf(),
                rank <= self.length,
                0 <= i <= self.level,
                traversed <= rank,
                x == self.order@[traversed as int],
                self.active(traversed as int) >= i,
                update@.len() == MAX_LEVEL,
                ranks@.len() == MAX_LEVEL,
                forall|l: int|
                    0 <= l < MAX_LEVEL ==> #[trigger] ranks@[l] < self.npos() && update@[l]
                        == self.order@[ranks@[l] as int],
                forall|l: int| self.level <= l < MAX_LEVEL ==> #[trigger] ranks@[l] == 0,
                forall|l: int|
                    i <= l < self.level ==> {
                        &&& #[trigger] ranks@[l] <= rank
                        &&& self.active(ranks@[l] as int) > l
                        &&& self.low_between(ranks@[l] as int, rank + 1, l)
                    },
                i < self.level ==> ranks@[i as int] == traversed,
                i == 0 ==> traversed == rank,
            decreases i,
        {
            i -= 1;
            let mut next = self.nodes[x].level[i].forward;
            let mut span = self.nodes[x].level[i].span;
            proof {
                assert(self.link_ok(traversed as int, i as int));
            }
            while next.is_some() && span <= rank - traversed
                invariant
                    self.wf(),
                    rank <= self.length,
                    0 <= i < self.level,
                    traversed <= rank,
                    x == self.order@[traversed as int],
                    self.active(traversed as int) > i,
                    next == self.link(traversed as int, i as int).forward,
                    span == self.link(traversed as int, i as int).span,
                    self.link_ok(traversed as int, i as int),
                decreases rank - traversed,
            {
                traversed += span;
                x = next.unwrap();
                proof {
                    assert(self.link_ok(traversed as int, i as int));
                }
                next = self.nodes[x].level[i].forward;
                span = self.nodes[x].level[i].span;
            }
            update[i] = x;
            ranks[i] = traversed;
            proof {
                if i == 0 {
                    self.lemma_unit_span(traversed as int);
                }
                assert(self.low_between(traversed as int, rank + 1, i as int));
            }
        }
        (update, ranks)
    }

    /// What a descent for the elements less than `e` says of `first_tied`.
    pub(super) proof fn lemma_first_tied(self, e: T, update: Seq<usize>, rank: Seq<usize>)
        requires
            self.wf(),
            totally_ordered::<T>(),
            self.path_ok(e, false, update, rank),
            rank[0] == count_less(self@, e),
        ensures
            rank[0] < self.npos(),
            self.npos() == self@.len() + 1,
            update[0] == self.order@[rank[0] as int],
            first_tied(self@, e) == if rank[0] + 1 < self.npos() && !lt(
                e,
                self.elem(rank[0] + 1),
            ) {
                Some(rank[0] as int)
            } else {
                None
            },
            rank[0] + 1 < self.npos() ==> self@[rank[0] as int] == self.elem(rank[0] + 1),
    {
        assert(rank[0] < self.npos());
        if rank[0] + 1 < self.npos() {
            assert(self@[rank[0] as int] == self.elem(rank[0] + 1));
        }
    }

    /// The element of rank `rank`, counting from 1.
    pub fn at_rank(&self, rank: usize) -> (r: Option<&T>)
        requires
            self.wf(),
        ensures
            r == (if 1 <= rank <= self@.len() {
                Some(&self@[rank - 1])
            } else {
                None
            }),
    {
        if rank == 0 || rank > self.length {
            return None;
        }
        let x = self.locate(rank);
        proof {
            let _ = self.node(rank as int);
        }
        self.nodes[x].element.as_ref()
    }

    /// The rank, counting from 1, of the first element that is tied with
    /// `element`, if there is one.
    pub fn rank_of(&self, element: &T) -> (r: Option<usize>)
        requires
            self.wf(),
            totally_ordered::<T>(),
        ensures
            match r {
                Some(k) => first_tied(self@, *element) == Some(k - 1),
                None => first_tied(self@, *element) is None,
            },
    {
        let (update, rank) = self.descend(element, false);
        let p = rank[0];
        proof {
            self.lemma_first_tied(*element, update@, rank@);
            self.lemma_unit_span(p as int);
            assert(self.link(p as int, 0) == self.nodes@[update@[0] as int].level@[0]);
        }
        match self.nodes[update[0]].level[0].forward {
            Some(x) => {
                proof {
                    let _ = self.node(p + 1);
                }
                match &self.nodes[x].element {
                    Some(v) => {
                        if precedes(v, element, true) {
                            Some(p + 1)
                        } else {
                            None
                        }
                    },
                    None => None,
                }
            },
            None => None,
        }
    }

    /// The elements from the first that is not less than `lo` to the last
    /// that `hi` is not less than, in ascending order.
    pub fn range<'a>(&'a self, lo: &T, hi: &T) -> (r: Vec<&'a T>)
        requires
            self.wf(),
            totally_ordered::<T>(),
        ensures
            r@.len() == if count_less(self@, *lo) <= count_upto(self@, *hi) {
                count_upto(self@, *hi) - count_less(self@, *lo)
            } else {
                0
            },
            forall|i: int|
                0 <= i < r@.len() ==> *#[trigger] r@[i] == self@[count_less(self@, *lo) + i],
    {
        let (update, rank) = self.descend(lo, false);
        let ghost a = rank@[0] as int;
        let mut x: usize = update[0];
        let mut traversed: usize = rank[0];
        let mut out: Vec<&'a T> = Vec::new();
        proof {
            assert(rank@[0] < self.npos());
            assert(update@[0] == self.order@[rank@[0] as int]);
            assert(self.npos() == self@.len() + 1);
        }
        let mut next = self.step(x, 0, hi, true, Ghost(traversed as int));
        while next.is_some()
            invariant
                self.wf(),
                totally_ordered::<T>(),
                self.npos() == self@.len() + 1,
                a <= traversed < self.npos(),
                x == self.order@[traversed as int],
                out@.len() == traversed - a,
                forall|i: int| 0 <= i < out@.len() ==> *#[trigger] out@[i] == self@[a + i],
                forall|i: int| a <= i < traversed ==> goes_before(#[trigger] self@[i], *hi, true),
                match next {
                    Some((n, span)) => {
                        &&& self.link(traversed as int, 0).forward == Some(n)
                        &&& self.link(traversed as int, 0).span == span
                        &&& goes_before(self.elem(traversed + span), *hi, true)
                    },
                    None => self.link(traversed as int, 0).forward matches Some(n) ==> !goes_before(
                        self.elem(traversed + self.link(traversed as int, 0).span),
                        *hi,
                        true,
                    ),
                },
            decreases self.npos() - traversed,
        {
            let (n, span) = next.unwrap();
            proof {
                self.lemma_unit_span(traversed as int);
                let _ = self.node(traversed + 1);
                assert(self@[traversed as int] == self.elem(traversed + 1));
            }
            traversed += span;
            x = n;
            match &self.nodes[n].element {
                Some(v) => {
                    out.push(v);
                },
                None => {},
            }
            next = self.step(x, 0, hi, true, Ghost(traversed as int));
        }
        proof {
            let k = traversed as int;
            let b = count_upto(self@, *hi) as int;
            lemma_count_splits(self@, *hi, true);
            self.lemma_unit_span(k);
            if k < self@.len() {
                assert(self@[k] == self.elem(k + 1));
                assert(!goes_before(self@[k], *hi, true));
                if k < b {
                    assert(goes_before(self@[k], *hi, true));
                }
            }
            assert(k >= b);
            if k > a {
                assert(goes_before(self@[k - 1], *hi, true));
                if k - 1 >= b {
                    assert(!goes_before(self@[k - 1], *hi, true));
                }
            }
        }
        out
    }

    /// All elements, in ascending order: a walk along the forward links of
    /// level 0.
    pub fn elements<'a>(&'a self) -> (r: Vec<&'a T>)
        requires
            self.wf(),
        ensures
            lists(r@, self@),
    {
        let mut out: Vec<&'a T> = Vec::new();
        let mut traversed: usize = 0;
        let mut next = self.nodes[0].level[0].forward;
        while next.is_some()
            invariant
                self.wf(),
                traversed < self.npos(),
                self.npos() == self@.len() + 1,
                next == self.link(traversed as int, 0).forward,
                out@.len() == traversed,
                forall|i: int| 0 <= i < out@.len() ==> *#[trigger] out@[i] == self@[i],
            decreases self.npos() - traversed,
        {
            let n = next.unwrap();
            proof {
                self.lemma_unit_span(traversed as int);
                let _ = self.node(traversed + 1);
                assert(self@[traversed as int] == self.elem(traversed + 1));
            }
            traversed += 1;
            match &self.nodes[n].element {
                Some(v) => {
                    out.push(v);
                },
                None => {},
            }
            next = self.nodes[n].level[0].forward;
        }
        proof {
            self.lemma_unit_span(traversed as int);
        }
        out
    }

    /// All elements, in descending order: a walk along the backward links
    /// from the last node.
    pub fn elements_rev<'a>(&'a self) -> (r: Vec<&'a T>)
        requires
            self.wf(),
        ensures
            lists(r@, self@.reverse()),
    {
        let mut out: Vec<&'a T> = Vec::new();
        let mut x: usize = match self.tail {
            Some(t) => t,
            None => 0,
        };
        let ghost mut k: int = self.length as int;
        while x != 0
            invariant
                self.wf(),
                0 <= k < self.npos(),
                self.npos() == self@.len() + 1,
                x == self.order@[k],
                out@.len() == self@.len() - k,
                forall|i: int|
                    0 <= i < out@.len() ==> *#[trigger] out@[i] == self@[self@.len() - 1 - i],
            decreases k,
        {
            proof {
                let _ = self.node(k);
                assert(self@[k - 1] == self.elem(k));
            }
            match &self.nodes[x].element {
                Some(v) => {
                    out.push(v);
                },
                None => {},
            }
            x = match self.nodes[x].backward {
                Some(b) => b,
                None => 0,
            };
            proof {
                k = k - 1;
            }
        }
        proof {
            if k > 0 {
                assert(self.order@[0] != self.order@[k]);
            }
        }
        out
    }
}

} // verus!
