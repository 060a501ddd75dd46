//! Insertion: linking a new node in behind the path of a descent.

use crate::level::{random_level, MAX_LEVEL};
use crate::list::{SkipList, SkipListLevel, SkipListNode};
use crate::order::{
    count_upto, goes_before, lemma_count_bounds, lemma_order_basics, lt, sorted, totally_ordered,
};
use vstd::prelude::*;

verus! {

impl<T: PartialOrd> SkipList<T> {
    /// Level `l` of arena slot `n` once a node of height `h` in slot `id` has
    /// been linked in behind the path `update`, `rank`.
    pub closed spec fn pushed_link(
        pre: Self,
        h: int,
        id: usize,
        update: Seq<usize>,
        rank: Seq<usize>,
        n: int,
        l: int,
    ) -> SkipListLevel {
        let p = rank[0] as int;
        let old_link = pre.nodes@[update[l] as int].level@[l];
        if n == id {
            if l < pre.level {
                SkipListLevel {
                    forward: old_link.forward,
                    span: (old_link.span - (p - rank[l])) as usize,
                }
            } else {
                SkipListLevel { forward: None, span: (pre.length - p) as usize }
            }
        } else if n == update[l] && l < h {
            SkipListLevel { forward: Some(id), span: (p - rank[l] + 1) as usize }
        } else if n == update[l] && l < pre.level {
            SkipListLevel { forward: old_link.forward, span: (old_link.span + 1) as usize }
        } else {
            pre.nodes@[n].level@[l]
        }
    }

    /// Level `l` of arena slot `n` before the node in slot `id` is linked in:
    /// the header's new levels span the whole list, the new node's are blank.
    pub closed spec fn unlinked_link(
        pre: Self,
        h: int,
        id: usize,
        n: int,
        l: int,
    ) -> SkipListLevel {
        if n == id {
            SkipListLevel { forward: None, span: 0 }
        } else if n == 0 && pre.level <= l < h {
            SkipListLevel { forward: None, span: pre.length }
        } else {
            pre.nodes@[n].level@[l]
        }
    }

    /// The arena holds in slot `id` a node of height `h` that is not linked
    /// yet, and the links of levels below `done` are already those of
    /// `pushed_link`.
    pub closed spec fn push_stage(
        pre: Self,
        cur: Self,
        e: T,
        h: int,
        id: usize,
        update: Seq<usize>,
        rank: Seq<usize>,
        done: int,
    ) -> bool {
        &&& cur.order@ == pre.order@
        &&& cur.tail == pre.tail
        &&& cur.length == pre.length
        &&& cur.level == if h > pre.level {
            h as usize
        } else {
            pre.level
        }
        &&& pre.nodes@.len() <= cur.nodes@.len()
        &&& 0 < id < cur.nodes@.len()
        &&& forall|k: int| 0 <= k < pre.npos() ==> #[trigger] pre.order@[k] != id
        &&& cur.length + 2 + cur.free@.len() <= cur.nodes@.len()
        &&& forall|i: int|
            0 <= i < cur.free@.len() ==> {
                &&& 0 < #[trigger] cur.free@[i] < cur.nodes@.len()
                &&& cur.free@[i] != id
                &&& exists|j: int| 0 <= j < pre.free@.len() && pre.free@[j] == cur.free@[i]
            }
        &&& forall|i: int, j: int|
            0 <= i < j < cur.free@.len() ==> #[trigger] cur.free@[i] != #[trigger] cur.free@[j]
        &&& cur.nodes@[id as int].element == Some(e)
        &&& cur.nodes@[id as int].level@.len() == h
        &&& forall|n: int|
            0 <= n < pre.nodes@.len() && n != id ==> {
                &&& (#[trigger] cur.nodes@[n]).element == pre.nodes@[n].element
                &&& cur.nodes@[n].backward == pre.nodes@[n].backward
                &&& cur.nodes@[n].level@.len() == pre.nodes@[n].level@.len()
            }
        &&& forall|n: int, l: int|
            0 <= n < cur.nodes@.len() && 0 <= l < cur.nodes@[n].level@.len() && (n == id || n
                < pre.nodes@.len()) ==> #[trigger] cur.nodes@[n].level@[l] == if l < done {
                Self::pushed_link(pre, h, id, update, rank, n, l)
            } else {
                Self::unlinked_link(pre, h, id, n, l)
            }
    }

    /// Puts `node` into a slot that no linked node occupies, a released one
    /// if there is any, and returns the slot.
    fn push_node(&mut self, node: SkipListNode<T>) -> (id: usize)
        requires
            old(self).wf_core(),
        ensures
            final(self).tail == old(self).tail,
            final(self).length == old(self).length,
            final(self).level == old(self).level,
            final(self).order == old(self).order,
            old(self).nodes@.len() <= final(self).nodes@.len(),
            0 < id < final(self).nodes@.len(),
            final(self).nodes@[id as int] == node,
            forall|m: int|
                0 <= m < old(self).nodes@.len() && m != id ==> #[trigger] final(self).nodes@[m]
                    == old(self).nodes@[m],
            forall|k: int| 0 <= k < old(self).npos() ==> #[trigger] old(self).order@[k] != id,
            final(self).length + 2 + final(self).free@.len() <= final(self).nodes@.len(),
            forall|i: int|
                0 <= i < final(self).free@.len() ==> {
                    &&& #[trigger] final(self).free@[i] == old(self).free@[i]
                    &&& final(self).free@[i] != id
                },
            final(self).free@.len() <= old(self).free@.len(),
    {
        match self.free.pop() {
            Some(id) => {
                proof {
                    assert(old(self).free@[old(self).free@.len() - 1] == id);
                }
                self.nodes[id] = node;
                id
            },
            None => {
                self.nodes.push(node);
                self.nodes.len() - 1
            },
        }
    }

    /// `post` is `pre` with a node of height `h` in slot `id`, holding `e`,
    /// linked in just behind position `rank[0]`: `cur` has its forward links,
    /// and `post` has the order, the length, the tail and the backward links
    /// as well.
    pub closed spec fn pushed(
        pre: Self,
        cur: Self,
        post: Self,
        e: T,
        h: int,
        id: usize,
        update: Seq<usize>,
        rank: Seq<usize>,
    ) -> bool {
        &&& pre.wf()
        &&& totally_ordered::<T>()
        &&& 1 <= h <= MAX_LEVEL
        &&& pre.path_ok(e, true, update, rank)
        &&& Self::push_stage(pre, cur, e, h, id, update, rank, MAX_LEVEL as int)
        &&& post.free == cur.free
        &&& post.level == cur.level
        &&& post.length == pre.length + 1
        &&& post.order@ == pre.order@.insert(rank[0] + 1, id)
        &&& post.tail == if rank[0] == pre.length {
            Some(id)
        } else {
            pre.tail
        }
        &&& post.nodes@.len() == cur.nodes@.len()
        &&& forall|n: int|
            0 <= n < cur.nodes@.len() ==> {
                &&& (#[trigger] post.nodes@[n]).element == cur.nodes@[n].element
                &&& post.nodes@[n].level == cur.nodes@[n].level
                &&& post.nodes@[n].backward == if n == id {
                    Some(update[0])
                } else if rank[0] + 1 < pre.npos() && n == pre.order@[rank[0] + 1] {
                    Some(id)
                } else {
                    cur.nodes@[n].backward
                }
            }
    }

    /// How the positions, heights, elements and links of `post` read in
    /// terms of `pre`.
    proof fn lemma_pushed_nodes(
        pre: Self,
        cur: Self,
        post: Self,
        e: T,
        h: int,
        id: usize,
        update: Seq<usize>,
        rank: Seq<usize>,
    )
        requires
            Self::pushed(pre, cur, post, e, h, id, update, rank),
        ensures
            post.npos() == pre.npos() + 1,
            0 <= rank[0] < pre.npos(),
            post.order@[rank[0] + 1] == id,
            forall|k: int| 0 <= k <= rank[0] ==> #[trigger] post.order@[k] == pre.order@[k],
            forall|k: int|
                rank[0] + 1 < k < post.npos() ==> #[trigger] post.order@[k] == pre.order@[k - 1],
            post.height(rank[0] + 1) == h,
            post.elem(rank[0] + 1) == e,
            forall|k: int|
                0 <= k <= rank[0] ==> #[trigger] post.height(k) == pre.height(k) && post.elem(k)
                    == pre.elem(k),
            forall|k: int|
                rank[0] + 1 < k < post.npos() ==> #[trigger] post.height(k) == pre.height(k - 1)
                    && post.elem(k) == pre.elem(k - 1),
            forall|k: int, l: int|
                0 <= k <= rank[0] && 0 <= l < pre.height(k) ==> #[trigger] post.link(k, l)
                    == Self::pushed_link(pre, h, id, update, rank, pre.order@[k] as int, l),
            forall|k: int, l: int|
                rank[0] + 1 < k < post.npos() && 0 <= l < pre.height(k - 1) ==> #[trigger] post.link(
                    k,
                    l,
                ) == pre.link(k - 1, l),
            forall|l: int|
                0 <= l < h ==> #[trigger] post.link(rank[0] + 1, l) == Self::pushed_link(
                    pre,
                    h,
                    id,
                    update,
                    rank,
                    id as int,
                    l,
                ),
    {
        let q = rank[0] + 1;
        assert(rank[0] < pre.npos());
        assert forall|k: int| 0 <= k < pre.npos() implies (#[trigger] pre.order@[k]) != id
            && pre.order@[k] < pre.nodes@.len() by {}
        assert forall|k: int, l: int|
            rank[0] + 1 < k < post.npos() && 0 <= l < pre.height(k - 1) implies #[trigger] post.link(
            k,
            l,
        ) == pre.link(k - 1, l) by {
            let n = pre.order@[k - 1] as int;
            assert(post.order@[k] == n);
            assert(post.nodes@[n].level == cur.nodes@[n].level);
            assert(cur.nodes@[n].level@[l] == Self::pushed_link(pre, h, id, update, rank, n, l));
            let _ = pre.node(k - 1);
            if n == update[l] {
                assert(update[l] == pre.order@[rank[l] as int]);
                assert(rank[l] <= rank[0]) by {
                    if l < pre.level {
                    } else {
                        assert(rank[l] == 0);
                    }
                }
                assert(false);
            }
        }
        assert forall|k: int, l: int|
            0 <= k <= rank[0] && 0 <= l < pre.height(k) implies #[trigger] post.link(k, l)
            == Self::pushed_link(pre, h, id, update, rank, pre.order@[k] as int, l) by {
            let n = pre.order@[k] as int;
            assert(post.order@[k] == n);
            assert(post.nodes@[n].level == cur.nodes@[n].level);
        }
        assert forall|l: int| 0 <= l < h implies #[trigger] post.link(rank[0] + 1, l)
            == Self::pushed_link(pre, h, id, update, rank, id as int, l) by {
            assert(post.nodes@[id as int].level == cur.nodes@[id as int].level);
        }
        assert forall|k: int| 0 <= k <= rank[0] implies #[trigger] post.height(k) == pre.height(k)
            && post.elem(k) == pre.elem(k) by {
            let n = pre.order@[k] as int;
            assert(post.order@[k] == n);
            assert(post.nodes@[n].level == cur.nodes@[n].level);
        }
        assert forall|k: int| rank[0] + 1 < k < post.npos() implies #[trigger] post.height(k)
            == pre.height(k - 1) && post.elem(k) == pre.elem(k - 1) by {
            let n = pre.order@[k - 1] as int;
            assert(post.order@[k] == n);
            assert(post.nodes@[n].level == cur.nodes@[n].level);
        }
        assert(post.nodes@[id as int].level == cur.nodes@[id as int].level);
    }

    /// The links of the new node are right.
    proof fn lemma_pushed_link_new(
        pre: Self,
        cur: Self,
        post: Self,
        e: T,
        h: int,
        id: usize,
        update: Seq<usize>,
        rank: Seq<usize>,
        k: int,
        l: int,
    )
        requires
            Self::pushed(pre, cur, post, e, h, id, update, rank),
            k == rank[0] + 1,
            0 <= l < h,
        ensures
            post.link_ok(k, l),
    {
        Self::lemma_pushed_nodes(pre, cur, post, e, h, id, update, rank);
        let p = rank[0] as int;
        let q = p + 1;
        assert(pre.npos() == pre.length + 1);
        if l < pre.level {
            pre.lemma_crossing(update, rank, l);
            let u = rank[l] as int;
            let lv = pre.link(u, l);
            assert(pre.low_between(u, p + 1, l));
            match lv.forward {
                Some(n) => {
                    let t = u + lv.span;
                    assert(post.order@[t + 1] == pre.order@[t]);
                    assert(post.height(t + 1) == pre.height(t));
                    assert forall|m: int| q < m < t + 1 implies #[trigger] post.height(m) <= l by {
                        assert(pre.height(m - 1) <= l);
                    }
                },
                None => {
                    assert forall|m: int| q < m < post.npos() implies #[trigger] post.height(m)
                        <= l by {
                        assert(pre.height(m - 1) <= l);
                    }
                },
            }
        } else {
            assert forall|m: int| q < m < post.npos() implies #[trigger] post.height(m) <= l by {
                let _ = pre.node(m - 1);
                assert(pre.height(m - 1) <= pre.level);
            }
        }
    }

    /// The links of the nodes behind the new node are right.
    proof fn lemma_pushed_link_after(
        pre: Self,
        cur: Self,
        post: Self,
        e: T,
        h: int,
        id: usize,
        update: Seq<usize>,
        rank: Seq<usize>,
        k: int,
        l: int,
    )
        requires
            Self::pushed(pre, cur, post, e, h, id, update, rank),
            rank[0] + 1 < k < post.npos(),
            0 <= l < post.active(k),
        ensures
            post.link_ok(k, l),
    {
        Self::lemma_pushed_nodes(pre, cur, post, e, h, id, update, rank);
        let _ = pre.node(k - 1);
        assert(pre.link_ok(k - 1, l));
        let lv = pre.link(k - 1, l);
        match lv.forward {
            Some(n) => {
                let t = k - 1 + lv.span;
                assert(post.order@[t + 1] == pre.order@[t]);
                assert(post.height(t + 1) == pre.height(t));
                assert forall|m: int| k < m < t + 1 implies #[trigger] post.height(m) <= l by {
                    assert(pre.height(m - 1) <= l);
                }
            },
            None => {
                assert forall|m: int| k < m < post.npos() implies #[trigger] post.height(m) <= l by {
                    assert(pre.height(m - 1) <= l);
                }
            },
        }
    }

    /// The links out of the nodes where the descent turned down are right.
    proof fn lemma_pushed_link_turn(
        pre: Self,
        cur: Self,
        post: Self,
        e: T,
        h: int,
        id: usize,
        update: Seq<usize>,
        rank: Seq<usize>,
        k: int,
        l: int,
    )
        requires
            Self::pushed(pre, cur, post, e, h, id, update, rank),
            0 <= l < pre.level,
            k == rank[l],
        ensures
            post.link_ok(k, l),
    {
        Self::lemma_pushed_nodes(pre, cur, post, e, h, id, update, rank);
        let p = rank[0] as int;
        let q = p + 1;
        pre.lemma_crossing(update, rank, l);
        assert(update[l] == pre.order@[rank[l] as int]);
        if k > 0 {
            let _ = pre.node(k);
        }
        assert(l < pre.height(k));
        assert(post.link(k, l) == Self::pushed_link(pre, h, id, update, rank, pre.order@[k] as int, l));
        let lv = pre.link(k, l);
        assert(pre.low_between(k, p + 1, l));
        if l < h {
            assert forall|m: int| k < m < q implies #[trigger] post.height(m) <= l by {
                assert(pre.height(m) <= l);
            }
        } else {
            match lv.forward {
                Some(nx) => {
                    let t = k + lv.span;
                    assert(post.order@[t + 1] == pre.order@[t]);
                    assert(post.height(t + 1) == pre.height(t));
                    assert forall|m: int| k < m < t + 1 implies #[trigger] post.height(m) <= l by {
                        if m < q {
                            assert(pre.height(m) <= l);
                        } else if m > q {
                            assert(pre.height(m - 1) <= l);
                        }
                    }
                },
                None => {
                    assert forall|m: int| k < m < post.npos() implies #[trigger] post.height(m)
                        <= l by {
                        if m < q {
                            assert(pre.height(m) <= l);
                        } else if m > q {
                            assert(pre.height(m - 1) <= l);
                        }
                    }
                },
            }
        }
    }

    /// The links that end before the new node are right.
    proof fn lemma_pushed_link_before(
        pre: Self,
        cur: Self,
        post: Self,
        e: T,
        h: int,
        id: usize,
        update: Seq<usize>,
        rank: Seq<usize>,
        k: int,
        l: int,
    )
        requires
            Self::pushed(pre, cur, post, e, h, id, update, rank),
            0 <= k <= rank[0],
            0 <= l < pre.active(k),
            k != rank[l],
        ensures
            post.link_ok(k, l),
    {
        Self::lemma_pushed_nodes(pre, cur, post, e, h, id, update, rank);
        if k > 0 {
            let _ = pre.node(k);
        }
        assert(l < pre.level);
        assert(l < pre.height(k));
        pre.lemma_turn_unique(update, rank, k, l);
        assert(update[l] == pre.order@[rank[l] as int]);
        assert(pre.order@[k] != update[l]);
        assert(post.link(k, l) == Self::pushed_link(pre, h, id, update, rank, pre.order@[k] as int, l));
        let lv = pre.link(k, l);
        let t = k + lv.span;
        assert(rank[l] <= rank[0]);
        assert(post.order@[t] == pre.order@[t]);
        assert(post.height(t) == pre.height(t));
        assert forall|m: int| k < m < t implies #[trigger] post.height(m) <= l by {
            assert(pre.height(m) <= l);
        }
    }

    /// The header's links of the levels that the new node brought into use
    /// are right.
    proof fn lemma_pushed_link_top(
        pre: Self,
        cur: Self,
        post: Self,
        e: T,
        h: int,
        id: usize,
        update: Seq<usize>,
        rank: Seq<usize>,
        k: int,
        l: int,
    )
        requires
            Self::pushed(pre, cur, post, e, h, id, update, rank),
            k == 0,
            pre.level <= l < h,
        ensures
            post.link_ok(k, l),
    {
        Self::lemma_pushed_nodes(pre, cur, post, e, h, id, update, rank);
        let q = rank[0] + 1;
        assert(rank[l] == 0);
        assert(update[l] == pre.order@[rank[l] as int]);
        assert(pre.height(0) == MAX_LEVEL);
        assert(post.link(k, l) == Self::pushed_link(pre, h, id, update, rank, pre.order@[k] as int, l));
        assert forall|m: int| 0 < m < q implies #[trigger] post.height(m) <= l by {
            let _ = pre.node(m);
            assert(pre.height(m) <= pre.level);
        }
    }

    /// Every link of `post` is right.
    proof fn lemma_pushed_link_ok(
        pre: Self,
        cur: Self,
        post: Self,
        e: T,
        h: int,
        id: usize,
        update: Seq<usize>,
        rank: Seq<usize>,
        k: int,
        l: int,
    )
        requires
            Self::pushed(pre, cur, post, e, h, id, update, rank),
            0 <= k < post.npos(),
            0 <= l < post.active(k),
        ensures
            post.link_ok(k, l),
    {
        Self::lemma_pushed_nodes(pre, cur, post, e, h, id, update, rank);
        let q = rank[0] + 1;
        if k == q {
            Self::lemma_pushed_link_new(pre, cur, post, e, h, id, update, rank, k, l);
        } else if k > q {
            Self::lemma_pushed_link_after(pre, cur, post, e, h, id, update, rank, k, l);
        } else if l >= pre.level {
            if k > 0 {
                let _ = pre.node(k);
            }
            Self::lemma_pushed_link_top(pre, cur, post, e, h, id, update, rank, k, l);
        } else if k == rank[l] {
            Self::lemma_pushed_link_turn(pre, cur, post, e, h, id, update, rank, k, l);
        } else {
            if k > 0 {
                let _ = pre.node(k);
            }
            Self::lemma_pushed_link_before(pre, cur, post, e, h, id, update, rank, k, l);
        }
    }

    /// Once every level is linked and the order, the length, the tail and
    /// the backward links have followed, the list is well formed again and
    /// holds the new element at the index where the descent ended.
    proof fn lemma_pushed(
        pre: Self,
        cur: Self,
        post: Self,
        e: T,
        h: int,
        id: usize,
        update: Seq<usize>,
        rank: Seq<usize>,
    )
        requires
            Self::pushed(pre, cur, post, e, h, id, update, rank),
        ensures
            post.wf(),
            post@ == pre@.insert(rank[0] as int, e),
            post.heights() == pre.heights().insert(rank[0] as int, h),
            post.slots() == pre.slots().insert(rank[0] as int, id),
            !pre.slots().contains(id),
    {
        assert(post.slots() =~= pre.slots().insert(rank[0] as int, id));
        assert(!pre.slots().contains(id)) by {
            if pre.slots().contains(id) {
                let i = choose|i: int| 0 <= i < pre.slots().len() && pre.slots()[i] == id;
                assert(pre.order@[i + 1] != id);
            }
        }
        Self::lemma_pushed_nodes(pre, cur, post, e, h, id, update, rank);
        let p = rank[0] as int;
        let q = p + 1;
        assert(pre.npos() == pre.length + 1);
        assert(post.heights() =~= pre.heights().insert(p, h)) by {
            assert forall|i: int| 0 <= i < post.heights().len() implies post.heights()[i]
                == pre.heights().insert(p, h)[i] by {
                assert(post.heights()[i] == post.height(i + 1));
                if i < p {
                    assert(pre.heights()[i] == pre.height(i + 1));
                } else if i > p {
                    assert(pre.heights()[i - 1] == pre.height(i));
                }
            }
        }
        assert forall|k: int, l: int|
            0 <= k < post.npos() && 0 <= l < post.active(k) implies #[trigger] post.link_ok(
            k,
            l,
        ) by {
            Self::lemma_pushed_link_ok(pre, cur, post, e, h, id, update, rank, k, l);
        }
        let s0 = pre@;
        let s1 = post@;
        assert(s1 =~= s0.insert(p, e)) by {
            assert forall|i: int| 0 <= i < s1.len() implies s1[i] == s0.insert(p, e)[i] by {
                assert(s1[i] == post.elem(i + 1));
                if i < p {
                    assert(s0[i] == pre.elem(i + 1));
                } else if i > p {
                    assert(s0[i - 1] == pre.elem(i));
                }
            }
        }
        assert(sorted(s1)) by {
            assert forall|i: int, j: int| 0 <= i < j < s1.len() implies !lt(
                #[trigger] s1[j],
                #[trigger] s1[i],
            ) by {
                let oi = if i < p {
                    i
                } else {
                    i - 1
                };
                let oj = if j < p {
                    j
                } else {
                    j - 1
                };
                if i != p {
                    assert(s1[i] == s0[oi]);
                    assert(s0[oi] == pre.elem(oi + 1));
                }
                if j != p {
                    assert(s1[j] == s0[oj]);
                    assert(s0[oj] == pre.elem(oj + 1));
                }
                if i == p {
                    assert(!goes_before(pre.elem(oj + 1), e, true));
                    lemma_order_basics(e, s1[j], e);
                } else if j == p {
                    assert(goes_before(pre.elem(oi + 1), e, true));
                } else {
                    assert(!lt(s0[oj], s0[oi]));
                }
            }
        }
        assert forall|k: int| 1 <= k < post.npos() implies {
            &&& (#[trigger] post.node(k)).element is Some
            &&& 1 <= post.height(k) <= post.level
            &&& post.node(k).backward == Some(post.order@[k - 1])
        } by {
            if k < q {
                let _ = pre.node(k);
                let n = pre.order@[k] as int;
                assert(post.order@[k] == n);
                assert(post.nodes@[n].backward == cur.nodes@[n].backward) by {
                    if q < pre.npos() {
                        assert(pre.order@[k] != pre.order@[q]);
                    }
                }
                assert(post.order@[k - 1] == pre.order@[k - 1]);
            } else if k == q {
                assert(update[0] == pre.order@[rank[0] as int]);
                assert(post.order@[k - 1] == pre.order@[p]);
            } else {
                let _ = pre.node(k - 1);
                let n = pre.order@[k - 1] as int;
                assert(post.order@[k] == n);
                if k == q + 1 {
                    assert(post.order@[k - 1] == id);
                } else {
                    assert(pre.order@[k - 1] != pre.order@[q]);
                    assert(post.order@[k - 1] == pre.order@[k - 2]);
                }
            }
        }
        assert forall|i: int, j: int| 0 <= i < j < post.npos() implies #[trigger] post.order@[i]
            != #[trigger] post.order@[j] by {
            let oi = if i < q {
                i
            } else {
                i - 1
            };
            let oj = if j < q {
                j
            } else {
                j - 1
            };
            if i != q && j != q {
                assert(pre.order@[oi] != pre.order@[oj]);
            } else if i == q {
                assert(pre.order@[oj] != id);
            } else {
                assert(pre.order@[oi] != id);
            }
        }
        assert forall|k: int| 0 <= k < post.npos() implies #[trigger] post.order@[k]
            < post.nodes@.len() by {
            if k < q {
                assert(pre.order@[k] < pre.nodes@.len());
            } else if k > q {
                assert(pre.order@[k - 1] < pre.nodes@.len());
            }
        }
        assert forall|i: int, k: int|
            0 <= i < post.free@.len() && 0 <= k < post.npos() implies #[trigger] post.free@[i]
            != #[trigger] post.order@[k] by {
            let j = choose|j: int| 0 <= j < pre.free@.len() && pre.free@[j] == cur.free@[i];
            if k < q {
                assert(pre.free@[j] != pre.order@[k]);
            } else if k > q {
                assert(pre.free@[j] != pre.order@[k - 1]);
            }
        }
        assert forall|l: int| post.level <= l < MAX_LEVEL implies (
        #[trigger] post.nodes@[0].level@[l]).forward is None by {
            assert(post.nodes@[0].level == cur.nodes@[0].level);
            assert(cur.nodes@[0].level@[l] == Self::pushed_link(pre, h, id, update, rank, 0, l));
            assert(pre.nodes@[0].level@[l].forward is None);
        }
        assert(post.nodes@[0].level == cur.nodes@[0].level);
        assert(post.nodes@[0].backward is None) by {
            if q < pre.npos() {
                assert(pre.order@[0] != pre.order@[q]);
            }
        }
        assert(post.tail == if post.length == 0 {
            None
        } else {
            Some(post.order@[post.length as int])
        }) by {
            if rank[0] != pre.length {
                assert(post.order@[post.length as int] == pre.order@[pre.length as int]);
            }
        }
        assert(post.wf_core());
        if post.level > 1 {
            let l = post.level - 1;
            assert(cur.nodes@[0].level@[l] == Self::pushed_link(pre, h, id, update, rank, 0, l));
            assert(update[l] == pre.order@[rank[l] as int]);
            if l >= pre.level {
                assert(rank[l] == 0);
            } else if l < h && update[l] != 0 {
            }
        }
    }

    /// Inserts `element` as a node of height `level`, behind every element
    /// that it is not less than: among tied elements the newest comes last.
    /// The node gets a slot that no linked node has; no other node changes
    /// its height or its slot.
    pub fn push_with_level(&mut self, element: T, level: usize)
        requires
            old(self).wf(),
            totally_ordered::<T>(),
            1 <= level <= MAX_LEVEL,
        ensures
            final(self).wf(),
            final(self)@ == old(self)@.insert(count_upto(old(self)@, element) as int, element),
            final(self).heights() == old(self).heights().insert(
                count_upto(old(self)@, element) as int,
                level as int,
            ),
            final(self).slots().remove(count_upto(old(self)@, element) as int) == old(self).slots(),
            !old(self).slots().contains(
                final(self).slots()[count_upto(old(self)@, element) as int],
            ),
    {
        let (update, rank) = self.descend(&element, true);
        let ghost pre = *self;
        let ghost e = element;
        let ghost h = level as int;
        let p = rank[0];
        let node = SkipListNode::new(level, Some(element));
        let id = self.push_node(node);
        let ghost mid = *self;
        proof {
            assert(p < pre.npos());
            assert(pre.npos() == pre.length + 1);
        }
        let mut i: usize = self.level;
        while i < level
            invariant
                1 <= level <= MAX_LEVEL,
                pre.level <= i,
                i <= level || i == pre.level,
                self.level == pre.level,
                self.length == pre.length,
                mid.nodes@.len() > 0,
                mid.nodes@[0].level@.len() == MAX_LEVEL,
                self.free == mid.free,
                self.tail == mid.tail,
                self.order == mid.order,
                self.nodes@.len() == mid.nodes@.len(),
                forall|m: int|
                    0 <= m < mid.nodes@.len() ==> {
                        &&& (#[trigger] self.nodes@[m]).element == mid.nodes@[m].element
                        &&& self.nodes@[m].backward == mid.nodes@[m].backward
                        &&& self.nodes@[m].level@.len() == mid.nodes@[m].level@.len()
                    },
                forall|m: int, j: int|
                    0 <= m < mid.nodes@.len() && 0 <= j < mid.nodes@[m].level@.len()
                        ==> #[trigger] self.nodes@[m].level@[j] == if m == 0 && pre.level <= j < i {
                        SkipListLevel { forward: None, span: pre.length }
                    } else {
                        mid.nodes@[m].level@[j]
                    },
            decreases level - i,
        {
            self.set_link(0, i, None, self.length);
            i += 1;
        }
        if level > self.level {
            self.level = level;
        }
        assert(Self::push_stage(pre, *self, e, h, id, update@, rank@, 0));
        i = 0;
        while i < level
            invariant
                pre.wf(),
                1 <= level <= MAX_LEVEL,
                h == level,
                p == rank@[0],
                0 <= i <= level,
                pre.path_ok(e, true, update@, rank@),
                Self::push_stage(pre, *self, e, h, id, update@, rank@, i as int),
            decreases level - i,
        {
            let u = update[i];
            proof {
                if i < pre.level {
                    pre.lemma_crossing(update@, rank@, i as int);
                }
            }
            let forward = self.nodes[u].level[i].forward;
            let span = self.nodes[u].level[i].span;
            let steps = p - rank[i];
            proof {
                assert(p < pre.npos());
                assert(pre.npos() == pre.length + 1);
                assert(self.length + 2 <= self.nodes.len());
            }
            self.set_link(id, i, forward, span - steps);
            self.set_link(u, i, Some(id), steps + 1);
            i += 1;
        }
        while i < self.level
            invariant
                pre.wf(),
                1 <= level <= MAX_LEVEL,
                h == level,
                p == rank@[0],
                level <= i,
                i <= self.level,
                pre.path_ok(e, true, update@, rank@),
                Self::push_stage(pre, *self, e, h, id, update@, rank@, i as int),
            decreases self.level - i,
        {
            let u = update[i];
            proof {
                pre.lemma_crossing(update@, rank@, i as int);
            }
            let forward = self.nodes[u].level[i].forward;
            let span = self.nodes[u].level[i].span;
            proof {
                assert(pre.npos() == pre.length + 1);
                assert(self.length + 2 <= self.nodes.len());
            }
            self.set_link(u, i, forward, span + 1);
            i += 1;
        }
        assert(Self::push_stage(pre, *self, e, h, id, update@, rank@, MAX_LEVEL as int));
        let ghost cur = *self;
        proof {
            pre.lemma_crossing(update@, rank@, 0);
            pre.lemma_unit_span(p as int);
            assert(pre.npos() == pre.length + 1);
            assert(self.length + 2 <= self.nodes.len());
            assert(cur.nodes@[id as int].level@[0] == Self::pushed_link(
                pre,
                h,
                id,
                update@,
                rank@,
                id as int,
                0,
            ));
        }
        self.set_backward(id, Some(update[0]));
        match self.nodes[id].level[0].forward {
            Some(next) => {
                self.set_backward(next, Some(id));
            },
            None => {
                self.tail = Some(id);
            },
        }
        self.length += 1;
        proof {
            self.order@ = pre.order@.insert(p + 1, id);
            assert(Self::pushed(pre, cur, *self, e, h, id, update@, rank@));
            Self::lemma_pushed(pre, cur, *self, e, h, id, update@, rank@);
            assert(pre.slots().insert(p as int, id).remove(p as int) =~= pre.slots());
        }
    }

    /// Inserts `element` as a node of random height, behind every element
    /// that it is not less than: among tied elements the newest comes last.
    /// The node gets a slot that no linked node has; no other node changes
    /// its height or its slot.
    pub fn push(&mut self, element: T)
        requires
            old(self).wf(),
            totally_ordered::<T>(),
        ensures
            final(self).wf(),
            final(self)@ == old(self)@.insert(count_upto(old(self)@, element) as int, element),
            1 <= final(self).heights()[count_upto(old(self)@, element) as int] <= MAX_LEVEL,
            final(self).heights().remove(count_upto(old(self)@, element) as int) == old(
                self,
            ).heights(),
            final(self).slots().remove(count_upto(old(self)@, element) as int) == old(self).slots(),
            !old(self).slots().contains(
                final(self).slots()[count_upto(old(self)@, element) as int],
            ),
    {
        let level = random_level();
        proof {
            self.lemma_positions();
            lemma_count_bounds(self@, element);
        }
        self.push_with_level(element, level);
        proof {
            let p = count_upto(old(self)@, element) as int;
            assert(old(self).heights().insert(p, level as int).remove(p) =~= old(self).heights());
        }
    }
}

} // verus!
