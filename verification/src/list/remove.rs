//! Removal: unlinking a node from behind the path that leads to it.

use crate::level::MAX_LEVEL;
use crate::list::{SkipList, SkipListError, SkipListLevel, SkipListNode};
use crate::order::{first_tied, lt, precedes, sorted, totally_ordered};
use vstd::prelude::*;

verus! {

impl<T: PartialOrd> SkipList<T> {
    /// Level `l` of arena slot `n` once the node in slot `x` has been
    /// unlinked from behind the path `update`.
    pub closed spec fn removed_link(
        pre: Self,
        x: usize,
        update: Seq<usize>,
        n: int,
        l: int,
    ) -> SkipListLevel {
        let old_link = pre.nodes@[n].level@[l];
        let gone = pre.nodes@[x as int].level@[l];
        if n == update[l] && l < pre.level {
            if old_link.forward == Some(x) {
                SkipListLevel {
                    forward: gone.forward,
                    span: (old_link.span + gone.span - 1) as usize,
                }
            } else {
                SkipListLevel { forward: old_link.forward, span: (old_link.span - 1) as usize }
            }
        } else {
            old_link
        }
    }

    /// Nothing but forward links has changed since `pre`, and those of
    /// levels below `done` are already those of `removed_link`.
    pub closed spec fn remove_stage(
        pre: Self,
        cur: Self,
        x: usize,
        update: Seq<usize>,
        done: int,
    ) -> bool {
        &&& cur.order@ == pre.order@
        &&& cur.tail == pre.tail
        &&& cur.length == pre.length
        &&& cur.level == pre.level
        &&& cur.free == pre.free
        &&& cur.nodes@.len() == pre.nodes@.len()
        &&& forall|n: int|
            0 <= n < pre.nodes@.len() ==> {
                &&& (#[trigger] cur.nodes@[n]).element == pre.nodes@[n].element
                &&& cur.nodes@[n].backward == pre.nodes@[n].backward
                &&& cur.nodes@[n].level@.len() == pre.nodes@[n].level@.len()
            }
        &&& forall|n: int, l: int|
            0 <= n < cur.nodes@.len() && 0 <= l < cur.nodes@[n].level@.len()
                ==> #[trigger] cur.nodes@[n].level@[l] == if l < done {
                Self::removed_link(pre, x, update, n, l)
            } else {
                pre.nodes@[n].level@[l]
            }
    }

    /// `post` is `pre` without the node at position `rank[0] + 1`, which
    /// sits in slot `x`: `cur` has the forward links, and `post` has the
    /// order, the length, the tail, the backward link and the released slot
    /// as well. The level is still that of `pre`.
    pub closed spec fn removed(
        pre: Self,
        cur: Self,
        post: Self,
        x: usize,
        update: Seq<usize>,
        rank: Seq<usize>,
    ) -> bool {
        &&& pre.wf()
        &&& pre.path_struct(update, rank)
        &&& rank[0] + 1 < pre.npos()
        &&& x == pre.order@[rank[0] + 1]
        &&& Self::remove_stage(pre, cur, x, update, MAX_LEVEL as int)
        &&& post.free@ == pre.free@.push(x)
        &&& post.level == pre.level
        &&& post.length == pre.length - 1
        &&& post.order@ == pre.order@.remove(rank[0] + 1)
        &&& post.tail == if rank[0] + 2 == pre.npos() {
            if update[0] == 0 {
                None
            } else {
                Some(update[0])
            }
        } else {
            pre.tail
        }
        &&& post.nodes@.len() == cur.nodes@.len()
        &&& forall|n: int|
            0 <= n < cur.nodes@.len() && n != x ==> {
                &&& (#[trigger] post.nodes@[n]).element == cur.nodes@[n].element
                &&& post.nodes@[n].level == cur.nodes@[n].level
                &&& post.nodes@[n].backward == if rank[0] + 2 < pre.npos() && n == pre.order@[rank[0]
                    + 2] {
                    Some(update[0])
                } else {
                    cur.nodes@[n].backward
                }
            }
    }

    /// Takes the element out of slot `x` and leaves a blank node there.
    fn release(&mut self, x: usize) -> (element: T)
        requires
            x < old(self).nodes@.len(),
            old(self).nodes@[x as int].element is Some,
        ensures
            Some(element) == old(self).nodes@[x as int].element,
            final(self).free == old(self).free,
            final(self).tail == old(self).tail,
            final(self).length == old(self).length,
            final(self).level == old(self).level,
            final(self).order == old(self).order,
            final(self).nodes@.len() == old(self).nodes@.len(),
            forall|m: int|
                0 <= m < old(self).nodes@.len() && m != x ==> #[trigger] final(self).nodes@[m]
                    == old(self).nodes@[m],
    {
        let mut node = SkipListNode::new(0, None);
        core::mem::swap(&mut self.nodes[x], &mut node);
        node.element.unwrap()
    }

    /// How the positions, heights, elements and links of `post` read in
    /// terms of `pre`.
    proof fn lemma_removed_nodes(
        pre: Self,
        cur: Self,
        post: Self,
        x: usize,
        update: Seq<usize>,
        rank: Seq<usize>,
    )
        requires
            Self::removed(pre, cur, post, x, update, rank),
        ensures
            post.npos() == pre.npos() - 1,
            0 <= rank[0] < post.npos(),
            pre.height(rank[0] + 1) >= 1,
            forall|k: int| 0 <= k <= rank[0] ==> #[trigger] post.order@[k] == pre.order@[k],
            forall|k: int|
                rank[0] < k < post.npos() ==> #[trigger] post.order@[k] == pre.order@[k + 1],
            forall|k: int|
                0 <= k <= rank[0] ==> #[trigger] post.height(k) == pre.height(k) && post.elem(k)
                    == pre.elem(k),
            forall|k: int|
                rank[0] < k < post.npos() ==> #[trigger] post.height(k) == pre.height(k + 1)
                    && post.elem(k) == pre.elem(k + 1),
            forall|k: int, l: int|
                0 <= k <= rank[0] && 0 <= l < pre.height(k) ==> #[trigger] post.link(k, l)
                    == Self::removed_link(pre, x, update, pre.order@[k] as int, l),
            forall|k: int, l: int|
                rank[0] < k < post.npos() && 0 <= l < pre.height(k + 1) ==> #[trigger] post.link(
                    k,
                    l,
                ) == pre.link(k + 1, l),
    {
        let q = rank[0] + 1;
        let _ = pre.node(q);
        assert forall|k: int| 0 <= k < pre.npos() && k != q implies (#[trigger] pre.order@[k]) != x
            && pre.order@[k] < pre.nodes@.len() by {}
        assert forall|k: int, l: int|
            rank[0] < k < post.npos() && 0 <= l < pre.height(k + 1) implies #[trigger] post.link(
            k,
            l,
        ) == pre.link(k + 1, l) by {
            let n = pre.order@[k + 1] as int;
            assert(post.order@[k] == n);
            assert(post.nodes@[n].level == cur.nodes@[n].level);
            assert(cur.nodes@[n].level@[l] == Self::removed_link(pre, x, update, n, l));
            let _ = pre.node(k + 1);
            if n == update[l] && l < pre.level {
                assert(update[l] == pre.order@[rank[l] as int]);
                assert(rank[l] <= rank[0]);
                assert(false);
            }
        }
        assert forall|k: int, l: int|
            0 <= k <= rank[0] && 0 <= l < pre.height(k) implies #[trigger] post.link(k, l)
            == Self::removed_link(pre, x, update, pre.order@[k] as int, l) by {
            let n = pre.order@[k] as int;
            assert(post.order@[k] == n);
            assert(post.nodes@[n].level == cur.nodes@[n].level);
        }
        assert forall|k: int| 0 <= k <= rank[0] implies #[trigger] post.height(k) == pre.height(k)
            && post.elem(k) == pre.elem(k) by {
            let n = pre.order@[k] as int;
            assert(post.order@[k] == n);
            assert(post.nodes@[n].level == cur.nodes@[n].level);
        }
        assert forall|k: int| rank[0] < k < post.npos() implies #[trigger] post.height(k)
            == pre.height(k + 1) && post.elem(k) == pre.elem(k + 1) by {
            let n = pre.order@[k + 1] as int;
            assert(post.order@[k] == n);
            assert(post.nodes@[n].level == cur.nodes@[n].level);
        }
    }

    /// The links of the nodes behind the removed node are right.
    proof fn lemma_removed_link_after(
        pre: Self,
        cur: Self,
        post: Self,
        x: usize,
        update: Seq<usize>,
        rank: Seq<usize>,
        k: int,
        l: int,
    )
        requires
            Self::removed(pre, cur, post, x, update, rank),
            rank[0] < k < post.npos(),
            0 <= l < post.active(k),
        ensures
            post.link_ok(k, l),
    {
        Self::lemma_removed_nodes(pre, cur, post, x, update, rank);
        let _ = pre.node(k + 1);
        assert(pre.link_ok(k + 1, l));
        let lv = pre.link(k + 1, l);
        match lv.forward {
            Some(n) => {
                let t = k + 1 + lv.span;
                assert(post.order@[t - 1] == pre.order@[t]);
                assert(post.height(t - 1) == pre.height(t));
                assert forall|m: int| k < m < t - 1 implies #[trigger] post.height(m) <= l by {
                    assert(pre.height(m + 1) <= l);
                }
            },
            None => {
                assert forall|m: int| k < m < post.npos() implies #[trigger] post.height(m) <= l by {
                    assert(pre.height(m + 1) <= l);
                }
            },
        }
    }

    /// The links that end before the removed node are right.
    proof fn lemma_removed_link_before(
        pre: Self,
        cur: Self,
        post: Self,
        x: usize,
        update: Seq<usize>,
        rank: Seq<usize>,
        k: int,
        l: int,
    )
        requires
            Self::removed(pre, cur, post, x, update, rank),
            0 <= k <= rank[0],
            0 <= l < pre.active(k),
            k != rank[l],
        ensures
            post.link_ok(k, l),
    {
        Self::lemma_removed_nodes(pre, cur, post, x, update, rank);
        if k > 0 {
            let _ = pre.node(k);
        }
        assert(l < pre.level);
        assert(l < pre.height(k));
        pre.lemma_turn_unique(update, rank, k, l);
        assert(update[l] == pre.order@[rank[l] as int]);
        assert(pre.order@[k] != update[l]);
        assert(post.link(k, l) == Self::removed_link(pre, x, update, pre.order@[k] as int, l));
        let lv = pre.link(k, l);
        let t = k + lv.span;
        assert(rank[l] <= rank[0]);
        assert(post.order@[t] == pre.order@[t]);
        assert(post.height(t) == pre.height(t));
        assert forall|m: int| k < m < t implies #[trigger] post.height(m) <= l by {
            assert(pre.height(m) <= l);
        }
    }

    /// The links out of the nodes where the descent turned down are right.
    proof fn lemma_removed_link_turn(
        pre: Self,
        cur: Self,
        post: Self,
        x: usize,
        update: Seq<usize>,
        rank: Seq<usize>,
        k: int,
        l: int,
    )
        requires
            Self::removed(pre, cur, post, x, update, rank),
            0 <= l < pre.level,
            k == rank[l],
        ensures
            post.link_ok(k, l),
    {
        Self::lemma_removed_nodes(pre, cur, post, x, update, rank);
        let p = rank[0] as int;
        let q = p + 1;
        pre.lemma_crossing(update, rank, l);
        assert(update[l] == pre.order@[rank[l] as int]);
        if k > 0 {
            let _ = pre.node(k);
        }
        assert(l < pre.height(k));
        assert(post.link(k, l) == Self::removed_link(pre, x, update, pre.order@[k] as int, l));
        let lv = pre.link(k, l);
        assert(pre.link(k, l) == pre.nodes@[pre.order@[k] as int].level@[l]);
        assert(pre.low_between(k, p + 1, l));
        if lv.forward == Some(x) {
            let t = k + lv.span;
            assert(pre.order@[t] == pre.order@[q]);
            assert(t == q);
            assert(pre.link_ok(q, l));
            let gone = pre.link(q, l);
            assert(gone == pre.nodes@[x as int].level@[l]);
            match gone.forward {
                Some(n2) => {
                    let t2 = q + gone.span;
                    assert(post.order@[t2 - 1] == pre.order@[t2]);
                    assert(post.height(t2 - 1) == pre.height(t2));
                    assert forall|m: int| k < m < t2 - 1 implies #[trigger] post.height(m)
                        <= l by {
                        if m < q {
                            assert(pre.height(m) <= l);
                        } else {
                            assert(pre.height(m + 1) <= l);
                        }
                    }
                },
                None => {
                    assert forall|m: int| k < m < post.npos() implies #[trigger] post.height(m)
                        <= l by {
                        if m < q {
                            assert(pre.height(m) <= l);
                        } else {
                            assert(pre.height(m + 1) <= l);
                        }
                    }
                },
            }
        } else {
            match lv.forward {
                Some(nx) => {
                    let t = k + lv.span;
                    assert(t != q);
                    assert(post.order@[t - 1] == pre.order@[t]);
                    assert(post.height(t - 1) == pre.height(t));
                    assert forall|m: int| k < m < t - 1 implies #[trigger] post.height(m) <= l by {
                        if m < q {
                            assert(pre.height(m) <= l);
                        } else {
                            assert(pre.height(m + 1) <= l);
                        }
                    }
                },
                None => {
                    assert forall|m: int| k < m < post.npos() implies #[trigger] post.height(m)
                        <= l by {
                        if m < q {
                            assert(pre.height(m) <= l);
                        } else {
                            assert(pre.height(m + 1) <= l);
                        }
                    }
                },
            }
        }
    }

    /// Once every level is unlinked and the order, the length, the tail,
    /// the backward link and the slot have followed, the list is well formed
    /// again but for the top level, and the element is gone from its index.
    proof fn lemma_removed(
        pre: Self,
        cur: Self,
        post: Self,
        x: usize,
        update: Seq<usize>,
        rank: Seq<usize>,
    )
        requires
            Self::removed(pre, cur, post, x, update, rank),
        ensures
            post.wf_core(),
            post@ == pre@.remove(rank[0] as int),
            post.heights() == pre.heights().remove(rank[0] as int),
            post.slots() == pre.slots().remove(rank[0] as int),
    {
        assert(post.slots() =~= pre.slots().remove(rank[0] as int));
        Self::lemma_removed_nodes(pre, cur, post, x, update, rank);
        let p = rank[0] as int;
        let q = p + 1;
        assert(pre.npos() == pre.length + 1);
        assert(post.heights() =~= pre.heights().remove(p)) by {
            assert forall|i: int| 0 <= i < post.heights().len() implies post.heights()[i]
                == pre.heights().remove(p)[i] by {
                assert(post.heights()[i] == post.height(i + 1));
                if i < p {
                    assert(pre.heights()[i] == pre.height(i + 1));
                } else {
                    assert(pre.heights()[i + 1] == pre.height(i + 2));
                }
            }
        }
        assert forall|k: int, l: int|
            0 <= k < post.npos() && 0 <= l < post.active(k) implies #[trigger] post.link_ok(
            k,
            l,
        ) by {
            if k > p {
                Self::lemma_removed_link_after(pre, cur, post, x, update, rank, k, l);
            } else {
                if k > 0 {
                    let _ = pre.node(k);
                }
                if k == rank[l] {
                    Self::lemma_removed_link_turn(pre, cur, post, x, update, rank, k, l);
                } else {
                    Self::lemma_removed_link_before(pre, cur, post, x, update, rank, k, l);
                }
            }
        }
        let s0 = pre@;
        let s1 = post@;
        assert(s1 =~= s0.remove(p)) by {
            assert forall|i: int| 0 <= i < s1.len() implies s1[i] == s0.remove(p)[i] by {
                assert(s1[i] == post.elem(i + 1));
                if i < p {
                    assert(s0[i] == pre.elem(i + 1));
                } else {
                    assert(s0[i + 1] == pre.elem(i + 2));
                }
            }
        }
        assert(sorted(s1)) by {
            assert forall|i: int, j: int| 0 <= i < j < s1.len() implies !lt(
                #[trigger] s1[j],
                #[trigger] s1[i],
            ) by {
                let oi = if i < p {
                    i
                } else {
                    i + 1
                };
                let oj = if j < p {
                    j
                } else {
                    j + 1
                };
                assert(s1[i] == s0[oi]);
                assert(s1[j] == s0[oj]);
                assert(!lt(s0[oj], s0[oi]));
            }
        }
        assert(update[0] == pre.order@[rank[0] as int]);
        assert forall|k: int| 1 <= k < post.npos() implies {
            &&& (#[trigger] post.node(k)).element is Some
            &&& 1 <= post.height(k) <= post.level
            &&& post.node(k).backward == Some(post.order@[k - 1])
        } by {
            if k < q {
                let _ = pre.node(k);
                let n = pre.order@[k] as int;
                assert(post.order@[k] == n);
                assert(post.nodes@[n].backward == cur.nodes@[n].backward) by {
                    if q + 1 < pre.npos() {
                        assert(pre.order@[k] != pre.order@[q + 1]);
                    }
                }
                assert(post.order@[k - 1] == pre.order@[k - 1]);
            } else {
                let _ = pre.node(k + 1);
                let n = pre.order@[k + 1] as int;
                assert(post.order@[k] == n);
                if k == q {
                    assert(post.order@[k - 1] == pre.order@[p]);
                } else {
                    assert(pre.order@[k + 1] != pre.order@[q + 1]);
                    assert(post.order@[k - 1] == pre.order@[k]);
                }
            }
        }
        assert forall|i: int, j: int| 0 <= i < j < post.npos() implies #[trigger] post.order@[i]
            != #[trigger] post.order@[j] by {
            let oi = if i < q {
                i
            } else {
                i + 1
            };
            let oj = if j < q {
                j
            } else {
                j + 1
            };
            assert(pre.order@[oi] != pre.order@[oj]);
        }
        assert forall|k: int| 0 <= k < post.npos() implies #[trigger] post.order@[k]
            < post.nodes@.len() by {
            if k < q {
                assert(pre.order@[k] < pre.nodes@.len());
            } else {
                assert(pre.order@[k + 1] < pre.nodes@.len());
            }
        }
        assert forall|i: int, k: int|
            0 <= i < post.free@.len() && 0 <= k < post.npos() implies #[trigger] post.free@[i]
            != #[trigger] post.order@[k] by {
            let ok = if k < q {
                k
            } else {
                k + 1
            };
            if i < pre.free@.len() {
                assert(pre.free@[i] != pre.order@[ok]);
            } else {
                assert(pre.order@[q] != pre.order@[ok]);
            }
        }
        assert forall|i: int, j: int| 0 <= i < j < post.free@.len() implies #[trigger] post.free@[i]
            != #[trigger] post.free@[j] by {
            if j < pre.free@.len() {
                assert(pre.free@[i] != pre.free@[j]);
            } else {
                assert(pre.free@[i] != pre.order@[q]);
            }
        }
        assert forall|i: int| 0 <= i < post.free@.len() implies 0 < #[trigger] post.free@[i]
            < post.nodes@.len() by {
            if i < pre.free@.len() {
                assert(0 < pre.free@[i] < pre.nodes@.len());
            } else {
                assert(pre.order@[0] != pre.order@[q]);
                assert(pre.order@[q] < pre.nodes@.len());
            }
        }
        assert(pre.order@[0] != pre.order@[q]);
        assert forall|l: int| post.level <= l < MAX_LEVEL implies (
        #[trigger] post.nodes@[0].level@[l]).forward is None by {
            assert(post.nodes@[0].level == cur.nodes@[0].level);
            assert(cur.nodes@[0].level@[l] == Self::removed_link(pre, x, update, 0, l));
            assert(pre.nodes@[0].level@[l].forward is None);
        }
        assert(post.nodes@[0].level == cur.nodes@[0].level);
        assert(post.nodes@[0].backward is None) by {
            if q + 1 < pre.npos() {
                assert(pre.order@[0] != pre.order@[q + 1]);
            }
        }
        assert(post.tail == if post.length == 0 {
            None
        } else {
            Some(post.order@[post.length as int])
        }) by {
            if q + 1 == pre.npos() {
                if p > 0 {
                    assert(pre.order@[0] != pre.order@[p]);
                }
            } else {
                assert(post.order@[post.length as int] == pre.order@[pre.length as int]);
            }
        }
    }

    /// Lowering the level past top levels that hold no link keeps the list
    /// well formed.
    proof fn lemma_shrunk(self, low: Self)
        requires
            self.wf_core(),
            1 <= low.level <= self.level,
            low == (SkipList { level: low.level, ..self }),
            forall|l: int|
                low.level <= l < self.level ==> (#[trigger] self.nodes@[0].level@[l]).forward is None,
        ensures
            low.wf_core(),
            low@ == self@,
            low.heights() == self.heights(),
            low.slots() == self.slots(),
    {
        assert(low.slots() =~= self.slots());
        assert(low.heights() =~= self.heights()) by {
            assert forall|i: int| 0 <= i < self.heights().len() implies low.heights()[i]
                == self.heights()[i] by {
                assert(low.height(i + 1) == self.height(i + 1));
            }
        }
        assert(low@ =~= self@) by {
            assert forall|i: int| 0 <= i < self@.len() implies low@[i] == self@[i] by {
                assert(low.elem(i + 1) == self.elem(i + 1));
            }
        }
        assert forall|k: int| 1 <= k < low.npos() implies {
            &&& (#[trigger] low.node(k)).element is Some
            &&& 1 <= low.height(k) <= low.level
            &&& low.node(k).backward == Some(low.order@[k - 1])
        } by {
            let _ = self.node(k);
            assert(low.node(k) == self.node(k));
            if low.level < self.level {
                assert(self.link_ok(0, low.level as int));
                assert(self.height(k) <= low.level);
            }
        }
        assert forall|k: int, l: int|
            0 <= k < low.npos() && 0 <= l < low.active(k) implies #[trigger] low.link_ok(k, l) by {
            assert(self.link_ok(k, l));
            assert(low.link(k, l) == self.link(k, l));
            assert forall|m: int| low.height(m) == self.height(m) by {}
        }
    }

    /// Unlinks the node in slot `x`, which sits just behind the end of the
    /// path `update`, `rank`, lowers the level to the tallest node left,
    /// releases the slot and returns the element.
    pub(super) fn unlink(
        &mut self,
        update: &Vec<usize>,
        rank: &Vec<usize>,
        x: usize,
    ) -> (element: T)
        requires
            old(self).wf(),
            old(self).path_struct(update@, rank@),
            rank@[0] + 1 < old(self).npos(),
            x == old(self).order@[rank@[0] + 1],
        ensures
            final(self).wf(),
            element == old(self)@[rank@[0] as int],
            final(self)@ == old(self)@.remove(rank@[0] as int),
            final(self).heights() == old(self).heights().remove(rank@[0] as int),
            final(self).slots() == old(self).slots().remove(rank@[0] as int),
    {
        let ghost pre = *self;
        let p = rank[0];
        proof {
            let _ = pre.node(p + 1);
            assert(pre@[p as int] == pre.elem(p + 1));
        }
        let mut i: usize = 0;
        while i < self.level
            invariant
                pre.wf(),
                p == rank@[0],
                p + 1 < pre.npos(),
                x == pre.order@[p + 1],
                0 <= i <= self.level,
                pre.path_struct(update@, rank@),
                Self::remove_stage(pre, *self, x, update@, i as int),
            decreases self.level - i,
        {
            let u = update[i];
            proof {
                pre.lemma_crossing(update@, rank@, i as int);
                assert(pre.npos() == pre.length + 1);
                let lv = pre.link(rank@[i as int] as int, i as int);
                if lv.forward == Some(x) {
                    let t = rank@[i as int] + lv.span;
                    assert(pre.order@[t] == pre.order@[p + 1]);
                    assert(t == p + 1);
                    assert(pre.link_ok(p + 1, i as int));
                    assert(pre.link(p + 1, i as int) == pre.nodes@[x as int].level@[i as int]);
                }
            }
            let forward = self.nodes[u].level[i].forward;
            let span = self.nodes[u].level[i].span;
            let through = match forward {
                Some(n) => n == x,
                None => false,
            };
            if through {
                let forward = self.nodes[x].level[i].forward;
                let gone = self.nodes[x].level[i].span;
                self.set_link(u, i, forward, span + gone - 1);
            } else {
                self.set_link(u, i, forward, span - 1);
            }
            i += 1;
        }
        assert(Self::remove_stage(pre, *self, x, update@, MAX_LEVEL as int));
        let ghost cur = *self;
        proof {
            pre.lemma_unit_span(p + 1);
            assert(pre.link(p + 1, 0) == pre.nodes@[x as int].level@[0]);
            assert(cur.nodes@[x as int].level@[0] == Self::removed_link(pre, x, update@, x as int, 0));
            assert(update@[0] == pre.order@[rank@[0] as int]);
            assert(pre.order@[p as int] != pre.order@[p + 1]);
            if p + 2 < pre.npos() {
                assert(pre.order@[p + 2] < pre.nodes@.len());
            }
        }
        match self.nodes[x].level[0].forward {
            Some(next) => {
                self.set_backward(next, Some(update[0]));
            },
            None => {
                self.tail = if update[0] == 0 {
                    None
                } else {
                    Some(update[0])
                };
            },
        }
        let ghost mid = *self;
        let ghost top = self.level;
        while self.level > 1 && self.nodes[0].level[self.level - 1].forward.is_none()
            invariant
                1 <= self.level <= top,
                top <= MAX_LEVEL,
                self.nodes == mid.nodes,
                self.free == mid.free,
                self.tail == mid.tail,
                self.length == mid.length,
                self.order == mid.order,
                self.nodes@.len() > 0,
                self.nodes@[0].level@.len() == MAX_LEVEL,
                forall|l: int|
                    self.level <= l < top ==> (#[trigger] self.nodes@[0].level@[l]).forward is None,
            decreases self.level,
        {
            self.level -= 1;
        }
        self.length -= 1;
        let removed = self.release(x);
        self.free.push(x);
        proof {
            self.order@ = pre.order@.remove(p + 1);
            let full = SkipList { level: pre.level, ..*self };
            assert(Self::removed(pre, cur, full, x, update@, rank@));
            Self::lemma_removed(pre, cur, full, x, update@, rank@);
            full.lemma_shrunk(*self);
        }
        removed
    }

    /// Removes the first element that is tied with `element` and returns
    /// it; no other node changes its height or its slot. Where there is
    /// none, the list stays as it is.
    pub fn remove(&mut self, element: &T) -> (r: Result<T, SkipListError>)
        requires
            old(self).wf(),
            totally_ordered::<T>(),
        ensures
            final(self).wf(),
            match first_tied(old(self)@, *element) {
                Some(q) => {
                    &&& r == Ok::<T, SkipListError>(old(self)@[q])
                    &&& final(self)@ == old(self)@.remove(q)
                    &&& final(self).heights() == old(self).heights().remove(q)
                    &&& final(self).slots() == old(self).slots().remove(q)
                },
                None => r == Err::<T, SkipListError>(SkipListError::NotFound) && *final(self)
                    == *old(self),
            },
    {
        let (update, rank) = self.descend(element, false);
        let p = rank[0];
        proof {
            self.lemma_first_tied(*element, update@, rank@);
            self.lemma_unit_span(p as int);
            assert(self.link(p as int, 0) == self.nodes@[update@[0] as int].level@[0]);
        }
        let x = match self.nodes[update[0]].level[0].forward {
            Some(x) => x,
            None => {
                return Err(SkipListError::NotFound);
            },
        };
        proof {
            let _ = self.node(p + 1);
        }
        let found = match &self.nodes[x].element {
            Some(v) => precedes(v, element, true),
            None => false,
        };
        if !found {
            return Err(SkipListError::NotFound);
        }
        Ok(self.unlink(&update, &rank, x))
    }
}

} // verus!
