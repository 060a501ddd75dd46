//! What holds of the list's operations taken together, stated over the
//! sequence of elements that the operations' contracts speak of.

use crate::order::{
    count_less, first_tied, lemma_count_before, lemma_count_splits, lemma_order_basics, lists, lt,
    sorted, tied, totally_ordered,
};
use vstd::prelude::*;

verus! {

/// Looking up the rank of the element found at rank `r` gives `r` back,
/// provided that no element before rank `r` is tied with it. (`at_rank(r)`
/// is `s[r - 1]`, and `rank_of(e)` is one more than `first_tied(s, e)`.)
pub proof fn lemma_rank_round_trip<T: PartialOrd>(s: Seq<T>, r: int)
    requires
        totally_ordered::<T>(),
        sorted(s),
        1 <= r <= s.len(),
        forall|i: int| 0 <= i < r - 1 ==> !tied(#[trigger] s[i], s[r - 1]),
    ensures
        first_tied(s, s[r - 1]) == Some(r - 1),
{
    let e = s[r - 1];
    assert forall|i: int| 0 <= i < r - 1 implies lt(#[trigger] s[i], e) by {
        assert(!lt(s[r - 1], s[i]));
    }
    assert forall|i: int| r - 1 <= i < s.len() implies !lt(#[trigger] s[i], e) by {
        if i == r - 1 {
            lemma_order_basics(e, e, e);
        } else {
            assert(!lt(s[i], s[r - 1]));
        }
    }
    lemma_count_before(s, e, false, r - 1);
    lemma_order_basics(e, e, e);
}

/// Whatever the ties, the rank looked up for the element found at rank `r`
/// is not beyond `r`, and the element there is tied with that one.
pub proof fn lemma_rank_of_at_rank<T: PartialOrd>(s: Seq<T>, r: int)
    requires
        totally_ordered::<T>(),
        sorted(s),
        1 <= r <= s.len(),
    ensures
        first_tied(s, s[r - 1]) matches Some(q) && 0 <= q <= r - 1 && tied(s[q], s[r - 1]),
{
    let e = s[r - 1];
    lemma_count_splits(s, e, false);
    lemma_order_basics(e, e, e);
    let c = count_less(s, e) as int;
    if c > r - 1 {
        assert(lt(s[r - 1], e));
    }
    if c < r - 1 {
        assert(!lt(s[r - 1], s[c]));
    }
}

/// The element at the rank that a lookup returns is tied with the element
/// looked up, and it is the first such.
pub proof fn lemma_at_rank_of<T: PartialOrd>(s: Seq<T>, e: T)
    requires
        totally_ordered::<T>(),
        sorted(s),
        first_tied(s, e) is Some,
    ensures
        0 <= first_tied(s, e)->0 < s.len(),
        tied(s[first_tied(s, e)->0], e),
        forall|i: int| 0 <= i < first_tied(s, e)->0 ==> lt(#[trigger] s[i], e),
{
    lemma_count_splits(s, e, false);
}

/// No lookup finds an element that is tied with none of the list.
pub proof fn lemma_absent<T: PartialOrd>(s: Seq<T>, e: T)
    requires
        totally_ordered::<T>(),
        sorted(s),
    ensures
        first_tied(s, e) is None <==> forall|i: int| 0 <= i < s.len() ==> !tied(#[trigger] s[i], e),
{
    lemma_count_splits(s, e, false);
    let c = count_less(s, e) as int;
    if first_tied(s, e) is None {
        assert forall|i: int| 0 <= i < s.len() implies !tied(#[trigger] s[i], e) by {
            if i >= c {
                assert(lt(e, s[c]));
                assert(!lt(s[i], s[c]) || i == c);
                lemma_order_basics(e, s[i], s[c]);
            }
        }
    } else {
        assert(tied(s[c], e));
    }
}

/// The walk along the backward links meets the elements of the walk along
/// the forward links in the opposite order. (`elements` returns a list of
/// the view, `elements_rev` a list of its reverse.)
pub proof fn lemma_walks_mirror<T>(forward: Seq<&T>, backward: Seq<&T>, s: Seq<T>)
    requires
        lists(forward, s),
        lists(backward, s.reverse()),
    ensures
        backward.len() == forward.len(),
        forall|i: int|
            0 <= i < forward.len() ==> *#[trigger] backward[i] == *forward[forward.len() - 1 - i],
{
    assert forall|i: int| 0 <= i < forward.len() implies *#[trigger] backward[i]
        == *forward[forward.len() - 1 - i] by {
        assert(s.reverse()[i] == s[s.len() - 1 - i]);
    }
}

} // verus!
