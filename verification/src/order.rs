//! The ordering that the list sorts by, and what it means for a sequence to be
//! sorted under it.
//!
//! Elements are compared with `<` only. Two elements neither of which is less
//! than the other are *tied*: the list treats them as equal keys, whether or
//! not they are the same value.

use vstd::prelude::*;
use vstd::std_specs::cmp::PartialOrdSpec;
use core::cmp::Ordering;

verus! {

/// `a` is strictly less than `b`: the meaning of `a < b` in contracts.
pub open spec fn lt<T: PartialOrd>(a: T, b: T) -> bool {
    a.partial_cmp_spec(&b) == Some(Ordering::Less)
}

/// Neither element is less than the other.
pub open spec fn tied<T: PartialOrd>(a: T, b: T) -> bool {
    !lt(a, b) && !lt(b, a)
}

/// What the list asks of its element type: `<` computes `lt`, and `lt` is a
/// strict order in which being tied is transitive. Every total order is one;
/// the integer types are.
pub open spec fn totally_ordered<T: PartialOrd>() -> bool {
    &&& T::obeys_partial_cmp_spec()
    &&& forall|a: T, b: T| #[trigger] lt(a, b) ==> !lt(b, a)
    &&& forall|a: T, b: T, c: T|
        #![trigger lt(a, b), lt(b, c)]
        !lt(a, b) && !lt(b, c) ==> !lt(a, c)
}

/// Every element is at least as large as each one before it.
pub open spec fn sorted<T: PartialOrd>(s: Seq<T>) -> bool {
    forall|i: int, j: int| 0 <= i < j < s.len() ==> !lt(#[trigger] s[j], #[trigger] s[i])
}

/// How many elements of `s` are strictly less than `e`. In a sorted sequence
/// this is the index of the first element that is not less than `e`.
pub open spec fn count_less<T: PartialOrd>(s: Seq<T>, e: T) -> nat
    decreases s.len(),
{
    if s.len() == 0 {
        0
    } else {
        count_less(s.drop_last(), e) + if lt(s.last(), e) {
            1nat
        } else {
            0nat
        }
    }
}

/// How many elements of `s` are less than `e` or tied with it. In a sorted
/// sequence this is the index just past the last element that `e` is not
/// less than.
pub open spec fn count_upto<T: PartialOrd>(s: Seq<T>, e: T) -> nat
    decreases s.len(),
{
    if s.len() == 0 {
        0
    } else {
        count_upto(s.drop_last(), e) + if !lt(e, s.last()) {
            1nat
        } else {
            0nat
        }
    }
}

/// Whether an element `x` of the list lies before the place that a search for
/// `e` stops at: with `inclusive`, while `x` is not greater than `e`;
/// without, while `x` is strictly less.
pub open spec fn goes_before<T: PartialOrd>(x: T, e: T, inclusive: bool) -> bool {
    if inclusive {
        !lt(e, x)
    } else {
        lt(x, e)
    }
}

/// `count_upto` or `count_less`, by the kind of search.
pub open spec fn count_before<T: PartialOrd>(s: Seq<T>, e: T, inclusive: bool) -> nat {
    if inclusive {
        count_upto(s, e)
    } else {
        count_less(s, e)
    }
}

/// Decides `goes_before`.
pub fn precedes<T: PartialOrd>(x: &T, e: &T, inclusive: bool) -> (r: bool)
    requires
        T::obeys_partial_cmp_spec(),
    ensures
        r == goes_before(*x, *e, inclusive),
{
    if inclusive {
        !(*e < *x)
    } else {
        *x < *e
    }
}

/// In a total order, nothing is less than itself, and `lt` is transitive.
pub proof fn lemma_order_basics<T: PartialOrd>(a: T, b: T, c: T)
    requires
        totally_ordered::<T>(),
    ensures
        !lt(a, a),
        lt(a, b) ==> !lt(b, a),
        !lt(a, b) && !lt(b, c) ==> !lt(a, c),
        lt(a, b) && lt(b, c) ==> lt(a, c),
{
    if lt(a, a) {
        assert(!lt(a, a));
    }
    if lt(a, b) && lt(b, c) && !lt(a, c) {
        // a is not below c, and c is not below b: so a is not below b
        assert(!lt(c, b));
        assert(!lt(a, c) && !lt(c, b) ==> !lt(a, b));
    }
}

/// In a sorted sequence the elements that go before `e` form a prefix.
pub proof fn lemma_goes_before_prefix<T: PartialOrd>(
    s: Seq<T>,
    e: T,
    inclusive: bool,
    i: int,
    j: int,
)
    requires
        totally_ordered::<T>(),
        sorted(s),
        0 <= i <= j < s.len(),
        goes_before(s[j], e, inclusive),
    ensures
        goes_before(s[i], e, inclusive),
{
    if i < j {
        assert(!lt(s[j], s[i]));
        lemma_order_basics(s[j], s[i], e);
        lemma_order_basics(e, s[j], s[i]);
    }
}

/// Where a prefix of length `k` holds exactly the elements that go before
/// `e`, the count of such elements is `k`.
pub proof fn lemma_count_before<T: PartialOrd>(s: Seq<T>, e: T, inclusive: bool, k: int)
    requires
        0 <= k <= s.len(),
        forall|i: int| 0 <= i < k ==> goes_before(#[trigger] s[i], e, inclusive),
        forall|i: int| k <= i < s.len() ==> !goes_before(#[trigger] s[i], e, inclusive),
    ensures
        count_before(s, e, inclusive) == k,
    decreases s.len(),
{
    if s.len() > 0 {
        let t = s.drop_last();
        let k2 = if k == s.len() {
            k - 1
        } else {
            k
        };
        assert forall|i: int| 0 <= i < k2 implies goes_before(#[trigger] t[i], e, inclusive) by {
            assert(t[i] == s[i]);
        }
        assert forall|i: int| k2 <= i < t.len() implies !goes_before(
            #[trigger] t[i],
            e,
            inclusive,
        ) by {
            assert(t[i] == s[i]);
        }
        lemma_count_before(t, e, inclusive, k2);
        assert(s.last() == s[s.len() - 1]);
    }
}

/// The counts lie within the sequence, and `count_less` does not exceed
/// `count_upto`.
pub proof fn lemma_count_bounds<T: PartialOrd>(s: Seq<T>, e: T)
    requires
        totally_ordered::<T>(),
    ensures
        count_less(s, e) <= count_upto(s, e) <= s.len(),
    decreases s.len(),
{
    if s.len() > 0 {
        lemma_count_bounds(s.drop_last(), e);
        lemma_order_basics(s.last(), e, e);
    }
}

/// In a sorted sequence, the elements before index `count_before` go before
/// `e` and those from it on do not.
pub proof fn lemma_count_splits<T: PartialOrd>(s: Seq<T>, e: T, inclusive: bool)
    requires
        totally_ordered::<T>(),
        sorted(s),
    ensures
        count_before(s, e, inclusive) <= s.len(),
        forall|i: int|
            0 <= i < count_before(s, e, inclusive) ==> goes_before(#[trigger] s[i], e, inclusive),
        forall|i: int|
            count_before(s, e, inclusive) <= i < s.len() ==> !goes_before(
                #[trigger] s[i],
                e,
                inclusive,
            ),
    decreases s.len(),
{
    if s.len() > 0 {
        let t = s.drop_last();
        let n = s.len() - 1;
        assert forall|i: int, j: int| 0 <= i < j < t.len() implies !lt(
            #[trigger] t[j],
            #[trigger] t[i],
        ) by {
            assert(t[i] == s[i] && t[j] == s[j]);
        }
        lemma_count_splits(t, e, inclusive);
        let c = count_before(t, e, inclusive);
        assert(s.last() == s[n]);
        assert forall|i: int| 0 <= i < n implies t[i] == #[trigger] s[i] by {}
        if goes_before(s[n], e, inclusive) {
            assert forall|i: int| 0 <= i < n implies goes_before(#[trigger] s[i], e, inclusive) by {
                lemma_goes_before_prefix(s, e, inclusive, i, n);
            }
            if c < n {
                assert(!goes_before(t[c as int], e, inclusive));
                assert(false);
            }
        }
    }
}

/// The index of the first element of `s` that is tied with `e`, if there is
/// one.
pub open spec fn first_tied<T: PartialOrd>(s: Seq<T>, e: T) -> Option<int> {
    let c = count_less(s, e) as int;
    if c < s.len() && !lt(e, s[c]) {
        Some(c)
    } else {
        None
    }
}

/// `r` holds references to the elements of `s`, in the order of `s`.
pub open spec fn lists<T>(r: Seq<&T>, s: Seq<T>) -> bool {
    &&& r.len() == s.len()
    &&& forall|i: int| 0 <= i < r.len() ==> *#[trigger] r[i] == s[i]
}

} // verus!
