//! Sorting as a value-to-value operation: a collection is consumed and
//! handed back sorted, either by the element order or by a caller-supplied
//! comparison.

use core::cmp::Ordering;
use vstd::prelude::*;
use vstd::multiset::Multiset;
use vstd::seq_lib::lemma_multiset_commutative;

verus! {

broadcast use vstd::seq_lib::group_to_multiset_ensures, vstd::multiset::group_multiset_axioms;

/// Ascending order throughout a sequence.
pub open spec fn is_sorted(s: Seq<u64>) -> bool {
    forall|a: int, b: int| 0 <= a < b < s.len() ==> s[a] <= s[b]
}

/// Inserting an element anywhere in a sequence adds it to the sequence's
/// multiset.
proof fn lemma_to_multiset_insert<A>(s: Seq<A>, i: int, v: A)
    requires
        0 <= i <= s.len(),
    ensures
        s.insert(i, v).to_multiset() == s.to_multiset().insert(v),
{
    let sub1 = s.subrange(0, i);
    let sub2 = s.subrange(i, s.len() as int);
    assert(s.insert(i, v) == sub1.push(v) + sub2);
    lemma_multiset_commutative(sub1.push(v), sub2);
    lemma_multiset_commutative(sub1, sub2);
    assert(s =~= sub1 + sub2);
    assert(sub1.push(v).to_multiset() =~= sub1.to_multiset().insert(v));
    assert(sub1.to_multiset().insert(v).add(sub2.to_multiset()) =~= (sub1.to_multiset().add(
        sub2.to_multiset(),
    )).insert(v));
}

/// Collections of `T` that can be handed back sorted by the element order.
pub trait OrderedIterable<T>: Sized {
    /// What the sorted result guarantees about the receiver it came from.
    spec fn sort_post(pre: Self, post: Self) -> bool;

    /// The same collection, sorted ascending.
    fn sorted(self) -> (r: Self)
        ensures
            Self::sort_post(self, r),
    ;
}

impl OrderedIterable<u64> for Vec<u64> {
    /// Sorting keeps exactly the same elements and orders them ascending.
    open spec fn sort_post(pre: Vec<u64>, post: Vec<u64>) -> bool {
        &&& post@.to_multiset() == pre@.to_multiset()
        &&& is_sorted(post@)
    }

    fn sorted(self) -> (r: Vec<u64>)
        ensures
            Self::sort_post(self, r),
    {
        let ghost orig = self@;
        let mut rest = self;
        let mut r: Vec<u64> = Vec::new();
        proof {
            assert(r@.to_multiset().add(rest@.to_multiset()) =~= orig.to_multiset());
        }
        while rest.len() > 0
            invariant
                r@.to_multiset().add(rest@.to_multiset()) == orig.to_multiset(),
                is_sorted(r@),
            decreases rest.len(),
        {
            let ghost r0 = r@;
            let ghost rest0 = rest@;
            let x = rest.remove(0);
            let mut p: usize = 0;
            while p < r.len() && r[p] <= x
                invariant
                    p <= r.len(),
                    r@ == r0,
                    forall|k: int| 0 <= k < p ==> r@[k] <= x,
                decreases r.len() - p,
            {
                p = p + 1;
            }
            r.insert(p, x);
            proof {
                lemma_to_multiset_insert(r0, p as int, x);
                assert(rest0[0] == x);
                assert(rest@.to_multiset() =~= rest0.to_multiset().remove(x));
                assert(rest0.to_multiset().count(x) > 0);
                assert(r@.to_multiset().add(rest@.to_multiset()) =~= orig.to_multiset());
                r0.insert_ensures(p as int, x);
                assert forall|a: int, b: int| 0 <= a < b < r@.len() implies r@[a] <= r@[b] by {
                    if b < p {
                        assert(r@[a] == r0[a] && r@[b] == r0[b]);
                    } else if a > p {
                        assert(r@[a] == r0[a - 1] && r@[b] == r0[b - 1]);
                    } else if a == p {
                        assert(r@[a] == x && r@[b] == r0[b - 1]);
                        assert(x < r0[p as int]);
                        assert(r0[p as int] <= r0[b - 1]);
                    } else if b == p {
                        assert(r@[a] == r0[a] && r@[b] == x);
                    } else {
                        assert(r@[a] == r0[a] && r@[b] == r0[b - 1]);
                        if p as int <= b - 1 {
                            assert(x < r0[p as int] || b - 1 == p);
                        }
                    }
                }
            }
        }
        proof {
            assert(rest@.to_multiset() =~= Multiset::<u64>::empty());
            assert(r@.to_multiset().add(Multiset::<u64>::empty()) =~= r@.to_multiset());
        }
        r
    }
}

/// True of the comparison result that places the left element after the
/// right one.
fn is_greater(o: Ordering) -> (r: bool)
    ensures
        r == (o is Greater),
{
    match o {
        Ordering::Greater => true,
        _ => false,
    }
}

/// Collections of `T` that can be handed back sorted by a caller-supplied
/// comparison.
pub trait Iterable<T>: Sized {
    /// The elements the collection holds, in order.
    spec fn elements(self) -> Seq<T>;

    /// The same collection, reordered by `compare`: exactly the same
    /// elements, arranged as the comparison directs.
    fn sorted_by<F: Fn(&T, &T) -> Ordering>(self, compare: F) -> (r: Self)
        requires
            forall|a: T, b: T| #[trigger] call_requires(compare, (&a, &b)),
        ensures
            Self::elements(r).to_multiset() == Self::elements(self).to_multiset(),
    ;
}

impl<T> Iterable<T> for Vec<T> {
    open spec fn elements(self) -> Seq<T> {
        self@
    }

    fn sorted_by<F: Fn(&T, &T) -> Ordering>(self, compare: F) -> (r: Vec<T>)
        ensures
            Self::elements(r).to_multiset() == Self::elements(self).to_multiset(),
    {
        let ghost orig = self@;
        let mut rest = self;
        let mut r: Vec<T> = Vec::new();
        proof {
            assert(r@.to_multiset().add(rest@.to_multiset()) =~= orig.to_multiset());
        }
        while rest.len() > 0
            invariant
                forall|a: T, b: T| #[trigger] call_requires(compare, (&a, &b)),
                r@.to_multiset().add(rest@.to_multiset()) == orig.to_multiset(),
            decreases rest.len(),
        {
            let ghost r0 = r@;
            let ghost rest0 = rest@;
            let x = rest.remove(0);
            let mut p: usize = 0;
            while p < r.len() && !is_greater(compare(&r[p], &x))
                invariant
                    forall|a: T, b: T| #[trigger] call_requires(compare, (&a, &b)),
                    p <= r.len(),
                    r@ == r0,
                decreases r.len() - p,
            {
                p = p + 1;
            }
            r.insert(p, x);
            proof {
                lemma_to_multiset_insert(r0, p as int, x);
                assert(rest0[0] == x);
                assert(rest@.to_multiset() =~= rest0.to_multiset().remove(x));
                assert(rest0.to_multiset().count(x) > 0);
                assert(r@.to_multiset().add(rest@.to_multiset()) =~= orig.to_multiset());
            }
        }
        proof {
            assert(rest@.to_multiset() =~= Multiset::<T>::empty());
            assert(r@.to_multiset().add(Multiset::<T>::empty()) =~= r@.to_multiset());
        }
        r
    }
}

} // verus!
