use vstd::prelude::*;
use std::fmt::Debug;
use crate::order::{le, ge, gt, total_preorder_on, follows_spec, lemma_follows_spec, lemma_total_preorder, lemma_le_transitive, lemma_total_preorder_within, antisymmetric_on, lemma_antisymmetric_within};

verus! {

broadcast use vstd::seq_lib::group_to_multiset_ensures;

/// `<[T]>::swap` exchanges the elements at the two positions; it panics when
/// either position is out of bounds, which `requires` rules out.
pub assume_specification<E>[ <[E]>::swap ](slice: &mut [E], a: usize, b: usize)
    requires
        a < old(slice)@.len(),
        b < old(slice)@.len(),
    ensures
        final(slice)@ == old(slice)@.update(a as int, old(slice)@[b as int]).update(
            b as int,
            old(slice)@[a as int],
        ),
;

/// Every element is `<=` every later one.
pub open spec fn sorted<T: PartialOrd>(s: Seq<T>) -> bool {
    forall|i: int, j: int| 0 <= i < j < s.len() ==> le(#[trigger] s[i], #[trigger] s[j])
}

/// Writing `v` at position `i` replaces one occurrence of `s[i]` by `v`.
proof fn lemma_update_multiset<T>(s: Seq<T>, i: int, v: T)
    requires
        0 <= i < s.len(),
    ensures
        s.update(i, v).to_multiset() =~= s.to_multiset().remove(s[i]).insert(v),
{
    let u = s.update(i, v);
    assert(u.remove(i) =~= s.remove(i));
    assert(u[i] == v);
}

/// Exchanging two elements keeps the multiset of elements.
proof fn lemma_swap_multiset<T>(s: Seq<T>, i: int, j: int)
    requires
        0 <= i < s.len(),
        0 <= j < s.len(),
    ensures
        s.update(i, s[j]).update(j, s[i]).to_multiset() =~= s.to_multiset(),
{
    let s1 = s.update(i, s[j]);
    lemma_update_multiset(s, i, s[j]);
    lemma_update_multiset(s1, j, s[i]);
    if i == j {
        assert(s.update(i, s[j]).update(j, s[i]) =~= s);
    } else {
        assert(s1[j] == s[j]);
        assert(s.to_multiset().count(s[i]) > 0);
    }
}


/// An element of a sequence is in its multiset.
proof fn lemma_element_counted<T>(s: Seq<T>, k: int)
    requires
        0 <= k < s.len(),
    ensures
        s.to_multiset().contains(s[k]),
{
    assert(s.contains(s[k]));
}

/// The elements of a part of a sequence are elements of the sequence.
proof fn lemma_part_counted<T>(s: Seq<T>, i: int, j: int)
    requires
        0 <= i <= j <= s.len(),
    ensures
        forall|x: T| #[trigger] s.subrange(i, j).to_multiset().contains(x) ==> s.to_multiset().contains(x),
{
    assert forall|x: T| #[trigger] s.subrange(i, j).to_multiset().contains(x) implies s.to_multiset().contains(x) by {
        let part = s.subrange(i, j);
        assert(part.contains(x));
        let k = choose|k: int| 0 <= k < part.len() && part[k] == x;
        assert(s[i + k] == x);
        assert(s.contains(x));
    }
}

/// Joining a sorted run of elements `<= p`, then `p`, then a sorted run of
/// elements `>= p` gives a sorted sequence.
proof fn lemma_sorted_join<T: PartialOrd>(lo: Seq<T>, p: T, hi: Seq<T>)
    requires
        total_preorder_on((lo + seq![p] + hi).to_multiset()),
        sorted(lo),
        sorted(hi),
        forall|k: int| 0 <= k < lo.len() ==> le(#[trigger] lo[k], p),
        forall|k: int| 0 <= k < hi.len() ==> le(p, #[trigger] hi[k]),
    ensures
        sorted(lo + seq![p] + hi),
{
    let s = lo + seq![p] + hi;
    let m = s.to_multiset();
    let n = lo.len() as int;
    assert forall|i: int, j: int| 0 <= i < j < s.len() implies le(#[trigger] s[i], #[trigger] s[j]) by {
        lemma_element_counted(s, i);
        lemma_element_counted(s, j);
        lemma_element_counted(s, n);
        assert(s[n] == p);
        lemma_total_preorder(m, p, p);
        if i < n && j > n {
            assert(le(s[i], p));
            assert(le(p, s[j]));
            lemma_le_transitive(m, s[i], p, s[j]);
        } else if i < n && j == n {
        } else if i == n && j > n {
        } else if i < n {
            assert(s[i] == lo[i]);
            assert(s[j] == lo[j]);
        } else {
            assert(s[i] == hi[i - n - 1]);
            assert(s[j] == hi[j - n - 1]);
        }
    }
}

/// Two sorted sequences that hold the same elements, each as often, are
/// the same sequence, where `<=` on those elements is a total order (a total
/// preorder that is antisymmetric, as on integers).  So the order in which
/// `quicksort` leaves a slice depends only on which elements the slice held,
/// not on the order they came in.
pub proof fn lemma_sorted_permutations_equal<T: PartialOrd>(s1: Seq<T>, s2: Seq<T>)
    requires
        s1.to_multiset() == s2.to_multiset(),
        total_preorder_on(s1.to_multiset()),
        antisymmetric_on(s1.to_multiset()),
        sorted(s1),
        sorted(s2),
    ensures
        s1 == s2,
    decreases s1.len(),
{
    let m = s1.to_multiset();
    assert(s1.to_multiset().len() == s2.to_multiset().len());
    if s1.len() > 0 {
        let n = s1.len() - 1;
        let a = s1[n];
        let b = s2[n];
        lemma_element_counted(s1, n);
        lemma_element_counted(s2, n);
        // `a` occurs in `s2`, so it is `<=` the last element of `s2`.
        assert(s2.to_multiset().count(a) > 0);
        assert(s2.contains(a));
        let k = choose|k: int| 0 <= k < s2.len() && s2[k] == a;
        lemma_total_preorder(m, a, b);
        assert(le(a, b));
        // Likewise `b` occurs in `s1`.
        assert(s1.to_multiset().count(b) > 0);
        assert(s1.contains(b));
        let j = choose|j: int| 0 <= j < s1.len() && s1[j] == b;
        assert(le(b, a));
        assert(a == b);
        let d1 = s1.drop_last();
        let d2 = s2.drop_last();
        assert(d1.push(a) =~= s1);
        assert(d2.push(a) =~= s2);
        assert(d1.to_multiset() =~= d2.to_multiset()) by {
            assert(d1.to_multiset().insert(a) == d2.to_multiset().insert(a));
            assert forall|x: T| #[trigger] d1.to_multiset().count(x) == d2.to_multiset().count(x) by {
                assert(d1.to_multiset().insert(a).count(x) == d2.to_multiset().insert(a).count(x));
            }
        }
        lemma_part_counted(s1, 0, n);
        assert(s1.subrange(0, n) =~= d1);
        lemma_total_preorder_within(m, d1.to_multiset());
        lemma_antisymmetric_within(m, d1.to_multiset());
        assert(sorted(d1)) by {
            assert forall|i: int, j: int| 0 <= i < j < d1.len() implies le(#[trigger] d1[i], #[trigger] d1[j]) by {
                assert(d1[i] == s1[i] && d1[j] == s1[j]);
            }
        }
        assert(sorted(d2)) by {
            assert forall|i: int, j: int| 0 <= i < j < d2.len() implies le(#[trigger] d2[i], #[trigger] d2[j]) by {
                assert(d2[i] == s2[i] && d2[j] == s2[j]);
            }
        }
        lemma_sorted_permutations_equal(d1, d2);
    } else {
        assert(s1 =~= s2);
    }
}

/// Sorts the slice in place with quicksort: the first element is the pivot,
/// the rest is partitioned around it, the pivot is put between the two
/// parts, and each part is sorted in turn.  Slices of two elements are put
/// in order with one comparison.
///
/// The result holds the same elements as before, each as often.  Where
/// `T`'s comparison is a total preorder on the slice's elements, the result
/// is sorted by `T`'s `<=`, and a slice that is already sorted is left as it
/// is.  Slices longer than two need that order: without it (a NaN, say) the
/// partition may swap forever.  Shorter slices take any order.
pub fn quicksort<T: PartialOrd + Debug>(slice: &mut [T])
    requires
        old(slice)@.len() > 2 ==> total_preorder_on(old(slice)@.to_multiset()),
    ensures
        final(slice)@.to_multiset() == old(slice)@.to_multiset(),
        old(slice)@.len() <= 1 ==> final(slice)@ == old(slice)@,
        total_preorder_on(old(slice)@.to_multiset()) ==> sorted(final(slice)@),
        total_preorder_on(old(slice)@.to_multiset()) && sorted(old(slice)@) ==> final(slice)@
            == old(slice)@,
    decreases old(slice)@.len(),
{
    let ghost orig = slice@;
    let ghost m = orig.to_multiset();
    let ghost n = slice@.len() as int;
    if slice.len() > 2 {
        let mut left: usize = 1;
        let mut right: usize = slice.len() - 1;
        let ghost mut first = true;
        let ghost p = slice@[0];
        proof {
            lemma_element_counted(orig, 0);
            lemma_follows_spec(m);
        }
        while left < right
            invariant
                total_preorder_on(m),
                follows_spec::<T>(),
                m == orig.to_multiset(),
                m.contains(p),
                n == slice@.len(),
                n == orig.len(),
                n > 2,
                p == orig[0],
                1 <= left <= n,
                right < n,
                slice@[0] == p,
                slice@.to_multiset() == m,
                forall|k: int| 1 <= k < left ==> le(#[trigger] slice@[k], p),
                forall|k: int| right < k < n ==> ge(#[trigger] slice@[k], p),
                !first ==> left < right ==> le(slice@[left as int], p) && ge(slice@[right as int], p),
                left < right || right == 0 || !ge(slice@[right as int], p),
                sorted(orig) ==> slice@ == orig && (!first ==> right == 0),
                first ==> left == 1 && right == n - 1,
            decreases (n - left) + right + (if first { 1int } else { 0int }),
        {
            let ghost left0 = left;
            let ghost right0 = right;
            while left < slice.len() && slice[left] <= slice[0]
                invariant
                    follows_spec::<T>(),
                    n == slice@.len(),
                    1 <= left <= n,
                    left0 <= left,
                    slice@[0] == p,
                    forall|k: int| 1 <= k < left ==> le(#[trigger] slice@[k], p),
                decreases n - left,
            {
                left += 1;
            }
            while right > 0 && slice[right] >= slice[0]
                invariant
                    follows_spec::<T>(),
                    n == slice@.len(),
                    right < n,
                    right <= right0,
                    slice@[0] == p,
                    forall|k: int| right < k < n ==> ge(#[trigger] slice@[k], p),
                decreases right,
            {
                right -= 1;
            }
            proof {
                if sorted(orig) && right > 0 {
                    lemma_element_counted(orig, right as int);
                    lemma_total_preorder(m, orig[right as int], p);
                    assert(le(orig[0], orig[right as int]));
                }
            }
            if left < right {
                proof {
                    lemma_element_counted(slice@, left as int);
                    lemma_element_counted(slice@, right as int);
                    lemma_total_preorder(m, slice@[left as int], p);
                    lemma_total_preorder(m, slice@[right as int], p);
                    lemma_swap_multiset(slice@, left as int, right as int);
                }
                slice.swap(left, right);
            }
            proof {
                first = false;
            }
        }
        proof {
            assert forall|k: int| 1 <= k <= right implies le(#[trigger] slice@[k], p) by {
                if k == right && right >= left {
                    lemma_element_counted(slice@, k);
                    lemma_total_preorder(m, slice@[k], p);
                }
            }
            lemma_swap_multiset(slice@, 0, right as int);
        }
        let ghost pre = slice@;
        slice.swap(0, right);
        let ghost parted = slice@;
        let ghost lo = parted.subrange(0, right as int);
        let ghost hi = parted.subrange(right + 1, n);
        proof {
            assert(parted[right as int] == p);
            assert forall|k: int| 0 <= k < lo.len() implies le(#[trigger] lo[k], p) by {
                if k == 0 {
                    assert(lo[k] == pre[right as int]);
                } else {
                    assert(lo[k] == pre[k]);
                }
            }
            assert forall|k: int| 0 <= k < hi.len() implies le(p, #[trigger] hi[k]) by {
                assert(hi[k] == pre[k + right + 1]);
                lemma_element_counted(pre, k + right + 1);
                lemma_total_preorder(m, pre[k + right + 1], p);
            }
            assert(parted =~= lo + seq![p] + hi);
            lemma_part_counted(parted, 0, right as int);
            lemma_part_counted(parted, right + 1, n);
            lemma_total_preorder_within(m, lo.to_multiset());
            lemma_total_preorder_within(m, hi.to_multiset());
            if sorted(orig) {
                assert(right == 0);
                assert(parted =~= orig);
                assert forall|i: int, j: int| 0 <= i < j < hi.len() implies le(#[trigger] hi[i], #[trigger] hi[j]) by {
                    assert(hi[i] == orig[i + 1]);
                    assert(hi[j] == orig[j + 1]);
                }
            }
        }
        let (lower, rest) = slice.split_at_mut(right);
        assert(lower@ =~= lo);
        quicksort(lower);
        let (pivot, upper) = rest.split_at_mut(1);
        assert(upper@ =~= hi);
        quicksort(upper);
        let ghost lo2 = lower@;
        let ghost hi2 = upper@;
        proof {
            assert forall|k: int| 0 <= k < lo2.len() implies le(#[trigger] lo2[k], p) by {
                assert(lo2.to_multiset().count(lo2[k]) > 0);
                assert(lo.contains(lo2[k]));
            }
            assert forall|k: int| 0 <= k < hi2.len() implies le(p, #[trigger] hi2[k]) by {
                assert(hi2.to_multiset().count(hi2[k]) > 0);
                assert(hi.contains(hi2[k]));
            }
            assert(pivot@ =~= seq![p]);
            vstd::seq_lib::lemma_multiset_commutative(lo, seq![p]);
            vstd::seq_lib::lemma_multiset_commutative(lo + seq![p], hi);
            vstd::seq_lib::lemma_multiset_commutative(lo2, seq![p]);
            vstd::seq_lib::lemma_multiset_commutative(lo2 + seq![p], hi2);
            assert(parted.to_multiset() == orig.to_multiset());
            assert((lo2 + seq![p] + hi2).to_multiset() == orig.to_multiset());
            lemma_sorted_join(lo2, p, hi2);
            if sorted(orig) {
                assert(lo2 =~= lo);
                assert(lo2 + seq![p] + hi2 =~= orig);
            }
        }
        assert(slice@ == lo2 + seq![p] + hi2);
    } else if slice.len() == 2 {
        proof {
            if total_preorder_on(m) {
                lemma_element_counted(orig, 0);
                lemma_element_counted(orig, 1);
                lemma_total_preorder(m, slice@[0], slice@[1]);
                lemma_follows_spec(m);
            }
        }
        if slice[0] > slice[1] {
            proof {
                lemma_swap_multiset(slice@, 0, 1);
            }
            slice.swap(0, 1);
        }
    }
}

} // verus!
