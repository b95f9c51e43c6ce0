//! A verified merge sort, parameterised by a total preorder.
use vstd::prelude::*;
use vstd::seq_lib::lemma_multiset_commutative;

verus! {

/// A total preorder on `T` together with an executable test for it.
pub trait SortOrder<T> {
    spec fn le(a: T, b: T) -> bool;

    proof fn lemma_total(a: T, b: T)
        ensures
            Self::le(a, b) || Self::le(b, a),
    ;

    proof fn lemma_trans(a: T, b: T, c: T)
        requires
            Self::le(a, b),
            Self::le(b, c),
        ensures
            Self::le(a, c),
    ;

    fn le_exec(a: &T, b: &T) -> (r: bool)
        ensures
            r == Self::le(*a, *b),
    ;

    fn copy_item(a: &T) -> (r: T)
        ensures
            r == *a,
    ;
}

/// `s` is ordered by `O`.
pub open spec fn sorted_by_order<T, O: SortOrder<T>>(s: Seq<T>) -> bool {
    forall|i: int, j: int| 0 <= i < j < s.len() ==> O::le(#[trigger] s[i], #[trigger] s[j])
}

/// `r` holds the same items as `s`, each as often, in an order allowed by `O`.
pub open spec fn is_sorted_permutation<T, O: SortOrder<T>>(r: Seq<T>, s: Seq<T>) -> bool {
    &&& r.to_multiset() == s.to_multiset()
    &&& sorted_by_order::<T, O>(r)
}

/// Merges two ordered vectors into one ordered vector with the items of both.
fn merge<T, O: SortOrder<T>>(a: &Vec<T>, b: &Vec<T>) -> (r: Vec<T>)
    requires
        sorted_by_order::<T, O>(a@),
        sorted_by_order::<T, O>(b@),
    ensures
        r@.to_multiset() == a@.to_multiset().add(b@.to_multiset()),
        sorted_by_order::<T, O>(r@),
        r@.len() == a@.len() + b@.len(),
{
    broadcast use vstd::seq_lib::group_to_multiset_ensures, vstd::multiset::group_multiset_axioms;

    let mut r: Vec<T> = Vec::new();
    let mut i: usize = 0;
    let mut j: usize = 0;
    while i < a.len() || j < b.len()
        invariant
            i <= a.len(),
            j <= b.len(),
            sorted_by_order::<T, O>(a@),
            sorted_by_order::<T, O>(b@),
            sorted_by_order::<T, O>(r@),
            r@.len() == i + j,
            r@.to_multiset() == a@.take(i as int).to_multiset().add(b@.take(j as int).to_multiset()),
            r@.len() > 0 && i < a.len() ==> O::le(r@.last(), a@[i as int]),
            r@.len() > 0 && j < b.len() ==> O::le(r@.last(), b@[j as int]),
        decreases a.len() + b.len() - i - j,
    {
        let take_a = if i == a.len() {
            false
        } else if j == b.len() {
            true
        } else {
            O::le_exec(&a[i], &b[j])
        };
        let ghost old_r = r@;
        if take_a {
            let x = O::copy_item(&a[i]);
            proof {
                if j < b.len() && i < a.len() {
                    O::lemma_total(a@[i as int], b@[j as int]);
                }
                assert forall|k: int| 0 <= k < old_r.len() implies O::le(#[trigger] old_r[k], x) by {
                    if k < old_r.len() - 1 {
                        O::lemma_trans(old_r[k], old_r.last(), x);
                    }
                }
                if i + 1 < a.len() {
                    assert(O::le(a@[i as int], a@[i + 1]));
                }
                assert(a@.take(i + 1) =~= a@.take(i as int).push(a@[i as int]));
                a@.take(i as int).to_multiset_ensures();
                old_r.to_multiset_ensures();
                assert(a@.take(i + 1).to_multiset() =~= a@.take(i as int).to_multiset().insert(x));
                assert(old_r.push(x).to_multiset() =~= old_r.to_multiset().insert(x));
                assert(a@.take(i + 1).to_multiset().add(b@.take(j as int).to_multiset())
                    =~= old_r.to_multiset().insert(x));
            }
            r.push(x);
            i = i + 1;
        } else {
            let x = O::copy_item(&b[j]);
            proof {
                if i < a.len() {
                    O::lemma_total(a@[i as int], b@[j as int]);
                }
                assert forall|k: int| 0 <= k < old_r.len() implies O::le(#[trigger] old_r[k], x) by {
                    if k < old_r.len() - 1 {
                        O::lemma_trans(old_r[k], old_r.last(), x);
                    }
                }
                if j + 1 < b.len() {
                    assert(O::le(b@[j as int], b@[j + 1]));
                }
                assert(b@.take(j + 1) =~= b@.take(j as int).push(b@[j as int]));
                b@.take(j as int).to_multiset_ensures();
                old_r.to_multiset_ensures();
                assert(b@.take(j + 1).to_multiset() =~= b@.take(j as int).to_multiset().insert(x));
                assert(old_r.push(x).to_multiset() =~= old_r.to_multiset().insert(x));
                assert(a@.take(i as int).to_multiset().add(b@.take(j + 1).to_multiset())
                    =~= old_r.to_multiset().insert(x));
            }
            r.push(x);
            j = j + 1;
        }
    }
    assert(a@.take(a.len() as int) =~= a@);
    assert(b@.take(b.len() as int) =~= b@);
    r
}

/// Sorts `v[lo..hi]` into a new vector.
fn sort_range<T, O: SortOrder<T>>(v: &Vec<T>, lo: usize, hi: usize) -> (r: Vec<T>)
    requires
        lo <= hi <= v.len(),
    ensures
        is_sorted_permutation::<T, O>(r@, v@.subrange(lo as int, hi as int)),
        r@.len() == hi - lo,
    decreases hi - lo,
{
    broadcast use vstd::seq_lib::group_to_multiset_ensures;

    if hi - lo == 0 {
        assert(v@.subrange(lo as int, hi as int) =~= Seq::<T>::empty());
        return Vec::new();
    }
    if hi - lo == 1 {
        let mut r: Vec<T> = Vec::new();
        r.push(O::copy_item(&v[lo]));
        assert(v@.subrange(lo as int, hi as int) =~= seq![v@[lo as int]]);
        assert(r@ =~= seq![v@[lo as int]]);
        return r;
    }
    let mid = lo + (hi - lo) / 2;
    let left = sort_range::<T, O>(v, lo, mid);
    let right = sort_range::<T, O>(v, mid, hi);
    proof {
        assert(v@.subrange(lo as int, hi as int) =~= v@.subrange(lo as int, mid as int) + v@.subrange(
            mid as int,
            hi as int,
        ));
        lemma_multiset_commutative(
            v@.subrange(lo as int, mid as int),
            v@.subrange(mid as int, hi as int),
        );
    }
    merge::<T, O>(&left, &right)
}

/// A copy of `v`, ordered by `O`.
pub fn sort_by_order<T, O: SortOrder<T>>(v: &Vec<T>) -> (r: Vec<T>)
    ensures
        is_sorted_permutation::<T, O>(r@, v@),
        r@.len() == v@.len(),
{
    let r = sort_range::<T, O>(v, 0, v.len());
    assert(v@.subrange(0, v.len() as int) =~= v@);
    r
}

} // verus!
