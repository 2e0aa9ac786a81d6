//! Small helpers on slices that the solver builds on.
//!
//! The functions that compare elements are generic. What they return is
//! stated for element types whose `==` is equality of values, which is what
//! `obeys_concrete_eq` says of a type.

use vstd::prelude::*;
use vstd::laws_eq::obeys_concrete_eq;

verus! {

/// Whether `part` occurs in `main` as a contiguous run that starts at `start`.
pub open spec fn occurs_at<T>(main: Seq<T>, part: Seq<T>, start: int) -> bool {
    &&& 0 <= start
    &&& start + part.len() <= main.len()
    &&& main.subrange(start, start + part.len()) == part
}

/// Whether the non-empty `part` occurs somewhere in `main` as a contiguous run.
pub open spec fn is_part_of_spec<T>(main: Seq<T>, part: Seq<T>) -> bool {
    &&& part.len() > 0
    &&& exists|start: int| occurs_at(main, part, start)
}

/// Whether the tail of `c1` from index `p` on is a non-empty prefix of `c2`.
pub open spec fn overlaps_at<T>(c1: Seq<T>, c2: Seq<T>, p: int) -> bool {
    &&& 0 <= p < c1.len()
    &&& c1.len() - p <= c2.len()
    &&& c1.subrange(p, c1.len() as int) == c2.subrange(0, c1.len() - p)
}

/// `p` is the first index from which the tail of `c1` is a prefix of `c2`.
pub open spec fn is_union_point<T>(c1: Seq<T>, c2: Seq<T>, p: int) -> bool {
    &&& overlaps_at(c1, c2, p)
    &&& forall|q: int| 0 <= q < p ==> !overlaps_at(c1, c2, q)
}

/// Concatenates two slices into a fresh vector. Together the slices must
/// not be longer than a vector can be.
pub fn new_vec<T: Copy>(a: &[T], b: &[T]) -> (r: Vec<T>)
    requires
        a@.len() + b@.len() <= usize::MAX,
    ensures
        r@ == a@ + b@,
{
    let mut r: Vec<T> = Vec::with_capacity(a.len() + b.len());
    let mut i: usize = 0;
    while i < a.len()
        invariant
            i <= a@.len(),
            r@ == a@.subrange(0, i as int),
        decreases a@.len() - i,
    {
        r.push(a[i]);
        i += 1;
    }
    let mut j: usize = 0;
    while j < b.len()
        invariant
            j <= b@.len(),
            r@ == a@ + b@.subrange(0, j as int),
        decreases b@.len() - j,
    {
        r.push(b[j]);
        j += 1;
    }
    r
}

/// Compares `len` elements of `a` from `a_from` on with `len` elements of `b`
/// from `b_from` on.
fn runs_equal<T: Eq>(a: &[T], a_from: usize, b: &[T], b_from: usize, len: usize) -> (r: bool)
    requires
        a_from + len <= a@.len(),
        b_from + len <= b@.len(),
    ensures
        obeys_concrete_eq::<T>() ==> r == (a@.subrange(a_from as int, a_from + len) == b@.subrange(
            b_from as int,
            b_from + len,
        )),
{
    let a_len: usize = a.len();
    let b_len: usize = b.len();
    let mut k: usize = 0;
    while k < len
        invariant
            k <= len,
            a_from + len <= a@.len() == a_len,
            b_from + len <= b@.len() == b_len,
            obeys_concrete_eq::<T>() ==> a@.subrange(a_from as int, a_from + k) == b@.subrange(
                b_from as int,
                b_from + k,
            ),
        decreases len - k,
    {
        if !(a[a_from + k] == b[b_from + k]) {
            proof {
                if obeys_concrete_eq::<T>() {
                    reveal(obeys_concrete_eq);
                    let w = a@.subrange(a_from as int, a_from + len);
                    let v = b@.subrange(b_from as int, b_from + len);
                    assert(w[k as int] == a@[a_from + k]);
                    assert(v[k as int] == b@[b_from + k]);
                }
            }
            return false;
        }
        proof {
            if obeys_concrete_eq::<T>() {
                reveal(obeys_concrete_eq);
                assert(a@.subrange(a_from as int, a_from + k + 1) =~= a@.subrange(
                    a_from as int,
                    a_from + k,
                ).push(a@[a_from + k]));
                assert(b@.subrange(b_from as int, b_from + k + 1) =~= b@.subrange(
                    b_from as int,
                    b_from + k,
                ).push(b@[b_from + k]));
            }
        }
        k += 1;
    }
    true
}

/// Tells whether `part` is a contiguous piece of `main`. An empty `part` is a
/// piece of nothing.
pub fn is_part_of<T: Eq>(main: &[T], part: &[T]) -> (r: bool)
    ensures
        obeys_concrete_eq::<T>() ==> r == is_part_of_spec(main@, part@),
{
    if main.len() == 0 || part.len() == 0 || part.len() > main.len() {
        return false;
    }
    let last: usize = main.len() - part.len();
    let mut i: usize = 0;
    while i <= last
        invariant
            i <= last + 1,
            last == main@.len() - part@.len(),
            main@.len() <= usize::MAX,
            part@.len() > 0,
            obeys_concrete_eq::<T>() ==> forall|s: int| 0 <= s < i ==> !occurs_at(main@, part@, s),
        decreases last + 1 - i,
    {
        proof {
            assert(part@.subrange(0, part@.len() as int) =~= part@);
        }
        if runs_equal(main, i, part, 0, part.len()) {
            proof {
                if obeys_concrete_eq::<T>() {
                    assert(occurs_at(main@, part@, i as int));
                }
            }
            return true;
        }
        i += 1;
    }
    false
}

/// Finds where `c2` can be laid over the end of `c1`: the smallest index of
/// `c1` from which all that is left of `c1` is a prefix of `c2`.
pub fn union_point<T: Eq>(c1: &[T], c2: &[T]) -> (r: Option<usize>)
    ensures
        obeys_concrete_eq::<T>() ==> match r {
            Some(p) => is_union_point(c1@, c2@, p as int),
            None => forall|q: int| !overlaps_at(c1@, c2@, q),
        },
{
    if c1.len() == 0 || c2.len() == 0 {
        return None;
    }
    let mut i: usize = 0;
    while i < c1.len()
        invariant
            i <= c1@.len(),
            obeys_concrete_eq::<T>() ==> forall|q: int| 0 <= q < i ==> !overlaps_at(c1@, c2@, q),
        decreases c1@.len() - i,
    {
        let rest: usize = c1.len() - i;
        if rest <= c2.len() && runs_equal(c1, i, c2, 0, rest) {
            return Some(i);
        }
        i += 1;
    }
    None
}

} // verus!
