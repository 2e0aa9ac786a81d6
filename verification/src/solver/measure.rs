//! Why merging comes to an end: there are only so many paths that fit the
//! buffer, and only so many daemons that a solution does not yet claim.

use vstd::prelude::*;
use vstd::set_lib::{lemma_int_range, lemma_len_subset, set_int_range};
use crate::solver::{Solution, Step};

verus! {

/// All paths of at most `limit` picks.
pub open spec fn paths_up_to(limit: nat) -> Set<Seq<Step>> {
    Set::new(|q: Seq<Step>| q.len() <= limit)
}

/// The paths of at most `limit` picks that some solution of the list takes.
pub open spec fn paths_taken(list: Seq<Solution>, limit: nat) -> Set<Seq<Step>> {
    Set::new(
        |q: Seq<Step>|
            q.len() <= limit && exists|m: int| 0 <= m < list.len() && (#[trigger] list[m]).steps@ == q,
    )
}

/// The number of paths of at most `limit` picks that no solution of the list
/// takes.
pub open spec fn paths_left(list: Seq<Solution>, limit: nat) -> nat {
    (paths_up_to(limit).len() - paths_taken(list, limit).len()) as nat
}

/// The number of flags that are not set.
pub open spec fn unset_flags(flags: Seq<bool>) -> nat
    decreases flags.len(),
{
    if flags.len() == 0 {
        0
    } else {
        unset_flags(flags.drop_last()) + if flags.last() {
            0nat
        } else {
            1nat
        }
    }
}

/// The number of daemons that the solutions of the list do not claim, summed
/// over the list.
pub open spec fn claims_left(list: Seq<Solution>) -> nat
    decreases list.len(),
{
    if list.len() == 0 {
        0
    } else {
        claims_left(list.drop_last()) + unset_flags(list.last().conditions@)
    }
}

/// `b` has every flag of `a` set, and as many flags.
pub open spec fn widens(a: Seq<bool>, b: Seq<bool>) -> bool {
    &&& a.len() == b.len()
    &&& forall|k: int| 0 <= k < a.len() ==> a[k] ==> b[k]
}

proof fn lemma_steps_finite()
    ensures
        Set::<Step>::new(|s: Step| true).finite(),
{
    let all = Set::<Step>::new(|s: Step| true);
    let codes = set_int_range(0, 65536);
    lemma_int_range(0, 65536);
    let f = |i: int| Step { x: (i / 256) as u8, y: (i % 256) as u8 };
    codes.lemma_map_finite(f);
    assert forall|s: Step| all.contains(s) implies codes.map(f).contains(s) by {
        let i = s.x as int * 256 + s.y as int;
        assert(codes.contains(i));
        assert(f(i) == s);
    }
    lemma_len_subset(all, codes.map(f));
}

/// There are finitely many paths of at most `limit` picks.
pub proof fn lemma_paths_finite(limit: nat)
    ensures
        paths_up_to(limit).finite(),
    decreases limit,
{
    if limit == 0 {
        assert(paths_up_to(0) =~= set![Seq::<Step>::empty()]) by {
            assert forall|q: Seq<Step>| q.len() <= 0 implies q == Seq::<Step>::empty() by {
                assert(q =~= Seq::<Step>::empty());
            }
        }
    } else {
        let shorter = paths_up_to((limit - 1) as nat);
        lemma_paths_finite((limit - 1) as nat);
        lemma_steps_finite();
        let all = Set::<Step>::new(|s: Step| true);
        let grow = |q: Seq<Step>| all.map(|s: Step| q.push(s));
        let family = shorter.map(grow);
        shorter.lemma_map_finite(grow);
        assert forall|inner: Set<Seq<Step>>| family.contains(inner) implies #[trigger] inner.finite() by {
            let q = choose|q: Seq<Step>| shorter.contains(q) && inner == grow(q);
            all.lemma_map_finite(|s: Step| q.push(s));
        }
        family.lemma_flatten_finite();
        let longer = family.flatten();
        assert forall|q: Seq<Step>| paths_up_to(limit).contains(q) implies shorter.union(
            longer,
        ).contains(q) by {
            if q.len() == limit {
                let head = q.drop_last();
                let inner = grow(head);
                assert(shorter.contains(head));
                assert(family.contains(inner));
                assert(all.contains(q.last()));
                assert(q =~= head.push(q.last()));
                assert(inner.contains(q));
            }
        }
        lemma_len_subset(paths_up_to(limit), shorter.union(longer));
    }
}

/// The paths that a list takes are among the paths that fit the buffer.
pub proof fn lemma_paths_taken_bounded(list: Seq<Solution>, limit: nat)
    ensures
        paths_taken(list, limit).finite(),
        paths_taken(list, limit).len() <= paths_up_to(limit).len(),
{
    lemma_paths_finite(limit);
    lemma_len_subset(paths_taken(list, limit), paths_up_to(limit));
}

/// A new solution with a path that fits the buffer and that no solution of
/// the list takes leaves fewer paths.
pub proof fn lemma_push_takes_path(list: Seq<Solution>, s: Solution, limit: nat)
    requires
        s.steps@.len() <= limit,
        forall|m: int| 0 <= m < list.len() ==> (#[trigger] list[m]).steps@ != s.steps@,
    ensures
        paths_left(list.push(s), limit) < paths_left(list, limit),
{
    let before = paths_taken(list, limit);
    let after = paths_taken(list.push(s), limit);
    lemma_paths_taken_bounded(list, limit);
    lemma_paths_taken_bounded(list.push(s), limit);
    assert(after =~= before.insert(s.steps@)) by {
        assert forall|q: Seq<Step>| after.contains(q) implies before.insert(s.steps@).contains(
            q,
        ) by {
            let m = choose|m: int|
                0 <= m < list.push(s).len() && (#[trigger] list.push(s)[m]).steps@ == q;
            if m < list.len() {
                assert(list[m].steps@ == q);
            }
        }
        assert forall|q: Seq<Step>| before.insert(s.steps@).contains(q) implies after.contains(
            q,
        ) by {
            if q == s.steps@ {
                assert(list.push(s)[list.len() as int].steps@ == q);
            } else {
                let m = choose|m: int| 0 <= m < list.len() && (#[trigger] list[m]).steps@ == q;
                assert(list.push(s)[m].steps@ == q);
            }
        }
    }
    assert(!before.contains(s.steps@));
}

/// Replacing a solution by one with the same path leaves the same paths.
pub proof fn lemma_update_keeps_paths(list: Seq<Solution>, i: int, s: Solution, limit: nat)
    requires
        0 <= i < list.len(),
        s.steps@ == list[i].steps@,
    ensures
        paths_left(list.update(i, s), limit) == paths_left(list, limit),
{
    let before = paths_taken(list, limit);
    let after = paths_taken(list.update(i, s), limit);
    assert(after =~= before) by {
        assert forall|q: Seq<Step>| after.contains(q) implies before.contains(q) by {
            let m = choose|m: int|
                0 <= m < list.len() && (#[trigger] list.update(i, s)[m]).steps@ == q;
            assert(list[m].steps@ == q);
        }
        assert forall|q: Seq<Step>| before.contains(q) implies after.contains(q) by {
            let m = choose|m: int| 0 <= m < list.len() && (#[trigger] list[m]).steps@ == q;
            assert(list.update(i, s)[m].steps@ == q);
        }
    }
}

/// Setting more flags leaves fewer unset, and strictly fewer if a flag
/// changed.
pub proof fn lemma_widens_unset(a: Seq<bool>, b: Seq<bool>)
    requires
        widens(a, b),
    ensures
        unset_flags(b) <= unset_flags(a),
        a != b ==> unset_flags(b) < unset_flags(a),
    decreases a.len(),
{
    if a.len() > 0 {
        lemma_widens_unset(a.drop_last(), b.drop_last());
        if a.drop_last() == b.drop_last() && a.last() == b.last() {
            assert(a =~= a.drop_last().push(a.last()));
            assert(b =~= b.drop_last().push(b.last()));
        }
    } else {
        assert(a =~= b);
    }
}

/// Replacing one solution changes the count of unclaimed daemons by the
/// difference between the two.
pub proof fn lemma_update_claims(list: Seq<Solution>, i: int, s: Solution)
    requires
        0 <= i < list.len(),
    ensures
        claims_left(list.update(i, s)) == claims_left(list) - unset_flags(list[i].conditions@)
            + unset_flags(s.conditions@),
    decreases list.len(),
{
    let after = list.update(i, s);
    if i == list.len() - 1 {
        assert(after.drop_last() =~= list.drop_last());
    } else {
        lemma_update_claims(list.drop_last(), i, s);
        assert(after.drop_last() =~= list.drop_last().update(i, s));
    }
}

} // verus!
