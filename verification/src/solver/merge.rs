//! Merging: routes that each upload some daemons are joined into routes that
//! upload more, until nothing new comes of it.

use vstd::prelude::*;
use crate::solver::{Solution, Step, is_horizontal_step, lemma_step_eq};
use crate::solver::path::{
    is_horizontal, is_route, linked, lemma_lead_in_route, lemma_route_prefix,
};
use crate::solver::flags::{copy_flags, same_flags};
use crate::solver::search::{contains_step, copy_steps};
use crate::solver::measure::{
    claims_left, paths_left, widens, lemma_push_takes_path, lemma_update_claims,
    lemma_update_keeps_paths, lemma_widens_unset,
};
use crate::solver::path::lemma_part_of_part;
use crate::util::{
    new_vec, is_part_of, is_part_of_spec, occurs_at, overlaps_at, is_union_point, union_point,
};
use vstd::slice::slice_subrange;

verus! {

/// Some cell of `a` is a cell of `b`.
pub open spec fn shares_cell(a: Seq<Step>, b: Seq<Step>) -> bool {
    exists|i: int| 0 <= i < a.len() && b.contains(#[trigger] a[i])
}

/// Where `dest` is laid over the end of `src` from index `p` on, the moves
/// take turns: two shared picks or more settle it, a single shared pick asks
/// that the move into it and the move out of it differ in direction.
pub open spec fn overlap_turns(src: Seq<Step>, dest: Seq<Step>, p: int) -> bool {
    ||| src.len() - p > 1
    ||| src.len() <= 1
    ||| dest.len() <= 1
    ||| is_horizontal(src[src.len() - 2], src[src.len() - 1]) != is_horizontal(dest[0], dest[1])
}

/// Where `dest` follows `src`, the move from the last pick of `src` to the
/// first of `dest` stays in a row or a column, and the moves before and after
/// it, if there are any, run the other way.
pub open spec fn concat_turns(src: Seq<Step>, dest: Seq<Step>) -> bool {
    let last = src[src.len() - 1];
    let first = dest[0];
    if last.x == first.x {
        &&& src.len() <= 1 || is_horizontal(src[src.len() - 2], last)
        &&& dest.len() <= 1 || is_horizontal(first, dest[1])
    } else if last.y == first.y {
        &&& src.len() <= 1 || !is_horizontal(src[src.len() - 2], last)
        &&& dest.len() <= 1 || !is_horizontal(first, dest[1])
    } else {
        false
    }
}

/// The rule by which two routes are joined into `q`, for a buffer of `limit`
/// picks. `dest` must not be a piece of `src`. If an end of `src` is a start
/// of `dest`, the two are laid over one another at the first such place,
/// provided that what comes before it shares no cell with `dest`. If no end
/// of `src` is a start of `dest` and they share no cell, `dest` follows
/// `src`. Either way the result must fit the buffer and the moves must take
/// turns at the joint.
pub open spec fn joins_to(src: Seq<Step>, dest: Seq<Step>, limit: int, q: Seq<Step>) -> bool {
    &&& !is_part_of_spec(src, dest)
    &&& {
        ||| exists|p: int|
            {
                &&& #[trigger] is_union_point(src, dest, p)
                &&& !shares_cell(src.subrange(0, p), dest)
                &&& p + dest.len() <= limit
                &&& overlap_turns(src, dest, p)
                &&& q == src.subrange(0, p) + dest
            }
        ||| {
            &&& forall|p: int| !#[trigger] overlaps_at(src, dest, p)
            &&& !shares_cell(src, dest)
            &&& src.len() + dest.len() <= limit
            &&& concat_turns(src, dest)
            &&& q == src + dest
        }
    }
}

/// Two routes that share no cell, put one after the other with moves that
/// take turns at the joint, make a route.
proof fn lemma_concat_is_route(src: Seq<Step>, dest: Seq<Step>)
    requires
        is_route(src),
        is_route(dest),
        !shares_cell(src, dest),
        concat_turns(src, dest),
    ensures
        is_route(src + dest),
        occurs_at(src + dest, src, 0),
        occurs_at(src + dest, dest, src.len() as int),
        forall|i: int|
            0 <= i < (src + dest).len() ==> src.contains(#[trigger] (src + dest)[i])
                || dest.contains((src + dest)[i]),
{
    let q = src + dest;
    let n = src.len() as int;
    assert forall|i: int| 0 <= i < q.len() implies src.contains(#[trigger] q[i]) || dest.contains(
        q[i],
    ) by {
        if i < n {
            assert(src[i] == q[i]);
        } else {
            assert(dest[i - n] == q[i]);
        }
    }
    assert(src.contains(src[n - 1]));
    assert(dest.contains(dest[0]));
    assert forall|i: int| 0 <= i < src.len() implies !dest.contains(#[trigger] src[i]) by {}
    if n >= 2 {
        assert(linked(src[n - 1 - 1], src[n - 1]));
    }
    if dest.len() >= 2 {
        assert(linked(dest[1 - 1], dest[1]));
    }
    lemma_lead_in_route(src, dest);
}

/// A route laid over the end of another from index `p` on, where what comes
/// before `p` shares no cell with it and the moves take turns at the joint,
/// makes a route.
proof fn lemma_overlap_is_route(src: Seq<Step>, dest: Seq<Step>, p: int)
    requires
        is_route(src),
        is_route(dest),
        overlaps_at(src, dest, p),
        !shares_cell(src.subrange(0, p), dest),
        overlap_turns(src, dest, p),
    ensures
        is_route(src.subrange(0, p) + dest),
        occurs_at(src.subrange(0, p) + dest, src, 0),
        occurs_at(src.subrange(0, p) + dest, dest, p),
        forall|i: int|
            0 <= i < (src.subrange(0, p) + dest).len() ==> src.contains(
                #[trigger] (src.subrange(0, p) + dest)[i],
            ) || dest.contains((src.subrange(0, p) + dest)[i]),
{
    let lead = src.subrange(0, p);
    let q = lead + dest;
    let n = src.len() as int;
    let tail = src.subrange(p, n);
    assert forall|i: int| 0 <= i < q.len() implies src.contains(#[trigger] q[i]) || dest.contains(
        q[i],
    ) by {
        if i < p {
            assert(src[i] == q[i]);
        } else {
            assert(dest[i - p] == q[i]);
        }
    }
    assert(tail == dest.subrange(0, n - p));
    assert forall|k: int| 0 <= k < n - p implies src[p + k] == dest[k] by {
        assert(tail[k] == src[p + k]);
        assert(dest.subrange(0, n - p)[k] == dest[k]);
    }
    assert(q.subrange(0, 0 + n) =~= src) by {
        assert forall|k: int| 0 <= k < n implies q[k] == src[k] by {
            if k >= p {
                assert(src[p + (k - p)] == dest[k - p]);
            }
        }
    }
    assert(q.subrange(p, p + dest.len()) =~= dest);
    if p == 0 {
        assert(q =~= dest);
    } else {
        lemma_route_prefix(src, p);
        assert forall|i: int| 0 <= i < lead.len() implies !dest.contains(#[trigger] lead[i]) by {}
        assert(src[p + 0] == dest[0]);
        assert(linked(src[p - 1], src[p]));
        if p >= 2 {
            assert(is_horizontal(src[p - 2], src[p - 1]) != is_horizontal(src[p - 1], src[p]));
        }
        if dest.len() >= 2 && n - p > 1 {
            assert(src[p + 1] == dest[1]);
            assert(is_horizontal(src[p + 1 - 2], src[p + 1 - 1]) != is_horizontal(
                src[p + 1 - 1],
                src[p + 1],
            ));
        }
        lemma_lead_in_route(lead, dest);
    }
}

/// What the joining rule makes of two routes is a route that fits the
/// buffer, starts with the first and ends with the second, and has no pick
/// that is not a pick of one of them.
pub proof fn lemma_join_is_route(src: Seq<Step>, dest: Seq<Step>, limit: int, q: Seq<Step>)
    requires
        is_route(src),
        is_route(dest),
        joins_to(src, dest, limit, q),
    ensures
        is_route(q),
        q.len() <= limit,
        occurs_at(q, src, 0),
        occurs_at(q, dest, q.len() - dest.len()),
        forall|i: int| 0 <= i < q.len() ==> src.contains(#[trigger] q[i]) || dest.contains(q[i]),
{
    if forall|p: int| !#[trigger] overlaps_at(src, dest, p) {
        lemma_concat_is_route(src, dest);
    } else {
        let p = choose|p: int|
            {
                &&& #[trigger] is_union_point(src, dest, p)
                &&& !shares_cell(src.subrange(0, p), dest)
                &&& p + dest.len() <= limit
                &&& overlap_turns(src, dest, p)
                &&& q == src.subrange(0, p) + dest
            };
        lemma_overlap_is_route(src, dest, p);
    }
}

/// Tells whether one of the first `upto` picks of `a` is a pick of `b`.
fn shares_cell_before(a: &[Step], upto: usize, b: &[Step]) -> (r: bool)
    requires
        upto <= a@.len(),
    ensures
        r == shares_cell(a@.subrange(0, upto as int), b@),
{
    let mut i: usize = 0;
    while i < upto
        invariant
            i <= upto <= a@.len(),
            forall|k: int| 0 <= k < i ==> !b@.contains(a@[k]),
        decreases upto - i,
    {
        if contains_step(b, a[i]) {
            assert(a@.subrange(0, upto as int)[i as int] == a@[i as int]);
            return true;
        }
        i += 1;
    }
    proof {
        assert forall|k: int| 0 <= k < upto implies !b@.contains(
            #[trigger] a@.subrange(0, upto as int)[k],
        ) by {}
    }
    false
}

/// Joins two routes by the joining rule, if it applies.
pub fn join_routes(src: &[Step], dest: &[Step], step_limit: usize) -> (r: Option<Vec<Step>>)
    requires
        src@.len() > 0,
        dest@.len() > 0,
        !is_part_of_spec(src@, dest@),
    ensures
        match r {
            Some(q) => joins_to(src@, dest@, step_limit as int, q@),
            None => forall|q: Seq<Step>| !joins_to(src@, dest@, step_limit as int, q),
        },
{
    proof {
        lemma_step_eq();
    }
    let src_len: usize = src.len();
    let dest_len: usize = dest.len();
    match union_point(src, dest) {
        Some(p) => {
            proof {
                assert(is_union_point(src@, dest@, p as int));
                assert forall|other: int| #[trigger] is_union_point(src@, dest@, other) implies other
                    == p by {
                    if other < p {
                        assert(overlaps_at(src@, dest@, other));
                    } else if p < other {
                        assert(overlaps_at(src@, dest@, p as int));
                    }
                }
            }
            if shares_cell_before(src, p, dest) {
                return None;
            }
            if dest_len > step_limit || p > step_limit - dest_len {
                return None;
            }
            let good_direction = if src_len - p > 1 {
                true
            } else {
                src_len <= 1 || dest_len <= 1 || is_horizontal_step(
                    &src[src_len - 2],
                    &src[src_len - 1],
                ) != is_horizontal_step(&dest[0], &dest[1])
            };
            if good_direction {
                let head = slice_subrange(src, 0, p);
                Some(new_vec(head, dest))
            } else {
                None
            }
        },
        None => {
            proof {
                assert(src@.subrange(0, src_len as int) =~= src@);
                assert forall|other: int| !#[trigger] is_union_point(src@, dest@, other) by {}
            }
            if shares_cell_before(src, src_len, dest) {
                return None;
            }
            if dest_len > step_limit || src_len > step_limit - dest_len {
                return None;
            }
            let last = src[src_len - 1];
            let first = dest[0];
            let no_additional_steps = if last.x == first.x {
                (src_len <= 1 || is_horizontal_step(&src[src_len - 2], &src[src_len - 1])) && (
                dest_len <= 1 || is_horizontal_step(&dest[0], &dest[1]))
            } else if last.y == first.y {
                (src_len <= 1 || !is_horizontal_step(&src[src_len - 2], &src[src_len - 1])) && (
                dest_len <= 1 || !is_horizontal_step(&dest[0], &dest[1]))
            } else {
                false
            };
            if no_additional_steps {
                Some(new_vec(src, dest))
            } else {
                None
            }
        },
    }
}

/// The joining rule gives at most one path.
pub proof fn lemma_join_unique(src: Seq<Step>, dest: Seq<Step>, limit: int, q1: Seq<Step>, q2: Seq<Step>)
    requires
        joins_to(src, dest, limit, q1),
        joins_to(src, dest, limit, q2),
    ensures
        q1 == q2,
{
    if exists|p: int| #[trigger] is_union_point(src, dest, p) {
        let p = choose|p: int| #[trigger] is_union_point(src, dest, p);
        assert(overlaps_at(src, dest, p));
        assert forall|other: int| #[trigger] is_union_point(src, dest, other) implies other == p by {
            if other < p {
                assert(overlaps_at(src, dest, other));
            } else if p < other {
                assert(overlaps_at(src, dest, p));
            }
        }
    }
}

/// The flags that are set in `a` or in `b`.
pub open spec fn either_flags(a: Seq<bool>, b: Seq<bool>) -> Seq<bool> {
    Seq::new(a.len(), |k: int| a[k] || b[k])
}

/// The solution claims daemon `k`.
pub open spec fn claims(s: Solution, k: int) -> bool {
    0 <= k < s.conditions@.len() && s.conditions@[k]
}

/// Some solution of the list takes the path `q`.
pub open spec fn takes(list: Seq<Solution>, q: Seq<Step>) -> bool {
    exists|m: int| 0 <= m < list.len() && (#[trigger] list[m]).steps@ == q
}

/// Every daemon that `flags` claims for the path `steps` is claimed by a
/// solution of `base` whose path is a piece of `steps`.
pub open spec fn grounded(base: Seq<Solution>, steps: Seq<Step>, flags: Seq<bool>) -> bool {
    forall|k: int|
        0 <= k < flags.len() && #[trigger] flags[k] ==> exists|j: int|
            0 <= j < base.len() && claims(#[trigger] base[j], k) && is_part_of_spec(
                steps,
                base[j].steps@,
            )
}

/// Some solution of `base` has a path that is a piece of `steps`, and no
/// claim beyond `flags`.
pub open spec fn descends(base: Seq<Solution>, steps: Seq<Step>, flags: Seq<bool>) -> bool {
    exists|j: int|
        0 <= j < base.len() && is_part_of_spec(steps, (#[trigger] base[j]).steps@) && widens(
            base[j].conditions@,
            flags,
        )
}

/// Every pick of `steps` is a pick of some solution of `base`.
pub open spec fn made_of(base: Seq<Solution>, steps: Seq<Step>) -> bool {
    forall|i: int|
        0 <= i < steps.len() ==> exists|j: int|
            0 <= j < base.len() && (#[trigger] base[j]).steps@.contains(#[trigger] steps[i])
}

/// A solution that merging may hold: its path is a route made of picks of
/// `base`, it has a flag for each of the `n` daemons, its claims are grounded
/// in `base`, and it descends from a solution of `base`.
pub open spec fn is_sound(base: Seq<Solution>, s: Solution, n: int) -> bool {
    &&& is_route(s.steps@)
    &&& s.conditions@.len() == n
    &&& grounded(base, s.steps@, s.conditions@)
    &&& descends(base, s.steps@, s.conditions@)
    &&& made_of(base, s.steps@)
}

/// Every solution is a route with a flag for each of the `n` daemons.
pub open spec fn is_base(base: Seq<Solution>, n: int) -> bool {
    forall|m: int|
        0 <= m < base.len() ==> is_route((#[trigger] base[m]).steps@) && base[m].conditions@.len()
            == n
}

/// `list` is what merging can make of `base`: the solutions of `base` with
/// their paths, in their places and with no claim lost, followed by sound
/// solutions that fit the buffer; all of them sound.
pub open spec fn grows_from(base: Seq<Solution>, list: Seq<Solution>, limit: int, n: int) -> bool {
    &&& base.len() <= list.len()
    &&& forall|m: int| 0 <= m < list.len() ==> is_sound(base, #[trigger] list[m], n)
    &&& forall|m: int|
        0 <= m < base.len() ==> (#[trigger] list[m]).steps@ == base[m].steps@ && widens(
            base[m].conditions@,
            list[m].conditions@,
        )
    &&& forall|m: int| base.len() <= m < list.len() ==> (#[trigger] list[m]).steps@.len() <= limit
    &&& forall|m: int| base.len() <= m < list.len() ==> #[trigger] is_joined(list, m, limit)
}

/// Solution `m` of the list was added by merging: its path is what the
/// joining rule makes of the paths of two solutions before it, and no
/// solution before it takes this path.
pub open spec fn is_joined(list: Seq<Solution>, m: int, limit: int) -> bool {
    &&& exists|i: int, j: int|
        0 <= i < m && 0 <= j < m && i != j && #[trigger] joins_to(
            list[i].steps@,
            list[j].steps@,
            limit,
            list[m].steps@,
        )
    &&& !takes(list.subrange(0, m), list[m].steps@)
}

/// Whether a solution was added by merging depends on the paths up to it
/// alone.
proof fn lemma_joined_kept(list: Seq<Solution>, after: Seq<Solution>, m: int, limit: int)
    requires
        is_joined(list, m, limit),
        0 <= m < list.len(),
        m < after.len(),
        forall|k: int| 0 <= k <= m ==> (#[trigger] after[k]).steps@ == list[k].steps@,
    ensures
        is_joined(after, m, limit),
{
    let (i, j) = choose|i: int, j: int|
        0 <= i < m && 0 <= j < m && i != j && #[trigger] joins_to(
            list[i].steps@,
            list[j].steps@,
            limit,
            list[m].steps@,
        );
    assert(joins_to(after[i].steps@, after[j].steps@, limit, after[m].steps@));
    if takes(after.subrange(0, m), after[m].steps@) {
        let k = choose|k: int|
            0 <= k < after.subrange(0, m).len() && (#[trigger] after.subrange(0, m)[k]).steps@
                == after[m].steps@;
        assert(list.subrange(0, m)[k].steps@ == list[m].steps@);
    }
}

/// Nothing is left to do for the ordered pair of solutions `i` and `j`: if
/// their claims differ, then where the path of `j` is a piece of the path of
/// `i`, solution `i` claims all that `j` claims, and the path that the joining
/// rule makes of the two, if any, is taken by a solution of the list.
pub open spec fn closed_pair(list: Seq<Solution>, i: int, j: int, limit: int) -> bool {
    list[i].conditions@ != list[j].conditions@ ==> {
        &&& is_part_of_spec(list[i].steps@, list[j].steps@) ==> either_flags(
            list[i].conditions@,
            list[j].conditions@,
        ) == list[i].conditions@
        &&& forall|q: Seq<Step>| #[trigger]
            joins_to(list[i].steps@, list[j].steps@, limit, q) ==> takes(list, q)
    }
}

/// Nothing is left to do for any ordered pair of different solutions.
#[verifier::opaque]
pub open spec fn is_saturated(list: Seq<Solution>, limit: int) -> bool {
    forall|i: int, j: int|
        0 <= i < list.len() && 0 <= j < list.len() && i != j ==> #[trigger] closed_pair(
            list,
            i,
            j,
            limit,
        )
}

/// The pairs that a pass has gone through so far, with `n` solutions in
/// reach, up to the pair of `i` and `j`, are closed.
pub open spec fn closed_upto(list: Seq<Solution>, n: int, i: int, j: int, limit: int) -> bool {
    forall|a: int, b: int|
        0 <= a < n && 0 <= b < n && a != b && (a < i || (a == i && b < j)) ==> #[trigger] closed_pair(
            list,
            a,
            b,
            limit,
        )
}

/// How far a pass has come towards its end: no path was given back, and if
/// none was taken, no claim was; when something changed, a path was taken or
/// a claim was made. `pending` stands for the list with the claims that are
/// still to be written back.
pub open spec fn has_progress(
    list: Seq<Solution>,
    pending: Seq<Solution>,
    limit: nat,
    paths0: nat,
    claims0: nat,
    changed: bool,
) -> bool {
    &&& paths_left(list, limit) <= paths0
    &&& paths_left(list, limit) < paths0 || claims_left(pending) <= claims0
    &&& changed ==> paths_left(list, limit) < paths0 || claims_left(pending) < claims0
}

/// Solution `m` of the list was joined of the solutions `i` and `j` before
/// it, when these had the claims `a` and `b`: its path is what the joining
/// rule makes of their paths, the claims `a` and `b` were different claims
/// that descend from `base`, the two solutions have not lost them since, and
/// solution `m` has the claims of both.
pub open spec fn is_join_of(
    base: Seq<Solution>,
    list: Seq<Solution>,
    m: int,
    limit: int,
    i: int,
    j: int,
    a: Seq<bool>,
    b: Seq<bool>,
) -> bool {
    &&& 0 <= i < m && 0 <= j < m && i != j
    &&& joins_to(list[i].steps@, list[j].steps@, limit, list[m].steps@)
    &&& a != b
    &&& descends(base, list[i].steps@, a)
    &&& descends(base, list[j].steps@, b)
    &&& widens(a, list[i].conditions@)
    &&& widens(b, list[j].conditions@)
    &&& widens(either_flags(a, b), list[m].conditions@)
}

/// Solution `m` of the list was joined of two solutions before it that had
/// different claims.
pub open spec fn has_join(base: Seq<Solution>, list: Seq<Solution>, m: int, limit: int) -> bool {
    exists|i: int, j: int, a: Seq<bool>, b: Seq<bool>| #[trigger]
        is_join_of(base, list, m, limit, i, j, a, b)
}

/// Every solution of the list beyond `base` was joined of two solutions
/// before it that had different claims: nothing is added for two solutions
/// with the same claims.
pub open spec fn adds_joins(base: Seq<Solution>, list: Seq<Solution>, limit: int) -> bool {
    forall|m: int| base.len() <= m < list.len() ==> #[trigger] has_join(base, list, m, limit)
}

/// What was joined stays joined while paths stay and claims grow.
proof fn lemma_joins_kept(base: Seq<Solution>, list: Seq<Solution>, after: Seq<Solution>, limit: int)
    requires
        adds_joins(base, list, limit),
        after.len() == list.len(),
        forall|k: int|
            0 <= k < list.len() ==> (#[trigger] after[k]).steps@ == list[k].steps@ && widens(
                list[k].conditions@,
                after[k].conditions@,
            ),
    ensures
        adds_joins(base, after, limit),
{
    assert forall|m: int| base.len() <= m < after.len() implies #[trigger] has_join(
        base,
        after,
        m,
        limit,
    ) by {
        assert(has_join(base, list, m, limit));
        let (i, j, a, b) = choose|i: int, j: int, a: Seq<bool>, b: Seq<bool>| #[trigger]
            is_join_of(base, list, m, limit, i, j, a, b);
        assert(after[i].steps@ == list[i].steps@ && widens(
            list[i].conditions@,
            after[i].conditions@,
        ));
        assert(after[j].steps@ == list[j].steps@ && widens(
            list[j].conditions@,
            after[j].conditions@,
        ));
        assert(after[m].steps@ == list[m].steps@ && widens(
            list[m].conditions@,
            after[m].conditions@,
        ));
        assert(is_join_of(base, after, m, limit, i, j, a, b));
    }
}

/// What was joined stays joined when the solution at work changes for one
/// with the same path and claims that have grown.
proof fn lemma_joins_kept_at(
    base: Seq<Solution>,
    list: Seq<Solution>,
    i: int,
    src0: Solution,
    src1: Solution,
    limit: int,
)
    requires
        0 <= i < list.len(),
        adds_joins(base, list.update(i, src0), limit),
        src1.steps@ == src0.steps@,
        widens(src0.conditions@, src1.conditions@),
    ensures
        adds_joins(base, list.update(i, src1), limit),
{
    let before = list.update(i, src0);
    let after = list.update(i, src1);
    assert forall|k: int| 0 <= k < before.len() implies (#[trigger] after[k]).steps@
        == before[k].steps@ && widens(before[k].conditions@, after[k].conditions@) by {
        if k != i {
            assert(after[k] == before[k]);
        }
    }
    lemma_joins_kept(base, before, after, limit);
}

/// A solution that is added for the solution at work and another with
/// different claims was joined of the two.
proof fn lemma_joins_pushed(
    base: Seq<Solution>,
    list: Seq<Solution>,
    limit: int,
    n: int,
    i: int,
    j: int,
    src: Solution,
    joined: Solution,
)
    requires
        0 <= i < list.len(),
        0 <= j < list.len(),
        i != j,
        adds_joins(base, list.update(i, src), limit),
        is_sound(base, src, n),
        is_sound(base, list[j], n),
        src.conditions@ != list[j].conditions@,
        joins_to(src.steps@, list[j].steps@, limit, joined.steps@),
        joined.conditions@ == either_flags(src.conditions@, list[j].conditions@),
    ensures
        adds_joins(base, list.push(joined).update(i, src), limit),
{
    let before = list.update(i, src);
    let after = list.push(joined).update(i, src);
    let m0 = list.len() as int;
    assert forall|m: int| base.len() <= m < after.len() implies #[trigger] has_join(
        base,
        after,
        m,
        limit,
    ) by {
        if m < m0 {
            assert(has_join(base, before, m, limit));
            let (x, y, a, b) = choose|x: int, y: int, a: Seq<bool>, b: Seq<bool>| #[trigger]
                is_join_of(base, before, m, limit, x, y, a, b);
            assert(after[x] == before[x] && after[y] == before[y] && after[m] == before[m]);
            assert(is_join_of(base, after, m, limit, x, y, a, b));
        } else {
            let a = src.conditions@;
            let b = list[j].conditions@;
            assert(after[i] == src && after[j] == list[j] && after[m] == joined);
            assert(is_join_of(base, after, m, limit, i, j, a, b));
        }
    }
}

/// Every solution is a piece of itself, so a base is grounded in itself.
proof fn lemma_base_grows(base: Seq<Solution>, limit: int, n: int)
    requires
        is_base(base, n),
    ensures
        grows_from(base, base, limit, n),
{
    assert forall|m: int| 0 <= m < base.len() implies is_sound(base, #[trigger] base[m], n) by {
        let s = base[m];
        assert(s.steps@.subrange(0, 0 + s.steps@.len() as int) =~= s.steps@);
        assert(occurs_at(s.steps@, s.steps@, 0));
        assert forall|k: int| 0 <= k < s.conditions@.len() && #[trigger] s.conditions@[k] implies exists|
            j: int,
        |
            0 <= j < base.len() && claims(#[trigger] base[j], k) && is_part_of_spec(
                s.steps@,
                base[j].steps@,
            ) by {
            assert(claims(base[m], k));
        }
        assert(is_part_of_spec(s.steps@, base[m].steps@) && widens(
            base[m].conditions@,
            s.conditions@,
        ));
        assert forall|i: int| 0 <= i < s.steps@.len() implies exists|j: int|
            0 <= j < base.len() && (#[trigger] base[j]).steps@.contains(
                #[trigger] s.steps@[i],
            ) by {
            assert(base[m].steps@.contains(s.steps@[i]));
        }
    }
}

/// A route keeps its grounds when it takes over the claims of a piece of it.
proof fn lemma_widen_grounded(
    base: Seq<Solution>,
    steps: Seq<Step>,
    flags: Seq<bool>,
    part: Seq<Step>,
    part_flags: Seq<bool>,
)
    requires
        grounded(base, steps, flags),
        grounded(base, part, part_flags),
        is_part_of_spec(steps, part),
        flags.len() == part_flags.len(),
    ensures
        grounded(base, steps, either_flags(flags, part_flags)),
{
    let both = either_flags(flags, part_flags);
    assert forall|k: int| 0 <= k < both.len() && #[trigger] both[k] implies exists|j: int|
        0 <= j < base.len() && claims(#[trigger] base[j], k) && is_part_of_spec(
            steps,
            base[j].steps@,
        ) by {
        if flags[k] {
        } else {
            assert(part_flags[k]);
            let j = choose|j: int|
                0 <= j < base.len() && claims(#[trigger] base[j], k) && is_part_of_spec(
                    part,
                    base[j].steps@,
                );
            lemma_part_of_part(steps, part, base[j].steps@);
        }
    }
}

/// A joined route has the grounds of the two routes it was made of.
proof fn lemma_join_grounded(
    base: Seq<Solution>,
    src: Seq<Step>,
    src_flags: Seq<bool>,
    dest: Seq<Step>,
    dest_flags: Seq<bool>,
    q: Seq<Step>,
)
    requires
        grounded(base, src, src_flags),
        grounded(base, dest, dest_flags),
        is_part_of_spec(q, src),
        is_part_of_spec(q, dest),
        src_flags.len() == dest_flags.len(),
    ensures
        grounded(base, q, either_flags(src_flags, dest_flags)),
{
    let both = either_flags(src_flags, dest_flags);
    assert forall|k: int| 0 <= k < both.len() && #[trigger] both[k] implies exists|j: int|
        0 <= j < base.len() && claims(#[trigger] base[j], k) && is_part_of_spec(
            q,
            base[j].steps@,
        ) by {
        if src_flags[k] {
            let j = choose|j: int|
                0 <= j < base.len() && claims(#[trigger] base[j], k) && is_part_of_spec(
                    src,
                    base[j].steps@,
                );
            lemma_part_of_part(q, src, base[j].steps@);
        } else {
            assert(dest_flags[k]);
            let j = choose|j: int|
                0 <= j < base.len() && claims(#[trigger] base[j], k) && is_part_of_spec(
                    dest,
                    base[j].steps@,
                );
            lemma_part_of_part(q, dest, base[j].steps@);
        }
    }
}

/// Closed pairs stay closed when a solution is replaced by one with the same
/// path and the same claims.
proof fn lemma_closed_kept(list: Seq<Solution>, n: int, i: int, j: int, limit: int, at: int, s: Solution)
    requires
        closed_upto(list, n, i, j, limit),
        n <= list.len(),
        0 <= at < list.len(),
        s.steps@ == list[at].steps@,
        s.conditions@ == list[at].conditions@,
    ensures
        closed_upto(list.update(at, s), n, i, j, limit),
{
    let after = list.update(at, s);
    assert forall|a: int, b: int|
        0 <= a < n && 0 <= b < n && a != b && (a < i || (a == i && b < j)) implies #[trigger] closed_pair(
        after,
        a,
        b,
        limit,
    ) by {
        assert(closed_pair(list, a, b, limit));
        assert(after[a].steps@ == list[a].steps@ && after[a].conditions@ == list[a].conditions@);
        assert(after[b].steps@ == list[b].steps@ && after[b].conditions@ == list[b].conditions@);
        assert forall|q: Seq<Step>| takes(list, q) implies takes(after, q) by {
            let m = choose|m: int| 0 <= m < list.len() && (#[trigger] list[m]).steps@ == q;
            assert(after[m].steps@ == q);
        }
    }
}

/// Tells whether two paths are the same.
fn same_steps(a: &[Step], b: &[Step]) -> (r: bool)
    ensures
        r == (a@ == b@),
{
    if a.len() != b.len() {
        return false;
    }
    let mut k: usize = 0;
    while k < a.len()
        invariant
            k <= a@.len(),
            a@.len() == b@.len(),
            forall|m: int| 0 <= m < k ==> a@[m] == b@[m],
        decreases a@.len() - k,
    {
        if a[k].x != b[k].x || a[k].y != b[k].y {
            return false;
        }
        k += 1;
    }
    proof {
        assert(a@ =~= b@);
    }
    true
}

/// Sets in `src` every flag that is set in `dest`, and tells whether a flag
/// changed.
fn widen_flags(src: &mut Vec<bool>, dest: &Vec<bool>) -> (changed: bool)
    requires
        old(src)@.len() == dest@.len(),
    ensures
        final(src)@ == either_flags(old(src)@, dest@),
        changed == (final(src)@ != old(src)@),
{
    let ghost before = src@;
    let mut changed = false;
    let mut k: usize = 0;
    while k < dest.len()
        invariant
            k <= dest@.len(),
            src@.len() == dest@.len(),
            before.len() == dest@.len(),
            forall|m: int| #![trigger src@[m]] 0 <= m < k ==> src@[m] == (before[m] || dest@[m]),
            forall|m: int| #![trigger src@[m]] k <= m < src@.len() ==> src@[m] == before[m],
            changed == exists|m: int| #![trigger src@[m]] 0 <= m < k && src@[m] != before[m],
        decreases dest@.len() - k,
    {
        let ghost prev = src@;
        if !src[k] && dest[k] {
            src.set(k, true);
            changed = true;
            assert(src@[k as int] != before[k as int]);
            assert forall|m: int| #![trigger src@[m]] 0 <= m < k + 1 implies src@[m] == (before[m]
                || dest@[m]) by {
                if m < k {
                    assert(src@[m] == prev[m]);
                }
            }
        } else {
            proof {
                if exists|m: int| #![trigger src@[m]] 0 <= m < k + 1 && src@[m] != before[m] {
                    let m = choose|m: int| #![trigger src@[m]] 0 <= m < k + 1 && src@[m] != before[m];
                    assert(m < k);
                }
            }
        }
        k += 1;
    }
    proof {
        assert(src@ =~= either_flags(before, dest@));
        if src@ == before {
            assert(!changed);
        } else {
            assert(!(src@ =~= before));
        }
    }
    changed
}

/// The flags that are set in `a` or in `b`, as a vector of its own.
fn either(a: &Vec<bool>, b: &Vec<bool>) -> (r: Vec<bool>)
    requires
        a@.len() == b@.len(),
    ensures
        r@ == either_flags(a@, b@),
{
    let mut r: Vec<bool> = Vec::with_capacity(a.len());
    let mut k: usize = 0;
    while k < a.len()
        invariant
            k <= a@.len(),
            a@.len() == b@.len(),
            r@.len() == k,
            forall|m: int| 0 <= m < k ==> r@[m] == (a@[m] || b@[m]),
        decreases a@.len() - k,
    {
        r.push(a[k] || b[k]);
        k += 1;
    }
    proof {
        assert(r@ =~= either_flags(a@, b@));
    }
    r
}

/// Tells whether a solution of the list takes the path.
fn has_path(list: &Vec<Solution>, path: &[Step]) -> (r: bool)
    ensures
        r == takes(list@, path@),
{
    let mut m: usize = 0;
    while m < list.len()
        invariant
            m <= list@.len(),
            forall|k: int| 0 <= k < m ==> (#[trigger] list@[k]).steps@ != path@,
        decreases list@.len() - m,
    {
        if same_steps(list[m].steps.as_slice(), path) {
            return true;
        }
        m += 1;
    }
    false
}

/// Copies a solution.
fn copy_solution(s: &Solution) -> (r: Solution)
    ensures
        r.steps@ == s.steps@,
        r.conditions@ == s.conditions@,
{
    Solution { steps: copy_steps(s.steps.as_slice()), conditions: copy_flags(&s.conditions) }
}

/// The number of daemons that the solutions of a list have flags for: that
/// of the first solution.
pub open spec fn flag_count(list: Seq<Solution>) -> int {
    if list.len() > 0 {
        list[0].conditions@.len() as int
    } else {
        0
    }
}

/// After the claims of a piece were taken over: the solution at work is
/// still sound, and the pass has come no less far.
proof fn lemma_after_widen(
    base: Seq<Solution>,
    list: Seq<Solution>,
    limit: nat,
    n: int,
    i: int,
    j: int,
    src0: Solution,
    src1: Solution,
    paths0: nat,
    claims0: nat,
    changed: bool,
)
    requires
        grows_from(base, list, limit as int, n),
        0 <= i < list.len(),
        0 <= j < list.len(),
        is_sound(base, src0, n),
        widens(list[i].conditions@, src0.conditions@),
        is_part_of_spec(src0.steps@, list[j].steps@),
        src1.steps@ == src0.steps@,
        src1.conditions@ == either_flags(src0.conditions@, list[j].conditions@),
        has_progress(list, list.update(i, src0), limit, paths0, claims0, changed),
    ensures
        is_sound(base, src1, n),
        widens(list[i].conditions@, src1.conditions@),
        has_progress(
            list,
            list.update(i, src1),
            limit,
            paths0,
            claims0,
            changed || src1.conditions@ != src0.conditions@,
        ),
{
    let dest = list[j];
    assert(is_sound(base, dest, n));
    lemma_widen_grounded(base, src0.steps@, src0.conditions@, dest.steps@, dest.conditions@);
    lemma_update_claims(list, i, src0);
    lemma_update_claims(list, i, src1);
    assert(widens(src0.conditions@, src1.conditions@));
    lemma_widens_unset(src0.conditions@, src1.conditions@);
    let a = choose|a: int|
        0 <= a < base.len() && is_part_of_spec(src0.steps@, (#[trigger] base[a]).steps@) && widens(
            base[a].conditions@,
            src0.conditions@,
        );
    assert(widens(base[a].conditions@, src1.conditions@));
}

/// After a joined route was added: the list still grows from its base, and
/// the pass has come further.
proof fn lemma_after_push(
    base: Seq<Solution>,
    list: Seq<Solution>,
    limit: nat,
    n: int,
    i: int,
    j: int,
    src: Solution,
    joined: Solution,
    paths0: nat,
    claims0: nat,
)
    requires
        grows_from(base, list, limit as int, n),
        0 <= i < list.len(),
        0 <= j < list.len(),
        is_sound(base, src, n),
        i != j,
        src.steps@ == list[i].steps@,
        joins_to(src.steps@, list[j].steps@, limit as int, joined.steps@),
        !takes(list, joined.steps@),
        joined.conditions@ == either_flags(src.conditions@, list[j].conditions@),
        paths_left(list, limit) <= paths0,
    ensures
        grows_from(base, list.push(joined), limit as int, n),
        has_progress(list.push(joined), list.push(joined).update(i, src), limit, paths0, claims0, true),
{
    let dest = list[j];
    let after = list.push(joined);
    assert(is_sound(base, dest, n));
    lemma_join_is_route(src.steps@, dest.steps@, limit as int, joined.steps@);
    assert(is_part_of_spec(joined.steps@, src.steps@));
    assert(is_part_of_spec(joined.steps@, dest.steps@));
    lemma_join_grounded(
        base,
        src.steps@,
        src.conditions@,
        dest.steps@,
        dest.conditions@,
        joined.steps@,
    );
    let a = choose|a: int|
        0 <= a < base.len() && is_part_of_spec(src.steps@, (#[trigger] base[a]).steps@) && widens(
            base[a].conditions@,
            src.conditions@,
        );
    lemma_part_of_part(joined.steps@, src.steps@, base[a].steps@);
    assert(widens(base[a].conditions@, joined.conditions@));
    assert forall|k: int| 0 <= k < joined.steps@.len() implies exists|b: int|
        0 <= b < base.len() && (#[trigger] base[b]).steps@.contains(
            #[trigger] joined.steps@[k],
        ) by {
        let t = joined.steps@[k];
        if src.steps@.contains(t) {
            let x = choose|x: int| 0 <= x < src.steps@.len() && src.steps@[x] == t;
            let b = choose|b: int|
                0 <= b < base.len() && (#[trigger] base[b]).steps@.contains(
                    #[trigger] src.steps@[x],
                );
            assert(base[b].steps@.contains(t));
        } else {
            let x = choose|x: int| 0 <= x < dest.steps@.len() && dest.steps@[x] == t;
            let b = choose|b: int|
                0 <= b < base.len() && (#[trigger] base[b]).steps@.contains(
                    #[trigger] dest.steps@[x],
                );
            assert(base[b].steps@.contains(t));
        }
    }
    assert(is_sound(base, joined, n));
    assert forall|m: int| 0 <= m < after.len() implies is_sound(base, #[trigger] after[m], n) by {
        if m < list.len() {
            assert(after[m] == list[m]);
        }
    }
    assert forall|m: int| 0 <= m < base.len() implies (#[trigger] after[m]).steps@
        == base[m].steps@ && widens(base[m].conditions@, after[m].conditions@) by {
        assert(after[m] == list[m]);
    }
    assert forall|m: int| base.len() <= m < after.len() implies (#[trigger] after[m]).steps@.len()
        <= limit by {
        if m < list.len() {
            assert(after[m] == list[m]);
        }
    }
    assert forall|m: int| base.len() <= m < after.len() implies #[trigger] is_joined(
        after,
        m,
        limit as int,
    ) by {
        if m < list.len() {
            assert(is_joined(list, m, limit as int));
            lemma_joined_kept(list, after, m, limit as int);
        } else {
            assert(joins_to(after[i].steps@, after[j].steps@, limit as int, after[m].steps@));
            assert(after.subrange(0, m) =~= list);
        }
    }
    lemma_push_takes_path(list, joined, limit);
}

/// After the solution at work was written back: the list still grows from
/// its base, the pass has come as far as before, and what was closed is.
proof fn lemma_after_set(
    base: Seq<Solution>,
    list: Seq<Solution>,
    limit: nat,
    n: int,
    count: int,
    i: int,
    src: Solution,
    paths0: nat,
    claims0: nat,
    changed: bool,
)
    requires
        grows_from(base, list, limit as int, n),
        0 <= i < count <= list.len(),
        is_sound(base, src, n),
        src.steps@ == list[i].steps@,
        widens(list[i].conditions@, src.conditions@),
        has_progress(list, list.update(i, src), limit, paths0, claims0, changed),
        !changed ==> src.conditions@ == list[i].conditions@ && closed_upto(
            list,
            count,
            i,
            count,
            limit as int,
        ),
    ensures
        grows_from(base, list.update(i, src), limit as int, n),
        has_progress(list.update(i, src), list.update(i, src), limit, paths0, claims0, changed),
        !changed ==> closed_upto(list.update(i, src), count, i + 1, 0, limit as int),
{
    let after = list.update(i, src);
    assert forall|m: int| 0 <= m < after.len() implies is_sound(base, #[trigger] after[m], n) by {
        if m != i {
            assert(after[m] == list[m]);
        }
    }
    assert forall|m: int| 0 <= m < base.len() implies (#[trigger] after[m]).steps@
        == base[m].steps@ && widens(base[m].conditions@, after[m].conditions@) by {
        assert(list[m].steps@ == base[m].steps@ && widens(
            base[m].conditions@,
            list[m].conditions@,
        ));
        if m != i {
            assert(after[m] == list[m]);
        }
    }
    assert forall|m: int| base.len() <= m < after.len() implies (#[trigger] after[m]).steps@.len()
        <= limit by {
        assert(list[m].steps@.len() <= limit);
    }
    assert forall|m: int| base.len() <= m < after.len() implies #[trigger] is_joined(
        after,
        m,
        limit as int,
    ) by {
        assert(is_joined(list, m, limit as int));
        lemma_joined_kept(list, after, m, limit as int);
    }
    lemma_update_keeps_paths(list, i, src, limit);
    if !changed {
        lemma_closed_kept(list, count, i, count, limit as int, i, src);
        assert forall|a: int, b: int|
            0 <= a < count && 0 <= b < count && a != b && (a < i + 1 || (a == i + 1 && b < 0)) implies #[trigger] closed_pair(
            after,
            a,
            b,
            limit as int,
        ) by {}
    }
}

/// One more pair is closed, if it is.
proof fn lemma_closed_next(list: Seq<Solution>, count: int, i: int, j: int, limit: int)
    requires
        closed_upto(list, count, i, j, limit),
        i != j && 0 <= i < count && 0 <= j < count ==> closed_pair(list, i, j, limit),
    ensures
        closed_upto(list, count, i, j + 1, limit),
{
    assert forall|a: int, b: int|
        0 <= a < count && 0 <= b < count && a != b && (a < i || (a == i && b < j + 1)) implies #[trigger] closed_pair(
        list,
        a,
        b,
        limit,
    ) by {
        if a == i && b == j {
        } else {
            assert(a < i || (a == i && b < j));
        }
    }
}

/// Merges solutions until nothing new comes of it. For every ordered pair
/// of solutions with different claims: where the path of the second is a
/// piece of the path of the first, the first takes over its claims; where
/// the joining rule makes a path of the two that no solution takes yet, a
/// solution with that path and the claims of both is added at the end.
///
/// The solutions that were there stay in their places with their paths and
/// lose no claim. Every solution of the result is a route whose every claim
/// goes back to a solution that was there, claimed the same daemon and whose
/// path is a piece of the route. What is added fits the buffer, is what the
/// joining rule makes of two solutions before it that had different claims,
/// and has a path that no solution before it takes.
pub fn merge_solutions(solutions: &mut Vec<Solution>, step_limit: usize)
    requires
        is_base(old(solutions)@, flag_count(old(solutions)@)),
    ensures
        grows_from(
            old(solutions)@,
            final(solutions)@,
            step_limit as int,
            flag_count(old(solutions)@),
        ),
        adds_joins(old(solutions)@, final(solutions)@, step_limit as int),
        is_saturated(final(solutions)@, step_limit as int),
{
    let ghost base = solutions@;
    let ghost n = flag_count(base);
    let ghost limit = step_limit as nat;
    proof {
        lemma_base_grows(base, limit as int, n);
        lemma_step_eq();
    }
    let mut changed = true;
    while changed
        invariant
            limit == step_limit,
            grows_from(base, solutions@, limit as int, n),
            adds_joins(base, solutions@, limit as int),
            !changed ==> is_saturated(solutions@, limit as int),
        decreases
                paths_left(solutions@, limit),
                claims_left(solutions@),
                (if changed {
                    1int
                } else {
                    0int
                }),
    {
        changed = false;
        let ghost paths0 = paths_left(solutions@, limit);
        let ghost claims0 = claims_left(solutions@);
        let count: usize = solutions.len();
        let mut i: usize = 0;
        while i < count
            invariant
                limit == step_limit,
                i <= count <= solutions@.len(),
                grows_from(base, solutions@, limit as int, n),
                adds_joins(base, solutions@, limit as int),
                has_progress(solutions@, solutions@, limit, paths0, claims0, changed),
                !changed ==> solutions@.len() == count && closed_upto(
                    solutions@,
                    count as int,
                    i as int,
                    0,
                    limit as int,
                ),
            decreases count - i,
        {
            let mut src = copy_solution(&solutions[i]);
            let reach: usize = solutions.len();
            proof {
                assert(is_sound(base, solutions@[i as int], n));
                lemma_update_claims(solutions@, i as int, src);
                lemma_update_claims(solutions@, i as int, solutions@[i as int]);
                assert(solutions@.update(i as int, solutions@[i as int]) =~= solutions@);
                lemma_joins_kept_at(
                    base,
                    solutions@,
                    i as int,
                    solutions@[i as int],
                    src,
                    limit as int,
                );
            }
            let mut j: usize = 0;
            while j < reach
                invariant
                    limit == step_limit,
                    i < count <= reach <= solutions@.len(),
                    j <= reach,
                    grows_from(base, solutions@, limit as int, n),
                    adds_joins(base, solutions@.update(i as int, src), limit as int),
                    src.steps@ == solutions@[i as int].steps@,
                    widens(solutions@[i as int].conditions@, src.conditions@),
                    is_sound(base, src, n),
                    has_progress(
                        solutions@,
                        solutions@.update(i as int, src),
                        limit,
                        paths0,
                        claims0,
                        changed,
                    ),
                    !changed ==> solutions@.len() == count && reach == count && src.conditions@
                        == solutions@[i as int].conditions@ && closed_upto(
                        solutions@,
                        count as int,
                        i as int,
                        j as int,
                        limit as int,
                    ),
                decreases reach - j,
            {
                let ghost list = solutions@;
                let ghost was_changed = changed;
                let ghost src0 = src;
                if i != j {
                    let dest = &solutions[j];
                    proof {
                        assert(is_sound(base, list[j as int], n));
                        lemma_step_eq();
                    }
                    if !same_flags(&src.conditions, &dest.conditions) {
                        if is_part_of(src.steps.as_slice(), dest.steps.as_slice()) {
                            let widened = widen_flags(&mut src.conditions, &dest.conditions);
                            if widened {
                                changed = true;
                            }
                            proof {
                                lemma_after_widen(
                                    base,
                                    list,
                                    limit,
                                    n,
                                    i as int,
                                    j as int,
                                    src0,
                                    src,
                                    paths0,
                                    claims0,
                                    was_changed,
                                );
                                lemma_joins_kept_at(base, list, i as int, src0, src, limit as int);
                            }
                        } else {
                            match join_routes(
                                src.steps.as_slice(),
                                dest.steps.as_slice(),
                                step_limit,
                            ) {
                                Some(path) => {
                                    if !has_path(solutions, path.as_slice()) {
                                        let conditions = either(&src.conditions, &dest.conditions);
                                        let joined = Solution { steps: path, conditions };
                                        proof {
                                            lemma_after_push(
                                                base,
                                                list,
                                                limit,
                                                n,
                                                i as int,
                                                j as int,
                                                src,
                                                joined,
                                                paths0,
                                                claims0,
                                            );
                                            lemma_joins_pushed(
                                                base,
                                                list,
                                                limit as int,
                                                n,
                                                i as int,
                                                j as int,
                                                src,
                                                joined,
                                            );
                                        }
                                        solutions.push(joined);
                                        changed = true;
                                    } else {
                                        proof {
                                            assert forall|q: Seq<Step>| #[trigger]
                                                joins_to(
                                                    src.steps@,
                                                    list[j as int].steps@,
                                                    limit as int,
                                                    q,
                                                ) implies takes(list, q) by {
                                                lemma_join_unique(
                                                    src.steps@,
                                                    list[j as int].steps@,
                                                    limit as int,
                                                    q,
                                                    path@,
                                                );
                                            }
                                        }
                                    }
                                },
                                None => {},
                            }
                        }
                    }
                }
                proof {
                    if !changed {
                        lemma_closed_next(list, count as int, i as int, j as int, limit as int);
                    }
                }
                j += 1;
            }
            proof {
                lemma_after_set(
                    base,
                    solutions@,
                    limit,
                    n,
                    count as int,
                    i as int,
                    src,
                    paths0,
                    claims0,
                    changed,
                );
            }
            solutions.set(i, src);
            i += 1;
        }
        proof {
            if !changed {
                assert forall|a: int, b: int|
                    0 <= a < solutions@.len() && 0 <= b < solutions@.len() && a != b implies #[trigger] closed_pair(
                    solutions@,
                    a,
                    b,
                    limit as int,
                ) by {
                    assert(a < count);
                }
                reveal(is_saturated);
            }
        }
    }
}

} // verus!
