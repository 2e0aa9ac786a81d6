//! Ranking: of the solutions that claim the same daemons the shortest is
//! kept, and what is kept is ordered from the least to the most rewarding.

use vstd::prelude::*;
use crate::solver::Solution;
use crate::solver::flags::{copy_flags, same_flags};
use crate::solver::search::copy_steps;

verus! {

/// The number of flags that are set.
pub open spec fn count_set(flags: Seq<bool>) -> nat
    decreases flags.len(),
{
    if flags.len() == 0 {
        0
    } else {
        count_set(flags.drop_last()) + if flags.last() {
            1nat
        } else {
            0nat
        }
    }
}

/// The number of flags that both vectors have.
pub open spec fn common_len(a: Seq<bool>, b: Seq<bool>) -> int {
    if a.len() <= b.len() {
        a.len() as int
    } else {
        b.len() as int
    }
}

/// At the last place where the two vectors differ, within the length they
/// share, the flag of `b` is the one that is set.
pub open spec fn set_later(a: Seq<bool>, b: Seq<bool>) -> bool {
    exists|k: int|
        0 <= k < common_len(a, b) && !#[trigger] a[k] && b[k] && forall|m: int|
            k < m < common_len(a, b) ==> a[m] == b[m]
}

/// `a` ranks below `b`: it claims fewer daemons, or as many and, at the last
/// daemon where they differ, `b` has the claim.
pub open spec fn ranks_below(a: Seq<bool>, b: Seq<bool>) -> bool {
    count_set(a) < count_set(b) || (count_set(a) == count_set(b) && set_later(a, b))
}

/// All solutions have flags for the same number of daemons.
pub open spec fn is_uniform(list: Seq<Solution>) -> bool {
    forall|i: int, j: int|
        0 <= i < list.len() && 0 <= j < list.len() ==> (#[trigger] list[i]).conditions@.len() == (
        #[trigger] list[j]).conditions@.len()
}

/// Two solutions with the same path and the same claims.
pub open spec fn same_solution(a: Solution, b: Solution) -> bool {
    a.steps@ == b.steps@ && a.conditions@ == b.conditions@
}

/// Solution `m` is the one to keep of those with its claims: none of them is
/// shorter, and none of the same length comes before it.
pub open spec fn is_pick(list: Seq<Solution>, m: int) -> bool {
    &&& 0 <= m < list.len()
    &&& forall|k: int|
        0 <= k < list.len() && (#[trigger] list[k]).conditions@ == list[m].conditions@ ==> {
            ||| list[k].steps@.len() > list[m].steps@.len()
            ||| list[k].steps@.len() == list[m].steps@.len() && k >= m
        }
}

/// The solution `s` is, but for where it is stored, the pick of the
/// solutions of the list with its claims.
pub open spec fn is_kept(list: Seq<Solution>, s: Solution) -> bool {
    exists|m: int| #![trigger is_pick(list, m)] is_pick(list, m) && same_solution(s, list[m])
}

/// Some solution of the list has the given claims.
pub open spec fn has_claims(list: Seq<Solution>, claims: Seq<bool>) -> bool {
    exists|t: int| #![trigger list[t]] 0 <= t < list.len() && list[t].conditions@ == claims
}

/// `best` is the ranking of `list`: it holds, for each set of claims that
/// occurs in `list`, the pick of the solutions with these claims and nothing
/// else; and where all solutions have as many flags, it is in rising rank.
pub open spec fn is_ranking(list: Seq<Solution>, best: Seq<Solution>) -> bool {
    &&& forall|t: int| #![trigger best[t]] 0 <= t < best.len() ==> is_kept(list, best[t])
    &&& forall|m: int|
        #![trigger list[m]]
        0 <= m < list.len() ==> has_claims(best, list[m].conditions@)
    &&& forall|t: int, u: int|
        #![trigger best[t], best[u]]
        0 <= t < u < best.len() ==> best[t].conditions@ != best[u].conditions@
    &&& is_uniform(list) ==> forall|t: int, u: int|
        #![trigger best[t], best[u]]
        0 <= t < u < best.len() ==> ranks_below(best[t].conditions@, best[u].conditions@)
}

/// Two different vectors of the same length differ at a last place.
proof fn lemma_last_difference(a: Seq<bool>, b: Seq<bool>)
    requires
        a.len() == b.len(),
        a != b,
    ensures
        exists|k: int|
            0 <= k < a.len() && #[trigger] a[k] != b[k] && forall|m: int|
                k < m < a.len() ==> a[m] == b[m],
    decreases a.len(),
{
    if a.len() == 0 {
        assert(a =~= b);
    } else if a.last() != b.last() {
        assert(a[a.len() - 1] != b[a.len() - 1]);
    } else {
        if a.drop_last() == b.drop_last() {
            assert(a =~= a.drop_last().push(a.last()));
            assert(b =~= b.drop_last().push(b.last()));
        }
        lemma_last_difference(a.drop_last(), b.drop_last());
        let k = choose|k: int|
            0 <= k < a.len() - 1 && #[trigger] a.drop_last()[k] != b.drop_last()[k] && forall|
                m: int,
            |
                k < m < a.len() - 1 ==> a.drop_last()[m] == b.drop_last()[m];
        assert(a[k] != b[k]);
        assert forall|m: int| k < m < a.len() implies a[m] == b[m] by {
            if m < a.len() - 1 {
                assert(a.drop_last()[m] == b.drop_last()[m]);
            }
        }
    }
}

/// Of two different vectors of the same length one ranks below the other.
pub proof fn lemma_rank_total(a: Seq<bool>, b: Seq<bool>)
    requires
        a.len() == b.len(),
        a != b,
    ensures
        ranks_below(a, b) || ranks_below(b, a),
{
    lemma_last_difference(a, b);
    let k = choose|k: int|
        0 <= k < a.len() && #[trigger] a[k] != b[k] && forall|m: int|
            k < m < a.len() ==> a[m] == b[m];
    if !a[k] {
        assert(!a[k] && b[k]);
        assert(set_later(a, b));
    } else {
        assert(!b[k] && a[k]);
        assert(set_later(b, a));
    }
}

/// No vector ranks below itself, and of two vectors of the same length not
/// each ranks below the other.
pub proof fn lemma_rank_asymmetric(a: Seq<bool>, b: Seq<bool>)
    requires
        a.len() == b.len(),
    ensures
        !(ranks_below(a, b) && ranks_below(b, a)),
        !ranks_below(a, a),
{
    if set_later(a, b) && set_later(b, a) {
        let k1 = choose|k: int|
            0 <= k < common_len(a, b) && !#[trigger] a[k] && b[k] && forall|m: int|
                k < m < common_len(a, b) ==> a[m] == b[m];
        let k2 = choose|k: int|
            0 <= k < common_len(b, a) && !#[trigger] b[k] && a[k] && forall|m: int|
                k < m < common_len(b, a) ==> b[m] == a[m];
        if k1 < k2 {
            assert(a[k2] == b[k2]);
        } else if k2 < k1 {
            assert(b[k1] == a[k1]);
        }
    }
}

/// Ranking below is transitive among vectors of the same length.
pub proof fn lemma_rank_transitive(a: Seq<bool>, b: Seq<bool>, c: Seq<bool>)
    requires
        a.len() == b.len(),
        b.len() == c.len(),
        ranks_below(a, b),
        ranks_below(b, c),
    ensures
        ranks_below(a, c),
{
    if count_set(a) == count_set(b) && count_set(b) == count_set(c) {
        let k1 = choose|k: int|
            0 <= k < common_len(a, b) && !#[trigger] a[k] && b[k] && forall|m: int|
                k < m < common_len(a, b) ==> a[m] == b[m];
        let k2 = choose|k: int|
            0 <= k < common_len(b, c) && !#[trigger] b[k] && c[k] && forall|m: int|
                k < m < common_len(b, c) ==> b[m] == c[m];
        if k1 > k2 {
            assert(b[k1] == c[k1]);
            assert(!a[k1] && c[k1]);
            assert forall|m: int| k1 < m < common_len(a, c) implies a[m] == c[m] by {
                assert(a[m] == b[m] && b[m] == c[m]);
            }
        } else {
            assert(k1 != k2);
            assert(a[k2] == b[k2]);
            assert(!a[k2] && c[k2]);
            assert forall|m: int| k2 < m < common_len(a, c) implies a[m] == c[m] by {
                assert(a[m] == b[m] && b[m] == c[m]);
            }
        }
    }
}

/// The vectors are in rising rank.
pub open spec fn is_rising(keys: Seq<Seq<bool>>) -> bool {
    forall|i: int, j: int| 0 <= i < j < keys.len() ==> ranks_below(keys[i], keys[j])
}

/// Two lists of vectors of one length, both in rising rank and holding the
/// same vectors, are the same list.
proof fn lemma_rising_unique(a: Seq<Seq<bool>>, b: Seq<Seq<bool>>, n: nat)
    requires
        forall|i: int| 0 <= i < a.len() ==> (#[trigger] a[i]).len() == n,
        forall|i: int| 0 <= i < b.len() ==> (#[trigger] b[i]).len() == n,
        is_rising(a),
        is_rising(b),
        forall|i: int| 0 <= i < a.len() ==> b.contains(#[trigger] a[i]),
        forall|i: int| 0 <= i < b.len() ==> a.contains(#[trigger] b[i]),
    ensures
        a == b,
    decreases a.len(),
{
    if a.len() == 0 {
        if b.len() > 0 {
            assert(a.contains(b[0]));
        }
        assert(a =~= b);
    } else {
        let la = a.len() - 1;
        assert(b.contains(a[la]));
        let jb = choose|j: int| 0 <= j < b.len() && b[j] == a[la];
        let lb = b.len() - 1;
        assert(a.contains(b[lb]));
        let ia = choose|i: int| 0 <= i < a.len() && a[i] == b[lb];
        if jb < lb {
            // the last of `a` ranks below the last of `b`, which is in `a`
            assert(ranks_below(b[jb], b[lb]));
            if ia < la {
                assert(ranks_below(a[ia], a[la]));
            }
            lemma_rank_asymmetric(a[la], b[lb]);
        }
        assert(a[la] == b[lb]);
        let a0 = a.drop_last();
        let b0 = b.drop_last();
        assert forall|i: int| 0 <= i < a0.len() implies b0.contains(#[trigger] a0[i]) by {
            assert(b.contains(a[i]));
            let j = choose|j: int| 0 <= j < b.len() && b[j] == a[i];
            assert(ranks_below(a[i], a[la]));
            lemma_rank_asymmetric(a[i], a[la]);
            assert(j != lb);
            assert(b0[j] == a0[i]);
        }
        assert forall|i: int| 0 <= i < b0.len() implies a0.contains(#[trigger] b0[i]) by {
            assert(a.contains(b[i]));
            let j = choose|j: int| 0 <= j < a.len() && a[j] == b[i];
            assert(ranks_below(b[i], b[lb]));
            lemma_rank_asymmetric(b[i], b[lb]);
            assert(j != la);
            assert(a0[j] == b0[i]);
        }
        assert(is_rising(a0)) by {
            assert forall|i: int, j: int| 0 <= i < j < a0.len() implies ranks_below(
                a0[i],
                a0[j],
            ) by {
                assert(ranks_below(a[i], a[j]));
            }
        }
        assert(is_rising(b0)) by {
            assert forall|i: int, j: int| 0 <= i < j < b0.len() implies ranks_below(
                b0[i],
                b0[j],
            ) by {
                assert(ranks_below(b[i], b[j]));
            }
        }
        lemma_rising_unique(a0, b0, n);
        assert(a =~= a0.push(a[la]));
        assert(b =~= b0.push(b[lb]));
    }
}

/// The claims of the solutions of a list, one after another.
pub open spec fn claims_of(list: Seq<Solution>) -> Seq<Seq<bool>> {
    Seq::new(list.len(), |t: int| list[t].conditions@)
}

/// Ranking a ranking changes nothing: where all solutions have as many
/// flags, the ranking of the ranking of a list holds the same solutions in
/// the same order as the ranking of the list.
pub proof fn lemma_ranking_idempotent(list: Seq<Solution>, once: Seq<Solution>, twice: Seq<Solution>)
    requires
        is_uniform(list),
        is_ranking(list, once),
        is_ranking(once, twice),
    ensures
        twice.len() == once.len(),
        forall|t: int| 0 <= t < once.len() ==> same_solution(#[trigger] twice[t], once[t]),
{
    if once.len() == 0 {
        if twice.len() > 0 {
            assert(is_kept(once, twice[0]));
            let m = choose|m: int|
                #![trigger is_pick(once, m)]
                is_pick(once, m) && same_solution(twice[0], once[m]);
        }
    } else {
        lemma_same_order(list, once, twice);
    }
}

/// The step of `lemma_ranking_idempotent` for a ranking that is not empty.
proof fn lemma_same_order(list: Seq<Solution>, once: Seq<Solution>, twice: Seq<Solution>)
    requires
        is_uniform(list),
        is_ranking(list, once),
        is_ranking(once, twice),
        once.len() > 0,
    ensures
        twice.len() == once.len(),
        forall|t: int| 0 <= t < once.len() ==> same_solution(#[trigger] twice[t], once[t]),
{
    // every solution of the first ranking is one of the list
    assert forall|t: int| 0 <= t < once.len() implies exists|m: int|
        0 <= m < list.len() && same_solution(#[trigger] once[t], list[m]) by {
        assert(is_kept(list, once[t]));
        let m = choose|m: int|
            #![trigger is_pick(list, m)]
            is_pick(list, m) && same_solution(once[t], list[m]);
        assert(0 <= m < list.len() && same_solution(once[t], list[m]));
    }
    let n = once[0].conditions@.len();
    assert forall|t: int| 0 <= t < once.len() implies (#[trigger] once[t]).conditions@.len()
        == n by {
        let m = choose|m: int| 0 <= m < list.len() && same_solution(once[t], list[m]);
        let m0 = choose|m0: int| 0 <= m0 < list.len() && same_solution(once[0], list[m0]);
        assert(list[m].conditions@.len() == list[m0].conditions@.len());
    }
    assert(is_uniform(once));
    let a = claims_of(once);
    let b = claims_of(twice);
    assert forall|t: int| 0 <= t < twice.len() implies exists|m: int|
        0 <= m < once.len() && same_solution(#[trigger] twice[t], once[m]) by {
        assert(is_kept(once, twice[t]));
        let m = choose|m: int|
            #![trigger is_pick(once, m)]
            is_pick(once, m) && same_solution(twice[t], once[m]);
        assert(0 <= m < once.len() && same_solution(twice[t], once[m]));
    }
    assert forall|i: int| 0 <= i < b.len() implies (#[trigger] b[i]).len() == n && a.contains(
        b[i],
    ) by {
        let m = choose|m: int| 0 <= m < once.len() && same_solution(twice[i], once[m]);
        assert(a[m] == b[i]);
    }
    assert forall|i: int| 0 <= i < a.len() implies b.contains(#[trigger] a[i]) by {
        assert(has_claims(twice, once[i].conditions@));
        let t = choose|t: int|
            #![trigger twice[t]]
            0 <= t < twice.len() && twice[t].conditions@ == once[i].conditions@;
        assert(b[t] == a[i]);
    }
    assert(is_rising(a)) by {
        assert forall|i: int, j: int| 0 <= i < j < a.len() implies ranks_below(a[i], a[j]) by {
            assert(ranks_below(once[i].conditions@, once[j].conditions@));
        }
    }
    assert(is_rising(b)) by {
        assert forall|i: int, j: int| 0 <= i < j < b.len() implies ranks_below(b[i], b[j]) by {
            assert(ranks_below(twice[i].conditions@, twice[j].conditions@));
        }
    }
    lemma_rising_unique(a, b, n);
    assert forall|t: int| 0 <= t < once.len() implies same_solution(#[trigger] twice[t], once[t]) by {
        let m = choose|m: int| 0 <= m < once.len() && same_solution(twice[t], once[m]);
        assert(a[t] == b[t]);
        assert(once[m].conditions@ == once[t].conditions@);
        if m < t {
            assert(once[m].conditions@ != once[t].conditions@);
        } else if t < m {
            assert(once[t].conditions@ != once[m].conditions@);
        }
    }
}

/// Counts the flags that are set.
fn count_flags(flags: &Vec<bool>) -> (r: usize)
    ensures
        r == count_set(flags@),
{
    let mut r: usize = 0;
    let mut k: usize = 0;
    while k < flags.len()
        invariant
            k <= flags@.len(),
            r <= k,
            r == count_set(flags@.subrange(0, k as int)),
        decreases flags@.len() - k,
    {
        proof {
            assert(flags@.subrange(0, k + 1).drop_last() =~= flags@.subrange(0, k as int));
        }
        if flags[k] {
            r += 1;
        }
        k += 1;
    }
    proof {
        assert(flags@.subrange(0, flags@.len() as int) =~= flags@);
    }
    r
}

/// Tells whether `a` ranks below `b`.
fn ranks_lower(a: &Vec<bool>, b: &Vec<bool>) -> (r: bool)
    ensures
        r == ranks_below(a@, b@),
{
    let score_a = count_flags(a);
    let score_b = count_flags(b);
    if score_a < score_b {
        return true;
    }
    if score_a > score_b {
        return false;
    }
    let common: usize = if a.len() <= b.len() {
        a.len()
    } else {
        b.len()
    };
    let mut k: usize = common;
    while k > 0
        invariant
            k <= common,
            common == common_len(a@, b@),
            count_set(a@) == count_set(b@),
            forall|m: int| k <= m < common ==> a@[m] == b@[m],
        decreases k,
    {
        k -= 1;
        if a[k] != b[k] {
            proof {
                if set_later(a@, b@) {
                    let w = choose|w: int|
                        0 <= w < common_len(a@, b@) && !#[trigger] a@[w] && b@[w] && forall|
                            m: int,
                        |
                            w < m < common_len(a@, b@) ==> a@[m] == b@[m];
                    assert(w == k) by {
                        if w < k {
                            assert(a@[k as int] == b@[k as int]);
                        } else if w > k {
                            assert(a@[w] == b@[w]);
                        }
                    }
                }
                if !a@[k as int] && b@[k as int] {
                    assert(set_later(a@, b@));
                }
            }
            return !a[k] && b[k];
        }
    }
    proof {
        if set_later(a@, b@) {
            let w = choose|w: int|
                0 <= w < common_len(a@, b@) && !#[trigger] a@[w] && b@[w] && forall|m: int|
                    w < m < common_len(a@, b@) ==> a@[m] == b@[m];
            assert(a@[w] == b@[w]);
        }
    }
    false
}

/// Solution `o` is the one to keep of those among the first `m` that have
/// its claims.
pub open spec fn is_pick_upto(list: Seq<Solution>, m: int, o: int) -> bool {
    &&& 0 <= o < m
    &&& forall|k: int|
        0 <= k < m && (#[trigger] list[k]).conditions@ == list[o].conditions@ ==> {
            ||| list[k].steps@.len() > list[o].steps@.len()
            ||| list[k].steps@.len() == list[o].steps@.len() && k >= o
        }
}

/// Every entry of `order` is the pick of its claims among the first `m`
/// solutions.
pub open spec fn holds_picks(list: Seq<Solution>, m: int, order: Seq<usize>) -> bool {
    forall|t: int| 0 <= t < order.len() ==> is_pick_upto(list, m, #[trigger] order[t] as int)
}

/// Every set of claims that occurs among the first `m` solutions has an
/// entry in `order`.
pub open spec fn holds_all_claims(list: Seq<Solution>, m: int, order: Seq<usize>) -> bool {
    forall|k: int|
        0 <= k < m ==> exists|t: int|
            0 <= t < order.len() && list[#[trigger] order[t] as int].conditions@ == (
            #[trigger] list[k]).conditions@
}

/// No two entries of `order` have the same claims.
pub open spec fn holds_claims_once(list: Seq<Solution>, order: Seq<usize>) -> bool {
    forall|t: int, u: int|
        0 <= t < u < order.len() ==> list[#[trigger] order[t] as int].conditions@
            != list[#[trigger] order[u] as int].conditions@
}

/// The entries of `order` are in rising rank.
pub open spec fn holds_rising(list: Seq<Solution>, order: Seq<usize>) -> bool {
    forall|t: int, u: int|
        0 <= t < u < order.len() ==> ranks_below(
            list[#[trigger] order[t] as int].conditions@,
            list[#[trigger] order[u] as int].conditions@,
        )
}

/// `order` ranks the first `m` solutions of the list: it holds the index of
/// the pick for each set of claims that occurs among them, once, and where
/// the list is uniform, in rising rank.
pub open spec fn ranks_upto(list: Seq<Solution>, m: int, order: Seq<usize>) -> bool {
    &&& holds_picks(list, m, order)
    &&& holds_all_claims(list, m, order)
    &&& holds_claims_once(list, order)
    &&& is_uniform(list) ==> holds_rising(list, order)
}

/// The next solution has the claims of a pick that is no longer: the pick
/// stays.
proof fn lemma_pick_stays(list: Seq<Solution>, m: int, order: Seq<usize>, t: int)
    requires
        0 <= m < list.len(),
        ranks_upto(list, m, order),
        0 <= t < order.len(),
        list[order[t] as int].conditions@ == list[m].conditions@,
        list[order[t] as int].steps@.len() <= list[m].steps@.len(),
    ensures
        ranks_upto(list, m + 1, order),
{
    assert forall|u: int| 0 <= u < order.len() implies is_pick_upto(
        list,
        m + 1,
        #[trigger] order[u] as int,
    ) by {
        let o = order[u] as int;
        assert(is_pick_upto(list, m, o));
        if u < t {
            assert(list[order[u] as int].conditions@ != list[order[t] as int].conditions@);
        } else if t < u {
            assert(list[order[t] as int].conditions@ != list[order[u] as int].conditions@);
        }
        assert forall|k: int|
            0 <= k < m + 1 && (#[trigger] list[k]).conditions@ == list[o].conditions@ implies (
            list[k].steps@.len() > list[o].steps@.len() || (list[k].steps@.len()
                == list[o].steps@.len() && k >= o)) by {
            if k == m {
                assert(u == t);
            }
        }
    }
    assert forall|k: int| 0 <= k < m + 1 implies exists|u: int|
        0 <= u < order.len() && list[#[trigger] order[u] as int].conditions@ == (
        #[trigger] list[k]).conditions@ by {
        if k == m {
            assert(list[order[t] as int].conditions@ == list[k].conditions@);
        }
    }
}

/// The next solution has the claims of a pick that is longer: it takes the
/// place of the pick.
proof fn lemma_pick_replaced(list: Seq<Solution>, m: int, order: Seq<usize>, t: int)
    requires
        0 <= m < list.len(),
        m <= usize::MAX,
        ranks_upto(list, m, order),
        0 <= t < order.len(),
        list[order[t] as int].conditions@ == list[m].conditions@,
        list[order[t] as int].steps@.len() > list[m].steps@.len(),
    ensures
        ranks_upto(list, m + 1, order.update(t, m as usize)),
{
    let after = order.update(t, m as usize);
    assert forall|u: int| 0 <= u < after.len() implies is_pick_upto(
        list,
        m + 1,
        #[trigger] after[u] as int,
    ) by {
        assert(is_pick_upto(list, m, order[u] as int));
        if u != t {
            assert(after[u] == order[u]);
            assert(list[order[u] as int].conditions@ != list[order[t] as int].conditions@);
        }
    }
    assert forall|k: int| 0 <= k < m + 1 implies exists|u: int|
        0 <= u < after.len() && list[#[trigger] after[u] as int].conditions@ == (
        #[trigger] list[k]).conditions@ by {
        if k == m {
            assert(list[after[t] as int].conditions@ == list[k].conditions@);
        } else {
            let u = choose|u: int|
                0 <= u < order.len() && list[#[trigger] order[u] as int].conditions@
                    == list[k].conditions@;
            assert(list[after[u] as int].conditions@ == list[order[u] as int].conditions@);
        }
    }
    assert forall|u: int, v: int| 0 <= u < v < after.len() implies list[#[trigger] after[u] as int].conditions@
        != list[#[trigger] after[v] as int].conditions@ by {
        assert(list[after[u] as int].conditions@ == list[order[u] as int].conditions@);
        assert(list[after[v] as int].conditions@ == list[order[v] as int].conditions@);
    }
    if is_uniform(list) {
        assert forall|u: int, v: int| 0 <= u < v < after.len() implies ranks_below(
            list[#[trigger] after[u] as int].conditions@,
            list[#[trigger] after[v] as int].conditions@,
        ) by {
            assert(list[after[u] as int].conditions@ == list[order[u] as int].conditions@);
            assert(list[after[v] as int].conditions@ == list[order[v] as int].conditions@);
        }
    }
}

/// Where the entries of `order` are after `m` was put in at `pos`.
proof fn lemma_inserted_at(order: Seq<usize>, pos: int, m: usize)
    requires
        0 <= pos <= order.len(),
    ensures
        order.insert(pos, m).len() == order.len() + 1,
        forall|u: int| 0 <= u < pos ==> #[trigger] order.insert(pos, m)[u] == order[u],
        order.insert(pos, m)[pos] == m,
        forall|u: int|
            pos < u <= order.len() ==> #[trigger] order.insert(pos, m)[u] == order[u - 1],
{
}

/// After a solution with new claims was put in, every entry is a pick.
proof fn lemma_inserted_picks(list: Seq<Solution>, m: int, order: Seq<usize>, pos: int)
    requires
        0 <= m < list.len(),
        m <= usize::MAX,
        ranks_upto(list, m, order),
        0 <= pos <= order.len(),
        forall|t: int|
            0 <= t < order.len() ==> list[#[trigger] order[t] as int].conditions@
                != list[m].conditions@,
    ensures
        holds_picks(list, m + 1, order.insert(pos, m as usize)),
{
    let after = order.insert(pos, m as usize);
    lemma_inserted_at(order, pos, m as usize);
    assert forall|k: int|
        0 <= k < m + 1 && (#[trigger] list[k]).conditions@ == list[m].conditions@ implies k
        == m by {
        if k < m {
            let t = choose|t: int|
                0 <= t < order.len() && list[#[trigger] order[t] as int].conditions@
                    == list[k].conditions@;
        }
    }
    assert forall|u: int| 0 <= u < order.len() + 1 implies is_pick_upto(
        list,
        m + 1,
        #[trigger] after[u] as int,
    ) by {
        if u < pos {
            assert(after[u] == order[u]);
            assert(is_pick_upto(list, m, order[u] as int));
        } else if u > pos {
            assert(after[u] == order[u - 1]);
            assert(is_pick_upto(list, m, order[u - 1] as int));
        } else {
            assert(after[u] == m);
        }
    }
}

/// After a solution with new claims was put in, every set of claims that
/// occurs has an entry, and one only.
proof fn lemma_inserted_claims(list: Seq<Solution>, m: int, order: Seq<usize>, pos: int)
    requires
        0 <= m < list.len(),
        m <= usize::MAX,
        ranks_upto(list, m, order),
        0 <= pos <= order.len(),
        forall|t: int|
            0 <= t < order.len() ==> list[#[trigger] order[t] as int].conditions@
                != list[m].conditions@,
    ensures
        holds_all_claims(list, m + 1, order.insert(pos, m as usize)),
        holds_claims_once(list, order.insert(pos, m as usize)),
{
    let after = order.insert(pos, m as usize);
    lemma_inserted_at(order, pos, m as usize);
    assert forall|k: int| 0 <= k < m + 1 implies exists|u: int|
        0 <= u < order.len() + 1 && list[#[trigger] after[u] as int].conditions@ == (
        #[trigger] list[k]).conditions@ by {
        if k == m {
            assert(list[after[pos] as int].conditions@ == list[k].conditions@);
        } else {
            let t = choose|t: int|
                0 <= t < order.len() && list[#[trigger] order[t] as int].conditions@
                    == list[k].conditions@;
            if t < pos {
                assert(after[t] == order[t]);
                assert(list[after[t] as int].conditions@ == list[k].conditions@);
            } else {
                assert(after[t + 1] == order[t]);
                assert(list[after[t + 1] as int].conditions@ == list[k].conditions@);
            }
        }
    }
    assert forall|u: int, v: int| 0 <= u < v < order.len() + 1 implies list[#[trigger] after[u] as int].conditions@
        != list[#[trigger] after[v] as int].conditions@ by {
        if v < pos {
            assert(after[u] == order[u] && after[v] == order[v]);
        } else if v == pos {
            assert(after[u] == order[u] && after[v] == m);
        } else if u < pos {
            assert(after[u] == order[u] && after[v] == order[v - 1]);
        } else if u == pos {
            assert(after[u] == m && after[v] == order[v - 1]);
        } else {
            assert(after[u] == order[u - 1] && after[v] == order[v - 1]);
        }
    }
}

/// After a solution with new claims was put in before the first entry that
/// it ranks below, the entries of a uniform list are in rising rank.
proof fn lemma_inserted_rises(list: Seq<Solution>, m: int, order: Seq<usize>, pos: int)
    requires
        0 <= m < list.len(),
        m <= usize::MAX,
        is_uniform(list),
        ranks_upto(list, m, order),
        0 <= pos <= order.len(),
        forall|t: int|
            0 <= t < order.len() ==> list[#[trigger] order[t] as int].conditions@
                != list[m].conditions@,
        forall|t: int|
            0 <= t < pos ==> !ranks_below(
                list[m].conditions@,
                list[#[trigger] order[t] as int].conditions@,
            ),
        pos < order.len() ==> ranks_below(list[m].conditions@, list[order[pos] as int].conditions@),
    ensures
        holds_rising(list, order.insert(pos, m as usize)),
{
    let after = order.insert(pos, m as usize);
    let key = list[m].conditions@;
    lemma_inserted_at(order, pos, m as usize);
    assert forall|u: int, v: int| 0 <= u < v < order.len() + 1 implies ranks_below(
        list[#[trigger] after[u] as int].conditions@,
        list[#[trigger] after[v] as int].conditions@,
    ) by {
        if v < pos {
            assert(after[u] == order[u] && after[v] == order[v]);
        } else if v == pos {
            assert(after[u] == order[u] && after[v] == m);
            let other = list[order[u] as int].conditions@;
            assert(is_pick_upto(list, m, order[u] as int));
            lemma_rank_total(other, key);
        } else if u < pos {
            assert(after[u] == order[u] && after[v] == order[v - 1]);
        } else if u == pos {
            assert(after[u] == m && after[v] == order[v - 1]);
            let first = list[order[pos] as int].conditions@;
            let other = list[order[v - 1] as int].conditions@;
            assert(is_pick_upto(list, m, order[pos] as int));
            assert(is_pick_upto(list, m, order[v - 1] as int));
            if v - 1 > pos {
                assert(ranks_below(first, other));
                lemma_rank_transitive(key, first, other);
            }
        } else {
            assert(after[u] == order[u - 1] && after[v] == order[v - 1]);
        }
    }
}

/// The next solution has claims that no pick has: it is a pick, and goes
/// before the first pick that it ranks below.
proof fn lemma_pick_inserted(list: Seq<Solution>, m: int, order: Seq<usize>, pos: int)
    requires
        0 <= m < list.len(),
        m <= usize::MAX,
        ranks_upto(list, m, order),
        0 <= pos <= order.len(),
        forall|t: int|
            0 <= t < order.len() ==> list[#[trigger] order[t] as int].conditions@
                != list[m].conditions@,
        forall|t: int|
            0 <= t < pos ==> !ranks_below(
                list[m].conditions@,
                list[#[trigger] order[t] as int].conditions@,
            ),
        pos < order.len() ==> ranks_below(list[m].conditions@, list[order[pos] as int].conditions@),
    ensures
        ranks_upto(list, m + 1, order.insert(pos, m as usize)),
{
    lemma_inserted_picks(list, m, order, pos);
    lemma_inserted_claims(list, m, order, pos);
    if is_uniform(list) {
        lemma_inserted_rises(list, m, order, pos);
    }
}

/// Looks for the pick that has the given claims.
fn find_claims(list: &Vec<Solution>, order: &Vec<usize>, claims: &Vec<bool>) -> (r: Option<usize>)
    requires
        forall|t: int| 0 <= t < order@.len() ==> (#[trigger] order@[t]) < list@.len(),
    ensures
        match r {
            Some(t) => t < order@.len() && list@[order@[t as int] as int].conditions@ == claims@,
            None => forall|t: int|
                0 <= t < order@.len() ==> list@[#[trigger] order@[t] as int].conditions@ != claims@,
        },
{
    let mut t: usize = 0;
    while t < order.len()
        invariant
            t <= order@.len(),
            forall|u: int| 0 <= u < order@.len() ==> (#[trigger] order@[u]) < list@.len(),
            forall|u: int| 0 <= u < t ==> list@[#[trigger] order@[u] as int].conditions@ != claims@,
        decreases order@.len() - t,
    {
        if same_flags(&list[order[t]].conditions, claims) {
            return Some(t);
        }
        t += 1;
    }
    None
}

/// Finds the place of the first pick that the given claims rank below.
fn rank_position(list: &Vec<Solution>, order: &Vec<usize>, claims: &Vec<bool>) -> (pos: usize)
    requires
        forall|t: int| 0 <= t < order@.len() ==> (#[trigger] order@[t]) < list@.len(),
    ensures
        pos <= order@.len(),
        forall|t: int|
            0 <= t < pos ==> !ranks_below(claims@, list@[#[trigger] order@[t] as int].conditions@),
        pos < order@.len() ==> ranks_below(claims@, list@[order@[pos as int] as int].conditions@),
{
    let mut pos: usize = 0;
    while pos < order.len()
        invariant
            pos <= order@.len(),
            forall|u: int| 0 <= u < order@.len() ==> (#[trigger] order@[u]) < list@.len(),
            forall|t: int|
                0 <= t < pos ==> !ranks_below(
                    claims@,
                    list@[#[trigger] order@[t] as int].conditions@,
                ),
        decreases order@.len() - pos,
    {
        if ranks_lower(claims, &list[order[pos]].conditions) {
            return pos;
        }
        pos += 1;
    }
    pos
}

/// Chooses among solutions: of those that claim the same daemons the
/// shortest is kept, and of several shortest the first. What is kept comes
/// in rising rank: by the number of daemons claimed and then, comparing the
/// claims from the last daemon to the first, with the claim to the later
/// daemon on top. The last solution of the result is the best.
pub fn filter_best(all_solutions: &Vec<Solution>) -> (r: Vec<Solution>)
    ensures
        is_ranking(all_solutions@, r@),
{
    let ghost list = all_solutions@;
    let mut order: Vec<usize> = Vec::new();
    let mut m: usize = 0;
    while m < all_solutions.len()
        invariant
            m <= list.len(),
            list == all_solutions@,
            ranks_upto(list, m as int, order@),
        decreases list.len() - m,
    {
        let claims = &all_solutions[m].conditions;
        proof {
            assert forall|t: int| 0 <= t < order@.len() implies (#[trigger] order@[t])
                < list.len() by {
                assert(is_pick_upto(list, m as int, order@[t] as int));
            }
        }
        match find_claims(all_solutions, &order, claims) {
            Some(t) => {
                if all_solutions[order[t]].steps.len() > all_solutions[m].steps.len() {
                    proof {
                        lemma_pick_replaced(list, m as int, order@, t as int);
                    }
                    order.set(t, m);
                } else {
                    proof {
                        lemma_pick_stays(list, m as int, order@, t as int);
                    }
                }
            },
            None => {
                let pos = rank_position(all_solutions, &order, claims);
                proof {
                    lemma_pick_inserted(list, m as int, order@, pos as int);
                }
                order.insert(pos, m);
            },
        }
        m += 1;
    }
    let mut r: Vec<Solution> = Vec::new();
    let mut t: usize = 0;
    while t < order.len()
        invariant
            t <= order@.len(),
            list == all_solutions@,
            ranks_upto(list, list.len() as int, order@),
            r@.len() == t,
            forall|u: int|
                0 <= u < t ==> same_solution(#[trigger] r@[u], list[order@[u] as int]),
        decreases order@.len() - t,
    {
        proof {
            assert(is_pick_upto(list, list.len() as int, order@[t as int] as int));
        }
        let s = &all_solutions[order[t]];
        r.push(Solution { steps: copy_steps(s.steps.as_slice()), conditions: copy_flags(&s.conditions) });
        t += 1;
    }
    proof {
        assert forall|u: int| #![trigger r@[u]] 0 <= u < r@.len() implies is_kept(list, r@[u]) by {
            let o = order@[u] as int;
            assert(is_pick_upto(list, list.len() as int, o));
            assert(is_pick(list, o));
            assert(same_solution(r@[u], list[o]));
        }
        assert forall|k: int| #![trigger list[k]] 0 <= k < list.len() implies has_claims(
            r@,
            list[k].conditions@,
        ) by {
            let u = choose|u: int|
                0 <= u < order@.len() && list[#[trigger] order@[u] as int].conditions@
                    == list[k].conditions@;
            assert(same_solution(r@[u], list[order@[u] as int]));
        }
        assert forall|u: int, v: int| #![trigger r@[u], r@[v]] 0 <= u < v < r@.len() implies r@[u].conditions@
            != r@[v].conditions@ by {
            assert(same_solution(r@[u], list[order@[u] as int]));
            assert(same_solution(r@[v], list[order@[v] as int]));
        }
        if is_uniform(list) {
            assert forall|u: int, v: int| #![trigger r@[u], r@[v]] 0 <= u < v < r@.len() implies ranks_below(
                r@[u].conditions@,
                r@[v].conditions@,
            ) by {
                assert(same_solution(r@[u], list[order@[u] as int]));
                assert(same_solution(r@[v], list[order@[v] as int]));
            }
        }
    }
    r
}

} // verus!
