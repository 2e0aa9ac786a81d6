//! The combinatorial core: pick paths over the code matrix that upload the
//! daemons within the buffer.

use vstd::prelude::*;
use vstd::std_specs::cmp::PartialEqSpecImpl;
use vstd::laws_eq::obeys_concrete_eq;
use crate::solver::finalize::{is_finalization, lemma_finalization_is_finalized};
use crate::solver::measure::widens;
use crate::solver::merge::{
    adds_joins, claims, flag_count, grows_from, has_join, is_join_of, is_saturated, is_sound,
};
use crate::solver::path::{
    all_within, cell_in, cell_within, covers, grid_fits, is_finalized, is_rectangular, rows_of,
    paths_of, spells_from, width_of, cell_before, chain_before, in_search_order,
    lemma_chain_is_route, lemma_covers_part,
};
use crate::solver::flags::copy_flags;
use crate::solver::search::copy_steps;
use crate::util::is_part_of_spec;

pub use crate::solver::finalize::finalize_solution;
pub use crate::solver::merge::merge_solutions;
pub use crate::solver::rank::filter_best;
pub use crate::solver::search::{find_condition_solutions, next_possible_steps};

pub mod finalize;
pub mod flags;
pub mod measure;
pub mod merge;
pub mod path;
pub mod rank;
pub mod search;

verus! {

/// One pick: a cell of the matrix by column `x` and row `y`, counted from 0.
#[derive(Debug, Copy, Clone)]
pub struct Step {
    pub x: u8,
    pub y: u8,
}

impl PartialEq for Step {
    fn eq(&self, other: &Step) -> (r: bool) {
        self.x == other.x && self.y == other.y
    }
}

impl Eq for Step {

}

impl PartialEqSpecImpl for Step {
    open spec fn obeys_eq_spec() -> bool {
        true
    }

    open spec fn eq_spec(&self, other: &Step) -> bool {
        self.x == other.x && self.y == other.y
    }
}

/// `==` on steps is equality of the two coordinates.
pub proof fn lemma_step_eq()
    ensures
        obeys_concrete_eq::<Step>(),
{
    reveal(obeys_concrete_eq);
}

impl Step {
    /// The pick of the cell in column `x` of row `y`.
    pub fn new(x: u8, y: u8) -> (s: Self)
        ensures
            s.x == x,
            s.y == y,
    {
        Step { x, y }
    }
}

/// A pick path together with the daemons it uploads: `conditions[i]` tells
/// whether daemon `i` is covered.
#[derive(Debug, Clone)]
pub struct Solution {
    pub steps: Vec<Step>,
    pub conditions: Vec<bool>,
}

/// Tells whether the move from `s1` to `s2` changes the column.
pub fn is_horizontal_step(s1: &Step, s2: &Step) -> (r: bool)
    ensures
        r == path::is_horizontal(*s1, *s2),
{
    s1.x != s2.x
}

/// The direction that the next move must take after `steps`: `None` while
/// fewer than two picks are made, else `Some(true)` for horizontal when the
/// last move was vertical and `Some(false)` when it was horizontal.
pub fn next_step_is_horizontal(steps: &[Step]) -> (r: Option<bool>)
    ensures
        steps@.len() <= 1 ==> r.is_none(),
        steps@.len() >= 2 ==> r == Some(
            !path::is_horizontal(steps@[steps@.len() - 2], steps@[steps@.len() - 1]),
        ),
{
    if steps.len() <= 1 {
        None
    } else {
        Some(!is_horizontal_step(&steps[steps.len() - 2], &steps[steps.len() - 1]))
    }
}

/// The flags of a solution that claims daemon `i` of `n` and no other.
pub open spec fn unit_flags(n: int, i: int) -> Seq<bool> {
    Seq::new(n as nat, |k: int| k == i)
}

/// The path spells daemon `i` pick by pick, from its first pick to its last.
pub open spec fn is_bare(g: Seq<Seq<u8>>, words: Seq<Seq<u8>>, i: int, steps: Seq<Step>) -> bool {
    0 <= i < words.len() && spells_from(g, Seq::empty(), words[i], steps)
}

/// A solution as the search for single daemons finds it: a path that spells
/// one daemon, with the claim to that daemon alone.
pub open spec fn is_seed(g: Seq<Seq<u8>>, words: Seq<Seq<u8>>, s: Solution) -> bool {
    exists|i: int| #[trigger]
        is_bare(g, words, i, s.steps@) && s.conditions@ == unit_flags(words.len() as int, i)
}

/// What holds of every solution that `solve` returns for the grid `g`, the
/// daemons `words` and a buffer of `limit` picks.
///
/// The path starts in the top row with a vertical move, picks no cell twice,
/// and its moves take turns between rows and columns. There is a flag for each
/// daemon and at least one is set. The bytes picked along the path contain
/// every daemon whose flag is set. The path fits the buffer, unless it is the
/// bare spelling of a daemon that is itself longer than the buffer. On a
/// rectangular grid all picks lie inside it.
pub open spec fn is_answer(
    g: Seq<Seq<u8>>,
    words: Seq<Seq<u8>>,
    limit: int,
    steps: Seq<Step>,
    flags: Seq<bool>,
) -> bool {
    &&& is_finalized(steps)
    &&& flags.len() == words.len()
    &&& exists|k: int| 0 <= k < flags.len() && #[trigger] flags[k]
    &&& forall|k: int| 0 <= k < flags.len() && #[trigger] flags[k] ==> covers(g, steps, words[k])
    &&& steps.len() <= limit || exists|i: int| #[trigger]
        is_bare(g, words, i, steps) && words[i].len() > limit
    &&& is_rectangular(g) ==> all_within(steps, width_of(g), g.len() as int)
}

/// Finalizing a merged solution gives an answer.
proof fn lemma_finalized_is_answer(
    g: Seq<Seq<u8>>,
    words: Seq<Seq<u8>>,
    limit: int,
    base: Seq<Solution>,
    s: Solution,
    q: Seq<Step>,
)
    requires
        grid_fits(g),
        forall|i: int| 0 <= i < words.len() ==> (#[trigger] words[i]).len() > 0,
        forall|m: int| 0 <= m < base.len() ==> is_seed(g, words, #[trigger] base[m]),
        is_sound(base, s, words.len() as int),
        s.steps@.len() <= limit || exists|i: int| #[trigger] is_bare(g, words, i, s.steps@),
        is_finalization(s.steps@, width_of(g), g.len() as int, limit, Some(q)),
    ensures
        is_answer(g, words, limit, q, s.conditions@),
{
    let width = width_of(g);
    let height = g.len() as int;
    let flags = s.conditions@;
    let n = words.len() as int;
    assert(s.steps@.contains(s.steps@[0]));
    // every pick of the merged route is a cell of the grid
    assert forall|i: int| 0 <= i < s.steps@.len() implies cell_in(g, #[trigger] s.steps@[i]) by {
        let j = choose|j: int|
            0 <= j < base.len() && (#[trigger] base[j]).steps@.contains(#[trigger] s.steps@[i]);
        let d = choose|d: int| #[trigger]
            is_bare(g, words, d, base[j].steps@) && base[j].conditions@ == unit_flags(n, d);
        lemma_chain_is_route(g, words[d], base[j].steps@);
    }
    assert(cell_in(g, s.steps@[0]));
    lemma_finalization_is_finalized(s.steps@, width, height, limit, q);
    if is_rectangular(g) {
        assert forall|i: int| 0 <= i < s.steps@.len() implies cell_within(
            #[trigger] s.steps@[i],
            width,
            height,
        ) by {
            assert(cell_in(g, s.steps@[i]));
        }
    }
    // a claim is left from the seed that the solution descends from
    let a = choose|a: int|
        0 <= a < base.len() && is_part_of_spec(s.steps@, (#[trigger] base[a]).steps@) && widens(
            base[a].conditions@,
            flags,
        );
    let d = choose|d: int| #[trigger]
        is_bare(g, words, d, base[a].steps@) && base[a].conditions@ == unit_flags(n, d);
    assert(base[a].conditions@[d]);
    assert(flags[d]);
    // the claims are covered
    assert(is_part_of_spec(q, s.steps@));
    assert forall|k: int| 0 <= k < flags.len() && #[trigger] flags[k] implies covers(
        g,
        q,
        words[k],
    ) by {
        let j = choose|j: int|
            0 <= j < base.len() && claims(#[trigger] base[j], k) && is_part_of_spec(
                s.steps@,
                base[j].steps@,
            );
        let e = choose|e: int| #[trigger]
            is_bare(g, words, e, base[j].steps@) && base[j].conditions@ == unit_flags(n, e);
        assert(e == k);
        lemma_chain_is_route(g, words[k], base[j].steps@);
        lemma_covers_part(g, s.steps@, base[j].steps@, words[k]);
        lemma_covers_part(g, q, s.steps@, words[k]);
    }
    if q.len() > limit {
        assert(q == s.steps@);
        let i = choose|i: int| #[trigger] is_bare(g, words, i, s.steps@);
        assert(is_bare(g, words, i, q) && words[i].len() > limit);
    }
}

/// The flags that claim daemon `i` of `n` and no other.
fn unit_flags_of(n: usize, i: usize) -> (r: Vec<bool>)
    ensures
        r@ == unit_flags(n as int, i as int),
{
    let mut r: Vec<bool> = Vec::with_capacity(n);
    let mut k: usize = 0;
    while k < n
        invariant
            k <= n,
            r@.len() == k,
            forall|m: int| 0 <= m < k ==> r@[m] == (m == i),
        decreases n - k,
    {
        r.push(k == i);
        k += 1;
    }
    proof {
        assert(r@ =~= unit_flags(n as int, i as int));
    }
    r
}

/// `after` is `before` with a seed of daemon `d` for each of `chains` put
/// after it.
pub open spec fn is_extended_by(
    words: Seq<Seq<u8>>,
    d: int,
    before: Seq<Solution>,
    chains: Seq<Seq<Step>>,
    after: Seq<Solution>,
) -> bool {
    &&& after.len() == before.len() + chains.len()
    &&& forall|m: int| 0 <= m < before.len() ==> after[m] == before[m]
    &&& forall|k: int|
        0 <= k < chains.len() ==> (#[trigger] after[before.len() + k]).steps@ == chains[k]
            && after[before.len() + k].conditions@ == unit_flags(words.len() as int, d)
}

/// Every solution is a seed of a daemon before daemon `bound`.
pub open spec fn all_seeds_below(
    g: Seq<Seq<u8>>,
    words: Seq<Seq<u8>>,
    seeds: Seq<Solution>,
    bound: int,
) -> bool {
    forall|m: int| 0 <= m < seeds.len() ==> is_seed_below(g, words, #[trigger] seeds[m], bound)
}

/// Every path that spells a daemon before daemon `bound` is seeded.
pub open spec fn all_seeded_below(
    g: Seq<Seq<u8>>,
    words: Seq<Seq<u8>>,
    seeds: Seq<Solution>,
    bound: int,
) -> bool {
    forall|i: int, chain: Seq<Step>| #[trigger]
        is_bare(g, words, i, chain) && i < bound ==> exists|m: int|
            0 <= m < seeds.len() && (#[trigger] seeds[m]).steps@ == chain && seeds[m].conditions@
                == unit_flags(words.len() as int, i)
}

/// With the seeds of the next daemon put after them, all are seeds of the
/// daemons up to it.
proof fn lemma_extended_seeds(
    g: Seq<Seq<u8>>,
    words: Seq<Seq<u8>>,
    d: int,
    before: Seq<Solution>,
    chains: Seq<Seq<Step>>,
    after: Seq<Solution>,
)
    requires
        0 <= d < words.len(),
        all_seeds_below(g, words, before, d),
        forall|k: int|
            0 <= k < chains.len() ==> spells_from(g, Seq::empty(), words[d], #[trigger] chains[k]),
        is_extended_by(words, d, before, chains, after),
    ensures
        all_seeds_below(g, words, after, d + 1),
{
    let old = before.len() as int;
    assert forall|m: int| 0 <= m < after.len() implies is_seed_below(
        g,
        words,
        #[trigger] after[m],
        d + 1,
    ) by {
        if m < old {
            assert(after[m] == before[m]);
            assert(is_seed_below(g, words, before[m], d));
            let i = choose|i: int| i < d && #[trigger] is_seed_of(g, words, before[m], i);
            assert(i < d + 1 && is_seed_of(g, words, after[m], i));
        } else {
            let k = m - old;
            assert(after[old + k].steps@ == chains[k]);
            assert(is_seed_of(g, words, after[m], d));
        }
    }
}

/// With the seeds of the next daemon put after them, every path that
/// spells a daemon up to it is seeded.
proof fn lemma_extended_complete(
    g: Seq<Seq<u8>>,
    words: Seq<Seq<u8>>,
    d: int,
    before: Seq<Solution>,
    chains: Seq<Seq<Step>>,
    after: Seq<Solution>,
)
    requires
        0 <= d < words.len(),
        all_seeded_below(g, words, before, d),
        forall|chain: Seq<Step>|
            spells_from(g, Seq::empty(), words[d], chain) ==> chains.contains(chain),
        is_extended_by(words, d, before, chains, after),
    ensures
        all_seeded_below(g, words, after, d + 1),
{
    let n = words.len() as int;
    let old = before.len() as int;
    assert forall|i: int, chain: Seq<Step>| #[trigger]
        is_bare(g, words, i, chain) && i < d + 1 implies exists|m: int|
        0 <= m < after.len() && (#[trigger] after[m]).steps@ == chain && after[m].conditions@
            == unit_flags(n, i) by {
        if i < d {
            let m = choose|m: int|
                0 <= m < before.len() && (#[trigger] before[m]).steps@ == chain
                    && before[m].conditions@ == unit_flags(n, i);
            assert(after[m] == before[m]);
        } else {
            assert(chains.contains(chain));
            let k = choose|k: int| 0 <= k < chains.len() && chains[k] == chain;
            assert(after[old + k].steps@ == chain);
        }
    }
}

/// With the seeds of the next daemon put after them in search order, the
/// seeds are in order.
proof fn lemma_extended_in_order(
    g: Seq<Seq<u8>>,
    words: Seq<Seq<u8>>,
    d: int,
    before: Seq<Solution>,
    chains: Seq<Seq<Step>>,
    after: Seq<Solution>,
)
    requires
        0 <= d < words.len(),
        all_seeds_below(g, words, before, d),
        is_seeded_in_order(g, words, before),
        forall|k: int|
            0 <= k < chains.len() ==> spells_from(g, Seq::empty(), words[d], #[trigger] chains[k]),
        in_search_order(chains),
        is_extended_by(words, d, before, chains, after),
    ensures
        is_seeded_in_order(g, words, after),
{
    let old = before.len() as int;
    assert forall|a: int, b: int| 0 <= a < b < after.len() implies is_seeded_before(
        g,
        words,
        #[trigger] after[a],
        #[trigger] after[b],
    ) by {
        if b < old {
            assert(after[a] == before[a] && after[b] == before[b]);
            assert(is_seeded_before(g, words, before[a], before[b]));
        } else {
            let kb = b - old;
            assert(after[old + kb].steps@ == chains[kb]);
            assert(is_seed_of(g, words, after[b], d));
            if a < old {
                assert(after[a] == before[a]);
                assert(is_seed_below(g, words, before[a], d));
                let i = choose|i: int| i < d && #[trigger] is_seed_of(g, words, before[a], i);
                assert(is_seed_of(g, words, after[a], i));
            } else {
                let ka = a - old;
                assert(after[old + ka].steps@ == chains[ka]);
                assert(is_seed_of(g, words, after[a], d));
                assert(chain_before(chains[ka], chains[kb]));
            }
        }
    }
}

/// Every path that spells one daemon, in the order of the daemons and, for
/// each daemon, in search order; each with the claim to its daemon alone.
fn seed_solutions(matrix: &Vec<Vec<u8>>, conditions: &Vec<Vec<u8>>) -> (r: Vec<Solution>)
    requires
        grid_fits(rows_of(matrix)),
    ensures
        is_seeding(rows_of(matrix), rows_of(conditions), r@),
{
    let ghost g = rows_of(matrix);
    let ghost words = rows_of(conditions);
    let n: usize = conditions.len();
    let mut solutions: Vec<Solution> = Vec::new();
    let mut cond_i: usize = 0;
    while cond_i < n
        invariant
            cond_i <= n,
            n == conditions@.len(),
            g == rows_of(matrix),
            words == rows_of(conditions),
            grid_fits(g),
            all_seeds_below(g, words, solutions@, cond_i as int),
            all_seeded_below(g, words, solutions@, cond_i as int),
            is_seeded_in_order(g, words, solutions@),
        decreases n - cond_i,
    {
        let chains = find_condition_solutions(conditions[cond_i].as_slice(), None, matrix);
        let ghost before = solutions@;
        let mut c: usize = 0;
        while c < chains.len()
            invariant
                c <= chains@.len(),
                cond_i < n,
                n == conditions@.len(),
                words.len() == n,
                is_extended_by(
                    words,
                    cond_i as int,
                    before,
                    paths_of(chains@).subrange(0, c as int),
                    solutions@,
                ),
            decreases chains@.len() - c,
        {
            let steps = copy_steps(chains[c].as_slice());
            let flags = unit_flags_of(n, cond_i);
            solutions.push(Solution { steps, conditions: flags });
            c += 1;
        }
        proof {
            let found = paths_of(chains@);
            assert(found.subrange(0, c as int) =~= found);
            assert(words[cond_i as int] == conditions@[cond_i as int]@);
            assert forall|k: int| 0 <= k < found.len() implies spells_from(
                g,
                Seq::empty(),
                words[cond_i as int],
                #[trigger] found[k],
            ) by {
                assert(found[k] == chains@[k]@);
            }
            lemma_extended_seeds(g, words, cond_i as int, before, found, solutions@);
            lemma_extended_complete(g, words, cond_i as int, before, found, solutions@);
            lemma_extended_in_order(g, words, cond_i as int, before, found, solutions@);
        }
        cond_i += 1;
    }
    proof {
        assert forall|m: int| 0 <= m < solutions@.len() implies is_seed(
            g,
            words,
            #[trigger] solutions@[m],
        ) by {
            assert(is_seed_below(g, words, solutions@[m], n as int));
            let i = choose|i: int| i < n && #[trigger] is_seed_of(g, words, solutions@[m], i);
            assert(is_bare(g, words, i, solutions@[m].steps@));
        }
    }
    solutions
}

/// The solution is what the search finds for daemon `i`: a path that
/// spells it, with the claim to it alone.
pub open spec fn is_seed_of(g: Seq<Seq<u8>>, words: Seq<Seq<u8>>, s: Solution, i: int) -> bool {
    is_bare(g, words, i, s.steps@) && s.conditions@ == unit_flags(words.len() as int, i)
}

/// The solution is what the search finds for a daemon before daemon `bound`.
pub open spec fn is_seed_below(
    g: Seq<Seq<u8>>,
    words: Seq<Seq<u8>>,
    s: Solution,
    bound: int,
) -> bool {
    exists|i: int| i < bound && #[trigger] is_seed_of(g, words, s, i)
}

/// Of two solutions that the search for single daemons finds, `s` comes
/// first: it is for an earlier daemon, or for the same daemon and its path
/// comes first in search order.
pub open spec fn is_seeded_before(
    g: Seq<Seq<u8>>,
    words: Seq<Seq<u8>>,
    s: Solution,
    t: Solution,
) -> bool {
    exists|i: int, j: int|
        #![trigger is_seed_of(g, words, s, i), is_seed_of(g, words, t, j)]
        is_seed_of(g, words, s, i) && is_seed_of(g, words, t, j) && (i < j || (i == j
            && chain_before(s.steps@, t.steps@)))
}

/// The solutions stand in the order of their daemons and, for one daemon,
/// in search order.
pub open spec fn is_seeded_in_order(
    g: Seq<Seq<u8>>,
    words: Seq<Seq<u8>>,
    seeds: Seq<Solution>,
) -> bool {
    forall|a: int, b: int|
        0 <= a < b < seeds.len() ==> is_seeded_before(
            g,
            words,
            #[trigger] seeds[a],
            #[trigger] seeds[b],
        )
}

/// `seeds` holds what the search for single daemons finds: for every daemon
/// every path that spells it, with the claim to that daemon alone, and
/// nothing else; in the order of the daemons and, for each daemon, in search
/// order, so that every such path stands there once.
pub open spec fn is_seeding(g: Seq<Seq<u8>>, words: Seq<Seq<u8>>, seeds: Seq<Solution>) -> bool {
    &&& forall|m: int| 0 <= m < seeds.len() ==> is_seed(g, words, #[trigger] seeds[m])
    &&& forall|i: int, chain: Seq<Step>| #[trigger]
        is_bare(g, words, i, chain) ==> exists|m: int|
            0 <= m < seeds.len() && (#[trigger] seeds[m]).steps@ == chain && seeds[m].conditions@
                == unit_flags(words.len() as int, i)
    &&& is_seeded_in_order(g, words, seeds)
}

/// Of two seeds of which one comes before the other, the paths or the
/// claims differ.
pub proof fn lemma_seeds_differ(g: Seq<Seq<u8>>, words: Seq<Seq<u8>>, s: Solution, t: Solution)
    requires
        is_seeded_before(g, words, s, t),
    ensures
        s.steps@ != t.steps@ || s.conditions@ != t.conditions@,
{
    let n = words.len() as int;
    let (i, j) = choose|i: int, j: int|
        #![trigger is_seed_of(g, words, s, i), is_seed_of(g, words, t, j)]
        is_seed_of(g, words, s, i) && is_seed_of(g, words, t, j) && (i < j || (i == j
            && chain_before(s.steps@, t.steps@)));
    assert(0 <= i < n && 0 <= j < n);
    if i < j {
        assert(unit_flags(n, i)[i] != unit_flags(n, j)[i]);
    } else {
        let k = choose|k: int|
            0 <= k < s.steps@.len() && k < t.steps@.len() && #[trigger] s.steps@.subrange(0, k)
                == t.steps@.subrange(0, k) && cell_before(s.steps@[k], t.steps@[k]);
        assert(s.steps@[k] != t.steps@[k]);
    }
}

/// No two seeds have the same path and the same claims: every path that
/// spells a daemon is seeded once.
pub proof fn lemma_seeded_once(
    g: Seq<Seq<u8>>,
    words: Seq<Seq<u8>>,
    seeds: Seq<Solution>,
    a: int,
    b: int,
)
    requires
        is_seeded_in_order(g, words, seeds),
        0 <= a < b < seeds.len(),
    ensures
        seeds[a].steps@ != seeds[b].steps@ || seeds[a].conditions@ != seeds[b].conditions@,
{
    assert(is_seeded_before(g, words, seeds[a], seeds[b]));
    lemma_seeds_differ(g, words, seeds[a], seeds[b]);
}

/// `answers` holds what finalizing makes of the solutions of `merged`, in
/// their order: for each of them that can be finalized, its finalized path
/// with its claims. `pick` tells which solution each answer comes from.
pub open spec fn is_finalizing(
    merged: Seq<Solution>,
    width: int,
    height: int,
    limit: int,
    answers: Seq<Solution>,
    pick: Seq<int>,
) -> bool {
    &&& pick.len() == answers.len()
    &&& forall|t: int| 0 <= t < pick.len() ==> 0 <= #[trigger] pick[t] < merged.len()
    &&& forall|t: int, u: int| 0 <= t < u < pick.len() ==> pick[t] < pick[u]
    &&& forall|t: int|
        0 <= t < pick.len() ==> is_finalization(
            merged[pick[t]].steps@,
            width,
            height,
            limit,
            Some((#[trigger] answers[t]).steps@),
        ) && answers[t].conditions@ == merged[pick[t]].conditions@
    &&& forall|k: int|
        0 <= k < merged.len() ==> pick.contains(k) || is_finalization(
            (#[trigger] merged[k]).steps@,
            width,
            height,
            limit,
            None,
        )
}

/// How `answers` come about for the grid `g`, the daemons `words` and a
/// buffer of `limit` picks: `seeds` is what the search for single daemons
/// finds, `merged` grows from it by merging, by joins of solutions with
/// different claims alone, and is saturated, and `answers` is what finalizing
/// makes of `merged`.
pub open spec fn is_solving(
    g: Seq<Seq<u8>>,
    words: Seq<Seq<u8>>,
    limit: int,
    seeds: Seq<Solution>,
    merged: Seq<Solution>,
    pick: Seq<int>,
    answers: Seq<Solution>,
) -> bool {
    &&& is_seeding(g, words, seeds)
    &&& grows_from(seeds, merged, limit, flag_count(seeds))
    &&& adds_joins(seeds, merged, limit)
    &&& is_saturated(merged, limit)
    &&& is_finalizing(merged, width_of(g), g.len() as int, limit, answers, pick)
}

/// Finalizes what merging has made of the seeds: each solution that can be
/// led into the top row within the buffer, in its finalized form.
fn finalize_all(
    solutions: &Vec<Solution>,
    matrix: &Vec<Vec<u8>>,
    conditions: &Vec<Vec<u8>>,
    step_limit: usize,
    Ghost(base): Ghost<Seq<Solution>>,
) -> (r: (Vec<Solution>, Ghost<Seq<int>>))
    requires
        grid_fits(rows_of(matrix)),
        forall|i: int| 0 <= i < conditions@.len() ==> (#[trigger] conditions@[i])@.len() > 0,
        forall|b: int|
            0 <= b < base.len() ==> is_seed(rows_of(matrix), rows_of(conditions), #[trigger] base[b]),
        grows_from(base, solutions@, step_limit as int, conditions@.len() as int),
    ensures
        all_answers(rows_of(matrix), rows_of(conditions), step_limit as int, r.0@),
        is_finalizing(
            solutions@,
            width_of(rows_of(matrix)),
            matrix@.len() as int,
            step_limit as int,
            r.0@,
            r.1@,
        ),
{
    let ghost g = rows_of(matrix);
    let ghost words = rows_of(conditions);
    let ghost limit = step_limit as int;
    let ghost n = conditions@.len() as int;
    let ghost merged = solutions@;
    let ghost mut pick: Seq<int> = Seq::empty();
    let mut result: Vec<Solution> = Vec::new();
    let mut m: usize = 0;
    while m < solutions.len()
        invariant
            m <= solutions@.len(),
            solutions@ == merged,
            g == rows_of(matrix),
            words == rows_of(conditions),
            limit == step_limit,
            n == conditions@.len(),
            grid_fits(g),
            forall|i: int| 0 <= i < words.len() ==> (#[trigger] words[i]).len() > 0,
            forall|b: int| 0 <= b < base.len() ==> is_seed(g, words, #[trigger] base[b]),
            grows_from(base, merged, limit, n),
            forall|t: int|
                0 <= t < result@.len() ==> is_answer(
                    g,
                    words,
                    limit,
                    (#[trigger] result@[t]).steps@,
                    result@[t].conditions@,
                ),
            pick.len() == result@.len(),
            forall|t: int| 0 <= t < pick.len() ==> 0 <= #[trigger] pick[t] < m,
            forall|t: int, u: int| 0 <= t < u < pick.len() ==> pick[t] < pick[u],
            forall|t: int|
                0 <= t < pick.len() ==> is_finalization(
                    merged[pick[t]].steps@,
                    width_of(g),
                    g.len() as int,
                    limit,
                    Some((#[trigger] result@[t]).steps@),
                ) && result@[t].conditions@ == merged[pick[t]].conditions@,
            forall|k: int|
                0 <= k < m ==> pick.contains(k) || is_finalization(
                    (#[trigger] merged[k]).steps@,
                    width_of(g),
                    g.len() as int,
                    limit,
                    None,
                ),
        decreases solutions@.len() - m,
    {
        let s = &solutions[m];
        proof {
            assert(is_sound(base, merged[m as int], n));
            lemma_sound_in_grid(g, words, base, *s, n);
            assert(cell_in(g, s.steps@[0]));
            assert(g[0] == matrix@[0]@);
        }
        let ghost before = result@;
        let ghost picked = pick;
        match finalize_solution(s.steps.as_slice(), matrix, step_limit) {
            Some(steps) => {
                proof {
                    if m < base.len() {
                        assert(merged[m as int].steps@ == base[m as int].steps@);
                        let d = choose|d: int| #[trigger]
                            is_bare(g, words, d, base[m as int].steps@) && base[m as int].conditions@
                                == unit_flags(n, d);
                        assert(is_bare(g, words, d, s.steps@));
                    }
                    lemma_finalized_is_answer(g, words, limit, base, *s, steps@);
                }
                let conditions = copy_flags(&s.conditions);
                result.push(Solution { steps, conditions });
                proof {
                    pick = picked.push(m as int);
                    assert(pick[picked.len() as int] == m);
                    assert forall|k: int| 0 <= k < m + 1 implies pick.contains(k)
                        || is_finalization(
                        (#[trigger] merged[k]).steps@,
                        width_of(g),
                        g.len() as int,
                        limit,
                        None,
                    ) by {
                        if k < m && picked.contains(k) {
                            let t = choose|t: int| 0 <= t < picked.len() && picked[t] == k;
                            assert(pick[t] == k);
                        }
                    }
                    assert forall|t: int| 0 <= t < pick.len() implies is_finalization(
                        merged[pick[t]].steps@,
                        width_of(g),
                        g.len() as int,
                        limit,
                        Some((#[trigger] result@[t]).steps@),
                    ) && result@[t].conditions@ == merged[pick[t]].conditions@ by {
                        if t < picked.len() {
                            assert(pick[t] == picked[t]);
                            assert(result@[t] == before[t]);
                        }
                    }
                    assert forall|t: int| 0 <= t < result@.len() implies is_answer(
                        g,
                        words,
                        limit,
                        (#[trigger] result@[t]).steps@,
                        result@[t].conditions@,
                    ) by {
                        if t < before.len() {
                            assert(result@[t] == before[t]);
                        }
                    }
                }
            },
            None => {},
        }
        m += 1;
    }
    (result, Ghost(pick))
}

/// The first pick of a sound solution is a cell of the grid.
proof fn lemma_sound_in_grid(
    g: Seq<Seq<u8>>,
    words: Seq<Seq<u8>>,
    base: Seq<Solution>,
    s: Solution,
    n: int,
)
    requires
        forall|i: int| 0 <= i < words.len() ==> (#[trigger] words[i]).len() > 0,
        forall|b: int| 0 <= b < base.len() ==> is_seed(g, words, #[trigger] base[b]),
        is_sound(base, s, n),
    ensures
        cell_in(g, s.steps@[0]),
{
    let j = choose|j: int|
        0 <= j < base.len() && (#[trigger] base[j]).steps@.contains(#[trigger] s.steps@[0]);
    let d = choose|d: int| #[trigger]
        is_bare(g, words, d, base[j].steps@) && base[j].conditions@ == unit_flags(
            words.len() as int,
            d,
        );
    lemma_chain_is_route(g, words[d], base[j].steps@);
}

/// Every solution is an answer for the grid `g`, the daemons `words` and a
/// buffer of `limit` picks.
pub open spec fn all_answers(
    g: Seq<Seq<u8>>,
    words: Seq<Seq<u8>>,
    limit: int,
    answers: Seq<Solution>,
) -> bool {
    forall|m: int|
        0 <= m < answers.len() ==> is_answer(
            g,
            words,
            limit,
            (#[trigger] answers[m]).steps@,
            answers[m].conditions@,
        )
}

/// Every path that spells a single daemon is answered: it cannot be
/// finalized, or its finalized form is among the answers, with a claim to
/// that daemon.
pub open spec fn bare_paths_answered(
    g: Seq<Seq<u8>>,
    words: Seq<Seq<u8>>,
    limit: int,
    answers: Seq<Solution>,
) -> bool {
    forall|i: int, chain: Seq<Step>| #[trigger]
        is_bare(g, words, i, chain) ==> is_finalization(
            chain,
            width_of(g),
            g.len() as int,
            limit,
            None,
        ) || exists|m: int|
            0 <= m < answers.len() && is_finalization(
                chain,
                width_of(g),
                g.len() as int,
                limit,
                Some((#[trigger] answers[m]).steps@),
            ) && answers[m].conditions@[i]
}

/// If no daemon is longer than the buffer, no answer is.
pub open spec fn answers_fit(words: Seq<Seq<u8>>, limit: int, answers: Seq<Solution>) -> bool {
    (forall|i: int| 0 <= i < words.len() ==> (#[trigger] words[i]).len() <= limit) ==> forall|
        m: int,
    | 0 <= m < answers.len() ==> (#[trigger] answers[m]).steps@.len() <= limit
}

/// The answers come about by seeding, merging and finalizing.
pub open spec fn is_solved(
    g: Seq<Seq<u8>>,
    words: Seq<Seq<u8>>,
    limit: int,
    answers: Seq<Solution>,
) -> bool {
    exists|seeds: Seq<Solution>, merged: Seq<Solution>, pick: Seq<int>| #[trigger]
        is_solving(g, words, limit, seeds, merged, pick, answers)
}

/// Finds the solutions for a matrix, a list of daemons and a buffer of
/// `step_limit` picks: pick paths that the game accepts, each with the
/// daemons that it uploads. Use `filter_best` to choose among them.
///
/// The solutions come about in three steps, as `is_solving` says: every
/// path that spells a single daemon is found; these are merged until nothing
/// new comes of it; what can be finalized of the result is finalized.
///
/// Every returned solution is an answer in the sense of `is_answer`: its
/// path starts in the top row with a vertical move, picks no cell twice,
/// alternates between rows and columns, and spells every daemon that it
/// claims. Every path that spells one daemon and can be led into the top row
/// within the buffer is returned in its finalized form, with a claim to that
/// daemon. If no daemon is longer than the buffer, no returned path is.
pub fn solve(matrix: &Vec<Vec<u8>>, conditions: &Vec<Vec<u8>>, step_limit: usize) -> (r: Vec<
    Solution,
>)
    requires
        grid_fits(rows_of(matrix)),
        forall|i: int| 0 <= i < conditions@.len() ==> (#[trigger] conditions@[i])@.len() > 0,
    ensures
        all_answers(rows_of(matrix), rows_of(conditions), step_limit as int, r@),
        bare_paths_answered(rows_of(matrix), rows_of(conditions), step_limit as int, r@),
        answers_fit(rows_of(conditions), step_limit as int, r@),
        is_solved(rows_of(matrix), rows_of(conditions), step_limit as int, r@),
{
    let ghost g = rows_of(matrix);
    let ghost words = rows_of(conditions);
    let ghost limit = step_limit as int;
    let ghost n = conditions@.len() as int;
    let mut solutions = seed_solutions(matrix, conditions);
    let ghost base = solutions@;
    proof {
        lemma_seeds_are_base(g, words, base);
    }
    merge_solutions(&mut solutions, step_limit);
    let ghost merged = solutions@;
    proof {
        lemma_grows_with_count(base, merged, limit, n);
    }
    let (result, Ghost(pick)) = finalize_all(&solutions, matrix, conditions, step_limit, Ghost(base));
    proof {
        assert(is_solving(g, words, limit, base, merged, pick, result@));
        lemma_bare_paths_answered(g, words, limit, base, merged, pick, result@);
        lemma_answers_fit(g, words, limit, result@);
    }
    result
}

/// Answers fit the buffer if the daemons do.
proof fn lemma_answers_fit(
    g: Seq<Seq<u8>>,
    words: Seq<Seq<u8>>,
    limit: int,
    answers: Seq<Solution>,
)
    requires
        all_answers(g, words, limit, answers),
    ensures
        answers_fit(words, limit, answers),
{
    if forall|i: int| 0 <= i < words.len() ==> (#[trigger] words[i]).len() <= limit {
        assert forall|t: int| 0 <= t < answers.len() implies (#[trigger] answers[t]).steps@.len()
            <= limit by {
            assert(is_answer(g, words, limit, answers[t].steps@, answers[t].conditions@));
            if answers[t].steps@.len() > limit {
                let i = choose|i: int| #[trigger]
                    is_bare(g, words, i, answers[t].steps@) && words[i].len() > limit;
            }
        }
    }
}

/// With a single daemon merging adds nothing: what is merged is the seeds,
/// so that the answers are the seeds that can be finalized, each once.
pub proof fn lemma_single_daemon_merges_nothing(
    g: Seq<Seq<u8>>,
    words: Seq<Seq<u8>>,
    limit: int,
    seeds: Seq<Solution>,
    merged: Seq<Solution>,
)
    requires
        words.len() == 1,
        forall|m: int| 0 <= m < seeds.len() ==> is_seed(g, words, #[trigger] seeds[m]),
        grows_from(seeds, merged, limit, flag_count(seeds)),
        adds_joins(seeds, merged, limit),
    ensures
        merged.len() == seeds.len(),
        forall|m: int| 0 <= m < seeds.len() ==> (#[trigger] merged[m]).steps@ == seeds[m].steps@,
{
    if merged.len() > seeds.len() {
        let m = seeds.len() as int;
        assert(has_join(seeds, merged, m, limit));
        let (i, j, a, b) = choose|i: int, j: int, a: Seq<bool>, b: Seq<bool>| #[trigger]
            is_join_of(seeds, merged, m, limit, i, j, a, b);
        lemma_all_claimed(g, words, seeds, merged[i].steps@, a);
        lemma_all_claimed(g, words, seeds, merged[j].steps@, b);
        assert(a =~= b);
    }
}

/// With a single daemon, claims that descend from a seed are the claim to
/// that daemon.
proof fn lemma_all_claimed(
    g: Seq<Seq<u8>>,
    words: Seq<Seq<u8>>,
    seeds: Seq<Solution>,
    steps: Seq<Step>,
    flags: Seq<bool>,
)
    requires
        words.len() == 1,
        forall|m: int| 0 <= m < seeds.len() ==> is_seed(g, words, #[trigger] seeds[m]),
        merge::descends(seeds, steps, flags),
    ensures
        flags.len() == 1,
        flags[0],
{
    let x = choose|x: int|
        0 <= x < seeds.len() && is_part_of_spec(steps, (#[trigger] seeds[x]).steps@) && widens(
            seeds[x].conditions@,
            flags,
        );
    let d = choose|d: int| #[trigger]
        is_bare(g, words, d, seeds[x].steps@) && seeds[x].conditions@ == unit_flags(1, d);
    assert(d == 0);
    assert(seeds[x].conditions@[0]);
}

/// What the search for single daemons finds can be merged: the paths are
/// routes, and every solution has a flag for each daemon.
proof fn lemma_seeds_are_base(g: Seq<Seq<u8>>, words: Seq<Seq<u8>>, base: Seq<Solution>)
    requires
        forall|i: int| 0 <= i < words.len() ==> (#[trigger] words[i]).len() > 0,
        forall|m: int| 0 <= m < base.len() ==> is_seed(g, words, #[trigger] base[m]),
    ensures
        merge::is_base(base, flag_count(base)),
        base.len() > 0 ==> flag_count(base) == words.len(),
{
    let n = words.len() as int;
    if base.len() > 0 {
        let d0 = choose|d0: int| #[trigger]
            is_bare(g, words, d0, base[0].steps@) && base[0].conditions@ == unit_flags(n, d0);
    }
    assert forall|m: int| 0 <= m < base.len() implies path::is_route(
        (#[trigger] base[m]).steps@,
    ) && base[m].conditions@.len() == flag_count(base) by {
        let d = choose|d: int| #[trigger]
            is_bare(g, words, d, base[m].steps@) && base[m].conditions@ == unit_flags(n, d);
        lemma_chain_is_route(g, words[d], base[m].steps@);
    }
}

/// What grows from a base has as many flags as the base, whatever number is
/// given for an empty base.
proof fn lemma_grows_with_count(base: Seq<Solution>, merged: Seq<Solution>, limit: int, n: int)
    requires
        grows_from(base, merged, limit, flag_count(base)),
        base.len() > 0 ==> flag_count(base) == n,
    ensures
        grows_from(base, merged, limit, n),
{
    if base.len() == 0 {
        if merged.len() > 0 {
            assert(is_sound(base, merged[0], flag_count(base)));
        }
    }
}

/// Every path that spells a single daemon is answered: it cannot be
/// finalized, or its finalized form is among the answers with a claim to the
/// daemon.
proof fn lemma_bare_paths_answered(
    g: Seq<Seq<u8>>,
    words: Seq<Seq<u8>>,
    limit: int,
    seeds: Seq<Solution>,
    merged: Seq<Solution>,
    pick: Seq<int>,
    answers: Seq<Solution>,
)
    requires
        is_solving(g, words, limit, seeds, merged, pick, answers),
    ensures
        bare_paths_answered(g, words, limit, answers),
{
    let n = words.len() as int;
    assert forall|i: int, chain: Seq<Step>| #[trigger] is_bare(g, words, i, chain) implies is_finalization(
        chain,
        width_of(g),
        g.len() as int,
        limit,
        None,
    ) || exists|m: int|
        0 <= m < answers.len() && is_finalization(
            chain,
            width_of(g),
            g.len() as int,
            limit,
            Some((#[trigger] answers[m]).steps@),
        ) && answers[m].conditions@[i] by {
        let b = choose|b: int|
            0 <= b < seeds.len() && (#[trigger] seeds[b]).steps@ == chain && seeds[b].conditions@
                == unit_flags(n, i);
        assert(merged[b].steps@ == chain && widens(seeds[b].conditions@, merged[b].conditions@));
        assert(seeds[b].conditions@[i]);
        if pick.contains(b) {
            let t = choose|t: int| 0 <= t < pick.len() && pick[t] == b;
            assert(answers[t].conditions@ == merged[pick[t]].conditions@);
        }
    }
}

} // verus!
