//! Enumeration of the pick paths that spell one daemon.

use vstd::prelude::*;
use crate::solver::{Step, next_step_is_horizontal};
use vstd::slice::slice_subrange;
use crate::solver::path::{
    rows_of, paths_of, grid_is_addressable, cell_before, is_candidate, direction_allows, in_reading_order,
    is_horizontal, spells_from, chain_before, in_search_order, lemma_spells_from_step,
};

verus! {

/// Tells whether `c` is among `steps`.
pub fn contains_step(steps: &[Step], c: Step) -> (r: bool)
    ensures
        r == steps@.contains(c),
{
    let mut i: usize = 0;
    while i < steps.len()
        invariant
            i <= steps@.len(),
            forall|k: int| 0 <= k < i ==> steps@[k] != c,
        decreases steps@.len() - i,
    {
        if steps[i].x == c.x && steps[i].y == c.y {
            return true;
        }
        i += 1;
    }
    false
}

/// Finds the cells that can be picked next to get the byte `next_code`:
/// every cell that holds it, is not yet in `steps` and obeys the direction
/// rule, in reading order.
pub fn next_possible_steps(steps: &Vec<Step>, next_code: u8, matrix: &Vec<Vec<u8>>) -> (r: Vec<
    Step,
>)
    requires
        grid_is_addressable(rows_of(matrix)),
    ensures
        forall|i: int| 0 <= i < r@.len() ==> is_candidate(rows_of(matrix), steps@, next_code, r@[i]),
        forall|c: Step| is_candidate(rows_of(matrix), steps@, next_code, c) ==> r@.contains(c),
        in_reading_order(r@),
{
    let ghost g = rows_of(matrix);
    let direction = next_step_is_horizontal(steps.as_slice());
    let mut r: Vec<Step> = Vec::new();
    let mut y: usize = 0;
    while y < matrix.len()
        invariant
            y <= matrix@.len(),
            g == rows_of(matrix),
            grid_is_addressable(g),
            steps@.len() <= 1 ==> direction.is_none(),
            steps@.len() >= 2 ==> direction == Some(
                !is_horizontal(steps@[steps@.len() - 2], steps@[steps@.len() - 1]),
            ),
            forall|i: int|
                0 <= i < r@.len() ==> is_candidate(g, steps@, next_code, r@[i]) && r@[i].y < y,
            forall|c: Step| is_candidate(g, steps@, next_code, c) && c.y < y ==> r@.contains(c),
            in_reading_order(r@),
        decreases matrix@.len() - y,
    {
        let line = &matrix[y];
        assert(g[y as int] == line@);
        let mut x: usize = 0;
        while x < line.len()
            invariant
                y < matrix@.len(),
                x <= line@.len(),
                g == rows_of(matrix),
                g[y as int] == line@,
                grid_is_addressable(g),
                steps@.len() <= 1 ==> direction.is_none(),
                steps@.len() >= 2 ==> direction == Some(
                    !is_horizontal(steps@[steps@.len() - 2], steps@[steps@.len() - 1]),
                ),
                forall|i: int|
                    0 <= i < r@.len() ==> is_candidate(g, steps@, next_code, r@[i]) && (r@[i].y < y
                        || (r@[i].y == y && r@[i].x < x)),
                forall|c: Step|
                    is_candidate(g, steps@, next_code, c) && (c.y < y || (c.y == y && c.x < x))
                        ==> r@.contains(c),
                in_reading_order(r@),
            decreases line@.len() - x,
        {
            let step = Step::new(x as u8, y as u8);
            let wanted = line[x] == next_code && !contains_step(steps.as_slice(), step);
            let allowed = if steps.len() == 0 {
                true
            } else {
                let last = steps[steps.len() - 1];
                match direction {
                    None => step.x == last.x || step.y == last.y,
                    Some(true) => step.y == last.y,
                    Some(false) => step.x == last.x,
                }
            };
            assert(allowed == direction_allows(steps@, step));
            assert((wanted && allowed) == is_candidate(g, steps@, next_code, step));
            let ghost before = r@;
            if wanted && allowed {
                r.push(step);
                assert forall|c: Step|
                    is_candidate(g, steps@, next_code, c) && (c.y < y || (c.y == y && c.x < x + 1))
                    implies r@.contains(c) by {
                    if c.y == y && c.x == x {
                        assert(c == step);
                        assert(r@[before.len() as int] == step);
                    } else {
                        assert(before.contains(c));
                        let k = choose|k: int| 0 <= k < before.len() && before[k] == c;
                        assert(r@[k] == c);
                    }
                }
            } else {
                assert forall|c: Step|
                    is_candidate(g, steps@, next_code, c) && (c.y < y || (c.y == y && c.x < x + 1))
                    implies r@.contains(c) by {
                    if c.y == y && c.x == x {
                        assert(c == step);
                    }
                }
            }
            x += 1;
        }
        y += 1;
    }
    r
}

/// Copies a path into a vector of its own.
pub fn copy_steps(steps: &[Step]) -> (r: Vec<Step>)
    ensures
        r@ == steps@,
{
    let mut r: Vec<Step> = Vec::with_capacity(steps.len());
    let mut i: usize = 0;
    while i < steps.len()
        invariant
            i <= steps@.len(),
            r@ == steps@.subrange(0, i as int),
        decreases steps@.len() - i,
    {
        r.push(steps[i]);
        i += 1;
    }
    proof {
        assert(steps@.subrange(0, steps@.len() as int) =~= steps@);
    }
    r
}

/// Enumerates the paths that continue `steps` (or start afresh, for `None`)
/// and pick the bytes of `condition` one after another, each pick a
/// candidate after those before it. The paths come in search order.
pub fn find_condition_solutions(
    condition: &[u8],
    steps: Option<Vec<Step>>,
    matrix: &Vec<Vec<u8>>,
) -> (r: Vec<Vec<Step>>)
    requires
        grid_is_addressable(rows_of(matrix)),
    ensures
        forall|i: int|
            0 <= i < r@.len() ==> spells_from(
                rows_of(matrix),
                start_of(steps),
                condition@,
                #[trigger] r@[i]@,
            ),
        forall|chain: Seq<Step>|
            spells_from(rows_of(matrix), start_of(steps), condition@, chain) ==> paths_of(
                r@,
            ).contains(chain),
        in_search_order(paths_of(r@)),
    decreases condition@.len(),
{
    let ghost g = rows_of(matrix);
    let ghost start = start_of(steps);
    let ghost word = condition@;
    let steps: Vec<Step> = match steps {
        Some(s) => s,
        None => Vec::new(),
    };
    let mut result: Vec<Vec<Step>> = Vec::new();
    if condition.len() == 0 {
        result.push(steps);
        proof {
            assert(result@[0]@ == start);
            assert(start.subrange(0, start.len() as int) =~= start);
            assert forall|chain: Seq<Step>| spells_from(g, start, word, chain) implies paths_of(
                result@,
            ).contains(chain) by {
                assert(chain.subrange(0, start.len() as int) =~= chain);
                assert(paths_of(result@)[0] == chain);
            }
        }
        return result;
    }
    let next_hex = condition[0];
    let next_steps = next_possible_steps(&steps, next_hex, matrix);
    let rest = slice_subrange(condition, 1, condition.len());
    let mut m: usize = 0;
    while m < next_steps.len()
        invariant
            m <= next_steps@.len(),
            g == rows_of(matrix),
            grid_is_addressable(g),
            word == condition@,
            word.len() > 0,
            start == steps@,
            rest@ == word.subrange(1, word.len() as int),
            forall|i: int|
                0 <= i < next_steps@.len() ==> is_candidate(g, start, word[0], next_steps@[i]),
            forall|c: Step| is_candidate(g, start, word[0], c) ==> next_steps@.contains(c),
            in_reading_order(next_steps@),
            forall|i: int|
                0 <= i < result@.len() ==> spells_from(g, start, word, #[trigger] result@[i]@),
            forall|i: int|
                0 <= i < result@.len() ==> exists|k: int|
                    0 <= k < m && (#[trigger] result@[i]@)[start.len() as int] == next_steps@[k],
            forall|chain: Seq<Step>, k: int|
                spells_from(g, start, word, chain) && 0 <= k < m && chain[start.len() as int]
                    == next_steps@[k] ==> paths_of(result@).contains(chain),
            in_search_order(paths_of(result@)),
        decreases next_steps@.len() - m,
    {
        let step = next_steps[m];
        let mut new_steps = copy_steps(steps.as_slice());
        new_steps.push(step);
        let ghost next = start.push(step);
        let mut found = find_condition_solutions(rest, Some(new_steps), matrix);
        let ghost before = result@;
        let ghost added = found@;
        result.append(&mut found);
        proof {
            assert(result@ == before + added);
            assert forall|i: int| 0 <= i < result@.len() implies spells_from(
                g,
                start,
                word,
                #[trigger] result@[i]@,
            ) && exists|k: int|
                0 <= k < m + 1 && result@[i]@[start.len() as int] == next_steps@[k] by {
                if i < before.len() {
                    assert(result@[i] == before[i]);
                    let k = choose|k: int|
                        0 <= k < m && before[i]@[start.len() as int] == next_steps@[k];
                    assert(0 <= k < m + 1 && result@[i]@[start.len() as int] == next_steps@[k]);
                } else {
                    let chain = added[i - before.len()]@;
                    assert(result@[i] == added[i - before.len()]);
                    assert(spells_from(g, next, rest@, chain));
                    assert(chain.subrange(0, next.len() as int)[start.len() as int]
                        == chain[start.len() as int]);
                    assert(chain[start.len() as int] == step);
                    lemma_spells_from_step(g, start, word, chain);
                }
            }
            assert forall|chain: Seq<Step>, k: int|
                spells_from(g, start, word, chain) && 0 <= k < m + 1 && chain[start.len() as int]
                    == next_steps@[k] implies paths_of(result@).contains(chain) by {
                if k < m {
                    assert(paths_of(before).contains(chain));
                    let i = choose|i: int| 0 <= i < before.len() && paths_of(before)[i] == chain;
                    assert(result@[i] == before[i]);
                    assert(paths_of(result@)[i] == chain);
                } else {
                    lemma_spells_from_step(g, start, word, chain);
                    assert(paths_of(added).contains(chain));
                    let i = choose|i: int| 0 <= i < added.len() && paths_of(added)[i] == chain;
                    assert(result@[before.len() + i] == added[i]);
                    assert(paths_of(result@)[before.len() + i] == chain);
                }
            }
            assert forall|i: int, j: int| 0 <= i < j < result@.len() implies chain_before(
                paths_of(result@)[i],
                paths_of(result@)[j],
            ) by {
                let a = result@[i]@;
                let b = result@[j]@;
                if j < before.len() {
                    assert(result@[i] == before[i] && result@[j] == before[j]);
                    assert(chain_before(paths_of(before)[i], paths_of(before)[j]));
                } else if i >= before.len() {
                    assert(result@[i] == added[i - before.len()]);
                    assert(result@[j] == added[j - before.len()]);
                    assert(chain_before(
                        paths_of(added)[i - before.len()],
                        paths_of(added)[j - before.len()],
                    ));
                } else {
                    assert(result@[i] == before[i]);
                    assert(result@[j] == added[j - before.len()]);
                    let k = choose|k: int|
                        0 <= k < m && before[i]@[start.len() as int] == next_steps@[k];
                    assert(spells_from(g, next, rest@, b));
                    assert(b.subrange(0, next.len() as int)[start.len() as int]
                        == b[start.len() as int]);
                    assert(b[start.len() as int] == step);
                    assert(cell_before(next_steps@[k], next_steps@[m as int]));
                    assert(spells_from(g, start, word, a));
                    assert(b.subrange(0, start.len() as int) =~= b.subrange(
                        0,
                        next.len() as int,
                    ).subrange(0, start.len() as int));
                    assert(a.subrange(0, start.len() as int) == b.subrange(0, start.len() as int));
                }
            }
        }
        m += 1;
    }
    proof {
        assert forall|chain: Seq<Step>| spells_from(g, start, word, chain) implies paths_of(
            result@,
        ).contains(chain) by {
            let n = start.len() as int;
            assert(chain.subrange(0, n + 0) =~= start);
            assert(is_candidate(g, chain.subrange(0, n + 0), word[0], chain[n + 0]));
            let c = chain[n];
            assert(next_steps@.contains(c));
            let k = choose|k: int| 0 <= k < next_steps@.len() && next_steps@[k] == c;
            assert(0 <= k < m);
        }
    }
    result
}

/// The picks that a search starts from: those given, or none.
pub open spec fn start_of(steps: Option<Vec<Step>>) -> Seq<Step> {
    match steps {
        Some(s) => s@,
        None => Seq::empty(),
    }
}

} // verus!
