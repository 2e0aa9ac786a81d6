//! The mathematical vocabulary of the solver: grids, cells, pick paths and
//! the rules that a pick path obeys.

use vstd::prelude::*;
use crate::solver::Step;
use crate::util::{occurs_at, is_part_of_spec};

verus! {

/// The largest number of rows, and of cells in a row, of a grid that is
/// solved: finalizing counts the rows and the columns of the grid in a `u8`.
pub const MAX_SIDE: usize = 255;

/// The largest number of rows, and of cells in a row, of a grid that is
/// searched: as many as a `u8` coordinate can tell apart.
pub const MAX_CELLS: usize = 256;

/// A matrix or a list of daemons as a sequence of byte rows.
pub open spec fn rows_of(m: &Vec<Vec<u8>>) -> Seq<Seq<u8>> {
    Seq::new(m@.len(), |i: int| m@[i]@)
}

/// A list of pick paths as a sequence of step sequences.
pub open spec fn paths_of(v: Seq<Vec<Step>>) -> Seq<Seq<Step>> {
    Seq::new(v.len(), |i: int| v[i]@)
}

/// Every cell of the grid can be named by a `Step`, and the number of rows
/// and the length of each row by a `u8`.
pub open spec fn grid_fits(g: Seq<Seq<u8>>) -> bool {
    &&& g.len() <= MAX_SIDE
    &&& forall|y: int| 0 <= y < g.len() ==> (#[trigger] g[y]).len() <= MAX_SIDE
}

/// Every cell of the grid can be named by a `Step`.
pub open spec fn grid_is_addressable(g: Seq<Seq<u8>>) -> bool {
    &&& g.len() <= MAX_CELLS
    &&& forall|y: int| 0 <= y < g.len() ==> (#[trigger] g[y]).len() <= MAX_CELLS
}

/// The number of cells in the first row of the grid, 0 for a grid without
/// rows.
pub open spec fn width_of(g: Seq<Seq<u8>>) -> int {
    if g.len() > 0 {
        g[0].len() as int
    } else {
        0
    }
}

/// All rows of the grid have the length of the first one.
pub open spec fn is_rectangular(g: Seq<Seq<u8>>) -> bool {
    forall|y: int| 0 <= y < g.len() ==> (#[trigger] g[y]).len() == g[0].len()
}

/// The cell lies inside the grid.
pub open spec fn cell_in(g: Seq<Seq<u8>>, c: Step) -> bool {
    c.y < g.len() && c.x < g[c.y as int].len()
}

/// The byte that the grid holds at the cell.
pub open spec fn byte_at(g: Seq<Seq<u8>>, c: Step) -> u8 {
    g[c.y as int][c.x as int]
}

/// The cell lies in the rectangle of `width` columns and `height` rows.
pub open spec fn cell_within(c: Step, width: int, height: int) -> bool {
    c.x < width && c.y < height
}

/// Every pick of the path lies in the rectangle of `width` columns and
/// `height` rows.
pub open spec fn all_within(p: Seq<Step>, width: int, height: int) -> bool {
    forall|i: int| 0 <= i < p.len() ==> cell_within(#[trigger] p[i], width, height)
}

/// Reading order of cells: by row, then by column.
pub open spec fn cell_before(a: Step, b: Step) -> bool {
    a.y < b.y || (a.y == b.y && a.x < b.x)
}

/// A move between two picks is horizontal when the column changes.
pub open spec fn is_horizontal(a: Step, b: Step) -> bool {
    a.x != b.x
}

/// Two picks that can follow one another: they share the row or the column,
/// and not both.
pub open spec fn linked(a: Step, b: Step) -> bool {
    (a.x == b.x) != (a.y == b.y)
}

/// Every pick shares exactly one coordinate with the pick before it, and
/// horizontal and vertical moves take turns.
pub open spec fn alternates(p: Seq<Step>) -> bool {
    &&& forall|i: int| 1 <= i < p.len() ==> linked(#[trigger] p[i - 1], p[i])
    &&& forall|i: int|
        2 <= i < p.len() ==> is_horizontal(#[trigger] p[i - 2], p[i - 1]) != is_horizontal(
            p[i - 1],
            p[i],
        )
}

/// A pick path before it is made to start in the top row: it is not empty,
/// picks no cell twice, and alternates.
pub open spec fn is_route(p: Seq<Step>) -> bool {
    &&& p.len() > 0
    &&& p.no_duplicates()
    &&& alternates(p)
}

/// A pick path as the game accepts it: a route that starts in the top row
/// with a vertical move.
pub open spec fn is_finalized(p: Seq<Step>) -> bool {
    &&& is_route(p)
    &&& p[0].y == 0
    &&& p.len() >= 2 ==> !is_horizontal(p[0], p[1])
}

/// The picks of `p` from index `from` on, read off the grid, begin with `word`.
pub open spec fn spells_at(g: Seq<Seq<u8>>, p: Seq<Step>, from: int, word: Seq<u8>) -> bool {
    &&& 0 <= from
    &&& from + word.len() <= p.len()
    &&& forall|k: int|
        0 <= k < word.len() ==> cell_in(g, #[trigger] p[from + k]) && byte_at(g, p[from + k])
            == word[k]
}

/// The bytes picked along `p` contain `word` as a contiguous run.
pub open spec fn covers(g: Seq<Seq<u8>>, p: Seq<Step>, word: Seq<u8>) -> bool {
    exists|from: int| spells_at(g, p, from, word)
}

/// Whether the direction rule lets `c` follow the picks made so far.
pub open spec fn direction_allows(picked: Seq<Step>, c: Step) -> bool {
    if picked.len() == 0 {
        true
    } else if picked.len() == 1 {
        c.x == picked[0].x || c.y == picked[0].y
    } else if is_horizontal(picked[picked.len() - 2], picked[picked.len() - 1]) {
        c.x == picked[picked.len() - 1].x
    } else {
        c.y == picked[picked.len() - 1].y
    }
}

/// Whether `c` can be the next pick after `picked` when the byte `code` is
/// wanted: it holds that byte, was not picked before, and the direction rule
/// allows it.
pub open spec fn is_candidate(g: Seq<Seq<u8>>, picked: Seq<Step>, code: u8, c: Step) -> bool {
    &&& cell_in(g, c)
    &&& byte_at(g, c) == code
    &&& !picked.contains(c)
    &&& direction_allows(picked, c)
}

/// The sequence lists cells in strict reading order.
pub open spec fn in_reading_order(s: Seq<Step>) -> bool {
    forall|i: int, j: int| 0 <= i < j < s.len() ==> cell_before(s[i], s[j])
}

/// `chain` continues `start` by one pick for each byte of `word`, each of
/// them a candidate after all the picks before it.
pub open spec fn spells_from(g: Seq<Seq<u8>>, start: Seq<Step>, word: Seq<u8>, chain: Seq<Step>) -> bool {
    &&& chain.len() == start.len() + word.len()
    &&& chain.subrange(0, start.len() as int) == start
    &&& forall|k: int|
        0 <= k < word.len() ==> is_candidate(
            g,
            chain.subrange(0, start.len() + k),
            word[k],
            #[trigger] chain[start.len() + k],
        )
}

/// Search order of paths: at the first pick where they differ, `a` picks
/// the cell that comes first in reading order.
pub open spec fn chain_before(a: Seq<Step>, b: Seq<Step>) -> bool {
    exists|k: int|
        0 <= k < a.len() && k < b.len() && #[trigger] a.subrange(0, k) == b.subrange(0, k)
            && cell_before(a[k], b[k])
}

/// The list holds paths in strict search order.
pub open spec fn in_search_order(list: Seq<Seq<Step>>) -> bool {
    forall|i: int, j: int| 0 <= i < j < list.len() ==> chain_before(list[i], list[j])
}

/// A path that spells `word` after `start.push(c)` spells `c`'s byte and
/// then `word` after `start`, and the other way round.
pub proof fn lemma_spells_from_step(
    g: Seq<Seq<u8>>,
    start: Seq<Step>,
    word: Seq<u8>,
    chain: Seq<Step>,
)
    requires
        word.len() > 0,
        chain.len() > start.len(),
    ensures
        spells_from(g, start, word, chain) <==> is_candidate(
            g,
            start,
            word[0],
            chain[start.len() as int],
        ) && spells_from(
            g,
            start.push(chain[start.len() as int]),
            word.subrange(1, word.len() as int),
            chain,
        ),
{
    let c = chain[start.len() as int];
    let next = start.push(c);
    let rest = word.subrange(1, word.len() as int);
    let n = start.len() as int;
    if spells_from(g, start, word, chain) {
        assert(chain.subrange(0, n + 0) =~= start);
        assert(is_candidate(g, chain.subrange(0, n + 0), word[0], chain[n + 0]));
        assert(chain.subrange(0, n + 1) =~= next);
        assert forall|k: int| 0 <= k < rest.len() implies is_candidate(
            g,
            chain.subrange(0, next.len() + k),
            rest[k],
            #[trigger] chain[next.len() + k],
        ) by {
            assert(is_candidate(g, chain.subrange(0, n + (k + 1)), word[k + 1], chain[n + (k + 1)]));
        }
    }
    if is_candidate(g, start, word[0], c) && spells_from(g, next, rest, chain) {
        assert(chain.subrange(0, n) =~= chain.subrange(0, n + 1).subrange(0, n));
        assert(chain.subrange(0, n) =~= start);
        assert forall|k: int| 0 <= k < word.len() implies is_candidate(
            g,
            chain.subrange(0, n + k),
            word[k],
            #[trigger] chain[n + k],
        ) by {
            if k == 0 {
                assert(chain.subrange(0, n + 0) =~= start);
            } else {
                assert(is_candidate(
                    g,
                    chain.subrange(0, next.len() + (k - 1)),
                    rest[k - 1],
                    chain[next.len() + (k - 1)],
                ));
            }
        }
    }
}

/// Putting a lead-in before a route gives a route again, if the lead-in is
/// a route of cells that the route does not pass through, ends next to the
/// route's first pick, and the moves take turns across the joint.
pub proof fn lemma_lead_in_route(lead: Seq<Step>, s: Seq<Step>)
    requires
        is_route(lead),
        is_route(s),
        forall|i: int| 0 <= i < lead.len() ==> !s.contains(#[trigger] lead[i]),
        linked(lead.last(), s[0]),
        lead.len() >= 2 ==> is_horizontal(lead[lead.len() - 2], lead.last()) != is_horizontal(
            lead.last(),
            s[0],
        ),
        s.len() >= 2 ==> is_horizontal(lead.last(), s[0]) != is_horizontal(s[0], s[1]),
    ensures
        is_route(lead + s),
        occurs_at(lead + s, s, lead.len() as int),
        occurs_at(lead + s, lead, 0),
{
    let q = lead + s;
    let n = lead.len() as int;
    assert forall|i: int, j: int| 0 <= i < q.len() && 0 <= j < q.len() && i != j implies q[i]
        != q[j] by {
        if i < n && j >= n {
            assert(s.contains(s[j - n]));
        } else if j < n && i >= n {
            assert(s.contains(s[i - n]));
        }
    }
    assert forall|i: int| 1 <= i < q.len() implies linked(#[trigger] q[i - 1], q[i]) by {
        if i < n {
            assert(linked(lead[i - 1], lead[i]));
        } else if i > n {
            assert(linked(s[i - n - 1], s[i - n]));
        }
    }
    assert forall|i: int| 2 <= i < q.len() implies is_horizontal(#[trigger] q[i - 2], q[i - 1])
        != is_horizontal(q[i - 1], q[i]) by {
        if i < n {
            assert(is_horizontal(lead[i - 2], lead[i - 1]) != is_horizontal(lead[i - 1], lead[i]));
        } else if i >= n + 2 {
            assert(is_horizontal(s[i - n - 2], s[i - n - 1]) != is_horizontal(
                s[i - n - 1],
                s[i - n],
            ));
        }
    }
    assert(q.subrange(n, n + s.len()) =~= s);
    assert(q.subrange(0, 0 + n) =~= lead);
}

/// A path that spells a word pick by pick from its first pick is a route of
/// cells of the grid, and the word is what it spells.
pub proof fn lemma_chain_is_route(g: Seq<Seq<u8>>, word: Seq<u8>, chain: Seq<Step>)
    requires
        word.len() > 0,
        spells_from(g, Seq::empty(), word, chain),
    ensures
        is_route(chain),
        spells_at(g, chain, 0, word),
        forall|i: int| 0 <= i < chain.len() ==> cell_in(g, #[trigger] chain[i]),
{
    assert forall|k: int| 0 <= k < chain.len() implies is_candidate(
        g,
        chain.subrange(0, k),
        word[k],
        #[trigger] chain[k],
    ) by {
        assert(is_candidate(g, chain.subrange(0, 0 + k), word[k], chain[0 + k]));
    }
    assert forall|i: int, j: int| 0 <= i < j < chain.len() implies chain[i] != chain[j] by {
        assert(is_candidate(g, chain.subrange(0, j), word[j], chain[j]));
        assert(chain.subrange(0, j)[i] == chain[i]);
    }
    assert forall|i: int| 1 <= i < chain.len() implies linked(#[trigger] chain[i - 1], chain[i]) by {
        let before = chain.subrange(0, i);
        assert(is_candidate(g, before, word[i], chain[i]));
        assert(before[i - 1] == chain[i - 1]);
        assert(before.contains(chain[i - 1]));
        if i >= 2 {
            assert(before[i - 2] == chain[i - 2]);
        }
    }
    assert forall|i: int| 2 <= i < chain.len() implies is_horizontal(
        #[trigger] chain[i - 2],
        chain[i - 1],
    ) != is_horizontal(chain[i - 1], chain[i]) by {
        let before = chain.subrange(0, i);
        assert(is_candidate(g, before, word[i], chain[i]));
        assert(before[i - 1] == chain[i - 1]);
        assert(before[i - 2] == chain[i - 2]);
        assert(before.contains(chain[i - 1]));
    }
    assert forall|k: int| 0 <= k < word.len() implies cell_in(g, #[trigger] chain[0 + k])
        && byte_at(g, chain[0 + k]) == word[k] by {
        assert(is_candidate(g, chain.subrange(0, k), word[k], chain[k]));
    }
}

/// The first picks of a route are a route.
pub proof fn lemma_route_prefix(s: Seq<Step>, n: int)
    requires
        is_route(s),
        0 < n <= s.len(),
    ensures
        is_route(s.subrange(0, n)),
{
    let t = s.subrange(0, n);
    assert forall|i: int| 1 <= i < t.len() implies linked(#[trigger] t[i - 1], t[i]) by {
        assert(linked(s[i - 1], s[i]));
    }
    assert forall|i: int| 2 <= i < t.len() implies is_horizontal(#[trigger] t[i - 2], t[i - 1])
        != is_horizontal(t[i - 1], t[i]) by {
        assert(is_horizontal(s[i - 2], s[i - 1]) != is_horizontal(s[i - 1], s[i]));
    }
}

/// A piece of a piece is a piece.
pub proof fn lemma_part_of_part<T>(a: Seq<T>, b: Seq<T>, c: Seq<T>)
    requires
        is_part_of_spec(a, b),
        is_part_of_spec(b, c),
    ensures
        is_part_of_spec(a, c),
{
    let i = choose|i: int| occurs_at(a, b, i);
    let j = choose|j: int| occurs_at(b, c, j);
    assert(a.subrange(i + j, i + j + c.len()) =~= a.subrange(i, i + b.len()).subrange(
        j,
        j + c.len(),
    ));
    assert(occurs_at(a, c, i + j));
}

/// A path that holds a piece which spells a word spells that word too.
pub proof fn lemma_covers_part(g: Seq<Seq<u8>>, q: Seq<Step>, s: Seq<Step>, word: Seq<u8>)
    requires
        is_part_of_spec(q, s),
        covers(g, s, word),
    ensures
        covers(g, q, word),
{
    let off = choose|off: int| occurs_at(q, s, off);
    let from = choose|from: int| spells_at(g, s, from, word);
    assert forall|k: int| 0 <= k < word.len() implies cell_in(g, #[trigger] q[off + from + k])
        && byte_at(g, q[off + from + k]) == word[k] by {
        assert(q.subrange(off, off + s.len())[from + k] == q[off + from + k]);
        assert(cell_in(g, s[from + k]));
    }
    assert(spells_at(g, q, off + from, word));
}

} // verus!
