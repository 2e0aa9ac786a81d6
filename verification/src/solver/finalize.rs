//! Leading a route into the top row: the picks that are put in front of a
//! route so that it starts in row 0 with a vertical move.

use vstd::prelude::*;
use crate::solver::{Step, is_horizontal_step};
use crate::solver::path::{
    MAX_SIDE, is_horizontal, is_route, is_finalized, linked, all_within, cell_within,
    lemma_lead_in_route,
};
use crate::solver::search::contains_step;
use crate::util::{new_vec, occurs_at};

verus! {

/// The cell of the top row in column `x`.
pub open spec fn top_of(x: int) -> Step {
    Step { x: x as u8, y: 0 }
}

/// The cell in column `x` and row `y`.
pub open spec fn cell(x: int, y: int) -> Step {
    Step { x: x as u8, y: y as u8 }
}

/// A two-pick lead-in through column `x` is free: down column `x` from the
/// top row to the row of the route's first pick, then across to that pick.
pub open spec fn bypass_free(s: Seq<Step>, width: int, x: int) -> bool {
    &&& 0 <= x < width
    &&& x != s[0].x
    &&& !s.contains(top_of(x))
    &&& !s.contains(cell(x, s[0].y as int))
}

/// The two-pick lead-in through column `x`.
pub open spec fn bypass(s: Seq<Step>, x: int) -> Seq<Step> {
    seq![top_of(x), cell(x, s[0].y as int)]
}

/// A three-pick lead-in through column `x` and row `y` is free: down column
/// `x` from the top row to row `y`, across to the column of the route's first
/// pick, then up or down that column to the pick.
pub open spec fn detour_free(s: Seq<Step>, width: int, height: int, x: int, y: int) -> bool {
    &&& 0 <= x < width
    &&& 0 <= y < height
    &&& x != s[0].x
    &&& y != s[0].y
    &&& !s.contains(top_of(x))
    &&& !s.contains(cell(x, y))
    &&& !s.contains(cell(s[0].x as int, y))
}

/// The three-pick lead-in through column `x` and row `y`.
pub open spec fn detour(s: Seq<Step>, x: int, y: int) -> Seq<Step> {
    seq![top_of(x), cell(x, y), cell(s[0].x as int, y)]
}

/// What finalizing the route `s` gives on a grid of `width` columns and
/// `height` rows with a buffer of `limit` picks.
///
/// A route that starts in the top row with a vertical move (or is a single
/// pick there) is kept as it is, whatever the buffer. Any other route gets
/// the shortest lead-in that the rules allow and the buffer has room for:
/// the top cell of its first column before a single pick or a horizontal
/// first move, unless the route passes through that cell, in which case a
/// detour of three picks is taken; a bypass of two picks before a vertical
/// first move. Of several free detours the one in the leftmost column and,
/// within it, the topmost row is taken; of several bypasses, the leftmost.
pub open spec fn is_finalization(
    s: Seq<Step>,
    width: int,
    height: int,
    limit: int,
    r: Option<Seq<Step>>,
) -> bool {
    if s.len() == 0 {
        r.is_none()
    } else if s[0].y == 0 && (s.len() == 1 || !is_horizontal(s[0], s[1])) {
        r == Some(s)
    } else if s.len() == 1 {
        r == if limit >= 2 {
            Some(seq![top_of(s[0].x as int)] + s)
        } else {
            None
        }
    } else if is_horizontal(s[0], s[1]) {
        if !s.contains(top_of(s[0].x as int)) {
            r == if limit >= s.len() + 1 {
                Some(seq![top_of(s[0].x as int)] + s)
            } else {
                None
            }
        } else if limit < s.len() + 3 {
            r.is_none()
        } else {
            match r {
                Some(q) => exists|x: int, y: int|
                    {
                        &&& #[trigger] detour_free(s, width, height, x, y)
                        &&& q == detour(s, x, y) + s
                        &&& forall|x2: int, y2: int|
                            x2 < x || (x2 == x && y2 < y) ==> !#[trigger] detour_free(
                                s,
                                width,
                                height,
                                x2,
                                y2,
                            )
                    },
                None => forall|x: int, y: int| !#[trigger] detour_free(s, width, height, x, y),
            }
        }
    } else {
        if limit < s.len() + 2 {
            r.is_none()
        } else {
            match r {
                Some(q) => exists|x: int|
                    {
                        &&& #[trigger] bypass_free(s, width, x)
                        &&& q == bypass(s, x) + s
                        &&& forall|x2: int| x2 < x ==> !#[trigger] bypass_free(s, width, x2)
                    },
                None => forall|x: int| !#[trigger] bypass_free(s, width, x),
            }
        }
    }
}

/// The top cell of a route's first column is a lead-in for it, if the route
/// does not pass through that cell and does not start with a vertical move.
proof fn lemma_top_lead(s: Seq<Step>, width: int, height: int)
    requires
        is_route(s),
        !s.contains(top_of(s[0].x as int)),
        s.len() >= 2 ==> is_horizontal(s[0], s[1]),
    ensures
        is_finalized(seq![top_of(s[0].x as int)] + s),
        occurs_at(seq![top_of(s[0].x as int)] + s, s, 1),
        all_within(s, width, height) ==> all_within(
            seq![top_of(s[0].x as int)] + s,
            width,
            height,
        ),
{
    let top = top_of(s[0].x as int);
    let lead = seq![top];
    assert(s.contains(s[0]));
    assert(lead[0] == top);
    assert(is_route(lead));
    lemma_lead_in_route(lead, s);
    if all_within(s, width, height) {
        assert(cell_within(s[0], width, height));
        assert(all_within(lead, width, height));
    }
    lemma_within(lead, s, width, height);
    assert((lead + s)[0] == top);
    assert((lead + s)[1] == s[0]);
}

/// A free bypass is a lead-in for a route that starts with a vertical move
/// below the top row.
proof fn lemma_bypass_lead(s: Seq<Step>, width: int, height: int, x: int)
    requires
        is_route(s),
        width <= MAX_SIDE,
        s.len() >= 2,
        !is_horizontal(s[0], s[1]),
        s[0].y != 0,
        bypass_free(s, width, x),
    ensures
        is_finalized(bypass(s, x) + s),
        occurs_at(bypass(s, x) + s, s, 2),
        all_within(s, width, height) ==> all_within(bypass(s, x) + s, width, height),
{
    let lead = bypass(s, x);
    assert(lead[0] == top_of(x) && lead[1] == cell(x, s[0].y as int));
    assert(linked(lead[1 - 1], lead[1]));
    assert(is_route(lead));
    lemma_lead_in_route(lead, s);
    if all_within(s, width, height) {
        assert(cell_within(s[0], width, height));
        assert(all_within(lead, width, height));
    }
    lemma_within(lead, s, width, height);
    assert((lead + s)[0] == lead[0]);
    assert((lead + s)[1] == lead[1]);
}

/// A free detour is a lead-in for a route that starts with a horizontal move
/// and passes through the top cell of its first column.
proof fn lemma_detour_lead(s: Seq<Step>, width: int, height: int, x: int, y: int)
    requires
        is_route(s),
        width <= MAX_SIDE,
        height <= MAX_SIDE,
        s.len() >= 2,
        is_horizontal(s[0], s[1]),
        s.contains(top_of(s[0].x as int)),
        detour_free(s, width, height, x, y),
    ensures
        is_finalized(detour(s, x, y) + s),
        occurs_at(detour(s, x, y) + s, s, 3),
        all_within(s, width, height) ==> all_within(detour(s, x, y) + s, width, height),
{
    let lead = detour(s, x, y);
    assert(lead[0] == top_of(x) && lead[1] == cell(x, y) && lead[2] == cell(s[0].x as int, y));
    assert(y != 0) by {
        if y == 0 {
            assert(cell(s[0].x as int, y) == top_of(s[0].x as int));
        }
    }
    assert(linked(lead[1 - 1], lead[1]));
    assert(linked(lead[2 - 1], lead[2]));
    assert(is_horizontal(lead[2 - 2], lead[2 - 1]) != is_horizontal(lead[2 - 1], lead[2]));
    assert(is_route(lead));
    lemma_lead_in_route(lead, s);
    if all_within(s, width, height) {
        assert(cell_within(s[0], width, height));
        assert(all_within(lead, width, height));
    }
    lemma_within(lead, s, width, height);
    assert((lead + s)[0] == lead[0]);
    assert((lead + s)[1] == lead[1]);
}

/// What finalizing makes of a route is a path that the game accepts: it
/// starts in the top row with a vertical move, picks no cell twice and
/// alternates. It ends with the route itself, is the route itself or fits
/// the buffer, and stays inside the grid if the route does.
pub proof fn lemma_finalization_is_finalized(
    s: Seq<Step>,
    width: int,
    height: int,
    limit: int,
    q: Seq<Step>,
)
    requires
        is_route(s),
        width <= MAX_SIDE,
        height <= MAX_SIDE,
        is_finalization(s, width, height, limit, Some(q)),
    ensures
        is_finalized(q),
        s.len() <= q.len() <= s.len() + 3,
        occurs_at(q, s, q.len() - s.len()),
        q == s || q.len() <= limit,
        all_within(s, width, height) ==> all_within(q, width, height),
{
    let top = top_of(s[0].x as int);
    assert(s.contains(s[0]));
    if s.len() >= 2 {
        assert(linked(s[1 - 1], s[1]));
    }
    if s[0].y == 0 && (s.len() == 1 || !is_horizontal(s[0], s[1])) {
        assert(s.subrange(0, s.len() as int) =~= s);
    } else if s.len() == 1 {
        assert(!s.contains(top)) by {
            if s.contains(top) {
                let i = choose|i: int| 0 <= i < s.len() && s[i] == top;
            }
        }
        lemma_top_lead(s, width, height);
    } else if is_horizontal(s[0], s[1]) {
        if !s.contains(top) {
            lemma_top_lead(s, width, height);
        } else {
            let (x, y) = choose|x: int, y: int|
                {
                    &&& #[trigger] detour_free(s, width, height, x, y)
                    &&& q == detour(s, x, y) + s
                };
            lemma_detour_lead(s, width, height, x, y);
        }
    } else {
        let x = choose|x: int| #[trigger] bypass_free(s, width, x) && q == bypass(s, x) + s;
        lemma_bypass_lead(s, width, height, x);
    }
}

/// A path of cells inside the grid stays inside it when cells inside the
/// grid are put before it.
proof fn lemma_within(lead: Seq<Step>, s: Seq<Step>, width: int, height: int)
    requires
        all_within(s, width, height) ==> all_within(lead, width, height),
    ensures
        all_within(s, width, height) ==> all_within(lead + s, width, height),
{
}

/// Makes a route start in the top row with a vertical move, by putting up to
/// three picks in front of it. Gives `None` where the rules leave no lead-in
/// or the buffer has no room for it.
#[verifier::loop_isolation(false)]
pub fn finalize_solution(s: &[Step], matrix: &Vec<Vec<u8>>, step_limit: usize) -> (r: Option<
    Vec<Step>,
>)
    requires
        0 < matrix@.len() <= MAX_SIDE,
        matrix@[0]@.len() <= MAX_SIDE,
    ensures
        is_finalization(
            s@,
            matrix@[0]@.len() as int,
            matrix@.len() as int,
            step_limit as int,
            match r {
                Some(q) => Some(q@),
                None => None,
            },
        ),
{
    if s.len() == 0 {
        return None;
    }
    let first_pick = s[0];
    if first_pick.y == 0 {
        if s.len() == 1 {
            return Some(new_vec(s, Vec::new().as_slice()));
        }
        if !is_horizontal_step(&s[0], &s[1]) {
            return Some(new_vec(s, Vec::new().as_slice()));
        }
    }
    if s.len() == 1 {
        return if step_limit >= 2 {
            let mut lead: Vec<Step> = Vec::new();
            lead.push(Step::new(first_pick.x, 0));
            Some(new_vec(lead.as_slice(), s))
        } else {
            None
        };
    }
    let width: u8 = matrix[0].len() as u8;
    let height: u8 = matrix.len() as u8;
    if is_horizontal_step(&s[0], &s[1]) {
        let first_step = Step::new(first_pick.x, 0);
        if !contains_step(s, first_step) {
            return if step_limit > s.len() {
                let mut lead: Vec<Step> = Vec::new();
                lead.push(first_step);
                Some(new_vec(lead.as_slice(), s))
            } else {
                None
            };
        }
        if step_limit < 3 || step_limit - 3 < s.len() {
            return None;
        }
        let mut x: u8 = 0;
        while x < width
            invariant
                x <= width,
                s@.len() >= 2,
                s@.len() + 3 <= step_limit,
                first_pick == s@[0],
                forall|x2: int, y2: int|
                    x2 < x ==> !#[trigger] detour_free(s@, width as int, height as int, x2, y2),
            decreases width - x,
        {
            if x != first_pick.x {
                let mut y: u8 = 0;
                while y < height
                    invariant
                        x < width,
                        y <= height,
                        x != first_pick.x,
                        s@.len() >= 2,
                        s@.len() + 3 <= step_limit,
                        first_pick == s@[0],
                        forall|x2: int, y2: int|
                            x2 < x || (x2 == x && y2 < y) ==> !#[trigger] detour_free(
                                s@,
                                width as int,
                                height as int,
                                x2,
                                y2,
                            ),
                    decreases height - y,
                {
                    if y != first_pick.y {
                        let first = Step::new(x, 0);
                        let second = Step::new(x, y);
                        let third = Step::new(first_pick.x, y);
                        if !(contains_step(s, first) || contains_step(s, second) || contains_step(
                            s,
                            third,
                        )) {
                            let mut lead: Vec<Step> = Vec::new();
                            lead.push(first);
                            lead.push(second);
                            lead.push(third);
                            proof {
                                assert(lead@ =~= detour(s@, x as int, y as int));
                                assert(detour_free(
                                    s@,
                                    width as int,
                                    height as int,
                                    x as int,
                                    y as int,
                                ));
                            }
                            return Some(new_vec(lead.as_slice(), s));
                        }
                    }
                    y += 1;
                }
            }
            x += 1;
        }
        None
    } else {
        if step_limit < 2 || step_limit - 2 < s.len() {
            return None;
        }
        let mut x: u8 = 0;
        while x < width
            invariant
                x <= width,
                s@.len() >= 2,
                s@.len() + 2 <= step_limit,
                first_pick == s@[0],
                forall|x2: int| x2 < x ==> !#[trigger] bypass_free(s@, width as int, x2),
            decreases width - x,
        {
            if x != first_pick.x {
                let first = Step::new(x, 0);
                let second = Step::new(x, first_pick.y);
                if !(contains_step(s, first) || contains_step(s, second)) {
                    let mut lead: Vec<Step> = Vec::new();
                    lead.push(first);
                    lead.push(second);
                    proof {
                        assert(lead@ =~= bypass(s@, x as int));
                        assert(bypass_free(s@, width as int, x as int));
                    }
                    return Some(new_vec(lead.as_slice(), s));
                }
            }
            x += 1;
        }
        None
    }
}

} // verus!
