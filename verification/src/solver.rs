//! The solver driver: recompute candidates once at entry, then run technique
//! passes against a wall-clock budget, applying the first move of each pass,
//! logging it and accumulating its points, until the grid is solved, no
//! technique applies, or time is up.  The driver never guesses: every commit
//! it makes is justified by a technique's contract.

use vstd::prelude::*;
use crate::board::{consistent, extends, full, same_values, Cell, Grid};
use crate::constraint::is_consistent;
use crate::technique::{move_app_ok, next_move, technique_points, Move};

verus! {

/// `std::time::Instant`, declared so the clock wrappers can hold one.
#[verifier::external_type_specification]
#[verifier::external_body]
pub struct ExInstant(std::time::Instant);

/// Relies on `std::time::Instant::now`: an opaque reading of the monotonic
/// clock; nothing is assumed of its value.
#[verifier::external_body]
fn clock_start() -> (t: std::time::Instant) {
    std::time::Instant::now()
}

/// Relies on `std::time::Instant::elapsed` and `Duration::as_millis`: the
/// time passed since `start` in whole milliseconds; the reading depends on
/// the clock, so nothing is assumed of its value.
#[verifier::external_body]
fn millis_since(start: &std::time::Instant) -> (ms: u64) {
    start.elapsed().as_millis() as u64
}

/// A solved grid: fully committed and consistent.
pub open spec fn solved_grid(s: Seq<Cell>) -> bool {
    full(s) && consistent(s)
}

/// Total difficulty of a move log: the sum of its techniques' points.
pub open spec fn sum_points(ms: Seq<Move>) -> int
    decreases ms.len(),
{
    if ms.len() == 0 {
        0
    } else {
        sum_points(ms.drop_last()) + technique_points(ms.last().technique)
    }
}

/// The committed values after replaying a move log onto `s`: each logged
/// commit places its value, and eliminations leave values alone.
pub open spec fn replay_values(s: Seq<Cell>, ms: Seq<Move>) -> Seq<Cell>
    decreases ms.len(),
{
    if ms.len() == 0 {
        s
    } else {
        let prev = replay_values(s, ms.drop_last());
        match ms.last().commit {
            Some(t) => prev.update(
                t.0 * 9 + t.1,
                Cell { value: t.2, ..prev[t.0 * 9 + t.1] },
            ),
            None => prev,
        }
    }
}

proof fn lemma_replay_push(s: Seq<Cell>, ms: Seq<Move>, m: Move)
    ensures
        replay_values(s, ms.push(m)) == (match m.commit {
            Some(t) => replay_values(s, ms).update(
                t.0 * 9 + t.1,
                Cell { value: t.2, ..replay_values(s, ms)[t.0 * 9 + t.1] },
            ),
            None => replay_values(s, ms),
        }),
{
    assert(ms.push(m).drop_last() =~= ms);
    assert(ms.push(m).last() == m);
}

proof fn lemma_sum_points_push(ms: Seq<Move>, m: Move)
    ensures
        sum_points(ms.push(m)) == sum_points(ms) + technique_points(m.technique),
{
    assert(ms.push(m).drop_last() =~= ms);
    assert(ms.push(m).last() == m);
}

/// A successful technique solve: the completed board, the moves in the order
/// they were applied, and their accumulated difficulty points.
#[derive(Debug)]
pub struct Solution {
    /// The fully committed, consistent board.
    pub solved_board: Grid,
    /// The move log, in order of application.
    pub moves: Vec<Move>,
    /// The accumulated difficulty score.
    pub points: u64,
}

/// Apply one technique move: commit its value, if any, then strike its
/// eliminations.  Committed values are only ever added, never changed.
fn apply_move(g: &mut Grid, m: &Move)
    requires
        old(g).wf(),
        move_app_ok(old(g)@, *m),
    ensures
        final(g).wf(),
        final(g)@.len() == 81,
        extends(old(g)@, final(g)@),
        m.commit matches Some(t) ==> (forall|i: int|
            0 <= i < 81 ==> (#[trigger] final(g)@[i]).value == (if i == t.0 * 9 + t.1 {
                t.2
            } else {
                old(g)@[i].value
            })),
        m.commit is None ==> same_values(old(g)@, final(g)@),
{
    match m.commit {
        Some((r, c, v)) => {
            let res = g.commit((r, c), v);
            proof {
                assert(res is Ok);
                assert(extends(old(g)@, g@));
            }
        },
        None => {},
    }
    let ghost mid = g@;
    let mut t: usize = 0;
    while t < m.eliminations.len()
        invariant
            g.wf(),
            g@.len() == 81,
            mid.len() == 81,
            extends(old(g)@, g@),
            forall|i: int| 0 <= i < 81 ==> (#[trigger] g@[i]).value == mid[i].value,
            forall|x: int|
                0 <= x < m.eliminations@.len() ==> {
                    let e = #[trigger] m.eliminations@[x];
                    e.0 < 9 && e.1 < 9 && 1 <= e.2 <= 9
                },
            t <= m.eliminations@.len(),
        decreases m.eliminations@.len() - t,
    {
        let e = m.eliminations[t];
        let ghost pre = g@;
        g.eliminate_candidate((e.0, e.1), e.2);
        proof {
            assert(extends(pre, g@));
        }
        t = t + 1;
    }
}

/// Solve the grid with ordered techniques under a time budget in
/// milliseconds.  `Ok` carries the completed board with the move log and
/// score; when the techniques run out or the budget does, `Err` carries the
/// board as deduction left it, every logged move already applied.  An
/// already-solved grid comes back at once with an empty log, and a zero
/// budget sends an unsolved grid back untouched.
pub fn solve(grid: &Grid, budget_millis: u64) -> (r: Result<Solution, Grid>)
    requires
        grid.wf(),
    ensures
        r matches Ok(sol) ==> sol.solved_board.wf() && solved_grid(sol.solved_board@) && extends(
            grid@,
            sol.solved_board@,
        ) && sol.points as int == sum_points(sol.moves@) && same_values(
            replay_values(grid@, sol.moves@),
            sol.solved_board@,
        ),
        solved_grid(grid@) ==> (r matches Ok(sol) && sol.solved_board@ == grid@ && sol.moves@.len()
            == 0 && sol.points == 0),
        budget_millis == 0 && !solved_grid(grid@) ==> (r matches Err(g) && g@ == grid@),
        r matches Err(g) ==> g.wf() && extends(grid@, g@) && !solved_grid(g@),
{
    if grid.is_full() && is_consistent(grid) {
        return Ok(Solution { solved_board: grid.duplicate(), moves: Vec::new(), points: 0 });
    }
    let start = clock_start();
    if millis_since(&start) >= budget_millis {
        return Err(grid.duplicate());
    }
    let mut g = grid.duplicate();
    g.auto_note();
    let mut moves: Vec<Move> = Vec::new();
    let mut points: u64 = 0;
    // Each applied move either commits a value or strikes at least one
    // candidate, so no solve takes anywhere near the cap; it only bounds the
    // log and the score.
    while moves.len() < 1000
        invariant
            grid.wf(),
            g.wf(),
            g@.len() == 81,
            extends(grid@, g@),
            points as int == sum_points(moves@),
            points <= 50 * moves@.len(),
            replay_values(grid@, moves@).len() == 81,
            same_values(replay_values(grid@, moves@), g@),
            moves@.len() <= 1000,
            !solved_grid(grid@),
            budget_millis > 0,
        decreases 1000 - moves@.len(),
    {
        if g.is_full() && is_consistent(&g) {
            return Ok(Solution { solved_board: g, moves, points });
        }
        if millis_since(&start) >= budget_millis {
            return Err(g);
        }
        match next_move(&g) {
            None => {
                return Err(g);
            },
            Some(m) => {
                let ghost pre_moves = moves@;
                let ghost pre_g = g@;
                apply_move(&mut g, &m);
                let p = m.technique.points();
                proof {
                    lemma_sum_points_push(moves@, m);
                    lemma_replay_push(grid@, pre_moves, m);
                }
                points = points + p;
                moves.push(m);
                proof {
                    assert(moves@ == pre_moves.push(m));
                    assert forall|i: int|
                        0 <= i < 81 implies (#[trigger] replay_values(grid@, moves@)[i]).value
                        == g@[i].value by {
                        let prev = replay_values(grid@, pre_moves);
                        assert(prev[i].value == pre_g[i].value);
                        if m.commit is Some {
                            let t = m.commit->Some_0;
                            if i != t.0 * 9 + t.1 {
                                assert(g@[i].value == pre_g[i].value);
                            }
                        } else {
                            assert(g@[i].value == pre_g[i].value);
                        }
                    }
                }
            },
        }
    }
    if g.is_full() && is_consistent(&g) {
        return Ok(Solution { solved_board: g, moves, points });
    }
    Err(g)
}

} // verus!
