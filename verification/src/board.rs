//! The grid data model: 81 cells, each with a committed value and two
//! candidate sets, plus the invariant-preserving mutators.  Committing a value
//! eagerly retracts it from the possible sets of every peer; retracting never
//! restores candidates by itself.

use vstd::prelude::*;
use crate::bitset;
use crate::bitset::{set_has, clear_value};
use crate::groups::{idx_of, pos_in_bounds, same_unit, cells_share_unit};

verus! {

/// One cell: a committed value (`0` for empty, else 1..=9), the set of values
/// the cell could still take, and the set of values ruled out by hand.
#[derive(Clone, Copy, Debug, PartialEq, Eq, Structural)]
pub struct Cell {
    /// Committed value, `0` when the cell is empty.
    pub value: u8,
    /// Candidate set of values the cell could still take.
    pub possible: u16,
    /// Candidate set of values explicitly ruled out for this cell.
    pub denied: u16,
}

/// Why a grid operation was refused.
#[derive(Clone, Copy, Debug, PartialEq, Eq, Structural)]
pub enum GridError {
    /// A position or value outside the valid domain.
    OutOfRange,
    /// A mutation that would violate a hard invariant; the grid is unchanged.
    InvalidMove,
    /// A serialized grid that cannot be parsed.
    MalformedInput,
}

/// How an entered number is to be recorded.
#[derive(Clone, Copy, Debug, PartialEq, Eq, Structural)]
pub enum NoteMode {
    /// Set cell to this value
    Value,
    /// Set a potential value for a cell
    Maybe,
    /// Set a value that can't be in a cell
    Deny,
}

/// A structurally valid cell: its committed value is 0..=9.
pub open spec fn cell_wf(c: Cell) -> bool {
    c.value <= 9
}

/// A structurally valid grid: exactly 81 valid cells.
pub open spec fn grid_wf(s: Seq<Cell>) -> bool {
    s.len() == 81 && forall|i: int| 0 <= i < 81 ==> cell_wf(#[trigger] s[i])
}

/// Every cell is committed.
pub open spec fn full(s: Seq<Cell>) -> bool {
    forall|i: int| 0 <= i < 81 ==> (#[trigger] s[i]).value != 0
}

/// No two peers hold the same committed value.
pub open spec fn consistent(s: Seq<Cell>) -> bool {
    forall|i: int, j: int|
        0 <= i < 81 && 0 <= j < 81 && same_unit(i, j) && (#[trigger] s[i]).value != 0 ==> (
        #[trigger] s[j]).value != s[i].value
}

/// Both grids commit the same values everywhere.
pub open spec fn same_values(s1: Seq<Cell>, s2: Seq<Cell>) -> bool {
    forall|i: int| 0 <= i < 81 ==> (#[trigger] s1[i]).value == s2[i].value
}

/// Every value committed in `s1` is committed unchanged in `s2`.
pub open spec fn extends(s1: Seq<Cell>, s2: Seq<Cell>) -> bool {
    forall|i: int|
        0 <= i < 81 && (#[trigger] s1[i]).value != 0 ==> s2[i].value == s1[i].value
}

/// Value `w` is open for the empty cell `i`: in range, not denied there, and
/// not committed in any peer cell.
pub open spec fn can_take(s: Seq<Cell>, i: int, w: int) -> bool {
    1 <= w <= 9 && !set_has(s[i].denied, w) && (forall|j: int|
        0 <= j < 81 && same_unit(j, i) ==> (#[trigger] s[j]).value != w)
}

/// Every possible set speaks the truth in one direction: a value it holds for
/// an empty cell is committed in no peer.  Candidate bookkeeping may lag
/// behind (a set may be too small), never run ahead.
pub open spec fn possible_sound(s: Seq<Cell>) -> bool {
    forall|i: int, w: int|
        0 <= i < 81 && s[i].value == 0 && #[trigger] set_has(s[i].possible, w) ==> (forall|j: int|
            0 <= j < 81 && same_unit(j, i) ==> (#[trigger] s[j]).value != w)
}

/// The possible sets are exact for every empty cell: a value is a member
/// precisely when the committed values and the cell's own denied set allow
/// it.  `auto_note` establishes this; committing a candidate preserves it.
pub open spec fn possible_exact(s: Seq<Cell>) -> bool {
    forall|i: int, w: int|
        0 <= i < 81 && s[i].value == 0 ==> ((#[trigger] set_has(s[i].possible, w)) <==> can_take(
            s,
            i,
            w,
        ))
}

/// Exact candidate sets are in particular sound.
pub proof fn lemma_exact_is_sound(s: Seq<Cell>)
    requires
        possible_exact(s),
    ensures
        possible_sound(s),
{
    assert forall|i: int, w: int|
        0 <= i < 81 && s[i].value == 0 && #[trigger] set_has(s[i].possible, w) implies (forall|
        j: int,
    |
        0 <= j < 81 && same_unit(j, i) ==> (#[trigger] s[j]).value != w) by {
        assert(can_take(s, i, w));
    }
}

/// The grid after committing `v` at cell `p`: that cell takes the value with
/// cleared candidate sets, every peer loses `v` from its possible set, and
/// everything else stands.
pub open spec fn committed_grid(s: Seq<Cell>, p: int, v: u8) -> Seq<Cell> {
    Seq::new(
        81,
        |i: int|
            if i == p {
                Cell { value: v, possible: 0, denied: 0 }
            } else if same_unit(i, p) {
                Cell { possible: clear_value(s[i].possible, v as int), ..s[i] }
            } else {
                s[i]
            },
    )
}

/// What `mark_denied` leaves behind for the result `r`: the grid unchanged on
/// a refusal, otherwise only the denied and possible sets of the target cell
/// change, the denied set gaining the value and the possible set losing it.
pub open spec fn mark_denied_post(
    pre: Seq<Cell>,
    post: Seq<Cell>,
    r: Result<(), GridError>,
    pos: (usize, usize),
    v: u8,
) -> bool {
    if !(pos_in_bounds(pos) && 1 <= v <= 9) {
        r == Result::<(), GridError>::Err(GridError::OutOfRange) && post == pre
    } else if pre[idx_of(pos)].value == v {
        r == Result::<(), GridError>::Err(GridError::InvalidMove) && post == pre
    } else {
        let p = idx_of(pos);
        r is Ok && post.len() == 81 && (forall|i: int| 0 <= i < 81 && i != p ==> post[i] == pre[i])
            && post[p].value == pre[p].value && (forall|w: int|
            #[trigger] set_has(post[p].denied, w) <==> (set_has(pre[p].denied, w) || w == v as int))
            && (forall|w: int|
            #[trigger] set_has(post[p].possible, w) <==> (set_has(pre[p].possible, w) && w
                != v as int))
    }
}

/// What `mark_maybe` leaves behind: on success only the possible set of the
/// target cell changes, gaining the value.
pub open spec fn mark_maybe_post(
    pre: Seq<Cell>,
    post: Seq<Cell>,
    r: Result<(), GridError>,
    pos: (usize, usize),
    v: u8,
) -> bool {
    if !(pos_in_bounds(pos) && 1 <= v <= 9) {
        r == Result::<(), GridError>::Err(GridError::OutOfRange) && post == pre
    } else {
        let p = idx_of(pos);
        r is Ok && post.len() == 81 && (forall|i: int| 0 <= i < 81 && i != p ==> post[i] == pre[i])
            && post[p].value == pre[p].value && post[p].denied == pre[p].denied && (forall|w: int|
            #[trigger] set_has(post[p].possible, w) <==> (set_has(pre[p].possible, w) || w
                == v as int))
    }
}

/// What `commit` leaves behind: the grid unchanged on a refusal, otherwise
/// exactly `committed_grid`.
pub open spec fn commit_post(
    pre: Seq<Cell>,
    post: Seq<Cell>,
    r: Result<(), GridError>,
    pos: (usize, usize),
    v: u8,
) -> bool {
    if pos_in_bounds(pos) && 1 <= v <= 9 {
        r is Ok && post == committed_grid(pre, idx_of(pos), v)
    } else {
        r == Result::<(), GridError>::Err(GridError::OutOfRange) && post == pre
    }
}

/// Number of empty cells among the first `n`.
pub open spec fn empty_count(s: Seq<Cell>, n: int) -> nat
    decreases n,
{
    if n <= 0 {
        0
    } else {
        empty_count(s, n - 1) + (if s[n - 1].value == 0 {
            1nat
        } else {
            0nat
        })
    }
}

/// Number of empty cells of the grid.
pub open spec fn num_empty(s: Seq<Cell>) -> nat {
    empty_count(s, 81)
}

/// The canonical 9x9 grid: exactly 81 cells in row-major order.
#[derive(Debug)]
pub struct Grid {
    cells: Vec<Cell>,
}

impl View for Grid {
    type V = Seq<Cell>;

    closed spec fn view(&self) -> Seq<Cell> {
        self.cells@
    }
}

impl Grid {
    /// A structurally valid grid.
    pub open spec fn wf(&self) -> bool {
        grid_wf(self@)
    }

    /// The empty grid: 81 empty cells with empty candidate sets.
    pub fn new() -> (g: Grid)
        ensures
            g.wf(),
            forall|i: int|
                0 <= i < 81 ==> #[trigger] g@[i] == (Cell { value: 0, possible: 0, denied: 0 }),
    {
        let mut cells: Vec<Cell> = Vec::new();
        let mut i: usize = 0;
        while i < 81
            invariant
                i <= 81,
                cells@.len() == i,
                forall|j: int|
                    0 <= j < i ==> #[trigger] cells@[j] == (Cell {
                        value: 0,
                        possible: 0,
                        denied: 0,
                    }),
            decreases 81 - i,
        {
            cells.push(Cell { value: 0, possible: 0, denied: 0 });
            i = i + 1;
        }
        Grid { cells }
    }

    /// An identical private copy, for search branching.
    pub fn duplicate(&self) -> (g: Grid)
        ensures
            g@ == self@,
    {
        let mut cells: Vec<Cell> = Vec::new();
        let mut i: usize = 0;
        while i < self.cells.len()
            invariant
                i <= self.cells.len(),
                cells@.len() == i,
                forall|j: int| 0 <= j < i ==> #[trigger] cells@[j] == self.cells@[j],
            decreases self.cells.len() - i,
        {
            cells.push(self.cells[i]);
            i = i + 1;
        }
        proof {
            assert(cells@ =~= self.cells@);
        }
        Grid { cells }
    }

    /// The cell at `pos`.
    pub fn cell_at(&self, pos: (usize, usize)) -> (c: Cell)
        requires
            self.wf(),
            pos_in_bounds(pos),
        ensures
            c == self@[idx_of(pos)],
    {
        self.cells[pos.0 * 9 + pos.1]
    }

    /// Is every cell committed?
    pub fn is_full(&self) -> (r: bool)
        requires
            self.wf(),
        ensures
            r == full(self@),
    {
        let mut i: usize = 0;
        while i < 81
            invariant
                self.wf(),
                i <= 81,
                forall|j: int| 0 <= j < i ==> (#[trigger] self@[j]).value != 0,
            decreases 81 - i,
        {
            if self.cells[i].value == 0 {
                return false;
            }
            i = i + 1;
        }
        true
    }

    /// Commit `value` at `pos`, eagerly retracting it from the possible set of
    /// every peer; refused as `OutOfRange` off the grid or outside 1..=9.
    pub fn commit(&mut self, pos: (usize, usize), value: u8) -> (r: Result<(), GridError>)
        requires
            old(self).wf(),
        ensures
            final(self).wf(),
            commit_post(old(self)@, final(self)@, r, pos, value),
    {
        if !(pos.0 < 9 && pos.1 < 9 && 1 <= value && value <= 9) {
            return Err(GridError::OutOfRange);
        }
        let p: usize = pos.0 * 9 + pos.1;
        let ghost target = committed_grid(old(self)@, idx_of(pos), value);
        let mut i: usize = 0;
        while i < 81
            invariant
                self@.len() == 81,
                p == idx_of(pos) && p < 81,
                1 <= value <= 9,
                i <= 81,
                target == committed_grid(old(self)@, p as int, value),
                forall|j: int| 0 <= j < i ==> self@[j] == target[j],
                forall|j: int| i <= j < 81 ==> self@[j] == old(self)@[j],
            decreases 81 - i,
        {
            if i == p {
                self.cells[i] = Cell { value, possible: 0, denied: 0 };
            } else if cells_share_unit(i, p) {
                let c = self.cells[i];
                let np = bitset::without_value(c.possible, value);
                proof {
                    assert(np == clear_value(old(self)@[i as int].possible, value as int));
                }
                self.cells[i] = Cell { possible: np, ..c };
            }
            i = i + 1;
        }
        proof {
            assert(self@ =~= target);
        }
        Ok(())
    }

    /// Clear the committed value at `pos` back to empty.  Candidates removed
    /// by earlier commits elsewhere are not restored; recomputing them is a
    /// separate, explicit operation.
    pub fn retract(&mut self, pos: (usize, usize)) -> (r: Result<(), GridError>)
        requires
            old(self).wf(),
        ensures
            final(self).wf(),
            pos_in_bounds(pos) ==> r is Ok && final(self)@ == old(self)@.update(
                idx_of(pos),
                Cell { value: 0, ..old(self)@[idx_of(pos)] },
            ),
            !pos_in_bounds(pos) ==> r == Result::<(), GridError>::Err(GridError::OutOfRange)
                && final(self)@ == old(self)@,
    {
        if !(pos.0 < 9 && pos.1 < 9) {
            return Err(GridError::OutOfRange);
        }
        let p: usize = pos.0 * 9 + pos.1;
        let c = self.cells[p];
        self.cells[p] = Cell { value: 0, ..c };
        Ok(())
    }

    /// The possible set that the committed values and the cell's own denied
    /// set allow for cell `p`, by membership exactly `can_take`.
    fn derived_possible(&self, p: usize) -> (np: u16)
        requires
            self.wf(),
            p < 81,
        ensures
            forall|w: int| #[trigger] set_has(np, w) <==> can_take(self@, p as int, w),
    {
        let denied = self.cells[p].denied;
        let mut forbidden: u16 = 0;
        proof {
            bitset::lemma_no_members_of_zero();
        }
        let mut i: usize = 0;
        while i < 81
            invariant
                self.wf(),
                p < 81,
                i <= 81,
                forall|w: int|
                    #[trigger] set_has(forbidden, w) <==> exists|j: int|
                        0 <= j < i && same_unit(j, p as int) && (#[trigger] self@[j]).value != 0
                            && self@[j].value == w,
            decreases 81 - i,
        {
            if cells_share_unit(i, p) {
                let v = self.cells[i].value;
                if v != 0 {
                    forbidden = bitset::with_value(forbidden, v);
                }
            }
            i = i + 1;
        }
        let mut np: u16 = 0;
        proof {
            bitset::lemma_no_members_of_zero();
        }
        let mut w: u8 = 1;
        while w <= 9
            invariant
                self.wf(),
                p < 81,
                1 <= w <= 10,
                forall|x: int|
                    #[trigger] set_has(forbidden, x) <==> exists|j: int|
                        0 <= j < 81 && same_unit(j, p as int) && (#[trigger] self@[j]).value != 0
                            && self@[j].value == x,
                denied == self@[p as int].denied,
                forall|x: int|
                    #[trigger] set_has(np, x) <==> (x < w as int && can_take(self@, p as int, x)),
            decreases 10 - w,
        {
            if !bitset::contains(forbidden, w) && !bitset::contains(denied, w) {
                np = bitset::with_value(np, w);
            }
            w = w + 1;
        }
        np
    }

    /// Recompute the possible set of the cell at `pos` from scratch: every
    /// value 1..=9 not committed in a peer and not denied here.  A committed
    /// cell's possible set is kept cleared.  Idempotent.
    pub fn recompute_possibles(&mut self, pos: (usize, usize)) -> (r: Result<(), GridError>)
        requires
            old(self).wf(),
        ensures
            final(self).wf(),
            !pos_in_bounds(pos) ==> r == Result::<(), GridError>::Err(GridError::OutOfRange)
                && final(self)@ == old(self)@,
            pos_in_bounds(pos) ==> r is Ok && final(self)@ == old(self)@.update(
                idx_of(pos),
                Cell { possible: final(self)@[idx_of(pos)].possible, ..old(self)@[idx_of(pos)] },
            ),
            pos_in_bounds(pos) && old(self)@[idx_of(pos)].value != 0
                ==> final(self)@[idx_of(pos)].possible == 0,
            pos_in_bounds(pos) && old(self)@[idx_of(pos)].value == 0 ==> (forall|w: int|
                #[trigger] set_has(final(self)@[idx_of(pos)].possible, w) <==> can_take(
                    old(self)@,
                    idx_of(pos),
                    w,
                )),
    {
        if !(pos.0 < 9 && pos.1 < 9) {
            return Err(GridError::OutOfRange);
        }
        let p: usize = pos.0 * 9 + pos.1;
        let c = self.cells[p];
        if c.value != 0 {
            self.cells[p] = Cell { possible: 0, ..c };
        } else {
            let np = self.derived_possible(p);
            self.cells[p] = Cell { possible: np, ..c };
        }
        Ok(())
    }

    /// Rule the value out for this cell by hand.  Denying the cell's own
    /// committed value is refused as `InvalidMove`; committed values are never
    /// touched, so the serialized form of the grid stands.
    pub fn mark_denied(&mut self, pos: (usize, usize), value: u8) -> (r: Result<(), GridError>)
        requires
            old(self).wf(),
        ensures
            final(self).wf(),
            mark_denied_post(old(self)@, final(self)@, r, pos, value),
            same_values(old(self)@, final(self)@),
    {
        if !(pos.0 < 9 && pos.1 < 9 && 1 <= value && value <= 9) {
            return Err(GridError::OutOfRange);
        }
        let p: usize = pos.0 * 9 + pos.1;
        let c = self.cells[p];
        if c.value == value {
            return Err(GridError::InvalidMove);
        }
        let nd = bitset::with_value(c.denied, value);
        let np = bitset::without_value(c.possible, value);
        self.cells[p] = Cell { possible: np, denied: nd, ..c };
        Ok(())
    }

    /// Note the value as a hand-entered candidate for this cell.
    pub fn mark_maybe(&mut self, pos: (usize, usize), value: u8) -> (r: Result<(), GridError>)
        requires
            old(self).wf(),
        ensures
            final(self).wf(),
            mark_maybe_post(old(self)@, final(self)@, r, pos, value),
            same_values(old(self)@, final(self)@),
    {
        if !(pos.0 < 9 && pos.1 < 9 && 1 <= value && value <= 9) {
            return Err(GridError::OutOfRange);
        }
        let p: usize = pos.0 * 9 + pos.1;
        let c = self.cells[p];
        let np = bitset::with_value(c.possible, value);
        self.cells[p] = Cell { possible: np, ..c };
        Ok(())
    }

    /// Drop every hand-entered exclusion of this cell.
    pub fn clear_denied(&mut self, pos: (usize, usize)) -> (r: Result<(), GridError>)
        requires
            old(self).wf(),
        ensures
            final(self).wf(),
            !pos_in_bounds(pos) ==> r == Result::<(), GridError>::Err(GridError::OutOfRange)
                && final(self)@ == old(self)@,
            pos_in_bounds(pos) ==> r is Ok && final(self)@ == old(self)@.update(
                idx_of(pos),
                Cell { denied: 0, ..old(self)@[idx_of(pos)] },
            ),
    {
        if !(pos.0 < 9 && pos.1 < 9) {
            return Err(GridError::OutOfRange);
        }
        let p: usize = pos.0 * 9 + pos.1;
        let c = self.cells[p];
        self.cells[p] = Cell { denied: 0, ..c };
        Ok(())
    }

    /// Record the entered `value` at `pos` the way the note mode asks:
    /// commit it, note it as a candidate, or rule it out.
    pub fn set(&mut self, pos: (usize, usize), mode: &NoteMode, value: u8) -> (r: Result<
        (),
        GridError,
    >)
        requires
            old(self).wf(),
        ensures
            final(self).wf(),
            mode is Value ==> commit_post(old(self)@, final(self)@, r, pos, value),
            mode is Maybe ==> mark_maybe_post(old(self)@, final(self)@, r, pos, value),
            mode is Deny ==> mark_denied_post(old(self)@, final(self)@, r, pos, value),
    {
        match mode {
            NoteMode::Value => self.commit(pos, value),
            NoteMode::Maybe => self.mark_maybe(pos, value),
            NoteMode::Deny => self.mark_denied(pos, value),
        }
    }

    /// Clear the cell at `pos` back to empty, keeping its candidate sets.
    pub fn reset(&mut self, pos: (usize, usize)) -> (r: Result<(), GridError>)
        requires
            old(self).wf(),
        ensures
            final(self).wf(),
            pos_in_bounds(pos) ==> r is Ok && final(self)@ == old(self)@.update(
                idx_of(pos),
                Cell { value: 0, ..old(self)@[idx_of(pos)] },
            ),
            !pos_in_bounds(pos) ==> r == Result::<(), GridError>::Err(GridError::OutOfRange)
                && final(self)@ == old(self)@,
    {
        self.retract(pos)
    }

    /// Recompute the possible set of every cell from the committed values and
    /// the denied sets; committed cells keep cleared sets.
    pub fn auto_note(&mut self)
        requires
            old(self).wf(),
        ensures
            final(self).wf(),
            final(self)@.len() == 81,
            same_values(old(self)@, final(self)@),
            forall|i: int|
                0 <= i < 81 ==> (#[trigger] final(self)@[i]).value == old(self)@[i].value
                    && final(self)@[i].denied == old(self)@[i].denied,
            forall|i: int|
                0 <= i < 81 && old(self)@[i].value != 0
                    ==> (#[trigger] final(self)@[i]).possible == 0,
            forall|i: int, w: int|
                0 <= i < 81 && old(self)@[i].value == 0 ==> ((#[trigger] set_has(
                    final(self)@[i].possible,
                    w,
                )) <==> can_take(old(self)@, i, w)),
            possible_sound(final(self)@),
            possible_exact(final(self)@),
    {
        let mut p: usize = 0;
        while p < 81
            invariant
                self.wf(),
                self@.len() == 81,
                old(self).wf(),
                p <= 81,
                forall|i: int|
                    0 <= i < 81 ==> (#[trigger] self@[i]).value == old(self)@[i].value && self@[i].denied
                        == old(self)@[i].denied,
                forall|i: int|
                    0 <= i < p && old(self)@[i].value != 0 ==> (#[trigger] self@[i]).possible == 0,
                forall|i: int, w: int|
                    0 <= i < p && old(self)@[i].value == 0 ==> ((#[trigger] set_has(
                        self@[i].possible,
                        w,
                    )) <==> can_take(old(self)@, i, w)),
            decreases 81 - p,
        {
            let c = self.cells[p];
            if c.value != 0 {
                self.cells[p] = Cell { possible: 0, ..c };
            } else {
                let np = self.derived_possible(p);
                proof {
                    assert forall|w: int| #[trigger] set_has(np, w) <==> can_take(
                        old(self)@,
                        p as int,
                        w,
                    ) by {
                        if set_has(np, w) {
                            assert(can_take(self@, p as int, w));
                            assert forall|j: int|
                                0 <= j < 81 && same_unit(j, p as int) implies (#[trigger] old(
                                self,
                            )@[j]).value != w by {
                                assert(self@[j].value != w);
                                assert(self@[j].value == old(self)@[j].value);
                            }
                            assert(self@[p as int].denied == old(self)@[p as int].denied);
                            assert(can_take(old(self)@, p as int, w));
                        }
                        if can_take(old(self)@, p as int, w) {
                            assert forall|j: int|
                                0 <= j < 81 && same_unit(j, p as int) implies (#[trigger] self@[j]).value
                                != w by {
                                assert(old(self)@[j].value != w);
                                assert(self@[j].value == old(self)@[j].value);
                            }
                            assert(self@[p as int].denied == old(self)@[p as int].denied);
                            assert(can_take(self@, p as int, w));
                        }
                    }
                }
                self.cells[p] = Cell { possible: np, ..c };
            }
            p = p + 1;
        }
        proof {
            assert forall|i: int, w: int|
                0 <= i < 81 && (#[trigger] self@[i]).value == 0 && #[trigger] set_has(
                    self@[i].possible,
                    w,
                ) implies (forall|j: int|
                0 <= j < 81 && same_unit(j, i) ==> (#[trigger] self@[j]).value != w) by {
                assert(old(self)@[i].value == 0);
                assert(can_take(old(self)@, i, w));
                assert forall|j: int| 0 <= j < 81 && same_unit(j, i) implies (#[trigger] self@[j]).value
                    != w by {
                    assert(old(self)@[j].value != w);
                    assert(self@[j].value == old(self)@[j].value);
                }
            }
            assert forall|i: int, w: int| 0 <= i < 81 && self@[i].value == 0 implies ((
            #[trigger] set_has(self@[i].possible, w)) <==> can_take(self@, i, w)) by {
                assert(old(self)@[i].value == 0);
                assert(set_has(self@[i].possible, w) <==> can_take(old(self)@, i, w));
                assert(self@[i].denied == old(self)@[i].denied);
                if can_take(old(self)@, i, w) {
                    assert forall|j: int|
                        0 <= j < 81 && same_unit(j, i) implies (#[trigger] self@[j]).value != w by {
                        assert(old(self)@[j].value != w);
                        assert(self@[j].value == old(self)@[j].value);
                    }
                    assert(can_take(self@, i, w));
                }
                if can_take(self@, i, w) {
                    assert forall|j: int|
                        0 <= j < 81 && same_unit(j, i) implies (#[trigger] old(self)@[j]).value
                            != w by {
                        assert(self@[j].value != w);
                        assert(self@[j].value == old(self)@[j].value);
                    }
                    assert(can_take(old(self)@, i, w));
                }
            }
        }
    }

    /// Clear every candidate note on the grid, possible and denied alike.
    pub fn clear_notes(&mut self)
        requires
            old(self).wf(),
        ensures
            final(self).wf(),
            final(self)@.len() == 81,
            forall|i: int|
                0 <= i < 81 ==> #[trigger] final(self)@[i] == (Cell {
                    value: old(self)@[i].value,
                    possible: 0,
                    denied: 0,
                }),
    {
        let mut p: usize = 0;
        while p < 81
            invariant
                self.wf(),
                self@.len() == 81,
                old(self).wf(),
                p <= 81,
                forall|i: int|
                    0 <= i < p ==> #[trigger] self@[i] == (Cell {
                        value: old(self)@[i].value,
                        possible: 0,
                        denied: 0,
                    }),
                forall|i: int| p <= i < 81 ==> self@[i] == old(self)@[i],
            decreases 81 - p,
        {
            let c = self.cells[p];
            self.cells[p] = Cell { value: c.value, possible: 0, denied: 0 };
            p = p + 1;
        }
    }

    /// Place a parsed value directly, with cleared candidate sets and no
    /// propagation; the loader's primitive.
    pub(crate) fn put_value(&mut self, p: usize, v: u8)
        requires
            old(self).wf(),
            p < 81,
            v <= 9,
        ensures
            final(self).wf(),
            final(self)@ == old(self)@.update(
                p as int,
                Cell { value: v, possible: 0, denied: 0 },
            ),
    {
        self.cells[p] = Cell { value: v, possible: 0, denied: 0 };
    }

    /// Strike the value from the possible set of the cell at `pos`.
    pub(crate) fn eliminate_candidate(&mut self, pos: (usize, usize), value: u8)
        requires
            old(self).wf(),
            pos_in_bounds(pos),
            1 <= value <= 9,
        ensures
            final(self).wf(),
            final(self)@ == old(self)@.update(
                idx_of(pos),
                Cell {
                    possible: clear_value(old(self)@[idx_of(pos)].possible, value as int),
                    ..old(self)@[idx_of(pos)]
                },
            ),
    {
        let p: usize = pos.0 * 9 + pos.1;
        let c = self.cells[p];
        let np = bitset::without_value(c.possible, value);
        self.cells[p] = Cell { possible: np, ..c };
    }
}

/// Committing a value on an empty cell lowers the number of empty cells by
/// exactly one, counted over any prefix that reaches the cell.
proof fn lemma_commit_empty_count(s: Seq<Cell>, p: int, v: u8, n: int)
    requires
        s.len() == 81,
        0 <= p < 81,
        1 <= v <= 9,
        s[p].value == 0,
        0 <= n <= 81,
    ensures
        p < n ==> empty_count(committed_grid(s, p, v), n) + 1 == empty_count(s, n),
        p >= n ==> empty_count(committed_grid(s, p, v), n) == empty_count(s, n),
    decreases n,
{
    if n > 0 {
        lemma_commit_empty_count(s, p, v, n - 1);
    }
}

/// Committing a value on an empty cell lowers the number of empty cells of
/// the grid by exactly one.
pub proof fn lemma_commit_num_empty(s: Seq<Cell>, p: int, v: u8)
    requires
        s.len() == 81,
        0 <= p < 81,
        1 <= v <= 9,
        s[p].value == 0,
    ensures
        num_empty(committed_grid(s, p, v)) + 1 == num_empty(s),
{
    lemma_commit_empty_count(s, p, v, 81);
}

} // verus!
