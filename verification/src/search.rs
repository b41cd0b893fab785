//! Exhaustive completion search: constraint-propagation-first backtracking
//! over a private copy of the grid, always branching on the empty cell with
//! the fewest remaining possible values (ties to the lowest row-major index)
//! and trying its candidates in ascending order.

use vstd::prelude::*;
use crate::bitset;
use crate::bitset::set_has;
use crate::board::{
    can_take, committed_grid, consistent, extends, full, grid_wf, lemma_exact_is_sound, num_empty,
    possible_exact, possible_sound, Cell, Grid,
};
use crate::constraint::is_consistent;
use crate::groups::{idx_of, same_unit};

verus! {

/// What a completed search reports: how many completions were found (up to
/// the caller's bound) and the first completed grid discovered, if any.
#[derive(Debug)]
pub struct SolutionSet {
    /// Number of distinct completions found: 0 unsolvable, 1 unique, more
    /// than 1 ambiguous (when below the search bound).
    pub count: u64,
    /// The first completion discovered, absent exactly when `count` is zero.
    pub witness: Option<Grid>,
}

impl SolutionSet {
    /// Number of completions found.
    pub fn num_solutions(&self) -> (n: u64)
        ensures
            n == self.count,
    {
        self.count
    }

    /// The witness completion, if one was found.
    pub fn solution(&self) -> (w: &Option<Grid>)
        ensures
            *w == self.witness,
    {
        &self.witness
    }
}

/// Committing a candidate value of an empty cell keeps the grid consistent,
/// provided every candidate is sound.
proof fn lemma_commit_consistent(s: Seq<Cell>, p: int, v: u8)
    requires
        grid_wf(s),
        consistent(s),
        possible_sound(s),
        0 <= p < 81,
        s[p].value == 0,
        set_has(s[p].possible, v as int),
    ensures
        consistent(committed_grid(s, p, v)),
{
    let c = committed_grid(s, p, v);
    assert forall|i: int, j: int|
        0 <= i < 81 && 0 <= j < 81 && same_unit(i, j) && (#[trigger] c[i]).value != 0 implies (
    #[trigger] c[j]).value != c[i].value by {
        if i == p {
            assert(c[i].value == v);
            assert(s[j].value != v);
            assert(c[j].value == s[j].value);
        } else if j == p {
            assert(c[j].value == v);
            assert(s[i].value != v);
            assert(c[i].value == s[i].value);
        } else {
            assert(c[i].value == s[i].value && c[j].value == s[j].value);
        }
    }
}

/// Committing a candidate value of an empty cell keeps every remaining
/// candidate sound: peers lose the value, and nothing else changes.
proof fn lemma_commit_sound(s: Seq<Cell>, p: int, v: u8)
    requires
        grid_wf(s),
        possible_sound(s),
        0 <= p < 81,
        s[p].value == 0,
        1 <= v <= 9,
    ensures
        possible_sound(committed_grid(s, p, v)),
{
    let c = committed_grid(s, p, v);
    assert forall|i: int, w: int|
        0 <= i < 81 && (#[trigger] c[i]).value == 0 && #[trigger] set_has(c[i].possible, w) implies (
    forall|j: int| 0 <= j < 81 && same_unit(j, i) ==> (#[trigger] c[j]).value != w) by {
        assert(i != p);
        if same_unit(i, p) {
            bitset::lemma_clear_value(s[i].possible, v as int);
            assert(c[i].possible == bitset::clear_value(s[i].possible, v as int));
            assert(set_has(s[i].possible, w) && w != v as int);
        } else {
            assert(c[i].possible == s[i].possible);
        }
        assert(s[i].value == 0 && set_has(s[i].possible, w));
        assert forall|j: int| 0 <= j < 81 && same_unit(j, i) implies (#[trigger] c[j]).value
            != w by {
            if j == p {
                assert(c[j].value == v);
                assert(same_unit(i, p));
                assert(w != v as int);
            } else {
                assert(c[j].value == s[j].value);
                assert(s[j].value != w);
            }
        }
    }
}

/// `extends` runs through a middle grid.
proof fn lemma_extends_trans(a: Seq<Cell>, b: Seq<Cell>, c: Seq<Cell>)
    requires
        extends(a, b),
        extends(b, c),
    ensures
        extends(a, c),
{
    assert forall|i: int| 0 <= i < 81 && (#[trigger] a[i]).value != 0 implies c[i].value
        == a[i].value by {
        assert(b[i].value == a[i].value);
    }
}

/// `w` is a completion of `s`: a full, consistent grid that keeps every
/// committed value of `s` and takes no value that `s` denies for the cell.
pub open spec fn completes(s: Seq<Cell>, w: Seq<Cell>) -> bool {
    grid_wf(w) && full(w) && consistent(w) && extends(s, w) && (forall|i: int|
        0 <= i < 81 && (#[trigger] s[i]).value == 0 ==> !set_has(s[i].denied, w[i].value as int))
}

/// Some completion of `s` exists.
pub open spec fn solvable(s: Seq<Cell>) -> bool {
    exists|w: Seq<Cell>| completes(s, w)
}

/// An inconsistent grid has no completion: the conflicting committed pair
/// survives into any grid that extends it.
pub proof fn lemma_inconsistent_unsolvable(s: Seq<Cell>)
    requires
        !consistent(s),
    ensures
        !solvable(s),
{
    assert forall|w: Seq<Cell>| !completes(s, w) by {
        if completes(s, w) {
            let (i, j) = choose|i: int, j: int|
                0 <= i < 81 && 0 <= j < 81 && same_unit(i, j) && (#[trigger] s[i]).value != 0 && (
                #[trigger] s[j]).value == s[i].value;
            assert(w[i].value == s[i].value);
            assert(w[j].value == s[j].value);
            assert(w[j].value != w[i].value);
        }
    }
}

/// Whatever a completion commits at an empty cell is still in that cell's
/// possible set, provided the candidate sets are exact.
proof fn lemma_completion_value_allowed(s: Seq<Cell>, p: int, w: Seq<Cell>)
    requires
        grid_wf(s),
        possible_exact(s),
        0 <= p < 81,
        s[p].value == 0,
        completes(s, w),
    ensures
        set_has(s[p].possible, w[p].value as int),
{
    let v = w[p].value;
    assert(1 <= v <= 9);
    assert(!set_has(s[p].denied, v as int));
    assert forall|j: int| 0 <= j < 81 && same_unit(j, p) implies (#[trigger] s[j]).value != v by {
        if s[j].value == v {
            assert(w[j].value == s[j].value);
            assert(w[p].value != w[j].value);
        }
    }
    assert(can_take(s, p, v as int));
}

/// A completion that commits `v` at the branch cell is a completion of the
/// branch's grid.
proof fn lemma_completion_transfers(s: Seq<Cell>, p: int, v: u8, w: Seq<Cell>)
    requires
        grid_wf(s),
        0 <= p < 81,
        s[p].value == 0,
        1 <= v <= 9,
        completes(s, w),
        w[p].value == v,
    ensures
        completes(committed_grid(s, p, v), w),
{
    let c = committed_grid(s, p, v);
    assert forall|i: int| 0 <= i < 81 && (#[trigger] c[i]).value != 0 implies w[i].value
        == c[i].value by {
        if i != p {
            assert(c[i].value == s[i].value);
        }
    }
    assert forall|i: int| 0 <= i < 81 && (#[trigger] c[i]).value == 0 implies !set_has(
        c[i].denied,
        w[i].value as int,
    ) by {
        assert(i != p);
        assert(c[i].denied == s[i].denied);
        assert(s[i].value == 0);
    }
}

/// Exact candidate sets survive committing one of their values.
proof fn lemma_commit_exact(s: Seq<Cell>, p: int, v: u8)
    requires
        grid_wf(s),
        possible_exact(s),
        0 <= p < 81,
        s[p].value == 0,
        1 <= v <= 9,
    ensures
        possible_exact(committed_grid(s, p, v)),
{
    let c = committed_grid(s, p, v);
    assert forall|i: int, w: int|
        0 <= i < 81 && c[i].value == 0 implies ((#[trigger] set_has(c[i].possible, w)) <==> can_take(
        c,
        i,
        w,
    )) by {
        assert(i != p);
        assert(s[i].value == 0);
        assert(c[i].denied == s[i].denied);
        if same_unit(i, p) {
            bitset::lemma_clear_value(s[i].possible, v as int);
            assert(c[i].possible == bitset::clear_value(s[i].possible, v as int));
        } else {
            assert(c[i].possible == s[i].possible);
        }
        if set_has(c[i].possible, w) {
            assert(set_has(s[i].possible, w));
            assert(can_take(s, i, w));
            assert(same_unit(i, p) ==> w != v as int);
            assert forall|j: int| 0 <= j < 81 && same_unit(j, i) implies (#[trigger] c[j]).value
                != w by {
                if j == p {
                    assert(c[j].value == v);
                    assert(w != v as int);
                } else {
                    assert(c[j].value == s[j].value);
                    assert(s[j].value != w);
                }
            }
            assert(can_take(c, i, w));
        }
        if can_take(c, i, w) {
            assert forall|j: int| 0 <= j < 81 && same_unit(j, i) implies (#[trigger] s[j]).value
                != w by {
                if j == p {
                    assert(s[j].value == 0);
                    assert(1 <= w <= 9);
                } else {
                    assert(c[j].value == s[j].value);
                    assert(c[j].value != w);
                }
            }
            assert(can_take(s, i, w));
            assert(set_has(s[i].possible, w));
            if same_unit(i, p) {
                assert(c[p].value == v);
                assert(same_unit(p, i));
                assert(w != v as int);
            }
            assert(set_has(c[i].possible, w));
        }
    }
}

/// Count completions of a consistent grid with exact candidate sets,
/// stopping once `limit` are found; the witness is the first completion
/// discovered, and a count of zero is definitive: no completion exists.
fn search(grid: Grid, limit: u64) -> (r: SolutionSet)
    requires
        grid.wf(),
        consistent(grid@),
        possible_exact(grid@),
        1 <= limit,
    ensures
        r.count <= limit,
        r.count == 0 <==> r.witness is None,
        r.witness matches Some(w) ==> w.wf() && full(w@) && consistent(w@) && extends(grid@, w@),
        full(grid@) ==> r.count == 1 && (r.witness matches Some(w) && w@ == grid@),
        r.count == 0 ==> !solvable(grid@),
    decreases num_empty(grid@),
{
    proof {
        lemma_exact_is_sound(grid@);
    }
    // Pick the empty cell with the fewest possible values, first index on ties.
    let mut best_i: usize = 81;
    let mut best_c: u8 = 10;
    let mut i: usize = 0;
    while i < 81
        invariant
            grid.wf(),
            i <= 81,
            best_i == 81 || (best_i < i && grid@[best_i as int].value == 0),
            best_i == 81 ==> forall|j: int| 0 <= j < i ==> (#[trigger] grid@[j]).value != 0,
        decreases 81 - i,
    {
        let c = grid.cell_at((i / 9, i % 9));
        proof {
            assert(idx_of((i / 9, i % 9)) == i as int);
        }
        if c.value == 0 {
            let n = bitset::count_values(c.possible);
            if best_i == 81 || n < best_c {
                best_i = i;
                best_c = n;
            }
        }
        i = i + 1;
    }
    if best_i == 81 {
        // No empty cell: the grid itself is the one completion.
        let w = grid.duplicate();
        return SolutionSet { count: 1, witness: Some(w) };
    }
    let p = best_i;
    let cell = grid.cell_at((p / 9, p % 9));
    proof {
        assert(idx_of((p / 9, p % 9)) == p as int);
    }
    let mut total: u64 = 0;
    let mut wit: Option<Grid> = None;
    let mut v: u8 = 1;
    while v <= 9
        invariant
            grid.wf(),
            consistent(grid@),
            possible_exact(grid@),
            possible_sound(grid@),
            p < 81,
            grid@[p as int].value == 0,
            cell == grid@[p as int],
            1 <= v <= 10,
            1 <= limit,
            total <= limit,
            (total == 0) <==> (wit is None),
            wit matches Some(w) ==> w.wf() && full(w@) && consistent(w@) && extends(grid@, w@),
            total == 0 ==> (forall|w: Seq<Cell>|
                #[trigger] completes(grid@, w) ==> w[p as int].value as int >= v as int),
        decreases 10 - v,
    {
        let ghost pre_total = total;
        let present = bitset::contains(cell.possible, v);
        if total < limit && present {
            let mut child = grid.duplicate();
            proof {
                lemma_commit_consistent(grid@, p as int, v);
                lemma_commit_sound(grid@, p as int, v);
                lemma_commit_exact(grid@, p as int, v);
                crate::board::lemma_commit_num_empty(grid@, p as int, v);
            }
            let res = child.commit((p / 9, p % 9), v);
            proof {
                assert(idx_of((p / 9, p % 9)) == p as int);
                assert(res is Ok);
                assert(child@ == committed_grid(grid@, p as int, v));
            }
            let sub = search(child, limit - total);
            proof {
                if sub.witness is Some {
                    let w = sub.witness->Some_0;
                    assert(extends(grid@, committed_grid(grid@, p as int, v)));
                    lemma_extends_trans(grid@, committed_grid(grid@, p as int, v), w@);
                }
            }
            total = total + sub.count;
            if wit.is_none() {
                wit = sub.witness;
            }
            proof {
                // No completion was missed: one committing v at the branch
                // cell would have been counted by this very branch.
                if total == 0 {
                    assert(pre_total == 0 && sub.count == 0);
                    assert forall|w: Seq<Cell>|
                        #[trigger] completes(grid@, w) implies w[p as int].value as int >= v as int
                            + 1 by {
                        assert(w[p as int].value as int >= v as int);
                        if w[p as int].value == v {
                            lemma_completion_transfers(grid@, p as int, v, w);
                            assert(completes(committed_grid(grid@, p as int, v), w));
                            assert(solvable(committed_grid(grid@, p as int, v)));
                            assert(false);
                        }
                    }
                }
            }
        } else {
            proof {
                // A value absent from the exact possible set heads no
                // completion either.
                if total == 0 {
                    assert forall|w: Seq<Cell>|
                        #[trigger] completes(grid@, w) implies w[p as int].value as int >= v as int
                            + 1 by {
                        assert(w[p as int].value as int >= v as int);
                        if w[p as int].value == v {
                            lemma_completion_value_allowed(grid@, p as int, w);
                            assert(false);
                        }
                    }
                }
            }
        }
        v = v + 1;
    }
    proof {
        if total == 0 {
            assert forall|w: Seq<Cell>| !completes(grid@, w) by {
                if completes(grid@, w) {
                    assert(w[p as int].value as int >= 10);
                    assert(grid_wf(w));
                    assert(w[p as int].value <= 9);
                }
            }
            assert(!solvable(grid@));
        }
    }
    SolutionSet { count: total, witness: wit }
}

impl Grid {
    /// Count the completions of this grid, stopping once `limit` have been
    /// found; the grid itself is untouched.  An inconsistent grid has none; a
    /// full consistent grid is its own unique completion; and a count of
    /// zero is definitive: no completion respects the committed values and
    /// the denied sets.
    pub fn count_until(&self, limit: u64) -> (r: SolutionSet)
        requires
            self.wf(),
            1 <= limit,
        ensures
            r.count <= limit,
            r.count == 0 <==> r.witness is None,
            r.witness matches Some(w) ==> w.wf() && full(w@) && consistent(w@) && extends(
                self@,
                w@,
            ),
            r.count == 0 ==> !solvable(self@),
            !consistent(self@) ==> r.count == 0,
            full(self@) && consistent(self@) ==> r.count == 1 && (r.witness matches Some(w) && w@
                == self@),
    {
        if !is_consistent(self) {
            proof {
                lemma_inconsistent_unsolvable(self@);
            }
            return SolutionSet { count: 0, witness: None };
        }
        if self.is_full() {
            return SolutionSet { count: 1, witness: Some(self.duplicate()) };
        }
        let mut g = self.duplicate();
        g.auto_note();
        let r = search(g, limit);
        proof {
            if r.count == 0 {
                // A completion of the input would complete the noted copy
                // too: values and denied sets agree cell for cell.
                assert forall|w: Seq<Cell>| !completes(self@, w) by {
                    if completes(self@, w) {
                        assert forall|i: int|
                            0 <= i < 81 && (#[trigger] g@[i]).value != 0 implies w[i].value
                                == g@[i].value by {
                            assert(g@[i].value == self@[i].value);
                        }
                        assert forall|i: int|
                            0 <= i < 81 && (#[trigger] g@[i]).value == 0 implies !set_has(
                            g@[i].denied,
                            w[i].value as int,
                        ) by {
                            assert(g@[i].denied == self@[i].denied);
                            assert(self@[i].value == 0);
                        }
                        assert(completes(g@, w));
                        assert(solvable(g@));
                    }
                }
                assert(!solvable(self@));
            }
        }
        r
    }

    /// Collect-first search mode: return the first completion discovered,
    /// without paying for full enumeration.
    pub fn collect_first(&self) -> (r: Option<Grid>)
        requires
            self.wf(),
        ensures
            r matches Some(w) ==> w.wf() && full(w@) && consistent(w@) && extends(self@, w@),
            r is None ==> !solvable(self@),
            full(self@) && consistent(self@) ==> (r matches Some(w) && w@ == self@),
    {
        let s = self.count_until(1);
        s.witness
    }

    /// Count every completion of this grid and hand back the first one found
    /// as witness: count 0 means unsolvable, 1 unique, more ambiguous.
    pub fn force_solutions(&self) -> (r: SolutionSet)
        requires
            self.wf(),
        ensures
            r.count == 0 <==> r.witness is None,
            r.witness matches Some(w) ==> w.wf() && full(w@) && consistent(w@) && extends(
                self@,
                w@,
            ),
            r.count == 0 ==> !solvable(self@),
            !consistent(self@) ==> r.count == 0,
            full(self@) && consistent(self@) ==> r.count == 1 && (r.witness matches Some(w) && w@
                == self@),
    {
        self.count_until(u64::MAX)
    }
}

} // verus!
