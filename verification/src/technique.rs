//! The deduction technique library: pure rules that inspect candidate state
//! and either commit a value or eliminate candidates, never guessing.  The
//! techniques are ordered from cheapest to most subtle — naked single, hidden
//! single, pointing pair, naked pair — and `next_move` always answers with
//! the cheapest one that applies; in particular a naked single is always
//! taken before anything else.  No canonical difficulty weights exist, so a
//! fixed table is used: 10, 15, 30 and 40 points in that order.

use vstd::prelude::*;
use vstd::string::StringExecFns;
use crate::bitset;
use crate::bitset::{set_count, set_has};
use crate::board::{Cell, Grid};
use crate::groups::{box_of, col_of, group_cell, group_cell_at, row_of};

verus! {

/// A deduction rule, in ascending order of cost.
#[derive(Clone, Copy, Debug, PartialEq, Eq, Structural)]
pub enum Technique {
    /// A cell with exactly one possible value takes it.
    NakedSingle,
    /// A value possible in exactly one cell of a group, and not committed in
    /// that group, is committed there.
    HiddenSingle,
    /// A value confined to one row or column within a box leaves the rest of
    /// that row or column.
    PointingPair,
    /// Two cells of a group sharing the same two-value possible set drive
    /// those values out of the rest of the group.
    NakedPair,
}

/// The fixed difficulty weight of each technique.
pub open spec fn technique_points(t: Technique) -> u64 {
    match t {
        Technique::NakedSingle => 10,
        Technique::HiddenSingle => 15,
        Technique::PointingPair => 30,
        Technique::NakedPair => 40,
    }
}

/// The short code of each technique.
pub open spec fn technique_code(t: Technique) -> Seq<char> {
    match t {
        Technique::NakedSingle => "ns"@,
        Technique::HiddenSingle => "hs"@,
        Technique::PointingPair => "pp"@,
        Technique::NakedPair => "np"@,
    }
}

/// The descriptive label of each technique.
pub open spec fn technique_label(t: Technique) -> Seq<char> {
    match t {
        Technique::NakedSingle => "naked single"@,
        Technique::HiddenSingle => "hidden single"@,
        Technique::PointingPair => "pointing pair"@,
        Technique::NakedPair => "naked pair"@,
    }
}

impl Technique {
    /// The difficulty weight this technique adds to a solve.
    pub fn points(&self) -> (p: u64)
        ensures
            p == technique_points(*self),
    {
        match self {
            Technique::NakedSingle => 10,
            Technique::HiddenSingle => 15,
            Technique::PointingPair => 30,
            Technique::NakedPair => 40,
        }
    }

    /// Short code of the technique.
    pub fn code(&self) -> (r: String)
        ensures
            r@ == technique_code(*self),
    {
        match self {
            Technique::NakedSingle => String::from_str("ns"),
            Technique::HiddenSingle => String::from_str("hs"),
            Technique::PointingPair => String::from_str("pp"),
            Technique::NakedPair => String::from_str("np"),
        }
    }

    /// Descriptive label of the technique.
    pub fn label(&self) -> (r: String)
        ensures
            r@ == technique_label(*self),
    {
        match self {
            Technique::NakedSingle => String::from_str("naked single"),
            Technique::HiddenSingle => String::from_str("hidden single"),
            Technique::PointingPair => String::from_str("pointing pair"),
            Technique::NakedPair => String::from_str("naked pair"),
        }
    }
}

/// One technique application: at most one committed value, and a batch of
/// candidate eliminations `(row, column, value)`.
#[derive(Debug)]
pub struct Move {
    /// The rule that justified the move.
    pub technique: Technique,
    /// A value to commit, as `(row, column, value)`.
    pub commit: Option<(usize, usize, u8)>,
    /// Candidate values to strike, each as `(row, column, value)`.
    pub eliminations: Vec<(usize, usize, u8)>,
}

/// Cell `i` is empty with exactly one possible value.
pub open spec fn naked_single_at(s: Seq<Cell>, i: int) -> bool {
    0 <= i < 81 && s[i].value == 0 && set_count(s[i].possible) == 1
}

/// Cell `i` is the first naked single in row-major order.
pub open spec fn first_naked_single(s: Seq<Cell>, i: int) -> bool {
    naked_single_at(s, i) && (forall|j: int| 0 <= j < i ==> !naked_single_at(s, j))
}

/// The move commits one of cell `i`'s possible values there, and nothing else.
pub open spec fn commits_cell_value(m: Move, s: Seq<Cell>, i: int) -> bool {
    m.eliminations@.len() == 0 && (m.commit matches Some(t) && t.0 == row_of(i) && t.1 == col_of(i)
        && 1 <= t.2 <= 9 && set_has(s[i].possible, t.2 as int))
}

/// Cell `k` of group `g` is empty and still allows `v`.
pub open spec fn candidate_in(s: Seq<Cell>, g: int, k: int, v: int) -> bool {
    s[group_cell(g, k)].value == 0 && set_has(s[group_cell(g, k)].possible, v)
}

/// In group `g` the value `v` is committed nowhere and possible only in the
/// empty cell `k`.
pub open spec fn hidden_single_at(s: Seq<Cell>, g: int, v: int, k: int) -> bool {
    0 <= g < 27 && 1 <= v <= 9 && 0 <= k < 9 && candidate_in(s, g, k, v) && (forall|k2: int|
        0 <= k2 < 9 && k2 != k ==> !candidate_in(s, g, k2, v)) && (forall|k2: int|
        0 <= k2 < 9 ==> s[#[trigger] group_cell(g, k2)].value != v)
}

/// An elimination the current grid justifies striking: an in-range value
/// still possible in an empty, in-bounds cell.
pub open spec fn elimination_ok(s: Seq<Cell>, e: (usize, usize, u8)) -> bool {
    e.0 < 9 && e.1 < 9 && 1 <= e.2 <= 9 && s[e.0 * 9 + e.1].value == 0 && set_has(
        s[e.0 * 9 + e.1].possible,
        e.2 as int,
    )
}

/// Cell `i` lies on line `line`: rows are lines 0..9, columns lines 9..18.
pub open spec fn on_line(i: int, line: int) -> bool {
    if line < 9 {
        row_of(i) == line
    } else {
        col_of(i) == line - 9
    }
}

/// Within box `b` the value `v` is possible somewhere, and only on `line`.
pub open spec fn confined_to_line(s: Seq<Cell>, b: int, v: int, line: int) -> bool {
    0 <= b < 9 && 1 <= v <= 9 && 0 <= line < 18 && (exists|k: int|
        0 <= k < 9 && #[trigger] candidate_in(s, 18 + b, k, v)) && (forall|k: int|
        0 <= k < 9 && #[trigger] candidate_in(s, 18 + b, k, v) ==> on_line(
            group_cell(18 + b, k),
            line,
        ))
}

/// Along group `line`, outside box `b`, no cell is an eliminable occurrence
/// of `v`: nothing for a pointing pair on that line to strike.
pub open spec fn line_cleared(s: Seq<Cell>, b: int, v: int, line: int) -> bool {
    forall|k: int|
        0 <= k < 9 && box_of(#[trigger] group_cell(line, k)) != b ==> !(s[group_cell(
            line,
            k,
        )].value == 0 && set_has(s[group_cell(line, k)].possible, v))
}

/// Cells `k1` and `k2` of group `g` are a naked pair: empty, with one and the
/// same two-value possible set.
pub open spec fn naked_pair_at(s: Seq<Cell>, g: int, k1: int, k2: int) -> bool {
    0 <= g < 27 && 0 <= k1 < k2 < 9 && s[group_cell(g, k1)].value == 0 && s[group_cell(
        g,
        k2,
    )].value == 0 && s[group_cell(g, k1)].possible == s[group_cell(g, k2)].possible && set_count(
        s[group_cell(g, k1)].possible,
    ) == 2
}

/// The premise of the move's technique holds of the grid and the move records
/// exactly a conclusion that premise licenses.
pub open spec fn move_sound(s: Seq<Cell>, m: Move) -> bool {
    match m.technique {
        Technique::NakedSingle => exists|i: int|
            #![auto]
            first_naked_single(s, i) && commits_cell_value(m, s, i),
        Technique::HiddenSingle => exists|g: int, v: int, k: int|
            #![auto]
            hidden_single_at(s, g, v, k) && m.eliminations@.len() == 0 && (m.commit matches Some(t)
                && t.0 == row_of(group_cell(g, k)) && t.1 == col_of(group_cell(g, k)) && t.2
                == v),
        Technique::PointingPair => m.commit is None && m.eliminations@.len() >= 1 && (exists|
            b: int,
            v: int,
            line: int,
        |
            #![auto]
            confined_to_line(s, b, v, line) && (forall|t: int|
                0 <= t < m.eliminations@.len() ==> {
                    let e = #[trigger] m.eliminations@[t];
                    elimination_ok(s, e) && e.2 as int == v && on_line(e.0 * 9 + e.1, line)
                        && box_of(e.0 * 9 + e.1) != b
                })),
        Technique::NakedPair => m.commit is None && m.eliminations@.len() >= 1 && (exists|
            g: int,
            k1: int,
            k2: int,
        |
            #![auto]
            naked_pair_at(s, g, k1, k2) && (forall|t: int|
                0 <= t < m.eliminations@.len() ==> {
                    let e = #[trigger] m.eliminations@[t];
                    elimination_ok(s, e) && set_has(s[group_cell(g, k1)].possible, e.2 as int) && (
                    exists|k3: int|
                        0 <= k3 < 9 && k3 != k1 && k3 != k2 && group_cell(g, k3) == e.0 * 9 + e.1)
                })),
    }
}

/// What applying the move needs of the grid: any committed cell is in bounds
/// and empty with an in-range value, and every elimination is justified.
pub open spec fn move_app_ok(s: Seq<Cell>, m: Move) -> bool {
    (m.commit matches Some(t) ==> t.0 < 9 && t.1 < 9 && 1 <= t.2 <= 9 && s[t.0 * 9
        + t.1].value == 0) && (forall|t: int|
        0 <= t < m.eliminations@.len() ==> elimination_ok(s, #[trigger] m.eliminations@[t]))
}

/// The cheapest rule first: find the first naked single in row-major order.
pub fn find_naked_single(grid: &Grid) -> (r: Option<Move>)
    requires
        grid.wf(),
    ensures
        r is None <==> (forall|i: int| 0 <= i < 81 ==> !naked_single_at(grid@, i)),
        r matches Some(m) ==> m.technique == Technique::NakedSingle && move_sound(grid@, m)
            && move_app_ok(grid@, m),
{
    let mut i: usize = 0;
    while i < 81
        invariant
            grid.wf(),
            i <= 81,
            forall|j: int| 0 <= j < i ==> !naked_single_at(grid@, j),
        decreases 81 - i,
    {
        let c = grid.cell_at((i / 9, i % 9));
        proof {
            assert(crate::groups::idx_of((i / 9, i % 9)) == i as int);
        }
        if c.value == 0 && bitset::count_values(c.possible) == 1 {
            proof {
                bitset::lemma_count_from_zero(c.possible, 1);
            }
            let vo = bitset::lowest_value(c.possible);
            if let Some(v) = vo {
                let m = Move {
                    technique: Technique::NakedSingle,
                    commit: Some((i / 9, i % 9, v)),
                    eliminations: Vec::new(),
                };
                proof {
                    assert(first_naked_single(grid@, i as int));
                    assert(commits_cell_value(m, grid@, i as int));
                }
                return Some(m);
            } else {
                proof {
                    assert(false);
                }
            }
        }
        i = i + 1;
    }
    None
}

/// Find a hidden single: in some group, a value committed nowhere in it and
/// possible in exactly one of its empty cells.
pub fn find_hidden_single(grid: &Grid) -> (r: Option<Move>)
    requires
        grid.wf(),
    ensures
        r is None <==> (forall|g: int, v: int, k: int| !hidden_single_at(grid@, g, v, k)),
        r matches Some(m) ==> m.technique == Technique::HiddenSingle && move_sound(grid@, m)
            && move_app_ok(grid@, m),
{
    let mut g: usize = 0;
    while g < 27
        invariant
            grid.wf(),
            g <= 27,
            forall|g2: int, v2: int, k2: int| g2 < g ==> !hidden_single_at(grid@, g2, v2, k2),
        decreases 27 - g,
    {
        let mut v: u8 = 1;
        while v <= 9
            invariant
                grid.wf(),
                g < 27,
                1 <= v <= 10,
                forall|g2: int, v2: int, k2: int| g2 < g ==> !hidden_single_at(grid@, g2, v2, k2),
                forall|v2: int, k2: int|
                    1 <= v2 < v ==> !hidden_single_at(grid@, g as int, v2, k2),
            decreases 10 - v,
        {
            let mut k: usize = 0;
            let mut found: Option<usize> = None;
            let mut second = false;
            let ghost mut pair: (int, int) = (0int, 0int);
            let mut committed = false;
            while k < 9
                invariant
                    grid.wf(),
                    g < 27,
                    1 <= v <= 9,
                    k <= 9,
                    committed <==> (exists|k2: int|
                        0 <= k2 < k && grid@[#[trigger] group_cell(g as int, k2)].value
                            == v as int),
                    found is None ==> (forall|k2: int|
                        0 <= k2 < k ==> !candidate_in(grid@, g as int, k2, v as int)),
                    found matches Some(f) ==> (f as int) < k && k <= 9 && candidate_in(
                        grid@,
                        g as int,
                        f as int,
                        v as int,
                    ),
                    second ==> 0 <= pair.0 < pair.1 < k && candidate_in(
                        grid@,
                        g as int,
                        pair.0,
                        v as int,
                    ) && candidate_in(grid@, g as int, pair.1, v as int),
                    !second ==> (found matches Some(f) ==> (forall|k2: int|
                        0 <= k2 < k && k2 != f as int ==> !candidate_in(
                            grid@,
                            g as int,
                            k2,
                            v as int,
                        ))),
                decreases 9 - k,
            {
                let i = group_cell_at(g, k);
                let c = grid.cell_at((i / 9, i % 9));
                proof {
                    assert(crate::groups::idx_of((i / 9, i % 9)) == i as int);
                }
                if c.value == v {
                    committed = true;
                }
                if c.value == 0 && bitset::contains(c.possible, v) {
                    match found {
                        None => {
                            found = Some(k);
                        },
                        Some(f) => {
                            if !second {
                                proof {
                                    pair = (f as int, k as int);
                                }
                                second = true;
                            }
                        },
                    }
                }
                k = k + 1;
            }
            if !committed && !second {
                if let Some(f) = found {
                    let i = group_cell_at(g, f);
                    let m = Move {
                        technique: Technique::HiddenSingle,
                        commit: Some((i / 9, i % 9, v)),
                        eliminations: Vec::new(),
                    };
                    proof {
                        assert(hidden_single_at(grid@, g as int, v as int, f as int));
                        assert(grid@[i as int].value == 0 && set_has(
                            grid@[i as int].possible,
                            v as int,
                        ));
                    }
                    return Some(m);
                }
            }
            proof {
                assert forall|k2: int| !hidden_single_at(grid@, g as int, v as int, k2) by {
                    if 0 <= k2 < 9 && hidden_single_at(grid@, g as int, v as int, k2) {
                        if committed {
                            let kc = choose|kc: int|
                                0 <= kc < 9 && grid@[group_cell(g as int, kc)].value == v as int;
                            assert(grid@[group_cell(g as int, kc)].value != v as int);
                        } else if second {
                            if pair.0 != k2 {
                                assert(!candidate_in(grid@, g as int, pair.0, v as int));
                            } else {
                                assert(!candidate_in(grid@, g as int, pair.1, v as int));
                            }
                        } else {
                            assert(candidate_in(grid@, g as int, k2, v as int));
                            assert(found is Some);
                        }
                    }
                }
            }
            v = v + 1;
        }
        g = g + 1;
    }
    None
}

/// Gather, along `line` (a row group 0..9 or a column group 9..18), every
/// still-possible occurrence of `v` outside box `b`.
fn collect_line_elims(grid: &Grid, line: usize, b: usize, v: u8) -> (es: Vec<(usize, usize, u8)>)
    requires
        grid.wf(),
        line < 18,
        b < 9,
        1 <= v <= 9,
    ensures
        forall|t: int|
            0 <= t < es@.len() ==> {
                let e = #[trigger] es@[t];
                elimination_ok(grid@, e) && e.2 == v && on_line(e.0 * 9 + e.1, line as int)
                    && box_of(e.0 * 9 + e.1) != b as int
            },
        es@.len() == 0 ==> line_cleared(grid@, b as int, v as int, line as int),
{
    let mut es: Vec<(usize, usize, u8)> = Vec::new();
    let mut k: usize = 0;
    while k < 9
        invariant
            grid.wf(),
            line < 18,
            b < 9,
            1 <= v <= 9,
            k <= 9,
            forall|t: int|
                0 <= t < es@.len() ==> {
                    let e = #[trigger] es@[t];
                    elimination_ok(grid@, e) && e.2 == v && on_line(e.0 * 9 + e.1, line as int)
                        && box_of(e.0 * 9 + e.1) != b as int
                },
            es@.len() == 0 ==> (forall|k2: int|
                0 <= k2 < k && box_of(#[trigger] group_cell(line as int, k2)) != b as int ==> !(
                grid@[group_cell(line as int, k2)].value == 0 && set_has(
                    grid@[group_cell(line as int, k2)].possible,
                    v as int,
                ))),
        decreases 9 - k,
    {
        let i = group_cell_at(line, k);
        let bx = (i / 27) * 3 + (i % 9) / 3;
        if bx != b {
            let c = grid.cell_at((i / 9, i % 9));
            proof {
                assert(crate::groups::idx_of((i / 9, i % 9)) == i as int);
            }
            if c.value == 0 && bitset::contains(c.possible, v) {
                proof {
                    assert(on_line(i as int, line as int));
                }
                es.push((i / 9, i % 9, v));
            }
        }
        k = k + 1;
    }
    es
}

/// Find a pointing pair: a value confined, within some box, to a single row
/// or column, with something to eliminate on the rest of that line.
pub fn find_pointing_pair(grid: &Grid) -> (r: Option<Move>)
    requires
        grid.wf(),
    ensures
        r matches Some(m) ==> m.technique == Technique::PointingPair && move_sound(grid@, m)
            && move_app_ok(grid@, m),
        r is None ==> (forall|b: int, v: int, line: int|
            #[trigger] confined_to_line(grid@, b, v, line) ==> line_cleared(grid@, b, v, line)),
{
    let mut b: usize = 0;
    while b < 9
        invariant
            grid.wf(),
            b <= 9,
            forall|b2: int, v2: int, line: int|
                0 <= b2 < b ==> (#[trigger] confined_to_line(grid@, b2, v2, line) ==> line_cleared(
                    grid@,
                    b2,
                    v2,
                    line,
                )),
        decreases 9 - b,
    {
        let mut v: u8 = 1;
        while v <= 9
            invariant
                grid.wf(),
                b < 9,
                1 <= v <= 10,
                forall|b2: int, v2: int, line: int|
                    0 <= b2 < b ==> (#[trigger] confined_to_line(grid@, b2, v2, line)
                        ==> line_cleared(grid@, b2, v2, line)),
                forall|v2: int, line: int|
                    1 <= v2 < v ==> (#[trigger] confined_to_line(grid@, b as int, v2, line)
                        ==> line_cleared(grid@, b as int, v2, line)),
            decreases 10 - v,
        {
            let mut k: usize = 0;
            let mut found = false;
            let mut frow: usize = 0;
            let mut fcol: usize = 0;
            let mut rsame = true;
            let mut csame = true;
            let ghost mut first_k: int = 0int;
            let ghost mut rbreak: int = 0int;
            let ghost mut cbreak: int = 0int;
            while k < 9
                invariant
                    grid.wf(),
                    b < 9,
                    1 <= v <= 9,
                    k <= 9,
                    found ==> frow < 9 && fcol < 9,
                    found <==> (exists|k2: int|
                        0 <= k2 < k && #[trigger] candidate_in(grid@, 18 + b as int, k2, v as int)),
                    found ==> 0 <= first_k < k && candidate_in(
                        grid@,
                        18 + b as int,
                        first_k,
                        v as int,
                    ) && row_of(group_cell(18 + b as int, first_k)) == frow as int && col_of(
                        group_cell(18 + b as int, first_k),
                    ) == fcol as int,
                    found && rsame ==> (forall|k2: int|
                        0 <= k2 < k && #[trigger] candidate_in(grid@, 18 + b as int, k2, v as int)
                            ==> row_of(group_cell(18 + b as int, k2)) == frow as int),
                    found && csame ==> (forall|k2: int|
                        0 <= k2 < k && #[trigger] candidate_in(grid@, 18 + b as int, k2, v as int)
                            ==> col_of(group_cell(18 + b as int, k2)) == fcol as int),
                    !found ==> rsame && csame,
                    !rsame ==> found && 0 <= rbreak < k && candidate_in(
                        grid@,
                        18 + b as int,
                        rbreak,
                        v as int,
                    ) && row_of(group_cell(18 + b as int, rbreak)) != frow as int,
                    !csame ==> found && 0 <= cbreak < k && candidate_in(
                        grid@,
                        18 + b as int,
                        cbreak,
                        v as int,
                    ) && col_of(group_cell(18 + b as int, cbreak)) != fcol as int,
                decreases 9 - k,
            {
                let i = group_cell_at(18 + b, k);
                let c = grid.cell_at((i / 9, i % 9));
                proof {
                    assert(crate::groups::idx_of((i / 9, i % 9)) == i as int);
                }
                let cand = c.value == 0 && bitset::contains(c.possible, v);
                proof {
                    assert(cand == candidate_in(grid@, 18 + b as int, k as int, v as int));
                }
                if cand {
                    if !found {
                        found = true;
                        frow = i / 9;
                        fcol = i % 9;
                        proof {
                            first_k = k as int;
                        }
                    } else {
                        if i / 9 != frow {
                            rsame = false;
                            proof {
                                rbreak = k as int;
                            }
                        }
                        if i % 9 != fcol {
                            csame = false;
                            proof {
                                cbreak = k as int;
                            }
                        }
                    }
                }
                k = k + 1;
            }
            if found && rsame {
                let es = collect_line_elims(grid, frow, b, v);
                if es.len() > 0 {
                    let m = Move {
                        technique: Technique::PointingPair,
                        commit: None,
                        eliminations: es,
                    };
                    proof {
                        assert(confined_to_line(grid@, b as int, v as int, frow as int));
                    }
                    return Some(m);
                }
            }
            if found && csame {
                let es = collect_line_elims(grid, 9 + fcol, b, v);
                if es.len() > 0 {
                    let m = Move {
                        technique: Technique::PointingPair,
                        commit: None,
                        eliminations: es,
                    };
                    proof {
                        assert(confined_to_line(grid@, b as int, v as int, 9 + fcol as int));
                    }
                    return Some(m);
                }
            }
            proof {
                assert forall|line: int|
                    #[trigger] confined_to_line(grid@, b as int, v as int, line) implies line_cleared(
                    grid@,
                    b as int,
                    v as int,
                    line,
                ) by {
                    let kw = choose|kw: int|
                        0 <= kw < 9 && #[trigger] candidate_in(grid@, 18 + b as int, kw, v as int);
                    assert(candidate_in(grid@, 18 + b as int, kw, v as int));
                    assert(found);
                    assert(candidate_in(grid@, 18 + b as int, first_k, v as int));
                    assert(on_line(group_cell(18 + b as int, first_k), line));
                    if line < 9 {
                        assert(line == frow as int);
                        if !rsame {
                            assert(candidate_in(grid@, 18 + b as int, rbreak, v as int));
                            assert(on_line(group_cell(18 + b as int, rbreak), line));
                            assert(false);
                        }
                        assert(line_cleared(grid@, b as int, v as int, frow as int));
                    } else {
                        assert(line == 9 + fcol as int);
                        if !csame {
                            assert(candidate_in(grid@, 18 + b as int, cbreak, v as int));
                            assert(on_line(group_cell(18 + b as int, cbreak), line));
                            assert(false);
                        }
                        assert(line_cleared(grid@, b as int, v as int, (9 + fcol) as int));
                    }
                }
            }
            v = v + 1;
        }
        b = b + 1;
    }
    None
}

/// Find a naked pair: two cells of a group with one shared two-value
/// possible set, with something to eliminate elsewhere in the group.
pub fn find_naked_pair(grid: &Grid) -> (r: Option<Move>)
    requires
        grid.wf(),
    ensures
        r matches Some(m) ==> m.technique == Technique::NakedPair && move_sound(grid@, m)
            && move_app_ok(grid@, m),
        r is None ==> (forall|g: int, k1: int, k2: int|
            #[trigger] naked_pair_at(grid@, g, k1, k2) ==> pair_cleared(grid@, g, k1, k2)),
{
    let mut g: usize = 0;
    while g < 27
        invariant
            grid.wf(),
            g <= 27,
            forall|g2: int, k1b: int, k2b: int|
                0 <= g2 < g ==> (#[trigger] naked_pair_at(grid@, g2, k1b, k2b) ==> pair_cleared(
                    grid@,
                    g2,
                    k1b,
                    k2b,
                )),
        decreases 27 - g,
    {
        let mut k1: usize = 0;
        while k1 < 9
            invariant
                grid.wf(),
                g < 27,
                k1 <= 9,
                forall|g2: int, k1b: int, k2b: int|
                    0 <= g2 < g ==> (#[trigger] naked_pair_at(grid@, g2, k1b, k2b)
                        ==> pair_cleared(grid@, g2, k1b, k2b)),
                forall|k1b: int, k2b: int|
                    0 <= k1b < k1 ==> (#[trigger] naked_pair_at(grid@, g as int, k1b, k2b)
                        ==> pair_cleared(grid@, g as int, k1b, k2b)),
            decreases 9 - k1,
        {
            let i1 = group_cell_at(g, k1);
            let c1 = grid.cell_at((i1 / 9, i1 % 9));
            proof {
                assert(crate::groups::idx_of((i1 / 9, i1 % 9)) == i1 as int);
            }
            if c1.value == 0 && bitset::count_values(c1.possible) == 2 {
                let mut k2: usize = k1 + 1;
                while k2 < 9
                    invariant
                        grid.wf(),
                        g < 27,
                        k1 < 9,
                        k1 < k2 <= 9,
                        c1 == grid@[group_cell(g as int, k1 as int)],
                        c1.value == 0,
                        set_count(c1.possible) == 2,
                        forall|k2b: int|
                            (k1 as int) < k2b < k2 ==> (#[trigger] naked_pair_at(
                                grid@,
                                g as int,
                                k1 as int,
                                k2b,
                            ) ==> pair_cleared(grid@, g as int, k1 as int, k2b)),
                    decreases 9 - k2,
                {
                    let i2 = group_cell_at(g, k2);
                    let c2 = grid.cell_at((i2 / 9, i2 % 9));
                    proof {
                        assert(crate::groups::idx_of((i2 / 9, i2 % 9)) == i2 as int);
                    }
                    if c2.value == 0 && c2.possible == c1.possible {
                        proof {
                            assert(naked_pair_at(grid@, g as int, k1 as int, k2 as int));
                            bitset::lemma_count_from_zero(c1.possible, 1);
                        }
                        let v1o = bitset::lowest_value(c1.possible);
                        if let Some(v1) = v1o {
                            let rest = bitset::without_value(c1.possible, v1);
                            let v2o = bitset::lowest_value(rest);
                            proof {
                                if v2o is None {
                                    assert forall|w: int|
                                        set_has(c1.possible, w) implies w == v1 as int by {
                                        if w != v1 as int {
                                            assert(set_has(rest, w));
                                        }
                                    }
                                    bitset::lemma_count_from_single(c1.possible, 1, v1 as int);
                                    assert(false);
                                }
                            }
                            let es = collect_pair_elims(grid, g, k1, k2, c1.possible, v1, v2o);
                            if es.len() > 0 {
                                let m = Move {
                                    technique: Technique::NakedPair,
                                    commit: None,
                                    eliminations: es,
                                };
                                return Some(m);
                            }
                            proof {
                                let v2 = v2o->Some_0;
                                assert(set_has(c1.possible, v2 as int));
                                assert((v1 as int) < (v2 as int));
                                assert forall|w: int|
                                    #[trigger] set_has(c1.possible, w) implies w == v1 as int || w
                                    == v2 as int by {
                                    if w != v1 as int && w != v2 as int {
                                        assert(set_has(rest, w));
                                        assert(w > v2 as int);
                                        bitset::lemma_count_three_members(
                                            c1.possible,
                                            v1 as int,
                                            v2 as int,
                                            w,
                                        );
                                        assert(false);
                                    }
                                }
                                assert forall|k3: int|
                                    0 <= k3 < 9 && k3 != k1 as int && k3 != k2 as int && grid@[
                                    #[trigger] group_cell(g as int, k3)].value == 0 implies (forall|
                                    w: int,
                                |
                                    #[trigger] set_has(
                                        grid@[group_cell(g as int, k3)].possible,
                                        w,
                                    ) ==> !set_has(
                                        grid@[group_cell(g as int, k1 as int)].possible,
                                        w,
                                    )) by {
                                    assert forall|w: int|
                                        #[trigger] set_has(
                                            grid@[group_cell(g as int, k3)].possible,
                                            w,
                                        ) implies !set_has(
                                        grid@[group_cell(g as int, k1 as int)].possible,
                                        w,
                                    ) by {
                                        if set_has(c1.possible, w) {
                                            assert(w == v1 as int || w == v2 as int);
                                            assert(!set_has(
                                                grid@[group_cell(g as int, k3)].possible,
                                                v1 as int,
                                            ));
                                            assert(!set_has(
                                                grid@[group_cell(g as int, k3)].possible,
                                                v2 as int,
                                            ));
                                        }
                                    }
                                }
                                assert(pair_cleared(grid@, g as int, k1 as int, k2 as int));
                            }
                        } else {
                            proof {
                                assert(false);
                            }
                        }
                    } else {
                        proof {
                            assert(!naked_pair_at(grid@, g as int, k1 as int, k2 as int));
                        }
                    }
                    k2 = k2 + 1;
                }
                proof {
                    assert forall|k2b: int|
                        #[trigger] naked_pair_at(grid@, g as int, k1 as int, k2b) implies pair_cleared(
                        grid@,
                        g as int,
                        k1 as int,
                        k2b,
                    ) by {}
                }
            } else {
                proof {
                    assert forall|k2b: int|
                        !naked_pair_at(grid@, g as int, k1 as int, k2b) by {
                        if naked_pair_at(grid@, g as int, k1 as int, k2b) {
                            assert(grid@[group_cell(g as int, k1 as int)].value == 0);
                            assert(set_count(grid@[group_cell(g as int, k1 as int)].possible)
                                == 2);
                        }
                    }
                }
            }
            k1 = k1 + 1;
        }
        g = g + 1;
    }
    None
}

/// Elsewhere in group `g`, no empty cell still shares a value with the pair
/// at `k1` and `k2`: nothing for a naked pair there to strike.
pub open spec fn pair_cleared(s: Seq<Cell>, g: int, k1: int, k2: int) -> bool {
    forall|k3: int|
        0 <= k3 < 9 && k3 != k1 && k3 != k2 && s[#[trigger] group_cell(g, k3)].value == 0 ==> (
        forall|w: int|
            #[trigger] set_has(s[group_cell(g, k3)].possible, w) ==> !set_has(
                s[group_cell(g, k1)].possible,
                w,
            ))
}

/// A strike that the pair `k1`, `k2` of group `g` licenses: a justified
/// elimination of one of the pair's values, elsewhere in the group.
pub open spec fn pair_elim_ok(
    s: Seq<Cell>,
    g: int,
    k1: int,
    k2: int,
    pp: u16,
    e: (usize, usize, u8),
) -> bool {
    elimination_ok(s, e) && set_has(pp, e.2 as int) && (exists|k3: int|
        0 <= k3 < 9 && k3 != k1 && k3 != k2 && group_cell(g, k3) == e.0 * 9 + e.1)
}

/// Gather, in group `g`, every still-possible occurrence of the pair's two
/// values outside the pair cells `k1` and `k2` themselves.
fn collect_pair_elims(
    grid: &Grid,
    g: usize,
    k1: usize,
    k2: usize,
    pp: u16,
    v1: u8,
    v2o: Option<u8>,
) -> (es: Vec<(usize, usize, u8)>)
    requires
        grid.wf(),
        g < 27,
        k1 < 9,
        k2 < 9,
        1 <= v1 <= 9,
        set_has(pp, v1 as int),
        v2o matches Some(v2) ==> 1 <= v2 <= 9 && set_has(pp, v2 as int),
    ensures
        forall|t: int|
            0 <= t < es@.len() ==> pair_elim_ok(
                grid@,
                g as int,
                k1 as int,
                k2 as int,
                pp,
                #[trigger] es@[t],
            ),
        es@.len() == 0 ==> (forall|k3: int|
            0 <= k3 < 9 && k3 != k1 as int && k3 != k2 as int && grid@[#[trigger] group_cell(
                g as int,
                k3,
            )].value == 0 ==> !set_has(grid@[group_cell(g as int, k3)].possible, v1 as int) && (
            v2o matches Some(v2) ==> !set_has(
                grid@[group_cell(g as int, k3)].possible,
                v2 as int,
            ))),
{
    let mut es: Vec<(usize, usize, u8)> = Vec::new();
    let mut k: usize = 0;
    while k < 9
        invariant
            grid.wf(),
            g < 27,
            k1 < 9,
            k2 < 9,
            1 <= v1 <= 9,
            set_has(pp, v1 as int),
            v2o matches Some(v2) ==> 1 <= v2 <= 9 && set_has(pp, v2 as int),
            k <= 9,
            forall|t: int|
                0 <= t < es@.len() ==> pair_elim_ok(
                    grid@,
                    g as int,
                    k1 as int,
                    k2 as int,
                    pp,
                    #[trigger] es@[t],
                ),
            es@.len() == 0 ==> (forall|k3: int|
                0 <= k3 < k && k3 != k1 as int && k3 != k2 as int && grid@[#[trigger] group_cell(
                    g as int,
                    k3,
                )].value == 0 ==> !set_has(grid@[group_cell(g as int, k3)].possible, v1 as int) && (
                v2o matches Some(v2) ==> !set_has(
                    grid@[group_cell(g as int, k3)].possible,
                    v2 as int,
                ))),
        decreases 9 - k,
    {
        if k != k1 && k != k2 {
            let i = group_cell_at(g, k);
            let c = grid.cell_at((i / 9, i % 9));
            proof {
                assert(crate::groups::idx_of((i / 9, i % 9)) == i as int);
                assert((i / 9) * 9 + i % 9 == i as int);
            }
            if c.value == 0 {
                if bitset::contains(c.possible, v1) {
                    proof {
                        assert(pair_elim_ok(
                            grid@,
                            g as int,
                            k1 as int,
                            k2 as int,
                            pp,
                            (i / 9, i % 9, v1),
                        ));
                    }
                    es.push((i / 9, i % 9, v1));
                }
                if let Some(v2) = v2o {
                    if bitset::contains(c.possible, v2) {
                        proof {
                            assert(pair_elim_ok(
                                grid@,
                                g as int,
                                k1 as int,
                                k2 as int,
                                pp,
                                (i / 9, i % 9, v2),
                            ));
                        }
                        es.push((i / 9, i % 9, v2));
                    }
                }
            }
        }
        k = k + 1;
    }
    es
}

/// The technique pass: try every rule in ascending order of cost and answer
/// with the first that applies anywhere.  A naked single, when one exists, is
/// always the move returned — no costlier technique may run first.
pub fn next_move(grid: &Grid) -> (r: Option<Move>)
    requires
        grid.wf(),
    ensures
        r matches Some(m) ==> move_sound(grid@, m) && move_app_ok(grid@, m),
        (exists|i: int| naked_single_at(grid@, i)) ==> (r matches Some(m) && m.technique
            == Technique::NakedSingle),
        r is None ==> (forall|i: int| !naked_single_at(grid@, i)) && (forall|g: int, v: int, k: int|
            !hidden_single_at(grid@, g, v, k)) && (forall|b: int, v: int, line: int|
            #[trigger] confined_to_line(grid@, b, v, line) ==> line_cleared(grid@, b, v, line)) && (
        forall|g: int, k1: int, k2: int|
            #[trigger] naked_pair_at(grid@, g, k1, k2) ==> pair_cleared(grid@, g, k1, k2)),
{
    let m = find_naked_single(grid);
    if m.is_some() {
        return m;
    }
    let m = find_hidden_single(grid);
    if m.is_some() {
        return m;
    }
    let m = find_pointing_pair(grid);
    if m.is_some() {
        return m;
    }
    find_naked_pair(grid)
}

} // verus!
