//! Read-only constraint queries over a grid: the peers of a cell, the values
//! a group already uses, and whole-grid consistency.

use vstd::prelude::*;
use crate::bitset;
use crate::bitset::set_has;
use crate::board::{consistent, Grid, GridError};
use crate::groups::{group_cell, group_cell_at, idx_of, pos_in_bounds, same_unit, cells_share_unit};

verus! {

/// Number of cells with index below `n` that are peers of cell `p`.
pub open spec fn peer_count(p: int, n: int) -> nat
    decreases n,
{
    if n <= 0 {
        0
    } else {
        peer_count(p, n - 1) + (if same_unit(n - 1, p) {
            1nat
        } else {
            0nat
        })
    }
}

/// What row `r0` contributes to the peer count of `p`: eight cells in `p`'s
/// own row, three in another row of `p`'s band of boxes, one elsewhere.
#[verifier::rlimit(100)]
proof fn lemma_peer_count_row(p: int, r0: int)
    requires
        0 <= p < 81,
        0 <= r0 < 9,
    ensures
        peer_count(p, 9 * r0 + 9) == peer_count(p, 9 * r0) + (if r0 == p / 9 {
            8int
        } else if r0 / 3 == (p / 9) / 3 {
            3int
        } else {
            1int
        }),
{
    let base = 9 * r0;
    assert(peer_count(p, base + 1) == peer_count(p, base) + (if same_unit(base, p) {
        1nat
    } else {
        0nat
    }));
    assert(peer_count(p, base + 2) == peer_count(p, base + 1) + (if same_unit(base + 1, p) {
        1nat
    } else {
        0nat
    }));
    assert(peer_count(p, base + 3) == peer_count(p, base + 2) + (if same_unit(base + 2, p) {
        1nat
    } else {
        0nat
    }));
    assert(peer_count(p, base + 4) == peer_count(p, base + 3) + (if same_unit(base + 3, p) {
        1nat
    } else {
        0nat
    }));
    assert(peer_count(p, base + 5) == peer_count(p, base + 4) + (if same_unit(base + 4, p) {
        1nat
    } else {
        0nat
    }));
    assert(peer_count(p, base + 6) == peer_count(p, base + 5) + (if same_unit(base + 5, p) {
        1nat
    } else {
        0nat
    }));
    assert(peer_count(p, base + 7) == peer_count(p, base + 6) + (if same_unit(base + 6, p) {
        1nat
    } else {
        0nat
    }));
    assert(peer_count(p, base + 8) == peer_count(p, base + 7) + (if same_unit(base + 7, p) {
        1nat
    } else {
        0nat
    }));
    assert(peer_count(p, base + 9) == peer_count(p, base + 8) + (if same_unit(base + 8, p) {
        1nat
    } else {
        0nat
    }));
    let rp = p / 9;
    let cp = p % 9;
    assert(p == 9 * rp + cp && 0 <= rp < 9 && 0 <= cp < 9) by (nonlinear_arith)
        requires
            0 <= p < 81 && rp == p / 9 && cp == p % 9,
    ;
    assert(p / 27 == rp / 3) by (nonlinear_arith)
        requires
            0 <= p < 81 && rp == p / 9,
    ;
    assert forall|c: int|
        0 <= c < 9 implies #[trigger] same_unit(9 * r0 + c, p) == ((9 * r0 + c) != p && (r0 == rp
            || c == cp || (r0 / 3 == rp / 3 && c / 3 == cp / 3))) by {
        let j = 9 * r0 + c;
        assert(j / 9 == r0 && j % 9 == c && j / 27 == r0 / 3) by (nonlinear_arith)
            requires
                0 <= r0 < 9 && 0 <= c < 9 && j == 9 * r0 + c,
        ;
    }
}

/// Every cell has exactly twenty peers: eight in its row, eight in its
/// column, and four more in its box.
#[verifier::rlimit(100)]
proof fn lemma_twenty_peers(p: int)
    requires
        0 <= p < 81,
    ensures
        peer_count(p, 81) == 20,
{
    lemma_peer_count_row(p, 0);
    lemma_peer_count_row(p, 1);
    lemma_peer_count_row(p, 2);
    lemma_peer_count_row(p, 3);
    lemma_peer_count_row(p, 4);
    lemma_peer_count_row(p, 5);
    lemma_peer_count_row(p, 6);
    lemma_peer_count_row(p, 7);
    lemma_peer_count_row(p, 8);
}

/// The positions sharing a row, column, or box with `pos`, in row-major
/// order, each exactly once; there are always twenty of them.
pub fn peers(pos: (usize, usize)) -> (r: Result<Vec<(usize, usize)>, GridError>)
    ensures
        !pos_in_bounds(pos) ==> r == Result::<Vec<(usize, usize)>, GridError>::Err(
            GridError::OutOfRange,
        ),
        r matches Ok(v) ==> pos_in_bounds(pos) && v@.len() == 20 && (forall|k: int|
            0 <= k < v@.len() ==> pos_in_bounds(#[trigger] v@[k]) && same_unit(
                idx_of(v@[k]),
                idx_of(pos),
            )) && (forall|q: (usize, usize)|
            pos_in_bounds(q) && same_unit(idx_of(q), idx_of(pos)) ==> v@.contains(q)) && (forall|
            k1: int,
            k2: int,
        |
            0 <= k1 < k2 < v@.len() ==> idx_of(#[trigger] v@[k1]) < idx_of(#[trigger] v@[k2])),
{
    if !(pos.0 < 9 && pos.1 < 9) {
        return Err(GridError::OutOfRange);
    }
    let p: usize = pos.0 * 9 + pos.1;
    let mut v: Vec<(usize, usize)> = Vec::new();
    let mut i: usize = 0;
    while i < 81
        invariant
            p == idx_of(pos) && p < 81,
            pos_in_bounds(pos),
            i <= 81,
            forall|k: int|
                0 <= k < v@.len() ==> pos_in_bounds(#[trigger] v@[k]) && same_unit(
                    idx_of(v@[k]),
                    p as int,
                ) && idx_of(v@[k]) < i,
            forall|q: (usize, usize)|
                pos_in_bounds(q) && idx_of(q) < i && same_unit(idx_of(q), p as int)
                    ==> v@.contains(q),
            forall|k1: int, k2: int|
                0 <= k1 < k2 < v@.len() ==> idx_of(#[trigger] v@[k1]) < idx_of(#[trigger] v@[k2]),
            v@.len() == peer_count(p as int, i as int),
        decreases 81 - i,
    {
        if cells_share_unit(i, p) {
            let q = (i / 9, i % 9);
            proof {
                assert(idx_of(q) == i as int);
            }
            let ghost pre = v@;
            v.push(q);
            proof {
                assert(v@ == pre.push(q));
                assert forall|q2: (usize, usize)|
                    pos_in_bounds(q2) && idx_of(q2) < i + 1 && same_unit(
                        idx_of(q2),
                        p as int,
                    ) implies v@.contains(q2) by {
                    if idx_of(q2) < i {
                        assert(pre.contains(q2));
                        let k = choose|k: int| 0 <= k < pre.len() && pre[k] == q2;
                        assert(v@[k] == q2);
                    } else {
                        assert(idx_of(q2) == i as int);
                        assert(q2.0 == i / 9 && q2.1 == i % 9) by (nonlinear_arith)
                            requires
                                q2.0 < 9 && q2.1 < 9 && q2.0 * 9 + q2.1 == i && i < 81,
                        ;
                        assert(v@[v@.len() - 1] == q2);
                    }
                }
            }
        } else {
            proof {
                assert forall|q2: (usize, usize)|
                    pos_in_bounds(q2) && idx_of(q2) < i + 1 && same_unit(
                        idx_of(q2),
                        p as int,
                    ) implies v@.contains(q2) by {
                    if idx_of(q2) == i as int {
                        assert(!same_unit(i as int, p as int));
                    }
                }
            }
        }
        i = i + 1;
    }
    proof {
        lemma_twenty_peers(p as int);
    }
    Ok(v)
}

/// The set of committed values of group `g` (0..27), as a candidate set.
pub fn used_values(grid: &Grid, g: usize) -> (r: Result<u16, GridError>)
    requires
        grid.wf(),
    ensures
        g >= 27 ==> r == Result::<u16, GridError>::Err(GridError::OutOfRange),
        r matches Ok(s) ==> g < 27 && (forall|w: int|
            #[trigger] set_has(s, w) <==> exists|k: int|
                0 <= k < 9 && (#[trigger] grid@[group_cell(g as int, k)]).value != 0
                    && grid@[group_cell(g as int, k)].value == w),
{
    if g >= 27 {
        return Err(GridError::OutOfRange);
    }
    let mut s: u16 = 0;
    proof {
        bitset::lemma_no_members_of_zero();
    }
    let mut k: usize = 0;
    while k < 9
        invariant
            grid.wf(),
            g < 27,
            k <= 9,
            forall|w: int|
                #[trigger] set_has(s, w) <==> exists|k2: int|
                    0 <= k2 < k && (#[trigger] grid@[group_cell(g as int, k2)]).value != 0
                        && grid@[group_cell(g as int, k2)].value == w,
        decreases 9 - k,
    {
        let i = group_cell_at(g, k);
        let c = grid.cell_at((i / 9, i % 9));
        proof {
            assert(idx_of((i / 9, i % 9)) == i as int);
        }
        if c.value != 0 {
            s = bitset::with_value(s, c.value);
        }
        k = k + 1;
    }
    Ok(s)
}

/// True exactly when no group holds a duplicate committed value.
pub fn is_consistent(grid: &Grid) -> (r: bool)
    requires
        grid.wf(),
    ensures
        r == consistent(grid@),
{
    let mut i: usize = 0;
    while i < 81
        invariant
            grid.wf(),
            i <= 81,
            forall|i2: int, j2: int|
                0 <= i2 < i && 0 <= j2 < 81 && same_unit(i2, j2) && (#[trigger] grid@[i2]).value
                    != 0 ==> (#[trigger] grid@[j2]).value != grid@[i2].value,
        decreases 81 - i,
    {
        let ci = grid.cell_at((i / 9, i % 9));
        proof {
            assert(idx_of((i / 9, i % 9)) == i as int);
        }
        if ci.value != 0 {
            let mut j: usize = 0;
            while j < 81
                invariant
                    grid.wf(),
                    i < 81,
                    j <= 81,
                    ci == grid@[i as int],
                    ci.value != 0,
                    forall|j2: int|
                        0 <= j2 < j && same_unit(i as int, j2) ==> (#[trigger] grid@[j2]).value
                            != ci.value,
                decreases 81 - j,
            {
                if cells_share_unit(i, j) {
                    let cj = grid.cell_at((j / 9, j % 9));
                    proof {
                        assert(idx_of((j / 9, j % 9)) == j as int);
                    }
                    if cj.value == ci.value {
                        return false;
                    }
                }
                j = j + 1;
            }
        } else {
            proof {
                assert forall|j2: int|
                    0 <= j2 < 81 && same_unit(i as int, j2) && grid@[i as int].value != 0 implies (
                #[trigger] grid@[j2]).value != grid@[i as int].value by {}
            }
        }
        i = i + 1;
    }
    true
}

} // verus!
