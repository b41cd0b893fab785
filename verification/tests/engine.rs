use sudoku::bitset;
use sudoku::board::{Grid, GridError, NoteMode};
use sudoku::codec::{from_byte_string, to_byte_string};
use sudoku::constraint::{is_consistent, peers, used_values};
use sudoku::solver::solve;
use sudoku::technique::{
    find_naked_pair, find_naked_single, find_pointing_pair, next_move, Technique,
};

const EASY: &str =
    "53..7....6..195....98....6.8...6...34..8.3..17...2...6.6....28....419..5....8..79";
const EASY_SOLVED: &str =
    "534678912672195348198342567859761423426853791713924856961537284287419635345286179";

fn grid_of(s: &str) -> Grid {
    from_byte_string(s).expect("test string must parse")
}

#[test]
fn round_trip_parsed_grid() {
    let g = grid_of(EASY);
    let s = to_byte_string(&g);
    assert_eq!(s, EASY);
    let g2 = from_byte_string(&s).unwrap();
    assert_eq!(to_byte_string(&g2), EASY);
}

#[test]
fn round_trip_full_grid() {
    let g = grid_of(EASY_SOLVED);
    assert_eq!(to_byte_string(&g), EASY_SOLVED);
}

#[test]
fn parse_accepts_zero_for_empty() {
    let zeros: String = EASY.replace('.', "0");
    let g = from_byte_string(&zeros).unwrap();
    assert_eq!(to_byte_string(&g), EASY);
}

#[test]
fn parse_rejects_wrong_length() {
    assert_eq!(from_byte_string("53..7").unwrap_err(), GridError::MalformedInput);
    let long: String = format!("{}9", EASY);
    assert_eq!(from_byte_string(&long).unwrap_err(), GridError::MalformedInput);
}

#[test]
fn parse_rejects_truncated_string() {
    let truncated = &EASY[..79];
    assert_eq!(from_byte_string(truncated).unwrap_err(), GridError::MalformedInput);
}

#[test]
fn parse_rejects_bad_symbol() {
    let bad: String = format!("x{}", &EASY[1..]);
    assert_eq!(from_byte_string(&bad).unwrap_err(), GridError::MalformedInput);
}

#[test]
fn full_consistent_grid_is_its_own_unique_completion() {
    let g = grid_of(EASY_SOLVED);
    assert!(is_consistent(&g));
    let r = g.force_solutions();
    assert_eq!(r.count, 1);
    assert_eq!(r.num_solutions(), 1);
    let w = r.witness.expect("a witness is owed");
    assert_eq!(to_byte_string(&w), EASY_SOLVED);
}

#[test]
fn row_conflict_is_inconsistent_and_unsolvable() {
    // Two 5s committed in row 0.
    let mut s: Vec<u8> = vec![b'.'; 81];
    s[0] = b'5';
    s[3] = b'5';
    let txt = String::from_utf8(s).unwrap();
    let g = from_byte_string(&txt).unwrap();
    assert!(!is_consistent(&g));
    let r = g.force_solutions();
    assert_eq!(r.count, 0);
    assert!(r.witness.is_none());
}

#[test]
fn canonical_easy_puzzle_has_unique_consistent_witness() {
    let g = grid_of(EASY);
    let r = g.force_solutions();
    assert_eq!(r.count, 1);
    let w = r.witness.expect("unique puzzle has a witness");
    let ws = to_byte_string(&w);
    assert!(!ws.contains('.'));
    assert!(is_consistent(&w));
    assert_eq!(ws, EASY_SOLVED);
}

#[test]
fn count_until_stops_at_limit() {
    let g = Grid::new();
    let r = g.count_until(2);
    assert_eq!(r.count, 2);
    assert!(r.witness.is_some());
}

#[test]
fn solve_is_idempotent_on_solved_grid() {
    let g = grid_of(EASY_SOLVED);
    let sol = solve(&g, 10_000).expect("already solved");
    assert_eq!(sol.moves.len(), 0);
    assert_eq!(sol.points, 0);
    assert_eq!(to_byte_string(&sol.solved_board), EASY_SOLVED);
}

#[test]
fn solve_zero_budget_leaves_grid_unchanged() {
    let g = grid_of(EASY);
    let err = solve(&g, 0).expect_err("zero budget must time out");
    assert_eq!(to_byte_string(&err), EASY);
}

#[test]
fn solve_easy_puzzle_with_techniques() {
    let g = grid_of(EASY);
    match solve(&g, 10_000) {
        Ok(sol) => {
            assert_eq!(to_byte_string(&sol.solved_board), EASY_SOLVED);
            assert!(!sol.moves.is_empty());
            let total: u64 = sol.moves.iter().map(|m| m.technique.points()).sum();
            assert_eq!(sol.points, total);
            assert!(sol.points > 0);
        }
        Err(partial) => {
            // Deduction may stop short, but never regresses a committed value.
            let before = to_byte_string(&g);
            let after = to_byte_string(&partial);
            for (b, a) in before.chars().zip(after.chars()) {
                if b != '.' {
                    assert_eq!(b, a);
                }
            }
            panic!("the canonical easy puzzle should fall to singles");
        }
    }
}

#[test]
fn solver_is_stuck_on_empty_grid() {
    let g = Grid::new();
    let err = solve(&g, 10_000).expect_err("nothing to deduce on an empty grid");
    assert_eq!(to_byte_string(&err), ".".repeat(81));
}

#[test]
fn naked_single_is_found_and_ordered_first() {
    // Row 0 holds 1..=8; the ninth cell has exactly one possible value.
    let mut g = grid_of("12345678.........................................................................");
    g.auto_note();
    let m = find_naked_single(&g).expect("a naked single exists");
    assert_eq!(m.technique, Technique::NakedSingle);
    assert_eq!(m.commit, Some((0, 8, 9)));
    assert!(m.eliminations.is_empty());
    // The pass must answer with the naked single, nothing costlier.
    let m2 = next_move(&g).expect("a move exists");
    assert_eq!(m2.technique, Technique::NakedSingle);
    assert_eq!(m2.commit, Some((0, 8, 9)));
}

#[test]
fn hidden_single_is_found() {
    // 9s placed so that within box 0 the value 9 fits only at (0, 0).
    let mut g = Grid::new();
    g.commit((1, 4), 9).unwrap();
    g.commit((2, 7), 9).unwrap();
    g.commit((4, 1), 9).unwrap();
    g.commit((5, 2), 9).unwrap();
    g.auto_note();
    assert!(find_naked_single(&g).is_none());
    let m = next_move(&g).expect("a hidden single exists");
    assert_eq!(m.technique, Technique::HiddenSingle);
    assert_eq!(m.commit, Some((0, 0, 9)));
}

#[test]
fn pointing_pair_eliminates_along_the_row() {
    // Rows 1 and 2 of box 0 are filled, so the 1s of box 0 sit in row 0
    // alone; the rest of row 0 still allows 1 everywhere.
    let mut g = Grid::new();
    g.commit((1, 0), 2).unwrap();
    g.commit((1, 1), 3).unwrap();
    g.commit((1, 2), 4).unwrap();
    g.commit((2, 0), 5).unwrap();
    g.commit((2, 1), 6).unwrap();
    g.commit((2, 2), 7).unwrap();
    g.auto_note();
    let m = find_pointing_pair(&g).expect("a pointing pair exists");
    assert_eq!(m.technique, Technique::PointingPair);
    assert_eq!(m.commit, None);
    assert_eq!(
        m.eliminations,
        vec![(0, 3, 1), (0, 4, 1), (0, 5, 1), (0, 6, 1), (0, 7, 1), (0, 8, 1)]
    );
}

#[test]
fn naked_pair_eliminates_in_the_group() {
    // Row 0: 1..=6 committed, 7 ruled out of columns 6 and 7; the cells
    // (0,6) and (0,7) share the pair {8, 9}.
    let mut g = Grid::new();
    for (c, v) in (0..6).zip(1..7) {
        g.commit((0, c), v).unwrap();
    }
    g.commit((5, 6), 7).unwrap();
    g.commit((6, 7), 7).unwrap();
    g.auto_note();
    let m = find_naked_pair(&g).expect("a naked pair exists");
    assert_eq!(m.technique, Technique::NakedPair);
    assert_eq!(m.commit, None);
    assert_eq!(m.eliminations, vec![(0, 8, 8), (0, 8, 9)]);
}

#[test]
fn deny_committed_value_is_invalid_and_preserves_serialization() {
    let mut g = grid_of(EASY);
    let before = to_byte_string(&g);
    // (0, 0) holds the committed value 5.
    assert_eq!(g.mark_denied((0, 0), 5).unwrap_err(), GridError::InvalidMove);
    assert_eq!(to_byte_string(&g), before);
}

#[test]
fn deny_then_recompute_excludes_value() {
    let mut g = Grid::new();
    g.mark_denied((4, 4), 7).unwrap();
    g.recompute_possibles((4, 4)).unwrap();
    let c = g.cell_at((4, 4));
    assert!(!bitset::contains(c.possible, 7));
    assert!(bitset::contains(c.possible, 6));
    g.clear_denied((4, 4)).unwrap();
    g.recompute_possibles((4, 4)).unwrap();
    let c = g.cell_at((4, 4));
    assert!(bitset::contains(c.possible, 7));
}

#[test]
fn commit_out_of_range_is_rejected() {
    let mut g = Grid::new();
    assert_eq!(g.commit((9, 0), 5).unwrap_err(), GridError::OutOfRange);
    assert_eq!(g.commit((0, 9), 5).unwrap_err(), GridError::OutOfRange);
    assert_eq!(g.commit((0, 0), 0).unwrap_err(), GridError::OutOfRange);
    assert_eq!(g.commit((0, 0), 10).unwrap_err(), GridError::OutOfRange);
    assert_eq!(g.mark_denied((0, 0), 10).unwrap_err(), GridError::OutOfRange);
    assert_eq!(g.retract((9, 9)).unwrap_err(), GridError::OutOfRange);
    assert_eq!(g.recompute_possibles((9, 0)).unwrap_err(), GridError::OutOfRange);
}

#[test]
fn commit_propagates_to_peers() {
    let mut g = Grid::new();
    g.auto_note();
    g.commit((0, 0), 5).unwrap();
    // Peers lose 5 from their possible sets; strangers keep it.
    assert!(!bitset::contains(g.cell_at((0, 8)).possible, 5)); // same row
    assert!(!bitset::contains(g.cell_at((8, 0)).possible, 5)); // same column
    assert!(!bitset::contains(g.cell_at((2, 2)).possible, 5)); // same box
    assert!(bitset::contains(g.cell_at((3, 3)).possible, 5));
    // The committed cell's own candidate sets are cleared.
    let c = g.cell_at((0, 0));
    assert_eq!(c.value, 5);
    assert_eq!(c.possible, 0);
    assert_eq!(c.denied, 0);
}

#[test]
fn retract_does_not_restore_candidates() {
    let mut g = Grid::new();
    g.auto_note();
    g.commit((0, 0), 5).unwrap();
    g.retract((0, 0)).unwrap();
    assert_eq!(g.cell_at((0, 0)).value, 0);
    // The eager retraction at the peers stands until recomputed.
    assert!(!bitset::contains(g.cell_at((0, 8)).possible, 5));
    g.recompute_possibles((0, 8)).unwrap();
    assert!(bitset::contains(g.cell_at((0, 8)).possible, 5));
}

#[test]
fn set_dispatches_on_note_mode() {
    let mut g = Grid::new();
    g.set((2, 3), &NoteMode::Value, 4).unwrap();
    assert_eq!(g.cell_at((2, 3)).value, 4);
    g.set((4, 5), &NoteMode::Maybe, 6).unwrap();
    assert!(bitset::contains(g.cell_at((4, 5)).possible, 6));
    g.set((5, 6), &NoteMode::Deny, 7).unwrap();
    assert!(bitset::contains(g.cell_at((5, 6)).denied, 7));
    g.reset((2, 3)).unwrap();
    assert_eq!(g.cell_at((2, 3)).value, 0);
}

#[test]
fn clear_notes_drops_all_candidates() {
    let mut g = grid_of(EASY);
    g.auto_note();
    assert_ne!(g.cell_at((0, 2)).possible, 0);
    g.mark_denied((0, 2), 1).unwrap();
    g.clear_notes();
    let c = g.cell_at((0, 2));
    assert_eq!(c.possible, 0);
    assert_eq!(c.denied, 0);
    assert_eq!(to_byte_string(&g), EASY);
}

#[test]
fn peers_are_exactly_twenty() {
    let v = peers((4, 4)).unwrap();
    assert_eq!(v.len(), 20);
    assert!(v.contains(&(4, 0)));
    assert!(v.contains(&(0, 4)));
    assert!(v.contains(&(3, 3)));
    assert!(!v.contains(&(4, 4)));
    assert!(!v.contains(&(0, 0)));
    let corner = peers((0, 0)).unwrap();
    assert_eq!(corner.len(), 20);
    assert_eq!(peers((9, 0)).unwrap_err(), GridError::OutOfRange);
}

#[test]
fn used_values_reports_group_contents() {
    let g = grid_of(EASY);
    // Row 0 of the canonical puzzle commits 5, 3 and 7.
    let s = used_values(&g, 0).unwrap();
    assert!(bitset::contains(s, 5));
    assert!(bitset::contains(s, 3));
    assert!(bitset::contains(s, 7));
    assert!(!bitset::contains(s, 1));
    assert_eq!(used_values(&g, 27).unwrap_err(), GridError::OutOfRange);
}

#[test]
fn technique_points_codes_and_labels() {
    assert_eq!(Technique::NakedSingle.points(), 10);
    assert_eq!(Technique::HiddenSingle.points(), 15);
    assert_eq!(Technique::PointingPair.points(), 30);
    assert_eq!(Technique::NakedPair.points(), 40);
    assert_eq!(Technique::NakedSingle.code(), "ns");
    assert_eq!(Technique::NakedPair.label(), "naked pair");
}

#[test]
fn recompute_possibles_is_idempotent() {
    let mut g = grid_of(EASY);
    g.recompute_possibles((0, 2)).unwrap();
    let once = g.cell_at((0, 2));
    g.recompute_possibles((0, 2)).unwrap();
    let twice = g.cell_at((0, 2));
    assert_eq!(once, twice);
    assert!(!bitset::contains(once.possible, 5)); // 5 sits in the same row
    assert!(bitset::contains(once.possible, 1));
}

#[test]
fn count_until_one_collects_first_witness() {
    let g = grid_of(EASY);
    let r = g.count_until(1);
    assert_eq!(r.count, 1);
    let w = r.solution().as_ref().expect("a witness is owed");
    assert_eq!(to_byte_string(w), EASY_SOLVED);
}

#[test]
fn denied_value_can_make_a_grid_unsolvable() {
    // Row 0 holds 1..=8; its last cell can only take 9, but 9 is denied
    // there, so the search rightly finds no completion.
    let mut g = from_byte_string(
        "12345678.........................................................................",
    )
    .unwrap();
    g.mark_denied((0, 8), 9).unwrap();
    let r = g.force_solutions();
    assert!(is_consistent(&g));
    assert_eq!(r.count, 0);
    assert!(r.witness.is_none());
}

#[test]
fn collect_first_returns_a_completion() {
    let g = grid_of(EASY);
    let w = g.collect_first().expect("the puzzle is solvable");
    assert_eq!(to_byte_string(&w), EASY_SOLVED);
    let mut bad = Grid::new();
    bad.commit((0, 0), 5).unwrap();
    bad.commit((0, 3), 5).unwrap();
    assert!(bad.collect_first().is_none());
}

#[test]
fn new_grid_serializes_to_dots() {
    let g = Grid::new();
    assert_eq!(to_byte_string(&g), ".".repeat(81));
    assert!(is_consistent(&g));
}
