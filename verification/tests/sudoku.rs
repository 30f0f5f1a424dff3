use sudoku_gen::digger::generate_puzzle;
use sudoku_gen::generator::{base_pattern_board, generate_complete_board, shift_cols, shift_rows};
use sudoku_gen::grid::Grid;
use sudoku_gen::render::render_board;
use sudoku_gen::rng::{RandomSource, SeededSource, ThreadSource};
use sudoku_gen::solver::{
    board_possible, find_box_increments, find_empty_tiles, find_forced_moves, find_full_tiles,
    find_possibilities_for_position, make_move, make_moves,
};
use sudoku_gen::validator::board_correct;

fn pattern_digit(r: usize, c: usize) -> u8 {
    ((3 * r + c + r / 3) % 9 + 1) as u8
}

fn rows_of(g: &Grid) -> Vec<Vec<u8>> {
    let mut rows = Vec::new();
    for r in 0..9 {
        let mut row = Vec::new();
        for c in 0..9 {
            row.push(g.get(r, c));
        }
        rows.push(row);
    }
    rows
}

fn cols_of(g: &Grid) -> Vec<Vec<u8>> {
    let mut cols = Vec::new();
    for c in 0..9 {
        let mut col = Vec::new();
        for r in 0..9 {
            col.push(g.get(r, c));
        }
        cols.push(col);
    }
    cols
}

#[test]
fn base_pattern_matches_formula() {
    let g = base_pattern_board();
    for r in 0..9 {
        for c in 0..9 {
            assert_eq!(g.get(r, c), pattern_digit(r, c));
        }
    }
    assert!(board_correct(&g));
}

#[test]
fn generated_board_complete_and_valid() {
    let mut rng = SeededSource::from_seed(7);
    let g = generate_complete_board(&mut rng);
    assert!(board_correct(&g));
    for r in 0..9 {
        for c in 0..9 {
            assert!(g.get(r, c) >= 1 && g.get(r, c) <= 9);
        }
    }
}

#[test]
fn generated_board_complete_with_thread_source() {
    let mut rng = ThreadSource::new();
    let g = generate_complete_board(&mut rng);
    assert!(board_correct(&g));
    for r in 0..9 {
        for c in 0..9 {
            assert!(g.get(r, c) != 0);
        }
    }
}

#[test]
fn shift_rows_stays_in_band() {
    let p = base_pattern_board();
    for seed in 0..20u64 {
        let mut rng = SeededSource::from_seed(seed);
        let mut g = p.duplicate();
        shift_rows(&mut g, &mut rng);
        let old_rows = rows_of(&p);
        let new_rows = rows_of(&g);
        let diff: Vec<usize> = (0..9).filter(|&r| old_rows[r] != new_rows[r]).collect();
        assert_eq!(diff.len(), 2);
        let (r1, r2) = (diff[0], diff[1]);
        assert_eq!(r1 / 3, r2 / 3);
        assert!(r2 - r1 <= 2);
        assert_eq!(new_rows[r1], old_rows[r2]);
        assert_eq!(new_rows[r2], old_rows[r1]);
    }
}

#[test]
fn shift_cols_stays_in_band() {
    let p = base_pattern_board();
    for seed in 0..20u64 {
        let mut rng = SeededSource::from_seed(seed);
        let mut g = p.duplicate();
        shift_cols(&mut g, &mut rng);
        let old_cols = cols_of(&p);
        let new_cols = cols_of(&g);
        let diff: Vec<usize> = (0..9).filter(|&c| old_cols[c] != new_cols[c]).collect();
        assert_eq!(diff.len(), 2);
        let (c1, c2) = (diff[0], diff[1]);
        assert_eq!(c1 / 3, c2 / 3);
        assert!(c2 - c1 <= 2);
        assert_eq!(new_cols[c1], old_cols[c2]);
        assert_eq!(new_cols[c2], old_cols[c1]);
    }
}

#[test]
fn single_empty_cell_forces_missing_digit() {
    let mut g = base_pattern_board();
    let v = g.get(4, 4);
    g.set(4, 4, 0);
    let moves = find_forced_moves(&g);
    assert_eq!(moves, vec![(4u8, 4u8, v)]);
}

#[test]
fn candidates_of_single_hole() {
    let mut g = base_pattern_board();
    let v = g.get(4, 4);
    g.set(4, 4, 0);
    let poss = find_possibilities_for_position(&g, 4, 4);
    assert_eq!(poss, vec![v]);
}

#[test]
fn candidates_on_empty_board() {
    let g = Grid::new();
    let poss = find_possibilities_for_position(&g, 3, 7);
    assert_eq!(poss, vec![1, 2, 3, 4, 5, 6, 7, 8, 9]);
    assert!(find_forced_moves(&g).is_empty());
    assert!(board_possible(&g));
}

#[test]
fn validator_rejects_row_duplicate() {
    let mut g = Grid::new();
    g.set(0, 0, 5);
    g.set(0, 8, 5);
    assert!(!board_correct(&g));
}

#[test]
fn validator_rejects_col_duplicate() {
    let mut g = Grid::new();
    g.set(0, 3, 7);
    g.set(8, 3, 7);
    assert!(!board_correct(&g));
}

#[test]
fn validator_rejects_box_duplicate() {
    let mut g = Grid::new();
    g.set(0, 0, 9);
    g.set(1, 1, 9);
    assert!(!board_correct(&g));
}

#[test]
fn validator_ignores_empty_cells() {
    let g = Grid::new();
    assert!(board_correct(&g));
    let mut h = Grid::new();
    h.set(2, 2, 4);
    assert!(board_correct(&h));
}

#[test]
fn make_moves_fills_single_hole() {
    let mut g = base_pattern_board();
    let v = g.get(4, 4);
    g.set(4, 4, 0);
    assert!(make_moves(&mut g));
    assert_eq!(g.get(4, 4), v);
    assert!(!make_moves(&mut g));
}

#[test]
fn make_move_fills_single_hole() {
    let mut g = base_pattern_board();
    let v = g.get(2, 7);
    g.set(2, 7, 0);
    let mut rng = SeededSource::from_seed(11);
    assert!(make_move(&mut g, &mut rng));
    assert_eq!(g.get(2, 7), v);
    assert!(!make_move(&mut g, &mut rng));
}

#[test]
fn oracle_is_stable_and_pure() {
    let mut g = base_pattern_board();
    g.set(0, 0, 0);
    g.set(1, 3, 0);
    g.set(8, 8, 0);
    let h = g.duplicate();
    let b1 = board_possible(&g);
    let b2 = board_possible(&g);
    assert_eq!(b1, b2);
    assert!(g.eq_grid(&h));
}

#[test]
fn digging_with_goal_already_met_removes_nothing() {
    let mut g = base_pattern_board();
    let h = g.duplicate();
    let mut rng = SeededSource::from_seed(5);
    let n = generate_puzzle(&mut g, 81, &mut rng);
    assert_eq!(n, 81);
    assert!(g.eq_grid(&h));
}

#[test]
fn digging_to_zero_terminates() {
    let mut g = base_pattern_board();
    let h = g.duplicate();
    let mut rng = SeededSource::from_seed(9);
    let n = generate_puzzle(&mut g, 0, &mut rng);
    assert!(n <= 81);
    let mut filled = 0u8;
    for r in 0..9 {
        for c in 0..9 {
            let v = g.get(r, c);
            assert!(v == 0 || v == h.get(r, c));
            if v != 0 {
                filled += 1;
            }
        }
    }
    assert_eq!(filled, n);
    assert!(board_possible(&g));
    assert!(board_correct(&g));
}

#[test]
fn digging_base_pattern_to_thirty() {
    let mut g = base_pattern_board();
    let h = g.duplicate();
    let mut rng = SeededSource::from_seed(123);
    let n = generate_puzzle(&mut g, 30, &mut rng);
    assert!(n >= 30 && n <= 81);
    for r in 0..9 {
        for c in 0..9 {
            let v = g.get(r, c);
            assert!(v == 0 || v == h.get(r, c));
        }
    }
    assert!(board_correct(&g));
    assert!(board_possible(&g));
}

#[test]
fn digging_random_board_keeps_oracle_happy() {
    let mut rng = SeededSource::from_seed(77);
    let mut g = generate_complete_board(&mut rng);
    let h = g.duplicate();
    let n = generate_puzzle(&mut g, 40, &mut rng);
    assert!(n >= 40 && n <= 81);
    for r in 0..9 {
        for c in 0..9 {
            let v = g.get(r, c);
            assert!(v == 0 || v == h.get(r, c));
        }
    }
    assert!(board_correct(&g));
}

#[test]
fn render_layout_matches_convention() {
    let g = base_pattern_board();
    let out = render_board(&g);
    let mut expected: Vec<u8> = Vec::new();
    for r in 0..9 {
        for c in 0..9 {
            expected.push(b'0' + g.get(r, c));
            if c == 2 || c == 5 {
                expected.push(b' ');
            }
        }
        expected.push(b'\n');
        if r == 2 || r == 5 {
            expected.push(b'\n');
        }
    }
    expected.push(b'\n');
    assert_eq!(out, expected);
}

#[test]
fn tile_finders_report_coordinates_in_order() {
    let mut g = base_pattern_board();
    g.set(0, 0, 0);
    g.set(8, 8, 0);
    let empty = find_empty_tiles(&g);
    assert_eq!(empty, vec![(0, 0), (8, 8)]);
    let full = find_full_tiles(&g);
    assert_eq!(full.len(), 79);
    assert_eq!(full[0], (0, 1));
    assert_eq!(full[78], (8, 7));
}

#[test]
fn box_increments_enumerate_the_other_eight() {
    let mid = find_box_increments(4, 4);
    assert_eq!(
        mid,
        vec![(3, 3), (3, 4), (3, 5), (4, 3), (4, 5), (5, 3), (5, 4), (5, 5)]
    );
    let corner = find_box_increments(0, 0);
    assert_eq!(
        corner,
        vec![(0, 1), (0, 2), (1, 0), (1, 1), (1, 2), (2, 0), (2, 1), (2, 2)]
    );
}

#[test]
fn seeded_source_is_deterministic() {
    let mut a = SeededSource::from_seed(42);
    let mut b = SeededSource::from_seed(42);
    for bound in 1..30usize {
        let x = a.next_below(bound);
        let y = b.next_below(bound);
        assert_eq!(x, y);
        assert!(x < bound);
    }
}

#[test]
fn thread_source_stays_below_bound() {
    let mut s = ThreadSource::new();
    for bound in 1..50usize {
        assert!(s.next_below(bound) < bound);
    }
}

#[test]
fn seeded_runs_reproduce() {
    let mut a = SeededSource::from_seed(99);
    let mut b = SeededSource::from_seed(99);
    let ga = generate_complete_board(&mut a);
    let gb = generate_complete_board(&mut b);
    assert!(ga.eq_grid(&gb));
    let mut pa = ga.duplicate();
    let mut pb = gb.duplicate();
    let na = generate_puzzle(&mut pa, 40, &mut a);
    let nb = generate_puzzle(&mut pb, 40, &mut b);
    assert_eq!(na, nb);
    assert!(pa.eq_grid(&pb));
}

#[test]
fn digging_below_full_always_removes_something() {
    for seed in 0..5u64 {
        let mut rng = SeededSource::from_seed(seed);
        let mut g = generate_complete_board(&mut rng);
        let n = generate_puzzle(&mut g, 80, &mut rng);
        assert_eq!(n, 80);
    }
}
