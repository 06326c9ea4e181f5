use lights_out::{
    board_from_records, find_all_move_entropies, flip_switch, rank_from_draw, minimize_board_entropy, rank_moves,
    sample_low_entropy_move, sample_rank, select_move, Grid, GridError, Move, ScoredMove,
    SearchState,
};
use rand::rngs::StdRng;
use rand::SeedableRng;
use rand_distr::Geometric;

fn grid(rows: &[&[u8]]) -> Grid {
    let rows: Vec<Vec<bool>> = rows.iter().map(|r| r.iter().map(|&v| v == 1).collect()).collect();
    Grid::from_rows(&rows).unwrap()
}

fn example() -> Grid {
    grid(&[&[0, 0, 1, 1], &[1, 1, 0, 1], &[0, 1, 1, 0], &[0, 0, 0, 1]])
}

fn rank_distribution() -> Geometric {
    Geometric::new(0.7).unwrap()
}

fn replay(start: &Grid, moves: &[Move]) -> Grid {
    let mut g = start.clone();
    for m in moves {
        g = flip_switch(&g, m.row, m.col);
    }
    g
}

fn entropy(g: &Grid) -> f64 {
    let p = g.true_count() as f64 / (g.size() * g.size()) as f64;
    let term = |x: f64| if x == 0.0 { 0.0 } else { -x * x.log2() };
    term(p) + term(1.0 - p)
}

#[test]
fn from_rows_keeps_cells_in_row_major_order() {
    let g = grid(&[&[1, 0], &[0, 0]]);
    assert_eq!(g.size(), 2);
    assert_eq!(g.cells, vec![true, false, false, false]);
    assert!(g.get(0, 0));
    assert!(!g.get(1, 1));
}

#[test]
fn from_rows_rejects_empty_and_ragged_grids() {
    assert_eq!(Grid::from_rows(&vec![]).unwrap_err(), GridError::InvalidInput);
    let ragged = vec![vec![true, false], vec![true]];
    assert_eq!(Grid::from_rows(&ragged).unwrap_err(), GridError::InvalidInput);
    let wide = vec![vec![true, false, true], vec![true, false, true]];
    assert_eq!(Grid::from_rows(&wide).unwrap_err(), GridError::InvalidInput);
}

#[test]
fn flip_inverts_row_and_column_once() {
    let g = grid(&[&[0, 0, 0], &[0, 0, 0], &[0, 0, 0]]);
    let f = flip_switch(&g, 1, 2);
    let expected = grid(&[&[0, 0, 1], &[1, 1, 1], &[0, 0, 1]]);
    assert_eq!(f.cells, expected.cells);
    assert_eq!(g.cells, vec![false; 9]);
}

#[test]
fn flip_twice_restores_the_grid() {
    let g = example();
    for r in 0..4 {
        for c in 0..4 {
            let back = flip_switch(&flip_switch(&g, r, c), r, c);
            assert_eq!(back.cells, g.cells);
        }
    }
}

#[test]
fn complement_has_the_same_entropy() {
    let g = example();
    let rows: Vec<Vec<bool>> =
        (0..4).map(|r| (0..4).map(|c| !g.get(r, c)).collect()).collect();
    let comp = Grid::from_rows(&rows).unwrap();
    assert_eq!(g.true_count(), 8);
    assert_eq!(comp.true_count(), 8);
    assert_eq!(g.minority_count(), comp.minority_count());
    assert_eq!(entropy(&g), entropy(&comp));
}

#[test]
fn entropy_extremes() {
    let off = grid(&[&[0, 0], &[0, 0]]);
    let on = grid(&[&[1, 1], &[1, 1]]);
    let half = grid(&[&[1, 0], &[0, 1]]);
    let one = grid(&[&[1, 0], &[0, 0]]);
    assert_eq!(off.minority_count(), 0);
    assert_eq!(on.minority_count(), 0);
    assert_eq!(entropy(&off), 0.0);
    assert_eq!(entropy(&on), 0.0);
    assert_eq!(half.minority_count(), 2);
    assert_eq!(entropy(&half), 1.0);
    assert_eq!(one.minority_count(), 1);
    assert!(entropy(&one) > 0.0 && entropy(&one) < 1.0);
    assert_eq!(entropy(&example()), 1.0);
    let nine_on = grid(&[&[1, 0, 1, 1], &[1, 1, 0, 1], &[0, 1, 1, 0], &[0, 0, 0, 1]]);
    assert_eq!(nine_on.minority_count(), 7);
    assert!((entropy(&nine_on) - 0.98869).abs() < 1e-4);
}

#[test]
fn every_switch_is_scored_once() {
    let g = example();
    let scored = find_all_move_entropies(&g);
    assert_eq!(scored.len(), 16);
    for r in 0..4 {
        for c in 0..4 {
            let hits = scored.iter().filter(|m| m.row == r && m.col == c).count();
            assert_eq!(hits, 1);
            let m = scored[r * 4 + c];
            assert_eq!(m.score, flip_switch(&g, r, c).minority_count());
        }
    }
}

#[test]
fn move_scores_are_minority_counts() {
    let g = grid(&[&[0, 0], &[0, 0]]);
    let scored = find_all_move_entropies(&g);
    // Each flip of a 2 by 2 grid turns on three cells, leaving one off.
    for m in &scored {
        assert_eq!(m.score, 1);
    }
    assert_eq!((scored[2].row, scored[2].col), (1, 0));
}

#[test]
fn ranking_is_a_stable_sort_by_score() {
    let s = |score: usize| ScoredMove { row: 0, col: 0, score };
    let scored = vec![s(3), s(1), s(2), s(1), s(0), s(3)];
    assert_eq!(rank_moves(&scored), vec![4, 1, 3, 2, 0, 5]);
    assert_eq!(rank_moves(&vec![]), Vec::<usize>::new());
}

#[test]
fn select_takes_the_rank_of_the_draw() {
    let g = grid(&[&[1, 0, 0], &[0, 0, 0], &[0, 0, 0]]);
    let scored = find_all_move_entropies(&g);
    let order = rank_moves(&scored);
    let best = select_move(&g, 0);
    assert_eq!(best, scored[order[0]]);
    assert!(scored.iter().all(|m| m.score >= best.score));
    assert_eq!(select_move(&g, 9), best);
    assert_eq!(select_move(&g, 4), scored[order[4]]);
    assert_eq!(select_move(&g, 13), scored[order[4]]);
}

#[test]
fn sampling_is_reproducible_with_a_seed() {
    let g = example();
    let dist = rank_distribution();
    let mut a = StdRng::seed_from_u64(42);
    let mut b = StdRng::seed_from_u64(42);
    for _ in 0..50 {
        assert_eq!(
            sample_low_entropy_move(&g, &dist, &mut a),
            sample_low_entropy_move(&g, &dist, &mut b)
        );
    }
    let mut a = StdRng::seed_from_u64(9);
    let mut b = StdRng::seed_from_u64(9);
    let ra = minimize_board_entropy(&g, 200, &dist, &mut a);
    let rb = minimize_board_entropy(&g, 200, &dist, &mut b);
    assert_eq!(ra.moves, rb.moves);
    assert_eq!(ra.grid.cells, rb.grid.cells);
}

#[test]
fn ranks_decay_geometrically() {
    let dist = rank_distribution();
    let mut rng = StdRng::seed_from_u64(2024);
    let draws = 100_000;
    let mut counts = [0usize; 4];
    for _ in 0..draws {
        let n = sample_rank(&dist, &mut rng, 1000);
        assert!(n < 1000);
        if n < 4 {
            counts[n] += 1;
        }
    }
    let freq = |k: usize| counts[k] as f64 / draws as f64;
    assert!((freq(0) - 0.7).abs() < 0.01);
    assert!((freq(1) - 0.21).abs() < 0.01);
    assert!((freq(2) - 0.063).abs() < 0.005);
    assert!((freq(3) - 0.0189).abs() < 0.003);
}

#[test]
fn rank_from_draw_wraps_around_the_candidates() {
    assert_eq!(rank_from_draw(0, 16), 0);
    assert_eq!(rank_from_draw(5, 16), 5);
    assert_eq!(rank_from_draw(16, 16), 0);
    assert_eq!(rank_from_draw(37, 16), 5);
    assert_eq!(rank_from_draw(u64::MAX, 10), 5);
    assert_eq!(rank_from_draw(123, 1), 0);
}

#[test]
fn sample_rank_stays_in_range() {
    let dist = rank_distribution();
    let mut rng = StdRng::seed_from_u64(5);
    for _ in 0..1000 {
        assert_eq!(sample_rank(&dist, &mut rng, 1), 0);
        assert!(sample_rank(&dist, &mut rng, 3) < 3);
    }
}

#[test]
fn search_step_records_only_strict_improvements() {
    let g = grid(&[&[0, 0], &[0, 0]]);
    let mut st = SearchState::new(&g);
    assert_eq!(st.best_key, 4);
    assert!(st.moves.is_empty());
    // From all off, every flip turns three of four cells on: a new record.
    st.search_step(0);
    assert_eq!(st.moves, vec![Move { row: 0, col: 0 }]);
    assert_eq!(st.best_moves, st.moves);
    assert_eq!(st.best_key, 2);
    assert_eq!(st.current.cells, vec![true, true, true, false]);
    // Ranks: (0, 0) clears the grid; the three others leave two cells on.
    // Draw 3 takes the last of those, which is worse than the record.
    st.search_step(3);
    assert_eq!(st.moves, vec![Move { row: 0, col: 0 }, Move { row: 1, col: 1 }]);
    assert_eq!(st.current.cells, vec![true, false, false, true]);
    assert_eq!(st.best_moves, vec![Move { row: 0, col: 0 }]);
    assert_eq!(st.best_key, 2);
    let r = st.into_result();
    assert_eq!(r.grid.cells, vec![true, true, true, false]);
    assert_eq!(r.moves, vec![Move { row: 0, col: 0 }]);
}

#[test]
fn search_result_replays_and_never_loses_ground() {
    let g = example();
    let dist = rank_distribution();
    let mut rng = StdRng::seed_from_u64(1);
    let r = minimize_board_entropy(&g, 1000, &dist, &mut rng);
    assert_eq!(r.grid.size(), 4);
    assert_eq!(replay(&g, &r.moves).cells, r.grid.cells);
    assert!(r.grid.minority_count() <= g.minority_count());
    assert!(entropy(&r.grid) <= entropy(&g));
}

#[test]
fn long_search_on_the_example_terminates() {
    let g = example();
    let dist = rank_distribution();
    let mut rng = StdRng::seed_from_u64(7);
    let r = minimize_board_entropy(&g, 100_000, &dist, &mut rng);
    assert_eq!(r.grid.size(), 4);
    assert_eq!(r.grid.cells.len(), 16);
    assert!(entropy(&r.grid) <= entropy(&g));
    // Eight switches are on: the first flip leaves an odd number on, so a
    // grid below entropy one is always recorded.
    assert!(!r.moves.is_empty());
    assert!(r.grid.minority_count() <= 7);
    assert!(entropy(&r.grid) <= 0.98870);
    assert_eq!(replay(&g, &r.moves).cells, r.grid.cells);
}

#[test]
fn zero_steps_returns_the_start() {
    let g = example();
    let dist = rank_distribution();
    let mut rng = StdRng::seed_from_u64(3);
    let r = minimize_board_entropy(&g, 0, &dist, &mut rng);
    assert!(r.moves.is_empty());
    assert_eq!(r.grid.cells, g.cells);
    assert_eq!(entropy(&r.grid), entropy(&g));
}

#[test]
fn records_parse_into_a_grid() {
    let rec = |row: &[&str]| row.iter().map(|s| s.to_string()).collect::<Vec<String>>();
    let records = vec![rec(&["1", "0"]), rec(&["0", "1"])];
    let g = board_from_records(&records, 2).unwrap();
    assert_eq!(g.cells, vec![true, false, false, true]);
}

#[test]
fn records_with_bad_tokens_or_shape_are_refused() {
    let rec = |row: &[&str]| row.iter().map(|s| s.to_string()).collect::<Vec<String>>();
    let bad_token = vec![rec(&["1", "2"]), rec(&["0", "1"])];
    assert_eq!(board_from_records(&bad_token, 2).unwrap_err(), GridError::ParseError);
    let long_token = vec![rec(&["1", "10"]), rec(&["0", "1"])];
    assert_eq!(board_from_records(&long_token, 2).unwrap_err(), GridError::ParseError);
    let short_row = vec![rec(&["1"]), rec(&["0", "1"])];
    assert_eq!(board_from_records(&short_row, 2).unwrap_err(), GridError::ParseError);
    let too_few = vec![rec(&["1", "0"])];
    assert_eq!(board_from_records(&too_few, 2).unwrap_err(), GridError::ParseError);
    assert_eq!(board_from_records(&vec![], 0).unwrap_err(), GridError::InvalidInput);
}
