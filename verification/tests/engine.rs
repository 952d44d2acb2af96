use reversi_engine::board::{bit_from_coord, Board, Player};
use reversi_engine::engine::{best_move, negamax};
use reversi_engine::eval::evaluate;

#[test]
fn engine_finds_an_initial_move() {
    let board = Board::new();
    assert!(best_move(&board, 3).is_some());
}

#[test]
fn best_move_is_legal_and_none_without_depth() {
    let board = Board::new();
    let legal = board.legal_moves_list();
    for depth in 1..4 {
        let mv = best_move(&board, depth).expect("a move exists");
        assert!(legal.contains(&mv));
    }
    assert_eq!(best_move(&board, 0), None);
    let stuck = Board::from_parts(1, 2, Player::White);
    assert_eq!(best_move(&stuck, 3), None);
}

#[test]
fn engine_takes_a_free_corner() {
    // Black can take a1 by trapping b2; no other move exists for black.
    let black = 1u64 << 18;
    let white = 1u64 << 9;
    let board = Board::from_parts(black, white, Player::Black);
    assert_eq!(best_move(&board, 2), bit_from_coord("a1"));
}

#[test]
fn negamax_at_depth_zero_is_the_evaluation() {
    let board = Board::new();
    assert_eq!(negamax(&board, 0, -1_000_000_000, 1_000_000_000), evaluate(&board));
    let full = Board::from_parts(u64::MAX, 0, Player::Black);
    assert_eq!(negamax(&full, 5, -10, 10), evaluate(&full));
}

#[test]
fn negamax_stays_within_the_evaluation_range() {
    let board = Board::new();
    for depth in 0..4 {
        let score = negamax(&board, depth, -1_000_000_000, 1_000_000_000);
        assert!((-640_000..=640_000).contains(&score));
    }
}

fn one_ply_scores(board: &Board) -> Vec<(u64, i32)> {
    board
        .legal_moves_list()
        .into_iter()
        .map(|mv| (mv, -evaluate(&board.apply_move(mv))))
        .collect()
}

#[test]
fn depth_one_search_is_the_best_one_ply_score() {
    let mut board = Board::new();
    for _ in 0..5 {
        let scores = one_ply_scores(&board);
        let best = scores.iter().map(|(_, s)| *s).max().expect("moves exist");
        assert_eq!(negamax(&board, 1, -1_000_000_000, 1_000_000_000), best);
        // A window that the best score reaches answers with a lower bound of it.
        let cut = negamax(&board, 1, best - 1, best);
        assert!(cut >= best && cut <= best);
        let first = scores.iter().find(|(_, s)| *s == best).expect("a best move").0;
        assert_eq!(best_move(&board, 1), Some(first));
        board = board.apply_move(scores[0].0);
    }
}

#[test]
fn negamax_sees_a_wipe_out_three_plies_deep() {
    // White a1, black b1, white to move: c1 turns black's only disc and ends the game.
    let board = Board::from_parts(2, 1, Player::White);
    assert_eq!(negamax(&board, 3, -1_000_000_000, 1_000_000_000), 30_000);
    assert_eq!(negamax(&board, 1, -1_000_000_000, 1_000_000_000), 30_000);
    // A window the value lies above fails high with a score of at least the bound.
    assert!(negamax(&board, 3, -10, 10) >= 10);
}

#[test]
fn negamax_fails_low_below_the_window() {
    // Black b1, white a1, black to move: black must pass and white wipes it out.
    let board = Board::from_parts(2, 1, Player::Black);
    assert_eq!(negamax(&board, 3, -1_000_000_000, 1_000_000_000), -30_000);
    assert!(negamax(&board, 3, 0, 10) <= 0);
}

#[test]
fn best_move_finds_the_wipe_out_at_every_depth() {
    let board = Board::from_parts(2, 1, Player::White);
    for depth in 1..5 {
        assert_eq!(best_move(&board, depth), bit_from_coord("c1"));
    }
}

#[test]
fn best_move_keeps_the_first_of_equally_good_moves() {
    // The four opening moves are mirror images of one another, so they are worth the
    // same: the first in square order, d3, is kept at every depth.
    let board = Board::new();
    for depth in 1..4 {
        assert_eq!(best_move(&board, depth), bit_from_coord("d3"));
    }
}
