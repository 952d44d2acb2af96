use reversi_engine::board::{Board, Player};
use reversi_engine::eval::evaluate;

#[test]
fn initial_position_evaluates_to_zero() {
    assert_eq!(evaluate(&Board::new()), 0);
}

#[test]
fn finished_game_scores_ten_thousand_per_disc() {
    let black_wins = Board::from_parts(u64::MAX << 10, (1u64 << 10) - 1, Player::Black);
    assert!(black_wins.game_over());
    assert_eq!(evaluate(&black_wins), (54 - 10) * 10_000);
    assert_eq!(evaluate(&black_wins.pass()), -(54 - 10) * 10_000);
    let all_black = Board::from_parts(u64::MAX, 0, Player::White);
    assert_eq!(evaluate(&all_black), -640_000);
}

#[test]
fn evaluation_is_zero_sum_between_the_sides() {
    let mut board = Board::new();
    for _ in 0..6 {
        let moves = board.legal_moves_list();
        board = board.apply_move(moves[0]);
        assert_eq!(evaluate(&board.pass()), -evaluate(&board));
    }
}

#[test]
fn early_corner_is_worth_forty() {
    // Black owns a1, everything else mirrors: corner term 40, plus stable corner 4.
    let black = 1u64 | (1u64 << 28) | (1u64 << 35);
    let white = (1u64 << 27) | (1u64 << 36);
    let with_corner = Board::from_parts(black, white, Player::Black);
    let without = Board::from_parts(black & !1, white, Player::Black);
    let difference = evaluate(&with_corner) - evaluate(&without);
    assert_eq!(difference, 40 + 4 + 12 * (with_corner.legal_moves_list().len() as i32
        - without.legal_moves_list().len() as i32
        - (with_corner.pass().legal_moves_list().len() as i32
            - without.pass().legal_moves_list().len() as i32)));
}
