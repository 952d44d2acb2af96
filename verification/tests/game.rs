use reversi_engine::api_logic::{ai_reply_ends, MoveInput};
use reversi_engine::board::{bit_from_coord, Board, Player};
use reversi_engine::game::{interpret_input, HumanInput};
use reversi_engine::game::{ai_searches, board_text, result_line, terminal_turn, TurnAction};

#[test]
fn interpret_input_understands_the_human() {
    let board = Board::new();
    assert_eq!(interpret_input(&board, "quit\n"), HumanInput::Quit);
    assert_eq!(interpret_input(&board, "  Q "), HumanInput::Quit);
    assert_eq!(interpret_input(&board, "QuIt"), HumanInput::Quit);
    assert_eq!(
        interpret_input(&board, "d3\n"),
        HumanInput::Play(bit_from_coord("d3").expect("valid"))
    );
    assert_eq!(interpret_input(&board, "a1"), HumanInput::NotLegal);
    assert_eq!(interpret_input(&board, "hello"), HumanInput::Unreadable);
    assert_eq!(interpret_input(&board, "quitt"), HumanInput::Unreadable);
}

#[test]
fn ai_reply_ends_except_for_endless_passing() {
    let board = Board::new();
    let input = |depth: u32, coord: &str| MoveInput {
        black: board.black,
        white: board.white,
        current_player: Player::Black,
        human_player: Player::Black,
        move_coord: coord.to_string(),
        depth,
    };
    assert!(ai_reply_ends(&input(3, "d3")));
    assert!(ai_reply_ends(&input(0, "zz")));
    assert!(ai_reply_ends(&input(0, "d3")));
    // After black takes b1 with c1, black has no move left but white can play f8:
    // with no search depth the AI would only pass, back and forth, forever.
    let endless = MoveInput {
        black: 1 | (1u64 << 62),
        white: 2 | (1u64 << 63),
        current_player: Player::Black,
        human_player: Player::Black,
        move_coord: "c1".to_string(),
        depth: 0,
    };
    assert!(!ai_reply_ends(&endless));
    let searching = MoveInput { depth: 1, ..endless };
    assert!(ai_reply_ends(&searching));
}


#[test]
fn terminal_turn_decides_each_kind_of_turn() {
    let start = Board::new();
    assert_eq!(terminal_turn(&start, 7), TurnAction::AskHuman);
    let after = start.apply_move(bit_from_coord("d3").expect("valid"));
    assert_eq!(terminal_turn(&after, 0), TurnAction::AiPasses);
    match terminal_turn(&after, 2) {
        TurnAction::AiPlays(square) => assert!(after.legal_moves_list().contains(&square)),
        other => panic!("expected a move, got {:?}", other),
    }
    // Black b1, white a1, black to move: black has no move, white still has c1.
    let stuck = Board::from_parts(2, 1, Player::Black);
    assert_eq!(terminal_turn(&stuck, 7), TurnAction::Pass);
    let full = Board::from_parts(u64::MAX, 0, Player::White);
    assert_eq!(terminal_turn(&full, 7), TurnAction::Over);
}

#[test]
fn result_line_names_the_winner() {
    assert_eq!(result_line(&Board::from_parts(7, 0, Player::White)), "Black wins.");
    assert_eq!(result_line(&Board::from_parts(1, 6, Player::Black)), "White wins.");
    assert_eq!(result_line(&Board::new()), "Draw.");
}

#[test]
fn board_text_draws_the_initial_position() {
    let expected = [
        "  a b c d e f g h\n",
        "1 . . . . . . . . 1\n",
        "2 . . . . . . . . 2\n",
        "3 . . . . . . . . 3\n",
        "4 . . . W B . . . 4\n",
        "5 . . . B W . . . 5\n",
        "6 . . . . . . . . 6\n",
        "7 . . . . . . . . 7\n",
        "8 . . . . . . . . 8\n",
        "  a b c d e f g h\n",
    ]
    .concat();
    assert_eq!(board_text(&Board::new()), expected);
}

#[test]
fn passing_twice_and_rebuilding_give_the_same_board() {
    let board = Board::new().apply_move(bit_from_coord("d3").expect("valid"));
    assert_eq!(board.pass().pass(), board);
    assert_eq!(
        Board::from_parts(board.black, board.white, board.current_player()),
        board
    );
}

#[test]
fn ai_searches_only_on_whites_turn_with_a_move() {
    let start = Board::new();
    assert!(!ai_searches(&start));
    let after = start.apply_move(bit_from_coord("d3").expect("valid"));
    assert!(ai_searches(&after));
    assert!(!ai_searches(&Board::from_parts(1, 2, Player::White)));
    assert!(!ai_searches(&Board::from_parts(u64::MAX, 0, Player::White)));
}
