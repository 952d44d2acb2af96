use reversi_engine::api_logic::{escape_json, move_json, new_game_json, parse_player, MoveInput};
use reversi_engine::board::{Board, Player};

fn initial_cells() -> String {
    (0..64)
        .map(|i| match i {
            27 | 36 => "\"white\"",
            28 | 35 => "\"black\"",
            _ => "\"empty\"",
        })
        .collect::<Vec<_>>()
        .join(",")
}

fn initial_json(human: &str, messages: &str) -> String {
    format!(
        "{{\"black\":\"34628173824\",\"white\":\"68853694464\",\"currentPlayer\":\"Black\",\"humanPlayer\":\"{}\",\"cells\":[{}],\"legalMoves\":[\"d3\",\"c4\",\"f5\",\"e6\"],\"score\":{{\"black\":2,\"white\":2}},\"gameOver\":false,\"winner\":null,\"messages\":[{}],\"lastHumanMove\":null}}",
        human,
        initial_cells(),
        messages
    )
}

#[test]
fn new_game_for_black_is_the_initial_position() {
    assert_eq!(new_game_json(7, Player::Black), initial_json("Black", ""));
    assert_eq!(new_game_json(0, Player::Black), initial_json("Black", ""));
}

#[test]
fn new_game_for_white_lets_the_ai_open() {
    let json = new_game_json(2, Player::White);
    assert!(json.contains("\"currentPlayer\":\"White\""));
    assert!(json.contains("\"humanPlayer\":\"White\""));
    assert!(json.contains("\"messages\":[\"AI played "));
    assert!(json.contains("\"score\":{\"black\":4,\"white\":1}"));
    // With no search depth the AI passes instead of moving.
    let idle = new_game_json(0, Player::White);
    assert!(idle.contains("\"messages\":[\"Black has no legal moves and passes.\"]"));
}

fn input(black: u64, white: u64, current: Player, human: Player, coord: &str) -> MoveInput {
    MoveInput {
        black,
        white,
        current_player: current,
        human_player: human,
        move_coord: coord.to_string(),
        depth: 2,
    }
}

#[test]
fn move_json_rejects_bad_requests() {
    let b = Board::new();
    assert_eq!(
        move_json(input(b.black, b.white, Player::White, Player::Black, "d3")),
        Err("It is not the human player's turn.".to_string())
    );
    assert_eq!(
        move_json(input(b.black, b.white, Player::Black, Player::Black, "z9")),
        Err("Move must be a coordinate like d3".to_string())
    );
    assert_eq!(
        move_json(input(b.black, b.white, Player::Black, Player::Black, "a1")),
        Err("a1 is not legal in this position.".to_string())
    );
}

#[test]
fn move_json_reports_a_finished_game() {
    let json = move_json(input(u64::MAX, 0, Player::Black, Player::Black, "d3")).expect("ok");
    assert!(json.contains("\"gameOver\":true"));
    assert!(json.contains("\"winner\":\"Black\""));
    assert!(json.contains("\"messages\":[\"The game is already over.\"]"));
    assert!(json.contains("\"score\":{\"black\":64,\"white\":0}"));
    assert!(json.ends_with("\"lastHumanMove\":null}"));
}

#[test]
fn move_json_plays_the_human_move_and_answers() {
    let b = Board::new();
    let json = move_json(input(b.black, b.white, Player::Black, Player::Black, "D3")).expect("ok");
    assert!(json.contains("\"messages\":[\"You played d3.\",\"AI played "));
    assert!(json.contains("\"currentPlayer\":\"Black\""));
    assert!(json.ends_with("\"lastHumanMove\":\"d3\"}"));
    assert!(json.contains("\"gameOver\":false"));
}

#[test]
fn move_json_ends_the_game_with_a_summary() {
    // Black fills the last square h8 by trapping g8; afterwards the board is full.
    let white = 1u64 << 62;
    let black = !(white | (1u64 << 63));
    let json = move_json(input(black, white, Player::Black, Player::Black, "h8")).expect("ok");
    assert!(json.contains(
        "\"messages\":[\"You played h8.\",\"Game over. Final score: Black 64, White 0. Black wins.\"]"
    ));
    assert!(json.contains("\"winner\":\"Black\""));
}

#[test]
fn parse_player_accepts_exact_names() {
    assert_eq!(parse_player("Black"), Some(Player::Black));
    assert_eq!(parse_player("White"), Some(Player::White));
    assert_eq!(parse_player("black"), None);
    assert_eq!(parse_player(""), None);
}

#[test]
fn escape_json_escapes_specials() {
    assert_eq!(escape_json("plain"), "plain");
    assert_eq!(escape_json("a\"b\\c\nd\re\tf"), "a\\\"b\\\\c\\nd\\re\\tf");
}

#[test]
fn move_json_after_c1_ends_the_game() {
    let request = MoveInput {
        black: 1,
        white: 2,
        current_player: Player::Black,
        human_player: Player::Black,
        move_coord: "c1".to_string(),
        depth: 1,
    };
    let json = move_json(request).expect("c1 is legal");
    assert!(json.starts_with("{\"black\":\"7\",\"white\":\"0\",\"currentPlayer\":\"White\""));
    assert!(json.contains("\"score\":{\"black\":3,\"white\":0}"));
    assert!(json.contains("\"gameOver\":true"));
    assert!(json.contains(
        "\"messages\":[\"You played c1.\",\"Game over. Final score: Black 3, White 0. Black wins.\"]"
    ));
    assert!(json.ends_with("\"lastHumanMove\":\"c1\"}"));
}

#[test]
fn move_json_for_white_after_c1_ends_the_game() {
    // White plays c1 turning b1; black is left with no disc and the game ends.
    let request = MoveInput {
        black: 2,
        white: 1,
        current_player: Player::White,
        human_player: Player::White,
        move_coord: "c1".to_string(),
        depth: 3,
    };
    let json = move_json(request).expect("c1 is legal");
    assert!(json.contains(
        "\"messages\":[\"You played c1.\",\"Game over. Final score: Black 0, White 3. White wins.\"]"
    ));
}
