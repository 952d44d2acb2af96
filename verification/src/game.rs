//! Decisions of the terminal game that do not depend on how input arrives.
use vstd::prelude::*;

use crate::bits::{bit, lemma_sq_and, popcount, sq};
use crate::board::{bit_from_coord, coord_index, moves_of, Board, Cell, Player};
use crate::engine::{best_move, search_choice};
use crate::text::{
    ascii_lower, chars_of, decimal, push_decimal, push_str, string_from_chars, to_ascii_lower,
    trim, trimmed,
};

verus! {

/// What a line typed by the human asks for.
#[derive(Debug, Clone, Copy, PartialEq, Eq)]
pub enum HumanInput {
    /// Leave the game.
    Quit,
    /// Play the given legal square.
    Play(u64),
    /// A coordinate that is not a legal move now.
    NotLegal,
    /// Neither a coordinate nor a request to quit.
    Unreadable,
}

/// `a` equals `b` when ASCII letters are compared without case.
pub open spec fn same_ignoring_case(a: Seq<char>, b: Seq<char>) -> bool {
    a.len() == b.len() && forall|i: int| 0 <= i < a.len() ==> ascii_lower(#[trigger] a[i])
        == ascii_lower(b[i])
}

fn equal_ignoring_case(a: &Vec<char>, b: &Vec<char>) -> (r: bool)
    ensures
        r == same_ignoring_case(a@, b@),
{
    if a.len() != b.len() {
        return false;
    }
    let mut i: usize = 0;
    while i < a.len()
        invariant
            i <= a.len(),
            a.len() == b.len(),
            forall|k: int| 0 <= k < i ==> ascii_lower(#[trigger] a@[k]) == ascii_lower(b@[k]),
        decreases a.len() - i,
    {
        if to_ascii_lower(a[i]) != to_ascii_lower(b[i]) {
            return false;
        }
        i = i + 1;
    }
    true
}

/// The meaning of a line typed by the human when it is their turn: `quit` or `q` in any
/// case leaves, a coordinate of a legal move plays it.
pub open spec fn input_meaning(b: Board, line: Seq<char>) -> HumanInput {
    let t = trim(line);
    if same_ignoring_case(t, "quit"@) || same_ignoring_case(t, "q"@) {
        HumanInput::Quit
    } else {
        match coord_index(line) {
            Some(i) => if bit(moves_of(b.mover(), b.waiter()), i) {
                HumanInput::Play(crate::bits::sq(i))
            } else {
                HumanInput::NotLegal
            },
            None => HumanInput::Unreadable,
        }
    }
}

/// Interprets a line typed by the human player.
pub fn interpret_input(board: &Board, line: &str) -> (r: HumanInput)
    ensures
        r == input_meaning(*board, line@),
{
    let all = chars_of(line);
    let t = trimmed(&all);
    let quit = chars_of("quit");
    let q = chars_of("q");
    if equal_ignoring_case(&t, &quit) || equal_ignoring_case(&t, &q) {
        return HumanInput::Quit;
    }
    let legal_mask = board.legal_moves(board.player_bits(), board.opponent_bits());
    match bit_from_coord(line) {
        Some(square) => {
            proof {
                let i = coord_index(line@)->0;
                lemma_sq_and(i, legal_mask);
            }
            if square & legal_mask != 0 {
                HumanInput::Play(square)
            } else {
                HumanInput::NotLegal
            }
        },
        None => HumanInput::Unreadable,
    }
}


/// What the terminal game does next, the human playing black against the AI.
#[derive(Debug, Clone, Copy, PartialEq, Eq, Structural)]
pub enum TurnAction {
    /// Neither side can move: the game is over.
    Over,
    /// The side to move has no legal move and passes.
    Pass,
    /// The human (black) is to move and has a legal move.
    AskHuman,
    /// The AI (white) plays this square.
    AiPlays(u64),
    /// The AI finds no move to play and passes.
    AiPasses,
}

/// Decides the next turn of the terminal game, the AI searching `depth` plies.
pub fn terminal_turn(board: &Board, depth: u32) -> (a: TurnAction)
    ensures
        (a is Over) == board.is_over(),
        (a is Pass) == (!board.is_over() && moves_of(board.mover(), board.waiter()) == 0),
        (a is AskHuman) == (!board.is_over() && moves_of(board.mover(), board.waiter()) != 0
            && board.turn() == Player::Black),
        (a is AiPasses) == (!board.is_over() && moves_of(board.mover(), board.waiter()) != 0
            && board.turn() == Player::White && depth == 0),
        (a is AiPlays) == (!board.is_over() && moves_of(board.mover(), board.waiter()) != 0
            && board.turn() == Player::White && depth >= 1),
        a matches TurnAction::AiPlays(m) ==> search_choice(*board, depth, m),
{
    if board.game_over() {
        return TurnAction::Over;
    }
    let legal = board.legal_moves(board.player_bits(), board.opponent_bits());
    if legal == 0 {
        return TurnAction::Pass;
    }
    match board.current_player() {
        Player::Black => TurnAction::AskHuman,
        Player::White => match best_move(board, depth) {
            Some(square) => TurnAction::AiPlays(square),
            None => TurnAction::AiPasses,
        },
    }
}

/// The AI (white) is to move and has a legal move, so the terminal game searches now.
pub fn ai_searches(board: &Board) -> (r: bool)
    ensures
        r == (!board.is_over() && moves_of(board.mover(), board.waiter()) != 0 && board.turn()
            == Player::White),
{
    if board.game_over() {
        return false;
    }
    let legal = board.legal_moves(board.player_bits(), board.opponent_bits());
    legal != 0 && board.current_player() == Player::White
}

/// The last line of a finished terminal game.
pub open spec fn result_text(b: Board) -> Seq<char> {
    if popcount(b.blacks()) > popcount(b.whites()) {
        "Black wins."@
    } else if popcount(b.whites()) > popcount(b.blacks()) {
        "White wins."@
    } else {
        "Draw."@
    }
}

/// Names the winner by disc count, or a draw.
pub fn result_line(board: &Board) -> (s: String)
    ensures
        s@ == result_text(*board),
{
    let (black, white) = board.score();
    if black > white {
        "Black wins.".to_owned()
    } else if white > black {
        "White wins.".to_owned()
    } else {
        "Draw.".to_owned()
    }
}

/// The character shown for square `i`: `B`, `W`, or `.` when empty.
pub open spec fn cell_char(b: Board, i: int) -> char {
    if bit(b.blacks(), i) {
        'B'
    } else if bit(b.whites(), i) {
        'W'
    } else {
        '.'
    }
}

/// The first `n` squares of row `r`, each followed by a space.
pub open spec fn row_cells(b: Board, r: int, n: nat) -> Seq<char>
    decreases n,
{
    if n == 0 {
        Seq::empty()
    } else {
        row_cells(b, r, (n - 1) as nat) + seq![cell_char(b, r * 8 + n - 1), ' ']
    }
}

/// Row `r` with its rank number on both sides.
pub open spec fn row_line(b: Board, r: int) -> Seq<char> {
    decimal((r + 1) as nat) + " "@ + row_cells(b, r, 8) + decimal((r + 1) as nat) + "\n"@
}

/// The first `n` rows.
pub open spec fn rows_text(b: Board, n: nat) -> Seq<char>
    decreases n,
{
    if n == 0 {
        Seq::empty()
    } else {
        rows_text(b, (n - 1) as nat) + row_line(b, n - 1)
    }
}

/// The board as the terminal game prints it: file letters above and below, rank numbers
/// on both sides, `a1` at the top left.
pub open spec fn board_picture(b: Board) -> Seq<char> {
    "  a b c d e f g h\n"@ + rows_text(b, 8) + "  a b c d e f g h\n"@
}

/// Draws the board as text, one line per rank.
pub fn board_text(board: &Board) -> (s: String)
    ensures
        s@ == board_picture(*board),
{
    let mut out: Vec<char> = Vec::new();
    push_str(&mut out, "  a b c d e f g h\n");
    let mut row: u64 = 0;
    while row < 8
        invariant
            row <= 8,
            out@ == "  a b c d e f g h\n"@ + rows_text(*board, row as nat),
        decreases 8 - row,
    {
        let ghost before = out@;
        push_decimal(&mut out, row + 1);
        push_str(&mut out, " ");
        let ghost mid = out@;
        let mut col: u64 = 0;
        while col < 8
            invariant
                row < 8,
                col <= 8,
                out@ == mid + row_cells(*board, row as int, col as nat),
            decreases 8 - col,
        {
            let square = 1u64 << (row * 8 + col);
            proof {
                let i = (row * 8 + col) as int;
                assert(square == sq(i));
                lemma_sq_and(i, board.blacks());
                lemma_sq_and(i, board.whites());
            }
            let marker = match board.get_cell(square) {
                Cell::Empty => '.',
                Cell::Black => 'B',
                Cell::White => 'W',
            };
            out.push(marker);
            out.push(' ');
            proof {
                assert(out@ =~= mid + row_cells(*board, row as int, (col + 1) as nat));
            }
            col = col + 1;
        }
        push_decimal(&mut out, row + 1);
        push_str(&mut out, "\n");
        proof {
            assert(out@ =~= "  a b c d e f g h\n"@ + rows_text(*board, (row + 1) as nat));
        }
        row = row + 1;
    }
    push_str(&mut out, "  a b c d e f g h\n");
    string_from_chars(out)
}

} // verus!
