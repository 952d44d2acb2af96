//! What the answers shown to the players say: the winner named in the json state and in
//! the final message, the late-game weight of the disc lead, the squares of the drawn
//! board, and the moves accepted from the human.
use vstd::prelude::*;

use crate::api_logic::{
    board_json_text, bool_word, cell_words, final_text, join, legal_words, winner_word,
};
use crate::bits::{bit, is_square, lemma_bits_where, lemma_sq_is_square, popcount, square_of};
use crate::board::{coord_chars, coord_index, is_legal, moves_of, player_name, Board, Player};
use crate::text::decimal;
use crate::eval::{adjacency_upto, corners_upto, eval_score, mobility, stability};
use crate::game::{board_picture, cell_char, input_meaning, row_cells, row_line, rows_text, HumanInput};

verus! {

/// A move the terminal game accepts from the human is a legal move of the side to move,
/// on the square the typed coordinate names.
pub proof fn law_human_plays_only_legal_moves(b: Board, line: Seq<char>)
    ensures
        input_meaning(b, line) matches HumanInput::Play(m) ==> is_square(m) && coord_index(line)
            == Some(square_of(m)) && is_legal(b.mover(), b.waiter(), square_of(m)),
{
    if input_meaning(b, line) is Play {
        let i = coord_index(line)->0;
        lemma_bits_where(|k: int| is_legal(b.mover(), b.waiter(), k));
        assert(bit(moves_of(b.mover(), b.waiter()), i));
        lemma_sq_is_square(i);
    }
}

/// A coordinate that is not a legal move of the side to move is never played: the game
/// answers that it is not legal, unless the line asks to quit.
pub proof fn law_human_illegal_coordinates_are_refused(b: Board, line: Seq<char>)
    requires
        coord_index(line) is Some,
        !is_legal(b.mover(), b.waiter(), coord_index(line)->0),
    ensures
        input_meaning(b, line) is NotLegal || input_meaning(b, line) is Quit,
{
    lemma_bits_where(|k: int| is_legal(b.mover(), b.waiter(), k));
    let i = coord_index(line)->0;
    if 0 <= i < 64 {
        assert(!bit(moves_of(b.mover(), b.waiter()), i));
    }
}

/// `s` ends with `t`.
pub open spec fn ends_with(s: Seq<char>, t: Seq<char>) -> bool {
    t.len() <= s.len() && s.subrange(s.len() - t.len(), s.len() as int) == t
}

/// The final message names Black the winner exactly when Black holds more discs, White
/// exactly when White does, and announces a draw exactly when the counts are equal.
pub proof fn law_final_message_names_the_winner(b: Board)
    ensures
        ends_with(final_text(b), "Black wins."@) == (popcount(b.blacks()) > popcount(b.whites())),
        ends_with(final_text(b), "White wins."@) == (popcount(b.whites()) > popcount(b.blacks())),
        ends_with(final_text(b), "The game is a draw."@) == (popcount(b.blacks()) == popcount(
            b.whites(),
        )),
{
    reveal_strlit("Black wins.");
    reveal_strlit("White wins.");
    reveal_strlit("The game is a draw.");
    reveal_strlit("Game over. Final score: Black ");
    let s = final_text(b);
    let n = s.len();
    let bk = "Black wins."@;
    let wh = "White wins."@;
    let dr = "The game is a draw."@;
    assert(n >= 30 + 11);
    if popcount(b.blacks()) > popcount(b.whites()) {
        assert(s.subrange(n - 11, n as int) =~= bk);
        assert(s.subrange(n - 11, n as int)[0] != wh[0]);
        assert(s.subrange(n - 19, n as int)[8] != dr[8]);
    } else if popcount(b.whites()) > popcount(b.blacks()) {
        assert(s.subrange(n - 11, n as int) =~= wh);
        assert(s.subrange(n - 11, n as int)[0] != bk[0]);
        assert(s.subrange(n - 19, n as int)[8] != dr[8]);
    } else {
        assert(s.subrange(n - 19, n as int) =~= dr);
        assert(s.subrange(n - 11, n as int)[0] != bk[0]);
        assert(s.subrange(n - 11, n as int)[0] != wh[0]);
    }
}

/// Late in the game (55 discs or more, the game still going), with mobility, corners and
/// stable discs alike, the evaluation moves by eight for every disc of lead: one more own
/// disc in place of an opposing one raises it by sixteen.
pub proof fn law_late_disc_lead_counts(b1: Board, b2: Board)
    requires
        !b1.is_over(),
        !b2.is_over(),
        popcount(b1.mover() | b1.waiter()) >= 55,
        popcount(b2.mover() | b2.waiter()) >= 55,
        mobility(b1.mover(), b1.waiter()) == mobility(b2.mover(), b2.waiter()),
        corners_upto(b1.mover(), b1.waiter(), 4) == corners_upto(b2.mover(), b2.waiter(), 4),
        stability(b1.mover(), b1.waiter()) == stability(b2.mover(), b2.waiter()),
    ensures
        eval_score(b2) - eval_score(b1) == 8 * ((popcount(b2.mover()) - popcount(b2.waiter())) - (
        popcount(b1.mover()) - popcount(b1.waiter()))),
{
}


/// `t` occurs in `s` at index `i`.
pub open spec fn piece_at(s: Seq<char>, t: Seq<char>, i: int) -> bool {
    0 <= i && i + t.len() <= s.len() && s.subrange(i, i + t.len()) == t
}

/// `t` occurs somewhere in `s`.
pub open spec fn has_piece(s: Seq<char>, t: Seq<char>) -> bool {
    exists|i: int| #[trigger] piece_at(s, t, i)
}

/// The part of the json state up to the winner field.
spec fn json_head(b: Board, human: Player) -> Seq<char> {
    "{"@ + "\"black\":\""@ + decimal(b.blacks() as nat) + "\","@ + "\"white\":\""@ + decimal(
        b.whites() as nat,
    ) + "\","@ + "\"currentPlayer\":\""@ + player_name(b.turn()) + "\","@ + "\"humanPlayer\":\""@
        + player_name(human) + "\","@ + "\"cells\":["@ + join(cell_words(b)) + "],"@
        + "\"legalMoves\":["@ + join(legal_words(b)) + "],"@ + "\"score\":{\"black\":"@ + decimal(
        popcount(b.blacks()),
    ) + ",\"white\":"@ + decimal(popcount(b.whites())) + "},"@
}

/// The json state holds `"gameOver":` and the game's state, then `"winner":` and the side
/// with strictly more discs once the game is over (`"Draw"` on equal counts), `null`
/// before: the winner named is never the side with fewer discs.
pub proof fn law_json_names_the_winner(
    b: Board,
    messages: Seq<Seq<char>>,
    human_move: Option<Seq<char>>,
    human: Player,
)
    ensures
        !b.is_over() ==> has_piece(
            board_json_text(b, messages, human_move, human),
            "\"gameOver\":false,\"winner\":null"@,
        ),
        b.is_over() && popcount(b.blacks()) > popcount(b.whites()) ==> has_piece(
            board_json_text(b, messages, human_move, human),
            "\"gameOver\":true,\"winner\":\"Black\""@,
        ),
        b.is_over() && popcount(b.whites()) > popcount(b.blacks()) ==> has_piece(
            board_json_text(b, messages, human_move, human),
            "\"gameOver\":true,\"winner\":\"White\""@,
        ),
        b.is_over() && popcount(b.whites()) == popcount(b.blacks()) ==> has_piece(
            board_json_text(b, messages, human_move, human),
            "\"gameOver\":true,\"winner\":\"Draw\""@,
        ),
{
    reveal_strlit("\"gameOver\":");
    reveal_strlit("true");
    reveal_strlit("false");
    reveal_strlit(",");
    reveal_strlit("\"winner\":");
    reveal_strlit("null");
    reveal_strlit("\"Black\"");
    reveal_strlit("\"White\"");
    reveal_strlit("\"Draw\"");
    reveal_strlit("\"gameOver\":false,\"winner\":null");
    reveal_strlit("\"gameOver\":true,\"winner\":\"Black\"");
    reveal_strlit("\"gameOver\":true,\"winner\":\"White\"");
    reveal_strlit("\"gameOver\":true,\"winner\":\"Draw\"");
    let json = board_json_text(b, messages, human_move, human);
    let head = json_head(b, human);
    let x0 = head + "\"gameOver\":"@ + bool_word(b.is_over()) + ","@ + "\"winner\":"@
        + winner_word(b);
    let tail = "\"gameOver\":"@ + bool_word(b.is_over()) + ","@ + "\"winner\":"@ + winner_word(b);
    assert forall|k: int| 0 <= k < x0.len() implies json[k] == x0[k] by {}
    let p = head.len() as int;
    assert(x0.subrange(p, x0.len() as int) =~= tail);
    assert(json.subrange(p, p + tail.len()) =~= tail);
    assert(piece_at(json, tail, p));
    if !b.is_over() {
        assert(tail =~= "\"gameOver\":false,\"winner\":null"@);
    } else if popcount(b.blacks()) > popcount(b.whites()) {
        assert(tail =~= "\"gameOver\":true,\"winner\":\"Black\""@);
    } else if popcount(b.whites()) > popcount(b.blacks()) {
        assert(tail =~= "\"gameOver\":true,\"winner\":\"White\""@);
    } else {
        assert(tail =~= "\"gameOver\":true,\"winner\":\"Draw\""@);
    }
}


proof fn lemma_row_cells(b: Board, r: int, n: nat)
    requires
        n <= 8,
    ensures
        row_cells(b, r, n).len() == 2 * n,
        forall|k: int|
            0 <= k < 2 * n ==> #[trigger] row_cells(b, r, n)[k] == if k % 2 == 0 {
                cell_char(b, r * 8 + k / 2)
            } else {
                ' '
            },
    decreases n,
{
    if n > 0 {
        lemma_row_cells(b, r, (n - 1) as nat);
    }
}

proof fn lemma_row_line(b: Board, r: int)
    requires
        0 <= r < 8,
    ensures
        row_line(b, r).len() == 20,
        row_line(b, r)[0] == ('1' as int + r) as char,
        forall|f: int| 0 <= f < 8 ==> #[trigger] row_line(b, r)[2 + 2 * f] == cell_char(b, r * 8 + f),
{
    reveal_strlit(" ");
    reveal_strlit("\n");
    lemma_row_cells(b, r, 8);
    let d = decimal((r + 1) as nat);
    assert(d == seq![crate::text::digit((r + 1) as nat)]);
    assert forall|f: int| 0 <= f < 8 implies #[trigger] row_line(b, r)[2 + 2 * f] == cell_char(
        b,
        r * 8 + f,
    ) by {
        assert(row_cells(b, r, 8)[2 * f] == cell_char(b, r * 8 + f));
    }
}

proof fn lemma_rows_text(b: Board, n: nat)
    requires
        n <= 8,
    ensures
        rows_text(b, n).len() == 20 * n,
        forall|r: int, j: int|
            0 <= r < n && 0 <= j < 20 ==> #[trigger] rows_text(b, n)[20 * r + j] == row_line(b, r)[j],
    decreases n,
{
    if n > 0 {
        let m = (n - 1) as nat;
        lemma_rows_text(b, m);
        lemma_row_line(b, m as int);
        assert forall|r: int, j: int| 0 <= r < n && 0 <= j < 20 implies #[trigger] rows_text(b, n)[20
            * r + j] == row_line(b, r)[j] by {
            if r < m {
                assert(20 * r + j < 20 * m);
            }
        }
    }
}

/// The drawn board shows, at rank `r + 1` and file `f`, the contents of square `r * 8 + f`:
/// `B` for a black disc, `W` for a white one, `.` when empty; the file letter above that
/// column and the rank number at the start of that row are the two characters of the
/// square's coordinate.
pub proof fn law_picture_shows_each_square(b: Board, r: int, f: int)
    requires
        0 <= r < 8,
        0 <= f < 8,
    ensures
        board_picture(b)[18 + 20 * r + 2 + 2 * f] == if bit(b.blacks(), r * 8 + f) {
            'B'
        } else if bit(b.whites(), r * 8 + f) {
            'W'
        } else {
            '.'
        },
        board_picture(b)[2 + 2 * f] == coord_chars(r * 8 + f)[0],
        board_picture(b)[18 + 20 * r] == coord_chars(r * 8 + f)[1],
{
    reveal_strlit("  a b c d e f g h\n");
    lemma_rows_text(b, 8);
    lemma_row_line(b, r);
    let h = "  a b c d e f g h\n"@;
    assert(h.len() == 18);
    assert(board_picture(b)[18 + 20 * r + 2 + 2 * f] == rows_text(b, 8)[20 * r + (2 + 2 * f)]);
    assert(board_picture(b)[18 + 20 * r] == rows_text(b, 8)[20 * r + 0]);
    assert((r * 8 + f) % 8 == f && (r * 8 + f) / 8 == r) by (nonlinear_arith)
        requires
            0 <= f < 8,
            0 <= r,
    ;
    assert(board_picture(b)[2 + 2 * f] == h[2 + 2 * f]);
    assert(h[2 + 2 * f] == ('a' as int + f) as char) by {
        if f == 0 {
        } else if f == 1 {
        } else if f == 2 {
        } else if f == 3 {
        } else if f == 4 {
        } else if f == 5 {
        } else if f == 6 {
        } else {
        }
    }
}


/// Between two positions in the same phase (fewer than 20 discs, fewer than 55, or more),
/// both with the game still going, the evaluations differ by the phase's weights times the
/// differences of mobility, corners, corner-adjacent squares, stable discs and disc lead:
/// each term counts in favour of the side to move, with the weight its phase gives it.
pub proof fn law_evaluation_weights(b1: Board, b2: Board)
    requires
        !b1.is_over(),
        !b2.is_over(),
    ensures
        ({
            let (p1, o1, p2, o2) = (b1.mover(), b1.waiter(), b2.mover(), b2.waiter());
            let n1 = popcount(p1 | o1);
            let n2 = popcount(p2 | o2);
            let dm = mobility(p2, o2) - mobility(p1, o1);
            let dc = corners_upto(p2, o2, 4) - corners_upto(p1, o1, 4);
            let da = adjacency_upto(p2, o2, 4) - adjacency_upto(p1, o1, 4);
            let ds = stability(p2, o2) - stability(p1, o1);
            let dd = (popcount(p2) - popcount(o2)) - (popcount(p1) - popcount(o1));
            let diff = eval_score(b2) - eval_score(b1);
            &&& n1 < 20 && n2 < 20 ==> diff == 12 * dm + 40 * dc + 15 * da + 4 * ds
            &&& 20 <= n1 < 55 && 20 <= n2 < 55 ==> diff == 8 * dm + 45 * dc + 10 * da + 10 * ds
            &&& n1 >= 55 && n2 >= 55 ==> diff == 2 * dm + 50 * dc + 14 * ds + 8 * dd
        }),
{
}

} // verus!
