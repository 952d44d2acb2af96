//! Shared json api logic for the local web server and serverless functions.
use vstd::prelude::*;

use crate::bits::{
    bit, lemma_bits_where, lemma_count_below_le, lemma_sq_is_square, lemma_trailing_zeros_sq, lemma_or_comm, lemma_sq_and, lemma_square_of, popcount, sq, square_of,
    squares,
};
use crate::board::{
    coord_chars, coord_from_bit, is_legal, lemma_after_sets, lemma_initial_moves, lemma_move_fills_one, moves_of,
    mover_after, player_name, waiter_after, Board, Cell, Player,
};
use crate::text::{
    chars_of, decimal, escape, push_decimal, push_escaped, push_str, same_chars, string_from_chars,
};

verus! {

/// Default AI search depth used by the web front ends.
pub const DEFAULT_DEPTH: u32 = 7;

/// Input payload for a human move request.
pub struct MoveInput {
    /// Black bitboard from the client state.
    pub black: u64,
    /// White bitboard from the client state.
    pub white: u64,
    /// Side whose turn it is.
    pub current_player: Player,
    /// Human-controlled side.
    pub human_player: Player,
    /// Human move coordinate, such as `d3`.
    pub move_coord: String,
    /// AI search depth.
    pub depth: u32,
}

/// Items separated by commas.
pub open spec fn join(items: Seq<Seq<char>>) -> Seq<char>
    decreases items.len(),
{
    if items.len() == 0 {
        Seq::empty()
    } else if items.len() == 1 {
        items[0]
    } else {
        join(items.drop_last()) + ","@ + items.last()
    }
}

/// A json string literal holding `s`.
pub open spec fn quoted(s: Seq<char>) -> Seq<char> {
    "\""@ + escape(s) + "\""@
}

pub open spec fn views(v: Seq<Vec<char>>) -> Seq<Seq<char>> {
    v.map(|_i: int, x: Vec<char>| x@)
}

pub open spec fn string_views(v: Seq<String>) -> Seq<Seq<char>> {
    v.map(|_i: int, x: String| x@)
}

/// Appends the items separated by commas.
fn push_joined(v: &mut Vec<char>, items: &Vec<Vec<char>>)
    ensures
        final(v)@ == old(v)@ + join(views(items@)),
{
    let ghost start = v@;
    let mut i: usize = 0;
    proof {
        assert(views(items@).take(0) =~= Seq::<Seq<char>>::empty());
        assert(v@ =~= start + join(views(items@).take(0)));
    }
    while i < items.len()
        invariant
            i <= items.len(),
            v@ == start + join(views(items@).take(i as int)),
        decreases items.len() - i,
    {
        let ghost before = v@;
        let ghost all = views(items@);
        if i > 0 {
            push_str(v, ",");
        }
        let item = &items[i];
        let mut k: usize = 0;
        let ghost mid = v@;
        while k < item.len()
            invariant
                k <= item.len(),
                v@ == mid + item@.take(k as int),
            decreases item.len() - k,
        {
            v.push(item[k]);
            proof {
                assert(item@.take(k + 1) =~= item@.take(k as int).push(item@[k as int]));
            }
            k = k + 1;
        }
        proof {
            assert(item@.take(item.len() as int) =~= item@);
            let next = all.take(i + 1);
            assert(next.drop_last() =~= all.take(i as int));
            assert(next.last() == item@);
            if i == 0 {
                assert(next.len() == 1);
                assert(v@ =~= start + join(next));
            } else {
                assert(join(next) == join(all.take(i as int)) + ","@ + item@);
                assert(v@ =~= start + join(next));
            }
        }
        i = i + 1;
    }
    proof {
        assert(views(items@).take(items.len() as int) =~= views(items@));
    }
}

/// The json word for square `i`.
pub open spec fn cell_word(b: Board, i: int) -> Seq<char> {
    if bit(b.blacks(), i) {
        "\"black\""@
    } else if bit(b.whites(), i) {
        "\"white\""@
    } else {
        "\"empty\""@
    }
}

/// The json words of all 64 squares, `a1` first.
pub open spec fn cell_words(b: Board) -> Seq<Seq<char>> {
    Seq::new(64, |i: int| cell_word(b, i))
}

/// The quoted coordinates of the legal moves of the side to move, in square order.
pub open spec fn legal_words(b: Board) -> Seq<Seq<char>> {
    squares(moves_of(b.mover(), b.waiter())).map(
        |_i: int, m: u64|
            quoted(crate::board::coord_chars(vstd::std_specs::bits::u64_trailing_zeros(m) as int)),
    )
}

pub open spec fn bool_word(x: bool) -> Seq<char> {
    if x {
        "true"@
    } else {
        "false"@
    }
}

/// `"Black"`, `"White"` or `"Draw"` once the game is over, `null` before.
pub open spec fn winner_word(b: Board) -> Seq<char> {
    if !b.is_over() {
        "null"@
    } else if popcount(b.blacks()) > popcount(b.whites()) {
        "\"Black\""@
    } else if popcount(b.whites()) > popcount(b.blacks()) {
        "\"White\""@
    } else {
        "\"Draw\""@
    }
}

pub open spec fn last_move_word(m: Option<Seq<char>>) -> Seq<char> {
    match m {
        Some(c) => quoted(c),
        None => "null"@,
    }
}

/// The json object describing a game state.
pub open spec fn board_json_text(
    b: Board,
    messages: Seq<Seq<char>>,
    human_move: Option<Seq<char>>,
    human: Player,
) -> Seq<char> {
    "{"@ + "\"black\":\""@ + decimal(b.blacks() as nat) + "\","@ + "\"white\":\""@ + decimal(
        b.whites() as nat,
    ) + "\","@ + "\"currentPlayer\":\""@ + player_name(b.turn()) + "\","@ + "\"humanPlayer\":\""@
        + player_name(human) + "\","@ + "\"cells\":["@ + join(cell_words(b)) + "],"@
        + "\"legalMoves\":["@ + join(legal_words(b)) + "],"@ + "\"score\":{\"black\":"@ + decimal(
        popcount(b.blacks()),
    ) + ",\"white\":"@ + decimal(popcount(b.whites())) + "},"@ + "\"gameOver\":"@ + bool_word(
        b.is_over(),
    ) + ","@ + "\"winner\":"@ + winner_word(b) + ","@ + "\"messages\":["@ + join(
        messages.map(|_i: int, m: Seq<char>| quoted(m)),
    ) + "],"@ + "\"lastHumanMove\":"@ + last_move_word(human_move) + "}"@
}

/// Escapes a string for use inside a json string literal.
pub fn escape_json(value: &str) -> (r: String)
    ensures
        r@ == escape(value@),
{
    let chars = chars_of(value);
    let mut out: Vec<char> = Vec::new();
    push_escaped(&mut out, &chars);
    proof {
        assert(out@ =~= escape(value@));
    }
    string_from_chars(out)
}

/// Parses a player name from client json/query input.
pub fn parse_player(value: &str) -> (r: Option<Player>)
    ensures
        r == (if value@ == "Black"@ {
            Some(Player::Black)
        } else if value@ == "White"@ {
            Some(Player::White)
        } else {
            None
        }),
{
    let given = chars_of(value);
    let black = chars_of("Black");
    let white = chars_of("White");
    if same_chars(&given, &black) {
        Some(Player::Black)
    } else if same_chars(&given, &white) {
        Some(Player::White)
    } else {
        None
    }
}


/// `s` as a json string literal.
fn quote_item(s: &str) -> (r: Vec<char>)
    ensures
        r@ == quoted(s@),
{
    let mut out: Vec<char> = Vec::new();
    push_str(&mut out, "\"");
    let chars = chars_of(s);
    push_escaped(&mut out, &chars);
    push_str(&mut out, "\"");
    proof {
        assert(out@ =~= quoted(s@));
    }
    out
}

pub open spec fn option_view(m: Option<String>) -> Option<Seq<char>> {
    match m {
        Some(s) => Some(s@),
        None => None,
    }
}

fn board_json(
    board: &Board,
    messages: &[String],
    human_move: Option<String>,
    human_player: Player,
) -> (r: String)
    ensures
        r@ == board_json_text(*board, string_views(messages@), option_view(human_move), human_player),
{
    let (black_score, white_score) = board.score();
    let legal_moves = board.legal_moves_list();
    let mut legal_items: Vec<Vec<char>> = Vec::new();
    let mut i: usize = 0;
    while i < legal_moves.len()
        invariant
            i <= legal_moves.len(),
            legal_items.len() == i,
            legal_moves@ == squares(moves_of(board.mover(), board.waiter())),
            forall|a: int|
                0 <= a < i ==> (#[trigger] legal_items@[a])@ == legal_words(*board)[a],
        decreases legal_moves.len() - i,
    {
        let coord = coord_from_bit(legal_moves[i]);
        legal_items.push(quote_item(coord.as_str()));
        i = i + 1;
    }
    proof {
        assert(views(legal_items@) =~= legal_words(*board));
    }
    let mut cell_items: Vec<Vec<char>> = Vec::new();
    let mut index: u64 = 0;
    while index < 64
        invariant
            index <= 64,
            cell_items.len() == index,
            forall|a: int| 0 <= a < index ==> (#[trigger] cell_items@[a])@ == cell_word(*board, a),
        decreases 64 - index,
    {
        let square = 1u64 << index;
        proof {
            assert(square == sq(index as int));
            lemma_sq_and(index as int, board.blacks());
            lemma_sq_and(index as int, board.whites());
        }
        let cell = board.get_cell(square);
        let word = match cell {
            Cell::Empty => chars_of("\"empty\""),
            Cell::Black => chars_of("\"black\""),
            Cell::White => chars_of("\"white\""),
        };
        cell_items.push(word);
        index = index + 1;
    }
    proof {
        assert(views(cell_items@) =~= cell_words(*board));
    }
    let mut message_items: Vec<Vec<char>> = Vec::new();
    let mut k: usize = 0;
    while k < messages.len()
        invariant
            k <= messages.len(),
            message_items.len() == k,
            forall|a: int|
                0 <= a < k ==> (#[trigger] message_items@[a])@ == quoted(messages@[a]@),
        decreases messages.len() - k,
    {
        message_items.push(quote_item(messages[k].as_str()));
        k = k + 1;
    }
    proof {
        assert(views(message_items@) =~= string_views(messages@).map(
            |_i: int, m: Seq<char>| quoted(m),
        ));
    }
    let over = board.game_over();

    let mut out: Vec<char> = Vec::new();
    push_str(&mut out, "{");
    proof {
        assert(out@ =~= "{"@);
    }
    push_str(&mut out, "\"black\":\"");
    push_decimal(&mut out, board.bits_for(Player::Black));
    push_str(&mut out, "\",");
    push_str(&mut out, "\"white\":\"");
    push_decimal(&mut out, board.bits_for(Player::White));
    push_str(&mut out, "\",");
    push_str(&mut out, "\"currentPlayer\":\"");
    let current_name = board.current_player().name();
    push_str(&mut out, current_name.as_str());
    push_str(&mut out, "\",");
    push_str(&mut out, "\"humanPlayer\":\"");
    let human_name = human_player.name();
    push_str(&mut out, human_name.as_str());
    push_str(&mut out, "\",");
    push_str(&mut out, "\"cells\":[");
    push_joined(&mut out, &cell_items);
    push_str(&mut out, "],");
    push_str(&mut out, "\"legalMoves\":[");
    push_joined(&mut out, &legal_items);
    push_str(&mut out, "],");
    push_str(&mut out, "\"score\":{\"black\":");
    push_decimal(&mut out, black_score as u64);
    push_str(&mut out, ",\"white\":");
    push_decimal(&mut out, white_score as u64);
    push_str(&mut out, "},");
    push_str(&mut out, "\"gameOver\":");
    if over {
        push_str(&mut out, "true");
    } else {
        push_str(&mut out, "false");
    }
    push_str(&mut out, ",");
    push_str(&mut out, "\"winner\":");
    if !over {
        push_str(&mut out, "null");
    } else if black_score > white_score {
        push_str(&mut out, "\"Black\"");
    } else if white_score > black_score {
        push_str(&mut out, "\"White\"");
    } else {
        push_str(&mut out, "\"Draw\"");
    }
    push_str(&mut out, ",");
    push_str(&mut out, "\"messages\":[");
    push_joined(&mut out, &message_items);
    push_str(&mut out, "],");
    push_str(&mut out, "\"lastHumanMove\":");
    match &human_move {
        Some(coord) => {
            let item = quote_item(coord.as_str());
            let mut j: usize = 0;
            let ghost mid = out@;
            while j < item.len()
                invariant
                    j <= item.len(),
                    out@ == mid + item@.take(j as int),
                decreases item.len() - j,
            {
                out.push(item[j]);
                proof {
                    assert(item@.take(j + 1) =~= item@.take(j as int).push(item@[j as int]));
                }
                j = j + 1;
            }
            proof {
                assert(item@.take(item.len() as int) =~= item@);
            }
        },
        None => {
            push_str(&mut out, "null");
        },
    }
    push_str(&mut out, "}");
    proof {
        assert(out@ =~= board_json_text(
            *board,
            string_views(messages@),
            option_view(human_move),
            human_player,
        ));
    }
    string_from_chars(out)
}


/// `<Player> has no legal moves and passes.`
pub open spec fn pass_text(p: Player) -> Seq<char> {
    player_name(p) + " has no legal moves and passes."@
}

/// `AI played <coordinate>.`
pub open spec fn ai_text(i: int) -> Seq<char> {
    "AI played "@ + coord_chars(i) + "."@
}

/// `You played <coordinate>.`
pub open spec fn human_text(i: int) -> Seq<char> {
    "You played "@ + coord_chars(i) + "."@
}

pub open spec fn outcome_text(b: Board) -> Seq<char> {
    if popcount(b.blacks()) > popcount(b.whites()) {
        "Black wins."@
    } else if popcount(b.whites()) > popcount(b.blacks()) {
        "White wins."@
    } else {
        "The game is a draw."@
    }
}

/// `Game over. Final score: Black <n>, White <m>. <outcome>`
pub open spec fn final_text(b: Board) -> Seq<char> {
    "Game over. Final score: Black "@ + decimal(popcount(b.blacks())) + ", White "@ + decimal(
        popcount(b.whites()),
    ) + ". "@ + outcome_text(b)
}

/// The side to move `human` can play, or the game is over: the AI has nothing to do.
pub open spec fn settled(b: Board, human: Player) -> bool {
    b.is_over() || (b.turn() == human && moves_of(b.mover(), b.waiter()) != 0)
}

/// Handing turns to the AI from `b` comes back: the AI searches at least one ply, or
/// the human can move on the current discs, or the game is over.
pub open spec fn ai_turns_end(b: Board, depth: u32, human: Player) -> bool {
    depth >= 1 || b.is_over() || moves_of(b.bits_of(human), b.bits_of(human.other())) != 0
}

/// Empty squares left on the board.
pub open spec fn empties(b: Board) -> int {
    64 - popcount(b.blacks() | b.whites())
}

/// Which kind of turn comes next, for counting down the AI loop.
pub open spec fn turn_rank(b: Board, human: Player) -> int {
    if b.is_over() {
        0
    } else if b.turn() == human {
        if moves_of(b.mover(), b.waiter()) != 0 {
            0
        } else {
            3
        }
    } else if moves_of(b.mover(), b.waiter()) != 0 {
        2
    } else {
        1
    }
}

fn pass_message(p: Player) -> (s: String)
    ensures
        s@ == pass_text(p),
{
    let mut out: Vec<char> = Vec::new();
    let name = p.name();
    push_str(&mut out, name.as_str());
    push_str(&mut out, " has no legal moves and passes.");
    proof {
        assert(out@ =~= pass_text(p));
    }
    string_from_chars(out)
}

fn move_message(prefix: &str, square: u64) -> (s: String)
    ensures
        s@ == prefix@ + coord_chars(vstd::std_specs::bits::u64_trailing_zeros(square) as int) + "."@,
{
    let mut out: Vec<char> = Vec::new();
    push_str(&mut out, prefix);
    let coord = coord_from_bit(square);
    push_str(&mut out, coord.as_str());
    push_str(&mut out, ".");
    proof {
        assert(out@ =~= prefix@ + coord@ + "."@);
    }
    string_from_chars(out)
}

fn final_message(board: &Board) -> (s: String)
    ensures
        s@ == final_text(*board),
{
    let (black, white) = board.score();
    let mut out: Vec<char> = Vec::new();
    push_str(&mut out, "Game over. Final score: Black ");
    proof {
        assert(out@ =~= "Game over. Final score: Black "@);
    }
    push_decimal(&mut out, black as u64);
    push_str(&mut out, ", White ");
    push_decimal(&mut out, white as u64);
    push_str(&mut out, ". ");
    if black > white {
        push_str(&mut out, "Black wins.");
    } else if white > black {
        push_str(&mut out, "White wins.");
    } else {
        push_str(&mut out, "The game is a draw.");
    }
    string_from_chars(out)
}


/// One turn the AI loop plays from `b`, where the human cannot move now or the AI is to
/// move: a pass, with its message, when the side to move has no legal move or the AI
/// searches no plies; otherwise the AI's move, one that `best_move` may pick at `depth`.
pub open spec fn ai_step(b: Board, depth: u32, human: Player, next: Board, msg: Seq<char>) -> bool {
    &&& !settled(b, human)
    &&& if moves_of(b.mover(), b.waiter()) == 0 || depth == 0 {
        next == b.passed() && msg == pass_text(b.turn())
    } else {
        exists|m: u64|
            #[trigger] crate::engine::search_choice(b, depth, m) && next == b.after_move(m) && msg
                == ai_text(square_of(m))
    }
}

/// `boards` are the positions the AI loop passes through and `msgs` the message of each
/// turn between two of them.
pub open spec fn ai_trace(boards: Seq<Board>, msgs: Seq<Seq<char>>, depth: u32, human: Player) -> bool {
    &&& boards.len() == msgs.len() + 1
    &&& forall|k: int|
        0 <= k < msgs.len() ==> ai_step(boards[k], depth, human, boards[k + 1], #[trigger] msgs[k])
}

/// Handing the turns to the AI from `start` ends on `end`, where the human can move or the
/// game is over, after turns whose messages, and the final score when the game is over,
/// are `ms`.
pub open spec fn ai_outcome(
    start: Board,
    depth: u32,
    human: Player,
    end: Board,
    ms: Seq<Seq<char>>,
) -> bool {
    &&& settled(end, human)
    &&& exists|boards: Seq<Board>, turns: Seq<Seq<char>>|
        #[trigger] ai_trace(boards, turns, depth, human) && boards[0] == start && boards.last()
            == end && ms == turns + (if end.is_over() {
            seq![final_text(end)]
        } else {
            Seq::<Seq<char>>::empty()
        })
}

proof fn lemma_trace_push(
    boards: Seq<Board>,
    msgs: Seq<Seq<char>>,
    depth: u32,
    human: Player,
    next: Board,
    msg: Seq<char>,
)
    requires
        ai_trace(boards, msgs, depth, human),
        ai_step(boards.last(), depth, human, next, msg),
    ensures
        ai_trace(boards.push(next), msgs.push(msg), depth, human),
{
    let bs = boards.push(next);
    let ms = msgs.push(msg);
    assert forall|k: int| 0 <= k < ms.len() implies ai_step(
        bs[k],
        depth,
        human,
        bs[k + 1],
        #[trigger] ms[k],
    ) by {
        if k < msgs.len() {
            assert(ms[k] == msgs[k]);
            assert(ai_step(boards[k], depth, human, boards[k + 1], msgs[k]));
        }
    }
}

/// Plays the AI's turns (and forced passes) until the human can move or the game ends.
fn advance_ai_turns(board: Board, depth: u32, human_player: Player) -> (r: (Board, Vec<String>))
    requires
        ai_turns_end(board, depth, human_player),
    ensures
        ai_outcome(board, depth, human_player, r.0, string_views(r.1@)),
        settled(board, human_player) ==> r.0 == board && r.1@.len() == (if board.is_over() {
            1int
        } else {
            0int
        }),
{
    let ghost start = board;
    let mut board = board;
    let mut messages: Vec<String> = Vec::new();
    let mut waiting = false;
    let ghost mut boards: Seq<Board> = seq![board];
    let ghost mut turns: Seq<Seq<char>> = Seq::empty();
    proof {
        lemma_count_below_le(board.blacks() | board.whites(), 64);
        assert(string_views(messages@) =~= turns);
    }
    while !board.game_over() && !waiting
        invariant
            ai_turns_end(board, depth, human_player),
            waiting ==> settled(board, human_player),
            settled(start, human_player) ==> board == start && messages@.len() == 0,
            ai_trace(boards, turns, depth, human_player),
            boards[0] == start,
            boards.last() == board,
            string_views(messages@) == turns,
            0 <= empties(board) <= 64,
        decreases empties(board), turn_rank(board, human_player), if waiting {
            0int
        } else {
            1int
        },
    {
        let legal_moves = board.legal_moves_list();
        proof {
            crate::engine::lemma_move_list(board, legal_moves@);
        }
        let ghost before = board;
        if board.current_player() == human_player {
            if legal_moves.len() == 0 {
                let message = pass_message(human_player);
                messages.push(message);
                board = board.pass();
                proof {
                    assert(ai_step(before, depth, human_player, board, message@));
                    lemma_trace_push(boards, turns, depth, human_player, board, message@);
                    boards = boards.push(board);
                    turns = turns.push(message@);
                    assert(string_views(messages@) =~= turns);
                }
            } else {
                waiting = true;
            }
        } else if legal_moves.len() == 0 {
            let message = pass_message(board.current_player());
            messages.push(message);
            board = board.pass();
            proof {
                assert(ai_step(before, depth, human_player, board, message@));
                lemma_trace_push(boards, turns, depth, human_player, board, message@);
                boards = boards.push(board);
                turns = turns.push(message@);
                assert(string_views(messages@) =~= turns);
            }
        } else {
            match crate::engine::best_move(&board, depth) {
                Some(square) => {
                    let message = move_message("AI played ", square);
                    proof {
                        vstd::std_specs::bits::axiom_u64_trailing_zeros(square);
                        lemma_square_of(square);
                        lemma_trailing_zeros_sq(square_of(square));
                        assert(message@ == ai_text(square_of(square)));
                    }
                    messages.push(message);
                    board = board.apply_move(square);
                    proof {
                        lemma_move_shrinks(before, square, board);
                        lemma_count_below_le(board.blacks() | board.whites(), 64);
                        assert(ai_step(before, depth, human_player, board, message@));
                        lemma_trace_push(boards, turns, depth, human_player, board, message@);
                        boards = boards.push(board);
                        turns = turns.push(message@);
                        assert(string_views(messages@) =~= turns);
                    }
                },
                None => {
                    let message = pass_message(board.current_player());
                    messages.push(message);
                    board = board.pass();
                    proof {
                        assert(ai_step(before, depth, human_player, board, message@));
                        lemma_trace_push(boards, turns, depth, human_player, board, message@);
                        boards = boards.push(board);
                        turns = turns.push(message@);
                        assert(string_views(messages@) =~= turns);
                    }
                },
            }
        }
    }
    let ghost body = turns;
    if board.game_over() {
        let message = final_message(&board);
        messages.push(message);
        proof {
            assert(string_views(messages@) =~= body + seq![final_text(board)]);
        }
    } else {
        proof {
            assert(string_views(messages@) =~= body + Seq::<Seq<char>>::empty());
        }
    }
    proof {
        assert(ai_trace(boards, body, depth, human_player));
    }
    (board, messages)
}


/// A legal move leaves one empty square fewer.
proof fn lemma_move_shrinks(before: Board, square: u64, after: Board)
    requires
        crate::engine::is_legal_move(before, square),
        after.turn() == before.turn().other(),
        after.bits_of(before.turn()) == mover_after(
            before.mover(),
            before.waiter(),
            square_of(square),
        ),
        after.bits_of(before.turn().other()) == waiter_after(
            before.mover(),
            before.waiter(),
            square_of(square),
        ),
    ensures
        empties(after) == empties(before) - 1,
{
    let p = before.mover();
    let o = before.waiter();
    let s = square_of(square);
    lemma_bits_where(|m: int| is_legal(p, o, m));
    lemma_square_of(square);
    assert(is_legal(p, o, s));
    lemma_after_sets(p, o, s);
    lemma_move_fills_one(p, o, s, mover_after(p, o, s), waiter_after(p, o, s));
    lemma_or_comm(p, o);
    lemma_or_comm(mover_after(p, o, s), waiter_after(p, o, s));
}


/// The initial position with black to move.
pub open spec fn start_board() -> Board {
    Board::from_bits(0x0000_0008_1000_0000u64, 0x0000_0010_0800_0000u64, Player::Black)
}

/// Creates a new game response as a json string.
pub fn new_game_json(depth: u32, human_player: Player) -> (r: String)
    ensures
        exists|b: Board, ms: Seq<Seq<char>>|
            ai_outcome(start_board(), depth, human_player, b, ms) && r@ == #[trigger] board_json_text(
                b,
                ms,
                None,
                human_player,
            ),
        human_player == Player::Black ==> r@ == board_json_text(
            start_board(),
            Seq::empty(),
            None,
            Player::Black,
        ),
{
    let start = Board::new();
    proof {
        lemma_initial_moves();
        Board::lemma_from_bits(0x0000_0008_1000_0000u64, 0x0000_0010_0800_0000u64, Player::Black);
    }
    let (board, messages) = advance_ai_turns(start, depth, human_player);
    let r = board_json(&board, messages.as_slice(), None, human_player);
    proof {
        assert(option_view(None) == None::<Seq<char>>);
        if human_player == Player::Black {
            assert(settled(start, human_player));
            assert(string_views(messages@) =~= Seq::<Seq<char>>::empty());
        }
    }
    r
}

/// The discs of side `p` given both bitboards.
pub open spec fn side_bits(black: u64, white: u64, p: Player) -> u64 {
    match p {
        Player::Black => black,
        Player::White => white,
    }
}

/// The request names a legal move of the human, who is to move in a game still going:
/// the square played.
pub open spec fn played_square(input: MoveInput) -> Option<int> {
    let p = side_bits(input.black, input.white, input.current_player);
    let o = side_bits(input.black, input.white, input.current_player.other());
    let over = moves_of(input.black, input.white) == 0 && moves_of(input.white, input.black) == 0;
    match crate::board::coord_index(input.move_coord@) {
        Some(i) => if !over && input.current_player == input.human_player && is_legal(p, o, i) {
            Some(i)
        } else {
            None
        },
        None => None,
    }
}

/// After the human's move the AI's turns come to an end.
pub open spec fn reply_ends(input: MoveInput) -> bool {
    let p = side_bits(input.black, input.white, input.current_player);
    let o = side_bits(input.black, input.white, input.current_player.other());
    match played_square(input) {
        Some(i) => {
            let np = mover_after(p, o, i);
            let no = waiter_after(p, o, i);
            input.depth >= 1 || moves_of(np, no) != 0 || moves_of(no, np) == 0
        },
        None => true,
    }
}

/// Applies a human move and returns the updated game response as a json string.
pub fn move_json(input: MoveInput) -> (r: Result<String, String>)
    requires
        reply_ends(input),
    ensures
        ({
            let b = Board::from_bits(input.black, input.white, input.current_player);
            let p = side_bits(input.black, input.white, input.current_player);
            let o = side_bits(input.black, input.white, input.current_player.other());
            if b.is_over() {
                r matches Ok(s) && s@ == board_json_text(
                    b,
                    seq!["The game is already over."@],
                    None,
                    input.human_player,
                )
            } else if input.current_player != input.human_player {
                r matches Err(e) && e@ == "It is not the human player's turn."@
            } else {
                match crate::board::coord_index(input.move_coord@) {
                    None => r matches Err(e) && e@ == "Move must be a coordinate like d3"@,
                    Some(i) => if !is_legal(p, o, i) {
                        r matches Err(e) && e@ == input.move_coord@
                            + " is not legal in this position."@
                    } else {
                        r matches Ok(s) && exists|after: Board, ms: Seq<Seq<char>>|
                            ai_outcome(
                                b.after_move(sq(i)),
                                input.depth,
                                input.human_player,
                                after,
                                ms,
                            ) && s@ == #[trigger] board_json_text(
                                after,
                                seq![human_text(i)] + ms,
                                Some(coord_chars(i)),
                                input.human_player,
                            )
                    },
                }
            }
        }),
{
    let board = Board::from_parts(input.black, input.white, input.current_player);
    let ghost p = side_bits(input.black, input.white, input.current_player);
    let ghost o = side_bits(input.black, input.white, input.current_player.other());
    if board.game_over() {
        let mut messages: Vec<String> = Vec::new();
        messages.push("The game is already over.".to_owned());
        let r = board_json(&board, messages.as_slice(), None, input.human_player);
        proof {
            assert(string_views(messages@) =~= seq!["The game is already over."@]);
        }
        return Ok(r);
    }
    if board.current_player() != input.human_player {
        return Err("It is not the human player's turn.".to_owned());
    }
    let square = match crate::board::bit_from_coord(input.move_coord.as_str()) {
        Some(square) => square,
        None => {
            return Err("Move must be a coordinate like d3".to_owned());
        },
    };
    let ghost i = crate::board::coord_index(input.move_coord@)->0;
    let legal_mask = board.legal_moves(board.player_bits(), board.opponent_bits());
    proof {
        assert(0 <= i < 64);
        lemma_sq_and(i, legal_mask);
        lemma_bits_where(|m: int| is_legal(p, o, m));
    }
    if square & legal_mask == 0 {
        let mut text: Vec<char> = Vec::new();
        push_str(&mut text, input.move_coord.as_str());
        push_str(&mut text, " is not legal in this position.");
        proof {
            assert(text@ =~= input.move_coord@ + " is not legal in this position."@);
        }
        return Err(string_from_chars(text));
    }
    proof {
        lemma_sq_is_square(i);
        lemma_trailing_zeros_sq(i);
    }
    let mut messages: Vec<String> = Vec::new();
    messages.push(move_message("You played ", square));
    let after = board.apply_move(square);
    proof {
        lemma_after_sets(p, o, i);
        Board::lemma_from_bits(input.black, input.white, input.current_player);
        assert(after.bits_of(input.human_player) == mover_after(p, o, i));
        assert(after.bits_of(input.human_player.other()) == waiter_after(p, o, i));
    }
    let (after, mut ai_messages) = advance_ai_turns(after, input.depth, input.human_player);
    let ghost first = messages@;
    let ghost replies = string_views(ai_messages@);
    messages.append(&mut ai_messages);
    let coord = coord_from_bit(square);
    let r = board_json(&after, messages.as_slice(), Some(coord), input.human_player);
    proof {
        assert(string_views(messages@) =~= seq![human_text(i)] + replies);
    }
    Ok(r)
}


/// Tells whether `move_json` comes back on this request: it does unless the AI, told
/// to search no plies, would keep passing while the human has no move after their own.
pub fn ai_reply_ends(input: &MoveInput) -> (r: bool)
    ensures
        r == reply_ends(*input),
{
    if input.depth >= 1 {
        return true;
    }
    let board = Board::from_parts(input.black, input.white, input.current_player);
    let ghost p = side_bits(input.black, input.white, input.current_player);
    let ghost o = side_bits(input.black, input.white, input.current_player.other());
    if board.game_over() || board.current_player() != input.human_player {
        return true;
    }
    let square = match crate::board::bit_from_coord(input.move_coord.as_str()) {
        Some(square) => square,
        None => {
            return true;
        },
    };
    let ghost i = crate::board::coord_index(input.move_coord@)->0;
    let legal_mask = board.legal_moves(board.player_bits(), board.opponent_bits());
    proof {
        lemma_sq_and(i, legal_mask);
        lemma_bits_where(|m: int| is_legal(p, o, m));
    }
    if square & legal_mask == 0 {
        return true;
    }
    proof {
        lemma_sq_is_square(i);
    }
    let after = board.apply_move(square);
    let np = after.bits_for(input.human_player);
    let no = after.bits_for(input.human_player.opponent());
    board.legal_moves(np, no) != 0 || board.legal_moves(no, np) == 0
}

} // verus!
