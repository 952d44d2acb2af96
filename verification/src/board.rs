//! Bitboard board state, legal move generation and move application.
use vstd::prelude::*;

use crate::bits::{
    bit, bits_where, count_ones, is_dir, is_square, lemma_bit_and, lemma_bit_ext, lemma_bit_none,
    lemma_bit_not, lemma_bit_or, lemma_bit_zero, lemma_bits_where, lemma_count_add,
    lemma_lowest_bit, lemma_ray_short, lemma_ray_succ, lemma_run_len, lemma_run_len_opp,
    lemma_shift_east, lemma_shift_north, lemma_shift_north_east, lemma_shift_north_west,
    lemma_shift_south, lemma_shift_south_east, lemma_shift_south_west, lemma_shift_west,
    lemma_square_of, lemma_squares_below_gap, lemma_step_inverse, opposite, popcount, ray, run_len,
    shifted, sq, square_of, squares, squares_below, step,
};
use crate::text::{
    ascii_lower, chars_of, lemma_char_u32, string_from_chars, to_ascii_lower, trim, trimmed,
};

verus! {

/// The contents of a single board cell.
#[derive(Debug, Clone, Copy, PartialEq, Eq, Structural)]
pub enum Cell {
    /// No disc occupies the square.
    Empty,
    /// A black disc occupies the square.
    Black,
    /// A white disc occupies the square.
    White,
}

/// The side to move.
#[derive(Debug, Clone, Copy, PartialEq, Eq, Structural)]
pub enum Player {
    /// Black moves first in Reversi.
    Black,
    /// White moves second.
    White,
}

/// The name of a player as shown to people.
pub open spec fn player_name(p: Player) -> Seq<char> {
    match p {
        Player::Black => "Black"@,
        Player::White => "White"@,
    }
}

impl Player {
    /// The player's name, `Black` or `White`.
    pub fn name(self) -> (s: String)
        ensures
            s@ == player_name(self),
    {
        match self {
            Player::Black => "Black".to_owned(),
            Player::White => "White".to_owned(),
        }
    }

    pub open spec fn other(self) -> Player {
        match self {
            Player::Black => Player::White,
            Player::White => Player::Black,
        }
    }

    /// Returns the opposing player.
    pub fn opponent(self) -> (r: Player)
        ensures
            r == self.other(),
    {
        match self {
            Player::Black => Player::White,
            Player::White => Player::Black,
        }
    }
}

/// `m` is empty and a disc placed there by the owner of `p` traps `j` discs of `o`
/// in direction `d`, closed off by a disc of `p`.
pub open spec fn brackets(p: u64, o: u64, m: int, d: int, j: nat) -> bool {
    &&& 1 <= j
    &&& forall|t: nat| 1 <= t <= j ==> #[trigger] bit(o, ray(m, d, t))
    &&& bit(p, ray(m, d, j + 1))
}

/// A legal move for the owner of `p` against `o`: an empty square that traps
/// at least one disc of `o` in some direction.
pub open spec fn is_legal(p: u64, o: u64, m: int) -> bool {
    &&& 0 <= m < 64
    &&& !bit(p, m)
    &&& !bit(o, m)
    &&& exists|d: int, j: nat| is_dir(d) && #[trigger] brackets(p, o, m, d, j)
}

/// `r` holds exactly the legal moves of `p` against `o`.
pub open spec fn legal_set(p: u64, o: u64, r: u64) -> bool {
    forall|m: int| 0 <= m < 64 ==> #[trigger] bit(r, m) == is_legal(p, o, m)
}

/// `c` holds a disc of `o` that starts a line of `j` discs of `o` in direction `d`
/// ending at a disc of `p`.
pub open spec fn chain(p: u64, o: u64, c: int, d: int, j: nat) -> bool {
    &&& forall|t: nat| t < j ==> #[trigger] bit(o, ray(c, d, t))
    &&& bit(p, ray(c, d, j))
}

/// Square `i` turns over in direction `d` when the mover of `p` plays on `s`: it lies in
/// the unbroken line of `o` discs that starts next to `s`, and the square just past
/// that line holds a disc of `p`.
pub open spec fn flipped_line(p: u64, o: u64, s: int, d: int, i: int) -> bool {
    let k = run_len(o, step(s, d), d, 8);
    &&& bit(p, ray(s, d, k + 1))
    &&& exists|t: nat| 1 <= t <= k && i == #[trigger] ray(s, d, t)
}

/// Square `i` turns over in some direction when the mover of `p` plays on `s`.
pub open spec fn flipped(p: u64, o: u64, s: int, i: int) -> bool {
    exists|d: int| is_dir(d) && #[trigger] flipped_line(p, o, s, d, i)
}

/// The bitboard of all legal moves of `p` against `o`.
pub open spec fn moves_of(p: u64, o: u64) -> u64 {
    bits_where(|m: int| is_legal(p, o, m))
}

pub proof fn lemma_moves_of(p: u64, o: u64, r: u64)
    requires
        legal_set(p, o, r),
    ensures
        r == moves_of(p, o),
{
    let c = moves_of(p, o);
    lemma_bits_where(|m: int| is_legal(p, o, m));
    assert forall|i: int| 0 <= i < 64 implies bit(r, i) == bit(c, i) by {}
    lemma_bit_ext(r, c);
}

/// `r` holds the discs of the side that moved, after it plays on `s`: its old discs,
/// the new disc, and the discs it turned over.
pub open spec fn mover_after_set(p: u64, o: u64, s: int, r: u64) -> bool {
    forall|i: int| 0 <= i < 64 ==> #[trigger] bit(r, i) == (bit(p, i) || i == s || flipped(p, o, s, i))
}

/// `r` holds the discs of the other side after the mover of `p` plays on `s`: its old
/// discs minus those turned over.
pub open spec fn waiter_after_set(p: u64, o: u64, s: int, r: u64) -> bool {
    forall|i: int| 0 <= i < 64 ==> #[trigger] bit(r, i) == (bit(o, i) && !flipped(p, o, s, i))
}

pub open spec fn mover_after_pred(p: u64, o: u64, s: int) -> spec_fn(int) -> bool {
    |i: int| bit(p, i) || i == s || flipped(p, o, s, i)
}

pub open spec fn waiter_after_pred(p: u64, o: u64, s: int) -> spec_fn(int) -> bool {
    |i: int| bit(o, i) && !flipped(p, o, s, i)
}

pub open spec fn mover_after(p: u64, o: u64, s: int) -> u64 {
    bits_where(mover_after_pred(p, o, s))
}

pub open spec fn waiter_after(p: u64, o: u64, s: int) -> u64 {
    bits_where(waiter_after_pred(p, o, s))
}

/// The discs after a move satisfy their defining properties.
pub proof fn lemma_after_sets(p: u64, o: u64, s: int)
    ensures
        mover_after_set(p, o, s, mover_after(p, o, s)),
        waiter_after_set(p, o, s, waiter_after(p, o, s)),
{
    lemma_bits_where(mover_after_pred(p, o, s));
    lemma_bits_where(waiter_after_pred(p, o, s));
}

/// A Reversi board represented by two 64-bit bitboards and a side to move.
#[derive(Debug, Clone, Copy, PartialEq, Eq, Structural)]
pub struct Board {
    /// All black discs.
    pub black: u64,
    /// All white discs.
    pub white: u64,
    current_player: Player,
}

impl Board {
    /// The side to move.
    pub closed spec fn turn(self) -> Player {
        self.current_player
    }

    /// The board with the given discs and side to move.
    pub closed spec fn from_bits(black: u64, white: u64, turn: Player) -> Board {
        Board { black, white, current_player: turn }
    }

    pub proof fn lemma_from_bits(black: u64, white: u64, turn: Player)
        ensures
            Board::from_bits(black, white, turn).blacks() == black,
            Board::from_bits(black, white, turn).whites() == white,
            Board::from_bits(black, white, turn).turn() == turn,
    {
    }

    /// Two boards with the same discs and the same side to move are the same board.
    pub proof fn lemma_ext(a: Board, b: Board)
        requires
            a.blacks() == b.blacks(),
            a.whites() == b.whites(),
            a.turn() == b.turn(),
        ensures
            a == b,
    {
    }

    /// Every board is the board built from its own discs and side to move.
    pub proof fn lemma_from_own_bits(b: Board)
        ensures
            Board::from_bits(b.blacks(), b.whites(), b.turn()) == b,
    {
    }

    /// The board after the side to move passes.
    pub open spec fn passed(self) -> Board {
        Board::from_bits(self.blacks(), self.whites(), self.turn().other())
    }

    /// The board after the side to move plays on `square`.
    pub open spec fn after_move(self, square: u64) -> Board {
        let p = self.mover();
        let o = self.waiter();
        let s = square_of(square);
        match self.turn() {
            Player::Black => Board::from_bits(
                mover_after(p, o, s),
                waiter_after(p, o, s),
                Player::White,
            ),
            Player::White => Board::from_bits(
                waiter_after(p, o, s),
                mover_after(p, o, s),
                Player::Black,
            ),
        }
    }

    /// Black's discs: the value of the public field `black`. (Verus lets no contract
    /// outside this module name the field itself, since `Board` has a private field.)
    pub closed spec fn blacks(self) -> u64 {
        self.black
    }

    /// White's discs: the value of the public field `white`.
    pub closed spec fn whites(self) -> u64 {
        self.white
    }

    pub open spec fn bits_of(self, p: Player) -> u64 {
        match p {
            Player::Black => self.blacks(),
            Player::White => self.whites(),
        }
    }

    /// Discs of the side to move.
    pub open spec fn mover(self) -> u64 {
        self.bits_of(self.turn())
    }

    /// Discs of the side not to move.
    pub open spec fn waiter(self) -> u64 {
        self.bits_of(self.turn().other())
    }

    /// Creates the standard initial Reversi position with Black to move.
    pub fn new() -> (b: Self)
        ensures
            b.blacks() == 0x0000_0008_1000_0000u64,
            b.whites() == 0x0000_0010_0800_0000u64,
            b.turn() == Player::Black,
            b == Board::from_bits(0x0000_0008_1000_0000u64, 0x0000_0010_0800_0000u64, Player::Black),
    {
        let black = (1u64 << 28u64) | (1u64 << 35u64);
        let white = (1u64 << 27u64) | (1u64 << 36u64);
        assert(black == 0x0000_0008_1000_0000u64) by (bit_vector)
            requires
                black == (1u64 << 28u64) | (1u64 << 35u64),
        ;
        assert(white == 0x0000_0010_0800_0000u64) by (bit_vector)
            requires
                white == (1u64 << 27u64) | (1u64 << 36u64),
        ;
        Self { black, white, current_player: Player::Black }
    }

    /// Creates a board from explicit bitboards and the current player.
    pub fn from_parts(black: u64, white: u64, current_player: Player) -> (b: Self)
        ensures
            b.blacks() == black,
            b.whites() == white,
            b.turn() == current_player,
            b == Board::from_bits(black, white, current_player),
    {
        Self { black, white, current_player }
    }

    /// Returns whose turn it is.
    pub fn current_player(&self) -> (p: Player)
        ensures
            p == self.turn(),
    {
        self.current_player
    }

    /// Returns the bitboard for the side to move.
    pub fn player_bits(&self) -> (r: u64)
        ensures
            r == self.mover(),
    {
        self.bits_for(self.current_player)
    }

    /// Returns the bitboard for the side not to move.
    pub fn opponent_bits(&self) -> (r: u64)
        ensures
            r == self.waiter(),
    {
        self.bits_for(self.current_player.opponent())
    }

    /// Returns the bitboard for the requested player.
    pub fn bits_for(&self, player: Player) -> (r: u64)
        ensures
            r == self.bits_of(player),
    {
        match player {
            Player::Black => self.black,
            Player::White => self.white,
        }
    }

    /// Returns the contents of a square represented as a one-bit bitboard.
    pub fn get_cell(&self, sq: u64) -> (c: Cell)
        ensures
            c == (if self.blacks() & sq != 0 {
                Cell::Black
            } else if self.whites() & sq != 0 {
                Cell::White
            } else {
                Cell::Empty
            }),
    {
        if self.black & sq != 0 {
            Cell::Black
        } else if self.white & sq != 0 {
            Cell::White
        } else {
            Cell::Empty
        }
    }

    /// Returns all legal move squares for the given player and opponent bitboards.
    pub fn legal_moves(&self, player: u64, opponent: u64) -> (moves: u64)
        ensures
            legal_set(player, opponent, moves),
            moves == moves_of(player, opponent),
    {
        let empty = !(player | opponent);
        let mut moves: u64 = 0;
        let mut d: usize = 0;
        proof {
            assert forall|m: int| 0 <= m < 64 implies !#[trigger] bit(moves, m) by {
                lemma_bit_zero(m);
            }
        }
        while d < 8
            invariant
                d <= 8,
                empty == !(player | opponent),
                forall|m: int|
                    0 <= m < 64 ==> #[trigger] bit(moves, m) == (!bit(player, m) && !bit(
                        opponent,
                        m,
                    ) && exists|dd: int, j: nat|
                        0 <= dd < d && #[trigger] brackets(player, opponent, m, opposite(dd), j)),
            decreases 8 - d,
        {
            let found = legal_in_direction(player, opponent, empty, d);
            let ghost old_moves = moves;
            moves = moves | found;
            assert forall|m: int| 0 <= m < 64 implies #[trigger] bit(moves, m) == (!bit(player, m)
                && !bit(opponent, m) && exists|dd: int, j: nat|
                0 <= dd < d + 1 && #[trigger] brackets(player, opponent, m, opposite(dd), j)) by {
                lemma_bit_or(old_moves, found, m);
                lemma_bit_not(player | opponent, m);
                lemma_bit_or(player, opponent, m);
                if !bit(player, m) && !bit(opponent, m) && exists|dd: int, j: nat|
                    0 <= dd < d + 1 && #[trigger] brackets(player, opponent, m, opposite(dd), j) {
                    let (dd, j) = choose|dd: int, j: nat|
                        0 <= dd < d + 1 && #[trigger] brackets(
                            player,
                            opponent,
                            m,
                            opposite(dd),
                            j,
                        );
                    if dd < d {
                        assert(bit(old_moves, m));
                    } else {
                        assert(bit(found, m));
                    }
                }
            }
            d = d + 1;
        }
        proof {
            assert forall|m: int| 0 <= m < 64 implies #[trigger] bit(moves, m) == is_legal(
                player,
                opponent,
                m,
            ) by {
                if is_legal(player, opponent, m) {
                    let (e, j) = choose|e: int, j: nat|
                        is_dir(e) && #[trigger] brackets(player, opponent, m, e, j);
                    assert(brackets(player, opponent, m, opposite(opposite(e)), j));
                }
            }
            lemma_moves_of(player, opponent, moves);
        }
        moves
    }

    /// Returns legal moves for the current player, each as a one-bit bitboard.
    pub fn legal_moves_list(&self) -> (list: Vec<u64>)
        ensures
            list@ == squares(moves_of(self.mover(), self.waiter())),
    {
        bits_to_list(self.legal_moves(self.player_bits(), self.opponent_bits()))
    }

    /// Applies a legal move for the current player and returns the resulting board.
    pub fn apply_move(&self, square: u64) -> (next: Self)
        requires
            is_square(square),
        ensures
            next.turn() == self.turn().other(),
            forall|i: int|
                0 <= i < 64 ==> #[trigger] bit(next.bits_of(self.turn()), i) == (bit(
                    self.mover(),
                    i,
                ) || i == square_of(square) || flipped(
                    self.mover(),
                    self.waiter(),
                    square_of(square),
                    i,
                )),
            forall|i: int|
                0 <= i < 64 ==> #[trigger] bit(next.bits_of(self.turn().other()), i) == (bit(
                    self.waiter(),
                    i,
                ) && !flipped(self.mover(), self.waiter(), square_of(square), i)),
            next.bits_of(self.turn()) == mover_after(self.mover(), self.waiter(), square_of(square)),
            next.bits_of(self.turn().other()) == waiter_after(
                self.mover(),
                self.waiter(),
                square_of(square),
            ),
            next == self.after_move(square),
    {
        let player = self.player_bits();
        let opponent = self.opponent_bits();
        let ghost s = square_of(square);
        let mut flips: u64 = 0;
        let mut d: usize = 0;
        proof {
            lemma_square_of(square);
            assert forall|i: int| 0 <= i < 64 implies !#[trigger] bit(flips, i) by {
                lemma_bit_zero(i);
            }
        }
        while d < 8
            invariant
                d <= 8,
                is_square(square),
                s == square_of(square),
                forall|i: int|
                    0 <= i < 64 ==> #[trigger] bit(flips, i) == exists|dd: int|
                        0 <= dd < d && #[trigger] flipped_line(player, opponent, s, dd, i),
            decreases 8 - d,
        {
            let line = flips_in_direction(square, player, opponent, d);
            let ghost prev = flips;
            flips = flips | line;
            assert forall|i: int| 0 <= i < 64 implies #[trigger] bit(flips, i) == exists|dd: int|
                0 <= dd < d + 1 && #[trigger] flipped_line(player, opponent, s, dd, i) by {
                lemma_bit_or(prev, line, i);
                if exists|dd: int|
                    0 <= dd < d + 1 && #[trigger] flipped_line(player, opponent, s, dd, i) {
                    let dd = choose|dd: int|
                        0 <= dd < d + 1 && #[trigger] flipped_line(player, opponent, s, dd, i);
                    if dd < d {
                        assert(bit(prev, i));
                    }
                }
            }
            d = d + 1;
        }
        let new_player = player | square | flips;
        let new_opponent = opponent & !flips;
        proof {
            assert forall|i: int| 0 <= i < 64 implies #[trigger] bit(new_player, i) == (bit(player, i)
                || i == s || flipped(player, opponent, s, i)) by {
                lemma_bit_or(player | square, flips, i);
                lemma_bit_or(player, square, i);
            }
            assert forall|i: int| 0 <= i < 64 implies #[trigger] bit(new_opponent, i) == (bit(
                opponent,
                i,
            ) && !flipped(player, opponent, s, i)) by {
                lemma_bit_and(opponent, !flips, i);
                lemma_bit_not(flips, i);
            }
            assert(mover_after_set(player, opponent, s, new_player));
            assert(waiter_after_set(player, opponent, s, new_opponent));
            lemma_after_sets(player, opponent, s);
            let ma = mover_after(player, opponent, s);
            let wa = waiter_after(player, opponent, s);
            assert(forall|i: int| 0 <= i < 64 ==> #[trigger] bit(ma, i) == (bit(player, i) || i == s
                || flipped(player, opponent, s, i)));
            assert(forall|i: int| 0 <= i < 64 ==> #[trigger] bit(wa, i) == (bit(opponent, i)
                && !flipped(player, opponent, s, i)));
            assert forall|i: int| 0 <= i < 64 implies bit(new_player, i) == bit(ma, i) by {}
            assert forall|i: int| 0 <= i < 64 implies bit(new_opponent, i) == bit(wa, i) by {}
            lemma_bit_ext(new_player, ma);
            lemma_bit_ext(new_opponent, wa);
        }
        let mut next = *self;
        match self.current_player {
            Player::Black => {
                next.black = new_player;
                next.white = new_opponent;
            },
            Player::White => {
                next.white = new_player;
                next.black = new_opponent;
            },
        }
        next.current_player = self.current_player.opponent();
        next
    }

    /// Returns a board with only the side to move switched.
    pub fn pass(&self) -> (next: Self)
        ensures
            next.blacks() == self.blacks(),
            next.whites() == self.whites(),
            next.turn() == self.turn().other(),
            next == self.passed(),
    {
        let mut next = *self;
        next.current_player = self.current_player.opponent();
        next
    }

    /// Neither side has a legal move.
    pub open spec fn is_over(self) -> bool {
        moves_of(self.blacks(), self.whites()) == 0 && moves_of(self.whites(), self.blacks()) == 0
    }

    /// Returns true when neither side has any legal move.
    pub fn game_over(&self) -> (r: bool)
        ensures
            r == self.is_over(),
    {
        self.legal_moves(self.black, self.white) == 0 && self.legal_moves(self.white, self.black)
            == 0
    }

    /// Returns the current disc counts as `(black_count, white_count)`.
    pub fn score(&self) -> (r: (u32, u32))
        ensures
            r.0 == popcount(self.blacks()),
            r.1 == popcount(self.whites()),
            r.0 <= 64,
            r.1 <= 64,
    {
        (count_ones(self.black), count_ones(self.white))
    }

    /// Returns the number of occupied squares.
    pub fn occupied_count(&self) -> (r: u32)
        ensures
            r == popcount(self.blacks() | self.whites()),
            r <= 64,
    {
        count_ones(self.black | self.white)
    }
}

/// Shifts a bitboard one rank toward the top of the displayed board.
pub fn shift_north(bits: u64) -> (r: u64)
    ensures
        shifted(bits, r, 0),
{
    proof {
        lemma_shift_north(bits);
    }
    bits >> 8u64
}

/// Shifts a bitboard one rank toward the bottom of the displayed board.
pub fn shift_south(bits: u64) -> (r: u64)
    ensures
        shifted(bits, r, 1),
{
    proof {
        lemma_shift_south(bits);
    }
    bits << 8u64
}

/// Shifts a bitboard one file to the right with edge wrap prevented.
pub fn shift_east(bits: u64) -> (r: u64)
    ensures
        shifted(bits, r, 2),
{
    proof {
        lemma_shift_east(bits);
    }
    (bits & 0x7f7f7f7f7f7f7f7fu64) << 1u64
}

/// Shifts a bitboard one file to the left with edge wrap prevented.
pub fn shift_west(bits: u64) -> (r: u64)
    ensures
        shifted(bits, r, 3),
{
    proof {
        lemma_shift_west(bits);
    }
    (bits & 0xfefefefefefefefeu64) >> 1u64
}

/// Shifts a bitboard diagonally up and right with edge wrap prevented.
pub fn shift_north_east(bits: u64) -> (r: u64)
    ensures
        shifted(bits, r, 4),
{
    proof {
        lemma_shift_north_east(bits);
    }
    (bits & 0x7f7f7f7f7f7f7f7fu64) >> 7u64
}

/// Shifts a bitboard diagonally up and left with edge wrap prevented.
pub fn shift_north_west(bits: u64) -> (r: u64)
    ensures
        shifted(bits, r, 5),
{
    proof {
        lemma_shift_north_west(bits);
    }
    (bits & 0xfefefefefefefefeu64) >> 9u64
}

/// Shifts a bitboard diagonally down and right with edge wrap prevented.
pub fn shift_south_east(bits: u64) -> (r: u64)
    ensures
        shifted(bits, r, 6),
{
    proof {
        lemma_shift_south_east(bits);
    }
    (bits & 0x7f7f7f7f7f7f7f7fu64) << 9u64
}

/// Shifts a bitboard diagonally down and left with edge wrap prevented.
pub fn shift_south_west(bits: u64) -> (r: u64)
    ensures
        shifted(bits, r, 7),
{
    proof {
        lemma_shift_south_west(bits);
    }
    (bits & 0xfefefefefefefefeu64) << 7u64
}

/// The square named by a coordinate such as `d3`: surrounding whitespace is ignored,
/// the file letter may be upper or lower case.
pub open spec fn coord_index(s: Seq<char>) -> Option<int> {
    let t = trim(s);
    if t.len() == 2 && 'a' <= ascii_lower(t[0]) <= 'h' && '1' <= t[1] <= '8' {
        Some((t[1] as int - '1' as int) * 8 + (ascii_lower(t[0]) as int - 'a' as int))
    } else {
        None
    }
}

/// The coordinate of square `i`: file letter then rank digit.
pub open spec fn coord_chars(i: int) -> Seq<char> {
    seq![('a' as int + i % 8) as char, ('1' as int + i / 8) as char]
}

/// Converts a coordinate such as `d3` into a one-bit bitboard square.
pub fn bit_from_coord(input: &str) -> (r: Option<u64>)
    ensures
        r == (match coord_index(input@) {
            Some(i) => Some(sq(i)),
            None => None,
        }),
{
    let all = chars_of(input);
    let t = trimmed(&all);
    if t.len() != 2 {
        return None;
    }
    let file = to_ascii_lower(t[0]);
    let rank = t[1];
    let f = file as u32;
    let k = rank as u32;
    if !(97 <= f && f <= 104) || !(49 <= k && k <= 56) {
        return None;
    }
    let col = (f - 97) as u64;
    let row = (k - 49) as u64;
    proof {
        let tt = trim(input@);
        assert(tt == t@);
        assert(f as int == ascii_lower(tt[0]) as int);
        lemma_char_u32(rank);
        lemma_char_u32(file);
        assert(k as int == tt[1] as int);
        assert('a' <= ascii_lower(tt[0]) <= 'h' && '1' <= tt[1] <= '8');
        assert(coord_index(input@) == Some((row * 8 + col) as int));
    }
    Some(1u64 << (row * 8 + col))
}

/// Converts a one-bit bitboard square into a coordinate such as `d3`.
pub fn coord_from_bit(square: u64) -> (s: String)
    ensures
        s@ == coord_chars(vstd::std_specs::bits::u64_trailing_zeros(square) as int),
{
    let index = square.trailing_zeros();
    proof {
        vstd::std_specs::bits::axiom_u64_trailing_zeros(square);
    }
    let row = index / 8;
    let col = index % 8;
    let file = (97 + col) as u8 as char;
    let rank = (49 + row) as u8 as char;
    let mut v: Vec<char> = Vec::new();
    v.push(file);
    v.push(rank);
    proof {
        assert(v@ =~= coord_chars(index as int));
    }
    string_from_chars(v)
}

/// Converts all set bits into individual one-bit bitboards.
pub fn bits_to_list(bits: u64) -> (list: Vec<u64>)
    ensures
        list@ == squares(bits),
{
    let ghost orig = bits;
    let mut bits = bits;
    let mut list: Vec<u64> = Vec::new();
    let ghost mut lo: nat = 0;
    while bits != 0
        invariant
            lo <= 64,
            list@ == squares_below(orig, lo),
            forall|i: int| 0 <= i < 64 ==> #[trigger] bit(bits, i) == (bit(orig, i) && i >= lo),
        decreases 64 - lo,
    {
        let neg = 0u64.wrapping_sub(bits);
        let square = bits & neg;
        let ghost z = vstd::std_specs::bits::u64_trailing_zeros(bits) as int;
        proof {
            lemma_lowest_bit(bits, neg);
            assert(z >= lo) by {
                if z < lo {
                    assert(bit(bits, z));
                }
            }
            assert forall|i: int| lo <= i < z implies !#[trigger] bit(orig, i) by {
                assert(bit(bits, i) == (bit(orig, i) && i >= lo));
            }
            lemma_squares_below_gap(orig, lo, z as nat);
            assert(bit(orig, z));
        }
        list.push(square);
        let ghost prev = bits;
        bits = bits & (bits - 1);
        proof {
            assert(squares_below(orig, (z + 1) as nat) == squares_below(orig, z as nat).push(sq(z)));
            lo = (z + 1) as nat;
            assert forall|i: int| 0 <= i < 64 implies #[trigger] bit(bits, i) == (bit(orig, i) && i
                >= lo) by {
                assert(bit(prev, i) == (bit(orig, i) && i >= z));
            }
        }
    }
    proof {
        assert forall|i: int| lo <= i < 64 implies !#[trigger] bit(orig, i) by {
            lemma_bit_zero(i);
            assert(bit(bits, i) == (bit(orig, i) && i >= lo));
        }
        lemma_squares_below_gap(orig, lo, 64);
    }
    list
}

/// Shifts a bitboard one square in direction `d` (north, south, east, west,
/// north-east, north-west, south-east, south-west).
fn shift(bits: u64, d: usize) -> (r: u64)
    requires
        d < 8,
    ensures
        shifted(bits, r, d as int),
{
    match d {
        0 => shift_north(bits),
        1 => shift_south(bits),
        2 => shift_east(bits),
        3 => shift_west(bits),
        4 => shift_north_east(bits),
        5 => shift_north_west(bits),
        6 => shift_south_east(bits),
        _ => shift_south_west(bits),
    }
}

/// Empty squares from which a move traps discs looking back against direction `d`.
fn legal_in_direction(player: u64, opponent: u64, empty: u64, d: usize) -> (r: u64)
    requires
        d < 8,
        empty == !(player | opponent),
    ensures
        forall|m: int|
            0 <= m < 64 ==> #[trigger] bit(r, m) == (!bit(player, m) && !bit(opponent, m)
                && exists|j: nat| #[trigger] brackets(player, opponent, m, opposite(d as int), j)),
{
    let ghost e = opposite(d as int);
    let first = shift(player, d);
    let mut candidates = first & opponent;
    proof {
        assert forall|c: int| 0 <= c < 64 implies #[trigger] bit(candidates, c) == exists|j: nat|
            1 <= j <= 1 && #[trigger] chain(player, opponent, c, e, j) by {
            lemma_bit_and(first, opponent, c);
            assert(ray(c, e, 0) == c);
            assert(ray(c, e, 1) == step(c, e)) by {
                lemma_ray_succ(c, e, 0);
            }
            if bit(candidates, c) {
                assert(chain(player, opponent, c, e, 1));
            }
        }
    }
    let mut k: usize = 0;
    while k < 5
        invariant
            d < 8,
            e == opposite(d as int),
            k <= 5,
            forall|c: int|
                0 <= c < 64 ==> #[trigger] bit(candidates, c) == exists|j: nat|
                    1 <= j <= k + 1 && #[trigger] chain(player, opponent, c, e, j),
        decreases 5 - k,
    {
        let moved = shift(candidates, d);
        let grown = moved & opponent;
        let ghost prev = candidates;
        candidates = candidates | grown;
        proof {
            assert forall|c: int| 0 <= c < 64 implies #[trigger] bit(candidates, c) == exists|
                j: nat,
            |
                1 <= j <= k + 2 && #[trigger] chain(player, opponent, c, e, j) by {
                lemma_bit_or(prev, grown, c);
                lemma_bit_and(moved, opponent, c);
                let n = step(c, e);
                lemma_chain_shift(player, opponent, c, e);
                if bit(grown, c) {
                    assert(bit(prev, n));
                    let j = choose|j: nat|
                        1 <= j <= k + 1 && #[trigger] chain(player, opponent, n, e, j);
                    assert(chain(player, opponent, c, e, j + 1));
                }
                if exists|j: nat| 1 <= j <= k + 2 && #[trigger] chain(player, opponent, c, e, j) {
                    let j = choose|j: nat|
                        1 <= j <= k + 2 && #[trigger] chain(player, opponent, c, e, j);
                    if j == k + 2 {
                        assert(chain(player, opponent, c, e, ((j - 1) as nat) + 1));
                        assert(chain(player, opponent, n, e, (j - 1) as nat));
                        assert(ray(n, e, 0) == n);
                        assert(bit(opponent, ray(n, e, 0)));
                        assert(0 <= n < 64);
                        assert(bit(prev, n));
                        assert(bit(grown, c));
                    } else {
                        assert(bit(prev, c));
                    }
                }
            }
        }
        k = k + 1;
    }
    let last = shift(candidates, d);
    let r = last & empty;
    proof {
        assert forall|m: int| 0 <= m < 64 implies #[trigger] bit(r, m) == (!bit(player, m)
            && !bit(opponent, m) && exists|j: nat| #[trigger] brackets(player, opponent, m, e, j)) by {
            lemma_bit_and(last, empty, m);
            lemma_bit_not(player | opponent, m);
            lemma_bit_or(player, opponent, m);
            let n = step(m, e);
            lemma_brackets_chain(player, opponent, m, e);
            if exists|j: nat| #[trigger] brackets(player, opponent, m, e, j) {
                let j = choose|j: nat| #[trigger] brackets(player, opponent, m, e, j);
                assert(chain(player, opponent, n, e, j));
                assert(ray(n, e, 0) == n);
                assert(bit(opponent, ray(n, e, 0)));
                lemma_ray_short(m, e, j + 1);
                assert(0 <= n < 64);
                assert(bit(candidates, n));
            }
            if bit(r, m) {
                assert(bit(candidates, n));
                let j = choose|j: nat| 1 <= j <= 6 && #[trigger] chain(player, opponent, n, e, j);
                assert(brackets(player, opponent, m, e, j));
            }
        }
    }
    r
}

/// The discs captured in direction `d` by a disc placed on `square`.
fn flips_in_direction(square: u64, player: u64, opponent: u64, d: usize) -> (r: u64)
    requires
        is_square(square),
        d < 8,
    ensures
        forall|i: int|
            0 <= i < 64 ==> #[trigger] bit(r, i) == flipped_line(
                player,
                opponent,
                square_of(square),
                d as int,
                i,
            ),
{
    let ghost s = square_of(square);
    let ghost dd = d as int;
    proof {
        lemma_square_of(square);
    }
    let mut cursor = shift(square, d);
    let mut captured: u64 = 0;
    let ghost mut t: nat = 1;
    proof {
        lemma_ray_succ(s, dd, 0);
        assert(ray(s, dd, 0) == s);
        assert forall|i: int| 0 <= i < 64 implies #[trigger] bit(cursor, i) == (i == ray(s, dd, t)) by {
            lemma_step_inverse(i, s, dd);
        }
        assert forall|i: int| 0 <= i < 64 implies #[trigger] bit(captured, i) == exists|u: nat|
            1 <= u < t && i == #[trigger] ray(s, dd, u) by {
            lemma_bit_zero(i);
        }
    }
    while cursor != 0 && cursor & opponent != 0
        invariant
            1 <= t <= 8,
            0 <= s < 64,
            dd == d,
            d < 8,
            forall|i: int| 0 <= i < 64 ==> #[trigger] bit(cursor, i) == (i == ray(s, dd, t)),
            forall|i: int|
                0 <= i < 64 ==> #[trigger] bit(captured, i) == exists|u: nat|
                    1 <= u < t && i == #[trigger] ray(s, dd, u),
            forall|u: nat| 1 <= u < t ==> #[trigger] bit(opponent, ray(s, dd, u)),
        decreases 8 - t,
    {
        let ghost c = ray(s, dd, t);
        proof {
            if !(0 <= c < 64) {
                lemma_bit_none(cursor);
            }
            if !bit(opponent, c) {
                assert forall|i: int| 0 <= i < 64 implies !#[trigger] bit(cursor & opponent, i) by {
                    lemma_bit_and(cursor, opponent, i);
                }
                lemma_bit_none(cursor & opponent);
            }
            lemma_ray_short(s, dd, t);
        }
        let ghost old_captured = captured;
        let ghost old_cursor = cursor;
        captured = captured | cursor;
        cursor = shift(cursor, d);
        proof {
            lemma_ray_succ(s, dd, t);
            assert forall|i: int| 0 <= i < 64 implies #[trigger] bit(cursor, i) == (i == ray(
                s,
                dd,
                t + 1,
            )) by {
                lemma_step_inverse(i, c, dd);
            }
            assert forall|i: int| 0 <= i < 64 implies #[trigger] bit(captured, i) == exists|u: nat|
                1 <= u < t + 1 && i == #[trigger] ray(s, dd, u) by {
                lemma_bit_or(old_captured, old_cursor, i);
                if exists|u: nat| 1 <= u < t + 1 && i == #[trigger] ray(s, dd, u) {
                    let u = choose|u: nat| 1 <= u < t + 1 && i == #[trigger] ray(s, dd, u);
                    if u < t {
                        assert(bit(old_captured, i));
                    }
                }
            }
            t = t + 1;
        }
    }
    proof {
        let c = ray(s, dd, t);
        if 0 <= c < 64 && bit(opponent, c) {
            lemma_bit_and(cursor, opponent, c);
            lemma_bit_zero(c);
        }
        lemma_ray_succ(s, dd, 0);
        assert(ray(s, dd, 0) == s);
        assert forall|u: nat| u < (t - 1) as nat implies #[trigger] bit(
            opponent,
            ray(step(s, dd), dd, u),
        ) by {
            assert(ray(s, dd, u + 1) == ray(step(s, dd), dd, u));
            assert(bit(opponent, ray(s, dd, u + 1)));
        }
        assert(ray(s, dd, t) == ray(step(s, dd), dd, (t - 1) as nat));
        lemma_run_len(opponent, step(s, dd), dd, (t - 1) as nat, 8);
    }
    if cursor & player != 0 {
        proof {
            let c = ray(s, dd, t);
            if !bit(player, c) {
                assert forall|i: int| 0 <= i < 64 implies !#[trigger] bit(cursor & player, i) by {
                    lemma_bit_and(cursor, player, i);
                }
                lemma_bit_none(cursor & player);
            }
        }
        captured
    } else {
        proof {
            let c = ray(s, dd, t);
            if bit(player, c) {
                lemma_bit_and(cursor, player, c);
                lemma_bit_zero(c);
            }
            assert forall|i: int| 0 <= i < 64 implies #[trigger] bit(0, i) == flipped_line(
                player,
                opponent,
                s,
                dd,
                i,
            ) by {
                lemma_bit_zero(i);
            }
        }
        0
    }
}

/// A chain of length `j + 1` from `c` is a disc of `o` at `c` followed by a chain of
/// length `j` from the next square.
proof fn lemma_chain_shift(p: u64, o: u64, c: int, d: int)
    ensures
        forall|j: nat|
            #[trigger] chain(p, o, c, d, j + 1) == (bit(o, c) && chain(p, o, step(c, d), d, j)),
{
    assert forall|j: nat| #[trigger] chain(p, o, c, d, j + 1) == (bit(o, c) && chain(
        p,
        o,
        step(c, d),
        d,
        j,
    )) by {
        assert forall|t: nat| #[trigger] ray(c, d, t + 1) == ray(step(c, d), d, t) by {}
        assert(ray(c, d, 0) == c);
        if chain(p, o, c, d, j + 1) {
            assert forall|t: nat| t < j implies #[trigger] bit(o, ray(step(c, d), d, t)) by {
                assert(ray(c, d, t + 1) == ray(step(c, d), d, t));
                assert(bit(o, ray(c, d, t + 1)));
            }
        }
        if bit(o, c) && chain(p, o, step(c, d), d, j) {
            assert forall|t: nat| t < j + 1 implies #[trigger] bit(o, ray(c, d, t)) by {
                if t > 0 {
                    assert(ray(c, d, t) == ray(step(c, d), d, (t - 1) as nat));
                }
            }
        }
    }
}

/// A line trapped from `m` is a chain starting at the neighbouring square.
proof fn lemma_brackets_chain(p: u64, o: u64, m: int, d: int)
    ensures
        forall|j: nat|
            #[trigger] brackets(p, o, m, d, j) == (1 <= j && chain(p, o, step(m, d), d, j)),
{
    assert forall|j: nat| #[trigger] brackets(p, o, m, d, j) == (1 <= j && chain(
        p,
        o,
        step(m, d),
        d,
        j,
    )) by {
        assert forall|t: nat| #[trigger] ray(m, d, t + 1) == ray(step(m, d), d, t) by {}
        if brackets(p, o, m, d, j) {
            assert forall|t: nat| t < j implies #[trigger] bit(o, ray(step(m, d), d, t)) by {
                assert(ray(m, d, t + 1) == ray(step(m, d), d, t));
                assert(bit(o, ray(m, d, t + 1)));
            }
            assert(ray(m, d, j + 1) == ray(step(m, d), d, j));
        }
        if 1 <= j && chain(p, o, step(m, d), d, j) {
            assert forall|t: nat| 1 <= t <= j implies #[trigger] bit(o, ray(m, d, t)) by {
                assert(ray(m, d, t) == ray(step(m, d), d, (t - 1) as nat));
            }
            assert(ray(m, d, j + 1) == ray(step(m, d), d, j));
        }
    }
}


/// Only discs of the other side turn over.
pub proof fn lemma_flipped_was_waiter(p: u64, o: u64, s: int, i: int)
    requires
        flipped(p, o, s, i),
    ensures
        bit(o, i),
{
    let d = choose|d: int| is_dir(d) && #[trigger] flipped_line(p, o, s, d, i);
    let k = run_len(o, step(s, d), d, 8);
    let t = choose|t: nat| 1 <= t <= k && i == #[trigger] ray(s, d, t);
    lemma_run_len_opp(o, step(s, d), d, 8, (t - 1) as nat);
    assert(ray(s, d, t) == ray(step(s, d), d, (t - 1) as nat));
}

/// Playing a legal move fills exactly the square played: the occupied squares after
/// the move are those before it plus that square, so the board holds one disc more.
pub proof fn lemma_move_fills_one(p: u64, o: u64, s: int, np: u64, no: u64)
    requires
        is_legal(p, o, s),
        mover_after_set(p, o, s, np),
        waiter_after_set(p, o, s, no),
    ensures
        forall|i: int| 0 <= i < 64 ==> #[trigger] bit(np | no, i) == (bit(p | o, i) || i == s),
        popcount(np | no) == popcount(p | o) + 1,
{
    assert forall|i: int| 0 <= i < 64 implies #[trigger] bit(np | no, i) == (bit(p | o, i) || i
        == s) by {
        lemma_bit_or(np, no, i);
        lemma_bit_or(p, o, i);
        if flipped(p, o, s, i) {
            lemma_flipped_was_waiter(p, o, s, i);
        }
    }
    lemma_bit_or(p, o, s);
    lemma_count_add(np | no, p | o, s, 64);
}


/// In the initial position both sides have a legal move: black on `d3`, white on `e3`.
pub proof fn lemma_initial_moves()
    ensures
        is_legal(0x0000_0008_1000_0000u64, 0x0000_0010_0800_0000u64, 19),
        is_legal(0x0000_0010_0800_0000u64, 0x0000_0008_1000_0000u64, 20),
        moves_of(0x0000_0008_1000_0000u64, 0x0000_0010_0800_0000u64) != 0,
        moves_of(0x0000_0010_0800_0000u64, 0x0000_0008_1000_0000u64) != 0,
{
    let b = 0x0000_0008_1000_0000u64;
    let w = 0x0000_0010_0800_0000u64;
    assert(((b >> 19u64) & 1u64) == 0u64) by (bit_vector)
        requires
            b == 0x0000_0008_1000_0000u64,
    ;
    assert(((w >> 19u64) & 1u64) == 0u64) by (bit_vector)
        requires
            w == 0x0000_0010_0800_0000u64,
    ;
    assert(((b >> 20u64) & 1u64) == 0u64) by (bit_vector)
        requires
            b == 0x0000_0008_1000_0000u64,
    ;
    assert(((w >> 20u64) & 1u64) == 0u64) by (bit_vector)
        requires
            w == 0x0000_0010_0800_0000u64,
    ;
    assert(((w >> 27u64) & 1u64) == 1u64) by (bit_vector)
        requires
            w == 0x0000_0010_0800_0000u64,
    ;
    assert(((b >> 35u64) & 1u64) == 1u64) by (bit_vector)
        requires
            b == 0x0000_0008_1000_0000u64,
    ;
    assert(((b >> 28u64) & 1u64) == 1u64) by (bit_vector)
        requires
            b == 0x0000_0008_1000_0000u64,
    ;
    assert(((w >> 36u64) & 1u64) == 1u64) by (bit_vector)
        requires
            w == 0x0000_0010_0800_0000u64,
    ;
    lemma_ray_succ(19, 1, 0);
    lemma_ray_succ(19, 1, 1);
    lemma_ray_succ(20, 1, 0);
    lemma_ray_succ(20, 1, 1);
    assert(ray(19, 1, 0) == 19);
    assert(ray(20, 1, 0) == 20);
    assert(brackets(b, w, 19, 1, 1));
    assert(brackets(w, b, 20, 1, 1));
    lemma_bits_where(|m: int| is_legal(b, w, m));
    lemma_bits_where(|m: int| is_legal(w, b, m));
    lemma_bit_zero(19);
    lemma_bit_zero(20);
}

} // verus!
