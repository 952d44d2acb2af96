//! The game-tree value that a depth-limited negamax search computes, and the positions a
//! search from a root position meets on its way down.
use vstd::prelude::*;

use crate::bits::{bit, lemma_bit_none, popcount, square_of};
use crate::board::{moves_of, mover_after, waiter_after, Board, Player};
use crate::eval::{eval_score, heuristic};

verus! {

/// Neither the side owning `p` nor the side owning `o` has a legal move.
pub open spec fn over_bits(p: u64, o: u64) -> bool {
    moves_of(p, o) == 0 && moves_of(o, p) == 0
}

/// The static evaluation for the side owning `p`, to move against `o`.
pub open spec fn eval_bits(p: u64, o: u64) -> int {
    if over_bits(p, o) {
        (popcount(p) - popcount(o)) * 10000
    } else {
        heuristic(p, o)
    }
}

/// The negamax value, for the side to move, of the position where `p` moves against `o`,
/// looking `d` plies ahead: the evaluation at the horizon or when the game is over, the
/// negated value after a forced pass, and otherwise the best value among the moves.
pub open spec fn node_value(p: u64, o: u64, d: nat) -> int
    decreases d, 65nat,
{
    if d == 0 || over_bits(p, o) {
        eval_bits(p, o)
    } else if moves_of(p, o) == 0 {
        -node_value(o, p, (d - 1) as nat)
    } else {
        match best_below(p, o, d, 64) {
            Some(v) => v,
            None => 0,
        }
    }
}

/// The best value, for the side to move, of its legal moves on squares below `n`.
pub open spec fn best_below(p: u64, o: u64, d: nat, n: nat) -> Option<int>
    decreases d, n,
{
    if d == 0 || n == 0 {
        None
    } else {
        let rest = best_below(p, o, d, (n - 1) as nat);
        if bit(moves_of(p, o), n - 1) {
            let w = -node_value(
                waiter_after(p, o, n - 1),
                mover_after(p, o, n - 1),
                (d - 1) as nat,
            );
            match rest {
                Some(v) => if v >= w {
                    Some(v)
                } else {
                    Some(w)
                },
                None => Some(w),
            }
        } else {
            rest
        }
    }
}

/// The value, for the side to move, of playing on square `s` in a `d`-ply search.
pub open spec fn move_value(p: u64, o: u64, d: nat, s: int) -> int {
    -node_value(waiter_after(p, o, s), mover_after(p, o, s), (d - 1) as nat)
}

/// The negamax value of a board searched `d` plies deep.
pub open spec fn board_value(b: Board, d: nat) -> int {
    node_value(b.mover(), b.waiter(), d)
}

/// The worth of move `m` for the side playing it, when the reply is searched `d` plies deep.
pub open spec fn move_worth(b: Board, m: u64, d: nat) -> int {
    -board_value(b.after_move(m), d)
}

/// A result `r` of a search with window `(alpha, beta)` tells the true value `v` as
/// fail-soft alpha-beta does: at most `r` when `r` fails low, at least `r` when `r` fails
/// high, and exactly `r` inside the window.
pub open spec fn fail_soft(r: int, alpha: int, beta: int, v: int) -> bool {
    &&& r <= alpha ==> v <= r
    &&& r >= beta ==> v >= r
    &&& alpha < r < beta ==> v == r
}

/// One ply of play leads from `(p, o)` to `(q, r)`, both written side to move first:
/// a legal move, or a pass when the side to move has none, in a game still going.
pub open spec fn step_to(p: u64, o: u64, q: u64, r: u64) -> bool {
    &&& !over_bits(p, o)
    &&& if moves_of(p, o) == 0 {
        q == o && r == p
    } else {
        exists|s: int|
            0 <= s < 64 && bit(moves_of(p, o), s) && q == #[trigger] waiter_after(p, o, s) && r
                == mover_after(p, o, s)
    }
}

/// Position `(p, o)` is met `n` plies after the root `(p0, o0)`.
pub open spec fn reached(p0: u64, o0: u64, p: u64, o: u64, n: nat) -> bool
    decreases n,
{
    if n == 0 {
        p == p0 && o == o0
    } else {
        exists|a: u64, c: u64| reached(p0, o0, a, c, (n - 1) as nat) && #[trigger] step_to(a, c, p, o)
    }
}

/// No position is met at two different plies below `total` from the root, so that it is
/// always searched to the same remaining depth.
pub open spec fn unique_plies(p0: u64, o0: u64, total: nat) -> bool {
    forall|p: u64, o: u64, n1: nat, n2: nat|
        n1 < total && n2 < total && #[trigger] reached(p0, o0, p, o, n1) && #[trigger] reached(
            p0,
            o0,
            p,
            o,
            n2,
        ) ==> n1 == n2
}

proof fn lemma_best_below(p: u64, o: u64, d: nat, n: nat)
    requires
        d >= 1,
        n <= 64,
    ensures
        forall|s: int|
            #![trigger move_value(p, o, d, s)]
            0 <= s < n && bit(moves_of(p, o), s) ==> best_below(p, o, d, n) is Some
                && move_value(p, o, d, s) <= best_below(p, o, d, n)->0,
        best_below(p, o, d, n) is Some ==> exists|s: int|
            #![trigger move_value(p, o, d, s)]
            0 <= s < n && bit(moves_of(p, o), s) && best_below(p, o, d, n)->0 == move_value(
                p,
                o,
                d,
                s,
            ),
    decreases n,
{
    if n > 0 {
        let m = (n - 1) as nat;
        lemma_best_below(p, o, d, m);
        let t = n - 1;
        if bit(moves_of(p, o), t) {
            assert(move_value(p, o, d, t) == -node_value(
                waiter_after(p, o, t),
                mover_after(p, o, t),
                (d - 1) as nat,
            ));
        }
    }
}

/// In a position with legal moves, searched at least one ply, the value is that of a best
/// legal move.
pub proof fn lemma_node_value_moves(p: u64, o: u64, d: nat)
    requires
        d >= 1,
        !over_bits(p, o),
        moves_of(p, o) != 0,
    ensures
        forall|s: int|
            0 <= s < 64 && bit(moves_of(p, o), s) ==> #[trigger] move_value(p, o, d, s)
                <= node_value(p, o, d),
        exists|s: int|
            0 <= s < 64 && bit(moves_of(p, o), s) && #[trigger] move_value(p, o, d, s)
                == node_value(p, o, d),
{
    lemma_best_below(p, o, d, 64);
    if forall|s: int| 0 <= s < 64 ==> !#[trigger] bit(moves_of(p, o), s) {
        lemma_bit_none(moves_of(p, o));
    }
    let s = choose|s: int| 0 <= s < 64 && #[trigger] bit(moves_of(p, o), s);
    assert(move_value(p, o, d, s) <= best_below(p, o, d, 64)->0);
}

/// The side to move and the other side's discs after a move, and the evaluation and end
/// of game, are those of the bitboards taken side to move first.
pub proof fn lemma_board_sides(b: Board, m: u64)
    ensures
        b.after_move(m).mover() == waiter_after(b.mover(), b.waiter(), square_of(m)),
        b.after_move(m).waiter() == mover_after(b.mover(), b.waiter(), square_of(m)),
        b.passed().mover() == b.waiter(),
        b.passed().waiter() == b.mover(),
        b.is_over() == over_bits(b.mover(), b.waiter()),
        eval_score(b) == eval_bits(b.mover(), b.waiter()),
{
    let p = b.mover();
    let o = b.waiter();
    let s = square_of(m);
    Board::lemma_from_bits(mover_after(p, o, s), waiter_after(p, o, s), Player::White);
    Board::lemma_from_bits(waiter_after(p, o, s), mover_after(p, o, s), Player::Black);
    Board::lemma_from_bits(b.blacks(), b.whites(), b.turn().other());
}

/// A step from a position met at ply `n` meets the next position at ply `n + 1`.
pub proof fn lemma_reached_step(p0: u64, o0: u64, p: u64, o: u64, n: nat, q: u64, r: u64)
    requires
        reached(p0, o0, p, o, n),
        step_to(p, o, q, r),
    ensures
        reached(p0, o0, q, r, n + 1),
{
    assert(reached(p0, o0, p, o, ((n + 1) - 1) as nat));
}

/// A fail-soft answer for the window `(alpha_s, beta)`, where `alpha_s` was raised from
/// `alpha` only to a proven lower bound of the value, is a fail-soft answer for
/// `(alpha, beta)`.
pub proof fn lemma_fail_soft_lift(r: int, alpha: int, alpha_s: int, beta: int, v: int)
    requires
        alpha <= alpha_s < beta,
        alpha_s == alpha || v >= alpha_s,
        r >= beta ==> v >= r,
        r <= alpha_s ==> v <= r,
        alpha_s < r < beta ==> v == r,
    ensures
        fail_soft(r, alpha, beta, v),
{
}

} // verus!
