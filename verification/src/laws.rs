//! Properties that hold across the operations of the library.
use vstd::prelude::*;

use crate::bits::{
    bit, is_dir, lemma_bit_none, lemma_bit_zero, lemma_bits_where, lemma_count_disjoint,
    lemma_bit_ext, lemma_count_subset, lemma_disjoint, lemma_or_comm, lemma_ray_short,
    lemma_run_len_end, lemma_run_len_opp, lemma_sq_and, lemma_square_of, lemma_squares_below,
    lemma_trailing_zeros_sq, lemma_union_squares_below, is_square, popcount, ray, run_len, sq,
    square_of, squares, step, union_of,
};
use crate::board::{
    brackets, coord_chars, coord_index, flipped, flipped_line, is_legal, lemma_after_sets,
    lemma_flipped_was_waiter, lemma_move_fills_one, moves_of, mover_after, waiter_after, Board,
};
use crate::engine::is_legal_move;
use crate::eval::{adjacency_upto, adjacent_at, corner_at, corners_upto, eval_score};
use crate::minimax::{lemma_board_sides, over_bits, reached, step_to, unique_plies};
use crate::text::{is_space, lead_spaces, trail_spaces, trim, trim_start};

verus! {

/// The square `i` lies in a line that a disc played on `s` traps.
pub open spec fn trapped(p: u64, o: u64, s: int, i: int) -> bool {
    exists|d: int, j: nat, t: nat|
        is_dir(d) && #[trigger] brackets(p, o, s, d, j) && 1 <= t <= j && i == #[trigger] ray(
            s,
            d,
            t,
        )
}

proof fn lemma_line_is_trapped(p: u64, o: u64, s: int, d: int, i: int)
    requires
        p & o == 0,
        0 <= s < 64,
        is_dir(d),
    ensures
        flipped_line(p, o, s, d, i) == exists|j: nat, t: nat|
            #[trigger] brackets(p, o, s, d, j) && 1 <= t <= j && i == #[trigger] ray(s, d, t),
{
    lemma_disjoint(p, o);
    let c = step(s, d);
    let k = run_len(o, c, d, 8);
    lemma_run_len_end(o, c, d, 8);
    assert forall|t: nat| #[trigger] ray(s, d, t + 1) == ray(c, d, t) by {}
    assert forall|t: nat| 1 <= t <= k implies #[trigger] bit(o, ray(s, d, t)) by {
        lemma_run_len_opp(o, c, d, 8, (t - 1) as nat);
        assert(ray(s, d, t) == ray(c, d, (t - 1) as nat));
    }
    if k == 8 {
        assert(bit(o, ray(s, d, 8)));
        lemma_ray_short(s, d, 8);
    }
    assert(!bit(o, ray(s, d, k + 1))) by {
        assert(ray(s, d, k + 1) == ray(c, d, k));
    }
    if flipped_line(p, o, s, d, i) {
        let t = choose|t: nat| 1 <= t <= k && i == #[trigger] ray(s, d, t);
        assert(brackets(p, o, s, d, k));
    }
    if exists|j: nat, t: nat|
        #[trigger] brackets(p, o, s, d, j) && 1 <= t <= j && i == #[trigger] ray(s, d, t) {
        let (j, t) = choose|j: nat, t: nat|
            #[trigger] brackets(p, o, s, d, j) && 1 <= t <= j && i == #[trigger] ray(s, d, t);
        if j < k {
            assert(bit(o, ray(s, d, j + 1)));
            assert(bit(p, ray(s, d, j + 1)));
        } else if j > k {
            assert(bit(o, ray(s, d, k + 1)));
        }
    }
}

/// When the two sides' discs do not overlap, a move turns over exactly the discs it
/// traps: those in an unbroken line of opponent discs that runs from the new disc to a
/// disc of the mover.
pub proof fn law_flips_are_trapped(p: u64, o: u64, s: int, i: int)
    requires
        p & o == 0,
        0 <= s < 64,
    ensures
        flipped(p, o, s, i) == trapped(p, o, s, i),
{
    if flipped(p, o, s, i) {
        let d = choose|d: int| is_dir(d) && #[trigger] flipped_line(p, o, s, d, i);
        lemma_line_is_trapped(p, o, s, d, i);
        let (j, t) = choose|j: nat, t: nat|
            #[trigger] brackets(p, o, s, d, j) && 1 <= t <= j && i == #[trigger] ray(s, d, t);
        assert(trapped(p, o, s, i));
    }
    if trapped(p, o, s, i) {
        let (d, j, t) = choose|d: int, j: nat, t: nat|
            is_dir(d) && #[trigger] brackets(p, o, s, d, j) && 1 <= t <= j && i == #[trigger] ray(
                s,
                d,
                t,
            );
        lemma_line_is_trapped(p, o, s, d, i);
        assert(flipped_line(p, o, s, d, i));
    }
}

/// On a board whose sides do not overlap, a legal move turns over at least one disc.
pub proof fn law_legal_move_flips(p: u64, o: u64, s: int)
    requires
        p & o == 0,
        is_legal(p, o, s),
    ensures
        exists|i: int| 0 <= i < 64 && #[trigger] flipped(p, o, s, i),
{
    let (d, j) = choose|d: int, j: nat| is_dir(d) && #[trigger] brackets(p, o, s, d, j);
    let i = ray(s, d, 1);
    assert(bit(o, ray(s, d, 1)));
    law_flips_are_trapped(p, o, s, i);
    assert(trapped(p, o, s, i));
}

/// A legal move keeps the two sides' discs apart.
pub proof fn law_move_keeps_sides_apart(p: u64, o: u64, s: int)
    requires
        p & o == 0,
        is_legal(p, o, s),
    ensures
        mover_after(p, o, s) & waiter_after(p, o, s) == 0,
{
    lemma_after_sets(p, o, s);
    lemma_disjoint(p, o);
    lemma_disjoint(mover_after(p, o, s), waiter_after(p, o, s));
}

/// When the sides do not overlap, the discs on the board are black's plus white's.
pub proof fn law_score_adds_up(black: u64, white: u64)
    requires
        black & white == 0,
    ensures
        popcount(black | white) == popcount(black) + popcount(white),
{
    lemma_disjoint(black, white);
    lemma_count_disjoint(black, white, 64);
}


proof fn lemma_corners_antisymmetric(own: u64, opp: u64, n: nat)
    requires
        forall|i: int| 0 <= i < 64 ==> !(#[trigger] bit(own, i) && bit(opp, i)),
        n <= 4,
    ensures
        corners_upto(opp, own, n) == -corners_upto(own, opp, n),
    decreases n,
{
    if n > 0 {
        lemma_corners_antisymmetric(own, opp, (n - 1) as nat);
        assert(!(bit(own, corner_at(n - 1)) && bit(opp, corner_at(n - 1))));
    }
}

proof fn lemma_adjacency_antisymmetric(own: u64, opp: u64, n: nat)
    requires
        forall|i: int| 0 <= i < 64 ==> !(#[trigger] bit(own, i) && bit(opp, i)),
        n <= 4,
    ensures
        adjacency_upto(opp, own, n) == -adjacency_upto(own, opp, n),
    decreases n,
{
    if n > 0 {
        let k = n - 1;
        lemma_adjacency_antisymmetric(own, opp, (n - 1) as nat);
        assert(!(bit(own, adjacent_at(k, 0)) && bit(opp, adjacent_at(k, 0))));
        assert(!(bit(own, adjacent_at(k, 1)) && bit(opp, adjacent_at(k, 1))));
        assert(!(bit(own, adjacent_at(k, 2)) && bit(opp, adjacent_at(k, 2))));
    }
}

/// Evaluation is zero-sum: when the sides' discs do not overlap, handing the move to
/// the other side negates the score.
pub proof fn law_evaluation_is_zero_sum(b: Board, passed: Board)
    requires
        b.blacks() & b.whites() == 0,
        passed.blacks() == b.blacks(),
        passed.whites() == b.whites(),
        passed.turn() == b.turn().other(),
    ensures
        eval_score(passed) == -eval_score(b),
{
    let own = b.mover();
    let opp = b.waiter();
    lemma_disjoint(b.blacks(), b.whites());
    assert(forall|i: int| 0 <= i < 64 ==> !(#[trigger] bit(own, i) && bit(opp, i)));
    assert(forall|i: int| 0 <= i < 64 ==> !(#[trigger] bit(opp, i) && bit(own, i)));
    lemma_corners_antisymmetric(own, opp, 4);
    lemma_adjacency_antisymmetric(own, opp, 4);
    lemma_or_comm(own, opp);
}

/// Naming a square and reading the name back gives the same square.
pub proof fn law_coordinates_round_trip(i: int)
    requires
        0 <= i < 64,
    ensures
        coord_index(coord_chars(i)) == Some(i),
        coord_index(coord_chars(vstd::std_specs::bits::u64_trailing_zeros(sq(i)) as int)) == Some(i),
{
    let c = coord_chars(i);
    assert(!is_space(c[0]));
    assert(!is_space(c[1]));
    assert(lead_spaces(c) == 0);
    assert(trim_start(c) =~= c);
    assert(trail_spaces(c) == 0);
    assert(trim(c) =~= c);
    lemma_trailing_zeros_sq(i);
}


/// Rebuilding a board from its own discs and side to move gives the same board.
pub proof fn law_rebuild_board(b: Board)
    ensures
        Board::from_bits(b.blacks(), b.whites(), b.turn()) == b,
{
    Board::lemma_from_own_bits(b);
}

/// Passing twice gives back the same board.
pub proof fn law_pass_twice(b: Board)
    ensures
        b.passed().passed() == b,
{
    let q = b.passed();
    Board::lemma_from_bits(b.blacks(), b.whites(), b.turn().other());
    Board::lemma_from_bits(q.blacks(), q.whites(), q.turn().other());
    Board::lemma_ext(q.passed(), b);
}


/// A search of at most one ply meets no position at two different plies, so the search
/// law of `negamax` holds for it without condition.
pub proof fn law_shallow_search_unique(p: u64, o: u64, depth: nat)
    requires
        depth <= 1,
    ensures
        unique_plies(p, o, depth),
{
}


/// With no disc on either side, nobody has a legal move.
proof fn lemma_empty_board_stuck()
    ensures
        moves_of(0, 0) == 0,
{
    lemma_bits_where(|m: int| is_legal(0, 0, m));
    assert forall|m: int| 0 <= m < 64 implies !#[trigger] bit(moves_of(0, 0), m) by {
        if is_legal(0, 0, m) {
            let (d, j): (int, nat) = choose|d: int, j: nat| is_dir(d) && #[trigger] brackets(
                0,
                0,
                m,
                d,
                j,
            );
            lemma_bit_zero(ray(m, d, 1));
            assert(bit(0, ray(m, d, 1)));
        }
    }
    lemma_bit_none(moves_of(0, 0));
}

/// On a board whose sides do not overlap, no ply of play leads back to the same position.
proof fn lemma_no_self_step(p: u64, o: u64)
    requires
        p & o == 0,
    ensures
        !step_to(p, o, p, o),
{
    if step_to(p, o, p, o) {
        if moves_of(p, o) == 0 {
            assert(p == o);
            assert(p & p == p) by (bit_vector);
            lemma_empty_board_stuck();
        } else {
            let s = choose|s: int|
                0 <= s < 64 && bit(moves_of(p, o), s) && p == #[trigger] waiter_after(p, o, s) && o
                    == mover_after(p, o, s);
            lemma_after_sets(p, o, s);
            lemma_bits_where(|m: int| is_legal(p, o, m));
            assert(is_legal(p, o, s));
            assert(bit(mover_after(p, o, s), s));
        }
    }
}

/// A search of two plies from a board whose sides do not overlap meets no position at two
/// different plies, so the search law of `negamax` holds for it without condition.
pub proof fn law_two_ply_search_unique(p: u64, o: u64)
    requires
        p & o == 0,
    ensures
        unique_plies(p, o, 2),
{
    lemma_no_self_step(p, o);
    assert forall|q: u64, r: u64, n1: nat, n2: nat|
        n1 < 2 && n2 < 2 && #[trigger] reached(p, o, q, r, n1) && #[trigger] reached(
            p,
            o,
            q,
            r,
            n2,
        ) implies n1 == n2 by {
        if n1 != n2 {
            assert(reached(p, o, q, r, 0));
            assert(reached(p, o, q, r, 1));
            let (a, c): (u64, u64) = choose|a: u64, c: u64|
                reached(p, o, a, c, 0) && #[trigger] step_to(a, c, q, r);
            assert(a == p && c == o && q == p && r == o);
        }
    }
}


/// The squares of a bitboard, as `legal_moves_list` lists the legal moves: one
/// one-square bitboard per disc, in ascending order, each holding a disc of the
/// bitboard, and together making up the whole bitboard again.
pub proof fn law_square_list_rebuilds(m: u64)
    ensures
        squares(m).len() == popcount(m),
        forall|a: int|
            0 <= a < squares(m).len() ==> is_square(#[trigger] squares(m)[a]) && squares(m)[a] & m
                != 0,
        forall|a: int, c: int| 0 <= a < c < squares(m).len() ==> squares(m)[a] < squares(m)[c],
        union_of(squares(m)) == m,
{
    lemma_squares_below(m, 64);
    assert forall|a: int| 0 <= a < squares(m).len() implies is_square(#[trigger] squares(m)[a])
        && squares(m)[a] & m != 0 by {
        let x = squares(m)[a];
        lemma_square_of(x);
        lemma_sq_and(square_of(x), m);
    }
    lemma_union_squares_below(m, 64);
    lemma_bit_ext(union_of(squares(m)), m);
}

/// A legal move turns over at least one disc of the other side, so that side, which
/// moves next, holds fewer discs than before.
pub proof fn law_move_shrinks_other_side(p: u64, o: u64, s: int)
    requires
        p & o == 0,
        is_legal(p, o, s),
    ensures
        popcount(waiter_after(p, o, s)) < popcount(o),
{
    law_legal_move_flips(p, o, s);
    let i = choose|i: int| 0 <= i < 64 && #[trigger] flipped(p, o, s, i);
    lemma_flipped_was_waiter(p, o, s, i);
    lemma_after_sets(p, o, s);
    let w = waiter_after(p, o, s);
    assert(bit(o, i) && !bit(w, i));
    lemma_count_subset(w, o, 64);
}

/// On a board whose sides do not overlap, after a legal move the side to move next holds
/// fewer discs than it held before the move.
pub proof fn law_board_move_shrinks_next_mover(b: Board, m: u64)
    requires
        b.blacks() & b.whites() == 0,
        is_legal_move(b, m),
    ensures
        popcount(b.after_move(m).mover()) < popcount(b.waiter()),
{
    let p = b.mover();
    let o = b.waiter();
    let s = square_of(m);
    lemma_board_sides(b, m);
    let bl = b.blacks();
    let wh = b.whites();
    assert(bl & wh == 0 ==> wh & bl == 0) by (bit_vector);
    lemma_bits_where(|k: int| is_legal(p, o, k));
    assert(is_legal(p, o, s));
    law_move_shrinks_other_side(p, o, s);
}


/// Every position met below `n` plies from the root with the game still going has a legal
/// move for the side to move: no forced pass happens there.
pub open spec fn no_pass_below(p0: u64, o0: u64, n: nat) -> bool {
    forall|p: u64, o: u64, k: nat|
        k < n && #[trigger] reached(p0, o0, p, o, k) && !over_bits(p, o) ==> moves_of(p, o) != 0
}

/// With no forced pass on the way, a position met `n` plies below a root whose sides do
/// not overlap still has non-overlapping sides and holds `n` discs more than the root.
proof fn lemma_reached_discs(p0: u64, o0: u64, p: u64, o: u64, n: nat)
    requires
        p0 & o0 == 0,
        no_pass_below(p0, o0, n),
        reached(p0, o0, p, o, n),
    ensures
        p & o == 0,
        popcount(p | o) == popcount(p0 | o0) + n,
    decreases n,
{
    if n > 0 {
        let m = (n - 1) as nat;
        let (a, c): (u64, u64) = choose|a: u64, c: u64|
            reached(p0, o0, a, c, m) && #[trigger] step_to(a, c, p, o);
        assert(no_pass_below(p0, o0, m));
        lemma_reached_discs(p0, o0, a, c, m);
        assert(moves_of(a, c) != 0);
        let s = choose|s: int|
            0 <= s < 64 && bit(moves_of(a, c), s) && p == #[trigger] waiter_after(a, c, s) && o
                == mover_after(a, c, s);
        lemma_bits_where(|k: int| is_legal(a, c, k));
        assert(is_legal(a, c, s));
        law_move_keeps_sides_apart(a, c, s);
        lemma_after_sets(a, c, s);
        lemma_move_fills_one(a, c, s, o, p);
        lemma_or_comm(o, p);
        assert(o & p == 0 ==> p & o == 0) by (bit_vector);
    }
}

/// A search from a board whose sides do not overlap, in which no forced pass happens
/// above its last ply, meets no position at two different plies: each ply adds one disc.
/// The search law of `negamax` and the choice of `best_move` then hold at any depth.
pub proof fn law_no_pass_search_unique(p0: u64, o0: u64, total: nat)
    requires
        p0 & o0 == 0,
        no_pass_below(p0, o0, (total - 1) as nat),
    ensures
        unique_plies(p0, o0, total),
{
    assert forall|q: u64, r: u64, n1: nat, n2: nat|
        n1 < total && n2 < total && #[trigger] reached(p0, o0, q, r, n1) && #[trigger] reached(
            p0,
            o0,
            q,
            r,
            n2,
        ) implies n1 == n2 by {
        assert(no_pass_below(p0, o0, n1));
        assert(no_pass_below(p0, o0, n2));
        lemma_reached_discs(p0, o0, q, r, n1);
        lemma_reached_discs(p0, o0, q, r, n2);
    }
}

} // verus!
