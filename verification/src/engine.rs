//! Minimax engine using iterative deepening, alpha-beta pruning, and a transposition table.
use vstd::prelude::*;

use std::collections::HashMap;

use crate::bits::{
    bit, count_ones, is_square, lemma_popcount_zero, lemma_sq_is_square, lemma_square_of,
    lemma_squares_below, lemma_squares_below_has, popcount, sq, square_of, squares,
};
use crate::board::{moves_of, waiter_after, Board};
use crate::eval::{eval_bound, eval_score, evaluate};
use crate::minimax::{
    board_value, fail_soft, lemma_board_sides, lemma_fail_soft_lift, lemma_node_value_moves,
    lemma_reached_step, move_value, move_worth, node_value, reached, step_to, unique_plies,
};

verus! {

broadcast use vstd::std_specs::hash::group_hash_axioms;

const INF: i32 = 1_000_000_000;

/// A cached alpha-beta search result.
#[derive(Debug, Clone, Copy)]
pub struct TranspositionEntry {
    /// Search depth this entry was proven at.
    pub depth: u32,
    /// Evaluation score from the side-to-move perspective at this node.
    pub score: i32,
    /// Bound type for alpha-beta reuse.
    pub flag: EntryFlag,
}

/// The kind of bound stored in a transposition table entry.
#[derive(Debug, Clone, Copy, PartialEq, Eq, Structural)]
pub enum EntryFlag {
    /// The cached score is exact.
    Exact,
    /// The cached score is a lower bound.
    LowerBound,
    /// The cached score is an upper bound.
    UpperBound,
}

/// Every cached score lies within the range of evaluations.
pub open spec fn table_ok(t: Map<u128, TranspositionEntry>) -> bool {
    forall|k: u128| #[trigger] t.contains_key(k) ==> -eval_bound() <= t[k].score <= eval_bound()
}

/// `mv` is a one-square bitboard naming a legal move of the side to move.
pub open spec fn is_legal_move(b: Board, mv: u64) -> bool {
    is_square(mv) && bit(moves_of(b.mover(), b.waiter()), square_of(mv))
}

/// The four corners as one bitboard.
pub open spec fn corner_bits() -> u64 {
    0x8100_0000_0000_0081u64
}

/// Ordering key of a move: 100 for a corner, plus the number of discs it turns over.
pub open spec fn move_key(b: Board, mv: u64) -> int {
    (if mv & corner_bits() != 0 {
        100int
    } else {
        0int
    }) + popcount(b.waiter()) - popcount(waiter_after(b.mover(), b.waiter(), square_of(mv)))
}

/// `s` lists moves by descending key, moves with equal keys by ascending square.
pub open spec fn heuristic_order(b: Board, s: Seq<u64>) -> bool {
    forall|a: int, c: int|
        0 <= a < c < s.len() ==> move_key(b, s[a]) > move_key(b, s[c]) || (move_key(b, s[a])
            == move_key(b, s[c]) && s[a] < s[c])
}

fn corner_mask() -> (r: u64)
    ensures
        r == corner_bits(),
{
    let r = (1u64 << 0u64) | (1u64 << 7u64) | (1u64 << 56u64) | (1u64 << 63u64);
    assert(r == 0x8100_0000_0000_0081u64) by (bit_vector)
        requires
            r == (1u64 << 0u64) | (1u64 << 7u64) | (1u64 << 56u64) | (1u64 << 63u64),
    ;
    r
}

/// The transposition-table key of a position: the mover's discs in the high 64 bits,
/// the other side's in the low 64 bits, so distinct positions get distinct keys.
fn table_key(player: u64, opponent: u64) -> (k: u128)
    ensures
        k == player as int * 0x1_0000_0000_0000_0000 + opponent as int,
        k == position_key(player, opponent),
{
    proof {
        lemma_position_key(player, opponent, player, opponent);
    }
    let high = player as u128;
    let low = opponent as u128;
    let k = (high << 64u128) | low;
    assert(k == high * 0x1_0000_0000_0000_0000u128 + low) by (bit_vector)
        requires
            high <= 0xffff_ffff_ffff_ffffu128,
            low <= 0xffff_ffff_ffff_ffffu128,
            k == (high << 64u128) | low,
    ;
    k
}

fn max_i32(a: i32, b: i32) -> (r: i32)
    ensures
        r == (if a >= b {
            a
        } else {
            b
        }),
{
    if a >= b {
        a
    } else {
        b
    }
}

fn min_i32(a: i32, b: i32) -> (r: i32)
    ensures
        r == (if a <= b {
            a
        } else {
            b
        }),
{
    if a <= b {
        a
    } else {
        b
    }
}

/// The first position of `x` in `s`.
pub open spec fn first_position(s: Seq<u64>, x: u64) -> int {
    choose|k: int| 0 <= k < s.len() && #[trigger] s[k] == x && forall|j: int| 0 <= j < k ==> s[j] != x
}

proof fn lemma_first_position(s: Seq<u64>, x: u64, k: int)
    requires
        0 <= k < s.len(),
        s[k] == x,
        forall|j: int| 0 <= j < k ==> s[j] != x,
    ensures
        first_position(s, x) == k,
{
    assert(0 <= k < s.len() && s[k] == x && forall|j: int| 0 <= j < k ==> s[j] != x);
    let c = first_position(s, x);
    if c < k {
        assert(s[c] == x);
    } else if c > k {
        assert(s[k] != x);
    }
}

/// `s` with `first`, when it is listed, swapped with the front element.
pub open spec fn front_first(s: Seq<u64>, first: Option<u64>) -> Seq<u64> {
    match first {
        Some(x) => if s.contains(x) {
            s.update(0, s[first_position(s, x)]).update(first_position(s, x), s[0])
        } else {
            s
        },
        None => s,
    }
}

/// Puts `first` at the front by swapping it with the front move, when it is among `moves`.
fn ordered_moves(moves: Vec<u64>, first: Option<u64>) -> (r: Vec<u64>)
    ensures
        r.len() == moves.len(),
        forall|x: u64| r@.contains(x) == moves@.contains(x),
        r@ == front_first(moves@, first),
{
    let mut moves = moves;
    if let Some(best) = first {
        let mut index: usize = 0;
        while index < moves.len() && moves[index] != best
            invariant
                index <= moves.len(),
                forall|j: int| 0 <= j < index ==> moves@[j] != best,
            decreases moves.len() - index,
        {
            index = index + 1;
        }
        if index < moves.len() {
            let ghost orig = moves@;
            let front = moves[0];
            let found = moves[index];
            moves.set(0, found);
            moves.set(index, front);
            proof {
                lemma_first_position(orig, best, index as int);
                assert(moves@ == orig.update(0, orig[index as int]).update(index as int, orig[0]));
                assert forall|x: u64| moves@.contains(x) == orig.contains(x) by {
                    if orig.contains(x) {
                        let j = choose|j: int| 0 <= j < orig.len() && orig[j] == x;
                        if j == 0 {
                            assert(moves@[index as int] == x);
                        } else if j == index {
                            assert(moves@[0] == x);
                        } else {
                            assert(moves@[j] == x);
                        }
                    }
                    if moves@.contains(x) {
                        let j = choose|j: int| 0 <= j < moves@.len() && moves@[j] == x;
                        if j == 0 {
                            assert(orig[index as int] == x);
                        } else if j == index {
                            assert(orig[0] == x);
                        } else {
                            assert(orig[j] == x);
                        }
                    }
                }
            }
        } else {
            proof {
                assert(!moves@.contains(best));
            }
        }
    }
    moves
}


/// Pairs ordered by descending score, equal scores by ascending move.
pub open spec fn pair_order(s: Seq<(i32, u64)>) -> bool {
    forall|a: int, c: int|
        0 <= a < c < s.len() ==> s[a].0 > s[c].0 || (s[a].0 == s[c].0 && s[a].1 < s[c].1)
}

/// Stable sort by descending score (moves arrive in ascending order).
fn sort_by_score(scored: Vec<(i32, u64)>) -> (r: Vec<(i32, u64)>)
    requires
        forall|a: int, c: int| 0 <= a < c < scored.len() ==> scored@[a].1 < scored@[c].1,
    ensures
        r.len() == scored.len(),
        forall|x: (i32, u64)| r@.contains(x) == scored@.contains(x),
        pair_order(r@),
{
    let mut out: Vec<(i32, u64)> = Vec::new();
    let mut i: usize = 0;
    while i < scored.len()
        invariant
            i <= scored.len(),
            out.len() == i,
            forall|a: int, c: int| 0 <= a < c < scored.len() ==> scored@[a].1 < scored@[c].1,
            forall|x: (i32, u64)| out@.contains(x) == scored@.subrange(0, i as int).contains(x),
            pair_order(out@),
        decreases scored.len() - i,
    {
        let item = scored[i];
        let mut pos: usize = 0;
        while pos < out.len() && out[pos].0 >= item.0
            invariant
                pos <= out.len(),
                forall|a: int| 0 <= a < pos ==> out@[a].0 >= item.0,
            decreases out.len() - pos,
        {
            pos = pos + 1;
        }
        let ghost prev = out@;
        proof {
            assert forall|a: int| 0 <= a < prev.len() implies prev[a].1 < item.1 by {
                assert(prev.contains(prev[a]));
                let before = scored@.subrange(0, i as int);
                let b = choose|b: int| 0 <= b < before.len() && before[b] == prev[a];
                assert(scored@[b] == prev[a]);
            }
            assert forall|a: int| pos <= a < prev.len() implies prev[a].0 < item.0 by {
                assert(prev[pos as int].0 < item.0);
                if a > pos {
                    assert(prev[pos as int].0 >= prev[a].0);
                }
            }
        }
        out.insert(pos, item);
        proof {
            let before = scored@.subrange(0, i as int);
            let upto = scored@.subrange(0, i + 1);
            assert forall|x: (i32, u64)| out@.contains(x) == upto.contains(x) by {
                if out@.contains(x) {
                    let j = choose|j: int| 0 <= j < out@.len() && out@[j] == x;
                    if j < pos {
                        assert(prev[j] == x);
                        assert(prev.contains(x));
                    } else if j > pos {
                        assert(prev[j - 1] == x);
                        assert(prev.contains(x));
                    }
                    if x != item {
                        let b = choose|b: int| 0 <= b < before.len() && before[b] == x;
                        assert(upto[b] == x);
                    } else {
                        assert(upto[i as int] == x);
                    }
                }
                if upto.contains(x) {
                    let b = choose|b: int| 0 <= b < upto.len() && upto[b] == x;
                    if b < i {
                        assert(before[b] == x);
                        assert(prev.contains(x));
                        let j = choose|j: int| 0 <= j < prev.len() && prev[j] == x;
                        if j < pos {
                            assert(out@[j] == x);
                        } else {
                            assert(out@[j + 1] == x);
                        }
                    } else {
                        assert(out@[pos as int] == x);
                    }
                }
            }
            assert forall|a: int, c: int| 0 <= a < c < out@.len() implies out@[a].0 > out@[c].0 || (
            out@[a].0 == out@[c].0 && out@[a].1 < out@[c].1) by {
                if c < pos {
                    assert(out@[a] == prev[a] && out@[c] == prev[c]);
                } else if c == pos {
                    assert(out@[a] == prev[a]);
                } else if a < pos {
                    assert(out@[a] == prev[a] && out@[c] == prev[c - 1]);
                } else if a == pos {
                    assert(out@[c] == prev[c - 1]);
                } else {
                    assert(out@[a] == prev[a - 1] && out@[c] == prev[c - 1]);
                }
            }
        }
        i = i + 1;
    }
    proof {
        assert(scored@.subrange(0, scored.len() as int) == scored@);
    }
    out
}

/// Orders moves so that corners and moves turning over many discs come first.
fn order_moves_by_heuristic(board: &Board, moves: Vec<u64>) -> (r: Vec<u64>)
    requires
        forall|a: int| 0 <= a < moves.len() ==> is_square(#[trigger] moves@[a]),
        forall|a: int, c: int| 0 <= a < c < moves.len() ==> moves@[a] < moves@[c],
    ensures
        r.len() == moves.len(),
        forall|x: u64| r@.contains(x) == moves@.contains(x),
        heuristic_order(*board, r@),
{
    let mut scored: Vec<(i32, u64)> = Vec::new();
    let mut i: usize = 0;
    let corners = corner_mask();
    while i < moves.len()
        invariant
            i <= moves.len(),
            corners == corner_bits(),
            scored.len() == i,
            forall|a: int| 0 <= a < moves.len() ==> is_square(#[trigger] moves@[a]),
            forall|a: int|
                0 <= a < i ==> (#[trigger] scored@[a]).1 == moves@[a] && scored@[a].0 == move_key(
                    *board,
                    moves@[a],
                ),
        decreases moves.len() - i,
    {
        let mv = moves[i];
        let before = count_ones(board.opponent_bits()) as i32;
        let after = count_ones(board.apply_move(mv).player_bits()) as i32;
        let flips = before - after;
        let corner_bonus: i32 = if mv & corners != 0 {
            100
        } else {
            0
        };
        scored.push((corner_bonus + flips, mv));
        i = i + 1;
    }
    let sorted = sort_by_score(scored);
    let mut result: Vec<u64> = Vec::new();
    let mut k: usize = 0;
    while k < sorted.len()
        invariant
            k <= sorted.len(),
            result.len() == k,
            forall|a: int| 0 <= a < k ==> #[trigger] result@[a] == sorted@[a].1,
        decreases sorted.len() - k,
    {
        result.push(sorted[k].1);
        k = k + 1;
    }
    proof {
        assert forall|x: u64| result@.contains(x) == moves@.contains(x) by {
            if result@.contains(x) {
                let a = choose|a: int| 0 <= a < result@.len() && result@[a] == x;
                assert(sorted@.contains(sorted@[a]));
                assert(scored@.contains(sorted@[a]));
                let b = choose|b: int| 0 <= b < scored@.len() && scored@[b] == sorted@[a];
                assert(moves@[b] == x);
            }
            if moves@.contains(x) {
                let b = choose|b: int| 0 <= b < moves@.len() && moves@[b] == x;
                assert(scored@.contains(scored@[b]));
                assert(sorted@.contains(scored@[b]));
                let a = choose|a: int| 0 <= a < sorted@.len() && sorted@[a] == scored@[b];
                assert(result@[a] == x);
            }
        }
        assert forall|a: int| 0 <= a < sorted@.len() implies sorted@[a].0 == move_key(
            *board,
            #[trigger] sorted@[a].1,
        ) by {
            assert(sorted@.contains(sorted@[a]));
            assert(scored@.contains(sorted@[a]));
            let b = choose|b: int| 0 <= b < scored@.len() && scored@[b] == sorted@[a];
            assert(scored@[b].0 == move_key(*board, moves@[b]));
        }
    }
    result
}


/// The legal moves of the side to move, as listed by `legal_moves_list`, are legal,
/// distinct and ascending; there are none exactly when the mover has no legal move.
pub proof fn lemma_move_list(b: Board, list: Seq<u64>)
    requires
        list == squares(moves_of(b.mover(), b.waiter())),
    ensures
        forall|a: int| 0 <= a < list.len() ==> is_legal_move(b, #[trigger] list[a]),
        forall|a: int, c: int| 0 <= a < c < list.len() ==> list[a] < list[c],
        (list.len() == 0) == (moves_of(b.mover(), b.waiter()) == 0),
{
    let m = moves_of(b.mover(), b.waiter());
    lemma_squares_below(m, 64);
    lemma_popcount_zero(m);
}

/// The key under which the table keeps the position where `player` is to move against
/// `opponent`: the mover's discs in the high 64 bits, the other side's in the low 64 bits.
pub open spec fn position_key(player: u64, opponent: u64) -> u128 {
    (player as int * 0x1_0000_0000_0000_0000 + opponent as int) as u128
}

/// Distinct positions have distinct keys.
pub proof fn lemma_position_key(p: u64, o: u64, p2: u64, o2: u64)
    ensures
        position_key(p, o) as int == p as int * 0x1_0000_0000_0000_0000 + o as int,
        position_key(p, o) == position_key(p2, o2) ==> p == p2 && o == o2,
{
    let x = p as int * 0x1_0000_0000_0000_0000 + o as int;
    let y = p2 as int * 0x1_0000_0000_0000_0000 + o2 as int;
    assert(0 <= x <= 0xffff_ffff_ffff_ffff_ffff_ffff_ffff_ffff) by (nonlinear_arith)
        requires
            x == p as int * 0x1_0000_0000_0000_0000 + o as int,
            0 <= p <= 0xffff_ffff_ffff_ffff,
            0 <= o <= 0xffff_ffff_ffff_ffff,
    ;
    assert(0 <= y <= 0xffff_ffff_ffff_ffff_ffff_ffff_ffff_ffff) by (nonlinear_arith)
        requires
            y == p2 as int * 0x1_0000_0000_0000_0000 + o2 as int,
            0 <= p2 <= 0xffff_ffff_ffff_ffff,
            0 <= o2 <= 0xffff_ffff_ffff_ffff,
    ;
    if x == y {
        if p < p2 {
            assert(p as int * 0x1_0000_0000_0000_0000 + 0x1_0000_0000_0000_0000 <= p2 as int
                * 0x1_0000_0000_0000_0000) by (nonlinear_arith)
                requires
                    p < p2,
            ;
        } else if p > p2 {
            assert(p2 as int * 0x1_0000_0000_0000_0000 + 0x1_0000_0000_0000_0000 <= p as int
                * 0x1_0000_0000_0000_0000) by (nonlinear_arith)
                requires
                    p2 < p,
            ;
        }
    }
}

/// What a cached score says of the value `v` of its position.
pub open spec fn bound_holds(e: TranspositionEntry, v: int) -> bool {
    match e.flag {
        EntryFlag::Exact => v == e.score,
        EntryFlag::LowerBound => v >= e.score,
        EntryFlag::UpperBound => v <= e.score,
    }
}

/// `e`, kept under key `k`, belongs to a position met `n` plies below the root `(p0, o0)`
/// and searched `e.depth >= 1` plies, with `n + e.depth` within `total`; its score bounds
/// that position's value as its flag says.
pub open spec fn entry_sound(e: TranspositionEntry, k: u128, p0: u64, o0: u64, total: nat) -> bool {
    exists|p: u64, o: u64, n: nat|
        #[trigger] reached(p0, o0, p, o, n) && position_key(p, o) == k && e.depth >= 1 && n
            + e.depth <= total && bound_holds(e, node_value(p, o, e.depth as nat))
}

/// Every entry of the table is sound for searches of `total` plies from `(p0, o0)`.
pub open spec fn table_sound(t: Map<u128, TranspositionEntry>, p0: u64, o0: u64, total: nat) -> bool {
    forall|k: u128| #[trigger] t.contains_key(k) ==> entry_sound(t[k], k, p0, o0, total)
}

/// The flag stored with the result `r` of a search with window `(alpha, beta)`.
pub open spec fn flag_for(r: int, alpha: int, beta: int) -> EntryFlag {
    if r <= alpha {
        EntryFlag::UpperBound
    } else if r >= beta {
        EntryFlag::LowerBound
    } else {
        EntryFlag::Exact
    }
}

/// The table holds an entry for key `k`, searched at least `depth` plies, that settles a
/// search with window `(alpha, beta)` at once: an exact score, or a bound that closes the
/// window.
pub open spec fn cache_hit(
    t: Map<u128, TranspositionEntry>,
    k: u128,
    depth: u32,
    alpha: int,
    beta: int,
) -> bool {
    &&& t.contains_key(k)
    &&& t[k].depth >= depth
    &&& match t[k].flag {
        EntryFlag::Exact => true,
        EntryFlag::LowerBound => alpha >= beta || t[k].score >= beta,
        EntryFlag::UpperBound => alpha >= beta || alpha >= t[k].score,
    }
}

/// The search of `b`, met `ply` plies below `root`, starts with a proper window, from a
/// root whose search meets no position at two different plies, with a sound table.
pub open spec fn search_ready(
    t: Map<u128, TranspositionEntry>,
    b: Board,
    depth: u32,
    alpha: int,
    beta: int,
    root: (u64, u64),
    ply: nat,
) -> bool {
    &&& alpha < beta
    &&& unique_plies(root.0, root.1, (ply + depth) as nat)
    &&& reached(root.0, root.1, b.mover(), b.waiter(), ply)
    &&& table_sound(t, root.0, root.1, (ply + depth) as nat)
}

proof fn lemma_table_grows(t: Map<u128, TranspositionEntry>, p0: u64, o0: u64, total: nat, more: nat)
    requires
        table_sound(t, p0, o0, total),
        total <= more,
    ensures
        table_sound(t, p0, o0, more),
{
    assert forall|k: u128| #[trigger] t.contains_key(k) implies entry_sound(t[k], k, p0, o0, more) by {
        assert(entry_sound(t[k], k, p0, o0, total));
        let (p, o, n): (u64, u64, nat) = choose|p: u64, o: u64, n: nat|
            #[trigger] reached(p0, o0, p, o, n) && position_key(p, o) == k && t[k].depth >= 1 && n
                + t[k].depth <= total && bound_holds(t[k], node_value(p, o, t[k].depth as nat));
        assert(reached(p0, o0, p, o, n));
    }
}

proof fn lemma_table_insert(
    t: Map<u128, TranspositionEntry>,
    k: u128,
    e: TranspositionEntry,
    p0: u64,
    o0: u64,
    total: nat,
)
    requires
        table_sound(t, p0, o0, total),
        entry_sound(e, k, p0, o0, total),
    ensures
        table_sound(t.insert(k, e), p0, o0, total),
{
    assert forall|j: u128| #[trigger] t.insert(k, e).contains_key(j) implies entry_sound(
        t.insert(k, e)[j],
        j,
        p0,
        o0,
        total,
    ) by {
        if j != k {
            assert(t.contains_key(j));
        }
    }
}

/// A usable entry of a sound table for a position met at a single ply was searched to
/// exactly the depth now asked for, and bounds the position's value.
proof fn lemma_cached_entry(
    t: Map<u128, TranspositionEntry>,
    k: u128,
    p0: u64,
    o0: u64,
    p: u64,
    o: u64,
    ply: nat,
    depth: u32,
)
    requires
        table_sound(t, p0, o0, (ply + depth) as nat),
        unique_plies(p0, o0, (ply + depth) as nat),
        reached(p0, o0, p, o, ply),
        t.contains_key(k),
        k == position_key(p, o),
        depth >= 1,
        t[k].depth >= depth,
    ensures
        t[k].depth == depth,
        bound_holds(t[k], node_value(p, o, depth as nat)),
{
    let e = t[k];
    assert(entry_sound(e, k, p0, o0, (ply + depth) as nat));
    let (q, r, n): (u64, u64, nat) = choose|q: u64, r: u64, n: nat|
        #[trigger] reached(p0, o0, q, r, n) && position_key(q, r) == k && e.depth >= 1 && n
            + e.depth <= (ply + depth) as nat && bound_holds(e, node_value(q, r, e.depth as nat));
    lemma_position_key(q, r, p, o);
    assert(reached(p0, o0, p, o, n));
    assert(n == ply);
}

/// With no position met at two plies below `total`, none is met at two plies below a
/// smaller bound.
proof fn lemma_unique_fewer(p0: u64, o0: u64, total: nat, fewer: nat)
    requires
        unique_plies(p0, o0, total),
        fewer <= total,
    ensures
        unique_plies(p0, o0, fewer),
{
}

/// After a search of the moves of `b` (all of them, or up to a cut-off), the best score
/// `best` found bounds or equals the value of `b` as a fail-soft search with window
/// `(alpha_s, beta)` answers.
proof fn lemma_moves_value(
    b: Board,
    depth: u32,
    ordered: Seq<u64>,
    i: int,
    cut: bool,
    best: int,
    alpha_s: int,
    beta: int,
)
    requires
        depth >= 1,
        !b.is_over(),
        moves_of(b.mover(), b.waiter()) != 0,
        forall|x: u64| ordered.contains(x) == squares(moves_of(b.mover(), b.waiter())).contains(x),
        forall|x: u64| ordered.contains(x) ==> is_legal_move(b, x),
        0 <= i <= ordered.len(),
        !cut ==> i == ordered.len(),
        cut ==> i < ordered.len(),
        alpha_s < beta,
        forall|k: int| 0 <= k < i ==> move_worth(b, #[trigger] ordered[k], (depth - 1) as nat) <= best,
        cut ==> best >= beta && move_worth(b, ordered[i], (depth - 1) as nat) >= best,
        !cut && best > alpha_s ==> exists|k: int|
            0 <= k < i && move_worth(b, #[trigger] ordered[k], (depth - 1) as nat) == best,
    ensures
        best >= beta ==> board_value(b, depth as nat) >= best,
        best <= alpha_s ==> board_value(b, depth as nat) <= best,
        alpha_s < best < beta ==> board_value(b, depth as nat) == best,
{
    let p = b.mover();
    let o = b.waiter();
    let d = depth as nat;
    let d1 = (depth - 1) as nat;
    lemma_board_sides(b, 0);
    lemma_node_value_moves(p, o, d);
    assert forall|m: u64| #[trigger] move_worth(b, m, d1) == move_value(p, o, d, square_of(m)) by {
        lemma_board_sides(b, m);
    }
    let v = board_value(b, d);
    if !cut {
        let s = choose|s: int|
            0 <= s < 64 && bit(moves_of(p, o), s) && #[trigger] move_value(p, o, d, s)
                == node_value(p, o, d);
        lemma_squares_below_has(moves_of(p, o), 64, s);
        lemma_sq_is_square(s);
        assert(ordered.contains(sq(s)));
        let k = choose|k: int| 0 <= k < ordered.len() && ordered[k] == sq(s);
        assert(move_worth(b, ordered[k], d1) == v);
    }
    if cut {
        let m = ordered[i];
        assert(ordered.contains(m));
        lemma_square_of(m);
        assert(move_value(p, o, d, square_of(m)) <= v);
    } else if best > alpha_s {
        let k = choose|k: int| 0 <= k < i && move_worth(b, #[trigger] ordered[k], d1) == best;
        let m = ordered[k];
        assert(ordered.contains(m));
        lemma_square_of(m);
        assert(move_value(p, o, d, square_of(m)) <= v);
    }
}
fn negamax_with_table(
    board: &Board,
    depth: u32,
    alpha: i32,
    beta: i32,
    table: &mut HashMap<u128, TranspositionEntry>,
    Ghost(root): Ghost<(u64, u64)>,
    Ghost(ply): Ghost<nat>,
) -> (r: i32)
    requires
        alpha != i32::MIN,
        beta != i32::MIN,
        table_ok(old(table)@),
    ensures
        table_ok(final(table)@),
        -eval_bound() <= r <= eval_bound(),
        depth == 0 || board.is_over() ==> r == eval_score(*board) && final(table)@ == old(table)@,
        depth >= 1 && !board.is_over() && cache_hit(
            old(table)@,
            position_key(board.mover(), board.waiter()),
            depth,
            alpha as int,
            beta as int,
        ) ==> r == old(table)@[position_key(board.mover(), board.waiter())].score
            && final(table)@ == old(table)@,
        depth >= 1 && !board.is_over() && !cache_hit(
            old(table)@,
            position_key(board.mover(), board.waiter()),
            depth,
            alpha as int,
            beta as int,
        ) ==> final(table)@.contains_key(position_key(board.mover(), board.waiter()))
            && final(table)@[position_key(board.mover(), board.waiter())] == (TranspositionEntry {
            depth,
            score: r,
            flag: flag_for(r as int, alpha as int, beta as int),
        }),
        search_ready(old(table)@, *board, depth, alpha as int, beta as int, root, ply)
            ==> table_sound(final(table)@, root.0, root.1, (ply + depth) as nat) && fail_soft(
            r as int,
            alpha as int,
            beta as int,
            board_value(*board, depth as nat),
        ),
    decreases depth,
{
    let ghost start = table@;
    let ghost ready = search_ready(table@, *board, depth, alpha as int, beta as int, root, ply);
    let ghost p = board.mover();
    let ghost o = board.waiter();
    let ghost total = (ply + depth) as nat;
    let ghost value = board_value(*board, depth as nat);
    let mut alpha = alpha;
    let original_alpha = alpha;
    proof {
        lemma_board_sides(*board, 0);
    }
    if depth == 0 || board.game_over() {
        return evaluate(board);
    }
    let key = table_key(board.player_bits(), board.opponent_bits());
    if let Some(found) = table.get(&key) {
        let entry = *found;
        if entry.depth >= depth {
            proof {
                if ready {
                    lemma_cached_entry(table@, key, root.0, root.1, p, o, ply, depth);
                }
            }
            let mut table_beta = beta;
            match entry.flag {
                EntryFlag::Exact => {
                    return entry.score;
                },
                EntryFlag::LowerBound => {
                    alpha = max_i32(alpha, entry.score);
                },
                EntryFlag::UpperBound => {
                    table_beta = min_i32(table_beta, entry.score);
                },
            }
            if alpha >= table_beta {
                return entry.score;
            }
        }
    }
    let ghost alpha_s = alpha as int;
    assert(!cache_hit(start, key, depth, original_alpha as int, beta as int));
    assert(ready ==> alpha_s < beta && (alpha_s == original_alpha || value >= alpha_s));
    let legal_moves = board.legal_moves_list();
    proof {
        lemma_move_list(*board, legal_moves@);
    }
    let mut score: i32 = 0;
    if legal_moves.len() == 0 {
        let child = board.pass();
        proof {
            if ready {
                assert(step_to(p, o, o, p));
                lemma_reached_step(root.0, root.1, p, o, ply, o, p);
            }
        }
        let reply = negamax_with_table(
            &child,
            depth - 1,
            -beta,
            -alpha,
            table,
            Ghost(root),
            Ghost(ply + 1),
        );
        score = -reply;
        proof {
            assert(value == -board_value(child, (depth - 1) as nat));
            if ready {
                lemma_fail_soft_lift(score as int, original_alpha as int, alpha_s, beta as int, value);
            }
        }
    } else {
        let ghost d1 = (depth - 1) as nat;
        let mut best = -INF;
        let ordered = order_moves_by_heuristic(board, legal_moves);
        let mut i: usize = 0;
        let mut cut = false;
        while i < ordered.len() && !cut
            invariant
                i <= ordered.len(),
                ordered.len() > 0,
                depth >= 1,
                alpha != i32::MIN,
                beta != i32::MIN,
                table_ok(table@),
                forall|x: u64| ordered@.contains(x) ==> is_legal_move(*board, x),
                i == 0 && !cut ==> best == -INF && alpha == alpha_s,
                i > 0 || cut ==> -eval_bound() <= best <= eval_bound() && alpha == (if alpha_s
                    >= best {
                    alpha_s
                } else {
                    best as int
                }),
                cut ==> i < ordered.len() && alpha >= beta,
                i > 0 && !cut ==> alpha < beta,
                p == board.mover(),
                o == board.waiter(),
                d1 == depth - 1,
                total == ply + depth,
                !board.is_over(),
                moves_of(p, o) != 0,
                ready ==> alpha_s < beta && unique_plies(root.0, root.1, total) && reached(
                    root.0,
                    root.1,
                    p,
                    o,
                    ply,
                ),
                ready ==> table_sound(table@, root.0, root.1, total),
                ready ==> forall|k: int|
                    0 <= k < i ==> move_worth(*board, #[trigger] ordered@[k], d1) <= best,
                ready && cut ==> best >= beta && move_worth(*board, ordered@[i as int], d1) >= best,
                ready && !cut && i > 0 && best > alpha_s ==> exists|k: int|
                    0 <= k < i && move_worth(*board, #[trigger] ordered@[k], d1) == best,
            decreases ordered.len() - i + if cut {
                0int
            } else {
                1int
            },
        {
            let mv = ordered[i];
            proof {
                assert(ordered@.contains(ordered@[i as int]));
                assert(is_legal_move(*board, mv));
                lemma_square_of(mv);
                lemma_board_sides(*board, mv);
            }
            let child = board.apply_move(mv);
            proof {
                if ready {
                    assert(step_to(p, o, child.mover(), child.waiter()));
                    lemma_reached_step(root.0, root.1, p, o, ply, child.mover(), child.waiter());
                }
            }
            let reply = negamax_with_table(
                &child,
                depth - 1,
                -beta,
                -alpha,
                table,
                Ghost(root),
                Ghost(ply + 1),
            );
            let child_score = -reply;
            let ghost old_best = best as int;
            let ghost old_alpha = alpha as int;
            best = max_i32(best, child_score);
            alpha = max_i32(alpha, child_score);
            proof {
                if ready {
                    let w = move_worth(*board, mv, d1);
                    assert(w == -board_value(child, d1));
                    if child_score >= beta {
                        assert(w >= child_score);
                        assert(best == child_score);
                    } else if child_score <= old_alpha {
                        assert(w <= child_score);
                        if best > alpha_s && i > 0 {
                            assert(best == old_best);
                        }
                    } else {
                        assert(w == child_score);
                        if child_score > old_best {
                            assert(move_worth(*board, ordered@[i as int], d1) == best);
                        }
                    }
                }
            }
            if alpha >= beta {
                cut = true;
            } else {
                i = i + 1;
            }
        }
        proof {
            if ready {
                lemma_moves_value(*board, depth, ordered@, i as int, cut, best as int, alpha_s, beta as int);
                lemma_fail_soft_lift(best as int, original_alpha as int, alpha_s, beta as int, value);
            }
        }
        score = best;
    }

    let flag = if score <= original_alpha {
        EntryFlag::UpperBound
    } else if score >= beta {
        EntryFlag::LowerBound
    } else {
        EntryFlag::Exact
    };
    let ghost before = table@;
    let entry = TranspositionEntry { depth, score, flag };
    table.insert(key, entry);
    proof {
        if ready {
            assert(reached(root.0, root.1, p, o, ply));
            assert(entry_sound(entry, key, root.0, root.1, total));
            lemma_table_insert(before, key, entry, root.0, root.1, total);
        }
    }
    score
}

/// Searches a board with negamax and alpha-beta pruning.
///
/// The answer is fail-soft against the game-tree value when the search meets no position
/// at two different plies (a cached score found deeper is reused as is). That is proved
/// for searches of one ply, of two plies, and of any depth in which no forced pass
/// happens above the last ply (see `laws`); a deeper search that passes on the way, as
/// may happen at the depth the front ends use, is not covered.
pub fn negamax(board: &Board, depth: u32, alpha: i32, beta: i32) -> (r: i32)
    requires
        alpha != i32::MIN,
        beta != i32::MIN,
    ensures
        -eval_bound() <= r <= eval_bound(),
        depth == 0 || board.is_over() ==> r == eval_score(*board),
        unique_plies(board.mover(), board.waiter(), depth as nat) && alpha < beta ==> fail_soft(
            r as int,
            alpha as int,
            beta as int,
            board_value(*board, depth as nat),
        ),
{
    let mut table: HashMap<u128, TranspositionEntry> = HashMap::new();
    proof {
        assert(reached(board.mover(), board.waiter(), board.mover(), board.waiter(), 0));
    }
    negamax_with_table(
        board,
        depth,
        alpha,
        beta,
        &mut table,
        Ghost((board.mover(), board.waiter())),
        Ghost(0nat),
    )
}

/// The score of move `mv` for the side playing it, looking one ply ahead.
pub open spec fn one_ply_score(b: Board, mv: u64) -> int {
    -eval_score(b.after_move(mv))
}

/// `mv` is the first of `moves` with the highest one-ply score.
pub open spec fn first_best(b: Board, moves: Seq<u64>, mv: u64) -> bool {
    exists|k: int|
        0 <= k < moves.len() && #[trigger] moves[k] == mv && (forall|j: int|
            0 <= j < k ==> one_ply_score(b, #[trigger] moves[j]) < one_ply_score(b, mv)) && (
        forall|j: int| 0 <= j < moves.len() ==> one_ply_score(b, #[trigger] moves[j]) <= one_ply_score(b, mv))
}

/// `m` is the first of `moves` of greatest worth when replies are searched `d` plies.
pub open spec fn first_best_worth(b: Board, moves: Seq<u64>, d: nat, m: u64) -> bool {
    exists|k: int|
        0 <= k < moves.len() && #[trigger] moves[k] == m && (forall|j: int|
            0 <= j < k ==> move_worth(b, #[trigger] moves[j], d) < move_worth(b, m, d)) && (
        forall|j: int| 0 <= j < moves.len() ==> move_worth(b, #[trigger] moves[j], d) <= move_worth(b, m, d))
}

proof fn lemma_first_best_worth_unique(b: Board, moves: Seq<u64>, d: nat, m1: u64, m2: u64)
    requires
        first_best_worth(b, moves, d, m1),
        first_best_worth(b, moves, d, m2),
    ensures
        m1 == m2,
{
    let k1 = choose|k: int|
        0 <= k < moves.len() && #[trigger] moves[k] == m1 && (forall|j: int|
            0 <= j < k ==> move_worth(b, #[trigger] moves[j], d) < move_worth(b, m1, d)) && (
        forall|j: int| 0 <= j < moves.len() ==> move_worth(b, #[trigger] moves[j], d) <= move_worth(b, m1, d));
    let k2 = choose|k: int|
        0 <= k < moves.len() && #[trigger] moves[k] == m2 && (forall|j: int|
            0 <= j < k ==> move_worth(b, #[trigger] moves[j], d) < move_worth(b, m2, d)) && (
        forall|j: int| 0 <= j < moves.len() ==> move_worth(b, #[trigger] moves[j], d) <= move_worth(b, m2, d));
    if k1 < k2 {
        assert(move_worth(b, moves[k1], d) < move_worth(b, m2, d));
        assert(move_worth(b, moves[k2], d) <= move_worth(b, m1, d));
    } else if k2 < k1 {
        assert(move_worth(b, moves[k2], d) < move_worth(b, m1, d));
        assert(move_worth(b, moves[k1], d) <= move_worth(b, m2, d));
    }
}

/// The move iterative deepening settles on after `s` depths: at each depth the legal
/// moves are listed in ascending order of square with the previous depth's pick swapped
/// to the front, and the pick is the first of them of greatest worth at that depth.
pub open spec fn deepening_pick(b: Board, s: nat) -> Option<u64>
    decreases s,
{
    if s == 0 {
        None
    } else {
        let d = (s - 1) as nat;
        let moves = front_first(squares(moves_of(b.mover(), b.waiter())), deepening_pick(b, d));
        Some(choose|m: u64| #[trigger] first_best_worth(b, moves, d, m))
    }
}

/// What `best_move` promises of the move `m` it picks searching `depth` plies: it is legal;
/// at depth one it is the first move of best one-ply score; and when the search meets no
/// position at two different plies, no legal move is worth more at that depth, and `m` is
/// the move iterative deepening settles on, which breaks ties between equally good moves.
pub open spec fn search_choice(b: Board, depth: u32, m: u64) -> bool {
    &&& is_legal_move(b, m)
    &&& depth == 1 ==> first_best(b, squares(moves_of(b.mover(), b.waiter())), m)
    &&& unique_plies(b.mover(), b.waiter(), depth as nat) ==> forall|m2: u64|
        is_legal_move(b, m2) ==> #[trigger] move_worth(b, m2, (depth - 1) as nat) <= move_worth(
            b,
            m,
            (depth - 1) as nat,
        )
    &&& unique_plies(b.mover(), b.waiter(), depth as nat) ==> deepening_pick(b, depth as nat)
        == Some(m)
}

/// Every legal move is one of the listed legal moves.
proof fn lemma_legal_listed(b: Board, m: u64)
    requires
        is_legal_move(b, m),
    ensures
        squares(moves_of(b.mover(), b.waiter())).contains(m),
{
    lemma_square_of(m);
    lemma_squares_below_has(moves_of(b.mover(), b.waiter()), 64, square_of(m));
}

/// Finds the best move for the current player up to `depth` plies using iterative deepening.
///
/// The move is always legal; that it is the best at `depth`, and the one iterative
/// deepening settles on, holds under the same condition as `negamax`'s law.
#[verifier::rlimit(60)]
pub fn best_move(board: &Board, depth: u32) -> (r: Option<u64>)
    ensures
        r is Some == (depth >= 1 && moves_of(board.mover(), board.waiter()) != 0),
        r matches Some(mv) ==> search_choice(*board, depth, mv),
{
    let legal = board.legal_moves_list();
    proof {
        lemma_move_list(*board, legal@);
        lemma_board_sides(*board, 0);
    }
    if legal.len() == 0 {
        return None;
    }
    let ghost p = board.mover();
    let ghost o = board.waiter();
    let ghost unique = unique_plies(p, o, depth as nat);

    let mut table: HashMap<u128, TranspositionEntry> = HashMap::new();
    let mut previous_best: Option<u64> = None;
    let mut done: u32 = 0;

    while done < depth
        invariant
            done <= depth,
            legal.len() > 0,
            p == board.mover(),
            o == board.waiter(),
            unique == unique_plies(p, o, depth as nat),
            !board.is_over(),
            moves_of(p, o) != 0,
            forall|a: int| 0 <= a < legal.len() ==> is_legal_move(*board, #[trigger] legal@[a]),
            forall|a: int, c: int| 0 <= a < c < legal.len() ==> legal@[a] < legal@[c],
            table_ok(table@),
            previous_best matches Some(mv) ==> is_legal_move(*board, mv),
            done >= 1 ==> previous_best is Some,
            done == 0 ==> previous_best is None,
            legal@ == squares(moves_of(board.mover(), board.waiter())),
            done == 1 ==> first_best(*board, legal@, previous_best->0),
            unique ==> table_sound(table@, p, o, done as nat),
            unique && done >= 1 ==> forall|m2: u64|
                is_legal_move(*board, m2) ==> #[trigger] move_worth(*board, m2, (done - 1) as nat)
                    <= move_worth(*board, previous_best->0, (done - 1) as nat),
            unique ==> previous_best == deepening_pick(*board, done as nat),
        decreases depth - done,
    {
        let search_depth = done + 1;
        let ghost d1 = (search_depth - 1) as nat;
        let ordered = ordered_moves(legal.clone(), previous_best);
        proof {
            assert forall|x: u64| ordered@.contains(x) implies is_legal_move(*board, x) by {
                assert(legal@.contains(x));
                let a = choose|a: int| 0 <= a < legal@.len() && legal@[a] == x;
                assert(is_legal_move(*board, legal@[a]));
            }
            if unique {
                lemma_table_grows(table@, p, o, done as nat, search_depth as nat);
                lemma_unique_fewer(p, o, depth as nat, search_depth as nat);
            }
        }
        let mut best_score = -INF;
        let mut best_at_depth: Option<u64> = None;
        let ghost mut best_index: int = 0;
        let mut alpha = -INF;
        let mut i: usize = 0;
        while i < ordered.len()
            invariant
                i <= ordered.len(),
                ordered.len() > 0,
                search_depth >= 1,
                search_depth <= depth,
                d1 == search_depth - 1,
                p == board.mover(),
                o == board.waiter(),
                !board.is_over(),
                moves_of(p, o) != 0,
                forall|x: u64| ordered@.contains(x) ==> is_legal_move(*board, x),
                forall|x: u64| ordered@.contains(x) == legal@.contains(x),
                legal@ == squares(moves_of(board.mover(), board.waiter())),
                table_ok(table@),
                alpha == best_score,
                -INF <= best_score <= eval_bound(),
                best_at_depth matches Some(mv) ==> is_legal_move(*board, mv),
                i >= 1 ==> best_at_depth is Some,
                best_at_depth is None ==> best_score == -INF,
                search_depth == 1 ==> ordered@ == legal@,
                search_depth == 1 && best_at_depth is Some ==> first_best(
                    *board,
                    ordered@.take(i as int),
                    best_at_depth->0,
                ) && best_score == one_ply_score(*board, best_at_depth->0),
                unique ==> unique_plies(p, o, search_depth as nat),
                unique ==> table_sound(table@, p, o, search_depth as nat),
                unique ==> forall|k: int|
                    0 <= k < i ==> move_worth(*board, #[trigger] ordered@[k], d1) <= best_score,
                unique && best_at_depth is Some ==> move_worth(*board, best_at_depth->0, d1)
                    == best_score,
                ordered@ == front_first(legal@, previous_best),
                unique ==> previous_best == deepening_pick(*board, done as nat),
                search_depth == done + 1,
                best_at_depth is Some ==> 0 <= best_index < i && ordered@[best_index]
                    == best_at_depth->0,
                unique && best_at_depth is Some ==> forall|j: int|
                    0 <= j < best_index ==> move_worth(*board, #[trigger] ordered@[j], d1)
                        < best_score,
            decreases ordered.len() - i,
        {
            let mv = ordered[i];
            proof {
                assert(ordered@.contains(ordered@[i as int]));
                assert(is_legal_move(*board, mv));
                lemma_square_of(mv);
                lemma_board_sides(*board, mv);
            }
            let child = board.apply_move(mv);
            proof {
                if unique {
                    assert(reached(p, o, p, o, 0));
                    assert(step_to(p, o, child.mover(), child.waiter()));
                    lemma_reached_step(p, o, p, o, 0, child.mover(), child.waiter());
                }
            }
            let reply = negamax_with_table(
                &child,
                search_depth - 1,
                -INF,
                -alpha,
                &mut table,
                Ghost((p, o)),
                Ghost(1nat),
            );
            let score = -reply;
            let ghost old_best = best_at_depth;
            let ghost old_score = best_score;
            if score > best_score {
                best_score = score;
                best_at_depth = Some(mv);
                proof {
                    best_index = i as int;
                }
            }
            proof {
                if unique {
                    let w = move_worth(*board, mv, d1);
                    assert(w == -board_value(child, d1));
                    if score > old_score {
                        assert(w == score);
                    } else {
                        assert(w <= score);
                    }
                }
                if search_depth == 1 {
                    let prefix = ordered@.take(i as int);
                    let next = ordered@.take(i + 1);
                    assert(score == one_ply_score(*board, mv));
                    assert(next[i as int] == mv);
                    if score > old_score {
                        assert forall|j: int| 0 <= j < i implies one_ply_score(
                            *board,
                            #[trigger] next[j],
                        ) < one_ply_score(*board, mv) by {
                            assert(next[j] == prefix[j]);
                            if old_best is Some {
                                let b = old_best->0;
                                assert(one_ply_score(*board, prefix[j]) <= one_ply_score(*board, b));
                            } else {
                                assert(i == 0);
                            }
                        }
                        assert(first_best(*board, next, mv));
                    } else {
                        let b = old_best->0;
                        let k = choose|k: int|
                            0 <= k < prefix.len() && #[trigger] prefix[k] == b && (forall|j: int|
                                0 <= j < k ==> one_ply_score(*board, #[trigger] prefix[j])
                                    < one_ply_score(*board, b)) && (forall|j: int|
                                0 <= j < prefix.len() ==> one_ply_score(*board, #[trigger] prefix[j])
                                    <= one_ply_score(*board, b));
                        assert(next[k] == b);
                        assert forall|j: int| 0 <= j < k implies one_ply_score(
                            *board,
                            #[trigger] next[j],
                        ) < one_ply_score(*board, b) by {
                            assert(next[j] == prefix[j]);
                        }
                        assert forall|j: int| 0 <= j < next.len() implies one_ply_score(
                            *board,
                            #[trigger] next[j],
                        ) <= one_ply_score(*board, b) by {
                            if j < i {
                                assert(next[j] == prefix[j]);
                            }
                        }
                        assert(first_best(*board, next, b));
                    }
                }
            }
            alpha = max_i32(alpha, best_score);
            i = i + 1;
        }
        proof {
            if search_depth == 1 {
                assert(ordered@.take(ordered.len() as int) =~= ordered@);
            }
            if unique {
                let m = best_at_depth->0;
                assert forall|m2: u64| is_legal_move(*board, m2) implies #[trigger] move_worth(
                    *board,
                    m2,
                    d1,
                ) <= move_worth(*board, m, d1) by {
                    lemma_legal_listed(*board, m2);
                    assert(ordered@.contains(m2));
                    let k = choose|k: int| 0 <= k < ordered@.len() && ordered@[k] == m2;
                    assert(move_worth(*board, ordered@[k], d1) <= best_score);
                }
                assert(first_best_worth(*board, ordered@, d1, m));
                let chosen = choose|c: u64| #[trigger] first_best_worth(*board, ordered@, d1, c);
                lemma_first_best_worth_unique(*board, ordered@, d1, m, chosen);
                assert(deepening_pick(*board, search_depth as nat) == Some(m));
            }
        }
        if best_at_depth.is_some() {
            previous_best = best_at_depth;
        }
        done = done + 1;
    }

    previous_best
}

} // verus!
