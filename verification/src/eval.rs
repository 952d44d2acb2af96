//! Position evaluation heuristics for Reversi search.
use vstd::prelude::*;

use crate::bits::{
    bit, bits_where, col, count_ones, lemma_bits_where, lemma_bit_and, lemma_bit_ext, lemma_bit_or, lemma_bit_sq, lemma_bit_zero,
    lemma_or_comm, lemma_sq_and, popcount, row, sq,
};
use crate::board::{moves_of, Board, Player};

verus! {

/// Corner `k` (0 to 3): `a1`, `h1`, `a8`, `h8`.
pub open spec fn corner_at(k: int) -> int {
    if k == 0 {
        0
    } else if k == 1 {
        7
    } else if k == 2 {
        56
    } else {
        63
    }
}

/// The `j`-th square (0 to 2) next to corner `k`.
pub open spec fn adjacent_at(k: int, j: int) -> int {
    if k == 0 {
        if j == 0 {
            1
        } else if j == 1 {
            8
        } else {
            9
        }
    } else if k == 1 {
        if j == 0 {
            6
        } else if j == 1 {
            14
        } else {
            15
        }
    } else if k == 2 {
        if j == 0 {
            48
        } else if j == 1 {
            49
        } else {
            57
        }
    } else {
        if j == 0 {
            54
        } else if j == 1 {
            55
        } else {
            62
        }
    }
}

pub open spec fn is_corner(i: int) -> bool {
    i == 0 || i == 7 || i == 56 || i == 63
}

/// Square `t` (0 to 7) of edge `e`: first rank, last rank, `a` file, `h` file.
pub open spec fn edge_at(e: int, t: int) -> int {
    if e == 0 {
        t
    } else if e == 1 {
        56 + t
    } else if e == 2 {
        8 * t
    } else {
        7 + 8 * t
    }
}

/// Square `i` lies on edge `e`.
pub open spec fn on_edge(e: int, i: int) -> bool {
    &&& 0 <= i < 64
    &&& if e == 0 {
        row(i) == 0
    } else if e == 1 {
        row(i) == 7
    } else if e == 2 {
        col(i) == 0
    } else {
        col(i) == 7
    }
}

/// Position of square `i` along edge `e`.
pub open spec fn edge_pos(e: int, i: int) -> int {
    if e <= 1 {
        col(i)
    } else {
        row(i)
    }
}

/// `i` is on edge `e` and every square from the edge's first square up to `i` holds `p`.
pub open spec fn run_start(p: u64, e: int, i: int) -> bool {
    &&& on_edge(e, i)
    &&& forall|u: int| 0 <= u <= edge_pos(e, i) ==> #[trigger] bit(p, edge_at(e, u))
}

/// `i` is on edge `e` and every square from `i` up to the edge's last square holds `p`.
pub open spec fn run_end(p: u64, e: int, i: int) -> bool {
    &&& on_edge(e, i)
    &&& forall|u: int| edge_pos(e, i) <= u < 8 ==> #[trigger] bit(p, edge_at(e, u))
}

/// Every square of edge `e` is occupied.
pub open spec fn edge_full(occupied: u64, e: int) -> bool {
    forall|t: int| 0 <= t < 8 ==> #[trigger] bit(occupied, edge_at(e, t))
}

/// Square `i` counts as stable for the owner of `p` along edge `e`.
pub open spec fn stable_on_edge(p: u64, o: u64, e: int, i: int) -> bool {
    ||| edge_full(p | o, e) && on_edge(e, i)
    ||| run_start(p, e, i)
    ||| run_end(p, e, i)
}

/// Stability through corners and the first `n` edges.
pub open spec fn stable_upto(p: u64, o: u64, i: int, n: nat) -> bool
    decreases n,
{
    if n == 0 {
        is_corner(i)
    } else {
        stable_upto(p, o, i, (n - 1) as nat) || stable_on_edge(p, o, n - 1, i)
    }
}

/// A disc of `p` that is clearly stable: a corner, a disc on a full edge, or a disc in
/// an unbroken line of `p` running from a corner along an edge.
pub open spec fn stable_sq(p: u64, o: u64, i: int) -> bool {
    bit(p, i) && stable_upto(p, o, i, 4)
}

/// `r` holds exactly the stable discs of `p`.
pub open spec fn stable_set(p: u64, o: u64, r: u64) -> bool {
    forall|i: int| 0 <= i < 64 ==> #[trigger] bit(r, i) == stable_sq(p, o, i)
}

/// The bitboard of the stable discs of `p`.
pub open spec fn stable_mask(p: u64, o: u64) -> u64 {
    bits_where(|i: int| stable_sq(p, o, i))
}

pub proof fn lemma_stable_mask(p: u64, o: u64, r: u64)
    requires
        stable_set(p, o, r),
    ensures
        r == stable_mask(p, o),
{
    let c = stable_mask(p, o);
    lemma_bits_where(|i: int| stable_sq(p, o, i));
    assert forall|i: int| 0 <= i < 64 implies bit(r, i) == bit(c, i) by {}
    lemma_bit_ext(r, c);
}

/// +1 when `own` holds square `i`, -1 when `opp` holds it, 0 otherwise.
pub open spec fn delta(own: u64, opp: u64, i: int) -> int {
    if bit(own, i) {
        1
    } else if bit(opp, i) {
        -1
    } else {
        0
    }
}

/// Corner ownership over the first `n` corners.
pub open spec fn corners_upto(own: u64, opp: u64, n: nat) -> int
    decreases n,
{
    if n == 0 {
        0
    } else {
        corners_upto(own, opp, (n - 1) as nat) + delta(own, opp, corner_at(n - 1))
    }
}

/// Penalty for the squares next to corner `k`, counted only while that corner is empty.
pub open spec fn adjacency_term(own: u64, opp: u64, k: int) -> int {
    if bit(own, corner_at(k)) || bit(opp, corner_at(k)) {
        0
    } else {
        -(delta(own, opp, adjacent_at(k, 0)) + delta(own, opp, adjacent_at(k, 1)) + delta(
            own,
            opp,
            adjacent_at(k, 2),
        ))
    }
}

pub open spec fn adjacency_upto(own: u64, opp: u64, n: nat) -> int
    decreases n,
{
    if n == 0 {
        0
    } else {
        adjacency_upto(own, opp, (n - 1) as nat) + adjacency_term(own, opp, n - 1)
    }
}

/// Mobility difference.
pub open spec fn mobility(own: u64, opp: u64) -> int {
    popcount(moves_of(own, opp)) - popcount(moves_of(opp, own))
}

/// Stable disc difference.
pub open spec fn stability(own: u64, opp: u64) -> int {
    popcount(stable_mask(own, opp)) - popcount(stable_mask(opp, own))
}

/// The weighted, phase-dependent score of a position that is not over, for the side
/// owning `own`.
pub open spec fn heuristic(own: u64, opp: u64) -> int {
    let occupied = popcount(own | opp);
    let m = mobility(own, opp);
    let c = corners_upto(own, opp, 4);
    let a = adjacency_upto(own, opp, 4);
    let s = stability(own, opp);
    let d = popcount(own) - popcount(opp);
    if occupied < 20 {
        m * 12 + c * 40 + a * 15 + s * 4
    } else if occupied < 55 {
        m * 8 + c * 45 + a * 10 + s * 10
    } else {
        m * 2 + c * 50 + s * 14 + d * 8
    }
}

/// Score of a finished game for the side to move: ten thousand per disc of lead.
pub open spec fn terminal_value(b: Board) -> int {
    (popcount(b.mover()) - popcount(b.waiter())) * 10000
}

/// The evaluation of a board from the side to move's perspective.
pub open spec fn eval_score(b: Board) -> int {
    if b.is_over() {
        terminal_value(b)
    } else {
        heuristic(b.mover(), b.waiter())
    }
}

/// Largest magnitude an evaluation can reach.
pub open spec fn eval_bound() -> int {
    640000
}


fn corner_square(k: usize) -> (r: u64)
    requires
        k < 4,
    ensures
        r == sq(corner_at(k as int)),
{
    match k {
        0 => 1u64 << 0u64,
        1 => 1u64 << 7u64,
        2 => 1u64 << 56u64,
        _ => 1u64 << 63u64,
    }
}

fn adjacent_square(k: usize, j: usize) -> (r: u64)
    requires
        k < 4,
        j < 3,
    ensures
        r == sq(adjacent_at(k as int, j as int)),
{
    let index: u64 = match k {
        0 => {
            if j == 0 {
                1
            } else if j == 1 {
                8
            } else {
                9
            }
        },
        1 => {
            if j == 0 {
                6
            } else if j == 1 {
                14
            } else {
                15
            }
        },
        2 => {
            if j == 0 {
                48
            } else if j == 1 {
                49
            } else {
                57
            }
        },
        _ => {
            if j == 0 {
                54
            } else if j == 1 {
                55
            } else {
                62
            }
        },
    };
    1u64 << index
}

fn edge_square(e: usize, t: usize) -> (r: u64)
    requires
        e < 4,
        t < 8,
    ensures
        r == sq(edge_at(e as int, t as int)),
{
    let t = t as u64;
    let index: u64 = match e {
        0 => t,
        1 => 56 + t,
        2 => 8 * t,
        _ => 7 + 8 * t,
    };
    1u64 << index
}

fn corners_mask() -> (r: u64)
    ensures
        forall|i: int| 0 <= i < 64 ==> #[trigger] bit(r, i) == is_corner(i),
{
    let mut mask: u64 = 0;
    let mut k: usize = 0;
    proof {
        assert forall|i: int| 0 <= i < 64 implies !#[trigger] bit(mask, i) by {
            lemma_bit_zero(i);
        }
    }
    while k < 4
        invariant
            k <= 4,
            forall|i: int|
                0 <= i < 64 ==> #[trigger] bit(mask, i) == exists|u: int|
                    0 <= u < k && i == #[trigger] corner_at(u),
        decreases 4 - k,
    {
        let c = corner_square(k);
        let ghost prev = mask;
        mask = mask | c;
        assert forall|i: int| 0 <= i < 64 implies #[trigger] bit(mask, i) == exists|u: int|
            0 <= u < k + 1 && i == #[trigger] corner_at(u) by {
            lemma_bit_or(prev, c, i);
            lemma_bit_sq(corner_at(k as int), i);
            if exists|u: int| 0 <= u < k + 1 && i == #[trigger] corner_at(u) {
                let u = choose|u: int| 0 <= u < k + 1 && i == #[trigger] corner_at(u);
                if u < k {
                    assert(bit(prev, i));
                }
            }
        }
        k = k + 1;
    }
    proof {
        assert forall|i: int| 0 <= i < 64 implies #[trigger] bit(mask, i) == is_corner(i) by {
            if is_corner(i) {
                if i == 0 {
                    assert(i == corner_at(0));
                } else if i == 7 {
                    assert(i == corner_at(1));
                } else if i == 56 {
                    assert(i == corner_at(2));
                } else {
                    assert(i == corner_at(3));
                }
            }
        }
    }
    mask
}

fn ownership_delta(square: u64, own: u64, opp: u64) -> (r: i32)
    ensures
        r == (if square & own != 0 {
            1int
        } else if square & opp != 0 {
            -1int
        } else {
            0int
        }),
{
    if square & own != 0 {
        1
    } else if square & opp != 0 {
        -1
    } else {
        0
    }
}

fn corner_score(own: u64, opp: u64) -> (r: i32)
    ensures
        r == corners_upto(own, opp, 4),
        -4 <= r <= 4,
{
    let mut score: i32 = 0;
    let mut k: usize = 0;
    while k < 4
        invariant
            k <= 4,
            score == corners_upto(own, opp, k as nat),
            -k <= score <= k,
        decreases 4 - k,
    {
        let corner = corner_square(k);
        proof {
            lemma_sq_and(corner_at(k as int), own);
            lemma_sq_and(corner_at(k as int), opp);
        }
        score = score + ownership_delta(corner, own, opp);
        k = k + 1;
    }
    score
}

fn corner_adjacency_score(own: u64, opp: u64) -> (r: i32)
    ensures
        r == adjacency_upto(own, opp, 4),
        -12 <= r <= 12,
{
    let mut score: i32 = 0;
    let mut k: usize = 0;
    while k < 4
        invariant
            k <= 4,
            score == adjacency_upto(own, opp, k as nat),
            -3 * k <= score <= 3 * k,
        decreases 4 - k,
    {
        let corner = corner_square(k);
        proof {
            lemma_sq_and(corner_at(k as int), own | opp);
            lemma_bit_or(own, opp, corner_at(k as int));
        }
        if corner & (own | opp) == 0 {
            let mut j: usize = 0;
            let ghost base = score;
            while j < 3
                invariant
                    k < 4,
                    j <= 3,
                    -3 * k <= base <= 3 * k,
                    score == base - (if j >= 1 {
                        delta(own, opp, adjacent_at(k as int, 0))
                    } else {
                        0
                    }) - (if j >= 2 {
                        delta(own, opp, adjacent_at(k as int, 1))
                    } else {
                        0
                    }) - (if j >= 3 {
                        delta(own, opp, adjacent_at(k as int, 2))
                    } else {
                        0
                    }),
                decreases 3 - j,
            {
                let square = adjacent_square(k, j);
                proof {
                    lemma_sq_and(adjacent_at(k as int, j as int), own);
                    lemma_sq_and(adjacent_at(k as int, j as int), opp);
                }
                score = score - ownership_delta(square, own, opp);
                j = j + 1;
            }
        }
        k = k + 1;
    }
    score
}


/// Square `t` along edge `e` counted from its far end when `rev` is set.
pub open spec fn walk(rev: bool, t: int) -> int {
    if rev {
        7 - t
    } else {
        t
    }
}

proof fn lemma_edge_geometry(e: int)
    requires
        0 <= e < 4,
    ensures
        forall|t: int|
            0 <= t < 8 ==> on_edge(e, #[trigger] edge_at(e, t)) && edge_pos(e, edge_at(e, t)) == t,
        forall|i: int| #[trigger] on_edge(e, i) ==> 0 <= edge_pos(e, i) < 8 && edge_at(e, edge_pos(e, i)) == i,
{
}

/// All squares of edge `e`.
fn edge_mask(e: usize) -> (r: u64)
    requires
        e < 4,
    ensures
        forall|i: int| 0 <= i < 64 ==> #[trigger] bit(r, i) == on_edge(e as int, i),
{
    let mut mask: u64 = 0;
    let mut t: usize = 0;
    proof {
        lemma_edge_geometry(e as int);
        assert forall|i: int| 0 <= i < 64 implies !#[trigger] bit(mask, i) by {
            lemma_bit_zero(i);
        }
    }
    while t < 8
        invariant
            e < 4,
            t <= 8,
            forall|i: int|
                0 <= i < 64 ==> #[trigger] bit(mask, i) == (on_edge(e as int, i) && edge_pos(
                    e as int,
                    i,
                ) < t),
        decreases 8 - t,
    {
        let square = edge_square(e, t);
        let ghost prev = mask;
        mask = mask | square;
        proof {
            lemma_edge_geometry(e as int);
            assert forall|i: int| 0 <= i < 64 implies #[trigger] bit(mask, i) == (on_edge(e as int, i)
                && edge_pos(e as int, i) < t + 1) by {
                lemma_bit_or(prev, square, i);
                lemma_bit_sq(edge_at(e as int, t as int), i);
            }
        }
        t = t + 1;
    }
    mask
}

/// The unbroken line of `player` discs running from one end of edge `e` (the far end
/// when `rev` is set).
fn stable_from_edge_corner(player: u64, e: usize, rev: bool) -> (r: u64)
    requires
        e < 4,
    ensures
        forall|i: int|
            0 <= i < 64 ==> #[trigger] bit(r, i) == (if rev {
                run_end(player, e as int, i)
            } else {
                run_start(player, e as int, i)
            }),
{
    let ghost ee = e as int;
    let mut stable: u64 = 0;
    let mut t: usize = 0;
    let mut going = true;
    proof {
        lemma_edge_geometry(ee);
        assert forall|i: int| 0 <= i < 64 implies !#[trigger] bit(stable, i) by {
            lemma_bit_zero(i);
        }
    }
    while going && t < 8
        invariant
            e < 4,
            ee == e,
            t <= 8,
            forall|u: int| 0 <= u < t ==> #[trigger] bit(player, edge_at(ee, walk(rev, u))),
            !going ==> t < 8 && !bit(player, edge_at(ee, walk(rev, t as int))),
            forall|i: int|
                0 <= i < 64 ==> #[trigger] bit(stable, i) == (on_edge(ee, i) && walk(
                    rev,
                    edge_pos(ee, i),
                ) < t),
        decreases 8 - t + if going {
            1int
        } else {
            0int
        },
    {
        let position = if rev {
            7 - t
        } else {
            t
        };
        let square = edge_square(e, position);
        proof {
            lemma_sq_and(edge_at(ee, position as int), player);
        }
        if square & player == 0 {
            going = false;
        } else {
            let ghost prev = stable;
            stable = stable | square;
            proof {
                lemma_edge_geometry(ee);
                assert forall|i: int| 0 <= i < 64 implies #[trigger] bit(stable, i) == (on_edge(ee, i)
                    && walk(rev, edge_pos(ee, i)) < t + 1) by {
                    lemma_bit_or(prev, square, i);
                    lemma_bit_sq(edge_at(ee, position as int), i);
                }
            }
            t = t + 1;
        }
    }
    proof {
        lemma_edge_geometry(ee);
        assert forall|i: int| 0 <= i < 64 implies #[trigger] bit(stable, i) == (if rev {
            run_end(player, ee, i)
        } else {
            run_start(player, ee, i)
        }) by {
            if on_edge(ee, i) {
                let k = edge_pos(ee, i);
                if rev {
                    if walk(rev, k) < t {
                        assert forall|u: int| k <= u < 8 implies #[trigger] bit(
                            player,
                            edge_at(ee, u),
                        ) by {
                            assert(bit(player, edge_at(ee, walk(rev, 7 - u))));
                        }
                    } else {
                        assert(!bit(player, edge_at(ee, walk(rev, t as int))));
                    }
                } else {
                    if walk(rev, k) < t {
                        assert forall|u: int| 0 <= u <= k implies #[trigger] bit(
                            player,
                            edge_at(ee, u),
                        ) by {
                            assert(bit(player, edge_at(ee, walk(rev, u))));
                        }
                    } else {
                        assert(!bit(player, edge_at(ee, walk(rev, t as int))));
                    }
                }
            }
        }
    }
    stable
}


/// The discs of `player` that are clearly stable.
fn stable_bits(player: u64, opponent: u64) -> (r: u64)
    ensures
        r == stable_mask(player, opponent),
{
    let occupied = player | opponent;
    let corners = corners_mask();
    let mut stable = player & corners;
    let mut e: usize = 0;
    proof {
        assert forall|i: int| 0 <= i < 64 implies #[trigger] bit(stable, i) == (bit(player, i)
            && stable_upto(player, opponent, i, 0)) by {
            lemma_bit_and(player, corners, i);
        }
    }
    while e < 4
        invariant
            e <= 4,
            occupied == player | opponent,
            forall|i: int|
                0 <= i < 64 ==> #[trigger] bit(stable, i) == (bit(player, i) && stable_upto(
                    player,
                    opponent,
                    i,
                    e as nat,
                )),
        decreases 4 - e,
    {
        let ghost ee = e as int;
        let edge_bits = edge_mask(e);
        let ghost prev = stable;
        proof {
            lemma_edge_geometry(ee);
            if occupied & edge_bits == edge_bits {
                assert forall|t: int| 0 <= t < 8 implies #[trigger] bit(occupied, edge_at(ee, t)) by {
                    lemma_bit_and(occupied, edge_bits, edge_at(ee, t));
                }
            }
            if edge_full(occupied, ee) {
                assert forall|i: int| 0 <= i < 64 implies bit(occupied & edge_bits, i) == bit(
                    edge_bits,
                    i,
                ) by {
                    lemma_bit_and(occupied, edge_bits, i);
                    if on_edge(ee, i) {
                        assert(bit(occupied, edge_at(ee, edge_pos(ee, i))));
                    }
                }
                lemma_bit_ext(occupied & edge_bits, edge_bits);
            }
            assert forall|i: int| 0 <= i < 64 && (#[trigger] run_start(player, ee, i) || run_end(
                player,
                ee,
                i,
            )) implies bit(player, i) by {
                let k = edge_pos(ee, i);
                assert(bit(player, edge_at(ee, k)));
            }
        }
        if occupied & edge_bits == edge_bits {
            let owned = player & edge_bits;
            stable = stable | owned;
            proof {
                assert forall|i: int| 0 <= i < 64 implies #[trigger] bit(stable, i) == (bit(player, i)
                    && stable_upto(player, opponent, i, (e + 1) as nat)) by {
                    lemma_bit_or(prev, owned, i);
                    lemma_bit_and(player, edge_bits, i);
                }
            }
        } else {
            let from_start = stable_from_edge_corner(player, e, false);
            let from_end = stable_from_edge_corner(player, e, true);
            let ghost mid = stable | from_start;
            stable = stable | from_start | from_end;
            proof {
                assert forall|i: int| 0 <= i < 64 implies #[trigger] bit(stable, i) == (bit(player, i)
                    && stable_upto(player, opponent, i, (e + 1) as nat)) by {
                    lemma_bit_or(mid, from_end, i);
                    lemma_bit_or(prev, from_start, i);
                }
            }
        }
        e = e + 1;
    }
    proof {
        lemma_stable_mask(player, opponent, stable);
    }
    stable
}

fn stability_score(own: u64, opp: u64) -> (r: i32)
    ensures
        r == stability(own, opp),
        -64 <= r <= 64,
{
    count_ones(stable_bits(own, opp)) as i32 - count_ones(stable_bits(opp, own)) as i32
}

fn mobility_score(board: &Board, own: u64, opp: u64) -> (r: i32)
    ensures
        r == mobility(own, opp),
        -64 <= r <= 64,
{
    let own_moves = count_ones(board.legal_moves(own, opp)) as i32;
    let opp_moves = count_ones(board.legal_moves(opp, own)) as i32;
    own_moves - opp_moves
}

/// How far the game has progressed.
#[derive(Debug, Clone, Copy)]
enum Phase {
    Early,
    Mid,
    Late,
}

impl Phase {
    fn from_occupied(occupied: u32) -> (p: Self)
        ensures
            p == (if occupied < 20 {
                Phase::Early
            } else if occupied < 55 {
                Phase::Mid
            } else {
                Phase::Late
            }),
    {
        if occupied < 20 {
            Phase::Early
        } else if occupied < 55 {
            Phase::Mid
        } else {
            Phase::Late
        }
    }
}

fn terminal_score(board: &Board) -> (r: i32)
    ensures
        r == terminal_value(*board),
        -eval_bound() <= r <= eval_bound(),
{
    let (black, white) = board.score();
    let diff = match board.current_player() {
        Player::Black => black as i32 - white as i32,
        Player::White => white as i32 - black as i32,
    };
    diff * 10000
}

/// Evaluates the board from the current player's perspective.
pub fn evaluate(board: &Board) -> (r: i32)
    ensures
        r == eval_score(*board),
        -eval_bound() <= r <= eval_bound(),
{
    if board.game_over() {
        return terminal_score(board);
    }
    let current = board.current_player();
    let opponent = current.opponent();
    let own = board.bits_for(current);
    let opp = board.bits_for(opponent);
    let occupied = board.occupied_count();
    proof {
        lemma_or_comm(own, opp);
    }
    let phase = Phase::from_occupied(occupied);
    let mobility = mobility_score(board, own, opp);
    let corners = corner_score(own, opp);
    let adjacent = corner_adjacency_score(own, opp);
    let stability = stability_score(own, opp);
    let discs = count_ones(own) as i32 - count_ones(opp) as i32;
    match phase {
        Phase::Early => mobility * 12 + corners * 40 + adjacent * 15 + stability * 4,
        Phase::Mid => mobility * 8 + corners * 45 + adjacent * 10 + stability * 10,
        Phase::Late => mobility * 2 + corners * 50 + stability * 14 + discs * 8,
    }
}

} // verus!
