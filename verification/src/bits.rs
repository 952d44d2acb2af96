//! Bit-level model of a 64-square bitboard: square membership, board geometry,
//! and the lemmas that connect machine words to that model.
use vstd::prelude::*;

verus! {

/// Square `i` (0..64, `a1` = 0, `h8` = 63) is set in the bitboard `b`.
pub open spec fn bit(b: u64, i: int) -> bool {
    0 <= i < 64 && (b >> (i as u64)) & 1 == 1
}

pub proof fn lemma_bit_and(a: u64, b: u64, i: int)
    ensures
        bit(a & b, i) == (bit(a, i) && bit(b, i)),
{
    if 0 <= i < 64 {
        let j = i as u64;
        assert(((a & b) >> j) & 1 == 1 <==> ((a >> j) & 1 == 1 && (b >> j) & 1 == 1))
            by (bit_vector);
    }
}

pub proof fn lemma_bit_or(a: u64, b: u64, i: int)
    ensures
        bit(a | b, i) == (bit(a, i) || bit(b, i)),
{
    if 0 <= i < 64 {
        let j = i as u64;
        assert(((a | b) >> j) & 1 == 1 <==> ((a >> j) & 1 == 1 || (b >> j) & 1 == 1))
            by (bit_vector);
    }
}

pub proof fn lemma_bit_not(a: u64, i: int)
    requires
        0 <= i < 64,
    ensures
        bit(!a, i) == !bit(a, i),
{
    let j = i as u64;
    assert(j < 64 ==> (((!a) >> j) & 1 == 1 <==> !((a >> j) & 1 == 1))) by (bit_vector);
}

pub proof fn lemma_bit_zero(i: int)
    ensures
        !bit(0, i),
{
    if 0 <= i < 64 {
        let j = i as u64;
        assert((0u64 >> j) & 1 == 0) by (bit_vector);
    }
}

pub proof fn lemma_bit_ext(a: u64, b: u64)
    requires
        forall|i: int| 0 <= i < 64 ==> bit(a, i) == bit(b, i),
    ensures
        a == b,
{
    let c = a ^ b;
    if c != 0 {
        vstd::std_specs::bits::axiom_u64_trailing_zeros(c);
        let j = vstd::std_specs::bits::u64_trailing_zeros(c) as u64;
        assert(bit(a, j as int) == bit(b, j as int));
        assert(j < 64 && ((a ^ b) >> j) & 1 == 1 ==> ((a >> j) & 1 == 1 <==> !((b >> j) & 1
            == 1))) by (bit_vector);
    }
    assert(a ^ b == 0 ==> a == b) by (bit_vector);
}


/// Rank of a square, 0 for the first displayed row (`1`), 7 for the last (`8`).
pub open spec fn row(i: int) -> int {
    i / 8
}

/// File of a square, 0 for `a`, 7 for `h`.
pub open spec fn col(i: int) -> int {
    i % 8
}

/// Row delta of direction `d`. Directions are numbered north, south, east, west,
/// north-east, north-west, south-east, south-west (0 to 7).
pub open spec fn d_row(d: int) -> int {
    if d == 0 || d == 4 || d == 5 {
        -1
    } else if d == 1 || d == 6 || d == 7 {
        1
    } else {
        0
    }
}

/// Column delta of direction `d`.
pub open spec fn d_col(d: int) -> int {
    if d == 2 || d == 4 || d == 6 {
        1
    } else if d == 3 || d == 5 || d == 7 {
        -1
    } else {
        0
    }
}

pub open spec fn is_dir(d: int) -> bool {
    0 <= d < 8
}

/// The direction pointing the other way.
pub open spec fn opposite(d: int) -> int {
    if d == 0 {
        1
    } else if d == 1 {
        0
    } else if d == 2 {
        3
    } else if d == 3 {
        2
    } else if d == 4 {
        7
    } else if d == 7 {
        4
    } else if d == 5 {
        6
    } else {
        5
    }
}

/// The neighbour of square `i` in direction `d`, or -1 when it would leave the board.
pub open spec fn step(i: int, d: int) -> int {
    if 0 <= i < 64 && 0 <= row(i) + d_row(d) < 8 && 0 <= col(i) + d_col(d) < 8 {
        i + 8 * d_row(d) + d_col(d)
    } else {
        -1
    }
}

/// `dst` is `src` with every disc moved one square in direction `d`; discs that
/// would leave the board disappear and nothing wraps around an edge.
pub open spec fn shifted(src: u64, dst: u64, d: int) -> bool {
    forall|i: int| 0 <= i < 64 ==> #[trigger] bit(dst, i) == bit(src, step(i, opposite(d)))
}

pub proof fn lemma_shift_north(b: u64)
    ensures
        shifted(b, b >> 8u64, 0),
{
    assert forall|i: int| 0 <= i < 64 implies #[trigger] bit(b >> 8u64, i) == bit(b, step(i, 1)) by {
        let j = i as u64;
        assert(j < 64 ==> ((((b >> 8u64) >> j) & 1 == 1) <==> (j < 56 && (b >> ((j + 8) as u64))
            & 1 == 1))) by (bit_vector);
    }
}

pub proof fn lemma_shift_south(b: u64)
    ensures
        shifted(b, b << 8u64, 1),
{
    assert forall|i: int| 0 <= i < 64 implies #[trigger] bit(b << 8u64, i) == bit(b, step(i, 0)) by {
        let j = i as u64;
        assert(j < 64 ==> ((((b << 8u64) >> j) & 1 == 1) <==> (j >= 8 && (b >> ((j - 8) as u64))
            & 1 == 1))) by (bit_vector);
    }
}

pub proof fn lemma_shift_east(b: u64)
    ensures
        shifted(b, (b & 0x7f7f7f7f7f7f7f7fu64) << 1u64, 2),
{
    let r = (b & 0x7f7f7f7f7f7f7f7fu64) << 1u64;
    assert forall|i: int| 0 <= i < 64 implies #[trigger] bit(r, i) == bit(b, step(i, 3)) by {
        let j = i as u64;
        assert(j < 64 && r == (b & 0x7f7f7f7f7f7f7f7fu64) << 1u64 ==> (((r >> j) & 1 == 1) <==> (
        j % 8 != 0 && (b >> ((j - 1) as u64)) & 1 == 1))) by (bit_vector);
    }
}

pub proof fn lemma_shift_west(b: u64)
    ensures
        shifted(b, (b & 0xfefefefefefefefeu64) >> 1u64, 3),
{
    let r = (b & 0xfefefefefefefefeu64) >> 1u64;
    assert forall|i: int| 0 <= i < 64 implies #[trigger] bit(r, i) == bit(b, step(i, 2)) by {
        let j = i as u64;
        assert(j < 64 && r == (b & 0xfefefefefefefefeu64) >> 1u64 ==> (((r >> j) & 1 == 1) <==> (
        j % 8 != 7 && (b >> ((j + 1) as u64)) & 1 == 1))) by (bit_vector);
    }
}

pub proof fn lemma_shift_north_east(b: u64)
    ensures
        shifted(b, (b & 0x7f7f7f7f7f7f7f7fu64) >> 7u64, 4),
{
    let r = (b & 0x7f7f7f7f7f7f7f7fu64) >> 7u64;
    assert forall|i: int| 0 <= i < 64 implies #[trigger] bit(r, i) == bit(b, step(i, 7)) by {
        let j = i as u64;
        assert(j < 64 && r == (b & 0x7f7f7f7f7f7f7f7fu64) >> 7u64 ==> (((r >> j) & 1 == 1) <==> (
        j % 8 != 0 && j < 56 && (b >> ((j + 7) as u64)) & 1 == 1))) by (bit_vector);
    }
}

pub proof fn lemma_shift_north_west(b: u64)
    ensures
        shifted(b, (b & 0xfefefefefefefefeu64) >> 9u64, 5),
{
    let r = (b & 0xfefefefefefefefeu64) >> 9u64;
    assert forall|i: int| 0 <= i < 64 implies #[trigger] bit(r, i) == bit(b, step(i, 6)) by {
        let j = i as u64;
        assert(j < 64 && r == (b & 0xfefefefefefefefeu64) >> 9u64 ==> (((r >> j) & 1 == 1) <==> (
        j % 8 != 7 && j < 56 && (b >> ((j + 9) as u64)) & 1 == 1))) by (bit_vector);
    }
}

pub proof fn lemma_shift_south_east(b: u64)
    ensures
        shifted(b, (b & 0x7f7f7f7f7f7f7f7fu64) << 9u64, 6),
{
    let r = (b & 0x7f7f7f7f7f7f7f7fu64) << 9u64;
    assert forall|i: int| 0 <= i < 64 implies #[trigger] bit(r, i) == bit(b, step(i, 5)) by {
        let j = i as u64;
        assert(j < 64 && r == (b & 0x7f7f7f7f7f7f7f7fu64) << 9u64 ==> (((r >> j) & 1 == 1) <==> (
        j % 8 != 0 && j >= 8 && (b >> ((j - 9) as u64)) & 1 == 1))) by (bit_vector);
    }
}

pub proof fn lemma_shift_south_west(b: u64)
    ensures
        shifted(b, (b & 0xfefefefefefefefeu64) << 7u64, 7),
{
    let r = (b & 0xfefefefefefefefeu64) << 7u64;
    assert forall|i: int| 0 <= i < 64 implies #[trigger] bit(r, i) == bit(b, step(i, 4)) by {
        let j = i as u64;
        assert(j < 64 && r == (b & 0xfefefefefefefefeu64) << 7u64 ==> (((r >> j) & 1 == 1) <==> (
        j % 8 != 7 && j >= 8 && (b >> ((j - 7) as u64)) & 1 == 1))) by (bit_vector);
    }
}


/// The square reached from `i` after `k` steps in direction `d` (-1 once off the board).
pub open spec fn ray(i: int, d: int, k: nat) -> int
    decreases k,
{
    if k == 0 {
        i
    } else {
        ray(step(i, d), d, (k - 1) as nat)
    }
}

pub proof fn lemma_step_off(d: int)
    ensures
        step(-1, d) == -1,
{
}

pub proof fn lemma_ray_succ(i: int, d: int, k: nat)
    ensures
        ray(i, d, k + 1) == step(ray(i, d, k), d),
    decreases k,
{
    if k > 0 {
        lemma_ray_succ(step(i, d), d, (k - 1) as nat);
    } else {
        assert(ray(step(i, d), d, 0) == step(i, d));
    }
}

/// Moving one square in a direction and back again returns to the start.
pub proof fn lemma_step_inverse(i: int, s: int, d: int)
    requires
        0 <= i < 64,
        0 <= s < 64,
        is_dir(d),
    ensures
        (step(i, opposite(d)) == s) == (i == step(s, d)),
{
}

/// A ray stays on the board for at most seven steps.
pub proof fn lemma_ray_coords(i: int, d: int, k: nat)
    requires
        is_dir(d),
        0 <= ray(i, d, k) < 64,
    ensures
        0 <= i < 64,
        row(ray(i, d, k)) == row(i) + k * d_row(d),
        col(ray(i, d, k)) == col(i) + k * d_col(d),
    decreases k,
{
    if k > 0 {
        let k1 = (k - 1) as nat;
        lemma_ray_succ(i, d, k1);
        if ray(i, d, k1) == -1 {
            lemma_step_off(d);
        }
        lemma_ray_coords(i, d, k1);
        assert(k * d_row(d) == k1 * d_row(d) + d_row(d)) by (nonlinear_arith)
            requires
                k == k1 + 1,
        ;
        assert(k * d_col(d) == k1 * d_col(d) + d_col(d)) by (nonlinear_arith)
            requires
                k == k1 + 1,
        ;
    }
}

pub proof fn lemma_ray_short(i: int, d: int, k: nat)
    requires
        is_dir(d),
        0 <= ray(i, d, k) < 64,
    ensures
        k <= 7,
{
    lemma_ray_coords(i, d, k);
    if k >= 8 {
        assert(k * d_row(d) >= 8 || k * d_row(d) <= -8 || d_row(d) == 0) by (nonlinear_arith)
            requires
                k >= 8,
                -1 <= d_row(d) <= 1,
        ;
        assert(k * d_col(d) >= 8 || k * d_col(d) <= -8 || d_col(d) == 0) by (nonlinear_arith)
            requires
                k >= 8,
                -1 <= d_col(d) <= 1,
        ;
    }
}


/// Number of discs of `b` on the squares below `n`.
pub open spec fn count_below(b: u64, n: nat) -> nat
    decreases n,
{
    if n == 0 {
        0
    } else {
        count_below(b, (n - 1) as nat) + if bit(b, n - 1) {
            1nat
        } else {
            0nat
        }
    }
}

/// Number of discs in a bitboard.
pub open spec fn popcount(b: u64) -> nat {
    count_below(b, 64)
}

pub proof fn lemma_count_below_le(b: u64, n: nat)
    ensures
        count_below(b, n) <= n,
    decreases n,
{
    if n > 0 {
        lemma_count_below_le(b, (n - 1) as nat);
    }
}

/// Counts the discs of a bitboard.
pub fn count_ones(b: u64) -> (c: u32)
    ensures
        c == popcount(b),
        c <= 64,
{
    let mut c: u32 = 0;
    let mut i: u64 = 0;
    while i < 64
        invariant
            i <= 64,
            c == count_below(b, i as nat),
            c <= i,
        decreases 64 - i,
    {
        if (b >> i) & 1 == 1 {
            c = c + 1;
        }
        i = i + 1;
    }
    c
}


/// The one-square bitboard for square `s`.
pub open spec fn sq(s: int) -> u64 {
    1u64 << (s as u64)
}

/// `b` holds exactly one square.
pub open spec fn is_square(b: u64) -> bool {
    exists|s: int| 0 <= s < 64 && b == #[trigger] sq(s)
}

/// The square that a one-square bitboard holds.
pub open spec fn square_of(b: u64) -> int {
    choose|s: int| 0 <= s < 64 && b == #[trigger] sq(s)
}

pub proof fn lemma_bit_sq(s: int, i: int)
    requires
        0 <= s < 64,
    ensures
        bit(sq(s), i) == (i == s),
{
    if 0 <= i < 64 {
        let a = s as u64;
        let b = i as u64;
        assert(a < 64 && b < 64 ==> ((((1u64 << a) >> b) & 1 == 1) <==> a == b)) by (bit_vector);
    }
}

pub proof fn lemma_square_of(b: u64)
    requires
        is_square(b),
    ensures
        0 <= square_of(b) < 64,
        b == sq(square_of(b)),
        forall|i: int| #[trigger] bit(b, i) == (i == square_of(b)),
{
    let s = square_of(b);
    assert forall|i: int| #[trigger] bit(b, i) == (i == s) by {
        lemma_bit_sq(s, i);
    }
}

pub proof fn lemma_sq_is_square(s: int)
    requires
        0 <= s < 64,
    ensures
        is_square(sq(s)),
        square_of(sq(s)) == s,
{
    assert(is_square(sq(s)));
    let t = square_of(sq(s));
    lemma_bit_sq(s, s);
    lemma_bit_sq(t, s);
}

/// A bitboard with no disc on any square is zero.
pub proof fn lemma_bit_none(a: u64)
    requires
        forall|i: int| 0 <= i < 64 ==> !#[trigger] bit(a, i),
    ensures
        a == 0,
{
    assert forall|i: int| 0 <= i < 64 implies bit(a, i) == bit(0, i) by {
        lemma_bit_zero(i);
    }
    lemma_bit_ext(a, 0);
}

/// How many consecutive squares from `c` in direction `d` hold discs of `o`
/// (looking at most `fuel` squares ahead).
pub open spec fn run_len(o: u64, c: int, d: int, fuel: nat) -> nat
    decreases fuel,
{
    if fuel == 0 || !bit(o, c) {
        0
    } else {
        1 + run_len(o, step(c, d), d, (fuel - 1) as nat)
    }
}

pub proof fn lemma_run_len(o: u64, c: int, d: int, n: nat, fuel: nat)
    requires
        forall|u: nat| u < n ==> #[trigger] bit(o, ray(c, d, u)),
        !bit(o, ray(c, d, n)),
        fuel >= n,
    ensures
        run_len(o, c, d, fuel) == n,
    decreases n,
{
    assert(ray(c, d, 0) == c);
    if n > 0 {
        assert(bit(o, ray(c, d, 0)));
        assert forall|u: nat| u < (n - 1) as nat implies #[trigger] bit(o, ray(step(c, d), d, u)) by {
            assert(ray(c, d, u + 1) == ray(step(c, d), d, u));
            assert(bit(o, ray(c, d, u + 1)));
        }
        assert(ray(c, d, n) == ray(step(c, d), d, (n - 1) as nat));
        lemma_run_len(o, step(c, d), d, (n - 1) as nat, (fuel - 1) as nat);
    }
}


/// The one-square bitboards of the discs of `b` below square `n`, in ascending order.
pub open spec fn squares_below(b: u64, n: nat) -> Seq<u64>
    decreases n,
{
    if n == 0 {
        Seq::empty()
    } else if bit(b, n - 1) {
        squares_below(b, (n - 1) as nat).push(sq(n - 1))
    } else {
        squares_below(b, (n - 1) as nat)
    }
}

/// The one-square bitboards of all discs of `b`, in ascending order of square.
pub open spec fn squares(b: u64) -> Seq<u64> {
    squares_below(b, 64)
}

pub proof fn lemma_squares_below_gap(b: u64, lo: nat, hi: nat)
    requires
        lo <= hi,
        forall|i: int| lo <= i < hi ==> !#[trigger] bit(b, i),
    ensures
        squares_below(b, hi) == squares_below(b, lo),
    decreases hi,
{
    if hi > lo {
        lemma_squares_below_gap(b, lo, (hi - 1) as nat);
    }
}

/// The lowest disc of a non-empty bitboard and the bitboard without it.
pub proof fn lemma_lowest_bit(x: u64, neg: u64)
    requires
        x != 0,
        neg == vstd::wrapping::u64_specs::wrapping_sub(0, x),
    ensures
        0 <= vstd::std_specs::bits::u64_trailing_zeros(x) < 64,
        x & neg == sq(vstd::std_specs::bits::u64_trailing_zeros(x) as int),
        forall|i: int|
            0 <= i < 64 ==> #[trigger] bit(x & ((x - 1) as u64), i) == (bit(x, i) && i
                != vstd::std_specs::bits::u64_trailing_zeros(x) as int),
        forall|i: int|
            0 <= i < vstd::std_specs::bits::u64_trailing_zeros(x) as int ==> !#[trigger] bit(x, i),
        bit(x, vstd::std_specs::bits::u64_trailing_zeros(x) as int),
{
    vstd::std_specs::bits::axiom_u64_trailing_zeros(x);
    let z = vstd::std_specs::bits::u64_trailing_zeros(x) as u64;
    assert(neg == (!x) + 1) by {
        assert(x + !x == 0xffff_ffff_ffff_ffffu64) by (bit_vector);
    }
    assert(x & neg == 1u64 << z) by (bit_vector)
        requires
            x != 0,
            z < 64,
            neg == (!x) + 1,
            (x >> z) & 1 == 1,
            x << ((64 - z) as u64) == 0,
    ;
    assert forall|i: int| 0 <= i < 64 implies #[trigger] bit(x & ((x - 1) as u64), i) == (bit(x, i)
        && i != z as int) by {
        let j = i as u64;
        assert(((x & ((x - 1) as u64)) >> j) & 1 == 1 <==> ((x >> j) & 1 == 1 && j != z))
            by (bit_vector)
            requires
                x != 0,
                z < 64,
                (x >> z) & 1 == 1,
                x << ((64 - z) as u64) == 0,
        ;
    }
    assert forall|i: int| 0 <= i < z as int implies !#[trigger] bit(x, i) by {
        let j = i as u64;
        assert((x >> j) & 1 == 0);
    }
}


/// A one-square bitboard meets `x` exactly when `x` holds that square.
pub proof fn lemma_sq_and(c: int, x: u64)
    requires
        0 <= c < 64,
    ensures
        (sq(c) & x != 0) == bit(x, c),
        (x & sq(c) != 0) == bit(x, c),
{
    let j = c as u64;
    assert(j < 64 ==> (((1u64 << j) & x != 0) <==> (x >> j) & 1 == 1)) by (bit_vector);
    assert(j < 64 ==> ((x & (1u64 << j) != 0) <==> (x >> j) & 1 == 1)) by (bit_vector);
}

pub proof fn lemma_or_comm(a: u64, b: u64)
    ensures
        a | b == b | a,
{
    assert(a | b == b | a) by (bit_vector);
}


pub proof fn lemma_sq_lt(k: int, m: int)
    requires
        0 <= k < m < 64,
    ensures
        sq(k) < sq(m),
{
    let a = k as u64;
    let b = m as u64;
    assert(a < b && b < 64 ==> (1u64 << a) < (1u64 << b)) by (bit_vector);
}

/// `squares_below` lists distinct one-square bitboards of `b` in increasing order,
/// as many as `b` has discs below `n`.
pub proof fn lemma_squares_below(b: u64, n: nat)
    requires
        n <= 64,
    ensures
        squares_below(b, n).len() == count_below(b, n),
        forall|a: int, c: int|
            0 <= a < c < squares_below(b, n).len() ==> squares_below(b, n)[a] < squares_below(
                b,
                n,
            )[c],
        forall|a: int|
            0 <= a < squares_below(b, n).len() ==> is_square(#[trigger] squares_below(b, n)[a])
                && square_of(squares_below(b, n)[a]) < n && bit(
                b,
                square_of(squares_below(b, n)[a]),
            ),
    decreases n,
{
    if n > 0 {
        let m = (n - 1) as nat;
        lemma_squares_below(b, m);
        let prev = squares_below(b, m);
        if bit(b, m as int) {
            lemma_sq_is_square(m as int);
            assert forall|a: int| 0 <= a < prev.len() implies #[trigger] prev[a] < sq(m as int) by {
                lemma_square_of(prev[a]);
                lemma_sq_lt(square_of(prev[a]), m as int);
            }
        }
    }
}

/// Every disc of `b` below square `n` is listed by `squares_below(b, n)`.
pub proof fn lemma_squares_below_has(b: u64, n: nat, s: int)
    requires
        0 <= s < n,
        n <= 64,
        bit(b, s),
    ensures
        squares_below(b, n).contains(sq(s)),
    decreases n,
{
    let m = (n - 1) as nat;
    if s == m {
        assert(squares_below(b, n).last() == sq(s));
    } else {
        lemma_squares_below_has(b, m, s);
        let prev = squares_below(b, m);
        let k = choose|k: int| 0 <= k < prev.len() && prev[k] == sq(s);
        if bit(b, m as int) {
            assert(squares_below(b, n)[k] == sq(s));
        }
    }
}

/// The bitboard holding every square listed in `s`.
pub open spec fn union_of(s: Seq<u64>) -> u64
    decreases s.len(),
{
    if s.len() == 0 {
        0
    } else {
        union_of(s.drop_last()) | s.last()
    }
}

/// Joining the squares listed by `squares_below(b, n)` gives the discs of `b` below `n`.
pub proof fn lemma_union_squares_below(b: u64, n: nat)
    requires
        n <= 64,
    ensures
        forall|i: int|
            0 <= i < 64 ==> #[trigger] bit(union_of(squares_below(b, n)), i) == (i < n && bit(
                b,
                i,
            )),
    decreases n,
{
    if n == 0 {
        assert forall|i: int| 0 <= i < 64 implies !#[trigger] bit(
            union_of(squares_below(b, n)),
            i,
        ) by {
            lemma_bit_zero(i);
        }
    } else {
        let m = (n - 1) as nat;
        lemma_union_squares_below(b, m);
        let prev = squares_below(b, m);
        if bit(b, m as int) {
            let cur = prev.push(sq(m as int));
            assert(cur.drop_last() =~= prev);
            assert forall|i: int| 0 <= i < 64 implies #[trigger] bit(
                union_of(squares_below(b, n)),
                i,
            ) == (i < n && bit(b, i)) by {
                lemma_bit_or(union_of(prev), sq(m as int), i);
                lemma_bit_sq(m as int, i);
            }
        }
    }
}

/// A bitboard whose discs all belong to `b` holds no more discs than `b` below `n`, and
/// fewer when `b` has a disc below `n` that it lacks.
pub proof fn lemma_count_subset(a: u64, b: u64, n: nat)
    requires
        n <= 64,
        forall|i: int| 0 <= i < 64 && #[trigger] bit(a, i) ==> bit(b, i),
    ensures
        count_below(a, n) <= count_below(b, n),
        (exists|i: int| 0 <= i < n && bit(b, i) && !bit(a, i)) ==> count_below(a, n)
            < count_below(b, n),
    decreases n,
{
    if n > 0 {
        let m = (n - 1) as nat;
        lemma_count_subset(a, b, m);
        if exists|i: int| 0 <= i < n && bit(b, i) && !bit(a, i) {
            let i = choose|i: int| 0 <= i < n && bit(b, i) && !bit(a, i);
            if i < m {
                assert(exists|j: int| 0 <= j < m && bit(b, j) && !bit(a, j));
            }
        }
    }
}

pub proof fn lemma_count_zero(b: u64, n: nat)
    requires
        n <= 64,
    ensures
        (count_below(b, n) == 0) == (forall|i: int| 0 <= i < n ==> !#[trigger] bit(b, i)),
    decreases n,
{
    if n > 0 {
        lemma_count_zero(b, (n - 1) as nat);
        if count_below(b, n) == 0 {
            assert forall|i: int| 0 <= i < n implies !#[trigger] bit(b, i) by {
                if i < n - 1 {
                    assert(count_below(b, (n - 1) as nat) == 0);
                }
            }
        }
    }
}

/// A bitboard has no discs exactly when it is zero.
pub proof fn lemma_popcount_zero(b: u64)
    ensures
        (popcount(b) == 0) == (b == 0),
{
    lemma_count_zero(b, 64);
    if popcount(b) == 0 {
        lemma_bit_none(b);
    }
    if b == 0 {
        assert forall|i: int| 0 <= i < 64 implies !#[trigger] bit(b, i) by {
            lemma_bit_zero(i);
        }
    }
}


/// Adding one square that was not there adds one to the disc count.
pub proof fn lemma_count_add(x: u64, y: u64, s: int, n: nat)
    requires
        0 <= s < 64,
        n <= 64,
        !bit(y, s),
        forall|i: int| 0 <= i < 64 ==> #[trigger] bit(x, i) == (bit(y, i) || i == s),
    ensures
        count_below(x, n) == count_below(y, n) + if s < n {
            1nat
        } else {
            0nat
        },
    decreases n,
{
    if n > 0 {
        lemma_count_add(x, y, s, (n - 1) as nat);
    }
}

pub proof fn lemma_run_len_opp(o: u64, c: int, d: int, fuel: nat, t: nat)
    requires
        t < run_len(o, c, d, fuel),
    ensures
        bit(o, ray(c, d, t)),
    decreases fuel,
{
    assert(ray(c, d, 0) == c);
    if t > 0 {
        lemma_run_len_opp(o, step(c, d), d, (fuel - 1) as nat, (t - 1) as nat);
        assert(ray(c, d, t) == ray(step(c, d), d, (t - 1) as nat));
    }
}


/// The bitboard holding the squares below `n` that satisfy `f`.
pub open spec fn mask_upto(f: spec_fn(int) -> bool, n: nat) -> u64
    decreases n,
{
    if n == 0 {
        0
    } else if f(n - 1) {
        mask_upto(f, (n - 1) as nat) | sq(n - 1)
    } else {
        mask_upto(f, (n - 1) as nat)
    }
}

/// The bitboard holding exactly the squares that satisfy `f`.
pub open spec fn bits_where(f: spec_fn(int) -> bool) -> u64 {
    mask_upto(f, 64)
}

pub proof fn lemma_mask_upto(f: spec_fn(int) -> bool, n: nat)
    requires
        n <= 64,
    ensures
        forall|i: int| 0 <= i < 64 ==> #[trigger] bit(mask_upto(f, n), i) == (i < n && f(i)),
    decreases n,
{
    if n == 0 {
        assert forall|i: int| 0 <= i < 64 implies !#[trigger] bit(mask_upto(f, n), i) by {
            lemma_bit_zero(i);
        }
    } else {
        lemma_mask_upto(f, (n - 1) as nat);
        let prev = mask_upto(f, (n - 1) as nat);
        if f(n - 1) {
            assert forall|i: int| 0 <= i < 64 implies #[trigger] bit(mask_upto(f, n), i) == (i < n
                && f(i)) by {
                lemma_bit_or(prev, sq(n - 1), i);
                lemma_bit_sq(n - 1, i);
            }
        }
    }
}

pub proof fn lemma_bits_where(f: spec_fn(int) -> bool)
    ensures
        forall|i: int| 0 <= i < 64 ==> #[trigger] bit(bits_where(f), i) == f(i),
{
    lemma_mask_upto(f, 64);
}


/// The lowest disc of a one-square bitboard is its square.
pub proof fn lemma_trailing_zeros_sq(i: int)
    requires
        0 <= i < 64,
    ensures
        vstd::std_specs::bits::u64_trailing_zeros(sq(i)) == i,
{
    let x = sq(i);
    lemma_bit_sq(i, i);
    vstd::std_specs::bits::axiom_u64_trailing_zeros(x);
    let z = vstd::std_specs::bits::u64_trailing_zeros(x) as int;
    if z < i {
        lemma_bit_sq(i, z);
        assert(bit(x, z));
    } else if z > i {
        assert((x >> (i as u64)) & 1u64 == 0u64);
    }
}


/// A run shorter than the look-ahead ends at a square without a disc of `o`.
pub proof fn lemma_run_len_end(o: u64, c: int, d: int, fuel: nat)
    ensures
        run_len(o, c, d, fuel) <= fuel,
        run_len(o, c, d, fuel) < fuel ==> !bit(o, ray(c, d, run_len(o, c, d, fuel))),
    decreases fuel,
{
    assert(ray(c, d, 0) == c);
    if fuel > 0 && bit(o, c) {
        lemma_run_len_end(o, step(c, d), d, (fuel - 1) as nat);
        let k = run_len(o, step(c, d), d, (fuel - 1) as nat);
        assert(ray(c, d, k + 1) == ray(step(c, d), d, k));
    }
}

/// Disc counts add up over bitboards without common squares.
pub proof fn lemma_count_disjoint(a: u64, b: u64, n: nat)
    requires
        n <= 64,
        forall|i: int| 0 <= i < 64 ==> !(#[trigger] bit(a, i) && bit(b, i)),
    ensures
        count_below(a | b, n) == count_below(a, n) + count_below(b, n),
    decreases n,
{
    if n > 0 {
        lemma_count_disjoint(a, b, (n - 1) as nat);
        lemma_bit_or(a, b, n - 1);
    }
}

/// Two bitboards share no square exactly when their intersection is zero.
pub proof fn lemma_disjoint(a: u64, b: u64)
    ensures
        (a & b == 0) == (forall|i: int| 0 <= i < 64 ==> !(#[trigger] bit(a, i) && bit(b, i))),
{
    if a & b == 0 {
        assert forall|i: int| 0 <= i < 64 implies !(#[trigger] bit(a, i) && bit(b, i)) by {
            lemma_bit_and(a, b, i);
            lemma_bit_zero(i);
        }
    }
    if forall|i: int| 0 <= i < 64 ==> !(#[trigger] bit(a, i) && bit(b, i)) {
        assert forall|i: int| 0 <= i < 64 implies !#[trigger] bit(a & b, i) by {
            lemma_bit_and(a, b, i);
        }
        lemma_bit_none(a & b);
    }
}

} // verus!
