//! Squares, directions and rays of the 8x8 board, and the bit-level facts
//! that tie 64-bit masks to them.
use vstd::prelude::*;
use vstd::std_specs::bits::{axiom_u64_trailing_zeros, u64_trailing_zeros};

verus! {

/// Whether square `i` (0 = top-left, row-major) is set in the mask `x`.
pub open spec fn holds(x: u64, i: int) -> bool {
    0 <= i < 64 && (x >> (i as u64)) & 1u64 == 1u64
}

/// Row step of direction `d`; directions run S, SE, E, NE, N, NW, W, SW.
pub open spec fn d_row(d: int) -> int {
    if d == 0 || d == 1 || d == 7 {
        1
    } else if d == 3 || d == 4 || d == 5 {
        -1
    } else {
        0
    }
}

/// Column step of direction `d`.
pub open spec fn d_col(d: int) -> int {
    if d == 1 || d == 2 || d == 3 {
        1
    } else if d == 5 || d == 6 || d == 7 {
        -1
    } else {
        0
    }
}

/// The direction pointing the other way.
pub open spec fn reverse(d: int) -> int {
    (d + 4) % 8
}

/// The square one step from `s` in direction `d`, or -1 when that leaves the board.
pub open spec fn step(s: int, d: int) -> int {
    let r = s / 8 + d_row(d);
    let c = s % 8 + d_col(d);
    if 0 <= s < 64 && 0 <= r < 8 && 0 <= c < 8 {
        r * 8 + c
    } else {
        -1
    }
}

/// The square `t` steps from `s` in direction `d` (-1 once off the board).
pub open spec fn ray(s: int, d: int, t: nat) -> int
    decreases t,
{
    if t == 0 {
        s
    } else {
        ray(step(s, d), d, (t - 1) as nat)
    }
}

/// Square `s` is on the board.
pub open spec fn on_board(s: int) -> bool {
    0 <= s < 64
}

/// Neither `me` nor `opp` holds square `s`, which is on the board.
pub open spec fn vacant(me: u64, opp: u64, s: int) -> bool {
    on_board(s) && !holds(me, s) && !holds(opp, s)
}

/// Walking from `s` in direction `d`, the first `n >= 1` squares hold `opp`
/// discs and the square after them holds a `me` disc.
pub open spec fn flanks(me: u64, opp: u64, s: int, d: int, n: nat) -> bool {
    &&& n >= 1
    &&& forall|t: nat| 1 <= t <= n ==> #[trigger] holds(opp, ray(s, d, t))
    &&& holds(me, ray(s, d, n + 1))
}

/// Placing a `me` disc on `s` is a legal move: `s` is vacant and in some
/// direction a run of `opp` discs lies between `s` and a `me` disc.
pub open spec fn legal_square(me: u64, opp: u64, s: int) -> bool {
    &&& vacant(me, opp, s)
    &&& exists|d: int, n: nat| 0 <= d < 8 && #[trigger] flanks(me, opp, s, d, n)
}

/// `ray` composes: `b` steps after `a` steps are `a + b` steps.
pub proof fn lemma_ray_add(s: int, d: int, a: nat, b: nat)
    ensures
        ray(ray(s, d, a), d, b) == ray(s, d, a + b),
    decreases a,
{
    if a > 0 {
        lemma_ray_add(step(s, d), d, (a - 1) as nat, b);
    }
}

/// A ray never comes back onto the board once it has left it.
pub proof fn lemma_ray_off(d: int, t: nat)
    ensures
        ray(-1, d, t) == -1,
    decreases t,
{
    if t > 0 {
        lemma_ray_off(d, (t - 1) as nat);
    }
}

/// Where a ray stays on the board, its row and column move by one step each time.
pub proof fn lemma_ray_coords(s: int, d: int, t: nat)
    requires
        on_board(ray(s, d, t)),
    ensures
        on_board(s),
        ray(s, d, t) / 8 == s / 8 + t * d_row(d),
        ray(s, d, t) % 8 == s % 8 + t * d_col(d),
    decreases t,
{
    if t == 0 {
    } else {
        let n = step(s, d);
        if !on_board(n) {
            lemma_ray_off(d, (t - 1) as nat);
            if n != -1 {
                assert(false);
            }
        }
        lemma_ray_coords(n, d, (t - 1) as nat);
        assert(t * d_row(d) == d_row(d) + (t - 1) * d_row(d)) by (nonlinear_arith);
        assert(t * d_col(d) == d_col(d) + (t - 1) * d_col(d)) by (nonlinear_arith);
    }
}

/// No ray stays on the board for eight steps.
pub proof fn lemma_ray_short(s: int, d: int, t: nat)
    requires
        0 <= d < 8,
        on_board(ray(s, d, t)),
    ensures
        t <= 7,
{
    lemma_ray_coords(s, d, t);
    if t > 7 {
        if d_row(d) == 1 {
            assert(t * d_row(d) == t);
        } else if d_row(d) == -1 {
            assert(t * d_row(d) == -t);
        } else if d_col(d) == 1 {
            assert(t * d_col(d) == t);
        } else {
            assert(t * d_col(d) == -t);
        }
    }
}

proof fn lemma_bit_ops_u64(a: u64, b: u64)
    by (bit_vector)
    ensures
        forall|j: u64| j < 64 ==> ((((a | b) >> j) & 1u64 == 1u64) <==> ((a >> j) & 1u64 == 1u64 || (b >> j) & 1u64 == 1u64)),
        forall|j: u64| j < 64 ==> ((((a & b) >> j) & 1u64 == 1u64) <==> ((a >> j) & 1u64 == 1u64 && (b >> j) & 1u64 == 1u64)),
        forall|j: u64| j < 64 ==> ((((!a) >> j) & 1u64 == 1u64) <==> !((a >> j) & 1u64 == 1u64)),
{
}

/// Union, intersection and complement act square by square.
pub proof fn lemma_bit_ops(a: u64, b: u64)
    ensures
        forall|s: int| #[trigger] holds(a | b, s) <==> (holds(a, s) || holds(b, s)),
        forall|s: int| #[trigger] holds(a & b, s) <==> (holds(a, s) && holds(b, s)),
        forall|s: int| #[trigger] holds(!a, s) <==> (on_board(s) && !holds(a, s)),
{
    lemma_bit_ops_u64(a, b);
    assert forall|s: int| #[trigger] holds(a | b, s) <==> (holds(a, s) || holds(b, s)) by {
        if on_board(s) {
            let j = s as u64;
            assert((((a | b) >> j) & 1u64 == 1u64) <==> ((a >> j) & 1u64 == 1u64 || (b >> j) & 1u64 == 1u64));
        }
    }
    assert forall|s: int| #[trigger] holds(a & b, s) <==> (holds(a, s) && holds(b, s)) by {
        if on_board(s) {
            let j = s as u64;
            assert((((a & b) >> j) & 1u64 == 1u64) <==> ((a >> j) & 1u64 == 1u64 && (b >> j) & 1u64 == 1u64));
        }
    }
    assert forall|s: int| #[trigger] holds(!a, s) <==> (on_board(s) && !holds(a, s)) by {
        if on_board(s) {
            let j = s as u64;
            assert((((!a) >> j) & 1u64 == 1u64) <==> !((a >> j) & 1u64 == 1u64));
        }
    }
}

/// A mask other than zero holds some square.
pub proof fn lemma_nonzero_has(x: u64)
    requires
        x != 0,
    ensures
        holds(x, u64_trailing_zeros(x) as int),
{
    axiom_u64_trailing_zeros(x);
}

/// The empty mask holds no square.
pub proof fn lemma_zero_empty()
    ensures
        forall|s: int| !#[trigger] holds(0u64, s),
{
    assert forall|s: int| !#[trigger] holds(0u64, s) by {
        if on_board(s) {
            let j = s as u64;
            assert((0u64 >> j) & 1u64 == 0u64) by (bit_vector);
        }
    }
}

/// Stepping back undoes a step.
pub proof fn lemma_step_inverse(i: int, j: int, d: int)
    requires
        0 <= d < 8,
        on_board(i),
        on_board(j),
    ensures
        step(j, reverse(d)) == i <==> step(i, d) == j,
{
}

/// `a & b` is zero exactly when the two masks share no square.
pub proof fn lemma_and_zero(a: u64, b: u64)
    ensures
        (a & b == 0) <==> forall|s: int| !(#[trigger] holds(a, s) && holds(b, s)),
{
    lemma_bit_ops(a, b);
    lemma_zero_empty();
    if a & b != 0 {
        lemma_nonzero_has(a & b);
        let t = u64_trailing_zeros(a & b) as int;
        assert(holds(a, t) && holds(b, t));
    } else {
        assert forall|s: int| !(#[trigger] holds(a, s) && holds(b, s)) by {
            assert(!holds(a & b, s));
        }
    }
}

/// Two masks holding the same squares are equal.
pub proof fn lemma_bits_ext(a: u64, b: u64)
    requires
        forall|s: int| #[trigger] holds(a, s) == holds(b, s),
    ensures
        a == b,
{
    if a != b {
        let x = a ^ b;
        assert(x != 0) by (bit_vector)
            requires
                a != b,
                x == a ^ b,
        ;
        lemma_nonzero_has(x);
        let t = u64_trailing_zeros(x) as u64;
        assert(((a ^ b) >> t) & 1u64 == 1u64 ==> ((a >> t) & 1u64 == 1u64) != ((b >> t) & 1u64 == 1u64))
            by (bit_vector);
        assert(holds(a, t as int) != holds(b, t as int));
    }
}

/// `bit` has exactly one square set, the square `s`.
pub open spec fn single(bit: u64, s: int) -> bool {
    on_board(s) && bit == 1u64 << (s as u64)
}

/// The one square of a single-square mask.
pub proof fn lemma_single(bit: u64, s: int)
    requires
        single(bit, s),
    ensures
        forall|j: int| #[trigger] holds(bit, j) <==> j == s,
{
    let su = s as u64;
    assert forall|j: int| #[trigger] holds(bit, j) <==> j == s by {
        if on_board(j) {
            let ju = j as u64;
            assert(su < 64 && ju < 64 ==> ((((1u64 << su) >> ju) & 1u64 == 1u64) <==> ju == su)) by (bit_vector);
        }
    }
}

/// `x` holds exactly the squares of the board where `p` holds.
pub open spec fn exact(x: u64, p: spec_fn(int) -> bool) -> bool {
    forall|s: int| #[trigger] holds(x, s) <==> (on_board(s) && p(s))
}

/// The mask whose squares are those where `p` holds.
pub open spec fn mask_of(p: spec_fn(int) -> bool) -> u64 {
    choose|x: u64| exact(x, p)
}

/// A mask that holds exactly the squares of `p` is `mask_of(p)`.
pub proof fn lemma_mask_of(x: u64, p: spec_fn(int) -> bool)
    requires
        forall|s: int| #[trigger] holds(x, s) <==> (on_board(s) && p(s)),
    ensures
        x == mask_of(p),
        forall|s: int| #[trigger] holds(mask_of(p), s) <==> (on_board(s) && p(s)),
{
    assert(exact(x, p));
    let m = mask_of(p);
    assert forall|s: int| #[trigger] holds(m, s) == holds(x, s) by {}
    lemma_bits_ext(m, x);
}

/// The mask of the squares below `n` where `p` holds.
pub open spec fn build(p: spec_fn(int) -> bool, n: nat) -> u64
    decreases n,
{
    if n == 0 {
        0
    } else if p(n - 1) {
        build(p, (n - 1) as nat) | (1u64 << ((n - 1) as u64))
    } else {
        build(p, (n - 1) as nat)
    }
}

proof fn lemma_build(p: spec_fn(int) -> bool, n: nat)
    requires
        n <= 64,
    ensures
        forall|s: int| #[trigger] holds(build(p, n), s) <==> (0 <= s < n && p(s)),
    decreases n,
{
    if n == 0 {
        lemma_zero_empty();
    } else {
        lemma_build(p, (n - 1) as nat);
        let x = build(p, (n - 1) as nat);
        let bit = 1u64 << ((n - 1) as u64);
        lemma_single(bit, n - 1);
        lemma_bit_ops(x, bit);
        assert forall|s: int| #[trigger] holds(build(p, n), s) <==> (0 <= s < n && p(s)) by {
            if p(n - 1) {
                assert(build(p, n) == x | bit);
            } else {
                assert(build(p, n) == x);
            }
        }
    }
}

/// Every predicate on squares has its mask.
pub proof fn lemma_mask_exists(p: spec_fn(int) -> bool)
    ensures
        forall|s: int| #[trigger] holds(mask_of(p), s) <==> (on_board(s) && p(s)),
{
    lemma_build(p, 64);
    lemma_mask_of(build(p, 64), p);
}

/// The lowest square of `x` (64 when `x` is empty).
pub open spec fn lowest(x: u64) -> int {
    u64_trailing_zeros(x) as int
}

/// Clearing the lowest square of a mask other than zero: `x & (x - 1)` drops
/// exactly that square, and `x ^ (x & (x - 1))` is that square alone.
pub proof fn lemma_lowest(x: u64)
    requires
        x != 0,
    ensures
        on_board(lowest(x)),
        holds(x, lowest(x)),
        forall|s: int| 0 <= s < lowest(x) ==> !#[trigger] holds(x, s),
        single(x ^ (x & sub_one(x)), lowest(x)),
        forall|s: int| #[trigger] holds(x & sub_one(x), s) <==> (holds(x, s) && s != lowest(x)),
{
    axiom_u64_trailing_zeros(x);
    let t = u64_trailing_zeros(x) as u64;
    assert(t < 64 && (x >> t) & 1u64 == 1u64 && x << ((64 - t) as u64) == 0 ==> x ^ (x & ((x - 1) as u64)) == 1u64 << t)
        by (bit_vector);
    assert forall|s: int| 0 <= s < lowest(x) implies !#[trigger] holds(x, s) by {
        let j = s as u64;
        assert((x >> j) & 1u64 == 0u64);
    }
    assert forall|s: int| #[trigger] holds(x & sub_one(x), s) <==> (holds(x, s) && s != lowest(x)) by {
        if on_board(s) {
            let j = s as u64;
            assert(t < 64 && j < 64 && (x >> t) & 1u64 == 1u64 && x << ((64 - t) as u64) == 0 ==> ((((x & ((x - 1) as u64)) >> j) & 1u64 == 1u64) <==> ((x >> j) & 1u64 == 1u64 && j != t)))
                by (bit_vector);
        }
    }
}

/// `x - 1` for a mask other than zero.
pub open spec fn sub_one(x: u64) -> u64 {
    (x - 1) as u64
}

/// The square of a single-square mask is its lowest square.
pub proof fn lemma_single_lowest(bit: u64, s: int)
    requires
        single(bit, s),
    ensures
        lowest(bit) == s,
{
    lemma_single(bit, s);
    assert(holds(bit, s));
    lemma_zero_empty();
    lemma_lowest(bit);
}

/// The number of squares below `n` that `x` holds.
pub open spec fn count_below(x: u64, n: nat) -> nat
    decreases n,
{
    if n == 0 {
        0
    } else {
        count_below(x, (n - 1) as nat) + if holds(x, n - 1) { 1nat } else { 0nat }
    }
}

/// A mask holds at most as many squares as there are below the bound.
pub proof fn lemma_count_bound(x: u64, n: nat)
    ensures
        count_below(x, n) <= n,
    decreases n,
{
    if n > 0 {
        lemma_count_bound(x, (n - 1) as nat);
    }
}

/// The number of squares that `x` holds.
pub open spec fn popcount(x: u64) -> nat {
    count_below(x, 64)
}

/// The squares of the rightmost column, which a shift toward the east would
/// wrap onto the next row.
pub const EAST_EDGE: u64 = 0x8080808080808080;

/// The squares of the leftmost column.
pub const WEST_EDGE: u64 = 0x0101010101010101;

/// Bit by bit, the shift toward the south.
proof fn lemma_shift_0(x: u64)
    by (bit_vector)
    ensures
        forall|j: u64|
            j < 64 ==> ((((x << 8u64) >> j) & 1u64 == 1u64) <==> (j >= 8 && (x >> ((j - 8) as u64)) & 1u64 == 1u64)),
{
}

/// Bit by bit, the shift toward the south-east.
proof fn lemma_shift_1(x: u64)
    by (bit_vector)
    ensures
        forall|j: u64|
            j < 64 ==> (((((x & !EAST_EDGE) << 9u64) >> j) & 1u64 == 1u64) <==> (j >= 9 && j % 8 != 0 && (x >> ((j - 9) as u64)) & 1u64 == 1u64)),
{
}

/// Bit by bit, the shift toward the east.
proof fn lemma_shift_2(x: u64)
    by (bit_vector)
    ensures
        forall|j: u64|
            j < 64 ==> (((((x & !EAST_EDGE) << 1u64) >> j) & 1u64 == 1u64) <==> (j >= 1 && j % 8 != 0 && (x >> ((j - 1) as u64)) & 1u64 == 1u64)),
{
}

/// Bit by bit, the shift toward the north-east.
proof fn lemma_shift_3(x: u64)
    by (bit_vector)
    ensures
        forall|j: u64|
            j < 64 ==> (((((x & !EAST_EDGE) >> 7u64) >> j) & 1u64 == 1u64) <==> (j < 57 && j % 8 != 0 && (x >> ((j + 7) as u64)) & 1u64 == 1u64)),
{
}

/// Bit by bit, the shift toward the north.
proof fn lemma_shift_4(x: u64)
    by (bit_vector)
    ensures
        forall|j: u64|
            j < 64 ==> ((((x >> 8u64) >> j) & 1u64 == 1u64) <==> (j < 56 && (x >> ((j + 8) as u64)) & 1u64 == 1u64)),
{
}

/// Bit by bit, the shift toward the north-west.
proof fn lemma_shift_5(x: u64)
    by (bit_vector)
    ensures
        forall|j: u64|
            j < 64 ==> (((((x & !WEST_EDGE) >> 9u64) >> j) & 1u64 == 1u64) <==> (j < 55 && j % 8 != 7 && (x >> ((j + 9) as u64)) & 1u64 == 1u64)),
{
}

/// Bit by bit, the shift toward the west.
proof fn lemma_shift_6(x: u64)
    by (bit_vector)
    ensures
        forall|j: u64|
            j < 64 ==> (((((x & !WEST_EDGE) >> 1u64) >> j) & 1u64 == 1u64) <==> (j < 63 && j % 8 != 7 && (x >> ((j + 1) as u64)) & 1u64 == 1u64)),
{
}

/// Bit by bit, the shift toward the south-west.
proof fn lemma_shift_7(x: u64)
    by (bit_vector)
    ensures
        forall|j: u64|
            j < 64 ==> (((((x & !WEST_EDGE) << 7u64) >> j) & 1u64 == 1u64) <==> (j >= 7 && j % 8 != 7 && (x >> ((j - 7) as u64)) & 1u64 == 1u64)),
{
}

/// Moves every square of `x` one step in direction `d`, dropping those that
/// would leave the board.
pub fn shift(x: u64, d: usize) -> (r: u64)
    requires
        d < 8,
    ensures
        forall|j: int| #[trigger] holds(r, j) <==> holds(x, step(j, reverse(d as int))),
{
    if d == 0 {
        proof {
            lemma_shift_0(x);
            assert forall|j: int| #[trigger] holds(x << 8u64, j) <==> holds(x, step(j, reverse(d as int))) by {
                if 0 <= j < 64 {
                    let ju = j as u64;
                    assert((((x << 8u64) >> ju) & 1u64 == 1u64) <==> (ju >= 8 && (x >> ((ju - 8) as u64)) & 1u64 == 1u64));
                }
            }
        }
        x << 8u64
    } else if d == 1 {
        proof {
            lemma_shift_1(x);
            assert forall|j: int| #[trigger] holds((x & !EAST_EDGE) << 9u64, j) <==> holds(x, step(j, reverse(d as int))) by {
                if 0 <= j < 64 {
                    let ju = j as u64;
                    assert(((((x & !EAST_EDGE) << 9u64) >> ju) & 1u64 == 1u64) <==> (ju >= 9 && ju % 8 != 0 && (x >> ((ju - 9) as u64)) & 1u64 == 1u64));
                }
            }
        }
        (x & !EAST_EDGE) << 9u64
    } else if d == 2 {
        proof {
            lemma_shift_2(x);
            assert forall|j: int| #[trigger] holds((x & !EAST_EDGE) << 1u64, j) <==> holds(x, step(j, reverse(d as int))) by {
                if 0 <= j < 64 {
                    let ju = j as u64;
                    assert(((((x & !EAST_EDGE) << 1u64) >> ju) & 1u64 == 1u64) <==> (ju >= 1 && ju % 8 != 0 && (x >> ((ju - 1) as u64)) & 1u64 == 1u64));
                }
            }
        }
        (x & !EAST_EDGE) << 1u64
    } else if d == 3 {
        proof {
            lemma_shift_3(x);
            assert forall|j: int| #[trigger] holds((x & !EAST_EDGE) >> 7u64, j) <==> holds(x, step(j, reverse(d as int))) by {
                if 0 <= j < 64 {
                    let ju = j as u64;
                    assert(((((x & !EAST_EDGE) >> 7u64) >> ju) & 1u64 == 1u64) <==> (ju < 57 && ju % 8 != 0 && (x >> ((ju + 7) as u64)) & 1u64 == 1u64));
                }
            }
        }
        (x & !EAST_EDGE) >> 7u64
    } else if d == 4 {
        proof {
            lemma_shift_4(x);
            assert forall|j: int| #[trigger] holds(x >> 8u64, j) <==> holds(x, step(j, reverse(d as int))) by {
                if 0 <= j < 64 {
                    let ju = j as u64;
                    assert((((x >> 8u64) >> ju) & 1u64 == 1u64) <==> (ju < 56 && (x >> ((ju + 8) as u64)) & 1u64 == 1u64));
                }
            }
        }
        x >> 8u64
    } else if d == 5 {
        proof {
            lemma_shift_5(x);
            assert forall|j: int| #[trigger] holds((x & !WEST_EDGE) >> 9u64, j) <==> holds(x, step(j, reverse(d as int))) by {
                if 0 <= j < 64 {
                    let ju = j as u64;
                    assert(((((x & !WEST_EDGE) >> 9u64) >> ju) & 1u64 == 1u64) <==> (ju < 55 && ju % 8 != 7 && (x >> ((ju + 9) as u64)) & 1u64 == 1u64));
                }
            }
        }
        (x & !WEST_EDGE) >> 9u64
    } else if d == 6 {
        proof {
            lemma_shift_6(x);
            assert forall|j: int| #[trigger] holds((x & !WEST_EDGE) >> 1u64, j) <==> holds(x, step(j, reverse(d as int))) by {
                if 0 <= j < 64 {
                    let ju = j as u64;
                    assert(((((x & !WEST_EDGE) >> 1u64) >> ju) & 1u64 == 1u64) <==> (ju < 63 && ju % 8 != 7 && (x >> ((ju + 1) as u64)) & 1u64 == 1u64));
                }
            }
        }
        (x & !WEST_EDGE) >> 1u64
    } else {
        proof {
            lemma_shift_7(x);
            assert forall|j: int| #[trigger] holds((x & !WEST_EDGE) << 7u64, j) <==> holds(x, step(j, reverse(d as int))) by {
                if 0 <= j < 64 {
                    let ju = j as u64;
                    assert(((((x & !WEST_EDGE) << 7u64) >> ju) & 1u64 == 1u64) <==> (ju >= 7 && ju % 8 != 7 && (x >> ((ju - 7) as u64)) & 1u64 == 1u64));
                }
            }
        }
        (x & !WEST_EDGE) << 7u64
    }
}

} // verus!
