//! The game state and its rules: legal moves, move application, children.
use vstd::prelude::*;
use crate::bits::{
    count_below, flanks, holds, lemma_and_zero, lemma_bit_ops, lemma_bits_ext, lemma_lowest, lemma_mask_exists, lemma_mask_of,
    lemma_nonzero_has, lemma_ray_add, lemma_ray_short, lemma_single, lemma_single_lowest,
    lemma_step_inverse, lemma_zero_empty, legal_square, lowest, mask_of, on_board, popcount, ray,
    reverse, shift, single, step, sub_one, vacant,
};
use vstd::std_specs::bits::u64_trailing_zeros;

verus! {

/// How the game stands. `Won` means the side recorded as the mover has won.
#[derive(Clone, Copy, PartialEq, Eq, Debug, Structural)]
pub enum BoardState {
    Won,
    Drawn,
    Ongoing,
}

/// The move asked for is not among the legal moves of the side to move.
#[derive(Clone, Copy, PartialEq, Eq, Debug, Structural)]
pub struct IllegalMove;

/// A set of squares of the 8x8 board, one bit per square (bit 0 = top-left).
#[derive(Clone, Copy, Debug)]
pub struct Pieces {
    pub bits: u64,
}

/// A position: the discs of the side to move, those of the side waiting,
/// the mover's colour and the game status.
#[derive(Clone, Copy, Debug)]
pub struct Board {
    pub to_move: Pieces,
    pub waiting: Pieces,
    pub black_moving: bool,
    pub board_state: BoardState,
}

impl Pieces {
    /// Takes the lowest square out of the set and returns it as a one-square
    /// mask; returns `None` once the set is empty.
    pub fn next(&mut self) -> (r: Option<u64>)
        ensures
            old(self).bits == 0 ==> r.is_none() && final(self).bits == 0,
            old(self).bits != 0 ==> {
                &&& r == Some(old(self).bits ^ (old(self).bits & sub_one(old(self).bits)))
                &&& single(r.unwrap(), lowest(old(self).bits))
                &&& final(self).bits == old(self).bits & sub_one(old(self).bits)
                &&& forall|s: int| #[trigger] holds(final(self).bits, s) <==> (holds(old(self).bits, s) && s != lowest(old(self).bits))
            },
    {
        if self.bits == 0 {
            None
        } else {
            proof {
                lemma_lowest(self.bits);
            }
            let bit = self.bits ^ (self.bits & (self.bits - 1));
            self.bits = self.bits & (self.bits - 1);
            Some(bit)
        }
    }

    /// The number of squares in the set.
    pub fn count(&self) -> (r: u32)
        ensures
            r == self.size(),
    {
        let x = self.bits;
        let mut n: u32 = 0;
        let mut i: u64 = 0;
        while i < 64
            invariant
                i <= 64,
                n == count_below(x, i as nat),
                n <= i,
            decreases 64 - i,
        {
            if (x >> i) & 1 == 1 {
                n = n + 1;
            }
            i = i + 1;
        }
        n
    }
}


/// The squares of `x`, lowest first, each as a one-square mask.
pub open spec fn squares(x: u64) -> Seq<u64>
    decreases x via squares_decreases
{
    if x == 0 {
        Seq::empty()
    } else {
        seq![x ^ (x & sub_one(x))] + squares(x & sub_one(x))
    }
}

#[via_fn]
proof fn squares_decreases(x: u64) {
    if x != 0 {
        assert(x != 0 ==> x & ((x - 1) as u64) < x) by (bit_vector);
    }
}


/// Each entry of `squares(x)` is a single square that `x` holds, and the
/// entries come in ascending square order.
pub proof fn lemma_squares(x: u64)
    ensures
        forall|k: int| 0 <= k < squares(x).len() ==> single(#[trigger] squares(x)[k], lowest(squares(x)[k])),
        forall|k: int| 0 <= k < squares(x).len() ==> holds(x, lowest(#[trigger] squares(x)[k])),
        forall|k: int, j: int| 0 <= k < j < squares(x).len() ==> lowest(#[trigger] squares(x)[k]) < lowest(#[trigger] squares(x)[j]),
    decreases x,
{
    if x != 0 {
        let y = x & sub_one(x);
        lemma_lowest(x);
        assert(x != 0 ==> x & ((x - 1) as u64) < x) by (bit_vector);
        lemma_squares(y);
        let first = x ^ y;
        lemma_single_lowest(first, lowest(x));
        let sq = squares(x);
        assert(sq == seq![first] + squares(y));
        assert forall|k: int| 0 < k < sq.len() implies #[trigger] sq[k] == squares(y)[k - 1] by {}
        assert forall|k: int| 0 <= k < sq.len() implies holds(x, lowest(#[trigger] sq[k])) by {
            if k > 0 {
                assert(sq[k] == squares(y)[k - 1]);
            }
        }
        assert forall|k: int, j: int| 0 <= k < j < sq.len() implies lowest(#[trigger] sq[k]) < lowest(#[trigger] sq[j]) by {
            assert(sq[j] == squares(y)[j - 1]);
            assert(holds(y, lowest(squares(y)[j - 1])));
            if k > 0 {
                assert(sq[k] == squares(y)[k - 1]);
            }
        }
    }
}

/// The squares of the legal-move mask are legal moves.
pub proof fn lemma_moves_legal(board: Board)
    ensures
        forall|k: int| 0 <= k < squares(board.moves()).len() ==> board.legal_move(#[trigger] squares(board.moves())[k]),
        forall|s: int| #[trigger] holds(board.moves(), s) <==> legal_square(board.to_move.bits, board.waiting.bits, s),
{
    lemma_mask_exists(legal_at(board.to_move.bits, board.waiting.bits));
    lemma_squares(board.moves());
}

/// A mask other than zero has a first square.
pub proof fn lemma_squares_nonempty(x: u64)
    requires
        x != 0,
    ensures
        squares(x).len() > 0,
{
}

/// Walking from `j` against a direction, the squares at distances `0..=k`
/// hold `opp` discs and the one after them a `me` disc.
pub open spec fn run_ends(me: u64, opp: u64, j: int, d: int, k: nat) -> bool {
    &&& forall|t: nat| t <= k ==> #[trigger] holds(opp, ray(j, d, t))
    &&& holds(me, ray(j, d, k + 1))
}

/// The legal moves found from the directions below `dd` (of the shift table)
/// and, in direction `dd` itself, from runs of at most `k` discs.
pub open spec fn found(me: u64, opp: u64, s: int, dd: int, k: nat) -> bool {
    &&& vacant(me, opp, s)
    &&& exists|e: int, n: nat|
        (0 <= e < dd || (e == dd && n <= k)) && #[trigger] flanks(me, opp, s, reverse(e), n)
}

proof fn lemma_run_step(me: u64, opp: u64, j: int, d: int, k: nat)
    ensures
        run_ends(me, opp, j, d, k + 1) <==> (holds(opp, j) && run_ends(me, opp, step(j, d), d, k)),
        flanks(me, opp, j, d, k + 1) <==> run_ends(me, opp, step(j, d), d, k),
{
    assert forall|t: nat| #[trigger] ray(j, d, t + 1) == ray(step(j, d), d, t) by {}
    if holds(opp, j) && run_ends(me, opp, step(j, d), d, k) {
        assert forall|t: nat| t <= k + 1 implies #[trigger] holds(opp, ray(j, d, t)) by {
            if t > 0 {
                assert(ray(j, d, t) == ray(step(j, d), d, (t - 1) as nat));
            }
        }
    }
    if run_ends(me, opp, j, d, k + 1) {
        assert(ray(j, d, 0) == j);
        assert forall|t: nat| t <= k implies #[trigger] holds(opp, ray(step(j, d), d, t)) by {
            assert(ray(j, d, t + 1) == ray(step(j, d), d, t));
        }
    }
    if flanks(me, opp, j, d, k + 1) {
        assert forall|t: nat| t <= k implies #[trigger] holds(opp, ray(step(j, d), d, t)) by {
            assert(ray(j, d, t + 1) == ray(step(j, d), d, t));
        }
    }
    if run_ends(me, opp, step(j, d), d, k) {
        assert forall|t: nat| 1 <= t <= k + 1 implies #[trigger] holds(opp, ray(j, d, t)) by {
            assert(ray(j, d, t) == ray(step(j, d), d, (t - 1) as nat));
        }
    }
}

/// A flanking run longer than `k` leaves a run of exactly `k + 1` opposing discs
/// ending on a `me` disc, counted back from its far end.
proof fn lemma_long_run(me: u64, opp: u64, s: int, d: int, n: nat, k: nat)
    requires
        flanks(me, opp, s, d, n),
        n > k,
    ensures
        run_ends(me, opp, ray(s, d, (n - k) as nat), d, k),
{
    let j = ray(s, d, (n - k) as nat);
    assert forall|t: nat| t <= k + 1 implies #[trigger] ray(j, d, t) == ray(s, d, (n - k + t) as nat) by {
        lemma_ray_add(s, d, (n - k) as nat, t);
    }
    assert forall|t: nat| t <= k implies #[trigger] holds(opp, ray(j, d, t)) by {
        assert(ray(j, d, t) == ray(s, d, (n - k + t) as nat));
    }
    assert(ray(j, d, k + 1) == ray(s, d, n + 1));
}

/// Square `q` lies on the run that a disc placed on `b` captures in direction `d`.
pub open spec fn flips_dir(me: u64, opp: u64, b: int, d: int, q: int) -> bool {
    exists|n: nat, t: nat|
        #![trigger flanks(me, opp, b, d, n), ray(b, d, t)]
        1 <= t <= n && flanks(me, opp, b, d, n) && q == ray(b, d, t)
}

/// Square `q` is flipped by a disc placed on `b`.
pub open spec fn flipped(me: u64, opp: u64, b: int, q: int) -> bool {
    exists|d: int| 0 <= d < 8 && #[trigger] flips_dir(me, opp, b, d, q)
}

/// The mover's discs once a disc is placed on `b` and the runs it captures are flipped.
pub open spec fn gained(me: u64, opp: u64, b: int) -> u64 {
    mask_of(gains(me, opp, b))
}

/// The squares the mover holds after placing on `b`.
pub open spec fn gains(me: u64, opp: u64, b: int) -> spec_fn(int) -> bool {
    |q: int| holds(me, q) || q == b || flipped(me, opp, b, q)
}

/// The waiting side's discs once the captured runs are flipped.
pub open spec fn kept(me: u64, opp: u64, b: int) -> u64 {
    mask_of(keeps(me, opp, b))
}

/// The squares the waiting side still holds after a disc is placed on `b`.
pub open spec fn keeps(me: u64, opp: u64, b: int) -> spec_fn(int) -> bool {
    |q: int| holds(opp, q) && !flipped(me, opp, b, q)
}

/// The mask of legal moves for `me` against `opp`.
pub open spec fn legal_mask(me: u64, opp: u64) -> u64 {
    mask_of(legal_at(me, opp))
}

/// The squares where `me` may legally move.
pub open spec fn legal_at(me: u64, opp: u64) -> spec_fn(int) -> bool {
    |s: int| legal_square(me, opp, s)
}

/// `me` has at least one legal move against `opp`.
pub open spec fn can_move(me: u64, opp: u64) -> bool {
    exists|s: int| legal_square(me, opp, s)
}

impl Pieces {
    /// The number of squares held.
    pub open spec fn size(self) -> nat {
        popcount(self.bits)
    }
}

impl Board {
    /// The two sides share no square.
    pub open spec fn wf(self) -> bool {
        self.to_move.bits & self.waiting.bits == 0
    }

    /// `bit` is a single square on which the mover may legally place a disc.
    pub open spec fn legal_move(self, bit: u64) -> bool {
        single(bit, lowest(bit)) && legal_square(self.to_move.bits, self.waiting.bits, lowest(bit))
    }

    /// The legal moves of the side to move.
    pub open spec fn moves(self) -> u64 {
        legal_mask(self.to_move.bits, self.waiting.bits)
    }

    /// The position after the mover places a disc on the square of `bit`: the
    /// captured runs flip, the turn passes to the other side if it can move,
    /// else stays, and when neither side can move the side with more discs is
    /// recorded as the mover and has won (or the game is drawn).
    pub open spec fn play(self, bit: u64) -> Board {
        let b = lowest(bit);
        let a = gained(self.to_move.bits, self.waiting.bits, b);
        let o = kept(self.to_move.bits, self.waiting.bits, b);
        if can_move(o, a) {
            Board { to_move: Pieces { bits: o }, waiting: Pieces { bits: a }, black_moving: !self.black_moving, board_state: BoardState::Ongoing }
        } else if can_move(a, o) {
            Board { to_move: Pieces { bits: a }, waiting: Pieces { bits: o }, black_moving: self.black_moving, board_state: BoardState::Ongoing }
        } else if popcount(a) > popcount(o) {
            Board { to_move: Pieces { bits: a }, waiting: Pieces { bits: o }, black_moving: self.black_moving, board_state: BoardState::Won }
        } else if popcount(a) < popcount(o) {
            Board { to_move: Pieces { bits: o }, waiting: Pieces { bits: a }, black_moving: !self.black_moving, board_state: BoardState::Won }
        } else {
            Board { to_move: Pieces { bits: a }, waiting: Pieces { bits: o }, black_moving: self.black_moving, board_state: BoardState::Drawn }
        }
    }
}

/// The run of `opp` discs that a disc placed on `b` captures in direction `dir`,
/// or nothing when the run is not closed by a `me` disc.
fn line_from(bit: u64, dir: usize, me: u64, opp: u64) -> (r: u64)
    requires
        single(bit, lowest(bit)),
        dir < 8,
        me & opp == 0,
    ensures
        forall|q: int| #[trigger] holds(r, q) <==> flips_dir(me, opp, lowest(bit), dir as int, q),
{
    let ghost b = lowest(bit);
    let ghost d = dir as int;
    let mut line: u64 = 0;
    let mut moving = shift(bit, dir);
    let ghost mut t: nat = 1;
    proof {
        lemma_single(bit, b);
        lemma_zero_empty();
        lemma_and_zero(me, opp);
        assert(ray(step(b, d), d, 0) == step(b, d));
        assert forall|j: int| #[trigger] holds(moving, j) <==> (on_board(ray(b, d, t)) && j == ray(b, d, t)) by {
            if on_board(j) && on_board(step(j, reverse(d))) {
                lemma_step_inverse(step(j, reverse(d)), j, d);
            }
            if on_board(ray(b, d, t)) && j == ray(b, d, t) {
                lemma_step_inverse(b, j, d);
            }
        }
    }
    while moving & opp != 0
        invariant
            single(bit, b),
            d == dir as int,
            dir < 8,
            t >= 1,
            forall|s: int| !(#[trigger] holds(me, s) && holds(opp, s)),
            forall|j: int| #[trigger] holds(moving, j) <==> (on_board(ray(b, d, t)) && j == ray(b, d, t)),
            forall|u: nat| 1 <= u < t ==> #[trigger] holds(opp, ray(b, d, u)),
            forall|q: int| #[trigger] holds(line, q) <==> exists|u: nat| 1 <= u < t && q == #[trigger] ray(b, d, u),
        decreases 8 - t,
    {
        proof {
            lemma_and_zero(moving, opp);
            let j = choose|j: int| #[trigger] holds(moving, j) && holds(opp, j);
            lemma_ray_short(b, d, t);
        }
        let ghost old_line = line;
        let ghost old_moving = moving;
        line = line | moving;
        moving = shift(moving, dir);
        proof {
            lemma_bit_ops(old_line, old_moving);
            lemma_ray_add(b, d, t, 1);
            let cur = ray(b, d, t);
            assert(ray(cur, d, 1) == step(cur, d)) by {
                assert(ray(step(cur, d), d, 0) == step(cur, d));
            }
            assert forall|j: int| #[trigger] holds(moving, j) <==> (on_board(ray(b, d, t + 1)) && j == ray(b, d, t + 1)) by {
                if on_board(j) && on_board(step(j, reverse(d))) {
                    lemma_step_inverse(step(j, reverse(d)), j, d);
                }
                if on_board(ray(b, d, t + 1)) && j == ray(b, d, t + 1) {
                    lemma_step_inverse(cur, j, d);
                }
            }
            assert forall|q: int| #[trigger] holds(line, q) <==> exists|u: nat| 1 <= u < t + 1 && q == #[trigger] ray(b, d, u) by {
                if holds(line, q) && !holds(old_line, q) {
                    assert(q == ray(b, d, t));
                }
                if exists|u: nat| 1 <= u < t + 1 && q == #[trigger] ray(b, d, u) {
                    let u = choose|u: nat| 1 <= u < t + 1 && q == #[trigger] ray(b, d, u);
                    if u == t {
                        assert(holds(old_moving, q));
                    }
                }
            }
            t = t + 1;
        }
    }
    proof {
        lemma_and_zero(moving, opp);
        lemma_and_zero(moving, me);
        if on_board(ray(b, d, t)) {
            assert(holds(moving, ray(b, d, t)));
        }
    }
    if moving & me != 0 {
        proof {
            let end = ray(b, d, t);
            assert(holds(me, end));
            assert forall|q: int| #[trigger] holds(line, q) <==> flips_dir(me, opp, b, d, q) by {
                if holds(line, q) {
                    let u = choose|u: nat| 1 <= u < t && q == #[trigger] ray(b, d, u);
                    assert(flanks(me, opp, b, d, (t - 1) as nat));
                }
                if flips_dir(me, opp, b, d, q) {
                    let (n, u) = choose|n: nat, u: nat|
                        #![trigger flanks(me, opp, b, d, n), ray(b, d, u)]
                        1 <= u <= n && flanks(me, opp, b, d, n) && q == ray(b, d, u);
                    if n + 1 < t {
                        assert(holds(opp, ray(b, d, n + 1)));
                    } else if n + 1 > t {
                        assert(holds(opp, ray(b, d, t)));
                    }
                }
            }
        }
        line
    } else {
        proof {
            assert forall|q: int| !#[trigger] flips_dir(me, opp, b, d, q) by {
                if flips_dir(me, opp, b, d, q) {
                    let (n, u) = choose|n: nat, u: nat|
                        #![trigger flanks(me, opp, b, d, n), ray(b, d, u)]
                        1 <= u <= n && flanks(me, opp, b, d, n) && q == ray(b, d, u);
                    if n + 1 < t {
                        assert(holds(opp, ray(b, d, n + 1)));
                    } else if n + 1 > t {
                        assert(holds(opp, ray(b, d, t)));
                    } else {
                        assert(holds(me, ray(b, d, t)));
                    }
                }
            }
        }
        0
    }
}

/// A move never puts a disc of each side on one square: if the two sides
/// share no square before a legal move, they share none after it.
pub proof fn lemma_play_disjoint(board: Board, bit: u64)
    requires
        board.wf(),
        board.legal_move(bit),
    ensures
        board.play(bit).wf(),
{
    let me = board.to_move.bits;
    let opp = board.waiting.bits;
    let b = lowest(bit);
    lemma_mask_exists(gains(me, opp, b));
    lemma_mask_exists(keeps(me, opp, b));
    lemma_and_zero(me, opp);
    let a = gained(me, opp, b);
    let o = kept(me, opp, b);
    assert forall|s: int| !(#[trigger] holds(a, s) && holds(o, s)) by {}
    lemma_and_zero(a, o);
    lemma_and_zero(o, a);
}

/// The initial position: white on squares 27 and 36, black on 28 and 35,
/// black to move.
pub open spec fn initial() -> Board {
    Board {
        to_move: Pieces { bits: 0x0000000810000000 },
        waiting: Pieces { bits: 0x0000001008000000 },
        black_moving: true,
        board_state: BoardState::Ongoing,
    }
}

impl Default for Board {
    /// The standard starting position.
    fn default() -> (r: Board)
        ensures
            r == initial(),
    {
        Board {
            to_move: Pieces { bits: 0x0000000810000000 },
            waiting: Pieces { bits: 0x0000001008000000 },
            black_moving: true,
            board_state: BoardState::Ongoing,
        }
    }
}

/// The starting position keeps the two sides apart.
pub proof fn lemma_initial_disjoint()
    ensures
        initial().wf(),
{
    assert(0x0000000810000000u64 & 0x0000001008000000u64 == 0) by (bit_vector);
}

/// Legal moves depend on the discs alone: two boards with the same discs
/// have the same legal moves, whatever else they record.
pub proof fn lemma_moves_pure(b1: Board, b2: Board)
    requires
        b1.to_move == b2.to_move,
        b1.waiting == b2.waiting,
    ensures
        b1.moves() == b2.moves(),
{
}

proof fn lemma_count_sum(a: u64, o: u64, me: u64, opp: u64, b: int, n: nat)
    requires
        n <= 64,
        forall|s: int| 0 <= s < 64 ==> (if #[trigger] holds(a, s) { 1int } else { 0 }) + (if holds(o, s) { 1int } else { 0 })
            == (if holds(me, s) { 1int } else { 0 }) + (if holds(opp, s) { 1int } else { 0 }) + (if s == b { 1int } else { 0 }),
    ensures
        count_below(a, n) + count_below(o, n) == count_below(me, n) + count_below(opp, n) + (if 0 <= b < n { 1int } else { 0 }),
    decreases n,
{
    if n > 0 {
        lemma_count_sum(a, o, me, opp, b, (n - 1) as nat);
        let s = n - 1;
        assert((if holds(a, s) { 1int } else { 0 }) + (if holds(o, s) { 1int } else { 0 })
            == (if holds(me, s) { 1int } else { 0 }) + (if holds(opp, s) { 1int } else { 0 }) + (if s == b { 1int } else { 0 }));
    }
}

/// A move adds exactly one disc to the board: flips only change a disc's
/// owner, so the discs of both sides together grow by one.
pub proof fn lemma_play_count(board: Board, bit: u64)
    requires
        board.wf(),
        board.legal_move(bit),
    ensures
        board.play(bit).to_move.size() + board.play(bit).waiting.size() == board.to_move.size() + board.waiting.size() + 1,
{
    let me = board.to_move.bits;
    let opp = board.waiting.bits;
    let b = lowest(bit);
    lemma_mask_exists(gains(me, opp, b));
    lemma_mask_exists(keeps(me, opp, b));
    lemma_and_zero(me, opp);
    let a = gained(me, opp, b);
    let o = kept(me, opp, b);
    assert forall|s: int| 0 <= s < 64 implies (if #[trigger] holds(a, s) { 1int } else { 0 }) + (if holds(o, s) { 1int } else { 0 })
        == (if holds(me, s) { 1int } else { 0 }) + (if holds(opp, s) { 1int } else { 0 }) + (if s == b { 1int } else { 0 }) by {
        if flipped(me, opp, b, s) {
            let d = choose|d: int| 0 <= d < 8 && #[trigger] flips_dir(me, opp, b, d, s);
            let (n, t) = choose|n: nat, t: nat|
                #![trigger flanks(me, opp, b, d, n), ray(b, d, t)]
                1 <= t <= n && flanks(me, opp, b, d, n) && s == ray(b, d, t);
            assert(holds(opp, ray(b, d, t)));
        }
    }
    lemma_count_sum(a, o, me, opp, b, 64);
}

/// A forced pass: when the side that would move next has no legal move but
/// the side that just moved has one, the game goes on with the same side to
/// move.
pub proof fn lemma_pass(board: Board, bit: u64)
    requires
        board.wf(),
        board.legal_move(bit),
        !can_move(kept(board.to_move.bits, board.waiting.bits, lowest(bit)), gained(board.to_move.bits, board.waiting.bits, lowest(bit))),
        can_move(gained(board.to_move.bits, board.waiting.bits, lowest(bit)), kept(board.to_move.bits, board.waiting.bits, lowest(bit))),
    ensures
        board.play(bit).board_state == BoardState::Ongoing,
        board.play(bit).black_moving == board.black_moving,
        board.play(bit).to_move.bits == gained(board.to_move.bits, board.waiting.bits, lowest(bit)),
        board.play(bit).moves() != 0,
{
    let a = gained(board.to_move.bits, board.waiting.bits, lowest(bit));
    let o = kept(board.to_move.bits, board.waiting.bits, lowest(bit));
    lemma_moves_legal(board.play(bit));
    let s = choose|s: int| legal_square(a, o, s);
    lemma_zero_empty();
    assert(holds(board.play(bit).moves(), s));
}

/// The end of the game: when after a move neither side can move, the game is
/// over, the side with more discs is recorded as the mover and has won (or
/// the counts are equal and it is drawn), and no move is legal any more.
pub proof fn lemma_double_pass(board: Board, bit: u64)
    requires
        board.wf(),
        board.legal_move(bit),
        !can_move(kept(board.to_move.bits, board.waiting.bits, lowest(bit)), gained(board.to_move.bits, board.waiting.bits, lowest(bit))),
        !can_move(gained(board.to_move.bits, board.waiting.bits, lowest(bit)), kept(board.to_move.bits, board.waiting.bits, lowest(bit))),
    ensures
        board.play(bit).board_state != BoardState::Ongoing,
        board.play(bit).board_state == BoardState::Won ==> board.play(bit).to_move.size() > board.play(bit).waiting.size(),
        board.play(bit).board_state == BoardState::Drawn ==> board.play(bit).to_move.size() == board.play(bit).waiting.size(),
        board.play(bit).moves() == 0,
        forall|m: u64| !board.play(bit).legal_move(m),
{
    let next = board.play(bit);
    lemma_moves_legal(next);
    lemma_zero_empty();
    if next.moves() != 0 {
        lemma_nonzero_has(next.moves());
        let s = lowest(next.moves());
        assert(legal_square(next.to_move.bits, next.waiting.bits, s));
        assert(can_move(next.to_move.bits, next.waiting.bits));
    }
    assert forall|m: u64| !next.legal_move(m) by {
        if next.legal_move(m) {
            assert(can_move(next.to_move.bits, next.waiting.bits));
        }
    }
}

impl Board {
    /// Places a disc of the mover on the square of `bit`, flips what it
    /// captures and settles whose turn it is (with forced passes and the end
    /// of the game). Returns the legal moves of the side now to move.
    pub fn make_move(&mut self, bit: u64) -> (r: Pieces)
        requires
            old(self).wf(),
            old(self).legal_move(bit),
        ensures
            *final(self) == old(self).play(bit),
            r.bits == final(self).moves(),
    {
        let me = self.to_move.bits;
        let opp = self.waiting.bits;
        let ghost b = lowest(bit);
        proof {
            lemma_single(bit, b);
        }
        let mut dir: usize = 0;
        while dir < 8
            invariant
                dir <= 8,
                me & opp == 0,
                single(bit, b),
                b == lowest(bit),
                forall|q: int| #[trigger] holds(self.to_move.bits, q) <==> (holds(me, q) || exists|e: int| 0 <= e < dir && #[trigger] flips_dir(me, opp, b, e, q)),
                forall|q: int| #[trigger] holds(self.waiting.bits, q) <==> (holds(opp, q) && !exists|e: int| 0 <= e < dir && #[trigger] flips_dir(me, opp, b, e, q)),
                self.black_moving == old(self).black_moving,
                me == old(self).to_move.bits,
                opp == old(self).waiting.bits,
            decreases 8 - dir,
        {
            let line = line_from(bit, dir, me, opp);
            let ghost m0 = self.to_move.bits;
            let ghost w0 = self.waiting.bits;
            self.to_move.bits = self.to_move.bits | line;
            self.waiting.bits = self.waiting.bits & !line;
            proof {
                lemma_bit_ops(m0, line);
                lemma_bit_ops(w0, !line);
                lemma_bit_ops(line, 0);
                assert forall|q: int| #[trigger] holds(self.to_move.bits, q) <==> (holds(me, q) || exists|e: int| 0 <= e < dir + 1 && #[trigger] flips_dir(me, opp, b, e, q)) by {
                    if exists|e: int| 0 <= e < dir + 1 && #[trigger] flips_dir(me, opp, b, e, q) {
                        let e = choose|e: int| 0 <= e < dir + 1 && #[trigger] flips_dir(me, opp, b, e, q);
                        if e == dir {
                            assert(holds(line, q));
                        }
                    }
                }
                assert forall|q: int| #[trigger] holds(self.waiting.bits, q) <==> (holds(opp, q) && !exists|e: int| 0 <= e < dir + 1 && #[trigger] flips_dir(me, opp, b, e, q)) by {
                    if exists|e: int| 0 <= e < dir + 1 && #[trigger] flips_dir(me, opp, b, e, q) {
                        let e = choose|e: int| 0 <= e < dir + 1 && #[trigger] flips_dir(me, opp, b, e, q);
                        if e == dir {
                            assert(holds(line, q));
                        }
                    }
                }
            }
            dir = dir + 1;
        }
        let ghost m1 = self.to_move.bits;
        self.to_move.bits = self.to_move.bits | bit;
        proof {
            lemma_bit_ops(m1, bit);
            lemma_mask_of(self.to_move.bits, gains(me, opp, b));
            lemma_mask_of(self.waiting.bits, keeps(me, opp, b));
        }
        let ghost a = self.to_move.bits;
        let ghost o = self.waiting.bits;
        assert(a == gained(me, opp, b));
        assert(o == kept(me, opp, b));
        std::mem::swap(&mut self.to_move, &mut self.waiting);
        self.black_moving = !self.black_moving;
        let mut moves = self.each_move();
        proof {
            lemma_zero_empty();
            if moves.bits != 0 {
                lemma_nonzero_has(moves.bits);
                assert(legal_square(o, a, lowest(moves.bits)));
                assert(can_move(o, a));
            } else {
                assert forall|s: int| !legal_square(o, a, s) by {
                    assert(!holds(moves.bits, s));
                }
                assert(!can_move(o, a));
            }
        }
        if moves.bits == 0 {
            std::mem::swap(&mut self.to_move, &mut self.waiting);
            self.black_moving = !self.black_moving;
            moves = self.each_move();
            proof {
                if moves.bits != 0 {
                    lemma_nonzero_has(moves.bits);
                    assert(legal_square(a, o, lowest(moves.bits)));
                    assert(can_move(a, o));
                } else {
                    assert forall|s: int| !legal_square(a, o, s) by {
                        assert(!holds(moves.bits, s));
                    }
                    assert(!can_move(a, o));
                }
            }
            if moves.bits == 0 {
                let mine = self.to_move.count();
                let theirs = self.waiting.count();
                if mine > theirs {
                    self.board_state = BoardState::Won;
                } else if mine < theirs {
                    std::mem::swap(&mut self.to_move, &mut self.waiting);
                    self.black_moving = !self.black_moving;
                    self.board_state = BoardState::Won;
                    moves = self.each_move();
                } else {
                    self.board_state = BoardState::Drawn;
                }
            } else {
                self.board_state = BoardState::Ongoing;
            }
        } else {
            self.board_state = BoardState::Ongoing;
        }
        moves
    }

    /// Plays `bit` only if it is one of the mover's legal moves; otherwise
    /// leaves the board as it is. On success returns the legal moves the
    /// mover had before the move.
    pub fn safe_make_move(&mut self, bit: u64) -> (r: Result<Pieces, IllegalMove>)
        requires
            old(self).wf(),
        ensures
            old(self).legal_move(bit) ==> r == Ok::<Pieces, IllegalMove>(Pieces { bits: old(self).moves() }) && *final(self) == old(self).play(bit),
            !old(self).legal_move(bit) ==> r == Err::<Pieces, IllegalMove>(IllegalMove) && *final(self) == *old(self),
    {
        let moves = self.each_move();
        let mut rest = moves;
        let mut found = false;
        proof {
            if single(bit, lowest(bit)) {
                lemma_single(bit, lowest(bit));
            }
        }
        while !found && rest.bits != 0
            invariant
                found ==> self.legal_move(bit),
                !found && self.legal_move(bit) ==> holds(rest.bits, lowest(bit)),
                forall|s: int| #[trigger] holds(rest.bits, s) ==> holds(moves.bits, s),
                forall|s: int| #[trigger] holds(moves.bits, s) <==> legal_square(self.to_move.bits, self.waiting.bits, s),
                single(bit, lowest(bit)) ==> forall|j: int| #[trigger] holds(bit, j) <==> j == lowest(bit),
            decreases rest.bits,
        {
            let ghost before = rest.bits;
            proof {
                lemma_lowest(before);
                assert(before != 0 ==> before & ((before - 1) as u64) < before) by (bit_vector);
            }
            let x = rest.next().unwrap();
            if x == bit {
                proof {
                    lemma_single_lowest(x, lowest(before));
                }
                found = true;
            }
            proof {
                if !found && self.legal_move(bit) {
                    lemma_single(x, lowest(before));
                    if lowest(bit) == lowest(before) {
                        lemma_single(bit, lowest(bit));
                        lemma_bits_ext(x, bit);
                    }
                }
            }
        }
        proof {
            lemma_zero_empty();
        }
        if found {
            self.make_move(bit);
            Ok(moves)
        } else {
            Err(IllegalMove)
        }
    }

    /// For each move of `moves` (the legal moves of this position), lowest
    /// square first: the position it leads to and that position's legal moves.
    pub fn children(&self, moves: &Pieces) -> (r: Vec<(Board, Pieces)>)
        requires
            self.wf(),
            moves.bits == self.moves(),
        ensures
            r@.len() == squares(moves.bits).len(),
            forall|i: int| 0 <= i < r@.len() ==> (#[trigger] r@[i]).0 == self.play(squares(moves.bits)[i]),
            forall|i: int| 0 <= i < r@.len() ==> (#[trigger] r@[i]).1.bits == r@[i].0.moves(),
            forall|i: int| 0 <= i < r@.len() ==> (#[trigger] r@[i]).0.wf(),
            forall|i: int| 0 <= i < r@.len() ==> (#[trigger] r@[i]).0.to_move.size() + r@[i].0.waiting.size()
                == self.to_move.size() + self.waiting.size() + 1,
    {
        let mut kids: Vec<(Board, Pieces)> = Vec::new();
        let mut rest = *moves;
        let ghost done: Seq<u64> = Seq::empty();
        proof {
            lemma_mask_exists(legal_at(self.to_move.bits, self.waiting.bits));
        }
        while rest.bits != 0
            invariant
                self.wf(),
                squares(moves.bits) == done + squares(rest.bits),
                kids@.len() == done.len(),
                forall|s: int| #[trigger] holds(rest.bits, s) ==> holds(moves.bits, s),
                forall|s: int| #[trigger] holds(moves.bits, s) <==> (on_board(s) && legal_square(self.to_move.bits, self.waiting.bits, s)),
                forall|i: int| 0 <= i < kids@.len() ==> (#[trigger] kids@[i]).0 == self.play(done[i]),
                forall|i: int| 0 <= i < kids@.len() ==> (#[trigger] kids@[i]).1.bits == kids@[i].0.moves(),
                forall|i: int| 0 <= i < kids@.len() ==> (#[trigger] kids@[i]).0.wf(),
                forall|i: int| 0 <= i < kids@.len() ==> (#[trigger] kids@[i]).0.to_move.size() + kids@[i].0.waiting.size()
                    == self.to_move.size() + self.waiting.size() + 1,
            decreases rest.bits,
        {
            let ghost before = rest.bits;
            proof {
                lemma_lowest(before);
                assert(before != 0 ==> before & ((before - 1) as u64) < before) by (bit_vector);
            }
            let bit = rest.next().unwrap();
            proof {
                lemma_single_lowest(bit, lowest(before));
                assert(squares(before) == seq![bit] + squares(rest.bits));
                assert(squares(moves.bits) == (done + seq![bit]) + squares(rest.bits));
                done = done + seq![bit];
            }
            let mut copy = *self;
            let next = copy.make_move(bit);
            proof {
                lemma_play_disjoint(*self, bit);
                lemma_play_count(*self, bit);
            }
            kids.push((copy, next));
        }
        proof {
            assert(squares(0u64) == Seq::<u64>::empty());
            assert(squares(moves.bits) == done);
        }
        kids
    }

    /// The squares on which the mover may legally place a disc.
    #[verifier::spinoff_prover]
    #[verifier::rlimit(40)]
    pub fn each_move(&self) -> (r: Pieces)
        ensures
            forall|s: int| #[trigger] holds(r.bits, s) <==> legal_square(self.to_move.bits, self.waiting.bits, s),
            r.bits == self.moves(),
    {
        let friend = self.to_move.bits;
        let opponent = self.waiting.bits;
        let mut moves: u64 = 0;
        let empty = !(friend | opponent);
        proof {
            lemma_zero_empty();
            lemma_bit_ops(friend, opponent);
            lemma_bit_ops(friend | opponent, 0);
        }
        let mut dir: usize = 0;
        while dir < 8
            invariant
                dir <= 8,
                empty == !(friend | opponent),
                forall|s: int| #[trigger] holds(empty, s) <==> vacant(friend, opponent, s),
                forall|s: int| #[trigger] holds(moves, s) <==> found(friend, opponent, s, dir as int, 0),
            decreases 8 - dir,
        {
            let ghost back = reverse(dir as int);
            let ghost before = moves;
            let sh = shift(friend, dir);
            let mut candidates = opponent & sh;
            let ghost mut k: nat = 0;
            proof {
                lemma_bit_ops(opponent, sh);
                assert forall|j: int| #[trigger] holds(candidates, j) <==> run_ends(friend, opponent, j, back, 0) by {
                    assert(ray(step(j, back), back, 0) == step(j, back));
                    assert(ray(j, back, 1) == step(j, back));
                    assert(ray(j, back, 0) == j);
                }
                assert forall|s: int| #[trigger] holds(moves, s) <==> found(friend, opponent, s, dir as int, k) by {
                    if found(friend, opponent, s, dir as int, k) {
                        let (e, n) = choose|e: int, n: nat|
                            (0 <= e < dir || (e == dir && n <= k)) && #[trigger] flanks(friend, opponent, s, reverse(e), n);
                        assert(0 <= e < dir);
                    }
                }
            }
            while candidates != 0
                invariant
                    dir < 8,
                    back == reverse(dir as int),
                    k <= 7,
                    empty == !(friend | opponent),
                    forall|s: int| #[trigger] holds(empty, s) <==> vacant(friend, opponent, s),
                    forall|j: int| #[trigger] holds(candidates, j) <==> run_ends(friend, opponent, j, back, k),
                    forall|s: int| #[trigger] holds(moves, s) <==> found(friend, opponent, s, dir as int, k),
                decreases 7 - k,
            {
                proof {
                    lemma_nonzero_has(candidates);
                    let j = u64_trailing_zeros(candidates) as int;
                    lemma_ray_short(j, back, k + 1);
                }
                let step_on = shift(candidates, dir);
                let ghost old_moves = moves;
                moves = moves | (empty & step_on);
                let ghost old_candidates = candidates;
                candidates = opponent & step_on;
                proof {
                    lemma_bit_ops(opponent, step_on);
                    lemma_bit_ops(empty, step_on);
                    lemma_bit_ops(old_moves, empty & step_on);
                    assert forall|j: int| #[trigger] holds(candidates, j) <==> run_ends(friend, opponent, j, back, k + 1) by {
                        lemma_run_step(friend, opponent, j, back, k);
                    }
                    assert forall|s: int| #[trigger] holds(moves, s) <==> found(friend, opponent, s, dir as int, k + 1) by {
                        lemma_run_step(friend, opponent, s, back, k);
                        if found(friend, opponent, s, dir as int, k + 1) {
                            let (e, n) = choose|e: int, n: nat|
                                (0 <= e < dir || (e == dir && n <= k + 1)) && #[trigger] flanks(friend, opponent, s, reverse(e), n);
                            if !found(friend, opponent, s, dir as int, k) {
                                assert(e == dir && n == k + 1);
                            }
                        }
                        if holds(empty & step_on, s) {
                            assert(flanks(friend, opponent, s, back, k + 1));
                        }
                    }
                    k = k + 1;
                }
            }
            proof {
                lemma_zero_empty();
                assert forall|s: int| #[trigger] holds(moves, s) <==> found(friend, opponent, s, dir + 1, 0) by {
                    if found(friend, opponent, s, dir + 1, 0) {
                        let (e, n) = choose|e: int, n: nat|
                            (0 <= e < dir + 1 || (e == dir + 1 && n <= 0)) && #[trigger] flanks(friend, opponent, s, reverse(e), n);
                        if e == dir && n > k {
                            lemma_long_run(friend, opponent, s, back, n, k);
                            assert(holds(candidates, ray(s, back, (n - k) as nat)));
                        }
                        assert(found(friend, opponent, s, dir as int, k));
                    }
                }
            }
            dir = dir + 1;
        }
        proof {
            assert forall|s: int| #[trigger] holds(moves, s) <==> legal_square(friend, opponent, s) by {
                if found(friend, opponent, s, 8, 0) {
                    let (e, n) = choose|e: int, n: nat|
                        (0 <= e < 8 || (e == 8 && n <= 0)) && #[trigger] flanks(friend, opponent, s, reverse(e), n);
                    assert(0 <= reverse(e) < 8);
                }
                if legal_square(friend, opponent, s) {
                    let (d, n) = choose|d: int, n: nat| 0 <= d < 8 && #[trigger] flanks(friend, opponent, s, d, n);
                    assert(reverse(reverse(d)) == d);
                    assert(flanks(friend, opponent, s, reverse(reverse(d)), n));
                }
            }
            lemma_mask_of(moves, legal_at(friend, opponent));
        }
        Pieces { bits: moves }
    }
}

} // verus!
