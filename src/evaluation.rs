//! Static evaluation of positions and the alpha-beta search built on it.
//! Scores are on a black-favouring scale: positive is good for black.
use vstd::prelude::*;
use crate::bits::{
    count_below, holds, lemma_bit_ops, lemma_count_bound, lemma_lowest, lemma_mask_of, lemma_zero_empty, mask_of, on_board,
    popcount, reverse, shift, step, vacant,
};
use crate::board::{Board, BoardState, Pieces, lemma_moves_legal, lemma_play_disjoint, lemma_squares_nonempty, squares};

verus! {

/// +1 when black is to move, -1 when white is.
pub open spec fn side(board: Board) -> int {
    if board.black_moving { 1 } else { -1 }
}

/// The four corner squares.
pub const CORNERS: u64 = 0x8100000000000081;

/// The simple evaluation: mobility for the side to move plus a quarter of
/// the mover's material lead (rounded down), signed toward black.
pub open spec fn simple_value(board: Board) -> int {
    let c = side(board);
    match board.board_state {
        BoardState::Won => 127 * c,
        BoardState::Drawn => 4 * c,
        BoardState::Ongoing => c * (popcount(board.moves()) + (board.to_move.size() - board.waiting.size()) / 4),
    }
}

/// Evaluates `board` from its own legal moves.
pub fn eval_func(board: &Board) -> (r: i8)
    ensures
        r as int == simple_value(*board),
{
    let c: i8 = if board.black_moving { 1 } else { -1 };
    match board.board_state {
        BoardState::Won => 127 * c,
        BoardState::Drawn => 4 * c,
        BoardState::Ongoing => {
            let mobility = board.each_move().count();
            let mine = board.to_move.count();
            let theirs = board.waiting.count();
            proof {
                lemma_count_bound(board.moves(), 64);
                lemma_count_bound(board.to_move.bits, 64);
                lemma_count_bound(board.waiting.bits, 64);
            }
            let diff = mine as i8 - theirs as i8;
            let quarter = if diff >= 0 { diff / 4 } else { -((3 - diff) / 4) };
            proof {
                if diff < 0 {
                    assert(-((3 - diff) / 4) == diff / 4) by (nonlinear_arith)
                        requires diff < 0, diff >= -64;
                }
            }
            c * (mobility as i8 + quarter)
        },
    }
}

/// Some neighbour of `q` is an empty square.
pub open spec fn exposed(me: u64, opp: u64, q: int) -> bool {
    exists|d: int| 0 <= d < 8 && #[trigger] vacant(me, opp, step(q, d))
}

/// The discs of `me` next to an empty square.
pub open spec fn frontier_of(me: u64, opp: u64) -> spec_fn(int) -> bool {
    |q: int| holds(me, q) && exposed(me, opp, q)
}

/// The frontier discs of `me` as a mask.
pub open spec fn front(me: u64, opp: u64) -> u64 {
    mask_of(frontier_of(me, opp))
}

/// The frontier discs of the mover and of the waiting side: the discs next
/// to at least one empty square.
pub fn frontier(board: &Board) -> (r: (Pieces, Pieces))
    ensures
        r.0.bits == front(board.to_move.bits, board.waiting.bits),
        r.1.bits == front(board.waiting.bits, board.to_move.bits),
{
    let me = board.to_move.bits;
    let opp = board.waiting.bits;
    let empty = !(me | opp);
    let mut near: u64 = 0;
    proof {
        lemma_bit_ops(me, opp);
        lemma_bit_ops(me | opp, 0);
        lemma_zero_empty();
    }
    let mut dir: usize = 0;
    while dir < 8
        invariant
            dir <= 8,
            forall|s: int| #[trigger] holds(empty, s) <==> vacant(me, opp, s),
            forall|q: int| #[trigger] holds(near, q) <==> (on_board(q) && exists|e: int| 0 <= e < dir && #[trigger] vacant(me, opp, step(q, reverse(e)))),
        decreases 8 - dir,
    {
        let sh = shift(empty, dir);
        let ghost before = near;
        near = near | sh;
        proof {
            lemma_bit_ops(before, sh);
            assert forall|q: int| #[trigger] holds(near, q) <==> (on_board(q) && exists|e: int| 0 <= e < dir + 1 && #[trigger] vacant(me, opp, step(q, reverse(e)))) by {
                if holds(sh, q) {
                    assert(vacant(me, opp, step(q, reverse(dir as int))));
                }
                if on_board(q) && exists|e: int| 0 <= e < dir + 1 && #[trigger] vacant(me, opp, step(q, reverse(e))) {
                    let e = choose|e: int| 0 <= e < dir + 1 && #[trigger] vacant(me, opp, step(q, reverse(e)));
                    if e == dir {
                        assert(holds(sh, q));
                    }
                }
            }
        }
        dir = dir + 1;
    }
    let mine = me & near;
    let theirs = opp & near;
    proof {
        lemma_bit_ops(me, near);
        lemma_bit_ops(opp, near);
        assert forall|q: int| on_board(q) implies #[trigger] exposed(me, opp, q) == exposed(opp, me, q) by {
            if exposed(me, opp, q) {
                let d = choose|d: int| 0 <= d < 8 && #[trigger] vacant(me, opp, step(q, d));
                assert(vacant(opp, me, step(q, d)));
            }
            if exposed(opp, me, q) {
                let d = choose|d: int| 0 <= d < 8 && #[trigger] vacant(opp, me, step(q, d));
                assert(vacant(me, opp, step(q, d)));
            }
        }
        assert forall|q: int| on_board(q) implies #[trigger] exposed(me, opp, q) == holds(near, q) by {
            if exposed(me, opp, q) {
                let d = choose|d: int| 0 <= d < 8 && #[trigger] vacant(me, opp, step(q, d));
                assert(reverse(reverse(d)) == d);
                assert(vacant(me, opp, step(q, reverse(reverse(d)))));
            }
            if holds(near, q) {
                let e = choose|e: int| 0 <= e < 8 && #[trigger] vacant(me, opp, step(q, reverse(e)));
                assert(0 <= reverse(e) < 8);
            }
        }
        lemma_mask_of(mine, frontier_of(me, opp));
        assert forall|q: int| #[trigger] holds(theirs, q) <==> (on_board(q) && frontier_of(opp, me)(q)) by {
            if on_board(q) {
                assert(exposed(me, opp, q) == exposed(opp, me, q));
            }
        }
        lemma_mask_of(theirs, frontier_of(opp, me));
    }
    (Pieces { bits: mine }, Pieces { bits: theirs })
}

/// The corner-weighted evaluation: corners dominate, then mobility, then
/// material, with frontier discs counted against their owner.
pub open spec fn composite_value(board: Board, moves: u64) -> int {
    let c = side(board);
    let me = board.to_move.bits;
    let opp = board.waiting.bits;
    match board.board_state {
        BoardState::Won => 2147483647 * c,
        BoardState::Drawn => 4 * c,
        BoardState::Ongoing => {
            let corner_balance = c * (popcount(me & CORNERS) - popcount(opp & CORNERS));
            let material_balance = c * (popcount(me) - popcount(opp));
            let frontier_balance = c * (popcount(front(me, opp)) - popcount(front(opp, me)));
            let move_count = c * popcount(moves);
            corner_balance * 4000 + material_balance - frontier_balance * 10 + move_count * 1000
        },
    }
}

/// Evaluates `board`, whose mover has the legal moves `moves`, with the
/// corner-weighted heuristic.
pub fn better_eval(board: &Board, moves: &Pieces) -> (r: i32)
    ensures
        r as int == composite_value(*board, moves.bits),
{
    let c: i32 = if board.black_moving { 1 } else { -1 };
    match board.board_state {
        BoardState::Won => i32::MAX * c,
        BoardState::Drawn => 4 * c,
        BoardState::Ongoing => {
            let my_corners = Pieces { bits: board.to_move.bits & CORNERS }.count();
            let their_corners = Pieces { bits: board.waiting.bits & CORNERS }.count();
            let mine = board.to_move.count();
            let theirs = board.waiting.count();
            let (moving_front, waiting_front) = frontier(board);
            let my_front = moving_front.count();
            let their_front = waiting_front.count();
            let mobility = moves.count();
            proof {
                lemma_count_bound(board.to_move.bits & CORNERS, 64);
                lemma_count_bound(board.waiting.bits & CORNERS, 64);
                lemma_count_bound(board.to_move.bits, 64);
                lemma_count_bound(board.waiting.bits, 64);
                lemma_count_bound(moving_front.bits, 64);
                lemma_count_bound(waiting_front.bits, 64);
                lemma_count_bound(moves.bits, 64);
            }
            let corner_balance = c * (my_corners as i32 - their_corners as i32);
            let material_balance = c * (mine as i32 - theirs as i32);
            let frontier_balance = c * (my_front as i32 - their_front as i32);
            let move_count = c * mobility as i32;
            corner_balance * 4000 + material_balance - frontier_balance * 10 + move_count * 1000
        },
    }
}

/// Square `s` is one of the four corners.
pub open spec fn corner(s: int) -> bool {
    s == 0 || s == 7 || s == 56 || s == 63
}

proof fn lemma_corner_bits(x: u64)
    ensures
        forall|s: int| #[trigger] holds(x & CORNERS, s) <==> (holds(x, s) && corner(s)),
{
    lemma_bit_ops(x, CORNERS);
    assert forall|s: int| #[trigger] holds(CORNERS, s) <==> corner(s) by {
        if on_board(s) {
            let j = s as u64;
            assert(j < 64 ==> (((0x8100000000000081u64 >> j) & 1u64 == 1u64) <==> (j == 0 || j == 7 || j == 56 || j == 63))) by (bit_vector);
        }
    }
}

proof fn lemma_count_corners(x: u64, all: bool, n: nat)
    requires
        n <= 64,
        forall|s: int| #[trigger] holds(x, s) <==> (all && corner(s)),
    ensures
        count_below(x, n) == if all { (if n > 0 { 1int } else { 0 }) + (if n > 7 { 1int } else { 0 }) + (if n > 56 { 1int } else { 0 }) + (if n > 63 { 1int } else { 0 }) } else { 0 },
    decreases n,
{
    if n > 0 {
        lemma_count_corners(x, all, (n - 1) as nat);
        assert(holds(x, n - 1) <==> (all && corner(n - 1)));
    }
}

/// Corners count: of two positions alike in material, frontier and mobility,
/// where the mover holds all four corners in one and no side holds a corner
/// in the other, the corner-weighted score prefers the first for the mover
/// (higher when black moves, lower when white moves).
pub proof fn lemma_corners_win(b1: Board, m1: u64, b2: Board, m2: u64)
    requires
        b1.board_state == BoardState::Ongoing,
        b2.board_state == BoardState::Ongoing,
        b1.black_moving == b2.black_moving,
        forall|s: int| corner(s) ==> holds(b1.to_move.bits, s) && !holds(b1.waiting.bits, s),
        forall|s: int| corner(s) ==> !holds(b2.to_move.bits, s) && !holds(b2.waiting.bits, s),
        b1.to_move.size() == b2.to_move.size(),
        b1.waiting.size() == b2.waiting.size(),
        popcount(front(b1.to_move.bits, b1.waiting.bits)) == popcount(front(b2.to_move.bits, b2.waiting.bits)),
        popcount(front(b1.waiting.bits, b1.to_move.bits)) == popcount(front(b2.waiting.bits, b2.to_move.bits)),
        popcount(m1) == popcount(m2),
    ensures
        b1.black_moving ==> composite_value(b1, m1) > composite_value(b2, m2),
        !b1.black_moving ==> composite_value(b1, m1) < composite_value(b2, m2),
{
    lemma_corner_bits(b1.to_move.bits);
    lemma_corner_bits(b1.waiting.bits);
    lemma_corner_bits(b2.to_move.bits);
    lemma_corner_bits(b2.waiting.bits);
    lemma_count_corners(b1.to_move.bits & CORNERS, true, 64);
    lemma_count_corners(b1.waiting.bits & CORNERS, false, 64);
    lemma_count_corners(b2.to_move.bits & CORNERS, false, 64);
    lemma_count_corners(b2.waiting.bits & CORNERS, false, 64);
}

/// A static evaluation of positions on the black-favouring scale.
pub trait Evaluate {
    /// The score of `board`, whose mover has the legal moves `moves`.
    spec fn value(&self, board: Board, moves: u64) -> int;

    /// Scores fit in an `i32`.
    proof fn lemma_value_range(&self, board: Board, moves: u64)
        ensures
            i32::MIN <= self.value(board, moves) <= i32::MAX,
    ;

    /// Computes the score.
    fn evaluate(&self, board: &Board, moves: &Pieces) -> (r: i32)
        requires
            board.wf(),
            moves.bits == board.moves(),
        ensures
            r as int == self.value(*board, moves.bits),
    ;
}

/// Mobility and material: `eval_func`.
pub struct Simple;

/// Corners, mobility, material and frontier: `better_eval`.
pub struct Composite;

impl Evaluate for Simple {
    open spec fn value(&self, board: Board, moves: u64) -> int {
        simple_value(board)
    }

    proof fn lemma_value_range(&self, board: Board, moves: u64) {
        lemma_count_bound(board.moves(), 64);
        lemma_count_bound(board.to_move.bits, 64);
        lemma_count_bound(board.waiting.bits, 64);
    }

    fn evaluate(&self, board: &Board, moves: &Pieces) -> (r: i32) {
        eval_func(board) as i32
    }
}

impl Evaluate for Composite {
    open spec fn value(&self, board: Board, moves: u64) -> int {
        composite_value(board, moves)
    }

    proof fn lemma_value_range(&self, board: Board, moves: u64) {
        let me = board.to_move.bits;
        let opp = board.waiting.bits;
        lemma_count_bound(me & CORNERS, 64);
        lemma_count_bound(opp & CORNERS, 64);
        lemma_count_bound(me, 64);
        lemma_count_bound(opp, 64);
        lemma_count_bound(front(me, opp), 64);
        lemma_count_bound(front(opp, me), 64);
        lemma_count_bound(moves, 64);
    }

    fn evaluate(&self, board: &Board, moves: &Pieces) -> (r: i32) {
        better_eval(board, moves)
    }
}

/// The value the alpha-beta search gives `board`, looking `depth` plies
/// ahead inside the window `(alpha, beta)`: black maximises, white minimises.
pub open spec fn search_value<E: Evaluate>(eval: &E, board: Board, depth: nat, alpha: int, beta: int) -> int
    decreases depth, 0nat, 0nat,
{
    let moves = board.moves();
    if depth == 0 || moves == 0 {
        eval.value(board, moves)
    } else {
        search_fold(eval, board, squares(moves), (depth - 1) as nat, alpha, beta, if board.black_moving { alpha } else { beta })
    }
}

/// Runs through the moves `kids` of `board` in order, keeping the best value
/// so far and narrowing the window, and stops once the window closes.
pub open spec fn search_fold<E: Evaluate>(eval: &E, board: Board, kids: Seq<u64>, depth: nat, alpha: int, beta: int, best: int) -> int
    decreases depth, 1nat, kids.len(),
{
    if kids.len() == 0 {
        best
    } else {
        let v = search_value(eval, board.play(kids[0]), depth, alpha, beta);
        if board.black_moving {
            let b = if v > best { v } else { best };
            if beta <= b { b } else { search_fold(eval, board, kids.drop_first(), depth, b, beta, b) }
        } else {
            let b = if v < best { v } else { best };
            if b <= alpha { b } else { search_fold(eval, board, kids.drop_first(), depth, alpha, b, b) }
        }
    }
}

/// The plain minimax value of `board` looking `depth` plies ahead: the
/// static score at the horizon or where the mover has no move, else the best
/// child value for the mover (the highest for black, the lowest for white).
pub open spec fn minimax_value<E: Evaluate>(eval: &E, board: Board, depth: nat) -> int
    decreases depth, 0nat, 0nat,
{
    let moves = board.moves();
    if depth == 0 || moves == 0 {
        eval.value(board, moves)
    } else {
        best_of(eval, board, squares(moves), (depth - 1) as nat)
    }
}

/// The best minimax value for the mover of `board` among the moves `kids`.
pub open spec fn best_of<E: Evaluate>(eval: &E, board: Board, kids: Seq<u64>, depth: nat) -> int
    decreases depth, 1nat, kids.len(),
{
    if kids.len() == 0 {
        0
    } else {
        let v = minimax_value(eval, board.play(kids[0]), depth);
        if kids.len() == 1 {
            v
        } else {
            let rest = best_of(eval, board, kids.drop_first(), depth);
            if board.black_moving {
                if v > rest { v } else { rest }
            } else {
                if v < rest { v } else { rest }
            }
        }
    }
}

/// `x` clamped into `[lo, hi]`.
pub open spec fn clamp(x: int, lo: int, hi: int) -> int {
    if x < lo { lo } else if x > hi { hi } else { x }
}

/// Minimax values fit in an `i32`.
pub proof fn lemma_minimax_range<E: Evaluate>(eval: &E, board: Board, depth: nat)
    ensures
        i32::MIN <= minimax_value(eval, board, depth) <= i32::MAX,
    decreases depth, 0nat, 0nat,
{
    let moves = board.moves();
    if depth == 0 || moves == 0 {
        eval.lemma_value_range(board, moves);
    } else {
        lemma_best_of_range(eval, board, squares(moves), (depth - 1) as nat);
    }
}

proof fn lemma_best_of_range<E: Evaluate>(eval: &E, board: Board, kids: Seq<u64>, depth: nat)
    ensures
        i32::MIN <= best_of(eval, board, kids, depth) <= i32::MAX,
    decreases depth, 1nat, kids.len(),
{
    if kids.len() > 0 {
        lemma_minimax_range(eval, board.play(kids[0]), depth);
        if kids.len() > 1 {
            lemma_best_of_range(eval, board, kids.drop_first(), depth);
        }
    }
}

/// Alpha-beta pruning is sound: inside any window `alpha < beta`, the
/// pruned search and plain minimax agree once clamped to the window; in
/// particular they are equal whenever either falls strictly inside it.
pub proof fn lemma_search_sound<E: Evaluate>(eval: &E, board: Board, depth: nat, alpha: int, beta: int)
    requires
        alpha < beta,
    ensures
        clamp(search_value(eval, board, depth, alpha, beta), alpha, beta) == clamp(minimax_value(eval, board, depth), alpha, beta),
    decreases depth, 0nat, 0nat,
{
    let moves = board.moves();
    if depth == 0 || moves == 0 {
    } else {
        let kids = squares(moves);
        lemma_squares_nonempty(moves);
        if board.black_moving {
            lemma_fold_max(eval, board, kids, (depth - 1) as nat, alpha, beta);
        } else {
            lemma_fold_min(eval, board, kids, (depth - 1) as nat, alpha, beta);
        }
    }
}

proof fn lemma_fold_max<E: Evaluate>(eval: &E, board: Board, kids: Seq<u64>, depth: nat, best: int, beta: int)
    requires
        board.black_moving,
        best < beta,
        kids.len() > 0,
    ensures
        search_fold(eval, board, kids, depth, best, beta, best) >= best,
        clamp(search_fold(eval, board, kids, depth, best, beta, best), best, beta)
            == clamp(if best_of(eval, board, kids, depth) > best { best_of(eval, board, kids, depth) } else { best }, best, beta),
    decreases depth, 1nat, kids.len(),
{
    let child = board.play(kids[0]);
    let r1 = search_value(eval, child, depth, best, beta);
    let m1 = minimax_value(eval, child, depth);
    lemma_search_sound(eval, child, depth, best, beta);
    let b = if r1 > best { r1 } else { best };
    let all = best_of(eval, board, kids, depth);
    let rest = best_of(eval, board, kids.drop_first(), depth);
    assert(search_fold(eval, board, kids, depth, best, beta, best)
        == if beta <= b { b } else { search_fold(eval, board, kids.drop_first(), depth, b, beta, b) });
    assert(all == if kids.len() == 1 { m1 } else if m1 > rest { m1 } else { rest });
    if beta <= b {
        assert(m1 >= beta);
    } else {
        assert(b == (if m1 > best { m1 } else { best }));
        if kids.len() > 1 {
            lemma_fold_max(eval, board, kids.drop_first(), depth, b, beta);
        } else {
            assert(kids.drop_first().len() == 0);
            assert(search_fold(eval, board, kids.drop_first(), depth, b, beta, b) == b);
        }
    }
}

proof fn lemma_fold_min<E: Evaluate>(eval: &E, board: Board, kids: Seq<u64>, depth: nat, alpha: int, best: int)
    requires
        !board.black_moving,
        alpha < best,
        kids.len() > 0,
    ensures
        search_fold(eval, board, kids, depth, alpha, best, best) <= best,
        clamp(search_fold(eval, board, kids, depth, alpha, best, best), alpha, best)
            == clamp(if best_of(eval, board, kids, depth) < best { best_of(eval, board, kids, depth) } else { best }, alpha, best),
    decreases depth, 1nat, kids.len(),
{
    let child = board.play(kids[0]);
    let r1 = search_value(eval, child, depth, alpha, best);
    let m1 = minimax_value(eval, child, depth);
    lemma_search_sound(eval, child, depth, alpha, best);
    let b = if r1 < best { r1 } else { best };
    let all = best_of(eval, board, kids, depth);
    let rest = best_of(eval, board, kids.drop_first(), depth);
    assert(search_fold(eval, board, kids, depth, alpha, best, best)
        == if b <= alpha { b } else { search_fold(eval, board, kids.drop_first(), depth, alpha, b, b) });
    assert(all == if kids.len() == 1 { m1 } else if m1 < rest { m1 } else { rest });
    if b <= alpha {
        assert(m1 <= alpha);
    } else {
        assert(b == (if m1 < best { m1 } else { best }));
        if kids.len() > 1 {
            lemma_fold_min(eval, board, kids.drop_first(), depth, alpha, b);
        } else {
            assert(kids.drop_first().len() == 0);
            assert(search_fold(eval, board, kids.drop_first(), depth, alpha, b, b) == b);
        }
    }
}

/// Searches the position `node` (a board and its legal moves) `depth` plies
/// deep with alpha-beta pruning and returns its value.
pub fn minimax<E: Evaluate>(eval: &E, node: &(Board, Pieces), depth: u8, alpha: i32, beta: i32) -> (r: i32)
    requires
        node.0.wf(),
        node.1.bits == node.0.moves(),
    ensures
        r as int == search_value(eval, node.0, depth as nat, alpha as int, beta as int),
        alpha < beta ==> clamp(r as int, alpha as int, beta as int) == clamp(minimax_value(eval, node.0, depth as nat), alpha as int, beta as int),
    decreases depth,
{
    proof {
        if alpha < beta {
            lemma_search_sound(eval, node.0, depth as nat, alpha as int, beta as int);
        }
    }
    let board = &node.0;
    let moves = &node.1;
    if depth == 0 || moves.bits == 0 {
        return eval.evaluate(board, moves);
    }
    let children = board.children(moves);
    let ghost kids = squares(moves.bits);
    let ghost total = search_value(eval, node.0, depth as nat, alpha as int, beta as int);
    let mut alpha = alpha;
    let mut beta = beta;
    let mut best_eval = if board.black_moving { alpha } else { beta };
    let mut pruned = false;
    let mut i: usize = 0;
    proof {
        lemma_moves_legal(node.0);
        assert(kids.skip(0) == kids);
    }
    while i < children.len() && !pruned
        invariant
            node.0.wf(),
            *board == node.0,
            depth > 0,
            kids == squares(moves.bits),
            children@.len() == kids.len(),
            forall|k: int| 0 <= k < kids.len() ==> node.0.legal_move(#[trigger] kids[k]),
            forall|k: int| 0 <= k < children@.len() ==> (#[trigger] children@[k]).0 == node.0.play(kids[k]),
            forall|k: int| 0 <= k < children@.len() ==> (#[trigger] children@[k]).1.bits == children@[k].0.moves(),
            i <= children@.len(),
            pruned ==> total == best_eval,
            !pruned ==> total == search_fold(eval, node.0, kids.skip(i as int), (depth - 1) as nat, alpha as int, beta as int, best_eval as int),
        decreases children@.len() - i,
    {
        let ghost rest = kids.skip(i as int);
        proof {
            lemma_play_disjoint(node.0, kids[i as int]);
            assert(rest[0] == kids[i as int]);
            assert(rest.drop_first() == kids.skip(i + 1));
        }
        let value = minimax(eval, &children[i], depth - 1, alpha, beta);
        if board.black_moving {
            if value > best_eval {
                best_eval = value;
            }
            alpha = best_eval;
        } else {
            if value < best_eval {
                best_eval = value;
            }
            beta = best_eval;
        }
        if beta <= alpha {
            pruned = true;
        }
        i = i + 1;
    }
    proof {
        if !pruned {
            assert(kids.skip(i as int).len() == 0);
        }
    }
    best_eval
}

/// Move `kids[k]` is at least as good for the side to move as move
/// `kids[j]`, and strictly better when it comes later.
pub open spec fn beats_or_ties<E: Evaluate>(eval: &E, board: Board, kids: Seq<u64>, k: int, j: int, depth: nat) -> bool {
    let vk = move_value(eval, board, kids, k, depth);
    let vj = move_value(eval, board, kids, j, depth);
    if board.black_moving {
        vk >= vj && (j < k ==> vk > vj)
    } else {
        vk <= vj && (j < k ==> vk < vj)
    }
}

/// `kids[k]` is the first move of best value among all of `kids`.
pub open spec fn best_at<E: Evaluate>(eval: &E, board: Board, kids: Seq<u64>, k: int, depth: nat) -> bool {
    forall|j: int| 0 <= j < kids.len() ==> #[trigger] beats_or_ties(eval, board, kids, k, j, depth)
}

/// The minimax value, `depth` plies deep, of the position after move `kids[k]`.
pub open spec fn move_value<E: Evaluate>(eval: &E, board: Board, kids: Seq<u64>, k: int, depth: nat) -> int {
    minimax_value(eval, board.play(kids[k]), depth)
}

/// Picks a move for the side to move: each legal move is searched `depth - 1`
/// plies further with the full window, which gives its exact minimax value,
/// and the first move of best value (the highest for black, the lowest for
/// white) in ascending square order wins.
pub fn best_move<E: Evaluate>(eval: &E, board: &Board, depth: u8) -> (r: u64)
    requires
        board.wf(),
        board.moves() != 0,
        depth >= 1,
    ensures
        board.legal_move(r),
        exists|k: int|
            0 <= k < squares(board.moves()).len() && r == squares(board.moves())[k] && #[trigger] best_at(eval, *board, squares(board.moves()), k, (depth - 1) as nat),
{
    let moves = board.each_move();
    let children = board.children(&moves);
    let ghost kids = squares(moves.bits);
    proof {
        lemma_moves_legal(*board);
        lemma_squares_nonempty(moves.bits);
        assert(kids.skip(0) == kids);
    }
    let mut rest = moves;
    let mut best_value: i32 = 0;
    let mut best_bit: u64 = 0;
    let ghost mut best_k: int = 0;
    let mut i: usize = 0;
    while i < children.len()
        invariant
            board.wf(),
            depth >= 1,
            kids == squares(moves.bits),
            moves.bits == board.moves(),
            children@.len() == kids.len(),
            kids.len() > 0,
            forall|k: int| 0 <= k < kids.len() ==> board.legal_move(#[trigger] kids[k]),
            forall|k: int| 0 <= k < children@.len() ==> (#[trigger] children@[k]).0 == board.play(kids[k]),
            forall|k: int| 0 <= k < children@.len() ==> (#[trigger] children@[k]).1.bits == children@[k].0.moves(),
            i <= children@.len(),
            squares(rest.bits) == kids.skip(i as int),
            i > 0 ==> 0 <= best_k < i && best_bit == kids[best_k] && best_value == move_value(eval, *board, kids, best_k, (depth - 1) as nat),
            i > 0 ==> forall|k: int| 0 <= k < i ==> #[trigger] beats_or_ties(eval, *board, kids, best_k, k, (depth - 1) as nat),
        decreases children@.len() - i,
    {
        proof {
            lemma_play_disjoint(*board, kids[i as int]);
            lemma_lowest(rest.bits);
            assert(kids.skip(i as int)[0] == kids[i as int]);
            assert(kids.skip(i as int).drop_first() == kids.skip(i + 1));
        }
        let bit = rest.next().unwrap();
        let value = minimax(eval, &children[i], depth - 1, i32::MIN, i32::MAX);
        let better = if i == 0 {
            true
        } else if board.black_moving {
            value > best_value
        } else {
            value < best_value
        };
        let ghost prev_k = best_k;
        if better {
            best_value = value;
            best_bit = bit;
            proof {
                best_k = i as int;
            }
        }
        proof {
            let dd = (depth - 1) as nat;
            lemma_minimax_range(eval, board.play(kids[i as int]), dd);
            assert(value == move_value(eval, *board, kids, i as int, dd));
            assert forall|k: int| 0 <= k < i + 1 implies #[trigger] beats_or_ties(eval, *board, kids, best_k, k, dd) by {
                if better && k < i {
                    assert(beats_or_ties(eval, *board, kids, prev_k, k, dd));
                }
            }
        }
        i = i + 1;
    }
    proof {
        assert(best_at(eval, *board, kids, best_k, (depth - 1) as nat));
    }
    best_bit
}

} // verus!
