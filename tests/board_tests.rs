use othello::board::{Board, BoardState, IllegalMove, Pieces};
use othello::evaluation::{best_move, better_eval, eval_func, frontier, minimax, Composite, Simple};

fn start() -> Board {
    Board::default()
}

fn squares_of(mut p: Pieces) -> Vec<u32> {
    let mut out = Vec::new();
    while let Some(bit) = p.next() {
        out.push(bit.trailing_zeros());
    }
    out
}

#[test]
fn move_generation() {
    let to_move = Pieces {
        bits: 0b1000000001000000000000000000000000000,
    };
    let waiting = Pieces {
        bits: 0b100000010000000000000000000000000000,
    };
    let board = Board {
        to_move,
        waiting,
        black_moving: true,
        board_state: BoardState::Ongoing,
    };
    assert_eq!(
        board.each_move().bits,
        0b10000000010000100000000100000000000000000000
    );
    let to_move = Pieces {
        bits: 0b11000000000000001100000011000000000000000000000000000,
    };
    let waiting = Pieces {
        bits: 0b110000000000000000000000000000000000000000000,
    };
    let board = Board {
        to_move,
        waiting,
        black_moving: true,
        board_state: BoardState::Ongoing,
    };
    assert_eq!(
        board.each_move().bits,
        0b100100000000000010010000000000000000000000000000000000
    );
    let board = Board {
        to_move: Pieces {
            bits: 0xfe00c80808000000,
        },
        waiting: Pieces {
            bits: 0xfe101010000000,
        },
        black_moving: true,
        board_state: BoardState::Ongoing,
    };

    println!("{:?}", board);
    assert_eq!(board.each_move().bits, 0x272020300000);
}

#[test]
fn opening_moves() {
    let board = start();
    assert_eq!(board.to_move.bits, (1u64 << 28) | (1u64 << 35));
    assert_eq!(board.waiting.bits, (1u64 << 27) | (1u64 << 36));
    let moves = board.each_move();
    assert_eq!(squares_of(moves), vec![19, 26, 37, 44]);
    assert_eq!(moves.count(), 4);
}

#[test]
fn legal_moves_repeat() {
    let board = start();
    assert_eq!(board.each_move().bits, board.each_move().bits);
}

#[test]
fn opening_move_flips_one() {
    let mut board = start();
    let next = board.make_move(1u64 << 19);
    // white now moves; black holds 19, 27, 28, 35, white only 36
    assert!(!board.black_moving);
    assert_eq!(board.board_state, BoardState::Ongoing);
    assert_eq!(board.waiting.bits, (1u64 << 19) | (1u64 << 27) | (1u64 << 28) | (1u64 << 35));
    assert_eq!(board.to_move.bits, 1u64 << 36);
    assert_eq!(board.waiting.count() + board.to_move.count(), 5);
    assert_eq!(next.bits, board.each_move().bits);
    assert_eq!(squares_of(next), vec![18, 20, 34]);
}

#[test]
fn checked_move_rejects_illegal() {
    let mut board = start();
    let before = board;
    assert_eq!(board.safe_make_move(1u64 << 0).unwrap_err(), IllegalMove);
    assert_eq!(board.safe_make_move((1u64 << 19) | (1u64 << 26)).unwrap_err(), IllegalMove);
    assert_eq!(board.safe_make_move(0).unwrap_err(), IllegalMove);
    assert_eq!(board.to_move.bits, before.to_move.bits);
    assert_eq!(board.waiting.bits, before.waiting.bits);
    assert!(board.black_moving);
}

#[test]
fn checked_move_plays_legal() {
    let mut board = start();
    let prior = board.safe_make_move(1u64 << 26).unwrap();
    assert_eq!(prior.bits, start().each_move().bits);
    assert!(!board.black_moving);
    assert_eq!(board.to_move.bits, 1u64 << 36);
    assert_eq!(board.waiting.count(), 4);
}

#[test]
fn pieces_iterate_lowest_first() {
    let mut p = Pieces { bits: 0b1010_0100 };
    assert_eq!(p.count(), 3);
    assert_eq!(p.next(), Some(0b100));
    assert_eq!(p.next(), Some(0b10_0000));
    assert_eq!(p.next(), Some(0b1000_0000));
    assert_eq!(p.next(), None);
    assert_eq!(p.bits, 0);
    assert_eq!(Pieces { bits: u64::MAX }.count(), 64);
    assert_eq!(Pieces { bits: 0 }.count(), 0);
}

#[test]
fn children_follow_move_order() {
    let board = start();
    let moves = board.each_move();
    let kids = board.children(&moves);
    assert_eq!(kids.len(), 4);
    let mut expected = Vec::new();
    for sq in [19u32, 26, 37, 44] {
        let mut copy = board;
        let next = copy.make_move(1u64 << sq);
        expected.push((copy, next));
    }
    for (kid, want) in kids.iter().zip(expected.iter()) {
        assert_eq!(kid.0.to_move.bits, want.0.to_move.bits);
        assert_eq!(kid.0.waiting.bits, want.0.waiting.bits);
        assert_eq!(kid.1.bits, want.1.bits);
        assert!(!kid.0.black_moving);
    }
}

#[test]
fn game_ends_when_no_side_can_move() {
    // black on 0, white on 1: black plays 2 and white is wiped out
    let mut board = Board {
        to_move: Pieces { bits: 1 },
        waiting: Pieces { bits: 2 },
        black_moving: true,
        board_state: BoardState::Ongoing,
    };
    let next = board.make_move(1u64 << 2);
    assert_eq!(next.bits, 0);
    assert_eq!(board.board_state, BoardState::Won);
    assert!(board.black_moving);
    assert_eq!(board.to_move.bits, 0b111);
    assert_eq!(board.waiting.bits, 0);
    assert!(board.safe_make_move(1u64 << 3).is_err());
}

#[test]
fn more_discs_wins_as_mover() {
    // black on 0, white on 1, 2 and 63: black plays 3 and flips 1 and 2
    let mut board = Board {
        to_move: Pieces { bits: 1 },
        waiting: Pieces { bits: 0b110 | (1u64 << 63) },
        black_moving: true,
        board_state: BoardState::Ongoing,
    };
    board.make_move(1u64 << 3);
    assert_eq!(board.board_state, BoardState::Won);
    assert!(board.black_moving);
    assert_eq!(board.to_move.count(), 4);
    assert_eq!(board.waiting.count(), 1);
}

#[test]
fn fewer_discs_hands_the_win_over() {
    // black on 0, white on 1 and 60..=63: after black plays 2 nobody can move
    // and white, with more discs, is recorded as the winning mover
    let mut board = Board {
        to_move: Pieces { bits: 1 },
        waiting: Pieces { bits: 0b10 | (0xfu64 << 60) },
        black_moving: true,
        board_state: BoardState::Ongoing,
    };
    let next = board.make_move(1u64 << 2);
    assert_eq!(next.bits, 0);
    assert_eq!(board.board_state, BoardState::Won);
    assert!(!board.black_moving);
    assert_eq!(board.to_move.bits, 0xfu64 << 60);
    assert_eq!(board.waiting.bits, 0b111);
}

#[test]
fn equal_discs_draw() {
    // black on 0, white on 1 and 61..=63: black plays 2, then 3 discs each
    let mut board = Board {
        to_move: Pieces { bits: 1 },
        waiting: Pieces { bits: 0b10 | (0b11u64 << 62) | (1u64 << 61) },
        black_moving: true,
        board_state: BoardState::Ongoing,
    };
    board.make_move(1u64 << 2);
    assert_eq!(board.board_state, BoardState::Drawn);
    assert!(board.black_moving);
    assert_eq!(board.to_move.count(), 3);
    assert_eq!(board.waiting.count(), 3);
}

#[test]
fn forced_pass_keeps_mover() {
    // black 0, white 1; black also 16, white 17 and far disc 40 white alone
    // after black plays 2, white (only on 17 and 40) cannot move; black can take 18
    let mut board = Board {
        to_move: Pieces { bits: 1 | (1u64 << 16) },
        waiting: Pieces { bits: 2 | (1u64 << 17) },
        black_moving: true,
        board_state: BoardState::Ongoing,
    };
    let next = board.make_move(1u64 << 2);
    assert_eq!(board.board_state, BoardState::Ongoing);
    assert!(board.black_moving);
    assert_eq!(board.to_move.bits, 0b111 | (1u64 << 16));
    assert_eq!(board.waiting.bits, 1u64 << 17);
    assert_eq!(next.bits, 1u64 << 18);
}

#[test]
fn simple_evaluation_values() {
    let board = start();
    assert_eq!(eval_func(&board), 4);
    let mut white = start();
    white.black_moving = false;
    assert_eq!(eval_func(&white), -4);
    let mut won = start();
    won.board_state = BoardState::Won;
    assert_eq!(eval_func(&won), 127);
    let mut drawn = start();
    drawn.board_state = BoardState::Drawn;
    drawn.black_moving = false;
    assert_eq!(eval_func(&drawn), -4);
    // material difference rounds down: 1 against 4 discs gives -3 / 4 -> -1
    let lopsided = Board {
        to_move: Pieces { bits: 1 },
        waiting: Pieces { bits: 0b11110 << 8 },
        black_moving: true,
        board_state: BoardState::Ongoing,
    };
    let mobility = lopsided.each_move().count() as i8;
    assert_eq!(eval_func(&lopsided), mobility - 1);
    // with white to move the whole score changes sign
    let mut lopsided_white = lopsided;
    lopsided_white.black_moving = false;
    assert_eq!(eval_func(&lopsided_white), -(mobility - 1));
    // a mover lead of 4 discs adds 1 before the sign is applied
    let ahead = Board {
        to_move: Pieces { bits: 0b11111 << 8 },
        waiting: Pieces { bits: 1 << 40 },
        black_moving: false,
        board_state: BoardState::Ongoing,
    };
    let mobility = ahead.each_move().count() as i8;
    assert_eq!(eval_func(&ahead), -(mobility + 1));
}

#[test]
fn frontier_counts_exposed_discs() {
    let board = start();
    let (mine, theirs) = frontier(&board);
    assert_eq!(mine.bits, board.to_move.bits);
    assert_eq!(theirs.bits, board.waiting.bits);
    let full = Board {
        to_move: Pieces { bits: u64::MAX >> 1 },
        waiting: Pieces { bits: 0 },
        black_moving: true,
        board_state: BoardState::Ongoing,
    };
    let (mine, theirs) = frontier(&full);
    assert_eq!(mine.bits, (1u64 << 62) | (1u64 << 55) | (1u64 << 54));
    assert_eq!(theirs.bits, 0);
}

#[test]
fn composite_evaluation_values() {
    let board = start();
    let moves = board.each_move();
    assert_eq!(better_eval(&board, &moves), 4000);
    let mut won = start();
    won.board_state = BoardState::Won;
    won.black_moving = false;
    assert_eq!(better_eval(&won, &moves), -i32::MAX);
}

#[test]
fn corners_raise_the_score() {
    let corners = 0x8100000000000081u64;
    let with = Board {
        to_move: Pieces { bits: corners },
        waiting: Pieces { bits: (1u64 << 27) | (1u64 << 36) },
        black_moving: true,
        board_state: BoardState::Ongoing,
    };
    let without = Board {
        to_move: Pieces { bits: (1u64 << 9) | (1u64 << 14) | (1u64 << 49) | (1u64 << 54) },
        waiting: Pieces { bits: (1u64 << 27) | (1u64 << 36) },
        black_moving: true,
        board_state: BoardState::Ongoing,
    };
    let none = Pieces { bits: 0 };
    assert!(better_eval(&with, &none) > better_eval(&without, &none));
    assert_eq!(better_eval(&with, &none) - better_eval(&without, &none), 16000);
}

#[test]
fn search_depth_zero_is_static() {
    let board = start();
    let moves = board.each_move();
    let node = (board, moves);
    assert_eq!(minimax(&Composite, &node, 0, i32::MIN, i32::MAX), 4000);
    assert_eq!(minimax(&Simple, &node, 0, i32::MIN, i32::MAX), 4);
}

#[test]
fn search_one_ply() {
    let board = start();
    let moves = board.each_move();
    let node = (board, moves);
    // every opening reply is alike: white to move with 3 moves, 1 disc
    // against 4, so -(3 + floor(-3 / 4)) = -2
    let v = minimax(&Simple, &node, 1, i32::MIN, i32::MAX);
    assert_eq!(v, -2);
}

#[test]
fn best_move_is_legal() {
    let board = start();
    let legal = board.each_move().bits;
    for depth in 1..4u8 {
        let m = best_move(&Composite, &board, depth);
        assert_eq!(m.count_ones(), 1);
        assert!(legal & m != 0);
        let m = best_move(&Simple, &board, depth);
        assert!(legal & m != 0);
    }
    // all openings are equal at one ply: the lowest square is taken
    assert_eq!(best_move(&Composite, &board, 1), 1u64 << 19);
}

#[test]
fn cmp_eval() {
    let mut board = Board {
        to_move: Pieces {
            bits: 0b100000010000000000000000000000000000,
        },
        waiting: Pieces {
            bits: 0b1000000001000000000000000000000000000,
        },
        black_moving: true,
        board_state: BoardState::Ongoing,
    };
    let mut plies = 0;
    loop {
        match board.board_state {
            BoardState::Won => {
                match board.black_moving {
                    true => println!("Black wins!"),
                    false => println!("White wins!"),
                }
                let (win, loss) = (board.to_move.count(), board.waiting.count());
                println!("The winner had {win} pieces, the loser had {loss} pieces");
                assert!(win > loss);
                break;
            }
            BoardState::Drawn => {
                println!("It's a draw!");
                assert_eq!(board.to_move.count(), board.waiting.count());
                break;
            }
            BoardState::Ongoing => {
                let before = board.to_move.count() + board.waiting.count();
                let bit = match board.black_moving {
                    true => best_move(&Simple, &board, 5),
                    false => best_move(&Composite, &board, 4),
                };
                assert!(board.each_move().bits & bit != 0);
                board.make_move(bit);
                assert_eq!(board.to_move.count() + board.waiting.count(), before + 1);
                assert_eq!(board.to_move.bits & board.waiting.bits, 0);
            }
        }
        plies += 1;
        assert!(plies <= 60);
        println!("{board:#?}");
    }
}
