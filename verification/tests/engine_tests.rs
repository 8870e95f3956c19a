use crowdchess::engine::{engine_step, has_escape, process_move};
use crowdchess::model::{
    init_board, Action, Board, Piece, PieceColour, PieceKind, StateChange, Vote,
};

fn act(from: (u8, u8), to: (u8, u8)) -> Action {
    Action { from, to }
}

fn count_pieces(b: &Board) -> usize {
    let mut n = 0;
    for y in 0..8u8 {
        for x in 0..8u8 {
            if b.get(x, y).is_some() {
                n += 1;
            }
        }
    }
    n
}

fn count_kings(b: &Board, colour: PieceColour) -> usize {
    let mut n = 0;
    for y in 0..8u8 {
        for x in 0..8u8 {
            if let Some(p) = b.get(x, y) {
                if p.kind == PieceKind::King && p.colour == colour {
                    n += 1;
                }
            }
        }
    }
    n
}

#[test]
fn pawn_double_from_start() {
    // e2 -> e4
    let mut b = init_board();
    let turn = process_move(&mut b, PieceColour::White, act((4, 6), (4, 4)));
    assert_eq!(turn, PieceColour::Black);
    assert_eq!(b.get(4, 4), Some(Piece { kind: PieceKind::Pawn, colour: PieceColour::White }));
    assert_eq!(b.get(4, 6), None);
}

#[test]
fn pawn_three_squares_rejected() {
    let mut b = init_board();
    let turn = process_move(&mut b, PieceColour::White, act((4, 6), (4, 3)));
    assert_eq!(turn, PieceColour::White);
    assert_eq!(b.get(4, 6), Some(Piece { kind: PieceKind::Pawn, colour: PieceColour::White }));
    assert_eq!(b.get(4, 3), None);
}

#[test]
fn knight_development() {
    // b1 -> c3
    let mut b = init_board();
    let turn = process_move(&mut b, PieceColour::White, act((1, 7), (2, 5)));
    assert_eq!(turn, PieceColour::Black);
    assert_eq!(b.get(2, 5), Some(Piece { kind: PieceKind::Knight, colour: PieceColour::White }));
    assert_eq!(b.get(1, 7), None);
}

#[test]
fn blocked_rook_rejected() {
    let mut b = init_board();
    let turn = process_move(&mut b, PieceColour::White, act((0, 7), (0, 5)));
    assert_eq!(turn, PieceColour::White);
    assert_eq!(b.get(0, 5), None);
}

#[test]
fn black_reply_after_white_pawn() {
    let mut b = init_board();
    assert_eq!(process_move(&mut b, PieceColour::White, act((4, 6), (4, 4))), PieceColour::Black);
    let turn = process_move(&mut b, PieceColour::Black, act((4, 1), (4, 3)));
    assert_eq!(turn, PieceColour::White);
    assert_eq!(b.get(4, 3), Some(Piece { kind: PieceKind::Pawn, colour: PieceColour::Black }));
    assert_eq!(b.get(4, 1), None);
}

#[test]
fn out_of_range_rejected_without_error() {
    let mut b = init_board();
    assert_eq!(process_move(&mut b, PieceColour::White, act((8, 6), (4, 4))), PieceColour::White);
    assert_eq!(process_move(&mut b, PieceColour::White, act((4, 6), (4, 8))), PieceColour::White);
    assert_eq!(process_move(&mut b, PieceColour::White, act((4, 8), (8, 8))), PieceColour::White);
    // the boundary squares themselves are fine
    assert_eq!(process_move(&mut b, PieceColour::White, act((0, 7), (0, 0))), PieceColour::White);
    assert_eq!(process_move(&mut b, PieceColour::White, act((7, 7), (7, 0))), PieceColour::White);
}

#[test]
fn turn_flips_exactly_on_accepted_moves() {
    let mut b = init_board();
    // rejected: turn unchanged
    assert_eq!(process_move(&mut b, PieceColour::White, act((0, 7), (0, 5))), PieceColour::White);
    // accepted: turn flips
    assert_eq!(process_move(&mut b, PieceColour::White, act((4, 6), (4, 4))), PieceColour::Black);
}

#[test]
fn piece_count_non_increasing_and_drops_on_capture() {
    let mut b = init_board();
    assert_eq!(count_pieces(&b), 32);
    // plain moves keep the count
    process_move(&mut b, PieceColour::White, act((4, 6), (4, 4)));
    assert_eq!(count_pieces(&b), 32);
    process_move(&mut b, PieceColour::Black, act((3, 1), (3, 3)));
    assert_eq!(count_pieces(&b), 32);
    // e4 pawn takes d5 pawn: the count drops by one
    let turn = process_move(&mut b, PieceColour::White, act((4, 4), (3, 3)));
    assert_eq!(turn, PieceColour::Black);
    assert_eq!(count_pieces(&b), 31);
}

#[test]
fn exactly_one_king_each_colour_preserved() {
    let mut b = init_board();
    let moves = [
        (PieceColour::White, act((4, 6), (4, 4))),
        (PieceColour::Black, act((4, 1), (4, 3))),
        (PieceColour::White, act((6, 7), (5, 5))),
        (PieceColour::Black, act((1, 0), (2, 2))),
        (PieceColour::White, act((4, 7), (4, 6))),
    ];
    for (turn, a) in moves {
        process_move(&mut b, turn, a);
        assert_eq!(count_kings(&b, PieceColour::White), 1);
        assert_eq!(count_kings(&b, PieceColour::Black), 1);
    }
}

#[test]
fn zero_weight_vote_ignored() {
    let mut state = StateChange { board: init_board(), turn: PieceColour::White };
    let out = engine_step(
        &mut state,
        &Vote { action: act((4, 6), (4, 4)), weight: 0 },
    );
    assert!(out.is_empty());
    assert_eq!(state.turn, PieceColour::White);
    assert_eq!(state.board.get(4, 4), None);
}

#[test]
fn engine_step_emits_new_state() {
    let mut state = StateChange { board: init_board(), turn: PieceColour::White };
    let out = engine_step(
        &mut state,
        &Vote { action: act((4, 6), (4, 4)), weight: 3 },
    );
    assert_eq!(out.len(), 1);
    assert_eq!(out[0].turn, PieceColour::Black);
    assert_eq!(
        out[0].board.get(4, 4),
        Some(Piece { kind: PieceKind::Pawn, colour: PieceColour::White })
    );
    assert_eq!(state.turn, PieceColour::Black);
}

#[test]
fn fools_mate_resets_the_game() {
    let mut state = StateChange { board: init_board(), turn: PieceColour::White };
    let script = [
        act((5, 6), (5, 5)), // f2 -> f3
        act((4, 1), (4, 3)), // e7 -> e5
        act((6, 6), (6, 4)), // g2 -> g4
    ];
    for a in script {
        let out = engine_step(&mut state, &Vote { action: a, weight: 1 });
        assert_eq!(out.len(), 1);
    }
    assert_eq!(state.turn, PieceColour::Black);
    // Qd8 -> h4: mate, no legal reply for White
    let out = engine_step(&mut state, &Vote { action: act((3, 0), (7, 4)), weight: 1 });
    assert_eq!(out.len(), 2);
    // the final position is emitted first: queen on h4, White to move
    assert_eq!(
        out[0].board.get(7, 4),
        Some(Piece { kind: PieceKind::Queen, colour: PieceColour::Black })
    );
    assert_eq!(out[0].turn, PieceColour::White);
    // then the game resets to the opening position with White to move
    assert_eq!(out[1].turn, PieceColour::White);
    assert_eq!(state.turn, PieceColour::White);
    let fresh = init_board();
    for y in 0..8u8 {
        for x in 0..8u8 {
            assert_eq!(state.board.get(x, y), fresh.get(x, y));
            assert_eq!(out[1].board.get(x, y), fresh.get(x, y));
        }
    }
}

#[test]
fn escape_exists_in_opening() {
    let b = init_board();
    assert!(has_escape(&b, PieceColour::White));
    assert!(has_escape(&b, PieceColour::Black));
}
