use crowdchess::model::{init_board, Board, Piece, PieceColour, PieceKind};
use crowdchess::rules::{piece_between, process_sans_check_check};

fn white(kind: PieceKind) -> Option<Piece> {
    Some(Piece { kind, colour: PieceColour::White })
}

fn black(kind: PieceKind) -> Option<Piece> {
    Some(Piece { kind, colour: PieceColour::Black })
}

#[test]
fn empty_source_square_rejected() {
    let b = init_board();
    assert!(!process_sans_check_check(&b, (4, 4), (4, 3), PieceColour::White));
}

#[test]
fn wrong_colour_rejected() {
    let b = init_board();
    // Black pawn moved by White
    assert!(!process_sans_check_check(&b, (4, 1), (4, 2), PieceColour::White));
}

#[test]
fn same_square_rejected() {
    let b = init_board();
    assert!(!process_sans_check_check(&b, (4, 6), (4, 6), PieceColour::White));
}

#[test]
fn own_piece_capture_rejected() {
    let b = init_board();
    // White rook onto White pawn directly above it
    assert!(!process_sans_check_check(&b, (0, 7), (0, 6), PieceColour::White));
}

#[test]
fn pawn_single_and_double_steps() {
    let b = init_board();
    assert!(process_sans_check_check(&b, (4, 6), (4, 5), PieceColour::White));
    assert!(process_sans_check_check(&b, (4, 6), (4, 4), PieceColour::White));
    // three squares is not a pawn move
    assert!(!process_sans_check_check(&b, (4, 6), (4, 3), PieceColour::White));
    // backwards is not a pawn move
    assert!(!process_sans_check_check(&b, (4, 1), (4, 0), PieceColour::Black));
    assert!(process_sans_check_check(&b, (4, 1), (4, 3), PieceColour::Black));
}

#[test]
fn pawn_double_step_needs_start_rank() {
    let mut b = Board::empty();
    b.set(4, 5, white(PieceKind::Pawn));
    b.set(4, 0, black(PieceKind::King));
    b.set(0, 0, white(PieceKind::King));
    assert!(process_sans_check_check(&b, (4, 5), (4, 4), PieceColour::White));
    assert!(!process_sans_check_check(&b, (4, 5), (4, 3), PieceColour::White));
}

#[test]
fn pawn_diagonal_capture() {
    let mut b = Board::empty();
    b.set(4, 4, white(PieceKind::Pawn));
    b.set(3, 3, black(PieceKind::Pawn));
    // capture an enemy piece diagonally forward
    assert!(process_sans_check_check(&b, (4, 4), (3, 3), PieceColour::White));
    // no capture onto an empty diagonal
    assert!(!process_sans_check_check(&b, (4, 4), (5, 3), PieceColour::White));
    // no straight-ahead capture
    b.set(4, 3, black(PieceKind::Pawn));
    assert!(!process_sans_check_check(&b, (4, 4), (4, 3), PieceColour::White));
}

#[test]
fn knight_moves_and_jumps() {
    let b = init_board();
    // b1 -> c3 jumps over the pawns
    assert!(process_sans_check_check(&b, (1, 7), (2, 5), PieceColour::White));
    assert!(!process_sans_check_check(&b, (1, 7), (1, 5), PieceColour::White));
}

#[test]
fn rook_blocked_by_own_pawn() {
    let b = init_board();
    assert!(!process_sans_check_check(&b, (0, 7), (0, 5), PieceColour::White));
}

#[test]
fn rook_clear_line() {
    let mut b = Board::empty();
    b.set(0, 7, white(PieceKind::Rook));
    assert!(process_sans_check_check(&b, (0, 7), (0, 0), PieceColour::White));
    assert!(process_sans_check_check(&b, (0, 7), (7, 7), PieceColour::White));
    // not a straight line
    assert!(!process_sans_check_check(&b, (0, 7), (1, 5), PieceColour::White));
}

#[test]
fn bishop_diagonals_all_directions() {
    let mut b = Board::empty();
    b.set(3, 3, white(PieceKind::Bishop));
    assert!(process_sans_check_check(&b, (3, 3), (6, 6), PieceColour::White));
    assert!(process_sans_check_check(&b, (3, 3), (0, 0), PieceColour::White));
    assert!(process_sans_check_check(&b, (3, 3), (0, 6), PieceColour::White));
    assert!(process_sans_check_check(&b, (3, 3), (6, 0), PieceColour::White));
    assert!(!process_sans_check_check(&b, (3, 3), (4, 5), PieceColour::White));
    // a blocker on the diagonal stops it, whichever direction it runs
    b.set(1, 1, black(PieceKind::Pawn));
    assert!(!process_sans_check_check(&b, (3, 3), (0, 0), PieceColour::White));
    b.set(5, 1, black(PieceKind::Pawn));
    assert!(!process_sans_check_check(&b, (3, 3), (6, 0), PieceColour::White));
}

#[test]
fn queen_moves_like_rook_or_bishop() {
    let mut b = Board::empty();
    b.set(3, 4, white(PieceKind::Queen));
    assert!(process_sans_check_check(&b, (3, 4), (3, 0), PieceColour::White));
    assert!(process_sans_check_check(&b, (3, 4), (7, 4), PieceColour::White));
    assert!(process_sans_check_check(&b, (3, 4), (6, 7), PieceColour::White));
    assert!(!process_sans_check_check(&b, (3, 4), (4, 6), PieceColour::White));
}

#[test]
fn king_single_steps_only() {
    let mut b = Board::empty();
    b.set(4, 4, white(PieceKind::King));
    assert!(process_sans_check_check(&b, (4, 4), (5, 5), PieceColour::White));
    assert!(process_sans_check_check(&b, (4, 4), (4, 3), PieceColour::White));
    assert!(!process_sans_check_check(&b, (4, 4), (4, 2), PieceColour::White));
}

#[test]
fn piece_between_finds_blockers() {
    let mut b = Board::empty();
    b.set(3, 3, black(PieceKind::Pawn));
    assert!(piece_between(&b, (3, 0), (3, 7)));
    assert!(piece_between(&b, (3, 7), (3, 0)));
    assert!(piece_between(&b, (0, 3), (7, 3)));
    assert!(piece_between(&b, (0, 0), (6, 6)));
    assert!(piece_between(&b, (6, 6), (0, 0)));
    assert!(piece_between(&b, (0, 6), (6, 0)));
    assert!(piece_between(&b, (6, 0), (0, 6)));
    // endpoints do not count as being between
    assert!(!piece_between(&b, (3, 3), (3, 7)));
    assert!(!piece_between(&b, (2, 0), (2, 7)));
}

#[test]
fn identical_inputs_identical_outputs() {
    // the validator is referentially transparent: two boards with the
    // same cells agree on every query
    let b1 = init_board();
    let b2 = init_board();
    for from_x in 0..8u8 {
        for to_y in 0..8u8 {
            let r1 = process_sans_check_check(&b1, (from_x, 6), (from_x, to_y), PieceColour::White);
            let r2 = process_sans_check_check(&b2, (from_x, 6), (from_x, to_y), PieceColour::White);
            assert_eq!(r1, r2);
        }
    }
}
