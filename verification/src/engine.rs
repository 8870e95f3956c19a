//! The engine state machine: applying a voted move to the game state,
//! detecting checkmate and resetting the board.

use vstd::prelude::*;

use crate::model::{
    action_in_range, has_king, idx, init_board, init_cell, king_at, king_sq, one_king,
    other, sq_in_range, Action, Board, Piece, PieceColour, PieceKind, StateChange, Vote,
    count_pieces, lemma_count_pieces_update, flip_colour,
};
use crate::rules::{legal_sans_check, process_sans_check_check};

verus! {

/// The side to move is in check: some square holds an enemy piece with a
/// pseudo-legal move onto the king's square.  Faithful to the engine it
/// models, the test looks at the king's current square on the current
/// board, before the proposed move is made.
pub open spec fn in_check(b: Seq<Option<Piece>>, turn: PieceColour) -> bool {
    exists|p: (u8, u8)|
        sq_in_range(p) && legal_sans_check(b, p, king_sq(b, turn), other(turn))
}

/// The engine accepts a move when its squares are on the board, the move is
/// legal ignoring check, and the side to move is not (by the pre-move test
/// above) in check.
pub open spec fn move_accepted(b: Seq<Option<Piece>>, turn: PieceColour, a: Action) -> bool {
    &&& action_in_range(a)
    &&& legal_sans_check(b, a.from, a.to, turn)
    &&& !in_check(b, turn)
}

/// The cells after a move: the source square is emptied and its piece put
/// on the destination square.
pub open spec fn board_apply(b: Seq<Option<Piece>>, a: Action) -> Seq<Option<Piece>> {
    b.update(idx(a.from.0 as int, a.from.1 as int), None).update(
        idx(a.to.0 as int, a.to.1 as int),
        b[idx(a.from.0 as int, a.from.1 as int)],
    )
}

/// The destination square of `a` holds a king (of either colour).
pub open spec fn captures_king(b: Seq<Option<Piece>>, a: Action) -> bool {
    b[idx(a.to.0 as int, a.to.1 as int)] matches Some(q) && q.kind == PieceKind::King
}

/// Some move of `turn` would be accepted.
pub open spec fn any_escape(b: Seq<Option<Piece>>, turn: PieceColour) -> bool {
    exists|a: Action| move_accepted(b, turn, a)
}

/// The cells hold the standard opening position.
pub open spec fn is_init_board(s: Seq<Option<Piece>>) -> bool {
    s.len() == 64 && forall|x: int, y: int|
        #![trigger idx(x, y)]
        0 <= x < 8 && 0 <= y < 8 ==> s[idx(x, y)] == init_cell(x, y)
}

/// Two squares with the same row-major index are the same square.
pub proof fn lemma_idx_injective(p: (u8, u8), q: (u8, u8))
    requires
        sq_in_range(p),
        sq_in_range(q),
        idx(p.0 as int, p.1 as int) == idx(q.0 as int, q.1 as int),
    ensures
        p == q,
{
}

/// The number of pieces never grows when a move is applied, and shrinks
/// exactly when the destination square was occupied.
pub proof fn lemma_move_piece_count(b: Seq<Option<Piece>>, turn: PieceColour, a: Action)
    requires
        b.len() == 64,
        move_accepted(b, turn, a),
    ensures
        count_pieces(board_apply(b, a)) + (if b[idx(a.to.0 as int, a.to.1 as int)] is Some {
            1nat
        } else {
            0nat
        }) == count_pieces(b),
        count_pieces(board_apply(b, a)) <= count_pieces(b),
        (count_pieces(board_apply(b, a)) < count_pieces(b)) <==> b[idx(
            a.to.0 as int,
            a.to.1 as int,
        )] is Some,
{
    let fi = idx(a.from.0 as int, a.from.1 as int);
    let ti = idx(a.to.0 as int, a.to.1 as int);
    lemma_idx_distinct(a);
    let b0 = b.update(fi, None);
    lemma_count_pieces_update(b, fi, None);
    lemma_count_pieces_update(b0, ti, b[fi]);
    assert(b0[ti] == b[ti]);
    assert(b[fi] is Some);
}

proof fn lemma_idx_distinct(a: Action)
    requires
        action_in_range(a),
        a.from != a.to,
    ensures
        idx(a.from.0 as int, a.from.1 as int) != idx(a.to.0 as int, a.to.1 as int),
        0 <= idx(a.from.0 as int, a.from.1 as int) < 64,
        0 <= idx(a.to.0 as int, a.to.1 as int) < 64,
{
}

/// An accepted move that does not capture a king leaves exactly one king
/// of colour `c` on the board whenever exactly one was there before.
pub proof fn lemma_move_preserves_kings(
    b: Seq<Option<Piece>>,
    turn: PieceColour,
    a: Action,
    c: PieceColour,
)
    requires
        b.len() == 64,
        move_accepted(b, turn, a),
        !captures_king(b, a),
        one_king(b, c),
    ensures
        one_king(board_apply(b, a), c),
{
    let fi = idx(a.from.0 as int, a.from.1 as int);
    let ti = idx(a.to.0 as int, a.to.1 as int);
    lemma_idx_distinct(a);
    let b1 = board_apply(b, a);
    let p = b[fi]->Some_0;
    assert(b[fi] is Some);
    if p.kind == PieceKind::King && p.colour == c {
        assert(king_at(b, c, a.from));
        assert(king_at(b1, c, a.to));
        assert forall|q: (u8, u8)| king_at(b1, c, q) implies q == a.to by {
            if q != a.to {
                let qi = idx(q.0 as int, q.1 as int);
                lemma_idx_injective2(q, a.to);
                assert(qi != ti);
                if qi == fi {
                    assert(b1[qi] is None);
                } else {
                    assert(b1[qi] == b[qi]);
                    assert(king_at(b, c, q));
                    assert(q == a.from);
                }
            }
        }
    } else {
        let kp = king_sq(b, c);
        assert(king_at(b, c, kp));
        let ki = idx(kp.0 as int, kp.1 as int);
        assert(kp != a.from);
        assert(kp != a.to);
        lemma_idx_injective2(kp, a.from);
        lemma_idx_injective2(kp, a.to);
        assert(b1[ki] == b[ki]);
        assert(king_at(b1, c, kp));
        assert forall|q: (u8, u8)| king_at(b1, c, q) implies q == kp by {
            let qi = idx(q.0 as int, q.1 as int);
            if qi == fi {
                assert(b1[qi] is None);
            } else if qi == ti {
                assert(b1[qi] == Some(p));
            } else {
                assert(b1[qi] == b[qi]);
                assert(king_at(b, c, q));
            }
        }
    }
}

proof fn lemma_idx_injective2(p: (u8, u8), q: (u8, u8))
    requires
        sq_in_range(p),
        sq_in_range(q),
        p != q,
    ensures
        idx(p.0 as int, p.1 as int) != idx(q.0 as int, q.1 as int),
{
}

/// The standard opening position holds exactly one king of each colour.
pub proof fn lemma_init_board_kings(s: Seq<Option<Piece>>)
    requires
        is_init_board(s),
    ensures
        one_king(s, PieceColour::White),
        one_king(s, PieceColour::Black),
{
    assert(s[idx(4, 7)] == init_cell(4, 7));
    assert(king_at(s, PieceColour::White, (4u8, 7u8)));
    assert(s[idx(4, 0)] == init_cell(4, 0));
    assert(king_at(s, PieceColour::Black, (4u8, 0u8)));
    assert forall|c: PieceColour, q: (u8, u8)| king_at(s, c, q) implies q == (
        4u8,
        match c {
            PieceColour::White => 7u8,
            PieceColour::Black => 0u8,
        },
    ) by {
        assert(s[idx(q.0 as int, q.1 as int)] == init_cell(q.0 as int, q.1 as int));
    }
}

fn find_king(board: &Board, c: PieceColour) -> (r: (u8, u8))
    requires
        board.wf(),
        has_king(board@, c),
    ensures
        king_at(board@, c, r),
{
    let mut y: u8 = 0;
    while y < 8
        invariant
            board.wf(),
            has_king(board@, c),
            y <= 8,
            forall|q: (u8, u8)| #[trigger] king_at(board@, c, q) ==> q.1 >= y,
        decreases 8 - y,
    {
        let mut x: u8 = 0;
        while x < 8
            invariant
                board.wf(),
                y < 8,
                x <= 8,
                forall|q: (u8, u8)| #[trigger]
                    king_at(board@, c, q) ==> q.1 > y || (q.1 == y && q.0 >= x),
            decreases 8 - x,
        {
            match board.get(x, y) {
                Some(p) => {
                    if matches!(p.kind, PieceKind::King) && p.colour == c {
                        return (x, y);
                    }
                },
                None => {},
            }
            proof {
                assert forall|q: (u8, u8)| #[trigger] king_at(board@, c, q) implies q.1 > y || (
                q.1 == y && q.0 >= x + 1) by {
                    if q.1 == y && q.0 == x {
                        assert(board.at(x as int, y as int) == Some(
                            Piece { kind: PieceKind::King, colour: c },
                        ));
                    }
                }
            }
            x = x + 1;
        }
        y = y + 1;
    }
    proof {
        let q = choose|q: (u8, u8)| king_at(board@, c, q);
        assert(king_at(board@, c, q));
        assert(false);
    }
    (0, 0)
}

/// Whether the side to move is in check, by the engine's pre-move test.
fn king_attacked(board: &Board, turn: PieceColour) -> (r: bool)
    requires
        board.wf(),
        one_king(board@, turn),
    ensures
        r == in_check(board@, turn),
{
    let ksq = find_king(board, turn);
    proof {
        let kp = king_sq(board@, turn);
        assert(king_at(board@, turn, kp));
        assert(ksq == kp);
    }
    let enemy = flip_colour(turn);
    let mut y: u8 = 0;
    while y < 8
        invariant
            board.wf(),
            one_king(board@, turn),
            ksq == king_sq(board@, turn),
            sq_in_range(ksq),
            enemy == other(turn),
            y <= 8,
            forall|p: (u8, u8)|
                #![trigger legal_sans_check(board@, p, ksq, enemy)]
                sq_in_range(p) && p.1 < y ==> !legal_sans_check(board@, p, ksq, enemy),
        decreases 8 - y,
    {
        let mut x: u8 = 0;
        while x < 8
            invariant
                board.wf(),
                ksq == king_sq(board@, turn),
                sq_in_range(ksq),
                enemy == other(turn),
                y < 8,
                x <= 8,
                forall|p: (u8, u8)|
                    #![trigger legal_sans_check(board@, p, ksq, enemy)]
                    sq_in_range(p) && (p.1 < y || (p.1 == y && p.0 < x)) ==> !legal_sans_check(
                        board@,
                        p,
                        ksq,
                        enemy,
                    ),
            decreases 8 - x,
        {
            if process_sans_check_check(board, (x, y), ksq, enemy) {
                proof {
                    assert(sq_in_range((x, y)) && legal_sans_check(
                        board@,
                        (x, y),
                        king_sq(board@, turn),
                        other(turn),
                    ));
                }
                return true;
            }
            x = x + 1;
        }
        y = y + 1;
    }
    false
}

/// Apply one voted move to the board, if the engine's rules accept it.
/// Returns the colour to move next: flipped exactly when the move was
/// accepted; on rejection board and turn are unchanged.
pub fn process_move(board: &mut Board, turn: PieceColour, action: Action) -> (r: PieceColour)
    requires
        old(board).wf(),
        one_king(old(board)@, turn),
    ensures
        final(board).wf(),
        r == if move_accepted(old(board)@, turn, action) {
            other(turn)
        } else {
            turn
        },
        move_accepted(old(board)@, turn, action) ==> final(board)@ == board_apply(
            old(board)@,
            action,
        ),
        !move_accepted(old(board)@, turn, action) ==> final(board)@ == old(board)@,
{
    let (x0, y0) = action.from;
    let (x1, y1) = action.to;
    if x0 >= 8 || x1 >= 8 || y0 >= 8 || y1 >= 8 {
        return turn;
    }
    if !process_sans_check_check(board, action.from, action.to, turn) {
        return turn;
    }
    if king_attacked(board, turn) {
        return turn;
    }
    let mover = board.get(x0, y0);
    board.set(x0, y0, None);
    board.set(x1, y1, mover);
    proof {
        lemma_idx_distinct(action);
        assert(final(board)@ =~= board_apply(old(board)@, action));
    }
    flip_colour(turn)
}

fn any_move_from(board: &Board, from: (u8, u8), turn: PieceColour) -> (r: bool)
    requires
        board.wf(),
        sq_in_range(from),
    ensures
        r == exists|to: (u8, u8)|
            sq_in_range(to) && legal_sans_check(board@, from, to, turn),
{
    let mut y: u8 = 0;
    while y < 8
        invariant
            board.wf(),
            sq_in_range(from),
            y <= 8,
            forall|to: (u8, u8)|
                #![trigger legal_sans_check(board@, from, to, turn)]
                sq_in_range(to) && to.1 < y ==> !legal_sans_check(board@, from, to, turn),
        decreases 8 - y,
    {
        let mut x: u8 = 0;
        while x < 8
            invariant
                board.wf(),
                sq_in_range(from),
                y < 8,
                x <= 8,
                forall|to: (u8, u8)|
                    #![trigger legal_sans_check(board@, from, to, turn)]
                    sq_in_range(to) && (to.1 < y || (to.1 == y && to.0 < x))
                        ==> !legal_sans_check(board@, from, to, turn),
            decreases 8 - x,
        {
            if process_sans_check_check(board, from, (x, y), turn) {
                proof {
                    assert(sq_in_range((x, y)) && legal_sans_check(board@, from, (x, y), turn));
                }
                return true;
            }
            x = x + 1;
        }
        y = y + 1;
    }
    false
}

/// Whether the side to move has any accepted move at all.  When it has
/// none the engine declares checkmate.
pub fn has_escape(board: &Board, turn: PieceColour) -> (r: bool)
    requires
        board.wf(),
        one_king(board@, turn),
    ensures
        r == any_escape(board@, turn),
{
    if king_attacked(board, turn) {
        proof {
            assert forall|a: Action| !move_accepted(board@, turn, a) by {}
        }
        return false;
    }
    let mut y: u8 = 0;
    while y < 8
        invariant
            board.wf(),
            one_king(board@, turn),
            !in_check(board@, turn),
            y <= 8,
            forall|a: Action| #[trigger]
                move_accepted(board@, turn, a) ==> a.from.1 >= y,
        decreases 8 - y,
    {
        let mut x: u8 = 0;
        while x < 8
            invariant
                board.wf(),
                one_king(board@, turn),
                !in_check(board@, turn),
                y < 8,
                x <= 8,
                forall|a: Action| #[trigger]
                    move_accepted(board@, turn, a) ==> a.from.1 > y || (a.from.1 == y && a.from.0
                        >= x),
            decreases 8 - x,
        {
            if any_move_from(board, (x, y), turn) {
                proof {
                    let to = choose|to: (u8, u8)|
                        sq_in_range(to) && legal_sans_check(board@, (x, y), to, turn);
                    assert(move_accepted(board@, turn, Action { from: (x, y), to }));
                }
                return true;
            }
            proof {
                assert forall|a: Action| #[trigger] move_accepted(board@, turn, a) implies a.from.1
                    > y || (a.from.1 == y && a.from.0 >= x + 1) by {
                    if a.from.1 == y && a.from.0 == x {
                        assert(sq_in_range(a.to) && legal_sans_check(board@, (x, y), a.to, turn));
                    }
                }
            }
            x = x + 1;
        }
        y = y + 1;
    }
    false
}

/// Whether this vote's move would be accepted and take a king off the
/// board.  After such a move the engine cannot continue: its next scan
/// for the captured side's king would find none.  Callers test this
/// before [`engine_step`].
pub fn vote_captures_king(state: &StateChange, vote: &Vote) -> (r: bool)
    requires
        state.wf(),
    ensures
        r == (vote.weight > 0 && move_accepted(state.board@, state.turn, vote.action)
            && captures_king(state.board@, vote.action)),
{
    if vote.weight == 0 {
        return false;
    }
    let (x0, y0) = vote.action.from;
    let (x1, y1) = vote.action.to;
    if x0 >= 8 || y0 >= 8 || x1 >= 8 || y1 >= 8 {
        return false;
    }
    let dest_is_king = match state.board.get(x1, y1) {
        Some(p) => matches!(p.kind, PieceKind::King),
        None => false,
    };
    if !dest_is_king {
        return false;
    }
    if !process_sans_check_check(&state.board, vote.action.from, vote.action.to, state.turn) {
        return false;
    }
    !king_attacked(&state.board, state.turn)
}

/// Process one vote, as the engine's main loop does.
///
/// A vote of weight zero is ignored: no move is applied and nothing is
/// emitted.  Otherwise the move is run through [`process_move`] and the
/// resulting state (unchanged, when the move was rejected) is emitted.  If
/// the side then to move has no accepted move the engine declares
/// checkmate: the final position is emitted and the game resets to the
/// opening position with White to move, which is emitted as well.
///
/// The returned vector holds the states to broadcast, in order.
pub fn engine_step(state: &mut StateChange, vote: &Vote) -> (out: Vec<StateChange>)
    requires
        old(state).wf(),
        vote.weight > 0 && move_accepted(old(state).board@, old(state).turn, vote.action)
            ==> !captures_king(old(state).board@, vote.action),
    ensures
        final(state).wf(),
        vote.weight == 0 ==> final(state).board@ == old(state).board@ && final(state).turn == old(
            state,
        ).turn && out@.len() == 0,
        vote.weight > 0 ==> {
            let b1 = if move_accepted(old(state).board@, old(state).turn, vote.action) {
                board_apply(old(state).board@, vote.action)
            } else {
                old(state).board@
            };
            let t1 = if move_accepted(old(state).board@, old(state).turn, vote.action) {
                other(old(state).turn)
            } else {
                old(state).turn
            };
            &&& out@.len() >= 1 && out@[0].board@ == b1 && out@[0].turn == t1
            &&& any_escape(b1, t1) ==> final(state).board@ == b1 && final(state).turn == t1
                && out@.len() == 1
            &&& !any_escape(b1, t1) ==> is_init_board(final(state).board@) && final(state).turn
                == PieceColour::White && out@.len() == 2 && is_init_board(out@[1].board@)
                && out@[1].turn == PieceColour::White
        },
{
    let mut out: Vec<StateChange> = Vec::new();
    if vote.weight == 0 {
        return out;
    }
    let new_turn = process_move(&mut state.board, state.turn, vote.action);
    proof {
        if move_accepted(old(state).board@, old(state).turn, vote.action) {
            lemma_move_preserves_kings(
                old(state).board@,
                old(state).turn,
                vote.action,
                PieceColour::White,
            );
            lemma_move_preserves_kings(
                old(state).board@,
                old(state).turn,
                vote.action,
                PieceColour::Black,
            );
        }
    }
    state.turn = new_turn;
    out.push(StateChange { board: state.board.duplicate(), turn: state.turn });
    if !has_escape(&state.board, state.turn) {
        let fresh = init_board();
        proof {
            lemma_init_board_kings(fresh@);
        }
        state.board = fresh;
        state.turn = PieceColour::White;
        out.push(StateChange { board: state.board.duplicate(), turn: state.turn });
    }
    out
}

} // verus!
