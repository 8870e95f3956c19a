//! The pure chess rule validator: piece motion, path clearance and
//! legality of a single move, ignoring check.

use vstd::prelude::*;

use crate::model::{idx, other, sq_in_range, Board, Piece, PieceColour, PieceKind};

verus! {

/// Signed file distance of a move.
pub open spec fn dx(from: (u8, u8), to: (u8, u8)) -> int {
    to.0 as int - from.0 as int
}

/// Signed rank distance of a move.
pub open spec fn dy(from: (u8, u8), to: (u8, u8)) -> int {
    to.1 as int - from.1 as int
}

/// Absolute value.
pub open spec fn abs_d(d: int) -> int {
    if d < 0 {
        -d
    } else {
        d
    }
}

/// The sign of a distance: -1, 0 or 1.
pub open spec fn sgn(d: int) -> int {
    if d > 0 {
        1
    } else if d < 0 {
        -1
    } else {
        0
    }
}

/// The move runs along a rank, a file or a diagonal.
pub open spec fn aligned(from: (u8, u8), to: (u8, u8)) -> bool {
    ||| dx(from, to) == 0
    ||| dy(from, to) == 0
    ||| abs_d(dx(from, to)) == abs_d(dy(from, to))
}

/// The number of steps from `from` to `to` along the line through them.
pub open spec fn path_len(from: (u8, u8), to: (u8, u8)) -> int {
    if abs_d(dx(from, to)) > abs_d(dy(from, to)) {
        abs_d(dx(from, to))
    } else {
        abs_d(dy(from, to))
    }
}

/// The cell `k` steps from `from` towards `to`.
pub open spec fn path_at(b: Seq<Option<Piece>>, from: (u8, u8), to: (u8, u8), k: int) -> Option<
    Piece,
> {
    b[idx(from.0 + k * sgn(dx(from, to)), from.1 + k * sgn(dy(from, to)))]
}

/// Every square strictly between `from` and `to` is empty.
pub open spec fn path_clear(b: Seq<Option<Piece>>, from: (u8, u8), to: (u8, u8)) -> bool {
    forall|k: int| 1 <= k < path_len(from, to) ==> #[trigger] path_at(b, from, to, k) is None
}

/// The rank a pawn of colour `c` starts on.
pub open spec fn pawn_start_rank(c: PieceColour) -> int {
    match c {
        PieceColour::White => 6,
        PieceColour::Black => 1,
    }
}

/// The direction a pawn of colour `c` advances in: Black toward larger `y`,
/// White toward smaller `y`.
pub open spec fn pawn_dir(c: PieceColour) -> int {
    match c {
        PieceColour::White => -1,
        PieceColour::Black => 1,
    }
}

/// Pawn motion: one forward onto an empty square, two forward from the
/// start rank over empty squares, or a diagonal capture of an enemy piece.
pub open spec fn pawn_ok(b: Seq<Option<Piece>>, c: PieceColour, from: (u8, u8), to: (u8, u8)) -> bool {
    let s = pawn_dir(c);
    ||| (dx(from, to) == 0 && dy(from, to) == s && b[idx(to.0 as int, to.1 as int)] is None)
    ||| (dx(from, to) == 0 && dy(from, to) == 2 * s && from.1 == pawn_start_rank(c)
        && b[idx(from.0 as int, from.1 + s)] is None
        && b[idx(to.0 as int, to.1 as int)] is None)
    ||| (abs_d(dx(from, to)) == 1 && dy(from, to) == s
        && (b[idx(to.0 as int, to.1 as int)] matches Some(q) && q.colour == other(c)))
}

/// The motion rule of piece `p` standing on `from`, for destination `to`.
pub open spec fn motion_ok(b: Seq<Option<Piece>>, p: Piece, from: (u8, u8), to: (u8, u8)) -> bool {
    match p.kind {
        PieceKind::King => abs_d(dx(from, to)) <= 1 && abs_d(dy(from, to)) <= 1,
        PieceKind::Knight => {
            ||| (abs_d(dx(from, to)) == 2 && abs_d(dy(from, to)) == 1)
            ||| (abs_d(dx(from, to)) == 1 && abs_d(dy(from, to)) == 2)
        },
        PieceKind::Rook => (dx(from, to) == 0 || dy(from, to) == 0) && path_clear(b, from, to),
        PieceKind::Bishop => abs_d(dx(from, to)) == abs_d(dy(from, to)) && path_clear(b, from, to),
        PieceKind::Queen => aligned(from, to) && path_clear(b, from, to),
        PieceKind::Pawn => pawn_ok(b, p.colour, from, to),
    }
}

/// A move is possible, ignoring check: the source square holds a piece of
/// the moving colour, the move goes somewhere else, it follows that piece's
/// motion rule, and it does not capture a piece of its own colour.
pub open spec fn legal_sans_check(
    b: Seq<Option<Piece>>,
    from: (u8, u8),
    to: (u8, u8),
    turn: PieceColour,
) -> bool {
    match b[idx(from.0 as int, from.1 as int)] {
        Some(p) => {
            &&& p.colour == turn
            &&& !(from.0 == to.0 && from.1 == to.1)
            &&& motion_ok(b, p, from, to)
            &&& !(b[idx(to.0 as int, to.1 as int)] matches Some(q) && q.colour == turn)
        },
        None => false,
    }
}

/// Legality is a function of the board contents, the squares and the turn
/// alone: identical inputs always yield identical outcomes.  Together with
/// the contract of [`process_sans_check_check`], whose result equals
/// `legal_sans_check` of its inputs, this makes the executable validator
/// referentially transparent.
pub proof fn lemma_legality_referentially_transparent(
    b1: Board,
    b2: Board,
    from: (u8, u8),
    to: (u8, u8),
    turn: PieceColour,
)
    requires
        b1@ == b2@,
    ensures
        legal_sans_check(b1@, from, to, turn) == legal_sans_check(b2@, from, to, turn),
{
}

/// Whether any square strictly between `start` and `stop` holds a piece.
/// For a pair that is not aligned on a rank, file or diagonal, no squares
/// are between them and the answer is `false`.
pub fn piece_between(board: &Board, start: (u8, u8), stop: (u8, u8)) -> (r: bool)
    requires
        board.wf(),
        sq_in_range(start),
        sq_in_range(stop),
        start != stop,
    ensures
        aligned(start, stop) ==> (r <==> !path_clear(board@, start, stop)),
        !aligned(start, stop) ==> r == false,
{
    let dx_e: i16 = stop.0 as i16 - start.0 as i16;
    let dy_e: i16 = stop.1 as i16 - start.1 as i16;
    let adx: i16 = if dx_e < 0 {
        -dx_e
    } else {
        dx_e
    };
    let ady: i16 = if dy_e < 0 {
        -dy_e
    } else {
        dy_e
    };
    if dx_e == 0 || dy_e == 0 || adx == ady {
        let sx: i16 = if dx_e > 0 {
            1
        } else if dx_e < 0 {
            -1
        } else {
            0
        };
        let sy: i16 = if dy_e > 0 {
            1
        } else if dy_e < 0 {
            -1
        } else {
            0
        };
        let n: i16 = if adx > ady {
            adx
        } else {
            ady
        };
        let mut k: i16 = 1;
        let mut xx: i16 = start.0 as i16 + sx;
        let mut yy: i16 = start.1 as i16 + sy;
        while k < n
            invariant
                board.wf(),
                sq_in_range(start),
                sq_in_range(stop),
                start != stop,
                aligned(start, stop),
                sx == sgn(dx(start, stop)),
                sy == sgn(dy(start, stop)),
                n == path_len(start, stop),
                1 <= k <= n,
                xx == start.0 + k * sx,
                yy == start.1 + k * sy,
                forall|j: int| 1 <= j < k ==> #[trigger] path_at(board@, start, stop, j) is None,
            decreases n - k,
        {
            proof {
                if sx == 1 {
                    assert(n == abs_d(dx(start, stop)));
                    assert(start.0 + k * 1 == start.0 + k);
                    assert(start.0 < xx < stop.0);
                } else if sx == -1 {
                    assert(n == abs_d(dx(start, stop)));
                    assert(start.0 + k * (-1) == start.0 - k);
                    assert(stop.0 < xx < start.0);
                } else {
                    assert(k * 0 == 0);
                    assert(xx == start.0);
                }
                if sy == 1 {
                    assert(start.1 + k * 1 == start.1 + k);
                    assert(start.1 < yy < stop.1);
                } else if sy == -1 {
                    assert(start.1 + k * (-1) == start.1 - k);
                    assert(stop.1 < yy < start.1);
                } else {
                    assert(k * 0 == 0);
                    assert(yy == start.1);
                }
            }
            if board.get(xx as u8, yy as u8).is_some() {
                proof {
                    assert(path_at(board@, start, stop, k as int) == board.at(
                        xx as int,
                        yy as int,
                    ));
                }
                return true;
            }
            proof {
                assert(path_at(board@, start, stop, k as int) == board.at(xx as int, yy as int));
                assert((k + 1) * sx == k * sx + sx) by (nonlinear_arith);
                assert((k + 1) * sy == k * sy + sy) by (nonlinear_arith);
            }
            k = k + 1;
            xx = xx + sx;
            yy = yy + sy;
        }
        false
    } else {
        false
    }
}

/// Whether a move is possible, ignoring check: the executable counterpart
/// of [`legal_sans_check`].
pub fn process_sans_check_check(
    board: &Board,
    from: (u8, u8),
    to: (u8, u8),
    turn: PieceColour,
) -> (r: bool)
    requires
        board.wf(),
        sq_in_range(from),
        sq_in_range(to),
    ensures
        r == legal_sans_check(board@, from, to, turn),
{
    let src = board.get(from.0, from.1);
    let p = match src {
        None => {
            return false;
        },
        Some(p) => p,
    };
    if p.colour != turn {
        return false;
    }
    if from.0 == to.0 && from.1 == to.1 {
        return false;
    }
    let dst = board.get(to.0, to.1);
    if let Some(q) = dst {
        if q.colour == turn {
            return false;
        }
    }
    let dx_e: i16 = to.0 as i16 - from.0 as i16;
    let dy_e: i16 = to.1 as i16 - from.1 as i16;
    let adx: i16 = if dx_e < 0 {
        -dx_e
    } else {
        dx_e
    };
    let ady: i16 = if dy_e < 0 {
        -dy_e
    } else {
        dy_e
    };
    match p.kind {
        PieceKind::King => adx <= 1 && ady <= 1,
        PieceKind::Knight => (adx == 2 && ady == 1) || (adx == 1 && ady == 2),
        PieceKind::Rook => (dx_e == 0 || dy_e == 0) && !piece_between(board, from, to),
        PieceKind::Bishop => adx == ady && !piece_between(board, from, to),
        PieceKind::Queen => (dx_e == 0 || dy_e == 0 || adx == ady) && !piece_between(
            board,
            from,
            to,
        ),
        PieceKind::Pawn => {
            let s: i16 = match p.colour {
                PieceColour::White => -1,
                PieceColour::Black => 1,
            };
            if dx_e == 0 && dy_e == s {
                dst.is_none()
            } else if dx_e == 0 && dy_e == 2 * s && (from.1 as i16) == (if s == 1 {
                1
            } else {
                6
            }) {
                let mid = board.get(from.0, (from.1 as i16 + s) as u8);
                mid.is_none() && dst.is_none()
            } else if (dx_e == 1 || dx_e == -1) && dy_e == s {
                match dst {
                    Some(q) => q.colour != p.colour,
                    None => false,
                }
            } else {
                false
            }
        },
    }
}

} // verus!
