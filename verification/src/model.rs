//! Data model: pieces, the board, actions, votes and wire message types.

use vstd::prelude::*;

verus! {

/// The two sides of the game.
#[derive(Debug, Clone, Copy, PartialEq, Eq, Structural)]
pub enum PieceColour {
    White,
    Black,
}

/// The six chess piece kinds.
#[derive(Debug, Clone, Copy, PartialEq, Eq, Structural)]
pub enum PieceKind {
    King,
    Queen,
    Bishop,
    Knight,
    Rook,
    Pawn,
}

/// A piece on the board: a kind together with its colour.
#[derive(Debug, Clone, Copy, PartialEq, Eq, Structural)]
pub struct Piece {
    pub kind: PieceKind,
    pub colour: PieceColour,
}

/// A proposed move: source and destination squares, each `(x, y)`.
#[derive(Debug, Clone, Copy, PartialEq, Eq)]
pub struct Action {
    pub from: (u8, u8),
    pub to: (u8, u8),
}

/// A client's proposed move together with its weight.
#[derive(Debug, Clone, Copy, PartialEq, Eq)]
pub struct Vote {
    pub action: Action,
    pub weight: u32,
}

/// A request to clients to vote within `timeout` milliseconds.
#[derive(Debug, Clone, Copy, PartialEq, Eq)]
pub struct VoteCall {
    pub timeout: u32,
}

/// The colour whose turn it is not.
pub open spec fn other(c: PieceColour) -> PieceColour {
    match c {
        PieceColour::White => PieceColour::Black,
        PieceColour::Black => PieceColour::White,
    }
}

/// Executable turn flip, matching [`other`].
pub fn flip_colour(c: PieceColour) -> (r: PieceColour)
    ensures
        r == other(c),
{
    match c {
        PieceColour::White => PieceColour::Black,
        PieceColour::Black => PieceColour::White,
    }
}

/// Row-major cell index of the square `(x, y)`.
pub open spec fn idx(x: int, y: int) -> int {
    y * 8 + x
}

/// Both coordinates of a square lie on the board.
pub open spec fn sq_in_range(p: (u8, u8)) -> bool {
    p.0 < 8 && p.1 < 8
}

/// Both squares of an action lie on the board.
pub open spec fn action_in_range(a: Action) -> bool {
    sq_in_range(a.from) && sq_in_range(a.to)
}

/// The 8x8 grid, stored row-major: the cell `(x, y)` is entry `y * 8 + x`.
/// `y = 0` is the Black back rank and `y = 7` the White back rank.
#[derive(Debug)]
pub struct Board {
    cells: Vec<Option<Piece>>,
}

impl View for Board {
    type V = Seq<Option<Piece>>;

    closed spec fn view(&self) -> Seq<Option<Piece>> {
        self.cells@
    }
}

impl Board {
    /// The board holds exactly the 64 cells of the grid.
    pub open spec fn wf(&self) -> bool {
        self@.len() == 64
    }

    /// The piece (if any) on square `(x, y)`.
    pub open spec fn at(&self, x: int, y: int) -> Option<Piece> {
        self@[idx(x, y)]
    }

    /// An empty board.
    pub fn empty() -> (b: Board)
        ensures
            b.wf(),
            forall|i: int| 0 <= i < 64 ==> b@[i] is None,
    {
        let mut cells: Vec<Option<Piece>> = Vec::new();
        let mut i: usize = 0;
        while i < 64
            invariant
                i <= 64,
                cells@.len() == i,
                forall|j: int| 0 <= j < i ==> cells@[j] is None,
            decreases 64 - i,
        {
            cells.push(None);
            i = i + 1;
        }
        Board { cells }
    }

    /// Read the square `(x, y)`.
    pub fn get(&self, x: u8, y: u8) -> (r: Option<Piece>)
        requires
            self.wf(),
            x < 8,
            y < 8,
        ensures
            r == self.at(x as int, y as int),
    {
        self.cells[(y as usize) * 8 + (x as usize)]
    }

    /// A board made of the given 64 cells.
    pub fn from_cells(cells: Vec<Option<Piece>>) -> (b: Board)
        requires
            cells@.len() == 64,
        ensures
            b.wf(),
            b@ == cells@,
    {
        Board { cells }
    }

    /// A copy of this board with the same cells.
    pub fn duplicate(&self) -> (b: Board)
        requires
            self.wf(),
        ensures
            b.wf(),
            b@ == self@,
    {
        let mut cells: Vec<Option<Piece>> = Vec::new();
        let mut i: usize = 0;
        while i < 64
            invariant
                self.wf(),
                i <= 64,
                cells@.len() == i,
                forall|j: int| 0 <= j < i ==> cells@[j] == self@[j],
            decreases 64 - i,
        {
            cells.push(self.cells[i]);
            i = i + 1;
        }
        proof {
            assert(cells@ =~= self@);
        }
        Board { cells }
    }

    /// Overwrite the square `(x, y)`.
    pub fn set(&mut self, x: u8, y: u8, v: Option<Piece>)
        requires
            old(self).wf(),
            x < 8,
            y < 8,
        ensures
            final(self).wf(),
            final(self)@ == old(self)@.update(idx(x as int, y as int), v),
    {
        let i: usize = (y as usize) * 8 + (x as usize);
        self.cells[i] = v;
    }
}

/// The piece that the standard opening position puts on file `x` of a back
/// rank.
pub open spec fn back_rank_kind(x: int) -> PieceKind {
    if x == 0 || x == 7 {
        PieceKind::Rook
    } else if x == 1 || x == 6 {
        PieceKind::Knight
    } else if x == 2 || x == 5 {
        PieceKind::Bishop
    } else if x == 3 {
        PieceKind::Queen
    } else {
        PieceKind::King
    }
}

/// The standard opening position: Black on ranks 0 and 1, White on ranks 6
/// and 7.
pub open spec fn init_cell(x: int, y: int) -> Option<Piece> {
    if y == 0 {
        Some(Piece { kind: back_rank_kind(x), colour: PieceColour::Black })
    } else if y == 1 {
        Some(Piece { kind: PieceKind::Pawn, colour: PieceColour::Black })
    } else if y == 6 {
        Some(Piece { kind: PieceKind::Pawn, colour: PieceColour::White })
    } else if y == 7 {
        Some(Piece { kind: back_rank_kind(x), colour: PieceColour::White })
    } else {
        None
    }
}

fn back_rank_piece(x: u8) -> (k: PieceKind)
    ensures
        k == back_rank_kind(x as int),
{
    if x == 0 || x == 7 {
        PieceKind::Rook
    } else if x == 1 || x == 6 {
        PieceKind::Knight
    } else if x == 2 || x == 5 {
        PieceKind::Bishop
    } else if x == 3 {
        PieceKind::Queen
    } else {
        PieceKind::King
    }
}

/// Build the standard opening position.
pub fn init_board() -> (b: Board)
    ensures
        b.wf(),
        forall|x: int, y: int|
            #![trigger idx(x, y)]
            0 <= x < 8 && 0 <= y < 8 ==> b.at(x, y) == init_cell(x, y),
{
    let mut b = Board::empty();
    let mut x: u8 = 0;
    while x < 8
        invariant
            x <= 8,
            b.wf(),
            forall|xx: int, yy: int|
                #![trigger idx(xx, yy)]
                0 <= xx < 8 && 0 <= yy < 8 && (yy == 0 || yy == 1 || yy == 6 || yy == 7) && xx < x
                    ==> b.at(xx, yy) == init_cell(xx, yy),
            forall|xx: int, yy: int|
                #![trigger idx(xx, yy)]
                0 <= xx < 8 && 2 <= yy <= 5 ==> b.at(xx, yy) is None,
        decreases 8 - x,
    {
        b.set(x, 0, Some(Piece { kind: back_rank_piece(x), colour: PieceColour::Black }));
        b.set(x, 1, Some(Piece { kind: PieceKind::Pawn, colour: PieceColour::Black }));
        b.set(x, 6, Some(Piece { kind: PieceKind::Pawn, colour: PieceColour::White }));
        b.set(x, 7, Some(Piece { kind: back_rank_piece(x), colour: PieceColour::White }));
        x = x + 1;
    }
    b
}

/// The number of occupied cells in a board's cell sequence.
pub open spec fn count_pieces(s: Seq<Option<Piece>>) -> nat
    decreases s.len(),
{
    if s.len() == 0 {
        0
    } else {
        count_pieces(s.drop_last()) + if s.last() is Some {
            1nat
        } else {
            0nat
        }
    }
}

/// Replacing one cell changes the piece count by exactly the difference of
/// the old and new cell occupancy.
pub proof fn lemma_count_pieces_update(s: Seq<Option<Piece>>, i: int, v: Option<Piece>)
    requires
        0 <= i < s.len(),
    ensures
        count_pieces(s.update(i, v)) + (if s[i] is Some { 1nat } else { 0nat })
            == count_pieces(s) + (if v is Some { 1nat } else { 0nat }),
    decreases s.len(),
{
    let t = s.update(i, v);
    if i == s.len() - 1 {
        assert(t.drop_last() =~= s.drop_last());
    } else {
        assert(t.drop_last() =~= s.drop_last().update(i, v));
        lemma_count_pieces_update(s.drop_last(), i, v);
    }
}

/// The king of colour `c` stands on square `p` of cell sequence `b`.
pub open spec fn king_at(b: Seq<Option<Piece>>, c: PieceColour, p: (u8, u8)) -> bool {
    sq_in_range(p) && b[idx(p.0 as int, p.1 as int)] == Some(
        Piece { kind: PieceKind::King, colour: c },
    )
}

/// At least one king of colour `c` is on the board.
pub open spec fn has_king(b: Seq<Option<Piece>>, c: PieceColour) -> bool {
    exists|p: (u8, u8)| king_at(b, c, p)
}

/// At most one king of colour `c` is on the board.
pub open spec fn king_unique(b: Seq<Option<Piece>>, c: PieceColour) -> bool {
    forall|p: (u8, u8), q: (u8, u8)| king_at(b, c, p) && king_at(b, c, q) ==> p == q
}

/// Exactly one king of colour `c` is on the board.
pub open spec fn one_king(b: Seq<Option<Piece>>, c: PieceColour) -> bool {
    has_king(b, c) && king_unique(b, c)
}

/// The square of the king of colour `c` (meaningful when `one_king` holds).
pub open spec fn king_sq(b: Seq<Option<Piece>>, c: PieceColour) -> (u8, u8) {
    choose|p: (u8, u8)| king_at(b, c, p)
}

/// A game state: the board and the colour to move next.
#[derive(Debug)]
pub struct StateChange {
    pub board: Board,
    pub turn: PieceColour,
}

impl StateChange {
    /// The state invariant: a full grid holding exactly one king of each
    /// colour.
    pub open spec fn wf(&self) -> bool {
        &&& self.board.wf()
        &&& one_king(self.board@, PieceColour::White)
        &&& one_king(self.board@, PieceColour::Black)
    }
}

/// A message from the engine to the funnel and on to the clients: either a
/// new game state or a call for votes.
#[derive(Debug)]
pub enum DownstreamMessage {
    StateChange(StateChange),
    VoteCall(VoteCall),
}

} // verus!
