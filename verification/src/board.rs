//! A single 8x8 board snapshot: squares, side to move, castling rights and the
//! en-passant target.

use vstd::prelude::*;

use crate::text::{push_digit, string_from_chars};
use crate::types::{kind_letter, kind_letter_lower, Color, Piece, PieceKind};

verus! {

/// The four castling sides, in the order in which `CastlingRights` stores them.
#[derive(Copy, Clone, Debug, PartialEq, Eq, Hash, Structural)]
pub enum CastleSide {
    WhiteKing,
    WhiteQueen,
    BlackKing,
    BlackQueen,
}

/// Position of a castling side in `CastlingRights`: [WK, WQ, BK, BQ].
pub open spec fn side_index(s: CastleSide) -> int {
    match s {
        CastleSide::WhiteKing => 0,
        CastleSide::WhiteQueen => 1,
        CastleSide::BlackKing => 2,
        CastleSide::BlackQueen => 3,
    }
}

pub(crate) fn side_slot(s: CastleSide) -> (i: usize)
    ensures
        i == side_index(s),
{
    match s {
        CastleSide::WhiteKing => 0,
        CastleSide::WhiteQueen => 1,
        CastleSide::BlackKing => 2,
        CastleSide::BlackQueen => 3,
    }
}

/// Castling rights on a single board, indexed [WK, WQ, BK, BQ].
#[derive(Copy, Clone, Debug, PartialEq, Eq, Hash)]
pub struct CastlingRights(pub [bool; 4]);

/// Whether a right is held.
pub open spec fn right(cr: CastlingRights, s: CastleSide) -> bool {
    cr.0@[side_index(s)]
}

impl CastlingRights {
    /// Every right held.
    pub fn all() -> (cr: Self)
        ensures
            forall|s: CastleSide| right(cr, s),
    {
        CastlingRights([true, true, true, true])
    }

    /// No right held.
    pub fn none() -> (cr: Self)
        ensures
            forall|s: CastleSide| !right(cr, s),
    {
        CastlingRights([false, false, false, false])
    }

    pub fn get(&self, side: CastleSide) -> (r: bool)
        ensures
            r == right(*self, side),
    {
        self.0[side_slot(side)]
    }

    /// Sets one right and keeps the others.
    pub fn set(&mut self, side: CastleSide, v: bool)
        ensures
            right(*final(self), side) == v,
            forall|s: CastleSide| s != side ==> right(*final(self), s) == right(*old(self), s),
    {
        let i = side_slot(side);
        self.0[i] = v;
    }
}

/// One board at one (L, T).
#[derive(Copy, Clone, Debug, PartialEq, Eq, Hash)]
pub struct Board {
    /// `squares[y][x]`.
    pub squares: [[Option<Piece>; 8]; 8],
    pub to_move: Color,
    pub castling: CastlingRights,
    /// The square a pawn skipped over with a double push on the previous half-move.
    pub en_passant: Option<(i8, i8)>,
}

/// Whether (x, y) lies on the 8x8 board.
pub open spec fn on_board(x: int, y: int) -> bool {
    0 <= x < 8 && 0 <= y < 8
}

/// The content of square (x, y), for (x, y) on the board.
pub open spec fn sq(b: Board, x: int, y: int) -> Option<Piece> {
    b.squares@[y]@[x]
}

/// The content of (x, y), `None` off the board.
pub open spec fn board_get(b: Board, x: int, y: int) -> Option<Piece> {
    if on_board(x, y) {
        sq(b, x, y)
    } else {
        None
    }
}

/// `b2` is `b1` with square (x, y) set to `p`, every other part unchanged.
pub open spec fn board_set(b1: Board, b2: Board, x: int, y: int, p: Option<Piece>) -> bool {
    &&& forall|i: int, j: int|
        on_board(i, j) ==> #[trigger] sq(b2, i, j) == (if i == x && j == y {
            p
        } else {
            sq(b1, i, j)
        })
    &&& b2.to_move == b1.to_move
    &&& b2.castling == b1.castling
    &&& b2.en_passant == b1.en_passant
}

/// The back-rank order of the standard start: R N B Q K B N R.
pub open spec fn back_rank(x: int) -> PieceKind {
    if x == 0 || x == 7 {
        PieceKind::Rook
    } else if x == 1 || x == 6 {
        PieceKind::Knight
    } else if x == 2 || x == 5 {
        PieceKind::Bishop
    } else if x == 3 {
        PieceKind::Queen
    } else {
        PieceKind::King
    }
}

/// The standard starting square contents.
pub open spec fn start_square(x: int, y: int) -> Option<Piece> {
    if y == 0 {
        Some(Piece { kind: back_rank(x), color: Color::White, has_moved: false })
    } else if y == 1 {
        Some(Piece { kind: PieceKind::Pawn, color: Color::White, has_moved: false })
    } else if y == 6 {
        Some(Piece { kind: PieceKind::Pawn, color: Color::Black, has_moved: false })
    } else if y == 7 {
        Some(Piece { kind: back_rank(x), color: Color::Black, has_moved: false })
    } else {
        None
    }
}

/// Whether square (x, y) holds the king of `color`.
pub open spec fn king_on(b: Board, x: int, y: int, color: Color) -> bool {
    sq(b, x, y) matches Some(p) && p.kind == PieceKind::King && p.color == color
}

/// Whether (x, y) comes before (x2, y2) in scan order (rank by rank, file by file).
pub open spec fn scan_before(x: int, y: int, x2: int, y2: int) -> bool {
    y < y2 || (y == y2 && x < x2)
}

/// Display character of a square.
pub open spec fn square_char(p: Option<Piece>) -> char {
    match p {
        Some(p) => if p.color == Color::White {
            kind_letter(p.kind)
        } else {
            kind_letter_lower(p.kind)
        },
        None => '.',
    }
}

/// The text of rank `y`: "<y+1> " then each square and a space, then a newline.
pub open spec fn rank_text(b: Board, y: int) -> Seq<char> {
    seq![crate::text::digit_char(y + 1), ' '] + Seq::new(16, |i: int|
        if i % 2 == 0 {
            square_char(sq(b, i / 2, y))
        } else {
            ' '
        }) + seq!['\n']
}

/// Ranks `y` down to 0, each on its line.
pub open spec fn ranks_text(b: Board, y: int) -> Seq<char>
    decreases y + 1,
{
    if y < 0 {
        seq![]
    } else {
        rank_text(b, y) + ranks_text(b, y - 1)
    }
}

/// The file legend under the board.
pub open spec fn files_text() -> Seq<char> {
    seq![' ', ' ', 'a', ' ', 'b', ' ', 'c', ' ', 'd', ' ', 'e', ' ', 'f', ' ', 'g', ' ', 'h', '\n']
}

/// The whole board as text, rank 8 at the top.
pub open spec fn board_text(b: Board) -> Seq<char> {
    ranks_text(b, 7) + files_text()
}

impl Board {
    /// A board with no pieces, no castling rights and no en-passant target.
    pub fn empty(to_move: Color) -> (b: Self)
        ensures
            forall|x: int, y: int| on_board(x, y) ==> #[trigger] sq(b, x, y) is None,
            b.to_move == to_move,
            forall|s: CastleSide| !right(b.castling, s),
            b.en_passant is None,
    {
        let row: [Option<Piece>; 8] = [None, None, None, None, None, None, None, None];
        Board {
            squares: [row, row, row, row, row, row, row, row],
            to_move,
            castling: CastlingRights::none(),
            en_passant: None,
        }
    }

    /// The piece on (x, y); `None` when (x, y) is off the board.
    pub fn get(&self, x: i8, y: i8) -> (r: Option<Piece>)
        ensures
            r == board_get(*self, x as int, y as int),
    {
        if !in_bounds(x, y) {
            return None;
        }
        self.squares[y as usize][x as usize]
    }

    /// Puts `p` on (x, y).
    pub fn set(&mut self, x: i8, y: i8, p: Option<Piece>)
        requires
            on_board(x as int, y as int),
        ensures
            board_set(*old(self), *final(self), x as int, y as int, p),
    {
        let mut row = self.squares[y as usize];
        row[x as usize] = p;
        self.squares[y as usize] = row;
    }

    /// The standard chess starting position, White to move, all castling rights.
    pub fn starting_position() -> (b: Self)
        ensures
            forall|x: int, y: int| on_board(x, y) ==> #[trigger] sq(b, x, y) == start_square(x, y),
            b.to_move == Color::White,
            forall|s: CastleSide| right(b.castling, s),
            b.en_passant is None,
    {
        let e = Self::empty(Color::White);
        let mut b = Board { castling: CastlingRights::all(), ..e };
        assert(forall|i: int, j: int| on_board(i, j) ==> #[trigger] sq(b, i, j) == sq(e, i, j));
        let back: [PieceKind; 8] = [
            PieceKind::Rook,
            PieceKind::Knight,
            PieceKind::Bishop,
            PieceKind::Queen,
            PieceKind::King,
            PieceKind::Bishop,
            PieceKind::Knight,
            PieceKind::Rook,
        ];
        let mut x: i8 = 0;
        while x < 8
            invariant
                0 <= x <= 8,
                forall|i: int| 0 <= i < 8 ==> back@[i] == back_rank(i),
                forall|i: int, j: int|
                    on_board(i, j) ==> #[trigger] sq(b, i, j) == (if i < x {
                        start_square(i, j)
                    } else {
                        None
                    }),
                b.to_move == Color::White,
                forall|s: CastleSide| right(b.castling, s),
                b.en_passant is None,
            decreases 8 - x,
        {
            let k = back[x as usize];
            b.set(x, 0, Some(Piece::new(k, Color::White)));
            b.set(x, 1, Some(Piece::new(PieceKind::Pawn, Color::White)));
            b.set(x, 6, Some(Piece::new(PieceKind::Pawn, Color::Black)));
            b.set(x, 7, Some(Piece::new(k, Color::Black)));
            x = x + 1;
        }
        b
    }

    /// The first square, in scan order, holding the king of `color`.
    pub fn find_king(&self, color: Color) -> (r: Option<(i8, i8)>)
        ensures
            r matches Some((x, y)) ==> on_board(x as int, y as int) && king_on(
                *self,
                x as int,
                y as int,
                color,
            ) && forall|i: int, j: int|
                on_board(i, j) && scan_before(i, j, x as int, y as int) ==> !king_on(
                    *self,
                    i,
                    j,
                    color,
                ),
            r is None ==> forall|i: int, j: int| on_board(i, j) ==> !king_on(*self, i, j, color),
    {
        let mut y: i8 = 0;
        while y < 8
            invariant
                0 <= y <= 8,
                forall|i: int, j: int| on_board(i, j) && j < y ==> !king_on(*self, i, j, color),
            decreases 8 - y,
        {
            let mut x: i8 = 0;
            while x < 8
                invariant
                    0 <= x <= 8,
                    0 <= y < 8,
                    forall|i: int, j: int|
                        on_board(i, j) && (j < y || (j == y && i < x)) ==> !king_on(
                            *self,
                            i,
                            j,
                            color,
                        ),
                decreases 8 - x,
            {
                if let Some(p) = self.squares[y as usize][x as usize] {
                    if p.kind == PieceKind::King && p.color == color {
                        return Some((x, y));
                    }
                }
                x = x + 1;
            }
            y = y + 1;
        }
        None
    }

    /// The board as text, rank 8 first, with a file legend.
    pub fn ascii(&self) -> (s: String)
        ensures
            s@ == board_text(*self),
    {
        let mut out: Vec<char> = Vec::new();
        let mut y: i8 = 7;
        while y >= 0
            invariant
                -1 <= y <= 7,
                out@ + ranks_text(*self, y as int) == ranks_text(*self, 7),
            decreases y + 1,
        {
            let ghost before = out@;
            push_digit(&mut out, (y + 1) as u64);
            out.push(' ');
            let mut x: i8 = 0;
            while x < 8
                invariant
                    0 <= x <= 8,
                    0 <= y <= 7,
                    out@ == before + seq![crate::text::digit_char(y + 1), ' '] + Seq::new(
                        2 * x as nat,
                        |i: int|
                            if i % 2 == 0 {
                                square_char(sq(*self, i / 2, y as int))
                            } else {
                                ' '
                            },
                    ),
                decreases 8 - x,
            {
                let c = match self.get(x, y) {
                    Some(p) => p.glyph(),
                    None => '.',
                };
                out.push(c);
                out.push(' ');
                proof {
                    let f = |i: int|
                        if i % 2 == 0 {
                            square_char(sq(*self, i / 2, y as int))
                        } else {
                            ' '
                        };
                    assert(Seq::new(2 * (x + 1) as nat, f) =~= Seq::new(2 * x as nat, f).push(
                        c,
                    ).push(' '));
                }
                x = x + 1;
            }
            out.push('\n');
            proof {
                assert(out@ =~= before + rank_text(*self, y as int));
                assert(ranks_text(*self, y as int) == rank_text(*self, y as int) + ranks_text(
                    *self,
                    y - 1,
                ));
                assert(out@ + ranks_text(*self, y - 1) =~= before + ranks_text(*self, y as int));
            }
            y = y - 1;
        }
        let legend: [char; 18] = [
            ' ',
            ' ',
            'a',
            ' ',
            'b',
            ' ',
            'c',
            ' ',
            'd',
            ' ',
            'e',
            ' ',
            'f',
            ' ',
            'g',
            ' ',
            'h',
            '\n',
        ];
        let mut i: usize = 0;
        let ghost before = out@;
        while i < 18
            invariant
                i <= 18,
                legend@ == files_text(),
                out@ == before + files_text().subrange(0, i as int),
            decreases 18 - i,
        {
            out.push(legend[i]);
            i = i + 1;
            proof {
                assert(files_text().subrange(0, i as int) =~= files_text().subrange(
                    0,
                    (i - 1) as int,
                ).push(files_text()[i - 1]));
            }
        }
        proof {
            assert(files_text().subrange(0, 18) =~= files_text());
            assert(ranks_text(*self, -1) =~= seq![]);
        }
        string_from_chars(&out)
    }
}

/// Two boards that agree on every square, the side to move, every castling right and
/// the en-passant target are the same board.
pub proof fn lemma_board_ext(b1: Board, b2: Board)
    requires
        forall|x: int, y: int| on_board(x, y) ==> #[trigger] sq(b1, x, y) == sq(b2, x, y),
        b1.to_move == b2.to_move,
        forall|s: CastleSide| right(b1.castling, s) == right(b2.castling, s),
        b1.en_passant == b2.en_passant,
    ensures
        b1 == b2,
{
    assert forall|y: int| 0 <= y < 8 implies b1.squares@[y] == b2.squares@[y] by {
        assert forall|x: int| 0 <= x < 8 implies b1.squares@[y]@[x] == b2.squares@[y]@[x] by {
            assert(sq(b1, x, y) == sq(b2, x, y));
        }
        assert(b1.squares@[y] =~= b2.squares@[y]);
    }
    assert(b1.squares =~= b2.squares);
    assert(right(b1.castling, CastleSide::WhiteKing) == right(b2.castling, CastleSide::WhiteKing));
    assert(right(b1.castling, CastleSide::WhiteQueen) == right(b2.castling, CastleSide::WhiteQueen));
    assert(right(b1.castling, CastleSide::BlackKing) == right(b2.castling, CastleSide::BlackKing));
    assert(right(b1.castling, CastleSide::BlackQueen) == right(b2.castling, CastleSide::BlackQueen));
    assert(b1.castling.0 =~= b2.castling.0);
}

/// Whether (x, y) lies on the 8x8 board.
pub fn in_bounds(x: i8, y: i8) -> (r: bool)
    ensures
        r == on_board(x as int, y as int),
{
    0 <= x && x < 8 && 0 <= y && y < 8
}

} // verus!
