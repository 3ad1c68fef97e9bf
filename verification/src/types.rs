//! Core value types: colors, piece kinds, pieces and 4D coordinates.
//!
//! Coordinates are `(l, t, x, y)`: timeline index, time index on that
//! timeline, file (0..=7) and rank (0..=7).

use vstd::prelude::*;

verus! {

/// One of the two players.
#[derive(Copy, Clone, Debug, PartialEq, Eq, Hash, Structural)]
pub enum Color {
    White,
    Black,
}

/// The other color.
pub open spec fn opposite(c: Color) -> Color {
    match c {
        Color::White => Color::Black,
        Color::Black => Color::White,
    }
}

/// The forward direction of `c` along the rank and time axes: +1 for White, -1 for Black.
pub open spec fn color_sign(c: Color) -> int {
    match c {
        Color::White => 1,
        Color::Black => -1,
    }
}

impl Color {
    /// The opposing color.
    pub fn flip(self) -> (r: Self)
        ensures
            r == opposite(self),
    {
        match self {
            Color::White => Color::Black,
            Color::Black => Color::White,
        }
    }

    /// `1` for White, `-1` for Black.
    pub fn sign(self) -> (r: i32)
        ensures
            r == color_sign(self),
    {
        match self {
            Color::White => 1,
            Color::Black => -1,
        }
    }
}

/// Piece species, including the variant pieces of the 5D game: Unicorn
/// (3-axis slider), Dragon (4-axis slider), Princess (Bishop + Knight) and
/// Brawn (a pawn that also captures along the time axis).
#[derive(Copy, Clone, Debug, PartialEq, Eq, Hash, Structural)]
pub enum PieceKind {
    Pawn,
    Knight,
    Bishop,
    Rook,
    Queen,
    King,
    Unicorn,
    Dragon,
    Princess,
    Brawn,
}

/// The upper-case letter that names a piece kind.
pub open spec fn kind_letter(k: PieceKind) -> char {
    match k {
        PieceKind::Pawn => 'P',
        PieceKind::Knight => 'N',
        PieceKind::Bishop => 'B',
        PieceKind::Rook => 'R',
        PieceKind::Queen => 'Q',
        PieceKind::King => 'K',
        PieceKind::Unicorn => 'U',
        PieceKind::Dragon => 'D',
        PieceKind::Princess => 'S',
        PieceKind::Brawn => 'W',
    }
}

/// The lower-case letter that names a piece kind.
pub open spec fn kind_letter_lower(k: PieceKind) -> char {
    match k {
        PieceKind::Pawn => 'p',
        PieceKind::Knight => 'n',
        PieceKind::Bishop => 'b',
        PieceKind::Rook => 'r',
        PieceKind::Queen => 'q',
        PieceKind::King => 'k',
        PieceKind::Unicorn => 'u',
        PieceKind::Dragon => 'd',
        PieceKind::Princess => 's',
        PieceKind::Brawn => 'w',
    }
}

/// Pawns and Brawns move like pawns (forward pushes, promotion).
pub open spec fn pawnlike(k: PieceKind) -> bool {
    k == PieceKind::Pawn || k == PieceKind::Brawn
}

impl PieceKind {
    /// The upper-case letter of this kind.
    pub fn letter(self) -> (c: char)
        ensures
            c == kind_letter(self),
    {
        match self {
            PieceKind::Pawn => 'P',
            PieceKind::Knight => 'N',
            PieceKind::Bishop => 'B',
            PieceKind::Rook => 'R',
            PieceKind::Queen => 'Q',
            PieceKind::King => 'K',
            PieceKind::Unicorn => 'U',
            PieceKind::Dragon => 'D',
            PieceKind::Princess => 'S',
            PieceKind::Brawn => 'W',
        }
    }

    /// The kind named by a letter, in either case; `None` for any other character.
    pub fn from_letter(c: char) -> (r: Option<Self>)
        ensures
            r matches Some(k) ==> kind_letter(k) == c || kind_letter_lower(k) == c,
            r is None ==> forall|k: PieceKind| kind_letter(k) != c && kind_letter_lower(k) != c,
    {
        match c {
            'P' | 'p' => Some(PieceKind::Pawn),
            'N' | 'n' => Some(PieceKind::Knight),
            'B' | 'b' => Some(PieceKind::Bishop),
            'R' | 'r' => Some(PieceKind::Rook),
            'Q' | 'q' => Some(PieceKind::Queen),
            'K' | 'k' => Some(PieceKind::King),
            'U' | 'u' => Some(PieceKind::Unicorn),
            'D' | 'd' => Some(PieceKind::Dragon),
            'S' | 's' => Some(PieceKind::Princess),
            'W' | 'w' => Some(PieceKind::Brawn),
            _ => None,
        }
    }

    /// Whether this kind is a Pawn or a Brawn.
    pub fn is_pawnlike(self) -> (r: bool)
        ensures
            r == pawnlike(self),
    {
        match self {
            PieceKind::Pawn | PieceKind::Brawn => true,
            _ => false,
        }
    }
}

/// A piece on a square.
#[derive(Copy, Clone, Debug, PartialEq, Eq, Hash, Structural)]
pub struct Piece {
    pub kind: PieceKind,
    pub color: Color,
    pub has_moved: bool,
}

impl Piece {
    /// A piece that has not moved yet.
    pub fn new(kind: PieceKind, color: Color) -> (p: Self)
        ensures
            p == (Piece { kind, color, has_moved: false }),
    {
        Piece { kind, color, has_moved: false }
    }

    /// The display letter: upper case for White, lower case for Black.
    pub fn glyph(&self) -> (c: char)
        ensures
            c == (if self.color == Color::White {
                kind_letter(self.kind)
            } else {
                kind_letter_lower(self.kind)
            }),
    {
        let c = self.kind.letter();
        match self.color {
            Color::White => c,
            Color::Black => match self.kind {
                PieceKind::Pawn => 'p',
                PieceKind::Knight => 'n',
                PieceKind::Bishop => 'b',
                PieceKind::Rook => 'r',
                PieceKind::Queen => 'q',
                PieceKind::King => 'k',
                PieceKind::Unicorn => 'u',
                PieceKind::Dragon => 'd',
                PieceKind::Princess => 's',
                PieceKind::Brawn => 'w',
            },
        }
    }
}

/// Identifier of one board: (timeline, time).
#[derive(Copy, Clone, Debug, PartialEq, Eq, Hash, PartialOrd, Ord, Structural)]
pub struct BoardId {
    pub l: i32,
    pub t: i32,
}

/// A 4D coordinate: board plus file and rank.
#[derive(Copy, Clone, Debug, PartialEq, Eq, Hash, Structural)]
pub struct Coord {
    pub l: i32,
    pub t: i32,
    pub x: i8,
    pub y: i8,
}

impl Coord {
    pub fn new(l: i32, t: i32, x: i8, y: i8) -> (c: Self)
        ensures
            c == (Coord { l, t, x, y }),
    {
        Coord { l, t, x, y }
    }

    /// The board this coordinate lies on.
    pub fn board(&self) -> (b: BoardId)
        ensures
            b == (BoardId { l: self.l, t: self.t }),
    {
        BoardId { l: self.l, t: self.t }
    }
}

} // verus!
