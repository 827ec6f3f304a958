//! Colors, roles, pieces and moves.

use vstd::prelude::*;
use crate::square::Square;

verus! {

/// One of the two sides.
#[derive(Clone, Copy, Debug, PartialEq, Eq, Hash, Structural)]
pub enum Color {
    White,
    Black,
}

impl Color {
    /// The opposing side.
    pub open spec fn other_spec(self) -> Color {
        match self {
            Color::White => Color::Black,
            Color::Black => Color::White,
        }
    }

    /// The opposing side.
    #[verifier::when_used_as_spec(other_spec)]
    pub fn other(self) -> (c: Color)
        ensures
            c == self.other_spec(),
    {
        match self {
            Color::White => Color::Black,
            Color::Black => Color::White,
        }
    }

    /// `white` for White and `black` for Black.
    pub fn fold<T>(self, white: T, black: T) -> (r: T)
        ensures
            r == if self == Color::White {
                white
            } else {
                black
            },
    {
        match self {
            Color::White => white,
            Color::Black => black,
        }
    }

    /// White for `true`, Black for `false`.
    pub fn from_bool(white: bool) -> (c: Color)
        ensures
            c == if white {
                Color::White
            } else {
                Color::Black
            },
    {
        if white {
            Color::White
        } else {
            Color::Black
        }
    }

    /// Whether this is White.
    pub fn is_white(self) -> (b: bool)
        ensures
            b == (self == Color::White),
    {
        match self {
            Color::White => true,
            Color::Black => false,
        }
    }

    /// The letter of the side in position text: `w` or `b`.
    pub open spec fn char_spec(self) -> char {
        match self {
            Color::White => 'w',
            Color::Black => 'b',
        }
    }

    /// The letter of the side in position text: `w` or `b`.
    #[verifier::when_used_as_spec(char_spec)]
    pub fn char(self) -> (c: char)
        ensures
            c == self.char_spec(),
    {
        match self {
            Color::White => 'w',
            Color::Black => 'b',
        }
    }

    /// The pawn of this color.
    pub fn pawn(self) -> (p: Piece)
        ensures
            p == (Piece { color: self, role: Role::Pawn }),
    {
        Piece { color: self, role: Role::Pawn }
    }

    /// The knight of this color.
    pub fn knight(self) -> (p: Piece)
        ensures
            p == (Piece { color: self, role: Role::Knight }),
    {
        Piece { color: self, role: Role::Knight }
    }

    /// The bishop of this color.
    pub fn bishop(self) -> (p: Piece)
        ensures
            p == (Piece { color: self, role: Role::Bishop }),
    {
        Piece { color: self, role: Role::Bishop }
    }

    /// The rook of this color.
    pub fn rook(self) -> (p: Piece)
        ensures
            p == (Piece { color: self, role: Role::Rook }),
    {
        Piece { color: self, role: Role::Rook }
    }

    /// The queen of this color.
    pub fn queen(self) -> (p: Piece)
        ensures
            p == (Piece { color: self, role: Role::Queen }),
    {
        Piece { color: self, role: Role::Queen }
    }

    /// The king of this color.
    pub fn king(self) -> (p: Piece)
        ensures
            p == (Piece { color: self, role: Role::King }),
    {
        Piece { color: self, role: Role::King }
    }
}

/// The kind of a piece.
#[derive(Clone, Copy, Debug, PartialEq, Eq, Hash, Structural)]
pub enum Role {
    Pawn,
    Knight,
    Bishop,
    Rook,
    Queen,
    King,
}

impl Role {
    /// The lower-case letter of the role.
    pub open spec fn char_spec(self) -> char {
        match self {
            Role::Pawn => 'p',
            Role::Knight => 'n',
            Role::Bishop => 'b',
            Role::Rook => 'r',
            Role::Queen => 'q',
            Role::King => 'k',
        }
    }

    /// The upper-case letter of the role.
    pub open spec fn upper_char_spec(self) -> char {
        match self {
            Role::Pawn => 'P',
            Role::Knight => 'N',
            Role::Bishop => 'B',
            Role::Rook => 'R',
            Role::Queen => 'Q',
            Role::King => 'K',
        }
    }

    /// The role that a letter of either case names.
    pub open spec fn from_char_spec(c: char) -> Option<Role> {
        if c == 'p' || c == 'P' {
            Some(Role::Pawn)
        } else if c == 'n' || c == 'N' {
            Some(Role::Knight)
        } else if c == 'b' || c == 'B' {
            Some(Role::Bishop)
        } else if c == 'r' || c == 'R' {
            Some(Role::Rook)
        } else if c == 'q' || c == 'Q' {
            Some(Role::Queen)
        } else if c == 'k' || c == 'K' {
            Some(Role::King)
        } else {
            None
        }
    }

    /// The lower-case letter of the role.
    #[verifier::when_used_as_spec(char_spec)]
    pub fn char(self) -> (c: char)
        ensures
            c == self.char_spec(),
    {
        match self {
            Role::Pawn => 'p',
            Role::Knight => 'n',
            Role::Bishop => 'b',
            Role::Rook => 'r',
            Role::Queen => 'q',
            Role::King => 'k',
        }
    }

    /// The upper-case letter of the role.
    #[verifier::when_used_as_spec(upper_char_spec)]
    pub fn upper_char(self) -> (c: char)
        ensures
            c == self.upper_char_spec(),
    {
        match self {
            Role::Pawn => 'P',
            Role::Knight => 'N',
            Role::Bishop => 'B',
            Role::Rook => 'R',
            Role::Queen => 'Q',
            Role::King => 'K',
        }
    }

    /// The role that a letter of either case names.
    pub fn from_char(c: char) -> (r: Option<Role>)
        ensures
            r == Role::from_char_spec(c),
    {
        if c == 'p' || c == 'P' {
            Some(Role::Pawn)
        } else if c == 'n' || c == 'N' {
            Some(Role::Knight)
        } else if c == 'b' || c == 'B' {
            Some(Role::Bishop)
        } else if c == 'r' || c == 'R' {
            Some(Role::Rook)
        } else if c == 'q' || c == 'Q' {
            Some(Role::Queen)
        } else if c == 'k' || c == 'K' {
            Some(Role::King)
        } else {
            None
        }
    }

    /// The piece of this role and the given color.
    pub fn of(self, color: Color) -> (p: Piece)
        ensures
            p == (Piece { color, role: self }),
    {
        Piece { color, role: self }
    }
}

/// A piece: a role of one color.
#[derive(Clone, Copy, Debug, PartialEq, Eq, Hash, Structural)]
pub struct Piece {
    pub color: Color,
    pub role: Role,
}

impl Piece {
    /// The letter of the piece in position text: upper case for White, lower case for Black.
    pub open spec fn char_spec(self) -> char {
        match self.color {
            Color::White => self.role.upper_char_spec(),
            Color::Black => self.role.char_spec(),
        }
    }

    /// The piece that a letter names: upper case for White, lower case for Black.
    pub open spec fn from_char_spec(c: char) -> Option<Piece> {
        match Role::from_char_spec(c) {
            Some(role) => Some(
                Piece {
                    color: if c == role.upper_char_spec() {
                        Color::White
                    } else {
                        Color::Black
                    },
                    role,
                },
            ),
            None => None,
        }
    }

    /// The letter of the piece in position text: upper case for White, lower case for
    /// Black.
    #[verifier::when_used_as_spec(char_spec)]
    pub fn char(self) -> (c: char)
        ensures
            c == self.char_spec(),
    {
        match self.color {
            Color::White => self.role.upper_char(),
            Color::Black => self.role.char(),
        }
    }

    /// The piece that a letter names: upper case for White, lower case for Black.
    pub fn from_char(c: char) -> (r: Option<Piece>)
        ensures
            r == Piece::from_char_spec(c),
    {
        match Role::from_char(c) {
            Some(role) => Some(Piece { color: Color::from_bool(c == role.upper_char()), role }),
            None => None,
        }
    }
}

/// A piece's letter names that piece.
pub proof fn lemma_piece_char_round_trip(p: Piece)
    ensures
        Piece::from_char_spec(p.char_spec()) == Some(p),
{
}

/// A move, with what the position needs to carry it out.
#[derive(Clone, Copy, Debug, PartialEq, Eq, Hash, Structural)]
pub enum Move {
    /// A piece of `role` goes from `from` to `to`, taking a piece of role `capture` if
    /// there is one, and becoming a piece of role `promotion` if there is one.
    Normal { role: Role, from: Square, capture: Option<Role>, to: Square, promotion: Option<Role> },
    /// A pawn on `from` takes, by going to `to`, the pawn that has just passed over `to`.
    EnPassant { from: Square, to: Square },
    /// The king on `king` castles with the rook on `rook`.
    Castle { king: Square, rook: Square },
    /// A piece of `role` is dropped on `to`.
    Put { role: Role, to: Square },
    /// The side to move passes.
    Null,
}

impl Move {
    /// Whether the squares of the move are squares of the board.
    pub open spec fn wf(self) -> bool {
        match self {
            Move::Normal { from, to, .. } => from.wf() && to.wf(),
            Move::EnPassant { from, to } => from.wf() && to.wf(),
            Move::Castle { king, rook } => king.wf() && rook.wf(),
            Move::Put { to, .. } => to.wf(),
            Move::Null => true,
        }
    }

    /// Whether the move is a capture in passing.
    pub fn is_en_passant(&self) -> (b: bool)
        ensures
            b == (*self is EnPassant),
    {
        match self {
            Move::EnPassant { .. } => true,
            _ => false,
        }
    }

    /// Whether the move is castling.
    pub fn is_castle(&self) -> (b: bool)
        ensures
            b == (*self is Castle),
    {
        match self {
            Move::Castle { .. } => true,
            _ => false,
        }
    }
}

/// How castling moves are written in coordinate notation.
#[derive(Clone, Copy, Debug, PartialEq, Eq, Hash, Structural)]
pub enum CastlingMode {
    /// The king goes two files towards the rook.
    Standard,
    /// The king goes onto the rook.
    Chess960,
}

/// The side of the board on which a king castles.
#[derive(Clone, Copy, Debug, PartialEq, Eq, Hash, Structural)]
pub enum CastlingSide {
    KingSide,
    QueenSide,
}

impl CastlingSide {
    /// The side towards the h-file for `true`, towards the a-file for `false`.
    pub fn from_king_side(king_side: bool) -> (s: CastlingSide)
        ensures
            s == if king_side {
                CastlingSide::KingSide
            } else {
                CastlingSide::QueenSide
            },
    {
        if king_side {
            CastlingSide::KingSide
        } else {
            CastlingSide::QueenSide
        }
    }

    /// The file on which the king stands after castling: g or c.
    pub open spec fn king_to_file_spec(self) -> int {
        match self {
            CastlingSide::KingSide => 6,
            CastlingSide::QueenSide => 2,
        }
    }

    /// The file on which the rook stands after castling: f or d.
    pub open spec fn rook_to_file_spec(self) -> int {
        match self {
            CastlingSide::KingSide => 5,
            CastlingSide::QueenSide => 3,
        }
    }

    /// The file on which the king stands after castling: g or c.
    pub fn king_to_file(self) -> (f: i8)
        ensures
            f == self.king_to_file_spec(),
    {
        match self {
            CastlingSide::KingSide => 6,
            CastlingSide::QueenSide => 2,
        }
    }

    /// The file on which the rook stands after castling: f or d.
    pub fn rook_to_file(self) -> (f: i8)
        ensures
            f == self.rook_to_file_spec(),
    {
        match self {
            CastlingSide::KingSide => 5,
            CastlingSide::QueenSide => 3,
        }
    }
}

} // verus!
