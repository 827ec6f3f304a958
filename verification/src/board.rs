//! The placement of the pieces.

use vstd::prelude::*;
use vstd::string::StringSliceAdditionalSpecFns;
use crate::attacks::{
    bishop_attacks, king_attacks, knight_attacks, pawn_attacks, piece_attack, rook_attacks,
    between_spec, clear_path,
};
use crate::bitboard::{Bitboard, group_bitboard};
use crate::placement::{board_text, parse_board_spec};
use crate::square::{Square, on_board, file_of, rank_of, at};
use crate::text::{chars_of, string_of};
use crate::types::{Color, Piece, Role};

verus! {

broadcast use group_bitboard;

/// The placement of the pieces: the squares of each role, the squares of each color, and
/// the squares whose piece came from a promotion.
#[derive(Clone, Copy, Debug, PartialEq, Eq, Hash, Structural)]
pub struct Board {
    pub pawns: Bitboard,
    pub knights: Bitboard,
    pub bishops: Bitboard,
    pub rooks: Bitboard,
    pub queens: Bitboard,
    pub kings: Bitboard,
    pub white: Bitboard,
    pub black: Bitboard,
    pub promoted: Bitboard,
}

/// The piece that stands on the square with index `s` when a game begins.
pub open spec fn initial_piece(s: int) -> Option<Piece> {
    let f = file_of(s);
    let back = if f == 0 || f == 7 {
        Role::Rook
    } else if f == 1 || f == 6 {
        Role::Knight
    } else if f == 2 || f == 5 {
        Role::Bishop
    } else if f == 3 {
        Role::Queen
    } else {
        Role::King
    };
    if !on_board(s) {
        None
    } else if rank_of(s) == 0 {
        Some(Piece { color: Color::White, role: back })
    } else if rank_of(s) == 1 {
        Some(Piece { color: Color::White, role: Role::Pawn })
    } else if rank_of(s) == 6 {
        Some(Piece { color: Color::Black, role: Role::Pawn })
    } else if rank_of(s) == 7 {
        Some(Piece { color: Color::Black, role: back })
    } else {
        None
    }
}

impl Board {
    /// The squares that hold a piece of `role`.
    pub open spec fn by_role_spec(self, role: Role) -> Bitboard {
        match role {
            Role::Pawn => self.pawns,
            Role::Knight => self.knights,
            Role::Bishop => self.bishops,
            Role::Rook => self.rooks,
            Role::Queen => self.queens,
            Role::King => self.kings,
        }
    }

    /// The squares that hold a piece of `color`.
    pub open spec fn by_color_spec(self, color: Color) -> Bitboard {
        match color {
            Color::White => self.white,
            Color::Black => self.black,
        }
    }

    /// The squares that hold `piece`.
    pub open spec fn by_piece_spec(self, piece: Piece) -> Bitboard {
        self.by_color_spec(piece.color).intersect_spec(self.by_role_spec(piece.role))
    }

    /// The squares that hold a piece.
    pub open spec fn occupied_spec(self) -> Bitboard {
        self.white.union_spec(self.black)
    }

    /// The role of the piece on the square with index `s`, if there is one.
    pub open spec fn role_at_spec(self, s: int) -> Option<Role> {
        if self.pawns.has(s) {
            Some(Role::Pawn)
        } else if self.knights.has(s) {
            Some(Role::Knight)
        } else if self.bishops.has(s) {
            Some(Role::Bishop)
        } else if self.rooks.has(s) {
            Some(Role::Rook)
        } else if self.queens.has(s) {
            Some(Role::Queen)
        } else if self.kings.has(s) {
            Some(Role::King)
        } else {
            None
        }
    }

    /// The color of the piece on the square with index `s`, if there is one.
    pub open spec fn color_at_spec(self, s: int) -> Option<Color> {
        if self.white.has(s) {
            Some(Color::White)
        } else if self.black.has(s) {
            Some(Color::Black)
        } else {
            None
        }
    }

    /// The piece on the square with index `s`, if there is one.
    pub open spec fn piece_at_spec(self, s: int) -> Option<Piece> {
        match self.role_at_spec(s) {
            Some(role) => match self.color_at_spec(s) {
                Some(color) => Some(Piece { color, role }),
                None => None,
            },
            None => None,
        }
    }

    /// What the invariant asks of one square: it has at most one color and at most one
    /// role, a color exactly if it has a role, and no promotion mark without a piece.
    pub open spec fn square_ok(self, s: int) -> bool {
        let p = self.pawns.has(s);
        let n = self.knights.has(s);
        let b = self.bishops.has(s);
        let r = self.rooks.has(s);
        let q = self.queens.has(s);
        let k = self.kings.has(s);
        let w = self.white.has(s);
        let l = self.black.has(s);
        &&& !(w && l)
        &&& (w || l) <==> (p || n || b || r || q || k)
        &&& p ==> !(n || b || r || q || k)
        &&& n ==> !(b || r || q || k)
        &&& b ==> !(r || q || k)
        &&& r ==> !(q || k)
        &&& q ==> !k
        &&& self.promoted.has(s) ==> (w || l)
    }

    /// The invariant of the type.
    pub open spec fn wf(self) -> bool {
        forall|s: int|
            #![trigger self.pawns.has(s)]
            #![trigger self.knights.has(s)]
            #![trigger self.bishops.has(s)]
            #![trigger self.rooks.has(s)]
            #![trigger self.queens.has(s)]
            #![trigger self.kings.has(s)]
            #![trigger self.white.has(s)]
            #![trigger self.black.has(s)]
            #![trigger self.promoted.has(s)]
            self.square_ok(s)
    }

    /// Whether the placement can occur in a game: the invariant holds, neither side has
    /// two kings, and no pawn stands on the first or the eighth rank.
    pub open spec fn valid(self) -> bool {
        &&& self.wf()
        &&& forall|s: int, t: int|
            #![trigger self.kings.has(s), self.kings.has(t)]
            self.kings.has(s) && self.kings.has(t) && self.color_at_spec(s) == self.color_at_spec(
                t,
            ) ==> s == t
        &&& forall|s: int| #![trigger self.pawns.has(s)] self.pawns.has(s) ==> 1 <= rank_of(s) <= 6
    }

    /// The square of the king of `color`, if there is exactly one.
    pub open spec fn is_king_of(self, color: Color, s: int) -> bool {
        self.piece_at_spec(s) == Some(Piece { color, role: Role::King })
    }

    /// Whether `color` has a king on the board.
    pub open spec fn has_king(self, color: Color) -> bool {
        exists|s: int| self.is_king_of(color, s)
    }

    /// The index of the square of the king of `color`.
    pub open spec fn king_spec(self, color: Color) -> int {
        choose|s: int| self.is_king_of(color, s)
    }

    /// The placement with the square `s` emptied.
    pub open spec fn removed_spec(self, s: int) -> Board {
        Board {
            pawns: self.pawns.without_spec(s),
            knights: self.knights.without_spec(s),
            bishops: self.bishops.without_spec(s),
            rooks: self.rooks.without_spec(s),
            queens: self.queens.without_spec(s),
            kings: self.kings.without_spec(s),
            white: self.white.without_spec(s),
            black: self.black.without_spec(s),
            promoted: self.promoted.without_spec(s),
        }
    }

    /// The placement with `piece` on the square `s`, in place of what stood there, marked
    /// as promoted or not.
    pub open spec fn put_spec(self, s: int, piece: Piece, promoted: bool) -> Board {
        let b = self.removed_spec(s);
        Board {
            pawns: if piece.role == Role::Pawn {
                b.pawns.with_spec(s)
            } else {
                b.pawns
            },
            knights: if piece.role == Role::Knight {
                b.knights.with_spec(s)
            } else {
                b.knights
            },
            bishops: if piece.role == Role::Bishop {
                b.bishops.with_spec(s)
            } else {
                b.bishops
            },
            rooks: if piece.role == Role::Rook {
                b.rooks.with_spec(s)
            } else {
                b.rooks
            },
            queens: if piece.role == Role::Queen {
                b.queens.with_spec(s)
            } else {
                b.queens
            },
            kings: if piece.role == Role::King {
                b.kings.with_spec(s)
            } else {
                b.kings
            },
            white: if piece.color == Color::White {
                b.white.with_spec(s)
            } else {
                b.white
            },
            black: if piece.color == Color::Black {
                b.black.with_spec(s)
            } else {
                b.black
            },
            promoted: if promoted {
                b.promoted.with_spec(s)
            } else {
                b.promoted
            },
        }
    }

    /// Whether the piece on `a`, if there is one, attacks `b` when the squares of `occ`
    /// are occupied.
    pub open spec fn attacks_spec(self, a: int, occ: Bitboard, b: int) -> bool {
        match self.piece_at_spec(a) {
            Some(piece) => piece_attack(piece, a, occ, b),
            None => false,
        }
    }

    /// Whether a piece of `color` attacks `b` when the squares of `occ` are occupied.
    pub open spec fn attacked_by(self, color: Color, occ: Bitboard, b: int) -> bool {
        exists|a: int|
            #![trigger self.attacks_spec(a, occ, b)]
            self.color_at_spec(a) == Some(color) && self.attacks_spec(a, occ, b)
    }

    /// Emptying a square keeps the invariant and changes no other square.
    pub proof fn lemma_removed(self, s: int)
        requires
            self.wf(),
            on_board(s),
        ensures
            self.removed_spec(s).wf(),
            forall|t: int|
                #![trigger self.removed_spec(s).piece_at_spec(t)]
                self.removed_spec(s).piece_at_spec(t) == if t == s {
                    None
                } else {
                    self.piece_at_spec(t)
                },
            forall|t: int|
                #![trigger self.removed_spec(s).promoted.has(t)]
                self.removed_spec(s).promoted.has(t) <==> (t != s && self.promoted.has(t)),
    {
    }

    /// Placing a piece keeps the invariant and changes no other square.
    pub proof fn lemma_put(self, s: int, piece: Piece, promoted: bool)
        requires
            self.wf(),
            on_board(s),
        ensures
            self.put_spec(s, piece, promoted).wf(),
            forall|t: int|
                #![trigger self.put_spec(s, piece, promoted).piece_at_spec(t)]
                self.put_spec(s, piece, promoted).piece_at_spec(t) == if t == s {
                    Some(piece)
                } else {
                    self.piece_at_spec(t)
                },
            forall|t: int|
                #![trigger self.put_spec(s, piece, promoted).promoted.has(t)]
                self.put_spec(s, piece, promoted).promoted.has(t) <==> if t == s {
                    promoted
                } else {
                    self.promoted.has(t)
                },
    {
        self.lemma_removed(s);
    }

    /// Two placements that satisfy the invariant, with the same piece and the same
    /// promotion mark on every square, are equal.
    pub proof fn lemma_ext(self, other: Board)
        requires
            self.wf(),
            other.wf(),
            forall|s: int| on_board(s) ==> self.piece_at_spec(s) == other.piece_at_spec(s),
            forall|s: int| on_board(s) ==> (self.promoted.has(s) <==> other.promoted.has(s)),
        ensures
            self == other,
    {
        assert forall|s: int| on_board(s) implies (self.pawns.has(s) <==> other.pawns.has(s)) && (
        self.knights.has(s) <==> other.knights.has(s)) && (self.bishops.has(s)
            <==> other.bishops.has(s)) && (self.rooks.has(s) <==> other.rooks.has(s)) && (
        self.queens.has(s) <==> other.queens.has(s)) && (self.kings.has(s) <==> other.kings.has(
            s,
        )) && (self.white.has(s) <==> other.white.has(s)) && (self.black.has(s)
            <==> other.black.has(s)) by {
            assert(self.piece_at_spec(s) == other.piece_at_spec(s));
        }
        self.pawns.lemma_ext(other.pawns);
        self.knights.lemma_ext(other.knights);
        self.bishops.lemma_ext(other.bishops);
        self.rooks.lemma_ext(other.rooks);
        self.queens.lemma_ext(other.queens);
        self.kings.lemma_ext(other.kings);
        self.white.lemma_ext(other.white);
        self.black.lemma_ext(other.black);
        self.promoted.lemma_ext(other.promoted);
    }

    /// The board without pieces.
    pub open spec fn empty_spec() -> Board {
        Board {
            pawns: Bitboard::empty_spec(),
            knights: Bitboard::empty_spec(),
            bishops: Bitboard::empty_spec(),
            rooks: Bitboard::empty_spec(),
            queens: Bitboard::empty_spec(),
            kings: Bitboard::empty_spec(),
            white: Bitboard::empty_spec(),
            black: Bitboard::empty_spec(),
            promoted: Bitboard::empty_spec(),
        }
    }

    /// The board without pieces.
    pub fn empty() -> (b: Board)
        ensures
            b == Board::empty_spec(),
            b.wf(),
            b.valid(),
            forall|s: int| b.piece_at_spec(s) is None,
            b.promoted == Bitboard::empty_spec(),
            b.occupied_spec().is_empty_spec(),
    {
        let e = Bitboard::empty();
        let b = Board {
            pawns: e,
            knights: e,
            bishops: e,
            rooks: e,
            queens: e,
            kings: e,
            white: e,
            black: e,
            promoted: e,
        };
        proof {
            assert(0u64 | 0u64 == 0u64) by (bit_vector);
        }
        b
    }

    /// The board as it stands when a game begins.
    pub fn initial() -> (b: Board)
        ensures
            b.valid(),
            forall|s: int| b.piece_at_spec(s) == initial_piece(s),
            b.promoted == Bitboard::empty_spec(),
    {
        let mut b = Board::empty();
        let mut f: i8 = 0;
        while f < 8
            invariant
                0 <= f <= 8,
                b.wf(),
                b.promoted == Bitboard::empty_spec(),
                forall|s: int|
                    b.piece_at_spec(s) == if file_of(s) < f {
                        initial_piece(s)
                    } else {
                        None
                    },
            decreases 8 - f,
        {
            let role = if f == 0 || f == 7 {
                Role::Rook
            } else if f == 1 || f == 6 {
                Role::Knight
            } else if f == 2 || f == 5 {
                Role::Bishop
            } else if f == 3 {
                Role::Queen
            } else {
                Role::King
            };
            let s0 = Square::new(f as u8);
            let s1 = Square::new((f + 8) as u8);
            let s6 = Square::new((f + 48) as u8);
            let s7 = Square::new((f + 56) as u8);
            let ghost b0 = b;
            b.set_piece_at(s0, Piece { color: Color::White, role }, false);
            let ghost b1 = b;
            b.set_piece_at(s1, Piece { color: Color::White, role: Role::Pawn }, false);
            let ghost b2 = b;
            b.set_piece_at(s6, Piece { color: Color::Black, role: Role::Pawn }, false);
            let ghost b3 = b;
            b.set_piece_at(s7, Piece { color: Color::Black, role }, false);
            proof {
                Bitboard::empty_spec().lemma_ext(b.promoted);
                assert forall|s: int|
                    b.piece_at_spec(s) == if file_of(s) < f + 1 {
                        initial_piece(s)
                    } else {
                        None
                    } by {
                    assert(b.piece_at_spec(s) == if s == s7.idx() {
                        Some(Piece { color: Color::Black, role })
                    } else {
                        b3.piece_at_spec(s)
                    });
                    assert(b3.piece_at_spec(s) == if s == s6.idx() {
                        Some(Piece { color: Color::Black, role: Role::Pawn })
                    } else {
                        b2.piece_at_spec(s)
                    });
                    assert(b2.piece_at_spec(s) == if s == s1.idx() {
                        Some(Piece { color: Color::White, role: Role::Pawn })
                    } else {
                        b1.piece_at_spec(s)
                    });
                    assert(b1.piece_at_spec(s) == if s == s0.idx() {
                        Some(Piece { color: Color::White, role })
                    } else {
                        b0.piece_at_spec(s)
                    });
                }
            }
            f = f + 1;
        }
        proof {
            assert forall|s: int| b.piece_at_spec(s) == initial_piece(s) by {
                if !on_board(s) {
                    assert(!b.pawns.has(s));
                }
            }
            assert forall|s: int, t: int|
                b.kings.has(s) && b.kings.has(t) && b.color_at_spec(s) == b.color_at_spec(
                    t,
                ) implies s == t by {
                assert(b.piece_at_spec(s) == initial_piece(s));
                assert(b.piece_at_spec(t) == initial_piece(t));
            }
            assert forall|s: int| b.pawns.has(s) implies 1 <= rank_of(s) <= 6 by {
                assert(b.piece_at_spec(s) == initial_piece(s));
            }
        }
        b
    }

    /// The board that a placement text describes, if it describes one.
    pub fn from_board_fen(text: &str) -> (r: Option<Board>)
        ensures
            r == parse_board_spec(text.spec_bytes()),
            r is Some ==> r.unwrap().wf(),
    {
        crate::placement::read_board(text.as_bytes())
    }

    /// The placement as text, with the marks of promoted pieces if `promoted`.
    pub fn board_fen(&self, promoted: bool) -> (s: String)
        ensures
            s@ == chars_of(board_text(*self, promoted)),
    {
        let mut out: Vec<u8> = Vec::new();
        crate::placement::write_board(self, promoted, &mut out);
        assert(out@ =~= board_text(*self, promoted));
        string_of(&out)
    }

    /// The squares of the pawns.
    pub fn pawns(&self) -> (r: Bitboard)
        ensures
            r == self.pawns,
    {
        self.pawns
    }

    /// The squares of the knights.
    pub fn knights(&self) -> (r: Bitboard)
        ensures
            r == self.knights,
    {
        self.knights
    }

    /// The squares of the bishops.
    pub fn bishops(&self) -> (r: Bitboard)
        ensures
            r == self.bishops,
    {
        self.bishops
    }

    /// The squares of the rooks.
    pub fn rooks(&self) -> (r: Bitboard)
        ensures
            r == self.rooks,
    {
        self.rooks
    }

    /// The squares of the queens.
    pub fn queens(&self) -> (r: Bitboard)
        ensures
            r == self.queens,
    {
        self.queens
    }

    /// The squares of the kings.
    pub fn kings(&self) -> (r: Bitboard)
        ensures
            r == self.kings,
    {
        self.kings
    }

    /// The squares of the pieces of White.
    pub fn white(&self) -> (r: Bitboard)
        ensures
            r == self.white,
    {
        self.white
    }

    /// The squares of the pieces of Black.
    pub fn black(&self) -> (r: Bitboard)
        ensures
            r == self.black,
    {
        self.black
    }

    /// The squares whose piece came from a promotion.
    pub fn promoted(&self) -> (r: Bitboard)
        ensures
            r == self.promoted,
    {
        self.promoted
    }

    /// The squares of the rooks, bishops and queens.
    pub fn sliders(&self) -> (r: Bitboard)
        ensures
            r == self.bishops.union_spec(self.rooks).union_spec(self.queens),
    {
        self.bishops.union(self.rooks).union(self.queens)
    }

    /// The squares of the rooks and queens.
    pub fn rooks_and_queens(&self) -> (r: Bitboard)
        ensures
            r == self.rooks.union_spec(self.queens),
    {
        self.rooks.union(self.queens)
    }

    /// The squares of the bishops and queens.
    pub fn bishops_and_queens(&self) -> (r: Bitboard)
        ensures
            r == self.bishops.union_spec(self.queens),
    {
        self.bishops.union(self.queens)
    }

    /// The squares that hold a piece.
    pub fn occupied(&self) -> (r: Bitboard)
        ensures
            r == self.occupied_spec(),
    {
        self.white.union(self.black)
    }

    /// The squares that hold a piece of `role`.
    pub fn by_role(&self, role: Role) -> (r: Bitboard)
        ensures
            r == self.by_role_spec(role),
            self.wf() ==> forall|s: int| r.has(s) <==> self.role_at_spec(s) == Some(role),
    {
        match role {
            Role::Pawn => self.pawns,
            Role::Knight => self.knights,
            Role::Bishop => self.bishops,
            Role::Rook => self.rooks,
            Role::Queen => self.queens,
            Role::King => self.kings,
        }
    }

    /// The squares that hold a piece of `color`.
    pub fn by_color(&self, color: Color) -> (r: Bitboard)
        ensures
            r == self.by_color_spec(color),
            self.wf() ==> forall|s: int| r.has(s) <==> self.color_at_spec(s) == Some(color),
    {
        match color {
            Color::White => self.white,
            Color::Black => self.black,
        }
    }

    /// The squares that hold `piece`.
    pub fn by_piece(&self, piece: Piece) -> (r: Bitboard)
        ensures
            r == self.by_piece_spec(piece),
            self.wf() ==> forall|s: int| r.has(s) <==> self.piece_at_spec(s) == Some(piece),
    {
        self.by_color(piece.color).intersect(self.by_role(piece.role))
    }

    /// The role of the piece on `sq`, if there is one.
    pub fn role_at(&self, sq: Square) -> (r: Option<Role>)
        requires
            sq.wf(),
        ensures
            r == self.role_at_spec(sq.idx()),
    {
        if self.pawns.contains(sq) {
            Some(Role::Pawn)
        } else if self.knights.contains(sq) {
            Some(Role::Knight)
        } else if self.bishops.contains(sq) {
            Some(Role::Bishop)
        } else if self.rooks.contains(sq) {
            Some(Role::Rook)
        } else if self.queens.contains(sq) {
            Some(Role::Queen)
        } else if self.kings.contains(sq) {
            Some(Role::King)
        } else {
            None
        }
    }

    /// The color of the piece on `sq`, if there is one.
    pub fn color_at(&self, sq: Square) -> (r: Option<Color>)
        requires
            sq.wf(),
        ensures
            r == self.color_at_spec(sq.idx()),
    {
        if self.white.contains(sq) {
            Some(Color::White)
        } else if self.black.contains(sq) {
            Some(Color::Black)
        } else {
            None
        }
    }

    /// The piece on `sq`, if there is one.
    pub fn piece_at(&self, sq: Square) -> (r: Option<Piece>)
        requires
            sq.wf(),
        ensures
            r == self.piece_at_spec(sq.idx()),
    {
        match self.role_at(sq) {
            Some(role) => match self.color_at(sq) {
                Some(color) => Some(Piece { color, role }),
                None => None,
            },
            None => None,
        }
    }

    /// The square of the king of `color`: the lowest, should there be several.
    pub fn king_of(&self, color: Color) -> (r: Option<Square>)
        ensures
            r is Some ==> r.unwrap().wf() && self.by_piece_spec(
                Piece { color, role: Role::King },
            ).is_lowest(r.unwrap().idx()),
            r is None <==> self.by_piece_spec(Piece { color, role: Role::King }).is_empty_spec(),
            r == self.by_piece_spec(Piece { color, role: Role::King }).first_spec(),
            self.valid() && r is Some ==> r.unwrap().idx() == self.king_spec(color),
            self.wf() ==> (r is Some <==> self.has_king(color)),
    {
        let kings = self.by_piece(Piece { color, role: Role::King });
        let r = kings.first();
        proof {
            kings.lemma_is_empty();
            if self.wf() {
                if r is Some {
                    assert(self.is_king_of(color, r.unwrap().idx()));
                    if self.valid() {
                        let k = self.king_spec(color);
                        assert(self.is_king_of(color, k));
                        assert(self.kings.has(k) && self.kings.has(r.unwrap().idx()));
                    }
                } else {
                    assert forall|s: int| !self.is_king_of(color, s) by {
                        assert(!kings.has(s));
                    }
                }
            }
        }
        r
    }

    /// Empties `sq` and returns the piece that stood there, if there was one.
    pub fn remove_piece_at(&mut self, sq: Square) -> (r: Option<Piece>)
        requires
            sq.wf(),
        ensures
            r == old(self).piece_at_spec(sq.idx()),
            *final(self) == old(self).removed_spec(sq.idx()),
            old(self).wf() ==> final(self).wf(),
            old(self).wf() ==> forall|t: int|
                #![trigger final(self).piece_at_spec(t)]
                final(self).piece_at_spec(t) == if t == sq.idx() {
                    None
                } else {
                    old(self).piece_at_spec(t)
                },
    {
        let r = self.piece_at(sq);
        proof {
            if self.wf() {
                self.lemma_removed(sq.idx());
            }
        }
        self.pawns = self.pawns.without(sq);
        self.knights = self.knights.without(sq);
        self.bishops = self.bishops.without(sq);
        self.rooks = self.rooks.without(sq);
        self.queens = self.queens.without(sq);
        self.kings = self.kings.without(sq);
        self.white = self.white.without(sq);
        self.black = self.black.without(sq);
        self.promoted = self.promoted.without(sq);
        r
    }

    /// Puts `piece` on `sq`, in place of what stood there, marked as promoted or not.
    pub fn set_piece_at(&mut self, sq: Square, piece: Piece, promoted: bool)
        requires
            sq.wf(),
        ensures
            *final(self) == old(self).put_spec(sq.idx(), piece, promoted),
            old(self).wf() ==> final(self).wf(),
            old(self).wf() ==> forall|t: int|
                #![trigger final(self).piece_at_spec(t)]
                final(self).piece_at_spec(t) == if t == sq.idx() {
                    Some(piece)
                } else {
                    old(self).piece_at_spec(t)
                },
    {
        proof {
            if self.wf() {
                self.lemma_put(sq.idx(), piece, promoted);
            }
        }
        self.remove_piece_at(sq);
        match piece.role {
            Role::Pawn => {
                self.pawns = self.pawns.with(sq);
            },
            Role::Knight => {
                self.knights = self.knights.with(sq);
            },
            Role::Bishop => {
                self.bishops = self.bishops.with(sq);
            },
            Role::Rook => {
                self.rooks = self.rooks.with(sq);
            },
            Role::Queen => {
                self.queens = self.queens.with(sq);
            },
            Role::King => {
                self.kings = self.kings.with(sq);
            },
        }
        match piece.color {
            Color::White => {
                self.white = self.white.with(sq);
            },
            Color::Black => {
                self.black = self.black.with(sq);
            },
        }
        if promoted {
            self.promoted = self.promoted.with(sq);
        }
    }

    /// The squares whose piece attacks `sq` when the squares of `occ` are occupied.
    pub fn attacks_to_with(&self, sq: Square, occ: Bitboard) -> (res: Bitboard)
        requires
            sq.wf(),
            self.wf(),
        ensures
            forall|a: int| res.has(a) <==> self.attacks_spec(a, occ, sq.idx()),
    {
        let white_pawns = pawn_attacks(Color::Black, sq).intersect(self.pawns).intersect(
            self.white,
        );
        let black_pawns = pawn_attacks(Color::White, sq).intersect(self.pawns).intersect(
            self.black,
        );
        let knights = knight_attacks(sq).intersect(self.knights);
        let kings = king_attacks(sq).intersect(self.kings);
        let straight = rook_attacks(sq, occ).intersect(self.rooks.union(self.queens));
        let diagonal = bishop_attacks(sq, occ).intersect(self.bishops.union(self.queens));
        let res = white_pawns.union(black_pawns).union(knights).union(kings).union(
            straight,
        ).union(diagonal);
        proof {
            assert forall|a: int| res.has(a) <==> self.attacks_spec(a, occ, sq.idx()) by {
                lemma_clear_path_symmetric(a, sq.idx(), occ);
                assert(self.square_ok(a));
            }
        }
        res
    }

    /// Whether a piece of `color` attacks `sq` when the squares of `occ` are occupied.
    pub fn is_attacked_by(&self, color: Color, sq: Square, occ: Bitboard) -> (r: bool)
        requires
            sq.wf(),
            self.wf(),
        ensures
            r == self.attacked_by(color, occ, sq.idx()),
    {
        let attackers = self.attacks_to_with(sq, occ).intersect(self.by_color(color));
        let none = attackers.is_empty();
        proof {
            if none {
                assert forall|a: int|
                    #![trigger self.attacks_spec(a, occ, sq.idx())]
                    !(self.color_at_spec(a) == Some(color) && self.attacks_spec(
                        a,
                        occ,
                        sq.idx(),
                    )) by {
                    assert(!attackers.has(a));
                }
            } else {
                let a = choose|a: int| attackers.has(a);
                assert(self.color_at_spec(a) == Some(color) && self.attacks_spec(a, occ, sq.idx()));
            }
        }
        !none
    }

    /// The squares whose piece attacks `sq` as the board stands.
    pub fn attacks_to(&self, sq: Square) -> (res: Bitboard)
        requires
            sq.wf(),
            self.wf(),
        ensures
            forall|a: int| res.has(a) <==> self.attacks_spec(a, self.occupied_spec(), sq.idx()),
    {
        self.attacks_to_with(sq, self.occupied())
    }
}

/// The squares between `a` and `b` are those between `b` and `a`.
pub proof fn lemma_clear_path_symmetric(a: int, b: int, occ: Bitboard)
    ensures
        clear_path(a, b, occ) <==> clear_path(b, a, occ),
{
    assert forall|c: int| between_spec(a, b, c) <==> between_spec(b, a, c) by {}
}

} // verus!
