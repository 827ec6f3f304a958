//! Positions: the placement with the side to move, the castling rights, the en-passant
//! square and the two counters; and what a move makes of a position.

use vstd::prelude::*;
use vstd::string::StringSliceAdditionalSpecFns;
use crate::attacks::forward;
use crate::bitboard::{Bitboard, group_bitboard};
use crate::board::Board;
use crate::square::{Square, on_board, file_of, rank_of, at, distance_spec, distance};
use crate::types::{Color, Move, Piece, Role};
use crate::fen::{checks_of, fen_text, castling_text, parse_fen_spec, pockets_of};
use crate::movegen::{grown, lemma_grown_same};
use crate::san::{goes_to, is_san_candidate, lemma_san_body_same, san_text};
use crate::text::{chars_of, string_of};
use crate::uci::{Uci, candidate_move};

verus! {

broadcast use group_bitboard;

/// How many more checks each side may receive in Three-Check.
#[derive(Clone, Copy, Debug, PartialEq, Eq, Hash, Structural)]
pub struct RemainingChecks {
    pub white: u8,
    pub black: u8,
}

impl RemainingChecks {
    /// The number of checks that `color` may still receive.
    pub open spec fn by_color_spec(self, color: Color) -> u8 {
        match color {
            Color::White => self.white,
            Color::Black => self.black,
        }
    }

    /// The number of checks that `color` may still receive.
    pub fn by_color(&self, color: Color) -> (n: u8)
        ensures
            n == self.by_color_spec(color),
    {
        match color {
            Color::White => self.white,
            Color::Black => self.black,
        }
    }

    /// The counters with the one of `color` lowered by one.
    pub open spec fn decremented_spec(self, color: Color) -> RemainingChecks {
        match color {
            Color::White => RemainingChecks { white: (self.white - 1) as u8, black: self.black },
            Color::Black => RemainingChecks { white: self.white, black: (self.black - 1) as u8 },
        }
    }

    /// Lowers the counter of `color` by one.
    pub fn decrement(&mut self, color: Color)
        requires
            old(self).by_color_spec(color) > 0,
        ensures
            *final(self) == old(self).decremented_spec(color),
    {
        match color {
            Color::White => {
                self.white = self.white - 1;
            },
            Color::Black => {
                self.black = self.black - 1;
            },
        }
    }
}

/// The pieces that one side holds in hand in Crazyhouse, counted by role.
#[derive(Clone, Copy, Debug, PartialEq, Eq, Hash, Structural)]
pub struct Pocket {
    pub pawns: u8,
    pub knights: u8,
    pub bishops: u8,
    pub rooks: u8,
    pub queens: u8,
    pub kings: u8,
}

impl Pocket {
    /// The number of pieces of `role` in the pocket.
    pub open spec fn by_role_spec(self, role: Role) -> u8 {
        match role {
            Role::Pawn => self.pawns,
            Role::Knight => self.knights,
            Role::Bishop => self.bishops,
            Role::Rook => self.rooks,
            Role::Queen => self.queens,
            Role::King => self.kings,
        }
    }

    /// The pocket with the count of `role` set to `n`.
    pub open spec fn with_count(self, role: Role, n: u8) -> Pocket {
        match role {
            Role::Pawn => Pocket { pawns: n, ..self },
            Role::Knight => Pocket { knights: n, ..self },
            Role::Bishop => Pocket { bishops: n, ..self },
            Role::Rook => Pocket { rooks: n, ..self },
            Role::Queen => Pocket { queens: n, ..self },
            Role::King => Pocket { kings: n, ..self },
        }
    }

    /// The number of pieces of `role` in the pocket.
    pub fn by_role(&self, role: Role) -> (n: u8)
        ensures
            n == self.by_role_spec(role),
    {
        match role {
            Role::Pawn => self.pawns,
            Role::Knight => self.knights,
            Role::Bishop => self.bishops,
            Role::Rook => self.rooks,
            Role::Queen => self.queens,
            Role::King => self.kings,
        }
    }

    /// Sets the number of pieces of `role` in the pocket.
    pub fn set(&mut self, role: Role, n: u8)
        ensures
            *final(self) == old(self).with_count(role, n),
    {
        match role {
            Role::Pawn => {
                self.pawns = n;
            },
            Role::Knight => {
                self.knights = n;
            },
            Role::Bishop => {
                self.bishops = n;
            },
            Role::Rook => {
                self.rooks = n;
            },
            Role::Queen => {
                self.queens = n;
            },
            Role::King => {
                self.kings = n;
            },
        }
    }

    /// The pocket that holds nothing.
    pub fn empty() -> (p: Pocket)
        ensures
            forall|role: Role| p.by_role_spec(role) == 0,
    {
        Pocket { pawns: 0, knights: 0, bishops: 0, rooks: 0, queens: 0, kings: 0 }
    }
}

/// The pockets of both sides.
#[derive(Clone, Copy, Debug, PartialEq, Eq, Hash, Structural)]
pub struct Pockets {
    pub white: Pocket,
    pub black: Pocket,
}

impl Pockets {
    /// The pocket of `color`.
    pub open spec fn by_color_spec(self, color: Color) -> Pocket {
        match color {
            Color::White => self.white,
            Color::Black => self.black,
        }
    }

    /// The number of pieces like `piece` in the pocket of its color.
    pub open spec fn by_piece_spec(self, piece: Piece) -> u8 {
        self.by_color_spec(piece.color).by_role_spec(piece.role)
    }

    /// The pockets with the count of `piece` set to `n`.
    pub open spec fn with_count(self, piece: Piece, n: u8) -> Pockets {
        match piece.color {
            Color::White => Pockets { white: self.white.with_count(piece.role, n), ..self },
            Color::Black => Pockets { black: self.black.with_count(piece.role, n), ..self },
        }
    }

    /// The pocket of `color`.
    pub fn by_color(&self, color: Color) -> (p: &Pocket)
        ensures
            *p == self.by_color_spec(color),
    {
        match color {
            Color::White => &self.white,
            Color::Black => &self.black,
        }
    }

    /// The number of pieces like `piece` in the pocket of its color.
    pub fn by_piece(&self, piece: Piece) -> (n: u8)
        ensures
            n == self.by_piece_spec(piece),
    {
        self.by_color(piece.color).by_role(piece.role)
    }

    /// Sets the number of pieces like `piece` in the pocket of its color.
    pub fn set(&mut self, piece: Piece, n: u8)
        ensures
            *final(self) == old(self).with_count(piece, n),
    {
        match piece.color {
            Color::White => {
                self.white.set(piece.role, n);
            },
            Color::Black => {
                self.black.set(piece.role, n);
            },
        }
    }

    /// Two empty pockets.
    pub fn empty() -> (p: Pockets)
        ensures
            forall|piece: Piece| p.by_piece_spec(piece) == 0,
    {
        Pockets { white: Pocket::empty(), black: Pocket::empty() }
    }
}

/// The rank on which the pieces of `color` begin: 0 for White, 7 for Black.
pub open spec fn back_rank(color: Color) -> int {
    match color {
        Color::White => 0,
        Color::Black => 7,
    }
}

/// The rank of the en-passant square when `turn` is to move: the square that a pawn of
/// the other side has just passed over.
pub open spec fn ep_rank(turn: Color) -> int {
    match turn {
        Color::White => 5,
        Color::Black => 2,
    }
}

/// The square on which the king stands after castling with a rook on the given side.
pub open spec fn castle_king_to(color: Color, king_side: bool) -> int {
    at(
        if king_side {
            6
        } else {
            2
        },
        back_rank(color),
    )
}

/// The square on which the rook stands after castling on the given side.
pub open spec fn castle_rook_to(color: Color, king_side: bool) -> int {
    at(
        if king_side {
            5
        } else {
            3
        },
        back_rank(color),
    )
}

/// A position of orthodox chess.
#[derive(Clone, Copy, Debug, PartialEq, Eq, Hash, Structural)]
pub struct Standard {
    pub board: Board,
    pub turn: Color,
    /// The squares of the rooks with which their side may still castle.
    pub castling_rights: Bitboard,
    /// The square that a pawn has just passed over in a double step, if one has.
    pub ep_square: Option<Square>,
    /// The number of half-moves since a pawn moved or a piece was taken.
    pub halfmove_clock: u32,
    /// The number of the move, from 1, counted up after each move of Black.
    pub fullmoves: u32,
}

impl Standard {
    /// The squares of the side to move.
    pub open spec fn us_spec(self) -> Bitboard {
        self.board.by_color_spec(self.turn)
    }

    /// The squares of the side that is not to move.
    pub open spec fn them_spec(self) -> Bitboard {
        self.board.by_color_spec(self.turn.other_spec())
    }

    /// The squares of the pieces of `role` of the side to move.
    pub open spec fn our_spec(self, role: Role) -> Bitboard {
        self.us_spec().intersect_spec(self.board.by_role_spec(role))
    }

    /// The squares that hold a piece.
    pub open spec fn occ_spec(self) -> Bitboard {
        self.board.occupied_spec()
    }

    /// The index of the square of the king of the side to move.
    pub open spec fn king_sq(self) -> int {
        self.board.king_spec(self.turn)
    }

    /// Whether the piece on `a` belongs to the other side and attacks the king of the
    /// side to move.
    pub open spec fn checker_spec(self, a: int) -> bool {
        self.them_spec().has(a) && self.board.attacks_spec(a, self.occ_spec(), self.king_sq())
    }

    /// Whether the side to move is in check.
    pub open spec fn in_check_spec(self) -> bool {
        exists|a: int| self.checker_spec(a)
    }

    /// Whether every castling right belongs to a rook on the back rank of its side.
    pub open spec fn castling_ok(self) -> bool {
        forall|s: int|
            #![trigger self.castling_rights.has(s)]
            self.castling_rights.has(s) ==> (rank_of(s) == 0 && self.board.piece_at_spec(s)
                == Some(Piece { color: Color::White, role: Role::Rook })) || (rank_of(s) == 7
                && self.board.piece_at_spec(s) == Some(
                Piece { color: Color::Black, role: Role::Rook },
            ))
    }

    /// Whether the en-passant square, if there is one, is empty, on the right rank, and
    /// behind a pawn of the side that has just moved.
    pub open spec fn ep_ok(self) -> bool {
        match self.ep_square {
            None => true,
            Some(e) => {
                &&& e.wf()
                &&& rank_of(e.idx()) == ep_rank(self.turn)
                &&& self.board.piece_at_spec(e.idx()) is None
                &&& self.board.piece_at_spec(e.idx() - 8 * forward(self.turn)) == Some(
                    Piece { color: self.turn.other_spec(), role: Role::Pawn },
                )
            },
        }
    }

    /// The invariant of the type.
    pub open spec fn wf(self) -> bool {
        &&& self.board.wf()
        &&& self.ep_ok()
        &&& self.fullmoves >= 1
    }

    /// Whether the position can occur in a game: the invariant holds, each side has
    /// exactly one king, no pawn stands on the first or the eighth rank, and the side
    /// that has just moved is not in check.
    pub open spec fn valid(self) -> bool {
        &&& self.wf()
        &&& self.board.valid()
        &&& self.board.has_king(Color::White)
        &&& self.board.has_king(Color::Black)
        &&& !self.board.attacked_by(
            self.turn,
            self.occ_spec(),
            self.board.king_spec(self.turn.other_spec()),
        )
    }

    /// The placement after the move `m` by the side to move.
    pub open spec fn board_after(self, m: Move) -> Board {
        let color = self.turn;
        match m {
            Move::Normal { role, from, capture, to, promotion } => {
                let promoted = self.board.promoted.has(from.idx()) || promotion is Some;
                let role_after = match promotion {
                    Some(p) => p,
                    None => role,
                };
                self.board.removed_spec(from.idx()).put_spec(
                    to.idx(),
                    Piece { color, role: role_after },
                    promoted,
                )
            },
            Move::Castle { king, rook } => {
                let king_side = king.idx() < rook.idx();
                self.board.removed_spec(king.idx()).removed_spec(rook.idx()).put_spec(
                    castle_rook_to(color, king_side),
                    Piece { color, role: Role::Rook },
                    false,
                ).put_spec(castle_king_to(color, king_side), Piece { color, role: Role::King }, false)
            },
            Move::EnPassant { from, to } => {
                self.board.removed_spec(at(file_of(to.idx()), rank_of(from.idx()))).removed_spec(
                    from.idx(),
                ).put_spec(to.idx(), Piece { color, role: Role::Pawn }, false)
            },
            Move::Put { role, to } => self.board.put_spec(to.idx(), Piece { color, role }, false),
            Move::Null => self.board,
        }
    }

    /// The castling rights after the move `m` by the side to move.
    pub open spec fn castling_after(self, m: Move) -> Bitboard {
        let home = Bitboard::relative_rank_spec(self.turn, 0);
        match m {
            Move::Normal { role, from, to, .. } => if role == Role::King {
                self.castling_rights.minus_spec(home)
            } else {
                self.castling_rights.without_spec(from.idx()).without_spec(to.idx())
            },
            Move::Castle { .. } => self.castling_rights.minus_spec(home),
            _ => self.castling_rights,
        }
    }

    /// The en-passant square after the move `m`: the square passed over, if `m` is the
    /// double step of a pawn.
    pub open spec fn ep_after(self, m: Move) -> Option<Square> {
        match m {
            Move::Normal { role, from, to, .. } => if role == Role::Pawn && distance_spec(
                from.idx(),
                to.idx(),
            ) == 2 && on_board(from.idx() + 8 * forward(self.turn)) {
                Some(Square((from.idx() + 8 * forward(self.turn)) as u8))
            } else {
                None
            },
            _ => None,
        }
    }

    /// The half-move clock after the move `m`: 0 after a pawn move or a capture, one more
    /// than before otherwise.
    pub open spec fn halfmove_after(self, m: Move) -> int {
        match m {
            Move::Normal { role, capture, .. } => if role == Role::Pawn || capture is Some {
                0
            } else {
                self.halfmove_clock + 1
            },
            Move::EnPassant { .. } => 0,
            _ => self.halfmove_clock + 1,
        }
    }

    /// The number of the move after a move by the side to move.
    pub open spec fn fullmoves_after(self) -> int {
        if self.turn == Color::Black {
            self.fullmoves + 1
        } else {
            self.fullmoves as int
        }
    }

    /// Whether the move `m` can be carried out: its squares are on the board and the
    /// counters have room.
    pub open spec fn applicable(self, m: Move) -> bool {
        &&& m.wf()
        &&& self.halfmove_clock < u32::MAX
        &&& self.fullmoves < u32::MAX
    }

    /// The position after the move `m` by the side to move.
    pub open spec fn do_move_spec(self, m: Move) -> Standard {
        Standard {
            board: self.board_after(m),
            turn: self.turn.other_spec(),
            castling_rights: self.castling_after(m),
            ep_square: self.ep_after(m),
            halfmove_clock: self.halfmove_after(m) as u32,
            fullmoves: self.fullmoves_after() as u32,
        }
    }

    /// Whether this is the position in which a game begins: the pieces on their first
    /// squares, White to move, all four castling rights, no en-passant square, clock 0,
    /// move 1.
    pub open spec fn is_initial(self) -> bool {
        &&& self.board.wf()
        &&& forall|s: int|
            #![trigger self.board.piece_at_spec(s)]
            self.board.piece_at_spec(s) == crate::board::initial_piece(s)
        &&& self.board.promoted == Bitboard::empty_spec()
        &&& self.turn == Color::White
        &&& forall|s: int|
            #![trigger self.castling_rights.has(s)]
            self.castling_rights.has(s) <==> (s == 0 || s == 7 || s == 56 || s == 63)
        &&& self.ep_square is None
        &&& self.halfmove_clock == 0
        &&& self.fullmoves == 1
    }

    /// The position in which a game begins can occur in a game.
    pub proof fn lemma_initial_valid(self)
        requires
            self.is_initial(),
        ensures
            self.valid(),
            self.castling_ok(),
    {
        broadcast use group_bitboard;

        let b = self.board;
        assert forall|s: int, t: int|
            #![trigger b.kings.has(s), b.kings.has(t)]
            b.kings.has(s) && b.kings.has(t) && b.color_at_spec(s) == b.color_at_spec(
                t,
            ) implies s == t by {
            assert(b.piece_at_spec(s) == crate::board::initial_piece(s));
            assert(b.piece_at_spec(t) == crate::board::initial_piece(t));
            assert(b.square_ok(s) && b.square_ok(t));
        }
        assert forall|s: int| #![trigger b.pawns.has(s)] b.pawns.has(s) implies 1 <= rank_of(s)
            <= 6 by {
            assert(b.piece_at_spec(s) == crate::board::initial_piece(s));
            assert(b.square_ok(s));
        }
        assert(b.piece_at_spec(4) == crate::board::initial_piece(4));
        assert(b.piece_at_spec(60) == crate::board::initial_piece(60));
        assert(b.is_king_of(Color::White, 4));
        assert(b.is_king_of(Color::Black, 60));
        assert(b.square_ok(60));
        assert(b.kings.has(60));
        let tk = b.king_spec(Color::Black);
        assert(b.is_king_of(Color::Black, tk));
        assert(b.square_ok(tk));
        assert(tk == 60);
        let occ = self.occ_spec();
        assert forall|a: int|
            #![trigger b.attacks_spec(a, occ, 60)]
            !(b.color_at_spec(a) == Some(Color::White) && b.attacks_spec(a, occ, 60)) by {
            assert(b.piece_at_spec(a) == crate::board::initial_piece(a));
            assert(b.square_ok(a));
        }
        assert forall|s: int|
            #![trigger self.castling_rights.has(s)]
            self.castling_rights.has(s) implies (rank_of(s) == 0 && b.piece_at_spec(s) == Some(
            Piece { color: Color::White, role: Role::Rook },
        )) || (rank_of(s) == 7 && b.piece_at_spec(s) == Some(
            Piece { color: Color::Black, role: Role::Rook },
        )) by {
            assert(b.piece_at_spec(s) == crate::board::initial_piece(s));
        }
    }

    /// The position in which a game begins.
    pub fn initial() -> (pos: Standard)
        ensures
            pos.is_initial(),
            pos.valid(),
            pos.castling_ok(),
    {
        let rights = Bitboard::empty().with(Square::new(0)).with(Square::new(7)).with(
            Square::new(56),
        ).with(Square::new(63));
        let pos = Standard {
            board: Board::initial(),
            turn: Color::White,
            castling_rights: rights,
            ep_square: None,
            halfmove_clock: 0,
            fullmoves: 1,
        };
        proof {
            pos.lemma_initial_valid();
        }
        pos
    }

    /// The position without pieces: White to move, move 1.
    pub fn empty() -> (pos: Standard)
        ensures
            pos == crate::fen::empty_position(),
            pos.wf(),
    {
        Standard {
            board: Board::empty(),
            turn: Color::White,
            castling_rights: Bitboard::empty(),
            ep_square: None,
            halfmove_clock: 0,
            fullmoves: 1,
        }
    }

    /// The position that a position text describes, if the text describes one of
    /// orthodox chess: one without pockets and without remaining checks.
    pub fn from_fen(fen: &str) -> (r: Option<Standard>)
        ensures
            r == match parse_fen_spec(fen.spec_bytes()) {
                Ok(f) => if f.pockets is None && f.remaining_checks is None {
                    Some(f.position)
                } else {
                    None
                },
                Err(_) => None,
            },
            r is Some ==> r.unwrap().wf(),
    {
        match crate::fen::parse(fen.as_bytes()) {
            Ok(f) => if f.pockets.is_none() && f.remaining_checks.is_none() {
                Some(f.position)
            } else {
                None
            },
            Err(_) => None,
        }
    }

    /// The placement of the pieces.
    pub fn board(&self) -> (b: &Board)
        ensures
            *b == self.board,
    {
        &self.board
    }

    /// The side to move.
    pub fn turn(&self) -> (c: Color)
        ensures
            c == self.turn,
    {
        self.turn
    }

    /// The squares of the rooks with which their side may still castle.
    pub fn castling_rights(&self) -> (b: Bitboard)
        ensures
            b == self.castling_rights,
    {
        self.castling_rights
    }

    /// The square that a pawn has just passed over in a double step, if one has.
    pub fn ep_square(&self) -> (e: Option<Square>)
        ensures
            e == self.ep_square,
    {
        self.ep_square
    }

    /// The number of half-moves since a pawn moved or a piece was taken.
    pub fn halfmove_clock(&self) -> (n: u32)
        ensures
            n == self.halfmove_clock,
    {
        self.halfmove_clock
    }

    /// The number of the move.
    pub fn fullmoves(&self) -> (n: u32)
        ensures
            n == self.fullmoves,
    {
        self.fullmoves
    }

    /// The squares of the side to move.
    pub fn us(&self) -> (b: Bitboard)
        ensures
            b == self.us_spec(),
    {
        self.board.by_color(self.turn)
    }

    /// The squares of the pieces of `role` of the side to move.
    pub fn our(&self, role: Role) -> (b: Bitboard)
        ensures
            b == self.our_spec(role),
    {
        self.us().intersect(self.board.by_role(role))
    }

    /// The squares of the side that is not to move.
    pub fn them(&self) -> (b: Bitboard)
        ensures
            b == self.them_spec(),
    {
        self.board.by_color(self.turn.other())
    }

    /// The squares of the pieces of the other side that attack the king of the side to
    /// move: the lowest of its kings, should it have several; none if it has no king.
    pub fn checkers(&self) -> (b: Bitboard)
        requires
            self.board.wf(),
        ensures
            forall|a: int|
                #![trigger b.has(a)]
                b.has(a) <==> match self.board.by_piece_spec(
                    Piece { color: self.turn, role: Role::King },
                ).first_spec() {
                    Some(king) => self.them_spec().has(a) && self.board.attacks_spec(
                        a,
                        self.occ_spec(),
                        king.idx(),
                    ),
                    None => false,
                },
            self.board.has_king(self.turn) && self.board.valid() ==> forall|a: int|
                b.has(a) <==> self.checker_spec(a),
            !self.board.has_king(self.turn) ==> b.is_empty_spec(),
    {
        broadcast use group_bitboard;

        match self.board.king_of(self.turn) {
            Some(king) => self.them().intersect(self.board.attacks_to(king)),
            None => Bitboard::empty(),
        }
    }

    /// Carries out the move `m` for the side to move.
    pub fn do_move(self, m: &Move) -> (pos: Standard)
        requires
            self.applicable(*m),
        ensures
            pos == self.do_move_spec(*m),
    {
        let mut pos = self;
        let color = self.turn;
        pos.ep_square = None;
        pos.halfmove_clock = self.halfmove_clock + 1;
        match *m {
            Move::Normal { role, from, capture, to, promotion } => {
                if role == Role::Pawn || capture.is_some() {
                    pos.halfmove_clock = 0;
                }
                if role == Role::Pawn && distance(from, to) == 2 {
                    pos.ep_square = from.offset(color.fold(8, -8));
                }
                if role == Role::King {
                    pos.castling_rights.discard_all(Bitboard::relative_rank(color, 0));
                } else {
                    pos.castling_rights.discard(from);
                    pos.castling_rights.discard(to);
                }
                let promoted = pos.board.promoted().contains(from) || promotion.is_some();
                pos.board.remove_piece_at(from);
                let role_after = match promotion {
                    Some(p) => p,
                    None => role,
                };
                pos.board.set_piece_at(to, role_after.of(color), promoted);
            },
            Move::Castle { king, rook } => {
                let king_side = king.index() < rook.index();
                let rank: i8 = color.fold(0, 7);
                let rook_to = Square::new((if king_side { 5i8 } else { 3i8 } + 8 * rank) as u8);
                let king_to = Square::new((if king_side { 6i8 } else { 2i8 } + 8 * rank) as u8);
                pos.board.remove_piece_at(king);
                pos.board.remove_piece_at(rook);
                pos.board.set_piece_at(rook_to, color.rook(), false);
                pos.board.set_piece_at(king_to, color.king(), false);
                pos.castling_rights.discard_all(Bitboard::relative_rank(color, 0));
            },
            Move::EnPassant { from, to } => {
                let pawn = Square::new((to.file() + 8 * from.rank()) as u8);
                pos.board.remove_piece_at(pawn);
                pos.board.remove_piece_at(from);
                pos.board.set_piece_at(to, color.pawn(), false);
                pos.halfmove_clock = 0;
            },
            Move::Put { to, role } => {
                pos.board.set_piece_at(to, Piece { color, role }, false);
            },
            Move::Null => {},
        }
        pos.turn = color.other();
        if pos.turn.is_white() {
            pos.fullmoves = self.fullmoves + 1;
        }
        pos
    }
}

impl Default for Standard {
    /// The position in which a game begins.
    fn default() -> (pos: Standard)
        ensures
            pos.is_initial(),
            pos.valid(),
            pos.castling_ok(),
    {
        Standard::initial()
    }
}

/// A position of chess or of a variant of it: what every variant shares, with the pockets
/// and the check counters for the variants that have them.
pub trait Position: Sized + Copy {
    /// The placement, the side to move, the castling rights, the en-passant square and
    /// the counters.
    spec fn situation(&self) -> Standard;

    /// The pockets, in a variant with drops.
    spec fn pockets_spec(&self) -> Option<Pockets>;

    /// The check counters, in a variant that counts checks.
    spec fn remaining_checks_spec(&self) -> Option<RemainingChecks>;

    /// Whether the position can occur in a game.
    spec fn valid(&self) -> bool;

    /// Whether `m` is a legal move.
    spec fn legal(&self, m: Move) -> bool;

    /// Whether the move `m` can be carried out without a counter running over.
    spec fn can_do(&self, m: Move) -> bool;

    /// The position after the move `m`.
    spec fn after(&self, m: Move) -> Self;

    /// A position that can occur in a game has a situation that can.
    proof fn lemma_valid_situation(&self)
        requires
            self.valid(),
        ensures
            self.situation().valid(),
    ;

    /// A move changes the situation as it changes a position of orthodox chess.
    proof fn lemma_after_situation(&self, m: Move)
        requires
            self.can_do(m),
        ensures
            self.after(m).situation() == self.situation().do_move_spec(m),
    ;

    /// A legal move keeps the position one that can occur in a game.
    proof fn lemma_valid_after(&self, m: Move)
        requires
            self.valid(),
            self.legal(m),
            self.can_do(m),
        ensures
            self.after(m).valid(),
    ;

    /// Whether the position can occur in a game: what the other functions ask of it.
    fn is_valid(&self) -> (r: bool)
        ensures
            r == self.valid(),
    ;

    /// The placement of the pieces.
    fn board(&self) -> (b: &Board)
        ensures
            *b == self.situation().board,
    ;

    /// The pockets, in a variant with drops.
    fn pockets(&self) -> (p: Option<&Pockets>)
        ensures
            p is Some <==> self.pockets_spec() is Some,
            p is Some ==> *p.unwrap() == self.pockets_spec().unwrap(),
    ;

    /// The side to move.
    fn turn(&self) -> (c: Color)
        ensures
            c == self.situation().turn,
    ;

    /// The squares of the rooks with which their side may still castle.
    fn castling_rights(&self) -> (b: Bitboard)
        ensures
            b == self.situation().castling_rights,
    ;

    /// The square that a pawn has just passed over in a double step, if one has.
    fn ep_square(&self) -> (e: Option<Square>)
        ensures
            e == self.situation().ep_square,
    ;

    /// The remaining checks, in a variant that counts checks.
    fn remaining_checks(&self) -> (r: Option<&RemainingChecks>)
        ensures
            r is Some <==> self.remaining_checks_spec() is Some,
            r is Some ==> *r.unwrap() == self.remaining_checks_spec().unwrap(),
    ;

    /// The number of half-moves since a pawn moved or a piece was taken.
    fn halfmove_clock(&self) -> (n: u32)
        ensures
            n == self.situation().halfmove_clock,
    ;

    /// The number of the move.
    fn fullmoves(&self) -> (n: u32)
        ensures
            n == self.situation().fullmoves,
    ;

    /// Appends the legal moves to `moves`, each once.
    fn legal_moves(&self, moves: &mut Vec<Move>)
        requires
            self.valid(),
        ensures
            grown(old(moves)@, final(moves)@, |m: Move| self.legal(m)),
    ;

    /// Carries out the move `m` for the side to move.
    fn do_move(self, m: &Move) -> (pos: Self)
        requires
            self.can_do(*m),
        ensures
            pos == self.after(*m),
    ;

    /// The situation of the position, as a position of orthodox chess.
    fn to_standard(&self) -> (pos: Standard)
        ensures
            pos == self.situation(),
    {
        Standard {
            board: *self.board(),
            turn: self.turn(),
            castling_rights: self.castling_rights(),
            ep_square: self.ep_square(),
            halfmove_clock: self.halfmove_clock(),
            fullmoves: self.fullmoves(),
        }
    }

    /// The piece on `sq`, if there is one.
    fn piece_at(&self, sq: Square) -> (r: Option<Piece>)
        requires
            sq.wf(),
        ensures
            r == self.situation().board.piece_at_spec(sq.idx()),
    {
        self.board().piece_at(sq)
    }

    /// The squares of the pieces that give check to the side to move.
    fn checkers(&self) -> (b: Bitboard)
        requires
            self.valid(),
        ensures
            forall|a: int| b.has(a) <==> self.situation().checker_spec(a),
    {
        proof {
            self.lemma_valid_situation();
        }
        self.to_standard().checkers()
    }

    /// Whether the side to move is in check.
    fn is_check(&self) -> (r: bool)
        requires
            self.valid(),
        ensures
            r == self.situation().in_check_spec(),
    {
        let checkers = self.checkers();
        let r = checkers.any();
        proof {
            if r {
                let a = choose|a: int| checkers.has(a);
                assert(self.situation().checker_spec(a));
            } else if self.situation().in_check_spec() {
                let a = choose|a: int| self.situation().checker_spec(a);
                assert(checkers.has(a));
            }
        }
        r
    }

    /// Whether `m` is a legal move.
    fn is_legal(&self, m: &Move) -> (r: bool)
        requires
            self.valid(),
        ensures
            r == self.legal(*m),
    {
        let mut moves: Vec<Move> = Vec::new();
        self.legal_moves(&mut moves);
        assert(moves@.contains(*m) <==> self.legal(*m)) by {
            assert(!Seq::<Move>::empty().contains(*m));
        }
        let mut i: usize = 0;
        while i < moves.len()
            invariant
                0 <= i <= moves.len(),
                moves@.contains(*m) <==> self.legal(*m),
                forall|j: int| 0 <= j < i ==> moves[j] != *m,
            decreases moves.len() - i,
        {
            if moves[i] == *m {
                assert(moves@.contains(*m));
                return true;
            }
            i = i + 1;
        }
        assert(!moves@.contains(*m));
        false
    }

    /// The move that `uci` names in this position, if it names a legal one.
    fn validate(&self, uci: &Uci) -> (r: Option<Move>)
        requires
            self.valid(),
            uci.wf(),
        ensures
            r == match candidate_move(self.situation(), *uci) {
                Some(m) => if self.legal(m) {
                    Some(m)
                } else {
                    None
                },
                None => None,
            },
    {
        proof {
            self.lemma_valid_situation();
        }
        match uci.candidate(self.board(), self.turn(), self.castling_rights()) {
            Some(m) => if self.is_legal(&m) {
                Some(m)
            } else {
                None
            },
            None => None,
        }
    }

    /// The position as text.
    fn fen(&self) -> (s: String)
        requires
            self.situation().ep_square is Some ==> self.situation().ep_square.unwrap().wf(),
        ensures
            s@ == chars_of(
                fen_text(self.situation(), self.pockets_spec(), self.remaining_checks_spec()),
            ),
    {
        let mut out: Vec<u8> = Vec::new();
        let pos = self.to_standard();
        let pockets = self.pockets();
        let checks = self.remaining_checks();
        crate::fen::write_fen(&pos, pockets, checks, &mut out);
        assert(pockets_of(pockets) == self.pockets_spec());
        assert(checks_of(checks) == self.remaining_checks_spec());
        assert(out@ =~= fen_text(
            self.situation(),
            self.pockets_spec(),
            self.remaining_checks_spec(),
        ));
        string_of(&out)
    }

    /// The castling rights as the castling field of a position text.
    fn castling_xfen(&self) -> (s: String)
        ensures
            s@ == chars_of(castling_text(self.situation())),
    {
        let mut out: Vec<u8> = Vec::new();
        let pos = self.to_standard();
        crate::fen::write_castling(&pos, &mut out);
        assert(out@ =~= castling_text(self.situation()));
        string_of(&out)
    }

    /// Appends to `moves` the legal ordinary moves of the pieces of `role` of the side to
    /// move to `target`: the moves that the notation of one of them must tell apart.
    fn san_candidates(&self, moves: &mut Vec<Move>, role: Role, target: Square)
        requires
            self.valid(),
        ensures
            grown(
                old(moves)@,
                final(moves)@,
                |c: Move| is_san_candidate(self.situation(), |x: Move| self.legal(x), role, target, c),
            ),
    {
        let mut legals: Vec<Move> = Vec::new();
        self.legal_moves(&mut legals);
        let pieces = self.board().by_piece(Piece { color: self.turn(), role });
        let ghost s0 = moves@;
        proof {
            let e = Seq::<Move>::empty();
            assert forall|c: Move| #![trigger e.contains(c)] !e.contains(c) by {}
        }
        crate::san::filter_san_candidates(&legals, pieces, target, moves);
        proof {
            let legal = |x: Move| self.legal(x);
            let p = |c: Move| legals@.contains(c) && goes_to(pieces, target, c);
            let r = |c: Move| is_san_candidate(self.situation(), legal, role, target, c);
            assert forall|c: Move| #![trigger r(c)] r(c) <==> p(c) by {
                assert(legals@.contains(c) <==> self.legal(c));
                assert(legal(c) == self.legal(c));
            }
            lemma_grown_same(s0, moves@, p, r);
        }
    }

    /// The move `m` in standard algebraic notation.
    fn san(self, m: &Move) -> (s: String)
        requires
            self.valid(),
            m.wf(),
            *m is Null || (self.legal(*m) && self.can_do(*m)),
        ensures
            s@ == chars_of(
                san_text(
                    self.situation(),
                    |x: Move| self.legal(x),
                    self.after(*m).situation().in_check_spec(),
                    exists|x: Move| #[trigger] self.after(*m).legal(x),
                    *m,
                ),
            ),
    {
        let mut out: Vec<u8> = Vec::new();
        let mut candidates: Vec<Move> = Vec::new();
        let ghost legal = |x: Move| self.legal(x);
        proof {
            let e = Seq::<Move>::empty();
            assert forall|c: Move| #![trigger e.contains(c)] !e.contains(c) by {}
        }
        match *m {
            Move::Normal { role, to, .. } => {
                self.san_candidates(&mut candidates, role, to);
            },
            _ => {},
        }
        crate::san::write_san_body(&candidates, m, &mut out);
        proof {
            let listed = |c: Move| candidates@.contains(c);
            match *m {
                Move::Normal { role, to, .. } => {
                    let wanted = |c: Move| is_san_candidate(self.situation(), legal, role, to, c);
                    assert forall|c: Move|
                        #![trigger listed(c)]
                        #![trigger wanted(c)]
                        listed(c) <==> wanted(c) by {}
                    lemma_san_body_same(listed, wanted, *m);
                },
                _ => {
                    let none = |c: Move| false;
                    assert forall|c: Move|
                        #![trigger listed(c)]
                        #![trigger none(c)]
                        listed(c) <==> none(c) by {}
                    lemma_san_body_same(listed, none, *m);
                },
            }
        }
        match *m {
            Move::Null => {},
            _ => {
                proof {
                    self.lemma_valid_after(*m);
                }
                let ghost body = out@;
                let after = self.do_move(m);
                let check = after.is_check();
                let mut replies: Vec<Move> = Vec::new();
                after.legal_moves(&mut replies);
                let reply = replies.len() > 0;
                proof {
                    if reply {
                        assert(replies@.contains(replies@[0]));
                        assert(after.legal(replies@[0]));
                    } else {
                        assert forall|x: Move| !#[trigger] after.legal(x) by {
                            assert(!replies@.contains(x));
                        }
                    }
                }
                crate::san::write_san_suffix(check, reply, &mut out);
            },
        }
        assert(out@ =~= san_text(
            self.situation(),
            legal,
            self.after(*m).situation().in_check_spec(),
            exists|x: Move| #[trigger] self.after(*m).legal(x),
            *m,
        ));
        string_of(&out)
    }

    /// Carries out the move `m` in place.
    fn play_unchecked(&mut self, m: &Move)
        requires
            old(self).can_do(*m),
        ensures
            *final(self) == old(self).after(*m),
    {
        *self = (*self).do_move(m);
    }
}

impl Position for Standard {
    open spec fn situation(&self) -> Standard {
        *self
    }

    open spec fn pockets_spec(&self) -> Option<Pockets> {
        None
    }

    open spec fn remaining_checks_spec(&self) -> Option<RemainingChecks> {
        None
    }

    open spec fn valid(&self) -> bool {
        Standard::valid(*self)
    }

    open spec fn legal(&self, m: Move) -> bool {
        self.legal_spec(m)
    }

    open spec fn can_do(&self, m: Move) -> bool {
        self.applicable(m)
    }

    open spec fn after(&self, m: Move) -> Standard {
        self.do_move_spec(m)
    }

    proof fn lemma_valid_situation(&self) {
    }

    proof fn lemma_after_situation(&self, m: Move) {
    }

    proof fn lemma_valid_after(&self, m: Move) {
        self.lemma_do_move_valid(m);
    }

    fn is_valid(&self) -> (r: bool) {
        Standard::is_valid(self)
    }

    fn board(&self) -> (b: &Board) {
        &self.board
    }

    fn pockets(&self) -> (p: Option<&Pockets>) {
        None
    }

    fn turn(&self) -> (c: Color) {
        self.turn
    }

    fn castling_rights(&self) -> (b: Bitboard) {
        self.castling_rights
    }

    fn ep_square(&self) -> (e: Option<Square>) {
        self.ep_square
    }

    fn remaining_checks(&self) -> (r: Option<&RemainingChecks>) {
        None
    }

    fn halfmove_clock(&self) -> (n: u32) {
        self.halfmove_clock
    }

    fn fullmoves(&self) -> (n: u32) {
        self.fullmoves
    }

    fn legal_moves(&self, moves: &mut Vec<Move>) {
        let ghost s0 = moves@;
        Standard::legal_moves(self, moves);
        proof {
            lemma_grown_same(
                s0,
                moves@,
                |m: Move| self.legal_spec(m),
                |m: Move| self.legal(m),
            );
        }
    }

    fn do_move(self, m: &Move) -> (pos: Standard) {
        Standard::do_move(self, m)
    }
}

} // verus!
