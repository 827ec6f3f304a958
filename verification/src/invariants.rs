//! What a legal move keeps: the invariants of the board and of the position.

use vstd::prelude::*;
use crate::attacks::forward;
use crate::bitboard::{Bitboard, group_bitboard};

use crate::position::{Standard, back_rank, castle_king_to, castle_rook_to};
use crate::square::{file_of, rank_of, at};
use crate::types::{Color, Move, Piece, Role};

verus! {

impl Standard {
    /// After a legal move each side has its king, and the king of the side that has moved
    /// is where the move has put it.
    pub proof fn lemma_kings_after(self, m: Move)
        requires
            self.valid(),
            self.legal_spec(m),
        ensures
            self.board_after(m).valid(),
            self.board_after(m).has_king(Color::White),
            self.board_after(m).has_king(Color::Black),
    {
        broadcast use group_bitboard;

        let us = self.turn;
        let them = self.turn.other_spec();
        let k = self.board.king_spec(us);
        let tk = self.board.king_spec(them);
        let b1 = self.board_after(m);
        self.lemma_candidate_rule(m);
        assert(self.board.is_king_of(us, k));
        assert(self.board.is_king_of(them, tk));
        self.board.lemma_occupied(k);
        self.board.lemma_occupied(tk);
        match m {
            Move::Normal { role, from, to, .. } => {
                self.lemma_normal_rule(m);
                self.lemma_board_after_normal(m);
                self.lemma_kings_after_normal(m);
                self.board.lemma_occupied(from.idx());
                self.board.lemma_occupied(to.idx());
                assert(tk != to.idx() && tk != from.idx());
                assert(b1.is_king_of(them, tk));
                if role == Role::King {
                    self.lemma_king_move_from(m);
                    assert(b1.is_king_of(us, to.idx()));
                } else {
                    assert(k != from.idx() && k != to.idx());
                    assert(b1.is_king_of(us, k));
                }
            },
            Move::EnPassant { from, to } => {
                let pawn = at(file_of(to.idx()), rank_of(from.idx()));
                self.lemma_en_passant_rule(m);
                self.lemma_board_after_en_passant(m);
                self.lemma_kings_after_en_passant(m);
                assert(b1.is_king_of(them, tk));
                assert(b1.is_king_of(us, k));
            },
            Move::Castle { king, rook } => {
                let king_to = castle_king_to(us, king.idx() < rook.idx());
                let rook_to = castle_rook_to(us, king.idx() < rook.idx());
                self.lemma_castle_rule(m);
                self.lemma_board_after_castle(m);
                self.lemma_kings_after_castle(m);
                self.board.lemma_occupied(king_to);
                self.board.lemma_occupied(rook_to);
                assert(b1.is_king_of(them, tk));
                assert(b1.is_king_of(us, king_to));
            },
            _ => {},
        }
    }

    /// After a legal move the en-passant square, if there is one, is the empty square
    /// behind the pawn that has just made a double step.
    pub proof fn lemma_ep_after(self, m: Move)
        requires
            self.valid(),
            self.legal_spec(m),
        ensures
            self.do_move_spec(m).ep_ok(),
    {
        broadcast use group_bitboard;

        let after = self.do_move_spec(m);
        let fw = forward(self.turn);
        self.lemma_candidate_rule(m);
        match m {
            Move::Normal { role, from, to, promotion, .. } => {
                self.lemma_normal_rule(m);
                self.lemma_board_after_normal(m);
                if after.ep_square is Some {
                    let all = Bitboard::all_spec();
                    assert(self.pseudo_spec(all, all, m));
                    assert(self.pawn_double_spec(all, all, m));
                    let e = from.idx() + 8 * fw;
                    self.board.lemma_occupied(e);
                    assert(promotion is None);
                }
            },
            _ => {},
        }
    }

    /// A legal move keeps the invariants: after it, the board is consistent, each side
    /// has exactly one king, no pawn stands on the first or the eighth rank, the
    /// en-passant square fits, and the side that has moved is not in check.
    pub proof fn lemma_do_move_valid(self, m: Move)
        requires
            self.valid(),
            self.legal_spec(m),
            self.applicable(m),
        ensures
            self.do_move_spec(m).valid(),
    {
        let after = self.do_move_spec(m);
        self.lemma_kings_after(m);
        self.lemma_ep_after(m);
        self.lemma_legal_move_safe(m);
        assert(after.turn.other_spec() == self.turn);
    }

    /// A legal move keeps every castling right with a rook on the back rank of its side,
    /// unless a king takes a rook that has a castling right.
    pub proof fn lemma_castling_ok_after(self, m: Move)
        requires
            self.valid(),
            self.castling_ok(),
            self.legal_spec(m),
            !(m matches Move::Normal { role: Role::King, to, .. } && self.castling_rights.has(
                to.idx(),
            )),
        ensures
            self.do_move_spec(m).castling_ok(),
    {
        broadcast use group_bitboard;

        let after = self.do_move_spec(m);
        let us = self.turn;
        self.lemma_candidate_rule(m);
        match m {
            Move::Normal { role, from, to, .. } => {
                self.lemma_normal_rule(m);
                self.lemma_board_after_normal(m);
                self.board.lemma_occupied(from.idx());
                assert forall|s: int|
                    #![trigger after.castling_rights.has(s)]
                    after.castling_rights.has(s) implies (rank_of(s) == 0
                    && after.board.piece_at_spec(s) == Some(
                    Piece { color: Color::White, role: Role::Rook },
                )) || (rank_of(s) == 7 && after.board.piece_at_spec(s) == Some(
                    Piece { color: Color::Black, role: Role::Rook },
                )) by {
                    assert(self.castling_rights.has(s));
                    assert(s != to.idx());
                    assert(s != from.idx());
                }
            },
            Move::EnPassant { from, to } => {
                self.lemma_en_passant_rule(m);
                self.lemma_board_after_en_passant(m);
                assert forall|s: int|
                    #![trigger after.castling_rights.has(s)]
                    after.castling_rights.has(s) implies (rank_of(s) == 0
                    && after.board.piece_at_spec(s) == Some(
                    Piece { color: Color::White, role: Role::Rook },
                )) || (rank_of(s) == 7 && after.board.piece_at_spec(s) == Some(
                    Piece { color: Color::Black, role: Role::Rook },
                )) by {
                    assert(self.castling_rights.has(s));
                }
            },
            Move::Castle { king, rook } => {
                self.lemma_castle_rule(m);
                self.lemma_board_after_castle(m);
                assert forall|s: int|
                    #![trigger after.castling_rights.has(s)]
                    after.castling_rights.has(s) implies (rank_of(s) == 0
                    && after.board.piece_at_spec(s) == Some(
                    Piece { color: Color::White, role: Role::Rook },
                )) || (rank_of(s) == 7 && after.board.piece_at_spec(s) == Some(
                    Piece { color: Color::Black, role: Role::Rook },
                )) by {
                    assert(self.castling_rights.has(s));
                    assert(rank_of(s) != back_rank(us));
                }
            },
            _ => {},
        }
    }
}

/// The position after the moves of `line`, one after the other, from `pos`.
pub open spec fn played(pos: Standard, line: Seq<Move>) -> Standard
    decreases line.len(),
{
    if line.len() == 0 {
        pos
    } else {
        played(pos, line.drop_last()).do_move_spec(line.last())
    }
}

/// Whether each move of `line` is legal where it is made, and can be carried out.
pub open spec fn legal_line(pos: Standard, line: Seq<Move>) -> bool
    decreases line.len(),
{
    line.len() == 0 || (legal_line(pos, line.drop_last()) && played(
        pos,
        line.drop_last(),
    ).legal_spec(line.last()) && played(pos, line.drop_last()).applicable(line.last()))
}

/// Every position that legal moves reach from a position that can occur in a game can
/// occur in a game: its color sets are disjoint, its occupied squares are those of the
/// two colors, each side has exactly one king, and the side that has moved is not in
/// check.
pub proof fn lemma_reachable_valid(pos: Standard, line: Seq<Move>)
    requires
        pos.valid(),
        legal_line(pos, line),
    ensures
        played(pos, line).valid(),
    decreases line.len(),
{
    if line.len() > 0 {
        lemma_reachable_valid(pos, line.drop_last());
        played(pos, line.drop_last()).lemma_do_move_valid(line.last());
    }
}

/// What the invariant of a position that can occur in a game says of its board: no
/// square has two colors, the occupied squares are those with a role, and each side has
/// a king on exactly one square.
pub proof fn lemma_valid_board(pos: Standard)
    requires
        pos.valid(),
    ensures
        forall|s: int| !(pos.board.white.has(s) && pos.board.black.has(s)),
        forall|s: int|
            pos.board.occupied_spec().has(s) <==> (pos.board.white.has(s) || pos.board.black.has(s)),
        forall|s: int| pos.board.occupied_spec().has(s) <==> pos.board.role_at_spec(s) is Some,
        forall|color: Color, s: int|
            pos.board.is_king_of(color, s) <==> s == pos.board.king_spec(color),
{
    broadcast use group_bitboard;

    assert forall|s: int| !(pos.board.white.has(s) && pos.board.black.has(s)) by {
        assert(pos.board.square_ok(s));
    }
    assert forall|s: int| pos.board.occupied_spec().has(s) <==> pos.board.role_at_spec(s)
        is Some by {
        pos.board.lemma_occupied(s);
    }
    assert forall|color: Color, s: int|
        pos.board.is_king_of(color, s) <==> s == pos.board.king_spec(color) by {
        let k = pos.board.king_spec(color);
        if color == Color::White {
            assert(pos.board.has_king(Color::White));
        } else {
            assert(pos.board.has_king(Color::Black));
        }
        assert(pos.board.is_king_of(color, k));
        if pos.board.is_king_of(color, s) {
            pos.board.lemma_king_unique(color, s);
        }
    }
}

} // verus!
