//! Why a legal move leaves the own king safe.
//!
//! The generator never carries a move out to see whether the king is attacked afterwards:
//! it reasons from the pieces that shield the king and from the lines through it. The
//! proofs here show that this reasoning is sound.

use vstd::prelude::*;
use crate::attacks::{
    between_spec, bishop_attack, bishop_line, clear_path, forward, king_step, knight_step,
    pawn_step, piece_attack, ray_spec, rook_attack, rook_line,
};
use crate::bitboard::{Bitboard, group_bitboard};
use crate::board::{Board, lemma_clear_path_symmetric};
use crate::position::{Standard, back_rank, castle_king_to, castle_rook_to};
use crate::square::{on_board, file_of, rank_of, at};
use crate::types::{Color, Move, Piece, Role};

verus! {

/// Squares with a square strictly between them are no step of a king, knight or pawn
/// apart.
pub proof fn lemma_no_step_over(a: int, b: int, c: int)
    requires
        between_spec(a, b, c),
    ensures
        !king_step(a, b),
        !knight_step(a, b),
        !pawn_step(Color::White, a, b),
        !pawn_step(Color::Black, a, b),
{
}

/// The step of a knight stays on no line through the square it leaves.
pub proof fn lemma_knight_off_line(f: int, t: int, k: int)
    requires
        knight_step(f, t),
    ensures
        !ray_spec(f, t, k),
{
}

/// A square strictly between two others divides the squares between them.
pub proof fn lemma_between_parts(a: int, k: int, f: int, x: int)
    requires
        between_spec(a, k, f),
    ensures
        between_spec(a, f, x) ==> between_spec(a, k, x),
        between_spec(f, k, x) ==> between_spec(a, k, x),
        between_spec(a, k, x) ==> (x == f || between_spec(a, f, x) || between_spec(f, k, x)),
        rook_line(a, k) ==> rook_line(a, f) && rook_line(f, k),
        bishop_line(a, k) ==> bishop_line(a, f) && bishop_line(f, k),
        rook_line(a, k) || bishop_line(a, k),
{
}

/// A piece strictly between `a` and `k` that goes, along the line through its square and
/// `k`, to a square outside the stretch from `a` to `k` passes over `a` or over `k`.
pub proof fn lemma_leaves_stretch(a: int, k: int, f: int, t: int)
    requires
        between_spec(a, k, f),
        ray_spec(f, t, k),
        t != a,
        t != k,
        !between_spec(a, k, t),
    ensures
        between_spec(f, t, a) || between_spec(f, t, k),
{
}

/// A piece strictly between `a` and `k` that goes one step along the line through its
/// square and `k` stays within the stretch from `a` to `k`.
pub proof fn lemma_step_stays(a: int, k: int, f: int, t: int)
    requires
        between_spec(a, k, f),
        ray_spec(f, t, k),
        king_step(f, t),
    ensures
        t == a || t == k || between_spec(a, k, t),
{
}

/// A pawn strictly between `a` and `k` on a file that goes two steps along the file
/// passes over a square of the stretch from `a` to `k`, and ends within the stretch
/// unless that square is `a` or `k`.
pub proof fn lemma_double_step_stays(a: int, k: int, f: int, d: int)
    requires
        between_spec(a, k, f),
        d == 8 || d == -8,
        on_board(f + 2 * d),
        ray_spec(f, f + 2 * d, k),
    ensures
        f + d == a || f + d == k || between_spec(a, k, f + d),
        f + d == a || f + d == k || f + 2 * d == a || f + 2 * d == k || between_spec(
            a,
            k,
            f + 2 * d,
        ),
{
}

/// The squares strictly between a square off the back rank and one on it, along a file or
/// a diagonal, are off the back rank.
pub proof fn lemma_between_off_rank(a: int, b: int, x: int)
    requires
        between_spec(a, b, x),
        rank_of(a) != rank_of(b),
    ensures
        rank_of(x) != rank_of(b),
        rank_of(x) != rank_of(a),
{
}

impl Board {
    /// On a board that satisfies the invariant, the occupied squares are those with a
    /// piece, and the pieces of a color are on the squares of that color.
    pub proof fn lemma_occupied(self, s: int)
        requires
            self.wf(),
        ensures
            self.occupied_spec().has(s) <==> self.piece_at_spec(s) is Some,
            self.piece_at_spec(s) is Some ==> self.color_at_spec(s) == Some(
                self.piece_at_spec(s).unwrap().color,
            ) && self.role_at_spec(s) == Some(self.piece_at_spec(s).unwrap().role),
            self.color_at_spec(s) is Some <==> self.piece_at_spec(s) is Some,
            self.role_at_spec(s) is Some <==> self.piece_at_spec(s) is Some,
            forall|color: Color|
                self.by_color_spec(color).has(s) <==> self.color_at_spec(s) == Some(color),
            forall|role: Role| self.by_role_spec(role).has(s) <==> self.role_at_spec(s) == Some(role),
    {
        broadcast use group_bitboard;

        assert(self.square_ok(s));
    }

    /// On a board where no side has two kings, the king of a side is where a king of
    /// that side is.
    pub proof fn lemma_king_unique(self, color: Color, s: int)
        requires
            self.valid(),
            self.is_king_of(color, s),
        ensures
            self.king_spec(color) == s,
            self.has_king(color),
    {
        let k = self.king_spec(color);
        assert(self.is_king_of(color, k));
        self.lemma_occupied(s);
        self.lemma_occupied(k);
        assert(self.kings.has(s) && self.kings.has(k));
    }
}

impl Standard {
    /// The king of the side that moves is not attacked after the move `m`.
    pub open spec fn king_safe_after(self, m: Move) -> bool {
        let after = self.do_move_spec(m);
        !after.board.attacked_by(
            self.turn.other_spec(),
            after.occ_spec(),
            after.board.king_spec(self.turn),
        )
    }

    /// What an ordinary move makes of the board.
    pub proof fn lemma_board_after_normal(self, m: Move)
        requires
            self.board.wf(),
            m.wf(),
            m is Normal,
        ensures
            self.board_after(m).wf(),
            forall|t: int|
                #![trigger self.board_after(m).piece_at_spec(t)]
                self.board_after(m).piece_at_spec(t) == if t == m->Normal_to.idx() {
                    Some(
                        Piece {
                            color: self.turn,
                            role: match m->promotion {
                                Some(p) => p,
                                None => m->Normal_role,
                            },
                        },
                    )
                } else if t == m->Normal_from.idx() {
                    None
                } else {
                    self.board.piece_at_spec(t)
                },
    {
        let from = m->Normal_from.idx();
        let to = m->Normal_to.idx();
        let b1 = self.board.removed_spec(from);
        self.board.lemma_removed(from);
        let promoted = self.board.promoted.has(from) || m->promotion is Some;
        let role_after = match m->promotion {
            Some(p) => p,
            None => m->Normal_role,
        };
        b1.lemma_put(to, Piece { color: self.turn, role: role_after }, promoted);
        assert forall|t: int|
            #![trigger self.board_after(m).piece_at_spec(t)]
            self.board_after(m).piece_at_spec(t) == if t == to {
                Some(Piece { color: self.turn, role: role_after })
            } else if t == from {
                None
            } else {
                self.board.piece_at_spec(t)
            } by {
            assert(b1.piece_at_spec(t) == if t == from {
                None
            } else {
                self.board.piece_at_spec(t)
            });
        }
    }

    /// A legal step of the king leaves it safe.
    pub proof fn lemma_king_step_safe(self, m: Move)
        requires
            self.valid(),
            self.legal_spec(m),
            m is Normal,
            m->Normal_role == Role::King,
        ensures
            self.king_safe_after(m),
    {
        broadcast use group_bitboard;

        let k = self.king_sq();
        let from = m->Normal_from.idx();
        let to = m->Normal_to.idx();
        let them = self.turn.other_spec();
        let after = self.do_move_spec(m);
        let occ = self.occ_spec();
        let occ1 = after.occ_spec();
        assert(self.board.is_king_of(self.turn, k));
        self.board.lemma_occupied(k);
        self.lemma_candidate_rule(m);
        self.lemma_king_move_from(m);
        assert(from == k);
        self.lemma_board_after_normal(m);
        assert(after.board.is_king_of(self.turn, to));
        self.lemma_kings_after_normal(m);
        after.board.lemma_king_unique(self.turn, to);
        if after.board.attacked_by(them, occ1, to) {
            let a = choose|a: int|
                #![trigger after.board.attacks_spec(a, occ1, to)]
                after.board.color_at_spec(a) == Some(them) && after.board.attacks_spec(a, occ1, to);
            after.board.lemma_occupied(a);
            self.board.lemma_occupied(a);
            let p = after.board.piece_at_spec(a).unwrap();
            assert(a != to && a != from);
            assert(self.board.piece_at_spec(a) == Some(p));
            let lifted = occ.without_spec(k);
            assert forall|x: int| between_spec(a, to, x) implies (occ1.has(x) <==> lifted.has(
                x,
            )) by {
                after.board.lemma_occupied(x);
                self.board.lemma_occupied(x);
            }
            assert(clear_path(a, to, occ1) ==> clear_path(a, to, lifted));
            assert(self.board.attacks_spec(a, lifted, to));
            assert(self.board.attacked_by(them, lifted, to));
        }
    }

    /// A move of the king that follows the rules of movement leaves the king's square.
    pub proof fn lemma_king_move_from(self, m: Move)
        requires
            self.valid(),
            self.rule_spec(m),
            m is Normal,
            m->Normal_role == Role::King,
        ensures
            m->Normal_from.idx() == self.king_sq(),
            m->Normal_from.idx() != m->Normal_to.idx(),
    {
        broadcast use group_bitboard;

        let k = self.king_sq();
        let from = m->Normal_from.idx();
        assert(self.board.is_king_of(self.turn, k));
        assert(self.our_spec(Role::King).has(from));
        self.board.lemma_occupied(from);
        assert(self.board.is_king_of(self.turn, from));
        self.board.lemma_king_unique(self.turn, from);
    }

    /// After an ordinary move that follows the rules of movement no side has two kings
    /// and no pawn stands on the first or the eighth rank.
    pub proof fn lemma_kings_after_normal(self, m: Move)
        requires
            self.valid(),
            self.rule_spec(m),
            m is Normal,
        ensures
            self.board_after(m).valid(),
    {
        broadcast use group_bitboard;

        self.lemma_board_after_normal(m);
        self.lemma_normal_rule(m);
        let b1 = self.board_after(m);
        let from = m->Normal_from.idx();
        let to = m->Normal_to.idx();
        self.board.lemma_occupied(from);
        assert forall|s: int, t: int|
            #![trigger b1.kings.has(s), b1.kings.has(t)]
            b1.kings.has(s) && b1.kings.has(t) && b1.color_at_spec(s) == b1.color_at_spec(
                t,
            ) implies s == t by {
            b1.lemma_occupied(s);
            b1.lemma_occupied(t);
            self.board.lemma_occupied(s);
            self.board.lemma_occupied(t);
            assert(b1.piece_at_spec(s) is Some);
            assert(b1.piece_at_spec(t) is Some);
            if s != to && t != to {
                assert(self.board.kings.has(s) && self.board.kings.has(t));
            } else if s == to && t != to {
                assert(self.board.kings.has(from) && self.board.kings.has(t));
            } else if t == to && s != to {
                assert(self.board.kings.has(from) && self.board.kings.has(s));
            }
        }
        assert forall|s: int| #![trigger b1.pawns.has(s)] b1.pawns.has(s) implies 1 <= rank_of(s)
            <= 6 by {
            b1.lemma_occupied(s);
            self.board.lemma_occupied(s);
            if s != to {
                assert(self.board.pawns.has(s));
            }
        }
    }

    /// What every ordinary move that follows the rules of movement has: a piece of the
    /// side to move of the role it names, on the square it leaves; another square to go
    /// to, not held by its own side, nor by the king of the other; and a promotion
    /// exactly for a pawn that reaches the last rank, to a role other than pawn and king.
    pub proof fn lemma_normal_rule(self, m: Move)
        requires
            self.valid(),
            self.rule_spec(m),
            m is Normal,
        ensures
            m.wf(),
            m->Normal_from.idx() != m->Normal_to.idx(),
            self.board.piece_at_spec(m->Normal_from.idx()) == Some(
                Piece { color: self.turn, role: m->Normal_role },
            ),
            !self.us_spec().has(m->Normal_to.idx()),
            m->capture == self.board.role_at_spec(m->Normal_to.idx()),
            m->capture != Some(Role::King),
            m->Normal_role == Role::Pawn ==> crate::movegen::promotion_ok(
                self.turn,
                m->Normal_to.idx(),
                m->promotion,
            ),
            m->Normal_role != Role::Pawn ==> m->promotion is None,
            m->Normal_role == Role::Pawn ==> 1 <= rank_of(m->Normal_from.idx()) <= 6,
    {
        broadcast use group_bitboard;

        let from = m->Normal_from.idx();
        let to = m->Normal_to.idx();
        let occ = self.occ_spec();
        self.board.lemma_occupied(from);
        self.board.lemma_occupied(to);
        let all = Bitboard::all_spec();
        assert(self.pseudo_spec(all, all, m));
        if self.pawn_single_spec(all, all, m) || self.pawn_double_spec(all, all, m) {
            assert(self.board.pawns.has(from));
        } else if self.pawn_capture_spec(all, all, m) {
            assert(self.board.pawns.has(from));
            self.lemma_no_king_capture(Piece { color: self.turn, role: Role::Pawn }, from, to);
        } else {
            let via = if self.piece_move_spec(Role::King, Role::King, all, all, m) {
                Role::King
            } else if self.piece_move_spec(Role::Knight, Role::Knight, all, all, m) {
                Role::Knight
            } else if self.piece_move_spec(Role::Rook, Role::Rook, all, all, m)
                || self.piece_move_spec(Role::Queen, Role::Rook, all, all, m) {
                Role::Rook
            } else {
                Role::Bishop
            };
            assert(piece_attack(Piece { color: self.turn, role: via }, from, occ, to));
            assert(piece_attack(Piece { color: self.turn, role: m->Normal_role }, from, occ, to));
            self.lemma_no_king_capture(Piece { color: self.turn, role: m->Normal_role }, from, to);
        }
    }

    /// No piece of the side to move attacks the king of the other side.
    pub proof fn lemma_no_king_capture(self, piece: Piece, from: int, to: int)
        requires
            self.valid(),
            self.board.piece_at_spec(from) == Some(piece),
            piece.color == self.turn,
            piece_attack(piece, from, self.occ_spec(), to),
        ensures
            self.board.role_at_spec(to) != Some(Role::King) || self.us_spec().has(to),
    {
        broadcast use group_bitboard;

        self.board.lemma_occupied(to);
        self.board.lemma_occupied(from);
        let them = self.turn.other_spec();
        if self.board.role_at_spec(to) == Some(Role::King) && !self.us_spec().has(to) {
            assert(self.board.is_king_of(them, to));
            self.board.lemma_king_unique(them, to);
            assert(self.board.attacks_spec(from, self.occ_spec(), to));
            assert(self.board.attacked_by(self.turn, self.occ_spec(), to));
        }
    }

    /// How an ordinary move of a piece other than the king gets to its square: by the step
    /// of a knight, by a slide over empty squares, by one step of a pawn, or by the double
    /// step of a pawn over an empty square onto an empty square.
    pub proof fn lemma_move_shape(self, m: Move)
        requires
            self.rule_spec(m),
            m is Normal,
            m->Normal_role != Role::King,
        ensures
            ({
                let from = m->Normal_from.idx();
                let to = m->Normal_to.idx();
                let occ = self.occ_spec();
                let d = 8 * forward(self.turn);
                ||| knight_step(from, to)
                ||| ((rook_line(from, to) || bishop_line(from, to)) && clear_path(from, to, occ))
                ||| (m->Normal_role == Role::Pawn && king_step(from, to))
                ||| (m->Normal_role == Role::Pawn && to == from + 2 * d && !occ.has(from + d)
                    && !occ.has(to))
            }),
    {
        broadcast use group_bitboard;

        let all = Bitboard::all_spec();
        assert(self.pseudo_spec(all, all, m));
    }

    /// What an ordinary move of a piece other than the king makes of the occupied squares
    /// and of the pieces of the other side.
    pub proof fn lemma_after_piece_move(self, m: Move)
        requires
            self.valid(),
            self.legal_spec(m),
            m is Normal,
            m->Normal_role != Role::King,
        ensures
            ({
                let k = self.king_sq();
                let from = m->Normal_from.idx();
                let to = m->Normal_to.idx();
                let after = self.do_move_spec(m);
                let occ = self.occ_spec();
                let occ1 = after.occ_spec();
                &&& on_board(from) && on_board(to) && on_board(k)
                &&& k != from && k != to && from != to
                &&& occ.has(k) && occ.has(from)
                &&& self.us_spec().has(from)
                &&& !self.us_spec().has(to)
                &&& after.board.king_spec(self.turn) == k
                &&& forall|x: int| #![trigger occ1.has(x)] occ1.has(x) <==> (x == to || (x != from && occ.has(x)))
                &&& forall|a: int|
                    #![trigger after.board.color_at_spec(a)]
                    after.board.color_at_spec(a) == Some(self.turn.other_spec()) ==> a != to && a
                        != from && self.them_spec().has(a) && occ.has(a)
                        && after.board.piece_at_spec(a) == self.board.piece_at_spec(a)
                        && self.board.piece_at_spec(a) is Some
            }),
    {
        broadcast use group_bitboard;

        let k = self.king_sq();
        let from = m->Normal_from.idx();
        let to = m->Normal_to.idx();
        let them = self.turn.other_spec();
        let after = self.do_move_spec(m);
        let occ = self.occ_spec();
        let occ1 = after.occ_spec();
        assert(self.board.is_king_of(self.turn, k));
        self.board.lemma_occupied(k);
        self.board.lemma_occupied(from);
        self.board.lemma_occupied(to);
        self.lemma_candidate_rule(m);
        self.lemma_normal_rule(m);
        self.lemma_board_after_normal(m);
        self.lemma_kings_after_normal(m);
        assert(k != from && k != to);
        assert(after.board.is_king_of(self.turn, k));
        after.board.lemma_king_unique(self.turn, k);
        assert forall|x: int| #![trigger occ1.has(x)] occ1.has(x) <==> (x == to || (x != from && occ.has(x))) by {
            after.board.lemma_occupied(x);
            self.board.lemma_occupied(x);
        }
        assert forall|a: int|
            #![trigger after.board.color_at_spec(a)]
            after.board.color_at_spec(a) == Some(them) implies a != to && a != from
            && self.them_spec().has(a) && occ.has(a) && after.board.piece_at_spec(a)
            == self.board.piece_at_spec(a) && self.board.piece_at_spec(a) is Some by {
            after.board.lemma_occupied(a);
            self.board.lemma_occupied(a);
        }
    }

    /// A piece that alone shields its king from a sniper does not leave the line between
    /// the two by a legal move.
    pub proof fn lemma_pinned_stays(self, m: Move, a: int)
        requires
            self.valid(),
            self.legal_spec(m),
            m is Normal,
            m->Normal_role != Role::King,
            self.them_spec().has(a),
            self.board.piece_at_spec(a) is Some,
            a != m->Normal_to.idx(),
            between_spec(a, self.king_sq(), m->Normal_from.idx()),
            (rook_line(a, self.king_sq()) && (self.board.rooks.has(a) || self.board.queens.has(a)))
                || (bishop_line(a, self.king_sq()) && (self.board.bishops.has(a)
                || self.board.queens.has(a))),
            forall|c: int|
                #![trigger self.occ_spec().has(c)]
                between_spec(a, self.king_sq(), c) && self.occ_spec().has(c) ==> c
                    == m->Normal_from.idx(),
        ensures
            between_spec(a, self.king_sq(), m->Normal_to.idx()),
    {
        broadcast use group_bitboard;

        let k = self.king_sq();
        let from = m->Normal_from.idx();
        let to = m->Normal_to.idx();
        let occ = self.occ_spec();
        let d = 8 * forward(self.turn);
        self.lemma_after_piece_move(m);
        self.board.lemma_occupied(a);
        assert forall|c: int|
            #![trigger self.occ_spec().has(c)]
            between_spec(k, a, c) && self.occ_spec().has(c) implies c == from by {
            assert(between_spec(a, k, c));
        }
        assert(between_spec(k, a, from));
        assert(self.sniper_spec(self.them_spec(), k, a));
        assert(self.pins(self.them_spec(), k, a, from));
        assert(self.blocker_spec(self.them_spec(), k, from));
        assert(ray_spec(from, to, k));
        if !between_spec(a, k, to) {
            lemma_leaves_stretch(a, k, from, to);
            self.lemma_candidate_rule(m);
            self.lemma_move_shape(m);
            lemma_knight_off_line(from, to, k);
            if king_step(from, to) {
                lemma_step_stays(a, k, from, to);
            }
            if to == from + 2 * d {
                lemma_double_step_stays(a, k, from, d);
            }
            assert(occ.has(a) && occ.has(k));
            assert(false);
        }
    }

    /// A legal ordinary move of a piece other than the king leaves the king safe.
    pub proof fn lemma_piece_move_safe(self, m: Move)
        requires
            self.valid(),
            self.legal_spec(m),
            m is Normal,
            m->Normal_role != Role::King,
        ensures
            self.king_safe_after(m),
    {
        let k = self.king_sq();
        let from = m->Normal_from.idx();
        let to = m->Normal_to.idx();
        let them = self.turn.other_spec();
        let after = self.do_move_spec(m);
        let occ = self.occ_spec();
        let occ1 = after.occ_spec();
        self.lemma_after_piece_move(m);
        if after.board.attacked_by(them, occ1, k) {
            let a = choose|a: int|
                #![trigger after.board.attacks_spec(a, occ1, k)]
                after.board.color_at_spec(a) == Some(them) && after.board.attacks_spec(a, occ1, k);
            let p = self.board.piece_at_spec(a).unwrap();
            assert(after.board.piece_at_spec(a) == Some(p));
            assert(piece_attack(p, a, occ1, k));
            assert(occ1.has(to));
            let slides = (rook_line(a, k) || bishop_line(a, k)) && clear_path(a, k, occ1);
            if slides && between_spec(a, k, from) {
                assert(p.role == Role::Rook || p.role == Role::Bishop || p.role == Role::Queen);
                self.board.lemma_occupied(a);
                assert forall|c: int|
                    #![trigger self.occ_spec().has(c)]
                    between_spec(a, k, c) && self.occ_spec().has(c) implies c == from by {
                    if c != from {
                        assert(occ1.has(c));
                    }
                }
                self.lemma_pinned_stays(m, a);
                assert(false);
            } else {
                if slides {
                    assert forall|x: int| between_spec(a, k, x) implies !occ.has(x) by {
                        if occ.has(x) {
                            assert(occ1.has(x));
                        }
                    }
                    assert(clear_path(a, k, occ));
                }
                assert(piece_attack(p, a, occ, k));
                self.lemma_checker_is_target(m, a);
                lemma_no_step_over(a, k, to);
                assert(false);
            }
        }
    }

    /// If a piece gives check, a legal ordinary move of a piece other than the king takes
    /// it or goes between it and the king.
    pub proof fn lemma_checker_is_target(self, m: Move, a: int)
        requires
            self.valid(),
            self.legal_spec(m),
            m is Normal,
            m->Normal_role != Role::King,
            self.them_spec().has(a),
            self.board.piece_at_spec(a) is Some,
            piece_attack(self.board.piece_at_spec(a).unwrap(), a, self.occ_spec(), self.king_sq()),
        ensures
            m->Normal_to.idx() == a || between_spec(a, self.king_sq(), m->Normal_to.idx()),
    {
        let k = self.king_sq();
        let to = m->Normal_to.idx();
        assert(self.board.attacks_spec(a, self.occ_spec(), k));
        assert(self.checker_spec(a));
        assert(self.in_check_spec());
        let c = choose|c: int|
            #![trigger self.single_checker(c)]
            self.single_checker(c) && self.evasion_block_spec(c, m);
        assert(c == a);
        if to != a {
            assert(between_spec(k, a, to));
            assert(between_spec(a, k, to));
        }
    }

    /// What a capture in passing makes of the board.
    pub proof fn lemma_board_after_en_passant(self, m: Move)
        requires
            self.board.wf(),
            m.wf(),
            m is EnPassant,
        ensures
            ({
                let from = m->EnPassant_from.idx();
                let to = m->EnPassant_to.idx();
                let pawn = at(file_of(to), rank_of(from));
                &&& self.board_after(m).wf()
                &&& forall|t: int|
                    #![trigger self.board_after(m).piece_at_spec(t)]
                    self.board_after(m).piece_at_spec(t) == if t == to {
                        Some(Piece { color: self.turn, role: Role::Pawn })
                    } else if t == from || t == pawn {
                        None
                    } else {
                        self.board.piece_at_spec(t)
                    }
            }),
    {
        let from = m->EnPassant_from.idx();
        let to = m->EnPassant_to.idx();
        let pawn = at(file_of(to), rank_of(from));
        let b1 = self.board.removed_spec(pawn);
        self.board.lemma_removed(pawn);
        let b2 = b1.removed_spec(from);
        b1.lemma_removed(from);
        b2.lemma_put(to, Piece { color: self.turn, role: Role::Pawn }, false);
        assert forall|t: int|
            #![trigger self.board_after(m).piece_at_spec(t)]
            self.board_after(m).piece_at_spec(t) == if t == to {
                Some(Piece { color: self.turn, role: Role::Pawn })
            } else if t == from || t == pawn {
                None
            } else {
                self.board.piece_at_spec(t)
            } by {
            assert(b1.piece_at_spec(t) == if t == pawn {
                None
            } else {
                self.board.piece_at_spec(t)
            });
            assert(b2.piece_at_spec(t) == if t == from {
                None
            } else {
                b1.piece_at_spec(t)
            });
        }
    }

    /// What a capture in passing that follows the rules of movement has: a pawn of the
    /// side to move on the square it leaves, the empty en-passant square to go to, and
    /// the pawn of the other side beside it, behind that square.
    pub proof fn lemma_en_passant_rule(self, m: Move)
        requires
            self.valid(),
            self.rule_spec(m),
            m is EnPassant,
        ensures
            ({
                let from = m->EnPassant_from.idx();
                let to = m->EnPassant_to.idx();
                let pawn = at(file_of(to), rank_of(from));
                &&& m.wf()
                &&& on_board(pawn)
                &&& pawn == to - 8 * forward(self.turn)
                &&& self.ep_square == Some(m->EnPassant_to)
                &&& pawn_step(self.turn, from, to)
                &&& self.board.piece_at_spec(from) == Some(
                    Piece { color: self.turn, role: Role::Pawn },
                )
                &&& self.board.piece_at_spec(to) is None
                &&& self.board.piece_at_spec(pawn) == Some(
                    Piece { color: self.turn.other_spec(), role: Role::Pawn },
                )
                &&& rank_of(to) == crate::position::ep_rank(self.turn)
            }),
    {
        broadcast use group_bitboard;

        let from = m->EnPassant_from.idx();
        assert(self.ep_move_spec(m));
        self.board.lemma_occupied(from);
    }

    /// After a capture in passing that follows the rules of movement no side has two
    /// kings and no pawn stands on the first or the eighth rank.
    pub proof fn lemma_kings_after_en_passant(self, m: Move)
        requires
            self.valid(),
            self.rule_spec(m),
            m is EnPassant,
        ensures
            self.board_after(m).valid(),
    {
        broadcast use group_bitboard;

        self.lemma_en_passant_rule(m);
        self.lemma_board_after_en_passant(m);
        let b1 = self.board_after(m);
        let to = m->EnPassant_to.idx();
        assert forall|s: int, t: int|
            #![trigger b1.kings.has(s), b1.kings.has(t)]
            b1.kings.has(s) && b1.kings.has(t) && b1.color_at_spec(s) == b1.color_at_spec(
                t,
            ) implies s == t by {
            b1.lemma_occupied(s);
            b1.lemma_occupied(t);
            self.board.lemma_occupied(s);
            self.board.lemma_occupied(t);
            assert(b1.piece_at_spec(s) is Some);
            assert(b1.piece_at_spec(t) is Some);
            assert(self.board.kings.has(s) && self.board.kings.has(t));
        }
        assert forall|s: int| #![trigger b1.pawns.has(s)] b1.pawns.has(s) implies 1 <= rank_of(s)
            <= 6 by {
            b1.lemma_occupied(s);
            self.board.lemma_occupied(s);
            if s != to {
                assert(self.board.pawns.has(s));
            }
        }
    }

    /// A legal capture in passing leaves the king safe.
    pub proof fn lemma_en_passant_safe(self, m: Move)
        requires
            self.valid(),
            self.legal_spec(m),
            m is EnPassant,
        ensures
            self.king_safe_after(m),
    {
        broadcast use group_bitboard;

        let k = self.king_sq();
        let from = m->EnPassant_from.idx();
        let to = m->EnPassant_to.idx();
        let pawn = at(file_of(to), rank_of(from));
        let them = self.turn.other_spec();
        let after = self.do_move_spec(m);
        let occ = self.occ_spec();
        let occ1 = after.occ_spec();
        let occ2 = occ.toggled_spec(from).toggled_spec(pawn).with_spec(to);
        assert(self.board.is_king_of(self.turn, k));
        self.board.lemma_occupied(k);
        self.board.lemma_occupied(from);
        self.board.lemma_occupied(to);
        self.board.lemma_occupied(pawn);
        self.lemma_candidate_rule(m);
        self.lemma_en_passant_rule(m);
        self.lemma_board_after_en_passant(m);
        self.lemma_kings_after_en_passant(m);
        assert(k != from && k != to && k != pawn);
        assert(after.board.is_king_of(self.turn, k));
        after.board.lemma_king_unique(self.turn, k);
        assert forall|x: int| occ1.has(x) <==> occ2.has(x) by {
            after.board.lemma_occupied(x);
            self.board.lemma_occupied(x);
        }
        if after.board.attacked_by(them, occ1, k) {
            let a = choose|a: int|
                #![trigger after.board.attacks_spec(a, occ1, k)]
                after.board.color_at_spec(a) == Some(them) && after.board.attacks_spec(a, occ1, k);
            after.board.lemma_occupied(a);
            self.board.lemma_occupied(a);
            let p = after.board.piece_at_spec(a).unwrap();
            assert(a != to && a != from && a != pawn);
            assert(self.board.piece_at_spec(a) == Some(p));
            assert(self.them_spec().has(a));
            lemma_clear_path_symmetric(a, k, occ1);
            assert forall|x: int| between_spec(k, a, x) implies (occ1.has(x) <==> occ2.has(x)) by {}
            assert(clear_path(k, a, occ1) ==> clear_path(k, a, occ2));
            let slides = (rook_line(a, k) || bishop_line(a, k)) && clear_path(a, k, occ1) && (
            p.role == Role::Rook || p.role == Role::Bishop || p.role == Role::Queen);
            if slides {
                assert(rook_attack(k, occ2, a) || bishop_attack(k, occ2, a));
                assert(false);
            } else {
                assert(piece_attack(p, a, occ, k));
                assert(self.board.attacks_spec(a, occ, k));
                assert(self.checker_spec(a));
                assert(self.in_check_spec());
                let c = choose|c: int|
                    #![trigger self.single_checker(c)]
                    self.single_checker(c) && self.evasion_block_spec(c, m);
                assert(c == pawn);
                assert(false);
            }
        }
    }

    /// What castling makes of the board.
    pub proof fn lemma_board_after_castle(self, m: Move)
        requires
            self.board.wf(),
            m.wf(),
            m is Castle,
        ensures
            ({
                let king = m->king.idx();
                let rook = m->rook.idx();
                let king_to = castle_king_to(self.turn, king < rook);
                let rook_to = castle_rook_to(self.turn, king < rook);
                &&& self.board_after(m).wf()
                &&& forall|t: int|
                    #![trigger self.board_after(m).piece_at_spec(t)]
                    self.board_after(m).piece_at_spec(t) == if t == king_to {
                        Some(Piece { color: self.turn, role: Role::King })
                    } else if t == rook_to {
                        Some(Piece { color: self.turn, role: Role::Rook })
                    } else if t == king || t == rook {
                        None
                    } else {
                        self.board.piece_at_spec(t)
                    }
            }),
    {
        let king = m->king.idx();
        let rook = m->rook.idx();
        let king_to = castle_king_to(self.turn, king < rook);
        let rook_to = castle_rook_to(self.turn, king < rook);
        let b1 = self.board.removed_spec(king);
        self.board.lemma_removed(king);
        let b2 = b1.removed_spec(rook);
        b1.lemma_removed(rook);
        let b3 = b2.put_spec(rook_to, Piece { color: self.turn, role: Role::Rook }, false);
        b2.lemma_put(rook_to, Piece { color: self.turn, role: Role::Rook }, false);
        b3.lemma_put(king_to, Piece { color: self.turn, role: Role::King }, false);
        assert forall|t: int|
            #![trigger self.board_after(m).piece_at_spec(t)]
            self.board_after(m).piece_at_spec(t) == if t == king_to {
                Some(Piece { color: self.turn, role: Role::King })
            } else if t == rook_to {
                Some(Piece { color: self.turn, role: Role::Rook })
            } else if t == king || t == rook {
                None
            } else {
                self.board.piece_at_spec(t)
            } by {
            assert(b1.piece_at_spec(t) == if t == king {
                None
            } else {
                self.board.piece_at_spec(t)
            });
            assert(b2.piece_at_spec(t) == if t == rook {
                None
            } else {
                b1.piece_at_spec(t)
            });
            assert(b3.piece_at_spec(t) == if t == rook_to {
                Some(Piece { color: self.turn, role: Role::Rook })
            } else {
                b2.piece_at_spec(t)
            });
        }
    }

    /// What castling that follows the rules of movement has: the king of the side to move
    /// and one of its rooks, both on the back rank, no check, and squares to arrive on
    /// that hold no piece other than the two.
    pub proof fn lemma_castle_rule(self, m: Move)
        requires
            self.valid(),
            self.rule_spec(m),
            m is Castle,
        ensures
            ({
                let king = m->king.idx();
                let rook = m->rook.idx();
                let king_to = castle_king_to(self.turn, king < rook);
                let rook_to = castle_rook_to(self.turn, king < rook);
                &&& m.wf()
                &&& !self.in_check_spec()
                &&& self.castle_spec(m)
                &&& king == self.king_sq()
                &&& king != rook
                &&& rank_of(king) == back_rank(self.turn)
                &&& rank_of(rook) == back_rank(self.turn)
                &&& self.board.piece_at_spec(king) == Some(
                    Piece { color: self.turn, role: Role::King },
                )
                &&& self.board.piece_at_spec(rook) == Some(
                    Piece { color: self.turn, role: Role::Rook },
                )
                &&& king_to == king || king_to == rook || self.board.piece_at_spec(king_to) is None
                &&& rook_to == king || rook_to == rook || self.board.piece_at_spec(rook_to) is None
            }),
    {
        broadcast use group_bitboard;

        let king = m->king.idx();
        let rook = m->rook.idx();
        let king_to = castle_king_to(self.turn, king < rook);
        let rook_to = castle_rook_to(self.turn, king < rook);
        let occ = self.occ_spec();
        let them = self.turn.other_spec();
        assert(self.castle_spec(m));
        self.board.lemma_occupied(king);
        self.board.lemma_occupied(rook);
        self.board.lemma_occupied(king_to);
        self.board.lemma_occupied(rook_to);
        assert(self.board.is_king_of(self.turn, king));
        self.board.lemma_king_unique(self.turn, king);
        assert(self.our_spec(Role::Rook).has(rook));
        assert(!occ.has(king_to) || king_to == rook || king_to == king);
        assert(!occ.has(rook_to) || rook_to == rook || rook_to == king);
        assert(!self.board.attacked_by(them, occ, king));
        if self.in_check_spec() {
            let a = choose|a: int| self.checker_spec(a);
            self.board.lemma_occupied(a);
            assert(self.board.color_at_spec(a) == Some(them) && self.board.attacks_spec(
                a,
                occ,
                king,
            ));
            assert(false);
        }
    }

    /// After castling that follows the rules of movement no side has two kings and no
    /// pawn stands on the first or the eighth rank.
    pub proof fn lemma_kings_after_castle(self, m: Move)
        requires
            self.valid(),
            self.rule_spec(m),
            m is Castle,
        ensures
            self.board_after(m).valid(),
    {
        broadcast use group_bitboard;

        self.lemma_castle_rule(m);
        self.lemma_board_after_castle(m);
        let b1 = self.board_after(m);
        let king = m->king.idx();
        let rook = m->rook.idx();
        let king_to = castle_king_to(self.turn, king < rook);
        let rook_to = castle_rook_to(self.turn, king < rook);
        self.board.lemma_occupied(king);
        assert forall|s: int, t: int|
            #![trigger b1.kings.has(s), b1.kings.has(t)]
            b1.kings.has(s) && b1.kings.has(t) && b1.color_at_spec(s) == b1.color_at_spec(
                t,
            ) implies s == t by {
            b1.lemma_occupied(s);
            b1.lemma_occupied(t);
            self.board.lemma_occupied(s);
            self.board.lemma_occupied(t);
            assert(b1.piece_at_spec(s) is Some);
            assert(b1.piece_at_spec(t) is Some);
            if s != king_to && t != king_to {
                assert(self.board.kings.has(s) && self.board.kings.has(t));
            } else if s == king_to && t != king_to {
                assert(self.board.kings.has(king) && self.board.kings.has(t));
            } else if t == king_to && s != king_to {
                assert(self.board.kings.has(king) && self.board.kings.has(s));
            }
        }
        assert forall|s: int| #![trigger b1.pawns.has(s)] b1.pawns.has(s) implies 1 <= rank_of(s)
            <= 6 by {
            b1.lemma_occupied(s);
            self.board.lemma_occupied(s);
            assert(self.board.pawns.has(s));
        }
    }

    /// Legal castling leaves the king safe.
    pub proof fn lemma_castle_safe(self, m: Move)
        requires
            self.valid(),
            self.legal_spec(m),
            m is Castle,
        ensures
            self.king_safe_after(m),
    {
        broadcast use group_bitboard;

        let king = m->king.idx();
        let rook = m->rook.idx();
        let kt = castle_king_to(self.turn, king < rook);
        let rt = castle_rook_to(self.turn, king < rook);
        let them = self.turn.other_spec();
        let after = self.do_move_spec(m);
        let occ = self.occ_spec();
        let occ1 = after.occ_spec();
        self.lemma_candidate_rule(m);
        self.lemma_castle_rule(m);
        self.lemma_board_after_castle(m);
        self.lemma_kings_after_castle(m);
        assert(after.board.is_king_of(self.turn, kt));
        after.board.lemma_king_unique(self.turn, kt);
        assert forall|x: int|
            occ1.has(x) <==> (x == kt || x == rt || (x != king && x != rook && occ.has(x))) by {
            after.board.lemma_occupied(x);
            self.board.lemma_occupied(x);
        }
        assert(!self.board.attacked_by(them, occ, kt));
        assert(!self.board.attacked_by(them, occ, king));
        if after.board.attacked_by(them, occ1, kt) {
            let a = choose|a: int|
                #![trigger after.board.attacks_spec(a, occ1, kt)]
                after.board.color_at_spec(a) == Some(them) && after.board.attacks_spec(a, occ1, kt);
            after.board.lemma_occupied(a);
            self.board.lemma_occupied(a);
            let p = after.board.piece_at_spec(a).unwrap();
            assert(a != kt && a != rt && a != king && a != rook);
            assert(self.board.piece_at_spec(a) == Some(p));
            assert(self.them_spec().has(a));
            assert(!self.board.attacks_spec(a, occ, kt));
            assert(!self.board.attacks_spec(a, occ, king));
            let slides = (rook_line(a, kt) || bishop_line(a, kt)) && clear_path(a, kt, occ1) && (
            p.role == Role::Rook || p.role == Role::Bishop || p.role == Role::Queen);
            if slides {
                assert(!clear_path(a, kt, occ));
                let x = choose|x: int| #![trigger occ.has(x)] between_spec(a, kt, x) && occ.has(x);
                assert(!occ1.has(x));
                assert(x == king || x == rook);
                if rank_of(a) != rank_of(kt) {
                    lemma_between_off_rank(a, kt, x);
                    assert(false);
                } else {
                    assert(rook_line(a, kt));
                    assert(p.role == Role::Rook || p.role == Role::Queen);
                    let lifted = occ.without_spec(rook);
                    assert(!rook_attack(kt, lifted, a));
                    assert(rook_line(kt, a));
                    assert(!clear_path(kt, a, lifted));
                    let y = choose|y: int|
                        #![trigger lifted.has(y)]
                        between_spec(kt, a, y) && lifted.has(y);
                    assert(between_spec(a, kt, y));
                    assert(!occ1.has(y));
                    assert(y == king);
                    assert(rook_line(a, king));
                    assert(!clear_path(a, king, occ));
                    let z = choose|z: int|
                        #![trigger occ.has(z)]
                        between_spec(a, king, z) && occ.has(z);
                    lemma_between_parts(a, kt, king, z);
                    assert(between_spec(a, kt, z));
                    assert(!occ1.has(z));
                    assert(z == rook);
                    assert(false);
                }
            } else {
                assert(piece_attack(p, a, occ, kt));
                assert(false);
            }
        }
    }

    /// A legal move leaves the own king safe: after it, no piece of the other side
    /// attacks the king of the side that has moved.
    pub proof fn lemma_legal_move_safe(self, m: Move)
        requires
            self.valid(),
            self.legal_spec(m),
        ensures
            self.king_safe_after(m),
    {
        match m {
            Move::Normal { role, .. } => {
                if role == Role::King {
                    self.lemma_king_step_safe(m);
                } else {
                    self.lemma_piece_move_safe(m);
                }
            },
            Move::EnPassant { .. } => {
                self.lemma_en_passant_safe(m);
            },
            Move::Castle { .. } => {
                self.lemma_castle_safe(m);
            },
            _ => {},
        }
    }
}

} // verus!
