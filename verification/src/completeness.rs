//! Every move that follows the rules of movement and leaves the own king safe is legal.
//!
//! Together with the proofs that a legal move leaves the king safe, this says that the
//! legal moves are the moves of the rules of chess.

use vstd::prelude::*;
use crate::attacks::{
    between_spec, bishop_attack, bishop_line, clear_path, forward, king_step, piece_attack,
    ray_spec, rook_attack, rook_line,
};
use crate::bitboard::{Bitboard, group_bitboard};
use crate::board::lemma_clear_path_symmetric;
use crate::position::Standard;
use crate::square::{file_of, rank_of, at};
use crate::types::{Move, Piece, Role};

verus! {

/// No piece attacks the square it stands on.
pub proof fn lemma_no_self_attack(piece: Piece, a: int, occ: Bitboard)
    ensures
        !piece_attack(piece, a, occ, a),
{
}

/// One step of the king along the line through it and `c` takes it to a square whose
/// line to `c` runs over squares of the line from the king to `c`, or over the square
/// that the king has left.
pub proof fn lemma_step_along(c: int, k: int, t: int, x: int)
    requires
        ray_spec(c, k, t),
        king_step(k, t),
        t != c,
    ensures
        between_spec(c, t, x) ==> between_spec(c, k, x) || x == k,
        rook_line(c, k) ==> rook_line(c, t),
        bishop_line(c, k) ==> bishop_line(c, t),
{
}

/// Two squares between `k` and `s` lie on one line with `k`; so does `s` with each.
pub proof fn lemma_on_one_line(k: int, s: int, f: int, t: int)
    requires
        between_spec(k, s, f),
    ensures
        ray_spec(f, s, k),
        between_spec(k, s, t) && f != t ==> ray_spec(f, t, k),
        rook_line(k, s) ==> rook_line(s, k),
        bishop_line(k, s) ==> bishop_line(s, k),
{
}

/// Two squares with a common square between each of them and `k` lie on one side of `k`
/// on one line: one of them lies between the other and `k`.
pub proof fn lemma_same_side(c: int, d: int, k: int, t: int)
    requires
        between_spec(c, k, t),
        between_spec(d, k, t),
        c != d,
    ensures
        between_spec(c, k, d) || between_spec(d, k, c),
{
}

impl Standard {
    /// A step of the king that follows the rules of movement and leaves it safe is legal.
    pub proof fn lemma_safe_king_step_is_legal(self, m: Move)
        requires
            self.valid(),
            self.rule_spec(m),
            m is Normal,
            m->Normal_role == Role::King,
            self.king_safe_after(m),
        ensures
            self.legal_spec(m),
    {
        broadcast use group_bitboard;

        let k = self.king_sq();
        let to = m->Normal_to.idx();
        let them = self.turn.other_spec();
        let after = self.do_move_spec(m);
        let occ = self.occ_spec();
        let occ1 = after.occ_spec();
        let lifted = occ.without_spec(k);
        let all = Bitboard::all_spec();
        assert(self.board.is_king_of(self.turn, k));
        self.board.lemma_occupied(k);
        self.lemma_king_move_from(m);
        self.lemma_normal_rule(m);
        self.lemma_board_after_normal(m);
        self.lemma_kings_after_normal(m);
        assert(after.board.is_king_of(self.turn, to));
        after.board.lemma_king_unique(self.turn, to);
        assert(self.pseudo_spec(all, all, m));
        assert(king_step(k, to));
        assert forall|x: int| x != to implies (occ1.has(x) <==> lifted.has(x)) by {
            after.board.lemma_occupied(x);
            self.board.lemma_occupied(x);
        }
        if self.board.attacked_by(them, lifted, to) {
            let a = choose|a: int|
                #![trigger self.board.attacks_spec(a, lifted, to)]
                self.board.color_at_spec(a) == Some(them) && self.board.attacks_spec(a, lifted, to);
            self.board.lemma_occupied(a);
            after.board.lemma_occupied(a);
            let p = self.board.piece_at_spec(a).unwrap();
            lemma_no_self_attack(p, a, lifted);
            assert(a != to && a != k);
            assert(after.board.piece_at_spec(a) == Some(p));
            if clear_path(a, to, lifted) {
                assert forall|x: int| between_spec(a, to, x) implies !occ1.has(x) by {
                    assert(!lifted.has(x));
                }
            }
            assert(after.board.attacks_spec(a, occ1, to));
            assert(after.board.attacked_by(them, occ1, to));
            assert(false);
        }
        assert(self.safe_spec(m));
        if self.in_check_spec() {
            if self.on_check_ray(to) {
                let c = choose|c: int|
                    #![trigger self.slider_checker(c)]
                    self.slider_checker(c) && ray_spec(c, k, to) && to != c;
                self.board.lemma_occupied(c);
                let p = self.board.piece_at_spec(c).unwrap();
                assert(piece_attack(p, c, occ, k));
                assert forall|x: int| between_spec(c, to, x) implies !lifted.has(x) by {
                    lemma_step_along(c, k, to, x);
                }
                lemma_step_along(c, k, to, 0);
                assert(piece_attack(p, c, lifted, to));
                assert(self.board.attacks_spec(c, lifted, to));
                assert(self.board.attacked_by(them, lifted, to));
                assert(false);
            }
            assert(self.evasion_king_spec(m));
        }
    }

    /// After a move of a piece other than the king that follows the rules of movement
    /// and leaves the king safe, a piece that gave check is taken, or is a rook, bishop
    /// or queen with the moved piece now between it and the king.
    pub proof fn lemma_checker_answered(self, m: Move, c: int)
        requires
            self.valid(),
            self.rule_spec(m),
            m is Normal,
            m->Normal_role != Role::King,
            self.king_safe_after(m),
            self.checker_spec(c),
        ensures
            m->Normal_to.idx() == c || (between_spec(c, self.king_sq(), m->Normal_to.idx())
                && clear_path(c, self.king_sq(), self.occ_spec())),
    {
        broadcast use group_bitboard;

        let k = self.king_sq();
        let from = m->Normal_from.idx();
        let to = m->Normal_to.idx();
        let them = self.turn.other_spec();
        let after = self.do_move_spec(m);
        let occ = self.occ_spec();
        let occ1 = after.occ_spec();
        assert(self.board.is_king_of(self.turn, k));
        self.board.lemma_occupied(k);
        self.board.lemma_occupied(from);
        self.board.lemma_occupied(c);
        self.lemma_normal_rule(m);
        self.lemma_board_after_normal(m);
        self.lemma_kings_after_normal(m);
        assert(after.board.is_king_of(self.turn, k));
        after.board.lemma_king_unique(self.turn, k);
        if to != c {
            after.board.lemma_occupied(c);
            let p = self.board.piece_at_spec(c).unwrap();
            assert(after.board.piece_at_spec(c) == Some(p));
            assert(piece_attack(p, c, occ, k));
            if piece_attack(p, c, occ1, k) {
                assert(after.board.attacks_spec(c, occ1, k));
                assert(after.board.attacked_by(them, occ1, k));
                assert(false);
            }
            assert(clear_path(c, k, occ));
            assert(!clear_path(c, k, occ1));
            let x = choose|x: int| #![trigger occ1.has(x)] between_spec(c, k, x) && occ1.has(x);
            after.board.lemma_occupied(x);
            self.board.lemma_occupied(x);
            assert(!occ.has(x));
            assert(x == to);
        }
    }

    /// A move of a piece other than the king that follows the rules of movement and
    /// leaves the king safe is legal.
    pub proof fn lemma_safe_piece_move_is_legal(self, m: Move)
        requires
            self.valid(),
            self.rule_spec(m),
            m is Normal,
            m->Normal_role != Role::King,
            self.king_safe_after(m),
        ensures
            self.legal_spec(m),
    {
        broadcast use group_bitboard;

        let k = self.king_sq();
        let from = m->Normal_from.idx();
        let to = m->Normal_to.idx();
        let them = self.turn.other_spec();
        let after = self.do_move_spec(m);
        let occ = self.occ_spec();
        let occ1 = after.occ_spec();
        let all = Bitboard::all_spec();
        assert(self.board.is_king_of(self.turn, k));
        self.board.lemma_occupied(k);
        self.board.lemma_occupied(from);
        self.board.lemma_occupied(to);
        self.lemma_normal_rule(m);
        self.lemma_board_after_normal(m);
        self.lemma_kings_after_normal(m);
        assert(k != from && k != to);
        assert(after.board.is_king_of(self.turn, k));
        after.board.lemma_king_unique(self.turn, k);
        assert(self.pseudo_spec(all, all, m));
        if self.us_spec().has(from) && self.blocker_spec(self.them_spec(), k, from) && !ray_spec(
            from,
            to,
            k,
        ) {
            let s = choose|s: int|
                #![trigger self.pins(self.them_spec(), k, s, from)]
                self.pins(self.them_spec(), k, s, from);
            lemma_on_one_line(k, s, from, to);
            assert(s != to);
            self.board.lemma_occupied(s);
            after.board.lemma_occupied(s);
            let p = self.board.piece_at_spec(s).unwrap();
            assert(after.board.piece_at_spec(s) == Some(p));
            assert forall|x: int| between_spec(s, k, x) implies !occ1.has(x) by {
                after.board.lemma_occupied(x);
                self.board.lemma_occupied(x);
                assert(between_spec(k, s, x));
                if x != from && self.occ_spec().has(x) {
                    assert(false);
                }
            }
            assert(clear_path(s, k, occ1));
            assert(piece_attack(p, s, occ1, k));
            assert(after.board.attacks_spec(s, occ1, k));
            assert(after.board.attacked_by(them, occ1, k));
            assert(false);
        }
        assert(self.safe_spec(m));
        if self.in_check_spec() {
            let c = choose|c: int| self.checker_spec(c);
            self.lemma_checker_answered(m, c);
            assert forall|d: int| #![trigger self.checker_spec(d)] self.checker_spec(d) implies d
                == c by {
                self.lemma_checker_answered(m, d);
                self.board.lemma_occupied(d);
                self.board.lemma_occupied(c);
                if d != c {
                    if to == c {
                        assert(occ.has(to));
                    } else if to == d {
                        assert(occ.has(to));
                    } else {
                        lemma_same_side(c, d, k, to);
                    }
                    assert(false);
                }
            }
            assert(self.single_checker(c));
            assert(self.board.piece_at_spec(from) == Some(
                Piece { color: self.turn, role: m->Normal_role },
            ));
            assert(!self.board.kings.has(from));
            assert(self.evasion_block_spec(c, m));
        }
    }

    /// A capture in passing that follows the rules of movement and leaves the king safe
    /// is legal, unless the side to move is in check by another piece than the pawn that
    /// the capture takes.
    pub proof fn lemma_safe_en_passant_is_legal(self, m: Move)
        requires
            self.valid(),
            self.rule_spec(m),
            m is EnPassant,
            self.king_safe_after(m),
            self.in_check_spec() ==> self.single_checker(
                m->EnPassant_to.idx() - 8 * forward(self.turn),
            ),
        ensures
            self.legal_spec(m),
    {
        broadcast use group_bitboard;

        let k = self.king_sq();
        let from = m->EnPassant_from.idx();
        let to = m->EnPassant_to.idx();
        let pawn = at(file_of(to), rank_of(from));
        let them = self.turn.other_spec();
        let after = self.do_move_spec(m);
        let occ = self.occ_spec();
        let occ1 = after.occ_spec();
        let occ2 = occ.toggled_spec(from).toggled_spec(pawn).with_spec(to);
        assert(self.board.is_king_of(self.turn, k));
        self.board.lemma_occupied(k);
        self.board.lemma_occupied(from);
        self.board.lemma_occupied(to);
        self.board.lemma_occupied(pawn);
        self.lemma_en_passant_rule(m);
        self.lemma_board_after_en_passant(m);
        self.lemma_kings_after_en_passant(m);
        assert(k != from && k != to && k != pawn);
        assert(after.board.is_king_of(self.turn, k));
        after.board.lemma_king_unique(self.turn, k);
        assert forall|x: int| occ1.has(x) <==> occ2.has(x) by {
            after.board.lemma_occupied(x);
            self.board.lemma_occupied(x);
        }
        assert forall|a: int|
            #![trigger self.them_spec().has(a)]
            self.them_spec().has(a) implies !(rook_attack(k, occ2, a) && (self.board.rooks.has(a)
            || self.board.queens.has(a))) && !(bishop_attack(k, occ2, a) && (
        self.board.bishops.has(a) || self.board.queens.has(a))) by {
            self.board.lemma_occupied(a);
            after.board.lemma_occupied(a);
            let straight = rook_attack(k, occ2, a) && (self.board.rooks.has(a)
                || self.board.queens.has(a));
            let diagonal = bishop_attack(k, occ2, a) && (self.board.bishops.has(a)
                || self.board.queens.has(a));
            if straight || diagonal {
                let p = self.board.piece_at_spec(a).unwrap();
                assert(a != pawn && a != to && a != from);
                assert(after.board.piece_at_spec(a) == Some(p));
                lemma_clear_path_symmetric(a, k, occ1);
                assert forall|x: int| between_spec(k, a, x) implies (occ1.has(x) <==> occ2.has(
                    x,
                )) by {}
                assert(clear_path(k, a, occ2) ==> clear_path(k, a, occ1));
                assert(piece_attack(p, a, occ1, k));
                assert(after.board.attacks_spec(a, occ1, k));
                assert(after.board.attacked_by(them, occ1, k));
                assert(false);
            }
        }
        assert(self.safe_spec(m));
        if self.in_check_spec() {
            assert(self.single_checker(pawn));
            assert(self.evasion_block_spec(pawn, m));
        }
    }

    /// A move that follows the rules of movement and leaves the own king safe is legal.
    ///
    /// One kind of move is left out: a capture in passing by a side in check that does
    /// not take the one piece that gives check. Such a capture can shut out a check only
    /// in a position that no game reaches, and is not counted among the legal moves.
    pub proof fn lemma_safe_rule_move_is_legal(self, m: Move)
        requires
            self.valid(),
            self.rule_spec(m),
            self.king_safe_after(m),
            m is EnPassant && self.in_check_spec() ==> self.single_checker(
                m->EnPassant_to.idx() - 8 * forward(self.turn),
            ),
        ensures
            self.legal_spec(m),
    {
        match m {
            Move::Normal { role, .. } => {
                if role == Role::King {
                    self.lemma_safe_king_step_is_legal(m);
                } else {
                    self.lemma_safe_piece_move_is_legal(m);
                }
            },
            Move::EnPassant { .. } => {
                self.lemma_safe_en_passant_is_legal(m);
            },
            Move::Castle { .. } => {
                self.lemma_castle_rule(m);
            },
            _ => {},
        }
    }

    /// The legal moves are the moves that follow the rules of movement and leave the own
    /// king safe; of the captures in passing by a side in check, those that take the one
    /// piece that gives check.
    pub proof fn lemma_legal_moves_are_the_safe_rule_moves(self, m: Move)
        requires
            self.valid(),
        ensures
            self.legal_spec(m) <==> (self.rule_spec(m) && self.king_safe_after(m) && (m
                is EnPassant && self.in_check_spec() ==> self.single_checker(
                m->EnPassant_to.idx() - 8 * forward(self.turn),
            ))),
    {
        if self.legal_spec(m) {
            self.lemma_candidate_rule(m);
            self.lemma_legal_move_safe(m);
            if m is EnPassant && self.in_check_spec() {
                let c = choose|c: int|
                    #![trigger self.single_checker(c)]
                    self.single_checker(c) && self.evasion_block_spec(c, m);
            }
        }
        if self.rule_spec(m) && self.king_safe_after(m) && (m is EnPassant && self.in_check_spec()
            ==> self.single_checker(m->EnPassant_to.idx() - 8 * forward(self.turn))) {
            self.lemma_safe_rule_move_is_legal(m);
        }
    }
}

} // verus!
