//! The moves of a position: those that follow the rules of movement, and among them
//! those that leave the own king safe.

use vstd::prelude::*;
use crate::attacks::{
    attacks, between, between_spec, bishop_attack, bishop_attacks, bishop_line, forward,
    king_step, pawn_attacks, pawn_step, piece_attack, ray_spec, rook_attack, rook_attacks,
    rook_line,
};
use crate::bitboard::{Bitboard, group_bitboard};

use crate::position::{Standard, back_rank, castle_king_to, castle_rook_to};
use crate::square::{Square, on_board, file_of, rank_of, at};
use crate::types::{Color, Move, Piece, Role};

verus! {

/// Whether `after` holds what `before` holds and the moves that satisfy `added`, each of
/// those once.
pub open spec fn grown(before: Seq<Move>, after: Seq<Move>, added: spec_fn(Move) -> bool) -> bool {
    &&& forall|m: Move|
        #![trigger after.contains(m)]
        after.contains(m) <==> (before.contains(m) || added(m))
    &&& (before.no_duplicates() && (forall|m: Move|
        #![trigger before.contains(m)]
        added(m) ==> !before.contains(m))) ==> after.no_duplicates()
}

/// Appending one move.
pub proof fn lemma_grown_push(before: Seq<Move>, x: Move)
    ensures
        grown(before, before.push(x), |m: Move| m == x),
{
    let after = before.push(x);
    assert forall|m: Move| #![trigger after.contains(m)] after.contains(m) <==> (before.contains(m)
        || m == x) by {
        if before.contains(m) {
            let i = choose|i: int| 0 <= i < before.len() && before[i] == m;
            assert(after[i] == m);
        }
        if m == x {
            assert(after[before.len() as int] == x);
        }
    }
    if before.no_duplicates() && !before.contains(x) {
        assert forall|i: int, j: int| 0 <= i < after.len() && 0 <= j < after.len() && i
            != j implies after[i] != after[j] by {
            if i < before.len() {
                assert(before.contains(before[i]));
            }
            if j < before.len() {
                assert(before.contains(before[j]));
            }
        }
    }
}

/// Nothing appended.
pub proof fn lemma_grown_none(before: Seq<Move>, added: spec_fn(Move) -> bool)
    requires
        forall|m: Move| #![trigger added(m)] !added(m),
    ensures
        grown(before, before, added),
{
}

/// Two appendings in a row are one appending, if no move belongs to both.
pub proof fn lemma_grown_trans(
    a: Seq<Move>,
    b: Seq<Move>,
    c: Seq<Move>,
    p: spec_fn(Move) -> bool,
    q: spec_fn(Move) -> bool,
    r: spec_fn(Move) -> bool,
)
    requires
        grown(a, b, p),
        grown(b, c, q),
        forall|m: Move| #![trigger r(m)] r(m) <==> (p(m) || q(m)),
        forall|m: Move| #![trigger p(m)] !(p(m) && q(m)),
    ensures
        grown(a, c, r),
{
    assert forall|m: Move| #![trigger c.contains(m)] c.contains(m) <==> (a.contains(m) || r(m)) by {
        assert(b.contains(m) <==> (a.contains(m) || p(m)));
    }
    if a.no_duplicates() && (forall|m: Move| #![trigger a.contains(m)] r(m) ==> !a.contains(m)) {
        assert forall|m: Move| #![trigger a.contains(m)] p(m) implies !a.contains(m) by {
            assert(r(m));
        }
        assert(b.no_duplicates());
        assert forall|m: Move| #![trigger b.contains(m)] q(m) implies !b.contains(m) by {
            assert(r(m));
            assert(!p(m));
            assert(!a.contains(m));
        }
    }
}

/// The same appending, described in other words.
pub proof fn lemma_grown_same(
    a: Seq<Move>,
    b: Seq<Move>,
    p: spec_fn(Move) -> bool,
    r: spec_fn(Move) -> bool,
)
    requires
        grown(a, b, p),
        forall|m: Move| #![trigger r(m)] r(m) <==> p(m),
    ensures
        grown(a, b, r),
{
    assert forall|m: Move| #![trigger b.contains(m)] b.contains(m) <==> (a.contains(m) || r(m)) by {
        assert(r(m) <==> p(m));
    }
    if a.no_duplicates() && (forall|m: Move| #![trigger a.contains(m)] r(m) ==> !a.contains(m)) {
        assert forall|m: Move| #![trigger a.contains(m)] p(m) implies !a.contains(m) by {
            assert(r(m));
        }
    }
}

/// The roles to which a pawn may promote.
pub open spec fn promotes_to(role: Role) -> bool {
    role == Role::Queen || role == Role::Rook || role == Role::Bishop || role == Role::Knight
}

/// Whether `promotion` fits a pawn of `color` that arrives on `to`: a role on the last
/// rank, nothing elsewhere.
pub open spec fn promotion_ok(color: Color, to: int, promotion: Option<Role>) -> bool {
    if rank_of(to) == back_rank(color.other_spec()) {
        promotion is Some && promotes_to(promotion.unwrap())
    } else {
        promotion is None
    }
}

impl Standard {
    /// Whether `m` takes a piece of `role` from `from` to a member of `targets`, noting
    /// what stands there.
    pub open spec fn is_step(self, role: Role, from: Square, targets: Bitboard, m: Move) -> bool {
        match m {
            Move::Normal { role: r, from: f, capture, to, promotion } => r == role && f == from
                && to.wf() && targets.has(to.idx()) && capture == self.board.role_at_spec(to.idx())
                && promotion is None,
            _ => false,
        }
    }

    /// Whether `m` takes a pawn from `from` to `to`, noting what stands there, with a
    /// promotion exactly on the last rank.
    pub open spec fn is_pawn_step(self, from: Square, to: Square, m: Move) -> bool {
        match m {
            Move::Normal { role, from: f, capture, to: t, promotion } => role == Role::Pawn && f
                == from && t == to && capture == self.board.role_at_spec(to.idx()) && promotion_ok(
                self.turn,
                to.idx(),
                promotion,
            ),
            _ => false,
        }
    }

    /// Whether `m` is a move of a piece of `role` of the side to move, standing on a
    /// member of `sel`, to a member of `tgt` that its own side does not hold and that a
    /// piece of role `via` would attack from there.
    pub open spec fn piece_move_spec(
        self,
        role: Role,
        via: Role,
        sel: Bitboard,
        tgt: Bitboard,
        m: Move,
    ) -> bool {
        match m {
            Move::Normal { role: r, from, capture, to, promotion } => r == role && from.wf()
                && to.wf() && self.our_spec(role).has(from.idx()) && sel.has(from.idx())
                && piece_attack(
                Piece { color: self.turn, role: via },
                from.idx(),
                self.occ_spec(),
                to.idx(),
            ) && !self.us_spec().has(to.idx()) && tgt.has(to.idx()) && capture
                == self.board.role_at_spec(to.idx()) && promotion is None,
            _ => false,
        }
    }

    /// Whether `m` is a capture by a pawn of the side to move.
    pub open spec fn pawn_capture_spec(self, sel: Bitboard, tgt: Bitboard, m: Move) -> bool {
        match m {
            Move::Normal { role, from, capture, to, promotion } => role == Role::Pawn && from.wf()
                && to.wf() && self.our_spec(Role::Pawn).has(from.idx()) && sel.has(from.idx())
                && pawn_step(self.turn, from.idx(), to.idx()) && self.them_spec().has(to.idx())
                && tgt.has(to.idx()) && capture == self.board.role_at_spec(to.idx())
                && promotion_ok(self.turn, to.idx(), promotion),
            _ => false,
        }
    }

    /// Whether `m` is a single step of a pawn of the side to move onto an empty square.
    pub open spec fn pawn_single_spec(self, sel: Bitboard, tgt: Bitboard, m: Move) -> bool {
        match m {
            Move::Normal { role, from, capture, to, promotion } => role == Role::Pawn && from.wf()
                && to.wf() && self.our_spec(Role::Pawn).has(from.idx()) && sel.has(from.idx())
                && to.idx() == from.idx() + 8 * forward(self.turn) && !self.occ_spec().has(to.idx())
                && tgt.has(to.idx()) && capture == self.board.role_at_spec(to.idx())
                && promotion_ok(self.turn, to.idx(), promotion),
            _ => false,
        }
    }

    /// Whether `m` is a double step of a pawn of the side to move from the rank where the
    /// pawns begin over an empty square onto an empty square.
    pub open spec fn pawn_double_spec(self, sel: Bitboard, tgt: Bitboard, m: Move) -> bool {
        match m {
            Move::Normal { role, from, capture, to, promotion } => role == Role::Pawn && from.wf()
                && to.wf() && self.our_spec(Role::Pawn).has(from.idx()) && sel.has(from.idx())
                && to.idx() == from.idx() + 16 * forward(self.turn) && rank_of(from.idx())
                == back_rank(self.turn) + forward(self.turn) && !self.occ_spec().has(
                from.idx() + 8 * forward(self.turn),
            ) && !self.occ_spec().has(to.idx()) && tgt.has(to.idx()) && capture
                == self.board.role_at_spec(to.idx()) && promotion_ok(self.turn, to.idx(), promotion),
            _ => false,
        }
    }

    /// Whether `m` follows the rules of movement for a piece of the side to move that
    /// stands on a member of `sel` and goes to a member of `tgt`: a step of a king or a
    /// knight, a slide of a rook, bishop or queen up to the first occupied square, or a
    /// capture, single step or double step of a pawn.
    pub open spec fn pseudo_spec(self, sel: Bitboard, tgt: Bitboard, m: Move) -> bool {
        ||| self.piece_move_spec(Role::King, Role::King, sel, tgt, m)
        ||| self.piece_move_spec(Role::Knight, Role::Knight, sel, tgt, m)
        ||| self.piece_move_spec(Role::Rook, Role::Rook, sel, tgt, m)
        ||| self.piece_move_spec(Role::Queen, Role::Rook, sel, tgt, m)
        ||| self.piece_move_spec(Role::Bishop, Role::Bishop, sel, tgt, m)
        ||| self.piece_move_spec(Role::Queen, Role::Bishop, sel, tgt, m)
        ||| self.pawn_capture_spec(sel, tgt, m)
        ||| self.pawn_single_spec(sel, tgt, m)
        ||| self.pawn_double_spec(sel, tgt, m)
    }

    /// Appends `m` to `moves`.
    pub fn push_move(moves: &mut Vec<Move>, m: Move)
        ensures
            final(moves)@ == old(moves)@.push(m),
            grown(old(moves)@, final(moves)@, |x: Move| x == m),
    {
        proof {
            lemma_grown_push(moves@, m);
        }
        moves.push(m);
    }

    /// Appends to `moves` the moves of the pawn on `from` to `to`: one for each role it
    /// may promote to if `to` is on the last rank, one otherwise.
    pub fn push_pawn_moves(&self, moves: &mut Vec<Move>, from: Square, to: Square)
        requires
            from.wf(),
            to.wf(),
        ensures
            grown(old(moves)@, final(moves)@, |m: Move| self.is_pawn_step(from, to, m)),
    {
        let capture = self.board.role_at(to);
        let ghost s0 = moves@;
        if to.rank() == self.turn.fold(7, 0) {
            let mq = Move::Normal { role: Role::Pawn, from, capture, to, promotion: Some(Role::Queen) };
            let mr = Move::Normal { role: Role::Pawn, from, capture, to, promotion: Some(Role::Rook) };
            let mb = Move::Normal {
                role: Role::Pawn,
                from,
                capture,
                to,
                promotion: Some(Role::Bishop),
            };
            let mn = Move::Normal {
                role: Role::Pawn,
                from,
                capture,
                to,
                promotion: Some(Role::Knight),
            };
            Standard::push_move(moves, mq);
            let ghost s1 = moves@;
            Standard::push_move(moves, mr);
            let ghost s2 = moves@;
            Standard::push_move(moves, mb);
            let ghost s3 = moves@;
            Standard::push_move(moves, mn);
            proof {
                let s4 = moves@;
                let h1 = |x: Move| x == mq;
                let h2 = |x: Move| x == mq || x == mr;
                let h3 = |x: Move| x == mq || x == mr || x == mb;
                let h4 = |m: Move| self.is_pawn_step(from, to, m);
                lemma_grown_trans(s0, s1, s2, h1, |x: Move| x == mr, h2);
                lemma_grown_trans(s0, s2, s3, h2, |x: Move| x == mb, h3);
                lemma_grown_trans(s0, s3, s4, h3, |x: Move| x == mn, h4);
            }
        } else {
            let m0 = Move::Normal { role: Role::Pawn, from, capture, to, promotion: None };
            Standard::push_move(moves, m0);
            proof {
                lemma_grown_same(
                    s0,
                    moves@,
                    |x: Move| x == m0,
                    |m: Move| self.is_pawn_step(from, to, m),
                );
            }
        }
    }

    /// Appends to `moves` the moves of the piece of `role` on `from` to each member of
    /// `to`.
    pub fn push_moves(&self, moves: &mut Vec<Move>, role: Role, from: Square, to: Bitboard)
        requires
            from.wf(),
        ensures
            grown(old(moves)@, final(moves)@, |m: Move| self.is_step(role, from, to, m)),
    {
        let ghost s0 = moves@;
        let mut rest = to;
        proof {
            let h0 = |m: Move| self.is_step(role, from, to.minus_spec(rest), m);
            assert forall|m: Move| #![trigger h0(m)] !h0(m) by {
                if let Move::Normal { to: t, .. } = m {
                    to.lemma_minus(rest, t.idx());
                }
            }
            lemma_grown_none(s0, h0);
        }
        while rest.0 != 0
            invariant
                from.wf(),
                forall|t: int| #![trigger rest.has(t)] rest.has(t) ==> to.has(t),
                grown(s0, moves@, |m: Move| self.is_step(role, from, to.minus_spec(rest), m)),
            decreases rest.0,
        {
            let ghost s1 = moves@;
            let ghost before = rest;
            let popped = rest.pop_first();
            let sq = popped.unwrap();
            let m0 = Move::Normal {
                role,
                from,
                capture: self.board.role_at(sq),
                to: sq,
                promotion: None,
            };
            Standard::push_move(moves, m0);
            proof {
                let p = |m: Move| self.is_step(role, from, to.minus_spec(before), m);
                let q = |x: Move| x == m0;
                let r = |m: Move| self.is_step(role, from, to.minus_spec(rest), m);
                assert forall|t: int| #![trigger rest.has(t)] rest.has(t) implies to.has(t) by {
                    before.lemma_without(sq.idx(), t);
                }
                assert forall|m: Move| #![trigger r(m)] r(m) <==> (p(m) || q(m)) by {
                    if let Move::Normal { to: t, .. } = m {
                        to.lemma_minus(before, t.idx());
                        to.lemma_minus(rest, t.idx());
                        before.lemma_without(sq.idx(), t.idx());
                    }
                }
                assert forall|m: Move| #![trigger p(m)] !(p(m) && q(m)) by {
                    to.lemma_minus(before, sq.idx());
                }
                lemma_grown_trans(s0, s1, moves@, p, q, r);
            }
        }
        proof {
            let p = |m: Move| self.is_step(role, from, to.minus_spec(rest), m);
            let r = |m: Move| self.is_step(role, from, to, m);
            assert forall|m: Move| #![trigger r(m)] r(m) <==> p(m) by {
                if let Move::Normal { to: t, .. } = m {
                    to.lemma_minus(rest, t.idx());
                    Bitboard::lemma_empty(t.idx());
                }
            }
            lemma_grown_same(s0, moves@, p, r);
        }
    }

    /// Whether `m` takes the pawn on `from` to a member of `targets`, noting what stands
    /// there, with a promotion exactly on the last rank.
    pub open spec fn is_pawn_fan(self, from: Square, targets: Bitboard, m: Move) -> bool {
        match m {
            Move::Normal { role, from: f, capture, to, promotion } => role == Role::Pawn && f
                == from && to.wf() && targets.has(to.idx()) && capture == self.board.role_at_spec(
                to.idx(),
            ) && promotion_ok(self.turn, to.idx(), promotion),
            _ => false,
        }
    }

    /// Appends to `moves` the moves of the pawn on `from` to each member of `to`.
    pub fn push_pawn_fan(&self, moves: &mut Vec<Move>, from: Square, to: Bitboard)
        requires
            from.wf(),
        ensures
            grown(old(moves)@, final(moves)@, |m: Move| self.is_pawn_fan(from, to, m)),
    {
        let ghost s0 = moves@;
        let mut rest = to;
        proof {
            let h0 = |m: Move| self.is_pawn_fan(from, to.minus_spec(rest), m);
            assert forall|m: Move| #![trigger h0(m)] !h0(m) by {
                if let Move::Normal { to: t, .. } = m {
                    to.lemma_minus(rest, t.idx());
                }
            }
            lemma_grown_none(s0, h0);
        }
        while rest.0 != 0
            invariant
                from.wf(),
                forall|t: int| #![trigger rest.has(t)] rest.has(t) ==> to.has(t),
                grown(s0, moves@, |m: Move| self.is_pawn_fan(from, to.minus_spec(rest), m)),
            decreases rest.0,
        {
            let ghost s1 = moves@;
            let ghost before = rest;
            let popped = rest.pop_first();
            let sq = popped.unwrap();
            self.push_pawn_moves(moves, from, sq);
            proof {
                let p = |m: Move| self.is_pawn_fan(from, to.minus_spec(before), m);
                let q = |m: Move| self.is_pawn_step(from, sq, m);
                let r = |m: Move| self.is_pawn_fan(from, to.minus_spec(rest), m);
                assert forall|t: int| #![trigger rest.has(t)] rest.has(t) implies to.has(t) by {
                    before.lemma_without(sq.idx(), t);
                }
                assert forall|m: Move| #![trigger r(m)] r(m) <==> (p(m) || q(m)) by {
                    if let Move::Normal { to: t, .. } = m {
                        to.lemma_minus(before, t.idx());
                        to.lemma_minus(rest, t.idx());
                        before.lemma_without(sq.idx(), t.idx());
                    }
                }
                assert forall|m: Move| #![trigger p(m)] !(p(m) && q(m)) by {
                    to.lemma_minus(before, sq.idx());
                }
                lemma_grown_trans(s0, s1, moves@, p, q, r);
            }
        }
        proof {
            let p = |m: Move| self.is_pawn_fan(from, to.minus_spec(rest), m);
            let r = |m: Move| self.is_pawn_fan(from, to, m);
            assert forall|m: Move| #![trigger r(m)] r(m) <==> p(m) by {
                if let Move::Normal { to: t, .. } = m {
                    to.lemma_minus(rest, t.idx());
                    Bitboard::lemma_empty(t.idx());
                }
            }
            lemma_grown_same(s0, moves@, p, r);
        }
    }

    /// Appends to `moves` the moves of the pieces of `role` of the side to move that stand
    /// on a member of `sel`, to the members of `tgt` that their own side does not hold and
    /// that a piece of role `via` attacks from there.
    pub fn gen_piece_moves(
        &self,
        moves: &mut Vec<Move>,
        role: Role,
        via: Role,
        sel: Bitboard,
        tgt: Bitboard,
    )
        ensures
            grown(
                old(moves)@,
                final(moves)@,
                |m: Move| self.piece_move_spec(role, via, sel, tgt, m),
            ),
    {
        broadcast use group_bitboard;

        let ghost s0 = moves@;
        let occ = self.board.occupied();
        let us = self.us();
        let mut rest = self.our(role).intersect(sel);
        proof {
            let h0 = |m: Move| self.piece_move_spec(role, via, sel.minus_spec(rest), tgt, m);
            assert forall|m: Move| #![trigger h0(m)] !h0(m) by {
                if let Move::Normal { from: f, .. } = m {
                    sel.lemma_minus(rest, f.idx());
                    self.our_spec(role).lemma_intersect(sel, f.idx());
                }
            }
            lemma_grown_none(s0, h0);
        }
        while rest.0 != 0
            invariant
                occ == self.occ_spec(),
                us == self.us_spec(),
                forall|t: int|
                    #![trigger rest.has(t)]
                    rest.has(t) ==> self.our_spec(role).has(t) && sel.has(t),
                grown(
                    s0,
                    moves@,
                    |m: Move| self.piece_move_spec(role, via, sel.minus_spec(rest), tgt, m),
                ),
            decreases rest.0,
        {
            let ghost s1 = moves@;
            let ghost before = rest;
            let popped = rest.pop_first();
            let from = popped.unwrap();
            let reach = attacks(from, via.of(self.turn), occ);
            let targets = reach.minus(us).intersect(tgt);
            self.push_moves(moves, role, from, targets);
            proof {
                let p = |m: Move| self.piece_move_spec(role, via, sel.minus_spec(before), tgt, m);
                let q = |m: Move| self.is_step(role, from, targets, m);
                let r = |m: Move| self.piece_move_spec(role, via, sel.minus_spec(rest), tgt, m);
                assert forall|t: int| #![trigger rest.has(t)] rest.has(t) implies self.our_spec(
                    role,
                ).has(t) && sel.has(t) by {
                    before.lemma_without(from.idx(), t);
                }
                assert forall|m: Move| #![trigger r(m)] r(m) <==> (p(m) || q(m)) by {
                    if let Move::Normal { from: f, to: t, .. } = m {
                        sel.lemma_minus(before, f.idx());
                        sel.lemma_minus(rest, f.idx());
                        before.lemma_without(from.idx(), f.idx());
                        reach.minus_spec(us).lemma_intersect(tgt, t.idx());
                        reach.lemma_minus(us, t.idx());
                    }
                }
                assert forall|m: Move| #![trigger p(m)] !(p(m) && q(m)) by {
                    sel.lemma_minus(before, from.idx());
                }
                lemma_grown_trans(s0, s1, moves@, p, q, r);
            }
        }
        proof {
            let p = |m: Move| self.piece_move_spec(role, via, sel.minus_spec(rest), tgt, m);
            let r = |m: Move| self.piece_move_spec(role, via, sel, tgt, m);
            assert forall|m: Move| #![trigger r(m)] r(m) <==> p(m) by {
                if let Move::Normal { from: f, .. } = m {
                    sel.lemma_minus(rest, f.idx());
                    Bitboard::lemma_empty(f.idx());
                }
            }
            lemma_grown_same(s0, moves@, p, r);
        }
    }

    /// Appends to `moves` the captures by the pawns of the side to move that stand on a
    /// member of `sel`, onto the members of `tgt`.
    pub fn gen_pawn_captures(&self, moves: &mut Vec<Move>, sel: Bitboard, tgt: Bitboard)
        ensures
            grown(old(moves)@, final(moves)@, |m: Move| self.pawn_capture_spec(sel, tgt, m)),
    {
        broadcast use group_bitboard;

        let ghost s0 = moves@;
        let them = self.them();
        let mut rest = self.our(Role::Pawn).intersect(sel);
        proof {
            let h0 = |m: Move| self.pawn_capture_spec(sel.minus_spec(rest), tgt, m);
            assert forall|m: Move| #![trigger h0(m)] !h0(m) by {
                if let Move::Normal { from: f, .. } = m {
                    sel.lemma_minus(rest, f.idx());
                    self.our_spec(Role::Pawn).lemma_intersect(sel, f.idx());
                }
            }
            lemma_grown_none(s0, h0);
        }
        while rest.0 != 0
            invariant
                them == self.them_spec(),
                forall|t: int|
                    #![trigger rest.has(t)]
                    rest.has(t) ==> self.our_spec(Role::Pawn).has(t) && sel.has(t),
                grown(s0, moves@, |m: Move| self.pawn_capture_spec(sel.minus_spec(rest), tgt, m)),
            decreases rest.0,
        {
            let ghost s1 = moves@;
            let ghost before = rest;
            let popped = rest.pop_first();
            let from = popped.unwrap();
            let reach = pawn_attacks(self.turn, from);
            let targets = reach.intersect(them).intersect(tgt);
            self.push_pawn_fan(moves, from, targets);
            proof {
                let p = |m: Move| self.pawn_capture_spec(sel.minus_spec(before), tgt, m);
                let q = |m: Move| self.is_pawn_fan(from, targets, m);
                let r = |m: Move| self.pawn_capture_spec(sel.minus_spec(rest), tgt, m);
                assert forall|t: int| #![trigger rest.has(t)] rest.has(t) implies self.our_spec(
                    Role::Pawn,
                ).has(t) && sel.has(t) by {
                    before.lemma_without(from.idx(), t);
                }
                assert forall|m: Move| #![trigger r(m)] r(m) <==> (p(m) || q(m)) by {
                    if let Move::Normal { from: f, to: t, .. } = m {
                        sel.lemma_minus(before, f.idx());
                        sel.lemma_minus(rest, f.idx());
                        before.lemma_without(from.idx(), f.idx());
                        reach.intersect_spec(them).lemma_intersect(tgt, t.idx());
                        reach.lemma_intersect(them, t.idx());
                    }
                }
                assert forall|m: Move| #![trigger p(m)] !(p(m) && q(m)) by {
                    sel.lemma_minus(before, from.idx());
                }
                lemma_grown_trans(s0, s1, moves@, p, q, r);
            }
        }
        proof {
            let p = |m: Move| self.pawn_capture_spec(sel.minus_spec(rest), tgt, m);
            let r = |m: Move| self.pawn_capture_spec(sel, tgt, m);
            assert forall|m: Move| #![trigger r(m)] r(m) <==> p(m) by {
                if let Move::Normal { from: f, .. } = m {
                    sel.lemma_minus(rest, f.idx());
                    Bitboard::lemma_empty(f.idx());
                }
            }
            lemma_grown_same(s0, moves@, p, r);
        }
    }

    /// The empty squares one step before the pawns of the side to move that stand on a
    /// member of `sel`.
    pub fn single_steps(&self, sel: Bitboard) -> (res: Bitboard)
        ensures
            forall|t: int|
                #![trigger res.has(t)]
                res.has(t) <==> (on_board(t) && self.our_spec(Role::Pawn).has(
                    t - 8 * forward(self.turn),
                ) && sel.has(t - 8 * forward(self.turn)) && !self.occ_spec().has(t)),
    {
        broadcast use group_bitboard;

        self.our(Role::Pawn).intersect(sel).relative_shift(self.turn, 8).minus(
            self.board.occupied(),
        )
    }

    /// The empty squares two steps before the pawns of the side to move that stand on
    /// the rank where the pawns begin and on a member of `sel`, with an empty square in
    /// between.
    pub fn double_steps(&self, sel: Bitboard) -> (res: Bitboard)
        ensures
            forall|t: int|
                #![trigger res.has(t)]
                res.has(t) <==> (on_board(t) && self.our_spec(Role::Pawn).has(
                    t - 16 * forward(self.turn),
                ) && sel.has(t - 16 * forward(self.turn)) && rank_of(t - 16 * forward(self.turn))
                    == back_rank(self.turn) + forward(self.turn) && !self.occ_spec().has(
                    t - 8 * forward(self.turn),
                ) && !self.occ_spec().has(t)),
    {
        broadcast use group_bitboard;

        let single = self.single_steps(sel);
        single.relative_shift(self.turn, 8).intersect(Bitboard::relative_rank(self.turn, 3)).minus(
            self.board.occupied(),
        )
    }

    /// Appends to `moves` the single steps of the pawns of the side to move that stand on
    /// a member of `sel`, onto the members of `tgt`.
    pub fn gen_pawn_singles(&self, moves: &mut Vec<Move>, sel: Bitboard, tgt: Bitboard)
        ensures
            grown(old(moves)@, final(moves)@, |m: Move| self.pawn_single_spec(sel, tgt, m)),
    {
        broadcast use group_bitboard;

        let ghost s0 = moves@;
        let steps = self.single_steps(sel);
        let back: i8 = self.turn.fold(-8, 8);
        let mut rest = steps.intersect(tgt);
        proof {
            let h0 = |m: Move| self.pawn_single_spec(sel, tgt.minus_spec(rest), m);
            assert forall|m: Move| #![trigger h0(m)] !h0(m) by {
                if let Move::Normal { to: t, .. } = m {
                    tgt.lemma_minus(rest, t.idx());
                    steps.lemma_intersect(tgt, t.idx());
                }
            }
            lemma_grown_none(s0, h0);
        }
        while rest.0 != 0
            invariant
                back == -8 * forward(self.turn),
                forall|t: int|
                    #![trigger steps.has(t)]
                    steps.has(t) <==> (on_board(t) && self.our_spec(Role::Pawn).has(
                        t - 8 * forward(self.turn),
                    ) && sel.has(t - 8 * forward(self.turn)) && !self.occ_spec().has(t)),
                forall|t: int| #![trigger rest.has(t)] rest.has(t) ==> steps.has(t) && tgt.has(t),
                grown(s0, moves@, |m: Move| self.pawn_single_spec(sel, tgt.minus_spec(rest), m)),
            decreases rest.0,
        {
            let ghost s1 = moves@;
            let ghost before = rest;
            let popped = rest.pop_first();
            let to = popped.unwrap();
            assert(steps.has(to.idx()));
            let origin = to.offset(back);
            let from = origin.unwrap();
            self.push_pawn_moves(moves, from, to);
            proof {
                let p = |m: Move| self.pawn_single_spec(sel, tgt.minus_spec(before), m);
                let q = |m: Move| self.is_pawn_step(from, to, m);
                let r = |m: Move| self.pawn_single_spec(sel, tgt.minus_spec(rest), m);
                assert forall|t: int| #![trigger rest.has(t)] rest.has(t) implies steps.has(t)
                    && tgt.has(t) by {
                    before.lemma_without(to.idx(), t);
                }
                assert forall|m: Move| #![trigger r(m)] r(m) <==> (p(m) || q(m)) by {
                    if let Move::Normal { to: t, .. } = m {
                        tgt.lemma_minus(before, t.idx());
                        tgt.lemma_minus(rest, t.idx());
                        before.lemma_without(to.idx(), t.idx());
                        if t.wf() {
                            assert(steps.has(t.idx()) || !steps.has(t.idx()));
                        }
                    }
                }
                assert forall|m: Move| #![trigger p(m)] !(p(m) && q(m)) by {
                    tgt.lemma_minus(before, to.idx());
                }
                lemma_grown_trans(s0, s1, moves@, p, q, r);
            }
        }
        proof {
            let p = |m: Move| self.pawn_single_spec(sel, tgt.minus_spec(rest), m);
            let r = |m: Move| self.pawn_single_spec(sel, tgt, m);
            assert forall|m: Move| #![trigger r(m)] r(m) <==> p(m) by {
                if let Move::Normal { to: t, .. } = m {
                    tgt.lemma_minus(rest, t.idx());
                    Bitboard::lemma_empty(t.idx());
                }
            }
            lemma_grown_same(s0, moves@, p, r);
        }
    }

    /// Appends to `moves` the double steps of the pawns of the side to move that stand on
    /// a member of `sel`, onto the members of `tgt`.
    pub fn gen_pawn_doubles(&self, moves: &mut Vec<Move>, sel: Bitboard, tgt: Bitboard)
        ensures
            grown(old(moves)@, final(moves)@, |m: Move| self.pawn_double_spec(sel, tgt, m)),
    {
        broadcast use group_bitboard;

        let ghost s0 = moves@;
        let steps = self.double_steps(sel);
        let back: i8 = self.turn.fold(-16, 16);
        let mut rest = steps.intersect(tgt);
        proof {
            let h0 = |m: Move| self.pawn_double_spec(sel, tgt.minus_spec(rest), m);
            assert forall|m: Move| #![trigger h0(m)] !h0(m) by {
                if let Move::Normal { to: t, .. } = m {
                    tgt.lemma_minus(rest, t.idx());
                    steps.lemma_intersect(tgt, t.idx());
                }
            }
            lemma_grown_none(s0, h0);
        }
        while rest.0 != 0
            invariant
                back == -16 * forward(self.turn),
                forall|t: int|
                    #![trigger steps.has(t)]
                    steps.has(t) <==> (on_board(t) && self.our_spec(Role::Pawn).has(
                        t - 16 * forward(self.turn),
                    ) && sel.has(t - 16 * forward(self.turn)) && rank_of(
                        t - 16 * forward(self.turn),
                    ) == back_rank(self.turn) + forward(self.turn) && !self.occ_spec().has(
                        t - 8 * forward(self.turn),
                    ) && !self.occ_spec().has(t)),
                forall|t: int| #![trigger rest.has(t)] rest.has(t) ==> steps.has(t) && tgt.has(t),
                grown(s0, moves@, |m: Move| self.pawn_double_spec(sel, tgt.minus_spec(rest), m)),
            decreases rest.0,
        {
            let ghost s1 = moves@;
            let ghost before = rest;
            let popped = rest.pop_first();
            let to = popped.unwrap();
            assert(steps.has(to.idx()));
            let origin = to.offset(back);
            let from = origin.unwrap();
            self.push_pawn_moves(moves, from, to);
            proof {
                let p = |m: Move| self.pawn_double_spec(sel, tgt.minus_spec(before), m);
                let q = |m: Move| self.is_pawn_step(from, to, m);
                let r = |m: Move| self.pawn_double_spec(sel, tgt.minus_spec(rest), m);
                assert forall|t: int| #![trigger rest.has(t)] rest.has(t) implies steps.has(t)
                    && tgt.has(t) by {
                    before.lemma_without(to.idx(), t);
                }
                assert forall|m: Move| #![trigger r(m)] r(m) <==> (p(m) || q(m)) by {
                    if let Move::Normal { to: t, .. } = m {
                        tgt.lemma_minus(before, t.idx());
                        tgt.lemma_minus(rest, t.idx());
                        before.lemma_without(to.idx(), t.idx());
                        if t.wf() {
                            assert(steps.has(t.idx()) || !steps.has(t.idx()));
                        }
                    }
                }
                assert forall|m: Move| #![trigger p(m)] !(p(m) && q(m)) by {
                    tgt.lemma_minus(before, to.idx());
                }
                lemma_grown_trans(s0, s1, moves@, p, q, r);
            }
        }
        proof {
            let p = |m: Move| self.pawn_double_spec(sel, tgt.minus_spec(rest), m);
            let r = |m: Move| self.pawn_double_spec(sel, tgt, m);
            assert forall|m: Move| #![trigger r(m)] r(m) <==> p(m) by {
                if let Move::Normal { to: t, .. } = m {
                    tgt.lemma_minus(rest, t.idx());
                    Bitboard::lemma_empty(t.idx());
                }
            }
            lemma_grown_same(s0, moves@, p, r);
        }
    }

    /// Whether `m` takes, in passing, the pawn that has just made a double step.
    pub open spec fn ep_move_spec(self, m: Move) -> bool {
        match m {
            Move::EnPassant { from, to } => self.ep_square == Some(to) && from.wf() && to.wf()
                && self.our_spec(Role::Pawn).has(from.idx()) && pawn_step(
                self.turn,
                from.idx(),
                to.idx(),
            ),
            _ => false,
        }
    }

    /// Whether the king on `king` may castle with the rook on `rook`: the squares that
    /// the king and the rook pass over or arrive on hold nothing but the two, no square
    /// from the king's square to the one it arrives on is attacked, and with the rook
    /// gone no rook or queen of the other side attacks the king's new square along a
    /// rank or file.
    pub open spec fn castle_path_ok(self, king: int, rook: int) -> bool {
        let king_side = king < rook;
        let king_to = castle_king_to(self.turn, king_side);
        let rook_to = castle_rook_to(self.turn, king_side);
        let occ = self.occ_spec();
        &&& forall|c: int|
            #![trigger occ.has(c)]
            (between_spec(king, king_to, c) || c == king_to) && c != rook && c != king ==> !occ.has(
                c,
            )
        &&& forall|c: int|
            #![trigger occ.has(c)]
            (between_spec(rook, rook_to, c) || c == rook_to) && c != rook && c != king ==> !occ.has(
                c,
            )
        &&& forall|c: int|
            #![trigger self.board.attacked_by(self.turn.other_spec(), occ, c)]
            (between_spec(king, king_to, c) || c == king || c == king_to)
                ==> !self.board.attacked_by(self.turn.other_spec(), occ, c)
        &&& forall|a: int|
            #![trigger self.them_spec().has(a)]
            !(rook_attack(king_to, occ.without_spec(rook), a) && self.them_spec().has(a) && (
            self.board.rooks.has(a) || self.board.queens.has(a)))
    }

    /// Whether `m` is a castling move that the rules of castling allow: of a king of the
    /// side to move on its back rank, with a rook of that side on that rank that keeps
    /// its right.
    pub open spec fn castle_spec(self, m: Move) -> bool {
        match m {
            Move::Castle { king, rook } => king.wf() && rook.wf() && self.our_spec(Role::King).has(
                king.idx(),
            ) && rank_of(king.idx()) == back_rank(self.turn) && self.castling_rights.has(rook.idx())
                && self.our_spec(Role::Rook).has(rook.idx()) && rank_of(rook.idx()) == back_rank(
                self.turn,
            ) && self.castle_path_ok(king.idx(), rook.idx()),
            _ => false,
        }
    }

    /// Whether the piece on `s` is a member of `sliders` that would attack `k` along a rank,
    /// file or diagonal if nothing stood between.
    pub open spec fn sniper_spec(self, sliders: Bitboard, k: int, s: int) -> bool {
        sliders.has(s) && ((rook_line(k, s) && (self.board.rooks.has(s) || self.board.queens.has(
            s,
        ))) || (bishop_line(k, s) && (self.board.bishops.has(s) || self.board.queens.has(s))))
    }

    /// Whether the piece on `b` is the only one between `k` and the sniper on `s`.
    pub open spec fn pins(self, sliders: Bitboard, k: int, s: int, b: int) -> bool {
        &&& self.sniper_spec(sliders, k, s)
        &&& between_spec(k, s, b)
        &&& self.occ_spec().has(b)
        &&& forall|c: int|
            #![trigger self.occ_spec().has(c)]
            between_spec(k, s, c) && self.occ_spec().has(c) ==> c == b
    }

    /// Whether the piece on `b` alone shields `k` from one of `sliders`.
    pub open spec fn blocker_spec(self, sliders: Bitboard, k: int, b: int) -> bool {
        exists|s: int| #![trigger self.pins(sliders, k, s, b)] self.pins(sliders, k, s, b)
    }

    spec fn blocker_among(self, sliders: Bitboard, k: int, done: Bitboard, b: int) -> bool {
        exists|s: int|
            #![trigger self.pins(sliders, k, s, b)]
            done.has(s) && self.pins(sliders, k, s, b)
    }

    /// Whether `m` leaves the own king safe, as far as the pieces that shield it and the
    /// lines through it tell.
    pub open spec fn safe_spec(self, m: Move) -> bool {
        let k = self.king_sq();
        match m {
            Move::Normal { role, from, to, .. } => if role == Role::King {
                !self.board.attacked_by(
                    self.turn.other_spec(),
                    self.occ_spec().without_spec(k),
                    to.idx(),
                )
            } else {
                !(self.us_spec().has(from.idx()) && self.blocker_spec(
                    self.them_spec(),
                    k,
                    from.idx(),
                )) || ray_spec(from.idx(), to.idx(), k)
            },
            Move::EnPassant { from, to } => {
                let pawn = at(file_of(to.idx()), rank_of(from.idx()));
                let occ = self.occ_spec().toggled_spec(from.idx()).toggled_spec(pawn).with_spec(
                    to.idx(),
                );
                forall|a: int|
                    #![trigger self.them_spec().has(a)]
                    self.them_spec().has(a) ==> !(rook_attack(k, occ, a) && (
                    self.board.rooks.has(a) || self.board.queens.has(a))) && !(bishop_attack(
                        k,
                        occ,
                        a,
                    ) && (self.board.bishops.has(a) || self.board.queens.has(a)))
            },
            Move::Castle { .. } => true,
            _ => false,
        }
    }

    /// Whether `c` is a rook, bishop or queen that gives check.
    pub open spec fn slider_checker(self, c: int) -> bool {
        self.checker_spec(c) && (self.board.bishops.has(c) || self.board.rooks.has(c)
            || self.board.queens.has(c))
    }

    /// Whether `t` lies on the line of a sliding piece that gives check, the piece's own
    /// square apart.
    pub open spec fn on_check_ray(self, t: int) -> bool {
        exists|c: int|
            #![trigger self.slider_checker(c)]
            self.slider_checker(c) && ray_spec(c, self.king_sq(), t) && t != c
    }

    /// Whether `c` is the one piece that gives check.
    pub open spec fn single_checker(self, c: int) -> bool {
        self.checker_spec(c) && forall|d: int|
            #![trigger self.checker_spec(d)]
            self.checker_spec(d) ==> d == c
    }

    /// Whether `m` is a step of the king out of check to a square off the lines of the
    /// sliding pieces that give check.
    pub open spec fn evasion_king_spec(self, m: Move) -> bool {
        match m {
            Move::Normal { role, from, capture, to, promotion } => role == Role::King && from.wf()
                && from.idx() == self.king_sq() && to.wf() && king_step(from.idx(), to.idx())
                && !self.us_spec().has(to.idx()) && !self.on_check_ray(to.idx()) && capture
                == self.board.role_at_spec(to.idx()) && promotion is None,
            _ => false,
        }
    }

    /// Whether `m`, not a move of the king, takes the one piece `c` that gives check or
    /// goes between it and the king.
    pub open spec fn evasion_block_spec(self, c: int, m: Move) -> bool {
        match m {
            Move::Normal { from, to, .. } => self.pseudo_spec(
                Bitboard::all_spec(),
                Bitboard::all_spec(),
                m,
            ) && !self.board.kings.has(from.idx()) && (between_spec(self.king_sq(), c, to.idx())
                || to.idx() == c),
            Move::EnPassant { from, to } => self.ep_move_spec(m) && to.idx() - 8 * forward(
                self.turn,
            ) == c,
            _ => false,
        }
    }

    /// Whether `m` is a candidate when the side to move is in check.
    pub open spec fn evasion_spec(self, m: Move) -> bool {
        self.evasion_king_spec(m) || exists|c: int|
            #![trigger self.single_checker(c)]
            self.single_checker(c) && self.evasion_block_spec(c, m)
    }

    /// Whether `m` is a candidate: it follows the rules of movement, and answers the
    /// check if there is one.
    pub open spec fn candidate_spec(self, m: Move) -> bool {
        if self.in_check_spec() {
            self.evasion_spec(m)
        } else {
            self.pseudo_spec(Bitboard::all_spec(), Bitboard::all_spec(), m) || self.ep_move_spec(m)
                || self.castle_spec(m)
        }
    }

    /// Whether `m` follows the rules of movement, whatever becomes of the own king: an
    /// ordinary move of a piece, a capture in passing, or castling.
    pub open spec fn rule_spec(self, m: Move) -> bool {
        self.pseudo_spec(Bitboard::all_spec(), Bitboard::all_spec(), m) || self.ep_move_spec(m)
            || self.castle_spec(m)
    }

    /// Whether `m` is a legal move: a candidate that leaves the own king safe.
    pub open spec fn legal_spec(self, m: Move) -> bool {
        self.candidate_spec(m) && self.safe_spec(m)
    }

    /// What the functions that generate moves ask of a position: no side has two kings,
    /// no pawn stands on the first or eighth rank, the side to move has a king, and the
    /// en-passant square, if there is one, is on the board.
    pub open spec fn playable(self) -> bool {
        &&& self.board.valid()
        &&& self.board.has_king(self.turn)
        &&& self.ep_square is Some ==> self.ep_square.unwrap().wf()
    }

    /// Appends to `moves` the moves that follow the rules of movement, for the pieces on
    /// the members of `selection` and to the members of `target`: those of the king, the
    /// knights, the rooks, the queens along ranks and files, the bishops, the queens
    /// along diagonals, and the pawns.
    pub fn gen_pseudo_legal(&self, selection: Bitboard, target: Bitboard, moves: &mut Vec<Move>)
        ensures
            grown(old(moves)@, final(moves)@, |m: Move| self.pseudo_spec(selection, target, m)),
    {
        let ghost s0 = moves@;
        self.gen_piece_moves(moves, Role::King, Role::King, selection, target);
        let ghost s1 = moves@;
        self.gen_piece_moves(moves, Role::Knight, Role::Knight, selection, target);
        let ghost s2 = moves@;
        self.gen_piece_moves(moves, Role::Rook, Role::Rook, selection, target);
        let ghost s3 = moves@;
        self.gen_piece_moves(moves, Role::Queen, Role::Rook, selection, target);
        let ghost s4 = moves@;
        self.gen_piece_moves(moves, Role::Bishop, Role::Bishop, selection, target);
        let ghost s5 = moves@;
        self.gen_piece_moves(moves, Role::Queen, Role::Bishop, selection, target);
        let ghost s6 = moves@;
        self.gen_pawn_captures(moves, selection, target);
        let ghost s7 = moves@;
        self.gen_pawn_singles(moves, selection, target);
        let ghost s8 = moves@;
        self.gen_pawn_doubles(moves, selection, target);
        proof {
            let s9 = moves@;
            let q1 = |m: Move|
                self.piece_move_spec(Role::King, Role::King, selection, target, m);
            let q2 = |m: Move|
                self.piece_move_spec(Role::Knight, Role::Knight, selection, target, m);
            let q3 = |m: Move|
                self.piece_move_spec(Role::Rook, Role::Rook, selection, target, m);
            let q4 = |m: Move|
                self.piece_move_spec(Role::Queen, Role::Rook, selection, target, m);
            let q5 = |m: Move|
                self.piece_move_spec(Role::Bishop, Role::Bishop, selection, target, m);
            let q6 = |m: Move|
                self.piece_move_spec(Role::Queen, Role::Bishop, selection, target, m);
            let q7 = |m: Move| self.pawn_capture_spec(selection, target, m);
            let q8 = |m: Move| self.pawn_single_spec(selection, target, m);
            let q9 = |m: Move| self.pawn_double_spec(selection, target, m);
            let h2 = |m: Move| q1(m) || q2(m);
            let h3 = |m: Move| h2(m) || q3(m);
            let h4 = |m: Move| h3(m) || q4(m);
            let h5 = |m: Move| h4(m) || q5(m);
            let h6 = |m: Move| h5(m) || q6(m);
            let h7 = |m: Move| h6(m) || q7(m);
            let h8 = |m: Move| h7(m) || q8(m);
            let h9 = |m: Move| self.pseudo_spec(selection, target, m);
            lemma_grown_trans(s0, s1, s2, q1, q2, h2);
            lemma_grown_trans(s0, s2, s3, h2, q3, h3);
            lemma_grown_trans(s0, s3, s4, h3, q4, h4);
            lemma_grown_trans(s0, s4, s5, h4, q5, h5);
            lemma_grown_trans(s0, s5, s6, h5, q6, h6);
            lemma_grown_trans(s0, s6, s7, h6, q7, h7);
            lemma_grown_trans(s0, s7, s8, h7, q8, h8);
            lemma_grown_trans(s0, s8, s9, h8, q9, h9);
        }
    }

    /// Appends to `moves` the captures in passing: one for each pawn of the side to move
    /// that attacks the en-passant square.
    pub fn gen_en_passant(&self, moves: &mut Vec<Move>)
        requires
            self.ep_square is Some ==> self.ep_square.unwrap().wf(),
        ensures
            grown(old(moves)@, final(moves)@, |m: Move| self.ep_move_spec(m)),
    {
        broadcast use group_bitboard;

        let ghost s0 = moves@;
        match self.ep_square {
            None => {
                proof {
                    lemma_grown_none(s0, |m: Move| self.ep_move_spec(m));
                }
            },
            Some(to) => {
                let pawns = self.our(Role::Pawn);
                let from_squares = pawn_attacks(self.turn.other(), to);
                let all = pawns.intersect(from_squares);
                let mut rest = all;
                proof {
                    let h0 = |m: Move| self.ep_move_spec(m) && !rest.has(move_from(m));
                    assert forall|m: Move| #![trigger h0(m)] !h0(m) by {}
                    lemma_grown_none(s0, h0);
                }
                while rest.0 != 0
                    invariant
                        to.wf(),
                        self.ep_square == Some(to),
                        forall|t: int|
                            #![trigger rest.has(t)]
                            rest.has(t) ==> self.our_spec(Role::Pawn).has(t) && pawn_step(
                                self.turn,
                                t,
                                to.idx(),
                            ),
                        forall|t: int|
                            #![trigger all.has(t)]
                            all.has(t) <==> self.our_spec(Role::Pawn).has(t) && pawn_step(
                                self.turn,
                                t,
                                to.idx(),
                            ),
                        grown(
                            s0,
                            moves@,
                            |m: Move| self.ep_move_spec(m) && !rest.has(move_from(m)),
                        ),
                    decreases rest.0,
                {
                    broadcast use group_bitboard;

                    let ghost s1 = moves@;
                    let ghost before = rest;
                    let popped = rest.pop_first();
                    let from = popped.unwrap();
                    let m0 = Move::EnPassant { from, to };
                    Standard::push_move(moves, m0);
                    proof {
                        let p = |m: Move| self.ep_move_spec(m) && !before.has(move_from(m));
                        let q = |x: Move| x == m0;
                        let r = |m: Move| self.ep_move_spec(m) && !rest.has(move_from(m));
                        assert forall|m: Move| #![trigger r(m)] r(m) <==> (p(m) || q(m)) by {
                            if let Move::EnPassant { from: f, .. } = m {
                                assert(all.has(f.idx()) || !all.has(f.idx()));
                            }
                        }
                        lemma_grown_trans(s0, s1, moves@, p, q, r);
                    }
                }
                proof {
                    let p = |m: Move| self.ep_move_spec(m) && !rest.has(move_from(m));
                    let r = |m: Move| self.ep_move_spec(m);
                    rest.lemma_is_empty();
                    assert forall|m: Move| #![trigger r(m)] r(m) <==> p(m) by {}
                    lemma_grown_same(s0, moves@, p, r);
                }
            },
        }
    }

    /// The pieces that alone shield `sq` from one of `sliders`: for each rook, bishop or
    /// queen among `sliders` on a line with `sq`, the piece between the two if there is
    /// exactly one.
    pub fn slider_blockers(&self, sliders: Bitboard, sq: Square) -> (res: Bitboard)
        requires
            sq.wf(),
        ensures
            forall|b: int|
                #![trigger res.has(b)]
                res.has(b) <==> self.blocker_spec(sliders, sq.idx(), b),
    {
        broadcast use group_bitboard;

        let ghost k = sq.idx();
        let occ = self.board.occupied();
        let straight = rook_attacks(sq, Bitboard::empty()).intersect(
            self.board.rooks_and_queens(),
        );
        let diagonal = bishop_attacks(sq, Bitboard::empty()).intersect(
            self.board.bishops_and_queens(),
        );
        let snipers = straight.union(diagonal).intersect(sliders);
        let mut rest = snipers;
        let mut res = Bitboard::empty();
        proof {
            assert forall|s: int| #![trigger snipers.has(s)] snipers.has(s) <==> self.sniper_spec(
                sliders,
                k,
                s,
            ) by {
                assert forall|c: int| !Bitboard::empty_spec().has(c) by {}
            }
        }
        while rest.0 != 0
            invariant
                sq.wf(),
                k == sq.idx(),
                occ == self.occ_spec(),
                forall|s: int|
                    #![trigger snipers.has(s)]
                    snipers.has(s) <==> self.sniper_spec(sliders, k, s),
                forall|s: int| #![trigger rest.has(s)] rest.has(s) ==> snipers.has(s),
                forall|b: int|
                    #![trigger res.has(b)]
                    res.has(b) <==> self.blocker_among(sliders, k, snipers.minus_spec(rest), b),
            decreases rest.0,
        {
            broadcast use group_bitboard;

            let ghost before = rest;
            let ghost prev = res;
            let popped = rest.pop_first();
            let sniper = popped.unwrap();
            let shield = between(sq, sniper).intersect(occ);
            let several = shield.more_than_one();
            if !several {
                res = res.union(shield);
            }
            proof {
                let done0 = snipers.minus_spec(before);
                let done1 = snipers.minus_spec(rest);
                assert forall|b: int| #![trigger res.has(b)] res.has(b) <==> self.blocker_among(
                    sliders,
                    k,
                    done1,
                    b,
                ) by {
                    if res.has(b) {
                        if prev.has(b) {
                            assert(self.blocker_among(sliders, k, done0, b));
                            let s = choose|s: int|
                                #![trigger self.pins(sliders, k, s, b)]
                                done0.has(s) && self.pins(sliders, k, s, b);
                            assert(done1.has(s) && self.pins(sliders, k, s, b));
                        } else {
                            assert(shield.has(b));
                            assert forall|c: int|
                                #![trigger self.occ_spec().has(c)]
                                between_spec(k, sniper.idx(), c) && self.occ_spec().has(
                                    c,
                                ) implies c == b by {
                                assert(shield.has(c));
                            }
                            assert(done1.has(sniper.idx()) && self.pins(
                                sliders,
                                k,
                                sniper.idx(),
                                b,
                            ));
                        }
                    }
                    if self.blocker_among(sliders, k, done1, b) {
                        let s = choose|s: int|
                            #![trigger self.pins(sliders, k, s, b)]
                            done1.has(s) && self.pins(sliders, k, s, b);
                        if s == sniper.idx() {
                            assert(shield.has(b));
                            if several {
                                let (x, y) = choose|x: int, y: int|
                                    shield.has(x) && shield.has(y) && x != y;
                                assert(self.occ_spec().has(x) && self.occ_spec().has(y));
                            }
                        } else {
                            assert(done0.has(s) && self.pins(sliders, k, s, b));
                        }
                    }
                }
            }
        }
        proof {
            assert forall|b: int| #![trigger res.has(b)] res.has(b) <==> self.blocker_spec(
                sliders,
                k,
                b,
            ) by {
                if res.has(b) {
                    let s = choose|s: int|
                        #![trigger self.pins(sliders, k, s, b)]
                        snipers.minus_spec(rest).has(s) && self.pins(sliders, k, s, b);
                    assert(self.pins(sliders, k, s, b));
                }
                if self.blocker_spec(sliders, k, b) {
                    let s = choose|s: int|
                        #![trigger self.pins(sliders, k, s, b)]
                        self.pins(sliders, k, s, b);
                    assert(snipers.has(s));
                    assert(!rest.has(s));
                    assert(snipers.minus_spec(rest).has(s) && self.pins(sliders, k, s, b));
                }
            }
        }
        res
    }
}

/// The index of the square that a move other than a drop or a pass leaves.
pub open spec fn move_from(m: Move) -> int {
    match m {
        Move::Normal { from, .. } => from.idx(),
        Move::EnPassant { from, .. } => from.idx(),
        Move::Castle { king, .. } => king.idx(),
        _ => -1,
    }
}

/// The index of the square on which a move other than a pass ends; for castling, the
/// square of the rook.
pub open spec fn move_to(m: Move) -> int {
    match m {
        Move::Normal { to, .. } => to.idx(),
        Move::EnPassant { to, .. } => to.idx(),
        Move::Castle { rook, .. } => rook.idx(),
        Move::Put { to, .. } => to.idx(),
        Move::Null => -1,
    }
}

} // verus!
