//! The legal moves of a position.

use vstd::prelude::*;
use crate::attacks::{
    aligned, between, between_spec, bishop_attack, bishop_attacks, king_attacks, king_step, ray,
    ray_spec, rook_attack, rook_attacks,
};
use crate::bitboard::{Bitboard, group_bitboard};
use crate::movegen::{grown, lemma_grown_none, lemma_grown_same, lemma_grown_trans, move_from};
use crate::position::{Standard, back_rank, castle_king_to, castle_rook_to};
use crate::square::{Square, on_board, rank_of};
use crate::types::{Move, Role};

verus! {

impl Standard {
    spec fn on_check_ray_among(self, done: Bitboard, t: int) -> bool {
        exists|c: int|
            #![trigger self.slider_checker(c)]
            done.has(c) && self.slider_checker(c) && ray_spec(c, self.king_sq(), t) && t != c
    }

    /// Whether `m` is the castling of the king on `king` with a rook on a member of
    /// `rooks`, and the rules of castling allow it.
    pub open spec fn is_castle_with(self, king: Square, rooks: Bitboard, m: Move) -> bool {
        match m {
            Move::Castle { king: k, rook } => k == king && rook.wf() && rooks.has(rook.idx())
                && self.castle_path_ok(king.idx(), rook.idx()),
            _ => false,
        }
    }

    /// The square of the king of the side to move.
    pub fn our_king(&self) -> (king: Square)
        requires
            self.playable(),
        ensures
            king.wf(),
            king.idx() == self.king_sq(),
            self.board.is_king_of(self.turn, king.idx()),
    {
        let found = self.board.king_of(self.turn);
        proof {
            let k = self.king_sq();
            assert(self.board.is_king_of(self.turn, k));
        }
        found.unwrap()
    }

    /// Whether the move `m` leaves the own king safe, given the pieces that alone shield
    /// the king from a rook, bishop or queen of the other side.
    ///
    /// A step of the king is safe if no piece of the other side attacks the square it
    /// goes to once the king has left its own. Another move of a piece is safe if the
    /// piece shields nothing or stays on the line through its square and the king. A
    /// capture in passing is safe if afterwards no rook, bishop or queen attacks the king.
    /// Castling has been tested when it was generated. A drop and a pass are never safe.
    pub fn is_safe(&self, m: &Move, blockers: Bitboard) -> (r: bool)
        requires
            m.wf(),
            self.playable(),
            forall|b: int|
                #![trigger blockers.has(b)]
                blockers.has(b) <==> self.blocker_spec(self.them_spec(), self.king_sq(), b),
        ensures
            r == self.safe_spec(*m),
    {
        broadcast use group_bitboard;

        let king = self.our_king();
        match *m {
            Move::Normal { role, from, to, .. } => {
                if role == Role::King {
                    let occ = self.board.occupied().without(king);
                    !self.board.is_attacked_by(self.turn.other(), to, occ)
                } else {
                    !self.us().intersect(blockers).contains(from) || aligned(from, to, king)
                }
            },
            Move::EnPassant { from, to } => {
                let pawn = Square::new((to.file() + 8 * from.rank()) as u8);
                let mut occ = self.board.occupied();
                occ.flip(from);
                occ.flip(pawn);
                occ.insert(to);
                let them = self.them();
                let straight = rook_attacks(king, occ).intersect(them).intersect(
                    self.board.rooks_and_queens(),
                );
                let diagonal = bishop_attacks(king, occ).intersect(them).intersect(
                    self.board.bishops_and_queens(),
                );
                let s = straight.is_empty();
                let d = diagonal.is_empty();
                proof {
                    let k = self.king_sq();
                    if s && d {
                        assert forall|a: int|
                            #![trigger self.them_spec().has(a)]
                            self.them_spec().has(a) implies !(rook_attack(k, occ, a) && (
                            self.board.rooks.has(a) || self.board.queens.has(a)))
                            && !(bishop_attack(k, occ, a) && (self.board.bishops.has(a)
                            || self.board.queens.has(a))) by {
                            assert(!straight.has(a));
                            assert(!diagonal.has(a));
                        }
                    } else if !s {
                        let a = choose|a: int| straight.has(a);
                        assert(self.them_spec().has(a));
                    } else {
                        let a = choose|a: int| diagonal.has(a);
                        assert(self.them_spec().has(a));
                    }
                }
                s && d
            },
            Move::Castle { .. } => true,
            _ => false,
        }
    }

    /// Whether the king on `king` may castle with the rook on `rook`.
    pub fn can_castle(&self, king: Square, rook: Square) -> (r: bool)
        requires
            king.wf(),
            rook.wf(),
            self.board.wf(),
        ensures
            r == self.castle_path_ok(king.idx(), rook.idx()),
    {
        broadcast use group_bitboard;

        let king_side = king.index() < rook.index();
        let rank: i8 = self.turn.fold(0, 7);
        let king_to = Square::new((if king_side { 6i8 } else { 2i8 } + 8 * rank) as u8);
        let rook_to = Square::new((if king_side { 5i8 } else { 3i8 } + 8 * rank) as u8);
        assert(king_to.idx() == castle_king_to(self.turn, king_side));
        assert(rook_to.idx() == castle_rook_to(self.turn, king_side));
        let occ = self.board.occupied();
        let them = self.them();
        let empty_for_king = between(king, king_to).with(king_to).without(rook).without(king);
        let empty_for_rook = between(rook, rook_to).with(rook_to).without(rook).without(king);
        let king_blocked = occ.intersect(empty_for_king);
        if !king_blocked.is_empty() {
            proof {
                let c = choose|c: int| king_blocked.has(c);
                assert(empty_for_king.has(c));
                assert(self.occ_spec().has(c));
                assert(!self.castle_path_ok(king.idx(), rook.idx()));
            }
            return false;
        }
        let rook_blocked = occ.intersect(empty_for_rook);
        if !rook_blocked.is_empty() {
            proof {
                let c = choose|c: int| rook_blocked.has(c);
                assert(empty_for_rook.has(c));
                assert(self.occ_spec().has(c));
                assert(!self.castle_path_ok(king.idx(), rook.idx()));
            }
            return false;
        }
        let path = between(king, king_to).with(king).with(king_to);
        let mut rest = path;
        while rest.0 != 0
            invariant
                self.board.wf(),
                occ == self.occ_spec(),
                king_to.idx() == castle_king_to(self.turn, king.idx() < rook.idx()),
                forall|c: int| #![trigger rest.has(c)] rest.has(c) ==> path.has(c),
                forall|c: int|
                    #![trigger self.board.attacked_by(self.turn.other_spec(), occ, c)]
                    path.has(c) && !rest.has(c) ==> !self.board.attacked_by(
                        self.turn.other_spec(),
                        occ,
                        c,
                    ),
                forall|c: int|
                    #![trigger path.has(c)]
                    path.has(c) <==> (between_spec(king.idx(), king_to.idx(), c) || c == king.idx()
                        || c == king_to.idx()),
            decreases rest.0,
        {
            broadcast use group_bitboard;

            let popped = rest.pop_first();
            let sq = popped.unwrap();
            if self.board.is_attacked_by(self.turn.other(), sq, occ) {
                proof {
                    assert(path.has(sq.idx()));
                    assert(self.board.attacked_by(self.turn.other_spec(), self.occ_spec(), sq.idx()));
                    assert(!self.castle_path_ok(king.idx(), rook.idx()));
                }
                return false;
            }
        }
        proof {
            rest.lemma_is_empty();
        }
        let exposed = rook_attacks(king_to, occ.without(rook)).intersect(them).intersect(
            self.board.rooks_and_queens(),
        );
        if !exposed.is_empty() {
            proof {
                let a = choose|a: int| exposed.has(a);
                assert(self.them_spec().has(a));
            }
            return false;
        }
        proof {
            assert forall|c: int|
                #![trigger occ.has(c)]
                (between_spec(king.idx(), king_to.idx(), c) || c == king_to.idx()) && c
                    != rook.idx() && c != king.idx() implies !occ.has(c) by {
                assert(!king_blocked.has(c));
            }
            assert forall|c: int|
                #![trigger occ.has(c)]
                (between_spec(rook.idx(), rook_to.idx(), c) || c == rook_to.idx()) && c
                    != rook.idx() && c != king.idx() implies !occ.has(c) by {
                assert(!rook_blocked.has(c));
            }
            assert forall|a: int|
                #![trigger self.them_spec().has(a)]
                !(rook_attack(king_to.idx(), occ.without_spec(rook.idx()), a)
                    && self.them_spec().has(a) && (self.board.rooks.has(a)
                    || self.board.queens.has(a))) by {
                assert(!exposed.has(a));
            }
        }
        true
    }

    /// Appends to `moves` the castling moves of the king on `king` with the rooks on the
    /// members of `rooks`.
    pub fn gen_castles_of_king(&self, moves: &mut Vec<Move>, king: Square, rooks: Bitboard)
        requires
            king.wf(),
            self.board.wf(),
        ensures
            grown(old(moves)@, final(moves)@, |m: Move| self.is_castle_with(king, rooks, m)),
    {
        let ghost s0 = moves@;
        let mut rest = rooks;
        proof {
            let h0 = |m: Move| self.is_castle_with(king, rooks.minus_spec(rest), m);
            assert forall|m: Move| #![trigger h0(m)] !h0(m) by {
                if let Move::Castle { rook, .. } = m {
                    rooks.lemma_minus(rest, rook.idx());
                }
            }
            lemma_grown_none(s0, h0);
        }
        while rest.0 != 0
            invariant
                king.wf(),
                self.board.wf(),
                forall|t: int| #![trigger rest.has(t)] rest.has(t) ==> rooks.has(t),
                grown(s0, moves@, |m: Move| self.is_castle_with(king, rooks.minus_spec(rest), m)),
            decreases rest.0,
        {
            let ghost s1 = moves@;
            let ghost before = rest;
            let popped = rest.pop_first();
            let rook = popped.unwrap();
            let m0 = Move::Castle { king, rook };
            let ok = self.can_castle(king, rook);
            if ok {
                Standard::push_move(moves, m0);
            }
            proof {
                let p = |m: Move| self.is_castle_with(king, rooks.minus_spec(before), m);
                let q = |x: Move| x == m0;
                let r = |m: Move| self.is_castle_with(king, rooks.minus_spec(rest), m);
                assert forall|t: int| #![trigger rest.has(t)] rest.has(t) implies rooks.has(t) by {
                    before.lemma_without(rook.idx(), t);
                }
                rooks.lemma_minus(before, rook.idx());
                if ok {
                    assert forall|m: Move| #![trigger r(m)] r(m) <==> (p(m) || q(m)) by {
                        if let Move::Castle { rook: x, .. } = m {
                            rooks.lemma_minus(before, x.idx());
                            rooks.lemma_minus(rest, x.idx());
                            before.lemma_without(rook.idx(), x.idx());
                        }
                    }
                    lemma_grown_trans(s0, s1, moves@, p, q, r);
                } else {
                    assert forall|m: Move| #![trigger r(m)] r(m) <==> p(m) by {
                        if let Move::Castle { rook: x, .. } = m {
                            rooks.lemma_minus(before, x.idx());
                            rooks.lemma_minus(rest, x.idx());
                            before.lemma_without(rook.idx(), x.idx());
                        }
                    }
                    lemma_grown_same(s0, moves@, p, r);
                }
            }
        }
        proof {
            let p = |m: Move| self.is_castle_with(king, rooks.minus_spec(rest), m);
            let r = |m: Move| self.is_castle_with(king, rooks, m);
            assert forall|m: Move| #![trigger r(m)] r(m) <==> p(m) by {
                if let Move::Castle { rook: x, .. } = m {
                    rooks.lemma_minus(rest, x.idx());
                    Bitboard::lemma_empty(x.idx());
                }
            }
            lemma_grown_same(s0, moves@, p, r);
        }
    }

    /// Appends to `moves` the castling moves: for each king of the side to move on its
    /// back rank and each rook on that rank that keeps its right, the move if the rules
    /// of castling allow it.
    pub fn gen_castling_moves(&self, moves: &mut Vec<Move>)
        requires
            self.board.wf(),
        ensures
            grown(old(moves)@, final(moves)@, |m: Move| self.castle_spec(m)),
    {
        broadcast use group_bitboard;

        let ghost s0 = moves@;
        let backrank = Bitboard::relative_rank(self.turn, 0);
        let kings = self.our(Role::King).intersect(backrank);
        let rooks = self.castling_rights.intersect(self.our(Role::Rook)).intersect(backrank);
        let mut rest = kings;
        proof {
            let h0 = |m: Move| self.castle_spec(m) && !rest.has(move_from(m));
            assert forall|m: Move| #![trigger h0(m)] !h0(m) by {}
            lemma_grown_none(s0, h0);
        }
        while rest.0 != 0
            invariant
                self.board.wf(),
                forall|t: int|
                    #![trigger kings.has(t)]
                    kings.has(t) <==> self.our_spec(Role::King).has(t) && rank_of(t) == back_rank(
                        self.turn,
                    ),
                forall|t: int|
                    #![trigger rooks.has(t)]
                    rooks.has(t) <==> self.castling_rights.has(t) && self.our_spec(Role::Rook).has(
                        t,
                    ) && rank_of(t) == back_rank(self.turn),
                forall|t: int| #![trigger rest.has(t)] rest.has(t) ==> kings.has(t),
                grown(s0, moves@, |m: Move| self.castle_spec(m) && !rest.has(move_from(m))),
            decreases rest.0,
        {
            broadcast use group_bitboard;

            let ghost s1 = moves@;
            let ghost before = rest;
            let popped = rest.pop_first();
            let king = popped.unwrap();
            self.gen_castles_of_king(moves, king, rooks);
            proof {
                let p = |m: Move| self.castle_spec(m) && !before.has(move_from(m));
                let q = |m: Move| self.is_castle_with(king, rooks, m);
                let r = |m: Move| self.castle_spec(m) && !rest.has(move_from(m));
                assert forall|m: Move| #![trigger r(m)] r(m) <==> (p(m) || q(m)) by {
                    if let Move::Castle { king: k, rook: x } = m {
                        assert(kings.has(k.idx()) || !kings.has(k.idx()));
                        assert(rooks.has(x.idx()) || !rooks.has(x.idx()));
                    }
                }
                lemma_grown_trans(s0, s1, moves@, p, q, r);
            }
        }
        proof {
            let p = |m: Move| self.castle_spec(m) && !rest.has(move_from(m));
            let r = |m: Move| self.castle_spec(m);
            rest.lemma_is_empty();
            assert forall|m: Move| #![trigger r(m)] r(m) <==> p(m) by {}
            lemma_grown_same(s0, moves@, p, r);
        }
    }

    /// The squares on the lines of the sliding pieces that give check, the pieces' own
    /// squares apart: where the king would still be attacked after a step along the line.
    pub fn check_rays(&self, king: Square, sliders: Bitboard) -> (attacked: Bitboard)
        requires
            king.wf(),
            king.idx() == self.king_sq(),
            forall|c: int| #![trigger sliders.has(c)] sliders.has(c) <==> self.slider_checker(c),
        ensures
            forall|t: int| #![trigger attacked.has(t)] attacked.has(t) <==> self.on_check_ray(t),
    {
        broadcast use group_bitboard;

        let mut attacked = Bitboard::empty();
        let mut rest = sliders;
        while rest.0 != 0
            invariant
                king.wf(),
                king.idx() == self.king_sq(),
                forall|c: int|
                    #![trigger sliders.has(c)]
                    sliders.has(c) <==> self.slider_checker(c),
                forall|c: int| #![trigger rest.has(c)] rest.has(c) ==> sliders.has(c),
                forall|t: int|
                    #![trigger attacked.has(t)]
                    attacked.has(t) <==> self.on_check_ray_among(sliders.minus_spec(rest), t),
            decreases rest.0,
        {
            broadcast use group_bitboard;

            let ghost before = rest;
            let ghost prev = attacked;
            let popped = rest.pop_first();
            let checker = popped.unwrap();
            let line = ray(checker, king).without(checker);
            attacked = attacked.union(line);
            proof {
                let done0 = sliders.minus_spec(before);
                let done1 = sliders.minus_spec(rest);
                let k = self.king_sq();
                assert forall|t: int|
                    #![trigger attacked.has(t)]
                    attacked.has(t) <==> self.on_check_ray_among(done1, t) by {
                    if attacked.has(t) {
                        if prev.has(t) {
                            assert(self.on_check_ray_among(done0, t));
                            let c = choose|c: int|
                                #![trigger self.slider_checker(c)]
                                done0.has(c) && self.slider_checker(c) && ray_spec(c, k, t) && t
                                    != c;
                            assert(done1.has(c) && self.slider_checker(c));
                        } else {
                            assert(line.has(t));
                            assert(done1.has(checker.idx()) && self.slider_checker(checker.idx()));
                        }
                    }
                    if self.on_check_ray_among(done1, t) {
                        let c = choose|c: int|
                            #![trigger self.slider_checker(c)]
                            done1.has(c) && self.slider_checker(c) && ray_spec(c, k, t) && t != c;
                        if c == checker.idx() {
                            assert(line.has(t));
                        } else {
                            assert(done0.has(c) && self.slider_checker(c));
                            assert(self.on_check_ray_among(done0, t));
                        }
                    }
                }
            }
        }
        proof {
            rest.lemma_is_empty();
            let k = self.king_sq();
            assert forall|t: int| #![trigger attacked.has(t)] attacked.has(t) <==> self.on_check_ray(
                t,
            ) by {
                if attacked.has(t) {
                    let c = choose|c: int|
                        #![trigger self.slider_checker(c)]
                        sliders.minus_spec(rest).has(c) && self.slider_checker(c) && ray_spec(
                            c,
                            k,
                            t,
                        ) && t != c;
                    assert(self.slider_checker(c));
                }
                if self.on_check_ray(t) {
                    let c = choose|c: int|
                        #![trigger self.slider_checker(c)]
                        self.slider_checker(c) && ray_spec(c, k, t) && t != c;
                    assert(sliders.has(c));
                    assert(sliders.minus_spec(rest).has(c) && self.slider_checker(c));
                }
            }
        }
        attacked
    }

    /// Appends to `moves` the candidates of a side in check: the steps of the king off
    /// the lines of the sliding pieces that give check and, if one piece alone gives
    /// check, the moves of the other pieces that take it or go between it and the king,
    /// a capture in passing of that piece included.
    pub fn evasions(&self, moves: &mut Vec<Move>)
        requires
            self.playable(),
        ensures
            grown(old(moves)@, final(moves)@, |m: Move| self.evasion_spec(m)),
    {
        broadcast use group_bitboard;

        let ghost s0 = moves@;
        let ghost k = self.king_sq();
        let checkers = self.checkers();
        let king = self.our_king();
        let sliders = checkers.intersect(self.board.sliders());
        let attacked = self.check_rays(king, sliders);
        let targets = king_attacks(king).minus(self.us()).minus(attacked);
        self.push_moves(moves, Role::King, king, targets);
        let ghost s1 = moves@;
        let q1 = Ghost(|m: Move| self.is_step(Role::King, king, targets, m));
        proof {
            assert forall|m: Move|
                #![trigger self.evasion_king_spec(m)]
                self.evasion_king_spec(m) <==> self.is_step(Role::King, king, targets, m) by {
                if let Move::Normal { to, .. } = m {
                    assert(targets.has(to.idx()) <==> (king_step(k, to.idx())
                        && !self.us_spec().has(to.idx()) && !self.on_check_ray(to.idx())));
                }
            }
        }
        let single = checkers.single_square();
        match single {
            Some(checker) => {
                let target = between(king, checker).with(checker);
                let sel = self.board.kings().complement();
                self.gen_pseudo_legal(sel, target, moves);
                let ghost s2 = moves@;
                let mut with_ep = false;
                match self.ep_square {
                    Some(e) => {
                        match e.offset(self.turn.fold(-8, 8)) {
                            Some(behind) => {
                                if behind.index() == checker.index() {
                                    with_ep = true;
                                }
                            },
                            None => {},
                        }
                    },
                    None => {},
                }
                if with_ep {
                    self.gen_en_passant(moves);
                }
                proof {
                    let c = checker.idx();
                    let s3 = moves@;
                    assert(self.single_checker(c));
                    let q2 = |m: Move| self.pseudo_spec(sel, target, m);
                    let q3 = |m: Move| self.ep_move_spec(m) && with_ep;
                    let h2 = |m: Move| q1@(m) || q2(m);
                    let r = |m: Move| self.evasion_spec(m);
                    assert forall|m: Move| #![trigger q2(m)] q2(m) <==> (m is Normal
                        && self.evasion_block_spec(c, m)) by {
                        if let Move::Normal { from, to, .. } = m {
                            assert(sel.has(from.idx()) <==> (on_board(from.idx())
                                && !self.board.kings.has(from.idx())));
                            assert(target.has(to.idx()) <==> (between_spec(k, c, to.idx())
                                || to.idx() == c));
                            if from.wf() && to.wf() {
                                Bitboard::lemma_all(from.idx());
                                Bitboard::lemma_all(to.idx());
                            }
                        }
                    }
                    assert forall|m: Move| #![trigger q3(m)] q3(m) <==> (m is EnPassant
                        && self.evasion_block_spec(c, m)) by {}
                    assert forall|m: Move| #![trigger r(m)] r(m) <==> (h2(m) || q3(m)) by {
                        if self.evasion_spec(m) && !self.evasion_king_spec(m) {
                            let d = choose|d: int|
                                #![trigger self.single_checker(d)]
                                self.single_checker(d) && self.evasion_block_spec(d, m);
                            assert(self.checker_spec(c));
                            assert(d == c);
                        }
                        if q2(m) || q3(m) {
                            assert(self.single_checker(c) && self.evasion_block_spec(c, m));
                        }
                    }
                    assert forall|m: Move| #![trigger q1@(m)] !(q1@(m) && q2(m)) by {
                        assert(self.board.kings.has(k));
                    }
                    lemma_grown_trans(s0, s1, s2, q1@, q2, h2);
                    if with_ep {
                        lemma_grown_same(s2, s3, |m: Move| self.ep_move_spec(m), q3);
                    } else {
                        lemma_grown_none(s2, q3);
                    }
                    lemma_grown_trans(s0, s2, s3, h2, q3, r);
                }
            },
            None => {
                proof {
                    let r = |m: Move| self.evasion_spec(m);
                    checkers.lemma_is_empty();
                    assert forall|c: int|
                        #![trigger self.single_checker(c)]
                        !self.single_checker(c) by {
                        if self.single_checker(c) {
                            assert(checkers.has(c));
                            let (x, y) = choose|x: int, y: int|
                                checkers.has(x) && checkers.has(y) && x != y;
                            assert(self.checker_spec(x) && self.checker_spec(y));
                        }
                    }
                    assert forall|m: Move| #![trigger r(m)] r(m) <==> q1@(m) by {}
                    lemma_grown_same(s0, s1, q1@, r);
                }
            },
        }
    }

    /// Appends to `moves` those of `candidates` that leave the own king safe.
    pub fn append_safe(&self, candidates: &Vec<Move>, blockers: Bitboard, moves: &mut Vec<Move>)
        requires
            self.playable(),
            forall|b: int|
                #![trigger blockers.has(b)]
                blockers.has(b) <==> self.blocker_spec(self.them_spec(), self.king_sq(), b),
            forall|i: int| 0 <= i < candidates.len() ==> (#[trigger] candidates[i]).wf(),
            candidates@.no_duplicates(),
        ensures
            grown(
                old(moves)@,
                final(moves)@,
                |m: Move| candidates@.contains(m) && self.safe_spec(m),
            ),
    {
        let ghost s0 = moves@;
        let mut i: usize = 0;
        proof {
            let h0 = |m: Move| candidates@.subrange(0, 0).contains(m) && self.safe_spec(m);
            assert forall|m: Move| #![trigger h0(m)] !h0(m) by {}
            lemma_grown_none(s0, h0);
        }
        while i < candidates.len()
            invariant
                0 <= i <= candidates.len(),
                self.playable(),
                forall|b: int|
                    #![trigger blockers.has(b)]
                    blockers.has(b) <==> self.blocker_spec(self.them_spec(), self.king_sq(), b),
                forall|j: int| 0 <= j < candidates.len() ==> (#[trigger] candidates[j]).wf(),
                candidates@.no_duplicates(),
                grown(
                    s0,
                    moves@,
                    |m: Move| candidates@.subrange(0, i as int).contains(m) && self.safe_spec(m),
                ),
            decreases candidates.len() - i,
        {
            let ghost s1 = moves@;
            let c = candidates[i];
            let ok = self.is_safe(&c, blockers);
            if ok {
                Standard::push_move(moves, c);
            }
            proof {
                let done0 = candidates@.subrange(0, i as int);
                let done1 = candidates@.subrange(0, i + 1);
                let p = |m: Move| done0.contains(m) && self.safe_spec(m);
                let q = |x: Move| x == c;
                let r = |m: Move| done1.contains(m) && self.safe_spec(m);
                assert forall|m: Move| done1.contains(m) <==> (done0.contains(m) || m == c) by {
                    if done0.contains(m) {
                        let j = choose|j: int| 0 <= j < done0.len() && done0[j] == m;
                        assert(done1[j] == m);
                    }
                    if m == c {
                        assert(done1[i as int] == c);
                    }
                    if done1.contains(m) {
                        let j = choose|j: int| 0 <= j < done1.len() && done1[j] == m;
                        if j < i {
                            assert(done0[j] == m);
                        }
                    }
                }
                assert(!done0.contains(c)) by {
                    if done0.contains(c) {
                        let j = choose|j: int| 0 <= j < done0.len() && done0[j] == c;
                        assert(candidates@[j] == candidates@[i as int]);
                    }
                }
                if ok {
                    assert forall|m: Move| #![trigger r(m)] r(m) <==> (p(m) || q(m)) by {}
                    lemma_grown_trans(s0, s1, moves@, p, q, r);
                } else {
                    assert forall|m: Move| #![trigger r(m)] r(m) <==> p(m) by {}
                    lemma_grown_same(s0, moves@, p, r);
                }
            }
            i = i + 1;
        }
        proof {
            assert(candidates@.subrange(0, i as int) =~= candidates@);
        }
    }

    /// Appends to `moves` the legal moves: the candidates that leave the own king safe.
    pub fn legal_moves(&self, moves: &mut Vec<Move>)
        requires
            self.playable(),
        ensures
            grown(old(moves)@, final(moves)@, |m: Move| self.legal_spec(m)),
    {
        let mut candidates: Vec<Move> = Vec::new();
        let ghost c0 = candidates@;
        let checkers = self.checkers();
        let quiet = checkers.is_empty();
        if quiet {
            self.gen_pseudo_legal(Bitboard::all(), Bitboard::all(), &mut candidates);
            let ghost c1 = candidates@;
            self.gen_en_passant(&mut candidates);
            let ghost c2 = candidates@;
            self.gen_castling_moves(&mut candidates);
            proof {
                let c3 = candidates@;
                let q1 = |m: Move| self.pseudo_spec(Bitboard::all_spec(), Bitboard::all_spec(), m);
                let q2 = |m: Move| self.ep_move_spec(m);
                let q3 = |m: Move| self.castle_spec(m);
                let h2 = |m: Move| q1(m) || q2(m);
                let r = |m: Move| self.candidate_spec(m);
                assert(!self.in_check_spec()) by {
                    if self.in_check_spec() {
                        let a = choose|a: int| self.checker_spec(a);
                        assert(checkers.has(a));
                    }
                }
                lemma_grown_trans(c0, c1, c2, q1, q2, h2);
                assert forall|m: Move| #![trigger r(m)] r(m) <==> (h2(m) || q3(m)) by {}
                lemma_grown_trans(c0, c2, c3, h2, q3, r);
            }
        } else {
            self.evasions(&mut candidates);
            proof {
                let a = choose|a: int| checkers.has(a);
                assert(self.checker_spec(a));
                let q = |m: Move| self.evasion_spec(m);
                let r = |m: Move| self.candidate_spec(m);
                assert forall|m: Move| #![trigger r(m)] r(m) <==> q(m) by {}
                lemma_grown_same(c0, candidates@, q, r);
            }
        }
        let king = self.our_king();
        let blockers = self.slider_blockers(self.them(), king);
        proof {
            assert(c0.len() == 0);
            assert(c0.no_duplicates());
            assert forall|m: Move| #![trigger c0.contains(m)] !c0.contains(m) by {}
            assert(candidates@.no_duplicates());
            assert forall|i: int| 0 <= i < candidates.len() implies (#[trigger] candidates[i]).wf() by {
                assert(candidates@.contains(candidates[i]));
                assert(self.candidate_spec(candidates[i]));
                self.lemma_candidate_wf(candidates[i]);
            }
        }
        let ghost s0 = moves@;
        self.append_safe(&candidates, blockers, moves);
        proof {
            let p = |m: Move| candidates@.contains(m) && self.safe_spec(m);
            let r = |m: Move| self.legal_spec(m);
            assert forall|m: Move| #![trigger r(m)] r(m) <==> p(m) by {
                assert(candidates@.contains(m) <==> (c0.contains(m) || self.candidate_spec(m)));
            }
            lemma_grown_same(s0, moves@, p, r);
        }
    }

    /// The squares of a candidate are squares of the board.
    pub proof fn lemma_candidate_wf(self, m: Move)
        requires
            self.candidate_spec(m),
        ensures
            m.wf(),
    {
        if self.in_check_spec() {
            if !self.evasion_king_spec(m) {
                let c = choose|c: int|
                    #![trigger self.single_checker(c)]
                    self.single_checker(c) && self.evasion_block_spec(c, m);
            }
        }
    }

    /// A candidate follows the rules of movement.
    pub proof fn lemma_candidate_rule(self, m: Move)
        requires
            self.valid(),
            self.candidate_spec(m),
        ensures
            self.rule_spec(m),
            m.wf(),
    {
        broadcast use group_bitboard;

        self.lemma_candidate_wf(m);
        if self.in_check_spec() {
            if self.evasion_king_spec(m) {
                let k = self.king_sq();
                assert(self.board.is_king_of(self.turn, k));
                self.board.lemma_occupied(k);
                assert(self.our_spec(Role::King).has(k));
                assert(self.piece_move_spec(
                    Role::King,
                    Role::King,
                    Bitboard::all_spec(),
                    Bitboard::all_spec(),
                    m,
                ));
            } else {
                let c = choose|c: int|
                    #![trigger self.single_checker(c)]
                    self.single_checker(c) && self.evasion_block_spec(c, m);
            }
        }
    }
}

} // verus!
