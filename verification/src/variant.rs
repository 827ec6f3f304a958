//! The variants: orthodox chess, Crazyhouse with its pockets and drops, and Three-Check
//! with its count of checks.

use vstd::prelude::*;
use vstd::string::StringSliceAdditionalSpecFns;
use crate::attacks::{between, between_spec, clear_path, piece_attack};
use crate::bitboard::{Bitboard, group_bitboard};
use crate::board::Board;
use crate::fen::{Fen, fen_text, parse_fen_spec};
use crate::fen_laws::lemma_fen_round_trip;
use crate::movegen::{grown, lemma_grown_none, lemma_grown_same, lemma_grown_trans};
use crate::position::{Pocket, Pockets, Position, RemainingChecks};
use crate::safety::lemma_no_step_over;
use crate::square::{Square, on_board, rank_of};
use crate::types::{Color, Move, Piece, Role};

verus! {

/// A rule set over the positions of orthodox chess.
pub trait Variant: Position {
    /// What a position text makes of this variant, if anything.
    spec fn from_fen_spec(fen: Fen) -> Option<Self>;

    /// The placement, the side to move, the castling rights, the en-passant square and
    /// the counters.
    fn position(&self) -> (p: &crate::position::Standard)
        ensures
            *p == self.situation(),
    ;

    /// The position of this variant that a position text describes.
    fn from_fen(fen: &str) -> (r: Option<Self>)
        ensures
            r == match parse_fen_spec(fen.spec_bytes()) {
                Ok(f) => Self::from_fen_spec(f),
                Err(_) => None,
            },
    ;
}

/// A position of orthodox chess.
#[derive(Clone, Copy, Debug, PartialEq, Eq, Hash, Structural)]
pub struct Standard {
    pub pos: crate::position::Standard,
}

impl Default for Standard {
    /// The position in which a game begins.
    fn default() -> (v: Standard)
        ensures
            v.pos.is_initial(),
            v.valid(),
    {
        Standard { pos: crate::position::Standard::initial() }
    }
}

impl Position for Standard {
    open spec fn situation(&self) -> crate::position::Standard {
        self.pos
    }

    open spec fn pockets_spec(&self) -> Option<Pockets> {
        None
    }

    open spec fn remaining_checks_spec(&self) -> Option<RemainingChecks> {
        None
    }

    open spec fn valid(&self) -> bool {
        self.pos.valid()
    }

    open spec fn legal(&self, m: Move) -> bool {
        self.pos.legal_spec(m)
    }

    open spec fn can_do(&self, m: Move) -> bool {
        self.pos.applicable(m)
    }

    open spec fn after(&self, m: Move) -> Standard {
        Standard { pos: self.pos.do_move_spec(m) }
    }

    proof fn lemma_valid_situation(&self) {
    }

    proof fn lemma_after_situation(&self, m: Move) {
    }

    proof fn lemma_valid_after(&self, m: Move) {
        self.pos.lemma_do_move_valid(m);
    }

    fn is_valid(&self) -> (r: bool) {
        self.pos.is_valid()
    }

    fn board(&self) -> (b: &Board) {
        &self.pos.board
    }

    fn pockets(&self) -> (p: Option<&Pockets>) {
        None
    }

    fn turn(&self) -> (c: Color) {
        self.pos.turn
    }

    fn castling_rights(&self) -> (b: Bitboard) {
        self.pos.castling_rights
    }

    fn ep_square(&self) -> (e: Option<Square>) {
        self.pos.ep_square
    }

    fn remaining_checks(&self) -> (r: Option<&RemainingChecks>) {
        None
    }

    fn halfmove_clock(&self) -> (n: u32) {
        self.pos.halfmove_clock
    }

    fn fullmoves(&self) -> (n: u32) {
        self.pos.fullmoves
    }

    fn legal_moves(&self, moves: &mut Vec<Move>) {
        let ghost s0 = moves@;
        self.pos.legal_moves(moves);
        proof {
            lemma_grown_same(
                s0,
                moves@,
                |m: Move| self.pos.legal_spec(m),
                |m: Move| self.legal(m),
            );
        }
    }

    fn do_move(self, m: &Move) -> (v: Standard) {
        Standard { pos: self.pos.do_move(m) }
    }
}

impl Variant for Standard {
    open spec fn from_fen_spec(fen: Fen) -> Option<Standard> {
        if fen.pockets is None && fen.remaining_checks is None {
            Some(Standard { pos: fen.position })
        } else {
            None
        }
    }

    fn position(&self) -> (p: &crate::position::Standard) {
        &self.pos
    }

    fn from_fen(fen: &str) -> (r: Option<Standard>) {
        match crate::fen::parse(fen.as_bytes()) {
            Ok(f) => if f.pockets.is_none() && f.remaining_checks.is_none() {
                Some(Standard { pos: f.position })
            } else {
                None
            },
            Err(_) => None,
        }
    }
}

/// A position of Crazyhouse: a captured piece goes to the pocket of the side that took
/// it, and a move may drop a piece from the pocket on an empty square.
#[derive(Clone, Copy, Debug, PartialEq, Eq, Hash, Structural)]
pub struct Crazyhouse {
    pub pos: crate::position::Standard,
    pub pockets: Pockets,
}

impl Crazyhouse {
    /// Whether `m` drops a piece of `role` on a member of `targets`.
    pub open spec fn is_drop(role: Role, targets: Bitboard, m: Move) -> bool {
        match m {
            Move::Put { role: r, to } => r == role && to.wf() && targets.has(to.idx()),
            _ => false,
        }
    }

    /// Whether a piece may be dropped on `to`: the square is empty and, if the side to
    /// move is in check, lies between the king and the one piece that gives check.
    pub open spec fn drop_square(self, to: int) -> bool {
        on_board(to) && !self.pos.occ_spec().has(to) && (self.pos.in_check_spec() ==> exists|
            c: int,
        |
            #![trigger self.pos.single_checker(c)]
            self.pos.single_checker(c) && between_spec(self.pos.king_sq(), c, to))
    }

    /// Whether `m` is a legal drop: of a piece other than a king that the side to move
    /// holds, on a square where a piece may be dropped, a pawn not on the first or the
    /// eighth rank.
    pub open spec fn drop_spec(self, m: Move) -> bool {
        match m {
            Move::Put { role, to } => role != Role::King && self.pockets.by_piece_spec(
                Piece { color: self.pos.turn, role },
            ) > 0 && to.wf() && self.drop_square(to.idx()) && (role == Role::Pawn ==> 1 <= rank_of(
                to.idx(),
            ) <= 6),
            _ => false,
        }
    }

    /// The piece that a move adds to the pocket of the side that makes it: a pawn for a
    /// captured piece that came from a promotion, the captured piece otherwise.
    pub open spec fn gained(self, m: Move) -> Option<Role> {
        match m {
            Move::Normal { capture: Some(role), to, .. } => if self.pos.board.promoted.has(
                to.idx(),
            ) {
                Some(Role::Pawn)
            } else {
                Some(role)
            },
            _ => None,
        }
    }

    /// The pockets after the move `m`.
    pub open spec fn pockets_after(self, m: Move) -> Pockets {
        let color = self.pos.turn;
        match m {
            Move::Put { role, .. } => self.pockets.with_count(
                Piece { color, role },
                (self.pockets.by_piece_spec(Piece { color, role }) - 1) as u8,
            ),
            _ => match self.gained(m) {
                Some(role) => self.pockets.with_count(
                    Piece { color, role },
                    (self.pockets.by_piece_spec(Piece { color, role }) + 1) as u8,
                ),
                None => self.pockets,
            },
        }
    }

    /// Appends to `moves` the drops of a piece of `role` on the members of `targets`.
    pub fn push_drops(moves: &mut Vec<Move>, role: Role, targets: Bitboard)
        ensures
            grown(old(moves)@, final(moves)@, |m: Move| Crazyhouse::is_drop(role, targets, m)),
    {
        let ghost s0 = moves@;
        let mut rest = targets;
        proof {
            let h0 = |m: Move| Crazyhouse::is_drop(role, targets.minus_spec(rest), m);
            assert forall|m: Move| #![trigger h0(m)] !h0(m) by {
                if let Move::Put { to, .. } = m {
                    targets.lemma_minus(rest, to.idx());
                }
            }
            lemma_grown_none(s0, h0);
        }
        while rest.0 != 0
            invariant
                forall|t: int| #![trigger rest.has(t)] rest.has(t) ==> targets.has(t),
                grown(s0, moves@, |m: Move| Crazyhouse::is_drop(role, targets.minus_spec(rest), m)),
            decreases rest.0,
        {
            let ghost s1 = moves@;
            let ghost before = rest;
            let popped = rest.pop_first();
            let to = popped.unwrap();
            let m0 = Move::Put { role, to };
            crate::position::Standard::push_move(moves, m0);
            proof {
                let p = |m: Move| Crazyhouse::is_drop(role, targets.minus_spec(before), m);
                let q = |x: Move| x == m0;
                let r = |m: Move| Crazyhouse::is_drop(role, targets.minus_spec(rest), m);
                assert forall|t: int| #![trigger rest.has(t)] rest.has(t) implies targets.has(
                    t,
                ) by {
                    before.lemma_without(to.idx(), t);
                }
                assert forall|m: Move| #![trigger r(m)] r(m) <==> (p(m) || q(m)) by {
                    if let Move::Put { to: t, .. } = m {
                        targets.lemma_minus(before, t.idx());
                        targets.lemma_minus(rest, t.idx());
                        before.lemma_without(to.idx(), t.idx());
                    }
                }
                assert forall|m: Move| #![trigger p(m)] !(p(m) && q(m)) by {
                    targets.lemma_minus(before, to.idx());
                }
                lemma_grown_trans(s0, s1, moves@, p, q, r);
            }
        }
        proof {
            let p = |m: Move| Crazyhouse::is_drop(role, targets.minus_spec(rest), m);
            let r = |m: Move| Crazyhouse::is_drop(role, targets, m);
            assert forall|m: Move| #![trigger r(m)] r(m) <==> p(m) by {
                if let Move::Put { to: t, .. } = m {
                    targets.lemma_minus(rest, t.idx());
                    Bitboard::lemma_empty(t.idx());
                }
            }
            lemma_grown_same(s0, moves@, p, r);
        }
    }

    /// The squares on which a piece may be dropped.
    pub fn drop_squares(&self) -> (targets: Bitboard)
        requires
            self.pos.playable(),
        ensures
            forall|t: int| #![trigger targets.has(t)] targets.has(t) <==> self.drop_square(t),
    {
        broadcast use group_bitboard;

        let checkers = self.pos.checkers();
        let occ = self.pos.board.occupied();
        let king = self.pos.our_king();
        let quiet = checkers.is_empty();
        let single = checkers.single_square();
        let targets = if quiet {
            occ.complement()
        } else {
            match single {
                Some(checker) => between(king, checker).minus(occ),
                None => Bitboard::empty(),
            }
        };
        proof {
            let k = self.pos.king_sq();
            if quiet {
                assert(!self.pos.in_check_spec()) by {
                    if self.pos.in_check_spec() {
                        let a = choose|a: int| self.pos.checker_spec(a);
                        assert(checkers.has(a));
                    }
                }
            } else {
                let a = choose|a: int| checkers.has(a);
                assert(self.pos.checker_spec(a));
                assert(self.pos.in_check_spec());
                match single {
                    Some(checker) => {
                        let c = checker.idx();
                        assert(self.pos.single_checker(c));
                        assert forall|t: int|
                            #![trigger targets.has(t)]
                            targets.has(t) <==> self.drop_square(t) by {
                            if self.drop_square(t) {
                                let d = choose|d: int|
                                    #![trigger self.pos.single_checker(d)]
                                    self.pos.single_checker(d) && between_spec(k, d, t);
                                assert(self.pos.checker_spec(c));
                                assert(d == c);
                            }
                        }
                    },
                    None => {
                        assert forall|c: int|
                            #![trigger self.pos.single_checker(c)]
                            !self.pos.single_checker(c) by {
                            if self.pos.single_checker(c) {
                                assert(checkers.has(c));
                                let (x, y) = choose|x: int, y: int|
                                    checkers.has(x) && checkers.has(y) && x != y;
                                assert(self.pos.checker_spec(x) && self.pos.checker_spec(y));
                            }
                        }
                    },
                }
            }
        }
        targets
    }

    /// Appends to `moves` the drops of a piece of `role`, if the side to move holds one
    /// and it is no king.
    pub fn gen_drops_of(&self, moves: &mut Vec<Move>, role: Role, targets: Bitboard)
        requires
            forall|t: int| #![trigger targets.has(t)] targets.has(t) <==> self.drop_square(t),
        ensures
            grown(
                old(moves)@,
                final(moves)@,
                |m: Move| self.drop_spec(m) && m->Put_role == role,
            ),
    {
        broadcast use group_bitboard;

        let ghost s0 = moves@;
        let held = self.pockets.by_piece(Piece { color: self.pos.turn, role });
        let ghost r = |m: Move| self.drop_spec(m) && m->Put_role == role;
        if role != Role::King && held > 0 {
            let squares = if role == Role::Pawn {
                targets.minus(Bitboard::rank(0)).minus(Bitboard::rank(7))
            } else {
                targets
            };
            Crazyhouse::push_drops(moves, role, squares);
            proof {
                let p = |m: Move| Crazyhouse::is_drop(role, squares, m);
                assert forall|m: Move| #![trigger r(m)] r(m) <==> p(m) by {
                    if let Move::Put { to, .. } = m {
                        assert(targets.has(to.idx()) <==> self.drop_square(to.idx()));
                    }
                }
                lemma_grown_same(s0, moves@, p, r);
            }
        } else {
            proof {
                assert forall|m: Move| #![trigger r(m)] !r(m) by {}
                lemma_grown_none(s0, r);
            }
        }
    }

    /// Appends to `moves` the legal drops: for each role in the pocket of the side to
    /// move, one on each square where a piece may be dropped.
    pub fn gen_drops(&self, moves: &mut Vec<Move>)
        requires
            self.pos.playable(),
        ensures
            grown(old(moves)@, final(moves)@, |m: Move| self.drop_spec(m)),
    {
        let targets = self.drop_squares();
        let ghost s0 = moves@;
        self.gen_drops_of(moves, Role::Pawn, targets);
        let ghost s1 = moves@;
        self.gen_drops_of(moves, Role::Knight, targets);
        let ghost s2 = moves@;
        self.gen_drops_of(moves, Role::Bishop, targets);
        let ghost s3 = moves@;
        self.gen_drops_of(moves, Role::Rook, targets);
        let ghost s4 = moves@;
        self.gen_drops_of(moves, Role::Queen, targets);
        proof {
            let s5 = moves@;
            let q1 = |m: Move| self.drop_spec(m) && m->Put_role == Role::Pawn;
            let q2 = |m: Move| self.drop_spec(m) && m->Put_role == Role::Knight;
            let q3 = |m: Move| self.drop_spec(m) && m->Put_role == Role::Bishop;
            let q4 = |m: Move| self.drop_spec(m) && m->Put_role == Role::Rook;
            let q5 = |m: Move| self.drop_spec(m) && m->Put_role == Role::Queen;
            let h2 = |m: Move| q1(m) || q2(m);
            let h3 = |m: Move| h2(m) || q3(m);
            let h4 = |m: Move| h3(m) || q4(m);
            let h5 = |m: Move| self.drop_spec(m);
            lemma_grown_trans(s0, s1, s2, q1, q2, h2);
            lemma_grown_trans(s0, s2, s3, h2, q3, h3);
            lemma_grown_trans(s0, s3, s4, h3, q4, h4);
            lemma_grown_trans(s0, s4, s5, h4, q5, h5);
        }
    }

    /// A legal drop leaves the own king safe and keeps the position one that can occur
    /// in a game.
    pub proof fn lemma_drop_valid(self, m: Move)
        requires
            self.pos.valid(),
            self.drop_spec(m),
            self.pos.applicable(m),
        ensures
            self.pos.do_move_spec(m).valid(),
    {
        broadcast use group_bitboard;

        let pos = self.pos;
        let us = pos.turn;
        let them = pos.turn.other_spec();
        let to = m->Put_to.idx();
        let role = m->Put_role;
        let piece = Piece { color: us, role };
        let after = pos.do_move_spec(m);
        let b1 = after.board;
        let occ = pos.occ_spec();
        let occ1 = after.occ_spec();
        let k = pos.board.king_spec(us);
        let tk = pos.board.king_spec(them);
        assert(pos.board.is_king_of(us, k));
        assert(pos.board.is_king_of(them, tk));
        pos.board.lemma_put(to, piece, false);
        pos.board.lemma_occupied(to);
        pos.board.lemma_occupied(k);
        pos.board.lemma_occupied(tk);
        assert(b1.is_king_of(us, k));
        assert(b1.is_king_of(them, tk));
        assert forall|s: int, t: int|
            #![trigger b1.kings.has(s), b1.kings.has(t)]
            b1.kings.has(s) && b1.kings.has(t) && b1.color_at_spec(s) == b1.color_at_spec(
                t,
            ) implies s == t by {
            b1.lemma_occupied(s);
            b1.lemma_occupied(t);
            pos.board.lemma_occupied(s);
            pos.board.lemma_occupied(t);
            assert(b1.piece_at_spec(s) is Some);
            assert(b1.piece_at_spec(t) is Some);
            assert(pos.board.kings.has(s) && pos.board.kings.has(t));
        }
        assert forall|s: int| #![trigger b1.pawns.has(s)] b1.pawns.has(s) implies 1 <= rank_of(s)
            <= 6 by {
            b1.lemma_occupied(s);
            pos.board.lemma_occupied(s);
            if s != to {
                assert(pos.board.pawns.has(s));
            }
        }
        b1.lemma_king_unique(us, k);
        assert forall|x: int| #![trigger occ1.has(x)] occ1.has(x) <==> (x == to || occ.has(x)) by {
            b1.lemma_occupied(x);
            pos.board.lemma_occupied(x);
        }
        if b1.attacked_by(them, occ1, k) {
            let a = choose|a: int|
                #![trigger b1.attacks_spec(a, occ1, k)]
                b1.color_at_spec(a) == Some(them) && b1.attacks_spec(a, occ1, k);
            b1.lemma_occupied(a);
            pos.board.lemma_occupied(a);
            let p = b1.piece_at_spec(a).unwrap();
            assert(a != to);
            assert(pos.board.piece_at_spec(a) == Some(p));
            if clear_path(a, k, occ1) {
                assert forall|x: int| between_spec(a, k, x) implies !occ.has(x) by {
                    assert(!occ1.has(x));
                }
            }
            assert(piece_attack(p, a, occ, k));
            assert(pos.board.attacks_spec(a, occ, k));
            assert(pos.checker_spec(a));
            assert(pos.in_check_spec());
            let c = choose|c: int|
                #![trigger pos.single_checker(c)]
                pos.single_checker(c) && between_spec(pos.king_sq(), c, to);
            assert(c == a);
            assert(between_spec(a, k, to));
            lemma_no_step_over(a, k, to);
            assert(occ1.has(to));
            assert(false);
        }
        assert(after.turn.other_spec() == us);
    }
}

impl Default for Crazyhouse {
    /// The position in which a game begins, with empty pockets.
    fn default() -> (v: Crazyhouse)
        ensures
            v.pos.is_initial(),
            v.valid(),
            forall|piece: Piece| v.pockets.by_piece_spec(piece) == 0,
    {
        let pockets = Pockets::empty();
        assert(pockets.by_piece_spec(Piece { color: Color::White, role: Role::King }) == 0);
        assert(pockets.by_piece_spec(Piece { color: Color::Black, role: Role::King }) == 0);
        Crazyhouse { pos: crate::position::Standard::initial(), pockets }
    }
}

impl Position for Crazyhouse {
    open spec fn situation(&self) -> crate::position::Standard {
        self.pos
    }

    open spec fn pockets_spec(&self) -> Option<Pockets> {
        Some(self.pockets)
    }

    open spec fn remaining_checks_spec(&self) -> Option<RemainingChecks> {
        None
    }

    open spec fn valid(&self) -> bool {
        self.pos.valid() && self.pockets.white.kings == 0 && self.pockets.black.kings == 0
    }

    open spec fn legal(&self, m: Move) -> bool {
        self.pos.legal_spec(m) || self.drop_spec(m)
    }

    open spec fn can_do(&self, m: Move) -> bool {
        &&& self.pos.applicable(m)
        &&& m matches Move::Put { role, .. } ==> self.pockets.by_piece_spec(
            Piece { color: self.pos.turn, role },
        ) > 0
        &&& self.gained(m) matches Some(role) ==> self.pockets.by_piece_spec(
            Piece { color: self.pos.turn, role },
        ) < 255
    }

    open spec fn after(&self, m: Move) -> Crazyhouse {
        Crazyhouse { pos: self.pos.do_move_spec(m), pockets: self.pockets_after(m) }
    }

    proof fn lemma_valid_situation(&self) {
    }

    proof fn lemma_after_situation(&self, m: Move) {
    }

    proof fn lemma_valid_after(&self, m: Move) {
        if self.pos.legal_spec(m) {
            self.pos.lemma_do_move_valid(m);
            self.pos.lemma_candidate_rule(m);
            if m is Normal {
                self.pos.lemma_normal_rule(m);
            }
        } else {
            self.lemma_drop_valid(m);
        }
    }

    fn is_valid(&self) -> (r: bool) {
        self.pos.is_valid() && self.pockets.white.kings == 0 && self.pockets.black.kings == 0
    }

    fn board(&self) -> (b: &Board) {
        &self.pos.board
    }

    fn pockets(&self) -> (p: Option<&Pockets>) {
        Some(&self.pockets)
    }

    fn turn(&self) -> (c: Color) {
        self.pos.turn
    }

    fn castling_rights(&self) -> (b: Bitboard) {
        self.pos.castling_rights
    }

    fn ep_square(&self) -> (e: Option<Square>) {
        self.pos.ep_square
    }

    fn remaining_checks(&self) -> (r: Option<&RemainingChecks>) {
        None
    }

    fn halfmove_clock(&self) -> (n: u32) {
        self.pos.halfmove_clock
    }

    fn fullmoves(&self) -> (n: u32) {
        self.pos.fullmoves
    }

    fn legal_moves(&self, moves: &mut Vec<Move>) {
        let ghost s0 = moves@;
        self.pos.legal_moves(moves);
        let ghost s1 = moves@;
        self.gen_drops(moves);
        proof {
            let p = |m: Move| self.pos.legal_spec(m);
            let q = |m: Move| self.drop_spec(m);
            let r = |m: Move| self.legal(m);
            assert forall|m: Move| #![trigger p(m)] !(p(m) && q(m)) by {
                if self.pos.legal_spec(m) {
                    assert(self.pos.safe_spec(m));
                }
            }
            lemma_grown_trans(s0, s1, moves@, p, q, r);
        }
    }

    fn do_move(self, m: &Move) -> (v: Crazyhouse) {
        let color = self.pos.turn;
        let mut pockets = self.pockets;
        match *m {
            Move::Normal { capture: Some(role), to, .. } => {
                let gained = if self.pos.board.promoted().contains(to) {
                    Role::Pawn
                } else {
                    role
                };
                let piece = Piece { color, role: gained };
                let n = pockets.by_piece(piece);
                pockets.set(piece, n + 1);
            },
            Move::Put { role, .. } => {
                let piece = Piece { color, role };
                let n = pockets.by_piece(piece);
                pockets.set(piece, n - 1);
            },
            _ => {},
        }
        Crazyhouse { pos: self.pos.do_move(m), pockets }
    }
}

impl Variant for Crazyhouse {
    open spec fn from_fen_spec(fen: Fen) -> Option<Crazyhouse> {
        if fen.remaining_checks is None {
            Some(
                Crazyhouse {
                    pos: fen.position,
                    pockets: match fen.pockets {
                        Some(p) => p,
                        None => crate::fen::empty_pockets(),
                    },
                },
            )
        } else {
            None
        }
    }

    fn position(&self) -> (p: &crate::position::Standard) {
        &self.pos
    }

    fn from_fen(fen: &str) -> (r: Option<Crazyhouse>) {
        match crate::fen::parse(fen.as_bytes()) {
            Ok(f) => if f.remaining_checks.is_none() {
                let pockets = match f.pockets {
                    Some(p) => p,
                    None => {
                        let e = Pocket {
                            pawns: 0,
                            knights: 0,
                            bishops: 0,
                            rooks: 0,
                            queens: 0,
                            kings: 0,
                        };
                        Pockets { white: e, black: e }
                    },
                };
                Some(Crazyhouse { pos: f.position, pockets })
            } else {
                None
            },
            Err(_) => None,
        }
    }
}

/// A position of Three-Check: a side that has been given check three times has lost.
#[derive(Clone, Copy, Debug, PartialEq, Eq, Hash, Structural)]
pub struct ThreeCheck {
    pub pos: crate::position::Standard,
    pub remaining_checks: RemainingChecks,
}

impl ThreeCheck {
    /// The counters after the move `m`: the one of the side that the move puts in check
    /// is one lower.
    pub open spec fn checks_after(self, m: Move) -> RemainingChecks {
        let after = self.pos.do_move_spec(m);
        if after.in_check_spec() {
            self.remaining_checks.decremented_spec(after.turn)
        } else {
            self.remaining_checks
        }
    }
}

impl Default for ThreeCheck {
    /// The position in which a game begins, with three checks left to each side.
    fn default() -> (v: ThreeCheck)
        ensures
            v.pos.is_initial(),
            v.valid(),
            v.remaining_checks == (RemainingChecks { white: 3, black: 3 }),
    {
        ThreeCheck {
            pos: crate::position::Standard::initial(),
            remaining_checks: RemainingChecks { white: 3, black: 3 },
        }
    }
}

impl Position for ThreeCheck {
    open spec fn situation(&self) -> crate::position::Standard {
        self.pos
    }

    open spec fn pockets_spec(&self) -> Option<Pockets> {
        None
    }

    open spec fn remaining_checks_spec(&self) -> Option<RemainingChecks> {
        Some(self.remaining_checks)
    }

    open spec fn valid(&self) -> bool {
        self.pos.valid() && self.remaining_checks.white <= 3 && self.remaining_checks.black <= 3
    }

    open spec fn legal(&self, m: Move) -> bool {
        self.pos.legal_spec(m)
    }

    open spec fn can_do(&self, m: Move) -> bool {
        &&& self.pos.valid()
        &&& self.pos.legal_spec(m)
        &&& self.pos.applicable(m)
        &&& self.pos.do_move_spec(m).in_check_spec() ==> self.remaining_checks.by_color_spec(
            self.pos.turn.other_spec(),
        ) > 0
    }

    open spec fn after(&self, m: Move) -> ThreeCheck {
        ThreeCheck { pos: self.pos.do_move_spec(m), remaining_checks: self.checks_after(m) }
    }

    proof fn lemma_valid_situation(&self) {
    }

    proof fn lemma_after_situation(&self, m: Move) {
    }

    proof fn lemma_valid_after(&self, m: Move) {
        self.pos.lemma_do_move_valid(m);
    }

    fn is_valid(&self) -> (r: bool) {
        self.pos.is_valid() && self.remaining_checks.white <= 3 && self.remaining_checks.black <= 3
    }

    fn board(&self) -> (b: &Board) {
        &self.pos.board
    }

    fn pockets(&self) -> (p: Option<&Pockets>) {
        None
    }

    fn turn(&self) -> (c: Color) {
        self.pos.turn
    }

    fn castling_rights(&self) -> (b: Bitboard) {
        self.pos.castling_rights
    }

    fn ep_square(&self) -> (e: Option<Square>) {
        self.pos.ep_square
    }

    fn remaining_checks(&self) -> (r: Option<&RemainingChecks>) {
        Some(&self.remaining_checks)
    }

    fn halfmove_clock(&self) -> (n: u32) {
        self.pos.halfmove_clock
    }

    fn fullmoves(&self) -> (n: u32) {
        self.pos.fullmoves
    }

    fn legal_moves(&self, moves: &mut Vec<Move>) {
        let ghost s0 = moves@;
        self.pos.legal_moves(moves);
        proof {
            lemma_grown_same(
                s0,
                moves@,
                |m: Move| self.pos.legal_spec(m),
                |m: Move| self.legal(m),
            );
        }
    }

    fn do_move(self, m: &Move) -> (v: ThreeCheck) {
        proof {
            self.pos.lemma_do_move_valid(*m);
        }
        let pos = self.pos.do_move(m);
        let mut remaining_checks = self.remaining_checks;
        let checkers = pos.checkers();
        let check = checkers.any();
        proof {
            if check {
                let a = choose|a: int| checkers.has(a);
                assert(pos.checker_spec(a));
            } else if pos.in_check_spec() {
                let a = choose|a: int| pos.checker_spec(a);
                assert(checkers.has(a));
            }
        }
        if check {
            remaining_checks.decrement(pos.turn);
        }
        ThreeCheck { pos, remaining_checks }
    }
}

impl Variant for ThreeCheck {
    open spec fn from_fen_spec(fen: Fen) -> Option<ThreeCheck> {
        if fen.pockets is None {
            Some(
                ThreeCheck {
                    pos: fen.position,
                    remaining_checks: match fen.remaining_checks {
                        Some(c) => c,
                        None => RemainingChecks { white: 3, black: 3 },
                    },
                },
            )
        } else {
            None
        }
    }

    fn position(&self) -> (p: &crate::position::Standard) {
        &self.pos
    }

    fn from_fen(fen: &str) -> (r: Option<ThreeCheck>) {
        match crate::fen::parse(fen.as_bytes()) {
            Ok(f) => if f.pockets.is_none() {
                let remaining_checks = match f.remaining_checks {
                    Some(c) => c,
                    None => RemainingChecks { white: 3, black: 3 },
                };
                Some(ThreeCheck { pos: f.position, remaining_checks })
            } else {
                None
            },
            Err(_) => None,
        }
    }
}

/// Writing a position of orthodox chess and reading the text back as one gives the
/// position, if every castling right belongs to a rook on the back rank of its side and
/// no piece is marked as promoted.
pub proof fn lemma_standard_round_trip(v: Standard)
    requires
        v.pos.wf(),
        v.pos.castling_ok(),
        v.pos.board.promoted == Bitboard::empty_spec(),
    ensures
        parse_fen_spec(fen_text(v.situation(), v.pockets_spec(), v.remaining_checks_spec()))
            is Ok,
        Standard::from_fen_spec(
            parse_fen_spec(
                fen_text(v.situation(), v.pockets_spec(), v.remaining_checks_spec()),
            ).unwrap(),
        ) == Some(v),
{
    lemma_fen_round_trip(v.pos, None, None);
}

/// Writing a position of Crazyhouse and reading the text back as one gives the position,
/// if every castling right belongs to a rook on the back rank of its side and no pocket
/// holds a king.
pub proof fn lemma_crazyhouse_round_trip(v: Crazyhouse)
    requires
        v.pos.wf(),
        v.pos.castling_ok(),
        v.pockets.white.kings == 0,
        v.pockets.black.kings == 0,
    ensures
        parse_fen_spec(fen_text(v.situation(), v.pockets_spec(), v.remaining_checks_spec()))
            is Ok,
        Crazyhouse::from_fen_spec(
            parse_fen_spec(
                fen_text(v.situation(), v.pockets_spec(), v.remaining_checks_spec()),
            ).unwrap(),
        ) == Some(v),
{
    lemma_fen_round_trip(v.pos, Some(v.pockets), None);
}

/// Writing a position of Three-Check and reading the text back as one gives the
/// position, if every castling right belongs to a rook on the back rank of its side, no
/// piece is marked as promoted and neither side has more than three checks left.
pub proof fn lemma_three_check_round_trip(v: ThreeCheck)
    requires
        v.pos.wf(),
        v.pos.castling_ok(),
        v.pos.board.promoted == Bitboard::empty_spec(),
        v.remaining_checks.white <= 3,
        v.remaining_checks.black <= 3,
    ensures
        parse_fen_spec(fen_text(v.situation(), v.pockets_spec(), v.remaining_checks_spec()))
            is Ok,
        ThreeCheck::from_fen_spec(
            parse_fen_spec(
                fen_text(v.situation(), v.pockets_spec(), v.remaining_checks_spec()),
            ).unwrap(),
        ) == Some(v),
{
    lemma_fen_round_trip(v.pos, None, Some(v.remaining_checks));
}

/// Writing a legal move of Crazyhouse in coordinate notation, with castling as the king
/// going onto the rook, and reading it back in the same position gives the move; a king
/// that takes a piece on a square that has a castling right is left out, because its
/// notation reads as castling.
pub proof fn lemma_crazyhouse_chess960_round_trip(v: Crazyhouse, m: Move)
    requires
        v.valid(),
        v.legal(m),
        !(m matches Move::Normal { role: Role::King, to, .. } && v.pos.castling_rights.has(
            to.idx(),
        )),
    ensures
        crate::uci::candidate_move(v.pos, crate::uci::chess960_spec(m)) == Some(m),
{
    if v.pos.legal_spec(m) {
        crate::uci::lemma_chess960_round_trip(v.pos, m);
    }
}

} // verus!
