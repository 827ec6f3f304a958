//! Testing whether a board and a position satisfy their invariants.

use vstd::prelude::*;
use crate::bitboard::{Bitboard, group_bitboard};
use crate::board::Board;
use crate::position::Standard;
use crate::square::rank_of;
use crate::types::Color;

verus! {

impl Board {
    /// Whether the board satisfies the invariant of the type.
    pub fn is_wf(&self) -> (r: bool)
        ensures
            r == self.wf(),
    {
        broadcast use group_bitboard;

        let both = self.white.intersect(self.black);
        let occ = self.white.union(self.black);
        let c1 = self.pawns.intersect(self.knights);
        let s1 = self.pawns.union(self.knights);
        let c2 = s1.intersect(self.bishops);
        let s2 = s1.union(self.bishops);
        let c3 = s2.intersect(self.rooks);
        let s3 = s2.union(self.rooks);
        let c4 = s3.intersect(self.queens);
        let s4 = s3.union(self.queens);
        let c5 = s4.intersect(self.kings);
        let roles = s4.union(self.kings);
        let clash = c1.union(c2).union(c3).union(c4).union(c5);
        let stray = self.promoted.minus(occ);
        let r = both.is_empty() && clash.is_empty() && stray.is_empty() && occ.0 == roles.0;
        proof {
            if r {
                assert forall|s: int| self.square_ok(s) by {
                    assert(!both.has(s));
                    assert(!clash.has(s));
                    assert(!stray.has(s));
                    assert(occ.has(s) == roles.has(s));
                }
            }
            if self.wf() {
                assert forall|s: int| !both.has(s) && !clash.has(s) && !stray.has(s) && (occ.has(s)
                    <==> roles.has(s)) by {
                    assert(self.square_ok(s));
                }
                occ.lemma_ext(roles);
            }
        }
        r
    }

    /// Whether the board can occur in a game: it satisfies the invariant, no side has two
    /// kings, and no pawn stands on the first or the eighth rank.
    pub fn is_valid(&self) -> (r: bool)
        ensures
            r == self.valid(),
    {
        broadcast use group_bitboard;

        if !self.is_wf() {
            return false;
        }
        let white_kings = self.kings.intersect(self.white);
        let black_kings = self.kings.intersect(self.black);
        let edge = Bitboard::rank(0).union(Bitboard::rank(7));
        let edge_pawns = self.pawns.intersect(edge);
        let many_white = white_kings.more_than_one();
        let many_black = black_kings.more_than_one();
        let r = !many_white && !many_black && edge_pawns.is_empty();
        proof {
            if r {
                assert forall|s: int, t: int|
                    #![trigger self.kings.has(s), self.kings.has(t)]
                    self.kings.has(s) && self.kings.has(t) && self.color_at_spec(s)
                        == self.color_at_spec(t) implies s == t by {
                    assert(self.square_ok(s) && self.square_ok(t));
                    if s != t {
                        if self.white.has(s) {
                            assert(white_kings.has(s) && white_kings.has(t));
                        } else {
                            assert(black_kings.has(s) && black_kings.has(t));
                        }
                    }
                }
                assert forall|s: int| #![trigger self.pawns.has(s)] self.pawns.has(
                    s,
                ) implies 1 <= rank_of(s) <= 6 by {
                    assert(!edge_pawns.has(s));
                }
            }
            if self.valid() {
                if many_white {
                    let (x, y) = choose|x: int, y: int|
                        white_kings.has(x) && white_kings.has(y) && x != y;
                    assert(self.kings.has(x) && self.kings.has(y));
                }
                if many_black {
                    let (x, y) = choose|x: int, y: int|
                        black_kings.has(x) && black_kings.has(y) && x != y;
                    assert(self.kings.has(x) && self.kings.has(y));
                    assert(self.square_ok(x) && self.square_ok(y));
                }
                assert forall|s: int| !edge_pawns.has(s) by {
                    if edge_pawns.has(s) {
                        assert(self.pawns.has(s));
                    }
                }
            }
        }
        r
    }
}

impl Standard {
    /// Whether the position can occur in a game: what the functions that enumerate and
    /// carry out moves ask of it.
    pub fn is_valid(&self) -> (r: bool)
        ensures
            r == self.valid(),
    {
        if !self.board.is_valid() {
            return false;
        }
        match self.ep_square {
            Some(e) => {
                if e.index() >= 64 {
                    return false;
                }
            },
            None => {},
        }
        if !self.has_fitting_ep() || self.fullmoves < 1 {
            return false;
        }
        let ours = self.board.king_of(self.turn);
        let theirs = self.board.king_of(self.turn.other());
        assert(self.board.has_king(Color::White) && self.board.has_king(Color::Black) <==> ours
            is Some && theirs is Some);
        match (ours, theirs) {
            (Some(_), Some(king)) => !self.board.is_attacked_by(
                self.turn,
                king,
                self.board.occupied(),
            ),
            _ => false,
        }
    }
}

} // verus!
