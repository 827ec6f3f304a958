//! Moves in coordinate notation, as the Universal Chess Interface writes them.

use vstd::prelude::*;
use vstd::string::StringSliceAdditionalSpecFns;
use vstd::slice::slice_subrange;
use crate::bitboard::Bitboard;
use crate::board::Board;
use crate::position::{Position, Standard, back_rank};
use crate::square::{
    Square, at, distance, distance_spec, file_of, parse_square_spec, rank_of, square_text,
};
use crate::text::string_of;
use crate::types::{CastlingMode, CastlingSide, Color, Move, Role};

verus! {

/// The text was no move in coordinate notation.
#[derive(Clone, Copy, Debug, PartialEq, Eq, Structural)]
pub struct ParseUciError;

impl ParseUciError {
    /// The words of the error.
    pub fn to_string(&self) -> (s: String)
        ensures
            s@ == "invalid uci"@,
    {
        "invalid uci".to_owned()
    }
}

/// The move in coordinate notation is not legal in the position.
#[derive(Clone, Copy, Debug, PartialEq, Eq, Structural)]
pub struct IllegalUciError;

impl IllegalUciError {
    /// The words of the error.
    pub fn to_string(&self) -> (s: String)
        ensures
            s@ == "illegal uci"@,
    {
        "illegal uci".to_owned()
    }
}

/// A move in coordinate notation.
#[derive(Clone, Copy, Debug, PartialEq, Eq, Hash, Structural)]
pub enum Uci {
    /// From one square to another, such as `e2e4` or `h2h1q`.
    Normal { from: Square, to: Square, promotion: Option<Role> },
    /// A drop, such as `Q@f7`.
    Put { role: Role, to: Square },
    /// The pass, `0000`.
    Null,
}

/// The letter of a promotion in coordinate notation: a lower-case letter of a role other
/// than the pawn.
pub open spec fn promotion_letter(b: u8) -> Option<Role> {
    if b == 113 {
        Some(Role::Queen)
    } else if b == 114 {
        Some(Role::Rook)
    } else if b == 98 {
        Some(Role::Bishop)
    } else if b == 110 {
        Some(Role::Knight)
    } else if b == 107 {
        Some(Role::King)
    } else {
        None
    }
}

/// The letter of a drop in coordinate notation: an upper-case letter of a role.
pub open spec fn drop_letter(b: u8) -> Option<Role> {
    if b == 80 {
        Some(Role::Pawn)
    } else if b == 78 {
        Some(Role::Knight)
    } else if b == 66 {
        Some(Role::Bishop)
    } else if b == 82 {
        Some(Role::Rook)
    } else if b == 81 {
        Some(Role::Queen)
    } else if b == 75 {
        Some(Role::King)
    } else {
        None
    }
}

/// The move that a text in coordinate notation names: `0000` for the pass; a role's
/// upper-case letter, `@` and a square for a drop; two squares, and after them at most
/// the lower-case letter of a role other than the pawn, for another move.
pub open spec fn parse_uci_spec(t: Seq<u8>) -> Option<Uci> {
    if t.len() != 4 && t.len() != 5 {
        None
    } else if t =~= seq![48u8, 48u8, 48u8, 48u8] {
        Some(Uci::Null)
    } else if t[1] == 64 {
        if t.len() == 4 && drop_letter(t[0]) is Some && parse_square_spec(t.subrange(2, 4)) is Some {
            Some(
                Uci::Put {
                    role: drop_letter(t[0]).unwrap(),
                    to: parse_square_spec(t.subrange(2, 4)).unwrap(),
                },
            )
        } else {
            None
        }
    } else if parse_square_spec(t.subrange(0, 2)) is Some && parse_square_spec(t.subrange(2, 4))
        is Some && (t.len() == 5 ==> promotion_letter(t[4]) is Some) {
        Some(
            Uci::Normal {
                from: parse_square_spec(t.subrange(0, 2)).unwrap(),
                to: parse_square_spec(t.subrange(2, 4)).unwrap(),
                promotion: if t.len() == 5 {
                    promotion_letter(t[4])
                } else {
                    None
                },
            },
        )
    } else {
        None
    }
}

/// A move in coordinate notation, as text.
pub open spec fn uci_text(uci: Uci) -> Seq<u8> {
    match uci {
        Uci::Normal { from, to, promotion } => square_text(from.idx()) + square_text(to.idx())
            + match promotion {
            Some(role) => seq![role.char_spec() as u8],
            None => Seq::<u8>::empty(),
        },
        Uci::Put { role, to } => seq![role.upper_char_spec() as u8, 64u8] + square_text(to.idx()),
        Uci::Null => seq![48u8, 48u8, 48u8, 48u8],
    }
}

/// The move that `uci` stands for in the position `pos`, before any test of legality.
///
/// A king that goes onto a rook with a castling right castles with that rook. A king that
/// goes two files along its back rank from its first square castles with the rook in the
/// corner on that side. A pawn that changes file onto an empty square captures in passing.
/// Anything else is an ordinary move that takes what stands on the square it goes to.
/// A move from an empty square, a promotion of a piece that is no pawn, and the pass
/// stand for nothing.
pub open spec fn candidate_move(pos: Standard, uci: Uci) -> Option<Move> {
    match uci {
        Uci::Normal { from, to, promotion } => match pos.board.role_at_spec(from.idx()) {
            None => None,
            Some(role) => if promotion is Some && role != Role::Pawn {
                None
            } else if role == Role::King && pos.castling_rights.has(to.idx()) {
                Some(Move::Castle { king: from, rook: to })
            } else if role == Role::King && from.idx() == at(4, back_rank(pos.turn)) && rank_of(
                to.idx(),
            ) == back_rank(pos.turn) && distance_spec(from.idx(), to.idx()) == 2 {
                Some(
                    Move::Castle {
                        king: from,
                        rook: Square(
                            at(
                                if file_of(from.idx()) < file_of(to.idx()) {
                                    7
                                } else {
                                    0
                                },
                                back_rank(pos.turn),
                            ) as u8,
                        ),
                    },
                )
            } else if role == Role::Pawn && file_of(from.idx()) != file_of(to.idx())
                && !pos.occ_spec().has(to.idx()) {
                Some(Move::EnPassant { from, to })
            } else {
                Some(
                    Move::Normal {
                        role,
                        from,
                        capture: pos.board.role_at_spec(to.idx()),
                        to,
                        promotion,
                    },
                )
            },
        },
        Uci::Put { role, to } => Some(Move::Put { role, to }),
        Uci::Null => None,
    }
}

/// The move `m` in coordinate notation, with castling written as the king going onto the
/// rook.
pub open spec fn chess960_spec(m: Move) -> Uci {
    match m {
        Move::Normal { from, to, promotion, .. } => Uci::Normal { from, to, promotion },
        Move::EnPassant { from, to } => Uci::Normal { from, to, promotion: None },
        Move::Castle { king, rook } => Uci::Normal { from: king, to: rook, promotion: None },
        Move::Put { role, to } => Uci::Put { role, to },
        Move::Null => Uci::Null,
    }
}

/// The move `m` in coordinate notation, with castling written as the king going to the
/// g-file or the c-file of its rank.
pub open spec fn standard_spec(m: Move) -> Uci {
    match m {
        Move::Castle { king, rook } => Uci::Normal {
            from: king,
            to: Square(
                at(
                    if king.idx() < rook.idx() {
                        6
                    } else {
                        2
                    },
                    rank_of(king.idx()),
                ) as u8,
            ),
            promotion: None,
        },
        _ => chess960_spec(m),
    }
}

impl Uci {
    /// Whether the squares of the move are squares of the board.
    pub open spec fn wf(self) -> bool {
        match self {
            Uci::Normal { from, to, .. } => from.wf() && to.wf(),
            Uci::Put { to, .. } => to.wf(),
            Uci::Null => true,
        }
    }

    /// Reads a move in coordinate notation.
    pub fn from_ascii(uci: &[u8]) -> (r: Result<Uci, ParseUciError>)
        ensures
            r == match parse_uci_spec(uci@) {
                Some(u) => Ok::<Uci, ParseUciError>(u),
                None => Err::<Uci, ParseUciError>(ParseUciError),
            },
            r is Ok ==> r.unwrap().wf(),
    {
        if uci.len() != 4 && uci.len() != 5 {
            return Err(ParseUciError);
        }
        if uci.len() == 4 && uci[0] == 48 && uci[1] == 48 && uci[2] == 48 && uci[3] == 48 {
            assert(uci@ =~= seq![48u8, 48u8, 48u8, 48u8]);
            return Ok(Uci::Null);
        }
        assert(!(uci@ =~= seq![48u8, 48u8, 48u8, 48u8])) by {
            let z = seq![48u8, 48u8, 48u8, 48u8];
            if uci@ =~= z {
                assert(uci@[0] == z[0] && uci@[1] == z[1] && uci@[2] == z[2] && uci@[3] == z[3]);
            }
        }
        let to = match Square::from_ascii(slice_subrange(uci, 2, 4)) {
            Some(sq) => sq,
            None => {
                return Err(ParseUciError);
            },
        };
        if uci[1] == 64 {
            if uci.len() != 4 {
                return Err(ParseUciError);
            }
            let b = uci[0];
            let role = if b == 80 {
                Role::Pawn
            } else if b == 78 {
                Role::Knight
            } else if b == 66 {
                Role::Bishop
            } else if b == 82 {
                Role::Rook
            } else if b == 81 {
                Role::Queen
            } else if b == 75 {
                Role::King
            } else {
                return Err(ParseUciError);
            };
            Ok(Uci::Put { role, to })
        } else {
            let from = match Square::from_ascii(slice_subrange(uci, 0, 2)) {
                Some(sq) => sq,
                None => {
                    return Err(ParseUciError);
                },
            };
            if uci.len() == 5 {
                let b = uci[4];
                let role = if b == 113 {
                    Role::Queen
                } else if b == 114 {
                    Role::Rook
                } else if b == 98 {
                    Role::Bishop
                } else if b == 110 {
                    Role::Knight
                } else if b == 107 {
                    Role::King
                } else {
                    return Err(ParseUciError);
                };
                Ok(Uci::Normal { from, to, promotion: Some(role) })
            } else {
                Ok(Uci::Normal { from, to, promotion: None })
            }
        }
    }

    /// Reads a move in coordinate notation from a string.
    pub fn from_text(uci: &str) -> (r: Result<Uci, ParseUciError>)
        ensures
            r == match parse_uci_spec(uci.spec_bytes()) {
                Some(u) => Ok::<Uci, ParseUciError>(u),
                None => Err::<Uci, ParseUciError>(ParseUciError),
            },
            r is Ok ==> r.unwrap().wf(),
    {
        Uci::from_ascii(uci.as_bytes())
    }

    /// Writes a castling move as the king going to the g-file or the c-file of its rank,
    /// and any other move as [`Uci::from_chess960`] does.
    pub fn from_standard(m: &Move) -> (u: Uci)
        requires
            m.wf(),
        ensures
            u == standard_spec(*m),
            u.wf(),
    {
        match *m {
            Move::Castle { king, rook } => {
                let side = CastlingSide::from_king_side(king.index() < rook.index());
                Uci::Normal {
                    from: king,
                    to: Square::new((side.king_to_file() + 8 * king.rank()) as u8),
                    promotion: None,
                }
            },
            _ => Uci::from_chess960(m),
        }
    }

    /// Writes a castling move as the king going onto the rook, a capture in passing as
    /// the step of the pawn, and any other move with its own squares.
    pub fn from_chess960(m: &Move) -> (u: Uci)
        ensures
            u == chess960_spec(*m),
            m.wf() ==> u.wf(),
    {
        match *m {
            Move::Normal { from, to, promotion, .. } => Uci::Normal { from, to, promotion },
            Move::EnPassant { from, to } => Uci::Normal { from, to, promotion: None },
            Move::Castle { king, rook } => Uci::Normal { from: king, to: rook, promotion: None },
            Move::Put { role, to } => Uci::Put { role, to },
            Move::Null => Uci::Null,
        }
    }

    /// Writes a move in the given way of writing castling.
    pub fn from_move(m: &Move, mode: CastlingMode) -> (u: Uci)
        requires
            m.wf(),
        ensures
            u == match mode {
                CastlingMode::Standard => standard_spec(*m),
                CastlingMode::Chess960 => chess960_spec(*m),
            },
            u.wf(),
    {
        match mode {
            CastlingMode::Standard => Uci::from_standard(m),
            CastlingMode::Chess960 => Uci::from_chess960(m),
        }
    }

    /// The move that this stands for on the given board, before any test of legality.
    pub fn candidate(&self, board: &Board, turn: Color, castling_rights: Bitboard) -> (r: Option<
        Move,
    >)
        requires
            self.wf(),
        ensures
            forall|pos: Standard|
                pos.board == *board && pos.turn == turn && pos.castling_rights == castling_rights
                    ==> r == #[trigger] candidate_move(pos, *self),
            r is Some ==> r.unwrap().wf(),
    {
        match *self {
            Uci::Normal { from, to, promotion } => {
                let role = match board.role_at(from) {
                    Some(role) => role,
                    None => {
                        return None;
                    },
                };
                if promotion.is_some() && role != Role::Pawn {
                    return None;
                }
                let home: i8 = turn.fold(0, 7);
                if role == Role::King && castling_rights.contains(to) {
                    Some(Move::Castle { king: from, rook: to })
                } else if role == Role::King && from.index() == (4 + 8 * home) as u8 && to.rank()
                    == home && distance(from, to) == 2 {
                    if from.file() < to.file() {
                        Some(Move::Castle { king: from, rook: Square::new((7 + 8 * home) as u8) })
                    } else {
                        Some(Move::Castle { king: from, rook: Square::new((8 * home) as u8) })
                    }
                } else if role == Role::Pawn && from.file() != to.file() && !board.occupied().contains(
                    to,
                ) {
                    Some(Move::EnPassant { from, to })
                } else {
                    Some(Move::Normal { role, from, capture: board.role_at(to), to, promotion })
                }
            },
            Uci::Put { role, to } => Some(Move::Put { role, to }),
            Uci::Null => None,
        }
    }

    /// The legal move that this stands for in the position `pos`.
    pub fn to_move<P: Position>(&self, pos: &P) -> (r: Result<Move, IllegalUciError>)
        requires
            pos.valid(),
            self.wf(),
        ensures
            r == match candidate_move(pos.situation(), *self) {
                Some(m) => if pos.legal(m) {
                    Ok::<Move, IllegalUciError>(m)
                } else {
                    Err::<Move, IllegalUciError>(IllegalUciError)
                },
                None => Err::<Move, IllegalUciError>(IllegalUciError),
            },
    {
        match self.candidate(pos.board(), pos.turn(), pos.castling_rights()) {
            Some(m) => if pos.is_legal(&m) {
                Ok(m)
            } else {
                Err(IllegalUciError)
            },
            None => Err(IllegalUciError),
        }
    }

    /// Appends the move in coordinate notation to `out`.
    pub fn write(&self, out: &mut Vec<u8>)
        requires
            self.wf(),
        ensures
            final(out)@ == old(out)@ + uci_text(*self),
    {
        match *self {
            Uci::Normal { from, to, promotion } => {
                from.write(out);
                to.write(out);
                match promotion {
                    Some(role) => {
                        out.push(role.char() as u8);
                    },
                    None => {},
                }
            },
            Uci::Put { role, to } => {
                out.push(role.upper_char() as u8);
                out.push(64);
                to.write(out);
            },
            Uci::Null => {
                out.push(48);
                out.push(48);
                out.push(48);
                out.push(48);
            },
        }
        assert(out@ =~= old(out)@ + uci_text(*self));
    }

    /// The move in coordinate notation.
    pub fn to_string(&self) -> (s: String)
        requires
            self.wf(),
        ensures
            s@ == crate::text::chars_of(uci_text(*self)),
    {
        let mut out: Vec<u8> = Vec::new();
        self.write(&mut out);
        assert(out@ =~= uci_text(*self));
        string_of(&out)
    }
}

impl std::str::FromStr for Uci {
    type Err = ParseUciError;

    /// Reads a move in coordinate notation, as [`Uci::from_text`] does.
    fn from_str(uci: &str) -> (r: Result<Uci, ParseUciError>)
        ensures
            r == match parse_uci_spec(uci.spec_bytes()) {
                Some(u) => Ok::<Uci, ParseUciError>(u),
                None => Err::<Uci, ParseUciError>(ParseUciError),
            },
            r is Ok ==> r.unwrap().wf(),
    {
        Uci::from_ascii(uci.as_bytes())
    }
}

impl Move {
    /// The move in coordinate notation, in the given way of writing castling.
    pub fn to_uci(&self, mode: CastlingMode) -> (u: Uci)
        requires
            self.wf(),
        ensures
            u == match mode {
                CastlingMode::Standard => standard_spec(*self),
                CastlingMode::Chess960 => chess960_spec(*self),
            },
            u.wf(),
    {
        Uci::from_move(self, mode)
    }
}

/// Writing a move in coordinate notation and reading the text back gives the move, unless
/// it promotes to a pawn, for which the notation has no letter.
pub proof fn lemma_uci_text_round_trip(uci: Uci)
    requires
        uci.wf(),
        uci matches Uci::Normal { promotion: Some(role), .. } ==> role != Role::Pawn,
    ensures
        parse_uci_spec(uci_text(uci)) == Some(uci),
{
    let t = uci_text(uci);
    match uci {
        Uci::Normal { from, to, promotion } => {
            assert(t.subrange(0, 2) =~= square_text(from.idx()));
            assert(t.subrange(2, 4) =~= square_text(to.idx()));
            crate::square::lemma_square_text_round_trip(from);
            crate::square::lemma_square_text_round_trip(to);
            assert(t[0] != 48);
        },
        Uci::Put { role, to } => {
            assert(t.subrange(2, 4) =~= square_text(to.idx()));
            crate::square::lemma_square_text_round_trip(to);
            assert(t[1] == 64);
        },
        Uci::Null => {},
    }
}

/// Writing a legal move in coordinate notation, with castling as the king going onto the
/// rook, and reading it back in the same position gives the move.
///
/// One kind of move is left out, because its notation reads as castling: a king that
/// takes a piece on a square that has a castling right.
pub proof fn lemma_chess960_round_trip(pos: Standard, m: Move)
    requires
        pos.valid(),
        pos.legal_spec(m),
        !(m matches Move::Normal { role: Role::King, to, .. } && pos.castling_rights.has(to.idx())),
    ensures
        candidate_move(pos, chess960_spec(m)) == Some(m),
{
    broadcast use crate::bitboard::group_bitboard;

    pos.lemma_candidate_rule(m);
    match m {
        Move::Normal { role, from, capture, to, promotion } => {
            pos.lemma_normal_rule(m);
            pos.board.lemma_occupied(from.idx());
            pos.board.lemma_occupied(to.idx());
            let all = Bitboard::all_spec();
            assert(pos.pseudo_spec(all, all, m));
            if role == Role::King {
                pos.lemma_king_move_from(m);
                assert(crate::attacks::king_step(from.idx(), to.idx()));
                assert(distance_spec(from.idx(), to.idx()) == 1);
            } else if role == Role::Pawn {
                assert(file_of(from.idx()) != file_of(to.idx()) ==> pos.occ_spec().has(to.idx()));
            }
        },
        Move::EnPassant { from, to } => {
            pos.lemma_en_passant_rule(m);
            pos.board.lemma_occupied(from.idx());
            pos.board.lemma_occupied(to.idx());
        },
        Move::Castle { king, rook } => {
            pos.lemma_castle_rule(m);
            pos.board.lemma_occupied(king.idx());
        },
        _ => {},
    }
}

} // verus!
