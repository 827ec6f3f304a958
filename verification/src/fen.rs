//! Positions as text.
//!
//! A position text has up to six fields, divided by single spaces: the piece placement,
//! the side to move, the castling rights, the en-passant square, the half-move clock and
//! the number of the move. Crazyhouse adds the pockets in square brackets behind the
//! placement, Three-Check the remaining checks as a field of their own behind the
//! en-passant square.

use vstd::prelude::*;
use vstd::slice::slice_subrange;
use crate::bitboard::Bitboard;
use crate::board::Board;
use crate::placement::{
    board_text, letter_piece, parse_board_spec, piece_letter, read_board, write_board,
};
use crate::position::{Pocket, Pockets, RemainingChecks, Standard, back_rank};
use crate::square::{Square, at, file_of, parse_square_spec, square_text};
use crate::text::{decimal, parse_u32, parse_u32_spec, write_u32};
use crate::types::{Color, Piece, Role};

verus! {

/// Why a text is no position text.
#[derive(Clone, Copy, Debug, PartialEq, Eq, Hash, Structural)]
pub enum FenError {
    /// The piece placement is malformed.
    ParseBoard,
    /// A field other than the placement, the pockets and the remaining checks is
    /// malformed, or the en-passant square does not fit the placement.
    ParsePosition,
    /// The pockets are malformed.
    ParsePocket,
    /// The remaining checks are malformed.
    ParseRemainingChecks,
}

/// What a position text holds.
#[derive(Clone, Copy, Debug, PartialEq, Eq, Hash, Structural)]
pub struct Fen {
    pub position: Standard,
    pub pockets: Option<Pockets>,
    pub remaining_checks: Option<RemainingChecks>,
}

/// The index of the first byte `b` in `t`; the length of `t` if there is none.
pub open spec fn first_index(t: Seq<u8>, b: u8) -> int
    decreases t.len(),
{
    if t.len() == 0 {
        0
    } else if t[0] == b {
        0
    } else {
        1 + first_index(t.drop_first(), b)
    }
}

/// The first field of `t`: what stands before the first space.
pub open spec fn head_field(t: Seq<u8>) -> Seq<u8> {
    t.subrange(0, first_index(t, 32))
}

/// What stands behind the first space of `t`, if there is a space.
pub open spec fn tail_fields(t: Seq<u8>) -> Option<Seq<u8>> {
    if first_index(t, 32) < t.len() {
        Some(t.subrange(first_index(t, 32) + 1, t.len() as int))
    } else {
        None
    }
}

/// The first index of a byte lies within the text or at its end, no byte before it is that
/// byte, and the byte at it is.
pub proof fn lemma_first_index(t: Seq<u8>, b: u8)
    ensures
        0 <= first_index(t, b) <= t.len(),
        forall|i: int| 0 <= i < first_index(t, b) ==> t[i] != b,
        first_index(t, b) < t.len() ==> t[first_index(t, b)] == b,
    decreases t.len(),
{
    if t.len() > 0 && t[0] != b {
        let rest = t.drop_first();
        lemma_first_index(rest, b);
        assert forall|i: int| 0 <= i < first_index(t, b) implies t[i] != b by {
            if i > 0 {
                assert(t[i] == rest[i - 1]);
            }
        }
    }
}

/// An index with that byte at it, or the end of the text, and without that byte before it
/// is the first index of the byte.
pub proof fn lemma_first_index_is(t: Seq<u8>, b: u8, n: int)
    requires
        0 <= n <= t.len(),
        forall|i: int| 0 <= i < n ==> t[i] != b,
        n < t.len() ==> t[n] == b,
    ensures
        first_index(t, b) == n,
    decreases t.len(),
{
    if t.len() > 0 && t[0] != b {
        let rest = t.drop_first();
        assert forall|i: int| 0 <= i < n - 1 implies rest[i] != b by {
            assert(rest[i] == t[i + 1]);
        }
        lemma_first_index_is(rest, b, n - 1);
    }
}

/// The index of the first byte `b` in `t`; the length of `t` if there is none.
pub fn find_byte(t: &[u8], b: u8) -> (n: usize)
    ensures
        n == first_index(t@, b),
        n <= t.len(),
{
    let mut i: usize = 0;
    while i < t.len() && t[i] != b
        invariant
            0 <= i <= t.len(),
            forall|j: int| 0 <= j < i ==> t@[j] != b,
        decreases t.len() - i,
    {
        i = i + 1;
    }
    proof {
        lemma_first_index_is(t@, b, i as int);
    }
    i
}

/// The view of a text that may be missing.
pub open spec fn text_of(rest: Option<&[u8]>) -> Option<Seq<u8>> {
    match rest {
        Some(t) => Some(t@),
        None => None,
    }
}

/// Divides `t` at its first space.
pub fn split_field(t: &[u8]) -> (r: (&[u8], Option<&[u8]>))
    ensures
        r.0@ == head_field(t@),
        text_of(r.1) == tail_fields(t@),
{
    let n = find_byte(t, 32);
    let head = slice_subrange(t, 0, n);
    if n < t.len() {
        (head, Some(slice_subrange(t, n + 1, t.len())))
    } else {
        (head, None)
    }
}

/// `b` written `n` times.
pub open spec fn repeat(b: u8, n: nat) -> Seq<u8> {
    Seq::new(n, |i: int| b)
}

/// The pieces of one pocket as text: the letter of each role as often as the pocket holds
/// it, pawns first.
pub open spec fn pocket_text(p: Pocket, color: Color) -> Seq<u8> {
    repeat(piece_letter(Piece { color, role: Role::Pawn }), p.pawns as nat) + repeat(
        piece_letter(Piece { color, role: Role::Knight }),
        p.knights as nat,
    ) + repeat(piece_letter(Piece { color, role: Role::Bishop }), p.bishops as nat) + repeat(
        piece_letter(Piece { color, role: Role::Rook }),
        p.rooks as nat,
    ) + repeat(piece_letter(Piece { color, role: Role::Queen }), p.queens as nat) + repeat(
        piece_letter(Piece { color, role: Role::King }),
        p.kings as nat,
    )
}

/// The pockets as text: White's, then Black's.
pub open spec fn pockets_text(p: Pockets) -> Seq<u8> {
    pocket_text(p.white, Color::White) + pocket_text(p.black, Color::Black)
}

/// The pockets that hold nothing.
pub open spec fn empty_pockets() -> Pockets {
    let e = Pocket { pawns: 0, knights: 0, bishops: 0, rooks: 0, queens: 0, kings: 0 };
    Pockets { white: e, black: e }
}

/// What reading the text `t` of pockets adds to `acc`: one piece for each letter. A letter
/// that names no piece or names a king, and a 256th piece of a kind, make it nothing.
pub open spec fn parse_pockets_from(t: Seq<u8>, acc: Pockets) -> Option<Pockets>
    decreases t.len(),
{
    if t.len() == 0 {
        Some(acc)
    } else {
        match letter_piece(t[0]) {
            Some(p) => if p.role != Role::King && acc.by_piece_spec(p) < 255 {
                parse_pockets_from(
                    t.drop_first(),
                    acc.with_count(p, (acc.by_piece_spec(p) + 1) as u8),
                )
            } else {
                None
            },
            None => None,
        }
    }
}

/// The pockets that a text describes.
pub open spec fn parse_pockets_spec(t: Seq<u8>) -> Option<Pockets> {
    parse_pockets_from(t, empty_pockets())
}

/// The rooks of `color` on its back rank.
pub open spec fn castling_candidates(board: Board, color: Color) -> Bitboard {
    board.by_piece_spec(Piece { color, role: Role::Rook }).intersect_spec(
        Bitboard::relative_rank_spec(color, 0),
    )
}

/// The square of the rook that a letter of the castling field names: `K` and `Q` the
/// rook of White nearest the h-file and the a-file, a letter from `A` to `H` the rook of
/// White on that file, and the lower-case letters the rooks of Black.
pub open spec fn castling_square_spec(c: u8, board: Board) -> Option<Square> {
    let upper = 65 <= c <= 90;
    let color = if upper {
        Color::White
    } else {
        Color::Black
    };
    let lower = if upper {
        (c + 32) as u8
    } else {
        c
    };
    let candidates = castling_candidates(board, color);
    if lower == 107 {
        candidates.last_spec()
    } else if lower == 113 {
        candidates.first_spec()
    } else if 97 <= lower <= 104 {
        candidates.intersect_spec(Bitboard::file_spec(lower - 97)).first_spec()
    } else {
        None
    }
}

/// What reading the castling field `t` adds to `rights`: the square of a rook for each
/// letter; `-` adds nothing.
pub open spec fn parse_castling_from(t: Seq<u8>, board: Board, rights: Bitboard) -> Option<
    Bitboard,
>
    decreases t.len(),
{
    if t.len() == 0 {
        Some(rights)
    } else if t[0] == 45 {
        parse_castling_from(t.drop_first(), board, rights)
    } else {
        match castling_square_spec(t[0], board) {
            Some(sq) => parse_castling_from(t.drop_first(), board, rights.with_spec(sq.idx())),
            None => None,
        }
    }
}

/// The letter of the castling right of the rook of `color` on `s`: `K` or `Q` (`k` or `q`
/// for Black) if it is the rook nearest the edge on its side of the king, the letter of
/// its file otherwise.
pub open spec fn castling_letter(board: Board, color: Color, s: int) -> u8 {
    let candidates = castling_candidates(board, color);
    let king = board.by_piece_spec(Piece { color, role: Role::King }).first_spec();
    let base: u8 = if color == Color::White {
        65
    } else {
        97
    };
    if candidates.first_spec() == Some(Square(s as u8)) && king is Some && s < king.unwrap().idx() {
        (base + 16) as u8
    } else if candidates.last_spec() == Some(Square(s as u8)) && king is Some
        && king.unwrap().idx() < s {
        (base + 10) as u8
    } else {
        (base + file_of(s)) as u8
    }
}

/// The letters of the castling rights of `color` from file `f` down to the a-file.
pub open spec fn castling_letters(pos: Standard, color: Color, f: int) -> Seq<u8>
    decreases f + 1,
{
    if f < 0 {
        Seq::<u8>::empty()
    } else {
        let s = at(f, back_rank(color));
        (if castling_candidates(pos.board, color).has(s) && pos.castling_rights.has(s) {
            seq![castling_letter(pos.board, color, s)]
        } else {
            Seq::<u8>::empty()
        }) + castling_letters(pos, color, f - 1)
    }
}

/// The castling field: the letters of White's rights, then of Black's; `-` for none.
pub open spec fn castling_text(pos: Standard) -> Seq<u8> {
    let t = castling_letters(pos, Color::White, 7) + castling_letters(pos, Color::Black, 7);
    if t.len() == 0 {
        seq![45u8]
    } else {
        t
    }
}

/// The en-passant field: the name of the square, or `-`.
pub open spec fn ep_text(ep: Option<Square>) -> Seq<u8> {
    match ep {
        Some(sq) => square_text(sq.idx()),
        None => seq![45u8],
    }
}

/// The square that an en-passant field names: none for `-`.
pub open spec fn parse_ep_spec(t: Seq<u8>) -> Option<Option<Square>> {
    if t =~= seq![45u8] {
        Some(None)
    } else {
        match parse_square_spec(t) {
            Some(sq) => Some(Some(sq)),
            None => None,
        }
    }
}

/// The field of the remaining checks: White's, `+`, Black's.
pub open spec fn checks_text(c: RemainingChecks) -> Seq<u8> {
    decimal(c.white as nat) + seq![43u8] + decimal(c.black as nat)
}

/// Whether a field has the form of the remaining checks: three bytes with `+` in the
/// middle.
pub open spec fn is_checks_field(t: Seq<u8>) -> bool {
    t.len() == 3 && t[1] == 43
}

/// The remaining checks that a field of that form names: two digits from 0 to 3.
pub open spec fn parse_checks_spec(t: Seq<u8>) -> Option<RemainingChecks> {
    if is_checks_field(t) && 48 <= t[0] <= 51 && 48 <= t[2] <= 51 {
        Some(RemainingChecks { white: (t[0] - 48) as u8, black: (t[2] - 48) as u8 })
    } else {
        None
    }
}

/// The letter of the side to move.
pub open spec fn turn_letter(turn: Color) -> u8 {
    match turn {
        Color::White => 119,
        Color::Black => 98,
    }
}

/// The first field: the placement, with the pockets in square brackets behind it if there
/// are pockets.
pub open spec fn placement_field_text(board: Board, pockets: Option<Pockets>) -> Seq<u8> {
    match pockets {
        Some(p) => board_text(board, true) + seq![91u8] + pockets_text(p) + seq![93u8],
        None => board_text(board, false),
    }
}

/// The field of the side to move.
pub open spec fn turn_text(turn: Color) -> Seq<u8> {
    seq![turn_letter(turn)]
}

/// The half-move clock and the number of the move, divided by a space.
pub open spec fn counters_text(halfmoves: u32, fullmoves: u32) -> Seq<u8> {
    decimal(halfmoves as nat) + seq![32u8] + decimal(fullmoves as nat)
}

/// The remaining checks and a space, if there are remaining checks.
pub open spec fn checks_part(checks: Option<RemainingChecks>) -> Seq<u8> {
    match checks {
        Some(c) => checks_text(c) + seq![32u8],
        None => Seq::<u8>::empty(),
    }
}

/// The fields behind the en-passant square.
pub open spec fn fields_behind_ep(pos: Standard, checks: Option<RemainingChecks>) -> Seq<u8> {
    checks_part(checks) + counters_text(pos.halfmove_clock, pos.fullmoves)
}

/// The fields from the en-passant square on.
pub open spec fn fields_from_ep(pos: Standard, checks: Option<RemainingChecks>) -> Seq<u8> {
    ep_text(pos.ep_square) + seq![32u8] + fields_behind_ep(pos, checks)
}

/// The fields from the castling rights on.
pub open spec fn fields_from_castling(pos: Standard, checks: Option<RemainingChecks>) -> Seq<u8> {
    castling_text(pos) + seq![32u8] + fields_from_ep(pos, checks)
}

/// The fields from the side to move on.
pub open spec fn fields_from_turn(pos: Standard, checks: Option<RemainingChecks>) -> Seq<u8> {
    turn_text(pos.turn) + seq![32u8] + fields_from_castling(pos, checks)
}

/// A position as text: the placement with the pockets, the side to move, the castling
/// rights, the en-passant square, the remaining checks if there are any, the half-move
/// clock and the number of the move, divided by single spaces.
pub open spec fn fen_text(
    pos: Standard,
    pockets: Option<Pockets>,
    checks: Option<RemainingChecks>,
) -> Seq<u8> {
    placement_field_text(pos.board, pockets) + seq![32u8] + fields_from_turn(pos, checks)
}

/// Reading the number of the move, the last field.
#[verifier::opaque]
pub open spec fn parse_fullmoves(rest: Option<Seq<u8>>, fen: Fen) -> Result<Fen, FenError> {
    match rest {
        None => Ok(fen),
        Some(t) => match parse_u32_spec(head_field(t)) {
            Some(n) => Ok(
                Fen {
                    position: Standard {
                        fullmoves: if n < 1 {
                            1
                        } else {
                            n
                        },
                        ..fen.position
                    },
                    ..fen
                },
            ),
            None => Err(FenError::ParsePosition),
        },
    }
}

/// Reading the half-move clock and what follows.
#[verifier::opaque]
pub open spec fn parse_halfmoves(rest: Option<Seq<u8>>, fen: Fen) -> Result<Fen, FenError> {
    match rest {
        None => Ok(fen),
        Some(t) => match parse_u32_spec(head_field(t)) {
            Some(n) => parse_fullmoves(
                tail_fields(t),
                Fen { position: Standard { halfmove_clock: n, ..fen.position }, ..fen },
            ),
            None => Err(FenError::ParsePosition),
        },
    }
}

/// Reading the remaining checks, if the field has their form, and what follows.
#[verifier::opaque]
pub open spec fn parse_checks_on(rest: Option<Seq<u8>>, fen: Fen) -> Result<Fen, FenError> {
    match rest {
        None => Ok(fen),
        Some(t) => if is_checks_field(head_field(t)) {
            match parse_checks_spec(head_field(t)) {
                Some(c) => parse_halfmoves(tail_fields(t), Fen { remaining_checks: Some(c), ..fen }),
                None => Err(FenError::ParseRemainingChecks),
            }
        } else {
            parse_halfmoves(rest, fen)
        },
    }
}

/// Reading the en-passant square and what follows.
#[verifier::opaque]
pub open spec fn parse_ep_on(rest: Option<Seq<u8>>, fen: Fen) -> Result<Fen, FenError> {
    match rest {
        None => Ok(fen),
        Some(t) => match parse_ep_spec(head_field(t)) {
            Some(e) => parse_checks_on(
                tail_fields(t),
                Fen { position: Standard { ep_square: e, ..fen.position }, ..fen },
            ),
            None => Err(FenError::ParsePosition),
        },
    }
}

/// Reading the castling rights and what follows.
#[verifier::opaque]
pub open spec fn parse_castling_on(rest: Option<Seq<u8>>, fen: Fen) -> Result<Fen, FenError> {
    match rest {
        None => Ok(fen),
        Some(t) => match parse_castling_from(
            head_field(t),
            fen.position.board,
            Bitboard::empty_spec(),
        ) {
            Some(rights) => parse_ep_on(
                tail_fields(t),
                Fen { position: Standard { castling_rights: rights, ..fen.position }, ..fen },
            ),
            None => Err(FenError::ParsePosition),
        },
    }
}

/// Reading the side to move and what follows.
#[verifier::opaque]
pub open spec fn parse_turn_on(rest: Option<Seq<u8>>, fen: Fen) -> Result<Fen, FenError> {
    match rest {
        None => Ok(fen),
        Some(t) => if head_field(t) =~= seq![119u8] {
            parse_castling_on(
                tail_fields(t),
                Fen { position: Standard { turn: Color::White, ..fen.position }, ..fen },
            )
        } else if head_field(t) =~= seq![98u8] {
            parse_castling_on(
                tail_fields(t),
                Fen { position: Standard { turn: Color::Black, ..fen.position }, ..fen },
            )
        } else {
            Err(FenError::ParsePosition)
        },
    }
}

/// The position without pieces, White to move, move 1.
pub open spec fn empty_position() -> Standard {
    Standard {
        board: Board::empty_spec(),
        turn: Color::White,
        castling_rights: Bitboard::empty_spec(),
        ep_square: None,
        halfmove_clock: 0,
        fullmoves: 1,
    }
}

/// Reading the first field: the placement and, in square brackets behind it, the pockets.
pub open spec fn parse_placement_field(t: Seq<u8>) -> Result<Fen, FenError> {
    let open = first_index(t, 91);
    let placement = t.subrange(0, open);
    match parse_board_spec(placement) {
        None => Err(FenError::ParseBoard),
        Some(board) => {
            let position = Standard { board, ..empty_position() };
            if open == t.len() {
                Ok(Fen { position, pockets: None, remaining_checks: None })
            } else if t.last() != 93 {
                Err(FenError::ParsePocket)
            } else {
                match parse_pockets_spec(t.subrange(open + 1, t.len() - 1)) {
                    Some(p) => Ok(Fen { position, pockets: Some(p), remaining_checks: None }),
                    None => Err(FenError::ParsePocket),
                }
            }
        },
    }
}

/// What a position text holds, or why it is none.
///
/// Fields may be missing at the end: the side to move is then White, there are no
/// castling rights and no en-passant square, the clock is 0 and the move is 1. What
/// follows the number of the move is not read. A move number 0 is read as 1. An
/// en-passant square must be empty, on the sixth rank of the side to move, and lie behind
/// a pawn of the other side.
pub open spec fn parse_fen_spec(t: Seq<u8>) -> Result<Fen, FenError> {
    match parse_placement_field(head_field(t)) {
        Err(e) => Err(e),
        Ok(fen) => match parse_turn_on(tail_fields(t), fen) {
            Err(e) => Err(e),
            Ok(fen) => if fen.position.ep_ok() {
                Ok(fen)
            } else {
                Err(FenError::ParsePosition)
            },
        },
    }
}

fn read_fullmoves(rest: Option<&[u8]>, fen: Fen) -> (r: Result<Fen, FenError>)
    ensures
        r == parse_fullmoves(text_of(rest), fen),
{
    proof {
        reveal(parse_fullmoves);
    }
    match rest {
        None => Ok(fen),
        Some(t) => {
            let (head, _) = split_field(t);
            match parse_u32(head) {
                Some(n) => {
                    let mut fen = fen;
                    fen.position.fullmoves = if n < 1 {
                        1
                    } else {
                        n
                    };
                    Ok(fen)
                },
                None => Err(FenError::ParsePosition),
            }
        },
    }
}

fn read_halfmoves(rest: Option<&[u8]>, fen: Fen) -> (r: Result<Fen, FenError>)
    ensures
        r == parse_halfmoves(text_of(rest), fen),
{
    proof {
        reveal(parse_halfmoves);
    }
    match rest {
        None => Ok(fen),
        Some(t) => {
            let (head, tail) = split_field(t);
            match parse_u32(head) {
                Some(n) => {
                    let mut fen = fen;
                    fen.position.halfmove_clock = n;
                    read_fullmoves(tail, fen)
                },
                None => Err(FenError::ParsePosition),
            }
        },
    }
}

fn read_checks(rest: Option<&[u8]>, fen: Fen) -> (r: Result<Fen, FenError>)
    ensures
        r == parse_checks_on(text_of(rest), fen),
{
    proof {
        reveal(parse_checks_on);
    }
    match rest {
        None => Ok(fen),
        Some(t) => {
            let (head, tail) = split_field(t);
            if head.len() == 3 && head[1] == 43 {
                let w = head[0];
                let b = head[2];
                if 48 <= w && w <= 51 && 48 <= b && b <= 51 {
                    let mut fen = fen;
                    fen.remaining_checks = Some(RemainingChecks { white: w - 48, black: b - 48 });
                    read_halfmoves(tail, fen)
                } else {
                    Err(FenError::ParseRemainingChecks)
                }
            } else {
                read_halfmoves(rest, fen)
            }
        },
    }
}

fn read_ep(rest: Option<&[u8]>, fen: Fen) -> (r: Result<Fen, FenError>)
    ensures
        r == parse_ep_on(text_of(rest), fen),
{
    proof {
        reveal(parse_ep_on);
    }
    match rest {
        None => Ok(fen),
        Some(t) => {
            let (head, tail) = split_field(t);
            let mut fen = fen;
            if head.len() == 1 && head[0] == 45 {
                assert(head@ =~= seq![45u8]);
                fen.position.ep_square = None;
                read_checks(tail, fen)
            } else {
                assert(!(head@ =~= seq![45u8])) by {
                    if head@ =~= seq![45u8] {
                        assert(head@[0] == seq![45u8][0]);
                    }
                }
                match Square::from_ascii(head) {
                    Some(sq) => {
                        fen.position.ep_square = Some(sq);
                        read_checks(tail, fen)
                    },
                    None => Err(FenError::ParsePosition),
                }
            }
        },
    }
}

/// The square of the rook that a letter of the castling field names.
fn castling_square(c: u8, board: &Board) -> (r: Option<Square>)
    ensures
        r == castling_square_spec(c, *board),
        r is Some ==> r.unwrap().wf(),
{
    let upper = 65 <= c && c <= 90;
    let color = if upper {
        Color::White
    } else {
        Color::Black
    };
    let lower: u8 = if upper {
        c + 32
    } else {
        c
    };
    let candidates = board.by_piece(Piece { color, role: Role::Rook }).intersect(
        Bitboard::relative_rank(color, 0),
    );
    if lower == 107 {
        candidates.last()
    } else if lower == 113 {
        candidates.first()
    } else if 97 <= lower && lower <= 104 {
        candidates.intersect(Bitboard::file((lower - 97) as i8)).first()
    } else {
        None
    }
}

fn read_castling(rest: Option<&[u8]>, fen: Fen) -> (r: Result<Fen, FenError>)
    ensures
        r == parse_castling_on(text_of(rest), fen),
{
    proof {
        reveal(parse_castling_on);
    }
    match rest {
        None => Ok(fen),
        Some(t) => {
            let (head, tail) = split_field(t);
            let mut rights = Bitboard::empty();
            let mut i: usize = 0;
            assert(head@.subrange(0, head@.len() as int) =~= head@);
            while i < head.len()
                invariant
                    0 <= i <= head.len(),
                    rest == Some(t),
                    head@ == head_field(t@),
                    parse_castling_from(
                        head@.subrange(i as int, head@.len() as int),
                        fen.position.board,
                        rights,
                    ) == parse_castling_from(head@, fen.position.board, Bitboard::empty_spec()),
                decreases head.len() - i,
            {
                let c = head[i];
                proof {
                    let rest_before = head@.subrange(i as int, head@.len() as int);
                    assert(rest_before[0] == c);
                    assert(rest_before.drop_first() =~= head@.subrange(i + 1, head@.len() as int));
                }
                if c != 45 {
                    match castling_square(c, &fen.position.board) {
                        Some(sq) => {
                            rights = rights.with(sq);
                        },
                        None => {
                            proof {
                                reveal(parse_castling_on);
                            }
                            return Err(FenError::ParsePosition);
                        },
                    }
                }
                i = i + 1;
            }
            assert(head@.subrange(i as int, head@.len() as int) =~= Seq::<u8>::empty());
            let mut fen = fen;
            fen.position.castling_rights = rights;
            read_ep(tail, fen)
        },
    }
}

fn read_turn(rest: Option<&[u8]>, fen: Fen) -> (r: Result<Fen, FenError>)
    ensures
        r == parse_turn_on(text_of(rest), fen),
{
    proof {
        reveal(parse_turn_on);
    }
    match rest {
        None => Ok(fen),
        Some(t) => {
            let (head, tail) = split_field(t);
            let mut fen = fen;
            if head.len() == 1 && head[0] == 119 {
                assert(head@ =~= seq![119u8]);
                fen.position.turn = Color::White;
                read_castling(tail, fen)
            } else if head.len() == 1 && head[0] == 98 {
                assert(head@ =~= seq![98u8]);
                assert(!(head@ =~= seq![119u8])) by {
                    if head@ =~= seq![119u8] {
                        assert(head@[0] == seq![119u8][0]);
                    }
                }
                fen.position.turn = Color::Black;
                read_castling(tail, fen)
            } else {
                assert(!(head@ =~= seq![119u8]) && !(head@ =~= seq![98u8])) by {
                    if head@ =~= seq![119u8] {
                        assert(head@[0] == seq![119u8][0]);
                    }
                    if head@ =~= seq![98u8] {
                        assert(head@[0] == seq![98u8][0]);
                    }
                }
                Err(FenError::ParsePosition)
            }
        },
    }
}

/// Reads pockets from their text.
pub fn read_pockets(t: &[u8]) -> (r: Option<Pockets>)
    ensures
        r == parse_pockets_spec(t@),
{
    let mut acc = Pockets::empty();
    assert(acc == empty_pockets()) by {
        assert(acc.by_piece_spec(Piece { color: Color::White, role: Role::Pawn }) == 0);
        assert(acc.by_piece_spec(Piece { color: Color::White, role: Role::Knight }) == 0);
        assert(acc.by_piece_spec(Piece { color: Color::White, role: Role::Bishop }) == 0);
        assert(acc.by_piece_spec(Piece { color: Color::White, role: Role::Rook }) == 0);
        assert(acc.by_piece_spec(Piece { color: Color::White, role: Role::Queen }) == 0);
        assert(acc.by_piece_spec(Piece { color: Color::White, role: Role::King }) == 0);
        assert(acc.by_piece_spec(Piece { color: Color::Black, role: Role::Pawn }) == 0);
        assert(acc.by_piece_spec(Piece { color: Color::Black, role: Role::Knight }) == 0);
        assert(acc.by_piece_spec(Piece { color: Color::Black, role: Role::Bishop }) == 0);
        assert(acc.by_piece_spec(Piece { color: Color::Black, role: Role::Rook }) == 0);
        assert(acc.by_piece_spec(Piece { color: Color::Black, role: Role::Queen }) == 0);
        assert(acc.by_piece_spec(Piece { color: Color::Black, role: Role::King }) == 0);
    }
    let mut i: usize = 0;
    assert(t@.subrange(0, t@.len() as int) =~= t@);
    while i < t.len()
        invariant
            0 <= i <= t.len(),
            parse_pockets_from(t@.subrange(i as int, t@.len() as int), acc) == parse_pockets_spec(
                t@,
            ),
        decreases t.len() - i,
    {
        let c = t[i];
        proof {
            let rest_before = t@.subrange(i as int, t@.len() as int);
            assert(rest_before[0] == c);
            assert(rest_before.drop_first() =~= t@.subrange(i + 1, t@.len() as int));
        }
        match Piece::from_char(c as char) {
            Some(p) => {
                let n = acc.by_piece(p);
                if p.role != Role::King && n < 255 {
                    acc.set(p, n + 1);
                } else {
                    return None;
                }
            },
            None => {
                return None;
            },
        }
        i = i + 1;
    }
    assert(t@.subrange(i as int, t@.len() as int) =~= Seq::<u8>::empty());
    Some(acc)
}

fn read_placement_field(t: &[u8]) -> (r: Result<Fen, FenError>)
    ensures
        r == parse_placement_field(t@),
        r is Ok ==> r.unwrap().position.board.wf(),
{
    let open = find_byte(t, 91);
    let board = match read_board(slice_subrange(t, 0, open)) {
        Some(board) => board,
        None => {
            return Err(FenError::ParseBoard);
        },
    };
    let position = Standard {
        board,
        turn: Color::White,
        castling_rights: Bitboard::empty(),
        ep_square: None,
        halfmove_clock: 0,
        fullmoves: 1,
    };
    if open == t.len() {
        Ok(Fen { position, pockets: None, remaining_checks: None })
    } else if t[t.len() - 1] != 93 {
        Err(FenError::ParsePocket)
    } else {
        proof {
            lemma_first_index(t@, 91);
        }
        match read_pockets(slice_subrange(t, open + 1, t.len() - 1)) {
            Some(p) => Ok(Fen { position, pockets: Some(p), remaining_checks: None }),
            None => Err(FenError::ParsePocket),
        }
    }
}

impl Standard {
    /// Whether the en-passant square, if there is one, fits the placement.
    pub fn has_fitting_ep(&self) -> (r: bool)
        requires
            self.ep_square is Some ==> self.ep_square.unwrap().wf(),
        ensures
            r == self.ep_ok(),
    {
        match self.ep_square {
            None => true,
            Some(e) => {
                let rank: i8 = self.turn.fold(5, 2);
                if e.rank() != rank {
                    return false;
                }
                let behind = match e.offset(self.turn.fold(-8, 8)) {
                    Some(sq) => sq,
                    None => {
                        return false;
                    },
                };
                self.board.piece_at(e).is_none() && self.board.piece_at(behind) == Some(
                    Piece { color: self.turn.other(), role: Role::Pawn },
                )
            },
        }
    }
}

/// Reads a position text.
pub fn parse(t: &[u8]) -> (r: Result<Fen, FenError>)
    ensures
        r == parse_fen_spec(t@),
        r is Ok ==> r.unwrap().position.wf(),
{
    let (head, tail) = split_field(t);
    let fen = match read_placement_field(head) {
        Ok(fen) => fen,
        Err(e) => {
            return Err(e);
        },
    };
    let fen = match read_turn(tail, fen) {
        Ok(fen) => fen,
        Err(e) => {
            return Err(e);
        },
    };
    proof {
        lemma_fields_keep_board(tail_fields(t@), parse_placement_field(head@).unwrap());
    }
    if fen.position.has_fitting_ep() {
        Ok(fen)
    } else {
        Err(FenError::ParsePosition)
    }
}

/// Reading the fields behind the placement leaves the placement as it is, names an
/// en-passant square of the board if it names one, and a move number of 1 or more.
pub proof fn lemma_fields_keep_board(rest: Option<Seq<u8>>, fen: Fen)
    requires
        fen.position.fullmoves >= 1,
        fen.position.ep_square is None,
    ensures
        parse_turn_on(rest, fen) is Ok ==> {
            let res = parse_turn_on(rest, fen).unwrap();
            &&& res.position.board == fen.position.board
            &&& res.position.fullmoves >= 1
            &&& res.position.ep_square is Some ==> res.position.ep_square.unwrap().wf()
            &&& res.pockets == fen.pockets
        },
{
    reveal(parse_turn_on);
    reveal(parse_castling_on);
    reveal(parse_ep_on);
    reveal(parse_checks_on);
    reveal(parse_halfmoves);
    reveal(parse_fullmoves);
}

fn write_repeat(b: u8, n: u8, out: &mut Vec<u8>)
    ensures
        final(out)@ == old(out)@ + repeat(b, n as nat),
{
    let mut i: u8 = 0;
    while i < n
        invariant
            0 <= i <= n,
            out@ == old(out)@ + repeat(b, i as nat),
        decreases n - i,
    {
        out.push(b);
        i = i + 1;
        assert(out@ =~= old(out)@ + repeat(b, i as nat));
    }
}

fn write_pocket(p: &Pocket, color: Color, out: &mut Vec<u8>)
    ensures
        final(out)@ == old(out)@ + pocket_text(*p, color),
{
    write_repeat(Piece { color, role: Role::Pawn }.char() as u8, p.pawns, out);
    write_repeat(Piece { color, role: Role::Knight }.char() as u8, p.knights, out);
    write_repeat(Piece { color, role: Role::Bishop }.char() as u8, p.bishops, out);
    write_repeat(Piece { color, role: Role::Rook }.char() as u8, p.rooks, out);
    write_repeat(Piece { color, role: Role::Queen }.char() as u8, p.queens, out);
    write_repeat(Piece { color, role: Role::King }.char() as u8, p.kings, out);
    assert(out@ =~= old(out)@ + pocket_text(*p, color));
}

/// Appends the pockets as text to `out`.
pub fn write_pockets(p: &Pockets, out: &mut Vec<u8>)
    ensures
        final(out)@ == old(out)@ + pockets_text(*p),
{
    write_pocket(&p.white, Color::White, out);
    write_pocket(&p.black, Color::Black, out);
    assert(out@ =~= old(out)@ + pockets_text(*p));
}

fn castling_letter_of(board: &Board, color: Color, sq: Square) -> (c: u8)
    requires
        sq.wf(),
    ensures
        c == castling_letter(*board, color, sq.idx()),
{
    let candidates = board.by_piece(Piece { color, role: Role::Rook }).intersect(
        Bitboard::relative_rank(color, 0),
    );
    let king = board.king_of(color);
    let base: u8 = color.fold(65, 97);
    let first = match candidates.first() {
        Some(f) => f.index() == sq.index(),
        None => false,
    };
    let last = match candidates.last() {
        Some(l) => l.index() == sq.index(),
        None => false,
    };
    let left = match king {
        Some(k) => sq.index() < k.index(),
        None => false,
    };
    let right = match king {
        Some(k) => k.index() < sq.index(),
        None => false,
    };
    if first && left {
        base + 16
    } else if last && right {
        base + 10
    } else {
        base + sq.file() as u8
    }
}

fn write_castling_side(pos: &Standard, color: Color, out: &mut Vec<u8>)
    ensures
        final(out)@ == old(out)@ + castling_letters(*pos, color, 7),
{
    let candidates = pos.board.by_piece(Piece { color, role: Role::Rook }).intersect(
        Bitboard::relative_rank(color, 0),
    );
    let home: i8 = color.fold(0, 7);
    let mut f: i8 = 7;
    while f >= 0
        invariant
            -1 <= f <= 7,
            home == back_rank(color),
            candidates == castling_candidates(pos.board, color),
            out@ + castling_letters(*pos, color, f as int) == old(out)@ + castling_letters(
                *pos,
                color,
                7,
            ),
        decreases f + 1,
    {
        let sq = Square::new((f + 8 * home) as u8);
        let ghost before = out@;
        if candidates.contains(sq) && pos.castling_rights.contains(sq) {
            out.push(castling_letter_of(&pos.board, color, sq));
        }
        proof {
            let here = if castling_candidates(pos.board, color).has(sq.idx())
                && pos.castling_rights.has(sq.idx()) {
                seq![castling_letter(pos.board, color, sq.idx())]
            } else {
                Seq::<u8>::empty()
            };
            let below = castling_letters(*pos, color, f - 1);
            assert(out@ =~= before + here);
            assert(before + (here + below) =~= (before + here) + below);
        }
        f = f - 1;
    }
    assert(out@ + castling_letters(*pos, color, -1) =~= out@);
}

/// Appends the castling field to `out`.
pub fn write_castling(pos: &Standard, out: &mut Vec<u8>)
    ensures
        final(out)@ == old(out)@ + castling_text(*pos),
{
    let start = out.len();
    write_castling_side(pos, Color::White, out);
    write_castling_side(pos, Color::Black, out);
    let ghost letters = castling_letters(*pos, Color::White, 7) + castling_letters(
        *pos,
        Color::Black,
        7,
    );
    assert(out@ =~= old(out)@ + letters);
    if out.len() == start {
        out.push(45);
        assert(letters.len() == 0);
    }
    assert(out@ =~= old(out)@ + castling_text(*pos));
}

/// The pockets that a reference to pockets stands for.
pub open spec fn pockets_of(pockets: Option<&Pockets>) -> Option<Pockets> {
    match pockets {
        Some(p) => Some(*p),
        None => None,
    }
}

/// The remaining checks that a reference to them stands for.
pub open spec fn checks_of(checks: Option<&RemainingChecks>) -> Option<RemainingChecks> {
    match checks {
        Some(c) => Some(*c),
        None => None,
    }
}

fn write_placement_field(board: &Board, pockets: Option<&Pockets>, out: &mut Vec<u8>)
    ensures
        final(out)@ == old(out)@ + placement_field_text(*board, pockets_of(pockets)),
{
    write_board(board, pockets.is_some(), out);
    match pockets {
        Some(p) => {
            out.push(91);
            write_pockets(p, out);
            out.push(93);
            assert(out@ =~= old(out)@ + (board_text(*board, true) + seq![91u8] + pockets_text(*p)
                + seq![93u8]));
        },
        None => {},
    }
}

fn write_ep(ep: Option<Square>, out: &mut Vec<u8>)
    requires
        ep is Some ==> ep.unwrap().wf(),
    ensures
        final(out)@ == old(out)@ + ep_text(ep),
{
    match ep {
        Some(sq) => {
            sq.write(out);
        },
        None => {
            out.push(45);
            assert(out@ =~= old(out)@ + seq![45u8]);
        },
    }
}

fn write_checks_part(checks: Option<&RemainingChecks>, out: &mut Vec<u8>)
    ensures
        final(out)@ == old(out)@ + checks_part(checks_of(checks)),
{
    match checks {
        Some(c) => {
            write_u32(c.white as u32, out);
            out.push(43);
            write_u32(c.black as u32, out);
            out.push(32);
            assert(out@ =~= old(out)@ + (decimal(c.white as nat) + seq![43u8] + decimal(
                c.black as nat,
            ) + seq![32u8]));
        },
        None => {
            assert(out@ =~= old(out)@ + Seq::<u8>::empty());
        },
    }
}

fn write_counters(halfmoves: u32, fullmoves: u32, out: &mut Vec<u8>)
    ensures
        final(out)@ == old(out)@ + counters_text(halfmoves, fullmoves),
{
    write_u32(halfmoves, out);
    out.push(32);
    write_u32(fullmoves, out);
    assert(out@ =~= old(out)@ + (decimal(halfmoves as nat) + seq![32u8] + decimal(
        fullmoves as nat,
    )));
}

fn write_byte(b: u8, out: &mut Vec<u8>)
    ensures
        final(out)@ == old(out)@ + seq![b],
{
    out.push(b);
    assert(out@ =~= old(out)@ + seq![b]);
}

fn write_turn(turn: Color, out: &mut Vec<u8>)
    ensures
        final(out)@ == old(out)@ + turn_text(turn),
{
    out.push(turn.char() as u8);
    assert(out@ =~= old(out)@ + turn_text(turn));
}

/// Texts appended one after the other are the first with the others appended.
proof fn lemma_appended(
    o: Seq<u8>,
    a: Seq<u8>,
    s: Seq<u8>,
    b: Seq<u8>,
    c: Seq<u8>,
    d: Seq<u8>,
    e: Seq<u8>,
    f: Seq<u8>,
)
    ensures
        o + a + s + b + s + c + s + d + s + e + f == o + (a + s + (b + s + (c + s + (d + s + (e
            + f))))),
{
    assert(o + a + s + b + s + c + s + d + s + e + f =~= o + (a + s + (b + s + (c + s + (d + s
        + (e + f))))));
}

/// Appends a position as text to `out`.
pub fn write_fen(
    pos: &Standard,
    pockets: Option<&Pockets>,
    checks: Option<&RemainingChecks>,
    out: &mut Vec<u8>,
)
    requires
        pos.ep_square is Some ==> pos.ep_square.unwrap().wf(),
    ensures
        final(out)@ == old(out)@ + fen_text(*pos, pockets_of(pockets), checks_of(checks)),
{
    write_placement_field(&pos.board, pockets, out);
    write_byte(32, out);
    write_turn(pos.turn, out);
    write_byte(32, out);
    write_castling(pos, out);
    write_byte(32, out);
    write_ep(pos.ep_square, out);
    write_byte(32, out);
    write_checks_part(checks, out);
    write_counters(pos.halfmove_clock, pos.fullmoves, out);
    proof {
        lemma_appended(
            old(out)@,
            placement_field_text(pos.board, pockets_of(pockets)),
            seq![32u8],
            turn_text(pos.turn),
            castling_text(*pos),
            ep_text(pos.ep_square),
            checks_part(checks_of(checks)),
            counters_text(pos.halfmove_clock, pos.fullmoves),
        );
    }
}

} // verus!
