//! Writing a position and reading the text back gives the position.

use vstd::prelude::*;
use vstd::string::StringSliceAdditionalSpecFns;
use crate::bitboard::{Bitboard, group_bitboard};
use crate::board::Board;
use crate::fen::{
    Fen, FenError, castling_candidates, castling_letter, castling_letters, castling_square_spec,
    castling_text, checks_part, checks_text, counters_text, empty_pockets, empty_position,
    ep_text, fen_text, fields_behind_ep, fields_from_castling, fields_from_ep, fields_from_turn,
    head_field, is_checks_field, lemma_first_index_is, parse_castling_from, parse_castling_on,
    parse_checks_on, parse_checks_spec, parse_ep_on, parse_ep_spec, parse_fen_spec,
    parse_fullmoves, parse_halfmoves, parse_placement_field, parse_pockets_from,
    parse_pockets_spec, parse_turn_on, placement_field_text, pocket_text, pockets_text, repeat,
    tail_fields, turn_letter, turn_text,
};
use crate::placement::{
    board_text, lemma_board_text_round_trip, letter_piece, piece_letter, rank_text, ranks_text,
};
use crate::position::{Pocket, Pockets, RemainingChecks, Standard, back_rank};
use crate::square::{Square, at, file_of, on_board, rank_of, square_text};
use crate::text::{
    chars_of, decimal, is_ascii_text, lemma_decimal_round_trip, lemma_parse_decimal,
    lemma_string_bytes, parse_u32_spec,
};

use crate::types::{Color, Piece, Role};

verus! {

/// Whether the byte `b` does not occur in `t`.
pub open spec fn lacks(t: Seq<u8>, b: u8) -> bool {
    forall|i: int| 0 <= i < t.len() ==> #[trigger] t[i] != b
}

/// A text without spaces, a space and more text divide at that space.
pub proof fn lemma_split_at(a: Seq<u8>, b: Seq<u8>)
    requires
        lacks(a, 32),
    ensures
        head_field(a + seq![32u8] + b) == a,
        tail_fields(a + seq![32u8] + b) == Some(b),
{
    let t = a + seq![32u8] + b;
    lemma_first_index_is(t, 32, a.len() as int);
    assert(t.subrange(0, a.len() as int) =~= a);
    assert(t.subrange(a.len() as int + 1, t.len() as int) =~= b);
}

/// A text without spaces is one field.
pub proof fn lemma_split_end(a: Seq<u8>)
    requires
        lacks(a, 32),
    ensures
        head_field(a) == a,
        tail_fields(a) == None::<Seq<u8>>,
{
    lemma_first_index_is(a, 32, a.len() as int);
    assert(a.subrange(0, a.len() as int) =~= a);
}

proof fn lemma_piece_letter_plain(p: Piece)
    ensures
        piece_letter(p) != 32,
        piece_letter(p) != 91,
        piece_letter(p) != 93,
        piece_letter(p) < 128,
        letter_piece(piece_letter(p)) == Some(p),
{
    crate::types::lemma_piece_char_round_trip(p);
}

/// The text of a rank holds no space and no bracket.
proof fn lemma_rank_text_plain(board: Board, marks: bool, r: int, f: int, run: int)
    requires
        0 <= run <= f <= 8,
    ensures
        lacks(rank_text(board, marks, r, f, run), 32),
        lacks(rank_text(board, marks, r, f, run), 91),
        is_ascii_text(rank_text(board, marks, r, f, run)),
    decreases 8 - f,
{
    if f < 8 {
        match board.piece_at_spec(at(f, r)) {
            None => {
                lemma_rank_text_plain(board, marks, r, f + 1, run + 1);
            },
            Some(p) => {
                lemma_piece_letter_plain(p);
                lemma_rank_text_plain(board, marks, r, f + 1, 0);
            },
        }
    }
}

/// The text of a placement holds no space and no bracket.
proof fn lemma_ranks_text_plain(board: Board, marks: bool, r: int)
    requires
        0 <= r <= 7,
    ensures
        lacks(ranks_text(board, marks, r), 32),
        lacks(ranks_text(board, marks, r), 91),
        is_ascii_text(ranks_text(board, marks, r)),
    decreases r,
{
    lemma_rank_text_plain(board, marks, r, 0, 0);
    if r > 0 {
        lemma_ranks_text_plain(board, marks, r - 1);
    }
}

/// Reading a letter written `n` times adds `n` pieces.
proof fn lemma_read_repeat(piece: Piece, n: nat, rest: Seq<u8>, acc: Pockets)
    requires
        piece.role != Role::King,
        acc.by_piece_spec(piece) + n <= 255,
    ensures
        parse_pockets_from(repeat(piece_letter(piece), n) + rest, acc) == parse_pockets_from(
            rest,
            acc.with_count(piece, (acc.by_piece_spec(piece) + n) as u8),
        ),
    decreases n,
{
    let t = repeat(piece_letter(piece), n) + rest;
    if n == 0 {
        assert(t =~= rest);
        assert(acc.with_count(piece, acc.by_piece_spec(piece)) == acc);
    } else {
        lemma_piece_letter_plain(piece);
        assert(t[0] == piece_letter(piece));
        assert(t.drop_first() =~= repeat(piece_letter(piece), (n - 1) as nat) + rest);
        let next = acc.with_count(piece, (acc.by_piece_spec(piece) + 1) as u8);
        lemma_read_repeat(piece, (n - 1) as nat, rest, next);
        assert(next.with_count(piece, (next.by_piece_spec(piece) + n - 1) as u8) == acc.with_count(
            piece,
            (acc.by_piece_spec(piece) + n) as u8,
        ));
    }
}

/// Reading the text of one pocket fills that pocket.
proof fn lemma_read_pocket(p: Pocket, color: Color, rest: Seq<u8>, acc: Pockets)
    requires
        p.kings == 0,
        acc.by_color_spec(color) == (Pocket {
            pawns: 0,
            knights: 0,
            bishops: 0,
            rooks: 0,
            queens: 0,
            kings: 0,
        }),
    ensures
        parse_pockets_from(pocket_text(p, color) + rest, acc) == parse_pockets_from(
            rest,
            match color {
                Color::White => Pockets { white: p, ..acc },
                Color::Black => Pockets { black: p, ..acc },
            },
        ),
{
    let pawn = Piece { color, role: Role::Pawn };
    let knight = Piece { color, role: Role::Knight };
    let bishop = Piece { color, role: Role::Bishop };
    let rook = Piece { color, role: Role::Rook };
    let queen = Piece { color, role: Role::Queen };
    let king = Piece { color, role: Role::King };
    let t1 = repeat(piece_letter(pawn), p.pawns as nat);
    let t2 = repeat(piece_letter(knight), p.knights as nat);
    let t3 = repeat(piece_letter(bishop), p.bishops as nat);
    let t4 = repeat(piece_letter(rook), p.rooks as nat);
    let t5 = repeat(piece_letter(queen), p.queens as nat);
    let t6 = repeat(piece_letter(king), p.kings as nat);
    assert(t6 =~= Seq::<u8>::empty());
    assert(pocket_text(p, color) + rest =~= t1 + (t2 + (t3 + (t4 + (t5 + rest)))));
    let a1 = acc.with_count(pawn, p.pawns);
    let a2 = a1.with_count(knight, p.knights);
    let a3 = a2.with_count(bishop, p.bishops);
    let a4 = a3.with_count(rook, p.rooks);
    let a5 = a4.with_count(queen, p.queens);
    lemma_read_repeat(pawn, p.pawns as nat, t2 + (t3 + (t4 + (t5 + rest))), acc);
    lemma_read_repeat(knight, p.knights as nat, t3 + (t4 + (t5 + rest)), a1);
    lemma_read_repeat(bishop, p.bishops as nat, t4 + (t5 + rest), a2);
    lemma_read_repeat(rook, p.rooks as nat, t5 + rest, a3);
    lemma_read_repeat(queen, p.queens as nat, rest, a4);
}

/// Writing pockets without kings and reading the text back gives the pockets.
pub proof fn lemma_pockets_round_trip(p: Pockets)
    requires
        p.white.kings == 0,
        p.black.kings == 0,
    ensures
        parse_pockets_spec(pockets_text(p)) == Some(p),
        lacks(pockets_text(p), 32),
        lacks(pockets_text(p), 91),
        lacks(pockets_text(p), 93),
        is_ascii_text(pockets_text(p)),
{
    let e = empty_pockets();
    let black = pocket_text(p.black, Color::Black);
    lemma_read_pocket(p.white, Color::White, black, e);
    let mid = Pockets { white: p.white, ..e };
    lemma_read_pocket(p.black, Color::Black, Seq::<u8>::empty(), mid);
    assert(black + Seq::<u8>::empty() =~= black);
    assert forall|piece: Piece|
        piece_letter(piece) != 32 && piece_letter(piece) != 91 && piece_letter(piece) != 93
            && piece_letter(piece) < 128 by {
        lemma_piece_letter_plain(piece);
    }
}

/// The letter of the castling right of a rook names the square of that rook.
proof fn lemma_castling_letter(board: Board, color: Color, s: int)
    requires
        castling_candidates(board, color).has(s),
    ensures
        castling_square_spec(castling_letter(board, color, s), board) == Some(Square(s as u8)),
        castling_letter(board, color, s) != 45,
        castling_letter(board, color, s) != 32,
        castling_letter(board, color, s) < 128,
{
    broadcast use group_bitboard;

    let candidates = castling_candidates(board, color);
    let c = castling_letter(board, color, s);
    let on_file = candidates.intersect_spec(Bitboard::file_spec(file_of(s)));
    on_file.lemma_first_last();
    assert(on_file.has(s));
    on_file.lemma_is_empty();
    let found = on_file.first_spec().unwrap();
    assert(on_file.has(found.idx()));
    assert(found.idx() == s);
}

/// The rights `rights` with those of `color` from file `f` down to the a-file added.
pub open spec fn add_rights(rights: Bitboard, pos: Standard, color: Color, f: int) -> Bitboard
    decreases f + 1,
{
    if f < 0 {
        rights
    } else {
        let s = at(f, back_rank(color));
        add_rights(
            if castling_candidates(pos.board, color).has(s) && pos.castling_rights.has(s) {
                rights.with_spec(s)
            } else {
                rights
            },
            pos,
            color,
            f - 1,
        )
    }
}

/// Reading the letters of the castling rights of one side adds those rights.
proof fn lemma_read_castling_letters(
    pos: Standard,
    color: Color,
    f: int,
    rest: Seq<u8>,
    rights: Bitboard,
)
    requires
        -1 <= f <= 7,
    ensures
        parse_castling_from(castling_letters(pos, color, f) + rest, pos.board, rights)
            == parse_castling_from(rest, pos.board, add_rights(rights, pos, color, f)),
        lacks(castling_letters(pos, color, f), 32),
        is_ascii_text(castling_letters(pos, color, f)),
    decreases f + 1,
{
    let t = castling_letters(pos, color, f) + rest;
    if f < 0 {
        assert(t =~= rest);
    } else {
        let s = at(f, back_rank(color));
        let below = castling_letters(pos, color, f - 1);
        if castling_candidates(pos.board, color).has(s) && pos.castling_rights.has(s) {
            lemma_castling_letter(pos.board, color, s);
            let c = castling_letter(pos.board, color, s);
            assert(t[0] == c);
            assert(t.drop_first() =~= below + rest);
            lemma_read_castling_letters(pos, color, f - 1, rest, rights.with_spec(s));
        } else {
            assert(t =~= below + rest);
            lemma_read_castling_letters(pos, color, f - 1, rest, rights);
        }
    }
}

/// Which squares the added rights hold.
proof fn lemma_add_rights(rights: Bitboard, pos: Standard, color: Color, f: int)
    requires
        -1 <= f <= 7,
    ensures
        forall|x: int|
            #![trigger add_rights(rights, pos, color, f).has(x)]
            add_rights(rights, pos, color, f).has(x) <==> (rights.has(x) || (on_board(x)
                && rank_of(x) == back_rank(color) && file_of(x) <= f && castling_candidates(
                pos.board,
                color,
            ).has(x) && pos.castling_rights.has(x))),
        castling_letters(pos, color, f).len() == 0 ==> add_rights(rights, pos, color, f) == rights,
    decreases f + 1,
{
    if f >= 0 {
        let s = at(f, back_rank(color));
        let here = castling_candidates(pos.board, color).has(s) && pos.castling_rights.has(s);
        let next = if here {
            rights.with_spec(s)
        } else {
            rights
        };
        lemma_add_rights(next, pos, color, f - 1);
        let res = add_rights(rights, pos, color, f);
        assert(res == add_rights(next, pos, color, f - 1));
        assert forall|x: int|
            #![trigger res.has(x)]
            res.has(x) <==> (rights.has(x) || (on_board(x) && rank_of(x) == back_rank(color)
                && file_of(x) <= f && castling_candidates(pos.board, color).has(x)
                && pos.castling_rights.has(x))) by {
            rights.lemma_with(s, x);
            assert(x == s <==> (on_board(x) && rank_of(x) == back_rank(color) && file_of(x) == f));
        }
        if castling_letters(pos, color, f).len() == 0 {
            assert(!here);
        }
    }
}

/// Writing the castling rights and reading the field back gives the rights, if each
/// belongs to a rook on the back rank of its side.
pub proof fn lemma_castling_round_trip(pos: Standard)
    requires
        pos.board.wf(),
        pos.castling_ok(),
    ensures
        parse_castling_from(castling_text(pos), pos.board, Bitboard::empty_spec()) == Some(
            pos.castling_rights,
        ),
        lacks(castling_text(pos), 32),
        is_ascii_text(castling_text(pos)),
{
    broadcast use group_bitboard;

    let white = castling_letters(pos, Color::White, 7);
    let black = castling_letters(pos, Color::Black, 7);
    let e = Bitboard::empty_spec();
    let r1 = add_rights(e, pos, Color::White, 7);
    let r2 = add_rights(r1, pos, Color::Black, 7);
    lemma_read_castling_letters(pos, Color::White, 7, black, e);
    lemma_read_castling_letters(pos, Color::Black, 7, Seq::<u8>::empty(), r1);
    assert(black + Seq::<u8>::empty() =~= black);
    lemma_add_rights(e, pos, Color::White, 7);
    lemma_add_rights(r1, pos, Color::Black, 7);
    assert forall|x: int| on_board(x) implies (r2.has(x) <==> pos.castling_rights.has(x)) by {
        pos.board.lemma_occupied(x);
        if pos.castling_rights.has(x) {
            assert(castling_candidates(pos.board, Color::White).has(x) || castling_candidates(
                pos.board,
                Color::Black,
            ).has(x));
        }
    }
    r2.lemma_ext(pos.castling_rights);
    assert(parse_castling_from(Seq::<u8>::empty(), pos.board, r2) == Some(r2));
    if (white + black).len() == 0 {
        assert(white.len() == 0 && black.len() == 0);
        let dash = seq![45u8];
        assert(dash.drop_first() =~= Seq::<u8>::empty());
        assert(parse_castling_from(dash, pos.board, e) == parse_castling_from(
            Seq::<u8>::empty(),
            pos.board,
            e,
        ));
    }
}

/// Writing an en-passant square and reading the field back gives the square.
pub proof fn lemma_ep_round_trip(ep: Option<Square>)
    requires
        ep is Some ==> ep.unwrap().wf(),
    ensures
        parse_ep_spec(ep_text(ep)) == Some(ep),
        lacks(ep_text(ep), 32),
        is_ascii_text(ep_text(ep)),
{
    match ep {
        Some(sq) => {
            crate::square::lemma_square_text_round_trip(sq);
            let t = square_text(sq.idx());
            assert(!(t =~= seq![45u8]));
        },
        None => {},
    }
}

/// Writing the remaining checks and reading the field back gives them, if neither is more
/// than 3.
pub proof fn lemma_checks_round_trip(c: RemainingChecks)
    requires
        c.white <= 3,
        c.black <= 3,
    ensures
        is_checks_field(checks_text(c)),
        parse_checks_spec(checks_text(c)) == Some(c),
        lacks(checks_text(c), 32),
        is_ascii_text(checks_text(c)),
{
    let t = checks_text(c);
    assert(decimal(c.white as nat) =~= seq![(48 + c.white) as u8]);
    assert(decimal(c.black as nat) =~= seq![(48 + c.black) as u8]);
    assert(t =~= seq![(48 + c.white) as u8, 43u8, (48 + c.black) as u8]);
}

/// The digits of a number are one field, of another form than the remaining checks, and
/// name the number.
pub proof fn lemma_number_field(n: u32)
    ensures
        lacks(decimal(n as nat), 32),
        !is_checks_field(decimal(n as nat)),
        parse_u32_spec(decimal(n as nat)) == Some(n),
        is_ascii_text(decimal(n as nat)),
{
    lemma_decimal_round_trip(n as nat);
    lemma_parse_decimal(n);
    let t = decimal(n as nat);
    if t.len() == 3 {
        assert(48 <= t[1] <= 57);
    }
}

/// Writing the placement field and reading it back gives the placement and the pockets.
pub proof fn lemma_placement_field_round_trip(board: Board, pockets: Option<Pockets>)
    requires
        board.wf(),
        pockets is None ==> board.promoted == Bitboard::empty_spec(),
        pockets is Some ==> pockets.unwrap().white.kings == 0 && pockets.unwrap().black.kings == 0,
    ensures
        parse_placement_field(placement_field_text(board, pockets)) == Ok::<Fen, FenError>(
            Fen {
                position: Standard { board, ..empty_position() },
                pockets,
                remaining_checks: None,
            },
        ),
        lacks(placement_field_text(board, pockets), 32),
        is_ascii_text(placement_field_text(board, pockets)),
{
    let t = placement_field_text(board, pockets);
    match pockets {
        Some(p) => {
            let a = board_text(board, true);
            let b = pockets_text(p);
            lemma_ranks_text_plain(board, true, 7);
            lemma_pockets_round_trip(p);
            lemma_board_text_round_trip(board, true);
            lemma_first_index_is(t, 91, a.len() as int);
            assert(t.subrange(0, a.len() as int) =~= a);
            assert(t.subrange(a.len() as int + 1, t.len() - 1) =~= b);
            assert(t.last() == 93);
        },
        None => {
            let a = board_text(board, false);
            lemma_ranks_text_plain(board, false, 7);
            lemma_board_text_round_trip(board, false);
            lemma_first_index_is(t, 91, a.len() as int);
            assert(t.subrange(0, a.len() as int) =~= a);
        },
    }
}

/// Reading the counters.
proof fn lemma_read_counters(halfmoves: u32, fullmoves: u32, fen: Fen)
    requires
        fullmoves >= 1,
    ensures
        parse_halfmoves(Some(counters_text(halfmoves, fullmoves)), fen) == Ok::<Fen, FenError>(
            Fen {
                position: Standard { halfmove_clock: halfmoves, fullmoves, ..fen.position },
                ..fen
            },
        ),
        !is_checks_field(head_field(counters_text(halfmoves, fullmoves))),
{
    reveal(parse_halfmoves);
    reveal(parse_fullmoves);
    let h = decimal(halfmoves as nat);
    let f = decimal(fullmoves as nat);
    lemma_number_field(halfmoves);
    lemma_number_field(fullmoves);
    lemma_split_at(h, f);
    lemma_split_end(f);
}

/// Reading what stands behind the en-passant square.
proof fn lemma_read_checks_on(
    checks: Option<RemainingChecks>,
    halfmoves: u32,
    fullmoves: u32,
    fen: Fen,
)
    requires
        fullmoves >= 1,
        checks is Some ==> checks.unwrap().white <= 3 && checks.unwrap().black <= 3,
        fen.remaining_checks is None,
    ensures
        parse_checks_on(
            Some(checks_part(checks) + counters_text(halfmoves, fullmoves)),
            fen,
        ) == Ok::<Fen, FenError>(
            Fen {
                position: Standard { halfmove_clock: halfmoves, fullmoves, ..fen.position },
                remaining_checks: checks,
                ..fen
            },
        ),
{
    reveal(parse_checks_on);
    let counters = counters_text(halfmoves, fullmoves);
    let t = checks_part(checks) + counters;
    match checks {
        Some(c) => {
            let ct = checks_text(c);
            lemma_checks_round_trip(c);
            assert(t =~= ct + seq![32u8] + counters);
            lemma_split_at(ct, counters);
            lemma_read_counters(halfmoves, fullmoves, Fen { remaining_checks: Some(c), ..fen });
        },
        None => {
            assert(t =~= counters);
            lemma_read_counters(halfmoves, fullmoves, fen);
        },
    }
}

/// Reading the en-passant field and going on.
proof fn lemma_read_ep_on(ep: Option<Square>, rest: Seq<u8>, fen: Fen)
    requires
        ep is Some ==> ep.unwrap().wf(),
    ensures
        parse_ep_on(Some(ep_text(ep) + seq![32u8] + rest), fen) == parse_checks_on(
            Some(rest),
            Fen { position: Standard { ep_square: ep, ..fen.position }, ..fen },
        ),
{
    reveal(parse_ep_on);
    lemma_ep_round_trip(ep);
    lemma_split_at(ep_text(ep), rest);
}

/// Reading the castling field and going on.
proof fn lemma_read_castling_on(pos: Standard, rest: Seq<u8>, fen: Fen)
    requires
        pos.board.wf(),
        pos.castling_ok(),
        fen.position.board == pos.board,
    ensures
        parse_castling_on(Some(castling_text(pos) + seq![32u8] + rest), fen) == parse_ep_on(
            Some(rest),
            Fen {
                position: Standard { castling_rights: pos.castling_rights, ..fen.position },
                ..fen
            },
        ),
{
    reveal(parse_castling_on);
    lemma_castling_round_trip(pos);
    lemma_split_at(castling_text(pos), rest);
}

/// Reading the field of the side to move and going on.
proof fn lemma_read_turn_on(turn: Color, rest: Seq<u8>, fen: Fen)
    ensures
        parse_turn_on(Some(turn_text(turn) + seq![32u8] + rest), fen) == parse_castling_on(
            Some(rest),
            Fen { position: Standard { turn, ..fen.position }, ..fen },
        ),
{
    reveal(parse_turn_on);
    let b = turn_text(turn);
    assert(lacks(b, 32));
    lemma_split_at(b, rest);
    assert(!(seq![98u8] =~= seq![119u8])) by {
        assert(seq![98u8][0] != seq![119u8][0]);
    }
    assert(b =~= seq![turn_letter(turn)]);
}

/// The fields from the en-passant square on, read back.
proof fn lemma_read_from_ep(pos: Standard, checks: Option<RemainingChecks>, fen: Fen)
    requires
        pos.fullmoves >= 1,
        pos.ep_square is Some ==> pos.ep_square.unwrap().wf(),
        checks is Some ==> checks.unwrap().white <= 3 && checks.unwrap().black <= 3,
        fen.remaining_checks is None,
    ensures
        parse_ep_on(Some(fields_from_ep(pos, checks)), fen) == Ok::<Fen, FenError>(
            Fen {
                position: Standard {
                    ep_square: pos.ep_square,
                    halfmove_clock: pos.halfmove_clock,
                    fullmoves: pos.fullmoves,
                    ..fen.position
                },
                remaining_checks: checks,
                ..fen
            },
        ),
{
    lemma_read_ep_on(pos.ep_square, fields_behind_ep(pos, checks), fen);
    lemma_read_checks_on(
        checks,
        pos.halfmove_clock,
        pos.fullmoves,
        Fen { position: Standard { ep_square: pos.ep_square, ..fen.position }, ..fen },
    );
}

/// The fields from the castling rights on, read back.
proof fn lemma_read_from_castling(pos: Standard, checks: Option<RemainingChecks>, fen: Fen)
    requires
        pos.wf(),
        pos.castling_ok(),
        checks is Some ==> checks.unwrap().white <= 3 && checks.unwrap().black <= 3,
        fen.position.board == pos.board,
        fen.remaining_checks is None,
    ensures
        parse_castling_on(Some(fields_from_castling(pos, checks)), fen) == Ok::<Fen, FenError>(
            Fen {
                position: Standard {
                    castling_rights: pos.castling_rights,
                    ep_square: pos.ep_square,
                    halfmove_clock: pos.halfmove_clock,
                    fullmoves: pos.fullmoves,
                    ..fen.position
                },
                remaining_checks: checks,
                ..fen
            },
        ),
{
    lemma_read_castling_on(pos, fields_from_ep(pos, checks), fen);
    lemma_read_from_ep(
        pos,
        checks,
        Fen {
            position: Standard { castling_rights: pos.castling_rights, ..fen.position },
            ..fen
        },
    );
}

/// The fields behind the placement, read back.
proof fn lemma_read_fields(pos: Standard, checks: Option<RemainingChecks>, fen: Fen)
    requires
        pos.wf(),
        pos.castling_ok(),
        checks is Some ==> checks.unwrap().white <= 3 && checks.unwrap().black <= 3,
        fen.position.board == pos.board,
        fen.remaining_checks is None,
    ensures
        parse_turn_on(Some(fields_from_turn(pos, checks)), fen) == Ok::<Fen, FenError>(
            Fen { position: pos, remaining_checks: checks, ..fen },
        ),
{
    lemma_read_turn_on(pos.turn, fields_from_castling(pos, checks), fen);
    lemma_read_from_castling(
        pos,
        checks,
        Fen { position: Standard { turn: pos.turn, ..fen.position }, ..fen },
    );
}

/// Writing a position and reading the text back gives the position.
///
/// This holds of a position that satisfies its invariant, in which every castling right
/// belongs to a rook on the back rank of its side, with pockets without kings and with
/// no more than three remaining checks; and, where there are no pockets, without pieces
/// marked as promoted, for only with pockets are the marks written.
pub proof fn lemma_fen_round_trip(
    pos: Standard,
    pockets: Option<Pockets>,
    checks: Option<RemainingChecks>,
)
    requires
        pos.wf(),
        pos.castling_ok(),
        pockets is None ==> pos.board.promoted == Bitboard::empty_spec(),
        pockets is Some ==> pockets.unwrap().white.kings == 0 && pockets.unwrap().black.kings == 0,
        checks is Some ==> checks.unwrap().white <= 3 && checks.unwrap().black <= 3,
    ensures
        parse_fen_spec(fen_text(pos, pockets, checks)) == Ok::<Fen, FenError>(
            Fen { position: pos, pockets, remaining_checks: checks },
        ),
{
    let a = placement_field_text(pos.board, pockets);
    let fen0 = Fen {
        position: Standard { board: pos.board, ..empty_position() },
        pockets,
        remaining_checks: None,
    };
    lemma_placement_field_round_trip(pos.board, pockets);
    lemma_read_fields(pos, checks, fen0);
    lemma_split_at(a, fields_from_turn(pos, checks));
}

/// The text of a position is ASCII.
pub proof fn lemma_fen_text_ascii(
    pos: Standard,
    pockets: Option<Pockets>,
    checks: Option<RemainingChecks>,
)
    requires
        pos.wf(),
        pos.castling_ok(),
        pockets is None ==> pos.board.promoted == Bitboard::empty_spec(),
        pockets is Some ==> pockets.unwrap().white.kings == 0 && pockets.unwrap().black.kings == 0,
        checks is Some ==> checks.unwrap().white <= 3 && checks.unwrap().black <= 3,
    ensures
        is_ascii_text(fen_text(pos, pockets, checks)),
{
    lemma_placement_field_round_trip(pos.board, pockets);
    lemma_castling_round_trip(pos);
    lemma_ep_round_trip(pos.ep_square);
    lemma_number_field(pos.halfmove_clock);
    lemma_number_field(pos.fullmoves);
    if checks is Some {
        lemma_checks_round_trip(checks.unwrap());
    }
    assert(is_ascii_text(checks_part(checks)));
    assert(is_ascii_text(counters_text(pos.halfmove_clock, pos.fullmoves)));
    assert(is_ascii_text(turn_text(pos.turn)));
    assert(is_ascii_text(fields_behind_ep(pos, checks)));
    assert(is_ascii_text(fields_from_ep(pos, checks)));
    assert(is_ascii_text(fields_from_castling(pos, checks)));
    assert(is_ascii_text(fields_from_turn(pos, checks)));
}

/// Reading the string that holds the text of a position gives the position: what `fen`
/// writes, `from_fen` reads back.
pub proof fn lemma_fen_string_round_trip(
    pos: Standard,
    pockets: Option<Pockets>,
    checks: Option<RemainingChecks>,
    s: &str,
)
    requires
        pos.wf(),
        pos.castling_ok(),
        pockets is None ==> pos.board.promoted == Bitboard::empty_spec(),
        pockets is Some ==> pockets.unwrap().white.kings == 0 && pockets.unwrap().black.kings == 0,
        checks is Some ==> checks.unwrap().white <= 3 && checks.unwrap().black <= 3,
        s@ == chars_of(fen_text(pos, pockets, checks)),
    ensures
        parse_fen_spec(s.spec_bytes()) == Ok::<Fen, FenError>(
            Fen { position: pos, pockets, remaining_checks: checks },
        ),
{
    lemma_fen_text_ascii(pos, pockets, checks);
    lemma_string_bytes(s, fen_text(pos, pockets, checks));
    lemma_fen_round_trip(pos, pockets, checks);
}

/// Whether a text is the text of a position as this library writes it, with or without
/// pockets and remaining checks: the canonical form.
pub open spec fn is_canonical(t: Seq<u8>) -> bool {
    exists|pos: Standard, pockets: Option<Pockets>, checks: Option<RemainingChecks>|
        #![trigger fen_text(pos, pockets, checks)]
        t == fen_text(pos, pockets, checks) && pos.wf() && pos.castling_ok() && (pockets is None
            ==> pos.board.promoted == Bitboard::empty_spec()) && (pockets is Some
            ==> pockets.unwrap().white.kings == 0 && pockets.unwrap().black.kings == 0) && (
        checks is Some ==> checks.unwrap().white <= 3 && checks.unwrap().black <= 3)
}

/// Reading a text in canonical form and writing what was read gives the text.
pub proof fn lemma_canonical_round_trip(t: Seq<u8>)
    requires
        is_canonical(t),
    ensures
        parse_fen_spec(t) is Ok,
        ({
            let fen = parse_fen_spec(t).unwrap();
            fen_text(fen.position, fen.pockets, fen.remaining_checks) == t
        }),
{
    let (pos, pockets, checks) = choose|
        pos: Standard,
        pockets: Option<Pockets>,
        checks: Option<RemainingChecks>,
    |
        #![trigger fen_text(pos, pockets, checks)]
        t == fen_text(pos, pockets, checks) && pos.wf() && pos.castling_ok() && (pockets is None
            ==> pos.board.promoted == Bitboard::empty_spec()) && (pockets is Some
            ==> pockets.unwrap().white.kings == 0 && pockets.unwrap().black.kings == 0) && (
        checks is Some ==> checks.unwrap().white <= 3 && checks.unwrap().black <= 3);
    lemma_fen_round_trip(pos, pockets, checks);
}

} // verus!
