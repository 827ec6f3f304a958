//! Moves in standard algebraic notation.

use vstd::prelude::*;
use crate::bitboard::Bitboard;
use crate::movegen::{
    grown, lemma_grown_none, lemma_grown_push, lemma_grown_same, lemma_grown_trans,
};
use crate::position::Standard;
use crate::square::{Square, file_of, rank_of, square_text};
use crate::types::{Move, Piece, Role};

verus! {

/// Whether `c` is an ordinary move to `target` from a member of `pieces`.
pub open spec fn goes_to(pieces: Bitboard, target: Square, c: Move) -> bool {
    match c {
        Move::Normal { from, to, .. } => to == target && pieces.has(from.idx()),
        _ => false,
    }
}

/// Whether `c` is a legal ordinary move of a piece of `role` of the side to move to
/// `target`, where `legal` says which moves are legal.
pub open spec fn is_san_candidate(
    pos: Standard,
    legal: spec_fn(Move) -> bool,
    role: Role,
    target: Square,
    c: Move,
) -> bool {
    legal(c) && goes_to(pos.board.by_piece_spec(Piece { color: pos.turn, role }), target, c)
}

/// Whether `c` calls for the file of `from` to be written: it leaves another square, on
/// the same rank or on another file.
pub open spec fn calls_for_file(from: Square, c: Move) -> bool {
    c is Normal && c->Normal_from != from && (rank_of(c->Normal_from.idx()) == rank_of(from.idx())
        || file_of(c->Normal_from.idx()) != file_of(from.idx()))
}

/// Whether `c` calls for the rank of `from` to be written: it leaves another rank of the
/// same file.
pub open spec fn calls_for_rank(from: Square, c: Move) -> bool {
    c is Normal && c->Normal_from != from && rank_of(c->Normal_from.idx()) != rank_of(from.idx())
        && file_of(c->Normal_from.idx()) == file_of(from.idx())
}

/// Whether the file of `from` must be written to tell a move from the other moves that
/// satisfy `candidate`.
pub open spec fn needs_file(candidate: spec_fn(Move) -> bool, from: Square) -> bool {
    exists|c: Move| #![trigger candidate(c)] candidate(c) && calls_for_file(from, c)
}

/// Whether the rank of `from` must be written to tell a move from the other moves that
/// satisfy `candidate`.
pub open spec fn needs_rank(candidate: spec_fn(Move) -> bool, from: Square) -> bool {
    exists|c: Move| #![trigger candidate(c)] candidate(c) && calls_for_rank(from, c)
}

/// The sign behind a move: `+` if it gives check and the other side has a legal reply,
/// `#` if it gives check and there is none, nothing if it gives no check.
pub open spec fn san_suffix(check: bool, reply: bool) -> Seq<u8> {
    if !check {
        Seq::<u8>::empty()
    } else if reply {
        seq![43u8]
    } else {
        seq![35u8]
    }
}

/// The letter of the file of a square.
pub open spec fn file_letter(sq: Square) -> u8 {
    (97 + file_of(sq.idx())) as u8
}

/// The digit of the rank of a square.
pub open spec fn rank_digit(sq: Square) -> u8 {
    (49 + rank_of(sq.idx())) as u8
}

/// The upper-case letter of a role as a byte.
pub open spec fn role_letter(role: Role) -> u8 {
    role.upper_char_spec() as u8
}

/// What tells a move from `from` from the other moves that satisfy `candidate`: the file,
/// the rank, both or nothing.
pub open spec fn disambiguation(candidate: spec_fn(Move) -> bool, from: Square) -> Seq<u8> {
    (if needs_file(candidate, from) {
        seq![file_letter(from)]
    } else {
        Seq::<u8>::empty()
    }) + (if needs_rank(candidate, from) {
        seq![rank_digit(from)]
    } else {
        Seq::<u8>::empty()
    })
}

/// The letter of the role of a piece and what tells its move from the other moves that
/// satisfy `candidate`; nothing for a pawn.
pub open spec fn san_piece_part(candidate: spec_fn(Move) -> bool, role: Role, from: Square) -> Seq<
    u8,
> {
    if role != Role::Pawn {
        seq![role_letter(role)] + disambiguation(candidate, from)
    } else {
        Seq::<u8>::empty()
    }
}

/// The sign of a capture, behind the file of the square that a capturing pawn leaves;
/// nothing for a move that captures nothing.
pub open spec fn san_capture_part(role: Role, from: Square, capture: Option<Role>) -> Seq<u8> {
    if capture is Some {
        (if role == Role::Pawn {
            seq![file_letter(from)]
        } else {
            Seq::<u8>::empty()
        }) + seq![120u8]
    } else {
        Seq::<u8>::empty()
    }
}

/// The sign of a promotion with the letter of the new role; nothing without a promotion.
pub open spec fn san_promotion_part(promotion: Option<Role>) -> Seq<u8> {
    match promotion {
        Some(p) => seq![61u8, role_letter(p)],
        None => Seq::<u8>::empty(),
    }
}

/// A move in standard algebraic notation, without the sign for check or mate;
/// `candidate` says which moves the notation has to tell it from.
///
/// A move of a piece is the letter of its role, the file or the rank of its square or
/// both where needed, `x` if it captures, and the square it goes to. A move of a pawn
/// has no letter, the file of its square before the `x` if it captures, and `=` with the
/// letter of the new role if it promotes. Castling is `O-O` towards the h-file and
/// `O-O-O` towards the a-file. A drop is the letter of the role, `@` and the square. The
/// pass is `--`.
pub open spec fn san_body(candidate: spec_fn(Move) -> bool, m: Move) -> Seq<u8> {
    match m {
        Move::Normal { role, from, capture, to, promotion } => san_piece_part(
            candidate,
            role,
            from,
        ) + san_capture_part(role, from, capture) + square_text(to.idx()) + san_promotion_part(
            promotion,
        ),
        Move::EnPassant { from, to } => seq![file_letter(from), 120u8] + square_text(to.idx()),
        Move::Castle { king, rook } => if king.idx() < rook.idx() {
            seq![79u8, 45u8, 79u8]
        } else {
            seq![79u8, 45u8, 79u8, 45u8, 79u8]
        },
        Move::Put { role, to } => seq![role_letter(role), 64u8] + square_text(to.idx()),
        Move::Null => seq![45u8, 45u8],
    }
}

/// The move `m` in standard algebraic notation, in the position `pos` where `legal` says
/// which moves are legal; `check` and `reply` say whether the move gives check and
/// whether the other side has a legal reply.
pub open spec fn san_text(
    pos: Standard,
    legal: spec_fn(Move) -> bool,
    check: bool,
    reply: bool,
    m: Move,
) -> Seq<u8> {
    match m {
        Move::Normal { role, to, .. } => san_body(
            |c: Move| is_san_candidate(pos, legal, role, to, c),
            m,
        ) + san_suffix(check, reply),
        Move::Null => san_body(|c: Move| false, m),
        _ => san_body(|c: Move| false, m) + san_suffix(check, reply),
    }
}

/// Appends to `moves` those of `legals` that are ordinary moves to `target` from a
/// member of `pieces`.
pub fn filter_san_candidates(
    legals: &Vec<Move>,
    pieces: Bitboard,
    target: Square,
    moves: &mut Vec<Move>,
)
    requires
        legals@.no_duplicates(),
    ensures
        grown(
            old(moves)@,
            final(moves)@,
            |c: Move| legals@.contains(c) && goes_to(pieces, target, c),
        ),
{
    let ghost s0 = moves@;
    proof {
        let h0 = |c: Move| legals@.subrange(0, 0).contains(c) && goes_to(pieces, target, c);
        assert forall|c: Move| #![trigger h0(c)] !h0(c) by {}
        lemma_grown_none(s0, h0);
    }
    let mut i: usize = 0;
    while i < legals.len()
        invariant
            0 <= i <= legals.len(),
            legals@.no_duplicates(),
            grown(
                s0,
                moves@,
                |c: Move| legals@.subrange(0, i as int).contains(c) && goes_to(pieces, target, c),
            ),
        decreases legals.len() - i,
    {
        let ghost s1 = moves@;
        let c = legals[i];
        let keep = match c {
            Move::Normal { from, to, .. } => to == target && from.index() < 64 && pieces.contains(
                from,
            ),
            _ => false,
        };
        if keep {
            moves.push(c);
        }
        proof {
            let done0 = legals@.subrange(0, i as int);
            let done1 = legals@.subrange(0, i + 1);
            let p = |x: Move| done0.contains(x) && goes_to(pieces, target, x);
            let q = |x: Move| x == c;
            let r = |x: Move| done1.contains(x) && goes_to(pieces, target, x);
            assert forall|x: Move| done1.contains(x) <==> (done0.contains(x) || x == c) by {
                if done0.contains(x) {
                    let j = choose|j: int| 0 <= j < done0.len() && done0[j] == x;
                    assert(done1[j] == x);
                }
                if x == c {
                    assert(done1[i as int] == c);
                }
                if done1.contains(x) {
                    let j = choose|j: int| 0 <= j < done1.len() && done1[j] == x;
                    if j < i {
                        assert(done0[j] == x);
                    }
                }
            }
            assert(!done0.contains(c)) by {
                if done0.contains(c) {
                    let j = choose|j: int| 0 <= j < done0.len() && done0[j] == c;
                    assert(legals@[j] == legals@[i as int]);
                }
            }
            assert(keep == goes_to(pieces, target, c));
            if keep {
                lemma_grown_push(s1, c);
                assert forall|x: Move| #![trigger r(x)] r(x) <==> (p(x) || q(x)) by {}
                lemma_grown_trans(s0, s1, moves@, p, q, r);
            } else {
                assert forall|x: Move| #![trigger r(x)] r(x) <==> p(x) by {}
                lemma_grown_same(s0, moves@, p, r);
            }
        }
        i = i + 1;
    }
    proof {
        assert(legals@.subrange(0, i as int) =~= legals@);
    }
}

/// Appends the sign for check or mate to `out`.
pub fn write_san_suffix(check: bool, reply: bool, out: &mut Vec<u8>)
    ensures
        final(out)@ == old(out)@ + san_suffix(check, reply),
{
    if check {
        if reply {
            out.push(43);
        } else {
            out.push(35);
        }
    }
    assert(out@ =~= old(out)@ + san_suffix(check, reply));
}

/// Appends to `out` what tells a move from `from` from the moves in `candidates`.
pub fn write_disambiguation(candidates: &Vec<Move>, from: Square, out: &mut Vec<u8>)
    requires
        from.wf(),
    ensures
        final(out)@ == old(out)@ + disambiguation(|c: Move| candidates@.contains(c), from),
{
    let ghost cand = |c: Move| candidates@.contains(c);
    let mut file = false;
    let mut rank = false;
    let mut i: usize = 0;
    while i < candidates.len()
        invariant
            0 <= i <= candidates.len(),
            from.wf(),
            file <==> exists|j: int|
                #![trigger candidates[j]]
                0 <= j < i && calls_for_file(from, candidates[j]),
            rank <==> exists|j: int|
                #![trigger candidates[j]]
                0 <= j < i && calls_for_rank(from, candidates[j]),
        decreases candidates.len() - i,
    {
        let c = candidates[i];
        match c {
            Move::Normal { from: other, .. } => {
                if other.index() != from.index() {
                    assert(other != from);
                    if other.index() / 8 == from.index() / 8 {
                        file = true;
                    } else if other.index() % 8 == from.index() % 8 {
                        rank = true;
                    } else {
                        file = true;
                    }
                }
            },
            _ => {},
        }
        i = i + 1;
    }
    proof {
        if needs_file(cand, from) {
            let c = choose|c: Move| #![trigger cand(c)] cand(c) && calls_for_file(from, c);
            let j = choose|j: int| 0 <= j < candidates@.len() && candidates@[j] == c;
            assert(calls_for_file(from, candidates[j]));
        }
        if file {
            let j = choose|j: int|
                #![trigger candidates[j]]
                0 <= j < i && calls_for_file(from, candidates[j]);
            assert(candidates@.contains(candidates[j]));
            assert(cand(candidates[j]));
        }
        if needs_rank(cand, from) {
            let c = choose|c: Move| #![trigger cand(c)] cand(c) && calls_for_rank(from, c);
            let j = choose|j: int| 0 <= j < candidates@.len() && candidates@[j] == c;
            assert(calls_for_rank(from, candidates[j]));
        }
        if rank {
            let j = choose|j: int|
                #![trigger candidates[j]]
                0 <= j < i && calls_for_rank(from, candidates[j]);
            assert(candidates@.contains(candidates[j]));
            assert(cand(candidates[j]));
        }
    }
    if file {
        out.push(97 + from.index() % 8);
    }
    if rank {
        out.push(49 + from.index() / 8);
    }
    assert(out@ =~= old(out)@ + disambiguation(cand, from));
}

fn write_san_piece_part(candidates: &Vec<Move>, role: Role, from: Square, out: &mut Vec<u8>)
    requires
        from.wf(),
    ensures
        final(out)@ == old(out)@ + san_piece_part(|c: Move| candidates@.contains(c), role, from),
{
    let ghost cand = |c: Move| candidates@.contains(c);
    if role != Role::Pawn {
        out.push(role.upper_char() as u8);
        write_disambiguation(candidates, from, out);
        assert(out@ =~= old(out)@ + (seq![role_letter(role)] + disambiguation(cand, from)));
    } else {
        assert(out@ =~= old(out)@ + Seq::<u8>::empty());
    }
}

fn write_san_capture_part(role: Role, from: Square, capture: Option<Role>, out: &mut Vec<u8>)
    requires
        from.wf(),
    ensures
        final(out)@ == old(out)@ + san_capture_part(role, from, capture),
{
    if capture.is_some() {
        if role == Role::Pawn {
            out.push(97 + from.index() % 8);
        }
        out.push(120);
    }
    assert(out@ =~= old(out)@ + san_capture_part(role, from, capture));
}

fn write_san_promotion_part(promotion: Option<Role>, out: &mut Vec<u8>)
    ensures
        final(out)@ == old(out)@ + san_promotion_part(promotion),
{
    match promotion {
        Some(p) => {
            out.push(61);
            out.push(p.upper_char() as u8);
        },
        None => {},
    }
    assert(out@ =~= old(out)@ + san_promotion_part(promotion));
}

/// Appends the move `m` in standard algebraic notation, without the sign for check or
/// mate, to `out`; `candidates` holds the moves that the notation has to tell it from.
pub fn write_san_body(candidates: &Vec<Move>, m: &Move, out: &mut Vec<u8>)
    requires
        m.wf(),
    ensures
        final(out)@ == old(out)@ + san_body(|c: Move| candidates@.contains(c), *m),
{
    let ghost cand = |c: Move| candidates@.contains(c);
    match *m {
        Move::Normal { role, from, capture, to, promotion } => {
            let ghost a = san_piece_part(cand, role, from);
            let ghost b = san_capture_part(role, from, capture);
            let ghost c = square_text(to.idx());
            let ghost d = san_promotion_part(promotion);
            write_san_piece_part(candidates, role, from, out);
            write_san_capture_part(role, from, capture, out);
            to.write(out);
            write_san_promotion_part(promotion, out);
            assert(out@ == old(out)@ + a + b + c + d);
            assert(old(out)@ + a + b + c + d =~= old(out)@ + (a + b + c + d));
        },
        Move::EnPassant { from, to } => {
            out.push(97 + from.index() % 8);
            out.push(120);
            let ghost mid = out@;
            to.write(out);
            assert(mid =~= old(out)@ + seq![file_letter(from), 120u8]);
            assert(out@ =~= old(out)@ + (seq![file_letter(from), 120u8] + square_text(to.idx())));
        },
        Move::Castle { king, rook } => {
            out.push(79);
            out.push(45);
            out.push(79);
            if !(king.index() < rook.index()) {
                out.push(45);
                out.push(79);
                assert(out@ =~= old(out)@ + seq![79u8, 45u8, 79u8, 45u8, 79u8]);
            } else {
                assert(out@ =~= old(out)@ + seq![79u8, 45u8, 79u8]);
            }
        },
        Move::Put { role, to } => {
            out.push(role.upper_char() as u8);
            out.push(64);
            let ghost mid = out@;
            to.write(out);
            assert(mid =~= old(out)@ + seq![role_letter(role), 64u8]);
            assert(out@ =~= old(out)@ + (seq![role_letter(role), 64u8] + square_text(to.idx())));
        },
        Move::Null => {
            out.push(45);
            out.push(45);
            assert(out@ =~= old(out)@ + seq![45u8, 45u8]);
        },
    }
}

/// The notation of a move depends on the moves to tell it from only through which moves
/// they are.
pub proof fn lemma_san_body_same(p: spec_fn(Move) -> bool, q: spec_fn(Move) -> bool, m: Move)
    requires
        forall|c: Move| #![trigger p(c)] #![trigger q(c)] p(c) <==> q(c),
    ensures
        san_body(p, m) == san_body(q, m),
{
    match m {
        Move::Normal { from, .. } => {
            if needs_file(p, from) {
                let c = choose|c: Move| #![trigger p(c)] p(c) && calls_for_file(from, c);
                assert(q(c));
            }
            if needs_file(q, from) {
                let c = choose|c: Move| #![trigger q(c)] q(c) && calls_for_file(from, c);
                assert(p(c));
            }
            if needs_rank(p, from) {
                let c = choose|c: Move| #![trigger p(c)] p(c) && calls_for_rank(from, c);
                assert(q(c));
            }
            if needs_rank(q, from) {
                let c = choose|c: Move| #![trigger q(c)] q(c) && calls_for_rank(from, c);
                assert(p(c));
            }
        },
        _ => {},
    }
}

} // verus!
