//! The piece placement as text: the first field of a position text.
//!
//! The ranks are written from the eighth to the first, divided by `/`; within a rank the
//! files from a to h; a piece as its letter, upper case for White; a run of empty squares
//! as its length; `~` behind the letter of a piece that came from a promotion.

use vstd::prelude::*;

use crate::bitboard::{Bitboard, group_bitboard};
use crate::board::Board;
use crate::square::{Square, on_board, file_of, rank_of, at};

use crate::types::Piece;

verus! {

/// The letter of a piece as a byte.
pub open spec fn piece_letter(p: Piece) -> u8 {
    p.char_spec() as u8
}

/// The piece that a byte names.
pub open spec fn letter_piece(b: u8) -> Option<Piece> {
    Piece::from_char_spec(b as char)
}

/// The text of the squares of rank `r` from file `f` on, after a run of `run` empty
/// squares that is not written yet.
pub open spec fn rank_text(board: Board, marks: bool, r: int, f: int, run: int) -> Seq<u8>
    decreases 8 - f,
{
    let pending = if run > 0 {
        seq![(48 + run) as u8]
    } else {
        Seq::<u8>::empty()
    };
    if f >= 8 {
        pending
    } else {
        match board.piece_at_spec(at(f, r)) {
            None => rank_text(board, marks, r, f + 1, run + 1),
            Some(p) => pending + seq![piece_letter(p)] + (if marks && board.promoted.has(at(f, r)) {
                seq![126u8]
            } else {
                Seq::<u8>::empty()
            }) + rank_text(board, marks, r, f + 1, 0),
        }
    }
}

/// The text of the ranks from `r` down to the first.
pub open spec fn ranks_text(board: Board, marks: bool, r: int) -> Seq<u8>
    decreases r,
{
    if r <= 0 {
        rank_text(board, marks, 0, 0, 0)
    } else {
        rank_text(board, marks, r, 0, 0) + seq![47u8] + ranks_text(board, marks, r - 1)
    }
}

/// The piece placement as text, with or without the marks of promoted pieces.
pub open spec fn board_text(board: Board, marks: bool) -> Seq<u8> {
    ranks_text(board, marks, 7)
}

/// What reading a placement makes of `board` when `t` is still to be read, the next
/// square being on file `f` of rank `r`; `letter` says whether the byte just read was the
/// letter of a piece.
#[verifier::opaque]
pub open spec fn parse_placement(t: Seq<u8>, r: int, f: int, letter: bool, board: Board) -> Option<
    Board,
>
    decreases t.len(),
{
    if t.len() == 0 {
        if r == 0 && f == 8 {
            Some(board)
        } else {
            None
        }
    } else {
        let c = t[0];
        let rest = t.drop_first();
        if c == 47 {
            if f == 8 && r > 0 {
                parse_placement(rest, r - 1, 0, false, board)
            } else {
                None
            }
        } else if 49 <= c <= 56 {
            if f + (c - 48) <= 8 {
                parse_placement(rest, r, f + (c - 48), false, board)
            } else {
                None
            }
        } else if c == 126 {
            if letter {
                parse_placement(
                    rest,
                    r,
                    f,
                    false,
                    Board { promoted: board.promoted.with_spec(at(f - 1, r)), ..board },
                )
            } else {
                None
            }
        } else {
            match letter_piece(c) {
                Some(p) => if f < 8 {
                    parse_placement(rest, r, f + 1, true, board.put_spec(at(f, r), p, false))
                } else {
                    None
                },
                None => None,
            }
        }
    }
}

/// The board that a placement text describes, if it describes one: eight ranks of eight
/// squares each.
pub open spec fn parse_board_spec(t: Seq<u8>) -> Option<Board> {
    parse_placement(t, 7, 0, false, Board::empty_spec())
}

/// Appends the text of the squares of rank `r` from file `f` on to `out`.
fn write_rank(board: &Board, marks: bool, r: i8, out: &mut Vec<u8>)
    requires
        0 <= r < 8,
    ensures
        final(out)@ == old(out)@ + rank_text(*board, marks, r as int, 0, 0),
{
    let mut f: i8 = 0;
    let mut run: u8 = 0;
    while f < 8
        invariant
            0 <= f <= 8,
            0 <= r < 8,
            0 <= run <= f,
            out@ + rank_text(*board, marks, r as int, f as int, run as int) == old(out)@
                + rank_text(*board, marks, r as int, 0, 0),
        decreases 8 - f,
    {
        let sq = Square::new((f + 8 * r) as u8);
        let ghost before = out@;
        match board.piece_at(sq) {
            None => {
                run = run + 1;
            },
            Some(p) => {
                if run > 0 {
                    out.push(48 + run);
                }
                out.push(p.char() as u8);
                if marks && board.promoted().contains(sq) {
                    out.push(126);
                }
                proof {
                    let pending = if run > 0 {
                        seq![(48 + run) as u8]
                    } else {
                        Seq::<u8>::empty()
                    };
                    let mark = if marks && board.promoted.has(at(f as int, r as int)) {
                        seq![126u8]
                    } else {
                        Seq::<u8>::empty()
                    };
                    assert(out@ =~= before + pending + seq![piece_letter(p)] + mark);
                    let tail = rank_text(*board, marks, r as int, f + 1, 0);
                    assert(before + (pending + seq![piece_letter(p)] + mark + tail) =~= (before
                        + pending + seq![piece_letter(p)] + mark) + tail);
                }
                run = 0;
            },
        }
        f = f + 1;
    }
    if run > 0 {
        out.push(48 + run);
    }
    proof {
        let pending = if run > 0 {
            seq![(48 + run) as u8]
        } else {
            Seq::<u8>::empty()
        };
        assert(rank_text(*board, marks, r as int, 8, run as int) == pending);
        assert(out@ =~= old(out)@ + rank_text(*board, marks, r as int, 0, 0));
    }
}

/// Appends the piece placement to `out`, with the marks of promoted pieces if `marks`.
pub fn write_board(board: &Board, marks: bool, out: &mut Vec<u8>)
    ensures
        final(out)@ == old(out)@ + board_text(*board, marks),
{
    let mut r: i8 = 7;
    while r > 0
        invariant
            0 <= r <= 7,
            out@ + ranks_text(*board, marks, r as int) == old(out)@ + board_text(*board, marks),
        decreases r,
    {
        let ghost before = out@;
        write_rank(board, marks, r, out);
        out.push(47);
        proof {
            let line = rank_text(*board, marks, r as int, 0, 0);
            let tail = ranks_text(*board, marks, r - 1);
            assert(out@ =~= before + line + seq![47u8]);
            assert(before + (line + seq![47u8] + tail) =~= (before + line + seq![47u8]) + tail);
        }
        r = r - 1;
    }
    write_rank(board, marks, 0, out);
}

/// Reads a piece placement.
pub fn read_board(t: &[u8]) -> (res: Option<Board>)
    ensures
        res == parse_board_spec(t@),
        res is Some ==> res.unwrap().wf(),
{
    let mut board = Board::empty();
    assert(t@.subrange(0, t.len() as int) =~= t@);
    let mut r: i8 = 7;
    let mut f: i8 = 0;
    let mut letter = false;
    let mut i: usize = 0;
    while i < t.len()
        invariant
            0 <= i <= t.len(),
            0 <= r <= 7,
            0 <= f <= 8,
            letter ==> f >= 1 && board.piece_at_spec(at(f - 1, r as int)) is Some,
            board.wf(),
            parse_placement(t@.subrange(i as int, t.len() as int), r as int, f as int, letter, board)
                == parse_board_spec(t@),
        decreases t.len() - i,
    {
        let c = t[i];
        let ghost rest_before = t@.subrange(i as int, t.len() as int);
        proof {
            reveal(parse_placement);
            assert(rest_before[0] == c);
            assert(rest_before.drop_first() =~= t@.subrange(i + 1, t.len() as int));
        }
        if c == 47 {
            if f == 8 && r > 0 {
                r = r - 1;
                f = 0;
                letter = false;
            } else {
                return None;
            }
        } else if 49 <= c && c <= 56 {
            let n: i8 = (c - 48) as i8;
            if f + n <= 8 {
                f = f + n;
                letter = false;
            } else {
                return None;
            }
        } else if c == 126 {
            if letter {
                let sq = Square::new((f - 1 + 8 * r) as u8);
                let ghost old_board = board;
                board.promoted = board.promoted.with(sq);
                letter = false;
                proof {
                    broadcast use group_bitboard;

                    old_board.lemma_occupied(sq.idx());
                    assert forall|s: int| board.square_ok(s) by {
                        assert(old_board.square_ok(s));
                    }
                }
            } else {
                return None;
            }
        } else {
            match Piece::from_char(c as char) {
                Some(p) => {
                    if f < 8 {
                        let sq = Square::new((f + 8 * r) as u8);
                        board.set_piece_at(sq, p, false);
                        f = f + 1;
                        letter = true;
                    } else {
                        return None;
                    }
                },
                None => {
                    return None;
                },
            }
        }
        i = i + 1;
    }
    proof {
        reveal(parse_placement);
        assert(t@.subrange(i as int, t.len() as int) =~= Seq::<u8>::empty());
    }
    if r == 0 && f == 8 {
        Some(board)
    } else {
        None
    }
}

/// The board `acc` with the pieces of `board` on rank `r` from file `f` on set upon it,
/// marked as promoted where `board` marks them and `marks` says so.
pub open spec fn copy_rank(acc: Board, board: Board, marks: bool, r: int, f: int) -> Board
    decreases 8 - f,
{
    if f >= 8 {
        acc
    } else {
        match board.piece_at_spec(at(f, r)) {
            None => copy_rank(acc, board, marks, r, f + 1),
            Some(p) => {
                let put = acc.put_spec(at(f, r), p, false);
                let marked = if marks && board.promoted.has(at(f, r)) {
                    Board { promoted: put.promoted.with_spec(at(f, r)), ..put }
                } else {
                    put
                };
                copy_rank(marked, board, marks, r, f + 1)
            },
        }
    }
}

/// The board `acc` with the pieces of `board` on the ranks from `r` down to the first set
/// upon it.
pub open spec fn copy_ranks(acc: Board, board: Board, marks: bool, r: int) -> Board
    decreases r,
{
    if r <= 0 {
        copy_rank(acc, board, marks, 0, 0)
    } else {
        copy_ranks(copy_rank(acc, board, marks, r, 0), board, marks, r - 1)
    }
}

/// The letter of a piece is no digit, stroke or mark, and names the piece.
proof fn lemma_piece_letter(p: Piece)
    ensures
        piece_letter(p) != 47,
        !(49 <= piece_letter(p) <= 56),
        piece_letter(p) != 126,
        piece_letter(p) != 32,
        piece_letter(p) != 91,
        letter_piece(piece_letter(p)) == Some(p),
{
    crate::types::lemma_piece_char_round_trip(p);
}

/// Reading a digit skips that many squares.
proof fn lemma_read_digit(t: Seq<u8>, r: int, f: int, letter: bool, acc: Board, n: int)
    requires
        t.len() > 0,
        1 <= n <= 8,
        t[0] == (48 + n) as u8,
        f + n <= 8,
    ensures
        parse_placement(t, r, f, letter, acc) == parse_placement(
            t.drop_first(),
            r,
            f + n,
            false,
            acc,
        ),
{
    reveal(parse_placement);
}

/// Reading the letter of a piece sets the piece.
proof fn lemma_read_letter(t: Seq<u8>, r: int, f: int, letter: bool, acc: Board, p: Piece)
    requires
        t.len() > 0,
        t[0] == piece_letter(p),
        f < 8,
    ensures
        parse_placement(t, r, f, letter, acc) == parse_placement(
            t.drop_first(),
            r,
            f + 1,
            true,
            acc.put_spec(at(f, r), p, false),
        ),
{
    reveal(parse_placement);
    lemma_piece_letter(p);
}

/// Reading the mark behind a letter marks the piece as promoted.
proof fn lemma_read_mark(t: Seq<u8>, r: int, f: int, acc: Board)
    requires
        t.len() > 0,
        t[0] == 126,
    ensures
        parse_placement(t, r, f, true, acc) == parse_placement(
            t.drop_first(),
            r,
            f,
            false,
            Board { promoted: acc.promoted.with_spec(at(f - 1, r)), ..acc },
        ),
{
    reveal(parse_placement);
}

/// At the end of a rank it does not matter whether a letter was read last.
proof fn lemma_read_end(t: Seq<u8>, r: int, letter: bool, acc: Board)
    requires
        t.len() == 0 || t[0] == 47,
    ensures
        parse_placement(t, r, 8, letter, acc) == parse_placement(t, r, 8, false, acc),
{
    reveal(parse_placement);
}

/// The digit that stands for a run of empty squares; nothing for no run.
pub open spec fn run_text(run: int) -> Seq<u8> {
    if run > 0 {
        seq![(48 + run) as u8]
    } else {
        Seq::<u8>::empty()
    }
}

/// The mark of a promoted piece, if it is to be written.
pub open spec fn mark_text(marked: bool) -> Seq<u8> {
    if marked {
        seq![126u8]
    } else {
        Seq::<u8>::empty()
    }
}

/// The board `acc` with the piece `p` set on the square `sq`, marked as promoted or not.
pub open spec fn set_marked(acc: Board, sq: int, p: Piece, marked: bool) -> Board {
    let put = acc.put_spec(sq, p, false);
    if marked {
        Board { promoted: put.promoted.with_spec(sq), ..put }
    } else {
        put
    }
}

/// Reading a run of empty squares, the letter of a piece and its mark sets the piece
/// behind the run.
proof fn lemma_read_piece(
    more: Seq<u8>,
    p: Piece,
    marked: bool,
    run: int,
    r: int,
    f: int,
    letter: bool,
    acc: Board,
)
    requires
        0 <= run <= f < 8,
    ensures
        parse_placement(
            run_text(run) + seq![piece_letter(p)] + mark_text(marked) + more,
            r,
            f - run,
            letter,
            acc,
        ) == parse_placement(more, r, f + 1, !marked, set_marked(acc, at(f, r), p, marked)),
{
    let t = run_text(run) + seq![piece_letter(p)] + mark_text(marked) + more;
    let t1 = seq![piece_letter(p)] + mark_text(marked) + more;
    let t2 = mark_text(marked) + more;
    let put = acc.put_spec(at(f, r), p, false);
    let l1 = if run > 0 {
        false
    } else {
        letter
    };
    if run > 0 {
        assert(t[0] == (48 + run) as u8);
        assert(t.drop_first() =~= t1);
        lemma_read_digit(t, r, f - run, letter, acc, run);
    } else {
        assert(t =~= t1);
    }
    assert(t1[0] == piece_letter(p));
    assert(t1.drop_first() =~= t2);
    lemma_read_letter(t1, r, f, l1, acc, p);
    if marked {
        assert(t2[0] == 126);
        assert(t2.drop_first() =~= more);
        lemma_read_mark(t2, r, f + 1, put);
    } else {
        assert(t2 =~= more);
    }
}

/// The text of the rest of a rank that begins with a piece.
proof fn lemma_rank_text_piece(board: Board, marks: bool, r: int, f: int, run: int, p: Piece)
    requires
        0 <= f < 8,
        board.piece_at_spec(at(f, r)) == Some(p),
    ensures
        rank_text(board, marks, r, f, run) == run_text(run) + seq![piece_letter(p)] + mark_text(
            marks && board.promoted.has(at(f, r)),
        ) + rank_text(board, marks, r, f + 1, 0),
{
}

/// Reading the text of the rest of a rank sets the pieces of that rest.
proof fn lemma_read_rank(
    board: Board,
    marks: bool,
    r: int,
    f: int,
    run: int,
    tail: Seq<u8>,
    letter: bool,
    acc: Board,
)
    requires
        0 <= r <= 7,
        0 <= run <= f <= 8,
        tail.len() == 0 || tail[0] == 47,
    ensures
        parse_placement(rank_text(board, marks, r, f, run) + tail, r, f - run, letter, acc)
            == parse_placement(tail, r, 8, false, copy_rank(acc, board, marks, r, f)),
    decreases 8 - f,
{
    let t = rank_text(board, marks, r, f, run) + tail;
    if f >= 8 {
        if run > 0 {
            assert(t[0] == (48 + run) as u8);
            assert(t.drop_first() =~= tail);
            lemma_read_digit(t, r, f - run, letter, acc, run);
        } else {
            assert(t =~= tail);
            lemma_read_end(tail, r, letter, acc);
        }
    } else {
        let here = board.piece_at_spec(at(f, r));
        if here is None {
            lemma_read_rank(board, marks, r, f + 1, run + 1, tail, letter, acc);
        } else {
            let p = here.unwrap();
            let marked = marks && board.promoted.has(at(f, r));
            let more = rank_text(board, marks, r, f + 1, 0);
            lemma_rank_text_piece(board, marks, r, f, run, p);
            let head = run_text(run) + seq![piece_letter(p)] + mark_text(marked);
            assert(t =~= head + (more + tail));
            lemma_read_piece(more + tail, p, marked, run, r, f, letter, acc);
            lemma_read_rank(
                board,
                marks,
                r,
                f + 1,
                0,
                tail,
                !marked,
                set_marked(acc, at(f, r), p, marked),
            );
        }
    }
}

/// Reading the text of the ranks from `r` down sets the pieces of those ranks.
proof fn lemma_read_ranks(board: Board, marks: bool, r: int, acc: Board)
    requires
        0 <= r <= 7,
    ensures
        parse_placement(ranks_text(board, marks, r), r, 0, false, acc) == Some(
            copy_ranks(acc, board, marks, r),
        ),
    decreases r,
{
    let line = rank_text(board, marks, r, 0, 0);
    reveal(parse_placement);
    if r <= 0 {
        lemma_read_rank(board, marks, 0, 0, 0, Seq::<u8>::empty(), false, acc);
        assert(line + Seq::<u8>::empty() =~= line);
    } else {
        let below = ranks_text(board, marks, r - 1);
        let tail = seq![47u8] + below;
        assert(ranks_text(board, marks, r) =~= line + tail);
        lemma_read_rank(board, marks, r, 0, 0, tail, false, acc);
        assert(tail[0] == 47);
        assert(tail.drop_first() =~= below);
        lemma_read_ranks(board, marks, r - 1, copy_rank(acc, board, marks, r, 0));
    }
}

/// What setting the rest of a rank upon a board makes of it.
proof fn lemma_copy_rank(acc: Board, board: Board, marks: bool, r: int, f: int)
    requires
        acc.wf(),
        0 <= r <= 7,
        0 <= f <= 8,
    ensures
        copy_rank(acc, board, marks, r, f).wf(),
        forall|s: int|
            #![trigger copy_rank(acc, board, marks, r, f).piece_at_spec(s)]
            copy_rank(acc, board, marks, r, f).piece_at_spec(s) == if on_board(s) && rank_of(s) == r
                && file_of(s) >= f && board.piece_at_spec(s) is Some {
                board.piece_at_spec(s)
            } else {
                acc.piece_at_spec(s)
            },
        forall|s: int|
            #![trigger copy_rank(acc, board, marks, r, f).promoted.has(s)]
            copy_rank(acc, board, marks, r, f).promoted.has(s) <==> if on_board(s) && rank_of(s)
                == r && file_of(s) >= f && board.piece_at_spec(s) is Some {
                marks && board.promoted.has(s)
            } else {
                acc.promoted.has(s)
            },
    decreases 8 - f,
{
    broadcast use group_bitboard;

    if f < 8 {
        let sq = at(f, r);
        match board.piece_at_spec(sq) {
            None => {
                lemma_copy_rank(acc, board, marks, r, f + 1);
            },
            Some(p) => {
                let put = acc.put_spec(sq, p, false);
                acc.lemma_put(sq, p, false);
                let marked = if marks && board.promoted.has(sq) {
                    Board { promoted: put.promoted.with_spec(sq), ..put }
                } else {
                    put
                };
                put.lemma_occupied(sq);
                assert forall|s: int| marked.square_ok(s) by {
                    assert(put.square_ok(s));
                }
                assert forall|s: int| marked.piece_at_spec(s) == put.piece_at_spec(s) by {}
                lemma_copy_rank(marked, board, marks, r, f + 1);
                let res = copy_rank(acc, board, marks, r, f);
                assert forall|s: int|
                    #![trigger res.piece_at_spec(s)]
                    res.piece_at_spec(s) == if on_board(s) && rank_of(s) == r && file_of(s) >= f
                        && board.piece_at_spec(s) is Some {
                        board.piece_at_spec(s)
                    } else {
                        acc.piece_at_spec(s)
                    } by {
                    assert(marked.piece_at_spec(s) == put.piece_at_spec(s));
                }
                assert forall|s: int|
                    #![trigger res.promoted.has(s)]
                    res.promoted.has(s) <==> if on_board(s) && rank_of(s) == r && file_of(s) >= f
                        && board.piece_at_spec(s) is Some {
                        marks && board.promoted.has(s)
                    } else {
                        acc.promoted.has(s)
                    } by {
                    assert(put.promoted.has(s) <==> (s != sq && acc.promoted.has(s)));
                }
            },
        }
    }
}

/// What setting the ranks from `r` down upon a board makes of it.
proof fn lemma_copy_ranks(acc: Board, board: Board, marks: bool, r: int)
    requires
        acc.wf(),
        0 <= r <= 7,
    ensures
        copy_ranks(acc, board, marks, r).wf(),
        forall|s: int|
            #![trigger copy_ranks(acc, board, marks, r).piece_at_spec(s)]
            copy_ranks(acc, board, marks, r).piece_at_spec(s) == if on_board(s) && rank_of(s) <= r
                && board.piece_at_spec(s) is Some {
                board.piece_at_spec(s)
            } else {
                acc.piece_at_spec(s)
            },
        forall|s: int|
            #![trigger copy_ranks(acc, board, marks, r).promoted.has(s)]
            copy_ranks(acc, board, marks, r).promoted.has(s) <==> if on_board(s) && rank_of(s) <= r
                && board.piece_at_spec(s) is Some {
                marks && board.promoted.has(s)
            } else {
                acc.promoted.has(s)
            },
    decreases r,
{
    lemma_copy_rank(acc, board, marks, r, 0);
    if r > 0 {
        let upper = copy_rank(acc, board, marks, r, 0);
        lemma_copy_ranks(upper, board, marks, r - 1);
        let res = copy_ranks(acc, board, marks, r);
        assert forall|s: int|
            #![trigger res.piece_at_spec(s)]
            res.piece_at_spec(s) == if on_board(s) && rank_of(s) <= r && board.piece_at_spec(s)
                is Some {
                board.piece_at_spec(s)
            } else {
                acc.piece_at_spec(s)
            } by {
            assert(upper.piece_at_spec(s) == if on_board(s) && rank_of(s) == r && file_of(s) >= 0
                && board.piece_at_spec(s) is Some {
                board.piece_at_spec(s)
            } else {
                acc.piece_at_spec(s)
            });
        }
        assert forall|s: int|
            #![trigger res.promoted.has(s)]
            res.promoted.has(s) <==> if on_board(s) && rank_of(s) <= r && board.piece_at_spec(s)
                is Some {
                marks && board.promoted.has(s)
            } else {
                acc.promoted.has(s)
            } by {
            assert(upper.promoted.has(s) <==> if on_board(s) && rank_of(s) == r && file_of(s) >= 0
                && board.piece_at_spec(s) is Some {
                marks && board.promoted.has(s)
            } else {
                acc.promoted.has(s)
            });
        }
    }
}

/// Writing a placement and reading the text back gives the placement, if the marks of
/// promoted pieces are written or there are none.
pub proof fn lemma_board_text_round_trip(board: Board, marks: bool)
    requires
        board.wf(),
        marks || board.promoted == Bitboard::empty_spec(),
    ensures
        parse_board_spec(board_text(board, marks)) == Some(board),
{
    broadcast use group_bitboard;

    let empty = Board::empty_spec();
    assert forall|s: int| empty.square_ok(s) by {}
    lemma_read_ranks(board, marks, 7, empty);
    lemma_copy_ranks(empty, board, marks, 7);
    let res = copy_ranks(empty, board, marks, 7);
    assert forall|s: int| on_board(s) implies res.piece_at_spec(s) == board.piece_at_spec(s) by {
        assert(empty.piece_at_spec(s) is None);
    }
    assert forall|s: int| on_board(s) implies (res.promoted.has(s) <==> board.promoted.has(s)) by {
        board.lemma_occupied(s);
        assert(board.square_ok(s));
    }
    res.lemma_ext(board);
}

} // verus!
