//! Which squares a piece attacks, and the lines between squares.
//!
//! What is attacked is stated over the coordinates of the squares; the functions
//! compute the same sets by walking the board.

use vstd::prelude::*;
use crate::bitboard::{Bitboard, group_bitboard};
use crate::square::{Square, on_board, file_of, rank_of, coords_on_board, abs_diff, distance_spec};
use crate::types::{Color, Role, Piece};

verus! {

/// The sign of a number: 1, 0 or -1.
pub open spec fn sign(x: int) -> int {
    if x > 0 {
        1
    } else if x < 0 {
        -1
    } else {
        0
    }
}

/// The direction in which pawns of `color` advance: one rank up or one rank down.
pub open spec fn forward(color: Color) -> int {
    match color {
        Color::White => 1,
        Color::Black => -1,
    }
}

/// Whether a king on `a` attacks `b`: the squares touch.
pub open spec fn king_step(a: int, b: int) -> bool {
    on_board(a) && on_board(b) && a != b && abs_diff(file_of(a), file_of(b)) <= 1 && abs_diff(
        rank_of(a),
        rank_of(b),
    ) <= 1
}

/// Whether a knight on `a` attacks `b`.
pub open spec fn knight_step(a: int, b: int) -> bool {
    on_board(a) && on_board(b) && {
        let df = abs_diff(file_of(a), file_of(b));
        let dr = abs_diff(rank_of(a), rank_of(b));
        (df == 1 && dr == 2) || (df == 2 && dr == 1)
    }
}

/// Whether a pawn of `color` on `a` attacks `b`: one rank forward, one file aside.
pub open spec fn pawn_step(color: Color, a: int, b: int) -> bool {
    on_board(a) && on_board(b) && rank_of(b) == rank_of(a) + forward(color) && abs_diff(
        file_of(a),
        file_of(b),
    ) == 1
}

/// Whether two squares are on one rank.
pub open spec fn same_rank(a: int, b: int) -> bool {
    rank_of(a) == rank_of(b)
}

/// Whether two squares are on one file.
pub open spec fn same_file(a: int, b: int) -> bool {
    file_of(a) == file_of(b)
}

/// Whether two squares are on one diagonal that rises towards the h-file.
pub open spec fn same_diagonal(a: int, b: int) -> bool {
    file_of(a) - rank_of(a) == file_of(b) - rank_of(b)
}

/// Whether two squares are on one diagonal that falls towards the h-file.
pub open spec fn same_anti_diagonal(a: int, b: int) -> bool {
    file_of(a) + rank_of(a) == file_of(b) + rank_of(b)
}

/// Whether two different squares share a rank or a file.
pub open spec fn rook_line(a: int, b: int) -> bool {
    on_board(a) && on_board(b) && a != b && (same_rank(a, b) || same_file(a, b))
}

/// Whether two different squares share a diagonal.
pub open spec fn bishop_line(a: int, b: int) -> bool {
    on_board(a) && on_board(b) && a != b && (same_diagonal(a, b) || same_anti_diagonal(a, b))
}

/// Whether `y` lies strictly between `x` and `z`.
pub open spec fn strictly_inside(x: int, y: int, z: int) -> bool {
    (x < y && y < z) || (z < y && y < x)
}

/// Whether `c` lies strictly between `a` and `b` on a rank, file or diagonal that they share.
pub open spec fn between_spec(a: int, b: int, c: int) -> bool {
    on_board(a) && on_board(b) && on_board(c) && ((same_rank(a, b) && same_rank(a, c)
        && strictly_inside(file_of(a), file_of(c), file_of(b))) || (same_file(a, b) && same_file(
        a,
        c,
    ) && strictly_inside(rank_of(a), rank_of(c), rank_of(b))) || (same_diagonal(a, b)
        && same_diagonal(a, c) && strictly_inside(file_of(a), file_of(c), file_of(b))) || (
    same_anti_diagonal(a, b) && same_anti_diagonal(a, c) && strictly_inside(
        file_of(a),
        file_of(c),
        file_of(b),
    )))
}

/// Whether `c` lies on the rank, file or diagonal through the different squares `a` and `b`.
pub open spec fn ray_spec(a: int, b: int, c: int) -> bool {
    on_board(a) && on_board(b) && on_board(c) && a != b && ((same_rank(a, b) && same_rank(a, c))
        || (same_file(a, b) && same_file(a, c)) || (same_diagonal(a, b) && same_diagonal(a, c))
        || (same_anti_diagonal(a, b) && same_anti_diagonal(a, c)))
}

/// Whether no member of `occ` lies strictly between `a` and `b`.
pub open spec fn clear_path(a: int, b: int, occ: Bitboard) -> bool {
    forall|c: int| #![trigger occ.has(c)] between_spec(a, b, c) ==> !occ.has(c)
}

/// Whether a rook on `a` attacks `b` when the squares of `occ` are occupied.
pub open spec fn rook_attack(a: int, occ: Bitboard, b: int) -> bool {
    rook_line(a, b) && clear_path(a, b, occ)
}

/// Whether a bishop on `a` attacks `b` when the squares of `occ` are occupied.
pub open spec fn bishop_attack(a: int, occ: Bitboard, b: int) -> bool {
    bishop_line(a, b) && clear_path(a, b, occ)
}

/// Whether a piece on `a` attacks `b` when the squares of `occ` are occupied.
pub open spec fn piece_attack(piece: Piece, a: int, occ: Bitboard, b: int) -> bool {
    match piece.role {
        Role::Pawn => pawn_step(piece.color, a, b),
        Role::Knight => knight_step(a, b),
        Role::Bishop => bishop_attack(a, occ, b),
        Role::Rook => rook_attack(a, occ, b),
        Role::Queen => rook_attack(a, occ, b) || bishop_attack(a, occ, b),
        Role::King => king_step(a, b),
    }
}

/// Whether `t` lies in the direction (`df`, `dr`) from `a`, on a rank, file or diagonal.
pub open spec fn in_dir(a: int, df: int, dr: int, t: int) -> bool {
    on_board(a) && on_board(t) && a != t && sign(file_of(t) - file_of(a)) == df && sign(
        rank_of(t) - rank_of(a),
    ) == dr && (df != 0 && dr != 0 ==> abs_diff(file_of(t), file_of(a)) == abs_diff(
        rank_of(t),
        rank_of(a),
    ))
}

/// The coordinate `k` steps from `x` in direction `d`.
pub open spec fn step(x: int, d: int, k: int) -> int {
    if d > 0 {
        x + k
    } else if d < 0 {
        x - k
    } else {
        x
    }
}

proof fn lemma_in_dir_coords(a: int, df: int, dr: int, t: int)
    requires
        in_dir(a, df, dr, t),
    ensures
        distance_spec(a, t) >= 1,
        file_of(t) == step(file_of(a), df, distance_spec(a, t)),
        rank_of(t) == step(rank_of(a), dr, distance_spec(a, t)),
{
}

proof fn lemma_coords_in_dir(a: int, df: int, dr: int, n: int, t: int)
    requires
        on_board(a),
        on_board(t),
        -1 <= df <= 1,
        -1 <= dr <= 1,
        df != 0 || dr != 0,
        n >= 1,
        file_of(t) == step(file_of(a), df, n),
        rank_of(t) == step(rank_of(a), dr, n),
    ensures
        in_dir(a, df, dr, t),
        distance_spec(a, t) == n,
{
}

proof fn lemma_between_in_dir(a: int, df: int, dr: int, t: int, c: int)
    requires
        in_dir(a, df, dr, t),
    ensures
        between_spec(a, t, c) <==> (in_dir(a, df, dr, c) && distance_spec(a, c) < distance_spec(
            a,
            t,
        )),
{
}

/// What holds of the squares gathered after `k` steps in one direction, while no member of
/// `occ` has been met.
spec fn walked(a: int, df: int, dr: int, k: int, res: Bitboard, occ: Bitboard) -> bool {
    &&& on_board(a)
    &&& -1 <= df <= 1
    &&& -1 <= dr <= 1
    &&& (df != 0 || dr != 0)
    &&& 0 <= k <= 7
    &&& coords_on_board(step(file_of(a), df, k), step(rank_of(a), dr, k))
    &&& forall|t: int|
        #![trigger res.has(t)]
        res.has(t) <==> (in_dir(a, df, dr, t) && distance_spec(a, t) <= k)
    &&& forall|c: int|
        #![trigger occ.has(c)]
        in_dir(a, df, dr, c) && distance_spec(a, c) <= k ==> !occ.has(c)
}

/// What holds of the squares gathered when the walk is over.
spec fn reached(a: int, df: int, dr: int, res: Bitboard, occ: Bitboard) -> bool {
    forall|t: int|
        #![trigger res.has(t)]
        res.has(t) <==> (in_dir(a, df, dr, t) && clear_path(a, t, occ))
}

proof fn lemma_walk_ends_at_edge(a: int, df: int, dr: int, k: int, res: Bitboard, occ: Bitboard)
    requires
        walked(a, df, dr, k, res, occ),
        !coords_on_board(step(file_of(a), df, k) + df, step(rank_of(a), dr, k) + dr),
    ensures
        reached(a, df, dr, res, occ),
{
    assert forall|t: int| #![trigger res.has(t)] res.has(t) <==> (in_dir(a, df, dr, t)
        && clear_path(a, t, occ)) by {
        if in_dir(a, df, dr, t) {
            lemma_in_dir_coords(a, df, dr, t);
            assert(distance_spec(a, t) <= k);
            assert forall|c: int| between_spec(a, t, c) implies !occ.has(c) by {
                lemma_between_in_dir(a, df, dr, t, c);
            }
        }
    }
}

proof fn lemma_walk_step(
    a: int,
    df: int,
    dr: int,
    k: int,
    prev: Bitboard,
    res: Bitboard,
    occ: Bitboard,
    next: int,
)
    requires
        walked(a, df, dr, k, prev, occ),
        on_board(next),
        file_of(next) == step(file_of(a), df, k) + df,
        rank_of(next) == step(rank_of(a), dr, k) + dr,
        forall|t: int| #![trigger res.has(t)] res.has(t) <==> (prev.has(t) || t == next),
    ensures
        k + 1 <= 7,
        step(file_of(a), df, k + 1) == file_of(next),
        step(rank_of(a), dr, k + 1) == rank_of(next),
        !occ.has(next) ==> walked(a, df, dr, k + 1, res, occ),
        occ.has(next) ==> reached(a, df, dr, res, occ),
{
    lemma_coords_in_dir(a, df, dr, k + 1, next);
    assert forall|t: int| #![trigger res.has(t)] res.has(t) <==> (in_dir(a, df, dr, t)
        && distance_spec(a, t) <= k + 1) by {
        if in_dir(a, df, dr, t) {
            lemma_in_dir_coords(a, df, dr, t);
        }
    }
    if occ.has(next) {
        assert forall|t: int| #![trigger res.has(t)] res.has(t) <==> (in_dir(a, df, dr, t)
            && clear_path(a, t, occ)) by {
            if in_dir(a, df, dr, t) {
                lemma_in_dir_coords(a, df, dr, t);
                if distance_spec(a, t) <= k + 1 {
                    assert forall|c: int| between_spec(a, t, c) implies !occ.has(c) by {
                        lemma_between_in_dir(a, df, dr, t, c);
                    }
                } else {
                    lemma_between_in_dir(a, df, dr, t, next);
                    assert(between_spec(a, t, next));
                }
            }
        }
    } else {
        assert forall|c: int|
            #![trigger occ.has(c)]
            in_dir(a, df, dr, c) && distance_spec(a, c) <= k + 1 implies !occ.has(c) by {
            lemma_in_dir_coords(a, df, dr, c);
        }
    }
}

fn add_step(bb: Bitboard, sq: Square, df: i8, dr: i8) -> (res: Bitboard)
    requires
        sq.wf(),
        -2 <= df <= 2,
        -2 <= dr <= 2,
    ensures
        forall|t: int|
            #![trigger res.has(t)]
            res.has(t) <==> (bb.has(t) || (on_board(t) && file_of(t) == sq.file_spec() + df
                && rank_of(t) == sq.rank_spec() + dr)),
{
    broadcast use group_bitboard;

    match Square::from_coords(sq.file() + df, sq.rank() + dr) {
        Some(t) => bb.with(t),
        None => bb,
    }
}

/// The squares that a king on `sq` attacks.
pub fn king_attacks(sq: Square) -> (res: Bitboard)
    requires
        sq.wf(),
    ensures
        forall|t: int| #![trigger res.has(t)] res.has(t) <==> king_step(sq.idx(), t),
{
    let b0 = Bitboard::empty();
    let b1 = add_step(b0, sq, -1, -1);
    let b2 = add_step(b1, sq, 0, -1);
    let b3 = add_step(b2, sq, 1, -1);
    let b4 = add_step(b3, sq, -1, 0);
    let b5 = add_step(b4, sq, 1, 0);
    let b6 = add_step(b5, sq, -1, 1);
    let b7 = add_step(b6, sq, 0, 1);
    let b8 = add_step(b7, sq, 1, 1);
    proof {
        assert forall|t: int| #![trigger b8.has(t)] b8.has(t) <==> king_step(sq.idx(), t) by {
            Bitboard::lemma_empty(t);
            assert(b8.has(t) <==> b7.has(t) || (on_board(t) && file_of(t) == sq.file_spec() + 1
                && rank_of(t) == sq.rank_spec() + 1));
            assert(b7.has(t) <==> b6.has(t) || (on_board(t) && file_of(t) == sq.file_spec()
                && rank_of(t) == sq.rank_spec() + 1));
            assert(b6.has(t) <==> b5.has(t) || (on_board(t) && file_of(t) == sq.file_spec() - 1
                && rank_of(t) == sq.rank_spec() + 1));
            assert(b5.has(t) <==> b4.has(t) || (on_board(t) && file_of(t) == sq.file_spec() + 1
                && rank_of(t) == sq.rank_spec()));
            assert(b4.has(t) <==> b3.has(t) || (on_board(t) && file_of(t) == sq.file_spec() - 1
                && rank_of(t) == sq.rank_spec()));
            assert(b3.has(t) <==> b2.has(t) || (on_board(t) && file_of(t) == sq.file_spec() + 1
                && rank_of(t) == sq.rank_spec() - 1));
            assert(b2.has(t) <==> b1.has(t) || (on_board(t) && file_of(t) == sq.file_spec()
                && rank_of(t) == sq.rank_spec() - 1));
            assert(b1.has(t) <==> b0.has(t) || (on_board(t) && file_of(t) == sq.file_spec() - 1
                && rank_of(t) == sq.rank_spec() - 1));
        }
    }
    b8
}

/// The squares that a knight on `sq` attacks.
pub fn knight_attacks(sq: Square) -> (res: Bitboard)
    requires
        sq.wf(),
    ensures
        forall|t: int| #![trigger res.has(t)] res.has(t) <==> knight_step(sq.idx(), t),
{
    let b0 = Bitboard::empty();
    let b1 = add_step(b0, sq, -1, -2);
    let b2 = add_step(b1, sq, 1, -2);
    let b3 = add_step(b2, sq, -2, -1);
    let b4 = add_step(b3, sq, 2, -1);
    let b5 = add_step(b4, sq, -2, 1);
    let b6 = add_step(b5, sq, 2, 1);
    let b7 = add_step(b6, sq, -1, 2);
    let b8 = add_step(b7, sq, 1, 2);
    proof {
        assert forall|t: int| #![trigger b8.has(t)] b8.has(t) <==> knight_step(sq.idx(), t) by {
            Bitboard::lemma_empty(t);
            assert(b8.has(t) <==> b7.has(t) || (on_board(t) && file_of(t) == sq.file_spec() + 1
                && rank_of(t) == sq.rank_spec() + 2));
            assert(b7.has(t) <==> b6.has(t) || (on_board(t) && file_of(t) == sq.file_spec() - 1
                && rank_of(t) == sq.rank_spec() + 2));
            assert(b6.has(t) <==> b5.has(t) || (on_board(t) && file_of(t) == sq.file_spec() + 2
                && rank_of(t) == sq.rank_spec() + 1));
            assert(b5.has(t) <==> b4.has(t) || (on_board(t) && file_of(t) == sq.file_spec() - 2
                && rank_of(t) == sq.rank_spec() + 1));
            assert(b4.has(t) <==> b3.has(t) || (on_board(t) && file_of(t) == sq.file_spec() + 2
                && rank_of(t) == sq.rank_spec() - 1));
            assert(b3.has(t) <==> b2.has(t) || (on_board(t) && file_of(t) == sq.file_spec() - 2
                && rank_of(t) == sq.rank_spec() - 1));
            assert(b2.has(t) <==> b1.has(t) || (on_board(t) && file_of(t) == sq.file_spec() + 1
                && rank_of(t) == sq.rank_spec() - 2));
            assert(b1.has(t) <==> b0.has(t) || (on_board(t) && file_of(t) == sq.file_spec() - 1
                && rank_of(t) == sq.rank_spec() - 2));
        }
    }
    b8
}

/// The squares that a pawn of `color` on `sq` attacks.
pub fn pawn_attacks(color: Color, sq: Square) -> (res: Bitboard)
    requires
        sq.wf(),
    ensures
        forall|t: int| #![trigger res.has(t)] res.has(t) <==> pawn_step(color, sq.idx(), t),
{
    let dr: i8 = match color {
        Color::White => 1,
        Color::Black => -1,
    };
    let b0 = Bitboard::empty();
    let b1 = add_step(b0, sq, -1, dr);
    let b2 = add_step(b1, sq, 1, dr);
    proof {
        assert forall|t: int| #![trigger b2.has(t)] b2.has(t) <==> pawn_step(color, sq.idx(), t) by {
            Bitboard::lemma_empty(t);
            assert(b2.has(t) <==> b1.has(t) || (on_board(t) && file_of(t) == sq.file_spec() + 1
                && rank_of(t) == sq.rank_spec() + dr));
            assert(b1.has(t) <==> b0.has(t) || (on_board(t) && file_of(t) == sq.file_spec() - 1
                && rank_of(t) == sq.rank_spec() + dr));
        }
    }
    b2
}

/// The squares that a sliding piece on `sq` attacks in the direction (`df`, `dr`): every
/// square up to the first member of `occ`, that one included.
pub fn ray_attacks(sq: Square, occ: Bitboard, df: i8, dr: i8) -> (res: Bitboard)
    requires
        sq.wf(),
        -1 <= df <= 1,
        -1 <= dr <= 1,
        df != 0 || dr != 0,
    ensures
        forall|t: int|
            #![trigger res.has(t)]
            res.has(t) <==> (in_dir(sq.idx(), df as int, dr as int, t) && clear_path(
                sq.idx(),
                t,
                occ,
            )),
{
    let ghost a = sq.idx();
    let mut res = Bitboard::empty();
    let mut f: i8 = sq.file();
    let mut r: i8 = sq.rank();
    let mut k: i8 = 0;
    let mut going = true;
    proof {
        assert forall|t: int| #![trigger res.has(t)] !res.has(t) by {
            Bitboard::lemma_empty(t);
        }
    }
    while going
        invariant
            sq.wf(),
            a == sq.idx(),
            -1 <= df <= 1,
            -1 <= dr <= 1,
            0 <= k <= 7,
            f == step(file_of(a), df as int, k as int),
            r == step(rank_of(a), dr as int, k as int),
            going ==> walked(a, df as int, dr as int, k as int, res, occ),
            !going ==> reached(a, df as int, dr as int, res, occ),
        decreases
                8 - k + if going {
                    1int
                } else {
                    0int
                },
    {
        let ghost prev = res;
        match Square::from_coords(f + df, r + dr) {
            None => {
                going = false;
                proof {
                    lemma_walk_ends_at_edge(a, df as int, dr as int, k as int, res, occ);
                }
            },
            Some(next) => {
                res = res.with(next);
                proof {
                    assert forall|t: int| #![trigger res.has(t)] res.has(t) <==> (prev.has(t) || t
                        == next.idx()) by {
                        prev.lemma_with(next.idx(), t);
                    }
                    lemma_walk_step(a, df as int, dr as int, k as int, prev, res, occ, next.idx());
                }
                f = f + df;
                r = r + dr;
                k = k + 1;
                if occ.contains(next) {
                    going = false;
                }
            },
        }
    }
    res
}

/// The squares that a rook on `sq` attacks when the squares of `occ` are occupied.
pub fn rook_attacks(sq: Square, occ: Bitboard) -> (res: Bitboard)
    requires
        sq.wf(),
    ensures
        forall|t: int| #![trigger res.has(t)] res.has(t) <==> rook_attack(sq.idx(), occ, t),
{
    broadcast use group_bitboard;

    let n = ray_attacks(sq, occ, 0, 1);
    let s = ray_attacks(sq, occ, 0, -1);
    let e = ray_attacks(sq, occ, 1, 0);
    let w = ray_attacks(sq, occ, -1, 0);
    n.union(s).union(e).union(w)
}

/// The squares that a bishop on `sq` attacks when the squares of `occ` are occupied.
pub fn bishop_attacks(sq: Square, occ: Bitboard) -> (res: Bitboard)
    requires
        sq.wf(),
    ensures
        forall|t: int| #![trigger res.has(t)] res.has(t) <==> bishop_attack(sq.idx(), occ, t),
{
    broadcast use group_bitboard;

    let ne = ray_attacks(sq, occ, 1, 1);
    let nw = ray_attacks(sq, occ, -1, 1);
    let se = ray_attacks(sq, occ, 1, -1);
    let sw = ray_attacks(sq, occ, -1, -1);
    ne.union(nw).union(se).union(sw)
}

/// The squares that a queen on `sq` attacks when the squares of `occ` are occupied.
pub fn queen_attacks(sq: Square, occ: Bitboard) -> (res: Bitboard)
    requires
        sq.wf(),
    ensures
        forall|t: int|
            #![trigger res.has(t)]
            res.has(t) <==> (rook_attack(sq.idx(), occ, t) || bishop_attack(sq.idx(), occ, t)),
{
    broadcast use group_bitboard;

    rook_attacks(sq, occ).union(bishop_attacks(sq, occ))
}

/// The squares that `piece` on `sq` attacks when the squares of `occ` are occupied.
pub fn attacks(sq: Square, piece: Piece, occ: Bitboard) -> (res: Bitboard)
    requires
        sq.wf(),
    ensures
        forall|t: int| #![trigger res.has(t)] res.has(t) <==> piece_attack(piece, sq.idx(), occ, t),
{
    match piece.role {
        Role::Pawn => pawn_attacks(piece.color, sq),
        Role::Knight => knight_attacks(sq),
        Role::Bishop => bishop_attacks(sq, occ),
        Role::Rook => rook_attacks(sq, occ),
        Role::Queen => queen_attacks(sq, occ),
        Role::King => king_attacks(sq),
    }
}

fn sign_of(x: i8) -> (s: i8)
    ensures
        s == sign(x as int),
{
    if x > 0 {
        1
    } else if x < 0 {
        -1
    } else {
        0
    }
}

/// Whether two different squares share a rank, a file or a diagonal.
pub fn on_line(a: Square, b: Square) -> (r: bool)
    requires
        a.wf(),
        b.wf(),
    ensures
        r == (rook_line(a.idx(), b.idx()) || bishop_line(a.idx(), b.idx())),
{
    let df: i8 = b.file() - a.file();
    let dr: i8 = b.rank() - a.rank();
    (df != 0 || dr != 0) && (df == 0 || dr == 0 || df == dr || df == -dr)
}

/// The squares strictly between `a` and `b`, if the two share a rank, a file or a
/// diagonal; no square otherwise.
pub fn between(a: Square, b: Square) -> (res: Bitboard)
    requires
        a.wf(),
        b.wf(),
    ensures
        forall|c: int| #![trigger res.has(c)] res.has(c) <==> between_spec(a.idx(), b.idx(), c),
{
    broadcast use group_bitboard;

    if !on_line(a, b) {
        Bitboard::empty()
    } else {
        let df = sign_of(b.file() - a.file());
        let dr = sign_of(b.rank() - a.rank());
        let reach = ray_attacks(a, Bitboard::from_square(b), df, dr);
        let res = reach.without(b);
        proof {
            let occ = Bitboard::single(b.idx());
            assert(in_dir(a.idx(), df as int, dr as int, b.idx()));
            assert forall|c: int| res.has(c) <==> between_spec(a.idx(), b.idx(), c) by {
                lemma_between_in_dir(a.idx(), df as int, dr as int, b.idx(), c);
                if in_dir(a.idx(), df as int, dr as int, c) {
                    lemma_between_in_dir(a.idx(), df as int, dr as int, c, b.idx());
                    if distance_spec(a.idx(), c) <= distance_spec(a.idx(), b.idx()) {
                        assert forall|x: int| between_spec(a.idx(), c, x) implies !occ.has(x) by {
                            lemma_between_in_dir(a.idx(), df as int, dr as int, c, x);
                        }
                        lemma_in_dir_coords(a.idx(), df as int, dr as int, c);
                        lemma_in_dir_coords(a.idx(), df as int, dr as int, b.idx());
                    } else {
                        assert(occ.has(b.idx()));
                    }
                }
            }
        }
        res
    }
}

/// The whole rank, file or diagonal through `a` and `b`, if the two are different and
/// share one; no square otherwise.
pub fn ray(a: Square, b: Square) -> (res: Bitboard)
    requires
        a.wf(),
        b.wf(),
    ensures
        forall|c: int| #![trigger res.has(c)] res.has(c) <==> ray_spec(a.idx(), b.idx(), c),
{
    broadcast use group_bitboard;

    if !on_line(a, b) {
        Bitboard::empty()
    } else {
        let df = sign_of(b.file() - a.file());
        let dr = sign_of(b.rank() - a.rank());
        let ahead = ray_attacks(a, Bitboard::empty(), df, dr);
        let behind = ray_attacks(a, Bitboard::empty(), -df, -dr);
        ahead.union(behind).with(a)
    }
}

/// Whether `c` lies on the rank, file or diagonal through the different squares `a` and `b`.
pub fn aligned(a: Square, b: Square, c: Square) -> (r: bool)
    requires
        a.wf(),
        b.wf(),
        c.wf(),
    ensures
        r == ray_spec(a.idx(), b.idx(), c.idx()),
{
    let fa = a.file();
    let ra = a.rank();
    let fb = b.file();
    let rb = b.rank();
    let fc = c.file();
    let rc = c.rank();
    (fa != fb || ra != rb) && ((ra == rb && ra == rc) || (fa == fb && fa == fc) || (fa - ra == fb
        - rb && fa - ra == fc - rc) || (fa + ra == fb + rb && fa + ra == fc + rc))
}

} // verus!
