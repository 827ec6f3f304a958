//! Squares of the board and their coordinates.

use vstd::prelude::*;

verus! {

/// Whether `s` is the index of a square.
pub open spec fn on_board(s: int) -> bool {
    0 <= s < 64
}

/// The file (0 for the a-file, 7 for the h-file) of the square with index `s`.
pub open spec fn file_of(s: int) -> int {
    s % 8
}

/// The rank (0 for the first rank, 7 for the eighth) of the square with index `s`.
pub open spec fn rank_of(s: int) -> int {
    s / 8
}

/// The index of the square on file `f` and rank `r`.
pub open spec fn at(f: int, r: int) -> int {
    f + 8 * r
}

/// Whether `f` and `r` are the coordinates of a square.
pub open spec fn coords_on_board(f: int, r: int) -> bool {
    0 <= f < 8 && 0 <= r < 8
}

/// The distance of two numbers.
pub open spec fn abs_diff(a: int, b: int) -> int {
    if a < b {
        b - a
    } else {
        a - b
    }
}

/// The Chebyshev distance of two squares: the number of king steps from one to the other.
pub open spec fn distance_spec(a: int, b: int) -> int {
    let df = abs_diff(file_of(a), file_of(b));
    let dr = abs_diff(rank_of(a), rank_of(b));
    if df < dr {
        dr
    } else {
        df
    }
}

/// The two characters that name the square with index `s`, file letter first.
pub open spec fn square_text(s: int) -> Seq<u8> {
    seq![(97 + file_of(s)) as u8, (49 + rank_of(s)) as u8]
}

/// The square that two characters name, if they name one.
pub open spec fn parse_square_spec(t: Seq<u8>) -> Option<Square> {
    if t.len() == 2 && 97 <= t[0] <= 104 && 49 <= t[1] <= 56 {
        Some(Square((t[0] - 97 + 8 * (t[1] - 49)) as u8))
    } else {
        None
    }
}

/// A square of the board, by its index: a1 is 0, b1 is 1, h8 is 63.
#[derive(Clone, Copy, Debug, PartialEq, Eq, Hash, PartialOrd, Ord, Structural)]
pub struct Square(pub u8);

impl Square {
    /// The index as a mathematical integer.
    pub open spec fn idx(self) -> int {
        self.0 as int
    }

    /// The invariant of the type: the index is below 64.
    pub open spec fn wf(self) -> bool {
        self.0 < 64
    }

    /// The file of the square, 0 for the a-file.
    pub open spec fn file_spec(self) -> int {
        file_of(self.idx())
    }

    /// The rank of the square, 0 for the first rank.
    pub open spec fn rank_spec(self) -> int {
        rank_of(self.idx())
    }

    /// The square with the given index.
    pub fn new(index: u8) -> (sq: Square)
        requires
            index < 64,
        ensures
            sq.0 == index,
            sq.wf(),
    {
        Square(index)
    }

    /// The square with the given index, or nothing if the index is 64 or more.
    pub fn from_index(index: u8) -> (r: Option<Square>)
        ensures
            r == if index < 64 {
                Some(Square(index))
            } else {
                None::<Square>
            },
    {
        if index < 64 {
            Some(Square(index))
        } else {
            None
        }
    }

    /// The square on the given file and rank, or nothing if either is off the board.
    pub fn from_coords(file: i8, rank: i8) -> (r: Option<Square>)
        ensures
            r == if coords_on_board(file as int, rank as int) {
                Some(Square(at(file as int, rank as int) as u8))
            } else {
                None::<Square>
            },
            r is Some ==> r.unwrap().wf(),
    {
        if 0 <= file && file < 8 && 0 <= rank && rank < 8 {
            Some(Square((file + 8 * rank) as u8))
        } else {
            None
        }
    }

    /// The index of the square.
    pub fn index(self) -> (i: u8)
        ensures
            i == self.0,
    {
        self.0
    }

    /// The file of the square, 0 for the a-file.
    pub fn file(self) -> (f: i8)
        requires
            self.wf(),
        ensures
            f == self.file_spec(),
            0 <= f < 8,
    {
        (self.0 % 8) as i8
    }

    /// The rank of the square, 0 for the first rank.
    pub fn rank(self) -> (r: i8)
        requires
            self.wf(),
        ensures
            r == self.rank_spec(),
            0 <= r < 8,
    {
        (self.0 / 8) as i8
    }

    /// The letter of the square's file, `a` to `h`.
    pub fn file_char(self) -> (c: char)
        requires
            self.wf(),
        ensures
            c as int == 97 + self.file_spec(),
    {
        (97 + self.0 % 8) as char
    }

    /// The digit of the square's rank, `1` to `8`.
    pub fn rank_char(self) -> (c: char)
        requires
            self.wf(),
        ensures
            c as int == 49 + self.rank_spec(),
    {
        (49 + self.0 / 8) as char
    }

    /// The square `delta` indices further on, or nothing if that leaves the board.
    pub fn offset(self, delta: i8) -> (r: Option<Square>)
        requires
            self.wf(),
        ensures
            r == if on_board(self.idx() + delta) {
                Some(Square((self.idx() + delta) as u8))
            } else {
                None::<Square>
            },
            r is Some ==> r.unwrap().wf(),
    {
        let target: i16 = self.0 as i16 + delta as i16;
        if 0 <= target && target < 64 {
            Some(Square(target as u8))
        } else {
            None
        }
    }

    /// Reads a square from its two-character name.
    pub fn from_ascii(text: &[u8]) -> (r: Option<Square>)
        ensures
            r == parse_square_spec(text@),
            r is Some ==> r.unwrap().wf(),
    {
        if text.len() != 2 {
            return None;
        }
        let f: u8 = text[0];
        let r: u8 = text[1];
        if 97 <= f && f <= 104 && 49 <= r && r <= 56 {
            Some(Square(f - 97 + 8 * (r - 49)))
        } else {
            None
        }
    }

    /// Appends the square's two-character name to `out`.
    pub fn write(self, out: &mut Vec<u8>)
        requires
            self.wf(),
        ensures
            final(out)@ == old(out)@ + square_text(self.idx()),
    {
        out.push(97 + self.0 % 8);
        out.push(49 + self.0 / 8);
        assert(out@ =~= old(out)@ + square_text(self.idx()));
    }
}

/// The Chebyshev distance of two squares.
pub fn distance(a: Square, b: Square) -> (d: i8)
    requires
        a.wf(),
        b.wf(),
    ensures
        d == distance_spec(a.idx(), b.idx()),
        0 <= d < 8,
{
    let fa: i8 = a.file();
    let fb: i8 = b.file();
    let ra: i8 = a.rank();
    let rb: i8 = b.rank();
    let df: i8 = if fa < fb { fb - fa } else { fa - fb };
    let dr: i8 = if ra < rb { rb - ra } else { ra - rb };
    if df < dr {
        dr
    } else {
        df
    }
}

/// The difference of the indices of two squares, `a` minus `b`.
pub fn delta(a: Square, b: Square) -> (d: i8)
    requires
        a.wf(),
        b.wf(),
    ensures
        d == a.idx() - b.idx(),
{
    a.0 as i8 - b.0 as i8
}

/// Naming a square and reading the name back gives the square.
pub proof fn lemma_square_text_round_trip(sq: Square)
    requires
        sq.wf(),
    ensures
        parse_square_spec(square_text(sq.idx())) == Some(sq),
{
}

} // verus!
