//! Sets of squares, held as the bits of one 64-bit integer.

use vstd::prelude::*;
use vstd::std_specs::bits::*;
use crate::square::{Square, on_board, file_of, rank_of};
use crate::types::Color;

verus! {

/// A set of squares: the square with index `s` is a member exactly if bit `s` is set.
#[derive(Clone, Copy, Debug, PartialEq, Eq, Hash, Structural)]
pub struct Bitboard(pub u64);

impl Bitboard {
    /// Whether the square with index `s` is a member.
    pub open spec fn has(self, s: int) -> bool {
        0 <= s < 64 && (self.0 >> (s as u64)) & 1 == 1
    }

    /// The members, as a mathematical set of indices.
    pub open spec fn view(self) -> Set<int> {
        Set::new(|s: int| self.has(s))
    }

    /// The empty set.
    pub open spec fn empty_spec() -> Bitboard {
        Bitboard(0)
    }

    /// The set of all squares.
    pub open spec fn all_spec() -> Bitboard {
        Bitboard(0xffff_ffff_ffff_ffff)
    }

    /// Whether the set has no member.
    pub open spec fn is_empty_spec(self) -> bool {
        self.0 == 0
    }

    /// The set that holds the square `s` alone.
    pub open spec fn single(s: int) -> Bitboard {
        Bitboard(1u64 << (s as u64))
    }

    /// The set with the square `s` as a member.
    pub open spec fn with_spec(self, s: int) -> Bitboard {
        Bitboard(self.0 | (1u64 << (s as u64)))
    }

    /// The set without the square `s`.
    pub open spec fn without_spec(self, s: int) -> Bitboard {
        Bitboard(self.0 & !(1u64 << (s as u64)))
    }

    /// The set with the square `s` taken out if it is a member, and put in if it is none.
    pub open spec fn toggled_spec(self, s: int) -> Bitboard {
        Bitboard(self.0 ^ (1u64 << (s as u64)))
    }

    /// The squares that are members of this set or of `other`.
    pub open spec fn union_spec(self, other: Bitboard) -> Bitboard {
        Bitboard(self.0 | other.0)
    }

    /// The squares that are members of this set and of `other`.
    pub open spec fn intersect_spec(self, other: Bitboard) -> Bitboard {
        Bitboard(self.0 & other.0)
    }

    /// The members of this set that are no members of `other`.
    pub open spec fn minus_spec(self, other: Bitboard) -> Bitboard {
        Bitboard(self.0 & !other.0)
    }

    /// The squares that are no members.
    pub open spec fn complement_spec(self) -> Bitboard {
        Bitboard(!self.0)
    }

    /// Every member moved `n` indices up; what leaves the board is dropped.
    pub open spec fn shl_spec(self, n: int) -> Bitboard {
        Bitboard(self.0 << (n as u64))
    }

    /// Every member moved `n` indices down; what leaves the board is dropped.
    pub open spec fn shr_spec(self, n: int) -> Bitboard {
        Bitboard(self.0 >> (n as u64))
    }

    /// The squares of rank `r`.
    pub open spec fn rank_spec(r: int) -> Bitboard {
        Bitboard(0xffu64 << ((8 * r) as u64))
    }

    /// The squares of file `f`.
    pub open spec fn file_spec(f: int) -> Bitboard {
        Bitboard(0x0101_0101_0101_0101u64 << (f as u64))
    }

    /// The squares of the rank that is `r` ranks away from the back rank of `color`.
    pub open spec fn relative_rank_spec(color: Color, r: int) -> Bitboard {
        match color {
            Color::White => Bitboard::rank_spec(r),
            Color::Black => Bitboard::rank_spec(7 - r),
        }
    }

    /// Every member moved `n` indices forward, as `color` sees the board.
    pub open spec fn relative_shift_spec(self, color: Color, n: int) -> Bitboard {
        match color {
            Color::White => self.shl_spec(n),
            Color::Black => self.shr_spec(n),
        }
    }

    /// The member with the lowest index, if there is a member.
    pub open spec fn first_spec(self) -> Option<Square> {
        if self.0 == 0 {
            None
        } else {
            Some(Square(u64_trailing_zeros(self.0) as u8))
        }
    }

    /// The member with the highest index, if there is a member.
    pub open spec fn last_spec(self) -> Option<Square> {
        if self.0 == 0 {
            None
        } else {
            Some(Square((63 - u64_leading_zeros(self.0)) as u8))
        }
    }

    /// Whether `s` is the member with the lowest index.
    pub open spec fn is_lowest(self, s: int) -> bool {
        self.has(s) && forall|t: int| self.has(t) ==> s <= t
    }

    /// Whether `s` is the member with the highest index.
    pub open spec fn is_highest(self, s: int) -> bool {
        self.has(s) && forall|t: int| self.has(t) ==> t <= s
    }

    /// The number of members with an index below `n`.
    pub open spec fn count_below(self, n: int) -> nat
        decreases n,
    {
        if n <= 0 {
            0
        } else {
            self.count_below(n - 1) + if self.has(n - 1) {
                1nat
            } else {
                0nat
            }
        }
    }

    /// The number of members.
    pub open spec fn count_spec(self) -> nat {
        self.count_below(64)
    }

    /// Whether the set has two members or more.
    pub open spec fn more_than_one_spec(self) -> bool {
        exists|s: int, t: int| self.has(s) && self.has(t) && s != t
    }

    /// The empty set has no member.
    pub broadcast proof fn lemma_empty(t: int)
        ensures
            !#[trigger] Bitboard::empty_spec().has(t),
    {
        let tu = t as u64;
        assert((0u64 >> tu) & 1 == 0) by (bit_vector);
    }

    /// The set of all squares has every square of the board as a member.
    pub broadcast proof fn lemma_all(t: int)
        ensures
            #[trigger] Bitboard::all_spec().has(t) <==> on_board(t),
    {
        let tu = t as u64;
        assert(tu < 64 ==> (0xffff_ffff_ffff_ffffu64 >> tu) & 1 == 1) by (bit_vector);
    }

    /// The set of one square has that square as its one member.
    pub broadcast proof fn lemma_single(s: int, t: int)
        requires
            on_board(s),
        ensures
            #[trigger] Bitboard::single(s).has(t) <==> t == s,
    {
        let su = s as u64;
        let tu = t as u64;
        assert(su < 64 && tu < 64 ==> (((1u64 << su) >> tu) & 1 == 1 <==> tu == su))
            by (bit_vector);
    }

    /// Putting a square in adds that square and no other.
    pub broadcast proof fn lemma_with(self, s: int, t: int)
        requires
            on_board(s),
        ensures
            #[trigger] self.with_spec(s).has(t) <==> (self.has(t) || t == s),
    {
        let a = self.0;
        let su = s as u64;
        let tu = t as u64;
        assert(su < 64 && tu < 64 ==> (((a | (1u64 << su)) >> tu) & 1 == 1 <==> ((a >> tu) & 1 == 1
            || tu == su))) by (bit_vector);
    }

    /// Taking a square out takes out that square and no other.
    pub broadcast proof fn lemma_without(self, s: int, t: int)
        requires
            on_board(s),
        ensures
            #[trigger] self.without_spec(s).has(t) <==> (self.has(t) && t != s),
    {
        let a = self.0;
        let su = s as u64;
        let tu = t as u64;
        assert(su < 64 && tu < 64 ==> (((a & !(1u64 << su)) >> tu) & 1 == 1 <==> ((a >> tu) & 1 == 1
            && tu != su))) by (bit_vector);
    }

    /// Toggling a square changes the membership of that square and of no other.
    pub broadcast proof fn lemma_toggled(self, s: int, t: int)
        requires
            on_board(s),
        ensures
            #[trigger] self.toggled_spec(s).has(t) <==> (on_board(t) && (self.has(t) <==> t != s)),
    {
        let a = self.0;
        let su = s as u64;
        let tu = t as u64;
        assert(su < 64 && tu < 64 ==> (((a ^ (1u64 << su)) >> tu) & 1 == 1 <==> ((a >> tu) & 1 == 1
            <==> tu != su))) by (bit_vector);
    }

    /// A square is in a union exactly if it is in one of the two sets.
    pub broadcast proof fn lemma_union(self, other: Bitboard, t: int)
        ensures
            #[trigger] self.union_spec(other).has(t) <==> (self.has(t) || other.has(t)),
    {
        let a = self.0;
        let b = other.0;
        let tu = t as u64;
        assert(((a | b) >> tu) & 1 == 1 <==> ((a >> tu) & 1 == 1 || (b >> tu) & 1 == 1))
            by (bit_vector);
    }

    /// A square is in an intersection exactly if it is in both sets.
    pub broadcast proof fn lemma_intersect(self, other: Bitboard, t: int)
        ensures
            #[trigger] self.intersect_spec(other).has(t) <==> (self.has(t) && other.has(t)),
    {
        let a = self.0;
        let b = other.0;
        let tu = t as u64;
        assert(((a & b) >> tu) & 1 == 1 <==> ((a >> tu) & 1 == 1 && (b >> tu) & 1 == 1))
            by (bit_vector);
    }

    /// A square is in a difference exactly if it is in the first set and not in the second.
    pub broadcast proof fn lemma_minus(self, other: Bitboard, t: int)
        ensures
            #[trigger] self.minus_spec(other).has(t) <==> (self.has(t) && !other.has(t)),
    {
        let a = self.0;
        let b = other.0;
        let tu = t as u64;
        if on_board(t) {
            assert(((a & !b) >> tu) & 1 == 1 <==> ((a >> tu) & 1 == 1 && (b >> tu) & 1 != 1))
                by (bit_vector)
                requires
                    tu < 64,
            ;
        }
    }

    /// A square of the board is in the complement exactly if it is not in the set.
    pub broadcast proof fn lemma_complement(self, t: int)
        ensures
            #[trigger] self.complement_spec().has(t) <==> (on_board(t) && !self.has(t)),
    {
        let a = self.0;
        let tu = t as u64;
        if on_board(t) {
            assert(((!a) >> tu) & 1 == 1 <==> (a >> tu) & 1 != 1) by (bit_vector)
                requires
                    tu < 64,
            ;
        }
    }

    /// A square is in a set moved up by `n` exactly if the square `n` below it was in the
    /// set.
    pub broadcast proof fn lemma_shl(self, n: int, t: int)
        requires
            0 <= n < 64,
        ensures
            #[trigger] self.shl_spec(n).has(t) <==> (on_board(t) && self.has(t - n)),
    {
        let a = self.0;
        let nu = n as u64;
        let tu = t as u64;
        if on_board(t) {
            if t >= n {
                let du = (t - n) as u64;
                assert(nu < 64 && tu < 64 && tu >= nu && du == tu - nu ==> (((a << nu) >> tu) & 1
                    == (a >> du) & 1)) by (bit_vector);
            } else {
                assert(nu < 64 && tu < nu ==> ((a << nu) >> tu) & 1 == 0) by (bit_vector);
            }
        }
    }

    /// A square is in a set moved down by `n` exactly if the square `n` above it was in the
    /// set.
    pub broadcast proof fn lemma_shr(self, n: int, t: int)
        requires
            0 <= n < 64,
        ensures
            #[trigger] self.shr_spec(n).has(t) <==> (on_board(t) && self.has(t + n)),
    {
        let a = self.0;
        let nu = n as u64;
        let tu = t as u64;
        if on_board(t) {
            if t + n < 64 {
                let su = (t + n) as u64;
                assert(nu < 64 && tu < 64 && su == tu + nu && su < 64 ==> (((a >> nu) >> tu) & 1
                    == (a >> su) & 1)) by (bit_vector);
            } else {
                assert(nu < 64 && tu < 64 && tu + nu >= 64 ==> ((a >> nu) >> tu) & 1 == 0)
                    by (bit_vector);
            }
        }
    }

    /// The set of a rank holds the squares of that rank.
    pub broadcast proof fn lemma_rank(r: int, t: int)
        requires
            0 <= r < 8,
        ensures
            #[trigger] Bitboard::rank_spec(r).has(t) <==> (on_board(t) && rank_of(t) == r),
    {
        let ru = (8 * r) as u64;
        let tu = t as u64;
        if on_board(t) {
            assert(ru <= 56 && ru % 8 == 0 && tu < 64 ==> ((((0xffu64 << ru) >> tu) & 1 == 1) <==> tu
                / 8 == ru / 8)) by (bit_vector);
        }
    }

    /// The set of a file holds the squares of that file.
    pub broadcast proof fn lemma_file(f: int, t: int)
        requires
            0 <= f < 8,
        ensures
            #[trigger] Bitboard::file_spec(f).has(t) <==> (on_board(t) && file_of(t) == f),
    {
        let fu = f as u64;
        let tu = t as u64;
        if on_board(t) {
            assert(fu < 8 && tu < 64 ==> ((((0x0101_0101_0101_0101u64 << fu) >> tu) & 1 == 1) <==> tu
                % 8 == fu)) by (bit_vector);
        }
    }

    /// The set is empty exactly if no square is a member.
    pub proof fn lemma_is_empty(self)
        ensures
            self.is_empty_spec() <==> forall|t: int| !self.has(t),
    {
        let a = self.0;
        if a == 0 {
            assert forall|t: int| !self.has(t) by {
                Bitboard::lemma_empty(t);
            }
        } else {
            axiom_u64_trailing_zeros(a);
            assert(self.has(u64_trailing_zeros(a) as int));
        }
    }

    /// Two sets with the same members are equal.
    pub proof fn lemma_ext(self, other: Bitboard)
        requires
            forall|t: int| #![trigger self.has(t)] on_board(t) ==> (self.has(t) <==> other.has(t)),
        ensures
            self == other,
    {
        let a = self.0;
        let b = other.0;
        let x = a ^ b;
        if x != 0 {
            axiom_u64_trailing_zeros(x);
            let tu = u64_trailing_zeros(x) as u64;
            assert(tu < 64 && ((a ^ b) >> tu) & 1 == 1 ==> ((a >> tu) & 1 == 1 <==> !((b >> tu) & 1
                == 1))) by (bit_vector);
            assert(self.has(tu as int) <==> other.has(tu as int));
            assert(false);
        }
        assert(a ^ b == 0 ==> a == b) by (bit_vector);
    }

    /// Taking a member out makes the number that holds the set smaller.
    pub proof fn lemma_without_decreases(self, s: int)
        requires
            self.has(s),
        ensures
            self.without_spec(s).0 < self.0,
    {
        let a = self.0;
        let su = s as u64;
        assert(su < 64 && (a >> su) & 1 == 1 ==> (a & !(1u64 << su)) < a) by (bit_vector);
    }

    proof fn lemma_lowest(self)
        requires
            self.0 != 0,
        ensures
            u64_trailing_zeros(self.0) < 64,
            self.is_lowest(u64_trailing_zeros(self.0) as int),
    {
        let a = self.0;
        axiom_u64_trailing_zeros(a);
        let z = u64_trailing_zeros(a);
        assert forall|t: int| self.has(t) implies z <= t by {
            let tu = t as u64;
            if t < z {
                assert((a >> tu) & 1u64 == 0u64);
            }
        }
    }

    proof fn lemma_highest(self)
        requires
            self.0 != 0,
        ensures
            0 <= u64_leading_zeros(self.0) < 64,
            self.is_highest(63 - u64_leading_zeros(self.0)),
    {
        let a = self.0;
        axiom_u64_leading_zeros(a);
        let z = u64_leading_zeros(a);
        let hu = (63 - z) as u64;
        assert((a >> hu) & 1 != 0 ==> (a >> hu) & 1 == 1) by (bit_vector);
        assert forall|t: int| self.has(t) implies t <= 63 - z by {
            let tu = t as u64;
            if t > 63 - z {
                assert((a >> tu) & 1u64 == 0u64);
            }
        }
    }

    /// The first member is the lowest and the last the highest; a set has neither exactly
    /// if it is empty.
    pub proof fn lemma_first_last(self)
        ensures
            self.first_spec() is None <==> self.is_empty_spec(),
            self.last_spec() is None <==> self.is_empty_spec(),
            self.first_spec() is Some ==> self.first_spec().unwrap().wf() && self.is_lowest(
                self.first_spec().unwrap().idx(),
            ),
            self.last_spec() is Some ==> self.last_spec().unwrap().wf() && self.is_highest(
                self.last_spec().unwrap().idx(),
            ),
    {
        if self.0 != 0 {
            self.lemma_lowest();
            self.lemma_highest();
        }
    }

    /// The empty set.
    pub fn empty() -> (r: Bitboard)
        ensures
            r == Bitboard::empty_spec(),
    {
        Bitboard(0)
    }

    /// The set of all squares.
    pub fn all() -> (r: Bitboard)
        ensures
            r == Bitboard::all_spec(),
    {
        Bitboard(0xffff_ffff_ffff_ffff)
    }

    /// The set that holds `sq` alone.
    pub fn from_square(sq: Square) -> (r: Bitboard)
        requires
            sq.wf(),
        ensures
            r == Bitboard::single(sq.idx()),
    {
        Bitboard(1u64 << (sq.0 as u64))
    }

    /// The squares of rank `r`.
    pub fn rank(r: i8) -> (b: Bitboard)
        requires
            0 <= r < 8,
        ensures
            b == Bitboard::rank_spec(r as int),
    {
        Bitboard(0xffu64 << ((8 * r) as u64))
    }

    /// The squares of file `f`.
    pub fn file(f: i8) -> (b: Bitboard)
        requires
            0 <= f < 8,
        ensures
            b == Bitboard::file_spec(f as int),
    {
        Bitboard(0x0101_0101_0101_0101u64 << (f as u64))
    }

    /// The squares of the rank that is `r` ranks away from the back rank of `color`.
    pub fn relative_rank(color: Color, r: i8) -> (b: Bitboard)
        requires
            0 <= r < 8,
        ensures
            b == Bitboard::relative_rank_spec(color, r as int),
    {
        match color {
            Color::White => Bitboard::rank(r),
            Color::Black => Bitboard::rank(7 - r),
        }
    }

    /// Every member moved `n` indices forward, as `color` sees the board.
    pub fn relative_shift(self, color: Color, n: u8) -> (b: Bitboard)
        requires
            n < 64,
        ensures
            b == self.relative_shift_spec(color, n as int),
    {
        match color {
            Color::White => Bitboard(self.0 << (n as u64)),
            Color::Black => Bitboard(self.0 >> (n as u64)),
        }
    }

    /// Whether `sq` is a member.
    pub fn contains(self, sq: Square) -> (b: bool)
        requires
            sq.wf(),
        ensures
            b == self.has(sq.idx()),
    {
        (self.0 >> (sq.0 as u64)) & 1 == 1
    }

    /// Whether the set has no member.
    pub fn is_empty(self) -> (b: bool)
        ensures
            b == self.is_empty_spec(),
            b <==> forall|t: int| !self.has(t),
    {
        proof {
            self.lemma_is_empty();
        }
        self.0 == 0
    }

    /// Whether the set has a member.
    pub fn any(self) -> (b: bool)
        ensures
            b == !self.is_empty_spec(),
            b <==> exists|t: int| self.has(t),
    {
        proof {
            self.lemma_is_empty();
        }
        self.0 != 0
    }

    /// The set with `sq` as a member.
    pub fn with(self, sq: Square) -> (r: Bitboard)
        requires
            sq.wf(),
        ensures
            r == self.with_spec(sq.idx()),
    {
        Bitboard(self.0 | (1u64 << (sq.0 as u64)))
    }

    /// The set without `sq`.
    pub fn without(self, sq: Square) -> (r: Bitboard)
        requires
            sq.wf(),
        ensures
            r == self.without_spec(sq.idx()),
    {
        Bitboard(self.0 & !(1u64 << (sq.0 as u64)))
    }

    /// Makes `sq` a member.
    pub fn insert(&mut self, sq: Square)
        requires
            sq.wf(),
        ensures
            *final(self) == old(self).with_spec(sq.idx()),
    {
        self.0 = self.0 | (1u64 << (sq.0 as u64));
    }

    /// Takes `sq` out of the set.
    pub fn discard(&mut self, sq: Square)
        requires
            sq.wf(),
        ensures
            *final(self) == old(self).without_spec(sq.idx()),
    {
        self.0 = self.0 & !(1u64 << (sq.0 as u64));
    }

    /// Takes every member of `other` out of the set.
    pub fn discard_all(&mut self, other: Bitboard)
        ensures
            *final(self) == old(self).minus_spec(other),
    {
        self.0 = self.0 & !other.0;
    }

    /// Takes `sq` out of the set and says whether it was a member.
    pub fn remove(&mut self, sq: Square) -> (was: bool)
        requires
            sq.wf(),
        ensures
            was == old(self).has(sq.idx()),
            *final(self) == old(self).without_spec(sq.idx()),
    {
        let was = self.contains(sq);
        self.0 = self.0 & !(1u64 << (sq.0 as u64));
        was
    }

    /// Makes `sq` a member if it is none, and takes it out if it is one.
    pub fn flip(&mut self, sq: Square)
        requires
            sq.wf(),
        ensures
            *final(self) == old(self).toggled_spec(sq.idx()),
    {
        self.0 = self.0 ^ (1u64 << (sq.0 as u64));
    }

    /// The squares that are members of this set or of `other`.
    pub fn union(self, other: Bitboard) -> (r: Bitboard)
        ensures
            r == self.union_spec(other),
    {
        Bitboard(self.0 | other.0)
    }

    /// The squares that are members of this set and of `other`.
    pub fn intersect(self, other: Bitboard) -> (r: Bitboard)
        ensures
            r == self.intersect_spec(other),
    {
        Bitboard(self.0 & other.0)
    }

    /// The members of this set that are no members of `other`.
    pub fn minus(self, other: Bitboard) -> (r: Bitboard)
        ensures
            r == self.minus_spec(other),
    {
        Bitboard(self.0 & !other.0)
    }

    /// The squares that are no members.
    pub fn complement(self) -> (r: Bitboard)
        ensures
            r == self.complement_spec(),
    {
        Bitboard(!self.0)
    }

    /// The member with the lowest index, if there is a member.
    pub fn first(self) -> (r: Option<Square>)
        ensures
            r == self.first_spec(),
            r is None <==> self.is_empty_spec(),
            r is Some ==> r.unwrap().wf() && self.is_lowest(r.unwrap().idx()),
    {
        if self.0 == 0 {
            None
        } else {
            proof {
                self.lemma_lowest();
            }
            Some(Square(self.0.trailing_zeros() as u8))
        }
    }

    /// The member with the highest index, if there is a member.
    pub fn last(self) -> (r: Option<Square>)
        ensures
            r == self.last_spec(),
            r is None <==> self.is_empty_spec(),
            r is Some ==> r.unwrap().wf() && self.is_highest(r.unwrap().idx()),
    {
        if self.0 == 0 {
            None
        } else {
            proof {
                self.lemma_highest();
            }
            Some(Square((63 - self.0.leading_zeros()) as u8))
        }
    }

    /// Takes the member with the lowest index out of the set and returns it.
    pub fn pop_first(&mut self) -> (r: Option<Square>)
        ensures
            r is None <==> old(self).is_empty_spec(),
            r is None ==> *final(self) == *old(self),
            r is Some ==> r.unwrap().wf() && old(self).is_lowest(r.unwrap().idx()) && *final(self)
                == old(self).without_spec(r.unwrap().idx()) && final(self).0 < old(self).0,
    {
        match self.first() {
            None => None,
            Some(sq) => {
                proof {
                    self.lemma_without_decreases(sq.idx());
                }
                self.0 = self.0 & !(1u64 << (sq.0 as u64));
                Some(sq)
            },
        }
    }

    /// Takes the member with the highest index out of the set and returns it.
    pub fn pop_last(&mut self) -> (r: Option<Square>)
        ensures
            r is None <==> old(self).is_empty_spec(),
            r is None ==> *final(self) == *old(self),
            r is Some ==> r.unwrap().wf() && old(self).is_highest(r.unwrap().idx()) && *final(self)
                == old(self).without_spec(r.unwrap().idx()) && final(self).0 < old(self).0,
    {
        match self.last() {
            None => None,
            Some(sq) => {
                proof {
                    self.lemma_without_decreases(sq.idx());
                }
                self.0 = self.0 & !(1u64 << (sq.0 as u64));
                Some(sq)
            },
        }
    }

    /// Whether the set has two members or more.
    pub fn more_than_one(self) -> (b: bool)
        ensures
            b == self.more_than_one_spec(),
    {
        broadcast use Bitboard::lemma_without;

        match self.first() {
            None => {
                proof {
                    self.lemma_is_empty();
                }
                false
            },
            Some(sq) => {
                let rest = self.without(sq);
                proof {
                    rest.lemma_is_empty();
                    if rest.0 != 0 {
                        let t = choose|t: int| rest.has(t);
                        assert(self.has(sq.idx()) && self.has(t) && sq.idx() != t);
                    } else {
                        assert forall|s: int, t: int| self.has(s) && self.has(t) implies s == t by {
                            assert(!rest.has(s));
                            assert(!rest.has(t));
                        }
                    }
                }
                rest.0 != 0
            },
        }
    }

    /// The one member, if the set has exactly one.
    pub fn single_square(self) -> (r: Option<Square>)
        ensures
            r is Some <==> !self.is_empty_spec() && !self.more_than_one_spec(),
            r is Some ==> r.unwrap().wf() && self.has(r.unwrap().idx()),
            r is Some ==> forall|t: int| self.has(t) ==> t == r.unwrap().idx(),
    {
        if self.more_than_one() {
            None
        } else {
            self.first()
        }
    }

    /// The number of members.
    pub fn count(self) -> (n: u8)
        ensures
            n == self.count_spec(),
    {
        let mut n: u8 = 0;
        let mut i: u8 = 0;
        while i < 64
            invariant
                i <= 64,
                n == self.count_below(i as int),
                n <= i,
            decreases 64 - i,
        {
            if (self.0 >> (i as u64)) & 1 == 1 {
                n = n + 1;
            }
            i = i + 1;
        }
        n
    }

    /// The members, lowest index first.
    pub fn squares(self) -> (v: Vec<Square>)
        ensures
            forall|i: int| #![trigger v[i]] 0 <= i < v.len() ==> v[i].wf() && self.has(v[i].idx()),
            forall|i: int, j: int| 0 <= i < j < v.len() ==> v[i].idx() < v[j].idx(),
            forall|t: int| self.has(t) ==> exists|i: int| 0 <= i < v.len() && v[i].idx() == t,
    {
        let mut v: Vec<Square> = Vec::new();
        let mut rest = self;
        while rest.0 != 0
            invariant
                forall|i: int| #![trigger v[i]] 0 <= i < v.len() ==> v[i].wf() && self.has(v[i].idx()),
                forall|i: int, j: int| 0 <= i < j < v.len() ==> v[i].idx() < v[j].idx(),
                forall|i: int, t: int| 0 <= i < v.len() && rest.has(t) ==> v[i].idx() < t,
                forall|t: int| rest.has(t) ==> self.has(t),
                forall|t: int|
                    self.has(t) ==> rest.has(t) || exists|i: int|
                        0 <= i < v.len() && v[i].idx() == t,
            decreases rest.0,
        {
            broadcast use Bitboard::lemma_without;

            let ghost before = v@;
            let ghost rest_before = rest;
            let popped = rest.pop_first();
            let sq = popped.unwrap();
            v.push(sq);
            assert forall|t: int| self.has(t) implies rest.has(t) || exists|i: int|
                0 <= i < v.len() && v[i].idx() == t by {
                if t == sq.idx() {
                    assert(v[v.len() - 1].idx() == t);
                } else if !rest.has(t) {
                    assert(!rest_before.has(t));
                    let i = choose|i: int| 0 <= i < before.len() && before[i].idx() == t;
                    assert(v[i].idx() == t);
                }
            }
        }
        proof {
            rest.lemma_is_empty();
        }
        v
    }

    /// The members, highest index first.
    pub fn squares_rev(self) -> (v: Vec<Square>)
        ensures
            forall|i: int| #![trigger v[i]] 0 <= i < v.len() ==> v[i].wf() && self.has(v[i].idx()),
            forall|i: int, j: int| 0 <= i < j < v.len() ==> v[i].idx() > v[j].idx(),
            forall|t: int| self.has(t) ==> exists|i: int| 0 <= i < v.len() && v[i].idx() == t,
    {
        let mut v: Vec<Square> = Vec::new();
        let mut rest = self;
        while rest.0 != 0
            invariant
                forall|i: int| #![trigger v[i]] 0 <= i < v.len() ==> v[i].wf() && self.has(v[i].idx()),
                forall|i: int, j: int| 0 <= i < j < v.len() ==> v[i].idx() > v[j].idx(),
                forall|i: int, t: int| 0 <= i < v.len() && rest.has(t) ==> v[i].idx() > t,
                forall|t: int| rest.has(t) ==> self.has(t),
                forall|t: int|
                    self.has(t) ==> rest.has(t) || exists|i: int|
                        0 <= i < v.len() && v[i].idx() == t,
            decreases rest.0,
        {
            broadcast use Bitboard::lemma_without;

            let ghost before = v@;
            let ghost rest_before = rest;
            let popped = rest.pop_last();
            let sq = popped.unwrap();
            v.push(sq);
            assert forall|t: int| self.has(t) implies rest.has(t) || exists|i: int|
                0 <= i < v.len() && v[i].idx() == t by {
                if t == sq.idx() {
                    assert(v[v.len() - 1].idx() == t);
                } else if !rest.has(t) {
                    assert(!rest_before.has(t));
                    let i = choose|i: int| 0 <= i < before.len() && before[i].idx() == t;
                    assert(v[i].idx() == t);
                }
            }
        }
        proof {
            rest.lemma_is_empty();
        }
        v
    }
}

/// The facts that say which squares are members of a set built by one operation.
pub broadcast group group_bitboard {
    Bitboard::lemma_empty,
    Bitboard::lemma_all,
    Bitboard::lemma_single,
    Bitboard::lemma_with,
    Bitboard::lemma_without,
    Bitboard::lemma_toggled,
    Bitboard::lemma_union,
    Bitboard::lemma_intersect,
    Bitboard::lemma_minus,
    Bitboard::lemma_complement,
    Bitboard::lemma_shl,
    Bitboard::lemma_shr,
    Bitboard::lemma_rank,
    Bitboard::lemma_file,
}

} // verus!
