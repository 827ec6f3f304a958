use shakmaty::bitboard::Bitboard;
use shakmaty::square::Square;
use shakmaty::types::Color;

fn sq(name: &str) -> Square {
    Square::from_ascii(name.as_bytes()).unwrap()
}

#[test]
fn insert_remove_and_membership() {
    let mut b = Bitboard::empty();
    assert!(b.is_empty());
    assert!(!b.any());
    b.insert(sq("e4"));
    assert!(b.contains(sq("e4")));
    assert!(!b.contains(sq("e5")));
    assert_eq!(b, Bitboard(1 << 28));
    b.flip(sq("a1"));
    assert_eq!(b, Bitboard((1 << 28) | 1));
    b.flip(sq("a1"));
    assert_eq!(b, Bitboard(1 << 28));
    assert!(b.remove(sq("e4")));
    assert!(!b.remove(sq("e4")));
    assert!(b.is_empty());
    let c = Bitboard::empty().with(sq("h8")).with(sq("a1")).without(sq("a1"));
    assert_eq!(c, Bitboard(1 << 63));
    let mut d = Bitboard::all();
    d.discard(sq("a1"));
    assert_eq!(d, Bitboard(!1));
    d.discard_all(Bitboard::rank(0));
    assert_eq!(d, Bitboard(!0xff));
    assert_eq!(Bitboard::from_square(sq("b1")), Bitboard(2));
}

#[test]
fn union_intersection_difference_complement() {
    let a = Bitboard(0b1100);
    let b = Bitboard(0b1010);
    assert_eq!(a.union(b), Bitboard(0b1110));
    assert_eq!(a.intersect(b), Bitboard(0b1000));
    assert_eq!(a.minus(b), Bitboard(0b0100));
    assert_eq!(a.complement(), Bitboard(!0b1100));
    assert_eq!(Bitboard::all().complement(), Bitboard::empty());
}

#[test]
fn count_first_last() {
    let b = Bitboard::empty().with(sq("c2")).with(sq("g7")).with(sq("a1"));
    assert_eq!(b.count(), 3);
    assert_eq!(b.first(), Some(sq("a1")));
    assert_eq!(b.last(), Some(sq("g7")));
    assert_eq!(Bitboard::empty().first(), None);
    assert_eq!(Bitboard::empty().last(), None);
    assert_eq!(Bitboard::empty().count(), 0);
    assert_eq!(Bitboard::all().count(), 64);
    assert_eq!(Bitboard::all().first(), Some(sq("a1")));
    assert_eq!(Bitboard::all().last(), Some(sq("h8")));
}

#[test]
fn exactly_one_and_more_than_one() {
    assert!(!Bitboard::empty().more_than_one());
    assert_eq!(Bitboard::empty().single_square(), None);
    let one = Bitboard::from_square(sq("d5"));
    assert!(!one.more_than_one());
    assert_eq!(one.single_square(), Some(sq("d5")));
    let two = one.with(sq("h8"));
    assert!(two.more_than_one());
    assert_eq!(two.single_square(), None);
}

#[test]
fn iteration_in_both_orders() {
    let b = Bitboard::empty().with(sq("h8")).with(sq("a1")).with(sq("e4"));
    assert_eq!(b.squares(), vec![sq("a1"), sq("e4"), sq("h8")]);
    assert_eq!(b.squares_rev(), vec![sq("h8"), sq("e4"), sq("a1")]);
    assert_eq!(Bitboard::empty().squares(), vec![]);
    assert_eq!(Bitboard::all().squares().len(), 64);
    let mut rest = b;
    assert_eq!(rest.pop_first(), Some(sq("a1")));
    assert_eq!(rest.pop_last(), Some(sq("h8")));
    assert_eq!(rest.pop_first(), Some(sq("e4")));
    assert_eq!(rest.pop_first(), None);
    assert_eq!(rest.pop_last(), None);
}

#[test]
fn ranks_and_files() {
    assert_eq!(Bitboard::rank(0), Bitboard(0xff));
    assert_eq!(Bitboard::rank(7), Bitboard(0xff00_0000_0000_0000));
    assert_eq!(Bitboard::file(0), Bitboard(0x0101_0101_0101_0101));
    assert_eq!(Bitboard::file(7), Bitboard(0x8080_8080_8080_8080));
    assert_eq!(Bitboard::relative_rank(Color::White, 0), Bitboard::rank(0));
    assert_eq!(Bitboard::relative_rank(Color::Black, 0), Bitboard::rank(7));
    assert_eq!(Bitboard::relative_rank(Color::White, 3), Bitboard::rank(3));
    assert_eq!(Bitboard::relative_rank(Color::Black, 3), Bitboard::rank(4));
}

#[test]
fn relative_shift_moves_forward() {
    let b = Bitboard::rank(1);
    assert_eq!(b.relative_shift(Color::White, 8), Bitboard::rank(2));
    assert_eq!(Bitboard::rank(6).relative_shift(Color::Black, 8), Bitboard::rank(5));
    // What leaves the board is dropped.
    assert_eq!(Bitboard::rank(7).relative_shift(Color::White, 8), Bitboard::empty());
    assert_eq!(Bitboard::rank(0).relative_shift(Color::Black, 8), Bitboard::empty());
    assert_eq!(b.relative_shift(Color::White, 0), b);
}
