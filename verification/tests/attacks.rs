use shakmaty::attacks::{
    aligned, attacks, between, bishop_attacks, king_attacks, knight_attacks, on_line, pawn_attacks,
    queen_attacks, ray, ray_attacks, rook_attacks,
};
use shakmaty::bitboard::Bitboard;
use shakmaty::square::{delta, distance, Square};
use shakmaty::types::{Color, Piece, Role};

fn sq(name: &str) -> Square {
    Square::from_ascii(name.as_bytes()).unwrap()
}

fn set(names: &[&str]) -> Bitboard {
    let mut b = Bitboard::empty();
    for n in names {
        b.insert(sq(n));
    }
    b
}

#[test]
fn king_attacks_in_corner_and_center() {
    assert_eq!(king_attacks(sq("a1")), set(&["a2", "b1", "b2"]));
    assert_eq!(king_attacks(sq("h8")), set(&["g8", "g7", "h7"]));
    assert_eq!(king_attacks(sq("e4")), set(&["d3", "e3", "f3", "d4", "f4", "d5", "e5", "f5"]));
}

#[test]
fn knight_attacks_in_corner_and_center() {
    assert_eq!(knight_attacks(sq("a1")), set(&["b3", "c2"]));
    assert_eq!(knight_attacks(sq("g1")), set(&["e2", "f3", "h3"]));
    assert_eq!(
        knight_attacks(sq("d4")),
        set(&["b3", "b5", "c2", "c6", "e2", "e6", "f3", "f5"])
    );
}

#[test]
fn pawn_attacks_by_color() {
    assert_eq!(pawn_attacks(Color::White, sq("e4")), set(&["d5", "f5"]));
    assert_eq!(pawn_attacks(Color::Black, sq("e4")), set(&["d3", "f3"]));
    assert_eq!(pawn_attacks(Color::White, sq("a2")), set(&["b3"]));
    assert_eq!(pawn_attacks(Color::White, sq("h7")), set(&["g8"]));
    // No square lies before a pawn on the last rank.
    assert_eq!(pawn_attacks(Color::White, sq("e8")), Bitboard::empty());
    assert_eq!(pawn_attacks(Color::Black, sq("e1")), Bitboard::empty());
}

#[test]
fn rook_attacks_stop_at_the_first_piece() {
    let occ = set(&["d6", "f4", "d2", "a4"]);
    assert_eq!(
        rook_attacks(sq("d4"), occ),
        set(&["d5", "d6", "e4", "f4", "d3", "d2", "c4", "b4", "a4"])
    );
    assert_eq!(rook_attacks(sq("a1"), Bitboard::empty()).count(), 14);
    // The square of the rook itself does not count.
    assert!(!rook_attacks(sq("d4"), set(&["d4"])).contains(sq("d4")));
}

#[test]
fn bishop_and_queen_attacks() {
    let occ = set(&["f6", "b2"]);
    assert_eq!(
        bishop_attacks(sq("d4"), occ),
        set(&["e5", "f6", "c3", "b2", "c5", "b6", "a7", "e3", "f2", "g1"])
    );
    assert_eq!(bishop_attacks(sq("a1"), Bitboard::empty()).count(), 7);
    assert_eq!(
        queen_attacks(sq("d4"), occ),
        rook_attacks(sq("d4"), occ).union(bishop_attacks(sq("d4"), occ))
    );
    assert_eq!(queen_attacks(sq("d4"), Bitboard::empty()).count(), 27);
    let queen = Piece { color: Color::White, role: Role::Queen };
    assert_eq!(attacks(sq("d4"), queen, occ), queen_attacks(sq("d4"), occ));
    let pawn = Piece { color: Color::Black, role: Role::Pawn };
    assert_eq!(attacks(sq("d4"), pawn, occ), set(&["c3", "e3"]));
}

#[test]
fn ray_attacks_in_one_direction() {
    assert_eq!(ray_attacks(sq("a1"), Bitboard::empty(), 1, 1).count(), 7);
    assert_eq!(ray_attacks(sq("a1"), set(&["c3"]), 1, 1), set(&["b2", "c3"]));
    assert_eq!(ray_attacks(sq("a1"), Bitboard::empty(), -1, 0), Bitboard::empty());
}

#[test]
fn between_and_ray() {
    assert_eq!(between(sq("a1"), sq("a4")), set(&["a2", "a3"]));
    assert_eq!(between(sq("a4"), sq("a1")), set(&["a2", "a3"]));
    assert_eq!(between(sq("a1"), sq("d4")), set(&["b2", "c3"]));
    assert_eq!(between(sq("h1"), sq("e4")), set(&["g2", "f3"]));
    assert_eq!(between(sq("a1"), sq("b1")), Bitboard::empty());
    assert_eq!(between(sq("a1"), sq("b3")), Bitboard::empty());
    assert_eq!(between(sq("a1"), sq("a1")), Bitboard::empty());
    assert_eq!(ray(sq("b2"), sq("d4")), set(&["a1", "b2", "c3", "d4", "e5", "f6", "g7", "h8"]));
    assert_eq!(ray(sq("e1"), sq("e8")), Bitboard::file(4));
    assert_eq!(ray(sq("a3"), sq("c3")), Bitboard::rank(2));
    assert_eq!(ray(sq("a1"), sq("b3")), Bitboard::empty());
    assert_eq!(ray(sq("a1"), sq("a1")), Bitboard::empty());
}

#[test]
fn aligned_squares() {
    assert!(aligned(sq("a1"), sq("c3"), sq("h8")));
    assert!(aligned(sq("e1"), sq("e4"), sq("e8")));
    assert!(aligned(sq("a1"), sq("c3"), sq("a1")));
    assert!(!aligned(sq("a1"), sq("c3"), sq("h7")));
    assert!(!aligned(sq("a1"), sq("b3"), sq("c5")));
    assert!(!aligned(sq("a1"), sq("a1"), sq("a1")));
    assert!(on_line(sq("a1"), sq("h8")));
    assert!(on_line(sq("a1"), sq("a8")));
    assert!(!on_line(sq("a1"), sq("b3")));
    assert!(!on_line(sq("a1"), sq("a1")));
}

#[test]
fn distance_and_delta() {
    assert_eq!(distance(sq("a1"), sq("h8")), 7);
    assert_eq!(distance(sq("e2"), sq("e4")), 2);
    assert_eq!(distance(sq("e4"), sq("e4")), 0);
    assert_eq!(distance(sq("b1"), sq("c3")), 2);
    assert_eq!(delta(sq("e4"), sq("e2")), 16);
    assert_eq!(delta(sq("a1"), sq("h8")), -63);
}
