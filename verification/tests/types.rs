use shakmaty::square::Square;
use shakmaty::types::{CastlingSide, Color, Move, Piece, Role};

#[test]
fn square_coordinates() {
    let e4 = Square::from_coords(4, 3).unwrap();
    assert_eq!(e4.index(), 28);
    assert_eq!(e4.file(), 4);
    assert_eq!(e4.rank(), 3);
    assert_eq!(e4.file_char(), 'e');
    assert_eq!(e4.rank_char(), '4');
    assert_eq!(Square::from_coords(8, 0), None);
    assert_eq!(Square::from_coords(0, -1), None);
    assert_eq!(Square::from_index(63), Some(Square::new(63)));
    assert_eq!(Square::from_index(64), None);
    assert_eq!(Square::from_ascii(b"e4"), Some(e4));
    assert_eq!(Square::from_ascii(b"e9"), None);
    assert_eq!(Square::from_ascii(b"i1"), None);
    assert_eq!(Square::from_ascii(b"e"), None);
    assert_eq!(Square::from_ascii(b"E4"), None);
    let mut out = Vec::new();
    e4.write(&mut out);
    assert_eq!(out, b"e4");
}

#[test]
fn square_offset() {
    let e4 = Square::new(28);
    assert_eq!(e4.offset(8), Some(Square::new(36)));
    assert_eq!(e4.offset(-8), Some(Square::new(20)));
    assert_eq!(Square::new(60).offset(8), None);
    assert_eq!(Square::new(3).offset(-8), None);
    assert_eq!(Square::new(63).offset(0), Some(Square::new(63)));
}

#[test]
fn colors() {
    assert_eq!(Color::White.other(), Color::Black);
    assert_eq!(Color::Black.other(), Color::White);
    assert_eq!(Color::White.fold(1, 2), 1);
    assert_eq!(Color::Black.fold(1, 2), 2);
    assert_eq!(Color::from_bool(true), Color::White);
    assert_eq!(Color::from_bool(false), Color::Black);
    assert_eq!(Color::White.char(), 'w');
    assert_eq!(Color::Black.char(), 'b');
    assert!(Color::White.is_white());
    assert_eq!(Color::Black.queen(), Piece { color: Color::Black, role: Role::Queen });
}

#[test]
fn roles_and_pieces() {
    assert_eq!(Role::Knight.char(), 'n');
    assert_eq!(Role::Knight.upper_char(), 'N');
    assert_eq!(Role::from_char('q'), Some(Role::Queen));
    assert_eq!(Role::from_char('Q'), Some(Role::Queen));
    assert_eq!(Role::from_char('x'), None);
    assert_eq!(Role::Rook.of(Color::Black), Piece { color: Color::Black, role: Role::Rook });
    assert_eq!(Piece { color: Color::White, role: Role::King }.char(), 'K');
    assert_eq!(Piece { color: Color::Black, role: Role::Pawn }.char(), 'p');
    assert_eq!(Piece::from_char('B'), Some(Piece { color: Color::White, role: Role::Bishop }));
    assert_eq!(Piece::from_char('b'), Some(Piece { color: Color::Black, role: Role::Bishop }));
    assert_eq!(Piece::from_char('1'), None);
    for color in [Color::White, Color::Black] {
        for role in [Role::Pawn, Role::Knight, Role::Bishop, Role::Rook, Role::Queen, Role::King] {
            let piece = Piece { color, role };
            assert_eq!(Piece::from_char(piece.char()), Some(piece));
        }
    }
}

#[test]
fn castling_sides() {
    assert_eq!(CastlingSide::from_king_side(true), CastlingSide::KingSide);
    assert_eq!(CastlingSide::from_king_side(false), CastlingSide::QueenSide);
    assert_eq!(CastlingSide::KingSide.king_to_file(), 6);
    assert_eq!(CastlingSide::KingSide.rook_to_file(), 5);
    assert_eq!(CastlingSide::QueenSide.king_to_file(), 2);
    assert_eq!(CastlingSide::QueenSide.rook_to_file(), 3);
}

#[test]
fn move_kinds() {
    let ep = Move::EnPassant { from: Square::new(36), to: Square::new(43) };
    assert!(ep.is_en_passant());
    assert!(!ep.is_castle());
    let castle = Move::Castle { king: Square::new(4), rook: Square::new(7) };
    assert!(castle.is_castle());
    assert!(!Move::Null.is_en_passant());
}
