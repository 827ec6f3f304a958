use shakmaty::bitboard::Bitboard;
use shakmaty::board::Board;
use shakmaty::square::Square;
use shakmaty::types::{Color, Piece, Role};

fn sq(name: &str) -> Square {
    Square::from_ascii(name.as_bytes()).unwrap()
}

#[test]
fn initial_board() {
    let b = Board::initial();
    assert_eq!(b.piece_at(sq("e1")), Some(Color::White.king()));
    assert_eq!(b.piece_at(sq("d8")), Some(Color::Black.queen()));
    assert_eq!(b.piece_at(sq("a2")), Some(Color::White.pawn()));
    assert_eq!(b.piece_at(sq("e4")), None);
    assert_eq!(b.role_at(sq("g8")), Some(Role::Knight));
    assert_eq!(b.color_at(sq("g8")), Some(Color::Black));
    assert_eq!(b.occupied(), Bitboard(0xffff_0000_0000_ffff));
    assert_eq!(b.white(), Bitboard(0xffff));
    assert_eq!(b.pawns(), Bitboard(0x00ff_0000_0000_ff00));
    assert_eq!(b.by_role(Role::Rook), Bitboard(0x8100_0000_0000_0081));
    assert_eq!(b.by_color(Color::Black), Bitboard(0xffff_0000_0000_0000));
    assert_eq!(b.by_piece(Color::White.knight()), Bitboard(0x42));
    assert_eq!(b.king_of(Color::White), Some(sq("e1")));
    assert_eq!(b.king_of(Color::Black), Some(sq("e8")));
    assert_eq!(b.sliders().count(), 10);
    assert_eq!(b.rooks_and_queens().count(), 6);
    assert_eq!(b.bishops_and_queens().count(), 6);
    assert!(b.promoted().is_empty());
    assert!(b.is_wf());
    assert!(b.is_valid());
    assert_eq!(b.board_fen(false), "rnbqkbnr/pppppppp/8/8/8/8/PPPPPPPP/RNBQKBNR");
}

#[test]
fn set_and_remove_pieces() {
    let mut b = Board::empty();
    assert_eq!(b.king_of(Color::White), None);
    b.set_piece_at(sq("e4"), Color::White.queen(), true);
    assert_eq!(b.piece_at(sq("e4")), Some(Color::White.queen()));
    assert!(b.promoted().contains(sq("e4")));
    // A piece set on an occupied square replaces what stood there.
    b.set_piece_at(sq("e4"), Color::Black.knight(), false);
    assert_eq!(b.piece_at(sq("e4")), Some(Color::Black.knight()));
    assert!(!b.promoted().contains(sq("e4")));
    assert_eq!(b.occupied().count(), 1);
    assert!(b.is_wf());
    assert_eq!(b.remove_piece_at(sq("e4")), Some(Color::Black.knight()));
    assert_eq!(b.remove_piece_at(sq("e4")), None);
    assert_eq!(b, Board::empty());
}

#[test]
fn attackers_of_a_square() {
    let b = Board::from_board_fen("4k3/8/8/8/1b6/3N4/3P4/R3K2r").unwrap();
    // The rooks on h1 and a1 and the knight on d3 attack e1, whatever their color; the
    // bishop on b4 is shielded by the pawn on d2, which itself attacks c3 and e3.
    let attackers = b.attacks_to(sq("e1"));
    assert_eq!(attackers, Bitboard::empty().with(sq("h1")).with(sq("a1")).with(sq("d3")));
    assert!(b.is_attacked_by(Color::Black, sq("e1"), b.occupied()));
    assert!(!b.is_attacked_by(Color::Black, sq("d1"), b.occupied()));
    // With the pawn lifted the bishop attacks e1 as well.
    let lifted = b.occupied().without(sq("d2"));
    assert!(b.attacks_to_with(sq("e1"), lifted).contains(sq("b4")));
}

#[test]
fn pawn_attackers_by_color() {
    let b = Board::from_board_fen("8/8/8/3p1p2/4K3/3P1P2/8/8").unwrap();
    let attackers = b.attacks_to(sq("e4"));
    assert_eq!(
        attackers,
        Bitboard::empty().with(sq("d5")).with(sq("f5")).with(sq("d3")).with(sq("f3"))
    );
}

#[test]
fn placement_text_round_trips() {
    for text in [
        "rnbqkbnr/pppppppp/8/8/8/8/PPPPPPPP/RNBQKBNR",
        "8/8/8/8/8/8/8/8",
        "r3k2r/p1ppqpb1/bn2pnp1/3PN3/1p2P3/2N2Q1p/PPPBBPPP/R3K2R",
        "1k6/8/8/8/8/8/8/6K1",
    ] {
        let b = Board::from_board_fen(text).unwrap();
        assert_eq!(b.board_fen(false), text);
        assert_eq!(Board::from_board_fen(&b.board_fen(false)), Some(b));
    }
    let marked = "rnbq1bnr/pppkpppp/8/8/8/8/PPPPPPPP/RNBQKBQ~R";
    let b = Board::from_board_fen(marked).unwrap();
    assert!(b.promoted().contains(sq("g1")));
    assert_eq!(b.board_fen(true), marked);
    assert_eq!(b.board_fen(false), "rnbq1bnr/pppkpppp/8/8/8/8/PPPPPPPP/RNBQKBQR");
}

#[test]
fn placement_text_may_split_runs() {
    let b = Board::from_board_fen("44/8/8/8/8/8/8/17").unwrap();
    assert_eq!(b, Board::empty());
}

#[test]
fn malformed_placement_is_rejected() {
    for text in [
        "",
        "8/8/8/8/8/8/8",
        "8/8/8/8/8/8/8/8/8",
        "9/8/8/8/8/8/8/8",
        "7/8/8/8/8/8/8/8",
        "8/8/8/8/8/8/8/7",
        "ppppppppp/8/8/8/8/8/8/8",
        "8/8/8/8/8/8/8/7x",
        "8/8/8/8/8/8/8/0k7",
        "~8/8/8/8/8/8/8/8",
        "4~k3/8/8/8/8/8/8/8",
        "8/8/8/8/8/8/8/8/",
        "/8/8/8/8/8/8/8/8",
    ] {
        assert_eq!(Board::from_board_fen(text), None, "{}", text);
    }
}

#[test]
fn invalid_boards_are_recognized() {
    let two_kings = Board::from_board_fen("4k3/8/8/8/8/8/8/3KK3").unwrap();
    assert!(two_kings.is_wf());
    assert!(!two_kings.is_valid());
    let pawn_on_edge = Board::from_board_fen("4k2P/8/8/8/8/8/8/4K3").unwrap();
    assert!(!pawn_on_edge.is_valid());
    let mut broken = Board::initial();
    broken.white = Bitboard::all();
    assert!(!broken.is_wf());
    let mut broken = Board::initial();
    broken.promoted = Bitboard::from_square(sq("e4"));
    assert!(!broken.is_wf());
    let mut broken = Board::initial();
    broken.knights = broken.knights.with(sq("a1"));
    assert!(!broken.is_wf());
    let piece = Piece { color: Color::White, role: Role::King };
    assert_eq!(Board::empty().by_piece(piece), Bitboard::empty());
}
