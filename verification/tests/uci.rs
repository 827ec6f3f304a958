use shakmaty::position::{Position, Standard};
use shakmaty::square::Square;
use shakmaty::types::{CastlingMode, Move, Role};
use shakmaty::uci::{IllegalUciError, ParseUciError, Uci};
use shakmaty::variant::Crazyhouse;

fn sq(name: &str) -> Square {
    Square::from_ascii(name.as_bytes()).unwrap()
}

#[test]
fn test_uci_to_en_passant() {
    let mut pos = Standard::default();
    let e4 = "e2e4".parse::<Uci>().expect("e4").to_move(&pos).expect("legal");
    pos.play_unchecked(&e4);
    let nc6 = "b8c6".parse::<Uci>().expect("Nc6").to_move(&pos).expect("legal");
    pos.play_unchecked(&nc6);
    let e5 = "e4e5".parse::<Uci>().expect("e5").to_move(&pos).expect("legal");
    pos.play_unchecked(&e5);
    let d5 = "d7d5".parse::<Uci>().expect("d5").to_move(&pos).expect("legal");
    pos.play_unchecked(&d5);
    let exd5 = "e5d6".parse::<Uci>().expect("exd6").to_move(&pos).expect("legal en passant");
    assert!(exd5.is_en_passant());
}

#[test]
fn test_uci_to_crazyhouse() {
    let mut pos = Crazyhouse::default();
    let e4 = "e2e4".parse::<Uci>().expect("e4").to_move(&pos).expect("legal");
    pos.play_unchecked(&e4);
    let d5 = "d7d5".parse::<Uci>().expect("d5").to_move(&pos).expect("legal");
    pos.play_unchecked(&d5);
    let exd5 = "e4d5".parse::<Uci>().expect("exd5").to_move(&pos).expect("legal");
    pos.play_unchecked(&exd5);
    let qxd5 = "d8d5".parse::<Uci>().expect("Qxd5").to_move(&pos).expect("legal");
    pos.play_unchecked(&qxd5);
    let p_at_d7 = "P@d7".parse::<Uci>().expect("P@d7+").to_move(&pos).expect("legal");
    pos.play_unchecked(&p_at_d7);
    assert!(pos.is_check());
}

#[test]
fn parse_normal_moves() {
    assert_eq!(
        Uci::from_ascii(b"e4e5"),
        Ok(Uci::Normal { from: sq("e4"), to: sq("e5"), promotion: None })
    );
    assert_eq!(
        Uci::from_ascii(b"h2h1q"),
        Ok(Uci::Normal { from: sq("h2"), to: sq("h1"), promotion: Some(Role::Queen) })
    );
    assert_eq!(
        "g1f3".parse::<Uci>(),
        Ok(Uci::Normal { from: sq("g1"), to: sq("f3"), promotion: None })
    );
}

#[test]
fn parse_drops_and_null() {
    assert_eq!(Uci::from_ascii(b"Q@f7"), Ok(Uci::Put { role: Role::Queen, to: sq("f7") }));
    assert_eq!(Uci::from_ascii(b"0000"), Ok(Uci::Null));
}

#[test]
fn parse_rejects_malformed_text() {
    for text in ["", "e2", "e2e", "e2e4qq", "i2e4", "e9e4", "e2e4x", "e2e4p", "X@e4", "q@e4", "Q@e9", "Q@e4q", "0001"] {
        assert_eq!(Uci::from_ascii(text.as_bytes()), Err(ParseUciError), "{}", text);
    }
    assert_eq!(ParseUciError.to_string(), "invalid uci");
    assert_eq!(IllegalUciError.to_string(), "illegal uci");
}

#[test]
fn write_moves() {
    let m = Move::Normal { role: Role::Knight, from: sq("b1"), capture: None, to: sq("c3"), promotion: None };
    assert_eq!(m.to_uci(CastlingMode::Standard).to_string(), "b1c3");
    assert_eq!(Uci::from_standard(&m).to_string(), "b1c3");
    assert_eq!(Uci::from_chess960(&m).to_string(), "b1c3");
    let promote = Move::Normal {
        role: Role::Pawn,
        from: sq("h2"),
        capture: None,
        to: sq("h1"),
        promotion: Some(Role::Queen),
    };
    assert_eq!(Uci::from_chess960(&promote).to_string(), "h2h1q");
    assert_eq!(Uci::from_chess960(&Move::Put { role: Role::Queen, to: sq("f7") }).to_string(), "Q@f7");
    assert_eq!(Uci::from_chess960(&Move::Null).to_string(), "0000");
    assert_eq!(Uci::from_chess960(&Move::EnPassant { from: sq("e5"), to: sq("d6") }).to_string(), "e5d6");
}

#[test]
fn write_castling_in_both_modes() {
    let m = Move::Castle { king: sq("e8"), rook: sq("h8") };
    assert_eq!(Uci::from_standard(&m).to_string(), "e8g8");
    assert_eq!(Uci::from_chess960(&m).to_string(), "e8h8");
    assert_eq!(Uci::from_move(&m, CastlingMode::Standard).to_string(), "e8g8");
    assert_eq!(Uci::from_move(&m, CastlingMode::Chess960).to_string(), "e8h8");
    assert_eq!(m.to_uci(CastlingMode::Chess960).to_string(), "e8h8");
    let long = Move::Castle { king: sq("e1"), rook: sq("a1") };
    assert_eq!(Uci::from_standard(&long).to_string(), "e1c1");
    assert_eq!(Uci::from_chess960(&long).to_string(), "e1a1");
}

#[test]
fn to_move_rejects_illegal_moves() {
    let pos = Standard::default();
    assert_eq!("e2e5".parse::<Uci>().unwrap().to_move(&pos), Err(IllegalUciError));
    assert_eq!("e3e4".parse::<Uci>().unwrap().to_move(&pos), Err(IllegalUciError));
    assert_eq!("e1g1".parse::<Uci>().unwrap().to_move(&pos), Err(IllegalUciError));
    assert_eq!("g1f3q".parse::<Uci>().unwrap().to_move(&pos), Err(IllegalUciError));
    assert_eq!("0000".parse::<Uci>().unwrap().to_move(&pos), Err(IllegalUciError));
    assert_eq!("Q@e4".parse::<Uci>().unwrap().to_move(&pos), Err(IllegalUciError));
}

#[test]
fn to_move_reads_back_every_legal_move() {
    let fens = [
        "rnbqkbnr/pppppppp/8/8/8/8/PPPPPPPP/RNBQKBNR w KQkq - 0 1",
        "r3k2r/p1ppqpb1/bn2pnp1/3PN3/1p2P3/2N2Q1p/PPPBBPPP/R3K2R w KQkq - 0 1",
        "r3k2r/Pppp1ppp/1b3nbN/nP6/BBP1P3/q4N2/Pp1P2PP/R2Q1RK1 w kq - 0 1",
        "rnbqkbnr/ppp1p1pp/8/3pPp2/8/8/PPPP1PPP/RNBQKBNR w KQkq f6 0 3",
    ];
    for fen in fens {
        let pos = Standard::from_fen(fen).unwrap();
        let mut moves = Vec::new();
        pos.legal_moves(&mut moves);
        for m in moves {
            assert_eq!(Uci::from_chess960(&m).to_move(&pos), Ok(m));
        }
    }
}

#[test]
fn standard_castling_notation_is_understood() {
    let pos = Standard::from_fen("r3k2r/8/8/8/8/8/8/R3K2R w KQkq - 0 1").unwrap();
    assert_eq!(
        "e1g1".parse::<Uci>().unwrap().to_move(&pos),
        Ok(Move::Castle { king: sq("e1"), rook: sq("h1") })
    );
    assert_eq!(
        "e1c1".parse::<Uci>().unwrap().to_move(&pos),
        Ok(Move::Castle { king: sq("e1"), rook: sq("a1") })
    );
    assert_eq!(
        "e1h1".parse::<Uci>().unwrap().to_move(&pos),
        Ok(Move::Castle { king: sq("e1"), rook: sq("h1") })
    );
}
