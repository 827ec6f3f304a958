use shakmaty::fen::{parse, write_fen, Fen, FenError};
use shakmaty::position::{Pocket, Pockets, Position, RemainingChecks, Standard};
use shakmaty::square::Square;
use shakmaty::types::Color;
use shakmaty::variant::{Crazyhouse, ThreeCheck, Variant};

fn sq(name: &str) -> Square {
    Square::from_ascii(name.as_bytes()).unwrap()
}

fn render(fen: &Fen) -> String {
    let mut out = Vec::new();
    write_fen(&fen.position, fen.pockets.as_ref(), fen.remaining_checks.as_ref(), &mut out);
    String::from_utf8(out).unwrap()
}

#[test]
fn canonical_texts_round_trip() {
    for text in [
        "rnbqkbnr/pppppppp/8/8/8/8/PPPPPPPP/RNBQKBNR w KQkq - 0 1",
        "rnbqkbnr/pppppppp/8/8/4P3/8/PPPP1PPP/RNBQKBNR b KQkq e3 0 1",
        "r3k2r/p1ppqpb1/bn2pnp1/3PN3/1p2P3/2N2Q1p/PPPBBPPP/R3K2R w KQkq - 0 1",
        "8/2p5/3p4/KP5r/1R3p1k/8/4P1P1/8 w - - 12 47",
        "4k3/8/8/8/8/8/8/4K2R w K - 0 1",
        "r3k3/8/8/8/8/8/8/4K3 b q - 3 9",
        "rnbqkbnr/ppp1p1pp/8/3pPp2/8/8/PPPP1PPP/RNBQKBNR w KQkq f6 0 3",
        "8/8/8/8/8/8/8/8 w - - 0 1",
        "rnbqkbnr/pppppppp/8/8/8/8/PPPPPPPP/RNBQKBNR w KQkq - 4294967295 4294967295",
        "rnbqkbnr/pppppppp/8/8/8/8/PPPPPPPP/RNBQKBNR[] w KQkq - 0 1",
        "rnb1kbnr/ppp1pppp/8/3q4/8/8/PPPP1PPP/RNBQKBNR[Pp] w KQkq - 0 3",
        "r1bqk2r/pppp1ppp/2n1p3/4P3/1b1Pn3/2NB1N2/PPP2PPP/R1BQK2R[PPNNbq] b KQkq - 0 6",
        "rnbq1bnr/pppkpppp/8/8/8/8/PPPPPPPP/RNBQKBQ~R[] w KQ - 0 1",
        "rnbqkbnr/pppppppp/8/8/8/8/PPPPPPPP/RNBQKBNR w KQkq - 3+3 0 1",
        "rnbqkbnr/pppp1ppp/8/4p3/8/8/PPPPPPPP/RNBQKBNR w KQkq - 1+0 0 2",
    ] {
        let fen = parse(text.as_bytes()).unwrap();
        assert_eq!(render(&fen), text);
        assert_eq!(parse(render(&fen).as_bytes()), Ok(fen));
    }
}

#[test]
fn positions_round_trip() {
    let mut pos = Standard::initial();
    for uci in ["e2e4", "c7c5", "g1f3", "d7d6", "f1b5", "c8d7", "e1g1", "d7b5"] {
        let m = shakmaty::uci::Uci::from_ascii(uci.as_bytes()).unwrap().to_move(&pos).unwrap();
        pos = pos.do_move(&m);
        assert_eq!(Standard::from_fen(&pos.fen()), Some(pos));
    }
    assert_eq!(pos.fen(), "rn1qkbnr/pp2pppp/3p4/1bp5/4P3/5N2/PPPP1PPP/RNBQ1RK1 w kq - 0 5");
}

#[test]
fn missing_fields_take_defaults() {
    let fen = parse(b"4k3/8/8/8/8/8/8/4K2R").unwrap();
    assert_eq!(fen.position.turn(), Color::White);
    assert!(fen.position.castling_rights().is_empty());
    assert_eq!(fen.position.ep_square(), None);
    assert_eq!(fen.position.halfmove_clock(), 0);
    assert_eq!(fen.position.fullmoves(), 1);
    assert_eq!(fen.pockets, None);
    assert_eq!(fen.remaining_checks, None);
    let fen = parse(b"4k3/8/8/8/8/8/8/4K2R b").unwrap();
    assert_eq!(fen.position.turn(), Color::Black);
    let fen = parse(b"4k3/8/8/8/8/8/8/4K2R w K").unwrap();
    assert!(fen.position.castling_rights().contains(sq("h1")));
    let fen = parse(b"4k3/8/8/8/8/8/8/4K2R w K - 7").unwrap();
    assert_eq!(fen.position.halfmove_clock(), 7);
    assert_eq!(fen.position.fullmoves(), 1);
    // A move number 0 is read as 1, and what follows the move number is not read.
    let fen = parse(b"4k3/8/8/8/8/8/8/4K2R w K - 7 0 and so on").unwrap();
    assert_eq!(fen.position.fullmoves(), 1);
    let fen = parse(b"4k3/8/8/8/8/8/8/4K2R w K - +7 +12").unwrap();
    assert_eq!(fen.position.halfmove_clock(), 7);
    assert_eq!(fen.position.fullmoves(), 12);
}

#[test]
fn castling_field_in_both_notations() {
    // Letters of files name the rooks directly.
    let pos = Standard::from_fen("r3k2r/8/8/8/8/8/8/R3K2R w HAha - 0 1").unwrap();
    assert_eq!(pos.castling_rights().count(), 4);
    assert_eq!(pos.castling_xfen(), "KQkq");
    // An inner rook is written by the letter of its file.
    let pos = Standard::from_fen("4k3/8/8/8/8/8/8/1R2K1RR w G - 0 1").unwrap();
    assert!(pos.castling_rights().contains(sq("g1")));
    assert_eq!(pos.castling_rights().count(), 1);
    assert_eq!(pos.castling_xfen(), "G");
    assert_eq!(pos.fen(), "4k3/8/8/8/8/8/8/1R2K1RR w G - 0 1");
    // K names the rook nearest the h-file, Q the one nearest the a-file.
    let pos = Standard::from_fen("4k3/8/8/8/8/8/8/1R2K1RR w KQ - 0 1").unwrap();
    assert!(pos.castling_rights().contains(sq("h1")));
    assert!(pos.castling_rights().contains(sq("b1")));
    assert_eq!(pos.castling_xfen(), "KQ");
    let pos = Standard::from_fen("4k3/8/8/8/8/8/8/4K3 w - - 0 1").unwrap();
    assert_eq!(pos.castling_xfen(), "-");
}

#[test]
fn malformed_placement_gives_parse_board() {
    for text in ["", "8/8/8/8/8/8/8 w - - 0 1", "9/8/8/8/8/8/8/8 w", "8/8/8/8/8/8/8/7x w - - 0 1"] {
        assert_eq!(parse(text.as_bytes()), Err(FenError::ParseBoard), "{}", text);
        assert_eq!(Standard::from_fen(text), None);
    }
}

#[test]
fn malformed_fields_give_parse_position() {
    for text in [
        "4k3/8/8/8/8/8/8/4K3 x - - 0 1",
        "4k3/8/8/8/8/8/8/4K3 white - - 0 1",
        "4k3/8/8/8/8/8/8/4K3  w - - 0 1",
        "4k3/8/8/8/8/8/8/4K3 w K - 0 1",
        "4k3/8/8/8/8/8/8/4K3 w x - 0 1",
        "4k3/8/8/8/8/8/8/4K2R w Kq - 0 1",
        "4k3/8/8/8/8/8/8/4K3 w - e9 0 1",
        "4k3/8/8/8/8/8/8/4K3 w - e 0 1",
        "4k3/8/8/8/8/8/8/4K3 w - e6 0 1",
        "4k3/8/8/4p3/8/8/8/4K3 w - e3 0 1",
        "4k3/8/8/4p3/8/8/8/4K3 b - e6 0 1",
        "4k3/8/8/8/8/8/8/4K3 w - - x 1",
        "4k3/8/8/8/8/8/8/4K3 w - - 0 x",
        "4k3/8/8/8/8/8/8/4K3 w - - -1 1",
        "4k3/8/8/8/8/8/8/4K3 w - - 4294967296 1",
        "4k3/8/8/8/8/8/8/4K3 w - -  1",
    ] {
        assert_eq!(parse(text.as_bytes()), Err(FenError::ParsePosition), "{}", text);
        assert_eq!(Standard::from_fen(text), None);
    }
    // The en-passant square behind a pawn that has made a double step is accepted.
    assert!(parse(b"4k3/8/8/4p3/8/8/8/4K3 w - e6 0 1").is_ok());
}

#[test]
fn malformed_pockets_give_parse_pocket() {
    for text in [
        "4k3/8/8/8/8/8/8/4K3[x] w - - 0 1",
        "4k3/8/8/8/8/8/8/4K3[P w - - 0 1",
        "4k3/8/8/8/8/8/8/4K3[K] w - - 0 1",
        "4k3/8/8/8/8/8/8/4K3[P]p w - - 0 1",
        "4k3/8/8/8/8/8/8/4K3[P8] w - - 0 1",
    ] {
        assert_eq!(parse(text.as_bytes()), Err(FenError::ParsePocket), "{}", text);
    }
    let crowded = format!("4k3/8/8/8/8/8/8/4K3[{}] w - - 0 1", "P".repeat(256));
    assert_eq!(parse(crowded.as_bytes()), Err(FenError::ParsePocket));
    let full = format!("4k3/8/8/8/8/8/8/4K3[{}] w - - 0 1", "P".repeat(255));
    assert_eq!(parse(full.as_bytes()).unwrap().pockets.unwrap().white.pawns, 255);
}

#[test]
fn malformed_checks_give_parse_remaining_checks() {
    for text in [
        "4k3/8/8/8/8/8/8/4K3 w - - 4+3 0 1",
        "4k3/8/8/8/8/8/8/4K3 w - - 3+x 0 1",
        "4k3/8/8/8/8/8/8/4K3 w - - ++3 0 1",
    ] {
        assert_eq!(parse(text.as_bytes()), Err(FenError::ParseRemainingChecks), "{}", text);
    }
}

#[test]
fn pockets_are_read_and_written() {
    let fen = parse(b"4k3/8/8/8/8/8/8/4K3[QPpnP] w - - 0 1").unwrap();
    let pockets = fen.pockets.unwrap();
    assert_eq!(pockets.white.pawns, 2);
    assert_eq!(pockets.white.queens, 1);
    assert_eq!(pockets.black.pawns, 1);
    assert_eq!(pockets.black.knights, 1);
    assert_eq!(pockets.by_piece(Color::White.pawn()), 2);
    assert_eq!(pockets.by_color(Color::Black).by_role(shakmaty::types::Role::Knight), 1);
    // Written in a fixed order: White's first, pawns first.
    assert_eq!(render(&fen), "4k3/8/8/8/8/8/8/4K3[PPQpn] w - - 0 1");
}

#[test]
fn variants_read_their_own_texts() {
    let text = "rnb1kbnr/ppp1pppp/8/3q4/8/8/PPPP1PPP/RNBQKBNR[Pp] w KQkq - 0 3";
    let zh = Crazyhouse::from_fen(text).unwrap();
    assert_eq!(zh.pockets, Pockets {
        white: Pocket { pawns: 1, knights: 0, bishops: 0, rooks: 0, queens: 0, kings: 0 },
        black: Pocket { pawns: 1, knights: 0, bishops: 0, rooks: 0, queens: 0, kings: 0 },
    });
    assert_eq!(zh.fen(), text);
    assert_eq!(Standard::from_fen(text), None);
    assert_eq!(ThreeCheck::from_fen(text), None);
    assert_eq!(shakmaty::variant::Standard::from_fen(text), None);

    let text = "rnbqkbnr/pppp1ppp/8/4p3/8/8/PPPPPPPP/RNBQKBNR w KQkq - 2+3 0 2";
    let tc = ThreeCheck::from_fen(text).unwrap();
    assert_eq!(tc.remaining_checks, RemainingChecks { white: 2, black: 3 });
    assert_eq!(tc.remaining_checks.by_color(Color::White), 2);
    assert_eq!(tc.fen(), text);
    assert_eq!(Standard::from_fen(text), None);
    assert_eq!(Crazyhouse::from_fen(text), None);

    // Without pockets or remaining checks in the text, the variants begin with empty
    // pockets and three checks.
    let text = "rnbqkbnr/pppppppp/8/8/8/8/PPPPPPPP/RNBQKBNR w KQkq - 0 1";
    assert_eq!(Crazyhouse::from_fen(text), Some(Crazyhouse::default()));
    assert_eq!(ThreeCheck::from_fen(text), Some(ThreeCheck::default()));
    assert_eq!(shakmaty::variant::Standard::from_fen(text), Some(shakmaty::variant::Standard::default()));
    assert_eq!(Crazyhouse::default().fen(), "rnbqkbnr/pppppppp/8/8/8/8/PPPPPPPP/RNBQKBNR[] w KQkq - 0 1");
    assert_eq!(ThreeCheck::default().fen(), "rnbqkbnr/pppppppp/8/8/8/8/PPPPPPPP/RNBQKBNR w KQkq - 3+3 0 1");
    assert_eq!(Crazyhouse::from_fen("x"), None);
}

#[test]
fn text_that_is_not_ascii_is_rejected() {
    assert_eq!(Standard::from_fen("4k3/8/8/8/8/8/8/4K3 w – - 0 1"), None);
    assert_eq!(Standard::from_fen("4k3/8/8/8/8/8/8/4K2♖ w - - 0 1"), None);
}

#[test]
fn validity_is_tested() {
    assert!(Standard::initial().is_valid());
    assert!(Standard::from_fen("4k3/8/8/8/8/8/8/4K2R w K - 0 1").unwrap().is_valid());
    // No kings.
    assert!(!Standard::empty().is_valid());
    // The side that is not to move is in check.
    assert!(!Standard::from_fen("4k3/8/8/8/8/8/8/4RK2 w - - 0 1").unwrap().is_valid());
    assert!(Standard::from_fen("4k3/8/8/8/8/8/8/4RK2 b - - 0 1").unwrap().is_valid());
    // A pawn on the last rank.
    assert!(!Standard::from_fen("4k2P/8/8/8/8/8/8/4K3 w - - 0 1").unwrap().is_valid());
}
