use shakmaty::position::{Position, Standard};
use shakmaty::square::Square;
use shakmaty::types::{Color, Move, Role};
use shakmaty::uci::Uci;
use std::str::FromStr;

fn sq(name: &str) -> Square {
    Square::from_ascii(name.as_bytes()).unwrap()
}

fn legal(pos: &Standard) -> Vec<Move> {
    let mut moves = Vec::new();
    pos.legal_moves(&mut moves);
    moves
}

#[test]
fn test_castling_moves() {
    let fen = "rnbqkbnr/pppppppp/8/8/8/5NP1/PPPPPPBP/RNBQK2R w KQkq - 0 1";
    let pos = Standard::from_fen(fen).unwrap();

    let castle = pos.validate(&Uci::from_str("e1g1").unwrap()).unwrap();
    let mut moves = Vec::new();
    pos.legal_moves(&mut moves);
    assert!(moves.contains(&castle));

    let pos = pos.do_move(&castle);
    assert_eq!(pos.piece_at(sq("g1")), Some(Color::White.king()));
    assert_eq!(pos.piece_at(sq("f1")), Some(Color::White.rook()));
}

#[test]
fn test_fen() {
    let fen = "rnbqkbnr/pppppppp/8/8/8/8/PPPPPPPP/RNBQKBNR w KQkq - 0 1";
    let pos = Standard::from_fen(fen).unwrap();
    assert_eq!(pos.fen(), fen);

    let fen = "4k3/8/8/8/8/8/8/4K2R w K - 0 1";
    let pos = Standard::from_fen(fen).unwrap();
    assert_eq!(pos.fen(), fen);
}

#[test]
fn test_san() {
    let pos = Standard::default();
    let m = Move::Normal {
        role: Role::Knight,
        from: sq("g1"),
        capture: None,
        to: sq("f3"),
        promotion: None,
    };
    assert_eq!(pos.san(&m), "Nf3");
}

#[test]
fn initial_position_has_twenty_moves() {
    assert_eq!(legal(&Standard::initial()).len(), 20);
}

#[test]
fn en_passant_pin_is_respected() {
    // The black pawn on e4 may not take d3 in passing: that would open the fourth rank
    // between the rook on h4 and the king on a4.
    let pos = Standard::from_fen("8/8/8/8/k2Pp2R/8/8/4K3 b - d3 0 1").unwrap();
    let moves = legal(&pos);
    assert!(!moves.iter().any(|m| matches!(m, Move::EnPassant { .. })));
    // Without the rook the capture is legal.
    let pos = Standard::from_fen("8/8/8/8/k2Pp3/8/8/4K3 b - d3 0 1").unwrap();
    let moves = legal(&pos);
    assert!(moves.contains(&Move::EnPassant { from: sq("e4"), to: sq("d3") }));
}

#[test]
fn pinned_pawn_may_not_capture() {
    // The pawn on e5 shields the king on e8 from the rook on e1: it may not leave the file.
    let pos = Standard::from_fen("4k3/8/8/4p3/3P4/8/8/4R1K1 b - - 0 1").unwrap();
    let moves = legal(&pos);
    assert!(!moves.iter().any(|m| matches!(m, Move::Normal { role: Role::Pawn, capture: Some(_), .. })));
    assert!(moves.contains(&Move::Normal {
        role: Role::Pawn,
        from: sq("e5"),
        capture: None,
        to: sq("e4"),
        promotion: None,
    }));
}

#[test]
fn double_check_allows_king_moves_only() {
    // The knight on f6 and the rook on e1 both give check.
    let pos = Standard::from_fen("4k3/8/5N2/8/8/8/8/4R1K1 b - - 0 1").unwrap();
    assert!(pos.is_check());
    let moves = legal(&pos);
    assert!(!moves.is_empty());
    assert!(moves.iter().all(|m| matches!(m, Move::Normal { role: Role::King, .. })));
}

#[test]
fn king_may_not_step_back_along_the_checking_line() {
    // The rook on a1 gives check along the first rank: h1 stays attacked once the king
    // has left g1.
    let pos = Standard::from_fen("4k3/8/8/8/8/8/8/r5K1 w - - 0 1").unwrap();
    let moves = legal(&pos);
    assert!(!moves.iter().any(|m| matches!(m, Move::Normal { to, .. } if *to == sq("h1"))));
    assert_eq!(moves.len(), 3);
}

#[test]
fn chess960_castling_by_king_onto_rook() {
    let pos = Standard::from_fen("r1k1r2q/p1ppp1pp/8/8/8/8/P1PPP1PP/R1K1R2Q w KQkq - 0 1").unwrap();
    let castle = pos.validate(&Uci::from_str("c1e1").unwrap()).unwrap();
    assert_eq!(castle, Move::Castle { king: sq("c1"), rook: sq("e1") });
    let after = pos.do_move(&castle);
    assert_eq!(after.piece_at(sq("g1")), Some(Color::White.king()));
    assert_eq!(after.piece_at(sq("f1")), Some(Color::White.rook()));
    assert_eq!(after.piece_at(sq("c1")), None);
    assert_eq!(after.piece_at(sq("e1")), None);
    // The rights of White are gone, those of Black stay.
    assert_eq!(after.fen(), "r1k1r2q/p1ppp1pp/8/8/8/8/P1PPP1PP/R4RKQ b kq - 1 1");
}

#[test]
fn san_disambiguation_by_file() {
    let pos = Standard::from_fen("r2q1rk1/pb1nbppp/5n2/1p2p3/3NP3/P1NB4/1P2QPPP/R1BR2K1 w - - 0 1")
        .unwrap();
    let mut candidates = Vec::new();
    pos.san_candidates(&mut candidates, Role::Knight, sq("b5"));
    assert_eq!(candidates.len(), 2);
    let from_c3 = Move::Normal {
        role: Role::Knight,
        from: sq("c3"),
        capture: Some(Role::Pawn),
        to: sq("b5"),
        promotion: None,
    };
    let from_d4 = Move::Normal {
        role: Role::Knight,
        from: sq("d4"),
        capture: Some(Role::Pawn),
        to: sq("b5"),
        promotion: None,
    };
    assert_eq!(pos.san(&from_c3), "Ncxb5");
    assert_eq!(pos.san(&from_d4), "Ndxb5");
}

#[test]
fn san_disambiguation_by_rank_and_by_both() {
    // Rooks on a1 and a5: the rank tells them apart on the way to a3.
    let pos = Standard::from_fen("4k3/8/8/R7/8/8/8/R3K3 w - - 0 1").unwrap();
    let m = Move::Normal { role: Role::Rook, from: sq("a1"), capture: None, to: sq("a3"), promotion: None };
    assert_eq!(pos.san(&m), "R1a3");
    // Queens on e1... three queens that reach e4: from h4, h1 and e1.
    let pos = Standard::from_fen("k7/8/8/8/7Q/8/8/K3Q2Q w - - 0 1").unwrap();
    let m = Move::Normal { role: Role::Queen, from: sq("h1"), capture: None, to: sq("e4"), promotion: None };
    assert_eq!(pos.san(&m), "Qh1e4+");
}

#[test]
fn san_of_pawn_moves_castling_and_mate() {
    let pos = Standard::from_fen("r3k2r/1P6/8/3pP3/8/8/8/R3K2R w KQkq d6 0 1").unwrap();
    let promote = Move::Normal {
        role: Role::Pawn,
        from: sq("b7"),
        capture: Some(Role::Rook),
        to: sq("a8"),
        promotion: Some(Role::Queen),
    };
    assert_eq!(pos.san(&promote), "bxa8=Q+");
    let ep = Move::EnPassant { from: sq("e5"), to: sq("d6") };
    assert_eq!(pos.san(&ep), "exd6");
    assert_eq!(pos.san(&Move::Castle { king: sq("e1"), rook: sq("h1") }), "O-O");
    assert_eq!(pos.san(&Move::Castle { king: sq("e1"), rook: sq("a1") }), "O-O-O");
    assert_eq!(pos.san(&Move::Null), "--");
    // Mate on the back rank.
    let pos = Standard::from_fen("6k1/5ppp/8/8/8/8/8/R3K3 w - - 0 1").unwrap();
    let mate = Move::Normal { role: Role::Rook, from: sq("a1"), capture: None, to: sq("a8"), promotion: None };
    assert_eq!(pos.san(&mate), "Ra8#");
}

#[test]
fn do_move_updates_counters_and_rights() {
    let pos = Standard::initial();
    let e4 = Uci::from_str("e2e4").unwrap().to_move(&pos).unwrap();
    let pos = pos.do_move(&e4);
    assert_eq!(pos.fen(), "rnbqkbnr/pppppppp/8/8/4P3/8/PPPP1PPP/RNBQKBNR b KQkq e3 0 1");
    let nf6 = Uci::from_str("g8f6").unwrap().to_move(&pos).unwrap();
    let pos = pos.do_move(&nf6);
    assert_eq!(pos.fen(), "rnbqkb1r/pppppppp/5n2/8/4P3/8/PPPP1PPP/RNBQKBNR w KQkq - 1 2");
    let ke2 = Uci::from_str("e1e2").unwrap().to_move(&pos).unwrap();
    let pos = pos.do_move(&ke2);
    assert_eq!(pos.fen(), "rnbqkb1r/pppppppp/5n2/8/4P3/8/PPPPKPPP/RNBQ1BNR b kq - 2 2");
    let rg8 = Uci::from_str("h8g8").unwrap().to_move(&pos).unwrap();
    let pos = pos.do_move(&rg8);
    assert_eq!(pos.fen(), "rnbqkbr1/pppppppp/5n2/8/4P3/8/PPPPKPPP/RNBQ1BNR w q - 3 3");
    let null = pos.do_move(&Move::Null);
    assert_eq!(null.fen(), "rnbqkbr1/pppppppp/5n2/8/4P3/8/PPPPKPPP/RNBQ1BNR b q - 4 3");
}

#[test]
fn legal_moves_never_leave_the_king_in_check() {
    let fens = [
        "rnbqkbnr/pppppppp/8/8/8/8/PPPPPPPP/RNBQKBNR w KQkq - 0 1",
        "r3k2r/p1ppqpb1/bn2pnp1/3PN3/1p2P3/2N2Q1p/PPPBBPPP/R3K2R w KQkq - 0 1",
        "8/2p5/3p4/KP5r/1R3p1k/8/4P1P1/8 w - - 0 1",
        "r3k2r/Pppp1ppp/1b3nbN/nP6/BBP1P3/q4N2/Pp1P2PP/R2Q1RK1 w kq - 0 1",
        "rnbq1k1r/pp1Pbppp/2p5/8/2B5/8/PPP1NnPP/RNBQK2R w KQ - 1 8",
    ];
    for fen in fens {
        let pos = Standard::from_fen(fen).unwrap();
        let mover = pos.turn();
        for m in legal(&pos) {
            let after = pos.do_move(&m);
            let king = after.board().king_of(mover).unwrap();
            assert!(!after.board().is_attacked_by(after.turn(), king, after.board().occupied()));
            // Each side keeps exactly one king and the color sets stay disjoint.
            assert_eq!(after.board().kings().count(), 2);
            assert!(after.board().white().intersect(after.board().black()).is_empty());
            assert_eq!(
                after.board().occupied(),
                after.board().white().union(after.board().black())
            );
        }
    }
}

#[test]
fn empty_position_is_empty() {
    let pos = Standard::empty();
    assert!(pos.board().occupied().is_empty());
    assert_eq!(pos.turn(), Color::White);
    assert_eq!(pos.fullmoves(), 1);
    assert_eq!(pos.fen(), "8/8/8/8/8/8/8/8 w - - 0 1");
}
