use shakmaty::position::{Pocket, Position, RemainingChecks};
use shakmaty::square::Square;
use shakmaty::types::{Color, Move, Role};
use shakmaty::uci::Uci;
use shakmaty::variant::{Crazyhouse, Standard, ThreeCheck, Variant};

fn sq(name: &str) -> Square {
    Square::from_ascii(name.as_bytes()).unwrap()
}

fn legal<P: Position>(pos: &P) -> Vec<Move> {
    let mut moves = Vec::new();
    pos.legal_moves(&mut moves);
    moves
}

fn play<P: Position>(pos: P, uci: &str) -> P {
    let m = Uci::from_ascii(uci.as_bytes()).unwrap().to_move(&pos).unwrap();
    pos.do_move(&m)
}

#[test]
fn standard_variant_plays_like_the_position() {
    let v = Standard::default();
    assert_eq!(legal(&v).len(), 20);
    assert_eq!(v.position().fullmoves(), 1);
    assert_eq!(v.pockets(), None);
    assert_eq!(v.remaining_checks(), None);
    let v = play(v, "e2e4");
    assert_eq!(v.turn(), Color::Black);
    assert_eq!(v.fen(), "rnbqkbnr/pppppppp/8/8/4P3/8/PPPP1PPP/RNBQKBNR b KQkq e3 0 1");
    assert_eq!(*v.position(), play(shakmaty::position::Standard::initial(), "e2e4"));
}

#[test]
fn crazyhouse_capture_fills_the_pocket() {
    let pos = Crazyhouse::default();
    let pos = play(play(play(pos, "e2e4"), "d7d5"), "e4d5");
    assert_eq!(pos.pockets.white.pawns, 1);
    assert_eq!(pos.pockets.black, Pocket::empty());
    let pos = play(pos, "d8d5");
    assert_eq!(pos.pockets.black.pawns, 1);
    assert_eq!(pos.fen(), "rnb1kbnr/ppp1pppp/8/3q4/8/8/PPPP1PPP/RNBQKBNR[Pp] w KQkq - 0 3");
}

#[test]
fn crazyhouse_drop_with_check() {
    let pos = Crazyhouse::from_fen("rnb1kbnr/ppp1pppp/8/3q4/8/8/PPPP1PPP/RNBQKBNR[Pp] w KQkq - 0 3")
        .unwrap();
    let drop = Move::Put { role: Role::Pawn, to: sq("d7") };
    assert!(legal(&pos).contains(&drop));
    assert!(pos.is_legal(&drop));
    assert_eq!(pos.san(&drop), "P@d7+");
    let after = pos.do_move(&drop);
    assert_eq!(after.pockets.white.pawns, 0);
    assert_eq!(after.piece_at(sq("d7")), Some(Color::White.pawn()));
    assert!(after.is_check());
    assert_eq!(after.fen(), "rnb1kbnr/pppPpppp/8/3q4/8/8/PPPP1PPP/RNBQKBNR[p] b KQkq - 1 3");
}

#[test]
fn crazyhouse_drops_need_a_piece_and_an_empty_square() {
    let pos = Crazyhouse::from_fen("rnb1kbnr/ppp1pppp/8/3q4/8/8/PPPP1PPP/RNBQKBNR[Pp] w KQkq - 0 3")
        .unwrap();
    let moves = legal(&pos);
    // No knight in the pocket, no drop on an occupied square, no pawn on the first or
    // the eighth rank.
    assert!(!moves.contains(&Move::Put { role: Role::Knight, to: sq("e4") }));
    assert!(!moves.contains(&Move::Put { role: Role::Pawn, to: sq("d5") }));
    assert!(!moves.contains(&Move::Put { role: Role::Pawn, to: sq("d8") }));
    assert!(!moves.contains(&Move::Put { role: Role::Pawn, to: sq("e1") }));
    assert!(moves.contains(&Move::Put { role: Role::Pawn, to: sq("e4") }));
    let drops = moves.iter().filter(|m| matches!(m, Move::Put { .. })).count();
    // The empty squares of the second to the seventh rank: 48 less 14 pawns and a queen.
    assert_eq!(drops, 48 - 15);
    assert_eq!(
        "N@e4".parse::<Uci>().unwrap().to_move(&pos),
        Err(shakmaty::uci::IllegalUciError)
    );
}

#[test]
fn crazyhouse_drop_must_answer_check() {
    // The rook on e8 gives check to the king on e1: a drop must go between.
    let pos = Crazyhouse::from_fen("4r2k/8/8/8/8/8/8/4K3[N] w - - 0 1").unwrap();
    assert!(pos.is_check());
    let moves = legal(&pos);
    let drops: Vec<_> = moves.iter().filter(|m| matches!(m, Move::Put { .. })).collect();
    assert_eq!(drops.len(), 6);
    assert!(moves.contains(&Move::Put { role: Role::Knight, to: sq("e4") }));
    assert!(!moves.contains(&Move::Put { role: Role::Knight, to: sq("d4") }));
    // Against the check of a knight no drop helps.
    let pos = Crazyhouse::from_fen("7k/8/8/8/8/3n4/8/4K3[N] w - - 0 1").unwrap();
    assert!(legal(&pos).iter().all(|m| !matches!(m, Move::Put { .. })));
}

#[test]
fn crazyhouse_promoted_piece_returns_as_pawn() {
    let pos = Crazyhouse::from_fen("3r3k/2P5/8/8/8/8/8/4K3[] w - - 0 1").unwrap();
    let promote = Move::Normal {
        role: Role::Pawn,
        from: sq("c7"),
        capture: Some(Role::Rook),
        to: sq("d8"),
        promotion: Some(Role::Queen),
    };
    assert!(pos.is_legal(&promote));
    let pos = pos.do_move(&promote);
    assert_eq!(pos.pockets.white.rooks, 1);
    assert!(pos.board().promoted().contains(sq("d8")));
    assert_eq!(pos.fen(), "3Q~3k/8/8/8/8/8/8/4K3[R] b - - 0 1");
}

#[test]
fn crazyhouse_capture_of_promoted_piece_gives_a_pawn() {
    // The queen on d5 came from a promotion: the king that takes it gets a pawn.
    let pos = Crazyhouse::from_fen("8/8/4k3/3Q~4/8/8/8/4K3[] b - - 0 1").unwrap();
    assert!(pos.board().promoted().contains(sq("d5")));
    let take = Move::Normal {
        role: Role::King,
        from: sq("e6"),
        capture: Some(Role::Queen),
        to: sq("d5"),
        promotion: None,
    };
    assert!(pos.is_legal(&take));
    let pos = pos.do_move(&take);
    assert_eq!(pos.pockets.black.pawns, 1);
    assert_eq!(pos.pockets.black.queens, 0);
    assert!(!pos.board().promoted().contains(sq("d5")));
    assert_eq!(pos.fen(), "8/8/8/3k4/8/8/8/4K3[p] w - - 0 2");
    // A queen that did not come from a promotion returns as a queen.
    let pos = Crazyhouse::from_fen("8/8/4k3/3Q4/8/8/8/4K3[] b - - 0 1").unwrap();
    let pos = pos.do_move(&take);
    assert_eq!(pos.pockets.black.queens, 1);
    assert_eq!(pos.pockets.black.pawns, 0);
}

#[test]
fn three_check_counts_checks() {
    let pos = ThreeCheck::default();
    assert_eq!(pos.remaining_checks, RemainingChecks { white: 3, black: 3 });
    let pos = play(play(play(pos, "e2e4"), "e7e5"), "f1c4");
    assert_eq!(pos.remaining_checks, RemainingChecks { white: 3, black: 3 });
    let pos = play(pos, "a7a6");
    let pos = play(pos, "c4f7");
    assert!(pos.is_check());
    assert_eq!(pos.remaining_checks, RemainingChecks { white: 3, black: 2 });
    assert_eq!(pos.fen(), "rnbqkbnr/1ppp1Bpp/p7/4p3/4P3/8/PPPP1PPP/RNBQK1NR b KQkq - 3+2 0 3");
    let pos = play(pos, "e8f7");
    assert_eq!(pos.remaining_checks, RemainingChecks { white: 3, black: 2 });
    let pos = play(pos, "d1h5");
    assert_eq!(pos.remaining_checks, RemainingChecks { white: 3, black: 1 });
}

#[test]
fn remaining_checks_decrement() {
    let mut c = RemainingChecks { white: 3, black: 1 };
    c.decrement(Color::Black);
    assert_eq!(c, RemainingChecks { white: 3, black: 0 });
    c.decrement(Color::White);
    assert_eq!(c, RemainingChecks { white: 2, black: 0 });
}
