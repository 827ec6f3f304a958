use shakmaty::position::Standard;
use shakmaty::types::Move;

fn count_leaves(pos: &Standard, depth: u32) -> u64 {
    if depth == 0 {
        return 1;
    }
    let mut moves: Vec<Move> = Vec::new();
    pos.legal_moves(&mut moves);
    if depth == 1 {
        return moves.len() as u64;
    }
    let mut total = 0;
    for m in &moves {
        total += count_leaves(&pos.do_move(m), depth - 1);
    }
    total
}

#[test]
fn perft_initial_depth_1() {
    assert_eq!(count_leaves(&Standard::initial(), 1), 20);
}

#[test]
fn perft_initial_depth_2() {
    assert_eq!(count_leaves(&Standard::initial(), 2), 400);
}

#[test]
fn perft_initial_depth_3() {
    assert_eq!(count_leaves(&Standard::initial(), 3), 8_902);
}

#[test]
fn perft_initial_depth_4() {
    assert_eq!(count_leaves(&Standard::initial(), 4), 197_281);
}

#[test]
fn perft_initial_depth_5() {
    assert_eq!(count_leaves(&Standard::initial(), 5), 4_865_609);
}

#[test]
fn perft_castling_and_promotions() {
    let pos = Standard::from_fen(
        "r3k2r/p1ppqpb1/bn2pnp1/3PN3/1p2P3/2N2Q1p/PPPBBPPP/R3K2R w KQkq - 0 1",
    )
    .unwrap();
    assert_eq!(count_leaves(&pos, 1), 48);
    assert_eq!(count_leaves(&pos, 2), 2_039);
    assert_eq!(count_leaves(&pos, 3), 97_862);
}

#[test]
fn perft_en_passant_and_pins() {
    let pos = Standard::from_fen("8/2p5/3p4/KP5r/1R3p1k/8/4P1P1/8 w - - 0 1").unwrap();
    assert_eq!(count_leaves(&pos, 1), 14);
    assert_eq!(count_leaves(&pos, 2), 191);
    assert_eq!(count_leaves(&pos, 3), 2_812);
    assert_eq!(count_leaves(&pos, 4), 43_238);
}

#[test]
fn perft_checks_and_promotions() {
    let pos = Standard::from_fen(
        "r3k2r/Pppp1ppp/1b3nbN/nP6/BBP1P3/q4N2/Pp1P2PP/R2Q1RK1 w kq - 0 1",
    )
    .unwrap();
    assert_eq!(count_leaves(&pos, 1), 6);
    assert_eq!(count_leaves(&pos, 2), 264);
    assert_eq!(count_leaves(&pos, 3), 9_467);
}

#[test]
fn perft_discovered_attacks() {
    let pos = Standard::from_fen("rnbq1k1r/pp1Pbppp/2p5/8/2B5/8/PPP1NnPP/RNBQK2R w KQ - 1 8").unwrap();
    assert_eq!(count_leaves(&pos, 1), 44);
    assert_eq!(count_leaves(&pos, 2), 1_486);
    assert_eq!(count_leaves(&pos, 3), 62_379);
}

#[test]
fn library_perft_counts_leaves() {
    let pos = Standard::initial();
    assert_eq!(shakmaty::perft::perft(&pos, 0), Some(1));
    assert_eq!(shakmaty::perft::perft(&pos, 1), Some(20));
    assert_eq!(shakmaty::perft::perft(&pos, 2), Some(400));
    assert_eq!(shakmaty::perft::perft(&pos, 3), Some(8_902));
    assert_eq!(shakmaty::perft::perft(&pos, 4), Some(197_281));
    let pos = Standard::from_fen("8/2p5/3p4/KP5r/1R3p1k/8/4P1P1/8 w - - 0 1").unwrap();
    assert_eq!(shakmaty::perft::perft(&pos, 3), Some(count_leaves(&pos, 3)));
    // A mated side has no move: no leaves one move deep.
    let mated = Standard::from_fen("R5k1/5ppp/8/8/8/8/8/4K3 b - - 0 1").unwrap();
    assert_eq!(shakmaty::perft::perft(&mated, 1), Some(0));
    assert_eq!(shakmaty::perft::perft(&mated, 3), Some(0));
}

#[test]
fn library_perft_of_variants() {
    let pos = shakmaty::variant::Crazyhouse::default();
    assert_eq!(shakmaty::perft::perft(&pos, 3), Some(8_902));
    let pos = shakmaty::variant::ThreeCheck::default();
    assert_eq!(shakmaty::perft::perft(&pos, 3), Some(8_902));
}
