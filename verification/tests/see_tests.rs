use razor::movegen::{MoveList, generate_moves};
use razor::position::Position;
use razor::see::see;
use razor::types::Move;

fn find(pos: &Position, s: &str) -> Move {
    let mut list = MoveList::new();
    generate_moves(pos, &mut list);
    list.iter().into_iter().find(|m| m.to_uci() == s).unwrap()
}

#[test]
fn see_basics() {
    // RxR defended by pawn: +500 - 500 = 0
    let pos = Position::from_fen("1k6/8/8/3p4/4r3/8/8/4R2K w - - 0 1").unwrap();
    assert_eq!(see(&pos, find(&pos, "e1e4")), 0);

    // QxP defended by pawn: +100 - 900 = -800
    let pos = Position::from_fen("1k6/8/2p5/3p4/8/8/3Q4/3K4 w - - 0 1").unwrap();
    assert_eq!(see(&pos, find(&pos, "d2d5")), -800);

    // PxP undefended: +100
    let pos = Position::from_fen("1k6/8/8/3p4/4P3/8/8/4K3 w - - 0 1").unwrap();
    assert_eq!(see(&pos, find(&pos, "e4d5")), 100);

    // NxP, pawn recaptures: +100 - 320 = -220
    let pos = Position::from_fen("1k6/8/2p5/3p4/8/4N3/8/4K3 w - - 0 1").unwrap();
    assert_eq!(see(&pos, find(&pos, "e3d5")), -220);
}

#[test]
fn see_quiet_move_and_en_passant() {
    // a quiet move to a square the pawn on e6 attacks loses the knight
    let pos = Position::from_fen("4k3/8/4p3/8/8/2N5/8/4K3 w - - 0 1").unwrap();
    assert_eq!(see(&pos, find(&pos, "c3d5")), -320);
    // en passant wins a pawn
    let pos = Position::from_fen("4k3/8/8/3pP3/8/8/8/4K3 w - d6 0 1").unwrap();
    assert_eq!(see(&pos, find(&pos, "e5d6")), 100);
}

#[test]
fn see_xray_recapture() {
    // RxP, pawn is defended by a rook behind which stands our second rook
    let pos = Position::from_fen("3r2k1/8/8/3p4/8/8/3R4/3RK3 w - - 0 1").unwrap();
    // +100 (pawn) - 500 (rook) + 500 (rook) = 100
    assert_eq!(see(&pos, find(&pos, "d2d5")), 100);
}

#[test]
fn exchange_stays_between_losing_the_mover_and_winning_the_victim() {
    // queen takes a pawn defended by a pawn: wins 100, loses 900
    let pos = Position::from_fen("4k3/2p5/3p4/8/8/8/3Q4/4K3 w - - 0 1").unwrap();
    let m = find(&pos, "d2d6");
    let v = see(&pos, m);
    assert_eq!(v, -800);
    assert!(v <= 100 && v >= 100 - 900);
}
