use razor::fen::FenError;
use razor::movegen::{MoveList, generate_captures, generate_moves};
use razor::perft::perft;
use razor::position::{Position, START_FEN};
use razor::types::{Color, PieceType};

#[test]
fn fen_roundtrip() {
    for fen in [
        START_FEN,
        "r3k2r/p1ppqpb1/bn2pnp1/3PN3/1p2P3/2N2Q1p/PPPBBPPP/R3K2R w KQkq - 0 1",
        "8/2p5/3p4/KP5r/1R3p1k/8/4P1P1/8 w - - 0 1",
        "rnbq1k1r/pp1Pbppp/2p5/8/2B5/8/PPP1NnPP/RNBQK2R w KQ - 1 8",
    ] {
        assert_eq!(Position::from_fen(fen).unwrap().to_fen(), fen);
    }
}

#[test]
fn startpos_matches_start_fen() {
    let a = Position::startpos();
    let b = Position::from_fen(START_FEN).unwrap();
    assert_eq!(a.to_fen(), START_FEN);
    assert_eq!(a.key, b.key);
    assert_eq!(a.key, a.recompute_key());
}

#[test]
fn fen_errors_each_kind() {
    assert_eq!(Position::from_fen("8/8/8 w").err(), Some(FenError::Fields));
    assert_eq!(Position::from_fen("8p/8/8/8/8/8/8/8 w - -").err(), Some(FenError::Board));
    assert_eq!(Position::from_fen("4x3/8/8/8/8/8/8/4K2k w - -").err(), Some(FenError::Piece));
    assert_eq!(Position::from_fen("4k3/8/8/8/8/8/8/4K3 x - -").err(), Some(FenError::SideToMove));
    assert_eq!(Position::from_fen("4k3/8/8/8/8/8/8/4K3 w X -").err(), Some(FenError::Castling));
    assert_eq!(Position::from_fen("4k3/8/8/8/8/8/8/4K3 w - z9").err(), Some(FenError::EnPassant));
    assert_eq!(Position::from_fen("8/8/8/8/8/8/8/4K3 w - -").err(), Some(FenError::KingCount));
    assert_eq!(Position::from_fen("4k3/8/8/8/8/8/8/4KK2 w - -").err(), Some(FenError::KingCount));
    // black king attacked by the white rook with white to move
    assert_eq!(Position::from_fen("4k3/8/8/8/8/8/8/4RK2 w - -").err(), Some(FenError::OpponentInCheck));
    // castling right without the rook at home
    assert_eq!(Position::from_fen("4k3/8/8/8/8/8/8/4K3 w K -").err(), Some(FenError::Inconsistent));
    // a pawn on the first rank
    assert_eq!(Position::from_fen("4k3/8/8/8/8/8/8/P3K3 w - -").err(), Some(FenError::Inconsistent));
}

#[test]
fn fen_optional_counters() {
    // missing counters read as 0 and 1; an unreadable one falls back too
    let p = Position::from_fen("4k3/8/8/8/8/8/8/4K3 b - -").unwrap();
    assert_eq!(p.halfmove, 0);
    assert_eq!(p.fullmove, 1);
    assert_eq!(p.stm, Color::Black);
    let q = Position::from_fen("4k3/8/8/8/8/8/8/4K3 w - - 300 +7").unwrap();
    assert_eq!(q.halfmove, 0);
    assert_eq!(q.fullmove, 7);
    assert_eq!(q.to_fen(), "4k3/8/8/8/8/8/8/4K3 w - - 0 7");
}

fn count(fen: &str, depth: u32) -> u64 {
    perft(&Position::from_fen(fen).unwrap(), depth)
}

#[test]
fn perft_start_position() {
    assert_eq!(count(START_FEN, 0), 1);
    assert_eq!(count(START_FEN, 1), 20);
    assert_eq!(count(START_FEN, 2), 400);
    assert_eq!(count(START_FEN, 3), 8902);
}

#[test]
fn perft_kiwipete() {
    let fen = "r3k2r/p1ppqpb1/bn2pnp1/3PN3/1p2P3/2N2Q1p/PPPBBPPP/R3K2R w KQkq - 0 1";
    assert_eq!(count(fen, 1), 48);
    assert_eq!(count(fen, 2), 2039);
}

#[test]
fn perft_edge_cases() {
    assert_eq!(count("8/2p5/3p4/KP5r/1R3p1k/8/4P1P1/8 w - - 0 1", 3), 2812);
    assert_eq!(count("rnbq1k1r/pp1Pbppp/2p5/8/2B5/8/PPP1NnPP/RNBQK2R w KQ - 1 8", 2), 1486);
    assert_eq!(count("K1k5/8/P7/8/8/8/8/8 w - - 0 1", 6), 2217); // self stalemate
    assert_eq!(count("8/8/2k5/5q2/5n2/8/5K2/8 b - - 0 1", 4), 23527); // double check
}

#[test]
fn make_keeps_incremental_key() {
    let pos = Position::from_fen("r3k2r/p1ppqpb1/bn2pnp1/3PN3/1p2P3/2N2Q1p/PPPBBPPP/R3K2R w KQkq - 0 1").unwrap();
    let mut list = MoveList::new();
    generate_moves(&pos, &mut list);
    for mv in list.iter() {
        let child = pos.make(mv);
        assert_eq!(child.key, child.recompute_key());
        assert_eq!(child.stm, Color::Black);
        let back = Position::from_fen(&child.to_fen()).unwrap();
        assert_eq!(back.key, child.key);
    }
}

#[test]
fn captures_are_captures_or_promotions() {
    let pos = Position::from_fen("r3k2r/p1ppqpb1/bn2pnp1/3PN3/1p2P3/2N2Q1p/PPPBBPPP/R3K2R w KQkq - 0 1").unwrap();
    let mut list = MoveList::new();
    generate_captures(&pos, &mut list);
    assert_eq!(list.len(), 8);
    for mv in list.iter() {
        assert!(mv.is_capture() || mv.is_promo());
    }
}

#[test]
fn null_move_passes_the_turn() {
    let pos = Position::from_fen("4k3/8/8/3pP3/8/8/8/4K3 w - d6 0 5").unwrap();
    let null = pos.make_null();
    assert_eq!(null.stm, Color::Black);
    assert_eq!(null.ep, 64);
    assert_eq!(null.halfmove, 1);
    assert_eq!(null.key, null.recompute_key());
}

#[test]
fn piece_queries() {
    let pos = Position::startpos();
    assert_eq!(pos.piece_on(4), Some((Color::White, PieceType::King)));
    assert_eq!(pos.piece_on(28), None);
    assert_eq!(pos.king_sq(Color::Black), 60);
    assert_eq!(pos.pieces(Color::White, PieceType::Pawn), 0xff00);
    assert!(!pos.in_check());
    assert_eq!(pos.pinned(), 0);
}

#[test]
fn written_fen_reads_back_as_the_same_position() {
    let pos = Position::from_fen("r3k2r/p1ppqpb1/bn2pnp1/3PN3/1p2P3/2N2Q1p/PPPBBPPP/R3K2R w KQkq - 0 1").unwrap();
    let mut list = MoveList::new();
    generate_moves(&pos, &mut list);
    for mv in list.iter() {
        let child = pos.make(mv);
        let back = Position::from_fen(&child.to_fen()).unwrap();
        assert_eq!(back.mailbox, child.mailbox);
        assert_eq!(back.piece_bb, child.piece_bb);
        assert_eq!(back.color_bb, child.color_bb);
        assert_eq!(back.stm, child.stm);
        assert_eq!(back.castling, child.castling);
        assert_eq!(back.ep, child.ep);
        assert_eq!(back.halfmove, child.halfmove);
        assert_eq!(back.fullmove, child.fullmove);
        assert_eq!(back.key, child.key);
    }
}

fn no_move_leaves_king_attacked(pos: &Position, depth: u32) -> u64 {
    let mut list = MoveList::new();
    generate_moves(pos, &mut list);
    let mut checked = 0;
    for mv in list.iter() {
        let child = pos.make(mv);
        let king = child.king_sq(pos.stm);
        assert_eq!(child.attackers_to(king, child.stm, child.occupied()), 0, "{} leaves the king attacked", mv.to_uci());
        checked += 1;
        if depth > 1 {
            checked += no_move_leaves_king_attacked(&child, depth - 1);
        }
    }
    checked
}

#[test]
fn generated_moves_leave_the_king_safe() {
    for (fen, depth) in [
        (START_FEN, 3),
        ("r3k2r/p1ppqpb1/bn2pnp1/3PN3/1p2P3/2N2Q1p/PPPBBPPP/R3K2R w KQkq - 0 1", 2),
        ("8/2p5/3p4/KP5r/1R3p1k/8/4P1P1/8 w - - 0 1", 4),
        ("rnbq1k1r/pp1Pbppp/2p5/8/2B5/8/PPP1NnPP/RNBQK2R w KQ - 1 8", 2),
        ("8/8/2k5/5q2/5n2/8/5K2/8 b - - 0 1", 3),
    ] {
        let pos = Position::from_fen(fen).unwrap();
        assert!(no_move_leaves_king_attacked(&pos, depth) > 0);
    }
}

#[test]
fn captures_are_the_capturing_legal_moves() {
    let pos = Position::from_fen("r3k2r/p1ppqpb1/bn2pnp1/3PN3/1p2P3/2N2Q1p/PPPBBPPP/R3K2R w KQkq - 0 1").unwrap();
    let mut all = MoveList::new();
    generate_moves(&pos, &mut all);
    let mut caps = MoveList::new();
    generate_captures(&pos, &mut caps);
    let mut expected: Vec<u16> = all.iter().into_iter().filter(|m| m.is_capture() || m.is_promo()).map(|m| m.0).collect();
    let mut got: Vec<u16> = caps.iter().into_iter().map(|m| m.0).collect();
    expected.sort();
    got.sort();
    assert_eq!(got, expected);
}

#[test]
fn perft_of_a_mated_position_is_zero() {
    let pos = Position::from_fen("rnb1kbnr/pppp1ppp/8/4p3/6Pq/5P2/PPPPP2P/RNBQKBNR w KQkq - 1 3").unwrap();
    assert_eq!(perft(&pos, 1), 0);
    assert_eq!(perft(&pos, 3), 0);
    assert_eq!(perft(&pos, 0), 1);
}
