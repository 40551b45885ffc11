use razor::eval::{MATE, evaluate_psqt};
use razor::movegen::{MoveList, generate_moves};
use razor::position::{Position, START_FEN};
use razor::search::{Limits, Searcher, aspiration_update, format_score, time_budget};
use razor::tt::Tt;

/// r = base + ln(d) * ln(mc) / div, the reduction curve the engine uses.
fn lmr_table() -> Vec<u32> {
    let mut t = vec![0u32; 4096];
    for d in 1..64usize {
        for m in 1..64usize {
            let r = 0.75 + (d as f64).ln() * (m as f64).ln() / 2.25;
            t[d * 64 + m] = r.max(0.0) as u32;
        }
    }
    t
}

fn searcher() -> Searcher {
    Searcher::new(Tt::new(1), lmr_table())
}

fn is_legal(pos: &Position, uci: &str) -> bool {
    let mut list = MoveList::new();
    generate_moves(pos, &mut list);
    list.iter().iter().any(|m| m.to_uci() == uci)
}

#[test]
fn finds_mate_in_one() {
    // back-rank mate: Ra8#
    let pos = Position::from_fen("6k1/5ppp/8/8/8/8/8/R5K1 w - - 0 1").unwrap();
    let mut s = searcher();
    let mut limits = Limits::infinite();
    limits.depth = Some(3);
    let best = s.go(&pos, &limits, &[]);
    assert_eq!(best.to_uci(), "a1a8");
    assert_eq!(s.last_score(), MATE - 1);
}

#[test]
fn depth_limited_search_returns_legal_move() {
    let pos = Position::from_fen(START_FEN).unwrap();
    let mut s = searcher();
    let mut limits = Limits::infinite();
    limits.depth = Some(4);
    let best = s.go(&pos, &limits, &[]);
    assert!(is_legal(&pos, &best.to_uci()));
    assert_eq!(s.reports.len(), 4);
    assert_eq!(s.reports[3].depth, 4);
}

#[test]
fn node_limited_search_returns_legal_move() {
    let pos = Position::from_fen("r3k2r/p1ppqpb1/bn2pnp1/3PN3/1p2P3/2N2Q1p/PPPBBPPP/R3K2R w KQkq - 0 1").unwrap();
    let mut s = searcher();
    let mut limits = Limits::infinite();
    limits.nodes = Some(3000);
    let best = s.go(&pos, &limits, &[]);
    assert!(is_legal(&pos, &best.to_uci()));
}

#[test]
fn mated_root_returns_null_move() {
    // white is checkmated: no move to play
    let pos = Position::from_fen("R5k1/5ppp/8/8/8/8/8/6K1 b - - 0 1").unwrap();
    let mut s = searcher();
    let mut limits = Limits::infinite();
    limits.depth = Some(2);
    let best = s.go(&pos, &limits, &[]);
    assert_eq!(best.0, 0);
}

#[test]
fn time_budget_values() {
    let mut l = Limits::infinite();
    assert_eq!(time_budget(&l), (u64::MAX, u64::MAX));
    l.movetime = Some(1000);
    l.overhead = 100;
    assert_eq!(time_budget(&l), (900, 950));
    let mut l = Limits::infinite();
    l.time = Some(60_000);
    l.inc = Some(1000);
    // alloc = 60000/25 + 500 = 2900; soft = min(2900, 59970); hard = min(8700, 20000)
    assert_eq!(time_budget(&l), (2900, 8700));
    l.time = Some(10);
    l.inc = None;
    // t = 10: alloc 0, soft min(0, 0) = 0, hard max(min(0, 3), 1) = 1
    assert_eq!(time_budget(&l), (0, 1));
}

#[test]
fn aspiration_steps() {
    // fail low: beta to the middle, alpha down by delta
    assert_eq!(aspiration_update(-25, 25, 25, -40), (-65, 0, false));
    // fail high: beta up by delta
    assert_eq!(aspiration_update(-25, 25, 25, 60), (-25, 85, false));
    // inside the window: done
    assert_eq!(aspiration_update(-25, 25, 25, 10), (-25, 25, true));
    // against the full window: done
    assert_eq!(aspiration_update(-MATE, 25, 25, -MATE), (-MATE, 25, true));
}

#[test]
fn format_score_values() {
    assert_eq!(format_score(35), "cp 35");
    assert_eq!(format_score(-120), "cp -120");
    assert_eq!(format_score(MATE - 1), "mate 1");
    assert_eq!(format_score(MATE - 4), "mate 2");
    assert_eq!(format_score(-(MATE - 2)), "mate -1");
}

#[test]
fn psqt_eval_is_symmetric_at_start() {
    let pos = Position::startpos();
    assert_eq!(evaluate_psqt(&pos), 0);
    let pos = Position::from_fen("4k3/8/8/8/8/8/8/3QK3 w - - 0 1").unwrap();
    assert!(evaluate_psqt(&pos) > 800);
    let pos = Position::from_fen("4k3/8/8/8/8/8/8/3QK3 b - - 0 1").unwrap();
    assert!(evaluate_psqt(&pos) < -800);
}

#[test]
fn stalemated_root_scores_a_draw() {
    // black to move has no move and is not in check
    let pos = Position::from_fen("7k/5Q2/6K1/8/8/8/8/8 b - - 0 1").unwrap();
    let mut s = searcher();
    let mut limits = Limits::infinite();
    limits.depth = Some(1);
    let best = s.go(&pos, &limits, &[]);
    assert_eq!(best.0, 0);
    assert_eq!(s.last_score(), 0);
}

#[test]
fn checkmated_root_scores_mate() {
    // fool's mate: white to move is checkmated
    let pos = Position::from_fen("rnb1kbnr/pppp1ppp/8/4p3/6Pq/5P2/PPPPP2P/RNBQKBNR w KQkq - 1 3").unwrap();
    let mut s = searcher();
    let mut limits = Limits::infinite();
    limits.depth = Some(3);
    let best = s.go(&pos, &limits, &[]);
    assert_eq!(best.0, 0);
    assert_eq!(s.last_score(), -MATE);
}

#[test]
fn searched_move_is_a_generated_move() {
    let pos = Position::from_fen("4rrk1/pp1n3p/3q2pQ/2p1pb2/2PP4/2P3N1/P2B2PP/4RRK1 b - - 7 19").unwrap();
    let mut s = searcher();
    let mut limits = Limits::infinite();
    limits.nodes = Some(1);
    let best = s.go(&pos, &limits, &[]);
    let mut list = MoveList::new();
    generate_moves(&pos, &mut list);
    assert!(list.iter().iter().any(|m| *m == best));
}

#[test]
fn colour_flipped_position_has_the_same_psqt_score() {
    let a = Position::from_fen("r3k2r/p1ppqpb1/bn2pnp1/3PN3/1p2P3/2N2Q1p/PPPBBPPP/R3K2R w KQkq - 0 1").unwrap();
    // the same position with colours swapped and the board mirrored
    let b = Position::from_fen("r3k2r/pppbbppp/2n2q1P/1P2p3/3pn3/BN2PNP1/P1PPQPB1/R3K2R b KQkq - 0 1").unwrap();
    assert_eq!(evaluate_psqt(&a), evaluate_psqt(&b));
}

#[test]
fn result_is_the_last_reported_iteration() {
    let pos = Position::from_fen("r3k2r/p1ppqpb1/bn2pnp1/3PN3/1p2P3/2N2Q1p/PPPBBPPP/R3K2R w KQkq - 0 1").unwrap();
    let mut s = searcher();
    let mut limits = Limits::infinite();
    limits.depth = Some(3);
    let best = s.go(&pos, &limits, &[]);
    assert_eq!(s.reports.len(), 3);
    for (k, r) in s.reports.iter().enumerate() {
        assert_eq!(r.depth as usize, k + 1);
    }
    let last = s.reports[2];
    assert_eq!(last.best, best);
    assert_eq!(last.score, s.last_score());
}
