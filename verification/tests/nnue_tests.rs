use razor::movegen::{MoveList, generate_moves};
use razor::nnue::{
    Accumulator, NET_BYTES, NetError, Network, OUT_BIAS_AT, OUTPUT_AT, apply, apply_into, apply_lazy,
    apply_lazy_fused, apply_lazy_into, evaluate, evaluate_recompute_ref,
};
use razor::position::{Position, START_FEN};
use razor::search::{Limits, Searcher};
use razor::tt::Tt;

/// A deterministic network file: small feature weights, output weights inside
/// the -127..=127 range the evaluation needs.
fn synthetic_net_bytes(seed: u64, feature_span: i32) -> Vec<u8> {
    let mut state = seed;
    let mut next = move || {
        state = state.wrapping_mul(6364136223846793005).wrapping_add(1442695040888963407);
        (state >> 33) as i32
    };
    let words = NET_BYTES / 2;
    let mut bytes = Vec::with_capacity(NET_BYTES);
    for i in 0..words {
        let v: i32 = if i < OUTPUT_AT {
            next() % (2 * feature_span + 1) - feature_span
        } else if i < OUT_BIAS_AT {
            next() % 255 - 127
        } else {
            next() % 2001 - 1000
        };
        let w = v as i16;
        bytes.extend_from_slice(&w.to_le_bytes());
    }
    bytes
}

fn synthetic_net() -> Network {
    Network::from_bytes(&synthetic_net_bytes(0x5eed, 40)).unwrap()
}

const PARITY_FENS: &[&str] = &[
    START_FEN,
    "r3k2r/p1ppqpb1/bn2pnp1/3PN3/1p2P3/2N2Q1p/PPPBBPPP/R3K2R w KQkq - 0 1",
    "rnbqkbnr/ppp1p1pp/8/3pPp2/8/8/PPPP1PPP/RNBQKBNR w KQkq f6 0 3",
    "8/2p5/3p4/KP5r/1R3p1k/8/4P1P1/8 w - - 0 1",
    "4k3/1P6/8/8/8/8/r5K1/8 w - - 0 1",
    "r4rk1/1pp1qppp/p1np1n2/2b1p1B1/2B1P1b1/P1NP1N2/1PP1QPPP/R4RK1 w - - 0 10",
    "4rrk1/pp1n3p/3q2pQ/2p1pb2/2PP4/2P3N1/P2B2PP/4RRK1 b - - 7 19",
];

#[test]
fn folded_eval_matches_recompute_reference() {
    let net = synthetic_net();
    for fen in PARITY_FENS {
        let pos = Position::from_fen(fen).unwrap();
        let folded = evaluate(&net, &pos);
        let reference = evaluate_recompute_ref(&net, &pos);
        assert_eq!(folded, reference, "eval parity mismatch at {fen}: folded={folded} ref={reference}");
    }
}

const HAZARD_FENS: &[&str] = &[
    START_FEN,
    "r3k2r/p1ppqpb1/bn2pnp1/3PN3/1p2P3/2N2Q1p/PPPBBPPP/R3K2R w KQkq - 0 1",
    "rnbqkbnr/ppp1p1pp/8/3pPp2/8/8/PPPP1PPP/RNBQKBNR w KQkq f6 0 3",
    "8/8/8/K1pP3r/8/8/8/7k w - c6 0 1",
    "r3k2r/pppq1ppp/2nbbn2/3pp3/3PP3/2NBBN2/PPPQ1PPP/R3K2R w KQkq - 0 1",
    "n1n5/PPPk4/8/8/8/8/4Kppp/5N1N b - - 0 1",
    "4k3/1P6/8/8/8/8/r5K1/8 w - - 0 1",
    "r4rk1/1pp1qppp/p1np1n2/2b1p1B1/2B1P1b1/P1NP1N2/1PP1QPPP/R4RK1 w - - 0 10",
    "rnbqkbnr/pp1ppppp/8/8/2p5/5N2/PPPPPPPP/RNBQKB1R w KQkq - 0 2",
    "4k3/8/8/8/8/8/8/4K3 w - - 0 1",
    "8/3k4/8/3K4/8/8/8/8 w - - 0 1",
    "r3k2r/8/8/8/8/8/8/R3K2R w KQkq - 0 1",
];

/// Walks the legal-move tree to `depth`, checking that the incrementally
/// updated accumulator equals a rebuild of the child after every move.
fn walk(net: &Network, pos: &Position, depth: u32) {
    let parent = Accumulator::refresh(net, pos);
    let mut list = MoveList::new();
    generate_moves(pos, &mut list);
    for mv in list.iter() {
        let child = pos.make(mv);
        let inc = apply(net, &parent, pos, &child, mv);
        let fresh = Accumulator::refresh(net, &child);
        assert!(
            inc.w == fresh.w && inc.b == fresh.b,
            "incremental != refresh after {} from {} (flags {})",
            mv.to_uci(),
            pos.to_fen(),
            mv.flags()
        );
        if depth > 1 {
            walk(net, &child, depth - 1);
        }
    }
}

#[test]
fn incremental_matches_refresh_all_move_types() {
    let net = synthetic_net();
    for fen in HAZARD_FENS {
        let pos = Position::from_fen(fen).unwrap();
        walk(&net, &pos, 2);
    }
}

#[test]
fn apply_variants_agree() {
    let net = synthetic_net();
    for fen in HAZARD_FENS {
        let pos = Position::from_fen(fen).unwrap();
        let parent = Accumulator::refresh(&net, &pos);
        let mut list = MoveList::new();
        generate_moves(&pos, &mut list);
        for mv in list.iter() {
            let child = pos.make(mv);
            let a = apply(&net, &parent, &pos, &child, mv);
            let mut b = Accumulator::zeroed();
            apply_into(&net, &parent, &mut b, &pos, &child, mv);
            assert!(a.w == b.w && a.b == b.b);
            let lazy = apply_lazy(&net, &parent, &pos, mv);
            let fused = apply_lazy_fused(&net, &parent, &pos, mv);
            let mut into = Accumulator::zeroed();
            apply_lazy_into(&net, &parent, &mut into, &pos, mv);
            assert!(lazy.w == fused.w && lazy.b == fused.b);
            assert!(lazy.w == into.w && lazy.b == into.b);
        }
    }
}

#[test]
fn net_length_and_output_weight_errors() {
    assert_eq!(Network::from_bytes(&[0u8; 16]).err(), Some(NetError::Length));
    let mut bytes = synthetic_net_bytes(7, 10);
    bytes.extend_from_slice(&[0u8; 64]);
    assert_eq!(Network::from_bytes(&bytes).err(), Some(NetError::Length));
    let mut bytes = synthetic_net_bytes(7, 10);
    // output weight 0 of bucket 0 set to 128
    bytes[2 * OUTPUT_AT] = 128;
    bytes[2 * OUTPUT_AT + 1] = 0;
    assert_eq!(Network::from_bytes(&bytes).err(), Some(NetError::OutputWeight));
    // up to 63 bytes of padding are accepted
    let mut bytes = synthetic_net_bytes(7, 10);
    bytes.extend_from_slice(&[0u8; 63]);
    assert!(Network::from_bytes(&bytes).is_ok());
}

#[test]
fn threat_weights_are_clamped_to_eight_bits() {
    let mut bytes = synthetic_net_bytes(9, 10);
    let first_threat_word = razor::nnue::PIECE_WORDS;
    // 300 and -300 clamp to 127 and -127
    bytes[2 * first_threat_word] = (300i16).to_le_bytes()[0];
    bytes[2 * first_threat_word + 1] = (300i16).to_le_bytes()[1];
    bytes[2 * first_threat_word + 2] = (-300i16).to_le_bytes()[0];
    bytes[2 * first_threat_word + 3] = (-300i16).to_le_bytes()[1];
    let net = Network::from_bytes(&bytes).unwrap();
    assert_eq!(net.threat_weights[0], 127);
    assert_eq!(net.threat_weights[1], -127);
    // piece words are read little-endian as they are
    let w0 = i16::from_le_bytes([bytes[0], bytes[1]]);
    assert_eq!(net.piece_weights[0], w0);
}

#[test]
fn refresh_of_bare_kings_is_bias_plus_king_rows() {
    // two kings: no threats (kings are never attackers or victims)
    let net = synthetic_net();
    let pos = Position::from_fen("4k3/8/8/8/8/8/8/4K3 w - - 0 1").unwrap();
    let acc = Accumulator::refresh(&net, &pos);
    // white king e1: bucket of rank pair 0, file e folds to 3, mirrored files
    let wk_bucket = 3;
    assert_eq!(acc.wk_base, 768 * wk_bucket);
    assert_eq!(acc.wk_flip, 7);
    // white king row from white's view: own side, piece 5, square e1 mirrored to d1
    let wk_row = 768 * wk_bucket + 64 * 5 + 3;
    // black king e8 from white's view: other side, piece 5, e8 mirrored to d8
    let bk_row = 768 * wk_bucket + 384 + 64 * 5 + 59;
    for k in 0..768 {
        let expect = net.feature_bias[k]
            .wrapping_add(net.piece_weights[wk_row * 768 + k])
            .wrapping_add(net.piece_weights[bk_row * 768 + k]);
        assert_eq!(acc.w[k], expect);
    }
}

#[test]
fn evaluation_is_zero_for_a_zero_network() {
    let bytes = vec![0u8; NET_BYTES];
    let net = Network::from_bytes(&bytes).unwrap();
    let pos = Position::from_fen(START_FEN).unwrap();
    assert_eq!(evaluate(&net, &pos), 0);
    assert_eq!(evaluate_recompute_ref(&net, &pos), 0);
}

#[test]
fn evaluation_of_output_bias_alone() {
    // all weights zero except the output bias of bucket 7 (32 pieces):
    // (0 / 255 + bias) * 400 / (255 * 64)
    let mut bytes = vec![0u8; NET_BYTES];
    let at = 2 * (OUT_BIAS_AT + 7);
    bytes[at] = (1000i16).to_le_bytes()[0];
    bytes[at + 1] = (1000i16).to_le_bytes()[1];
    let net = Network::from_bytes(&bytes).unwrap();
    let pos = Position::from_fen(START_FEN).unwrap();
    assert_eq!(evaluate(&net, &pos), 1000 * 400 / (255 * 64));
    // a negative bias rounds toward zero
    bytes[at] = (-1000i16).to_le_bytes()[0];
    bytes[at + 1] = (-1000i16).to_le_bytes()[1];
    let net = Network::from_bytes(&bytes).unwrap();
    assert_eq!(evaluate(&net, &pos), -(1000 * 400 / (255 * 64)));
}

fn lmr_table() -> Vec<u32> {
    let mut t = vec![0u32; 4096];
    for d in 1..64usize {
        for m in 1..64usize {
            let r = 0.75 + (d as f64).ln() * (m as f64).ln() / 2.25;
            t[d * 64 + m] = r.max(0.0) as u32;
        }
    }
    t
}

#[test]
fn search_with_network_returns_a_legal_move() {
    let net = std::sync::Arc::new(synthetic_net());
    for fen in &PARITY_FENS[..3] {
        let pos = Position::from_fen(fen).unwrap();
        let mut s = Searcher::new(Tt::new(1), lmr_table());
        s.set_network(net.clone());
        s.silent = true;
        let mut limits = Limits::infinite();
        limits.depth = Some(3);
        limits.nodes = Some(2000);
        let best = s.go(&pos, &limits, &[]);
        let mut list = MoveList::new();
        generate_moves(&pos, &mut list);
        assert!(list.iter().contains(&best), "{fen}: {}", best.to_uci());
    }
}

#[test]
fn eval_dispatches_on_the_network() {
    let net = synthetic_net();
    let pos = Position::from_fen(PARITY_FENS[1]).unwrap();
    assert_eq!(razor::eval::evaluate(&pos, Some(&net)), evaluate(&net, &pos));
    assert_eq!(razor::eval::evaluate(&pos, None), razor::eval::evaluate_psqt(&pos));
}

#[test]
fn refresh_reads_the_placement_only() {
    let net = synthetic_net();
    let a = Position::from_fen("r3k2r/p1ppqpb1/bn2pnp1/3PN3/1p2P3/2N2Q1p/PPPBBPPP/R3K2R w KQkq - 0 1").unwrap();
    let b = Position::from_fen("r3k2r/p1ppqpb1/bn2pnp1/3PN3/1p2P3/2N2Q1p/PPPBBPPP/R3K2R b - - 37 80").unwrap();
    let x = Accumulator::refresh(&net, &a);
    let y = Accumulator::refresh(&net, &b);
    assert_eq!(x.w, y.w);
    assert_eq!(x.b, y.b);
    assert_eq!(x.wk_base, y.wk_base);
    assert_eq!(x.bk_flip, y.bk_flip);
}
