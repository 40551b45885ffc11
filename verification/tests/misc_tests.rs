use razor::datagen::{Rng, adjudicate};
use razor::syzygy::{Tablebases, syzygy_dirs, wdl_value};
use razor::tune::{Param, Tunables, get};
use razor::uci::{EngineOptions, OptionEffect, SetOption, find_uci_move, go_limits, parse_go, parse_setoption, ponder_budget};
use razor::search::Limits;
use razor::position::Position;
use razor::types::{Move, parse_square, square_name};
use razor::zobrist::{generate, key, piece_key};
use razor::types::{Color, PieceType};

#[test]
fn tunables_set_and_get() {
    let mut t = Tunables::new();
    assert_eq!(get(&t, Param::RfpMargin), 80);
    assert!(razor::tune::set(&mut t, "rfpmargin", 95));
    assert_eq!(get(&t, Param::RfpMargin), 95);
    assert_eq!(get(&t, Param::LmrBase), 75);
    assert!(!razor::tune::set(&mut t, "nosuch", 1));
    assert_eq!(get(&t, Param::FutScale), 120);
}

#[test]
fn setoption_parsing() {
    match parse_setoption("setoption name Move Overhead value 250") {
        SetOption::Assign { key, value } => {
            assert_eq!(key, b"move overhead".to_vec());
            assert_eq!(value, b"250".to_vec());
        }
        _ => panic!("expected an assignment"),
    }
    match parse_setoption("setoption name Clear Hash") {
        SetOption::Assign { key, value } => {
            assert_eq!(key, b"clear hash".to_vec());
            assert!(value.is_empty());
        }
        _ => panic!("expected an assignment"),
    }
    assert!(matches!(parse_setoption("setoption value 3"), SetOption::Ignored));
    assert!(matches!(parse_setoption("setoption value 3 name Hash"), SetOption::Misordered));
}

#[test]
fn options_apply() {
    let mut o = EngineOptions::new();
    assert_eq!(o.apply(b"hash", b"100000"), OptionEffect::ResizeHash(4096));
    assert_eq!(o.apply(b"hash", b"0"), OptionEffect::ResizeHash(1));
    assert_eq!(o.apply(b"hash", b"lots"), OptionEffect::Nothing);
    assert_eq!(o.apply(b"threads", b"64"), OptionEffect::Nothing);
    assert_eq!(o.threads, 32);
    assert_eq!(o.apply(b"ponder", b"TRUE"), OptionEffect::Nothing);
    assert!(o.ponder_enabled);
    o.apply(b"skill level", b"-5");
    assert_eq!(o.skill, 0);
    o.apply(b"uci_elo", b"2255");
    assert_eq!(o.uci_elo, 2255);
    o.apply(b"uci_limitstrength", b"true");
    assert_eq!(o.effective_skill(), 10);
    o.apply(b"rfpmargin", b"+90");
    assert_eq!(o.tunables.rfp_margin, 90);
    assert_eq!(o.apply(b"clear hash", b""), OptionEffect::ClearHash);
    assert_eq!(o.apply(b"evalfile", b"net.nnue"), OptionEffect::EvalFile);
    o.apply(b"move overhead", b"99999999999999999999999");
    assert_eq!(o.move_overhead, 0); // does not parse: unchanged
    o.apply(b"moveoverhead", b"7000");
    assert_eq!(o.move_overhead, 5000);
}

#[test]
fn ponder_budget_values() {
    let mut l = Limits::infinite();
    assert_eq!(ponder_budget(&l), u64::MAX);
    l.time = Some(60_000);
    l.movestogo = Some(10);
    // alloc = 6000; hard = min(18000, 20000)
    assert_eq!(ponder_budget(&l), 18_000);
    l.movetime = Some(500);
    l.overhead = 50;
    assert_eq!(ponder_budget(&l), 450);
}

#[test]
fn uci_move_lookup() {
    let pos = Position::startpos();
    let mv = find_uci_move(&pos, "e2e4").unwrap();
    assert_eq!(mv.to_uci(), "e2e4");
    assert!(find_uci_move(&pos, "e2e5").is_none());
    let promo = Position::from_fen("4k3/1P6/8/8/8/8/8/4K3 w - - 0 1").unwrap();
    assert_eq!(find_uci_move(&promo, "b7b8q").unwrap().to_uci(), "b7b8q");
}

#[test]
fn rng_is_splitmix() {
    let mut a = Rng(42);
    let mut b = Rng(42);
    let x = a.next();
    assert_eq!(x, b.next());
    assert_ne!(x, a.next());
    for n in 1..50usize {
        assert!(a.below(n) < n);
    }
}

#[test]
fn adjudication_runs() {
    assert_eq!(adjudicate(0, 0, 3000), (1, 1));
    assert_eq!(adjudicate(1, 1, 2600), (2, 1));
    assert_eq!(adjudicate(2, 1, -3000), (1, -1));
    assert_eq!(adjudicate(4, -1, 100), (0, 0));
}

#[test]
fn tablebase_helpers() {
    assert_eq!(wdl_value(2), 1);
    assert_eq!(wdl_value(1), 0);
    assert_eq!(wdl_value(-1), 0);
    assert_eq!(wdl_value(-2), -1);
    let path = " /tb/a : <EMPTY> ::/tb/b ";
    let dirs = syzygy_dirs(path, b':');
    let names: Vec<&str> = dirs.iter().map(|&(lo, hi)| &path[lo..hi]).collect();
    assert_eq!(names, vec!["/tb/a", "/tb/b"]);
    let none = Tablebases { tables: None };
    assert_eq!(none.max_pieces(), 0);
    assert_eq!(none.probe_wdl(&Position::startpos()), None);
}

#[test]
fn zobrist_table_matches_closed_form() {
    let keys = generate();
    assert_eq!(keys.piece[0], key(0));
    assert_eq!(keys.side_to_move, key(792));
    assert_eq!(keys.piece[384 + 64 + 5], piece_key(Color::Black, PieceType::Knight, 5));
    assert_ne!(keys.castling[1], keys.castling[2]);
}

#[test]
fn square_names() {
    assert_eq!(square_name(0), "a1");
    assert_eq!(square_name(63), "h8");
    assert_eq!(parse_square("e4"), Some(28));
    assert_eq!(parse_square("i1"), None);
    assert_eq!(Move::new(12, 28, 1).to_uci(), "e2e4");
}

#[test]
fn zobrist_keys_are_pairwise_distinct() {
    let mut all: Vec<u64> = (0..793u64).map(key).collect();
    all.sort_unstable();
    all.dedup();
    assert_eq!(all.len(), 793);
}

#[test]
fn go_line_reads_clocks_and_limits() {
    let a = parse_go("go wtime 1000 btime 2000 winc 10 binc 20 movestogo 5 movetime 300");
    assert_eq!(a.wtime, Some(1000));
    assert_eq!(a.btime, Some(2000));
    assert_eq!(a.winc, Some(10));
    assert_eq!(a.binc, Some(20));
    assert_eq!(a.movestogo, Some(5));
    assert_eq!(a.movetime, Some(300));
    assert!(!a.infinite && !a.ponder);
    let w = go_limits(&a, true, 30);
    assert_eq!((w.time, w.inc, w.overhead), (Some(1000), Some(10), 30));
    let b = go_limits(&a, false, 0);
    assert_eq!((b.time, b.inc, b.movestogo, b.movetime), (Some(2000), Some(20), Some(5), Some(300)));
}

#[test]
fn go_line_depth_nodes_mate_and_flags() {
    let a = parse_go("go depth 7 nodes +500");
    assert_eq!(a.depth, Some(7));
    assert_eq!(a.nodes, Some(500));
    assert_eq!(parse_go("go mate 3").depth, Some(6));
    assert_eq!(parse_go("go mate 100").depth, Some(127));
    assert_eq!(parse_go("go depth 99999999999").depth, Some(u32::MAX));
    let p = parse_go("go ponder wtime 5");
    assert!(p.ponder && p.infinite);
    assert_eq!(p.wtime, Some(5));
    let i = parse_go("go infinite");
    assert!(i.infinite && !i.ponder);
    // a keyword whose argument is no number takes nothing, and eats it
    let x = parse_go("go wtime x depth 4");
    assert_eq!(x.wtime, None);
    assert_eq!(x.depth, Some(4));
    let y = parse_go("go wtime depth 4");
    assert_eq!(y.wtime, None);
    assert_eq!(y.depth, None);
}
