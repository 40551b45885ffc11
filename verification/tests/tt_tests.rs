use razor::tt::{BOUND_EXACT, BOUND_LOWER, Tt, score_from_tt, score_to_tt};
use razor::types::Move;

#[test]
fn store_then_probe() {
    let mut tt = Tt::new(1);
    let key = 0x1234_5678_9abc_def0u64;
    assert!(tt.probe(key).is_none());
    tt.store(key, Move(777), 42, 5, BOUND_EXACT);
    let e = tt.probe(key).unwrap();
    assert_eq!((e.mv, e.score, e.depth, e.bound), (777, 42, 5, BOUND_EXACT));
    assert_eq!(tt.probe_move(key), Move(777));
    // a shallower non-exact store keeps the deeper entry
    tt.store(key, Move(5), 7, 2, BOUND_LOWER);
    assert_eq!(tt.probe(key).unwrap().depth, 5);
    // a store without a move keeps the old move
    tt.store(key, Move(0), 9, 6, BOUND_LOWER);
    let e = tt.probe(key).unwrap();
    assert_eq!((e.mv, e.score, e.depth), (777, 9, 6));
    tt.clear();
    assert!(tt.probe(key).is_none());
    assert_eq!(tt.hashfull(), 0);
}

#[test]
fn mate_scores_are_root_relative_in_the_table() {
    assert_eq!(score_to_tt(29_990, 5), 29_995);
    assert_eq!(score_to_tt(-29_990, 5), -29_995);
    assert_eq!(score_to_tt(100, 5), 100);
    for s in [-29_990, -100, 0, 100, 29_990] {
        assert_eq!(score_from_tt(score_to_tt(s, 7), 7), s);
    }
}

#[test]
fn resize_empties_the_table() {
    let mut tt = Tt::new(1);
    tt.store(99, Move(1), 1, 1, BOUND_EXACT);
    tt.resize(2);
    assert!(tt.probe(99).is_none());
}
