use razor::bitboard::{
    BISHOP_DELTAS, ROOK_DELTAS, bb, between, bishop_attacks, line_through, lsb, popcount,
    ray_past, rook_attacks, slider_attacks_slow,
};
use razor::pext::{
    between_table, bishop_attacks_table, build_line_tables, deposit_bits, init_attack_tables, pext, ray_past_table,
    rook_attacks_table, through_table,
};
use razor::types::parse_square;

#[test]
fn pext_tables_match_slow_path() {
    let t = init_attack_tables();
    // spot-check a handful of squares with pseudo-random occupancies
    let mut state = 0x9e3779b97f4a7c15u64;
    for sq in [0u8, 7, 27, 36, 56, 63] {
        for _ in 0..1000 {
            state = state.wrapping_mul(6364136223846793005).wrapping_add(1442695040888963407);
            let occ = state & state.rotate_left(31);
            assert_eq!(rook_attacks_table(&t, sq, occ), slider_attacks_slow(sq, occ, &ROOK_DELTAS));
            assert_eq!(bishop_attacks_table(&t, sq, occ), slider_attacks_slow(sq, occ, &BISHOP_DELTAS));
            assert_eq!(rook_attacks(sq, occ), rook_attacks_table(&t, sq, occ));
            assert_eq!(bishop_attacks(sq, occ), bishop_attacks_table(&t, sq, occ));
        }
    }
}

#[test]
fn pext_and_deposit_are_inverse_on_the_mask() {
    let mask = 0x0101_0101_0101_01feu64;
    let occ = 0x0001_0100_0000_1234u64;
    let i = pext(occ, mask);
    assert_eq!(deposit_bits(i, mask), occ & mask);
    assert_eq!(pext(0, mask), 0);
    assert_eq!(pext(mask, mask), (1u64 << mask.count_ones()) - 1);
    assert_eq!(deposit_bits(0b101, 0b1011_0000), 0b1001_0000);
}

#[test]
fn ray_past_sanity() {
    let p = parse_square;
    let (a1, a4) = (p("a1").unwrap(), p("a4").unwrap());
    // beyond a4 on the a1->a4 ray = a5,a6,a7,a8
    assert_eq!(ray_past(a1, a4).count_ones(), 4);
    assert_eq!(ray_past(a1, a4) & bb(p("a5").unwrap()), bb(p("a5").unwrap()));
    assert_eq!(ray_past(a1, a4) & bb(p("a3").unwrap()), 0); // a3 is between, not beyond
    // a1 is the edge away from a4 -> nothing beyond
    assert_eq!(ray_past(a4, a1), 0);
    // diagonal: beyond c3 on a1->c3 ray = d4,e5,f6,g7,h8
    let (a1d, c3) = (p("a1").unwrap(), p("c3").unwrap());
    assert_eq!(ray_past(a1d, c3).count_ones(), 5);
    // non-aligned -> empty
    assert_eq!(ray_past(p("a1").unwrap(), p("b3").unwrap()), 0);
}

#[test]
fn between_sanity() {
    let p = parse_square;
    let (a1, h8) = (p("a1").unwrap(), p("h8").unwrap());
    assert_eq!(between(a1, h8).count_ones(), 6);
    let (e1, e8) = (p("e1").unwrap(), p("e8").unwrap());
    assert_eq!(between(e1, e8).count_ones(), 6);
    let (a1, b3) = (p("a1").unwrap(), p("b3").unwrap());
    assert_eq!(between(a1, b3), 0);
}

#[test]
fn rook_on_empty_board_sees_fourteen_squares() {
    for sq in 0u8..64 {
        assert_eq!(rook_attacks(sq, 0).count_ones(), 14);
    }
    // a rook on a1 blocked on a2 and b1 sees exactly those two squares
    let occ = bb(8) | bb(1);
    assert_eq!(rook_attacks(0, occ), occ);
}

#[test]
fn line_through_and_lsb_and_popcount() {
    let p = parse_square;
    let line = line_through(p("a1").unwrap(), p("c3").unwrap());
    assert_eq!(line.count_ones(), 8); // the long diagonal
    assert_eq!(line_through(p("a1").unwrap(), p("b3").unwrap()), 0);
    assert_eq!(lsb(0b1000), 3);
    assert_eq!(popcount(0xff00), 8);
    assert_eq!(popcount(0), 0);
}

#[test]
fn line_tables_match_the_direct_computation() {
    let t = build_line_tables();
    for a in 0..64u8 {
        for b in 0..64u8 {
            assert_eq!(between_table(&t, a, b), between(a, b));
            assert_eq!(through_table(&t, a, b), line_through(a, b));
            assert_eq!(ray_past_table(&t, a, b), ray_past(a, b));
        }
    }
}
