use razor::position::{Position, START_FEN};
use razor::sfnnue::{BUCKET_BYTES, BUCKETS, IN, L1, SF_VERSION, SfError, SfNetwork, evaluate_sf};

const DESC: &[u8] = b"test net";

fn ft_at() -> usize {
    16 + DESC.len()
}

fn bucket_at(k: usize) -> usize {
    ft_at() + 2 * L1 + 2 * IN * L1 + 4 * IN * BUCKETS + k * BUCKET_BYTES
}

/// An all-zero network file with a valid header.
fn zero_file() -> Vec<u8> {
    let mut b = Vec::new();
    b.extend_from_slice(&SF_VERSION.to_le_bytes());
    b.extend_from_slice(&0u32.to_le_bytes());
    b.extend_from_slice(&(DESC.len() as u32).to_le_bytes());
    b.extend_from_slice(DESC);
    b.extend_from_slice(&0u32.to_le_bytes());
    b.resize(bucket_at(BUCKETS), 0);
    b
}

fn put_i32(b: &mut [u8], at: usize, v: i32) {
    b[at..at + 4].copy_from_slice(&v.to_le_bytes());
}

/// Offset of the last-layer bias in layer stack `k`.
fn fc2_bias_at(k: usize) -> usize {
    bucket_at(k) + 4 + (16 * 4 + 16 * L1) + (32 * 4 + 32 * 32)
}

#[test]
fn format_errors() {
    assert_eq!(SfNetwork::load(&[0u8; 8]).err(), Some(SfError::Format));
    let mut b = zero_file();
    b[0] ^= 1;
    assert_eq!(SfNetwork::load(&b).err(), Some(SfError::Format));
    let mut b = zero_file();
    b.push(0);
    assert_eq!(SfNetwork::load(&b).err(), Some(SfError::Format));
    let mut b = zero_file();
    b.pop();
    assert_eq!(SfNetwork::load(&b).err(), Some(SfError::Format));
}

#[test]
fn zero_network_evaluates_to_zero() {
    let net = SfNetwork::load(&zero_file()).unwrap();
    let pos = Position::from_fen(START_FEN).unwrap();
    assert_eq!(evaluate_sf(&net, &pos), 0);
}

#[test]
fn output_bias_of_the_chosen_stack() {
    // 32 pieces select stack (32 - 1) / 4 = 7: (1600 / 16) * 3 / 5 = 60
    let mut b = zero_file();
    put_i32(&mut b, fc2_bias_at(7), 1600);
    let net = SfNetwork::load(&b).unwrap();
    let start = Position::from_fen(START_FEN).unwrap();
    assert_eq!(evaluate_sf(&net, &start), 60);
    // three pieces select stack 0, whose bias is zero
    let few = Position::from_fen("4k3/8/8/8/8/8/4P3/4K3 w - - 0 1").unwrap();
    assert_eq!(evaluate_sf(&net, &few), 0);
    // a negative result rounds toward zero at each step: -1601 / 16 = -100
    let mut b = zero_file();
    put_i32(&mut b, fc2_bias_at(7), -1601);
    let net = SfNetwork::load(&b).unwrap();
    assert_eq!(evaluate_sf(&net, &start), -60);
}

#[test]
fn forwarded_first_layer_output() {
    // first-layer output 15 of stack 7 is forwarded: 8128 * 9600 / 8128 = 9600,
    // then (9600 / 16) * 3 / 5 = 360
    let mut b = zero_file();
    put_i32(&mut b, bucket_at(7) + 4 + 4 * 15, 8128);
    let net = SfNetwork::load(&b).unwrap();
    let start = Position::from_fen(START_FEN).unwrap();
    assert_eq!(evaluate_sf(&net, &start), 360);
}

#[test]
fn piece_square_half_difference() {
    // piece-square value 320 in stack 0 (three pieces) for the white pawn's
    // feature from White's view only: (320 - 0) / 2 = 160, (160 / 16) * 3 / 5 = 6
    let pos = Position::from_fen("4k3/8/8/8/8/8/4P3/4K3 w - - 0 1").unwrap();
    // white king on e1: no file mirror, king bucket KB[4] = 31; the pawn on
    // e2 (square 12) has piece code 1, offset 0 from White's view
    let feature = 12 + 0 + 31 * 704;
    let mut b = zero_file();
    let psqt_at = ft_at() + 2 * L1 + 2 * IN * L1;
    put_i32(&mut b, psqt_at + 4 * (feature * BUCKETS), 320);
    let net = SfNetwork::load(&b).unwrap();
    assert_eq!(evaluate_sf(&net, &pos), 6);
    // with Black to move the difference changes sign
    let pos = Position::from_fen("4k3/8/8/8/8/8/4P3/4K3 b - - 0 1").unwrap();
    assert_eq!(evaluate_sf(&net, &pos), -6);
}
