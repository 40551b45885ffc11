//! Training-data generation: self-play from randomized openings, each kept
//! position labelled with a fixed-node search score and the game result.
//! Scores are side-to-move relative here; the writer makes them
//! white-relative.

use crate::eval::{MATE_BOUND, Score};
use crate::fen::fen_string;
use crate::movegen::{MoveList, generate_moves, lemma_generated_empty, lemma_playable, listed, no_legal_move};
use crate::position::{NO_SQUARE, Position, start_code};
use crate::nnue::Network;
use crate::search::{Limits, SCORE_LIMIT, Searcher, net_ok};
use std::sync::Arc;
use crate::tt::Tt;
use crate::types::{Color, Move, move_none};
use crate::zobrist::{GAMMA, mix_spec, splitmix64};
use vstd::prelude::*;

verus! {

/// Deterministic SplitMix64, for reproducible self-play from a seed.
pub struct Rng(pub u64);

impl Rng {
    pub fn next(&mut self) -> (r: u64)
        ensures
            final(self).0 == old(self).0.wrapping_add(GAMMA),
            r == mix_spec(final(self).0),
    {
        let mut st = self.0;
        let r = splitmix64(&mut st);
        self.0 = st;
        r
    }

    /// A number below `n` (the next output modulo `n`).
    pub fn below(&mut self, n: usize) -> (r: usize)
        requires
            n > 0,
        ensures
            final(self).0 == old(self).0.wrapping_add(GAMMA),
            r == mix_spec(final(self).0) % (n as u64),
            r < n,
    {
        (self.next() % n as u64) as usize
    }
}

pub const NODES_PER_MOVE: u64 = 5_000;

pub const MAX_GAME_PLIES: usize = 400;

pub const RANDOM_PLIES_MIN: usize = 4;

pub const RANDOM_PLIES_MAX: usize = 8;

/// Adjudicate a win after this many consecutive plies beyond the cutoff.
pub const ADJ_WIN_PLIES: usize = 6;

pub const ADJ_WIN_CP: Score = 2500;

/// A kept position: its FEN, the search score and the side to move.
pub struct Sample {
    pub fen: String,
    pub score: Score,
    pub stm: Color,
}

/// A sample is the FEN of a well-formed position not in check, with a score
/// short of the mate bounds.
#[verifier::opaque]
pub open spec fn sample_ok(s: Sample) -> bool {
    &&& exists|p: Position|
        #![trigger fen_string(p)]
        p.wf() && s.fen@ == fen_string(p) && s.stm == p.stm && !p.in_check_spec()
    &&& -MATE_BOUND < s.score < MATE_BOUND
}

/// `p` is the start position.
pub open spec fn is_start(p: Position) -> bool {
    &&& p.wf()
    &&& forall|s: int| 0 <= s < 64 ==> #[trigger] p.mailbox[s] == start_code(s)
    &&& p.stm == Color::White
    &&& p.castling == 15
    &&& p.ep == NO_SQUARE
    &&& p.halfmove == 0
    &&& p.fullmove == 1
}

/// `p` is reached from the start position by `n` legal moves.
pub open spec fn reached(p: Position, n: nat) -> bool
    decreases n,
{
    if n == 0 {
        is_start(p)
    } else {
        exists|q: Position, m: Move|
            #![trigger q.made(m, p)]
            reached(q, (n - 1) as nat) && listed(q, m, false) && q.made(m, p)
    }
}

/// The sample is the FEN of a position reached from the start by legal moves.
pub open spec fn sample_reached(s: Sample) -> bool {
    exists|p: Position, n: nat|
        #![trigger reached(p, n)]
        reached(p, n) && s.fen@ == fen_string(p) && s.stm == p.stm
}

/// A drawn result stands on a position reached from the start: there the
/// side to move has no move and is not in check (or the random opening
/// found no move at all), the fifty-move rule applies, or the game has run
/// to its ply cap.
pub open spec fn drawn_end() -> bool {
    exists|p: Position, n: nat|
        #![trigger reached(p, n)]
        reached(p, n) && ((no_legal_move(p) && (!p.in_check_spec() || n < RANDOM_PLIES_MAX)) || (
        !no_legal_move(p) && p.halfmove >= 100) || n >= MAX_GAME_PLIES)
}

/// A decisive result `w` (white's half points) stands on a position reached
/// from the start: the side to move there is checkmated, or the adjudication
/// run extended by its search score reached the win threshold.
pub open spec fn decisive_end(w: u8) -> bool {
    exists|p: Position, n: nat|
        #![trigger reached(p, n)]
        reached(p, n) && ((no_legal_move(p) && p.in_check_spec() && w == (if p.stm == Color::White {
            0u8
        } else {
            2u8
        })) || (!no_legal_move(p) && p.halfmove < 100 && exists|c: int, sg: int, cp: int|
            #![trigger adjudicate_spec(c, sg, cp)]
            adjudicate_spec(c, sg, cp).0 >= ADJ_WIN_PLIES && w == (if adjudicate_spec(c, sg, cp).1 > 0 {
                2u8
            } else {
                0u8
            })))
}

fn make_sample(pos: &Position, score: Score) -> (r: Sample)
    requires
        pos.wf(),
        !pos.in_check_spec(),
        -MATE_BOUND < score < MATE_BOUND,
    ensures
        sample_ok(r),
        r.fen@ == fen_string(*pos),
        r.score == score,
        r.stm == pos.stm,
{
    let fen = pos.to_fen();
    let r = Sample { fen, score, stm: pos.stm };
    proof {
        reveal(sample_ok);
        assert(pos.wf() && r.fen@ == fen_string(*pos) && r.stm == pos.stm && !pos.in_check_spec());
    }
    r
}

fn keep(samples: &mut Vec<Sample>, s: Sample)
    requires
        forall|i: int| 0 <= i < old(samples)@.len() ==> sample_ok(#[trigger] old(samples)@[i]),
        sample_ok(s),
    ensures
        final(samples)@ == old(samples)@.push(s),
        forall|i: int| 0 <= i < final(samples)@.len() ==> sample_ok(#[trigger] final(samples)@[i]),
{
    let ghost before = samples@;
    samples.push(s);
    proof {
        assert forall|i: int| 0 <= i < samples@.len() implies sample_ok(#[trigger] samples@[i]) by {
            if i < before.len() {
                assert(samples@[i] == before[i]);
            }
        }
    }
}

/// The white-relative direction of a score beyond the adjudication cutoff
/// (0 inside it).
pub open spec fn adj_dir(white_cp: int) -> int {
    if white_cp > ADJ_WIN_CP {
        1
    } else if white_cp < -ADJ_WIN_CP {
        -1
    } else {
        0
    }
}

/// Run length and direction after one more ply: a score beyond the cutoff in
/// the same direction extends the run, anything else starts a new one.
#[verifier::opaque]
pub open spec fn adjudicate_spec(count: int, sign: int, white_cp: int) -> (int, int) {
    let s = adj_dir(white_cp);
    if s != 0 && s == sign {
        (count + 1, sign)
    } else {
        (if s != 0 {
            1
        } else {
            0
        }, s)
    }
}

/// Win adjudication: count consecutive plies whose white-relative score is
/// beyond the cutoff in the same direction. Returns the new count and sign.
pub fn adjudicate(count: usize, sign: i32, white_cp: Score) -> (r: (usize, i32))
    requires
        count < usize::MAX,
    ensures
        (r.0 as int, r.1 as int) == adjudicate_spec(count as int, sign as int, white_cp as int),
        r.0 <= count + 1,
        -1 <= r.1 <= 1,
{
    proof {
        reveal(adjudicate_spec);
    }
    let s: i32 = if white_cp > ADJ_WIN_CP {
        1
    } else if white_cp < -ADJ_WIN_CP {
        -1
    } else {
        0
    };
    if s != 0 && s == sign {
        (count + 1, sign)
    } else {
        (if s != 0 {
            1
        } else {
            0
        }, s)
    }
}

/// A fresh silent search of `NODES_PER_MOVE` nodes: best move, score, and
/// the table back.
fn fixed_node_search(
    tt: Tt,
    lmr: &Vec<u32>,
    pos: &Position,
    history: &Vec<u64>,
    net: &mut Option<Arc<Network>>,
) -> (r: (Move, Score, Tt))
    requires
        tt.wf(),
        lmr@.len() == 4096,
        pos.wf(),
        net_ok(*old(net)),
    ensures
        r.0 == Move(0) || (pos.move_ok(r.0) && listed(*pos, r.0, false)),
        r.0 == Move(0) ==> no_legal_move(*pos),
        -SCORE_LIMIT <= r.1 <= SCORE_LIMIT,
        r.2.wf(),
        net_ok(*final(net)),
{
    let mut s = Searcher::new(tt, copy_table(lmr));
    s.set_silent(true);
    match net.take() {
        Some(n) => s.set_network(n),
        None => {},
    }
    let mut limits = Limits::infinite();
    limits.nodes = Some(NODES_PER_MOVE);
    let best = s.go(pos, &limits, history.as_slice());
    let score = s.last_score();
    *net = s.take_network();
    (best, score, s.into_tt())
}

fn copy_table(v: &Vec<u32>) -> (r: Vec<u32>)
    ensures
        r@ == v@,
{
    let mut out: Vec<u32> = Vec::new();
    let mut i: usize = 0;
    while i < v.len()
        invariant
            i <= v@.len(),
            out@ == v@.subrange(0, i as int),
        decreases v@.len() - i,
    {
        out.push(v[i]);
        i += 1;
        proof {
            assert(out@ =~= v@.subrange(0, i as int));
        }
    }
    proof {
        assert(v@.subrange(0, i as int) =~= v@);
    }
    out
}


/// How one ply of self-play ends: the game is over (white's half points), or
/// it goes on from a new position with the adjudication run.
pub enum PlyOutcome {
    Over(u8),
    Next(Position, usize, i32),
}

/// One ply of self-play at `pos`: detect the end of the game, search, keep a
/// sample, adjudicate, play the best move.
fn game_ply(
    tt: Tt,
    lmr: &Vec<u32>,
    pos: &Position,
    history: &mut Vec<u64>,
    samples: &mut Vec<Sample>,
    adj_count: usize,
    adj_sign: i32,
    net: &mut Option<Arc<Network>>,
) -> (r: (Tt, PlyOutcome))
    requires
        tt.wf(),
        lmr@.len() == 4096,
        pos.wf(),
        net_ok(*old(net)),
        adj_count < MAX_GAME_PLIES,
        forall|i: int| 0 <= i < old(samples)@.len() ==> sample_ok(#[trigger] old(samples)@[i]),
    ensures
        r.0.wf(),
        net_ok(*final(net)),
        forall|i: int| 0 <= i < final(samples)@.len() ==> sample_ok(#[trigger] final(samples)@[i]),
        old(samples)@.len() <= final(samples)@.len() <= old(samples)@.len() + 1,
        final(samples)@.subrange(0, old(samples)@.len() as int) == old(samples)@,
        forall|i: int|
            old(samples)@.len() <= i < final(samples)@.len() ==> (#[trigger] final(samples)@[i]).fen@
                == fen_string(*pos) && final(samples)@[i].stm == pos.stm,
        match r.1 {
            PlyOutcome::Over(w) => w <= 2,
            PlyOutcome::Next(p, c, sg) => p.wf() && c <= adj_count + 1 && -1 <= sg <= 1,
        },
        // checkmate or stalemate ends the game
        no_legal_move(*pos) ==> r.1 == PlyOutcome::Over(
            if pos.in_check_spec() {
                if pos.stm == Color::White {
                    0u8
                } else {
                    2u8
                }
            } else {
                1u8
            },
        ),
        // the fifty-move rule
        !no_legal_move(*pos) && pos.halfmove >= 100 ==> r.1 == PlyOutcome::Over(1u8),
        // otherwise the search score feeds the adjudication run, which either
        // decides the game or lets the searched move be played
        !no_legal_move(*pos) && pos.halfmove < 100 ==> exists|cp: int|
            #![trigger adjudicate_spec(adj_count as int, adj_sign as int, cp)]
            -SCORE_LIMIT <= cp <= SCORE_LIMIT && {
                let (c, sg) = adjudicate_spec(adj_count as int, adj_sign as int, cp);
                match r.1 {
                    PlyOutcome::Over(w) => c >= ADJ_WIN_PLIES && w == (if sg > 0 {
                        2u8
                    } else {
                        0u8
                    }),
                    PlyOutcome::Next(p, c2, sg2) => c < ADJ_WIN_PLIES && c2 == c && sg2 == sg && exists|
                        m: Move,
                    | #![trigger pos.made(m, p)] listed(*pos, m, false) && pos.made(m, p),
                }
            },
{
    let mut list = MoveList::new();
    let ghost fresh = list.moves@;
    generate_moves(pos, &mut list);
    proof {
        assert(fresh =~= Seq::<Move>::empty());
        lemma_generated_empty(*pos, list.moves@);
    }
    if list.len() == 0 {
        // checkmate or stalemate
        let w: u8 = if pos.in_check() {
            if pos.stm == Color::White {
                0
            } else {
                2
            }
        } else {
            1
        };
        return (tt, PlyOutcome::Over(w));
    }
    if pos.halfmove >= 100 {
        return (tt, PlyOutcome::Over(1));
    }
    let (best, score, t2) = fixed_node_search(tt, lmr, pos, history, net);
    // keep clean training positions: not in check, quiet best move, score
    // short of a mate
    let in_check = pos.in_check();
    if !in_check && !best.is_capture() && !best.is_promo() && -MATE_BOUND < score && score
        < MATE_BOUND {
        keep(samples, make_sample(pos, score));
    }
    // win adjudication from white's point of view
    let white_cp = if pos.stm == Color::White {
        score
    } else {
        -score
    };
    let (c2, s2) = adjudicate(adj_count, adj_sign, white_cp);
    proof {
        assert(adjudicate_spec(adj_count as int, adj_sign as int, white_cp as int) == (c2 as int, s2 as int));
    }
    if c2 >= ADJ_WIN_PLIES {
        return (t2, PlyOutcome::Over(if s2 > 0 {
            2
        } else {
            0
        }));
    }
    if best == move_none() {
        // the search gives the null move only when there is no move
        return (t2, PlyOutcome::Over(1));
    }
    history.push(pos.key);
    let child = pos.make(best);
    proof {
        assert(listed(*pos, best, false) && pos.made(best, child));
    }
    (t2, PlyOutcome::Next(child, c2, s2))
}

/// Play one self-play game: a few random opening moves, then fixed-node
/// searches. Returns the kept samples, white's result in half points
/// (2 win, 1 draw, 0 loss), and the table back.
pub fn play_game(tt: Tt, lmr: &Vec<u32>, rng: &mut Rng, net: &mut Option<Arc<Network>>) -> (r: (Vec<Sample>, u8, Tt))
    requires
        tt.wf(),
        lmr@.len() == 4096,
        net_ok(*old(net)),
    ensures
        net_ok(*final(net)),
        r.1 <= 2,
        r.2.wf(),
        forall|i: int| 0 <= i < r.0@.len() ==> sample_ok(#[trigger] r.0@[i]),
        forall|i: int| 0 <= i < r.0@.len() ==> sample_reached(#[trigger] r.0@[i]),
        r.1 != 1 ==> decisive_end(r.1),
        r.1 == 1 ==> drawn_end(),
{
    let mut tt = tt;
    let mut pos = Position::startpos();
    let mut history: Vec<u64> = Vec::new();
    let mut samples: Vec<Sample> = Vec::new();

    // randomized opening: a few uniformly random legal moves for diversity
    let random_plies = RANDOM_PLIES_MIN + rng.below(RANDOM_PLIES_MAX - RANDOM_PLIES_MIN + 1);
    proof {
        assert(reached(pos, 0));
    }
    let mut k: usize = 0;
    while k < random_plies
        invariant
            pos.wf(),
            samples@.len() == 0,
            tt.wf(),
            net_ok(*net),
            random_plies <= RANDOM_PLIES_MAX,
            k <= random_plies,
            reached(pos, k as nat),
        decreases random_plies - k,
    {
        let mut list = MoveList::new();
        let ghost fresh = list.moves@;
        generate_moves(&pos, &mut list);
        proof {
            assert(fresh =~= Seq::<Move>::empty());
            lemma_generated_empty(pos, list.moves@);
        }
        if list.len() == 0 {
            proof {
                assert(reached(pos, k as nat) && no_legal_move(pos) && (k as nat) < RANDOM_PLIES_MAX);
            }
            return (samples, 1, tt);  // dead opening, scored as a draw
        }
        proof {
            assert(list.moves@.subrange(0, 0) =~= Seq::<Move>::empty());
        }
        history.push(pos.key);
        let j = rng.below(list.len());
        let mv = list.get(j);
        proof {
            lemma_playable(pos, mv);
        }
        let ghost prev = pos;
        pos = pos.make(mv);
        proof {
            assert(reached(prev, k as nat) && listed(prev, mv, false) && prev.made(mv, pos));
            assert(reached(pos, (k + 1) as nat));
        }
        k += 1;
    }

    let mut white_points: u8 = 1;
    let mut adj_count: usize = 0;
    let mut adj_sign: i32 = 0;
    let mut ply: usize = 0;
    while ply < MAX_GAME_PLIES
        invariant_except_break
            white_points == 1,
        invariant
            pos.wf(),
            tt.wf(),
            lmr@.len() == 4096,
            net_ok(*net),
            white_points <= 2,
            adj_count <= ply,
            -1 <= adj_sign <= 1,
            forall|i: int| 0 <= i < samples@.len() ==> sample_ok(#[trigger] samples@[i]),
            forall|i: int| 0 <= i < samples@.len() ==> sample_reached(#[trigger] samples@[i]),
            reached(pos, (random_plies + ply) as nat),
            white_points != 1 ==> decisive_end(white_points),
        ensures
            white_points == 1 ==> drawn_end(),
        decreases MAX_GAME_PLIES - ply,
    {
        let ghost before = samples@;
        let ghost n: nat = (random_plies + ply) as nat;
        let (t2, outcome) = game_ply(tt, lmr, &pos, &mut history, &mut samples, adj_count, adj_sign, net);
        proof {
            assert forall|i: int| 0 <= i < samples@.len() implies sample_reached(#[trigger] samples@[i]) by {
                if i < before.len() {
                    assert(samples@[i] == samples@.subrange(0, before.len() as int)[i]);
                } else {
                    assert(reached(pos, n) && samples@[i].fen@ == fen_string(pos) && samples@[i].stm == pos.stm);
                }
            }
        }
        tt = t2;
        match outcome {
            PlyOutcome::Over(w) => {
                proof {
                    if w == 1 {
                        assert(reached(pos, n));
                    }
                    if w != 1 {
                        if no_legal_move(pos) {
                            assert(reached(pos, n));
                        } else {
                            let cp = choose|cp: int|
                                #![trigger adjudicate_spec(adj_count as int, adj_sign as int, cp)]
                                -SCORE_LIMIT <= cp <= SCORE_LIMIT && {
                                    let (c, sg) = adjudicate_spec(adj_count as int, adj_sign as int, cp);
                                    c >= ADJ_WIN_PLIES && w == (if sg > 0 {
                                        2u8
                                    } else {
                                        0u8
                                    })
                                };
                            assert(adjudicate_spec(adj_count as int, adj_sign as int, cp).0 >= ADJ_WIN_PLIES);
                            assert(reached(pos, n));
                        }
                    }
                }
                white_points = w;
                break;
            },
            PlyOutcome::Next(p, c, sg) => {
                proof {
                    let cp = choose|cp: int|
                        #![trigger adjudicate_spec(adj_count as int, adj_sign as int, cp)]
                        -SCORE_LIMIT <= cp <= SCORE_LIMIT && {
                            let (c0, sg0) = adjudicate_spec(adj_count as int, adj_sign as int, cp);
                            c0 < ADJ_WIN_PLIES && c == c0 && sg == sg0 && exists|m: Move|
                                #![trigger pos.made(m, p)]
                                listed(pos, m, false) && pos.made(m, p)
                        };
                    let m = choose|m: Move| #![trigger pos.made(m, p)] listed(pos, m, false) && pos.made(m, p);
                    assert(reached(pos, n) && listed(pos, m, false) && pos.made(m, p));
                    assert(reached(p, n + 1));
                }
                pos = p;
                adj_count = c;
                adj_sign = sg;
            },
        }
        ply += 1;
    }
    (samples, white_points, tt)
}

} // verus!
