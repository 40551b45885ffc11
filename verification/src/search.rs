//! Search: negamax alpha-beta with iterative deepening and aspiration
//! windows, a transposition table, MVV-LVA / killer / history move ordering,
//! null-move, reverse-futility and futility pruning, late-move reductions,
//! singular extensions, and a quiescence search pruned by SEE.

use crate::eval::{DRAW, MATE, MATE_BOUND, PIECE_VALUE, Score, evaluate_psqt, psqt_eval_spec};
use crate::movegen::{
    MoveList, generate_captures, generate_moves, lemma_listed_generated, lemma_playable, listed, no_legal_move, playable,
};
use crate::nnue::{Accumulator, Network, apply};
use crate::position::{Position, code_piece};
use crate::see::see;
use crate::tt::{
    BOUND_EXACT, BOUND_LOWER, BOUND_UPPER, Tt, TtEntry, index_spec, probe_spec, score_from_tt, score_to_tt,
};
use crate::tune::{Tunables, default_spec};
use crate::types::{
    Color, Move, PieceType, color_index, flags_capture, int_dec_spec, move_flags, move_from,
    move_none, move_to, piece_index, push_char, push_int,
};
use vstd::prelude::*;

verus! {

pub const MAX_PLY: usize = 128;

/// Largest magnitude of a score the search returns (the static evaluation
/// stays within it; mate scores are far inside).
pub const SCORE_LIMIT: Score = 64_000;

/// Largest magnitude of a window bound at ply 0; each ply may add one.
pub const WINDOW_LIMIT: Score = 100_000;

#[verifier::external_type_specification]
#[verifier::external_body]
pub struct ExInstant(std::time::Instant);

/// Reads the clock with `std::time::Instant::now`. Nothing is promised of the
/// reading.
#[verifier::external_body]
fn clock_now() -> std::time::Instant {
    std::time::Instant::now()
}

/// Whole milliseconds since `start`, from `Instant::elapsed` and
/// `Duration::as_millis`. Nothing is promised of the value: it depends on the
/// clock.
#[verifier::external_body]
fn elapsed_ms(start: &std::time::Instant) -> u64 {
    start.elapsed().as_millis() as u64
}

/// Reads a stop request with `AtomicBool::load` (relaxed). Nothing is
/// promised of the value: another thread sets it.
#[verifier::external_body]
fn stop_requested(flag: &std::sync::Arc<std::sync::atomic::AtomicBool>) -> bool {
    flag.load(std::sync::atomic::Ordering::Relaxed)
}

/// Search limits from the `go` command.
pub struct Limits {
    /// our clock in ms
    pub time: Option<u64>,
    /// our increment in ms
    pub inc: Option<u64>,
    pub movetime: Option<u64>,
    pub depth: Option<u32>,
    pub nodes: Option<u64>,
    /// per-move communication overhead reserve in ms (UCI Move Overhead)
    pub overhead: u64,
    /// moves to the next time control, if given
    pub movestogo: Option<u64>,
}

impl Limits {
    /// No limit at all; overhead 0.
    pub fn infinite() -> (r: Limits)
        ensures
            r.time is None && r.inc is None && r.movetime is None && r.depth is None
                && r.nodes is None && r.movestogo is None,
            r.overhead == 0,
    {
        Limits {
            time: None,
            inc: None,
            movetime: None,
            depth: None,
            nodes: None,
            overhead: 0,
            movestogo: None,
        }
    }
}

pub open spec fn sat_sub(a: u64, b: u64) -> u64 {
    if a >= b {
        (a - b) as u64
    } else {
        0
    }
}

pub open spec fn opt_or(o: Option<u64>, d: u64) -> u64 {
    match o {
        Some(v) => v,
        None => d,
    }
}

/// Clock time left after the overhead reserve, at least 1 ms.
pub open spec fn usable_time(t: u64, overhead: u64) -> u64 {
    if sat_sub(t, overhead) >= 1 {
        sat_sub(t, overhead)
    } else {
        1
    }
}

/// The per-move allocation from the clock: 1/25 of the time plus half the
/// increment.
pub open spec fn alloc_spec(l: Limits) -> int {
    usable_time(opt_or(l.time, 0), l.overhead) / 25 + opt_or(l.inc, 0) / 2
}

/// The limits admit a budget computation without overflow.
pub open spec fn budget_ok(l: Limits) -> bool {
    l.movetime is Some || l.time is None || 3 * alloc_spec(l) <= u64::MAX
}

/// (soft, hard) time limits in ms: stop iterating after the soft limit, abort
/// the search at the hard limit.
pub open spec fn budget_spec(l: Limits) -> (u64, u64) {
    match l.movetime {
        Some(mt) => (sat_sub(mt, l.overhead), sat_sub(mt, l.overhead / 2)),
        None => match l.time {
            Some(t0) => {
                // soft: the allocation, keeping 30 ms of the usable time;
                // hard: three allocations, at most a third of it, at least 1
                let t = usable_time(t0, l.overhead);
                let alloc = alloc_spec(l);
                (
                    vstd::math::min(alloc, sat_sub(t, 30) as int) as u64,
                    vstd::math::max(1, vstd::math::min(3 * alloc, (t / 3) as int)) as u64,
                )
            },
            None => (u64::MAX, u64::MAX),
        },
    }
}

/// The time budget for a search under `l`.
pub fn time_budget(l: &Limits) -> (r: (u64, u64))
    requires
        budget_ok(*l),
    ensures
        r == budget_spec(*l),
{
    match l.movetime {
        Some(mt) => (mt.saturating_sub(l.overhead), mt.saturating_sub(l.overhead / 2)),
        None => match l.time {
            Some(t0) => {
                let inc = match l.inc {
                    Some(i) => i,
                    None => 0,
                };
                let t1 = t0.saturating_sub(l.overhead);
                let t = if t1 >= 1 {
                    t1
                } else {
                    1
                };
                let alloc = t / 25 + inc / 2;
                let t30 = t.saturating_sub(30);
                let soft = if alloc <= t30 {
                    alloc
                } else {
                    t30
                };
                let h = if 3 * alloc <= t / 3 {
                    3 * alloc
                } else {
                    t / 3
                };
                (soft, if h >= 1 {
                    h
                } else {
                    1
                })
            },
            None => (u64::MAX, u64::MAX),
        },
    }
}


/// Half of `x`, rounded toward zero (integer division of machine integers).
pub open spec fn trunc_half(x: int) -> int {
    if x >= 0 {
        x / 2
    } else {
        -((-x) / 2)
    }
}

/// One aspiration step after a search returned `s` for window
/// `(alpha, beta)`: on a fail low, move beta to the middle and alpha down by
/// `delta`; on a fail high, move beta up by `delta` (both capped at the mate
/// bounds). Done when `s` is inside the window, or when it fails against a
/// bound that is already at the mate bound.
pub fn aspiration_update(alpha: Score, beta: Score, delta: Score, s: Score) -> (r: (Score, Score, bool))
    requires
        -MATE <= alpha <= SCORE_LIMIT,
        -SCORE_LIMIT <= beta <= SCORE_LIMIT,
        25 <= delta <= 2_000_000,
        -SCORE_LIMIT <= s <= SCORE_LIMIT,
    ensures
        r.2 == !((s <= alpha && alpha > -MATE) || (!(s <= alpha && alpha > -MATE) && s >= beta && beta < MATE)),
        (s <= alpha && alpha > -MATE) ==> r.0 == (if s - delta > -MATE { s - delta } else { -MATE as int }) && r.1 == trunc_half(alpha + beta),
        (!(s <= alpha && alpha > -MATE) && s >= beta && beta < MATE) ==> r.0 == alpha && r.1 == (if s + delta < MATE { s + delta } else { MATE as int }),
        !r.2 ==> -MATE <= r.0 <= SCORE_LIMIT && -SCORE_LIMIT <= r.1 <= SCORE_LIMIT,
        !r.2 ==> (r.0 < alpha || (r.0 == alpha && r.1 > beta)),
{
    if s <= alpha && alpha > -MATE {
        let b = (alpha + beta) / 2;
        let a = if s - delta > -MATE {
            s - delta
        } else {
            -MATE
        };
        (a, b, false)
    } else if s >= beta && beta < MATE {
        let b = if s + delta < MATE {
            s + delta
        } else {
            MATE
        };
        (alpha, b, false)
    } else {
        (alpha, beta, true)
    }
}

/// One completed iteration of iterative deepening.
#[derive(Clone, Copy, Debug)]
pub struct IterationReport {
    pub depth: u32,
    pub score: Score,
    pub nodes: u64,
    pub time_ms: u64,
    pub best: Move,
}

pub struct Searcher {
    pub nodes: u64,
    pub tt: Tt,
    start: std::time::Instant,
    soft_limit_ms: u64,
    hard_limit_ms: u64,
    node_limit: u64,
    max_depth: u32,
    stopped: bool,
    /// zobrist keys of the positions preceding the node being visited
    keys: Vec<u64>,
    best_root: Move,
    /// root score (stm-relative cp) of the last completed iteration
    pub root_score: Score,
    /// record no iteration reports
    pub silent: bool,
    /// two killer moves per ply (quiets that caused beta cutoffs), at 2*ply
    /// and 2*ply + 1
    killers: Vec<Move>,
    /// butterfly history [stm][from][to]: cutoff counter for quiet ordering
    history: Vec<i32>,
    /// move excluded from search at each ply (singular-extension
    /// verification searches); the null move normally
    excluded: Vec<Move>,
    tunables: Tunables,
    /// late-move reductions indexed by depth * 64 + move count
    lmr: Vec<u32>,
    /// iterations completed by the last `go`, oldest first
    pub reports: Vec<IterationReport>,
    /// set by another thread to end the search (UCI `stop`)
    stop_flag: Option<std::sync::Arc<std::sync::atomic::AtomicBool>>,
    /// the network evaluating positions, when one is loaded
    net: Option<std::sync::Arc<Network>>,
    /// evaluate with the network (when one is loaded) rather than the
    /// piece-square tables
    use_nnue: bool,
    /// network accumulator stack, one per ply, updated incrementally
    acc: Vec<Accumulator>,
}

/// No network, or a well-formed one.
pub open spec fn net_ok(net: Option<std::sync::Arc<Network>>) -> bool {
    net matches Some(n) ==> (*n).wf()
}

/// Tunables small enough for the search's arithmetic.
pub open spec fn tunables_ok(t: Tunables) -> bool {
    &&& -100_000_000 <= t.rfp_margin <= 100_000_000
    &&& -100_000_000 <= t.fut_base <= 100_000_000
    &&& -100_000_000 <= t.fut_scale <= 100_000_000
}

pub open spec fn piece_value(pt: PieceType) -> int {
    PIECE_VALUE[piece_index(pt)] as int
}

pub open spec fn hist_index(c: Color, mv: Move) -> int {
    (color_index(c) * 64 + move_from(mv)) * 64 + move_to(mv)
}

/// A per-ply margin times a small depth.
fn scaled(m: i32, depth: u32) -> (r: i32)
    requires
        -100_000_000 <= m <= 100_000_000,
        depth <= 8,
    ensures
        r == m * depth,
        -800_000_000 <= r <= 800_000_000,
{
    proof {
        assert(-800_000_000 <= m * depth <= 800_000_000) by (nonlinear_arith)
            requires
                -100_000_000 <= m <= 100_000_000,
                depth <= 8,
        ;
    }
    m * depth as i32
}

/// The butterfly history slot of a move of `stm`.
pub open spec fn history_index(stm: Color, mv: Move) -> int {
    (color_index(stm) * 64 + move_from(mv)) * 64 + move_to(mv)
}

/// A history counter after a cutoff at `depth`: raised by the square of the
/// depth, and halved once past 800000.
pub open spec fn cutoff_history(h: int, depth: int) -> int {
    if h + depth * depth > 800_000 {
        (h + depth * depth) / 2
    } else {
        h + depth * depth
    }
}

/// Every history counter lies in `0..=800_000`.
#[verifier::opaque]
pub open spec fn history_ok(h: Seq<i32>) -> bool {
    forall|i: int| 0 <= i < h.len() ==> 0 <= #[trigger] h[i] <= 800_000
}

/// Depth and window bounds for a node at `ply`.
pub open spec fn node_ok(depth: u32, alpha: Score, beta: Score, ply: usize) -> bool {
    &&& ply < MAX_PLY
    &&& depth <= 2 * ply + 256
    &&& -(WINDOW_LIMIT + ply) <= alpha <= WINDOW_LIMIT + ply
    &&& -(WINDOW_LIMIT + ply) <= beta <= WINDOW_LIMIT + ply
}

/// Swapping two entries keeps the multiset of a sequence.
proof fn lemma_swap_multiset<A>(s: Seq<A>, a: int, b: int)
    requires
        0 <= a < s.len(),
        0 <= b < s.len(),
    ensures
        s.update(a, s[b]).update(b, s[a]).to_multiset() =~= s.to_multiset(),
{
    broadcast use vstd::seq_lib::to_multiset_update;
    broadcast use vstd::multiset::group_multiset_axioms;

    let mid = s.update(a, s[b]);
    let fin = mid.update(b, s[a]);
    assert(mid.to_multiset() == s.to_multiset().insert(s[b]).remove(s[a]));
    assert(fin.to_multiset() == mid.to_multiset().insert(s[a]).remove(mid[b]));
    if a == b {
        assert(fin =~= s);
    } else {
        assert(mid[b] == s[b]);
        assert forall|x: A| #[trigger] fin.to_multiset().count(x) == s.to_multiset().count(x) by {
            broadcast use vstd::seq_lib::group_to_multiset_ensures;
            assert(s.to_multiset().count(s[a]) >= 1) by {
                assert(s.contains(s[a]));
            }
        }
    }
}

impl Searcher {
    pub closed spec fn wf(&self) -> bool {
        &&& self.tt.wf()
        &&& self.killers@.len() == 2 * MAX_PLY
        &&& self.history@.len() == 8192
        &&& self.excluded@.len() == MAX_PLY
        &&& self.lmr@.len() == 4096
        &&& history_ok(self.history@)
        &&& tunables_ok(self.tunables)
        &&& -SCORE_LIMIT <= self.root_score <= SCORE_LIMIT
        &&& self.acc@.len() == MAX_PLY + 2
        &&& forall|i: int| 0 <= i < MAX_PLY + 2 ==> #[trigger] self.acc@[i].shape_ok()
        &&& net_ok(self.net)
    }

    /// The network evaluates this searcher's positions.
    pub closed spec fn nnue_active(&self) -> bool {
        self.use_nnue && self.net is Some
    }

    /// The root move reported so far: none, or a legal move of `pos` that
    /// `make` can play.
    pub closed spec fn root_move_ok(&self, pos: Position) -> bool {
        self.best_root == Move(0) || (playable(pos, self.best_root) && listed(pos, self.best_root, false))
    }

    /// What the transposition table holds for `key`.
    pub closed spec fn tt_entry(&self, key: u64) -> Option<TtEntry> {
        probe_spec(self.tt.slots_spec()[index_spec(key, self.tt.len_spec())], key)
    }

    /// Whether iteration reports are suppressed.
    pub closed spec fn silent_spec(&self) -> bool {
        self.silent
    }

    /// The network loaded, if any.
    pub closed spec fn network_spec(&self) -> Option<std::sync::Arc<Network>> {
        self.net
    }

    /// Whether the network is switched on.
    pub closed spec fn use_nnue_spec(&self) -> bool {
        self.use_nnue
    }

    /// The flag another thread may set to end searches, if any.
    pub closed spec fn stop_flag_spec(&self) -> Option<std::sync::Arc<std::sync::atomic::AtomicBool>> {
        self.stop_flag
    }

    pub closed spec fn tunables_spec(&self) -> Tunables {
        self.tunables
    }

    pub closed spec fn root_score_spec(&self) -> Score {
        self.root_score
    }

    /// Whether the last search was cut short by a limit or a stop request.
    pub closed spec fn stopped_spec(&self) -> bool {
        self.stopped
    }

    /// The transposition table.
    pub closed spec fn tt_spec(&self) -> Tt {
        self.tt
    }

    /// The iterations completed by the last search, oldest first.
    pub closed spec fn reports_spec(&self) -> Seq<IterationReport> {
        self.reports@
    }

    /// Nodes visited by the current search.
    pub closed spec fn nodes_spec(&self) -> u64 {
        self.nodes
    }

    /// The keys of the game positions before the node being searched.
    pub closed spec fn keys_spec(&self) -> Seq<u64> {
        self.keys@
    }

    /// The node budget of the current search.
    pub closed spec fn node_limit_spec(&self) -> u64 {
        self.node_limit
    }

    /// Record no iteration reports (self-play runs many searches).
    pub fn set_silent(&mut self, on: bool)
        requires
            old(self).wf(),
        ensures
            final(self).wf(),
            final(self).silent_spec() == on,
            final(self).network_spec() == old(self).network_spec(),
            final(self).use_nnue_spec() == old(self).use_nnue_spec(),
            final(self).tunables_spec() == old(self).tunables_spec(),
    {
        self.silent = on;
    }

    /// Root score (side-to-move relative) of the last completed iteration.
    pub fn last_score(&self) -> (r: Score)
        requires
            self.wf(),
        ensures
            r == self.root_score_spec(),
            -SCORE_LIMIT <= r <= SCORE_LIMIT,
    {
        self.root_score
    }

    /// Give back the transposition table.
    pub fn into_tt(self) -> (r: Tt)
        requires
            self.wf(),
        ensures
            r.wf(),
            r == self.tt_spec(),
    {
        self.tt
    }

    /// A searcher over `tt`, with the late-move-reduction table `lmr`
    /// (indexed by depth * 64 + move count) and default tunables.
    pub fn new(tt: Tt, lmr: Vec<u32>) -> (r: Searcher)
        requires
            tt.wf(),
            lmr@.len() == 4096,
        ensures
            r.wf(),
            r.tunables_spec() == default_spec(),
            r.root_score_spec() == 0,
            // a fresh searcher: not stopped, no nodes, no game keys, no node
            // budget, over the table it was given
            r.tt_spec() == tt,
            !r.stopped_spec(),
            r.nodes_spec() == 0,
            r.keys_spec().len() == 0,
            r.node_limit_spec() == u64::MAX,
            r.stop_flag_spec() is None,
            // an empty table holds no entry
            (forall|i: int| 0 <= i < tt.len_spec() ==> #[trigger] tt.slots_spec()[i] == 0) ==> forall|
                k: u64,
            | #[trigger] r.tt_entry(k) is None,
    {
        let mut killers: Vec<Move> = Vec::new();
        let mut i: usize = 0;
        while i < 2 * MAX_PLY
            invariant
                i <= 2 * MAX_PLY,
                killers@.len() == i,
            decreases 2 * MAX_PLY - i,
        {
            killers.push(move_none());
            i += 1;
        }
        let mut excluded: Vec<Move> = Vec::new();
        let mut i: usize = 0;
        while i < MAX_PLY
            invariant
                i <= MAX_PLY,
                excluded@.len() == i,
            decreases MAX_PLY - i,
        {
            excluded.push(move_none());
            i += 1;
        }
        let mut history: Vec<i32> = Vec::new();
        let mut i: usize = 0;
        while i < 8192
            invariant
                i <= 8192,
                history@.len() == i,
                forall|k: int| 0 <= k < i ==> #[trigger] history@[k] == 0,
            decreases 8192 - i,
        {
            history.push(0);
            i += 1;
        }
        proof {
            reveal(history_ok);
        }
        let mut acc: Vec<Accumulator> = Vec::new();
        let mut i: usize = 0;
        while i < MAX_PLY + 2
            invariant
                i <= MAX_PLY + 2,
                acc@.len() == i,
                forall|k: int| 0 <= k < i ==> #[trigger] acc@[k].shape_ok(),
            decreases MAX_PLY + 2 - i,
        {
            acc.push(Accumulator::zeroed());
            i += 1;
        }
        let r = Searcher {
            nodes: 0,
            tt,
            start: clock_now(),
            soft_limit_ms: u64::MAX,
            hard_limit_ms: u64::MAX,
            node_limit: u64::MAX,
            max_depth: (MAX_PLY - 1) as u32,
            stopped: false,
            keys: Vec::new(),
            best_root: move_none(),
            root_score: 0,
            silent: false,
            killers,
            history,
            excluded,
            tunables: Tunables::new(),
            lmr,
            reports: Vec::new(),
            stop_flag: None,
            net: None,
            use_nnue: true,
            acc,
        };
        proof {
            if forall|i: int| 0 <= i < tt.len_spec() ==> #[trigger] tt.slots_spec()[i] == 0 {
                assert forall|k: u64| #[trigger] r.tt_entry(k) is None by {
                    r.tt.lemma_shape(k);
                    assert(r.tt.slots_spec()[index_spec(k, r.tt.len_spec())] == 0);
                }
            }
        }
        r
    }

    /// Evaluate with `net` from now on (while the network is switched on).
    pub fn set_network(&mut self, net: std::sync::Arc<Network>)
        requires
            old(self).wf(),
            (*net).wf(),
        ensures
            final(self).wf(),
            final(self).network_spec() == Some(net),
            final(self).use_nnue_spec() == old(self).use_nnue_spec(),
            final(self).tunables_spec() == old(self).tunables_spec(),
    {
        self.net = Some(net);
    }

    /// Take the network back out of the searcher.
    pub fn take_network(&mut self) -> (r: Option<std::sync::Arc<Network>>)
        requires
            old(self).wf(),
        ensures
            final(self).wf(),
            net_ok(r),
            r == old(self).network_spec(),
            final(self).network_spec() is None,
            final(self).use_nnue_spec() == old(self).use_nnue_spec(),
            final(self).tunables_spec() == old(self).tunables_spec(),
    {
        self.net.take()
    }

    /// Switch between the network and the piece-square tables.
    pub fn set_use_nnue(&mut self, on: bool)
        requires
            old(self).wf(),
        ensures
            final(self).wf(),
            final(self).use_nnue_spec() == on,
            final(self).network_spec() == old(self).network_spec(),
            final(self).tunables_spec() == old(self).tunables_spec(),
    {
        self.use_nnue = on;
    }

    /// Let another thread end searches by setting `flag`.
    pub fn set_stop_flag(&mut self, flag: std::sync::Arc<std::sync::atomic::AtomicBool>)
        requires
            old(self).wf(),
        ensures
            final(self).wf(),
            final(self).stop_flag_spec() == Some(flag),
            final(self).network_spec() == old(self).network_spec(),
            final(self).use_nnue_spec() == old(self).use_nnue_spec(),
            final(self).tunables_spec() == old(self).tunables_spec(),
    {
        self.stop_flag = Some(flag);
    }

    /// Install new tunables.
    pub fn set_tunables(&mut self, t: Tunables)
        requires
            old(self).wf(),
            tunables_ok(t),
        ensures
            final(self).wf(),
            final(self).tunables_spec() == t,
    {
        self.tunables = t;
    }

    /// Stop when the node budget is spent, or (every 2048 nodes) when the
    /// hard time limit has passed or a stop was requested.
    fn check_limits(&mut self)
        ensures
            *final(self) == (Searcher { stopped: final(self).stopped, ..*old(self) }),
            old(self).stopped ==> final(self).stopped,
            old(self).nodes >= old(self).node_limit ==> final(self).stopped,
            final(self).stopped ==> old(self).stopped || old(self).nodes >= old(self).node_limit
                || old(self).nodes % 2048 == 0,
    {
        if self.nodes >= self.node_limit {
            self.stopped = true;
        }
        if self.nodes % 2048 == 0 {
            if elapsed_ms(&self.start) >= self.hard_limit_ms {
                self.stopped = true;
            }
            match &self.stop_flag {
                Some(f) => {
                    if stop_requested(f) {
                        self.stopped = true;
                    }
                },
                None => {},
            }
        }
    }

    /// Static evaluation at a node: the network on the node's accumulator,
    /// kept inside the non-mate range, or the piece-square tables.
    fn eval(&self, pos: &Position, ply: usize) -> (r: Score)
        requires
            self.wf(),
            pos.wf(),
            ply < MAX_PLY + 2,
        ensures
            !self.nnue_active() ==> r == psqt_eval_spec(*pos),
            -SCORE_LIMIT <= r <= SCORE_LIMIT,
    {
        if self.use_nnue {
            match &self.net {
                Some(net) => {
                    let v = self.acc[ply].eval(&**net, pos);
                    if v >= MATE_BOUND {
                        MATE_BOUND - 1
                    } else if v <= -MATE_BOUND {
                        -MATE_BOUND + 1
                    } else {
                        v
                    }
                },
                None => evaluate_psqt(pos),
            }
        } else {
            evaluate_psqt(pos)
        }
    }

    /// The accumulator of the child reached by `mv`, from the node's.
    fn push_acc(&mut self, pos: &Position, child: &Position, mv: Move, ply: usize)
        requires
            old(self).wf(),
            pos.wf(),
            pos.move_ok(mv),
            child.board_ok(),
            ply + 1 < MAX_PLY + 2,
        ensures
            final(self).wf(),
            *final(self) == (Searcher { acc: final(self).acc, ..*old(self) }),
    {
        if self.use_nnue {
            match &self.net {
                Some(net) => {
                    let a = apply(&**net, &self.acc[ply], pos, child, mv);
                    self.acc.set(ply + 1, a);
                },
                None => {},
            }
        }
    }

    /// The child of a null move shares the node's accumulator.
    fn copy_acc(&mut self, ply: usize)
        requires
            old(self).wf(),
            ply + 1 < MAX_PLY + 2,
        ensures
            final(self).wf(),
            *final(self) == (Searcher { acc: final(self).acc, ..*old(self) }),
            final(self).acc@.len() == old(self).acc@.len(),
            forall|i: int|
                0 <= i < old(self).acc@.len() && (i != ply + 1 || !old(self).nnue_active())
                    ==> #[trigger] final(self).acc@[i] == old(self).acc@[i],
            old(self).nnue_active() ==> {
                let a = final(self).acc@[ply + 1];
                let p = old(self).acc@[ply as int];
                &&& a.w@ == p.w@
                &&& a.b@ == p.b@
                &&& a.wk_base == p.wk_base && a.wk_flip == p.wk_flip
                &&& a.bk_base == p.bk_base && a.bk_flip == p.bk_flip
            },
    {
        if self.use_nnue && self.net.is_some() {
            proof {
                assert(self.acc@[ply as int].shape_ok());
            }
            let a = self.acc[ply].duplicate();
            self.acc.set(ply + 1, a);
        }
    }

    /// The root accumulator, rebuilt from the position.
    fn refresh_root(&mut self, pos: &Position)
        requires
            old(self).wf(),
            pos.wf(),
        ensures
            final(self).wf(),
            *final(self) == (Searcher { acc: final(self).acc, ..*old(self) }),
    {
        if self.use_nnue {
            match &self.net {
                Some(net) => {
                    let a = Accumulator::refresh(&**net, pos);
                    self.acc.set(0, a);
                },
                None => {},
            }
        }
    }

    /// The same position occurred earlier with the same side to move, within
    /// the last `halfmove` plies (the previous ply itself is skipped).
    pub open spec fn repetition_spec(keys: Seq<u64>, key: u64, halfmove: u8) -> bool {
        let lookback = if (halfmove as int) < keys.len() {
            halfmove as int
        } else {
            keys.len() as int
        };
        exists|k: int| 2 <= k <= lookback && k % 2 == 0 && #[trigger] keys[keys.len() - k] == key
    }

    fn is_repetition(&self, key: u64, halfmove: u8) -> (r: bool)
        ensures
            r == Self::repetition_spec(self.keys@, key, halfmove),
    {
        let n = self.keys.len();
        let lookback = if (halfmove as usize) < n {
            halfmove as usize
        } else {
            n
        };
        let mut k: usize = 2;
        while k <= lookback
            invariant
                n == self.keys@.len(),
                lookback <= n,
                lookback == (if (halfmove as int) < n {
                    halfmove as int
                } else {
                    n as int
                }),
                2 <= k,
                k % 2 == 0,
                forall|j: int|
                    2 <= j < k && j % 2 == 0 ==> #[trigger] self.keys@[n - j] != key,
            decreases lookback + 2 - k,
        {
            if self.keys[n - k] == key {
                return true;
            }
            k += 2;
        }
        false
    }

    /// Ordering score of a move: the TT move first, then captures by
    /// MVV-LVA, then the two killers, then quiets by history.
    pub closed spec fn move_score(&self, pos: Position, mv: Move, tt_mv: Move, ply: int) -> int {
        if mv == tt_mv {
            10_000_000
        } else if flags_capture(move_flags(mv)) {
            let victim = if move_flags(mv) == 5 {
                PieceType::Pawn
            } else {
                code_piece(pos.mailbox[move_to(mv)])
            };
            let attacker = code_piece(pos.mailbox[move_from(mv)]);
            1_000_000 + 10 * piece_value(victim) - piece_value(attacker)
        } else if mv == self.killers@[2 * ply] {
            900_000
        } else if mv == self.killers@[2 * ply + 1] {
            899_999
        } else {
            self.history@[hist_index(pos.stm, mv)] as int
        }
    }

    fn score_move(&self, pos: &Position, mv: Move, tt_mv: Move, ply: usize) -> (r: i32)
        requires
            self.wf(),
            pos.wf(),
            playable(*pos, mv),
            ply < MAX_PLY,
        ensures
            r == self.move_score(*pos, mv, tt_mv, ply as int),
    {
        proof {
            lemma_playable(*pos, mv);
        }
        if mv == tt_mv {
            10_000_000
        } else if mv.is_capture() {
            let victim = if mv.is_en_passant() {
                PieceType::Pawn
            } else {
                match pos.piece_on(mv.to()) {
                    Some((_, pt)) => pt,
                    None => PieceType::Pawn,  // a capture's target is occupied

                }
            };
            let attacker = match pos.piece_on(mv.from()) {
                Some((_, pt)) => pt,
                None => PieceType::Pawn,  // the mover stands on `from`
            };
            proof {
                assert(0 <= PIECE_VALUE[piece_index(victim)] <= 900);
                assert(0 <= PIECE_VALUE[piece_index(attacker)] <= 900);
            }
            1_000_000 + 10 * PIECE_VALUE[victim.idx()] - PIECE_VALUE[attacker.idx()]
        } else if mv == self.killers[2 * ply] {
            900_000
        } else if mv == self.killers[2 * ply + 1] {
            899_999
        } else {
            let h = (pos.stm.idx() * 64 + mv.from() as usize) * 64 + mv.to() as usize;
            self.history[h]
        }
    }

    /// Sort the list best-first by `move_score`: a stable insertion sort.
    fn order_moves(&self, pos: &Position, list: &mut MoveList, tt_mv: Move, ply: usize)
        requires
            self.wf(),
            pos.wf(),
            ply < MAX_PLY,
            forall|k: int| 0 <= k < old(list).moves@.len() ==> playable(*pos, #[trigger] old(list).moves@[k]),
        ensures
            final(list).moves@.to_multiset() == old(list).moves@.to_multiset(),
            final(list).moves@.len() == old(list).moves@.len(),
            forall|k: int| 0 <= k < final(list).moves@.len() ==> playable(*pos, #[trigger] final(list).moves@[k]),
            forall|k: int|
                0 <= k < final(list).moves@.len() ==> old(list).moves@.contains(#[trigger] final(list).moves@[k]),
            forall|a: int, b: int|
                0 <= a < b < final(list).moves@.len() ==> self.move_score(
                    *pos,
                    #[trigger] final(list).moves@[a],
                    tt_mv,
                    ply as int,
                ) >= self.move_score(*pos, #[trigger] final(list).moves@[b], tt_mv, ply as int),
            // stable: moves of equal score keep their generation order
            exists|perm: Seq<int>|
                #![trigger perm.len()]
                perm.len() == final(list).moves@.len() && (forall|k: int|
                    0 <= k < perm.len() ==> 0 <= #[trigger] perm[k] < perm.len()
                        && final(list).moves@[k] == old(list).moves@[perm[k]]) && (forall|a: int, b: int|
                    0 <= a < b < perm.len() ==> #[trigger] perm[a] != #[trigger] perm[b]) && (forall|
                    a: int,
                    b: int,
                |
                    0 <= a < b < perm.len() && self.move_score(
                        *pos,
                        #[trigger] final(list).moves@[a],
                        tt_mv,
                        ply as int,
                    ) == self.move_score(*pos, #[trigger] final(list).moves@[b], tt_mv, ply as int) ==> perm[a]
                        < perm[b]),
    {
        let n = list.moves.len();
        let mut scores: Vec<i32> = Vec::new();
        let mut i: usize = 0;
        while i < n
            invariant
                self.wf(),
                pos.wf(),
                ply < MAX_PLY,
                n == list.moves@.len(),
                i <= n,
                scores@.len() == i,
                forall|k: int| 0 <= k < n ==> playable(*pos, #[trigger] list.moves@[k]),
                forall|k: int|
                    0 <= k < i ==> #[trigger] scores@[k] == self.move_score(
                        *pos,
                        list.moves@[k],
                        tt_mv,
                        ply as int,
                    ),
            decreases n - i,
        {
            let s = self.score_move(pos, list.moves[i], tt_mv, ply);
            scores.push(s);
            i += 1;
        }
        let ghost orig = list.moves@;
        let ghost mut perm: Seq<int> = Seq::new(n as nat, |k: int| k);
        let mut i: usize = 1;
        while i < n
            invariant
                n == list.moves@.len(),
                scores@.len() == n,
                1 <= i || n == 0,
                i <= n || n == 0,
                list.moves@.to_multiset() == orig.to_multiset(),
                perm.len() == n,
                forall|k: int| 0 <= k < n ==> list.moves@[k] == orig[#[trigger] perm[k]],
                forall|k: int| i <= k < n ==> #[trigger] perm[k] == k,
                forall|k: int| 0 <= k < i && k < n ==> 0 <= #[trigger] perm[k] < i,
                forall|a: int, b: int| 0 <= a < b < n ==> #[trigger] perm[a] != #[trigger] perm[b],
                forall|a: int, b: int|
                    0 <= a < b < i && b < n && #[trigger] scores@[a] == #[trigger] scores@[b] ==> perm[a]
                        < perm[b],
                forall|k: int| 0 <= k < n ==> playable(*pos, #[trigger] list.moves@[k]),
                forall|k: int|
                    0 <= k < n ==> #[trigger] scores@[k] == self.move_score(
                        *pos,
                        list.moves@[k],
                        tt_mv,
                        ply as int,
                    ),
                forall|a: int, b: int| 0 <= a < b < i && b < n ==> #[trigger] scores@[a] >= #[trigger] scores@[b],
            decreases n - i,
        {
            let mut j: usize = i;
            while j > 0 && scores[j - 1] < scores[j]
                invariant
                    n == list.moves@.len(),
                    scores@.len() == n,
                    1 <= i < n,
                    j <= i,
                    list.moves@.to_multiset() == orig.to_multiset(),
                    forall|k: int| 0 <= k < n ==> playable(*pos, #[trigger] list.moves@[k]),
                    forall|k: int|
                        0 <= k < n ==> #[trigger] scores@[k] == self.move_score(
                            *pos,
                            list.moves@[k],
                            tt_mv,
                            ply as int,
                        ),
                    forall|a: int, b: int| 0 <= a < b < j ==> #[trigger] scores@[a] >= #[trigger] scores@[b],
                    forall|a: int, b: int| j < a < b <= i ==> #[trigger] scores@[a] >= #[trigger] scores@[b],
                    forall|a: int, b: int| 0 <= a < j && j < b <= i ==> #[trigger] scores@[a] >= #[trigger] scores@[b],
                    forall|b: int| j < b <= i ==> scores@[j as int] > #[trigger] scores@[b],
                    perm.len() == n,
                    forall|k: int| 0 <= k < n ==> list.moves@[k] == orig[#[trigger] perm[k]],
                    forall|k: int| i < k < n ==> #[trigger] perm[k] == k,
                    perm[j as int] == i,
                    forall|k: int| 0 <= k <= i && k != j ==> 0 <= #[trigger] perm[k] < i,
                    forall|a: int, b: int| 0 <= a < b < n ==> #[trigger] perm[a] != #[trigger] perm[b],
                    forall|a: int, b: int|
                        0 <= a < b <= i && a != j && b != j && #[trigger] scores@[a] == #[trigger] scores@[b]
                            ==> perm[a] < perm[b],
                decreases j,
            {
                let ghost before = list.moves@;
                let ghost pb = perm;
                let ghost sb = scores@;
                let m0 = list.moves[j - 1];
                let m1 = list.moves[j];
                list.moves[j - 1] = m1;
                list.moves[j] = m0;
                let s0 = scores[j - 1];
                let s1 = scores[j];
                scores[j - 1] = s1;
                scores[j] = s0;
                proof {
                    lemma_swap_multiset(before, j - 1, j as int);
                    perm = pb.update(j - 1, pb[j as int]).update(j as int, pb[j - 1]);
                    assert forall|a: int, b: int| 0 <= a < b < n implies #[trigger] perm[a] != #[trigger] perm[b] by {
                        let pa = if a == j - 1 { j as int } else if a == j { j - 1 } else { a };
                        let pbb = if b == j - 1 { j as int } else if b == j { j - 1 } else { b };
                        assert(perm[a] == pb[pa] && perm[b] == pb[pbb]);
                        if pa < pbb {
                            assert(pb[pa] != pb[pbb]);
                        } else {
                            assert(pb[pbb] != pb[pa]);
                        }
                    }
                    assert forall|a: int, b: int|
                        0 <= a < b <= i && a != j - 1 && b != j - 1 && #[trigger] scores@[a] == #[trigger] scores@[b]
                            implies perm[a] < perm[b] by {
                        let pa = if a == j { j - 1 } else { a };
                        let pbb = if b == j { j - 1 } else { b };
                        assert(scores@[a] == sb[pa] && scores@[b] == sb[pbb]);
                        assert(perm[a] == pb[pa] && perm[b] == pb[pbb]);
                    }
                }
                j -= 1;
            }
            i += 1;
        }
        proof {
            assert forall|a: int, b: int| 0 <= a < b < n implies self.move_score(
                *pos,
                #[trigger] list.moves@[a],
                tt_mv,
                ply as int,
            ) >= self.move_score(*pos, #[trigger] list.moves@[b], tt_mv, ply as int) by {
                assert(scores@[a] >= scores@[b]);
            }
            assert(perm.len() == list.moves@.len());
            assert forall|a: int, b: int|
                0 <= a < b < perm.len() && self.move_score(
                    *pos,
                    #[trigger] list.moves@[a],
                    tt_mv,
                    ply as int,
                ) == self.move_score(*pos, #[trigger] list.moves@[b], tt_mv, ply as int) implies perm[a]
                < perm[b] by {
                assert(scores@[a] == scores@[b]);
            }
            broadcast use vstd::seq_lib::group_to_multiset_ensures;

            assert forall|k: int| 0 <= k < n implies orig.contains(#[trigger] list.moves@[k]) by {
                assert(list.moves@.contains(list.moves@[k]));
                assert(list.moves@.to_multiset().count(list.moves@[k]) > 0);
                assert(orig.to_multiset().count(list.moves@[k]) > 0);
            }
        }
    }

    /// Quiescence: stand pat, then captures and promotions only. In check,
    /// all evasions instead (no stand pat).
    fn qsearch(&mut self, pos: &Position, alpha0: Score, beta: Score, ply: usize) -> (r: Score)
        requires
            old(self).wf(),
            pos.wf(),
            node_ok(0, alpha0, beta, ply),
        ensures
            final(self).wf(),
            final(self).keys@ == old(self).keys@,
            final(self).root_score == old(self).root_score,
            final(self).reports == old(self).reports,
            final(self).silent == old(self).silent,
            final(self).best_root == old(self).best_root,
            -SCORE_LIMIT <= r <= SCORE_LIMIT,
            // checkmated: no stand pat, no evasion
            !final(self).stopped && ply < MAX_PLY - 1 && pos.in_check_spec() && no_legal_move(*pos) ==> r == -MATE + ply,
            ply < MAX_PLY - 1 && pos.in_check_spec() && no_legal_move(*pos) ==> {
                &&& *final(self) == (Searcher { nodes: final(self).nodes, stopped: final(self).stopped, ..*old(self) })
                &&& final(self).nodes == old(self).nodes.saturating_add(1)
                &&& final(self).stopped ==> old(self).stopped || final(self).nodes >= old(self).node_limit
                    || final(self).nodes % 2048 == 0
                &&& old(self).stopped ==> final(self).stopped
            },
        decreases MAX_PLY - ply, 0int, 0int,
    {
        let mut alpha = alpha0;
        self.nodes = self.nodes.saturating_add(1);
        self.check_limits();
        if self.stopped {
            return 0;
        }
        if ply >= MAX_PLY - 1 {
            return self.eval(pos, ply);
        }
        let in_check = pos.in_check();
        let mut best: Score;
        if in_check {
            best = -MATE + ply as Score;
        } else {
            best = self.eval(pos, ply);
            if best >= beta {
                return best;
            }
            if best > alpha {
                alpha = best;
            }
        }
        let mut list = MoveList::new();
        if in_check {
            generate_moves(pos, &mut list);
            if list.len() == 0 {
                return -MATE + ply as Score;
            }
            proof {
                assert(listed(*pos, list.moves@[0], false));
            }
        } else {
            generate_captures(pos, &mut list);
        }
        proof {
            assert(list.moves@.subrange(0, 0) =~= Seq::<Move>::empty());
        }
        self.order_moves(pos, &mut list, move_none(), ply);
        let n = list.len();
        let mut i: usize = 0;
        while i < n
            invariant
                self.wf(),
                pos.wf(),
                ply < MAX_PLY - 1,
                n == list.moves@.len(),
                i <= n,
                forall|k: int| 0 <= k < n ==> playable(*pos, #[trigger] list.moves@[k]),
                self.keys@ == old(self).keys@,
                self.root_score == old(self).root_score,
                self.reports == old(self).reports,
                self.silent == old(self).silent,
                self.best_root == old(self).best_root,
                -SCORE_LIMIT <= best <= SCORE_LIMIT,
                -(WINDOW_LIMIT + ply) <= alpha <= WINDOW_LIMIT + ply,
                -(WINDOW_LIMIT + ply) <= beta <= WINDOW_LIMIT + ply,
            decreases n - i,
        {
            let mv = list.get(i);
            i += 1;
            proof {
                lemma_playable(*pos, mv);
            }
            // prune captures that lose material by SEE (not evasions, not
            // promotions)
            if !in_check && !mv.is_promo() && see(pos, mv) < 0 {
                continue;
            }
            let child = pos.make(mv);
            self.push_acc(pos, &child, mv, ply);
            let score = -self.qsearch(&child, -beta, -alpha, ply + 1);
            if self.stopped {
                break;
            }
            if score > best {
                best = score;
                if score > alpha {
                    alpha = score;
                    if alpha >= beta {
                        break;
                    }
                }
            }
        }
        best
    }
}


/// What the TT says about a node: move, score (made ply-relative), depth,
/// bound, and the score to return at once if the entry settles the node.
pub struct TtHint {
    pub mv: Move,
    pub score: Score,
    pub depth: u32,
    pub bound: u8,
    pub cutoff: Option<Score>,
}

impl Searcher {
    /// Probe the TT; a cutoff is only taken at non-root nodes outside an
    /// exclusion search, with a deep enough entry whose bound settles the
    /// window.
    fn probe_tt(&self, key: u64, depth: u32, alpha: Score, beta: Score, ply: usize, excluded: Move) -> (r: TtHint)
        requires
            self.wf(),
            ply < MAX_PLY,
        ensures
            -33_000 <= r.score <= 33_000,
            r.cutoff matches Some(s) ==> s == r.score,
            r.cutoff is None || (ply > 0 && excluded == Move(0) && self.tt_entry(key) is Some),
    {
        let mut hint = TtHint { mv: move_none(), score: 0, depth: 0, bound: 0, cutoff: None };
        match self.tt.probe(key) {
            Some(e) => {
                hint.mv = Move(e.mv);
                hint.score = score_from_tt(e.score as Score, ply);
                hint.depth = e.depth as u32;
                hint.bound = e.bound;
                if ply > 0 && excluded == move_none() && hint.depth >= depth {
                    if e.bound == BOUND_EXACT {
                        hint.cutoff = Some(hint.score);
                    } else if e.bound == BOUND_LOWER && hint.score >= beta {
                        hint.cutoff = Some(hint.score);
                    } else if e.bound == BOUND_UPPER && hint.score <= alpha {
                        hint.cutoff = Some(hint.score);
                    }
                }
            },
            None => {},
        }
        hint
    }

    /// A quiet move caused a beta cutoff: make it the first killer and raise
    /// its history (halving it before it reaches the killer band).
    fn record_cutoff(&mut self, stm: Color, mv: Move, depth: u32, ply: usize)
        requires
            old(self).wf(),
            ply < MAX_PLY,
            depth <= 510,
        ensures
            final(self).wf(),
            final(self).keys@ == old(self).keys@,
            final(self).best_root == old(self).best_root,
            final(self).stopped == old(self).stopped,
            *final(self) == (Searcher {
                killers: final(self).killers,
                history: final(self).history,
                ..*old(self)
            }),
            final(self).killers@ == (if mv != old(self).killers@[2 * ply] {
                old(self).killers@.update(2 * ply + 1, old(self).killers@[2 * ply as int]).update(
                    2 * ply as int,
                    mv,
                )
            } else {
                old(self).killers@
            }),
            final(self).history@ == old(self).history@.update(
                history_index(stm, mv),
                cutoff_history(old(self).history@[history_index(stm, mv)] as int, depth as int) as i32,
            ),
    {
        if mv != self.killers[2 * ply] {
            let k0 = self.killers[2 * ply];
            self.killers[2 * ply + 1] = k0;
            self.killers[2 * ply] = mv;
        }
        let si = stm.idx();
        let mf = mv.from();
        let mt = mv.to();
        let h = (si * 64 + mf as usize) * 64 + mt as usize;
        proof {
            assert(h == history_index(stm, mv));
        }
        let old_h = self.history[h];
        proof {
            reveal(history_ok);
            assert(0 <= self.history@[h as int] <= 800_000);
        }
        proof {
            assert(depth * depth <= 510 * 510) by (nonlinear_arith)
                requires
                    depth <= 510,
            ;
        }
        let dd = depth * depth;
        let mut v = old_h + dd as i32;
        if v > 800_000 {
            v = v / 2;
        }
        proof {
            assert(v == cutoff_history(old_h as int, depth as int));
        }
        self.history[h] = v;
        proof {
            reveal(history_ok);
            assert forall|i: int| 0 <= i < 8192 implies 0 <= #[trigger] self.history@[i] <= 800_000 by {
                if i != h {
                    assert(self.history@[i] == old(self).history@[i]);
                }
            }
        }
    }

    /// Singular extension test: with the TT move excluded, does every other
    /// move fall below `tt_score - 2 * depth` at half depth? Then extend it.
    fn singular_ext(&mut self, pos: &Position, tt_mv: Move, tt_score: Score, depth: u32, ply: usize, is_null: bool) -> (r: u32)
        requires
            old(self).wf(),
            pos.wf(),
            ply < MAX_PLY,
            8 <= depth <= 2 * ply + 256,
            -MATE_BOUND < tt_score < MATE_BOUND,
        ensures
            final(self).wf(),
            final(self).keys@ == old(self).keys@,
            final(self).root_score == old(self).root_score,
            final(self).reports == old(self).reports,
            final(self).silent == old(self).silent,
            final(self).best_root == old(self).best_root || (ply == 0 && playable(*pos, final(self).best_root)
                && listed(*pos, final(self).best_root, false)),
            r <= 1,
        decreases MAX_PLY - ply, depth, 1int,
    {
        let sbeta = tt_score - 2 * depth as Score;
        self.excluded[ply] = tt_mv;
        let s = self.negamax(pos, (depth - 1) / 2, sbeta - 1, sbeta, ply, is_null);
        self.excluded[ply] = move_none();
        if s < sbeta {
            1
        } else {
            0
        }
    }

    /// Search one child: the first move with the full window, later moves
    /// with a null window (late quiets reduced), re-searched on fail-high.
    fn search_child(
        &mut self,
        child: &Position,
        mv: Move,
        move_count: usize,
        depth: u32,
        new_depth: u32,
        ext: u32,
        alpha: Score,
        beta: Score,
        ply: usize,
        in_check: bool,
    ) -> (r: Score)
        requires
            old(self).wf(),
            child.wf(),
            ply < MAX_PLY - 1,
            1 <= depth,
            new_depth <= depth,
            ext <= 1,
            depth <= 2 * ply + 256,
            move_count >= 1,
            -(WINDOW_LIMIT + ply) <= alpha <= WINDOW_LIMIT + ply,
            -(WINDOW_LIMIT + ply) <= beta <= WINDOW_LIMIT + ply,
        ensures
            final(self).wf(),
            final(self).keys@ == old(self).keys@,
            final(self).root_score == old(self).root_score,
            final(self).reports == old(self).reports,
            final(self).silent == old(self).silent,
            final(self).best_root == old(self).best_root,
            -SCORE_LIMIT <= r <= SCORE_LIMIT,
            // the move's score is the negated child score: a move that mates
            // scores a mate for the mover
            ply + 1 < MAX_PLY - 1 && child.in_check_spec() && no_legal_move(*child) && child.halfmove < 100
                && !Self::repetition_spec(old(self).keys@, child.key, child.halfmove) && old(self).tt_entry(
                child.key,
            ) is None && !final(self).stopped ==> r == MATE - (ply + 1),
        decreases MAX_PLY - ply, depth, 1int,
    {
        if move_count == 1 {
            return -self.negamax(child, new_depth + ext, -beta, -alpha, ply + 1, false);
        }
        let mut r: u32 = 0;
        if depth >= 3 && move_count > 3 && !in_check && !mv.is_capture() && !mv.is_promo() {
            // log-based reduction, growing with depth and move index
            let d: usize = if depth < 63 {
                depth as usize
            } else {
                63
            };
            let mc: usize = if move_count < 63 {
                move_count
            } else {
                63
            };
            r = self.lmr[d * 64 + mc];
            // keep at least depth 1 after reduction
            let cap = new_depth.saturating_sub(1);
            if r > cap {
                r = cap;
            }
        }
        let mut s = -self.negamax(child, new_depth - r, -alpha - 1, -alpha, ply + 1, false);
        if r > 0 && s > alpha && !self.stopped {
            s = -self.negamax(child, new_depth, -alpha - 1, -alpha, ply + 1, false);
        }
        if s > alpha && s < beta && !self.stopped {
            s = -self.negamax(child, new_depth, -beta, -alpha, ply + 1, false);
        }
        s
    }



    /// One move of the move loop: `None` when futility pruning skips it,
    /// else its score (after a singular-extension test for the TT move).
    fn try_move(
        &mut self,
        pos: &Position,
        mv: Move,
        hint: &TtHint,
        excluded: Move,
        move_count: usize,
        depth0: u32,
        depth: u32,
        new_depth: u32,
        static_eval: Score,
        alpha: Score,
        beta: Score,
        ply: usize,
        in_check: bool,
        is_null: bool,
    ) -> (r: Option<Score>)
        requires
            old(self).wf(),
            pos.wf(),
            playable(*pos, mv),
            1 <= depth <= depth0,
            depth0 <= 2 * ply + 256,
            ply < MAX_PLY - 1,
            new_depth <= depth,
            move_count >= 1,
            -SCORE_LIMIT <= static_eval <= SCORE_LIMIT,
            -(WINDOW_LIMIT + ply) <= alpha <= WINDOW_LIMIT + ply,
            -(WINDOW_LIMIT + ply) <= beta <= WINDOW_LIMIT + ply,
            -33_000 <= hint.score <= 33_000,
        ensures
            final(self).wf(),
            final(self).keys@ == old(self).keys@,
            final(self).root_score == old(self).root_score,
            final(self).reports == old(self).reports,
            final(self).silent == old(self).silent,
            final(self).best_root == old(self).best_root || (ply == 0 && playable(*pos, final(self).best_root)
                && listed(*pos, final(self).best_root, false)),
            r matches Some(sc) ==> -SCORE_LIMIT <= sc <= SCORE_LIMIT,
        decreases MAX_PLY - ply, depth0, 2int,
    {
        proof {
            lemma_playable(*pos, mv);
        }
        // futility: at low depth, quiets cannot lift a hopeless static eval
        // back to alpha (never the first move)
        if move_count > 1 && !in_check && depth <= 3 && !mv.is_capture() && !mv.is_promo()
            && -MATE_BOUND < alpha && alpha < MATE_BOUND && static_eval + self.tunables.fut_base
            + scaled(self.tunables.fut_scale, depth) <= alpha {
            return None;
        }
        // singular extension of the TT move
        let mut ext: u32 = 0;
        if depth >= 8 && mv == hint.mv && excluded == move_none() && hint.depth >= depth - 3
            && hint.bound != BOUND_UPPER && -MATE_BOUND < hint.score && hint.score < MATE_BOUND {
            ext = self.singular_ext(pos, hint.mv, hint.score, depth, ply, is_null);
        }
        let child = pos.make(mv);
        self.push_acc(pos, &child, mv, ply);
        let score = self.search_child(
            &child,
            mv,
            move_count,
            depth,
            new_depth,
            ext,
            alpha,
            beta,
            ply,
            in_check,
        );
        Some(score)
    }

    /// The move loop of `negamax`: returns the best score and move.
    #[verifier::rlimit(100)]
    fn search_moves(
        &mut self,
        pos: &Position,
        list: &MoveList,
        hint: &TtHint,
        excluded: Move,
        depth0: u32,
        depth: u32,
        new_depth: u32,
        static_eval: Score,
        alpha0: Score,
        beta: Score,
        ply: usize,
        in_check: bool,
        is_null: bool,
    ) -> (r: (Score, Move))
        requires
            old(self).wf(),
            pos.wf(),
            1 <= depth <= depth0,
            depth0 <= 2 * ply + 256,
            ply < MAX_PLY - 1,
            new_depth <= depth,
            forall|k: int| 0 <= k < list.moves@.len() ==> playable(*pos, #[trigger] list.moves@[k]),
            forall|k: int| 0 <= k < list.moves@.len() ==> listed(*pos, #[trigger] list.moves@[k], false),
            -SCORE_LIMIT <= static_eval <= SCORE_LIMIT,
            -(WINDOW_LIMIT + ply) <= alpha0 <= WINDOW_LIMIT + ply,
            -(WINDOW_LIMIT + ply) <= beta <= WINDOW_LIMIT + ply,
            -33_000 <= hint.score <= 33_000,
        ensures
            final(self).wf(),
            final(self).keys@ == old(self).keys@,
            final(self).root_score == old(self).root_score,
            final(self).reports == old(self).reports,
            final(self).silent == old(self).silent,
            final(self).best_root == old(self).best_root || (ply == 0 && playable(*pos, final(self).best_root)
                && listed(*pos, final(self).best_root, false)),
            -MATE <= r.0 <= SCORE_LIMIT,
        decreases MAX_PLY - ply, depth0, 3int,
    {
        let mut alpha = alpha0;
        let mut best: Score = -MATE;
        let mut best_mv = move_none();
        let mut move_count: usize = 0;
        let n = list.len();
        let mut i: usize = 0;
        while i < n
            invariant
                self.wf(),
                pos.wf(),
                1 <= depth <= depth0,
                depth0 <= 2 * ply + 256,
                ply < MAX_PLY - 1,
                n == list.moves@.len(),
                i <= n,
                move_count <= i,
                new_depth <= depth,
                forall|k: int| 0 <= k < n ==> playable(*pos, #[trigger] list.moves@[k]),
                forall|k: int| 0 <= k < n ==> listed(*pos, #[trigger] list.moves@[k], false),
                self.keys@ == old(self).keys@,
                self.root_score == old(self).root_score,
                self.reports == old(self).reports,
                self.silent == old(self).silent,
                self.best_root == old(self).best_root || (ply == 0 && playable(*pos, self.best_root)
                    && listed(*pos, self.best_root, false)),
                -MATE <= best <= SCORE_LIMIT,
                -SCORE_LIMIT <= static_eval <= SCORE_LIMIT,
                -(WINDOW_LIMIT + ply) <= alpha <= WINDOW_LIMIT + ply,
                -(WINDOW_LIMIT + ply) <= beta <= WINDOW_LIMIT + ply,
                -33_000 <= hint.score <= 33_000,
            decreases n - i,
        {
            let mv = list.get(i);
            i += 1;
            if mv == excluded {
                continue;
            }
            move_count += 1;
            let res = self.try_move(
                pos,
                mv,
                hint,
                excluded,
                move_count,
                depth0,
                depth,
                new_depth,
                static_eval,
                alpha,
                beta,
                ply,
                in_check,
                is_null,
            );
            if res.is_none() {
                continue;
            }
            let score = res.unwrap();
            if self.stopped {
                break;
            }
            if score > best {
                best = score;
                best_mv = mv;
                if ply == 0 {
                    self.best_root = mv;
                }
                if score > alpha {
                    alpha = score;
                    if alpha >= beta {
                        if !mv.is_capture() {
                            self.record_cutoff(pos.stm, mv, depth, ply);
                        }
                        break;
                    }
                }
            }
        }
        (best, best_mv)
    }

    fn negamax(&mut self, pos: &Position, depth0: u32, alpha0: Score, beta: Score, ply: usize, is_null: bool) -> (r: Score)
        requires
            old(self).wf(),
            pos.wf(),
            node_ok(depth0, alpha0, beta, ply),
        ensures
            final(self).wf(),
            final(self).keys@ == old(self).keys@,
            final(self).root_score == old(self).root_score,
            final(self).reports == old(self).reports,
            final(self).silent == old(self).silent,
            final(self).best_root == old(self).best_root || (ply == 0 && playable(*pos, final(self).best_root)
                && listed(*pos, final(self).best_root, false)),
            -SCORE_LIMIT <= r <= SCORE_LIMIT,
            // draws by rule below the root
            !final(self).stopped && 0 < depth0 && 0 < ply < MAX_PLY - 1 && (pos.halfmove >= 100
                || Self::repetition_spec(old(self).keys@, pos.key, pos.halfmove)) ==> r == DRAW,
            // checkmate, unless a rule draw or a table entry answers first
            !final(self).stopped && ply < MAX_PLY - 1 && (ply == 0 || (pos.halfmove < 100
                && !Self::repetition_spec(old(self).keys@, pos.key, pos.halfmove) && old(self).tt_entry(
                pos.key,
            ) is None)) && pos.in_check_spec() && no_legal_move(*pos) ==> r == -MATE
                + ply,
            // stalemate at the root
            !final(self).stopped && 0 < depth0 && ply == 0 && !pos.in_check_spec() && no_legal_move(*pos) ==> r == DRAW,
            // stalemate at any ply scores a draw, unless the node was pruned
            // first, which answers at least beta
            0 < depth0 && ply < MAX_PLY - 1 && 0 <= old(self).tunables.rfp_margin && !pos.in_check_spec()
                && no_legal_move(*pos) && (ply == 0 || old(self).tt_entry(pos.key) is None) ==> r == DRAW
                || (0 < ply && -MATE_BOUND < beta < MATE_BOUND && beta <= r && (old(self).nnue_active()
                || beta <= psqt_eval_spec(*pos))),
            // a node without moves that is neither pruned nor answered by a
            // rule or the table is visited alone: one node counted, the
            // limits checked, nothing else touched
            ply < MAX_PLY - 1 && no_legal_move(*pos) && ((0 < depth0 && (ply == 0 || (pos.in_check_spec()
                && pos.halfmove < 100 && !Self::repetition_spec(old(self).keys@, pos.key, pos.halfmove)
                && old(self).tt_entry(pos.key) is None))) || (depth0 == 0 && pos.in_check_spec())) ==> {
                &&& *final(self) == (Searcher {
                    nodes: final(self).nodes,
                    stopped: final(self).stopped,
                    excluded: final(self).excluded,
                    ..*old(self)
                })
                &&& final(self).nodes == old(self).nodes.saturating_add(1)
                &&& final(self).stopped ==> old(self).stopped || final(self).nodes >= old(self).node_limit
                    || final(self).nodes % 2048 == 0
                &&& old(self).stopped ==> final(self).stopped
            },
        decreases MAX_PLY - ply, depth0, 4int,
    {
        if depth0 == 0 || ply >= MAX_PLY - 1 {
            return self.qsearch(pos, alpha0, beta, ply);
        }
        let mut alpha = alpha0;
        self.nodes = self.nodes.saturating_add(1);
        self.check_limits();
        if self.stopped {
            return 0;
        }
        // draws by rule (at non-root nodes)
        if ply > 0 && (pos.halfmove >= 100 || self.is_repetition(pos.key, pos.halfmove)) {
            return DRAW;
        }
        // consume this ply's excluded move (set by a singular verification search)
        let excluded = self.excluded[ply];
        self.excluded[ply] = move_none();

        let hint = self.probe_tt(pos.key, depth0, alpha, beta, ply, excluded);
        match hint.cutoff {
            Some(s) => {
                return s;
            },
            None => {},
        }
        let tt_mv = hint.mv;
        // internal iterative reduction: no TT move at a decent depth means
        // poor ordering, so search one ply shallower
        let depth = if depth0 >= 4 && tt_mv == move_none() && excluded == move_none() {
            depth0 - 1
        } else {
            depth0
        };
        let in_check = pos.in_check();
        let static_eval = if in_check {
            -MATE
        } else {
            self.eval(pos, ply)
        };
        // reverse futility: eval so far above beta that no margin per
        // remaining ply brings it back
        if !in_check && ply > 0 && depth <= 8 && -MATE_BOUND < beta && beta < MATE_BOUND
            && static_eval - scaled(self.tunables.rfp_margin, depth) >= beta {
            proof {
                let m: int = self.tunables.rfp_margin as int;
                let d: int = depth as int;
                assert(0 <= m ==> 0 <= m * d) by (nonlinear_arith)
                    requires
                        0 <= d,
                ;
            }
            return static_eval;
        }
        // null-move pruning (not in check, not after another null, not near
        // mate, not without non-pawn material)
        if !is_null && ply > 0 && !in_check && depth >= 3 && -MATE_BOUND < beta && beta
            < MATE_BOUND && static_eval >= beta && pos.color_bb[pos.stm.idx()] != pos.pieces(
            pos.stm,
            PieceType::Pawn,
        ) | pos.pieces(pos.stm, PieceType::King) {
            let child = pos.make_null();
            self.copy_acc(ply);
            self.keys.push(pos.key);
            let score = -self.negamax(&child, depth - 3, -beta, -beta + 1, ply + 1, true);
            self.keys.pop();
            proof {
                assert(self.keys@ =~= old(self).keys@);
            }
            if self.stopped {
                return 0;
            }
            if score >= beta {
                return if score >= MATE_BOUND {
                    beta
                } else {
                    score
                };
            }
        }
        let mut list = MoveList::new();
        generate_moves(pos, &mut list);
        if list.len() == 0 {
            return if in_check {
                -MATE + ply as Score
            } else {
                DRAW
            };
        }
        proof {
            assert(list.moves@.subrange(0, 0) =~= Seq::<Move>::empty());
            assert(listed(*pos, list.moves@[0], false));
        }
        let ghost generated_list = list.moves@;
        self.order_moves(pos, &mut list, tt_mv, ply);
        proof {
            assert forall|k: int| 0 <= k < list.moves@.len() implies listed(*pos, #[trigger] list.moves@[k], false) by {
                let j = choose|j: int| 0 <= j < generated_list.len() && generated_list[j] == list.moves@[k];
                assert(listed(*pos, generated_list[j], false));
            }
        }

        let alpha_orig = alpha;
        // check extension: evasions are forced, search them deeper
        let new_depth = if in_check {
            depth
        } else {
            depth - 1
        };
        self.keys.push(pos.key);
        let (best, best_mv) = self.search_moves(
            pos,
            &list,
            &hint,
            excluded,
            depth0,
            depth,
            new_depth,
            static_eval,
            alpha,
            beta,
            ply,
            in_check,
            is_null,
        );
        self.keys.pop();
        proof {
            assert(self.keys@ =~= old(self).keys@);
        }
        // no store during an exclusion search (the result omits a move)
        if !self.stopped && excluded == move_none() {
            let bound = if best >= beta {
                BOUND_LOWER
            } else if best > alpha_orig {
                BOUND_EXACT
            } else {
                BOUND_UPPER
            };
            self.tt.store(pos.key, best_mv, score_to_tt(best, ply), depth, bound);
        }
        best
    }
}


impl Searcher {
    /// One iteration of iterative deepening: search the root to `depth` in an
    /// aspiration window around `prev_score`, widened on failure until the
    /// result lands inside or the search stops.
    fn aspiration_search(&mut self, pos: &Position, depth: u32, prev_score: Score) -> (r: Score)
        requires
            old(self).wf(),
            pos.wf(),
            1 <= depth <= 127,
            -SCORE_LIMIT <= prev_score <= SCORE_LIMIT,
            old(self).root_move_ok(*pos),
        ensures
            final(self).wf(),
            final(self).root_move_ok(*pos),
            -SCORE_LIMIT <= r <= SCORE_LIMIT,
            final(self).root_score == old(self).root_score,
            final(self).reports == old(self).reports,
            final(self).silent == old(self).silent,
            !final(self).stopped && no_legal_move(*pos) ==> r == (if pos.in_check_spec() {
                -MATE
            } else {
                DRAW as int
            }),
            // a root without moves, searched with room in the node budget and
            // the window around its own score, is one node and cannot stop
            no_legal_move(*pos) && old(self).node_limit > 127 && !old(self).stopped && old(self).nodes == depth - 1
                && (depth < 4 || prev_score == (if pos.in_check_spec() {
                -MATE
            } else {
                DRAW as int
            })) ==> !final(self).stopped && final(self).nodes == depth && final(self).node_limit
                == old(self).node_limit,
    {
        let ghost expected: int = if pos.in_check_spec() {
            -MATE
        } else {
            DRAW as int
        };
        let ghost quiet: bool = no_legal_move(*pos) && self.node_limit > 127 && !self.stopped && self.nodes
            == depth - 1 && (depth < 4 || prev_score == expected);
        // aspiration window around the previous iteration's score,
        // widened on failure until the result lands inside
        let mut delta: Score = 25;
        let mut alpha: Score;
        let mut beta: Score;
        if depth >= 4 {
            alpha = if prev_score - delta > -MATE {
                prev_score - delta
            } else {
                -MATE
            };
            beta = if prev_score + delta < MATE {
                prev_score + delta
            } else {
                MATE
            };
        } else {
            alpha = -MATE;
            beta = MATE;
        }
        let mut score: Score = 0;
        let mut searching = true;
        while searching
            invariant
                self.wf(),
                pos.wf(),
                1 <= depth <= 127,
                self.root_move_ok(*pos),
                -MATE <= alpha <= SCORE_LIMIT,
                -SCORE_LIMIT <= beta <= SCORE_LIMIT,
                25 <= delta <= 2_000_000,
                -SCORE_LIMIT <= score <= SCORE_LIMIT,
                !searching && !self.stopped && no_legal_move(*pos) ==> score == expected,
                self.root_score == old(self).root_score,
                self.reports == old(self).reports,
                self.silent == old(self).silent,
                quiet ==> no_legal_move(*pos) && old(self).node_limit > 127,
                quiet ==> !self.stopped && self.node_limit == old(self).node_limit,
                quiet && searching ==> self.nodes == depth - 1 && !(expected <= alpha && alpha > -MATE)
                    && !(expected >= beta && beta < MATE),
                quiet && !searching ==> self.nodes == depth,
                    expected == (if pos.in_check_spec() {
                    -MATE
                } else {
                    DRAW as int
                }),
            decreases (if searching {
                1int
            } else {
                0int
            }), alpha + MATE, SCORE_LIMIT - beta,
        {
            let s = self.negamax(pos, depth, alpha, beta, 0, false);
            if self.stopped {
                score = s;
                searching = false;
            } else {
                let (a2, b2, done) = aspiration_update(alpha, beta, delta, s);
                if done {
                    score = s;
                    searching = false;
                } else {
                    alpha = a2;
                    beta = b2;
                }
            }
            if searching && delta < 1_000_000 {
                delta = delta * 2;
            }
        }
        score
    }

    /// Iterative deepening with aspiration windows. `history` holds the keys
    /// of all game positions strictly before `pos`. Returns the best move of
    /// the last completed iteration (or, if none completed, the first
    /// generated move); the null move only when no move was generated.
    #[verifier::rlimit(100)]
    pub fn go(&mut self, pos: &Position, limits: &Limits, history: &[u64]) -> (r: Move)
        requires
            old(self).wf(),
            pos.wf(),
            budget_ok(*limits),
        ensures
            final(self).wf(),
            r == Move(0) || (pos.move_ok(r) && listed(*pos, r, false)),
            r == Move(0) ==> no_legal_move(*pos),
            // a root without moves scores mate or draw once an iteration ran
            limits.depth != Some(0u32) && !final(self).stopped_spec() && no_legal_move(*pos) ==> final(self).root_score_spec() == (if pos.in_check_spec() {
                -MATE
            } else {
                DRAW as int
            }),
            // without moves and with no node budget the search cannot stop: a
            // single node per iteration never reaches a clock or flag read
            no_legal_move(*pos) && limits.depth != Some(0u32) && (limits.nodes is None || limits.nodes.unwrap()
                > 127) ==> !final(self).stopped_spec() && final(self).root_score_spec() == (if pos.in_check_spec() {
                -MATE
            } else {
                DRAW as int
            }),
            // the reports are the completed iterations, depth 1 upward; the
            // result is the best move of the last one, and the root score its
            // score
            forall|k: int| 0 <= k < final(self).reports_spec().len() ==> #[trigger] final(self).reports_spec()[k].depth
                == k + 1,
            final(self).reports_spec().len() > 0 ==> final(self).root_score_spec() == final(self).reports_spec().last().score,
            final(self).reports_spec().len() > 0 && final(self).reports_spec().last().best != Move(0) ==> r
                == final(self).reports_spec().last().best,
    {
        self.refresh_root(pos);
        self.start = clock_now();
        self.nodes = 0;
        self.stopped = false;
        self.keys.clear();
        let mut i: usize = 0;
        while i < history.len()
            invariant
                self.wf(),
                i <= history@.len(),
                self.nodes == 0,
                !self.stopped,
            decreases history@.len() - i,
        {
            self.keys.push(history[i]);
            i += 1;
        }
        self.best_root = move_none();
        self.reports = Vec::new();
        let (soft, hard) = time_budget(limits);
        self.soft_limit_ms = soft;
        self.hard_limit_ms = hard;
        self.node_limit = match limits.nodes {
            Some(n) => n,
            None => u64::MAX,
        };
        let md: u32 = match limits.depth {
            Some(d) => if d < (MAX_PLY - 1) as u32 {
                d
            } else {
                (MAX_PLY - 1) as u32
            },
            None => (MAX_PLY - 1) as u32,
        };
        self.max_depth = md;
        assert(limits.depth != Some(0u32) ==> md >= 1);

        let mut best = move_none();
        let mut prev_score: Score = 0;
        let mut depth: u32 = 1;
        let ghost expected: int = if pos.in_check_spec() {
            -MATE
        } else {
            DRAW as int
        };
        let ghost mut done_one: bool = false;
        let ghost quiet: bool = no_legal_move(*pos) && self.node_limit > 127;
        assert(self.reports@.len() == 0);
        while depth <= md
            invariant_except_break
                quiet ==> !self.stopped && self.nodes == depth - 1 && self.node_limit > 127 && no_legal_move(*pos),
                !self.silent ==> self.reports@.len() == depth - 1,
            invariant
                self.wf(),
                pos.wf(),
                1 <= depth,
                md <= 127,
                depth <= md + 1 || md == 0,
                quiet && depth > 1 ==> prev_score == expected,
                forall|k: int| 0 <= k < self.reports@.len() ==> #[trigger] self.reports@[k].depth == k + 1,
                self.silent ==> self.reports@.len() == 0,
                self.reports@.len() > 0 ==> best == self.reports@.last().best && self.root_score
                    == self.reports@.last().score,
                depth > 1 ==> done_one,
                done_one && no_legal_move(*pos) ==> self.root_score == expected,
                expected == (if pos.in_check_spec() {
                    -MATE
                } else {
                    DRAW as int
                }),
                self.root_move_ok(*pos),
                best == Move(0) || (playable(*pos, best) && listed(*pos, best, false)),
                -SCORE_LIMIT <= prev_score <= SCORE_LIMIT,
            ensures
                depth > md || self.stopped || done_one,
                quiet ==> !self.stopped,
                forall|k: int| 0 <= k < self.reports@.len() ==> #[trigger] self.reports@[k].depth == k + 1,
                self.reports@.len() > 0 ==> best == self.reports@.last().best && self.root_score
                    == self.reports@.last().score,
                done_one && no_legal_move(*pos) ==> self.root_score == expected,
            decreases md + 1 - depth,
        {
            let score = self.aspiration_search(pos, depth, prev_score);
            if self.stopped {
                break;
            }
            prev_score = score;
            self.root_score = score;
            proof {
                done_one = true;
            }
            best = self.best_root;
            let ms = elapsed_ms(&self.start);
            let ghost before = self.reports@;
            if !self.silent {
                self.reports.push(
                    IterationReport { depth, score, nodes: self.nodes, time_ms: ms, best },
                );
                proof {
                    assert forall|k: int| 0 <= k < self.reports@.len() implies #[trigger] self.reports@[k].depth
                        == k + 1 by {
                        if k < before.len() {
                            assert(self.reports@[k] == before[k]);
                        }
                    }
                }
            }
            if ms >= soft {
                break;
            }
            depth += 1;
        }
        if best == move_none() {
            // no iteration finished (extreme time pressure): any legal move
            let mut list = MoveList::new();
            let ghost fresh = list.moves@;
            generate_moves(pos, &mut list);
            proof {
                assert(fresh =~= Seq::<Move>::empty());
            }
            if list.len() > 0 {
                proof {
                    assert(list.moves@.subrange(0, 0) =~= Seq::<Move>::empty());
                }
                best = list.get(0);
                proof {
                    lemma_playable(*pos, best);
                    assert(move_from(Move(0)) == move_to(Move(0)));
                }
            } else {
                proof {
                    assert forall|m: Move| !listed(*pos, m, false) by {
                        if listed(*pos, m, false) {
                            lemma_listed_generated(*pos, list.moves@, m);
                        }
                    }
                }
            }
        }
        proof {
            if best != Move(0) {
                lemma_playable(*pos, best);
            }
        }
        best
    }
}


/// A score as UCI prints it: `mate N` (moves, negative when getting mated)
/// near the mate bounds, else `cp N`.
pub open spec fn format_score_spec(s: int) -> Seq<char> {
    if s >= MATE_BOUND || s <= -MATE_BOUND {
        let a = if s >= 0 {
            s
        } else {
            -s
        };
        let moves = trunc_half(MATE - a + 1);
        seq!['m', 'a', 't', 'e', ' '] + int_dec_spec(if s > 0 {
            moves
        } else {
            -moves
        })
    } else {
        seq!['c', 'p', ' '] + int_dec_spec(s)
    }
}

pub fn format_score(s: Score) -> (r: String)
    ensures
        r@ == format_score_spec(s as int),
{
    let mut out = String::new();
    if s >= MATE_BOUND || s <= -MATE_BOUND {
        let a: i64 = if s >= 0 {
            s as i64
        } else {
            -(s as i64)
        };
        let plies: i64 = MATE as i64 - a;
        let moves: i64 = (plies + 1) / 2;
        push_char(&mut out, 'm');
        push_char(&mut out, 'a');
        push_char(&mut out, 't');
        push_char(&mut out, 'e');
        push_char(&mut out, ' ');
        let ghost pre = out@;
        push_int(&mut out, if s > 0 {
            moves
        } else {
            -moves
        });
        proof {
            assert(pre =~= seq!['m', 'a', 't', 'e', ' ']);
            assert(moves == trunc_half(MATE - a + 1));
        }
    } else {
        push_char(&mut out, 'c');
        push_char(&mut out, 'p');
        push_char(&mut out, ' ');
        let ghost pre = out@;
        push_int(&mut out, s as i64);
        proof {
            assert(pre =~= seq!['c', 'p', ' ']);
        }
    }
    out
}

} // verus!
