//! Perft: exact leaf counts of the legal move tree, for validating the move
//! generator.

use crate::movegen::{MoveList, generate_moves, lemma_generated_empty, lemma_playable, no_legal_move};
use crate::position::Position;
use crate::types::Move;
use vstd::prelude::*;

verus! {

/// Number of leaves of the legal move tree `depth` plies deep (the moves
/// themselves at depth 1). Counts saturate at `u64::MAX`.
pub fn perft(pos: &Position, depth: u32) -> (r: u64)
    requires
        pos.wf(),
    ensures
        depth == 0 ==> r == 1,
        depth == 1 ==> (r == 0 <==> no_legal_move(*pos)),
        depth >= 1 && no_legal_move(*pos) ==> r == 0,
    decreases depth,
{
    if depth == 0 {
        return 1;
    }
    let mut list = MoveList::new();
    let ghost fresh = list.moves@;
    generate_moves(pos, &mut list);
    proof {
        assert(fresh =~= Seq::<Move>::empty());
        lemma_generated_empty(*pos, list.moves@);
    }
    if depth == 1 {
        return list.len() as u64;  // bulk counting
    }
    proof {
        assert(list.moves@.subrange(0, 0) =~= Seq::<Move>::empty());
    }
    let mut nodes: u64 = 0;
    let n = list.len();
    let mut i: usize = 0;
    while i < n
        invariant
            pos.wf(),
            depth >= 2,
            n == list.moves@.len(),
            i <= n,
            n == 0 ==> nodes == 0,
            forall|k: int| 0 <= k < n ==> crate::movegen::playable(*pos, #[trigger] list.moves@[k]),
        decreases n - i,
    {
        let mv = list.get(i);
        proof {
            lemma_playable(*pos, mv);
        }
        let child = pos.make(mv);
        nodes = nodes.saturating_add(perft(&child, depth - 1));
        i += 1;
    }
    nodes
}

} // verus!
