//! Game-wide laws of the chained move, proved once over the model.

use crate::model::{
    chain_measure, chain_pre, chain_result, lemma_chain_step, lemma_sow_ge, lemma_sow_len,
    lemma_sow_skip_untouched, lemma_sow_total, lemma_sum_range_update, seg_last, sow_segment,
    total, NUM_HOLES,
};
use crate::player::Player;
use vstd::prelude::*;

verus! {

/// One sowing step keeps the board total: the marbles taken from the origin
/// are exactly the marbles dropped back into the ring.
proof fn lemma_segment_conserves_total(s: Seq<int>, p: Player, o: int)
    requires
        chain_pre(s, p, o),
    ensures
        total(sow_segment(s, p, o)) == total(s),
{
    let skip = p.spec_opponent().spec_store_idx();
    let n = s[o] as nat;
    let s0 = s.update(o, 0);
    lemma_sum_range_update(s, 0, NUM_HOLES as int, o, 0);
    lemma_sow_total(s0, skip, o, n);
}

/// Conservation: a chained move never creates or destroys marbles; the sum
/// of marbles across all fourteen holes is unchanged.
pub proof fn lemma_move_conserves_total(s: Seq<int>, p: Player, o: int)
    requires
        chain_pre(s, p, o),
    ensures
        total(chain_result(s, p, o).0) == total(s),
    decreases chain_measure(s, p, o),
{
    let s1 = sow_segment(s, p, o);
    let last = seg_last(s, p, o);
    lemma_segment_conserves_total(s, p, o);
    if last != p.spec_store_idx() && s1[last] > 1 {
        lemma_chain_step(s, p, o);
        lemma_move_conserves_total(s1, p, last);
    }
}

/// Store monotonicity: no store — neither the mover's nor the opponent's —
/// ever loses a marble over a chained move.
pub proof fn lemma_stores_never_decrease(s: Seq<int>, p: Player, o: int, q: Player)
    requires
        chain_pre(s, p, o),
    ensures
        chain_result(s, p, o).0[q.spec_store_idx()] >= s[q.spec_store_idx()],
    decreases chain_measure(s, p, o),
{
    let skip = p.spec_opponent().spec_store_idx();
    let n = s[o] as nat;
    let s0 = s.update(o, 0);
    let s1 = sow_segment(s, p, o);
    let last = seg_last(s, p, o);
    lemma_sow_ge(s0, skip, o, n);
    lemma_sow_len(s0, skip, o, n);
    assert(s0[q.spec_store_idx()] == s[q.spec_store_idx()]);
    assert(s1[q.spec_store_idx()] >= s0[q.spec_store_idx()]);
    if last != p.spec_store_idx() && s1[last] > 1 {
        lemma_chain_step(s, p, o);
        lemma_stores_never_decrease(s1, p, last, q);
    }
}

/// Sowing skip: over a whole chained move, not one marble is ever placed
/// into the opponent's store; its count is exactly what it was.
pub proof fn lemma_opponent_store_untouched(s: Seq<int>, p: Player, o: int)
    requires
        chain_pre(s, p, o),
    ensures
        chain_result(s, p, o).0[p.spec_opponent().spec_store_idx()] == s[p.spec_opponent().spec_store_idx()],
    decreases chain_measure(s, p, o),
{
    let skip = p.spec_opponent().spec_store_idx();
    let n = s[o] as nat;
    let s0 = s.update(o, 0);
    let s1 = sow_segment(s, p, o);
    let last = seg_last(s, p, o);
    lemma_sow_skip_untouched(s0, skip, o, n);
    assert(s1[skip] == s[skip]);
    if last != p.spec_store_idx() && s1[last] > 1 {
        lemma_chain_step(s, p, o);
        lemma_opponent_store_untouched(s1, p, last);
    }
}

/// Extra turn: when the last marble of the first sowing step lands exactly
/// in the mover's own store, the move ends at once and the mover goes again.
pub proof fn lemma_extra_turn(s: Seq<int>, p: Player, o: int)
    requires
        chain_pre(s, p, o),
        seg_last(s, p, o) == p.spec_store_idx(),
    ensures
        chain_result(s, p, o) == (sow_segment(s, p, o), p),
{
}

/// Stop on an empty hole: when the last marble lands outside the mover's
/// store in a hole that held nothing before (exactly one marble now), the
/// move ends there and the turn passes to the opponent.
pub proof fn lemma_landing_in_empty_hole_passes_turn(s: Seq<int>, p: Player, o: int)
    requires
        chain_pre(s, p, o),
        seg_last(s, p, o) != p.spec_store_idx(),
        sow_segment(s, p, o)[seg_last(s, p, o)] == 1,
    ensures
        chain_result(s, p, o) == (sow_segment(s, p, o), p.spec_opponent()),
{
}

/// Chained sowing: when the last marble lands outside the mover's store in a
/// hole that already held marbles, that hole's whole contents are re-sown at
/// once, with the same player still moving.
pub proof fn lemma_chained_sowing(s: Seq<int>, p: Player, o: int)
    requires
        chain_pre(s, p, o),
        seg_last(s, p, o) != p.spec_store_idx(),
        sow_segment(s, p, o)[seg_last(s, p, o)] > 1,
    ensures
        chain_result(s, p, o) == chain_result(sow_segment(s, p, o), p, seg_last(s, p, o)),
{
    lemma_chain_step(s, p, o);
}

} // verus!
