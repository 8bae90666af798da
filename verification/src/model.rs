//! Mathematical model of the game: the board as a sequence of marble counts,
//! the ring walk that skips the opponent's store, sowing, and the chained
//! move. The executable operations on `Board` are specified against these
//! functions.

use crate::player::{Player, STORE_IDX_A, STORE_IDX_B};
use vstd::prelude::*;

verus! {

/// Number of holes on the board: six play-holes and one store per player.
pub const NUM_HOLES: usize = 14;

/// Number of marbles each play-hole holds at the start of a game.
pub const STARTING_MARBLES: u8 = 4;

/// Total number of marbles in play, conserved for the whole game.
pub const TOTAL_MARBLES: u8 = 48;

/// Strictly more marbles than this in one store is a secured majority.
pub const MAJORITY_THRESHOLD: u8 = 24;

/// Sum of the entries of `s` with indices in `lo..hi`.
pub open spec fn sum_range(s: Seq<int>, lo: int, hi: int) -> int
    decreases hi - lo,
{
    if hi <= lo {
        0
    } else {
        sum_range(s, lo, hi - 1) + s[hi - 1]
    }
}

/// Sum of all entries of `s`.
pub open spec fn total(s: Seq<int>) -> int {
    sum_range(s, 0, s.len() as int)
}

/// All entries of `s` are non-negative.
pub open spec fn nonneg(s: Seq<int>) -> bool {
    forall|i: int| 0 <= i < s.len() ==> s[i] >= 0
}

/// Updating one entry moves the sum by the difference at that entry.
pub proof fn lemma_sum_range_update(s: Seq<int>, lo: int, hi: int, i: int, v: int)
    requires
        0 <= i < s.len(),
        0 <= lo,
        hi <= s.len(),
    ensures
        sum_range(s.update(i, v), lo, hi) == sum_range(s, lo, hi) + if lo <= i < hi {
            v - s[i]
        } else {
            0
        },
    decreases hi - lo,
{
    if hi > lo {
        lemma_sum_range_update(s, lo, hi - 1, i, v);
    }
}

/// A sum of non-negative entries is non-negative.
pub proof fn lemma_sum_range_nonneg(s: Seq<int>, lo: int, hi: int)
    requires
        nonneg(s),
        0 <= lo,
        hi <= s.len(),
    ensures
        sum_range(s, lo, hi) >= 0,
    decreases hi - lo,
{
    if hi > lo {
        lemma_sum_range_nonneg(s, lo, hi - 1);
    }
}

/// Any entry of a non-negative sequence is at most the sum over a range that
/// contains it.
pub proof fn lemma_element_le_sum(s: Seq<int>, lo: int, hi: int, i: int)
    requires
        nonneg(s),
        0 <= lo <= i < hi <= s.len(),
    ensures
        s[i] <= sum_range(s, lo, hi),
    decreases hi - lo,
{
    if i == hi - 1 {
        lemma_sum_range_nonneg(s, lo, hi - 1);
    } else {
        lemma_element_le_sum(s, lo, hi - 1, i);
    }
}

/// `i` brought back into the ring `0..14`, for `0 <= i < 28`.
pub open spec fn wrap(i: int) -> int {
    if i >= NUM_HOLES as int {
        i - NUM_HOLES as int
    } else {
        i
    }
}

/// The hole that receives the next marble after hole `cur`, walking the ring
/// forward and leaving hole `skip` out of the walk entirely.
pub open spec fn next_pos(skip: int, cur: int) -> int {
    let j = wrap(cur + 1);
    if j == skip {
        wrap(j + 1)
    } else {
        j
    }
}

/// The hole that receives the `k`-th marble (counting from 1) sown after hole
/// `start`, with hole `skip` left out of the walk. For `k == 0` this is
/// `start` itself.
pub open spec fn landing_pos(skip: int, start: int, k: nat) -> int
    decreases k,
{
    if k == 0 {
        start
    } else {
        next_pos(skip, landing_pos(skip, start, (k - 1) as nat))
    }
}

/// The board after dropping `n` marbles, one into each successive hole of the
/// walk that starts after hole `start` and skips hole `skip`.
pub open spec fn sow(s: Seq<int>, skip: int, start: int, n: nat) -> Seq<int>
    decreases n,
{
    if n == 0 {
        s
    } else {
        let prev = sow(s, skip, start, (n - 1) as nat);
        let p = landing_pos(skip, start, n);
        prev.update(p, prev[p] + 1)
    }
}

/// One walk step stays inside the ring and never lands on the skipped hole.
pub proof fn lemma_next_pos_range(skip: int, cur: int)
    requires
        0 <= skip < NUM_HOLES as int,
        0 <= cur < NUM_HOLES as int,
    ensures
        0 <= next_pos(skip, cur) < NUM_HOLES as int,
        next_pos(skip, cur) != skip,
{
}

/// Every marble of a sowing lands inside the ring and never on the skipped
/// hole.
pub proof fn lemma_landing_pos_range(skip: int, start: int, k: nat)
    requires
        0 <= skip < NUM_HOLES as int,
        0 <= start < NUM_HOLES as int,
    ensures
        0 <= landing_pos(skip, start, k) < NUM_HOLES as int,
        k >= 1 ==> landing_pos(skip, start, k) != skip,
    decreases k,
{
    if k > 0 {
        lemma_landing_pos_range(skip, start, (k - 1) as nat);
        lemma_next_pos_range(skip, landing_pos(skip, start, (k - 1) as nat));
    }
}

/// Sowing keeps the length of the board.
pub proof fn lemma_sow_len(s: Seq<int>, skip: int, start: int, n: nat)
    requires
        s.len() == NUM_HOLES as int,
        0 <= skip < NUM_HOLES as int,
        0 <= start < NUM_HOLES as int,
    ensures
        sow(s, skip, start, n).len() == NUM_HOLES as int,
    decreases n,
{
    if n > 0 {
        lemma_sow_len(s, skip, start, (n - 1) as nat);
        lemma_landing_pos_range(skip, start, n);
    }
}

/// Sowing never removes marbles from any hole.
pub proof fn lemma_sow_ge(s: Seq<int>, skip: int, start: int, n: nat)
    requires
        s.len() == NUM_HOLES as int,
        0 <= skip < NUM_HOLES as int,
        0 <= start < NUM_HOLES as int,
    ensures
        forall|j: int| 0 <= j < NUM_HOLES as int ==> sow(s, skip, start, n)[j] >= s[j],
    decreases n,
{
    if n > 0 {
        lemma_sow_ge(s, skip, start, (n - 1) as nat);
        lemma_sow_len(s, skip, start, (n - 1) as nat);
        lemma_landing_pos_range(skip, start, n);
    }
}

/// A hole that no marble of the sowing lands in keeps its count.
pub proof fn lemma_sow_frame(s: Seq<int>, skip: int, start: int, n: nat, j: int)
    requires
        s.len() == NUM_HOLES as int,
        0 <= skip < NUM_HOLES as int,
        0 <= start < NUM_HOLES as int,
        0 <= j < NUM_HOLES as int,
        forall|k: nat| 1 <= k <= n ==> landing_pos(skip, start, k) != j,
    ensures
        sow(s, skip, start, n)[j] == s[j],
    decreases n,
{
    if n > 0 {
        lemma_sow_frame(s, skip, start, (n - 1) as nat, j);
        lemma_sow_len(s, skip, start, (n - 1) as nat);
        lemma_landing_pos_range(skip, start, n);
    }
}

/// A hole that some marble of the sowing lands in gains at least one marble.
pub proof fn lemma_sow_hit(s: Seq<int>, skip: int, start: int, n: nat, k: nat)
    requires
        s.len() == NUM_HOLES as int,
        0 <= skip < NUM_HOLES as int,
        0 <= start < NUM_HOLES as int,
        1 <= k <= n,
    ensures
        sow(s, skip, start, n)[landing_pos(skip, start, k)] >= s[landing_pos(skip, start, k)]
            + 1,
    decreases n,
{
    lemma_landing_pos_range(skip, start, k);
    if k == n {
        lemma_sow_ge(s, skip, start, (n - 1) as nat);
        lemma_sow_len(s, skip, start, (n - 1) as nat);
    } else {
        lemma_sow_hit(s, skip, start, (n - 1) as nat, k);
        lemma_sow_len(s, skip, start, (n - 1) as nat);
        lemma_landing_pos_range(skip, start, n);
    }
}

/// Sowing `n` marbles raises the board total by exactly `n`.
pub proof fn lemma_sow_total(s: Seq<int>, skip: int, start: int, n: nat)
    requires
        s.len() == NUM_HOLES as int,
        0 <= skip < NUM_HOLES as int,
        0 <= start < NUM_HOLES as int,
    ensures
        total(sow(s, skip, start, n)) == total(s) + n,
    decreases n,
{
    if n > 0 {
        lemma_sow_total(s, skip, start, (n - 1) as nat);
        lemma_sow_len(s, skip, start, (n - 1) as nat);
        lemma_landing_pos_range(skip, start, n);
        let prev = sow(s, skip, start, (n - 1) as nat);
        let p = landing_pos(skip, start, n);
        lemma_sum_range_update(prev, 0, NUM_HOLES as int, p, prev[p] + 1);
    }
}

/// Sowing keeps every count non-negative.
pub proof fn lemma_sow_nonneg(s: Seq<int>, skip: int, start: int, n: nat)
    requires
        s.len() == NUM_HOLES as int,
        0 <= skip < NUM_HOLES as int,
        0 <= start < NUM_HOLES as int,
        nonneg(s),
    ensures
        nonneg(sow(s, skip, start, n)),
    decreases n,
{
    lemma_sow_ge(s, skip, start, n);
    lemma_sow_len(s, skip, start, n);
    assert forall|j: int| 0 <= j < sow(s, skip, start, n).len() implies sow(
        s,
        skip,
        start,
        n,
    )[j] >= 0 by {
        assert(sow(s, skip, start, n)[j] >= s[j]);
    }
}

/// The skipped hole never receives a marble from a sowing.
pub proof fn lemma_sow_skip_untouched(s: Seq<int>, skip: int, start: int, n: nat)
    requires
        s.len() == NUM_HOLES as int,
        0 <= skip < NUM_HOLES as int,
        0 <= start < NUM_HOLES as int,
    ensures
        sow(s, skip, start, n)[skip] == s[skip],
    decreases n,
{
    assert forall|k: nat| 1 <= k <= n implies landing_pos(skip, start, k) != skip by {
        lemma_landing_pos_range(skip, start, k);
    }
    lemma_sow_frame(s, skip, start, n, skip);
}

/// Steps around the plain ring from hole `from` forward to hole `to`: zero
/// for the hole itself, otherwise in `1..14`.
pub open spec fn ring_dist(from: int, to: int) -> int {
    if to >= from {
        to - from
    } else {
        to + NUM_HOLES as int - from
    }
}

/// A walk step that does not land on hole `own` moves strictly farther away
/// from `own` around the ring, as long as `own` is not the skipped hole.
pub proof fn lemma_step_advances(skip: int, own: int, cur: int)
    requires
        0 <= skip < NUM_HOLES as int,
        0 <= own < NUM_HOLES as int,
        own != skip,
        0 <= cur < NUM_HOLES as int,
        cur != own,
        next_pos(skip, cur) != own,
    ensures
        ring_dist(own, next_pos(skip, cur)) >= ring_dist(own, cur) + 1,
{
}

/// A sowing whose marbles all avoid hole `own` drives the landing hole at
/// least `n` steps farther away from `own` around the ring.
pub proof fn lemma_landing_advances(skip: int, own: int, start: int, n: nat)
    requires
        0 <= skip < NUM_HOLES as int,
        0 <= own < NUM_HOLES as int,
        own != skip,
        0 <= start < NUM_HOLES as int,
        start != own,
        forall|k: nat| 1 <= k <= n ==> landing_pos(skip, start, k) != own,
    ensures
        ring_dist(own, landing_pos(skip, start, n)) >= ring_dist(own, start) + n,
    decreases n,
{
    if n > 0 {
        lemma_landing_advances(skip, own, start, (n - 1) as nat);
        let prev = landing_pos(skip, start, (n - 1) as nat);
        lemma_landing_pos_range(skip, start, (n - 1) as nat);
        assert(landing_pos(skip, start, n) != own);
        lemma_step_advances(skip, own, prev);
    }
}

/// Sum of the marbles in a player's six play-holes.
pub open spec fn side_sum(s: Seq<int>, p: Player) -> int {
    match p {
        Player::A => sum_range(s, 0, STORE_IDX_A as int),
        Player::B => sum_range(s, STORE_IDX_A as int + 1, STORE_IDX_B as int),
    }
}

/// The winner, if the game is over. A store holding strictly more than half
/// the marbles in play is a secured majority and wins at once. Otherwise the
/// game ends only by exhaustion — one side's play-holes all empty — and the
/// side with the strictly greater play-hole sum wins, player B on a tie.
pub open spec fn winner_spec(s: Seq<int>) -> Option<Player> {
    if s[STORE_IDX_A as int] > MAJORITY_THRESHOLD as int {
        Some(Player::A)
    } else if s[STORE_IDX_B as int] > MAJORITY_THRESHOLD as int {
        Some(Player::B)
    } else if side_sum(s, Player::A) == 0 || side_sum(s, Player::B) == 0 {
        if side_sum(s, Player::A) > side_sum(s, Player::B) {
            Some(Player::A)
        } else {
            Some(Player::B)
        }
    } else {
        None
    }
}

/// One sowing step from hole `o`: take every marble of `o` and sow them,
/// skipping the opponent's store.
pub open spec fn sow_segment(s: Seq<int>, p: Player, o: int) -> Seq<int> {
    sow(s.update(o, 0), p.spec_opponent().spec_store_idx(), o, s[o] as nat)
}

/// The hole where the last marble of one sowing step from hole `o` lands.
pub open spec fn seg_last(s: Seq<int>, p: Player, o: int) -> int {
    landing_pos(p.spec_opponent().spec_store_idx(), o, s[o] as nat)
}

/// What a chained move needs of its board and origin: fourteen holes whose
/// non-negative counts sum to the 48 marbles in play, and an origin inside
/// the ring that is neither store.
pub open spec fn chain_pre(s: Seq<int>, p: Player, o: int) -> bool {
    &&& s.len() == NUM_HOLES as int
    &&& nonneg(s)
    &&& total(s) == TOTAL_MARBLES as int
    &&& 0 <= o < NUM_HOLES as int
    &&& o != p.spec_store_idx()
    &&& o != p.spec_opponent().spec_store_idx()
}

/// Termination measure for a chained move: every relay either banks a new
/// marble in the mover's own store or moves the origin strictly closer to it
/// around the ring.
pub open spec fn chain_measure(s: Seq<int>, p: Player, o: int) -> int {
    13 * (TOTAL_MARBLES as int - s[p.spec_store_idx()]) + (13 - ring_dist(
        p.spec_store_idx(),
        o,
    ))
}

/// One relay of the chain keeps the move preconditions and strictly shrinks
/// the termination measure.
pub proof fn lemma_chain_step(s: Seq<int>, p: Player, o: int)
    requires
        chain_pre(s, p, o),
        seg_last(s, p, o) != p.spec_store_idx(),
        sow_segment(s, p, o)[seg_last(s, p, o)] > 1,
    ensures
        chain_pre(sow_segment(s, p, o), p, seg_last(s, p, o)),
        0 <= chain_measure(sow_segment(s, p, o), p, seg_last(s, p, o)) < chain_measure(s, p, o),
{
    let own = p.spec_store_idx();
    let skip = p.spec_opponent().spec_store_idx();
    let n = s[o] as nat;
    let s0 = s.update(o, 0);
    let s1 = sow_segment(s, p, o);
    let last = seg_last(s, p, o);

    if s[o] == 0 {
        // A sowing of zero marbles ends where it began, with the origin
        // emptied; that hole cannot hold more than one marble.
        assert(s1 == s0);
        assert(false);
    }

    lemma_sum_range_update(s, 0, NUM_HOLES as int, o, 0);
    lemma_sow_len(s0, skip, o, n);
    lemma_sow_nonneg(s0, skip, o, n);
    lemma_sow_total(s0, skip, o, n);
    lemma_landing_pos_range(skip, o, n);
    assert(total(s1) == TOTAL_MARBLES as int);
    lemma_element_le_sum(s, 0, NUM_HOLES as int, own);

    if exists|k: nat| 1 <= k <= n && landing_pos(skip, o, k) == own {
        let k = choose|k: nat| 1 <= k <= n && landing_pos(skip, o, k) == own;
        lemma_sow_hit(s0, skip, o, n, k);
        assert(s1[own] >= s[own] + 1);
        lemma_element_le_sum(s1, 0, NUM_HOLES as int, own);
        assert(s1[own] <= TOTAL_MARBLES as int);
    } else {
        assert(forall|k: nat| 1 <= k <= n ==> landing_pos(skip, o, k) != own);
        lemma_sow_frame(s0, skip, o, n, own);
        assert(s1[own] == s[own]);
        lemma_landing_advances(skip, own, o, n);
        assert(ring_dist(own, last) >= ring_dist(own, o) + 1);
    }
}

/// The full chained move from hole `o` on board `s`: the mover keeps sowing
/// while the last marble lands in a hole that already held marbles; the
/// result is the final board together with the player who moves next (the
/// mover again after a landing in their own store, otherwise the opponent).
pub open spec fn chain_result(s: Seq<int>, p: Player, o: int) -> (Seq<int>, Player)
    decreases chain_measure(s, p, o),
        when chain_pre(s, p, o)
{
    let s1 = sow_segment(s, p, o);
    let last = seg_last(s, p, o);
    if last == p.spec_store_idx() {
        (s1, p)
    } else if s1[last] > 1 {
        proof {
            lemma_chain_step(s, p, o);
        }
        chain_result(s1, p, last)
    } else {
        (s1, p.spec_opponent())
    }
}

} // verus!
