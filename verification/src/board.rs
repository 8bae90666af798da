//! The board state machine: creation, move validation, sowing and win
//! detection.

use crate::hole::Hole;
use crate::laws::{lemma_opponent_store_untouched, lemma_stores_never_decrease};
use crate::model::{
    chain_measure, chain_pre, chain_result, landing_pos, lemma_chain_step, lemma_element_le_sum,
    lemma_next_pos_range, lemma_sow_len, lemma_sow_nonneg, lemma_sow_total,
    lemma_sum_range_update, next_pos, nonneg, seg_last, sow, sow_segment, sum_range, total,
    winner_spec, MAJORITY_THRESHOLD, NUM_HOLES, STARTING_MARBLES, TOTAL_MARBLES,
};
use crate::player::{Player, STORE_IDX_A, STORE_IDX_B};
use vstd::prelude::*;

verus! {

/// What became of one attempted move: either the sowing was applied, and
/// `next` is the player whose turn comes next, or the selection was rejected
/// and the board is untouched, with the same player to choose again.
#[derive(Debug, Copy, Clone, PartialEq, Eq, Structural)]
pub enum MoveOutcome {
    /// The move was applied; the named player moves next.
    Applied { next: Player },
    /// The chosen index is not one of the mover's own play-holes: a store,
    /// the opponent's side, or outside the ring.
    RejectedNotOwnHole,
    /// The chosen hole is one of the mover's own, but holds no marbles.
    RejectedEmptyHole,
}

/// A mancala board with all its holes and the two stores that count the
/// players' points.
#[derive(Debug, Copy, Clone)]
pub struct Board {
    holes: [Hole; 14],
}

/// The marble counts of a fresh board: four in every play-hole, empty stores.
pub open spec fn fresh_board() -> Seq<int> {
    Seq::new(
        NUM_HOLES as nat,
        |i: int|
            if i == STORE_IDX_A as int || i == STORE_IDX_B as int {
                0
            } else {
                STARTING_MARBLES as int
            },
    )
}

impl View for Board {
    type V = Seq<int>;

    /// The board as a sequence of its fourteen marble counts.
    closed spec fn view(&self) -> Seq<int> {
        Seq::new(NUM_HOLES as nat, |i: int| self.holes@[i].marbles as int)
    }
}

impl Board {
    /// The conservation invariant: fourteen holes whose non-negative counts
    /// sum to the 48 marbles in play.
    pub open spec fn wf(&self) -> bool {
        &&& self@.len() == NUM_HOLES as int
        &&& nonneg(self@)
        &&& total(self@) == TOTAL_MARBLES as int
    }

    /// Create, initialize and return a new mancala board.
    #[verifier::loop_isolation(false)]
    pub fn new() -> (board: Board)
        ensures
            board.wf(),
            board@ == fresh_board(),
    {
        let init_hole = Hole { marbles: STARTING_MARBLES };
        let mut holes = [init_hole; 14];
        let mut i: usize = 0;
        while i < NUM_HOLES
            invariant
                i <= NUM_HOLES,
                forall|j: int| 0 <= j < i ==> holes@[j].marbles == STARTING_MARBLES,
            decreases NUM_HOLES - i,
        {
            holes[i] = init_hole;
            i = i + 1;
        }
        // Empty the mancalas of the players.
        holes[STORE_IDX_A] = Hole { marbles: 0 };
        holes[STORE_IDX_B] = Hole { marbles: 0 };
        let board = Board { holes };
        proof {
            assert(board@ =~= fresh_board());
            lemma_fresh_board_total();
        }
        board
    }

    /// Number of marbles currently in hole `i`.
    pub fn count_at(&self, i: usize) -> (count: u8)
        requires
            i < NUM_HOLES,
        ensures
            count as int == self@[i as int],
    {
        self.holes[i].count()
    }

    /// Take every marble out of hole `i` and return how many there were.
    fn take_at(&mut self, i: usize) -> (taken: u8)
        requires
            i < NUM_HOLES,
        ensures
            final(self)@ == old(self)@.update(i as int, 0),
            taken as int == old(self)@[i as int],
    {
        let mut h = self.holes[i];
        let taken = h.take_all();
        self.holes[i] = h;
        proof {
            assert(self@ =~= old(self)@.update(i as int, 0));
        }
        taken
    }

    /// Drop a single marble into hole `i`.
    fn add_one(&mut self, i: usize)
        requires
            i < NUM_HOLES,
            old(self)@[i as int] < u8::MAX as int,
        ensures
            final(self)@ == old(self)@.update(i as int, old(self)@[i as int] + 1),
    {
        let mut h = self.holes[i];
        h.add_x(1);
        self.holes[i] = h;
        proof {
            assert(self@ =~= old(self)@.update(i as int, old(self)@[i as int] + 1));
        }
    }

    /// Validate the chosen hole and, when it is one of the mover's own and
    /// holds marbles, sow its contents — chaining further sowings while the
    /// last marble keeps landing in occupied holes — and report who moves
    /// next. An invalid or empty selection leaves the board untouched.
    #[verifier::loop_isolation(false)]
    pub fn attempt_move(&mut self, player: Player, no: usize) -> (outcome: MoveOutcome)
        requires
            old(self).wf(),
        ensures
            final(self).wf(),
            !player.spec_owns_hole(no as int) ==> final(self)@ == old(self)@ && outcome
                == MoveOutcome::RejectedNotOwnHole,
            player.spec_owns_hole(no as int) && old(self)@[no as int] == 0 ==> final(self)@ == old(
                self,
            )@ && outcome == MoveOutcome::RejectedEmptyHole,
            player.spec_owns_hole(no as int) && old(self)@[no as int] > 0 ==> final(self)@
                == chain_result(old(self)@, player, no as int).0 && outcome == (
            MoveOutcome::Applied { next: chain_result(old(self)@, player, no as int).1 }),
            // The mover's store only ever gains marbles, and the opponent's
            // store is left exactly as it was.
            final(self)@[player.spec_store_idx()] >= old(self)@[player.spec_store_idx()],
            final(self)@[player.spec_opponent().spec_store_idx()] == old(
                self,
            )@[player.spec_opponent().spec_store_idx()],
    {
        if !player.owns_hole(no) {
            return MoveOutcome::RejectedNotOwnHole;
        }
        if self.count_at(no) == 0 {
            return MoveOutcome::RejectedEmptyHole;
        }
        let own_store = player.store_idx();
        let skip = player.opponent().store_idx();
        let mut origin = no;
        loop
            invariant
                origin < NUM_HOLES,
                chain_pre(self@, player, origin as int),
                self@[origin as int] >= 1,
                chain_result(self@, player, origin as int) == chain_result(
                    old(self)@,
                    player,
                    no as int,
                ),
            decreases chain_measure(self@, player, origin as int),
        {
            let ghost pre = self@;
            let n = self.take_at(origin);
            let ghost s0 = self@;
            proof {
                lemma_sum_range_update(pre, 0, NUM_HOLES as int, origin as int, 0);
                assert(total(s0) == TOTAL_MARBLES as int - n as int);
                assert forall|j: int| 0 <= j < s0.len() implies s0[j] >= 0 by {
                    assert(pre[j] >= 0);
                }
            }
            let mut cur = origin;
            let mut k: u8 = 0;
            while k < n
                invariant
                    k <= n,
                    cur < NUM_HOLES,
                    self@ == sow(s0, skip as int, origin as int, k as nat),
                    cur as int == landing_pos(skip as int, origin as int, k as nat),
                decreases n - k,
            {
                cur = next_hole(skip, cur);
                proof {
                    lemma_sow_total(s0, skip as int, origin as int, k as nat);
                    lemma_sow_nonneg(s0, skip as int, origin as int, k as nat);
                    lemma_sow_len(s0, skip as int, origin as int, k as nat);
                    lemma_element_le_sum(self@, 0, NUM_HOLES as int, cur as int);
                }
                self.add_one(cur);
                proof {
                    assert(self@ =~= sow(s0, skip as int, origin as int, (k + 1) as nat));
                }
                k = k + 1;
            }
            proof {
                assert(self@ == sow_segment(pre, player, origin as int));
                assert(cur as int == seg_last(pre, player, origin as int));
                lemma_sow_len(s0, skip as int, origin as int, n as nat);
                lemma_sow_nonneg(s0, skip as int, origin as int, n as nat);
                lemma_sow_total(s0, skip as int, origin as int, n as nat);
            }
            if cur == own_store {
                proof {
                    assert(chain_result(pre, player, origin as int) == (self@, player));
                    lemma_stores_never_decrease(old(self)@, player, no as int, player);
                    lemma_opponent_store_untouched(old(self)@, player, no as int);
                }
                return MoveOutcome::Applied { next: player };
            }
            let c = self.count_at(cur);
            if c > 1 {
                proof {
                    lemma_chain_step(pre, player, origin as int);
                }
                origin = cur;
            } else {
                proof {
                    assert(chain_result(pre, player, origin as int) == (
                        self@,
                        player.spec_opponent(),
                    ));
                    lemma_stores_never_decrease(old(self)@, player, no as int, player);
                    lemma_opponent_store_untouched(old(self)@, player, no as int);
                }
                return MoveOutcome::Applied { next: player.opponent() };
            }
        }
    }

    /// Test whether the player chose one of their own holes. If they did,
    /// sow from it and return whose turn is next; otherwise leave the board
    /// unchanged and let the same player choose again.
    pub fn player_choses_hole(&mut self, player: Player, no: usize) -> (next: Player)
        requires
            old(self).wf(),
        ensures
            final(self).wf(),
            player.spec_owns_hole(no as int) && old(self)@[no as int] > 0 ==> final(self)@
                == chain_result(old(self)@, player, no as int).0 && next == chain_result(
                old(self)@,
                player,
                no as int,
            ).1,
            !(player.spec_owns_hole(no as int) && old(self)@[no as int] > 0) ==> final(self)@
                == old(self)@ && next == player,
    {
        match self.attempt_move(player, no) {
            MoveOutcome::Applied { next } => next,
            MoveOutcome::RejectedNotOwnHole => player,
            MoveOutcome::RejectedEmptyHole => player,
        }
    }

    /// Test if one of the players has already won and return them.
    #[verifier::loop_isolation(false)]
    pub fn test_if_won(&self) -> (winner: Option<Player>)
        ensures
            winner == winner_spec(self@),
    {
        // See if one of the players already has the majority of marbles.
        if self.count_at(STORE_IDX_A) > MAJORITY_THRESHOLD {
            return Some(Player::A);
        }
        if self.count_at(STORE_IDX_B) > MAJORITY_THRESHOLD {
            return Some(Player::B);
        }
        // Test if the game is over by exhaustion of one side's play-holes.
        let marbles_on_player_a_side = self.sum_of_holes(0, STORE_IDX_A);
        let marbles_on_player_b_side = self.sum_of_holes(STORE_IDX_A + 1, STORE_IDX_B);
        if marbles_on_player_a_side == 0 || marbles_on_player_b_side == 0 {
            if marbles_on_player_a_side > marbles_on_player_b_side {
                return Some(Player::A);
            }
            return Some(Player::B);
        }
        None
    }

    /// Sum of the marble counts of holes `lo..hi`.
    #[verifier::loop_isolation(false)]
    fn sum_of_holes(&self, lo: usize, hi: usize) -> (sum: u32)
        requires
            lo <= hi <= NUM_HOLES,
        ensures
            sum as int == sum_range(self@, lo as int, hi as int),
    {
        let mut sum: u32 = 0;
        let mut i = lo;
        while i < hi
            invariant
                lo <= i <= hi,
                sum as int == sum_range(self@, lo as int, i as int),
                sum <= 255 * i,
            decreases hi - i,
        {
            sum = sum + self.count_at(i) as u32;
            i = i + 1;
        }
        sum
    }

    /// Runtime check of the conservation invariant: fourteen holes whose
    /// counts sum to the 48 marbles in play.
    pub fn is_well_formed(&self) -> (well: bool)
        ensures
            well == self.wf(),
    {
        let sum = self.sum_of_holes(0, NUM_HOLES);
        sum == TOTAL_MARBLES as u32
    }

    /// Build a board with the given fourteen marble counts, one per hole.
    /// The counts must carry exactly the 48 marbles in play.
    #[verifier::loop_isolation(false)]
    pub fn from_counts(counts: [u8; 14]) -> (board: Board)
        requires
            total(as_marble_counts(counts@)) == TOTAL_MARBLES as int,
        ensures
            board.wf(),
            board@ == as_marble_counts(counts@),
    {
        let mut holes = [Hole { marbles: 0 }; 14];
        let mut i: usize = 0;
        while i < NUM_HOLES
            invariant
                i <= NUM_HOLES,
                forall|j: int| 0 <= j < i ==> holes@[j].marbles == counts@[j],
            decreases NUM_HOLES - i,
        {
            holes[i] = Hole { marbles: counts[i] };
            i = i + 1;
        }
        let board = Board { holes };
        proof {
            assert(board@ =~= as_marble_counts(counts@));
        }
        board
    }
}

/// A sequence of raw byte counts read as marble counts.
pub open spec fn as_marble_counts(s: Seq<u8>) -> Seq<int> {
    Seq::new(s.len(), |i: int| s[i] as int)
}

impl Default for Board {
    /// A fresh board, as `Board::new` builds it.
    fn default() -> (board: Board)
        ensures
            board.wf(),
            board@ == fresh_board(),
    {
        Board::new()
    }
}

/// The hole after `cur` in the ring walk that leaves hole `skip` out.
fn next_hole(skip: usize, cur: usize) -> (nxt: usize)
    requires
        skip < NUM_HOLES,
        cur < NUM_HOLES,
    ensures
        nxt as int == next_pos(skip as int, cur as int),
        nxt < NUM_HOLES,
{
    proof {
        lemma_next_pos_range(skip as int, cur as int);
    }
    let mut j = cur + 1;
    if j == NUM_HOLES {
        j = 0;
    }
    if j == skip {
        j = j + 1;
        if j == NUM_HOLES {
            j = 0;
        }
    }
    j
}

/// A fresh board carries exactly the 48 marbles in play.
pub proof fn lemma_fresh_board_total()
    ensures
        total(fresh_board()) == TOTAL_MARBLES as int,
{
    reveal_with_fuel(sum_range, 15);
}

} // verus!
