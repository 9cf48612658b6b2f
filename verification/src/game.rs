use vstd::prelude::*;

use crate::engine::Difficulty;
use crate::engine::Move;
use crate::engine::spec_payoff;
use crate::numeral::append_u32;
use crate::numeral::dec_digits;
use crate::strategy::get_computer_move;
use crate::strategy::spec_next_move;

verus! {

/// The player's cumulative payoff over a history of completed rounds.
pub open spec fn sum_player(h: Seq<(Move, Move)>) -> int
    decreases h.len(),
{
    if h.len() == 0 {
        0
    } else {
        sum_player(h.drop_last()) + spec_payoff(h.last().0, h.last().1).0
    }
}

/// The opponent's cumulative payoff over a history of completed rounds.
pub open spec fn sum_computer(h: Seq<(Move, Move)>) -> int
    decreases h.len(),
{
    if h.len() == 0 {
        0
    } else {
        sum_computer(h.drop_last()) + spec_payoff(h.last().0, h.last().1).1
    }
}

/// Each side earns between 0 and 5 points per round.
pub proof fn lemma_sum_bounds(h: Seq<(Move, Move)>)
    ensures
        0 <= sum_player(h) <= 5 * h.len(),
        0 <= sum_computer(h) <= 5 * h.len(),
    decreases h.len(),
{
    if h.len() > 0 {
        lemma_sum_bounds(h.drop_last());
    }
}

/// One game in progress: scores, round counter, fixed round budget, the
/// append-only move history and the chosen difficulty.
pub struct GameState {
    pub player_score: i32,
    pub computer_score: i32,
    pub round: u32,
    pub total_rounds: u32,
    pub history: Vec<(Move, Move)>,
    pub difficulty: Difficulty,
}

impl GameState {
    /// The state machine's invariant: the round counter equals the number of
    /// recorded rounds, never exceeds the round budget of 1 to 50, and both
    /// scores are exactly the payoff sums over the history.
    pub open spec fn well_formed(self) -> bool {
        &&& self.round as int == self.history@.len()
        &&& self.round <= self.total_rounds
        &&& 1 <= self.total_rounds <= 50
        &&& self.player_score as int == sum_player(self.history@)
        &&& self.computer_score as int == sum_computer(self.history@)
    }

    pub open spec fn finished(self) -> bool {
        self.round == self.total_rounds
    }

    /// A fresh game: zero scores, empty history, not yet started.
    pub fn new(total_rounds: u32, difficulty: Difficulty) -> (r: GameState)
        requires
            1 <= total_rounds <= 50,
        ensures
            r.well_formed(),
            r.player_score == 0,
            r.computer_score == 0,
            r.round == 0,
            r.total_rounds == total_rounds,
            r.history@ == Seq::<(Move, Move)>::empty(),
            r.difficulty == difficulty,
    {
        GameState {
            player_score: 0,
            computer_score: 0,
            round: 0,
            total_rounds,
            history: Vec::new(),
            difficulty,
        }
    }

    /// The payoff pair (player points, opponent points) for one round.
    pub fn calculate_payoff(&self, player_move: Move, computer_move: Move) -> (r: (i32, i32))
        ensures
            r.0 as int == spec_payoff(player_move, computer_move).0,
            r.1 as int == spec_payoff(player_move, computer_move).1,
    {
        match (player_move, computer_move) {
            (Move::Cooperate, Move::Cooperate) => (3, 3),
            (Move::Cooperate, Move::Defect) => (0, 5),
            (Move::Defect, Move::Cooperate) => (5, 0),
            (Move::Defect, Move::Defect) => (1, 1),
        }
    }

    /// Plays one round with both moves given: advances the round counter,
    /// pays both sides per the payoff matrix and appends the pair to the
    /// history. No round is skipped, replayed or reordered.
    pub fn advance_round(&mut self, player_move: Move, computer_move: Move)
        requires
            old(self).well_formed(),
            old(self).round < old(self).total_rounds,
        ensures
            final(self).well_formed(),
            final(self).round == old(self).round + 1,
            final(self).history@ == old(self).history@.push((player_move, computer_move)),
            final(self).player_score == old(self).player_score + spec_payoff(
                player_move,
                computer_move,
            ).0,
            final(self).computer_score == old(self).computer_score + spec_payoff(
                player_move,
                computer_move,
            ).1,
            final(self).total_rounds == old(self).total_rounds,
            final(self).difficulty == old(self).difficulty,
    {
        proof {
            lemma_sum_bounds(self.history@);
        }
        let (player_points, computer_points) = self.calculate_payoff(player_move, computer_move);
        self.round = self.round + 1;
        self.player_score = self.player_score + player_points;
        self.computer_score = self.computer_score + computer_points;
        self.history.push((player_move, computer_move));
        proof {
            let h = self.history@;
            assert(h.drop_last() =~= old(self).history@);
            assert(h.last() == (player_move, computer_move));
        }
    }

    /// Plays one round against the house: asks the difficulty-tiered
    /// strategy for the opponent's move (over the history as of before this
    /// round), then advances the state, and returns that move.
    pub fn play_round(&mut self, player_move: Move) -> (computer_move: Move)
        requires
            old(self).well_formed(),
            old(self).round < old(self).total_rounds,
        ensures
            exists|draw: int, flip: int|
                0 <= draw < 100 && 0 <= flip < 100 && computer_move == spec_next_move(
                    old(self).history@,
                    old(self).difficulty,
                    draw,
                    flip,
                ),
            final(self).well_formed(),
            final(self).round == old(self).round + 1,
            final(self).history@ == old(self).history@.push((player_move, computer_move)),
            final(self).player_score == old(self).player_score + spec_payoff(
                player_move,
                computer_move,
            ).0,
            final(self).computer_score == old(self).computer_score + spec_payoff(
                player_move,
                computer_move,
            ).1,
            final(self).total_rounds == old(self).total_rounds,
            final(self).difficulty == old(self).difficulty,
    {
        let computer_move = get_computer_move(&self.history, self.difficulty);
        self.advance_round(player_move, computer_move);
        computer_move
    }

    /// A 30-cell text progress bar followed by `round/total_rounds`.
    pub open spec fn spec_progress_bar(self) -> Seq<char> {
        let filled = self.round as int * 30 / self.total_rounds as int;
        "["@ + Seq::new(filled as nat, |i: int| '#') + Seq::new((30 - filled) as nat, |i: int| '.')
            + "] "@ + dec_digits(self.round as nat) + "/"@ + dec_digits(self.total_rounds as nat)
    }

    /// Renders the progress bar: `#` for elapsed thirtieths, `.` for the rest.
    pub fn game_progress_bar(&self) -> (r: String)
        requires
            self.well_formed(),
        ensures
            r@ == self.spec_progress_bar(),
    {
        let filled = self.round as u64 * 30 / self.total_rounds as u64;
        proof {
            assert(self.round as int * 30 / self.total_rounds as int <= 30) by (nonlinear_arith)
                requires
                    self.round <= self.total_rounds,
                    1 <= self.total_rounds,
            ;
        }
        let mut bar = String::new();
        bar.append("[");
        let mut k: u64 = 0;
        while k < filled
            invariant
                k <= filled,
                filled == self.round as int * 30 / self.total_rounds as int,
                filled <= 30,
                bar@ == "["@ + Seq::new(k as nat, |i: int| '#'),
            decreases filled - k,
        {
            bar.append("#");
            k = k + 1;
            proof {
                reveal_strlit("#");
                assert(bar@ =~= "["@ + Seq::new(k as nat, |i: int| '#'));
            }
        }
        let mut m: u64 = 0;
        while m < 30 - filled
            invariant
                filled <= 30,
                m <= 30 - filled,
                filled == self.round as int * 30 / self.total_rounds as int,
                bar@ == "["@ + Seq::new(filled as nat, |i: int| '#') + Seq::new(
                    m as nat,
                    |i: int| '.',
                ),
            decreases 30 - filled - m,
        {
            bar.append(".");
            m = m + 1;
            proof {
                reveal_strlit(".");
                assert(bar@ =~= "["@ + Seq::new(filled as nat, |i: int| '#') + Seq::new(
                    m as nat,
                    |i: int| '.',
                ));
            }
        }
        bar.append("] ");
        append_u32(&mut bar, self.round);
        bar.append("/");
        append_u32(&mut bar, self.total_rounds);
        proof {
            assert(bar@ =~= self.spec_progress_bar());
        }
        bar
    }
}

} // verus!
