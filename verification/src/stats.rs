use vstd::prelude::*;

use crate::game::GameState;

verus! {

/// Lifetime counters folded over completed games.
#[derive(Clone, Debug, PartialEq, Eq, Structural)]
pub struct Statistics {
    pub games_played: u32,
    pub games_won: u32,
    pub games_lost: u32,
    pub games_tied: u32,
    pub total_points: i32,
    pub best_score_differential: i32,
    pub worst_score_differential: i32,
}

/// The mathematical value of a statistics record.
pub ghost struct StatsModel {
    pub games_played: int,
    pub games_won: int,
    pub games_lost: int,
    pub games_tied: int,
    pub total_points: int,
    pub best_score_differential: int,
    pub worst_score_differential: int,
}

impl View for Statistics {
    type V = StatsModel;

    open spec fn view(&self) -> StatsModel {
        StatsModel {
            games_played: self.games_played as int,
            games_won: self.games_won as int,
            games_lost: self.games_lost as int,
            games_tied: self.games_tied as int,
            total_points: self.total_points as int,
            best_score_differential: self.best_score_differential as int,
            worst_score_differential: self.worst_score_differential as int,
        }
    }
}

/// Folding one completed game with final scores (`player`, `computer`) into
/// the record: play count and point total grow, exactly one of the
/// win/loss/tie counters grows, and the best/worst differentials are the
/// running maximum/minimum of the per-game score differences.
pub open spec fn spec_record(m: StatsModel, player: int, computer: int) -> StatsModel {
    StatsModel {
        games_played: m.games_played + 1,
        games_won: m.games_won + if player > computer {
            1int
        } else {
            0int
        },
        games_lost: m.games_lost + if player < computer {
            1int
        } else {
            0int
        },
        games_tied: m.games_tied + if player == computer {
            1int
        } else {
            0int
        },
        total_points: m.total_points + player,
        best_score_differential: if player - computer > m.best_score_differential {
            player - computer
        } else {
            m.best_score_differential
        },
        worst_score_differential: if player - computer < m.worst_score_differential {
            player - computer
        } else {
            m.worst_score_differential
        },
    }
}

impl Statistics {
    /// All counters at zero: the record substituted whenever no readable
    /// persisted record exists.
    pub fn new() -> (r: Statistics)
        ensures
            r.games_played == 0,
            r.games_won == 0,
            r.games_lost == 0,
            r.games_tied == 0,
            r.total_points == 0,
            r.best_score_differential == 0,
            r.worst_score_differential == 0,
    {
        Statistics {
            games_played: 0,
            games_won: 0,
            games_lost: 0,
            games_tied: 0,
            total_points: 0,
            best_score_differential: 0,
            worst_score_differential: 0,
        }
    }

    /// The win/loss/tie counters partition the games played.
    pub open spec fn consistent(self) -> bool {
        self@.games_won + self@.games_lost + self@.games_tied == self@.games_played
    }

    /// Folds one finished game into the record, all-or-nothing.
    pub fn record_game(&mut self, game: &GameState)
        requires
            game.well_formed(),
            game.finished(),
            old(self).games_played < u32::MAX,
            old(self).games_won < u32::MAX,
            old(self).games_lost < u32::MAX,
            old(self).games_tied < u32::MAX,
            old(self).total_points + game.player_score <= i32::MAX,
        ensures
            final(self)@ == spec_record(
                old(self)@,
                game.player_score as int,
                game.computer_score as int,
            ),
            old(self).consistent() ==> final(self).consistent(),
    {
        proof {
            crate::game::lemma_sum_bounds(game.history@);
        }
        self.games_played = self.games_played + 1;
        self.total_points = self.total_points + game.player_score;

        if game.player_score > game.computer_score {
            self.games_won = self.games_won + 1;
        } else if game.player_score < game.computer_score {
            self.games_lost = self.games_lost + 1;
        } else {
            self.games_tied = self.games_tied + 1;
        }

        let diff = game.player_score - game.computer_score;
        if diff > self.best_score_differential {
            self.best_score_differential = diff;
        }
        if diff < self.worst_score_differential {
            self.worst_score_differential = diff;
        }
    }
}

/// Folding games into the record is order-independent: the counters and the
/// point total are sums, and the best/worst differentials are running
/// maxima/minima, so exchanging two games leaves the result unchanged.
pub proof fn lemma_record_order_independent(
    m: StatsModel,
    player_a: int,
    computer_a: int,
    player_b: int,
    computer_b: int,
)
    ensures
        spec_record(spec_record(m, player_a, computer_a), player_b, computer_b) == spec_record(
            spec_record(m, player_b, computer_b),
            player_a,
            computer_a,
        ),
{
}

} // verus!
