use vstd::prelude::*;

verus! {

/// One of the two choices available to either side in a round.
#[derive(Clone, Copy, Debug, PartialEq, Eq, Structural)]
pub enum Move {
    Cooperate,
    Defect,
}

/// The opponent's play style, fixed for the lifetime of one game.
#[derive(Clone, Copy, Debug, PartialEq, Eq, Structural)]
pub enum Difficulty {
    Easy,
    Medium,
    Hard,
    Legendary,
}

/// The classical payoff matrix: (player points, opponent points) for one round.
pub open spec fn spec_payoff(player_move: Move, computer_move: Move) -> (int, int) {
    match (player_move, computer_move) {
        (Move::Cooperate, Move::Cooperate) => (3int, 3int),
        (Move::Cooperate, Move::Defect) => (0int, 5int),
        (Move::Defect, Move::Cooperate) => (5int, 0int),
        (Move::Defect, Move::Defect) => (1int, 1int),
    }
}

/// The matrix pays out a fixed joint total per outcome: 6 for mutual
/// cooperation, 5 when exactly one side defects, 2 for mutual defection.
/// The totals depend on the two moves alone.
pub proof fn lemma_payoff_totals(player_move: Move, computer_move: Move)
    ensures
        spec_payoff(player_move, computer_move).0 + spec_payoff(player_move, computer_move).1 == (
        if player_move == computer_move {
            if player_move == Move::Cooperate {
                6int
            } else {
                2int
            }
        } else {
            5int
        }),
{
}

/// Defection point-dominates cooperation against either fixed opponent move,
/// and the four individual payouts are ordered 0 < 1 < 3 < 5.
pub proof fn lemma_defection_dominates(computer_move: Move)
    ensures
        spec_payoff(Move::Defect, computer_move).0 > spec_payoff(Move::Cooperate, computer_move).0,
{
}

} // verus!
