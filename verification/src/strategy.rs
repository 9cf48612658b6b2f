use rand::Rng;
use vstd::prelude::*;

use crate::engine::Difficulty;
use crate::engine::Move;

verus! {

/// Relies on rand::Rng::gen_range over the integer range 0..n: the result is
/// drawn uniformly from that range, and the call panics only when the range
/// is empty.
#[verifier::external_body]
fn draw_below(n: u32) -> (r: u32)
    requires
        1 <= n,
    ensures
        r < n,
{
    rand::thread_rng().gen_range(0..n)
}

/// The opposite move.
pub open spec fn invert(m: Move) -> Move {
    match m {
        Move::Cooperate => Move::Defect,
        Move::Defect => Move::Cooperate,
    }
}

/// How many recorded rounds have a player-side defection.
pub open spec fn count_defects(h: Seq<(Move, Move)>) -> nat
    decreases h.len(),
{
    if h.len() == 0 {
        0
    } else {
        count_defects(h.drop_last()) + if h.last().0 == Move::Defect {
            1nat
        } else {
            0nat
        }
    }
}

/// Whether the player's defect rate over the history exceeds
/// `tenths`/10 — e.g. `tenths == 4` tests for a rate above 0.4.
pub open spec fn defect_rate_above(h: Seq<(Move, Move)>, tenths: int) -> bool {
    10 * count_defects(h) > tenths * h.len()
}

/// The opponent's move as a function of the history and two uniform draws
/// from 0..100: `draw` decides the probabilistic branch of every tier, and
/// `flip` decides Legendary's final 15% inversion.
///
/// - Easy cooperates on 70 of the 100 draws, whatever the history.
/// - Medium opens with cooperation, then mirrors the player's last move on
///   85 of the 100 draws and defects on the rest.
/// - Hard opens with cooperation on 60 draws; afterwards it defects
///   unconditionally once the player's defect rate exceeds 0.4, and
///   otherwise cooperates on 60 draws.
/// - Legendary opens with cooperation on 50 draws; afterwards it defects
///   when the player's defect rate exceeds 0.3 or the player's last move was
///   a defection, otherwise defects on 50 draws — and finally inverts that
///   choice on 15 of the 100 flip draws.
pub open spec fn spec_next_move(
    h: Seq<(Move, Move)>,
    difficulty: Difficulty,
    draw: int,
    flip: int,
) -> Move {
    match difficulty {
        Difficulty::Easy => if draw < 70 {
            Move::Cooperate
        } else {
            Move::Defect
        },
        Difficulty::Medium => if h.len() == 0 {
            Move::Cooperate
        } else if draw < 85 {
            h.last().0
        } else {
            Move::Defect
        },
        Difficulty::Hard => if h.len() == 0 {
            if draw < 60 {
                Move::Cooperate
            } else {
                Move::Defect
            }
        } else if defect_rate_above(h, 4) {
            Move::Defect
        } else if draw < 60 {
            Move::Cooperate
        } else {
            Move::Defect
        },
        Difficulty::Legendary => if h.len() == 0 {
            if draw < 50 {
                Move::Cooperate
            } else {
                Move::Defect
            }
        } else {
            let base = if defect_rate_above(h, 3) {
                Move::Defect
            } else if h.last().0 == Move::Defect {
                Move::Defect
            } else if draw < 50 {
                Move::Defect
            } else {
                Move::Cooperate
            };
            if flip < 15 {
                invert(base)
            } else {
                base
            }
        },
    }
}

/// Counts the player-side defections in the history.
fn count_player_defects(history: &Vec<(Move, Move)>) -> (r: usize)
    ensures
        r as nat == count_defects(history@),
        r <= history@.len(),
{
    let mut count: usize = 0;
    let mut i: usize = 0;
    while i < history.len()
        invariant
            i <= history@.len(),
            count as nat == count_defects(history@.take(i as int)),
            count <= i,
        decreases history@.len() - i,
    {
        if history[i].0 == Move::Defect {
            count = count + 1;
        }
        i = i + 1;
        proof {
            let t = history@.take(i as int);
            assert(t.drop_last() =~= history@.take(i as int - 1));
            assert(t.last() == history@[i as int - 1]);
        }
    }
    proof {
        assert(history@.take(history@.len() as int) =~= history@);
    }
    count
}

/// Whether the player's defect rate exceeds `tenths`/10, computed without
/// division: 10 * defections > tenths * rounds.
fn defect_rate_exceeds(history: &Vec<(Move, Move)>, tenths: u32) -> (r: bool)
    requires
        tenths <= 10,
    ensures
        r == defect_rate_above(history@, tenths as int),
{
    let defects = count_player_defects(history);
    proof {
        vstd::arithmetic::mul::lemma_mul_inequality(
            tenths as int,
            10,
            history@.len() as int,
        );
    }
    10u128 * (defects as u128) > (tenths as u128) * (history.len() as u128)
}

/// The deterministic core of the strategy selector: both probabilistic
/// branches are decided by the caller-supplied draws.
pub fn decide_move(history: &Vec<(Move, Move)>, difficulty: Difficulty, draw: u32, flip: u32) -> (m:
    Move)
    requires
        draw < 100,
        flip < 100,
    ensures
        m == spec_next_move(history@, difficulty, draw as int, flip as int),
{
    match difficulty {
        Difficulty::Easy => {
            if draw < 70 {
                Move::Cooperate
            } else {
                Move::Defect
            }
        },
        Difficulty::Medium => {
            if history.len() == 0 {
                Move::Cooperate
            } else {
                let last_player_move = history[history.len() - 1].0;
                if draw < 85 {
                    last_player_move
                } else {
                    Move::Defect
                }
            }
        },
        Difficulty::Hard => {
            if history.len() == 0 {
                if draw < 60 {
                    Move::Cooperate
                } else {
                    Move::Defect
                }
            } else if defect_rate_exceeds(history, 4) {
                Move::Defect
            } else if draw < 60 {
                Move::Cooperate
            } else {
                Move::Defect
            }
        },
        Difficulty::Legendary => {
            if history.len() == 0 {
                if draw < 50 {
                    Move::Cooperate
                } else {
                    Move::Defect
                }
            } else {
                let last_move = history[history.len() - 1].0;
                let base = if defect_rate_exceeds(history, 3) {
                    Move::Defect
                } else if last_move == Move::Defect {
                    Move::Defect
                } else if draw < 50 {
                    Move::Defect
                } else {
                    Move::Cooperate
                };
                if flip < 15 {
                    if base == Move::Cooperate {
                        Move::Defect
                    } else {
                        Move::Cooperate
                    }
                } else {
                    base
                }
            }
        },
    }
}

/// The opponent's next move for the given history and difficulty, with both
/// probabilistic branches decided by fresh uniform draws. Every outcome is
/// the strategy's answer for some pair of draws from 0..100.
pub fn get_computer_move(history: &Vec<(Move, Move)>, difficulty: Difficulty) -> (m: Move)
    ensures
        exists|draw: int, flip: int|
            0 <= draw < 100 && 0 <= flip < 100 && m == spec_next_move(
                history@,
                difficulty,
                draw,
                flip,
            ),
{
    let draw = draw_below(100);
    let flip = draw_below(100);
    let m = decide_move(history, difficulty, draw, flip);
    proof {
        assert(0 <= (draw as int) && (draw as int) < 100 && 0 <= (flip as int) && (flip as int)
            < 100 && m == spec_next_move(history@, difficulty, draw as int, flip as int));
    }
    m
}

/// Easy cooperates on exactly the 70 draws below 70 out of 100, whatever
/// the history: over uniform draws that is a 70% cooperation rate.
pub proof fn lemma_easy_rate(h: Seq<(Move, Move)>, draw: int, flip: int)
    ensures
        spec_next_move(h, Difficulty::Easy, draw, flip) == Move::Cooperate <==> draw < 70,
{
}

/// Punishment mode is deterministic: once the player's defect rate exceeds
/// 0.4, Hard defects whatever the draws; once it exceeds 0.3, Legendary's
/// pre-flip choice is a defection, so its answer is a defection for the 85
/// flip draws that keep the choice and a cooperation for the 15 that invert
/// it.
pub proof fn lemma_punishment_mode(h: Seq<(Move, Move)>, draw: int, flip: int)
    requires
        h.len() > 0,
    ensures
        defect_rate_above(h, 4) ==> spec_next_move(h, Difficulty::Hard, draw, flip)
            == Move::Defect,
        defect_rate_above(h, 3) ==> spec_next_move(h, Difficulty::Legendary, draw, flip) == (
        if flip < 15 {
            Move::Cooperate
        } else {
            Move::Defect
        }),
{
}

/// Medium opens every game with cooperation, and otherwise mirrors the
/// player's most recent move on draws below 85 and defects on the rest.
pub proof fn lemma_medium_tit_for_tat(h: Seq<(Move, Move)>, draw: int, flip: int)
    ensures
        h.len() == 0 ==> spec_next_move(h, Difficulty::Medium, draw, flip) == Move::Cooperate,
        h.len() > 0 && draw < 85 ==> spec_next_move(h, Difficulty::Medium, draw, flip)
            == h.last().0,
        h.len() > 0 && draw >= 85 ==> spec_next_move(h, Difficulty::Medium, draw, flip)
            == Move::Defect,
{
}

} // verus!
