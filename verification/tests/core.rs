use prisoners_dilemma::Difficulty;
use prisoners_dilemma::GameState;
use prisoners_dilemma::Move;
use prisoners_dilemma::Statistics;
use prisoners_dilemma::decide_move;
use prisoners_dilemma::get_computer_move;

fn new_game(rounds: u32, difficulty: Difficulty) -> GameState {
    GameState::new(rounds, difficulty)
}

#[test]
fn payoff_matrix_values() {
    let g = new_game(1, Difficulty::Easy);
    assert_eq!(g.calculate_payoff(Move::Cooperate, Move::Cooperate), (3, 3));
    assert_eq!(g.calculate_payoff(Move::Cooperate, Move::Defect), (0, 5));
    assert_eq!(g.calculate_payoff(Move::Defect, Move::Cooperate), (5, 0));
    assert_eq!(g.calculate_payoff(Move::Defect, Move::Defect), (1, 1));
}

#[test]
fn payoff_totals_per_outcome() {
    let g = new_game(1, Difficulty::Legendary);
    let cases = [
        (Move::Cooperate, Move::Cooperate, 6),
        (Move::Cooperate, Move::Defect, 5),
        (Move::Defect, Move::Cooperate, 5),
        (Move::Defect, Move::Defect, 2),
    ];
    for (p, c, total) in cases {
        let (a, b) = g.calculate_payoff(p, c);
        assert_eq!(a + b, total);
    }
}

#[test]
fn game_state_invariant_over_rounds() {
    let mut g = new_game(4, Difficulty::Medium);
    assert_eq!(g.round, 0);
    assert_eq!(g.history.len(), 0);
    let script = [
        (Move::Cooperate, Move::Cooperate),
        (Move::Defect, Move::Cooperate),
        (Move::Cooperate, Move::Defect),
        (Move::Defect, Move::Defect),
    ];
    let mut player_sum = 0;
    let mut computer_sum = 0;
    for (i, (pm, cm)) in script.iter().enumerate() {
        g.advance_round(*pm, *cm);
        let (pp, cp) = g.calculate_payoff(*pm, *cm);
        player_sum += pp;
        computer_sum += cp;
        assert_eq!(g.round as usize, i + 1);
        assert_eq!(g.history.len(), i + 1);
        assert_eq!(g.player_score, player_sum);
        assert_eq!(g.computer_score, computer_sum);
    }
    assert_eq!(g.player_score, 3 + 5 + 0 + 1);
    assert_eq!(g.computer_score, 3 + 0 + 5 + 1);
}

#[test]
fn play_round_keeps_scores_in_step_with_history() {
    let mut g = new_game(5, Difficulty::Legendary);
    for _ in 0..5 {
        g.play_round(Move::Cooperate);
    }
    assert_eq!(g.round, 5);
    assert_eq!(g.history.len(), 5);
    let mut player_sum = 0;
    let mut computer_sum = 0;
    for (pm, cm) in &g.history {
        let (pp, cp) = g.calculate_payoff(*pm, *cm);
        player_sum += pp;
        computer_sum += cp;
    }
    assert_eq!(g.player_score, player_sum);
    assert_eq!(g.computer_score, computer_sum);
}

#[test]
fn easy_game_scenario_three_rounds() {
    // A three-round game where the player always cooperates and the
    // opponent plays Cooperate, Defect, Cooperate.
    let mut g = new_game(3, Difficulty::Easy);
    g.advance_round(Move::Cooperate, Move::Cooperate);
    g.advance_round(Move::Cooperate, Move::Defect);
    g.advance_round(Move::Cooperate, Move::Cooperate);
    assert_eq!(g.player_score, 6);
    assert_eq!(g.computer_score, 11);

    let mut stats = Statistics::new();
    stats.record_game(&g);
    assert_eq!(stats.games_played, 1);
    assert_eq!(stats.games_lost, 1);
    assert_eq!(stats.games_won, 0);
    assert_eq!(stats.games_tied, 0);
    assert_eq!(stats.total_points, 6);
    assert_eq!(stats.best_score_differential, 0);
    assert_eq!(stats.worst_score_differential, -5);
}

fn forced_game(pairs: &[(Move, Move)]) -> GameState {
    let mut g = new_game(pairs.len() as u32, Difficulty::Hard);
    for (pm, cm) in pairs {
        g.advance_round(*pm, *cm);
    }
    g
}

#[test]
fn statistics_fold_is_order_independent() {
    // Differentials +5, -10, +15, -5 through real games; the payoff matrix
    // only yields differences that are multiples of five.
    let games = [
        forced_game(&[(Move::Defect, Move::Cooperate)]),
        forced_game(&[(Move::Cooperate, Move::Defect), (Move::Cooperate, Move::Defect)]),
        forced_game(&[
            (Move::Defect, Move::Cooperate),
            (Move::Defect, Move::Cooperate),
            (Move::Defect, Move::Cooperate),
        ]),
        forced_game(&[(Move::Cooperate, Move::Defect)]),
    ];
    let mut forward = Statistics::new();
    for g in &games {
        forward.record_game(g);
    }
    let mut backward = Statistics::new();
    for g in games.iter().rev() {
        backward.record_game(g);
    }
    assert_eq!(forward, backward);
    assert_eq!(forward.games_played, 4);
    assert_eq!(forward.games_won, 2);
    assert_eq!(forward.games_lost, 2);
    assert_eq!(forward.games_tied, 0);
    assert_eq!(forward.best_score_differential, 15);
    assert_eq!(forward.worst_score_differential, -10);
}

#[test]
fn statistics_counters_are_additive() {
    let win = forced_game(&[(Move::Defect, Move::Cooperate)]);
    let tie = forced_game(&[(Move::Cooperate, Move::Cooperate)]);
    let mut stats = Statistics::new();
    stats.record_game(&win);
    stats.record_game(&tie);
    stats.record_game(&win);
    assert_eq!(stats.games_played, 3);
    assert_eq!(stats.games_won, 2);
    assert_eq!(stats.games_tied, 1);
    assert_eq!(stats.total_points, 5 + 3 + 5);
}

#[test]
fn decide_move_easy_thresholds() {
    let history: Vec<(Move, Move)> = Vec::new();
    assert_eq!(decide_move(&history, Difficulty::Easy, 0, 0), Move::Cooperate);
    assert_eq!(decide_move(&history, Difficulty::Easy, 69, 0), Move::Cooperate);
    assert_eq!(decide_move(&history, Difficulty::Easy, 70, 0), Move::Defect);
    assert_eq!(decide_move(&history, Difficulty::Easy, 99, 0), Move::Defect);
}

#[test]
fn decide_move_medium_mirrors_last_player_move() {
    let empty: Vec<(Move, Move)> = Vec::new();
    for draw in [0, 50, 99] {
        assert_eq!(decide_move(&empty, Difficulty::Medium, draw, 0), Move::Cooperate);
    }
    let after_defect = vec![(Move::Cooperate, Move::Cooperate), (Move::Defect, Move::Cooperate)];
    assert_eq!(decide_move(&after_defect, Difficulty::Medium, 84, 0), Move::Defect);
    let after_coop = vec![(Move::Defect, Move::Cooperate), (Move::Cooperate, Move::Cooperate)];
    assert_eq!(decide_move(&after_coop, Difficulty::Medium, 84, 0), Move::Cooperate);
    assert_eq!(decide_move(&after_coop, Difficulty::Medium, 85, 0), Move::Defect);
}

#[test]
fn decide_move_hard_punishes_high_defect_rate() {
    // Three defections in five rounds: rate 0.6 > 0.4, so Hard defects
    // whatever the draw.
    let history = vec![
        (Move::Defect, Move::Cooperate),
        (Move::Defect, Move::Cooperate),
        (Move::Defect, Move::Cooperate),
        (Move::Cooperate, Move::Cooperate),
        (Move::Cooperate, Move::Cooperate),
    ];
    for draw in [0, 30, 59, 60, 99] {
        assert_eq!(decide_move(&history, Difficulty::Hard, draw, 0), Move::Defect);
    }
    // Two in five: rate 0.4 is not above 0.4, so the draw decides.
    let mild = vec![
        (Move::Defect, Move::Cooperate),
        (Move::Defect, Move::Cooperate),
        (Move::Cooperate, Move::Cooperate),
        (Move::Cooperate, Move::Cooperate),
        (Move::Cooperate, Move::Cooperate),
    ];
    assert_eq!(decide_move(&mild, Difficulty::Hard, 59, 0), Move::Cooperate);
    assert_eq!(decide_move(&mild, Difficulty::Hard, 60, 0), Move::Defect);
}

#[test]
fn decide_move_legendary_punishment_and_flip() {
    // Two defections in five rounds: rate 0.4 > 0.3 forces the pre-flip
    // choice to Defect; the flip draw below 15 inverts it.
    let history = vec![
        (Move::Defect, Move::Cooperate),
        (Move::Defect, Move::Cooperate),
        (Move::Cooperate, Move::Cooperate),
        (Move::Cooperate, Move::Cooperate),
        (Move::Cooperate, Move::Cooperate),
    ];
    for draw in [0, 50, 99] {
        assert_eq!(decide_move(&history, Difficulty::Legendary, draw, 15), Move::Defect);
        assert_eq!(decide_move(&history, Difficulty::Legendary, draw, 14), Move::Cooperate);
    }
    // Low defect rate but the last player move was a defection.
    let last_defect = vec![
        (Move::Cooperate, Move::Cooperate),
        (Move::Cooperate, Move::Cooperate),
        (Move::Cooperate, Move::Cooperate),
        (Move::Cooperate, Move::Cooperate),
        (Move::Defect, Move::Cooperate),
    ];
    assert_eq!(decide_move(&last_defect, Difficulty::Legendary, 99, 15), Move::Defect);
    assert_eq!(decide_move(&last_defect, Difficulty::Legendary, 99, 14), Move::Cooperate);
}

#[test]
fn easy_distribution_is_roughly_seventy_thirty() {
    let history: Vec<(Move, Move)> = Vec::new();
    let mut cooperates = 0;
    for _ in 0..10_000 {
        if get_computer_move(&history, Difficulty::Easy) == Move::Cooperate {
            cooperates += 1;
        }
    }
    assert!(cooperates > 6_500, "cooperated only {} times in 10000", cooperates);
    assert!(cooperates < 7_500, "cooperated {} times in 10000", cooperates);
}

#[test]
fn medium_opens_with_cooperation_and_mostly_mirrors() {
    let empty: Vec<(Move, Move)> = Vec::new();
    for _ in 0..200 {
        assert_eq!(get_computer_move(&empty, Difficulty::Medium), Move::Cooperate);
    }
    let after_coop = vec![(Move::Cooperate, Move::Defect)];
    let mut mirrored = 0;
    for _ in 0..10_000 {
        if get_computer_move(&after_coop, Difficulty::Medium) == Move::Cooperate {
            mirrored += 1;
        }
    }
    assert!(mirrored > 8_000, "mirrored only {} times in 10000", mirrored);
    assert!(mirrored < 9_000, "mirrored {} times in 10000", mirrored);
}

#[test]
fn hard_punishment_mode_is_deterministic() {
    let history = vec![
        (Move::Defect, Move::Cooperate),
        (Move::Defect, Move::Cooperate),
        (Move::Defect, Move::Cooperate),
        (Move::Cooperate, Move::Cooperate),
        (Move::Cooperate, Move::Cooperate),
    ];
    for _ in 0..1_000 {
        assert_eq!(get_computer_move(&history, Difficulty::Hard), Move::Defect);
    }
}

#[test]
fn legendary_flip_rate_is_roughly_fifteen_percent() {
    // Punishment mode pre-flip: only the 15% inversion yields cooperation.
    let history = vec![
        (Move::Defect, Move::Cooperate),
        (Move::Defect, Move::Cooperate),
        (Move::Cooperate, Move::Cooperate),
        (Move::Cooperate, Move::Cooperate),
        (Move::Cooperate, Move::Cooperate),
    ];
    let mut cooperates = 0;
    for _ in 0..10_000 {
        if get_computer_move(&history, Difficulty::Legendary) == Move::Cooperate {
            cooperates += 1;
        }
    }
    assert!(cooperates > 1_000, "flipped only {} times in 10000", cooperates);
    assert!(cooperates < 2_000, "flipped {} times in 10000", cooperates);
}

#[test]
fn progress_bar_renders_fill_and_counts() {
    let mut g = new_game(10, Difficulty::Easy);
    assert_eq!(g.game_progress_bar(), format!("[{}] 0/10", ".".repeat(30)));
    g.advance_round(Move::Cooperate, Move::Cooperate);
    g.advance_round(Move::Cooperate, Move::Cooperate);
    g.advance_round(Move::Cooperate, Move::Cooperate);
    let expected = format!("[{}{}] 3/10", "#".repeat(9), ".".repeat(21));
    assert_eq!(g.game_progress_bar(), expected);
}

#[test]
fn progress_bar_full_at_final_round() {
    let mut g = new_game(1, Difficulty::Hard);
    g.advance_round(Move::Defect, Move::Defect);
    assert_eq!(g.game_progress_bar(), format!("[{}] 1/1", "#".repeat(30)));
}
