use prisoners_dilemma::Difficulty;
use prisoners_dilemma::GameState;
use prisoners_dilemma::Move;
use prisoners_dilemma::Statistics;
use prisoners_dilemma::decode_stats;
use prisoners_dilemma::encode_stats;
use prisoners_dilemma::is_affirmative;
use prisoners_dilemma::parse_difficulty_choice;
use prisoners_dilemma::parse_menu_choice;
use prisoners_dilemma::parse_move_choice;
use prisoners_dilemma::parse_round_count;

#[test]
fn encode_of_fresh_record_is_exact() {
    let stats = Statistics::new();
    let text = encode_stats(&stats);
    assert_eq!(
        text,
        "{\"games_played\":0,\"games_won\":0,\"games_lost\":0,\"games_tied\":0,\
         \"total_points\":0,\"best_score_differential\":0,\"worst_score_differential\":0}"
    );
}

#[test]
fn round_trip_fresh_record() {
    let stats = Statistics::new();
    assert_eq!(decode_stats(&encode_stats(&stats)), Some(stats));
}

#[test]
fn round_trip_after_games_with_negative_differential() {
    let mut stats = Statistics::new();
    let mut lost = GameState::new(2, Difficulty::Hard);
    lost.advance_round(Move::Cooperate, Move::Defect);
    lost.advance_round(Move::Cooperate, Move::Defect);
    stats.record_game(&lost);
    let mut won = GameState::new(1, Difficulty::Easy);
    won.advance_round(Move::Defect, Move::Cooperate);
    stats.record_game(&won);
    assert_eq!(stats.worst_score_differential, -10);
    assert_eq!(stats.best_score_differential, 5);
    let text = encode_stats(&stats);
    assert_eq!(decode_stats(&text), Some(stats));
}

#[test]
fn decode_rejects_malformed_records() {
    assert_eq!(decode_stats(""), None);
    assert_eq!(decode_stats("{}"), None);
    assert_eq!(decode_stats("not a record"), None);
    assert_eq!(decode_stats("{\"games_played\":0}"), None);
    // Non-canonical numerals are rejected.
    assert_eq!(
        decode_stats(
            "{\"games_played\":00,\"games_won\":0,\"games_lost\":0,\"games_tied\":0,\
             \"total_points\":0,\"best_score_differential\":0,\"worst_score_differential\":0}"
        ),
        None
    );
    // Trailing text after the closing brace is rejected.
    let good = encode_stats(&Statistics::new());
    let mut padded = good.clone();
    padded.push(' ');
    assert_eq!(decode_stats(&padded), None);
    assert!(decode_stats(&good).is_some());
}

#[test]
fn decode_rejects_out_of_range_values() {
    assert_eq!(
        decode_stats(
            "{\"games_played\":4294967296,\"games_won\":0,\"games_lost\":0,\"games_tied\":0,\
             \"total_points\":0,\"best_score_differential\":0,\"worst_score_differential\":0}"
        ),
        None
    );
    assert_eq!(
        decode_stats(
            "{\"games_played\":0,\"games_won\":0,\"games_lost\":0,\"games_tied\":0,\
             \"total_points\":0,\"best_score_differential\":0,\"worst_score_differential\":-0}"
        ),
        None
    );
}

#[test]
fn round_count_accepts_only_one_to_fifty() {
    assert_eq!(parse_round_count("0"), None);
    assert_eq!(parse_round_count("51"), None);
    assert_eq!(parse_round_count("abc"), None);
    assert_eq!(parse_round_count(""), None);
    assert_eq!(parse_round_count("+"), None);
    assert_eq!(parse_round_count("-3"), None);
    assert_eq!(parse_round_count("10x"), None);
    assert_eq!(parse_round_count("999999999999999999999"), None);
    assert_eq!(parse_round_count("1"), Some(1));
    assert_eq!(parse_round_count("50"), Some(50));
    assert_eq!(parse_round_count("+7"), Some(7));
    assert_eq!(parse_round_count("007"), Some(7));
}

#[test]
fn move_choice_tokens() {
    assert_eq!(parse_move_choice("1"), Some(Move::Cooperate));
    assert_eq!(parse_move_choice("2"), Some(Move::Defect));
    assert_eq!(parse_move_choice("3"), None);
    assert_eq!(parse_move_choice(""), None);
    assert_eq!(parse_move_choice("12"), None);
}

#[test]
fn difficulty_choice_tokens() {
    assert_eq!(parse_difficulty_choice("1"), Some(Difficulty::Easy));
    assert_eq!(parse_difficulty_choice("2"), Some(Difficulty::Medium));
    assert_eq!(parse_difficulty_choice("3"), Some(Difficulty::Hard));
    assert_eq!(parse_difficulty_choice("4"), Some(Difficulty::Legendary));
    assert_eq!(parse_difficulty_choice("5"), None);
    assert_eq!(parse_difficulty_choice("easy"), None);
}

#[test]
fn menu_choice_tokens() {
    assert_eq!(parse_menu_choice("1"), Some(1));
    assert_eq!(parse_menu_choice("4"), Some(4));
    assert_eq!(parse_menu_choice("0"), None);
    assert_eq!(parse_menu_choice("quit"), None);
}

#[test]
fn affirmative_tokens() {
    assert!(is_affirmative("y"));
    assert!(is_affirmative("Y"));
    assert!(!is_affirmative("n"));
    assert!(!is_affirmative("yes"));
    assert!(!is_affirmative(""));
}
