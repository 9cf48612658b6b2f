//! Verified core of a turn-based iterated Prisoner's Dilemma: the payoff
//! matrix, the four difficulty-tiered opponent strategies, the round/game
//! state machine, the lifetime statistics fold, and the text codec for the
//! persisted statistics record. Terminal rendering, prompting and file
//! access live outside the library and exchange plain values with it.

mod codec;
mod engine;
mod game;
mod input;
mod numeral;
mod stats;
mod strategy;

pub use engine::Difficulty;
pub use engine::Move;
pub use engine::lemma_defection_dominates;
pub use engine::lemma_payoff_totals;
pub use engine::spec_payoff;
pub use codec::dec_i32;
pub use codec::decode_stats;
pub use codec::encode_stats;
pub use codec::spec_encode;
pub use game::GameState;
pub use game::lemma_sum_bounds;
pub use game::sum_computer;
pub use game::sum_player;
pub use numeral::all_digits;
pub use numeral::append_u32;
pub use numeral::dec_digits;
pub use numeral::digit_char;
pub use numeral::digit_val;
pub use numeral::is_digit;
pub use input::is_affirmative;
pub use input::parse_difficulty_choice;
pub use input::parse_menu_choice;
pub use input::parse_move_choice;
pub use input::parse_round_count;
pub use input::valid_round_count;
pub use numeral::val_of;
pub use stats::Statistics;
pub use stats::StatsModel;
pub use stats::lemma_record_order_independent;
pub use stats::spec_record;
pub use strategy::count_defects;
pub use strategy::decide_move;
pub use strategy::defect_rate_above;
pub use strategy::get_computer_move;
pub use strategy::invert;
pub use strategy::lemma_easy_rate;
pub use strategy::lemma_medium_tit_for_tat;
pub use strategy::lemma_punishment_mode;
pub use strategy::spec_next_move;
