use vstd::prelude::*;

use crate::engine::Difficulty;
use crate::engine::Move;
use crate::numeral::all_digits;
use crate::numeral::digit_val;
use crate::numeral::is_digit;
use crate::numeral::val_of;

verus! {

/// Whether a token is exactly the given single character.
fn is_single(s: &str, c: char) -> (r: bool)
    ensures
        r == (s@ =~= seq![c]),
{
    if s.unicode_len() == 1 {
        let got = s.get_char(0);
        proof {
            if got == c {
                assert(s@ =~= seq![c]);
            }
        }
        got == c
    } else {
        false
    }
}

/// Reads a move token: `1` chooses cooperation, `2` defection; everything
/// else is rejected so that the prompt can ask again.
pub fn parse_move_choice(s: &str) -> (r: Option<Move>)
    ensures
        r == (if s@ == seq!['1'] {
            Some(Move::Cooperate)
        } else if s@ == seq!['2'] {
            Some(Move::Defect)
        } else {
            None::<Move>
        }),
{
    if is_single(s, '1') {
        Some(Move::Cooperate)
    } else if is_single(s, '2') {
        Some(Move::Defect)
    } else {
        None
    }
}

/// Reads a difficulty token: `1` to `4` select the four tiers in order;
/// everything else is rejected so that the prompt can ask again.
pub fn parse_difficulty_choice(s: &str) -> (r: Option<Difficulty>)
    ensures
        r == (if s@ == seq!['1'] {
            Some(Difficulty::Easy)
        } else if s@ == seq!['2'] {
            Some(Difficulty::Medium)
        } else if s@ == seq!['3'] {
            Some(Difficulty::Hard)
        } else if s@ == seq!['4'] {
            Some(Difficulty::Legendary)
        } else {
            None::<Difficulty>
        }),
{
    if is_single(s, '1') {
        Some(Difficulty::Easy)
    } else if is_single(s, '2') {
        Some(Difficulty::Medium)
    } else if is_single(s, '3') {
        Some(Difficulty::Hard)
    } else if is_single(s, '4') {
        Some(Difficulty::Legendary)
    } else {
        None
    }
}

/// Reads a main-menu token: `1` play, `2` statistics, `3` rules, `4` quit;
/// everything else is rejected so that the menu can ask again.
pub fn parse_menu_choice(s: &str) -> (r: Option<u32>)
    ensures
        r == (if s@ == seq!['1'] {
            Some(1u32)
        } else if s@ == seq!['2'] {
            Some(2u32)
        } else if s@ == seq!['3'] {
            Some(3u32)
        } else if s@ == seq!['4'] {
            Some(4u32)
        } else {
            None::<u32>
        }),
{
    if is_single(s, '1') {
        Some(1)
    } else if is_single(s, '2') {
        Some(2)
    } else if is_single(s, '3') {
        Some(3)
    } else if is_single(s, '4') {
        Some(4)
    } else {
        None
    }
}

/// Whether a play-again answer counts as a yes: exactly `y` or `Y`.
pub fn is_affirmative(s: &str) -> (r: bool)
    ensures
        r == (s@ == seq!['y'] || s@ == seq!['Y']),
{
    let lower = is_single(s, 'y');
    let upper = is_single(s, 'Y');
    lower || upper
}

/// The digits of a round-count token: an optional leading `+` sign is
/// allowed, as the usual decimal grammar for unsigned integers has it.
pub open spec fn numeral_body(s: Seq<char>) -> Seq<char> {
    if s.len() >= 1 && s[0] == '+' {
        s.skip(1)
    } else {
        s
    }
}

/// A round-count token is accepted exactly when it is all digits after the
/// optional sign, nonempty, and denotes a value from 1 to 50.
pub open spec fn valid_round_count(s: Seq<char>) -> bool {
    let b = numeral_body(s);
    b.len() >= 1 && all_digits(b) && 1 <= val_of(b) <= 50
}

/// Reads a round-count token. Out-of-range and non-numeric tokens are
/// rejected so that no game is ever created outside 1 to 50 rounds.
pub fn parse_round_count(s: &str) -> (r: Option<u32>)
    ensures
        valid_round_count(s@) ==> r == Some((val_of(numeral_body(s@)) as u32)),
        !valid_round_count(s@) ==> r == None::<u32>,
{
    let n = s.unicode_len();
    let start: usize = if n >= 1 && s.get_char(0) == '+' {
        1
    } else {
        0
    };
    proof {
        assert(numeral_body(s@) =~= s@.skip(start as int));
    }
    let ghost body = s@.skip(start as int);
    if start >= n {
        return None;
    }
    // `value` tracks the denoted value, saturated at 51 so that any token
    // above the 50-round cap is rejected without unbounded arithmetic.
    let mut value: u32 = 0;
    let mut i: usize = start;
    while i < n
        invariant
            start <= i <= n,
            n == s@.len(),
            body == s@.skip(start as int),
            body == numeral_body(s@),
            all_digits(body.take(i as int - start as int)),
            (value <= 50 && value as int == val_of(body.take(i as int - start as int))) || (value == 51 && val_of(
                body.take(i as int - start as int),
            ) > 50),
        decreases n - i,
    {
        let c = s.get_char(i);
        let code = c as u32;
        if code < 48 || code > 57 {
            proof {
                assert(body[i as int - start as int] == s@[i as int]);
                assert(!is_digit(body[i as int - start as int]));
                assert(0 <= i as int - start as int && (i as int - start as int) < body.len());
                assert(!all_digits(body));
                assert(!valid_round_count(s@));
            }
            return None;
        }
        proof {
            let p = body.take(i as int - start as int);
            let q = body.take(i as int + 1 - start as int);
            assert(q.drop_last() =~= p);
            assert(q.last() == body[i as int - start as int]);
            assert(val_of(q) == val_of(p) * 10 + digit_val(c));
            assert(all_digits(q)) by {
                assert(forall|k: int| 0 <= k < p.len() ==> q[k] == #[trigger] p[k]);
            }
        }
        if value >= 51 {
            value = 51;
        } else {
            let nv = value * 10 + (code - 48);
            if nv > 50 {
                value = 51;
            } else {
                value = nv;
            }
        }
        i = i + 1;
    }
    proof {
        assert(body.take(n as int - start as int) =~= body);
        if 1 <= value && value <= 50 {
            assert(valid_round_count(s@));
        } else {
            if value == 0 {
                assert(val_of(body) == 0);
            } else {
                assert(val_of(body) > 50);
            }
            assert(!valid_round_count(s@));
        }
    }
    if 1 <= value && value <= 50 {
        Some(value)
    } else {
        None
    }
}

} // verus!
